//! Framing: cutting the bytes received on a connection into lines.
//!
//! A line ends at `\r\n`. A line may also carry a size: after the first `$`
//! that a `;` follows, the decimal number between them counts the bytes that
//! come after the `;` and belong to the line, whatever they are; the two
//! bytes after the line are then skipped.

use bytes::BytesMut;
use vstd::prelude::*;
use vstd::slice::slice_subrange;
use vstd::utf8::valid_utf8;

use crate::buffer::{buf_advance, buf_as_slice, buf_bytes, buf_extend, buf_split_to, buf_with_capacity};
use crate::command::{DOLLAR, SEMICOLON};
use crate::text::{
    find_from, is_ascii_digit, lemma_find_from, lemma_find_from_at, parse_usize,
    str_from_utf8, unsigned_part, usize_text,
};
use vstd::utf8::{is_leading_byte_width_1, partial_valid_utf8, partial_valid_utf8_extend_ascii_block};

verus! {

/// The byte of `\r`.
pub const CR: u8 = 13;

/// The byte of `\n`.
pub const LF: u8 = 10;

/// Why no line can be taken from the buffer.
#[derive(Debug, Clone, Copy, PartialEq, Eq, Structural)]
pub enum FrameError {
    /// No complete line has arrived yet.
    Incomplete,
    /// A size is not valid UTF-8.
    InvalidUtf8,
    /// A size is not a number that fits in a `usize`.
    InvalidNumber,
}

/// What a look at the buffer finds.
#[derive(Debug, Clone, Copy, PartialEq, Eq, Structural)]
pub enum FrameScan {
    /// A line: the bytes before index `end`; two bytes follow it and are skipped.
    Line(usize),
    /// No line, for this reason.
    Fail(FrameError),
    /// A line whose end cannot be reached: its size overflows, or fewer than
    /// two bytes follow it.
    Overrun,
}

/// Why a connection ended badly.
#[derive(Debug, Clone, Copy, PartialEq, Eq, Structural)]
pub enum ConnectionError {
    /// The peer closed the connection in the middle of a line.
    Reset,
}

/// The size written between `$` and `;`, read as `usize::from_str` reads it
/// once the bytes are known to be UTF-8.
pub open spec fn skip_bytes_spec(digits: Seq<u8>) -> Result<usize, FrameError> {
    if !valid_utf8(digits) {
        Err(FrameError::InvalidUtf8)
    } else {
        match usize_text(digits) {
            Some(n) => Ok(n),
            None => Err(FrameError::InvalidNumber),
        }
    }
}

/// The scan of `buf` from index `i` on. At each index before the last: a `$`
/// that some later `;` follows decides the line by its size; otherwise
/// `\r\n` ends the line there.
pub open spec fn scan_from(buf: Seq<u8>, i: int) -> FrameScan
    decreases buf.len() - i,
{
    if i < 0 || i + 1 >= buf.len() {
        FrameScan::Fail(FrameError::Incomplete)
    } else if buf[i] == DOLLAR && find_from(buf, i, SEMICOLON) is Some {
        let j = find_from(buf, i, SEMICOLON)->0;
        match skip_bytes_spec(buf.subrange(i + 1, j)) {
            Err(e) => FrameScan::Fail(e),
            Ok(n) => {
                let end = j + 1 + n;
                if end > usize::MAX {
                    FrameScan::Overrun
                } else if buf.len() < end {
                    FrameScan::Fail(FrameError::Incomplete)
                } else if buf.len() < end + 2 {
                    FrameScan::Overrun
                } else {
                    FrameScan::Line(end as usize)
                }
            },
        }
    } else if buf[i] == CR && buf[i + 1] == LF {
        FrameScan::Line(i as usize)
    } else {
        scan_from(buf, i + 1)
    }
}

/// What the buffer `buf` holds: a line, no line, or a line that overruns.
pub open spec fn frame_spec(buf: Seq<u8>) -> FrameScan {
    scan_from(buf, 0)
}

/// A line leaves room for the two bytes after it.
pub proof fn lemma_scan_line_fits(buf: Seq<u8>, i: int)
    requires
        buf.len() <= usize::MAX,
    ensures
        scan_from(buf, i) matches FrameScan::Line(end) ==> end + 2 <= buf.len(),
    decreases buf.len() - i,
{
    if 0 <= i && i + 1 < buf.len() {
        lemma_scan_line_fits(buf, i + 1);
        lemma_find_from(buf, i, SEMICOLON);
    }
}

/// No `$` and no `\r\n` in `s`.
pub open spec fn plain_text(s: Seq<u8>) -> bool {
    &&& forall|k: int| 0 <= k < s.len() ==> #[trigger] s[k] != DOLLAR
    &&& forall|k: int| 0 <= k < s.len() - 1 ==> !(#[trigger] s[k] == CR && s[k + 1] == LF)
}

/// The scan passes over bytes that are neither a `$` nor the start of `\r\n`.
proof fn lemma_scan_passes(buf: Seq<u8>, i: int, stop: int)
    requires
        0 <= i <= stop,
        stop < buf.len(),
        forall|k: int| i <= k < stop ==> #[trigger] buf[k] != DOLLAR,
        forall|k: int| i <= k < stop ==> !(#[trigger] buf[k] == CR && buf[k + 1] == LF),
    ensures
        scan_from(buf, i) == scan_from(buf, stop),
    decreases stop - i,
{
    if i < stop {
        lemma_scan_passes(buf, i + 1, stop);
    }
}

/// A line with neither `$` nor `\r\n` in it, ended by `\r\n`, is taken
/// whole, whatever follows it.
pub proof fn lemma_crlf_line(line: Seq<u8>, rest: Seq<u8>)
    requires
        plain_text(line),
        line.len() + 2 + rest.len() <= usize::MAX,
    ensures
        frame_spec(line + seq![CR, LF] + rest) == FrameScan::Line(line.len() as usize),
{
    let buf = line + seq![CR, LF] + rest;
    let n = line.len() as int;
    assert(buf[n] == CR && buf[n + 1] == LF);
    assert forall|k: int| 0 <= k < n implies #[trigger] buf[k] != DOLLAR by {
        assert(buf[k] == line[k]);
    }
    assert forall|k: int| 0 <= k < n implies !(#[trigger] buf[k] == CR && buf[k + 1] == LF) by {
        assert(buf[k] == line[k]);
        if k + 1 < n {
            assert(buf[k + 1] == line[k + 1]);
        }
    }
    lemma_scan_passes(buf, 0, n);
}

/// A size text that `usize::from_str` accepts is made of ASCII bytes, none a `;`.
proof fn lemma_size_text_ascii(bs: Seq<u8>)
    requires
        usize_text(bs) is Some,
    ensures
        forall|k: int| 0 <= k < bs.len() ==> (#[trigger] bs[k] == 43 || is_ascii_digit(bs[k])),
        valid_utf8(bs),
{
    let ds = unsigned_part(bs);
    assert forall|k: int| 0 <= k < bs.len() implies (#[trigger] bs[k] == 43 || is_ascii_digit(bs[k])) by {
        if bs.len() > 0 && bs[0] == 43 {
            if k > 0 {
                assert(bs[k] == ds[k - 1]);
            }
        } else {
            assert(bs[k] == ds[k]);
        }
    }
    assert(valid_utf8(bs.subrange(0, 0))) by {
        assert(bs.subrange(0, 0).len() == 0);
    }
    assert(partial_valid_utf8(bs, 0));
    assert forall|k: int| 0 <= 0 <= k < bs.len() <= bs.len() implies #[trigger] is_leading_byte_width_1(bs[k]) by {
        assert(bs[k] == 43 || is_ascii_digit(bs[k]));
    }
    partial_valid_utf8_extend_ascii_block(bs, 0, bs.len() as int);
    assert(bs.subrange(0, bs.len() as int) =~= bs);
}

/// A line that carries its size, `head$size;value` with neither `$` nor
/// `\r\n` in `head` and `size` the length of `value`, is taken whole
/// after the two bytes that follow it, whatever `value` holds.
pub proof fn lemma_sized_line(head: Seq<u8>, size: Seq<u8>, value: Seq<u8>, rest: Seq<u8>)
    requires
        plain_text(head),
        usize_text(size) == Some(value.len() as usize),
        head.len() + size.len() + value.len() + 4 + rest.len() <= usize::MAX,
        rest.len() >= 2,
    ensures
        ({
            let line = head + seq![DOLLAR] + size + seq![SEMICOLON] + value;
            frame_spec(line + rest) == FrameScan::Line(line.len() as usize)
        }),
{
    let line = head + seq![DOLLAR] + size + seq![SEMICOLON] + value;
    let buf = line + rest;
    let h = head.len() as int;
    let j = h + 1 + size.len();
    lemma_size_text_ascii(size);
    assert(buf[h] == DOLLAR);
    assert(buf[j] == SEMICOLON);
    assert forall|k: int| 0 <= k < h implies #[trigger] buf[k] != DOLLAR by {
        assert(buf[k] == head[k]);
    }
    assert forall|k: int| 0 <= k < h implies !(#[trigger] buf[k] == CR && buf[k + 1] == LF) by {
        assert(buf[k] == head[k]);
        if k + 1 < h {
            assert(buf[k + 1] == head[k + 1]);
        } else {
            assert(buf[k + 1] == DOLLAR);
        }
    }
    lemma_scan_passes(buf, 0, h);
    assert forall|k: int| h <= k < j implies buf[k] != SEMICOLON by {
        if k > h {
            assert(buf[k] == size[k - h - 1]);
            assert(size[k - h - 1] == 43 || is_ascii_digit(size[k - h - 1]));
        }
    }
    lemma_find_from_at(buf, h, j, SEMICOLON);
    assert(buf.subrange(h + 1, j) =~= size);
}

/// With no `$` and no `\r\n` from `i` on, the scan finds no line.
proof fn lemma_scan_plain_rest(buf: Seq<u8>, i: int)
    requires
        0 <= i,
        forall|k: int| i <= k < buf.len() ==> #[trigger] buf[k] != DOLLAR,
        forall|k: int| i <= k < buf.len() - 1 ==> !(#[trigger] buf[k] == CR && buf[k + 1] == LF),
    ensures
        scan_from(buf, i) == FrameScan::Fail(FrameError::Incomplete),
    decreases buf.len() - i,
{
    if i + 1 < buf.len() {
        lemma_scan_plain_rest(buf, i + 1);
    }
}

/// A line with neither `$` nor `\r\n` in it that has only partly arrived,
/// up to but not including its final `\n`, is waited for.
pub proof fn lemma_partial_crlf_line(line: Seq<u8>, k: int)
    requires
        plain_text(line),
        0 <= k <= line.len() + 1,
    ensures
        frame_spec((line + seq![CR, LF]).subrange(0, k)) == FrameScan::Fail(FrameError::Incomplete),
{
    let full = line + seq![CR, LF];
    let buf = full.subrange(0, k);
    let n = line.len() as int;
    assert forall|i: int| 0 <= i < buf.len() implies #[trigger] buf[i] != DOLLAR by {
        if i < n {
            assert(buf[i] == line[i]);
        }
    }
    assert forall|i: int| 0 <= i < buf.len() - 1 implies !(#[trigger] buf[i] == CR && buf[i + 1] == LF) by {
        assert(buf[i] == full[i]);
        assert(buf[i + 1] == full[i + 1]);
        if i + 1 < n {
            assert(full[i] == line[i] && full[i + 1] == line[i + 1]);
        } else {
            assert(i + 1 == n);
            assert(full[i + 1] == CR);
        }
    }
    lemma_scan_plain_rest(buf, 0);
}

/// A line that carries its size and has only partly arrived, short of its
/// last byte, is waited for.
pub proof fn lemma_partial_sized_line(head: Seq<u8>, size: Seq<u8>, value: Seq<u8>, k: int)
    requires
        plain_text(head),
        usize_text(size) == Some(value.len() as usize),
        head.len() + size.len() + value.len() + 2 <= usize::MAX,
        0 <= k < head.len() + size.len() + value.len() + 2,
    ensures
        ({
            let line = head + seq![DOLLAR] + size + seq![SEMICOLON] + value;
            frame_spec(line.subrange(0, k)) == FrameScan::Fail(FrameError::Incomplete)
        }),
{
    let line = head + seq![DOLLAR] + size + seq![SEMICOLON] + value;
    let buf = line.subrange(0, k);
    let h = head.len() as int;
    let j = h + 1 + size.len();
    lemma_size_text_ascii(size);
    if k <= h {
        assert forall|i: int| 0 <= i < buf.len() implies #[trigger] buf[i] != DOLLAR by {
            assert(buf[i] == head[i]);
        }
        assert forall|i: int| 0 <= i < buf.len() - 1 implies !(#[trigger] buf[i] == CR && buf[i + 1] == LF) by {
            assert(buf[i] == head[i] && buf[i + 1] == head[i + 1]);
        }
        lemma_scan_plain_rest(buf, 0);
    } else {
        assert(buf[h] == DOLLAR);
        assert forall|i: int| 0 <= i < h implies #[trigger] buf[i] != DOLLAR by {
            assert(buf[i] == head[i]);
        }
        assert forall|i: int| 0 <= i < h implies !(#[trigger] buf[i] == CR && buf[i + 1] == LF) by {
            assert(buf[i] == head[i]);
            if i + 1 < h {
                assert(buf[i + 1] == head[i + 1]);
            } else {
                assert(buf[i + 1] == DOLLAR);
            }
        }
        lemma_scan_passes(buf, 0, h);
        if k <= j {
            // the `;` has not arrived: the size is plain text up to the end
            assert forall|i: int| h + 1 <= i < buf.len() implies #[trigger] buf[i] != SEMICOLON
                && buf[i] != DOLLAR && buf[i] != CR by {
                assert(buf[i] == size[i - h - 1]);
                assert(size[i - h - 1] == 43 || is_ascii_digit(size[i - h - 1]));
            }
            lemma_find_from(buf, h, SEMICOLON);
            if h + 1 < k {
                lemma_scan_plain_rest(buf, h + 1);
            }
        } else {
            assert(buf[j] == SEMICOLON);
            assert forall|i: int| h <= i < j implies buf[i] != SEMICOLON by {
                if i > h {
                    assert(buf[i] == size[i - h - 1]);
                    assert(size[i - h - 1] == 43 || is_ascii_digit(size[i - h - 1]));
                }
            }
            lemma_find_from_at(buf, h, j, SEMICOLON);
            assert(buf.subrange(h + 1, j) =~= size);
        }
    }
}

/// Reads the size between `$` and `;`.
pub fn get_skip_bytes(slice: &[u8]) -> (res: Result<usize, FrameError>)
    ensures
        res == skip_bytes_spec(slice@),
{
    match str_from_utf8(slice) {
        None => Err(FrameError::InvalidUtf8),
        Some(_) => match parse_usize(slice) {
            Some(n) => Ok(n),
            None => Err(FrameError::InvalidNumber),
        },
    }
}

/// Looks for a line at the start of `buf`.
pub fn scan_frame(buf: &[u8]) -> (res: FrameScan)
    ensures
        res == frame_spec(buf@),
{
    let n = buf.len();
    if n == 0 {
        return FrameScan::Fail(FrameError::Incomplete);
    }
    let mut i: usize = 0;
    while i < n - 1
        invariant
            n == buf@.len(),
            n > 0,
            i <= n - 1,
            frame_spec(buf@) == scan_from(buf@, i as int),
        decreases n - i,
    {
        if buf[i] == DOLLAR {
            let mut j: usize = i;
            while j < n && buf[j] != SEMICOLON
                invariant
                    n == buf@.len(),
                    i <= j <= n,
                    i < n - 1,
                    find_from(buf@, i as int, SEMICOLON) == find_from(buf@, j as int, SEMICOLON),
                decreases n - j,
            {
                j = j + 1;
            }
            if j < n {
                assert(find_from(buf@, j as int, SEMICOLON) == Some(j as int));
                let digits = slice_subrange(buf, i + 1, j);
                match get_skip_bytes(digits) {
                    Err(e) => {
                        return FrameScan::Fail(e);
                    },
                    Ok(num) => {
                        let base: usize = j + 1;
                        match base.checked_add(num) {
                            None => {
                                return FrameScan::Overrun;
                            },
                            Some(end) => {
                                if n < end {
                                    return FrameScan::Fail(FrameError::Incomplete);
                                } else if n - end < 2 {
                                    return FrameScan::Overrun;
                                } else {
                                    return FrameScan::Line(end);
                                }
                            },
                        }
                    },
                }
            } else {
                assert(find_from(buf@, j as int, SEMICOLON) is None);
            }
        }
        if buf[i] == CR && buf[i + 1] == LF {
            return FrameScan::Line(i);
        }
        i = i + 1;
    }
    FrameScan::Fail(FrameError::Incomplete)
}

/// The bytes received on a connection and not yet taken as lines.
pub struct Connection {
    buffer: BytesMut,
}

impl View for Connection {
    type V = Seq<u8>;

    closed spec fn view(&self) -> Seq<u8> {
        buf_bytes(self.buffer)
    }
}

impl Connection {
    /// A connection with nothing received yet, with room for 4 KiB.
    pub fn new() -> (conn: Connection)
        ensures
            conn@ == Seq::<u8>::empty(),
    {
        Connection { buffer: buf_with_capacity(4 * 1024) }
    }

    /// Whether nothing is waiting in the buffer.
    pub fn has_empty_buffer(&self) -> (res: bool)
        ensures
            res == (self@.len() == 0),
    {
        buf_as_slice(&self.buffer).len() == 0
    }

    /// How many bytes wait in the buffer.
    pub fn buffered_len(&self) -> (n: usize)
        ensures
            n == self@.len(),
    {
        buf_as_slice(&self.buffer).len()
    }

    /// Appends bytes read from the peer.
    pub fn receive(&mut self, data: &[u8])
        requires
            old(self)@.len() + data@.len() <= isize::MAX,
        ensures
            final(self)@ == old(self)@ + data@,
    {
        buf_extend(&mut self.buffer, data)
    }

    /// Whether the buffer holds a line whose end cannot be reached, on which
    /// taking a line cannot go on.
    pub fn overruns(&self) -> (res: bool)
        ensures
            res == (frame_spec(self@) is Overrun),
    {
        match scan_frame(buf_as_slice(&self.buffer)) {
            FrameScan::Overrun => true,
            _ => false,
        }
    }

    /// Takes the first line from the buffer, with the two bytes after it;
    /// when there is none, the buffer is left as it is. A buffer that
    /// `overruns` has no line to take: cutting it would go past its end.
    pub fn parse(&mut self) -> (res: Result<BytesMut, FrameError>)
        requires
            !(frame_spec(old(self)@) is Overrun),
        ensures
            match frame_spec(old(self)@) {
                FrameScan::Line(end) => res matches Ok(line) && buf_bytes(line) == old(
                    self,
                )@.subrange(0, end as int) && final(self)@ == old(self)@.subrange(
                    end + 2,
                    old(self)@.len() as int,
                ),
                FrameScan::Fail(e) => res == Err::<BytesMut, FrameError>(e) && final(self)@ == old(
                    self,
                )@,
                FrameScan::Overrun => false,
            },
    {
        let bytes = buf_as_slice(&self.buffer);
        let _len = bytes.len();
        let scan = scan_frame(bytes);
        proof {
            lemma_scan_line_fits(self@, 0);
        }
        match scan {
            FrameScan::Line(end) => {
                let line = buf_split_to(&mut self.buffer, end);
                buf_advance(&mut self.buffer, 2);
                assert(self@ =~= old(self)@.subrange(end + 2, old(self)@.len() as int));
                Ok(line)
            },
            FrameScan::Fail(e) => Err(e),
            FrameScan::Overrun => Err(FrameError::Incomplete),
        }
    }

    /// The end of a read loop once the peer has closed the connection: clean
    /// when nothing is left in the buffer, a reset otherwise.
    pub fn end_of_stream(&self) -> (res: Result<(), ConnectionError>)
        ensures
            res == (if self@.len() == 0 {
                Ok::<(), ConnectionError>(())
            } else {
                Err(ConnectionError::Reset)
            }),
    {
        if self.has_empty_buffer() {
            Ok(())
        } else {
            Err(ConnectionError::Reset)
        }
    }
}

} // verus!
