//! Text helpers shared by the command parser and the framing code: UTF-8
//! checking, splitting at the first separator, and decimal numbers.

use vstd::prelude::*;
use vstd::utf8::*;
use vstd::string::*;
use vstd::slice::slice_subrange;

verus! {

/// Index of the first `x` in `s` at or after `from`, if any.
pub open spec fn find_from<A>(s: Seq<A>, from: int, x: A) -> Option<int>
    decreases s.len() - from,
{
    if from < 0 || from >= s.len() {
        None
    } else if s[from] == x {
        Some(from)
    } else {
        find_from(s, from + 1, x)
    }
}

/// `s` split around its first `x`: what stands before it and what follows it.
pub open spec fn split_once_spec<A>(s: Seq<A>, x: A) -> Option<(Seq<A>, Seq<A>)> {
    match find_from(s, 0, x) {
        Some(k) => Some((s.subrange(0, k), s.subrange(k + 1, s.len() as int))),
        None => None,
    }
}

pub proof fn lemma_find_from<A>(s: Seq<A>, from: int, x: A)
    requires
        0 <= from,
    ensures
        match find_from(s, from, x) {
            Some(k) => from <= k < s.len() && s[k] == x && forall|j: int|
                from <= j < k ==> s[j] != x,
            None => forall|j: int| from <= j < s.len() ==> s[j] != x,
        },
    decreases s.len() - from,
{
    if from < s.len() && s[from] != x {
        lemma_find_from(s, from + 1, x);
    }
}

/// The first `x` at or after `from` is at `k` when `k` holds `x` and nothing
/// in between does.
pub proof fn lemma_find_from_at<A>(s: Seq<A>, from: int, k: int, x: A)
    requires
        0 <= from <= k < s.len(),
        s[k] == x,
        forall|j: int| from <= j < k ==> s[j] != x,
    ensures
        find_from(s, from, x) == Some(k),
    decreases k - from,
{
    if from < k {
        lemma_find_from_at(s, from + 1, k, x);
    }
}

/// No `x` at or after `from`.
pub proof fn lemma_find_from_none<A>(s: Seq<A>, from: int, x: A)
    requires
        0 <= from,
        forall|j: int| from <= j < s.len() ==> s[j] != x,
    ensures
        find_from(s, from, x) is None,
    decreases s.len() - from,
{
    if from < s.len() {
        lemma_find_from_none(s, from + 1, x);
    }
}

/// Calls `std::str::from_utf8`: it succeeds exactly on valid UTF-8, and the
/// string it gives back holds the characters that the bytes encode.
#[verifier::external_body]
pub(crate) fn str_from_utf8<'a>(bytes: &'a [u8]) -> (res: Option<&'a str>)
    ensures
        match res {
            Some(s) => valid_utf8(bytes@) && s@ == decode_utf8(bytes@),
            None => !valid_utf8(bytes@),
        },
{
    std::str::from_utf8(bytes).ok()
}

/// The encoding of a concatenation is the concatenation of the encodings.
pub proof fn lemma_encode_concat(a: Seq<char>, b: Seq<char>)
    ensures
        encode_utf8(a + b) == encode_utf8(a) + encode_utf8(b),
    decreases a.len(),
{
    if a.len() == 0 {
        assert(a + b =~= b);
        assert(encode_utf8(a) =~= Seq::<u8>::empty());
        assert(encode_utf8(a) + encode_utf8(b) =~= encode_utf8(b));
    } else {
        lemma_encode_concat(a.drop_first(), b);
        assert((a + b).drop_first() =~= a.drop_first() + b);
        assert((a + b)[0] == a[0]);
        assert(encode_utf8(a + b) == encode_scalar(a[0] as u32) + encode_utf8(a.drop_first() + b));
        assert(encode_utf8(a) == encode_scalar(a[0] as u32) + encode_utf8(a.drop_first()));
        assert(encode_scalar(a[0] as u32) + (encode_utf8(a.drop_first()) + encode_utf8(b))
            =~= (encode_scalar(a[0] as u32) + encode_utf8(a.drop_first())) + encode_utf8(b));
    }
}

proof fn lemma_multibyte_not_ascii(v: u32)
    by (bit_vector)
    requires
        0x80 <= v,
    ensures
        0xC0 | ((v >> 6) & 0x1F) as u8 >= 0x80,
        0xE0 | ((v >> 12) & 0x0F) as u8 >= 0x80,
        0xF0 | ((v >> 18) & 0x7) as u8 >= 0x80,
        0x80 | (v & 0x3F) as u8 >= 0x80,
        0x80 | ((v >> 6) & 0x3F) as u8 >= 0x80,
        0x80 | ((v >> 12) & 0x3F) as u8 >= 0x80,
{
}

proof fn lemma_single_byte(v: u32)
    by (bit_vector)
    requires
        v <= 0x7F,
    ensures
        (v & 0x7F) as u8 == v,
{
}

/// The encoding of one character holds the ASCII byte `x` only when the
/// character is `x` itself, and then it is that byte alone.
pub proof fn lemma_encode_scalar_ascii(c: char, x: u8)
    requires
        x < 0x80,
    ensures
        c == (x as char) ==> encode_scalar(c as u32) == seq![x],
        c != (x as char) ==> forall|i: int|
            0 <= i < encode_scalar(c as u32).len() ==> #[trigger] encode_scalar(c as u32)[i] != x,
{
    let v = c as u32;
    if v <= 0x7F {
        lemma_single_byte(v);
    } else {
        lemma_multibyte_not_ascii(v);
    }
}

/// A character sequence without the ASCII character `x` encodes to bytes without `x`.
pub proof fn lemma_encode_without(cs: Seq<char>, x: u8)
    requires
        x < 0x80,
        forall|j: int| 0 <= j < cs.len() ==> cs[j] != (x as char),
    ensures
        forall|i: int| 0 <= i < encode_utf8(cs).len() ==> encode_utf8(cs)[i] != x,
    decreases cs.len(),
{
    if cs.len() > 0 {
        lemma_encode_without(cs.drop_first(), x);
        lemma_encode_scalar_ascii(cs[0], x);
        let head = encode_scalar(cs[0] as u32);
        let tail = encode_utf8(cs.drop_first());
        assert(encode_utf8(cs) == head + tail);
        assert forall|i: int| 0 <= i < encode_utf8(cs).len() implies encode_utf8(cs)[i] != x by {
            if i < head.len() {
                assert(encode_utf8(cs)[i] == head[i]);
            } else {
                assert(encode_utf8(cs)[i] == tail[i - head.len()]);
            }
        }
    }
}

/// Where the first `x` stands among the characters, its byte stands among
/// the encoded bytes, with the encodings of both sides around it.
pub proof fn lemma_encode_split(cs: Seq<char>, x: u8, k: int)
    requires
        x < 0x80,
        0 <= k < cs.len(),
        cs[k] == (x as char),
        forall|j: int| 0 <= j < k ==> cs[j] != (x as char),
    ensures
        encode_utf8(cs) == encode_utf8(cs.subrange(0, k)) + seq![x] + encode_utf8(
            cs.subrange(k + 1, cs.len() as int),
        ),
        find_from(encode_utf8(cs), 0, x) == Some(encode_utf8(cs.subrange(0, k)).len() as int),
{
    let a = cs.subrange(0, k);
    let b = cs.subrange(k + 1, cs.len() as int);
    assert(cs =~= a + (seq![cs[k]] + b));
    lemma_encode_concat(a, seq![cs[k]] + b);
    lemma_encode_concat(seq![cs[k]], b);
    lemma_encode_scalar_ascii(cs[k], x);
    assert(seq![cs[k]].drop_first() =~= Seq::<char>::empty());
    assert(encode_utf8(Seq::<char>::empty()) =~= Seq::<u8>::empty());
    assert(encode_utf8(seq![cs[k]]) =~= seq![x]);
    let e = encode_utf8(cs);
    assert(e =~= encode_utf8(a) + seq![x] + encode_utf8(b));
    lemma_encode_without(a, x);
    let n = encode_utf8(a).len() as int;
    assert forall|j: int| 0 <= j < n implies e[j] != x by {
        assert(e[j] == encode_utf8(a)[j]);
    }
    lemma_find_from_at(e, 0, n, x);
}

/// Splits `s` around its first `sep`, an ASCII character: the two parts are
/// what stands before it and what follows it.
pub fn split_once<'a>(s: &'a str, sep: u8) -> (res: Option<(&'a str, &'a str)>)
    requires
        sep < 0x80,
    ensures
        match (res, split_once_spec(s@, sep as char)) {
            (Some((a, b)), Some((sa, sb))) => a@ == sa && b@ == sb,
            (None, None) => true,
            _ => false,
        },
{
    let bytes = s.as_bytes();
    let n = bytes.len();
    let mut i: usize = 0;
    while i < n
        invariant
            n == bytes@.len(),
            bytes@ == encode_utf8(s@),
            i <= n,
            sep < 0x80,
            forall|j: int| 0 <= j < i ==> bytes@[j] != sep,
        decreases n - i,
    {
        if bytes[i] == sep {
            proof {
                lemma_find_from_at(bytes@, 0, i as int, sep);
                lemma_find_from(s@, 0, sep as char);
                if find_from(s@, 0, sep as char) is None {
                    lemma_encode_without(s@, sep);
                    assert(bytes@[i as int] == sep);
                    assert(false);
                }
            }
            let ghost k = find_from(s@, 0, sep as char)->0;
            let ghost sa = s@.subrange(0, k);
            let ghost sb = s@.subrange(k + 1, s@.len() as int);
            proof {
                lemma_encode_split(s@, sep, k);
                assert(i == encode_utf8(sa).len());
            }
            let head = slice_subrange(bytes, 0, i);
            let tail = slice_subrange(bytes, i + 1, n);
            proof {
                assert(head@ =~= encode_utf8(sa));
                assert(tail@ =~= encode_utf8(sb));
                encode_utf8_valid_utf8(sa);
                encode_utf8_valid_utf8(sb);
                encode_utf8_decode_utf8(sa);
                encode_utf8_decode_utf8(sb);
            }
            let a = str_from_utf8(head);
            let b = str_from_utf8(tail);
            match (a, b) {
                (Some(a), Some(b)) => {
                    return Some((a, b));
                },
                _ => {
                    return None;
                },
            }
        }
        i = i + 1;
    }
    proof {
        lemma_find_from(s@, 0, sep as char);
        if let Some(k) = find_from(s@, 0, sep as char) {
            lemma_encode_split(s@, sep, k);
            lemma_find_from(bytes@, 0, sep);
        }
    }
    None
}

/// An ASCII decimal digit.
pub open spec fn is_ascii_digit(b: u8) -> bool {
    48 <= b <= 57
}

/// The number that a sequence of ASCII decimal digits writes, most significant first.
pub open spec fn digits_value(ds: Seq<u8>) -> nat
    decreases ds.len(),
{
    if ds.len() == 0 {
        0
    } else {
        digits_value(ds.drop_last()) * 10 + (ds.last() - 48) as nat
    }
}

/// Every byte is an ASCII decimal digit.
pub open spec fn all_digits(ds: Seq<u8>) -> bool {
    forall|i: int| 0 <= i < ds.len() ==> is_ascii_digit(#[trigger] ds[i])
}

/// The bytes after an optional leading `+`.
pub open spec fn unsigned_part(bs: Seq<u8>) -> Seq<u8> {
    if bs.len() > 0 && bs[0] == 43 {
        bs.drop_first()
    } else {
        bs
    }
}

/// What `usize::from_str` gives for a text with these bytes: an optional `+`,
/// then one or more decimal digits whose value fits in a `usize`.
pub open spec fn usize_text(bs: Seq<u8>) -> Option<usize> {
    let ds = unsigned_part(bs);
    if ds.len() > 0 && all_digits(ds) && digits_value(ds) <= usize::MAX {
        Some(digits_value(ds) as usize)
    } else {
        None
    }
}

/// More digits never write a smaller number.
pub proof fn lemma_digits_value_grows(ds: Seq<u8>, i: int, j: int)
    requires
        0 <= i <= j <= ds.len(),
        forall|k: int| 0 <= k < j ==> is_ascii_digit(#[trigger] ds[k]),
    ensures
        digits_value(ds.subrange(0, i)) <= digits_value(ds.subrange(0, j)),
    decreases j - i,
{
    if i < j {
        lemma_digits_value_grows(ds, i, j - 1);
        assert(ds.subrange(0, j).drop_last() =~= ds.subrange(0, j - 1));
    }
}

/// Reads a decimal number as `usize::from_str` does: an optional `+`, then
/// digits; `None` when a byte is no digit, when there are no digits, or when
/// the number does not fit in a `usize`.
pub fn parse_usize(bs: &[u8]) -> (res: Option<usize>)
    ensures
        res == usize_text(bs@),
{
    let n = bs.len();
    let mut start: usize = 0;
    if n > 0 && bs[0] == 43 {
        start = 1;
    }
    let ghost ds = bs@.subrange(start as int, n as int);
    proof {
        assert(ds =~= unsigned_part(bs@));
    }
    if start == n {
        return None;
    }
    let mut v: usize = 0;
    let mut i: usize = start;
    while i < n
        invariant
            n == bs@.len(),
            start <= i <= n,
            ds == bs@.subrange(start as int, n as int),
            ds == unsigned_part(bs@),
            forall|k: int| 0 <= k < i - start ==> is_ascii_digit(#[trigger] ds[k]),
            v == digits_value(ds.subrange(0, i - start)),
        decreases n - i,
    {
        let b = bs[i];
        assert(ds[i - start] == b);
        if b < 48 || b > 57 {
            assert(!is_ascii_digit(ds[i - start]));
            return None;
        }
        let d: usize = (b - 48) as usize;
        let ghost next = ds.subrange(0, i + 1 - start);
        proof {
            assert(next.drop_last() =~= ds.subrange(0, i - start));
            assert(next.last() == b);
        }
        match v.checked_mul(10) {
            Some(m) => {
                match m.checked_add(d) {
                    Some(x) => {
                        v = x;
                    },
                    None => {
                        proof {
                            assert(digits_value(next) == m + d);
                            if forall|k: int| 0 <= k < ds.len() ==> is_ascii_digit(#[trigger] ds[k]) {
                                lemma_digits_value_grows(ds, i + 1 - start, ds.len() as int);
                                assert(ds.subrange(0, ds.len() as int) =~= ds);
                            }
                        }
                        return None;
                    },
                }
            },
            None => {
                proof {
                    if forall|k: int| 0 <= k < ds.len() ==> is_ascii_digit(#[trigger] ds[k]) {
                        lemma_digits_value_grows(ds, i + 1 - start, ds.len() as int);
                        assert(ds.subrange(0, ds.len() as int) =~= ds);
                    }
                }
                return None;
            },
        }
        i = i + 1;
    }
    proof {
        assert(ds.subrange(0, ds.len() as int) =~= ds);
    }
    Some(v)
}

} // verus!
