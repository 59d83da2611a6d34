//! Answering commands: each command updates or reads the store and gets a
//! reply, `ok`, `nf` (not found), `error`, or the bytes of a stored value.

use vstd::prelude::*;
use vstd::utf8::{
    decode_utf8, encode_utf8, encode_utf8_decode_utf8, encode_utf8_valid_utf8, decode_utf8_encode_utf8,
    valid_utf8,
};
use vstd::slice::slice_to_vec;

use crate::command::{
    Command, CommandError, CommandType, command_spec, lacks, lemma_delete_command, lemma_get_command,
    lemma_insert_command, line_command_spec,
};
use crate::text::{find_from, lemma_encode_concat, lemma_encode_scalar_ascii, lemma_encode_split, lemma_find_from};
use crate::memory::{Db, Store, StoreError, Value, ValueView};

verus! {

/// A fixed reply.
#[derive(Debug, Clone, Copy, PartialEq, Eq, Structural)]
pub enum Response {
    Success,
    NotFound,
    Error,
}

/// The bytes of a fixed reply: `ok`, `nf` or `error`.
pub open spec fn response_bytes(r: Response) -> Seq<u8> {
    match r {
        Response::Success => seq![111u8, 107u8],
        Response::NotFound => seq![110u8, 102u8],
        Response::Error => seq![101u8, 114u8, 114u8, 111u8, 114u8],
    }
}

impl Response {
    /// The bytes of the reply.
    pub fn as_bytes(&self) -> (res: Vec<u8>)
        ensures
            res@ == response_bytes(*self),
    {
        let res = match self {
            Response::Success => vec![111u8, 107u8],
            Response::NotFound => vec![110u8, 102u8],
            Response::Error => vec![101u8, 114u8, 114u8, 111u8, 114u8],
        };
        assert(res@ =~= response_bytes(*self));
        res
    }
}

/// The store after a command, and the reply to it. A health check answers
/// `ok`; an insert stores the UTF-8 bytes of its value, with no time to live,
/// and answers `ok`; a read answers the stored bytes, or `nf`; a delete
/// removes the key and answers `ok`, or `nf` when nothing was stored under
/// it; a command that needs a payload and has none answers `error`.
pub open spec fn reply_spec(
    store: Map<Seq<char>, ValueView>,
    command: (CommandType, Option<(Seq<char>, Seq<char>)>),
) -> (Map<Seq<char>, ValueView>, Seq<u8>) {
    let (kind, payload) = command;
    match kind {
        CommandType::Health => (store, response_bytes(Response::Success)),
        CommandType::Insert => match payload {
            Some((key, value)) => (
                store.insert(key, ValueView { data: encode_utf8(value), ttl: None }),
                response_bytes(Response::Success),
            ),
            None => (store, response_bytes(Response::Error)),
        },
        CommandType::Get => match payload {
            Some((key, _)) => if store.contains_key(key) {
                (store, store[key].data)
            } else {
                (store, response_bytes(Response::NotFound))
            },
            None => (store, response_bytes(Response::Error)),
        },
        CommandType::Delete => match payload {
            Some((key, _)) => if store.contains_key(key) {
                (store.remove(key), response_bytes(Response::Success))
            } else {
                (store, response_bytes(Response::NotFound))
            },
            None => (store, response_bytes(Response::Error)),
        },
    }
}

/// Applies one command to the store and returns the reply.
pub fn handle_command(db: &mut Db, command: Command) -> (reply: Vec<u8>)
    ensures
        (final(db)@, reply@) == reply_spec(old(db)@, command@),
{
    match command.kind {
        CommandType::Health => Response::Success.as_bytes(),
        CommandType::Insert => {
            if let Some(payload) = command.payload {
                let data = slice_to_vec(payload.value.as_str().as_bytes());
                db.set(payload.key, Value { data, ttl: None });
                Response::Success.as_bytes()
            } else {
                Response::Error.as_bytes()
            }
        },
        CommandType::Get => {
            if let Some(payload) = command.payload {
                match db.get(payload.key.as_str()) {
                    Ok(v) => v,
                    Err(_) => Response::NotFound.as_bytes(),
                }
            } else {
                Response::Error.as_bytes()
            }
        },
        CommandType::Delete => {
            if let Some(payload) = command.payload {
                match db.delete(payload.key.as_str()) {
                    Ok(()) => Response::Success.as_bytes(),
                    Err(StoreError::NotFound) => Response::NotFound.as_bytes(),
                }
            } else {
                Response::Error.as_bytes()
            }
        },
    }
}

/// A health check leaves the store as it is and answers `ok`.
pub proof fn lemma_health_changes_nothing(
    store: Map<Seq<char>, ValueView>,
    payload: Option<(Seq<char>, Seq<char>)>,
)
    ensures
        reply_spec(store, (CommandType::Health, payload)) == (store, response_bytes(Response::Success)),
{
}

/// A read leaves the store as it is.
pub proof fn lemma_read_changes_nothing(
    store: Map<Seq<char>, ValueView>,
    payload: Option<(Seq<char>, Seq<char>)>,
)
    ensures
        reply_spec(store, (CommandType::Get, payload)).0 == store,
{
}

/// After an insert, which answers `ok`, a read of its key answers the
/// UTF-8 bytes of the inserted value.
pub proof fn lemma_read_after_insert(
    store: Map<Seq<char>, ValueView>,
    key: Seq<char>,
    value: Seq<char>,
    other: Seq<char>,
)
    ensures
        ({
            let (after, answer) = reply_spec(store, (CommandType::Insert, Some((key, value))));
            &&& answer == response_bytes(Response::Success)
            &&& reply_spec(after, (CommandType::Get, Some((key, other)))) == (after, encode_utf8(value))
        }),
{
}

/// An insert changes no read of another key.
pub proof fn lemma_insert_keeps_other_keys(
    store: Map<Seq<char>, ValueView>,
    key: Seq<char>,
    value: Seq<char>,
    other_key: Seq<char>,
    other: Seq<char>,
)
    requires
        other_key != key,
    ensures
        ({
            let after = reply_spec(store, (CommandType::Insert, Some((key, value)))).0;
            reply_spec(after, (CommandType::Get, Some((other_key, other)))).1 == reply_spec(
                store,
                (CommandType::Get, Some((other_key, other))),
            ).1
        }),
{
}

/// Deleting an inserted key answers `ok`; then the key is gone: a read
/// answers `nf`, and so does a second delete.
pub proof fn lemma_delete_after_insert(
    store: Map<Seq<char>, ValueView>,
    key: Seq<char>,
    value: Seq<char>,
    other: Seq<char>,
)
    ensures
        ({
            let inserted = reply_spec(store, (CommandType::Insert, Some((key, value)))).0;
            let (deleted, first) = reply_spec(inserted, (CommandType::Delete, Some((key, other))));
            &&& first == response_bytes(Response::Success)
            &&& !deleted.contains_key(key)
            &&& reply_spec(deleted, (CommandType::Get, Some((key, other)))).1 == response_bytes(
                Response::NotFound,
            )
            &&& reply_spec(deleted, (CommandType::Delete, Some((key, other)))) == (
                deleted,
                response_bytes(Response::NotFound),
            )
        }),
{
}

/// A read of a key under which nothing is stored answers `nf`.
pub proof fn lemma_read_absent(store: Map<Seq<char>, ValueView>, key: Seq<char>, x: Seq<char>)
    requires
        !store.contains_key(key),
    ensures
        reply_spec(store, (CommandType::Get, Some((key, x)))).1 == response_bytes(Response::NotFound),
{
}

/// A command that needs a key and has none answers `error` and changes nothing.
pub proof fn lemma_missing_payload(store: Map<Seq<char>, ValueView>, kind: CommandType)
    requires
        kind != CommandType::Health,
    ensures
        reply_spec(store, (kind, None)) == (store, response_bytes(Response::Error)),
{
}

/// The UTF-8 encoding of two ASCII characters is their two bytes.
proof fn lemma_encode_ascii_pair(a: u8, b: u8)
    requires
        a < 0x80,
        b < 0x80,
    ensures
        encode_utf8(seq![a as char, b as char]) == seq![a, b],
{
    lemma_encode_scalar_ascii(a as char, a);
    lemma_encode_scalar_ascii(b as char, b);
    let s = seq![a as char, b as char];
    assert(s.drop_first() =~= seq![b as char]);
    assert(seq![b as char].drop_first() =~= Seq::<char>::empty());
    assert(encode_utf8(Seq::<char>::empty()) =~= Seq::<u8>::empty());
    assert(encode_utf8(seq![b as char]) =~= seq![b]);
    assert(encode_utf8(s) =~= seq![a, b]);
}

/// The UTF-8 encoding of one ASCII character is its byte.
proof fn lemma_encode_ascii_one(a: u8)
    requires
        a < 0x80,
    ensures
        encode_utf8(seq![a as char]) == seq![a],
{
    lemma_encode_scalar_ascii(a as char, a);
    assert(seq![a as char].drop_first() =~= Seq::<char>::empty());
    assert(encode_utf8(Seq::<char>::empty()) =~= Seq::<u8>::empty());
    assert(encode_utf8(seq![a as char]) =~= seq![a]);
}

/// Valid UTF-8 without the ASCII byte `x` decodes to text without `x`.
proof fn lemma_decoded_lacks(bytes: Seq<u8>, x: u8)
    requires
        valid_utf8(bytes),
        x < 0x80,
        forall|k: int| 0 <= k < bytes.len() ==> bytes[k] != x,
    ensures
        lacks(decode_utf8(bytes), x as char),
{
    let cs = decode_utf8(bytes);
    decode_utf8_encode_utf8(bytes);
    lemma_find_from(cs, 0, x as char);
    if let Some(k) = find_from(cs, 0, x as char) {
        lemma_encode_split(cs, x, k);
        lemma_find_from(encode_utf8(cs), 0, x);
    }
}

/// A line of bytes that encodes a text is parsed as that text.
pub proof fn lemma_line_agrees_with_text(text: Seq<char>)
    ensures
        line_command_spec(encode_utf8(text)) == command_spec(text),
{
    encode_utf8_valid_utf8(text);
    encode_utf8_decode_utf8(text);
}

/// The line `+;key$size;value` inserts the text of `value` under the text
/// of `key`, when `key` holds neither `;` nor `$` and `size` no `;`.
pub proof fn lemma_write_line(key: Seq<u8>, size: Seq<u8>, value: Seq<u8>)
    requires
        valid_utf8(key),
        valid_utf8(size),
        valid_utf8(value),
        forall|k: int| 0 <= k < key.len() ==> key[k] != 59u8 && key[k] != 36u8,
        forall|k: int| 0 <= k < size.len() ==> size[k] != 59u8,
    ensures
        line_command_spec(seq![43u8, 59u8] + key + seq![36u8] + size + seq![59u8] + value)
            == Ok::<_, CommandError>(
            (CommandType::Insert, Some((decode_utf8(key), decode_utf8(value)))),
        ),
{
    let dk = decode_utf8(key);
    let ds = decode_utf8(size);
    let dv = decode_utf8(value);
    decode_utf8_encode_utf8(key);
    decode_utf8_encode_utf8(size);
    decode_utf8_encode_utf8(value);
    lemma_decoded_lacks(key, 59u8);
    lemma_decoded_lacks(key, 36u8);
    lemma_decoded_lacks(size, 59u8);
    assert((59u8 as char) == ';');
    assert((36u8 as char) == '$');
    let write_text = seq!['+', ';'] + dk + seq!['$'] + ds + seq![';'] + dv;
    lemma_encode_ascii_pair(43u8, 59u8);
    lemma_encode_ascii_one(36u8);
    lemma_encode_ascii_one(59u8);
    assert((43u8 as char) == '+');
    lemma_encode_concat(seq!['+', ';'], dk);
    lemma_encode_concat(seq!['+', ';'] + dk, seq!['$']);
    lemma_encode_concat(seq!['+', ';'] + dk + seq!['$'], ds);
    lemma_encode_concat(seq!['+', ';'] + dk + seq!['$'] + ds, seq![';']);
    lemma_encode_concat(seq!['+', ';'] + dk + seq!['$'] + ds + seq![';'], dv);
    let write_line = seq![43u8, 59u8] + key + seq![36u8] + size + seq![59u8] + value;
    assert(encode_utf8(write_text) == write_line);
    lemma_line_agrees_with_text(write_text);
    lemma_insert_command(dk, ds, dv);
}

/// The line `?;key` reads the whole text of `key`, whatever it holds.
pub proof fn lemma_read_line(key: Seq<u8>)
    requires
        valid_utf8(key),
    ensures
        line_command_spec(seq![63u8, 59u8] + key) == Ok::<_, CommandError>(
            (CommandType::Get, Some((decode_utf8(key), Seq::<char>::empty()))),
        ),
{
    let dk = decode_utf8(key);
    decode_utf8_encode_utf8(key);
    let text = seq!['?', ';'] + dk;
    lemma_encode_ascii_pair(63u8, 59u8);
    assert((63u8 as char) == '?');
    assert((59u8 as char) == ';');
    lemma_encode_concat(seq!['?', ';'], dk);
    assert(encode_utf8(text) == seq![63u8, 59u8] + key);
    lemma_line_agrees_with_text(text);
    lemma_get_command(dk);
}

/// The line `-;key` deletes the whole text of `key`, whatever it holds.
pub proof fn lemma_delete_line(key: Seq<u8>)
    requires
        valid_utf8(key),
    ensures
        line_command_spec(seq![45u8, 59u8] + key) == Ok::<_, CommandError>(
            (CommandType::Delete, Some((decode_utf8(key), Seq::<char>::empty()))),
        ),
{
    let dk = decode_utf8(key);
    decode_utf8_encode_utf8(key);
    let text = seq!['-', ';'] + dk;
    lemma_encode_ascii_pair(45u8, 59u8);
    assert((45u8 as char) == '-');
    assert((59u8 as char) == ';');
    lemma_encode_concat(seq!['-', ';'], dk);
    assert(encode_utf8(text) == seq![45u8, 59u8] + key);
    lemma_line_agrees_with_text(text);
    lemma_delete_command(dk);
}

/// Deleting a key changes nothing stored under any other key: a read of
/// another key answers after the delete what it answered before.
pub proof fn lemma_delete_keeps_other_keys(
    store: Map<Seq<char>, ValueView>,
    key: Seq<char>,
    other_key: Seq<char>,
    x: Seq<char>,
    y: Seq<char>,
)
    requires
        other_key != key,
    ensures
        ({
            let after = reply_spec(store, (CommandType::Delete, Some((key, x)))).0;
            &&& after.contains_key(other_key) == store.contains_key(other_key)
            &&& store.contains_key(other_key) ==> after[other_key] == store[other_key]
            &&& reply_spec(after, (CommandType::Get, Some((other_key, y)))).1 == reply_spec(
                store,
                (CommandType::Get, Some((other_key, y))),
            ).1
        }),
{
}

/// A delete removes its key and nothing else: the store after it has no
/// value under the key, and under every other key the value it had.
pub proof fn lemma_delete_removes_only_its_key(
    store: Map<Seq<char>, ValueView>,
    key: Seq<char>,
    x: Seq<char>,
)
    ensures
        ({
            let (after, answer) = reply_spec(store, (CommandType::Delete, Some((key, x))));
            &&& !after.contains_key(key)
            &&& forall|k: Seq<char>| k != key ==> (#[trigger] after.contains_key(k) == store.contains_key(k))
            &&& forall|k: Seq<char>| k != key && store.contains_key(k) ==> #[trigger] after[k] == store[k]
            &&& answer == (if store.contains_key(key) {
                response_bytes(Response::Success)
            } else {
                response_bytes(Response::NotFound)
            })
        }),
{
}

/// What a read gives back of a write: after the line
/// `+;key$size;value` has been answered, the line `?;key` is answered
/// with the bytes of `value`, exactly, whatever they are, as long as they
/// are UTF-8; `key` holds neither `;` nor `$`, and `size` no `;`.
pub proof fn lemma_write_then_read(
    store: Map<Seq<char>, ValueView>,
    key: Seq<u8>,
    size: Seq<u8>,
    value: Seq<u8>,
)
    requires
        valid_utf8(key),
        valid_utf8(size),
        valid_utf8(value),
        forall|k: int| 0 <= k < key.len() ==> key[k] != 59u8 && key[k] != 36u8,
        forall|k: int| 0 <= k < size.len() ==> size[k] != 59u8,
    ensures
        ({
            let write = line_command_spec(seq![43u8, 59u8] + key + seq![36u8] + size + seq![59u8] + value);
            let read = line_command_spec(seq![63u8, 59u8] + key);
            &&& write is Ok
            &&& read is Ok
            &&& reply_spec(store, write->Ok_0).1 == response_bytes(Response::Success)
            &&& reply_spec(reply_spec(store, write->Ok_0).0, read->Ok_0).1 == value
        }),
{
    lemma_write_line(key, size, value);
    lemma_read_line(key);
    decode_utf8_encode_utf8(value);
}

/// Over lines: after `+;a$..;va` and `+;b$..;vb` with two different keys,
/// `-;a` answers `ok`; then `?;b` still answers the bytes of `vb`, and
/// `?;a` answers `nf`.
pub proof fn lemma_delete_one_of_two(
    store: Map<Seq<char>, ValueView>,
    a: Seq<u8>,
    size_a: Seq<u8>,
    va: Seq<u8>,
    b: Seq<u8>,
    size_b: Seq<u8>,
    vb: Seq<u8>,
)
    requires
        valid_utf8(a),
        valid_utf8(size_a),
        valid_utf8(va),
        valid_utf8(b),
        valid_utf8(size_b),
        valid_utf8(vb),
        a != b,
        forall|k: int| 0 <= k < a.len() ==> a[k] != 59u8 && a[k] != 36u8,
        forall|k: int| 0 <= k < size_a.len() ==> size_a[k] != 59u8,
        forall|k: int| 0 <= k < b.len() ==> b[k] != 59u8 && b[k] != 36u8,
        forall|k: int| 0 <= k < size_b.len() ==> size_b[k] != 59u8,
    ensures
        ({
            let write_a = line_command_spec(seq![43u8, 59u8] + a + seq![36u8] + size_a + seq![59u8] + va);
            let write_b = line_command_spec(seq![43u8, 59u8] + b + seq![36u8] + size_b + seq![59u8] + vb);
            let delete_a = line_command_spec(seq![45u8, 59u8] + a);
            let read_a = line_command_spec(seq![63u8, 59u8] + a);
            let read_b = line_command_spec(seq![63u8, 59u8] + b);
            &&& write_a is Ok && write_b is Ok && delete_a is Ok && read_a is Ok && read_b is Ok
            &&& {
                let s1 = reply_spec(store, write_a->Ok_0).0;
                let s2 = reply_spec(s1, write_b->Ok_0).0;
                let (s3, answer) = reply_spec(s2, delete_a->Ok_0);
                &&& answer == response_bytes(Response::Success)
                &&& reply_spec(s3, read_b->Ok_0).1 == vb
                &&& reply_spec(s3, read_a->Ok_0).1 == response_bytes(Response::NotFound)
            }
        }),
{
    lemma_write_line(a, size_a, va);
    lemma_write_line(b, size_b, vb);
    lemma_delete_line(a);
    lemma_read_line(a);
    lemma_read_line(b);
    decode_utf8_encode_utf8(a);
    decode_utf8_encode_utf8(b);
    decode_utf8_encode_utf8(vb);
    assert(decode_utf8(a) != decode_utf8(b));
}

} // verus!
