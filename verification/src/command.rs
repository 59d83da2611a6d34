//! Commands of the line protocol. A line is UTF-8 text: a command sign, `;`,
//! then the command's arguments. `!;` asks for health, `+;key$size;value`
//! inserts, `?;key` reads and `-;key` deletes.

use bytes::BytesMut;
use vstd::prelude::*;
use vstd::utf8::*;

use crate::buffer::{buf_as_slice, buf_bytes};
use crate::text::{lemma_find_from_at, split_once, split_once_spec, str_from_utf8};

verus! {

/// The byte of `;`, which ends a command sign and an insert's key.
pub const SEMICOLON: u8 = 59;

/// The byte of `$`, which stands before an insert's size.
pub const DOLLAR: u8 = 36;

/// What a command asks for.
#[derive(Debug, Clone, Copy, PartialEq, Eq, Structural)]
pub enum CommandType {
    Health,
    Insert,
    Get,
    Delete,
}

/// The key a command names and, for an insert, the value it carries.
#[derive(Debug, PartialEq, Eq)]
pub struct Payload {
    pub key: String,
    pub value: String,
}

impl View for Payload {
    type V = (Seq<char>, Seq<char>);

    open spec fn view(&self) -> (Seq<char>, Seq<char>) {
        (self.key@, self.value@)
    }
}

/// A parsed command.
pub struct Command {
    pub kind: CommandType,
    pub payload: Option<Payload>,
}

impl View for Command {
    type V = (CommandType, Option<(Seq<char>, Seq<char>)>);

    open spec fn view(&self) -> Self::V {
        (self.kind, payload_view(self.payload))
    }
}

/// Why a line is no command.
#[derive(Debug, Clone, Copy, PartialEq, Eq, Structural)]
pub enum CommandError {
    /// The line is not valid UTF-8.
    InvalidUtf8,
    /// The line has no `;` after the command sign.
    MissingSeparator,
    /// The command sign is none of `!`, `+`, `?`, `-`.
    UnknownCommand,
    /// An insert has no `;` between its key and its value.
    MissingKeyOrValue,
    /// An insert's key has no `$` before its size.
    MissingSize,
}

/// The texts of an optional payload.
pub open spec fn payload_view(p: Option<Payload>) -> Option<(Seq<char>, Seq<char>)> {
    match p {
        Some(p) => Some(p@),
        None => None,
    }
}

/// The arguments of an insert, `key$size;value`: the key is what stands
/// before the first `$` of the text before the first `;`, the value is all
/// that follows that `;`. The size is not read here.
pub open spec fn insert_payload_spec(s: Seq<char>) -> Result<
    Option<(Seq<char>, Seq<char>)>,
    CommandError,
> {
    match split_once_spec(s, ';') {
        None => Err(CommandError::MissingKeyOrValue),
        Some((key, value)) => match split_once_spec(key, '$') {
            None => Err(CommandError::MissingSize),
            Some((raw_key, _)) => Ok(Some((raw_key, value))),
        },
    }
}

/// The command that a text writes.
pub open spec fn command_spec(s: Seq<char>) -> Result<
    (CommandType, Option<(Seq<char>, Seq<char>)>),
    CommandError,
> {
    match split_once_spec(s, ';') {
        None => Err(CommandError::MissingSeparator),
        Some((sign, rest)) => if sign == seq!['!'] {
            Ok((CommandType::Health, None))
        } else if sign == seq!['+'] {
            match insert_payload_spec(rest) {
                Ok(p) => Ok((CommandType::Insert, p)),
                Err(e) => Err(e),
            }
        } else if sign == seq!['?'] {
            Ok((CommandType::Get, Some((rest, Seq::<char>::empty()))))
        } else if sign == seq!['-'] {
            Ok((CommandType::Delete, Some((rest, Seq::<char>::empty()))))
        } else {
            Err(CommandError::UnknownCommand)
        },
    }
}

/// The command that a line of bytes writes.
pub open spec fn line_command_spec(line: Seq<u8>) -> Result<
    (CommandType, Option<(Seq<char>, Seq<char>)>),
    CommandError,
> {
    if valid_utf8(line) {
        command_spec(decode_utf8(line))
    } else {
        Err(CommandError::InvalidUtf8)
    }
}

/// The texts of a parse result.
pub open spec fn parsed_view(r: Result<(CommandType, Option<Payload>), CommandError>) -> Result<
    (CommandType, Option<(Seq<char>, Seq<char>)>),
    CommandError,
> {
    match r {
        Ok((kind, payload)) => Ok((kind, payload_view(payload))),
        Err(e) => Err(e),
    }
}

/// `s` holds no `c`.
pub open spec fn lacks(s: Seq<char>, c: char) -> bool {
    forall|k: int| 0 <= k < s.len() ==> #[trigger] s[k] != c
}

/// Splitting `a + [c] + b` at its first `c`, when `a` holds none, gives `a` and `b`.
pub proof fn lemma_split_at_first(a: Seq<char>, c: char, b: Seq<char>)
    requires
        lacks(a, c),
    ensures
        split_once_spec(a + seq![c] + b, c) == Some((a, b)),
{
    let s = a + seq![c] + b;
    let k = a.len() as int;
    assert forall|j: int| 0 <= j < k implies s[j] != c by {
        assert(s[j] == a[j]);
    }
    lemma_find_from_at(s, 0, k, c);
    assert(s.subrange(0, k) =~= a);
    assert(s.subrange(k + 1, s.len() as int) =~= b);
}

/// `!;` is a health check, whatever follows the `;`.
pub proof fn lemma_health_command(rest: Seq<char>)
    ensures
        command_spec(seq!['!', ';'] + rest) == Ok::<_, CommandError>((CommandType::Health, None::<(Seq<char>, Seq<char>)>)),
{
    lemma_split_at_first(seq!['!'], ';', rest);
    assert(seq!['!'] + seq![';'] + rest =~= seq!['!', ';'] + rest);
}

/// `?;key` reads `key`, whatever `key` holds.
pub proof fn lemma_get_command(key: Seq<char>)
    ensures
        command_spec(seq!['?', ';'] + key) == Ok::<_, CommandError>(
            (CommandType::Get, Some((key, Seq::<char>::empty()))),
        ),
{
    lemma_split_at_first(seq!['?'], ';', key);
    assert(seq!['?'] + seq![';'] + key =~= seq!['?', ';'] + key);
}

/// `-;key` deletes `key`, whatever `key` holds.
pub proof fn lemma_delete_command(key: Seq<char>)
    ensures
        command_spec(seq!['-', ';'] + key) == Ok::<_, CommandError>(
            (CommandType::Delete, Some((key, Seq::<char>::empty()))),
        ),
{
    lemma_split_at_first(seq!['-'], ';', key);
    assert(seq!['-'] + seq![';'] + key =~= seq!['-', ';'] + key);
}

/// `+;key$size;value` inserts `value` under `key` when `key` holds neither
/// `;` nor `$` and `size` holds no `;`; `value` may hold anything, and the
/// size is not checked against it.
pub proof fn lemma_insert_command(key: Seq<char>, size: Seq<char>, value: Seq<char>)
    requires
        lacks(key, ';'),
        lacks(key, '$'),
        lacks(size, ';'),
    ensures
        command_spec(seq!['+', ';'] + key + seq!['$'] + size + seq![';'] + value) == Ok::<_, CommandError>(
            (CommandType::Insert, Some((key, value))),
        ),
{
    let args = key + seq!['$'] + size + seq![';'] + value;
    lemma_split_at_first(seq!['+'], ';', args);
    assert(seq!['+'] + seq![';'] + args =~= seq!['+', ';'] + key + seq!['$'] + size + seq![';'] + value);
    let front = key + seq!['$'] + size;
    assert forall|k: int| 0 <= k < front.len() implies #[trigger] front[k] != ';' by {
        if k < key.len() {
            assert(front[k] == key[k]);
        } else if k > key.len() {
            assert(front[k] == size[k - key.len() - 1]);
        }
    }
    lemma_split_at_first(front, ';', value);
    assert(front + seq![';'] + value =~= args);
    lemma_split_at_first(key, '$', size);
}

impl Command {
    /// Parses a line into a command.
    pub fn new(line: BytesMut) -> (res: Result<Command, CommandError>)
        ensures
            match (res, line_command_spec(buf_bytes(line))) {
                (Ok(c), Ok(v)) => c@ == v,
                (Err(e), Err(f)) => e == f,
                _ => false,
            },
    {
        match parse(&line) {
            Ok((kind, payload)) => Ok(Command { kind, payload }),
            Err(e) => Err(e),
        }
    }
}

/// Parses a line into the kind of command and its payload.
pub fn parse(b: &BytesMut) -> (res: Result<(CommandType, Option<Payload>), CommandError>)
    ensures
        parsed_view(res) == line_command_spec(buf_bytes(*b)),
{
    let s = match str_from_utf8(buf_as_slice(b)) {
        Some(s) => s,
        None => {
            return Err(CommandError::InvalidUtf8);
        },
    };
    let (command_type, rest) = match split_once(s, SEMICOLON) {
        Some(parts) => parts,
        None => {
            return Err(CommandError::MissingSeparator);
        },
    };
    let c = if command_type.unicode_len() == 1 {
        command_type.get_char(0)
    } else {
        ' '
    };
    proof {
        assert(command_type@.len() == 1 ==> command_type@ =~= seq![c]);
        assert(command_type@.len() != 1 ==> command_type@ != seq!['!'] && command_type@ != seq!['+']
            && command_type@ != seq!['?'] && command_type@ != seq!['-']);
    }
    if c == '!' {
        Ok((CommandType::Health, None))
    } else if c == '+' {
        match parse_insert_payload(rest) {
            Ok(payload) => Ok((CommandType::Insert, payload)),
            Err(e) => Err(e),
        }
    } else if c == '?' {
        Ok((CommandType::Get, Some(Payload { key: rest.to_owned(), value: String::new() })))
    } else if c == '-' {
        Ok((CommandType::Delete, Some(Payload { key: rest.to_owned(), value: String::new() })))
    } else {
        Err(CommandError::UnknownCommand)
    }
}

/// Parses the arguments of an insert, `key$size;value`.
pub fn parse_insert_payload(s: &str) -> (res: Result<Option<Payload>, CommandError>)
    ensures
        match (res, insert_payload_spec(s@)) {
            (Ok(p), Ok(q)) => payload_view(p) == q,
            (Err(e), Err(f)) => e == f,
            _ => false,
        },
{
    let (key, value) = match split_once(s, SEMICOLON) {
        Some(parts) => parts,
        None => {
            return Err(CommandError::MissingKeyOrValue);
        },
    };
    let (raw_key, _) = match split_once(key, DOLLAR) {
        Some(parts) => parts,
        None => {
            return Err(CommandError::MissingSize);
        },
    };
    Ok(Some(Payload { key: raw_key.to_owned(), value: value.to_owned() }))
}

} // verus!
