use bytes::BytesMut;
use rbrldb::channel::{handle_command, Response};
use rbrldb::command::{parse, parse_insert_payload, Command, CommandError, CommandType, Payload};
use rbrldb::connect::{get_skip_bytes, scan_frame, Connection, ConnectionError, FrameError, FrameScan};
use rbrldb::memory::{Db, Store, StoreError, Value};
use rbrldb::text::{parse_usize, split_once};

fn line(bytes: &[u8]) -> BytesMut {
    BytesMut::from(bytes)
}

fn payload(key: &str, value: &str) -> Option<Payload> {
    Some(Payload { key: key.to_string(), value: value.to_string() })
}

// ---- numbers and sizes

#[test]
fn parse_usize_reads_decimal() {
    assert_eq!(parse_usize(b"0"), Some(0));
    assert_eq!(parse_usize(b"007"), Some(7));
    assert_eq!(parse_usize(b"+42"), Some(42));
    assert_eq!(parse_usize(b"18446744073709551615"), Some(usize::MAX));
}

#[test]
fn parse_usize_refuses_what_from_str_refuses() {
    assert_eq!(parse_usize(b""), None);
    assert_eq!(parse_usize(b"+"), None);
    assert_eq!(parse_usize(b"-1"), None);
    assert_eq!(parse_usize(b"1a"), None);
    assert_eq!(parse_usize(b" 1"), None);
    assert_eq!(parse_usize(b"18446744073709551616"), None);
    assert_eq!(parse_usize(b"99999999999999999999999"), None);
}

#[test]
fn parse_usize_agrees_with_std() {
    for text in ["", "+", "0", "12", "+12", "-12", "1_0", "00", "340282366920938463463374607431768211456"] {
        assert_eq!(parse_usize(text.as_bytes()), text.parse::<usize>().ok(), "{}", text);
    }
}

#[test]
fn get_skip_bytes_errors() {
    assert_eq!(get_skip_bytes(b"3"), Ok(3));
    assert_eq!(get_skip_bytes(b"x"), Err(FrameError::InvalidNumber));
    assert_eq!(get_skip_bytes(&[0xff]), Err(FrameError::InvalidUtf8));
    assert_eq!(get_skip_bytes(&[0xc3, 0xa9]), Err(FrameError::InvalidNumber));
}

// ---- splitting text

#[test]
fn split_once_at_first_separator() {
    assert_eq!(split_once("a;b;c", b';'), Some(("a", "b;c")));
    assert_eq!(split_once(";", b';'), Some(("", "")));
    assert_eq!(split_once("été;ça", b';'), Some(("été", "ça")));
    assert_eq!(split_once("abc", b';'), None);
}

// ---- framing

#[test]
fn scan_frame_crlf_line() {
    assert_eq!(scan_frame(b"!;\r\n"), FrameScan::Line(2));
    assert_eq!(scan_frame(b"?;foo\r\n?;bar\r\n"), FrameScan::Line(5));
}

#[test]
fn scan_frame_sized_line_may_hold_crlf() {
    // the size makes `a\r\nb` one value
    assert_eq!(scan_frame(b"+;k$4;a\r\nb\r\n"), FrameScan::Line(10));
}

#[test]
fn scan_frame_incomplete() {
    assert_eq!(scan_frame(b""), FrameScan::Fail(FrameError::Incomplete));
    assert_eq!(scan_frame(b"!"), FrameScan::Fail(FrameError::Incomplete));
    assert_eq!(scan_frame(b"!;\r"), FrameScan::Fail(FrameError::Incomplete));
    assert_eq!(scan_frame(b"+;k$10;abc\r\n"), FrameScan::Fail(FrameError::Incomplete));
    // a `$` without a later `;` is plain text
    assert_eq!(scan_frame(b"?;a$b\r\n"), FrameScan::Line(5));
}

#[test]
fn scan_frame_bad_size() {
    assert_eq!(scan_frame(b"+;k$x;abc\r\n"), FrameScan::Fail(FrameError::InvalidNumber));
    assert_eq!(scan_frame(b"+;k$\xff;abc\r\n"), FrameScan::Fail(FrameError::InvalidUtf8));
}

#[test]
fn scan_frame_overrun() {
    // the line ends at the end of the buffer: no two bytes follow it
    assert_eq!(scan_frame(b"+;k$3;abc"), FrameScan::Overrun);
    assert_eq!(scan_frame(b"+;k$3;abc\r"), FrameScan::Overrun);
    assert_eq!(scan_frame(b"+;k$18446744073709551615;abc\r\n"), FrameScan::Overrun);
}

#[test]
fn connection_parse_takes_line_and_two_bytes() {
    let mut conn = Connection::new();
    assert!(conn.has_empty_buffer());
    conn.receive(b"?;foo\r\n!;");
    assert_eq!(conn.buffered_len(), 9);
    let first = conn.parse().unwrap();
    assert_eq!(&first[..], b"?;foo");
    assert_eq!(conn.buffered_len(), 2);
    assert_eq!(conn.parse(), Err(FrameError::Incomplete));
    assert_eq!(conn.buffered_len(), 2);
    conn.receive(b"\r\n");
    assert_eq!(&conn.parse().unwrap()[..], b"!;");
    assert!(conn.has_empty_buffer());
}

#[test]
fn connection_sized_line() {
    let mut conn = Connection::new();
    conn.receive(b"+;k$4;a\r\nb\r\nrest");
    assert_eq!(&conn.parse().unwrap()[..], b"+;k$4;a\r\nb");
    assert_eq!(conn.buffered_len(), 4);
}

#[test]
fn connection_overruns() {
    let mut conn = Connection::new();
    conn.receive(b"+;k$3;abc");
    assert!(conn.overruns());
    conn.receive(b"\r\n");
    assert!(!conn.overruns());
}

#[test]
fn connection_end_of_stream() {
    let mut conn = Connection::new();
    assert_eq!(conn.end_of_stream(), Ok(()));
    conn.receive(b"!;");
    assert_eq!(conn.end_of_stream(), Err(ConnectionError::Reset));
}

// ---- commands

#[test]
fn parse_commands() {
    assert_eq!(parse(&line(b"!;")).unwrap(), (CommandType::Health, None));
    assert_eq!(parse(&line(b"+;foo$3;bar")).unwrap(), (CommandType::Insert, payload("foo", "bar")));
    assert_eq!(parse(&line(b"?;foo")).unwrap(), (CommandType::Get, payload("foo", "")));
    assert_eq!(parse(&line(b"-;foo")).unwrap(), (CommandType::Delete, payload("foo", "")));
    assert_eq!(parse(&line(b"?;a;b")).unwrap(), (CommandType::Get, payload("a;b", "")));
}

#[test]
fn parse_command_errors() {
    assert_eq!(parse(&line(b"\xff;")), Err(CommandError::InvalidUtf8));
    assert_eq!(parse(&line(b"!")), Err(CommandError::MissingSeparator));
    assert_eq!(parse(&line(b"*;x")), Err(CommandError::UnknownCommand));
    assert_eq!(parse(&line(b"!!;")), Err(CommandError::UnknownCommand));
    assert_eq!(parse(&line(b"+;foo")), Err(CommandError::MissingKeyOrValue));
    assert_eq!(parse(&line(b"+;foo;bar")), Err(CommandError::MissingSize));
}

#[test]
fn parse_insert_payload_cases() {
    assert_eq!(parse_insert_payload("k$1;v"), Ok(payload("k", "v")));
    assert_eq!(parse_insert_payload("k$9;v;w"), Ok(payload("k", "v;w")));
    assert_eq!(parse_insert_payload("k$$1;v"), Ok(payload("k", "v")));
    assert_eq!(parse_insert_payload("k"), Err(CommandError::MissingKeyOrValue));
    assert_eq!(parse_insert_payload("k;v"), Err(CommandError::MissingSize));
}

#[test]
fn command_new_keeps_unicode() {
    let c = Command::new(line("+;clé$2;été".as_bytes())).unwrap();
    assert_eq!(c.kind, CommandType::Insert);
    assert_eq!(c.payload, payload("clé", "été"));
    assert!(Command::new(line(b"?")).is_err());
}

// ---- store and replies

#[test]
fn db_set_get_delete() {
    let mut db = Db::new();
    assert_eq!(db.get("a"), Err(StoreError::NotFound));
    db.set("a".to_string(), Value { data: vec![1, 2], ttl: Some(5) });
    assert_eq!(db.get("a"), Ok(vec![1, 2]));
    db.set("a".to_string(), Value { data: vec![3], ttl: None });
    assert_eq!(db.get("a"), Ok(vec![3]));
    assert_eq!(db.get("b"), Err(StoreError::NotFound));
    assert_eq!(db.delete("a"), Ok(()));
    assert_eq!(db.delete("a"), Err(StoreError::NotFound));
    assert_eq!(db.get("a"), Err(StoreError::NotFound));
}

#[test]
fn response_bytes() {
    assert_eq!(Response::Success.as_bytes(), b"ok".to_vec());
    assert_eq!(Response::NotFound.as_bytes(), b"nf".to_vec());
    assert_eq!(Response::Error.as_bytes(), b"error".to_vec());
}

fn command(kind: CommandType, payload: Option<Payload>) -> Command {
    Command { kind, payload }
}

#[test]
fn handle_commands() {
    let mut db = Db::new();
    assert_eq!(handle_command(&mut db, command(CommandType::Health, None)), b"ok".to_vec());
    assert_eq!(handle_command(&mut db, command(CommandType::Get, payload("k", ""))), b"nf".to_vec());
    assert_eq!(handle_command(&mut db, command(CommandType::Insert, payload("k", "vé"))), b"ok".to_vec());
    assert_eq!(handle_command(&mut db, command(CommandType::Get, payload("k", ""))), "vé".as_bytes().to_vec());
    assert_eq!(handle_command(&mut db, command(CommandType::Get, payload("j", ""))), b"nf".to_vec());
    assert_eq!(handle_command(&mut db, command(CommandType::Delete, payload("k", ""))), b"ok".to_vec());
    assert_eq!(handle_command(&mut db, command(CommandType::Delete, payload("k", ""))), b"nf".to_vec());
}

#[test]
fn handle_commands_without_payload() {
    let mut db = Db::new();
    for kind in [CommandType::Insert, CommandType::Get, CommandType::Delete] {
        assert_eq!(handle_command(&mut db, command(kind, None)), b"error".to_vec());
    }
}

#[test]
fn insert_keeps_other_keys() {
    let mut db = Db::new();
    handle_command(&mut db, command(CommandType::Insert, payload("a", "1")));
    handle_command(&mut db, command(CommandType::Insert, payload("b", "2")));
    assert_eq!(handle_command(&mut db, command(CommandType::Get, payload("a", ""))), b"1".to_vec());
    assert_eq!(handle_command(&mut db, command(CommandType::Get, payload("b", ""))), b"2".to_vec());
}

#[test]
fn write_then_read_any_bytes() {
    // a value holding `;`, `$` and `\r\n` comes back exactly
    let mut conn = Connection::new();
    let mut db = Db::new();
    conn.receive(b"+;k$7;a;$\r\nbc\r\n?;k\r\n");
    let insert = Command::new(conn.parse().unwrap()).unwrap();
    assert_eq!(handle_command(&mut db, insert), b"ok".to_vec());
    let read = Command::new(conn.parse().unwrap()).unwrap();
    assert_eq!(handle_command(&mut db, read), b"a;$\r\nbc".to_vec());
}
