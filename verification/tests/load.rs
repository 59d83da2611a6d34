use bytes::BytesMut;
use rbrldb::channel::handle_command;
use rbrldb::command::Command;
use rbrldb::connect::Connection;
use rbrldb::memory::{Db, Store};

/// Feeds `input` to the connection and answers every complete line, as the
/// server does, concatenating the replies.
fn serve(conn: &mut Connection, db: &mut Db, input: &[u8]) -> Vec<u8> {
    conn.receive(input);
    let mut out = Vec::new();
    loop {
        assert!(!conn.overruns());
        let line: BytesMut = match conn.parse() {
            Ok(line) => line,
            Err(_) => break,
        };
        let command = Command::new(line).expect("a command");
        out.extend_from_slice(&handle_command(db, command));
    }
    out
}

#[test]
fn health_test() {
    let mut conn = Connection::new();
    let mut db = Db::new();
    let response = serve(&mut conn, &mut db, b"!;\r\n");
    assert_eq!(std::str::from_utf8(&response).unwrap(), "ok");
}

#[test]
fn insert_test() {
    let mut conn = Connection::new();
    let mut db = Db::new();
    let response = serve(&mut conn, &mut db, b"+;foo$3;bar\r\n");
    assert_eq!(std::str::from_utf8(&response).unwrap(), "ok");
}

#[test]
fn delete_test() {
    let mut conn = Connection::new();
    let mut db = Db::new();
    let response = serve(&mut conn, &mut db, b"+;foo$3;bar\r\n");
    assert_eq!(std::str::from_utf8(&response).unwrap(), "ok");

    let response = serve(&mut conn, &mut db, b"-;foo\r\n");
    assert_eq!(std::str::from_utf8(&response).unwrap(), "ok");

    let response = serve(&mut conn, &mut db, b"-;foo\r\n");
    assert_eq!(std::str::from_utf8(&response).unwrap(), "nf");
}

#[test]
fn get_test() {
    let mut conn = Connection::new();
    let mut db = Db::new();
    let response = serve(&mut conn, &mut db, b"+;foo$3;bar\r\n");
    assert_eq!(std::str::from_utf8(&response).unwrap(), "ok");

    let response = serve(&mut conn, &mut db, b"?;foo\r\n");
    assert_eq!(std::str::from_utf8(&response).unwrap(), "bar");
}

#[test]
fn pipeline_test() {
    let mut conn = Connection::new();
    let mut db = Db::new();
    for _ in 0..3 {
        let response = serve(&mut conn, &mut db, b"!;\r\n");
        assert_eq!(std::str::from_utf8(&response).unwrap(), "ok");
    }

    let response = serve(&mut conn, &mut db, b"!;\r\n!;\r\n!;\r\n");
    assert_eq!(std::str::from_utf8(&response).unwrap(), "okokok");
}
