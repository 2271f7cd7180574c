use rusty_redis::db_ops::{DBMessage, Db, DbAction};
use rusty_redis::export_type::RespValue;
use rusty_redis::handle_connection::{command_name_readable, respond, Command, Frame, Session};
use rusty_redis::hash_operations::{get_reply, handle_get, handle_set, set_reply};
use rusty_redis::serial_deserial::encode_resp_value;

fn bulk(b: &[u8]) -> RespValue {
    RespValue::BulkString(b.to_vec())
}

fn req(parts: &[&[u8]]) -> RespValue {
    RespValue::Array(parts.iter().map(|p| bulk(p)).collect())
}

fn err(s: &str) -> Command {
    Command::Reply(RespValue::Error(s.to_string()))
}

#[test]
fn ping_is_answered_pong_in_any_case() {
    let pong = Command::Reply(RespValue::SimpleString("PONG".to_string()));
    assert_eq!(respond(&req(&[b"PING"])), pong);
    assert_eq!(respond(&req(&[b"ping"])), pong);
    assert_eq!(respond(&req(&[b"PiNg", b"extra"])), pong);
}

#[test]
fn set_and_get_go_to_the_store() {
    assert_eq!(
        respond(&req(&[b"set", b"lang", b"rust"])),
        Command::Store(DBMessage::SetValue {
            key: "lang".to_string(),
            value: "rust".to_string(),
            expire_seconds: None
        })
    );
    assert_eq!(
        respond(&req(&[b"GET", b"lang"])),
        Command::Store(DBMessage::Get { key: "lang".to_string() })
    );
}

#[test]
fn argument_errors() {
    assert_eq!(respond(&req(&[b"SET", b"k"])), err("Wrong number of arguments for set"));
    assert_eq!(
        respond(&RespValue::Array(vec![bulk(b"SET"), RespValue::Integer(1), bulk(b"v")])),
        err("key must be a bulk string")
    );
    assert_eq!(
        respond(&RespValue::Array(vec![bulk(b"SET"), bulk(b"k"), RespValue::Null])),
        err("value must be a bulk strin")
    );
    assert_eq!(respond(&req(&[b"GET"])), err("wrong number of arguments"));
    assert_eq!(
        respond(&RespValue::Array(vec![bulk(b"GET"), RespValue::Integer(3)])),
        err("key must be strin")
    );
}

#[test]
fn set_with_expiration() {
    assert_eq!(
        respond(&req(&[b"SET", b"k", b"v", b"ex", b"10"])),
        Command::Store(DBMessage::SetValue {
            key: "k".to_string(),
            value: "v".to_string(),
            expire_seconds: Some(10)
        })
    );
    assert_eq!(respond(&req(&[b"SET", b"k", b"v", b"PX", b"10"])), err("Wrong number of arguments for set"));
    assert_eq!(respond(&req(&[b"SET", b"k", b"v", b"EX", b"0"])), err("Wrong number of arguments for set"));
    assert_eq!(respond(&req(&[b"SET", b"k", b"v", b"EX", b"-3"])), err("Wrong number of arguments for set"));
    assert_eq!(respond(&req(&[b"SET", b"k", b"v", b"EX", b"ten"])), err("Wrong number of arguments for set"));
    assert_eq!(
        respond(&req(&[b"SET", b"k", b"v", b"EX", b"9223372036854776"])),
        err("Wrong number of arguments for set")
    );
    assert_eq!(
        respond(&RespValue::Array(vec![bulk(b"SET"), bulk(b"k"), bulk(b"v"), bulk(b"EX"), RespValue::Integer(5)])),
        err("Wrong number of arguments for set")
    );
    assert_eq!(respond(&req(&[b"SET", b"k", b"v", b"EX"])), err("Wrong number of arguments for set"));
}

#[test]
fn malformed_requests() {
    assert_eq!(respond(&req(&[b"FLUSHALL"])), err("unknown command"));
    assert_eq!(respond(&RespValue::Array(vec![])), err("command must be array"));
    assert_eq!(respond(&bulk(b"PING")), err("command must be array"));
    assert_eq!(
        respond(&RespValue::Array(vec![RespValue::SimpleString("PING".to_string())])),
        err("Invalid command")
    );
}

#[test]
fn command_name_must_be_utf8() {
    assert!(command_name_readable(&req(&[b"PING"])));
    assert!(!command_name_readable(&req(&[b"\xffPING"])));
    assert!(command_name_readable(&RespValue::Integer(1)));
    assert!(command_name_readable(&RespValue::Array(vec![])));
}

#[test]
fn keys_and_values_are_read_as_lossy_utf8() {
    let items = vec![bulk(b"SET"), bulk(b"k\xff"), bulk(b"v")];
    assert_eq!(
        handle_set(&items),
        Ok(DBMessage::SetValue {
            key: "k\u{FFFD}".to_string(),
            value: "v".to_string(),
            expire_seconds: None
        })
    );
    let items = vec![bulk(b"GET"), bulk("clé".as_bytes())];
    assert_eq!(handle_get(&items), Ok(DBMessage::Get { key: "clé".to_string() }));
}

#[test]
fn replies() {
    assert_eq!(set_reply(), RespValue::SimpleString("OK".to_string()));
    assert_eq!(get_reply(Some(Some("rust".to_string()))), bulk(b"rust"));
    assert_eq!(get_reply(Some(None)), RespValue::Null);
    assert_eq!(get_reply(None), RespValue::Error("DB thread crashed".to_string()));
}

#[test]
fn session_waits_for_a_whole_request() {
    let mut session = Session::new();
    assert_eq!(session.next_frame(), Frame::NeedMore);
    session.receive(b"*1\r\n$4\r\nPI");
    assert_eq!(session.next_frame(), Frame::NeedMore);
    session.receive(b"NG\r\n");
    assert_eq!(session.next_frame(), Frame::Request(req(&[b"PING"])));
    assert_eq!(session.next_frame(), Frame::NeedMore);
}

#[test]
fn session_splits_pipelined_requests() {
    let mut session = Session::new();
    session.receive(b"*1\r\n$4\r\nPING\r\n*2\r\n$3\r\nGET\r\n$1\r\nk\r\n*1");
    assert_eq!(session.next_frame(), Frame::Request(req(&[b"PING"])));
    assert_eq!(session.next_frame(), Frame::Request(req(&[b"GET", b"k"])));
    assert_eq!(session.next_frame(), Frame::NeedMore);
}

#[test]
fn session_reports_undecodable_bytes_and_drops_them() {
    let mut session = Session::new();
    session.receive(b"*x\r\n*1\r\n$4\r\nPING\r\n");
    assert_eq!(
        session.next_frame(),
        Frame::Fail(b"-Error decoding request: Invalid integer\r\n".to_vec())
    );
    assert_eq!(session.next_frame(), Frame::NeedMore);
    session.receive(b":x\r\n");
    assert_eq!(
        session.next_frame(),
        Frame::Fail(b"-Error decoding request: Invalid integer\r\n".to_vec())
    );
}

/// Runs one connection's worth of bytes through the session, the commands
/// and the store, as the server does, and returns what it would write back.
fn serve(db: &mut Db, session: &mut Session, input: &[u8], now: u64) -> Vec<u8> {
    let mut out = Vec::new();
    session.receive(input);
    loop {
        match session.next_frame() {
            Frame::Request(r) => {
                let reply = match respond(&r) {
                    Command::Reply(v) => v,
                    Command::Store(msg) => match db.apply(msg, now) {
                        DbAction::Persist(_) => set_reply(),
                        DbAction::Reply(v) => get_reply(Some(v)),
                    },
                };
                out.extend(encode_resp_value(&reply));
            }
            Frame::Blank => continue,
            Frame::NeedMore => break,
            Frame::Fail(bytes) => {
                out.extend(bytes);
                break;
            }
        }
    }
    out
}

#[test]
fn set_then_get_over_the_wire() {
    let mut db = Db::new();
    let mut session = Session::new();
    assert_eq!(serve(&mut db, &mut session, b"*1\r\n$4\r\nPING\r\n", 0), b"+PONG\r\n".to_vec());
    assert_eq!(
        serve(&mut db, &mut session, b"*3\r\n$3\r\nSET\r\n$4\r\nlang\r\n$4\r\nrust\r\n", 0),
        b"+OK\r\n".to_vec()
    );
    let reply = serve(&mut db, &mut session, b"*2\r\n$3\r\nGET\r\n$4\r\nlang\r\n", 1);
    assert_eq!(reply, b"$4\r\nrust\r\n".to_vec());
    assert_eq!(
        serve(&mut db, &mut session, b"*2\r\n$3\r\nGET\r\n$7\r\nmissing\r\n", 1),
        b"$-1\r\n".to_vec()
    );
}

#[test]
fn set_with_ex_then_get_before_and_after() {
    let mut db = Db::new();
    let mut session = Session::new();
    assert_eq!(
        serve(
            &mut db,
            &mut session,
            b"*5\r\n$3\r\nSET\r\n$1\r\nk\r\n$1\r\nv\r\n$2\r\nEX\r\n$1\r\n2\r\n",
            1_000
        ),
        b"+OK\r\n".to_vec()
    );
    let get = b"*2\r\n$3\r\nGET\r\n$1\r\nk\r\n";
    assert_eq!(serve(&mut db, &mut session, get, 2_999), b"$1\r\nv\r\n".to_vec());
    assert_eq!(serve(&mut db, &mut session, get, 3_000), b"$-1\r\n".to_vec());
}

#[test]
fn session_reads_inline_commands() {
    let mut session = Session::new();
    session.receive(b"PING\r\nSET name  nebiyu\n\r\n   \r\nGET lang\r\nhello, echo");
    assert_eq!(session.next_frame(), Frame::Request(req(&[b"PING"])));
    assert_eq!(session.next_frame(), Frame::Request(req(&[b"SET", b"name", b"nebiyu"])));
    assert_eq!(session.next_frame(), Frame::Blank);
    assert_eq!(session.next_frame(), Frame::Blank);
    assert_eq!(session.next_frame(), Frame::Request(req(&[b"GET", b"lang"])));
    assert_eq!(session.next_frame(), Frame::NeedMore);
    session.receive(b"\n");
    assert_eq!(session.next_frame(), Frame::Request(req(&[b"hello,", b"echo"])));
    assert_eq!(session.next_frame(), Frame::NeedMore);
}

#[test]
fn test_ping() {
    let mut db = Db::new();
    let mut session = Session::new();
    assert_eq!(serve(&mut db, &mut session, b"PING\r\n", 0), b"+PONG\r\n".to_vec());
}

#[test]
fn test_set() {
    let mut db = Db::new();
    let mut session = Session::new();
    assert_eq!(serve(&mut db, &mut session, b"SET name nebiyu\r\n", 0), b"+OK\r\n".to_vec());
}

#[test]
fn test_get() {
    let mut db = Db::new();
    let mut session = Session::new();
    assert_eq!(serve(&mut db, &mut session, b"SET lang rust\r\n", 0), b"+OK\r\n".to_vec());
    let reply = serve(&mut db, &mut session, b"GET lang\r\n", 0);
    assert!(String::from_utf8_lossy(&reply).contains("rust"));
    assert_eq!(reply, b"$4\r\nrust\r\n".to_vec());
}

#[test]
fn replies_do_not_depend_on_how_reads_split_the_stream() {
    let stream: &[u8] = b"*1\r\n$4\r\nPING\r\nSET k v\r\n*2\r\n$3\r\nGET\r\n$1\r\nk\r\nGET k\n";
    let mut db = Db::new();
    let mut session = Session::new();
    let whole = serve(&mut db, &mut session, stream, 0);
    for cut in 0..stream.len() {
        let mut db = Db::new();
        let mut session = Session::new();
        let mut split = serve(&mut db, &mut session, &stream[..cut], 0);
        split.extend(serve(&mut db, &mut session, &stream[cut..], 0));
        assert_eq!(split, whole, "cut at {}", cut);
    }
}
