use rusty_redis::export_type::RespValue;
use rusty_redis::serial_deserial::{decode_resp_value, encode_resp_value, DecodeResult};

fn bulk(b: &[u8]) -> RespValue {
    RespValue::BulkString(b.to_vec())
}

fn simple(s: &str) -> RespValue {
    RespValue::SimpleString(s.to_string())
}

#[test]
fn encode_simple_string() {
    assert_eq!(encode_resp_value(&simple("OK")), b"+OK\r\n".to_vec());
    assert_eq!(encode_resp_value(&simple("héllo")), "+héllo\r\n".as_bytes().to_vec());
}

#[test]
fn encode_integers() {
    assert_eq!(encode_resp_value(&RespValue::Integer(0)), b":0\r\n".to_vec());
    assert_eq!(encode_resp_value(&RespValue::Integer(1000)), b":1000\r\n".to_vec());
    assert_eq!(encode_resp_value(&RespValue::Integer(-42)), b":-42\r\n".to_vec());
    assert_eq!(
        encode_resp_value(&RespValue::Integer(i64::MIN)),
        b":-9223372036854775808\r\n".to_vec()
    );
    assert_eq!(
        encode_resp_value(&RespValue::Integer(i64::MAX)),
        b":9223372036854775807\r\n".to_vec()
    );
}

#[test]
fn encode_bulk_null_error() {
    assert_eq!(encode_resp_value(&bulk(b"rust")), b"$4\r\nrust\r\n".to_vec());
    assert_eq!(encode_resp_value(&bulk(b"")), b"$0\r\n\r\n".to_vec());
    assert_eq!(encode_resp_value(&bulk(&[b'a'; 12])), b"$12\r\naaaaaaaaaaaa\r\n".to_vec());
    assert_eq!(encode_resp_value(&RespValue::Null), b"$-1\r\n".to_vec());
    assert_eq!(
        encode_resp_value(&RespValue::Error("unknown command".to_string())),
        b"-unknown command\r\n".to_vec()
    );
}

#[test]
fn encode_arrays() {
    let v = RespValue::Array(vec![bulk(b"GET"), bulk(b"k")]);
    assert_eq!(encode_resp_value(&v), b"*2\r\n$3\r\nGET\r\n$1\r\nk\r\n".to_vec());
    assert_eq!(encode_resp_value(&RespValue::Array(vec![])), b"*0\r\n".to_vec());
    let nested = RespValue::Array(vec![RespValue::Array(vec![RespValue::Integer(1)]), RespValue::Null]);
    assert_eq!(encode_resp_value(&nested), b"*2\r\n*1\r\n:1\r\n$-1\r\n".to_vec());
}

#[test]
fn decode_empty_and_unknown_type() {
    assert_eq!(decode_resp_value(b""), DecodeResult::Incomplete);
    assert_eq!(
        decode_resp_value(b"PING\r\n"),
        DecodeResult::Error("Invalid resp value".to_string())
    );
    assert_eq!(
        decode_resp_value(b"hello, echo"),
        DecodeResult::Error("Invalid resp value".to_string())
    );
}

#[test]
fn decode_simple_strings_and_errors() {
    assert_eq!(decode_resp_value(b"+OK\r\n"), DecodeResult::Complete(simple("OK"), 5));
    assert_eq!(decode_resp_value(b"+OK\r\n+PONG\r\n"), DecodeResult::Complete(simple("OK"), 5));
    assert_eq!(decode_resp_value(b"+OK"), DecodeResult::Incomplete);
    assert_eq!(decode_resp_value(b"+OK\r"), DecodeResult::Incomplete);
    assert_eq!(
        decode_resp_value("+héllo\r\n".as_bytes()),
        DecodeResult::Complete(simple("héllo"), 9)
    );
    assert_eq!(
        decode_resp_value(b"+\xff\r\n"),
        DecodeResult::Error("Invalid UTF-8".to_string())
    );
    assert_eq!(
        decode_resp_value(b"-ERR bad\r\n"),
        DecodeResult::Complete(RespValue::Error("ERR bad".to_string()), 10)
    );
}

#[test]
fn decode_integers() {
    assert_eq!(decode_resp_value(b":123\r\n"), DecodeResult::Complete(RespValue::Integer(123), 6));
    assert_eq!(decode_resp_value(b":-5\r\nxyz"), DecodeResult::Complete(RespValue::Integer(-5), 5));
    assert_eq!(decode_resp_value(b":+7\r\n"), DecodeResult::Complete(RespValue::Integer(7), 5));
    assert_eq!(decode_resp_value(b":007\r\n"), DecodeResult::Complete(RespValue::Integer(7), 6));
    assert_eq!(
        decode_resp_value(b":-9223372036854775808\r\n"),
        DecodeResult::Complete(RespValue::Integer(i64::MIN), 23)
    );
    assert_eq!(
        decode_resp_value(b":9223372036854775808\r\n"),
        DecodeResult::Error("Invalid integer".to_string())
    );
    assert_eq!(decode_resp_value(b":abc\r\n"), DecodeResult::Error("Invalid integer".to_string()));
    assert_eq!(decode_resp_value(b":\r\n"), DecodeResult::Error("Invalid integer".to_string()));
    assert_eq!(decode_resp_value(b":-\r\n"), DecodeResult::Error("Invalid integer".to_string()));
    assert_eq!(decode_resp_value(b":12"), DecodeResult::Incomplete);
    assert_eq!(decode_resp_value(b":12\r"), DecodeResult::Incomplete);
}

#[test]
fn decode_bulk_strings() {
    assert_eq!(decode_resp_value(b"$4\r\nrust\r\n"), DecodeResult::Complete(bulk(b"rust"), 10));
    assert_eq!(decode_resp_value(b"$0\r\n\r\n"), DecodeResult::Complete(bulk(b""), 6));
    assert_eq!(decode_resp_value(b"$4\r\nru"), DecodeResult::Incomplete);
    assert_eq!(decode_resp_value(b"$4\r\nrust"), DecodeResult::Incomplete);
    assert_eq!(decode_resp_value(b"$4\r\nrust\r"), DecodeResult::Incomplete);
    assert_eq!(decode_resp_value(b"$-1\r\n"), DecodeResult::Complete(RespValue::Null, 5));
    assert_eq!(decode_resp_value(b"$-1\r"), DecodeResult::Incomplete);
    assert_eq!(
        decode_resp_value(b"$-2\r\n"),
        DecodeResult::Error("Invalid integer".to_string())
    );
    assert_eq!(
        decode_resp_value(b"$536870913\r\n"),
        DecodeResult::Error("Bulk string too large".to_string())
    );
    assert_eq!(decode_resp_value(b"$536870912\r\n"), DecodeResult::Incomplete);
    assert_eq!(decode_resp_value(b"$x\r\n"), DecodeResult::Error("Invalid integer".to_string()));
    assert_eq!(decode_resp_value(b"$3\r\n\xff\xfe\x00\r\n"), DecodeResult::Complete(bulk(b"\xff\xfe\x00"), 9));
}

#[test]
fn decode_arrays() {
    let req = b"*2\r\n$3\r\nGET\r\n$1\r\nk\r\n";
    assert_eq!(
        decode_resp_value(req),
        DecodeResult::Complete(RespValue::Array(vec![bulk(b"GET"), bulk(b"k")]), 20)
    );
    assert_eq!(decode_resp_value(b"*2\r\n$3\r\nGET\r\n"), DecodeResult::Incomplete);
    assert_eq!(decode_resp_value(b"*0\r\n"), DecodeResult::Complete(RespValue::Array(vec![]), 4));
    assert_eq!(decode_resp_value(b"*0\r"), DecodeResult::Incomplete);
    assert_eq!(
        decode_resp_value(b"*1\r\n?x"),
        DecodeResult::Error("Invalid resp value".to_string())
    );
    assert_eq!(decode_resp_value(b"*-1\r\n"), DecodeResult::Error("Invalid integer".to_string()));
    assert_eq!(
        decode_resp_value(b"*2\r\n*1\r\n:1\r\n$-1\r\n"),
        DecodeResult::Complete(
            RespValue::Array(vec![RespValue::Array(vec![RespValue::Integer(1)]), RespValue::Null]),
            17
        )
    );
    assert_eq!(decode_resp_value(b"*99999999999\r\n"), DecodeResult::Incomplete);
}

#[test]
fn decode_reads_back_what_encode_wrote() {
    let values = vec![
        simple("PONG"),
        RespValue::Integer(-17),
        bulk(b"with\r\ninside"),
        RespValue::Null,
        RespValue::Error("ERR x".to_string()),
        RespValue::Array(vec![bulk(b"SET"), bulk(b"lang"), bulk(b"rust"), RespValue::Array(vec![])]),
    ];
    for v in values {
        let mut bytes = encode_resp_value(&v);
        let n = bytes.len();
        bytes.extend_from_slice(b"*1\r\n");
        assert_eq!(decode_resp_value(&bytes), DecodeResult::Complete(v, n));
    }
}

#[test]
fn every_cut_of_an_encoding_waits_for_more() {
    let v = RespValue::Array(vec![
        bulk(b"SET"),
        RespValue::Integer(-12),
        RespValue::Null,
        simple("ok"),
        RespValue::Array(vec![bulk(b"")]),
    ]);
    let bytes = encode_resp_value(&v);
    for p in 0..bytes.len() {
        assert_eq!(decode_resp_value(&bytes[..p]), DecodeResult::Incomplete, "cut at {}", p);
    }
    assert_eq!(decode_resp_value(&bytes), DecodeResult::Complete(v, bytes.len()));
}
