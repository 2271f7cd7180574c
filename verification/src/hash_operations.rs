//! The SET and GET commands: checking their arguments, and the replies they give.
use crate::db_ops::{DBMessage, SpecMessage};
use crate::codec_laws::lemma_parse_i64_decimal;
use crate::decimal::{int_decimal, nat_digits, parse_i64, spec_parse_i64};
use crate::export_type::{lemma_view_items, view_items, RespValue, SpecResp};
use crate::text::{string_from_utf8_lossy, text_of_bytes};
use vstd::prelude::*;
use vstd::utf8::*;

verus! {

/// The option word `EX`, in any mix of upper and lower case.
pub open spec fn is_ex_option(b: Seq<u8>) -> bool {
    b.len() == 2 && (b[0] == 69 || b[0] == 101) && (b[1] == 88 || b[1] == 120)
}

/// The most seconds an expiration may ask for: the milliseconds must fit in an `i64`.
pub const MAX_EXPIRE_SECONDS: i64 = 9223372036854775;

/// The seconds that the argument after `EX` asks for: a decimal integer from
/// 1 to [`MAX_EXPIRE_SECONDS`].
pub open spec fn spec_expire_seconds(arg: SpecResp) -> Option<u64> {
    match arg {
        SpecResp::BulkString(n) => match spec_parse_i64(n) {
            Some(secs) => if 0 < secs <= MAX_EXPIRE_SECONDS {
                Some(secs as u64)
            } else {
                None
            },
            None => None,
        },
        _ => None,
    }
}

/// What the arguments of `SET key value [EX seconds]` ask of the store, or the
/// error reply.
pub open spec fn spec_set_command(items: Seq<SpecResp>) -> Result<SpecMessage, SpecResp> {
    if items.len() != 3 && items.len() != 5 {
        Err(SpecResp::Error("Wrong number of arguments for set"@))
    } else {
        match items[1] {
            SpecResp::BulkString(k) => match items[2] {
                SpecResp::BulkString(v) => if items.len() == 3 {
                    Ok(
                        SpecMessage::SetValue {
                            key: text_of_bytes(k),
                            value: text_of_bytes(v),
                            expire_seconds: None,
                        },
                    )
                } else if !(items[3] matches SpecResp::BulkString(opt) && is_ex_option(opt)) {
                    Err(SpecResp::Error("Wrong number of arguments for set"@))
                } else {
                    match spec_expire_seconds(items[4]) {
                        Some(secs) => Ok(
                            SpecMessage::SetValue {
                                key: text_of_bytes(k),
                                value: text_of_bytes(v),
                                expire_seconds: Some(secs),
                            },
                        ),
                        None => Err(SpecResp::Error("Wrong number of arguments for set"@)),
                    }
                },
                _ => Err(SpecResp::Error("value must be a bulk strin"@)),
            },
            _ => Err(SpecResp::Error("key must be a bulk string"@)),
        }
    }
}

/// What the arguments of `GET key` ask of the store, or the error reply.
pub open spec fn spec_get_command(items: Seq<SpecResp>) -> Result<SpecMessage, SpecResp> {
    if items.len() != 2 {
        Err(SpecResp::Error("wrong number of arguments"@))
    } else {
        match items[1] {
            SpecResp::BulkString(k) => Ok(SpecMessage::Get { key: text_of_bytes(k) }),
            _ => Err(SpecResp::Error("key must be strin"@)),
        }
    }
}

/// The reply to a GET, from what came back from the store: its value as a
/// bulk string, null for a key that is not bound, and an error when the
/// store sent no answer.
pub open spec fn spec_get_reply(answer: Option<Option<Seq<char>>>) -> SpecResp {
    match answer {
        Some(Some(v)) => SpecResp::BulkString(encode_utf8(v)),
        Some(None) => SpecResp::Null,
        None => SpecResp::Error("DB thread crashed"@),
    }
}

fn error_value(msg: &str) -> (r: RespValue)
    ensures
        r@ == SpecResp::Error(msg@),
{
    RespValue::Error(msg.to_owned())
}

/// Checks the items of a SET command (`items[0]` is the command name,
/// then key, value, and optionally `EX` and a number of seconds): the store
/// request it makes, or the error to answer. Key and value bytes are read as
/// UTF-8, with invalid sequences replaced.
pub fn handle_set(items: &[RespValue]) -> (r: Result<DBMessage, RespValue>)
    ensures
        match r {
            Ok(msg) => spec_set_command(view_items(items@)) == Ok::<SpecMessage, SpecResp>(msg@),
            Err(e) => spec_set_command(view_items(items@)) == Err::<SpecMessage, SpecResp>(e@),
        },
{
    let ghost model = view_items(items@);
    proof {
        lemma_view_items(items@);
    }
    if items.len() != 3 && items.len() != 5 {
        return Err(error_value("Wrong number of arguments for set"));
    }
    assert(model[1] == items@[1]@);
    assert(model[2] == items@[2]@);
    let key = match &items[1] {
        RespValue::BulkString(k) => string_from_utf8_lossy(k.as_slice()),
        _ => {
            return Err(error_value("key must be a bulk string"));
        },
    };
    let value = match &items[2] {
        RespValue::BulkString(v) => string_from_utf8_lossy(v.as_slice()),
        _ => {
            return Err(error_value("value must be a bulk strin"));
        },
    };
    if items.len() == 3 {
        return Ok(DBMessage::SetValue { key, value, expire_seconds: None });
    }
    assert(model[3] == items@[3]@);
    assert(model[4] == items@[4]@);
    let is_ex = match &items[3] {
        RespValue::BulkString(opt) => opt.len() == 2 && (opt[0] == 69u8 || opt[0] == 101u8) && (
        opt[1] == 88u8 || opt[1] == 120u8),
        _ => false,
    };
    if !is_ex {
        return Err(error_value("Wrong number of arguments for set"));
    }
    let seconds = match &items[4] {
        RespValue::BulkString(n) => match parse_i64(n.as_slice(), 0, n.len()) {
            Some(secs) => if 0 < secs && secs <= MAX_EXPIRE_SECONDS {
                Some(secs as u64)
            } else {
                None
            },
            None => None,
        },
        _ => None,
    };
    proof {
        if let RespValue::BulkString(n) = &items[4] {
            assert(n@.subrange(0, n@.len() as int) =~= n@);
        }
    }
    match seconds {
        Some(secs) => Ok(DBMessage::SetValue { key, value, expire_seconds: Some(secs) }),
        None => Err(error_value("Wrong number of arguments for set")),
    }
}

/// Checks the items of a GET command (`items[0]` is the command name): the
/// store request it makes, or the error to answer. The key bytes are read as
/// UTF-8, with invalid sequences replaced.
pub fn handle_get(items: &[RespValue]) -> (r: Result<DBMessage, RespValue>)
    ensures
        match r {
            Ok(msg) => spec_get_command(view_items(items@)) == Ok::<
                SpecMessage,
                SpecResp,
            >(msg@),
            Err(e) => spec_get_command(view_items(items@)) == Err::<
                SpecMessage,
                SpecResp,
            >(e@),
        },
{
    let ghost model = view_items(items@);
    proof {
        lemma_view_items(items@);
    }
    if items.len() != 2 {
        return Err(error_value("wrong number of arguments"));
    }
    assert(model[1] == items@[1]@);
    let key = match &items[1] {
        RespValue::BulkString(k) => string_from_utf8_lossy(k.as_slice()),
        _ => {
            return Err(error_value("key must be strin"));
        },
    };
    Ok(DBMessage::Get { key })
}

/// The reply to a SET that reached the store: `OK`.
pub fn set_reply() -> (r: RespValue)
    ensures
        r@ == SpecResp::SimpleString("OK"@),
{
    RespValue::SimpleString("OK".to_owned())
}

/// The reply to a GET, from the store's answer (`None` when no answer came).
pub fn get_reply(answer: Option<Option<String>>) -> (r: RespValue)
    ensures
        r@ == spec_get_reply(
            match answer {
                Some(Some(v)) => Some(Some(v@)),
                Some(None) => Some(None),
                None => None,
            },
        ),
{
    match answer {
        Some(Some(val)) => {
            let bytes = vstd::slice::slice_to_vec(val.as_str().as_bytes());
            RespValue::BulkString(bytes)
        },
        Some(None) => RespValue::Null,
        None => error_value("DB thread crashed"),
    }
}

/// Every whole number of seconds from 1 up to the most whose milliseconds fit
/// in an `i64`, spelled in decimal after `EX`, is accepted: `SET key value EX n`
/// asks the store to bind the key's text to the value's text for `n` seconds.
pub proof fn lemma_set_ex_accepts(
    key: Seq<u8>,
    value: Seq<u8>,
    name: SpecResp,
    ex: Seq<u8>,
    n: nat,
)
    requires
        is_ex_option(ex),
        0 < n,
        n * 1000 <= i64::MAX,
    ensures
        spec_expire_seconds(SpecResp::BulkString(nat_digits(n))) == Some(n as u64),
        spec_set_command(
            seq![
                name,
                SpecResp::BulkString(key),
                SpecResp::BulkString(value),
                SpecResp::BulkString(ex),
                SpecResp::BulkString(nat_digits(n)),
            ],
        ) == Ok::<SpecMessage, SpecResp>(
            SpecMessage::SetValue {
                key: text_of_bytes(key),
                value: text_of_bytes(value),
                expire_seconds: Some(n as u64),
            },
        ),
{
    lemma_parse_i64_decimal(n as int);
    assert(int_decimal(n as int) == nat_digits(n));
    let items = seq![
        name,
        SpecResp::BulkString(key),
        SpecResp::BulkString(value),
        SpecResp::BulkString(ex),
        SpecResp::BulkString(nat_digits(n)),
    ];
    assert(items[1] == SpecResp::BulkString(key));
    assert(items[2] == SpecResp::BulkString(value));
    assert(items[3] == SpecResp::BulkString(ex));
    assert(items[4] == SpecResp::BulkString(nat_digits(n)));
}

} // verus!
