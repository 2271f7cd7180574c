//! One client connection: splitting the received bytes into requests, and
//! what each request asks for.
use crate::codec_laws::{frameable, frameable_items, lemma_decode_encode, lemma_decode_extend};
use crate::db_ops::{
    expiry_for, is_live, lemma_get_sees_last_set, lookup, store_after, store_after_all, DBMessage,
    SpecMessage,
};
use crate::export_type::{lemma_view_items, view_items, RespValue, SpecResp};
use crate::hash_operations::{
    handle_get, handle_set, is_ex_option, spec_expire_seconds, spec_get_command, spec_get_reply,
    spec_set_command,
};
use crate::serial_deserial::{
    append_bytes, crlf, decode_resp_value, is_type_byte, lemma_decode_consumed,
    lemma_view_items_push, spec_decode, spec_encode, spec_encode_items, DecodeResult, SpecDecode,
};
use crate::text::{
    ascii_upper, lemma_ascii_bytes, string_from_utf8, text_of_bytes, to_uppercase, upper_text,
};
use vstd::prelude::*;
use vstd::utf8::*;

verus! {

/// What a request asks for.
#[derive(Debug, PartialEq, Eq)]
pub enum Command {
    /// Answer with this value.
    Reply(RespValue),
    /// Hand this request to the store; its answer makes the reply.
    Store(DBMessage),
}

/// The model of a [`Command`].
pub enum SpecCommand {
    Reply(SpecResp),
    Store(SpecMessage),
}

impl View for Command {
    type V = SpecCommand;

    open spec fn view(&self) -> SpecCommand {
        match self {
            Command::Reply(v) => SpecCommand::Reply(v@),
            Command::Store(m) => SpecCommand::Store(m@),
        }
    }
}

/// The command name of a request, when the request is a non-empty array
/// whose first item is a bulk string, is UTF-8 text.
pub open spec fn spec_command_name_readable(req: SpecResp) -> bool {
    match req {
        SpecResp::Array(items) => items.len() > 0 ==> match items[0] {
            SpecResp::BulkString(name) => valid_utf8(name),
            _ => true,
        },
        _ => true,
    }
}

/// What a request asks for: a request is an array whose first item, a bulk
/// string, names the command, compared after uppercasing. `PING` is
/// answered `PONG`; `SET` and `GET` go to the store once their arguments
/// check out; anything else is answered with an error.
pub open spec fn spec_respond(req: SpecResp) -> SpecCommand {
    match req {
        SpecResp::Array(items) => if items.len() == 0 {
            SpecCommand::Reply(SpecResp::Error("command must be array"@))
        } else {
            match items[0] {
                SpecResp::BulkString(name) => {
                    let upper = upper_text(decode_utf8(name));
                    if upper == "PING"@ {
                        SpecCommand::Reply(SpecResp::SimpleString("PONG"@))
                    } else if upper == "SET"@ {
                        match spec_set_command(items) {
                            Ok(msg) => SpecCommand::Store(msg),
                            Err(e) => SpecCommand::Reply(e),
                        }
                    } else if upper == "GET"@ {
                        match spec_get_command(items) {
                            Ok(msg) => SpecCommand::Store(msg),
                            Err(e) => SpecCommand::Reply(e),
                        }
                    } else {
                        SpecCommand::Reply(SpecResp::Error("unknown command"@))
                    }
                },
                _ => SpecCommand::Reply(SpecResp::Error("Invalid command"@)),
            }
        },
        _ => SpecCommand::Reply(SpecResp::Error("command must be array"@)),
    }
}

/// Whether the command name of `req` is UTF-8 text (see
/// [`spec_command_name_readable`]); [`respond`] needs it.
pub fn command_name_readable(req: &RespValue) -> (r: bool)
    ensures
        r == spec_command_name_readable(req@),
{
    match req {
        RespValue::Array(items) => {
            proof {
                lemma_view_items(items@);
            }
            if items.len() == 0 {
                return true;
            }
            match &items[0] {
                RespValue::BulkString(name) => {
                    match string_from_utf8(vstd::slice::slice_to_vec(name.as_slice())) {
                        Ok(_) => true,
                        Err(_) => false,
                    }
                },
                _ => true,
            }
        },
        _ => true,
    }
}

fn reply_error(msg: &str) -> (r: Command)
    ensures
        r@ == SpecCommand::Reply(SpecResp::Error(msg@)),
{
    Command::Reply(RespValue::Error(msg.to_owned()))
}

/// What the request `req` asks for.
pub fn respond(req: &RespValue) -> (r: Command)
    requires
        spec_command_name_readable(req@),
    ensures
        r@ == spec_respond(req@),
{
    match req {
        RespValue::Array(items) => {
            proof {
                lemma_view_items(items@);
            }
            if items.len() == 0 {
                return reply_error("command must be array");
            }
            match &items[0] {
                RespValue::BulkString(name_bytes) => {
                    let name = match string_from_utf8(vstd::slice::slice_to_vec(name_bytes.as_slice())) {
                        Ok(name) => name,
                        // `requires` makes the name UTF-8, so this arm is never taken.
                        Err(_) => {
                            return reply_error("unknown command");
                        },
                    };
                    proof {
                        encode_utf8_decode_utf8(name@);
                    }
                    let upper = to_uppercase(name.as_str());
                    if upper == "PING".to_owned() {
                        Command::Reply(RespValue::SimpleString("PONG".to_owned()))
                    } else if upper == "SET".to_owned() {
                        match handle_set(items.as_slice()) {
                            Ok(msg) => Command::Store(msg),
                            Err(e) => Command::Reply(e),
                        }
                    } else if upper == "GET".to_owned() {
                        match handle_get(items.as_slice()) {
                            Ok(msg) => Command::Store(msg),
                            Err(e) => Command::Reply(e),
                        }
                    } else {
                        reply_error("unknown command")
                    }
                },
                _ => reply_error("Invalid command"),
            }
        },
        _ => reply_error("command must be array"),
    }
}

/// The bytes written back when the received bytes cannot be decoded.
pub open spec fn decode_failure_reply(e: Seq<char>) -> Seq<u8> {
    encode_utf8("-Error decoding request: "@) + encode_utf8(e) + crlf()
}

/// The next step of a connection.
#[derive(Debug, PartialEq, Eq)]
pub enum Frame {
    /// A whole request arrived; it has left the buffer.
    Request(RespValue),
    /// The buffer holds no whole request yet: read more.
    NeedMore,
    /// The buffer cannot be decoded: write these bytes back; the buffer was
    /// emptied.
    Fail(Vec<u8>),
    /// A blank inline line left the buffer; look at the buffer again.
    Blank,
}

/// The model of a [`Frame`].
pub enum SpecFrame {
    Request(SpecResp),
    NeedMore,
    Fail(Seq<u8>),
    Blank,
}

impl View for Frame {
    type V = SpecFrame;

    open spec fn view(&self) -> SpecFrame {
        match self {
            Frame::Request(v) => SpecFrame::Request(v@),
            Frame::NeedMore => SpecFrame::NeedMore,
            Frame::Fail(b) => SpecFrame::Fail(b@),
            Frame::Blank => SpecFrame::Blank,
        }
    }
}

/// The first `\n` at or after position `i`.
pub open spec fn find_lf(s: Seq<u8>, i: int) -> Option<int>
    decreases s.len() - i,
{
    if i < 0 || i >= s.len() {
        None
    } else if s[i] == 10 {
        Some(i)
    } else {
        find_lf(s, i + 1)
    }
}

/// The text of an inline command whose `\n` is at `nl`: the bytes before it,
/// less one `\r` just before it.
pub open spec fn inline_line(s: Seq<u8>, nl: int) -> Seq<u8> {
    if nl > 0 && s[nl - 1] == 13 {
        s.take(nl - 1)
    } else {
        s.take(nl)
    }
}

/// The words of `line` from position `i` on, split at spaces, after the
/// words `acc` and with `cur` the word begun so far.
pub open spec fn words_from(line: Seq<u8>, i: int, cur: Seq<u8>, acc: Seq<Seq<u8>>) -> Seq<Seq<u8>>
    decreases line.len() - i,
{
    if i < 0 || i >= line.len() {
        if cur.len() > 0 {
            acc.push(cur)
        } else {
            acc
        }
    } else if line[i] == 32 {
        words_from(line, i + 1, Seq::empty(), if cur.len() > 0 { acc.push(cur) } else { acc })
    } else {
        words_from(line, i + 1, cur.push(line[i]), acc)
    }
}

/// The words of a line: its runs of bytes between spaces.
pub open spec fn split_words(line: Seq<u8>) -> Seq<Seq<u8>> {
    words_from(line, 0, Seq::empty(), Seq::empty())
}

/// Each word as a bulk string.
pub open spec fn bulk_items(words: Seq<Seq<u8>>) -> Seq<SpecResp> {
    words.map_values(|w: Seq<u8>| SpecResp::BulkString(w))
}

/// The next step for a connection whose buffer holds `buf`, and the buffer after it.
///
/// A buffer that starts with a RESP2 type byte holds a RESP2 request. Any
/// other buffer holds an inline command: a line ending in `\n` (or `\r\n`)
/// whose words, split at spaces, are the request's items as bulk strings; a
/// line without words is taken off as blank.
pub open spec fn spec_next_frame(buf: Seq<u8>) -> (SpecFrame, Seq<u8>) {
    if buf.len() > 0 && !is_type_byte(buf[0]) {
        match find_lf(buf, 0) {
            None => (SpecFrame::NeedMore, buf),
            Some(nl) => {
                let words = split_words(inline_line(buf, nl));
                if words.len() == 0 {
                    (SpecFrame::Blank, buf.skip(nl + 1))
                } else {
                    (SpecFrame::Request(SpecResp::Array(bulk_items(words))), buf.skip(nl + 1))
                }
            },
        }
    } else {
        match spec_decode(buf) {
            SpecDecode::Complete(v, k) => (SpecFrame::Request(v), buf.skip(k as int)),
            SpecDecode::Incomplete => (SpecFrame::NeedMore, buf),
            SpecDecode::Error(e) => (SpecFrame::Fail(decode_failure_reply(e)), Seq::empty()),
        }
    }
}

proof fn lemma_find_lf(s: Seq<u8>, i: int)
    requires
        0 <= i,
    ensures
        find_lf(s, i) matches Some(j) ==> i <= j < s.len() && s[j] == 10 && forall|k: int|
            i <= k < j ==> s[k] != 10,
        find_lf(s, i) is None ==> forall|k: int| i <= k < s.len() ==> s[k] != 10,
    decreases s.len() - i,
{
    if i < s.len() && s[i] != 10 {
        lemma_find_lf(s, i + 1);
    }
}

proof fn lemma_bulk_items_push(words: Seq<Seq<u8>>, w: Seq<u8>)
    ensures
        bulk_items(words.push(w)) == bulk_items(words).push(SpecResp::BulkString(w)),
{
    assert(bulk_items(words.push(w)) =~= bulk_items(words).push(SpecResp::BulkString(w)));
}

/// The bytes received on one connection that no request has taken yet.
pub struct Session {
    buffer: Vec<u8>,
}

impl View for Session {
    type V = Seq<u8>;

    closed spec fn view(&self) -> Seq<u8> {
        self.buffer@
    }
}

impl Session {
    /// A connection that has received nothing yet.
    pub fn new() -> (s: Session)
        ensures
            s@ == Seq::<u8>::empty(),
    {
        Session { buffer: Vec::new() }
    }

    /// Adds bytes that arrived to the end of the buffer.
    pub fn receive(&mut self, data: &[u8])
        ensures
            final(self)@ == old(self)@ + data@,
    {
        append_bytes(&mut self.buffer, data);
    }

    /// Takes the next request off the front of the buffer, if a whole one is there.
    pub fn next_frame(&mut self) -> (f: Frame)
        ensures
            (f@, final(self)@) == spec_next_frame(old(self)@),
    {
        let len = self.buffer.len();
        if len > 0 {
            let t = self.buffer[0];
            if !(t == 43u8 || t == 45u8 || t == 58u8 || t == 36u8 || t == 42u8) {
                return self.next_inline();
            }
        }
        match decode_resp_value(self.buffer.as_slice()) {
            DecodeResult::Complete(v, k) => {
                proof {
                    lemma_decode_consumed(self.buffer@);
                }
                let rest = vstd::slice::slice_to_vec(
                    vstd::slice::slice_subrange(self.buffer.as_slice(), k, len),
                );
                assert(rest@ =~= self.buffer@.skip(k as int));
                self.buffer = rest;
                Frame::Request(v)
            },
            DecodeResult::Incomplete => Frame::NeedMore,
            DecodeResult::Error(e) => {
                self.buffer.clear();
                let mut out: Vec<u8> = Vec::new();
                append_bytes(&mut out, "-Error decoding request: ".as_bytes());
                append_bytes(&mut out, e.as_str().as_bytes());
                out.push(13u8);
                out.push(10u8);
                assert(out@ =~= decode_failure_reply(e@));
                Frame::Fail(out)
            },
        }
    }
}

impl Session {
    /// Takes an inline command (a line of words) off the front of the buffer.
    fn next_inline(&mut self) -> (f: Frame)
        requires
            old(self)@.len() > 0,
            !is_type_byte(old(self)@[0]),
        ensures
            (f@, final(self)@) == spec_next_frame(old(self)@),
    {
        let ghost buf = self.buffer@;
        let len = self.buffer.len();
        let mut nl: usize = 0;
        while nl < len && self.buffer[nl] != 10u8
            invariant
                nl <= len == buf.len(),
                self.buffer@ == buf,
                find_lf(buf, 0) == find_lf(buf, nl as int),
            decreases len - nl,
        {
            nl = nl + 1;
        }
        if nl == len {
            return Frame::NeedMore;
        }
        assert(find_lf(buf, 0) == Some(nl as int));
        let end = if nl > 0 && self.buffer[nl - 1] == 13u8 {
            nl - 1
        } else {
            nl
        };
        let ghost line = inline_line(buf, nl as int);
        assert(line =~= buf.take(end as int));
        let mut items: Vec<RespValue> = Vec::new();
        let mut cur: Vec<u8> = Vec::new();
        let ghost mut acc: Seq<Seq<u8>> = Seq::empty();
        let mut i: usize = 0;
        assert(view_items(items@) =~= bulk_items(acc));
        while i < end
            invariant
                end <= nl < len == buf.len(),
                self.buffer@ == buf,
                line == buf.take(end as int),
                i <= end,
                split_words(line) == words_from(line, i as int, cur@, acc),
                view_items(items@) == bulk_items(acc),
            decreases end - i,
        {
            let b = self.buffer[i];
            assert(line[i as int] == b);
            assert(line.len() == end);
            if b == 32u8 {
                assert(words_from(line, i as int, cur@, acc) == words_from(
                    line,
                    i + 1,
                    Seq::empty(),
                    if cur@.len() > 0 { acc.push(cur@) } else { acc },
                ));
                if cur.len() > 0 {
                    proof {
                        lemma_view_items_push(items@, RespValue::BulkString(cur));
                        lemma_bulk_items_push(acc, cur@);
                        acc = acc.push(cur@);
                    }
                    let mut word: Vec<u8> = Vec::new();
                    std::mem::swap(&mut word, &mut cur);
                    items.push(RespValue::BulkString(word));
                }
                assert(cur@ =~= Seq::<u8>::empty());
            } else {
                assert(words_from(line, i as int, cur@, acc) == words_from(
                    line,
                    i + 1,
                    cur@.push(b),
                    acc,
                ));
                cur.push(b);
            }
            i = i + 1;
        }
        if cur.len() > 0 {
            proof {
                lemma_view_items_push(items@, RespValue::BulkString(cur));
                lemma_bulk_items_push(acc, cur@);
                acc = acc.push(cur@);
            }
            items.push(RespValue::BulkString(cur));
        }
        assert(split_words(line) == acc);
        let rest = vstd::slice::slice_to_vec(
            vstd::slice::slice_subrange(self.buffer.as_slice(), nl + 1, len),
        );
        assert(rest@ =~= buf.skip(nl + 1));
        self.buffer = rest;
        if items.len() == 0 {
            assert(acc.len() == 0) by {
                lemma_view_items(items@);
            }
            Frame::Blank
        } else {
            proof {
                lemma_view_items(items@);
            }
            Frame::Request(RespValue::Array(items))
        }
    }
}

/// Requests sent back to back come out one at a time: a buffer that starts
/// with a frameable request yields that request and keeps what follows.
pub proof fn lemma_pipelined_request(v: SpecResp, rest: Seq<u8>)
    requires
        frameable(v),
    ensures
        spec_next_frame(spec_encode(v) + rest) == (SpecFrame::Request(v), rest),
{
    lemma_decode_encode(v, rest);
    assert((spec_encode(v) + rest).skip(spec_encode(v).len() as int) =~= rest);
}

/// A client that sets `key` to `value` (with no expiration) and then, at the
/// same time or later, gets `key` is answered with
/// the text it set, as UTF-8 bytes; for a value that is valid UTF-8 these are
/// exactly the bytes it sent. (The command names are matched after uppercasing,
/// so the law speaks of names whose uppercasing is `SET` and `GET`.)
pub proof fn lemma_set_then_get(
    m: Map<Seq<char>, (Seq<char>, Option<u64>)>,
    now: u64,
    when: u64,
    set_name: Seq<u8>,
    get_name: Seq<u8>,
    key: Seq<u8>,
    value: Seq<u8>,
)
    requires
        valid_utf8(set_name),
        upper_text(decode_utf8(set_name)) == "SET"@,
        valid_utf8(get_name),
        upper_text(decode_utf8(get_name)) == "GET"@,
        now <= when,
    ensures
        ({
            let set_req = SpecResp::Array(
                seq![
                    SpecResp::BulkString(set_name),
                    SpecResp::BulkString(key),
                    SpecResp::BulkString(value),
                ],
            );
            let get_req = SpecResp::Array(
                seq![SpecResp::BulkString(get_name), SpecResp::BulkString(key)],
            );
            let set_msg = SpecMessage::SetValue {
                key: text_of_bytes(key),
                value: text_of_bytes(value),
                expire_seconds: None,
            };
            let reply = spec_get_reply(
                Some(lookup(store_after(m, set_msg, now), text_of_bytes(key), when)),
            );
            &&& spec_command_name_readable(set_req)
            &&& spec_command_name_readable(get_req)
            &&& spec_respond(set_req) == SpecCommand::Store(set_msg)
            &&& spec_respond(get_req) == SpecCommand::Store(
                SpecMessage::Get { key: text_of_bytes(key) },
            )
            &&& reply == SpecResp::BulkString(encode_utf8(text_of_bytes(value)))
            &&& valid_utf8(value) ==> reply == SpecResp::BulkString(value)
        }),
{
    reveal_strlit("SET");
    reveal_strlit("GET");
    reveal_strlit("PING");
    let set_items = seq![
        SpecResp::BulkString(set_name),
        SpecResp::BulkString(key),
        SpecResp::BulkString(value),
    ];
    let get_items = seq![SpecResp::BulkString(get_name), SpecResp::BulkString(key)];
    assert(set_items[0] == SpecResp::BulkString(set_name));
    assert(set_items[1] == SpecResp::BulkString(key));
    assert(set_items[2] == SpecResp::BulkString(value));
    assert(get_items[0] == SpecResp::BulkString(get_name));
    assert(get_items[1] == SpecResp::BulkString(key));
    assert("SET"@.len() == 3);
    assert("GET"@.len() == 3);
    assert("PING"@.len() == 4);
    assert("SET"@ != "PING"@);
    assert("GET"@ != "PING"@);
    assert("GET"@[0] == 'G');
    assert("SET"@[0] == 'S');
    assert("GET"@ != "SET"@);
    let set_msg = SpecMessage::SetValue {
        key: text_of_bytes(key),
        value: text_of_bytes(value),
        expire_seconds: None,
    };
    assert(spec_set_command(set_items) == Ok::<SpecMessage, SpecResp>(set_msg));
    assert(spec_get_command(get_items) == Ok::<SpecMessage, SpecResp>(
        SpecMessage::Get { key: text_of_bytes(key) },
    ));
    if valid_utf8(value) {
        decode_utf8_encode_utf8(value);
    }
}

/// `SET key value EX seconds` asks the store to bind the key's text to the
/// value's text for the given number of seconds.
pub proof fn lemma_set_ex_request(
    set_name: Seq<u8>,
    key: Seq<u8>,
    value: Seq<u8>,
    ex: Seq<u8>,
    seconds: Seq<u8>,
    s: u64,
)
    requires
        valid_utf8(set_name),
        upper_text(decode_utf8(set_name)) == "SET"@,
        is_ex_option(ex),
        spec_expire_seconds(SpecResp::BulkString(seconds)) == Some(s),
    ensures
        ({
            let req = SpecResp::Array(
                seq![
                    SpecResp::BulkString(set_name),
                    SpecResp::BulkString(key),
                    SpecResp::BulkString(value),
                    SpecResp::BulkString(ex),
                    SpecResp::BulkString(seconds),
                ],
            );
            &&& spec_command_name_readable(req)
            &&& spec_respond(req) == SpecCommand::Store(
                SpecMessage::SetValue {
                    key: text_of_bytes(key),
                    value: text_of_bytes(value),
                    expire_seconds: Some(s),
                },
            )
        }),
{
    reveal_strlit("SET");
    reveal_strlit("PING");
    assert("SET"@.len() == 3);
    assert("PING"@.len() == 4);
    assert("SET"@ != "PING"@);
    let items = seq![
        SpecResp::BulkString(set_name),
        SpecResp::BulkString(key),
        SpecResp::BulkString(value),
        SpecResp::BulkString(ex),
        SpecResp::BulkString(seconds),
    ];
    assert(items[0] == SpecResp::BulkString(set_name));
    assert(items[1] == SpecResp::BulkString(key));
    assert(items[2] == SpecResp::BulkString(value));
    assert(items[3] == SpecResp::BulkString(ex));
    assert(items[4] == SpecResp::BulkString(seconds));
    assert(spec_set_command(items) == Ok::<SpecMessage, SpecResp>(
        SpecMessage::SetValue {
            key: text_of_bytes(key),
            value: text_of_bytes(value),
            expire_seconds: Some(s),
        },
    ));
}

/// A GET across a run of store requests: when request `i` (made at instant
/// `t`) set the text of `key` to the text of `value`, with `expire_seconds` if
/// given, and no request after it up to request `j` set that key text again,
/// then a GET made as request `j` at `when`, naming any key bytes `key2` whose
/// text is the same, asks the store for that key and is answered the value's
/// text as UTF-8 bytes while the binding lives (for good without an
/// expiration; before `t` plus the seconds with one) and null after; for a
/// value that is valid UTF-8 the answer is exactly its bytes.
pub proof fn lemma_get_over_requests(
    m: Map<Seq<char>, (Seq<char>, Option<u64>)>,
    reqs: Seq<(SpecMessage, u64)>,
    i: int,
    j: int,
    get_name: Seq<u8>,
    key: Seq<u8>,
    key2: Seq<u8>,
    value: Seq<u8>,
    expire_seconds: Option<u64>,
    when: u64,
)
    requires
        0 <= i < j <= reqs.len(),
        reqs[i].0 == (SpecMessage::SetValue {
            key: text_of_bytes(key),
            value: text_of_bytes(value),
            expire_seconds,
        }),
        forall|l: int|
            i < l < j ==> !(#[trigger] reqs[l].0 matches SpecMessage::SetValue { key: k, .. } && k
                == text_of_bytes(key)),
        text_of_bytes(key2) == text_of_bytes(key),
        valid_utf8(get_name),
        upper_text(decode_utf8(get_name)) == "GET"@,
    ensures
        ({
            let get_req = SpecResp::Array(
                seq![SpecResp::BulkString(get_name), SpecResp::BulkString(key2)],
            );
            let live = is_live(expiry_for(reqs[i].1, expire_seconds), when);
            let reply = spec_get_reply(
                Some(lookup(store_after_all(m, reqs.take(j)), text_of_bytes(key2), when)),
            );
            &&& spec_command_name_readable(get_req)
            &&& spec_respond(get_req) == SpecCommand::Store(
                SpecMessage::Get { key: text_of_bytes(key2) },
            )
            &&& reply == if live {
                SpecResp::BulkString(encode_utf8(text_of_bytes(value)))
            } else {
                SpecResp::Null
            }
            &&& expire_seconds is None ==> reply == SpecResp::BulkString(
                encode_utf8(text_of_bytes(value)),
            )
            &&& expire_seconds matches Some(s) ==> (when < reqs[i].1 + s * 1000 && when
                < u64::MAX ==> reply == SpecResp::BulkString(encode_utf8(text_of_bytes(value))))
            &&& expire_seconds matches Some(s) ==> (reqs[i].1 + s * 1000 <= when ==> reply
                == SpecResp::Null)
            &&& valid_utf8(value) && live ==> reply == SpecResp::BulkString(value)
        }),
{
    reveal_strlit("GET");
    reveal_strlit("SET");
    reveal_strlit("PING");
    assert("GET"@.len() == 3);
    assert("SET"@.len() == 3);
    assert("PING"@.len() == 4);
    assert("GET"@ != "PING"@);
    assert("GET"@[0] == 'G');
    assert("SET"@[0] == 'S');
    assert("GET"@ != "SET"@);
    let items = seq![SpecResp::BulkString(get_name), SpecResp::BulkString(key2)];
    assert(items[0] == SpecResp::BulkString(get_name));
    assert(items[1] == SpecResp::BulkString(key2));
    assert(spec_get_command(items) == Ok::<SpecMessage, SpecResp>(
        SpecMessage::Get { key: text_of_bytes(key2) },
    ));
    lemma_get_sees_last_set(
        m,
        reqs,
        i,
        j,
        text_of_bytes(key),
        text_of_bytes(value),
        expire_seconds,
        when,
    );
    if valid_utf8(value) {
        decode_utf8_encode_utf8(value);
    }
}

/// `PING` is answered `PONG`, whatever arguments follow it.
pub proof fn lemma_ping(name: Seq<u8>, args: Seq<SpecResp>)
    requires
        valid_utf8(name),
        upper_text(decode_utf8(name)) == "PING"@,
    ensures
        spec_respond(SpecResp::Array(seq![SpecResp::BulkString(name)] + args))
            == SpecCommand::Reply(SpecResp::SimpleString("PONG"@)),
{
    assert((seq![SpecResp::BulkString(name)] + args)[0] == SpecResp::BulkString(name));
}

/// The words joined by single spaces.
pub open spec fn join_words(words: Seq<Seq<u8>>) -> Seq<u8>
    decreases words.len(),
{
    if words.len() == 0 {
        Seq::empty()
    } else if words.len() == 1 {
        words[0]
    } else {
        words[0] + seq![32u8] + join_words(words.drop_first())
    }
}

/// A word an inline command can carry: not empty, and no space, `\r` or `\n` in it.
pub open spec fn plain_word(w: Seq<u8>) -> bool {
    w.len() > 0 && forall|i: int| 0 <= i < w.len() ==> w[i] != 32 && w[i] != 13 && w[i] != 10
}

proof fn lemma_join_bytes(words: Seq<Seq<u8>>)
    requires
        forall|i: int| 0 <= i < words.len() ==> plain_word(#[trigger] words[i]),
    ensures
        forall|k: int| 0 <= k < join_words(words).len() ==> join_words(words)[k] != 13
            && join_words(words)[k] != 10,
        words.len() > 0 ==> join_words(words).len() > 0 && join_words(words)[0] == words[0][0],
    decreases words.len(),
{
    if words.len() > 1 {
        let rest = words.drop_first();
        assert forall|i: int| 0 <= i < rest.len() implies plain_word(#[trigger] rest[i]) by {
            assert(rest[i] == words[i + 1]);
        }
        lemma_join_bytes(rest);
        let j = join_words(words);
        let w0 = words[0];
        assert forall|k: int| 0 <= k < j.len() implies j[k] != 13 && j[k] != 10 by {
            if k < w0.len() {
                assert(j[k] == w0[k]);
            } else if k > w0.len() {
                assert(j[k] == join_words(rest)[k - w0.len() - 1]);
            }
        }
    } else if words.len() == 1 {
        assert(plain_word(words[0]));
    }
}

proof fn lemma_words_consume(line: Seq<u8>, i: int, w: Seq<u8>, cur: Seq<u8>, acc: Seq<Seq<u8>>)
    requires
        0 <= i,
        i + w.len() <= line.len(),
        line.subrange(i, i + w.len()) == w,
        forall|k: int| 0 <= k < w.len() ==> w[k] != 32,
    ensures
        words_from(line, i, cur, acc) == words_from(line, i + w.len(), cur + w, acc),
    decreases w.len(),
{
    if w.len() == 0 {
        assert(cur + w =~= cur);
    } else {
        assert(line[i] == w[0]);
        let w1 = w.drop_first();
        assert(line.subrange(i + 1, i + 1 + w1.len()) =~= w1);
        lemma_words_consume(line, i + 1, w1, cur.push(w[0]), acc);
        assert(cur.push(w[0]) + w1 =~= cur + w);
    }
}

proof fn lemma_words_join(line: Seq<u8>, i: int, words: Seq<Seq<u8>>, acc: Seq<Seq<u8>>)
    requires
        0 <= i <= line.len(),
        line.skip(i) == join_words(words),
        forall|k: int| 0 <= k < words.len() ==> plain_word(#[trigger] words[k]),
    ensures
        words_from(line, i, Seq::empty(), acc) == acc + words,
    decreases words.len(),
{
    if words.len() == 0 {
        assert(line.skip(i).len() == 0);
        assert(acc + words =~= acc);
    } else {
        let w0 = words[0];
        assert(plain_word(w0));
        let n = w0.len() as int;
        let js = line.skip(i);
        let rest = words.drop_first();
        if words.len() == 1 {
            assert(js == w0);
        } else {
            assert(js == w0 + seq![32u8] + join_words(rest));
        }
        assert(js.subrange(0, n) =~= w0);
        assert forall|k: int| 0 <= k < n implies line[i + k] == w0[k] by {
            assert(line[i + k] == js[k]);
        }
        assert(line.subrange(i, i + n) =~= w0);
        lemma_words_consume(line, i, w0, Seq::empty(), acc);
        assert(Seq::<u8>::empty() + w0 =~= w0);
        if words.len() == 1 {
            assert(i + n == line.len());
            assert(acc + words =~= acc.push(w0));
        } else {
            assert(line[i + n] == js[n]);
            assert(line[i + n] == 32);
            assert(line.skip(i + n + 1) =~= js.skip(n + 1));
            assert(js.skip(n + 1) =~= join_words(rest));
            assert forall|k: int| 0 <= k < rest.len() implies plain_word(#[trigger] rest[k]) by {
                assert(rest[k] == words[k + 1]);
            }
            lemma_words_join(line, i + n + 1, rest, acc.push(w0));
            assert(acc.push(w0) + rest =~= acc + words);
        }
    }
}

proof fn lemma_find_lf_at(s: Seq<u8>, i: int, j: int)
    requires
        0 <= i <= j < s.len(),
        s[j] == 10,
        forall|k: int| i <= k < j ==> s[k] != 10,
    ensures
        find_lf(s, i) == Some(j),
    decreases j - i,
{
    if i < j {
        lemma_find_lf_at(s, i + 1, j);
    }
}

/// An inline command line (words joined by spaces, then `\r\n`) makes the
/// same request as the RESP2 array of those words as bulk strings, and each
/// leaves the bytes that follow in the buffer.
pub proof fn lemma_inline_same_as_array(words: Seq<Seq<u8>>, rest: Seq<u8>)
    requires
        words.len() > 0,
        forall|k: int| 0 <= k < words.len() ==> plain_word(#[trigger] words[k]),
        !is_type_byte(words[0][0]),
        frameable(SpecResp::Array(bulk_items(words))),
    ensures
        spec_next_frame(join_words(words) + seq![13u8, 10u8] + rest) == (
            SpecFrame::Request(SpecResp::Array(bulk_items(words))),
            rest,
        ),
        spec_next_frame(spec_encode(SpecResp::Array(bulk_items(words))) + rest) == (
            SpecFrame::Request(SpecResp::Array(bulk_items(words))),
            rest,
        ),
{
    let j = join_words(words);
    let buf = j + seq![13u8, 10u8] + rest;
    lemma_join_bytes(words);
    let nl: int = j.len() as int + 1;
    assert(buf[0] == words[0][0]);
    assert forall|k: int| 0 <= k < nl implies buf[k] != 10 by {
        if k < j.len() {
            assert(buf[k] == j[k]);
        }
    }
    lemma_find_lf_at(buf, 0, nl);
    assert(inline_line(buf, nl) =~= j);
    assert(j.skip(0) =~= j);
    lemma_words_join(j, 0, words, Seq::empty());
    assert(Seq::<Seq<u8>>::empty() + words =~= words);
    assert(buf.skip(nl + 1) =~= rest);
    lemma_pipelined_request(SpecResp::Array(bulk_items(words)), rest);
}

/// The inline line `PING\r\n`, whatever follows it, is a request that is
/// answered `PONG`.
pub proof fn lemma_inline_ping(rest: Seq<u8>)
    ensures
        ({
            let name = seq![80u8, 73u8, 78u8, 71u8];
            let req = SpecResp::Array(seq![SpecResp::BulkString(name)]);
            &&& spec_next_frame(name + seq![13u8, 10u8] + rest) == (SpecFrame::Request(req), rest)
            &&& spec_command_name_readable(req)
            &&& spec_respond(req) == SpecCommand::Reply(SpecResp::SimpleString("PONG"@))
        }),
{
    let name = seq![80u8, 73u8, 78u8, 71u8];
    let words = seq![name];
    assert(plain_word(name));
    assert(join_words(words) == name);
    let buf = name + seq![13u8, 10u8] + rest;
    assert forall|k: int| 0 <= k < 5 implies buf[k] != 10 by {}
    lemma_find_lf_at(buf, 0, 5);
    assert(inline_line(buf, 5) =~= name);
    assert(name.skip(0) =~= name);
    lemma_words_join(name, 0, words, Seq::empty());
    assert(Seq::<Seq<u8>>::empty() + words =~= words);
    assert(bulk_items(words) =~= seq![SpecResp::BulkString(name)]);
    assert(buf.skip(6) =~= rest);
    lemma_ascii_bytes(name);
    reveal_strlit("PING");
    let chars = decode_utf8(name);
    assert(chars =~= seq!['P', 'I', 'N', 'G']);
    assert(ascii_upper(chars) =~= "PING"@);
}

/// A step that takes something off the buffer leaves it shorter.
pub proof fn lemma_next_frame_shrinks(buf: Seq<u8>)
    ensures
        !(spec_next_frame(buf).0 is NeedMore) ==> spec_next_frame(buf).1.len() < buf.len(),
{
    if buf.len() > 0 && !is_type_byte(buf[0]) {
        lemma_find_lf(buf, 0);
    } else {
        lemma_decode_consumed(buf);
    }
}

/// The frames that the buffer `buf` yields one after another, until it asks
/// for more bytes, and the buffer then left: what a connection does with the
/// bytes it holds after each read.
pub open spec fn spec_drain(buf: Seq<u8>) -> (Seq<SpecFrame>, Seq<u8>)
    decreases buf.len(),
{
    let (f, rest) = spec_next_frame(buf);
    if f is NeedMore {
        (Seq::empty(), buf)
    } else {
        proof {
            lemma_next_frame_shrinks(buf);
        }
        let (fs, left) = spec_drain(rest);
        (seq![f] + fs, left)
    }
}

/// All the chunks, one after another.
pub open spec fn concat_chunks(chunks: Seq<Seq<u8>>) -> Seq<u8>
    decreases chunks.len(),
{
    if chunks.len() == 0 {
        Seq::empty()
    } else {
        chunks[0] + concat_chunks(chunks.drop_first())
    }
}

/// What a connection holding `buf` yields when the chunks arrive by separate
/// reads, draining the buffer after each, and the buffer left at the end.
pub open spec fn spec_feed(buf: Seq<u8>, chunks: Seq<Seq<u8>>) -> (Seq<SpecFrame>, Seq<u8>)
    decreases chunks.len(),
{
    if chunks.len() == 0 {
        (Seq::empty(), buf)
    } else {
        let (f1, b1) = spec_drain(buf + chunks[0]);
        let (f2, b2) = spec_feed(b1, chunks.drop_first());
        (f1 + f2, b2)
    }
}

/// Some frame is a decoding failure.
pub open spec fn has_fail(frames: Seq<SpecFrame>) -> bool {
    exists|i: int| 0 <= i < frames.len() && #[trigger] frames[i] is Fail
}

/// The requests, each as a frame.
pub open spec fn request_frames(reqs: Seq<SpecResp>) -> Seq<SpecFrame> {
    reqs.map_values(|r: SpecResp| SpecFrame::Request(r))
}

/// A step that was decided stays the same when more bytes arrive; a request
/// or a blank line leaves the new bytes after what it left, a failure still
/// empties the buffer.
pub proof fn lemma_next_frame_extend(x: Seq<u8>, y: Seq<u8>)
    requires
        !(spec_next_frame(x).0 is NeedMore),
    ensures
        spec_next_frame(x + y).0 == spec_next_frame(x).0,
        spec_next_frame(x).0 is Fail ==> spec_next_frame(x + y).1 == Seq::<u8>::empty(),
        !(spec_next_frame(x).0 is Fail) ==> spec_next_frame(x + y).1 == spec_next_frame(x).1 + y,
{
    let z = x + y;
    if x.len() > 0 && !is_type_byte(x[0]) {
        assert(z[0] == x[0]);
        lemma_find_lf(x, 0);
        let nl = find_lf(x, 0)->Some_0;
        lemma_find_lf_at(z, 0, nl);
        assert(inline_line(z, nl) =~= inline_line(x, nl));
        assert(z.skip(nl + 1) =~= x.skip(nl + 1) + y);
    } else {
        if x.len() > 0 {
            assert(z[0] == x[0]);
        }
        lemma_decode_extend(x, y);
        lemma_decode_consumed(x);
        if let SpecDecode::Complete(v, k) = spec_decode(x) {
            assert(z.skip(k as int) =~= x.skip(k as int) + y);
        }
    }
}

/// Draining ends with a buffer that waits for more bytes.
pub proof fn lemma_drain_waits(buf: Seq<u8>)
    ensures
        spec_next_frame(spec_drain(buf).1).0 is NeedMore,
    decreases buf.len(),
{
    let (f, rest) = spec_next_frame(buf);
    if !(f is NeedMore) {
        lemma_next_frame_shrinks(buf);
        lemma_drain_waits(rest);
    }
}

proof fn lemma_drain_empty()
    ensures
        spec_drain(Seq::empty()) == (Seq::<SpecFrame>::empty(), Seq::<u8>::empty()),
{
    assert(spec_next_frame(Seq::empty()).0 is NeedMore);
}

/// Draining `x + y` yields what draining `x` yields and then what draining
/// its leftover with `y` yields; unless draining `x` met a failure, which
/// empties the buffer, `y` with it.
pub proof fn lemma_drain_append(x: Seq<u8>, y: Seq<u8>)
    ensures
        ({
            let (f1, b1) = spec_drain(x);
            spec_drain(x + y) == if has_fail(f1) {
                (f1, Seq::<u8>::empty())
            } else {
                let (f2, b2) = spec_drain(b1 + y);
                (f1 + f2, b2)
            }
        }),
    decreases x.len(),
{
    let (f, rest) = spec_next_frame(x);
    if f is NeedMore {
        assert(Seq::<SpecFrame>::empty() + spec_drain(x + y).0 =~= spec_drain(x + y).0);
        assert(!has_fail(Seq::<SpecFrame>::empty()));
    } else {
        lemma_next_frame_shrinks(x);
        lemma_next_frame_extend(x, y);
        let (fr, br) = spec_drain(rest);
        let f1 = seq![f] + fr;
        if f is Fail {
            lemma_drain_empty();
            assert(rest == Seq::<u8>::empty());
            assert(f1 =~= seq![f]);
            assert(has_fail(f1)) by {
                assert(f1[0] is Fail);
            }
        } else {
            lemma_drain_append(rest, y);
            assert(has_fail(f1) == has_fail(fr)) by {
                if has_fail(fr) {
                    let i = choose|i: int| 0 <= i < fr.len() && #[trigger] fr[i] is Fail;
                    assert(f1[i + 1] == fr[i]);
                }
                if has_fail(f1) {
                    let i = choose|i: int| 0 <= i < f1.len() && #[trigger] f1[i] is Fail;
                    assert(i > 0);
                    assert(f1[i] == fr[i - 1]);
                }
            }
            if !has_fail(fr) {
                let (f2, b2) = spec_drain(br + y);
                assert(seq![f] + (fr + f2) =~= f1 + f2);
            }
        }
    }
}

/// How the bytes are split into reads does not matter: a connection that
/// waits for bytes, fed the chunks one read at a time, yields the same frames
/// and keeps the same buffer as when all of them arrive in one read, provided
/// that no decoding failure occurs (a failure drops the rest of its read).
pub proof fn lemma_feed_any_split(buf: Seq<u8>, chunks: Seq<Seq<u8>>)
    requires
        spec_next_frame(buf).0 is NeedMore,
        !has_fail(spec_drain(buf + concat_chunks(chunks)).0),
    ensures
        spec_feed(buf, chunks) == spec_drain(buf + concat_chunks(chunks)),
    decreases chunks.len(),
{
    if chunks.len() == 0 {
        assert(buf + concat_chunks(chunks) =~= buf);
    } else {
        let c = chunks[0];
        let cs = chunks.drop_first();
        let (f1, b1) = spec_drain(buf + c);
        lemma_drain_append(buf + c, concat_chunks(cs));
        assert(buf + c + concat_chunks(cs) =~= buf + concat_chunks(chunks));
        if has_fail(f1) {
            let i = choose|i: int| 0 <= i < f1.len() && #[trigger] f1[i] is Fail;
            assert(spec_drain(buf + concat_chunks(chunks)).0[i] is Fail);
        }
        let (f2, b2) = spec_drain(b1 + concat_chunks(cs));
        assert(!has_fail(f2)) by {
            if has_fail(f2) {
                let i = choose|i: int| 0 <= i < f2.len() && #[trigger] f2[i] is Fail;
                assert((f1 + f2)[f1.len() + i] == f2[i]);
            }
        }
        lemma_drain_waits(buf + c);
        lemma_feed_any_split(b1, cs);
    }
}

/// A buffer holding frameable requests back to back yields exactly those
/// requests, in order, one frame each, and is left empty.
pub proof fn lemma_drain_requests(reqs: Seq<SpecResp>)
    requires
        frameable_items(reqs),
    ensures
        spec_drain(spec_encode_items(reqs)) == (request_frames(reqs), Seq::<u8>::empty()),
    decreases reqs.len(),
{
    if reqs.len() == 0 {
        lemma_drain_empty();
        assert(request_frames(reqs) =~= Seq::<SpecFrame>::empty());
    } else {
        let r0 = reqs[0];
        let others = reqs.drop_first();
        assert(spec_encode_items(reqs) == spec_encode(r0) + spec_encode_items(others));
        lemma_pipelined_request(r0, spec_encode_items(others));
        lemma_drain_requests(others);
        assert(request_frames(reqs) =~= seq![SpecFrame::Request(r0)] + request_frames(others));
    }
}

/// Frameable requests sent back to back, split into reads in any way, yield
/// one request frame each, in the order sent, and leave the buffer empty.
pub proof fn lemma_requests_any_split(reqs: Seq<SpecResp>, chunks: Seq<Seq<u8>>)
    requires
        frameable_items(reqs),
        concat_chunks(chunks) == spec_encode_items(reqs),
    ensures
        spec_feed(Seq::empty(), chunks) == (request_frames(reqs), Seq::<u8>::empty()),
{
    lemma_drain_requests(reqs);
    assert(Seq::<u8>::empty() + concat_chunks(chunks) =~= spec_encode_items(reqs));
    assert(!has_fail(request_frames(reqs))) by {
        if has_fail(request_frames(reqs)) {
            let i = choose|i: int| 0 <= i < request_frames(reqs).len()
                && #[trigger] request_frames(reqs)[i] is Fail;
        }
    }
    assert(spec_next_frame(Seq::empty()).0 is NeedMore);
    lemma_feed_any_split(Seq::empty(), chunks);
}

/// The uppercased command name of a request: defined when the request is a
/// non-empty array whose first item is a bulk string.
pub open spec fn upper_command_name(req: SpecResp) -> Option<Seq<char>> {
    match req {
        SpecResp::Array(items) => if items.len() > 0 {
            match items[0] {
                SpecResp::BulkString(name) => Some(upper_text(decode_utf8(name))),
                _ => None,
            }
        } else {
            None
        },
        _ => None,
    }
}

/// Dispatch goes by the whole uppercased command name: only a request named
/// exactly `SET` can ask the store to bind a key, only one named exactly
/// `GET` can ask it for a key, and a request whose name is none of `PING`,
/// `SET` and `GET` is answered with the error `unknown command` and never
/// reaches the store.
pub proof fn lemma_respond_dispatch(req: SpecResp)
    ensures
        spec_respond(req) matches SpecCommand::Store(SpecMessage::SetValue { .. })
            ==> upper_command_name(req) == Some("SET"@),
        spec_respond(req) matches SpecCommand::Store(SpecMessage::Get { .. })
            ==> upper_command_name(req) == Some("GET"@),
        spec_respond(req) is Store ==> (upper_command_name(req) == Some("SET"@)
            || upper_command_name(req) == Some("GET"@)),
        upper_command_name(req) matches Some(u) && u != "PING"@ && u != "SET"@ && u != "GET"@
            ==> spec_respond(req) == SpecCommand::Reply(SpecResp::Error("unknown command"@)),
        upper_command_name(req) == Some("PING"@) ==> spec_respond(req) == SpecCommand::Reply(
            SpecResp::SimpleString("PONG"@),
        ),
{
    reveal_strlit("SET");
    reveal_strlit("GET");
    reveal_strlit("PING");
    assert("SET"@.len() == 3);
    assert("GET"@.len() == 3);
    assert("PING"@.len() == 4);
    assert("SET"@ != "PING"@);
    assert("GET"@ != "PING"@);
    assert("GET"@[0] == 'G');
    assert("SET"@[0] == 'S');
    assert("GET"@ != "SET"@);
}

/// An inline line is taken off the buffer as soon as its `\n` has arrived:
/// whatever the line holds, even nothing, the step is a request or a blank
/// line, never a wait, and the buffer keeps exactly what follows the `\n`.
/// An empty line is taken off as blank.
pub proof fn lemma_inline_line_taken(buf: Seq<u8>, j: int)
    requires
        0 <= j < buf.len(),
        !is_type_byte(buf[0]),
        buf[j] == 10,
        forall|k: int| 0 <= k < j ==> buf[k] != 10,
    ensures
        spec_next_frame(buf).0 is Blank || spec_next_frame(buf).0 is Request,
        spec_next_frame(buf).1 == buf.skip(j + 1),
        j == 0 ==> spec_next_frame(buf).0 is Blank,
{
    lemma_find_lf_at(buf, 0, j);
    if j == 0 {
        assert(inline_line(buf, 0) =~= Seq::<u8>::empty());
        assert(split_words(Seq::<u8>::empty()) =~= Seq::<Seq<u8>>::empty());
    }
}

/// A connection whose buffer holds an inline command waits for more bytes
/// exactly when no `\n` has arrived yet.
pub proof fn lemma_inline_waits_for_lf(buf: Seq<u8>)
    requires
        buf.len() > 0,
        !is_type_byte(buf[0]),
    ensures
        spec_next_frame(buf).0 is NeedMore <==> forall|k: int| 0 <= k < buf.len() ==> buf[k] != 10,
{
    lemma_find_lf(buf, 0);
}

} // verus!
