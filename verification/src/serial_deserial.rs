//! The RESP2 codec: values to bytes and bytes to values.
use crate::decimal::{
    int_decimal, nat_digits, parse_i64, parse_usize, spec_parse_i64, spec_parse_usize, write_int,
    write_nat,
};
use crate::export_type::{lemma_view_items, view_items, RespValue, SpecResp};
use crate::text::string_from_utf8;
use vstd::prelude::*;
use vstd::utf8::*;

verus! {

/// The line terminator `\r\n`.
pub open spec fn crlf() -> Seq<u8> {
    seq![13u8, 10u8]
}

/// The RESP2 encoding of one value.
pub open spec fn spec_encode(v: SpecResp) -> Seq<u8>
    decreases v,
{
    match v {
        SpecResp::SimpleString(s) => seq![43u8] + encode_utf8(s) + crlf(),
        SpecResp::Integer(i) => seq![58u8] + int_decimal(i) + crlf(),
        SpecResp::BulkString(b) => seq![36u8] + nat_digits(b.len()) + crlf() + b + crlf(),
        SpecResp::Array(items) => seq![42u8] + nat_digits(items.len()) + crlf()
            + spec_encode_items(items),
        SpecResp::Null => seq![36u8, 45u8, 49u8, 13u8, 10u8],
        SpecResp::Error(s) => seq![45u8] + encode_utf8(s) + crlf(),
    }
}

/// The encodings of a sequence of values, one after another.
pub open spec fn spec_encode_items(items: Seq<SpecResp>) -> Seq<u8>
    decreases items,
{
    if items.len() == 0 {
        Seq::empty()
    } else {
        spec_encode(items[0]) + spec_encode_items(items.drop_first())
    }
}

/// Encoding one more item appends its encoding.
pub proof fn lemma_encode_items_push(items: Seq<SpecResp>, v: SpecResp)
    ensures
        spec_encode_items(items.push(v)) == spec_encode_items(items) + spec_encode(v),
    decreases items.len(),
{
    if items.len() == 0 {
        assert(items.push(v).drop_first() =~= Seq::<SpecResp>::empty());
        assert(spec_encode_items(items.push(v).drop_first()) =~= Seq::<u8>::empty());
        assert(spec_encode_items(items) =~= Seq::<u8>::empty());
        assert(spec_encode_items(items.push(v)) =~= spec_encode(v));
    } else {
        lemma_encode_items_push(items.drop_first(), v);
        assert(items.push(v).drop_first() =~= items.drop_first().push(v));
        assert(spec_encode_items(items.push(v)) =~= spec_encode_items(items) + spec_encode(v));
    }
}

/// Appends `bytes` to `out`.
pub(crate) fn append_bytes(out: &mut Vec<u8>, bytes: &[u8])
    ensures
        final(out)@ == old(out)@ + bytes@,
{
    let mut i: usize = 0;
    while i < bytes.len()
        invariant
            i <= bytes@.len(),
            out@ == old(out)@ + bytes@.take(i as int),
        decreases bytes@.len() - i,
    {
        out.push(bytes[i]);
        i = i + 1;
        assert(out@ =~= old(out)@ + bytes@.take(i as int));
    }
    assert(bytes@.take(i as int) =~= bytes@);
}

fn append_crlf(out: &mut Vec<u8>)
    ensures
        final(out)@ == old(out)@ + crlf(),
{
    out.push(13u8);
    out.push(10u8);
    assert(out@ =~= old(out)@ + crlf());
}

fn encode_into(value: &RespValue, out: &mut Vec<u8>)
    ensures
        final(out)@ == old(out)@ + spec_encode(value@),
    decreases value,
{
    match value {
        RespValue::SimpleString(s) => {
            out.push(43u8);
            append_bytes(out, s.as_str().as_bytes());
            append_crlf(out);
            assert(out@ =~= old(out)@ + spec_encode(value@));
        },
        RespValue::Integer(i) => {
            out.push(58u8);
            write_int(out, *i);
            append_crlf(out);
            assert(out@ =~= old(out)@ + spec_encode(value@));
        },
        RespValue::BulkString(bytes) => {
            out.push(36u8);
            write_nat(out, bytes.len() as u64);
            append_crlf(out);
            append_bytes(out, bytes.as_slice());
            append_crlf(out);
            assert(out@ =~= old(out)@ + spec_encode(value@));
        },
        RespValue::Array(elements) => {
            out.push(42u8);
            write_nat(out, elements.len() as u64);
            append_crlf(out);
            let ghost mid = out@;
            let ghost items = view_items(elements@);
            proof {
                lemma_view_items(elements@);
                assert(items.take(0) =~= Seq::<SpecResp>::empty());
            }
            let mut i: usize = 0;
            while i < elements.len()
                invariant
                    i <= elements@.len(),
                    value is Array,
                    value->Array_0 == *elements,
                    items == view_items(elements@),
                    items.len() == elements@.len(),
                    forall|j: int| 0 <= j < elements@.len() ==> #[trigger] items[j] == elements@[j]@,
                    out@ == mid + spec_encode_items(items.take(i as int)),
                decreases elements@.len() - i,
            {
                proof {
                    assert(*elements == value->Array_0);
                    assert(decreases_to!(*value => value->Array_0));
                    assert(decreases_to!(*elements => elements@));
                    assert(decreases_to!(elements@ => elements@[i as int]));
                }
                encode_into(&elements[i], out);
                proof {
                    lemma_encode_items_push(items.take(i as int), items[i as int]);
                    assert(items.take(i as int).push(items[i as int]) =~= items.take(i + 1));
                }
                i = i + 1;
            }
            assert(items.take(i as int) =~= items);
            assert(out@ =~= old(out)@ + spec_encode(value@));
        },
        RespValue::Null => {
            out.push(36u8);
            out.push(45u8);
            out.push(49u8);
            append_crlf(out);
            assert(out@ =~= old(out)@ + spec_encode(value@));
        },
        RespValue::Error(s) => {
            out.push(45u8);
            append_bytes(out, s.as_str().as_bytes());
            append_crlf(out);
            assert(out@ =~= old(out)@ + spec_encode(value@));
        },
    }
}

/// Encodes one value in RESP2.
pub fn encode_resp_value(value: &RespValue) -> (buffer: Vec<u8>)
    ensures
        buffer@ == spec_encode(value@),
{
    let mut buffer: Vec<u8> = Vec::new();
    encode_into(value, &mut buffer);
    assert(buffer@ =~= spec_encode(value@));
    buffer
}

/// The outcome of decoding the front of a byte buffer.
#[derive(Debug, PartialEq, Eq)]
pub enum DecodeResult {
    /// A whole value, and how many bytes of the buffer it took.
    Complete(RespValue, usize),
    /// The buffer ends before the value does.
    Incomplete,
    /// The buffer cannot start a valid value.
    Error(String),
}

/// The model of a [`DecodeResult`].
pub enum SpecDecode {
    Complete(SpecResp, nat),
    Incomplete,
    Error(Seq<char>),
}

impl View for DecodeResult {
    type V = SpecDecode;

    open spec fn view(&self) -> SpecDecode {
        match self {
            DecodeResult::Complete(v, n) => SpecDecode::Complete(v@, *n as nat),
            DecodeResult::Incomplete => SpecDecode::Incomplete,
            DecodeResult::Error(e) => SpecDecode::Error(e@),
        }
    }
}

/// The largest bulk string the decoder accepts: 512 MiB.
pub const MAX_BULK_STRING_SIZE: usize = 536870912;

pub open spec fn msg_invalid_utf8() -> Seq<char> {
    "Invalid UTF-8"@
}

pub open spec fn msg_invalid_integer() -> Seq<char> {
    "Invalid integer"@
}

pub open spec fn msg_bulk_too_large() -> Seq<char> {
    "Bulk string too large"@
}

pub open spec fn msg_invalid_resp() -> Seq<char> {
    "Invalid resp value"@
}

/// The bytes that start each of the five kinds of value: `+ - : $ *`.
pub open spec fn is_type_byte(b: u8) -> bool {
    b == 43 || b == 45 || b == 58 || b == 36 || b == 42
}

/// The first `\r` at or after position `i`.
pub open spec fn find_cr(s: Seq<u8>, i: int) -> Option<int>
    decreases s.len() - i,
{
    if i < 0 || i >= s.len() {
        None
    } else if s[i] == 13 {
        Some(i)
    } else {
        find_cr(s, i + 1)
    }
}

/// `find_cr` gives the first `\r` at or after `i`, and `None` when there is none.
pub proof fn lemma_find_cr(s: Seq<u8>, i: int)
    requires
        0 <= i,
    ensures
        find_cr(s, i) matches Some(j) ==> i <= j < s.len() && s[j] == 13 && forall|k: int|
            i <= k < j ==> s[k] != 13,
        find_cr(s, i) is None ==> forall|k: int| i <= k < s.len() ==> s[k] != 13,
    decreases s.len() - i,
{
    if i < s.len() && s[i] != 13 {
        lemma_find_cr(s, i + 1);
    }
}

/// What decoding the front of `s` gives.
///
/// A value starts with its type byte; its header line runs to the first `\r`,
/// and the header together with that `\r` and the one byte after it (meant
/// to be `\n`; its value is not checked) make up the line. The header must
/// be UTF-8 text. A simple string or an error is that text; an integer is the
/// text read as an `i64`; a bulk string's header is its length (at most
/// [`MAX_BULK_STRING_SIZE`]), then that many bytes and two more (meant to be
/// `\r\n`, likewise not checked) follow, and the header `-1` stands for the
/// null value; an array's header is its number of items, which follow one
/// after another. The result is `Incomplete` when `s` ends before all of that
/// has arrived.
pub open spec fn spec_decode(s: Seq<u8>) -> SpecDecode
    decreases s.len(), 0nat, 0nat,
{
    if s.len() == 0 {
        SpecDecode::Incomplete
    } else if !is_type_byte(s[0]) {
        SpecDecode::Error(msg_invalid_resp())
    } else {
        match find_cr(s, 1) {
            None => SpecDecode::Incomplete,
            Some(cr) => {
                proof {
                    lemma_find_cr(s, 1);
                }
                let content = s.subrange(1, cr);
                let next = cr + 2;
                if !valid_utf8(content) {
                    SpecDecode::Error(msg_invalid_utf8())
                } else if s[0] == 43 {
                    if next > s.len() {
                        SpecDecode::Incomplete
                    } else {
                        SpecDecode::Complete(SpecResp::SimpleString(decode_utf8(content)), next as nat)
                    }
                } else if s[0] == 45 {
                    if next > s.len() {
                        SpecDecode::Incomplete
                    } else {
                        SpecDecode::Complete(SpecResp::Error(decode_utf8(content)), next as nat)
                    }
                } else if s[0] == 58 {
                    match spec_parse_i64(content) {
                        None => SpecDecode::Error(msg_invalid_integer()),
                        Some(v) => if next > s.len() {
                            SpecDecode::Incomplete
                        } else {
                            SpecDecode::Complete(SpecResp::Integer(v as int), next as nat)
                        },
                    }
                } else if s[0] == 36 {
                    if content == seq![45u8, 49u8] {
                        if next > s.len() {
                            SpecDecode::Incomplete
                        } else {
                            SpecDecode::Complete(SpecResp::Null, next as nat)
                        }
                    } else {
                        match spec_parse_usize(content) {
                            None => SpecDecode::Error(msg_invalid_integer()),
                            Some(n) => if n > MAX_BULK_STRING_SIZE {
                                SpecDecode::Error(msg_bulk_too_large())
                            } else if next + n + 2 > s.len() {
                                SpecDecode::Incomplete
                            } else {
                                SpecDecode::Complete(
                                    SpecResp::BulkString(s.subrange(next, next + n)),
                                    (next + n + 2) as nat,
                                )
                            },
                        }
                    }
                } else {
                    match spec_parse_usize(content) {
                        None => SpecDecode::Error(msg_invalid_integer()),
                        Some(n) => if next > s.len() {
                            SpecDecode::Incomplete
                        } else {
                            spec_decode_items(s.skip(next), n as nat, Seq::empty(), next as nat)
                        },
                    }
                }
            },
        }
    }
}

/// Decodes `n` more array items from `rest`, after the items `acc` that took
/// `used` bytes so far; the first item that is not complete decides.
pub open spec fn spec_decode_items(rest: Seq<u8>, n: nat, acc: Seq<SpecResp>, used: nat) -> SpecDecode
    decreases rest.len(), 1nat, n,
{
    if n == 0 {
        SpecDecode::Complete(SpecResp::Array(acc), used)
    } else {
        match spec_decode(rest) {
            SpecDecode::Complete(v, k) => if 0 < k <= rest.len() {
                spec_decode_items(rest.skip(k as int), (n - 1) as nat, acc.push(v), used + k)
            } else {
                SpecDecode::Incomplete
            },
            SpecDecode::Incomplete => SpecDecode::Incomplete,
            SpecDecode::Error(e) => SpecDecode::Error(e),
        }
    }
}

/// A value that decoding reports complete takes at least one byte and no
/// more bytes than the buffer holds.
pub proof fn lemma_decode_consumed(s: Seq<u8>)
    ensures
        spec_decode(s) matches SpecDecode::Complete(_, k) ==> 0 < k <= s.len(),
{
    if s.len() > 0 && is_type_byte(s[0]) {
        lemma_find_cr(s, 1);
        if let Some(cr) = find_cr(s, 1) {
            let content = s.subrange(1, cr);
            if s[0] == 42 {
                if let Some(n) = spec_parse_usize(content) {
                    if cr + 2 <= s.len() {
                        lemma_decode_items_consumed(s.skip(cr + 2), n as nat, Seq::empty(), (cr + 2) as nat);
                    }
                }
            }
        }
    }
}

/// Array items take no bytes beyond the rest of the buffer.
pub proof fn lemma_decode_items_consumed(rest: Seq<u8>, n: nat, acc: Seq<SpecResp>, used: nat)
    ensures
        spec_decode_items(rest, n, acc, used) matches SpecDecode::Complete(_, u) ==> used <= u
            <= used + rest.len(),
    decreases rest.len(), n,
{
    if n > 0 {
        if let SpecDecode::Complete(v, k) = spec_decode(rest) {
            if 0 < k <= rest.len() {
                lemma_decode_items_consumed(rest.skip(k as int), (n - 1) as nat, acc.push(v), used + k);
            }
        }
    }
}

pub(crate) proof fn lemma_view_items_push(items: Seq<RespValue>, v: RespValue)
    ensures
        view_items(items.push(v)) == view_items(items).push(v@),
{
    lemma_view_items(items);
    lemma_view_items(items.push(v));
    assert(view_items(items.push(v)) =~= view_items(items).push(v@)) by {
        assert forall|i: int| 0 <= i < items.len() + 1 implies view_items(items.push(v))[i]
            == view_items(items).push(v@)[i] by {
            assert(items.push(v)[i] == if i < items.len() { items[i] } else { v });
        }
    }
}

fn decode_error(msg: &str) -> (r: DecodeResult)
    ensures
        r@ == SpecDecode::Error(msg@),
{
    DecodeResult::Error(msg.to_owned())
}

/// The position of the first `\r` after the type byte.
fn find_line_end(bytes: &[u8]) -> (r: Option<usize>)
    requires
        bytes@.len() >= 1,
    ensures
        r matches Some(j) ==> find_cr(bytes@, 1) == Some(j as int),
        r is None ==> find_cr(bytes@, 1) is None,
{
    let mut i: usize = 1;
    while i < bytes.len()
        invariant
            1 <= i <= bytes@.len(),
            find_cr(bytes@, 1) == find_cr(bytes@, i as int),
        decreases bytes@.len() - i,
    {
        if bytes[i] == 13u8 {
            return Some(i);
        }
        i = i + 1;
    }
    None
}

/// Decodes the value at the front of `bytes`.
pub fn decode_resp_value(bytes: &[u8]) -> (r: DecodeResult)
    ensures
        r@ == spec_decode(bytes@),
    decreases bytes@.len(),
{
    let len = bytes.len();
    if len == 0 {
        return DecodeResult::Incomplete;
    }
    let t = bytes[0];
    if !(t == 43u8 || t == 45u8 || t == 58u8 || t == 36u8 || t == 42u8) {
        return decode_error("Invalid resp value");
    }
    let cr = match find_line_end(bytes) {
        None => {
            return DecodeResult::Incomplete;
        },
        Some(cr) => cr,
    };
    proof {
        lemma_find_cr(bytes@, 1);
    }
    let ghost content = bytes@.subrange(1, cr as int);
    let text = match string_from_utf8(vstd::slice::slice_to_vec(vstd::slice::slice_subrange(bytes, 1, cr))) {
        Ok(text) => text,
        Err(_) => {
            return decode_error("Invalid UTF-8");
        },
    };
    proof {
        encode_utf8_decode_utf8(text@);
    }
    let line_done = len - cr >= 2;
    if t == 43u8 {
        if !line_done {
            return DecodeResult::Incomplete;
        }
        DecodeResult::Complete(RespValue::SimpleString(text), cr + 2)
    } else if t == 45u8 {
        if !line_done {
            return DecodeResult::Incomplete;
        }
        DecodeResult::Complete(RespValue::Error(text), cr + 2)
    } else if t == 58u8 {
        match parse_i64(bytes, 1, cr) {
            None => decode_error("Invalid integer"),
            Some(v) => {
                if !line_done {
                    return DecodeResult::Incomplete;
                }
                DecodeResult::Complete(RespValue::Integer(v), cr + 2)
            },
        }
    } else if t == 36u8 {
        if cr == 3 && bytes[1] == 45u8 && bytes[2] == 49u8 {
            assert(content =~= seq![45u8, 49u8]);
            if !line_done {
                return DecodeResult::Incomplete;
            }
            return DecodeResult::Complete(RespValue::Null, cr + 2);
        }
        assert(content != seq![45u8, 49u8]) by {
            if content == seq![45u8, 49u8] {
                assert(content.len() == 2);
                assert(content[0] == bytes@[1]);
                assert(content[1] == bytes@[2]);
            }
        }
        match parse_usize(bytes, 1, cr) {
            None => decode_error("Invalid integer"),
            Some(n) => {
                if n > MAX_BULK_STRING_SIZE {
                    return decode_error("Bulk string too large");
                }
                if !line_done {
                    return DecodeResult::Incomplete;
                }
                let start = cr + 2;
                let room = len - start;
                if n > room || room - n < 2 {
                    return DecodeResult::Incomplete;
                }
                let data = vstd::slice::slice_to_vec(vstd::slice::slice_subrange(bytes, start, start + n));
                DecodeResult::Complete(RespValue::BulkString(data), start + n + 2)
            },
        }
    } else {
        match parse_usize(bytes, 1, cr) {
            None => decode_error("Invalid integer"),
            Some(n) => {
                if !line_done {
                    return DecodeResult::Incomplete;
                }
                let mut elements: Vec<RespValue> = Vec::new();
                let mut offset: usize = cr + 2;
                let mut i: usize = 0;
                assert(view_items(elements@) =~= Seq::<SpecResp>::empty());
                while i < n
                    invariant
                        len == bytes@.len(),
                        1 <= offset <= len,
                        i <= n,
                        spec_decode(bytes@) == spec_decode_items(
                            bytes@.skip(offset as int),
                            (n - i) as nat,
                            view_items(elements@),
                            offset as nat,
                        ),
                    decreases n - i,
                {
                    let rest = vstd::slice::slice_subrange(bytes, offset, len);
                    assert(rest@ =~= bytes@.skip(offset as int));
                    match decode_resp_value(rest) {
                        DecodeResult::Complete(v, k) => {
                            proof {
                                lemma_decode_consumed(rest@);
                                lemma_view_items_push(elements@, v);
                                assert(rest@.skip(k as int) =~= bytes@.skip(offset + k));
                            }
                            elements.push(v);
                            offset = offset + k;
                            i = i + 1;
                        },
                        DecodeResult::Incomplete => {
                            return DecodeResult::Incomplete;
                        },
                        DecodeResult::Error(e) => {
                            return DecodeResult::Error(e);
                        },
                    }
                }
                DecodeResult::Complete(RespValue::Array(elements), offset)
            },
        }
    }
}

} // verus!
