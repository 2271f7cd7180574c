//! What the RESP2 codec promises across its two directions.
use crate::decimal::{
    all_digits, digits_value, int_decimal, is_digit, lemma_nat_digits_roundtrip, nat_digits,
    spec_parse_i64, spec_parse_usize, strip_plus,
};
use crate::export_type::SpecResp;
use crate::serial_deserial::{
    crlf, find_cr, is_type_byte, lemma_decode_consumed, lemma_decode_items_consumed, lemma_find_cr,
    spec_decode,
    spec_decode_items, spec_encode, spec_encode_items, SpecDecode, MAX_BULK_STRING_SIZE,
};
use vstd::prelude::*;
use vstd::utf8::*;

verus! {

/// The values that RESP2 carries faithfully: a simple string or an error
/// whose UTF-8 bytes hold no `\r` (the header line ends at the first one),
/// an integer that fits in an `i64`, a bulk string of at most
/// [`MAX_BULK_STRING_SIZE`] bytes, and arrays of such values.
pub open spec fn frameable(v: SpecResp) -> bool
    decreases v,
{
    match v {
        SpecResp::SimpleString(s) => !encode_utf8(s).contains(13u8),
        SpecResp::Integer(i) => i64::MIN <= i <= i64::MAX,
        SpecResp::BulkString(b) => b.len() <= MAX_BULK_STRING_SIZE,
        SpecResp::Array(items) => items.len() <= usize::MAX && frameable_items(items),
        SpecResp::Null => true,
        SpecResp::Error(s) => !encode_utf8(s).contains(13u8),
    }
}

/// Every item of the sequence is [`frameable`].
pub open spec fn frameable_items(items: Seq<SpecResp>) -> bool
    decreases items,
{
    items.len() > 0 ==> frameable(items[0]) && frameable_items(items.drop_first())
}

proof fn lemma_find_cr_at(s: Seq<u8>, i: int, j: int)
    requires
        0 <= i <= j < s.len(),
        s[j] == 13,
        forall|k: int| i <= k < j ==> s[k] != 13,
    ensures
        find_cr(s, i) == Some(j),
    decreases j - i,
{
    if i < j {
        lemma_find_cr_at(s, i + 1, j);
    }
}

/// A header line: the type byte, a body without `\r`, then `\r\n`.
proof fn lemma_line(t: u8, body: Seq<u8>, tail: Seq<u8>)
    requires
        !body.contains(13u8),
    ensures
        ({
            let s = seq![t] + body + crlf() + tail;
            &&& s.len() == body.len() + 3 + tail.len()
            &&& s[0] == t
            &&& find_cr(s, 1) == Some(1 + body.len() as int)
            &&& s.subrange(1, 1 + body.len() as int) == body
            &&& s.skip(3 + body.len() as int) == tail
        }),
{
    let s = seq![t] + body + crlf() + tail;
    let cr: int = 1 + body.len() as int;
    assert forall|k: int| 1 <= k < cr implies s[k] != 13 by {
        assert(s[k] == body[k - 1]);
        if s[k] == 13 {
            assert(body.contains(13u8));
        }
    }
    assert(s[cr] == 13);
    lemma_find_cr_at(s, 1, cr);
    assert(s.subrange(1, cr) =~= body);
    assert(s.skip(3 + body.len() as int) =~= tail);
}

proof fn lemma_ascii_valid_utf8(s: Seq<u8>)
    requires
        forall|i: int| 0 <= i < s.len() ==> s[i] < 128,
    ensures
        valid_utf8(s),
    decreases s.len(),
{
    if s.len() > 0 {
        let b = s[0];
        assert(b & 0x7Fu8 <= 0x7Fu8) by (bit_vector);
        assert(valid_first_scalar(s));
        assert(pop_first_scalar(s) =~= s.drop_first());
        lemma_ascii_valid_utf8(s.drop_first());
    }
}

proof fn lemma_digits_line_body(s: Seq<u8>)
    requires
        all_digits(s),
    ensures
        !s.contains(13u8),
        valid_utf8(s),
{
    if s.contains(13u8) {
        let k = choose|k: int| 0 <= k < s.len() && s[k] == 13u8;
        assert(is_digit(s[k]));
    }
    assert forall|i: int| 0 <= i < s.len() implies s[i] < 128 by {
        assert(is_digit(s[i]));
    }
    lemma_ascii_valid_utf8(s);
}

/// Reading back the spelling of a length gives the length.
proof fn lemma_parse_usize_digits(n: nat)
    requires
        n <= usize::MAX,
    ensures
        spec_parse_usize(nat_digits(n)) == Some(n as usize),
        nat_digits(n) != seq![45u8, 49u8],
{
    lemma_nat_digits_roundtrip(n);
    let d = nat_digits(n);
    assert(is_digit(d[0]));
    assert(strip_plus(d) == d);
}

/// Reading back the spelling of an integer gives the integer.
pub(crate) proof fn lemma_parse_i64_decimal(i: int)
    requires
        i64::MIN <= i <= i64::MAX,
    ensures
        spec_parse_i64(int_decimal(i)) == Some(i as i64),
        !int_decimal(i).contains(13u8),
        valid_utf8(int_decimal(i)),
{
    let s = int_decimal(i);
    if i < 0 {
        lemma_nat_digits_roundtrip((-i) as nat);
        let d = nat_digits((-i) as nat);
        assert(s.drop_first() =~= d);
        assert(s[0] == 45u8);
        assert forall|k: int| 0 <= k < s.len() implies s[k] < 128 by {
            if k > 0 {
                assert(s[k] == d[k - 1]);
                assert(is_digit(d[k - 1]));
            }
        }
        if s.contains(13u8) {
            let k = choose|k: int| 0 <= k < s.len() && s[k] == 13u8;
            assert(s[k] < 128);
            if k > 0 {
                assert(s[k] == d[k - 1]);
                assert(is_digit(d[k - 1]));
            }
        }
        lemma_ascii_valid_utf8(s);
    } else {
        lemma_nat_digits_roundtrip(i as nat);
        lemma_digits_line_body(s);
        assert(is_digit(s[0]));
        assert(strip_plus(s) == s);
    }
}

/// Decoding a buffer that starts with the encoding of a frameable value gives
/// that value and the length of its encoding, whatever bytes follow.
pub proof fn lemma_decode_encode(v: SpecResp, rest: Seq<u8>)
    requires
        frameable(v),
    ensures
        spec_decode(spec_encode(v) + rest) == SpecDecode::Complete(v, spec_encode(v).len()),
    decreases v,
{
    let s = spec_encode(v) + rest;
    match v {
        SpecResp::SimpleString(text) => {
            let body = encode_utf8(text);
            lemma_line(43u8, body, rest);
            assert(s =~= seq![43u8] + body + crlf() + rest);
            encode_utf8_valid_utf8(text);
            encode_utf8_decode_utf8(text);
        },
        SpecResp::Error(text) => {
            let body = encode_utf8(text);
            lemma_line(45u8, body, rest);
            assert(s =~= seq![45u8] + body + crlf() + rest);
            encode_utf8_valid_utf8(text);
            encode_utf8_decode_utf8(text);
        },
        SpecResp::Integer(i) => {
            let body = int_decimal(i);
            lemma_parse_i64_decimal(i);
            lemma_line(58u8, body, rest);
            assert(s =~= seq![58u8] + body + crlf() + rest);
        },
        SpecResp::Null => {
            let body = seq![45u8, 49u8];
            assert(!body.contains(13u8)) by {
                if body.contains(13u8) {
                    let k = choose|k: int| 0 <= k < body.len() && body[k] == 13u8;
                }
            }
            lemma_ascii_valid_utf8(body);
            lemma_line(36u8, body, rest);
            assert(s =~= seq![36u8] + body + crlf() + rest);
        },
        SpecResp::BulkString(b) => {
            let body = nat_digits(b.len());
            lemma_nat_digits_roundtrip(b.len());
            lemma_digits_line_body(body);
            lemma_parse_usize_digits(b.len());
            let tail = b + crlf() + rest;
            lemma_line(36u8, body, tail);
            assert(s =~= seq![36u8] + body + crlf() + tail);
            let next: int = 3 + body.len() as int;
            assert(s.subrange(next, next + b.len() as int) =~= b);
        },
        SpecResp::Array(items) => {
            let body = nat_digits(items.len());
            lemma_nat_digits_roundtrip(items.len());
            lemma_digits_line_body(body);
            lemma_parse_usize_digits(items.len());
            let tail = spec_encode_items(items) + rest;
            lemma_line(42u8, body, tail);
            assert(s =~= seq![42u8] + body + crlf() + tail);
            lemma_decode_encode_items(items, rest, Seq::empty(), (3 + body.len()) as nat);
            assert(Seq::<SpecResp>::empty() + items =~= items);
        },
    }
}

/// Decoding the encodings of frameable items, one after another, gives the
/// items in order and the bytes they took, whatever bytes follow.
pub proof fn lemma_decode_encode_items(
    items: Seq<SpecResp>,
    rest: Seq<u8>,
    acc: Seq<SpecResp>,
    used: nat,
)
    requires
        frameable_items(items),
    ensures
        spec_decode_items(spec_encode_items(items) + rest, items.len(), acc, used)
            == SpecDecode::Complete(SpecResp::Array(acc + items), used + spec_encode_items(items).len()),
    decreases items,
{
    let s = spec_encode_items(items) + rest;
    if items.len() == 0 {
        assert(acc + items =~= acc);
    } else {
        let first = items[0];
        let others = items.drop_first();
        let tail = spec_encode_items(others) + rest;
        assert(s =~= spec_encode(first) + tail);
        lemma_decode_encode(first, tail);
        let k = spec_encode(first).len();
        assert(k > 0) by {
            lemma_encode_nonempty(first);
        }
        assert(s.skip(k as int) =~= tail);
        lemma_decode_encode_items(others, rest, acc.push(first), used + k);
        assert(acc.push(first) + others =~= acc + items);
    }
}

proof fn lemma_encode_nonempty(v: SpecResp)
    ensures
        spec_encode(v).len() > 0,
{
    assert(spec_encode(v)[0] == match v {
        SpecResp::SimpleString(_) => 43u8,
        SpecResp::Integer(_) => 58u8,
        SpecResp::BulkString(_) => 36u8,
        SpecResp::Array(_) => 42u8,
        SpecResp::Null => 36u8,
        SpecResp::Error(_) => 45u8,
    });
}

proof fn lemma_find_cr_none(s: Seq<u8>, i: int)
    requires
        0 <= i,
        forall|k: int| i <= k < s.len() ==> s[k] != 13,
    ensures
        find_cr(s, i) is None,
    decreases s.len() - i,
{
    if i < s.len() {
        lemma_find_cr_none(s, i + 1);
    }
}

/// What the first `p` bytes of a header line and what follows show.
proof fn lemma_prefix_header(t: u8, body: Seq<u8>, tail: Seq<u8>, p: int)
    requires
        !body.contains(13u8),
        0 < p <= body.len() + 3 + tail.len(),
    ensures
        ({
            let x = (seq![t] + body + crlf() + tail).take(p);
            &&& x.len() == p
            &&& x[0] == t
            &&& p <= 1 + body.len() ==> find_cr(x, 1) is None
            &&& p >= 2 + body.len() ==> find_cr(x, 1) == Some(1 + body.len() as int) && x.subrange(
                1,
                1 + body.len() as int,
            ) == body
            &&& p >= 3 + body.len() ==> x.skip(3 + body.len() as int) == tail.take(
                p - 3 - body.len(),
            )
        }),
{
    let s = seq![t] + body + crlf() + tail;
    let x = s.take(p);
    let cr: int = 1 + body.len() as int;
    assert forall|k: int| 1 <= k < cr && k < p implies x[k] != 13 by {
        assert(x[k] == body[k - 1]);
        if x[k] == 13 {
            assert(body.contains(13u8));
        }
    }
    if p <= cr {
        lemma_find_cr_none(x, 1);
    } else {
        assert(x[cr] == 13);
        lemma_find_cr_at(x, 1, cr);
        assert(x.subrange(1, cr) =~= body);
    }
    if p >= 3 + body.len() {
        assert(x.skip(3 + body.len() as int) =~= tail.take(p - 3 - body.len()));
    }
}

/// A buffer that holds only the first part of the encoding of a frameable
/// value decodes as `Incomplete`: decoding waits for the rest.
pub proof fn lemma_decode_prefix(v: SpecResp, p: int)
    requires
        frameable(v),
        0 <= p < spec_encode(v).len(),
    ensures
        spec_decode(spec_encode(v).take(p)) == SpecDecode::Incomplete,
    decreases v,
{
    let x = spec_encode(v).take(p);
    if p == 0 {
        assert(x.len() == 0);
    } else {
        match v {
            SpecResp::SimpleString(text) => {
                let body = encode_utf8(text);
                lemma_prefix_header(43u8, body, Seq::empty(), p);
                assert(spec_encode(v) =~= seq![43u8] + body + crlf() + Seq::<u8>::empty());
                encode_utf8_valid_utf8(text);
            },
            SpecResp::Error(text) => {
                let body = encode_utf8(text);
                lemma_prefix_header(45u8, body, Seq::empty(), p);
                assert(spec_encode(v) =~= seq![45u8] + body + crlf() + Seq::<u8>::empty());
                encode_utf8_valid_utf8(text);
            },
            SpecResp::Integer(i) => {
                let body = int_decimal(i);
                lemma_parse_i64_decimal(i);
                lemma_prefix_header(58u8, body, Seq::empty(), p);
                assert(spec_encode(v) =~= seq![58u8] + body + crlf() + Seq::<u8>::empty());
            },
            SpecResp::Null => {
                let body = seq![45u8, 49u8];
                assert(!body.contains(13u8)) by {
                    if body.contains(13u8) {
                        let k = choose|k: int| 0 <= k < body.len() && body[k] == 13u8;
                    }
                }
                lemma_ascii_valid_utf8(body);
                lemma_prefix_header(36u8, body, Seq::empty(), p);
                assert(spec_encode(v) =~= seq![36u8] + body + crlf() + Seq::<u8>::empty());
            },
            SpecResp::BulkString(b) => {
                let body = nat_digits(b.len());
                lemma_nat_digits_roundtrip(b.len());
                lemma_digits_line_body(body);
                lemma_parse_usize_digits(b.len());
                let tail = b + crlf();
                lemma_prefix_header(36u8, body, tail, p);
                assert(spec_encode(v) =~= seq![36u8] + body + crlf() + tail);
            },
            SpecResp::Array(items) => {
                let body = nat_digits(items.len());
                lemma_nat_digits_roundtrip(items.len());
                lemma_digits_line_body(body);
                lemma_parse_usize_digits(items.len());
                let tail = spec_encode_items(items);
                lemma_prefix_header(42u8, body, tail, p);
                assert(spec_encode(v) =~= seq![42u8] + body + crlf() + tail);
                let next: int = 3 + body.len() as int;
                if p >= next {
                    lemma_decode_prefix_items(items, p - next, Seq::empty(), next as nat);
                }
            },
        }
    }
}

/// The first part of the encodings of frameable items, cut before their end,
/// decodes as `Incomplete`.
pub proof fn lemma_decode_prefix_items(items: Seq<SpecResp>, p: int, acc: Seq<SpecResp>, used: nat)
    requires
        frameable_items(items),
        0 <= p < spec_encode_items(items).len(),
    ensures
        spec_decode_items(spec_encode_items(items).take(p), items.len(), acc, used)
            == SpecDecode::Incomplete,
    decreases items,
{
    let first = items[0];
    let others = items.drop_first();
    let s = spec_encode_items(items);
    let k = spec_encode(first).len() as int;
    let x = s.take(p);
    assert(s =~= spec_encode(first) + spec_encode_items(others));
    if p < k {
        assert(x =~= spec_encode(first).take(p));
        lemma_decode_prefix(first, p);
    } else {
        let y = spec_encode_items(others).take(p - k);
        assert(x =~= spec_encode(first) + y);
        lemma_decode_encode(first, y);
        lemma_encode_nonempty(first);
        assert(x.skip(k) =~= y);
        lemma_decode_prefix_items(others, p - k, acc.push(first), used + k as nat);
    }
}

/// Where `s` has its first `\r` after the type byte, any longer buffer that
/// begins with the same bytes up to that `\r` has it there too.
proof fn lemma_same_line(s: Seq<u8>, x: Seq<u8>, cr: int)
    requires
        find_cr(s, 1) == Some(cr),
        cr < x.len(),
        forall|k: int| 0 <= k <= cr ==> x[k] == s[k],
    ensures
        find_cr(x, 1) == Some(cr),
        x.subrange(1, cr) == s.subrange(1, cr),
{
    lemma_find_cr(s, 1);
    lemma_find_cr_at(x, 1, cr);
    assert(x.subrange(1, cr) =~= s.subrange(1, cr));
}

/// A decided result (a whole value or an error) stays the same when more
/// bytes follow.
pub proof fn lemma_decode_extend(s: Seq<u8>, more: Seq<u8>)
    requires
        !(spec_decode(s) is Incomplete),
    ensures
        spec_decode(s + more) == spec_decode(s),
    decreases s.len(), 0nat, 0nat,
{
    let x = s + more;
    assert(x[0] == s[0]);
    if is_type_byte(s[0]) {
        lemma_find_cr(s, 1);
        let cr = find_cr(s, 1)->Some_0;
        lemma_same_line(s, x, cr);
        let content = s.subrange(1, cr);
        let next = cr + 2;
        if s[0] == 36 {
            if let Some(n) = spec_parse_usize(content) {
                if content != seq![45u8, 49u8] && n <= MAX_BULK_STRING_SIZE && next + n + 2 <= s.len() {
                    assert(x.subrange(next, next + n) =~= s.subrange(next, next + n));
                }
            }
        } else if s[0] == 42 && valid_utf8(content) {
            if let Some(n) = spec_parse_usize(content) {
                if next <= s.len() {
                    assert(spec_decode(s) == spec_decode_items(
                        s.skip(next),
                        n as nat,
                        Seq::empty(),
                        next as nat,
                    ));
                    assert(x.skip(next) =~= s.skip(next) + more);
                    lemma_decode_items_extend(s.skip(next), n as nat, Seq::empty(), next as nat, more);
                }
            }
        }
    }
}

/// Decided array items stay the same when more bytes follow.
pub proof fn lemma_decode_items_extend(
    rest: Seq<u8>,
    n: nat,
    acc: Seq<SpecResp>,
    used: nat,
    more: Seq<u8>,
)
    requires
        !(spec_decode_items(rest, n, acc, used) is Incomplete),
    ensures
        spec_decode_items(rest + more, n, acc, used) == spec_decode_items(rest, n, acc, used),
    decreases rest.len(), 1nat, n,
{
    if n > 0 {
        lemma_decode_extend(rest, more);
        if let SpecDecode::Complete(v, k) = spec_decode(rest) {
            assert((rest + more).skip(k as int) =~= rest.skip(k as int) + more);
            lemma_decode_items_extend(rest.skip(k as int), (n - 1) as nat, acc.push(v), used + k, more);
        }
    }
}

/// Decoding only reads the bytes of the value it finds: cut the buffer
/// anywhere at or after the end of a whole value and the result is the same.
pub proof fn lemma_decode_truncate(s: Seq<u8>, j: int)
    requires
        spec_decode(s) matches SpecDecode::Complete(_, n) && n <= j <= s.len(),
    ensures
        spec_decode(s.take(j)) == spec_decode(s),
    decreases s.len(), 0nat, 0nat,
{
    let x = s.take(j);
    let n0 = spec_decode(s)->Complete_1;
    lemma_decode_consumed(s);
    assert(is_type_byte(s[0]));
    lemma_find_cr(s, 1);
    let cr = find_cr(s, 1)->Some_0;
    let content = s.subrange(1, cr);
    let next = cr + 2;
    if s[0] == 42 {
        let n = spec_parse_usize(content)->Some_0;
        lemma_decode_items_consumed(s.skip(next), n as nat, Seq::empty(), next as nat);
    }
    assert(next <= n0);
    assert(x[0] == s[0]);
    lemma_same_line(s, x, cr);
    if s[0] == 36 {
        if let Some(n) = spec_parse_usize(content) {
            if content != seq![45u8, 49u8] {
                assert(x.subrange(next, next + n) =~= s.subrange(next, next + n));
            }
        }
    } else if s[0] == 42 {
        let n = spec_parse_usize(content)->Some_0;
        lemma_decode_items_consumed(s.skip(next), n as nat, Seq::empty(), next as nat);
        assert(x.skip(next) =~= s.skip(next).take(j - next));
        lemma_decode_items_truncate(s.skip(next), n as nat, Seq::empty(), next as nat, j - next);
    }
}

/// Cutting the bytes after whole array items leaves their decoding as it is.
pub proof fn lemma_decode_items_truncate(
    rest: Seq<u8>,
    n: nat,
    acc: Seq<SpecResp>,
    used: nat,
    jj: int,
)
    requires
        spec_decode_items(rest, n, acc, used) matches SpecDecode::Complete(_, u) && u - used <= jj
            <= rest.len(),
    ensures
        spec_decode_items(rest.take(jj), n, acc, used) == spec_decode_items(rest, n, acc, used),
    decreases rest.len(), 1nat, n,
{
    if n > 0 {
        let v = spec_decode(rest)->Complete_0;
        let k = spec_decode(rest)->Complete_1;
        let tail = rest.skip(k as int);
        lemma_decode_items_consumed(tail, (n - 1) as nat, acc.push(v), used + k);
        lemma_decode_truncate(rest, jj);
        assert(rest.take(jj).skip(k as int) =~= tail.take(jj - k));
        lemma_decode_items_truncate(tail, (n - 1) as nat, acc.push(v), used + k, jj - k);
    }
}

/// No `\r` in the UTF-8 bytes of any simple string or error, at any depth.
pub open spec fn no_cr(v: SpecResp) -> bool
    decreases v,
{
    match v {
        SpecResp::SimpleString(s) => !encode_utf8(s).contains(13u8),
        SpecResp::Error(s) => !encode_utf8(s).contains(13u8),
        SpecResp::Array(items) => no_cr_items(items),
        _ => true,
    }
}

/// Every item satisfies [`no_cr`].
pub open spec fn no_cr_items(items: Seq<SpecResp>) -> bool
    decreases items,
{
    items.len() > 0 ==> no_cr(items[0]) && no_cr_items(items.drop_first())
}

/// `a` is the beginning of `z`.
pub open spec fn is_prefix_of(a: Seq<u8>, z: Seq<u8>) -> bool {
    a.len() <= z.len() && z.take(a.len() as int) == a
}

/// Two header lines that both begin the same bytes have the same type byte
/// and the same header.
proof fn lemma_same_header(
    t1: u8,
    b1: Seq<u8>,
    tail1: Seq<u8>,
    t2: u8,
    b2: Seq<u8>,
    tail2: Seq<u8>,
    z: Seq<u8>,
)
    requires
        !b1.contains(13u8),
        !b2.contains(13u8),
        is_prefix_of(seq![t1] + b1 + crlf() + tail1, z),
        is_prefix_of(seq![t2] + b2 + crlf() + tail2, z),
    ensures
        t1 == t2,
        b1 == b2,
{
    let x1 = seq![t1] + b1 + crlf() + tail1;
    let x2 = seq![t2] + b2 + crlf() + tail2;
    assert(x1[0] == z.take(x1.len() as int)[0]);
    assert(x2[0] == z.take(x2.len() as int)[0]);
    if b1.len() < b2.len() {
        let k = 1 + b1.len() as int;
        assert(x1[k] == z.take(x1.len() as int)[k]);
        assert(x2[k] == z.take(x2.len() as int)[k]);
        assert(x2[k] == b2[k - 1]);
        assert(b2.contains(13u8));
    } else if b2.len() < b1.len() {
        let k = 1 + b2.len() as int;
        assert(x1[k] == z.take(x1.len() as int)[k]);
        assert(x2[k] == z.take(x2.len() as int)[k]);
        assert(x1[k] == b1[k - 1]);
        assert(b1.contains(13u8));
    }
    assert forall|k: int| 0 <= k < b1.len() implies b1[k] == b2[k] by {
        assert(x1[k + 1] == z.take(x1.len() as int)[k + 1]);
        assert(x2[k + 1] == z.take(x2.len() as int)[k + 1]);
    }
    assert(b1 =~= b2);
}

proof fn lemma_int_decimal_injective(i1: int, i2: int)
    requires
        int_decimal(i1) == int_decimal(i2),
    ensures
        i1 == i2,
{
    let d1 = int_decimal(i1);
    if i1 < 0 {
        lemma_nat_digits_roundtrip((-i1) as nat);
        assert(d1[0] == 45u8);
        assert(d1.drop_first() =~= nat_digits((-i1) as nat));
    } else {
        lemma_nat_digits_roundtrip(i1 as nat);
        assert(is_digit(d1[0]));
    }
    if i2 < 0 {
        lemma_nat_digits_roundtrip((-i2) as nat);
        assert(int_decimal(i2).drop_first() =~= nat_digits((-i2) as nat));
    } else {
        lemma_nat_digits_roundtrip(i2 as nat);
        assert(is_digit(int_decimal(i2)[0]));
    }
}

proof fn lemma_encode_first_byte(v: SpecResp)
    ensures
        spec_encode(v).len() > 0,
        spec_encode(v)[0] == match v {
            SpecResp::SimpleString(_) => 43u8,
            SpecResp::Integer(_) => 58u8,
            SpecResp::BulkString(_) => 36u8,
            SpecResp::Array(_) => 42u8,
            SpecResp::Null => 36u8,
            SpecResp::Error(_) => 45u8,
        },
{
}

/// Two values whose strings hold no `\r` and whose encodings both begin the
/// same bytes are the same value.
pub proof fn lemma_encode_prefix_unique(v1: SpecResp, v2: SpecResp, z: Seq<u8>)
    requires
        no_cr(v1),
        no_cr(v2),
        is_prefix_of(spec_encode(v1), z),
        is_prefix_of(spec_encode(v2), z),
    ensures
        v1 == v2,
    decreases v1,
{
    let e1 = spec_encode(v1);
    let e2 = spec_encode(v2);
    lemma_encode_first_byte(v1);
    lemma_encode_first_byte(v2);
    assert(e1[0] == z.take(e1.len() as int)[0]);
    assert(e2[0] == z.take(e2.len() as int)[0]);
    match v1 {
        SpecResp::SimpleString(s1) => {
            let s2 = v2->SimpleString_0;
            assert(e1 =~= seq![43u8] + encode_utf8(s1) + crlf() + Seq::<u8>::empty());
            assert(e2 =~= seq![43u8] + encode_utf8(s2) + crlf() + Seq::<u8>::empty());
            lemma_same_header(43u8, encode_utf8(s1), Seq::empty(), 43u8, encode_utf8(s2), Seq::empty(), z);
            encode_utf8_decode_utf8(s1);
            encode_utf8_decode_utf8(s2);
        },
        SpecResp::Error(s1) => {
            let s2 = v2->Error_0;
            assert(e1 =~= seq![45u8] + encode_utf8(s1) + crlf() + Seq::<u8>::empty());
            assert(e2 =~= seq![45u8] + encode_utf8(s2) + crlf() + Seq::<u8>::empty());
            lemma_same_header(45u8, encode_utf8(s1), Seq::empty(), 45u8, encode_utf8(s2), Seq::empty(), z);
            encode_utf8_decode_utf8(s1);
            encode_utf8_decode_utf8(s2);
        },
        SpecResp::Integer(i1) => {
            let i2 = v2->Integer_0;
            let d1 = int_decimal(i1);
            let d2 = int_decimal(i2);
            lemma_int_decimal_no_cr(i1);
            lemma_int_decimal_no_cr(i2);
            assert(e1 =~= seq![58u8] + d1 + crlf() + Seq::<u8>::empty());
            assert(e2 =~= seq![58u8] + d2 + crlf() + Seq::<u8>::empty());
            lemma_same_header(58u8, d1, Seq::empty(), 58u8, d2, Seq::empty(), z);
            lemma_int_decimal_injective(i1, i2);
        },
        SpecResp::Null => {
            if let SpecResp::BulkString(b2) = v2 {
                let d2 = nat_digits(b2.len());
                lemma_nat_digits_roundtrip(b2.len());
                lemma_digits_line_body(d2);
                let null_body = seq![45u8, 49u8];
                assert(!null_body.contains(13u8)) by {
                    if null_body.contains(13u8) {
                        let k = choose|k: int| 0 <= k < null_body.len() && null_body[k] == 13u8;
                    }
                }
                assert(e1 =~= seq![36u8] + null_body + crlf() + Seq::<u8>::empty());
                assert(e2 =~= seq![36u8] + d2 + crlf() + (b2 + crlf()));
                lemma_same_header(36u8, null_body, Seq::empty(), 36u8, d2, b2 + crlf(), z);
                assert(is_digit(d2[0]));
            }
        },
        SpecResp::BulkString(b1) => {
            let d1 = nat_digits(b1.len());
            lemma_nat_digits_roundtrip(b1.len());
            lemma_digits_line_body(d1);
            assert(e1 =~= seq![36u8] + d1 + crlf() + (b1 + crlf()));
            match v2 {
                SpecResp::BulkString(b2) => {
                    let d2 = nat_digits(b2.len());
                    lemma_nat_digits_roundtrip(b2.len());
                    lemma_digits_line_body(d2);
                    assert(e2 =~= seq![36u8] + d2 + crlf() + (b2 + crlf()));
                    lemma_same_header(36u8, d1, b1 + crlf(), 36u8, d2, b2 + crlf(), z);
                    assert(b1.len() == b2.len());
                    let h = 3 + d1.len() as int;
                    assert forall|k: int| 0 <= k < b1.len() implies b1[k] == b2[k] by {
                        assert(e1[h + k] == b1[k]);
                        assert(e2[h + k] == b2[k]);
                        assert(e1[h + k] == z.take(e1.len() as int)[h + k]);
                        assert(e2[h + k] == z.take(e2.len() as int)[h + k]);
                    }
                    assert(b1 =~= b2);
                },
                SpecResp::Null => {
                    let null_body = seq![45u8, 49u8];
                    assert(!null_body.contains(13u8)) by {
                        if null_body.contains(13u8) {
                            let k = choose|k: int| 0 <= k < null_body.len() && null_body[k] == 13u8;
                        }
                    }
                    assert(e2 =~= seq![36u8] + null_body + crlf() + Seq::<u8>::empty());
                    lemma_same_header(36u8, d1, b1 + crlf(), 36u8, null_body, Seq::empty(), z);
                    assert(is_digit(d1[0]));
                },
                _ => {},
            }
        },
        SpecResp::Array(items1) => {
            let items2 = v2->Array_0;
            let d1 = nat_digits(items1.len());
            let d2 = nat_digits(items2.len());
            lemma_nat_digits_roundtrip(items1.len());
            lemma_nat_digits_roundtrip(items2.len());
            lemma_digits_line_body(d1);
            lemma_digits_line_body(d2);
            let t1 = spec_encode_items(items1);
            let t2 = spec_encode_items(items2);
            assert(e1 =~= seq![42u8] + d1 + crlf() + t1);
            assert(e2 =~= seq![42u8] + d2 + crlf() + t2);
            lemma_same_header(42u8, d1, t1, 42u8, d2, t2, z);
            assert(items1.len() == items2.len());
            let h = 3 + d1.len() as int;
            let zs = z.skip(h);
            assert(zs.take(t1.len() as int) =~= z.take(e1.len() as int).skip(h));
            assert(zs.take(t2.len() as int) =~= z.take(e2.len() as int).skip(h));
            assert(e1.skip(h) =~= t1);
            assert(e2.skip(h) =~= t2);
            lemma_encode_items_prefix_unique(items1, items2, zs);
        },
    }
}

/// Two item sequences of one length whose strings hold no `\r` and whose
/// encodings both begin the same bytes are the same sequence.
pub proof fn lemma_encode_items_prefix_unique(items1: Seq<SpecResp>, items2: Seq<SpecResp>, z: Seq<u8>)
    requires
        items1.len() == items2.len(),
        no_cr_items(items1),
        no_cr_items(items2),
        is_prefix_of(spec_encode_items(items1), z),
        is_prefix_of(spec_encode_items(items2), z),
    ensures
        items1 == items2,
    decreases items1,
{
    if items1.len() > 0 {
        let x1 = items1[0];
        let x2 = items2[0];
        let r1 = items1.drop_first();
        let r2 = items2.drop_first();
        let a1 = spec_encode(x1);
        let a2 = spec_encode(x2);
        let t1 = spec_encode_items(r1);
        let t2 = spec_encode_items(r2);
        assert(spec_encode_items(items1) == a1 + t1);
        assert(spec_encode_items(items2) == a2 + t2);
        assert(z.take(a1.len() as int) =~= z.take((a1 + t1).len() as int).take(a1.len() as int));
        assert(z.take(a2.len() as int) =~= z.take((a2 + t2).len() as int).take(a2.len() as int));
        assert((a1 + t1).take(a1.len() as int) =~= a1);
        assert((a2 + t2).take(a2.len() as int) =~= a2);
        lemma_encode_prefix_unique(x1, x2, z);
        let k = a1.len() as int;
        let zs = z.skip(k);
        assert(zs.take(t1.len() as int) =~= z.take((a1 + t1).len() as int).skip(k));
        assert(zs.take(t2.len() as int) =~= z.take((a2 + t2).len() as int).skip(k));
        assert((a1 + t1).skip(k) =~= t1);
        assert((a2 + t2).skip(k) =~= t2);
        lemma_encode_items_prefix_unique(r1, r2, zs);
        assert(items1 =~= items2) by {
            assert forall|i: int| 0 <= i < items1.len() implies items1[i] == items2[i] by {
                if i > 0 {
                    assert(items1[i] == r1[i - 1]);
                    assert(items2[i] == r2[i - 1]);
                }
            }
        }
    }
}

proof fn lemma_int_decimal_no_cr(i: int)
    ensures
        !int_decimal(i).contains(13u8),
{
    let s = int_decimal(i);
    if s.contains(13u8) {
        let k = choose|k: int| 0 <= k < s.len() && s[k] == 13u8;
        if i < 0 {
            lemma_nat_digits_roundtrip((-i) as nat);
            let d = nat_digits((-i) as nat);
            if k > 0 {
                assert(s[k] == d[k - 1]);
                assert(is_digit(d[k - 1]));
            }
        } else {
            lemma_nat_digits_roundtrip(i as nat);
            assert(is_digit(s[k]));
        }
    }
}

/// The encoding is prefix-free, hence one-to-one: when the encoding of one
/// value begins the encoding of another, and no simple string or error in
/// either holds a `\r`, they are the same value.
pub proof fn lemma_encode_prefix_free(v1: SpecResp, v2: SpecResp)
    requires
        no_cr(v1),
        no_cr(v2),
        spec_encode(v1).len() <= spec_encode(v2).len(),
        spec_encode(v2).take(spec_encode(v1).len() as int) == spec_encode(v1),
    ensures
        v1 == v2,
{
    let e2 = spec_encode(v2);
    assert(e2.take(e2.len() as int) =~= e2);
    lemma_encode_prefix_unique(v1, v2, e2);
}

} // verus!
