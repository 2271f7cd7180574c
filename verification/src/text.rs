//! Text conversions that the protocol leans on, taken from std.
use vstd::prelude::*;
use vstd::utf8::*;

verus! {

/// std's `FromUtf8Error`, the refusal of `String::from_utf8`; carried opaque.
#[verifier::external_type_specification]
#[verifier::external_body]
pub struct ExFromUtf8Error(std::string::FromUtf8Error);

/// `String::from_utf8`: accepts the bytes exactly when they are valid UTF-8,
/// and then the text's UTF-8 encoding is those very bytes (std documents that
/// the vector is moved into the `String` unchanged).
#[verifier::external_body]
pub(crate) fn string_from_utf8(bytes: Vec<u8>) -> (r: Result<String, std::string::FromUtf8Error>)
    ensures
        r is Ok <==> valid_utf8(bytes@),
        r matches Ok(s) ==> encode_utf8(s@) == bytes@,
{
    String::from_utf8(bytes)
}

/// The text that `String::from_utf8_lossy` makes of a byte string.
pub uninterp spec fn utf8_lossy(bytes: Seq<u8>) -> Seq<char>;

/// The text made of bytes that arrive as a key or a value: their UTF-8
/// reading when they are valid UTF-8, else [`utf8_lossy`] of them.
pub open spec fn text_of_bytes(bytes: Seq<u8>) -> Seq<char> {
    if valid_utf8(bytes) {
        decode_utf8(bytes)
    } else {
        utf8_lossy(bytes)
    }
}

/// `String::from_utf8_lossy`, taken as an owned `String`: its result is named
/// [`utf8_lossy`]; std documents that valid UTF-8 comes through unchanged.
/// What replaces the invalid sequences is left unsaid.
#[verifier::external_body]
pub(crate) fn string_from_utf8_lossy(bytes: &[u8]) -> (s: String)
    ensures
        s@ == utf8_lossy(bytes@),
        valid_utf8(bytes@) ==> s@ == decode_utf8(bytes@),
{
    String::from_utf8_lossy(bytes).into_owned()
}

/// The text that `str::to_uppercase` makes of a text.
pub uninterp spec fn uppercase(s: Seq<char>) -> Seq<char>;

/// ASCII uppercasing of one character: `a`..=`z` become `A`..=`Z`, every
/// other character stays.
pub open spec fn ascii_upper_char(c: char) -> char {
    if 'a' <= c <= 'z' {
        ((c as u32) - 32) as char
    } else {
        c
    }
}

/// ASCII uppercasing of a text, character by character.
pub open spec fn ascii_upper(s: Seq<char>) -> Seq<char> {
    s.map_values(|c: char| ascii_upper_char(c))
}

/// The uppercase of a text: its ASCII uppercasing when it is all ASCII,
/// else [`uppercase`] of it.
pub open spec fn upper_text(s: Seq<char>) -> Seq<char> {
    if is_ascii_chars(s) {
        ascii_upper(s)
    } else {
        uppercase(s)
    }
}

/// `str::to_uppercase`: its result (Unicode's uppercase mapping) is named
/// [`uppercase`]; for ASCII text std's mapping is the ASCII one (each of
/// `a`..=`z` becomes `A`..=`Z`, all else stays, the length is kept).
/// What it does to other characters is left unsaid.
#[verifier::external_body]
pub(crate) fn to_uppercase(s: &str) -> (r: String)
    ensures
        r@ == uppercase(s@),
        is_ascii_chars(s@) ==> r@ == ascii_upper(s@),
{
    s.to_uppercase()
}

/// ASCII bytes are valid UTF-8, and each reads as the character of the same code.
pub proof fn lemma_ascii_bytes(b: Seq<u8>)
    requires
        forall|i: int| 0 <= i < b.len() ==> b[i] < 128,
    ensures
        valid_utf8(b),
        decode_utf8(b) == b.map_values(|x: u8| x as char),
        is_ascii_chars(decode_utf8(b)),
    decreases b.len(),
{
    if b.len() > 0 {
        let x = b[0];
        assert(x & 0x7Fu8 == x) by (bit_vector)
            requires
                x < 128u8,
        ;
        assert(valid_first_scalar(b));
        assert(pop_first_scalar(b) =~= b.drop_first());
        lemma_ascii_bytes(b.drop_first());
        assert(decode_utf8(b) =~= b.map_values(|x: u8| x as char));
    }
}
} // verus!
