//! Characters, token codes and strings: what the library needs of `str`,
//! `char` and `String` beyond what vstd specifies.

use vstd::prelude::*;
use vstd::std_specs::iter::IteratorSpec;

verus! {

broadcast use vstd::string::group_string_axioms;

/// The code of every character of `s`, in order.
pub open spec fn char_codes(s: Seq<char>) -> Seq<u32> {
    s.map_values(|c: char| c as u32)
}

/// The characters of `text`, in order.
pub fn text_chars(text: &str) -> (chars: Vec<char>)
    ensures
        chars@ == text@,
{
    let mut chars: Vec<char> = Vec::new();
    for c in it: text.chars()
        invariant
            chars@ == it.seq().take(it.index() as int),
    {
        chars.push(c);
    }
    chars
}

/// The code of every character of `chars`, in order.
pub fn codes_of(chars: &Vec<char>) -> (codes: Vec<u32>)
    ensures
        codes@ == char_codes(chars@),
{
    let mut codes: Vec<u32> = Vec::with_capacity(chars.len());
    for i in 0..chars.len()
        invariant
            codes@ == char_codes(chars@.subrange(0, i as int)),
    {
        codes.push(chars[i] as u32);
        assert(codes@ =~= char_codes(chars@.subrange(0, i + 1)));
    }
    assert(chars@.subrange(0, chars@.len() as int) =~= chars@);
    codes
}

/// A one-character string.
///
/// Calls `ToString::to_string` on a `char`, which std documents as the string
/// holding that character alone; this contract claims exactly that.
#[verifier::external_body]
pub(crate) fn char_string(c: char) -> (s: String)
    ensures
        s@ == seq![c],
{
    c.to_string()
}

/// The text that `bytes` encode in UTF-8, if they are valid UTF-8.
///
/// Calls `std::str::from_utf8`, which std documents as succeeding exactly
/// when the bytes are valid UTF-8 and then viewing those same bytes as a
/// string; this contract claims exactly that.
#[verifier::external_body]
pub(crate) fn utf8_text(bytes: &[u8]) -> (text: Option<&str>)
    ensures
        text is Some <==> vstd::utf8::valid_utf8(bytes@),
        text matches Some(s) ==> s@ == vstd::utf8::decode_utf8(bytes@),
{
    match std::str::from_utf8(bytes) {
        Ok(s) => Some(s),
        Err(_) => None,
    }
}

/// Whether `code` is a Unicode scalar value: at most 0x10FFFF and outside the
/// surrogate range.
pub open spec fn is_char_code(code: u32) -> bool {
    code <= 0x10FFFF && !(0xD800 <= code && code <= 0xDFFF)
}

/// The character whose code is `code`, if there is one.
///
/// Calls `char::from_u32`, which std documents as returning `None` exactly
/// when the value is above 0x10FFFF or a surrogate, and otherwise the
/// character with that code; this contract claims exactly that.
#[verifier::external_body]
pub(crate) fn char_of_code(code: u32) -> (c: Option<char>)
    ensures
        c is Some <==> is_char_code(code),
        c matches Some(ch) ==> ch as u32 == code,
{
    char::from_u32(code)
}

} // verus!
