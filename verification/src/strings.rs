//! Conversions between strings, their characters and their UTF-8 bytes.
use crate::range::Range;
use vstd::prelude::*;
use vstd::slice::{slice_subrange, slice_to_vec};
use vstd::std_specs::iter::IteratorSpec;
use vstd::string::{StrSliceExecFns, StringSliceAdditionalSpecFns};
use vstd::utf8::{decode_utf8, encode_utf8, valid_utf8};

verus! {

/// The characters of `s`, in order.
pub fn to_chars(s: &str) -> (chars: Vec<char>)
    ensures
        chars@ == s@,
{
    let mut chars: Vec<char> = Vec::new();
    let source = s.chars();
    for c in it: source
        invariant
            it.seq() == s@,
            chars@ == it.seq().take(it.index()),
    {
        chars.push(c);
    }
    chars
}

/// `String::push`: appends one character to the end of the string.
#[verifier::external_body]
fn push_char(s: &mut String, c: char)
    ensures
        final(s)@ == old(s)@.push(c),
{
    s.push(c)
}

/// The string made of `chars`, in order.
pub fn from_chars(chars: &[char]) -> (s: String)
    ensures
        s@ == chars@,
{
    let mut s = String::new();
    let mut i: usize = 0;
    while i < chars.len()
        invariant
            i <= chars.len(),
            s@ == chars@.take(i as int),
        decreases chars.len() - i,
    {
        push_char(&mut s, chars[i]);
        proof {
            assert(chars@.take(i as int + 1) == chars@.take(i as int).push(chars@[i as int]));
        }
        i += 1;
    }
    proof {
        assert(chars@.take(chars.len() as int) == chars@);
    }
    s
}

/// `String::from_utf8`: the string that `bytes` encode, or nothing where they are not
/// valid UTF-8.
#[verifier::external_body]
fn string_from_utf8(bytes: Vec<u8>) -> (s: Option<String>)
    ensures
        s is Some <==> valid_utf8(bytes@),
        s matches Some(text) ==> text@ == decode_utf8(bytes@),
{
    String::from_utf8(bytes).ok()
}

/// Decodes `bytes` as UTF-8. Nothing is returned exactly when they are not valid UTF-8.
pub fn decode(bytes: Vec<u8>) -> (s: Option<String>)
    ensures
        s is Some <==> valid_utf8(bytes@),
        s matches Some(text) ==> text@ == decode_utf8(bytes@) && encode_utf8(text@) == bytes@,
{
    let s = string_from_utf8(bytes);
    proof {
        if valid_utf8(bytes@) {
            vstd::utf8::decode_utf8_encode_utf8(bytes@);
        }
    }
    s
}

/// `std::str::from_utf8`: whether `bytes` are valid UTF-8.
#[verifier::external_body]
fn str_from_utf8_is_ok(bytes: &[u8]) -> (valid: bool)
    ensures
        valid == valid_utf8(bytes@),
{
    std::str::from_utf8(bytes).is_ok()
}

/// Tells whether `bytes` are valid UTF-8.
pub fn is_utf8(bytes: &[u8]) -> (valid: bool)
    ensures
        valid == valid_utf8(bytes@),
{
    str_from_utf8_is_ok(bytes)
}

/// The UTF-8 bytes of `s`.
pub fn encode(s: String) -> (bytes: Vec<u8>)
    ensures
        bytes@ == encode_utf8(s@),
        valid_utf8(bytes@),
        decode_utf8(bytes@) == s@,
{
    proof {
        vstd::utf8::encode_utf8_valid_utf8(s@);
        vstd::utf8::encode_utf8_decode_utf8(s@);
    }
    s.as_str().as_bytes_vec()
}

/// The text that `source` holds in `range`: nothing where the range does not lie in
/// `source` or its bytes are not valid UTF-8.
pub open spec fn text_of(source: Seq<u8>, range: Range) -> Option<Seq<char>> {
    if range.fits(source.len() as int) && valid_utf8(
        source.subrange(range.start_byte as int, range.end_byte as int),
    ) {
        Some(decode_utf8(source.subrange(range.start_byte as int, range.end_byte as int)))
    } else {
        None
    }
}

/// Reads the text that `source` holds in `range`.
pub fn slice_text(source: &[u8], range: &Range) -> (text: Option<String>)
    ensures
        match text {
            Some(t) => text_of(source@, *range) == Some(t@),
            None => text_of(source@, *range) is None,
        },
{
    if !(range.start_byte <= range.end_byte && range.end_byte <= source.len()) {
        return None;
    }
    decode(slice_to_vec(slice_subrange(source, range.start_byte, range.end_byte)))
}

} // verus!
