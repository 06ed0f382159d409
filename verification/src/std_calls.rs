//! The std and outside calls whose behaviour vstd does not specify: each
//! item here is believed, not proved, and says what it claims.

use vstd::prelude::*;

verus! {

/// `String::push`: appends one character at the end of the string.
#[verifier::external_body]
pub(crate) fn push_char(s: &mut String, c: char)
    ensures
        final(s)@ == old(s)@.push(c),
{
    s.push(c);
}

/// Whether a character outside ASCII is numeric in Unicode terms (general
/// categories Nd, Nl and No).
pub uninterp spec fn unicode_numeric(c: char) -> bool;

/// Whether a character is numeric, as `char::is_numeric` answers: of the
/// ASCII characters, the digits `0` to `9`.
pub open spec fn is_numeric(c: char) -> bool {
    if (c as u32) < 128 {
        48 <= (c as u32) && (c as u32) <= 57
    } else {
        unicode_numeric(c)
    }
}

/// `char::is_numeric`. For ASCII the answer is stated; for other characters
/// it is named by `unicode_numeric`.
#[verifier::external_body]
pub(crate) fn char_is_numeric(c: char) -> (b: bool)
    ensures
        b == is_numeric(c),
        (c as u32) >= 128 ==> b == unicode_numeric(c),
{
    c.is_numeric()
}

/// The Unicode upper-case mapping of a string, as `str::to_uppercase` gives it.
pub uninterp spec fn uppercase(s: Seq<char>) -> Seq<char>;

/// The upper case of an ASCII character: `a` to `z` become `A` to `Z`,
/// the other characters stay.
pub open spec fn ascii_upper(c: char) -> char {
    if 97 <= (c as u32) <= 122 {
        ((c as u32) - 32) as char
    } else {
        c
    }
}

/// `str::to_uppercase`. The result is named by `uppercase`. For a string of
/// ASCII characters it is stated: the Unicode upper-case mapping sends `a` to
/// `z` to `A` to `Z` and leaves the other ASCII characters as they are.
/// Nothing more is stated of the Unicode case tables.
#[verifier::external_body]
pub(crate) fn to_uppercase(s: &str) -> (r: String)
    ensures
        r@ == uppercase(s@),
        (forall|i: int| 0 <= i < s@.len() ==> (#[trigger] s@[i] as u32) < 128) ==> r@ == s@.map_values(
            |c: char| ascii_upper(c),
        ),
{
    s.to_uppercase()
}

/// The text that `String::from_utf8_lossy` makes of some bytes.
pub uninterp spec fn lossy_text(bytes: Seq<u8>) -> Seq<char>;

/// `String::from_utf8_lossy`. The result is named by `lossy_text`; where the
/// bytes are valid UTF-8 it is their decoding, which the contract states. How
/// invalid sequences are replaced is left to the name.
#[verifier::external_body]
pub(crate) fn utf8_lossy(bytes: &[u8]) -> (r: String)
    ensures
        r@ == lossy_text(bytes@),
        vstd::utf8::valid_utf8(bytes@) ==> r@ == vstd::utf8::decode_utf8(bytes@),
{
    String::from_utf8_lossy(bytes).into_owned()
}

/// `String::from_utf8`: the decoded text when the bytes are valid UTF-8,
/// nothing otherwise (the error value is dropped).
#[verifier::external_body]
pub(crate) fn utf8_strict(bytes: Vec<u8>) -> (r: Option<String>)
    ensures
        r is Some <==> vstd::utf8::valid_utf8(bytes@),
        r matches Some(s) ==> s@ == vstd::utf8::decode_utf8(bytes@),
{
    String::from_utf8(bytes).ok()
}

/// The ISO 639 reference name (in English) that `locale_codes::language::lookup`
/// holds for a two- or three-letter language code, if it knows the code.
pub uninterp spec fn language_name(code: Seq<char>) -> Option<Seq<char>>;

/// `locale_codes::language::lookup`, keeping the `reference_name` field. The
/// lookup goes through a table built into the crate, so its result is named
/// by `language_name`. It asserts that the code is two or three bytes long,
/// which the `requires` keeps.
#[verifier::external_body]
pub(crate) fn lookup_language_name(code: &str) -> (r: Option<String>)
    requires
        vstd::utf8::encode_utf8(code@).len() == 2 || vstd::utf8::encode_utf8(code@).len() == 3,
    ensures
        r matches Some(n) ==> language_name(code@) == Some(n@),
        r is None ==> language_name(code@) is None,
{
    locale_codes::language::lookup(code).map(|l| l.reference_name.clone())
}

} // verus!
