//! The text of a label: its bytes read as UTF-8, in lower case.
//!
//! Both steps are the standard library's. Verus takes their contracts on
//! trust; what this module proves is built on them.

use vstd::prelude::*;
use vstd::utf8::{decode_utf8, is_ascii_chars, valid_utf8};

verus! {

/// The characters that `String::from_utf8_lossy` makes of `bytes`. It is
/// looked at only for bytes that are not valid UTF-8, where each malformed
/// sequence comes out as U+FFFD.
pub uninterp spec fn utf8_lossy(bytes: Seq<u8>) -> Seq<char>;

/// The characters that `str::to_lowercase` makes of `text`. It is looked at
/// only for a text with a character outside ASCII, where the case mapping
/// of Unicode decides, as the standard library that the crate is built with
/// knows it.
pub uninterp spec fn unicode_lowercase(text: Seq<char>) -> Seq<char>;

/// The characters that bytes stand for: the ones they encode where they are
/// valid UTF-8, what the lossy conversion makes of them where they are not.
pub open spec fn lossy_text(bytes: Seq<u8>) -> Seq<char> {
    if valid_utf8(bytes) {
        decode_utf8(bytes)
    } else {
        utf8_lossy(bytes)
    }
}

/// An ASCII capital as its small letter, any other character as itself.
pub open spec fn ascii_lower(c: char) -> char {
    if 'A' <= c <= 'Z' {
        ((c as u32) + 0x20) as char
    } else {
        c
    }
}

/// `text` with every ASCII capital replaced by its small letter.
pub open spec fn ascii_lowercase(text: Seq<char>) -> Seq<char> {
    Seq::new(text.len(), |i: int| ascii_lower(text[i]))
}

/// `text` in lower case.
pub open spec fn lowercase(text: Seq<char>) -> Seq<char> {
    if is_ascii_chars(text) {
        ascii_lowercase(text)
    } else {
        unicode_lowercase(text)
    }
}

/// The text that the bytes of a label are decoded to.
pub open spec fn label_text(bytes: Seq<u8>) -> Seq<char> {
    lowercase(lossy_text(bytes))
}

/// Calls `String::from_utf8_lossy` and takes the result as an owned string.
/// Trusted: valid UTF-8 comes back as the characters it encodes, as the
/// function's documentation says; of other input only that the result is a
/// function of the bytes.
#[verifier::external_body]
fn string_from_utf8_lossy(bytes: &[u8]) -> (s: String)
    ensures
        valid_utf8(bytes@) ==> s@ == decode_utf8(bytes@),
        !valid_utf8(bytes@) ==> s@ == utf8_lossy(bytes@),
{
    String::from_utf8_lossy(bytes).into_owned()
}

/// Calls `str::to_lowercase`. Trusted: in an all-ASCII text the letters `A`
/// to `Z` become `a` to `z` and nothing else changes; of other input only
/// that the result is a function of the text.
#[verifier::external_body]
fn string_to_lowercase(text: &str) -> (s: String)
    ensures
        is_ascii_chars(text@) ==> s@ == ascii_lowercase(text@),
        !is_ascii_chars(text@) ==> s@ == unicode_lowercase(text@),
{
    text.to_lowercase()
}

/// Decodes the bytes of one label: reads them as UTF-8, with U+FFFD in the
/// place of what is malformed, and makes the text lower case.
pub fn label_string(bytes: &[u8]) -> (s: String)
    ensures
        s@ == label_text(bytes@),
{
    let raw = string_from_utf8_lossy(bytes);
    string_to_lowercase(raw.as_str())
}

} // verus!
