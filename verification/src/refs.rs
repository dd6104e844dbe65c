//! The text of the branch tip: which commit, if any, the tip file names.

use crate::object::OObjectId;
use crate::text::{ascii_chars, is_ascii_bytes, lemma_ascii_bytes_encode};
use vstd::prelude::*;
use vstd::utf8::{encode_utf8, encode_utf8_decode_utf8, is_ascii_chars, is_ascii_chars_encode_utf8};

verus! {

/// `c` is white space: it has the Unicode property White_Space. These are
/// the characters U+0009 to U+000D, U+0020, U+0085, U+00A0, U+1680, U+2000
/// to U+200A, U+2028, U+2029, U+202F, U+205F and U+3000.
pub open spec fn is_white_space(c: char) -> bool {
    let code = c as u32;
    ||| 0x09 <= code <= 0x0d
    ||| code == 0x20
    ||| code == 0x85
    ||| code == 0xa0
    ||| code == 0x1680
    ||| 0x2000 <= code <= 0x200a
    ||| code == 0x2028
    ||| code == 0x2029
    ||| code == 0x202f
    ||| code == 0x205f
    ||| code == 0x3000
}

/// How many white-space characters stand at the beginning of `text`.
pub open spec fn white_before(text: Seq<char>) -> int
    decreases text.len(),
{
    if text.len() > 0 && is_white_space(text[0]) {
        1 + white_before(text.drop_first())
    } else {
        0
    }
}

/// How many white-space characters stand at the end of `text`.
pub open spec fn white_behind(text: Seq<char>) -> int
    decreases text.len(),
{
    if text.len() > 0 && is_white_space(text.last()) {
        1 + white_behind(text.drop_last())
    } else {
        0
    }
}

/// A text without the white space at its beginning and at its end: the part
/// from its first to its last character that is not white space, and the
/// empty text where it has no such character.
pub open spec fn trimmed(text: Seq<char>) -> Seq<char> {
    if white_before(text) >= text.len() {
        Seq::empty()
    } else {
        text.subrange(white_before(text), text.len() - white_behind(text))
    }
}

/// Removes the white space around a text.
///
/// Trusted: this is `str::trim`, which gives the part of the text that is
/// left when the characters with the Unicode property White_Space are taken
/// from its beginning and from its end.
#[verifier::external_body]
fn trim_text<'a>(text: &'a str) -> (out: &'a str)
    ensures
        out@ == trimmed(text@),
{
    text.trim()
}

/// `c` is a hexadecimal digit, in either case.
pub open spec fn is_hex_digit(c: char) -> bool {
    ('0' <= c <= '9') || ('a' <= c <= 'f') || ('A' <= c <= 'F')
}

/// `text` has the form of a full identifier: 64 hexadecimal digits.
pub open spec fn is_full_id(text: Seq<char>) -> bool {
    text.len() == 64 && forall|i: int| 0 <= i < text.len() ==> is_hex_digit(#[trigger] text[i])
}

spec fn is_hex_byte(b: u8) -> bool {
    (0x30 <= b <= 0x39) || (0x61 <= b <= 0x66) || (0x41 <= b <= 0x46)
}

/// A text is a full identifier exactly where its encoding is 64 bytes, each
/// the ASCII code of a hexadecimal digit.
proof fn lemma_full_id_bytes(text: Seq<char>)
    ensures
        is_full_id(text) <==> (encode_utf8(text).len() == 64 && forall|i: int|
            0 <= i < encode_utf8(text).len() ==> is_hex_byte(#[trigger] encode_utf8(text)[i])),
{
    let bytes = encode_utf8(text);
    if is_full_id(text) {
        assert(is_ascii_chars(text)) by {
            assert forall|i: int| 0 <= i < text.len() implies '\0' <= #[trigger] text[i]
                <= '\u{7f}' by {
                assert(is_hex_digit(text[i]));
            }
        }
        is_ascii_chars_encode_utf8(text);
        assert forall|i: int| 0 <= i < bytes.len() implies is_hex_byte(#[trigger] bytes[i]) by {
            assert(is_hex_digit(text[i]));
            assert(text[i] as u8 == bytes[i]);
        }
    }
    if bytes.len() == 64 && forall|i: int|
        0 <= i < bytes.len() ==> is_hex_byte(#[trigger] bytes[i]) {
        assert(is_ascii_bytes(bytes)) by {
            assert forall|i: int| 0 <= i < bytes.len() implies #[trigger] bytes[i] < 0x80 by {
                assert(is_hex_byte(bytes[i]));
            }
        }
        lemma_ascii_bytes_encode(bytes);
        encode_utf8_decode_utf8(text);
        assert(text == ascii_chars(bytes));
        assert forall|i: int| 0 <= i < text.len() implies is_hex_digit(#[trigger] text[i]) by {
            assert(is_hex_byte(bytes[i]));
            assert(text[i] == bytes[i] as char);
        }
    }
}

/// The commit that a tip text names: the text itself, where it has the form
/// of a full identifier, and none otherwise.
pub fn tip_of_text(text: &str) -> (tip: Option<OObjectId>)
    ensures
        tip matches Some(id) ==> is_full_id(text@) && id@ == text@,
        tip is None ==> !is_full_id(text@),
{
    let bytes = text.as_bytes();
    proof {
        lemma_full_id_bytes(text@);
    }
    if bytes.len() != 64 {
        return None;
    }
    let mut i: usize = 0;
    while i < bytes.len()
        invariant
            i <= bytes@.len(),
            bytes@ == encode_utf8(text@),
            forall|k: int| 0 <= k < i ==> is_hex_byte(#[trigger] bytes@[k]),
        decreases bytes@.len() - i,
    {
        let b = bytes[i];
        let hex = (0x30 <= b && b <= 0x39) || (0x61 <= b && b <= 0x66) || (0x41 <= b && b
            <= 0x46);
        if !hex {
            proof {
                lemma_full_id_bytes(text@);
                assert(!is_hex_byte(bytes@[i as int]));
            }
            return None;
        }
        i = i + 1;
    }
    Some(OObjectId(text.to_owned()))
}

/// The parent of the next commit, from what the tip file holds: the commit
/// that the text names once the white space around it is removed, and none
/// where that is no full identifier.
pub fn head_parent(content: &str) -> (tip: Option<OObjectId>)
    ensures
        tip matches Some(id) ==> is_full_id(trimmed(content@)) && id@ == trimmed(content@),
        tip is None ==> !is_full_id(trimmed(content@)),
{
    tip_of_text(trim_text(content))
}

/// Where a walk of the history starts, from a tip text: at the text itself,
/// and nowhere where the text is empty.
pub fn start_of_text(text: &str) -> (start: Option<OObjectId>)
    ensures
        start matches Some(id) ==> text@.len() > 0 && id@ == text@,
        start is None ==> text@.len() == 0,
{
    if text.is_empty() {
        None
    } else {
        Some(OObjectId(text.to_owned()))
    }
}

/// Where a walk of the history starts, from what the tip file holds: at the
/// text without the white space around it, and nowhere where that is empty.
pub fn head_start(content: &str) -> (start: Option<OObjectId>)
    ensures
        start matches Some(id) ==> trimmed(content@).len() > 0 && id@ == trimmed(content@),
        start is None ==> trimmed(content@).len() == 0,
{
    start_of_text(trim_text(content))
}

} // verus!
