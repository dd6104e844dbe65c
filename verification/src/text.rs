//! Text as bytes: the bridge between `String` values and their UTF-8 encoding.

use vstd::prelude::*;
use vstd::utf8::*;

verus! {

/// Reads bytes as UTF-8 text.
///
/// Trusted: this is `std::str::from_utf8`, which succeeds exactly on
/// well-formed UTF-8 and then yields the text whose encoding is the input.
#[verifier::external_body]
pub(crate) fn str_from_utf8<'a>(bytes: &'a [u8]) -> (res: Option<&'a str>)
    ensures
        res is Some <==> valid_utf8(bytes@),
        res matches Some(s) ==> encode_utf8(s@) == bytes@,
{
    match std::str::from_utf8(bytes) {
        Ok(s) => Some(s),
        Err(_) => None,
    }
}

/// Every byte of `bytes` is below `0x80`.
pub open spec fn is_ascii_bytes(bytes: Seq<u8>) -> bool {
    forall|i: int| 0 <= i < bytes.len() ==> #[trigger] bytes[i] < 0x80
}

/// The characters that stand for a sequence of ASCII bytes.
pub open spec fn ascii_chars(bytes: Seq<u8>) -> Seq<char> {
    Seq::new(bytes.len(), |i: int| bytes[i] as char)
}

/// ASCII bytes are the UTF-8 encoding of the characters with the same codes.
pub proof fn lemma_ascii_bytes_encode(bytes: Seq<u8>)
    requires
        is_ascii_bytes(bytes),
    ensures
        is_ascii_chars(ascii_chars(bytes)),
        encode_utf8(ascii_chars(bytes)) == bytes,
        valid_utf8(bytes),
        decode_utf8(bytes) == ascii_chars(bytes),
{
    let chars = ascii_chars(bytes);
    assert forall|i: int| 0 <= i < chars.len() implies '\0' <= #[trigger] chars[i] <= '\u{7f}' by {
        assert(bytes[i] < 0x80);
    }
    is_ascii_chars_encode_utf8(chars);
    assert forall|i: int| 0 <= i < bytes.len() implies encode_utf8(chars)[i] == bytes[i] by {
        assert(chars[i] as u8 == encode_utf8(chars)[i]);
        assert(bytes[i] < 0x80);
    }
    assert(encode_utf8(chars) =~= bytes);
    encode_utf8_valid_utf8(chars);
    encode_utf8_decode_utf8(chars);
}

/// The encoding of a character below `0x80` is the one byte with its code;
/// every byte of the encoding of any other character is `0x80` or above.
pub proof fn lemma_encode_scalar_bytes(c: char)
    ensures
        (c as u32) < 0x80 ==> encode_scalar(c as u32) == seq![c as u8],
        (c as u32) >= 0x80 ==> forall|i: int|
            0 <= i < encode_scalar(c as u32).len() ==> #[trigger] encode_scalar(c as u32)[i]
                >= 0x80,
        1 <= encode_scalar(c as u32).len() <= 4,
{
    let v = c as u32;
    char_is_scalar(c);
    if v < 0x80 {
        assert((v & 0x7F) as u8 == v as u8) by (bit_vector)
            requires
                v < 0x80,
        ;
        assert(encode_scalar(v) =~= seq![c as u8]);
    } else {
        let a = ((v >> 6) & 0x1F) as u8;
        let b = ((v >> 12) & 0x0F) as u8;
        let d = ((v >> 18) & 0x7) as u8;
        let e = (v & 0x3F) as u8;
        let f = ((v >> 6) & 0x3F) as u8;
        let g = ((v >> 12) & 0x3F) as u8;
        assert(0xC0u8 | a >= 0x80) by (bit_vector);
        assert(0xE0u8 | b >= 0x80) by (bit_vector);
        assert(0xF0u8 | d >= 0x80) by (bit_vector);
        assert(0x80u8 | e >= 0x80) by (bit_vector);
        assert(0x80u8 | f >= 0x80) by (bit_vector);
        assert(0x80u8 | g >= 0x80) by (bit_vector);
    }
}

/// A character below `0x80` and a byte below `0x80` stand for each other
/// exactly where they have the same code.
pub proof fn lemma_ascii_char_byte(c: char, b: u8)
    requires
        (c as u32) < 0x80 || b < 0x80,
    ensures
        (c as u8 == b && (c as u32) < 0x80) <==> c == b as char,
{
    let v = c as u32;
    if c as u8 == b && v < 0x80 {
        assert(v as u8 == b);
        assert(v == b as u32);
        char_u32_cast(c, v);
    }
    if c == b as char {
        assert(v == b as u32);
    }
}

/// Encoding distributes over concatenation.
pub proof fn lemma_encode_concat(a: Seq<char>, b: Seq<char>)
    ensures
        encode_utf8(a + b) == encode_utf8(a) + encode_utf8(b),
    decreases a.len(),
{
    if a.len() == 0 {
        assert(a + b =~= b);
        assert(encode_utf8(a) + encode_utf8(b) =~= encode_utf8(b));
    } else {
        lemma_encode_concat(a.drop_first(), b);
        assert((a + b).drop_first() =~= a.drop_first() + b);
        assert((a + b)[0] == a[0]);
        assert(encode_utf8(a + b) =~= encode_utf8(a) + encode_utf8(b));
    }
}

/// A byte below `0x80` occurs in the encoding of a text exactly where the
/// character with that code occurs in the text.
pub proof fn lemma_encode_contains_ascii(text: Seq<char>, b: u8)
    requires
        b < 0x80,
    ensures
        encode_utf8(text).contains(b) <==> text.contains(b as char),
    decreases text.len(),
{
    let bytes = encode_utf8(text);
    if text.len() == 0 {
    } else {
        let first = encode_scalar(text[0] as u32);
        let rest = text.drop_first();
        lemma_encode_scalar_bytes(text[0]);
        lemma_encode_contains_ascii(rest, b);
        assert(bytes == first + encode_utf8(rest));
        if bytes.contains(b) {
            let i = choose|i: int| 0 <= i < bytes.len() && bytes[i] == b;
            if i < first.len() {
                assert(first[i] == b);
                assert((text[0] as u32) < 0x80);
                lemma_ascii_char_byte(text[0], b);
            } else {
                assert(encode_utf8(rest)[i - first.len()] == b);
                assert(encode_utf8(rest).contains(b));
                let j = choose|j: int| 0 <= j < rest.len() && rest[j] == b as char;
                assert(text[j + 1] == b as char);
            }
        }
        if text.contains(b as char) {
            let j = choose|j: int| 0 <= j < text.len() && text[j] == b as char;
            if j == 0 {
                lemma_ascii_char_byte(text[0], b);
                assert(first[0] == b);
                assert(bytes[0] == b);
            } else {
                assert(rest[j - 1] == b as char);
                assert(rest.contains(b as char));
                let tail = encode_utf8(rest);
                let i = choose|i: int| 0 <= i < tail.len() && tail[i] == b;
                assert(bytes[first.len() + i] == b);
            }
        }
    }
}

/// The encoding of a text ends in a byte below `0x80` exactly where the
/// text ends in the character with that code.
pub proof fn lemma_encode_ends_in_ascii(text: Seq<char>, b: u8)
    requires
        b < 0x80,
    ensures
        (encode_utf8(text).len() > 0 && encode_utf8(text).last() == b) <==> (text.len() > 0
            && text.last() == b as char),
        text.len() > 0 && text.last() == b as char ==> encode_utf8(text).drop_last()
            == encode_utf8(text.drop_last()),
{
    if text.len() > 0 {
        let init = text.drop_last();
        let last = text.last();
        lemma_encode_concat(init, seq![last]);
        assert(init + seq![last] =~= text);
        let one = seq![last];
        assert(one.drop_first() =~= Seq::<char>::empty());
        assert(encode_utf8(one.drop_first()) =~= Seq::<u8>::empty());
        assert(encode_utf8(one) == encode_scalar(one[0] as u32) + encode_utf8(one.drop_first()));
        assert(encode_utf8(one) =~= encode_scalar(last as u32));
        lemma_encode_scalar_bytes(last);
        let tail = encode_scalar(last as u32);
        assert(encode_utf8(text).last() == tail.last());
        if tail.last() == b {
            assert((last as u32) < 0x80);
        }
        lemma_ascii_char_byte(last, b);
        if last == b as char {
            assert(tail =~= seq![b]);
            assert(encode_utf8(text).drop_last() =~= encode_utf8(init));
        }
    }
}

/// Well-formed UTF-8 stays well-formed on both sides of a byte below `0x80`.
pub proof fn lemma_valid_utf8_around_ascii(bytes: Seq<u8>, i: int)
    requires
        valid_utf8(bytes),
        0 <= i < bytes.len(),
        bytes[i] < 0x80,
    ensures
        valid_utf8(bytes.take(i)),
        valid_utf8(bytes.skip(i + 1)),
{
    is_char_boundary_iff_not_is_continuation_byte(bytes, i);
    valid_utf8_split(bytes, i);
    let tail = bytes.subrange(i, bytes.len() as int);
    assert(tail[0] == bytes[i]);
    assert(valid_first_scalar(tail));
    assert(pop_first_scalar(tail) =~= bytes.skip(i + 1));
}

/// Well-formed UTF-8 stays well-formed without a byte below `0x80` at its end.
pub proof fn lemma_valid_utf8_without_last(part: Seq<u8>, e: u8)
    requires
        valid_utf8(part),
        e < 0x80,
    ensures
        valid_utf8(crate::byte_seq::without_last(part, e)),
{
    if part.len() > 0 && part.last() == e {
        lemma_valid_utf8_around_ascii(part, part.len() - 1);
        assert(part.take(part.len() - 1) =~= part.drop_last());
    }
}

/// The lines of well-formed UTF-8 are well-formed UTF-8, where the bytes
/// that end a line are below `0x80`.
pub proof fn lemma_lines_valid_utf8(bytes: Seq<u8>, d: u8, e: u8)
    requires
        valid_utf8(bytes),
        d < 0x80,
        e < 0x80,
    ensures
        forall|i: int|
            0 <= i < crate::byte_seq::lines(bytes, d, e).len() ==> valid_utf8(
                #[trigger] crate::byte_seq::lines(bytes, d, e)[i],
            ),
    decreases bytes.len(),
{
    let all = crate::byte_seq::lines(bytes, d, e);
    let k = crate::byte_seq::first_index(bytes, d);
    crate::byte_seq::lemma_first_index(bytes, d);
    if 0 <= k < bytes.len() {
        let rest = crate::byte_seq::lines(bytes.skip(k + 1), d, e);
        lemma_valid_utf8_around_ascii(bytes, k);
        lemma_valid_utf8_without_last(bytes.take(k), e);
        lemma_lines_valid_utf8(bytes.skip(k + 1), d, e);
        assert forall|i: int| 0 <= i < all.len() implies valid_utf8(#[trigger] all[i]) by {
            if i > 0 {
                assert(all[i] == rest[i - 1]);
            }
        }
    }
}

/// Builds the string that a sequence of ASCII bytes spells.
pub(crate) fn string_from_ascii(bytes: &[u8]) -> (res: String)
    requires
        is_ascii_bytes(bytes@),
    ensures
        res@ == ascii_chars(bytes@),
{
    proof {
        lemma_ascii_bytes_encode(bytes@);
    }
    string_from_valid_utf8(bytes)
}

/// Builds the string that well-formed UTF-8 bytes encode.
pub(crate) fn string_from_valid_utf8(bytes: &[u8]) -> (res: String)
    requires
        valid_utf8(bytes@),
    ensures
        res@ == decode_utf8(bytes@),
        encode_utf8(res@) == bytes@,
{
    match str_from_utf8(bytes) {
        Some(s) => {
            proof {
                encode_utf8_decode_utf8(s@);
            }
            s.to_owned()
        },
        None => {
            proof {
                assert(false);
            }
            String::new()
        },
    }
}

/// Appends a copy of `src` to `out`.
pub(crate) fn append_bytes(out: &mut Vec<u8>, src: &[u8])
    ensures
        final(out)@ == old(out)@ + src@,
{
    out.extend_from_slice(src);
    assert(final(out)@ =~= old(out)@ + src@);
}

/// Whether two byte slices hold the same bytes.
pub(crate) fn bytes_equal(a: &[u8], b: &[u8]) -> (same: bool)
    ensures
        same == (a@ == b@),
{
    if a.len() != b.len() {
        return false;
    }
    let mut i: usize = 0;
    while i < a.len()
        invariant
            i <= a@.len(),
            a@.len() == b@.len(),
            forall|k: int| 0 <= k < i ==> a@[k] == b@[k],
        decreases a@.len() - i,
    {
        if a[i] != b[i] {
            return false;
        }
        i = i + 1;
    }
    assert(a@ =~= b@);
    true
}

} // verus!
