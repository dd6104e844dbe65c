//! Objects and their framing: a kind word, a space, the payload's length in
//! decimal, a null byte, and the payload.

use crate::byte_seq::{
    find_byte, first_index, lemma_first_index, lemma_first_index_after, lines,
};
use crate::decimal::{
    decimal, lemma_decimal_digits, lemma_decimal_free_of, parse_decimal, push_decimal,
    read_decimal,
};
use crate::error::{CorruptKind, StoreError};
use crate::text::{
    append_bytes, ascii_chars, bytes_equal, is_ascii_bytes, lemma_ascii_bytes_encode,
    str_from_utf8,
};
use vstd::prelude::*;
use vstd::slice::{slice_subrange, slice_to_vec};
use vstd::utf8::valid_utf8;

pub use crate::commit::Commit;
pub use crate::tree_entry::TreeEntry;

verus! {

/// The byte that ends an object's header.
pub const NUL: u8 = 0;

/// The byte between the tokens of a header or of an entry line.
pub const SPACE: u8 = 0x20;

/// The byte between the lines of a tree or commit payload.
pub const NEWLINE: u8 = 0x0a;

/// The byte that, directly before a line break, belongs to the line's end.
pub const CARRIAGE_RETURN: u8 = 0x0d;

/// The lines of a payload: what stands between line breaks, where a
/// carriage return directly before a line break belongs to the break.
pub open spec fn payload_lines(bytes: Seq<u8>) -> Seq<Seq<u8>> {
    lines(bytes, NEWLINE, CARRIAGE_RETURN)
}

/// The kind of an object.
#[derive(Debug, Clone, Copy, PartialEq, Eq, Structural)]
pub enum OObjectType {
    Blob,
    Tree,
    Commit,
}

impl OObjectType {
    /// The kind word as ASCII bytes: `blob`, `tree` or `commit`.
    pub open spec fn word(self) -> Seq<u8> {
        match self {
            OObjectType::Blob => seq!['b' as u8, 'l' as u8, 'o' as u8, 'b' as u8],
            OObjectType::Tree => seq!['t' as u8, 'r' as u8, 'e' as u8, 'e' as u8],
            OObjectType::Commit => seq![
                'c' as u8,
                'o' as u8,
                'm' as u8,
                'm' as u8,
                'i' as u8,
                't' as u8,
            ],
        }
    }

    /// The kind word as text.
    pub open spec fn word_text(self) -> Seq<char> {
        ascii_chars(self.word())
    }

    /// A kind word is ASCII letters: it holds no null byte, space, line break
    /// or digit, and the three words differ.
    pub proof fn lemma_word(self)
        ensures
            is_ascii_bytes(self.word()),
            forall|i: int| 0 <= i < self.word().len() ==> 0x61 <= #[trigger] self.word()[i] <= 0x7a,
            !self.word().contains(NUL),
            !self.word().contains(SPACE),
            !self.word().contains(NEWLINE),
            kind_of_word(self.word()) == Some(self),
    {
        let w = self.word();
        assert forall|i: int| 0 <= i < w.len() implies 0x61 <= #[trigger] w[i] <= 0x7a by {
            match self {
                OObjectType::Blob => {
                    assert(w[0] == 0x62 && w[1] == 0x6c && w[2] == 0x6f && w[3] == 0x62);
                },
                OObjectType::Tree => {
                    assert(w[0] == 0x74 && w[1] == 0x72 && w[2] == 0x65 && w[3] == 0x65);
                },
                OObjectType::Commit => {
                    assert(w[0] == 0x63 && w[1] == 0x6f && w[2] == 0x6d && w[3] == 0x6d && w[4]
                        == 0x69 && w[5] == 0x74);
                },
            }
        }
        assert(OObjectType::Blob.word()[0] == 0x62);
        assert(OObjectType::Tree.word()[0] == 0x74);
        assert(OObjectType::Commit.word()[0] == 0x63);
    }

    /// The kind word: `"blob"`, `"tree"` or `"commit"`.
    #[must_use]
    pub fn as_str(&self) -> (s: &'static str)
        ensures
            s@ == self.word_text(),
    {
        match self {
            OObjectType::Blob => {
                proof {
                    reveal_strlit("blob");
                    assert("blob"@ =~= self.word_text());
                }
                "blob"
            },
            OObjectType::Tree => {
                proof {
                    reveal_strlit("tree");
                    assert("tree"@ =~= self.word_text());
                }
                "tree"
            },
            OObjectType::Commit => {
                proof {
                    reveal_strlit("commit");
                    assert("commit"@ =~= self.word_text());
                }
                "commit"
            },
        }
    }

    /// The kind word as bytes.
    pub(crate) fn word_bytes(&self) -> (bytes: &'static [u8])
        ensures
            bytes@ == self.word(),
    {
        proof {
            self.lemma_word();
            lemma_ascii_bytes_encode(self.word());
        }
        self.as_str().as_bytes()
    }
}

/// The kind that a word names, if it names one.
pub open spec fn kind_of_word(word: Seq<u8>) -> Option<OObjectType> {
    if word == OObjectType::Blob.word() {
        Some(OObjectType::Blob)
    } else if word == OObjectType::Tree.word() {
        Some(OObjectType::Tree)
    } else if word == OObjectType::Commit.word() {
        Some(OObjectType::Commit)
    } else {
        None
    }
}

/// Reads a kind word.
pub(crate) fn read_kind(word: &[u8]) -> (kind: Option<OObjectType>)
    ensures
        kind == kind_of_word(word@),
{
    if bytes_equal(word, OObjectType::Blob.word_bytes()) {
        Some(OObjectType::Blob)
    } else if bytes_equal(word, OObjectType::Tree.word_bytes()) {
        Some(OObjectType::Tree)
    } else if bytes_equal(word, OObjectType::Commit.word_bytes()) {
        Some(OObjectType::Commit)
    } else {
        None
    }
}

/// The identifier of an object: the hexadecimal spelling of the digest of
/// its serialized bytes.
#[derive(Debug, Clone, PartialEq, Eq)]
pub struct OObjectId(pub String);

impl View for OObjectId {
    type V = Seq<char>;

    open spec fn view(&self) -> Seq<char> {
        self.0@
    }
}

impl OObjectId {
    /// The identifier's text.
    #[must_use]
    pub fn as_str(&self) -> (s: &str)
        ensures
            s@ == self@,
    {
        self.0.as_str()
    }
}

/// An object as a mathematical value: its kind and its payload.
pub struct ObjectView {
    pub kind: OObjectType,
    pub data: Seq<u8>,
}

/// An object: a kind and a payload of raw bytes.
#[derive(Debug, PartialEq, Eq)]
pub struct OObject {
    pub kind: OObjectType,
    pub data: Vec<u8>,
}

impl View for OObject {
    type V = ObjectView;

    open spec fn view(&self) -> ObjectView {
        ObjectView { kind: self.kind, data: self.data@ }
    }
}

/// The header of an object of the given kind with a payload of `len` bytes.
pub open spec fn header(kind: OObjectType, len: nat) -> Seq<u8> {
    kind.word() + seq![SPACE] + decimal(len)
}

/// The serialized form of an object: header, null byte, payload.
pub open spec fn frame(object: ObjectView) -> Seq<u8> {
    header(object.kind, object.data.len()) + seq![NUL] + object.data
}

/// What a header declares: the kind and the payload length.
///
/// The header must be UTF-8 and hold exactly one space. Before the space
/// stands a kind word; after it the length, as an optional `+` and decimal
/// digits, which must fit in `usize`.
pub open spec fn parse_header(header: Seq<u8>) -> Result<(OObjectType, nat), StoreError> {
    let space = first_index(header, SPACE);
    if !valid_utf8(header) {
        Err(StoreError::Corrupt(CorruptKind::InvalidEncoding))
    } else if space >= header.len() || header.skip(space + 1).contains(SPACE) {
        Err(StoreError::Corrupt(CorruptKind::MalformedHeader))
    } else {
        match kind_of_word(header.take(space)) {
            None => Err(StoreError::Corrupt(CorruptKind::UnknownKind)),
            Some(kind) => match parse_decimal(header.skip(space + 1)) {
                Some(len) => if len <= usize::MAX {
                    Ok((kind, len))
                } else {
                    Err(StoreError::Corrupt(CorruptKind::InvalidEncoding))
                },
                None => Err(StoreError::Corrupt(CorruptKind::InvalidEncoding)),
            },
        }
    }
}

/// The object that serialized bytes hold, or why they hold none.
///
/// The header ends at the first null byte; what follows is the payload,
/// which must be exactly as long as the header declares.
pub open spec fn parse_object(bytes: Seq<u8>) -> Result<ObjectView, StoreError> {
    let nul = first_index(bytes, NUL);
    if nul >= bytes.len() {
        Err(StoreError::Corrupt(CorruptKind::MissingDelimiter))
    } else {
        match parse_header(bytes.take(nul)) {
            Err(e) => Err(e),
            Ok((kind, len)) => if bytes.skip(nul + 1).len() == len {
                Ok(ObjectView { kind, data: bytes.skip(nul + 1) })
            } else {
                Err(StoreError::Corrupt(CorruptKind::SizeMismatch))
            },
        }
    }
}

/// A header holds no null byte and declares the kind and length it was made from.
pub proof fn lemma_parse_header(kind: OObjectType, len: nat)
    requires
        len <= usize::MAX,
    ensures
        !header(kind, len).contains(NUL),
        parse_header(header(kind, len)) == Ok::<(OObjectType, nat), StoreError>((kind, len)),
{
    let word = kind.word();
    let digits = decimal(len);
    let h = header(kind, len);
    kind.lemma_word();
    lemma_decimal_digits(len);
    lemma_decimal_free_of(len, NUL);
    lemma_decimal_free_of(len, SPACE);
    assert(h =~= word + (seq![SPACE] + digits));
    assert forall|i: int| 0 <= i < h.len() implies #[trigger] h[i] < 0x80 && h[i] != NUL by {
        if i < word.len() {
            assert(h[i] == word[i]);
        } else if i == word.len() {
        } else {
            assert(h[i] == digits[i - word.len() - 1]);
            assert(crate::decimal::is_digit(digits[i - word.len() - 1]));
        }
    }
    lemma_ascii_bytes_encode(h);
    lemma_first_index_after(word, seq![SPACE] + digits, SPACE);
    assert((seq![SPACE] + digits)[0] == SPACE);
    assert(first_index(seq![SPACE] + digits, SPACE) == 0);
    assert(h.take(word.len() as int) =~= word);
    assert(h.skip(word.len() as int + 1) =~= digits);
    crate::decimal::lemma_parse_decimal_of_decimal(len);
}

/// What decoding makes of a header, a null byte and any payload: the object,
/// where the payload is as long as the header says, and `SizeMismatch` otherwise.
pub proof fn lemma_parse_framed(kind: OObjectType, len: nat, data: Seq<u8>)
    requires
        len <= usize::MAX,
    ensures
        parse_object(header(kind, len) + seq![NUL] + data) == if data.len() == len {
            Ok::<ObjectView, StoreError>(ObjectView { kind, data })
        } else {
            Err::<ObjectView, StoreError>(StoreError::Corrupt(CorruptKind::SizeMismatch))
        },
{
    let h = header(kind, len);
    let bytes = h + seq![NUL] + data;
    lemma_parse_header(kind, len);
    assert(bytes =~= h + (seq![NUL] + data));
    lemma_first_index_after(h, seq![NUL] + data, NUL);
    assert((seq![NUL] + data)[0] == NUL);
    assert(first_index(seq![NUL] + data, NUL) == 0);
    assert(bytes.take(h.len() as int) =~= h);
    assert(bytes.skip(h.len() as int + 1) =~= data);
}

/// Decoding the serialized form of an object yields the object.
pub proof fn lemma_deserialize_serialize(object: ObjectView)
    requires
        object.data.len() <= usize::MAX,
    ensures
        parse_object(frame(object)) == Ok::<ObjectView, StoreError>(object),
{
    lemma_parse_framed(object.kind, object.data.len(), object.data);
}

/// A serialized object that has lost the last byte of its payload decodes to
/// `SizeMismatch`, never to an object.
pub proof fn lemma_truncated_payload(object: ObjectView)
    requires
        0 < object.data.len() <= usize::MAX,
    ensures
        parse_object(frame(object).drop_last()) == Err::<ObjectView, StoreError>(
            StoreError::Corrupt(CorruptKind::SizeMismatch),
        ),
{
    let h = header(object.kind, object.data.len());
    assert(frame(object).drop_last() =~= h + seq![NUL] + object.data.drop_last());
    lemma_parse_framed(object.kind, object.data.len(), object.data.drop_last());
}

/// Reads a header.
pub(crate) fn read_header(header: &[u8]) -> (res: Result<(OObjectType, usize), StoreError>)
    ensures
        res matches Ok((kind, len)) ==> parse_header(header@) == Ok::<
            (OObjectType, nat),
            StoreError,
        >((kind, len as nat)),
        res matches Err(e) ==> parse_header(header@) == Err::<(OObjectType, nat), StoreError>(e),
{
    if str_from_utf8(header).is_none() {
        return Err(StoreError::Corrupt(CorruptKind::InvalidEncoding));
    }
    proof {
        assert(header@.skip(0) =~= header@);
    }
    let space = find_byte(header, 0, SPACE);
    if space >= header.len() {
        return Err(StoreError::Corrupt(CorruptKind::MalformedHeader));
    }
    let second = find_byte(header, space + 1, SPACE);
    proof {
        lemma_first_index(header@.skip(space + 1), SPACE);
    }
    if second < header.len() {
        return Err(StoreError::Corrupt(CorruptKind::MalformedHeader));
    }
    let word = slice_subrange(header, 0, space);
    let digits = slice_subrange(header, space + 1, header.len());
    assert(word@ == header@.take(space as int));
    assert(digits@ == header@.skip(space + 1));
    match read_kind(word) {
        None => Err(StoreError::Corrupt(CorruptKind::UnknownKind)),
        Some(kind) => match read_decimal(digits) {
            Some(len) => Ok((kind, len)),
            None => Err(StoreError::Corrupt(CorruptKind::InvalidEncoding)),
        },
    }
}

impl OObject {
    /// A blob with the given content.
    #[must_use]
    pub fn new_blob(data: Vec<u8>) -> (object: Self)
        ensures
            object@ == (ObjectView { kind: OObjectType::Blob, data: data@ }),
    {
        Self { kind: OObjectType::Blob, data }
    }

    /// A tree with the given payload.
    #[must_use]
    pub fn new_tree(data: Vec<u8>) -> (object: Self)
        ensures
            object@ == (ObjectView { kind: OObjectType::Tree, data: data@ }),
    {
        Self { kind: OObjectType::Tree, data }
    }

    /// A commit with the given payload.
    #[must_use]
    pub fn new_commit(data: Vec<u8>) -> (object: Self)
        ensures
            object@ == (ObjectView { kind: OObjectType::Commit, data: data@ }),
    {
        Self { kind: OObjectType::Commit, data }
    }

    /// The serialized form: the header, a null byte, the payload.
    #[must_use]
    pub fn serialize(&self) -> (bytes: Vec<u8>)
        ensures
            bytes@ == frame(self@),
            parse_object(bytes@) == Ok::<ObjectView, StoreError>(self@),
    {
        let mut result: Vec<u8> = Vec::new();
        append_bytes(&mut result, self.kind.word_bytes());
        result.push(SPACE);
        push_decimal(&mut result, self.data.len());
        result.push(NUL);
        append_bytes(&mut result, self.data.as_slice());
        proof {
            assert(result@ =~= frame(self@));
            lemma_deserialize_serialize(self@);
        }
        result
    }

    /// Decodes serialized bytes.
    ///
    /// Fails with `MissingDelimiter` where no null byte ends the header, with
    /// `InvalidEncoding` where the header is not UTF-8 or its length is no
    /// number that fits, with `MalformedHeader` where the header is not two
    /// tokens around one space, with `UnknownKind` where the first token is no
    /// kind word, and with `SizeMismatch` where the payload is not as long as
    /// declared.
    pub fn deserialize(bytes: &[u8]) -> (res: Result<Self, StoreError>)
        ensures
            res matches Ok(object) ==> parse_object(bytes@) == Ok::<ObjectView, StoreError>(
                object@,
            ),
            res matches Err(e) ==> parse_object(bytes@) == Err::<ObjectView, StoreError>(e),
    {
        proof {
            assert(bytes@.skip(0) =~= bytes@);
        }
        let nul = find_byte(bytes, 0, NUL);
        if nul >= bytes.len() {
            return Err(StoreError::Corrupt(CorruptKind::MissingDelimiter));
        }
        let head = slice_subrange(bytes, 0, nul);
        let data = slice_subrange(bytes, nul + 1, bytes.len());
        assert(head@ == bytes@.take(nul as int));
        assert(data@ == bytes@.skip(nul + 1));
        match read_header(head) {
            Err(e) => Err(e),
            Ok((kind, len)) => {
                if data.len() != len {
                    return Err(StoreError::Corrupt(CorruptKind::SizeMismatch));
                }
                Ok(Self { kind, data: slice_to_vec(data) })
            },
        }
    }
}

} // verus!
