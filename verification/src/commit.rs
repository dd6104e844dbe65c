//! Commit payloads: the lines `tree <id>`, `parent <id>` where there is a
//! parent, `author <text>` and `message <text>`, joined by line breaks.

use crate::byte_seq::{
    find_byte, first_index, join, lemma_first_index, lemma_first_index_after, lemma_join_one,
    lemma_join_push, lemma_lines_join, line_slices, read_back, slice_views, without_last,
};
use crate::error::{CorruptKind, StoreError};
use crate::object::{payload_lines, OObjectId, CARRIAGE_RETURN, NEWLINE, SPACE};
use crate::text::{
    append_bytes, ascii_chars, is_ascii_bytes, lemma_ascii_bytes_encode, lemma_ascii_char_byte,
    lemma_encode_concat, lemma_encode_ends_in_ascii, lemma_encode_scalar_bytes,
    lemma_lines_valid_utf8, lemma_valid_utf8_around_ascii, str_from_utf8,
    string_from_valid_utf8,
};
use crate::tree_entry::lemma_join_valid_utf8;
use vstd::prelude::*;
use vstd::slice::slice_subrange;
use vstd::utf8::{
    decode_utf8, encode_scalar, encode_utf8, encode_utf8_decode_utf8, encode_utf8_valid_utf8,
    valid_utf8, valid_utf8_concat,
};

verus! {

/// A commit as a mathematical value.
pub struct CommitView {
    pub tree: Seq<char>,
    pub parent: Option<Seq<char>>,
    pub author: Seq<char>,
    pub message: Seq<char>,
}

/// A commit: the identifier of a tree, of the parent commit where there is
/// one, an author and a message.
#[derive(Debug, Clone, PartialEq, Eq)]
pub struct Commit {
    pub tree: OObjectId,
    pub parent: Option<OObjectId>,
    pub author: String,
    pub message: String,
}

impl View for Commit {
    type V = CommitView;

    open spec fn view(&self) -> CommitView {
        CommitView {
            tree: self.tree@,
            parent: match self.parent {
                Some(p) => Some(p@),
                None => None,
            },
            author: self.author@,
            message: self.message@,
        }
    }
}

/// The bytes of `tree ` with its space.
pub open spec fn tree_prefix() -> Seq<u8> {
    seq!['t' as u8, 'r' as u8, 'e' as u8, 'e' as u8, ' ' as u8]
}

/// The bytes of `parent ` with its space.
pub open spec fn parent_prefix() -> Seq<u8> {
    seq!['p' as u8, 'a' as u8, 'r' as u8, 'e' as u8, 'n' as u8, 't' as u8, ' ' as u8]
}

/// The bytes of `author ` with its space.
pub open spec fn author_prefix() -> Seq<u8> {
    seq!['a' as u8, 'u' as u8, 't' as u8, 'h' as u8, 'o' as u8, 'r' as u8, ' ' as u8]
}

/// The bytes of `message ` with its space.
pub open spec fn message_prefix() -> Seq<u8> {
    seq!['m' as u8, 'e' as u8, 's' as u8, 's' as u8, 'a' as u8, 'g' as u8, 'e' as u8, ' ' as u8]
}

/// Where the first line break of `text` stands; the length of `text` where
/// it holds none.
pub open spec fn break_at(text: Seq<char>) -> int
    decreases text.len(),
{
    if text.len() == 0 || text[0] == '\n' {
        0
    } else {
        1 + break_at(text.drop_first())
    }
}

/// What `text` holds before its first line break: all of it where it holds none.
pub open spec fn before_break(text: Seq<char>) -> Seq<char> {
    text.take(break_at(text))
}

/// `text` without the carriage return at its end, where it ends in one.
pub open spec fn without_return(text: Seq<char>) -> Seq<char> {
    if text.len() > 0 && text.last() == '\r' {
        text.drop_last()
    } else {
        text
    }
}

/// A text is a single line that is read back as it is wherever it stands:
/// it holds no line break and does not end in a carriage return.
pub open spec fn one_line(text: Seq<char>) -> bool {
    !text.contains('\n') && !(text.len() > 0 && text.last() == '\r')
}

/// The line of a field: the prefix, and the text as it is up to its first
/// line break.
pub open spec fn field_line(prefix: Seq<u8>, text: Seq<char>) -> Seq<u8> {
    prefix + encode_utf8(before_break(text))
}

/// The lines of a commit, in the order in which they are written: tree,
/// parent where there is one, author, message.
pub open spec fn commit_lines(commit: CommitView) -> Seq<Seq<u8>> {
    let tree = seq![field_line(tree_prefix(), commit.tree)];
    let upper = match commit.parent {
        Some(p) => tree.push(field_line(parent_prefix(), p)),
        None => tree,
    };
    upper.push(field_line(author_prefix(), commit.author)).push(
        field_line(message_prefix(), commit.message),
    )
}

/// The payload of a commit: its lines joined by line breaks.
pub open spec fn commit_payload(commit: CommitView) -> Seq<u8> {
    join(commit_lines(commit), NEWLINE)
}

/// What the lines read so far have given for each field, as bytes.
pub struct CommitFields {
    pub tree: Option<Seq<u8>>,
    pub parent: Option<Seq<u8>>,
    pub author: Option<Seq<u8>>,
    pub message: Option<Seq<u8>>,
}

/// The fields after one more line: a line that begins with a field's prefix
/// sets that field to what follows the prefix; any other line changes nothing.
pub open spec fn read_field(fields: CommitFields, line: Seq<u8>) -> CommitFields {
    if tree_prefix().is_prefix_of(line) {
        CommitFields { tree: Some(line.skip(tree_prefix().len() as int)), ..fields }
    } else if parent_prefix().is_prefix_of(line) {
        CommitFields { parent: Some(line.skip(parent_prefix().len() as int)), ..fields }
    } else if author_prefix().is_prefix_of(line) {
        CommitFields { author: Some(line.skip(author_prefix().len() as int)), ..fields }
    } else if message_prefix().is_prefix_of(line) {
        CommitFields { message: Some(line.skip(message_prefix().len() as int)), ..fields }
    } else {
        fields
    }
}

/// The fields that a sequence of lines gives: for each field the last line
/// that sets it decides.
pub open spec fn read_fields(lines: Seq<Seq<u8>>) -> CommitFields
    decreases lines.len(),
{
    if lines.len() == 0 {
        CommitFields { tree: None, parent: None, author: None, message: None }
    } else {
        read_field(read_fields(lines.drop_last()), lines.last())
    }
}

/// The commit that fields make: tree, author and message must be there.
pub open spec fn commit_of_fields(fields: CommitFields) -> Result<CommitView, StoreError> {
    if fields.tree is Some && fields.author is Some && fields.message is Some {
        Ok(
            CommitView {
                tree: decode_utf8(fields.tree->0),
                parent: match fields.parent {
                    Some(p) => Some(decode_utf8(p)),
                    None => None,
                },
                author: decode_utf8(fields.author->0),
                message: decode_utf8(fields.message->0),
            },
        )
    } else {
        Err(StoreError::Corrupt(CorruptKind::MalformedHeader))
    }
}

/// The commit that a payload holds: the payload must be UTF-8, and is read
/// line by line. The lines are what stands between line breaks; a carriage
/// return directly before a line break belongs to the break. The lines may
/// come in any order.
pub open spec fn parse_commit(bytes: Seq<u8>) -> Result<CommitView, StoreError> {
    if !valid_utf8(bytes) {
        Err(StoreError::Corrupt(CorruptKind::InvalidEncoding))
    } else {
        commit_of_fields(read_fields(payload_lines(bytes)))
    }
}

impl CommitView {
    /// The commit is read back as it is written: tree, parent and author are
    /// single lines that do not end in a carriage return, and the message
    /// holds no line break.
    pub open spec fn well_formed(self) -> bool {
        &&& one_line(self.tree)
        &&& self.parent matches Some(p) ==> one_line(p)
        &&& one_line(self.author)
        &&& !self.message.contains('\n')
    }

    /// The commit as it is read back from its payload. Each text is cut at
    /// its first line break. Tree, parent and author are followed by a line
    /// break in the payload, so a carriage return at their end is read as
    /// part of the break; the message, which stands last, keeps its own.
    pub open spec fn read_back(self) -> CommitView {
        CommitView {
            tree: without_return(before_break(self.tree)),
            parent: match self.parent {
                Some(p) => Some(without_return(before_break(p))),
                None => None,
            },
            author: without_return(before_break(self.author)),
            message: before_break(self.message),
        }
    }
}

/// The four prefixes are ASCII, end in a space, and none begins another.
proof fn lemma_prefixes()
    ensures
        is_ascii_bytes(tree_prefix()),
        is_ascii_bytes(parent_prefix()),
        is_ascii_bytes(author_prefix()),
        is_ascii_bytes(message_prefix()),
        !tree_prefix().contains(NEWLINE),
        !parent_prefix().contains(NEWLINE),
        !author_prefix().contains(NEWLINE),
        !message_prefix().contains(NEWLINE),
        tree_prefix()[0] == 0x74 && tree_prefix().len() == 5 && tree_prefix()[4] == SPACE,
        parent_prefix()[0] == 0x70 && parent_prefix().len() == 7 && parent_prefix()[6] == SPACE,
        author_prefix()[0] == 0x61 && author_prefix().len() == 7 && author_prefix()[6] == SPACE,
        message_prefix()[0] == 0x6d && message_prefix().len() == 8 && message_prefix()[7]
            == SPACE,
{
    let t = tree_prefix();
    assert(t[0] == 0x74 && t[1] == 0x72 && t[2] == 0x65 && t[3] == 0x65 && t[4] == 0x20);
    let p = parent_prefix();
    assert(p[0] == 0x70 && p[1] == 0x61 && p[2] == 0x72 && p[3] == 0x65 && p[4] == 0x6e && p[5]
        == 0x74 && p[6] == 0x20);
    let a = author_prefix();
    assert(a[0] == 0x61 && a[1] == 0x75 && a[2] == 0x74 && a[3] == 0x68 && a[4] == 0x6f && a[5]
        == 0x72 && a[6] == 0x20);
    let m = message_prefix();
    assert(m[0] == 0x6d && m[1] == 0x65 && m[2] == 0x73 && m[3] == 0x73 && m[4] == 0x61 && m[5]
        == 0x67 && m[6] == 0x65 && m[7] == 0x20);
}

/// The first line break stands within the text, behind characters that are
/// no line breaks; a text that holds none is all before its break.
pub proof fn lemma_break_at(text: Seq<char>)
    ensures
        0 <= break_at(text) <= text.len(),
        !before_break(text).contains('\n'),
        !text.contains('\n') ==> before_break(text) == text,
    decreases text.len(),
{
    if text.len() == 0 || text[0] == '\n' {
        assert(before_break(text) =~= Seq::<char>::empty());
    } else {
        let rest = text.drop_first();
        lemma_break_at(rest);
        assert(before_break(text) =~= seq![text[0]] + before_break(rest));
        if before_break(text).contains('\n') {
            let cut = before_break(text);
            let i = choose|i: int| 0 <= i < cut.len() && cut[i] == '\n';
            assert(before_break(rest)[i - 1] == '\n');
        }
        if !text.contains('\n') {
            if rest.contains('\n') {
                let j = choose|j: int| 0 <= j < rest.len() && rest[j] == '\n';
                assert(text[j + 1] == '\n');
            }
            assert(before_break(text) =~= text);
        }
    }
}

/// The encoding of what stands before the first line break is what stands
/// before the first line-break byte of the encoding.
pub proof fn lemma_encode_before_break(text: Seq<char>)
    ensures
        encode_utf8(before_break(text)) == encode_utf8(text).take(
            first_index(encode_utf8(text), NEWLINE),
        ),
        !encode_utf8(before_break(text)).contains(NEWLINE),
    decreases text.len(),
{
    let bytes = encode_utf8(text);
    lemma_first_index(bytes, NEWLINE);
    if text.len() == 0 {
        assert(before_break(text) =~= Seq::<char>::empty());
        assert(bytes.take(0) =~= Seq::<u8>::empty());
    } else {
        let first = text[0];
        let rest = text.drop_first();
        let scalar = encode_scalar(first as u32);
        lemma_encode_scalar_bytes(first);
        lemma_ascii_char_byte(first, NEWLINE);
        assert(NEWLINE as char == '\n');
        assert(bytes == scalar + encode_utf8(rest));
        if first == '\n' {
            assert(before_break(text) =~= Seq::<char>::empty());
            assert(bytes[0] == NEWLINE);
            assert(bytes.take(0) =~= Seq::<u8>::empty());
        } else {
            lemma_encode_before_break(rest);
            assert(!scalar.contains(NEWLINE)) by {
                if scalar.contains(NEWLINE) {
                    let i = choose|i: int| 0 <= i < scalar.len() && scalar[i] == NEWLINE;
                    assert(scalar[i] < 0x80);
                }
            }
            lemma_first_index_after(scalar, encode_utf8(rest), NEWLINE);
            lemma_break_at(rest);
            let one = seq![first];
            assert(before_break(text) =~= one + before_break(rest));
            lemma_encode_concat(one, before_break(rest));
            assert(one.drop_first() =~= Seq::<char>::empty());
            assert(encode_utf8(one.drop_first()) =~= Seq::<u8>::empty());
            assert(encode_utf8(one) =~= scalar);
            assert(encode_utf8(before_break(text)) =~= bytes.take(
                first_index(bytes, NEWLINE),
            ));
        }
    }
    let cut = bytes.take(first_index(bytes, NEWLINE));
    if cut.contains(NEWLINE) {
        let i = choose|i: int| 0 <= i < cut.len() && cut[i] == NEWLINE;
        assert(bytes[i] == NEWLINE);
    }
}

/// The line of a field is one line of UTF-8 that begins with the prefix and
/// goes on with the text up to its first line break; and without a carriage
/// return at its end it goes on with that text without one at its end.
proof fn lemma_field_line(prefix: Seq<u8>, text: Seq<char>)
    requires
        is_ascii_bytes(prefix),
        !prefix.contains(NEWLINE),
        prefix.len() > 0,
        prefix.last() == SPACE,
    ensures
        !field_line(prefix, text).contains(NEWLINE),
        valid_utf8(field_line(prefix, text)),
        prefix.is_prefix_of(field_line(prefix, text)),
        field_line(prefix, text).skip(prefix.len() as int) == encode_utf8(before_break(text)),
        field_line(prefix, text)[0] == prefix[0],
        prefix.is_prefix_of(without_last(field_line(prefix, text), CARRIAGE_RETURN)),
        without_last(field_line(prefix, text), CARRIAGE_RETURN).skip(prefix.len() as int)
            == encode_utf8(without_return(before_break(text))),
        without_last(field_line(prefix, text), CARRIAGE_RETURN)[0] == prefix[0],
{
    let cut = before_break(text);
    let body = encode_utf8(cut);
    let line = prefix + body;
    let stripped = without_last(line, CARRIAGE_RETURN);
    lemma_encode_before_break(text);
    encode_utf8_valid_utf8(cut);
    lemma_ascii_bytes_encode(prefix);
    valid_utf8_concat(prefix, body);
    assert(CARRIAGE_RETURN as char == '\r');
    lemma_encode_ends_in_ascii(cut, CARRIAGE_RETURN);
    assert(line.subrange(0, prefix.len() as int) =~= prefix);
    assert(line.skip(prefix.len() as int) =~= body);
    if line.contains(NEWLINE) {
        let i = choose|i: int| 0 <= i < line.len() && line[i] == NEWLINE;
        if i < prefix.len() {
            assert(prefix[i] == NEWLINE);
        } else {
            assert(body[i - prefix.len()] == NEWLINE);
        }
    }
    if body.len() > 0 {
        assert(line.last() == body.last());
        if body.last() == CARRIAGE_RETURN {
            assert(stripped =~= prefix + body.drop_last());
            assert(stripped.subrange(0, prefix.len() as int) =~= prefix);
            assert(stripped.skip(prefix.len() as int) =~= body.drop_last());
        }
    } else {
        assert(line.last() == prefix.last());
    }
}

/// The fields after one line more.
proof fn lemma_read_fields_push(lines: Seq<Seq<u8>>, line: Seq<u8>)
    ensures
        read_fields(lines.push(line)) == read_field(read_fields(lines), line),
{
    assert(lines.push(line).drop_last() =~= lines);
}

/// Decoding the payload of a commit yields the commit as it is read back,
/// and so the commit itself where it is well formed.
pub proof fn lemma_deserialize_serialize_commit(commit: CommitView)
    ensures
        parse_commit(commit_payload(commit)) == Ok::<CommitView, StoreError>(commit.read_back()),
        commit.well_formed() ==> commit.read_back() == commit,
{
    lemma_prefixes();
    let lines = commit_lines(commit);
    let tree = field_line(tree_prefix(), commit.tree);
    let author = field_line(author_prefix(), commit.author);
    let message = field_line(message_prefix(), commit.message);
    let r_tree = without_last(tree, CARRIAGE_RETURN);
    let r_author = without_last(author, CARRIAGE_RETURN);
    lemma_field_line(tree_prefix(), commit.tree);
    lemma_field_line(author_prefix(), commit.author);
    lemma_field_line(message_prefix(), commit.message);
    encode_utf8_decode_utf8(without_return(before_break(commit.tree)));
    encode_utf8_decode_utf8(without_return(before_break(commit.author)));
    encode_utf8_decode_utf8(before_break(commit.message));
    let none = Seq::<Seq<u8>>::empty();
    assert(seq![r_tree] =~= none.push(r_tree));
    lemma_read_fields_push(none, r_tree);
    match commit.parent {
        Some(p) => {
            let parent = field_line(parent_prefix(), p);
            let r_parent = without_last(parent, CARRIAGE_RETURN);
            lemma_field_line(parent_prefix(), p);
            encode_utf8_decode_utf8(without_return(before_break(p)));
            assert(read_back(lines, CARRIAGE_RETURN) =~= seq![r_tree].push(r_parent).push(
                r_author,
            ).push(message));
            lemma_read_fields_push(seq![r_tree], r_parent);
            lemma_read_fields_push(seq![r_tree].push(r_parent), r_author);
            lemma_read_fields_push(seq![r_tree].push(r_parent).push(r_author), message);
        },
        None => {
            assert(read_back(lines, CARRIAGE_RETURN) =~= seq![r_tree].push(r_author).push(
                message,
            ));
            lemma_read_fields_push(seq![r_tree], r_author);
            lemma_read_fields_push(seq![r_tree].push(r_author), message);
        },
    }
    assert forall|i: int| 0 <= i < lines.len() implies !(#[trigger] lines[i]).contains(NEWLINE)
        && valid_utf8(lines[i]) by {}
    lemma_join_valid_utf8(lines);
    lemma_lines_join(lines, NEWLINE, CARRIAGE_RETURN);
    if commit.well_formed() {
        lemma_break_at(commit.tree);
        lemma_break_at(commit.author);
        lemma_break_at(commit.message);
        if commit.parent is Some {
            lemma_break_at(commit.parent->0);
        }
    }
}

fn tree_prefix_bytes() -> (bytes: &'static [u8])
    ensures
        bytes@ == tree_prefix(),
{
    proof {
        reveal_strlit("tree ");
        lemma_prefixes();
        assert("tree "@ =~= ascii_chars(tree_prefix()));
        lemma_ascii_bytes_encode(tree_prefix());
    }
    "tree ".as_bytes()
}

fn parent_prefix_bytes() -> (bytes: &'static [u8])
    ensures
        bytes@ == parent_prefix(),
{
    proof {
        reveal_strlit("parent ");
        lemma_prefixes();
        assert("parent "@ =~= ascii_chars(parent_prefix()));
        lemma_ascii_bytes_encode(parent_prefix());
    }
    "parent ".as_bytes()
}

fn author_prefix_bytes() -> (bytes: &'static [u8])
    ensures
        bytes@ == author_prefix(),
{
    proof {
        reveal_strlit("author ");
        lemma_prefixes();
        assert("author "@ =~= ascii_chars(author_prefix()));
        lemma_ascii_bytes_encode(author_prefix());
    }
    "author ".as_bytes()
}

fn message_prefix_bytes() -> (bytes: &'static [u8])
    ensures
        bytes@ == message_prefix(),
{
    proof {
        reveal_strlit("message ");
        lemma_prefixes();
        assert("message "@ =~= ascii_chars(message_prefix()));
        lemma_ascii_bytes_encode(message_prefix());
    }
    "message ".as_bytes()
}

/// What follows `prefix` in `line`, where `line` begins with it.
fn strip_prefix<'a>(line: &'a [u8], prefix: &[u8]) -> (rest: Option<&'a [u8]>)
    ensures
        rest is Some <==> prefix@.is_prefix_of(line@),
        rest matches Some(r) ==> r@ == line@.skip(prefix@.len() as int),
{
    if line.len() < prefix.len() {
        return None;
    }
    let head = slice_subrange(line, 0, prefix.len());
    if crate::text::bytes_equal(head, prefix) {
        Some(slice_subrange(line, prefix.len(), line.len()))
    } else {
        None
    }
}

/// The bytes of a field that has been read, if it has been.
pub open spec fn field_bytes(field: Option<&[u8]>) -> Option<Seq<u8>> {
    match field {
        Some(bytes) => Some(bytes@),
        None => None,
    }
}

/// A field that has been read is UTF-8.
pub open spec fn field_is_text(field: Option<&[u8]>) -> bool {
    field matches Some(bytes) ==> valid_utf8(bytes@)
}

/// What follows a prefix that ends in a space is UTF-8 where the line is.
proof fn lemma_field_of_line(line: Seq<u8>, prefix: Seq<u8>)
    requires
        valid_utf8(line),
        prefix.is_prefix_of(line),
        prefix.len() > 0,
        prefix.last() == SPACE,
    ensures
        valid_utf8(line.skip(prefix.len() as int)),
{
    let at = prefix.len() - 1;
    assert(line.subrange(0, prefix.len() as int)[at] == line[at]);
    lemma_valid_utf8_around_ascii(line, at);
}

/// Appends what `text` holds before its first line break to `out`.
fn append_before_break(out: &mut Vec<u8>, text: &str)
    ensures
        final(out)@ == old(out)@ + encode_utf8(before_break(text@)),
{
    let bytes = text.as_bytes();
    proof {
        assert(bytes@.skip(0) =~= bytes@);
        lemma_encode_before_break(text@);
    }
    let cut = find_byte(bytes, 0, NEWLINE);
    append_bytes(out, slice_subrange(bytes, 0, cut));
}

impl Commit {
    /// The payload: `tree`, `parent` where there is one, `author` and
    /// `message`, one line each in this order, joined by line breaks.
    ///
    /// A text that holds no line break is written as it is. Of a text that
    /// holds one, only what stands before the first is written, so that no
    /// text can pass for a further line.
    pub fn serialize(&self) -> (bytes: Vec<u8>)
        ensures
            bytes@ == commit_payload(self@),
            parse_commit(bytes@) == Ok::<CommitView, StoreError>(self@.read_back()),
            self@.well_formed() ==> self@.read_back() == self@,
    {
        proof {
            lemma_deserialize_serialize_commit(self@);
        }
        let mut out: Vec<u8> = Vec::new();
        let ghost mut lines = seq![field_line(tree_prefix(), self@.tree)];
        append_bytes(&mut out, tree_prefix_bytes());
        append_before_break(&mut out, self.tree.as_str());
        proof {
            lemma_join_one(lines[0], NEWLINE);
            assert(out@ =~= join(lines, NEWLINE));
        }
        match &self.parent {
            Some(parent) => {
                out.push(NEWLINE);
                append_bytes(&mut out, parent_prefix_bytes());
                append_before_break(&mut out, parent.as_str());
                proof {
                    let line = field_line(parent_prefix(), parent@);
                    lemma_join_push(lines, line, NEWLINE);
                    lines = lines.push(line);
                    assert(out@ =~= join(lines, NEWLINE));
                }
            },
            None => {},
        }
        out.push(NEWLINE);
        append_bytes(&mut out, author_prefix_bytes());
        append_before_break(&mut out, self.author.as_str());
        proof {
            let line = field_line(author_prefix(), self@.author);
            lemma_join_push(lines, line, NEWLINE);
            lines = lines.push(line);
            assert(out@ =~= join(lines, NEWLINE));
        }
        out.push(NEWLINE);
        append_bytes(&mut out, message_prefix_bytes());
        append_before_break(&mut out, self.message.as_str());
        proof {
            let line = field_line(message_prefix(), self@.message);
            lemma_join_push(lines, line, NEWLINE);
            lines = lines.push(line);
            assert(out@ =~= join(lines, NEWLINE));
            assert(lines == commit_lines(self@));
        }
        out
    }

    /// Decodes a commit payload.
    ///
    /// The lines are what stands between line breaks, without a carriage
    /// return that stands directly before the break. They are recognised by
    /// their first word, in any order; where a field is given twice the last
    /// line decides, and lines that begin with no field's word are passed
    /// over. Fails with `InvalidEncoding` where the payload is not UTF-8 and
    /// with `MalformedHeader` where the tree, the author or the message is
    /// missing; a missing parent is no failure.
    pub fn deserialize(bytes: &[u8]) -> (res: Result<Self, StoreError>)
        ensures
            res matches Ok(commit) ==> parse_commit(bytes@) == Ok::<CommitView, StoreError>(
                commit@,
            ),
            res matches Err(e) ==> parse_commit(bytes@) == Err::<CommitView, StoreError>(e),
    {
        if str_from_utf8(bytes).is_none() {
            return Err(StoreError::Corrupt(CorruptKind::InvalidEncoding));
        }
        let lines = line_slices(bytes, NEWLINE, CARRIAGE_RETURN);
        let ghost all = slice_views(lines@);
        let mut tree: Option<&[u8]> = None;
        let mut parent: Option<&[u8]> = None;
        let mut author: Option<&[u8]> = None;
        let mut message: Option<&[u8]> = None;
        let mut i: usize = 0;
        proof {
            lemma_lines_valid_utf8(bytes@, NEWLINE, CARRIAGE_RETURN);
            assert(all.take(0) =~= Seq::<Seq<u8>>::empty());
        }
        while i < lines.len()
            invariant
                i <= lines@.len(),
                all == slice_views(lines@),
                forall|k: int| 0 <= k < all.len() ==> valid_utf8(#[trigger] all[k]),
                read_fields(all.take(i as int)) == (CommitFields {
                    tree: field_bytes(tree),
                    parent: field_bytes(parent),
                    author: field_bytes(author),
                    message: field_bytes(message),
                }),
                field_is_text(tree),
                field_is_text(parent),
                field_is_text(author),
                field_is_text(message),
            decreases lines@.len() - i,
        {
            let line = lines[i];
            proof {
                lemma_prefixes();
                assert(all[i as int] == line@);
                assert(all.take(i + 1) =~= all.take(i as int).push(line@));
                lemma_read_fields_push(all.take(i as int), line@);
                if tree_prefix().is_prefix_of(line@) {
                    lemma_field_of_line(line@, tree_prefix());
                }
                if parent_prefix().is_prefix_of(line@) {
                    lemma_field_of_line(line@, parent_prefix());
                }
                if author_prefix().is_prefix_of(line@) {
                    lemma_field_of_line(line@, author_prefix());
                }
                if message_prefix().is_prefix_of(line@) {
                    lemma_field_of_line(line@, message_prefix());
                }
            }
            match strip_prefix(line, tree_prefix_bytes()) {
                Some(rest) => {
                    tree = Some(rest);
                },
                None => match strip_prefix(line, parent_prefix_bytes()) {
                    Some(rest) => {
                        parent = Some(rest);
                    },
                    None => match strip_prefix(line, author_prefix_bytes()) {
                        Some(rest) => {
                            author = Some(rest);
                        },
                        None => match strip_prefix(line, message_prefix_bytes()) {
                            Some(rest) => {
                                message = Some(rest);
                            },
                            None => {},
                        },
                    },
                },
            }
            i = i + 1;
        }
        proof {
            assert(all.take(i as int) =~= all);
        }
        match (tree, author, message) {
            (Some(tree), Some(author), Some(message)) => {
                let parent = match parent {
                    Some(p) => Some(OObjectId(string_from_valid_utf8(p))),
                    None => None,
                };
                Ok(
                    Commit {
                        tree: OObjectId(string_from_valid_utf8(tree)),
                        parent,
                        author: string_from_valid_utf8(author),
                        message: string_from_valid_utf8(message),
                    },
                )
            },
            _ => Err(StoreError::Corrupt(CorruptKind::MalformedHeader)),
        }
    }
}

} // verus!
