//! Tree payloads: one line per entry, `<kind> <id> <name>`, the lines in
//! ascending order of name and joined by line breaks.

use crate::byte_seq::{
    ends_in, find_byte, first_index, inner_parts_end_clean, join, lemma_first_index_after,
    lemma_lines_join, line_slices, parts_free_of, slice_views,
};
use crate::error::{CorruptKind, StoreError};
use crate::object::{
    payload_lines, OObjectId, OObjectType, CARRIAGE_RETURN, NEWLINE, SPACE,
};
use crate::text::{
    append_bytes, bytes_equal, lemma_ascii_bytes_encode, lemma_encode_concat,
    lemma_encode_contains_ascii, lemma_encode_ends_in_ascii, lemma_lines_valid_utf8,
    lemma_valid_utf8_around_ascii, str_from_utf8, string_from_valid_utf8,
};
use crate::tree_order::{
    bytes_le, lemma_insertion_point, lemma_sort_entries, lemma_sort_entries_members,
    lemma_sort_entries_order_independent, name_le, names_identify, sort_entries,
};
use vstd::prelude::*;
use vstd::slice::slice_subrange;
use vstd::utf8::{
    decode_utf8, encode_utf8, encode_utf8_decode_utf8, encode_utf8_valid_utf8, valid_utf8,
    valid_utf8_concat,
};

verus! {

/// A tree entry as a mathematical value.
pub struct TreeEntryView {
    pub kind: OObjectType,
    pub hash: Seq<char>,
    pub name: Seq<char>,
}

/// One entry of a tree: the kind and identifier of a child object, and the
/// name under which the tree holds it.
#[derive(Debug, Clone, PartialEq, Eq)]
pub struct TreeEntry {
    pub kind: OObjectType,
    pub hash: OObjectId,
    pub name: String,
}

impl View for TreeEntry {
    type V = TreeEntryView;

    open spec fn view(&self) -> TreeEntryView {
        TreeEntryView { kind: self.kind, hash: self.hash@, name: self.name@ }
    }
}

/// The entries of a list as mathematical values.
pub open spec fn entry_views(entries: Seq<TreeEntry>) -> Seq<TreeEntryView> {
    entries.map_values(|e: TreeEntry| e@)
}

/// The line of an entry as text: kind word, identifier and name, with one
/// space after each of the first two.
pub open spec fn line_text(entry: TreeEntryView) -> Seq<char> {
    entry.kind.word_text() + seq![' '] + entry.hash + seq![' '] + entry.name
}

/// The line of an entry as bytes.
pub open spec fn entry_line(entry: TreeEntryView) -> Seq<u8> {
    entry.kind.word() + seq![SPACE] + encode_utf8(entry.hash) + seq![SPACE] + encode_utf8(
        entry.name,
    )
}

/// The bytes of an entry's line are the UTF-8 encoding of its text.
pub proof fn lemma_line_text_bytes(entry: TreeEntryView)
    ensures
        encode_utf8(line_text(entry)) == entry_line(entry),
        valid_utf8(entry_line(entry)),
{
    let word = entry.kind.word_text();
    let space = seq![' '];
    entry.kind.lemma_word();
    lemma_ascii_bytes_encode(entry.kind.word());
    lemma_ascii_bytes_encode(seq![SPACE]);
    assert(crate::text::ascii_chars(seq![SPACE]) =~= space);
    lemma_encode_concat(word, space);
    lemma_encode_concat(word + space, entry.hash);
    lemma_encode_concat(word + space + entry.hash, space);
    lemma_encode_concat(word + space + entry.hash + space, entry.name);
    encode_utf8_valid_utf8(line_text(entry));
}

/// The lines of a list of entries, in the list's order.
pub open spec fn entry_lines(entries: Seq<TreeEntryView>) -> Seq<Seq<u8>> {
    entries.map_values(|e: TreeEntryView| entry_line(e))
}

/// The payload of a tree with the given entries: their lines in ascending
/// order of name, joined by line breaks, with no line break at the end.
pub open spec fn tree_payload(entries: Seq<TreeEntryView>) -> Seq<u8> {
    join(entry_lines(sort_entries(entries)), NEWLINE)
}

impl TreeEntryView {
    /// An entry that a tree payload can hold and give back: it names a blob
    /// or a tree, its identifier is one token, and its name is one line that
    /// does not end in a carriage return.
    pub open spec fn well_formed(self) -> bool {
        &&& self.kind != OObjectType::Commit
        &&& !self.hash.contains(' ')
        &&& !self.hash.contains('\n')
        &&& !self.name.contains('\n')
        &&& !(self.name.len() > 0 && self.name.last() == '\r')
    }
}

/// Every entry of the list is well formed.
pub open spec fn all_well_formed(entries: Seq<TreeEntryView>) -> bool {
    forall|i: int| 0 <= i < entries.len() ==> (#[trigger] entries[i]).well_formed()
}

/// The kind that a word names in a tree: a blob or a tree.
pub open spec fn entry_kind_of_word(word: Seq<u8>) -> Option<OObjectType> {
    if word == OObjectType::Blob.word() {
        Some(OObjectType::Blob)
    } else if word == OObjectType::Tree.word() {
        Some(OObjectType::Tree)
    } else {
        None
    }
}

/// The entry that a line holds.
///
/// The line is cut at its first two spaces into a kind word, an identifier
/// and a name; the name is all that follows the second space, so it may hold
/// spaces itself. A line with fewer than two spaces is `MalformedHeader`, a
/// word that names neither a blob nor a tree is `UnknownKind`.
pub open spec fn parse_entry_line(line: Seq<u8>) -> Result<TreeEntryView, StoreError> {
    let first = first_index(line, SPACE);
    let rest = line.skip(first + 1);
    let second = first_index(rest, SPACE);
    if first >= line.len() || second >= rest.len() {
        Err(StoreError::Corrupt(CorruptKind::MalformedHeader))
    } else {
        match entry_kind_of_word(line.take(first)) {
            None => Err(StoreError::Corrupt(CorruptKind::UnknownKind)),
            Some(kind) => Ok(
                TreeEntryView {
                    kind,
                    hash: decode_utf8(rest.take(second)),
                    name: decode_utf8(rest.skip(second + 1)),
                },
            ),
        }
    }
}

/// The entries that a sequence of lines holds, in order. An empty line holds
/// none; the first line that fails to hold an entry decides the error.
pub open spec fn parse_entry_lines(lines: Seq<Seq<u8>>) -> Result<Seq<TreeEntryView>, StoreError>
    decreases lines.len(),
{
    if lines.len() == 0 {
        Ok(Seq::empty())
    } else {
        match parse_entry_lines(lines.drop_last()) {
            Err(e) => Err(e),
            Ok(before) => if lines.last().len() == 0 {
                Ok(before)
            } else {
                match parse_entry_line(lines.last()) {
                    Err(e) => Err(e),
                    Ok(entry) => Ok(before.push(entry)),
                }
            },
        }
    }
}

/// The entries that a tree payload holds: the payload must be UTF-8, and is
/// read line by line. The lines are what stands between line breaks; a
/// carriage return directly before a line break belongs to the break.
pub open spec fn parse_tree(bytes: Seq<u8>) -> Result<Seq<TreeEntryView>, StoreError> {
    if !valid_utf8(bytes) {
        Err(StoreError::Corrupt(CorruptKind::InvalidEncoding))
    } else {
        parse_entry_lines(payload_lines(bytes))
    }
}

/// An error among the first lines is the error of the whole.
pub proof fn lemma_parse_entry_lines_error(
    lines: Seq<Seq<u8>>,
    more: Seq<Seq<u8>>,
    e: StoreError,
)
    requires
        parse_entry_lines(lines) == Err::<Seq<TreeEntryView>, StoreError>(e),
    ensures
        parse_entry_lines(lines + more) == Err::<Seq<TreeEntryView>, StoreError>(e),
    decreases more.len(),
{
    if more.len() == 0 {
        assert(lines + more =~= lines);
    } else {
        lemma_parse_entry_lines_error(lines, more.drop_last(), e);
        assert((lines + more).drop_last() =~= lines + more.drop_last());
    }
}

/// The line of a well-formed entry is one non-empty line of UTF-8 that
/// holds the entry.
pub proof fn lemma_parse_entry_line(entry: TreeEntryView)
    requires
        entry.well_formed(),
    ensures
        parse_entry_line(entry_line(entry)) == Ok::<TreeEntryView, StoreError>(entry),
        !entry_line(entry).contains(NEWLINE),
        !ends_in(entry_line(entry), CARRIAGE_RETURN),
        entry_line(entry).len() > 0,
        valid_utf8(entry_line(entry)),
{
    let word = entry.kind.word();
    let hash = encode_utf8(entry.hash);
    let name = encode_utf8(entry.name);
    let line = entry_line(entry);
    let rest = hash + (seq![SPACE] + name);
    entry.kind.lemma_word();
    OObjectType::Blob.lemma_word();
    OObjectType::Tree.lemma_word();
    lemma_line_text_bytes(entry);
    assert(SPACE as char == ' ');
    assert(NEWLINE as char == '\n');
    assert(CARRIAGE_RETURN as char == '\r');
    lemma_encode_ends_in_ascii(entry.name, CARRIAGE_RETURN);
    assert(!ends_in(line, CARRIAGE_RETURN)) by {
        if name.len() > 0 {
            assert(line.last() == name.last());
        } else {
            assert(line.last() == SPACE);
        }
    }
    lemma_encode_contains_ascii(entry.hash, SPACE);
    lemma_encode_contains_ascii(entry.hash, NEWLINE);
    lemma_encode_contains_ascii(entry.name, NEWLINE);
    assert(line =~= word + (seq![SPACE] + rest));
    lemma_first_index_after(word, seq![SPACE] + rest, SPACE);
    assert((seq![SPACE] + rest)[0] == SPACE);
    assert(first_index(seq![SPACE] + rest, SPACE) == 0);
    assert(line.take(word.len() as int) =~= word);
    assert(line.skip(word.len() as int + 1) =~= rest);
    lemma_first_index_after(hash, seq![SPACE] + name, SPACE);
    assert((seq![SPACE] + name)[0] == SPACE);
    assert(first_index(seq![SPACE] + name, SPACE) == 0);
    assert(rest.take(hash.len() as int) =~= hash);
    assert(rest.skip(hash.len() as int + 1) =~= name);
    encode_utf8_decode_utf8(entry.hash);
    encode_utf8_decode_utf8(entry.name);
    assert(!line.contains(NEWLINE)) by {
        if line.contains(NEWLINE) {
            let i = choose|i: int| 0 <= i < line.len() && line[i] == NEWLINE;
            if i < word.len() {
                assert(word[i] == NEWLINE);
            } else if i == word.len() {
            } else if i < word.len() + 1 + hash.len() {
                assert(hash[i - word.len() - 1] == NEWLINE);
            } else if i == word.len() + 1 + hash.len() {
            } else {
                assert(name[i - word.len() - hash.len() - 2] == NEWLINE);
            }
        }
    }
}

/// The lines of well-formed entries hold those entries.
pub proof fn lemma_parse_entry_lines(entries: Seq<TreeEntryView>)
    requires
        all_well_formed(entries),
    ensures
        parse_entry_lines(entry_lines(entries)) == Ok::<Seq<TreeEntryView>, StoreError>(entries),
        parts_free_of(entry_lines(entries), NEWLINE),
        inner_parts_end_clean(entry_lines(entries), CARRIAGE_RETURN),
        forall|i: int| 0 <= i < entries.len() ==> valid_utf8(#[trigger] entry_lines(entries)[i]),
    decreases entries.len(),
{
    let lines = entry_lines(entries);
    if entries.len() == 0 {
        assert(entries =~= Seq::empty());
    } else {
        let init = entries.drop_last();
        assert forall|i: int| 0 <= i < init.len() implies (#[trigger] init[i]).well_formed() by {
            assert(init[i] == entries[i]);
        }
        lemma_parse_entry_lines(init);
        lemma_parse_entry_line(entries.last());
        assert(lines.drop_last() =~= entry_lines(init));
        assert(lines.last() == entry_line(entries.last()));
        assert(init.push(entries.last()) =~= entries);
        assert forall|i: int| 0 <= i < lines.len() implies !(#[trigger] lines[i]).contains(
            NEWLINE,
        ) && valid_utf8(lines[i]) && !ends_in(lines[i], CARRIAGE_RETURN) by {
            if i < init.len() {
                assert(lines[i] == entry_lines(init)[i]);
                lemma_parse_entry_line(init[i]);
            }
        }
    }
}

/// Lines of UTF-8 joined by line breaks are UTF-8.
pub proof fn lemma_join_valid_utf8(lines: Seq<Seq<u8>>)
    requires
        forall|i: int| 0 <= i < lines.len() ==> valid_utf8(#[trigger] lines[i]),
    ensures
        valid_utf8(join(lines, NEWLINE)),
    decreases lines.len(),
{
    if lines.len() >= 2 {
        let init = lines.drop_last();
        assert forall|i: int| 0 <= i < init.len() implies valid_utf8(#[trigger] init[i]) by {
            assert(init[i] == lines[i]);
        }
        lemma_join_valid_utf8(init);
        lemma_ascii_bytes_encode(seq![NEWLINE]);
        valid_utf8_concat(join(init, NEWLINE), seq![NEWLINE]);
        valid_utf8_concat(join(init, NEWLINE) + seq![NEWLINE], lines.last());
    }
}

/// Decoding the payload made from a list of well-formed entries yields the
/// entries in ascending order of name, whatever their order in the list.
pub proof fn lemma_deserialize_serialize_tree(entries: Seq<TreeEntryView>)
    requires
        all_well_formed(entries),
    ensures
        parse_tree(tree_payload(entries)) == Ok::<Seq<TreeEntryView>, StoreError>(
            sort_entries(entries),
        ),
        crate::tree_order::sorted_by_name(sort_entries(entries)),
        sort_entries(entries).to_multiset() == entries.to_multiset(),
{
    let sorted = sort_entries(entries);
    let lines = entry_lines(sorted);
    lemma_sort_entries(entries);
    assert forall|i: int| 0 <= i < sorted.len() implies (#[trigger] sorted[i]).well_formed() by {
        lemma_sort_entries_members(entries, i);
        let p = choose|p: int| 0 <= p < entries.len() && entries[p] == sorted[i];
        assert(entries[p].well_formed());
    }
    lemma_parse_entry_lines(sorted);
    lemma_join_valid_utf8(lines);
    if lines.len() == 0 {
        let empty = Seq::<u8>::empty();
        let none = Seq::<TreeEntryView>::empty();
        assert(tree_payload(entries) =~= empty);
        assert(payload_lines(empty) =~= seq![empty]);
        assert(seq![empty].drop_last() =~= Seq::<Seq<u8>>::empty());
        assert(parse_entry_lines(Seq::<Seq<u8>>::empty()) == Ok::<
            Seq<TreeEntryView>,
            StoreError,
        >(none));
        assert(parse_entry_lines(seq![empty]) == Ok::<Seq<TreeEntryView>, StoreError>(none));
        assert(sorted =~= none);
    } else {
        lemma_lines_join(lines, NEWLINE, CARRIAGE_RETURN);
    }
}

/// The payload of a tree does not depend on the order in which its entries
/// are given, where no name stands for two different entries.
pub proof fn lemma_tree_payload_order_independent(
    a: Seq<TreeEntryView>,
    b: Seq<TreeEntryView>,
)
    requires
        a.to_multiset() == b.to_multiset(),
        names_identify(a),
    ensures
        tree_payload(a) == tree_payload(b),
{
    lemma_sort_entries_order_independent(a, b);
}

fn read_entry_kind(word: &[u8]) -> (kind: Option<OObjectType>)
    ensures
        kind == entry_kind_of_word(word@),
{
    if bytes_equal(word, OObjectType::Blob.word_bytes()) {
        Some(OObjectType::Blob)
    } else if bytes_equal(word, OObjectType::Tree.word_bytes()) {
        Some(OObjectType::Tree)
    } else {
        None
    }
}

/// The second and third token of a line of UTF-8 that is cut at two spaces
/// are UTF-8 themselves.
proof fn lemma_cut_line(line: Seq<u8>, first: int, second: int)
    requires
        valid_utf8(line),
        0 <= first < second < line.len(),
        line[first] == SPACE,
        line[second] == SPACE,
    ensures
        line.skip(first + 1).take(second - first - 1) == line.subrange(first + 1, second),
        line.skip(first + 1).skip(second - first) == line.subrange(
            second + 1,
            line.len() as int,
        ),
        valid_utf8(line.subrange(first + 1, second)),
        valid_utf8(line.subrange(second + 1, line.len() as int)),
{
    let rest = line.skip(first + 1);
    let cut = second - first - 1;
    lemma_valid_utf8_around_ascii(line, first);
    assert(rest[cut] == line[second]);
    lemma_valid_utf8_around_ascii(rest, cut);
    assert(rest.take(cut) =~= line.subrange(first + 1, second));
    assert(rest.skip(cut + 1) =~= line.subrange(second + 1, line.len() as int));
}

fn read_entry_line(line: &[u8]) -> (res: Result<TreeEntry, StoreError>)
    requires
        valid_utf8(line@),
    ensures
        res matches Ok(entry) ==> parse_entry_line(line@) == Ok::<TreeEntryView, StoreError>(
            entry@,
        ),
        res matches Err(e) ==> parse_entry_line(line@) == Err::<TreeEntryView, StoreError>(e),
{
    proof {
        assert(line@.skip(0) =~= line@);
    }
    let first = find_byte(line, 0, SPACE);
    if first >= line.len() {
        return Err(StoreError::Corrupt(CorruptKind::MalformedHeader));
    }
    let second = find_byte(line, first + 1, SPACE);
    if second >= line.len() {
        return Err(StoreError::Corrupt(CorruptKind::MalformedHeader));
    }
    let word = slice_subrange(line, 0, first);
    let hash = slice_subrange(line, first + 1, second);
    let name = slice_subrange(line, second + 1, line.len());
    proof {
        lemma_cut_line(line@, first as int, second as int);
        assert(word@ == line@.take(first as int));
    }
    match read_entry_kind(word) {
        None => Err(StoreError::Corrupt(CorruptKind::UnknownKind)),
        Some(kind) => {
            let hash = OObjectId(string_from_valid_utf8(hash));
            let name = string_from_valid_utf8(name);
            Ok(TreeEntry { kind, hash, name })
        },
    }
}

/// The entries in order, as the list of their places in `entries`.
fn sorted_order(entries: &[TreeEntry]) -> (order: Vec<usize>)
    ensures
        order@.len() == entries@.len(),
        forall|j: int| 0 <= j < order@.len() ==> order@[j] < entries@.len(),
        forall|j: int|
            0 <= j < order@.len() ==> sort_entries(entry_views(entries@))[j] == entry_views(
                entries@,
            )[(#[trigger] order@[j]) as int],
{
    let ghost views = entry_views(entries@);
    let mut order: Vec<usize> = Vec::new();
    let mut i: usize = 0;
    proof {
        assert(views.take(0) =~= Seq::<TreeEntryView>::empty());
    }
    while i < entries.len()
        invariant
            i <= entries@.len(),
            views == entry_views(entries@),
            order@.len() == i,
            sort_entries(views.take(i as int)).len() == i,
            forall|j: int| 0 <= j < order@.len() ==> order@[j] < entries@.len(),
            forall|j: int|
                0 <= j < order@.len() ==> sort_entries(views.take(i as int))[j] == views[(
                #[trigger] order@[j]) as int],
        decreases entries@.len() - i,
    {
        let ghost before = sort_entries(views.take(i as int));
        let name = entries[i].name.as_str().as_bytes();
        let mut at: usize = order.len();
        let mut searching = true;
        while searching && at > 0
            invariant
                at <= order@.len(),
                i < entries@.len(),
                views == entry_views(entries@),
                before.len() == order@.len(),
                name@ == encode_utf8(views[i as int].name),
                forall|j: int| 0 <= j < order@.len() ==> order@[j] < entries@.len(),
                forall|j: int|
                    0 <= j < order@.len() ==> before[j] == views[(#[trigger] order@[j]) as int],
                forall|j: int| at <= j < before.len() ==> !name_le(
                    #[trigger] before[j],
                    views[i as int],
                ),
                !searching ==> at > 0 && name_le(before[at - 1], views[i as int]),
            decreases at + (if searching { 1int } else { 0int }),
        {
            let other = &entries[order[at - 1]];
            proof {
                assert(views[order@[at - 1] as int] == other@);
            }
            if bytes_le(other.name.as_str().as_bytes(), name) {
                searching = false;
            } else {
                at = at - 1;
            }
        }
        proof {
            lemma_insertion_point(before, views[i as int], at as int);
            let upto = views.take(i + 1);
            assert(upto.drop_last() =~= views.take(i as int));
            assert(upto.last() == views[i as int]);
            assert(sort_entries(upto) == before.insert(at as int, views[i as int]));
        }
        order.insert(at, i);
        i = i + 1;
    }
    proof {
        assert(views.take(i as int) =~= views);
    }
    order
}

impl TreeEntry {
    /// An entry with the given kind, identifier and name.
    pub fn new(kind: OObjectType, hash: OObjectId, name: String) -> (entry: Self)
        ensures
            entry@ == (TreeEntryView { kind, hash: hash@, name: name@ }),
    {
        Self { kind, hash, name }
    }

    /// The entry's line: `<kind> <id> <name>`.
    pub fn to_line(&self) -> (line: String)
        ensures
            line@ == line_text(self@),
    {
        proof {
            reveal_strlit(" ");
            assert(" "@ =~= seq![' ']);
        }
        let mut line = self.kind.as_str().to_owned();
        line.append(" ");
        line.append(self.hash.as_str());
        line.append(" ");
        line.append(self.name.as_str());
        line
    }

    /// Appends the entry's line to `out`.
    fn push_line(&self, out: &mut Vec<u8>)
        ensures
            final(out)@ == old(out)@ + entry_line(self@),
    {
        append_bytes(out, self.kind.word_bytes());
        out.push(SPACE);
        append_bytes(out, self.hash.as_str().as_bytes());
        out.push(SPACE);
        append_bytes(out, self.name.as_str().as_bytes());
        assert(final(out)@ =~= old(out)@ + entry_line(self@));
    }

    /// The payload of a tree with the given entries: one line per entry, in
    /// ascending order of name whatever the order in `entries`, joined by
    /// line breaks.
    pub fn serialize_tree(entries: &[TreeEntry]) -> (bytes: Vec<u8>)
        ensures
            bytes@ == tree_payload(entry_views(entries@)),
            all_well_formed(entry_views(entries@)) ==> parse_tree(bytes@) == Ok::<
                Seq<TreeEntryView>,
                StoreError,
            >(sort_entries(entry_views(entries@))),
    {
        proof {
            if all_well_formed(entry_views(entries@)) {
                lemma_deserialize_serialize_tree(entry_views(entries@));
            }
        }
        let ghost views = entry_views(entries@);
        let order = sorted_order(entries);
        let ghost sorted = sort_entries(views);
        let ghost lines = entry_lines(sorted);
        let mut out: Vec<u8> = Vec::new();
        let mut k: usize = 0;
        proof {
            lemma_sort_entries(views);
            assert(lines.take(0) =~= Seq::<Seq<u8>>::empty());
        }
        while k < order.len()
            invariant
                k <= order@.len(),
                views == entry_views(entries@),
                sorted == sort_entries(views),
                lines == entry_lines(sorted),
                order@.len() == entries@.len(),
                sorted.len() == entries@.len(),
                forall|j: int| 0 <= j < order@.len() ==> order@[j] < entries@.len(),
                forall|j: int|
                    0 <= j < order@.len() ==> sorted[j] == views[(#[trigger] order@[j]) as int],
                out@ == join(lines.take(k as int), NEWLINE),
            decreases order@.len() - k,
        {
            if k > 0 {
                out.push(NEWLINE);
            }
            let entry = &entries[order[k]];
            entry.push_line(&mut out);
            proof {
                let upto = lines.take(k + 1);
                assert(upto.drop_last() =~= lines.take(k as int));
                assert(upto.last() == entry_line(entry@));
                assert(views[order@[k as int] as int] == entry@);
                if k == 0 {
                    assert(out@ =~= upto[0]);
                }
            }
            k = k + 1;
        }
        proof {
            assert(lines.take(k as int) =~= lines);
        }
        out
    }

    /// Decodes a tree payload into its entries, in the payload's order.
    ///
    /// The lines are what stands between line breaks, without a carriage
    /// return that stands directly before the break. Fails with
    /// `InvalidEncoding` where the payload is not UTF-8, with
    /// `MalformedHeader` where a line that is not empty has fewer than three
    /// tokens, and with `UnknownKind` where a line's first token names
    /// neither a blob nor a tree; the first such line decides.
    pub fn deserialize_tree(bytes: &[u8]) -> (res: Result<Vec<TreeEntry>, StoreError>)
        ensures
            res matches Ok(entries) ==> parse_tree(bytes@) == Ok::<
                Seq<TreeEntryView>,
                StoreError,
            >(entry_views(entries@)),
            res matches Err(e) ==> parse_tree(bytes@) == Err::<Seq<TreeEntryView>, StoreError>(e),
    {
        if str_from_utf8(bytes).is_none() {
            return Err(StoreError::Corrupt(CorruptKind::InvalidEncoding));
        }
        let lines = line_slices(bytes, NEWLINE, CARRIAGE_RETURN);
        let ghost all = slice_views(lines@);
        let mut entries: Vec<TreeEntry> = Vec::new();
        let mut i: usize = 0;
        proof {
            lemma_lines_valid_utf8(bytes@, NEWLINE, CARRIAGE_RETURN);
            assert(all.take(0) =~= Seq::<Seq<u8>>::empty());
            assert(entry_views(entries@) =~= Seq::empty());
        }
        while i < lines.len()
            invariant
                i <= lines@.len(),
                valid_utf8(bytes@),
                all == slice_views(lines@),
                all == payload_lines(bytes@),
                forall|k: int| 0 <= k < all.len() ==> valid_utf8(#[trigger] all[k]),
                parse_entry_lines(all.take(i as int)) == Ok::<Seq<TreeEntryView>, StoreError>(
                    entry_views(entries@),
                ),
            decreases lines@.len() - i,
        {
            let line = lines[i];
            proof {
                assert(all[i as int] == line@);
                assert(all.take(i + 1).drop_last() =~= all.take(i as int));
                assert(all.take(i + 1).last() == line@);
            }
            if line.len() > 0 {
                match read_entry_line(line) {
                    Err(e) => {
                        proof {
                            lemma_parse_entry_lines_error(all.take(i + 1), all.skip(i + 1), e);
                            assert(all.take(i + 1) + all.skip(i + 1) =~= all);
                        }
                        return Err(e);
                    },
                    Ok(entry) => {
                        proof {
                            assert(entry_views(entries@.push(entry)) =~= entry_views(
                                entries@,
                            ).push(entry@));
                        }
                        entries.push(entry);
                    },
                }
            }
            i = i + 1;
        }
        proof {
            assert(all.take(i as int) =~= all);
        }
        Ok(entries)
    }
}

} // verus!
