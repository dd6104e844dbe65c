//! Searching, splitting and joining byte sequences at a delimiter.

use vstd::prelude::*;
use vstd::slice::slice_subrange;

verus! {

/// The index of the first `b` in `s`, or `s.len()` where `s` holds none.
pub open spec fn first_index(s: Seq<u8>, b: u8) -> int
    decreases s.len(),
{
    if s.len() == 0 {
        0
    } else if s[0] == b {
        0
    } else {
        1 + first_index(s.drop_first(), b)
    }
}

/// `first_index` stays in range, passes over no `b`, and stops on one.
pub proof fn lemma_first_index(s: Seq<u8>, b: u8)
    ensures
        0 <= first_index(s, b) <= s.len(),
        forall|i: int| 0 <= i < first_index(s, b) ==> s[i] != b,
        first_index(s, b) < s.len() ==> s[first_index(s, b)] == b,
        first_index(s, b) < s.len() <==> s.contains(b),
    decreases s.len(),
{
    if s.len() == 0 {
    } else if s[0] == b {
    } else {
        let t = s.drop_first();
        lemma_first_index(t, b);
        assert forall|i: int| 0 <= i < first_index(s, b) implies s[i] != b by {
            if i > 0 {
                assert(s[i] == t[i - 1]);
            }
        }
        if first_index(s, b) < s.len() {
            assert(s[first_index(s, b)] == t[first_index(t, b)]);
        }
        if s.contains(b) {
            let j = choose|j: int| 0 <= j < s.len() && s[j] == b;
            assert(t[j - 1] == b);
        }
    }
}

/// An index that passes over no `b` and stops on one, or at the end, is the first index.
pub proof fn lemma_first_index_unique(s: Seq<u8>, b: u8, k: int)
    requires
        0 <= k <= s.len(),
        forall|i: int| 0 <= i < k ==> s[i] != b,
        k < s.len() ==> s[k] == b,
    ensures
        first_index(s, b) == k,
{
    lemma_first_index(s, b);
    let f = first_index(s, b);
    if f < k {
        assert(s[f] != b);
    } else if k < f {
        assert(s[k] == b);
    }
}

/// The first index in a concatenation whose left part holds no `b`.
pub proof fn lemma_first_index_after(left: Seq<u8>, right: Seq<u8>, b: u8)
    requires
        !left.contains(b),
    ensures
        first_index(left + right, b) == left.len() + first_index(right, b),
{
    lemma_first_index(right, b);
    let s = left + right;
    let k = left.len() + first_index(right, b);
    assert forall|i: int| 0 <= i < k implies s[i] != b by {
        if i < left.len() {
            assert(left[i] == s[i]);
            assert(left.contains(s[i]));
        } else {
            assert(s[i] == right[i - left.len()]);
        }
    }
    if k < s.len() {
        assert(s[k] == right[k - left.len()]);
    }
    lemma_first_index_unique(s, b, k);
}

/// `part` without the byte `e` at its end, where it ends in one.
pub open spec fn without_last(part: Seq<u8>, e: u8) -> Seq<u8> {
    if part.len() > 0 && part.last() == e {
        part.drop_last()
    } else {
        part
    }
}

/// `part` ends in the byte `e`.
pub open spec fn ends_in(part: Seq<u8>, e: u8) -> bool {
    part.len() > 0 && part.last() == e
}

/// The lines of `s`: what stands between occurrences of the delimiter `d`,
/// where one `e` directly before a delimiter belongs to the line's end and
/// not to the line. There is always at least one line; what follows the last
/// delimiter is the last line, as it is, and it is empty where nothing follows.
pub open spec fn lines(s: Seq<u8>, d: u8, e: u8) -> Seq<Seq<u8>>
    decreases s.len(),
{
    let k = first_index(s, d);
    if 0 <= k < s.len() {
        seq![without_last(s.take(k), e)] + lines(s.skip(k + 1), d, e)
    } else {
        seq![s]
    }
}

/// The parts joined with one delimiter `d` between neighbours.
pub open spec fn join(parts: Seq<Seq<u8>>, d: u8) -> Seq<u8>
    decreases parts.len(),
{
    if parts.len() == 0 {
        Seq::empty()
    } else if parts.len() == 1 {
        parts[0]
    } else {
        join(parts.drop_last(), d) + seq![d] + parts.last()
    }
}

/// Joining from the front: the first part, a delimiter, and the rest joined.
pub proof fn lemma_join_front(parts: Seq<Seq<u8>>, d: u8)
    requires
        parts.len() >= 2,
    ensures
        join(parts, d) == parts[0] + seq![d] + join(parts.drop_first(), d),
    decreases parts.len(),
{
    if parts.len() == 2 {
        assert(parts.drop_last().len() == 1);
        assert(parts.drop_first().len() == 1);
        assert(join(parts.drop_last(), d) == parts[0]);
        assert(join(parts.drop_first(), d) == parts[1]);
    } else {
        let init = parts.drop_last();
        lemma_join_front(init, d);
        assert(init.drop_first() == parts.drop_first().drop_last());
        assert(parts.drop_first().last() == parts.last());
        assert(join(parts, d) == (init[0] + seq![d] + join(init.drop_first(), d)) + seq![d]
            + parts.last());
        assert(join(parts.drop_first(), d) == join(init.drop_first(), d) + seq![d] + parts.last());
        assert(join(parts, d) =~= parts[0] + seq![d] + join(parts.drop_first(), d));
    }
}

/// Joining one part more: a delimiter and the part are added at the end.
pub proof fn lemma_join_push(parts: Seq<Seq<u8>>, last: Seq<u8>, d: u8)
    requires
        parts.len() >= 1,
    ensures
        join(parts.push(last), d) == join(parts, d) + seq![d] + last,
{
    assert(parts.push(last).drop_last() =~= parts);
}

/// A single part joined is the part.
pub proof fn lemma_join_one(part: Seq<u8>, d: u8)
    ensures
        join(seq![part], d) == part,
{
}

/// No part holds the delimiter `d`.
pub open spec fn parts_free_of(parts: Seq<Seq<u8>>, d: u8) -> bool {
    forall|i: int| 0 <= i < parts.len() ==> !(#[trigger] parts[i]).contains(d)
}

/// No part but the last ends in the byte `e`.
pub open spec fn inner_parts_end_clean(parts: Seq<Seq<u8>>, e: u8) -> bool {
    forall|i: int| 0 <= i < parts.len() - 1 ==> !ends_in(#[trigger] parts[i], e)
}

/// The parts as they are read back as lines: each but the last without an
/// `e` at its end.
pub open spec fn read_back(parts: Seq<Seq<u8>>, e: u8) -> Seq<Seq<u8>> {
    Seq::new(
        parts.len(),
        |i: int|
            if i < parts.len() - 1 {
                without_last(parts[i], e)
            } else {
                parts[i]
            },
    )
}

/// Reading the lines of joined parts gives the parts, each but the last
/// without an `e` at its end, where there is a part and none holds the
/// delimiter; so it gives the parts themselves where none but the last ends
/// in `e`.
pub proof fn lemma_lines_join(parts: Seq<Seq<u8>>, d: u8, e: u8)
    requires
        parts.len() >= 1,
        parts_free_of(parts, d),
    ensures
        lines(join(parts, d), d, e) == read_back(parts, e),
        inner_parts_end_clean(parts, e) ==> lines(join(parts, d), d, e) == parts,
    decreases parts.len(),
{
    if parts.len() == 1 {
        let s = parts[0];
        lemma_first_index(s, d);
        assert(lines(s, d, e) == seq![s]);
        assert(seq![s] =~= read_back(parts, e));
    } else {
        let head = parts[0];
        let tail = parts.drop_first();
        lemma_join_front(parts, d);
        let rest = join(tail, d);
        let s = head + seq![d] + rest;
        assert(s =~= head + (seq![d] + rest));
        lemma_first_index_after(head, seq![d] + rest, d);
        assert((seq![d] + rest)[0] == d);
        assert(first_index(seq![d] + rest, d) == 0);
        assert(first_index(s, d) == head.len());
        assert(s.take(head.len() as int) =~= head);
        assert(s.skip(head.len() as int + 1) =~= rest);
        assert forall|i: int| 0 <= i < tail.len() implies !(#[trigger] tail[i]).contains(d) by {
            assert(tail[i] == parts[i + 1]);
        }
        lemma_lines_join(tail, d, e);
        assert(seq![without_last(head, e)] + read_back(tail, e) =~= read_back(parts, e));
    }
    if inner_parts_end_clean(parts, e) {
        assert(read_back(parts, e) =~= parts);
    }
}

/// One step of reading lines from the front: where the lines of `bytes` are
/// `done` and then those of what follows `pos`, and the next delimiter at or
/// behind `pos` stands at `end`, the next line is what lies between the two,
/// without an `e` at its end unless it is the last line.
pub proof fn lemma_lines_step(
    bytes: Seq<u8>,
    d: u8,
    e: u8,
    done: Seq<Seq<u8>>,
    pos: int,
    end: int,
)
    requires
        0 <= pos <= end <= bytes.len(),
        end == pos + first_index(bytes.skip(pos), d),
        lines(bytes, d, e) == done + lines(bytes.skip(pos), d, e),
    ensures
        end < bytes.len() ==> lines(bytes, d, e) == done.push(
            without_last(bytes.subrange(pos, end), e),
        ) + lines(bytes.skip(end + 1), d, e),
        end == bytes.len() ==> lines(bytes, d, e) == done.push(bytes.subrange(pos, end)),
{
    let rest = bytes.skip(pos);
    let part = bytes.subrange(pos, end);
    let k = end - pos;
    if end < bytes.len() {
        let line = without_last(part, e);
        let more = lines(bytes.skip(end + 1), d, e);
        assert(rest.take(k) =~= part);
        assert(rest.skip(k + 1) =~= bytes.skip(end + 1));
        assert(lines(rest, d, e) == seq![line] + more);
        assert(done + (seq![line] + more) =~= done.push(line) + more);
    } else {
        assert(rest =~= part);
        assert(lines(rest, d, e) == seq![part]);
        assert(done + seq![part] =~= done.push(part));
    }
}

/// Finds the first `b` in `bytes` at or after `start`; `bytes.len()` where there is none.
pub fn find_byte(bytes: &[u8], start: usize, b: u8) -> (at: usize)
    requires
        start <= bytes@.len(),
    ensures
        at == start + first_index(bytes@.skip(start as int), b),
        start <= at <= bytes@.len(),
        at < bytes@.len() ==> bytes@[at as int] == b,
        forall|k: int| start <= k < at ==> bytes@[k] != b,
{
    let mut i: usize = start;
    while i < bytes.len() && bytes[i] != b
        invariant
            start <= i <= bytes@.len(),
            forall|k: int| start <= k < i ==> bytes@[k] != b,
        decreases bytes@.len() - i,
    {
        i = i + 1;
    }
    proof {
        let rest = bytes@.skip(start as int);
        assert forall|k: int| 0 <= k < i - start implies rest[k] != b by {
            assert(rest[k] == bytes@[start + k]);
        }
        lemma_first_index_unique(rest, b, i - start);
    }
    i
}

/// Finds the line that begins at `pos`: where the next delimiter `d` stands,
/// or the end of `bytes` where there is none, and where the line itself
/// ends, which is one byte earlier where an `e` stands directly before the
/// delimiter.
pub fn find_line(bytes: &[u8], pos: usize, d: u8, e: u8) -> (at: (usize, usize))
    requires
        pos <= bytes@.len(),
    ensures
        at.1 == pos + first_index(bytes@.skip(pos as int), d),
        pos <= at.0 <= at.1 <= bytes@.len(),
        at.1 < bytes@.len() ==> bytes@[at.1 as int] == d,
        at.1 < bytes@.len() ==> bytes@.subrange(pos as int, at.0 as int) == without_last(
            bytes@.subrange(pos as int, at.1 as int),
            e,
        ),
        at.1 == bytes@.len() ==> at.0 == at.1,
{
    let end = find_byte(bytes, pos, d);
    if end < bytes.len() && end > pos && bytes[end - 1] == e {
        proof {
            let part = bytes@.subrange(pos as int, end as int);
            assert(part.last() == bytes@[end - 1]);
            assert(part.drop_last() =~= bytes@.subrange(pos as int, end - 1));
        }
        (end - 1, end)
    } else {
        proof {
            let part = bytes@.subrange(pos as int, end as int);
            if part.len() > 0 {
                assert(part.last() == bytes@[end - 1]);
            }
        }
        (end, end)
    }
}

/// The byte sequences that slices hold.
pub open spec fn slice_views(slices: Seq<&[u8]>) -> Seq<Seq<u8>> {
    slices.map_values(|s: &[u8]| s@)
}

/// Cuts `bytes` into its lines.
pub fn line_slices<'a>(bytes: &'a [u8], d: u8, e: u8) -> (found: Vec<&'a [u8]>)
    ensures
        slice_views(found@) == lines(bytes@, d, e),
{
    let mut found: Vec<&'a [u8]> = Vec::new();
    let mut pos: usize = 0;
    let mut finished = false;
    proof {
        assert(bytes@.skip(0) =~= bytes@);
        assert(slice_views(found@) + lines(bytes@, d, e) =~= lines(bytes@, d, e));
    }
    while !finished
        invariant
            pos <= bytes@.len(),
            !finished ==> lines(bytes@, d, e) == slice_views(found@) + lines(
                bytes@.skip(pos as int),
                d,
                e,
            ),
            finished ==> lines(bytes@, d, e) == slice_views(found@),
        decreases bytes@.len() - pos + (if finished { 0int } else { 1int }),
    {
        let (line_end, end) = find_line(bytes, pos, d, e);
        let line = slice_subrange(bytes, pos, line_end);
        proof {
            lemma_lines_step(bytes@, d, e, slice_views(found@), pos as int, end as int);
            assert(slice_views(found@.push(line)) =~= slice_views(found@).push(line@));
        }
        found.push(line);
        if end < bytes.len() {
            pos = end + 1;
        } else {
            finished = true;
        }
    }
    found
}

} // verus!
