//! The object store's rules: identifiers, sharded paths, and what to do at
//! each stage of writing and after reading an object file.

use crate::error::{CorruptKind, StoreError};
use crate::hashing_values::{bytes_to_hex, hash_bytes, hex, hex_bytes, sha256};
use crate::object::{
    frame, lemma_truncated_payload, parse_object, OObject, OObjectId, ObjectView,
};
use crate::text::{is_ascii_bytes, lemma_ascii_bytes_encode};
use vstd::prelude::*;
use vstd::slice::slice_subrange;
use vstd::utf8::{
    encode_utf8, encode_utf8_decode_utf8, encode_utf8_valid_utf8, is_char_boundary,
    is_char_boundary_iff_not_is_continuation_byte,
};

verus! {

/// The identifier of an object: the hexadecimal spelling of the SHA-256
/// digest of its serialized form.
pub open spec fn object_id(object: ObjectView) -> Seq<char> {
    hex(sha256(frame(object)))
}

/// Objects with the same serialized bytes have the same identifier.
pub proof fn lemma_same_bytes_same_id(a: ObjectView, b: ObjectView)
    requires
        frame(a) == frame(b),
    ensures
        object_id(a) == object_id(b),
{
}

/// Where an object's file lies below the store's `objects` directory: in the
/// directory `shard`, under the name `entry`.
#[derive(Debug, Clone, PartialEq, Eq)]
pub struct ObjectPath {
    pub shard: String,
    pub entry: String,
}

/// Whether an identifier can be cut behind its second byte: it has two bytes
/// at least, and the cut falls between two characters.
pub open spec fn has_shard(id: Seq<char>) -> bool {
    is_char_boundary(encode_utf8(id), 2)
}

/// The path of the object with the given identifier: the first two bytes of
/// the identifier name the shard, the rest names the entry. `None` where the
/// identifier cannot be cut there.
pub fn object_path(id: &OObjectId) -> (path: Option<ObjectPath>)
    ensures
        path is Some <==> has_shard(id@),
        path matches Some(p) ==> {
            &&& encode_utf8(p.shard@) == encode_utf8(id@).take(2)
            &&& encode_utf8(p.entry@) == encode_utf8(id@).skip(2)
        },
{
    let text = id.as_str();
    if text.is_char_boundary(2) {
        proof {
            encode_utf8_valid_utf8(id@);
        }
        let (shard, entry) = text.split_at(2);
        Some(ObjectPath { shard: shard.to_owned(), entry: entry.to_owned() })
    } else {
        None
    }
}

/// An identifier of ASCII characters, three or more, is cut behind its
/// second character.
pub proof fn lemma_ascii_id_path(id: Seq<char>, shard: Seq<char>, entry: Seq<char>)
    requires
        vstd::utf8::is_ascii_chars(id),
        id.len() > 2,
    ensures
        has_shard(id),
        encode_utf8(shard) == encode_utf8(id).take(2) ==> shard == id.take(2),
        encode_utf8(entry) == encode_utf8(id).skip(2) ==> entry == id.skip(2),
{
    let bytes = encode_utf8(id);
    vstd::utf8::is_ascii_chars_encode_utf8(id);
    encode_utf8_valid_utf8(id);
    assert(id[2] as u8 == bytes[2]);
    is_char_boundary_iff_not_is_continuation_byte(bytes, 2);
    let front = id.take(2);
    let back = id.skip(2);
    vstd::utf8::is_ascii_chars_encode_utf8(front);
    vstd::utf8::is_ascii_chars_encode_utf8(back);
    assert(encode_utf8(front) =~= bytes.take(2)) by {
        assert forall|i: int| 0 <= i < 2 implies encode_utf8(front)[i] == bytes[i] by {
            assert(front[i] as u8 == encode_utf8(front)[i]);
            assert(id[i] as u8 == bytes[i]);
        }
    }
    assert(encode_utf8(back) =~= bytes.skip(2)) by {
        assert forall|i: int| 0 <= i < back.len() implies encode_utf8(back)[i] == bytes[i
            + 2] by {
            assert(back[i] as u8 == encode_utf8(back)[i]);
            assert(id[i + 2] as u8 == bytes[i + 2]);
        }
    }
    encode_utf8_decode_utf8(front);
    encode_utf8_decode_utf8(back);
    encode_utf8_decode_utf8(shard);
    encode_utf8_decode_utf8(entry);
}

/// What writing an object takes: where the file goes and what it holds.
#[derive(Debug, PartialEq, Eq)]
pub struct PendingWrite {
    pub id: OObjectId,
    pub path: ObjectPath,
    pub bytes: Vec<u8>,
}

/// A prepared write as a mathematical value.
pub struct PendingView {
    pub id: Seq<char>,
    pub shard: Seq<char>,
    pub entry: Seq<char>,
    pub bytes: Seq<u8>,
}

impl View for PendingWrite {
    type V = PendingView;

    open spec fn view(&self) -> PendingView {
        PendingView {
            id: self.id@,
            shard: self.path.shard@,
            entry: self.path.entry@,
            bytes: self.bytes@,
        }
    }
}

/// The write of an object: the file holds its serialized form and is named
/// by its identifier, cut behind the second character.
pub open spec fn pending_write(object: ObjectView) -> PendingView {
    PendingView {
        id: object_id(object),
        shard: object_id(object).take(2),
        entry: object_id(object).skip(2),
        bytes: frame(object),
    }
}

/// The spelling of a digest is the spelling of its first byte, two
/// characters, and then that of the rest.
pub proof fn lemma_hex_shard(digest: Seq<u8>)
    requires
        digest.len() >= 1,
    ensures
        hex(digest.take(1)) == hex(digest).take(2),
        hex(digest.skip(1)) == hex(digest).skip(2),
{
    let all = hex(digest);
    let front = hex(digest.take(1));
    let back = hex(digest.skip(1));
    assert(front =~= all.take(2)) by {
        assert forall|i: int| 0 <= i < 2 implies front[i] == all[i] by {
            assert(digest.take(1)[i / 2] == digest[i / 2]);
        }
    }
    assert(back =~= all.skip(2)) by {
        assert forall|i: int| 0 <= i < back.len() implies back[i] == all[i + 2] by {
            assert((i + 2) / 2 == i / 2 + 1);
            assert((i + 2) % 2 == i % 2);
            assert(digest.skip(1)[i / 2] == digest[i / 2 + 1]);
        }
    }
}

/// Prepares the write of an object: serializes it, names it by the digest of
/// the serialized bytes, and places it by that name, the first two characters
/// of the name being the shard and the other sixty-two the entry.
pub fn prepare_write(object: &OObject) -> (pending: PendingWrite)
    ensures
        pending@ == pending_write(object@),
        pending.id@.len() == 64,
{
    let bytes = object.serialize();
    let digest = hash_bytes(bytes.as_slice());
    let id = OObjectId(bytes_to_hex(digest.as_slice()));
    let shard = bytes_to_hex(slice_subrange(digest.as_slice(), 0, 1));
    let entry = bytes_to_hex(slice_subrange(digest.as_slice(), 1, 32));
    proof {
        lemma_hex_shard(digest@);
    }
    PendingWrite { id, path: ObjectPath { shard, entry }, bytes }
}

/// The path of an identifier that spells a digest is the path that
/// `prepare_write` gives: reading finds what writing placed.
pub proof fn lemma_path_of_digest_id(digest: Seq<u8>, shard: Seq<char>, entry: Seq<char>)
    requires
        digest.len() >= 2,
        encode_utf8(shard) == encode_utf8(hex(digest)).take(2),
        encode_utf8(entry) == encode_utf8(hex(digest)).skip(2),
    ensures
        has_shard(hex(digest)),
        shard == hex(digest).take(2),
        entry == hex(digest).skip(2),
{
    let digits = hex_bytes(digest);
    assert(is_ascii_bytes(digits)) by {
        assert forall|i: int| 0 <= i < digits.len() implies #[trigger] digits[i] < 0x80 by {
            let byte = digest[i / 2];
            assert(byte / 16 < 16 && byte % 16 < 16);
        }
    }
    lemma_ascii_bytes_encode(digits);
    lemma_ascii_id_path(hex(digest), shard, entry);
}

/// A stage of writing an object.
#[derive(Debug, Clone, Copy, PartialEq, Eq, Structural)]
pub enum WriteStage {
    /// The shard directory has to be made sure of.
    Shard,
    /// It has to be seen whether the object's file is there already.
    Probe,
    /// The serialized bytes have to be written to the object's file.
    Write,
    /// Nothing is left to do: the object is stored under its identifier.
    Done,
}

/// What the file system answered at a stage of writing.
#[derive(Debug, Clone, Copy, PartialEq, Eq, Structural)]
pub enum WriteEvent {
    /// The shard directory exists, newly made or not.
    ShardReady,
    /// The object's file is there already.
    Present,
    /// The object's file is not there.
    Absent,
    /// The bytes were written.
    Written,
    /// The file system failed.
    Failed,
}

/// The stage that follows `stage` on `event`.
///
/// The shard comes first, then the probe; a file that is present ends the
/// write without a byte written, one that is absent is written once. A
/// failure, or an answer that does not belong to the stage, is `IOFailure`.
pub open spec fn stage_after(stage: WriteStage, event: WriteEvent) -> Result<
    WriteStage,
    StoreError,
> {
    match (stage, event) {
        (WriteStage::Shard, WriteEvent::ShardReady) => Ok(WriteStage::Probe),
        (WriteStage::Probe, WriteEvent::Present) => Ok(WriteStage::Done),
        (WriteStage::Probe, WriteEvent::Absent) => Ok(WriteStage::Write),
        (WriteStage::Write, WriteEvent::Written) => Ok(WriteStage::Done),
        _ => Err(StoreError::IOFailure),
    }
}

/// Decides the next stage of a write from the file system's answer.
pub fn next_stage(stage: WriteStage, event: WriteEvent) -> (next: Result<WriteStage, StoreError>)
    ensures
        next == stage_after(stage, event),
{
    match (stage, event) {
        (WriteStage::Shard, WriteEvent::ShardReady) => Ok(WriteStage::Probe),
        (WriteStage::Probe, WriteEvent::Present) => Ok(WriteStage::Done),
        (WriteStage::Probe, WriteEvent::Absent) => Ok(WriteStage::Write),
        (WriteStage::Write, WriteEvent::Written) => Ok(WriteStage::Done),
        _ => Err(StoreError::IOFailure),
    }
}

/// The stages that a write goes through from `stage` as the events come in,
/// up to the first failure.
pub open spec fn stages_from(stage: WriteStage, events: Seq<WriteEvent>) -> Seq<WriteStage>
    decreases events.len(),
{
    if events.len() == 0 {
        seq![stage]
    } else {
        match stage_after(stage, events[0]) {
            Ok(next) => seq![stage] + stages_from(next, events.drop_first()),
            Err(_) => seq![stage],
        }
    }
}

/// How far a stage is from the beginning of a write.
pub open spec fn stage_rank(stage: WriteStage) -> int {
    match stage {
        WriteStage::Shard => 0,
        WriteStage::Probe => 1,
        WriteStage::Write => 2,
        WriteStage::Done => 3,
    }
}

/// A write never comes back to a stage: whatever the events, each stage is
/// gone through once at most, so the bytes are written once at most; and the
/// stage `Write` is only reached by the event `Absent`.
pub proof fn lemma_write_at_most_once(stage: WriteStage, events: Seq<WriteEvent>)
    ensures
        forall|i: int, j: int|
            0 <= i < j < stages_from(stage, events).len() ==> stage_rank(
                #[trigger] stages_from(stage, events)[i],
            ) < stage_rank(#[trigger] stages_from(stage, events)[j]),
        forall|i: int|
            0 < i < stages_from(stage, events).len() && #[trigger] stages_from(stage, events)[i]
                == WriteStage::Write ==> events[i - 1] == WriteEvent::Absent,
        stages_from(stage, events).len() <= events.len() + 1,
        stages_from(stage, events)[0] == stage,
    decreases events.len(),
{
    let all = stages_from(stage, events);
    if events.len() == 0 {
    } else {
        match stage_after(stage, events[0]) {
            Ok(next) => {
                let rest = stages_from(next, events.drop_first());
                lemma_write_at_most_once(next, events.drop_first());
                assert(all == seq![stage] + rest);
                assert forall|i: int, j: int| 0 <= i < j < all.len() implies stage_rank(
                    #[trigger] all[i],
                ) < stage_rank(#[trigger] all[j]) by {
                    assert(all[j] == rest[j - 1]);
                    if i == 0 {
                        if j > 1 {
                            assert(stage_rank(rest[0]) < stage_rank(rest[j - 1]));
                        }
                    } else {
                        assert(all[i] == rest[i - 1]);
                    }
                }
                assert forall|i: int|
                    0 < i < all.len() && #[trigger] all[i] == WriteStage::Write implies events[i
                        - 1] == WriteEvent::Absent by {
                    assert(all[i] == rest[i - 1]);
                    if i > 1 {
                        assert(events.drop_first()[i - 2] == events[i - 1]);
                    }
                }
            },
            Err(_) => {},
        }
    }
}

/// What reading an object's file gave.
#[derive(Debug, PartialEq, Eq)]
pub enum ReadOutcome {
    /// The file's bytes.
    Found(Vec<u8>),
    /// There is no such file.
    Missing,
    /// The file system failed for another reason.
    Failed,
}

/// What a read means for the caller, as a mathematical value.
pub open spec fn read_result(outcome: ReadOutcome) -> Result<ObjectView, StoreError> {
    match outcome {
        ReadOutcome::Found(bytes) => parse_object(bytes@),
        ReadOutcome::Missing => Err(StoreError::NotFound),
        ReadOutcome::Failed => Err(StoreError::IOFailure),
    }
}

/// Turns what reading an object's file gave into the object: a missing file
/// is `NotFound`, another failure `IOFailure`, and bytes are decoded, with
/// every decoding error handed on.
pub fn decode_read(outcome: ReadOutcome) -> (res: Result<OObject, StoreError>)
    ensures
        res matches Ok(object) ==> read_result(outcome) == Ok::<ObjectView, StoreError>(object@),
        res matches Err(e) ==> read_result(outcome) == Err::<ObjectView, StoreError>(e),
{
    match outcome {
        ReadOutcome::Found(bytes) => OObject::deserialize(bytes.as_slice()),
        ReadOutcome::Missing => Err(StoreError::NotFound),
        ReadOutcome::Failed => Err(StoreError::IOFailure),
    }
}

/// Reading an object whose file has lost the last byte of its payload fails
/// with `SizeMismatch`.
pub proof fn lemma_read_truncated(object: ObjectView, outcome: ReadOutcome)
    requires
        0 < object.data.len() <= usize::MAX,
        outcome matches ReadOutcome::Found(bytes) && bytes@ == frame(object).drop_last(),
    ensures
        read_result(outcome) == Err::<ObjectView, StoreError>(
            StoreError::Corrupt(CorruptKind::SizeMismatch),
        ),
{
    lemma_truncated_payload(object);
}

/// What a store that holds the given bytes under each identifier answers
/// at a stage of the write of `pending`.
pub open spec fn event_at(
    files: Map<Seq<char>, Seq<u8>>,
    pending: PendingView,
    stage: WriteStage,
) -> WriteEvent {
    match stage {
        WriteStage::Shard => WriteEvent::ShardReady,
        WriteStage::Probe => if files.dom().contains(pending.id) {
            WriteEvent::Present
        } else {
            WriteEvent::Absent
        },
        WriteStage::Write => WriteEvent::Written,
        WriteStage::Done => WriteEvent::Failed,
    }
}

/// What the store holds once the work of a stage is done: the stage `Write`
/// puts the bytes under the identifier, the other stages change nothing.
pub open spec fn files_at(
    files: Map<Seq<char>, Seq<u8>>,
    pending: PendingView,
    stage: WriteStage,
) -> Map<Seq<char>, Seq<u8>> {
    if stage == WriteStage::Write {
        files.insert(pending.id, pending.bytes)
    } else {
        files
    }
}

/// What the store holds after a write that goes on from `stage` for at most
/// `steps` stages, and the stage that the write has reached then.
pub open spec fn write_run(
    files: Map<Seq<char>, Seq<u8>>,
    pending: PendingView,
    stage: WriteStage,
    steps: nat,
) -> Result<(Map<Seq<char>, Seq<u8>>, WriteStage), StoreError>
    decreases steps,
{
    if steps == 0 || stage == WriteStage::Done {
        Ok((files, stage))
    } else {
        match stage_after(stage, event_at(files, pending, stage)) {
            Ok(next) => write_run(
                files_at(files, pending, stage),
                pending,
                next,
                (steps - 1) as nat,
            ),
            Err(e) => Err(e),
        }
    }
}

/// What a store holds after an object was written to it: what it held
/// before, and the object's serialized form under the object's identifier
/// unless something was there already.
pub open spec fn files_after_write(
    files: Map<Seq<char>, Seq<u8>>,
    object: ObjectView,
) -> Map<Seq<char>, Seq<u8>> {
    if files.dom().contains(object_id(object)) {
        files
    } else {
        files.insert(object_id(object), frame(object))
    }
}

/// A write comes to its end within three stages. It leaves alone what the
/// store held, and a file that is there already is not written again.
pub proof fn lemma_write_run(files: Map<Seq<char>, Seq<u8>>, object: ObjectView)
    ensures
        write_run(files, pending_write(object), WriteStage::Shard, 3) == Ok::<
            (Map<Seq<char>, Seq<u8>>, WriteStage),
            StoreError,
        >((files_after_write(files, object), WriteStage::Done)),
{
    let pending = pending_write(object);
    reveal_with_fuel(write_run, 4);
    if files.dom().contains(pending.id) {
        assert(write_run(files, pending, WriteStage::Probe, 2) == Ok::<
            (Map<Seq<char>, Seq<u8>>, WriteStage),
            StoreError,
        >((files, WriteStage::Done)));
    } else {
        let after = files.insert(pending.id, pending.bytes);
        assert(write_run(after, pending, WriteStage::Done, 0) == Ok::<
            (Map<Seq<char>, Seq<u8>>, WriteStage),
            StoreError,
        >((after, WriteStage::Done)));
        assert(write_run(files, pending, WriteStage::Write, 1) == Ok::<
            (Map<Seq<char>, Seq<u8>>, WriteStage),
            StoreError,
        >((after, WriteStage::Done)));
        assert(write_run(files, pending, WriteStage::Probe, 2) == Ok::<
            (Map<Seq<char>, Seq<u8>>, WriteStage),
            StoreError,
        >((after, WriteStage::Done)));
    }
}

/// An object that was written to a store that did not hold another file
/// under its identifier is read back as it was written.
pub proof fn lemma_read_after_write(files: Map<Seq<char>, Seq<u8>>, object: ObjectView)
    requires
        object.data.len() <= usize::MAX,
        files.dom().contains(object_id(object)) ==> files[object_id(object)] == frame(object),
    ensures
        files_after_write(files, object).dom().contains(object_id(object)),
        parse_object(files_after_write(files, object)[object_id(object)]) == Ok::<
            ObjectView,
            StoreError,
        >(object),
{
    crate::object::lemma_deserialize_serialize(object);
}

} // verus!
