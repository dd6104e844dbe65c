use ogit::error::{CorruptKind, StoreError};
use ogit::hashing_values::{bytes_to_hex, hash_bytes};
use ogit::object::{OObject, OObjectId};
use ogit::store::{
    decode_read, next_stage, object_path, prepare_write, ObjectPath, ReadOutcome, WriteEvent,
    WriteStage,
};
use std::collections::HashMap;

/// An object store in memory, driven by the library's stages: the file names
/// are the identifiers, and `writes` counts the files written.
struct MemoryStore {
    files: HashMap<String, Vec<u8>>,
    writes: usize,
}

fn write_object(store: &mut MemoryStore, object: &OObject) -> Result<OObjectId, StoreError> {
    let pending = prepare_write(object);
    let file = format!("{}/{}", pending.path.shard, pending.path.entry);
    let mut stage = WriteStage::Shard;
    while stage != WriteStage::Done {
        let event = match stage {
            WriteStage::Shard => WriteEvent::ShardReady,
            WriteStage::Probe => {
                if store.files.contains_key(&file) {
                    WriteEvent::Present
                } else {
                    WriteEvent::Absent
                }
            }
            WriteStage::Write => {
                store.files.insert(file.clone(), pending.bytes.clone());
                store.writes += 1;
                WriteEvent::Written
            }
            WriteStage::Done => unreachable!(),
        };
        stage = next_stage(stage, event)?;
    }
    Ok(pending.id)
}

fn read_object(store: &MemoryStore, id: &OObjectId) -> Result<OObject, StoreError> {
    let path = object_path(id).unwrap();
    let file = format!("{}/{}", path.shard, path.entry);
    let outcome = match store.files.get(&file) {
        Some(bytes) => ReadOutcome::Found(bytes.clone()),
        None => ReadOutcome::Missing,
    };
    decode_read(outcome)
}

fn empty_store() -> MemoryStore {
    MemoryStore { files: HashMap::new(), writes: 0 }
}

#[test]
fn test_write_then_read_object() {
    let mut store = empty_store();
    let original = OObject::new_blob(b"roundtrip test".to_vec());
    let id = write_object(&mut store, &original).unwrap();
    let loaded = read_object(&store, &id).unwrap();
    assert_eq!(original, loaded);
}

#[test]
fn test_write_object_creates_file() {
    let mut store = empty_store();

    let obj = OObject::new_blob(b"test content".to_vec());
    let id = write_object(&mut store, &obj).unwrap();

    let (subdir, filename) = id.as_str().split_at(2);
    let file_path = format!("{}/{}", subdir, filename);
    assert!(store.files.contains_key(&file_path), "Object file should exist");

    let stored_bytes = store.files.get(&file_path).unwrap();
    assert_eq!(stored_bytes, &obj.serialize());
    assert_eq!(store.files.len(), 1);
}

#[test]
fn test_write_object_is_idempotent() {
    let mut store = empty_store();

    let obj = OObject::new_blob(b"same content".to_vec());

    let id1 = write_object(&mut store, &obj).unwrap();
    let id2 = write_object(&mut store, &obj).unwrap();

    assert_eq!(id1, id2);
}

#[test]
fn writing_twice_writes_once() {
    let mut store = empty_store();
    let object = OObject::new_blob(b"same content".to_vec());
    let id1 = write_object(&mut store, &object).unwrap();
    let id2 = write_object(&mut store, &OObject::new_blob(b"same content".to_vec())).unwrap();
    assert_eq!(id1, id2);
    assert_eq!(store.writes, 1);
    assert_eq!(store.files.len(), 1);
}

#[test]
fn different_objects_get_different_ids() {
    let blob = prepare_write(&OObject::new_blob(b"x".to_vec()));
    let tree = prepare_write(&OObject::new_tree(b"x".to_vec()));
    let other = prepare_write(&OObject::new_blob(b"y".to_vec()));
    assert_ne!(blob.id, tree.id);
    assert_ne!(blob.id, other.id);
}

#[test]
fn id_is_the_hex_digest_of_the_serialized_bytes() {
    let object = OObject::new_blob(b"Hello, world!".to_vec());
    let pending = prepare_write(&object);
    assert_eq!(pending.bytes, b"blob 13\0Hello, world!".to_vec());
    assert_eq!(pending.id.as_str(), bytes_to_hex(&hash_bytes(&object.serialize())));
    assert_eq!(
        pending.id.as_str(),
        "178b5fbed164aee269fee7323badf7269cca0eed0875717b0d2d4f9819164c3f"
    );
}

#[test]
fn path_is_two_characters_and_sixty_two() {
    let pending = prepare_write(&OObject::new_blob(b"Hello, world!".to_vec()));
    assert_eq!(pending.id.as_str().len(), 64);
    assert_eq!(pending.path.shard, "17");
    assert_eq!(
        pending.path.entry,
        "8b5fbed164aee269fee7323badf7269cca0eed0875717b0d2d4f9819164c3f"
    );
    assert_eq!(pending.path.entry.len(), 62);
}

#[test]
fn empty_blob_has_the_known_id() {
    let pending = prepare_write(&OObject::new_blob(Vec::new()));
    assert_eq!(
        pending.id.as_str(),
        "473a0f4c3be8a93681a267e3b1e9a7dcda1185436fe141f7749120a303721813"
    );
}

#[test]
fn object_path_cuts_behind_the_second_byte() {
    let path = object_path(&OObjectId("abcdef".to_string())).unwrap();
    assert_eq!(path, ObjectPath { shard: "ab".to_string(), entry: "cdef".to_string() });
    let path = object_path(&OObjectId("ab".to_string())).unwrap();
    assert_eq!(path, ObjectPath { shard: "ab".to_string(), entry: String::new() });
    let path = object_path(&OObjectId("\u{e9}x".to_string())).unwrap();
    assert_eq!(path, ObjectPath { shard: "\u{e9}".to_string(), entry: "x".to_string() });
}

#[test]
fn object_path_refuses_what_cannot_be_cut() {
    assert_eq!(object_path(&OObjectId(String::new())), None);
    assert_eq!(object_path(&OObjectId("a".to_string())), None);
    assert_eq!(object_path(&OObjectId("a\u{e9}".to_string())), None);
    assert_eq!(object_path(&OObjectId("\u{4e2d}".to_string())), None);
}

#[test]
fn write_goes_shard_probe_write_done() {
    assert_eq!(next_stage(WriteStage::Shard, WriteEvent::ShardReady), Ok(WriteStage::Probe));
    assert_eq!(next_stage(WriteStage::Probe, WriteEvent::Absent), Ok(WriteStage::Write));
    assert_eq!(next_stage(WriteStage::Write, WriteEvent::Written), Ok(WriteStage::Done));
}

#[test]
fn present_file_ends_the_write_without_writing() {
    assert_eq!(next_stage(WriteStage::Probe, WriteEvent::Present), Ok(WriteStage::Done));
}

#[test]
fn failure_at_any_stage_is_io_failure() {
    for stage in [WriteStage::Shard, WriteStage::Probe, WriteStage::Write, WriteStage::Done] {
        assert_eq!(next_stage(stage, WriteEvent::Failed), Err(StoreError::IOFailure));
    }
}

#[test]
fn answer_that_does_not_belong_to_the_stage_is_io_failure() {
    assert_eq!(next_stage(WriteStage::Shard, WriteEvent::Written), Err(StoreError::IOFailure));
    assert_eq!(next_stage(WriteStage::Shard, WriteEvent::Absent), Err(StoreError::IOFailure));
    assert_eq!(next_stage(WriteStage::Probe, WriteEvent::Written), Err(StoreError::IOFailure));
    assert_eq!(next_stage(WriteStage::Write, WriteEvent::Absent), Err(StoreError::IOFailure));
    assert_eq!(next_stage(WriteStage::Write, WriteEvent::Present), Err(StoreError::IOFailure));
    assert_eq!(next_stage(WriteStage::Done, WriteEvent::Written), Err(StoreError::IOFailure));
    assert_eq!(next_stage(WriteStage::Done, WriteEvent::ShardReady), Err(StoreError::IOFailure));
}

#[test]
fn missing_file_is_not_found() {
    assert_eq!(decode_read(ReadOutcome::Missing), Err(StoreError::NotFound));
    let store = empty_store();
    let id = prepare_write(&OObject::new_blob(b"never written".to_vec())).id;
    assert_eq!(read_object(&store, &id), Err(StoreError::NotFound));
}

#[test]
fn failed_read_is_io_failure() {
    assert_eq!(decode_read(ReadOutcome::Failed), Err(StoreError::IOFailure));
}

#[test]
fn found_bytes_are_decoded() {
    assert_eq!(
        decode_read(ReadOutcome::Found(b"tree 2\0ab".to_vec())),
        Ok(OObject::new_tree(b"ab".to_vec()))
    );
}

#[test]
fn decoding_errors_are_handed_on() {
    assert_eq!(
        decode_read(ReadOutcome::Found(b"no delimiter".to_vec())),
        Err(StoreError::Corrupt(CorruptKind::MissingDelimiter))
    );
    assert_eq!(
        decode_read(ReadOutcome::Found(b"blub 0\0".to_vec())),
        Err(StoreError::Corrupt(CorruptKind::UnknownKind))
    );
}

#[test]
fn stored_object_that_lost_a_byte_reads_as_size_mismatch() {
    let mut store = empty_store();
    let id = write_object(&mut store, &OObject::new_blob(b"will be cut".to_vec())).unwrap();
    for bytes in store.files.values_mut() {
        bytes.pop();
    }
    assert_eq!(read_object(&store, &id), Err(StoreError::Corrupt(CorruptKind::SizeMismatch)));
}

#[test]
fn messages_name_the_failure() {
    assert_eq!(StoreError::NotFound.message(), "object not found");
    assert_eq!(
        StoreError::Corrupt(CorruptKind::MissingDelimiter).message(),
        "missing null byte"
    );
    assert_eq!(StoreError::Corrupt(CorruptKind::MalformedHeader).message(), "malformed header");
    assert_eq!(StoreError::Corrupt(CorruptKind::UnknownKind).message(), "unknown object kind");
    assert_eq!(StoreError::Corrupt(CorruptKind::SizeMismatch).message(), "size mismatch");
    assert_eq!(StoreError::Corrupt(CorruptKind::InvalidEncoding).message(), "invalid encoding");
    assert_eq!(StoreError::IncompleteChain.message(), "incomplete commit chain");
    assert_eq!(StoreError::IOFailure.message(), "file system failure");
}
