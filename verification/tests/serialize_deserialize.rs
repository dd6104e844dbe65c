use ogit::error::{CorruptKind, StoreError};
use ogit::object::{OObject, OObjectType};

#[test]
fn test_serialize_deserialize_roundtrip() {
    let original = OObject::new_blob(b"Hello, world!".to_vec());
    let serialized = original.serialize();
    let deserialized = OObject::deserialize(&serialized).unwrap();

    assert_eq!(original, deserialized);
}

#[test]
fn blob_serializes_to_header_null_and_payload() {
    let blob = OObject::new_blob(b"Hello, world!".to_vec());
    assert_eq!(blob.serialize(), b"blob 13\0Hello, world!".to_vec());
}

#[test]
fn constructors_set_the_kind() {
    assert_eq!(OObject::new_blob(vec![1]).kind, OObjectType::Blob);
    assert_eq!(OObject::new_tree(vec![1]).kind, OObjectType::Tree);
    assert_eq!(OObject::new_commit(vec![1]).kind, OObjectType::Commit);
    assert_eq!(OObject::new_commit(vec![1, 2]).data, vec![1, 2]);
}

#[test]
fn kind_words() {
    assert_eq!(OObjectType::Blob.as_str(), "blob");
    assert_eq!(OObjectType::Tree.as_str(), "tree");
    assert_eq!(OObjectType::Commit.as_str(), "commit");
}

#[test]
fn each_kind_comes_back() {
    for object in [
        OObject::new_blob(b"x".to_vec()),
        OObject::new_tree(b"blob aa n".to_vec()),
        OObject::new_commit(b"tree T\nauthor A\nmessage m".to_vec()),
    ] {
        assert_eq!(OObject::deserialize(&object.serialize()).unwrap(), object);
    }
    assert_eq!(OObject::new_tree(b"xy".to_vec()).serialize(), b"tree 2\0xy".to_vec());
    assert_eq!(OObject::new_commit(b"xy".to_vec()).serialize(), b"commit 2\0xy".to_vec());
}

#[test]
fn empty_payload_comes_back() {
    let blob = OObject::new_blob(Vec::new());
    assert_eq!(blob.serialize(), b"blob 0\0".to_vec());
    assert_eq!(OObject::deserialize(b"blob 0\0").unwrap(), blob);
}

#[test]
fn payload_may_hold_null_bytes_and_any_byte() {
    let mut data: Vec<u8> = Vec::new();
    for n in 0..=255u8 {
        data.push(n);
    }
    let blob = OObject::new_blob(data);
    let bytes = blob.serialize();
    assert!(bytes.starts_with(b"blob 256\0\x00\x01"));
    assert_eq!(OObject::deserialize(&bytes).unwrap(), blob);
}

#[test]
fn length_is_written_in_decimal_without_padding() {
    assert!(OObject::new_blob(vec![0; 9]).serialize().starts_with(b"blob 9\0"));
    assert!(OObject::new_blob(vec![0; 10]).serialize().starts_with(b"blob 10\0"));
    assert!(OObject::new_blob(vec![0; 1234]).serialize().starts_with(b"blob 1234\0"));
    assert!(OObject::new_blob(vec![0; 100_000]).serialize().starts_with(b"blob 100000\0"));
}

#[test]
fn missing_null_byte_is_missing_delimiter() {
    assert_eq!(
        OObject::deserialize(b"blob 5 Hello"),
        Err(StoreError::Corrupt(CorruptKind::MissingDelimiter))
    );
    assert_eq!(
        OObject::deserialize(b""),
        Err(StoreError::Corrupt(CorruptKind::MissingDelimiter))
    );
}

#[test]
fn header_without_space_is_malformed() {
    assert_eq!(
        OObject::deserialize(b"blob5\0Hello"),
        Err(StoreError::Corrupt(CorruptKind::MalformedHeader))
    );
    assert_eq!(
        OObject::deserialize(b"\0"),
        Err(StoreError::Corrupt(CorruptKind::MalformedHeader))
    );
}

#[test]
fn header_with_two_spaces_is_malformed() {
    assert_eq!(
        OObject::deserialize(b"blob  5\0Hello"),
        Err(StoreError::Corrupt(CorruptKind::MalformedHeader))
    );
    assert_eq!(
        OObject::deserialize(b"blob 5 \0Hello"),
        Err(StoreError::Corrupt(CorruptKind::MalformedHeader))
    );
    assert_eq!(
        OObject::deserialize(b"nothing 5 x\0Hello"),
        Err(StoreError::Corrupt(CorruptKind::MalformedHeader))
    );
}

#[test]
fn unknown_kind_word_is_unknown_kind() {
    assert_eq!(
        OObject::deserialize(b"blub 5\0Hello"),
        Err(StoreError::Corrupt(CorruptKind::UnknownKind))
    );
    assert_eq!(
        OObject::deserialize(b"Blob 5\0Hello"),
        Err(StoreError::Corrupt(CorruptKind::UnknownKind))
    );
    assert_eq!(
        OObject::deserialize(b" 5\0Hello"),
        Err(StoreError::Corrupt(CorruptKind::UnknownKind))
    );
    assert_eq!(
        OObject::deserialize(b"blobs x\0Hello"),
        Err(StoreError::Corrupt(CorruptKind::UnknownKind))
    );
}

#[test]
fn length_that_is_no_number_is_invalid_encoding() {
    for bytes in [
        &b"blob five\0Hello"[..],
        &b"blob \0"[..],
        &b"blob -5\0Hello"[..],
        &b"blob 5x\0Hello"[..],
        &b"blob +\0"[..],
        &b"blob 0x5\0Hello"[..],
        &b"blob 99999999999999999999999999999999999999\0Hello"[..],
    ] {
        assert_eq!(
            OObject::deserialize(bytes),
            Err(StoreError::Corrupt(CorruptKind::InvalidEncoding))
        );
    }
}

#[test]
fn header_that_is_not_utf8_is_invalid_encoding() {
    assert_eq!(
        OObject::deserialize(b"bl\xffb 5\0Hello"),
        Err(StoreError::Corrupt(CorruptKind::InvalidEncoding))
    );
    assert_eq!(
        OObject::deserialize(b"\xc3\0"),
        Err(StoreError::Corrupt(CorruptKind::InvalidEncoding))
    );
}

#[test]
fn length_may_have_a_plus_sign_and_leading_zeros() {
    let blob = OObject::new_blob(b"Hello".to_vec());
    assert_eq!(OObject::deserialize(b"blob +5\0Hello").unwrap(), blob);
    assert_eq!(OObject::deserialize(b"blob 005\0Hello").unwrap(), blob);
    assert_eq!(OObject::deserialize(b"blob +0005\0Hello").unwrap(), blob);
}

#[test]
fn wrong_length_is_size_mismatch() {
    assert_eq!(
        OObject::deserialize(b"blob 4\0Hello"),
        Err(StoreError::Corrupt(CorruptKind::SizeMismatch))
    );
    assert_eq!(
        OObject::deserialize(b"blob 6\0Hello"),
        Err(StoreError::Corrupt(CorruptKind::SizeMismatch))
    );
}

#[test]
fn truncated_payload_is_size_mismatch() {
    let mut bytes = OObject::new_blob(b"Hello, world!".to_vec()).serialize();
    bytes.pop();
    assert_eq!(
        OObject::deserialize(&bytes),
        Err(StoreError::Corrupt(CorruptKind::SizeMismatch))
    );
}

#[test]
fn header_ends_at_the_first_null_byte() {
    let object = OObject::deserialize(b"blob 3\0a\0b").unwrap();
    assert_eq!(object.data, b"a\0b".to_vec());
}

#[test]
fn errors_are_checked_in_order() {
    assert_eq!(
        OObject::deserialize(b"\xff x y\0"),
        Err(StoreError::Corrupt(CorruptKind::InvalidEncoding))
    );
    assert_eq!(
        OObject::deserialize(b"nokind nonumber extra\0"),
        Err(StoreError::Corrupt(CorruptKind::MalformedHeader))
    );
    assert_eq!(
        OObject::deserialize(b"nokind nonumber\0"),
        Err(StoreError::Corrupt(CorruptKind::UnknownKind))
    );
    assert_eq!(
        OObject::deserialize(b"tree nonumber\0"),
        Err(StoreError::Corrupt(CorruptKind::InvalidEncoding))
    );
}
