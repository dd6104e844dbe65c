use ogit::error::{CorruptKind, StoreError};
use ogit::object::{OObjectId, OObjectType, TreeEntry};

#[test]
fn test_tree_entry_to_line() {
    let entry = TreeEntry {
        kind: OObjectType::Blob,
        hash: OObjectId("abc123".to_string()),
        name: "readme.txt".to_string(),
    };

    assert_eq!(entry.to_line(), "blob abc123 readme.txt");
}

#[test]
fn test_serialize_deserialize_tree_roundtrip() {
    let entries = vec![
        TreeEntry {
            kind: OObjectType::Blob,
            hash: OObjectId("aaa111".to_string()),
            name: "zebra.txt".to_string(),
        },
        TreeEntry {
            kind: OObjectType::Tree,
            hash: OObjectId("bbb222".to_string()),
            name: "alpha".to_string(),
        },
        TreeEntry {
            kind: OObjectType::Blob,
            hash: OObjectId("ccc333".to_string()),
            name: "middle.rs".to_string(),
        },
    ];

    let serialized = TreeEntry::serialize_tree(&entries);
    let deserialized = TreeEntry::deserialize_tree(&serialized).unwrap();

    assert_eq!(deserialized.len(), 3);
    assert_eq!(deserialized[0].name, "alpha");
    assert_eq!(deserialized[1].name, "middle.rs");
    assert_eq!(deserialized[2].name, "zebra.txt");

    assert_eq!(deserialized[0].kind, OObjectType::Tree);
    assert_eq!(deserialized[0].hash.as_str(), "bbb222");
}

#[test]
fn test_tree_with_spaces_in_filename() {
    let entries = vec![
        TreeEntry {
            kind: OObjectType::Blob,
            hash: OObjectId("abc123".to_string()),
            name: "my file with spaces.txt".to_string(),
        },
    ];

    let serialized = TreeEntry::serialize_tree(&entries);
    let deserialized = TreeEntry::deserialize_tree(&serialized).unwrap();

    assert_eq!(deserialized[0].name, "my file with spaces.txt");
}

fn entry(kind: OObjectType, hash: &str, name: &str) -> TreeEntry {
    TreeEntry::new(kind, OObjectId(hash.to_string()), name.to_string())
}

#[test]
fn new_entry_holds_its_parts() {
    let made = entry(OObjectType::Tree, "0a", "src");
    assert_eq!(made.kind, OObjectType::Tree);
    assert_eq!(made.hash, OObjectId("0a".to_string()));
    assert_eq!(made.name, "src");
    assert_eq!(made.to_line(), "tree 0a src");
}

#[test]
fn tree_payload_is_sorted_lines_without_trailing_line_break() {
    let entries = vec![
        entry(OObjectType::Blob, "22", "b.txt"),
        entry(OObjectType::Blob, "11", "a.txt"),
    ];
    assert_eq!(
        TreeEntry::serialize_tree(&entries),
        b"blob 11 a.txt\nblob 22 b.txt".to_vec()
    );
}

#[test]
fn tree_payload_does_not_depend_on_input_order() {
    let a = entry(OObjectType::Blob, "11", "a");
    let b = entry(OObjectType::Tree, "22", "b");
    let c = entry(OObjectType::Blob, "33", "c");
    let expected = b"blob 11 a\ntree 22 b\nblob 33 c".to_vec();
    for order in [[0, 1, 2], [0, 2, 1], [1, 0, 2], [1, 2, 0], [2, 0, 1], [2, 1, 0]] {
        let all = [a.clone(), b.clone(), c.clone()];
        let entries: Vec<TreeEntry> = order.iter().map(|&i| all[i].clone()).collect();
        assert_eq!(TreeEntry::serialize_tree(&entries), expected);
    }
}

#[test]
fn empty_tree_has_empty_payload() {
    assert_eq!(TreeEntry::serialize_tree(&[]), Vec::<u8>::new());
    assert_eq!(TreeEntry::deserialize_tree(b"").unwrap(), Vec::<TreeEntry>::new());
}

#[test]
fn single_entry_has_no_line_break() {
    let entries = vec![entry(OObjectType::Tree, "ff", "dir")];
    assert_eq!(TreeEntry::serialize_tree(&entries), b"tree ff dir".to_vec());
}

#[test]
fn names_are_ordered_by_their_bytes() {
    let entries = vec![
        entry(OObjectType::Blob, "1", "b"),
        entry(OObjectType::Blob, "2", "a.txt"),
        entry(OObjectType::Blob, "3", "ab"),
        entry(OObjectType::Blob, "4", "B"),
        entry(OObjectType::Blob, "5", "a"),
        entry(OObjectType::Blob, "6", "\u{e9}"),
        entry(OObjectType::Blob, "7", ""),
        entry(OObjectType::Blob, "8", "a b"),
    ];
    let back = TreeEntry::deserialize_tree(&TreeEntry::serialize_tree(&entries)).unwrap();
    let names: Vec<&str> = back.iter().map(|e| e.name.as_str()).collect();
    assert_eq!(names, vec!["", "B", "a", "a b", "a.txt", "ab", "b", "\u{e9}"]);
    let ids: Vec<&str> = back.iter().map(|e| e.hash.as_str()).collect();
    assert_eq!(ids, vec!["7", "4", "5", "8", "2", "3", "1", "6"]);
}

#[test]
fn entries_of_the_same_name_keep_their_order() {
    let entries = vec![
        entry(OObjectType::Blob, "first", "same"),
        entry(OObjectType::Blob, "zz", "a"),
        entry(OObjectType::Tree, "second", "same"),
        entry(OObjectType::Blob, "third", "same"),
    ];
    assert_eq!(
        TreeEntry::serialize_tree(&entries),
        b"blob zz a\nblob first same\ntree second same\nblob third same".to_vec()
    );
}

#[test]
fn serialize_leaves_its_input_alone() {
    let entries = vec![
        entry(OObjectType::Blob, "2", "z"),
        entry(OObjectType::Blob, "1", "a"),
    ];
    let copy = entries.clone();
    let _ = TreeEntry::serialize_tree(&entries);
    assert_eq!(entries, copy);
}

#[test]
fn tree_names_outside_ascii_come_back() {
    let entries = vec![
        entry(OObjectType::Blob, "0a", "\u{65e5}\u{672c}\u{8a9e}.txt"),
        entry(OObjectType::Tree, "0b", "\u{1f4c1} docs"),
    ];
    let back = TreeEntry::deserialize_tree(&TreeEntry::serialize_tree(&entries)).unwrap();
    assert_eq!(back.len(), 2);
    assert_eq!(back[0], entries[0]);
    assert_eq!(back[1], entries[1]);
}

#[test]
fn deserialize_keeps_payload_order_and_skips_empty_lines() {
    let back = TreeEntry::deserialize_tree(b"\nblob 2 z\n\n\ntree 1 a\n").unwrap();
    assert_eq!(
        back,
        vec![entry(OObjectType::Blob, "2", "z"), entry(OObjectType::Tree, "1", "a")]
    );
}

#[test]
fn line_with_fewer_than_three_tokens_is_malformed() {
    for bytes in [&b"blob abc"[..], &b"blob"[..], &b"x"[..], &b"blob 1 a\ntree 2"[..]] {
        assert_eq!(
            TreeEntry::deserialize_tree(bytes),
            Err(StoreError::Corrupt(CorruptKind::MalformedHeader))
        );
    }
}

#[test]
fn line_with_another_kind_word_is_unknown_kind() {
    for bytes in [&b"commit abc name"[..], &b"file abc name"[..], &b" abc name"[..]] {
        assert_eq!(
            TreeEntry::deserialize_tree(bytes),
            Err(StoreError::Corrupt(CorruptKind::UnknownKind))
        );
    }
}

#[test]
fn first_bad_line_decides_the_error() {
    assert_eq!(
        TreeEntry::deserialize_tree(b"blob 1 a\nnokind 2 b\nshort"),
        Err(StoreError::Corrupt(CorruptKind::UnknownKind))
    );
    assert_eq!(
        TreeEntry::deserialize_tree(b"blob 1 a\nshort\nnokind 2 b"),
        Err(StoreError::Corrupt(CorruptKind::MalformedHeader))
    );
    assert_eq!(
        TreeEntry::deserialize_tree(b"nokind\nnokind 2 b"),
        Err(StoreError::Corrupt(CorruptKind::MalformedHeader))
    );
}

#[test]
fn tree_that_is_not_utf8_is_invalid_encoding() {
    assert_eq!(
        TreeEntry::deserialize_tree(b"blob 1 a\xff"),
        Err(StoreError::Corrupt(CorruptKind::InvalidEncoding))
    );
    assert_eq!(
        TreeEntry::deserialize_tree(b"short\nblob 1 \xe2\x82"),
        Err(StoreError::Corrupt(CorruptKind::InvalidEncoding))
    );
}

#[test]
fn empty_identifier_and_name_are_tokens_too() {
    let back = TreeEntry::deserialize_tree(b"blob  ").unwrap();
    assert_eq!(back, vec![entry(OObjectType::Blob, "", "")]);
    let back = TreeEntry::deserialize_tree(b"tree  name").unwrap();
    assert_eq!(back, vec![entry(OObjectType::Tree, "", "name")]);
}

#[test]
fn commit_entry_is_written_but_not_read_back() {
    let entries = vec![entry(OObjectType::Commit, "1", "a")];
    let bytes = TreeEntry::serialize_tree(&entries);
    assert_eq!(bytes, b"commit 1 a".to_vec());
    assert_eq!(
        TreeEntry::deserialize_tree(&bytes),
        Err(StoreError::Corrupt(CorruptKind::UnknownKind))
    );
}

#[test]
fn tree_lines_may_end_in_carriage_return_and_line_break() {
    let back = TreeEntry::deserialize_tree(b"blob 1 a\r\ntree 2 b\r\n\r\nblob 3 c").unwrap();
    assert_eq!(
        back,
        vec![
            entry(OObjectType::Blob, "1", "a"),
            entry(OObjectType::Tree, "2", "b"),
            entry(OObjectType::Blob, "3", "c"),
        ]
    );
}

#[test]
fn tree_line_keeps_other_carriage_returns() {
    let back = TreeEntry::deserialize_tree(b"blob 1 a\r\r\ntree 2\r b\rc\nblob 3 d\r").unwrap();
    assert_eq!(
        back,
        vec![
            entry(OObjectType::Blob, "1", "a\r"),
            entry(OObjectType::Tree, "2\r", "b\rc"),
            entry(OObjectType::Blob, "3", "d\r"),
        ]
    );
}

#[test]
fn name_that_ends_in_carriage_return_comes_back_without_it() {
    let entries = vec![
        entry(OObjectType::Blob, "1", "a\r"),
        entry(OObjectType::Blob, "2", "b"),
    ];
    let bytes = TreeEntry::serialize_tree(&entries);
    assert_eq!(bytes, b"blob 1 a\r\nblob 2 b".to_vec());
    let back = TreeEntry::deserialize_tree(&bytes).unwrap();
    assert_eq!(back[0].name, "a");
    assert_eq!(back[1].name, "b");
}
