use ogit::commit::Commit;
use ogit::error::{CorruptKind, StoreError};
use ogit::history::{has_line_break, history_step, is_single_line, prepare_commit};
use ogit::object::{OObject, OObjectId};
use ogit::store::{decode_read, prepare_write, ReadOutcome};
use std::collections::HashMap;

fn store_commit(
    store: &mut HashMap<String, Vec<u8>>,
    tree: &str,
    parent: Option<&OObjectId>,
    author: &str,
    message: &str,
) -> OObjectId {
    let pending = prepare_commit(&OObjectId(tree.to_string()), parent, author, message).unwrap();
    store.insert(pending.id.as_str().to_string(), pending.bytes);
    pending.id
}

fn read(store: &HashMap<String, Vec<u8>>, id: &OObjectId) -> ReadOutcome {
    match store.get(id.as_str()) {
        Some(bytes) => ReadOutcome::Found(bytes.clone()),
        None => ReadOutcome::Missing,
    }
}

fn traverse(
    store: &HashMap<String, Vec<u8>>,
    start: &OObjectId,
) -> Result<Vec<Commit>, StoreError> {
    let mut commits = Vec::new();
    let mut current = Some(OObjectId(start.as_str().to_string()));
    while let Some(id) = current {
        current = history_step(&mut commits, read(store, &id))?;
    }
    Ok(commits)
}

fn read_object(store: &HashMap<String, Vec<u8>>, id: &OObjectId) -> Result<OObject, StoreError> {
    decode_read(read(store, id))
}

#[test]
fn test_create_commit_without_parent() {
    let mut store = HashMap::new();
    let commit_id = store_commit(&mut store, "abc123def456", None, "Author", "First commit");

    let obj = read_object(&store, &commit_id).unwrap();
    let commit = Commit::deserialize(&obj.data).unwrap();

    assert_eq!(commit.tree.as_str(), "abc123def456");
    assert!(commit.parent.is_none());
    assert_eq!(commit.author, "Author");
    assert_eq!(commit.message, "First commit");
}

#[test]
fn test_create_commit_with_parent() {
    let mut store = HashMap::new();
    let parent_id = OObjectId("parent789".to_string());
    let commit_id =
        store_commit(&mut store, "abc123", Some(&parent_id), "Author", "Second commit");

    let obj = read_object(&store, &commit_id).unwrap();
    let commit = Commit::deserialize(&obj.data).unwrap();

    assert_eq!(commit.parent.unwrap().as_str(), "parent789");
}

#[test]
fn prepared_commit_serializes_to_its_three_lines() {
    let pending = prepare_commit(&OObjectId("T".to_string()), None, "A", "m").unwrap();
    assert_eq!(pending.bytes, b"commit 25\0tree T\nauthor A\nmessage m".to_vec());
    assert_eq!(
        pending.id.as_str(),
        "a99f43550c87afb8b3e1fb2334b689d68f2f10dae7eb4227ce53346433e3d773"
    );
    assert_eq!(pending.path.shard, "a9");
    assert_eq!(
        pending.path.entry,
        "9f43550c87afb8b3e1fb2334b689d68f2f10dae7eb4227ce53346433e3d773"
    );
}

#[test]
fn prepared_commit_is_the_write_of_the_commit_object() {
    let commit = Commit {
        tree: OObjectId("0123".to_string()),
        parent: Some(OObjectId("4567".to_string())),
        author: "A B".to_string(),
        message: "words and more".to_string(),
    };
    let expected = prepare_write(&OObject::new_commit(commit.serialize()));
    let pending =
        prepare_commit(&commit.tree, commit.parent.as_ref(), "A B", "words and more").unwrap();
    assert_eq!(pending, expected);
}

#[test]
fn line_break_in_a_commit_is_refused() {
    let tree = OObjectId("T".to_string());
    let bad = OObjectId("T\nauthor X".to_string());
    let refused = Err(StoreError::Corrupt(CorruptKind::InvalidEncoding));
    assert_eq!(prepare_commit(&tree, None, "A\nB", "m"), refused);
    assert_eq!(prepare_commit(&tree, None, "A", "m\n"), refused);
    assert_eq!(prepare_commit(&tree, None, "A", "\n"), refused);
    assert_eq!(prepare_commit(&bad, None, "A", "m"), refused);
    assert_eq!(prepare_commit(&tree, Some(&bad), "A", "m"), refused);
}

#[test]
fn carriage_return_at_the_end_of_tree_parent_or_author_is_refused() {
    let tree = OObjectId("T".to_string());
    let bad = OObjectId("T\r".to_string());
    let refused = Err(StoreError::Corrupt(CorruptKind::InvalidEncoding));
    assert_eq!(prepare_commit(&tree, None, "A\r", "m"), refused);
    assert_eq!(prepare_commit(&bad, None, "A", "m"), refused);
    assert_eq!(prepare_commit(&tree, Some(&bad), "A", "m"), refused);
    assert!(prepare_commit(&tree, None, "A\rB", "m\rn").is_ok());
}

#[test]
fn message_that_ends_in_carriage_return_is_accepted() {
    let tree = OObjectId("T".to_string());
    let pending = prepare_commit(&tree, None, "A", "m\r").unwrap();
    assert_eq!(pending.bytes, b"commit 26\0tree T\nauthor A\nmessage m\r".to_vec());
    let object = OObject::deserialize(&pending.bytes).unwrap();
    let commit = Commit::deserialize(&object.data).unwrap();
    assert_eq!(commit.message, "m\r");
}

#[test]
fn line_break_is_found_wherever_it_stands() {
    assert!(!has_line_break(""));
    assert!(!has_line_break("one line\r"));
    assert!(!has_line_break("\u{2028}\u{10a}"));
    assert!(has_line_break("\n"));
    assert!(has_line_break("a\nb"));
    assert!(has_line_break("end\n"));
}

#[test]
fn empty_author_and_message_are_accepted() {
    let pending = prepare_commit(&OObjectId("T".to_string()), None, "", "").unwrap();
    assert_eq!(pending.bytes, b"commit 23\0tree T\nauthor \nmessage ".to_vec());
}

#[test]
fn single_line_means_no_line_break_and_no_carriage_return_at_the_end() {
    assert!(is_single_line(""));
    assert!(is_single_line("one line, with spaces\tand a tab"));
    assert!(is_single_line("a carriage return\rinside"));
    assert!(is_single_line("\u{2028}\u{e9}\u{4e0a}"));
    assert!(is_single_line("\u{10d}"));
    assert!(!is_single_line("\n"));
    assert!(!is_single_line("two\nlines"));
    assert!(!is_single_line("ends with a break\n"));
    assert!(!is_single_line("\r"));
    assert!(!is_single_line("ends with a carriage return\r"));
}

#[test]
fn history_goes_from_the_start_to_the_root() {
    let mut store = HashMap::new();
    let c1 = store_commit(&mut store, "t1", None, "A", "first");
    let c2 = store_commit(&mut store, "t2", Some(&c1), "B", "second");
    let c3 = store_commit(&mut store, "t3", Some(&c2), "C", "third");

    let history = traverse(&store, &c3).unwrap();
    assert_eq!(history.len(), 3);
    assert_eq!(history[0].message, "third");
    assert_eq!(history[0].parent, Some(c2));
    assert_eq!(history[1].message, "second");
    assert_eq!(history[1].parent, Some(c1));
    assert_eq!(history[2].message, "first");
    assert_eq!(history[2].parent, None);
    assert_eq!(history[2].tree.as_str(), "t1");
}

#[test]
fn history_of_a_root_is_the_root() {
    let mut store = HashMap::new();
    let c1 = store_commit(&mut store, "t1", None, "A", "only");
    let history = traverse(&store, &c1).unwrap();
    assert_eq!(history.len(), 1);
    assert_eq!(history[0].author, "A");
}

#[test]
fn missing_ancestor_is_an_incomplete_chain() {
    let mut store = HashMap::new();
    let c1 = store_commit(&mut store, "t1", None, "A", "first");
    let c2 = store_commit(&mut store, "t2", Some(&c1), "B", "second");
    store.remove(c1.as_str());
    assert_eq!(traverse(&store, &c2), Err(StoreError::IncompleteChain));
}

#[test]
fn missing_start_is_an_incomplete_chain() {
    let store = HashMap::new();
    let start = OObjectId("00ff".to_string());
    assert_eq!(traverse(&store, &start), Err(StoreError::IncompleteChain));
}

#[test]
fn corrupt_ancestor_is_an_incomplete_chain() {
    let mut store = HashMap::new();
    let c1 = store_commit(&mut store, "t1", None, "A", "first");
    let c2 = store_commit(&mut store, "t2", Some(&c1), "B", "second");
    store.get_mut(c1.as_str()).unwrap().pop();
    assert_eq!(traverse(&store, &c2), Err(StoreError::IncompleteChain));
}

#[test]
fn step_appends_the_commit_and_names_the_parent() {
    let mut commits = Vec::new();
    let bytes = b"commit 34\0tree T\nparent P\nauthor A\nmessage m".to_vec();
    let next = history_step(&mut commits, ReadOutcome::Found(bytes));
    assert_eq!(next, Ok(Some(OObjectId("P".to_string()))));
    assert_eq!(commits.len(), 1);
    assert_eq!(commits[0].tree.as_str(), "T");

    let bytes = b"commit 25\0tree T\nauthor A\nmessage m".to_vec();
    let next = history_step(&mut commits, ReadOutcome::Found(bytes));
    assert_eq!(next, Ok(None));
    assert_eq!(commits.len(), 2);
}

#[test]
fn broken_step_leaves_the_commits_alone() {
    let mut commits = Vec::new();
    let bytes = b"commit 25\0tree T\nauthor A\nmessage m".to_vec();
    history_step(&mut commits, ReadOutcome::Found(bytes)).unwrap();
    let before = commits.clone();

    for outcome in [
        ReadOutcome::Missing,
        ReadOutcome::Failed,
        ReadOutcome::Found(b"commit 99\0tree T".to_vec()),
        ReadOutcome::Found(b"commit 6\0tree T".to_vec()),
        ReadOutcome::Found(b"commit 1\0\xff".to_vec()),
    ] {
        assert_eq!(history_step(&mut commits, outcome), Err(StoreError::IncompleteChain));
        assert_eq!(commits, before);
    }
}

#[test]
fn step_reads_the_payload_whatever_the_kind() {
    let mut commits = Vec::new();
    let bytes = b"blob 25\0tree T\nauthor A\nmessage m".to_vec();
    assert_eq!(history_step(&mut commits, ReadOutcome::Found(bytes)), Ok(None));
    assert_eq!(commits.len(), 1);
}
