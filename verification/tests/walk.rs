use ogit::error::StoreError;
use ogit::object::{OObject, OObjectId, OObjectType, TreeEntry};
use ogit::store::{prepare_write, PendingWrite};
use ogit::tree::NodeKind;
use ogit::walk::{DirItem, TreeWalk, WalkReply, WalkRequest};

/// A directory tree in memory.
enum Node {
    File(Vec<u8>),
    Dir(Vec<(String, Node)>),
    Other,
}

fn file(name: &str, content: &[u8]) -> (String, Node) {
    (name.to_string(), Node::File(content.to_vec()))
}

fn dir(name: &str, items: Vec<(String, Node)>) -> (String, Node) {
    (name.to_string(), Node::Dir(items))
}

fn lookup<'a>(root: &'a Node, path: &[String]) -> Option<&'a Node> {
    let mut node = root;
    for part in path {
        match node {
            Node::Dir(items) => node = &items.iter().find(|(name, _)| name == part)?.1,
            _ => return None,
        }
    }
    Some(node)
}

fn answer(root: &Node, request: &WalkRequest) -> WalkReply {
    match request {
        WalkRequest::ListDir(path) => match lookup(root, path) {
            Some(Node::Dir(items)) => WalkReply::Listing(
                items
                    .iter()
                    .map(|(name, node)| DirItem {
                        name: name.clone(),
                        kind: match node {
                            Node::File(_) => NodeKind::File,
                            Node::Dir(_) => NodeKind::Directory,
                            Node::Other => NodeKind::Other,
                        },
                    })
                    .collect(),
            ),
            _ => WalkReply::Failed,
        },
        WalkRequest::ReadFile(path) => match lookup(root, path) {
            Some(Node::File(content)) => WalkReply::Content(content.clone()),
            _ => WalkReply::Failed,
        },
        WalkRequest::Store(_) => WalkReply::Stored,
        WalkRequest::Done(_) => WalkReply::Failed,
    }
}

/// Walks the tree and gives the writes asked for, in order, and the final id.
fn walk(root: &Node) -> Result<(Vec<PendingWrite>, OObjectId), StoreError> {
    let mut stored = Vec::new();
    let (mut state, mut request) = TreeWalk::start();
    loop {
        let reply = answer(root, &request);
        match request {
            WalkRequest::Store(pending) => stored.push(pending),
            WalkRequest::Done(id) => return Ok((stored, id)),
            _ => {}
        }
        (state, request) = state.step(reply)?;
    }
}

fn blob(content: &[u8]) -> PendingWrite {
    prepare_write(&OObject::new_blob(content.to_vec()))
}

fn tree(entries: &[TreeEntry]) -> PendingWrite {
    prepare_write(&OObject::new_tree(TreeEntry::serialize_tree(entries)))
}

fn entry(kind: OObjectType, id: &OObjectId, name: &str) -> TreeEntry {
    TreeEntry::new(kind, OObjectId(id.as_str().to_string()), name.to_string())
}

#[test]
fn walk_starts_by_listing_the_root() {
    let (_, request) = TreeWalk::start();
    assert_eq!(request, WalkRequest::ListDir(Vec::new()));
}

#[test]
fn walk_of_an_empty_directory_stores_the_empty_tree() {
    let (stored, id) = walk(&Node::Dir(Vec::new())).unwrap();
    assert_eq!(stored, vec![tree(&[])]);
    assert_eq!(stored[0].bytes, b"tree 0\0".to_vec());
    assert_eq!(id, stored[0].id);
}

#[test]
fn test_build_tree_single_file() {
    let root = Node::Dir(vec![file("hello.txt", b"Hello, world!")]);
    let (stored, tree_id) = walk(&root).unwrap();
    assert!(stored.iter().any(|pending| pending.id == tree_id));
}

#[test]
fn test_build_tree_with_subdir() {
    let root = Node::Dir(vec![
        dir("src", vec![file("main.rs", b"fn main() {}")]),
        file("readme.txt", b"README"),
    ]);
    let (stored, tree_id) = walk(&root).unwrap();

    let tree_write = stored.iter().find(|pending| pending.id == tree_id).unwrap();
    let tree_obj = OObject::deserialize(&tree_write.bytes).unwrap();
    let entries = TreeEntry::deserialize_tree(&tree_obj.data).unwrap();

    assert_eq!(entries.len(), 2);
    assert_eq!(entries[0].name, "readme.txt");
    assert_eq!(entries[0].kind, OObjectType::Blob);
    assert_eq!(entries[1].name, "src");
    assert_eq!(entries[1].kind, OObjectType::Tree);
}

#[test]
fn test_build_tree_ignores_ogit() {
    let root = Node::Dir(vec![
        dir(".ogit", vec![file("secret", b"ignored")]),
        file("file.txt", b"data"),
    ]);
    let (stored, tree_id) = walk(&root).unwrap();

    let tree_write = stored.iter().find(|pending| pending.id == tree_id).unwrap();
    let tree_obj = OObject::deserialize(&tree_write.bytes).unwrap();
    let entries = TreeEntry::deserialize_tree(&tree_obj.data).unwrap();

    assert_eq!(entries.len(), 1);
    assert_eq!(entries[0].name, "file.txt");
}

#[test]
fn walk_of_a_single_file_stores_blob_then_tree() {
    let root = Node::Dir(vec![file("hello.txt", b"Hello, world!")]);
    let (stored, id) = walk(&root).unwrap();
    let hello = blob(b"Hello, world!");
    let top = tree(&[entry(OObjectType::Blob, &hello.id, "hello.txt")]);
    assert_eq!(id, top.id);
    assert_eq!(stored, vec![hello, top]);
}

#[test]
fn walk_of_two_files_lists_them_by_name() {
    let root = Node::Dir(vec![file("b.txt", b"B"), file("a.txt", b"A")]);
    let (stored, id) = walk(&root).unwrap();
    assert_eq!(stored.len(), 3);
    assert_eq!(stored[0], blob(b"B"));
    assert_eq!(stored[1], blob(b"A"));
    let payload = b"blob c8c8c134138d356e5412fe143a62ccff706e787a5179ee26100ba1d571001a2a a.txt\n\
blob c62697d91cadadbb6c89a8d411f12da82df3efc8a259fe249f935bd97af99773 b.txt";
    let mut framed = b"tree 151\0".to_vec();
    framed.extend_from_slice(payload);
    assert_eq!(stored[2].bytes, framed);
    assert_eq!(
        id.as_str(),
        "f7b7561fb51271b02411710525501301673898b8146b5247e5a22bff0961c0ec"
    );
}

#[test]
fn walk_does_not_depend_on_the_listing_order() {
    let one = Node::Dir(vec![
        file("b.txt", b"B"),
        dir("src", vec![file("x", b"1"), file("y", b"2")]),
        file("a.txt", b"A"),
    ]);
    let other = Node::Dir(vec![
        file("a.txt", b"A"),
        file("b.txt", b"B"),
        dir("src", vec![file("y", b"2"), file("x", b"1")]),
    ]);
    let (stored_one, id_one) = walk(&one).unwrap();
    let (stored_other, id_other) = walk(&other).unwrap();
    assert_eq!(id_one, id_other);
    assert_eq!(stored_one.last(), stored_other.last());
}

#[test]
fn walk_stores_children_before_their_tree() {
    let root = Node::Dir(vec![
        file("readme.txt", b"README"),
        dir("src", vec![file("main.rs", b"fn main() {}"), dir("empty", Vec::new())]),
        file("z", b""),
    ]);
    let (stored, id) = walk(&root).unwrap();

    let readme = blob(b"README");
    let main = blob(b"fn main() {}");
    let empty = tree(&[]);
    let src = tree(&[
        entry(OObjectType::Blob, &main.id, "main.rs"),
        entry(OObjectType::Tree, &empty.id, "empty"),
    ]);
    let z = blob(b"");
    let top = tree(&[
        entry(OObjectType::Blob, &readme.id, "readme.txt"),
        entry(OObjectType::Tree, &src.id, "src"),
        entry(OObjectType::Blob, &z.id, "z"),
    ]);
    assert_eq!(id, top.id);
    assert_eq!(stored, vec![readme, main, empty, src, z, top]);
}

#[test]
fn walk_leaves_out_the_store_and_other_items() {
    let root = Node::Dir(vec![
        dir(".ogit", vec![file("secret", b"ignored")]),
        file("file.txt", b"data"),
        ("socket".to_string(), Node::Other),
        file(".ogit2", b"kept"),
    ]);
    let (stored, _) = walk(&root).unwrap();
    let top = OObject::deserialize(&stored.last().unwrap().bytes).unwrap();
    let entries = TreeEntry::deserialize_tree(&top.data).unwrap();

    assert_eq!(entries.len(), 2);
    assert_eq!(entries[0].name, ".ogit2");
    assert_eq!(entries[1].name, "file.txt");
    assert_eq!(stored.len(), 3);
}

#[test]
fn walk_asks_for_paths_below_the_root() {
    let (state, _) = TreeWalk::start();
    let listing = WalkReply::Listing(vec![
        DirItem { name: "skip".to_string(), kind: NodeKind::Other },
        DirItem { name: "a".to_string(), kind: NodeKind::Directory },
    ]);
    let (state, request) = state.step(listing).unwrap();
    assert_eq!(request, WalkRequest::ListDir(vec!["a".to_string()]));

    let listing = WalkReply::Listing(vec![
        DirItem { name: "b".to_string(), kind: NodeKind::Directory },
    ]);
    let (state, request) = state.step(listing).unwrap();
    assert_eq!(request, WalkRequest::ListDir(vec!["a".to_string(), "b".to_string()]));

    let listing = WalkReply::Listing(vec![
        DirItem { name: "f".to_string(), kind: NodeKind::File },
    ]);
    let (state, request) = state.step(listing).unwrap();
    assert_eq!(
        request,
        WalkRequest::ReadFile(vec!["a".to_string(), "b".to_string(), "f".to_string()])
    );

    let (_, request) = state.step(WalkReply::Content(b"x".to_vec())).unwrap();
    assert_eq!(request, WalkRequest::Store(blob(b"x")));
}

#[test]
fn failed_answer_ends_the_walk_with_io_failure() {
    let (state, _) = TreeWalk::start();
    assert_eq!(state.step(WalkReply::Failed).err(), Some(StoreError::IOFailure));

    let root = Node::Dir(vec![file("a", b"A")]);
    let (state, request) = TreeWalk::start();
    let (state, request) = state.step(answer(&root, &request)).unwrap();
    assert_eq!(request, WalkRequest::ReadFile(vec!["a".to_string()]));
    assert_eq!(state.step(WalkReply::Failed).err(), Some(StoreError::IOFailure));
}

#[test]
fn answer_that_was_not_waited_for_ends_the_walk() {
    let (state, _) = TreeWalk::start();
    assert_eq!(state.step(WalkReply::Stored).err(), Some(StoreError::IOFailure));
    let (state, _) = TreeWalk::start();
    assert_eq!(
        state.step(WalkReply::Content(Vec::new())).err(),
        Some(StoreError::IOFailure)
    );

    let (state, _) = TreeWalk::start();
    let (state, request) = state.step(WalkReply::Listing(Vec::new())).unwrap();
    assert_eq!(request, WalkRequest::Store(tree(&[])));
    assert_eq!(
        state.step(WalkReply::Listing(Vec::new())).err(),
        Some(StoreError::IOFailure)
    );

    let (state, _) = TreeWalk::start();
    let (state, _) = state.step(WalkReply::Listing(Vec::new())).unwrap();
    let (state, request) = state.step(WalkReply::Stored).unwrap();
    assert_eq!(request, WalkRequest::Done(tree(&[]).id));
    assert_eq!(state.step(WalkReply::Stored).err(), Some(StoreError::IOFailure));
}

#[test]
fn missing_directory_ends_the_walk() {
    let root = Node::File(b"not a directory".to_vec());
    assert_eq!(walk(&root).err(), Some(StoreError::IOFailure));
}
