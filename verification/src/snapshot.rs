//! A directory tree as a mathematical value, and the proof that a walk of it
//! stores every child before its parent and ends with the tree's identifier.

use crate::error::StoreError;
use crate::object::{OObjectType, ObjectView};
use crate::store::{object_id, pending_write, PendingView};
use crate::tree::{entries_after, plan_for, tree_object, ItemPlan, NodeKind};
use crate::tree_entry::TreeEntryView;
use crate::walk::{
    blob_object, dir_path, entered, settle, walk_start, walk_step, with_top, AwaitingView,
    FrameView, ItemView, ReplyView, RequestView, WalkView,
};
use vstd::multiset::Multiset;
use vstd::prelude::*;

verus! {

/// What stands at a place in a directory tree.
pub enum FsNode {
    /// A regular file with its content.
    File(Seq<u8>),
    /// A directory with its items, in the order in which it lists them.
    Dir(Seq<FsItem>),
    /// Anything else.
    Other,
}

/// An item of a directory: a name and what stands under it.
pub struct FsItem {
    pub name: Seq<char>,
    pub node: FsNode,
}

/// The kind of a node.
pub open spec fn kind_of(node: FsNode) -> NodeKind {
    match node {
        FsNode::File(_) => NodeKind::File,
        FsNode::Dir(_) => NodeKind::Directory,
        FsNode::Other => NodeKind::Other,
    }
}

/// What a directory lists: its items' names and kinds, in order.
pub open spec fn listing(children: Seq<FsItem>) -> Seq<ItemView> {
    children.map_values(|c: FsItem| ItemView { name: c.name, kind: kind_of(c.node) })
}

/// The plan for a child.
pub open spec fn child_plan(child: FsItem) -> ItemPlan {
    plan_for(child.name, kind_of(child.node))
}

/// The entries that the first `upto` items of a directory give: a blob for
/// each file and a tree for each directory, under the item's name, each with
/// the identifier of the child's object.
pub open spec fn dir_entries(children: Seq<FsItem>, upto: int) -> Seq<TreeEntryView>
    decreases children, upto,
{
    if 0 < upto <= children.len() {
        let child = children[upto - 1];
        entries_after(
            dir_entries(children, upto - 1),
            child_plan(child),
            child_id(children, upto - 1),
            child.name,
        )
    } else {
        Seq::empty()
    }
}

/// The identifier of the object of the child at `at`: of its blob or of its tree.
pub open spec fn child_id(children: Seq<FsItem>, at: int) -> Seq<char>
    decreases children, 0int,
{
    if 0 <= at < children.len() {
        match children[at].node {
            FsNode::File(content) => object_id(blob_object(content)),
            FsNode::Dir(inner) => dir_id(inner),
            FsNode::Other => Seq::empty(),
        }
    } else {
        Seq::empty()
    }
}

/// The identifier of the tree of a directory.
pub open spec fn dir_id(children: Seq<FsItem>) -> Seq<char>
    decreases children, children.len() + 1,
{
    object_id(tree_object(dir_entries(children, children.len() as int)))
}

/// The writes that storing the first `upto` items of a directory takes, in
/// order: for a file its blob, for a directory all that storing it takes.
pub open spec fn items_writes(children: Seq<FsItem>, upto: int) -> Seq<PendingView>
    decreases children, upto,
{
    if 0 < upto <= children.len() {
        items_writes(children, upto - 1) + child_writes(children, upto - 1)
    } else {
        Seq::empty()
    }
}

/// The writes that storing the child at `at` takes.
pub open spec fn child_writes(children: Seq<FsItem>, at: int) -> Seq<PendingView>
    decreases children, 0int,
{
    if 0 <= at < children.len() {
        match child_plan(children[at]) {
            ItemPlan::Skip => Seq::empty(),
            ItemPlan::Blob => match children[at].node {
                FsNode::File(content) => seq![pending_write(blob_object(content))],
                _ => Seq::empty(),
            },
            ItemPlan::Subtree => match children[at].node {
                FsNode::Dir(inner) => dir_writes(inner),
                _ => Seq::empty(),
            },
        }
    } else {
        Seq::empty()
    }
}

/// The writes that storing a directory takes, in order: those of its items,
/// and then, last, its own tree.
pub open spec fn dir_writes(children: Seq<FsItem>) -> Seq<PendingView>
    decreases children, children.len() + 1,
{
    items_writes(children, children.len() as int).push(
        pending_write(tree_object(dir_entries(children, children.len() as int))),
    )
}

/// No two of the first `upto` items of the directory have one name, and the
/// same holds in every directory below them.
pub open spec fn names_distinct(children: Seq<FsItem>, upto: int) -> bool
    decreases children, upto,
{
    if 0 < upto <= children.len() {
        &&& names_distinct(children, upto - 1)
        &&& forall|i: int| 0 <= i < upto - 1 ==> (#[trigger] children[i]).name != children[upto
            - 1].name
        &&& match children[upto - 1].node {
            FsNode::Dir(inner) => names_distinct(inner, inner.len() as int),
            _ => true,
        }
    } else {
        true
    }
}

/// The first item of the given name in a directory.
pub open spec fn find_child(children: Seq<FsItem>, name: Seq<char>) -> Option<FsNode>
    decreases children.len(),
{
    if children.len() == 0 {
        None
    } else if children[0].name == name {
        Some(children[0].node)
    } else {
        find_child(children.drop_first(), name)
    }
}

/// What stands at a path below a node.
pub open spec fn node_at(root: FsNode, path: Seq<Seq<char>>) -> Option<FsNode>
    decreases path.len(),
{
    if path.len() == 0 {
        Some(root)
    } else {
        match node_at(root, path.drop_last()) {
            Some(FsNode::Dir(children)) => find_child(children, path.last()),
            _ => None,
        }
    }
}

/// The answer that a directory tree gives to a request: the listing of a
/// directory, the content of a file, and the storing of any object; a
/// request for what is not there fails.
pub open spec fn reply_for(root: FsNode, request: RequestView) -> ReplyView {
    match request {
        RequestView::ListDir(path) => match node_at(root, path) {
            Some(FsNode::Dir(children)) => ReplyView::Listing(listing(children)),
            _ => ReplyView::Failed,
        },
        RequestView::ReadFile(path) => match node_at(root, path) {
            Some(FsNode::File(content)) => ReplyView::Content(content),
            _ => ReplyView::Failed,
        },
        RequestView::Store(_) => ReplyView::Stored,
        RequestView::Done(_) => ReplyView::Failed,
    }
}

/// A walk under way: its state, its open request, and the writes that were
/// asked for and done so far, in order.
pub struct Run {
    pub walk: WalkView,
    pub request: RequestView,
    pub stored: Seq<PendingView>,
}

/// The write that answering a request does.
pub open spec fn write_of(request: RequestView) -> Seq<PendingView> {
    match request {
        RequestView::Store(pending) => seq![pending],
        _ => Seq::empty(),
    }
}

/// The run after `steps` more requests have been answered by the tree.
pub open spec fn run_walk(root: FsNode, run: Run, steps: nat) -> Result<Run, StoreError>
    decreases steps,
{
    if steps == 0 {
        Ok(run)
    } else {
        match walk_step(run.walk, reply_for(root, run.request)) {
            Ok(next) => run_walk(
                root,
                Run {
                    walk: next.0,
                    request: next.1,
                    stored: run.stored + write_of(run.request),
                },
                (steps - 1) as nat,
            ),
            Err(e) => Err(e),
        }
    }
}

/// The run of a state and a request, with what was stored before.
pub open spec fn run_of(pair: (WalkView, RequestView), stored: Seq<PendingView>) -> Run {
    Run { walk: pair.0, request: pair.1, stored }
}

/// Steps add up: a run of `a` and then `b` steps is a run of `a + b` steps.
pub proof fn lemma_run_add(root: FsNode, run: Run, a: nat, b: nat)
    requires
        run_walk(root, run, a) is Ok,
    ensures
        run_walk(root, run, a + b) == run_walk(root, run_walk(root, run, a)->Ok_0, b),
    decreases a,
{
    if a > 0 {
        match walk_step(run.walk, reply_for(root, run.request)) {
            Ok(next) => {
                let then = Run {
                    walk: next.0,
                    request: next.1,
                    stored: run.stored + write_of(run.request),
                };
                lemma_run_add(root, then, (a - 1) as nat, b);
                assert((a + b - 1) as nat == (a - 1) as nat + b);
            },
            Err(_) => {},
        }
    }
}

/// Where names are distinct, the item of a child's name is that child.
pub proof fn lemma_find_child(children: Seq<FsItem>, at: int)
    requires
        0 <= at < children.len(),
        forall|i: int, j: int|
            0 <= i < j < children.len() ==> (#[trigger] children[i]).name != (
            #[trigger] children[j]).name,
    ensures
        find_child(children, children[at].name) == Some(children[at].node),
    decreases children.len(),
{
    if at == 0 {
    } else {
        let rest = children.drop_first();
        assert(children[0].name != children[at].name);
        assert forall|i: int, j: int| 0 <= i < j < rest.len() implies (#[trigger] rest[i]).name
            != (#[trigger] rest[j]).name by {
            assert(rest[i] == children[i + 1] && rest[j] == children[j + 1]);
        }
        assert(rest[at - 1] == children[at]);
        lemma_find_child(rest, at - 1);
    }
}

/// What `names_distinct` says of the items of a directory, one by one.
pub proof fn lemma_names_distinct(children: Seq<FsItem>, upto: int)
    requires
        0 <= upto <= children.len(),
        names_distinct(children, upto),
    ensures
        forall|i: int, j: int|
            0 <= i < j < upto ==> (#[trigger] children[i]).name != (#[trigger] children[j]).name,
        forall|i: int|
            0 <= i < upto ==> ((#[trigger] children[i]).node matches FsNode::Dir(inner)
                ==> names_distinct(inner, inner.len() as int)),
    decreases upto,
{
    if upto > 0 {
        lemma_names_distinct(children, upto - 1);
    }
}

/// The stack with a directory opened behind `outer`: its first `at` items
/// are dealt with and their entries gathered.
pub open spec fn opened(
    outer: Seq<FrameView>,
    name: Seq<char>,
    children: Seq<FsItem>,
    at: int,
) -> Seq<FrameView> {
    outer.push(
        FrameView {
            name,
            items: listing(children),
            next: at,
            entries: dir_entries(children, at),
        },
    )
}

/// The path of a directory that is opened behind `outer`: the root's is
/// empty, any other's is the path of the directory around it and its name.
pub open spec fn opened_path(outer: Seq<FrameView>, name: Seq<char>) -> Seq<Seq<char>> {
    if outer.len() == 0 {
        Seq::empty()
    } else {
        dir_path(outer).push(name)
    }
}

/// The state and request after a directory behind `outer` has been stored
/// under `id`: the end of the walk for the root, and for any other the going
/// on in the directory around it, with the tree entered there.
pub open spec fn closed(outer: Seq<FrameView>, name: Seq<char>, id: Seq<char>) -> (
    WalkView,
    RequestView,
) {
    if outer.len() == 0 {
        (WalkView { frames: outer, awaiting: AwaitingView::Finished }, RequestView::Done(id))
    } else {
        settle(entered(outer, ItemPlan::Subtree, id, name))
    }
}

proof fn lemma_opened_path(outer: Seq<FrameView>, name: Seq<char>, children: Seq<FsItem>, at: int)
    ensures
        dir_path(opened(outer, name, children, at)) == opened_path(outer, name),
{
    let frames = opened(outer, name, children, at);
    if outer.len() == 0 {
        assert(dir_path(frames) =~= Seq::<Seq<char>>::empty());
    } else {
        assert(frames.skip(1) =~= outer.skip(1).push(frames.last()));
        assert(dir_path(frames) =~= dir_path(outer).push(name));
    }
}

/// What stands under the name of a child of the directory at a path.
proof fn lemma_node_of_child(root: FsNode, path: Seq<Seq<char>>, children: Seq<FsItem>, at: int)
    requires
        node_at(root, path) == Some(FsNode::Dir(children)),
        0 <= at < children.len(),
        names_distinct(children, children.len() as int),
    ensures
        node_at(root, path.push(children[at].name)) == Some(children[at].node),
{
    lemma_names_distinct(children, children.len() as int);
    lemma_find_child(children, at);
    let longer = path.push(children[at].name);
    assert(longer.drop_last() =~= path);
    assert(longer.last() == children[at].name);
}

/// From the item `at` of an opened directory the walk comes, answered by the
/// tree, to the request to store the directory's own tree, having stored
/// what the items from `at` on take, in order.
pub proof fn lemma_walk_items(
    root: FsNode,
    outer: Seq<FrameView>,
    name: Seq<char>,
    children: Seq<FsItem>,
    base: Seq<PendingView>,
    at: int,
) -> (steps: nat)
    requires
        0 <= at <= children.len(),
        names_distinct(children, children.len() as int),
        node_at(root, opened_path(outer, name)) == Some(FsNode::Dir(children)),
    ensures
        run_walk(
            root,
            run_of(settle(opened(outer, name, children, at)), base + items_writes(children, at)),
            steps,
        ) == Ok::<Run, StoreError>(
            run_of(
                settle(opened(outer, name, children, children.len() as int)),
                base + items_writes(children, children.len() as int),
            ),
        ),
    decreases children, children.len() - at,
{
    let len = children.len() as int;
    let frames = opened(outer, name, children, at);
    let stored = base + items_writes(children, at);
    if at == len {
        return 0;
    }
    let child = children[at];
    let top = frames.last();
    let next_frames = opened(outer, name, children, at + 1);
    let next_stored = base + items_writes(children, at + 1);
    lemma_opened_path(outer, name, children, at);
    lemma_node_of_child(root, opened_path(outer, name), children, at);
    lemma_names_distinct(children, len);
    assert(top.items[at] == ItemView { name: child.name, kind: kind_of(child.node) });
    assert(frames.drop_last() =~= outer);
    let path = dir_path(frames).push(child.name);
    assert(dir_entries(children, at + 1) == entries_after(
        dir_entries(children, at),
        child_plan(child),
        child_id(children, at),
        child.name,
    ));
    assert(items_writes(children, at + 1) == items_writes(children, at) + child_writes(
        children,
        at,
    ));
    match child_plan(child) {
        ItemPlan::Skip => {
            assert(child_writes(children, at) =~= Seq::<PendingView>::empty());
            assert(with_top(frames, FrameView { next: at + 1, ..top }) =~= next_frames);
            assert(settle(frames) == settle(next_frames));
            assert(next_stored =~= stored);
            lemma_walk_items(root, outer, name, children, base, at + 1)
        },
        ItemPlan::Blob => {
            let content = child.node->File_0;
            assert(child.node == FsNode::File(content));
            let blob = blob_object(content);
            assert(child_id(children, at) == object_id(blob));
            assert(child_writes(children, at) == seq![pending_write(blob)]);
            let start = run_of(settle(frames), stored);
            assert(start.walk == WalkView { frames, awaiting: AwaitingView::Content(child.name) });
            assert(start.request == RequestView::ReadFile(path));
            assert(reply_for(root, start.request) == ReplyView::Content(content));
            let asked = Run {
                walk: WalkView {
                    frames,
                    awaiting: AwaitingView::BlobStored(object_id(blob), child.name),
                },
                request: RequestView::Store(pending_write(blob)),
                stored: stored + write_of(start.request),
            };
            assert(walk_step(start.walk, reply_for(root, start.request)) == Ok::<
                (WalkView, RequestView),
                StoreError,
            >((asked.walk, asked.request)));
            assert(entered(frames, ItemPlan::Blob, object_id(blob), child.name)
                =~= next_frames);
            let done = Run {
                walk: settle(next_frames).0,
                request: settle(next_frames).1,
                stored: asked.stored + write_of(asked.request),
            };
            assert(walk_step(asked.walk, reply_for(root, asked.request)) == Ok::<
                (WalkView, RequestView),
                StoreError,
            >((done.walk, done.request)));
            assert(done.stored =~= next_stored);
            assert(run_walk(root, done, 0) == Ok::<Run, StoreError>(done));
            assert(run_walk(root, asked, 1) == Ok::<Run, StoreError>(done));
            assert(run_walk(root, start, 2) == Ok::<Run, StoreError>(done));
            let more = lemma_walk_items(root, outer, name, children, base, at + 1);
            lemma_run_add(root, start, 2, more);
            2 + more
        },
        ItemPlan::Subtree => {
            let inner = child.node->Dir_0;
            assert(child.node == FsNode::Dir(inner));
            assert(child_id(children, at) == dir_id(inner));
            assert(child_writes(children, at) == dir_writes(inner));
            let start = run_of(settle(frames), stored);
            assert(start.walk == WalkView { frames, awaiting: AwaitingView::Listing(child.name) });
            assert(start.request == RequestView::ListDir(path));
            assert(opened_path(frames, child.name) == path);
            let below = lemma_walk_dir(root, frames, child.name, inner, stored);
            assert(entered(frames, ItemPlan::Subtree, dir_id(inner), child.name)
                =~= next_frames);
            assert(stored + dir_writes(inner) =~= next_stored);
            let more = lemma_walk_items(root, outer, name, children, base, at + 1);
            lemma_run_add(root, start, below, more);
            below + more
        },
    }
}

/// From the request for a directory's listing the walk comes, answered by
/// the tree, to where the directory is closed, having stored all that the
/// directory takes, its own tree last.
pub proof fn lemma_walk_dir(
    root: FsNode,
    outer: Seq<FrameView>,
    name: Seq<char>,
    children: Seq<FsItem>,
    base: Seq<PendingView>,
) -> (steps: nat)
    requires
        names_distinct(children, children.len() as int),
        node_at(root, opened_path(outer, name)) == Some(FsNode::Dir(children)),
    ensures
        run_walk(
            root,
            Run {
                walk: WalkView { frames: outer, awaiting: AwaitingView::Listing(name) },
                request: RequestView::ListDir(opened_path(outer, name)),
                stored: base,
            },
            steps,
        ) == Ok::<Run, StoreError>(
            run_of(closed(outer, name, dir_id(children)), base + dir_writes(children)),
        ),
    decreases children, children.len() + 1,
{
    let len = children.len() as int;
    let start = Run {
        walk: WalkView { frames: outer, awaiting: AwaitingView::Listing(name) },
        request: RequestView::ListDir(opened_path(outer, name)),
        stored: base,
    };
    let first = opened(outer, name, children, 0);
    let last = opened(outer, name, children, len);
    let listed = run_of(settle(first), base + items_writes(children, 0));
    assert(reply_for(root, start.request) == ReplyView::Listing(listing(children)));
    assert(walk_step(start.walk, reply_for(root, start.request)) == Ok::<
        (WalkView, RequestView),
        StoreError,
    >(settle(first)));
    assert(start.stored + write_of(start.request) =~= listed.stored);
    assert(run_walk(root, listed, 0) == Ok::<Run, StoreError>(listed));
    assert(run_walk(root, start, 1) == Ok::<Run, StoreError>(listed));
    let within = lemma_walk_items(root, outer, name, children, base, 0);
    lemma_run_add(root, start, 1, within);
    let tree = tree_object(dir_entries(children, len));
    let asked = run_of(settle(last), base + items_writes(children, len));
    assert(asked.walk == WalkView {
        frames: last,
        awaiting: AwaitingView::TreeStored(dir_id(children)),
    });
    assert(asked.request == RequestView::Store(pending_write(tree)));
    assert(last.drop_last() =~= outer);
    let done = run_of(
        closed(outer, name, dir_id(children)),
        asked.stored + write_of(asked.request),
    );
    assert(walk_step(asked.walk, reply_for(root, asked.request)) == Ok::<
        (WalkView, RequestView),
        StoreError,
    >((done.walk, done.request)));
    assert(done.stored =~= base + dir_writes(children));
    assert(run_walk(root, done, 0) == Ok::<Run, StoreError>(done));
    assert(run_walk(root, asked, 1) == Ok::<Run, StoreError>(done));
    lemma_run_add(root, start, 1 + within, 1);
    1 + within + 1
}

/// A walk of a directory tree in which no directory has two items of one
/// name comes to its end: it is done with the identifier of the root's tree,
/// and it has stored, in this order, what every item takes and then the
/// directory's own tree, at every level; so every object that a tree names
/// was stored before the tree.
pub proof fn lemma_walk_stores_tree(children: Seq<FsItem>) -> (steps: nat)
    requires
        names_distinct(children, children.len() as int),
    ensures
        run_walk(FsNode::Dir(children), run_of(walk_start(), Seq::empty()), steps) == Ok::<
            Run,
            StoreError,
        >(
            Run {
                walk: WalkView { frames: Seq::empty(), awaiting: AwaitingView::Finished },
                request: RequestView::Done(dir_id(children)),
                stored: dir_writes(children),
            },
        ),
        dir_writes(children).last().id == dir_id(children),
{
    let root = FsNode::Dir(children);
    let outer = Seq::<FrameView>::empty();
    let name = Seq::<char>::empty();
    assert(opened_path(outer, name) =~= Seq::<Seq<char>>::empty());
    let steps = lemma_walk_dir(root, outer, name, children, Seq::empty());
    assert(Seq::<PendingView>::empty() + dir_writes(children) =~= dir_writes(children));
    steps
}

/// The entries that one item gives: none or one.
pub open spec fn item_entries(child: FsItem) -> Seq<TreeEntryView> {
    entries_after(
        Seq::empty(),
        child_plan(child),
        match child.node {
            FsNode::File(content) => object_id(blob_object(content)),
            FsNode::Dir(inner) => dir_id(inner),
            FsNode::Other => Seq::empty(),
        },
        child.name,
    )
}

/// The entries that the items of a directory give, without their order.
pub open spec fn entries_bag(children: Seq<FsItem>) -> Multiset<TreeEntryView>
    decreases children.len(),
{
    if children.len() == 0 {
        Multiset::empty()
    } else {
        entries_bag(children.drop_last()).add(item_entries(children.last()).to_multiset())
    }
}

/// The entries of a directory are those that its items give, one by one.
proof fn lemma_entries_bag(children: Seq<FsItem>, upto: int)
    requires
        0 <= upto <= children.len(),
    ensures
        dir_entries(children, upto).to_multiset() == entries_bag(children.take(upto)),
    decreases upto,
{
    broadcast use vstd::multiset::group_multiset_axioms;
    broadcast use vstd::seq_lib::group_to_multiset_ensures;

    let part = children.take(upto);
    if upto == 0 {
        assert(dir_entries(children, upto).to_multiset() =~= Multiset::empty());
    } else {
        lemma_entries_bag(children, upto - 1);
        let child = children[upto - 1];
        let before = dir_entries(children, upto - 1);
        assert(part.drop_last() =~= children.take(upto - 1));
        assert(part.last() == child);
        assert(child_id(children, upto - 1) == match child.node {
            FsNode::File(content) => object_id(blob_object(content)),
            FsNode::Dir(inner) => dir_id(inner),
            FsNode::Other => Seq::empty(),
        });
        match child_plan(child) {
            ItemPlan::Skip => {
                assert(item_entries(child).to_multiset() =~= Multiset::empty());
                assert(dir_entries(children, upto) == before);
                assert(before.to_multiset().add(Multiset::empty()) =~= before.to_multiset());
            },
            ItemPlan::Blob => {
                let entry = item_entries(child)[0];
                assert(item_entries(child) =~= Seq::empty().push(entry));
                assert(dir_entries(children, upto) == before.push(entry));
                assert(before.push(entry).to_multiset() =~= before.to_multiset().add(
                    item_entries(child).to_multiset(),
                ));
            },
            ItemPlan::Subtree => {
                let entry = item_entries(child)[0];
                assert(item_entries(child) =~= Seq::empty().push(entry));
                assert(dir_entries(children, upto) == before.push(entry));
                assert(before.push(entry).to_multiset() =~= before.to_multiset().add(
                    item_entries(child).to_multiset(),
                ));
            },
        }
    }
}

/// Taking an item out of a directory takes out the entries that it gives.
proof fn lemma_entries_bag_remove(children: Seq<FsItem>, at: int)
    requires
        0 <= at < children.len(),
    ensures
        entries_bag(children) == entries_bag(children.remove(at)).add(
            item_entries(children[at]).to_multiset(),
        ),
    decreases children.len(),
{
    broadcast use vstd::multiset::group_multiset_axioms;

    let init = children.drop_last();
    if at == children.len() - 1 {
        assert(children.remove(at) =~= init);
    } else {
        lemma_entries_bag_remove(init, at);
        let without = children.remove(at);
        assert(without.drop_last() =~= init.remove(at));
        assert(without.last() == children.last());
        assert(init[at] == children[at]);
        assert(entries_bag(children) =~= entries_bag(without).add(
            item_entries(children[at]).to_multiset(),
        ));
    }
}

/// Directories with the same items give the same entries, whatever the
/// order of the items.
proof fn lemma_entries_bag_same(a: Seq<FsItem>, b: Seq<FsItem>)
    requires
        a.to_multiset() == b.to_multiset(),
    ensures
        entries_bag(a) == entries_bag(b),
    decreases a.len(),
{
    broadcast use vstd::multiset::group_multiset_axioms;
    broadcast use vstd::seq_lib::group_to_multiset_ensures;

    vstd::seq_lib::to_multiset_len(a);
    vstd::seq_lib::to_multiset_len(b);
    if a.len() == 0 {
        assert(b.len() == 0);
    } else {
        let x = a.last();
        assert(a.contains(x));
        assert(b.to_multiset().count(x) > 0);
        assert(b.contains(x));
        let j = choose|j: int| 0 <= j < b.len() && b[j] == x;
        let a_rest = a.drop_last();
        let b_rest = b.remove(j);
        assert(a_rest =~= a.remove(a.len() - 1));
        assert(a_rest.to_multiset() =~= b_rest.to_multiset());
        lemma_entries_bag_same(a_rest, b_rest);
        lemma_entries_bag_remove(b, j);
    }
}

/// The entries of a directory whose items have distinct names have
/// distinct names, each the name of one of the items.
proof fn lemma_entries_names(children: Seq<FsItem>, upto: int)
    requires
        0 <= upto <= children.len(),
        forall|i: int, j: int|
            0 <= i < j < children.len() ==> (#[trigger] children[i]).name != (
            #[trigger] children[j]).name,
    ensures
        forall|e: int|
            0 <= e < dir_entries(children, upto).len() ==> exists|i: int|
                0 <= i < upto && (#[trigger] children[i]).name == (#[trigger] dir_entries(
                    children,
                    upto,
                )[e]).name,
        forall|e: int, f: int|
            0 <= e < f < dir_entries(children, upto).len() ==> (#[trigger] dir_entries(
                children,
                upto,
            )[e]).name != (#[trigger] dir_entries(children, upto)[f]).name,
    decreases upto,
{
    if upto > 0 {
        lemma_entries_names(children, upto - 1);
        let before = dir_entries(children, upto - 1);
        let now = dir_entries(children, upto);
        let child = children[upto - 1];
        assert forall|e: int| 0 <= e < now.len() implies exists|i: int|
            0 <= i < upto && (#[trigger] children[i]).name == (#[trigger] now[e]).name by {
            if e < before.len() {
                assert(now[e] == before[e]);
                let i = choose|i: int|
                    0 <= i < upto - 1 && (#[trigger] children[i]).name == before[e].name;
                assert(children[i].name == now[e].name);
            } else {
                assert(children[upto - 1].name == now[e].name);
            }
        }
        assert forall|e: int, f: int| 0 <= e < f < now.len() implies (#[trigger] now[e]).name != (
        #[trigger] now[f]).name by {
            assert(now[e] == before[e]);
            if f < before.len() {
                assert(now[f] == before[f]);
            } else {
                let i = choose|i: int|
                    0 <= i < upto - 1 && (#[trigger] children[i]).name == before[e].name;
                assert(children[i].name != children[upto - 1].name);
            }
        }
    }
}

/// The tree of a directory does not depend on the order in which the
/// directory lists its items: directories with the same items, no two of
/// them of one name, have the same tree and the same identifier.
pub proof fn lemma_dir_id_order_independent(a: Seq<FsItem>, b: Seq<FsItem>)
    requires
        a.to_multiset() == b.to_multiset(),
        names_distinct(a, a.len() as int),
    ensures
        tree_object(dir_entries(a, a.len() as int)) == tree_object(
            dir_entries(b, b.len() as int),
        ),
        dir_id(a) == dir_id(b),
{
    let ea = dir_entries(a, a.len() as int);
    let eb = dir_entries(b, b.len() as int);
    lemma_names_distinct(a, a.len() as int);
    lemma_entries_names(a, a.len() as int);
    lemma_entries_bag(a, a.len() as int);
    lemma_entries_bag(b, b.len() as int);
    assert(a.take(a.len() as int) =~= a);
    assert(b.take(b.len() as int) =~= b);
    lemma_entries_bag_same(a, b);
    assert forall|i: int, j: int|
        0 <= i < ea.len() && 0 <= j < ea.len() && (#[trigger] ea[i]).name == (
        #[trigger] ea[j]).name implies ea[i] == ea[j] by {
        if i < j {
            assert(ea[i].name != ea[j].name);
        } else if j < i {
            assert(ea[j].name != ea[i].name);
        }
    }
    crate::tree::lemma_tree_order_independent(ea, eb);
}

/// One of the writes stores an object of the given kind under the identifier.
pub open spec fn stores_object(writes: Seq<PendingView>, kind: OObjectType, id: Seq<char>) -> bool {
    exists|w: int, object: ObjectView|
        0 <= w < writes.len() && #[trigger] writes[w] == #[trigger] pending_write(object)
            && object.kind == kind && object_id(object) == id
}

/// A tree names only what is stored before it: for every entry of a
/// directory's tree, one of the writes that storing the directory's items
/// takes stores an object of the entry's kind under the entry's identifier,
/// and the tree's own write comes after those.
pub proof fn lemma_entries_are_stored(children: Seq<FsItem>, upto: int)
    requires
        0 <= upto <= children.len(),
    ensures
        forall|e: int|
            0 <= e < dir_entries(children, upto).len() ==> stores_object(
                items_writes(children, upto),
                (#[trigger] dir_entries(children, upto)[e]).kind,
                dir_entries(children, upto)[e].hash,
            ),
    decreases upto,
{
    if upto > 0 {
        lemma_entries_are_stored(children, upto - 1);
        let before = dir_entries(children, upto - 1);
        let now = dir_entries(children, upto);
        let stored_before = items_writes(children, upto - 1);
        let added = child_writes(children, upto - 1);
        let stored = items_writes(children, upto);
        let child = children[upto - 1];
        assert(stored == stored_before + added);
        assert forall|e: int| 0 <= e < now.len() implies stores_object(
            stored,
            (#[trigger] now[e]).kind,
            now[e].hash,
        ) by {
            if e < before.len() {
                assert(now[e] == before[e]);
                assert(stores_object(stored_before, before[e].kind, before[e].hash));
                let (w, object) = choose|w: int, object: ObjectView|
                    0 <= w < stored_before.len() && #[trigger] stored_before[w]
                        == #[trigger] pending_write(object) && object.kind == before[e].kind
                        && object_id(object) == before[e].hash;
                assert(stored[w] == pending_write(object));
            } else {
                assert(now[e].hash == child_id(children, upto - 1));
                let w = stored.len() - 1;
                match child.node {
                    FsNode::File(content) => {
                        let object = blob_object(content);
                        assert(added == seq![pending_write(object)]);
                        assert(stored[w] == added[0]);
                        assert(stored[w] == pending_write(object));
                    },
                    FsNode::Dir(inner) => {
                        let object = tree_object(dir_entries(inner, inner.len() as int));
                        assert(added == dir_writes(inner));
                        assert(stored[w] == added[added.len() - 1]);
                        assert(stored[w] == pending_write(object));
                    },
                    FsNode::Other => {},
                }
            }
        }
    }
}

/// Two nodes hold the same: files the same content, directories the same
/// items whatever the order in which they list them.
pub open spec fn same_node(x: FsNode, y: FsNode) -> bool
    decreases x, 0int,
{
    match x {
        FsNode::File(content) => y == FsNode::File(content),
        FsNode::Dir(items) => y matches FsNode::Dir(others) && same_items(
            items,
            items.len() as int,
            others,
        ),
        FsNode::Other => y == FsNode::Other,
    }
}

/// The first `upto` items of `a` are the items of `b` in some order: each
/// has its like in `b`, of the same name and holding the same, and no item
/// of `b` is left over.
pub open spec fn same_items(a: Seq<FsItem>, upto: int, b: Seq<FsItem>) -> bool
    decreases a, upto,
{
    if 0 < upto <= a.len() {
        exists|j: int|
            0 <= j < b.len() && (#[trigger] b[j]).name == a[upto - 1].name && same_node(
                a[upto - 1].node,
                b[j].node,
            ) && same_items(a, upto - 1, b.remove(j))
    } else {
        b.len() == 0
    }
}

/// Items that hold the same give the same entries.
proof fn lemma_same_entries(a: Seq<FsItem>, upto: int, b: Seq<FsItem>)
    requires
        0 <= upto <= a.len(),
        same_items(a, upto, b),
        names_distinct(a, a.len() as int),
    ensures
        entries_bag(a.take(upto)) == entries_bag(b),
    decreases a, upto,
{
    broadcast use vstd::multiset::group_multiset_axioms;

    if upto > 0 {
        let x = a[upto - 1];
        let j = choose|j: int|
            0 <= j < b.len() && (#[trigger] b[j]).name == x.name && same_node(x.node, b[j].node)
                && same_items(a, upto - 1, b.remove(j));
        let y = b[j];
        lemma_names_distinct(a, a.len() as int);
        match x.node {
            FsNode::Dir(items) => {
                let others = y.node->Dir_0;
                lemma_dir_id_same_items(items, others);
            },
            _ => {},
        }
        assert(item_entries(x) == item_entries(y));
        lemma_same_entries(a, upto - 1, b.remove(j));
        lemma_entries_bag_remove(b, j);
        let part = a.take(upto);
        assert(part.drop_last() =~= a.take(upto - 1));
        assert(part.last() == x);
    } else {
        assert(a.take(upto) =~= Seq::<FsItem>::empty());
        assert(b =~= Seq::<FsItem>::empty());
    }
}

/// The tree of a directory depends on what the directory holds and not on
/// the order in which anything is listed: two directories that hold the
/// same, at every level, have the same tree and the same identifier.
pub proof fn lemma_dir_id_same_items(a: Seq<FsItem>, b: Seq<FsItem>)
    requires
        same_items(a, a.len() as int, b),
        names_distinct(a, a.len() as int),
    ensures
        tree_object(dir_entries(a, a.len() as int)) == tree_object(
            dir_entries(b, b.len() as int),
        ),
        dir_id(a) == dir_id(b),
    decreases a, a.len() + 1,
{
    let ea = dir_entries(a, a.len() as int);
    let eb = dir_entries(b, b.len() as int);
    lemma_names_distinct(a, a.len() as int);
    lemma_entries_names(a, a.len() as int);
    lemma_entries_bag(a, a.len() as int);
    lemma_entries_bag(b, b.len() as int);
    assert(a.take(a.len() as int) =~= a);
    assert(b.take(b.len() as int) =~= b);
    lemma_same_entries(a, a.len() as int, b);
    assert forall|i: int, j: int|
        0 <= i < ea.len() && 0 <= j < ea.len() && (#[trigger] ea[i]).name == (
        #[trigger] ea[j]).name implies ea[i] == ea[j] by {
        if i < j {
            assert(ea[i].name != ea[j].name);
        } else if j < i {
            assert(ea[j].name != ea[i].name);
        }
    }
    crate::tree::lemma_tree_order_independent(ea, eb);
}

/// Walks of two directory trees that hold the same, at every level, end
/// with the same identifier and store the same root tree, byte for byte,
/// whatever the order in which the directories list their items.
pub proof fn lemma_walk_order_independent(a: Seq<FsItem>, b: Seq<FsItem>) -> (steps: (nat, nat))
    requires
        same_items(a, a.len() as int, b),
        names_distinct(a, a.len() as int),
        names_distinct(b, b.len() as int),
    ensures
        run_walk(FsNode::Dir(a), run_of(walk_start(), Seq::empty()), steps.0) matches Ok(first)
            && run_walk(FsNode::Dir(b), run_of(walk_start(), Seq::empty()), steps.1) matches Ok(
            second,
        ) && first.walk.awaiting == AwaitingView::Finished && second.walk.awaiting
            == AwaitingView::Finished && first.request == second.request && first.request
            == RequestView::Done(dir_id(a)) && first.stored.last() == second.stored.last(),
{
    let first = lemma_walk_stores_tree(a);
    let second = lemma_walk_stores_tree(b);
    lemma_dir_id_same_items(a, b);
    (first, second)
}

} // verus!
