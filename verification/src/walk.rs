//! Walking a directory into tree objects, one file-system answer at a time.
//!
//! The walk asks for one thing at a time: the listing of a directory, the
//! content of a file, or the storing of an object. Whoever drives it does
//! what is asked and hands back the answer. Every child of a directory is
//! stored before the directory's own tree is.

use crate::error::StoreError;
use crate::object::{OObject, OObjectId, OObjectType, ObjectView};
use crate::store::{object_id, pending_write, prepare_write, PendingView, PendingWrite};
use crate::tree::{
    entries_after, plan_for, plan_item, tree_object, ItemPlan, NodeKind, TreeBuilder,
};
use crate::tree_entry::TreeEntryView;
use vstd::prelude::*;

verus! {

/// One item of a directory listing.
#[derive(Debug, Clone, PartialEq, Eq)]
pub struct DirItem {
    pub name: String,
    pub kind: NodeKind,
}

/// An item of a listing as a mathematical value.
pub struct ItemView {
    pub name: Seq<char>,
    pub kind: NodeKind,
}

impl View for DirItem {
    type V = ItemView;

    open spec fn view(&self) -> ItemView {
        ItemView { name: self.name@, kind: self.kind }
    }
}

/// The items of a listing as mathematical values.
pub open spec fn item_views(items: Seq<DirItem>) -> Seq<ItemView> {
    items.map_values(|i: DirItem| i@)
}

/// The components of a path as texts.
pub open spec fn texts(parts: Seq<String>) -> Seq<Seq<char>> {
    parts.map_values(|p: String| p@)
}

/// What the walk asks for next.
#[derive(Debug, PartialEq, Eq)]
pub enum WalkRequest {
    /// The listing of the directory at this path below the root.
    ListDir(Vec<String>),
    /// The content of the file at this path below the root.
    ReadFile(Vec<String>),
    /// The storing of this object.
    Store(PendingWrite),
    /// Nothing more: the root's tree is stored under this identifier.
    Done(OObjectId),
}

/// A request as a mathematical value.
pub enum RequestView {
    ListDir(Seq<Seq<char>>),
    ReadFile(Seq<Seq<char>>),
    Store(PendingView),
    Done(Seq<char>),
}

impl View for WalkRequest {
    type V = RequestView;

    open spec fn view(&self) -> RequestView {
        match self {
            WalkRequest::ListDir(path) => RequestView::ListDir(texts(path@)),
            WalkRequest::ReadFile(path) => RequestView::ReadFile(texts(path@)),
            WalkRequest::Store(pending) => RequestView::Store(pending@),
            WalkRequest::Done(id) => RequestView::Done(id@),
        }
    }
}

/// The answer to a request.
#[derive(Debug, PartialEq, Eq)]
pub enum WalkReply {
    /// The items of the directory asked for.
    Listing(Vec<DirItem>),
    /// The content of the file asked for.
    Content(Vec<u8>),
    /// The object is stored.
    Stored,
    /// What was asked for could not be done.
    Failed,
}

/// An answer as a mathematical value.
pub enum ReplyView {
    Listing(Seq<ItemView>),
    Content(Seq<u8>),
    Stored,
    Failed,
}

impl View for WalkReply {
    type V = ReplyView;

    open spec fn view(&self) -> ReplyView {
        match self {
            WalkReply::Listing(items) => ReplyView::Listing(item_views(items@)),
            WalkReply::Content(bytes) => ReplyView::Content(bytes@),
            WalkReply::Stored => ReplyView::Stored,
            WalkReply::Failed => ReplyView::Failed,
        }
    }
}

/// A directory that the walk is in: its name, its items, how many of them
/// are dealt with, and the entries gathered from those.
pub struct FrameView {
    pub name: Seq<char>,
    pub items: Seq<ItemView>,
    pub next: int,
    pub entries: Seq<TreeEntryView>,
}

/// What the walk is waiting for.
pub enum AwaitingView {
    /// The listing of the directory of this name.
    Listing(Seq<char>),
    /// The content of the file of this name.
    Content(Seq<char>),
    /// The storing of the blob with this identifier, for the file of this name.
    BlobStored(Seq<char>, Seq<char>),
    /// The storing of the tree with this identifier, for the innermost directory.
    TreeStored(Seq<char>),
    /// Nothing: the walk is over.
    Finished,
}

/// The state of a walk: the directories it is in, outermost first, and what
/// it is waiting for.
pub struct WalkView {
    pub frames: Seq<FrameView>,
    pub awaiting: AwaitingView,
}

/// Every directory of the stack is at one of its items or behind the last,
/// and all but the innermost are at the item that the next directory is.
pub open spec fn frames_wf(frames: Seq<FrameView>) -> bool {
    forall|i: int|
        0 <= i < frames.len() ==> {
            &&& 0 <= (#[trigger] frames[i]).next <= frames[i].items.len()
            &&& i < frames.len() - 1 ==> frames[i].next < frames[i].items.len()
        }
}

/// The innermost directory is at one of its items.
pub open spec fn at_item(frames: Seq<FrameView>) -> bool {
    frames.len() > 0 && frames.last().next < frames.last().items.len()
}

impl WalkView {
    /// The state is one that a walk can be in.
    pub open spec fn wf(self) -> bool {
        &&& frames_wf(self.frames)
        &&& match self.awaiting {
            AwaitingView::Listing(_) => self.frames.len() == 0 || at_item(self.frames),
            AwaitingView::Content(_) => at_item(self.frames),
            AwaitingView::BlobStored(_, _) => at_item(self.frames),
            AwaitingView::TreeStored(_) => self.frames.len() > 0,
            AwaitingView::Finished => self.frames.len() == 0,
        }
    }
}

/// The path of the innermost directory below the root: the names of the
/// directories entered, without the root's.
pub open spec fn dir_path(frames: Seq<FrameView>) -> Seq<Seq<char>> {
    frames.skip(1).map_values(|f: FrameView| f.name)
}

/// The frames with the innermost replaced.
pub open spec fn with_top(frames: Seq<FrameView>, top: FrameView) -> Seq<FrameView> {
    frames.drop_last().push(top)
}

/// The frames after the child stored for the current item of the innermost
/// directory has been entered there.
pub open spec fn entered(
    frames: Seq<FrameView>,
    plan: ItemPlan,
    id: Seq<char>,
    name: Seq<char>,
) -> Seq<FrameView> {
    let top = frames.last();
    with_top(
        frames,
        FrameView {
            entries: entries_after(top.entries, plan, id, name),
            next: top.next + 1,
            ..top
        },
    )
}

/// Where the walk goes on in the innermost directory: items to be left out
/// are passed over; the first other item is asked for, a file for its content
/// and a directory for its listing; and when no item is left, the storing of
/// the directory's tree is asked for.
pub open spec fn settle(frames: Seq<FrameView>) -> (WalkView, RequestView)
    decreases frames.last().items.len() - frames.last().next,
{
    let top = frames.last();
    if top.next < 0 || top.next >= top.items.len() {
        (
            WalkView {
                frames,
                awaiting: AwaitingView::TreeStored(object_id(tree_object(top.entries))),
            },
            RequestView::Store(pending_write(tree_object(top.entries))),
        )
    } else {
        let item = top.items[top.next];
        match plan_for(item.name, item.kind) {
            ItemPlan::Skip => settle(with_top(frames, FrameView { next: top.next + 1, ..top })),
            ItemPlan::Blob => (
                WalkView { frames, awaiting: AwaitingView::Content(item.name) },
                RequestView::ReadFile(dir_path(frames).push(item.name)),
            ),
            ItemPlan::Subtree => (
                WalkView { frames, awaiting: AwaitingView::Listing(item.name) },
                RequestView::ListDir(dir_path(frames).push(item.name)),
            ),
        }
    }
}

/// The blob with the given content.
pub open spec fn blob_object(content: Seq<u8>) -> ObjectView {
    ObjectView { kind: OObjectType::Blob, data: content }
}

/// The state in which a walk starts, and its first request: the listing of
/// the root.
pub open spec fn walk_start() -> (WalkView, RequestView) {
    (
        WalkView { frames: Seq::empty(), awaiting: AwaitingView::Listing(Seq::empty()) },
        RequestView::ListDir(Seq::empty()),
    )
}

/// The state and the request that follow on an answer.
///
/// A listing opens the directory waited for. A file's content becomes a blob
/// whose storing is asked for. A blob that is stored is entered in the
/// innermost directory under the file's name. A tree that is stored closes
/// the innermost directory: it is entered in the directory around it under
/// the closed directory's name, or, where the root was closed, the walk is
/// done. A failure, or an answer that was not waited for, is `IOFailure`.
pub open spec fn walk_step(walk: WalkView, reply: ReplyView) -> Result<
    (WalkView, RequestView),
    StoreError,
> {
    match (walk.awaiting, reply) {
        (AwaitingView::Listing(name), ReplyView::Listing(items)) => Ok(
            settle(walk.frames.push(FrameView { name, items, next: 0, entries: Seq::empty() })),
        ),
        (AwaitingView::Content(name), ReplyView::Content(content)) => Ok(
            (
                WalkView {
                    frames: walk.frames,
                    awaiting: AwaitingView::BlobStored(object_id(blob_object(content)), name),
                },
                RequestView::Store(pending_write(blob_object(content))),
            ),
        ),
        (AwaitingView::BlobStored(id, name), ReplyView::Stored) => Ok(
            settle(entered(walk.frames, ItemPlan::Blob, id, name)),
        ),
        (AwaitingView::TreeStored(id), ReplyView::Stored) => {
            let outer = walk.frames.drop_last();
            if outer.len() == 0 {
                Ok(
                    (
                        WalkView { frames: outer, awaiting: AwaitingView::Finished },
                        RequestView::Done(id),
                    ),
                )
            } else {
                Ok(settle(entered(outer, ItemPlan::Subtree, id, walk.frames.last().name)))
            }
        },
        _ => Err(StoreError::IOFailure),
    }
}

/// A well-formed stack stays well formed where its innermost directory is
/// replaced by one that is at one of its items or behind the last.
pub proof fn lemma_with_top_wf(frames: Seq<FrameView>, top: FrameView)
    requires
        frames.len() > 0,
        frames_wf(frames),
        0 <= top.next <= top.items.len(),
    ensures
        frames_wf(with_top(frames, top)),
        with_top(frames, top).last() == top,
{
    let after = with_top(frames, top);
    assert forall|i: int| 0 <= i < after.len() implies {
        &&& 0 <= (#[trigger] after[i]).next <= after[i].items.len()
        &&& i < after.len() - 1 ==> after[i].next < after[i].items.len()
    } by {
        if i < after.len() - 1 {
            assert(after[i] == frames[i]);
        }
    }
}

/// A well-formed stack stays well formed where a child is entered in its
/// innermost directory, which is at one of its items.
pub proof fn lemma_entered_wf(
    frames: Seq<FrameView>,
    plan: ItemPlan,
    id: Seq<char>,
    name: Seq<char>,
)
    requires
        frames_wf(frames),
        at_item(frames),
    ensures
        frames_wf(entered(frames, plan, id, name)),
        entered(frames, plan, id, name).len() == frames.len(),
{
    let top = frames.last();
    lemma_with_top_wf(
        frames,
        FrameView {
            entries: entries_after(top.entries, plan, id, name),
            next: top.next + 1,
            ..top
        },
    );
}

/// A well-formed stack stays well formed where a directory is opened behind
/// its innermost directory, which is at one of its items.
pub proof fn lemma_opened_wf(frames: Seq<FrameView>, frame: FrameView)
    requires
        frames_wf(frames),
        frames.len() == 0 || at_item(frames),
        0 <= frame.next <= frame.items.len(),
    ensures
        frames_wf(frames.push(frame)),
{
    let after = frames.push(frame);
    assert forall|i: int| 0 <= i < after.len() implies {
        &&& 0 <= (#[trigger] after[i]).next <= after[i].items.len()
        &&& i < after.len() - 1 ==> after[i].next < after[i].items.len()
    } by {
        if i < frames.len() {
            assert(after[i] == frames[i]);
        }
    }
}

/// A well-formed stack without its innermost directory is well formed, and
/// the directory that is then innermost is at one of its items.
pub proof fn lemma_closed_wf(frames: Seq<FrameView>)
    requires
        frames_wf(frames),
        frames.len() > 0,
    ensures
        frames_wf(frames.drop_last()),
        frames.drop_last().len() > 0 ==> at_item(frames.drop_last()),
{
    let outer = frames.drop_last();
    assert forall|i: int| 0 <= i < outer.len() implies {
        &&& 0 <= (#[trigger] outer[i]).next <= outer[i].items.len()
        &&& i < outer.len() - 1 ==> outer[i].next < outer[i].items.len()
    } by {
        assert(outer[i] == frames[i]);
    }
    if outer.len() > 0 {
        assert(outer[outer.len() - 1] == frames[outer.len() - 1]);
    }
}

#[derive(Debug)]
struct Frame {
    name: String,
    items: Vec<DirItem>,
    next: usize,
    builder: TreeBuilder,
}

impl View for Frame {
    type V = FrameView;

    closed spec fn view(&self) -> FrameView {
        FrameView {
            name: self.name@,
            items: item_views(self.items@),
            next: self.next as int,
            entries: self.builder@,
        }
    }
}

spec fn frame_views(frames: Seq<Frame>) -> Seq<FrameView> {
    frames.map_values(|f: Frame| f@)
}

#[derive(Debug)]
enum Awaiting {
    Listing(String),
    Content(String),
    BlobStored(OObjectId, String),
    TreeStored(OObjectId),
    Finished,
}

impl View for Awaiting {
    type V = AwaitingView;

    closed spec fn view(&self) -> AwaitingView {
        match self {
            Awaiting::Listing(name) => AwaitingView::Listing(name@),
            Awaiting::Content(name) => AwaitingView::Content(name@),
            Awaiting::BlobStored(id, name) => AwaitingView::BlobStored(id@, name@),
            Awaiting::TreeStored(id) => AwaitingView::TreeStored(id@),
            Awaiting::Finished => AwaitingView::Finished,
        }
    }
}

/// A walk of a directory in progress.
#[derive(Debug)]
pub struct TreeWalk {
    frames: Vec<Frame>,
    awaiting: Awaiting,
}

impl View for TreeWalk {
    type V = WalkView;

    closed spec fn view(&self) -> WalkView {
        WalkView { frames: frame_views(self.frames@), awaiting: self.awaiting@ }
    }
}

fn copy_text(text: &String) -> (copy: String)
    ensures
        copy@ == text@,
{
    text.as_str().to_owned()
}

/// The path of the innermost directory below the root.
fn path_of(frames: &Vec<Frame>) -> (path: Vec<String>)
    requires
        frames@.len() > 0,
    ensures
        texts(path@) == dir_path(frame_views(frames@)),
{
    let mut path: Vec<String> = Vec::new();
    let mut i: usize = 1;
    let ghost names = dir_path(frame_views(frames@));
    proof {
        assert(texts(path@) =~= names.take(0));
    }
    while i < frames.len()
        invariant
            1 <= i <= frames@.len(),
            names == dir_path(frame_views(frames@)),
            texts(path@) == names.take(i - 1),
        decreases frames@.len() - i,
    {
        let name = copy_text(&frames[i].name);
        proof {
            assert(names[i - 1] == frames@[i as int]@.name);
            assert(texts(path@.push(name)) =~= texts(path@).push(name@));
            assert(names.take(i as int) =~= names.take(i - 1).push(names[i - 1]));
        }
        path.push(name);
        i = i + 1;
    }
    proof {
        assert(names.take(frames@.len() - 1) =~= names);
    }
    path
}

/// Goes on in the innermost directory.
fn settle_frames(frames: Vec<Frame>) -> (out: (TreeWalk, WalkRequest))
    requires
        frames@.len() > 0,
        frames_wf(frame_views(frames@)),
    ensures
        (out.0@, out.1@) == settle(frame_views(frames@)),
{
    let mut frames = frames;
    let ghost all = frame_views(frames@);
    let mut top = frames.pop().unwrap();
    let ghost outer = frame_views(frames@);
    let mut found = false;
    let mut blob = false;
    proof {
        assert(outer =~= all.drop_last());
        assert(with_top(all, top@) =~= all);
        assert(top@ == all[all.len() - 1]);
    }
    while !found && top.next < top.items.len()
        invariant
            all.len() > 0,
            outer == all.drop_last(),
            outer == frame_views(frames@),
            top.next <= top.items@.len(),
            settle(with_top(all, top@)) == settle(all),
            found ==> top.next < top.items@.len(),
            found && blob ==> plan_for(
                top@.items[top.next as int].name,
                top@.items[top.next as int].kind,
            ) == ItemPlan::Blob,
            found && !blob ==> plan_for(
                top@.items[top.next as int].name,
                top@.items[top.next as int].kind,
            ) == ItemPlan::Subtree,
        decreases top.items@.len() - top.next + (if found { 0int } else { 1int }),
    {
        let item = &top.items[top.next];
        let plan = plan_item(item.name.as_str(), item.kind);
        proof {
            assert(top@.items[top.next as int] == item@);
            assert(with_top(all, top@).last() == top@);
        }
        match plan {
            ItemPlan::Skip => {
                let ghost before = top@;
                top.next = top.next + 1;
                proof {
                    assert(top@ == FrameView { next: before.next + 1, ..before });
                    assert(with_top(with_top(all, before), top@) =~= with_top(all, top@));
                }
            },
            ItemPlan::Blob => {
                found = true;
                blob = true;
            },
            ItemPlan::Subtree => {
                found = true;
                blob = false;
            },
        }
    }
    let ghost top_view = top@;
    proof {
        lemma_with_top_wf(all, top_view);
    }
    if !found {
        let pending = top.builder.finish();
        let id = OObjectId(copy_text(&pending.id.0));
        frames.push(top);
        proof {
            assert(frame_views(frames@) =~= with_top(all, top_view));
        }
        let walk = TreeWalk { frames, awaiting: Awaiting::TreeStored(id) };
        (walk, WalkRequest::Store(pending))
    } else {
        let name = copy_text(&top.items[top.next].name);
        let name_again = copy_text(&top.items[top.next].name);
        frames.push(top);
        proof {
            assert(frame_views(frames@) =~= with_top(all, top_view));
        }
        let mut path = path_of(&frames);
        proof {
            assert(texts(path@.push(name_again)) =~= texts(path@).push(name_again@));
        }
        path.push(name_again);
        if blob {
            let walk = TreeWalk { frames, awaiting: Awaiting::Content(name) };
            (walk, WalkRequest::ReadFile(path))
        } else {
            let walk = TreeWalk { frames, awaiting: Awaiting::Listing(name) };
            (walk, WalkRequest::ListDir(path))
        }
    }
}

impl TreeWalk {
    #[verifier::type_invariant]
    spec fn well_formed(self) -> bool {
        self@.wf()
    }

    /// Starts a walk: nothing is entered yet, and the listing of the root is
    /// asked for.
    pub fn start() -> (out: (TreeWalk, WalkRequest))
        ensures
            (out.0@, out.1@) == walk_start(),
    {
        let walk = TreeWalk { frames: Vec::new(), awaiting: Awaiting::Listing(String::new()) };
        let request = WalkRequest::ListDir(Vec::new());
        proof {
            assert(walk@.frames =~= Seq::<FrameView>::empty());
            assert(texts(Seq::<String>::empty()) =~= Seq::<Seq<char>>::empty());
        }
        (walk, request)
    }

    /// Takes the answer to the last request and gives the walk as it goes on
    /// and the next request. An answer that says that the request failed, or
    /// one that was not waited for, ends the walk with `IOFailure`.
    pub fn step(self, reply: WalkReply) -> (res: Result<(TreeWalk, WalkRequest), StoreError>)
        ensures
            walk_step(self@, reply@) matches Ok(next) ==> {
                &&& res matches Ok(out)
                &&& out.0@ == next.0
                &&& out.1@ == next.1
            },
            walk_step(self@, reply@) matches Err(e) ==> res matches Err(err) && err == e,
    {
        let ghost before = self@;
        proof {
            use_type_invariant(&self);
        }
        let TreeWalk { frames, awaiting } = self;
        let mut frames = frames;
        match (awaiting, reply) {
            (Awaiting::Listing(name), WalkReply::Listing(items)) => {
                let frame = Frame { name, items, next: 0, builder: TreeBuilder::new() };
                proof {
                    assert(frame_views(frames@.push(frame)) =~= before.frames.push(frame@));
                    lemma_opened_wf(before.frames, frame@);
                }
                frames.push(frame);
                Ok(settle_frames(frames))
            },
            (Awaiting::Content(name), WalkReply::Content(content)) => {
                let pending = prepare_write(&OObject::new_blob(content));
                let id = OObjectId(copy_text(&pending.id.0));
                let walk = TreeWalk { frames, awaiting: Awaiting::BlobStored(id, name) };
                Ok((walk, WalkRequest::Store(pending)))
            },
            (Awaiting::BlobStored(id, name), WalkReply::Stored) => {
                let ghost id_text = id@;
                let ghost name_text = name@;
                let mut top = frames.pop().unwrap();
                proof {
                    assert(top@ == before.frames[before.frames.len() - 1]);
                    assert(top.next < top.items.len());
                }
                let at = top.next;
                top.builder.record(ItemPlan::Blob, id, name);
                top.next = at + 1;
                proof {
                    let after = entered(before.frames, ItemPlan::Blob, id_text, name_text);
                    assert(frame_views(frames@.push(top)) =~= after);
                    lemma_entered_wf(before.frames, ItemPlan::Blob, id_text, name_text);
                }
                frames.push(top);
                Ok(settle_frames(frames))
            },
            (Awaiting::TreeStored(id), WalkReply::Stored) => {
                let closed = frames.pop().unwrap();
                proof {
                    assert(frame_views(frames@) =~= before.frames.drop_last());
                    lemma_closed_wf(before.frames);
                }
                if frames.len() == 0 {
                    let walk = TreeWalk { frames, awaiting: Awaiting::Finished };
                    Ok((walk, WalkRequest::Done(id)))
                } else {
                    let ghost id_text = id@;
                    let ghost outer = frame_views(frames@);
                    let mut top = frames.pop().unwrap();
                    proof {
                        assert(top@ == outer[outer.len() - 1]);
                        assert(top.next < top.items.len());
                    }
                    let at = top.next;
                    top.builder.record(ItemPlan::Subtree, id, closed.name);
                    top.next = at + 1;
                    proof {
                        let after = entered(outer, ItemPlan::Subtree, id_text, closed@.name);
                        assert(frame_views(frames@.push(top)) =~= after);
                        lemma_entered_wf(outer, ItemPlan::Subtree, id_text, closed@.name);
                    }
                    frames.push(top);
                    Ok(settle_frames(frames))
                }
            },
            _ => Err(StoreError::IOFailure),
        }
    }
}

} // verus!
