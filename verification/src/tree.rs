//! Building a tree object from what a directory holds.

use crate::object::{OObject, OObjectId, OObjectType, ObjectView};
use crate::store::{object_id, pending_write, prepare_write, PendingWrite};
use crate::text::bytes_equal;
use crate::tree_entry::{
    entry_views, lemma_tree_payload_order_independent, tree_payload, TreeEntry, TreeEntryView,
};
use crate::tree_order::names_identify;
use vstd::prelude::*;
use vstd::utf8::encode_utf8_decode_utf8;

verus! {

/// What an item of a directory is.
#[derive(Debug, Clone, Copy, PartialEq, Eq, Structural)]
pub enum NodeKind {
    /// A regular file.
    File,
    /// A directory.
    Directory,
    /// Anything else.
    Other,
}

/// What to do about an item of a directory.
#[derive(Debug, Clone, Copy, PartialEq, Eq, Structural)]
pub enum ItemPlan {
    /// Leave it out of the tree.
    Skip,
    /// Store its content as a blob and enter the blob.
    Blob,
    /// Build the tree of the directory and enter that tree.
    Subtree,
}

/// The name of the directory that holds the store itself: `.ogit`.
pub open spec fn reserved_name() -> Seq<char> {
    seq!['.', 'o', 'g', 'i', 't']
}

/// The plan for an item: whatever bears the reserved name is left out, a file
/// becomes a blob, a directory a subtree, and anything else is left out.
pub open spec fn plan_for(name: Seq<char>, kind: NodeKind) -> ItemPlan {
    if name == reserved_name() {
        ItemPlan::Skip
    } else {
        match kind {
            NodeKind::File => ItemPlan::Blob,
            NodeKind::Directory => ItemPlan::Subtree,
            NodeKind::Other => ItemPlan::Skip,
        }
    }
}

/// Decides what to do about an item of a directory.
pub fn plan_item(name: &str, kind: NodeKind) -> (plan: ItemPlan)
    ensures
        plan == plan_for(name@, kind),
{
    proof {
        reveal_strlit(".ogit");
        assert(".ogit"@ =~= reserved_name());
        encode_utf8_decode_utf8(name@);
        encode_utf8_decode_utf8(reserved_name());
    }
    if bytes_equal(name.as_bytes(), ".ogit".as_bytes()) {
        ItemPlan::Skip
    } else {
        match kind {
            NodeKind::File => ItemPlan::Blob,
            NodeKind::Directory => ItemPlan::Subtree,
            NodeKind::Other => ItemPlan::Skip,
        }
    }
}

/// The entries after the child stored for an item has been entered.
pub open spec fn entries_after(
    entries: Seq<TreeEntryView>,
    plan: ItemPlan,
    id: Seq<char>,
    name: Seq<char>,
) -> Seq<TreeEntryView> {
    match plan {
        ItemPlan::Skip => entries,
        ItemPlan::Blob => entries.push(TreeEntryView { kind: OObjectType::Blob, hash: id, name }),
        ItemPlan::Subtree => entries.push(
            TreeEntryView { kind: OObjectType::Tree, hash: id, name },
        ),
    }
}

/// The tree object with the given entries.
pub open spec fn tree_object(entries: Seq<TreeEntryView>) -> ObjectView {
    ObjectView { kind: OObjectType::Tree, data: tree_payload(entries) }
}

/// The entries of one directory, gathered while its items are gone through.
#[derive(Debug, PartialEq, Eq)]
pub struct TreeBuilder {
    pub entries: Vec<TreeEntry>,
}

impl View for TreeBuilder {
    type V = Seq<TreeEntryView>;

    open spec fn view(&self) -> Seq<TreeEntryView> {
        entry_views(self.entries@)
    }
}

impl TreeBuilder {
    /// A builder with no entries.
    pub fn new() -> (builder: Self)
        ensures
            builder@ == Seq::<TreeEntryView>::empty(),
    {
        let builder = TreeBuilder { entries: Vec::new() };
        assert(builder@ =~= Seq::<TreeEntryView>::empty());
        builder
    }

    /// Enters the child that was stored for an item: a blob or a subtree
    /// under the item's name. An item that was to be skipped enters nothing.
    pub fn record(&mut self, plan: ItemPlan, id: OObjectId, name: String)
        ensures
            final(self)@ == entries_after(old(self)@, plan, id@, name@),
    {
        let kind = match plan {
            ItemPlan::Skip => {
                return ;
            },
            ItemPlan::Blob => OObjectType::Blob,
            ItemPlan::Subtree => OObjectType::Tree,
        };
        let entry = TreeEntry::new(kind, id, name);
        proof {
            assert(entry_views(self.entries@.push(entry)) =~= entry_views(self.entries@).push(
                entry@,
            ));
        }
        self.entries.push(entry);
    }

    /// The tree object of the entries gathered, whatever the order in which
    /// they came.
    pub fn tree(&self) -> (object: OObject)
        ensures
            object@ == tree_object(self@),
    {
        OObject::new_tree(TreeEntry::serialize_tree(self.entries.as_slice()))
    }

    /// Prepares the write of the tree object of the entries gathered.
    pub fn finish(&self) -> (pending: PendingWrite)
        ensures
            pending@ == pending_write(tree_object(self@)),
    {
        let object = self.tree();
        prepare_write(&object)
    }
}

/// The tree object and its identifier do not depend on the order in which
/// the entries of a directory come, where no name stands for two different
/// entries.
pub proof fn lemma_tree_order_independent(a: Seq<TreeEntryView>, b: Seq<TreeEntryView>)
    requires
        a.to_multiset() == b.to_multiset(),
        names_identify(a),
    ensures
        tree_object(a) == tree_object(b),
        crate::object::frame(tree_object(a)) == crate::object::frame(tree_object(b)),
        object_id(tree_object(a)) == object_id(tree_object(b)),
{
    lemma_tree_payload_order_independent(a, b);
}

} // verus!
