//! The commit chain: making a commit object, and following parents from a
//! commit back to the root of its history.

use crate::byte_seq::{find_byte, lemma_first_index};
use crate::commit::{
    commit_payload, lemma_deserialize_serialize_commit, one_line, parse_commit, Commit,
    CommitView,
};
use crate::error::{CorruptKind, StoreError};
use crate::object::{
    frame, lemma_deserialize_serialize, parse_object, OObject, OObjectId, OObjectType,
    ObjectView, CARRIAGE_RETURN, NEWLINE,
};
use crate::store::{
    decode_read, object_id, pending_write, prepare_write, PendingWrite, ReadOutcome,
};
use crate::text::{lemma_encode_contains_ascii, lemma_encode_ends_in_ascii};
use vstd::prelude::*;

verus! {

/// Whether `text` holds a line break.
pub fn has_line_break(text: &str) -> (found: bool)
    ensures
        found == text@.contains('\n'),
{
    let bytes = text.as_bytes();
    proof {
        assert(bytes@.skip(0) =~= bytes@);
        lemma_first_index(bytes@, NEWLINE);
        assert(NEWLINE as char == '\n');
        lemma_encode_contains_ascii(text@, NEWLINE);
    }
    find_byte(bytes, 0, NEWLINE) < bytes.len()
}

/// Whether `text` is a single line that is read back as it is wherever it
/// stands: it holds no line break and does not end in a carriage return.
pub fn is_single_line(text: &str) -> (single: bool)
    ensures
        single == one_line(text@),
{
    if has_line_break(text) {
        return false;
    }
    let bytes = text.as_bytes();
    proof {
        assert(CARRIAGE_RETURN as char == '\r');
        lemma_encode_ends_in_ascii(text@, CARRIAGE_RETURN);
    }
    bytes.len() == 0 || bytes[bytes.len() - 1] != CARRIAGE_RETURN
}

/// The commit object of a commit.
pub open spec fn commit_object(commit: CommitView) -> ObjectView {
    ObjectView { kind: OObjectType::Commit, data: commit_payload(commit) }
}

/// The commit that the given values make.
pub open spec fn commit_of(
    tree: Seq<char>,
    parent: Option<Seq<char>>,
    author: Seq<char>,
    message: Seq<char>,
) -> CommitView {
    CommitView { tree, parent, author, message }
}

/// The text of an identifier that may be absent.
pub open spec fn id_text(id: Option<&OObjectId>) -> Option<Seq<char>> {
    match id {
        Some(id) => Some(id@),
        None => None,
    }
}

/// Makes a commit of the given tree, parent, author and message and prepares
/// the write of its object.
///
/// None of the four may hold a line break, and tree, parent and author must
/// not end in a carriage return, which would be read as part of the line
/// break that follows them. A commit that is not so is refused with
/// `InvalidEncoding`, and nothing is prepared.
pub fn prepare_commit(
    tree: &OObjectId,
    parent: Option<&OObjectId>,
    author: &str,
    message: &str,
) -> (res: Result<PendingWrite, StoreError>)
    ensures
        commit_of(tree@, id_text(parent), author@, message@).well_formed() ==> {
            &&& res matches Ok(pending)
            &&& pending@ == pending_write(
                commit_object(commit_of(tree@, id_text(parent), author@, message@)),
            )
        },
        !commit_of(tree@, id_text(parent), author@, message@).well_formed() ==> {
            &&& res matches Err(e)
            &&& e == StoreError::Corrupt(CorruptKind::InvalidEncoding)
        },
{
    let parent_ok = match parent {
        Some(p) => is_single_line(p.as_str()),
        None => true,
    };
    if !is_single_line(tree.as_str()) || !parent_ok || !is_single_line(author) || has_line_break(
        message,
    ) {
        return Err(StoreError::Corrupt(CorruptKind::InvalidEncoding));
    }
    let commit = Commit {
        tree: OObjectId(tree.as_str().to_owned()),
        parent: match parent {
            Some(p) => Some(OObjectId(p.as_str().to_owned())),
            None => None,
        },
        author: author.to_owned(),
        message: message.to_owned(),
    };
    assert(commit@ == commit_of(tree@, id_text(parent), author@, message@));
    let object = OObject::new_commit(commit.serialize());
    Ok(prepare_write(&object))
}

/// The commit that the bytes of an object file hold: the bytes must decode
/// as an object, and the object's payload as a commit. Any failure on the way
/// breaks the chain.
pub open spec fn commit_in(bytes: Seq<u8>) -> Result<CommitView, StoreError> {
    match parse_object(bytes) {
        Ok(object) => match parse_commit(object.data) {
            Ok(commit) => Ok(commit),
            Err(_) => Err(StoreError::IncompleteChain),
        },
        Err(_) => Err(StoreError::IncompleteChain),
    }
}

/// The commit that a read gave, where it gave one. A file that is missing or
/// could not be read breaks the chain.
pub open spec fn commit_of_read(outcome: ReadOutcome) -> Result<CommitView, StoreError> {
    match outcome {
        ReadOutcome::Found(bytes) => commit_in(bytes@),
        _ => Err(StoreError::IncompleteChain),
    }
}

/// The commits of a list as mathematical values.
pub open spec fn commit_views(commits: Seq<Commit>) -> Seq<CommitView> {
    commits.map_values(|c: Commit| c@)
}

/// The text of the identifier that a step hands on, if it hands one on.
pub open spec fn owned_id_text(id: Option<OObjectId>) -> Option<Seq<char>> {
    match id {
        Some(id) => Some(id@),
        None => None,
    }
}

/// One step of walking a history: takes what reading the current commit's
/// object gave, appends the commit to `commits`, and says where to go next.
///
/// `Ok(Some(id))` names the parent to read next, `Ok(None)` says that the
/// root was reached and the walk is over. Where the object could not be
/// read, or does not decode as a commit, the chain is broken: the step fails
/// with `IncompleteChain` and leaves `commits` as it was.
pub fn history_step(commits: &mut Vec<Commit>, outcome: ReadOutcome) -> (next: Result<
    Option<OObjectId>,
    StoreError,
>)
    ensures
        commit_of_read(outcome) matches Ok(commit) ==> {
            &&& next matches Ok(parent)
            &&& owned_id_text(parent) == commit.parent
            &&& commit_views(final(commits)@) == commit_views(old(commits)@).push(commit)
        },
        commit_of_read(outcome) is Err ==> {
            &&& next matches Err(e)
            &&& e == StoreError::IncompleteChain
            &&& final(commits)@ == old(commits)@
        },
{
    let object = match decode_read(outcome) {
        Ok(object) => object,
        Err(_) => {
            return Err(StoreError::IncompleteChain);
        },
    };
    let commit = match Commit::deserialize(object.data.as_slice()) {
        Ok(commit) => commit,
        Err(_) => {
            return Err(StoreError::IncompleteChain);
        },
    };
    let next = match &commit.parent {
        Some(parent) => Some(OObjectId(parent.as_str().to_owned())),
        None => None,
    };
    proof {
        assert(commit_views(commits@.push(commit)) =~= commit_views(commits@).push(commit@));
    }
    commits.push(commit);
    Ok(next)
}

/// A walk of a history under way: the commits gathered, newest first, and
/// the identifier to read next, if the root is not reached yet.
pub struct Trail {
    pub commits: Seq<CommitView>,
    pub next: Option<Seq<char>>,
}

/// The trail after `steps` more commits have been read from the store, or
/// fewer where the root is reached before. The store is given by the bytes
/// that it holds under each identifier.
pub open spec fn follow(store: Map<Seq<char>, Seq<u8>>, trail: Trail, steps: nat) -> Result<
    Trail,
    StoreError,
>
    decreases steps,
{
    if steps == 0 {
        Ok(trail)
    } else {
        match trail.next {
            None => Ok(trail),
            Some(id) => if store.dom().contains(id) {
                match commit_in(store[id]) {
                    Ok(commit) => follow(
                        store,
                        Trail { commits: trail.commits.push(commit), next: commit.parent },
                        (steps - 1) as nat,
                    ),
                    Err(e) => Err(e),
                }
            } else {
                Err(StoreError::IncompleteChain)
            },
        }
    }
}

/// The identifier under which a commit is stored.
pub open spec fn commit_id(commit: CommitView) -> Seq<char> {
    object_id(commit_object(commit))
}

/// The commits form a chain that the store holds: each is a commit of
/// single-line texts, stored under its identifier, each but the last names
/// the next as its parent, and the last has no parent.
pub open spec fn holds_chain(store: Map<Seq<char>, Seq<u8>>, chain: Seq<CommitView>) -> bool {
    &&& chain.len() > 0
    &&& chain.last().parent is None
    &&& forall|i: int|
        0 <= i < chain.len() ==> {
            &&& (#[trigger] chain[i]).well_formed()
            &&& commit_payload(chain[i]).len() <= usize::MAX
            &&& store.dom().contains(commit_id(chain[i]))
            &&& store[commit_id(chain[i])] == frame(commit_object(chain[i]))
            &&& i < chain.len() - 1 ==> chain[i].parent == Some(commit_id(chain[i + 1]))
        }
}

/// A stored commit of single-line texts is read back as it is.
pub proof fn lemma_commit_in_frame(commit: CommitView)
    requires
        commit.well_formed(),
        commit_payload(commit).len() <= usize::MAX,
    ensures
        commit_in(frame(commit_object(commit))) == Ok::<CommitView, StoreError>(commit),
{
    lemma_deserialize_serialize(commit_object(commit));
    lemma_deserialize_serialize_commit(commit);
}

proof fn lemma_follow_from(store: Map<Seq<char>, Seq<u8>>, chain: Seq<CommitView>, at: int)
    requires
        holds_chain(store, chain),
        0 <= at < chain.len(),
    ensures
        follow(
            store,
            Trail { commits: chain.take(at), next: Some(commit_id(chain[at])) },
            (chain.len() - at) as nat,
        ) == Ok::<Trail, StoreError>(Trail { commits: chain, next: None }),
    decreases chain.len() - at,
{
    let commit = chain[at];
    lemma_commit_in_frame(commit);
    assert(chain.take(at).push(commit) =~= chain.take(at + 1));
    let then = Trail { commits: chain.take(at + 1), next: commit.parent };
    if at == chain.len() - 1 {
        assert(chain.take(at + 1) =~= chain);
        assert(follow(store, then, 0) == Ok::<Trail, StoreError>(then));
    } else {
        lemma_follow_from(store, chain, at + 1);
    }
}

/// Following a chain that the store holds, from its newest commit, gathers
/// the commits of the chain from the newest to the root, and ends there.
pub proof fn lemma_follow_chain(store: Map<Seq<char>, Seq<u8>>, chain: Seq<CommitView>)
    requires
        holds_chain(store, chain),
    ensures
        follow(
            store,
            Trail { commits: Seq::empty(), next: Some(commit_id(chain[0])) },
            chain.len(),
        ) == Ok::<Trail, StoreError>(Trail { commits: chain, next: None }),
{
    assert(chain.take(0) =~= Seq::<CommitView>::empty());
    lemma_follow_from(store, chain, 0);
}

} // verus!
