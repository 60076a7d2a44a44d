//! The repository: object store, index and the linear commit history.
//!
//! Commits form a singly linked chain: each commit's parent is the
//! commit before it, and the current-commit pointer is always the most
//! recent one (or unset while the repository is unborn).

use vstd::prelude::*;
use crate::diff::{all_unmodified, deltas_model, diff, diff_spec, Delta};
use crate::digest::{blob_digest, blob_digest_of};
use crate::index::{meta_fits, is_valid_rel_path, staged_entry, upsert_seq, Index, RawMetadata};
use crate::message::{message_is_empty, msg_effectively_empty};
use crate::paths::{clone_bytes, opt_bytes};
use crate::store::ObjectStore;
use crate::tree::{encode_tree, push_bytes, push_u64_be, tree_of, u64_be, sorted_tree, Tree,
    TreeEntryModel};
use crate::OpError;

verus! {

/// The mathematical model of one commit.
pub struct CommitModel {
    pub id: Seq<u8>,
    pub tree: Seq<TreeEntryModel>,
    pub tree_id: Seq<u8>,
    pub parent: Option<Seq<u8>>,
    pub author: Seq<u8>,
    pub message: Seq<u8>,
    pub timestamp: i64,
}

/// One commit: a frozen tree with its provenance.
pub struct CommitRecord {
    pub id: Vec<u8>,
    pub tree: Tree,
    pub tree_id: Vec<u8>,
    pub parent: Option<Vec<u8>>,
    pub author: Vec<u8>,
    pub message: Vec<u8>,
    pub timestamp: i64,
}

impl View for CommitRecord {
    type V = CommitModel;

    open spec fn view(&self) -> CommitModel {
        CommitModel {
            id: self.id@,
            tree: self.tree@,
            tree_id: self.tree_id@,
            parent: opt_bytes(self.parent),
            author: self.author@,
            message: self.message@,
            timestamp: self.timestamp,
        }
    }
}

/// The byte encoding of an optional parent identity.
pub open spec fn parent_bytes(p: Option<Seq<u8>>) -> Seq<u8> {
    match p {
        None => seq![0u8],
        Some(b) => seq![1u8] + b,
    }
}

/// The deterministic encoding of a commit's fields, whose digest is the
/// commit's identity.
pub open spec fn encode_commit(
    tree_id: Seq<u8>,
    parent: Option<Seq<u8>>,
    author: Seq<u8>,
    message: Seq<u8>,
    timestamp: i64,
) -> Seq<u8> {
    u64_be(tree_id.len() as u64) + tree_id + parent_bytes(parent) + u64_be(author.len() as u64)
        + author + u64_be(message.len() as u64) + message + u64_be(timestamp as u64)
}

/// Builds the byte encoding of a commit's fields.
pub fn encode_commit_bytes(
    tree_id: &Vec<u8>,
    parent: &Option<Vec<u8>>,
    author: &Vec<u8>,
    message: &Vec<u8>,
    timestamp: i64,
) -> (r: Vec<u8>)
    ensures
        r@ == encode_commit(tree_id@, opt_bytes(*parent), author@, message@, timestamp),
{
    let mut r: Vec<u8> = Vec::new();
    push_u64_be(&mut r, tree_id.len() as u64);
    push_bytes(&mut r, tree_id);
    match parent {
        None => {
            r.push(0u8);
        },
        Some(p) => {
            r.push(1u8);
            push_bytes(&mut r, p);
        },
    }
    push_u64_be(&mut r, author.len() as u64);
    push_bytes(&mut r, author);
    push_u64_be(&mut r, message.len() as u64);
    push_bytes(&mut r, message);
    push_u64_be(&mut r, timestamp as u64);
    proof {
        assert(r@ =~= encode_commit(tree_id@, opt_bytes(*parent), author@, message@, timestamp));
    }
    r
}

/// The versioned store: blobs, the staging index and the commit chain.
pub struct Repository {
    pub store: ObjectStore,
    pub index: Index,
    pub commits: Vec<CommitRecord>,
}

impl Repository {
    /// The models of the commits, oldest first.
    pub open spec fn commits_model(&self) -> Seq<CommitModel> {
        self.commits@.map_values(|c: CommitRecord| c@)
    }

    /// The identity of the current commit, unset while unborn.
    pub open spec fn head_model(&self) -> Option<Seq<u8>> {
        if self.commits_model().len() == 0 {
            None
        } else {
            Some(self.commits_model().last().id)
        }
    }

    /// A commit whose identity and tree identity are the digests of its
    /// encodings, with a sorted tree.
    pub open spec fn commit_wf(c: CommitModel) -> bool {
        &&& sorted_tree(c.tree)
        &&& crate::tree::tree_paths_valid(c.tree)
        &&& c.tree_id == blob_digest_of(encode_tree(c.tree))
        &&& c.id == blob_digest_of(
            encode_commit(c.tree_id, c.parent, c.author, c.message, c.timestamp),
        )
    }

    /// The index is sorted and the history is linear: the first commit
    /// has no parent, and every later commit's parent is the commit
    /// before it.
    pub open spec fn wf(&self) -> bool {
        &&& self.index.wf()
        &&& forall|i: int|
            0 <= i < self.commits_model().len() ==> Self::commit_wf(
                #[trigger] self.commits_model()[i],
            )
        &&& forall|i: int|
            0 <= i < self.commits_model().len() ==> (#[trigger] self.commits_model()[i]).parent
                == (if i == 0 {
                    None
                } else {
                    Some(self.commits_model()[i - 1].id)
                })
    }

    /// An empty repository: no blobs, nothing staged, unborn history.
    pub fn new() -> (r: Repository)
        ensures
            r.wf(),
            r.store@ == Map::<Seq<u8>, Seq<u8>>::empty(),
            r.index@ == Seq::<crate::index::EntryModel>::empty(),
            r.commits_model() == Seq::<CommitModel>::empty(),
            r.head_model() is None,
    {
        let r = Repository { store: ObjectStore::new(), index: Index::new(), commits: Vec::new() };
        proof {
            assert(r.commits_model() =~= Seq::<CommitModel>::empty());
        }
        r
    }

    /// The number of commits.
    pub fn commit_count(&self) -> (r: usize)
        ensures
            r == self.commits_model().len(),
    {
        self.commits.len()
    }

    /// The commit at position `i`, oldest first.
    pub fn commit_at(&self, i: usize) -> (r: &CommitRecord)
        requires
            i < self.commits_model().len(),
        ensures
            r@ == self.commits_model()[i as int],
    {
        &self.commits[i]
    }

    /// The identity of the current commit, or nothing while unborn.
    pub fn head_id(&self) -> (r: Option<Vec<u8>>)
        ensures
            opt_bytes(r) == self.head_model(),
    {
        if self.commits.len() == 0 {
            None
        } else {
            Some(clone_bytes(&self.commits[self.commits.len() - 1].id))
        }
    }

    /// Whether the index holds nothing that a commit would snapshot:
    /// unborn with an empty index, or no delta against the parent tree.
    pub open spec fn nothing_to_commit(&self) -> bool {
        if self.commits_model().len() == 0 {
            self.index@.len() == 0
        } else {
            all_unmodified(diff_spec(self.commits_model().last().tree, self.index@, false))
        }
    }

    /// The deltas between the current commit's tree and the index;
    /// against an unborn repository every staged path is untracked.
    pub open spec fn status_model(&self) -> Seq<crate::diff::DeltaModel> {
        if self.commits_model().len() == 0 {
            diff_spec(Seq::empty(), self.index@, true)
        } else {
            diff_spec(self.commits_model().last().tree, self.index@, false)
        }
    }

    /// Computes the status deltas of the repository.
    pub fn status(&self) -> (r: Vec<Delta>)
        requires
            self.wf(),
        ensures
            deltas_model(r@) == self.status_model(),
    {
        if self.commits.len() == 0 {
            diff(None, &self.index)
        } else {
            let tip = &self.commits[self.commits.len() - 1];
            proof {
                assert(Self::commit_wf(self.commits_model()[self.commits_model().len() - 1]));
            }
            diff(Some(&tip.tree), &self.index)
        }
    }

    /// Stages one file: stores its content, then upserts the index
    /// entry carrying its digest and metadata. The path must be
    /// relative and nonempty, and the metadata must fit the stored
    /// widths; a failure leaves the repository unchanged, except that a
    /// metadata failure cannot be reached once the content was already
    /// refused by the digest backend.
    pub fn stage_file(&mut self, rel_path: Vec<u8>, content: &Vec<u8>, meta: RawMetadata) -> (r:
        Result<(), OpError>)
        requires
            old(self).wf(),
        ensures
            final(self).wf(),
            final(self).commits_model() == old(self).commits_model(),
            !is_valid_rel_path(rel_path@) ==> r == Err::<(), OpError>(OpError::PathOutsideRoot)
                && *final(self) == *old(self),
            is_valid_rel_path(rel_path@) && !meta_fits(meta) ==> r == Err::<(), OpError>(
                OpError::MetadataOverflow,
            ) && *final(self) == *old(self),
            is_valid_rel_path(rel_path@) && meta_fits(meta) && r is Ok ==> final(self).index@
                == upsert_seq(
                old(self).index@,
                staged_entry(rel_path@, blob_digest_of(content@), meta),
            ) && final(self).store@ == (if old(self).store@.contains_key(blob_digest_of(content@)) {
                old(self).store@
            } else {
                old(self).store@.insert(blob_digest_of(content@), content@)
            }),
            is_valid_rel_path(rel_path@) && meta_fits(meta) ==> (r matches Err(e) ==> e
                == OpError::DigestFailed && *final(self) == *old(self)),
    {
        if rel_path.len() == 0 || rel_path[0] == 47u8 {
            return Err(OpError::PathOutsideRoot);
        }
        if meta.ino > u32::MAX as u64 || meta.dev > u32::MAX as u64 || meta.size > u32::MAX as u64
            || meta.ctime < i32::MIN as i64 || meta.ctime > i32::MAX as i64 || meta.mtime
            < i32::MIN as i64 || meta.mtime > i32::MAX as i64 {
            return Err(OpError::MetadataOverflow);
        }
        let digest = match self.store.put(content) {
            Ok(d) => d,
            Err(e) => {
                return Err(e);
            },
        };
        match self.index.stage(rel_path, digest, meta) {
            Ok(()) => Ok(()),
            Err(e) => Err(e),
        }
    }

    /// Creates a commit from the index: freezes it into a tree, links
    /// the new commit to the current one and advances the pointer.
    /// Fails with [`OpError::NothingToCommit`] when the index holds no
    /// change against the parent tree (or is empty while unborn), and
    /// with [`OpError::EmptyMessage`] when the message is empty after
    /// trimming whitespace and comment lines; any failure leaves the
    /// repository unchanged.
    pub fn commit(&mut self, message: &Vec<u8>, author: &Vec<u8>, timestamp: i64) -> (r: Result<
        Vec<u8>,
        OpError,
    >)
        requires
            old(self).wf(),
        ensures
            final(self).wf(),
            r is Err ==> *final(self) == *old(self),
            old(self).nothing_to_commit() ==> r == Err::<Vec<u8>, OpError>(
                OpError::NothingToCommit,
            ),
            !old(self).nothing_to_commit() && msg_effectively_empty(message@) ==> r == Err::<
                Vec<u8>,
                OpError,
            >(OpError::EmptyMessage),
            !old(self).nothing_to_commit() && !msg_effectively_empty(message@) ==> (r matches Err(
                e,
            ) ==> e == OpError::DigestFailed),
            r matches Ok(id) ==> !old(self).nothing_to_commit() && !msg_effectively_empty(message@)
                && final(self).index@ == old(self).index@ && final(self).store@ == old(self).store@
                && final(self).commits_model() == old(self).commits_model().push(
                CommitModel {
                    id: id@,
                    tree: tree_of(old(self).index@),
                    tree_id: blob_digest_of(encode_tree(tree_of(old(self).index@))),
                    parent: old(self).head_model(),
                    author: author@,
                    message: message@,
                    timestamp: timestamp,
                },
            ) && final(self).head_model() == Some(id@),
    {
        let nothing: bool;
        if self.commits.len() == 0 {
            nothing = self.index.is_empty();
        } else {
            let tip = &self.commits[self.commits.len() - 1];
            proof {
                assert(Self::commit_wf(self.commits_model()[self.commits_model().len() - 1]));
            }
            let ds = diff(Some(&tip.tree), &self.index);
            nothing = !crate::diff::has_changes(&ds);
        }
        if nothing {
            return Err(OpError::NothingToCommit);
        }
        if message_is_empty(message) {
            return Err(OpError::EmptyMessage);
        }
        let tree = Tree::from_index(&self.index);
        let tree_id = match tree.id() {
            Ok(d) => d,
            Err(e) => {
                return Err(e);
            },
        };
        let parent = self.head_id();
        let cbytes = encode_commit_bytes(&tree_id, &parent, author, message, timestamp);
        let id = match blob_digest(&cbytes) {
            Ok(d) => d,
            Err(e) => {
                return Err(e);
            },
        };
        let ghost pre = self.commits_model();
        let record = CommitRecord {
            id: clone_bytes(&id),
            tree,
            tree_id,
            parent,
            author: clone_bytes(author),
            message: clone_bytes(message),
            timestamp,
        };
        self.commits.push(record);
        proof {
            assert(self.commits_model() =~= pre.push(self.commits@.last()@));
        }
        Ok(id)
    }

    /// Amends the most recent commit: replaces its tree with a fresh
    /// snapshot of the index and its message, author and timestamp,
    /// while keeping its parent, so the history stays linear. Fails
    /// with [`OpError::UnbornRepository`] when no commit exists, and
    /// with [`OpError::EmptyMessage`] as `commit` does; any failure
    /// leaves the repository unchanged.
    pub fn amend(&mut self, message: &Vec<u8>, author: &Vec<u8>, timestamp: i64) -> (r: Result<
        Vec<u8>,
        OpError,
    >)
        requires
            old(self).wf(),
        ensures
            final(self).wf(),
            r is Err ==> *final(self) == *old(self),
            old(self).commits_model().len() == 0 ==> r == Err::<Vec<u8>, OpError>(
                OpError::UnbornRepository,
            ),
            old(self).commits_model().len() > 0 && msg_effectively_empty(message@) ==> r == Err::<
                Vec<u8>,
                OpError,
            >(OpError::EmptyMessage),
            old(self).commits_model().len() > 0 && !msg_effectively_empty(message@) ==> (
            r matches Err(e) ==> e == OpError::DigestFailed),
            r matches Ok(id) ==> old(self).commits_model().len() > 0 && !msg_effectively_empty(
                message@,
            ) && final(self).index@ == old(self).index@ && final(self).store@ == old(self).store@
                && final(self).commits_model() == old(self).commits_model().drop_last().push(
                CommitModel {
                    id: id@,
                    tree: tree_of(old(self).index@),
                    tree_id: blob_digest_of(encode_tree(tree_of(old(self).index@))),
                    parent: old(self).commits_model().last().parent,
                    author: author@,
                    message: message@,
                    timestamp: timestamp,
                },
            ) && final(self).head_model() == Some(id@),
    {
        if self.commits.len() == 0 {
            return Err(OpError::UnbornRepository);
        }
        if message_is_empty(message) {
            return Err(OpError::EmptyMessage);
        }
        let tree = Tree::from_index(&self.index);
        let tree_id = match tree.id() {
            Ok(d) => d,
            Err(e) => {
                return Err(e);
            },
        };
        let tip = &self.commits[self.commits.len() - 1];
        let parent: Option<Vec<u8>> = match &tip.parent {
            None => None,
            Some(p) => Some(clone_bytes(p)),
        };
        let cbytes = encode_commit_bytes(&tree_id, &parent, author, message, timestamp);
        let id = match blob_digest(&cbytes) {
            Ok(d) => d,
            Err(e) => {
                return Err(e);
            },
        };
        let ghost pre = self.commits_model();
        let record = CommitRecord {
            id: clone_bytes(&id),
            tree,
            tree_id,
            parent,
            author: clone_bytes(author),
            message: clone_bytes(message),
            timestamp,
        };
        let _ = self.commits.pop();
        self.commits.push(record);
        proof {
            assert(self.commits_model() =~= pre.drop_last().push(self.commits@.last()@));
        }
        Ok(id)
    }

    /// The commit identities, newest first.
    pub fn log(&self) -> (r: Vec<Vec<u8>>)
        ensures
            r@.len() == self.commits_model().len(),
            forall|i: int|
                0 <= i < r@.len() ==> r@[i]@ == self.commits_model()[self.commits_model().len() - 1
                    - i].id,
    {
        let n: usize = self.commits.len();
        let mut r: Vec<Vec<u8>> = Vec::new();
        let mut i: usize = 0;
        while i < n
            invariant
                n == self.commits_model().len(),
                i <= n,
                r@.len() == i,
                forall|k: int|
                    0 <= k < i ==> r@[k]@ == self.commits_model()[self.commits_model().len() - 1
                        - k].id,
            decreases n - i,
        {
            r.push(clone_bytes(&self.commits[n - 1 - i].id));
            i += 1;
        }
        r
    }

    /// Restores the index from the current commit's tree; while unborn,
    /// clears the index entirely.
    pub fn reset_all(&mut self)
        requires
            old(self).wf(),
        ensures
            final(self).wf(),
            final(self).store@ == old(self).store@,
            final(self).commits_model() == old(self).commits_model(),
            old(self).commits_model().len() == 0 ==> final(self).index@ == Seq::<
                crate::index::EntryModel,
            >::empty(),
            old(self).commits_model().len() > 0 ==> final(self).index@ == crate::index::reset_model(
                old(self).index@,
                old(self).commits_model().last().tree,
            ),
    {
        if self.commits.len() == 0 {
            self.index.clear();
        } else {
            let tip = &self.commits[self.commits.len() - 1];
            proof {
                assert(Self::commit_wf(self.commits_model()[self.commits_model().len() - 1]));
            }
            self.index.reset_to_tree(&tip.tree);
        }
    }

    /// Restores only the named paths from the current commit's tree,
    /// leaving the others untouched; fails with
    /// [`OpError::UnbornRepository`] when no commit exists.
    pub fn reset_named_paths(&mut self, paths: &Vec<Vec<u8>>) -> (r: Result<(), OpError>)
        requires
            old(self).wf(),
        ensures
            final(self).wf(),
            final(self).store@ == old(self).store@,
            final(self).commits_model() == old(self).commits_model(),
            old(self).commits_model().len() == 0 ==> r == Err::<(), OpError>(
                OpError::UnbornRepository,
            ) && *final(self) == *old(self),
            old(self).commits_model().len() > 0 ==> r is Ok && final(self).index@
                == crate::index::reset_paths_model(
                old(self).index@,
                crate::index::paths_model(paths@),
                old(self).commits_model().last().tree,
            ),
    {
        if self.commits.len() == 0 {
            return Err(OpError::UnbornRepository);
        }
        let tip = &self.commits[self.commits.len() - 1];
        proof {
            assert(Self::commit_wf(self.commits_model()[self.commits_model().len() - 1]));
        }
        self.index.reset_paths(paths, &tip.tree);
        Ok(())
    }
}

/// Against an unborn repository, a path the index holds appears in the
/// status exactly once, tagged `Untracked`: at its own index position,
/// and at no other.
pub proof fn lemma_unborn_status_path_once(r: &Repository, p: Seq<u8>, j: int)
    requires
        r.wf(),
        r.commits_model().len() == 0,
        0 <= j < r.index@.len(),
        r.index@[j].path == p,
    ensures
        r.status_model().len() == r.index@.len(),
        r.status_model()[j] == crate::diff::added_delta(r.index@[j], true),
        r.status_model()[j].status == crate::diff::DeltaStatus::Untracked,
        r.status_model()[j].new_path == Some(p),
        forall|m: int|
            0 <= m < r.status_model().len() && m != j ==> (#[trigger] r.status_model()[m]).new_path
                != Some(p),
{
    crate::diff::lemma_diff_unborn(r.index@);
    crate::index::lemma_sorted_paths_unique(r.index@);
    assert forall|m: int|
        0 <= m < r.status_model().len() && m != j implies (#[trigger] r.status_model()[m]).new_path
        != Some(p) by {
        assert(r.status_model()[m] == crate::diff::added_delta(r.index@[m], true));
        assert(r.index@[m].path != r.index@[j].path);
    }
}

/// Against an unborn repository the status reports every staged path,
/// in index order, tagged `Untracked`.
pub proof fn lemma_unborn_status(r: &Repository)
    requires
        r.wf(),
        r.commits_model().len() == 0,
    ensures
        r.status_model().len() == r.index@.len(),
        forall|i: int|
            0 <= i < r.index@.len() ==> r.status_model()[i] == crate::diff::added_delta(
                r.index@[i],
                true,
            ),
{
    crate::diff::lemma_diff_unborn(r.index@);
}

/// After a commit whose tree froze the index, the status against that
/// commit is clean: every delta is `Unmodified`.
pub proof fn lemma_commit_round_trip(r: &Repository)
    requires
        r.wf(),
        r.commits_model().len() > 0,
        r.commits_model().last().tree == tree_of(r.index@),
    ensures
        all_unmodified(r.status_model()),
        r.nothing_to_commit(),
{
    crate::diff::lemma_diff_self_clean(r.index@);
}

} // verus!
