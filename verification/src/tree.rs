//! Immutable tree snapshots frozen from the index.
//!
//! A tree maps each path to a content digest and mode, sorted by path;
//! its identity is the digest of its deterministic encoding.

use vstd::prelude::*;
use crate::digest::{blob_digest, blob_digest_of, DIGEST_LEN};
use crate::index::{is_valid_rel_path, EntryModel, Index};
use crate::paths::{clone_bytes, lex_lt};
use crate::OpError;

verus! {

/// The mathematical model of one tree entry.
pub struct TreeEntryModel {
    pub path: Seq<u8>,
    pub digest: Seq<u8>,
    pub mode: u32,
}

/// One path of a tree snapshot with its content digest and mode.
pub struct TreeEntry {
    pub path: Vec<u8>,
    pub digest: Vec<u8>,
    pub mode: u32,
}

impl View for TreeEntry {
    type V = TreeEntryModel;

    open spec fn view(&self) -> TreeEntryModel {
        TreeEntryModel { path: self.path@, digest: self.digest@, mode: self.mode }
    }
}

/// Tree entries strictly sorted by path.
pub open spec fn sorted_tree(s: Seq<TreeEntryModel>) -> bool {
    forall|i: int, j: int| 0 <= i < j < s.len() ==> lex_lt(s[i].path, s[j].path)
}

/// Every tree entry's path is a valid relative path.
pub open spec fn tree_paths_valid(s: Seq<TreeEntryModel>) -> bool {
    forall|i: int| 0 <= i < s.len() ==> is_valid_rel_path((#[trigger] s[i]).path)
}

/// What a lookup finds is one of the tree's own entries.
pub proof fn lemma_tree_find_mem(s: Seq<TreeEntryModel>, p: Seq<u8>)
    ensures
        tree_find(s, p) matches Some(te) ==> exists|i: int| 0 <= i < s.len() && s[i] == te,
    decreases s.len(),
{
    if s.len() > 0 && s[0].path != p {
        lemma_tree_find_mem(s.skip(1), p);
        match tree_find(s, p) {
            Some(te) => {
                let i = choose|i: int| 0 <= i < s.skip(1).len() && s.skip(1)[i] == te;
                assert(s[i + 1] == te);
            },
            None => {},
        }
    }
}

/// The tree entry that freezing an index entry yields: its path, digest
/// and mode, with the volatile metadata dropped.
pub open spec fn tree_entry_of(e: EntryModel) -> TreeEntryModel {
    TreeEntryModel { path: e.path, digest: e.digest, mode: e.mode }
}

/// The tree that freezing an index yields.
pub open spec fn tree_of(s: Seq<EntryModel>) -> Seq<TreeEntryModel> {
    s.map_values(|e: EntryModel| tree_entry_of(e))
}

/// The entry of `s` carrying path `p`, if any.
pub open spec fn tree_find(s: Seq<TreeEntryModel>, p: Seq<u8>) -> Option<TreeEntryModel>
    decreases s.len(),
{
    if s.len() == 0 {
        None
    } else if s[0].path == p {
        Some(s[0])
    } else {
        tree_find(s.skip(1), p)
    }
}

/// The big-endian bytes of a 64-bit value.
pub open spec fn u64_be(n: u64) -> Seq<u8> {
    seq![
        ((n >> 56) & 0xff) as u8,
        ((n >> 48) & 0xff) as u8,
        ((n >> 40) & 0xff) as u8,
        ((n >> 32) & 0xff) as u8,
        ((n >> 24) & 0xff) as u8,
        ((n >> 16) & 0xff) as u8,
        ((n >> 8) & 0xff) as u8,
        (n & 0xff) as u8,
    ]
}

/// The deterministic encoding of one tree entry: length-prefixed path,
/// digest bytes, mode.
pub open spec fn encode_tree_entry(e: TreeEntryModel) -> Seq<u8> {
    u64_be(e.path.len() as u64) + e.path + e.digest + u64_be(e.mode as u64)
}

/// The deterministic encoding of a whole tree.
pub open spec fn encode_tree(s: Seq<TreeEntryModel>) -> Seq<u8>
    decreases s.len(),
{
    if s.len() == 0 {
        Seq::empty()
    } else {
        encode_tree(s.drop_last()) + encode_tree_entry(s.last())
    }
}

/// Appends the big-endian bytes of `n`.
pub fn push_u64_be(v: &mut Vec<u8>, n: u64)
    ensures
        final(v)@ == old(v)@ + u64_be(n),
{
    v.push(((n >> 56) & 0xff) as u8);
    v.push(((n >> 48) & 0xff) as u8);
    v.push(((n >> 40) & 0xff) as u8);
    v.push(((n >> 32) & 0xff) as u8);
    v.push(((n >> 24) & 0xff) as u8);
    v.push(((n >> 16) & 0xff) as u8);
    v.push(((n >> 8) & 0xff) as u8);
    v.push((n & 0xff) as u8);
    proof {
        assert(v@ =~= old(v)@ + u64_be(n));
    }
}

/// Appends every byte of `b`.
pub fn push_bytes(v: &mut Vec<u8>, b: &Vec<u8>)
    ensures
        final(v)@ == old(v)@ + b@,
{
    let n: usize = b.len();
    let mut i: usize = 0;
    while i < n
        invariant
            n == b@.len(),
            i <= n,
            v@ =~= old(v)@ + b@.take(i as int),
        decreases n - i,
    {
        v.push(b[i]);
        i += 1;
    }
    proof {
        assert(v@ =~= old(v)@ + b@);
    }
}

/// An immutable snapshot of path, digest and mode triples, sorted by
/// path.
pub struct Tree {
    entries: Vec<TreeEntry>,
}

impl View for Tree {
    type V = Seq<TreeEntryModel>;

    closed spec fn view(&self) -> Seq<TreeEntryModel> {
        self.entries@.map_values(|e: TreeEntry| e@)
    }
}

impl Tree {
    /// Entries strictly sorted by path, each path a valid relative one.
    pub open spec fn wf(&self) -> bool {
        sorted_tree(self@) && tree_paths_valid(self@)
    }

    /// An empty tree.
    pub fn new() -> (r: Tree)
        ensures
            r@ == Seq::<TreeEntryModel>::empty(),
            r.wf(),
    {
        let r = Tree { entries: Vec::new() };
        proof {
            assert(r@ =~= Seq::<TreeEntryModel>::empty());
        }
        r
    }

    /// The number of paths in the snapshot.
    pub fn len(&self) -> (r: usize)
        ensures
            r == self@.len(),
    {
        self.entries.len()
    }

    /// The entry at position `i` in sorted path order.
    pub fn entry_at(&self, i: usize) -> (r: &TreeEntry)
        requires
            i < self@.len(),
        ensures
            r@ == self@[i as int],
    {
        &self.entries[i]
    }

    /// Freezes the index into a tree: the same paths in the same order,
    /// each with its digest and mode, reusing the digests already
    /// computed at staging time.
    pub fn from_index(ix: &Index) -> (r: Tree)
        requires
            ix.wf(),
        ensures
            r@ == tree_of(ix@),
            r.wf(),
    {
        let n: usize = ix.len();
        let mut entries: Vec<TreeEntry> = Vec::new();
        let mut i: usize = 0;
        while i < n
            invariant
                ix.wf(),
                n == ix@.len(),
                i <= n,
                entries@.len() == i,
                forall|j: int| 0 <= j < i ==> (#[trigger] entries@[j])@ == tree_entry_of(ix@[j]),
            decreases n - i,
        {
            let e = ix.entry_at(i);
            entries.push(
                TreeEntry {
                    path: clone_bytes(&e.path),
                    digest: clone_bytes(&e.digest),
                    mode: e.mode,
                },
            );
            i += 1;
        }
        let r = Tree { entries };
        proof {
            assert forall|j: int| 0 <= j < n implies r@[j] == #[trigger] tree_of(ix@)[j] by {
                assert(entries@[j]@ == tree_entry_of(ix@[j]));
            }
            assert(r@ =~= tree_of(ix@));
        }
        r
    }

    /// The entry carrying `path`, if the snapshot holds one.
    pub fn find(&self, path: &Vec<u8>) -> (r: Option<TreeEntry>)
        ensures
            match r {
                Some(te) => tree_find(self@, path@) == Some(te@),
                None => tree_find(self@, path@) is None,
            },
    {
        let n: usize = self.entries.len();
        let mut i: usize = 0;
        proof {
            assert(self@.skip(0) =~= self@);
        }
        while i < n
            invariant
                n == self@.len(),
                i <= n,
                tree_find(self@, path@) == tree_find(self@.skip(i as int), path@),
            decreases n - i,
        {
            proof {
                assert(self@.skip(i as int)[0] == self@[i as int]);
                assert(self@.skip(i as int).skip(1) =~= self@.skip(i + 1));
            }
            if crate::paths::bytes_eq(&self.entries[i].path, path) {
                let e = &self.entries[i];
                return Some(
                    TreeEntry {
                        path: clone_bytes(&e.path),
                        digest: clone_bytes(&e.digest),
                        mode: e.mode,
                    },
                );
            }
            i += 1;
        }
        None
    }

    /// The deterministic byte encoding of the snapshot.
    pub fn encode(&self) -> (r: Vec<u8>)
        ensures
            r@ == encode_tree(self@),
    {
        let n: usize = self.entries.len();
        let mut r: Vec<u8> = Vec::new();
        let mut i: usize = 0;
        proof {
            assert(encode_tree(self@.take(0)) =~= Seq::<u8>::empty());
            assert(r@ =~= encode_tree(self@.take(0)));
        }
        while i < n
            invariant
                n == self@.len(),
                i <= n,
                r@ == encode_tree(self@.take(i as int)),
            decreases n - i,
        {
            let e = &self.entries[i];
            push_u64_be(&mut r, e.path.len() as u64);
            push_bytes(&mut r, &e.path);
            push_bytes(&mut r, &e.digest);
            push_u64_be(&mut r, e.mode as u64);
            proof {
                assert(self@.take(i + 1).drop_last() =~= self@.take(i as int));
                assert(self@.take(i + 1).last() == self@[i as int]);
                assert(r@ =~= encode_tree(self@.take(i as int)) + encode_tree_entry(
                    self@[i as int],
                ));
            }
            i += 1;
        }
        proof {
            assert(self@.take(n as int) =~= self@);
        }
        r
    }

    /// The content-addressed identity of the snapshot: the digest of
    /// its encoding.
    pub fn id(&self) -> (r: Result<Vec<u8>, OpError>)
        ensures
            r matches Ok(d) ==> d@ == blob_digest_of(encode_tree(self@)) && d@.len() == DIGEST_LEN,
            r matches Err(e) ==> e == OpError::DigestFailed,
    {
        let bytes = self.encode();
        blob_digest(&bytes)
    }
}

} // verus!
