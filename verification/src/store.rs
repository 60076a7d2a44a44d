//! The object store: append-only, content-addressed storage of blobs.
//!
//! A blob's identity is the digest of its bytes, so storing identical
//! contents twice writes nothing the second time.

use vstd::prelude::*;
use crate::digest::{blob_digest, blob_digest_of, DIGEST_LEN};
use crate::paths::{bytes_eq, clone_bytes};
use crate::OpError;

verus! {

/// Content-addressed blob storage; the view is the map from digest to
/// stored bytes.
pub struct ObjectStore {
    blobs: Vec<(Vec<u8>, Vec<u8>)>,
}

/// The stored bytes under key `k`, with the latest entry winning.
pub open spec fn find_blob(s: Seq<(Vec<u8>, Vec<u8>)>, k: Seq<u8>) -> Option<Seq<u8>>
    decreases s.len(),
{
    if s.len() == 0 {
        None
    } else if s.last().0@ == k {
        Some(s.last().1@)
    } else {
        find_blob(s.drop_last(), k)
    }
}

/// The map that a sequence of digest/content pairs denotes.
pub open spec fn blobs_map(s: Seq<(Vec<u8>, Vec<u8>)>) -> Map<Seq<u8>, Seq<u8>>
    decreases s.len(),
{
    if s.len() == 0 {
        Map::empty()
    } else {
        blobs_map(s.drop_last()).insert(s.last().0@, s.last().1@)
    }
}

/// [`find_blob`] agrees with the map the pair sequence denotes.
pub proof fn lemma_find_blob(s: Seq<(Vec<u8>, Vec<u8>)>, k: Seq<u8>)
    ensures
        blobs_map(s).contains_key(k) <==> find_blob(s, k) is Some,
        find_blob(s, k) matches Some(v) ==> blobs_map(s)[k] == v,
    decreases s.len(),
{
    if s.len() > 0 {
        lemma_find_blob(s.drop_last(), k);
    }
}

impl View for ObjectStore {
    type V = Map<Seq<u8>, Seq<u8>>;

    closed spec fn view(&self) -> Map<Seq<u8>, Seq<u8>> {
        blobs_map(self.blobs@)
    }
}

impl ObjectStore {
    /// An empty store.
    pub fn new() -> (r: ObjectStore)
        ensures
            r@ == Map::<Seq<u8>, Seq<u8>>::empty(),
    {
        ObjectStore { blobs: Vec::new() }
    }

    /// The content stored under `digest`, when the sequence is searched
    /// newest first.
    fn lookup(&self, digest: &Vec<u8>) -> (r: Option<Vec<u8>>)
        ensures
            match r {
                Some(b) => find_blob(self.blobs@, digest@) == Some(b@),
                None => find_blob(self.blobs@, digest@) is None,
            },
    {
        let mut i: usize = self.blobs.len();
        proof {
            assert(self.blobs@.take(i as int) =~= self.blobs@);
        }
        while i > 0
            invariant
                i <= self.blobs@.len(),
                find_blob(self.blobs@, digest@) == find_blob(self.blobs@.take(i as int), digest@),
            decreases i,
        {
            proof {
                assert(self.blobs@.take(i as int).last() == self.blobs@[i - 1]);
                assert(self.blobs@.take(i as int).drop_last() =~= self.blobs@.take(i - 1));
            }
            i -= 1;
            if bytes_eq(&self.blobs[i].0, digest) {
                return Some(clone_bytes(&self.blobs[i].1));
            }
        }
        None
    }

    /// Whether a blob is stored under `digest`.
    pub fn contains(&self, digest: &Vec<u8>) -> (r: bool)
        ensures
            r == self@.contains_key(digest@),
    {
        proof {
            lemma_find_blob(self.blobs@, digest@);
        }
        match self.lookup(digest) {
            Some(_) => true,
            None => false,
        }
    }

    /// Stores `content` and returns its digest. Storing bytes already
    /// present yields the same digest and writes nothing. Fails only
    /// when the digest backend does, leaving the store unchanged.
    pub fn put(&mut self, content: &Vec<u8>) -> (r: Result<Vec<u8>, OpError>)
        ensures
            r matches Ok(d) ==> d@ == blob_digest_of(content@) && d@.len() == DIGEST_LEN,
            r is Ok && old(self)@.contains_key(blob_digest_of(content@)) ==> *final(self) == *old(self),
            r is Ok && !old(self)@.contains_key(blob_digest_of(content@)) ==> final(self)@ == old(self)@.insert(blob_digest_of(content@), content@),
            r matches Err(e) ==> e == OpError::DigestFailed && *final(self) == *old(self),
    {
        let digest = match blob_digest(content) {
            Ok(d) => d,
            Err(e) => {
                return Err(e);
            },
        };
        proof {
            lemma_find_blob(self.blobs@, digest@);
        }
        match self.lookup(&digest) {
            Some(_) => Ok(digest),
            None => {
                let ghost pre = self.blobs@;
                let pair = (clone_bytes(&digest), clone_bytes(content));
                self.blobs.push(pair);
                proof {
                    assert(self.blobs@.drop_last() =~= pre);
                }
                Ok(digest)
            },
        }
    }

    /// The content stored under `digest`, or [`OpError::NotFound`] when
    /// the store holds nothing under it.
    pub fn get(&self, digest: &Vec<u8>) -> (r: Result<Vec<u8>, OpError>)
        ensures
            r matches Ok(b) ==> self@.contains_key(digest@) && b@ == self@[digest@],
            r matches Err(e) ==> !self@.contains_key(digest@) && e == OpError::NotFound,
    {
        proof {
            lemma_find_blob(self.blobs@, digest@);
        }
        match self.lookup(digest) {
            Some(b) => Ok(b),
            None => Err(OpError::NotFound),
        }
    }
}

/// Storing a content a second time finds its digest already present and
/// leaves the store's map unchanged: `put` is idempotent.
pub proof fn lemma_put_idempotent(m: Map<Seq<u8>, Seq<u8>>, content: Seq<u8>)
    ensures
        m.insert(blob_digest_of(content), content).contains_key(blob_digest_of(content)),
        m.insert(blob_digest_of(content), content).insert(blob_digest_of(content), content)
            == m.insert(blob_digest_of(content), content),
{
    assert(m.insert(blob_digest_of(content), content).insert(blob_digest_of(content), content)
        =~= m.insert(blob_digest_of(content), content));
}

} // verus!
