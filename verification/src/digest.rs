//! Content digests through libgit2.
//!
//! Blob, tree and commit identities are SHA-1 digests computed by
//! `git2::Oid::hash_object`, taken on trust and named by
//! [`blob_digest_of`].

use vstd::prelude::*;
use crate::OpError;

verus! {

/// The number of bytes in a digest.
pub const DIGEST_LEN: usize = 20;

/// The digest that hashing `data` as a blob object yields. The result
/// depends on the bytes alone.
pub uninterp spec fn blob_digest_of(data: Seq<u8>) -> Seq<u8>;

#[verifier::external_type_specification]
#[verifier::external_body]
pub struct ExGit2Error(git2::Error);

/// Relies on `git2::Oid::hash_object`, which always hashes the given
/// bytes with SHA-1 as an object of the given kind, from the bytes
/// alone and without touching any object database; an `Oid` holds the
/// 20 raw digest bytes.
#[verifier::external_body]
fn hash_blob(data: &Vec<u8>) -> (r: Result<Vec<u8>, git2::Error>)
    ensures
        r matches Ok(d) ==> d@ == blob_digest_of(data@) && d@.len() == DIGEST_LEN,
{
    git2::Oid::hash_object(git2::ObjectType::Blob, data.as_slice())
        .map(|oid| oid.as_bytes().to_vec())
}

/// The digest of `data` as blob content, or [`OpError::DigestFailed`]
/// when the digest backend refuses.
pub fn blob_digest(data: &Vec<u8>) -> (r: Result<Vec<u8>, OpError>)
    ensures
        r matches Ok(d) ==> d@ == blob_digest_of(data@) && d@.len() == DIGEST_LEN,
        r matches Err(e) ==> e == OpError::DigestFailed,
{
    match hash_blob(data) {
        Ok(d) => Ok(d),
        Err(_) => Err(OpError::DigestFailed),
    }
}

/// Identical byte sequences always carry the same digest: blob identity
/// is a pure function of content.
pub proof fn lemma_digest_deterministic(b1: Seq<u8>, b2: Seq<u8>)
    requires
        b1 == b2,
    ensures
        blob_digest_of(b1) == blob_digest_of(b2),
{
}

} // verus!
