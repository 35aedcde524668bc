//! SHA-256.

use vstd::prelude::*;
use sha2::Digest;
use crate::error::Error;
use crate::io::ByteSink;

verus! {

/// A SHA-256 digest.
pub type Sha256Digest = [u8; 32];

/// A SHA-256 computation in progress.
#[verifier::external_type_specification]
#[verifier::external_body]
pub struct ExSha256(sha2::Sha256);

/// The bytes that a SHA-256 computation was given so far.
pub uninterp spec fn absorbed(hasher: sha2::Sha256) -> Seq<u8>;

/// The SHA-256 digest of `data`.
pub uninterp spec fn sha256(data: Seq<u8>) -> Seq<u8>;

/// Calls `sha2::Sha256::new`, which starts a computation that was given nothing.
#[verifier::external_body]
pub(crate) fn sha256_new() -> (r: sha2::Sha256)
    ensures
        absorbed(r) == Seq::<u8>::empty(),
{
    sha2::Sha256::new()
}

/// Calls `sha2::Digest::update`, which gives the computation the bytes of `data` after those
/// that it was given before.
#[verifier::external_body]
pub(crate) fn sha256_update(hasher: &mut sha2::Sha256, data: &[u8])
    ensures
        absorbed(*final(hasher)) == absorbed(*old(hasher)) + data@,
{
    hasher.update(data);
}

/// Calls `sha2::Digest::finalize`, which gives the SHA-256 digest of all bytes that the
/// computation was given.
#[verifier::external_body]
pub(crate) fn sha256_finalize(hasher: sha2::Sha256) -> (r: [u8; 32])
    ensures
        r@ == sha256(absorbed(hasher)),
{
    hasher.finalize().into()
}

impl ByteSink for sha2::Sha256 {
    open spec fn written(&self) -> Seq<u8> {
        absorbed(*self)
    }

    open spec fn reliable(&self) -> bool {
        true
    }

    fn write_all(&mut self, data: &[u8]) -> (r: Result<(), Error>) {
        sha256_update(self, data);
        Ok(())
    }
}

} // verus!
