//! Checking a download against its SHA-256 digest while it streams by.

use vstd::prelude::*;
use crate::error::{Error, Failure};
use crate::text::same_bytes;

verus! {

/// The state of a running digest computation of `ring`.
#[verifier::external_type_specification]
#[verifier::external_body]
pub struct ExContext(ring::digest::Context);

/// The bytes that were fed to a digest context, in order.
pub uninterp spec fn fed(context: ring::digest::Context) -> Seq<u8>;

/// The SHA-256 digest of `data`.
pub uninterp spec fn sha256(data: Seq<u8>) -> Seq<u8>;

/// The most bytes that a digest can be computed of: their count in bits
/// has to fit in 64 bits.
pub const MAX_DIGEST_INPUT: u64 = 0x1fff_ffff_ffff_ffff;

/// A fresh SHA-256 context, by `ring::digest::Context::new`: nothing was fed
/// to it yet.
#[verifier::external_body]
fn new_context() -> (context: ring::digest::Context)
    ensures
        fed(context) == Seq::<u8>::empty(),
{
    ring::digest::Context::new(&ring::digest::SHA256)
}

/// Feeds `data` to the context, by `ring::digest::Context::update`: the
/// bytes follow those that were fed before.
#[verifier::external_body]
fn update_context(context: &mut ring::digest::Context, data: &[u8])
    ensures
        fed(*final(context)) == fed(*old(context)) + data@,
{
    context.update(data)
}

/// The digest of all that was fed to the context, by
/// `ring::digest::Context::finish`.
///
/// `finish` panics when more was fed than a digest can be computed of, so
/// such a context is not to be handed in.
#[verifier::external_body]
fn finish_context(context: ring::digest::Context) -> (digest: Vec<u8>)
    requires
        fed(context).len() <= MAX_DIGEST_INPUT,
    ensures
        digest@ == sha256(fed(context)),
{
    context.finish().as_ref().to_vec()
}

/// Whether a digest is the expected one.
pub fn digest_matches(digest: &[u8], expected: &[u8]) -> (same: bool)
    ensures
        same == (digest@ == expected@),
{
    same_bytes(digest, expected)
}

/// A stream, together with the digest of what came out of it so far and
/// the digest that all of it has to come to.
pub struct Validate<R> {
    inner: R,
    digest_context: ring::digest::Context,
    sha256: Vec<u8>,
    seen: u64,
}

impl<R> Validate<R> {
    /// The bytes that came out of the stream so far.
    pub closed spec fn consumed(&self) -> Seq<u8> {
        fed(self.digest_context)
    }

    /// The digest that the stream has to come to.
    pub closed spec fn expected(&self) -> Seq<u8> {
        self.sha256@
    }

    /// The stream itself.
    pub closed spec fn stream(&self) -> R {
        self.inner
    }

    /// The count of the bytes is kept, up to the greatest count there is.
    pub closed spec fn wf(&self) -> bool {
        self.seen as int == if self.consumed().len() <= u64::MAX {
            self.consumed().len() as int
        } else {
            u64::MAX as int
        }
    }

    /// Wraps a stream that has to come to the digest `sha256`.
    pub fn new(inner: R, sha256: Vec<u8>) -> (reader: Self)
        ensures
            reader.wf(),
            reader.consumed() == Seq::<u8>::empty(),
            reader.expected() == sha256@,
            reader.stream() == inner,
    {
        Validate { inner, digest_context: new_context(), sha256, seen: 0 }
    }

    /// The stream, to read from. What is read has to be handed to
    /// `observe`.
    pub fn get_mut(&mut self) -> (inner: &mut R)
        ensures
            *inner == old(self).stream(),
            final(self).stream() == *final(inner),
            final(self).consumed() == old(self).consumed(),
            final(self).expected() == old(self).expected(),
            old(self).wf() ==> final(self).wf(),
    {
        &mut self.inner
    }

    /// Takes note of bytes that came out of the stream: they follow those
    /// noted before.
    pub fn observe(&mut self, bytes: &[u8])
        requires
            old(self).wf(),
        ensures
            final(self).wf(),
            final(self).consumed() == old(self).consumed() + bytes@,
            final(self).expected() == old(self).expected(),
            final(self).stream() == old(self).stream(),
    {
        update_context(&mut self.digest_context, bytes);
        let more = bytes.len() as u64;
        if more > u64::MAX - self.seen {
            self.seen = u64::MAX;
        } else {
            self.seen = self.seen + more;
        }
    }

    /// Checks what came out of the stream against the expected digest.
    ///
    /// Fails with `ChecksumMismatch` when the digests differ, or when more
    /// came out of the stream than a digest can be computed of.
    pub fn validate(self) -> (outcome: Result<(), Error>)
        requires
            self.wf(),
        ensures
            outcome is Ok <==> self.consumed().len() <= MAX_DIGEST_INPUT && sha256(
                self.consumed(),
            ) == self.expected(),
            outcome matches Err(e) ==> e@ == Failure::ChecksumMismatch,
    {
        if self.seen > MAX_DIGEST_INPUT {
            return Err(Error::ChecksumMismatch);
        }
        let checksum = finish_context(self.digest_context);
        if digest_matches(checksum.as_slice(), self.sha256.as_slice()) {
            Ok(())
        } else {
            Err(Error::ChecksumMismatch)
        }
    }
}

} // verus!
