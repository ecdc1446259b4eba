//! Content digests: a fixed 32-byte fingerprint of a file's bytes.
//!
//! Two files are considered duplicates exactly when their digests are equal;
//! the digest of a byte string depends on those bytes alone. The hasher is
//! incremental, so a caller can feed a file chunk by chunk without holding
//! it in memory whole.

use sha2::Digest;
use vstd::prelude::*;

verus! {

/// The digest of a byte string. It is a pure function of the bytes: equal
/// contents give equal digests, on every call and in every run.
pub uninterp spec fn sha256_of(data: Seq<u8>) -> Seq<u8>;

/// Number of bytes in a content digest.
pub open spec fn digest_len() -> int {
    32
}

#[verifier::external_type_specification]
#[verifier::external_body]
pub struct ExSha256(sha2::Sha256);

/// An incremental content hasher: bytes are fed in order, chunk by chunk,
/// and the digest of everything fed comes out at the end.
pub struct StreamHasher {
    inner: sha2::Sha256,
    fed: Ghost<Seq<u8>>,
}

impl StreamHasher {
    /// The bytes fed so far.
    pub closed spec fn fed_bytes(&self) -> Seq<u8> {
        self.fed@
    }

    /// Relies on sha2::Sha256::new (the digest crate's `Digest::new`):
    /// a fresh hasher with nothing fed yet.
    #[verifier::external_body]
    pub fn new() -> (r: StreamHasher)
        ensures
            r.fed_bytes() == Seq::<u8>::empty(),
    {
        StreamHasher { inner: sha2::Sha256::new(), fed: Ghost(Seq::empty()) }
    }

    /// Relies on sha2::Sha256::update (the digest crate's `Digest::update`):
    /// absorbs the chunk's bytes, in order, after everything fed before.
    #[verifier::external_body]
    pub fn update(&mut self, chunk: &[u8])
        ensures
            final(self).fed_bytes() == old(self).fed_bytes() + chunk@,
    {
        self.inner.update(chunk);
    }

    /// Relies on sha2::Sha256::finalize (the digest crate's
    /// `Digest::finalize`): the 32-byte digest of all fed bytes, a function
    /// of those bytes alone.
    #[verifier::external_body]
    pub fn finalize(self) -> (r: Vec<u8>)
        ensures
            r@ == sha256_of(self.fed_bytes()),
            r@.len() == 32,
    {
        self.inner.finalize().to_vec()
    }
}

/// Compute the content digest of a byte string held in memory whole (the
/// contents of one file, already read by the caller).
pub fn content_digest(data: &Vec<u8>) -> (r: Vec<u8>)
    ensures
        r@ == sha256_of(data@),
        r@.len() == digest_len(),
{
    let mut hasher = StreamHasher::new();
    hasher.update(data.as_slice());
    proof {
        assert(hasher.fed_bytes() =~= data@);
    }
    hasher.finalize()
}

/// Files with identical byte content have equal digests: the digest is a
/// function of the content, so equal contents cannot be told apart.
pub proof fn lemma_equal_content_equal_digest(a: Seq<u8>, b: Seq<u8>)
    requires
        a == b,
    ensures
        sha256_of(a) == sha256_of(b),
{
}

/// Hashing is deterministic: reading the same bytes again and re-hashing
/// yields the digest the first pass produced.
pub proof fn lemma_digest_deterministic(first: Seq<u8>, second: Seq<u8>)
    requires
        second == first,
    ensures
        sha256_of(second) == sha256_of(first),
{
}

} // verus!
