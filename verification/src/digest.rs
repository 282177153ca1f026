//! Content digests.
//!
//! A file's digest is the BLAKE3 hash of its entire byte content, used only
//! as an equality key for grouping: equal content gives an equal digest.
//! The hash itself is computed by the `blake3` crate through the trusted
//! wrappers below; everything downstream of those wrappers is verified.

use vstd::prelude::*;

verus! {

/// Declares blake3's incremental hasher so that it can stand in a field;
/// Verus treats its values as opaque.
#[verifier::external_type_specification]
#[verifier::external_body]
pub struct ExBlake3Hasher(blake3::Hasher);

/// The BLAKE3 digest of a byte sequence.  Left uninterpreted: the digest is
/// a deterministic function of the input bytes alone, and nothing here
/// states which bytes it is.
pub uninterp spec fn blake3_of(data: Seq<u8>) -> Seq<u8>;

/// The bytes fed so far to a `blake3::Hasher`, in order.  Left
/// uninterpreted: the trusted wrappers below say how each call changes it.
pub uninterp spec fn hasher_input(h: blake3::Hasher) -> Seq<u8>;

/// Relies on `blake3::Hasher::new`: a fresh hasher has been fed nothing.
#[verifier::external_body]
fn blake3_hasher_new() -> (h: blake3::Hasher)
    ensures
        hasher_input(h) == Seq::<u8>::empty(),
{
    blake3::Hasher::new()
}

/// Relies on `blake3::Hasher::update`: the chunk is appended to the input
/// fed so far.
#[verifier::external_body]
fn blake3_hasher_update(h: &mut blake3::Hasher, chunk: &[u8])
    ensures
        hasher_input(*final(h)) == hasher_input(*old(h)) + chunk@,
{
    h.update(chunk);
}

/// Relies on `blake3::Hasher::finalize` and `blake3::Hash::as_bytes`: the
/// result is the 32-byte BLAKE3 digest of exactly the bytes fed so far, a
/// function of those bytes alone.
#[verifier::external_body]
fn blake3_hasher_finalize(h: &blake3::Hasher) -> (r: Vec<u8>)
    ensures
        r@ == blake3_of(hasher_input(*h)),
        r@.len() == 32,
{
    h.finalize().as_bytes().to_vec()
}

/// A fixed-width content digest, used only as an equality key.
pub struct Digest {
    bytes: Vec<u8>,
}

impl View for Digest {
    type V = Seq<u8>;

    closed spec fn view(&self) -> Seq<u8> {
        self.bytes@
    }
}

impl Digest {
    /// Whether two digests are byte-for-byte equal, which stands for
    /// equality of the hashed content.
    pub fn matches(&self, other: &Digest) -> (r: bool)
        ensures
            r == (self@ == other@),
    {
        if self.bytes.len() != other.bytes.len() {
            return false;
        }
        let n = self.bytes.len();
        let mut i: usize = 0;
        while i < n
            invariant
                i <= n,
                n == self.bytes@.len(),
                n == other.bytes@.len(),
                forall|j: int| 0 <= j < i ==> self.bytes@[j] == other.bytes@[j],
            decreases n - i,
        {
            if self.bytes[i] != other.bytes[i] {
                return false;
            }
            i = i + 1;
        }
        proof {
            assert(self.bytes@ =~= other.bytes@);
        }
        true
    }

    /// The digest's bytes, for rendering or comparison outside the crate.
    pub fn as_bytes(&self) -> (r: &Vec<u8>)
        ensures
            r@ == self@,
    {
        &self.bytes
    }

    /// The digest's bytes.
    pub(crate) fn into_bytes(self) -> (r: Vec<u8>)
        ensures
            r@ == self@,
    {
        self.bytes
    }
}

/// Streams a file's bytes, in bounded chunks, into blake3's incremental
/// hasher.  Its view is the sequence of bytes fed so far, so the digest a
/// finished hasher yields is pinned to the file's whole content no matter
/// how the reads were chunked.
pub struct FileHasher {
    inner: blake3::Hasher,
}

impl View for FileHasher {
    type V = Seq<u8>;

    closed spec fn view(&self) -> Seq<u8> {
        hasher_input(self.inner)
    }
}

impl FileHasher {
    /// A fresh hasher, fed nothing yet.
    pub fn new() -> (r: FileHasher)
        ensures
            r@ == Seq::<u8>::empty(),
    {
        FileHasher { inner: blake3_hasher_new() }
    }

    /// Feeds one chunk of the file's bytes to the hasher.
    pub fn update(&mut self, chunk: &[u8])
        ensures
            final(self)@ == old(self)@ + chunk@,
    {
        blake3_hasher_update(&mut self.inner, chunk);
    }

    /// The digest of everything fed so far: the BLAKE3 hash of the
    /// concatenation of the chunks, however the content was split.
    pub fn finalize(&self) -> (r: Digest)
        ensures
            r@ == blake3_of(self@),
            r@.len() == 32,
    {
        Digest { bytes: blake3_hasher_finalize(&self.inner) }
    }
}

/// Law: the digest depends on the hashed byte content alone, so two files
/// with byte-identical content always land under the same digest key,
/// whatever their names, paths or sides.
pub proof fn lemma_digest_of_equal_content(c1: Seq<u8>, c2: Seq<u8>)
    requires
        c1 == c2,
    ensures
        blake3_of(c1) == blake3_of(c2),
{
}

} // verus!
