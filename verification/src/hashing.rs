//! Content hashing: a streaming 256-bit cryptographic digest with a
//! byte count, used on both ends of every transfer.
//!
//! The digest itself comes from the BLAKE3 implementation of the
//! `blake3` crate; its value on given bytes is named by the
//! uninterpreted function [`digest_of`], and everything the library
//! proves about integrity is phrased as equality of such digests.

use vstd::prelude::*;

verus! {

/// The lowercase hexadecimal rendering of the 256-bit BLAKE3 digest of
/// a byte sequence. The digest depends on the bytes alone.
pub uninterp spec fn digest_of(bytes: Seq<u8>) -> Seq<char>;

#[verifier::external_type_specification]
#[verifier::external_body]
pub struct ExBlake3Hasher(blake3::Hasher);

/// A streaming hasher: feed byte chunks in order, then read the digest
/// of everything fed so far, together with the byte count.
pub struct ContentHasher {
    pub hasher: blake3::Hasher,
    pub size: u64,
    /// All bytes fed so far, in order.
    pub fed: Ghost<Seq<u8>>,
}

impl ContentHasher {
    pub open spec fn wf(self) -> bool {
        self.size == self.fed@.len() && self.fed@.len() <= u64::MAX
    }

    /// Relies on blake3::Hasher::new: a fresh hasher has hashed nothing.
    #[verifier::external_body]
    pub fn new() -> (r: ContentHasher)
        ensures
            r.fed@ == Seq::<u8>::empty(),
            r.wf(),
    {
        ContentHasher { hasher: blake3::Hasher::new(), size: 0, fed: Ghost(Seq::empty()) }
    }

    /// Relies on blake3::Hasher::update: the hasher absorbs the chunk
    /// after what it has already absorbed.
    #[verifier::external_body]
    fn absorb(&mut self, chunk: &[u8])
        ensures
            final(self).fed@ == old(self).fed@ + chunk@,
            final(self).size == old(self).size,
    {
        self.hasher.update(chunk);
    }

    /// Feed a chunk: absorb it and count its bytes.
    pub fn update(&mut self, chunk: &[u8])
        requires
            old(self).wf(),
            old(self).fed@.len() + chunk@.len() <= u64::MAX,
        ensures
            final(self).fed@ == old(self).fed@ + chunk@,
            final(self).wf(),
    {
        self.absorb(chunk);
        self.size = self.size + chunk.len() as u64;
    }

    /// Relies on blake3::Hasher::finalize and blake3::Hash::to_hex: the
    /// digest of the absorbed bytes, rendered as 64 lowercase
    /// hexadecimal characters.
    #[verifier::external_body]
    pub fn finalize(&self) -> (r: String)
        ensures
            r@ == digest_of(self.fed@),
            r@.len() == 64,
    {
        self.hasher.finalize().to_hex().as_str().to_string()
    }

    /// The number of bytes fed so far.
    pub fn size(&self) -> (r: u64)
        requires
            self.wf(),
        ensures
            r == self.fed@.len(),
    {
        self.size
    }
}

/// Append the bytes of a slice to a vector.
pub fn append_bytes(dst: &mut Vec<u8>, src: &[u8])
    ensures
        final(dst)@ == old(dst)@ + src@,
{
    let mut j: usize = 0;
    while j < src.len()
        invariant
            0 <= j <= src@.len(),
            dst@ == old(dst)@ + src@.take(j as int),
        decreases src@.len() - j,
    {
        dst.push(src[j]);
        proof {
            assert(old(dst)@ + src@.take(j as int) + seq![src@[j as int]] =~= old(dst)@
                + src@.take(j + 1));
        }
        j += 1;
    }
    proof {
        assert(src@.take(src@.len() as int) =~= src@);
    }
}

/// The hexadecimal digest of a whole byte vector.
pub fn hash_bytes(bytes: &Vec<u8>) -> (r: String)
    requires
        bytes@.len() <= u64::MAX,
    ensures
        r@ == digest_of(bytes@),
        r@.len() == 64,
{
    let mut hasher = ContentHasher::new();
    hasher.update(bytes.as_slice());
    proof {
        assert(hasher.fed@ =~= bytes@);
    }
    hasher.finalize()
}

/// What the agent knows of a local file: its content digest and size.
#[derive(Debug, Clone)]
pub struct LocalMeta {
    pub hash: String,
    pub size: u64,
}

/// The digest and size of a file's bytes, as the streaming read
/// computes them.
pub fn meta_of_bytes(bytes: &Vec<u8>) -> (r: LocalMeta)
    requires
        bytes@.len() <= u64::MAX,
    ensures
        r.hash@ == digest_of(bytes@),
        r.size == bytes@.len(),
{
    let hash = hash_bytes(bytes);
    LocalMeta { hash, size: bytes.len() as u64 }
}

} // verus!
