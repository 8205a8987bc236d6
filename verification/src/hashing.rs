//! The deployment's collision-resistant hash: SHA-256, reached through one
//! trusted wrapper.  Everything else in the crate speaks of the digest only
//! through the uninterpreted name `sha256_of`.
use vstd::prelude::*;

verus! {

/// What SHA-256 returns on the given bytes; the digest depends on the bytes
/// alone, so the same bytes give the same digest on every replica.
pub uninterp spec fn sha256_of(data: Seq<u8>) -> Seq<u8>;

/// A 32-byte digest (a Merkle root, a leaf item, or a share commitment).
pub struct Hash32 {
    pub bytes: Vec<u8>,
}

impl View for Hash32 {
    type V = Seq<u8>;

    open spec fn view(&self) -> Seq<u8> {
        self.bytes@
    }
}

impl Hash32 {
    /// A digest carries exactly 32 bytes.
    pub open spec fn wf(&self) -> bool {
        self.bytes@.len() == 32
    }

    /// An independent copy of the digest.
    pub fn dup(&self) -> (r: Hash32)
        ensures
            r@ == self@,
    {
        Hash32 { bytes: clone_bytes(&self.bytes) }
    }

    /// Byte-for-byte comparison of two digests.
    pub fn equals(&self, other: &Hash32) -> (r: bool)
        ensures
            r == (self@ == other@),
    {
        bytes_eq(&self.bytes, &other.bytes)
    }
}

/// Byte-wise copy of a byte vector.
pub fn clone_bytes(v: &Vec<u8>) -> (r: Vec<u8>)
    ensures
        r@ == v@,
{
    let mut r: Vec<u8> = Vec::new();
    let mut i: usize = 0;
    while i < v.len()
        invariant
            i <= v@.len(),
            r@ == v@.take(i as int),
        decreases v@.len() - i,
    {
        r.push(v[i]);
        i = i + 1;
        proof {
            assert(r@ =~= v@.take(i as int));
        }
    }
    proof {
        assert(v@.take(v@.len() as int) =~= v@);
    }
    r
}

/// Byte-for-byte equality of two byte vectors.
pub fn bytes_eq(a: &Vec<u8>, b: &Vec<u8>) -> (r: bool)
    ensures
        r == (a@ == b@),
{
    if a.len() != b.len() {
        return false;
    }
    let mut i: usize = 0;
    while i < a.len()
        invariant
            i <= a@.len(),
            a@.len() == b@.len(),
            forall|j: int| 0 <= j < i ==> a@[j] == b@[j],
        decreases a@.len() - i,
    {
        if a[i] != b[i] {
            return false;
        }
        i = i + 1;
    }
    proof {
        assert(a@ =~= b@);
    }
    true
}

/// Append a copy of `src` to `dst`.
pub fn push_bytes(dst: &mut Vec<u8>, src: &Vec<u8>)
    ensures
        final(dst)@ == old(dst)@ + src@,
{
    let mut i: usize = 0;
    while i < src.len()
        invariant
            i <= src@.len(),
            dst@ == old(dst)@ + src@.take(i as int),
        decreases src@.len() - i,
    {
        dst.push(src[i]);
        i = i + 1;
        proof {
            assert(dst@ =~= old(dst)@ + src@.take(i as int));
        }
    }
    proof {
        assert(old(dst)@ + src@.take(src@.len() as int) =~= old(dst)@ + src@);
    }
}

/// Relies on `sha2::Sha256` (through `digest::Digest::digest`): the digest is
/// a function of the input bytes alone and is 32 bytes long.
#[verifier::external_body]
pub(crate) fn hash_of(data: &Vec<u8>) -> (r: Hash32)
    ensures
        r@ == sha256_of(data@),
        r@.len() == 32,
{
    Hash32 { bytes: <sha2::Sha256 as sha2::Digest>::digest(data.as_slice()).to_vec() }
}

} // verus!
