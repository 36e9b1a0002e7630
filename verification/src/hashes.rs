use vstd::prelude::*;

use sha2::Digest;

verus! {

/// What `bitcoin::hashes::hash160::Hash::hash` (RIPEMD160 of SHA256) gives for `data`.
pub uninterp spec fn spec_hash160(data: Seq<u8>) -> Seq<u8>;

/// What `sha2::Sha256::digest` gives for `data`.
pub uninterp spec fn spec_sha256(data: Seq<u8>) -> Seq<u8>;

/// `start` hashed `steps` times in a row with HASH160.
pub open spec fn hash_chain(start: Seq<u8>, steps: nat) -> Seq<u8>
    decreases steps,
{
    if steps == 0 {
        start
    } else {
        spec_hash160(hash_chain(start, (steps - 1) as nat))
    }
}

/// Hashing `a` times and then `b` more times is hashing `a + b` times.
pub proof fn lemma_hash_chain_adds(start: Seq<u8>, a: nat, b: nat)
    ensures
        hash_chain(hash_chain(start, a), b) == hash_chain(start, a + b),
    decreases b,
{
    if b > 0 {
        lemma_hash_chain_adds(start, a, (b - 1) as nat);
        assert(hash_chain(start, a + b) == spec_hash160(hash_chain(start, (a + b - 1) as nat)));
    }
}

/// Trusted: `bitcoin::hashes::hash160::Hash::hash`, read back as its 20 bytes.
/// The contract only says that the digest is the value named `spec_hash160`
/// of the input bytes; nothing about the hash function itself is stated.
#[verifier::external_body]
pub(crate) fn hash160(data: &[u8]) -> (digest: [u8; 20])
    ensures
        digest@ == spec_hash160(data@),
{
    let hash: bitcoin::hashes::hash160::Hash = bitcoin::hashes::Hash::hash(data);
    *bitcoin::hashes::Hash::as_byte_array(&hash)
}

/// Trusted: `sha2::Sha256::digest`, converted to a 32-byte array.
/// The contract only says that the digest is the value named `spec_sha256`
/// of the input bytes.
#[verifier::external_body]
pub(crate) fn sha256(data: &[u8]) -> (digest: [u8; 32])
    ensures
        digest@ == spec_sha256(data@),
{
    sha2::Sha256::digest(data).into()
}

/// HASH160 applied to `start`, then `extra` more times to its own output.
pub(crate) fn hash160_chain(start: &[u8], extra: u32) -> (digest: [u8; 20])
    ensures
        digest@ == hash_chain(start@, extra as nat + 1),
{
    let mut hash = hash160(start);
    proof {
        assert(hash_chain(start@, 0) == start@);
    }
    let mut done: u32 = 0;
    while done < extra
        invariant
            done <= extra,
            hash@ == hash_chain(start@, done as nat + 1),
        decreases extra - done,
    {
        hash = hash160(hash.as_slice());
        done = done + 1;
    }
    hash
}

/// Byte-wise equality of two byte strings.
pub(crate) fn bytes_equal(a: &[u8], b: &[u8]) -> (eq: bool)
    ensures
        eq == (a@ == b@),
{
    if a.len() != b.len() {
        return false;
    }
    let mut i: usize = 0;
    while i < a.len()
        invariant
            a@.len() == b@.len(),
            i <= a@.len(),
            forall|j: int| 0 <= j < i ==> a@[j] == b@[j],
        decreases a@.len() - i,
    {
        if a[i] != b[i] {
            return false;
        }
        i = i + 1;
    }
    proof {
        assert(a@ =~= b@);
    }
    true
}

} // verus!
