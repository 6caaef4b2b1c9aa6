use vstd::prelude::*;

verus! {

/// The BLAKE3 digest (32 bytes) of a byte sequence.
pub uninterp spec fn blake3_of(data: Seq<u8>) -> [u8; 32];

/// `H2(a, b) = H(a || b)`: the hash of two hashes, left then right.
pub open spec fn pair_hash(a: [u8; 32], b: [u8; 32]) -> [u8; 32] {
    blake3_of(a@ + b@)
}

/// The hash whose bytes are `s` (32 of them).
pub open spec fn hash_from(s: Seq<u8>) -> [u8; 32] {
    choose|a: [u8; 32]| a@ == s
}

/// A hash is the one whose bytes it has.
pub proof fn lemma_hash_from(h: [u8; 32])
    ensures
        hash_from(h@) == h,
{
    let a = hash_from(h@);
    assert(a@ == h@);
    assert(a =~= h);
}

/// Relies on `blake3::hash`: the digest depends on the input bytes alone.
#[verifier::external_body]
fn blake3_digest(data: &[u8]) -> (r: [u8; 32])
    ensures
        r == blake3_of(data@),
{
    *blake3::hash(data).as_bytes()
}

/// `H(bytes)`.
pub fn hash(data: &[u8]) -> (r: [u8; 32])
    ensures
        r == blake3_of(data@),
{
    blake3_digest(data)
}

/// `H2(a, b)`: hashes the 64-byte concatenation of two hashes.
pub fn hash_two_hashes(a: &[u8; 32], b: &[u8; 32]) -> (r: [u8; 32])
    ensures
        r == pair_hash(*a, *b),
{
    let mut buf: Vec<u8> = Vec::with_capacity(64);
    let mut i: usize = 0;
    while i < 32
        invariant
            0 <= i <= 32,
            buf@ == a@.subrange(0, i as int),
        decreases 32 - i,
    {
        buf.push(a[i]);
        i = i + 1;
    }
    let mut j: usize = 0;
    while j < 32
        invariant
            0 <= j <= 32,
            buf@ == a@ + b@.subrange(0, j as int),
        decreases 32 - j,
    {
        buf.push(b[j]);
        j = j + 1;
    }
    assert(a@.subrange(0, 32) =~= a@);
    assert(b@.subrange(0, 32) =~= b@);
    blake3_digest(buf.as_slice())
}

/// Byte-wise equality of two hashes.
pub fn hash_eq(a: &[u8; 32], b: &[u8; 32]) -> (r: bool)
    ensures
        r == (*a == *b),
{
    let mut i: usize = 0;
    while i < 32
        invariant
            0 <= i <= 32,
            forall|k: int| 0 <= k < i ==> a@[k] == b@[k],
        decreases 32 - i,
    {
        if a[i] != b[i] {
            return false;
        }
        i = i + 1;
    }
    assert(*a =~= *b);
    true
}

} // verus!
