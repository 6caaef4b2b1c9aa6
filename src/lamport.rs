use vstd::prelude::*;

use crate::hash::{blake3_of, hash, hash_eq, hash_from, lemma_hash_from};

verus! {

/// Bit `i` of a digest: bit `i mod 8` (least significant first) of byte `i div 8`.
pub open spec fn bit_of(d: Seq<u8>, i: int) -> bool {
    (d[i / 8] >> ((i % 8) as u8)) & 1u8 == 1u8
}

/// The `i`-th 32-byte block of a byte sequence.
pub open spec fn chunk(s: Seq<u8>, i: int) -> Seq<u8> {
    s.subrange(32 * i, 32 * i + 32)
}

/// The mask `1 << (index mod 8)` that selects one bit of a byte.
pub fn bitmask_for(index: usize) -> (r: u8)
    ensures
        r == 1u8 << ((index % 8) as u8),
    decreases index,
{
    match index {
        0 => {
            assert(1u8 << 0u8 == 1u8) by (bit_vector);
            0b00000001
        },
        1 => {
            assert(1u8 << 1u8 == 2u8) by (bit_vector);
            0b00000010
        },
        2 => {
            assert(1u8 << 2u8 == 4u8) by (bit_vector);
            0b00000100
        },
        3 => {
            assert(1u8 << 3u8 == 8u8) by (bit_vector);
            0b00001000
        },
        4 => {
            assert(1u8 << 4u8 == 16u8) by (bit_vector);
            0b00010000
        },
        5 => {
            assert(1u8 << 5u8 == 32u8) by (bit_vector);
            0b00100000
        },
        6 => {
            assert(1u8 << 6u8 == 64u8) by (bit_vector);
            0b01000000
        },
        7 => {
            assert(1u8 << 7u8 == 128u8) by (bit_vector);
            0b10000000
        },
        _ => bitmask_for(index % 8),
    }
}

/// Whether bit `index mod 8` of `byte` is set.
pub fn bit_of_byte(index: usize, byte: u8) -> (r: bool)
    ensures
        r == ((byte >> ((index % 8) as u8)) & 1u8 == 1u8),
{
    let mask = bitmask_for(index);
    let k: u8 = (index % 8) as u8;
    assert((byte & (1u8 << k) == (1u8 << k)) == ((byte >> k) & 1u8 == 1u8)) by (bit_vector)
        requires
            k < 8u8,
    ;
    byte & mask == mask
}

/// Bit `index` of a byte string, in the digest bit order.
pub fn bit_of_byteslice(index: usize, bytes: &[u8]) -> (r: bool)
    requires
        index / 8 < bytes@.len(),
    ensures
        r == bit_of(bytes@, index as int),
{
    let byte = bytes[index / 8];
    bit_of_byte(index % 8, byte)
}


/// The Lamport public key of a secret `(left, right)`: the hash of every
/// 32-byte block of each side.
pub open spec fn public_key_of(sk: (Seq<u8>, Seq<u8>)) -> (Seq<[u8; 32]>, Seq<[u8; 32]>) {
    (
        Seq::new(256, |i: int| blake3_of(chunk(sk.0, i))),
        Seq::new(256, |i: int| blake3_of(chunk(sk.1, i))),
    )
}

/// The bytes of the signature of `message`: block `i` is the left preimage
/// where bit `i` of `H(message)` is set, else the right one.
pub open spec fn signature_of(sk: (Seq<u8>, Seq<u8>), message: Seq<u8>) -> Seq<u8> {
    let d = blake3_of(message)@;
    Seq::new(8192, |j: int| if bit_of(d, j / 32) { sk.0[j] } else { sk.1[j] })
}

/// The public hash that block `i` of a signature must hash to, for digest `d`.
pub open spec fn expected_hash(pk: (Seq<[u8; 32]>, Seq<[u8; 32]>), d: Seq<u8>, i: int) -> [u8; 32] {
    if bit_of(d, i) {
        pk.0[i]
    } else {
        pk.1[i]
    }
}

/// Block `i` of `sig` hashes to the public hash that digest `d` selects.
pub open spec fn block_matches(
    pk: (Seq<[u8; 32]>, Seq<[u8; 32]>),
    d: Seq<u8>,
    sig: Seq<u8>,
    i: int,
) -> bool {
    blake3_of(chunk(sig, i)) == expected_hash(pk, d, i)
}

/// Lamport verification: every block of the signature matches.
pub open spec fn accepts(pk: (Seq<[u8; 32]>, Seq<[u8; 32]>), message: Seq<u8>, sig: Seq<u8>) -> bool {
    forall|i: int| 0 <= i < 256 ==> #[trigger] block_matches(pk, blake3_of(message)@, sig, i)
}

/// The canonical 16 384-byte encoding of a public key: the 256 left hashes,
/// then the 256 right hashes.
pub open spec fn encode_public_key(pk: (Seq<[u8; 32]>, Seq<[u8; 32]>)) -> Seq<u8> {
    Seq::new(
        16384,
        |j: int|
            if j < 8192 {
                pk.0[j / 32]@[j % 32]
            } else {
                pk.1[(j - 8192) / 32]@[(j - 8192) % 32]
            },
    )
}

/// The public key that a 16 384-byte encoding spells.
pub open spec fn decode_public_key(b: Seq<u8>) -> (Seq<[u8; 32]>, Seq<[u8; 32]>) {
    (
        Seq::new(256, |i: int| hash_from(b.subrange(32 * i, 32 * i + 32))),
        Seq::new(256, |i: int| hash_from(b.subrange(8192 + 32 * i, 8192 + 32 * i + 32))),
    )
}

/// Block `i` of a signature is block `i` of the side that bit `i` of the
/// digest selects.
pub proof fn lemma_signature_block(sk: (Seq<u8>, Seq<u8>), message: Seq<u8>, i: int)
    requires
        sk.0.len() == 8192,
        sk.1.len() == 8192,
        0 <= i < 256,
    ensures
        chunk(signature_of(sk, message), i) == (if bit_of(blake3_of(message)@, i) {
            chunk(sk.0, i)
        } else {
            chunk(sk.1, i)
        }),
{
    let d = blake3_of(message)@;
    let sig = signature_of(sk, message);
    assert forall|j: int| 0 <= j < 32 implies #[trigger] chunk(sig, i)[j] == (if bit_of(d, i) {
        chunk(sk.0, i)
    } else {
        chunk(sk.1, i)
    })[j] by {
        assert((32 * i + j) / 32 == i);
    }
    if bit_of(d, i) {
        assert(chunk(sig, i) =~= chunk(sk.0, i));
    } else {
        assert(chunk(sig, i) =~= chunk(sk.1, i));
    }
}

/// A signature made with a key verifies under that key's public key, for
/// every message.
pub proof fn lemma_sign_then_verify(sk: (Seq<u8>, Seq<u8>), message: Seq<u8>)
    requires
        sk.0.len() == 8192,
        sk.1.len() == 8192,
    ensures
        accepts(public_key_of(sk), message, signature_of(sk, message)),
{
    let d = blake3_of(message)@;
    assert forall|i: int| 0 <= i < 256 implies #[trigger] block_matches(
        public_key_of(sk),
        d,
        signature_of(sk, message),
        i,
    ) by {
        lemma_signature_block(sk, message, i);
    }
}

/// A signature of `other` verifies for `message` exactly when, at every bit
/// where the two digests differ, the left and right public hashes coincide.
pub proof fn lemma_verify_other_message(sk: (Seq<u8>, Seq<u8>), message: Seq<u8>, other: Seq<u8>)
    requires
        sk.0.len() == 8192,
        sk.1.len() == 8192,
    ensures
        accepts(public_key_of(sk), message, signature_of(sk, other)) <==> (forall|i: int|
            0 <= i < 256 && #[trigger] bit_of(blake3_of(message)@, i) != bit_of(
                blake3_of(other)@,
                i,
            ) ==> public_key_of(sk).0[i] == public_key_of(sk).1[i]),
{
    let d = blake3_of(message)@;
    let e = blake3_of(other)@;
    let pk = public_key_of(sk);
    let sig = signature_of(sk, other);
    assert forall|i: int| 0 <= i < 256 implies #[trigger] block_matches(pk, d, sig, i) <==> (bit_of(
        d,
        i,
    ) != bit_of(e, i) ==> pk.0[i] == pk.1[i]) by {
        lemma_signature_block(sk, other, i);
    }
    if accepts(pk, message, sig) {
        assert forall|i: int| 0 <= i < 256 && #[trigger] bit_of(d, i) != bit_of(e, i) implies pk.0[i]
            == pk.1[i] by {
            assert(block_matches(pk, d, sig, i));
        }
    }
    if forall|i: int| 0 <= i < 256 && #[trigger] bit_of(d, i) != bit_of(e, i) ==> pk.0[i] == pk.1[i] {
        assert forall|i: int| 0 <= i < 256 implies #[trigger] block_matches(pk, d, sig, i) by {
            if bit_of(d, i) != bit_of(e, i) {
                assert(pk.0[i] == pk.1[i]);
            }
        }
    }
}

/// Decoding the encoding of a private key gives the key back.
pub proof fn lemma_private_key_round_trip(sk: (Seq<u8>, Seq<u8>))
    requires
        sk.0.len() == 8192,
        sk.1.len() == 8192,
    ensures
        ((sk.0 + sk.1).subrange(0, 8192), (sk.0 + sk.1).subrange(8192, 16384)) == sk,
{
    assert((sk.0 + sk.1).subrange(0, 8192) =~= sk.0);
    assert((sk.0 + sk.1).subrange(8192, 16384) =~= sk.1);
}

/// Decoding the encoding of a public key gives the key back.
pub proof fn lemma_public_key_round_trip(pk: (Seq<[u8; 32]>, Seq<[u8; 32]>))
    requires
        pk.0.len() == 256,
        pk.1.len() == 256,
    ensures
        decode_public_key(encode_public_key(pk)) == pk,
{
    let e = encode_public_key(pk);
    let d = decode_public_key(e);
    assert forall|a: int| 0 <= a < 256 implies d.0[a] == pk.0[a] && d.1[a] == pk.1[a] by {
        assert forall|b: int| 0 <= b < 32 implies e.subrange(32 * a, 32 * a + 32)[b] == pk.0[a]@[b]
            && e.subrange(8192 + 32 * a, 8192 + 32 * a + 32)[b] == pk.1[a]@[b] by {
            assert((32 * a + b) / 32 == a && (32 * a + b) % 32 == b);
            assert(e[32 * a + b] == pk.0[a]@[b]);
            assert(e[8192 + 32 * a + b] == pk.1[a]@[b]);
        }
        assert(e.subrange(32 * a, 32 * a + 32) =~= pk.0[a]@);
        assert(e.subrange(8192 + 32 * a, 8192 + 32 * a + 32) =~= pk.1[a]@);
        lemma_hash_from(pk.0[a]);
        lemma_hash_from(pk.1[a]);
    }
    assert(d.0 =~= pk.0);
    assert(d.1 =~= pk.1);
}

/// A private key: 256 left and 256 right secret 32-byte preimages.
#[derive(Debug, PartialEq, PartialOrd, Eq, Ord, Clone)]
pub struct PrivateKey {
    left: [u8; 8192],
    right: [u8; 8192],
}

/// The public key of a [`PrivateKey`]: the hash of each of its preimages.
#[derive(Debug, PartialEq, Eq, PartialOrd, Ord, Clone)]
pub struct PublicKey {
    left_hashes: [[u8; 32]; 256],
    right_hashes: [[u8; 32]; 256],
}

/// A one-time signature: one revealed 32-byte preimage per digest bit.
#[derive(Debug, PartialEq, PartialOrd, Eq, Ord, Clone)]
pub struct Signature {
    exposed: [u8; 8192],
}

impl View for PrivateKey {
    type V = (Seq<u8>, Seq<u8>);

    closed spec fn view(&self) -> (Seq<u8>, Seq<u8>) {
        (self.left@, self.right@)
    }
}

impl View for PublicKey {
    type V = (Seq<[u8; 32]>, Seq<[u8; 32]>);

    closed spec fn view(&self) -> (Seq<[u8; 32]>, Seq<[u8; 32]>) {
        (self.left_hashes@, self.right_hashes@)
    }
}

impl View for Signature {
    type V = Seq<u8>;

    closed spec fn view(&self) -> Seq<u8> {
        self.exposed@
    }
}

impl PrivateKey {
    /// Both sides hold 8 192 bytes.
    pub proof fn lemma_view_len(&self)
        ensures
            self@.0.len() == 8192,
            self@.1.len() == 8192,
    {
    }

    /// Draws a fresh key from the operating system's random number generator.
    pub fn generate() -> (r: Result<PrivateKey, RngError>) {
        let mut left = [0u8; 8192];
        let mut right = [0u8; 8192];
        if fill_random(&mut left).is_err() {
            return Err(RngError);
        }
        if fill_random(&mut right).is_err() {
            return Err(RngError);
        }
        Ok(PrivateKey { left, right })
    }

    /// Reads a key from its 16 384-byte encoding: the left side, then the right.
    pub fn from_bytes(value: &[u8; 16384]) -> (r: PrivateKey)
        ensures
            r@ == (value@.subrange(0, 8192), value@.subrange(8192, 16384)),
    {
        let mut left = [0u8; 8192];
        let mut right = [0u8; 8192];
        let mut i: usize = 0;
        while i < 8192
            invariant
                0 <= i <= 8192,
                forall|k: int| 0 <= k < i ==> left@[k] == value@[k],
                forall|k: int| 0 <= k < i ==> right@[k] == value@[k + 8192],
            decreases 8192 - i,
        {
            left[i] = value[i];
            right[i] = value[i + 8192];
            i = i + 1;
        }
        let r = PrivateKey { left, right };
        assert(r@.0 =~= value@.subrange(0, 8192));
        assert(r@.1 =~= value@.subrange(8192, 16384));
        r
    }

    /// The 16 384-byte encoding: the left side, then the right.
    pub fn to_bytes(&self) -> (r: [u8; 16384])
        ensures
            r@ == self@.0 + self@.1,
    {
        let mut out = [0u8; 16384];
        let mut i: usize = 0;
        while i < 8192
            invariant
                0 <= i <= 8192,
                forall|k: int| 0 <= k < i ==> out@[k] == self.left@[k],
                forall|k: int| 0 <= k < i ==> out@[k + 8192] == self.right@[k],
            decreases 8192 - i,
        {
            out[i] = self.left[i];
            out[i + 8192] = self.right[i];
            i = i + 1;
        }
        assert(out@ =~= self@.0 + self@.1);
        out
    }

    /// Computes the public key: 512 hashes of 32-byte blocks.
    pub fn public_key(&self) -> (r: PublicKey)
        ensures
            r@ == public_key_of(self@),
    {
        let mut left_hashes = [[0u8; 32]; 256];
        let mut right_hashes = [[0u8; 32]; 256];
        let mut i: usize = 0;
        while i < 256
            invariant
                0 <= i <= 256,
                forall|k: int| 0 <= k < i ==> left_hashes@[k] == blake3_of(chunk(self.left@, k)),
                forall|k: int| 0 <= k < i ==> right_hashes@[k] == blake3_of(chunk(self.right@, k)),
            decreases 256 - i,
        {
            let lh = hash(&self.left.as_slice()[i * 32..i * 32 + 32]);
            let rh = hash(&self.right.as_slice()[i * 32..i * 32 + 32]);
            left_hashes[i] = lh;
            right_hashes[i] = rh;
            i = i + 1;
        }
        let r = PublicKey { left_hashes, right_hashes };
        assert(r@.0 =~= public_key_of(self@).0);
        assert(r@.1 =~= public_key_of(self@).1);
        r
    }

    /// Signs `message`. The key is not consumed: using it for two messages
    /// reveals both preimages wherever their digests differ.
    pub fn sign(&self, message: &[u8]) -> (r: Signature)
        ensures
            r@ == signature_of(self@, message@),
    {
        let d = hash(message);
        let mut exposed = [0u8; 8192];
        let mut i: usize = 0;
        while i < 256
            invariant
                0 <= i <= 256,
                d == blake3_of(message@),
                forall|j: int|
                    0 <= j < 32 * i ==> exposed@[j] == (if bit_of(d@, j / 32) {
                        self.left@[j]
                    } else {
                        self.right@[j]
                    }),
            decreases 256 - i,
        {
            let b = bit_of_byteslice(i, d.as_slice());
            let mut k: usize = 0;
            while k < 32
                invariant
                    0 <= i < 256,
                    0 <= k <= 32,
                    d == blake3_of(message@),
                    b == bit_of(d@, i as int),
                    forall|j: int|
                        0 <= j < 32 * i + k ==> exposed@[j] == (if bit_of(d@, j / 32) {
                            self.left@[j]
                        } else {
                            self.right@[j]
                        }),
                decreases 32 - k,
            {
                let j: usize = i * 32 + k;
                assert(j as int / 32 == i as int);
                let v = if b {
                    self.left[j]
                } else {
                    self.right[j]
                };
                exposed[j] = v;
                k = k + 1;
            }
            i = i + 1;
        }
        let r = Signature { exposed };
        assert(r@ =~= signature_of(self@, message@));
        r
    }
}

impl PublicKey {
    /// The canonical 16 384-byte encoding.
    pub fn to_bytes(&self) -> (r: [u8; 16384])
        ensures
            r@ == encode_public_key(self@),
    {
        let mut out = [0u8; 16384];
        let mut j: usize = 0;
        while j < 256
            invariant
                0 <= j <= 256,
                forall|k: int| 0 <= k < 32 * j ==> out@[k] == encode_public_key(self@)[k],
                forall|k: int|
                    8192 <= k < 8192 + 32 * j ==> out@[k] == encode_public_key(self@)[k],
            decreases 256 - j,
        {
            let mut k: usize = 0;
            while k < 32
                invariant
                    0 <= j < 256,
                    0 <= k <= 32,
                    forall|m: int| 0 <= m < 32 * j + k ==> out@[m] == encode_public_key(self@)[m],
                    forall|m: int|
                        8192 <= m < 8192 + 32 * j + k ==> out@[m] == encode_public_key(self@)[m],
                decreases 32 - k,
            {
                let m: usize = 32 * j + k;
                assert(m as int / 32 == j as int && m as int % 32 == k as int);
                out[m] = self.left_hashes[j][k];
                out[m + 8192] = self.right_hashes[j][k];
                k = k + 1;
            }
            j = j + 1;
        }
        assert(out@ =~= encode_public_key(self@));
        out
    }

    /// Reads a public key from its canonical encoding.
    pub fn from_bytes(value: &[u8; 16384]) -> (r: PublicKey)
        ensures
            r@ == decode_public_key(value@),
            encode_public_key(r@) == value@,
    {
        let mut left_hashes = [[0u8; 32]; 256];
        let mut right_hashes = [[0u8; 32]; 256];
        let mut j: usize = 0;
        while j < 256
            invariant
                0 <= j <= 256,
                forall|a: int, b: int|
                    0 <= a < j && 0 <= b < 32 ==> left_hashes@[a]@[b] == value@[32 * a + b],
                forall|a: int, b: int|
                    0 <= a < j && 0 <= b < 32 ==> right_hashes@[a]@[b] == value@[8192 + 32 * a
                        + b],
            decreases 256 - j,
        {
            let mut lh = [0u8; 32];
            let mut rh = [0u8; 32];
            let mut k: usize = 0;
            while k < 32
                invariant
                    0 <= j < 256,
                    0 <= k <= 32,
                    forall|b: int| 0 <= b < k ==> lh@[b] == value@[32 * j + b],
                    forall|b: int| 0 <= b < k ==> rh@[b] == value@[8192 + 32 * j + b],
                decreases 32 - k,
            {
                lh[k] = value[32 * j + k];
                rh[k] = value[8192 + 32 * j + k];
                k = k + 1;
            }
            left_hashes[j] = lh;
            right_hashes[j] = rh;
            j = j + 1;
        }
        let r = PublicKey { left_hashes, right_hashes };
        assert forall|m: int| 0 <= m < 16384 implies encode_public_key(r@)[m] == value@[m] by {
            if m < 8192 {
                assert(m == 32 * (m / 32) + m % 32);
            } else {
                assert(m - 8192 == 32 * ((m - 8192) / 32) + (m - 8192) % 32);
            }
        }
        assert(encode_public_key(r@) =~= value@);
        assert forall|a: int| 0 <= a < 256 implies r@.0[a] == decode_public_key(value@).0[a]
            && r@.1[a] == decode_public_key(value@).1[a] by {
            assert(r@.0[a]@ =~= value@.subrange(32 * a, 32 * a + 32));
            assert(r@.1[a]@ =~= value@.subrange(8192 + 32 * a, 8192 + 32 * a + 32));
            lemma_hash_from(r@.0[a]);
            lemma_hash_from(r@.1[a]);
        }
        assert(r@.0 =~= decode_public_key(value@).0);
        assert(r@.1 =~= decode_public_key(value@).1);
        r
    }

    /// Checks `signature` on `message` against this key.
    pub fn verify(&self, message: &[u8], signature: &Signature) -> (r: bool)
        ensures
            r == accepts(self@, message@, signature@),
    {
        let d = hash(message);
        let mut i: usize = 0;
        while i < 256
            invariant
                0 <= i <= 256,
                d == blake3_of(message@),
                forall|k: int| 0 <= k < i ==> #[trigger] block_matches(self@, d@, signature@, k),
            decreases 256 - i,
        {
            let h = hash(&signature.exposed.as_slice()[i * 32..i * 32 + 32]);
            let ok = if bit_of_byteslice(i, d.as_slice()) {
                hash_eq(&h, &self.left_hashes[i])
            } else {
                hash_eq(&h, &self.right_hashes[i])
            };
            if !ok {
                assert(!block_matches(self@, d@, signature@, i as int));
                return false;
            }
            i = i + 1;
        }
        true
    }
}

impl Signature {
    /// Takes the 8 192 revealed bytes as a signature.
    pub fn from_bytes(exposed: [u8; 8192]) -> (r: Signature)
        ensures
            r@ == exposed@,
    {
        Signature { exposed }
    }

    /// The 8 192 revealed bytes.
    pub fn to_bytes(&self) -> (r: [u8; 8192])
        ensures
            r@ == self@,
    {
        self.exposed
    }
}

/// The random number generator failed to fill a key.
#[derive(Debug, PartialEq, Eq)]
pub struct RngError;

/// `rand::Error`, carried as an opaque value.
#[verifier::external_type_specification]
#[verifier::external_body]
pub struct ExRandError(rand::Error);

/// Relies on `rand::Fill::try_fill` with `rand::rngs::OsRng`, which fills the
/// whole buffer from the operating system or reports its error.
#[verifier::external_body]
fn fill_random(buf: &mut [u8; 8192]) -> (r: Result<(), rand::Error>) {
    rand::Fill::try_fill(&mut buf[..], &mut rand::rngs::OsRng)
}

} // verus!
