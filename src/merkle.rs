use vstd::prelude::*;

use crate::hash::{hash_from, lemma_hash_from};
use crate::lamport;
use crate::lamport::{decode_public_key, encode_public_key, public_key_of, signature_of, RngError};
use crate::merkle::internal::{
    accepts, append_bytes, be_to_u64, decode_proof, encode_nodes, encode_proof, leaf_digests,
    lemma_inclusion, lemma_proof_bad_tag, lemma_proof_round_trip, lemma_proof_truncated,
    lemma_u64_be_round_trip, levels_from, path, push_u64_be, read_u64_be, root_from, u64_be,
    Commitment, Proof, ProofNode, Tree,
};

verus! {

/// The binary Merkle tree, its commitments and inclusion proofs.
pub mod internal;

pub use crate::merkle::internal::ProofDecodingError;

/// A signature as plain values: the Lamport signature's bytes, the Lamport
/// public key, and the proof `(item, index, frontier)`.
pub type SignatureView = (Seq<u8>, (Seq<[u8; 32]>, Seq<[u8; 32]>), (Seq<u8>, u64, Seq<ProofNode>));

/// The leaf that a Lamport secret stands for: its public key's encoding.
pub open spec fn slot_leaf(sk: (Seq<u8>, Seq<u8>)) -> Seq<u8> {
    encode_public_key(public_key_of(sk))
}

/// The leaves of the tree over a sequence of Lamport secrets.
pub open spec fn slot_leaves(keys: Seq<lamport::PrivateKey>) -> Seq<Seq<u8>> {
    Seq::new(keys.len(), |i: int| slot_leaf(keys[i]@))
}

/// The public key `(root, N)` of a sequence of Lamport secrets.
pub open spec fn commitment_of(keys: Seq<lamport::PrivateKey>) -> ([u8; 32], u64) {
    (root_from(leaf_digests(slot_leaves(keys))), keys.len() as u64)
}

/// The signature of `message` with slot `c`: the Lamport signature, the
/// slot's Lamport public key, and the proof of its leaf at index `c`.
pub open spec fn signature_for(keys: Seq<lamport::PrivateKey>, c: int, message: Seq<u8>) -> SignatureView {
    (
        signature_of(keys[c]@, message),
        public_key_of(keys[c]@),
        (slot_leaf(keys[c]@), c as u64, path(levels_from(leaf_digests(slot_leaves(keys))), c)),
    )
}

/// Verification: the proof is accepted by the public key, its item is the
/// encoding of the enclosed Lamport public key, and the Lamport signature
/// verifies under that key.
pub open spec fn signature_accepts(pk: ([u8; 32], u64), message: Seq<u8>, sig: SignatureView) -> bool {
    &&& accepts(pk.0, pk.1 as int, sig.2.0, sig.2.1 as int, sig.2.2)
    &&& sig.2.0 == encode_public_key(sig.1)
    &&& lamport::accepts(sig.1, message, sig.0)
}

/// The encoding of a signature: the Lamport signature (8 192 bytes), the
/// Lamport public key (16 384 bytes), then the proof.
pub open spec fn encode_signature(sig: SignatureView) -> Seq<u8> {
    sig.0 + encode_public_key(sig.1) + encode_proof(sig.2)
}

/// Decodes a signature from the front of `b`.
pub open spec fn decode_signature(b: Seq<u8>) -> Result<SignatureView, SignatureDecodingError> {
    if b.len() < 24576 {
        Err(SignatureDecodingError::NotEnoughInput(b.len() as usize))
    } else {
        match decode_proof(b.subrange(24576, b.len() as int)) {
            Ok(pf) => Ok((b.subrange(0, 8192), decode_public_key(b.subrange(8192, 24576)), pf)),
            Err(e) => Err(SignatureDecodingError::MerkleProofDecodingError(e)),
        }
    }
}

/// The 40-byte encoding of a public key: the root, then `N` in big-endian.
pub open spec fn encode_commitment(pk: ([u8; 32], u64)) -> Seq<u8> {
    pk.0@ + u64_be(pk.1)
}

/// The public key that 40 bytes spell.
pub open spec fn decode_commitment(b: Seq<u8>) -> ([u8; 32], u64) {
    (hash_from(b.subrange(0, 32)), be_to_u64(b.subrange(32, 40)))
}

/// The Lamport secrets' encodings, one after the other.
pub open spec fn secrets_bytes(keys: Seq<lamport::PrivateKey>) -> Seq<u8>
    decreases keys.len(),
{
    if keys.len() == 0 {
        seq![]
    } else {
        secrets_bytes(keys.drop_last()) + (keys.last()@.0 + keys.last()@.1)
    }
}

/// The stored form of a private key: the secrets' 16 384-byte records in
/// order, then the counter as 8 big-endian bytes.
pub open spec fn encode_private_key_file(keys: Seq<lamport::PrivateKey>, counter: usize) -> Seq<u8> {
    secrets_bytes(keys) + u64_be(counter as u64)
}

/// Record `i` of a stored private key, as the (left, right) halves.
pub open spec fn stored_secret(b: Seq<u8>, i: int) -> (Seq<u8>, Seq<u8>) {
    (b.subrange(16384 * i, 16384 * i + 8192), b.subrange(16384 * i + 8192, 16384 * i + 16384))
}

/// A public key: the commitment to the tree of Lamport public keys.
pub struct PublicKey(Commitment);

/// A private key: the Lamport secrets, the tree over the encodings of their
/// public keys, and the index of the next secret to use.
pub struct PrivateKey(Vec<lamport::PrivateKey>, Tree, usize);

/// A signature: a Lamport signature, the Lamport public key it verifies
/// under, and the proof that this key stands at its index in the tree.
#[derive(Debug, Eq, PartialEq)]
pub struct Signature(lamport::Signature, lamport::PublicKey, Proof);

/// Why bytes do not decode to a signature.
#[derive(Debug, PartialEq, Eq, Clone, Copy)]
pub enum SignatureDecodingError {
    /// The input ended before the proof; holds the input's length.
    NotEnoughInput(usize),
    /// The proof did not decode.
    MerkleProofDecodingError(ProofDecodingError),
}

impl View for PublicKey {
    type V = ([u8; 32], u64);

    closed spec fn view(&self) -> ([u8; 32], u64) {
        (self.0.root, self.0.num_items)
    }
}

impl View for Signature {
    type V = SignatureView;

    closed spec fn view(&self) -> SignatureView {
        (self.0@, self.1@, self.2@)
    }
}

/// Whether two byte strings are equal.
fn bytes_eq(a: &[u8], b: &[u8]) -> (r: bool)
    ensures
        r == (a@ == b@),
{
    if a.len() != b.len() {
        return false;
    }
    let mut i: usize = 0;
    while i < a.len()
        invariant
            a@.len() == b@.len(),
            0 <= i <= a@.len(),
            forall|k: int| 0 <= k < i ==> a@[k] == b@[k],
        decreases a@.len() - i,
    {
        if a[i] != b[i] {
            return false;
        }
        i = i + 1;
    }
    assert(a@ =~= b@);
    true
}

impl PublicKey {
    /// Checks `signature` on `message`.
    pub fn verify(&self, message: &[u8], signature: &Signature) -> (r: bool)
        ensures
            r == signature_accepts(self@, message@, signature@),
    {
        if !self.0.verify(&signature.2) {
            return false;
        }
        let encoded = signature.1.to_bytes();
        if !bytes_eq(signature.2.item.as_slice(), encoded.as_slice()) {
            return false;
        }
        signature.1.verify(message, &signature.0)
    }

    /// Reads a public key from its 40-byte encoding.
    pub fn from_bytes(value: [u8; 40]) -> (r: PublicKey)
        ensures
            r@ == decode_commitment(value@),
    {
        let mut root = [0u8; 32];
        let mut i: usize = 0;
        while i < 32
            invariant
                0 <= i <= 32,
                forall|k: int| 0 <= k < i ==> root@[k] == value@[k],
            decreases 32 - i,
        {
            root[i] = value[i];
            i = i + 1;
        }
        assert(root@ =~= value@.subrange(0, 32));
        proof {
            lemma_hash_from(root);
        }
        let num_items = read_u64_be(value.as_slice(), 32);
        PublicKey(Commitment { root, num_items })
    }

    /// The 40-byte encoding.
    pub fn to_bytes(&self) -> (r: [u8; 40])
        ensures
            r@ == encode_commitment(self@),
    {
        let mut v: Vec<u8> = Vec::new();
        append_bytes(&mut v, self.0.root.as_slice());
        push_u64_be(&mut v, self.0.num_items);
        let mut out = [0u8; 40];
        let mut i: usize = 0;
        while i < 40
            invariant
                0 <= i <= 40,
                v@ == encode_commitment(self@),
                forall|k: int| 0 <= k < i ==> out@[k] == v@[k],
            decreases 40 - i,
        {
            out[i] = v[i];
            i = i + 1;
        }
        assert(out@ =~= v@);
        out
    }
}

impl PrivateKey {
    /// The Lamport secrets, one per message.
    pub closed spec fn keys(&self) -> Seq<lamport::PrivateKey> {
        self.0@
    }

    /// The index of the next secret to use.
    pub closed spec fn counter(&self) -> usize {
        self.2
    }

    #[verifier::type_invariant]
    spec fn inv(&self) -> bool {
        &&& self.0@.len() >= 1
        &&& self.1.leaf_hashes() == leaf_digests(slot_leaves(self.0@))
    }

    /// Builds the key over `private_keys`, with `current_index` as the next
    /// secret to use.
    pub fn from_keys(private_keys: Vec<lamport::PrivateKey>, current_index: usize) -> (r: PrivateKey)
        requires
            private_keys@.len() >= 1,
        ensures
            r.keys() == private_keys@,
            r.counter() == current_index,
    {
        let mut encoded: Vec<Vec<u8>> = Vec::new();
        let mut i: usize = 0;
        while i < private_keys.len()
            invariant
                0 <= i <= private_keys@.len(),
                encoded@.len() == i,
                forall|k: int| 0 <= k < i ==> (#[trigger] encoded@[k])@ == slot_leaf(private_keys@[k]@),
            decreases private_keys@.len() - i,
        {
            let pk = private_keys[i].public_key();
            let bytes = pk.to_bytes();
            encoded.push(vstd::slice::slice_to_vec(bytes.as_slice()));
            i = i + 1;
        }
        assert(encoded@.map_values(|v: Vec<u8>| v@) =~= slot_leaves(private_keys@));
        let tree = Tree::new(&encoded);
        PrivateKey(private_keys, tree, current_index)
    }

    /// The stored form: every secret's record, then the counter.
    pub fn to_file_bytes(&self) -> (r: Vec<u8>)
        ensures
            r@ == encode_private_key_file(self.keys(), self.counter()),
    {
        let mut out: Vec<u8> = Vec::new();
        let mut i: usize = 0;
        while i < self.0.len()
            invariant
                0 <= i <= self.0@.len(),
                out@ == secrets_bytes(self.0@.take(i as int)),
            decreases self.0@.len() - i,
        {
            let record = self.0[i].to_bytes();
            append_bytes(&mut out, record.as_slice());
            proof {
                let t = self.0@.take(i + 1);
                assert(t.drop_last() =~= self.0@.take(i as int));
                assert(t.last() == self.0@[i as int]);
            }
            i = i + 1;
        }
        assert(self.0@.take(i as int) =~= self.0@);
        push_u64_be(&mut out, self.2 as u64);
        out
    }

    /// Reads the stored form: `None` unless it holds one or more whole
    /// records followed by an 8-byte counter that fits a `usize`.
    pub fn from_file_bytes(bytes: &[u8]) -> (r: Option<PrivateKey>)
        ensures
            r is Some <==> (bytes@.len() >= 16392 && (bytes@.len() - 8) % 16384 == 0
                && be_to_u64(bytes@.subrange(bytes@.len() - 8, bytes@.len() as int))
                <= usize::MAX),
            r is Some ==> {
                let n = (bytes@.len() - 8) / 16384;
                &&& r->Some_0.keys().len() == n
                &&& forall|i: int|
                    0 <= i < n ==> (#[trigger] r->Some_0.keys()[i])@ == stored_secret(bytes@, i)
                &&& r->Some_0.counter() == be_to_u64(
                    bytes@.subrange(bytes@.len() - 8, bytes@.len() as int),
                )
            },
    {
        let len = bytes.len();
        if len < 16392 || (len - 8) % 16384 != 0 {
            return None;
        }
        let counter = read_u64_be(bytes, len - 8);
        if counter > usize::MAX as u64 {
            return None;
        }
        let n = (len - 8) / 16384;
        let mut keys: Vec<lamport::PrivateKey> = Vec::new();
        let mut i: usize = 0;
        while i < n
            invariant
                n == (bytes@.len() - 8) / 16384,
                len == bytes@.len(),
                0 <= i <= n,
                keys@.len() == i,
                forall|k: int| 0 <= k < i ==> (#[trigger] keys@[k])@ == stored_secret(bytes@, k),
            decreases n - i,
        {
            let mut record = [0u8; 16384];
            let mut j: usize = 0;
            while j < 16384
                invariant
                    n == (bytes@.len() - 8) / 16384,
                    len == bytes@.len(),
                    0 <= i < n,
                    0 <= j <= 16384,
                    forall|k: int| 0 <= k < j ==> record@[k] == bytes@[16384 * i + k],
                decreases 16384 - j,
            {
                record[j] = bytes[16384 * i + j];
                j = j + 1;
            }
            let key = lamport::PrivateKey::from_bytes(&record);
            proof {
                assert(record@.subrange(0, 8192) =~= stored_secret(bytes@, i as int).0);
                assert(record@.subrange(8192, 16384) =~= stored_secret(bytes@, i as int).1);
            }
            keys.push(key);
            i = i + 1;
        }
        Some(PrivateKey::from_keys(keys, counter as usize))
    }

    /// The Lamport secrets.
    pub fn inner_keys(&self) -> (r: &Vec<lamport::PrivateKey>)
        ensures
            r@ == self.keys(),
    {
        &self.0
    }

    /// The index of the next secret to use.
    pub fn current_index(&self) -> (r: usize)
        ensures
            r == self.counter(),
    {
        self.2
    }

    /// The public key: the commitment to the tree.
    pub fn public_key(&self) -> (r: PublicKey)
        ensures
            r@ == commitment_of(self.keys()),
    {
        proof {
            use_type_invariant(self);
        }
        PublicKey(self.1.commitment())
    }

    /// Draws `n` fresh Lamport secrets and builds the key over them.
    pub fn generate(n: usize) -> (r: Result<PrivateKey, RngError>)
        requires
            n >= 1,
        ensures
            r is Ok ==> r->Ok_0.keys().len() == n && r->Ok_0.counter() == 0,
    {
        let mut keys: Vec<lamport::PrivateKey> = Vec::new();
        let mut i: usize = 0;
        while i < n
            invariant
                0 <= i <= n,
                keys@.len() == i,
            decreases n - i,
        {
            match lamport::PrivateKey::generate() {
                Ok(k) => keys.push(k),
                Err(e) => return Err(e),
            }
            i = i + 1;
        }
        Ok(PrivateKey::from_keys(keys, 0))
    }

    /// Signs `message` with the next unused secret and moves past it;
    /// `None` once every secret has been used.
    pub fn sign(&mut self, message: &[u8]) -> (r: Option<Signature>)
        ensures
            final(self).keys() == old(self).keys(),
            old(self).counter() >= old(self).keys().len() ==> r is None && final(self).counter()
                == old(self).counter(),
            old(self).counter() < old(self).keys().len() ==> {
                &&& r is Some
                &&& final(self).counter() == old(self).counter() + 1
                &&& r->Some_0@ == signature_for(
                    old(self).keys(),
                    old(self).counter() as int,
                    message@,
                )
                &&& signature_accepts(commitment_of(old(self).keys()), message@, r->Some_0@)
            },
    {
        proof {
            use_type_invariant(&*self);
        }
        let index = self.2;
        if index >= self.0.len() {
            return None;
        }
        let n = self.1.num_items();
        let sk = &self.0[index];
        let pk = sk.public_key();
        let bytes = pk.to_bytes();
        let item = vstd::slice::slice_to_vec(bytes.as_slice());
        proof {
            assert(leaf_digests(slot_leaves(self.0@))[index as int] == crate::hash::blake3_of(
                item@,
            ));
        }
        let inclusion = self.1.prove(item, index as u64);
        match inclusion {
            None => None,
            Some(inclusion) => {
                let sig = sk.sign(message);
                proof {
                    lemma_many_time_round_trip(self.0@, index as int, message@);
                }
                let r = Signature(sig, pk, inclusion);
                self.2 = index + 1;
                Some(r)
            },
        }
    }
}

impl Signature {
    /// The encoding of this signature.
    pub fn to_bytes(&self) -> (r: Vec<u8>)
        ensures
            r@ == encode_signature(self@),
    {
        let lamport_bytes = self.0.to_bytes();
        let mut out = vstd::slice::slice_to_vec(lamport_bytes.as_slice());
        let pk_bytes = self.1.to_bytes();
        append_bytes(&mut out, pk_bytes.as_slice());
        let proof_bytes = self.2.to_bytes();
        append_bytes(&mut out, proof_bytes.as_slice());
        out
    }

    /// Decodes a signature from the front of `signature_bytes`.
    pub fn from_bytes(signature_bytes: &[u8]) -> (r: Result<Signature, SignatureDecodingError>)
        ensures
            match decode_signature(signature_bytes@) {
                Ok(v) => r is Ok && r->Ok_0@ == v,
                Err(e) => r == Err::<Signature, SignatureDecodingError>(e),
            },
    {
        let len = signature_bytes.len();
        if len < 24576 {
            return Err(SignatureDecodingError::NotEnoughInput(len));
        }
        let ghost b = signature_bytes@;
        let mut lamport_bytes = [0u8; 8192];
        let mut i: usize = 0;
        while i < 8192
            invariant
                b == signature_bytes@,
                b.len() >= 24576,
                0 <= i <= 8192,
                forall|k: int| 0 <= k < i ==> lamport_bytes@[k] == b[k],
            decreases 8192 - i,
        {
            lamport_bytes[i] = signature_bytes[i];
            i = i + 1;
        }
        let mut pk_bytes = [0u8; 16384];
        let mut j: usize = 0;
        while j < 16384
            invariant
                b == signature_bytes@,
                b.len() >= 24576,
                0 <= j <= 16384,
                forall|k: int| 0 <= k < j ==> pk_bytes@[k] == b[8192 + k],
            decreases 16384 - j,
        {
            pk_bytes[j] = signature_bytes[8192 + j];
            j = j + 1;
        }
        assert(lamport_bytes@ =~= b.subrange(0, 8192));
        assert(pk_bytes@ =~= b.subrange(8192, 24576));
        let lamport_signature = lamport::Signature::from_bytes(lamport_bytes);
        let lamport_public_key = lamport::PublicKey::from_bytes(&pk_bytes);
        match Proof::from_bytes(vstd::slice::slice_subrange(signature_bytes, 24576, len)) {
            Ok(inclusion) => Ok(Signature(lamport_signature, lamport_public_key, inclusion)),
            Err(e) => Err(SignatureDecodingError::MerkleProofDecodingError(e)),
        }
    }
}

/// Starting from any sequence of Lamport secrets, the signature that slot
/// `c` gives for any message verifies under the public key.
pub proof fn lemma_many_time_round_trip(keys: Seq<lamport::PrivateKey>, c: int, message: Seq<u8>)
    requires
        1 <= keys.len() <= u64::MAX,
        0 <= c < keys.len(),
    ensures
        signature_accepts(commitment_of(keys), message, signature_for(keys, c, message)),
{
    let leaves = slot_leaves(keys);
    lemma_inclusion(leaves, c);
    keys[c].lemma_view_len();
    lamport::lemma_sign_then_verify(keys[c]@, message);
}

/// The stored form of a private key is its secrets' records, each at its
/// place, then the counter: reading it back gives the same secrets and
/// counter.
pub proof fn lemma_private_key_file_round_trip(keys: Seq<lamport::PrivateKey>, counter: usize)
    ensures
        encode_private_key_file(keys, counter).len() == 16384 * keys.len() + 8 as int,
        forall|i: int|
            0 <= i < keys.len() ==> #[trigger] stored_secret(
                encode_private_key_file(keys, counter),
                i,
            ) == keys[i]@,
        be_to_u64(
            encode_private_key_file(keys, counter).subrange(
                16384 * keys.len() as int,
                16384 * keys.len() + 8 as int,
            ),
        ) == counter as u64,
    decreases keys.len(),
{
    let b = encode_private_key_file(keys, counter);
    lemma_secrets_bytes(keys);
    assert(b.subrange(16384 * keys.len() as int, 16384 * keys.len() + 8 as int) =~= u64_be(
        counter as u64,
    ));
    lemma_u64_be_round_trip(counter as u64);
    assert forall|i: int| 0 <= i < keys.len() implies #[trigger] stored_secret(b, i) == keys[i]@ by {
        let rec = secrets_bytes(keys).subrange(16384 * i, 16384 * i + 16384);
        assert(b.subrange(16384 * i, 16384 * i + 8192) =~= rec.subrange(0, 8192));
        assert(b.subrange(16384 * i + 8192, 16384 * i + 16384) =~= rec.subrange(8192, 16384));
        keys[i].lemma_view_len();
        assert((keys[i]@.0 + keys[i]@.1).subrange(0, 8192) =~= keys[i]@.0);
        assert((keys[i]@.0 + keys[i]@.1).subrange(8192, 16384) =~= keys[i]@.1);
    }
}

/// The records of the secrets stand one after the other.
proof fn lemma_secrets_bytes(keys: Seq<lamport::PrivateKey>)
    ensures
        secrets_bytes(keys).len() == 16384 * keys.len(),
        forall|i: int|
            0 <= i < keys.len() ==> #[trigger] secrets_bytes(keys).subrange(16384 * i, 16384 * i + 16384)
                == keys[i]@.0 + keys[i]@.1,
    decreases keys.len(),
{
    if keys.len() > 0 {
        let init = keys.drop_last();
        lemma_secrets_bytes(init);
        keys.last().lemma_view_len();
        let s = secrets_bytes(keys);
        assert forall|i: int| 0 <= i < keys.len() implies #[trigger] s.subrange(
            16384 * i,
            16384 * i + 16384,
        ) == keys[i]@.0 + keys[i]@.1 by {
            if i < init.len() {
                assert(s.subrange(16384 * i, 16384 * i + 16384) =~= secrets_bytes(init).subrange(
                    16384 * i,
                    16384 * i + 16384,
                ));
                assert(init[i] == keys[i]);
            } else {
                assert(s.subrange(16384 * i, 16384 * i + 16384) =~= keys[i]@.0 + keys[i]@.1);
            }
        }
    }
}

/// Decoding the 40-byte encoding of a public key gives the key back.
pub proof fn lemma_public_key_round_trip(pk: ([u8; 32], u64))
    ensures
        decode_commitment(encode_commitment(pk)) == pk,
{
    let b = encode_commitment(pk);
    assert(b.subrange(0, 32) =~= pk.0@);
    assert(b.subrange(32, 40) =~= u64_be(pk.1));
    lemma_hash_from(pk.0);
    lemma_u64_be_round_trip(pk.1);
}

/// Decoding the encoding of a signature gives the signature back.
pub proof fn lemma_signature_round_trip(v: SignatureView)
    requires
        v.0.len() == 8192,
        v.1.0.len() == 256,
        v.1.1.len() == 256,
        v.2.0.len() <= u64::MAX,
        v.2.2.len() <= u64::MAX,
    ensures
        decode_signature(encode_signature(v)) == Ok::<SignatureView, SignatureDecodingError>(v),
{
    let b = encode_signature(v);
    assert(b.subrange(0, 8192) =~= v.0);
    assert(b.subrange(8192, 24576) =~= encode_public_key(v.1));
    assert(b.subrange(24576, b.len() as int) =~= encode_proof(v.2));
    lamport::lemma_public_key_round_trip(v.1);
    lemma_proof_round_trip(v.2);
}

/// Decoding any proper prefix of the encoding of a signature runs out of
/// input: before the proof, or inside it.
pub proof fn lemma_signature_truncated(v: SignatureView, k: int)
    requires
        v.0.len() == 8192,
        v.1.0.len() == 256,
        v.1.1.len() == 256,
        v.2.0.len() <= u64::MAX,
        v.2.2.len() <= u64::MAX,
        0 <= k < encode_signature(v).len(),
        k <= usize::MAX,
    ensures
        decode_signature(encode_signature(v).take(k)) == (if k < 24576 {
            Err::<SignatureView, SignatureDecodingError>(
                SignatureDecodingError::NotEnoughInput(k as usize),
            )
        } else {
            Err::<SignatureView, SignatureDecodingError>(
                SignatureDecodingError::MerkleProofDecodingError(
                    ProofDecodingError::NotEnoughInput((k - 24576) as usize),
                ),
            )
        }),
{
    if k >= 24576 {
        let b = encode_signature(v).take(k);
        assert(b.subrange(24576, k) =~= encode_proof(v.2).take(k - 24576));
        lemma_proof_truncated(v.2, k - 24576);
    }
}

/// Writing a byte other than 0, 1 and 2 over the tag of proof step `j` of
/// an encoded signature makes decoding report that byte.
pub proof fn lemma_signature_bad_tag(v: SignatureView, j: int, t: u8)
    requires
        v.0.len() == 8192,
        v.1.0.len() == 256,
        v.1.1.len() == 256,
        v.2.0.len() <= u64::MAX,
        v.2.2.len() <= u64::MAX,
        0 <= j < v.2.2.len(),
        t > 2,
    ensures
        decode_signature(
            encode_signature(v).update(
                24576 + v.2.0.len() + 24 + encode_nodes(v.2.2.take(j)).len() as int,
                t,
            ),
        ) == Err::<SignatureView, SignatureDecodingError>(
            SignatureDecodingError::MerkleProofDecodingError(
                ProofDecodingError::InvalidProofNodeType(t),
            ),
        ),
{
    let q = v.2.0.len() + 24 + encode_nodes(v.2.2.take(j)).len() as int;
    lemma_proof_bad_tag(v.2, j, t);
    let b = encode_signature(v).update(24576 + q, t);
    assert(b.subrange(24576, b.len() as int) =~= encode_proof(v.2).update(q, t));
}

} // verus!
