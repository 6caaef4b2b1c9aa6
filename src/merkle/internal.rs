use vstd::prelude::*;

use crate::hash::{blake3_of, hash, hash_eq, hash_from, hash_two_hashes, lemma_hash_from, pair_hash};

verus! {

/// The digests of the leaves: level 0 of the tree.
pub open spec fn leaf_digests(leaves: Seq<Seq<u8>>) -> Seq<[u8; 32]> {
    Seq::new(leaves.len(), |i: int| blake3_of(leaves[i]))
}

/// The level above `l`: adjacent pairs hashed with `H2`; an unpaired last
/// node is promoted unchanged.
pub open spec fn next_level(l: Seq<[u8; 32]>) -> Seq<[u8; 32]> {
    Seq::new(
        ((l.len() + 1) / 2) as nat,
        |k: int|
            if 2 * k + 1 < l.len() {
                pair_hash(l[2 * k], l[2 * k + 1])
            } else {
                l[2 * k]
            },
    )
}

/// The stored levels over level `l`, bottom-up: every level of width two or
/// more, starting with `l` itself.
pub open spec fn levels_from(l: Seq<[u8; 32]>) -> Seq<Seq<[u8; 32]>>
    decreases l.len(),
{
    if l.len() <= 1 {
        seq![]
    } else {
        seq![l] + levels_from(next_level(l))
    }
}

/// The root over level `l`: the single node that repeated pairing leaves.
pub open spec fn root_from(l: Seq<[u8; 32]>) -> [u8; 32]
    decreases l.len(),
{
    if l.len() <= 1 {
        l[0]
    } else {
        root_from(next_level(l))
    }
}

/// One step of a proof: where a node at position `p` of `level` stands.
#[derive(Debug, PartialEq, Eq, Clone)]
pub enum ProofNode {
    /// The last node of an odd level, promoted without a partner.
    NodeWithoutSibling,
    /// A left child; the hash is its right sibling.
    LeftChildWithSibling([u8; 32]),
    /// A right child; the hash is its left sibling.
    RightChildWithSibling([u8; 32]),
}

/// The proof step for position `p` of `level`.
pub open spec fn expected_node(level: Seq<[u8; 32]>, p: int) -> ProofNode {
    if p + 1 == level.len() && level.len() % 2 == 1 {
        ProofNode::NodeWithoutSibling
    } else if p % 2 == 0 {
        ProofNode::LeftChildWithSibling(level[p + 1])
    } else {
        ProofNode::RightChildWithSibling(level[p - 1])
    }
}

/// The frontier of position `p`: one step per stored level, bottom-up.
pub open spec fn path(levels: Seq<Seq<[u8; 32]>>, p: int) -> Seq<ProofNode>
    decreases levels.len(),
{
    if levels.len() == 0 {
        seq![]
    } else {
        seq![expected_node(levels[0], p)] + path(levels.drop_first(), p / 2)
    }
}

/// Replays a frontier from hash `h` at position `p` of a level of width `w`.
/// `None` where a step disagrees with the schedule that `p` and `w` fix, or
/// where the frontier is longer or shorter than the tree is tall.
pub open spec fn climb(h: [u8; 32], p: int, w: int, frontier: Seq<ProofNode>) -> Option<[u8; 32]>
    decreases frontier.len(),
{
    if frontier.len() == 0 {
        if w == 1 {
            Some(h)
        } else {
            None
        }
    } else if w < 2 {
        None
    } else {
        let rest = frontier.drop_first();
        let up = w / 2 + w % 2;
        match frontier[0] {
            ProofNode::NodeWithoutSibling => {
                if p + 1 == w && w % 2 == 1 {
                    climb(h, p / 2, up, rest)
                } else {
                    None
                }
            },
            ProofNode::LeftChildWithSibling(r) => {
                if p % 2 == 0 && p + 1 < w {
                    climb(pair_hash(h, r), p / 2, up, rest)
                } else {
                    None
                }
            },
            ProofNode::RightChildWithSibling(l) => {
                if p % 2 == 1 {
                    climb(pair_hash(l, h), p / 2, up, rest)
                } else {
                    None
                }
            },
        }
    }
}

/// Whether a commitment `(root, num_items)` accepts the proof that `item`
/// stands at `index`.
pub open spec fn accepts(
    root: [u8; 32],
    num_items: int,
    item: Seq<u8>,
    index: int,
    frontier: Seq<ProofNode>,
) -> bool {
    0 <= index < num_items && climb(blake3_of(item), index, num_items, frontier) == Some(root)
}

/// The tag byte of a proof step: 0, 1 or 2.
pub open spec fn tag_of(node: ProofNode) -> u8 {
    match node {
        ProofNode::NodeWithoutSibling => 0u8,
        ProofNode::LeftChildWithSibling(_) => 1u8,
        ProofNode::RightChildWithSibling(_) => 2u8,
    }
}

/// Two distinct pairs of hashes that `H2` maps to the same hash.
pub open spec fn pair_hash_collides() -> bool {
    exists|a: [u8; 32], b: [u8; 32], c: [u8; 32], d: [u8; 32]|
        (a, b) != (c, d) && #[trigger] pair_hash(a, b) == #[trigger] pair_hash(c, d)
}

/// The width of the level above: `ceil(w / 2)`.
proof fn lemma_next_level_len(l: Seq<[u8; 32]>)
    ensures
        next_level(l).len() == l.len() / 2 + l.len() % 2,
        l.len() >= 2 ==> next_level(l).len() < l.len(),
{
}

/// Each stored level above the bottom is the level above the one below it,
/// and every stored level has width two or more.
proof fn lemma_levels_from_step(l: Seq<[u8; 32]>, d: int)
    requires
        0 <= d < levels_from(l).len(),
    ensures
        levels_from(l)[d].len() >= 2,
        d + 1 < levels_from(l).len() ==> levels_from(l)[d + 1] == next_level(levels_from(l)[d]),
    decreases l.len(),
{
    let n = next_level(l);
    lemma_next_level_len(l);
    assert(levels_from(l) == seq![l] + levels_from(n));
    if d > 0 {
        lemma_levels_from_step(n, d - 1);
    } else if levels_from(n).len() > 0 {
        lemma_levels_from_step(n, 0);
        assert(levels_from(n)[0] == n);
    }
}

/// Replaying the frontier that `path` gives for position `p` reaches the root.
pub proof fn lemma_path_climbs_to_root(l: Seq<[u8; 32]>, p: int)
    requires
        0 <= p < l.len(),
    ensures
        climb(l[p], p, l.len() as int, path(levels_from(l), p)) == Some(root_from(l)),
    decreases l.len(),
{
    if l.len() >= 2 {
        let n = next_level(l);
        lemma_next_level_len(l);
        let k = p / 2;
        let f = path(levels_from(l), p);
        assert(levels_from(l)[0] == l);
        assert(levels_from(l).drop_first() =~= levels_from(n));
        assert(f[0] == expected_node(l, p));
        assert(f.drop_first() =~= path(levels_from(n), k));
        if p + 1 == l.len() && l.len() % 2 == 1 {
            assert(n[k] == l[p]);
        } else if p % 2 == 0 {
            assert(n[k] == pair_hash(l[p], l[p + 1]));
        } else {
            assert(2 * k + 1 == p);
            assert(n[k] == pair_hash(l[p - 1], l[p]));
        }
        lemma_path_climbs_to_root(n, k);
    }
}

/// The levels of stored hashes, each as a sequence.
pub open spec fn levels_view(levels: Seq<Vec<[u8; 32]>>) -> Seq<Seq<[u8; 32]>> {
    levels.map_values(|l: Vec<[u8; 32]>| l@)
}

/// A binary Merkle tree over a sequence of byte strings.
///
/// `levels` holds, bottom-up, every level of width two or more: the leaf
/// digests first. With a single leaf it is empty and `root` is that leaf's
/// digest.
#[derive(PartialEq, Eq, Debug)]
pub struct Tree {
    root: [u8; 32],
    levels: Vec<Vec<[u8; 32]>>,
}

/// A commitment to a tree: its root and its number of leaves.
#[derive(PartialEq, Eq, Clone, Debug)]
pub struct Commitment {
    pub root: [u8; 32],
    pub num_items: u64,
}

/// Evidence that `item` stands at `index` among the leaves committed to.
#[derive(Debug, PartialEq, Eq, Clone)]
pub struct Proof {
    pub item: Vec<u8>,
    pub index: u64,
    pub frontier: Vec<ProofNode>,
}

impl View for Proof {
    type V = (Seq<u8>, u64, Seq<ProofNode>);

    open spec fn view(&self) -> (Seq<u8>, u64, Seq<ProofNode>) {
        (self.item@, self.index, self.frontier@)
    }
}

/// For a built tree over `leaves`, the proof that `prove` gives for leaf `i`
/// at index `i` is accepted by the tree's commitment.
pub proof fn lemma_inclusion(leaves: Seq<Seq<u8>>, i: int)
    requires
        1 <= leaves.len() <= u64::MAX,
        0 <= i < leaves.len(),
    ensures
        accepts(
            root_from(leaf_digests(leaves)),
            leaves.len() as int,
            leaves[i],
            i,
            path(levels_from(leaf_digests(leaves)), i),
        ),
{
    lemma_path_climbs_to_root(leaf_digests(leaves), i);
}

/// `prove` on the item of leaf `i` at another index `j` gives `None`
/// wherever `j` is out of range or leaf `j` has another digest.
pub proof fn lemma_index_discipline(leaves: Seq<Seq<u8>>, i: int, j: int)
    requires
        0 <= i < leaves.len(),
        0 <= j,
        j != i,
        j >= leaves.len() || blake3_of(leaves[j]) != blake3_of(leaves[i]),
    ensures
        !(j < leaf_digests(leaves).len() && blake3_of(leaves[i]) == leaf_digests(leaves)[j]),
{
}

/// Two different hashes climbing the same frontier to the same root
/// exhibit a collision of `H2`.
proof fn lemma_distinct_climbs(h1: [u8; 32], h2: [u8; 32], p: int, w: int, f: Seq<ProofNode>)
    requires
        h1 != h2,
        climb(h1, p, w, f) is Some,
        climb(h1, p, w, f) == climb(h2, p, w, f),
    ensures
        pair_hash_collides(),
    decreases f.len(),
{
    if f.len() > 0 {
        let rest = f.drop_first();
        let up = w / 2 + w % 2;
        match f[0] {
            ProofNode::NodeWithoutSibling => {
                lemma_distinct_climbs(h1, h2, p / 2, up, rest);
            },
            ProofNode::LeftChildWithSibling(r) => {
                if pair_hash(h1, r) == pair_hash(h2, r) {
                    assert((h1, r) != (h2, r));
                } else {
                    lemma_distinct_climbs(pair_hash(h1, r), pair_hash(h2, r), p / 2, up, rest);
                }
            },
            ProofNode::RightChildWithSibling(l) => {
                if pair_hash(l, h1) == pair_hash(l, h2) {
                    assert((l, h1) != (l, h2));
                } else {
                    lemma_distinct_climbs(pair_hash(l, h1), pair_hash(l, h2), p / 2, up, rest);
                }
            },
        }
    }
}

/// Replacing step `j` of a frontier that climbs to `root` by another step:
/// with another tag the climb fails; with the same tag and another hash it
/// reaches `root` only through a collision of `H2`.
proof fn lemma_altered_climb(
    h: [u8; 32],
    p: int,
    w: int,
    f: Seq<ProofNode>,
    j: int,
    node: ProofNode,
    root: [u8; 32],
)
    requires
        climb(h, p, w, f) == Some(root),
        0 <= j < f.len(),
        node != f[j],
    ensures
        tag_of(node) != tag_of(f[j]) ==> climb(h, p, w, f.update(j, node)) is None,
        climb(h, p, w, f.update(j, node)) == Some(root) ==> pair_hash_collides(),
    decreases f.len(),
{
    let g = f.update(j, node);
    let rest = f.drop_first();
    let up = w / 2 + w % 2;
    if j == 0 {
        assert(g.drop_first() =~= rest);
        match (f[0], node) {
            (ProofNode::LeftChildWithSibling(r), ProofNode::LeftChildWithSibling(s)) => {
                if climb(h, p, w, g) == Some(root) {
                    if pair_hash(h, r) == pair_hash(h, s) {
                        assert((h, r) != (h, s));
                    } else {
                        lemma_distinct_climbs(pair_hash(h, s), pair_hash(h, r), p / 2, up, rest);
                    }
                }
            },
            (ProofNode::RightChildWithSibling(r), ProofNode::RightChildWithSibling(s)) => {
                if climb(h, p, w, g) == Some(root) {
                    if pair_hash(r, h) == pair_hash(s, h) {
                        assert((r, h) != (s, h));
                    } else {
                        lemma_distinct_climbs(pair_hash(s, h), pair_hash(r, h), p / 2, up, rest);
                    }
                }
            },
            _ => {},
        }
    } else {
        assert(g[0] == f[0]);
        assert(g.drop_first() =~= rest.update(j - 1, node));
        let h2 = match f[0] {
            ProofNode::NodeWithoutSibling => h,
            ProofNode::LeftChildWithSibling(r) => pair_hash(h, r),
            ProofNode::RightChildWithSibling(l) => pair_hash(l, h),
        };
        lemma_altered_climb(h2, p / 2, up, rest, j - 1, node, root);
    }
}

/// Altering one step of an accepted proof: a changed tag is always
/// rejected; a changed sibling hash is accepted only through a collision
/// of `H2`.
pub proof fn lemma_altered_proof_rejected(
    root: [u8; 32],
    num_items: int,
    item: Seq<u8>,
    index: int,
    frontier: Seq<ProofNode>,
    j: int,
    node: ProofNode,
)
    requires
        accepts(root, num_items, item, index, frontier),
        0 <= j < frontier.len(),
        node != frontier[j],
    ensures
        tag_of(node) != tag_of(frontier[j]) ==> !accepts(
            root,
            num_items,
            item,
            index,
            frontier.update(j, node),
        ),
        accepts(root, num_items, item, index, frontier.update(j, node)) ==> pair_hash_collides(),
{
    lemma_altered_climb(blake3_of(item), index, num_items, frontier, j, node, root);
}

/// A `u64` as 8 big-endian bytes.
pub open spec fn u64_be(x: u64) -> Seq<u8> {
    seq![
        ((x >> 56u64) & 0xffu64) as u8,
        ((x >> 48u64) & 0xffu64) as u8,
        ((x >> 40u64) & 0xffu64) as u8,
        ((x >> 32u64) & 0xffu64) as u8,
        ((x >> 24u64) & 0xffu64) as u8,
        ((x >> 16u64) & 0xffu64) as u8,
        ((x >> 8u64) & 0xffu64) as u8,
        (x & 0xffu64) as u8,
    ]
}

/// The `u64` that 8 big-endian bytes spell.
pub open spec fn be_to_u64(b: Seq<u8>) -> u64 {
    (b[0] as u64) << 56u64 | (b[1] as u64) << 48u64 | (b[2] as u64) << 40u64 | (b[3] as u64)
        << 32u64 | (b[4] as u64) << 24u64 | (b[5] as u64) << 16u64 | (b[6] as u64) << 8u64 | (
    b[7] as u64)
}

/// Reading back 8 big-endian bytes gives the number written.
pub proof fn lemma_u64_be_round_trip(x: u64)
    ensures
        be_to_u64(u64_be(x)) == x,
{
    let b = u64_be(x);
    let (b0, b1, b2, b3, b4, b5, b6, b7) = (b[0], b[1], b[2], b[3], b[4], b[5], b[6], b[7]);
    assert(b0 == ((x >> 56u64) & 0xffu64) as u8);
    assert(b7 == (x & 0xffu64) as u8);
    assert((b0 as u64) << 56u64 | (b1 as u64) << 48u64 | (b2 as u64) << 40u64 | (b3 as u64)
        << 32u64 | (b4 as u64) << 24u64 | (b5 as u64) << 16u64 | (b6 as u64) << 8u64 | (b7 as u64)
        == x) by (bit_vector)
        requires
            b0 == ((x >> 56u64) & 0xffu64) as u8,
            b1 == ((x >> 48u64) & 0xffu64) as u8,
            b2 == ((x >> 40u64) & 0xffu64) as u8,
            b3 == ((x >> 32u64) & 0xffu64) as u8,
            b4 == ((x >> 24u64) & 0xffu64) as u8,
            b5 == ((x >> 16u64) & 0xffu64) as u8,
            b6 == ((x >> 8u64) & 0xffu64) as u8,
            b7 == (x & 0xffu64) as u8,
    ;
}

/// The encoding of one proof step: its tag, then the sibling hash if any.
pub open spec fn encode_node(node: ProofNode) -> Seq<u8> {
    match node {
        ProofNode::NodeWithoutSibling => seq![0u8],
        ProofNode::LeftChildWithSibling(h) => seq![1u8] + h@,
        ProofNode::RightChildWithSibling(h) => seq![2u8] + h@,
    }
}

/// The encodings of the steps of a frontier, in order.
pub open spec fn encode_nodes(f: Seq<ProofNode>) -> Seq<u8>
    decreases f.len(),
{
    if f.len() == 0 {
        seq![]
    } else {
        encode_node(f[0]) + encode_nodes(f.drop_first())
    }
}

/// The encoding of a proof `(item, index, frontier)`: the item's length, the
/// item, the index, the frontier's length (each number as 8 big-endian
/// bytes), then the steps.
pub open spec fn encode_proof(v: (Seq<u8>, u64, Seq<ProofNode>)) -> Seq<u8> {
    u64_be(v.0.len() as u64) + v.0 + u64_be(v.1) + u64_be(v.2.len() as u64) + encode_nodes(v.2)
}

/// Why bytes do not decode to a proof.
#[derive(Debug, PartialEq, Eq, Clone, Copy)]
pub enum ProofDecodingError {
    /// The input ended early; holds the input's length.
    NotEnoughInput(usize),
    /// A proof step began with a tag other than 0, 1 or 2.
    InvalidProofNodeType(u8),
}

/// Decodes `count` proof steps from `b` at offset `off`.
pub open spec fn decode_nodes(b: Seq<u8>, off: int, count: int) -> Result<
    Seq<ProofNode>,
    ProofDecodingError,
>
    decreases count,
{
    if count <= 0 {
        Ok(seq![])
    } else if off >= b.len() {
        Err(ProofDecodingError::NotEnoughInput(b.len() as usize))
    } else if b[off] == 0 {
        match decode_nodes(b, off + 1, count - 1) {
            Ok(rest) => Ok(seq![ProofNode::NodeWithoutSibling] + rest),
            Err(e) => Err(e),
        }
    } else if b[off] == 1 || b[off] == 2 {
        if off + 33 > b.len() {
            Err(ProofDecodingError::NotEnoughInput(b.len() as usize))
        } else {
            let h = hash_from(b.subrange(off + 1, off + 33));
            let node = if b[off] == 1 {
                ProofNode::LeftChildWithSibling(h)
            } else {
                ProofNode::RightChildWithSibling(h)
            };
            match decode_nodes(b, off + 33, count - 1) {
                Ok(rest) => Ok(seq![node] + rest),
                Err(e) => Err(e),
            }
        }
    } else {
        Err(ProofDecodingError::InvalidProofNodeType(b[off]))
    }
}

/// Decodes a proof from the front of `b`; bytes after it are ignored.
pub open spec fn decode_proof(b: Seq<u8>) -> Result<
    (Seq<u8>, u64, Seq<ProofNode>),
    ProofDecodingError,
> {
    if b.len() < 8 {
        Err(ProofDecodingError::NotEnoughInput(b.len() as usize))
    } else {
        let n = be_to_u64(b.subrange(0, 8)) as int;
        if b.len() < n + 24 {
            Err(ProofDecodingError::NotEnoughInput(b.len() as usize))
        } else {
            let item = b.subrange(8, n + 8);
            let index = be_to_u64(b.subrange(n + 8, n + 16));
            let count = be_to_u64(b.subrange(n + 16, n + 24));
            match decode_nodes(b, n + 24, count as int) {
                Ok(f) => Ok((item, index, f)),
                Err(e) => Err(e),
            }
        }
    }
}

/// Appending a step appends its encoding.
pub proof fn lemma_encode_nodes_push(f: Seq<ProofNode>, node: ProofNode)
    ensures
        encode_nodes(f.push(node)) == encode_nodes(f) + encode_node(node),
    decreases f.len(),
{
    if f.len() == 0 {
        assert(f.push(node).drop_first() =~= f);
        assert(encode_nodes(f.push(node)) =~= encode_node(node));
    } else {
        assert(f.push(node).drop_first() =~= f.drop_first().push(node));
        lemma_encode_nodes_push(f.drop_first(), node);
        assert(encode_nodes(f.push(node)) =~= encode_nodes(f) + encode_node(node));
    }
}

/// Appends `x` as 8 big-endian bytes.
pub(crate) fn push_u64_be(out: &mut Vec<u8>, x: u64)
    ensures
        final(out)@ == old(out)@ + u64_be(x),
{
    out.push(((x >> 56u64) & 0xffu64) as u8);
    out.push(((x >> 48u64) & 0xffu64) as u8);
    out.push(((x >> 40u64) & 0xffu64) as u8);
    out.push(((x >> 32u64) & 0xffu64) as u8);
    out.push(((x >> 24u64) & 0xffu64) as u8);
    out.push(((x >> 16u64) & 0xffu64) as u8);
    out.push(((x >> 8u64) & 0xffu64) as u8);
    out.push((x & 0xffu64) as u8);
    assert(final(out)@ =~= old(out)@ + u64_be(x));
}

/// Reads 8 big-endian bytes at `off`.
pub(crate) fn read_u64_be(b: &[u8], off: usize) -> (r: u64)
    requires
        off + 8 <= b@.len(),
    ensures
        r == be_to_u64(b@.subrange(off as int, off + 8)),
{
    let ghost s = b@.subrange(off as int, off + 8);
    assert(s[0] == b@[off as int] && s[7] == b@[off + 7]);
    assert(s[1] == b@[off + 1] && s[2] == b@[off + 2] && s[3] == b@[off + 3]);
    assert(s[4] == b@[off + 4] && s[5] == b@[off + 5] && s[6] == b@[off + 6]);
    (b[off] as u64) << 56u64 | (b[off + 1] as u64) << 48u64 | (b[off + 2] as u64) << 40u64 | (b[off
        + 3] as u64) << 32u64 | (b[off + 4] as u64) << 24u64 | (b[off + 5] as u64) << 16u64 | (b[off
        + 6] as u64) << 8u64 | (b[off + 7] as u64)
}

/// Appends the bytes of `b`.
pub(crate) fn append_bytes(out: &mut Vec<u8>, b: &[u8])
    ensures
        final(out)@ == old(out)@ + b@,
{
    let mut i: usize = 0;
    while i < b.len()
        invariant
            0 <= i <= b@.len(),
            out@ == old(out)@ + b@.subrange(0, i as int),
        decreases b@.len() - i,
    {
        out.push(b[i]);
        i = i + 1;
        assert(out@ =~= old(out)@ + b@.subrange(0, i as int));
    }
    assert(b@.subrange(0, b@.len() as int) =~= b@);
}

/// Reads 32 bytes at `off` as a hash.
fn read_bytes32(b: &[u8], off: usize) -> (r: [u8; 32])
    requires
        off + 32 <= b@.len(),
    ensures
        r@ == b@.subrange(off as int, off + 32),
{
    let blen: usize = b.len();
    let mut h = [0u8; 32];
    let mut i: usize = 0;
    while i < 32
        invariant
            0 <= i <= 32,
            blen == b@.len(),
            off + 32 <= b@.len(),
            forall|k: int| 0 <= k < i ==> h@[k] == b@[off + k],
        decreases 32 - i,
    {
        h[i] = b[off + i];
        i = i + 1;
    }
    assert(h@ =~= b@.subrange(off as int, off + 32));
    h
}

/// The encoding of a frontier is that of its first `j` steps, then that of
/// the rest.
proof fn lemma_encode_nodes_split(f: Seq<ProofNode>, j: int)
    requires
        0 <= j <= f.len(),
    ensures
        encode_nodes(f) == encode_nodes(f.take(j)) + encode_nodes(f.skip(j)),
    decreases j,
{
    if j == 0 {
        assert(f.take(0).len() == 0);
        assert(f.skip(0) =~= f);
        assert(encode_nodes(f) =~= encode_nodes(f.take(j)) + encode_nodes(f.skip(j)));
    } else {
        lemma_encode_nodes_split(f.drop_first(), j - 1);
        assert(f.take(j).drop_first() =~= f.drop_first().take(j - 1));
        assert(f.skip(j) =~= f.drop_first().skip(j - 1));
        assert(f.take(j)[0] == f[0]);
        assert(encode_nodes(f) =~= encode_nodes(f.take(j)) + encode_nodes(f.skip(j)));
    }
}

/// Where `b` holds the encoding of `f` at `off`, the steps decode to `f`.
proof fn lemma_decode_nodes_encoded(b: Seq<u8>, off: int, f: Seq<ProofNode>)
    requires
        0 <= off,
        off + encode_nodes(f).len() <= b.len(),
        forall|k: int| 0 <= k < encode_nodes(f).len() ==> b[off + k] == encode_nodes(f)[k],
    ensures
        decode_nodes(b, off, f.len() as int) == Ok::<Seq<ProofNode>, ProofDecodingError>(f),
    decreases f.len(),
{
    if f.len() > 0 {
        let e = encode_nodes(f);
        let head = encode_node(f[0]);
        let rest = f.drop_first();
        let m = head.len() as int;
        assert(e == head + encode_nodes(rest));
        assert(b[off] == e[0]);
        assert forall|k: int| 0 <= k < encode_nodes(rest).len() implies b[off + m + k]
            == encode_nodes(rest)[k] by {
            assert(b[off + (m + k)] == e[m + k]);
        }
        lemma_decode_nodes_encoded(b, off + m, rest);
        match f[0] {
            ProofNode::NodeWithoutSibling => {},
            ProofNode::LeftChildWithSibling(h) => {
                assert(b.subrange(off + 1, off + 33) =~= h@) by {
                    assert forall|k: int| 0 <= k < 32 implies b.subrange(off + 1, off + 33)[k]
                        == h@[k] by {
                        assert(b[off + (1 + k)] == e[1 + k]);
                    }
                }
                lemma_hash_from(h);
            },
            ProofNode::RightChildWithSibling(h) => {
                assert(b.subrange(off + 1, off + 33) =~= h@) by {
                    assert forall|k: int| 0 <= k < 32 implies b.subrange(off + 1, off + 33)[k]
                        == h@[k] by {
                        assert(b[off + (1 + k)] == e[1 + k]);
                    }
                }
                lemma_hash_from(h);
            },
        }
        assert(seq![f[0]] + rest =~= f);
    } else {
        assert(f =~= seq![]);
    }
}

/// Where `b` ends inside the encoding of `f` that starts at `off`, decoding
/// the steps runs out of input.
proof fn lemma_decode_nodes_truncated(b: Seq<u8>, off: int, f: Seq<ProofNode>)
    requires
        0 <= off <= b.len() < off + encode_nodes(f).len(),
        b.len() <= usize::MAX,
        forall|k: int| 0 <= k < b.len() - off ==> b[off + k] == encode_nodes(f)[k],
    ensures
        decode_nodes(b, off, f.len() as int) == Err::<Seq<ProofNode>, ProofDecodingError>(
            ProofDecodingError::NotEnoughInput(b.len() as usize),
        ),
    decreases f.len(),
{
    let e = encode_nodes(f);
    let head = encode_node(f[0]);
    let rest = f.drop_first();
    let m = head.len() as int;
    assert(e == head + encode_nodes(rest));
    if off < b.len() {
        assert(b[off] == e[0]);
        if off + m <= b.len() {
            assert forall|k: int| 0 <= k < b.len() - (off + m) implies b[off + m + k]
                == encode_nodes(rest)[k] by {
                assert(b[off + (m + k)] == e[m + k]);
            }
            lemma_decode_nodes_truncated(b, off + m, rest);
        }
    }
}

/// Where `b` holds the first `j` steps of `f` at `off` and then a byte
/// `t` other than 0, 1 and 2, decoding the steps stops at `t`.
proof fn lemma_decode_nodes_bad_tag(b: Seq<u8>, off: int, f: Seq<ProofNode>, j: int, t: u8)
    requires
        0 <= off,
        0 <= j < f.len(),
        t > 2,
        off + encode_nodes(f.take(j)).len() < b.len(),
        b[off + encode_nodes(f.take(j)).len()] == t,
        forall|k: int|
            0 <= k < encode_nodes(f.take(j)).len() ==> b[off + k] == encode_nodes(f.take(j))[k],
    ensures
        decode_nodes(b, off, f.len() as int) == Err::<Seq<ProofNode>, ProofDecodingError>(
            ProofDecodingError::InvalidProofNodeType(t),
        ),
    decreases j,
{
    if j == 0 {
        assert(f.take(0).len() == 0);
    } else {
        let e = encode_nodes(f.take(j));
        let head = encode_node(f[0]);
        let rest = f.drop_first();
        let m = head.len() as int;
        assert(f.take(j).drop_first() =~= rest.take(j - 1));
        assert(f.take(j)[0] == f[0]);
        assert(e == head + encode_nodes(rest.take(j - 1)));
        assert(b[off] == e[0]);
        assert forall|k: int| 0 <= k < encode_nodes(rest.take(j - 1)).len() implies b[off + m + k]
            == #[trigger] encode_nodes(rest.take(j - 1))[k] by {
            assert(b[off + (m + k)] == e[m + k]);
        }
        assert(b[off + m + encode_nodes(rest.take(j - 1)).len()] == t);
        lemma_decode_nodes_bad_tag(b, off + m, rest, j - 1, t);
    }
}

/// Decoding the encoding of a proof gives the proof back.
pub proof fn lemma_proof_round_trip(v: (Seq<u8>, u64, Seq<ProofNode>))
    requires
        v.0.len() <= u64::MAX,
        v.2.len() <= u64::MAX,
    ensures
        decode_proof(encode_proof(v)) == Ok::<(Seq<u8>, u64, Seq<ProofNode>), ProofDecodingError>(v),
{
    let b = encode_proof(v);
    let n = v.0.len() as int;
    lemma_u64_be_round_trip(v.0.len() as u64);
    lemma_u64_be_round_trip(v.1);
    lemma_u64_be_round_trip(v.2.len() as u64);
    assert(b.subrange(0, 8) =~= u64_be(v.0.len() as u64));
    assert(b.subrange(8, n + 8) =~= v.0);
    assert(b.subrange(n + 8, n + 16) =~= u64_be(v.1));
    assert(b.subrange(n + 16, n + 24) =~= u64_be(v.2.len() as u64));
    lemma_decode_nodes_encoded(b, n + 24, v.2);
}

/// Decoding any proper prefix of the encoding of a proof runs out of
/// input.
pub proof fn lemma_proof_truncated(v: (Seq<u8>, u64, Seq<ProofNode>), k: int)
    requires
        v.0.len() <= u64::MAX,
        v.2.len() <= u64::MAX,
        0 <= k < encode_proof(v).len(),
        k <= usize::MAX,
    ensures
        decode_proof(encode_proof(v).take(k)) == Err::<
            (Seq<u8>, u64, Seq<ProofNode>),
            ProofDecodingError,
        >(ProofDecodingError::NotEnoughInput(k as usize)),
{
    let full = encode_proof(v);
    let b = full.take(k);
    let n = v.0.len() as int;
    lemma_u64_be_round_trip(v.0.len() as u64);
    lemma_u64_be_round_trip(v.2.len() as u64);
    if k >= 8 {
        assert(b.subrange(0, 8) =~= u64_be(v.0.len() as u64));
        if k >= n + 24 {
            assert(b.subrange(n + 16, n + 24) =~= u64_be(v.2.len() as u64));
            assert forall|i: int| 0 <= i < b.len() - (n + 24) implies b[n + 24 + i] == encode_nodes(
                v.2,
            )[i] by {
                assert(full[n + 24 + i] == encode_nodes(v.2)[i]);
            }
            lemma_decode_nodes_truncated(b, n + 24, v.2);
        }
    }
}

/// Writing a byte other than 0, 1 and 2 over the tag of step `j` of an
/// encoded proof makes decoding report that byte.
pub proof fn lemma_proof_bad_tag(v: (Seq<u8>, u64, Seq<ProofNode>), j: int, t: u8)
    requires
        v.0.len() <= u64::MAX,
        v.2.len() <= u64::MAX,
        0 <= j < v.2.len(),
        t > 2,
    ensures
        v.0.len() + 24 + encode_nodes(v.2.take(j)).len() < encode_proof(v).len(),
        decode_proof(
            encode_proof(v).update(v.0.len() + 24 + encode_nodes(v.2.take(j)).len() as int, t),
        ) == Err::<(Seq<u8>, u64, Seq<ProofNode>), ProofDecodingError>(
            ProofDecodingError::InvalidProofNodeType(t),
        ),
{
    let full = encode_proof(v);
    let n = v.0.len() as int;
    let q = n + 24 + encode_nodes(v.2.take(j)).len();
    let b = full.update(q, t);
    lemma_u64_be_round_trip(v.0.len() as u64);
    lemma_u64_be_round_trip(v.2.len() as u64);
    lemma_encode_nodes_split(v.2, j);
    assert(v.2.skip(j).len() > 0);
    assert(encode_nodes(v.2.skip(j)).len() > 0) by {
        assert(encode_nodes(v.2.skip(j)) == encode_node(v.2.skip(j)[0]) + encode_nodes(
            v.2.skip(j).drop_first(),
        ));
    }
    assert(b.subrange(0, 8) =~= u64_be(v.0.len() as u64));
    assert(b.subrange(n + 16, n + 24) =~= u64_be(v.2.len() as u64));
    assert forall|i: int| 0 <= i < encode_nodes(v.2.take(j)).len() implies b[n + 24 + i]
        == encode_nodes(v.2.take(j))[i] by {
        assert(full[n + 24 + i] == encode_nodes(v.2)[i]);
    }
    lemma_decode_nodes_bad_tag(b, n + 24, v.2, j, t);
}

impl Proof {
    /// The encoding of this proof.
    pub fn to_bytes(&self) -> (r: Vec<u8>)
        ensures
            r@ == encode_proof(self@),
    {
        let mut out: Vec<u8> = Vec::new();
        push_u64_be(&mut out, self.item.len() as u64);
        let mut i: usize = 0;
        while i < self.item.len()
            invariant
                0 <= i <= self.item@.len(),
                out@ == u64_be(self.item@.len() as u64) + self.item@.subrange(0, i as int),
            decreases self.item@.len() - i,
        {
            out.push(self.item[i]);
            i = i + 1;
            assert(out@ =~= u64_be(self.item@.len() as u64) + self.item@.subrange(0, i as int));
        }
        assert(self.item@.subrange(0, self.item@.len() as int) =~= self.item@);
        push_u64_be(&mut out, self.index);
        push_u64_be(&mut out, self.frontier.len() as u64);
        let ghost head = out@;
        let mut j: usize = 0;
        assert(self.frontier@.take(0) =~= Seq::<ProofNode>::empty());
        assert(head + encode_nodes(self.frontier@.take(0)) =~= head);
        while j < self.frontier.len()
            invariant
                0 <= j <= self.frontier@.len(),
                out@ == head + encode_nodes(self.frontier@.take(j as int)),
            decreases self.frontier@.len() - j,
        {
            let node = &self.frontier[j];
            match node {
                ProofNode::NodeWithoutSibling => {
                    out.push(0u8);
                },
                ProofNode::LeftChildWithSibling(h) => {
                    out.push(1u8);
                    append_bytes(&mut out, h.as_slice());
                },
                ProofNode::RightChildWithSibling(h) => {
                    out.push(2u8);
                    append_bytes(&mut out, h.as_slice());
                },
            }
            proof {
                lemma_encode_nodes_push(self.frontier@.take(j as int), *node);
                assert(self.frontier@.take(j + 1) =~= self.frontier@.take(j as int).push(*node));
                assert(out@ =~= head + encode_nodes(self.frontier@.take(j + 1)));
            }
            j = j + 1;
        }
        assert(self.frontier@.take(j as int) =~= self.frontier@);
        assert(out@ =~= encode_proof(self@));
        out
    }

    /// Decodes a proof from the front of `encoded`; bytes after it are
    /// ignored.
    pub fn from_bytes(encoded: &[u8]) -> (r: Result<Proof, ProofDecodingError>)
        ensures
            match decode_proof(encoded@) {
                Ok(v) => r is Ok && r->Ok_0@ == v,
                Err(e) => r == Err::<Proof, ProofDecodingError>(e),
            },
    {
        let len = encoded.len();
        if len < 8 {
            return Err(ProofDecodingError::NotEnoughInput(len));
        }
        let n = read_u64_be(encoded, 0);
        if len < 24 || ((len - 24) as u64) < n {
            return Err(ProofDecodingError::NotEnoughInput(len));
        }
        let nu = n as usize;
        let item = vstd::slice::slice_to_vec(vstd::slice::slice_subrange(encoded, 8, nu + 8));
        let index = read_u64_be(encoded, nu + 8);
        let count = read_u64_be(encoded, nu + 16);
        let ghost b = encoded@;
        let ghost start = nu + 24;
        let mut off: usize = nu + 24;
        let mut frontier: Vec<ProofNode> = Vec::new();
        let mut i: u64 = 0;
        assert(item@ =~= b.subrange(8, n + 8));
        assert(decode_proof(b) == match decode_nodes(b, start, count as int) {
            Ok(f) => Ok((item@, index, f)),
            Err(e) => Err(e),
        });
        assert(frontier@ + decode_nodes(b, start, count as int)->Ok_0 =~= decode_nodes(
            b,
            start,
            count as int,
        )->Ok_0);
        while i < count
            invariant
                b == encoded@,
                len == b.len(),
                decode_proof(b) == match decode_nodes(b, start, count as int) {
                    Ok(f) => Ok((item@, index, f)),
                    Err(e) => Err(e),
                },
                0 <= i <= count,
                off <= len,
                decode_nodes(b, start, count as int) == match decode_nodes(
                    b,
                    off as int,
                    count - i,
                ) {
                    Ok(rest) => Ok(frontier@ + rest),
                    Err(e) => Err(e),
                },
            decreases count - i,
        {
            if off >= len {
                assert(decode_nodes(b, off as int, count - i) == Err::<
                    Seq<ProofNode>,
                    ProofDecodingError,
                >(ProofDecodingError::NotEnoughInput(len)));
                return Err(ProofDecodingError::NotEnoughInput(len));
            }
            let tag = encoded[off];
            if tag == 0 {
                proof {
                    let rest = decode_nodes(b, off + 1, count - i - 1);
                    if rest is Ok {
                        assert(frontier@.push(ProofNode::NodeWithoutSibling) + rest->Ok_0
                            =~= frontier@ + (seq![ProofNode::NodeWithoutSibling] + rest->Ok_0));
                    }
                }
                frontier.push(ProofNode::NodeWithoutSibling);
                off = off + 1;
            } else if tag == 1 || tag == 2 {
                if len - off < 33 {
                    assert(decode_nodes(b, off as int, count - i) == Err::<
                        Seq<ProofNode>,
                        ProofDecodingError,
                    >(ProofDecodingError::NotEnoughInput(len)));
                    return Err(ProofDecodingError::NotEnoughInput(len));
                }
                let h = read_bytes32(encoded, off + 1);
                let node = if tag == 1 {
                    ProofNode::LeftChildWithSibling(h)
                } else {
                    ProofNode::RightChildWithSibling(h)
                };
                proof {
                    lemma_hash_from(h);
                    let rest = decode_nodes(b, off + 33, count - i - 1);
                    if rest is Ok {
                        assert(frontier@.push(node) + rest->Ok_0 =~= frontier@ + (seq![node]
                            + rest->Ok_0));
                    }
                }
                frontier.push(node);
                off = off + 33;
            } else {
                assert(decode_nodes(b, off as int, count - i) == Err::<
                    Seq<ProofNode>,
                    ProofDecodingError,
                >(ProofDecodingError::InvalidProofNodeType(tag)));
                return Err(ProofDecodingError::InvalidProofNodeType(tag));
            }
            i = i + 1;
        }
        assert(frontier@ + Seq::<ProofNode>::empty() =~= frontier@);
        Ok(Proof { item, index, frontier })
    }
}

impl Commitment {
    /// Checks `pf` against this commitment: replays its frontier from the
    /// item's digest and compares the result with the root.
    pub fn verify(&self, pf: &Proof) -> (r: bool)
        ensures
            r == accepts(
                self.root,
                self.num_items as int,
                pf.item@,
                pf.index as int,
                pf.frontier@,
            ),
    {
        if pf.index >= self.num_items {
            return false;
        }
        let ghost h0 = blake3_of(pf.item@);
        let ghost f = pf.frontier@;
        let mut h = hash(pf.item.as_slice());
        let mut p: u64 = pf.index;
        let mut w: u64 = self.num_items;
        let mut i: usize = 0;
        assert(f.subrange(0, f.len() as int) =~= f);
        while i < pf.frontier.len()
            invariant
                f == pf.frontier@,
                h0 == blake3_of(pf.item@),
                pf.index < self.num_items,
                0 <= i <= f.len(),
                p < w,
                climb(h, p as int, w as int, f.subrange(i as int, f.len() as int)) == climb(
                    h0,
                    pf.index as int,
                    self.num_items as int,
                    f,
                ),
            decreases f.len() - i,
        {
            let ghost rest = f.subrange(i as int, f.len() as int);
            assert(rest[0] == f[i as int]);
            assert(rest.drop_first() =~= f.subrange(i + 1, f.len() as int));
            assert(rest.len() > 0);
            if w < 2 {
                assert(climb(h, p as int, w as int, rest) == None::<[u8; 32]>);
                return false;
            }
            let odd = w % 2;
            let node = &pf.frontier[i];
            assert(*node == rest[0]);
            match node {
                ProofNode::NodeWithoutSibling => {
                    if !(p + 1 == w && odd == 1) {
                        return false;
                    }
                },
                ProofNode::LeftChildWithSibling(right) => {
                    if !(p % 2 == 0 && p + 1 < w) {
                        return false;
                    }
                    h = hash_two_hashes(&h, right);
                },
                ProofNode::RightChildWithSibling(left) => {
                    if p % 2 != 1 {
                        assert(climb(h, p as int, w as int, rest) == None::<[u8; 32]>);
                        return false;
                    }
                    h = hash_two_hashes(left, &h);
                },
            }
            p = p / 2;
            w = w / 2 + odd;
            i = i + 1;
        }
        assert(f.subrange(i as int, f.len() as int).len() == 0);
        w == 1 && hash_eq(&h, &self.root)
    }
}

impl Tree {
    /// The leaf digests.
    pub closed spec fn leaf_hashes(&self) -> Seq<[u8; 32]> {
        if self.levels@.len() == 0 {
            seq![self.root]
        } else {
            self.levels@[0]@
        }
    }

    /// The stored levels, bottom-up.
    pub closed spec fn stored_levels(&self) -> Seq<Seq<[u8; 32]>> {
        levels_view(self.levels@)
    }

    pub closed spec fn root_hash(&self) -> [u8; 32] {
        self.root
    }

    #[verifier::type_invariant]
    spec fn inv(&self) -> bool {
        &&& 1 <= self.leaf_hashes().len() <= u64::MAX
        &&& self.stored_levels() == levels_from(self.leaf_hashes())
        &&& self.root == root_from(self.leaf_hashes())
    }

    /// Builds the tree over `leaves`, which must not be empty.
    pub fn new(leaves: &Vec<Vec<u8>>) -> (r: Tree)
        requires
            leaves@.len() >= 1,
        ensures
            r.leaf_hashes() == leaf_digests(leaves@.map_values(|v: Vec<u8>| v@)),
            r.stored_levels() == levels_from(r.leaf_hashes()),
            r.root_hash() == root_from(r.leaf_hashes()),
    {
        let ghost items = leaves@.map_values(|v: Vec<u8>| v@);
        let mut bottom: Vec<[u8; 32]> = Vec::new();
        let mut i: usize = 0;
        while i < leaves.len()
            invariant
                0 <= i <= leaves@.len(),
                items == leaves@.map_values(|v: Vec<u8>| v@),
                bottom@ == leaf_digests(items).take(i as int),
            decreases leaves@.len() - i,
        {
            let h = hash(leaves[i].as_slice());
            bottom.push(h);
            i = i + 1;
            assert(bottom@ =~= leaf_digests(items).take(i as int));
        }
        assert(bottom@ =~= leaf_digests(items));
        let ghost l0 = bottom@;
        let mut levels: Vec<Vec<[u8; 32]>> = Vec::new();
        let mut current = bottom;
        while current.len() >= 2
            invariant
                current@.len() >= 1,
                levels_view(levels@) + levels_from(current@) == levels_from(l0),
                root_from(current@) == root_from(l0),
                levels@.len() == 0 ==> current@ == l0,
                levels@.len() > 0 ==> levels@[0]@ == l0,
            decreases current@.len(),
        {
            let next = Tree::pair_up(&current);
            proof {
                lemma_next_level_len(current@);
                assert(levels_from(current@) == seq![current@] + levels_from(next@));
                assert(levels_view(levels@.push(current)) =~= levels_view(levels@).push(current@));
                assert(levels_view(levels@).push(current@) + levels_from(next@) =~= levels_view(
                    levels@,
                ) + levels_from(current@));
            }
            levels.push(current);
            current = next;
        }
        let root = current[0];
        assert(levels_view(levels@) + levels_from(current@) =~= levels_view(levels@));
        assert(levels@.len() == 0 ==> seq![root] =~= l0);
        assert(l0.len() <= u64::MAX);
        assert(levels@.len() > 0 ==> levels_view(levels@)[0] == l0);
        assert(levels_view(levels@) == levels_from(l0));
        assert(root == root_from(l0));
        let r = Tree { root, levels };
        assert(r.leaf_hashes() == l0);
        r
    }

    /// The level above `level`.
    fn pair_up(level: &Vec<[u8; 32]>) -> (r: Vec<[u8; 32]>)
        requires
            level@.len() >= 2,
        ensures
            r@ == next_level(level@),
    {
        let n = level.len();
        let mut out: Vec<[u8; 32]> = Vec::new();
        let mut k: usize = 0;
        while k < n / 2
            invariant
                n == level@.len(),
                0 <= k <= n / 2,
                out@ == next_level(level@).take(k as int),
            decreases n / 2 - k,
        {
            let h = hash_two_hashes(&level[2 * k], &level[2 * k + 1]);
            out.push(h);
            k = k + 1;
            assert(out@ =~= next_level(level@).take(k as int));
        }
        if n % 2 == 1 {
            out.push(level[n - 1]);
        }
        assert(out@ =~= next_level(level@));
        out
    }

    /// The number of leaves.
    pub fn num_items(&self) -> (r: u64)
        ensures
            r == self.leaf_hashes().len(),
    {
        proof {
            use_type_invariant(self);
        }
        if self.levels.len() == 0 {
            1
        } else {
            self.levels[0].len() as u64
        }
    }

    /// The proof that `item` stands at `index`; `None` where `index` is out
    /// of range or `item` does not hash to the leaf digest there.
    pub fn prove(&self, item: Vec<u8>, index: u64) -> (r: Option<Proof>)
        ensures
            r is Some <==> (index < self.leaf_hashes().len() && blake3_of(item@)
                == self.leaf_hashes()[index as int]),
            r is Some ==> r->Some_0@ == (item@, index, path(
                levels_from(self.leaf_hashes()),
                index as int,
            )),
    {
        proof {
            use_type_invariant(self);
        }
        let n = self.num_items();
        if index >= n {
            return None;
        }
        let h = hash(item.as_slice());
        let depth = self.levels.len();
        if depth == 0 {
            assert(self.leaf_hashes()[0] == self.root);
            if !hash_eq(&h, &self.root) {
                return None;
            }
            return Some(Proof { item, index, frontier: Vec::new() });
        }
        assert(self.leaf_hashes() == self.levels@[0]@);
        let width: usize = self.levels[0].len();
        assert(index < width);
        let ix = index as usize;
        if !hash_eq(&h, &self.levels[0][ix]) {
            return None;
        }
        let ghost levels = self.stored_levels();
        let mut frontier: Vec<ProofNode> = Vec::new();
        let mut p: usize = ix;
        let mut d: usize = 0;
        proof {
            assert(levels.subrange(0, depth as int) =~= levels);
            assert(frontier@ + path(levels, index as int) =~= path(levels, index as int));
        }
        while d < depth
            invariant
                depth == self.levels@.len(),
                levels == self.stored_levels(),
                levels == levels_from(self.leaf_hashes()),
                levels.len() == depth,
                0 <= d <= depth,
                d < depth ==> p < levels[d as int].len(),
                frontier@ + path(levels.subrange(d as int, depth as int), p as int) == path(
                    levels,
                    index as int,
                ),
            decreases depth - d,
        {
            let level = &self.levels[d];
            let w = level.len();
            proof {
                lemma_levels_from_step(self.leaf_hashes(), d as int);
                let s = levels.subrange(d as int, depth as int);
                assert(s[0] == levels[d as int]);
                assert(s.drop_first() =~= levels.subrange(d + 1, depth as int));
            }
            let node = if p + 1 == w && w % 2 == 1 {
                ProofNode::NodeWithoutSibling
            } else if p % 2 == 0 {
                ProofNode::LeftChildWithSibling(level[p + 1])
            } else {
                ProofNode::RightChildWithSibling(level[p - 1])
            };
            proof {
                assert(node == expected_node(levels[d as int], p as int));
                assert(frontier@.push(node) + path(levels.subrange(d + 1, depth as int), p as int / 2)
                    =~= frontier@ + path(levels.subrange(d as int, depth as int), p as int));
            }
            frontier.push(node);
            p = p / 2;
            d = d + 1;
        }
        assert(frontier@ + path(levels.subrange(depth as int, depth as int), p as int)
            =~= frontier@);
        Some(Proof { item, index, frontier })
    }

    /// Whether this is the tree over `leaves`.
    pub fn verify(&self, leaves: &Vec<Vec<u8>>) -> (r: bool)
        requires
            leaves@.len() >= 1,
        ensures
            r == (self.leaf_hashes() == leaf_digests(leaves@.map_values(|v: Vec<u8>| v@))),
    {
        let other = Tree::new(leaves);
        let n = self.num_items();
        if n != other.num_items() {
            return false;
        }
        let mut i: u64 = 0;
        while i < n
            invariant
                n == self.leaf_hashes().len(),
                n == other.leaf_hashes().len(),
                other.leaf_hashes() == leaf_digests(leaves@.map_values(|v: Vec<u8>| v@)),
                0 <= i <= n,
                forall|k: int| 0 <= k < i ==> self.leaf_hashes()[k] == other.leaf_hashes()[k],
            decreases n - i,
        {
            if !hash_eq(&self.leaf_hash(i), &other.leaf_hash(i)) {
                return false;
            }
            i = i + 1;
        }
        assert(self.leaf_hashes() =~= other.leaf_hashes());
        true
    }

    /// The digest of leaf `index`.
    fn leaf_hash(&self, index: u64) -> (r: [u8; 32])
        requires
            index < self.leaf_hashes().len(),
        ensures
            r == self.leaf_hashes()[index as int],
    {
        if self.levels.len() == 0 {
            self.root
        } else {
            let width: usize = self.levels[0].len();
            assert(index < width);
            self.levels[0][index as usize]
        }
    }

    /// The commitment to this tree.
    pub fn commitment(&self) -> (r: Commitment)
        ensures
            r.root == root_from(self.leaf_hashes()),
            r.num_items == self.leaf_hashes().len(),
    {
        proof {
            use_type_invariant(self);
        }
        Commitment { root: self.root, num_items: self.num_items() }
    }
}

} // verus!
