use blake3_lamport_signatures::merkle::internal::{Proof, ProofNode, Tree};
use blake3_lamport_signatures::merkle::ProofDecodingError;

fn leaves_of(v: &Vec<&[u8]>) -> Vec<Vec<u8>> {
    v.iter().map(|l| l.to_vec()).collect()
}

fn test_verify(v: &Vec<&[u8]>) {
    let tree = Tree::new(&leaves_of(v));
    assert!(tree.verify(&leaves_of(v)));
}

fn modify_frontier(frontier: &mut Vec<ProofNode>) -> bool {
    if frontier.len() > 0 {
        if frontier[0] == ProofNode::NodeWithoutSibling {
            frontier[0] =
                ProofNode::LeftChildWithSibling(*blake3::hash(b"hello, world").as_bytes());
        } else {
            frontier[0] = ProofNode::NodeWithoutSibling;
        }
        true
    } else {
        false
    }
}

fn test_prove(v: &Vec<&[u8]>) {
    let tree = Tree::new(&leaves_of(v));
    let mut proof = tree.prove(v[0].into(), 0).unwrap();
    let bytes = proof.to_bytes();
    let proof_2 = Proof::from_bytes(&bytes).unwrap();
    assert_eq!(proof, proof_2);
    let commitment = tree.commitment();
    assert!(commitment.verify(&proof));
    if modify_frontier(&mut proof.frontier) {
        assert!(!commitment.verify(&proof));
    }
}

#[test]
fn test_tree() {
    let test_vectors: Vec<Vec<&[u8]>> = vec![
        vec![b"hello, world"],
        vec![b"one", b"two", b"three"],
        vec![b"one", b"two"],
        vec![b"hey"; 1000],
    ];
    for test_vector in test_vectors {
        test_verify(&test_vector);
        test_prove(&test_vector);
    }
}

fn h(b: &[u8]) -> [u8; 32] {
    *blake3::hash(b).as_bytes()
}

fn h2(a: &[u8; 32], b: &[u8; 32]) -> [u8; 32] {
    let mut v = a.to_vec();
    v.extend_from_slice(b);
    h(&v)
}

#[test]
fn odd_tree_proves_every_index() {
    let leaves = leaves_of(&vec![b"one", b"two", b"three"]);
    let tree = Tree::new(&leaves);
    let commitment = tree.commitment();
    assert_eq!(commitment.num_items, 3);
    let left = h2(&h(b"one"), &h(b"two"));
    assert_eq!(commitment.root, h2(&left, &h(b"three")));
    for i in 0..3 {
        let proof = tree.prove(leaves[i].clone(), i as u64).unwrap();
        assert_eq!(proof.frontier.len(), 2);
        assert!(commitment.verify(&proof));
    }
    let mut proof = tree.prove(leaves[2].clone(), 2).unwrap();
    assert_eq!(
        proof.frontier,
        vec![ProofNode::NodeWithoutSibling, ProofNode::RightChildWithSibling(left)]
    );
    proof.frontier[0] = ProofNode::LeftChildWithSibling(h(b"hello, world"));
    assert!(!commitment.verify(&proof));
}

#[test]
fn single_leaf_tree() {
    let leaves = leaves_of(&vec![b"hello, world"]);
    let tree = Tree::new(&leaves);
    let commitment = tree.commitment();
    assert_eq!(commitment.root, h(b"hello, world"));
    assert_eq!(commitment.num_items, 1);
    assert_eq!(tree.num_items(), 1);
    let proof = tree.prove(b"hello, world".to_vec(), 0).unwrap();
    assert!(proof.frontier.is_empty());
    assert!(commitment.verify(&proof));
    assert!(tree.prove(b"hello, world".to_vec(), 1).is_none());
    assert!(tree.prove(b"goodbye".to_vec(), 0).is_none());
}

#[test]
fn prove_rejects_wrong_item_or_index() {
    let leaves = leaves_of(&vec![b"a", b"b", b"c", b"d", b"e"]);
    let tree = Tree::new(&leaves);
    assert!(tree.prove(leaves[0].clone(), 1).is_none());
    assert!(tree.prove(leaves[3].clone(), 4).is_none());
    assert!(tree.prove(leaves[0].clone(), 5).is_none());
    assert!(tree.prove(b"z".to_vec(), 0).is_none());
    assert!(tree.prove(leaves[4].clone(), 4).is_some());
}

#[test]
fn every_index_of_every_small_tree_verifies() {
    for n in 1..=17usize {
        let leaves: Vec<Vec<u8>> = (0..n).map(|i| vec![i as u8, 7]).collect();
        let tree = Tree::new(&leaves);
        let commitment = tree.commitment();
        for i in 0..n {
            let proof = tree.prove(leaves[i].clone(), i as u64).unwrap();
            assert!(commitment.verify(&proof));
            let mut wrong_index = proof.clone();
            wrong_index.index = (i as u64 + 1) % n as u64;
            if n > 1 {
                assert!(!commitment.verify(&wrong_index));
            }
        }
    }
}

#[test]
fn altered_frontier_hash_is_rejected() {
    let leaves = leaves_of(&vec![b"a", b"b", b"c", b"d"]);
    let tree = Tree::new(&leaves);
    let commitment = tree.commitment();
    let proof = tree.prove(leaves[1].clone(), 1).unwrap();
    for j in 0..proof.frontier.len() {
        let mut altered = proof.clone();
        altered.frontier[j] = match &proof.frontier[j] {
            ProofNode::LeftChildWithSibling(x) => {
                let mut y = *x;
                y[0] ^= 1;
                ProofNode::LeftChildWithSibling(y)
            }
            ProofNode::RightChildWithSibling(x) => {
                let mut y = *x;
                y[31] ^= 0x80;
                ProofNode::RightChildWithSibling(y)
            }
            ProofNode::NodeWithoutSibling => ProofNode::LeftChildWithSibling([0u8; 32]),
        };
        assert!(!commitment.verify(&altered));
    }
}

#[test]
fn padded_or_shortened_frontier_is_rejected() {
    let leaves = leaves_of(&vec![b"a", b"b", b"c"]);
    let tree = Tree::new(&leaves);
    let commitment = tree.commitment();
    let proof = tree.prove(leaves[0].clone(), 0).unwrap();
    let mut longer = proof.clone();
    longer.frontier.push(ProofNode::NodeWithoutSibling);
    assert!(!commitment.verify(&longer));
    let mut shorter = proof.clone();
    shorter.frontier.pop();
    assert!(!commitment.verify(&shorter));
}

#[test]
fn tree_build_is_deterministic() {
    let leaves = leaves_of(&vec![b"x", b"y", b"z"]);
    assert_eq!(Tree::new(&leaves), Tree::new(&leaves));
    assert!(!Tree::new(&leaves).verify(&leaves_of(&vec![b"x", b"y"])));
    assert!(!Tree::new(&leaves).verify(&leaves_of(&vec![b"x", b"y", b"w"])));
}

#[test]
fn proof_encoding_layout() {
    let leaves = leaves_of(&vec![b"one", b"two"]);
    let tree = Tree::new(&leaves);
    let proof = tree.prove(b"one".to_vec(), 0).unwrap();
    let bytes = proof.to_bytes();
    let mut expected = vec![0, 0, 0, 0, 0, 0, 0, 3];
    expected.extend_from_slice(b"one");
    expected.extend_from_slice(&[0, 0, 0, 0, 0, 0, 0, 0]);
    expected.extend_from_slice(&[0, 0, 0, 0, 0, 0, 0, 1]);
    expected.push(1);
    expected.extend_from_slice(&h(b"two"));
    assert_eq!(bytes, expected);
}

#[test]
fn proof_decoding_errors() {
    let leaves = leaves_of(&vec![b"one", b"two", b"three"]);
    let tree = Tree::new(&leaves);
    let proof = tree.prove(b"three".to_vec(), 2).unwrap();
    let bytes = proof.to_bytes();
    for k in 0..bytes.len() {
        assert_eq!(
            Proof::from_bytes(&bytes[..k]),
            Err(ProofDecodingError::NotEnoughInput(k))
        );
    }
    let tag_at = 8 + 5 + 8 + 8;
    for t in [3u8, 4, 0x80, 0xff] {
        let mut bad = bytes.clone();
        bad[tag_at] = t;
        assert_eq!(Proof::from_bytes(&bad), Err(ProofDecodingError::InvalidProofNodeType(t)));
    }
    let mut trailing = bytes.clone();
    trailing.push(9);
    assert_eq!(Proof::from_bytes(&trailing), Ok(proof));
}
