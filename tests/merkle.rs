use merkle_tree::{Leaf, MerkleTree};
use sha2::{Digest, Sha256};

fn sha(bytes: &[u8]) -> [u8; 32] {
    Sha256::digest(bytes).into()
}

fn leaf_digest(n: u32) -> [u8; 32] {
    sha(&n.to_le_bytes())
}

fn concat(a: &[u8; 32], b: &[u8; 32]) -> Vec<u8> {
    let mut v = a.to_vec();
    v.extend_from_slice(b);
    v
}

/// The root of a tree built from scratch over `hs`.
fn rebuilt_root(hs: &[[u8; 32]]) -> [u8; 32] {
    if hs.len() < 2 {
        return [0u8; 32];
    }
    let mut w = 1;
    while 2 * w < hs.len() {
        w *= 2;
    }
    let mut row: Vec<[u8; 32]> = (0..w)
        .map(|q| {
            let mut b = Vec::new();
            if 2 * q < hs.len() {
                b.extend_from_slice(&hs[2 * q]);
            }
            if 2 * q + 1 < hs.len() {
                b.extend_from_slice(&hs[2 * q + 1]);
            }
            sha(&b)
        })
        .collect();
    while row.len() > 1 {
        row = row.chunks(2).map(|c| sha(&concat(&c[0], &c[1]))).collect();
    }
    row[0]
}

fn digests<T>(t: &MerkleTree<T>) -> Vec<[u8; 32]> {
    t.leaves().iter().map(|l| l.hash).collect()
}

fn path_from(p: usize) -> Vec<usize> {
    let mut v = vec![p];
    let mut c = p;
    while c > 0 {
        c = (c - 1) / 2;
        v.push(c);
    }
    v
}

#[test]
fn it_works() {
    assert_eq!(2 + 2, 4);
}

#[test]
fn empty_tree_root_is_default() {
    let t: MerkleTree<u32> = MerkleTree::new();
    assert_eq!(t.hash(), [0u8; 32]);
    assert_eq!(t.len(), 0);
    assert!(t.nodes().is_empty());
    let d: MerkleTree<u32> = MerkleTree::default();
    assert_eq!(d.hash(), [0u8; 32]);
}

#[test]
fn single_leaf_has_no_nodes() {
    let mut t = MerkleTree::new();
    t.push(Leaf::new(leaf_digest(7), "seven"));
    assert!(t.nodes().is_empty());
    assert_eq!(t.hash(), [0u8; 32]);
    assert_ne!(t.hash(), leaf_digest(7));
}

#[test]
fn two_leaves_root() {
    let (h0, h1) = (leaf_digest(0), leaf_digest(1));
    let mut t = MerkleTree::new();
    t.insert(0, Leaf::new(h0, 0u8));
    t.insert(1, Leaf::new(h1, 1u8));
    assert_eq!(t.nodes().len(), 1);
    assert_eq!(t.hash(), sha(&concat(&h0, &h1)));
}

#[test]
fn three_leaves_root() {
    let (h0, h1, h2) = (leaf_digest(0), leaf_digest(1), leaf_digest(2));
    let mut t = MerkleTree::new();
    t.push(Leaf::new(h0, ()));
    t.push(Leaf::new(h1, ()));
    t.push(Leaf::new(h2, ()));
    let left = sha(&concat(&h0, &h1));
    let right = sha(&h2);
    assert_eq!(t.nodes().len(), 3);
    assert_eq!(t.nodes()[1], left);
    assert_eq!(t.nodes()[2], right);
    assert_eq!(t.hash(), sha(&concat(&left, &right)));
}

#[test]
fn node_array_grows_and_shrinks_by_levels() {
    let expected = [0, 0, 1, 3, 3, 7, 7, 7, 7, 15, 15];
    let mut t = MerkleTree::new();
    for n in 1..expected.len() {
        t.push(Leaf::new(leaf_digest(n as u32), n));
        assert_eq!(t.nodes().len(), expected[n]);
    }
    for n in (0..expected.len() - 1).rev() {
        t.remove(t.len() - 1);
        assert_eq!(t.len(), n);
        assert_eq!(t.nodes().len(), expected[n]);
    }
}

#[test]
fn push_matches_rebuild() {
    let mut t = MerkleTree::new();
    for n in 0..40u32 {
        t.push(Leaf::new(leaf_digest(n), n));
        assert_eq!(t.hash(), rebuilt_root(&digests(&t)));
    }
}

#[test]
fn insert_anywhere_matches_rebuild() {
    let mut t = MerkleTree::new();
    let mut expected: Vec<u32> = Vec::new();
    for n in 0..40u32 {
        let i = ((n as usize) * 7) % (expected.len() + 1);
        t.insert(i, Leaf::new(leaf_digest(n), n));
        expected.insert(i, n);
        let data: Vec<u32> = t.leaves().iter().map(|l| l.data).collect();
        assert_eq!(data, expected);
        assert_eq!(t.hash(), rebuilt_root(&digests(&t)));
    }
}

#[test]
fn remove_matches_rebuild() {
    let mut t = MerkleTree::new();
    for n in 0..40u32 {
        t.push(Leaf::new(leaf_digest(n), n));
    }
    let mut k = 0usize;
    while t.len() > 0 {
        let i = (k * 5) % t.len();
        t.remove(i);
        assert_eq!(t.hash(), rebuilt_root(&digests(&t)));
        k += 1;
    }
    assert!(t.nodes().is_empty());
}

#[test]
fn replace_matches_rebuild() {
    let mut t = MerkleTree::new();
    for n in 0..21u32 {
        t.push(Leaf::new(leaf_digest(n), n));
    }
    for i in 0..21usize {
        t.replace(i, Leaf::new(leaf_digest(100 + i as u32), 0));
        assert_eq!(t.hash(), rebuilt_root(&digests(&t)));
    }
}

#[test]
fn replace_touches_only_the_path() {
    let mut t = MerkleTree::new();
    for n in 0..13u32 {
        t.push(Leaf::new(leaf_digest(n), n));
    }
    let i = 9usize;
    let before: Vec<[u8; 32]> = t.nodes().to_vec();
    t.replace(i, Leaf::new(leaf_digest(999), 999));
    let after = t.nodes();
    let path = path_from(before.len() / 2 + i / 2);
    assert_eq!(after.len(), before.len());
    for k in 0..before.len() {
        if path.contains(&k) {
            assert_ne!(after[k], before[k]);
        } else {
            assert_eq!(after[k], before[k]);
        }
    }
}

#[test]
fn insert_then_remove_restores_root() {
    let mut t = MerkleTree::new();
    for n in 0..9u32 {
        t.push(Leaf::new(leaf_digest(n), n));
    }
    for i in 0..=9usize {
        let root = t.hash();
        t.insert(i, Leaf::new(leaf_digest(50), 50));
        assert_ne!(t.hash(), root);
        t.remove(i);
        assert_eq!(t.hash(), root);
    }
}

#[test]
fn replaying_operations_gives_the_same_root() {
    let mut a = MerkleTree::new();
    let mut b = MerkleTree::new();
    for n in 0..17u32 {
        a.push(Leaf::new(leaf_digest(n), n));
        b.push(Leaf::new(leaf_digest(n), format!("{}", n)));
    }
    a.remove(3);
    b.remove(3);
    a.replace(5, Leaf::new(leaf_digest(77), 77));
    b.replace(5, Leaf::new(leaf_digest(77), String::new()));
    assert_eq!(a.hash(), b.hash());
    assert_eq!(a.nodes(), b.nodes());
}
