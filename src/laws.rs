//! Facts that hold of every tree, proved over the model.
use vstd::prelude::*;

use crate::hashing::{default_digest, sha256_of};
use crate::model::{leaf_bytes, node_count, node_digest, root_digest};
use crate::tree::{digests_of, Leaf, MerkleTree};

verus! {

/// The node array that building a tree from scratch over the leaf digests
/// `hs` produces.
pub open spec fn rebuilt_nodes(hs: Seq<Seq<u8>>) -> Seq<Seq<u8>> {
    Seq::new(node_count(hs.len()), |k: int| node_digest(hs, node_count(hs.len()), k as nat))
}

/// Whatever operations led to it, a well-formed tree holds exactly the node
/// array that a rebuild from scratch over its leaf digests would hold, so its
/// root is the rebuilt root.
pub proof fn lemma_matches_rebuild<T>(t: MerkleTree<T>)
    requires
        t.wf(),
    ensures
        t.node_digests() == rebuilt_nodes(t.leaf_digests()),
        root_digest(t.leaf_digests()) == if t.node_digests().len() == 0 {
            default_digest()
        } else {
            t.node_digests()[0]
        },
{
    let n = t.node_digests().len();
    assert forall|k: int| 0 <= k < n implies t.node_digests()[k] == rebuilt_nodes(
        t.leaf_digests(),
    )[k] by {
        assert(t.node_ok(k as nat));
    }
    assert(t.node_digests() =~= rebuilt_nodes(t.leaf_digests()));
    if n > 0 {
        assert(t.node_ok(0));
    }
}

/// Two well-formed trees whose leaves carry the same digests in the same
/// order hold the same node digests, whatever payloads they carry and
/// whatever operations built them.
pub proof fn lemma_determined_by_digests<T, U>(a: MerkleTree<T>, b: MerkleTree<U>)
    requires
        a.wf(),
        b.wf(),
        a.leaf_digests() == b.leaf_digests(),
    ensures
        a.node_digests() == b.node_digests(),
        root_digest(a.leaf_digests()) == root_digest(b.leaf_digests()),
{
    lemma_matches_rebuild(a);
    lemma_matches_rebuild(b);
}

/// A tree without leaves has no nodes and yields the default digest.
pub proof fn lemma_empty_root()
    ensures
        node_count(0) == 0,
        root_digest(Seq::empty()) == default_digest(),
{
}

/// A tree of one leaf has no nodes and yields the default digest, not the
/// leaf's own digest.
pub proof fn lemma_single_leaf(h: Seq<u8>)
    ensures
        node_count(1) == 0,
        root_digest(seq![h]) == default_digest(),
{
}

/// The root of a tree of two leaves is the digest of their two digests.
pub proof fn lemma_two_leaves(h0: Seq<u8>, h1: Seq<u8>)
    ensures
        node_count(2) == 1,
        root_digest(seq![h0, h1]) == sha256_of(h0 + h1),
{
    let hs = seq![h0, h1];
    assert(leaf_bytes(hs, 0) == h0);
    assert(leaf_bytes(hs, 1) == h1);
}

/// With three leaves the third has no partner: its parent holds the digest
/// of its digest alone, and the root combines the two parents.
pub proof fn lemma_three_leaves(h0: Seq<u8>, h1: Seq<u8>, h2: Seq<u8>)
    ensures
        node_count(3) == 3,
        node_digest(seq![h0, h1, h2], 3, 1) == sha256_of(h0 + h1),
        node_digest(seq![h0, h1, h2], 3, 2) == sha256_of(h2),
        root_digest(seq![h0, h1, h2]) == sha256_of(sha256_of(h0 + h1) + sha256_of(h2)),
{
    let hs = seq![h0, h1, h2];
    assert(node_count(3) == 2 * node_count(2) + 1);
    assert(leaf_bytes(hs, 0) == h0);
    assert(leaf_bytes(hs, 1) == h1);
    assert(leaf_bytes(hs, 2) == h2);
    assert(leaf_bytes(hs, 3) == Seq::<u8>::empty());
    assert(h2 + Seq::<u8>::empty() == h2);
}

/// Inserting a leaf at `i` and then removing position `i` gives back the
/// leaves, and so the root, that were there before.
pub proof fn lemma_insert_then_remove<T>(leaves: Seq<Leaf<T>>, i: int, leaf: Leaf<T>)
    requires
        0 <= i <= leaves.len(),
    ensures
        leaves.insert(i, leaf).remove(i) == leaves,
        root_digest(digests_of(leaves.insert(i, leaf).remove(i))) == root_digest(
            digests_of(leaves),
        ),
{
    assert(leaves.insert(i, leaf).remove(i) =~= leaves);
}

} // verus!
