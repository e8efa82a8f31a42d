//! The tree itself: the leaf sequence, the cached node digests, and the
//! operations that keep the two consistent.
use vstd::prelude::*;

use crate::hashing::{default_digest, sha256, sha256_of};
use crate::model::{
    full, in_band_or_above, is_leaf_parent, leaf_bytes, leaf_parent_of, lemma_band_step,
    lemma_full_odd, lemma_left_unchanged, lemma_node_count_shape, lemma_node_count_unique,
    lemma_off_path_unchanged, lemma_on_path_le, lemma_on_path_parent, node_count, node_digest,
    on_path, root_digest,
};

verus! {

/// Leaves beyond this count would make the node arithmetic overflow.
pub const MAX_LEAVES: usize = usize::MAX / 8;

/// A leaf: its digest and a payload that the tree never looks at.
pub struct Leaf<T> {
    pub hash: [u8; 32],
    pub data: T,
}

impl<T> Leaf<T> {
    pub fn new(hash: [u8; 32], data: T) -> (r: Self)
        ensures
            r.hash == hash,
            r.data == data,
    {
        Leaf { hash, data }
    }
}

/// The digests of a sequence of leaves, in order.
pub open spec fn digests_of<T>(leaves: Seq<Leaf<T>>) -> Seq<Seq<u8>> {
    leaves.map_values(|l: Leaf<T>| l.hash@)
}

/// An ordered sequence of leaves with the digests of the internal nodes
/// above them, kept in breadth-first order with the root at index 0.
pub struct MerkleTree<T> {
    nodes: Vec<[u8; 32]>,
    leaves: Vec<Leaf<T>>,
}

/// Appends the 32 bytes of `d` to `buf`.
fn append_digest(buf: &mut Vec<u8>, d: &[u8; 32])
    ensures
        final(buf)@ == old(buf)@ + d@,
{
    let ghost start = buf@;
    let mut i: usize = 0;
    while i < 32
        invariant
            i <= 32,
            d@.len() == 32,
            buf@ == start + d@.subrange(0, i as int),
        decreases 32 - i,
    {
        buf.push(d[i]);
        i = i + 1;
        assert(d@.subrange(0, i as int) == d@.subrange(0, i - 1) + seq![d@[i - 1]]);
    }
    assert(d@.subrange(0, 32) == d@);
}

impl<T> MerkleTree<T> {
    /// The leaves in order.
    pub closed spec fn leaf_seq(&self) -> Seq<Leaf<T>> {
        self.leaves@
    }

    /// The leaf digests in order.
    pub open spec fn leaf_digests(&self) -> Seq<Seq<u8>> {
        digests_of(self.leaf_seq())
    }

    /// The cached node digests, root first.
    pub closed spec fn node_digests(&self) -> Seq<Seq<u8>> {
        self.nodes@.map_values(|d: [u8; 32]| d@)
    }

    /// Whether node `k` holds the digest that the current leaves call for.
    pub open spec fn node_ok(&self, k: nat) -> bool {
        self.node_digests()[k as int] == node_digest(
            self.leaf_digests(),
            self.node_digests().len(),
            k,
        )
    }

    /// The node array has the length that the leaf count calls for, and every
    /// node holds the digest of its children.
    pub open spec fn wf(&self) -> bool {
        &&& self.leaf_seq().len() <= MAX_LEAVES
        &&& self.node_digests().len() == node_count(self.leaf_seq().len())
        &&& forall|k: nat| k < self.node_digests().len() ==> #[trigger] self.node_ok(k)
    }

    pub fn new() -> (r: Self)
        ensures
            r.wf(),
            r.leaf_seq() == Seq::<Leaf<T>>::empty(),
    {
        let r = MerkleTree { nodes: Vec::new(), leaves: Vec::new() };
        assert(r.node_digests() =~= Seq::<Seq<u8>>::empty());
        r
    }

    /// The root digest: node 0, or all zero bytes while there are fewer
    /// than two leaves.
    pub fn hash(&self) -> (r: [u8; 32])
        requires
            self.wf(),
        ensures
            r@ == root_digest(self.leaf_digests()),
    {
        if self.nodes.len() == 0 {
            let r = [0u8; 32];
            assert(r@ =~= default_digest());
            r
        } else {
            assert(self.node_ok(0));
            self.nodes[0]
        }
    }

    /// The node that summarises the pair of leaves holding leaf `i`.
    fn leaf_parent(&self, i: usize) -> (r: usize)
        requires
            self.nodes@.len() % 2 == 1,
            self.nodes@.len() < MAX_LEAVES * 4,
            i <= self.nodes@.len(),
        ensures
            r == self.nodes@.len() / 2 + i / 2,
            r < self.nodes@.len(),
    {
        self.nodes.len() / 2 + i / 2
    }

    /// The parent of node `i`.
    fn node_parent(&self, i: usize) -> (r: usize)
        requires
            i > 0,
        ensures
            r == (i - 1) / 2,
    {
        (i - 1) / 2
    }

    /// The left child of internal node `i`.
    fn left_child_node(&self, i: usize) -> (r: usize)
        requires
            i < MAX_LEAVES * 4,
        ensures
            r == 2 * i + 1,
    {
        i * 2 + 1
    }

    /// The left leaf below bottom-row node `i`.
    fn left_child_leaf(&self, i: usize) -> (r: usize)
        requires
            self.nodes@.len() / 2 <= i < self.nodes@.len(),
            self.nodes@.len() < MAX_LEAVES * 4,
        ensures
            r == 2 * (i - self.nodes@.len() / 2),
    {
        (i - self.nodes.len() / 2) * 2
    }

    /// The number of leaves.
    pub fn len(&self) -> (r: usize)
        ensures
            r == self.leaf_seq().len(),
    {
        self.leaves.len()
    }

    /// The cached node digests, root first.
    pub fn nodes(&self) -> (r: &[[u8; 32]])
        ensures
            r@.map_values(|d: [u8; 32]| d@) == self.node_digests(),
    {
        self.nodes.as_slice()
    }

    /// The leaves in order.
    pub fn leaves(&self) -> (r: &[Leaf<T>])
        ensures
            r@ == self.leaf_seq(),
    {
        self.leaves.as_slice()
    }

    /// Inserts `leaf` at position `i`, moving the leaves from `i` on up by one.
    pub fn insert(&mut self, i: usize, leaf: Leaf<T>)
        requires
            old(self).wf(),
            i <= old(self).leaf_seq().len(),
            old(self).leaf_seq().len() < MAX_LEAVES,
        ensures
            final(self).wf(),
            final(self).leaf_seq() == old(self).leaf_seq().insert(i as int, leaf),
    {
        let ghost h = leaf.hash@;
        proof {
            lemma_node_count_shape(self.leaves@.len());
            lemma_node_count_shape(self.leaves@.len() + 1);
        }
        self.leaves.insert(i, leaf);
        assert(self.leaf_digests() =~= old(self).leaf_digests().insert(i as int, h));
        let l = self.leaves.len();
        let n = self.nodes.len();
        if n == 0 {
            if l == 2 {
                self.nodes.push([0u8; 32]);
                proof {
                    assert(in_band_or_above(0, 1, 0)) by {
                        assert(on_path(0, 0));
                    }
                }
                self.rehash_nodes(0, 1);
            }
        } else if l == n + 2 {
            // The bottom row is full: add a level below it and rebuild.
            let ghost lv = self.leaves@;
            let mut m: usize = 0;
            while m <= n
                invariant
                    m <= n + 1,
                    self.nodes@.len() == n + m,
                    self.leaves@ == lv,
                    n < MAX_LEAVES * 2,
                decreases n + 1 - m,
            {
                self.nodes.push([0u8; 32]);
                m = m + 1;
            }
            proof {
                lemma_full_odd((2 * n + 1) as nat);
                lemma_node_count_unique(l as nat, (2 * n + 1) as nat);
                assert forall|k: nat| k < 2 * n + 1 implies #[trigger] in_band_or_above(
                    0,
                    (2 * n + 1) as nat,
                    k,
                ) by {
                    assert(on_path(k, k));
                }
            }
            self.rehash_nodes(0, 2 * n + 1);
        } else {
            let p = self.leaf_parent(i);
            proof {
                lemma_full_odd(n as nat);
                lemma_node_count_unique(l as nat, n as nat);
                assert forall|j: int| 0 <= j < 2 * (p - n / 2) implies #[trigger] leaf_bytes(
                    self.leaf_digests(),
                    j,
                ) == leaf_bytes(old(self).leaf_digests(), j) by {}
                assert forall|k: nat|
                    k < n && !in_band_or_above(p as nat, n as nat, k) implies #[trigger] self.node_ok(
                    k,
                ) by {
                    assert(old(self).node_ok(k));
                    lemma_left_unchanged(
                        self.leaf_digests(),
                        old(self).leaf_digests(),
                        n as nat,
                        p as nat,
                        k,
                    );
                }
            }
            self.rehash_nodes(p, n);
        }
    }

    /// Removes the leaf at position `i`, moving the leaves after it down by one.
    pub fn remove(&mut self, i: usize)
        requires
            old(self).wf(),
            i < old(self).leaf_seq().len(),
        ensures
            final(self).wf(),
            final(self).leaf_seq() == old(self).leaf_seq().remove(i as int),
    {
        proof {
            lemma_node_count_shape(self.leaves@.len());
            lemma_node_count_shape((self.leaves@.len() - 1) as nat);
        }
        self.leaves.remove(i);
        assert(self.leaf_digests() =~= old(self).leaf_digests().remove(i as int));
        let l = self.leaves.len();
        let n = self.nodes.len();
        if l <= 1 {
            self.nodes.clear();
            assert(self.node_digests() =~= Seq::<Seq<u8>>::empty());
        } else if 2 * l <= n + 1 {
            // The bottom row is over half empty: drop it and rebuild.
            let m = (n - 1) / 2;
            self.nodes.truncate(m);
            proof {
                lemma_full_odd(n as nat);
                lemma_full_odd(m as nat);
                lemma_node_count_unique(l as nat, m as nat);
                assert forall|k: nat| k < m implies #[trigger] in_band_or_above(0, m as nat, k) by {
                    assert(on_path(k, k));
                }
            }
            self.rehash_nodes(0, m);
        } else {
            let p = self.leaf_parent(i);
            proof {
                lemma_full_odd(n as nat);
                lemma_node_count_unique(l as nat, n as nat);
                assert forall|j: int| 0 <= j < 2 * (p - n / 2) implies #[trigger] leaf_bytes(
                    self.leaf_digests(),
                    j,
                ) == leaf_bytes(old(self).leaf_digests(), j) by {}
                assert forall|k: nat|
                    k < n && !in_band_or_above(p as nat, n as nat, k) implies #[trigger] self.node_ok(
                    k,
                ) by {
                    assert(old(self).node_ok(k));
                    lemma_left_unchanged(
                        self.leaf_digests(),
                        old(self).leaf_digests(),
                        n as nat,
                        p as nat,
                        k,
                    );
                }
            }
            self.rehash_nodes(p, n);
        }
    }

    /// Puts `leaf` in place of the leaf at position `i`. Only the nodes on
    /// the path from that leaf's parent up to the root change.
    pub fn replace(&mut self, i: usize, leaf: Leaf<T>)
        requires
            old(self).wf(),
            i < old(self).leaf_seq().len(),
        ensures
            final(self).wf(),
            final(self).leaf_seq() == old(self).leaf_seq().update(i as int, leaf),
            final(self).node_digests().len() == old(self).node_digests().len(),
            forall|k: nat|
                k < old(self).node_digests().len() && !on_path(
                    k,
                    leaf_parent_of(old(self).node_digests().len(), i as nat),
                ) ==> #[trigger] final(self).node_digests()[k as int] == old(
                    self,
                ).node_digests()[k as int],
    {
        let ghost h = leaf.hash@;
        self.leaves.set(i, leaf);
        assert(self.leaf_digests() =~= old(self).leaf_digests().update(i as int, h));
        if self.nodes.len() > 0 {
            proof {
                lemma_node_count_shape(self.leaves@.len());
            }
            let p = self.leaf_parent(i);
            proof {
                lemma_full_odd(self.nodes@.len() as nat);
                assert forall|k: nat|
                    k < self.nodes@.len() && !in_band_or_above(p as nat, (p + 1) as nat, k) implies #[trigger] self.node_ok(k) by {
                    assert(on_path(p as nat, p as nat));
                    if on_path(k, p as nat) {
                        assert(in_band_or_above(p as nat, (p + 1) as nat, k));
                    }
                    assert(old(self).node_ok(k));
                    lemma_off_path_unchanged(
                        old(self).leaf_digests(),
                        self.leaf_digests(),
                        self.nodes@.len() as nat,
                        i as nat,
                        k,
                    );
                }
            }
            self.rehash_nodes(p, p + 1);
            proof {
                assert forall|k: nat|
                    k < self.nodes@.len() && !on_path(k, p as nat) implies !in_band_or_above(
                    p as nat,
                    (p + 1) as nat,
                    k,
                ) by {
                    if in_band_or_above(p as nat, (p + 1) as nat, k) {
                        let b = choose|b: nat| p <= b < p + 1 && #[trigger] on_path(k, b);
                        assert(b == p);
                    }
                }
            }
        }
    }

    /// Appends `leaf` after the last leaf.
    pub fn push(&mut self, leaf: Leaf<T>)
        requires
            old(self).wf(),
            old(self).leaf_seq().len() < MAX_LEAVES,
        ensures
            final(self).wf(),
            final(self).leaf_seq() == old(self).leaf_seq().push(leaf),
    {
        let n = self.leaves.len();
        self.insert(n, leaf);
        assert(old(self).leaf_seq().insert(n as int, leaf) =~= old(self).leaf_seq().push(leaf));
    }

    /// Recomputes node `i` from its children as they are stored: the two
    /// leaf digests below a bottom-row node (a missing leaf adds no bytes),
    /// or the two node digests below an internal node.
    fn rehash_node(&mut self, i: usize)
        requires
            i < old(self).nodes@.len(),
            old(self).nodes@.len() % 2 == 1,
            old(self).nodes@.len() < MAX_LEAVES * 4,
            old(self).leaves@.len() <= MAX_LEAVES,
        ensures
            final(self).leaves@ == old(self).leaves@,
            final(self).nodes@ == old(self).nodes@.update(
                i as int,
                final(self).nodes@[i as int],
            ),
            is_leaf_parent(old(self).nodes@.len(), i as nat) ==> final(self).node_digests()[i as int]
                == sha256_of(
                leaf_bytes(
                    old(self).leaf_digests(),
                    2 * (i - old(self).nodes@.len() / 2),
                ) + leaf_bytes(
                    old(self).leaf_digests(),
                    2 * (i - old(self).nodes@.len() / 2) + 1,
                ),
            ),
            !is_leaf_parent(old(self).nodes@.len(), i as nat) ==> final(self).node_digests()[i as int]
                == sha256_of(
                old(self).node_digests()[2 * i + 1] + old(self).node_digests()[2 * i + 2],
            ),
            (!is_leaf_parent(old(self).nodes@.len(), i as nat) ==> old(self).node_ok(
                2 * i as nat + 1,
            ) && old(self).node_ok(2 * i as nat + 2)) ==> final(self).node_ok(i as nat),
            forall|k: nat|
                k < old(self).nodes@.len() && k != i ==> (#[trigger] final(self).node_ok(k)
                    <==> old(self).node_ok(k)),
    {
        let ghost hs = self.leaf_digests();
        let ghost prev = self.node_digests();
        let ghost n = self.nodes@.len();
        let mut buf: Vec<u8> = Vec::new();
        if i * 2 + 1 >= self.nodes.len() {
            let j = self.left_child_leaf(i);
            if j < self.leaves.len() {
                append_digest(&mut buf, &self.leaves[j].hash);
            }
            if j + 1 < self.leaves.len() {
                append_digest(&mut buf, &self.leaves[j + 1].hash);
            }
            assert(buf@ =~= leaf_bytes(hs, j as int) + leaf_bytes(hs, j + 1));
        } else {
            let j = self.left_child_node(i);
            append_digest(&mut buf, &self.nodes[j]);
            append_digest(&mut buf, &self.nodes[j + 1]);
            assert(buf@ =~= prev[j as int] + prev[j + 1]);
        }
        let d = sha256(buf.as_slice());
        self.nodes.set(i, d);
        assert(self.leaf_digests() == hs);
        assert(self.node_digests() == prev.update(i as int, d@));
    }

    /// Recomputes the band of nodes `[start, end)` in descending order, then
    /// walks one level up (to the parents of the band's first and last
    /// nodes) and repeats, until the root has been recomputed. Every node in
    /// the band or above one of its nodes is recomputed after its children;
    /// no other node is touched.
    fn rehash_nodes(&mut self, start: usize, end: usize)
        requires
            full(old(self).nodes@.len() as nat),
            old(self).nodes@.len() < MAX_LEAVES * 4,
            old(self).leaves@.len() <= MAX_LEAVES,
            start < end <= old(self).nodes@.len(),
        ensures
            final(self).leaves@ == old(self).leaves@,
            final(self).nodes@.len() == old(self).nodes@.len(),
            forall|k: int|
                0 <= k < old(self).nodes@.len() && !in_band_or_above(
                    start as nat,
                    end as nat,
                    k as nat,
                ) ==> final(self).nodes@[k] == old(self).nodes@[k],
            (forall|k: nat|
                k < old(self).nodes@.len() && !in_band_or_above(start as nat, end as nat, k)
                    ==> #[trigger] old(self).node_ok(k)) ==> forall|k: nat|
                k < final(self).nodes@.len() ==> #[trigger] final(self).node_ok(k),
    {
        let ghost n = self.nodes@.len();
        let ghost outside_ok = forall|k: nat|
            k < n && !in_band_or_above(start as nat, end as nat, k) ==> #[trigger] self.node_ok(k);
        proof {
            lemma_full_odd(n as nat);
            assert forall|x: nat| start <= x < end implies #[trigger] in_band_or_above(
                start as nat,
                end as nat,
                x,
            ) by {
                assert(on_path(x, x));
            }
        }
        let mut s = start;
        let mut e = end;
        loop
            invariant
                n == self.nodes@.len(),
                n % 2 == 1,
                n < MAX_LEAVES * 4,
                self.leaves@ == old(self).leaves@,
                self.leaves@.len() <= MAX_LEAVES,
                s < e <= n,
                forall|x: nat| s <= x < e ==> #[trigger] in_band_or_above(start as nat, end as nat, x),
                forall|k: int|
                    0 <= k < n && !in_band_or_above(start as nat, end as nat, k as nat)
                        ==> self.nodes@[k] == old(self).nodes@[k],
                outside_ok ==> forall|k: nat|
                    k < n && !in_band_or_above(s as nat, e as nat, k) ==> #[trigger] self.node_ok(k),
            ensures
                n == self.nodes@.len(),
                self.leaves@ == old(self).leaves@,
                forall|k: int|
                    0 <= k < n && !in_band_or_above(start as nat, end as nat, k as nat)
                        ==> self.nodes@[k] == old(self).nodes@[k],
                outside_ok ==> forall|k: nat| k < n ==> #[trigger] self.node_ok(k),
            decreases s,
        {
            proof {
                assert forall|j: nat| e <= j implies !#[trigger] in_band_or_above(
                    s as nat,
                    e as nat,
                    j,
                ) by {
                    if in_band_or_above(s as nat, e as nat, j) {
                        let b = choose|b: nat| s <= b < e && #[trigger] on_path(j, b);
                        lemma_on_path_le(j, b);
                    }
                }
            }
            let mut k = e;
            while k > s
                invariant
                    n == self.nodes@.len(),
                    n % 2 == 1,
                    n < MAX_LEAVES * 4,
                    self.leaves@ == old(self).leaves@,
                    self.leaves@.len() <= MAX_LEAVES,
                    s <= k <= e <= n,
                    forall|x: nat|
                        s <= x < e ==> #[trigger] in_band_or_above(start as nat, end as nat, x),
                    forall|k: int|
                        0 <= k < n && !in_band_or_above(start as nat, end as nat, k as nat)
                            ==> self.nodes@[k] == old(self).nodes@[k],
                    outside_ok ==> forall|j: nat|
                        j < n && (k <= j || !in_band_or_above(s as nat, e as nat, j))
                            ==> #[trigger] self.node_ok(j),
                decreases k,
            {
                k = k - 1;
                assert(in_band_or_above(start as nat, end as nat, k as nat));
                self.rehash_node(k);
            }
            if s == 0 {
                break;
            }
            let ghost old_s = s;
            let ghost old_e = e;
            s = self.node_parent(s);
            e = e / 2;
            proof {
                assert forall|j: nat|
                    j < n && !in_band_or_above(s as nat, e as nat, j) implies (old_s <= j
                    || !in_band_or_above(old_s as nat, old_e as nat, j)) by {
                    if j < old_s && in_band_or_above(old_s as nat, old_e as nat, j) {
                        lemma_band_step(old_s as nat, old_e as nat, j);
                    }
                }
                assert forall|x: nat| s <= x < e implies #[trigger] in_band_or_above(
                    start as nat,
                    end as nat,
                    x,
                ) by {
                    let c: nat = if 2 * x + 1 >= old_s {
                        (2 * x + 1) as nat
                    } else {
                        (2 * x + 2) as nat
                    };
                    assert(old_s <= c < old_e);
                    assert(in_band_or_above(start as nat, end as nat, c));
                    let b = choose|b: nat| start <= b < end && #[trigger] on_path(c, b);
                    lemma_on_path_parent(c, b);
                    assert(on_path(x, b));
                }
            }
        }
    }
}

impl<T> Default for MerkleTree<T> {
    fn default() -> (r: Self)
        ensures
            r.wf(),
            r.leaf_seq() == Seq::<Leaf<T>>::empty(),
    {
        Self::new()
    }
}

} // verus!
