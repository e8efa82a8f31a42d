//! The mathematical model of the tree: which node array a leaf sequence
//! calls for, and which digest every node of it holds.
use vstd::prelude::*;

use crate::hashing::{default_digest, sha256_of};

verus! {

/// The digest of leaf `j`, or no bytes at all when there is no such leaf.
pub open spec fn leaf_bytes(hs: Seq<Seq<u8>>, j: int) -> Seq<u8> {
    if 0 <= j < hs.len() {
        hs[j]
    } else {
        Seq::empty()
    }
}

/// Whether `n` nodes fill whole levels of a binary tree: 0, 1, 3, 7, 15, ...
pub open spec fn full(n: nat) -> bool
    decreases n,
{
    n == 0 || (n % 2 == 1 && full(((n - 1) / 2) as nat))
}

/// The length of the node array for `n` leaves: none for fewer than two
/// leaves, else the smallest full tree whose bottom row of leaf parents
/// can hold a pair of leaves each.
pub open spec fn node_count(n: nat) -> nat
    decreases n,
{
    if n <= 1 {
        0
    } else if n == 2 {
        1
    } else {
        2 * node_count(((n + 1) / 2) as nat) + 1
    }
}

/// Whether node `k` of an array of `n` nodes sits in the bottom row, so that
/// its children are leaves.
pub open spec fn is_leaf_parent(n: nat, k: nat) -> bool {
    2 * k + 1 >= n
}

/// The digest that node `k` holds in a node array of length `n` over the
/// leaf digests `hs`: the digest of its two children's digests, where the
/// children of a bottom-row node are the leaves `2 * (k - n / 2)` and the
/// one after it, a missing leaf adding no bytes.
pub open spec fn node_digest(hs: Seq<Seq<u8>>, n: nat, k: nat) -> Seq<u8>
    decreases n - k,
{
    if is_leaf_parent(n, k) {
        let j = 2 * (k - n / 2);
        sha256_of(leaf_bytes(hs, j) + leaf_bytes(hs, j + 1))
    } else {
        sha256_of(node_digest(hs, n, 2 * k + 1) + node_digest(hs, n, 2 * k + 2))
    }
}

/// The root digest of a tree over the leaf digests `hs`.
pub open spec fn root_digest(hs: Seq<Seq<u8>>) -> Seq<u8> {
    let n = node_count(hs.len());
    if n == 0 {
        default_digest()
    } else {
        node_digest(hs, n, 0)
    }
}

/// The bottom-row node above leaf `i` in a node array of length `n`.
pub open spec fn leaf_parent_of(n: nat, i: nat) -> nat {
    n / 2 + i / 2
}

/// Whether node `a` lies on the path from node `k` up to the root.
pub open spec fn on_path(a: nat, k: nat) -> bool
    decreases k,
{
    k == a || (k > 0 && on_path(a, ((k - 1) / 2) as nat))
}

/// Whether node `k` is in the band of nodes `[start, end)` or above one of
/// its nodes.
pub open spec fn in_band_or_above(start: nat, end: nat, k: nat) -> bool {
    exists|b: nat| start <= b < end && #[trigger] on_path(k, b)
}

pub proof fn lemma_node_count_shape(n: nat)
    ensures
        n <= 1 ==> node_count(n) == 0,
        n >= 2 ==> {
            &&& full(node_count(n))
            &&& node_count(n) >= 1
            &&& n <= node_count(n) + 1
            &&& (node_count(n) == 1 || node_count(n) + 1 < 2 * n)
        },
    decreases n,
{
    if n > 2 {
        let h = node_count(((n + 1) / 2) as nat);
        lemma_node_count_shape(((n + 1) / 2) as nat);
        lemma_full_odd(h);
        let m = node_count(n);
        assert(m == 2 * h + 1);
        assert(((m - 1) / 2) as nat == h);
        assert(n <= m + 1);
        assert(m + 1 < 2 * n);
        assert(full(m));
    } else if n == 2 {
        assert(full(0));
        assert(full(1));
    }
}

pub proof fn lemma_node_count_unique(n: nat, m: nat)
    requires
        n >= 2,
        full(m),
        m >= 1,
        n <= m + 1,
        m == 1 || m + 1 < 2 * n,
    ensures
        m == node_count(n),
    decreases n,
{
    if n > 2 {
        let h = ((m - 1) / 2) as nat;
        assert(m % 2 == 1);
        assert(full(h));
        lemma_node_count_unique(((n + 1) / 2) as nat, h);
    } else {
        assert(m < 3);
        assert(m == 1);
    }
}

pub proof fn lemma_full_odd(n: nat)
    requires
        full(n),
        n > 0,
    ensures
        n % 2 == 1,
        full(((n - 1) / 2) as nat),
{
}

pub proof fn lemma_on_path_le(a: nat, k: nat)
    requires
        on_path(a, k),
    ensures
        a <= k,
    decreases k,
{
    if k != a {
        lemma_on_path_le(a, ((k - 1) / 2) as nat);
    }
}

pub proof fn lemma_on_path_parent(a: nat, k: nat)
    requires
        a > 0,
        on_path(a, k),
    ensures
        on_path(((a - 1) / 2) as nat, k),
    decreases k,
{
    let p = ((a - 1) / 2) as nat;
    if k == a {
        assert(on_path(p, p));
    } else {
        lemma_on_path_parent(a, ((k - 1) / 2) as nat);
    }
}

/// Changing one leaf leaves every node digest off that leaf's path unchanged.
pub proof fn lemma_off_path_unchanged(
    hs: Seq<Seq<u8>>,
    gs: Seq<Seq<u8>>,
    n: nat,
    i: nat,
    k: nat,
)
    requires
        n % 2 == 1,
        i < hs.len(),
        gs.len() == hs.len(),
        forall|j: int| 0 <= j < hs.len() && j != i ==> gs[j] == hs[j],
        k < n,
        !on_path(k, n / 2 + i / 2),
    ensures
        node_digest(gs, n, k) == node_digest(hs, n, k),
    decreases n - k,
{
    if is_leaf_parent(n, k) {
        let j = 2 * (k - n / 2);
        assert(leaf_bytes(gs, j) == leaf_bytes(hs, j));
        assert(leaf_bytes(gs, j + 1) == leaf_bytes(hs, j + 1));
    } else {
        let p = n / 2 + i / 2;
        if on_path(2 * k + 1, p) {
            lemma_on_path_parent(2 * k + 1, p);
        }
        if on_path(2 * k + 2, p) {
            lemma_on_path_parent(2 * k + 2, p);
        }
        lemma_off_path_unchanged(hs, gs, n, i, 2 * k + 1);
        lemma_off_path_unchanged(hs, gs, n, i, 2 * k + 2);
    }
}

/// A node below the start of a band that is in the band or above it is
/// above the band that the walk reaches one level up.
pub proof fn lemma_band_step(s: nat, e: nat, j: nat)
    requires
        0 < s < e,
        j < s,
        in_band_or_above(s, e, j),
    ensures
        in_band_or_above(((s - 1) / 2) as nat, e / 2, j),
{
    let b = choose|b: nat| s <= b < e && #[trigger] on_path(j, b);
    let c = ((b - 1) / 2) as nat;
    assert(on_path(j, c));
    assert(((s - 1) / 2) as nat <= c < e / 2);
}

/// A node neither in the band `[p, n)` nor above it keeps its digest when
/// only leaves below the band's first bottom-row node stay as they were.
pub proof fn lemma_left_unchanged(hs: Seq<Seq<u8>>, gs: Seq<Seq<u8>>, n: nat, p: nat, k: nat)
    requires
        n % 2 == 1,
        n / 2 <= p,
        forall|j: int| 0 <= j < 2 * (p - n / 2) ==> #[trigger] leaf_bytes(gs, j) == leaf_bytes(hs, j),
        k < n,
        !in_band_or_above(p, n, k),
    ensures
        node_digest(gs, n, k) == node_digest(hs, n, k),
    decreases n - k,
{
    if is_leaf_parent(n, k) {
        if k >= p {
            assert(on_path(k, k));
        }
        let j = 2 * (k - n / 2);
        assert(leaf_bytes(gs, j) == leaf_bytes(hs, j));
        assert(leaf_bytes(gs, j + 1) == leaf_bytes(hs, j + 1));
    } else {
        let c1 = 2 * k + 1;
        let c2 = 2 * k + 2;
        if in_band_or_above(p, n, c1) {
            let b = choose|b: nat| p <= b < n && #[trigger] on_path(c1, b);
            lemma_on_path_parent(c1, b);
        }
        if in_band_or_above(p, n, c2) {
            let b = choose|b: nat| p <= b < n && #[trigger] on_path(c2, b);
            lemma_on_path_parent(c2, b);
        }
        lemma_left_unchanged(hs, gs, n, p, c1);
        lemma_left_unchanged(hs, gs, n, p, c2);
    }
}

} // verus!
