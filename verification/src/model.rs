//! Mathematical model of the binary tree's index arithmetic.
//!
//! The tree is stored as a 1-indexed array: node `i` has children `2i` and
//! `2i + 1` and parent `i / 2`; the root is index 1. For a tree of depth `d`
//! the leaves occupy the contiguous index range `[2^(d-1) + 1, 2^d]`.

use vstd::prelude::*;

verus! {

/// 2 to the power `e`.
pub open spec fn pow2(e: nat) -> nat
    decreases e,
{
    if e == 0 {
        1
    } else {
        2 * pow2((e - 1) as nat)
    }
}

/// Node `a` lies on the path from the root to node `d` (inclusive):
/// repeatedly halving `d` reaches `a`.
pub open spec fn is_ancestor_of(a: nat, d: nat) -> bool
    decreases d,
{
    if d <= a {
        d == a
    } else {
        is_ancestor_of(a, (d / 2) as nat)
    }
}

/// The node reached from `start` after `k` halvings: the `k`-th entry of the
/// path from `start` up to the root.
pub open spec fn chain(start: nat, k: nat) -> nat
    decreases k,
{
    if k == 0 {
        start
    } else {
        chain((start / 2) as nat, (k - 1) as nat)
    }
}

/// Number of nodes on the path from `start` up to the root (index 1),
/// both endpoints included.
pub open spec fn path_len(start: nat) -> nat
    decreases start,
{
    if start <= 1 {
        1
    } else {
        1 + path_len((start / 2) as nat)
    }
}

/// Halving the `k`-th node of a chain gives the `k+1`-st.
pub proof fn lemma_chain_step(start: nat, k: nat)
    ensures
        chain(start, k + 1) == chain(start, k) / 2,
    decreases k,
{
    if k == 0 {
        assert(chain(start, 1) == chain((start / 2) as nat, 0));
    } else {
        lemma_chain_step((start / 2) as nat, (k - 1) as nat);
        assert(chain(start, k + 1) == chain((start / 2) as nat, k));
    }
}

/// A chain is weakly decreasing, and strictly so while it is above 1.
pub proof fn lemma_chain_le(start: nat, k: nat)
    ensures
        chain(start, k) <= start,
    decreases k,
{
    if k > 0 {
        lemma_chain_le((start / 2) as nat, (k - 1) as nat);
    }
}

/// For a start node of positive index, the chain stays positive up to the
/// last path position, where it reaches the root.
pub proof fn lemma_chain_root(start: nat)
    requires
        start >= 1,
    ensures
        forall|k: nat| k < path_len(start) ==> #[trigger] chain(start, k) >= 1,
        chain(start, (path_len(start) - 1) as nat) == 1,
        forall|k: nat| k + 1 < path_len(start) ==> #[trigger] chain(start, k) > chain(
            start,
            k + 1,
        ),
    decreases start,
{
    if start == 1 {
        assert(chain(start, 0) == 1);
    } else {
        let h = (start / 2) as nat;
        lemma_chain_root(h);
        assert forall|k: nat| k < path_len(start) implies #[trigger] chain(start, k) >= 1 by {
            if k > 0 {
                assert(chain(start, k) == chain(h, (k - 1) as nat));
            }
        }
        assert(chain(start, (path_len(start) - 1) as nat) == chain(
            h,
            (path_len(h) - 1) as nat,
        ));
        assert forall|k: nat| k + 1 < path_len(start) implies #[trigger] chain(start, k) > chain(
            start,
            k + 1,
        ) by {
            if k == 0 {
                assert(chain(start, 0) == start);
                lemma_chain_step(start, 0);
            } else {
                assert(chain(start, k) == chain(h, (k - 1) as nat));
                assert(chain(start, k + 1) == chain(h, k));
            }
        }
    }
}

/// Entries of a chain at distinct positions are distinct nodes: the chain is
/// strictly decreasing while it is above the root.
pub proof fn lemma_chain_between(start: nat, k1: nat, k2: nat)
    requires
        start >= 1,
        k1 < k2 < path_len(start),
    ensures
        chain(start, k1) > chain(start, k2),
    decreases k2 - k1,
{
    lemma_chain_root(start);
    if k1 + 1 < k2 {
        lemma_chain_between(start, (k1 + 1) as nat, k2);
    }
}

/// The ancestors of `d` are exactly the nodes of the chain from `d` to the
/// root: the path-membership reading of `is_ancestor_of`.
pub proof fn lemma_ancestor_iff_on_chain(a: nat, d: nat)
    requires
        a >= 1,
        d >= 1,
    ensures
        is_ancestor_of(a, d) <==> exists|k: nat| k < path_len(d) && a == chain(d, k),
    decreases d,
{
    if d <= a {
        if d == a {
            assert(chain(d, 0) == a);
            assert(0 < path_len(d));
        } else {
            // d < a: every chain entry is at most d, hence below a.
            assert forall|k: nat| k < path_len(d) implies a != chain(d, k) by {
                lemma_chain_le(d, k);
            }
        }
    } else {
        let h = (d / 2) as nat;
        lemma_ancestor_iff_on_chain(a, h);
        if is_ancestor_of(a, d) {
            let k = choose|k: nat| k < path_len(h) && a == chain(h, k);
            assert(chain(d, k + 1) == chain(h, k));
            assert(k + 1 < path_len(d));
        } else {
            assert forall|k: nat| k < path_len(d) implies a != chain(d, k) by {
                if k == 0 {
                    assert(chain(d, 0) == d);
                } else {
                    assert(chain(d, k) == chain(h, (k - 1) as nat));
                }
            }
        }
    }
}

/// The ancestor relation is reflexive: every node lies on its own path.
pub proof fn lemma_ancestor_refl(a: nat)
    ensures
        is_ancestor_of(a, a),
{
}

/// The root, index 1, is an ancestor of every positive index.
pub proof fn lemma_root_is_ancestor(d: nat)
    requires
        d >= 1,
    ensures
        is_ancestor_of(1, d),
    decreases d,
{
    if d > 1 {
        lemma_root_is_ancestor((d / 2) as nat);
    }
}

/// `pow2` is monotone.
pub proof fn lemma_pow2_le(e1: nat, e2: nat)
    requires
        e1 <= e2,
    ensures
        pow2(e1) <= pow2(e2),
    decreases e2,
{
    if e1 < e2 {
        lemma_pow2_le(e1, (e2 - 1) as nat);
    }
}

} // verus!
