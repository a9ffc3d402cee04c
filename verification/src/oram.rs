//! The access engine: it owns the tree, the position map and the random
//! source, and serves logical read/write requests so that the sequence of
//! tree locations touched is independent of the addresses accessed.
//!
//! The engine's abstract state is the partial memory `mem_at`: for each
//! logical address, the payload of the unique live block with that address,
//! if one exists. Every access rejects an out-of-range address before any
//! mutation, refreshes the accessed address's position-map entry exactly
//! once, and either applies the request in full or reports stash overflow.

use vstd::prelude::*;
use vstd::seq_lib::group_seq_properties;
use vstd::set_lib::{lemma_int_range, lemma_len_subset, set_int_range};

use crate::model::{
    chain, is_ancestor_of, lemma_ancestor_iff_on_chain, lemma_chain_between, lemma_chain_root,
    lemma_chain_step, lemma_root_is_ancestor, path_len, pow2,
};
use crate::rng::new_thread_rng;
use crate::tree::{Block, Tree, TreeNode, STASH_SIZE};

verus! {

/// A request to read the value stored at one logical address.
#[derive(Clone, Copy)]
pub struct ReadInstruction {
    pub idx: usize,
}

/// A request to store `value` at one logical address.
#[derive(Clone, Copy)]
pub struct WriteInstruction {
    pub idx: usize,
    pub value: bool,
}

/// One logical request a client issues to the engine.
#[derive(Clone, Copy)]
pub enum Instruction {
    Read(ReadInstruction),
    Write(WriteInstruction),
}

impl Instruction {
    /// The logical address the request touches.
    pub open spec fn addr(self) -> nat {
        match self {
            Instruction::Read(r) => r.idx as nat,
            Instruction::Write(w) => w.idx as nat,
        }
    }
}

/// How an access can fail.
#[derive(Clone, Copy, Debug, PartialEq, Eq, Structural)]
pub enum OramError {
    /// The request names an address outside the configured space; nothing
    /// was touched.
    InvalidAddress,
    /// Eviction could not place every gathered block back on the path, even
    /// in the root stash.
    StashOverflow,
}

/// The address `a` occurs among the blocks of `w`.
pub open spec fn w_has(w: Seq<Block>, a: nat) -> bool {
    exists|k: int| 0 <= k < w.len() && (#[trigger] w[k]).idx == a
}

/// The value stored for address `a` among the blocks of `w`, if any.
pub open spec fn w_at(w: Seq<Block>, a: nat) -> Option<bool> {
    if w_has(w, a) {
        let k = choose|k: int| 0 <= k < w.len() && (#[trigger] w[k]).idx == a;
        Some(w[k].value)
    } else {
        None
    }
}

/// No two blocks of `w` share an address.
pub open spec fn w_distinct(w: Seq<Block>) -> bool {
    forall|k1: int, k2: int|
        0 <= k1 < w.len() && 0 <= k2 < w.len() && k1 != k2 ==> (#[trigger] w[k1]).idx != (
        #[trigger] w[k2]).idx
}

/// Every address of `w` is below `n`.
pub open spec fn w_bounded(w: Seq<Block>, n: nat) -> bool {
    forall|k: int| 0 <= k < w.len() ==> (#[trigger] w[k]).idx < n
}

/// The memory the access is required to produce, per address: a read leaves
/// everything as it was, a write replaces the accessed address's value.
pub open spec fn target_mem(pre: Oram, instr: Instruction, a: nat) -> Option<bool> {
    match instr {
        Instruction::Read(_) => pre.mem_at(a),
        Instruction::Write(w) => if a == w.idx as nat {
            Some(w.value)
        } else {
            pre.mem_at(a)
        },
    }
}

/// Number of occupied slots.
pub open spec fn count_some(s: Seq<Option<Block>>) -> nat
    decreases s.len(),
{
    if s.len() == 0 {
        0
    } else {
        count_some(s.drop_last()) + if s.last() is Some {
            1nat
        } else {
            0nat
        }
    }
}

/// Filling an unoccupied slot raises the occupancy by one.
pub proof fn lemma_count_some_update(s: Seq<Option<Block>>, i: int, b: Block)
    requires
        0 <= i < s.len(),
        s[i] is None,
    ensures
        count_some(s.update(i, Some(b))) == count_some(s) + 1,
    decreases s.len(),
{
    let s2 = s.update(i, Some(b));
    if i == s.len() - 1 {
        assert(s2.drop_last() =~= s.drop_last());
    } else {
        assert(s2.drop_last() =~= s.drop_last().update(i, Some(b)));
        lemma_count_some_update(s.drop_last(), i, b);
    }
}

/// A wholly unoccupied slot sequence has occupancy zero.
pub proof fn lemma_count_some_empty(s: Seq<Option<Block>>)
    requires
        forall|k: int| 0 <= k < s.len() ==> s[k] is None,
    ensures
        count_some(s) == 0,
    decreases s.len(),
{
    if s.len() > 0 {
        lemma_count_some_empty(s.drop_last());
    }
}

/// Occupancy never exceeds the number of slots.
pub proof fn lemma_count_some_le_len(s: Seq<Option<Block>>)
    ensures
        count_some(s) <= s.len(),
    decreases s.len(),
{
    if s.len() > 0 {
        lemma_count_some_le_len(s.drop_last());
    }
}

/// Occupancy of a prefix grows by one per occupied slot taken in.
pub proof fn lemma_count_some_take_step(s: Seq<Option<Block>>, i: int)
    requires
        0 <= i < s.len(),
    ensures
        count_some(s.take(i + 1)) == count_some(s.take(i)) + if s[i] is Some {
            1int
        } else {
            0int
        },
{
    assert(s.take(i + 1).drop_last() =~= s.take(i));
    assert(s.take(i + 1).last() == s[i]);
}

/// Total occupancy of the first `k` nodes of a gathered path.
pub open spec fn slots_load(path: Seq<TreeNode>, k: nat) -> nat
    decreases k,
{
    if k == 0 {
        0
    } else {
        slots_load(path, (k - 1) as nat) + count_some(path[k - 1].slots())
    }
}

/// Total occupancy of the first `k` nodes on the path from `leaf` to the
/// root.
pub open spec fn path_load_upto(o: Oram, leaf: nat, k: nat) -> nat
    decreases k,
{
    if k == 0 {
        0
    } else {
        path_load_upto(o, leaf, (k - 1) as nat) + count_some(
            o.tree.nodes@[chain(leaf, (k - 1) as nat) as int].slots(),
        )
    }
}

/// Total number of occupied slots on the path from `leaf` to the root: how
/// many blocks an access to an address currently assigned to `leaf` gathers.
pub open spec fn path_load(o: Oram, leaf: nat) -> nat {
    path_load_upto(o, leaf, path_len(leaf))
}

/// A gathered path whose nodes carry the slots of the tree nodes on the
/// chain from `leaf` has the same total occupancy as that path in the tree.
proof fn lemma_slots_load_eq_path_load(o: Oram, path: Seq<TreeNode>, leaf: nat, k: nat)
    requires
        forall|k2: int|
            0 <= k2 < path.len() ==> (#[trigger] path[k2]).slots() == o.tree.nodes@[chain(
                leaf,
                k2 as nat,
            ) as int].slots(),
        k <= path.len(),
    ensures
        slots_load(path, k) == path_load_upto(o, leaf, k),
    decreases k,
{
    if k > 0 {
        lemma_slots_load_eq_path_load(o, path, leaf, (k - 1) as nat);
    }
}

/// On a tree whose nodes are all empty, every path carries no blocks.
proof fn lemma_path_load_upto_empty(o: Oram, leaf: nat, k: nat)
    requires
        forall|j: int| 0 <= j < o.tree.nodes@.len() ==> (#[trigger] o.tree.nodes@[j]).empty(),
        forall|k2: nat| k2 < k ==> #[trigger] chain(leaf, k2) < o.tree.nodes@.len(),
    ensures
        path_load_upto(o, leaf, k) == 0,
    decreases k,
{
    if k > 0 {
        lemma_path_load_upto_empty(o, leaf, (k - 1) as nat);
        lemma_count_some_empty(o.tree.nodes@[chain(leaf, (k - 1) as nat) as int].slots());
    }
}

/// A slot sequence below full occupancy has an unoccupied slot.
pub proof fn lemma_count_some_not_full(s: Seq<Option<Block>>)
    requires
        count_some(s) < s.len(),
    ensures
        exists|k: int| 0 <= k < s.len() && s[k] is None,
    decreases s.len(),
{
    if s.last() is Some {
        lemma_count_some_not_full(s.drop_last());
        let k = choose|k: int| 0 <= k < s.drop_last().len() && s.drop_last()[k] is None;
        assert(s[k] is None);
    } else {
        assert(s[s.len() - 1] is None);
    }
}

/// In a duplicate-free block sequence, the entry at any position is the
/// lookup result for its address.
pub proof fn lemma_w_at_found(w: Seq<Block>, t: int)
    requires
        w_distinct(w),
        0 <= t < w.len(),
    ensures
        w_has(w, w[t].idx as nat),
        w_at(w, w[t].idx as nat) == Some(w[t].value),
{
    let a = w[t].idx as nat;
    assert(w_has(w, a));
    let k = choose|k: int| 0 <= k < w.len() && (#[trigger] w[k]).idx == a;
    assert(k == t);
}

/// Removing the one block that carries address `b.idx` from a duplicate-free
/// sequence changes no other address's lookup.
pub proof fn lemma_w_remove(w1: Seq<Block>, w2: Seq<Block>, b: Block, p: int)
    requires
        0 <= p <= w2.len(),
        w1 == w2.insert(p, b),
        w_distinct(w1),
    ensures
        w_distinct(w2),
        !w_has(w2, b.idx as nat),
        forall|a: nat| a != b.idx as nat ==> w_has(w1, a) == w_has(w2, a),
        forall|a: nat| a != b.idx as nat ==> w_at(w1, a) == w_at(w2, a),
{
    assert(w1.len() == w2.len() + 1);
    assert(forall|k: int| 0 <= k < p ==> w1[k] == w2[k]);
    assert(w1[p] == b);
    assert(forall|k: int| p <= k < w2.len() ==> w1[k + 1] == w2[k]);
    assert forall|k1: int, k2: int|
        0 <= k1 < w2.len() && 0 <= k2 < w2.len() && k1 != k2 implies (#[trigger] w2[k1]).idx != (
    #[trigger] w2[k2]).idx by {
        let m1: int = if k1 < p {
            k1
        } else {
            k1 + 1
        };
        let m2: int = if k2 < p {
            k2
        } else {
            k2 + 1
        };
        assert(w1[m1] == w2[k1] && w1[m2] == w2[k2]);
    }
    assert forall|k: int| 0 <= k < w2.len() implies (#[trigger] w2[k]).idx != b.idx by {
        let m: int = if k < p {
            k
        } else {
            k + 1
        };
        assert(w1[m] == w2[k]);
        assert(w1[p] == b);
    }
    assert forall|a: nat| a != b.idx as nat implies w_has(w1, a) == w_has(w2, a) by {
        if w_has(w1, a) {
            let k = choose|k: int| 0 <= k < w1.len() && (#[trigger] w1[k]).idx == a;
            let m: int = if k < p {
                k
            } else {
                k - 1
            };
            assert(w2[m] == w1[k]);
        }
        if w_has(w2, a) {
            let k = choose|k: int| 0 <= k < w2.len() && (#[trigger] w2[k]).idx == a;
            let m: int = if k < p {
                k
            } else {
                k + 1
            };
            assert(w1[m] == w2[k]);
        }
    }
    assert forall|a: nat| a != b.idx as nat implies w_at(w1, a) == w_at(w2, a) by {
        if w_has(w1, a) {
            let k1 = choose|k: int| 0 <= k < w1.len() && (#[trigger] w1[k]).idx == a;
            let m: int = if k1 < p {
                k1
            } else {
                k1 - 1
            };
            assert(w2[m] == w1[k1]);
            lemma_w_at_found(w2, m);
        }
    }
}

/// Replacing the block at position `t` by one with the same address changes
/// only that address's lookup.
pub proof fn lemma_w_update(w: Seq<Block>, t: int, b: Block)
    requires
        w_distinct(w),
        0 <= t < w.len(),
        w[t].idx == b.idx,
    ensures
        w_distinct(w.update(t, b)),
        w_has(w.update(t, b), b.idx as nat),
        w_at(w.update(t, b), b.idx as nat) == Some(b.value),
        forall|a: nat| a != b.idx as nat ==> w_has(w.update(t, b), a) == w_has(w, a),
        forall|a: nat| a != b.idx as nat ==> w_at(w.update(t, b), a) == w_at(w, a),
{
    let w2 = w.update(t, b);
    assert forall|k1: int, k2: int|
        0 <= k1 < w2.len() && 0 <= k2 < w2.len() && k1 != k2 implies (#[trigger] w2[k1]).idx != (
    #[trigger] w2[k2]).idx by {
        assert(w[k1].idx != w[k2].idx);
    }
    lemma_w_at_found(w2, t);
    assert forall|a: nat| a != b.idx as nat implies w_has(w2, a) == w_has(w, a) && w_at(w2, a)
        == w_at(w, a) by {
        if w_has(w, a) {
            let k = choose|k: int| 0 <= k < w.len() && (#[trigger] w[k]).idx == a;
            assert(w2[k] == w[k]);
            lemma_w_at_found(w, k);
            lemma_w_at_found(w2, k);
        } else {
            if w_has(w2, a) {
                let k = choose|k: int| 0 <= k < w2.len() && (#[trigger] w2[k]).idx == a;
                assert(w[k].idx == a);
            }
        }
    }
}

/// Appending a block with a fresh address changes only that address's
/// lookup.
pub proof fn lemma_w_push(w: Seq<Block>, b: Block)
    requires
        w_distinct(w),
        !w_has(w, b.idx as nat),
    ensures
        w_distinct(w.push(b)),
        w_has(w.push(b), b.idx as nat),
        w_at(w.push(b), b.idx as nat) == Some(b.value),
        forall|a: nat| a != b.idx as nat ==> w_has(w.push(b), a) == w_has(w, a),
        forall|a: nat| a != b.idx as nat ==> w_at(w.push(b), a) == w_at(w, a),
{
    let w2 = w.push(b);
    assert forall|k1: int, k2: int|
        0 <= k1 < w2.len() && 0 <= k2 < w2.len() && k1 != k2 implies (#[trigger] w2[k1]).idx != (
    #[trigger] w2[k2]).idx by {
        if k1 < w.len() && k2 < w.len() {
            assert(w[k1].idx != w[k2].idx);
        }
    }
    lemma_w_at_found(w2, w.len() as int);
    assert forall|a: nat| a != b.idx as nat implies w_has(w2, a) == w_has(w, a) && w_at(w2, a)
        == w_at(w, a) by {
        if w_has(w, a) {
            let k = choose|k: int| 0 <= k < w.len() && (#[trigger] w[k]).idx == a;
            assert(w2[k] == w[k]);
            lemma_w_at_found(w, k);
            lemma_w_at_found(w2, k);
        } else {
            if w_has(w2, a) {
                let k = choose|k: int| 0 <= k < w2.len() && (#[trigger] w2[k]).idx == a;
                assert(k < w.len() ==> w[k].idx == a);
                assert(k == w.len() ==> w2[k].idx == b.idx);
            }
        }
    }
}

/// A duplicate-free block sequence has at most as many blocks as it has
/// possible addresses.
pub proof fn lemma_w_len_le(w: Seq<Block>, n: nat)
    requires
        w_distinct(w),
        w_bounded(w, n),
    ensures
        w.len() <= n,
{
    broadcast use group_seq_properties;

    let idxs = w.map_values(|b: Block| b.idx as int);
    assert(idxs.no_duplicates());
    idxs.unique_seq_to_set();
    let range = set_int_range(0, n as int);
    lemma_int_range(0, n as int);
    assert(idxs.to_set().subset_of(range)) by {
        assert forall|x: int| idxs.to_set().contains(x) implies range.contains(x) by {
            let k = choose|k: int| 0 <= k < idxs.len() && idxs[k] == x;
        }
    }
    lemma_len_subset(idxs.to_set(), range);
}

/// Slot `(k, s)` comes strictly before slot `(bk, bs)` in the order the
/// gathering pass visits the slots of a path.
pub open spec fn slot_before(k: int, s: int, bk: int, bs: int) -> bool {
    k < bk || (k == bk && s < bs)
}

/// `b` occupies some slot of `path` visited before position `(bk, bs)`.
pub open spec fn in_path_prefix(path: Seq<TreeNode>, bk: int, bs: int, b: Block) -> bool {
    exists|k: int, s: int|
        0 <= k < path.len() && 0 <= s < path[k].slots().len() && slot_before(k, s, bk, bs) && (
        #[trigger] path[k].slots()[s]) == Some(b)
}

/// `b` occupies some slot of `path`.
pub open spec fn in_path(path: Seq<TreeNode>, b: Block) -> bool {
    exists|k: int, s: int|
        0 <= k < path.len() && 0 <= s < path[k].slots().len() && (#[trigger] path[k].slots()[s])
            == Some(b)
}

/// `w` holds the block `b` itself.
pub open spec fn w_contains(w: Seq<Block>, b: Block) -> bool {
    exists|t: int| 0 <= t < w.len() && w[t] == b
}

/// No two occupied slots of `path` share an address.
pub open spec fn path_distinct(path: Seq<TreeNode>) -> bool {
    forall|k1: int, s1: int, k2: int, s2: int|
        0 <= k1 < path.len() && 0 <= s1 < path[k1].slots().len() && 0 <= k2 < path.len() && 0 <= s2
            < path[k2].slots().len() && (k1 != k2 || s1 != s2) && (#[trigger] path[k1].slots()[s1])
            is Some && (#[trigger] path[k2].slots()[s2]) is Some ==> path[k1].slots()[s1].unwrap().idx
            != path[k2].slots()[s2].unwrap().idx
}

/// Flattens the occupied slots of a gathered path into one duplicate-free
/// working set: exactly the blocks that were on the path, each once.
fn collect_path_blocks(path: &Vec<TreeNode>) -> (w: Vec<Block>)
    requires
        path_distinct(path@),
    ensures
        w_distinct(w@),
        w@.len() == slots_load(path@, path@.len() as nat),
        forall|t: int| 0 <= t < w@.len() ==> in_path(path@, #[trigger] w@[t]),
        forall|k: int, s: int|
            0 <= k < path@.len() && 0 <= s < path@[k].slots().len() && (
            #[trigger] path@[k].slots()[s]) is Some ==> w_contains(
                w@,
                path@[k].slots()[s].unwrap(),
            ),
{
    let mut w: Vec<Block> = Vec::new();
    let mut k: usize = 0;
    while k < path.len()
        invariant
            k <= path@.len(),
            path_distinct(path@),
            w_distinct(w@),
            w@.len() == slots_load(path@, k as nat),
            forall|t: int|
                0 <= t < w@.len() ==> in_path_prefix(path@, k as int, 0, #[trigger] w@[t]),
            forall|k2: int, s2: int|
                0 <= k2 < k && 0 <= s2 < path@[k2].slots().len() && (
                #[trigger] path@[k2].slots()[s2]) is Some ==> w_contains(
                    w@,
                    path@[k2].slots()[s2].unwrap(),
                ),
        decreases path@.len() - k,
    {
        let node = &path[k];
        let m = node.num_slots();
        let mut s: usize = 0;
        while s < m
            invariant
                k < path@.len(),
                s <= m,
                m == path@[k as int].slots().len(),
                node == &path@[k as int],
                path_distinct(path@),
                w_distinct(w@),
                w@.len() == slots_load(path@, k as nat) + count_some(
                    path@[k as int].slots().take(s as int),
                ),
                forall|t: int|
                    0 <= t < w@.len() ==> in_path_prefix(
                        path@,
                        k as int,
                        s as int,
                        #[trigger] w@[t],
                    ),
                forall|k2: int, s2: int|
                    0 <= k2 < path@.len() && 0 <= s2 < path@[k2].slots().len() && slot_before(
                        k2,
                        s2,
                        k as int,
                        s as int,
                    ) && (#[trigger] path@[k2].slots()[s2]) is Some ==> w_contains(
                        w@,
                        path@[k2].slots()[s2].unwrap(),
                    ),
            decreases m - s,
        {
            let ghost w_pre = w@;
            let slot = node.get_slot(s);
            if let Some(b) = slot {
                proof {
                    // no earlier gathered block shares this address
                    assert forall|t: int| 0 <= t < w_pre.len() implies (#[trigger] w_pre[t]).idx
                        != b.idx by {
                        let (k2, s2) = choose|k2: int, s2: int|
                            0 <= k2 < path@.len() && 0 <= s2 < path@[k2].slots().len()
                                && slot_before(k2, s2, k as int, s as int) && (
                            #[trigger] path@[k2].slots()[s2]) == Some(w_pre[t]);
                        assert(path@[k2].slots()[s2] is Some);
                        assert(path@[k as int].slots()[s as int] is Some);
                    }
                }
                w.push(b);
            }
            proof {
                let bs2: int = s + 1;
                lemma_count_some_take_step(path@[k as int].slots(), s as int);
                // every block gathered so far sits in the widened prefix
                assert forall|t: int| 0 <= t < w@.len() implies in_path_prefix(
                    path@,
                    k as int,
                    bs2,
                    #[trigger] w@[t],
                ) by {
                    if t < w_pre.len() {
                        assert(w@[t] == w_pre[t]);
                        assert(in_path_prefix(path@, k as int, s as int, w_pre[t]));
                        let (k2, s2) = choose|k2: int, s2: int|
                            0 <= k2 < path@.len() && 0 <= s2 < path@[k2].slots().len()
                                && slot_before(k2, s2, k as int, s as int) && (
                            #[trigger] path@[k2].slots()[s2]) == Some(w_pre[t]);
                        assert(slot_before(k2, s2, k as int, bs2));
                    } else {
                        assert(path@[k as int].slots()[s as int] == Some(w@[t]));
                        assert(slot_before(k as int, s as int, k as int, bs2));
                    }
                }
                // every occupied slot of the widened prefix has been gathered
                assert forall|k2: int, s2: int|
                    0 <= k2 < path@.len() && 0 <= s2 < path@[k2].slots().len() && slot_before(
                        k2,
                        s2,
                        k as int,
                        bs2,
                    ) && (#[trigger] path@[k2].slots()[s2]) is Some implies w_contains(
                    w@,
                    path@[k2].slots()[s2].unwrap(),
                ) by {
                    if slot_before(k2, s2, k as int, s as int) {
                        let bl = path@[k2].slots()[s2].unwrap();
                        assert(w_contains(w_pre, bl));
                        let t = choose|t: int| 0 <= t < w_pre.len() && w_pre[t] == bl;
                        assert(w@[t] == bl);
                    } else {
                        assert(k2 == k as int && s2 == s as int);
                        assert(w@[w@.len() - 1] == path@[k2].slots()[s2].unwrap());
                    }
                }
            }
            s += 1;
        }
        proof {
            assert(path@[k as int].slots().take(m as int) =~= path@[k as int].slots());
            assert forall|t: int| 0 <= t < w@.len() implies in_path_prefix(
                path@,
                k + 1,
                0,
                #[trigger] w@[t],
            ) by {
                if in_path_prefix(path@, k as int, m as int, w@[t]) {
                    let (k2, s2) = choose|k2: int, s2: int|
                        0 <= k2 < path@.len() && 0 <= s2 < path@[k2].slots().len() && slot_before(
                            k2,
                            s2,
                            k as int,
                            m as int,
                        ) && (#[trigger] path@[k2].slots()[s2]) == Some(w@[t]);
                    assert(slot_before(k2, s2, k + 1, 0));
                }
            }
        }
        k += 1;
    }
    proof {
        assert forall|t: int| 0 <= t < w@.len() implies in_path(path@, #[trigger] w@[t]) by {
            if in_path_prefix(path@, path@.len() as int, 0, w@[t]) {
                let (k2, s2) = choose|k2: int, s2: int|
                    0 <= k2 < path@.len() && 0 <= s2 < path@[k2].slots().len() && slot_before(
                        k2,
                        s2,
                        path@.len() as int,
                        0,
                    ) && (#[trigger] path@[k2].slots()[s2]) == Some(w@[t]);
                assert(in_path(path@, w@[t]));
            }
        }
    }
    w
}

/// Services the logical request against the gathered working set: reports
/// the value currently stored for the accessed address, and for a write
/// replaces (or adds) that address's block.
fn update_working(working: &mut Vec<Block>, instr: Instruction) -> (found: Option<bool>)
    requires
        w_distinct(old(working)@),
    ensures
        w_distinct(final(working)@),
        found == w_at(old(working)@, instr.addr()),
        final(working)@.len() <= old(working)@.len() + (if instr is Write {
            1int
        } else {
            0int
        }),
        match instr {
            Instruction::Read(_) => final(working)@ == old(working)@,
            Instruction::Write(wi) => {
                &&& w_has(final(working)@, wi.idx as nat)
                &&& w_at(final(working)@, wi.idx as nat) == Some(wi.value)
                &&& forall|a: nat|
                    a != wi.idx as nat ==> w_has(final(working)@, a) == w_has(old(working)@, a)
                &&& forall|a: nat|
                    a != wi.idx as nat ==> w_at(final(working)@, a) == w_at(old(working)@, a)
                &&& forall|t: int|
                    0 <= t < final(working)@.len() ==> (#[trigger] final(working)@[t]).idx
                        == wi.idx || w_has(old(working)@, final(working)@[t].idx as nat)
            },
        },
{
    let idx: usize = match instr {
        Instruction::Read(ri) => ri.idx,
        Instruction::Write(wi) => wi.idx,
    };
    let mut t: usize = 0;
    let mut found: Option<bool> = None;
    let mut pos: usize = 0;
    while t < working.len() && found.is_none()
        invariant
            t <= working@.len(),
            working@ == old(working)@,
            w_distinct(working@),
            idx as nat == instr.addr(),
            match found {
                None => forall|t2: int| 0 <= t2 < t ==> (#[trigger] working@[t2]).idx != idx,
                Some(v) => pos < working@.len() && working@[pos as int].idx == idx && v
                    == working@[pos as int].value,
            },
        decreases working@.len() - t,
    {
        if working[t].idx == idx {
            found = Some(working[t].value);
            pos = t;
        }
        t += 1;
    }
    proof {
        match found {
            Some(_) => {
                lemma_w_at_found(working@, pos as int);
            },
            None => {
                assert(!w_has(working@, idx as nat)) by {
                    if w_has(working@, idx as nat) {
                        let k = choose|k: int|
                            0 <= k < working@.len() && (#[trigger] working@[k]).idx
                                == idx as nat;
                        assert(working@[k].idx != idx);
                    }
                }
            },
        }
    }
    match instr {
        Instruction::Read(_) => found,
        Instruction::Write(wi) => {
            let b = Block { idx, value: wi.value };
            if found.is_some() {
                proof {
                    lemma_w_update(working@, pos as int, b);
                }
                working.set(pos, b);
            } else {
                proof {
                    lemma_w_push(working@, b);
                }
                working.push(b);
            }
            proof {
                assert forall|t2: int| 0 <= t2 < working@.len() implies (
                #[trigger] working@[t2]).idx == wi.idx || w_has(
                    old(working)@,
                    working@[t2].idx as nat,
                ) by {
                    if working@[t2].idx != wi.idx {
                        assert(working@[t2] == old(working)@[t2]);
                    }
                }
            }
            found
        },
    }
}

/// The working set of the eviction pass: the blocks not yet placed back,
/// namely those already passed over (`kept`) and those not yet considered.
pub open spec fn live_set(kept: Seq<Block>, working: Seq<Block>, t: int) -> Seq<Block> {
    kept + working.subrange(t, working.len() as int)
}

/// After a path has been gathered into `w` and cleared in the tree, the
/// tree-plus-working-set view equals the memory before the access: the
/// working set holds exactly the blocks that were on the path, the tree the
/// rest, and no address is in both.
proof fn lemma_extraction(pre: Oram, cur: Oram, path: Seq<TreeNode>, w: Seq<Block>, leaf: nat)
    requires
        pre.inv(),
        cur.tree.nodes@.len() == pre.tree.nodes@.len(),
        1 <= leaf < pre.tree.nodes@.len(),
        path.len() == path_len(leaf),
        forall|k: int|
            0 <= k < path.len() ==> (#[trigger] path[k]).slots() == pre.tree.nodes@[chain(
                leaf,
                k as nat,
            ) as int].slots(),
        forall|k: int| 0 <= k < path.len() ==> 1 <= #[trigger] chain(leaf, k as nat) < pre.tree.nodes@.len(),
        forall|j: int|
            1 <= j < cur.tree.nodes@.len() && is_ancestor_of(j as nat, leaf) ==> (
            #[trigger] cur.tree.nodes@[j]).empty(),
        forall|j: int|
            0 <= j < cur.tree.nodes@.len() && !is_ancestor_of(j as nat, leaf)
                ==> cur.tree.nodes@[j] == pre.tree.nodes@[j],
        w_distinct(w),
        forall|t: int| 0 <= t < w.len() ==> in_path(path, #[trigger] w[t]),
        forall|k: int, s: int|
            0 <= k < path.len() && 0 <= s < path[k].slots().len() && (
            #[trigger] path[k].slots()[s]) is Some ==> w_contains(w, path[k].slots()[s].unwrap()),
    ensures
        cur.unique_blocks(),
        w_bounded(w, pre.n()),
        cur.w_tree_disjoint(w),
        forall|a: nat| cur.lookup(w, a) == pre.mem_at(a),
        forall|j: int, s: int|
            cur.valid_slot(j, s) && (#[trigger] cur.blk(j, s)) is Some ==> cur.blk(j, s) == pre.blk(
                j,
                s,
            ) && pre.valid_slot(j, s) && !is_ancestor_of(j as nat, leaf),
{
    // every surviving tree slot is an untouched pre-access slot off the path
    assert forall|j: int, s: int|
        cur.valid_slot(j, s) && (#[trigger] cur.blk(j, s)) is Some implies cur.blk(j, s) == pre.blk(
        j,
        s,
    ) && pre.valid_slot(j, s) && !is_ancestor_of(j as nat, leaf) by {
        if is_ancestor_of(j as nat, leaf) {
            assert(cur.tree.nodes@[j].empty());
        }
    }
    assert forall|j1: int, s1: int, j2: int, s2: int|
        cur.valid_slot(j1, s1) && cur.valid_slot(j2, s2) && (#[trigger] cur.blk(j1, s1)) is Some
            && (#[trigger] cur.blk(j2, s2)) is Some && cur.blk(j1, s1).unwrap().idx == cur.blk(
            j2,
            s2,
        ).unwrap().idx implies j1 == j2 && s1 == s2 by {
        assert(cur.blk(j1, s1) == pre.blk(j1, s1));
        assert(cur.blk(j2, s2) == pre.blk(j2, s2));
    }
    // every gathered block occupied a pre-access slot on the path
    assert forall|t: int| 0 <= t < w.len() implies (#[trigger] w[t]).idx < pre.n() && exists|
        k: int,
        s: int,
    |
        0 <= k < path.len() && pre.valid_slot(chain(leaf, k as nat) as int, s) && (
        #[trigger] pre.blk(chain(leaf, k as nat) as int, s)) == Some(w[t]) by {
        let (k, s) = choose|k: int, s: int|
            0 <= k < path.len() && 0 <= s < path[k].slots().len() && (
            #[trigger] path[k].slots()[s]) == Some(w[t]);
        assert(pre.blk(chain(leaf, k as nat) as int, s) == Some(w[t]));
        assert(pre.valid_slot(chain(leaf, k as nat) as int, s));
    }
    // no address is both gathered and still in the tree
    assert forall|t: int, j: int, s: int|
        0 <= t < w.len() && cur.valid_slot(j, s) && (#[trigger] cur.blk(j, s)) is Some implies (
    #[trigger] w[t]).idx != cur.blk(j, s).unwrap().idx by {
        if w[t].idx == cur.blk(j, s).unwrap().idx {
            let (k, s2) = choose|k: int, s2: int|
                0 <= k < path.len() && pre.valid_slot(chain(leaf, k as nat) as int, s2) && (
                #[trigger] pre.blk(chain(leaf, k as nat) as int, s2)) == Some(w[t]);
            let j2 = chain(leaf, k as nat) as int;
            assert(cur.blk(j, s) == pre.blk(j, s));
            assert(j2 == j && s2 == s);
            lemma_ancestor_iff_on_chain(j2 as nat, leaf);
            assert(is_ancestor_of(j2 as nat, leaf));
            assert(false);
        }
    }
    // the combined view equals the pre-access memory
    assert forall|a: nat| cur.lookup(w, a) == pre.mem_at(a) by {
        if w_has(w, a) {
            let t = choose|t: int| 0 <= t < w.len() && (#[trigger] w[t]).idx == a;
            lemma_w_at_found(w, t);
            let (k, s2) = choose|k: int, s2: int|
                0 <= k < path.len() && pre.valid_slot(chain(leaf, k as nat) as int, s2) && (
                #[trigger] pre.blk(chain(leaf, k as nat) as int, s2)) == Some(w[t]);
            pre.lemma_mem_at_block(chain(leaf, k as nat) as int, s2);
        } else {
            if cur.tree_has(a) {
                let (j, s) = choose|j: int, s: int|
                    cur.valid_slot(j, s) && (#[trigger] cur.blk(j, s)) is Some && cur.blk(
                        j,
                        s,
                    ).unwrap().idx == a;
                cur.lemma_mem_at_block(j, s);
                pre.lemma_mem_at_block(j, s);
            } else {
                if pre.tree_has(a) {
                    let (j, s) = choose|j: int, s: int|
                        pre.valid_slot(j, s) && (#[trigger] pre.blk(j, s)) is Some && pre.blk(
                            j,
                            s,
                        ).unwrap().idx == a;
                    if is_ancestor_of(j as nat, leaf) {
                        lemma_ancestor_iff_on_chain(j as nat, leaf);
                        let k = choose|k: nat| k < path_len(leaf) && j as nat == chain(leaf, k);
                        assert(path[k as int].slots()[s] == pre.blk(j, s));
                        assert(w_contains(w, pre.blk(j, s).unwrap()));
                        let t = choose|t: int|
                            0 <= t < w.len() && w[t] == pre.blk(j, s).unwrap();
                        assert(w_has(w, a));
                        assert(false);
                    } else {
                        assert(cur.blk(j, s) == pre.blk(j, s));
                        assert(cur.tree_has(a));
                        assert(false);
                    }
                }
            }
        }
    }
}

/// Moving one block from the working set into an unoccupied slot of a node
/// on the path of its address keeps the invariant, the disjointness, and the
/// combined view of tree and working set.
proof fn lemma_place_block(
    o1: Oram,
    o2: Oram,
    j: int,
    i: int,
    b: Block,
    w1: Seq<Block>,
    w2: Seq<Block>,
    p: int,
)
    requires
        o1.inv(),
        o1.valid_slot(j, i),
        o1.blk(j, i) is None,
        o2.addrs@ == o1.addrs@,
        o2.tree.wf(),
        o2.tree.depth == o1.tree.depth,
        o2.tree.nodes@.len() == o1.tree.nodes@.len(),
        forall|j2: int|
            0 <= j2 < o1.tree.nodes@.len() && j2 != j ==> o2.tree.nodes@[j2] == o1.tree.nodes@[j2],
        o2.tree.nodes@[j].slots() == o1.tree.nodes@[j].slots().update(i, Some(b)),
        is_ancestor_of(j as nat, o1.addrs@[b.idx as int] as nat),
        b.idx < o1.n(),
        w_distinct(w1),
        0 <= p <= w2.len(),
        w1 == w2.insert(p, b),
        o1.w_tree_disjoint(w1),
    ensures
        o2.inv(),
        o2.w_tree_disjoint(w2),
        w_distinct(w2),
        forall|a: nat| o2.lookup(w2, a) == o1.lookup(w1, a),
{
    lemma_w_remove(w1, w2, b, p);
    assert(w1[p] == b);
    // slot geometry is unchanged
    assert forall|j2: int, s2: int| o2.valid_slot(j2, s2) == o1.valid_slot(j2, s2) by {
        if 1 <= j2 < o1.tree.nodes@.len() {
            assert(o2.tree.nodes@[j2].slots().len() == o1.tree.nodes@[j2].slots().len());
        }
    }
    // every occupied slot of o2: either the new block at (j, i) or an o1 block
    assert forall|j2: int, s2: int|
        o2.valid_slot(j2, s2) && (#[trigger] o2.blk(j2, s2)) is Some implies (j2 == j && s2 == i
            && o2.blk(j2, s2) == Some(b)) || (o2.blk(j2, s2) == o1.blk(j2, s2) && o1.blk(
            j2,
            s2,
        ) is Some) by {}
    assert(o2.blk(j, i) == Some(b));
    // the invariant
    assert(o2.leaves_ok());
    assert forall|j2: int, s2: int|
        o2.valid_slot(j2, s2) && (#[trigger] o2.blk(j2, s2)) is Some implies o2.blk(
            j2,
            s2,
        ).unwrap().idx < o2.n() && is_ancestor_of(
            j2 as nat,
            o2.addrs@[o2.blk(j2, s2).unwrap().idx as int] as nat,
        ) by {}
    assert forall|j1: int, s1: int, j2: int, s2: int|
        o2.valid_slot(j1, s1) && o2.valid_slot(j2, s2) && (#[trigger] o2.blk(j1, s1)) is Some && (
        #[trigger] o2.blk(j2, s2)) is Some && o2.blk(j1, s1).unwrap().idx == o2.blk(
            j2,
            s2,
        ).unwrap().idx implies j1 == j2 && s1 == s2 by {
        if (j1 == j && s1 == i) != (j2 == j && s2 == i) {
            // one is the new block, the other an o1 block with the same
            // address: that contradicts disjointness, since b was in w1
            assert(false);
        }
    }
    // disjointness for the shrunken working set
    assert forall|k: int, j2: int, s2: int|
        0 <= k < w2.len() && o2.valid_slot(j2, s2) && (#[trigger] o2.blk(j2, s2)) is Some implies (
    #[trigger] w2[k]).idx != o2.blk(j2, s2).unwrap().idx by {
        let m: int = if k < p {
            k
        } else {
            k + 1
        };
        assert(w1[m] == w2[k]);
        if j2 == j && s2 == i {
            assert(!w_has(w2, b.idx as nat));
            assert(w2[k].idx != b.idx);
        }
    }
    // the combined view is preserved
    assert forall|a: nat| o2.lookup(w2, a) == o1.lookup(w1, a) by {
        if a == b.idx as nat {
            lemma_w_at_found(w1, p);
            o2.lemma_mem_at_block(j, i);
            assert(!w_has(w2, a));
        } else {
            if w_has(w1, a) {
                assert(w_at(w1, a) == w_at(w2, a));
            } else {
                assert(!w_has(w2, a));
                if o1.tree_has(a) {
                    let (j3, s3) = choose|j3: int, s3: int|
                        o1.valid_slot(j3, s3) && (#[trigger] o1.blk(j3, s3)) is Some && o1.blk(
                            j3,
                            s3,
                        ).unwrap().idx == a;
                    assert(!(j3 == j && s3 == i));
                    assert(o2.blk(j3, s3) == o1.blk(j3, s3));
                    o1.lemma_mem_at_block(j3, s3);
                    o2.lemma_mem_at_block(j3, s3);
                } else {
                    assert forall|j3: int, s3: int|
                        o2.valid_slot(j3, s3) && (#[trigger] o2.blk(j3, s3)) is Some implies o2.blk(
                            j3,
                            s3,
                        ).unwrap().idx != a by {
                        if !(j3 == j && s3 == i) {
                            assert(o1.blk(j3, s3) is Some);
                            assert(!o1.tree_has(a));
                        }
                    }
                    o2.lemma_mem_at_none(a);
                }
            }
        }
    }
}

/// The engine: the tree, the position map (`addrs[a]` is the leaf address
/// `a` is currently assigned to), and the random source.
pub struct Oram {
    pub tree: Tree,
    pub addrs: Vec<usize>,
    pub rng: rand::rngs::ThreadRng,
}

impl Oram {
    /// Size of the logical address space.
    pub open spec fn n(self) -> nat {
        self.addrs@.len()
    }

    /// `(j, s)` names a slot of a real (non-zero) tree node.
    pub open spec fn valid_slot(self, j: int, s: int) -> bool {
        1 <= j < self.tree.nodes@.len() && 0 <= s < self.tree.nodes@[j].slots().len()
    }

    /// The content of slot `s` of node `j`.
    pub open spec fn blk(self, j: int, s: int) -> Option<Block> {
        self.tree.nodes@[j].slots()[s]
    }

    /// Every position-map entry is a valid leaf index.
    pub open spec fn leaves_ok(self) -> bool {
        forall|i: int|
            0 <= i < self.addrs@.len() ==> self.tree.is_leaf(#[trigger] self.addrs@[i] as nat)
    }

    /// Every live block is owned by an in-range address and lies on the path
    /// from the root to its address's current leaf.
    pub open spec fn blocks_on_paths(self) -> bool {
        forall|j: int, s: int|
            self.valid_slot(j, s) && (#[trigger] self.blk(j, s)) is Some ==> self.blk(
                j,
                s,
            ).unwrap().idx < self.n() && is_ancestor_of(
                j as nat,
                self.addrs@[self.blk(j, s).unwrap().idx as int] as nat,
            )
    }

    /// At most one live block per address.
    pub open spec fn unique_blocks(self) -> bool {
        forall|j1: int, s1: int, j2: int, s2: int|
            self.valid_slot(j1, s1) && self.valid_slot(j2, s2) && (#[trigger] self.blk(
                j1,
                s1,
            )) is Some && (#[trigger] self.blk(j2, s2)) is Some && self.blk(j1, s1).unwrap().idx
                == self.blk(j2, s2).unwrap().idx ==> j1 == j2 && s1 == s2
    }

    /// The engine invariant.
    pub open spec fn inv(self) -> bool {
        &&& self.tree.wf()
        &&& self.leaves_ok()
        &&& self.blocks_on_paths()
        &&& self.unique_blocks()
    }

    /// Some live block in the tree carries address `a`.
    pub open spec fn tree_has(self, a: nat) -> bool {
        exists|j: int, s: int|
            self.valid_slot(j, s) && (#[trigger] self.blk(j, s)) is Some && self.blk(
                j,
                s,
            ).unwrap().idx == a
    }

    /// The logical memory the tree represents: the payload of the live block
    /// with address `a`, or "no value".
    pub open spec fn mem_at(self, a: nat) -> Option<bool> {
        if self.tree_has(a) {
            let (j, s) = choose|j: int, s: int|
                self.valid_slot(j, s) && (#[trigger] self.blk(j, s)) is Some && self.blk(
                    j,
                    s,
                ).unwrap().idx == a;
            Some(self.blk(j, s).unwrap().value)
        } else {
            None
        }
    }

    /// The combined view of the tree and a working set `w` drawn out of it:
    /// a block in `w` shadows the tree.
    pub open spec fn lookup(self, w: Seq<Block>, a: nat) -> Option<bool> {
        if w_has(w, a) {
            w_at(w, a)
        } else {
            self.mem_at(a)
        }
    }

    /// No address occurs both in the working set `w` and in the tree.
    pub open spec fn w_tree_disjoint(self, w: Seq<Block>) -> bool {
        forall|k: int, j: int, s: int|
            0 <= k < w.len() && self.valid_slot(j, s) && (#[trigger] self.blk(j, s)) is Some ==> (
            #[trigger] w[k]).idx != self.blk(j, s).unwrap().idx
    }

    /// A live block determines the memory at its address.
    pub proof fn lemma_mem_at_block(self, j: int, s: int)
        requires
            self.unique_blocks(),
            self.valid_slot(j, s),
            self.blk(j, s) is Some,
        ensures
            self.tree_has(self.blk(j, s).unwrap().idx as nat),
            self.mem_at(self.blk(j, s).unwrap().idx as nat) == Some(
                self.blk(j, s).unwrap().value,
            ),
    {
        let a = self.blk(j, s).unwrap().idx as nat;
        assert(self.tree_has(a));
        let (j2, s2) = choose|j2: int, s2: int|
            self.valid_slot(j2, s2) && (#[trigger] self.blk(j2, s2)) is Some && self.blk(
                j2,
                s2,
            ).unwrap().idx == a;
        assert(j2 == j && s2 == s);
    }

    /// An address carried by no live block reads as "no value".
    pub proof fn lemma_mem_at_none(self, a: nat)
        requires
            forall|j: int, s: int|
                self.valid_slot(j, s) && (#[trigger] self.blk(j, s)) is Some ==> self.blk(
                    j,
                    s,
                ).unwrap().idx != a,
        ensures
            self.mem_at(a) == None::<bool>,
    {
        assert(!self.tree_has(a));
    }

    /// Initializes the engine for an address space of size `n`: picks the
    /// smallest depth `d` with `2^d >= 2n` (the standard sizing rule that
    /// keeps the expected per-leaf load at a half), allocates the empty
    /// tree, and assigns every address an independent random leaf. The
    /// resulting logical memory holds no value at any address.
    pub fn new(n: usize) -> (r: Oram)
        requires
            1 <= n,
            n <= usize::MAX / 4,
            n <= 0x0400_0000_0000_0000,
        ensures
            r.inv(),
            r.n() == n,
            forall|a: nat| r.mem_at(a) == None::<bool>,
            forall|l: nat| r.tree.is_leaf(l) ==> path_load(r, l) == 0,
            r.tree.depth >= 1,
            pow2(r.tree.depth as nat) >= 2 * n,
            r.tree.depth == 1 || pow2((r.tree.depth - 1) as nat) < 2 * n,
    {
        let mut depth: usize = 1;
        let mut p: usize = 2;
        proof {
            assert(pow2(0) == 1);
            assert(pow2(1) == 2);
            assert(pow2(58) == 0x0400_0000_0000_0000) by {
                reveal_with_fuel(pow2, 60);
            }
        }
        while p < 2 * n
            invariant
                1 <= n,
                n <= usize::MAX / 4,
                n as nat <= pow2(58),
                n <= 0x0400_0000_0000_0000,
                1 <= depth <= 60,
                2 <= p,
                p as nat == pow2(depth as nat),
                depth == 1 || pow2((depth - 1) as nat) < 2 * n,
                p < 4 * n || depth == 1,
            decreases 60 - depth,
        {
            proof {
                if depth >= 59 {
                    crate::model::lemma_pow2_le(59, depth as nat);
                    assert(pow2(59) == 2 * pow2(58));
                    assert(false);
                }
            }
            p = p * 2;
            depth = depth + 1;
        }
        proof {
            if depth > 1 {
                // depth - 1 <= 58 would fail only if pow2(depth - 1) >= pow2(59)
                if (depth - 1) as nat > 59 {
                    crate::model::lemma_pow2_le(59, (depth - 1) as nat);
                    crate::model::lemma_pow2_le(58, 58);
                    assert(pow2(59) == 2 * pow2(58));
                    assert(false);
                }
                crate::model::lemma_pow2_le(0, 58);
            }
        }
        let tree = Tree::new(depth);
        let mut rng = new_thread_rng();
        let mut addrs: Vec<usize> = Vec::new();
        let mut i: usize = 0;
        while i < n
            invariant
                i <= n,
                addrs@.len() == i,
                tree.wf(),
                forall|k: int| 0 <= k < i ==> tree.is_leaf(#[trigger] addrs@[k] as nat),
            decreases n - i,
        {
            let leaf = tree.random_leaf(&mut rng);
            addrs.push(leaf);
            i += 1;
        }
        let r = Oram { tree, addrs, rng };
        proof {
            assert forall|a: nat| r.mem_at(a) == None::<bool> by {
                r.lemma_mem_at_none(a);
            }
            assert forall|l: nat| r.tree.is_leaf(l) implies path_load(r, l) == 0 by {
                assert forall|k2: nat| k2 < path_len(l) implies #[trigger] chain(l, k2)
                    < r.tree.nodes@.len() by {
                    crate::model::lemma_chain_le(l, k2);
                }
                lemma_path_load_upto_empty(r, l, path_len(l));
            }
        }
        r
    }

    /// Decides whether a block owned by address `block_id` may be evicted to
    /// node `eviction_bucket_addr`: the node must lie on the path from the
    /// root to the leaf the address is currently assigned to.
    fn is_eligible(&self, eviction_bucket_addr: usize, block_id: usize) -> (r: bool)
        requires
            block_id < self.n(),
        ensures
            r == is_ancestor_of(
                eviction_bucket_addr as nat,
                self.addrs@[block_id as int] as nat,
            ),
    {
        self.tree.is_ancestor(eviction_bucket_addr, self.addrs[block_id])
    }

    /// Greedy bottom-up eviction: walks the cleared path from `leaf` to the
    /// root and, at each node, places every block whose assigned leaf the
    /// node is an ancestor of, up to the node's capacity. Returns the blocks
    /// that could not be placed anywhere — empty whenever the working set
    /// fits in the root stash.
    #[verifier::rlimit(100)]
    fn evict_path(&mut self, leaf: usize, working: Vec<Block>) -> (left: Vec<Block>)
        requires
            old(self).inv(),
            old(self).tree.is_leaf(leaf as nat),
            forall|j: int|
                1 <= j < old(self).tree.nodes@.len() && is_ancestor_of(j as nat, leaf as nat)
                    ==> (#[trigger] old(self).tree.nodes@[j]).empty(),
            w_distinct(working@),
            w_bounded(working@, old(self).n()),
            old(self).w_tree_disjoint(working@),
        ensures
            final(self).inv(),
            final(self).addrs@ == old(self).addrs@,
            final(self).tree.depth == old(self).tree.depth,
            w_distinct(left@),
            w_bounded(left@, old(self).n()),
            final(self).w_tree_disjoint(left@),
            forall|a: nat| final(self).lookup(left@, a) == old(self).lookup(working@, a),
            working@.len() <= STASH_SIZE ==> left@.len() == 0,
            forall|j: int|
                0 <= j < old(self).tree.nodes@.len() && !is_ancestor_of(j as nat, leaf as nat)
                    ==> final(self).tree.nodes@[j] == old(self).tree.nodes@[j],
    {
        let ghost w0 = working@;
        let ghost n_len = old(self).tree.nodes@.len();
        proof {
            lemma_chain_root(leaf as nat);
            crate::model::lemma_pow2_le(0, (old(self).tree.depth - 1) as nat);
            assert(leaf >= 2);
            assert(leaf < n_len);
            assert forall|k2: nat| k2 < path_len(leaf as nat) implies 1 <= #[trigger] chain(
                leaf as nat,
                k2,
            ) < n_len by {
                crate::model::lemma_chain_le(leaf as nat, k2);
            }
            assert forall|k2: nat| k2 < path_len(leaf as nat) implies (
            #[trigger] self.tree.nodes@[chain(leaf as nat, k2) as int]).empty() by {
                crate::model::lemma_chain_le(leaf as nat, k2);
                lemma_ancestor_iff_on_chain(chain(leaf as nat, k2), leaf as nat);
            }
        }
        let mut working = working;
        let mut addr: usize = leaf;
        let ghost mut step: nat = 0;
        while addr >= 1
            invariant
                self.inv(),
                self.addrs@ == old(self).addrs@,
                self.tree.depth == old(self).tree.depth,
                self.tree.nodes@.len() == n_len,
                2 <= leaf < n_len,
                w_distinct(working@),
                w_bounded(working@, self.n()),
                self.w_tree_disjoint(working@),
                forall|a: nat| self.lookup(working@, a) == old(self).lookup(w0, a),
                forall|j: int|
                    0 <= j < n_len && !is_ancestor_of(j as nat, leaf as nat)
                        ==> self.tree.nodes@[j] == old(self).tree.nodes@[j],
                working@.len() <= w0.len(),
                step <= path_len(leaf as nat),
                step < path_len(leaf as nat) ==> addr as nat == chain(leaf as nat, step) && addr
                    >= 1,
                step == path_len(leaf as nat) ==> addr == 0,
                forall|k2: nat|
                    step <= k2 < path_len(leaf as nat) ==> (#[trigger] self.tree.nodes@[chain(
                        leaf as nat,
                        k2,
                    ) as int]).empty(),
                forall|k2: nat|
                    k2 < path_len(leaf as nat) ==> 1 <= #[trigger] chain(leaf as nat, k2) < n_len,
                step == path_len(leaf as nat) && w0.len() <= STASH_SIZE ==> working@.len() == 0,
            decreases addr,
        {
            proof {
                assert(step < path_len(leaf as nat));
            }
            let cap = self.tree.nodes[addr].capacity();
            proof {
                lemma_count_some_empty(self.tree.nodes@[addr as int].slots());
            }
            let ghost w_iter = working@;
            let mut kept: Vec<Block> = Vec::new();
            let mut placed: usize = 0;
            let mut t: usize = 0;
            proof {
                assert(live_set(kept@, working@, 0) =~= working@);
            }
            while t < working.len()
                invariant
                    self.inv(),
                    self.addrs@ == old(self).addrs@,
                    self.tree.depth == old(self).tree.depth,
                    self.tree.nodes@.len() == n_len,
                    2 <= leaf < n_len,
                    1 <= addr < n_len,
                    step < path_len(leaf as nat),
                    addr as nat == chain(leaf as nat, step),
                    t <= working@.len(),
                    working@ == w_iter,
                    kept@.len() + placed == t,
                    placed <= cap,
                    cap as nat == self.tree.nodes@[addr as int].slots().len(),
                    placed as nat == count_some(self.tree.nodes@[addr as int].slots()),
                    w_distinct(live_set(kept@, working@, t as int)),
                    w_bounded(live_set(kept@, working@, t as int), self.n()),
                    self.w_tree_disjoint(live_set(kept@, working@, t as int)),
                    forall|a: nat|
                        self.lookup(live_set(kept@, working@, t as int), a) == old(self).lookup(
                            w0,
                            a,
                        ),
                    forall|j: int|
                        0 <= j < n_len && !is_ancestor_of(j as nat, leaf as nat)
                            ==> self.tree.nodes@[j] == old(self).tree.nodes@[j],
                    forall|k2: nat|
                        step < k2 < path_len(leaf as nat) ==> (#[trigger] self.tree.nodes@[chain(
                            leaf as nat,
                            k2,
                        ) as int]).empty(),
                    forall|k2: nat|
                        k2 < path_len(leaf as nat) ==> 1 <= #[trigger] chain(leaf as nat, k2)
                            < n_len,
                    addr == 1 && working@.len() <= STASH_SIZE ==> kept@.len() == 0,
                decreases working@.len() - t,
            {
                let ghost o1 = *self;
                let ghost live_pre = live_set(kept@, working@, t as int);
                let ghost live_next = live_set(kept@, working@, t as int + 1);
                let b = working[t];
                proof {
                    assert(live_pre[kept@.len() as int] == b);
                    assert(live_pre =~= live_next.insert(kept@.len() as int, b));
                    assert(b.idx < self.n());
                }
                let eligible = self.is_eligible(addr, b.idx);
                if placed < cap && eligible {
                    let ghost pre_slots = self.tree.nodes@[addr as int].slots();
                    let res = self.tree.write_block_to_bucket(addr, b);
                    proof {
                        if res is None {
                            lemma_count_some_not_full(pre_slots);
                            assert(false);
                        }
                        let i = res.unwrap() as int;
                        lemma_count_some_update(pre_slots, i, b);
                        lemma_place_block(
                            o1,
                            *self,
                            addr as int,
                            i,
                            b,
                            live_pre,
                            live_next,
                            kept@.len() as int,
                        );
                        // the shrunken working set stays within bounds
                        assert forall|k2: int| 0 <= k2 < live_next.len() implies (
                        #[trigger] live_next[k2]).idx < self.n() by {
                            let m: int = if k2 < kept@.len() {
                                k2
                            } else {
                                k2 + 1
                            };
                            assert(live_pre[m] == live_next[k2]);
                        }
                        // the node just written is on the path, so nodes off
                        // the path stay untouched
                        lemma_ancestor_iff_on_chain(addr as nat, leaf as nat);
                        assert(is_ancestor_of(addr as nat, leaf as nat));
                        // nodes above on the path are untouched
                        assert forall|k2: nat|
                            step < k2 < path_len(leaf as nat) implies (
                        #[trigger] self.tree.nodes@[chain(leaf as nat, k2) as int]).empty() by {
                            lemma_chain_between(leaf as nat, step, k2);
                            assert(self.tree.nodes@[chain(leaf as nat, k2) as int]
                                == o1.tree.nodes@[chain(leaf as nat, k2) as int]);
                        }
                    }
                    placed += 1;
                } else {
                    proof {
                        if addr == 1 && working@.len() <= STASH_SIZE {
                            // at the root every block is eligible and the
                            // stash has room, so this branch cannot be taken
                            assert(self.tree.nodes@[1].is_stash());
                            assert(cap == STASH_SIZE);
                            assert(placed == t - kept@.len());
                            assert(placed < cap);
                            assert(self.addrs@[b.idx as int] as nat >= 1);
                            lemma_root_is_ancestor(self.addrs@[b.idx as int] as nat);
                            assert(false);
                        }
                    }
                    kept.push(b);
                    proof {
                        assert(live_set(kept@, working@, t as int + 1) =~= live_pre);
                    }
                }
                t += 1;
            }
            proof {
                assert(live_set(kept@, working@, working@.len() as int) =~= kept@);
            }
            working = kept;
            let ghost old_step = step;
            proof {
                step = step + 1nat;
                lemma_chain_step(leaf as nat, old_step);
                lemma_chain_root(leaf as nat);
                if addr == 1 {
                    if old_step + 1 < path_len(leaf as nat) {
                        lemma_chain_between(
                            leaf as nat,
                            old_step,
                            (path_len(leaf as nat) - 1) as nat,
                        );
                        assert(false);
                    }
                    assert(step == path_len(leaf as nat));
                } else {
                    if old_step + 1 == path_len(leaf as nat) {
                        assert(chain(leaf as nat, old_step) == 1);
                        assert(false);
                    }
                }
            }
            addr = self.tree.parent_idx(addr);
        }
        working
    }

    /// Executes one logical request.
    ///
    /// An out-of-range address is rejected before anything is touched.
    /// Otherwise the accessed address is reassigned to a fresh random leaf
    /// (no other position-map entry changes), the old path is read and
    /// cleared, the request is serviced against the gathered blocks, and
    /// everything is greedily evicted back onto that path. On success the
    /// memory equals `target_mem` at every address: a read changes nothing
    /// and returns the stored value (or no value, if the address was never
    /// written); a write stores the new value and returns no value. On stash
    /// overflow every address holds either its required value or no value —
    /// never a stale or foreign one — and overflow cannot happen at all when
    /// the whole address space fits in the stash, nor when the fetched path
    /// holds few enough blocks (plus the one a write inserts) to fit there:
    /// only a random draw landing on an overloaded path can make an access
    /// fail.
    #[verifier::rlimit(100)]
    pub fn execute_instruction(&mut self, instr: Instruction) -> (r: Result<
        Option<bool>,
        OramError,
    >)
        requires
            old(self).inv(),
        ensures
            final(self).inv(),
            final(self).n() == old(self).n(),
            final(self).tree.depth == old(self).tree.depth,
            instr.addr() >= old(self).n() ==> r == Err::<Option<bool>, OramError>(
                OramError::InvalidAddress,
            ) && *final(self) == *old(self),
            instr.addr() < old(self).n() ==> {
                &&& r != Err::<Option<bool>, OramError>(OramError::InvalidAddress)
                &&& forall|i: int|
                    0 <= i < old(self).n() && i != instr.addr()
                        ==> final(self).addrs@[i] == old(self).addrs@[i]
                &&& final(self).tree.is_leaf(final(self).addrs@[instr.addr() as int] as nat)
                &&& forall|j: int|
                    0 <= j < old(self).tree.nodes@.len() && !is_ancestor_of(
                        j as nat,
                        old(self).addrs@[instr.addr() as int] as nat,
                    ) ==> final(self).tree.nodes@[j] == old(self).tree.nodes@[j]
                &&& match r {
                    Ok(v) => (forall|a: nat|
                        final(self).mem_at(a) == target_mem(*old(self), instr, a)) && (instr
                        is Read ==> v == old(self).mem_at(instr.addr())) && (instr is Write ==> v
                        is None),
                    Err(_) => (forall|a: nat|
                        final(self).mem_at(a) == target_mem(*old(self), instr, a)
                            || final(self).mem_at(a) == None::<bool>) && (forall|j: int, s: int|
                        old(self).valid_slot(j, s) && (#[trigger] old(self).blk(j, s)) is Some
                            && !is_ancestor_of(
                            j as nat,
                            old(self).addrs@[instr.addr() as int] as nat,
                        ) ==> final(self).mem_at(old(self).blk(j, s).unwrap().idx as nat) == old(
                            self,
                        ).mem_at(old(self).blk(j, s).unwrap().idx as nat)),
                }
            },
            instr.addr() < old(self).n() && old(self).n() <= STASH_SIZE ==> r is Ok,
            instr.addr() < old(self).n() && path_load(
                *old(self),
                old(self).addrs@[instr.addr() as int] as nat,
            ) + (if instr is Write {
                1int
            } else {
                0int
            }) <= STASH_SIZE ==> r is Ok,
    {
        let idx: usize = match instr {
            Instruction::Read(ri) => ri.idx,
            Instruction::Write(wi) => wi.idx,
        };
        if idx >= self.addrs.len() {
            return Err(OramError::InvalidAddress);
        }
        let ghost pre = *old(self);
        proof {
            crate::model::lemma_pow2_le(0, (pre.tree.depth - 1) as nat);
        }
        // refresh the position-map entry, unconditionally and exactly once
        let leaf = self.addrs[idx];
        let new_leaf = self.tree.random_leaf(&mut self.rng);
        self.addrs.set(idx, new_leaf);
        // read and clear the whole path the address was assigned to
        let path = self.tree.read_and_clear_path(leaf);
        let ghost m2 = *self;
        proof {
            // occupied slots of the gathered path have pairwise distinct
            // addresses, since they come from distinct slots of the tree
            assert forall|k1: int, s1: int, k2: int, s2: int|
                0 <= k1 < path@.len() && 0 <= s1 < path@[k1].slots().len() && 0 <= k2 < path@.len()
                    && 0 <= s2 < path@[k2].slots().len() && (k1 != k2 || s1 != s2) && (
                #[trigger] path@[k1].slots()[s1]) is Some && (#[trigger] path@[k2].slots()[s2])
                    is Some implies path@[k1].slots()[s1].unwrap().idx
                != path@[k2].slots()[s2].unwrap().idx by {
                let j1 = chain(leaf as nat, k1 as nat) as int;
                let j2 = chain(leaf as nat, k2 as nat) as int;
                if k1 != k2 {
                    if k1 < k2 {
                        lemma_chain_between(leaf as nat, k1 as nat, k2 as nat);
                    } else {
                        lemma_chain_between(leaf as nat, k2 as nat, k1 as nat);
                    }
                }
                assert(pre.blk(j1, s1) == path@[k1].slots()[s1]);
                assert(pre.blk(j2, s2) == path@[k2].slots()[s2]);
                assert(pre.valid_slot(j1, s1) && pre.valid_slot(j2, s2));
                if path@[k1].slots()[s1].unwrap().idx == path@[k2].slots()[s2].unwrap().idx {
                    assert(j1 == j2 && s1 == s2);
                    assert(false);
                }
            }
        }
        let mut working = collect_path_blocks(&path);
        proof {
            lemma_extraction(pre, m2, path@, working@, leaf as nat);
            // the cleared tree still satisfies the invariant: the accessed
            // address's block was on the cleared path, every other block
            // kept both its slot and its leaf assignment
            assert forall|j: int, s: int|
                m2.valid_slot(j, s) && (#[trigger] m2.blk(j, s)) is Some implies m2.blk(
                    j,
                    s,
                ).unwrap().idx < m2.n() && m2.blk(j, s).unwrap().idx != idx && is_ancestor_of(
                    j as nat,
                    m2.addrs@[m2.blk(j, s).unwrap().idx as int] as nat,
                ) by {
                assert(m2.blk(j, s) == pre.blk(j, s));
                let bi = pre.blk(j, s).unwrap().idx;
                if bi == idx {
                    assert(is_ancestor_of(j as nat, pre.addrs@[idx as int] as nat));
                    assert(false);
                }
                assert(m2.addrs@[bi as int] == pre.addrs@[bi as int]);
            }
            assert(m2.inv());
            m2.lemma_mem_at_none(idx as nat);
        }
        let ghost w_gathered = working@;
        proof {
            // the gathered set is exactly as large as the path was loaded
            lemma_slots_load_eq_path_load(pre, path@, leaf as nat, path_len(leaf as nat));
            assert(w_gathered.len() == path_load(pre, leaf as nat));
        }
        // service the request against the gathered blocks
        let found = update_working(&mut working, instr);
        let ghost w_applied = working@;
        proof {
            // the value reported is the memory before the access
            assert(found == m2.lookup(w_gathered, idx as nat));
            assert(found == pre.mem_at(idx as nat));
            // the combined view now equals the required memory
            assert forall|a: nat| m2.lookup(w_applied, a) == target_mem(pre, instr, a) by {
                match instr {
                    Instruction::Read(_) => {},
                    Instruction::Write(wi) => {
                        if a != wi.idx as nat {
                            assert(w_has(w_applied, a) == w_has(w_gathered, a));
                            assert(w_at(w_applied, a) == w_at(w_gathered, a));
                        }
                    },
                }
            }
            // the serviced working set is still duplicate-free, bounded and
            // disjoint from the cleared tree
            assert(w_bounded(w_applied, m2.n())) by {
                assert forall|k: int| 0 <= k < w_applied.len() implies (
                #[trigger] w_applied[k]).idx < m2.n() by {
                    if w_applied[k].idx != idx {
                        assert(w_has(w_gathered, w_applied[k].idx as nat));
                        let k2 = choose|k2: int|
                            0 <= k2 < w_gathered.len() && (#[trigger] w_gathered[k2]).idx
                                == w_applied[k].idx as nat;
                    }
                }
            }
            assert(m2.w_tree_disjoint(w_applied)) by {
                assert forall|k: int, j: int, s: int|
                    0 <= k < w_applied.len() && m2.valid_slot(j, s) && (#[trigger] m2.blk(
                        j,
                        s,
                    )) is Some implies (#[trigger] w_applied[k]).idx != m2.blk(
                    j,
                    s,
                ).unwrap().idx by {
                    if w_applied[k].idx != idx {
                        assert(w_has(w_gathered, w_applied[k].idx as nat));
                        let k2 = choose|k2: int|
                            0 <= k2 < w_gathered.len() && (#[trigger] w_gathered[k2]).idx
                                == w_applied[k].idx as nat;
                    }
                }
            }
        }
        // write everything back onto the path, bottom up
        let left = self.evict_path(leaf, working);
        proof {
            if pre.n() <= STASH_SIZE {
                lemma_w_len_le(w_applied, pre.n());
            }
        }
        if left.len() == 0 {
            proof {
                assert forall|a: nat| self.mem_at(a) == target_mem(pre, instr, a) by {
                    assert(!w_has(left@, a));
                    assert(self.lookup(left@, a) == target_mem(pre, instr, a));
                }
            }
            match instr {
                Instruction::Read(_) => Ok(found),
                Instruction::Write(_) => Ok(None),
            }
        } else {
            proof {
                assert forall|a: nat|
                    self.mem_at(a) == target_mem(pre, instr, a) || self.mem_at(a)
                        == None::<bool> by {
                    if w_has(left@, a) {
                        let k = choose|k: int|
                            0 <= k < left@.len() && (#[trigger] left@[k]).idx == a;
                        assert forall|j: int, s: int|
                            self.valid_slot(j, s) && (#[trigger] self.blk(j, s))
                                is Some implies self.blk(j, s).unwrap().idx != a by {
                            assert(left@[k].idx != self.blk(j, s).unwrap().idx);
                        }
                        self.lemma_mem_at_none(a);
                    } else {
                        assert(self.lookup(left@, a) == self.mem_at(a));
                    }
                }
                // blocks off the accessed path were never touched, so their
                // addresses keep their values even on overflow
                assert forall|j: int, s: int|
                    pre.valid_slot(j, s) && (#[trigger] pre.blk(j, s)) is Some && !is_ancestor_of(
                        j as nat,
                        leaf as nat,
                    ) implies self.mem_at(pre.blk(j, s).unwrap().idx as nat) == pre.mem_at(
                    pre.blk(j, s).unwrap().idx as nat,
                ) by {
                    assert(self.tree.nodes@[j] == pre.tree.nodes@[j]);
                    assert(self.blk(j, s) == pre.blk(j, s));
                    pre.lemma_mem_at_block(j, s);
                    self.lemma_mem_at_block(j, s);
                }
            }
            Err(OramError::StashOverflow)
        }
    }
}

/// Law: a write of `v` to address `a` followed immediately by a read of `a`
/// returns `v`, whatever leaves were drawn in between. The hypotheses are
/// exactly what `execute_instruction` ensures of a successful write (the
/// memory equals the write's target) and of a successful read (the value
/// returned is the memory at the address before the read).
pub proof fn lemma_write_then_read(pre: Oram, mid: Oram, wi: WriteInstruction, r: Option<bool>)
    requires
        forall|a: nat| mid.mem_at(a) == target_mem(pre, Instruction::Write(wi), a),
        r == mid.mem_at(wi.idx as nat),
    ensures
        r == Some(wi.value),
{
}

/// Law: an address never written reads as "no value". The first hypothesis
/// is what `new` ensures of every address; the others state that one access
/// that is not a write to `a` was executed, with what `execute_instruction`
/// ensures of it (even a failed one); so by induction over any such sequence
/// the address stays empty, and a read of it returns `None`.
pub proof fn lemma_never_written_stays_empty(
    pre: Oram,
    post: Oram,
    instr: Instruction,
    a: nat,
)
    requires
        pre.mem_at(a) == None::<bool>,
        !(instr matches Instruction::Write(wi) && wi.idx as nat == a),
        forall|x: nat| post.mem_at(x) == target_mem(pre, instr, x) || post.mem_at(x) == None::<bool>,
    ensures
        post.mem_at(a) == None::<bool>,
{
}

/// Law: across the whole tree and stash there is at most one live block per
/// address — any two occupied slots holding the same address are the same
/// slot. This holds in every state the engine exposes, since `new` and
/// `execute_instruction` ensure the invariant.
pub proof fn lemma_at_most_one_live_block(o: Oram, j1: int, s1: int, j2: int, s2: int)
    requires
        o.inv(),
        o.valid_slot(j1, s1),
        o.valid_slot(j2, s2),
        o.blk(j1, s1) is Some,
        o.blk(j2, s2) is Some,
        o.blk(j1, s1).unwrap().idx == o.blk(j2, s2).unwrap().idx,
    ensures
        j1 == j2 && s1 == s2,
{
}

/// Law: no node ever holds more blocks than its declared capacity, in any
/// state the engine exposes: the occupied-slot count is bounded by the slot
/// count, which the invariant pins to the node's declared capacity.
pub proof fn lemma_capacity_respected(o: Oram, j: int)
    requires
        o.inv(),
        0 <= j < o.tree.nodes@.len(),
    ensures
        count_some(o.tree.nodes@[j].slots()) <= o.tree.nodes@[j].cap(),
{
    lemma_count_some_le_len(o.tree.nodes@[j].slots());
    assert(o.tree.nodes@[j].wf());
}

} // verus!
