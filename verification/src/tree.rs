//! The storage side of the protocol: a complete binary tree of small
//! fixed-capacity holders, with a larger holder (the stash) at the root.
//!
//! The tree knows nothing about addresses, eviction policy or the position
//! map; it offers path-level primitives (read-and-clear a root-to-leaf path,
//! write one block into one node) plus the index arithmetic of `model`.

use vstd::prelude::*;

use crate::model::{
    chain, is_ancestor_of, lemma_ancestor_iff_on_chain, lemma_chain_between, lemma_chain_le,
    lemma_chain_root, lemma_chain_step, lemma_pow2_le, path_len, pow2,
};
use crate::rng::gen_range_usize;

verus! {

/// Capacity of every non-root tree node.
pub const BUCKET_SIZE: usize = 3;

/// Capacity of the root node, the overflow buffer for eviction.
pub const STASH_SIZE: usize = 5;

/// A single memory block the client stores: a logical address and its
/// payload.
#[derive(Clone, Copy, Debug, PartialEq, Eq, Structural)]
pub struct Block {
    pub idx: usize,
    pub value: bool,
}

/// A holder with the small per-node capacity; one sits at every tree index
/// except the root.
#[derive(Debug)]
pub struct Bucket {
    pub capacity: usize,
    pub blocks: Vec<Option<Block>>,
}

/// The root holder, with the larger capacity that absorbs eviction overflow.
#[derive(Debug)]
pub struct Stash {
    pub capacity: usize,
    pub blocks: Vec<Option<Block>>,
}

/// One tree node: a `Bucket` everywhere but index 1, the `Stash` there.
#[derive(Debug)]
pub enum TreeNode {
    Bucket(Bucket),
    Stash(Stash),
}

/// `len` slots, all unoccupied.
pub open spec fn empty_slots(len: nat) -> Seq<Option<Block>> {
    Seq::new(len, |i: int| None)
}

/// Builds a vector of `len` unoccupied slots.
fn new_empty_slots(len: usize) -> (r: Vec<Option<Block>>)
    ensures
        r@ =~= empty_slots(len as nat),
{
    let mut blocks: Vec<Option<Block>> = Vec::new();
    let mut i: usize = 0;
    while i < len
        invariant
            i <= len,
            blocks@.len() == i,
            forall|k: int| 0 <= k < i ==> blocks@[k] is None,
        decreases len - i,
    {
        blocks.push(None);
        i += 1;
    }
    blocks
}

/// Writes `block` into the first unoccupied slot, returning its position, or
/// `None` if every slot is occupied.
fn write_into_slots(blocks: &mut Vec<Option<Block>>, block: &Block) -> (r: Option<usize>)
    ensures
        match r {
            Some(i) => 0 <= i < old(blocks)@.len() && old(blocks)@[i as int] is None
                && final(blocks)@ == old(blocks)@.update(i as int, Some(*block)),
            None => final(blocks)@ == old(blocks)@ && (forall|k: int|
                0 <= k < old(blocks)@.len() ==> old(blocks)@[k] is Some),
        },
{
    let mut i: usize = 0;
    while i < blocks.len()
        invariant
            i <= blocks@.len(),
            blocks@ == old(blocks)@,
            forall|k: int| 0 <= k < i ==> blocks@[k] is Some,
        decreases blocks@.len() - i,
    {
        if blocks[i].is_none() {
            blocks.set(i, Some(*block));
            return Some(i);
        }
        i += 1;
    }
    None
}

impl Bucket {
    pub open spec fn wf(self) -> bool {
        self.capacity == BUCKET_SIZE && self.blocks@.len() == self.capacity
    }

    /// An empty bucket of the standard capacity.
    pub fn new() -> (r: Bucket)
        ensures
            r.wf(),
            r.blocks@ =~= empty_slots(BUCKET_SIZE as nat),
    {
        Bucket { capacity: BUCKET_SIZE, blocks: new_empty_slots(BUCKET_SIZE) }
    }
}

impl Stash {
    pub open spec fn wf(self) -> bool {
        self.capacity == STASH_SIZE && self.blocks@.len() == self.capacity
    }

    /// An empty stash of the standard capacity.
    pub fn new() -> (r: Stash)
        ensures
            r.wf(),
            r.blocks@ =~= empty_slots(STASH_SIZE as nat),
    {
        Stash { capacity: STASH_SIZE, blocks: new_empty_slots(STASH_SIZE) }
    }
}

impl TreeNode {
    /// The node's slot sequence, whichever holder shape it has.
    pub open spec fn slots(self) -> Seq<Option<Block>> {
        match self {
            TreeNode::Bucket(b) => b.blocks@,
            TreeNode::Stash(s) => s.blocks@,
        }
    }

    pub open spec fn is_stash(self) -> bool {
        self matches TreeNode::Stash(_)
    }

    /// The capacity the node was declared with.
    pub open spec fn cap(self) -> nat {
        if self.is_stash() {
            STASH_SIZE as nat
        } else {
            BUCKET_SIZE as nat
        }
    }

    pub open spec fn wf(self) -> bool {
        match self {
            TreeNode::Bucket(b) => b.wf(),
            TreeNode::Stash(s) => s.wf(),
        }
    }

    /// No slot is occupied.
    pub open spec fn empty(self) -> bool {
        forall|k: int| 0 <= k < self.slots().len() ==> self.slots()[k] is None
    }

    /// An empty node of the same holder shape as `self`.
    pub fn empty_like(&self) -> (r: TreeNode)
        ensures
            r.is_stash() == self.is_stash(),
            r.wf(),
            r.empty(),
    {
        match self {
            TreeNode::Bucket(_) => TreeNode::Bucket(Bucket::new()),
            TreeNode::Stash(_) => TreeNode::Stash(Stash::new()),
        }
    }

    pub fn capacity(&self) -> (c: usize)
        requires
            self.wf(),
        ensures
            c as nat == self.cap(),
            c as nat == self.slots().len(),
    {
        match self {
            TreeNode::Bucket(b) => b.capacity,
            TreeNode::Stash(s) => s.capacity,
        }
    }

    /// Number of slots the node has.
    pub fn num_slots(&self) -> (r: usize)
        ensures
            r == self.slots().len(),
    {
        match self {
            TreeNode::Bucket(b) => b.blocks.len(),
            TreeNode::Stash(s) => s.blocks.len(),
        }
    }

    /// The content of slot `s`.
    pub fn get_slot(&self, s: usize) -> (r: Option<Block>)
        requires
            s < self.slots().len(),
        ensures
            r == self.slots()[s as int],
    {
        match self {
            TreeNode::Bucket(b) => b.blocks[s],
            TreeNode::Stash(st) => st.blocks[s],
        }
    }

    /// Places `block` into an unoccupied slot, or reports that the node is
    /// full, leaving it unchanged.
    pub fn write_block(&mut self, block: &Block) -> (r: Option<usize>)
        ensures
            final(self).is_stash() == old(self).is_stash(),
            final(self).wf() == old(self).wf(),
            match r {
                Some(i) => 0 <= i < old(self).slots().len() && old(self).slots()[i as int] is None
                    && final(self).slots() == old(self).slots().update(i as int, Some(*block)),
                None => final(self).slots() == old(self).slots() && (forall|k: int|
                    0 <= k < old(self).slots().len() ==> old(self).slots()[k] is Some),
            },
    {
        match self {
            TreeNode::Bucket(b) => write_into_slots(&mut b.blocks, block),
            TreeNode::Stash(s) => write_into_slots(&mut s.blocks, block),
        }
    }
}

impl Clone for Bucket {
    /// A field-for-field copy.
    fn clone(&self) -> (r: Self)
        ensures
            r.capacity == self.capacity,
            r.blocks@ == self.blocks@,
    {
        Bucket { capacity: self.capacity, blocks: clone_slots(&self.blocks) }
    }
}

impl Clone for Stash {
    /// A field-for-field copy.
    fn clone(&self) -> (r: Self)
        ensures
            r.capacity == self.capacity,
            r.blocks@ == self.blocks@,
    {
        Stash { capacity: self.capacity, blocks: clone_slots(&self.blocks) }
    }
}

impl Clone for TreeNode {
    /// A copy with the same holder shape and the same slot contents.
    fn clone(&self) -> (r: Self)
        ensures
            r.is_stash() == self.is_stash(),
            r.slots() == self.slots(),
            r.wf() == self.wf(),
    {
        match self {
            TreeNode::Bucket(b) => TreeNode::Bucket(b.clone()),
            TreeNode::Stash(s) => TreeNode::Stash(s.clone()),
        }
    }
}

/// Copies a slot vector element by element.
fn clone_slots(v: &Vec<Option<Block>>) -> (r: Vec<Option<Block>>)
    ensures
        r@ == v@,
{
    let mut r: Vec<Option<Block>> = Vec::new();
    let mut i: usize = 0;
    while i < v.len()
        invariant
            i <= v@.len(),
            r@ =~= v@.subrange(0, i as int),
        decreases v@.len() - i,
    {
        r.push(v[i]);
        i += 1;
    }
    proof {
        assert(r@ =~= v@);
    }
    r
}

/// Computes `pow2(e)` as a machine integer.
pub fn pow2_usize(e: usize) -> (r: usize)
    requires
        pow2(e as nat) <= usize::MAX as nat,
    ensures
        r as nat == pow2(e as nat),
{
    let mut r: usize = 1;
    let mut i: usize = 0;
    while i < e
        invariant
            i <= e,
            r as nat == pow2(i as nat),
            pow2(e as nat) <= usize::MAX as nat,
        decreases e - i,
    {
        proof {
            lemma_pow2_le((i + 1) as nat, e as nat);
        }
        r = r * 2;
        i += 1;
    }
    r
}

/// The binary tree of holders, stored as a 1-indexed vector of length
/// `2^depth + 1`; index 0 is never used and stays empty.
#[derive(Debug)]
pub struct Tree {
    pub depth: usize,
    pub nodes: Vec<TreeNode>,
}

impl Tree {
    /// Structural well-formedness: correct length, a well-formed stash at
    /// index 1, well-formed buckets everywhere else, index 0 unused.
    pub open spec fn wf(self) -> bool {
        &&& 1 <= self.depth <= 60
        &&& pow2(self.depth as nat) + 1 <= usize::MAX as nat
        &&& self.nodes@.len() == pow2(self.depth as nat) + 1
        &&& forall|j: int| 0 <= j < self.nodes@.len() ==> (#[trigger] self.nodes@[j]).wf()
        &&& self.nodes@[1].is_stash()
        &&& forall|j: int|
            0 <= j < self.nodes@.len() && j != 1 ==> !(#[trigger] self.nodes@[j]).is_stash()
        &&& self.nodes@[0].empty()
    }

    /// Smallest valid leaf index.
    pub open spec fn leaf_lo(self) -> nat {
        pow2((self.depth - 1) as nat) + 1
    }

    /// Largest valid leaf index.
    pub open spec fn leaf_hi(self) -> nat {
        pow2(self.depth as nat)
    }

    /// `x` lies in the contiguous range of leaf indices.
    pub open spec fn is_leaf(self, x: nat) -> bool {
        self.leaf_lo() <= x <= self.leaf_hi()
    }

    /// Allocates the tree for the given depth: every node an empty bucket,
    /// except an empty stash at the root.
    pub fn new(depth: usize) -> (t: Tree)
        requires
            1 <= depth <= 60,
            pow2(depth as nat) + 1 <= usize::MAX as nat,
        ensures
            t.wf(),
            t.depth == depth,
            forall|j: int| 0 <= j < t.nodes@.len() ==> (#[trigger] t.nodes@[j]).empty(),
    {
        let count = pow2_usize(depth) + 1;
        proof {
            lemma_pow2_le(1, depth as nat);
        }
        let mut nodes: Vec<TreeNode> = Vec::new();
        let mut i: usize = 0;
        while i < count
            invariant
                i <= count,
                nodes@.len() == i,
                forall|j: int|
                    0 <= j < i ==> (#[trigger] nodes@[j]).wf() && nodes@[j].empty()
                        && !nodes@[j].is_stash(),
            decreases count - i,
        {
            nodes.push(TreeNode::Bucket(Bucket::new()));
            i += 1;
        }
        proof {
            lemma_pow2_le(1, depth as nat);
            assert(pow2(0) == 1);
            assert(pow2(1) == 2);
        }
        nodes.set(1, TreeNode::Stash(Stash::new()));
        Tree { depth, nodes }
    }

    /// Index of the parent of `idx`; halving walks towards the root, so
    /// callers stop once they have processed the root index.
    pub fn parent_idx(&self, idx: usize) -> (r: usize)
        ensures
            r == idx / 2,
    {
        idx / 2
    }

    /// Index of the root node.
    pub fn root_idx(&self) -> (r: usize)
        ensures
            r == 1,
    {
        1
    }

    /// Decides whether node `a` lies on the path from the root to node `d`
    /// (including `a == d`), by halving `d` until it falls to `a` or below.
    pub fn is_ancestor(&self, a: usize, d: usize) -> (r: bool)
        ensures
            r == is_ancestor_of(a as nat, d as nat),
    {
        let mut x: usize = d;
        while x > a
            invariant
                is_ancestor_of(a as nat, x as nat) == is_ancestor_of(a as nat, d as nat),
            decreases x,
        {
            x = x / 2;
        }
        x == a
    }

    /// Replaces the node at `idx` with an empty holder of the same shape.
    pub fn clear_bucket(&mut self, idx: usize)
        requires
            old(self).wf(),
            1 <= idx < old(self).nodes@.len(),
        ensures
            final(self).wf(),
            final(self).depth == old(self).depth,
            final(self).nodes@.len() == old(self).nodes@.len(),
            final(self).nodes@[idx as int].empty(),
            final(self).nodes@[idx as int].is_stash() == old(self).nodes@[idx as int].is_stash(),
            forall|j: int|
                0 <= j < old(self).nodes@.len() && j != idx ==> final(self).nodes@[j] == old(self).nodes@[j],
    {
        let replacement = self.nodes[idx].empty_like();
        self.nodes.set(idx, replacement);
    }

    /// Places `block` into an unoccupied slot of node `idx`, or reports that
    /// the node is at capacity, leaving the tree unchanged.
    pub fn write_block_to_bucket(&mut self, idx: usize, block: Block) -> (r: Option<usize>)
        requires
            old(self).wf(),
            1 <= idx < old(self).nodes@.len(),
        ensures
            final(self).wf(),
            final(self).depth == old(self).depth,
            final(self).nodes@.len() == old(self).nodes@.len(),
            forall|j: int|
                0 <= j < old(self).nodes@.len() && j != idx ==> final(self).nodes@[j] == old(self).nodes@[j],
            final(self).nodes@[idx as int].is_stash() == old(self).nodes@[idx as int].is_stash(),
            match r {
                Some(i) => 0 <= i < old(self).nodes@[idx as int].slots().len() && old(self).nodes@[idx as int].slots()[i as int] is None && final(self).nodes@[idx as int].slots() == old(self).nodes@[idx as int].slots().update(
                    i as int,
                    Some(block),
                ),
                None => final(self).nodes@[idx as int].slots() == old(
                    self,
                ).nodes@[idx as int].slots() && (forall|k: int|
                    0 <= k < old(self).nodes@[idx as int].slots().len() ==> old(
                        self,
                    ).nodes@[idx as int].slots()[k] is Some),
            },
    {
        let node = &mut self.nodes[idx];
        node.write_block(&block)
    }

    /// Draws a leaf index from the valid leaf range, using the injected
    /// random source.
    pub fn random_leaf(&self, rng: &mut rand::rngs::ThreadRng) -> (r: usize)
        requires
            self.wf(),
        ensures
            self.is_leaf(r as nat),
    {
        proof {
            lemma_pow2_le((self.depth - 1) as nat, self.depth as nat);
            lemma_pow2_le(0, (self.depth - 1) as nat);
        }
        let lo = pow2_usize(self.depth - 1) + 1;
        let hi = pow2_usize(self.depth) + 1;
        gen_range_usize(rng, lo, hi)
    }

    /// Returns the nodes on the path from `leaf` up to the root, leaf first,
    /// and empties every one of them in the tree: exactly the ancestors of
    /// `leaf` are cleared, every other node is untouched.
    #[verifier::rlimit(100)]
    pub fn read_and_clear_path(&mut self, leaf: usize) -> (path: Vec<TreeNode>)
        requires
            old(self).wf(),
            old(self).is_leaf(leaf as nat),
        ensures
            final(self).wf(),
            final(self).depth == old(self).depth,
            final(self).nodes@.len() == old(self).nodes@.len(),
            path@.len() == path_len(leaf as nat),
            forall|k: int|
                0 <= k < path@.len() ==> (#[trigger] path@[k]).slots() == old(self).nodes@[chain(
                    leaf as nat,
                    k as nat,
                ) as int].slots(),
            forall|k: int|
                0 <= k < path@.len() ==> (#[trigger] path@[k]).is_stash() == old(
                    self,
                ).nodes@[chain(leaf as nat, k as nat) as int].is_stash() && path@[k].wf(),
            forall|k: int|
                0 <= k < path@.len() ==> 1 <= #[trigger] chain(leaf as nat, k as nat) < old(self).nodes@.len(),
            forall|j: int|
                1 <= j < old(self).nodes@.len() && is_ancestor_of(j as nat, leaf as nat) ==> (
                #[trigger] final(self).nodes@[j]).empty(),
            forall|j: int|
                0 <= j < old(self).nodes@.len() && !is_ancestor_of(j as nat, leaf as nat) ==> final(self).nodes@[j] == old(self).nodes@[j],
    {
        proof {
            lemma_chain_root(leaf as nat);
        }
        let ghost n_len = old(self).nodes@.len();
        let mut path: Vec<TreeNode> = Vec::new();
        let mut idx: usize = leaf;
        while idx >= 1
            invariant
                self.wf(),
                self.depth == old(self).depth,
                self.nodes@.len() == n_len,
                1 <= leaf,
                (leaf as nat) < n_len,
                path@.len() <= path_len(leaf as nat),
                idx as nat == chain(leaf as nat, path@.len() as nat),
                path@.len() < path_len(leaf as nat) ==> idx >= 1,
                path@.len() == path_len(leaf as nat) ==> idx == 0,
                forall|k: int|
                    0 <= k < path@.len() ==> (#[trigger] path@[k]).slots() == old(self).nodes@[chain(leaf as nat, k as nat) as int].slots(),
                forall|k: int|
                    0 <= k < path@.len() ==> (#[trigger] path@[k]).is_stash() == old(
                        self,
                    ).nodes@[chain(leaf as nat, k as nat) as int].is_stash() && path@[k].wf(),
                forall|k: int|
                    0 <= k < path@.len() ==> 1 <= #[trigger] chain(leaf as nat, k as nat) < n_len,
                forall|k: int|
                    0 <= k < path@.len() ==> (#[trigger] self.nodes@[chain(
                        leaf as nat,
                        k as nat,
                    ) as int]).empty(),
                forall|j: int|
                    0 <= j < n_len && (forall|k: int|
                        0 <= k < path@.len() ==> #[trigger] chain(leaf as nat, k as nat) != j)
                        ==> (#[trigger] self.nodes@[j]) == old(self).nodes@[j],
            decreases idx,
        {
            let ghost step = path@.len() as nat;
            proof {
                lemma_chain_root(leaf as nat);
                lemma_chain_le(leaf as nat, step);
                assert(step < path_len(leaf as nat));
                assert(idx < n_len);
                assert forall|k: int| 0 <= k < path@.len() implies #[trigger] chain(
                    leaf as nat,
                    k as nat,
                ) != idx as int by {
                    lemma_chain_between(leaf as nat, k as nat, step);
                }
                assert(self.nodes@[idx as int] == old(self).nodes@[idx as int]);
            }
            let node_copy = self.nodes[idx].clone();
            path.push(node_copy);
            self.clear_bucket(idx);
            proof {
                lemma_chain_step(leaf as nat, step);
                // the chain is strictly decreasing, so the node just cleared
                // is not any of the earlier ones
                assert forall|k: int| 0 <= k < path@.len() implies (#[trigger] self.nodes@[chain(
                    leaf as nat,
                    k as nat,
                ) as int]).empty() by {
                    if k < step {
                        lemma_chain_between(leaf as nat, k as nat, step);
                    }
                }
                if step + 1 == path_len(leaf as nat) {
                    assert(chain(leaf as nat, step) == 1);
                }
            }
            idx = idx / 2;
        }
        proof {
            assert forall|j: int|
                1 <= j < n_len && is_ancestor_of(j as nat, leaf as nat) implies (
            #[trigger] self.nodes@[j]).empty() by {
                lemma_ancestor_iff_on_chain(j as nat, leaf as nat);
                let k = choose|k: nat| k < path_len(leaf as nat) && j as nat == chain(
                    leaf as nat,
                    k,
                );
                assert(self.nodes@[chain(leaf as nat, k as int as nat) as int].empty());
            }
            assert forall|j: int|
                0 <= j < n_len && !is_ancestor_of(j as nat, leaf as nat) implies self.nodes@[j]
                == old(self).nodes@[j] by {
                if j >= 1 {
                    lemma_ancestor_iff_on_chain(j as nat, leaf as nat);
                }
                assert forall|k: int| 0 <= k < path@.len() implies #[trigger] chain(
                    leaf as nat,
                    k as nat,
                ) != j by {
                    assert(1 <= chain(leaf as nat, k as nat));
                }
            }
        }
        path
    }
}

} // verus!
