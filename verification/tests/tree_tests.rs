use oram::tree::{pow2_usize, Block, Bucket, Stash, Tree, TreeNode, BUCKET_SIZE, STASH_SIZE};

fn occupied(node: &TreeNode) -> usize {
    let blocks = match node {
        TreeNode::Bucket(b) => &b.blocks,
        TreeNode::Stash(s) => &s.blocks,
    };
    blocks.iter().filter(|slot| slot.is_some()).count()
}

#[test]
fn bucket_new_shape() {
    let b = Bucket::new();
    assert_eq!(b.capacity, BUCKET_SIZE);
    assert_eq!(b.blocks.len(), 3);
    assert!(b.blocks.iter().all(|slot| slot.is_none()));
}

#[test]
fn stash_new_shape() {
    let s = Stash::new();
    assert_eq!(s.capacity, STASH_SIZE);
    assert_eq!(s.blocks.len(), 5);
    assert!(s.blocks.iter().all(|slot| slot.is_none()));
}

#[test]
fn tree_new_layout() {
    let t = Tree::new(3);
    assert_eq!(t.nodes.len(), 9);
    assert!(matches!(t.nodes[1], TreeNode::Stash(_)));
    for (i, node) in t.nodes.iter().enumerate() {
        if i != 1 {
            assert!(matches!(node, TreeNode::Bucket(_)));
        }
        assert_eq!(occupied(node), 0);
    }
}

#[test]
fn pow2_usize_values() {
    assert_eq!(pow2_usize(0), 1);
    assert_eq!(pow2_usize(1), 2);
    assert_eq!(pow2_usize(10), 1024);
}

#[test]
fn is_ancestor_reflexive() {
    let t = Tree::new(3);
    for x in 1..9 {
        assert!(t.is_ancestor(x, x));
    }
}

#[test]
fn is_ancestor_matches_path_exactly() {
    let t = Tree::new(3);
    // the path from leaf 6 to the root is 6 -> 3 -> 1
    for x in 1..9 {
        let on_path = x == 6 || x == 3 || x == 1;
        assert_eq!(t.is_ancestor(x, 6), on_path);
    }
    // the path from leaf 8 to the root is 8 -> 4 -> 2 -> 1
    for x in 1..9 {
        let on_path = x == 8 || x == 4 || x == 2 || x == 1;
        assert_eq!(t.is_ancestor(x, 8), on_path);
    }
}

#[test]
fn bucket_write_respects_capacity() {
    let mut t = Tree::new(2);
    for i in 0..3 {
        let placed = t.write_block_to_bucket(2, Block { idx: i, value: true });
        assert!(placed.is_some());
    }
    // a fourth block does not fit into a bucket of capacity 3
    let overflow = t.write_block_to_bucket(2, Block { idx: 3, value: true });
    assert!(overflow.is_none());
    assert_eq!(occupied(&t.nodes[2]), 3);
}

#[test]
fn stash_write_respects_capacity() {
    let mut t = Tree::new(2);
    for i in 0..5 {
        let placed = t.write_block_to_bucket(1, Block { idx: i, value: false });
        assert!(placed.is_some());
    }
    let overflow = t.write_block_to_bucket(1, Block { idx: 5, value: false });
    assert!(overflow.is_none());
    assert_eq!(occupied(&t.nodes[1]), 5);
}

#[test]
fn read_and_clear_path_empties_exactly_the_path() {
    let mut t = Tree::new(3);
    assert!(t.write_block_to_bucket(6, Block { idx: 0, value: true }).is_some());
    assert!(t.write_block_to_bucket(3, Block { idx: 1, value: false }).is_some());
    assert!(t.write_block_to_bucket(5, Block { idx: 2, value: true }).is_some());
    let path = t.read_and_clear_path(6);
    // leaf 6 at depth 3 has the three-node path 6 -> 3 -> 1
    assert_eq!(path.len(), 3);
    assert_eq!(occupied(&path[0]), 1);
    assert_eq!(occupied(&path[1]), 1);
    assert_eq!(occupied(&path[2]), 0);
    assert_eq!(occupied(&t.nodes[6]), 0);
    assert_eq!(occupied(&t.nodes[3]), 0);
    assert_eq!(occupied(&t.nodes[1]), 0);
    // node 5 is off the path and keeps its block
    assert_eq!(occupied(&t.nodes[5]), 1);
}

#[test]
fn random_leaf_stays_in_leaf_range() {
    let t = Tree::new(3);
    let mut rng = rand::thread_rng();
    let mut seen = std::collections::HashSet::new();
    for _ in 0..64 {
        let leaf = t.random_leaf(&mut rng);
        assert!((5..=8).contains(&leaf));
        seen.insert(leaf);
    }
    // 64 draws from four leaves: more than one value, overwhelmingly
    assert!(seen.len() > 1);
}
