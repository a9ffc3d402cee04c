use oram::oram::{Instruction, Oram, OramError, ReadInstruction, WriteInstruction};
use oram::tree::TreeNode;

fn read(o: &mut Oram, idx: usize) -> Result<Option<bool>, OramError> {
    o.execute_instruction(Instruction::Read(ReadInstruction { idx }))
}

fn write(o: &mut Oram, idx: usize, value: bool) -> Result<Option<bool>, OramError> {
    o.execute_instruction(Instruction::Write(WriteInstruction { idx, value }))
}

fn node_blocks(node: &TreeNode) -> Vec<oram::tree::Block> {
    let slots = match node {
        TreeNode::Bucket(b) => &b.blocks,
        TreeNode::Stash(s) => &s.blocks,
    };
    slots.iter().filter_map(|slot| *slot).collect()
}

fn check_tree_invariants(o: &Oram) {
    let mut seen = std::collections::HashSet::new();
    for (i, node) in o.tree.nodes.iter().enumerate() {
        let blocks = node_blocks(node);
        let capacity = match node {
            TreeNode::Bucket(b) => b.capacity,
            TreeNode::Stash(s) => s.capacity,
        };
        assert!(blocks.len() <= capacity);
        if i == 1 {
            assert!(matches!(node, TreeNode::Stash(_)));
        } else {
            assert!(matches!(node, TreeNode::Bucket(_)));
        }
        for b in blocks {
            // at most one live block per address, across the whole tree
            assert!(seen.insert(b.idx), "duplicate block for address {}", b.idx);
        }
    }
}

#[test]
fn write_then_read() {
    let mut o = Oram::new(4);
    assert_eq!(write(&mut o, 2, true), Ok(None));
    assert_eq!(read(&mut o, 2), Ok(Some(true)));
}

#[test]
fn uninitialized_read_returns_no_value() {
    let mut o = Oram::new(4);
    assert_eq!(read(&mut o, 0), Ok(None));
    assert_eq!(read(&mut o, 3), Ok(None));
}

#[test]
fn overwrite_replaces_value() {
    let mut o = Oram::new(4);
    assert_eq!(write(&mut o, 1, true), Ok(None));
    assert_eq!(write(&mut o, 1, false), Ok(None));
    assert_eq!(read(&mut o, 1), Ok(Some(false)));
}

#[test]
fn invalid_address_is_rejected_without_side_effects() {
    let mut o = Oram::new(4);
    assert_eq!(write(&mut o, 0, true), Ok(None));
    assert_eq!(read(&mut o, 4), Err(OramError::InvalidAddress));
    assert_eq!(write(&mut o, 7, false), Err(OramError::InvalidAddress));
    // the engine still answers correctly afterwards
    assert_eq!(read(&mut o, 0), Ok(Some(true)));
}

#[test]
fn end_to_end_scenario() {
    // n = 4, so the smallest depth with 2^depth >= 8 is 3: 9 tree nodes
    let mut o = Oram::new(4);
    assert_eq!(o.tree.depth, 3);
    assert_eq!(o.tree.nodes.len(), 9);
    assert_eq!(write(&mut o, 2, true), Ok(None));
    check_tree_invariants(&o);
    assert_eq!(write(&mut o, 1, false), Ok(None));
    check_tree_invariants(&o);
    assert_eq!(read(&mut o, 2), Ok(Some(true)));
    check_tree_invariants(&o);
    assert_eq!(read(&mut o, 0), Ok(None));
    check_tree_invariants(&o);
    assert_eq!(write(&mut o, 2, false), Ok(None));
    check_tree_invariants(&o);
    assert_eq!(read(&mut o, 2), Ok(Some(false)));
    check_tree_invariants(&o);
}

#[test]
fn value_survives_repeated_relocation() {
    let mut o = Oram::new(4);
    assert_eq!(write(&mut o, 0, true), Ok(None));
    for _ in 0..10 {
        assert_eq!(read(&mut o, 0), Ok(Some(true)));
        check_tree_invariants(&o);
    }
}

#[test]
fn position_map_entry_stays_a_leaf_and_others_are_kept() {
    let mut o = Oram::new(4);
    let depth = o.tree.depth;
    let lo = (1usize << (depth - 1)) + 1;
    let hi = 1usize << depth;
    for a in o.addrs.iter() {
        assert!((lo..=hi).contains(a));
    }
    let before = o.addrs.clone();
    assert_eq!(read(&mut o, 2), Ok(None));
    assert!((lo..=hi).contains(&o.addrs[2]));
    for i in 0..4 {
        if i != 2 {
            assert_eq!(o.addrs[i], before[i]);
        }
    }
}

#[test]
fn full_address_space_round_trip() {
    // with n = 5 every working set fits in the stash, so no access can fail
    let mut o = Oram::new(5);
    // the smallest depth with 2^depth >= 10 is 4
    assert_eq!(o.tree.depth, 4);
    let mut mirror: Vec<Option<bool>> = vec![None; 5];
    let steps: Vec<(usize, Option<bool>)> = vec![
        (0, Some(true)),
        (4, Some(false)),
        (2, None),
        (0, Some(false)),
        (1, Some(true)),
        (3, Some(true)),
        (2, Some(false)),
        (4, None),
        (0, None),
        (3, None),
    ];
    for (idx, op) in steps {
        match op {
            Some(v) => {
                assert_eq!(write(&mut o, idx, v), Ok(None));
                mirror[idx] = Some(v);
            }
            None => {
                assert_eq!(read(&mut o, idx), Ok(mirror[idx]));
            }
        }
        check_tree_invariants(&o);
    }
}

#[test]
fn smallest_engine_works() {
    // n = 1: the smallest depth with 2^depth >= 2 is 1, a three-entry tree
    // whose only leaf is index 2
    let mut o = Oram::new(1);
    assert_eq!(o.tree.depth, 1);
    assert_eq!(o.tree.nodes.len(), 3);
    assert_eq!(o.addrs[0], 2);
    assert_eq!(read(&mut o, 0), Ok(None));
    assert_eq!(write(&mut o, 0, true), Ok(None));
    assert_eq!(read(&mut o, 0), Ok(Some(true)));
    assert_eq!(read(&mut o, 1), Err(OramError::InvalidAddress));
}

#[test]
fn lightly_loaded_large_engine_cannot_overflow() {
    // with at most four blocks live, no path (plus one inserted block) can
    // exceed the stash, so these accesses must succeed even with n = 100
    let mut o = Oram::new(100);
    assert_eq!(write(&mut o, 7, true), Ok(None));
    assert_eq!(write(&mut o, 42, false), Ok(None));
    assert_eq!(write(&mut o, 99, true), Ok(None));
    assert_eq!(write(&mut o, 0, false), Ok(None));
    assert_eq!(read(&mut o, 7), Ok(Some(true)));
    assert_eq!(read(&mut o, 42), Ok(Some(false)));
    assert_eq!(read(&mut o, 99), Ok(Some(true)));
    assert_eq!(read(&mut o, 0), Ok(Some(false)));
    assert_eq!(read(&mut o, 55), Ok(None));
    check_tree_invariants(&o);
}
