use tower_sim::bank::Block;
use tower_sim::bank::NUM_NODES;
use tower_sim::banks::Banks;
use tower_sim::tower::Vote;

fn votes(slots: &[u64]) -> Vec<Vote> {
    slots.iter().map(|s| Vote { slot: *s, lockout: 2 }).collect()
}

/// A block in which every validator below `voters` casts `cast`.
fn block(slot: u64, parent: u64, voters: usize, cast: &[u64]) -> Block {
    Block { slot, parent, votes: (0..voters).map(|i| (i, votes(cast))).collect() }
}

/// The slots a validator that votes for every slot still holds when the block at `slot` is made.
fn recent(slot: u64) -> Vec<u64> {
    (slot.saturating_sub(6).max(1)..slot).collect()
}

fn apply(banks: &mut Banks, b: &Block) {
    assert!(banks.admits(b));
    banks.apply(b);
}

/// A chain 0 - 1 - ... - `len` in which every validator votes for every slot as soon as it can.
fn chain(len: u64) -> Banks {
    let mut banks = Banks::default();
    for slot in 1..=len {
        apply(&mut banks, &block(slot, slot - 1, NUM_NODES, &recent(slot)));
    }
    banks
}

#[test]
fn genesis_store() {
    let banks = Banks::default();
    assert_eq!(banks.lowest_root, Vote { slot: 0, lockout: 0 });
    assert_eq!(banks.fork_map.len(), 1);
    assert!(banks.fork_map.contains_key(&0));
    assert!(banks.fork_weights.is_empty());
    let genesis = &banks.fork_map[&0];
    assert!(genesis.frozen);
    for t in &genesis.nodes {
        assert!(t.votes().is_empty());
        assert_eq!(t.root, Vote::zero());
    }
}

#[test]
fn compute_fork_walks_to_genesis() {
    let mut banks = Banks::default();
    apply(&mut banks, &block(1, 0, 0, &[]));
    apply(&mut banks, &block(2, 1, 0, &[]));
    apply(&mut banks, &block(5, 1, 0, &[]));
    apply(&mut banks, &block(7, 5, 0, &[]));
    assert_eq!(banks.compute_fork(0), vec![0]);
    assert_eq!(banks.compute_fork(2), vec![2, 1, 0]);
    assert_eq!(banks.compute_fork(7), vec![7, 5, 1, 0]);
    // a slot without a bank is a fork of its own
    assert_eq!(banks.compute_fork(6), vec![6]);
}

#[test]
fn apply_links_parent_and_child() {
    let mut banks = Banks::default();
    apply(&mut banks, &block(1, 0, 0, &[]));
    apply(&mut banks, &block(2, 0, 0, &[]));
    assert_eq!(banks.fork_map[&0].children, vec![1, 2]);
    assert_eq!(banks.fork_map[&1].parent, 0);
    assert_eq!(banks.fork_map[&2].parent, 0);
    assert!(banks.fork_map[&1].frozen);
    assert!(banks.fork_map[&1].children.is_empty());
    assert_eq!(banks.lowest_root, Vote::zero());
}

#[test]
fn admits_names_what_apply_needs() {
    let mut banks = Banks::default();
    apply(&mut banks, &block(1, 0, 0, &[]));
    // the slot is taken
    assert!(!banks.admits(&block(1, 0, 0, &[])));
    // the parent has no bank
    assert!(!banks.admits(&block(5, 3, 0, &[])));
    // the block is not later than its parent
    assert!(!banks.admits(&Block { slot: 0, parent: 1, votes: vec![] }));
    // a vote for a slot that is not on the fork
    apply(&mut banks, &block(2, 0, 0, &[]));
    assert!(!banks.admits(&block(3, 2, 1, &[1])));
    assert!(banks.admits(&block(3, 1, 1, &[1])));
    // a vote for the block's own slot, and for its parent's
    assert!(banks.admits(&block(3, 2, 1, &[2, 3])));
    // an entry that names no validator
    assert!(!banks.admits(&Block { slot: 3, parent: 2, votes: vec![(NUM_NODES, vec![])] }));
}

#[test]
fn weights_count_latest_votes_along_the_fork() {
    let mut banks = Banks::default();
    apply(&mut banks, &block(1, 0, 0, &[]));
    // nobody has voted: every latest vote is the root, slot 0
    assert_eq!(banks.fork_weights[&0], NUM_NODES);
    assert_eq!(banks.fork_weights[&1], NUM_NODES);
    // 600 validators vote for 1 in the block at 2, 300 of them again in the block at 3
    apply(&mut banks, &block(2, 1, 600, &[1]));
    apply(&mut banks, &block(3, 1, 300, &[1]));
    assert_eq!(banks.fork_weights[&0], NUM_NODES - 600);
    assert_eq!(banks.fork_weights[&1], NUM_NODES);
    assert_eq!(banks.fork_weights[&2], NUM_NODES);
    assert_eq!(banks.fork_weights[&3], NUM_NODES);
    // 100 validators vote for 2 on the fork of 2, 50 others for 3 on the fork of 3
    apply(&mut banks, &block(4, 2, 100, &[2]));
    apply(
        &mut banks,
        &Block { slot: 5, parent: 3, votes: (100..150).map(|i| (i, votes(&[3]))).collect() },
    );
    assert_eq!(banks.fork_weights[&0], NUM_NODES - 600);
    assert_eq!(banks.fork_weights[&1], NUM_NODES - 150);
    assert_eq!(banks.fork_weights[&2], NUM_NODES - 50);
    assert_eq!(banks.fork_weights[&4], NUM_NODES - 50);
    assert_eq!(banks.fork_weights[&3], NUM_NODES - 100);
    assert_eq!(banks.fork_weights[&5], NUM_NODES - 100);
    assert_eq!(banks.fork_weights.len(), banks.fork_map.len());
}

#[test]
fn weight_is_parent_weight_and_own_votes() {
    let mut banks = Banks::default();
    apply(&mut banks, &block(1, 0, 0, &[]));
    apply(&mut banks, &block(2, 1, 600, &[1]));
    apply(&mut banks, &block(3, 1, 300, &[1]));
    apply(&mut banks, &block(4, 2, 100, &[2]));
    apply(&mut banks, &block(6, 4, 10, &[4]));
    let mut latest = std::collections::HashMap::new();
    for b in banks.fork_map.values() {
        b.latest_votes(&mut latest);
    }
    for (slot, bank) in &banks.fork_map {
        let own = latest.values().filter(|s| *s == slot).count();
        if *slot == banks.lowest_root.slot {
            assert_eq!(banks.fork_weights[slot], own);
        } else {
            assert_eq!(banks.fork_weights[slot], banks.fork_weights[&bank.parent] + own);
        }
    }
}

#[test]
fn lowest_root_moves_up_and_the_store_is_pruned() {
    // in the block at `s` every validator has voted for 1 ..= s - 1
    let banks = chain(7);
    assert_eq!(banks.lowest_root.slot, 0);
    assert_eq!(banks.fork_map.len(), 8);
    let mut banks = chain(8);
    // the seventh vote roots slot 1 in every tower
    assert_eq!(banks.lowest_root, Vote { slot: 1, lockout: 64 });
    assert!(!banks.fork_map.contains_key(&0));
    assert_eq!(banks.fork_map.len(), 8);
    assert_eq!(banks.fork_weights.len(), 8);
    assert_eq!(banks.compute_fork(8), vec![8, 7, 6, 5, 4, 3, 2, 1, 0]);
    // a fork off slot 1 dies when the root moves past it
    apply(&mut banks, &block(20, 1, 0, &[]));
    assert!(banks.fork_map.contains_key(&20));
    apply(&mut banks, &block(9, 8, NUM_NODES, &recent(9)));
    assert_eq!(banks.lowest_root.slot, 2);
    assert!(!banks.fork_map.contains_key(&1));
    assert!(!banks.fork_map.contains_key(&20));
    assert_eq!(banks.fork_map.len(), 8);
    assert_eq!(banks.fork_weights[&9], NUM_NODES);
    assert_eq!(banks.fork_weights[&2], 0);
}

#[test]
fn lowest_root_never_moves_back_and_forks_reach_it() {
    let mut banks = Banks::default();
    let mut lowest = 0;
    for slot in 1..=30u64 {
        apply(&mut banks, &block(slot, slot - 1, NUM_NODES, &recent(slot)));
        if slot % 3 == 0 {
            // a block off the chain that nobody votes for
            apply(&mut banks, &block(1000 + slot, slot - 1, 0, &[]));
        }
        assert!(banks.lowest_root.slot >= lowest);
        lowest = banks.lowest_root.slot;
        for s in banks.fork_map.keys() {
            let fork = banks.compute_fork(*s);
            assert!(fork.contains(&lowest));
            assert!(banks.fork_weights.contains_key(s));
        }
    }
    assert_eq!(lowest, 23);
}

#[test]
fn supermajority_root_count_follows_the_chain() {
    let banks = chain(10);
    // the supermajority root first differs from the parent's in the bank at 8
    assert_eq!(banks.fork_map[&7].subcom.num_super_roots, 0);
    assert_eq!(banks.fork_map[&8].subcom.super_root, 1);
    assert_eq!(banks.fork_map[&8].subcom.num_super_roots, 1);
    assert_eq!(banks.fork_map[&9].subcom.super_root, 2);
    assert_eq!(banks.fork_map[&9].subcom.num_super_roots, 2);
    assert_eq!(banks.fork_map[&10].subcom.parent_num_super_roots, 2);
}

#[test]
fn gc_keeps_what_descends_from_the_lowest_root() {
    let mut banks = Banks::default();
    apply(&mut banks, &block(1, 0, 0, &[]));
    apply(&mut banks, &block(2, 1, 0, &[]));
    apply(&mut banks, &block(3, 1, 0, &[]));
    apply(&mut banks, &block(4, 2, 0, &[]));
    apply(&mut banks, &block(5, 0, 0, &[]));
    banks.lowest_root = Vote { slot: 2, lockout: 64 };
    banks.gc();
    let mut kept: Vec<u64> = banks.fork_map.keys().copied().collect();
    kept.sort();
    assert_eq!(kept, vec![2, 4]);
    // the fork ends at the parent of the lowest root, which has no bank any more
    assert_eq!(banks.compute_fork(4), vec![4, 2, 1]);
    banks.build_fork_weights();
    assert_eq!(banks.fork_weights.len(), 2);
    assert_eq!(banks.fork_weights[&2], 0);
    assert_eq!(banks.fork_weights[&4], 0);
}
