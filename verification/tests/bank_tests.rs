use std::collections::HashMap;
use std::collections::HashSet;
use tower_sim::bank::Bank;
use tower_sim::bank::Block;
use tower_sim::bank::NUM_NODES;
use tower_sim::bank::SUPERMAJORITY;
use tower_sim::bank::SUPER_ROOT_RANK;
use tower_sim::subcommittee::Subcommittee;
use tower_sim::tower::Vote;

fn vote(slot: u64) -> Vote {
    Vote { slot, lockout: 2 }
}

fn votes(slots: &[u64]) -> Vec<Vote> {
    slots.iter().map(|s| vote(*s)).collect()
}

fn fork(slots: &[u64]) -> HashSet<u64> {
    slots.iter().copied().collect()
}

/// A frozen bank at `slot` on top of genesis in which validator `i` has voted for `slots_of(i)`.
fn bank_with(slot: u64, slots_of: &dyn Fn(usize) -> Vec<u64>) -> Bank {
    let mut genesis = Bank::zero();
    let mut bank = genesis.child(slot);
    let mut allowed: HashSet<u64> = HashSet::new();
    let mut entries = Vec::new();
    for i in 0..NUM_NODES {
        let cast = slots_of(i);
        for s in &cast {
            allowed.insert(*s);
        }
        entries.push((i, votes(&cast)));
    }
    let block = Block { slot, parent: 0, votes: entries };
    bank.apply(&block, &allowed);
    bank
}

#[test]
fn bank_constants() {
    assert_eq!(NUM_NODES, 997);
    assert_eq!(SUPER_ROOT_RANK, 332);
    assert_eq!(SUPERMAJORITY, 664);
}

#[test]
fn genesis_bank() {
    let b = Bank::zero();
    assert_eq!(b.slot, 0);
    assert_eq!(b.parent, 0);
    assert!(b.frozen);
    assert!(b.children.is_empty());
    assert_eq!(b.nodes.len(), NUM_NODES);
    for t in &b.nodes {
        assert!(t.votes().is_empty());
        assert_eq!(t.root, Vote::zero());
    }
    assert_eq!(b.subcom.primary, Subcommittee::calc_subcommittee(0));
    assert_eq!(b.calc_super_root(), Vote::zero());
    assert_eq!(b.lowest_root(), Vote::zero());
}

#[test]
fn child_copies_towers_and_is_listed() {
    let mut parent = bank_with(3, &|i| if i < 10 { vec![1, 2] } else { vec![] });
    let child = parent.child(9);
    assert_eq!(child.slot, 9);
    assert_eq!(child.parent, 3);
    assert!(!child.frozen);
    assert!(child.children.is_empty());
    assert_eq!(parent.children, vec![9]);
    assert_eq!(child.nodes.len(), NUM_NODES);
    for i in 0..NUM_NODES {
        assert_eq!(child.nodes[i].votes(), parent.nodes[i].votes());
        assert_eq!(child.nodes[i].root, parent.nodes[i].root);
    }
    assert_eq!(child.subcom.parent_num_super_roots, parent.subcom.num_super_roots);
    assert_eq!(child.subcom.parent_super_root, parent.subcom.super_root);
    let second = parent.child(11);
    assert_eq!(second.parent, 3);
    assert_eq!(parent.children, vec![9, 11]);
}

#[test]
fn apply_offers_votes_in_order_and_freezes() {
    let mut genesis = Bank::zero();
    let mut bank = genesis.child(5);
    let block = Block {
        slot: 5,
        parent: 0,
        votes: vec![(3, votes(&[1, 2])), (4, votes(&[2, 1])), (3, votes(&[2, 4]))],
    };
    bank.apply(&block, &fork(&[0, 1, 2, 4, 5]));
    assert!(bank.frozen);
    assert_eq!(
        bank.nodes[3].votes(),
        vec![
            Vote { slot: 4, lockout: 2 },
            Vote { slot: 2, lockout: 4 },
            Vote { slot: 1, lockout: 8 },
        ]
    );
    // the second vote of validator 4 is not above its first and is passed over
    assert_eq!(bank.nodes[4].votes(), vec![Vote { slot: 2, lockout: 2 }]);
    assert!(bank.nodes[5].votes().is_empty());
    assert_eq!(bank.subcom.super_root, 0);
    assert_eq!(bank.subcom.num_super_roots, 0);
}

#[test]
fn super_root_is_the_root_at_rank_one_third() {
    // validators below 332 stay at root 0, the others root slot 1
    let bank = bank_with(9, &|i| if i < 332 { vec![] } else { vec![1, 2, 3, 4, 5, 6, 7] });
    assert_eq!(bank.nodes[0].root.slot, 0);
    assert_eq!(bank.nodes[332].root.slot, 1);
    assert_eq!(bank.calc_super_root(), Vote { slot: 1, lockout: 64 });
    assert_eq!(bank.lowest_root(), Vote::zero());
    assert_eq!(bank.subcom.super_root, 1);
    assert_eq!(bank.subcom.num_super_roots, 1);
    // one validator more at root 0, and the rank falls on root 0
    let bank = bank_with(9, &|i| if i < 333 { vec![] } else { vec![1, 2, 3, 4, 5, 6, 7] });
    assert_eq!(bank.calc_super_root(), Vote::zero());
    assert_eq!(bank.subcom.num_super_roots, 0);
}

#[test]
fn two_thirds_are_rooted_at_or_above_the_super_root() {
    let bank = bank_with(20, &|i| {
        let n = 7 + (i % 5) as u64;
        (1..=n).collect()
    });
    let r = bank.calc_super_root();
    let at_or_above = bank.nodes.iter().filter(|t| t.root.slot >= r.slot).count();
    assert!(3 * at_or_above >= 2 * NUM_NODES);
    let below = bank.nodes.iter().filter(|t| t.root.slot < r.slot).count();
    let at_or_below = bank.nodes.iter().filter(|t| t.root.slot <= r.slot).count();
    assert!(below <= SUPER_ROOT_RANK && SUPER_ROOT_RANK < at_or_below);
    let mut sorted: Vec<u64> = bank.nodes.iter().map(|t| t.root.slot).collect();
    sorted.sort();
    assert_eq!(r.slot, sorted[NUM_NODES / 3]);
    assert_eq!(bank.lowest_root().slot, sorted[0]);
}

#[test]
fn threshold_counts_supporting_towers() {
    // 700 validators hold [3(2), 2(4), 1(8)], the rest nothing
    let bank = bank_with(4, &|i| if i < 700 { vec![1, 2, 3] } else { vec![] });
    // a vote at or past the slot with a long enough lockout supports
    assert_eq!(bank.calc_threshold_slot(1, &Vote { slot: 1, lockout: 8 }), 700);
    assert_eq!(bank.calc_threshold_slot(1, &Vote { slot: 1, lockout: 9 }), 0);
    // 3 + 2 * 2 = 7 >= 2 + 5
    assert_eq!(bank.calc_threshold_slot(2, &Vote { slot: 2, lockout: 5 }), 700);
    // 2 + 4 * 1 = 6 >= 2 + 4, and nothing reaches 2 + 5
    assert_eq!(bank.calc_threshold_slot(1, &Vote { slot: 2, lockout: 4 }), 700);
    assert_eq!(bank.calc_threshold_slot(1, &Vote { slot: 2, lockout: 5 }), 0);
    // no vote at or past slot 4
    assert_eq!(bank.calc_threshold_slot(64, &Vote { slot: 4, lockout: 2 }), 0);
    // a vote with the greatest lockout needs only a vote at or past its slot
    assert_eq!(bank.calc_threshold_slot(0, &Vote { slot: 3, lockout: 64 }), 700);
    // every tower is rooted at or past slot 0
    assert_eq!(bank.calc_threshold_slot(0, &Vote { slot: 0, lockout: 1000 }), NUM_NODES);
}

#[test]
fn threshold_needs_more_than_two_thirds() {
    let bank = bank_with(4, &|i| if i < 665 { vec![1, 2, 3] } else { vec![] });
    assert!(bank.threshold_slot(&Vote { slot: 2, lockout: 4 }));
    let bank = bank_with(4, &|i| if i < 664 { vec![1, 2, 3] } else { vec![] });
    assert!(!bank.threshold_slot(&Vote { slot: 2, lockout: 4 }));
}

#[test]
fn threshold_does_not_overflow() {
    let bank = bank_with(4, &|i| if i < 10 { vec![u64::MAX - 1] } else { vec![] });
    assert_eq!(
        bank.calc_threshold_slot(u64::MAX, &Vote { slot: u64::MAX - 1, lockout: u32::MAX }),
        10
    );
    assert_eq!(
        bank.calc_threshold_slot(0, &Vote { slot: u64::MAX - 1, lockout: u32::MAX }),
        0
    );
}

#[test]
fn latest_votes_keep_the_greater_slot() {
    let bank = bank_with(9, &|i| match i {
        0 => vec![1, 2, 3],
        1 => vec![5],
        2 => vec![1, 2, 3, 4, 5, 6, 7, 20],
        _ => vec![],
    });
    let mut latest: HashMap<usize, u64> = HashMap::new();
    latest.insert(0, 7);
    latest.insert(1, 2);
    latest.insert(5000, 1);
    bank.latest_votes(&mut latest);
    assert_eq!(latest.len(), NUM_NODES + 1);
    assert_eq!(latest[&0], 7);
    assert_eq!(latest[&1], 5);
    assert_eq!(latest[&2], 20);
    assert_eq!(latest[&3], 0);
    assert_eq!(latest[&5000], 1);
}

#[test]
fn latest_vote_of_an_empty_stack_is_the_root() {
    // everything expires at 1000 but the root stays at 1
    let bank = bank_with(1001, &|i| if i == 0 { vec![1, 2, 3, 4, 5, 6, 7] } else { vec![] });
    let mut genesis_child = bank;
    let mut next = genesis_child.child(1002);
    next.nodes[0].votes.clear();
    let mut latest: HashMap<usize, u64> = HashMap::new();
    next.latest_votes(&mut latest);
    assert_eq!(latest[&0], 1);
}

#[test]
fn well_formed_banks_and_fitting_blocks() {
    let mut genesis = Bank::zero();
    assert!(genesis.is_well_formed());
    let mut child = genesis.child(4);
    assert!(child.is_well_formed());
    let b = Block { slot: 4, parent: 0, votes: vec![(0, votes(&[1, 2])), (996, votes(&[4]))] };
    assert!(b.fits(&fork(&[0, 1, 2, 4])));
    assert!(!b.fits(&fork(&[0, 1, 4])));
    let b = Block { slot: 4, parent: 0, votes: vec![(997, vec![])] };
    assert!(!b.fits(&fork(&[0, 4])));
    // a tower out of shape
    child.nodes[5].votes.push(Vote { slot: 3, lockout: 3 });
    assert!(!child.is_well_formed());
    child.nodes[5].votes.clear();
    assert!(child.is_well_formed());
    child.nodes.pop();
    assert!(!child.is_well_formed());
}

#[test]
fn roots_of_one_slot_keep_the_order_of_their_validators() {
    let mut bank = Bank::zero();
    for (i, t) in bank.nodes.iter_mut().enumerate() {
        t.root = Vote { slot: if i < 10 { 7 } else { 3 }, lockout: i as u32 };
    }
    // validators 10 .. 997 come first, in their order: position 332 is validator 342
    assert_eq!(bank.calc_super_root(), Vote { slot: 3, lockout: 342 });
    assert_eq!(bank.lowest_root(), Vote { slot: 3, lockout: 10 });
    let mut sorted: Vec<Vote> = bank.nodes.iter().map(|t| t.root).collect();
    sorted.sort_by_key(|v| v.slot);
    assert_eq!(bank.calc_super_root(), sorted[NUM_NODES / 3]);
    assert_eq!(bank.lowest_root(), sorted[0]);
}
