use std::collections::HashMap;
use tower_sim::bank::Block;
use tower_sim::bank::NUM_NODES;
use tower_sim::banks::Banks;
use tower_sim::node::fork_contains;
use tower_sim::node::Node;
use tower_sim::node::MAX_BLOCKS;
use tower_sim::node::SWITCH_STAKE;
use tower_sim::tower::Tower;
use tower_sim::tower::Vote;

fn votes(slots: &[u64]) -> Vec<Vote> {
    slots.iter().map(|s| Vote { slot: *s, lockout: 2 }).collect()
}

fn tower_of(slots: &[u64]) -> Tower {
    let mut t = Tower::default();
    for s in slots {
        assert!(t.apply(&Vote { slot: *s, lockout: 2 }).is_ok());
    }
    t
}

fn block(slot: u64, parent: u64, voters: std::ops::Range<usize>, cast: &[u64]) -> Block {
    Block { slot, parent, votes: voters.map(|i| (i, votes(cast))).collect() }
}

fn apply(banks: &mut Banks, b: &Block) {
    assert!(banks.admits(b));
    banks.apply(b);
}

fn seeing(id: usize, slots: &[u64]) -> Node {
    let mut n = Node::zero(id);
    for s in slots {
        n.set_active_block(*s);
    }
    n
}

fn attempt(node: &mut Node, banks: &Banks) {
    assert!(node.can_attempt(banks));
    node.vote(banks);
}

#[test]
fn node_constants() {
    assert_eq!(MAX_BLOCKS, 1024);
    assert_eq!(SWITCH_STAKE, 332);
}

#[test]
fn fresh_node() {
    let n = Node::zero(17);
    assert_eq!(n.id, 17);
    assert_eq!(n.blocks.len(), 1);
    assert!(n.blocks.contains(&0));
    assert!(n.tower.votes().is_empty());
    assert_eq!(n.tower.root, Vote::zero());
    assert_eq!(n.heaviest_fork, vec![0]);
    assert!(n.votes().is_empty());
}

#[test]
fn fork_contains_finds_slots() {
    assert!(fork_contains(&[5, 3, 0], 3));
    assert!(!fork_contains(&[5, 3, 0], 4));
    assert!(!fork_contains(&[], 0));
}

#[test]
fn active_blocks_are_kept_up_to_the_bound() {
    let mut n = Node::zero(0);
    n.tower = tower_of(&[500, 501, 502, 503, 504, 505, 506]);
    assert_eq!(n.tower.root.slot, 500);
    for s in 1..MAX_BLOCKS as u64 {
        n.set_active_block(s);
    }
    // 0 and 1 ..= 1023: the bound is reached and not passed
    assert_eq!(n.blocks.len(), MAX_BLOCKS);
    n.set_active_block(5);
    assert_eq!(n.blocks.len(), MAX_BLOCKS);
    // one more, and everything below the root goes
    n.set_active_block(2000);
    assert_eq!(n.blocks.len(), 1024 - 500 + 1);
    assert!(n.blocks.contains(&500));
    assert!(!n.blocks.contains(&499));
    assert!(n.blocks.contains(&2000));
}

#[test]
fn gc_forgets_blocks_below_the_root() {
    let mut n = seeing(0, &[1, 2, 3, 4]);
    n.tower = tower_of(&[3, 4, 5, 6, 7, 8, 9]);
    n.gc();
    let mut held: Vec<u64> = n.blocks.iter().copied().collect();
    held.sort();
    assert_eq!(held, vec![3, 4]);
}

#[test]
fn votes_are_handed_out_with_lockout_two() {
    let mut n = Node::zero(0);
    n.tower = tower_of(&[1, 2, 3]);
    assert_eq!(
        n.votes(),
        vec![
            Vote { slot: 3, lockout: 2 },
            Vote { slot: 2, lockout: 2 },
            Vote { slot: 1, lockout: 2 },
        ]
    );
}

#[test]
fn make_block_takes_entries_whose_last_vote_is_on_the_fork() {
    let mut n = Node::zero(3);
    n.heaviest_fork = vec![7, 5, 1, 0];
    let b = n.make_block(
        9,
        vec![
            (0, votes(&[7, 5])),
            (1, votes(&[5, 6])),
            (2, vec![]),
            (4, votes(&[6, 1])),
            (5, vec![Vote { slot: 0, lockout: 64 }]),
        ],
    );
    assert_eq!(b.slot, 9);
    assert_eq!(b.parent, 7);
    assert_eq!(
        b.votes,
        vec![
            (0, votes(&[7, 5])),
            (4, votes(&[6, 1])),
            (5, vec![Vote { slot: 0, lockout: 64 }]),
        ]
    );
    n.heaviest_fork = vec![];
    let b = n.make_block(9, vec![(0, votes(&[7]))]);
    assert_eq!(b.parent, 0);
    assert!(b.votes.is_empty());
}

#[test]
fn make_block_reads_the_end_of_each_list() {
    let n = Node::zero(0);
    assert_eq!(n.heaviest_fork, vec![0]);
    let peers = vec![
        (1, vec![Vote { slot: 0, lockout: 2 }]),
        (2, vec![]),
        (3, vec![Vote { slot: 0, lockout: 2 }, Vote { slot: 7, lockout: 2 }]),
        (4, vec![Vote { slot: 7, lockout: 9 }, Vote { slot: 0, lockout: 9 }]),
    ];
    let b = n.make_block(5, peers);
    assert_eq!(b.slot, 5);
    assert_eq!(b.parent, 0);
    assert_eq!(
        b.votes,
        vec![
            (1, vec![Vote { slot: 0, lockout: 2 }]),
            (4, vec![Vote { slot: 7, lockout: 9 }, Vote { slot: 0, lockout: 9 }]),
        ]
    );
    // the node itself is as it was
    assert_eq!(n.heaviest_fork, vec![0]);
    assert!(n.tower.votes().is_empty());
}

#[test]
fn lockout_check_wants_every_vote_on_the_fork() {
    let mut n = Node::zero(0);
    n.heaviest_fork = vec![7, 5, 1, 0];
    assert!(n.lockout_check(&tower_of(&[1, 5, 7])));
    assert!(!n.lockout_check(&tower_of(&[1, 6, 7])));
    // a tower without votes is checked by its root
    assert!(n.lockout_check(&Tower::default()));
    let mut rooted = tower_of(&[5, 6, 7, 8, 9, 10, 11]);
    rooted.votes.clear();
    assert_eq!(rooted.root.slot, 5);
    assert!(n.lockout_check(&rooted));
    n.heaviest_fork = vec![7, 6];
    assert!(!n.lockout_check(&rooted));
    assert!(!n.lockout_check(&Tower::default()));
}

#[test]
fn threshold_check_asks_for_two_thirds_on_increased_votes() {
    // in the bank at 3, validators below `voters` hold [2(2), 1(4)]
    let with = |voters: usize| {
        let mut banks = Banks::default();
        apply(&mut banks, &block(1, 0, 0..0, &[]));
        apply(&mut banks, &block(2, 1, 0..voters, &[1]));
        apply(&mut banks, &block(3, 2, 0..voters, &[1, 2]));
        banks
    };
    let n = Node::zero(0);
    // the tower [3(2), 2(4), 1(8)] raises 2 and 1 against the bank's [2(2), 1(4)]
    let banks = with(665);
    assert!(n.threshold_check(&tower_of(&[1, 2, 3]), &banks.fork_map[&3]));
    let banks = with(664);
    assert!(!n.threshold_check(&tower_of(&[1, 2, 3]), &banks.fork_map[&3]));
    // nothing is raised by the tower that the bank holds already
    assert!(n.threshold_check(&tower_of(&[1, 2]), &banks.fork_map[&3]));
    // a validator that the bank has no votes of raises nothing below the maximum
    let other = Node::zero(900);
    assert!(other.threshold_check(&tower_of(&[1, 2, 3]), &banks.fork_map[&3]));
    // but a vote at the maximum is always checked
    assert!(!other.threshold_check(&tower_of(&[1, 2, 3, 4, 5, 6]), &banks.fork_map[&3]));
}

/// Two forks off slot 1: 2 - 4 and 3 - 5; `on_left` validators have voted 1, 2 and the rest 1, 3.
fn forked(on_left: usize) -> Banks {
    let mut banks = Banks::default();
    apply(&mut banks, &block(1, 0, 0..0, &[]));
    apply(&mut banks, &block(2, 1, 0..NUM_NODES, &[1]));
    apply(&mut banks, &block(3, 1, 0..NUM_NODES, &[1]));
    apply(&mut banks, &block(4, 2, 0..on_left, &[2]));
    apply(&mut banks, &block(5, 3, on_left..NUM_NODES, &[3]));
    banks
}

#[test]
fn switching_needs_more_than_a_third_elsewhere() {
    let banks = forked(500);
    assert_eq!(banks.fork_weights[&4], 500);
    assert_eq!(banks.fork_weights[&5], 497);
    let mut n = seeing(0, &[1, 2, 3, 4, 5]);
    n.tower = tower_of(&[1, 2]);
    let weights: HashMap<u64, usize> = banks.fork_weights.clone();
    // staying on the fork of the last vote needs no proof
    assert!(n.optimistic_conf_check(&[4, 2, 1, 0], &weights, &banks));
    // the other fork holds 3 and 5, each weighing 497
    assert!(n.optimistic_conf_check(&[5, 3, 1, 0], &weights, &banks));
    // a node that has not seen 5 counts 3 only
    let mut blind = seeing(0, &[1, 2, 3, 4]);
    blind.tower = tower_of(&[1, 2]);
    assert!(blind.optimistic_conf_check(&[5, 3, 1, 0], &weights, &banks));
    // with 166 validators on the other fork, 3 and 5 weigh 332 together: not more than a third
    let banks = forked(NUM_NODES - 166);
    let weights: HashMap<u64, usize> = banks.fork_weights.clone();
    assert_eq!(banks.fork_weights[&3], 166);
    assert_eq!(banks.fork_weights[&5], 166);
    assert!(!n.optimistic_conf_check(&[5, 3, 1, 0], &weights, &banks));
    // with 167 it is more
    let banks = forked(NUM_NODES - 167);
    let weights: HashMap<u64, usize> = banks.fork_weights.clone();
    assert!(n.optimistic_conf_check(&[5, 3, 1, 0], &weights, &banks));
    // a tower without votes may always switch
    let fresh = seeing(0, &[1, 2, 3, 4, 5]);
    assert!(fresh.optimistic_conf_check(&[5, 3, 1, 0], &HashMap::new(), &banks));
}

#[test]
fn first_vote_goes_to_the_heaviest_visible_slot() {
    let mut banks = Banks::default();
    apply(&mut banks, &block(1, 0, 0..0, &[]));
    // weights are equal: the greater slot wins
    let mut n = seeing(5, &[1]);
    attempt(&mut n, &banks);
    assert_eq!(n.heaviest_fork, vec![1, 0]);
    assert_eq!(n.tower.votes(), vec![Vote { slot: 1, lockout: 2 }]);
    // a node that has not seen the block votes for nothing
    let mut blind = Node::zero(6);
    attempt(&mut blind, &banks);
    assert_eq!(blind.heaviest_fork, vec![0]);
    assert!(blind.tower.votes().is_empty());
    // a second attempt changes nothing
    attempt(&mut n, &banks);
    assert_eq!(n.tower.votes(), vec![Vote { slot: 1, lockout: 2 }]);
}

#[test]
fn heaviest_goes_by_weight_before_slot() {
    // 2 and 4 weigh 600, 3 and 5 weigh 397: the heavier fork wins over the later slot
    let banks = forked(600);
    let n = seeing(0, &[1, 2, 3, 4, 5]);
    let (slot, weights) = n.heaviest(&banks);
    assert_eq!(weights.len(), 6);
    assert_eq!(slot, 4);
    // at equal weight the later slot wins
    let n = seeing(0, &[3, 5]);
    let (slot, weights) = n.heaviest(&banks);
    assert_eq!(slot, 5);
    assert_eq!(weights.len(), 3);
    assert_eq!(weights[&5], 397);
    assert_eq!(weights[&3], 397);
    assert_eq!(weights[&0], 0);
    let n = seeing(0, &[2, 3]);
    assert_eq!(n.heaviest(&banks).0, 2);
    // nothing visible has a weight: slot 0
    let n = Node::zero(0);
    let none = Banks::default();
    assert_eq!(n.heaviest(&none).0, 0);
    assert!(n.heaviest(&none).1.is_empty());
}

#[test]
fn locked_out_node_does_not_vote() {
    let banks = forked(400);
    // 5 is the heaviest tip with 597; a node that voted 1, 2, 4 is locked out of 3 - 5 at slot 5
    let mut n = seeing(0, &[4, 5]);
    n.tower = tower_of(&[1, 2, 4]);
    let before = n.tower.votes();
    attempt(&mut n, &banks);
    assert_eq!(n.heaviest_fork, vec![5, 3, 1, 0]);
    assert_eq!(n.tower.votes(), before);
}

#[test]
fn vote_is_held_back_below_the_threshold() {
    // in the bank at 3 only 600 validators have voted for 1 and 2
    let mut banks = Banks::default();
    apply(&mut banks, &block(1, 0, 0..0, &[]));
    apply(&mut banks, &block(2, 1, 0..600, &[1]));
    apply(&mut banks, &block(3, 2, 0..600, &[1, 2]));
    let mut n = seeing(0, &[1, 2, 3]);
    n.tower = tower_of(&[1, 2]);
    let before = n.tower.votes();
    attempt(&mut n, &banks);
    assert_eq!(n.heaviest_fork, vec![3, 2, 1, 0]);
    assert_eq!(n.tower.votes(), before);
    // a validator whose votes the bank has not seen raises nothing and votes
    let mut late = seeing(700, &[1, 2, 3]);
    late.tower = tower_of(&[1, 2]);
    attempt(&mut late, &banks);
    assert_eq!(late.tower.votes().len(), 3);
    assert_eq!(late.tower.latest_vote().unwrap().slot, 3);
}

#[test]
fn cannot_attempt_without_a_path_to_the_lowest_root() {
    let mut banks = Banks::default();
    for slot in 1..=8u64 {
        let cast: Vec<u64> = (slot.saturating_sub(6).max(1)..slot).collect();
        apply(&mut banks, &block(slot, slot - 1, 0..NUM_NODES, &cast));
    }
    assert_eq!(banks.lowest_root.slot, 1);
    // a node that has seen the genesis block only sees no weight
    let n = Node::zero(0);
    assert!(!n.can_attempt(&banks));
    let n = seeing(0, &[8]);
    assert!(n.can_attempt(&banks));
    let mut n = seeing(NUM_NODES, &[8]);
    assert!(!n.can_attempt(&banks));
    n.id = 0;
    assert!(n.can_attempt(&banks));
}

#[test]
fn threshold_is_checked_on_the_whole_tower_replayed_oldest_first() {
    let mut banks = Banks::default();
    apply(&mut banks, &block(3, 0, 0..0, &[]));
    let mut n = seeing(5, &[3]);
    attempt(&mut n, &banks);
    apply(&mut banks, &block(4, 3, 0..0, &[]));
    n.set_active_block(4);
    attempt(&mut n, &banks);
    assert_eq!(
        n.tower.votes(),
        vec![Vote { slot: 4, lockout: 2 }, Vote { slot: 3, lockout: 4 }]
    );
    // the block at 6 carries the node's vote for 3 only
    apply(&mut banks, &block(6, 4, 5..6, &[3]));
    assert_eq!(banks.fork_map[&6].nodes[5].votes(), vec![Vote { slot: 3, lockout: 2 }]);
    n.set_active_block(6);
    attempt(&mut n, &banks);
    assert_eq!(n.heaviest_fork, vec![6, 4, 3, 0]);
    // replayed oldest first the bank's tower becomes [6/2, 4/4, 3/8]: slot 3 rises
    // from 2 to 8 with one supporter, and the vote is held back
    assert_eq!(banks.fork_map[&6].calc_threshold_slot(64, &Vote { slot: 3, lockout: 8 }), 1);
    assert_eq!(
        n.tower.votes(),
        vec![Vote { slot: 4, lockout: 2 }, Vote { slot: 3, lockout: 4 }]
    );
    // a validator of which the bank holds nothing raises nothing and may vote
    let mut other = seeing(9, &[3, 4, 6]);
    other.tower = tower_of(&[3, 4]);
    attempt(&mut other, &banks);
    assert_eq!(other.tower.latest_vote().unwrap().slot, 6);
}
