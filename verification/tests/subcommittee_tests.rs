use std::collections::HashSet;
use std::hash::Hash;
use std::hash::Hasher;
use tower_sim::subcommittee::Phase;
use tower_sim::subcommittee::Subcommittee;
use tower_sim::subcommittee::SUBCOMMITTEE_EPOCH;
use tower_sim::subcommittee::SUBCOMMITTEE_SIZE;

fn at(num_super_roots: u64) -> Subcommittee {
    let mut s = Subcommittee::default();
    s.num_super_roots = num_super_roots;
    s
}

#[test]
fn subcommittee_constants() {
    assert_eq!(SUBCOMMITTEE_EPOCH, 64);
    assert_eq!(SUBCOMMITTEE_SIZE, 200);
}

#[test]
fn hash_is_a_function_of_its_argument() {
    assert_eq!(Subcommittee::hash(7), Subcommittee::hash(7));
    assert_ne!(Subcommittee::hash(7), Subcommittee::hash(8));
    assert_ne!(Subcommittee::hash(7), 7);
}

#[test]
fn hash_is_the_default_hasher_on_the_value() {
    let mut h = std::collections::hash_map::DefaultHasher::new();
    h.write(&12345u64.to_le_bytes());
    assert_eq!(Subcommittee::hash(12345), h.finish());
    if cfg_little_endian() {
        let mut h = std::collections::hash_map::DefaultHasher::new();
        12345u64.hash(&mut h);
        assert_eq!(Subcommittee::hash(12345), h.finish());
    }
}

fn cfg_little_endian() -> bool {
    1u16.to_ne_bytes() == 1u16.to_le_bytes()
}

#[test]
fn committee_is_drawn_from_rehashed_seeds() {
    let set = Subcommittee::calc_subcommittee(3);
    let mut expected: HashSet<usize> = HashSet::new();
    let mut seed = Subcommittee::hash(3);
    for _ in 0..SUBCOMMITTEE_SIZE {
        expected.insert((seed % SUBCOMMITTEE_SIZE as u64) as usize);
        seed = Subcommittee::hash(seed);
    }
    assert_eq!(set, expected);
    assert!(!set.is_empty());
    assert!(set.len() <= SUBCOMMITTEE_SIZE);
    assert!(set.iter().all(|id| *id < SUBCOMMITTEE_SIZE));
}

#[test]
fn committee_is_deterministic() {
    assert_eq!(Subcommittee::calc_subcommittee(9), Subcommittee::calc_subcommittee(9));
}

#[test]
fn default_has_the_committee_of_epoch_zero_twice() {
    let s = Subcommittee::default();
    assert_eq!(s.primary, Subcommittee::calc_subcommittee(0));
    assert_eq!(s.secondary, Subcommittee::calc_subcommittee(0));
    assert_eq!(s.num_super_roots, 0);
    assert_eq!(s.parent_num_super_roots, 0);
    assert_eq!(s.super_root, 0);
    assert_eq!(s.parent_super_root, 0);
}

#[test]
fn epoch_and_phase() {
    let mut s = Subcommittee::default();
    for (n, epoch, phase) in [
        (0u64, 0u64, Phase::SecondaryRotationB),
        (63, 0, Phase::SecondaryRotationB),
        (64, 1, Phase::PrimaryA2B),
        (128, 2, Phase::SecondaryRotationA),
        (192, 3, Phase::PrimaryB2A),
        (256, 4, Phase::SecondaryRotationB),
    ] {
        s.parent_num_super_roots = n;
        assert_eq!(s.subcommittee_epoch(), epoch);
        assert_eq!(s.subcommittee_phase(), phase);
    }
}

#[test]
fn child_latches_the_counters() {
    let mut s = at(5);
    s.super_root = 40;
    s.parent_super_root = 30;
    s.parent_num_super_roots = 4;
    let c = s.child();
    assert_eq!(c.num_super_roots, 5);
    assert_eq!(c.parent_num_super_roots, 5);
    assert_eq!(c.super_root, 40);
    assert_eq!(c.parent_super_root, 40);
    assert_eq!(c.primary, s.primary);
    assert_eq!(c.secondary, s.secondary);
}

#[test]
fn freeze_counts_an_advance_once() {
    let mut s = at(5);
    s.parent_super_root = 40;
    s.super_root = 40;
    s.freeze(40);
    assert_eq!(s.num_super_roots, 5);
    assert_eq!(s.super_root, 40);
    s.freeze(47);
    assert_eq!(s.num_super_roots, 6);
    assert_eq!(s.super_root, 47);
}

#[test]
fn init_child_in_the_same_epoch_changes_nothing() {
    let parent = at(10);
    let mut c = parent.child();
    c.secondary = [1usize, 2, 3].into_iter().collect();
    let before_primary = c.primary.clone();
    let before_secondary = c.secondary.clone();
    c.init_child(&parent);
    assert_eq!(c.primary, before_primary);
    assert_eq!(c.secondary, before_secondary);
}

#[test]
fn init_child_swaps_in_odd_epochs() {
    let mut parent = at(64);
    parent.parent_num_super_roots = 63;
    parent.secondary = [1usize, 2, 3].into_iter().collect();
    let mut c = parent.child();
    c.init_child(&parent);
    assert_eq!(c.subcommittee_epoch(), 1);
    assert_eq!(c.primary, parent.secondary);
    assert_eq!(c.secondary, parent.primary);
}

#[test]
fn subcommittee_rotation_redraws_the_secondary() {
    // the count of supermajority roots crosses into epoch 4, whose phase redraws
    let mut parent = at(4 * SUBCOMMITTEE_EPOCH);
    parent.parent_num_super_roots = 4 * SUBCOMMITTEE_EPOCH - 1;
    parent.primary = [7usize].into_iter().collect();
    parent.secondary = [8usize].into_iter().collect();
    let mut c = parent.child();
    c.init_child(&parent);
    assert_eq!(c.subcommittee_phase(), Phase::SecondaryRotationB);
    assert_eq!(c.primary, parent.primary);
    assert_eq!(c.secondary, Subcommittee::calc_subcommittee(4));
    // and so does epoch 2
    let mut parent = at(2 * SUBCOMMITTEE_EPOCH);
    parent.parent_num_super_roots = 2 * SUBCOMMITTEE_EPOCH - 1;
    let mut c = parent.child();
    c.init_child(&parent);
    assert_eq!(c.subcommittee_phase(), Phase::SecondaryRotationA);
    assert_eq!(c.secondary, Subcommittee::calc_subcommittee(2));
}
