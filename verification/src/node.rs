//! A validator: the blocks it has seen, its tower, and the rule by which it
//! decides whether it may vote for the heaviest fork it sees.

use crate::bank::offer_all;
use crate::bank::lemma_offer_all;
use crate::bank::Bank;
use crate::bank::BankView;
use crate::bank::Block;
use crate::bank::ID;
use crate::bank::NUM_NODES;
use crate::banks::Banks;
use crate::banks::BanksView;
use crate::collect::lemma_take_to_set;
use crate::collect::slot_keys;
use crate::collect::slot_members;
use crate::forest::fork_of;
use crate::stake::lemma_stake_insert;
use crate::stake::stake_of;
use crate::tower::increased_lockouts;
use crate::tower::is_increased;
use crate::tower::lemma_increased_lockouts;
use crate::tower::lemma_voted;
use crate::tower::Slot;
use crate::tower::Tower;
use crate::tower::TowerView;
use crate::tower::Vote;
use crate::tower::MAX_LOCKOUT;
pub use crate::tower::THRESHOLD;
use std::collections::HashMap;
use std::collections::HashSet;
use vstd::prelude::*;

verus! {

/// Number of blocks a validator remembers before it forgets those below its root.
pub const MAX_BLOCKS: usize = 1024;

/// Stake that the forks a validator turns to must exceed before it may leave
/// the fork of its last vote.
pub const SWITCH_STAKE: usize = NUM_NODES / 3;

/// Mathematical content of a validator.
pub struct NodeView {
    pub id: ID,
    pub blocks: Set<Slot>,
    pub tower: TowerView,
    pub heaviest_fork: Seq<Slot>,
}

/// A validator.
pub struct Node {
    pub id: ID,
    /// The slots whose blocks this validator has seen.
    pub blocks: HashSet<Slot>,
    pub tower: Tower,
    /// The heaviest fork as of the last vote attempt, most recent slot first.
    pub heaviest_fork: Vec<Slot>,
}

impl View for Node {
    type V = NodeView;

    open spec fn view(&self) -> NodeView {
        NodeView {
            id: self.id,
            blocks: self.blocks@,
            tower: self.tower@,
            heaviest_fork: self.heaviest_fork@,
        }
    }
}

/// The votes as a validator hands them to its peers: the same slots, every lockout set to 2.
pub open spec fn with_lockout_2(votes: Seq<Vote>) -> Seq<Vote> {
    Seq::new(votes.len(), |i: int| Vote { slot: votes[i].slot, lockout: 2 })
}

/// An entry is taken into a block when it holds votes and the last vote of
/// its list is for a slot of `fork`.
pub open spec fn is_on_fork(fork: Seq<Slot>, entry: (ID, Seq<Vote>)) -> bool {
    entry.1.len() > 0 && fork.contains(entry.1.last().slot)
}

/// The entries that are taken into a block on `fork`, in their order.
pub open spec fn entries_on_fork(fork: Seq<Slot>, entries: Seq<(ID, Seq<Vote>)>) -> Seq<
    (ID, Seq<Vote>),
>
    decreases entries.len(),
{
    if entries.len() == 0 {
        Seq::empty()
    } else {
        let before = entries_on_fork(fork, entries.drop_last());
        if is_on_fork(fork, entries.last()) {
            before.push(entries.last())
        } else {
            before
        }
    }
}

/// The lockout check: every vote of the tower is for a slot of `fork`; where
/// the tower holds no vote, its root is.
pub open spec fn locked_on(fork: Seq<Slot>, tower: TowerView) -> bool {
    if tower.votes.len() > 0 {
        forall|i: int|
            0 <= i < tower.votes.len() ==> fork.contains((#[trigger] tower.votes[i]).slot)
    } else {
        fork.contains(tower.root.slot)
    }
}

/// The threshold check: every vote of `tower` that is increased against the
/// validator's tower in `bank` meets the threshold in `bank`.
pub open spec fn threshold_met(bank: BankView, id: ID, tower: TowerView) -> bool {
    forall|i: int|
        0 <= i < tower.votes.len() && is_increased(
            bank.nodes[id as int].votes,
            MAX_LOCKOUT,
            #[trigger] tower.votes[i],
        ) ==> bank.meets_threshold(tower.votes[i])
}

/// Whether `x` is among the slots of `fork`.
pub fn fork_contains(fork: &[Slot], x: Slot) -> (b: bool)
    ensures
        b == fork@.contains(x),
{
    let mut i: usize = 0;
    while i < fork.len()
        invariant
            i <= fork.len(),
            forall|k: int| 0 <= k < i ==> fork@[k] != x,
        decreases fork.len() - i,
    {
        if fork[i] == x {
            return true;
        }
        i += 1;
    }
    false
}

impl Node {
    /// A validator that has seen the genesis block only and has not voted.
    pub fn zero(id: ID) -> (node: Node)
        ensures
            node@.id == id,
            node@.blocks == set![0u64],
            node@.tower.votes.len() == 0,
            node@.tower.root == crate::tower::zero_vote(),
            node@.tower.wf(),
            node@.heaviest_fork == seq![0u64],
    {
        broadcast use vstd::std_specs::hash::group_hash_axioms;

        let mut blocks: HashSet<Slot> = HashSet::new();
        blocks.insert(0);
        let mut heaviest_fork: Vec<Slot> = Vec::new();
        heaviest_fork.push(0);
        let node = Node { id, blocks, tower: Tower::default(), heaviest_fork };
        proof {
            assert(node@.blocks =~= set![0u64]);
            assert(node@.heaviest_fork =~= seq![0u64]);
        }
        node
    }

    /// Notes that the block at `slot` has been seen. Once more than `MAX_BLOCKS`
    /// slots are held, those below the tower's root are forgotten.
    pub fn set_active_block(&mut self, slot: Slot)
        ensures
            final(self)@ == (NodeView {
                blocks: if old(self)@.blocks.insert(slot).len() > MAX_BLOCKS {
                    old(self)@.blocks.insert(slot).filter(|x: Slot| x >= old(self)@.tower.root.slot)
                } else {
                    old(self)@.blocks.insert(slot)
                },
                ..old(self)@
            }),
    {
        broadcast use vstd::std_specs::hash::group_hash_axioms;

        self.blocks.insert(slot);
        if self.blocks.len() > MAX_BLOCKS {
            self.gc();
        }
    }

    /// Forgets the slots below the tower's root.
    pub fn gc(&mut self)
        ensures
            final(self)@ == (NodeView {
                blocks: old(self)@.blocks.filter(|x: Slot| x >= old(self)@.tower.root.slot),
                ..old(self)@
            }),
    {
        broadcast use vstd::std_specs::hash::group_hash_axioms;

        let root = self.tower.root.slot;
        let held = slot_members(&self.blocks);
        let mut kept: HashSet<Slot> = HashSet::new();
        let mut i: usize = 0;
        let ghost want = |x: Slot| x >= root;
        proof {
            assert(held@.take(0).to_set() =~= Set::<Slot>::empty());
            assert(kept@ =~= held@.take(0).to_set().filter(want));
        }
        while i < held.len()
            invariant
                i <= held.len(),
                want == |x: Slot| x >= root,
                kept@ == held@.take(i as int).to_set().filter(want),
            decreases held.len() - i,
        {
            proof {
                lemma_take_to_set(held@, i as int);
            }
            if held[i] >= root {
                kept.insert(held[i]);
            }
            proof {
                assert(kept@ =~= held@.take(i + 1).to_set().filter(want));
            }
            i += 1;
        }
        proof {
            assert(held@.take(i as int) =~= held@);
        }
        self.blocks = kept;
    }

    /// The votes of this validator as it hands them to its peers: the slots of
    /// its tower, most recent first, every lockout set to 2.
    pub fn votes(&self) -> (votes: Vec<Vote>)
        ensures
            votes@ == with_lockout_2(self@.tower.votes),
    {
        let held = self.tower.votes();
        let mut votes: Vec<Vote> = Vec::new();
        let mut i: usize = 0;
        while i < held.len()
            invariant
                i <= held.len(),
                held@ == self@.tower.votes,
                votes@ == with_lockout_2(held@.take(i as int)),
            decreases held.len() - i,
        {
            votes.push(Vote { slot: held[i].slot, lockout: 2 });
            proof {
                assert(votes@ =~= with_lockout_2(held@.take(i + 1)));
            }
            i += 1;
        }
        proof {
            assert(held@.take(i as int) =~= held@);
        }
        votes
    }

    /// Makes the block for `slot` on top of the heaviest fork: its parent is the
    /// tip of that fork, or 0 where the fork is empty, and it takes the entries
    /// of `votes` that hold votes and whose last vote is for a slot of that
    /// fork, in their order and as they are.
    pub fn make_block(&self, slot: Slot, votes: Vec<(ID, Vec<Vote>)>) -> (block: Block)
        ensures
            block@.slot == slot,
            block@.parent == if self@.heaviest_fork.len() > 0 {
                self@.heaviest_fork[0]
            } else {
                0
            },
            block@.votes == entries_on_fork(
                self@.heaviest_fork,
                votes@.map_values(|e: (ID, Vec<Vote>)| (e.0, e.1@)),
            ),
    {
        let ghost entries = votes@.map_values(|e: (ID, Vec<Vote>)| (e.0, e.1@));
        let mut taken: Vec<(ID, Vec<Vote>)> = Vec::new();
        let mut i: usize = 0;
        while i < votes.len()
            invariant
                i <= votes.len(),
                entries == votes@.map_values(|e: (ID, Vec<Vote>)| (e.0, e.1@)),
                taken@.map_values(|e: (ID, Vec<Vote>)| (e.0, e.1@)) == entries_on_fork(
                    self@.heaviest_fork,
                    entries.take(i as int),
                ),
            decreases votes.len() - i,
        {
            let id = votes[i].0;
            let cast = &votes[i].1;
            proof {
                assert(entries.take(i + 1).drop_last() =~= entries.take(i as int));
                assert(entries.take(i + 1).last() == (id, cast@));
            }
            let ghost before = taken@.map_values(|e: (ID, Vec<Vote>)| (e.0, e.1@));
            if cast.len() > 0 && fork_contains(
                self.heaviest_fork.as_slice(),
                cast[cast.len() - 1].slot,
            ) {
                let copy = cast.clone();
                assert(copy@ =~= cast@);
                taken.push((id, copy));
                proof {
                    assert(taken@.map_values(|e: (ID, Vec<Vote>)| (e.0, e.1@)) =~= before.push(
                        (id, cast@),
                    ));
                }
            }
            i += 1;
        }
        proof {
            assert(entries.take(i as int) =~= entries);
        }
        let parent = if self.heaviest_fork.len() > 0 {
            self.heaviest_fork[0]
        } else {
            0
        };
        Block { slot, parent, votes: taken }
    }

    /// The lockout check: whether every vote of `tower` is for a slot of the
    /// heaviest fork or, where `tower` holds no vote, its root is.
    pub fn lockout_check(&self, tower: &Tower) -> (b: bool)
        ensures
            b == locked_on(self@.heaviest_fork, tower@),
    {
        if tower.votes.len() > 0 {
            let mut i: usize = 0;
            while i < tower.votes.len()
                invariant
                    i <= tower.votes.len(),
                    forall|k: int|
                        0 <= k < i ==> self@.heaviest_fork.contains((#[trigger] tower@.votes[k]).slot),
                decreases tower.votes.len() - i,
            {
                if !fork_contains(self.heaviest_fork.as_slice(), tower.votes[i].slot) {
                    assert(!self@.heaviest_fork.contains(tower@.votes[i as int].slot));
                    return false;
                }
                i += 1;
            }
            true
        } else {
            fork_contains(self.heaviest_fork.as_slice(), tower.root.slot)
        }
    }

    /// The threshold check: whether every vote of `tower` whose lockout has
    /// reached `MAX_LOCKOUT`, or exceeds the lockout that this validator's tower
    /// in `bank` holds for the same slot, meets the threshold in `bank`.
    pub fn threshold_check(&self, tower: &Tower, bank: &Bank) -> (b: bool)
        requires
            self@.id < bank@.nodes.len(),
        ensures
            b == threshold_met(bank@, self@.id, tower@),
    {
        let proposed = bank.nodes[self.id].get_increased_lockouts(MAX_LOCKOUT, tower);
        let ghost base = bank@.nodes[self.id as int].votes;
        assert(base == bank.nodes[self.id as int]@.votes);
        let mut i: usize = 0;
        while i < proposed.len()
            invariant
                i <= proposed.len(),
                self@.id < bank@.nodes.len(),
                base == bank@.nodes[self@.id as int].votes,
                proposed@ == increased_lockouts(base, MAX_LOCKOUT, tower@.votes),
                forall|k: int| 0 <= k < i ==> bank@.meets_threshold(#[trigger] proposed@[k]),
            decreases proposed.len() - i,
        {
            if !bank.threshold_slot(&proposed[i]) {
                proof {
                    let v = proposed@[i as int];
                    assert(proposed@.contains(v));
                    lemma_increased_lockouts(base, MAX_LOCKOUT, tower@.votes, v);
                    let k = choose|k: int| 0 <= k < tower@.votes.len() && tower@.votes[k] == v;
                    assert(is_increased(base, MAX_LOCKOUT, tower@.votes[k]));
                    assert(!bank@.meets_threshold(tower@.votes[k]));
                }
                return false;
            }
            i += 1;
        }
        proof {
            assert forall|k: int|
                0 <= k < tower@.votes.len() && is_increased(
                    base,
                    MAX_LOCKOUT,
                    #[trigger] tower@.votes[k],
                ) implies bank@.meets_threshold(tower@.votes[k]) by {
                let v = tower@.votes[k];
                assert(tower@.votes.contains(v));
                lemma_increased_lockouts(base, MAX_LOCKOUT, tower@.votes, v);
                let j = choose|j: int| 0 <= j < proposed@.len() && proposed@[j] == v;
                assert(bank@.meets_threshold(proposed@[j]));
            }
        }
        true
    }
}


/// The block at `s` speaks against the vote for `last`: the validator has
/// seen it, it is later than `last`, and neither is on the fork of the other.
pub open spec fn dissents(m: Map<Slot, BankView>, blocks: Set<Slot>, last: Slot, s: Slot) -> bool {
    blocks.contains(s) && s > last && !fork_of(m, last).contains(s) && !fork_of(m, s).contains(
        last,
    )
}

/// The test whether the block at a slot speaks against the vote for `last`.
pub open spec fn dissent_test(m: Map<Slot, BankView>, blocks: Set<Slot>, last: Slot) -> spec_fn(
    Slot,
) -> bool {
    |s: Slot| dissents(m, blocks, last, s)
}

/// The stake that `weights` holds for the blocks that speak against the vote for `last`.
pub open spec fn dissenting_stake(
    m: Map<Slot, BankView>,
    weights: Map<Slot, usize>,
    blocks: Set<Slot>,
    last: Slot,
) -> nat {
    stake_of(weights, weights.dom().filter(dissent_test(m, blocks, last)))
}

/// The switching check: the tower holds no vote, or its latest vote is for a
/// slot of `new_fork`, or the stake that speaks against that vote exceeds
/// `SWITCH_STAKE`.
pub open spec fn may_switch(
    tower: TowerView,
    blocks: Set<Slot>,
    new_fork: Seq<Slot>,
    weights: Map<Slot, usize>,
    m: Map<Slot, BankView>,
) -> bool {
    tower.votes.len() == 0 || new_fork.contains(tower.votes[0].slot) || dissenting_stake(
        m,
        weights,
        blocks,
        tower.votes[0].slot,
    ) > SWITCH_STAKE
}

impl Node {
    /// The switching check: whether this validator may vote on `new_fork`. It
    /// may where it holds no vote, or its latest vote is for a slot of
    /// `new_fork`; else the stake of the blocks it has seen that are later than
    /// that vote and on another fork must exceed a third of the validators.
    pub fn optimistic_conf_check(
        &self,
        new_fork: &[Slot],
        fork_weights: &HashMap<Slot, usize>,
        banks: &Banks,
    ) -> (b: bool)
        ensures
            b == may_switch(
                self@.tower,
                self@.blocks,
                new_fork@,
                fork_weights@,
                banks@.fork_map,
            ),
    {
        broadcast use vstd::std_specs::hash::group_hash_axioms;

        if self.tower.votes.len() == 0 {
            return true;
        }
        let last = self.tower.votes[0].slot;
        if fork_contains(new_fork, last) {
            return true;
        }
        let ghost m = banks@.fork_map;
        let ghost w = fork_weights@;
        let ghost test = dissent_test(m, self@.blocks, last);
        let last_vote_fork = banks.compute_fork(last);
        let keys = slot_keys(fork_weights);
        let mut total: u128 = 0;
        let mut i: usize = 0;
        proof {
            assert(keys@.take(0).to_set() =~= Set::<Slot>::empty());
            assert(keys@.take(0).to_set().filter(test) =~= Set::<Slot>::empty());
        }
        while i < keys.len()
            invariant
                i <= keys.len(),
                m == banks@.fork_map,
                w == fork_weights@,
                test == dissent_test(m, self@.blocks, last),
                last_vote_fork@ == fork_of(m, last),
                keys@.no_duplicates(),
                keys@.to_set() == w.dom(),
                total == stake_of(w, keys@.take(i as int).to_set().filter(test)),
                total <= i * usize::MAX,
            decreases keys.len() - i,
        {
            let slot = keys[i];
            let ghost seen = keys@.take(i as int).to_set();
            proof {
                lemma_take_to_set(keys@, i as int);
                assert(keys@.contains(slot));
                assert(w.dom().contains(slot));
                assert(!seen.contains(slot)) by {
                    if keys@.take(i as int).contains(slot) {
                        let k = choose|k: int| 0 <= k < i && keys@.take(i as int)[k] == slot;
                        assert(keys@[k] == keys@[i as int]);
                    }
                }
                vstd::seq_lib::seq_to_set_is_finite(keys@.take(i as int));
                vstd::set_lib::lemma_set_subset_finite(seen, seen.filter(test));
                assert((i + 1) * usize::MAX == i * usize::MAX + usize::MAX) by (nonlinear_arith);
                assert(i * usize::MAX <= 0xffff_ffff_ffff_ffff * 0xffff_ffff_ffff_ffff) by (nonlinear_arith)
                    requires
                        0 <= i <= 0xffff_ffff_ffff_ffff,
                        0 <= usize::MAX <= 0xffff_ffff_ffff_ffff,
                ;
            }
            let stake = *fork_weights.get(&slot).unwrap();
            let mut counts = self.blocks.contains(&slot) && slot > last && !fork_contains(
                last_vote_fork.as_slice(),
                slot,
            );
            if counts {
                let fork = banks.compute_fork(slot);
                counts = !fork_contains(fork.as_slice(), last);
            }
            proof {
                assert(counts == dissents(m, self@.blocks, last, slot));
                if counts {
                    assert(seen.insert(slot).filter(test) =~= seen.filter(test).insert(slot));
                    lemma_stake_insert(w, seen.filter(test), slot);
                } else {
                    assert(seen.insert(slot).filter(test) =~= seen.filter(test));
                }
            }
            if counts {
                total = total + stake as u128;
            }
            i += 1;
        }
        proof {
            assert(keys@.take(i as int) =~= keys@);
        }
        total > SWITCH_STAKE as u128
    }
}


/// The validator has seen the block at `s`, and a weight is held for it.
pub open spec fn visible(weights: Map<Slot, usize>, blocks: Set<Slot>, s: Slot) -> bool {
    weights.contains_key(s) && blocks.contains(s)
}

/// `a` does not come before `b` when slots are ordered by weight and, at
/// equal weight, by slot.
pub open spec fn outweighs(weights: Map<Slot, usize>, a: Slot, b: Slot) -> bool {
    weights[a] > weights[b] || (weights[a] == weights[b] && a >= b)
}

/// `h` is the heaviest of the visible slots.
pub open spec fn is_heaviest(weights: Map<Slot, usize>, blocks: Set<Slot>, h: Slot) -> bool {
    &&& visible(weights, blocks, h)
    &&& forall|s: Slot| #[trigger] visible(weights, blocks, s) ==> outweighs(weights, h, s)
}

/// The heaviest of the visible slots: the one of greatest weight and, among
/// those, of greatest slot; 0 where none is visible.
pub open spec fn heaviest_slot(weights: Map<Slot, usize>, blocks: Set<Slot>) -> Slot {
    if exists|s: Slot| visible(weights, blocks, s) {
        choose|h: Slot| is_heaviest(weights, blocks, h)
    } else {
        0
    }
}

/// There is one heaviest slot.
pub proof fn lemma_heaviest_unique(weights: Map<Slot, usize>, blocks: Set<Slot>, h: Slot)
    requires
        is_heaviest(weights, blocks, h),
    ensures
        heaviest_slot(weights, blocks) == h,
{
    assert(visible(weights, blocks, h));
    let c = choose|c: Slot| is_heaviest(weights, blocks, c);
    assert(visible(weights, blocks, c));
    assert(outweighs(weights, h, c) && outweighs(weights, c, h));
}

impl NodeView {
    /// The slot this validator would vote for: the heaviest it sees.
    pub open spec fn heaviest(self, banks: BanksView) -> Slot {
        heaviest_slot(banks.fork_weights, self.blocks)
    }

    /// The tower of this validator in the bank at `h`, after the votes of `next`
    /// were offered to it one by one, the oldest first.
    pub open spec fn replayed(self, banks: BanksView, h: Slot, next: TowerView) -> TowerView {
        offer_all(banks.fork_map[h].nodes[self.id as int], next.votes.reverse())
    }

    /// Whether the vote for the heaviest slot passes every check: the tower
    /// accepts it, the lockout check holds of the tower with the vote, the
    /// threshold check holds in the heaviest bank, and the switching check
    /// holds of the tower as it stands.
    pub open spec fn may_vote(self, banks: BanksView) -> bool {
        let h = self.heaviest(banks);
        let fork = fork_of(banks.fork_map, h);
        let next = self.tower.voted(h);
        &&& !self.tower.already_voted(h)
        &&& locked_on(fork, next)
        &&& threshold_met(banks.fork_map[h], self.id, self.replayed(banks, h, next))
        &&& may_switch(
            self.tower,
            self.blocks,
            fork,
            banks.fork_weights.restrict(self.blocks),
            banks.fork_map,
        )
    }

    /// The validator after a vote attempt: it has noted the heaviest fork, and
    /// its tower holds the vote where every check passed.
    pub open spec fn voted(self, banks: BanksView) -> NodeView {
        NodeView {
            heaviest_fork: fork_of(banks.fork_map, self.heaviest(banks)),
            tower: if self.may_vote(banks) {
                self.tower.voted(self.heaviest(banks))
            } else {
                self.tower
            },
            ..self
        }
    }

    /// What a vote attempt needs: an id below `NUM_NODES`, and a heaviest fork
    /// that reaches the lowest root.
    pub open spec fn can_attempt(self, banks: BanksView) -> bool {
        &&& self.id < NUM_NODES
        &&& fork_of(banks.fork_map, self.heaviest(banks)).contains(banks.lowest_root.slot)
    }
}

/// A validator that leaves the fork of its last vote has seen more than a
/// third of the validators' stake on blocks later than that vote that neither
/// descend from it nor lead to it.
pub proof fn lemma_switching_proof(node: NodeView, banks: BanksView)
    requires
        node.may_vote(banks),
        node.tower.votes.len() > 0,
        !fork_of(banks.fork_map, node.heaviest(banks)).contains(node.tower.votes[0].slot),
    ensures
        dissenting_stake(
            banks.fork_map,
            banks.fork_weights.restrict(node.blocks),
            node.blocks,
            node.tower.votes[0].slot,
        ) > NUM_NODES / 3,
{
}

/// A validator commits no tower of which a vote with an increased lockout
/// fails the threshold in the heaviest bank.
pub proof fn lemma_threshold_preserved(node: NodeView, banks: BanksView, i: int)
    requires
        node.voted(banks).tower != node.tower,
        0 <= i < node.replayed(banks, node.heaviest(banks), node.voted(banks).tower).votes.len(),
        is_increased(
            banks.fork_map[node.heaviest(banks)].nodes[node.id as int].votes,
            MAX_LOCKOUT,
            node.replayed(banks, node.heaviest(banks), node.voted(banks).tower).votes[i],
        ),
    ensures
        banks.fork_map[node.heaviest(banks)].meets_threshold(
            node.replayed(banks, node.heaviest(banks), node.voted(banks).tower).votes[i],
        ),
{
}

/// A vote attempt moves the root only where every lockout that the votes of
/// the new tower raise in the heaviest bank met the threshold there.
pub proof fn lemma_root_moves_past_threshold(node: NodeView, banks: BanksView)
    requires
        node.voted(banks).tower.root != node.tower.root,
    ensures
        node.may_vote(banks),
        threshold_met(
            banks.fork_map[node.heaviest(banks)],
            node.id,
            node.replayed(banks, node.heaviest(banks), node.voted(banks).tower),
        ),
{
}

/// A vote attempt leaves the tower well-formed and does not move its root back.
pub proof fn lemma_vote_keeps_tower(node: NodeView, banks: BanksView)
    requires
        node.tower.wf(),
    ensures
        node.voted(banks).tower.wf(),
        node.voted(banks).tower.root.slot >= node.tower.root.slot,
{
    if node.may_vote(banks) {
        lemma_voted(node.tower, node.heaviest(banks));
    }
}

impl Node {
    /// The heaviest slot this validator sees, and the weights of the slots it sees.
    pub fn heaviest(&self, banks: &Banks) -> (out: (Slot, HashMap<Slot, usize>))
        ensures
            out.0 == self@.heaviest(banks@),
            out.1@ == banks@.fork_weights.restrict(self@.blocks),
            is_heaviest(banks@.fork_weights, self@.blocks, out.0) || (out.0 == 0 && forall|s: Slot|
                !visible(banks@.fork_weights, self@.blocks, s)),
    {
        broadcast use vstd::std_specs::hash::group_hash_axioms;

        let ghost w = banks@.fork_weights;
        let ghost blocks = self@.blocks;
        let keys = slot_keys(&banks.fork_weights);
        let mut weights: HashMap<Slot, usize> = HashMap::new();
        let mut best: Option<(usize, Slot)> = None;
        let mut i: usize = 0;
        proof {
            assert(keys@.take(0).to_set() =~= Set::<Slot>::empty());
            assert(weights@ =~= w.restrict(blocks.intersect(keys@.take(0).to_set())));
        }
        while i < keys.len()
            invariant
                i <= keys.len(),
                w == banks@.fork_weights,
                blocks == self@.blocks,
                keys@.to_set() == w.dom(),
                weights@ == w.restrict(blocks.intersect(keys@.take(i as int).to_set())),
                match best {
                    Some((weight, h)) => weight == w[h] && visible(w, blocks, h)
                        && keys@.take(i as int).contains(h) && forall|k: int|
                        0 <= k < i && visible(w, blocks, #[trigger] keys@[k]) ==> outweighs(
                            w,
                            h,
                            keys@[k],
                        ),
                    None => forall|k: int| 0 <= k < i ==> !visible(w, blocks, #[trigger] keys@[k]),
                },
            decreases keys.len() - i,
        {
            let slot = keys[i];
            proof {
                lemma_take_to_set(keys@, i as int);
                assert(keys@.contains(slot));
                assert(w.dom().contains(slot));
                assert(keys@.take(i + 1)[i as int] == slot);
            }
            if self.blocks.contains(&slot) {
                let weight = *banks.fork_weights.get(&slot).unwrap();
                weights.insert(slot, weight);
                match best {
                    Some((held, h)) => {
                        if weight > held || (weight == held && slot >= h) {
                            best = Some((weight, slot));
                        } else {
                            proof {
                                let k = choose|k: int|
                                    0 <= k < i && keys@.take(i as int)[k] == h;
                                assert(keys@.take(i + 1)[k] == h);
                            }
                        }
                    },
                    None => {
                        best = Some((weight, slot));
                    },
                }
            } else {
                proof {
                    match best {
                        Some((held, h)) => {
                            let k = choose|k: int| 0 <= k < i && keys@.take(i as int)[k] == h;
                            assert(keys@.take(i + 1)[k] == h);
                        },
                        None => {},
                    }
                }
            }
            proof {
                assert(weights@ =~= w.restrict(blocks.intersect(keys@.take(i + 1).to_set())));
            }
            i += 1;
        }
        proof {
            assert(keys@.take(i as int) =~= keys@);
            assert(weights@ =~= w.restrict(blocks));
        }
        match best {
            Some((_, h)) => {
                proof {
                    assert forall|s: Slot| #[trigger] visible(w, blocks, s) implies outweighs(
                        w,
                        h,
                        s,
                    ) by {
                        assert(keys@.to_set().contains(s));
                        let k = choose|k: int| 0 <= k < keys@.len() && keys@[k] == s;
                        assert(visible(w, blocks, keys@[k]));
                    }
                    lemma_heaviest_unique(w, blocks, h);
                }
                (h, weights)
            },
            None => {
                proof {
                    assert forall|s: Slot| !visible(w, blocks, s) by {
                        if visible(w, blocks, s) {
                            assert(keys@.to_set().contains(s));
                            let k = choose|k: int| 0 <= k < keys@.len() && keys@[k] == s;
                            assert(!visible(w, blocks, keys@[k]));
                        }
                    }
                }
                (0, weights)
            },
        }
    }

    /// Attempts a vote for the heaviest slot this validator sees. The heaviest
    /// fork is noted in any case. The tower takes the vote only where it
    /// accepts it and the lockout check, the threshold check and the switching
    /// check all pass; else it stays as it is. The threshold check is made on
    /// this validator's tower in the heaviest bank after every vote of the tower
    /// with the new vote was offered to it, the oldest first.
    pub fn vote(&mut self, banks: &Banks)
        requires
            banks@.wf(),
            old(self)@.can_attempt(banks@),
        ensures
            final(self)@ == old(self)@.voted(banks@),
            old(self)@.tower.wf() ==> final(self)@.tower.wf() && final(self)@.tower.root.slot
                >= old(self)@.tower.root.slot,
    {
        broadcast use vstd::std_specs::hash::group_hash_axioms;

        let ghost m = banks@.fork_map;
        let (heaviest_slot, weights) = self.heaviest(banks);
        self.heaviest_fork = banks.compute_fork(heaviest_slot);
        let mut tower = self.tower.clone();
        let vote = Vote { slot: heaviest_slot, lockout: 2 };
        if tower.apply(&vote).is_err() {
            return;
        }
        proof {
            if old(self)@.tower.wf() {
                lemma_voted(old(self)@.tower, heaviest_slot);
            }
        }
        if !self.lockout_check(&tower) {
            return;
        }
        proof {
            // the heaviest slot has a bank
            assert(self@.blocks == old(self)@.blocks);
            assert(heaviest_slot == old(self)@.heaviest(banks@));
            if is_heaviest(banks@.fork_weights, self@.blocks, heaviest_slot) {
                assert(banks@.fork_weights.dom().contains(heaviest_slot));
            } else {
                assert(heaviest_slot == 0);
                crate::forest::lemma_fork_shape(m, 0);
                let f = fork_of(m, 0);
                let k = choose|k: int| 0 <= k < f.len() && f[k] == banks@.lowest_root.slot;
                assert(f[k] <= 0);
            }
            assert(m.contains_key(heaviest_slot));
            assert(crate::forest::is_bank_at(m[heaviest_slot], heaviest_slot));
        }
        let bank = banks.fork_map.get(&heaviest_slot).unwrap();
        assert(bank@ == m[heaviest_slot]);
        let mut result = bank.nodes[self.id].clone();
        let proposed = tower.votes();
        let ghost replica = bank@.nodes[self.id as int];
        assert(replica == bank.nodes[self.id as int]@);
        let ghost replay = proposed@.reverse();
        let mut left: usize = proposed.len();
        while left > 0
            invariant
                left <= proposed.len(),
                replay == proposed@.reverse(),
                result@ == offer_all(replica, replay.take(proposed.len() - left)),
            decreases left,
        {
            proof {
                let done = proposed.len() - left;
                assert(replay.take(done + 1).drop_last() =~= replay.take(done));
                assert(replay.take(done + 1).last() == proposed@[left - 1]);
            }
            left -= 1;
            let _refused = result.apply(&proposed[left]);
        }
        proof {
            assert(replay.take(proposed.len() as int) =~= replay);
        }
        if !self.threshold_check(&result, bank) {
            return;
        }
        if !self.optimistic_conf_check(self.heaviest_fork.as_slice(), &weights, banks) {
            return;
        }
        self.tower = tower;
    }
}


impl Node {
    /// Whether this validator can attempt a vote: its id is below `NUM_NODES`,
    /// and the fork of the heaviest slot it sees reaches the lowest root.
    pub fn can_attempt(&self, banks: &Banks) -> (b: bool)
        ensures
            b == self@.can_attempt(banks@),
    {
        if self.id >= NUM_NODES {
            return false;
        }
        let (heaviest_slot, _weights) = self.heaviest(banks);
        let fork = banks.compute_fork(heaviest_slot);
        fork_contains(fork.as_slice(), banks.lowest_root.slot)
    }
}

} // verus!
