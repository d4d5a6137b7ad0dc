//! The fork store: every live bank by slot, the weight of every fork, and
//! the lowest root that all validators have committed.

use crate::bank::Bank;
use crate::bank::lowest_root_of;
use crate::bank::BankView;
use crate::bank::Block;
use crate::bank::BlockView;
use crate::forest::bank_on_fork;
use crate::forest::descends_from;
use crate::forest::grown;
use crate::forest::holds_slot;
use crate::forest::is_bank_at;
use crate::forest::lemma_apply_entries_holds;
use crate::forest::lemma_grown;
use crate::forest::lemma_new_root;
use crate::forest::lemma_pruned;
use crate::forest::lemma_reaches_root;
use crate::forest::towers_on_forks;
use crate::tower::zero_vote;
use std::collections::HashSet;
use crate::bank::ID;
use crate::bank::NUM_NODES;
use crate::collect::slot_keys;
use crate::weights::is_latest_among;
use crate::weights::latest_votes;
use crate::weights::lemma_latest_done;
use crate::weights::lemma_latest_step;
use crate::weights::lemma_votes_at_step;
use crate::weights::lemma_weight_bound;
use crate::weights::lemma_weight_root;
use crate::weights::lemma_weight_step;
use crate::weights::tally_of;
use crate::weights::votes_at;
use crate::weights::weight;
use crate::weights::weights_of;
use crate::forest::fork_of;
use crate::forest::is_forest;
use crate::forest::is_rooted;
use crate::forest::is_walk;
use crate::forest::is_walking;
use crate::forest::lemma_walk_done;
use crate::forest::lemma_walk_push;
use crate::forest::lemma_walk_visit;
use crate::forest::pruned;
use crate::collect::lemma_take_to_set;
use crate::tower::Slot;
use crate::tower::Vote;
use std::collections::HashMap;
use vstd::prelude::*;

verus! {

/// Mathematical content of the fork store.
pub struct BanksView {
    pub fork_map: Map<Slot, BankView>,
    pub fork_weights: Map<Slot, usize>,
    pub lowest_root: Vote,
}

/// The banks of all live forks, keyed by slot.
pub struct Banks {
    pub fork_map: HashMap<Slot, Bank>,
    pub fork_weights: HashMap<Slot, usize>,
    pub lowest_root: Vote,
}

impl View for Banks {
    type V = BanksView;

    open spec fn view(&self) -> BanksView {
        BanksView {
            fork_map: self.fork_map@.map_values(|b: Bank| b@),
            fork_weights: self.fork_weights@,
            lowest_root: self.lowest_root,
        }
    }
}

impl BanksView {
    /// The fork store holds one tree of banks below the lowest root, every
    /// tower in it votes along the fork of its bank, and weights are held for
    /// banks of the store only.
    pub open spec fn wf(self) -> bool {
        &&& is_forest(self.fork_map)
        &&& is_rooted(self.fork_map, self.lowest_root.slot)
        &&& towers_on_forks(self.fork_map, self.lowest_root.slot)
        &&& self.fork_weights.dom().subset_of(self.fork_map.dom())
    }

    /// The weights are those of the banks held.
    pub open spec fn weighed(self) -> bool {
        self.fork_weights == weights_of(self.fork_map, self.lowest_root.slot)
    }

    /// The unfrozen child that `block` starts from.
    pub open spec fn child_for(self, block: BlockView) -> BankView {
        let parent = self.fork_map[block.parent];
        BankView {
            nodes: parent.nodes,
            slot: block.slot,
            parent: parent.slot,
            frozen: false,
            children: Seq::empty(),
            subcom: parent.subcom.child().initialized(parent.subcom),
        }
    }

    /// The slots a vote of `block` may name: the fork of its parent, and its own slot.
    pub open spec fn fork_set(self, block: BlockView) -> Set<Slot> {
        fork_of(self.fork_map, block.parent).to_set().insert(block.slot)
    }

    /// What `block` needs to be applied: a new slot, later than its parent's,
    /// a parent that has a bank, and entries that name validators and slots of
    /// the new bank's fork.
    pub open spec fn admits(self, block: BlockView) -> bool {
        &&& !self.fork_map.contains_key(block.slot)
        &&& self.fork_map.contains_key(block.parent)
        &&& block.parent < block.slot
        &&& block.fits(self.fork_set(block))
    }

    /// The fork store after `block` was applied: its bank forks off the parent,
    /// takes the block's votes and is stored; where the new bank's lowest root
    /// is above the store's, it becomes the store's and what does not descend
    /// from it is dropped; and the weights are those of what is left.
    pub open spec fn applied(self, block: BlockView) -> BanksView {
        let bank = self.child_for(block).applied(block);
        let all = grown(self.fork_map, block.parent, block.slot, bank);
        let low = lowest_root_of(bank.nodes);
        let advanced = low.slot > self.lowest_root.slot;
        let lowest = if advanced {
            low
        } else {
            self.lowest_root
        };
        let kept = if advanced {
            pruned(all, low.slot)
        } else {
            all
        };
        BanksView {
            fork_map: kept,
            fork_weights: weights_of(kept, lowest.slot),
            lowest_root: lowest,
        }
    }
}

/// The fork of every bank of a well-formed store reaches the lowest root.
pub proof fn lemma_fork_reaches_lowest_root(banks: BanksView, s: Slot)
    requires
        banks.wf(),
        banks.fork_map.contains_key(s),
    ensures
        fork_of(banks.fork_map, s).contains(banks.lowest_root.slot),
        fork_of(banks.fork_map, s)[0] == s,
{
    lemma_reaches_root(banks.fork_map, banks.lowest_root.slot, s);
    crate::forest::lemma_fork_shape(banks.fork_map, s);
}

/// The weight of every bank but the lowest root's is the weight of its parent
/// and the number of validators whose latest vote is for the bank; the weight
/// of the lowest root's bank is the number of latest votes for it.
pub proof fn lemma_weights_add_up(banks: BanksView, s: Slot)
    requires
        banks.wf(),
        banks.weighed(),
        banks.fork_map.contains_key(s),
    ensures
        banks.fork_weights.contains_key(s),
        s != banks.lowest_root.slot ==> banks.fork_weights.contains_key(banks.fork_map[s].parent)
            && banks.fork_weights[s] == banks.fork_weights[banks.fork_map[s].parent] + votes_at(
            latest_votes(banks.fork_map),
            s,
        ),
        s == banks.lowest_root.slot ==> banks.fork_weights[s] == votes_at(
            latest_votes(banks.fork_map),
            s,
        ),
{
    let m = banks.fork_map;
    let root = banks.lowest_root.slot;
    lemma_reaches_root(m, root, s);
    lemma_weight_bound(m, root, s);
    if s == root {
        lemma_weight_root(m, root);
    } else {
        lemma_weight_step(m, root, s);
        lemma_reaches_root(m, root, m[s].parent);
        lemma_weight_bound(m, root, m[s].parent);
    }
}

impl Default for Banks {
    /// The fork store at genesis: the genesis bank alone, no weights yet, and
    /// the zero vote as lowest root.
    fn default() -> (banks: Banks)
        ensures
            banks@.wf(),
            banks@.fork_map.dom() == set![0u64],
            banks@.fork_map[0] == Bank::zero_view(),
            banks@.fork_weights == Map::<Slot, usize>::empty(),
            banks@.lowest_root == zero_vote(),
    {
        broadcast use vstd::std_specs::hash::group_hash_axioms;

        let bank_zero = Bank::zero();
        let mut fork_map: HashMap<Slot, Bank> = HashMap::new();
        fork_map.insert(0, bank_zero);
        let banks = Banks { fork_map, fork_weights: HashMap::new(), lowest_root: Vote::zero() };
        proof {
            let m = banks@.fork_map;
            assert(m.dom() =~= set![0u64]);
            assert(m[0] == Bank::zero_view());
            assert(is_bank_at(m[0], 0));
            assert forall|v: Slot, c: Slot| #[trigger] crate::forest::has_child(m, v, c) implies false by {
                let j = choose|j: int| 0 <= j < m[v].children.len() && m[v].children[j] == c;
            }
            assert forall|q: Slot| #[trigger] m.contains_key(q) implies bank_on_fork(
                m[q],
                fork_of(m, q),
                0,
            ) by {
                assert(fork_of(m, q)[0] == 0);
                assert forall|i: int, x: Slot|
                    0 <= i < m[q].nodes.len() && #[trigger] holds_slot(m[q].nodes[i], x) implies fork_of(
                    m,
                    q,
                ).contains(x) by {
                    assert(m[q].nodes[i].votes.len() == 0);
                }
            }
        }
        banks
    }
}

impl Banks {
    /// The fork of `slot`, most recent slot first: the slot, its bank's parent,
    /// and so on up to the genesis or to a slot that has no bank.
    pub fn compute_fork(&self, slot: Slot) -> (fork: Vec<Slot>)
        ensures
            fork@ == fork_of(self@.fork_map, slot),
    {
        broadcast use vstd::std_specs::hash::group_hash_axioms;

        let ghost m = self@.fork_map;
        let mut fork: Vec<Slot> = Vec::new();
        fork.push(slot);
        let mut last: Slot = slot;
        proof {
            assert(fork@.drop_last() + fork_of(m, last) =~= fork_of(m, slot));
        }
        loop
            invariant
                m == self@.fork_map,
                fork.len() >= 1,
                fork@.last() == last,
                fork@.drop_last() + fork_of(m, last) == fork_of(m, slot),
            ensures
                fork@ == fork_of(m, slot),
            decreases last,
        {
            match self.fork_map.get(&last) {
                Some(b) => {
                    assert(m.contains_key(last) && m[last] == b@);
                    if b.parent < last {
                        let ghost before = fork@;
                        fork.push(b.parent);
                        proof {
                            assert(fork@.drop_last() =~= before);
                            assert(before =~= before.drop_last() + seq![last]);
                            assert(fork@.drop_last() + fork_of(m, b.parent) =~= before.drop_last()
                                + fork_of(m, last));
                        }
                        last = b.parent;
                    } else {
                        proof {
                            assert(fork@ =~= fork@.drop_last() + seq![last]);
                        }
                        break;
                    }
                },
                None => {
                    proof {
                        assert(!m.contains_key(last));
                        assert(fork@ =~= fork@.drop_last() + seq![last]);
                    }
                    break;
                },
            }
        }
        fork
    }

    /// Walks the tree below `root` by the children that each bank lists: every
    /// bank that descends from `root`, once, each after its parent.
    pub(crate) fn descendants(&self, root: Slot) -> (out: Vec<Slot>)
        requires
            is_forest(self@.fork_map),
            exists|base: Slot| is_rooted(self@.fork_map, base),
            self@.fork_map.contains_key(root),
        ensures
            is_walk(self@.fork_map, root, out@),
    {
        broadcast use vstd::std_specs::hash::group_hash_axioms;

        let ghost m = self@.fork_map;
        let ghost base = choose|base: Slot| is_rooted(m, base);
        let mut out: Vec<Slot> = Vec::new();
        let mut stack: Vec<Slot> = Vec::new();
        stack.push(root);
        proof {
            assert(stack@ =~= seq![root]);
            assert(out@ + stack@ =~= seq![root]);
            crate::forest::lemma_fork_shape(m, root);
            assert(fork_of(m, root)[0] == root);
        }
        while stack.len() > 0
            invariant
                m == self@.fork_map,
                is_forest(m),
                is_rooted(m, base),
                m.contains_key(root),
                out.len() == 0 ==> stack.len() > 0,
                is_walking(
                    m,
                    root,
                    out@,
                    stack@,
                    if out.len() > 0 {
                        m[out@.last()].children.len() as int
                    } else {
                        0
                    },
                ),
            decreases m.dom().len() - out.len(),
        {
            proof {
                lemma_walk_visit(m, root, out@, stack@);
            }
            let slot = stack.pop().unwrap();
            out.push(slot);
            let bank = self.fork_map.get(&slot).unwrap();
            assert(m[slot] == bank@);
            assert(crate::forest::is_bank_at(m[slot], slot));
            let mut j: usize = 0;
            while j < bank.children.len()
                invariant
                    j <= bank.children.len(),
                    is_forest(m),
                    out.len() > 0,
                    out@.last() == slot,
                    m[slot].children == bank.children@,
                    m[slot].children.no_duplicates(),
                    is_walking(m, root, out@, stack@, j as int),
                    forall|i: int, k: int|
                        0 <= i < stack.len() && j <= k < bank.children.len() ==> (
                        #[trigger] stack[i]) != (#[trigger] m[slot].children[k]) || out@.contains(
                            m[stack[i]].parent,
                        ) && m[stack[i]].parent != slot,
                decreases bank.children.len() - j,
            {
                proof {
                    lemma_walk_push(m, root, out@, stack@, j as int);
                }
                stack.push(bank.children[j]);
                j += 1;
            }
        }
        proof {
            assert(stack@ =~= Seq::<Slot>::empty());
            lemma_walk_done(m, base, root, out@);
        }
        out
    }

    /// Drops every bank that does not descend from the lowest root.
    pub fn gc(&mut self)
        requires
            is_forest(old(self)@.fork_map),
            exists|base: Slot| is_rooted(old(self)@.fork_map, base),
            old(self)@.fork_map.contains_key(old(self)@.lowest_root.slot),
        ensures
            final(self)@.fork_map == pruned(old(self)@.fork_map, old(self)@.lowest_root.slot),
            final(self)@.fork_weights == old(self)@.fork_weights,
            final(self)@.lowest_root == old(self)@.lowest_root,
    {
        broadcast use vstd::std_specs::hash::group_hash_axioms;

        let ghost m = self@.fork_map;
        let ghost held = self.fork_map@;
        let ghost root = self.lowest_root.slot;
        let valid = self.descendants(self.lowest_root.slot);
        let mut new_banks: HashMap<Slot, Bank> = HashMap::new();
        let mut j: usize = 0;
        proof {
            lemma_take_to_set(valid@, 0);
            assert(new_banks@ =~= held.restrict(valid@.take(0).to_set()));
            assert(self.fork_map@ =~= held.remove_keys(valid@.take(0).to_set()));
        }
        while j < valid.len()
            invariant
                j <= valid.len(),
                m == held.map_values(|b: Bank| b@),
                is_walk(m, root, valid@),
                new_banks@ == held.restrict(valid@.take(j as int).to_set()),
                self.fork_map@ == held.remove_keys(valid@.take(j as int).to_set()),
                self.fork_weights == old(self).fork_weights,
                self.lowest_root == old(self).lowest_root,
            decreases valid.len() - j,
        {
            let v = valid[j];
            proof {
                lemma_take_to_set(valid@, j as int);
                assert(valid@.contains(v));
                assert(m.contains_key(v));
                assert(!valid@.take(j as int).to_set().contains(v)) by {
                    if valid@.take(j as int).contains(v) {
                        let k = choose|k: int| 0 <= k < j && valid@.take(j as int)[k] == v;
                        assert(valid@[k] == valid@[j as int]);
                    }
                }
            }
            let bank = self.fork_map.remove(&v).unwrap();
            new_banks.insert(v, bank);
            proof {
                assert(new_banks@ =~= held.restrict(valid@.take(j + 1).to_set()));
                assert(self.fork_map@ =~= held.remove_keys(valid@.take(j + 1).to_set()));
            }
            j += 1;
        }
        self.fork_map = new_banks;
        proof {
            lemma_take_to_set(valid@, 0);
            assert(valid@.take(j as int) =~= valid@);
            assert(self@.fork_map =~= pruned(m, root)) by {
                assert forall|s: Slot| self@.fork_map.contains_key(s) <==> pruned(m, root).contains_key(
                    s,
                ) by {
                    assert(valid@.to_set().contains(s) <==> valid@.contains(s));
                }
            }
        }
    }

    /// The latest vote of every validator over all banks.
    fn latest_votes(&self) -> (latest: HashMap<ID, Slot>)
        requires
            is_forest(self@.fork_map),
            self@.fork_map.len() > 0,
        ensures
            forall|id: ID|
                #![trigger latest@.contains_key(id)]
                id < NUM_NODES ==> latest@.contains_key(id) && latest@[id] == latest_votes(
                    self@.fork_map,
                )[id as int],
    {
        broadcast use vstd::std_specs::hash::group_hash_axioms;

        let ghost m = self@.fork_map;
        let keys = slot_keys(&self.fork_map);
        let mut latest: HashMap<ID, Slot> = HashMap::new();
        let mut j: usize = 0;
        proof {
            assert(m.dom() =~= self.fork_map@.dom());
        }
        while j < keys.len()
            invariant
                j <= keys.len(),
                m == self@.fork_map,
                is_forest(m),
                keys@.to_set() == m.dom(),
                is_latest_among(m, keys@, j as int, latest@),
            decreases keys.len() - j,
        {
            proof {
                assert(keys@.contains(keys@[j as int]));
                assert(keys@.to_set().contains(keys@[j as int]));
                assert(m.contains_key(keys@[j as int]));
                assert(crate::forest::is_bank_at(m[keys@[j as int]], keys@[j as int]));
                lemma_latest_step(m, keys@, j as int, latest@);
            }
            let bank = self.fork_map.get(&keys[j]).unwrap();
            bank.latest_votes(&mut latest);
            j += 1;
        }
        proof {
            if keys.len() == 0 {
                assert(keys@.to_set() =~= Set::<Slot>::empty());
                assert(m.dom().len() == 0);
            }
            assert forall|id: ID| #![trigger latest@.contains_key(id)] id < NUM_NODES implies latest@.contains_key(
                id,
            ) && latest@[id] == latest_votes(m)[id as int] by {
                lemma_latest_done(m, keys@, latest@, id);
            }
        }
        latest
    }

    /// Recomputes the weight of every fork: for each bank below the lowest
    /// root, the number of validators whose latest vote, over all banks, lies on
    /// the bank's fork at the lowest root or after it. Each bank's weight is its
    /// parent's and the number of latest votes for the bank itself.
    pub fn build_fork_weights(&mut self)
        requires
            is_forest(old(self)@.fork_map),
            is_rooted(old(self)@.fork_map, old(self)@.lowest_root.slot),
        ensures
            final(self)@.fork_weights == weights_of(
                old(self)@.fork_map,
                old(self)@.lowest_root.slot,
            ),
            final(self)@.fork_map == old(self)@.fork_map,
            final(self)@.lowest_root == old(self)@.lowest_root,
    {
        broadcast use vstd::std_specs::hash::group_hash_axioms;

        let ghost m = self@.fork_map;
        let ghost root = self.lowest_root.slot;
        let ghost all = latest_votes(m);
        proof {
            assert(m.dom().contains(root));
            assert(m.dom().finite());
            assert(m.dom().len() > 0) by {
                if m.dom().len() == 0 {
                    m.dom().lemma_len0_is_empty();
                }
            }
        }
        let latest = self.latest_votes();
        // number of latest votes for each slot
        let mut slot_votes: HashMap<Slot, usize> = HashMap::new();
        let mut i: usize = 0;
        proof {
            assert forall|s: Slot| tally_of(slot_votes@, s) == votes_at(all.take(0), s) by {
                lemma_votes_at_step(all, 0, s);
            }
        }
        while i < NUM_NODES
            invariant
                i <= NUM_NODES,
                all == latest_votes(m),
                forall|id: ID|
                    #![trigger latest@.contains_key(id)]
                    id < NUM_NODES ==> latest@.contains_key(id) && latest@[id] == all[id as int],
                forall|s: Slot|
                    tally_of(slot_votes@, s) == #[trigger] votes_at(all.take(i as int), s),
            decreases NUM_NODES - i,
        {
            assert(latest@.contains_key(i));
            let x = *latest.get(&i).unwrap();
            let held = match slot_votes.get(&x) {
                Some(c) => *c,
                None => 0,
            };
            proof {
                assert(held == tally_of(slot_votes@, x));
                assert(tally_of(slot_votes@, x) == votes_at(all.take(i as int), x));
                lemma_votes_at_step(all, i as int, x);
            }
            let ghost before = slot_votes@;
            slot_votes.insert(x, held + 1);
            proof {
                assert forall|s: Slot| tally_of(slot_votes@, s) == #[trigger] votes_at(
                    all.take(i + 1),
                    s,
                ) by {
                    lemma_votes_at_step(all, i as int, s);
                    assert(tally_of(before, s) == votes_at(all.take(i as int), s));
                }
            }
            i += 1;
        }
        proof {
            assert(all.take(NUM_NODES as int) =~= all);
        }
        // weight of each bank, parents first
        let walk = self.descendants(self.lowest_root.slot);
        let mut weights: HashMap<Slot, usize> = HashMap::new();
        let mut j: usize = 0;
        while j < walk.len()
            invariant
                j <= walk.len(),
                m == self@.fork_map,
                self.fork_map == old(self).fork_map,
                self.lowest_root == old(self).lowest_root,
                root == self.lowest_root.slot,
                is_forest(m),
                is_rooted(m, root),
                crate::forest::is_walk(m, root, walk@),
                forall|s: Slot| tally_of(slot_votes@, s) == #[trigger] votes_at(latest_votes(m), s),
                forall|s: Slot| #[trigger]
                    weights@.contains_key(s) <==> walk@.take(j as int).contains(s),
                forall|s: Slot| #[trigger]
                    weights@.contains_key(s) ==> weights@[s] == weight(m, root, s),
            decreases walk.len() - j,
        {
            let child = walk[j];
            proof {
                assert(walk@.contains(child));
                assert(m.contains_key(child));
            }
            let bank = self.fork_map.get(&child).unwrap();
            assert(m[child] == bank@);
            let parent_weight = match weights.get(&bank.parent) {
                Some(w) => *w,
                None => 0,
            };
            let votes = match slot_votes.get(&child) {
                Some(c) => *c,
                None => 0,
            };
            proof {
                assert(votes == tally_of(slot_votes@, child));
                assert(tally_of(slot_votes@, child) == votes_at(latest_votes(m), child));
                lemma_weight_bound(m, root, child);
                if j == 0 {
                    assert(child == root);
                    assert(!walk@.take(0).contains(bank.parent));
                    lemma_weight_root(m, root);
                } else {
                    assert(child != root) by {
                        assert(walk@[0] == root);
                    }
                    let k = choose|k: int| 0 <= k < j && walk@[k] == m[walk@[j as int]].parent;
                    assert(walk@.take(j as int)[k] == bank.parent);
                    assert(walk@.take(j as int).contains(bank.parent));
                    lemma_weight_step(m, root, child);
                }
                assert(parent_weight + votes == weight(m, root, child));
            }
            let ghost before = weights@;
            weights.insert(child, parent_weight + votes);
            proof {
                assert forall|s: Slot| #[trigger]
                    weights@.contains_key(s) <==> walk@.take(j + 1).contains(s) by {
                    let next = walk@.take(j + 1);
                    if next.contains(s) {
                        let k = choose|k: int| 0 <= k < next.len() && next[k] == s;
                        if k < j {
                            assert(walk@.take(j as int)[k] == s);
                        }
                    }
                    if before.contains_key(s) {
                        let seen = walk@.take(j as int);
                        let k = choose|k: int| 0 <= k < seen.len() && seen[k] == s;
                        assert(next[k] == s);
                    }
                    if s == child {
                        assert(next[j as int] == s);
                    }
                }
            }
            j += 1;
        }
        self.fork_weights = weights;
        proof {
            assert(walk@.take(j as int) =~= walk@);
            assert(self@.fork_weights =~= weights_of(m, root));
        }
    }

    /// The slots a vote of a block on `parent` at `slot` may name, as a set:
    /// the fork of `parent`, and `slot`.
    fn fork_set(&self, parent: Slot, slot: Slot) -> (fork: HashSet<Slot>)
        ensures
            fork@ == fork_of(self@.fork_map, parent).to_set().insert(slot),
    {
        broadcast use vstd::std_specs::hash::group_hash_axioms;

        let list = self.compute_fork(parent);
        let mut fork: HashSet<Slot> = HashSet::new();
        let mut i: usize = 0;
        proof {
            assert(list@.take(0).to_set() =~= Set::<Slot>::empty());
        }
        while i < list.len()
            invariant
                i <= list.len(),
                fork@ == list@.take(i as int).to_set(),
            decreases list.len() - i,
        {
            proof {
                lemma_take_to_set(list@, i as int);
            }
            fork.insert(list[i]);
            i += 1;
        }
        proof {
            assert(list@.take(i as int) =~= list@);
        }
        fork.insert(slot);
        fork
    }

    /// Applies a block: forks its bank off the parent's, applies the block's
    /// votes to it and stores it; moves the lowest root up to the new bank's
    /// where that is higher, dropping what no longer descends from it; and
    /// recomputes the fork weights.
    pub fn apply(&mut self, block: &Block)
        requires
            old(self)@.wf(),
            old(self)@.admits(block@),
        ensures
            final(self)@ == old(self)@.applied(block@),
            final(self)@.wf(),
            final(self)@.weighed(),
            final(self)@.lowest_root.slot >= old(self)@.lowest_root.slot,
            final(self)@.fork_map.contains_key(block@.slot),
    {
        broadcast use vstd::std_specs::hash::group_hash_axioms;

        let ghost m = self@.fork_map;
        let ghost root = self.lowest_root.slot;
        let ghost p = block.parent;
        let ghost s = block.slot;
        let fork = self.fork_set(block.parent, block.slot);
        proof {
            assert(is_bank_at(m[p], p));
            lemma_reaches_root(m, root, p);
        }
        let mut parent = self.fork_map.remove(&block.parent).unwrap();
        assert(parent@ == m[p]);
        let mut bank = parent.child(block.slot);
        self.fork_map.insert(block.parent, parent);
        bank.apply(block, &fork);
        let lowest_root = bank.lowest_root();
        let ghost fresh = bank@;
        proof {
            assert(fresh == old(self)@.child_for(block@).applied(block@));
            assert(is_bank_at(fresh, s));
            // the towers of the new bank vote along its fork
            let along = seq![s] + fork_of(m, p);
            assert(bank_on_fork(m[p], fork_of(m, p), root));
            assert forall|i: int, x: Slot|
                0 <= i < fresh.nodes.len() && #[trigger] holds_slot(fresh.nodes[i], x) implies x
                < root || along.contains(x) by {
                lemma_apply_entries_holds(m[p].nodes, block@.votes, fork@, i, x);
                if holds_slot(m[p].nodes[i], x) {
                    if fork_of(m, p).contains(x) {
                        let up = fork_of(m, p);
                        let k = choose|k: int| 0 <= k < up.len() && up[k] == x;
                        assert(along[k + 1] == x);
                    }
                } else {
                    if x == s {
                        assert(along[0] == x);
                    } else {
                        let up = fork_of(m, p);
                        assert(up.to_set().contains(x));
                        let k = choose|k: int| 0 <= k < up.len() && up[k] == x;
                        assert(along[k + 1] == x);
                    }
                }
            }
            lemma_grown(m, root, p, s, fresh);
        }
        self.fork_map.insert(bank.slot, bank);
        let ghost all = grown(m, p, s, fresh);
        proof {
            assert(self@.fork_map =~= all);
        }
        if lowest_root.slot > self.lowest_root.slot {
            proof {
                lemma_new_root(all, root, s, lowest_root.slot);
                lemma_pruned(all, root, lowest_root.slot);
            }
            self.lowest_root = lowest_root;
            assert(is_rooted(self@.fork_map, root));
            self.gc();
        }
        self.build_fork_weights();
        proof {
            assert(self@.fork_weights.dom().subset_of(self@.fork_map.dom()));
        }
    }

    /// Whether `block` can be applied: its slot is new and later than its
    /// parent's, its parent has a bank, every entry names a validator, and every
    /// vote names a slot of the parent's fork or the block's own.
    pub fn admits(&self, block: &Block) -> (b: bool)
        ensures
            b == self@.admits(block@),
    {
        broadcast use vstd::std_specs::hash::group_hash_axioms;

        if self.fork_map.contains_key(&block.slot) || !self.fork_map.contains_key(&block.parent)
            || block.parent >= block.slot {
            return false;
        }
        let fork = self.fork_set(block.parent, block.slot);
        block.fits(&fork)
    }
}

} // verus!
