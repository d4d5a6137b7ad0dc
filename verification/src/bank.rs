//! A bank: the state of the network at one slot of one fork, with a replica
//! of every validator's tower.

use crate::count::count_where;
use crate::count::lemma_count_agree;
use crate::count::lemma_count_all;
use crate::count::lemma_count_mono;
use crate::count::lemma_count_none;
use crate::count::lemma_count_split;
use crate::count::lemma_count_strict;
use crate::count::lemma_count_disjoint;
use crate::count::lemma_count_take;
use crate::subcommittee::Subcommittee;
use crate::subcommittee::SubcommitteeView;
use crate::tower::lemma_voted;
use crate::tower::Slot;
use crate::tower::Tower;
use crate::tower::TowerView;
use crate::tower::Vote;
use crate::tower::MAX_LOCKOUT;
use std::collections::HashMap;
use std::collections::HashSet;
use vstd::prelude::*;

verus! {

/// Number of validators.
pub const NUM_NODES: usize = 997;

/// Index of a validator, below `NUM_NODES`.
pub type ID = usize;

/// Position in the ascending order of the validators' roots at which the
/// supermajority root stands: two thirds of the validators are at or above it.
pub const SUPER_ROOT_RANK: usize = NUM_NODES / 3;

/// Number of validators that a vote must exceed to pass the threshold check.
pub const SUPERMAJORITY: usize = (2 * NUM_NODES) / 3;

/// Mathematical content of a block.
pub struct BlockView {
    pub slot: Slot,
    pub parent: Slot,
    pub votes: Seq<(ID, Seq<Vote>)>,
}

/// A block: its slot, the slot it builds on, and for some validators the
/// votes they cast, each validator's in the order in which they are applied.
pub struct Block {
    pub slot: Slot,
    pub parent: Slot,
    pub votes: Vec<(ID, Vec<Vote>)>,
}

impl View for Block {
    type V = BlockView;

    open spec fn view(&self) -> BlockView {
        BlockView {
            slot: self.slot,
            parent: self.parent,
            votes: self.votes@.map_values(|e: (ID, Vec<Vote>)| (e.0, e.1@)),
        }
    }
}

/// Mathematical content of a bank.
pub struct BankView {
    pub nodes: Seq<TowerView>,
    pub slot: Slot,
    pub parent: Slot,
    pub frozen: bool,
    pub children: Seq<Slot>,
    pub subcom: SubcommitteeView,
}

/// A node of the block tree, with the tower of every validator as of that block.
pub struct Bank {
    pub nodes: Vec<Tower>,
    pub slot: Slot,
    pub parent: Slot,
    pub frozen: bool,
    pub children: Vec<Slot>,
    pub subcom: Subcommittee,
}

impl View for Bank {
    type V = BankView;

    open spec fn view(&self) -> BankView {
        BankView {
            nodes: self.nodes@.map_values(|t: Tower| t@),
            slot: self.slot,
            parent: self.parent,
            frozen: self.frozen,
            children: self.children@,
            subcom: self.subcom@,
        }
    }
}

/// Number of towers rooted below `slot`.
pub open spec fn roots_below(nodes: Seq<TowerView>, slot: int) -> nat {
    count_where(nodes, |t: TowerView| t.root.slot < slot)
}

/// Number of towers rooted at `slot` or above.
pub open spec fn roots_at_or_above(nodes: Seq<TowerView>, slot: int) -> nat {
    count_where(nodes, |t: TowerView| t.root.slot >= slot)
}

/// A vote `v` on a stack backs `vote` when it is at or past its slot and
/// either `vote` has the greatest lockout, or `v`, its lockout taken `mult`
/// times, stays bound at least as long as `vote`.
pub open spec fn backs(v: Vote, mult: u64, vote: Vote) -> bool {
    v.slot >= vote.slot && (vote.lockout == MAX_LOCKOUT || v.slot + mult * v.lockout >= vote.slot
        + vote.lockout)
}

/// A tower supports `vote` when it is rooted at or past its slot, or holds a vote that backs it.
pub open spec fn supports(t: TowerView, mult: u64, vote: Vote) -> bool {
    t.root.slot >= vote.slot || exists|j: int|
        0 <= j < t.votes.len() && backs(#[trigger] t.votes[j], mult, vote)
}

/// Number of towers that support `vote`.
pub open spec fn supporters(nodes: Seq<TowerView>, mult: u64, vote: Vote) -> nat {
    count_where(nodes, |t: TowerView| supports(t, mult, vote))
}

/// The tower after a sequence of votes was offered to it, one after the other.
pub open spec fn offer_all(t: TowerView, votes: Seq<Vote>) -> TowerView
    decreases votes.len(),
{
    if votes.len() == 0 {
        t
    } else {
        offer_all(t, votes.drop_last()).offered(votes.last().slot)
    }
}

/// The towers after the entries of a block were applied in their order, each
/// entry's votes offered to the tower of its validator.
pub open spec fn apply_entries(nodes: Seq<TowerView>, entries: Seq<(ID, Seq<Vote>)>) -> Seq<
    TowerView,
>
    decreases entries.len(),
{
    if entries.len() == 0 {
        nodes
    } else {
        let before = apply_entries(nodes, entries.drop_last());
        let id = entries.last().0 as int;
        before.update(id, offer_all(before[id], entries.last().1))
    }
}

/// The slot at rank `SUPER_ROOT_RANK` among the roots of `nodes` in ascending
/// order: no more than that many towers are rooted below it, and more than
/// that many at or below it.
pub open spec fn is_super_root_slot(nodes: Seq<TowerView>, slot: Slot) -> bool {
    roots_below(nodes, slot as int) <= SUPER_ROOT_RANK < roots_below(nodes, slot + 1)
}

/// Validator `k` is the first whose root has the least slot.
pub open spec fn is_first_lowest(nodes: Seq<TowerView>, k: int) -> bool {
    &&& 0 <= k < nodes.len()
    &&& forall|i: int|
        0 <= i < nodes.len() ==> nodes[k].root.slot <= (#[trigger] nodes[i]).root.slot
    &&& forall|i: int| 0 <= i < k ==> (#[trigger] nodes[i]).root.slot > nodes[k].root.slot
}

/// The root that comes first when the roots are put in ascending order of
/// slot, roots of one slot in the order of their validators.
pub open spec fn lowest_root_of(nodes: Seq<TowerView>) -> Vote {
    nodes[choose|k: int| is_first_lowest(nodes, k)].root
}

/// There is one first validator with the least root.
pub proof fn lemma_first_lowest_unique(nodes: Seq<TowerView>, k: int)
    requires
        is_first_lowest(nodes, k),
    ensures
        lowest_root_of(nodes) == nodes[k].root,
        is_lowest_root_slot(nodes, nodes[k].root.slot),
{
    let c = choose|c: int| is_first_lowest(nodes, c);
    if c < k {
        assert(nodes[c].root.slot > nodes[k].root.slot);
    }
    if k < c {
        assert(nodes[k].root.slot > nodes[c].root.slot);
    }
}

/// The least of the roots' slots.
pub open spec fn is_lowest_root_slot(nodes: Seq<TowerView>, slot: Slot) -> bool {
    &&& exists|i: int| 0 <= i < nodes.len() && (#[trigger] nodes[i]).root.slot == slot
    &&& forall|i: int| 0 <= i < nodes.len() ==> slot <= (#[trigger] nodes[i]).root.slot
}

impl BankView {
    /// A bank holds one well-formed tower for each of the `NUM_NODES` validators.
    pub open spec fn wf(self) -> bool {
        &&& self.nodes.len() == NUM_NODES
        &&& forall|i: int| 0 <= i < self.nodes.len() ==> (#[trigger] self.nodes[i]).wf()
    }

    /// The supermajority root's slot, where the bank holds `NUM_NODES` towers.
    pub open spec fn super_root_slot(self) -> Slot {
        choose|slot: Slot| is_super_root_slot(self.nodes, slot)
    }
}

/// The test whether a tower is rooted at `slot`.
pub open spec fn is_rooted_at(slot: Slot) -> spec_fn(TowerView) -> bool {
    |t: TowerView| t.root.slot == slot
}

/// The root of validator `k` stands at position `rank` when the roots are put
/// in ascending order of slot, roots of one slot in the order of their
/// validators: as many towers as `rank` are rooted below it, or at its slot
/// and before it.
pub open spec fn is_ranked(nodes: Seq<TowerView>, rank: int, k: int) -> bool {
    &&& 0 <= k < nodes.len()
    &&& roots_below(nodes, nodes[k].root.slot as int) + count_where(
        nodes.take(k),
        is_rooted_at(nodes[k].root.slot),
    ) == rank
}

/// The root at position `SUPER_ROOT_RANK` of that order.
pub open spec fn super_root_of(nodes: Seq<TowerView>) -> Vote {
    nodes[choose|k: int| is_ranked(nodes, SUPER_ROOT_RANK as int, k)].root
}

/// One validator's root stands at each position.
pub proof fn lemma_ranked_unique(nodes: Seq<TowerView>, rank: int, a: int, b: int)
    requires
        is_ranked(nodes, rank, a),
        is_ranked(nodes, rank, b),
    ensures
        a == b,
{
    let sa = nodes[a].root.slot;
    let sb = nodes[b].root.slot;
    if sa == sb {
        if a < b {
            lemma_count_take(nodes, is_rooted_at(sa), a, b);
        }
        if b < a {
            lemma_count_take(nodes, is_rooted_at(sa), b, a);
        }
    } else {
        let (lo, hi, k) = if sa < sb {
            (sa, sb, a)
        } else {
            (sb, sa, b)
        };
        // all towers rooted below `lo` or at it are rooted below `hi`
        lemma_count_disjoint(
            nodes,
            |t: TowerView| t.root.slot < lo as int,
            is_rooted_at(lo),
            |t: TowerView| t.root.slot < lo + 1,
        );
        lemma_count_mono(
            nodes,
            |t: TowerView| t.root.slot < lo + 1,
            |t: TowerView| t.root.slot < hi as int,
        );
        assert(nodes.take(nodes.len() as int) =~= nodes);
        lemma_count_take(nodes, is_rooted_at(lo), k, nodes.len() as int);
    }
}

/// The root at position `rank` is the root of the validator that stands there.
pub proof fn lemma_super_root_of(nodes: Seq<TowerView>, k: int)
    requires
        is_ranked(nodes, SUPER_ROOT_RANK as int, k),
    ensures
        super_root_of(nodes) == nodes[k].root,
{
    let c = choose|c: int| is_ranked(nodes, SUPER_ROOT_RANK as int, c);
    lemma_ranked_unique(nodes, SUPER_ROOT_RANK as int, c, k);
}

/// The rank of the supermajority root determines its slot.
pub proof fn lemma_super_root_slot_unique(nodes: Seq<TowerView>, a: Slot, b: Slot)
    requires
        is_super_root_slot(nodes, a),
        is_super_root_slot(nodes, b),
    ensures
        a == b,
{
    if a < b {
        lemma_count_mono(
            nodes,
            |t: TowerView| t.root.slot < a + 1,
            |t: TowerView| t.root.slot < b as int,
        );
    }
    if b < a {
        lemma_count_mono(
            nodes,
            |t: TowerView| t.root.slot < b + 1,
            |t: TowerView| t.root.slot < a as int,
        );
    }
}

/// At least two thirds of the validators, rounded up, are rooted at or above
/// the supermajority root.
pub proof fn lemma_super_root_is_supermajority(nodes: Seq<TowerView>, slot: Slot)
    requires
        nodes.len() == NUM_NODES,
        is_super_root_slot(nodes, slot),
    ensures
        3 * roots_at_or_above(nodes, slot as int) >= 2 * NUM_NODES,
        roots_at_or_above(nodes, slot as int) >= 665,
{
    lemma_count_split(
        nodes,
        |t: TowerView| t.root.slot < slot as int,
        |t: TowerView| t.root.slot >= slot as int,
    );
}


impl Bank {
    /// Mathematical content of the genesis bank.
    pub open spec fn zero_view() -> BankView {
        BankView {
            nodes: Seq::new(
                NUM_NODES as nat,
                |i: int| TowerView { votes: Seq::empty(), root: crate::tower::zero_vote() },
            ),
            slot: 0,
            parent: 0,
            frozen: true,
            children: Seq::empty(),
            subcom: Subcommittee::default_view(),
        }
    }

    /// The genesis bank: slot 0, its own parent, frozen, every tower empty.
    pub fn zero() -> (b: Bank)
        ensures
            b@ == Bank::zero_view(),
            b@.wf(),
    {
        let mut nodes: Vec<Tower> = Vec::new();
        let mut i: usize = 0;
        while i < NUM_NODES
            invariant
                i <= NUM_NODES,
                nodes.len() == i,
                forall|k: int|
                    0 <= k < i ==> (#[trigger] nodes[k])@.wf() && nodes[k]@.votes.len() == 0
                        && nodes[k]@.root == crate::tower::zero_vote(),
            decreases NUM_NODES - i,
        {
            nodes.push(Tower::default());
            i += 1;
        }
        let b = Bank {
            frozen: true,
            nodes,
            slot: 0,
            parent: 0,
            subcom: Subcommittee::default(),
            children: Vec::new(),
        };
        proof {
            assert(b@.nodes =~= Bank::zero_view().nodes) by {
                assert forall|k: int| 0 <= k < NUM_NODES implies b@.nodes[k]
                    == Bank::zero_view().nodes[k] by {
                    assert(b.nodes[k]@.votes =~= Seq::<Vote>::empty());
                }
            }
            assert(b@.children =~= Seq::<Slot>::empty());
        }
        b
    }

    /// Forks an unfrozen child at `slot` off this frozen bank: the child copies
    /// the towers, takes over the subcommittees as its epoch asks, and this
    /// bank notes the child's slot.
    pub fn child(&mut self, slot: Slot) -> (b: Bank)
        requires
            old(self)@.frozen,
        ensures
            b@ == (BankView {
                nodes: old(self)@.nodes,
                slot,
                parent: old(self)@.slot,
                frozen: false,
                children: Seq::empty(),
                subcom: old(self)@.subcom.child().initialized(old(self)@.subcom),
            }),
            final(self)@ == (BankView {
                children: old(self)@.children.push(slot),
                ..old(self)@
            }),
    {
        let mut b = Bank {
            nodes: self.nodes.clone(),
            slot,
            parent: self.slot,
            children: Vec::new(),
            subcom: self.subcom.child(),
            frozen: false,
        };
        b.subcom.init_child(&self.subcom);
        self.children.push(slot);
        proof {
            assert(b@.nodes =~= old(self)@.nodes);
            assert(self@.nodes =~= old(self)@.nodes);
        }
        b
    }

    /// The root of the first validator whose root has the least slot.
    pub fn lowest_root(&self) -> (r: Vote)
        requires
            self@.nodes.len() > 0,
        ensures
            r == lowest_root_of(self@.nodes),
            is_lowest_root_slot(self@.nodes, r.slot),
            exists|k: int| #[trigger] is_first_lowest(self@.nodes, k) && self@.nodes[k].root == r,
    {
        let mut best: usize = 0;
        let mut i: usize = 1;
        while i < self.nodes.len()
            invariant
                1 <= i <= self.nodes.len(),
                best < i,
                forall|k: int|
                    0 <= k < i ==> self.nodes[best as int].root.slot <= (
                    #[trigger] self.nodes[k]).root.slot,
                forall|k: int|
                    0 <= k < best ==> (#[trigger] self.nodes[k]).root.slot
                        > self.nodes[best as int].root.slot,
            decreases self.nodes.len() - i,
        {
            if self.nodes[i].root.slot < self.nodes[best].root.slot {
                best = i;
            }
            i += 1;
        }
        let r = self.nodes[best].root;
        proof {
            assert(self@.nodes[best as int].root == r);
            assert forall|k: int| 0 <= k < self@.nodes.len() implies r.slot <= (
            #[trigger] self@.nodes[k]).root.slot by {
                assert(self.nodes[k].root.slot >= r.slot);
            }
            assert forall|k: int| 0 <= k < best implies (#[trigger] self@.nodes[k]).root.slot
                > r.slot by {
                assert(self.nodes[k].root.slot > r.slot);
            }
            assert(is_first_lowest(self@.nodes, best as int));
            lemma_first_lowest_unique(self@.nodes, best as int);
        }
        r
    }

    /// Number of towers rooted below `slot`, or at or below it where `inclusive`.
    fn count_roots_below(&self, slot: Slot, inclusive: bool) -> (c: usize)
        ensures
            c == roots_below(
                self@.nodes,
                slot + if inclusive {
                    1int
                } else {
                    0int
                },
            ),
    {
        let ghost bound: int = slot + if inclusive {
            1int
        } else {
            0int
        };
        let ghost p = |t: TowerView| t.root.slot < bound;
        let mut c: usize = 0;
        let mut i: usize = 0;
        while i < self.nodes.len()
            invariant
                i <= self.nodes.len(),
                c <= i,
                c == count_where(self@.nodes.take(i as int), p),
                p == |t: TowerView| t.root.slot < bound,
                bound == slot + if inclusive {
                    1int
                } else {
                    0int
                },
            decreases self.nodes.len() - i,
        {
            proof {
                assert(self@.nodes.take(i + 1).drop_last() =~= self@.nodes.take(i as int));
                assert(self@.nodes.take(i + 1).last() == self.nodes[i as int]@);
            }
            let r = self.nodes[i].root.slot;
            if r < slot || (inclusive && r == slot) {
                c += 1;
            }
            i += 1;
        }
        proof {
            assert(self@.nodes.take(i as int) =~= self@.nodes);
        }
        c
    }

    /// The first validator whose root has the least slot above `slot`, if any root is above it.
    fn next_root_above(&self, slot: Slot) -> (next: Option<usize>)
        ensures
            match next {
                Some(m) => m < self@.nodes.len() && self@.nodes[m as int].root.slot > slot
                    && forall|i: int|
                    0 <= i < self@.nodes.len() && (#[trigger] self@.nodes[i]).root.slot > slot
                        ==> self@.nodes[i].root.slot >= self@.nodes[m as int].root.slot,
                None => forall|i: int|
                    0 <= i < self@.nodes.len() ==> (#[trigger] self@.nodes[i]).root.slot <= slot,
            },
    {
        let mut next: Option<usize> = None;
        let mut i: usize = 0;
        while i < self.nodes.len()
            invariant
                i <= self.nodes.len(),
                match next {
                    Some(m) => m < i && self.nodes[m as int].root.slot > slot && forall|k: int|
                        0 <= k < i && (#[trigger] self.nodes[k]).root.slot > slot
                            ==> self.nodes[k].root.slot >= self.nodes[m as int].root.slot,
                    None => forall|k: int|
                        0 <= k < i ==> (#[trigger] self.nodes[k]).root.slot <= slot,
                },
            decreases self.nodes.len() - i,
        {
            let r = self.nodes[i].root.slot;
            if r > slot {
                match next {
                    Some(m) => {
                        if r < self.nodes[m].root.slot {
                            next = Some(i);
                        }
                    },
                    None => {
                        next = Some(i);
                    },
                }
            }
            i += 1;
        }
        proof {
            match next {
                Some(m) => {
                    assert forall|k: int|
                        0 <= k < self@.nodes.len() && (#[trigger] self@.nodes[k]).root.slot
                            > slot implies self@.nodes[k].root.slot
                        >= self@.nodes[m as int].root.slot by {
                        assert(self.nodes[k].root.slot > slot);
                    }
                },
                None => {
                    assert forall|k: int| 0 <= k < self@.nodes.len() implies (
                    #[trigger] self@.nodes[k]).root.slot <= slot by {
                        assert(self.nodes[k].root.slot <= slot);
                    }
                },
            }
        }
        next
    }

    /// The supermajority root: the root that stands at position
    /// `SUPER_ROOT_RANK` when the validators' roots are put in ascending order of
    /// slot, roots of one slot in the order of their validators. Two thirds of the
    /// validators are rooted at its slot or above.
    pub fn calc_super_root(&self) -> (r: Vote)
        requires
            self@.nodes.len() == NUM_NODES,
        ensures
            r == super_root_of(self@.nodes),
            is_super_root_slot(self@.nodes, r.slot),
            r.slot == self@.super_root_slot(),
            3 * roots_at_or_above(self@.nodes, r.slot as int) >= 2 * NUM_NODES,
    {
        let first = self.lowest_root();
        let ghost nodes = self@.nodes;
        let mut cur: Vote = first;
        proof {
            let k = choose|k: int| #[trigger] is_first_lowest(nodes, k) && nodes[k].root == first;
            assert(nodes[k].root == cur);
            lemma_count_mono(
                nodes,
                |t: TowerView| t.root.slot < first.slot as int,
                |t: TowerView| false,
            );
            lemma_count_none(nodes);
        }
        loop
            invariant
                nodes == self@.nodes,
                nodes.len() == NUM_NODES,
                exists|i: int| 0 <= i < NUM_NODES && (#[trigger] nodes[i]).root == cur,
                roots_below(nodes, cur.slot as int) <= SUPER_ROOT_RANK,
            ensures
                exists|i: int| 0 <= i < NUM_NODES && (#[trigger] nodes[i]).root == cur,
                is_super_root_slot(nodes, cur.slot),
            decreases NUM_NODES - roots_below(nodes, cur.slot as int),
        {
            let at_or_below = self.count_roots_below(cur.slot, true);
            if at_or_below > SUPER_ROOT_RANK {
                break;
            }
            let ghost k = choose|k: int| 0 <= k < NUM_NODES && (#[trigger] nodes[k]).root == cur;
            match self.next_root_above(cur.slot) {
                Some(m) => {
                    let next = self.nodes[m].root;
                    proof {
                        assert(nodes[m as int].root == next);
                        lemma_count_agree(
                            nodes,
                            |t: TowerView| t.root.slot < next.slot as int,
                            |t: TowerView| t.root.slot < cur.slot + 1,
                        );
                        lemma_count_strict(
                            nodes,
                            |t: TowerView| t.root.slot < cur.slot as int,
                            |t: TowerView| t.root.slot < cur.slot + 1,
                            k,
                        );
                    }
                    cur = next;
                },
                None => {
                    proof {
                        lemma_count_agree(
                            nodes,
                            |t: TowerView| t.root.slot < cur.slot + 1,
                            |t: TowerView| true,
                        );
                        lemma_count_all(nodes);
                    }
                    break;
                },
            }
        }
        proof {
            let s = self@.super_root_slot();
            lemma_super_root_slot_unique(nodes, s, cur.slot);
            lemma_super_root_is_supermajority(nodes, cur.slot);
        }
        // among the roots of that slot, the one that the rank falls on
        let slot = cur.slot;
        let below = self.count_roots_below(slot, false);
        let ghost at = is_rooted_at(slot);
        proof {
            lemma_count_disjoint(
                nodes,
                |t: TowerView| t.root.slot < slot as int,
                at,
                |t: TowerView| t.root.slot < slot + 1,
            );
            assert(nodes.take(NUM_NODES as int) =~= nodes);
        }
        let mut seen: usize = 0;
        let mut i: usize = 0;
        while i < self.nodes.len()
            invariant
                i <= self.nodes.len(),
                nodes == self@.nodes,
                nodes.len() == NUM_NODES,
                at == is_rooted_at(slot),
                below == roots_below(nodes, slot as int),
                is_super_root_slot(nodes, slot),
                slot == self@.super_root_slot(),
                3 * roots_at_or_above(nodes, slot as int) >= 2 * NUM_NODES,
                seen == count_where(nodes.take(i as int), at),
                below + seen <= SUPER_ROOT_RANK,
                below + count_where(nodes, at) > SUPER_ROOT_RANK,
            decreases self.nodes.len() - i,
        {
            proof {
                assert(nodes.take(i + 1).drop_last() =~= nodes.take(i as int));
                assert(nodes.take(i + 1).last() == self.nodes[i as int]@);
            }
            if self.nodes[i].root.slot == slot {
                if below + seen == SUPER_ROOT_RANK {
                    proof {
                        assert(is_ranked(nodes, SUPER_ROOT_RANK as int, i as int));
                        lemma_super_root_of(nodes, i as int);
                    }
                    return self.nodes[i].root;
                }
                seen += 1;
            }
            i += 1;
        }
        proof {
            assert(nodes.take(i as int) =~= nodes);
        }
        cur
    }
}

/// The latest votes after those of `nodes` were merged into `acc`: each
/// validator's entry is the greater of what `acc` held and the slot of the
/// validator's latest vote, or of its root where its stack is empty.
pub open spec fn merged_latest(acc: Map<ID, Slot>, nodes: Seq<TowerView>) -> Map<ID, Slot> {
    Map::new(
        |id: ID| acc.contains_key(id) || id < nodes.len(),
        |id: ID|
            if id < nodes.len() && !(acc.contains_key(id) && acc[id]
                >= nodes[id as int].latest_slot()) {
                nodes[id as int].latest_slot()
            } else {
                acc[id]
            },
    )
}

/// Whether the vote `v` backs `vote`.
fn vote_backs(v: &Vote, mult: u64, vote: &Vote) -> (b: bool)
    ensures
        b == backs(*v, mult, *vote),
{
    if v.slot < vote.slot {
        return false;
    }
    if vote.lockout == MAX_LOCKOUT {
        return true;
    }
    assert(mult * v.lockout <= 0xffff_ffff_ffff_ffff * 0xffff_ffff) by (nonlinear_arith)
        requires
            0 <= mult <= 0xffff_ffff_ffff_ffff,
            0 <= v.lockout <= 0xffff_ffff,
    ;
    let held: u128 = v.slot as u128 + (mult as u128) * (v.lockout as u128);
    let asked: u128 = vote.slot as u128 + vote.lockout as u128;
    held >= asked
}

/// Whether the tower supports `vote`.
fn tower_supports(t: &Tower, mult: u64, vote: &Vote) -> (b: bool)
    ensures
        b == supports(t@, mult, *vote),
{
    if t.root.slot >= vote.slot {
        return true;
    }
    let mut j: usize = 0;
    while j < t.votes.len()
        invariant
            j <= t.votes.len(),
            forall|k: int| 0 <= k < j ==> !backs(#[trigger] t@.votes[k], mult, *vote),
        decreases t.votes.len() - j,
    {
        if vote_backs(&t.votes[j], mult, vote) {
            assert(backs(t@.votes[j as int], mult, *vote));
            return true;
        }
        j += 1;
    }
    false
}

impl Bank {
    /// Number of validators whose tower supports `vote`, their lockouts taken `mult` times.
    pub fn calc_threshold_slot(&self, mult: u64, vote: &Vote) -> (count: usize)
        ensures
            count == supporters(self@.nodes, mult, *vote),
    {
        let ghost p = |t: TowerView| supports(t, mult, *vote);
        let mut count: usize = 0;
        let mut i: usize = 0;
        while i < self.nodes.len()
            invariant
                i <= self.nodes.len(),
                count <= i,
                count == count_where(self@.nodes.take(i as int), p),
                p == |t: TowerView| supports(t, mult, *vote),
            decreases self.nodes.len() - i,
        {
            proof {
                assert(self@.nodes.take(i + 1).drop_last() =~= self@.nodes.take(i as int));
                assert(self@.nodes.take(i + 1).last() == self.nodes[i as int]@);
            }
            if tower_supports(&self.nodes[i], mult, vote) {
                count += 1;
            }
            i += 1;
        }
        proof {
            assert(self@.nodes.take(i as int) =~= self@.nodes);
        }
        count
    }

    /// Whether more than two thirds of the validators support `vote`, their
    /// lockouts taken `MAX_LOCKOUT` times.
    pub fn threshold_slot(&self, vote: &Vote) -> (b: bool)
        ensures
            b == self@.meets_threshold(*vote),
    {
        self.calc_threshold_slot(64, vote) > SUPERMAJORITY
    }

    /// Merges the latest vote of every validator into `latest_votes`, keeping
    /// for each validator the greater slot.
    pub fn latest_votes(&self, latest_votes: &mut HashMap<ID, Slot>)
        ensures
            final(latest_votes)@ == merged_latest(old(latest_votes)@, self@.nodes),
    {
        broadcast use vstd::std_specs::hash::group_hash_axioms;

        let ghost before = latest_votes@;
        let mut i: usize = 0;
        proof {
            assert(latest_votes@ =~= merged_latest(before, self@.nodes.take(0)));
        }
        while i < self.nodes.len()
            invariant
                i <= self.nodes.len(),
                latest_votes@ == merged_latest(before, self@.nodes.take(i as int)),
            decreases self.nodes.len() - i,
        {
            let n = &self.nodes[i];
            let latest: Slot = match n.latest_vote() {
                Some(v) => v.slot,
                None => n.root.slot,
            };
            assert(latest == self@.nodes[i as int].latest_slot());
            let keep = match latest_votes.get(&i) {
                Some(held) => *held >= latest,
                None => false,
            };
            if !keep {
                latest_votes.insert(i, latest);
            }
            proof {
                assert(self@.nodes.take(i + 1)[i as int] == self@.nodes[i as int]);
                assert forall|id: ID| id < i implies self@.nodes.take(i + 1)[id as int]
                    == self@.nodes.take(i as int)[id as int] by {}
                assert(latest_votes@ =~= merged_latest(before, self@.nodes.take(i + 1)));
            }
            i += 1;
        }
        proof {
            assert(self@.nodes.take(i as int) =~= self@.nodes);
        }
    }
}

impl BankView {
    /// More than two thirds of the validators support `vote`, their lockouts
    /// taken `MAX_LOCKOUT` times.
    pub open spec fn meets_threshold(self, vote: Vote) -> bool {
        supporters(self.nodes, MAX_LOCKOUT as u64, vote) > SUPERMAJORITY
    }
}


impl BlockView {
    /// Every entry names a validator, and every vote a slot of `fork`.
    pub open spec fn fits(self, fork: Set<Slot>) -> bool {
        &&& forall|e: int| 0 <= e < self.votes.len() ==> (#[trigger] self.votes[e]).0 < NUM_NODES
        &&& forall|e: int, k: int|
            0 <= e < self.votes.len() && 0 <= k < self.votes[e].1.len() ==> fork.contains(
                (#[trigger] self.votes[e].1[k]).slot,
            )
    }
}

impl BankView {
    /// The bank after `block` was applied: the votes have been offered to the
    /// towers, the supermajority root of the result is recorded, and the bank is frozen.
    pub open spec fn applied(self, block: BlockView) -> BankView {
        let voted = BankView { nodes: apply_entries(self.nodes, block.votes), ..self };
        BankView { frozen: true, subcom: self.subcom.frozen(voted.super_root_slot()), ..voted }
    }
}

/// Offering votes to a well-formed tower leaves it well-formed, and its root does not move back.
pub proof fn lemma_offer_all(t: TowerView, votes: Seq<Vote>)
    requires
        t.wf(),
    ensures
        offer_all(t, votes).wf(),
        offer_all(t, votes).root.slot >= t.root.slot,
    decreases votes.len(),
{
    if votes.len() > 0 {
        lemma_offer_all(t, votes.drop_last());
        let before = offer_all(t, votes.drop_last());
        if !before.already_voted(votes.last().slot) {
            lemma_voted(before, votes.last().slot);
        }
    }
}

/// Applying entries that name validators to well-formed towers leaves as many
/// towers, all well-formed, and no root moved back.
pub proof fn lemma_apply_entries(nodes: Seq<TowerView>, entries: Seq<(ID, Seq<Vote>)>)
    requires
        forall|i: int| 0 <= i < nodes.len() ==> (#[trigger] nodes[i]).wf(),
        forall|e: int| 0 <= e < entries.len() ==> (#[trigger] entries[e]).0 < nodes.len(),
    ensures
        apply_entries(nodes, entries).len() == nodes.len(),
        forall|i: int|
            0 <= i < nodes.len() ==> (#[trigger] apply_entries(nodes, entries)[i]).wf()
                && apply_entries(nodes, entries)[i].root.slot >= nodes[i].root.slot,
    decreases entries.len(),
{
    if entries.len() > 0 {
        let front = entries.drop_last();
        assert forall|e: int| 0 <= e < front.len() implies (#[trigger] front[e]).0
            < nodes.len() by {
            assert(front[e] == entries[e]);
        }
        lemma_apply_entries(nodes, front);
        let before = apply_entries(nodes, front);
        let id = entries.last().0 as int;
        assert(entries.last() == entries[entries.len() - 1]);
        assert(before[id].wf());
        lemma_offer_all(before[id], entries.last().1);
    }
}

impl Bank {
    /// Applies `block` to this unfrozen bank: each entry's votes are offered, in
    /// their order, to the tower of the entry's validator, refusals passed over;
    /// then the supermajority root is recorded and the bank is frozen.
    pub fn apply(&mut self, block: &Block, fork: &HashSet<Slot>)
        requires
            old(self)@.nodes.len() == NUM_NODES,
            !old(self)@.frozen,
            old(self)@.slot == block@.slot,
            old(self)@.parent == block@.parent,
            block@.fits(fork@),
            old(self)@.subcom.num_super_roots < u64::MAX,
        ensures
            final(self)@ == old(self)@.applied(block@),
            final(self)@.nodes.len() == NUM_NODES,
            old(self)@.wf() ==> final(self)@.wf(),
    {
        let ghost start = self@.nodes;
        let ghost entries = block@.votes;
        let mut e: usize = 0;
        proof {
            assert(self@.nodes =~= apply_entries(start, entries.take(0)));
        }
        while e < block.votes.len()
            invariant
                e <= block.votes.len(),
                entries == block@.votes,
                block@.fits(fork@),
                start == old(self)@.nodes,
                self@.nodes == apply_entries(start, entries.take(e as int)),
                self@.nodes.len() == NUM_NODES,
                old(self)@.wf() ==> self@.wf(),
                self.slot == old(self).slot,
                self.parent == old(self).parent,
                self.frozen == old(self).frozen,
                self.children == old(self).children,
                self.subcom == old(self).subcom,
            decreases block.votes.len() - e,
        {
            let id = block.votes[e].0;
            let votes = &block.votes[e].1;
            let ghost before = self@.nodes;
            assert(entries[e as int] == (id, votes@));
            assert(id < NUM_NODES);
            let mut k: usize = 0;
            proof {
                assert(before =~= before.update(
                    id as int,
                    offer_all(before[id as int], votes@.take(0)),
                ));
            }
            while k < votes.len()
                invariant
                    k <= votes.len(),
                    id < NUM_NODES,
                    before.len() == NUM_NODES,
                    self@.nodes.len() == NUM_NODES,
                    self@.nodes == before.update(
                        id as int,
                        offer_all(before[id as int], votes@.take(k as int)),
                    ),
                    old(self)@.wf() ==> self@.wf(),
                    self.slot == old(self).slot,
                    self.parent == old(self).parent,
                    self.frozen == old(self).frozen,
                    self.children == old(self).children,
                    self.subcom == old(self).subcom,
                decreases votes.len() - k,
            {
                let ghost held = self@.nodes;
                let ghost cur = offer_all(before[id as int], votes@.take(k as int));
                proof {
                    assert(held[id as int] == cur);
                    assert(self.nodes[id as int]@ == held[id as int]);
                }
                let _refused = self.nodes[id].apply(&votes[k]);
                proof {
                    assert(self.nodes[id as int]@ == cur.offered(votes@[k as int].slot));
                    assert(self@.nodes =~= held.update(id as int, self.nodes[id as int]@));
                    assert(votes@.take(k + 1).drop_last() =~= votes@.take(k as int));
                    assert(votes@.take(k + 1).last() == votes@[k as int]);
                    assert(self@.nodes =~= before.update(
                        id as int,
                        offer_all(before[id as int], votes@.take(k + 1)),
                    ));
                }
                k += 1;
            }
            proof {
                assert(votes@.take(k as int) =~= votes@);
                assert(entries.take(e + 1).drop_last() =~= entries.take(e as int));
                assert(entries.take(e + 1).last() == entries[e as int]);
            }
            e += 1;
        }
        proof {
            assert(entries.take(e as int) =~= entries);
        }
        let super_root = self.calc_super_root().slot;
        self.subcom.freeze(super_root);
        self.frozen = true;
    }
}


impl Block {
    /// Whether every entry names a validator and every vote a slot of `fork`.
    pub fn fits(&self, fork: &HashSet<Slot>) -> (b: bool)
        ensures
            b == self@.fits(fork@),
    {
        broadcast use vstd::std_specs::hash::group_hash_axioms;

        let ghost entries = self@.votes;
        let mut e: usize = 0;
        while e < self.votes.len()
            invariant
                e <= self.votes.len(),
                entries == self@.votes,
                forall|i: int| 0 <= i < e ==> (#[trigger] entries[i]).0 < NUM_NODES,
                forall|i: int, k: int|
                    0 <= i < e && 0 <= k < entries[i].1.len() ==> fork@.contains(
                        (#[trigger] entries[i].1[k]).slot,
                    ),
            decreases self.votes.len() - e,
        {
            let id = self.votes[e].0;
            let cast = &self.votes[e].1;
            assert(entries[e as int] == (id, cast@));
            if id >= NUM_NODES {
                assert(!(entries[e as int].0 < NUM_NODES));
                return false;
            }
            let mut k: usize = 0;
            while k < cast.len()
                invariant
                    k <= cast.len(),
                    entries == self@.votes,
                    entries[e as int] == (id, cast@),
                    e < entries.len(),
                    forall|j: int| 0 <= j < k ==> fork@.contains((#[trigger] cast@[j]).slot),
                decreases cast.len() - k,
            {
                if !fork.contains(&cast[k].slot) {
                    assert(!fork@.contains(entries[e as int].1[k as int].slot));
                    return false;
                }
                k += 1;
            }
            e += 1;
        }
        true
    }
}

impl Bank {
    /// Whether the bank holds one well-formed tower for each validator.
    pub fn is_well_formed(&self) -> (b: bool)
        ensures
            b == self@.wf(),
    {
        if self.nodes.len() != NUM_NODES {
            return false;
        }
        let mut i: usize = 0;
        while i < self.nodes.len()
            invariant
                i <= self.nodes.len(),
                forall|k: int| 0 <= k < i ==> (#[trigger] self@.nodes[k]).wf(),
            decreases self.nodes.len() - i,
        {
            if !self.nodes[i].is_well_formed() {
                assert(!self@.nodes[i as int].wf());
                return false;
            }
            i += 1;
        }
        true
    }
}

} // verus!
