//! The weight of a fork: how many validators cast their latest vote on it.

use crate::bank::merged_latest;
use crate::bank::BankView;
use crate::bank::ID;
use crate::bank::NUM_NODES;
use crate::count::count_where;
use crate::count::lemma_count_agree;
use crate::count::lemma_count_bound;
use crate::count::lemma_count_disjoint;
use crate::forest::descends_from;
use crate::forest::fork_of;
use crate::forest::is_forest;
use crate::forest::is_rooted;
use crate::forest::lemma_fork_shape;
use crate::forest::lemma_parent_descends;
use crate::forest::lemma_reaches_root;
use crate::tower::Slot;
use vstd::prelude::*;

verus! {

/// `x` is the latest slot that validator `i` voted for in any bank of `m`:
/// some bank shows it, and no bank shows a later one.
pub open spec fn is_latest(m: Map<Slot, BankView>, i: int, x: Slot) -> bool {
    &&& exists|s: Slot| m.contains_key(s) && (#[trigger] m[s]).nodes[i].latest_slot() == x
    &&& forall|s: Slot| m.contains_key(s) ==> (#[trigger] m[s]).nodes[i].latest_slot() <= x
}

/// The latest slot that validator `i` voted for in any bank of `m`.
pub open spec fn latest_of(m: Map<Slot, BankView>, i: int) -> Slot {
    choose|x: Slot| is_latest(m, i, x)
}

/// The latest vote of every validator, by validator.
pub open spec fn latest_votes(m: Map<Slot, BankView>) -> Seq<Slot> {
    Seq::new(NUM_NODES as nat, |i: int| latest_of(m, i))
}

/// The test whether a slot is `s`.
pub open spec fn is_slot(s: Slot) -> spec_fn(Slot) -> bool {
    |x: Slot| x == s
}

/// The test whether a slot lies on the fork of `s`, at `root` or after it.
pub open spec fn is_on_fork_from(m: Map<Slot, BankView>, root: Slot, s: Slot) -> spec_fn(
    Slot,
) -> bool {
    |x: Slot| on_fork_from(m, root, s, x)
}

/// Number of validators whose latest vote is for `s`.
pub open spec fn votes_at(latest: Seq<Slot>, s: Slot) -> nat {
    count_where(latest, is_slot(s))
}

/// `x` lies on the fork of `s`, at `root` or after it.
pub open spec fn on_fork_from(m: Map<Slot, BankView>, root: Slot, s: Slot, x: Slot) -> bool {
    x >= root && fork_of(m, s).contains(x)
}

/// The weight of the fork of `s`: the number of validators whose latest vote
/// lies on it, at `root` or after it.
pub open spec fn weight(m: Map<Slot, BankView>, root: Slot, s: Slot) -> nat {
    count_where(latest_votes(m), is_on_fork_from(m, root, s))
}

/// The weight of every bank that descends from `root`.
pub open spec fn weights_of(m: Map<Slot, BankView>, root: Slot) -> Map<Slot, usize> {
    Map::new(
        |s: Slot| m.contains_key(s) && descends_from(m, root, s),
        |s: Slot| weight(m, root, s) as usize,
    )
}

/// There is one latest slot.
pub proof fn lemma_latest_unique(m: Map<Slot, BankView>, i: int, x: Slot)
    requires
        is_latest(m, i, x),
    ensures
        latest_of(m, i) == x,
{
    let y = latest_of(m, i);
    assert(is_latest(m, i, y));
    let s = choose|s: Slot| m.contains_key(s) && (#[trigger] m[s]).nodes[i].latest_slot() == x;
    let t = choose|t: Slot| m.contains_key(t) && (#[trigger] m[t]).nodes[i].latest_slot() == y;
    assert(m[s].nodes[i].latest_slot() <= y);
    assert(m[t].nodes[i].latest_slot() <= x);
}

/// No weight exceeds the number of validators.
pub proof fn lemma_weight_bound(m: Map<Slot, BankView>, root: Slot, s: Slot)
    ensures
        weight(m, root, s) <= NUM_NODES,
        votes_at(latest_votes(m), s) <= NUM_NODES,
{
    lemma_count_bound(latest_votes(m), is_on_fork_from(m, root, s));
    lemma_count_bound(latest_votes(m), is_slot(s));
}

/// The weight of the root is the number of latest votes for it.
pub proof fn lemma_weight_root(m: Map<Slot, BankView>, root: Slot)
    ensures
        weight(m, root, root) == votes_at(latest_votes(m), root),
{
    lemma_fork_shape(m, root);
    let f = fork_of(m, root);
    let latest = latest_votes(m);
    assert forall|i: int| 0 <= i < latest.len() implies on_fork_from(
        m,
        root,
        root,
        #[trigger] latest[i],
    ) == (latest[i] == root) by {
        let x = latest[i];
        if f.contains(x) && x >= root {
            let k = choose|k: int| 0 <= k < f.len() && f[k] == x;
            assert(f[k] <= root);
        }
        if x == root {
            assert(f[0] == x);
        }
    }
    lemma_count_agree(latest, is_on_fork_from(m, root, root), is_slot(root));
}

/// The weight of a bank below the root is the weight of its parent and the
/// number of latest votes for the bank itself.
pub proof fn lemma_weight_step(m: Map<Slot, BankView>, root: Slot, s: Slot)
    requires
        is_forest(m),
        is_rooted(m, root),
        m.contains_key(s),
        s != root,
    ensures
        m.contains_key(m[s].parent),
        weight(m, root, s) == weight(m, root, m[s].parent) + votes_at(latest_votes(m), s),
{
    lemma_reaches_root(m, root, s);
    lemma_parent_descends(m, root, root, s);
    let p = m[s].parent;
    let f = fork_of(m, s);
    let g = fork_of(m, p);
    lemma_fork_shape(m, p);
    let latest = latest_votes(m);
    assert forall|i: int| 0 <= i < latest.len() implies !(on_fork_from(
        m,
        root,
        p,
        #[trigger] latest[i],
    ) && latest[i] == s) && on_fork_from(m, root, s, latest[i]) == (on_fork_from(
        m,
        root,
        p,
        latest[i],
    ) || latest[i] == s) by {
        let x = latest[i];
        if g.contains(x) {
            let k = choose|k: int| 0 <= k < g.len() && g[k] == x;
            assert(g[k] <= p);
            assert(f[k + 1] == x);
        }
        if f.contains(x) {
            let k = choose|k: int| 0 <= k < f.len() && f[k] == x;
            if k > 0 {
                assert(g[k - 1] == x);
            }
        }
        if x == s {
            assert(f[0] == x);
        }
    }
    lemma_count_disjoint(
        latest,
        is_on_fork_from(m, root, p),
        is_slot(s),
        is_on_fork_from(m, root, s),
    );
}


/// `latest` holds, for every validator, the latest slot shown by the banks
/// at the first `j` of `keys`; with no bank seen it is empty.
pub open spec fn is_latest_among(
    m: Map<Slot, BankView>,
    keys: Seq<Slot>,
    j: int,
    latest: Map<ID, Slot>,
) -> bool {
    &&& forall|id: ID| #[trigger] latest.contains_key(id) ==> id < NUM_NODES
    &&& j == 0 ==> latest == Map::<ID, Slot>::empty()
    &&& j > 0 ==> forall|id: ID|
        id < NUM_NODES ==> #[trigger] latest.contains_key(id) && (exists|k: int|
            0 <= k < j && m[#[trigger] keys[k]].nodes[id as int].latest_slot() == latest[id])
            && forall|k: int|
            0 <= k < j ==> m[#[trigger] keys[k]].nodes[id as int].latest_slot() <= latest[id]
}

/// Merging one more bank keeps `latest` the latest among the banks seen.
pub proof fn lemma_latest_step(
    m: Map<Slot, BankView>,
    keys: Seq<Slot>,
    j: int,
    latest: Map<ID, Slot>,
)
    requires
        0 <= j < keys.len(),
        m.contains_key(keys[j]),
        m[keys[j]].nodes.len() == NUM_NODES,
        is_latest_among(m, keys, j, latest),
    ensures
        is_latest_among(m, keys, j + 1, merged_latest(latest, m[keys[j]].nodes)),
{
    let nodes = m[keys[j]].nodes;
    let next = merged_latest(latest, nodes);
    assert forall|id: ID| id < NUM_NODES implies #[trigger] next.contains_key(id) && (exists|k: int|
        0 <= k < j + 1 && m[#[trigger] keys[k]].nodes[id as int].latest_slot() == next[id])
        && forall|k: int|
        0 <= k < j + 1 ==> m[#[trigger] keys[k]].nodes[id as int].latest_slot() <= next[id] by {
        if j > 0 {
            assert(latest.contains_key(id));
            let k0 = choose|k: int|
                0 <= k < j && m[#[trigger] keys[k]].nodes[id as int].latest_slot() == latest[id];
            if next[id] == latest[id] {
                assert(m[keys[k0]].nodes[id as int].latest_slot() == next[id]);
            } else {
                assert(m[keys[j]].nodes[id as int].latest_slot() == next[id]);
            }
        } else {
            assert(!latest.contains_key(id));
            assert(m[keys[j]].nodes[id as int].latest_slot() == next[id]);
        }
    }
}

/// Once every bank has been merged, `latest` holds the latest vote of validator `id`.
pub proof fn lemma_latest_done(
    m: Map<Slot, BankView>,
    keys: Seq<Slot>,
    latest: Map<ID, Slot>,
    id: ID,
)
    requires
        keys.to_set() == m.dom(),
        keys.len() > 0,
        is_latest_among(m, keys, keys.len() as int, latest),
        id < NUM_NODES,
    ensures
        latest.contains_key(id),
        latest[id] == latest_votes(m)[id as int],
{
    let i = id as int;
    let x = latest[id];
    assert(latest.contains_key(id));
    let k0 = choose|k: int|
        0 <= k < keys.len() && m[#[trigger] keys[k]].nodes[id as int].latest_slot() == latest[id];
    assert(keys.contains(keys[k0]));
    assert(keys.to_set().contains(keys[k0]));
    assert(m.contains_key(keys[k0]));
    assert forall|s: Slot| m.contains_key(s) implies (#[trigger] m[s]).nodes[i].latest_slot()
        <= x by {
        assert(keys.to_set().contains(s));
        let k = choose|k: int| 0 <= k < keys.len() && keys[k] == s;
        assert(m[keys[k]].nodes[i].latest_slot() <= x);
    }
    lemma_latest_unique(m, i, x);
    assert(latest_votes(m)[i] == latest_of(m, i));
}

/// The count that `tally` holds for `s`; none where it has no entry.
pub open spec fn tally_of(tally: Map<Slot, usize>, s: Slot) -> nat {
    if tally.contains_key(s) {
        tally[s] as nat
    } else {
        0
    }
}

/// Counting one more validator raises the count of its slot by one.
pub proof fn lemma_votes_at_step(latest: Seq<Slot>, i: int, s: Slot)
    requires
        0 <= i < latest.len(),
    ensures
        votes_at(latest.take(i + 1), s) == votes_at(latest.take(i), s) + if latest[i] == s {
            1nat
        } else {
            0nat
        },
        votes_at(latest.take(i), s) <= i,
        votes_at(latest.take(0), s) == 0,
{
    assert(latest.take(i + 1).drop_last() =~= latest.take(i));
    assert(latest.take(i + 1).last() == latest[i]);
    lemma_count_bound(latest.take(i), is_slot(s));
}

} // verus!
