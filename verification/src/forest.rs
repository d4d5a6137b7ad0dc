//! The block tree as a map from slot to bank: forks, descendants, and the
//! shape that the fork store keeps.

use crate::bank::apply_entries;
use crate::bank::lemma_apply_entries;
use crate::bank::lemma_offer_all;
use crate::bank::offer_all;
use crate::bank::BankView;
use crate::bank::ID;
use crate::tower::lemma_voted;
use crate::tower::Vote;
use crate::bank::NUM_NODES;
use crate::tower::Slot;
use crate::tower::TowerView;
use vstd::prelude::*;

verus! {

/// The fork of `slot`: the slot, then its parent, and so on, while the slot
/// at hand has a bank in `m` whose parent is an earlier slot. The last slot
/// is the genesis, or one that has no bank in `m`.
pub open spec fn fork_of(m: Map<Slot, BankView>, slot: Slot) -> Seq<Slot>
    decreases slot,
{
    if m.contains_key(slot) && m[slot].parent < slot {
        seq![slot] + fork_of(m, m[slot].parent)
    } else {
        seq![slot]
    }
}

/// The bank `b` can stand at slot `s` of a forest: it is well-formed and
/// frozen, it is later than its parent unless it is the genesis, its children
/// are later than itself and listed once each, and its count of
/// supermajority roots does not exceed its slot.
pub open spec fn is_bank_at(b: BankView, s: Slot) -> bool {
    &&& b.slot == s
    &&& b.wf()
    &&& b.frozen
    &&& (b.parent < s || (s == 0 && b.parent == 0))
    &&& b.subcom.num_super_roots <= s
    &&& b.children.no_duplicates()
    &&& forall|j: int| 0 <= j < b.children.len() ==> #[trigger] b.children[j] > s
}

/// `c` is listed as a child of the bank at `s`.
pub open spec fn has_child(m: Map<Slot, BankView>, s: Slot, c: Slot) -> bool {
    m.contains_key(s) && m[s].children.contains(c)
}

/// A forest: finitely many banks, each fit to stand at its slot, and every
/// listed child present with the listing bank as its parent.
pub open spec fn is_forest(m: Map<Slot, BankView>) -> bool {
    &&& m.dom().finite()
    &&& forall|s: Slot| #[trigger] m.contains_key(s) ==> is_bank_at(m[s], s)
    &&& forall|s: Slot, c: Slot| #[trigger]
        has_child(m, s, c) ==> m.contains_key(c) && m[c].parent == s
}

/// The forest is a single tree below `root`: every other bank is later than
/// `root` and is listed by its parent.
pub open spec fn is_rooted(m: Map<Slot, BankView>, root: Slot) -> bool {
    &&& m.contains_key(root)
    &&& forall|s: Slot| #[trigger]
        m.contains_key(s) && s != root ==> s > root && has_child(m, m[s].parent, s)
}

/// The tower holds `x` as the slot of its root or of a vote on its stack.
pub open spec fn holds_slot(t: TowerView, x: Slot) -> bool {
    t.root.slot == x || exists|j: int| 0 <= j < t.votes.len() && (#[trigger] t.votes[j]).slot == x
}

/// Every slot that a tower of `b` holds is below `root` or on `fork`.
pub open spec fn bank_on_fork(b: BankView, fork: Seq<Slot>, root: Slot) -> bool {
    forall|i: int, x: Slot|
        0 <= i < b.nodes.len() && #[trigger] holds_slot(b.nodes[i], x) ==> x < root
            || fork.contains(x)
}

/// Every bank's towers hold only slots of the bank's own fork, or slots below `root`.
pub open spec fn towers_on_forks(m: Map<Slot, BankView>, root: Slot) -> bool {
    forall|s: Slot| #[trigger] m.contains_key(s) ==> bank_on_fork(m[s], fork_of(m, s), root)
}

/// `s` is `root` or descends from it.
pub open spec fn descends_from(m: Map<Slot, BankView>, root: Slot, s: Slot) -> bool {
    fork_of(m, s).contains(root)
}

/// A fork starts at its slot and falls strictly; all of its slots but the last
/// have a bank, and each is followed by its bank's parent.
pub proof fn lemma_fork_shape(m: Map<Slot, BankView>, slot: Slot)
    ensures
        fork_of(m, slot).len() >= 1,
        fork_of(m, slot)[0] == slot,
        forall|i: int| 0 <= i < fork_of(m, slot).len() ==> #[trigger] fork_of(m, slot)[i] <= slot,
        forall|i: int, j: int|
            0 <= i < j < fork_of(m, slot).len() ==> #[trigger] fork_of(m, slot)[i]
                > #[trigger] fork_of(m, slot)[j],
        forall|i: int|
            0 <= i < fork_of(m, slot).len() - 1 ==> m.contains_key(#[trigger] fork_of(m, slot)[i])
                && m[fork_of(m, slot)[i]].parent == fork_of(m, slot)[i + 1],
        !(m.contains_key(fork_of(m, slot).last()) && m[fork_of(m, slot).last()].parent
            < fork_of(m, slot).last()),
    decreases slot,
{
    let f = fork_of(m, slot);
    if m.contains_key(slot) && m[slot].parent < slot {
        let p = m[slot].parent;
        lemma_fork_shape(m, p);
        let g = fork_of(m, p);
        assert(f == seq![slot] + g);
        assert forall|i: int| 0 <= i < f.len() implies #[trigger] f[i] <= slot by {
            if i > 0 {
                assert(f[i] == g[i - 1]);
            }
        }
        assert forall|i: int, j: int| 0 <= i < j < f.len() implies #[trigger] f[i] > #[trigger] f[j] by {
            assert(f[j] == g[j - 1]);
            if i > 0 {
                assert(f[i] == g[i - 1]);
            }
        }
        assert forall|i: int| 0 <= i < f.len() - 1 implies m.contains_key(#[trigger] f[i])
            && m[f[i]].parent == f[i + 1] by {
            assert(f[i + 1] == g[i]);
            if i > 0 {
                assert(f[i] == g[i - 1]);
            }
        }
        assert(f.last() == g.last());
    }
}

/// Two maps that agree, on every slot of a fork, on whether it has a bank and
/// on that bank's parent, give the same fork.
pub proof fn lemma_fork_agree(m1: Map<Slot, BankView>, m2: Map<Slot, BankView>, slot: Slot)
    requires
        forall|x: Slot| #[trigger]
            fork_of(m1, slot).contains(x) ==> (m1.contains_key(x) == m2.contains_key(x)) && (
            m1.contains_key(x) ==> m1[x].parent == m2[x].parent),
    ensures
        fork_of(m1, slot) == fork_of(m2, slot),
    decreases slot,
{
    let f = fork_of(m1, slot);
    assert(f[0] == slot);
    assert(f.contains(slot));
    if m1.contains_key(slot) && m1[slot].parent < slot {
        let p = m1[slot].parent;
        let g = fork_of(m1, p);
        assert forall|x: Slot| #[trigger] g.contains(x) implies (m1.contains_key(x)
            == m2.contains_key(x)) && (m1.contains_key(x) ==> m1[x].parent == m2[x].parent) by {
            let k = choose|k: int| 0 <= k < g.len() && g[k] == x;
            assert(f[k + 1] == x);
            assert(f.contains(x));
        }
        lemma_fork_agree(m1, m2, p);
    }
}


/// In a tree below `root`, the fork of every bank reaches `root`, and every
/// slot of the fork from `root` up has a bank.
pub proof fn lemma_reaches_root(m: Map<Slot, BankView>, root: Slot, s: Slot)
    requires
        is_forest(m),
        is_rooted(m, root),
        m.contains_key(s),
    ensures
        descends_from(m, root, s),
        s >= root,
        forall|x: Slot| #[trigger] fork_of(m, s).contains(x) && x >= root ==> m.contains_key(x),
    decreases s,
{
    let f = fork_of(m, s);
    lemma_fork_shape(m, s);
    assert(is_bank_at(m[s], s));
    if s == root {
        assert(f[0] == root);
        assert forall|x: Slot| #[trigger] f.contains(x) && x >= root implies m.contains_key(x) by {
            let k = choose|k: int| 0 <= k < f.len() && f[k] == x;
            if k > 0 {
                assert(f[0] > f[k]);
            }
        }
    } else {
        let p = m[s].parent;
        assert(has_child(m, p, s));
        lemma_reaches_root(m, root, p);
        let g = fork_of(m, p);
        assert(f == seq![s] + g);
        let k = choose|k: int| 0 <= k < g.len() && g[k] == root;
        assert(f[k + 1] == root);
        assert forall|x: Slot| #[trigger] f.contains(x) && x >= root implies m.contains_key(x) by {
            let j = choose|j: int| 0 <= j < f.len() && f[j] == x;
            if j > 0 {
                assert(g[j - 1] == x);
                assert(g.contains(x));
            }
        }
    }
}

/// A listed child descends from whatever its parent descends from.
pub proof fn lemma_child_descends(m: Map<Slot, BankView>, root: Slot, s: Slot, c: Slot)
    requires
        is_forest(m),
        has_child(m, s, c),
        descends_from(m, root, s),
    ensures
        m.contains_key(c),
        c > s,
        fork_of(m, c) == seq![c] + fork_of(m, s),
        descends_from(m, root, c),
{
    assert(is_bank_at(m[s], s));
    let j = choose|j: int| 0 <= j < m[s].children.len() && m[s].children[j] == c;
    assert(m[s].children[j] > s);
    let g = fork_of(m, s);
    let f = fork_of(m, c);
    let k = choose|k: int| 0 <= k < g.len() && g[k] == root;
    assert(f[k + 1] == root);
}

/// A bank that descends from `root` and is not `root` has a parent that does.
pub proof fn lemma_parent_descends(m: Map<Slot, BankView>, base: Slot, root: Slot, s: Slot)
    requires
        is_forest(m),
        is_rooted(m, base),
        m.contains_key(root),
        m.contains_key(s),
        descends_from(m, root, s),
        s != root,
    ensures
        s > root,
        m[s].parent < s,
        has_child(m, m[s].parent, s),
        descends_from(m, root, m[s].parent),
        fork_of(m, s) == seq![s] + fork_of(m, m[s].parent),
{
    let f = fork_of(m, s);
    lemma_fork_shape(m, s);
    let k = choose|k: int| 0 <= k < f.len() && f[k] == root;
    assert(k > 0);
    assert(f[0] > f[k]);
    let p = m[s].parent;
    assert(f == seq![s] + fork_of(m, p));
    assert(fork_of(m, p)[k - 1] == root);
    lemma_reaches_root(m, base, root);
    assert(s != base);
}

/// A set that holds `root` and, with every bank, the children it lists,
/// holds every bank that descends from `root`.
pub proof fn lemma_closed_under_children(
    m: Map<Slot, BankView>,
    base: Slot,
    root: Slot,
    held: Set<Slot>,
    s: Slot,
)
    requires
        is_forest(m),
        is_rooted(m, base),
        m.contains_key(root),
        held.contains(root),
        forall|v: Slot, c: Slot|
            held.contains(v) && #[trigger] has_child(m, v, c) ==> held.contains(c),
        m.contains_key(s),
        descends_from(m, root, s),
    ensures
        held.contains(s),
    decreases s,
{
    if s != root {
        lemma_parent_descends(m, base, root, s);
        lemma_closed_under_children(m, base, root, held, m[s].parent);
    }
}


/// A walk of the tree below `root`: every bank that descends from `root`,
/// once, `root` first and every other bank after its parent.
pub open spec fn is_walk(m: Map<Slot, BankView>, root: Slot, out: Seq<Slot>) -> bool {
    &&& out.no_duplicates()
    &&& out.len() > 0
    &&& out[0] == root
    &&& forall|s: Slot| #[trigger]
        out.contains(s) <==> m.contains_key(s) && descends_from(m, root, s)
    &&& forall|j: int|
        1 <= j < out.len() ==> exists|k: int| 0 <= k < j && out[k] == m[#[trigger] out[j]].parent
}

/// What holds while the tree below `root` is walked: `out` lists the banks
/// visited, `stack` those found and not yet visited, and of the bank visited
/// last the children from position `pending` on are still to be put on the stack.
pub open spec fn is_walking(
    m: Map<Slot, BankView>,
    root: Slot,
    out: Seq<Slot>,
    stack: Seq<Slot>,
    pending: int,
) -> bool {
    &&& (out + stack).no_duplicates()
    &&& forall|i: int|
        0 <= i < (out + stack).len() ==> m.contains_key(#[trigger] (out + stack)[i])
            && descends_from(m, root, (out + stack)[i])
    &&& if out.len() == 0 {
        stack == seq![root]
    } else {
        out[0] == root
    }
    &&& forall|j: int|
        1 <= j < out.len() ==> exists|k: int| 0 <= k < j && out[k] == m[#[trigger] out[j]].parent
    &&& forall|i: int|
        0 <= i < stack.len() && out.len() > 0 ==> out.contains(m[#[trigger] stack[i]].parent)
    &&& forall|v: Slot, c: Slot|
        out.contains(v) && #[trigger] has_child(m, v, c) ==> (out + stack).contains(c) || (v
            == out.last() && exists|j: int|
            pending <= j < m[v].children.len() && #[trigger] m[v].children[j] == c)
}

/// Visiting the bank on top of the stack keeps the walk in order.
pub proof fn lemma_walk_visit(m: Map<Slot, BankView>, root: Slot, out: Seq<Slot>, stack: Seq<Slot>)
    requires
        is_forest(m),
        stack.len() > 0,
        is_walking(
            m,
            root,
            out,
            stack,
            if out.len() > 0 {
                m[out.last()].children.len() as int
            } else {
                0
            },
        ),
    ensures
        is_walking(m, root, out.push(stack.last()), stack.drop_last(), 0),
        out.len() < m.dom().len(),
        m.contains_key(stack.last()),
        forall|i: int|
            0 <= i < stack.len() - 1 ==> out.push(stack.last()).contains(
                m[#[trigger] stack[i]].parent,
            ) && m[stack[i]].parent != stack.last(),
{
    let slot = stack.last();
    let out2 = out.push(slot);
    let stack2 = stack.drop_last();
    let a = out + stack;
    let b = out2 + stack2;
    let n = out.len() as int;
    let total = a.len() as int;
    assert(a[total - 1] == slot);
    // the same slots, the visited one moved
    assert forall|i: int| 0 <= i < b.len() implies (#[trigger] b[i]) == a[if i < n {
        i
    } else if i == n {
        total - 1
    } else {
        i - 1
    }] by {}
    assert forall|i: int, j: int| 0 <= i < j < b.len() implies b[i] != b[j] by {
        let ii = if i < n {
            i
        } else if i == n {
            total - 1
        } else {
            i - 1
        };
        let jj = if j < n {
            j
        } else if j == n {
            total - 1
        } else {
            j - 1
        };
        assert(b[i] == a[ii] && b[j] == a[jj]);
        assert(ii != jj);
    }
    assert forall|i: int| 0 <= i < b.len() implies m.contains_key(#[trigger] b[i])
        && descends_from(m, root, b[i]) by {
        let ii = if i < n {
            i
        } else if i == n {
            total - 1
        } else {
            i - 1
        };
        assert(b[i] == a[ii]);
    }
    assert forall|x: Slot| a.contains(x) implies b.contains(x) by {
        let i = choose|i: int| 0 <= i < a.len() && a[i] == x;
        if i < n {
            assert(b[i] == x);
        } else if i == total - 1 {
            assert(b[n] == x);
        } else {
            assert(b[i + 1] == x);
        }
    }
    assert forall|j: int| 1 <= j < out2.len() implies exists|k: int|
        0 <= k < j && out2[k] == m[#[trigger] out2[j]].parent by {
        if j < n {
            let k = choose|k: int| 0 <= k < j && out[k] == m[out[j]].parent;
            assert(out2[k] == m[out2[j]].parent);
        } else {
            assert(out.contains(m[stack[stack.len() - 1]].parent));
            let k = choose|k: int| 0 <= k < out.len() && out[k] == m[slot].parent;
            assert(out2[k] == m[out2[j]].parent);
        }
    }
    assert forall|i: int| 0 <= i < stack2.len() && out2.len() > 0 implies out2.contains(
        m[#[trigger] stack2[i]].parent,
    ) by {
        assert(stack2[i] == stack[i]);
        if out.len() > 0 {
            let k = choose|k: int| 0 <= k < out.len() && out[k] == m[stack[i]].parent;
            assert(out2[k] == m[stack2[i]].parent);
        }
    }
    assert forall|v: Slot, c: Slot| out2.contains(v) && #[trigger] has_child(m, v, c) implies (
    b.contains(c) || (v == out2.last() && exists|j: int|
        0 <= j < m[v].children.len() && #[trigger] m[v].children[j] == c)) by {
        if v == slot {
            let j = choose|j: int| 0 <= j < m[v].children.len() && m[v].children[j] == c;
            assert(m[v].children[j] == c);
        } else {
            let i = choose|i: int| 0 <= i < out2.len() && out2[i] == v;
            assert(out[i] == v);
            assert(out.contains(v));
            assert(a.contains(c));
        }
    }
    if out.len() == 0 {
        assert(stack2 =~= Seq::<Slot>::empty());
        assert(out2[0] == root);
    } else {
        assert(out2[0] == root);
    }
    assert forall|i: int| 0 <= i < stack.len() - 1 implies out2.contains(
        m[#[trigger] stack[i]].parent,
    ) && m[stack[i]].parent != slot by {
        assert(stack2[i] == stack[i]);
        assert(out2.contains(m[stack2[i]].parent));
        assert(out.len() > 0);
        let k = choose|k: int| 0 <= k < out.len() && out[k] == m[stack[i]].parent;
        assert(a[k] == out[k]);
    }
    // fewer banks visited than there are
    a.unique_seq_to_set();
    assert(a.to_set().subset_of(m.dom())) by {
        assert forall|x: Slot| a.to_set().contains(x) implies m.dom().contains(x) by {
            let i = choose|i: int| 0 <= i < a.len() && a[i] == x;
            assert(m.contains_key(a[i]));
        }
    }
    vstd::set_lib::lemma_len_subset(a.to_set(), m.dom());
}

/// Putting the next child of the bank visited last on the stack keeps the walk in order.
pub proof fn lemma_walk_push(
    m: Map<Slot, BankView>,
    root: Slot,
    out: Seq<Slot>,
    stack: Seq<Slot>,
    pending: int,
)
    requires
        is_forest(m),
        out.len() > 0,
        0 <= pending < m[out.last()].children.len(),
        is_walking(m, root, out, stack, pending),
        forall|i: int, j: int|
            0 <= i < stack.len() && pending <= j < m[out.last()].children.len() ==> (
            #[trigger] stack[i]) != (#[trigger] m[out.last()].children[j]) || out.contains(
                m[stack[i]].parent,
            ) && m[stack[i]].parent != out.last(),
    ensures
        is_walking(m, root, out, stack.push(m[out.last()].children[pending]), pending + 1),
{
    let v = out.last();
    let c = m[v].children[pending];
    let stack2 = stack.push(c);
    let a = out + stack;
    let b = out + stack2;
    assert(b =~= a.push(c));
    assert(a[out.len() - 1] == v);
    assert(m.contains_key(v) && descends_from(m, root, v));
    assert(m[v].children.contains(c));
    assert(has_child(m, v, c));
    lemma_child_descends(m, root, v, c);
    lemma_fork_shape(m, v);
    assert(root <= v) by {
        let k = choose|k: int| 0 <= k < fork_of(m, v).len() && fork_of(m, v)[k] == root;
        assert(fork_of(m, v)[k] <= v);
    }
    // the child is new
    assert forall|i: int| 0 <= i < a.len() implies a[i] != c by {
        if a[i] == c {
            if i < out.len() {
                assert(out[i] == c);
                assert(i >= 1);
                let k = choose|k: int| 0 <= k < i && out[k] == m[out[i]].parent;
                assert(out[k] == v);
                assert(a[k] == v && a[out.len() - 1] == v);
            } else {
                let si = i - out.len();
                assert(stack[si] == c);
                assert(stack[si] == m[out.last()].children[pending]);
                assert(out.contains(m[stack[si]].parent) && m[stack[si]].parent != out.last());
            }
        }
    }
    assert forall|i: int, j: int| 0 <= i < j < b.len() implies b[i] != b[j] by {
        if j == a.len() {
            assert(b[i] == a[i]);
        } else {
            assert(b[i] == a[i] && b[j] == a[j]);
        }
    }
    assert forall|i: int| 0 <= i < b.len() implies m.contains_key(#[trigger] b[i])
        && descends_from(m, root, b[i]) by {
        if i < a.len() {
            assert(b[i] == a[i]);
        }
    }
    assert forall|i: int| 0 <= i < stack2.len() && out.len() > 0 implies out.contains(
        m[#[trigger] stack2[i]].parent,
    ) by {
        if i < stack.len() {
            assert(stack2[i] == stack[i]);
        } else {
            assert(out[out.len() - 1] == v);
        }
    }
    assert forall|w: Slot, d: Slot| out.contains(w) && #[trigger] has_child(m, w, d) implies (
    b.contains(d) || (w == out.last() && exists|j: int|
        pending + 1 <= j < m[w].children.len() && #[trigger] m[w].children[j] == d)) by {
        if a.contains(d) {
            let i = choose|i: int| 0 <= i < a.len() && a[i] == d;
            assert(b[i] == d);
        } else {
            let j = choose|j: int| pending <= j < m[w].children.len() && m[w].children[j] == d;
            if j == pending {
                assert(b[a.len() as int] == d);
            } else {
                assert(m[w].children[j] == d);
            }
        }
    }
}

/// A walk that has nothing left on the stack has listed the tree below `root`.
pub proof fn lemma_walk_done(m: Map<Slot, BankView>, base: Slot, root: Slot, out: Seq<Slot>)
    requires
        is_forest(m),
        is_rooted(m, base),
        m.contains_key(root),
        out.len() > 0,
        is_walking(m, root, out, Seq::empty(), m[out.last()].children.len() as int),
    ensures
        is_walk(m, root, out),
{
    let a = out + Seq::<Slot>::empty();
    assert(a =~= out);
    let held = out.to_set();
    assert(out[0] == root);
    assert(held.contains(root));
    assert forall|v: Slot, c: Slot| held.contains(v) && #[trigger] has_child(m, v, c) implies held.contains(
        c,
    ) by {
        assert(out.contains(v));
        assert(a.contains(c));
    }
    assert forall|s: Slot| #[trigger] out.contains(s) <==> m.contains_key(s) && descends_from(
        m,
        root,
        s,
    ) by {
        if out.contains(s) {
            let i = choose|i: int| 0 <= i < out.len() && out[i] == s;
            assert(a[i] == s);
        }
        if m.contains_key(s) && descends_from(m, root, s) {
            lemma_closed_under_children(m, base, root, held, s);
        }
    }
}


/// The forest with only the banks that descend from `root`.
pub open spec fn pruned(m: Map<Slot, BankView>, root: Slot) -> Map<Slot, BankView> {
    m.restrict(Set::new(|s: Slot| descends_from(m, root, s)))
}


/// A tower that was offered a vote holds no slot but that of the vote and those it held.
pub proof fn lemma_offered_holds(t: TowerView, x: Slot, y: Slot)
    requires
        t.wf(),
        holds_slot(t.offered(x), y),
    ensures
        holds_slot(t, y) || y == x,
{
    if !t.already_voted(x) {
        lemma_voted(t, x);
        let after = t.voted(x);
        if after.root.slot == y {
            if t.commits(x) {
                let j = choose|j: int| 0 <= j < t.votes.len() && t.votes[j].slot == after.root.slot;
                assert(t.votes[j].slot == y);
            }
        } else {
            let i = choose|i: int| 0 <= i < after.votes.len() && (#[trigger] after.votes[i]).slot == y;
            if i >= 1 {
                let j = choose|j: int|
                    0 <= j < t.votes.len() && t.votes[j].slot == (#[trigger] after.votes[i]).slot;
                assert(t.votes[j].slot == y);
            }
        }
    }
}

/// A tower that was offered votes for slots of `among` holds no slot but those and those it held.
pub proof fn lemma_offer_all_holds(t: TowerView, votes: Seq<Vote>, among: Set<Slot>, y: Slot)
    requires
        t.wf(),
        forall|k: int| 0 <= k < votes.len() ==> among.contains((#[trigger] votes[k]).slot),
        holds_slot(offer_all(t, votes), y),
    ensures
        holds_slot(t, y) || among.contains(y),
    decreases votes.len(),
{
    if votes.len() > 0 {
        let front = votes.drop_last();
        let before = offer_all(t, front);
        lemma_offer_all(t, front);
        lemma_offered_holds(before, votes.last().slot, y);
        assert(among.contains(votes[votes.len() - 1].slot));
        if holds_slot(before, y) {
            assert forall|k: int| 0 <= k < front.len() implies among.contains(
                (#[trigger] front[k]).slot,
            ) by {
                assert(front[k] == votes[k]);
            }
            lemma_offer_all_holds(t, front, among, y);
        }
    }
}

/// Towers to which entries with votes for slots of `among` were applied hold
/// no slot but those and those they held.
pub proof fn lemma_apply_entries_holds(
    nodes: Seq<TowerView>,
    entries: Seq<(ID, Seq<Vote>)>,
    among: Set<Slot>,
    i: int,
    y: Slot,
)
    requires
        forall|k: int| 0 <= k < nodes.len() ==> (#[trigger] nodes[k]).wf(),
        forall|e: int| 0 <= e < entries.len() ==> (#[trigger] entries[e]).0 < nodes.len(),
        forall|e: int, k: int|
            0 <= e < entries.len() && 0 <= k < entries[e].1.len() ==> among.contains(
                (#[trigger] entries[e].1[k]).slot,
            ),
        0 <= i < nodes.len(),
        holds_slot(apply_entries(nodes, entries)[i], y),
    ensures
        holds_slot(nodes[i], y) || among.contains(y),
    decreases entries.len(),
{
    if entries.len() > 0 {
        let front = entries.drop_last();
        let last = entries.last();
        assert(last == entries[entries.len() - 1]);
        assert forall|e: int| 0 <= e < front.len() implies (#[trigger] front[e]).0
            < nodes.len() by {
            assert(front[e] == entries[e]);
        }
        assert forall|e: int, k: int|
            0 <= e < front.len() && 0 <= k < front[e].1.len() implies among.contains(
            (#[trigger] front[e].1[k]).slot,
        ) by {
            assert(front[e] == entries[e]);
            assert(among.contains(entries[e].1[k].slot));
        }
        lemma_apply_entries(nodes, front);
        let before = apply_entries(nodes, front);
        let id = last.0 as int;
        if i == id {
            assert forall|k: int| 0 <= k < last.1.len() implies among.contains(
                (#[trigger] last.1[k]).slot,
            ) by {
                assert(among.contains(entries[entries.len() - 1].1[k].slot));
            }
            lemma_offer_all_holds(before[id], last.1, among, y);
        }
        if holds_slot(before[i], y) {
            lemma_apply_entries_holds(nodes, front, among, i, y);
        }
    }
}


/// The forest after the bank at `p` got the child `bank` at slot `s`.
pub open spec fn grown(m: Map<Slot, BankView>, p: Slot, s: Slot, bank: BankView) -> Map<
    Slot,
    BankView,
> {
    m.insert(p, BankView { children: m[p].children.push(s), ..m[p] }).insert(s, bank)
}

/// A new bank below one of the tree keeps the tree: the forest stays a tree
/// below `root`, the forks of the banks it had stay, and the fork of the new
/// bank is its slot before the fork of its parent.
pub proof fn lemma_grown(m: Map<Slot, BankView>, root: Slot, p: Slot, s: Slot, bank: BankView)
    requires
        is_forest(m),
        is_rooted(m, root),
        towers_on_forks(m, root),
        m.contains_key(p),
        !m.contains_key(s),
        p < s,
        is_bank_at(bank, s),
        bank.parent == p,
        bank.children.len() == 0,
        bank_on_fork(bank, seq![s] + fork_of(m, p), root),
    ensures
        is_forest(grown(m, p, s, bank)),
        is_rooted(grown(m, p, s, bank), root),
        towers_on_forks(grown(m, p, s, bank), root),
        fork_of(grown(m, p, s, bank), s) == seq![s] + fork_of(m, p),
        forall|q: Slot| #[trigger]
            m.contains_key(q) ==> fork_of(grown(m, p, s, bank), q) == fork_of(m, q),
{
    let g = grown(m, p, s, bank);
    lemma_reaches_root(m, root, p);
    assert(is_bank_at(m[p], p));
    assert forall|q: Slot| #[trigger] m.contains_key(q) implies fork_of(g, q) == fork_of(m, q) by {
        lemma_reaches_root(m, root, q);
        assert forall|x: Slot| #[trigger] fork_of(m, q).contains(x) implies (m.contains_key(x)
            == g.contains_key(x)) && (m.contains_key(x) ==> m[x].parent == g[x].parent) by {
            if x == s {
                assert(fork_of(m, q).contains(x) && x >= root);
            }
        }
        lemma_fork_agree(m, g, q);
    }
    assert(fork_of(g, s) == seq![s] + fork_of(g, p));
    // the bank at `p` lists `s` once more, and nothing else changed
    assert forall|c: Slot| m[p].children.contains(c) implies m.contains_key(c) by {
        assert(has_child(m, p, c));
    }
    assert(g[p].children.no_duplicates()) by {
        let old_children = m[p].children;
        assert forall|i: int, j: int| 0 <= i < j < g[p].children.len() implies g[p].children[i]
            != g[p].children[j] by {
            if j == old_children.len() {
                assert(old_children.contains(old_children[i]));
            } else {
                assert(old_children[i] != old_children[j]);
            }
        }
    }
    assert forall|q: Slot| #[trigger] g.contains_key(q) implies is_bank_at(g[q], q) by {
        if q == s {
        } else if q == p {
            assert forall|j: int| 0 <= j < g[p].children.len() implies #[trigger] g[p].children[j]
                > p by {
                if j < m[p].children.len() {
                    assert(m[p].children[j] > p);
                }
            }
        } else {
            assert(m.contains_key(q));
            assert(is_bank_at(m[q], q));
        }
    }
    assert forall|v: Slot, c: Slot| #[trigger] has_child(g, v, c) implies g.contains_key(c)
        && g[c].parent == v by {
        if v == s {
            let j = choose|j: int| 0 <= j < bank.children.len() && bank.children[j] == c;
        } else if v == p {
            let j = choose|j: int| 0 <= j < g[p].children.len() && g[p].children[j] == c;
            if j < m[p].children.len() {
                assert(m[p].children[j] == c);
                assert(has_child(m, p, c));
            }
        } else {
            assert(has_child(m, v, c));
        }
    }
    assert forall|q: Slot| #[trigger] g.contains_key(q) && q != root implies q > root && has_child(
        g,
        g[q].parent,
        q,
    ) by {
        if q == s {
            assert(g[p].children[m[p].children.len() as int] == s);
        } else {
            assert(m.contains_key(q));
            let v = m[q].parent;
            assert(has_child(m, v, q));
            let j = choose|j: int| 0 <= j < m[v].children.len() && m[v].children[j] == q;
            if v == p {
                assert(g[p].children[j] == q);
            } else {
                assert(g[v].children[j] == q);
            }
        }
    }
    assert forall|q: Slot| #[trigger] g.contains_key(q) implies bank_on_fork(
        g[q],
        fork_of(g, q),
        root,
    ) by {
        if q != s {
            assert(m.contains_key(q));
            assert(bank_on_fork(m[q], fork_of(m, q), root));
            assert(g[q].nodes == m[q].nodes);
        }
    }
}

/// A lowest root that moved up stands on the fork of the bank that shows it, and has a bank.
pub proof fn lemma_new_root(m: Map<Slot, BankView>, root: Slot, s: Slot, low: Slot)
    requires
        is_forest(m),
        is_rooted(m, root),
        towers_on_forks(m, root),
        m.contains_key(s),
        exists|i: int| 0 <= i < m[s].nodes.len() && (#[trigger] m[s].nodes[i]).root.slot == low,
        low >= root,
    ensures
        m.contains_key(low),
        descends_from(m, low, s),
{
    let i = choose|i: int| 0 <= i < m[s].nodes.len() && (#[trigger] m[s].nodes[i]).root.slot == low;
    assert(bank_on_fork(m[s], fork_of(m, s), root));
    lemma_reaches_root(m, root, s);
    if low == root {
    } else {
        assert(holds_slot(m[s].nodes[i], low));
    }
    assert(fork_of(m, s).contains(low));
}

/// What the fork of a kept bank holds at `low` or after it, it still holds once the tree is pruned.
pub proof fn lemma_pruned_fork(m: Map<Slot, BankView>, root: Slot, low: Slot, s: Slot, x: Slot)
    requires
        is_forest(m),
        is_rooted(m, root),
        m.contains_key(low),
        m.contains_key(s),
        descends_from(m, low, s),
        fork_of(m, s).contains(x),
        x >= low,
    ensures
        fork_of(pruned(m, low), s).contains(x),
    decreases s,
{
    let pr = pruned(m, low);
    assert(pr.contains_key(s) && pr[s] == m[s]);
    lemma_fork_shape(m, s);
    lemma_fork_shape(pr, s);
    let f = fork_of(m, s);
    let k = choose|k: int| 0 <= k < f.len() && f[k] == x;
    if s == low {
        assert(f[k] <= s);
        assert(fork_of(pr, s)[0] == x);
    } else {
        lemma_parent_descends(m, root, low, s);
        let p = m[s].parent;
        assert(f == seq![s] + fork_of(m, p));
        assert(fork_of(pr, s) == seq![s] + fork_of(pr, p));
        if k == 0 {
            assert(fork_of(pr, s)[0] == x);
        } else {
            assert(fork_of(m, p)[k - 1] == x);
            lemma_pruned_fork(m, root, low, p, x);
            let j = choose|j: int| 0 <= j < fork_of(pr, p).len() && fork_of(pr, p)[j] == x;
            assert(fork_of(pr, s)[j + 1] == x);
        }
    }
}

/// Pruning a tree to what descends from one of its banks leaves a tree below that bank.
pub proof fn lemma_pruned(m: Map<Slot, BankView>, root: Slot, low: Slot)
    requires
        is_forest(m),
        is_rooted(m, root),
        towers_on_forks(m, root),
        m.contains_key(low),
    ensures
        is_forest(pruned(m, low)),
        is_rooted(pruned(m, low), low),
        towers_on_forks(pruned(m, low), low),
{
    let pr = pruned(m, low);
    lemma_reaches_root(m, root, low);
    lemma_fork_shape(m, low);
    assert(fork_of(m, low)[0] == low);
    assert(pr.dom().subset_of(m.dom()));
    vstd::set_lib::lemma_set_subset_finite(m.dom(), pr.dom());
    assert forall|q: Slot| #[trigger] pr.contains_key(q) implies is_bank_at(pr[q], q) by {
        assert(m.contains_key(q));
    }
    assert forall|v: Slot, c: Slot| #[trigger] has_child(pr, v, c) implies pr.contains_key(c)
        && pr[c].parent == v by {
        assert(has_child(m, v, c));
        lemma_child_descends(m, low, v, c);
    }
    assert forall|q: Slot| #[trigger] pr.contains_key(q) && q != low implies q > low && has_child(
        pr,
        pr[q].parent,
        q,
    ) by {
        lemma_parent_descends(m, root, low, q);
    }
    assert forall|q: Slot| #[trigger] pr.contains_key(q) implies bank_on_fork(
        pr[q],
        fork_of(pr, q),
        low,
    ) by {
        assert(m.contains_key(q));
        assert(bank_on_fork(m[q], fork_of(m, q), root));
        assert forall|i: int, x: Slot|
            0 <= i < pr[q].nodes.len() && #[trigger] holds_slot(pr[q].nodes[i], x) implies x < low
            || fork_of(pr, q).contains(x) by {
            if x >= low {
                assert(fork_of(m, q).contains(x));
                lemma_pruned_fork(m, root, low, q, x);
            }
        }
    }
}

} // verus!
