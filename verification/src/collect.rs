//! Hash collections handed out as vectors, so that the code that walks them
//! can speak of positions.

use std::collections::HashMap;
use std::collections::HashSet;
use vstd::prelude::*;
use vstd::std_specs::hash::spec_hash_keys_iter;
use vstd::std_specs::hash::spec_keys_iter;
use vstd::std_specs::iter::IteratorSpec;

verus! {

/// The members of a set of slots, each once, in the order in which the set hands them out.
pub fn slot_members(set: &HashSet<u64>) -> (out: Vec<u64>)
    ensures
        out@.no_duplicates(),
        out@.to_set() == set@,
{
    broadcast use vstd::std_specs::hash::group_hash_axioms;

    let mut out: Vec<u64> = Vec::new();
    let ghost all = spec_hash_keys_iter(set).remaining().unref();
    for x in it: set.iter()
        invariant
            it.seq().unref() == all,
            out@ == all.take(it.index()),
    {
        assert(all[it.index()] == *x);
        assert(all.take(it.index() + 1) =~= all.take(it.index()).push(*x));
        out.push(*x);
    }
    proof {
        assert(all.take(all.len() as int) =~= all);
        let refs = spec_hash_keys_iter(set).remaining();
        assert forall|i: int, j: int| 0 <= i < j < all.len() implies all[i] != all[j] by {
            assert(refs[i] != refs[j]);
        }
    }
    out
}


/// The members of a set of validator ids, each once, in the order in which the set hands them out.
pub fn id_members(set: &HashSet<usize>) -> (out: Vec<usize>)
    ensures
        out@.no_duplicates(),
        out@.to_set() == set@,
{
    broadcast use vstd::std_specs::hash::group_hash_axioms;

    let mut out: Vec<usize> = Vec::new();
    let ghost all = spec_hash_keys_iter(set).remaining().unref();
    for x in it: set.iter()
        invariant
            it.seq().unref() == all,
            out@ == all.take(it.index()),
    {
        assert(all[it.index()] == *x);
        assert(all.take(it.index() + 1) =~= all.take(it.index()).push(*x));
        out.push(*x);
    }
    proof {
        assert(all.take(all.len() as int) =~= all);
        let refs = spec_hash_keys_iter(set).remaining();
        assert forall|i: int, j: int| 0 <= i < j < all.len() implies all[i] != all[j] by {
            assert(refs[i] != refs[j]);
        }
    }
    out
}

/// The keys of a map keyed by slot, each once, in the order in which the map hands them out.
pub fn slot_keys<V>(map: &HashMap<u64, V>) -> (out: Vec<u64>)
    ensures
        out@.no_duplicates(),
        out@.to_set() == map@.dom(),
{
    broadcast use vstd::std_specs::hash::group_hash_axioms;

    let mut out: Vec<u64> = Vec::new();
    let ghost all = spec_keys_iter(map).remaining().unref();
    for x in it: map.keys()
        invariant
            it.seq().unref() == all,
            out@ == all.take(it.index()),
    {
        assert(all[it.index()] == *x);
        assert(all.take(it.index() + 1) =~= all.take(it.index()).push(*x));
        out.push(*x);
    }
    proof {
        assert(all.take(all.len() as int) =~= all);
        let refs = spec_keys_iter(map).remaining();
        assert forall|i: int, j: int| 0 <= i < j < all.len() implies all[i] != all[j] by {
            assert(refs[i] != refs[j]);
        }
    }
    out
}

/// The members of the first `n + 1` entries are those of the first `n` and the entry at `n`.
pub proof fn lemma_take_to_set<A>(s: Seq<A>, n: int)
    requires
        0 <= n < s.len(),
    ensures
        s.take(n + 1).to_set() == s.take(n).to_set().insert(s[n]),
        s.take(0).to_set() == Set::<A>::empty(),
        s.take(s.len() as int) == s,
{
    let a = s.take(n + 1);
    let b = s.take(n);
    assert forall|x: A| a.to_set().contains(x) <==> b.to_set().insert(s[n]).contains(x) by {
        if a.contains(x) {
            let k = choose|k: int| 0 <= k < a.len() && a[k] == x;
            if k < n {
                assert(b[k] == x);
            }
        }
        if b.contains(x) {
            let k = choose|k: int| 0 <= k < b.len() && b[k] == x;
            assert(a[k] == x);
        }
        if x == s[n] {
            assert(a[n] == x);
        }
    }
    assert(a.to_set() =~= b.to_set().insert(s[n]));
    assert(s.take(0).to_set() =~= Set::<A>::empty());
    assert(s.take(s.len() as int) =~= s);
}

/// A copy of a set of validator ids.
pub fn copy_ids(ids: &HashSet<usize>) -> (out: HashSet<usize>)
    ensures
        out@ == ids@,
{
    broadcast use vstd::std_specs::hash::group_hash_axioms;

    let members = id_members(ids);
    let mut out: HashSet<usize> = HashSet::new();
    let mut i: usize = 0;
    proof {
        assert(members@.take(0).to_set() =~= Set::<usize>::empty());
    }
    while i < members.len()
        invariant
            i <= members.len(),
            out@ == members@.take(i as int).to_set(),
        decreases members.len() - i,
    {
        proof {
            lemma_take_to_set(members@, i as int);
        }
        out.insert(members[i]);
        i += 1;
    }
    proof {
        assert(members@.take(i as int) =~= members@);
    }
    out
}

} // verus!
