//! Counting the entries of a sequence of which a predicate holds.

use vstd::prelude::*;

verus! {

/// Number of entries of `s` of which `p` holds.
pub open spec fn count_where<T>(s: Seq<T>, p: spec_fn(T) -> bool) -> nat
    decreases s.len(),
{
    if s.len() == 0 {
        0
    } else {
        count_where(s.drop_last(), p) + if p(s.last()) {
            1nat
        } else {
            0nat
        }
    }
}

/// A count never exceeds the number of entries.
pub proof fn lemma_count_bound<T>(s: Seq<T>, p: spec_fn(T) -> bool)
    ensures
        count_where(s, p) <= s.len(),
    decreases s.len(),
{
    if s.len() > 0 {
        lemma_count_bound(s.drop_last(), p);
    }
}

/// Two predicates that agree on every entry count the same.
pub proof fn lemma_count_agree<T>(s: Seq<T>, p: spec_fn(T) -> bool, q: spec_fn(T) -> bool)
    requires
        forall|i: int| 0 <= i < s.len() ==> p(#[trigger] s[i]) == q(s[i]),
    ensures
        count_where(s, p) == count_where(s, q),
    decreases s.len(),
{
    if s.len() > 0 {
        let front = s.drop_last();
        assert forall|i: int| 0 <= i < front.len() implies p(#[trigger] front[i]) == q(
            front[i],
        ) by {
            assert(front[i] == s[i]);
        }
        lemma_count_agree(front, p, q);
        assert(s.last() == s[s.len() - 1]);
    }
}

/// A predicate and its negation count all entries between them.
pub proof fn lemma_count_split<T>(s: Seq<T>, p: spec_fn(T) -> bool, q: spec_fn(T) -> bool)
    requires
        forall|i: int| 0 <= i < s.len() ==> p(#[trigger] s[i]) == !q(s[i]),
    ensures
        count_where(s, p) + count_where(s, q) == s.len(),
    decreases s.len(),
{
    if s.len() > 0 {
        let front = s.drop_last();
        assert forall|i: int| 0 <= i < front.len() implies p(#[trigger] front[i]) == !q(
            front[i],
        ) by {
            assert(front[i] == s[i]);
        }
        lemma_count_split(front, p, q);
        assert(s.last() == s[s.len() - 1]);
    }
}

/// Where every entry satisfies exactly one of `p` and `q` or neither, and `r`
/// holds exactly where one of them does, `r` counts what `p` and `q` count together.
pub proof fn lemma_count_disjoint<T>(
    s: Seq<T>,
    p: spec_fn(T) -> bool,
    q: spec_fn(T) -> bool,
    r: spec_fn(T) -> bool,
)
    requires
        forall|i: int| 0 <= i < s.len() ==> !(p(#[trigger] s[i]) && q(s[i])),
        forall|i: int| 0 <= i < s.len() ==> r(#[trigger] s[i]) == (p(s[i]) || q(s[i])),
    ensures
        count_where(s, r) == count_where(s, p) + count_where(s, q),
    decreases s.len(),
{
    if s.len() > 0 {
        let front = s.drop_last();
        assert forall|i: int| 0 <= i < front.len() implies !(p(#[trigger] front[i]) && q(
            front[i],
        )) && r(front[i]) == (p(front[i]) || q(front[i])) by {
            assert(front[i] == s[i]);
        }
        lemma_count_disjoint(front, p, q, r);
        assert(s.last() == s[s.len() - 1]);
    }
}

/// A predicate that implies another counts no more than it.
pub proof fn lemma_count_mono<T>(s: Seq<T>, p: spec_fn(T) -> bool, q: spec_fn(T) -> bool)
    requires
        forall|i: int| 0 <= i < s.len() ==> (p(#[trigger] s[i]) ==> q(s[i])),
    ensures
        count_where(s, p) <= count_where(s, q),
    decreases s.len(),
{
    if s.len() > 0 {
        let front = s.drop_last();
        assert forall|i: int| 0 <= i < front.len() && p(#[trigger] front[i]) implies q(
            front[i],
        ) by {
            assert(front[i] == s[i]);
        }
        lemma_count_mono(front, p, q);
        assert(s.last() == s[s.len() - 1]);
    }
}

/// An entry of which the first predicate fails and the second holds makes the
/// second count strictly more.
pub proof fn lemma_count_strict<T>(
    s: Seq<T>,
    p: spec_fn(T) -> bool,
    q: spec_fn(T) -> bool,
    k: int,
)
    requires
        forall|i: int| 0 <= i < s.len() ==> (p(#[trigger] s[i]) ==> q(s[i])),
        0 <= k < s.len(),
        !p(s[k]),
        q(s[k]),
    ensures
        count_where(s, p) < count_where(s, q),
    decreases s.len(),
{
    let front = s.drop_last();
    assert forall|i: int| 0 <= i < front.len() && p(#[trigger] front[i]) implies q(front[i]) by {
        assert(front[i] == s[i]);
    }
    assert(s.last() == s[s.len() - 1]);
    if k == s.len() - 1 {
        lemma_count_mono(front, p, q);
    } else {
        assert(front[k] == s[k]);
        lemma_count_strict(front, p, q, k);
    }
}

/// The predicate that never holds counts nothing.
pub proof fn lemma_count_none<T>(s: Seq<T>)
    ensures
        count_where(s, |t: T| false) == 0,
    decreases s.len(),
{
    if s.len() > 0 {
        lemma_count_none(s.drop_last());
    }
}

/// The predicate that always holds counts every entry.
pub proof fn lemma_count_all<T>(s: Seq<T>)
    ensures
        count_where(s, |t: T| true) == s.len(),
    decreases s.len(),
{
    if s.len() > 0 {
        lemma_count_all(s.drop_last());
    }
}


/// A longer front part of a sequence counts at least as much as a shorter
/// one, and more where the entry that ends the shorter one is counted.
pub proof fn lemma_count_take<T>(s: Seq<T>, p: spec_fn(T) -> bool, a: int, b: int)
    requires
        0 <= a <= b <= s.len(),
    ensures
        count_where(s.take(a), p) <= count_where(s.take(b), p),
        a < b && p(s[a]) ==> count_where(s.take(a), p) < count_where(s.take(b), p),
    decreases b - a,
{
    if a < b {
        assert(s.take(b).drop_last() =~= s.take(b - 1));
        assert(s.take(b).last() == s[b - 1]);
        lemma_count_take(s, p, a, b - 1);
    }
}

} // verus!
