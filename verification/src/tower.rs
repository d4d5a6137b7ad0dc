//! The lockout tower of one validator: a short stack of votes whose lockouts
//! double as newer votes are stacked on top, and the vote it has committed.

use vstd::prelude::*;

verus! {

/// Position of a block in the block tree. Slot 0 is the genesis.
pub type Slot = u64;

/// Number of doublings after which a vote is committed.
pub const THRESHOLD: usize = 6;

/// The largest lockout a vote on the stack can have: two to the `THRESHOLD`.
pub const MAX_LOCKOUT: u32 = 64;

/// A commitment to a slot, together with the number of slots for which the
/// voter stays bound to it.
#[derive(Clone, Copy, Debug, PartialEq, Eq, Structural)]
pub struct Vote {
    pub slot: Slot,
    pub lockout: u32,
}

/// Why a tower refused a vote.
#[derive(Clone, Copy, Debug, PartialEq, Eq, Structural)]
pub enum TowerError {
    /// The slot is not above the latest vote, or not above the root.
    AlreadyVoted,
}

/// Mathematical content of a tower: the stack, most recent vote first, and the root.
pub struct TowerView {
    pub votes: Seq<Vote>,
    pub root: Vote,
}

/// A validator's stack of active votes, most recent first, and its committed root.
#[derive(Debug)]
pub struct Tower {
    pub votes: Vec<Vote>,
    pub root: Vote,
}

impl View for Tower {
    type V = TowerView;

    open spec fn view(&self) -> TowerView {
        TowerView { votes: self.votes@, root: self.root }
    }
}

/// The lockouts a vote on the stack can have: the powers of two from 2 to `MAX_LOCKOUT`.
pub open spec fn is_stack_lockout(lockout: u32) -> bool {
    lockout == 2 || lockout == 4 || lockout == 8 || lockout == 16 || lockout == 32 || lockout
        == 64
}

/// The vote that stands for "no vote".
pub open spec fn zero_vote() -> Vote {
    Vote { slot: 0, lockout: 0 }
}

/// A vote has expired by `slot` when its slot plus its lockout does not exceed `slot`.
pub open spec fn expired_by(v: Vote, slot: Slot) -> bool {
    v.slot + v.lockout <= slot
}

/// What is left of a stack once the expired votes have been popped off its back.
pub open spec fn unexpired(votes: Seq<Vote>, slot: Slot) -> Seq<Vote>
    decreases votes.len(),
{
    if votes.len() > 0 && expired_by(votes.last(), slot) {
        unexpired(votes.drop_last(), slot)
    } else {
        votes
    }
}

/// The stack below a vote of lockout `above`: as long as an entry has the lockout
/// of the entry on top of it, that entry's lockout doubles.
pub open spec fn doubled_below(votes: Seq<Vote>, above: u32) -> Seq<Vote>
    decreases votes.len(),
{
    if votes.len() > 0 && votes[0].lockout == above && above <= MAX_LOCKOUT {
        let twice = (2 * above) as u32;
        seq![Vote { slot: votes[0].slot, lockout: twice }] + doubled_below(votes.skip(1), twice)
    } else {
        votes
    }
}

/// The stack after a vote for `slot` went on top, before anything is committed.
pub open spec fn stacked(votes: Seq<Vote>, slot: Slot) -> Seq<Vote> {
    seq![Vote { slot, lockout: 2 }] + doubled_below(unexpired(votes, slot), 2)
}

/// The shape of a stack: every lockout is a power of two from 2 to
/// `MAX_LOCKOUT`, and from the front to the back slots fall and lockouts rise.
pub open spec fn is_stack(votes: Seq<Vote>) -> bool {
    &&& forall|i: int| 0 <= i < votes.len() ==> is_stack_lockout(#[trigger] votes[i].lockout)
    &&& forall|i: int, j: int|
        0 <= i < j < votes.len() ==> (#[trigger] votes[i]).slot > (#[trigger] votes[j]).slot
    &&& forall|i: int, j: int|
        0 <= i < j < votes.len() ==> (#[trigger] votes[i]).lockout < (#[trigger] votes[j]).lockout
}

impl TowerView {
    /// The shape every tower has: slots fall and lockouts rise from the front to
    /// the back, each lockout is a power of two up to `MAX_LOCKOUT`, the stack
    /// holds at most `THRESHOLD + 1` votes, every vote is above the root, and the
    /// root is the zero vote or a vote that reached `MAX_LOCKOUT`.
    pub open spec fn wf(self) -> bool {
        &&& self.votes.len() <= THRESHOLD + 1
        &&& is_stack(self.votes)
        &&& forall|i: int|
            0 <= i < self.votes.len() ==> (#[trigger] self.votes[i]).slot > self.root.slot
        &&& self.root == zero_vote() || (self.root.lockout == MAX_LOCKOUT && self.root.slot > 0)
    }

    /// The slot of the latest vote, or of the root where the stack is empty.
    pub open spec fn latest_slot(self) -> Slot {
        if self.votes.len() > 0 {
            self.votes[0].slot
        } else {
            self.root.slot
        }
    }

    /// A vote for `slot` is refused when the tower already holds a vote or a root at or above it.
    pub open spec fn already_voted(self, slot: Slot) -> bool {
        slot <= self.root.slot || (self.votes.len() > 0 && slot <= self.votes[0].slot)
    }

    /// Whether a vote for `slot` commits the oldest vote of the stack.
    pub open spec fn commits(self, slot: Slot) -> bool {
        stacked(self.votes, slot).last().lockout > MAX_LOCKOUT
    }

    /// The tower after an accepted vote for `slot`.
    pub open spec fn voted(self, slot: Slot) -> TowerView {
        let all = stacked(self.votes, slot);
        if self.commits(slot) {
            TowerView {
                votes: all.drop_last(),
                root: Vote { slot: all.last().slot, lockout: MAX_LOCKOUT },
            }
        } else {
            TowerView { votes: all, root: self.root }
        }
    }

    /// The tower after a vote for `slot` was offered: unchanged where it is refused.
    pub open spec fn offered(self, slot: Slot) -> TowerView {
        if self.already_voted(slot) {
            self
        } else {
            self.voted(slot)
        }
    }
}


/// Lockouts that rise strictly through the six powers of two leave room for six votes.
pub proof fn lemma_stack_depth(votes: Seq<Vote>)
    requires
        is_stack(votes),
    ensures
        votes.len() <= THRESHOLD,
        forall|i: int| 0 <= i < votes.len() ==> (#[trigger] votes[i]).lockout >= 2 * (i + 1),
{
    if votes.len() > 0 {
        assert(is_stack_lockout(votes[0].lockout));
    }
    if votes.len() > 1 {
        assert(is_stack_lockout(votes[1].lockout) && votes[0].lockout < votes[1].lockout);
    }
    if votes.len() > 2 {
        assert(is_stack_lockout(votes[2].lockout) && votes[1].lockout < votes[2].lockout);
    }
    if votes.len() > 3 {
        assert(is_stack_lockout(votes[3].lockout) && votes[2].lockout < votes[3].lockout);
    }
    if votes.len() > 4 {
        assert(is_stack_lockout(votes[4].lockout) && votes[3].lockout < votes[4].lockout);
    }
    if votes.len() > 5 {
        assert(is_stack_lockout(votes[5].lockout) && votes[4].lockout < votes[5].lockout);
    }
    if votes.len() > 6 {
        assert(is_stack_lockout(votes[6].lockout) && votes[5].lockout < votes[6].lockout);
    }
    assert forall|i: int| 0 <= i < votes.len() implies (#[trigger] votes[i]).lockout >= 2 * (i
        + 1) by {
        if i > 0 {
            assert(votes[0].lockout < votes[i].lockout);
        }
        if i > 1 {
            assert(votes[1].lockout < votes[i].lockout);
        }
        if i > 2 {
            assert(votes[2].lockout < votes[i].lockout);
        }
        if i > 3 {
            assert(votes[3].lockout < votes[i].lockout);
        }
        if i > 4 {
            assert(votes[4].lockout < votes[i].lockout);
        }
        assert(is_stack_lockout(votes[i].lockout));
    }
}

/// Expiry only pops: what is left is the front part of the stack, and its
/// last vote, if any, has not expired.
pub proof fn lemma_unexpired(votes: Seq<Vote>, slot: Slot)
    ensures
        unexpired(votes, slot).len() <= votes.len(),
        unexpired(votes, slot) == votes.take(unexpired(votes, slot).len() as int),
        unexpired(votes, slot).len() > 0 ==> !expired_by(unexpired(votes, slot).last(), slot),
        forall|i: int|
            unexpired(votes, slot).len() <= i < votes.len() ==> expired_by(
                #[trigger] votes[i],
                slot,
            ),
    decreases votes.len(),
{
    if votes.len() > 0 && expired_by(votes.last(), slot) {
        lemma_unexpired(votes.drop_last(), slot);
        let n = unexpired(votes, slot).len() as int;
        assert(votes.drop_last().take(n) =~= votes.take(n));
        assert forall|i: int| n <= i < votes.len() implies expired_by(#[trigger] votes[i], slot) by {
            if i < votes.len() - 1 {
                assert(votes[i] == votes.drop_last()[i]);
            }
        }
    } else {
        assert(votes.take(votes.len() as int) =~= votes);
    }
}

/// Doubling keeps the slots and the order of the lockouts; only the last
/// entry can pass `MAX_LOCKOUT`, and then to exactly twice that.
pub proof fn lemma_doubled_below(votes: Seq<Vote>, above: u32)
    requires
        is_stack(votes),
        is_stack_lockout(above),
        votes.len() > 0 ==> votes[0].lockout >= above,
    ensures
        doubled_below(votes, above).len() == votes.len(),
        forall|i: int|
            0 <= i < votes.len() ==> (#[trigger] doubled_below(votes, above)[i]).slot
                == votes[i].slot,
        forall|i: int|
            0 <= i < votes.len() ==> (#[trigger] doubled_below(votes, above)[i]).lockout
                >= votes[i].lockout,
        forall|i: int, j: int|
            0 <= i < j < votes.len() ==> (#[trigger] doubled_below(votes, above)[i]).lockout < (
            #[trigger] doubled_below(votes, above)[j]).lockout,
        votes.len() > 0 ==> doubled_below(votes, above)[0].lockout > above,
        forall|i: int|
            0 <= i < votes.len() - 1 ==> is_stack_lockout(
                #[trigger] doubled_below(votes, above)[i].lockout,
            ),
        votes.len() > 0 ==> is_stack_lockout(doubled_below(votes, above).last().lockout)
            || doubled_below(votes, above).last().lockout == 2 * MAX_LOCKOUT,
    decreases votes.len(),
{
    if votes.len() > 0 {
        assert(is_stack_lockout(votes[0].lockout));
    }
    if votes.len() > 0 && votes[0].lockout == above {
        let twice = (2 * above) as u32;
        let rest = votes.skip(1);
        let head = seq![Vote { slot: votes[0].slot, lockout: twice }];
        assert(is_stack(rest)) by {
            assert forall|i: int| 0 <= i < rest.len() implies is_stack_lockout(
                #[trigger] rest[i].lockout,
            ) by {
                assert(rest[i] == votes[i + 1]);
            }
            assert forall|i: int, j: int| 0 <= i < j < rest.len() implies (#[trigger] rest[i]).slot
                > (#[trigger] rest[j]).slot && rest[i].lockout < rest[j].lockout by {
                assert(rest[i] == votes[i + 1] && rest[j] == votes[j + 1]);
            }
        }
        let out = doubled_below(votes, above);
        assert(out == head + doubled_below(rest, twice));
        if rest.len() > 0 {
            assert(rest[0] == votes[1]);
            assert(votes[0].lockout < votes[1].lockout);
            assert(is_stack_lockout(votes[1].lockout));
            assert(is_stack_lockout(twice));
            lemma_doubled_below(rest, twice);
            let tail = doubled_below(rest, twice);
            assert forall|i: int| 0 <= i < votes.len() implies (#[trigger] out[i]).slot
                == votes[i].slot && out[i].lockout >= votes[i].lockout by {
                if i > 0 {
                    assert(out[i] == tail[i - 1]);
                    assert(rest[i - 1] == votes[i]);
                }
            }
            assert forall|i: int, j: int| 0 <= i < j < votes.len() implies (#[trigger] out[i]).lockout
                < (#[trigger] out[j]).lockout by {
                assert(out[j] == tail[j - 1]);
                if i > 0 {
                    assert(out[i] == tail[i - 1]);
                } else {
                    assert(tail[0].lockout > twice);
                    if j > 1 {
                        assert(tail[0].lockout < tail[j - 1].lockout);
                    }
                }
            }
            assert forall|i: int| 0 <= i < votes.len() - 1 implies is_stack_lockout(
                #[trigger] out[i].lockout,
            ) by {
                if i > 0 {
                    assert(out[i] == tail[i - 1]);
                }
            }
            assert(out.last() == tail.last());
        } else {
            assert(doubled_below(rest, twice) =~= rest);
            assert(out =~= head);
        }
    }
}


/// An accepted vote leaves a tower in shape, with the new vote on top at
/// lockout 2, a root that did not move back, and no slot below the top that
/// the tower did not hold before.
pub proof fn lemma_voted(t: TowerView, slot: Slot)
    requires
        t.wf(),
        !t.already_voted(slot),
    ensures
        t.voted(slot).wf(),
        t.voted(slot).votes.len() > 0,
        t.voted(slot).votes[0] == (Vote { slot, lockout: 2 }),
        t.voted(slot).root.slot >= t.root.slot,
        t.voted(slot).votes.len() <= THRESHOLD,
        forall|i: int|
            1 <= i < t.voted(slot).votes.len() ==> exists|j: int|
                0 <= j < t.votes.len() && t.votes[j].slot == (#[trigger] t.voted(slot).votes[i]).slot,
        t.commits(slot) ==> exists|j: int|
            0 <= j < t.votes.len() && t.votes[j].slot == t.voted(slot).root.slot,
{
    lemma_unexpired(t.votes, slot);
    let kept = unexpired(t.votes, slot);
    assert(is_stack(kept));
    lemma_doubled_below(kept, 2);
    let below = doubled_below(kept, 2);
    let top = Vote { slot, lockout: 2 };
    let all = stacked(t.votes, slot);
    assert(all == seq![top] + below);
    assert(all.len() == kept.len() + 1);
    assert(all[0] == top);
    assert forall|i: int| 1 <= i < all.len() implies all[i] == below[i - 1] && all[i].slot
        == t.votes[i - 1].slot && slot > all[i].slot && all[i].slot > t.root.slot by {
        assert(below[i - 1].slot == kept[i - 1].slot);
        assert(kept[i - 1] == t.votes[i - 1]);
        if i > 1 {
            assert(t.votes[0].slot > t.votes[i - 1].slot);
        }
    }
    assert forall|i: int, j: int| 0 <= i < j < all.len() implies (#[trigger] all[i]).slot > (
    #[trigger] all[j]).slot && all[i].lockout < all[j].lockout by {
        assert(all[j] == below[j - 1]);
        if i > 0 {
            assert(all[i] == below[i - 1]);
            assert(t.votes[i - 1].slot > t.votes[j - 1].slot);
        } else {
            assert(below[0].lockout > 2);
            if j > 1 {
                assert(below[0].lockout < below[j - 1].lockout);
            }
        }
    }
    let after = t.voted(slot);
    if t.commits(slot) {
        assert(all.len() >= 2);
        assert(all.last() == below.last());
        assert(after.votes == all.drop_last());
        assert forall|i: int| 0 <= i < after.votes.len() implies is_stack_lockout(
            #[trigger] after.votes[i].lockout,
        ) by {
            assert(after.votes[i] == all[i]);
            if i > 0 {
                assert(all[i] == below[i - 1]);
            }
        }
        assert forall|i: int| 0 <= i < after.votes.len() implies (#[trigger] after.votes[i]).slot
            > after.root.slot by {
            assert(after.votes[i] == all[i]);
            assert(all[i].slot > all[all.len() - 1].slot);
        }
        assert(is_stack(after.votes)) by {
            assert forall|i: int, j: int| 0 <= i < j < after.votes.len() implies (
            #[trigger] after.votes[i]).slot > (#[trigger] after.votes[j]).slot
                && after.votes[i].lockout < after.votes[j].lockout by {
                assert(after.votes[i] == all[i] && after.votes[j] == all[j]);
            }
        }
        assert(after.root.slot == t.votes[all.len() - 2].slot);
    } else {
        assert(after.votes == all);
        assert forall|i: int| 0 <= i < all.len() implies is_stack_lockout(
            #[trigger] all[i].lockout,
        ) by {
            if i > 0 {
                assert(all[i] == below[i - 1]);
                if i == all.len() - 1 {
                    assert(all[i] == below.last());
                }
            }
        }
        assert(is_stack(all));
    }
    lemma_stack_depth(after.votes);
    assert forall|i: int| 1 <= i < after.votes.len() implies exists|j: int|
        0 <= j < t.votes.len() && t.votes[j].slot == (#[trigger] after.votes[i]).slot by {
        assert(after.votes[i] == all[i]);
        assert(t.votes[i - 1].slot == all[i].slot);
    }
}

/// Whether `v` has expired by `slot`.
fn is_expired(v: &Vote, slot: Slot) -> (b: bool)
    ensures
        b == expired_by(*v, slot),
{
    let end: u128 = v.slot as u128 + v.lockout as u128;
    end <= slot as u128
}

impl Vote {
    /// The vote that stands for "no vote": slot 0 with lockout 0.
    pub fn zero() -> (v: Vote)
        ensures
            v == zero_vote(),
    {
        Vote { slot: 0, lockout: 0 }
    }
}

impl Default for Tower {
    /// The empty tower, rooted at the zero vote.
    fn default() -> (t: Tower)
        ensures
            t@.votes.len() == 0,
            t@.root == zero_vote(),
            t@.wf(),
    {
        Tower { votes: Vec::new(), root: Vote::zero() }
    }
}

impl Clone for Tower {
    fn clone(&self) -> (t: Tower)
        ensures
            t@ == self@,
    {
        Tower { votes: self.votes.clone(), root: self.root }
    }
}

impl Tower {
    /// Offers a vote for `vote.slot`; the lockout it carries is not read.
    ///
    /// The vote is refused when the tower already holds a vote or a root at or
    /// above that slot. Otherwise expired votes leave the back of the stack, the
    /// vote goes on top with lockout 2, the lockouts below it double while they
    /// are equal to the one above, and a vote doubled past `MAX_LOCKOUT` becomes
    /// the root.
    pub fn apply(&mut self, vote: &Vote) -> (res: Result<(), TowerError>)
        ensures
            res is Err <==> old(self)@.already_voted(vote.slot),
            final(self)@ == old(self)@.offered(vote.slot),
            old(self)@.wf() ==> final(self)@.wf() && final(self)@.root.slot >= old(self)@.root.slot,
    {
        let slot = vote.slot;
        if slot <= self.root.slot {
            return Err(TowerError::AlreadyVoted);
        }
        if self.votes.len() > 0 && slot <= self.votes[0].slot {
            return Err(TowerError::AlreadyVoted);
        }
        let mut n: usize = self.votes.len();
        proof {
            assert(self.votes@.take(n as int) =~= self.votes@);
        }
        while n > 0 && is_expired(&self.votes[n - 1], slot)
            invariant
                n <= self.votes.len(),
                unexpired(self.votes@.take(n as int), slot) == unexpired(self.votes@, slot),
            decreases n,
        {
            proof {
                assert(self.votes@.take(n as int).drop_last() =~= self.votes@.take(n - 1));
            }
            n -= 1;
        }
        let ghost kept = self.votes@.take(n as int);
        proof {
            assert(self.votes@.take(self.votes.len() as int) =~= self.votes@);
            assert(kept == unexpired(self.votes@, slot));
        }
        let mut out: Vec<Vote> = Vec::new();
        out.push(Vote { slot, lockout: 2 });
        let mut above: u32 = 2;
        let mut doubling = true;
        let mut i: usize = 0;
        proof {
            assert(kept.skip(0) =~= kept);
            assert(out@ =~= seq![Vote { slot, lockout: 2 }]);
        }
        while i < n
            invariant
                i <= n <= self.votes.len(),
                kept == self.votes@.take(n as int),
                out.len() == i + 1,
                out@ + (if doubling {
                    doubled_below(kept.skip(i as int), above)
                } else {
                    kept.skip(i as int)
                }) == stacked(self.votes@, slot),
                kept == unexpired(self.votes@, slot),
            decreases n - i,
        {
            let v = self.votes[i];
            let ghost rest = kept.skip(i as int);
            let ghost before = out@;
            proof {
                assert(rest[0] == v);
                assert(rest.skip(1) =~= kept.skip(i + 1));
            }
            if doubling && v.lockout == above && above <= MAX_LOCKOUT {
                above = 2 * above;
                out.push(Vote { slot: v.slot, lockout: above });
                proof {
                    assert(before + doubled_below(rest, v.lockout) =~= out@ + doubled_below(
                        kept.skip(i + 1),
                        above,
                    ));
                }
            } else {
                proof {
                    if doubling {
                        assert(doubled_below(rest, above) == rest);
                    }
                    assert(before + rest =~= before.push(v) + kept.skip(i + 1));
                }
                doubling = false;
                out.push(v);
            }
            i += 1;
        }
        proof {
            assert(kept.skip(n as int) =~= Seq::<Vote>::empty());
            assert(out@ =~= stacked(self.votes@, slot));
            if self@.wf() {
                lemma_voted(self@, slot);
            }
        }
        let last = out[out.len() - 1];
        if last.lockout > MAX_LOCKOUT {
            out.pop();
            self.root = Vote { slot: last.slot, lockout: MAX_LOCKOUT };
        }
        self.votes = out;
        proof {
            assert(self@.votes =~= old(self)@.voted(slot).votes);
        }
        Ok(())
    }

    /// The most recent vote on the stack, if there is one.
    pub fn latest_vote(&self) -> (v: Option<&Vote>)
        ensures
            self@.votes.len() == 0 ==> v is None,
            self@.votes.len() > 0 ==> v == Some(&self@.votes[0]),
    {
        if self.votes.len() > 0 {
            Some(&self.votes[0])
        } else {
            None
        }
    }

    /// A copy of the stack, most recent vote first.
    pub fn votes(&self) -> (v: Vec<Vote>)
        ensures
            v@ == self@.votes,
    {
        self.votes.clone()
    }
}


/// A vote counts as increased against the stack `base` when its lockout has
/// reached `max_lockout`, or exceeds the lockout that `base` holds for the same slot.
pub open spec fn is_increased(base: Seq<Vote>, max_lockout: u32, v: Vote) -> bool {
    v.lockout >= max_lockout || exists|j: int|
        0 <= j < base.len() && (#[trigger] base[j]).slot == v.slot && base[j].lockout
            < v.lockout
}

/// The votes of `votes` that are increased against `base`, in their order.
pub open spec fn increased_lockouts(base: Seq<Vote>, max_lockout: u32, votes: Seq<Vote>) -> Seq<
    Vote,
>
    decreases votes.len(),
{
    if votes.len() == 0 {
        Seq::empty()
    } else {
        let before = increased_lockouts(base, max_lockout, votes.drop_last());
        if is_increased(base, max_lockout, votes.last()) {
            before.push(votes.last())
        } else {
            before
        }
    }
}

/// A vote is among the increased votes exactly when it is an entry of `votes`
/// that is increased.
pub proof fn lemma_increased_lockouts(
    base: Seq<Vote>,
    max_lockout: u32,
    votes: Seq<Vote>,
    v: Vote,
)
    ensures
        increased_lockouts(base, max_lockout, votes).contains(v) <==> votes.contains(v)
            && is_increased(base, max_lockout, v),
    decreases votes.len(),
{
    let out = increased_lockouts(base, max_lockout, votes);
    if votes.len() > 0 {
        let front = votes.drop_last();
        let before = increased_lockouts(base, max_lockout, front);
        lemma_increased_lockouts(base, max_lockout, front, v);
        if out.contains(v) {
            let k = choose|k: int| 0 <= k < out.len() && out[k] == v;
            if k < before.len() {
                assert(before[k] == v);
                assert(before.contains(v));
                let m = choose|m: int| 0 <= m < front.len() && front[m] == v;
                assert(votes[m] == v);
            } else {
                assert(votes[votes.len() - 1] == v);
            }
        }
        if votes.contains(v) && is_increased(base, max_lockout, v) {
            let m = choose|m: int| 0 <= m < votes.len() && votes[m] == v;
            if m < front.len() {
                assert(front[m] == v);
                assert(front.contains(v));
                let k = choose|k: int| 0 <= k < before.len() && before[k] == v;
                assert(out[k] == v);
            } else {
                assert(out[out.len() - 1] == v);
            }
        }
    }
}

impl Tower {
    /// Whether this tower holds a vote for `v.slot` with a lockout below `v.lockout`.
    fn holds_lower(&self, v: &Vote) -> (b: bool)
        ensures
            b == exists|j: int|
                0 <= j < self@.votes.len() && (#[trigger] self@.votes[j]).slot == v.slot
                    && self@.votes[j].lockout < v.lockout,
    {
        let mut j: usize = 0;
        while j < self.votes.len()
            invariant
                j <= self.votes.len(),
                forall|k: int|
                    0 <= k < j ==> !((#[trigger] self@.votes[k]).slot == v.slot
                        && self@.votes[k].lockout < v.lockout),
            decreases self.votes.len() - j,
        {
            if self.votes[j].slot == v.slot && self.votes[j].lockout < v.lockout {
                assert(self@.votes[j as int].slot == v.slot);
                return true;
            }
            j += 1;
        }
        false
    }

    /// The votes of `other` whose lockout has reached `max_lockout` or exceeds
    /// the lockout this tower holds for the same slot.
    pub fn get_increased_lockouts(&self, max_lockout: u32, other: &Tower) -> (out: Vec<Vote>)
        ensures
            out@ == increased_lockouts(self@.votes, max_lockout, other@.votes),
    {
        let mut out: Vec<Vote> = Vec::new();
        let mut i: usize = 0;
        while i < other.votes.len()
            invariant
                i <= other.votes.len(),
                out@ == increased_lockouts(self@.votes, max_lockout, other@.votes.take(i as int)),
            decreases other.votes.len() - i,
        {
            let v = other.votes[i];
            proof {
                assert(other@.votes.take(i + 1).drop_last() =~= other@.votes.take(i as int));
            }
            if v.lockout >= max_lockout || self.holds_lower(&v) {
                out.push(v);
            }
            i += 1;
        }
        proof {
            assert(other@.votes.take(i as int) =~= other@.votes);
        }
        out
    }
}


/// Whether `lockout` is a power of two from 2 to `MAX_LOCKOUT`.
fn lockout_fits(lockout: u32) -> (b: bool)
    ensures
        b == is_stack_lockout(lockout),
{
    lockout == 2 || lockout == 4 || lockout == 8 || lockout == 16 || lockout == 32 || lockout == 64
}

impl Tower {
    /// Whether the vote at `i` fits the tower: its lockout is one a vote can
    /// have, it is above the root, and every vote below it on the stack is for
    /// an earlier slot and holds a greater lockout.
    fn vote_fits(&self, i: usize) -> (b: bool)
        requires
            i < self@.votes.len(),
        ensures
            b == (is_stack_lockout(self@.votes[i as int].lockout) && self@.votes[i as int].slot
                > self@.root.slot && forall|j: int|
                i < j < self@.votes.len() ==> self@.votes[i as int].slot > (
                #[trigger] self@.votes[j]).slot && self@.votes[i as int].lockout
                    < self@.votes[j].lockout),
    {
        let v = self.votes[i];
        if !lockout_fits(v.lockout) || v.slot <= self.root.slot {
            return false;
        }
        assert(i < self.votes.len());
        let mut j: usize = i + 1;
        while j < self.votes.len()
            invariant
                i < j <= self.votes.len(),
                v == self@.votes[i as int],
                forall|k: int|
                    i < k < j ==> v.slot > (#[trigger] self@.votes[k]).slot && v.lockout
                        < self@.votes[k].lockout,
            decreases self.votes.len() - j,
        {
            if !(v.slot > self.votes[j].slot && v.lockout < self.votes[j].lockout) {
                assert(!(v.slot > self@.votes[j as int].slot && v.lockout
                    < self@.votes[j as int].lockout));
                return false;
            }
            j += 1;
        }
        true
    }

    /// Whether the tower has the shape that every tower made by `default` and
    /// `apply` has.
    pub fn is_well_formed(&self) -> (b: bool)
        ensures
            b == self@.wf(),
    {
        if self.votes.len() > THRESHOLD + 1 {
            return false;
        }
        let root_fits = (self.root.slot == 0 && self.root.lockout == 0) || (self.root.lockout
            == MAX_LOCKOUT && self.root.slot > 0);
        if !root_fits {
            return false;
        }
        let mut i: usize = 0;
        while i < self.votes.len()
            invariant
                i <= self.votes.len(),
                forall|k: int| 0 <= k < i ==> is_stack_lockout(#[trigger] self@.votes[k].lockout),
                forall|k: int| 0 <= k < i ==> (#[trigger] self@.votes[k]).slot > self@.root.slot,
                forall|k: int, j: int|
                    0 <= k < i && k < j < self@.votes.len() ==> (#[trigger] self@.votes[k]).slot > (
                    #[trigger] self@.votes[j]).slot && self@.votes[k].lockout
                        < self@.votes[j].lockout,
            decreases self.votes.len() - i,
        {
            if !self.vote_fits(i) {
                proof {
                    let v = self@.votes[i as int];
                    if is_stack_lockout(v.lockout) && v.slot > self@.root.slot {
                        let j = choose|j: int|
                            i < j < self@.votes.len() && !(self@.votes[i as int].slot > (
                            #[trigger] self@.votes[j]).slot && self@.votes[i as int].lockout
                                < self@.votes[j].lockout);
                        assert(!(self@.votes[i as int].slot > self@.votes[j].slot
                            && self@.votes[i as int].lockout < self@.votes[j].lockout));
                    }
                }
                return false;
            }
            i += 1;
        }
        true
    }
}


/// `MAX_LOCKOUT` is two to the power `THRESHOLD`.
pub proof fn lemma_max_lockout()
    ensures
        THRESHOLD == 6,
        MAX_LOCKOUT == 1u32 << 6u32,
{
    assert(64u32 == 1u32 << 6u32) by (bit_vector);
}

} // verus!
