//! The rotating subcommittees of a bank: a primary and a secondary set of
//! validators, exchanged and redrawn as the supermajority root advances.

use crate::bank::ID;
use crate::collect::copy_ids;
use crate::tower::Slot;
use std::collections::hash_map::DefaultHasher;
use std::collections::HashSet;
use std::hash::Hasher;
use vstd::bytes::spec_u64_to_le_bytes;
use vstd::bytes::u64_to_le_bytes;
use vstd::prelude::*;
use vstd::std_specs::hash::DefaultHasherAdditionalSpecFns;

verus! {

/// Number of supermajority-root advances that make one epoch.
pub const SUBCOMMITTEE_EPOCH: u64 = 64;

/// Number of draws that make a subcommittee; also the bound below which the drawn ids lie.
pub const SUBCOMMITTEE_SIZE: usize = 200;

/// What an epoch does to the two sets when it begins.
#[derive(Clone, Copy, Debug, PartialEq, Eq, Structural)]
pub enum Phase {
    SecondaryRotationB,
    PrimaryA2B,
    SecondaryRotationA,
    PrimaryB2A,
}

/// Mathematical content of a subcommittee record.
pub struct SubcommitteeView {
    pub primary: Set<ID>,
    pub secondary: Set<ID>,
    pub num_super_roots: u64,
    pub parent_num_super_roots: u64,
    pub super_root: Slot,
    pub parent_super_root: Slot,
}

/// The primary and secondary validator sets of a bank, and the count of
/// supermajority-root advances that drives their rotation.
pub struct Subcommittee {
    pub primary: HashSet<ID>,
    pub secondary: HashSet<ID>,
    /// Number of times the supermajority root has advanced; a run of advances
    /// within one bank counts once.
    pub num_super_roots: u64,
    pub parent_num_super_roots: u64,
    pub super_root: Slot,
    pub parent_super_root: Slot,
}

impl View for Subcommittee {
    type V = SubcommitteeView;

    open spec fn view(&self) -> SubcommitteeView {
        SubcommitteeView {
            primary: self.primary@,
            secondary: self.secondary@,
            num_super_roots: self.num_super_roots,
            parent_num_super_roots: self.parent_num_super_roots,
            super_root: self.super_root,
            parent_super_root: self.parent_super_root,
        }
    }
}

/// The digest of the default hasher after one write of the eight
/// little-endian bytes of `val`.
pub open spec fn digest(val: u64) -> u64 {
    DefaultHasher::spec_finish(seq![spec_u64_to_le_bytes(val)])
}

/// The `k`-th seed of an epoch: the digest of the epoch number, hashed again `k` times.
pub open spec fn seed(epoch: u64, k: nat) -> u64
    decreases k,
{
    if k == 0 {
        digest(epoch)
    } else {
        digest(seed(epoch, (k - 1) as nat))
    }
}

/// The ids drawn from the first `draws` seeds of an epoch.
pub open spec fn drawn(epoch: u64, draws: nat) -> Set<ID> {
    Set::new(
        |id: ID|
            exists|k: nat|
                k < draws && #[trigger] seed(epoch, k) % (SUBCOMMITTEE_SIZE as u64) == id,
    )
}

/// The subcommittee of an epoch: the ids drawn from its first `SUBCOMMITTEE_SIZE`
/// seeds. Draws may coincide, so the set may be smaller than that.
pub open spec fn committee(epoch: u64) -> Set<ID> {
    drawn(epoch, SUBCOMMITTEE_SIZE as nat)
}

/// The phase of an epoch.
pub open spec fn phase_of(epoch: u64) -> Phase {
    if epoch % 4 == 0 {
        Phase::SecondaryRotationB
    } else if epoch % 4 == 1 {
        Phase::PrimaryA2B
    } else if epoch % 4 == 2 {
        Phase::SecondaryRotationA
    } else {
        Phase::PrimaryB2A
    }
}

impl SubcommitteeView {
    /// The epoch this record is in, latched when its parent froze.
    pub open spec fn epoch(self) -> u64 {
        self.parent_num_super_roots / SUBCOMMITTEE_EPOCH
    }

    /// The record a child bank starts from.
    pub open spec fn child(self) -> SubcommitteeView {
        SubcommitteeView {
            primary: self.primary,
            secondary: self.secondary,
            num_super_roots: self.num_super_roots,
            parent_num_super_roots: self.num_super_roots,
            super_root: self.super_root,
            parent_super_root: self.super_root,
        }
    }

    /// The record after the transition of its phase.
    pub open spec fn transitioned(self) -> SubcommitteeView {
        match phase_of(self.epoch()) {
            Phase::SecondaryRotationB | Phase::SecondaryRotationA => SubcommitteeView {
                secondary: committee(self.epoch()),
                ..self
            },
            Phase::PrimaryA2B | Phase::PrimaryB2A => SubcommitteeView {
                primary: self.secondary,
                secondary: self.primary,
                ..self
            },
        }
    }

    /// The record of a child once it has been set against its parent's: the
    /// transition happens exactly when the child is in another epoch.
    pub open spec fn initialized(self, parent: SubcommitteeView) -> SubcommitteeView {
        if self.epoch() != parent.epoch() {
            self.transitioned()
        } else {
            self
        }
    }

    /// The record after its bank froze with supermajority root `super_root`.
    pub open spec fn frozen(self, super_root: Slot) -> SubcommitteeView {
        SubcommitteeView {
            super_root,
            num_super_roots: if super_root != self.parent_super_root {
                (self.num_super_roots + 1) as u64
            } else {
                self.num_super_roots
            },
            ..self
        }
    }
}

impl Subcommittee {
    /// Hashes `val` with the default hasher.
    pub fn hash(val: u64) -> (h: u64)
        ensures
            h == digest(val),
    {
        let mut hasher = DefaultHasher::new();
        let bytes = u64_to_le_bytes(val);
        hasher.write(bytes.as_slice());
        proof {
            assert(hasher@ =~= seq![spec_u64_to_le_bytes(val)]);
        }
        hasher.finish()
    }
}


impl Default for Subcommittee {
    /// The record of the genesis bank: both sets are the committee of epoch 0.
    fn default() -> (s: Subcommittee)
        ensures
            s@ == Subcommittee::default_view(),
    {
        let primary = Subcommittee::calc_subcommittee(0);
        let secondary = copy_ids(&primary);
        Subcommittee {
            parent_super_root: 0,
            super_root: 0,
            num_super_roots: 0,
            parent_num_super_roots: 0,
            primary,
            secondary,
        }
    }
}

impl Subcommittee {
    /// The record of the genesis bank.
    pub open spec fn default_view() -> SubcommitteeView {
        SubcommitteeView {
            primary: committee(0),
            secondary: committee(0),
            num_super_roots: 0,
            parent_num_super_roots: 0,
            super_root: 0,
            parent_super_root: 0,
        }
    }

    /// The record a child bank starts from: the sets are inherited, and the
    /// counters this bank froze with become the child's parent counters.
    pub fn child(&self) -> (c: Subcommittee)
        ensures
            c@ == self@.child(),
    {
        Subcommittee {
            parent_super_root: self.super_root,
            super_root: self.super_root,
            num_super_roots: self.num_super_roots,
            parent_num_super_roots: self.num_super_roots,
            primary: copy_ids(&self.primary),
            secondary: copy_ids(&self.secondary),
        }
    }

    /// Sets a fresh child record against its parent's: where the child is in
    /// another epoch than the parent, the transition of the child's phase happens.
    pub fn init_child(&mut self, parent: &Subcommittee)
        ensures
            final(self)@ == old(self)@.initialized(parent@),
    {
        if self.subcommittee_epoch() != parent.subcommittee_epoch() {
            let epoch = self.subcommittee_epoch();
            match self.subcommittee_phase() {
                Phase::SecondaryRotationB => {
                    self.secondary = Subcommittee::calc_subcommittee(epoch);
                },
                Phase::PrimaryA2B => {
                    std::mem::swap(&mut self.primary, &mut self.secondary);
                },
                Phase::SecondaryRotationA => {
                    self.secondary = Subcommittee::calc_subcommittee(epoch);
                },
                Phase::PrimaryB2A => {
                    std::mem::swap(&mut self.primary, &mut self.secondary);
                },
            }
        }
    }

    /// Records the supermajority root the bank froze with, and counts an
    /// advance where it differs from the parent's.
    pub fn freeze(&mut self, super_root: Slot)
        requires
            old(self).num_super_roots < u64::MAX,
        ensures
            final(self)@ == old(self)@.frozen(super_root),
    {
        self.super_root = super_root;
        if self.super_root != self.parent_super_root {
            self.num_super_roots = self.num_super_roots + 1;
        }
    }

    /// Draws the subcommittee of an epoch: `SUBCOMMITTEE_SIZE` seeds, the first
    /// the digest of the epoch number and each next one the digest of the one
    /// before, each reduced modulo `SUBCOMMITTEE_SIZE`.
    pub fn calc_subcommittee(epoch: u64) -> (set: HashSet<ID>)
        ensures
            set@ == committee(epoch),
    {
        broadcast use vstd::std_specs::hash::group_hash_axioms;

        let mut set: HashSet<ID> = HashSet::new();
        let mut s: u64 = Subcommittee::hash(epoch);
        let mut i: usize = 0;
        proof {
            assert(set@ =~= drawn(epoch, 0));
        }
        while i < SUBCOMMITTEE_SIZE
            invariant
                i <= SUBCOMMITTEE_SIZE,
                s == seed(epoch, i as nat),
                set@ == drawn(epoch, i as nat),
            decreases SUBCOMMITTEE_SIZE - i,
        {
            let id: usize = (s % (SUBCOMMITTEE_SIZE as u64)) as usize;
            set.insert(id);
            proof {
                let next = drawn(epoch, (i + 1) as nat);
                assert forall|x: ID| set@.contains(x) <==> next.contains(x) by {
                    if x == id {
                        assert(seed(epoch, i as nat) % (SUBCOMMITTEE_SIZE as u64) == x);
                    }
                    if drawn(epoch, i as nat).contains(x) {
                        let k = choose|k: nat|
                            k < i && #[trigger] seed(epoch, k) % (SUBCOMMITTEE_SIZE as u64) == x;
                        assert(k < i + 1);
                    }
                }
                assert(set@ =~= next);
            }
            s = Subcommittee::hash(s);
            i += 1;
        }
        set
    }

    /// The epoch this record is in.
    pub fn subcommittee_epoch(&self) -> (e: u64)
        ensures
            e == self@.epoch(),
    {
        self.parent_num_super_roots / SUBCOMMITTEE_EPOCH
    }

    /// The phase of the epoch this record is in.
    pub fn subcommittee_phase(&self) -> (p: Phase)
        ensures
            p == phase_of(self@.epoch()),
    {
        let r = self.subcommittee_epoch() % 4;
        if r == 0 {
            Phase::SecondaryRotationB
        } else if r == 1 {
            Phase::PrimaryA2B
        } else if r == 2 {
            Phase::SecondaryRotationA
        } else {
            Phase::PrimaryB2A
        }
    }
}

/// Every id of a committee lies below `SUBCOMMITTEE_SIZE`, and a committee is never empty.
pub proof fn lemma_committee_bounds(epoch: u64)
    ensures
        forall|id: ID| committee(epoch).contains(id) ==> id < SUBCOMMITTEE_SIZE,
        committee(epoch).contains((seed(epoch, 0) % (SUBCOMMITTEE_SIZE as u64)) as usize),
{
    let first = seed(epoch, 0) % (SUBCOMMITTEE_SIZE as u64);
    assert(first == first as usize);
}

} // verus!
