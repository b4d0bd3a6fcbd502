//! The latch of a node: the modes, the record of the holds that are out, and
//! the latch itself.
//!
//! A latch is held shared by any number of holders, upgradable by at most one
//! (next to shared holders), or exclusively by one holder alone. The tree has
//! one owner, so every hold on the latch of a node is a hold of the operation
//! that is under way; a request that these holds do not admit would wait for
//! the operation itself, and is ruled out by a precondition.

use crate::sync::{RwHold, RwLatch, RwSynchronized};
use vstd::prelude::*;

verus! {

/// The most shared and upgradable holders that a latch counts: the lock keeps
/// the count in a word of which it uses four bits otherwise.
pub const READER_LIMIT: usize = usize::MAX / 16;

/// The mode in which a latch is requested or held.
#[derive(Clone, Copy, PartialEq, Eq, Structural, Debug)]
pub enum LatchType {
    Shared,
    Upgradable,
    Excl,
}

/// Who holds a latch: the number of shared holders, whether there is an
/// upgradable holder, and whether there is an exclusive holder.
#[derive(Clone, Copy, PartialEq, Eq, Structural, Debug)]
pub struct LatchState {
    pub shared: usize,
    pub upgradable: bool,
    pub exclusive: bool,
}

impl LatchState {
    /// The latch that nobody holds.
    pub open spec fn idle() -> LatchState {
        LatchState { shared: 0, upgradable: false, exclusive: false }
    }

    /// The latch that has one holder, in mode `mode`.
    pub open spec fn sole(mode: LatchType) -> LatchState {
        Self::idle().with(mode)
    }

    /// Nobody holds the latch.
    pub open spec fn is_free(self) -> bool {
        self.shared == 0 && !self.upgradable && !self.exclusive
    }

    /// The number of holders that the latch counts as readers: the shared
    /// ones and the upgradable one.
    pub open spec fn readers(self) -> int {
        self.shared + if self.upgradable {
            1int
        } else {
            0int
        }
    }

    /// An exclusive holder is alone, and the readers can be counted.
    pub open spec fn consistent(self) -> bool {
        &&& self.exclusive ==> self.shared == 0 && !self.upgradable
        &&& self.readers() <= READER_LIMIT
    }

    /// A request in mode `mode` is granted at once.
    pub open spec fn admits(self, mode: LatchType) -> bool {
        match mode {
            LatchType::Shared => !self.exclusive && self.readers() < READER_LIMIT,
            LatchType::Upgradable => !self.exclusive && !self.upgradable && self.readers()
                < READER_LIMIT,
            LatchType::Excl => self.is_free(),
        }
    }

    /// Somebody holds the latch in mode `mode`.
    pub open spec fn holds(self, mode: LatchType) -> bool {
        match mode {
            LatchType::Shared => self.shared > 0,
            LatchType::Upgradable => self.upgradable,
            LatchType::Excl => self.exclusive,
        }
    }

    /// Somebody holds the latch in some mode, which is what reading needs.
    pub open spec fn held(self) -> bool {
        self.shared > 0 || self.upgradable || self.exclusive
    }

    /// The state after one more holder in mode `mode`.
    pub open spec fn with(self, mode: LatchType) -> LatchState {
        match mode {
            LatchType::Shared => LatchState { shared: (self.shared + 1) as usize, ..self },
            LatchType::Upgradable => LatchState { upgradable: true, ..self },
            LatchType::Excl => LatchState { exclusive: true, ..self },
        }
    }

    /// The state after one holder in mode `mode` has left.
    pub open spec fn without(self, mode: LatchType) -> LatchState {
        match mode {
            LatchType::Shared => LatchState { shared: (self.shared - 1) as usize, ..self },
            LatchType::Upgradable => LatchState { upgradable: false, ..self },
            LatchType::Excl => LatchState { exclusive: false, ..self },
        }
    }

    /// The state after the upgradable holder has become the exclusive one.
    pub open spec fn upgraded(self) -> LatchState {
        LatchState { upgradable: false, exclusive: true, ..self }
    }

    /// The record of a latch that nobody holds.
    pub fn new() -> (r: LatchState)
        ensures
            r == Self::idle(),
            r.is_free(),
            r.consistent(),
    {
        LatchState { shared: 0, upgradable: false, exclusive: false }
    }

    /// Whether a request in mode `mode` would be granted at once.
    pub fn can_acquire(&self, mode: LatchType) -> (r: bool)
        ensures
            r == self.admits(mode),
    {
        let room = self.shared < READER_LIMIT && (!self.upgradable || self.shared < READER_LIMIT
            - 1);
        match mode {
            LatchType::Shared => !self.exclusive && room,
            LatchType::Upgradable => !self.exclusive && !self.upgradable && room,
            LatchType::Excl => self.shared == 0 && !self.upgradable && !self.exclusive,
        }
    }

    /// Whether somebody holds the latch in mode `mode`.
    pub fn is_held(&self, mode: LatchType) -> (r: bool)
        ensures
            r == self.holds(mode),
    {
        match mode {
            LatchType::Shared => self.shared > 0,
            LatchType::Upgradable => self.upgradable,
            LatchType::Excl => self.exclusive,
        }
    }
}

/// The latch of a node, together with the holds that the operation under way
/// has on it. Each hold taken is kept here until it is given back. The lock
/// is the latch's own and is handed to nobody, so the holds kept here are all
/// the holds there are, and a request that they admit does not wait.
pub struct NodeLatch {
    cell: RwSynchronized<()>,
    shared: Vec<RwHold<()>>,
    upgradable: Option<RwHold<()>>,
    exclusive: Option<RwHold<()>>,
}

impl View for NodeLatch {
    type V = LatchState;

    /// The holds that are out.
    closed spec fn view(&self) -> LatchState {
        LatchState {
            shared: self.shared@.len() as usize,
            upgradable: self.upgradable.is_some(),
            exclusive: self.exclusive.is_some(),
        }
    }
}

impl NodeLatch {
    /// Each hold that is kept is a hold on the lock of this latch, of the mode
    /// it is kept as, and the holds go together.
    pub closed spec fn wf(&self) -> bool {
        &&& forall|i: int|
            0 <= i < self.shared@.len() ==> (#[trigger] self.shared@[i]).mode() == LatchType::Shared
                && self.cell.issued(&self.shared@[i])
        &&& self.upgradable matches Some(h) ==> h.mode() == LatchType::Upgradable
            && self.cell.issued(&h)
        &&& self.exclusive matches Some(h) ==> h.mode() == LatchType::Excl && self.cell.issued(&h)
        &&& self@.consistent()
    }

    /// A well-formed latch is consistent.
    pub proof fn lemma_consistent(&self)
        requires
            self.wf(),
        ensures
            self@.consistent(),
    {
    }

    /// A latch that nobody holds.
    pub fn new() -> (r: NodeLatch)
        ensures
            r.wf(),
            r@ == LatchState::idle(),
    {
        NodeLatch {
            cell: RwSynchronized::init(()),
            shared: Vec::new(),
            upgradable: None,
            exclusive: None,
        }
    }

    /// The holds that are out.
    pub fn state(&self) -> (r: LatchState)
        ensures
            r == self@,
    {
        LatchState {
            shared: self.shared.len(),
            upgradable: self.upgradable.is_some(),
            exclusive: self.exclusive.is_some(),
        }
    }

    /// Takes the latch in mode `mode` and keeps the hold.
    pub fn acquire(&mut self, mode: LatchType)
        requires
            old(self).wf(),
            old(self)@.admits(mode),
        ensures
            final(self).wf(),
            final(self)@ == old(self)@.with(mode),
            final(self)@.holds(mode),
    {
        match mode {
            LatchType::Shared => {
                let held = self.cell.acquire_shared();
                self.shared.push(held);
                proof {
                    vstd::std_specs::vec::axiom_spec_len(&self.shared);
                    vstd::std_specs::vec::axiom_spec_len(&old(self).shared);
                    assert forall|i: int| 0 <= i < self.shared@.len() implies (#[trigger] self.shared@[i]).mode()
                        == LatchType::Shared && self.cell.issued(&self.shared@[i]) by {
                        if i < old(self).shared@.len() {
                            assert(self.shared@[i] == old(self).shared@[i]);
                        }
                    }
                }
            },
            LatchType::Upgradable => {
                let held = self.cell.acquire_upgradable();
                self.upgradable = Some(held);
            },
            LatchType::Excl => {
                let held = self.cell.acquire_excl();
                self.exclusive = Some(held);
            },
        }
    }

    /// Gives back a hold of mode `mode`.
    pub fn release(&mut self, mode: LatchType)
        requires
            old(self).wf(),
            old(self)@.holds(mode),
        ensures
            final(self).wf(),
            final(self)@ == old(self)@.without(mode),
    {
        match mode {
            LatchType::Shared => {
                let held = self.shared.pop().unwrap();
                proof {
                    vstd::std_specs::vec::axiom_spec_len(&self.shared);
                    vstd::std_specs::vec::axiom_spec_len(&old(self).shared);
                    assert(held == old(self).shared@[old(self).shared@.len() - 1]);
                    assert forall|i: int| 0 <= i < self.shared@.len() implies (#[trigger] self.shared@[i]).mode()
                        == LatchType::Shared && self.cell.issued(&self.shared@[i]) by {
                        assert(self.shared@[i] == old(self).shared@[i]);
                    }
                }
                self.cell.release_shared(held);
            },
            LatchType::Upgradable => {
                let held = self.upgradable.take().unwrap();
                self.cell.release_upgradable(held);
            },
            LatchType::Excl => {
                let held = self.exclusive.take().unwrap();
                self.cell.release_excl(held);
            },
        }
    }

    /// Turns the upgradable hold into the exclusive one. With shared holds
    /// out the upgrade would wait for them to be given back.
    pub fn upgrade(&mut self)
        requires
            old(self).wf(),
            old(self)@.upgradable,
            old(self)@.shared == 0,
        ensures
            final(self).wf(),
            final(self)@ == old(self)@.upgraded(),
            final(self)@.exclusive,
    {
        let held = self.upgradable.take().unwrap();
        let held = self.cell.upgrade_shared(held);
        self.exclusive = Some(held);
    }
}

/// A hold that is taken and given back leaves the record as it was.
pub proof fn law_hold_given_back(s: LatchState, mode: LatchType)
    requires
        s.consistent(),
        s.admits(mode),
    ensures
        s.with(mode).consistent(),
        s.with(mode).holds(mode),
        s.with(mode).without(mode) == s,
{
}

/// The modes exclude one another as they should: where a hold is out, a
/// request is admitted only if neither is exclusive and not both are
/// upgradable. Shared holds go with shared and upgradable requests, as far as
/// the readers can be counted.
pub proof fn law_modes_exclude(s: LatchState, held: LatchType, wanted: LatchType)
    requires
        s.consistent(),
        s.holds(held),
    ensures
        s.admits(wanted) ==> held != LatchType::Excl && wanted != LatchType::Excl && !(held
            == LatchType::Upgradable && wanted == LatchType::Upgradable),
        held == LatchType::Shared && wanted != LatchType::Excl && !s.upgradable && s.readers()
            < READER_LIMIT ==> s.admits(wanted),
{
}

/// An upgrade keeps every other request out, as an exclusive hold does.
pub proof fn law_upgrade_is_exclusive(s: LatchState, wanted: LatchType)
    requires
        s.consistent(),
        s.upgradable,
        s.shared == 0,
    ensures
        s.upgraded().consistent(),
        s.upgraded().holds(LatchType::Excl),
        !s.upgraded().admits(wanted),
        s.upgraded().without(LatchType::Excl).is_free(),
{
}

} // verus!
