//! The latch primitive that protects one node's mutable state.
//!
//! A latch is a reader/writer lock held for the duration of one short
//! critical section: any number of shared holders may coexist, an exclusive
//! holder excludes everyone else.  This module models the latch as the state
//! it would have at the instant an acquisition is granted.  An acquisition
//! that could not be granted immediately would block the calling thread; a
//! thread must therefore never re-request a latch it already holds (no
//! re-entrancy), which is expressed here as a precondition: `acquire_shared`
//! demands that no exclusive holder exists, `acquire_exclusive` demands that
//! no holder exists at all.  Upgrading from shared to exclusive is not
//! offered: a holder releases and re-acquires, and revalidates the node's
//! contents afterwards.

use vstd::prelude::*;

verus! {

/// The two modes in which a latch can be requested.
#[derive(Clone, Copy, PartialEq, Eq, Structural)]
pub enum LatchType {
    Shared,
    Exclusive,
}

/// A reader/writer latch, modelled by its holder counts.
pub struct Latch {
    shared_count: usize,
    exclusive: bool,
}

impl Latch {
    /// How many shared holders the latch currently has.
    pub closed spec fn shared_holders(self) -> nat {
        self.shared_count as nat
    }

    /// Whether an exclusive holder currently exists.
    pub closed spec fn is_exclusive(self) -> bool {
        self.exclusive
    }

    /// A latch with no holder of either kind.
    pub open spec fn is_free(self) -> bool {
        !self.is_exclusive() && self.shared_holders() == 0
    }

    /// A latch with at least one holder of either kind.
    pub open spec fn is_held(self) -> bool {
        self.is_exclusive() || self.shared_holders() > 0
    }

    /// The latch is held in the given mode.
    pub open spec fn is_held_as(self, mode: LatchType) -> bool {
        match mode {
            LatchType::Shared => !self.is_exclusive() && self.shared_holders() > 0,
            LatchType::Exclusive => self.is_exclusive(),
        }
    }

    /// A fresh latch, held by nobody.
    pub fn new() -> (l: Latch)
        ensures
            l.is_free(),
    {
        Latch { shared_count: 0, exclusive: false }
    }

    /// Grant a shared acquisition.  Blocks only against an exclusive holder,
    /// so the caller must not already hold this latch exclusively.
    pub fn acquire_shared(&mut self)
        requires
            !old(self).is_exclusive(),
            old(self).shared_holders() < usize::MAX,
        ensures
            !final(self).is_exclusive(),
            final(self).shared_holders() == old(self).shared_holders() + 1,
    {
        self.shared_count = self.shared_count + 1;
    }

    /// Grant an exclusive acquisition.  Blocks until no holder of either
    /// kind remains, so the caller must not already hold this latch.
    pub fn acquire_exclusive(&mut self)
        requires
            old(self).is_free(),
        ensures
            final(self).is_exclusive(),
            final(self).shared_holders() == 0,
    {
        self.exclusive = true;
    }

    /// Grant an acquisition in the given mode.
    pub fn acquire(&mut self, mode: LatchType)
        requires
            mode == LatchType::Shared ==> !old(self).is_exclusive() && old(
                self,
            ).shared_holders() < usize::MAX,
            mode == LatchType::Exclusive ==> old(self).is_free(),
        ensures
            final(self).is_held_as(mode),
            mode == LatchType::Shared ==> final(self).shared_holders() == old(self).shared_holders()
                + 1,
            mode == LatchType::Exclusive ==> final(self).shared_holders() == 0,
    {
        match mode {
            LatchType::Shared => self.acquire_shared(),
            LatchType::Exclusive => self.acquire_exclusive(),
        }
    }

    /// Two latches with no holder are the same latch state.
    pub proof fn lemma_free_unique(a: Latch, b: Latch)
        requires
            a.is_free(),
            b.is_free(),
        ensures
            a == b,
    {
    }

    /// Release one acquisition: the exclusive hold if one exists, otherwise
    /// one shared hold.  The caller must hold the latch.
    pub fn release(&mut self)
        requires
            old(self).is_held(),
        ensures
            old(self).is_exclusive() ==> final(self).is_free(),
            !old(self).is_exclusive() ==> !final(self).is_exclusive(),
            !old(self).is_exclusive() ==> final(self).shared_holders() == old(
                self,
            ).shared_holders() - 1,
    {
        if self.exclusive {
            self.exclusive = false;
            self.shared_count = 0;
        } else {
            self.shared_count = self.shared_count - 1;
        }
    }
}

} // verus!
