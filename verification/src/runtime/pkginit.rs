//! One-time package initialization: a slot that runs its initializer
//! the first time it is asked and never again.
use vstd::prelude::*;

verus! {

/// `init()` has never been called.
pub const UNINIT: u8 = 0;
/// `init()` is running.
pub const IN_PROGRESS: u8 = 1;
/// `init()` has completed.
pub const DONE: u8 = 2;

/// Per-package init state. The initializer borrows nothing of the slot,
/// so it cannot re-enter it: a slot is only ever uninitialized or done
/// between calls.
pub struct PkgInit {
    state: u8,
    name: &'static str,
}

impl PkgInit {
    #[verifier::type_invariant]
    spec fn inv(self) -> bool {
        self.state == UNINIT || self.state == DONE
    }

    /// The current state.
    pub closed spec fn spec_state(self) -> u8 {
        self.state
    }

    /// The package name the slot was made for.
    pub closed spec fn spec_name(self) -> &'static str {
        self.name
    }

    /// `new` — a fresh, uninitialized slot.
    pub fn new(name: &'static str) -> (r: Self)
        ensures
            r.spec_state() == UNINIT,
            r.spec_name() == name,
    {
        PkgInit { state: UNINIT, name }
    }

    /// `state` — the current state.
    pub fn state(&self) -> (r: u8)
        ensures
            r == self.spec_state(),
            r == UNINIT || r == DONE,
    {
        proof {
            use_type_invariant(self);
        }
        self.state
    }

    /// `is_done` — has the initializer finished?
    pub fn is_done(&self) -> (r: bool)
        ensures
            r == (self.spec_state() == DONE),
    {
        self.state == DONE
    }

    /// `run_once` — run `f` unless it already ran; afterwards the slot
    /// is done. A slot that is already done never calls `f`, so nothing
    /// is asked of `f` then.
    pub fn run_once<F: FnOnce()>(&mut self, f: F)
        requires
            old(self).spec_state() != DONE ==> f.requires(()),
        ensures
            final(self).spec_state() == DONE,
            final(self).spec_name() == old(self).spec_name(),
            old(self).spec_state() != DONE ==> f.ensures((), ()),
    {
        proof {
            use_type_invariant(&*self);
        }
        if self.state == DONE {
            return;
        }
        f();
        self.state = DONE;
    }
}

} // verus!
