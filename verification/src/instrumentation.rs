//! The shared timing device and its scoped guard.
//!
//! One timing device exists per process, behind a try-only lock: a request
//! may switch it on around rendering, and losing the race for the lock is a
//! normal outcome that must never fail the request. The device is modelled
//! by its two observable bits — whether some other task holds its lock, and
//! whether it is enabled — so the guard's promise, that the device ends up
//! disabled after every scope, is stated and proved over that state.

use vstd::prelude::*;

verus! {

/// The observable state of the shared timing device: whether its lock is
/// held by another task, and whether its signal is enabled.
#[derive(Clone, Copy, PartialEq, Eq, Structural, Debug)]
pub struct Sm2State {
    pub locked: bool,
    pub enabled: bool,
}

/// The process-wide, set-once reference to the timing device: unset at
/// startup, set exactly once during bring-up, then read-only.
pub struct Sm2Handle {
    /// Whether bring-up has installed the device yet.
    pub initialized: bool,
    /// The device itself; meaningless until `initialized`.
    pub sm2: Sm2State,
}

impl Sm2Handle {
    /// The handle as it is at startup: no device installed.
    pub fn new() -> (h: Sm2Handle)
        ensures
            !h.initialized,
            !h.sm2.locked,
            !h.sm2.enabled,
    {
        Sm2Handle { initialized: false, sm2: Sm2State { locked: false, enabled: false } }
    }

    /// Installs the device. Installing it twice is a configuration error
    /// that aborts bring-up, so a second call is ruled out here.
    pub fn set_shared_sm2(&mut self, sm2: Sm2State)
        requires
            !old(self).initialized,
        ensures
            final(self).initialized,
            final(self).sm2 == sm2,
    {
        self.initialized = true;
        self.sm2 = sm2;
    }

    /// Whether the device has been installed and can be acquired.
    pub fn get_shared_sm2(&self) -> (r: bool)
        ensures
            r == self.initialized,
    {
        self.initialized
    }
}

/// What one acquisition attempt does to the device: under contention
/// nothing, otherwise the device is enabled; the second component says
/// whether the attempt succeeded.
pub open spec fn guard_new_spec(s: Sm2State) -> (Sm2State, bool) {
    if s.locked {
        (s, false)
    } else {
        (Sm2State { locked: s.locked, enabled: true }, true)
    }
}

/// What the guard's release does to the device: nothing when the guard
/// never enabled it or when the lock is now contended (a diagnostic-only
/// inconsistency), otherwise the device is disabled.
pub open spec fn guard_release_spec(s: Sm2State, active: bool) -> Sm2State {
    if active && !s.locked {
        Sm2State { locked: s.locked, enabled: false }
    } else {
        s
    }
}

/// The net effect of a whole guard scope — one acquisition attempt, the
/// wrapped work, one release — on the handle.
pub open spec fn guard_scope_spec(h: Sm2Handle) -> Sm2Handle {
    if !h.initialized {
        h
    } else {
        Sm2Handle {
            initialized: h.initialized,
            sm2: guard_release_spec(guard_new_spec(h.sm2).0, guard_new_spec(h.sm2).1),
        }
    }
}

/// A scope that enabled the timing device and owes it a disable: it exists
/// exactly while the device is enabled on the request's behalf.
pub struct Sm2Guard {}

impl Sm2Guard {
    /// Attempts a non-blocking acquisition of the device and enables it.
    /// Under contention no guard is handed out and the device is untouched:
    /// rendering then simply runs without the timing signal.
    pub fn new(sm2: &mut Sm2State) -> (g: Option<Sm2Guard>)
        ensures
            *final(sm2) == guard_new_spec(*old(sm2)).0,
            (g is Some) == guard_new_spec(*old(sm2)).1,
    {
        if sm2.locked {
            None
        } else {
            sm2.enabled = true;
            Some(Sm2Guard {  })
        }
    }

    /// Releases the guard: disables the device it enabled. When the lock is
    /// contended at release time the device is left as it is — an
    /// inconsistency worth a diagnostic, never a request failure.
    pub fn release(self, sm2: &mut Sm2State)
        ensures
            *final(sm2) == guard_release_spec(*old(sm2), true),
    {
        if !sm2.locked {
            sm2.enabled = false;
        }
    }
}

/// A guard scope never leaves the device enabled: whether the acquisition
/// succeeded, lost the race, or found no device installed, a device that was
/// disabled before the scope is disabled after it — in particular also when
/// the wrapped rendering failed, since the release does not depend on the
/// rendering's outcome.
pub proof fn lemma_guard_scope_disabled(h: Sm2Handle)
    requires
        !h.sm2.enabled,
    ensures
        !guard_scope_spec(h).sm2.enabled,
{
}

} // verus!
