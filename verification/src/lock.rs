//! Spin mutex on a single word: 0 = unlocked, 1 = locked.
//!
//! On the machine, `try_lock` is an atomic swap-with-acquire and `unlock` an
//! atomic store-of-zero with release semantics. The model keeps the lock word
//! as plain state and gives each operation its exact transition, so that every
//! kernel path that takes a lock is held to the same discipline the hardware
//! word enforces.

use vstd::prelude::*;

verus! {

#[derive(Clone, Copy, PartialEq, Eq, Structural)]
enum MutexState {
    Unlocked,
    Locked,
}

/// A one-word spin lock, safe to copy into zero-initialized arrays
/// (one per hart for the ready queues).
#[derive(Clone, Copy)]
pub struct Mutex {
    state: MutexState,
}

impl Mutex {
    /// Whether the lock word currently reads as locked.
    pub closed spec fn is_locked(self) -> bool {
        self.state == MutexState::Locked
    }

    /// What `try_lock` returns: it acquires exactly when the swapped-out
    /// word was unlocked.
    pub open spec fn try_lock_acquires(pre: Mutex) -> bool {
        !pre.is_locked()
    }

    pub fn new() -> (m: Mutex)
        ensures
            !m.is_locked(),
    {
        Mutex { state: MutexState::Unlocked }
    }

    /// Try to lock the mutex. True if acquired, false otherwise.
    /// The swap leaves the word locked either way.
    pub fn try_lock(&mut self) -> (acquired: bool)
        ensures
            acquired == Mutex::try_lock_acquires(*old(self)),
            final(self).is_locked(),
    {
        let was_locked = self.state;
        self.state = MutexState::Locked;
        match was_locked {
            MutexState::Locked => false,
            MutexState::Unlocked => true,
        }
    }

    /// Spin until the lock is acquired. In this sequential model no other
    /// hart can hold the word, so the spin is only admitted on an unlocked
    /// mutex, where the first swap succeeds.
    pub fn spin_lock(&mut self)
        requires
            !old(self).is_locked(),
        ensures
            final(self).is_locked(),
    {
        let mut acquired = self.try_lock();
        while !acquired
            invariant
                acquired,
                self.is_locked(),
            decreases 0int,
        {
            acquired = self.try_lock();
        }
    }

    /// Release the lock: an unconditional store of 0.
    pub fn unlock(&mut self)
        ensures
            !final(self).is_locked(),
    {
        self.state = MutexState::Unlocked;
    }
}

/// An unlocked mutex is the zero word: two of them are the same value.
pub proof fn lemma_unlocked_eq(a: Mutex, b: Mutex)
    requires
        !a.is_locked(),
        !b.is_locked(),
    ensures
        a == b,
{
}

/// Law: between two successive `unlock` calls, `try_lock` returns true
/// exactly once.
///
/// `states` are the lock words seen by consecutive `try_lock` attempts:
/// `states[0]` is the word right after an `unlock`, and each following word
/// is the post-state of the previous attempt, which `try_lock` always leaves
/// locked. The first attempt acquires; no later attempt does until the next
/// `unlock`.
pub proof fn lemma_try_lock_exactly_once(states: Seq<Mutex>)
    requires
        states.len() >= 1,
        !states[0].is_locked(),
        forall|i: int| 0 <= i < states.len() - 1 ==> #[trigger] states[i + 1].is_locked(),
    ensures
        Mutex::try_lock_acquires(states[0]),
        forall|i: int| 1 <= i < states.len() ==> !Mutex::try_lock_acquires(#[trigger] states[i]),
{
    assert forall|i: int| 1 <= i < states.len() implies !Mutex::try_lock_acquires(states[i]) by {
        assert(states[(i - 1) + 1].is_locked());
    }
}

} // verus!
