//! The two locks: one that serialises writers, one that serialises commits.
//!
//! Each is a semaphore that every process finds by the store's path, and that
//! the kernel releases when a process dies holding it. Taking and releasing a
//! lock is a series of calls whose outcomes decide what comes next.

use vstd::prelude::*;

use crate::consts::{COMMIT_IPC_KEY, IPC_KEY};

verus! {

/// What taking or releasing a lock is to do next.
#[derive(Clone, Copy, Debug, PartialEq, Eq, Structural)]
pub enum LockStep {
    /// Derive the semaphore's key from the store's path.
    Key,
    /// Create the semaphore, unless it exists.
    Create,
    /// Set the semaphore that was just created to one.
    Init,
    /// Remove the semaphore that was just created.
    Destroy,
    /// Look up the semaphore that another process created. If it has not been
    /// set yet, waiting for it waits for that too.
    Open,
    /// Take one from the semaphore.
    Wait,
    /// Nothing: the lock is held.
    Held,
    /// Give one to the semaphore.
    Post,
    /// Nothing: the lock is not held.
    Free,
}

/// What came of such a call.
#[derive(Clone, Copy, Debug, PartialEq, Eq, Structural)]
pub enum Outcome {
    Done,
    /// There is such a semaphore already.
    Exists,
    /// A signal came first.
    Interrupted,
    Failed,
}

/// A lock that is being taken, is held, or is being released.
#[derive(Debug)]
pub struct Guard {
    proj: i32,
    at: LockStep,
}

/// What comes after a step.
///
/// A wait that a signal interrupts is made again, and so is a release: a
/// process that gets signals all the time would otherwise fail to set a
/// variable for no reason that it knows of.
pub open spec fn lock_next(at: LockStep, outcome: Outcome) -> LockStep {
    match at {
        LockStep::Key => if outcome == Outcome::Done {
            LockStep::Create
        } else {
            LockStep::Free
        },
        LockStep::Create => match outcome {
            Outcome::Done => LockStep::Init,
            Outcome::Exists => LockStep::Open,
            _ => LockStep::Free,
        },
        LockStep::Init => if outcome == Outcome::Done {
            LockStep::Wait
        } else {
            LockStep::Destroy
        },
        LockStep::Destroy => LockStep::Free,
        LockStep::Open => if outcome == Outcome::Done {
            LockStep::Wait
        } else {
            LockStep::Free
        },
        LockStep::Wait => match outcome {
            Outcome::Done => LockStep::Held,
            Outcome::Interrupted => LockStep::Wait,
            _ => LockStep::Free,
        },
        LockStep::Held => LockStep::Post,
        LockStep::Post => if outcome == Outcome::Interrupted {
            LockStep::Post
        } else {
            LockStep::Free
        },
        LockStep::Free => LockStep::Free,
    }
}

impl Guard {
    /// The number that tells this lock's semaphore from the other's.
    pub closed spec fn proj_spec(self) -> i32 {
        self.proj
    }

    /// What is to be done.
    pub closed spec fn at(self) -> LockStep {
        self.at
    }

    /// Starts to take the writer lock. A caller that does not get it has to
    /// fail rather than go on without it.
    pub fn acquire() -> (g: Guard)
        ensures
            g.proj_spec() == IPC_KEY,
            g.at() == LockStep::Key,
    {
        Guard { proj: IPC_KEY, at: LockStep::Key }
    }

    /// Starts to take the commit lock, which is held for the whole of a commit.
    pub fn acquire_commit() -> (g: Guard)
        ensures
            g.proj_spec() == COMMIT_IPC_KEY,
            g.at() == LockStep::Key,
    {
        Guard { proj: COMMIT_IPC_KEY, at: LockStep::Key }
    }

    /// The number that tells this lock's semaphore from the other's.
    pub fn proj(&self) -> (r: i32)
        ensures
            r == self.proj_spec(),
    {
        self.proj
    }

    /// What to do now.
    pub fn now(&self) -> (r: LockStep)
        ensures
            r == self.at(),
    {
        self.at
    }

    /// Starts to release a lock that is held.
    pub fn release(&mut self)
        requires
            old(self).at() == LockStep::Held,
        ensures
            final(self).at() == LockStep::Post,
            final(self).proj_spec() == old(self).proj_spec(),
    {
        self.at = LockStep::Post;
    }

    /// Takes the outcome of the current step, and says what to do next.
    pub fn step(&mut self, outcome: Outcome) -> (r: LockStep)
        requires
            old(self).at() != LockStep::Held,
        ensures
            final(self).at() == lock_next(old(self).at(), outcome),
            final(self).proj_spec() == old(self).proj_spec(),
            r == final(self).at(),
    {
        let done = match outcome {
            Outcome::Done => true,
            _ => false,
        };
        self.at = match self.at {
            LockStep::Key => if done {
                LockStep::Create
            } else {
                LockStep::Free
            },
            LockStep::Create => match outcome {
                Outcome::Done => LockStep::Init,
                Outcome::Exists => LockStep::Open,
                _ => LockStep::Free,
            },
            LockStep::Init => if done {
                LockStep::Wait
            } else {
                LockStep::Destroy
            },
            LockStep::Destroy => LockStep::Free,
            LockStep::Open => if done {
                LockStep::Wait
            } else {
                LockStep::Free
            },
            LockStep::Wait => match outcome {
                Outcome::Done => LockStep::Held,
                Outcome::Interrupted => LockStep::Wait,
                _ => LockStep::Free,
            },
            LockStep::Held => LockStep::Post,
            LockStep::Post => match outcome {
                Outcome::Interrupted => LockStep::Post,
                _ => LockStep::Free,
            },
            LockStep::Free => LockStep::Free,
        };
        self.at
    }
}

/// Where a series of outcomes leads.
pub open spec fn lock_run(at: LockStep, outcomes: Seq<Outcome>) -> LockStep
    decreases outcomes.len(),
{
    if outcomes.len() == 0 {
        at
    } else {
        lock_next(lock_run(at, outcomes.drop_last()), outcomes.last())
    }
}

/// Taking a lock survives any number of signals.
pub proof fn law_signals_do_not_fail_a_lock(outcomes: Seq<Outcome>)
    requires
        forall|k: int| 0 <= k < outcomes.len() ==> #[trigger] outcomes[k] == Outcome::Interrupted,
    ensures
        lock_run(LockStep::Wait, outcomes) == LockStep::Wait,
        lock_run(LockStep::Wait, outcomes.push(Outcome::Done)) == LockStep::Held,
        lock_run(LockStep::Post, outcomes) == LockStep::Post,
        lock_run(LockStep::Post, outcomes.push(Outcome::Done)) == LockStep::Free,
    decreases outcomes.len(),
{
    assert(outcomes.push(Outcome::Done).drop_last() =~= outcomes);
    if outcomes.len() > 0 {
        let rest = outcomes.drop_last();
        assert forall|k: int| 0 <= k < rest.len() implies #[trigger] rest[k]
            == Outcome::Interrupted by {
            assert(rest[k] == outcomes[k]);
        }
        law_signals_do_not_fail_a_lock(rest);
        assert(outcomes[outcomes.len() - 1] == Outcome::Interrupted);
    }
}

/// A lock is held only right after one was taken from its semaphore.
pub proof fn law_held_after_wait(at: LockStep, outcome: Outcome)
    requires
        lock_next(at, outcome) == LockStep::Held,
    ensures
        at == LockStep::Wait && outcome == Outcome::Done,
{
}

/// A lock is taken if nothing fails: by creating the semaphore and setting it, or
/// by opening the one that is there, and then by waiting for it, through any
/// number of signals.
pub proof fn law_lock_is_taken(created: bool, signals: Seq<Outcome>)
    requires
        forall|k: int| 0 <= k < signals.len() ==> #[trigger] signals[k] == Outcome::Interrupted,
    ensures
        ({
            let front = seq![
                Outcome::Done,
                if created {
                    Outcome::Done
                } else {
                    Outcome::Exists
                },
                Outcome::Done,
            ];
            &&& lock_run(LockStep::Key, front) == LockStep::Wait
            &&& lock_run(lock_run(LockStep::Key, front), signals.push(Outcome::Done))
                == LockStep::Held
            &&& lock_run(LockStep::Key, front.take(1)) == LockStep::Create
            &&& lock_run(LockStep::Key, front.take(2)) == if created {
                LockStep::Init
            } else {
                LockStep::Open
            }
        }),
{
    let front = seq![
        Outcome::Done,
        if created {
            Outcome::Done
        } else {
            Outcome::Exists
        },
        Outcome::Done,
    ];
    reveal_with_fuel(lock_run, 4);
    assert(front.drop_last() =~= front.take(2));
    assert(front.take(2).drop_last() =~= front.take(1));
    assert(front.take(1).drop_last() =~= Seq::<Outcome>::empty());
    law_signals_do_not_fail_a_lock(signals);
}

/// A lock that cannot be had is not held: any other outcome of a call than the
/// one asked for ends the attempt, a signal while waiting aside. A semaphore that
/// was created and could not be set is removed. A release ends it too, unless a
/// signal came first.
pub proof fn law_lock_fails(at: LockStep, outcome: Outcome)
    requires
        outcome != Outcome::Done,
        !(at == LockStep::Create && outcome == Outcome::Exists),
        !(outcome == Outcome::Interrupted && (at == LockStep::Wait || at == LockStep::Post)),
        at != LockStep::Held,
    ensures
        at == LockStep::Init ==> lock_next(at, outcome) == LockStep::Destroy,
        at != LockStep::Init ==> lock_next(at, outcome) == LockStep::Free,
        lock_next(LockStep::Destroy, outcome) == LockStep::Free,
        lock_next(LockStep::Destroy, Outcome::Done) == LockStep::Free,
        lock_next(LockStep::Post, Outcome::Done) == LockStep::Free,
{
}

} // verus!
