//! Wakeups of the submission worker by the firmware and the scheduler.
use crate::error::Error;
use vstd::prelude::*;

verus! {

/// How many notifications there were, and whether the firmware has crashed.
#[derive(Clone, Copy, Debug, PartialEq, Eq, Structural)]
pub struct State {
    pub generation: u64,
    pub crashed: bool,
}

/// What a waiter does next.
#[derive(Clone, Copy, Debug, PartialEq, Eq)]
pub enum Wait {
    /// Sleep for the rest of the timeout.
    Sleep,
    /// Return.
    Done(Result<(), Error>),
}

impl State {
    /// No notification yet.
    pub fn new() -> (out: Self)
        ensures
            out == (State { generation: 0, crashed: false }),
    {
        State { generation: 0, crashed: false }
    }

    /// The state after a notification. A crash is never forgotten.
    pub open spec fn notified(self, crashed: bool) -> Self {
        State {
            generation: ((self.generation + 1) % 0x1_0000_0000_0000_0000) as u64,
            crashed: self.crashed || crashed,
        }
    }

    /// Counts a notification.
    pub fn notify(&mut self, crashed: bool)
        ensures
            *final(self) == old(self).notified(crashed),
    {
        self.crashed = self.crashed || crashed;
        self.generation = self.generation.wrapping_add(1);
    }

    /// The generation to wait on. It is sampled before the firmware or ready jobs are inspected, so
    /// that a notification between that inspection and sleeping causes another inspection.
    pub fn snapshot(&self) -> (out: Result<u64, Error>)
        ensures
            out == if self.crashed {
                Err::<u64, Error>(Error::EIO)
            } else {
                Ok(self.generation)
            },
    {
        if self.crashed {
            return Err(Error::EIO);
        }
        Ok(self.generation)
    }

    /// What a waiter on a generation does when it is woken.
    pub open spec fn decision(self, generation: u64, timed_out: bool) -> Wait {
        if self.crashed {
            Wait::Done(Err(Error::EIO))
        } else if self.generation != generation {
            Wait::Done(Ok(()))
        } else if timed_out {
            Wait::Done(Err(Error::ETIMEDOUT))
        } else {
            Wait::Sleep
        }
    }

    /// What a waiter on a generation does: it sleeps until the generation changes, the firmware
    /// crashes or the progress watchdog expires. Spurious wakeups keep the remaining timeout.
    pub fn wait(&self, generation: u64, timed_out: bool) -> (out: Wait)
        ensures
            out == self.decision(generation, timed_out),
    {
        if self.generation == generation && !self.crashed {
            if timed_out {
                Wait::Done(Err(Error::ETIMEDOUT))
            } else {
                Wait::Sleep
            }
        } else if self.crashed {
            Wait::Done(Err(Error::EIO))
        } else {
            Wait::Done(Ok(()))
        }
    }
}

/// The state after a number of notifications.
pub open spec fn after(state: State, crashes: Seq<bool>) -> State
    decreases crashes.len(),
{
    if crashes.len() == 0 {
        state
    } else {
        after(state, crashes.drop_last()).notified(crashes.last())
    }
}

/// Notifications count up, modulo the range of the counter.
proof fn lemma_after_counts(state: State, crashes: Seq<bool>)
    ensures
        after(state, crashes).generation == (state.generation + crashes.len())
            % 0x1_0000_0000_0000_0000,
    decreases crashes.len(),
{
    if crashes.len() > 0 {
        lemma_after_counts(state, crashes.drop_last());
    }
}

/// No notification is lost: a waiter on a snapshot does not sleep if anything was notified since,
/// whether before or after it began to wait.
pub proof fn lemma_no_lost_wakeup(state: State, crashes: Seq<bool>, timed_out: bool)
    requires
        !state.crashed,
        0 < crashes.len() < 0x1_0000_0000_0000_0000,
    ensures
        after(state, crashes).decision(state.generation, timed_out) is Done,
        after(state, crashes).decision(state.generation, timed_out) != Wait::Done(
            Err(Error::ETIMEDOUT),
        ),
{
    lemma_after_counts(state, crashes);
}

/// A crash is reported to every waiter from then on.
pub proof fn lemma_crash_is_reported(state: State, crashes: Seq<bool>, generation: u64, timed_out: bool)
    requires
        state.crashed || crashes.contains(true),
    ensures
        after(state, crashes).decision(generation, timed_out) == Wait::Done(Err(Error::EIO)),
    decreases crashes.len(),
{
    if crashes.len() > 0 {
        let rest = crashes.drop_last();
        if !crashes.last() && !state.crashed {
            let k = choose|k: int| 0 <= k < crashes.len() && crashes[k] == true;
            assert(rest[k]);
            assert(rest.contains(true));
        }
        if state.crashed || rest.contains(true) {
            lemma_crash_is_reported(state, rest, generation, timed_out);
        }
    }
}

} // verus!
