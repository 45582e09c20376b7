//! Retirement of outstanding work.
use crate::contexts;
use crate::contexts::CONTEXTS;
use crate::error::Error;
use crate::flights::{Flight, Session};
use crate::lanes::{FirmwareQueues, Stamp};
use crate::ring;
use crate::ring::{CHANNEL_RING, QUEUE_RING};
use crate::slots::without_slot;
use crate::stamp;
use crate::tvb::Tvb;
use vstd::prelude::*;

verus! {

/// Milliseconds without retirement after which the device has failed.
pub const WATCHDOG_MS: u64 = 10000;

/// What the firmware shows of a piece of work.
#[derive(Clone, Copy, Debug)]
pub struct Progress {
    pub stamps: [u32; 2],
    pub driver_stamps: [u32; 2],
    /// Entries that the notifier of the work still has.
    pub submitted: u32,
    /// The two cursors of each of its queues.
    pub queues: [(u32, u32); 2],
    /// The two cursors of each of its channels.
    pub channels: [(u32, u32); 2],
    /// The two cursors and the end of the channel for replies.
    pub replies: (u32, u32, u32),
}

/// A piece of work that has retired.
#[derive(Clone, Copy, Debug, PartialEq, Eq, Structural)]
pub struct Retired {
    pub id: u64,
    pub owner: u64,
    /// Whether it ended because the buffer of its render could not grow.
    pub limited: bool,
}

/// Whether a stamp has come, where one is waited for.
pub open spec fn stamp_done(target: Option<Stamp>, current: u32) -> bool {
    target matches Some(target) ==> stamp::at_or_after(current as int, target.value as int)
}

/// Whether both cursors of a queue have come to a head.
pub open spec fn queue_done(target: Option<(u64, u32)>, seen: (u32, u32)) -> bool {
    target matches Some((_, head)) ==> ring::has_reached(seen.0 as int, head as int, 0x500)
        && ring::has_reached(seen.1 as int, head as int, 0x500)
}

/// Whether both cursors of a channel have come to a place.
pub open spec fn channel_done(target: Option<(usize, u32)>, seen: (u32, u32)) -> bool {
    target matches Some((_, place)) ==> ring::has_reached(seen.0 as int, place as int, 256)
        && ring::has_reached(seen.1 as int, place as int, 256)
}

impl Flight {
    /// Where the notifier of the work counts its entries.
    pub open spec fn notifier_of(self) -> int {
        self.id + if self.render is Some {
            0x294int
        } else {
            0x1494int
        }
    }

    /// Whether the stages have completed.
    pub open spec fn has_stamps(self, seen: Progress) -> bool {
        stamp_done(self.stamps@[0], seen.stamps@[0]) && stamp_done(self.stamps@[1], seen.stamps@[1])
    }

    /// Whether nothing of the work is in use any more: its stages have completed, the notifier pass has
    /// dropped its references and published its own stamps, the queues and channels have been read past
    /// it, and no reply about it is under way.
    pub open spec fn is_done(self, seen: Progress) -> bool {
        &&& self.has_stamps(seen)
        &&& stamp_done(self.driver_stamps@[0], seen.driver_stamps@[0])
        &&& stamp_done(self.driver_stamps@[1], seen.driver_stamps@[1])
        &&& seen.submitted == 0
        &&& queue_done(self.queues@[0], seen.queues@[0])
        &&& queue_done(self.queues@[1], seen.queues@[1])
        &&& channel_done(self.channels@[0], seen.channels@[0])
        &&& channel_done(self.channels@[1], seen.channels@[1])
        &&& self.render is Some ==> seen.replies.0 == seen.replies.2 && seen.replies.1
            == seen.replies.2
    }

    /// Where the notifier of the work counts its entries.
    pub fn notifier(&self) -> (out: u64)
        requires
            self.id + 0x1494 <= u64::MAX,
        ensures
            out == self.notifier_of(),
    {
        if self.render.is_some() {
            self.id + 0x294
        } else {
            self.id + 0x1494
        }
    }

    /// Whether a stamp has come.
    fn check_stamp(target: Option<Stamp>, current: u32) -> (out: bool)
        ensures
            out == stamp_done(target, current),
    {
        match target {
            None => true,
            Some(target) => stamp::reached(current, target.value),
        }
    }

    /// Whether both cursors of a queue have come to a head.
    fn check_queue(target: Option<(u64, u32)>, seen: (u32, u32)) -> (out: bool)
        ensures
            out == queue_done(target, seen),
    {
        match target {
            None => true,
            Some((_, head)) => ring::reached(seen.0, head, QUEUE_RING) && ring::reached(
                seen.1,
                head,
                QUEUE_RING,
            ),
        }
    }

    /// Whether both cursors of a channel have come to a place.
    fn check_channel(target: Option<(usize, u32)>, seen: (u32, u32)) -> (out: bool)
        ensures
            out == channel_done(target, seen),
    {
        match target {
            None => true,
            Some((_, place)) => ring::reached(seen.0, place, CHANNEL_RING) && ring::reached(
                seen.1,
                place,
                CHANNEL_RING,
            ),
        }
    }

    /// Whether the stages have completed.
    pub fn stamps_done(&self, seen: &Progress) -> (out: bool)
        ensures
            out == self.has_stamps(*seen),
    {
        Self::check_stamp(self.stamps[0], seen.stamps[0]) && Self::check_stamp(
            self.stamps[1],
            seen.stamps[1],
        )
    }

    /// Whether the storage of the work can be used again.
    pub fn done(&self, seen: &Progress) -> (out: bool)
        ensures
            out == self.is_done(*seen),
    {
        self.stamps_done(seen) && Self::check_stamp(self.driver_stamps[0], seen.driver_stamps[0])
            && Self::check_stamp(self.driver_stamps[1], seen.driver_stamps[1]) && seen.submitted == 0
            && Self::check_queue(self.queues[0], seen.queues[0]) && Self::check_queue(
            self.queues[1],
            seen.queues[1],
        ) && Self::check_channel(self.channels[0], seen.channels[0]) && Self::check_channel(
            self.channels[1],
            seen.channels[1],
        ) && (self.render.is_none() || (seen.replies.0 == seen.replies.2 && seen.replies.1
            == seen.replies.2))
    }
}

/// The milliseconds that a piece of work has left.
pub open spec fn time_left(started: u64, now: u64) -> int {
    if now <= started {
        10000
    } else if now - started >= 9999 {
        1
    } else {
        10000 - (now - started)
    }
}

/// The least of the milliseconds that the first `n` pieces of work have left.
pub open spec fn least_left(flights: Seq<Flight>, now: u64, n: int) -> int
    decreases n,
{
    if n <= 0 {
        10000
    } else {
        let rest = least_left(flights, now, n - 1);
        let left = time_left(flights[n - 1].started, now);
        if left < rest {
            left
        } else {
            rest
        }
    }
}

/// How many pieces of work use a context.
pub open spec fn using(flights: Seq<Flight>, context: int) -> int
    decreases flights.len(),
{
    if flights.len() == 0 {
        0
    } else {
        using(flights.drop_last(), context) + if flights.last().context == context {
            1int
        } else {
            0
        }
    }
}

/// A piece of work is among those that use its context.
proof fn lemma_using_at(flights: Seq<Flight>, i: int)
    requires
        0 <= i < flights.len(),
    ensures
        using(flights, flights[i].context as int) >= 1,
    decreases flights.len(),
{
    lemma_using_rises(flights.drop_last(), flights[i].context as int);
    if i < flights.len() - 1 {
        lemma_using_at(flights.drop_last(), i);
    }
}

proof fn lemma_using_rises(flights: Seq<Flight>, context: int)
    ensures
        using(flights, context) >= 0,
    decreases flights.len(),
{
    if flights.len() > 0 {
        lemma_using_rises(flights.drop_last(), context);
    }
}

/// Taking a piece of work away takes it from those that use its context.
proof fn lemma_using_removed(flights: Seq<Flight>, i: int, context: int)
    requires
        0 <= i < flights.len(),
    ensures
        using(flights.remove(i), context) == using(flights, context) - if flights[i].context == context {
            1int
        } else {
            0
        },
    decreases flights.len(),
{
    if i == flights.len() - 1 {
        assert(flights.remove(i) =~= flights.drop_last());
    } else {
        assert(flights.remove(i).drop_last() =~= flights.drop_last().remove(i));
        lemma_using_removed(flights.drop_last(), i, context);
    }
}

/// Only the contexts count.
proof fn lemma_using_same(a: Seq<Flight>, b: Seq<Flight>, context: int)
    requires
        a.len() == b.len(),
        forall|i: int| 0 <= i < a.len() ==> (#[trigger] a[i]).context == b[i].context,
    ensures
        using(a, context) == using(b, context),
    decreases a.len(),
{
    if a.len() > 0 {
        assert(a[a.len() - 1].context == b[b.len() - 1].context);
        assert forall|i: int| 0 <= i < a.len() - 1 implies (#[trigger] a.drop_last()[i]).context
            == b.drop_last()[i].context by {
            assert(a[i].context == b[i].context);
        }
        lemma_using_same(a.drop_last(), b.drop_last(), context);
    }
}

impl Session {
    /// What holds of outstanding work: all of it holds a lease of its context, and scenes of renders are
    /// scenes that there are.
    pub open spec fn flights_wf(self) -> bool {
        &&& self.contexts.wf()
        &&& forall|c: int|
            0 <= c < CONTEXTS ==> #[trigger] using(self.flights@, c) <= self.contexts.users@[c]
        &&& forall|i: int|
            0 <= i < self.flights@.len() ==> (#[trigger] self.flights@[i]).context < CONTEXTS && (
            self.flights@[i].render matches Some(render) ==> render.scene < 36)
    }

    /// The place of the buffer of a client.
    pub open spec fn pool_at(self, root: u64, i: int) -> bool {
        &&& 0 <= i < self.tvb_pools@.len()
        &&& self.tvb_pools@[i].root == root
        &&& forall|j: int| 0 <= j < i ==> (#[trigger] self.tvb_pools@[j]).root != root
    }

    /// Finds the buffer of a client.
    pub fn find_pool(&self, root: u64) -> (out: Option<usize>)
        ensures
            match out {
                Some(i) => self.pool_at(root, i as int),
                None => forall|j: int|
                    0 <= j < self.tvb_pools@.len() ==> (#[trigger] self.tvb_pools@[j]).root != root,
            },
    {
        let mut i: usize = 0;
        while i < self.tvb_pools.len()
            invariant
                i <= self.tvb_pools@.len(),
                forall|j: int| 0 <= j < i ==> (#[trigger] self.tvb_pools@[j]).root != root,
            decreases self.tvb_pools@.len() - i,
        {
            if self.tvb_pools[i].root == root {
                return Some(i);
            }
            i += 1;
        }
        None
    }

    /// The first piece of work that has retired.
    pub fn find_retired(&self, seen: &Vec<Progress>) -> (out: Result<Option<usize>, Error>)
        requires
            seen@.len() == self.flights@.len(),
        ensures
            if self.render_failed {
                out == Err::<Option<usize>, Error>(Error::EIO)
            } else {
                match out {
                    Ok(Some(i)) => {
                        &&& i < self.flights@.len()
                        &&& self.flights@[i as int].is_done(seen@[i as int])
                        &&& forall|j: int|
                            0 <= j < i ==> !(#[trigger] self.flights@[j]).is_done(seen@[j])
                    },
                    Ok(None) => forall|j: int|
                        0 <= j < self.flights@.len() ==> !(#[trigger] self.flights@[j]).is_done(
                            seen@[j],
                        ),
                    Err(_) => false,
                }
            },
    {
        if self.render_failed {
            return Err(Error::EIO);
        }
        let mut i: usize = 0;
        while i < self.flights.len()
            invariant
                seen@.len() == self.flights@.len(),
                i <= self.flights@.len(),
                !self.render_failed,
                forall|j: int| 0 <= j < i ==> !(#[trigger] self.flights@[j]).is_done(seen@[j]),
            decreases self.flights@.len() - i,
        {
            if self.flights[i].done(&seen[i]) {
                return Ok(Some(i));
            }
            i += 1;
        }
        Ok(None)
    }

    /// Retires a piece of work: its scene, its context and its storage can be used again, and the other
    /// work gets the whole time of the watchdog. Only retirement does that, so that other traffic cannot
    /// keep a stuck command alive.
    pub fn retire(&mut self, index: usize, now: u64) -> (out: Result<Retired, Error>)
        requires
            old(self).flights_wf(),
            index < old(self).flights@.len(),
        ensures
            ({
                let flight = old(self).flights@[index as int];
                let render = flight.render is Some;
                match out {
                    Err(e) => {
                        &&& e == Error::EIO
                        &&& flight.render matches Some(render) && forall|j: int|
                            0 <= j < old(self).tvb_pools@.len() ==> (#[trigger] old(self).tvb_pools@[j]).root != render.root
                        &&& *final(self) == *old(self)
                    },
                    Ok(retired) => {
                        &&& retired.id == flight.id
                        &&& retired.owner == flight.owner
                        &&& retired.limited == (flight.render matches Some(render)
                            && render.memory_limit)
                        &&& final(self).flights@.len() == old(self).flights@.len() - 1
                        &&& forall|i: int|
                            0 <= i < final(self).flights@.len() ==> (#[trigger] final(self).flights@[i]) == (Flight {
                                started: now,
                                ..old(self).flights@.remove(index as int)[i]
                            })
                        &&& final(self).contexts.roots@ == old(self).contexts.roots@
                        &&& final(self).contexts.users@ == old(self).contexts.users@.update(
                            flight.context as int,
                            (old(self).contexts.users@[flight.context as int] - 1) as u32,
                        )
                        &&& final(self).flights_wf()
                        &&& final(self).works.next == old(self).works.next
                        &&& final(self).works.arena(render).start == old(self).works.arena(render).start
                        &&& final(self).works.arena(render).end == old(self).works.arena(render).end
                        &&& final(self).works.arena(render).free@ == old(self).works.arena(
                            render,
                        ).free@.push(flight.id)
                        &&& final(self).works.arena(!render) == old(self).works.arena(!render)
                        &&& match flight.render {
                            None => final(self).tvb_pools@ == old(self).tvb_pools@,
                            Some(render) => exists|i: int|
                                {
                                    let pool = old(self).tvb_pools@[i];
                                    &&& #[trigger] old(self).pool_at(render.root, i)
                                    &&& final(self).tvb_pools@.len() == old(self).tvb_pools@.len()
                                    &&& final(self).tvb_pools@[i].scenes@ == pool.scenes@.update(
                                        render.scene as int,
                                        false,
                                    )
                                    &&& final(self).tvb_pools@ == old(self).tvb_pools@.update(
                                        i,
                                        (Tvb { scenes: final(self).tvb_pools@[i].scenes, ..pool }),
                                    )
                                },
                        }
                    },
                }
            }),
            *final(self) == (Session {
                flights: final(self).flights,
                contexts: final(self).contexts,
                works: final(self).works,
                tvb_pools: final(self).tvb_pools,
                ..*old(self)
            }),
    {
        let ghost before = *self;
        let flight: Flight = self.flights[index];
        assert(self.flights@[index as int].context < CONTEXTS);
        proof {
            lemma_using_at(self.flights@, index as int);
            assert(using(self.flights@, flight.context as int) <= self.contexts.users@[flight.context as int]);
        }
        let limited: bool = match flight.render {
            None => false,
            Some(render) => {
                match self.find_pool(render.root) {
                    None => {
                        return Err(Error::EIO);
                    },
                    Some(i) => {
                        let mut pool: Tvb = self.tvb_pools[i];
                        pool.release_scene(render.scene);
                        self.tvb_pools[i] = pool;
                        assert(before.pool_at(render.root, i as int));
                    },
                }
                render.memory_limit
            },
        };
        self.contexts.release(flight.context);
        self.flights.remove(index);
        let ghost rest = before.flights@.remove(index as int);
        let mut i: usize = 0;
        let count: usize = self.flights.len();
        let ghost held = *self;
        while i < count
            invariant
                i <= count,
                count == rest.len(),
                self.flights@.len() == rest.len(),
                forall|j: int|
                    0 <= j < i ==> (#[trigger] self.flights@[j]) == (Flight {
                        started: now,
                        ..rest[j]
                    }),
                forall|j: int| i <= j < rest.len() ==> (#[trigger] self.flights@[j]) == rest[j],
                *self == (Session { flights: self.flights, ..held }),
            decreases count - i,
        {
            let mut pending: Flight = self.flights[i];
            pending.started = now;
            self.flights[i] = pending;
            i += 1;
        }
        self.works.give_back(flight.render.is_some(), flight.id);
        proof {
            assert forall|c: int| 0 <= c < CONTEXTS implies #[trigger] using(self.flights@, c)
                <= self.contexts.users@[c] by {
                lemma_using_same(self.flights@, rest, c);
                lemma_using_removed(before.flights@, index as int, c);
                assert(using(before.flights@, c) <= before.contexts.users@[c]);
            }
            assert forall|i: int| 0 <= i < self.flights@.len() implies (
            #[trigger] self.flights@[i]).context < CONTEXTS && (self.flights@[i].render matches Some(
                render,
            ) ==> render.scene < 36) by {
                assert(self.flights@[i].context == rest[i].context);
                assert(self.flights@[i].render == rest[i].render);
                let j = if i < index {
                    i
                } else {
                    i + 1
                };
                assert(rest[i] == before.flights@[j]);
            }
        }
        Ok(Retired { id: flight.id, owner: flight.owner, limited })
    }

    /// Whether some work ran out of time. Queued commands can legitimately wait longer than one command
    /// takes, so this watches for a lack of retirement.
    pub fn expired(&self, now: u64) -> (out: Option<usize>)
        ensures
            match out {
                Some(i) => i < self.flights@.len() && now - self.flights@[i as int].started
                    >= WATCHDOG_MS && forall|j: int|
                    0 <= j < i ==> now - (#[trigger] self.flights@[j]).started < WATCHDOG_MS,
                None => forall|j: int|
                    0 <= j < self.flights@.len() ==> now - (#[trigger] self.flights@[j]).started
                        < WATCHDOG_MS,
            },
    {
        let mut i: usize = 0;
        while i < self.flights.len()
            invariant
                i <= self.flights@.len(),
                forall|j: int|
                    0 <= j < i ==> now - (#[trigger] self.flights@[j]).started < WATCHDOG_MS,
            decreases self.flights@.len() - i,
        {
            let started: u64 = self.flights[i].started;
            if now >= started && now - started >= WATCHDOG_MS {
                return Some(i);
            }
            i += 1;
        }
        None
    }

    /// How long the worker may sleep until some work runs out of time.
    pub fn watchdog_remaining_ms(&self, now: u64) -> (out: u32)
        ensures
            out == least_left(self.flights@, now, self.flights@.len() as int),
            1 <= out <= WATCHDOG_MS,
    {
        let mut out: u32 = 10000;
        let mut i: usize = 0;
        while i < self.flights.len()
            invariant
                i <= self.flights@.len(),
                1 <= out <= WATCHDOG_MS,
                out == least_left(self.flights@, now, i as int),
            decreases self.flights@.len() - i,
        {
            let started: u64 = self.flights[i].started;
            let left: u32 = if now <= started {
                10000
            } else if now - started >= 9999 {
                1
            } else {
                10000 - (now - started) as u32
            };
            if left < out {
                out = left;
            }
            i += 1;
        }
        out
    }
}

impl FirmwareQueues {
    /// Counts a piece of work of this queue as finished. Answers the leased events that are left.
    pub fn complete(&mut self, slots: u64) -> (out: u64)
        requires
            old(self).wf(),
            old(self).pending > 0,
        ensures
            final(self).wf(),
            final(self).pending == old(self).pending - 1,
            *final(self) == (FirmwareQueues {
                pending: final(self).pending,
                events: final(self).events,
                ..*old(self)
            }),
            if final(self).pending == 0 && old(self).events is Some {
                final(self).events is None && out == without_slot(slots, old(self).events->0)
            } else {
                final(self).events == old(self).events && out == slots
            },
    {
        self.pending = self.pending - 1;
        self.settle(slots)
    }
}

/// A lease of a context leaves room for one more piece of work there.
pub proof fn lemma_lease_counts(before: Session, after: Session, slot: int)
    requires
        before.flights_wf(),
        0 <= slot < CONTEXTS,
        after.flights@ == before.flights@,
        after.contexts.wf(),
        after.contexts.users@ == before.contexts.users@.update(
            slot,
            (before.contexts.users@[slot] + 1) as u32,
        ),
        before.contexts.users@[slot] < u32::MAX,
    ensures
        after.flights_wf(),
        using(after.flights@, slot) < after.contexts.users@[slot],
{
    assert forall|c: int| 0 <= c < CONTEXTS implies #[trigger] using(after.flights@, c)
        <= after.contexts.users@[c] by {
        assert(using(before.flights@, c) <= before.contexts.users@[c]);
    }
    assert(using(before.flights@, slot) <= before.contexts.users@[slot]);
}

/// Work that is launched with a leased context keeps what holds of outstanding work.
pub proof fn lemma_launch_counts(before: Session, after: Session)
    requires
        before.flights_wf(),
        after.contexts == before.contexts,
        after.flights@.len() == before.flights@.len() + 1,
        after.flights@.drop_last() == before.flights@,
        after.flights@.last().context < CONTEXTS,
        using(before.flights@, after.flights@.last().context as int)
            < before.contexts.users@[after.flights@.last().context as int],
        after.flights@.last().render matches Some(render) ==> render.scene < 36,
    ensures
        after.flights_wf(),
{
    assert forall|c: int| 0 <= c < CONTEXTS implies #[trigger] using(after.flights@, c)
        <= after.contexts.users@[c] by {
        assert(using(before.flights@, c) <= before.contexts.users@[c]);
    }
    assert forall|i: int| 0 <= i < after.flights@.len() implies (
    #[trigger] after.flights@[i]).context < CONTEXTS && (after.flights@[i].render matches Some(render)
        ==> render.scene < 36) by {
        if i < after.flights@.len() - 1 {
            assert(after.flights@[i] == before.flights@[i]);
        }
    }
}

/// While work is outstanding in a context, no other root is bound to it, and its root is not released.
pub proof fn lemma_outstanding_keeps_root(session: Session, i: int, slot: int, low: u64, preferred: int)
    requires
        session.flights_wf(),
        0 <= i < session.flights@.len(),
        1 <= preferred < CONTEXTS,
        session.contexts.serves(slot, low, preferred),
    ensures
        session.contexts.users@[session.flights@[i].context as int] > 0,
        slot == session.flights@[i].context ==> session.contexts.bound(slot, low),
{
    let used = session.flights@[i].context as int;
    lemma_using_at(session.flights@, i);
    assert(session.flights@[i].context < CONTEXTS);
    assert(using(session.flights@, used) <= session.contexts.users@[used]);
    if !session.contexts.bound(used, low) {
        contexts::lemma_lease_keeps_root(session.contexts, slot, low, preferred, used);
    }
}

/// The worker wakes before any work can have run out of time unnoticed: as long as it sleeps no longer
/// than the watchdog allows, nothing has expired a millisecond before.
pub proof fn lemma_watchdog(flights: Seq<Flight>, now: u64, n: int, i: int)
    requires
        0 <= i < n <= flights.len(),
        flights[i].started <= now,
        now - flights[i].started < WATCHDOG_MS,
    ensures
        now + least_left(flights, now, n) <= flights[i].started + WATCHDOG_MS,
    decreases n,
{
    if i < n - 1 {
        lemma_watchdog(flights, now, n - 1, i);
    }
}

} // verus!
