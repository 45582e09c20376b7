//! Outstanding work: admission, publication and retirement.
use crate::contexts::Contexts;
use crate::error::Error;
use crate::fw::Channel;
use crate::lanes::{FirmwareQueues, Lane, Stamp};
use crate::queue;
use crate::render;
use crate::ring;
use crate::ring::{ring_room, CHANNEL_RING, QUEUE_RING};
use crate::timestamps::Timestamps;
use crate::tvb::Tvb;
use crate::works::Works;
use vstd::prelude::*;

verus! {

/// Number of submission channels: three for each of four priorities.
pub const CHANNELS: usize = 12;

/// What is kept of a render until it retires.
#[derive(Clone, Copy, Debug)]
pub struct RenderFlight {
    pub addresses: render::Addresses,
    pub root: u64,
    pub memory_limit: bool,
    pub scene: u32,
}

/// A published piece of work.
#[derive(Clone, Copy, Debug)]
pub struct Flight {
    /// The address of the work, which identifies it.
    pub id: u64,
    /// The public queue that it came from.
    pub owner: u64,
    pub context: u32,
    /// The time in milliseconds of its start, or of the last retirement after that.
    pub started: u64,
    pub stamps: [Option<Stamp>; 2],
    pub driver_stamps: [Option<Stamp>; 2],
    /// The cursors of its queues, and where they have to come.
    pub queues: [Option<(u64, u32)>; 2],
    /// Its channels, and where their cursors have to come.
    pub channels: [Option<(usize, u32)>; 2],
    pub render: Option<RenderFlight>,
}

/// One channel message for all staged commands of a firmware queue. Its epoch does not change while the
/// head advances, so that every piece of work knows when its transport has retired before the message
/// is published.
#[derive(Clone, Copy, Debug)]
pub struct Publication {
    pub channel: usize,
    pub epoch: u32,
    pub lane: Lane,
    pub event: u32,
    pub sequence: u64,
}

/// A running device.
pub struct Session {
    /// Set while a publication is incomplete, and for good after one failed.
    pub render_failed: bool,
    pub works: Works,
    pub contexts: Contexts,
    pub timestamps: Timestamps,
    pub tvb_pools: Vec<Tvb>,
    pub flights: Vec<Flight>,
    pub publications: Vec<Publication>,
    /// Leased triples of events.
    pub queue_events: u64,
    /// Leased support objects.
    pub render_support: u64,
    pub render_publication: u64,
    pub compute_publication: u64,
    pub batch_works: u64,
    pub opening_notification_pending: bool,
}

/// Why work is not admitted. All but the first two go away when other work retires.
#[derive(Clone, Copy, Debug, PartialEq, Eq, Structural)]
pub enum Refusal {
    /// The device has failed.
    Failed,
    /// A cursor is outside its ring.
    Cursor,
    /// All contexts are in use.
    Contexts,
    /// The channel's ring is full.
    Channel,
    /// The queue's ring is full.
    Workqueue,
}

impl Refusal {
    /// The error that a refusal is answered with.
    pub fn error(&self) -> (out: Error)
        ensures
            out == match *self {
                Refusal::Failed => Error::EIO,
                Refusal::Cursor => Error::EIO,
                Refusal::Contexts => Error::EBUSY,
                Refusal::Channel => Error::EBUSY,
                Refusal::Workqueue => Error::EBUSY,
            },
    {
        match self {
            Refusal::Failed => Error::EIO,
            Refusal::Cursor => Error::EIO,
            Refusal::Contexts => Error::EBUSY,
            Refusal::Channel => Error::EBUSY,
            Refusal::Workqueue => Error::EBUSY,
        }
    }
}

/// The cursors of a channel, and those of a queue where it exists.
#[derive(Clone, Copy, Debug, PartialEq, Eq)]
pub struct Cursors {
    pub read: u32,
    pub done: u32,
    pub tail: u32,
    pub lane_read: u32,
    pub lane_done: u32,
}

/// The number of publications among the first `n` on a channel.
pub open spec fn staged_on(publications: Seq<Publication>, channel: usize, n: int) -> int
    decreases n,
{
    if n <= 0 {
        0
    } else {
        staged_on(publications, channel, n - 1) + if publications[n - 1].channel == channel {
            1int
        } else {
            0
        }
    }
}

/// Whether a publication of a queue is staged at a place, and none before it.
pub open spec fn staged_at(publications: Seq<Publication>, queue: u64, i: int) -> bool {
    &&& 0 <= i < publications.len()
    &&& publications[i].lane.queue == queue
    &&& forall|j: int| 0 <= j < i ==> (#[trigger] publications[j]).lane.queue != queue
}

/// Whether a publication of a queue is staged.
pub open spec fn is_staged(publications: Seq<Publication>, queue: u64) -> bool {
    exists|i: int| #[trigger] staged_at(publications, queue, i)
}

/// Staging the head of a queue: a staged message of the queue takes the new head along; without one, a
/// message is added at the end of its channel.
pub open spec fn staging(
    before: Seq<Publication>,
    after: Seq<Publication>,
    channel: usize,
    lane: Lane,
    event: u32,
    sequence: u64,
    tail: u32,
    out: Result<u32, Error>,
) -> bool {
    if is_staged(before, lane.queue) {
        exists|i: int|
            {
                let p = before[i];
                &&& #[trigger] staged_at(before, lane.queue, i)
                &&& out == Ok::<u32, Error>(p.epoch)
                &&& after == before.update(
                    i,
                    (Publication { lane: (Lane { head: lane.head, ..p.lane }), sequence, ..p }),
                )
            }
    } else if tail >= 256 {
        out == Err::<u32, Error>(Error::EIO) && after == before
    } else {
        let staged = staged_on(before, channel, before.len() as int);
        let epoch = ((tail + staged) % 256) as u32;
        &&& out == Ok::<u32, Error>(epoch)
        &&& after == before.push((Publication { channel, epoch, lane, event, sequence }))
    }
}

/// Whether some outstanding work waits for a place of a channel that is not behind `next`.
pub open spec fn overtakes(flights: Seq<Flight>, channel: usize, next: int) -> bool {
    exists|i: int, k: int|
        0 <= i < flights.len() && 0 <= k < 2 && #[trigger] waits_past(flights[i].channels@[k], channel, next)
}

/// Whether a place of a channel has not been reached by `next`.
pub open spec fn waits_past(place: Option<(usize, u32)>, channel: usize, next: int) -> bool {
    place matches Some((c, target)) && c == channel && !ring::has_reached(next, target as int, 256)
}

impl Publication {
    /// What holds of every publication.
    pub open spec fn wf(self) -> bool {
        self.channel < CHANNELS && self.epoch < 256 && self.lane.wf()
    }
}

impl Session {
    /// What holds of the publications.
    pub open spec fn staged_wf(self) -> bool {
        &&& self.publications@.len() <= 0x1000_0000
        &&& forall|i: int| 0 <= i < self.publications@.len() ==> (#[trigger] self.publications@[i]).wf()
    }

    /// Why a stage of some work is not admitted, if it is not.
    pub open spec fn stage_refusal(
        self,
        queue: FirmwareQueues,
        stage: int,
        entries: u32,
        seen: Cursors,
    ) -> Option<Refusal> {
        let channel = (queue.priority * 3 + stage) as usize;
        let staged = staged_on(self.publications@, channel, self.publications@.len() as int);
        let fresh: int = if queue.lanes is Some && is_staged(
            self.publications@,
            queue.lanes->0@[stage].queue,
        ) {
            0
        } else {
            1
        };
        let lane = queue.lanes->0@[stage];
        if seen.read >= 256 || seen.done >= 256 || seen.tail >= 256 {
            Some(Refusal::Cursor)
        } else if !ring::has_room(
            (seen.tail + staged) % 256,
            seen.read as int,
            seen.done as int,
            fresh,
            256,
        ) || overtakes(self.flights@, channel, (seen.tail + staged + fresh) % 256) {
            Some(Refusal::Channel)
        } else if queue.lanes is None {
            None
        } else if seen.lane_read >= 0x500 || seen.lane_done >= 0x500 || lane.head >= 0x500 {
            Some(Refusal::Cursor)
        } else if !ring::has_room(
            lane.head as int,
            seen.lane_read as int,
            seen.lane_done as int,
            entries as int,
            0x500,
        ) {
            Some(Refusal::Workqueue)
        } else {
            None
        }
    }

    /// Why some work is not admitted, if it is not.
    pub open spec fn refusal(
        self,
        queue: FirmwareQueues,
        render: bool,
        root: u64,
        entries: Seq<u32>,
        seen: Seq<Cursors>,
    ) -> Option<Refusal> {
        if self.render_failed {
            Some(Refusal::Failed)
        } else if !self.contexts.has_context(root) {
            Some(Refusal::Contexts)
        } else if !render {
            self.stage_refusal(queue, 2, entries[2], seen[2])
        } else if self.stage_refusal(queue, 0, entries[0], seen[0]) is Some {
            self.stage_refusal(queue, 0, entries[0], seen[0])
        } else {
            self.stage_refusal(queue, 1, entries[1], seen[1])
        }
    }

    /// The number of publications on a channel.
    fn staged(&self, channel: usize) -> (out: u32)
        requires
            self.staged_wf(),
        ensures
            out == staged_on(self.publications@, channel, self.publications@.len() as int),
            out <= 0x1000_0000,
    {
        let mut out: u32 = 0;
        let mut i: usize = 0;
        while i < self.publications.len()
            invariant
                self.staged_wf(),
                i <= self.publications@.len(),
                out <= i,
                out == staged_on(self.publications@, channel, i as int),
            decreases self.publications@.len() - i,
        {
            if self.publications[i].channel == channel {
                out += 1;
            }
            i += 1;
        }
        out
    }

    /// The place of the publication of a queue.
    fn find_staged(&self, queue: u64) -> (out: Option<usize>)
        ensures
            match out {
                Some(i) => staged_at(self.publications@, queue, i as int),
                None => !is_staged(self.publications@, queue),
            },
    {
        let mut i: usize = 0;
        while i < self.publications.len()
            invariant
                i <= self.publications@.len(),
                forall|j: int|
                    0 <= j < i ==> (#[trigger] self.publications@[j]).lane.queue != queue,
            decreases self.publications@.len() - i,
        {
            if self.publications[i].lane.queue == queue {
                assert(staged_at(self.publications@, queue, i as int));
                return Some(i);
            }
            i += 1;
        }
        None
    }

    /// Whether some outstanding work waits for a place of a channel that is not behind `next`.
    fn overtakes(&self, channel: usize, next: u32) -> (out: bool)
        ensures
            out == overtakes(self.flights@, channel, next as int),
    {
        let mut i: usize = 0;
        while i < self.flights.len()
            invariant
                i <= self.flights@.len(),
                forall|j: int, k: int|
                    0 <= j < i && 0 <= k < 2 ==> !#[trigger] waits_past(
                        self.flights@[j].channels@[k],
                        channel,
                        next as int,
                    ),
            decreases self.flights@.len() - i,
        {
            let channels: [Option<(usize, u32)>; 2] = self.flights[i].channels;
            let mut k: usize = 0;
            while k < 2
                invariant
                    k <= 2,
                    i < self.flights@.len(),
                    channels == self.flights@[i as int].channels,
                    forall|j: int|
                        0 <= j < k ==> !#[trigger] waits_past(channels@[j], channel, next as int),
                decreases 2 - k,
            {
                if let Some((c, target)) = channels[k] {
                    if c == channel && !ring::reached(next, target, CHANNEL_RING) {
                        assert(waits_past(
                            self.flights@[i as int].channels@[k as int],
                            channel,
                            next as int,
                        ));
                        return true;
                    }
                }
                assert(!waits_past(channels@[k as int], channel, next as int));
                k += 1;
            }
            i += 1;
        }
        false
    }

    /// Whether a stage of some work is admitted.
    fn admit_stage(&self, queue: &FirmwareQueues, stage: usize, entries: u32, seen: &Cursors) -> (out: Result<
        (),
        Refusal,
    >)
        requires
            self.staged_wf(),
            queue.priority <= 3,
            stage < 3,
        ensures
            match out {
                Ok(_) => self.stage_refusal(*queue, stage as int, entries, *seen) is None,
                Err(e) => self.stage_refusal(*queue, stage as int, entries, *seen) == Some(e),
            },
    {
        let channel: usize = queue.priority as usize * 3 + stage;
        if seen.read >= 256 || seen.done >= 256 || seen.tail >= 256 {
            return Err(Refusal::Cursor);
        }
        let staged: u32 = self.staged(channel);
        let fresh: u32 = match queue.lanes {
            None => 1,
            Some(lanes) => match self.find_staged(lanes[stage].queue) {
                Some(_) => 0,
                None => 1,
            },
        };
        if !ring_room((seen.tail + staged) % 256, seen.read, seen.done, fresh, CHANNEL_RING) {
            return Err(Refusal::Channel);
        }
        // This bounds the messages of a channel, not the work that shares one message.
        if self.overtakes(channel, (seen.tail + staged + fresh) % 256) {
            return Err(Refusal::Channel);
        }
        match queue.lanes {
            None => Ok(()),
            Some(lanes) => {
                let lane: Lane = lanes[stage];
                if seen.lane_read >= 0x500 || seen.lane_done >= 0x500 || lane.head >= 0x500 {
                    return Err(Refusal::Cursor);
                }
                if !ring_room(lane.head, seen.lane_read, seen.lane_done, entries, QUEUE_RING) {
                    return Err(Refusal::Workqueue);
                }
                Ok(())
            },
        }
    }

    /// Whether some work is admitted. Scarce resources are checked before storage is taken. A root that
    /// is bound already shares its context.
    pub fn reserve_flight(
        &self,
        queue: &FirmwareQueues,
        render: bool,
        root: u64,
        entries: &[u32; 3],
        seen: &[Cursors; 3],
    ) -> (out: Result<(), Refusal>)
        requires
            self.staged_wf(),
            self.contexts.wf(),
            queue.priority <= 3,
        ensures
            match out {
                Ok(_) => self.refusal(*queue, render, root, entries@, seen@) is None,
                Err(e) => self.refusal(*queue, render, root, entries@, seen@) == Some(e),
            },
    {
        if self.render_failed {
            return Err(Refusal::Failed);
        }
        if !self.contexts.available(root) {
            return Err(Refusal::Contexts);
        }
        if !render {
            return self.admit_stage(queue, 2, entries[2], &seen[2]);
        }
        match self.admit_stage(queue, 0, entries[0], &seen[0]) {
            Err(e) => Err(e),
            Ok(()) => self.admit_stage(queue, 1, entries[1], &seen[1]),
        }
    }

    /// Stages the head of a queue. Several pieces of work share one channel message. Answers the epoch
    /// of the message.
    pub fn stage_queue(&mut self, channel: usize, lane: Lane, event: u32, sequence: u64, tail: u32) -> (out:
        Result<u32, Error>)
        requires
            old(self).staged_wf(),
            old(self).publications@.len() < 0x1000_0000,
            channel < CHANNELS,
            lane.wf(),
        ensures
            final(self).staged_wf(),
            final(self).publications@.len() <= old(self).publications@.len() + 1,
            out matches Ok(epoch) ==> epoch < 256,
            *final(self) == (Session { publications: final(self).publications, ..*old(self) }),
            staging(
                old(self).publications@,
                final(self).publications@,
                channel,
                lane,
                event,
                sequence,
                tail,
                out,
            ),
    {
        let ghost before = self.publications@;
        if let Some(i) = self.find_staged(lane.queue) {
            let p: Publication = self.publications[i];
            let mut joined: Lane = p.lane;
            joined.head = lane.head;
            self.publications[i] = Publication { lane: joined, sequence, ..p };
            proof {
                assert(before[i as int].wf());
                assert(self.publications@ == before.update(
                    i as int,
                    (Publication { lane: (Lane { head: lane.head, ..p.lane }), sequence, ..p }),
                ));
                assert(staged_at(before, lane.queue, i as int));
            }
            return Ok(p.epoch);
        }
        if tail >= 256 {
            return Err(Error::EIO);
        }
        let epoch: u32 = (tail + self.staged(channel)) % 256;
        self.publications.push(Publication { channel, epoch, lane, event, sequence });
        Ok(epoch)
    }
}

} // verus!
