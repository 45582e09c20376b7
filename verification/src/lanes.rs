//! The firmware work queues of one public queue.
//!
//! A public queue has three of them: for tiling, for fragments and for compute. The channel rings are
//! shared by the whole device; their messages select these queues.
use crate::bytes;
use crate::bytes::{fill, w16, w32, w64, w8};
use crate::error::Error;
use crate::plan;
use crate::plan::{push_word, push_write, Write};
use crate::prot::{prot_fw_priv_rw, prot_fw_shared_rw};
use crate::queue;
use crate::queue::Queue;
use crate::slots;
use crate::slots::{free_slot, with_slot, without_slot};
use crate::stamp;
use crate::tvb::Region;
use vstd::prelude::*;

verus! {

/// First address for work and queues.
pub const WORK_BASE: u64 = 0xffff_fc22_0000_0000;

/// Size of the queues of one public queue.
pub const LANES_SIZE: u64 = 0x24000;

/// A completion that can be waited for.
#[derive(Clone, Copy, Debug, PartialEq, Eq, Structural)]
pub struct Stamp {
    pub address: u64,
    pub value: u32,
    pub event: u32,
}

/// One firmware work queue.
#[derive(Clone, Copy, Debug, PartialEq, Eq, Structural)]
pub struct Lane {
    pub queue: u64,
    pub pointers: u64,
    pub ring: u64,
    pub head: u32,
    pub new: bool,
}

/// The work queues of a public queue. What the firmware owns of them is kept until the device is reset.
pub struct FirmwareQueues {
    pub lanes: Option<[Lane; 3]>,
    pub priority: u32,
    /// The leased triple of events, while there is unfinished work.
    pub events: Option<u32>,
    pub pending: u64,
    pub render_count: u64,
    pub compute_count: u64,
    pub last: [Option<Stamp>; 2],
}

/// One of the three queues of a public queue.
pub open spec fn lane_at(base: int, stage: int) -> Lane {
    let queue = base + stage * 0xc000;
    Lane {
        queue: queue as u64,
        pointers: (queue + 0x4000) as u64,
        ring: (queue + 0x8000) as u64,
        head: 0,
        new: true,
    }
}

impl Lane {
    /// Whether the queue lies where queues are placed.
    pub open spec fn wf(self) -> bool {
        &&& WORK_BASE <= self.queue
        &&& self.queue + 0xc000 <= u64::MAX
        &&& self.pointers == self.queue + 0x4000
        &&& self.ring == self.queue + 0x8000
        &&& self.head < 0x500
    }

    /// Where the firmware writes the stamps of this queue.
    pub fn firmware_stamp(&self) -> (out: u64)
        requires
            self.wf(),
        ensures
            out == self.pointers + 0x1040,
    {
        self.pointers + 0x1040
    }
}

/// The queues at a base address.
pub fn lanes_at(base: u64) -> (out: [Lane; 3])
    requires
        base + LANES_SIZE <= u64::MAX,
    ensures
        forall|stage: int| 0 <= stage < 3 ==> #[trigger] out@[stage] == lane_at(base as int, stage),
        base >= WORK_BASE ==> forall|stage: int| 0 <= stage < 3 ==> (#[trigger] out@[stage]).wf(),
{
    [
        Lane { queue: base, pointers: base + 0x4000, ring: base + 0x8000, head: 0, new: true },
        Lane {
            queue: base + 0xc000,
            pointers: base + 0x10000,
            ring: base + 0x14000,
            head: 0,
            new: true,
        },
        Lane {
            queue: base + 0x18000,
            pointers: base + 0x1c000,
            ring: base + 0x20000,
            head: 0,
            new: true,
        },
    ]
}

/// The ranges that back the queues at a base address.
pub fn lane_regions(lanes: &[Lane; 3]) -> (out: [Region; 6])
    ensures
        forall|stage: int|
            0 <= stage < 3 ==> out@[2 * stage] == (Region {
                address: (#[trigger] lanes@[stage]).queue,
                size: 0x4000,
                prot: prot_fw_priv_rw(),
            }) && out@[2 * stage + 1] == (Region {
                address: lanes@[stage].pointers,
                size: 0x8000,
                prot: prot_fw_shared_rw(),
            }),
{
    [
        Region { address: lanes[0].queue, size: 0x4000, prot: prot_fw_priv_rw() },
        Region { address: lanes[0].pointers, size: 0x8000, prot: prot_fw_shared_rw() },
        Region { address: lanes[1].queue, size: 0x4000, prot: prot_fw_priv_rw() },
        Region { address: lanes[1].pointers, size: 0x8000, prot: prot_fw_shared_rw() },
        Region { address: lanes[2].queue, size: 0x4000, prot: prot_fw_priv_rw() },
        Region { address: lanes[2].pointers, size: 0x8000, prot: prot_fw_shared_rw() },
    ]
}

/// The queues of a public queue do not overlap, and fill the range that is reserved for them.
pub proof fn lemma_lanes_apart(base: int, a: int, b: int)
    requires
        0 <= base,
        base + LANES_SIZE <= u64::MAX,
        0 <= a < b < 3,
    ensures
        lane_at(base, a).ring + 0x4000 <= lane_at(base, b).queue,
        lane_at(base, b).ring + 0x4000 <= base + LANES_SIZE,
{
}

/// The descriptor of a queue.
pub open spec fn descriptor_of(lane: Lane, jobs: u64, context: u64) -> Queue {
    Queue {
        pointers: lane.pointers,
        ring: lane.ring,
        jobs,
        private: (lane.queue + 0xb0) as u64,
        context,
        uuid: ((lane.queue - WORK_BASE) / 0x4000 + 2) as u32,
    }
}

/// The bytes of the descriptor of a queue. The firmware may suspend and restart renders; compute is
/// not preemptible.
pub open spec fn descriptor_image(lane: Lane, jobs: u64, context: u64, priority: u32, stage: int) -> Seq<
    u8,
> {
    let image = bytes::overlay(
        bytes::image(0xb0, descriptor_of(lane, jobs, context).fields()),
        Queue::profile(priority)->0,
    );
    if stage == 2 {
        bytes::overlay(image, seq![w32(0x30, 0), w32(0x48, 1)])
    } else {
        image
    }
}

/// The first target of the stamps of a queue.
pub open spec fn first_stamp(stage: int) -> int {
    if stage == 0 {
        0xc00
    } else {
        0x100
    }
}

/// The stamp of a new queue: the one before its first target.
pub open spec fn initial_stamp(stage: int, render_count: u64, compute_count: u64) -> u32 {
    let ordinal = if stage == 2 {
        compute_count
    } else {
        render_count
    };
    ((stamp::stamp_of(ordinal as int, first_stamp(stage)) - 0x100) % 0x1_0000_0000) as u32
}

/// What is stored for one queue.
pub open spec fn lane_writes(
    lane: Lane,
    jobs: u64,
    context: u64,
    priority: u32,
    stage: int,
    render_count: u64,
    compute_count: u64,
) -> Seq<plan::Stored> {
    seq![
        (lane.queue, descriptor_image(lane, jobs, context, priority, stage), false),
        (lane.pointers, bytes::image(0x60, seq![w32(0x40, 0), w32(0x50, 0x500)]), false),
        (
            (lane.pointers + 0x1040) as u64,
            plan::word(initial_stamp(stage, render_count, compute_count)),
            true,
        ),
    ]
}

/// What is stored for the queues of a public queue.
pub open spec fn queue_writes(
    lanes: Seq<Lane>,
    priority: u32,
    render_count: u64,
    compute_count: u64,
) -> Seq<plan::Stored> {
    let jobs = (lanes[0].queue + 0x4100) as u64;
    let context = (lanes[0].queue + 0x4140) as u64;
    lane_writes(lanes[0], jobs, context, priority, 0, render_count, compute_count) + lane_writes(
        lanes[1],
        jobs,
        context,
        priority,
        1,
        render_count,
        compute_count,
    ) + lane_writes(lanes[2], jobs, context, priority, 2, render_count, compute_count) + seq![
        (jobs, bytes::image(0x18, seq![w64(8, jobs)]), false),
        (
            context,
            bytes::image(0x40, seq![w16(0, 0xffff), w8(5, 1), w8(0x26, 2), w8(0x33, 0xff)]),
            false,
        ),
    ]
}

/// Adds what is stored for one queue. The notifier list and the context belong to the public queue, and
/// are shared only by its own queues.
fn push_lane(
    writes: &mut Vec<Write>,
    lane: &Lane,
    jobs: u64,
    context: u64,
    priority: u32,
    stage: u32,
    render_count: u64,
    compute_count: u64,
) -> (out: Result<(), Error>)
    requires
        lane.wf(),
        stage < 3,
    ensures
        match out {
            Ok(_) => priority <= 3 && plan::stored(final(writes)@) == plan::stored(old(writes)@)
                + lane_writes(
                *lane,
                jobs,
                context,
                priority,
                stage as int,
                render_count,
                compute_count,
            ),
            Err(e) => e == Error::EINVAL && priority > 3,
        },
{
    let ghost before = plan::stored(writes@);
    let descriptor = Queue {
        pointers: lane.pointers,
        ring: lane.ring,
        jobs,
        private: lane.queue + 0xb0,
        context,
        uuid: ((lane.queue - WORK_BASE) / 0x4000) as u32 + 2,
    };
    assert(descriptor == descriptor_of(*lane, jobs, context));
    let mut image: [u8; 0xb0] = match descriptor.encode_priority(priority) {
        None => {
            return Err(Error::EINVAL);
        },
        Some(image) => image,
    };
    if stage == 2 {
        let fields = [w32(0x30, 0), w32(0x48, 1)];
        assert(fields@ =~= seq![w32(0x30, 0), w32(0x48, 1)]);
        fill(&mut image, &fields);
    }
    push_write(writes, lane.queue, &image, false);
    push_write(writes, lane.pointers, &queue::pointers(0x500, 0), false);
    let target: u32 = if stage == 0 {
        stamp::value(render_count, 0xc00)
    } else if stage == 1 {
        stamp::value(render_count, 0x100)
    } else {
        stamp::value(compute_count, 0x100)
    };
    push_word(writes, lane.firmware_stamp(), stamp::previous(target));
    assert(plan::stored(writes@) =~= before + lane_writes(
        *lane,
        jobs,
        context,
        priority,
        stage as int,
        render_count,
        compute_count,
    ));
    Ok(())
}

impl FirmwareQueues {
    /// What holds of the queues of a public queue.
    pub open spec fn wf(self) -> bool {
        &&& self.lanes matches Some(lanes) ==> forall|stage: int|
            0 <= stage < 3 ==> (#[trigger] lanes@[stage]).wf()
        &&& self.events matches Some(index) ==> index < 32
    }

    /// Queues that have no storage yet.
    pub fn new(priority: u32, counter_start: u64) -> (out: Self)
        ensures
            out.wf(),
            out.lanes is None,
            out.priority == priority,
            out.events is None,
            out.pending == 0,
            out.render_count == counter_start,
            out.compute_count == counter_start,
            out.last@ == seq![None::<Stamp>, None::<Stamp>],
    {
        let last: [Option<Stamp>; 2] = [None, None];
        assert(last@ =~= seq![None::<Stamp>, None::<Stamp>]);
        FirmwareQueues {
            lanes: None,
            priority,
            events: None,
            pending: 0,
            render_count: counter_start,
            compute_count: counter_start,
            last,
        }
    }

    /// The event of a stage. The first events are left to the bootstrap protocol.
    pub fn event(&self, stage: u32) -> (out: Result<u32, Error>)
        requires
            self.wf(),
            stage < 3,
        ensures
            out == match self.events {
                None => Err::<u32, Error>(Error::EIO),
                Some(index) => Ok((32 + index * 3 + stage) as u32),
            },
    {
        match self.events {
            None => Err(Error::EIO),
            Some(index) => Ok(32 + index * 3 + stage),
        }
    }

    /// What is stored for new queues, before the firmware sees them.
    pub fn objects(&self, lanes: &[Lane; 3]) -> (out: Result<Vec<Write>, Error>)
        requires
            forall|stage: int| 0 <= stage < 3 ==> (#[trigger] lanes@[stage]).wf(),
        ensures
            match out {
                Ok(writes) => self.priority <= 3 && plan::stored(writes@) == queue_writes(
                    lanes@,
                    self.priority,
                    self.render_count,
                    self.compute_count,
                ),
                Err(e) => e == Error::EINVAL && self.priority > 3,
            },
    {
        let mut writes: Vec<Write> = Vec::new();
        assert(plan::stored(writes@) =~= Seq::empty());
        assert(lanes@[0].wf());
        let jobs: u64 = lanes[0].queue + 0x4100;
        let context: u64 = lanes[0].queue + 0x4140;
        let mut stage: usize = 0;
        let ghost lists = |stage: int|
            lane_writes(
                lanes@[stage],
                jobs,
                context,
                self.priority,
                stage,
                self.render_count,
                self.compute_count,
            );
        while stage < 3
            invariant
                stage <= 3,
                forall|stage: int| 0 <= stage < 3 ==> (#[trigger] lanes@[stage]).wf(),
                lists == (|stage: int|
                    lane_writes(
                        lanes@[stage],
                        jobs,
                        context,
                        self.priority,
                        stage,
                        self.render_count,
                        self.compute_count,
                    )),
                stage > 0 ==> self.priority <= 3,
                stage == 0 ==> plan::stored(writes@) == Seq::<plan::Stored>::empty(),
                stage == 1 ==> plan::stored(writes@) == lists(0),
                stage == 2 ==> plan::stored(writes@) == lists(0) + lists(1),
                stage == 3 ==> plan::stored(writes@) == lists(0) + lists(1) + lists(2),
            decreases 3 - stage,
        {
            match push_lane(
                &mut writes,
                &lanes[stage],
                jobs,
                context,
                self.priority,
                stage as u32,
                self.render_count,
                self.compute_count,
            ) {
                Err(e) => {
                    return Err(e);
                },
                Ok(()) => {},
            }
            stage += 1;
            proof {
                if stage == 1 {
                    assert(Seq::<plan::Stored>::empty() + lists(0) =~= lists(0));
                }
            }
        }
        push_write(&mut writes, jobs, &queue::jobs(jobs), false);
        push_write(&mut writes, context, &queue::context(), false);
        assert(plan::stored(writes@) =~= queue_writes(
            lanes@,
            self.priority,
            self.render_count,
            self.compute_count,
        ));
        Ok(writes)
    }

    /// Leases a triple of events while the queue has unfinished work. Idle queues hold none, so that
    /// creating queues takes none of them.
    pub fn lease_events(&mut self, slots: u64) -> (out: Result<u64, Error>)
        requires
            old(self).wf(),
        ensures
            final(self).wf(),
            *final(self) == (FirmwareQueues { events: final(self).events, ..*old(self) }),
            match old(self).events {
                Some(_) => out == Ok::<u64, Error>(slots) && *final(self) == *old(self),
                None => match out {
                    Ok(left) => {
                        &&& final(self).events matches Some(index)
                        &&& !slots::leased(slots, index as int)
                        &&& forall|i: int| 0 <= i < index ==> #[trigger] slots::leased(slots, i)
                        &&& left == with_slot(slots, index)
                    },
                    Err(e) => {
                        &&& e == Error::EBUSY
                        &&& *final(self) == *old(self)
                        &&& forall|i: int| 0 <= i < 32 ==> #[trigger] slots::leased(slots, i)
                    },
                },
            },
    {
        if self.events.is_some() {
            return Ok(slots);
        }
        match free_slot(slots, 32) {
            None => Err(Error::EBUSY),
            Some(index) => {
                self.events = Some(index);
                Ok(with_slot(slots, index))
            },
        }
    }

    /// Gives the events back where no work is pending.
    pub fn settle(&mut self, slots: u64) -> (out: u64)
        requires
            old(self).wf(),
        ensures
            final(self).wf(),
            *final(self) == (FirmwareQueues { events: final(self).events, ..*old(self) }),
            if old(self).pending == 0 && old(self).events is Some {
                final(self).events is None && out == without_slot(slots, old(self).events->0)
            } else {
                *final(self) == *old(self) && out == slots
            },
    {
        if self.pending != 0 {
            return slots;
        }
        match self.events {
            None => slots,
            Some(index) => {
                self.events = None;
                without_slot(slots, index)
            },
        }
    }
}

/// The events of different leases differ, and none is one of the first thirty-two.
pub proof fn lemma_events_distinct(a: int, b: int, s: int, t: int)
    requires
        0 <= a < 32,
        0 <= b < 32,
        0 <= s < 3,
        0 <= t < 3,
        (a, s) != (b, t),
    ensures
        32 + a * 3 + s != 32 + b * 3 + t,
        32 <= 32 + a * 3 + s < 128,
{
}

} // verus!
