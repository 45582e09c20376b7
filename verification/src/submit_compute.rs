//! Submission of compute work.
use crate::bytes;
use crate::bytes::{fill, low32, w64};
use crate::compute;
use crate::compute::{Addresses, Parameters};
use crate::error::Error;
use crate::flights::{Flight, Session};
use crate::lanes;
use crate::lanes::{FirmwareQueues, Lane, Stamp, WORK_BASE};
use crate::plan;
use crate::plan::{push_double, push_word, push_write, Write};
use crate::stamp;
use crate::submit;
use crate::submit::{flatten, push_waits, Receipt};
use vstd::prelude::*;

verus! {

/// The alias of a compute work for the GPU.
pub open spec fn compute_alias_of(work: u64) -> int {
    0x71_0000_0000 + (work - WORK_BASE)
}

/// Whether a compute work lies where it has an alias.
pub open spec fn compute_placed(work: u64) -> bool {
    WORK_BASE <= work && compute_alias_of(work) + 0x4000 <= 0x72_0000_0000
}

/// The alias of a compute work for the GPU, where it is inside the range for it.
pub fn compute_alias(work: u64) -> (out: Result<u64, Error>)
    requires
        WORK_BASE <= work,
    ensures
        match out {
            Ok(alias) => alias == compute_alias_of(work) && compute_placed(work),
            Err(e) => e == Error::ENOSPC && !compute_placed(work),
        },
{
    let alias: u64 = 0x71_0000_0000 + (work - WORK_BASE);
    if alias + 0x4000 > 0x72_0000_0000 {
        return Err(Error::ENOSPC);
    }
    Ok(alias)
}

/// The addresses of a compute work: those of its storage, the queue and the event of its submitter, and
/// its context. Stamps follow the order of the queue, everything else the order of the device.
pub open spec fn compute_addresses_of(
    index: u64,
    ordinal: u64,
    work: u64,
    lane: Lane,
    event: u32,
    context: u32,
) -> Addresses {
    let alias = compute_alias_of(work);
    let number = ((index + 1) % 0x1_0000_0000_0000_0000) as u64;
    Addresses {
        work,
        microsequence: (work + 0x1000) as u64,
        register_table: (alias + 0x20) as u64,
        queue: lane.queue,
        stats: compute::STATS,
        support: compute::SUPPORT,
        notifier: (work + 0x1400) as u64,
        threshold: (work + 0x1800) as u64,
        driver_stamp: (work + 0x4000) as u64,
        firmware_stamp: (lane.pointers + 0x1040) as u64,
        timestamp_start: (work + 0x1700) as u64,
        timestamp_end: (work + 0x1708) as u64,
        context,
        identity: (context * 0x1_0000_0000 + low32(number)) as u64,
        register_identity: (context * 0x1_0000_0000 + 1) as u64,
        counter: number,
        event_generation: low32(number),
        stamp: stamp::stamp_of(ordinal as int, 0x100) as u32,
        event,
        ordinal: low32(ordinal),
        cdm_entry: Some((alias + compute::ENTRY_OFFSET) as u64),
    }
}

/// The addresses of a compute work.
pub fn compute_addresses(index: u64, ordinal: u64, work: u64, lane: &Lane, event: u32, context: u32) -> (out:
    Addresses)
    requires
        lane.wf(),
        compute_placed(work),
    ensures
        out == compute_addresses_of(index, ordinal, work, *lane, event, context),
{
    let alias: u64 = 0x71_0000_0000 + (work - WORK_BASE);
    let number: u64 = index.wrapping_add(1);
    Addresses {
        work,
        microsequence: work + 0x1000,
        register_table: alias + 0x20,
        queue: lane.queue,
        stats: compute::STATS,
        support: compute::SUPPORT,
        notifier: work + 0x1400,
        threshold: work + 0x1800,
        driver_stamp: work + 0x4000,
        firmware_stamp: lane.firmware_stamp(),
        timestamp_start: work + 0x1700,
        timestamp_end: work + 0x1708,
        context,
        identity: context as u64 * 0x1_0000_0000 + low32(number) as u64,
        register_identity: context as u64 * 0x1_0000_0000 + 1,
        counter: number,
        event_generation: low32(number),
        stamp: stamp::value(ordinal, 0x100),
        event,
        ordinal: low32(ordinal),
        cdm_entry: Some(alias + compute::ENTRY_OFFSET),
    }
}

/// The parameters of a compute work whose state is saved in the upper half of its own page.
pub open spec fn with_save_area(p: Parameters, work: u64) -> Parameters {
    Parameters { resource: (compute_alias_of(work) + 0x2000) as u64, ..p }
}

/// The bytes of the microsequence of a compute work, which stores the timestamps of the client.
pub open spec fn micro_image(p: Parameters, a: Addresses) -> Seq<u8> {
    let stamps = (a.work + 0x17c0) as u64;
    bytes::overlay(
        bytes::image(0x300, p.microsequence_fields(a)),
        seq![w64(0x1e0, stamps), w64(0x230, stamps)],
    )
}

/// What is stored for a compute work itself.
pub open spec fn object_writes(p: Parameters, a: Addresses, timestamps: Seq<u64>) -> Seq<plan::Stored> {
    let stamps = (a.work + 0x17c0) as u64;
    let notifier = bytes::image(0x100, a.notifier_fields(0));
    seq![
        (compute::SHARED_STATE, plan::word(low32(a.counter)), true),
        (a.work, bytes::image(0x8c0, p.work_fields(a)), true),
        (
            (a.work + compute::ENTRY_OFFSET) as u64,
            bytes::image(0xc, compute::entry_fields(p.cdm)),
            true,
        ),
        (stamps, plan::double(timestamps[0]), true),
        ((stamps + 8) as u64, plan::double(timestamps[1]), true),
        (a.microsequence, micro_image(p, a), true),
        (a.notifier, notifier.subrange(0, 0x14), true),
        ((a.notifier + 0x24) as u64, notifier.subrange(0x24, 0x28), true),
        (a.threshold, plan::word(1), true),
        (
            a.driver_stamp,
            plan::word(((a.stamp - 0x100) % 0x1_0000_0000) as u32),
            true,
        ),
    ]
}

/// What is stored to publish a compute work: its objects, its waits, and its slot in the ring of the
/// queue.
pub open spec fn compute_writes(
    p: Parameters,
    a: Addresses,
    lane: Lane,
    timestamps: Seq<u64>,
    dependencies: Seq<Option<Stamp>>,
) -> Seq<plan::Stored> {
    let waits = submit::present(dependencies[0], dependencies[1]);
    let n = waits.len() as int;
    object_writes(p, a, timestamps) + submit::wait_writes(
        (a.work + 0x1900) as u64,
        lane.ring,
        lane.head,
        waits,
        a.stamp,
        low32(a.identity),
        n,
    ) + seq![(submit::ring_slot(lane.ring, lane.head, n), plan::double(a.work), true)]
}

/// The parts of a notifier that the driver stores. The links of its list belong to the firmware, also
/// after completion.
fn notifier_parts(a: &Addresses) -> (out: (Vec<u8>, Vec<u8>))
    ensures
        out.0@ == bytes::image(0x100, a.notifier_fields(0)).subrange(0, 0x14),
        out.1@ == bytes::image(0x100, a.notifier_fields(0)).subrange(0x24, 0x28),
{
    let notifier: [u8; 0x100] = a.notifier(0);
    let mut head: Vec<u8> = Vec::new();
    let mut i: usize = 0;
    while i < 0x14
        invariant
            i <= 0x14,
            head@ == notifier@.subrange(0, i as int),
        decreases 0x14 - i,
    {
        head.push(notifier[i]);
        i += 1;
        assert(head@ =~= notifier@.subrange(0, i as int));
    }
    let mut rest: Vec<u8> = Vec::new();
    let mut k: usize = 0x24;
    while k < 0x28
        invariant
            0x24 <= k <= 0x28,
            rest@ == notifier@.subrange(0x24, k as int),
        decreases 0x28 - k,
    {
        rest.push(notifier[k]);
        k += 1;
        assert(rest@ =~= notifier@.subrange(0x24, k as int));
    }
    (head, rest)
}

/// What is stored to publish a compute work, and the head of its queue after that.
pub fn publish_compute(
    params: &Parameters,
    a: &Addresses,
    lane: &Lane,
    timestamps: &[u64; 4],
    dependencies: &[Option<Stamp>; 2],
) -> (out: Result<(Vec<Write>, u32), Error>)
    requires
        lane.wf(),
        compute_placed(a.work),
        a.microsequence + 0x160 <= u64::MAX,
        a.notifier + 0x24 <= u64::MAX,
        params.scratch + 0x1f000 <= u64::MAX,
    ensures
        ({
            let p = with_save_area(*params, a.work);
            match out {
                Ok((writes, head)) => {
                    &&& p.is_valid()
                    &&& plan::stored(writes@) == compute_writes(
                        p,
                        *a,
                        *lane,
                        timestamps@,
                        dependencies@,
                    )
                    &&& head == (lane.head + 1 + submit::present(
                        dependencies@[0],
                        dependencies@[1],
                    ).len()) % 0x500
                    &&& head < 0x500
                },
                Err(e) => e == Error::EINVAL && !p.is_valid(),
            }
        }),
{
    let mut p: Parameters = *params;
    p.resource = 0x71_0000_0000 + (a.work - WORK_BASE) + 0x2000;
    let work: [u8; 0x8c0] = match p.work(a) {
        None => {
            return Err(Error::EINVAL);
        },
        Some(work) => work,
    };
    let waits: Vec<Stamp> = flatten(dependencies[0], dependencies[1]);
    let stamps: u64 = a.work + 0x17c0;
    let mut micro: [u8; 0x300] = p.microsequence(a);
    let fields = [w64(0x1e0, stamps), w64(0x230, stamps)];
    assert(fields@ =~= seq![w64(0x1e0, stamps), w64(0x230, stamps)]);
    fill(&mut micro, &fields);
    let (notifier_head, notifier_rest): (Vec<u8>, Vec<u8>) = notifier_parts(a);
    let mut writes: Vec<Write> = Vec::new();
    push_word(&mut writes, compute::SHARED_STATE, low32(a.counter));
    push_write(&mut writes, a.work, &work, true);
    push_write(&mut writes, a.work + compute::ENTRY_OFFSET, &compute::entry(p.cdm), true);
    push_double(&mut writes, stamps, timestamps[0]);
    push_double(&mut writes, stamps + 8, timestamps[1]);
    push_write(&mut writes, a.microsequence, &micro, true);
    push_write(&mut writes, a.notifier, notifier_head.as_slice(), true);
    push_write(&mut writes, a.notifier + 0x24, notifier_rest.as_slice(), true);
    push_word(&mut writes, a.threshold, 1);
    push_word(&mut writes, a.driver_stamp, stamp::previous(a.stamp));
    assert(plan::stored(writes@) =~= object_writes(p, *a, timestamps@));
    push_waits(
        &mut writes,
        a.work + 0x1900,
        lane.ring,
        lane.head,
        &waits,
        a.stamp,
        low32(a.identity),
    );
    let count: u32 = waits.len() as u32;
    push_double(&mut writes, lane.ring + ((lane.head + count) % 0x500) as u64 * 8, a.work);
    assert(plan::stored(writes@) =~= compute_writes(p, *a, *lane, timestamps@, dependencies@));
    Ok((writes, (lane.head + 1 + count) % 0x500))
}

/// The stamp of the compute work that the first stamp of a new queue waits for: one step after it.
pub proof fn lemma_first_targets(render_count: u64, compute_count: u64)
    ensures
        lanes::initial_stamp(0, render_count, compute_count) == (stamp::stamp_of(
            render_count as int,
            0xc00,
        ) - 0x100) % 0x1_0000_0000,
        lanes::initial_stamp(1, render_count, compute_count) == (stamp::stamp_of(
            render_count as int,
            0x100,
        ) - 0x100) % 0x1_0000_0000,
        lanes::initial_stamp(2, render_count, compute_count) == (stamp::stamp_of(
            compute_count as int,
            0x100,
        ) - 0x100) % 0x1_0000_0000,
        !stamp::at_or_after(
            lanes::initial_stamp(0, render_count, compute_count) as int,
            stamp::stamp_of(render_count as int, 0xc00),
        ),
        !stamp::at_or_after(
            lanes::initial_stamp(1, render_count, compute_count) as int,
            stamp::stamp_of(render_count as int, 0x100),
        ),
        !stamp::at_or_after(
            lanes::initial_stamp(2, render_count, compute_count) as int,
            stamp::stamp_of(compute_count as int, 0x100),
        ),
{
}

impl Session {
    /// Whether compute work can be taken: the device works, and its priority is one of the two that
    /// clients have.
    pub fn check_compute(&self, priority: u32) -> (out: Result<(), Error>)
        ensures
            out == if self.render_failed {
                Err::<(), Error>(Error::EIO)
            } else if !(2 <= priority <= 3) {
                Err(Error::EINVAL)
            } else {
                Ok(())
            },
    {
        if self.render_failed {
            return Err(Error::EIO);
        }
        if priority < 2 || priority > 3 {
            return Err(Error::EINVAL);
        }
        Ok(())
    }

    /// The outstanding compute work.
    pub open spec fn compute_flight(
        priority: u32,
        lane: Lane,
        a: Addresses,
        head: u32,
        epoch: u32,
        flight: Flight,
        owner: u64,
        now: u64,
    ) -> bool {
        let own = Stamp { address: a.firmware_stamp, value: a.stamp, event: a.event };
        &&& flight.id == a.work
        &&& flight.owner == owner
        &&& flight.context == a.context
        &&& flight.started == now
        &&& flight.stamps@ == seq![Some(own), None]
        &&& flight.driver_stamps@ == seq![Some(Stamp { address: a.driver_stamp, ..own }), None]
        &&& flight.queues@ == seq![Some((lane.pointers, head)), None]
        &&& flight.channels@ == seq![
            Some(((priority * 3 + 2) as usize, ((epoch + 1) % 256) as u32)),
            None,
        ]
        &&& flight.render is None
    }

    /// Notes a compute work as published: its queue has advanced, and its completion is the one that
    /// later work of the queue can wait for.
    pub fn launch_compute(
        &mut self,
        queue: &mut FirmwareQueues,
        lanes: &[Lane; 3],
        a: &Addresses,
        head: u32,
        epoch: u32,
        owner: u64,
        now: u64,
    ) -> (out: Receipt)
        requires
            old(queue).wf(),
            old(queue).lanes == Some(*lanes),
            old(queue).priority <= 3,
            old(queue).pending < u64::MAX,
            old(self).batch_works < u64::MAX,
            head < 0x500,
            epoch < 256,
        ensures
            final(queue).wf(),
            out.id == a.work,
            out.stamp == (Stamp { address: a.firmware_stamp, value: a.stamp, event: a.event }),
            final(queue).compute_count == (old(queue).compute_count + 1) % 0x1_0000_0000_0000_0000,
            final(queue).pending == old(queue).pending + 1,
            final(queue).last@ == old(queue).last@.update(1, Some(out.stamp)),
            final(queue).lanes is Some,
            final(queue).lanes->0@ == lanes@.update(2, (Lane { head, new: false, ..lanes@[2] })),
            *final(queue) == (FirmwareQueues {
                compute_count: final(queue).compute_count,
                pending: final(queue).pending,
                last: final(queue).last,
                lanes: final(queue).lanes,
                ..*old(queue)
            }),
            final(self).flights@.len() == old(self).flights@.len() + 1,
            final(self).flights@.drop_last() == old(self).flights@,
            Self::compute_flight(
                old(queue).priority,
                lanes@[2],
                *a,
                head,
                epoch,
                final(self).flights@.last(),
                owner,
                now,
            ),
            final(self).compute_publication == (old(self).compute_publication + 1)
                % 0x1_0000_0000_0000_0000,
            *final(self) == (Session {
                flights: final(self).flights,
                compute_publication: final(self).compute_publication,
                batch_works: (old(self).batch_works + 1) as u64,
                render_failed: false,
                ..*old(self)
            }),
    {
        let own = Stamp { address: a.firmware_stamp, value: a.stamp, event: a.event };
        let channel: usize = queue.priority as usize * 3 + 2;
        let lane: Lane = lanes[2];
        let flight = Flight {
            id: a.work,
            owner,
            context: a.context,
            started: now,
            stamps: [Some(own), None],
            driver_stamps: [Some(Stamp { address: a.driver_stamp, ..own }), None],
            queues: [Some((lane.pointers, head)), None],
            channels: [Some((channel, (epoch + 1) % 256)), None],
            render: None,
        };
        proof {
            assert(flight.stamps@ =~= seq![Some(own), None]);
            assert(flight.driver_stamps@ =~= seq![
                Some(Stamp { address: a.driver_stamp, ..own }),
                None,
            ]);
            assert(flight.queues@ =~= seq![Some((lanes@[2].pointers, head)), None]);
            assert(flight.channels@ =~= seq![
                Some(((queue.priority * 3 + 2) as usize, ((epoch + 1) % 256) as u32)),
                None,
            ]);
        }
        let mut next: [Lane; 3] = *lanes;
        next[2] = Lane { head, new: false, ..lane };
        proof {
            assert(old(queue).lanes->0 == *lanes);
            assert(lanes@[0].wf() && lanes@[1].wf() && lanes@[2].wf());
            assert forall|stage: int| 0 <= stage < 3 implies (#[trigger] next@[stage]).wf() by {}
        }
        queue.lanes = Some(next);
        queue.compute_count = queue.compute_count.wrapping_add(1);
        let mut last: [Option<Stamp>; 2] = queue.last;
        last[1] = Some(own);
        queue.last = last;
        queue.pending = queue.pending + 1;
        let ghost before = self.flights@;
        self.flights.push(flight);
        assert(self.flights@.drop_last() =~= before);
        self.compute_publication = self.compute_publication.wrapping_add(1);
        self.batch_works = self.batch_works + 1;
        self.render_failed = false;
        Receipt { id: a.work, stamp: own }
    }
}

} // verus!
