//! Bookkeeping of submissions.
use crate::bytes;
use crate::bytes::{copy_in, low32};
use crate::error::Error;
use crate::flights;
use crate::flights::{Flight, Publication, RenderFlight, Session};
use crate::lanes;
use crate::lanes::{FirmwareQueues, Lane, Stamp};
use crate::operands::{OperandPool, SUPPORT_BASE};
use crate::platform::zeroed;
use crate::render;
use crate::render::Parameters;
use crate::slots;
use crate::slots::{free_slot, with_slot};
use crate::stamp;
use crate::submit::Receipt;
use vstd::prelude::*;

verus! {

/// Number of support objects.
pub const SUPPORTS: u32 = 57;

/// The support object of a client, which every queued execution of it retains.
#[derive(Clone, Copy, Debug, PartialEq, Eq, Structural)]
pub struct Support {
    pub index: u32,
    pub growth_base: u64,
    /// Work items that were submitted with it.
    pub submissions: u64,
}

impl Support {
    /// Whether the object is one of those that there are.
    pub open spec fn wf(self) -> bool {
        self.index < SUPPORTS
    }

    /// The address of a support object.
    pub open spec fn address_of(self) -> int {
        SUPPORT_BASE + self.index * 0x4000
    }

    /// The address of the support object.
    pub fn address(&self) -> (out: u64)
        requires
            self.wf(),
        ensures
            out == self.address_of(),
    {
        SUPPORT_BASE + self.index as u64 * 0x4000
    }

    /// The slot of the buffer of the client.
    pub fn buffer_slot(&self) -> (out: u64)
        requires
            self.wf(),
        ensures
            out == 7 + self.index,
    {
        7 + self.index as u64
    }

    /// The count that the firmware is shown for the next render, and the count to keep. A render is two
    /// items: the firmware retires its stages one by one. The firmware sees the low word of the count.
    pub fn next_count(&self) -> (out: (u32, u64))
        ensures
            out.1 == (self.submissions + 2) % 0x1_0000_0000_0000_0000,
            out.0 == low32(out.1),
    {
        let next: u64 = self.submissions.wrapping_add(2);
        (low32(next), next)
    }
}

/// The bytes of a support object.
pub open spec fn support_page(pool: OperandPool, index: u32) -> Seq<u8> {
    let shared = (SUPPORT_BASE + index * 0x4000 + 0x1000) as u64;
    bytes::place(
        bytes::zeros(0x4000),
        0,
        bytes::image(0x100, pool.support_fields((3 + index) as u64, shared)),
    )
}

impl Session {
    /// Leases a support object, and answers the bytes that are stored for it. A pool without room for
    /// growth is refused after the lease: the object stays leased.
    pub fn acquire_render_support(&mut self, pool: &OperandPool, counter_start: u64) -> (out: Result<
        (Support, Vec<u8>),
        Error,
    >)
        ensures
            *final(self) == (Session { render_support: final(self).render_support, ..*old(self) }),
            ({
                let used = old(self).render_support;
                let full = forall|i: int| 0 <= i < SUPPORTS ==> #[trigger] slots::leased(used, i);
                if old(self).render_failed {
                    out is Err && out->Err_0 == Error::EIO && *final(self) == *old(self)
                } else if full {
                    out is Err && out->Err_0 == Error::ENOSPC && *final(self) == *old(self)
                } else {
                    exists|index: u32|
                        {
                            &&& index < SUPPORTS
                            &&& !slots::leased(used, index as int)
                            &&& forall|i: int| 0 <= i < index ==> #[trigger] slots::leased(used, i)
                            &&& final(self).render_support == #[trigger] with_slot(used, index)
                            &&& match out {
                                Ok((support, page)) => {
                                    &&& pool.end_of() + 0x7fff <= u64::MAX
                                    &&& support == (Support {
                                        index,
                                        growth_base: crate::operands::round_block(
                                            pool.end_of(),
                                        ) as u64,
                                        submissions: ((counter_start * 2)
                                            % 0x1_0000_0000_0000_0000) as u64,
                                    })
                                    &&& page@ == support_page(*pool, index)
                                },
                                Err(e) => e == Error::EINVAL && pool.end_of() + 0x7fff > u64::MAX,
                            }
                        }
                }
            }),
    {
        if self.render_failed {
            return Err(Error::EIO);
        }
        let index: u32 = match free_slot(self.render_support, SUPPORTS) {
            None => {
                return Err(Error::ENOSPC);
            },
            Some(index) => index,
        };
        let ghost used = self.render_support;
        assert(!slots::leased(used, index as int));
        self.render_support = with_slot(self.render_support, index);
        assert(self.render_support == with_slot(used, index));
        match pool.growth_base() {
            None => Err(Error::EINVAL),
            Some(growth_base) => {
                let support = Support {
                    index,
                    growth_base,
                    submissions: counter_start.wrapping_mul(2),
                };
                let mut page: Vec<u8> = zeroed(0x4000);
                let block: [u8; 0x100] = pool.support(3 + index as u64, support.address() + 0x1000);
                copy_in(page.as_mut_slice(), 0, &block);
                Ok((support, page))
            },
        }
    }

    /// Whether a render can be taken: the device works, its parameters are valid and its priority is one
    /// of the two that clients have.
    pub fn check_render(&self, p: &Parameters, priority: u32) -> (out: Result<(), Error>)
        ensures
            out == if self.render_failed {
                Err::<(), Error>(Error::EIO)
            } else if !p.is_valid() || !(2 <= priority <= 3) {
                Err(Error::EINVAL)
            } else {
                Ok(())
            },
    {
        if self.render_failed {
            return Err(Error::EIO);
        }
        if !p.valid() || priority < 2 || priority > 3 {
            return Err(Error::EINVAL);
        }
        Ok(())
    }

    /// Stages both queues of a render, the fragment queue first.
    pub fn stage_render(
        &mut self,
        queue: &FirmwareQueues,
        lanes: &[Lane; 3],
        events: (u32, u32),
        heads: &[u32; 2],
        tails: &[u32; 2],
    ) -> (out: Result<[u32; 2], Error>)
        requires
            old(self).staged_wf(),
            old(self).publications@.len() + 2 <= 0x1000_0000,
            queue.priority <= 3,
            lanes@[0].wf(),
            lanes@[1].wf(),
            heads@[0] < 0x500,
            heads@[1] < 0x500,
        ensures
            final(self).staged_wf(),
            *final(self) == (Session { publications: final(self).publications, ..*old(self) }),
            exists|middle: Seq<Publication>, first: Result<u32, Error>| #[trigger]
                Self::staged_render(
                    old(self).publications@,
                    middle,
                    final(self).publications@,
                    queue.priority,
                    lanes@,
                    events,
                    heads@,
                    tails@,
                    ((old(self).render_publication + 1) % 0x1_0000_0000_0000_0000) as u64,
                    first,
                    out,
                ),
            out matches Ok(epochs) ==> epochs@[0] < 256 && epochs@[1] < 256,
    {
        let sequence: u64 = self.render_publication.wrapping_add(1);
        let channel: usize = queue.priority as usize * 3;
        let mut fragment: Lane = lanes[1];
        fragment.head = heads[1];
        let mut tiling: Lane = lanes[0];
        tiling.head = heads[0];
        let ghost before = self.publications@;
        let first: Result<u32, Error> = self.stage_queue(
            channel + 1,
            fragment,
            events.1,
            sequence,
            tails[1],
        );
        let ghost middle = self.publications@;
        let out: Result<[u32; 2], Error> = match first {
            Err(e) => Err(e),
            Ok(fragment_epoch) => {
                match self.stage_queue(channel, tiling, events.0, sequence, tails[0]) {
                    Err(e) => Err(e),
                    Ok(tiling_epoch) => Ok([tiling_epoch, fragment_epoch]),
                }
            },
        };
        assert(sequence == ((old(self).render_publication + 1) % 0x1_0000_0000_0000_0000) as u64);
        assert(Self::staged_render(
            before,
            middle,
            self.publications@,
            queue.priority,
            lanes@,
            events,
            heads@,
            tails@,
            sequence,
            first,
            out,
        ));
        out
    }

    /// Staging a render: the fragment queue, and then the tiling queue.
    pub open spec fn staged_render(
        before: Seq<Publication>,
        middle: Seq<Publication>,
        after: Seq<Publication>,
        priority: u32,
        lanes: Seq<Lane>,
        events: (u32, u32),
        heads: Seq<u32>,
        tails: Seq<u32>,
        sequence: u64,
        first: Result<u32, Error>,
        out: Result<[u32; 2], Error>,
    ) -> bool {
        let fragment = Lane { head: heads[1], ..lanes[1] };
        let tiling = Lane { head: heads[0], ..lanes[0] };
        let second = match out {
            Ok(epochs) => Ok(epochs@[0]),
            Err(e) => Err(e),
        };
        &&& flights::staging(
            before,
            middle,
            (priority * 3 + 1) as usize,
            fragment,
            events.1,
            sequence,
            tails[1],
            first,
        )
        &&& match first {
            Err(e) => out is Err && out->Err_0 == e && after == middle,
            Ok(epoch) => {
                &&& out matches Ok(epochs) ==> epochs@[1] == epoch
                &&& flights::staging(
                    middle,
                    after,
                    (priority * 3) as usize,
                    tiling,
                    events.0,
                    sequence,
                    tails[0],
                    second,
                )
            },
        }
    }

    /// The outstanding render.
    pub open spec fn render_flight(
        priority: u32,
        lanes: Seq<Lane>,
        a: render::Addresses,
        heads: Seq<u32>,
        epochs: Seq<u32>,
        flight: Flight,
        va: u64,
        owner: u64,
        root: u64,
        scene: u32,
        now: u64,
    ) -> bool {
        let tiling = Stamp {
            address: a.tiling_firmware_stamp,
            value: low32(a.tiling_stamp),
            event: low32(a.tiling_event),
        };
        let fragment = Stamp {
            address: a.fragment_firmware_stamp,
            value: low32(a.fragment_stamp),
            event: low32(a.fragment_event),
        };
        &&& flight.id == va
        &&& flight.owner == owner
        &&& flight.context == low32(a.context_id)
        &&& flight.started == now
        &&& flight.stamps@ == seq![Some(tiling), Some(fragment)]
        &&& flight.driver_stamps@ == seq![
            Some(Stamp { address: a.tiling_driver_stamp, ..tiling }),
            Some(Stamp { address: a.fragment_driver_stamp, ..fragment }),
        ]
        &&& flight.queues@ == seq![Some((lanes[0].pointers, heads[0])), Some((lanes[1].pointers, heads[1]))]
        &&& flight.channels@ == seq![
            Some(((priority * 3) as usize, ((epochs[0] + 1) % 256) as u32)),
            Some(((priority * 3 + 1) as usize, ((epochs[1] + 1) % 256) as u32)),
        ]
        &&& flight.render == Some(RenderFlight { addresses: a, root, memory_limit: false, scene })
    }

    /// Notes a render as published: its queues have advanced, and its completion is the one that later
    /// work of the queue can wait for.
    pub fn launch_render(
        &mut self,
        queue: &mut FirmwareQueues,
        lanes: &[Lane; 3],
        a: &render::Addresses,
        heads: &[u32; 2],
        epochs: &[u32; 2],
        va: u64,
        owner: u64,
        root: u64,
        scene: u32,
        now: u64,
    ) -> (out: Receipt)
        requires
            old(queue).wf(),
            old(queue).lanes == Some(*lanes),
            old(queue).priority <= 3,
            old(queue).pending < u64::MAX,
            old(self).batch_works < u64::MAX,
            heads@[0] < 0x500,
            heads@[1] < 0x500,
            epochs@[0] < 256,
            epochs@[1] < 256,
        ensures
            final(queue).wf(),
            out.id == va,
            out.stamp == (Stamp {
                address: a.fragment_firmware_stamp,
                value: low32(a.fragment_stamp),
                event: low32(a.fragment_event),
            }),
            final(queue).render_count == (old(queue).render_count + 1) % 0x1_0000_0000_0000_0000,
            final(queue).pending == old(queue).pending + 1,
            final(queue).last@ == old(queue).last@.update(0, Some(out.stamp)),
            final(queue).lanes is Some,
            final(queue).lanes->0@ == lanes@.update(
                0,
                (Lane { head: heads@[0], new: false, ..lanes@[0] }),
            ).update(1, (Lane { head: heads@[1], new: false, ..lanes@[1] })),
            *final(queue) == (FirmwareQueues {
                render_count: final(queue).render_count,
                pending: final(queue).pending,
                last: final(queue).last,
                lanes: final(queue).lanes,
                ..*old(queue)
            }),
            final(self).flights@.len() == old(self).flights@.len() + 1,
            final(self).flights@.drop_last() == old(self).flights@,
            Self::render_flight(
                old(queue).priority,
                lanes@,
                *a,
                heads@,
                epochs@,
                final(self).flights@.last(),
                va,
                owner,
                root,
                scene,
                now,
            ),
            final(self).render_publication == (old(self).render_publication + 1)
                % 0x1_0000_0000_0000_0000,
            *final(self) == (Session {
                flights: final(self).flights,
                render_publication: final(self).render_publication,
                batch_works: (old(self).batch_works + 1) as u64,
                render_failed: false,
                ..*old(self)
            }),
    {
        let tiling = Stamp {
            address: a.tiling_firmware_stamp,
            value: low32(a.tiling_stamp),
            event: low32(a.tiling_event),
        };
        let fragment = Stamp {
            address: a.fragment_firmware_stamp,
            value: low32(a.fragment_stamp),
            event: low32(a.fragment_event),
        };
        let channel: usize = queue.priority as usize * 3;
        let flight = Flight {
            id: va,
            owner,
            context: low32(a.context_id),
            started: now,
            stamps: [Some(tiling), Some(fragment)],
            driver_stamps: [
                Some(Stamp { address: a.tiling_driver_stamp, ..tiling }),
                Some(Stamp { address: a.fragment_driver_stamp, ..fragment }),
            ],
            queues: [Some((lanes[0].pointers, heads[0])), Some((lanes[1].pointers, heads[1]))],
            channels: [
                Some((channel, (epochs[0] + 1) % 256)),
                Some((channel + 1, (epochs[1] + 1) % 256)),
            ],
            render: Some(RenderFlight { addresses: *a, root, memory_limit: false, scene }),
        };
        proof {
            assert(flight.stamps@ =~= seq![Some(tiling), Some(fragment)]);
            assert(flight.driver_stamps@ =~= seq![
                Some(Stamp { address: a.tiling_driver_stamp, ..tiling }),
                Some(Stamp { address: a.fragment_driver_stamp, ..fragment }),
            ]);
            assert(flight.queues@ =~= seq![
                Some((lanes@[0].pointers, heads@[0])),
                Some((lanes@[1].pointers, heads@[1])),
            ]);
            assert(flight.channels@ =~= seq![
                Some(((queue.priority * 3) as usize, ((epochs@[0] + 1) % 256) as u32)),
                Some(((queue.priority * 3 + 1) as usize, ((epochs@[1] + 1) % 256) as u32)),
            ]);
        }
        let mut next: [Lane; 3] = *lanes;
        next[0] = Lane { head: heads[0], new: false, ..lanes[0] };
        next[1] = Lane { head: heads[1], new: false, ..lanes[1] };
        proof {
            assert(old(queue).lanes->0 == *lanes);
            assert(lanes@[0].wf() && lanes@[1].wf() && lanes@[2].wf());
            assert forall|stage: int| 0 <= stage < 3 implies (#[trigger] next@[stage]).wf() by {}
        }
        queue.lanes = Some(next);
        queue.render_count = queue.render_count.wrapping_add(1);
        let mut last: [Option<Stamp>; 2] = queue.last;
        last[0] = Some(fragment);
        queue.last = last;
        queue.pending = queue.pending + 1;
        let ghost before = self.flights@;
        self.flights.push(flight);
        assert(self.flights@.drop_last() =~= before);
        self.render_publication = self.render_publication.wrapping_add(1);
        self.batch_works = self.batch_works + 1;
        self.render_failed = false;
        Receipt { id: va, stamp: fragment }
    }
}

} // verus!
