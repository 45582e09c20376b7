//! Publication of a submission as a whole. From its first store on, a failure quarantines the device:
//! whether the firmware has taken up a part of the work is not known.
use crate::bytes::low32;
use crate::compute;
use crate::error::Error;
use crate::flights;
use crate::flights::{Publication, Session};
use crate::lanes::{FirmwareQueues, Lane, Stamp};
use crate::launch::Support;
use crate::plan;
use crate::plan::{push_word, Write};
use crate::render;
use crate::submit;
use crate::submit::{publish_render, render_work, Receipt};
use crate::submit_compute;
use crate::submit_compute::publish_compute;
use crate::tvb::Tvb;
use vstd::prelude::*;

verus! {

/// What a render is published with.
#[derive(Clone, Copy, Debug)]
pub struct RenderJob {
    pub parameters: render::Parameters,
    pub addresses: render::Addresses,
    /// The work, which identifies the render.
    pub work: u64,
    /// The public queue that it came from.
    pub owner: u64,
    /// The client's root.
    pub root: u64,
    /// The leased scene of the client's buffer.
    pub scene: u32,
    pub dependencies: [Option<Stamp>; 2],
    /// The two ratios of the merge limits, as bit patterns of floating-point numbers.
    pub ratio: (u32, u32),
}

impl RenderJob {
    /// Whether the work can be encoded.
    #[verifier::opaque]
    pub open spec fn encodes(self) -> bool {
        self.parameters.is_valid() && self.addresses.is_valid()
    }

    /// Whether what is stored has addresses.
    pub open spec fn placed(self) -> bool {
        &&& submit::render_placed(self.addresses)
        &&& self.work + 0x118 <= u64::MAX
    }

    /// The heads of the two queues after the render, where the buffer of the client is ready or not.
    pub open spec fn heads(self, lanes: Seq<Lane>, ready: bool) -> Seq<u32> {
        let init = !ready;
        let at_fragment = self.parameters.vdm_barrier_fragment;
        seq![
            submit::head_after(
                lanes[0].head,
                submit::waits(self.dependencies@, at_fragment, 0),
                0,
                init,
            ),
            submit::head_after(
                lanes[1].head,
                submit::waits(self.dependencies@, at_fragment, 1),
                1,
                init,
            ),
        ]
    }

    /// What is stored: the number of work items of the support object, then the render.
    #[verifier::opaque]
    pub open spec fn writes(self, lanes: Seq<Lane>, pool: Tvb, support: Support) -> Seq<plan::Stored> {
        let a = self.addresses;
        let count = ((support.submissions + 2) % 0x1_0000_0000_0000_0000) as u64;
        seq![(a.render_shared_state, plan::word(low32(count)), true)] + submit::render_writes(
            a,
            submit::tiling_image(self.parameters, a, self.work),
            submit::fragment_image(self.parameters, a, self.work, self.ratio),
            lanes,
            !pool.initialized,
            pool.blocks,
            self.dependencies@,
            self.parameters.vdm_barrier_fragment,
        )
    }

    /// The events of the two stages.
    pub open spec fn events(self) -> (u32, u32) {
        (low32(self.addresses.tiling_event), low32(self.addresses.fragment_event))
    }

    /// The completion that later work can wait for.
    pub open spec fn completion(self) -> Stamp {
        Stamp {
            address: self.addresses.fragment_firmware_stamp,
            value: low32(self.addresses.fragment_stamp),
            event: low32(self.addresses.fragment_event),
        }
    }

    /// Whether the two queues are staged one after the other.
    pub open spec fn stages(
        self,
        before: Session,
        after: Session,
        queue: FirmwareQueues,
        ready: bool,
        tails: Seq<u32>,
        out: Result<[u32; 2], Error>,
    ) -> bool {
        exists|middle: Seq<Publication>, first: Result<u32, Error>| #[trigger]
            Session::staged_render(
                before.publications@,
                middle,
                after.publications@,
                queue.priority,
                queue.lanes->0@,
                self.events(),
                self.heads(queue.lanes->0@, ready),
                tails,
                ((before.render_publication + 1) % 0x1_0000_0000_0000_0000) as u64,
                first,
                out,
            )
    }

    /// Whether a queue has advanced past the render, where the buffer of the client is ready or not.
    pub open spec fn advances(self, before: FirmwareQueues, after: FirmwareQueues, ready: bool) -> bool {
        let lanes = before.lanes->0@;
        let heads = self.heads(lanes, ready);
        &&& after.wf()
        &&& after.render_count == (before.render_count + 1) % 0x1_0000_0000_0000_0000
        &&& after.pending == before.pending + 1
        &&& after.last@ == before.last@.update(0, Some(self.completion()))
        &&& after.lanes is Some
        &&& after.lanes->0@ == lanes.update(
            0,
            (Lane { head: heads[0], new: false, ..lanes[0] }),
        ).update(1, (Lane { head: heads[1], new: false, ..lanes[1] }))
        &&& after == (FirmwareQueues {
            render_count: after.render_count,
            pending: after.pending,
            last: after.last,
            lanes: after.lanes,
            ..before
        })
    }

    /// Whether a session has the render outstanding, whose queues got these epochs.
    pub open spec fn launched(
        self,
        before: Session,
        after: Session,
        queue: FirmwareQueues,
        ready: bool,
        epochs: [u32; 2],
        now: u64,
    ) -> bool {
        let lanes = queue.lanes->0@;
        &&& after.flights@.len() == before.flights@.len() + 1
        &&& after.flights@.drop_last() == before.flights@
        &&& Session::render_flight(
            queue.priority,
            lanes,
            self.addresses,
            self.heads(lanes, ready),
            epochs@,
            after.flights@.last(),
            self.work,
            self.owner,
            self.root,
            self.scene,
            now,
        )
        &&& after.render_publication == (before.render_publication + 1) % 0x1_0000_0000_0000_0000
        &&& after == (Session {
            flights: after.flights,
            publications: after.publications,
            render_publication: after.render_publication,
            batch_works: (before.batch_works + 1) as u64,
            render_failed: false,
            ..before
        })
    }

    /// What is stored to publish the render, and the heads of its queues after that.
    fn encode(&self, lanes: &[Lane; 3], pool: &Tvb, support: &Support) -> (out: Result<
        (Vec<Write>, [u32; 2]),
        Error,
    >)
        requires
            self.placed(),
            lanes@[0].wf(),
            lanes@[1].wf(),
        ensures
            match out {
                Ok((writes, heads)) => {
                    &&& self.encodes()
                    &&& plan::stored(writes@) == self.writes(lanes@, *pool, *support)
                    &&& heads@ == self.heads(lanes@, pool.initialized)
                    &&& heads@[0] < 0x500 && heads@[1] < 0x500
                },
                Err(e) => e == Error::EINVAL && !self.encodes(),
            },
    {
        proof {
            reveal(RenderJob::encodes);
            reveal(RenderJob::writes);
        }
        let a = &self.addresses;
        let (tiling, fragment) = match render_work(&self.parameters, a, self.work, self.ratio) {
            Err(e) => {
                return Err(e);
            },
            Ok(images) => images,
        };
        let (count, _): (u32, u64) = support.next_count();
        let mut writes: Vec<Write> = Vec::new();
        push_word(&mut writes, a.render_shared_state, count);
        let ghost first = plan::stored(writes@);
        let (mut rest, heads): (Vec<Write>, [u32; 2]) = publish_render(
            a,
            &tiling,
            &fragment,
            lanes,
            !pool.initialized,
            pool.blocks,
            &self.dependencies,
            self.parameters.vdm_barrier_fragment,
        );
        let ghost later = plan::stored(rest@);
        let ghost stores = writes@ + rest@;
        writes.append(&mut rest);
        proof {
            assert(first =~= seq![(a.render_shared_state, plan::word(count), true)]);
            assert(plan::stored(stores) =~= first + later);
            assert(heads@ =~= self.heads(lanes@, pool.initialized));
        }
        Ok((writes, heads))
    }
}

impl Session {
    /// Publishes a render. Its buffer is readied by the first render that uses it. Answers what is to be
    /// stored, in order, and the receipt of the render; on failure the device is quarantined, and only
    /// what is staged may have changed besides.
    pub fn submit_render_pool(
        &mut self,
        queue: &mut FirmwareQueues,
        pool: &mut Tvb,
        support: &mut Support,
        job: &RenderJob,
        tails: &[u32; 2],
        now: u64,
    ) -> (out: Result<(Vec<Write>, Receipt), Error>)
        requires
            old(self).staged_wf(),
            old(self).publications@.len() + 2 <= 0x1000_0000,
            old(self).batch_works < u64::MAX,
            old(queue).wf(),
            old(queue).priority <= 3,
            old(queue).pending < u64::MAX,
            job.placed(),
        ensures
            final(self).staged_wf(),
            *final(pool) == (Tvb { initialized: old(pool).initialized || out is Ok, ..*old(pool) }),
            match out {
                Ok((writes, receipt)) => {
                    &&& old(queue).lanes is Some
                    &&& job.encodes()
                    &&& plan::stored(writes@) == job.writes(
                        old(queue).lanes->0@,
                        *old(pool),
                        *old(support),
                    )
                    &&& receipt == (Receipt { id: job.work, stamp: job.completion() })
                    &&& job.advances(*old(queue), *final(queue), old(pool).initialized)
                    &&& final(support).submissions == (old(support).submissions + 2)
                        % 0x1_0000_0000_0000_0000
                    &&& *final(support) == (Support {
                        submissions: final(support).submissions,
                        ..*old(support)
                    })
                    &&& exists|epochs: [u32; 2]|
                        {
                            &&& #[trigger] job.launched(
                                *old(self),
                                *final(self),
                                *old(queue),
                                old(pool).initialized,
                                epochs,
                                now,
                            )
                            &&& job.stages(
                                *old(self),
                                *final(self),
                                *old(queue),
                                old(pool).initialized,
                                tails@,
                                Ok(epochs),
                            )
                        }
                },
                Err(e) => {
                    &&& *final(queue) == *old(queue)
                    &&& *final(support) == *old(support)
                    &&& *final(self) == (Session {
                        render_failed: true,
                        publications: final(self).publications,
                        ..*old(self)
                    })
                    &&& if old(queue).lanes is None {
                        e == Error::EIO && final(self).publications == old(self).publications
                    } else if !job.encodes() {
                        e == Error::EINVAL && final(self).publications == old(self).publications
                    } else {
                        job.stages(
                            *old(self),
                            *final(self),
                            *old(queue),
                            old(pool).initialized,
                            tails@,
                            Err(e),
                        )
                    }
                },
            },
    {
        self.render_failed = true;
        let lanes: [Lane; 3] = match queue.lanes {
            None => {
                return Err(Error::EIO);
            },
            Some(lanes) => lanes,
        };
        assert(lanes@[0].wf() && lanes@[1].wf());
        let init: bool = !pool.initialized;
        let (writes, heads): (Vec<Write>, [u32; 2]) = match job.encode(&lanes, pool, support) {
            Err(e) => {
                return Err(e);
            },
            Ok(encoded) => encoded,
        };
        let a = &job.addresses;
        let (_, submissions): (u32, u64) = support.next_count();
        let events: (u32, u32) = (low32(a.tiling_event), low32(a.fragment_event));
        let staged: Result<[u32; 2], Error> = self.stage_render(queue, &lanes, events, &heads, tails);
        proof {
            assert(events == job.events());
            assert(job.stages(*old(self), *self, *old(queue), !init, tails@, staged));
        }
        let epochs: [u32; 2] = match staged {
            Err(e) => {
                return Err(e);
            },
            Ok(epochs) => epochs,
        };
        pool.initialized = true;
        support.submissions = submissions;
        let receipt: Receipt = self.launch_render(
            queue,
            &lanes,
            a,
            &heads,
            &epochs,
            job.work,
            job.owner,
            job.root,
            job.scene,
            now,
        );
        proof {
            assert(job.launched(*old(self), *self, *old(queue), !init, epochs, now));
        }
        Ok((writes, receipt))
    }
}

/// What a compute work is published with.
#[derive(Clone, Copy, Debug)]
pub struct ComputeJob {
    pub parameters: compute::Parameters,
    pub addresses: compute::Addresses,
    /// The public queue that it came from.
    pub owner: u64,
    pub timestamps: [u64; 4],
    pub dependencies: [Option<Stamp>; 2],
}

impl ComputeJob {
    /// Whether the work can be encoded.
    #[verifier::opaque]
    pub open spec fn encodes(self) -> bool {
        submit_compute::with_save_area(self.parameters, self.addresses.work).is_valid()
    }

    /// Whether what is stored has addresses.
    pub open spec fn placed(self) -> bool {
        &&& submit_compute::compute_placed(self.addresses.work)
        &&& self.addresses.microsequence + 0x160 <= u64::MAX
        &&& self.addresses.notifier + 0x24 <= u64::MAX
        &&& self.parameters.scratch + 0x1f000 <= u64::MAX
    }

    /// The head of the queue after the work.
    pub open spec fn head(self, lane: Lane) -> u32 {
        ((lane.head + 1 + submit::present(self.dependencies@[0], self.dependencies@[1]).len())
            % 0x500) as u32
    }

    /// What is stored: the number of published works, then the work.
    #[verifier::opaque]
    pub open spec fn writes(self, lane: Lane) -> Seq<plan::Stored> {
        submit_compute::compute_writes(
            submit_compute::with_save_area(self.parameters, self.addresses.work),
            self.addresses,
            lane,
            self.timestamps@,
            self.dependencies@,
        )
    }

    /// The completion that later work can wait for.
    pub open spec fn completion(self) -> Stamp {
        Stamp {
            address: self.addresses.firmware_stamp,
            value: self.addresses.stamp,
            event: self.addresses.event,
        }
    }

    /// Whether the queue is staged.
    pub open spec fn stages(
        self,
        before: Session,
        after: Session,
        queue: FirmwareQueues,
        tail: u32,
        out: Result<u32, Error>,
    ) -> bool {
        let lane = queue.lanes->0@[2];
        flights::staging(
            before.publications@,
            after.publications@,
            (queue.priority * 3 + 2) as usize,
            (Lane { head: self.head(lane), ..lane }),
            self.addresses.event,
            ((before.compute_publication + 1) % 0x1_0000_0000_0000_0000) as u64,
            tail,
            out,
        )
    }

    /// Whether a queue has advanced past the work.
    pub open spec fn advances(self, before: FirmwareQueues, after: FirmwareQueues) -> bool {
        let lanes = before.lanes->0@;
        &&& after.wf()
        &&& after.compute_count == (before.compute_count + 1) % 0x1_0000_0000_0000_0000
        &&& after.pending == before.pending + 1
        &&& after.last@ == before.last@.update(1, Some(self.completion()))
        &&& after.lanes is Some
        &&& after.lanes->0@ == lanes.update(
            2,
            (Lane { head: self.head(lanes[2]), new: false, ..lanes[2] }),
        )
        &&& after == (FirmwareQueues {
            compute_count: after.compute_count,
            pending: after.pending,
            last: after.last,
            lanes: after.lanes,
            ..before
        })
    }

    /// Whether a session has the work outstanding, whose queue got this epoch.
    pub open spec fn launched(
        self,
        before: Session,
        after: Session,
        queue: FirmwareQueues,
        epoch: u32,
        now: u64,
    ) -> bool {
        let lane = queue.lanes->0@[2];
        &&& after.flights@.len() == before.flights@.len() + 1
        &&& after.flights@.drop_last() == before.flights@
        &&& Session::compute_flight(
            queue.priority,
            lane,
            self.addresses,
            self.head(lane),
            epoch,
            after.flights@.last(),
            self.owner,
            now,
        )
        &&& after.compute_publication == (before.compute_publication + 1) % 0x1_0000_0000_0000_0000
        &&& after == (Session {
            flights: after.flights,
            publications: after.publications,
            compute_publication: after.compute_publication,
            batch_works: (before.batch_works + 1) as u64,
            render_failed: false,
            ..before
        })
    }

    /// What is stored to publish the work, and the head of its queue after that.
    fn encode(&self, lane: &Lane) -> (out: Result<(Vec<Write>, u32), Error>)
        requires
            self.placed(),
            lane.wf(),
        ensures
            match out {
                Ok((writes, head)) => {
                    &&& self.encodes()
                    &&& plan::stored(writes@) == self.writes(*lane)
                    &&& head == self.head(*lane)
                    &&& head < 0x500
                },
                Err(e) => e == Error::EINVAL && !self.encodes(),
            },
    {
        proof {
            reveal(ComputeJob::encodes);
            reveal(ComputeJob::writes);
        }
        publish_compute(
            &self.parameters,
            &self.addresses,
            lane,
            &self.timestamps,
            &self.dependencies,
        )
    }
}

impl Session {
    /// Publishes a compute work. Answers what is to be stored, in order, and the receipt of the work; on
    /// failure the device is quarantined, and only what is staged may have changed besides.
    pub fn submit_compute_queue(
        &mut self,
        queue: &mut FirmwareQueues,
        job: &ComputeJob,
        tail: u32,
        now: u64,
    ) -> (out: Result<(Vec<Write>, Receipt), Error>)
        requires
            old(self).staged_wf(),
            old(self).publications@.len() + 1 <= 0x1000_0000,
            old(self).batch_works < u64::MAX,
            old(queue).wf(),
            old(queue).priority <= 3,
            old(queue).pending < u64::MAX,
            job.placed(),
        ensures
            final(self).staged_wf(),
            match out {
                Ok((writes, receipt)) => {
                    &&& old(queue).lanes is Some
                    &&& job.encodes()
                    &&& plan::stored(writes@) == job.writes(old(queue).lanes->0@[2])
                    &&& receipt == (Receipt { id: job.addresses.work, stamp: job.completion() })
                    &&& job.advances(*old(queue), *final(queue))
                    &&& exists|epoch: u32|
                        {
                            &&& #[trigger] job.launched(
                                *old(self),
                                *final(self),
                                *old(queue),
                                epoch,
                                now,
                            )
                            &&& job.stages(*old(self), *final(self), *old(queue), tail, Ok(epoch))
                        }
                },
                Err(e) => {
                    &&& *final(queue) == *old(queue)
                    &&& *final(self) == (Session {
                        render_failed: true,
                        publications: final(self).publications,
                        ..*old(self)
                    })
                    &&& if old(queue).lanes is None {
                        e == Error::EIO && final(self).publications == old(self).publications
                    } else if !job.encodes() {
                        e == Error::EINVAL && final(self).publications == old(self).publications
                    } else {
                        job.stages(*old(self), *final(self), *old(queue), tail, Err(e))
                    }
                },
            },
    {
        self.render_failed = true;
        let lanes: [Lane; 3] = match queue.lanes {
            None => {
                return Err(Error::EIO);
            },
            Some(lanes) => lanes,
        };
        assert(lanes@[2].wf());
        let mut lane: Lane = lanes[2];
        let (writes, head): (Vec<Write>, u32) = match job.encode(&lane) {
            Err(e) => {
                return Err(e);
            },
            Ok(encoded) => encoded,
        };
        lane.head = head;
        let a = &job.addresses;
        let count: u64 = self.compute_publication.wrapping_add(1);
        let channel: usize = queue.priority as usize * 3 + 2;
        let staged: Result<u32, Error> = self.stage_queue(channel, lane, a.event, count, tail);
        proof {
            assert(count == ((old(self).compute_publication + 1) % 0x1_0000_0000_0000_0000) as u64);
            assert(job.stages(*old(self), *self, *old(queue), tail, staged));
        }
        let epoch: u32 = match staged {
            Err(e) => {
                return Err(e);
            },
            Ok(epoch) => epoch,
        };
        let receipt: Receipt = self.launch_compute(queue, &lanes, a, head, epoch, job.owner, now);
        proof {
            assert(job.launched(*old(self), *self, *old(queue), epoch, now));
        }
        Ok((writes, receipt))
    }

    /// Gives the scene of a render back that was not published, unless the device is quarantined: then
    /// the scene may be in use.
    pub fn abandon_render(&mut self, root: u64, scene: u32)
        requires
            scene < 36,
        ensures
            *final(self) == (Session { tvb_pools: final(self).tvb_pools, ..*old(self) }),
            if old(self).render_failed {
                *final(self) == *old(self)
            } else {
                ||| final(self).tvb_pools@ == old(self).tvb_pools@ && forall|i: int|
                    0 <= i < old(self).tvb_pools@.len() ==> (#[trigger] old(self).tvb_pools@[i]).root
                        != root
                ||| exists|i: int|
                    {
                        let pool = old(self).tvb_pools@[i];
                        let after = final(self).tvb_pools@[i];
                        &&& #[trigger] old(self).pool_at(root, i)
                        &&& after.scenes@ == pool.scenes@.update(scene as int, false)
                        &&& final(self).tvb_pools@ == old(self).tvb_pools@.update(
                            i,
                            (Tvb { scenes: after.scenes, ..pool }),
                        )
                    }
            },
    {
        if self.render_failed {
            return;
        }
        match self.find_pool(root) {
            None => {},
            Some(i) => {
                let ghost before = self.tvb_pools@;
                self.tvb_pools[i].release_scene(scene);
                proof {
                    let after = self.tvb_pools@[i as int];
                    assert(old(self).pool_at(root, i as int));
                    assert(self.tvb_pools@ =~= before.update(
                        i as int,
                        (Tvb { scenes: after.scenes, ..before[i as int] }),
                    ));
                }
            },
        }
    }
}

} // verus!
