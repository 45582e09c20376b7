//! What a submission is published with, made from the counters of its queue and of the session.
use crate::compute;
use crate::error::Error;
use crate::flights::Session;
use crate::lanes::{FirmwareQueues, Lane, Stamp, WORK_BASE};
use crate::launch::Support;
use crate::publish::{ComputeJob, RenderJob};
use crate::render;
use crate::stamp;
use crate::submit;
use crate::submit::render_addresses;
use crate::submit_compute;
use crate::submit_compute::compute_addresses;
use crate::tvb::Tvb;
use vstd::prelude::*;

verus! {

/// What a submission brings along: who asked for it, the storage and the context it got, where the client
/// wants its times, and what it waits for.
#[derive(Clone, Copy, Debug)]
pub struct Order {
    /// The public queue that it came from.
    pub owner: u64,
    /// The storage, which identifies the work.
    pub work: u64,
    pub context: u32,
    pub timestamps: [u64; 4],
    pub dependencies: [Option<Stamp>; 2],
}

/// The event of a stage of a queue that has events.
pub open spec fn event_of(queue: FirmwareQueues, stage: int) -> u32 {
    (32 + queue.events->0 * 3 + stage) as u32
}

/// What a compute work of a queue is published with. Its number is that of the session's next compute, its
/// stamp that of the queue's next one.
pub open spec fn compute_job_of(
    session: Session,
    queue: FirmwareQueues,
    parameters: compute::Parameters,
    order: Order,
) -> ComputeJob {
    ComputeJob {
        parameters,
        addresses: submit_compute::compute_addresses_of(
            session.compute_publication,
            queue.compute_count,
            order.work,
            queue.lanes->0@[2],
            event_of(queue, 2),
            order.context,
        ),
        owner: order.owner,
        timestamps: order.timestamps,
        dependencies: order.dependencies,
    }
}

/// What a render of a queue is published with, which uses a buffer and one of its scenes. Its counters and
/// stamps are those of the queue's next render.
pub open spec fn render_job_of(
    queue: FirmwareQueues,
    pool: Tvb,
    support: Support,
    parameters: render::Parameters,
    scene: u32,
    ratio: (u32, u32),
    order: Order,
) -> RenderJob {
    RenderJob {
        parameters,
        addresses: submit::render_addresses_of(
            pool,
            scene,
            queue.lanes->0@,
            (event_of(queue, 0), event_of(queue, 1)),
            queue.render_count,
            support.address_of() as u64,
            parameters,
            order.work,
            order.context,
            order.timestamps@,
        ),
        work: order.work,
        owner: order.owner,
        root: pool.root,
        scene,
        dependencies: order.dependencies,
        ratio,
    }
}

impl Session {
    /// Makes what a compute work of a queue is published with. The queue needs its storage and its events,
    /// and the work an alias.
    pub fn compute_job(&self, queue: &FirmwareQueues, parameters: &compute::Parameters, order: &Order) -> (out:
        Result<ComputeJob, Error>)
        requires
            queue.wf(),
            WORK_BASE <= order.work,
        ensures
            match out {
                Ok(job) => {
                    &&& queue.lanes is Some
                    &&& queue.events is Some
                    &&& submit_compute::compute_placed(order.work)
                    &&& job == compute_job_of(*self, *queue, *parameters, *order)
                    &&& parameters.scratch + 0x1f000 <= u64::MAX ==> job.placed()
                },
                Err(e) => if queue.lanes is None || queue.events is None {
                    e == Error::EIO
                } else {
                    e == Error::ENOSPC && !submit_compute::compute_placed(order.work)
                },
            },
    {
        let lanes: [Lane; 3] = match queue.lanes {
            None => {
                return Err(Error::EIO);
            },
            Some(lanes) => lanes,
        };
        assert(lanes@[2].wf());
        let event: u32 = match queue.event(2) {
            Err(e) => {
                return Err(e);
            },
            Ok(event) => event,
        };
        match submit_compute::compute_alias(order.work) {
            Err(e) => {
                return Err(e);
            },
            Ok(_) => {},
        }
        let addresses: compute::Addresses = compute_addresses(
            self.compute_publication,
            queue.compute_count,
            order.work,
            &lanes[2],
            event,
            order.context,
        );
        Ok(
            ComputeJob {
                parameters: *parameters,
                addresses,
                owner: order.owner,
                timestamps: order.timestamps,
                dependencies: order.dependencies,
            },
        )
    }

    /// Makes what a render of a queue is published with. The client needs a buffer, the queue its storage
    /// and its events, and the work an alias.
    pub fn render_job(
        &self,
        queue: &FirmwareQueues,
        root: u64,
        support: &Support,
        parameters: &render::Parameters,
        scene: u32,
        ratio: (u32, u32),
        order: &Order,
    ) -> (out: Result<RenderJob, Error>)
        requires
            queue.wf(),
            support.wf(),
            scene < 36,
            WORK_BASE <= order.work,
            order.work % 0x4000 == 0,
            self.pools_placed(),
        ensures
            match out {
                Ok(job) => {
                    &&& queue.lanes is Some
                    &&& queue.events is Some
                    &&& submit::work_placed(order.work)
                    &&& exists|i: int|
                        {
                            &&& #[trigger] self.pool_at(root, i)
                            &&& job == render_job_of(
                                *queue,
                                self.tvb_pools@[i],
                                *support,
                                *parameters,
                                scene,
                                ratio,
                                *order,
                            )
                        }
                    &&& job.placed()
                    &&& job.encodes() == parameters.is_valid()
                },
                Err(e) => if queue.lanes is None || queue.events is None || !self.has_pool(root) {
                    e == Error::EIO
                } else {
                    e == Error::ENOSPC && !submit::work_placed(order.work)
                },
            },
    {
        let lanes: [Lane; 3] = match queue.lanes {
            None => {
                return Err(Error::EIO);
            },
            Some(lanes) => lanes,
        };
        assert(lanes@[0].wf() && lanes@[1].wf());
        let events: (u32, u32) = match (queue.event(0), queue.event(1)) {
            (Ok(tiling), Ok(fragment)) => (tiling, fragment),
            _ => {
                return Err(Error::EIO);
            },
        };
        let index: usize = match self.find_pool(root) {
            None => {
                return Err(Error::EIO);
            },
            Some(index) => index,
        };
        assert(self.tvb_pools@[index as int].root == root);
        match submit::render_alias(order.work) {
            Err(e) => {
                return Err(e);
            },
            Ok(_) => {},
        }
        let pool: &Tvb = &self.tvb_pools[index];
        let addresses: render::Addresses = render_addresses(
            pool,
            scene,
            &lanes,
            events,
            queue.render_count,
            support.address(),
            parameters,
            order.work,
            order.context,
            &order.timestamps,
        );
        let job = RenderJob {
            parameters: *parameters,
            addresses,
            work: order.work,
            owner: order.owner,
            root: pool.root,
            scene,
            dependencies: order.dependencies,
            ratio,
        };
        proof {
            reveal(RenderJob::encodes);
            assert(self.pool_at(root, index as int));
            assert(job == render_job_of(
                *queue,
                self.tvb_pools@[index as int],
                *support,
                *parameters,
                scene,
                ratio,
                *order,
            ));
        }
        Ok(job)
    }
}

/// The stamps of a queue's computes follow each other by one step, whatever other queues publish between
/// them, and so for ever: the count of the queue wraps with its stamps.
pub proof fn lemma_compute_stamps_follow(
    before: FirmwareQueues,
    after: FirmwareQueues,
    sessions: (Session, Session),
    parameters: (compute::Parameters, compute::Parameters),
    orders: (Order, Order),
)
    requires
        compute_job_of(sessions.0, before, parameters.0, orders.0).advances(before, after),
    ensures
        ({
            let first = compute_job_of(sessions.0, before, parameters.0, orders.0).addresses;
            let second = compute_job_of(sessions.1, after, parameters.1, orders.1).addresses;
            &&& second.stamp == (first.stamp + stamp::STEP) % 0x1_0000_0000
            &&& second.firmware_stamp == first.firmware_stamp
            &&& second.event == first.event
        }),
{
}

/// The stamps of both stages of a queue's renders follow each other by one step, whatever other queues
/// publish between them.
pub proof fn lemma_render_stamps_follow(
    before: FirmwareQueues,
    after: FirmwareQueues,
    pools: (Tvb, Tvb),
    supports: (Support, Support),
    parameters: (render::Parameters, render::Parameters),
    scenes: (u32, u32),
    ratios: ((u32, u32), (u32, u32)),
    orders: (Order, Order),
)
    requires
        render_job_of(before, pools.0, supports.0, parameters.0, scenes.0, ratios.0, orders.0).advances(
            before,
            after,
            pools.0.initialized,
        ),
    ensures
        ({
            let first = render_job_of(
                before,
                pools.0,
                supports.0,
                parameters.0,
                scenes.0,
                ratios.0,
                orders.0,
            ).addresses;
            let second = render_job_of(
                after,
                pools.1,
                supports.1,
                parameters.1,
                scenes.1,
                ratios.1,
                orders.1,
            ).addresses;
            &&& second.tiling_stamp == (first.tiling_stamp + stamp::STEP) % 0x1_0000_0000
            &&& second.fragment_stamp == (first.fragment_stamp + stamp::STEP) % 0x1_0000_0000
            &&& second.tiling_firmware_stamp == first.tiling_firmware_stamp
            &&& second.fragment_firmware_stamp == first.fragment_firmware_stamp
        }),
{
    stamp::lemma_stamp_next(before.render_count, after.render_count, 0x100);
    stamp::lemma_stamp_next(before.render_count, after.render_count, 0xc00);
    assert(after.lanes->0@[0].pointers == before.lanes->0@[0].pointers);
    assert(after.lanes->0@[1].pointers == before.lanes->0@[1].pointers);
}

/// The number of a compute is one more than that of the compute which the session published before it,
/// whatever queues the two came from.
pub proof fn lemma_compute_numbers_follow(
    before: Session,
    after: Session,
    queues: (FirmwareQueues, FirmwareQueues),
    parameters: (compute::Parameters, compute::Parameters),
    orders: (Order, Order),
    epoch: u32,
    now: u64,
)
    requires
        compute_job_of(before, queues.0, parameters.0, orders.0).launched(
            before,
            after,
            queues.0,
            epoch,
            now,
        ),
    ensures
        compute_job_of(after, queues.1, parameters.1, orders.1).addresses.counter == (compute_job_of(
            before,
            queues.0,
            parameters.0,
            orders.0,
        ).addresses.counter + 1) % 0x1_0000_0000_0000_0000,
{
}

} // verus!
