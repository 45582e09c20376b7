//! What holds between the work of a session, its storage and what is told about it.
use crate::bytes;
use crate::compute;
use crate::compute_laws;
use crate::error::Error;
use crate::events;
use crate::flights::{Flight, Publication, Session};
use crate::flush;
use crate::fw;
use crate::growth;
use crate::jobs;
use crate::jobs::Order;
use crate::lanes::{FirmwareQueues, Lane};
use crate::launch::Support;
use crate::object_laws;
use crate::publish::{ComputeJob, RenderJob};
use crate::publish_laws;
use crate::render;
use crate::render::Addresses;
use crate::retire;
use crate::retire::Progress;
use crate::submit;
use crate::submit_compute;
use crate::tvb;
use crate::tvb::Tvb;
use vstd::prelude::*;

verus! {

/// Everything that a compute work owns lies in two pages of its own storage, in order and apart; the GPU sees
/// its registers and its command stream at the same places of the alias.
pub proof fn lemma_compute_storage(index: u64, ordinal: u64, work: u64, lane: Lane, event: u32, context: u32)
    requires
        lane.wf(),
        submit_compute::compute_placed(work),
    ensures
        ({
            let a = submit_compute::compute_addresses_of(index, ordinal, work, lane, event, context);
            let seen = 0x71_0000_0000 + (work - 0xffff_fc22_0000_0000);
            &&& a.work == work
            &&& a.microsequence == work + 0x1000
            &&& a.notifier == a.microsequence + 0x400
            &&& a.timestamp_start == a.notifier + 0x300
            &&& a.timestamp_end == a.timestamp_start + 8
            &&& a.threshold == work + 0x1800
            &&& a.driver_stamp == work + 0x4000
            &&& a.register_table == seen + 0x20
            &&& a.cdm_entry == Some((seen + 0x1a00) as u64)
            &&& 0x71_0000_0000 <= seen && seen + 0x4000 <= 0x72_0000_0000
        }),
{
}

/// A compute work speaks of the queue that it is pushed to, of the stamp beside the cursors of that queue, and
/// of the event and the context that it was given.
pub proof fn lemma_compute_links(index: u64, ordinal: u64, work: u64, lane: Lane, event: u32, context: u32)
    requires
        lane.wf(),
        submit_compute::compute_placed(work),
    ensures
        ({
            let a = submit_compute::compute_addresses_of(index, ordinal, work, lane, event, context);
            &&& a.queue == lane.queue
            &&& a.firmware_stamp == lane.queue + 0x5040
            &&& a.event == event
            &&& a.context == context
            &&& a.stats == 0xffff_fc20_c500_8000
            &&& a.support == 0xffff_fc20_c05e_8000
        }),
{
}

/// The numbers of a compute work: its counter is one more than the works before it on the device, its identity
/// has the context above the low half of the counter, its stamp is counted on the queue, from 0x100 on in
/// steps of 0x100.
pub proof fn lemma_compute_numbers(index: u64, ordinal: u64, work: u64, lane: Lane, event: u32, context: u32)
    ensures
        ({
            let a = submit_compute::compute_addresses_of(index, ordinal, work, lane, event, context);
            &&& a.counter == (index + 1) % 0x1_0000_0000_0000_0000
            &&& a.event_generation == (index + 1) % 0x1_0000_0000
            &&& a.identity / 0x1_0000_0000 == context
            &&& a.identity % 0x1_0000_0000 == (index + 1) % 0x1_0000_0000
            &&& a.register_identity / 0x1_0000_0000 == context
            &&& a.register_identity % 0x1_0000_0000 == 1
            &&& a.stamp == (ordinal + 1) * 0x100 % 0x1_0000_0000
            &&& a.ordinal == ordinal % 0x1_0000_0000
        }),
{
    let number = ((index + 1) % 0x1_0000_0000_0000_0000) as u64;
    assert(number % 0x1_0000_0000 == (index + 1) % 0x1_0000_0000);
    let low = bytes::low32(number);
    assert(context * 0x1_0000_0000 + low <= u64::MAX);
    assert((ordinal + 1) * 0x100 == 0x100 + ordinal * 0x100);
}

/// The state of a compute work is saved in the upper half of the page that the GPU sees of it, and nothing else
/// of its parameters changes with its place.
pub proof fn lemma_save_area(p: compute::Parameters, work: u64)
    requires
        submit_compute::compute_placed(work),
    ensures
        ({
            let q = submit_compute::with_save_area(p, work);
            &&& q.resource == 0x71_0000_2000 + (work - 0xffff_fc22_0000_0000)
            &&& q == (compute::Parameters { resource: q.resource, ..p })
        }),
{
}

/// Completion is waited for where the firmware reports it: the first stamp of an outstanding compute has the
/// place and the value that the command at its end stores, and the second the place that the notifier uses.
pub proof fn lemma_compute_awaited(
    p: compute::Parameters,
    a: compute::Addresses,
    priority: u32,
    lane: Lane,
    head: u32,
    epoch: u32,
    flight: Flight,
    owner: u64,
    now: u64,
)
    requires
        a.work + 0x8ac <= u64::MAX,
        a.microsequence + 0x160 <= u64::MAX,
        p.scratch + 0x1f000 <= u64::MAX,
        Session::compute_flight(priority, lane, a, head, epoch, flight, owner, now),
    ensures
        ({
            let m = bytes::image(0x300, p.microsequence_fields(a));
            &&& flight.stamps@[0] is Some
            &&& flight.stamps@[1] is None
            &&& bytes::u64_in(m, 0x284) == flight.stamps@[0]->0.address
            &&& bytes::u32_in(m, 0x28c) == flight.stamps@[0]->0.value
            &&& flight.driver_stamps@[0] is Some
            &&& flight.driver_stamps@[1] is None
            &&& flight.driver_stamps@[0]->0.address == a.driver_stamp
            &&& flight.driver_stamps@[0]->0.value == flight.stamps@[0]->0.value
            &&& flight.stamps@[0]->0.event == a.event
            &&& flight.id == a.work
            &&& flight.owner == owner
            &&& flight.started == now
            &&& flight.context == a.context
            &&& flight.render is None
            &&& flight.queues@[0] == Some((lane.pointers, head))
            &&& flight.queues@[1] is None
            &&& flight.channels@[1] is None
            &&& flight.channels@[0] is Some
            &&& priority <= 3 ==> (flight.channels@[0]->0).0 == 3 * priority + 2
            &&& epoch < 256 ==> (flight.channels@[0]->0).1 == if epoch == 255 {
                0
            } else {
                epoch + 1
            }
        }),
{
    compute_laws::lemma_finish_stamps(p, a);
}

/// The places of a render's work: tiling in the first two pages, shading in the next two, the shared parts in
/// pages of their own, and the stamps of the driver behind them.
#[verifier::rlimit(60)]
pub proof fn lemma_render_storage(
    pool: Tvb,
    scene: u32,
    lanes: Seq<Lane>,
    events: (u32, u32),
    ordinal: u64,
    support: u64,
    p: render::Parameters,
    va: u64,
    context: u32,
    timestamps: Seq<u64>,
)
    requires
        submit::work_placed(va),
    ensures
        ({
            let a = submit::render_addresses_of(
                pool,
                scene,
                lanes,
                events,
                ordinal,
                support,
                p,
                va,
                context,
                timestamps,
            );
            let seen = 0x72_0000_0000 + (va - 0xffff_fc22_0000_0000);
            &&& a.event_control == va + 0x200
            &&& a.event_count_array == va + 0x300
            &&& a.tiling_work == va + 0x2940
            &&& a.tiling_prelude == va + 0x4000
            &&& a.tiling_microsequence == va + 0x6340
            &&& a.fragment_work == va + 0x9b40
            &&& a.fragment_prelude == va + 0xc000
            &&& a.fragment_microsequence == va + 0xd680
            &&& a.tiling_shared_tail == va + 0x1_0000
            &&& a.fragment_shared_tail == va + 0x1_4000
            &&& a.tiling_driver_stamp == va + 0x1_8000
            &&& a.fragment_driver_stamp == va + 0x1_8040
            &&& a.tiling_register_alias == seen + (a.tiling_work - va) + 0x40
            &&& a.fragment_register_alias == seen + 0x4000 + (a.fragment_work - (va + 0x8000)) + 0x80
            &&& 0x72_0000_0000 <= seen && seen + 0x8000 <= 0x73_0000_0000
        }),
{
    let base = Addresses::initial();
    assert(va <= 0xffff_fc22_ffff_8000);
    assert(va + 0x2_0000 <= u64::MAX);
    assert(base.tiling_work % 0x4000 == 0x2940);
    assert(base.tiling_microsequence % 0x4000 == 0x2340);
    assert(base.tiling_register_alias % 0x4000 == 0x2980);
    assert(base.fragment_work % 0x4000 == 0x1b40);
    assert(base.fragment_microsequence % 0x4000 == 0x1680);
    assert(base.fragment_register_alias % 0x4000 == 0x1bc0);
}

/// A render speaks of the queues that its stages are pushed to, of the stamps beside their cursors, of the
/// events, the context, the support and the timestamps that it was given, of the buffer of its client, and of
/// the scene that it leased.
pub proof fn lemma_render_links(
    pool: Tvb,
    scene: u32,
    lanes: Seq<Lane>,
    events: (u32, u32),
    ordinal: u64,
    support: u64,
    p: render::Parameters,
    va: u64,
    context: u32,
    timestamps: Seq<u64>,
)
    requires
        lanes[0].wf(),
        lanes[1].wf(),
        scene < 36,
        pool.addresses.buffer_thing <= 0xffff_ffff_ffff_0000,
        support + 0x1000 <= u64::MAX,
    ensures
        ({
            let a = submit::render_addresses_of(
                pool,
                scene,
                lanes,
                events,
                ordinal,
                support,
                p,
                va,
                context,
                timestamps,
            );
            let b = pool.addresses;
            &&& a.tiling_queue == lanes[0].queue
            &&& a.fragment_queue == lanes[1].queue
            &&& a.tiling_firmware_stamp == lanes[0].queue + 0x5040
            &&& a.fragment_firmware_stamp == lanes[1].queue + 0x5040
            &&& a.tiling_event == events.0
            &&& a.fragment_event == events.1
            &&& a.context_id == context
            &&& a.support == support
            &&& a.render_shared_state == support + 0x1000
            &&& a.tiling_user_timestamp_start == timestamps[0]
            &&& a.tiling_user_timestamp_end == timestamps[1]
            &&& a.fragment_user_timestamp_start == timestamps[2]
            &&& a.fragment_user_timestamp_end == timestamps[3]
            &&& a.tiling_status_page == p.ta_status - p.ta_status % 0x4000
            &&& a.fragment_status_page == p.fragment_status - p.fragment_status % 0x4000
            &&& a.buffer_manager == b.buffer_manager
            &&& a.buffer_manager_slot == b.buffer_manager_slot
            &&& a.buffer_manager_block_control == b.buffer_manager_block_control
            &&& a.buffer_manager_scene_list == b.buffer_manager_scene_list
            &&& a.buffer_manager_counter == b.buffer_manager_counter
            &&& a.buffer_manager_block_list == b.buffer_manager_block_list
            &&& a.buffer_manager_page_list == b.buffer_manager_page_list
            &&& a.buffer_thing == b.buffer_thing - b.buffer_thing % 0x4000 + 0x80 * scene
        }),
{
}

/// The numbers of a render: shading has the even counters and tiling the odd ones; both stamps are counted on
/// the queue in steps of 0x100, those of shading from 0x100 on and those of tiling from 0xc00 on. The device
/// keeps its own places for all renders.
pub proof fn lemma_render_numbers(
    pool: Tvb,
    scene: u32,
    lanes: Seq<Lane>,
    events: (u32, u32),
    ordinal: u64,
    support: u64,
    p: render::Parameters,
    va: u64,
    context: u32,
    timestamps: Seq<u64>,
)
    ensures
        ({
            let a = submit::render_addresses_of(
                pool,
                scene,
                lanes,
                events,
                ordinal,
                support,
                p,
                va,
                context,
                timestamps,
            );
            &&& a.fragment_counter == 2 * ordinal % 0x1_0000_0000_0000_0000
            &&& a.tiling_counter == a.fragment_counter + 1
            &&& a.fragment_stamp == (ordinal + 1) * 0x100 % 0x1_0000_0000
            &&& a.tiling_stamp == (ordinal + 12) * 0x100 % 0x1_0000_0000
            &&& a.empty_buffer == 0xffff_fc20_c060_2800
            &&& a.pool_slots == 0x10_0008_0000
            &&& a.tiling_stats == 0xffff_fc20_c04d_a684
            &&& a.fragment_stats == 0xffff_fc20_c04d_b2c8
            &&& a.tiling_uuid == 0x900_a6bb
            &&& a.fragment_uuid == 0x900_a6ba
            &&& a.timestamp_start == 0xffff_fc20_0003_4fd8
            &&& a.timestamp_end == 0xffff_fc20_0003_4fe0
        }),
{
    assert((ordinal + 1) * 0x100 == 0x100 + ordinal * 0x100);
    assert((ordinal + 12) * 0x100 == 0xc00 + ordinal * 0x100);
}

/// A render uses the scene that it leased and the slot of its buffer; no other parameter changes with them.
pub proof fn lemma_scene_selected(p: render::Parameters, pool: Tvb, scene: u32)
    requires
        scene < 36,
    ensures
        ({
            let q = submit::scene_parameters(p, pool, scene);
            &&& q.scene_slot == scene
            &&& q.cycle == 0x24_0000 + 0x30 * scene
            &&& q.tiling_admission == pool.addresses.buffer_manager_slot
            &&& q.fragment_admission == pool.addresses.buffer_manager_slot
            &&& q == (render::Parameters {
                scene_slot: q.scene_slot,
                cycle: q.cycle,
                tiling_admission: q.tiling_admission,
                fragment_admission: q.fragment_admission,
                ..p
            })
        }),
{
}

/// Both stages of a render are waited for, each where its own stage reports it, with the value that it stores;
/// the channels are those of the priority, and the scene and the buffer are remembered.
pub proof fn lemma_render_awaited(
    priority: u32,
    lanes: Seq<Lane>,
    a: Addresses,
    heads: Seq<u32>,
    epochs: Seq<u32>,
    flight: Flight,
    va: u64,
    owner: u64,
    root: u64,
    scene: u32,
    now: u64,
)
    requires
        priority <= 3,
        epochs[0] < 256,
        epochs[1] < 256,
        Session::render_flight(priority, lanes, a, heads, epochs, flight, va, owner, root, scene, now),
    ensures
        flight.id == va,
        flight.owner == owner,
        flight.started == now,
        flight.context == a.context_id % 0x1_0000_0000,
        flight.stamps@[0] is Some && flight.stamps@[1] is Some,
        flight.stamps@[0]->0.address == a.tiling_firmware_stamp,
        flight.stamps@[0]->0.value == a.tiling_stamp % 0x1_0000_0000,
        flight.stamps@[0]->0.event == a.tiling_event % 0x1_0000_0000,
        flight.stamps@[1]->0.address == a.fragment_firmware_stamp,
        flight.stamps@[1]->0.value == a.fragment_stamp % 0x1_0000_0000,
        flight.stamps@[1]->0.event == a.fragment_event % 0x1_0000_0000,
        flight.driver_stamps@[0] is Some && flight.driver_stamps@[1] is Some,
        flight.driver_stamps@[0]->0.address == a.tiling_driver_stamp,
        flight.driver_stamps@[0]->0.value == flight.stamps@[0]->0.value,
        flight.driver_stamps@[1]->0.address == a.fragment_driver_stamp,
        flight.driver_stamps@[1]->0.value == flight.stamps@[1]->0.value,
        flight.queues@[0] == Some((lanes[0].pointers, heads[0])),
        flight.queues@[1] == Some((lanes[1].pointers, heads[1])),
        flight.channels@[0] is Some && flight.channels@[1] is Some,
        (flight.channels@[0]->0).0 == 3 * priority,
        (flight.channels@[1]->0).0 == 3 * priority + 1,
        (flight.channels@[0]->0).1 == if epochs[0] == 255 {
            0
        } else {
            epochs[0] + 1
        },
        (flight.channels@[1]->0).1 == if epochs[1] == 255 {
            0
        } else {
            epochs[1] + 1
        },
        flight.render is Some,
        flight.render->0.addresses == a,
        flight.render->0.root == root,
        flight.render->0.scene == scene,
        !flight.render->0.memory_limit,
{
}

/// Jobs take the numbers of their queue, the third queue being that of computes; three events follow each other
/// for each queue that has events, and no two queues share one.
pub proof fn lemma_jobs(
    session: Session,
    queue: FirmwareQueues,
    p: compute::Parameters,
    q: render::Parameters,
    pool: Tvb,
    support: Support,
    scene: u32,
    ratio: (u32, u32),
    order: Order,
)
    requires
        queue.wf(),
        queue.events is Some,
        queue.lanes is Some,
        support.index < 0x1000,
    ensures
        ({
            let job = jobs::compute_job_of(session, queue, p, order);
            &&& job.parameters == p
            &&& job.owner == order.owner
            &&& job.timestamps == order.timestamps
            &&& job.dependencies == order.dependencies
            &&& job.addresses.work == order.work
            &&& job.addresses.context == order.context
            &&& job.addresses.queue == queue.lanes->0@[2].queue
            &&& job.addresses.event == 34 + 3 * queue.events->0
            &&& job.addresses.ordinal == queue.compute_count % 0x1_0000_0000
            &&& job.addresses.counter == (session.compute_publication + 1) % 0x1_0000_0000_0000_0000
        }),
        ({
            let job = jobs::render_job_of(queue, pool, support, q, scene, ratio, order);
            &&& job.parameters == q
            &&& job.work == order.work
            &&& job.owner == order.owner
            &&& job.root == pool.root
            &&& job.scene == scene
            &&& job.ratio == ratio
            &&& job.dependencies == order.dependencies
            &&& job.addresses.tiling_queue == queue.lanes->0@[0].queue
            &&& job.addresses.fragment_queue == queue.lanes->0@[1].queue
            &&& job.addresses.tiling_event == 32 + 3 * queue.events->0
            &&& job.addresses.fragment_event == 33 + 3 * queue.events->0
            &&& job.addresses.context_id == order.context
            &&& job.addresses.fragment_counter == 2 * queue.render_count % 0x1_0000_0000_0000_0000
            &&& job.addresses.tiling_user_timestamp_start == order.timestamps@[0]
            &&& job.addresses.fragment_user_timestamp_end == order.timestamps@[3]
        }),
{
}

/// A request for more memory is one of the render whose context and buffer it names, as long as the shading of
/// that render has not completed.
pub proof fn lemma_growth_request(event: Seq<u8>, flight: Flight, current: u32)
    requires
        bytes::u32_in(event, 0) == 6,
        flight.render is Some,
    ensures
        events::names(event, flight, current) <==> {
            let a = flight.render->0.addresses;
            &&& bytes::u32_in(event, 4) == a.context_id % 0x1_0000_0000
            &&& bytes::u32_in(event, 8) == a.buffer_manager_slot % 0x1_0000_0000
            &&& current != a.fragment_stamp % 0x1_0000_0000
        },
{
}

/// A request to end is one of the render whose event and stamp of shading it names.
pub proof fn lemma_end_request(event: Seq<u8>, flight: Flight, current: u32)
    requires
        bytes::u32_in(event, 0) == 7,
        flight.render is Some,
    ensures
        events::names(event, flight, current) <==> {
            let a = flight.render->0.addresses;
            &&& bytes::u32_in(event, 12) == a.fragment_event % 0x1_0000_0000
            &&& bytes::u32_in(event, 16) == a.fragment_stamp % 0x1_0000_0000
        },
{
}

/// Nothing but a request for memory or to end speaks of a render, and nothing speaks of a compute.
pub proof fn lemma_other_events(event: Seq<u8>, flight: Flight, current: u32)
    requires
        flight.render is None || (bytes::u32_in(event, 0) != 6 && bytes::u32_in(event, 0) != 7),
    ensures
        !events::names(event, flight, current),
{
}

/// The opening record has been taken over exactly when the event repeats what that record says: it is the one
/// that the firmware was given.
pub proof fn lemma_opening_answered(event: Seq<u8>)
    ensures
        events::is_opening(event) <==> {
            &&& bytes::u32_in(event, 0) == 13
            &&& bytes::u32_in(event, 4) == 1
            &&& bytes::u32_in(event, 8) == 0
            &&& bytes::u64_in(event, 12) == 0xffff_fc20_c052_8000
            &&& bytes::u64_in(event, 20) == 0x70_0040_8000
            &&& bytes::u64_in(event, 28) == 0x70_0040_8000
            &&& bytes::u32_in(event, 36) == 160
        },
{
}

/// A request for memory is granted a decision exactly when it is one of this render and its buffer, with the
/// count that the buffer stands at and a subpipe that there is, and there is a free slot for the reply: the
/// decision repeats the subpipe and the count of halts.
pub proof fn lemma_growth_decided(
    event: Seq<u8>,
    a: Addresses,
    pool: Tvb,
    limited: bool,
    head: u32,
    ack: u32,
    tail: u32,
)
    ensures
        ({
            let action = events::render_action_of(event, a, pool, limited, head, ack, tail);
            let free = head < 256 && ack < 256 && tail < 256 && (tail + 1 - head) % 256 != 0 && (tail + 1 - ack)
                % 256 != 0;
            let asked = bytes::u32_in(event, 0) == 6 && bytes::u32_in(event, 4) == a.context_id
                % 0x1_0000_0000 && bytes::u32_in(event, 8) == pool.addresses.buffer_manager_slot
                % 0x1_0000_0000 && bytes::u32_in(event, 12) == pool.counter && bytes::u32_in(event, 16)
                < 64;
            &&& (action is Ok && action->Ok_0 is Grow) <==> free && asked
            &&& action is Ok && action->Ok_0 is Grow ==> action->Ok_0->subpipe == bytes::u32_in(event, 16)
                && action->Ok_0->halt_count == bytes::u64_in(event, 20)
        }),
{
}

/// A render ends for want of memory exactly when its buffer was refused growth, it has not been ended before,
/// the event names its shading, and there is a free slot for the reply.
pub proof fn lemma_end_decided(
    event: Seq<u8>,
    a: Addresses,
    pool: Tvb,
    limited: bool,
    head: u32,
    ack: u32,
    tail: u32,
)
    ensures
        ({
            let action = events::render_action_of(event, a, pool, limited, head, ack, tail);
            let free = head < 256 && ack < 256 && tail < 256 && (tail + 1 - head) % 256 != 0 && (tail + 1 - ack)
                % 256 != 0;
            let named = bytes::u32_in(event, 0) == 7 && bytes::u32_in(event, 4) == 0 && bytes::u32_in(
                event,
                8,
            ) == 1 && bytes::u32_in(event, 12) == a.fragment_event % 0x1_0000_0000 && bytes::u32_in(event, 16)
                == a.fragment_stamp % 0x1_0000_0000;
            (action is Ok && action->Ok_0 is Limit) <==> free && named && pool.refused && !limited
        }),
{
}

/// A request waits exactly when the ring for replies is full, a completion is skipped, and everything else that
/// leads to nothing is an error.
pub proof fn lemma_request_waits(
    event: Seq<u8>,
    a: Addresses,
    pool: Tvb,
    limited: bool,
    head: u32,
    ack: u32,
    tail: u32,
)
    ensures
        ({
            let action = events::render_action_of(event, a, pool, limited, head, ack, tail);
            let kind = bytes::u32_in(event, 0);
            let full = (tail + 1 - head) % 256 == 0 || (tail + 1 - ack) % 256 == 0;
            &&& (action is Ok && action->Ok_0 is Skip) <==> kind == 1
            &&& (action is Ok && action->Ok_0 is Wait) <==> (kind == 6 || kind == 7) && head < 256 && ack < 256
                && tail < 256 && full
            &&& action is Err ==> action->Err_0 == Error::EIO
        }),
{
}

/// A publication moves the head of its queue and puts a message on its channel, in the slot of its epoch: the
/// message names the queue with the head that was stored, the event, the stage, whether the queue is new, and
/// the sequence number.
pub proof fn lemma_publication(p: Publication)
    requires
        p.wf(),
    ensures
        ({
            let w = flush::publication_writes(p);
            let stage = p.channel as int % 3;
            let priority = p.channel as int / 3;
            &&& w.len() == 2
            &&& w[0].2 && w[1].2
            &&& w[0].0 == p.lane.queue + 0x4040
            &&& bytes::u32_in(w[0].1, 0) == p.lane.head
            &&& w[1].0 == 0xffff_fc20_c04d_8000 + 0x1_0240 + 0x6000 * stage - 0x1800 * priority + 0x18 * p.epoch
            &&& bytes::u64_in(w[1].1, 0) == p.sequence
            &&& bytes::u64_in(w[1].1, 8) == p.lane.queue
            &&& bytes::u32_in(w[1].1, 0x10) == stage
            &&& bytes::u16_in(w[1].1, 0x14) == p.lane.head
            &&& w[1].1[0x16] == p.event % 0x100
            &&& w[1].1[0x17] == if p.lane.new {
                1int
            } else {
                0
            }
        }),
{
    publish_laws::lemma_words(p.lane.head, 0);
    object_laws::lemma_submission_channels(fw::BUNDLE_ADDRESS, p.channel as int, p.channel as int);
    object_laws::lemma_channel_message(
        p.lane.queue,
        p.lane.head as u16,
        (p.event % 0x100) as u8,
        (p.channel % 3) as u32,
        p.lane.new,
        p.sequence,
    );
}

/// The number of publications of a stage among the first `n`.
pub open spec fn staged(publications: Seq<Publication>, stage: int, n: int) -> int
    decreases n,
{
    if n <= 0 {
        0
    } else if publications[n - 1].channel as int % 3 == stage {
        staged(publications, stage, n - 1) + 1
    } else {
        staged(publications, stage, n - 1)
    }
}

proof fn lemma_staged_bounds(publications: Seq<Publication>, stage: int, i: int, n: int)
    requires
        0 <= i <= n,
    ensures
        0 <= staged(publications, stage, i) <= staged(publications, stage, n),
    decreases n,
{
    if i < n {
        lemma_staged_bounds(publications, stage, i, n - 1);
    } else if n > 0 {
        lemma_staged_bounds(publications, stage, n - 1, n - 1);
    }
}

proof fn lemma_stage_place(publications: Seq<Publication>, i: int, n: int)
    requires
        0 <= i < n <= publications.len(),
    ensures
        ({
            let stage = publications[i].channel as int % 3;
            let all = flush::stage_writes(publications, stage, n);
            let k = staged(publications, stage, i);
            &&& 0 <= k < staged(publications, stage, n)
            &&& all.len() == 2 * staged(publications, stage, n)
            &&& all[2 * k] == flush::publication_writes(publications[i])[0]
            &&& all[2 * k + 1] == flush::publication_writes(publications[i])[1]
        }),
    decreases n,
{
    let stage = publications[i].channel as int % 3;
    lemma_stage_length(publications, stage, n - 1);
    lemma_staged_bounds(publications, stage, i, n - 1);
    if i < n - 1 {
        lemma_stage_place(publications, i, n - 1);
    }
}

proof fn lemma_stage_length(publications: Seq<Publication>, stage: int, n: int)
    requires
        0 <= n <= publications.len(),
    ensures
        flush::stage_writes(publications, stage, n).len() == 2 * staged(publications, stage, n),
        staged(publications, stage, n) >= 0,
    decreases n,
{
    if n > 0 {
        lemma_stage_length(publications, stage, n - 1);
    }
}

proof fn lemma_staged_total(publications: Seq<Publication>, n: int)
    requires
        0 <= n <= publications.len(),
    ensures
        staged(publications, 0, n) + staged(publications, 1, n) + staged(publications, 2, n) == n,
    decreases n,
{
    if n > 0 {
        lemma_staged_total(publications, n - 1);
        let stage = publications[n - 1].channel as int % 3;
        assert(stage == 0 || stage == 1 || stage == 2);
    }
}

/// Each publication is written once and nothing else is: shading comes before tiling, and tiling before
/// compute; within a stage, the order of publication is kept, and the head of a queue comes before its message.
pub proof fn lemma_flush_order(publications: Seq<Publication>, i: int)
    requires
        0 <= i < publications.len(),
    ensures
        ({
            let n = publications.len() as int;
            let all = flush::flush_writes(publications);
            let stage = publications[i].channel as int % 3;
            let shading = staged(publications, 1, n);
            let tiling = staged(publications, 0, n);
            let k = staged(publications, stage, i);
            let place = if stage == 1 {
                k
            } else if stage == 0 {
                shading + k
            } else {
                shading + tiling + k
            };
            &&& all.len() == 2 * n
            &&& 0 <= place < n
            &&& all[2 * place] == flush::publication_writes(publications[i])[0]
            &&& all[2 * place + 1] == flush::publication_writes(publications[i])[1]
        }),
{
    let n = publications.len() as int;
    let all = flush::flush_writes(publications);
    let stage = publications[i].channel as int % 3;
    let shading = staged(publications, 1, n);
    let tiling = staged(publications, 0, n);
    let k = staged(publications, stage, i);
    lemma_stage_length(publications, 0, n);
    lemma_stage_length(publications, 1, n);
    lemma_stage_length(publications, 2, n);
    lemma_staged_total(publications, n);
    lemma_stage_place(publications, i, n);
    let one = flush::stage_writes(publications, 1, n);
    let zero = flush::stage_writes(publications, 0, n);
    let two = flush::stage_writes(publications, 2, n);
    assert(all == one + zero + two);
    if stage == 1 {
        assert(all[2 * k] == one[2 * k]);
        assert(all[2 * k + 1] == one[2 * k + 1]);
    } else if stage == 0 {
        assert(all[2 * (shading + k)] == zero[2 * k]);
        assert(all[2 * (shading + k) + 1] == zero[2 * k + 1]);
    } else {
        assert(stage == 2);
        assert(all[2 * (shading + tiling + k)] == two[2 * k]);
        assert(all[2 * (shading + tiling + k) + 1] == two[2 * k + 1]);
    }
}

/// The end of a channel lies behind the last message on it, around a ring of 256.
pub proof fn lemma_channel_end(publications: Seq<Publication>, channel: int, n: int, i: int)
    requires
        0 <= i < n <= publications.len(),
        publications[i].channel == channel,
        publications[i].epoch < 256,
        forall|j: int| i < j < n ==> (#[trigger] publications[j]).channel != channel,
    ensures
        flush::tail_of(publications, channel, n) is Some,
        flush::tail_of(publications, channel, n)->0 == if publications[i].epoch == 255 {
            0
        } else {
            publications[i].epoch + 1
        },
    decreases n,
{
    if i < n - 1 {
        assert(publications[n - 1].channel != channel);
        lemma_channel_end(publications, channel, n - 1, i);
    }
}

/// A channel without a message keeps its end.
pub proof fn lemma_channel_quiet(publications: Seq<Publication>, channel: int, n: int)
    requires
        0 <= n <= publications.len(),
        forall|j: int| 0 <= j < n ==> (#[trigger] publications[j]).channel != channel,
    ensures
        flush::tail_of(publications, channel, n) is None,
    decreases n,
{
    if n > 0 {
        assert(publications[n - 1].channel != channel);
        lemma_channel_quiet(publications, channel, n - 1);
    }
}

/// The registers of the ends of channels: one for each of twelve, eight bytes for each priority.
pub proof fn lemma_end_register(channel: int)
    requires
        0 <= channel < 12,
    ensures
        flush::tail_register(channel) == 0xd6_0000 + 0x20 * (channel % 3) + 8 * (channel / 3),
        exists|k: int| 0 <= k < 12 && #[trigger] flush::channel_order(k) == channel,
{
    let states = fw::state_offsets();
    assert(states.len() == 12);
    assert(states[channel].1 == 0x20 * (channel % 3) + 8 * (channel / 3));
    let k = if channel % 3 == 1 {
        channel / 3
    } else if channel % 3 == 0 {
        4 + channel / 3
    } else {
        8 + channel / 3
    };
    assert(flush::channel_order(k) == channel);
}

/// Whether a register and a value are those of the end of one of the first `k` channels, with messages on it.
pub open spec fn is_end(publications: Seq<Publication>, item: (u64, u32), k: int) -> bool {
    exists|c: int|
        0 <= c < k && flush::tail_of(
            publications,
            #[trigger] flush::channel_order(c),
            publications.len() as int,
        ) == Some(item.1) && item.0 == flush::tail_register(flush::channel_order(c))
}

/// The end of a channel that has messages is published in its register, and no other register is written.
pub proof fn lemma_ends_published(publications: Seq<Publication>, k: int, item: (u64, u32))
    requires
        0 <= k <= 12,
    ensures
        flush::tails_upto(publications, k).contains(item) <==> is_end(publications, item, k),
    decreases k,
{
    if k > 0 {
        lemma_ends_published(publications, k - 1, item);
        let before = flush::tails_upto(publications, k - 1);
        let all = flush::tails_upto(publications, k);
        let n = publications.len() as int;
        let channel = flush::channel_order(k - 1);
        let tail = flush::tail_of(publications, channel, n);
        if tail is Some {
            assert(all == before.push((flush::tail_register(channel), tail->0)));
            assert(all[before.len() as int] == (flush::tail_register(channel), tail->0));
            if before.contains(item) {
                let j = choose|j: int| 0 <= j < before.len() && before[j] == item;
                assert(all[j] == item);
            }
            if all.contains(item) && !before.contains(item) {
                let j = choose|j: int| 0 <= j < all.len() && all[j] == item;
                if j < before.len() {
                    assert(before[j] == item);
                }
            }
        }
        if is_end(publications, item, k - 1) {
            let c = choose|c: int|
                0 <= c < k - 1 && flush::tail_of(publications, #[trigger] flush::channel_order(c), n) == Some(
                    item.1,
                ) && item.0 == flush::tail_register(flush::channel_order(c));
            assert(flush::tail_of(publications, flush::channel_order(c), n) == Some(item.1));
        }
    }
}

/// An engine is told exactly when it has work: the doorbell of priority `p` is `2 p` for rendering and `2 p + 1`
/// for compute.
pub proof fn lemma_engines_told(publications: Seq<Publication>, engines: int, e: int)
    requires
        0 <= e,
        0 <= engines <= 8,
    ensures
        flush::messages_upto(publications, engines).contains((0x83_0000_0000_0000 + 2 * e) as u64) && e < 8
            <==> e < engines && exists|i: int|
            0 <= i < publications.len() && ({
                let channel = (#[trigger] publications[i]).channel as int;
                2 * (channel / 3) + (if channel % 3 == 2 {
                    1int
                } else {
                    0
                }) == e
            }),
        forall|j: int|
            0 <= j < flush::messages_upto(publications, engines).len() ==> 0x83_0000_0000_0000
                <= #[trigger] flush::messages_upto(publications, engines)[j] < 0x83_0000_0000_0000 + 2
                * engines,
    decreases engines,
{
    let all = flush::messages_upto(publications, engines);
    let n = publications.len() as int;
    let told = (0x83_0000_0000_0000 + 2 * e) as u64;
    if engines > 0 {
        lemma_engines_told(publications, engines - 1, e);
        let before = flush::messages_upto(publications, engines - 1);
        if flush::is_used(publications, engines - 1, n) {
            assert(all == before.push((0x83_0000_0000_0000 + 2 * (engines - 1)) as u64));
            assert(all[before.len() as int] == 0x83_0000_0000_0000 + 2 * (engines - 1));
            assert forall|j: int| 0 <= j < all.len() implies 0x83_0000_0000_0000 <= #[trigger] all[j]
                < 0x83_0000_0000_0000 + 2 * engines by {
                if j < before.len() {
                    assert(all[j] == before[j]);
                }
            }
            if before.contains(told) {
                let j = choose|j: int| 0 <= j < before.len() && before[j] == told;
                assert(all[j] == told);
            }
            if all.contains(told) && e != engines - 1 && e < 8 {
                let j = choose|j: int| 0 <= j < all.len() && all[j] == told;
                assert(j < before.len());
                assert(before[j] == told);
            }
        } else if e == engines - 1 && all.contains(told) {
            let j = choose|j: int| 0 <= j < all.len() && all[j] == told;
            assert(before[j] == told);
        }
    }
}

/// A piece of work that is done has completed all of its stages, and its driver stamps have come as well; its
/// notifier holds nothing; both cursors of its queues and channels have passed it; and no reply is under way
/// where it is a render. One that meets all of this is done.
pub proof fn lemma_done(flight: Flight, seen: Progress)
    ensures
        flight.is_done(seen) <==> {
            &&& seen.submitted == 0
            &&& forall|k: int|
                0 <= k < 2 ==> {
                    &&& #[trigger] flight.stamps@[k] is Some ==> (seen.stamps@[k] - flight.stamps@[k]->0.value)
                        % 0x1_0000_0000 < 0x8000_0000
                    &&& flight.driver_stamps@[k] is Some ==> (seen.driver_stamps@[k]
                        - flight.driver_stamps@[k]->0.value) % 0x1_0000_0000 < 0x8000_0000
                    &&& flight.queues@[k] is Some ==> {
                        let head = (flight.queues@[k]->0).1;
                        &&& head < 0x500 && seen.queues@[k].0 < 0x500 && seen.queues@[k].1 < 0x500
                        &&& (seen.queues@[k].0 - head) % 0x500 < 0x280
                        &&& (seen.queues@[k].1 - head) % 0x500 < 0x280
                    }
                    &&& flight.channels@[k] is Some ==> {
                        let place = (flight.channels@[k]->0).1;
                        &&& place < 256 && seen.channels@[k].0 < 256 && seen.channels@[k].1 < 256
                        &&& (seen.channels@[k].0 - place) % 256 < 128
                        &&& (seen.channels@[k].1 - place) % 256 < 128
                    }
                }
            &&& flight.render is Some ==> seen.replies.0 == seen.replies.2 && seen.replies.1 == seen.replies.2
        },
{
}

/// The notifier of a work counts its entries inside the storage of the work: behind the control of events of a
/// render, and in the notifier of a compute.
pub proof fn lemma_notifier_place(flight: Flight)
    ensures
        flight.render is Some ==> flight.notifier_of() == flight.id + 0x200 + 0x94,
        flight.render is None ==> flight.notifier_of() == flight.id + 0x1400 + 0x94,
{
}

/// A piece of work has ten seconds: what is left falls by what has passed, and never below a millisecond.
pub proof fn lemma_time_left(started: u64, now: u64)
    ensures
        1 <= retire::time_left(started, now) <= 10_000,
        now <= started ==> retire::time_left(started, now) == 10_000,
        started <= now < started + 10_000 ==> retire::time_left(started, now) + (now - started) == 10_000,
        now >= started + 10_000 ==> retire::time_left(started, now) == 1,
{
}

/// The blocks of a buffer have consecutive places: entry `i` of the list for new blocks holds the number of the
/// block at `base + i * 0x28000`, in units of 0x8000 from the start of the range.
#[verifier::spinoff_prover]
#[verifier::rlimit(60)]
pub proof fn lemma_block_entry(base: int, count: int, i: int)
    requires
        0 <= i < count <= 7168,
        0x10_0000_0000 <= base,
        base % 0x8000 == 0,
        base + count * 0x28000 <= u64::MAX,
    ensures
        ({
            let m = bytes::image((8 * count) as nat, tvb::block_entries(base, count));
            bytes::u64_in(m, 8 * i) * 0x8000 + 0x10_0000_0000 == base + i * 0x28000
        }),
{
    let fields = tvb::block_entries(base, count);
    let id = tvb::block_id(base, i);
    assert(0 <= i * 0x28000 && i * 0x28000 + 0x28000 <= count * 0x28000);
    assert((base + i * 0x28000 - 0x10_0000_0000) % 0x8000 == 0);
    assert(id * 0x8000 + 0x10_0000_0000 == base + i * 0x28000);
    assert(0 <= id <= u64::MAX);
    assert(fields.len() == count);
    assert(fields[i] == bytes::w64((8 * i) as usize, tvb::block_id(base, i) as u64));
    assert forall|j: int| i < j < fields.len() implies fields[i].offset + fields[i].width <= (
    #[trigger] fields[j]).offset by {}
    assert(bytes::survives(fields, i));
    bytes::lemma_reads_back_u64(bytes::zeros((8 * count) as nat), fields, i);
}

/// Growth is published behind the blocks that there are, and then counted twice with the new number.
pub proof fn lemma_growth_published(pool: Tvb, base: int, new: u32)
    requires
        pool.blocks < new <= 7168,
        pool.addresses.buffer_manager_block_list + 8 * pool.blocks <= u64::MAX,
    ensures
        ({
            let w = growth::growth_writes(pool, base, new as int);
            &&& w.len() == 2
            &&& w[0].2 && w[1].2
            &&& w[0].0 == pool.addresses.buffer_manager_block_list + 8 * pool.blocks
            &&& w[0].1 == bytes::image(
                (8 * (new - pool.blocks)) as nat,
                tvb::block_entries(base, new - pool.blocks),
            )
            &&& w[1].0 == pool.addresses.buffer_manager_block_control
            &&& bytes::u32_in(w[1].1, 0) == new
            &&& bytes::u32_in(w[1].1, 4) == new
        }),
{
    let fields = seq![bytes::w32(0, new), bytes::w32(4, new)];
    assert(fields.len() == 2);
    reveal_with_fuel(bytes::held, 4);
    bytes::lemma_held_u32(bytes::zeros(8), fields, 0);
    bytes::lemma_held_u32(bytes::zeros(8), fields, 4);
}

/// A buffer grows to three times its blocks or to the limit, whichever is less, and never shrinks; the limit is
/// never above what the block list holds.
pub proof fn lemma_growth_target(blocks: int, limit: u32)
    requires
        0 <= blocks,
    ensures
        ({
            let new = tvb::target(blocks, tvb::bound(limit) as int);
            &&& tvb::bound(limit) <= limit
            &&& tvb::bound(limit) == limit || tvb::bound(limit) == tvb::MAX_BLOCKS
            &&& new > blocks ==> new == 3 * blocks || new == tvb::bound(limit)
            &&& blocks < tvb::bound(limit) && blocks > 0 ==> new > blocks
            &&& blocks >= tvb::bound(limit) ==> new == blocks
            &&& 0 < blocks && 3 * blocks < tvb::bound(limit) ==> new == 3 * blocks
        }),
{
}

/// A buffer manager has its places in order behind its base, each in pages of its own.
pub proof fn lemma_buffer_placed(base: u64, slot: u64)
    requires
        base + 0x4_0000 <= u64::MAX,
    ensures
        ({
            let a = tvb::placed(base as int, slot);
            &&& a.buffer_manager_slot == slot
            &&& a.buffer_manager == base
            &&& a.buffer_thing == base + 0x4080
            &&& a.buffer_manager_block_control == base + 0x8000
            &&& a.buffer_manager_scene_list == base + 0xc000
            &&& a.buffer_manager_counter == base + 0x1_0000
            &&& a.buffer_manager_block_list == base + 0x1_4000
            &&& a.buffer_manager_page_list == a.buffer_manager_block_list + 0x1_0000
        }),
{
}

/// A render moves the heads of the first two queues and leaves the third alone; none of the two is new any more. The
/// next render of the queue counts one more, and later work can wait for this one among the renders.
pub proof fn lemma_render_advances(job: RenderJob, before: FirmwareQueues, after: FirmwareQueues, ready: bool)
    requires
        before.wf(),
        before.lanes is Some,
        job.advances(before, after, ready),
    ensures
        after.lanes is Some,
        after.lanes->0@[0].head == job.heads(before.lanes->0@, ready)[0],
        after.lanes->0@[1].head == job.heads(before.lanes->0@, ready)[1],
        after.lanes->0@[0].queue == before.lanes->0@[0].queue,
        after.lanes->0@[1].queue == before.lanes->0@[1].queue,
        after.lanes->0@[0].ring == before.lanes->0@[0].ring,
        after.lanes->0@[1].ring == before.lanes->0@[1].ring,
        !after.lanes->0@[0].new && !after.lanes->0@[1].new,
        after.lanes->0@[2] == before.lanes->0@[2],
        after.last@[0] is Some,
        after.last@[0]->0.address == job.addresses.fragment_firmware_stamp,
        after.last@[0]->0.value == job.addresses.fragment_stamp % 0x1_0000_0000,
        after.last@[1] == before.last@[1],
        after.pending == before.pending + 1,
        after.compute_count == before.compute_count,
        after.render_count == (before.render_count + 1) % 0x1_0000_0000_0000_0000,
        after.events == before.events,
        after.priority == before.priority,
{
}

/// A compute moves the head of the third queue and leaves the others alone. The next compute of the queue counts one
/// more, and later work can wait for this one among the computes.
pub proof fn lemma_compute_advances(job: ComputeJob, before: FirmwareQueues, after: FirmwareQueues)
    requires
        before.wf(),
        before.lanes is Some,
        job.advances(before, after),
    ensures
        after.lanes is Some,
        after.lanes->0@[2].head == job.head(before.lanes->0@[2]),
        after.lanes->0@[2].queue == before.lanes->0@[2].queue,
        after.lanes->0@[2].ring == before.lanes->0@[2].ring,
        !after.lanes->0@[2].new,
        after.lanes->0@[0] == before.lanes->0@[0],
        after.lanes->0@[1] == before.lanes->0@[1],
        after.last@[1] is Some,
        after.last@[1]->0.address == job.addresses.firmware_stamp,
        after.last@[1]->0.value == job.addresses.stamp,
        after.last@[0] == before.last@[0],
        after.pending == before.pending + 1,
        after.render_count == before.render_count,
        after.compute_count == (before.compute_count + 1) % 0x1_0000_0000_0000_0000,
        after.events == before.events,
        after.priority == before.priority,
{
}

/// Work that was published is outstanding behind the rest; the session counts it, and nothing that was outstanding
/// before is lost.
pub proof fn lemma_outstanding(
    compute: ComputeJob,
    render: RenderJob,
    before: Session,
    after: Session,
    queue: FirmwareQueues,
    epoch: u32,
    epochs: [u32; 2],
    ready: bool,
    now: u64,
    i: int,
)
    requires
        0 <= i < before.flights@.len(),
        before.batch_works < u64::MAX,
        compute.launched(before, after, queue, epoch, now) || render.launched(
            before,
            after,
            queue,
            ready,
            epochs,
            now,
        ),
    ensures
        after.flights@.len() == before.flights@.len() + 1,
        after.flights@[i] == before.flights@[i],
        after.flights@.last().started == now,
        after.batch_works == before.batch_works + 1,
        !after.render_failed,
        compute.launched(before, after, queue, epoch, now) ==> after.flights@.last().id == compute.addresses.work
            && after.compute_publication == (before.compute_publication + 1) % 0x1_0000_0000_0000_0000,
        render.launched(before, after, queue, ready, epochs, now) ==> after.flights@.last().id == render.work
            && after.render_publication == (before.render_publication + 1) % 0x1_0000_0000_0000_0000,
{
    assert(after.flights@.drop_last()[i] == before.flights@[i]);
}

/// A request for growth agrees with what was published exactly when it is of the same client, names the same lists and
/// block size, both counts are those that were published, and its own count is not ahead of them.
pub proof fn lemma_request_agrees(pool: Tvb, seen: tvb::Observed)
    ensures
        pool.consistent(seen) <==> {
            &&& seen.root == pool.root
            &&& seen.counts == (pool.blocks, pool.blocks)
            &&& seen.mirror <= pool.blocks
            &&& seen.block_list == pool.addresses.buffer_manager_block_list
            &&& seen.block_control == pool.addresses.buffer_manager_block_control
            &&& seen.block_size == 0x2_0000
        },
{
}

} // verus!
