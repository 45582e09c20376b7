//! Submission of renders.
use crate::bytes;
use crate::bytes::{fill, low32, w64};
use crate::error::Error;
use crate::lanes::{Lane, Stamp, WORK_BASE};
use crate::operands;
use crate::plan;
use crate::plan::{push_double, push_word, push_write, Write};
use crate::queue;
use crate::render;
use crate::render::{Addresses, Parameters};
use crate::stamp;
use crate::tvb::Tvb;
use vstd::prelude::*;

verus! {

/// How a submitter learns of the end of its work.
#[derive(Clone, Copy, Debug, PartialEq, Eq, Structural)]
pub struct Receipt {
    pub id: u64,
    pub stamp: Stamp,
}

/// The stamps among two.
pub open spec fn present(a: Option<Stamp>, b: Option<Stamp>) -> Seq<Stamp> {
    match (a, b) {
        (None, None) => seq![],
        (Some(a), None) => seq![a],
        (None, Some(b)) => seq![b],
        (Some(a), Some(b)) => seq![a, b],
    }
}

/// The stamps among two.
pub fn flatten(a: Option<Stamp>, b: Option<Stamp>) -> (out: Vec<Stamp>)
    ensures
        out@ == present(a, b),
        out@.len() <= 2,
{
    let mut out: Vec<Stamp> = Vec::new();
    if let Some(a) = a {
        out.push(a);
    }
    if let Some(b) = b {
        out.push(b);
    }
    assert(out@ =~= present(a, b));
    out
}

/// What a stage waits for. Only the wait for an earlier render can move to the fragment stage: the
/// output of compute may feed the vertex stage.
pub open spec fn waits(dependencies: Seq<Option<Stamp>>, fragment: bool, stage: int) -> Seq<Stamp> {
    if fragment {
        if stage == 0 {
            present(None, dependencies[1])
        } else {
            present(dependencies[0], None)
        }
    } else if stage == 0 {
        present(dependencies[0], dependencies[1])
    } else {
        seq![]
    }
}

/// The slot of a queue ring at a distance from a place.
pub open spec fn ring_slot(ring: u64, first: u32, distance: int) -> u64 {
    (ring + ((first + distance) % 0x500) * 8) as u64
}

/// The waits of a stage: a barrier command for each, and its slot in the ring of the queue.
pub open spec fn wait_writes(
    base: u64,
    ring: u64,
    first: u32,
    waits: Seq<Stamp>,
    own: u32,
    uuid: u32,
    n: int,
) -> Seq<plan::Stored>
    decreases n,
{
    if n <= 0 {
        seq![]
    } else {
        let w = waits[n - 1];
        let address = (base + (n - 1) * 0x40) as u64;
        wait_writes(base, ring, first, waits, own, uuid, n - 1) + seq![
            (
                address,
                bytes::image(0x40, queue::dependency_fields(w.address, w.value, w.event, own, uuid)),
                true,
            ),
            (ring_slot(ring, first, n - 1), plan::double(address), true),
        ]
    }
}

/// Adds the waits of a stage.
pub fn push_waits(
    writes: &mut Vec<Write>,
    base: u64,
    ring: u64,
    first: u32,
    waits: &Vec<Stamp>,
    own: u32,
    uuid: u32,
)
    requires
        waits@.len() <= 2,
        base + 0x80 <= u64::MAX,
        ring + 0x2800 <= u64::MAX,
        first < 0x500,
    ensures
        plan::stored(final(writes)@) == plan::stored(old(writes)@) + wait_writes(
            base,
            ring,
            first,
            waits@,
            own,
            uuid,
            waits@.len() as int,
        ),
{
    let ghost before = plan::stored(writes@);
    assert(before + Seq::<plan::Stored>::empty() =~= before);
    let mut i: usize = 0;
    while i < waits.len()
        invariant
            i <= waits@.len() <= 2,
            base + 0x80 <= u64::MAX,
            ring + 0x2800 <= u64::MAX,
            first < 0x500,
            plan::stored(writes@) == before + wait_writes(
                base,
                ring,
                first,
                waits@,
                own,
                uuid,
                i as int,
            ),
        decreases waits@.len() - i,
    {
        let w: Stamp = waits[i];
        let address: u64 = base + i as u64 * 0x40;
        push_write(writes, address, &queue::dependency(w.address, w.value, w.event, own, uuid), true);
        push_double(writes, ring + ((first + i as u32) % 0x500) as u64 * 8, address);
        i += 1;
        assert(plan::stored(writes@) =~= before + wait_writes(
            base,
            ring,
            first,
            waits@,
            own,
            uuid,
            i as int,
        ));
    }
}

/// The alias of a render's work for the GPU.
pub open spec fn render_alias_of(va: u64) -> int {
    0x72_0000_0000 + (va - WORK_BASE)
}

/// The alias of a render's work for the GPU, where it is inside the range for it.
pub fn render_alias(va: u64) -> (out: Result<u64, Error>)
    requires
        WORK_BASE <= va,
    ensures
        match out {
            Ok(alias) => alias == render_alias_of(va) && render_alias_of(va) + 0x8000 <= 0x73_0000_0000,
            Err(e) => e == Error::ENOSPC && render_alias_of(va) + 0x8000 > 0x73_0000_0000,
        },
{
    let alias: u64 = 0x72_0000_0000 + (va - WORK_BASE);
    if alias + 0x8000 > 0x73_0000_0000 {
        return Err(Error::ENOSPC);
    }
    Ok(alias)
}

/// Whether a render's work lies where it has an alias.
pub open spec fn work_placed(va: u64) -> bool {
    WORK_BASE <= va && va % 0x4000 == 0 && render_alias_of(va) + 0x8000 <= 0x73_0000_0000
}

/// The parameters of a render that uses a buffer and one of its scenes. The accelerator's pointers have
/// to select the leased scene: another one may belong to a render in flight.
pub open spec fn scene_parameters(p: Parameters, pool: Tvb, scene: u32) -> Parameters {
    Parameters {
        tiling_admission: pool.addresses.buffer_manager_slot,
        fragment_admission: pool.addresses.buffer_manager_slot,
        scene_slot: scene as u64,
        cycle: (0x240000 + scene * 0x30) as u64,
        ..p
    }
}

/// Points a render at its buffer and scene.
pub fn select_scene(p: &mut Parameters, pool: &Tvb, scene: u32)
    ensures
        *final(p) == scene_parameters(*old(p), *pool, scene),
{
    p.tiling_admission = pool.addresses.buffer_manager_slot;
    p.fragment_admission = pool.addresses.buffer_manager_slot;
    p.scene_slot = scene as u64;
    p.cycle = 0x240000 + scene as u64 * 0x30;
}

/// The addresses of a render: its buffer and scene, the queues and events of its submitter, and its own
/// storage. The firmware requires consecutive stamps within each queue, also when other queues publish
/// between them.
pub open spec fn render_addresses_of(
    pool: Tvb,
    scene: u32,
    lanes: Seq<Lane>,
    events: (u32, u32),
    ordinal: u64,
    support: u64,
    p: Parameters,
    va: u64,
    context: u32,
    timestamps: Seq<u64>,
) -> Addresses {
    let base = Addresses::initial();
    let alias = render_alias_of(va);
    Addresses {
        tiling_queue: lanes[0].queue,
        fragment_queue: lanes[1].queue,
        tiling_event: events.0 as u64,
        fragment_event: events.1 as u64,
        support,
        render_shared_state: (support + 0x1000) as u64,
        tiling_status_page: operands::page_start(p.ta_status),
        fragment_status_page: operands::page_start(p.fragment_status),
        fragment_counter: ((ordinal * 2) % 0x1_0000_0000_0000_0000) as u64,
        tiling_counter: ((ordinal * 2 + 1) % 0x1_0000_0000_0000_0000) as u64,
        fragment_stamp: stamp::stamp_of(ordinal as int, 0x100) as u64,
        tiling_stamp: stamp::stamp_of(ordinal as int, 0xc00) as u64,
        tiling_shared_tail: (va + 0x10000) as u64,
        fragment_shared_tail: (va + 0x14000) as u64,
        event_control: (va + 0x200) as u64,
        event_count_array: (va + 0x300) as u64,
        tiling_driver_stamp: (va + 0x18000) as u64,
        fragment_driver_stamp: (va + 0x18040) as u64,
        tiling_firmware_stamp: (lanes[0].pointers + 0x1040) as u64,
        fragment_firmware_stamp: (lanes[1].pointers + 0x1040) as u64,
        tiling_work: (va + base.tiling_work % 0x4000) as u64,
        tiling_microsequence: (va + 0x4000 + base.tiling_microsequence % 0x4000) as u64,
        tiling_prelude: (va + 0x4000) as u64,
        tiling_register_alias: (alias + base.tiling_register_alias % 0x4000) as u64,
        fragment_work: (va + 0x8000 + base.fragment_work % 0x4000) as u64,
        fragment_microsequence: (va + 0xc000 + base.fragment_microsequence % 0x4000) as u64,
        fragment_prelude: (va + 0xc000) as u64,
        fragment_register_alias: (alias + 0x4000 + base.fragment_register_alias % 0x4000) as u64,
        context_id: context as u64,
        tiling_user_timestamp_start: timestamps[0],
        tiling_user_timestamp_end: timestamps[1],
        fragment_user_timestamp_start: timestamps[2],
        fragment_user_timestamp_end: timestamps[3],
        ..pool.work_of(base, scene)
    }
}

/// The addresses of a render.
pub fn render_addresses(
    pool: &Tvb,
    scene: u32,
    lanes: &[Lane; 3],
    events: (u32, u32),
    ordinal: u64,
    support: u64,
    p: &Parameters,
    va: u64,
    context: u32,
    timestamps: &[u64; 4],
) -> (out: Addresses)
    requires
        lanes@[0].wf(),
        lanes@[1].wf(),
        scene < 36,
        pool.addresses.buffer_thing <= 0xffff_ffff_ffff_0000,
        support + 0x1000 <= u64::MAX,
        work_placed(va),
    ensures
        out == render_addresses_of(
            *pool,
            scene,
            lanes@,
            events,
            ordinal,
            support,
            *p,
            va,
            context,
            timestamps@,
        ),
{
    let mut a: Addresses = Addresses::bootstrap();
    let base: Addresses = a;
    pool.work_addresses(&mut a, scene);
    a.tiling_queue = lanes[0].queue;
    a.fragment_queue = lanes[1].queue;
    a.tiling_event = events.0 as u64;
    a.fragment_event = events.1 as u64;
    a.support = support;
    a.render_shared_state = support + 0x1000;
    a.tiling_status_page = p.ta_status / 0x4000 * 0x4000;
    a.fragment_status_page = p.fragment_status / 0x4000 * 0x4000;
    a.fragment_counter = ordinal.wrapping_mul(2);
    a.tiling_counter = a.fragment_counter.wrapping_add(1);
    a.fragment_stamp = stamp::value(ordinal, 0x100) as u64;
    a.tiling_stamp = stamp::value(ordinal, 0xc00) as u64;
    a.tiling_shared_tail = va + 0x10000;
    a.fragment_shared_tail = va + 0x14000;
    a.event_control = va + 0x200;
    a.event_count_array = va + 0x300;
    // The notifier pass stores these stamps, then sends the interrupt. They have to be uncached for the
    // firmware: otherwise the driver would sleep on stale memory.
    a.tiling_driver_stamp = va + 0x18000;
    a.fragment_driver_stamp = va + 0x18040;
    a.tiling_firmware_stamp = lanes[0].firmware_stamp();
    a.fragment_firmware_stamp = lanes[1].firmware_stamp();
    let alias: u64 = 0x72_0000_0000 + (va - WORK_BASE);
    a.tiling_work = va + base.tiling_work % 0x4000;
    a.tiling_microsequence = va + 0x4000 + base.tiling_microsequence % 0x4000;
    a.tiling_prelude = va + 0x4000;
    a.tiling_register_alias = alias + base.tiling_register_alias % 0x4000;
    a.fragment_work = va + 0x8000 + base.fragment_work % 0x4000;
    a.fragment_microsequence = va + 0xc000 + base.fragment_microsequence % 0x4000;
    a.fragment_prelude = va + 0xc000;
    a.fragment_register_alias = alias + 0x4000 + base.fragment_register_alias % 0x4000;
    a.context_id = context as u64;
    a.tiling_user_timestamp_start = timestamps[0];
    a.tiling_user_timestamp_end = timestamps[1];
    a.fragment_user_timestamp_start = timestamps[2];
    a.fragment_user_timestamp_end = timestamps[3];
    a
}

/// The bytes of the tiling work of a render.
#[verifier::opaque]
pub open spec fn tiling_image(p: Parameters, a: Addresses, va: u64) -> Seq<u8> {
    bytes::overlay(
        bytes::overlay(
            bytes::place(
                bytes::zeros(0x940),
                0x40,
                bytes::image(0x600, render::register_fields(p.tiling_writes())),
            ),
            p.tiling_work_fields(a),
        ),
        seq![w64(0x8c8, (va + 0x100) as u64), w64(0x8d0, (va + 0x108) as u64)],
    )
}

/// The bytes of the fragment work of a render.
#[verifier::opaque]
pub open spec fn fragment_image(p: Parameters, a: Addresses, va: u64, ratio: (u32, u32)) -> Seq<u8> {
    bytes::overlay(
        bytes::overlay(
            bytes::place(
                bytes::zeros(0xcc0),
                0x80,
                bytes::image(0x600, render::register_fields(p.fragment_writes())),
            ),
            p.fragment_work_fields(a, ratio.0, ratio.1),
        ),
        seq![w64(0xc10, (va + 0x110) as u64), w64(0xc18, (va + 0x118) as u64)],
    )
}

/// The work of both stages of a render. The firmware's own profiling goes to the work, apart from the
/// timestamps of the client.
pub fn render_work(p: &Parameters, a: &Addresses, va: u64, ratio: (u32, u32)) -> (out: Result<
    ([u8; 0x940], [u8; 0xcc0]),
    Error,
>)
    requires
        va + 0x118 <= u64::MAX,
    ensures
        match out {
            Ok((tiling, fragment)) => {
                &&& p.is_valid() && a.is_valid()
                &&& tiling@ == tiling_image(*p, *a, va)
                &&& fragment@ == fragment_image(*p, *a, va, ratio)
            },
            Err(e) => e == Error::EINVAL && !(p.is_valid() && a.is_valid()),
        },
{
    proof {
        reveal(tiling_image);
        reveal(fragment_image);
    }
    let mut tiling: [u8; 0x940] = match p.tiling_work(a) {
        None => {
            return Err(Error::EINVAL);
        },
        Some(work) => work,
    };
    let mut fragment: [u8; 0xcc0] = match p.fragment_work(a, ratio.0, ratio.1) {
        None => {
            return Err(Error::EINVAL);
        },
        Some(work) => work,
    };
    let tiling_fields = [w64(0x8c8, va + 0x100), w64(0x8d0, va + 0x108)];
    assert(tiling_fields@ =~= seq![w64(0x8c8, (va + 0x100) as u64), w64(0x8d0, (va + 0x108) as u64)]);
    fill(&mut tiling, &tiling_fields);
    let fragment_fields = [w64(0xc10, va + 0x110), w64(0xc18, va + 0x118)];
    assert(fragment_fields@ =~= seq![
        w64(0xc10, (va + 0x110) as u64),
        w64(0xc18, (va + 0x118) as u64),
    ]);
    fill(&mut fragment, &fragment_fields);
    Ok((tiling, fragment))
}

/// The ring slots that a stage takes besides its waits.
pub open spec fn slots_of(stage: int, init: bool) -> int {
    if stage == 1 || init {
        2
    } else {
        1
    }
}

/// The head of a queue after a stage is published.
pub open spec fn head_after(first: u32, waits: Seq<Stamp>, stage: int, init: bool) -> u32 {
    ((first + slots_of(stage, init) + waits.len()) % 0x500) as u32
}

/// The head of a queue after a stage is published.
pub fn next_head(first: u32, waits: u32, stage: usize, init: bool) -> (out: u32)
    requires
        first < 0x500,
        waits <= 2,
    ensures
        out == (first + slots_of(stage as int, init) + waits) % 0x500,
        out < 0x500,
{
    let slots: u32 = if stage == 1 || init {
        2
    } else {
        1
    };
    (first + slots + waits) % 0x500
}

/// What is stored for the notifier of a render.
pub open spec fn notifier_writes(a: Addresses) -> Seq<plan::Stored> {
    seq![
        (a.event_control, plan::double(a.event_count_array), true),
        ((a.event_control + 8) as u64, plan::word(low32(a.fragment_stamp)), true),
        ((a.event_control + 12) as u64, plan::word(0), true),
        ((a.event_control + 0x10) as u64, plan::word(0x50), true),
        ((a.event_control + 0x24) as u64, plan::word(low32(a.context_id)), true),
        (a.event_count_array, plan::word(2), true),
        (
            a.tiling_driver_stamp,
            plan::word(((low32(a.tiling_stamp) - 0x100) % 0x1_0000_0000) as u32),
            true,
        ),
        (
            a.fragment_driver_stamp,
            plan::word(((low32(a.fragment_stamp) - 0x100) % 0x1_0000_0000) as u32),
            true,
        ),
    ]
}

/// What is stored for one stage: its commands, its waits, and their slots in the ring of the queue.
pub open spec fn stage_objects(
    prelude: (u64, Seq<u8>),
    work: (u64, Seq<u8>),
    micro: (u64, Seq<u8>),
    ring: u64,
    first: u32,
    waits: Seq<Stamp>,
    own: u32,
    uuid: u32,
    with_prelude: bool,
) -> Seq<plan::Stored> {
    let n = waits.len() as int;
    let commands = seq![
        (prelude.0, prelude.1, true),
        (work.0, work.1, true),
        (micro.0, micro.1, true),
    ];
    let waiting = wait_writes((prelude.0 + 0x40) as u64, ring, first, waits, own, uuid, n);
    if with_prelude {
        commands + waiting + seq![
            (ring_slot(ring, first, n), plan::double(prelude.0), true),
            (ring_slot(ring, first, n + 1), plan::double(work.0), true),
        ]
    } else {
        commands + waiting + seq![(ring_slot(ring, first, n), plan::double(work.0), true)]
    }
}

/// Adds what is stored for one stage.
fn push_stage(
    writes: &mut Vec<Write>,
    prelude: (u64, &[u8]),
    work: (u64, &[u8]),
    micro: (u64, &[u8]),
    ring: u64,
    first: u32,
    waits: &Vec<Stamp>,
    own: u32,
    uuid: u32,
    with_prelude: bool,
)
    requires
        waits@.len() <= 2,
        prelude.0 + 0xc0 <= u64::MAX,
        ring + 0x2800 <= u64::MAX,
        first < 0x500,
    ensures
        plan::stored(final(writes)@) == plan::stored(old(writes)@) + stage_objects(
            (prelude.0, prelude.1@),
            (work.0, work.1@),
            (micro.0, micro.1@),
            ring,
            first,
            waits@,
            own,
            uuid,
            with_prelude,
        ),
{
    let ghost before = plan::stored(writes@);
    push_write(writes, prelude.0, prelude.1, true);
    push_write(writes, work.0, work.1, true);
    push_write(writes, micro.0, micro.1, true);
    push_waits(writes, prelude.0 + 0x40, ring, first, waits, own, uuid);
    let mut pos: u32 = (first + waits.len() as u32) % 0x500;
    if with_prelude {
        push_double(writes, ring + pos as u64 * 8, prelude.0);
        pos = (pos + 1) % 0x500;
    }
    push_double(writes, ring + pos as u64 * 8, work.0);
    assert(plan::stored(writes@) =~= before + stage_objects(
        (prelude.0, prelude.1@),
        (work.0, work.1@),
        (micro.0, micro.1@),
        ring,
        first,
        waits@,
        own,
        uuid,
        with_prelude,
    ));
}

/// What is stored to publish a render.
#[verifier::opaque]
pub open spec fn render_writes(
    a: Addresses,
    tiling: Seq<u8>,
    fragment: Seq<u8>,
    lanes: Seq<Lane>,
    init: bool,
    blocks: u32,
    dependencies: Seq<Option<Stamp>>,
    at_fragment: bool,
) -> Seq<plan::Stored> {
    notifier_writes(a) + stage_objects(
        (a.tiling_prelude, bytes::image(0x40, a.tiling_prelude_fields(blocks))),
        (a.tiling_work, tiling),
        (a.tiling_microsequence, bytes::image(0x300, a.tiling_microsequence_fields())),
        lanes[0].ring,
        lanes[0].head,
        waits(dependencies, at_fragment, 0),
        low32(a.tiling_stamp),
        low32(a.tiling_uuid),
        init,
    ) + stage_objects(
        (a.fragment_prelude, bytes::image(0x40, a.fragment_prelude_fields())),
        (a.fragment_work, fragment),
        (a.fragment_microsequence, bytes::image(0x380, a.fragment_microsequence_fields())),
        lanes[1].ring,
        lanes[1].head,
        waits(dependencies, at_fragment, 1),
        low32(a.fragment_stamp),
        low32(a.fragment_uuid),
        true,
    )
}

/// Whether the storage of a render is where its parts can be addressed.
pub open spec fn render_placed(a: Addresses) -> bool {
    &&& a.event_control + 0x24 <= u64::MAX
    &&& a.tiling_prelude + 0xc0 <= u64::MAX
    &&& a.fragment_prelude + 0xc0 <= u64::MAX
    &&& a.tiling_work + 0x928 <= u64::MAX
    &&& a.tiling_microsequence + 0x190 <= u64::MAX
    &&& a.fragment_work + 0xc70 <= u64::MAX
    &&& a.fragment_microsequence + 0x1b0 <= u64::MAX
    &&& a.buffer_thing + 0x54 <= u64::MAX
}

/// What is stored to publish a render, and the heads of its queues after that. The first render that
/// uses a buffer readies it; this is independent of the first use of a queue, because several queues
/// can share the buffer of a client.
pub fn publish_render(
    a: &Addresses,
    tiling: &[u8],
    fragment: &[u8],
    lanes: &[Lane; 3],
    init: bool,
    blocks: u32,
    dependencies: &[Option<Stamp>; 2],
    at_fragment: bool,
) -> (out: (Vec<Write>, [u32; 2]))
    requires
        lanes@[0].wf(),
        lanes@[1].wf(),
        render_placed(*a),
    ensures
        plan::stored(out.0@) == render_writes(
            *a,
            tiling@,
            fragment@,
            lanes@,
            init,
            blocks,
            dependencies@,
            at_fragment,
        ),
        out.1@[0] == head_after(lanes@[0].head, waits(dependencies@, at_fragment, 0), 0, init),
        out.1@[1] == head_after(lanes@[1].head, waits(dependencies@, at_fragment, 1), 1, init),
        out.1@[0] < 0x500,
        out.1@[1] < 0x500,
{
    proof {
        reveal(render_writes);
    }
    let mut writes: Vec<Write> = Vec::new();
    let (tiling_waits, fragment_waits): (Vec<Stamp>, Vec<Stamp>) = if at_fragment {
        (flatten(None, dependencies[1]), flatten(dependencies[0], None))
    } else {
        (flatten(dependencies[0], dependencies[1]), flatten(None, None))
    };
    assert(tiling_waits@ == waits(dependencies@, at_fragment, 0));
    assert(fragment_waits@ == waits(dependencies@, at_fragment, 1));
    push_double(&mut writes, a.event_control, a.event_count_array);
    push_word(&mut writes, a.event_control + 8, low32(a.fragment_stamp));
    push_word(&mut writes, a.event_control + 12, 0);
    push_word(&mut writes, a.event_control + 0x10, 0x50);
    push_word(&mut writes, a.event_control + 0x24, low32(a.context_id));
    push_word(&mut writes, a.event_count_array, 2);
    push_word(&mut writes, a.tiling_driver_stamp, stamp::previous(low32(a.tiling_stamp)));
    push_word(&mut writes, a.fragment_driver_stamp, stamp::previous(low32(a.fragment_stamp)));
    assert(plan::stored(writes@) =~= notifier_writes(*a));
    let tiling_prelude: [u8; 0x40] = a.tiling_prelude(blocks);
    let tiling_micro: [u8; 0x300] = a.tiling_microsequence();
    let fragment_prelude: [u8; 0x40] = a.fragment_prelude();
    let fragment_micro: [u8; 0x380] = a.fragment_microsequence();
    push_stage(
        &mut writes,
        (a.tiling_prelude, &tiling_prelude),
        (a.tiling_work, tiling),
        (a.tiling_microsequence, &tiling_micro),
        lanes[0].ring,
        lanes[0].head,
        &tiling_waits,
        low32(a.tiling_stamp),
        low32(a.tiling_uuid),
        init,
    );
    push_stage(
        &mut writes,
        (a.fragment_prelude, &fragment_prelude),
        (a.fragment_work, fragment),
        (a.fragment_microsequence, &fragment_micro),
        lanes[1].ring,
        lanes[1].head,
        &fragment_waits,
        low32(a.fragment_stamp),
        low32(a.fragment_uuid),
        true,
    );
    let heads: [u32; 2] = [
        next_head(lanes[0].head, tiling_waits.len() as u32, 0, init),
        next_head(lanes[1].head, fragment_waits.len() as u32, 1, init),
    ];
    (writes, heads)
}

} // verus!
