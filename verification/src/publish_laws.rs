//! What a publication stores: every wait before the work that has it, and the work last.
use crate::bytes;
use crate::compute;
use crate::lanes::{Lane, Stamp};
use crate::plan;
use crate::plan::Stored;
use crate::publish::{ComputeJob, RenderJob};
use crate::queue;
use crate::render;
use crate::submit;
use crate::submit_compute;
use vstd::prelude::*;

verus! {

/// A stored word is read back, and so is a stored double word.
pub proof fn lemma_words(word: u32, double: u64)
    ensures
        plan::word(word).len() == 4,
        bytes::u32_in(plan::word(word), 0) == word,
        plan::double(double).len() == 8,
        bytes::u64_in(plan::double(double), 0) == double,
{
    reveal_with_fuel(bytes::held, 2);
    bytes::lemma_held_u32(bytes::zeros(4), seq![bytes::w32(0, word)], 0);
    bytes::lemma_held_u64(bytes::zeros(8), seq![bytes::w64(0, double)], 0);
}

/// Whether some bytes are a command that lets the work `uuid` with the stamp `own` wait for a stamp.
pub open spec fn is_wait(m: Seq<u8>, s: Stamp, own: u32, uuid: u32) -> bool {
    &&& m.len() == 0x40
    &&& bytes::u32_in(m, 0) == 4
    &&& bytes::u64_in(m, 4) == s.address
    &&& bytes::u64_in(m, 0xc) == s.address
    &&& bytes::u32_in(m, 0x14) == s.value
    &&& bytes::u32_in(m, 0x20) == s.event
    &&& bytes::u32_in(m, 0x24) == own
    &&& bytes::u32_in(m, 0x28) == uuid
    &&& bytes::u32_in(m, 0x30) == 1
}

/// A dependency command waits for the stamp that it is made from.
#[verifier::rlimit(50)]
pub proof fn lemma_dependency(s: Stamp, own: u32, uuid: u32)
    ensures
        is_wait(
            bytes::image(0x40, queue::dependency_fields(s.address, s.value, s.event, own, uuid)),
            s,
            own,
            uuid,
        ),
{
    let fields = queue::dependency_fields(s.address, s.value, s.event, own, uuid);
    let base = bytes::zeros(0x40);
    assert(fields.len() == 8);
    reveal_with_fuel(bytes::held, 10);
    bytes::lemma_held_u32(base, fields, 0);
    bytes::lemma_held_u64(base, fields, 4);
    bytes::lemma_held_u64(base, fields, 0xc);
    bytes::lemma_held_u32(base, fields, 0x14);
    bytes::lemma_held_u32(base, fields, 0x20);
    bytes::lemma_held_u32(base, fields, 0x24);
    bytes::lemma_held_u32(base, fields, 0x28);
    bytes::lemma_held_u32(base, fields, 0x30);
}

/// Whether a publication puts a command into a slot of a ring, which is stored before: the slot is the
/// `distance`-th behind the head, and holds the address of the command.
pub open spec fn queued(w: Seq<Stored>, ring: u64, head: u32, distance: int, i: int, slot: int) -> bool {
    &&& 0 <= i < slot < w.len()
    &&& w[i].2
    &&& w[slot].2
    &&& w[slot].0 == ring + ((head + distance) % 0x500) * 8
    &&& w[slot].1.len() == 8
    &&& bytes::u64_in(w[slot].1, 0) == w[i].0
}

/// Whether a publication waits for a stamp, `distance` slots behind the head.
pub open spec fn waited(
    w: Seq<Stored>,
    ring: u64,
    head: u32,
    distance: int,
    s: Stamp,
    own: u32,
    uuid: u32,
) -> bool {
    exists|i: int, slot: int| #[trigger]
        queued(w, ring, head, distance, i, slot) && is_wait(w[i].1, s, own, uuid)
}

/// How many of two dependencies there are.
pub open spec fn count(a: Option<Stamp>, b: Option<Stamp>) -> int {
    (if a is Some {
        1int
    } else {
        0
    }) + (if b is Some {
        1int
    } else {
        0
    })
}

/// The list of what a work waits for has every stamp that is there, the earlier one first, and no other.
pub proof fn lemma_none_forgotten(a: Option<Stamp>, b: Option<Stamp>)
    ensures
        submit::present(a, b).len() == count(a, b),
        a is Some ==> submit::present(a, b)[0] == a->0,
        b is Some ==> submit::present(a, b)[count(a, b) - 1] == b->0,
{
}

/// Where a command of a list of waits stands in what is stored for them, and where its slot does.
#[verifier::rlimit(50)]
proof fn lemma_wait_stored(
    base: u64,
    ring: u64,
    head: u32,
    waits: Seq<Stamp>,
    own: u32,
    uuid: u32,
    n: int,
    k: int,
)
    requires
        0 <= k < n <= waits.len() <= 2,
        base + 0x80 <= u64::MAX,
        ring + 0x2800 <= u64::MAX,
    ensures
        ({
            let w = submit::wait_writes(base, ring, head, waits, own, uuid, n);
            &&& w.len() == 2 * n
            &&& queued(w, ring, head, k, 2 * k, 2 * k + 1)
            &&& is_wait(w[2 * k].1, waits[k], own, uuid)
            &&& w[2 * k].0 == base + 0x40 * k
        }),
    decreases n,
{
    reveal_with_fuel(submit::wait_writes, 4);
    lemma_dependency(waits[0], own, uuid);
    lemma_words(0, base);
    if n == 2 {
        lemma_dependency(waits[1], own, uuid);
        lemma_words(0, (base + 0x40) as u64);
    }
}

/// What is queued in a part of a publication is queued in all of it.
proof fn lemma_queued_in(
    w: Seq<Stored>,
    at: int,
    part: Seq<Stored>,
    ring: u64,
    head: u32,
    k: int,
    i: int,
    slot: int,
)
    requires
        0 <= at,
        at + part.len() <= w.len(),
        forall|j: int| 0 <= j < part.len() ==> w[at + j] == #[trigger] part[j],
        queued(part, ring, head, k, i, slot),
    ensures
        queued(w, ring, head, k, at + i, at + slot),
        w[at + i] == part[i],
{
    assert(w[at + i] == part[i] && w[at + slot] == part[slot]);
}

/// A compute waits for everything that it depends on: each dependency has a command, stored before the slot
/// that leads to it, and all of these slots lie between the old head and the work, the earlier dependency
/// first. The work has the slot behind them, and is the last that is stored.
#[verifier::rlimit(50)]
pub proof fn lemma_compute_waits(
    p: compute::Parameters,
    a: compute::Addresses,
    lane: Lane,
    timestamps: Seq<u64>,
    dependencies: Seq<Option<Stamp>>,
)
    requires
        a.work + 0x1980 <= u64::MAX,
        lane.ring + 0x2800 <= u64::MAX,
        dependencies.len() == 2,
    ensures
        ({
            let w = submit_compute::compute_writes(p, a, lane, timestamps, dependencies);
            let own = a.stamp;
            let uuid = (a.identity % 0x1_0000_0000) as u32;
            let n = count(dependencies[0], dependencies[1]);
            &&& dependencies[0] is Some ==> waited(w, lane.ring, lane.head, 0, dependencies[0]->0, own, uuid)
            &&& dependencies[1] is Some ==> waited(
                w,
                lane.ring,
                lane.head,
                n - 1,
                dependencies[1]->0,
                own,
                uuid,
            )
            &&& w.len() == 10 + 2 * n + 1
            &&& w.last().0 == lane.ring + ((lane.head + n) % 0x500) * 8
            &&& bytes::u64_in(w.last().1, 0) == a.work
            &&& w.last().2
        }),
{
    let w = submit_compute::compute_writes(p, a, lane, timestamps, dependencies);
    let own = a.stamp;
    let uuid = bytes::low32(a.identity);
    let waits = submit::present(dependencies[0], dependencies[1]);
    let n = waits.len() as int;
    let base = (a.work + 0x1900) as u64;
    let part = submit::wait_writes(base, lane.ring, lane.head, waits, own, uuid, n);
    let objects = submit_compute::object_writes(p, a, timestamps);
    assert(objects.len() == 10);
    lemma_words(0, a.work);
    if n > 0 {
        lemma_wait_stored(base, lane.ring, lane.head, waits, own, uuid, n, 0);
        lemma_wait_stored(base, lane.ring, lane.head, waits, own, uuid, n, n - 1);
        assert forall|j: int| 0 <= j < part.len() implies w[10 + j] == #[trigger] part[j] by {}
        lemma_queued_in(w, 10, part, lane.ring, lane.head, 0, 0, 1);
        lemma_queued_in(w, 10, part, lane.ring, lane.head, n - 1, 2 * (n - 1), 2 * (n - 1) + 1);
    } else {
        reveal_with_fuel(submit::wait_writes, 2);
    }
}

/// What is stored for a compute besides its waits: the shared count, the work, the stream that enters that of
/// the client, the times of the client and where they go, the microsequence, the notifier with its threshold,
/// and a stamp that is not yet reached.
#[verifier::rlimit(50)]
pub proof fn lemma_compute_objects(
    p: compute::Parameters,
    a: compute::Addresses,
    lane: Lane,
    timestamps: Seq<u64>,
    dependencies: Seq<Option<Stamp>>,
)
    requires
        a.work + 0x1a00 <= u64::MAX,
        a.notifier + 0x24 <= u64::MAX,
    ensures
        ({
            let w = submit_compute::compute_writes(p, a, lane, timestamps, dependencies);
            &&& forall|i: int| 0 <= i < 10 ==> (#[trigger] w[i]).2
            &&& w[0].0 == 0xffff_fc20_001b_0000 && bytes::u32_in(w[0].1, 0) == a.counter % 0x1_0000_0000
            &&& w[1].0 == a.work && w[1].1 == bytes::image(0x8c0, p.work_fields(a))
            &&& w[2].0 == a.work + 0x1a00 && w[2].1 == bytes::image(0xc, compute::entry_fields(p.cdm))
            &&& w[3].0 == a.work + 0x17c0 && bytes::u64_in(w[3].1, 0) == timestamps[0]
            &&& w[4].0 == a.work + 0x17c8 && bytes::u64_in(w[4].1, 0) == timestamps[1]
            &&& w[5].0 == a.microsequence && w[5].1.len() == 0x300
            &&& bytes::u64_in(w[5].1, 0x1e0) == a.work + 0x17c0
            &&& bytes::u64_in(w[5].1, 0x230) == a.work + 0x17c0
            &&& forall|i: int|
                0 <= i < 0x300 && !(0x1e0 <= i < 0x1e8) && !(0x230 <= i < 0x238) ==> #[trigger] w[5].1[i]
                    == bytes::image(0x300, p.microsequence_fields(a))[i]
            &&& w[6].0 == a.notifier && w[6].1.len() == 0x14
            &&& forall|i: int|
                0 <= i < 0x14 ==> #[trigger] w[6].1[i] == bytes::image(0x100, a.notifier_fields(0))[i]
            &&& w[7].0 == a.notifier + 0x24 && w[7].1.len() == 4
            &&& forall|i: int|
                0 <= i < 4 ==> #[trigger] w[7].1[i] == bytes::image(0x100, a.notifier_fields(0))[0x24 + i]
            &&& w[8].0 == a.threshold && bytes::u32_in(w[8].1, 0) == 1
            &&& w[9].0 == a.driver_stamp && bytes::u32_in(w[9].1, 0) == (a.stamp - 0x100) % 0x1_0000_0000
        }),
{
    let w = submit_compute::compute_writes(p, a, lane, timestamps, dependencies);
    let objects = submit_compute::object_writes(p, a, timestamps);
    assert(objects.len() == 10);
    assert forall|j: int| 0 <= j < 10 implies w[j] == #[trigger] objects[j] by {}
    assert(w[0] == objects[0] && w[1] == objects[1] && w[2] == objects[2] && w[3] == objects[3] && w[4]
        == objects[4] && w[5] == objects[5] && w[6] == objects[6] && w[7] == objects[7] && w[8]
        == objects[8] && w[9] == objects[9]);
    lemma_words(bytes::low32(a.counter), timestamps[0]);
    lemma_words(1, timestamps[1]);
    lemma_words(((a.stamp - 0x100) % 0x1_0000_0000) as u32, 0);
    let micro = bytes::image(0x300, p.microsequence_fields(a));
    let stamps = (a.work + 0x17c0) as u64;
    let fields = seq![bytes::w64(0x1e0, stamps), bytes::w64(0x230, stamps)];
    reveal_with_fuel(bytes::held, 4);
    reveal_with_fuel(bytes::touched, 4);
    bytes::lemma_held_u64(micro, fields, 0x1e0);
    bytes::lemma_held_u64(micro, fields, 0x230);
    assert forall|i: int|
        0 <= i < 0x300 && !(0x1e0 <= i < 0x1e8) && !(0x230 <= i < 0x238) implies #[trigger] w[5].1[i]
        == micro[i] by {
        bytes::lemma_untouched(micro, fields, i);
    }
}

/// The head of a compute's queue moves by one slot for each wait and one for the work, around the ring.
pub proof fn lemma_compute_head(job: ComputeJob, lane: Lane)
    ensures
        job.head(lane) == (lane.head + count(job.dependencies@[0], job.dependencies@[1]) + 1) % 0x500,
{
}

/// What a stage stores: its commands first, then its waits, each with its slot, and its own slots last. The
/// prelude, where there is one, has the slot before the work.
#[verifier::rlimit(50)]
proof fn lemma_stage(
    prelude: (u64, Seq<u8>),
    work: (u64, Seq<u8>),
    micro: (u64, Seq<u8>),
    ring: u64,
    head: u32,
    waits: Seq<Stamp>,
    own: u32,
    uuid: u32,
    with_prelude: bool,
)
    requires
        waits.len() <= 2,
        prelude.0 + 0xc0 <= u64::MAX,
        ring + 0x2800 <= u64::MAX,
    ensures
        ({
            let w = submit::stage_objects(
                prelude,
                work,
                micro,
                ring,
                head,
                waits,
                own,
                uuid,
                with_prelude,
            );
            let n = waits.len() as int;
            let last = 3 + 2 * n + (if with_prelude {
                1int
            } else {
                0
            });
            &&& w.len() == last + 1
            &&& w[0] == (prelude.0, prelude.1, true)
            &&& w[1] == (work.0, work.1, true)
            &&& w[2] == (micro.0, micro.1, true)
            &&& n > 0 ==> queued(w, ring, head, 0, 3, 4) && is_wait(w[3].1, waits[0], own, uuid)
            &&& n == 2 ==> queued(w, ring, head, 1, 5, 6) && is_wait(w[5].1, waits[1], own, uuid)
            &&& with_prelude ==> queued(w, ring, head, n, 0, last - 1) && queued(
                w,
                ring,
                head,
                n + 1,
                1,
                last,
            )
            &&& !with_prelude ==> queued(w, ring, head, n, 1, last)
        }),
{
    let base = (prelude.0 + 0x40) as u64;
    let n = waits.len() as int;
    let w = submit::stage_objects(prelude, work, micro, ring, head, waits, own, uuid, with_prelude);
    let part = submit::wait_writes(base, ring, head, waits, own, uuid, n);
    lemma_words(0, prelude.0);
    lemma_words(0, work.0);
    if n > 0 {
        lemma_wait_stored(base, ring, head, waits, own, uuid, n, 0);
        assert forall|j: int| 0 <= j < part.len() implies w[3 + j] == #[trigger] part[j] by {}
        lemma_queued_in(w, 3, part, ring, head, 0, 0, 1);
        if n == 2 {
            lemma_wait_stored(base, ring, head, waits, own, uuid, n, 1);
            lemma_queued_in(w, 3, part, ring, head, 1, 2, 3);
        }
    } else {
        reveal_with_fuel(submit::wait_writes, 2);
    }
}

/// A render waits for everything that it depends on. Its tiling waits for all of it, unless the wait for an
/// earlier render is moved to the fragment stage: then tiling waits for the compute alone. Either way each
/// dependency has a command, stored before the slot that leads to it, in front of the stage that waits.
pub proof fn lemma_render_waits(
    a: render::Addresses,
    tiling: Seq<u8>,
    fragment: Seq<u8>,
    lanes: Seq<Lane>,
    init: bool,
    blocks: u32,
    dependencies: Seq<Option<Stamp>>,
    at_fragment: bool,
)
    requires
        submit::render_placed(a),
        lanes[0].ring + 0x2800 <= u64::MAX,
        lanes[1].ring + 0x2800 <= u64::MAX,
        dependencies.len() == 2,
    ensures
        ({
            let w = submit::render_writes(
                a,
                tiling,
                fragment,
                lanes,
                init,
                blocks,
                dependencies,
                at_fragment,
            );
            let t = (lanes[0].ring, lanes[0].head);
            let f = (lanes[1].ring, lanes[1].head);
            let own_t = (a.tiling_stamp % 0x1_0000_0000) as u32;
            let own_f = (a.fragment_stamp % 0x1_0000_0000) as u32;
            let id_t = (a.tiling_uuid % 0x1_0000_0000) as u32;
            let id_f = (a.fragment_uuid % 0x1_0000_0000) as u32;
            let both = count(dependencies[0], dependencies[1]);
            &&& dependencies[0] is Some && !at_fragment ==> waited(
                w,
                t.0,
                t.1,
                0,
                dependencies[0]->0,
                own_t,
                id_t,
            )
            &&& dependencies[1] is Some && !at_fragment ==> waited(
                w,
                t.0,
                t.1,
                both - 1,
                dependencies[1]->0,
                own_t,
                id_t,
            )
            &&& dependencies[0] is Some && at_fragment ==> waited(
                w,
                f.0,
                f.1,
                0,
                dependencies[0]->0,
                own_f,
                id_f,
            )
            &&& dependencies[1] is Some && at_fragment ==> waited(
                w,
                t.0,
                t.1,
                0,
                dependencies[1]->0,
                own_t,
                id_t,
            )
        }),
{
    let at = lemma_render_stages(
        a,
        tiling,
        fragment,
        lanes,
        init,
        blocks,
        dependencies,
        at_fragment,
    );
}

/// Whether a publication puts the work of a stage into its ring, behind so many waits: the prelude first,
/// where there is one, and then the work.
pub open spec fn work_queued(
    w: Seq<Stored>,
    ring: u64,
    head: u32,
    waits: int,
    prelude: Option<u64>,
    work: u64,
) -> bool {
    match prelude {
        Some(prelude) => leads_to(w, ring, head, waits, prelude) && leads_to(w, ring, head, waits + 1, work),
        None => leads_to(w, ring, head, waits, work),
    }
}

/// Whether a publication puts a command at an address into a ring, `distance` slots behind the head.
pub open spec fn leads_to(w: Seq<Stored>, ring: u64, head: u32, distance: int, target: u64) -> bool {
    exists|i: int, slot: int| #[trigger] queued(w, ring, head, distance, i, slot) && w[i].0 == target
}

/// Where the stages of a render stand in what is stored for it.
#[verifier::rlimit(60)]
proof fn lemma_render_stages(
    a: render::Addresses,
    tiling: Seq<u8>,
    fragment: Seq<u8>,
    lanes: Seq<Lane>,
    init: bool,
    blocks: u32,
    dependencies: Seq<Option<Stamp>>,
    at_fragment: bool,
) -> (at: int)
    requires
        submit::render_placed(a),
        lanes[0].ring + 0x2800 <= u64::MAX,
        lanes[1].ring + 0x2800 <= u64::MAX,
        dependencies.len() == 2,
    ensures
        ({
            let w = submit::render_writes(
                a,
                tiling,
                fragment,
                lanes,
                init,
                blocks,
                dependencies,
                at_fragment,
            );
            let t = (lanes[0].ring, lanes[0].head);
            let f = (lanes[1].ring, lanes[1].head);
            let own_t = bytes::low32(a.tiling_stamp);
            let own_f = bytes::low32(a.fragment_stamp);
            let id_t = bytes::low32(a.tiling_uuid);
            let id_f = bytes::low32(a.fragment_uuid);
            let n0 = if at_fragment {
                count(None, dependencies[1])
            } else {
                count(dependencies[0], dependencies[1])
            };
            let n1 = if at_fragment {
                count(dependencies[0], None)
            } else {
                0
            };
            &&& 8 <= at
            &&& at + 5 + 2 * n1 == w.len()
            &&& w[8] == (
                a.tiling_prelude,
                bytes::image(0x40, a.tiling_prelude_fields(blocks)),
                true,
            )
            &&& w[9] == (a.tiling_work, tiling, true)
            &&& w[10] == (
                a.tiling_microsequence,
                bytes::image(0x300, a.tiling_microsequence_fields()),
                true,
            )
            &&& w[at] == (
                a.fragment_prelude,
                bytes::image(0x40, a.fragment_prelude_fields()),
                true,
            )
            &&& w[at + 1] == (a.fragment_work, fragment, true)
            &&& w[at + 2] == (
                a.fragment_microsequence,
                bytes::image(0x380, a.fragment_microsequence_fields()),
                true,
            )
            &&& !at_fragment && dependencies[0] is Some ==> queued(w, t.0, t.1, 0, 11, 12) && is_wait(
                w[11].1,
                dependencies[0]->0,
                own_t,
                id_t,
            )
            &&& dependencies[1] is Some ==> queued(w, t.0, t.1, n0 - 1, 11 + 2 * (n0 - 1), 12 + 2 * (n0
                - 1)) && is_wait(w[11 + 2 * (n0 - 1)].1, dependencies[1]->0, own_t, id_t)
            &&& at_fragment && dependencies[0] is Some ==> queued(w, f.0, f.1, 0, at + 3, at + 4) && is_wait(
                w[at + 3].1,
                dependencies[0]->0,
                own_f,
                id_f,
            )
            &&& init ==> queued(w, t.0, t.1, n0, 8, at - 2) && queued(w, t.0, t.1, n0 + 1, 9, at - 1)
            &&& !init ==> queued(w, t.0, t.1, n0, 9, at - 1)
            &&& queued(w, f.0, f.1, n1, at, w.len() - 2)
            &&& queued(w, f.0, f.1, n1 + 1, at + 1, w.len() - 1)
        }),
{
    reveal(submit::render_writes);
    let w = submit::render_writes(a, tiling, fragment, lanes, init, blocks, dependencies, at_fragment);
    let w0 = submit::waits(dependencies, at_fragment, 0);
    let w1 = submit::waits(dependencies, at_fragment, 1);
    let first = submit::stage_objects(
        (a.tiling_prelude, bytes::image(0x40, a.tiling_prelude_fields(blocks))),
        (a.tiling_work, tiling),
        (a.tiling_microsequence, bytes::image(0x300, a.tiling_microsequence_fields())),
        lanes[0].ring,
        lanes[0].head,
        w0,
        bytes::low32(a.tiling_stamp),
        bytes::low32(a.tiling_uuid),
        init,
    );
    let second = submit::stage_objects(
        (a.fragment_prelude, bytes::image(0x40, a.fragment_prelude_fields())),
        (a.fragment_work, fragment),
        (a.fragment_microsequence, bytes::image(0x380, a.fragment_microsequence_fields())),
        lanes[1].ring,
        lanes[1].head,
        w1,
        bytes::low32(a.fragment_stamp),
        bytes::low32(a.fragment_uuid),
        true,
    );
    lemma_stage(
        (a.tiling_prelude, bytes::image(0x40, a.tiling_prelude_fields(blocks))),
        (a.tiling_work, tiling),
        (a.tiling_microsequence, bytes::image(0x300, a.tiling_microsequence_fields())),
        lanes[0].ring,
        lanes[0].head,
        w0,
        bytes::low32(a.tiling_stamp),
        bytes::low32(a.tiling_uuid),
        init,
    );
    lemma_stage(
        (a.fragment_prelude, bytes::image(0x40, a.fragment_prelude_fields())),
        (a.fragment_work, fragment),
        (a.fragment_microsequence, bytes::image(0x380, a.fragment_microsequence_fields())),
        lanes[1].ring,
        lanes[1].head,
        w1,
        bytes::low32(a.fragment_stamp),
        bytes::low32(a.fragment_uuid),
        true,
    );
    let head = submit::notifier_writes(a);
    assert(head.len() == 8);
    let at = 8 + first.len() as int;
    assert(w.len() == at + second.len());
    assert forall|j: int| 0 <= j < first.len() implies w[8 + j] == #[trigger] first[j] by {}
    assert forall|j: int| 0 <= j < second.len() implies w[at + j] == #[trigger] second[j] by {}
    let n0 = w0.len() as int;
    let n1 = w1.len() as int;
    let t = (lanes[0].ring, lanes[0].head);
    let f = (lanes[1].ring, lanes[1].head);
    assert(w[8] == first[0] && w[9] == first[1] && w[10] == first[2]);
    assert(w[at] == second[0] && w[at + 1] == second[1] && w[at + 2] == second[2]);
    if n0 > 0 {
        lemma_queued_in(w, 8, first, t.0, t.1, 0, 3, 4);
    }
    if n0 == 2 {
        lemma_queued_in(w, 8, first, t.0, t.1, 1, 5, 6);
    }
    if n1 > 0 {
        lemma_queued_in(w, at, second, f.0, f.1, 0, 3, 4);
    }
    let end0 = first.len() - 1;
    if init {
        lemma_queued_in(w, 8, first, t.0, t.1, n0, 0, end0 - 1);
        lemma_queued_in(w, 8, first, t.0, t.1, n0 + 1, 1, end0);
    } else {
        lemma_queued_in(w, 8, first, t.0, t.1, n0, 1, end0);
    }
    let end1 = second.len() - 1;
    lemma_queued_in(w, at, second, f.0, f.1, n1, 0, end1 - 1);
    lemma_queued_in(w, at, second, f.0, f.1, n1 + 1, 1, end1);
    at
}

/// Both stages of a render come into their rings, each behind its own waits. Shading always has its prelude
/// before it, which waits for tiling; tiling has its own only where the buffer of the client is not ready.
pub proof fn lemma_render_queued(
    a: render::Addresses,
    tiling: Seq<u8>,
    fragment: Seq<u8>,
    lanes: Seq<Lane>,
    init: bool,
    blocks: u32,
    dependencies: Seq<Option<Stamp>>,
    at_fragment: bool,
)
    requires
        submit::render_placed(a),
        lanes[0].ring + 0x2800 <= u64::MAX,
        lanes[1].ring + 0x2800 <= u64::MAX,
        dependencies.len() == 2,
    ensures
        ({
            let w = submit::render_writes(
                a,
                tiling,
                fragment,
                lanes,
                init,
                blocks,
                dependencies,
                at_fragment,
            );
            let n0 = if at_fragment {
                count(None, dependencies[1])
            } else {
                count(dependencies[0], dependencies[1])
            };
            let n1 = if at_fragment {
                count(dependencies[0], None)
            } else {
                0
            };
            &&& work_queued(
                w,
                lanes[0].ring,
                lanes[0].head,
                n0,
                if init {
                    Some(a.tiling_prelude)
                } else {
                    None
                },
                a.tiling_work,
            )
            &&& work_queued(
                w,
                lanes[1].ring,
                lanes[1].head,
                n1,
                Some(a.fragment_prelude),
                a.fragment_work,
            )
        }),
{
    let at = lemma_render_stages(
        a,
        tiling,
        fragment,
        lanes,
        init,
        blocks,
        dependencies,
        at_fragment,
    );
}

/// What a render stores at the addresses of its stages: the two works, each with its prelude and its
/// microsequence.
pub proof fn lemma_render_objects(
    a: render::Addresses,
    tiling: Seq<u8>,
    fragment: Seq<u8>,
    lanes: Seq<Lane>,
    init: bool,
    blocks: u32,
    dependencies: Seq<Option<Stamp>>,
    at_fragment: bool,
)
    requires
        submit::render_placed(a),
        lanes[0].ring + 0x2800 <= u64::MAX,
        lanes[1].ring + 0x2800 <= u64::MAX,
        dependencies.len() == 2,
    ensures
        ({
            let w = submit::render_writes(
                a,
                tiling,
                fragment,
                lanes,
                init,
                blocks,
                dependencies,
                at_fragment,
            );
            &&& w.contains((a.tiling_work, tiling, true))
            &&& w.contains((a.fragment_work, fragment, true))
            &&& w.contains(
                (a.tiling_prelude, bytes::image(0x40, a.tiling_prelude_fields(blocks)), true),
            )
            &&& w.contains(
                (a.fragment_prelude, bytes::image(0x40, a.fragment_prelude_fields()), true),
            )
            &&& w.contains(
                (
                    a.tiling_microsequence,
                    bytes::image(0x300, a.tiling_microsequence_fields()),
                    true,
                ),
            )
            &&& w.contains(
                (
                    a.fragment_microsequence,
                    bytes::image(0x380, a.fragment_microsequence_fields()),
                    true,
                ),
            )
        }),
{
    let at = lemma_render_stages(
        a,
        tiling,
        fragment,
        lanes,
        init,
        blocks,
        dependencies,
        at_fragment,
    );
}

/// What a render stores for its notifier: it waits for two stages, in the context of the render, and both
/// driver stamps start one step before the stamps that are waited for.
#[verifier::rlimit(50)]
pub proof fn lemma_render_notifier(
    a: render::Addresses,
    tiling: Seq<u8>,
    fragment: Seq<u8>,
    lanes: Seq<Lane>,
    init: bool,
    blocks: u32,
    dependencies: Seq<Option<Stamp>>,
    at_fragment: bool,
)
    requires
        a.event_control + 0x24 <= u64::MAX,
    ensures
        ({
            let w = submit::render_writes(
                a,
                tiling,
                fragment,
                lanes,
                init,
                blocks,
                dependencies,
                at_fragment,
            );
            &&& forall|i: int| 0 <= i < 8 ==> (#[trigger] w[i]).2
            &&& w[0].0 == a.event_control && bytes::u64_in(w[0].1, 0) == a.event_count_array
            &&& w[1].0 == a.event_control + 8 && bytes::u32_in(w[1].1, 0) == a.fragment_stamp
                % 0x1_0000_0000
            &&& w[2].0 == a.event_control + 12 && bytes::u32_in(w[2].1, 0) == 0
            &&& w[3].0 == a.event_control + 0x10 && bytes::u32_in(w[3].1, 0) == 0x50
            &&& w[4].0 == a.event_control + 0x24 && bytes::u32_in(w[4].1, 0) == a.context_id
                % 0x1_0000_0000
            &&& w[5].0 == a.event_count_array && bytes::u32_in(w[5].1, 0) == 2
            &&& w[6].0 == a.tiling_driver_stamp && bytes::u32_in(w[6].1, 0) == (a.tiling_stamp
                % 0x1_0000_0000 - 0x100) % 0x1_0000_0000
            &&& w[7].0 == a.fragment_driver_stamp && bytes::u32_in(w[7].1, 0) == (a.fragment_stamp
                % 0x1_0000_0000 - 0x100) % 0x1_0000_0000
        }),
{
    reveal(submit::render_writes);
    let w = submit::render_writes(a, tiling, fragment, lanes, init, blocks, dependencies, at_fragment);
    let head = submit::notifier_writes(a);
    assert(head.len() == 8);
    assert forall|j: int| 0 <= j < 8 implies w[j] == #[trigger] head[j] by {}
    assert(w[0] == head[0] && w[1] == head[1] && w[2] == head[2] && w[3] == head[3] && w[4] == head[4]
        && w[5] == head[5] && w[6] == head[6] && w[7] == head[7]);
    lemma_words(bytes::low32(a.fragment_stamp), a.event_count_array);
    lemma_words(0, 0);
    lemma_words(0x50, 0);
    lemma_words(2, 0);
    lemma_words(bytes::low32(a.context_id), 0);
    lemma_words(((bytes::low32(a.tiling_stamp) - 0x100) % 0x1_0000_0000) as u32, 0);
    lemma_words(((bytes::low32(a.fragment_stamp) - 0x100) % 0x1_0000_0000) as u32, 0);
}

/// The heads of a render's queues move by one slot for each wait, one for the work, and one for the prelude
/// where it has a slot, around the ring.
pub proof fn lemma_render_heads(first: u32, dependencies: Seq<Option<Stamp>>, at_fragment: bool, init: bool)
    ensures
        submit::head_after(first, submit::waits(dependencies, at_fragment, 0), 0, init) == (first + (
        if at_fragment {
            count(None, dependencies[1])
        } else {
            count(dependencies[0], dependencies[1])
        }) + (if init {
            2int
        } else {
            1
        })) % 0x500,
        submit::head_after(first, submit::waits(dependencies, at_fragment, 1), 1, init) == (first + (
        if at_fragment {
            count(dependencies[0], None)
        } else {
            0
        }) + 2) % 0x500,
{
}

/// The receipt of a compute names the stamp that its finishing command stores, where it stores it.
pub proof fn lemma_compute_receipt(job: ComputeJob)
    ensures
        job.completion().address == job.addresses.firmware_stamp,
        job.completion().value == job.addresses.stamp,
        job.completion().event == job.addresses.event,
{
}

/// The receipt of a render names the stamp that the command which finishes shading stores, where it stores
/// it.
pub proof fn lemma_render_receipt(job: RenderJob)
    ensures
        job.completion().address == job.addresses.fragment_firmware_stamp,
        job.completion().value == job.addresses.fragment_stamp % 0x1_0000_0000,
        job.completion().event == job.addresses.fragment_event % 0x1_0000_0000,
{
}

} // verus!
