//! Events that the firmware sends.
//!
//! An event is matched with the outstanding work that it names, never with the work that was submitted
//! last. Completion events are hints: stamps and cursors decide about retirement.
use crate::bytes;
use crate::bytes::{encode, get32, get64, low32, w32, w64, Field};
use crate::error::Error;
use crate::flights::{Flight, Session};
use crate::fw::{BUNDLE_ADDRESS, CONTROL_DATA, OPERAND_TABLE};
use crate::render::Addresses;
use crate::tvb::Tvb;
use vstd::prelude::*;

verus! {

/// Cursors of the event ring: the driver's, and the firmware's behind it.
pub const EVENT_STATE: u64 = 0xffff_fc20_0003_f1c0;

/// The event ring.
pub const EVENT_RING: u64 = 0xffff_fc20_0003_f440;

/// Size of an event.
pub const EVENT_SIZE: u64 = 0x48;

/// How many events are served before retirement is looked at again.
pub const EVENTS_PER_PASS: u32 = 256;

/// The ring for replies to events.
pub const REPLY_RING: u64 = 0xffff_fc20_c04f_5f00;

/// What becomes of an event.
#[derive(Clone, Copy, Debug, PartialEq, Eq, Structural)]
pub enum EventAction {
    /// It is dropped.
    Skip,
    /// It belongs to the render of an outstanding piece of work.
    Render(usize),
    /// It belongs to nothing: the device has failed.
    Unknown,
}

/// What becomes of an event of a render.
#[derive(Clone, Copy, Debug, PartialEq, Eq, Structural)]
pub enum RenderAction {
    /// It is dropped.
    Skip,
    /// It stays until there is room for a reply.
    Wait,
    /// The buffer is to grow. The request names a subpipe and a halt counter, which the reply repeats:
    /// queued work can ask for growth before its main stage starts.
    Grow { subpipe: u32, halt_count: u64 },
    /// The render ends for want of memory.
    Limit,
}

/// Where an event stands in the ring.
pub fn event_address(cursor: u32) -> (out: u64)
    requires
        cursor < 256,
    ensures
        out == EVENT_RING + cursor * EVENT_SIZE,
{
    EVENT_RING + cursor as u64 * EVENT_SIZE
}

/// Where a reply stands in its ring.
pub fn reply_address(tail: u32) -> (out: u64)
    requires
        tail < 256,
    ensures
        out == REPLY_RING + tail * 64,
        REPLY_RING == BUNDLE_ADDRESS + 0x1df00,
{
    REPLY_RING + tail as u64 * 64
}

/// The end of the ring of replies behind one more reply.
pub fn next_reply(tail: u32) -> (out: u32)
    requires
        tail < 256,
    ensures
        out == (tail + 1) % 256,
{
    (tail + 1) % 256
}

/// The cursor after the next event, where there is an event.
pub fn next_event(cursor: u32, end: u32) -> (out: Result<Option<u32>, Error>)
    ensures
        out == if cursor >= 256 || end >= 256 {
            Err::<Option<u32>, Error>(Error::EIO)
        } else if cursor == end {
            Ok(None)
        } else {
            Ok(Some(((cursor + 1) % 256) as u32))
        },
{
    if cursor >= 256 || end >= 256 {
        return Err(Error::EIO);
    }
    if cursor == end {
        return Ok(None);
    }
    Ok(Some((cursor + 1) % 256))
}

/// Whether an event reports that the opening control record has been taken over.
pub open spec fn is_opening(event: Seq<u8>) -> bool {
    &&& bytes::u32_in(event, 0) == 13
    &&& bytes::u32_in(event, 4) == 1
    &&& bytes::u32_in(event, 8) == 0
    &&& bytes::u64_in(event, 12) == CONTROL_DATA
    &&& bytes::u64_in(event, 20) == OPERAND_TABLE
    &&& bytes::u64_in(event, 28) == OPERAND_TABLE
    &&& bytes::u32_in(event, 36) == 160
}

/// Whether an event is a request of a render whose fragment stamp stands at `current`.
pub open spec fn names(event: Seq<u8>, flight: Flight, current: u32) -> bool {
    let a = flight.render->0.addresses;
    let kind = bytes::u32_in(event, 0);
    &&& flight.render is Some
    &&& {
        ||| kind == 6 && bytes::u32_in(event, 4) == low32(a.context_id) && bytes::u32_in(event, 8)
            == low32(a.buffer_manager_slot) && current != low32(a.fragment_stamp)
        ||| kind == 7 && bytes::u32_in(event, 12) == low32(a.fragment_event) && bytes::u32_in(
            event,
            16,
        ) == low32(a.fragment_stamp)
    }
}

/// Whether an event is a request of a render.
fn matches_flight(event: &[u8], flight: &Flight, current: u32) -> (out: bool)
    requires
        event@.len() == 0x48,
    ensures
        out == names(event@, *flight, current),
{
    match flight.render {
        None => false,
        Some(render) => {
            let a: Addresses = render.addresses;
            let kind: u32 = get32(event, 0);
            if kind == 6 {
                get32(event, 4) == low32(a.context_id) && get32(event, 8) == low32(
                    a.buffer_manager_slot,
                ) && current != low32(a.fragment_stamp)
            } else if kind == 7 {
                get32(event, 12) == low32(a.fragment_event) && get32(event, 16) == low32(
                    a.fragment_stamp,
                )
            } else {
                false
            }
        },
    }
}

impl Session {
    /// What becomes of an event. `stamps` are the fragment stamps of the outstanding work as they stand.
    pub fn classify(&mut self, event: &[u8], stamps: &Vec<u32>) -> (out: EventAction)
        requires
            event@.len() == 0x48,
            stamps@.len() == old(self).flights@.len(),
        ensures
            ({
                let opening = old(self).opening_notification_pending && is_opening(event@);
                &&& *final(self) == (Session {
                    opening_notification_pending: old(self).opening_notification_pending && !opening,
                    ..*old(self)
                })
                &&& match out {
                    EventAction::Skip => bytes::u32_in(event@, 0) == 1 || opening,
                    EventAction::Render(i) => {
                        &&& i < old(self).flights@.len()
                        &&& names(event@, old(self).flights@[i as int], stamps@[i as int])
                        &&& forall|j: int|
                            0 <= j < i ==> !names(
                                event@,
                                #[trigger] old(self).flights@[j],
                                stamps@[j],
                            )
                    },
                    EventAction::Unknown => {
                        &&& bytes::u32_in(event@, 0) != 1 && !opening
                        &&& forall|j: int|
                            0 <= j < old(self).flights@.len() ==> !names(
                                event@,
                                #[trigger] old(self).flights@[j],
                                stamps@[j],
                            )
                    },
                }
            }),
    {
        let kind: u32 = get32(event, 0);
        if kind == 1 {
            return EventAction::Skip;
        }
        if kind == 13 && self.opening_notification_pending && get32(event, 4) == 1 && get32(event, 8)
            == 0 && get64(event, 12) == CONTROL_DATA && get64(event, 20) == OPERAND_TABLE && get64(
            event,
            28,
        ) == OPERAND_TABLE && get32(event, 36) == 160 {
            self.opening_notification_pending = false;
            return EventAction::Skip;
        }
        let mut i: usize = 0;
        while i < self.flights.len()
            invariant
                event@.len() == 0x48,
                *self == *old(self),
                stamps@.len() == self.flights@.len(),
                i <= self.flights@.len(),
                forall|j: int|
                    0 <= j < i ==> !names(event@, #[trigger] self.flights@[j], stamps@[j]),
                bytes::u32_in(event@, 0) != 1,
                !(self.opening_notification_pending && is_opening(event@)),
            decreases self.flights@.len() - i,
        {
            if matches_flight(event, &self.flights[i], stamps[i]) {
                return EventAction::Render(i);
            }
            i += 1;
        }
        EventAction::Unknown
    }
}

/// What becomes of an event of a render, given the cursors and the end of the ring for replies.
pub open spec fn render_action_of(
    event: Seq<u8>,
    a: Addresses,
    pool: Tvb,
    limited: bool,
    head: u32,
    ack: u32,
    tail: u32,
) -> Result<RenderAction, Error> {
    let kind = bytes::u32_in(event, 0);
    let successor = (tail + 1) % 256;
    if kind == 1 {
        Ok(RenderAction::Skip)
    } else if kind != 6 && kind != 7 {
        Err(Error::EIO)
    } else if head >= 256 || ack >= 256 || tail >= 256 {
        Err(Error::EIO)
    } else if successor == head || successor == ack {
        Ok(RenderAction::Wait)
    } else if kind == 6 {
        if bytes::u32_in(event, 4) == low32(a.context_id) && bytes::u32_in(event, 8) == low32(
            pool.addresses.buffer_manager_slot,
        ) && bytes::u32_in(event, 12) == pool.counter && bytes::u32_in(event, 16) < 64 {
            Ok(
                RenderAction::Grow {
                    subpipe: bytes::u32_in(event, 16) as u32,
                    halt_count: bytes::u64_in(event, 20) as u64,
                },
            )
        } else {
            Err(Error::EIO)
        }
    } else if pool.refused && !limited && bytes::u32_in(event, 4) == 0 && bytes::u32_in(event, 8) == 1
        && bytes::u32_in(event, 12) == low32(a.fragment_event) && bytes::u32_in(event, 16) == low32(
        a.fragment_stamp,
    ) {
        Ok(RenderAction::Limit)
    } else {
        Err(Error::EIO)
    }
}

/// What becomes of an event of a render. A render is ended for want of memory only after its buffer was
/// refused growth, and only once.
pub fn render_action(
    event: &[u8],
    a: &Addresses,
    pool: &Tvb,
    limited: bool,
    head: u32,
    ack: u32,
    tail: u32,
) -> (out: Result<RenderAction, Error>)
    requires
        event@.len() == 0x48,
    ensures
        out == render_action_of(event@, *a, *pool, limited, head, ack, tail),
{
    let kind: u32 = get32(event, 0);
    if kind == 1 {
        return Ok(RenderAction::Skip);
    }
    if kind != 6 && kind != 7 {
        return Err(Error::EIO);
    }
    if head >= 256 || ack >= 256 || tail >= 256 {
        return Err(Error::EIO);
    }
    let successor: u32 = (tail + 1) % 256;
    if successor == head || successor == ack {
        return Ok(RenderAction::Wait);
    }
    if kind == 6 {
        let subpipe: u32 = get32(event, 16);
        let halt_count: u64 = get64(event, 20);
        if get32(event, 4) != low32(a.context_id) || get32(event, 8) != low32(
            pool.addresses.buffer_manager_slot,
        ) || get32(event, 12) != pool.counter || subpipe >= 64 {
            return Err(Error::EIO);
        }
        return Ok(RenderAction::Grow { subpipe, halt_count });
    }
    if !pool.refused || limited || get32(event, 4) != 0 || get32(event, 8) != 1 || get32(event, 12)
        != low32(a.fragment_event) || get32(event, 16) != low32(a.fragment_stamp) {
        return Err(Error::EIO);
    }
    Ok(RenderAction::Limit)
}

/// The fields of a reply to a request for growth.
pub open spec fn growth_fields(
    pool: Tvb,
    context: u64,
    grown: bool,
    subpipe: u32,
    halt_count: u64,
) -> Seq<Field> {
    seq![
        w32(0, 8),
        w32(
            4,
            if grown {
                1
            } else {
                0
            },
        ),
        w32(8, low32(pool.addresses.buffer_manager_slot)),
        w32(12, low32(context)),
        w32(16, pool.counter),
        w32(20, subpipe),
        w64(24, halt_count),
    ]
}

/// The fields of a reply that ends a render.
pub open spec fn limit_fields(a: Addresses) -> Seq<Field> {
    seq![w32(0, 9), w32(4, 1), w64(8, a.fragment_queue), w32(16, low32(a.fragment_stamp))]
}

impl Tvb {
    /// The reply to a request for growth. A refusal is remembered, and requests are counted.
    pub fn growth_reply(&mut self, context: u64, grown: bool, subpipe: u32, halt_count: u64) -> (out: Result<
        [u8; 64],
        Error,
    >)
        ensures
            final(self).refused == (old(self).refused || !grown),
            match out {
                Ok(reply) => {
                    &&& reply@ == bytes::image(
                        64,
                        growth_fields(*old(self), context, grown, subpipe, halt_count),
                    )
                    &&& final(self).counter == old(self).counter + 1
                },
                Err(e) => e == Error::EIO && old(self).counter == u32::MAX && final(self).counter
                    == old(self).counter,
            },
            *final(self) == (Tvb {
                refused: final(self).refused,
                counter: final(self).counter,
                ..*old(self)
            }),
    {
        let fields = [
            w32(0, 8),
            w32(
                4,
                if grown {
                    1
                } else {
                    0
                },
            ),
            w32(8, low32(self.addresses.buffer_manager_slot)),
            w32(12, low32(context)),
            w32(16, self.counter),
            w32(20, subpipe),
            w64(24, halt_count),
        ];
        assert(fields@ =~= growth_fields(*self, context, grown, subpipe, halt_count));
        let reply: [u8; 64] = encode::<64>(&fields);
        self.refused = self.refused || !grown;
        match self.counter.checked_add(1) {
            None => Err(Error::EIO),
            Some(counter) => {
                self.counter = counter;
                Ok(reply)
            },
        }
    }
}

/// The reply that ends a render.
pub fn limit_reply(a: &Addresses) -> (out: [u8; 64])
    ensures
        out@ == bytes::image(64, limit_fields(*a)),
{
    let fields = [
        w32(0, 9),
        w32(4, 1),
        w64(8, a.fragment_queue),
        w32(16, low32(a.fragment_stamp)),
    ];
    assert(fields@ =~= limit_fields(*a));
    encode::<64>(&fields)
}

/// The cursors of the rings that the firmware fills for tracing, and the sizes of these rings.
pub fn trace_rings() -> (out: [(u64, u32); 8])
    ensures
        out@ == seq![
            (0xffff_fc20_0003_f3c0u64, 512u32),
            (0xffff_fc20_0003_f400, 256),
            (0xffff_fc20_0003_f200, 256),
            (0xffff_fc20_0003_f230, 256),
            (0xffff_fc20_0003_f260, 256),
            (0xffff_fc20_0003_f290, 256),
            (0xffff_fc20_0003_f2c0, 256),
            (0xffff_fc20_0003_f2f0, 256),
        ],
{
    let out: [(u64, u32); 8] = [
        (0xffff_fc20_0003_f3c0, 512),
        (0xffff_fc20_0003_f400, 256),
        (0xffff_fc20_0003_f200, 256),
        (0xffff_fc20_0003_f230, 256),
        (0xffff_fc20_0003_f260, 256),
        (0xffff_fc20_0003_f290, 256),
        (0xffff_fc20_0003_f2c0, 256),
        (0xffff_fc20_0003_f2f0, 256),
    ];
    assert(out@ =~= seq![
        (0xffff_fc20_0003_f3c0u64, 512u32),
        (0xffff_fc20_0003_f400, 256),
        (0xffff_fc20_0003_f200, 256),
        (0xffff_fc20_0003_f230, 256),
        (0xffff_fc20_0003_f260, 256),
        (0xffff_fc20_0003_f290, 256),
        (0xffff_fc20_0003_f2c0, 256),
        (0xffff_fc20_0003_f2f0, 256),
    ]);
    out
}

/// The value to which the driver's cursor of a trace ring is set, where the ring is not empty.
pub fn drain_trace_rx(read: u32, write: u32, capacity: u32) -> (out: Result<Option<u32>, Error>)
    ensures
        out == if read >= capacity || write >= capacity {
            Err::<Option<u32>, Error>(Error::EIO)
        } else if read == write {
            Ok(None)
        } else {
            Ok(Some(write))
        },
{
    if read >= capacity || write >= capacity {
        return Err(Error::EIO);
    }
    if read == write {
        return Ok(None);
    }
    Ok(Some(write))
}

/// A request of a render is answered by the render that it names: two renders that an event for the end
/// of a render can belong to have the same event and stamp.
pub proof fn lemma_end_is_unambiguous(event: Seq<u8>, a: Flight, b: Flight, x: u32, y: u32)
    requires
        bytes::u32_in(event, 0) == 7,
        names(event, a, x),
        names(event, b, y),
    ensures
        low32(a.render->0.addresses.fragment_event) == low32(b.render->0.addresses.fragment_event),
        low32(a.render->0.addresses.fragment_stamp) == low32(b.render->0.addresses.fragment_stamp),
{
}

} // verus!
