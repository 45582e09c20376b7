//! Whether there is room for one more command, and where that can be read.
use crate::flights::{Cursors, Refusal, Session, CHANNELS};
use crate::fw;
use crate::fw::{Channel, MainConfig, BUNDLE_ADDRESS};
use crate::lanes::{FirmwareQueues, Stamp};
use vstd::prelude::*;

verus! {

/// How many of two dependencies there are.
pub open spec fn waits(dependencies: Seq<Option<Stamp>>) -> int {
    (if dependencies[0] is Some {
        1int
    } else {
        0
    }) + (if dependencies[1] is Some {
        1int
    } else {
        0
    })
}

/// How many of two dependencies there are.
fn count_waits(dependencies: &[Option<Stamp>; 2]) -> (out: u32)
    ensures
        out == waits(dependencies@),
        out <= 2,
{
    let first: u32 = if dependencies[0].is_some() {
        1
    } else {
        0
    };
    let second: u32 = if dependencies[1].is_some() {
        1
    } else {
        0
    };
    first + second
}

/// The registers of a channel: the two cursors of the firmware, then the end that the host sets.
pub open spec fn registers_of(channel: int) -> Seq<u64> {
    seq![
        (0xd6_4000 + fw::state_offsets()[channel].0) as u64,
        (0xd6_4008 + fw::state_offsets()[channel].0) as u64,
        crate::flush::tail_register(channel),
    ]
}

/// The registers of a channel: the two cursors of the firmware, then the end that the host sets.
pub fn channel_registers(channel: usize) -> (out: [u64; 3])
    requires
        channel < CHANNELS,
    ensures
        out@ == registers_of(channel as int),
{
    let config = MainConfig::bootstrap(BUNDLE_ADDRESS);
    let entry: Channel = config.channels[channel];
    proof {
        assert(entry.state@ == fw::bootstrap_channel(BUNDLE_ADDRESS, channel as int).0);
        assert(fw::state_offsets()[channel as int].0 <= 0xb0);
        assert(fw::state_offsets()[channel as int].1 <= 0x58);
    }
    let out: [u64; 3] = [
        0xd6_4000 + (entry.state[0] - 0xffff_fc20_0002_8000),
        0xd6_4000 + (entry.state[1] - 0xffff_fc20_0002_8000),
        0xd6_0000 + (entry.state[2] - 0xffff_fc20_0002_0000),
    ];
    assert(out@ =~= registers_of(channel as int));
    out
}

impl Session {
    /// Whether the buffer of a root has been set up by a render.
    pub open spec fn buffer_ready(&self, root: u64) -> bool {
        exists|i: int|
            0 <= i < self.tvb_pools@.len() && (#[trigger] self.tvb_pools@[i]).root == root
                && self.tvb_pools@[i].initialized
    }

    /// The ring entries of a render: its tiling with what it waits for, and with the setup of its
    /// buffer before the first one; then two for its fragments.
    pub open spec fn render_entries(&self, root: u64, dependencies: Seq<Option<Stamp>>) -> Seq<u32> {
        seq![
            (1 + waits(dependencies) + if self.buffer_ready(root) {
                0int
            } else {
                1
            }) as u32,
            2,
            0,
        ]
    }

    /// The ring entries of a compute: itself, with what it waits for.
    pub open spec fn compute_entries(dependencies: Seq<Option<Stamp>>) -> Seq<u32> {
        seq![0, 0, (1 + waits(dependencies)) as u32]
    }

    fn find_ready(&self, root: u64) -> (out: bool)
        ensures
            out == self.buffer_ready(root),
    {
        let mut i: usize = 0;
        while i < self.tvb_pools.len()
            invariant
                i <= self.tvb_pools@.len(),
                forall|j: int|
                    0 <= j < i ==> !((#[trigger] self.tvb_pools@[j]).root == root
                        && self.tvb_pools@[j].initialized),
            decreases self.tvb_pools@.len() - i,
        {
            if self.tvb_pools[i].root == root && self.tvb_pools[i].initialized {
                return true;
            }
            i += 1;
        }
        false
    }

    /// Checks that a render on a queue finds a context, and room in its two channels and rings.
    pub fn admit_render(
        &self,
        queue: &FirmwareQueues,
        root: u64,
        dependencies: &[Option<Stamp>; 2],
        seen: &[Cursors; 3],
    ) -> (out: Result<(), Refusal>)
        requires
            self.staged_wf(),
            self.contexts.wf(),
            queue.priority <= 3,
        ensures
            ({
                let entries = self.render_entries(root, dependencies@);
                match out {
                    Ok(_) => self.refusal(*queue, true, root, entries, seen@) is None,
                    Err(e) => self.refusal(*queue, true, root, entries, seen@) == Some(e),
                }
            }),
    {
        let setup: u32 = if self.find_ready(root) {
            0
        } else {
            1
        };
        let entries: [u32; 3] = [1 + count_waits(dependencies) + setup, 2, 0];
        assert(entries@ =~= self.render_entries(root, dependencies@));
        self.reserve_flight(queue, true, root, &entries, seen)
    }

    /// Checks that a compute on a queue finds a context, and room in its channel and ring.
    pub fn admit_compute(
        &self,
        queue: &FirmwareQueues,
        root: u64,
        dependencies: &[Option<Stamp>; 2],
        seen: &[Cursors; 3],
    ) -> (out: Result<(), Refusal>)
        requires
            self.staged_wf(),
            self.contexts.wf(),
            queue.priority <= 3,
        ensures
            ({
                let entries = Self::compute_entries(dependencies@);
                match out {
                    Ok(_) => self.refusal(*queue, false, root, entries, seen@) is None,
                    Err(e) => self.refusal(*queue, false, root, entries, seen@) == Some(e),
                }
            }),
    {
        let entries: [u32; 3] = [0, 0, 1 + count_waits(dependencies)];
        assert(entries@ =~= Self::compute_entries(dependencies@));
        self.reserve_flight(queue, false, root, &entries, seen)
    }
}

} // verus!
