//! The life of a session: how it starts, and what clients are given and give back.
use crate::bytes;
use crate::contexts;
use crate::contexts::Contexts;
use crate::error::Error;
use crate::flights::Session;
use crate::lanes::{lanes_at, FirmwareQueues, Lane, LANES_SIZE, WORK_BASE};
use crate::lanes;
use crate::plan;
use crate::plan::{push_write, Write};
use crate::timestamps::Timestamps;
use crate::tvb::{Tvb, PARAMETER_BUFFERS};
use crate::works;
use crate::works::Works;
use vstd::prelude::*;

verus! {

/// Size of the addresses that the buffer of a client takes.
pub const POOL_SIZE: u64 = 0x44000;

impl Works {
    /// Claims addresses that are not for work items.
    pub fn reserve(&mut self, size: u64) -> (out: Result<u64, Error>)
        ensures
            final(self).compute == old(self).compute,
            final(self).render == old(self).render,
            match out {
                Ok(base) => base == old(self).next && final(self).next == base + size,
                Err(e) => e == Error::ENOSPC && *final(self) == *old(self) && old(self).next + size
                    > u64::MAX,
            },
    {
        let base: u64 = self.next;
        match base.checked_add(size) {
            None => Err(Error::ENOSPC),
            Some(end) => {
                self.next = end;
                Ok(base)
            },
        }
    }
}

/// Addresses that are claimed are apart from all work items, and do not disturb them.
pub proof fn lemma_reserve(before: Works, after: Works, compute: Seq<u64>, render: Seq<u64>, size: int)
    requires
        before.wf(compute, render),
        after.compute == before.compute,
        after.render == before.render,
        after.next == before.next + size,
        0 <= size,
    ensures
        after.wf(compute, render),
        forall|i: int|
            0 <= i < compute.len() ==> #[trigger] compute[i] + 0x8000 <= before.next,
        forall|i: int|
            0 <= i < render.len() ==> #[trigger] render[i] + 0x1c000 <= before.next,
{
    works::lemma_later_claim(before.compute, compute, 0x8000, before.next, after.next);
    works::lemma_later_claim(before.render, render, 0x1c000, before.next, after.next);
    assert forall|i: int| 0 <= i < compute.len() implies #[trigger] compute[i] + 0x8000 <= before.next by {
        assert(before.compute.items(compute)[i] == compute[i]);
    }
    assert forall|i: int| 0 <= i < render.len() implies #[trigger] render[i] + 0x1c000 <= before.next by {
        assert(before.render.items(render)[i] == render[i]);
    }
}

impl Session {
    /// A session in which nothing was published. The firmware still owes the opening notification.
    pub fn new() -> (out: Self)
        ensures
            !out.render_failed,
            out.works.wf(Seq::empty(), Seq::empty()),
            out.works.whole(),
            out.works.next == WORK_BASE,
            out.contexts.wf(),
            forall|i: int| 0 <= i < contexts::CONTEXTS ==> #[trigger] out.contexts.users@[i] == 0,
            out.timestamps.wf(),
            out.timestamps.ranges@.len() == 0,
            out.tvb_pools@.len() == 0,
            out.flights@.len() == 0,
            out.publications@.len() == 0,
            out.staged_wf(),
            out.queue_events == 0,
            out.render_support == 0,
            out.render_publication == 0,
            out.compute_publication == 0,
            out.batch_works == 0,
            out.opening_notification_pending,
    {
        Session {
            render_failed: false,
            works: Works::new(),
            contexts: Contexts::new(),
            timestamps: Timestamps::new(),
            tvb_pools: Vec::new(),
            flights: Vec::new(),
            publications: Vec::new(),
            queue_events: 0,
            render_support: 0,
            render_publication: 0,
            compute_publication: 0,
            batch_works: 0,
            opening_notification_pending: true,
        }
    }

    /// Addresses for the work queues of a public queue that has none yet.
    pub fn claim_lanes(&mut self, queue: &FirmwareQueues) -> (out: Result<Option<[Lane; 3]>, Error>)
        ensures
            *final(self) == (Session { works: final(self).works, ..*old(self) }),
            match out {
                Ok(None) => queue.lanes is Some && *final(self) == *old(self),
                Ok(Some(claimed)) => {
                    &&& queue.lanes is None
                    &&& final(self).works == (Works {
                        next: (old(self).works.next + LANES_SIZE) as u64,
                        ..old(self).works
                    })
                    &&& old(self).works.next + LANES_SIZE <= u64::MAX
                    &&& forall|stage: int|
                        0 <= stage < 3 ==> #[trigger] claimed@[stage] == lanes::lane_at(
                            old(self).works.next as int,
                            stage,
                        )
                },
                Err(e) => e == Error::ENOSPC && queue.lanes is None && *final(self) == *old(self)
                    && old(self).works.next + LANES_SIZE > u64::MAX,
            },
    {
        if queue.lanes.is_some() {
            return Ok(None);
        }
        match self.works.reserve(LANES_SIZE) {
            Err(e) => Err(e),
            Ok(base) => Ok(Some(lanes_at(base))),
        }
    }

    /// Addresses for the buffer of a client that has none yet.
    pub fn claim_pool(&mut self, root: u64) -> (out: Result<Option<u64>, Error>)
        ensures
            *final(self) == (Session { works: final(self).works, ..*old(self) }),
            match out {
                Ok(None) => *final(self) == *old(self) && exists|i: int|
                    0 <= i < old(self).tvb_pools@.len() && (#[trigger] old(self).tvb_pools@[i]).root == root,
                Ok(Some(base)) => {
                    &&& forall|i: int|
                        0 <= i < old(self).tvb_pools@.len() ==> (#[trigger] old(self).tvb_pools@[i]).root
                            != root
                    &&& base == old(self).works.next
                    &&& base + POOL_SIZE <= u64::MAX
                    &&& final(self).works == (Works {
                        next: (base + POOL_SIZE) as u64,
                        ..old(self).works
                    })
                },
                Err(e) => {
                    &&& e == Error::ENOSPC
                    &&& *final(self) == *old(self)
                    &&& old(self).works.next + POOL_SIZE > u64::MAX
                    &&& forall|i: int|
                        0 <= i < old(self).tvb_pools@.len() ==> (#[trigger] old(self).tvb_pools@[i]).root
                            != root
                },
            },
    {
        match self.find_pool(root) {
            Some(i) => {
                assert(self.tvb_pools@[i as int].root == root);
                Ok(None)
            },
            None => match self.works.reserve(POOL_SIZE) {
                Err(e) => Err(e),
                Ok(base) => Ok(Some(base)),
            },
        }
    }

    /// Starts to take a client's root away: it is unbound from its context, unless that is in use.
    /// Answers the context that has to be invalidated.
    pub fn begin_release(&mut self, low: u64) -> (out: Result<Option<u32>, Error>)
        requires
            old(self).contexts.wf(),
        ensures
            final(self).contexts.wf(),
            *final(self) == (Session { contexts: final(self).contexts, ..*old(self) }),
            final(self).contexts.users@ == old(self).contexts.users@,
            match out {
                Ok(Some(slot)) => {
                    &&& !old(self).render_failed
                    &&& 1 <= slot < contexts::CONTEXTS
                    &&& old(self).contexts.bound(slot as int, low)
                    &&& old(self).contexts.users@[slot as int] == 0
                    &&& final(self).contexts.roots@ == old(self).contexts.roots@.update(slot as int, None)
                },
                Ok(None) => {
                    &&& !old(self).render_failed
                    &&& *final(self) == *old(self)
                    &&& forall|i: int|
                        1 <= i < contexts::CONTEXTS ==> !#[trigger] old(self).contexts.bound(i, low)
                },
                Err(e) => {
                    &&& *final(self) == *old(self)
                    &&& if old(self).render_failed {
                        e == Error::EIO
                    } else {
                        e == Error::EBUSY && exists|i: int|
                            1 <= i < contexts::CONTEXTS && #[trigger] old(self).contexts.bound(i, low)
                                && old(self).contexts.users@[i] != 0
                    }
                },
            },
    {
        if self.render_failed {
            return Err(Error::EIO);
        }
        self.contexts.detach(low)
    }

    /// What is to be done about the buffer of a client that goes away: its place, the write that clears
    /// its descriptor, and the region that is given back.
    pub fn pool_release(&self, root: u64) -> (out: Option<(usize, Vec<Write>, u64)>)
        requires
            forall|i: int|
                0 <= i < self.tvb_pools@.len() ==> PARAMETER_BUFFERS + (
                #[trigger] self.tvb_pools@[i]).addresses.buffer_manager_slot * 16 <= u64::MAX,
        ensures
            match out {
                Some((i, writes, region)) => {
                    let a = self.tvb_pools@[i as int].addresses;
                    &&& self.pool_at(root, i as int)
                    &&& plan::stored(writes@) == seq![
                        (
                            (PARAMETER_BUFFERS + a.buffer_manager_slot * 16) as u64,
                            bytes::zeros(16),
                            true,
                        ),
                    ]
                    &&& region == a.buffer_manager
                },
                None => forall|i: int|
                    0 <= i < self.tvb_pools@.len() ==> (#[trigger] self.tvb_pools@[i]).root != root,
            },
    {
        match self.find_pool(root) {
            None => None,
            Some(i) => {
                let pool: Tvb = self.tvb_pools[i];
                let empty: [u8; 16] = [0u8; 16];
                assert(empty@ =~= bytes::zeros(16));
                let mut writes: Vec<Write> = Vec::new();
                assert(PARAMETER_BUFFERS + self.tvb_pools@[i as int].addresses.buffer_manager_slot * 16
                    <= u64::MAX);
                push_write(
                    &mut writes,
                    PARAMETER_BUFFERS + pool.addresses.buffer_manager_slot * 16,
                    &empty,
                    true,
                );
                assert(plan::stored(writes@) =~= seq![
                    (
                        (PARAMETER_BUFFERS + pool.addresses.buffer_manager_slot * 16) as u64,
                        bytes::zeros(16),
                        true,
                    ),
                ]);
                Some((i, writes, pool.addresses.buffer_manager))
            },
        }
    }

    /// Forgets the buffer of a client, whose descriptor is cleared and whose region is given back.
    pub fn drop_pool(&mut self, index: usize)
        requires
            index < old(self).tvb_pools@.len(),
        ensures
            *final(self) == (Session { tvb_pools: final(self).tvb_pools, ..*old(self) }),
            final(self).tvb_pools@ == old(self).tvb_pools@.update(
                index as int,
                old(self).tvb_pools@.last(),
            ).drop_last(),
    {
        self.tvb_pools.swap_remove(index);
    }
}

} // verus!
