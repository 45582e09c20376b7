//! Storage of work items.
//!
//! A work item is leased until its stamps and its transport have retired. The storage stays mapped;
//! it is handed out again once it was given back.
use crate::error::Error;
use crate::lanes::WORK_BASE;
use crate::prot::{prot_fw_priv_rw, prot_fw_shared_rw};
use crate::tvb::Region;
use vstd::prelude::*;

verus! {

/// Work items that are claimed at a time.
pub const BATCH: u64 = 16;

/// Work items of one size: those given back, and the rest of the last claim.
pub struct WorkArena {
    pub free: Vec<u64>,
    pub start: u64,
    pub end: u64,
}

/// The storage of all work items.
pub struct Works {
    /// The next address that was never claimed.
    pub next: u64,
    pub compute: WorkArena,
    pub render: WorkArena,
}

/// The size of a work item.
#[verifier::allow_in_spec]
pub fn stride(render: bool) -> u64
    returns
        (if render {
            0x1c000u64
        } else {
            0x8000u64
        }),
{
    if render {
        0x1c000
    } else {
        0x8000
    }
}

/// Whether two work items of a size do not overlap.
pub open spec fn apart(a: u64, b: u64, size: int) -> bool {
    a + size <= b || b + size <= a
}

impl WorkArena {
    /// The work items that are leased or free.
    pub open spec fn items(self, leased: Seq<u64>) -> Seq<u64> {
        leased + self.free@
    }

    /// Leased and free work items and the rest of the claim do not overlap, and lie below the next
    /// claim.
    pub open spec fn wf(self, leased: Seq<u64>, size: int, next: u64) -> bool {
        let items = self.items(leased);
        &&& self.start <= self.end <= next
        &&& (self.end - self.start) % size == 0
        &&& forall|i: int, j: int|
            0 <= i < j < items.len() ==> #[trigger] apart(items[i], items[j], size)
        &&& forall|i: int|
            0 <= i < items.len() ==> WORK_BASE <= (#[trigger] items[i]) && items[i] + size <= next && (
            items[i] + size <= self.start || self.end <= items[i])
        &&& self.start < self.end ==> WORK_BASE <= self.start
    }

    /// An arena without work items.
    pub fn new() -> (out: Self)
        ensures
            out.free@.len() == 0,
            out.start == 0,
            out.end == 0,
    {
        WorkArena { free: Vec::new(), start: 0, end: 0 }
    }

    /// What is needed to lease work items: the rest of the claim is a number of whole items.
    pub open spec fn whole(self, size: int) -> bool {
        self.start <= self.end && (self.end - self.start) % size == 0
    }

    /// Whether a work item was leased: the one given back last, else the first of the claim.
    pub open spec fn leased_one(self, after: WorkArena, va: u64, size: int) -> bool {
        if self.free@.len() > 0 {
            &&& va == self.free@.last()
            &&& after.free@ == self.free@.drop_last()
            &&& after.start == self.start
            &&& after.end == self.end
        } else {
            &&& va == self.start
            &&& self.start + size <= self.end
            &&& after.free@ == self.free@
            &&& after.start == va + size
            &&& after.end == self.end
        }
    }

    /// Whether no work item is left.
    pub open spec fn used_up(self) -> bool {
        self.free@.len() == 0 && self.start == self.end
    }

    /// Leases a work item, where there is one.
    fn take(&mut self, size: u64) -> (out: Option<u64>)
        requires
            old(self).whole(size as int),
            size > 0,
        ensures
            final(self).whole(size as int),
            match out {
                Some(va) => old(self).leased_one(*final(self), va, size as int),
                None => old(self).used_up() && final(self).used_up() && final(self).start == old(self).start,
            },
    {
        let ghost before = *self;
        if let Some(va) = self.free.pop() {
            return Some(va);
        }
        if self.start == self.end {
            return None;
        }
        let va: u64 = self.start;
        assert(self.end - self.start >= size) by (nonlinear_arith)
            requires
                self.start < self.end,
                (self.end - self.start) % size as int == 0,
                size > 0,
        ;
        self.start = va + size;
        proof {
            vstd::arithmetic::div_mod::lemma_mod_sub_multiples_vanish(
                before.end - before.start,
                size as int,
            );
            assert(self.end - self.start == -(size as int) + (before.end - before.start));
        }
        Some(va)
    }

    /// A lease is apart from all others.
    pub proof fn lemma_lease(self, after: WorkArena, leased: Seq<u64>, va: u64, size: int, next: u64)
        requires
            self.wf(leased, size, next),
            self.leased_one(after, va, size),
            size > 0,
        ensures
            after.wf(leased.push(va), size, next),
            WORK_BASE <= va,
            va + size <= next,
    {
        let items = self.items(leased);
        let now = after.items(leased.push(va));
        if self.free@.len() > 0 {
            assert(items.last() == va);
            assert forall|i: int, j: int| 0 <= i < j < now.len() implies #[trigger] apart(
                now[i],
                now[j],
                size,
            ) by {
                let a = moved(leased.len() as int, items.len() as int, i);
                let b = moved(leased.len() as int, items.len() as int, j);
                assert(now[i] == items[a] && now[j] == items[b]);
                if a < b {
                    assert(apart(items[a], items[b], size));
                } else {
                    assert(apart(items[b], items[a], size));
                }
            }
            assert forall|i: int| 0 <= i < now.len() implies WORK_BASE <= (#[trigger] now[i])
                && now[i] + size <= next && (now[i] + size <= after.start || after.end
                <= now[i]) by {
                let a = moved(leased.len() as int, items.len() as int, i);
                assert(now[i] == items[a]);
            }
            assert(now[leased.len() as int] == va);
        } else {
            assert(now =~= items.push(va));
            vstd::arithmetic::div_mod::lemma_mod_sub_multiples_vanish(self.end - self.start, size);
            assert(after.end - after.start == -size + (self.end - self.start));
            assert forall|i: int, j: int| 0 <= i < j < now.len() implies #[trigger] apart(
                now[i],
                now[j],
                size,
            ) by {
                assert(now[i] == items[i]);
                if j < items.len() {
                    assert(now[j] == items[j]);
                    assert(apart(items[i], items[j], size));
                }
            }
            assert forall|i: int| 0 <= i < now.len() implies WORK_BASE <= (#[trigger] now[i])
                && now[i] + size <= next && (now[i] + size <= after.start || after.end
                <= now[i]) by {
                if i < items.len() {
                    assert(now[i] == items[i]);
                }
            }
        }
    }
}

/// Where an item was before the last of them was moved to place `at`.
spec fn moved(at: int, len: int, i: int) -> int {
    if i < at {
        i
    } else if i == at {
        len - 1
    } else {
        i - 1
    }
}

/// The ranges that back one work item.
pub open spec fn work_regions(va: int, render: bool) -> Seq<Region> {
    if render {
        seq![
            (Region { address: va as u64, size: 0x10000, prot: prot_fw_priv_rw() }),
            (Region { address: (va + 0x10000) as u64, size: 0xc000, prot: prot_fw_shared_rw() }),
        ]
    } else {
        seq![
            (Region { address: va as u64, size: 0x4000, prot: prot_fw_priv_rw() }),
            (Region { address: (va + 0x4000) as u64, size: 0x4000, prot: prot_fw_shared_rw() }),
        ]
    }
}

/// The ranges that back the first work items of a claim.
pub open spec fn claim_regions(base: int, render: bool, n: int) -> Seq<Region>
    decreases n,
{
    if n <= 0 {
        seq![]
    } else {
        claim_regions(base, render, n - 1) + work_regions(base + (n - 1) * stride(render), render)
    }
}

impl Works {
    /// The arena of a kind of work.
    pub open spec fn arena(self, render: bool) -> WorkArena {
        if render {
            self.render
        } else {
            self.compute
        }
    }

    /// No two leases overlap.
    pub open spec fn wf(self, compute: Seq<u64>, render: Seq<u64>) -> bool {
        &&& WORK_BASE <= self.next
        &&& self.compute.wf(compute, 0x8000, self.next)
        &&& self.render.wf(render, 0x1c000, self.next)
    }

    /// Nothing is claimed.
    pub fn new() -> (out: Self)
        ensures
            out.whole(),
            out.wf(Seq::empty(), Seq::empty()),
            out.next == WORK_BASE,
    {
        Works { next: WORK_BASE, compute: WorkArena::new(), render: WorkArena::new() }
    }

    /// What is needed to lease work items.
    pub open spec fn whole(self) -> bool {
        self.compute.whole(0x8000) && self.render.whole(0x1c000)
    }

    /// Leases a work item. Without one, a claim has to be made first.
    pub fn take(&mut self, render: bool) -> (out: Option<u64>)
        requires
            old(self).whole(),
        ensures
            final(self).whole(),
            final(self).next == old(self).next,
            final(self).arena(!render) == old(self).arena(!render),
            match out {
                Some(va) => old(self).arena(render).leased_one(
                    final(self).arena(render),
                    va,
                    stride(render) as int,
                ),
                None => old(self).arena(render).used_up() && final(self).arena(render).used_up()
                    && final(self).arena(render).start == old(self).arena(render).start,
            },
    {
        if render {
            self.render.take(0x1c000)
        } else {
            self.compute.take(0x8000)
        }
    }

    /// Claims addresses for a batch of work items. A claim whose storage cannot be had is lost: no part
    /// of it is handed out later.
    pub fn claim(&mut self, render: bool) -> (out: Result<u64, Error>)
        ensures
            final(self).compute == old(self).compute,
            final(self).render == old(self).render,
            match out {
                Ok(base) => base == old(self).next && final(self).next == base + BATCH * stride(render),
                Err(e) => e == Error::ENOSPC && *final(self) == *old(self) && old(self).next + BATCH
                    * stride(render) > u64::MAX,
            },
    {
        let base: u64 = self.next;
        match base.checked_add(BATCH * stride(render)) {
            None => Err(Error::ENOSPC),
            Some(end) => {
                self.next = end;
                Ok(base)
            },
        }
    }

    /// The ranges that back a claim.
    pub fn regions(base: u64, render: bool) -> (out: Vec<Region>)
        requires
            base + BATCH * stride(render) <= u64::MAX,
        ensures
            out@ == claim_regions(base as int, render, 16),
    {
        let mut out: Vec<Region> = Vec::new();
        let mut k: u64 = 0;
        while k < BATCH
            invariant
                k <= BATCH,
                base + BATCH * stride(render) <= u64::MAX,
                out@ == claim_regions(base as int, render, k as int),
            decreases BATCH - k,
        {
            let ghost before = out@;
            let va: u64 = base + k * stride(render);
            if render {
                out.push(Region { address: va, size: 0x10000, prot: prot_fw_priv_rw() });
                out.push(Region { address: va + 0x10000, size: 0xc000, prot: prot_fw_shared_rw() });
            } else {
                out.push(Region { address: va, size: 0x4000, prot: prot_fw_priv_rw() });
                out.push(Region { address: va + 0x4000, size: 0x4000, prot: prot_fw_shared_rw() });
            }
            k += 1;
            assert(out@ =~= before + work_regions(base + (k - 1) * stride(render), render));
        }
        out
    }

    /// Makes a claim available, once its storage is mapped.
    pub fn refill(&mut self, render: bool, base: u64)
        requires
            old(self).whole(),
            base + BATCH * stride(render) <= u64::MAX,
        ensures
            final(self).whole(),
            final(self).next == old(self).next,
            final(self).arena(!render) == old(self).arena(!render),
            final(self).arena(render).free@ == old(self).arena(render).free@,
            final(self).arena(render).start == base,
            final(self).arena(render).end == base + BATCH * stride(render),
    {
        let end: u64 = base + BATCH * stride(render);
        if render {
            self.render.start = base;
            self.render.end = end;
        } else {
            self.compute.start = base;
            self.compute.end = end;
        }
    }

    /// Gives a work item back that has retired.
    pub fn give_back(&mut self, render: bool, va: u64)
        ensures
            final(self).next == old(self).next,
            final(self).arena(!render) == old(self).arena(!render),
            final(self).arena(render).start == old(self).arena(render).start,
            final(self).arena(render).end == old(self).arena(render).end,
            final(self).arena(render).free@ == old(self).arena(render).free@.push(va),
    {
        if render {
            self.render.free.push(va);
        } else {
            self.compute.free.push(va);
        }
    }
}

/// A new claim is apart from all leased and free work items of an arena, and does not disturb them.
pub proof fn lemma_refill(
    before: WorkArena,
    after: WorkArena,
    leased: Seq<u64>,
    size: int,
    next: u64,
    later: u64,
)
    requires
        before.wf(leased, size, next),
        WORK_BASE <= next <= later,
        size > 0,
        (later - next) % size == 0,
        after.free@ == before.free@,
        after.start == next,
        after.end == later,
    ensures
        after.wf(leased, size, later),
{
    let items = before.items(leased);
    assert(after.items(leased) == items);
    assert forall|i: int| 0 <= i < items.len() implies WORK_BASE <= (#[trigger] items[i]) && items[i]
        + size <= later && (items[i] + size <= after.start || after.end <= items[i]) by {}
}

/// A claim for the other kind of work does not disturb an arena.
pub proof fn lemma_later_claim(arena: WorkArena, leased: Seq<u64>, size: int, next: u64, later: u64)
    requires
        arena.wf(leased, size, next),
        next <= later,
    ensures
        arena.wf(leased, size, later),
{
    let items = arena.items(leased);
    assert forall|i: int| 0 <= i < items.len() implies WORK_BASE <= (#[trigger] items[i]) && items[i]
        + size <= later && (items[i] + size <= arena.start || arena.end <= items[i]) by {}
}

/// Giving back a leased work item keeps leases apart.
pub proof fn lemma_give_back(
    before: WorkArena,
    after: WorkArena,
    leased: Seq<u64>,
    i: int,
    size: int,
    next: u64,
)
    requires
        before.wf(leased, size, next),
        0 <= i < leased.len(),
        after.start == before.start,
        after.end == before.end,
        after.free@ == before.free@.push(leased[i]),
    ensures
        after.wf(leased.remove(i), size, next),
{
    let old_items = before.items(leased);
    let items = after.items(leased.remove(i));
    let last = items.len() - 1;
    assert forall|a: int| 0 <= a < items.len() implies #[trigger] items[a] == old_items[if a == last {
        i
    } else if a < i {
        a
    } else {
        a + 1
    }] by {}
    assert forall|a: int, b: int| 0 <= a < b < items.len() implies #[trigger] apart(
        items[a],
        items[b],
        size,
    ) by {
        let x = if a < i {
            a
        } else {
            a + 1
        };
        let y = if b == last {
            i
        } else if b < i {
            b
        } else {
            b + 1
        };
        assert(items[a] == old_items[x] && items[b] == old_items[y]);
        if x < y {
            assert(apart(old_items[x], old_items[y], size));
        } else {
            assert(apart(old_items[y], old_items[x], size));
        }
    }
    assert forall|a: int| 0 <= a < items.len() implies WORK_BASE <= (#[trigger] items[a])
        && items[a] + size <= next && (items[a] + size <= after.start || after.end
        <= items[a]) by {
        let x = if a == last {
            i
        } else if a < i {
            a
        } else {
            a + 1
        };
        assert(items[a] == old_items[x]);
    }
}

} // verus!
