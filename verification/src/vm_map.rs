//! Binding and unbinding buffers in both views of a client.
//!
//! A client has two low roots, one for renders and one for computes, with different private ranges. Both
//! show the buffers that are bound.
use crate::client::Vm;
use crate::error::Error;
use crate::mapping;
use crate::mapping::{extents, meets, split, Extent, Mapping, Segment};
use crate::pgtable::UatPageTable;
use crate::prot::Prot;
use crate::space;
use crate::space::AddressSpace;
use crate::space_share;
use crate::tables;
use crate::tables::TableMemory;
use crate::walk;
use vstd::prelude::*;

verus! {

/// Whether two views share no table.
pub open spec fn separate(a: AddressSpace, b: AddressSpace, mem: TableMemory) -> bool {
    space_share::apart(a, b, mem) && space_share::apart(b, a, mem)
}

/// Whether a range can be bound: whole pages of the address space.
pub open spec fn range_ok(start: u64, end: u64) -> bool {
    &&& start % 0x4000 == 0
    &&& end % 0x4000 == 0
    &&& start < end <= 0x400_0000_0000
}

/// Whether the parts of a buffer have addresses.
pub open spec fn segments_ok(segments: Seq<Segment>) -> bool {
    forall|i: int|
        0 <= i < segments.len() ==> (#[trigger] segments[i]).address + segments[i].length
            <= u64::MAX
}

/// Changes below the low root of one view leave the other one as it was.
proof fn lemma_view_kept(a0: AddressSpace, m0: TableMemory, a: AddressSpace, m: TableMemory, b: AddressSpace)
    requires
        a0.wf(m0),
        b.wf(m0),
        separate(a0, b, m0),
        a.low.same_root(a0.low),
        a.high == a0.high,
        a.wf(m),
        walk::framed(a0.low.tree(m0), a.low.tree(m)),
    ensures
        b.wf(m),
        separate(a, b, m),
        forall|q: int| tables::in_tree(q) ==> #[trigger] b.entry(m, q) == b.entry(m0, q),
{
    space_share::lemma_device_kept(a0, m0, a, m, b);
    space::lemma_other_kept(a0.low, m0, a.low, m, a0.high);
    space::lemma_other_kept(a0.low, m0, a.low, m, b.low);
    let low = b.low.tree(m);
    assert forall|x: u64| #[trigger] low.holds(x) implies !a.low.tree(m).holds(x) by {
        if a.low.tree(m).holds(x) {
            assert(!low.holds(x));
        }
    }
    assert forall|x: u64| #[trigger] low.holds(x) implies !a.high.tree(m).holds(x) by {
        space_share::lemma_same_held(low, b.low.tree(m0), x);
        if a.high.tree(m).holds(x) {
            space_share::lemma_same_held(a.high.tree(m), a0.high.tree(m0), x);
        }
    }
}

/// Whether an address space shares no table with either view.
pub open spec fn bystander(o: AddressSpace, a: AddressSpace, b: AddressSpace, mem: TableMemory) -> bool {
    &&& o.wf(mem)
    &&& separate(a, o, mem)
    &&& separate(b, o, mem)
}

/// Whether every address space that shares no table with the two views translates as it did, and still
/// shares none.
pub open spec fn bystanders_kept(
    a0: AddressSpace,
    b0: AddressSpace,
    m0: TableMemory,
    a: AddressSpace,
    b: AddressSpace,
    m: TableMemory,
) -> bool {
    forall|o: AddressSpace| #[trigger]
        bystander(o, a0, b0, m0) ==> bystander(o, a, b, m) && same_entries(o, m0, m)
}

/// Whether an address space translates as it did.
pub open spec fn same_entries(o: AddressSpace, m0: TableMemory, m: TableMemory) -> bool {
    forall|q: int| tables::in_tree(q) ==> #[trigger] o.entry(m, q) == o.entry(m0, q)
}

/// Two trees that a walk leaves alone stay apart.
proof fn lemma_stay_disjoint(
    a0: UatPageTable,
    m0: TableMemory,
    a: UatPageTable,
    m: TableMemory,
    b: UatPageTable,
    o: UatPageTable,
)
    requires
        a0.wf(m0),
        a.same_root(a0),
        walk::framed(a0.tree(m0), a.tree(m)),
        m.wf(),
        m.free_ok(a0.oas_mask),
        b.wf(m0),
        o.wf(m0),
        b.oas_mask == a0.oas_mask,
        o.oas_mask == a0.oas_mask,
        space::disjoint(a0.tree(m0), b.tree(m0)),
        space::disjoint(a0.tree(m0), o.tree(m0)),
        space::disjoint(b.tree(m0), o.tree(m0)),
    ensures
        space::disjoint(b.tree(m), o.tree(m)),
{
    space::lemma_other_kept(a0, m0, a, m, b);
    space::lemma_other_kept(a0, m0, a, m, o);
    assert forall|x: u64| #[trigger] b.tree(m).holds(x) implies !o.tree(m).holds(x) by {
        space_share::lemma_same_held(b.tree(m), b.tree(m0), x);
        if o.tree(m).holds(x) {
            space_share::lemma_same_held(o.tree(m), o.tree(m0), x);
        }
    }
}

/// A walk in one view leaves the bystanders of both as they were.
proof fn lemma_bystander_step(
    a0: AddressSpace,
    m0: TableMemory,
    a: AddressSpace,
    m: TableMemory,
    b: AddressSpace,
    o: AddressSpace,
)
    requires
        a0.wf(m0),
        b.wf(m0),
        separate(a0, b, m0),
        bystander(o, a0, b, m0),
        a.low.same_root(a0.low),
        a.high == a0.high,
        a.wf(m),
        walk::framed(a0.low.tree(m0), a.low.tree(m)),
    ensures
        bystander(o, a, b, m),
        same_entries(o, m0, m),
{
    lemma_view_kept(a0, m0, a, m, o);
    lemma_stay_disjoint(a0.low, m0, a.low, m, b.low, o.low);
    lemma_stay_disjoint(a0.low, m0, a.low, m, b.low, o.high);
    lemma_stay_disjoint(a0.low, m0, a.low, m, o.low, b.low);
    lemma_stay_disjoint(a0.low, m0, a.low, m, o.low, b.high);
}

/// A walk in the first of two views keeps their bystanders.
proof fn lemma_bystanders(
    a0: AddressSpace,
    m0: TableMemory,
    a: AddressSpace,
    m: TableMemory,
    b: AddressSpace,
)
    requires
        a0.wf(m0),
        b.wf(m0),
        separate(a0, b, m0),
        a.low.same_root(a0.low),
        a.high == a0.high,
        a.wf(m),
        walk::framed(a0.low.tree(m0), a.low.tree(m)),
    ensures
        bystanders_kept(a0, b, m0, a, b, m),
{
    assert forall|o: AddressSpace| #[trigger] bystander(o, a0, b, m0) implies bystander(o, a, b, m)
        && same_entries(o, m0, m) by {
        lemma_bystander_step(a0, m0, a, m, b, o);
    }
}

/// What two steps keep, both keep together.
proof fn lemma_bystanders_trans(
    a0: AddressSpace,
    b0: AddressSpace,
    m0: TableMemory,
    a1: AddressSpace,
    b1: AddressSpace,
    m1: TableMemory,
    a: AddressSpace,
    b: AddressSpace,
    m: TableMemory,
)
    requires
        bystanders_kept(a0, b0, m0, a1, b1, m1),
        bystanders_kept(a1, b1, m1, a, b, m),
    ensures
        bystanders_kept(a0, b0, m0, a, b, m),
{
    assert forall|o: AddressSpace| #[trigger] bystander(o, a0, b0, m0) implies bystander(o, a, b, m)
        && same_entries(o, m0, m) by {
        assert(bystander(o, a1, b1, m1));
        assert forall|q: int| tables::in_tree(q) implies #[trigger] o.entry(m, q) == o.entry(m0, q) by {
            assert(o.entry(m1, q) == o.entry(m0, q));
        }
    }
}

/// As before, where the second step names the views the other way round.
proof fn lemma_bystanders_turned(
    a0: AddressSpace,
    b0: AddressSpace,
    m0: TableMemory,
    a1: AddressSpace,
    b1: AddressSpace,
    m1: TableMemory,
    a: AddressSpace,
    b: AddressSpace,
    m: TableMemory,
)
    requires
        bystanders_kept(a0, b0, m0, a1, b1, m1),
        bystanders_kept(b1, a1, m1, b, a, m),
    ensures
        bystanders_kept(a0, b0, m0, a, b, m),
{
    assert(bystanders_kept(a1, b1, m1, a, b, m)) by {
        assert forall|o: AddressSpace| #[trigger] bystander(o, a1, b1, m1) implies bystander(o, a, b, m)
            && same_entries(o, m1, m) by {
            assert(bystander(o, b1, a1, m1));
            assert(bystander(o, b, a, m));
        }
    }
    lemma_bystanders_trans(a0, b0, m0, a1, b1, m1, a, b, m);
}

/// The extents of a mapping can be mapped, and lie in it.
proof fn lemma_extents_ok(segments: Seq<Segment>, i: int, offset: int, va: int, end: int, single: bool)
    requires
        segments_ok(segments),
        0 <= i,
        0 <= offset,
        0 <= va < end <= 0x400_0000_0000,
        end % 0x4000 == 0,
    ensures
        ({
            let all = mapping::extents_of(segments, i, offset, va, end, single)->0;
            mapping::extents_of(segments, i, offset, va, end, single) is Some ==> forall|k: int|
                0 <= k < all.len() ==> AddressSpace::extent_ok(#[trigger] all[k], single) && va <= all[k].start
                    && all[k].end <= end
        }),
    decreases segments.len() - i,
{
    if i < segments.len() {
        let length = segments[i].length;
        if offset >= length {
            lemma_extents_ok(segments, i + 1, offset - length, va, end, single);
        } else {
            let left = length - offset;
            let size = if left < end - va {
                left
            } else {
                end - va
            };
            let stop = if single {
                end
            } else {
                va + size
            };
            assert(segments[i].address + segments[i].length <= u64::MAX);
            if stop < end {
                lemma_extents_ok(segments, i + 1, 0, stop, end, single);
                let rest = mapping::extents_of(segments, i + 1, 0, stop, end, single);
                if let Some(all) = mapping::extents_of(segments, i, offset, va, end, single) {
                    assert(all =~= seq![all[0]] + rest->0);
                    assert forall|k: int| 0 <= k < all.len() implies AddressSpace::extent_ok(
                        #[trigger] all[k],
                        single,
                    ) && va <= all[k].start && all[k].end <= end by {
                        if k > 0 {
                            assert(all[k] == (rest->0)[k - 1]);
                        }
                    }
                }
            }
        }
    }
}

/// A page that belongs to an extent of a mapping belongs to its range.
proof fn lemma_extents_inside(all: Seq<Extent>, single: bool, start: int, end: int, q: int)
    requires
        forall|k: int|
            0 <= k < all.len() ==> AddressSpace::extent_ok(#[trigger] all[k], single) && start <= all[k].start
                && all[k].end <= end,
        AddressSpace::in_extents(all, q),
    ensures
        start / 0x4000 <= q < end / 0x4000,
{
    let k = choose|k: int| 0 <= k < all.len() && AddressSpace::in_extent(#[trigger] all[k], q);
    assert(AddressSpace::extent_ok(all[k], single));
}

impl Vm {
    /// Whether a view shows what it did, but for a range that shows nothing.
    pub open spec fn cleared(
        s0: AddressSpace,
        m0: TableMemory,
        s: AddressSpace,
        m: TableMemory,
        start: u64,
        end: u64,
    ) -> bool {
        forall|q: int|
            tables::in_tree(q) ==> #[trigger] s.entry(m, q) == if start as int / 0x4000 <= q < end as int
                / 0x4000 {
                0
            } else {
                s0.entry(m0, q)
            }
    }

    /// Whether a view shows the extents of a mapping, and else what it did.
    pub open spec fn shows(
        s0: AddressSpace,
        m0: TableMemory,
        s: AddressSpace,
        m: TableMemory,
        all: Seq<Extent>,
        access: Prot,
        single: bool,
    ) -> bool {
        forall|q: int|
            tables::in_tree(q) ==> #[trigger] s.entry(m, q) == AddressSpace::installed_entry(
                all,
                access,
                single,
                all.len() as int,
                q,
                s0.entry(m0, q),
            )
    }

    /// The extents of a mapping.
    pub open spec fn extents_for(new: Mapping, segments: Seq<Segment>) -> Option<Seq<Extent>> {
        mapping::extents_of(
            segments,
            0,
            new.offset as int,
            new.start as int,
            new.end as int,
            new.single,
        )
    }

    /// Binds a buffer in both views. Where this fails, the mappings are as they were; the range then
    /// shows nothing.
    pub fn map(
        &mut self,
        render: &mut AddressSpace,
        compute: &mut AddressSpace,
        mem: &mut TableMemory,
        new: Mapping,
        segments: &Vec<Segment>,
        access: Prot,
    ) -> (out: Result<(), Error>)
        requires
            old(render).wf(*old(mem)),
            old(compute).wf(*old(mem)),
            separate(*old(render), *old(compute), *old(mem)),
            range_ok(new.start, new.end),
            segments_ok(segments@),
        ensures
            final(render).wf(*final(mem)),
            final(compute).wf(*final(mem)),
            separate(*final(render), *final(compute), *final(mem)),
            bystanders_kept(
                *old(render),
                *old(compute),
                *old(mem),
                *final(render),
                *final(compute),
                *final(mem),
            ),
            final(render).same_roots(*old(render)),
            final(render).pages@ == old(render).pages@,
            final(compute).same_roots(*old(compute)),
            final(compute).pages@ == old(compute).pages@,
            *final(self) == (Vm { mappings: final(self).mappings, ..*old(self) }),
            ({
                let untouched = *final(render) == *old(render) && *final(compute) == *old(compute)
                    && *final(mem) == *old(mem);
                let all = Self::extents_for(new, segments@);
                if mapping::meets_any(old(self).mappings@, new.start as int, new.end as int) {
                    &&& out == Err::<(), Error>(Error::EEXIST)
                    &&& final(self).mappings@ == old(self).mappings@
                    &&& untouched
                } else if all is None {
                    &&& out == Err::<(), Error>(Error::EINVAL)
                    &&& final(self).mappings@ == old(self).mappings@
                    &&& untouched
                } else {
                    match out {
                        Ok(_) => {
                            &&& final(self).mappings@ == old(self).mappings@.push(new)
                            &&& final(mem).free@.len() + 4 * AddressSpace::pages_of(
                                all->0,
                                (all->0).len() as int,
                            ) >= old(mem).free@.len()
                            &&& Self::shows(
                                *old(render),
                                *old(mem),
                                *final(render),
                                *final(mem),
                                all->0,
                                access,
                                new.single,
                            )
                            &&& Self::shows(
                                *old(compute),
                                *old(mem),
                                *final(compute),
                                *final(mem),
                                all->0,
                                access,
                                new.single,
                            )
                            &&& forall|k: int|
                                0 <= k < (all->0).len() ==> AddressSpace::reads_back(
                                    #[trigger] (all->0)[k],
                                    access,
                                    new.single,
                                )
                        },
                        Err(e) => {
                            &&& e == Error::ENOMEM || e == Error::EIO
                            &&& e == Error::ENOMEM ==> old(mem).free@.len() < 4
                                * AddressSpace::pages_of(all->0, (all->0).len() as int)
                            &&& e == Error::EIO ==> exists|k: int|
                                0 <= k < (all->0).len() && !AddressSpace::reads_back(
                                    #[trigger] (all->0)[k],
                                    access,
                                    new.single,
                                )
                            &&& final(self).mappings@ == old(self).mappings@
                            &&& Self::cleared(
                                *old(render),
                                *old(mem),
                                *final(render),
                                *final(mem),
                                new.start,
                                new.end,
                            )
                            &&& Self::cleared(
                                *old(compute),
                                *old(mem),
                                *final(compute),
                                *final(mem),
                                new.start,
                                new.end,
                            )
                        },
                    }
                }
            }),
    {
        if meets(&self.mappings, new.start, new.end) {
            return Err(Error::EEXIST);
        }
        let all: Vec<Extent> = match extents(segments, new.offset, new.start, new.end, new.single) {
            Err(e) => {
                return Err(e);
            },
            Ok(all) => all,
        };
        let ghost r0 = *render;
        let ghost c0 = *compute;
        let ghost m0 = *mem;
        let ghost before = self.mappings@;
        proof {
            lemma_extents_ok(
                segments@,
                0,
                new.offset as int,
                new.start as int,
                new.end as int,
                new.single,
            );
            assert(Self::extents_for(new, segments@) == Some(all@));
            assert forall|k: int| 0 <= k < all@.len() implies AddressSpace::extent_ok(
                #[trigger] all@[k],
                new.single,
            ) && new.start <= all@[k].start && all@[k].end <= new.end by {
                assert((Self::extents_for(new, segments@)->0)[k] == all@[k]);
            }
        }
        self.mappings.push(new);
        let first: Result<(), Error> = render.install(mem, &all, access, new.single);
        let ghost r1 = *render;
        let ghost m1 = *mem;
        proof {
            lemma_view_kept(r0, m0, r1, m1, c0);
            lemma_bystanders(r0, m0, r1, m1, c0);
        }
        let result: Result<(), Error> = match first {
            Err(e) => Err(e),
            Ok(()) => compute.install(mem, &all, access, new.single),
        };
        let ghost c2 = *compute;
        let ghost m2 = *mem;
        proof {
            if first is Ok {
                lemma_view_kept(c0, m1, c2, m2, r1);
                lemma_bystanders(c0, m1, c2, m2, r1);
            }
            assert(bystanders_kept(r0, c0, m0, r1, c2, m2)) by {
                if first is Ok {
                    lemma_bystanders_turned(r0, c0, m0, r1, c0, m1, r1, c2, m2);
                }
            }
        }
        match result {
            Ok(()) => {
                proof {
                    assert forall|q: int| tables::in_tree(q) implies #[trigger] render.entry(*mem, q)
                        == AddressSpace::installed_entry(
                        all@,
                        access,
                        new.single,
                        all@.len() as int,
                        q,
                        r0.entry(m0, q),
                    ) by {
                        assert(r1.entry(m2, q) == r1.entry(m1, q));
                    }
                    assert forall|q: int| tables::in_tree(q) implies #[trigger] compute.entry(*mem, q)
                        == AddressSpace::installed_entry(
                        all@,
                        access,
                        new.single,
                        all@.len() as int,
                        q,
                        c0.entry(m0, q),
                    ) by {
                        assert(c0.entry(m1, q) == c0.entry(m0, q));
                    }
                }
                Ok(())
            },
            Err(e) => {
                proof {
                    if e == Error::EIO {
                        let k = choose|k: int|
                            0 <= k < all@.len() && !AddressSpace::reads_back(
                                #[trigger] all@[k],
                                access,
                                new.single,
                            );
                        assert(!AddressSpace::reads_back(
                            (Self::extents_for(new, segments@)->0)[k],
                            access,
                            new.single,
                        ));
                    }
                }
                render.unmap_low(mem, new.start, new.end);
                let ghost r3 = *render;
                let ghost m3 = *mem;
                proof {
                    lemma_view_kept(r1, m2, r3, m3, c2);
                    lemma_bystanders(r1, m2, r3, m3, c2);
                    lemma_bystanders_trans(r0, c0, m0, r1, c2, m2, r3, c2, m3);
                }
                compute.unmap_low(mem, new.start, new.end);
                proof {
                    lemma_view_kept(c2, m3, *compute, *mem, r3);
                    lemma_bystanders(c2, m3, *compute, *mem, r3);
                    lemma_bystanders_turned(r0, c0, m0, r3, c2, m3, r3, *compute, *mem);
                    assert forall|q: int| tables::in_tree(q) implies #[trigger] render.entry(*mem, q)
                        == if new.start as int / 0x4000 <= q < new.end as int / 0x4000 {
                        0
                    } else {
                        r0.entry(m0, q)
                    } by {
                        if AddressSpace::in_extents(all@, q) {
                            lemma_extents_inside(all@, new.single, new.start as int, new.end as int, q);
                        }
                        assert(render.entry(*mem, q) == r3.entry(m3, q));
                        assert(r3.entry(m3, q) == if new.start as int / 0x4000 <= q < new.end as int
                            / 0x4000 {
                            0
                        } else {
                            r1.entry(m2, q)
                        });
                        assert(r1.entry(m2, q) == r1.entry(m1, q));
                    }
                    assert forall|q: int| tables::in_tree(q) implies #[trigger] compute.entry(*mem, q)
                        == if new.start as int / 0x4000 <= q < new.end as int / 0x4000 {
                        0
                    } else {
                        c0.entry(m0, q)
                    } by {
                        if AddressSpace::in_extents(all@, q) {
                            lemma_extents_inside(all@, new.single, new.start as int, new.end as int, q);
                        }
                        assert(c2.entry(m3, q) == c2.entry(m2, q));
                        assert(c0.entry(m1, q) == c0.entry(m0, q));
                    }
                }
                self.mappings.pop();
                assert(self.mappings@ =~= before);
                Err(e)
            },
        }
    }

    /// Unbinds a range in both views. Answers the buffers that lost pages, which have to stay until the
    /// views are published.
    pub fn unmap(
        &mut self,
        render: &mut AddressSpace,
        compute: &mut AddressSpace,
        mem: &mut TableMemory,
        start: u64,
        end: u64,
    ) -> (out: Vec<u64>)
        requires
            old(render).wf(*old(mem)),
            old(compute).wf(*old(mem)),
            separate(*old(render), *old(compute), *old(mem)),
            range_ok(start, end),
            forall|i: int| 0 <= i < old(self).mappings@.len() ==> (#[trigger] old(self).mappings@[i]).wf(),
        ensures
            final(render).wf(*final(mem)),
            final(compute).wf(*final(mem)),
            separate(*final(render), *final(compute), *final(mem)),
            bystanders_kept(
                *old(render),
                *old(compute),
                *old(mem),
                *final(render),
                *final(compute),
                *final(mem),
            ),
            final(render).same_roots(*old(render)),
            final(render).pages@ == old(render).pages@,
            final(compute).same_roots(*old(compute)),
            final(compute).pages@ == old(compute).pages@,
            *final(self) == (Vm { mappings: final(self).mappings, ..*old(self) }),
            final(self).mappings@ == mapping::retained_of(
                old(self).mappings@,
                start as int,
                end as int,
                old(self).mappings@.len() as int,
            ),
            out@ == mapping::retired_of(
                old(self).mappings@,
                start as int,
                end as int,
                old(self).mappings@.len() as int,
            ),
            final(mem).free@ == old(mem).free@,
            Self::cleared(*old(render), *old(mem), *final(render), *final(mem), start, end),
            Self::cleared(*old(compute), *old(mem), *final(compute), *final(mem), start, end),
    {
        let ghost r0 = *render;
        let ghost c0 = *compute;
        let ghost m0 = *mem;
        let (retained, retired): (Vec<Mapping>, Vec<u64>) = split(&self.mappings, start, end);
        render.unmap_low(mem, start, end);
        let ghost r1 = *render;
        let ghost m1 = *mem;
        proof {
            lemma_view_kept(r0, m0, r1, m1, c0);
            lemma_bystanders(r0, m0, r1, m1, c0);
        }
        compute.unmap_low(mem, start, end);
        proof {
            lemma_view_kept(c0, m1, *compute, *mem, r1);
            lemma_bystanders(c0, m1, *compute, *mem, r1);
            lemma_bystanders_turned(r0, c0, m0, r1, c0, m1, r1, *compute, *mem);
            assert forall|q: int| tables::in_tree(q) implies #[trigger] render.entry(*mem, q) == if start as int
                / 0x4000 <= q < end as int / 0x4000 {
                0
            } else {
                r0.entry(m0, q)
            } by {
                assert(render.entry(*mem, q) == r1.entry(m1, q));
            }
            assert forall|q: int| tables::in_tree(q) implies #[trigger] compute.entry(*mem, q) == if start as int
                / 0x4000 <= q < end as int / 0x4000 {
                0
            } else {
                c0.entry(m0, q)
            } by {
                assert(c0.entry(m1, q) == c0.entry(m0, q));
            }
        }
        self.mappings = retained;
        retired
    }
}

/// What was bound and is unbound again leaves both views as they were, where the range showed nothing.
pub proof fn lemma_map_unmap(
    s0: AddressSpace,
    m0: TableMemory,
    s1: AddressSpace,
    m1: TableMemory,
    s2: AddressSpace,
    m2: TableMemory,
    new: Mapping,
    segments: Seq<Segment>,
    access: Prot,
    q: int,
)
    requires
        range_ok(new.start, new.end),
        segments_ok(segments),
        Vm::extents_for(new, segments) is Some,
        Vm::shows(s0, m0, s1, m1, Vm::extents_for(new, segments)->0, access, new.single),
        Vm::cleared(s1, m1, s2, m2, new.start, new.end),
        forall|p: int|
            new.start as int / 0x4000 <= p < new.end as int / 0x4000 ==> #[trigger] s0.entry(m0, p) == 0,
        tables::in_tree(q),
    ensures
        s2.entry(m2, q) == s0.entry(m0, q),
{
    let all = Vm::extents_for(new, segments)->0;
    lemma_extents_ok(segments, 0, new.offset as int, new.start as int, new.end as int, new.single);
    if new.start as int / 0x4000 <= q < new.end as int / 0x4000 {
        assert(s0.entry(m0, q) == 0);
    } else {
        if AddressSpace::in_extents(all, q) {
            lemma_extents_inside(all, new.single, new.start as int, new.end as int, q);
        }
        AddressSpace::lemma_outside(all, access, new.single, all.len() as int, q, s0.entry(m0, q));
        assert(s1.entry(m1, q) == s0.entry(m0, q));
    }
}

} // verus!
