//! Sharing the device's compute storage with a client.
use crate::compute;
use crate::compute::{BUFFER_BASE, BUFFER_SIZE, BUFFER_STRIDE, DIRECTORY};
use crate::error::Error;
use crate::mapping::Extent;
use crate::prot::prot_gpu_shared_rw;
use crate::space;
use crate::space::AddressSpace;
use crate::tables;
use crate::tables::{TableMemory, Tree, ENTRIES};
use crate::walk;
use core::ops::Range;
use vstd::prelude::*;

verus! {

/// Whether a client and the device share no table.
pub open spec fn apart(client: AddressSpace, device: AddressSpace, mem: TableMemory) -> bool {
    &&& space::disjoint(client.low.tree(mem), device.low.tree(mem))
    &&& space::disjoint(client.low.tree(mem), device.high.tree(mem))
}

/// A memory with the same tables keeps a client well-formed.
pub(crate) proof fn lemma_space_same(s: AddressSpace, m0: TableMemory, m: TableMemory)
    requires
        s.wf(m0),
        m.wf(),
        m.map() == m0.map(),
        m.free@ == m0.free@,
    ensures
        s.wf(m),
{
    space::lemma_high_same(s.low, m0, m);
    space::lemma_high_same(s.high, m0, m);
    assert(s.low.tree(m) == s.low.tree(m0));
    assert(s.high.tree(m) == s.high.tree(m0));
}

/// The frame of an entry is a page address below the output limit.
pub(crate) proof fn lemma_frame_of_entry(entry: u64)
    ensures
        tables::frame_of(entry, 0x3ff_ffff_ffff) % 0x4000 == 0,
        tables::frame_of(entry, 0x3ff_ffff_ffff) <= 0x3ff_ffff_c000,
{
    assert((entry & 0x3ff_ffff_ffffu64 & !0x3fffu64) % 0x4000 == 0 && (entry & 0x3ff_ffff_ffffu64
        & !0x3fffu64) <= 0x3ff_ffff_c000) by (bit_vector);
}

/// Trees with the same links hold the same tables.
pub(crate) proof fn lemma_same_held(a: Tree, b: Tree, x: u64)
    requires
        a.same_links(b),
        a.root == b.root,
        a.holds(x),
    ensures
        b.holds(x),
{
    if x != a.root {
        if exists|i: int| 0 <= i < ENTRIES && #[trigger] a.l1(i) == Some(x) {
            let i = choose|i: int| 0 <= i < ENTRIES && #[trigger] a.l1(i) == Some(x);
            assert(b.l1(i) == Some(x));
        } else {
            let (i, j) = choose|i: int, j: int|
                0 <= i < ENTRIES && 0 <= j < ENTRIES && #[trigger] a.leaf(i, j) == Some(x);
            assert(b.leaf(i, j) == Some(x));
        }
    }
}

/// Whatever a client maps, an address space that shares no table with it translates as it did.
pub proof fn lemma_device_kept(
    c0: AddressSpace,
    m0: TableMemory,
    c: AddressSpace,
    m: TableMemory,
    d: AddressSpace,
)
    requires
        c0.wf(m0),
        d.wf(m0),
        apart(c0, d, m0),
        c.low.same_root(c0.low),
        c.wf(m),
        walk::framed(c0.low.tree(m0), c.low.tree(m)),
    ensures
        d.wf(m),
        apart(c, d, m),
        forall|q: int| tables::in_tree(q) ==> #[trigger] d.entry(m, q) == d.entry(m0, q),
{
    space::lemma_other_kept(c0.low, m0, c.low, m, d.low);
    space::lemma_other_kept(c0.low, m0, c.low, m, d.high);
    assert forall|x: u64| #[trigger] d.low.tree(m).holds(x) implies !d.high.tree(m).holds(x) by {
        lemma_same_held(d.low.tree(m), d.low.tree(m0), x);
        if d.high.tree(m).holds(x) {
            lemma_same_held(d.high.tree(m), d.high.tree(m0), x);
        }
    }
    assert forall|q: int| tables::in_tree(q) implies !(#[trigger] d.low.tree(m).blocked(q)) by {
        assert(!d.low.tree(m0).blocked(q));
    }
    assert forall|q: int| tables::in_tree(q) implies !(#[trigger] d.high.tree(m).blocked(q)) by {
        assert(!d.high.tree(m0).blocked(q));
    }
    assert forall|q: int| tables::in_tree(q) implies #[trigger] d.entry(m, q) == d.entry(m0, q) by {
        assert(d.low.tree(m).value(q) == d.low.tree(m0).value(q));
    }
}

/// Why a page of the device cannot be shared with a client.
pub open spec fn share_conflict(client: u64, device: u64) -> Option<Error> {
    if tables::is_valid(client) {
        Some(Error::EEXIST)
    } else if !tables::is_valid(device) {
        Some(Error::EIO)
    } else {
        None
    }
}

/// The entry of a shared page.
pub open spec fn shared_page(device: u64) -> u64 {
    tables::frame_of(device, 0x3ff_ffff_ffff) | AddressSpace::bits(prot_gpu_shared_rw())
}

/// What sharing a page changes and keeps.
pub open spec fn shared_one(
    c0: AddressSpace,
    d0: AddressSpace,
    m0: TableMemory,
    c: AddressSpace,
    d: AddressSpace,
    m: TableMemory,
) -> bool {
    &&& c.wf(m)
    &&& d.wf(m)
    &&& apart(c, d, m)
    &&& c.low.same_root(c0.low)
    &&& walk::framed(c0.low.tree(m0), c.low.tree(m))
    &&& walk::extends(c0.low.tree(m0), c.low.tree(m))
    &&& c.high == c0.high
    &&& c.pages@ == c0.pages@
    &&& c.compute_scratch == c0.compute_scratch
    &&& c.render_scratch == c0.render_scratch
    &&& d.same_but_walked(d0)
    &&& forall|q: int| tables::in_tree(q) ==> #[trigger] d.entry(m, q) == d0.entry(m0, q)
}

/// Shares one page of the device with a client.
fn share_page(client: &mut AddressSpace, device: &mut AddressSpace, mem: &mut TableMemory, va: u64) -> (out:
    Result<(), Error>)
    requires
        old(client).wf(*old(mem)),
        old(device).wf(*old(mem)),
        apart(*old(client), *old(device), *old(mem)),
        va % 0x4000 == 0,
        va + 0x4000 <= 0x400_0000_0000,
    ensures
        shared_one(
            *old(client),
            *old(device),
            *old(mem),
            *final(client),
            *final(device),
            *final(mem),
        ),
        ({
            let page = va as int / 0x4000;
            let conflict = share_conflict(
                old(client).entry(*old(mem), page),
                old(device).entry(*old(mem), page),
            );
            match out {
                Ok(_) => conflict is None,
                Err(e) => conflict == Some(e) || (conflict is None && e == Error::ENOMEM && old(
                    mem,
                ).free@.len() < 2),
            }
        }),
        final(mem).free@.len() + 2 >= old(mem).free@.len(),
        forall|q: int|
            tables::in_tree(q) ==> #[trigger] final(client).entry(*final(mem), q) == if out is Ok && q
                == va as int / 0x4000 {
                shared_page(old(device).entry(*old(mem), q))
            } else {
                old(client).entry(*old(mem), q)
            },
{
    let ghost c0 = *client;
    let ghost d0 = *device;
    let ghost m0 = *mem;
    let ghost page = va as int / 0x4000;
    proof {
        space::lemma_client_page(client.low, va);
        space::lemma_client_page(device.low, va);
    }
    let found = client.low.translate(mem, va);
    proof {
        assert(client.low.tree(*mem) == c0.low.tree(m0));
        assert(client.high.tree(*mem) == c0.high.tree(m0));
        space::lemma_high_same(client.high, m0, *mem);
        lemma_space_same(d0, m0, *mem);
        assert(d0.low.tree(*mem) == d0.low.tree(m0));
        assert(d0.high.tree(*mem) == d0.high.tree(m0));
    }
    match found {
        Ok(None) => {},
        Ok(Some(_)) => {
            return Err(Error::EEXIST);
        },
        Err(e) => {
            return Err(e);
        },
    }
    let ghost c1 = *client;
    let ghost m1 = *mem;
    let target = device.low.translate(mem, va);
    proof {
        assert(device.low.tree(*mem) == d0.low.tree(m1));
        assert(device.high.tree(*mem) == d0.high.tree(m1));
        space::lemma_high_same(device.high, m1, *mem);
        lemma_space_same(c1, m1, *mem);
        assert(c1.low.tree(*mem) == c1.low.tree(m1));
        assert(c1.high.tree(*mem) == c1.high.tree(m1));
    }
    let frame: u64 = match target {
        Err(e) => {
            return Err(e);
        },
        Ok(None) => {
            return Err(Error::EIO);
        },
        Ok(Some(frame)) => frame,
    };
    let ghost d2 = *device;
    let ghost m2 = *mem;
    proof {
        lemma_frame_of_entry(d0.entry(m0, page));
    }
    let extent = Extent { start: va, end: va + 0x4000, physical: frame };
    let out = client.map_extent(mem, &extent, prot_gpu_shared_rw(), false);
    proof {
        let stop = choose|stop: int|
            {
                &&& page <= stop <= page + 1
                &&& (out is Ok) == (stop == page + 1)
                &&& #[trigger] AddressSpace::mapped_upto(
                    c1,
                    m2,
                    *client,
                    *mem,
                    extent,
                    prot_gpu_shared_rw(),
                    false,
                    stop,
                )
            };
        assert(AddressSpace::mapped_upto(
            c1,
            m2,
            *client,
            *mem,
            extent,
            prot_gpu_shared_rw(),
            false,
            stop,
        ));
        lemma_device_kept(c1, m2, *client, *mem, d2);
        assert forall|q: int| tables::in_tree(q) implies #[trigger] client.entry(*mem, q) == if out
            is Ok && q == page {
            shared_page(d0.entry(m0, q))
        } else {
            c0.entry(m0, q)
        } by {
            assert(c1.entry(m2, q) == c0.entry(m0, q));
            if q == page {
                assert(AddressSpace::extent_entry(extent, prot_gpu_shared_rw(), false, q)
                    == shared_page(d0.entry(m0, q)));
            }
        }
    }
    out
}

/// Number of pages of the device's compute storage that are shared.
pub const WORK_PAGES: u64 = 0x806;

/// Whether a page belongs to the part of the device's compute storage that is shared: the directory and
/// the spill buffers. Scratch and marker are private to each command.
pub open spec fn in_work(page: int) -> bool {
    ||| DIRECTORY as int / 0x4000 <= page < (DIRECTORY + compute::DIRECTORY_SIZE) / 0x4000
    ||| exists|k: int| 0 <= k < 16 && #[trigger] in_buffer(k, page)
}

/// Whether a page belongs to a spill buffer.
pub open spec fn in_buffer(k: int, page: int) -> bool {
    (BUFFER_BASE + k * BUFFER_STRIDE) / 0x4000 <= page < (BUFFER_BASE + k * BUFFER_STRIDE + BUFFER_SIZE)
        / 0x4000
}

/// Shares a range of the device with a client.
fn share_range(
    client: &mut AddressSpace,
    device: &mut AddressSpace,
    mem: &mut TableMemory,
    base: u64,
    count: u64,
) -> (out: Result<(), Error>)
    requires
        old(client).wf(*old(mem)),
        old(device).wf(*old(mem)),
        apart(*old(client), *old(device), *old(mem)),
        base % 0x4000 == 0,
        base + count * 0x4000 <= 0x400_0000_0000,
    ensures
        shared_one(
            *old(client),
            *old(device),
            *old(mem),
            *final(client),
            *final(device),
            *final(mem),
        ),
        ({
            let lo = base as int / 0x4000;
            match out {
                Ok(_) => forall|q: int|
                    tables::in_tree(q) ==> #[trigger] final(client).entry(*final(mem), q) == if lo
                        <= q < lo + count {
                        shared_page(old(device).entry(*old(mem), q))
                    } else {
                        old(client).entry(*old(mem), q)
                    },
                Err(e) => {
                    &&& forall|q: int|
                        tables::in_tree(q) && !(lo <= q < lo + count) ==> #[trigger] final(client).entry(*final(mem), q) == old(client).entry(*old(mem), q)
                    &&& (e == Error::ENOMEM && old(mem).free@.len() < 2 * count) || exists|q: int|
                        lo <= q < lo + count && #[trigger] share_conflict(
                            old(client).entry(*old(mem), q),
                            old(device).entry(*old(mem), q),
                        ) == Some(e)
                },
            }
        }),
        out is Ok ==> final(mem).free@.len() + 2 * count >= old(mem).free@.len(),
        out is Ok ==> forall|q: int|
            base as int / 0x4000 <= q < base as int / 0x4000 + count ==> #[trigger] share_conflict(
                old(client).entry(*old(mem), q),
                old(device).entry(*old(mem), q),
            ) is None,
{
    let ghost c0 = *client;
    let ghost d0 = *device;
    let ghost m0 = *mem;
    let ghost lo = base as int / 0x4000;
    let mut k: u64 = 0;
    while k < count
        invariant
            k <= count,
            lo == base as int / 0x4000,
            base % 0x4000 == 0,
            base + count * 0x4000 <= 0x400_0000_0000,
            client.wf(*mem),
            device.wf(*mem),
            apart(*client, *device, *mem),
            shared_one(c0, d0, m0, *client, *device, *mem),
            forall|q: int|
                tables::in_tree(q) ==> #[trigger] client.entry(*mem, q) == if lo <= q < lo + k {
                    shared_page(d0.entry(m0, q))
                } else {
                    c0.entry(m0, q)
                },
            forall|q: int|
                lo <= q < lo + k ==> #[trigger] share_conflict(
                    c0.entry(m0, q),
                    d0.entry(m0, q),
                ) is None,
            mem.free@.len() + 2 * k >= m0.free@.len(),
            c0 == *old(client),
            d0 == *old(device),
            m0 == *old(mem),
        decreases count - k,
    {
        let ghost c1 = *client;
        let ghost d1 = *device;
        let ghost m1 = *mem;
        let va: u64 = base + k * 0x4000;
        let shared = share_page(client, device, mem, va);
        proof {
            let page = va as int / 0x4000;
            walk::lemma_framed_trans(c0.low.tree(m0), c1.low.tree(m1), client.low.tree(*mem));
            walk::lemma_extends_trans(c0.low.tree(m0), c1.low.tree(m1), client.low.tree(*mem));
            assert(page == lo + k);
            assert(tables::in_tree(page));
            assert(c1.entry(m1, page) == c0.entry(m0, page));
            assert(d1.entry(m1, page) == d0.entry(m0, page));
            assert forall|q: int| tables::in_tree(q) implies #[trigger] device.entry(*mem, q)
                == d0.entry(m0, q) by {
                assert(d1.entry(m1, q) == d0.entry(m0, q));
            }
            assert forall|q: int| tables::in_tree(q) implies #[trigger] client.entry(*mem, q) == if lo
                <= q < (if shared is Ok {
                lo + k + 1
            } else {
                lo + k
            }) {
                shared_page(d0.entry(m0, q))
            } else {
                c0.entry(m0, q)
            } by {
                assert(c1.entry(m1, q) == if lo <= q < lo + k {
                    shared_page(d0.entry(m0, q))
                } else {
                    c0.entry(m0, q)
                });
            }
        }
        match shared {
            Err(e) => {
                proof {
                    assert((e == Error::ENOMEM && m0.free@.len() < 2 * count) || share_conflict(
                        c0.entry(m0, lo + k),
                        d0.entry(m0, lo + k),
                    ) == Some(e));
                }
                return Err(e);
            },
            Ok(()) => {},
        }
        k += 1;
    }
    Ok(())
}

/// Whether a page belongs to the directory or to one of the first `n` spill buffers.
pub open spec fn in_first(n: int, page: int) -> bool {
    ||| DIRECTORY as int / 0x4000 <= page < (DIRECTORY + compute::DIRECTORY_SIZE) / 0x4000
    ||| exists|k: int| 0 <= k < n && #[trigger] in_buffer(k, page)
}

/// A page of a spill buffer belongs to no other buffer and not to the directory.
proof fn lemma_buffer_apart(n: int, page: int)
    requires
        0 <= n < 16,
        in_buffer(n, page),
    ensures
        !in_first(n, page),
{
}

/// Shares the device's compute storage with a client, and notes where the client keeps its own. Pages
/// outside that storage are as they were.
pub fn map_compute_work(
    client: &mut AddressSpace,
    device: &mut AddressSpace,
    mem: &mut TableMemory,
    private: Range<u64>,
) -> (out: Result<(), Error>)
    requires
        old(client).wf(*old(mem)),
        old(device).wf(*old(mem)),
        apart(*old(client), *old(device), *old(mem)),
    ensures
        final(client).wf(*final(mem)),
        final(device).wf(*final(mem)),
        apart(*final(client), *final(device), *final(mem)),
        final(client).low.same_root(old(client).low),
        walk::framed(old(client).low.tree(*old(mem)), final(client).low.tree(*final(mem))),
        walk::extends(old(client).low.tree(*old(mem)), final(client).low.tree(*final(mem))),
        final(client).high == old(client).high,
        final(client).render_scratch == old(client).render_scratch,
        final(client).pages@ == old(client).pages@,
        final(device).same_but_walked(*old(device)),
        forall|q: int|
            tables::in_tree(q) ==> #[trigger] final(device).entry(*final(mem), q) == old(device).entry(*old(mem), q),
        match out {
            Ok(_) => {
                &&& final(client).compute_scratch == private
                &&& final(mem).free@.len() + 2 * WORK_PAGES >= old(mem).free@.len()
                &&& forall|q: int|
                    tables::in_tree(q) ==> #[trigger] final(client).entry(*final(mem), q)
                        == if in_work(q) {
                        shared_page(old(device).entry(*old(mem), q))
                    } else {
                        old(client).entry(*old(mem), q)
                    }
                &&& forall|q: int|
                    in_work(q) ==> #[trigger] share_conflict(
                        old(client).entry(*old(mem), q),
                        old(device).entry(*old(mem), q),
                    ) is None
            },
            Err(e) => {
                &&& final(client).compute_scratch == old(client).compute_scratch
                &&& forall|q: int|
                    tables::in_tree(q) && !in_work(q) ==> #[trigger] final(client).entry(
                        *final(mem),
                        q,
                    ) == old(client).entry(*old(mem), q)
                &&& (e == Error::ENOMEM && old(mem).free@.len() < 2 * WORK_PAGES) || exists|q: int|
                    in_work(q) && #[trigger] share_conflict(
                        old(client).entry(*old(mem), q),
                        old(device).entry(*old(mem), q),
                    ) == Some(e)
            },
        },
{
    let ghost c0 = *client;
    let ghost d0 = *device;
    let ghost m0 = *mem;
    match share_range(client, device, mem, DIRECTORY, compute::DIRECTORY_SIZE as u64 / 0x4000) {
        Err(e) => {
            proof {
                if e != Error::ENOMEM {
                    let lo = DIRECTORY as int / 0x4000;
                    let q = choose|q: int|
                        lo <= q < lo + compute::DIRECTORY_SIZE as int / 0x4000
                            && #[trigger] share_conflict(c0.entry(m0, q), d0.entry(m0, q)) == Some(e);
                    assert(in_work(q));
                }
            }
            return Err(e);
        },
        Ok(()) => {},
    }
    let mut k: u64 = 0;
    while k < 16
        invariant
            k <= 16,
            client.wf(*mem),
            device.wf(*mem),
            apart(*client, *device, *mem),
            shared_one(c0, d0, m0, *client, *device, *mem),
            forall|q: int|
                tables::in_tree(q) ==> #[trigger] client.entry(*mem, q) == if in_first(k as int, q) {
                    shared_page(d0.entry(m0, q))
                } else {
                    c0.entry(m0, q)
                },
            forall|q: int|
                in_first(k as int, q) ==> #[trigger] share_conflict(
                    c0.entry(m0, q),
                    d0.entry(m0, q),
                ) is None,
            mem.free@.len() + 2 * (compute::DIRECTORY_SIZE / 0x4000 + k * 0x80) >= m0.free@.len(),
            c0 == *old(client),
            d0 == *old(device),
            m0 == *old(mem),
        decreases 16 - k,
    {
        let ghost c1 = *client;
        let ghost d1 = *device;
        let ghost m1 = *mem;
        let base: u64 = BUFFER_BASE + k * BUFFER_STRIDE;
        let shared = share_range(client, device, mem, base, BUFFER_SIZE as u64 / 0x4000);
        let ghost lo = base as int / 0x4000;
        proof {
            walk::lemma_framed_trans(c0.low.tree(m0), c1.low.tree(m1), client.low.tree(*mem));
            walk::lemma_extends_trans(c0.low.tree(m0), c1.low.tree(m1), client.low.tree(*mem));
            assert forall|q: int| lo <= q < lo + 0x80 implies #[trigger] in_buffer(k as int, q) by {}
            assert forall|q: int| tables::in_tree(q) implies #[trigger] device.entry(*mem, q)
                == d0.entry(m0, q) by {
                assert(d1.entry(m1, q) == d0.entry(m0, q));
            }
            assert forall|q: int| tables::in_tree(q) && in_buffer(k as int, q) implies c1.entry(m1, q)
                == c0.entry(m0, q) && #[trigger] d1.entry(m1, q) == d0.entry(m0, q) by {
                lemma_buffer_apart(k as int, q);
            }
        }
        match shared {
            Err(e) => {
                proof {
                    assert forall|q: int| tables::in_tree(q) && !in_work(q) implies #[trigger] client.entry(
                        *mem,
                        q,
                    ) == c0.entry(m0, q) by {
                        assert(!in_buffer(k as int, q));
                        assert(!in_first(k as int, q)) by {
                            if in_first(k as int, q) {
                                assert(in_work(q));
                            }
                        }
                        assert(c1.entry(m1, q) == c0.entry(m0, q));
                    }
                    if e != Error::ENOMEM {
                        let q = choose|q: int|
                            lo <= q < lo + 0x80 && #[trigger] share_conflict(
                                c1.entry(m1, q),
                                d1.entry(m1, q),
                            ) == Some(e);
                        assert(in_buffer(k as int, q));
                        assert(in_work(q));
                        assert(tables::in_tree(q));
                        assert(share_conflict(c0.entry(m0, q), d0.entry(m0, q)) == Some(e));
                    }
                }
                return Err(e);
            },
            Ok(()) => {},
        }
        proof {
            assert forall|q: int| tables::in_tree(q) implies #[trigger] client.entry(*mem, q)
                == if in_first(k + 1, q) {
                shared_page(d0.entry(m0, q))
            } else {
                c0.entry(m0, q)
            } by {
                assert(in_first(k + 1, q) == (in_first(k as int, q) || in_buffer(k as int, q))) by {
                    lemma_first_step(k as int, q);
                }
                assert(c1.entry(m1, q) == if in_first(k as int, q) {
                    shared_page(d0.entry(m0, q))
                } else {
                    c0.entry(m0, q)
                });
                assert(d1.entry(m1, q) == d0.entry(m0, q));
            }
            assert forall|q: int| in_first(k + 1, q) implies #[trigger] share_conflict(
                c0.entry(m0, q),
                d0.entry(m0, q),
            ) is None by {
                lemma_first_step(k as int, q);
                if in_buffer(k as int, q) {
                    assert(tables::in_tree(q));
                    assert(d1.entry(m1, q) == d0.entry(m0, q));
                    assert(c1.entry(m1, q) == c0.entry(m0, q));
                    assert(share_conflict(c1.entry(m1, q), d1.entry(m1, q)) is None);
                }
            }
        }
        k += 1;
    }
    proof {
        assert forall|q: int| in_work(q) == #[trigger] in_first(16, q) by {}
    }
    let ghost c2 = *client;
    client.init_compute_private(private);
    proof {
        assert forall|q: int| tables::in_tree(q) implies #[trigger] client.entry(*mem, q) == c2.entry(
            *mem,
            q,
        ) by {}
        assert forall|q: int| in_work(q) implies #[trigger] share_conflict(
            c0.entry(m0, q),
            d0.entry(m0, q),
        ) is None by {
            assert(in_first(16, q));
        }
    }
    Ok(())
}

/// One more spill buffer.
proof fn lemma_first_step(k: int, q: int)
    requires
        0 <= k,
    ensures
        in_first(k + 1, q) == (in_first(k, q) || in_buffer(k, q)),
{
    if in_first(k + 1, q) && !in_buffer(k, q) {
        if exists|j: int| 0 <= j < k + 1 && #[trigger] in_buffer(j, q) {
            let j = choose|j: int| 0 <= j < k + 1 && #[trigger] in_buffer(j, q);
            assert(j < k && in_buffer(j, q));
        }
    }
    if in_first(k, q) {
        if exists|j: int| 0 <= j < k && #[trigger] in_buffer(j, q) {
            let j = choose|j: int| 0 <= j < k && #[trigger] in_buffer(j, q);
            assert(j < k + 1 && in_buffer(j, q));
        }
    }
}

} // verus!
