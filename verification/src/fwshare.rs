//! Pages of the firmware that a client sees too.
use crate::error::Error;
use crate::fwspace::FirmwareSpace;
use crate::lanes::WORK_BASE;
use crate::mapping::Extent;
use crate::prot::prot_gpu_shared_rw;
use crate::space;
use crate::space::AddressSpace;
use crate::space_check;
use crate::space_map;
use crate::space_share;
use crate::submit;
use crate::submit::render_alias;
use crate::submit_compute;
use crate::submit_compute::compute_alias;
use crate::tables;
use crate::tables::TableMemory;
use crate::walk;
use vstd::prelude::*;

verus! {

/// Whether a client and the firmware share no table.
pub open spec fn beside(client: AddressSpace, firmware: FirmwareSpace, mem: TableMemory) -> bool {
    &&& space::disjoint(client.low.tree(mem), firmware.table.tree(mem))
    &&& space::disjoint(client.high.tree(mem), firmware.table.tree(mem))
}

/// Changes below the root of the firmware leave a client as it was.
pub(crate) proof fn lemma_client_beside(
    f0: FirmwareSpace,
    m0: TableMemory,
    f: FirmwareSpace,
    m: TableMemory,
    client: AddressSpace,
)
    requires
        f0.wf(m0),
        f0.tables_kept(m0, f, m),
        client.wf(m0),
        beside(client, f0, m0),
    ensures
        client.wf(m),
        beside(client, f, m),
        forall|q: int| tables::in_tree(q) ==> #[trigger] client.entry(m, q) == client.entry(m0, q),
{
    assert forall|x: u64| #[trigger] f0.table.tree(m0).holds(x) implies !client.low.tree(m0).holds(x) by {
        if client.low.tree(m0).holds(x) {
            assert(!f0.table.tree(m0).holds(x));
        }
    }
    assert forall|x: u64| #[trigger] f0.table.tree(m0).holds(x) implies !client.high.tree(m0).holds(x) by {
        if client.high.tree(m0).holds(x) {
            assert(!f0.table.tree(m0).holds(x));
        }
    }
    space::lemma_other_kept(f0.table, m0, f.table, m, client.low);
    space::lemma_other_kept(f0.table, m0, f.table, m, client.high);
    assert forall|x: u64| #[trigger] client.low.tree(m).holds(x) implies !client.high.tree(m).holds(x)
        && !f.table.tree(m).holds(x) by {
        space_share::lemma_same_held(client.low.tree(m), client.low.tree(m0), x);
        if client.high.tree(m).holds(x) {
            space_share::lemma_same_held(client.high.tree(m), client.high.tree(m0), x);
        }
        if f.table.tree(m).holds(x) {
            assert(!client.low.tree(m).holds(x));
        }
    }
    assert forall|x: u64| #[trigger] client.high.tree(m).holds(x) implies !f.table.tree(m).holds(x) by {
        if f.table.tree(m).holds(x) {
            assert(!client.high.tree(m).holds(x));
        }
    }
    assert forall|q: int| tables::in_tree(q) implies !(#[trigger] client.low.tree(m).blocked(q)) by {
        assert(!client.low.tree(m0).blocked(q));
    }
    assert forall|q: int| tables::in_tree(q) implies !(#[trigger] client.high.tree(m).blocked(q)) by {
        assert(!client.high.tree(m0).blocked(q));
    }
    assert forall|q: int| tables::in_tree(q) implies #[trigger] client.entry(m, q) == client.entry(m0, q) by {
        assert(client.low.tree(m).value(q) == client.low.tree(m0).value(q));
    }
}

/// Changes below the low root of a client leave the firmware as it was.
pub(crate) proof fn lemma_firmware_beside(
    c0: AddressSpace,
    m0: TableMemory,
    c: AddressSpace,
    m: TableMemory,
    firmware: FirmwareSpace,
)
    requires
        c0.wf(m0),
        firmware.wf(m0),
        beside(c0, firmware, m0),
        c.wf(m),
        c.low.same_root(c0.low),
        c.high == c0.high,
        walk::framed(c0.low.tree(m0), c.low.tree(m)),
    ensures
        firmware.wf(m),
        beside(c, firmware, m),
        firmware.table.tree(m).same_values(firmware.table.tree(m0)),
        firmware.table.tree(m).same_blocked(firmware.table.tree(m0)),
{
    space::lemma_other_kept(c0.low, m0, c.low, m, firmware.table);
    space::lemma_other_kept(c0.low, m0, c.low, m, c0.high);
    assert forall|x: u64| #[trigger] c.high.tree(m).holds(x) implies !firmware.table.tree(m).holds(x) by {
        space_share::lemma_same_held(c.high.tree(m), c0.high.tree(m0), x);
        if firmware.table.tree(m).holds(x) {
            space_share::lemma_same_held(firmware.table.tree(m), firmware.table.tree(m0), x);
        }
    }
}

/// The frame behind a page of the firmware; none where the page is not mapped.
pub open spec fn frame_behind(firmware: FirmwareSpace, mem: TableMemory, high: u64) -> Option<u64> {
    if firmware.table.in_range(high) {
        firmware.table.translation(mem, high)
    } else {
        None
    }
}

/// The entry of a page after the first `n` pages of a list are shown: pairs of an address of the client
/// and one of the firmware.
pub open spec fn shown_entry(
    firmware: FirmwareSpace,
    mem: TableMemory,
    pages: Seq<(u64, u64)>,
    n: int,
    page: int,
    before: u64,
) -> u64
    decreases n,
{
    if n <= 0 {
        before
    } else if pages[n - 1].0 as int / 0x4000 == page {
        frame_behind(firmware, mem, pages[n - 1].1)->0 | AddressSpace::bits(prot_gpu_shared_rw())
    } else {
        shown_entry(firmware, mem, pages, n - 1, page, before)
    }
}

/// What showing pages keeps: the firmware, and all of the client but its mappings.
pub open spec fn beside_kept(
    c0: AddressSpace,
    f0: FirmwareSpace,
    m0: TableMemory,
    c: AddressSpace,
    f: FirmwareSpace,
    m: TableMemory,
) -> bool {
    &&& c.wf(m)
    &&& f.wf(m)
    &&& beside(c, f, m)
    &&& c.low.same_root(c0.low)
    &&& walk::framed(c0.low.tree(m0), c.low.tree(m))
    &&& walk::extends(c0.low.tree(m0), c.low.tree(m))
    &&& c.high == c0.high
    &&& c.pages@ == c0.pages@
    &&& c.compute_scratch == c0.compute_scratch
    &&& c.render_scratch == c0.render_scratch
    &&& f.same_but_walked(f0)
    &&& f.table.tree(m).same_values(f0.table.tree(m0))
    &&& f.table.tree(m).same_blocked(f0.table.tree(m0))
}

/// Shows one page of the firmware to a client, in place of what the client had there.
fn show_page(client: &mut AddressSpace, firmware: &mut FirmwareSpace, mem: &mut TableMemory, low: u64, high: u64) -> (out:
    Result<(), Error>)
    requires
        old(client).wf(*old(mem)),
        old(firmware).wf(*old(mem)),
        beside(*old(client), *old(firmware), *old(mem)),
        low % 0x4000 == 0,
        high % 0x4000 == 0,
        low + 0x4000 <= 0x400_0000_0000,
    ensures
        beside_kept(
            *old(client),
            *old(firmware),
            *old(mem),
            *final(client),
            *final(firmware),
            *final(mem),
        ),
        final(mem).free@.len() + 2 >= old(mem).free@.len(),
        ({
            let frame = frame_behind(*old(firmware), *old(mem), high);
            &&& match out {
                Ok(_) => frame is Some,
                Err(e) => if frame is None {
                    e == Error::EINVAL
                } else {
                    e == Error::ENOMEM && old(mem).free@.len() < 2
                },
            }
            &&& forall|q: int|
                tables::in_tree(q) ==> #[trigger] final(client).entry(*final(mem), q) == if out is Ok && q
                    == low as int / 0x4000 {
                    frame->0 | AddressSpace::bits(prot_gpu_shared_rw())
                } else {
                    old(client).entry(*old(mem), q)
                }
        }),
{
    let ghost c0 = *client;
    let ghost f0 = *firmware;
    let ghost m0 = *mem;
    let found = firmware.physical(mem, high);
    proof {
        space_share::lemma_space_same(c0, m0, *mem);
        assert(c0.low.tree(*mem) == c0.low.tree(m0));
        assert(c0.high.tree(*mem) == c0.high.tree(m0));
        assert(firmware.table.tree(*mem) == f0.table.tree(m0));
    }
    let physical: u64 = match found {
        Err(e) => {
            return Err(e);
        },
        Ok(physical) => physical,
    };
    let ghost f1 = *firmware;
    let ghost m1 = *mem;
    let extent = Extent { start: low, end: low + 0x4000, physical };
    proof {
        space_share::lemma_frame_of_entry(f0.table.tree(m0).value(f0.table.first_page(high)));
        assert((low + 0x4000) as int / 0x4000 == low as int / 0x4000 + 1);
    }
    let out = client.map_extent(mem, &extent, prot_gpu_shared_rw(), false);
    proof {
        let page = low as int / 0x4000;
        let stop = choose|stop: int|
            {
                &&& page <= stop <= page + 1
                &&& (out is Ok) == (stop == page + 1)
                &&& #[trigger] AddressSpace::mapped_upto(
                    c0,
                    m1,
                    *client,
                    *mem,
                    extent,
                    prot_gpu_shared_rw(),
                    false,
                    stop,
                )
            };
        assert(AddressSpace::mapped_upto(
            c0,
            m1,
            *client,
            *mem,
            extent,
            prot_gpu_shared_rw(),
            false,
            stop,
        ));
        lemma_firmware_beside(c0, m1, *client, *mem, f1);
        assert forall|q: int| tables::in_tree(q) implies #[trigger] client.entry(*mem, q) == if out
            is Ok && q == page {
            physical | AddressSpace::bits(prot_gpu_shared_rw())
        } else {
            c0.entry(m0, q)
        } by {
            assert(c0.entry(m1, q) == c0.entry(m0, q));
        }
    }
    out
}

/// Whether a list names whole pages of a client and of the firmware.
pub open spec fn pages_ok(pages: Seq<(u64, u64)>) -> bool {
    forall|k: int| 0 <= k < pages.len() ==> page_ok(#[trigger] pages[k])
}

/// Whether a pair names a whole page of a client and one of the firmware.
pub open spec fn page_ok(pair: (u64, u64)) -> bool {
    pair.0 % 0x4000 == 0 && pair.1 % 0x4000 == 0 && pair.0 + 0x4000 <= 0x400_0000_0000
}

/// The same entries have the same frames behind them.
pub(crate) proof fn lemma_same_frames(f0: FirmwareSpace, m0: TableMemory, f: FirmwareSpace, m: TableMemory, high: u64)
    requires
        f0.wf(m0),
        f.wf(m),
        f.same_but_walked(f0),
        f.table.tree(m).same_values(f0.table.tree(m0)),
    ensures
        frame_behind(f, m, high) == frame_behind(f0, m0, high),
{
    let page = f0.table.first_page(high);
    assert(page == (high as int % 0x400_0000_0000) / 0x4000);
    assert(tables::in_tree(page));
    assert(f.table.tree(m).value(page) == f0.table.tree(m0).value(page));
}

/// Shows pages of the firmware to a client, in order, in place of what the client had there. Where a page
/// cannot be shown, those before it stay.
pub fn show_pages(
    client: &mut AddressSpace,
    firmware: &mut FirmwareSpace,
    mem: &mut TableMemory,
    pages: &Vec<(u64, u64)>,
) -> (out: Result<(), Error>)
    requires
        old(client).wf(*old(mem)),
        old(firmware).wf(*old(mem)),
        beside(*old(client), *old(firmware), *old(mem)),
        pages_ok(pages@),
    ensures
        beside_kept(
            *old(client),
            *old(firmware),
            *old(mem),
            *final(client),
            *final(firmware),
            *final(mem),
        ),
        exists|k: int|
            {
                &&& 0 <= k <= pages@.len()
                &&& #[trigger] shown_upto(
                    *old(client),
                    *old(firmware),
                    *old(mem),
                    *final(client),
                    *final(mem),
                    pages@,
                    k,
                )
                &&& match out {
                    Ok(_) => k == pages@.len() && final(mem).free@.len() + 2 * k >= old(mem).free@.len(),
                    Err(e) => {
                        &&& k < pages@.len()
                        &&& if frame_behind(*old(firmware), *old(mem), pages@[k].1) is None {
                            e == Error::EINVAL
                        } else {
                            e == Error::ENOMEM && old(mem).free@.len() < 2 * (k + 1)
                        }
                    },
                }
            },
{
    let ghost c0 = *client;
    let ghost f0 = *firmware;
    let ghost m0 = *mem;
    let mut k: usize = 0;
    while k < pages.len()
        invariant
            k <= pages@.len(),
            pages_ok(pages@),
            c0 == *old(client),
            f0 == *old(firmware),
            m0 == *old(mem),
            f0.wf(m0),
            beside_kept(c0, f0, m0, *client, *firmware, *mem),
            shown_upto(c0, f0, m0, *client, *mem, pages@, k as int),
            mem.free@.len() + 2 * k >= m0.free@.len(),
        decreases pages@.len() - k,
    {
        let ghost c1 = *client;
        let ghost f1 = *firmware;
        let ghost m1 = *mem;
        let (low, high): (u64, u64) = pages[k];
        proof {
            assert(page_ok(pages@[k as int]));
            lemma_same_frames(f0, m0, f1, m1, high);
        }
        let shown = show_page(client, firmware, mem, low, high);
        proof {
            walk::lemma_framed_trans(c0.low.tree(m0), c1.low.tree(m1), client.low.tree(*mem));
            walk::lemma_extends_trans(c0.low.tree(m0), c1.low.tree(m1), client.low.tree(*mem));
            assert forall|q: int| tables::in_tree(q) implies #[trigger] firmware.table.tree(*mem).value(
                q,
            ) == f0.table.tree(m0).value(q) by {
                assert(f1.table.tree(m1).value(q) == f0.table.tree(m0).value(q));
            }
            assert forall|q: int| tables::in_tree(q) implies #[trigger] firmware.table.tree(
                *mem,
            ).blocked(q) == f0.table.tree(m0).blocked(q) by {
                assert(f1.table.tree(m1).blocked(q) == f0.table.tree(m0).blocked(q));
            }
            let n = if shown is Ok {
                k + 1
            } else {
                k as int
            };
            assert forall|q: int| tables::in_tree(q) implies #[trigger] client.entry(*mem, q)
                == shown_entry(f0, m0, pages@, n, q, c0.entry(m0, q)) by {
                assert(c1.entry(m1, q) == shown_entry(f0, m0, pages@, k as int, q, c0.entry(m0, q)));
            }
            assert(shown_upto(c0, f0, m0, *client, *mem, pages@, n));
        }
        match shown {
            Err(e) => {
                return Err(e);
            },
            Ok(()) => {},
        }
        k += 1;
    }
    Ok(())
}

/// Whether a client shows the first pages of a list, and else what it did.
pub open spec fn shown_upto(
    c0: AddressSpace,
    f0: FirmwareSpace,
    m0: TableMemory,
    c: AddressSpace,
    m: TableMemory,
    pages: Seq<(u64, u64)>,
    k: int,
) -> bool {
    &&& forall|q: int|
        tables::in_tree(q) ==> #[trigger] c.entry(m, q) == shown_entry(
            f0,
            m0,
            pages,
            k,
            q,
            c0.entry(m0, q),
        )
    &&& forall|i: int|
        0 <= i < k ==> frame_behind(f0, m0, (#[trigger] pages[i]).1) is Some
}

/// The pages of a work item that the accelerator sees, where their addresses are inside the range for
/// them: one for each stage.
pub fn work_pages(work: u64, render: bool) -> (out: Result<Vec<(u64, u64)>, Error>)
    requires
        WORK_BASE <= work,
        work % 0x4000 == 0,
    ensures
        match out {
            Ok(pages) => {
                &&& pages_ok(pages@)
                &&& if render {
                    let alias = submit::render_alias_of(work);
                    &&& submit::work_placed(work)
                    &&& pages@ == seq![
                        (alias as u64, work),
                        ((alias + 0x4000) as u64, (work + 0x8000) as u64),
                    ]
                } else {
                    &&& submit_compute::compute_placed(work)
                    &&& pages@ == seq![(submit_compute::compute_alias_of(work) as u64, work)]
                }
            },
            Err(e) => {
                &&& e == Error::ENOSPC
                &&& if render {
                    !submit::work_placed(work)
                } else {
                    !submit_compute::compute_placed(work)
                }
            },
        },
{
    let mut pages: Vec<(u64, u64)> = Vec::new();
    if render {
        match render_alias(work) {
            Err(e) => {
                return Err(e);
            },
            Ok(alias) => {
                pages.push((alias, work));
                pages.push((alias + 0x4000, work + 0x8000));
            },
        }
    } else {
        match compute_alias(work) {
            Err(e) => {
                return Err(e);
            },
            Ok(alias) => {
                pages.push((alias, work));
            },
        }
    }
    Ok(pages)
}

/// The same frames give the same entries.
pub(crate) proof fn lemma_same_shown(
    f0: FirmwareSpace,
    m0: TableMemory,
    f: FirmwareSpace,
    m: TableMemory,
    pages: Seq<(u64, u64)>,
    n: int,
    page: int,
    before: u64,
)
    requires
        f0.wf(m0),
        f.wf(m),
        f.same_but_walked(f0),
        f.table.tree(m).same_values(f0.table.tree(m0)),
    ensures
        shown_entry(f, m, pages, n, page, before) == shown_entry(f0, m0, pages, n, page, before),
    decreases n,
{
    if n > 0 {
        lemma_same_frames(f0, m0, f, m, pages[n - 1].1);
        lemma_same_shown(f0, m0, f, m, pages, n - 1, page, before);
    }
}

/// A client finds the frame of the firmware behind the last page that it was shown at an address.
pub proof fn lemma_shown_translates(
    firmware: FirmwareSpace,
    mem: TableMemory,
    pages: Seq<(u64, u64)>,
    k: int,
    before: u64,
)
    requires
        firmware.wf(mem),
        pages_ok(pages),
        0 <= k < pages.len(),
        forall|j: int| k < j < pages.len() ==> (#[trigger] pages[j]).0 != pages[k].0,
        frame_behind(firmware, mem, pages[k].1) is Some,
    ensures
        space_check::entry_target(
            shown_entry(
                firmware,
                mem,
                pages,
                pages.len() as int,
                pages[k].0 as int / 0x4000,
                before,
            ),
            pages[k].0,
        ) == frame_behind(firmware, mem, pages[k].1),
{
    let page = pages[k].0 as int / 0x4000;
    let frame = frame_behind(firmware, mem, pages[k].1)->0;
    lemma_last_shown(firmware, mem, pages, k, pages.len() as int, before);
    assert(page_ok(pages[k]));
    space_share::lemma_frame_of_entry(
        firmware.table.tree(mem).value(firmware.table.first_page(pages[k].1)),
    );
    let extent = Extent { start: pages[k].0, end: (pages[k].0 + 0x4000) as u64, physical: frame };
    assert((pages[k].0 + 0x4000) as int / 0x4000 == page + 1);
    space_map::lemma_extent_reads_back(extent, prot_gpu_shared_rw(), false);
}

/// The entry of a page is the last one that was shown there.
proof fn lemma_last_shown(
    firmware: FirmwareSpace,
    mem: TableMemory,
    pages: Seq<(u64, u64)>,
    k: int,
    n: int,
    before: u64,
)
    requires
        pages_ok(pages),
        0 <= k < n <= pages.len(),
        forall|j: int| k < j < n ==> (#[trigger] pages[j]).0 != pages[k].0,
    ensures
        shown_entry(firmware, mem, pages, n, pages[k].0 as int / 0x4000, before) == frame_behind(
            firmware,
            mem,
            pages[k].1,
        )->0 | AddressSpace::bits(prot_gpu_shared_rw()),
    decreases n,
{
    if n - 1 > k {
        assert(page_ok(pages[n - 1]) && page_ok(pages[k]));
        lemma_last_shown(firmware, mem, pages, k, n - 1, before);
    }
}

} // verus!
