//! The buffer of a client: its storage, what is stored in it at first, and the pages that the client sees.
use crate::bootmap;
use crate::bytes;
use crate::error::Error;
use crate::flights::Session;
use crate::fwshare;
use crate::fwshare::show_pages;
use crate::fwspace::FirmwareSpace;
use crate::launch::Support;
use crate::plan;
use crate::plan::{push_write, Write};
use crate::platform::zeroed;
use crate::prot::{prot_fw_priv_rw, prot_fw_shared_rw};
use crate::provision;
use crate::render::Addresses;
use crate::session::POOL_SIZE;
use crate::space;
use crate::space::AddressSpace;
use crate::tables;
use crate::tables::TableMemory;
use crate::tvb;
use crate::tvb::{Region, Tvb};
use crate::works::Works;
use vstd::prelude::*;

verus! {

/// Number of pages of the storage of a buffer.
pub const POOL_PAGES: u64 = 16;

/// What is stored for a new buffer: its pages, then its descriptor.
pub open spec fn pool_stores(base: int, slot: u64) -> Seq<plan::Stored> {
    bootmap::page_stores(tvb::placed(base, slot), base as u64, POOL_PAGES as nat).push(
        (
            (tvb::PARAMETER_BUFFERS + slot * 16) as u64,
            bytes::image(16, seq![bytes::w32(0, 0x25800), bytes::w32(4, 44)]),
            true,
        ),
    )
}

/// The regions of a buffer.
pub open spec fn pool_regions(base: int) -> Seq<Region> {
    seq![
        Region { address: base as u64, size: 0x10000, prot: prot_fw_priv_rw() },
        Region { address: (base + 0x10000) as u64, size: 0x4000, prot: prot_fw_shared_rw() },
        Region { address: (base + 0x14000) as u64, size: 0x2c000, prot: prot_fw_priv_rw() },
    ]
}

/// The pages of a buffer that the client sees: those of the page list.
pub open spec fn pool_pages(base: int) -> Seq<(u64, u64)> {
    Seq::new(
        7,
        |i: int|
            (
                (tvb::PAGE_LIST_ALIAS + i * 0x4000) as u64,
                (base + 0x24000 + i * 0x4000) as u64,
            ),
    )
}

/// Adds what is stored in the pages of a buffer.
fn push_pages(writes: &mut Vec<Write>, a: &Addresses, base: u64)
    requires
        a.links_ok(),
        base % 0x4000 == 0,
        base + POOL_PAGES * 0x4000 <= u64::MAX,
    ensures
        plan::stored(final(writes)@) == plan::stored(old(writes)@) + bootmap::page_stores(
            *a,
            base,
            POOL_PAGES as nat,
        ),
{
    let ghost before = plan::stored(writes@);
    let mut i: u64 = 0;
    assert(before + Seq::<plan::Stored>::empty() =~= before);
    while i < POOL_PAGES
        invariant
            i <= POOL_PAGES,
            a.links_ok(),
            base % 0x4000 == 0,
            base + POOL_PAGES * 0x4000 <= u64::MAX,
            plan::stored(writes@) == before + bootmap::page_stores(*a, base, i as nat),
        decreases POOL_PAGES - i,
    {
        let va: u64 = base + i * 0x4000;
        let mut page: Vec<u8> = zeroed(0x4000);
        let filled: Option<()> = a.private_page(va, page.as_mut_slice());
        assert(filled is Some);
        push_write(writes, va, page.as_slice(), false);
        i += 1;
        assert(plan::stored(writes@) =~= before + bootmap::page_stores(*a, base, i as nat));
    }
}

/// Whether a client shows the first `n` pages of the page list of a buffer, and else what it did.
pub open spec fn client_shows(
    c0: AddressSpace,
    m0: TableMemory,
    firmware: FirmwareSpace,
    c: AddressSpace,
    m: TableMemory,
    base: int,
    n: int,
) -> bool {
    forall|q: int|
        tables::in_tree(q) ==> #[trigger] c.entry(m, q) == fwshare::shown_entry(
            firmware,
            m,
            pool_pages(base),
            n,
            q,
            c0.entry(m0, q),
        )
}

impl Tvb {
    /// Whether this is the buffer of a client before its first render.
    pub open spec fn is_new(self, root: u64, base: int, slot: u64) -> bool {
        &&& self.root == root
        &&& self.addresses == tvb::placed(base, slot)
        &&& !self.initialized
        &&& self.blocks == 11
        &&& self.counter == 0
        &&& self.submissions == 0
        &&& !self.refused
        &&& forall|i: int| 0 <= i < 36 ==> !(#[trigger] self.scenes@[i])
    }
}

impl Session {
    /// Whether a client has a buffer.
    pub open spec fn has_pool(self, root: u64) -> bool {
        exists|i: int| 0 <= i < self.tvb_pools@.len() && (#[trigger] self.tvb_pools@[i]).root == root
    }

    /// Whether the buffers end well below the end of the addresses, as they do where they are handed out.
    pub open spec fn pools_placed(self) -> bool {
        forall|i: int|
            0 <= i < self.tvb_pools@.len() ==> (#[trigger] self.tvb_pools@[i]).addresses.buffer_thing
                <= 0xffff_ffff_ffff_0000
    }

    /// Gives a client a buffer, where it has none. Answers what is to be stored for the firmware. Where this
    /// fails, the addresses of the buffer are lost.
    pub fn open_pool(
        &mut self,
        client: &mut AddressSpace,
        firmware: &mut FirmwareSpace,
        mem: &mut TableMemory,
        frames: &mut Vec<u64>,
        support: &Support,
    ) -> (out: Result<Vec<Write>, Error>)
        requires
            support.wf(),
            old(self).works.next % 0x4000 == 0,
            old(client).wf(*old(mem)),
            old(firmware).wf(*old(mem)),
            fwshare::beside(*old(client), *old(firmware), *old(mem)),
            space::frames_ok(old(frames)@),
        ensures
            final(client).wf(*final(mem)),
            final(firmware).wf(*final(mem)),
            fwshare::beside(*final(client), *final(firmware), *final(mem)),
            final(client).same_roots(*old(client)),
            final(client).pages@ == old(client).pages@,
            final(firmware).keeps(*old(firmware)),
            final(firmware).external@ == old(firmware).external@,
            old(firmware).queue_ok() ==> final(firmware).queue_ok(),
            old(self).pools_placed() ==> final(self).pools_placed(),
            space::frames_ok(final(frames)@),
            *final(self) == (Session {
                works: final(self).works,
                tvb_pools: final(self).tvb_pools,
                ..*old(self)
            }),
            ({
                let root = old(client).low.ttb;
                let base = old(self).works.next;
                let slot = (7 + support.index) as u64;
                if old(self).has_pool(root) {
                    &&& out is Ok
                    &&& out->Ok_0@.len() == 0
                    &&& *final(self) == *old(self)
                    &&& *final(client) == *old(client)
                    &&& *final(firmware) == *old(firmware)
                    &&& *final(mem) == *old(mem)
                    &&& final(frames)@ == old(frames)@
                } else if base + POOL_SIZE > u64::MAX {
                    &&& out is Err
                    &&& out->Err_0 == Error::ENOSPC
                    &&& *final(self) == *old(self)
                    &&& *final(client) == *old(client)
                    &&& *final(firmware) == *old(firmware)
                    &&& *final(mem) == *old(mem)
                } else {
                    &&& final(self).works == (Works {
                        next: (base + POOL_SIZE) as u64,
                        ..old(self).works
                    })
                    &&& match out {
                        Ok(writes) => {
                            &&& plan::stored(writes@) == pool_stores(base as int, slot)
                            &&& final(self).tvb_pools@.len() == old(self).tvb_pools@.len() + 1
                            &&& final(self).tvb_pools@.drop_last() == old(self).tvb_pools@
                            &&& final(self).tvb_pools@.last().is_new(root, base as int, slot)
                            &&& final(frames)@ == old(frames)@.take(old(frames)@.len() - POOL_PAGES)
                            &&& old(firmware).list_free(*old(mem), pool_regions(base as int), 3)
                            &&& final(firmware).shows_all(*final(mem), pool_regions(base as int), 3)
                            &&& client_shows(
                                *old(client),
                                *old(mem),
                                *final(firmware),
                                *final(client),
                                *final(mem),
                                base as int,
                                7,
                            )
                        },
                        Err(e) => {
                            &&& final(self).tvb_pools@ == old(self).tvb_pools@
                            &&& {
                                ||| {
                                    &&& *final(client) == *old(client)
                                    &&& exists|k: int|
                                        {
                                            &&& #[trigger] final(firmware).stops_at(
                                                *final(mem),
                                                final(frames)@,
                                                old(mem).free@.len() as int,
                                                pool_regions(base as int),
                                                k,
                                                e,
                                            )
                                            &&& final(frames)@ == old(frames)@.take(
                                                old(frames)@.len() - provision::pages_of(pool_regions(base as int), k),
                                            )
                                        }
                                }
                                ||| {
                                    &&& old(firmware).list_free(*old(mem), pool_regions(base as int), 3)
                                    &&& final(firmware).shows_all(
                                        *final(mem),
                                        pool_regions(base as int),
                                        3,
                                    )
                                    &&& final(frames)@ == old(frames)@.take(
                                        old(frames)@.len() - POOL_PAGES,
                                    )
                                    &&& exists|i: int|
                                        {
                                            &&& #[trigger] client_shows(
                                                *old(client),
                                                *old(mem),
                                                *final(firmware),
                                                *final(client),
                                                *final(mem),
                                                base as int,
                                                i,
                                            )
                                            &&& 0 <= i < 7
                                            &&& if fwshare::frame_behind(
                                                *final(firmware),
                                                *final(mem),
                                                pool_pages(base as int)[i].1,
                                            ) is None {
                                                e == Error::EINVAL
                                            } else {
                                                e == Error::ENOMEM && old(mem).free@.len() < 2 * (
                                                POOL_PAGES + 7)
                                            }
                                        }
                                }
                            }
                        },
                    }
                }
            }),
    {
        let ghost c0 = *client;
        let ghost f0 = *firmware;
        let ghost m0 = *mem;
        let ghost pools = self.tvb_pools@;
        let mut writes: Vec<Write> = Vec::new();
        let root: u64 = client.roots().low;
        proof {
            provision::lemma_keeps_itself(*firmware);
        }
        let base: u64 = match self.claim_pool(root) {
            Err(e) => {
                return Err(e);
            },
            Ok(None) => {
                return Ok(writes);
            },
            Ok(Some(base)) => base,
        };
        let slot: u64 = support.buffer_slot();
        let list: [Region; 3] = Tvb::regions(base);
        let mut regions: Vec<Region> = Vec::new();
        regions.push(list[0]);
        regions.push(list[1]);
        regions.push(list[2]);
        proof {
            assert(regions@ =~= pool_regions(base as int));
            reveal_with_fuel(provision::pages_of, 4);
            assert(provision::pages_of(regions@, 3) == POOL_PAGES);
        }
        match firmware.allocate_all(mem, frames, &regions) {
            Err(e) => {
                proof {
                    fwshare::lemma_client_beside(f0, m0, *firmware, *mem, c0);
                }
                return Err(e);
            },
            Ok(()) => {},
        }
        let ghost f1 = *firmware;
        let ghost m1 = *mem;
        proof {
            fwshare::lemma_client_beside(f0, m0, f1, m1, c0);
        }
        let aliases: [(u64, u64); 7] = Tvb::aliases(base);
        let mut pages: Vec<(u64, u64)> = Vec::new();
        let mut i: usize = 0;
        while i < 7
            invariant
                i <= 7,
                pages@ == aliases@.take(i as int),
            decreases 7 - i,
        {
            pages.push(aliases[i]);
            i += 1;
            assert(pages@ =~= aliases@.take(i as int));
        }
        proof {
            assert(pages@ =~= pool_pages(base as int));
        }
        let shown = show_pages(client, firmware, mem, &pages);
        proof {
            f1.lemma_region_stays(m1, *firmware, *mem, regions@);
            assert forall|j: int| 0 <= j < f0.regions@.len() implies firmware.regions@.contains(
                #[trigger] f0.regions@[j],
            ) by {
                assert(f1.regions@.contains(f0.regions@[j]));
            }
        }
        match shown {
            Err(e) => {
                proof {
                    let k = choose|k: int|
                        {
                            &&& 0 <= k <= pages@.len()
                            &&& #[trigger] fwshare::shown_upto(c0, f1, m1, *client, *mem, pages@, k)
                            &&& k < pages@.len()
                            &&& if fwshare::frame_behind(f1, m1, pages@[k].1) is None {
                                e == Error::EINVAL
                            } else {
                                e == Error::ENOMEM && m1.free@.len() < 2 * (k + 1)
                            }
                        };
                    fwshare::lemma_same_frames(f1, m1, *firmware, *mem, pages@[k].1);
                    assert(pool_pages(base as int)[k] == pages@[k]);
                    assert forall|q: int| tables::in_tree(q) implies #[trigger] client.entry(*mem, q)
                        == fwshare::shown_entry(
                        *firmware,
                        *mem,
                        pool_pages(base as int),
                        k,
                        q,
                        c0.entry(m0, q),
                    ) by {
                        assert(c0.entry(m1, q) == c0.entry(m0, q));
                        fwshare::lemma_same_shown(f1, m1, *firmware, *mem, pages@, k, q, c0.entry(m0, q));
                    }
                    assert(client_shows(c0, m0, *firmware, *client, *mem, base as int, k));
                }
                return Err(e);
            },
            Ok(()) => {},
        }
        proof {
            assert(fwshare::shown_upto(c0, f1, m1, *client, *mem, pages@, 7));
            assert forall|q: int| tables::in_tree(q) implies #[trigger] client.entry(*mem, q)
                == fwshare::shown_entry(
                *firmware,
                *mem,
                pool_pages(base as int),
                7,
                q,
                c0.entry(m0, q),
            ) by {
                assert(c0.entry(m1, q) == c0.entry(m0, q));
                fwshare::lemma_same_shown(f1, m1, *firmware, *mem, pages@, 7, q, c0.entry(m0, q));
            }
        }
        let a: Addresses = Tvb::place(base, slot);
        push_pages(&mut writes, &a, base);
        let (va, descriptor): (u64, [u8; 16]) = Tvb::descriptor(slot);
        push_write(&mut writes, va, &descriptor, true);
        self.tvb_pools.push(Tvb::new(root, base, slot));
        proof {
            assert(plan::stored(writes@) =~= pool_stores(base as int, slot));
            assert(self.tvb_pools@.drop_last() =~= pools);
            assert forall|i: int| old(self).pools_placed() && 0 <= i < self.tvb_pools@.len() implies (
            #[trigger] self.tvb_pools@[i]).addresses.buffer_thing <= 0xffff_ffff_ffff_0000 by {
                if i < pools.len() {
                    assert(self.tvb_pools@[i] == pools[i]);
                }
            }
        }
        Ok(writes)
    }
}

} // verus!
