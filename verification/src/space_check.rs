//! Bring-up checks of a client root, before it is made visible to the firmware.
use crate::error::Error;
use crate::pgtable;
use crate::pgtable::UatPageTable;
use crate::prot;
use crate::space;
use crate::space::{AddressSpace, IAS, OAS, USC_BASE};
use crate::tables;
use crate::tables::{TableMemory, Tree, ENTRIES};
use crate::walk;
use crate::walk::Edit;
use vstd::prelude::*;

verus! {

/// Whether a page address can be mapped by a client.
pub open spec fn is_frame(frame: u64) -> bool {
    tables::frame_of(frame, 0x3ff_ffff_ffff) == frame
}

/// An entry that maps a frame with the rights of shared client memory.
pub open spec fn shared_entry(frame: u64) -> u64 {
    frame | AddressSpace::bits(prot::prot_gpu_shared_rw())
}

/// A shared mapping of a frame is valid and names it.
proof fn lemma_shared_entry(frame: u64)
    requires
        is_frame(frame),
    ensures
        tables::is_valid(shared_entry(frame)),
        tables::frame_of(shared_entry(frame), 0x3ff_ffff_ffff) == frame,
        frame % 0x4000 == 0,
        frame <= 0x3ff_ffff_c000,
{
    prot::lemma_mapping_frame(frame, prot::prot_gpu_shared_rw(), 0x803, 0x3ff_ffff_ffff);
    space::lemma_frame_aligned(frame);
}

impl AddressSpace {
    /// Removes the mapping of one page below the low root.
    fn unmap_page(&mut self, mem: &mut TableMemory, v: u64)
        requires
            old(self).wf(*old(mem)),
            v % 0x4000 == 0,
            v + 0x4000 <= 0x400_0000_0000,
        ensures
            final(self).wf(*final(mem)),
            final(self).same_but_walked(*old(self)),
            final(self).high.tree(*final(mem)).same_values(old(self).high.tree(*old(mem))),
            final(mem).free@ == old(mem).free@,
            forall|q: int|
                tables::in_tree(q) ==> #[trigger] final(self).entry(*final(mem), q) == if q == v as int
                    / 0x4000 {
                    0
                } else {
                    old(self).entry(*old(mem), q)
                },
    {
        let ghost s0 = *self;
        let ghost m0 = *mem;
        proof {
            space::lemma_single_page(self.low, v);
        }
        let done = self.low.unmap_pages(mem, v..v + 0x4000);
        proof {
            let t0 = s0.low.tree(m0);
            let t = self.low.tree(*mem);
            let lo = v as int / 0x4000;
            space::lemma_other_kept(s0.low, m0, self.low, *mem, self.high);
            pgtable::lemma_kept_grown(s0.low, m0, self.low, *mem);
            assert(space::unblocked(self.high.tree(*mem))) by {
                assert forall|q: int| tables::in_tree(q) implies !(#[trigger] self.high.tree(
                    *mem,
                ).blocked(q)) by {
                    assert(!s0.high.tree(m0).blocked(q));
                }
            }
            assert(space::unblocked(t)) by {
                assert forall|q: int| tables::in_tree(q) implies !(#[trigger] t.blocked(q)) by {
                    assert(!t0.blocked(q));
                }
            }
            assert forall|q: int| tables::in_tree(q) implies #[trigger] self.entry(*mem, q) == if q
                == lo {
                0
            } else {
                s0.entry(m0, q)
            } by {
                assert(t.value(q) == if lo <= q < lo + 1 && walk::visited(t0, false, q) {
                    walk::edited(Edit::Clear, walk::visits(t0, false, lo, q), t0.value(q))
                } else {
                    t0.value(q)
                });
            }
        }
    }

    /// Whether an address below the low root translates to a given one.
    pub(crate) fn translates(&mut self, mem: &mut TableMemory, iova: u64, expected: Option<u64>) -> (out: bool)
        requires
            old(self).wf(*old(mem)),
            iova < 0x400_0000_0000,
        ensures
            final(self).wf(*final(mem)),
            final(self).same_but_walked(*old(self)),
            final(mem).map() == old(mem).map(),
            final(mem).free@ == old(mem).free@,
            forall|q: int| #[trigger] final(self).entry(*final(mem), q) == old(self).entry(
                *old(mem),
                q,
            ),
            out == (expected == entry_target(
                old(self).entry(*old(mem), iova as int / 0x4000),
                iova,
            )),
    {
        let ghost s0 = *self;
        let ghost m0 = *mem;
        proof {
            space::lemma_client_page(self.low, iova);
        }
        let found = self.low.translate(mem, iova);
        proof {
            space::lemma_high_same(self.high, m0, *mem);
            assert(self.low.tree(*mem) == s0.low.tree(m0));
            assert(self.high.tree(*mem) == s0.high.tree(m0));
        }
        match (found, expected) {
            (Ok(Some(a)), Some(b)) => a == b,
            (Ok(None), None) => true,
            _ => false,
        }
    }

    /// Checks that addresses on both sides of the shader base are told apart. A mask that is too
    /// narrow would alias the two addresses exercised here, and corrupt client data silently.
    #[verifier::rlimit(30)]
    pub fn check_geometry(&mut self, mem: &mut TableMemory, a: u64, b: u64) -> (out: Result<(), Error>)
        requires
            old(self).wf(*old(mem)),
            is_frame(a),
            is_frame(b),
        ensures
            final(self).wf(*final(mem)),
            final(self).low.same_root(old(self).low),
            final(self).high.same_root(old(self).high),
            final(self).compute_scratch == old(self).compute_scratch,
            final(self).render_scratch == old(self).render_scratch,
            final(self).pages@ == old(self).pages@,
            final(self).high.tree(*final(mem)).same_values(old(self).high.tree(*old(mem))),
            out is Ok ==> !tables::is_valid(old(self).high.tree(*old(mem)).value(0x400_0001)),
            out is Err ==> (out->Err_0 == Error::ENOMEM && old(mem).free@.len() < 4) || (
            out->Err_0 == Error::EIO && tables::is_valid(
                old(self).high.tree(*old(mem)).value(0x400_0001),
            )),
            forall|q: int|
                tables::in_tree(q) && q != 1 && q != 0x400_0001 ==> #[trigger] final(self).entry(
                    *final(mem),
                    q,
                ) == old(self).entry(*old(mem), q),
            match out {
                Err(Error::ENOMEM) => {
                    &&& final(self).entry(*final(mem), 1) == 0 || final(self).entry(*final(mem), 1)
                        == old(self).entry(*old(mem), 1)
                    &&& final(self).entry(*final(mem), 0x400_0001) == old(self).entry(
                        *old(mem),
                        0x400_0001,
                    )
                },
                _ => {
                    &&& final(self).entry(*final(mem), 1) == 0
                    &&& final(self).entry(*final(mem), 0x400_0001) == 0
                },
            },
    {
        let ghost s0 = *self;
        let ghost m0 = *mem;
        let low: u64 = 0x4000;
        let usc: u64 = USC_BASE + low;
        proof {
            lemma_shared_entry(a);
            lemma_shared_entry(b);
            tables::lemma_zero_bits();
            assert(tables::in_tree(1) && tables::in_tree(0x400_0001));
        }
        match self.map_page(mem, low, a, prot::prot_gpu_shared_rw()) {
            Err(e) => {
                return Err(e);
            },
            Ok(_) => {},
        }
        let ghost s1 = *self;
        let ghost m1 = *mem;
        match self.map_page(mem, usc, b, prot::prot_gpu_shared_rw()) {
            Err(e) => {
                self.unmap_page(mem, low);
                proof {
                    lemma_values_trans(
                        self.high.tree(*mem),
                        s1.high.tree(m1),
                        s0.high.tree(m0),
                    );
                }
                return Err(e);
            },
            Ok(_) => {},
        }
        let ghost s2 = *self;
        let ghost m2 = *mem;
        proof {
            lemma_values_trans(s2.high.tree(m2), s1.high.tree(m1), s0.high.tree(m0));
            assert(s2.entry(m2, 1) == shared_entry(a));
            assert(s2.entry(m2, 0x400_0001) == shared_entry(b));
            space::lemma_client_page(s2.high, usc);
        }
        let near: bool = self.translates(mem, low + 37, Some(a + 37));
        let far: bool = self.translates(mem, usc + 91, Some(b + 91));
        let ghost s3 = *self;
        let ghost m3 = *mem;
        assert(s3.high.tree(m3) == s2.high.tree(m2));
        let high = self.high.translate(mem, usc);
        proof {
            space::lemma_high_same(self.low, m3, *mem);
            assert(self.low.tree(*mem) == s3.low.tree(m3));
            assert(self.high.tree(*mem) == s3.high.tree(m3));
            assert(s3.high.tree(m3).value(0x400_0001) == s0.high.tree(m0).value(0x400_0001));
        }
        let clear: bool = match high {
            Ok(None) => true,
            _ => false,
        };
        let mut good: bool = near && far && clear;
        let ghost s4 = *self;
        let ghost m4 = *mem;
        assert(near && far);
        assert forall|q: int| tables::in_tree(q) implies #[trigger] s4.entry(m4, q) == s2.entry(
            m2,
            q,
        ) by {}
        if good {
            self.unmap_page(mem, usc);
            proof {
                lemma_values_trans(self.high.tree(*mem), s4.high.tree(m4), s0.high.tree(m0));
            }
            let gone: bool = self.translates(mem, usc, None);
            let kept: bool = self.translates(mem, low, Some(a));
            assert(gone && kept);
            good = gone && kept;
        }
        let ghost s5 = *self;
        let ghost m5 = *mem;
        assert(s5.high.tree(m5).same_values(s0.high.tree(m0)));
        // Remove both mappings on all paths before their backing pages go.
        if !self.translates(mem, usc, None) {
            self.unmap_page(mem, usc);
        }
        let ghost s6 = *self;
        let ghost m6 = *mem;
        assert(s6.high.tree(m6).same_values(s0.high.tree(m0))) by {
            lemma_values_trans(s6.high.tree(m6), s5.high.tree(m5), s0.high.tree(m0));
        }
        self.unmap_page(mem, low);
        proof {
            lemma_values_trans(self.high.tree(*mem), s6.high.tree(m6), s0.high.tree(m0));
            if good {
                assert(s5.entry(m5, 0x400_0001) == 0);
            }
        }
        if good {
            Ok(())
        } else {
            Err(Error::EIO)
        }
    }
}

/// An entry of a borrowed root that maps a frame with the rights of shared client memory.
pub open spec fn borrowed_entry(frame: u64) -> u64 {
    frame | (prot::pte_of(prot::prot_gpu_shared_rw()) | 3)
}

/// Maps one page below a borrowed root.
fn lend_map(
    b: &mut UatPageTable,
    mem: &mut TableMemory,
    v: u64,
    frame: u64,
    Ghost(t1): Ghost<Tree>,
    Ghost(m1): Ghost<TableMemory>,
) -> (out: Result<(), Error>)
    requires
        lent(t1, m1, *old(b), *old(mem)),
        t1.tables == m1.map(),
        v % 0x4000 == 0,
        v + 0x4000 <= 0x400_0000_0000,
        is_frame(frame),
    ensures
        lent(t1, m1, *final(b), *final(mem)),
        out is Err ==> out->Err_0 == Error::ENOMEM && old(mem).free@.len() < 2,
        final(mem).free@.len() + 2 >= old(mem).free@.len(),
        forall|q: int|
            tables::in_tree(q) ==> #[trigger] final(b).tree(*final(mem)).value(q) == if out is Ok && q
                == v as int / 0x4000 {
                borrowed_entry(frame)
            } else {
                old(b).tree(*old(mem)).value(q)
            },
{
    let ghost b0 = *b;
    let ghost m0 = *mem;
    proof {
        space::lemma_frame_aligned(frame);
        space::lemma_single_page(*b, v);
        let lo = b.first_page(v);
        walk::lemma_visits_monotone(b.tree(*mem), true, lo, lo, lo + 1);
        reveal_with_fuel(walk::needed, 2);
    }
    let out = b.map_pages(mem, v..v + 0x4000, frame, prot::prot_gpu_shared_rw(), false);
    proof {
        space::lemma_walk_unblocked(
            b0,
            m0,
            *b,
            *mem,
            v,
            frame,
            prot::prot_gpu_shared_rw(),
            out,
        );
        lemma_lent_walk(t1, m1, b0, m0, *b, *mem);
    }
    out
}

/// Removes the mapping of one page below a borrowed root.
fn lend_unmap(
    b: &mut UatPageTable,
    mem: &mut TableMemory,
    v: u64,
    Ghost(t1): Ghost<Tree>,
    Ghost(m1): Ghost<TableMemory>,
)
    requires
        lent(t1, m1, *old(b), *old(mem)),
        t1.tables == m1.map(),
        v % 0x4000 == 0,
        v + 0x4000 <= 0x400_0000_0000,
    ensures
        lent(t1, m1, *final(b), *final(mem)),
        forall|q: int|
            tables::in_tree(q) ==> #[trigger] final(b).tree(*final(mem)).value(q) == if q == v as int
                / 0x4000 {
                0
            } else {
                old(b).tree(*old(mem)).value(q)
            },
{
    let ghost b0 = *b;
    let ghost m0 = *mem;
    proof {
        space::lemma_single_page(*b, v);
    }
    let done = b.unmap_pages(mem, v..v + 0x4000);
    proof {
        let t0 = b0.tree(m0);
        let t = b.tree(*mem);
        let lo = v as int / 0x4000;
        assert(space::unblocked(t)) by {
            assert forall|q: int| tables::in_tree(q) implies !(#[trigger] t.blocked(q)) by {
                assert(!t0.blocked(q));
            }
        }
        assert forall|q: int| tables::in_tree(q) implies #[trigger] t.value(q) == if q == lo {
            0
        } else {
            t0.value(q)
        } by {
            assert(t.value(q) == if lo <= q < lo + 1 && walk::visited(t0, false, q) {
                walk::edited(Edit::Clear, walk::visits(t0, false, lo, q), t0.value(q))
            } else {
                t0.value(q)
            });
        }
        lemma_lent_walk(t1, m1, b0, m0, *b, *mem);
    }
}

/// Whether an address below a borrowed root translates to a given one.
fn lend_translates(
    b: &mut UatPageTable,
    mem: &mut TableMemory,
    iova: u64,
    expected: u64,
    Ghost(t1): Ghost<Tree>,
    Ghost(m1): Ghost<TableMemory>,
) -> (out: bool)
    requires
        lent(t1, m1, *old(b), *old(mem)),
        iova < 0x400_0000_0000,
    ensures
        lent(t1, m1, *final(b), *final(mem)),
        final(b).tree(*final(mem)) == old(b).tree(*old(mem)),
        out == (entry_target(old(b).tree(*old(mem)).value(iova as int / 0x4000), iova) == Some(
            expected,
        )),
{
    let ghost b0 = *b;
    let ghost m0 = *mem;
    proof {
        space::lemma_client_page(*b, iova);
    }
    let found = b.translate(mem, iova);
    assert(b.tree(*mem) == b0.tree(m0));
    assert(pgtable::added_listed(m1, *mem, b.owned_tables@)) by {
        assert forall|x: u64| #[trigger] mem.map().contains_key(x) implies m1.map().contains_key(x)
            || pgtable::listed(b.owned_tables@, x) by {
            assert(m0.map().contains_key(x));
        }
    }
    match found {
        Ok(Some(address)) => address == expected,
        _ => false,
    }
}

/// A mapping below a borrowed root is valid and names its frame.
proof fn lemma_borrowed_entry(frame: u64)
    requires
        is_frame(frame),
    ensures
        tables::is_valid(borrowed_entry(frame)),
        tables::frame_of(borrowed_entry(frame), 0x3ff_ffff_ffff) == frame,
{
    prot::lemma_mapping_frame(frame, prot::prot_gpu_shared_rw(), 3, 0x3ff_ffff_ffff);
}

impl AddressSpace {
    /// Checks that a borrower of this root can extend it and return it: what was mapped before stays
    /// mapped, and what the borrower added is gone. Where tables run out on the way, the page that the
    /// borrower put into a table of the lender may stay.
    pub fn check_borrowed_root(&mut self, mem: &mut TableMemory, a: u64, b: u64) -> (out: Result<
        (),
        Error,
    >)
        requires
            old(self).wf(*old(mem)),
            is_frame(a),
            is_frame(b),
        ensures
            final(self).wf(*final(mem)),
            final(self).same_roots(*old(self)),
            final(self).pages@ == old(self).pages@,
            final(self).high.tree(*final(mem)).same_values(old(self).high.tree(*old(mem))),
            out is Err ==> out->Err_0 == Error::ENOMEM && old(mem).free@.len() < 6,
            forall|q: int|
                tables::in_tree(q) && q != 1 && q != 2 && q != 0x40_0000 ==> #[trigger] final(self).entry(*final(mem), q) == old(self).entry(*old(mem), q),
            match out {
                Ok(_) => {
                    &&& final(self).entry(*final(mem), 1) == 0
                    &&& final(self).entry(*final(mem), 2) == 0
                    &&& final(self).entry(*final(mem), 0x40_0000) == 0
                },
                Err(_) => {
                    &&& final(self).entry(*final(mem), 1) == 0 || final(self).entry(*final(mem), 1)
                        == old(self).entry(*old(mem), 1)
                    &&& final(self).entry(*final(mem), 2) == old(self).entry(*old(mem), 2)
                        || final(self).entry(*final(mem), 2) == borrowed_entry(b)
                    &&& final(self).entry(*final(mem), 0x40_0000) == old(self).entry(
                        *old(mem),
                        0x40_0000,
                    )
                },
            },
    {
        let ghost s0 = *self;
        let ghost m0 = *mem;
        assert(tables::in_tree(1) && tables::in_tree(2) && tables::in_tree(0x40_0000));
        match self.map_page(mem, 0x4000, a, prot::prot_gpu_shared_rw()) {
            Err(e) => {
                return Err(e);
            },
            Ok(_) => {},
        }
        let ghost s1 = *self;
        let ghost m1 = *mem;
        let result = self.borrow_and_return(mem, a, b);
        let ghost s2 = *self;
        let ghost m2 = *mem;
        self.unmap_page(mem, 0x4000);
        proof {
            lemma_values_trans(s2.high.tree(m2), s1.high.tree(m1), s0.high.tree(m0));
            lemma_values_trans(self.high.tree(*mem), s2.high.tree(m2), s0.high.tree(m0));
        }
        result
    }

    /// Borrows the low root, extends it, and gives back what was added.
    #[verifier::rlimit(60)]
    fn borrow_and_return(&mut self, mem: &mut TableMemory, a: u64, b: u64) -> (out: Result<(), Error>)
        requires
            old(self).wf(*old(mem)),
            is_frame(a),
            is_frame(b),
            old(self).entry(*old(mem), 1) == shared_entry(a),
        ensures
            final(self).wf(*final(mem)),
            final(self).same_roots(*old(self)),
            final(self).pages@ == old(self).pages@,
            final(self).high.tree(*final(mem)).same_values(old(self).high.tree(*old(mem))),
            out is Err ==> out->Err_0 == Error::ENOMEM && old(mem).free@.len() < 4,
            forall|q: int|
                tables::in_tree(q) && q != 2 && q != 0x40_0000 ==> #[trigger] final(self).entry(
                    *final(mem),
                    q,
                ) == old(self).entry(*old(mem), q),
            match out {
                Ok(_) => {
                    &&& final(self).entry(*final(mem), 2) == 0
                    &&& final(self).entry(*final(mem), 0x40_0000) == 0
                },
                Err(_) => {
                    &&& final(self).entry(*final(mem), 2) == old(self).entry(*old(mem), 2)
                        || final(self).entry(*final(mem), 2) == borrowed_entry(b)
                    &&& final(self).entry(*final(mem), 0x40_0000) == old(self).entry(
                        *old(mem),
                        0x40_0000,
                    )
                },
            },
    {
        let ghost s1 = *self;
        let ghost m1 = *mem;
        let ghost t1 = self.low.tree(*mem);
        let far: u64 = 0x10_0000_0000;
        proof {
            vstd::arithmetic::power2::lemma2_to64_rest();
            lemma_shared_entry(a);
            lemma_shared_entry(b);
            lemma_borrowed_entry(b);
            tables::lemma_zero_bits();
            assert(tables::in_tree(1) && tables::in_tree(2) && tables::in_tree(0x40_0000));
        }
        let mut borrowed = match UatPageTable::new_with_ttb_and_ias(
            mem,
            self.low.ttb(),
            0..0x400_0000_0000,
            OAS,
            IAS,
        ) {
            Err(e) => {
                return Err(e);
            },
            Ok(borrowed) => borrowed,
        };
        proof {
            walk::lemma_framed_refl(t1);
            assert(borrowed.tree(*mem) == t1);
            assert(lent(t1, m1, borrowed, *mem));
        }
        // Extend both an existing leaf table and an empty top-level slot.
        match lend_map(&mut borrowed, mem, 0x8000, b, Ghost(t1), Ghost(m1)) {
            Err(e) => {
                let ghost m2 = *mem;
                let ghost gb = borrowed;
                borrowed.release(mem);
                proof {
                    self.lemma_after_return(s1, m1, gb, m2, *mem);
                }
                return Err(e);
            },
            Ok(_) => {},
        }
        match lend_map(&mut borrowed, mem, far, b, Ghost(t1), Ghost(m1)) {
            Err(e) => {
                let ghost m2 = *mem;
                let ghost gb = borrowed;
                borrowed.release(mem);
                proof {
                    self.lemma_after_return(s1, m1, gb, m2, *mem);
                }
                return Err(e);
            },
            Ok(_) => {},
        }
        assert(borrowed.tree(*mem).value(1) == shared_entry(a));
        assert(borrowed.tree(*mem).value(2) == borrowed_entry(b));
        assert(borrowed.tree(*mem).value(0x40_0000) == borrowed_entry(b));
        let first: bool = lend_translates(&mut borrowed, mem, 0x4000, a, Ghost(t1), Ghost(m1));
        let second: bool = lend_translates(&mut borrowed, mem, 0x8000, b, Ghost(t1), Ghost(m1));
        let third: bool = lend_translates(&mut borrowed, mem, far, b, Ghost(t1), Ghost(m1));
        assert(first && second && third);
        lend_unmap(&mut borrowed, mem, 0x8000, Ghost(t1), Ghost(m1));
        lend_unmap(&mut borrowed, mem, far, Ghost(t1), Ghost(m1));
        let ghost m2 = *mem;
        let ghost gb = borrowed;
        borrowed.release(mem);
        proof {
            self.lemma_after_return(s1, m1, gb, m2, *mem);
            assert(self.entry(*mem, 1) == shared_entry(a)) by {
                assert(gb.tree(m2).value(1) == shared_entry(a));
                assert(t1.leaf_of(1) is Some);
            }
            assert(gb.tree(m2).value(2) == 0);
            assert(gb.tree(m2).value(0x40_0000) == 0);
        }
        let kept: bool = self.translates(mem, 0x4000, Some(a));
        let far_gone: bool = self.translates(mem, far, None);
        let near_gone: bool = self.translates(mem, 0x8000, None);
        assert(kept && far_gone && near_gone);
        assert(self.high.tree(*mem).same_values(s1.high.tree(m1)));
        if !(first && second && third) || !kept || !far_gone || !near_gone {
            return Err(Error::EIO);
        }
        Ok(())
    }

    /// The space after a borrower of its low root gave back what it had added.
    proof fn lemma_after_return(
        self,
        s1: AddressSpace,
        m1: TableMemory,
        b: UatPageTable,
        m2: TableMemory,
        m3: TableMemory,
    )
        requires
            s1.wf(m1),
            self == s1,
            lent(s1.low.tree(m1), m1, b, m2),
            m3.wf(),
            m3.free_ok(b.oas_mask),
            m3.free@ == m2.free@ + b.given_back(),
            forall|x: u64| #[trigger]
                m3.map().contains_key(x) == (m2.map().contains_key(x) && !b.given_back().contains(
                    x,
                )),
            forall|x: u64|
                #![trigger m3.map()[x]]
                m3.map().contains_key(x) && !b.tree(m2).holds(x) ==> m3.map()[x] == m2.map()[x],
            b.tree(m3).wf(),
            pgtable::unlinked(b.tree(m2), b.tree(m3), b.owned_tables@, 0),
            forall|q: int|
                tables::in_tree(q) && #[trigger] b.tree(m3).blocked(q) ==> b.tree(m2).blocked(q),
            forall|q: int|
                tables::in_tree(q) ==> #[trigger] b.tree(m3).value(q) == if UatPageTable::dropped(
                    b.tree(m2),
                    b.owned_tables@,
                    0,
                    q,
                ) {
                    0
                } else {
                    b.tree(m2).value(q)
                },
        ensures
            self.wf(m3),
            self.high.tree(m3).same_values(s1.high.tree(m1)),
            forall|q: int|
                tables::in_tree(q) ==> #[trigger] self.entry(m3, q) == if s1.low.tree(m1).leaf_of(q)
                    is Some {
                    b.tree(m2).value(q)
                } else {
                    0
                },
            forall|q: int|
                tables::in_tree(q) && b.tree(m2).value(q) == s1.entry(m1, q) ==> #[trigger] self.entry(
                    m3,
                    q,
                ) == s1.entry(m1, q),
    {
        let t1 = s1.low.tree(m1);
        let t3 = s1.low.tree(m3);
        lemma_returned(s1.low, m1, b, m2, m3);
        space::lemma_other_kept(s1.low, m1, s1.low, m3, s1.high);
        assert(space::unblocked(s1.high.tree(m3))) by {
            assert forall|q: int| tables::in_tree(q) implies !(#[trigger] s1.high.tree(m3).blocked(
                q,
            )) by {
                assert(!s1.high.tree(m1).blocked(q));
            }
        }
        assert(space::unblocked(t3)) by {
            assert forall|q: int| tables::in_tree(q) implies !(#[trigger] t3.blocked(q)) by {
                if t3.blocked(q) {
                    assert(b.tree(m3).blocked(q));
                    assert(b.tree(m2).blocked(q));
                }
            }
        }
        assert forall|q: int| tables::in_tree(q) implies #[trigger] self.entry(m3, q) == if t1.leaf_of(
            q,
        ) is Some {
            b.tree(m2).value(q)
        } else {
            0
        } by {
            assert(t3.value(q) == if t1.leaf_of(q) is Some {
                b.tree(m2).value(q)
            } else {
                0
            });
        }
    }
}

/// What holds of a root that was borrowed at `m1` and used since: it only extends what was there, and
/// every table it added is listed and new.
pub open spec fn lent(t1: Tree, m1: TableMemory, b: UatPageTable, m: TableMemory) -> bool {
    &&& b.wf(m)
    &&& !b.ttb_owned
    &&& space::client_geometry(b)
    &&& b.ttb == t1.root
    &&& walk::framed(t1, b.tree(m))
    &&& walk::extends(t1, b.tree(m))
    &&& space::unblocked(b.tree(m))
    &&& pgtable::added_listed(m1, m, b.owned_tables@)
    &&& forall|k: int|
        0 <= k < b.owned_tables@.len() ==> !m1.map().contains_key(
            (#[trigger] b.owned_tables@[k]).phys,
        )
}

/// A walk keeps a borrowed root as it should be.
proof fn lemma_lent_walk(
    t1: Tree,
    m1: TableMemory,
    b: UatPageTable,
    m: TableMemory,
    b2: UatPageTable,
    m2: TableMemory,
)
    requires
        lent(t1, m1, b, m),
        t1.tables == m1.map(),
        b.walk_kept(m, b2, m2),
        space::unblocked(b2.tree(m2)),
    ensures
        lent(t1, m1, b2, m2),
{
    let t = b.tree(m);
    let t2 = b2.tree(m2);
    let n = b.owned_tables@.len();
    walk::lemma_framed_trans(t1, t, t2);
    walk::lemma_extends_trans(t1, t, t2);
    assert forall|k: int| 0 <= k < b2.owned_tables@.len() implies !m1.map().contains_key(
        (#[trigger] b2.owned_tables@[k]).phys,
    ) by {
        if k < n {
            assert(b2.owned_tables@.take(n as int)[k] == b.owned_tables@[k]);
        } else {
            assert(b2.owned_tables@[n + (k - n)].phys == m.free@[m.free@.len() - 1 - (k - n)]);
            let x = m.free@[m.free@.len() - 1 - (k - n)];
            assert(!m.map().contains_key(x));
            assert(t1.tables.contains_key(x) ==> t.tables.contains_key(x));
        }
    }
    assert forall|x: u64| #[trigger] m2.map().contains_key(x) implies m1.map().contains_key(x)
        || pgtable::listed(b2.owned_tables@, x) by {
        if m.map().contains_key(x) && !m1.map().contains_key(x) {
            let k = choose|k: int|
                0 <= k < b.owned_tables@.len() && (#[trigger] b.owned_tables@[k]).phys == x;
            assert(b2.owned_tables@.take(n as int)[k] == b.owned_tables@[k]);
            assert(b2.owned_tables@[k].phys == x);
        }
    }
}

/// Returning a borrowed root leaves its owner with what was there before: same links, and every entry
/// of a page that had a leaf table as the borrower left it.
#[verifier::rlimit(40)]
proof fn lemma_returned(
    low: UatPageTable,
    m1: TableMemory,
    b: UatPageTable,
    m2: TableMemory,
    m3: TableMemory,
)
    requires
        low.wf(m1),
        space::client_root(low),
        lent(low.tree(m1), m1, b, m2),
        m3.wf(),
        m3.free_ok(b.oas_mask),
        m3.free@ == m2.free@ + b.given_back(),
        forall|x: u64| #[trigger]
            m3.map().contains_key(x) == (m2.map().contains_key(x) && !b.given_back().contains(x)),
        forall|x: u64|
            #![trigger m3.map()[x]]
            m3.map().contains_key(x) && !b.tree(m2).holds(x) ==> m3.map()[x] == m2.map()[x],
        b.tree(m3).wf(),
        pgtable::unlinked(b.tree(m2), b.tree(m3), b.owned_tables@, 0),
        forall|q: int|
            tables::in_tree(q) ==> #[trigger] b.tree(m3).value(q) == if UatPageTable::dropped(
                b.tree(m2),
                b.owned_tables@,
                0,
                q,
            ) {
                0
            } else {
                b.tree(m2).value(q)
            },
    ensures
        low.wf(m3),
        low.tree(m3).same_links(low.tree(m1)),
        walk::framed(low.tree(m1), low.tree(m3)),
        forall|q: int|
            tables::in_tree(q) ==> #[trigger] low.tree(m3).value(q) == if low.tree(m1).leaf_of(q)
                is Some {
                b.tree(m2).value(q)
            } else {
                0
            },
{
    let t1 = low.tree(m1);
    let t2 = b.tree(m2);
    let t3 = b.tree(m3);
    let owned = b.owned_tables@;
    let g = pgtable::given_back_from(owned, 0);
    assert(low.tree(m3) == t3);
    assert(b.given_back() == g);
    assert forall|x: u64| g.contains(x) == pgtable::listed(owned, x) by {
        if g.contains(x) {
            let k = choose|k: int| 0 <= k < g.len() && g[k] == x;
            assert(owned[owned.len() - 1 - k].phys == x);
        }
        if pgtable::listed(owned, x) {
            let k = choose|k: int| 0 <= k < owned.len() && (#[trigger] owned[k]).phys == x;
            assert(g[owned.len() - 1 - k] == x);
        }
    }
    assert forall|x: u64| m1.map().contains_key(x) implies !g.contains(x) by {
        if g.contains(x) {
            let k = choose|k: int| 0 <= k < owned.len() && (#[trigger] owned[k]).phys == x;
            assert(!m1.map().contains_key(owned[k].phys));
        }
    }
    assert forall|x: u64| #[trigger] m3.map().contains_key(x) == m1.map().contains_key(x) by {
        if m1.map().contains_key(x) {
            assert(t2.tables.contains_key(x));
        } else if m2.map().contains_key(x) {
            assert(pgtable::listed(owned, x));
        }
    }
    assert forall|i: int| 0 <= i < ENTRIES implies #[trigger] t3.l1(i) == t1.l1(i) by {
        assert(t3.l1(i) == if pgtable::gone(owned, 0, t2.l1(i)) {
            None
        } else {
            t2.l1(i)
        });
        if t1.l1(i) is Some {
            assert(t2.l1(i) == t1.l1(i));
            assert(t1.tables.contains_key(t1.l1(i)->0));
        } else if t2.l1(i) is Some {
            let x = t2.l1(i)->0;
            assert(t2.tables.contains_key(x));
            if m1.map().contains_key(x) {
                assert(t2.holds(x));
                assert(t1.holds(x));
                lemma_new_link_new(t1, t2, i, -1, x);
            } else {
                assert(pgtable::listed(owned, x));
            }
        }
    }
    assert forall|i: int, j: int| 0 <= i < ENTRIES && 0 <= j < ENTRIES implies #[trigger] t3.leaf(
        i,
        j,
    ) == t1.leaf(i, j) by {
        assert(t3.leaf(i, j) == if pgtable::gone(owned, 0, t2.l1(i)) || pgtable::gone(
            owned,
            0,
            t2.leaf(i, j),
        ) {
            None
        } else {
            t2.leaf(i, j)
        });
        assert(t3.l1(i) == t1.l1(i));
        if t1.leaf(i, j) is Some {
            assert(t2.leaf(i, j) == t1.leaf(i, j));
            assert(t1.tables.contains_key(t1.leaf(i, j)->0));
            assert(t1.l1(i) is Some);
            assert(t2.l1(i) == t1.l1(i));
            assert(t1.tables.contains_key(t1.l1(i)->0));
        } else if t2.leaf(i, j) is Some {
            let x = t2.leaf(i, j)->0;
            assert(t2.tables.contains_key(x));
            if m1.map().contains_key(x) {
                assert(t2.holds(x));
                assert(t1.holds(x));
                lemma_new_link_new(t1, t2, i, j, x);
            } else {
                assert(pgtable::listed(owned, x));
            }
        }
    }
    assert forall|x: u64| t3.holds(x) == t1.holds(x) by {
        walk::lemma_holds_by_links(t3, t1, x);
        assert(t1.same_links(t3)) by {
            assert forall|i: int| 0 <= i < ENTRIES implies #[trigger] t1.l1(i) == t3.l1(i) by {
                assert(t3.l1(i) == t1.l1(i));
            }
            assert forall|i: int, j: int|
                0 <= i < ENTRIES && 0 <= j < ENTRIES implies #[trigger] t1.leaf(i, j) == t3.leaf(
                i,
                j,
            ) by {
                assert(t3.leaf(i, j) == t1.leaf(i, j));
            }
        }
        walk::lemma_holds_by_links(t1, t3, x);
    }
    assert(walk::framed(t1, t3)) by {
        assert forall|x: u64| #[trigger] t1.tables.contains_key(x) implies {
            &&& t3.tables.contains_key(x)
            &&& t3.holds(x) ==> t1.holds(x)
            &&& !t1.holds(x) ==> t3.tables[x] == t1.tables[x]
        } by {
            assert(t2.tables.contains_key(x));
            assert(t3.holds(x) == t1.holds(x));
            if !t1.holds(x) {
                assert(!t2.holds(x));
                assert(m3.map()[x] == m2.map()[x]);
            }
        }
    }
    let mine = low.owned_tables@;
    assert forall|i: int| 0 <= i < mine.len() implies {
        let o = #[trigger] mine[i];
        &&& t3.tables.contains_key(o.phys)
        &&& t3.tables.contains_key(o.parent)
        &&& t3.link(o.parent, o.index as int) == Some(o.phys)
        &&& o.parent == t3.root || pgtable::is_level_one(t3, o.parent)
    } by {
        let o = mine[i];
        if o.parent == t1.root {
            assert(t1.l1(o.index as int) == Some(o.phys));
            assert(t3.l1(o.index as int) == Some(o.phys));
        } else {
            let k = choose|k: int| 0 <= k < ENTRIES && #[trigger] t1.l1(k) == Some(o.parent);
            assert(t3.l1(k) == Some(o.parent));
            assert(pgtable::is_level_one(t3, o.parent));
            assert(t1.leaf(k, o.index as int) == Some(o.phys));
            assert(t3.leaf(k, o.index as int) == Some(o.phys));
        }
    }
    assert forall|q: int| tables::in_tree(q) implies #[trigger] t3.value(q) == if t1.leaf_of(q)
        is Some {
        t2.value(q)
    } else {
        0
    } by {
        tables::lemma_positions(q);
        let u = tables::upper(q);
        let v = tables::middle(q);
        assert(t3.leaf(u, v) == t1.leaf(u, v));
        pgtable::lemma_dropped_gone(t2, owned, 0, q);
        if t1.leaf(u, v) is Some {
            assert(t1.l1(u) is Some);
            assert(t2.l1(u) == t1.l1(u));
            assert(t2.leaf(u, v) == t1.leaf(u, v));
            assert(t1.tables.contains_key(t1.l1(u)->0));
            assert(t1.tables.contains_key(t1.leaf(u, v)->0));
        }
    }
}

/// A link that a borrower added does not lead to a table that was linked before.
proof fn lemma_new_link_new(t1: Tree, t2: Tree, i: int, j: int, x: u64)
    requires
        t1.wf(),
        t2.wf(),
        t1.root == t2.root,
        walk::extends(t1, t2),
        0 <= i < ENTRIES,
        j == -1 || 0 <= j < ENTRIES,
        j == -1 ==> t1.l1(i) is None && t2.l1(i) == Some(x),
        j >= 0 ==> t1.leaf(i, j) is None && t2.leaf(i, j) == Some(x),
    ensures
        !t1.holds(x),
{
    if !t1.holds(x) {
    } else if x == t1.root {
        assert(t2.l1(i) is Some ==> t2.l1(i)->0 != t2.root);
        if j >= 0 {
            assert(t2.leaf(i, j)->0 != t2.root);
        }
    } else if exists|k: int| 0 <= k < ENTRIES && #[trigger] t1.l1(k) == Some(x) {
        let k = choose|k: int| 0 <= k < ENTRIES && #[trigger] t1.l1(k) == Some(x);
        assert(t2.l1(k) == Some(x));
        if j == -1 {
            assert(k != i);
            assert(t2.l1(i) != t2.l1(k));
        } else {
            assert(t2.leaf(i, j) != t2.l1(k));
        }
    } else {
        let (k, l) = choose|k: int, l: int|
            0 <= k < ENTRIES && 0 <= l < ENTRIES && #[trigger] t1.leaf(k, l) == Some(x);
        assert(t2.leaf(k, l) == Some(x));
        if j == -1 {
            assert(t2.leaf(k, l) != t2.l1(i));
        } else {
            assert(t2.leaf(i, j) != t2.leaf(k, l));
        }
    }
}

/// What an entry makes of an address.
pub open spec fn entry_target(entry: u64, iova: u64) -> Option<u64> {
    if tables::is_valid(entry) {
        Some((tables::frame_of(entry, 0x3ff_ffff_ffff) + iova % 0x4000) as u64)
    } else {
        None
    }
}

/// Entries that are kept twice are kept.
proof fn lemma_values_trans(a: Tree, b: Tree, c: Tree)
    requires
        a.same_values(b),
        b.same_values(c),
    ensures
        a.same_values(c),
{
    assert forall|q: int| tables::in_tree(q) implies #[trigger] a.value(q) == c.value(q) by {
        assert(b.value(q) == c.value(q));
    }
}

} // verus!
