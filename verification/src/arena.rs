//! Allocation of retained backing within a VM's private GPU aperture.
//!
//! Scratch grows from the low end and tiler backing from the high end. Both consume the same remaining
//! range, so neither needs a fixed reservation. Clone the arena to stage a reservation before a
//! fallible backing allocation.
use core::ops::Range;
use vstd::prelude::*;

verus! {

/// The part of an aperture that no reservation has taken yet.
#[derive(Clone, Copy, Default, Debug, PartialEq, Eq, Structural)]
pub struct Arena {
    pub start: u64,
    pub end: u64,
}

/// Whether a number is a power of two.
pub open spec fn power_of_two(x: int) -> bool
    decreases x,
{
    x == 1 || (x > 1 && x % 2 == 0 && power_of_two(x / 2))
}

/// Whether a number is a power of two.
pub fn is_power_of_two(x: u64) -> (out: bool)
    ensures
        out == power_of_two(x as int),
{
    let mut y: u64 = x;
    while y > 1 && y % 2 == 0
        invariant
            power_of_two(x as int) == power_of_two(y as int),
        decreases y,
    {
        y = y / 2;
    }
    y == 1
}

/// The first multiple of `align` that is not below `x`.
pub open spec fn align_up(x: int, align: int) -> int {
    (x + align - 1) / align * align
}

/// The last multiple of `align` that is not above `x`.
pub open spec fn align_down(x: int, align: int) -> int {
    x / align * align
}

impl Arena {
    /// The range that a request takes from the low end.
    pub open spec fn front(self, size: u64, align: u64) -> Option<(int, int)> {
        let start = align_up(self.start as int, align as int);
        if size > 0 && power_of_two(align as int) && self.start + align - 1 <= u64::MAX
            && start + size <= u64::MAX && start + size <= self.end {
            Some((start, start + size))
        } else {
            None
        }
    }

    /// The range that a request takes from the high end.
    pub open spec fn back(self, size: u64, align: u64) -> Option<(int, int)> {
        let start = align_down(self.end - size, align as int);
        if size > 0 && power_of_two(align as int) && self.end >= size && start
            >= self.start {
            Some((start, start + size))
        } else {
            None
        }
    }

    /// An arena with nothing reserved.
    pub fn new(remaining: Range<u64>) -> (out: Self)
        ensures
            out.start == remaining.start,
            out.end == remaining.end,
    {
        Self { start: remaining.start, end: remaining.end }
    }

    /// Reserves `size` bytes at the low end, at a multiple of `align`.
    pub fn alloc_front(&mut self, size: u64, align: u64) -> (out: Option<Range<u64>>)
        ensures
            match old(self).front(size, align) {
                Some((start, end)) => {
                    &&& out is Some
                    &&& out->0.start == start
                    &&& out->0.end == end
                    &&& final(self).start == end
                    &&& final(self).end == old(self).end
                },
                None => out is None && *final(self) == *old(self),
            },
    {
        if size == 0 || !is_power_of_two(align) {
            return None;
        }
        let top: u64 = match self.start.checked_add(align - 1) {
            None => {
                return None;
            },
            Some(top) => top,
        };
        proof {
            lemma_round(top as int, align as int);
        }
        let start: u64 = top / align * align;
        let end: u64 = match start.checked_add(size) {
            None => {
                return None;
            },
            Some(end) => end,
        };
        if end > self.end {
            return None;
        }
        self.start = end;
        Some(start..end)
    }

    /// Reserves `size` bytes at the high end, at a multiple of `align`.
    pub fn alloc_back(&mut self, size: u64, align: u64) -> (out: Option<Range<u64>>)
        ensures
            match old(self).back(size, align) {
                Some((start, end)) => {
                    &&& out is Some
                    &&& out->0.start == start
                    &&& out->0.end == end
                    &&& final(self).start == old(self).start
                    &&& final(self).end == start
                },
                None => out is None && *final(self) == *old(self),
            },
    {
        if size == 0 || !is_power_of_two(align) {
            return None;
        }
        let top: u64 = match self.end.checked_sub(size) {
            None => {
                return None;
            },
            Some(top) => top,
        };
        proof {
            lemma_round(top as int, align as int);
        }
        let start: u64 = top / align * align;
        if start < self.start {
            return None;
        }
        self.end = start;
        Some(start..start + size)
    }
}

/// Rounding down stays below a number, by less than one step.
pub proof fn lemma_round(x: int, align: int)
    requires
        x >= 0,
        align > 0,
    ensures
        x - align < align_down(x, align) <= x,
        0 <= align_down(x, align),
        align_down(x, align) % align == 0,
{
    vstd::arithmetic::div_mod::lemma_fundamental_div_mod(x, align);
    vstd::arithmetic::div_mod::lemma_mod_bound(x, align);
    vstd::arithmetic::div_mod::lemma_mod_multiples_basic(x / align, align);
    vstd::arithmetic::div_mod::lemma_div_pos_is_pos(x, align);
    assert(align * (x / align) == x / align * align) by (nonlinear_arith);
    assert(x / align * align >= 0) by (nonlinear_arith)
        requires
            x / align >= 0,
            align > 0,
    ;
}

/// A reservation at the low end is aligned, was free before it and is not free after it.
pub proof fn lemma_front_is_taken(before: Arena, after: Arena, size: u64, align: u64)
    requires
        before.front(size, align) is Some,
        after.start == (before.front(size, align)->0).1,
        after.end == before.end,
    ensures
        ({
            let (start, end) = before.front(size, align)->0;
            &&& start % (align as int) == 0
            &&& end - start == size
            &&& before.start <= start < end <= before.end
            &&& end <= after.start <= after.end
        }),
{
    lemma_round(before.start + align - 1, align as int);
}

/// A reservation at the high end is aligned, was free before it and is not free after it.
pub proof fn lemma_back_is_taken(before: Arena, after: Arena, size: u64, align: u64)
    requires
        before.back(size, align) is Some,
        after.start == before.start,
        after.end == (before.back(size, align)->0).0,
    ensures
        ({
            let (start, end) = before.back(size, align)->0;
            &&& start % (align as int) == 0
            &&& end - start == size
            &&& before.start <= start < end <= before.end
            &&& after.start <= after.end <= start
        }),
{
    lemma_round(before.end - size, align as int);
}

/// Two reservations from opposite ends do not overlap, in whichever order they are made.
pub proof fn lemma_ends_disjoint(
    arena: Arena,
    staged: Arena,
    size: u64,
    align: u64,
    back_size: u64,
    back_align: u64,
)
    requires
        arena.front(size, align) is Some,
        staged.start == (arena.front(size, align)->0).1,
        staged.end == arena.end,
        staged.back(back_size, back_align) is Some,
    ensures
        (arena.front(size, align)->0).1 <= (staged.back(back_size, back_align)->0).0,
        arena.back(back_size, back_align) == staged.back(back_size, back_align),
{
    lemma_round(arena.start + align - 1, align as int);
}

} // verus!
