//! The hardware's table of address space contexts.
//!
//! Context zero belongs to the device. The others are leased to clients: a context is rebound only
//! while no outstanding work uses it.
use crate::error::Error;
use crate::space::Roots;
use vstd::prelude::*;

verus! {

/// Number of contexts.
pub const CONTEXTS: usize = 64;

/// The roots that are bound to contexts, and how much outstanding work uses each of them.
pub struct Contexts {
    pub roots: Vec<Option<Roots>>,
    pub users: Vec<u32>,
}

/// The entry of a root in the context table.
pub open spec fn entry_of(ttb: u64, asid: int) -> int {
    ttb + asid * 0x1_0000_0000_0000 + 1
}

/// The entry of a root in the context table: the root, the context's number and a valid bit.
pub fn context_entry(ttb: u64, asid: u8) -> (out: u64)
    requires
        ttb < 0x1_0000_0000_0000,
    ensures
        out == entry_of(ttb, asid as int),
{
    ttb + asid as u64 * 0x1_0000_0000_0000 + 1
}

/// An entry of the context table without its valid bit.
pub fn invalid_entry(entry: u64) -> (out: u64)
    ensures
        out == entry - entry % 2,
{
    entry - entry % 2
}

impl Contexts {
    /// Whether a root is bound to a context.
    pub open spec fn bound(self, i: int, low: u64) -> bool {
        self.roots@[i] matches Some(roots) && roots.low == low
    }

    /// A root is bound to one context at most, and none to context zero.
    pub open spec fn wf(self) -> bool {
        &&& self.roots@.len() == CONTEXTS
        &&& self.users@.len() == CONTEXTS
        &&& self.roots@[0] is None
        &&& forall|i: int, j: int|
            0 <= i < j < CONTEXTS && #[trigger] self.roots@[i] is Some && #[trigger] self.roots@[j] is Some
                ==> self.roots@[i]->0.low != self.roots@[j]->0.low
    }

    /// The context that serves a root: the one it is bound to, else the preferred one where that is
    /// unused, else the first unused one.
    pub open spec fn serves(self, slot: int, low: u64, preferred: int) -> bool {
        &&& 1 <= slot < CONTEXTS
        &&& if exists|i: int| 1 <= i < CONTEXTS && self.bound(i, low) {
            self.bound(slot, low)
        } else if self.users@[preferred] == 0 {
            slot == preferred
        } else {
            self.users@[slot] == 0 && forall|i: int| 1 <= i < slot ==> #[trigger] self.users@[i] != 0
        }
    }

    /// Whether some context can serve a root.
    pub open spec fn has_context(self, low: u64) -> bool {
        exists|i: int| 1 <= i < CONTEXTS && #[trigger] self.usable(i, low)
    }

    /// Whether a context is unused, or bound to a root.
    pub open spec fn usable(self, i: int, low: u64) -> bool {
        self.users@[i] == 0 || self.bound(i, low)
    }

    /// Whether a context holds translations of a root. The device's own root is that of context zero.
    pub open spec fn shows(self, i: int, device: u64, low: u64) -> bool {
        if i == 0 {
            device == low
        } else {
            self.bound(i, low)
        }
    }

    /// No context is bound.
    pub fn new() -> (out: Self)
        ensures
            out.wf(),
            forall|i: int| 0 <= i < CONTEXTS ==> #[trigger] out.roots@[i] is None,
            forall|i: int| 0 <= i < CONTEXTS ==> #[trigger] out.users@[i] == 0,
    {
        let mut roots: Vec<Option<Roots>> = Vec::new();
        let mut users: Vec<u32> = Vec::new();
        while roots.len() < CONTEXTS
            invariant
                roots@.len() == users@.len(),
                roots@.len() <= CONTEXTS,
                forall|i: int| 0 <= i < roots@.len() ==> #[trigger] roots@[i] is None,
                forall|i: int| 0 <= i < users@.len() ==> #[trigger] users@[i] == 0,
            decreases CONTEXTS - roots@.len(),
        {
            roots.push(None);
            users.push(0);
        }
        Contexts { roots, users }
    }

    /// The context that a root is bound to.
    fn find(&self, low: u64) -> (out: Option<usize>)
        requires
            self.wf(),
        ensures
            match out {
                Some(slot) => 1 <= slot < CONTEXTS && self.bound(slot as int, low),
                None => forall|i: int| 1 <= i < CONTEXTS ==> !#[trigger] self.bound(i, low),
            },
    {
        let mut i: usize = 1;
        while i < CONTEXTS
            invariant
                self.wf(),
                1 <= i <= CONTEXTS,
                forall|j: int| 1 <= j < i ==> !#[trigger] self.bound(j, low),
            decreases CONTEXTS - i,
        {
            if let Some(roots) = self.roots[i] {
                if roots.low == low {
                    return Some(i);
                }
            }
            assert(!self.bound(i as int, low));
            i += 1;
        }
        None
    }

    /// The first unused context.
    fn unused(&self) -> (out: Option<usize>)
        requires
            self.wf(),
        ensures
            match out {
                Some(slot) => 1 <= slot < CONTEXTS && self.users@[slot as int] == 0 && forall|i: int|
                    1 <= i < slot ==> #[trigger] self.users@[i] != 0,
                None => forall|i: int| 1 <= i < CONTEXTS ==> #[trigger] self.users@[i] != 0,
            },
    {
        let mut i: usize = 1;
        while i < CONTEXTS
            invariant
                self.wf(),
                1 <= i <= CONTEXTS,
                forall|j: int| 1 <= j < i ==> #[trigger] self.users@[j] != 0,
            decreases CONTEXTS - i,
        {
            if self.users[i] == 0 {
                return Some(i);
            }
            i += 1;
        }
        None
    }

    /// Whether some context can serve a root.
    pub fn available(&self, low: u64) -> (out: bool)
        requires
            self.wf(),
        ensures
            out == self.has_context(low),
    {
        match self.find(low) {
            Some(slot) => {
                assert(self.usable(slot as int, low));
                true
            },
            None => match self.unused() {
                Some(slot) => {
                    assert(self.usable(slot as int, low));
                    true
                },
                None => false,
            },
        }
    }

    /// Leases a context for a root. Answers the context, and whether the root has still to be written
    /// to the hardware's table.
    pub fn acquire(&mut self, roots: Roots, preferred: usize) -> (out: Result<(u32, bool), Error>)
        requires
            old(self).wf(),
            1 <= preferred < CONTEXTS,
            forall|i: int| 0 <= i < CONTEXTS ==> #[trigger] old(self).users@[i] < u32::MAX,
        ensures
            final(self).wf(),
            match out {
                Ok((slot, install)) => {
                    &&& old(self).serves(slot as int, roots.low, preferred as int)
                    &&& install == !old(self).bound(slot as int, roots.low)
                    &&& final(self).bound(slot as int, roots.low)
                    &&& install ==> final(self).roots@ == old(self).roots@.update(
                        slot as int,
                        Some(roots),
                    )
                    &&& !install ==> final(self).roots@ == old(self).roots@
                    &&& final(self).users@ == old(self).users@.update(
                        slot as int,
                        (old(self).users@[slot as int] + 1) as u32,
                    )
                },
                Err(e) => {
                    &&& e == Error::EBUSY
                    &&& !old(self).has_context(roots.low)
                    &&& *final(self) == *old(self)
                },
            },
            forall|i: int|
                0 <= i < CONTEXTS && old(self).users@[i] != 0 ==> #[trigger] final(self).roots@[i]
                    == old(self).roots@[i],
    {
        let ghost before = *self;
        let (slot, install): (usize, bool) = match self.find(roots.low) {
            Some(slot) => (slot, false),
            None => {
                if self.users[preferred] == 0 {
                    (preferred, true)
                } else {
                    match self.unused() {
                        None => {
                            return Err(Error::EBUSY);
                        },
                        Some(slot) => (slot, true),
                    }
                }
            },
        };
        if install {
            self.roots[slot] = Some(roots);
            proof {
                assert forall|i: int, j: int|
                    0 <= i < j < CONTEXTS && #[trigger] self.roots@[i] is Some
                        && #[trigger] self.roots@[j] is Some implies self.roots@[i]->0.low
                    != self.roots@[j]->0.low by {
                    assert(i >= 1 ==> !before.bound(i, roots.low));
                    assert(!before.bound(j, roots.low));
                }
            }
        }
        let users: u32 = self.users[slot];
        self.users[slot] = users + 1;
        Ok((slot as u32, install))
    }

    /// Ends the use of a context by one piece of work.
    pub fn release(&mut self, slot: u32)
        requires
            old(self).wf(),
            slot < CONTEXTS,
            old(self).users@[slot as int] > 0,
        ensures
            final(self).wf(),
            final(self).roots@ == old(self).roots@,
            final(self).users@ == old(self).users@.update(
                slot as int,
                (old(self).users@[slot as int] - 1) as u32,
            ),
    {
        let users: u32 = self.users[slot as usize];
        self.users[slot as usize] = users - 1;
    }

    /// Unbinds a root whose client goes away. Answers the context it was bound to, which has to be
    /// invalidated in the hardware's table.
    pub fn detach(&mut self, low: u64) -> (out: Result<Option<u32>, Error>)
        requires
            old(self).wf(),
        ensures
            final(self).wf(),
            final(self).users@ == old(self).users@,
            match out {
                Ok(Some(slot)) => {
                    &&& 1 <= slot < CONTEXTS
                    &&& old(self).bound(slot as int, low)
                    &&& old(self).users@[slot as int] == 0
                    &&& final(self).roots@ == old(self).roots@.update(slot as int, None)
                },
                Ok(None) => {
                    &&& *final(self) == *old(self)
                    &&& forall|i: int| 1 <= i < CONTEXTS ==> !#[trigger] old(self).bound(i, low)
                },
                Err(e) => {
                    &&& e == Error::EBUSY
                    &&& *final(self) == *old(self)
                    &&& exists|i: int|
                        1 <= i < CONTEXTS && #[trigger] old(self).bound(i, low)
                            && old(self).users@[i] != 0
                },
            },
    {
        match self.find(low) {
            None => Ok(None),
            Some(slot) => {
                if self.users[slot] != 0 {
                    return Err(Error::EBUSY);
                }
                self.roots[slot] = None;
                Ok(Some(slot as u32))
            },
        }
    }

    /// The contexts whose translations of a client have to be dropped after its tables changed: the
    /// device's own where it uses that root, and the one that the root is bound to. Roots that are not
    /// bound need none, because a context is invalidated before a root is bound to it.
    pub fn stale(&self, device: u64, low: u64) -> (out: Vec<u8>)
        requires
            self.wf(),
        ensures
            forall|i: u8|
                i < CONTEXTS ==> (out@.contains(i) <==> #[trigger] self.shows(i as int, device, low)),
            forall|k: int| 0 <= k < out@.len() ==> #[trigger] out@[k] < CONTEXTS,
            forall|j: int, k: int| 0 <= j < k < out@.len() ==> #[trigger] out@[j] < #[trigger] out@[k],
    {
        let mut out: Vec<u8> = Vec::new();
        if device == low {
            out.push(0);
        }
        let found: Option<usize> = self.find(low);
        let ghost first = out@;
        if let Some(slot) = found {
            out.push(slot as u8);
        }
        proof {
            assert forall|i: u8| i < CONTEXTS implies (out@.contains(i) <==> #[trigger] self.shows(
                i as int,
                device,
                low,
            )) by {
                if device == low {
                    assert(first[0] == 0);
                    assert(out@[0] == 0);
                }
                if let Some(slot) = found {
                    assert(out@[first.len() as int] == slot as u8);
                    if i != 0 && self.bound(i as int, low) {
                        assert(i == slot) by {
                            assert(self.roots@[i as int] is Some && self.roots@[slot as int] is Some);
                        }
                    }
                }
            }
        }
        out
    }
}

/// While outstanding work uses a context, no lease binds another root to it.
pub proof fn lemma_lease_keeps_root(before: Contexts, slot: int, low: u64, preferred: int, used: int)
    requires
        before.wf(),
        before.serves(slot, low, preferred),
        1 <= preferred < CONTEXTS,
        0 <= used < CONTEXTS,
        before.users@[used] != 0,
        !before.bound(used, low),
    ensures
        slot != used || before.bound(slot, low),
{
}

} // verus!
