//! Access rights of a UAT mapping.
use vstd::prelude::*;

verus! {

/// Marks a mapping that has been accessed.
pub const UAT_AF: u64 = 0x400;

/// Cached memory.
pub const MEMATTR_CACHED: u8 = 0;

/// Device registers.
pub const MEMATTR_DEV: u8 = 1;

/// Uncached memory.
pub const MEMATTR_UNCACHED: u8 = 2;

/// Access by firmware and GPU.
pub const AP_FW_GPU: u8 = 0;

/// Access by the firmware alone.
pub const AP_FW: u8 = 1;

/// Access by the GPU alone.
pub const AP_GPU: u8 = 2;

/// ELF segment flag of executable memory.
pub const PF_X: u32 = 1;

/// ELF segment flag of writable memory.
pub const PF_W: u32 = 2;

/// ELF segment flag of readable memory.
pub const PF_R: u32 = 4;

/// Memory attributes, access permission and the twelve high bits of an entry.
#[derive(Clone, Copy, Debug, PartialEq, Eq, Structural)]
pub struct Prot {
    pub memattr: u8,
    pub ap: u8,
    pub high_bits: u16,
}

/// The entry bits that stand for given rights.
pub open spec fn pte_of(prot: Prot) -> u64 {
    ((prot.ap as u64) << 6) | ((prot.high_bits as u64) << 52) | ((prot.memattr as u64) << 2) | 0x400
}

/// The access that a core dump reports: by permission, then by the two never-execute bits.
pub open spec fn access_of(gpu: bool, ap: u8, uxn: bool, pxn: bool) -> u32 {
    if gpu {
        match (ap, uxn, pxn) {
            (0, false, false) => 0,
            (0, false, true) => 4,
            (0, true, false) => 2,
            (0, true, true) => 6,
            (1, false, false) => 4,
            (1, false, true) => 0,
            (1, true, _) => 6,
            _ => 0,
        }
    } else {
        match (ap, uxn, pxn) {
            (0, true, true) => 6,
            (0, _, _) => 0,
            (1, _, true) => 6,
            (1, _, false) => 0,
            (2, false, _) => 5,
            (2, true, false) => 0,
            (2, true, true) => 4,
            (3, false, false) => 5,
            (3, false, true) => 6,
            (3, true, false) => 0,
            (3, true, true) => 4,
            _ => 0,
        }
    }
}

impl Prot {
    /// Rights with the two never-execute bits given, for cached memory.
    #[verifier::allow_in_spec]
    pub fn from_bits(ap: u8, uxn: bool, pxn: bool) -> Self
        returns
            (Prot {
                memattr: 0,
                ap,
                high_bits: if uxn {
                    if pxn {
                        14
                    } else {
                        12
                    }
                } else {
                    if pxn {
                        10
                    } else {
                        8
                    }
                },
            }),
    {
        Prot {
            memattr: MEMATTR_CACHED,
            ap,
            high_bits: if uxn {
                if pxn {
                    14
                } else {
                    12
                }
            } else {
                if pxn {
                    10
                } else {
                    8
                }
            },
        }
    }

    /// The rights that an entry holds.
    #[verifier::allow_in_spec]
    pub fn from_pte(pte: u64) -> Self
        returns
            (Prot {
                memattr: ((pte & 0x1c) >> 2) as u8,
                ap: ((pte & 0xc0) >> 6) as u8,
                high_bits: (pte >> 52) as u16,
            }),
    {
        Prot {
            memattr: ((pte & 0x1c) >> 2) as u8,
            ap: ((pte & 0xc0) >> 6) as u8,
            high_bits: (pte >> 52) as u16,
        }
    }

    /// The segment flags of a core dump: the twelve top bits of the entry, its twelve bottom bits,
    /// five bits of padding and the access.
    pub fn elf_flags(&self) -> (out: u32)
        ensures
            out == access_of(
                self.high_bits & 8 != 0,
                self.ap & 3,
                self.high_bits & 4 != 0,
                self.high_bits & 2 != 0,
            ) | (((pte_of(*self) >> 52) << 20) as u32) | (((pte_of(*self) & 0xfff) << 8) as u32),
    {
        let ap: u8 = self.ap & 3;
        let uxn = self.high_bits & 4 != 0;
        let pxn = self.high_bits & 2 != 0;
        let access: u32 = if self.high_bits & 8 != 0 {
            match (ap, uxn, pxn) {
                (0, false, true) | (1, false, false) => PF_R,
                (0, true, false) => PF_W,
                (0, true, true) | (1, true, _) => PF_R + PF_W,
                _ => 0,
            }
        } else {
            match (ap, uxn, pxn) {
                (0, true, true) | (1, _, true) | (3, false, true) => PF_R + PF_W,
                (2, false, _) | (3, false, false) => PF_R + PF_X,
                (2, true, true) | (3, true, true) => PF_R,
                _ => 0,
            }
        };
        access | (((self.as_pte() >> 52) << 20) as u32) | (((self.as_pte() & 0xfff) << 8) as u32)
    }

    /// The same rights with other memory attributes.
    #[verifier::allow_in_spec]
    pub fn memattr(&self, memattr: u8) -> Self
        returns
            (Prot { memattr, ap: self.ap, high_bits: self.high_bits }),
    {
        Prot { memattr, ap: self.ap, high_bits: self.high_bits }
    }

    /// The entry bits that stand for these rights.
    pub fn as_pte(&self) -> (out: u64)
        ensures
            out == pte_of(*self),
    {
        ((self.ap as u64) << 6) | ((self.high_bits as u64) << 52) | ((self.memattr as u64) << 2)
            | UAT_AF
    }

    /// Whether the firmware caches the memory without keeping it coherent.
    pub fn is_cached_noncoherent(&self) -> (out: bool)
        ensures
            out == (self.ap != AP_GPU && self.memattr == MEMATTR_CACHED),
    {
        self.ap != AP_GPU && self.memattr == MEMATTR_CACHED
    }

    /// The same rights on uncached memory.
    pub fn as_uncached(&self) -> (out: Self)
        ensures
            out == (Prot { memattr: MEMATTR_UNCACHED, ap: self.ap, high_bits: self.high_bits }),
    {
        self.memattr(MEMATTR_UNCACHED)
    }

    /// Whether the rights fit the bits of an entry.
    pub open spec fn fits(self) -> bool {
        self.memattr <= 7 && self.ap <= 3 && self.high_bits <= 0xfff
    }
}

impl Default for Prot {
    fn default() -> (out: Self)
        ensures
            out == (Prot { memattr: 0, ap: 0, high_bits: 8 }),
    {
        Prot::from_bits(AP_FW_GPU, false, false)
    }
}

/// Reading the rights of an entry gives back those it was made from.
pub proof fn lemma_rights_round_trip(prot: Prot)
    requires
        prot.fits(),
    ensures
        Prot::from_pte(pte_of(prot)) == prot,
{
    let a = prot.ap;
    let h = prot.high_bits;
    let m = prot.memattr;
    let pte = ((a as u64) << 6) | ((h as u64) << 52) | ((m as u64) << 2) | 0x400;
    assert(((pte & 0x1c) >> 2) as u8 == m && ((pte & 0xc0) >> 6) as u8 == a && (pte >> 52) as u16
        == h) by (bit_vector)
        requires
            a <= 3,
            m <= 7,
            h <= 0xfff,
            pte == ((a as u64) << 6) | ((h as u64) << 52) | ((m as u64) << 2) | 0x400,
    ;
}

/// A mapping of a page with given rights names that page and is valid.
pub proof fn lemma_mapping_frame(phys: u64, prot: Prot, type_bits: u64, oas_mask: u64)
    requires
        prot.fits(),
        type_bits == 3 || type_bits == 0x803,
        oas_mask < 0x10_0000_0000_0000,
        phys & oas_mask & !0x3fffu64 == phys,
    ensures
        (phys | (pte_of(prot) | type_bits)) & 3 == 3,
        (phys | (pte_of(prot) | type_bits)) & oas_mask & !0x3fffu64 == phys,
{
    let a = prot.ap;
    let h = prot.high_bits;
    let m = prot.memattr;
    let pte = pte_of(prot);
    assert((phys | (pte | type_bits)) & 3 == 3 && (phys | (pte | type_bits)) & oas_mask & !0x3fffu64
        == phys) by (bit_vector)
        requires
            a <= 3,
            m <= 7,
            h <= 0xfff,
            pte == ((a as u64) << 6) | ((h as u64) << 52) | ((m as u64) << 2) | 0x400,
            type_bits == 3 || type_bits == 0x803,
            oas_mask < 0x10_0000_0000_0000,
            phys & oas_mask & !0x3fffu64 == phys,
    ;
}

/// Firmware MMIO, read and write.
#[verifier::allow_in_spec]
pub fn prot_fw_mmio_rw() -> Prot
    returns
        (Prot { memattr: 1, ap: 1, high_bits: 12 }),
{
    Prot::from_bits(AP_FW, true, false).memattr(MEMATTR_DEV)
}

/// Firmware MMIO, read only.
#[verifier::allow_in_spec]
pub fn prot_fw_mmio_ro() -> Prot
    returns
        (Prot { memattr: 1, ap: 1, high_bits: 8 }),
{
    Prot::from_bits(AP_FW, false, false).memattr(MEMATTR_DEV)
}

/// Firmware shared (uncached), read and write.
#[verifier::allow_in_spec]
pub fn prot_fw_shared_rw() -> Prot
    returns
        (Prot { memattr: 2, ap: 1, high_bits: 12 }),
{
    Prot::from_bits(AP_FW, true, false).memattr(MEMATTR_UNCACHED)
}

/// Firmware shared (uncached), read only.
#[verifier::allow_in_spec]
pub fn prot_fw_shared_ro() -> Prot
    returns
        (Prot { memattr: 2, ap: 1, high_bits: 8 }),
{
    Prot::from_bits(AP_FW, false, false).memattr(MEMATTR_UNCACHED)
}

/// Firmware private (cached), read and write.
#[verifier::allow_in_spec]
pub fn prot_fw_priv_rw() -> Prot
    returns
        (Prot { memattr: 0, ap: 1, high_bits: 12 }),
{
    Prot::from_bits(AP_FW, true, false).memattr(MEMATTR_CACHED)
}

/// Firmware and GPU shared (uncached), read and write.
#[verifier::allow_in_spec]
pub fn prot_gpu_fw_shared_rw() -> Prot
    returns
        (Prot { memattr: 2, ap: 0, high_bits: 14 }),
{
    Prot::from_bits(AP_FW_GPU, true, true).memattr(MEMATTR_UNCACHED)
}

/// Firmware and GPU shared (cached), read and write.
#[verifier::allow_in_spec]
pub fn prot_gpu_fw_priv_rw() -> Prot
    returns
        (Prot { memattr: 0, ap: 0, high_bits: 14 }),
{
    Prot::from_bits(AP_FW_GPU, true, true).memattr(MEMATTR_CACHED)
}

/// Firmware read and write, GPU read only (cached).
#[verifier::allow_in_spec]
pub fn prot_gpu_ro_fw_priv_rw() -> Prot
    returns
        (Prot { memattr: 0, ap: 1, high_bits: 14 }),
{
    Prot::from_bits(AP_FW, true, true).memattr(MEMATTR_CACHED)
}

/// GPU shared and coherent, read and write.
#[verifier::allow_in_spec]
pub fn prot_gpu_shared_rw() -> Prot
    returns
        (Prot { memattr: 2, ap: 2, high_bits: 12 }),
{
    Prot::from_bits(AP_GPU, true, false).memattr(MEMATTR_UNCACHED)
}

/// GPU shared and coherent, read only.
#[verifier::allow_in_spec]
pub fn prot_gpu_shared_ro() -> Prot
    returns
        (Prot { memattr: 2, ap: 2, high_bits: 8 }),
{
    Prot::from_bits(AP_GPU, false, false).memattr(MEMATTR_UNCACHED)
}

/// GPU shared and coherent, write only.
#[verifier::allow_in_spec]
pub fn prot_gpu_shared_wo() -> Prot
    returns
        (Prot { memattr: 2, ap: 2, high_bits: 10 }),
{
    Prot::from_bits(AP_GPU, false, true).memattr(MEMATTR_UNCACHED)
}

} // verus!
