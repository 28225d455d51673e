//! Sv39 page-table entries.
use vstd::prelude::*;

use crate::mmu::PagePermissions;
use crate::mmu::addr::PhysicalAddr;

verus! {

/// Bit 0 of an entry: the entry is in use.
pub open spec fn pte_valid(v: u64) -> bool {
    v % 2 == 1
}

/// Bits 1..4 (read, write, execute): a valid entry with any of them set maps a page,
/// one with none of them points to the next-level table.
pub open spec fn pte_leaf(v: u64) -> bool {
    (v / 2) % 8 != 0
}

/// The physical page number held in bits 10..64.
pub open spec fn pte_ppn(v: u64) -> u64 {
    v / 1024
}

/// The flag bits 0..10.
pub open spec fn pte_flag_bits(v: u64) -> u64 {
    v % 1024
}

/// A valid entry that points to a next-level table.
pub open spec fn pte_points_to_table(v: u64) -> bool {
    pte_valid(v) && !pte_leaf(v)
}

/// The entry word made of a page number and flag bits.
pub open spec fn pte_word(ppn: u64, flags: u64) -> int {
    ppn * 1024 + flags
}

/// The flags a leaf entry gets for the given permissions: valid plus R, W, X.
pub open spec fn leaf_flag_bits(p: PagePermissions) -> u64 {
    (1 + (if p.readable() { 2int } else { 0 }) + (if p.writable() { 4int } else { 0 }) + (if p.executable() {
        8int
    } else {
        0
    })) as u64
}

/// Why a set of permissions cannot be put in a leaf entry.
#[derive(Debug, Clone, Copy, PartialEq, Eq, Structural)]
pub enum InvalidPermissions {
    /// No permissions set, this is a non-leaf PTE marker.
    Empty,
    /// Write-only pages are not supported.
    WriteOnly,
}

/// What a leaf entry for `p` is refused with, if anything.
pub open spec fn permissions_error(p: PagePermissions) -> Option<InvalidPermissions> {
    if !p.readable() && !p.writable() && !p.executable() {
        Some(InvalidPermissions::Empty)
    } else if p.writable() && !p.readable() {
        Some(InvalidPermissions::WriteOnly)
    } else {
        None
    }
}

/// The low ten bits of an entry.
#[derive(Debug, Clone, Copy, PartialEq, Eq)]
struct PteFlags(u64);

impl PteFlags {
    spec fn view(self) -> u64 {
        self.0
    }

    /// The leaf flags for a set of page permissions.
    fn try_from(permissions: PagePermissions) -> (r: Result<PteFlags, InvalidPermissions>)
        ensures
            match permissions_error(permissions) {
                Some(e) => r == Err::<PteFlags, InvalidPermissions>(e),
                None => r matches Ok(f) && f@ == leaf_flag_bits(permissions),
            },
    {
        let mut flags: u64 = 0;
        if permissions.contains(PagePermissions::read()) {
            flags = flags | 2;
        }
        if permissions.contains(PagePermissions::write()) {
            flags = flags | 4;
        }
        if permissions.contains(PagePermissions::execute()) {
            flags = flags | 8;
        }
        proof {
            let r = permissions.readable();
            let w = permissions.writable();
            let x = permissions.executable();
            let f0: u64 = 0;
            let f1: u64 = if r { f0 | 2 } else { f0 };
            let f2: u64 = if w { f1 | 4 } else { f1 };
            let f3: u64 = if x { f2 | 8 } else { f2 };
            assert(f3 == flags);
            assert({
                &&& (f3 == 0) == (!r && !w && !x)
                &&& (f3 & 4 != 0) == w
                &&& (f3 & 2 != 0) == r
                &&& f3 | 1 == 1 + (if r { 2u64 } else { 0 }) + (if w { 4u64 } else { 0 }) + (if x { 8u64 } else { 0 })
            }) by (bit_vector)
                requires
                    f0 == 0,
                    f1 == (if r { f0 | 2 } else { f0 }),
                    f2 == (if w { f1 | 4 } else { f1 }),
                    f3 == (if x { f2 | 8 } else { f2 }),
            ;
        }
        if flags == 0 {
            return Err(InvalidPermissions::Empty);
        }
        if flags & 4 != 0 && flags & 2 == 0 {
            return Err(InvalidPermissions::WriteOnly);
        }
        Ok(PteFlags(flags | 1))
    }
}

/// The 64-bit value of a page-table entry.
#[derive(Debug, Clone, Copy, PartialEq, Eq, Structural)]
pub struct PteValue(u64);

impl PteValue {
    pub closed spec fn view(self) -> u64 {
        self.0
    }

    pub proof fn lemma_view_injective(a: PteValue, b: PteValue)
        ensures
            a@ == b@ <==> a == b,
    {
    }

    /// The raw 64-bit entry.
    pub fn bits(self) -> (r: u64)
        ensures
            r == self@,
    {
        self.0
    }

    /// The entry of an unused slot.
    pub fn unmapped() -> (r: Self)
        ensures
            r@ == 0,
            !pte_valid(r@),
    {
        PteValue(0)
    }

    fn new(addr: PhysicalAddr, flags: PteFlags) -> (r: Self)
        requires
            addr@ % 4096 == 0,
            flags@ < 1024,
        ensures
            r@ == pte_word(addr@ / 4096, flags@),
            pte_ppn(r@) == addr@ / 4096,
            pte_flag_bits(r@) == flags@,
    {
        let ppn = addr.ppn();
        let f = flags.0;
        assert(ppn < 0x10_0000_0000_0000u64 && f < 1024 ==> (ppn << 10u64) | f == ppn * 1024 + f)
            by (bit_vector);
        PteValue((ppn << 10) | f)
    }

    /// A leaf entry mapping the page at `addr` with the given permissions.
    pub fn leaf(addr: PhysicalAddr, permissions: PagePermissions) -> (r: Result<Self, InvalidPermissions>)
        requires
            permissions_error(permissions) is None ==> addr@ % 4096 == 0,
        ensures
            match permissions_error(permissions) {
                Some(e) => r == Err::<PteValue, InvalidPermissions>(e),
                None => r matches Ok(v) && v@ == pte_word(addr@ / 4096, leaf_flag_bits(permissions)),
            },
            r matches Ok(v) ==> {
                &&& pte_valid(v@)
                &&& pte_leaf(v@)
                &&& pte_ppn(v@) == addr@ / 4096
                &&& pte_flag_bits(v@) == leaf_flag_bits(permissions)
            },
    {
        let flags = PteFlags::try_from(permissions)?;
        Ok(Self::new(addr, flags))
    }

    /// An entry pointing to the next-level table at `addr`.
    pub fn non_leaf(addr: PhysicalAddr) -> (r: Self)
        requires
            addr@ % 4096 == 0,
        ensures
            r@ == pte_word(addr@ / 4096, 1),
            pte_points_to_table(r@),
            pte_ppn(r@) == addr@ / 4096,
    {
        Self::new(addr, PteFlags(1))
    }

    pub fn is_valid(self) -> (r: bool)
        ensures
            r == pte_valid(self@),
    {
        let v = self.0;
        assert((v & 1u64 == 1u64) == (v % 2 == 1)) by (bit_vector);
        v & 1 == 1
    }

    pub fn is_leaf(self) -> (r: bool)
        ensures
            r == pte_leaf(self@),
    {
        let v = self.0;
        assert((v & 0xeu64 != 0u64) == ((v / 2) % 8 != 0)) by (bit_vector);
        v & 0xe != 0
    }

    pub fn ppn(self) -> (r: u64)
        ensures
            r == pte_ppn(self@),
    {
        let v = self.0;
        assert(v >> 10u64 == v / 1024) by (bit_vector);
        v >> 10
    }
}

/// One slot of a page table.
///
/// A slot is written only through `&mut`, so its value is always the last value stored.
#[derive(Debug)]
pub struct PteSlot(u64);

impl PteSlot {
    pub closed spec fn view(self) -> u64 {
        self.0
    }

    pub fn new(value: PteValue) -> (r: Self)
        ensures
            r@ == value@,
    {
        PteSlot(value.0)
    }

    pub fn load(&self) -> (r: PteValue)
        ensures
            r@ == self@,
    {
        PteValue(self.0)
    }

    pub fn store(&mut self, value: PteValue)
        ensures
            final(self)@ == value@,
    {
        self.0 = value.0;
    }
}

} // verus!
