use vstd::prelude::*;

use std::collections::BTreeMap;

use crate::mmu::addr::{is_power_of_two, lemma_round_up, round_up, AddressRange, PageType, PhysicalAddr, VirtualAddr};
use crate::mmu::pte::{permissions_error, InvalidPermissions};
use crate::mmu::space::{
    allocation_fits, allocation_start, effective_alignment, global_mapping_accepted, global_mapping_error,
    global_mappings_prepared, global_physical_range, global_mappings_translate, ranges_disjoint, total_need, AddressSpace,
};
use crate::mmu::walk::{
    canonical, lemma_round_up_least, level_size, map_outcome, page_outside, range_canonical, range_page_level, PtMem,
};

pub mod addr;
pub mod pte;
pub mod walk;
pub mod space;
pub mod tiling;

verus! {

/// Read, write and execute permissions of a mapping.
#[derive(Debug, Clone, Copy, PartialEq, Eq, Structural)]
pub struct PagePermissions(u8);

impl PagePermissions {
    #[verifier::type_invariant]
    closed spec fn inv(self) -> bool {
        self.0 < 8
    }

    pub closed spec fn view(self) -> u8 {
        self.0
    }

    pub open spec fn readable(self) -> bool {
        self@ % 2 == 1
    }

    pub open spec fn writable(self) -> bool {
        (self@ / 2) % 2 == 1
    }

    pub open spec fn executable(self) -> bool {
        (self@ / 4) % 2 == 1
    }

    /// Readable and writable, not executable.
    pub closed spec fn spec_read_write() -> PagePermissions {
        PagePermissions(3)
    }

    /// Readable only.
    pub closed spec fn spec_read_only() -> PagePermissions {
        PagePermissions(1)
    }

    pub proof fn lemma_read_only(p: PagePermissions)
        requires
            p@ == 1,
        ensures
            p == Self::spec_read_only(),
    {
    }

    pub proof fn lemma_read_write(p: PagePermissions)
        requires
            p@ == 3,
        ensures
            p == Self::spec_read_write(),
    {
    }

    pub fn empty() -> (r: Self)
        ensures
            r@ == 0,
    {
        PagePermissions(0)
    }

    pub fn read() -> (r: Self)
        ensures
            r@ == 1,
    {
        PagePermissions(1)
    }

    pub fn write() -> (r: Self)
        ensures
            r@ == 2,
    {
        PagePermissions(2)
    }

    pub fn execute() -> (r: Self)
        ensures
            r@ == 4,
    {
        PagePermissions(4)
    }

    pub fn all() -> (r: Self)
        ensures
            r@ == 7,
    {
        PagePermissions(7)
    }

    /// The permissions whose bits are set in `bits`; other bits are dropped.
    pub fn from_bits_truncate(bits: u8) -> (r: Self)
        ensures
            r@ == bits % 8,
    {
        assert(bits & 7u8 == bits % 8) by (bit_vector);
        PagePermissions(bits & 7)
    }

    pub fn bits(self) -> (r: u8)
        ensures
            r == self@,
            r < 8,
    {
        proof {
            use_type_invariant(&self);
        }
        self.0
    }

    /// The permissions of both.
    pub fn union(self, other: Self) -> (r: Self)
        ensures
            r@ == self@ | other@,
            r.readable() == (self.readable() || other.readable()),
            r.writable() == (self.writable() || other.writable()),
            r.executable() == (self.executable() || other.executable()),
    {
        proof {
            use_type_invariant(&self);
            use_type_invariant(&other);
        }
        let a = self.0;
        let b = other.0;
        assert(a < 8 && b < 8 ==> {
            &&& (a | b) < 8
            &&& ((a | b) % 2 == 1) == (a % 2 == 1 || b % 2 == 1)
            &&& (((a | b) / 2) % 2 == 1) == ((a / 2) % 2 == 1 || (b / 2) % 2 == 1)
            &&& (((a | b) / 4) % 2 == 1) == ((a / 4) % 2 == 1 || (b / 4) % 2 == 1)
        }) by (bit_vector);
        PagePermissions(a | b)
    }

    /// Every permission of `other` is in `self`.
    pub fn contains(self, other: Self) -> (r: bool)
        ensures
            r == ((other.readable() ==> self.readable()) && (other.writable() ==> self.writable())
                && (other.executable() ==> self.executable())),
    {
        proof {
            use_type_invariant(&self);
            use_type_invariant(&other);
        }
        let a = self.0;
        let b = other.0;
        assert(a < 8 && b < 8 ==> ((a & b == b) == (((b % 2 == 1) ==> (a % 2 == 1)) && (((b / 2)
            % 2 == 1) ==> ((a / 2) % 2 == 1)) && (((b / 4) % 2 == 1) ==> ((a / 4) % 2 == 1)))))
            by (bit_vector);
        a & b == b
    }
}

/// Identifies an address space to the TLB.
#[derive(Copy, Clone, Debug, PartialEq, Eq, PartialOrd, Ord, Structural)]
pub struct AddressSpaceId(u16);

impl AddressSpaceId {
    pub closed spec fn view(self) -> u16 {
        self.0
    }

    pub closed spec fn spec_kernel() -> AddressSpaceId {
        AddressSpaceId(0)
    }

    /// The address space of the kernel.
    pub fn kernel() -> (r: Self)
        ensures
            r@ == 0,
            r == Self::spec_kernel(),
    {
        AddressSpaceId(0)
    }

    pub fn get(self) -> (r: u16)
        ensures
            r == self@,
    {
        self.0
    }
}

/// What a page-table update requires of the TLB.
#[must_use]
#[derive(Debug, Clone, Copy, PartialEq, Eq, Structural)]
pub enum PageTableUpdate {
    /// No page table updates were performed.
    Unchanged,
    /// One page is affected: a single leaf PTE was created or updated.
    One(VirtualAddr),
    /// Many pages are affected: a non-leaf PTE or multiple leaf PTEs were created or updated.
    Many,
}

/// The TLB maintenance that a page-table update calls for, to be carried out
/// with `sfence.vma`.
#[derive(Debug, Clone, Copy, PartialEq, Eq, Structural)]
pub enum TlbFlush {
    /// Nothing to invalidate.
    Nothing,
    /// Invalidate the translations of one page of an address space.
    Page(AddressSpaceId, VirtualAddr),
    /// Invalidate all translations of an address space.
    AddressSpace(AddressSpaceId),
}

/// Why a range is refused before any page of it is mapped, if it is.
pub open spec fn range_check_error(
    virtual_range: AddressRange<VirtualAddr>,
    physical_range: AddressRange<PhysicalAddr>,
) -> Option<MapError> {
    if virtual_range.start@ % 4096 != 0 {
        Some(MapError::VirtualUnaligned(virtual_range.start))
    } else if virtual_range.end@ % 4096 != 0 {
        Some(MapError::VirtualUnaligned(virtual_range.end))
    } else if physical_range.start@ % 4096 != 0 {
        Some(MapError::PhysicalUnaligned(physical_range.start))
    } else if physical_range.end@ % 4096 != 0 {
        Some(MapError::PhysicalUnaligned(physical_range.end))
    } else if virtual_range.len() != physical_range.len() {
        Some(MapError::MismatchedLength(virtual_range, physical_range))
    } else {
        None
    }
}

/// Two updates together.
pub open spec fn combined(a: PageTableUpdate, b: PageTableUpdate) -> PageTableUpdate {
    match (a, b) {
        (PageTableUpdate::Unchanged, u) => u,
        (u, PageTableUpdate::Unchanged) => u,
        _ => PageTableUpdate::Many,
    }
}

/// Combining with an update that changed nothing leaves an update as it is,
/// on either side.
pub proof fn lemma_update_identity(u: PageTableUpdate)
    ensures
        combined(PageTableUpdate::Unchanged, u) == u,
        combined(u, PageTableUpdate::Unchanged) == u,
{
}

/// Updates combine associatively, so the update of a sequence of mappings does
/// not depend on how it is grouped.
pub proof fn lemma_update_associative(a: PageTableUpdate, b: PageTableUpdate, c: PageTableUpdate)
    ensures
        combined(combined(a, b), c) == combined(a, combined(b, c)),
{
}

/// Two updates that each changed something combine to one that calls for
/// flushing the whole address space.
pub proof fn lemma_update_two_changes(a: PageTableUpdate, b: PageTableUpdate)
    requires
        a != PageTableUpdate::Unchanged,
        b != PageTableUpdate::Unchanged,
    ensures
        combined(a, b) == PageTableUpdate::Many,
        combined(a, b).flush_action(AddressSpaceId::spec_kernel()) == TlbFlush::AddressSpace(
            AddressSpaceId::spec_kernel(),
        ),
{
}

impl PageTableUpdate {
    /// The TLB maintenance that this update calls for in address space `asid`.
    pub open spec fn flush_action(self, asid: AddressSpaceId) -> TlbFlush {
        match self {
            PageTableUpdate::Unchanged => TlbFlush::Nothing,
            PageTableUpdate::One(addr) => TlbFlush::Page(asid, addr),
            PageTableUpdate::Many => TlbFlush::AddressSpace(asid),
        }
    }

    /// The TLB maintenance for this update in address space `asid`.
    pub fn flush(self, asid: AddressSpaceId) -> (r: TlbFlush)
        ensures
            r == self.flush_action(asid),
    {
        match self {
            PageTableUpdate::Unchanged => TlbFlush::Nothing,
            PageTableUpdate::One(addr) => TlbFlush::Page(asid, addr),
            PageTableUpdate::Many => TlbFlush::AddressSpace(asid),
        }
    }

    /// Drops an update whose pages are known not to be cached, such as those of an
    /// address space that has never been active.
    pub fn do_not_flush(self) {
    }
}

impl Default for PageTableUpdate {
    fn default() -> (r: Self)
        ensures
            r == PageTableUpdate::Unchanged,
    {
        PageTableUpdate::Unchanged
    }
}

impl core::ops::Add<PageTableUpdate> for PageTableUpdate {
    type Output = Self;

    fn add(self, other: Self) -> (r: Self) {
        match (self, other) {
            (PageTableUpdate::Unchanged, u) => u,
            (u, PageTableUpdate::Unchanged) => u,
            _ => PageTableUpdate::Many,
        }
    }
}

impl vstd::std_specs::ops::AddSpecImpl<PageTableUpdate> for PageTableUpdate {
    open spec fn obeys_add_spec() -> bool {
        true
    }

    open spec fn add_req(self, rhs: PageTableUpdate) -> bool {
        true
    }

    open spec fn add_spec(self, rhs: PageTableUpdate) -> PageTableUpdate {
        combined(self, rhs)
    }
}

impl core::ops::AddAssign<PageTableUpdate> for PageTableUpdate {
    fn add_assign(&mut self, rhs: PageTableUpdate)
        ensures
            *final(self) == combined(*old(self), rhs),
    {
        let mut current = PageTableUpdate::Unchanged;
        core::mem::swap(&mut current, self);
        *self = current + rhs;
    }
}

/// Why a mapping request was refused.
#[derive(Debug, Clone, Copy, PartialEq, Eq)]
pub enum MapError {
    /// The virtual address is not aligned to the page size.
    VirtualUnaligned(VirtualAddr),
    /// The physical address is not aligned to the page size.
    PhysicalUnaligned(PhysicalAddr),
    /// The virtual and the physical range differ in size.
    MismatchedLength(AddressRange<VirtualAddr>, AddressRange<PhysicalAddr>),
    /// The range is already mapped in this address space.
    Conflict(AddressRange<VirtualAddr>),
    /// The page permissions cannot be put in a leaf entry.
    InvalidPermissions(InvalidPermissions),
    /// The memory set aside for page tables is used up.
    TableSpaceExhausted,
}

/// The ids that key the address spaces are ordered as `BTreeMap` expects.
proof fn lemma_ids_ordered()
    ensures
        vstd::laws_cmp::obeys_cmp::<u16>(),
{
    broadcast use vstd::laws_cmp::group_laws_cmp;
}

/// The address spaces of the system by their ids, the kernel's among them.
pub struct MemoryManager {
    address_spaces: BTreeMap<u16, AddressSpace>,
    kernel_phys_to_virt_offset: usize,
    _global_mappings: Vec<(AddressRange<VirtualAddr>, PagePermissions)>,
}

/// The virtual range that an allocation of `size` bytes aligned to
/// `alignment` takes from `available`.
pub open spec fn allocated_range(available: AddressRange<VirtualAddr>, size: usize, alignment: usize) -> AddressRange<VirtualAddr> {
    AddressRange {
        start: VirtualAddr::at(allocation_start(available, alignment) as usize),
        end: VirtualAddr::at((allocation_start(available, alignment) + round_up(size as nat, 4096)) as usize),
    }
}

/// A power of two divides every power of two at least as large.
pub proof fn lemma_power_of_two_divides(p: nat, q: nat)
    requires
        is_power_of_two(p),
        is_power_of_two(q),
        p <= q,
    ensures
        q % p == 0,
    decreases q,
{
    if p == 1 {
    } else {
        let hp = p / 2;
        let hq = q / 2;
        lemma_power_of_two_divides(hp, hq);
        let k = hq / hp;
        assert(q == p * k) by (nonlinear_arith)
            requires
                p == 2 * hp,
                q == 2 * hq,
                hp > 0,
                hq % hp == 0,
                k == hq / hp,
        {
            vstd::arithmetic::div_mod::lemma_fundamental_div_mod(hq as int, hp as int);
        }
        vstd::arithmetic::div_mod::lemma_mod_multiples_basic(k as int, p as int);
        vstd::arithmetic::mul::lemma_mul_is_commutative(p as int, k as int);
    }
}

/// Where an allocation of `size` bytes aligned to the power of two
/// `alignment` lies: at the first address of the available ones that is a
/// multiple of both `alignment` and the small page size, and over the fewest
/// whole small pages that hold `size` bytes, within the available addresses.
pub proof fn lemma_allocation_placement(available: AddressRange<VirtualAddr>, size: usize, alignment: usize)
    requires
        is_power_of_two(alignment as nat),
        allocation_fits(available, size, alignment),
    ensures
        allocated_range(available, size, alignment).start@ % alignment == 0,
        allocated_range(available, size, alignment).start@ % 4096 == 0,
        available.start@ <= allocated_range(available, size, alignment).start@,
        allocated_range(available, size, alignment).end@ <= available.end@,
        (allocated_range(available, size, alignment).end@ - allocated_range(available, size, alignment).start@)
            % 4096 == 0,
        size <= allocated_range(available, size, alignment).end@ - allocated_range(
            available,
            size,
            alignment,
        ).start@ < size + 4096,
{
    broadcast use VirtualAddr::lemma_at_view;

    let m = effective_alignment(alignment);
    let start = allocation_start(available, alignment);
    assert(is_power_of_two(4096)) by {
        reveal_with_fuel(is_power_of_two, 13);
    }
    lemma_round_up(available.start@ as nat, m);
    lemma_round_up(size as nat, 4096);
    // The larger of `alignment` and 4096 is a multiple of both.
    if alignment >= 4096 {
        lemma_power_of_two_divides(4096, alignment as nat);
        vstd::arithmetic::div_mod::lemma_fundamental_div_mod(start as int, m as int);
        crate::mmu::walk::lemma_multiple_of_divisor(start as int, m as int, 4096);
    } else {
        lemma_power_of_two_divides(alignment as nat, 4096);
        crate::mmu::walk::lemma_multiple_of_divisor(start as int, 4096, alignment as int);
    }
}

/// An allocation fits wherever some room does: an address of the available
/// ones that is a multiple of both the power of two `alignment` and the
/// small page size, followed by whole small pages that hold `size` bytes
/// within the available addresses.
pub proof fn lemma_allocation_fits_room(
    available: AddressRange<VirtualAddr>,
    size: usize,
    alignment: usize,
    x: int,
    n: int,
)
    requires
        is_power_of_two(alignment as nat),
        available.start@ <= x,
        x % (alignment as int) == 0,
        x % 4096 == 0,
        n % 4096 == 0,
        size <= n,
        x + n <= available.end@,
    ensures
        allocation_fits(available, size, alignment),
{
    let m = effective_alignment(alignment);
    assert(alignment > 0) by {
        reveal_with_fuel(is_power_of_two, 1);
    }
    lemma_round_up(available.start@ as nat, m);
    lemma_round_up(size as nat, 4096);
    if alignment < 4096 {
        assert(x % (m as int) == 0);
    }
    lemma_round_up_least(available.start@ as nat, m, x);
    lemma_round_up_least(size as nat, 4096, n);
}

/// No address of the available ones before the start of an allocation
/// aligned to the power of two `alignment` is a multiple of both `alignment`
/// and the small page size: the allocation takes the first such address.
pub proof fn lemma_allocation_first(
    available: AddressRange<VirtualAddr>,
    size: usize,
    alignment: usize,
    x: int,
)
    requires
        is_power_of_two(alignment as nat),
        allocation_fits(available, size, alignment),
        available.start@ <= x,
        x % (alignment as int) == 0,
        x % 4096 == 0,
    ensures
        allocated_range(available, size, alignment).start@ <= x,
{
    broadcast use VirtualAddr::lemma_at_view;

    let m = effective_alignment(alignment);
    lemma_round_up(available.start@ as nat, m);
    if alignment < 4096 {
        assert(x % (m as int) == 0);
    }
    lemma_round_up_least(available.start@ as nat, m, x);
}

/// Kernel virtual addresses handed out one after another never overlap: an
/// allocation lies within the available addresses and starts at a multiple of
/// its alignment (a page at least), and the next allocation, from what
/// remains, starts at or after its end.
pub proof fn lemma_allocations_disjoint(
    available: AddressRange<VirtualAddr>,
    size1: usize,
    alignment1: usize,
    size2: usize,
    alignment2: usize,
)
    requires
        allocation_fits(available, size1, alignment1),
        allocation_fits(
            AddressRange { start: allocated_range(available, size1, alignment1).end, end: available.end },
            size2,
            alignment2,
        ),
    ensures
        available.start@ <= allocated_range(available, size1, alignment1).start@,
        allocated_range(available, size1, alignment1).start@ as nat % effective_alignment(alignment1)
            == 0,
        allocated_range(available, size1, alignment1).end@ <= allocated_range(
            AddressRange { start: allocated_range(available, size1, alignment1).end, end: available.end },
            size2,
            alignment2,
        ).start@,
        allocated_range(
            AddressRange { start: allocated_range(available, size1, alignment1).end, end: available.end },
            size2,
            alignment2,
        ).end@ <= available.end@,
{
    broadcast use VirtualAddr::lemma_at_view;

    let first = allocated_range(available, size1, alignment1);
    let rest = AddressRange { start: first.end, end: available.end };
    lemma_round_up(available.start@ as nat, effective_alignment(alignment1));
    lemma_round_up(size1 as nat, 4096);
    lemma_round_up(rest.start@ as nat, effective_alignment(alignment2));
    lemma_round_up(size2 as nat, 4096);
}

impl MemoryManager {
    /// Kernel virtual address minus physical address under the global mapping.
    pub closed spec fn offset(self) -> usize {
        self.kernel_phys_to_virt_offset
    }

    pub closed spec fn kernel_space(self) -> AddressSpace {
        self.address_spaces@[AddressSpaceId::spec_kernel()@]
    }

    /// The kernel's page tables as the hardware walks them.
    pub open spec fn kernel_mem(self) -> PtMem {
        self.kernel_space().mem(self.offset() as int)
    }

    /// The kernel virtual addresses not handed out yet.
    pub open spec fn kernel_available(self) -> AddressRange<VirtualAddr> {
        self.kernel_space().available()
    }

    /// No further page table fits in the kernel's table space.
    pub closed spec fn kernel_table_space_full(self) -> bool {
        self.kernel_space().next_table_location() + 4096 > self.kernel_space().table_space_end()
    }

    pub closed spec fn global_mappings(self) -> Seq<(AddressRange<VirtualAddr>, PagePermissions)> {
        self._global_mappings@
    }

    /// The ids of the address spaces the manager holds.
    pub closed spec fn address_space_ids(self) -> Set<u16> {
        self.address_spaces@.dom()
    }

    /// A well-formed manager holds the kernel's address space, whose page
    /// tables are well formed and start with the root table.
    pub proof fn lemma_kernel_space(self)
        requires
            self.wf(),
        ensures
            self.address_space_ids().contains(AddressSpaceId::spec_kernel()@),
            self.kernel_space().wf(self.offset() as int),
            self.kernel_mem().wf(),
            self.kernel_space().table_count() >= 1,
            self.kernel_mem().len() == self.kernel_space().table_count(),
    {
        self.kernel_space().lemma_wf_mem(self.offset() as int);
    }

    pub closed spec fn wf(self) -> bool {
        &&& self.address_spaces@.contains_key(AddressSpaceId::spec_kernel()@)
        &&& self.kernel_space().wf(self.kernel_phys_to_virt_offset as int)
    }

    /// The memory manager whose kernel address space maps `global_mappings`
    /// globally and hands out the virtual addresses from `kernel_end` on.
    /// Page tables are placed in `table_space`, globally mapped kernel memory.
    /// Outside the gigabyte regions of the global mappings the kernel's root
    /// table holds nothing, so `walk::lemma_untouched_range_free` shows a
    /// range there free for `map_kernel_private`.
    pub fn new_with_global_mappings(
        kernel_phys_to_virt_offset: usize,
        kernel_end: VirtualAddr,
        global_mappings: Vec<(AddressRange<VirtualAddr>, PagePermissions)>,
        table_space: AddressRange<VirtualAddr>,
    ) -> (r: Result<Self, MapError>)
        requires
            kernel_phys_to_virt_offset <= table_space.start@,
            (table_space.start@ - kernel_phys_to_virt_offset) % 4096 == 0,
            forall|j: int|
                0 <= j < global_mappings@.len() ==> kernel_phys_to_virt_offset <= (
                #[trigger] global_mappings@[j]).0.start@ && kernel_phys_to_virt_offset
                    <= global_mappings@[j].0.end@,
        ensures
            table_space.start@ + 4096 > table_space.end@ ==> r matches Err(
                MapError::TableSpaceExhausted,
            ),
            r matches Err(e) ==> (e == MapError::TableSpaceExhausted && table_space.start@ + 4096
                > table_space.end@) || exists|j: int|
                0 <= j < global_mappings@.len() && global_mapping_error(
                    #[trigger] global_mappings@[j],
                    kernel_phys_to_virt_offset as int,
                    e,
                ) && (forall|k: int|
                    0 <= k < j ==> global_mapping_accepted(
                        #[trigger] global_mappings@[k],
                        kernel_phys_to_virt_offset as int,
                    )) && ((forall|j2: int|
                    0 <= j2 < global_mappings@.len() ==> range_canonical(
                        #[trigger] global_mappings@[j2].0,
                    )) ==> forall|a: int, b: int|
                    0 <= a < b < j ==> ranges_disjoint(
                        #[trigger] global_mappings@[a].0,
                        #[trigger] global_mappings@[b].0,
                    )) && ((forall|j3: int|
                    0 <= j3 < global_mappings@.len() ==> range_canonical(
                        #[trigger] global_mappings@[j3].0,
                    )) ==> (e matches MapError::Conflict(c) ==> exists|k: int|
                    0 <= k < j && !page_outside(
                        c.start@,
                        range_page_level(
                            global_mappings@[j].0,
                            global_physical_range(
                                global_mappings@[j].0,
                                kernel_phys_to_virt_offset as int,
                            ),
                            c.start@,
                        ),
                        #[trigger] global_mappings@[k].0,
                    ))),
            r matches Err(MapError::TableSpaceExhausted) ==> table_space.start@ + 4096 + 4096
                * total_need(global_mappings@, kernel_phys_to_virt_offset as int) > table_space.end@,
            r is Ok ==> forall|j: int|
                0 <= j < global_mappings@.len() ==> global_mapping_accepted(
                    #[trigger] global_mappings@[j],
                    kernel_phys_to_virt_offset as int,
                ),
            r is Ok && (forall|j: int|
                0 <= j < global_mappings@.len() ==> range_canonical(#[trigger] global_mappings@[j].0))
                ==> forall|a: int, b: int|
                0 <= a < b < global_mappings@.len() ==> ranges_disjoint(
                    #[trigger] global_mappings@[a].0,
                    #[trigger] global_mappings@[b].0,
                ),
            global_mappings_prepared(global_mappings@, kernel_phys_to_virt_offset as int, table_space)
                ==> (r is Ok <==> forall|j: int|
                0 <= j < global_mappings@.len() ==> global_mapping_accepted(
                    #[trigger] global_mappings@[j],
                    kernel_phys_to_virt_offset as int,
                )),
            global_mappings_prepared(global_mappings@, kernel_phys_to_virt_offset as int, table_space)
                && r is Err ==> (r matches Err(MapError::InvalidPermissions(p)) && exists|j: int|
                0 <= j < global_mappings@.len() && global_mappings@[j].0.len() > 0
                    && permissions_error(#[trigger] global_mappings@[j].1) == Some(p) && forall|k: int|
                    0 <= k < j ==> global_mapping_accepted(
                        #[trigger] global_mappings@[k],
                        kernel_phys_to_virt_offset as int,
                    )),
            r matches Ok(mm) ==> {
                &&& mm.wf()
                &&& mm.address_space_ids() == set![AddressSpaceId::spec_kernel()@]
                &&& mm.offset() == kernel_phys_to_virt_offset
                &&& mm.global_mappings() == global_mappings@
                &&& mm.kernel_available().start == kernel_end
                &&& mm.kernel_available().end@ == usize::MAX
                &&& mm.kernel_space().table_space_end() == table_space.end@
                &&& mm.kernel_space().next_table_location() <= table_space.start@ + 4096 + 4096
                    * total_need(global_mappings@, kernel_phys_to_virt_offset as int)
                &&& (forall|j: int|
                    0 <= j < global_mappings@.len() ==> range_canonical(
                        #[trigger] global_mappings@[j].0,
                    )) ==> forall|va: usize|
                    canonical(va) && (forall|j: int|
                        0 <= j < global_mappings@.len() ==> page_outside(
                            va,
                            2,
                            #[trigger] global_mappings@[j].0,
                        )) ==> !#[trigger] mm.kernel_mem().page_taken(va, 2)
                &&& (forall|j: int|
                    0 <= j < global_mappings@.len() ==> range_canonical(
                        #[trigger] global_mappings@[j].0,
                    )) ==> global_mappings_translate(
                    mm.kernel_mem(),
                    global_mappings@,
                    kernel_phys_to_virt_offset as int,
                )
            },
    {
        let space = match AddressSpace::new_with_global_mappings(
            AddressRange::new(kernel_end, VirtualAddr::new(usize::MAX)),
            kernel_phys_to_virt_offset,
            global_mappings.as_slice(),
            table_space,
        ) {
            Ok(space) => space,
            Err(e) => return Err(e),
        };
        broadcast use vstd::std_specs::btree::group_btree_axioms;

        proof {
            lemma_ids_ordered();
        }
        let mut address_spaces: BTreeMap<u16, AddressSpace> = BTreeMap::new();
        address_spaces.insert(AddressSpaceId::kernel().get(), space);
        let mm = MemoryManager {
            address_spaces,
            kernel_phys_to_virt_offset,
            _global_mappings: global_mappings,
        };
        Ok(mm)
    }

    /// Maps `range` at kernel virtual addresses taken from the available ones,
    /// aligned to pages of `min_page_type` at least.
    pub fn map_kernel_private(
        &mut self,
        range: AddressRange<PhysicalAddr>,
        min_page_type: PageType,
        permissions: PagePermissions,
    ) -> (r: Result<(AddressRange<VirtualAddr>, PageTableUpdate), MapError>)
        requires
            old(self).wf(),
            range.fits_usize(),
            allocation_fits(old(self).kernel_available(), range.len() as usize, min_page_type.bytes()),
        ensures
            final(self).wf(),
            final(self).offset() == old(self).offset(),
            final(self).address_space_ids() == old(self).address_space_ids(),
            final(self).global_mappings() == old(self).global_mappings(),
            final(self).kernel_available().start == allocated_range(
                old(self).kernel_available(),
                range.len() as usize,
                min_page_type.bytes(),
            ).end,
            final(self).kernel_available().end == old(self).kernel_available().end,
            r matches Ok((virt, _)) ==> {
                &&& virt.start@ % min_page_type.bytes() == 0
                &&& old(self).kernel_available().start@ <= virt.start@
                &&& range.len() <= virt.end@ - virt.start@ < range.len() + 4096
            },
            r matches Err(MapError::TableSpaceExhausted) ==> final(self).kernel_table_space_full(),
            old(self).kernel_space().map_range_owed(
                old(self).offset() as int,
                allocated_range(old(self).kernel_available(), range.len() as usize, min_page_type.bytes()),
                range,
                permissions,
            ) ==> r is Ok,
            match r {
                Ok((virt, update)) => {
                    &&& virt == allocated_range(
                        old(self).kernel_available(),
                        range.len() as usize,
                        min_page_type.bytes(),
                    )
                    &&& map_outcome(
                        old(self).kernel_mem(),
                        final(self).kernel_mem(),
                        virt,
                        range,
                        permissions,
                        Ok(update),
                    )
                    &&& (update matches PageTableUpdate::One(_) <==> (virt.len() == level_size(
                        range_page_level(virt, range, virt.start@),
                    ) && final(self).kernel_space().table_count() == old(
                        self,
                    ).kernel_space().table_count()))
                },
                Err(e) => map_outcome(
                    old(self).kernel_mem(),
                    final(self).kernel_mem(),
                    allocated_range(
                        old(self).kernel_available(),
                        range.len() as usize,
                        min_page_type.bytes(),
                    ),
                    range,
                    permissions,
                    Err(e),
                ),
            },
    {
        broadcast use vstd::std_specs::btree::group_btree_axioms;

        let kernel_phys_to_virt_offset = self.kernel_phys_to_virt_offset;
        let size = range.size();
        let kernel = AddressSpaceId::kernel().get();
        proof {
            lemma_ids_ordered();
        }
        let mut addr_space = self.address_spaces.remove(&kernel).unwrap();
        let virt = addr_space.allocate_addresses(size, min_page_type.alignment());
        proof {
            assert(is_power_of_two(min_page_type.bytes() as nat)) by {
                reveal_with_fuel(is_power_of_two, 32);
            }
            lemma_allocation_placement(old(self).kernel_available(), size, min_page_type.bytes());
        }
        let result = addr_space.map_range(virt, range, permissions, kernel_phys_to_virt_offset);
        self.address_spaces.insert(kernel, addr_space);
        proof {
            broadcast use VirtualAddr::lemma_at_view;

            let expected = allocated_range(old(self).kernel_available(), size, min_page_type.bytes());
            VirtualAddr::lemma_view_injective(virt.start, expected.start);
            VirtualAddr::lemma_view_injective(virt.end, expected.end);
        }
        match result {
            Ok(update) => Ok((virt, update)),
            Err(e) => Err(e),
        }
    }

    /// The physical page number of the kernel's root table, which `satp` takes
    /// to activate the kernel address space.
    pub fn kernel_root_ppn(&self) -> (r: u64)
        requires
            self.wf(),
        ensures
            r as int * 4096 == self.kernel_mem().phys[0],
    {
        let space = self.kernel_address_space();
        proof {
            space.lemma_wf_root(self.kernel_phys_to_virt_offset as int);
            space.lemma_root_phys(self.kernel_phys_to_virt_offset as int);
        }
        space.root().physical_addr(self.kernel_phys_to_virt_offset).ppn()
    }

    /// The kernel's address space.
    pub fn kernel_address_space(&self) -> (r: &AddressSpace)
        requires
            self.wf(),
        ensures
            *r == self.kernel_space(),
    {
        broadcast use vstd::std_specs::btree::group_btree_axioms;

        proof {
            lemma_ids_ordered();
        }
        self.address_spaces.get(&AddressSpaceId::kernel().get()).unwrap()
    }
}

} // verus!
