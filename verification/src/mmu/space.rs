//! Page tables and the address spaces built from them.
use core::ops::AddAssign;
use vstd::prelude::*;

use crate::mmu::addr::{lemma_round_up, round_up, vpn, Alignment, AddressRange, PageType, PhysicalAddr, VirtualAddr};
use crate::mmu::pte::{
    leaf_flag_bits, permissions_error, pte_points_to_table, pte_ppn, pte_valid, PteSlot, PteValue,
};
use crate::mmu::addr::{HUGE_PAGE_SIZE, LARGE_PAGE_SIZE};
use crate::mmu::walk::{
    lemma_regions_monotone, lemma_regions_step, regions_met, table_need, lemma_coarser_page, page_outside, taken_outside_unchanged, canonical, huge_bytes, is_page_size, large_bytes, level_size, map_outcome, page_level,
    range_canonical, range_free, range_page_level, range_target, PtMem, descending_free,
    descending_outcome, descending_target,
    descending_level, descending_need, lemma_page_in_descending, lemma_parts, part_bound, part_of,
    range_part, ascent_points, lemma_same_residue, entries_changed_on, entry_or_zero, slots_kept,
    lemma_changed_trans, lemma_slots_kept_trans, address_is, addresses_in,
};
use crate::mmu::{combined, range_check_error, MapError, PagePermissions, PageTableUpdate};

verus! {

/// One 4 KiB page table: 512 entries, and the kernel virtual address of the
/// frame that holds them.
pub struct PageTable {
    entries: Vec<PteSlot>,
    location: VirtualAddr,
}

impl PageTable {
    pub closed spec fn entries_view(self) -> Seq<u64> {
        self.entries@.map_values(|s: PteSlot| s@)
    }

    pub closed spec fn location_view(self) -> usize {
        self.location@
    }

    /// An empty table kept at `location`.
    pub fn new(location: VirtualAddr) -> (r: Self)
        ensures
            r.entries_view() == Seq::new(512, |i: int| 0u64),
            r.location_view() == location@,
    {
        let mut entries: Vec<PteSlot> = Vec::new();
        while entries.len() < 512
            invariant
                entries.len() <= 512,
                forall|i: int| 0 <= i < entries.len() ==> (#[trigger] entries@[i])@ == 0,
            decreases 512 - entries.len(),
        {
            entries.push(PteSlot::new(PteValue::unmapped()));
        }
        let r = PageTable { entries, location };
        assert(r.entries_view() =~= Seq::new(512, |i: int| 0u64));
        r
    }

    /// The kernel virtual address of the frame that holds this table.
    pub fn location(&self) -> (r: VirtualAddr)
        ensures
            r@ == self.location_view(),
    {
        self.location
    }

    pub fn entry(&self, idx: usize) -> (r: &PteSlot)
        requires
            idx < self.entries_view().len(),
        ensures
            r@ == self.entries_view()[idx as int],
    {
        &self.entries[idx]
    }

    /// The physical address of this table's frame under the kernel's global mapping.
    pub fn physical_addr(&self, kernel_phys_to_virt_offset: usize) -> (r: PhysicalAddr)
        requires
            self.location_view() >= kernel_phys_to_virt_offset,
        ensures
            r@ == self.location_view() - kernel_phys_to_virt_offset,
    {
        AddressSpace::global_mapping_virt_to_phys(self.location, kernel_phys_to_virt_offset)
    }
}

/// The page tables of one address space and the virtual addresses it has
/// not handed out yet. Table 0 is the root; further tables are placed in
/// `table_space`, a region of globally mapped kernel memory.
pub struct AddressSpace {
    tables: Vec<PageTable>,
    table_space: AddressRange<VirtualAddr>,
    available_range: AddressRange<VirtualAddr>,
}

impl AddressSpace {
    pub closed spec fn entries_view(self) -> Seq<Seq<u64>> {
        self.tables@.map_values(|t: PageTable| t.entries_view())
    }

    pub closed spec fn locations(self) -> Seq<usize> {
        self.tables@.map_values(|t: PageTable| t.location_view())
    }

    /// The page tables as the hardware walks them, with frames at
    /// `location - offset`.
    pub closed spec fn mem(self, offset: int) -> PtMem {
        PtMem {
            tables: self.entries_view(),
            phys: self.locations().map_values(|l: usize| l - offset),
        }
    }

    pub closed spec fn available(self) -> AddressRange<VirtualAddr> {
        self.available_range
    }

    pub closed spec fn table_count(self) -> nat {
        self.tables@.len()
    }

    pub closed spec fn root_location(self) -> usize {
        self.tables@[0].location_view()
    }

    /// The next table goes to the start of the table space.
    pub closed spec fn next_table_location(self) -> usize {
        self.table_space.start@
    }

    pub closed spec fn table_space_end(self) -> usize {
        self.table_space.end@
    }

    /// Well-formed under the global mapping offset `offset`.
    pub closed spec fn wf(self, offset: int) -> bool {
        &&& self.mem(offset).wf()
        &&& forall|k: int|
            0 <= k < self.tables@.len() ==> offset <= #[trigger] self.locations()[k]
                < self.table_space.start@
        &&& offset <= self.table_space.start@
        &&& (self.table_space.start@ - offset) % 4096 == 0
    }

    /// Well-formed address spaces have well-formed page tables, one for each
    /// table the space holds.
    pub proof fn lemma_wf_mem(self, offset: int)
        requires
            self.wf(offset),
        ensures
            self.mem(offset).wf(),
            self.mem(offset).len() == self.table_count(),
            self.table_count() >= 1,
    {
        self.lemma_wf_root(offset);
        self.mem(offset).lemma_wf_shape();
    }

    pub proof fn lemma_wf_root(self, offset: int)
        requires
            self.wf(offset),
        ensures
            self.table_count() >= 1,
            self.root_location() >= offset,
    {
        self.mem(offset).lemma_wf_shape();
        assert(self.locations()[0] == self.root_location());
    }

    pub proof fn lemma_root_phys(self, offset: int)
        requires
            self.wf(offset),
        ensures
            self.mem(offset).phys[0] == self.root_location() - offset,
            (self.root_location() - offset) % 4096 == 0,
    {
        self.mem(offset).lemma_wf_shape();
        assert(self.locations()[0] == self.root_location());
    }

    /// Nothing but the permissions can stop the range from being mapped: it
    /// passes the checks, its addresses are canonical, the slot of each of its
    /// pages is free, and the table space holds the tables it may add.
    pub open spec fn map_range_ready(
        self,
        offset: int,
        virtual_range: AddressRange<VirtualAddr>,
        physical_range: AddressRange<PhysicalAddr>,
    ) -> bool {
        &&& range_check_error(virtual_range, physical_range) is None
        &&& range_canonical(virtual_range)
        &&& range_free(self.mem(offset), virtual_range, physical_range)
        &&& self.table_space_end() >= self.next_table_location() + 4096 * table_need(
            virtual_range,
            physical_range,
        )
    }

    /// Mapping the range is bound to succeed: it is ready, and the
    /// permissions fit a leaf.
    pub open spec fn map_range_owed(
        self,
        offset: int,
        virtual_range: AddressRange<VirtualAddr>,
        physical_range: AddressRange<PhysicalAddr>,
        permissions: PagePermissions,
    ) -> bool {
        &&& self.map_range_ready(offset, virtual_range, physical_range)
        &&& permissions_error(permissions) is None
    }

    /// The same as `map_range_ready`, for tiling the range from the largest
    /// page size down.
    pub open spec fn descending_ready(
        self,
        offset: int,
        virtual_range: AddressRange<VirtualAddr>,
        physical_range: AddressRange<PhysicalAddr>,
    ) -> bool {
        &&& range_check_error(virtual_range, physical_range) is None
        &&& range_canonical(virtual_range)
        &&& descending_free(self.mem(offset), virtual_range, physical_range)
        &&& self.table_space_end() >= self.next_table_location() + 4096 * descending_need(
            virtual_range,
            physical_range,
        )
    }

    /// The same as `map_range_owed`, for tiling the range from the largest
    /// page size down.
    pub open spec fn descending_owed(
        self,
        offset: int,
        virtual_range: AddressRange<VirtualAddr>,
        physical_range: AddressRange<PhysicalAddr>,
        permissions: PagePermissions,
    ) -> bool {
        &&& self.descending_ready(offset, virtual_range, physical_range)
        &&& permissions_error(permissions) is None
    }

    fn load_entry(&self, k: usize, i: usize, Ghost(offset): Ghost<int>) -> (r: PteValue)
        requires
            self.wf(offset),
            k < self.table_count(),
            i < 512,
        ensures
            r@ == self.mem(offset).entry(k as int, i as int),
    {
        proof {
            self.mem(offset).lemma_wf_shape();
        }
        assert(self.mem(offset).tables[k as int].len() == 512);
        assert(self.entries_view()[k as int] == self.tables@[k as int].entries_view());
        self.tables[k].entry(i).load()
    }

    fn store_entry(&mut self, k: usize, i: usize, v: PteValue, Ghost(offset): Ghost<int>)
        requires
            k < old(self).table_count(),
            i < 512,
            old(self).entries_view()[k as int].len() == 512,
        ensures
            final(self).mem(offset) == old(self).mem(offset).set_entry(k as int, i as int, v@),
            final(self).locations() == old(self).locations(),
            final(self).table_space == old(self).table_space,
            final(self).available_range == old(self).available_range,
    {
        assert(self.entries_view()[k as int] == self.tables@[k as int].entries_view());
        let ghost old_tables = self.tables@;
        self.tables[k].entries[i].store(v);
        proof {
            let m0 = old(self).mem(offset).set_entry(k as int, i as int, v@);
            assert(self.tables@ == old_tables.update(
                k as int,
                PageTable {
                    entries: self.tables@[k as int].entries,
                    location: old_tables[k as int].location,
                },
            ));
            assert(self.tables@[k as int].entries@ == old_tables[k as int].entries@.update(
                i as int,
                self.tables@[k as int].entries@[i as int],
            ));
            assert(self.tables@[k as int].entries_view() =~= old_tables[k as int].entries_view().update(
                i as int,
                v@,
            ));
            assert(self.entries_view() =~= m0.tables);
            assert(self.locations() =~= old(self).locations());
            assert(self.mem(offset).phys =~= m0.phys);
        }
    }

    /// Places a new, empty table at the start of the table space.
    fn new_table(&mut self, Ghost(offset): Ghost<int>) -> (r: Result<usize, MapError>)
        requires
            old(self).wf(offset),
        ensures
            final(self).available_range == old(self).available_range,
            match r {
                Ok(n) => {
                    &&& n == old(self).table_count()
                    &&& old(self).next_table_location() + 4096 <= old(self).table_space_end()
                    &&& old(self).mem(offset).fresh_frame(old(self).next_table_location() - offset)
                    &&& final(self).mem(offset) == old(self).mem(offset).push_table(
                        old(self).next_table_location() - offset,
                    )
                    &&& final(self).locations() == old(self).locations().push(
                        old(self).next_table_location(),
                    )
                    &&& final(self).table_space.start@ == old(self).table_space.start@ + 4096
                    &&& final(self).table_space.end == old(self).table_space.end
                },
                Err(e) => {
                    &&& e == MapError::TableSpaceExhausted
                    &&& old(self).next_table_location() + 4096 > old(self).table_space_end()
                    &&& *final(self) == *old(self)
                },
            },
    {
        let loc = self.table_space.start;
        let end = self.table_space.end.get();
        if end < 4096 || loc.get() > end - 4096 {
            return Err(MapError::TableSpaceExhausted);
        }
        let ghost m0 = self.mem(offset);
        let ghost p = loc@ - offset;
        proof {
            assert forall|j: int| 0 <= j < m0.len() implies #[trigger] m0.phys[j] < p by {
                assert(self.locations()[j] < loc@);
            }
        }
        let ghost old_tables = self.tables@;
        self.tables.push(PageTable::new(loc));
        self.table_space.start = loc.add(4096);
        proof {
            assert(self.entries_view() =~= m0.push_table(p).tables);
            assert(self.locations() =~= old(self).locations().push(loc@));
            assert(self.mem(offset).phys =~= m0.push_table(p).phys);
        }
        Ok(self.tables.len() - 1)
    }

    /// The index of the table that entry `i` of table `k` points to.
    fn child_table(&self, k: usize, i: usize, kernel_phys_to_virt_offset: usize) -> (r: usize)
        requires
            self.wf(kernel_phys_to_virt_offset as int),
            k < self.table_count(),
            i < 512,
            pte_points_to_table(self.mem(kernel_phys_to_virt_offset as int).entry(k as int, i as int)),
        ensures
            r == self.mem(kernel_phys_to_virt_offset as int).target(
                self.mem(kernel_phys_to_virt_offset as int).entry(k as int, i as int),
            ),
            0 < r < self.table_count(),
    {
        let ghost offset = kernel_phys_to_virt_offset as int;
        let ghost m = self.mem(offset);
        let pte = self.load_entry(k, i, Ghost(offset));
        proof {
            m.lemma_target(k as int, i as int);
            m.lemma_wf_shape();
        }
        let ghost t = m.target(pte@);
        let ppn = pte.ppn();
        assert(m.phys[t] == self.locations()[t] - offset);
        assert(m.phys[t] == ppn * 4096);
        assert(ppn < 0x10_0000_0000_0000);
        let phys_addr = PhysicalAddr::from_ppn(ppn);
        let addr = Self::global_mapping_phys_to_virt(phys_addr, kernel_phys_to_virt_offset);
        let mut j: usize = 0;
        while j < self.tables.len()
            invariant
                0 <= j <= self.tables@.len(),
                forall|x: int| 0 <= x < j ==> self.locations()[x] != addr@,
                self.locations()[t] == addr@,
                0 < t < self.tables@.len(),
                offset == kernel_phys_to_virt_offset as int,
                m == self.mem(offset),
                m.wf(),
                m.len() == self.tables@.len(),
                m.is_table_of(t, pte@),
                t == m.target(pte@),
                pte@ == m.entry(k as int, i as int),
            decreases self.tables@.len() - j,
        {
            if self.tables[j].location.get() == addr.get() {
                proof {
                    m.lemma_wf_shape();
                    assert(self.locations()[j as int] == addr@);
                    assert(m.phys[j as int] == self.locations()[j as int] - offset);
                    assert(m.phys[t] == self.locations()[t] - offset);
                    if (j as int) < t {
                        assert(m.phys[j as int] < m.phys[t]);
                    } else if t < (j as int) {
                        assert(m.phys[t] < m.phys[j as int]);
                    }
                    assert(j as int == t);
                }
                return j;
            }
            assert(self.locations()[j as int] != addr@);
            j = j + 1;
        }
        proof {
            assert(self.locations()[t] != addr@);
        }
        0
    }

    /// Writes a leaf entry for the page at `virtual_addr` into the slot `(k, i)`,
    /// which the walk for that address reads at the page's level.
    fn map_leaf_pte(
        &mut self,
        k: usize,
        i: usize,
        virtual_addr: VirtualAddr,
        page_type: PageType,
        physical_addr: PhysicalAddr,
        permissions: PagePermissions,
        Ghost(offset): Ghost<int>,
    ) -> (r: Result<(), MapError>)
        requires
            old(self).wf(offset),
            old(self).mem(offset).slot(virtual_addr@, page_level(page_type)) == Some(
                (k as int, i as int),
            ),
            virtual_addr@ % page_type.bytes() == 0,
            old(self).mem(offset).page_taken(virtual_addr@, page_level(page_type)) ==> virtual_addr@
                + page_type.bytes() <= usize::MAX,
            physical_addr@ % (page_type.bytes() as u64) == 0,
        ensures
            final(self).wf(offset),
            final(self).available_range == old(self).available_range,
            final(self).table_count() == old(self).table_count(),
            final(self).table_space == old(self).table_space,
            final(self).mem(offset).same_directories(old(self).mem(offset)),
            forall|va2: usize, l2: int| #[trigger] final(self).mem(offset).slot(va2, l2) == old(self).mem(offset).slot(va2, l2),
            entries_changed_on(old(self).mem(offset), final(self).mem(offset), address_is(virtual_addr@)),
            canonical(virtual_addr@) ==> forall|va2: usize, l2: int|
                canonical(va2) && (va2 as int) / level_size(page_level(page_type)) != (
                virtual_addr@ as int) / level_size(page_level(page_type)) ==> #[trigger] final(self).mem(offset).page_taken(va2, l2) == old(self).mem(offset).page_taken(va2, l2),
            match r {
                Ok(()) => {
                    &&& permissions_error(permissions) is None
                    &&& !pte_valid(old(self).mem(offset).entry(k as int, i as int))
                    &&& canonical(virtual_addr@) ==> forall|va2: usize|
                        (va2 as int) / level_size(page_level(page_type)) == (virtual_addr@ as int)
                            / level_size(page_level(page_type)) ==> (#[trigger] old(self).mem(offset).translate(va2)) is None
                    &&& canonical(virtual_addr@) ==> forall|va2: usize| #[trigger]
                        final(self).mem(offset).translate(va2) == if (va2 as int) / level_size(
                            page_level(page_type),
                        ) == (virtual_addr@ as int) / level_size(page_level(page_type)) {
                            Some(
                                (
                                    physical_addr@ + (va2 as int) % level_size(
                                        page_level(page_type),
                                    ),
                                    leaf_flag_bits(permissions),
                                    page_level(page_type),
                                ),
                            )
                        } else {
                            old(self).mem(offset).translate(va2)
                        }
                },
                Err(e) => {
                    &&& *final(self) == *old(self)
                    &&& match e {
                        MapError::Conflict(c) => {
                            &&& pte_valid(old(self).mem(offset).entry(k as int, i as int))
                            &&& old(self).mem(offset).page_taken(virtual_addr@, page_level(page_type))
                            &&& c.start == virtual_addr
                            &&& c.end@ == virtual_addr@ + page_type.bytes()
                        },
                        MapError::InvalidPermissions(p) => {
                            &&& !pte_valid(old(self).mem(offset).entry(k as int, i as int))
                            &&& permissions_error(permissions) == Some(p)
                        },
                        _ => false,
                    }
                },
            },
    {
        let ghost m = self.mem(offset);
        let ghost level = page_level(page_type);
        proof {
            m.lemma_slot_in_bounds(virtual_addr@);
            m.lemma_wf_shape();
        }
        proof {
            assert(level_size(level) == page_type.bytes());
            assert(physical_addr@ % 4096 == 0) by {
                vstd::arithmetic::div_mod::lemma_mod_mod(
                    physical_addr@ as int,
                    4096,
                    level_size(level) / 4096,
                );
            }
        }
        let pte = self.load_entry(k, i, Ghost(offset));
        if pte.is_valid() {
            proof {
                assert(m.page_taken(virtual_addr@, level));
            }
            return Err(MapError::Conflict(AddressRange::page(virtual_addr, page_type)));
        }
        let value = match PteValue::leaf(physical_addr, permissions) {
            Ok(v) => v,
            Err(e) => {
                return Err(MapError::InvalidPermissions(e));
            },
        };
        self.store_entry(k, i, value, Ghost(offset));
        proof {
            let size = level_size(level);
            assert(size == page_type.bytes());
            m.lemma_map_leaf(k as int, i as int, value@, virtual_addr@, level, physical_addr@ as int);
            if canonical(virtual_addr@) {
                m.lemma_set_leaf_taken(k as int, i as int, value@, virtual_addr@, level);
            }
            assert(self.mem(offset) == m.set_entry(k as int, i as int, value@));
            assert(forall|x: int|
                0 <= x < self.tables@.len() ==> #[trigger] self.locations()[x] == old(self).locations()[x]);
            assert forall|va2: usize, l2: int| #[trigger] self.mem(offset).slot(va2, l2) == m.slot(va2, l2) by {
                self.mem(offset).lemma_same_directories_slots(m, va2);
            }
            assert(self.mem(offset).slot(virtual_addr@, level) == Some((k as int, i as int)));
            assert forall|k2: int, i2: int|
                0 <= k2 < self.mem(offset).len() && 0 <= i2 < 512 && #[trigger] self.mem(offset).entry(k2, i2)
                    != entry_or_zero(m, k2, i2) implies exists|va: usize, l: int|
                #![trigger self.mem(offset).slot(va, l)]
                address_is(virtual_addr@)(va) && 0 <= l <= 2 && self.mem(offset).slot(va, l) == Some((k2, i2)) by {
                assert(k2 == k && i2 == i);
                assert(self.mem(offset).slot(virtual_addr@, level) == Some((k2, i2)));
            }
        }
        Ok(())
    }

    /// The next-level table behind slot `(k, i)`, which the walk for `virtual_addr`
    /// reads at `level`; an unused slot gets a new, empty table.
    fn get_or_create_page_table(
        &mut self,
        k: usize,
        i: usize,
        virtual_addr: VirtualAddr,
        page_type: PageType,
        kernel_phys_to_virt_offset: usize,
        update: &mut PageTableUpdate,
        Ghost(level): Ghost<int>,
    ) -> (r: Result<usize, MapError>)
        requires
            old(self).wf(kernel_phys_to_virt_offset as int),
            1 <= level <= 2,
            page_level(page_type) < level,
            old(self).mem(kernel_phys_to_virt_offset as int).slot(virtual_addr@, level) == Some(
                (k as int, i as int),
            ),
            old(self).mem(kernel_phys_to_virt_offset as int).page_taken(
                virtual_addr@,
                page_level(page_type),
            ) ==> virtual_addr@ + page_type.bytes() <= usize::MAX,
        ensures
            final(self).wf(kernel_phys_to_virt_offset as int),
            final(self).available_range == old(self).available_range,
            forall|va2: usize| #[trigger]
                final(self).mem(kernel_phys_to_virt_offset as int).translate(va2) == old(self).mem(kernel_phys_to_virt_offset as int).translate(va2),
            final(self).table_count() == old(self).table_count() ==> final(self).mem(
                kernel_phys_to_virt_offset as int,
            ) == old(self).mem(kernel_phys_to_virt_offset as int) && *final(update) == *old(update),
            final(self).table_count() != old(self).table_count() ==> *final(update)
                == PageTableUpdate::Many,
            final(self).table_count() >= old(self).table_count(),
            final(self).table_count() <= old(self).table_count() + 1,
            final(self).next_table_location() == old(self).next_table_location() + 4096 * (final(self).table_count() - old(self).table_count()),
            final(self).table_space_end() == old(self).table_space_end(),
            forall|va2: usize, l2: int|
                0 <= l2 <= page_level(page_type) ==> #[trigger] final(self).mem(
                    kernel_phys_to_virt_offset as int,
                ).page_taken(va2, l2) == old(self).mem(kernel_phys_to_virt_offset as int).page_taken(
                    va2,
                    l2,
                ),
            canonical(virtual_addr@) ==> forall|va2: usize, l2: int|
                canonical(va2) && 0 <= l2 <= 2 && (va2 as int) / level_size(l2) != (
                virtual_addr@ as int) / level_size(l2) ==> #[trigger] final(self).mem(
                    kernel_phys_to_virt_offset as int,
                ).page_taken(va2, l2) == old(self).mem(kernel_phys_to_virt_offset as int).page_taken(
                    va2,
                    l2,
                ),
            pte_valid(old(self).mem(kernel_phys_to_virt_offset as int).entry(k as int, i as int))
                ==> final(self).table_count() == old(self).table_count(),
            forall|va2: usize, l2: int|
                0 <= l2 <= 2 && old(self).mem(kernel_phys_to_virt_offset as int).slot(va2, l2) is Some
                    ==> #[trigger] final(self).mem(kernel_phys_to_virt_offset as int).slot(va2, l2)
                    == old(self).mem(kernel_phys_to_virt_offset as int).slot(va2, l2),
            slots_kept(
                old(self).mem(kernel_phys_to_virt_offset as int),
                final(self).mem(kernel_phys_to_virt_offset as int),
            ),
            entries_changed_on(
                old(self).mem(kernel_phys_to_virt_offset as int),
                final(self).mem(kernel_phys_to_virt_offset as int),
                address_is(virtual_addr@),
            ),
            match r {
                Ok(j) => final(self).mem(kernel_phys_to_virt_offset as int).slot(
                    virtual_addr@,
                    level - 1,
                ) == Some((j as int, vpn(virtual_addr@, level - 1) as int)),
                Err(e) => {
                    &&& *final(self) == *old(self)
                    &&& match e {
                        MapError::Conflict(c) => {
                            &&& pte_valid(
                                old(self).mem(kernel_phys_to_virt_offset as int).entry(
                                    k as int,
                                    i as int,
                                ),
                            )
                            &&& old(self).mem(kernel_phys_to_virt_offset as int).page_taken(
                                virtual_addr@,
                                page_level(page_type),
                            )
                            &&& c.start == virtual_addr
                            &&& c.end@ == virtual_addr@ + page_type.bytes()
                        },
                        MapError::TableSpaceExhausted => {
                            &&& !pte_valid(
                                old(self).mem(kernel_phys_to_virt_offset as int).entry(
                                    k as int,
                                    i as int,
                                ),
                            )
                            &&& old(self).next_table_location() + 4096 > old(self).table_space_end()
                        },
                        _ => false,
                    }
                },
            },
    {
        let ghost offset = kernel_phys_to_virt_offset as int;
        let ghost m = self.mem(offset);
        proof {
            m.lemma_slot_in_bounds(virtual_addr@);
            m.lemma_wf_shape();
        }
        let pte_val = self.load_entry(k, i, Ghost(offset));
        if !pte_val.is_valid() {
            let saved_update = *update;
            *update = PageTableUpdate::Many;
            let n = match self.new_table(Ghost(offset)) {
                Ok(n) => n,
                Err(e) => {
                    *update = saved_update;
                    return Err(e);
                },
            };
            let ghost p = old(self).next_table_location() - offset;
            assert(self.locations()[n as int] == old(self).next_table_location());
            let phys_addr = self.tables[n].physical_addr(kernel_phys_to_virt_offset);
            let v = PteValue::non_leaf(phys_addr);
            proof {
                assert(pte_ppn(v@) * 4096 == p);
                m.lemma_link_new_table(k as int, i as int, p, v@);
                m.lemma_link_taken_below(k as int, i as int, p, v@, virtual_addr@, level);
                if canonical(virtual_addr@) {
                    m.lemma_link_taken_elsewhere(k as int, i as int, p, v@, virtual_addr@, level);
                }
                assert forall|va2: usize, l2: int|
                    0 <= l2 <= 2 && m.slot(va2, l2) is Some implies #[trigger] m.push_table(p).set_entry(
                    k as int,
                    i as int,
                    v@,
                ).slot(va2, l2) == m.slot(va2, l2) by {
                    m.lemma_link_keeps_slots(k as int, i as int, p, v@, va2);
                }
                assert(self.entries_view()[k as int] == m.tables[k as int]);
            }
            self.store_entry(k, i, v, Ghost(offset));
            proof {
                let m2 = m.push_table(p).set_entry(k as int, i as int, v@);
                assert(self.mem(offset) == m2);
                assert forall|x: int| 0 <= x < self.tables@.len() implies offset
                    <= #[trigger] self.locations()[x] < self.table_space.start@ by {
                    if x < n {
                        assert(self.locations()[x] == old(self).locations()[x]);
                    }
                }
                if level == 2 {
                    assert(m2.e2(virtual_addr@) == v@);
                } else {
                    let e2 = m.e2(virtual_addr@);
                    m.lemma_target(0, vpn(virtual_addr@, 2) as int);
                    assert(m2.e2(virtual_addr@) == e2);
                    assert(m2.t1(virtual_addr@) == m.t1(virtual_addr@));
                    assert(m2.e1(virtual_addr@) == v@);
                }
                assert(m2.slot(virtual_addr@, level) == Some((k as int, i as int)));
                assert forall|k2: int, i2: int|
                    0 <= k2 < m2.len() && 0 <= i2 < 512 && #[trigger] m2.entry(k2, i2) != entry_or_zero(
                        m,
                        k2,
                        i2,
                    ) implies exists|va: usize, l: int|
                    #![trigger m2.slot(va, l)]
                    address_is(virtual_addr@)(va) && 0 <= l <= 2 && m2.slot(va, l) == Some((k2, i2)) by {
                    assert(k2 == k && i2 == i);
                    assert(m2.slot(virtual_addr@, level) == Some((k2, i2)));
                }
            }
            Ok(n)
        } else if pte_val.is_leaf() {
            proof {
                assert(m.page_taken(virtual_addr@, page_level(page_type)));
            }
            Err(MapError::Conflict(AddressRange::page(virtual_addr, page_type)))
        } else {
            let j = self.child_table(k, i, kernel_phys_to_virt_offset);
            Ok(j)
        }
    }

    /// Maps a single page without alignment checks.
    ///
    /// Taking `&mut self` ensures that this method cannot run concurrently and
    /// nothing else can write the page-table entries at the same time.
    #[verifier::rlimit(80)]
    fn map_page(
        &mut self,
        page_type: PageType,
        virtual_addr: VirtualAddr,
        physical_addr: PhysicalAddr,
        permissions: PagePermissions,
        kernel_phys_to_virt_offset: usize,
    ) -> (r: Result<PageTableUpdate, MapError>)
        requires
            old(self).wf(kernel_phys_to_virt_offset as int),
            virtual_addr@ % page_type.bytes() == 0,
            old(self).mem(kernel_phys_to_virt_offset as int).page_taken(
                virtual_addr@,
                page_level(page_type),
            ) ==> virtual_addr@ + page_type.bytes() <= usize::MAX,
            physical_addr@ % (page_type.bytes() as u64) == 0,
        ensures
            slots_kept(
                old(self).mem(kernel_phys_to_virt_offset as int),
                final(self).mem(kernel_phys_to_virt_offset as int),
            ),
            entries_changed_on(
                old(self).mem(kernel_phys_to_virt_offset as int),
                final(self).mem(kernel_phys_to_virt_offset as int),
                address_is(virtual_addr@),
            ),
            final(self).wf(kernel_phys_to_virt_offset as int),
            final(self).available_range == old(self).available_range,
            final(self).table_count() >= old(self).table_count(),
            final(self).table_count() <= old(self).table_count() + 2,
            final(self).next_table_location() == old(self).next_table_location() + 4096 * (final(self).table_count() - old(self).table_count()),
            final(self).table_space_end() == old(self).table_space_end(),
            old(self).table_space_end() >= old(self).next_table_location() + 8192 ==> !(r matches Err(MapError::TableSpaceExhausted)),
            r matches Err(MapError::Conflict(_)) ==> old(self).mem(kernel_phys_to_virt_offset as int).page_taken(
                virtual_addr@,
                page_level(page_type),
            ),
            canonical(virtual_addr@) ==> forall|va2: usize, l2: int|
                canonical(va2) && 0 <= l2 <= page_level(page_type) && (va2 as int) / level_size(
                    page_level(page_type),
                ) != (virtual_addr@ as int) / level_size(page_level(page_type)) ==> #[trigger] final(self).mem(kernel_phys_to_virt_offset as int).page_taken(va2, l2) == old(self).mem(
                    kernel_phys_to_virt_offset as int,
                ).page_taken(va2, l2),
            canonical(virtual_addr@) ==> forall|va2: usize, l2: int|
                canonical(va2) && page_level(page_type) < l2 <= 2 && (va2 as int) / level_size(l2)
                    != (virtual_addr@ as int) / level_size(l2) ==> #[trigger] final(self).mem(
                    kernel_phys_to_virt_offset as int,
                ).page_taken(va2, l2) == old(self).mem(kernel_phys_to_virt_offset as int).page_taken(
                    va2,
                    l2,
                ),
            permissions_error(permissions) is Some ==> r is Err,
            old(self).mem(kernel_phys_to_virt_offset as int).page_taken(
                virtual_addr@,
                page_level(page_type),
            ) ==> r matches Err(MapError::Conflict(_)),
            r matches Ok(u) ==> (u == PageTableUpdate::One(virtual_addr) <==> final(self).table_count()
                == old(self).table_count()),
            r is Ok ==> final(self).mem(kernel_phys_to_virt_offset as int).reaches(
                virtual_addr@,
                page_level(page_type),
            ),
            final(self).table_count() <= old(self).table_count() + page_table_need(
                old(self).mem(kernel_phys_to_virt_offset as int),
                virtual_addr@,
                page_type,
            ),
            old(self).table_space_end() >= old(self).next_table_location() + 4096 * page_table_need(
                old(self).mem(kernel_phys_to_virt_offset as int),
                virtual_addr@,
                page_type,
            ) ==> !(r matches Err(MapError::TableSpaceExhausted)),
            match r {
                Ok(u) => {
                    &&& permissions_error(permissions) is None
                    &&& u == PageTableUpdate::One(virtual_addr) || u == PageTableUpdate::Many
                    &&& u == PageTableUpdate::One(virtual_addr) ==> final(self).mem(
                        kernel_phys_to_virt_offset as int,
                    ).same_directories(old(self).mem(kernel_phys_to_virt_offset as int))
                    &&& canonical(virtual_addr@) ==> forall|va2: usize|
                        (va2 as int) / level_size(page_level(page_type)) == (virtual_addr@ as int)
                            / level_size(page_level(page_type)) ==> (#[trigger] old(self).mem(kernel_phys_to_virt_offset as int).translate(va2)) is None
                    &&& canonical(virtual_addr@) ==> forall|va2: usize| #[trigger]
                        final(self).mem(kernel_phys_to_virt_offset as int).translate(va2) == if (
                        va2 as int) / level_size(page_level(page_type)) == (virtual_addr@ as int)
                            / level_size(page_level(page_type)) {
                            Some(
                                (
                                    physical_addr@ + (va2 as int) % level_size(page_level(page_type)),
                                    leaf_flag_bits(permissions),
                                    page_level(page_type),
                                ),
                            )
                        } else {
                            old(self).mem(kernel_phys_to_virt_offset as int).translate(va2)
                        }
                },
                Err(e) => {
                    &&& forall|va2: usize| #[trigger]
                        final(self).mem(kernel_phys_to_virt_offset as int).translate(va2) == old(self).mem(kernel_phys_to_virt_offset as int).translate(va2)
                    &&& match e {
                        MapError::Conflict(c) => {
                            &&& c.start == virtual_addr
                            &&& c.end@ == virtual_addr@ + page_type.bytes()
                            &&& final(self).mem(kernel_phys_to_virt_offset as int).page_taken(
                                virtual_addr@,
                                page_level(page_type),
                            )
                        },
                        MapError::InvalidPermissions(p) => permissions_error(permissions) == Some(
                            p,
                        ),
                        MapError::TableSpaceExhausted => final(self).next_table_location() + 4096
                            > final(self).table_space_end(),
                        _ => false,
                    }
                },
            },
    {
        let ghost offset = kernel_phys_to_virt_offset as int;
        let ghost level = page_level(page_type);
        proof {
            reveal(page_table_need);
            reveal(PtMem::reaches);
        }
        let mut update = PageTableUpdate::One(virtual_addr);
        let ghost mut before_leaf = *self;
        let ghost m0 = self.mem(offset);
        let ghost on_va = address_is(virtual_addr@);
        match page_type {
            PageType::Huge => {
                proof {
                    before_leaf = *self;
                }
                self.map_leaf_pte(
                    0,
                    virtual_addr.vpn2(),
                    virtual_addr,
                    page_type,
                    physical_addr,
                    permissions,
                    Ghost(offset),
                )?;
            },
            PageType::Large => {
                let t1 = self.get_or_create_page_table(
                    0,
                    virtual_addr.vpn2(),
                    virtual_addr,
                    page_type,
                    kernel_phys_to_virt_offset,
                    &mut update,
                    Ghost(2),
                )?;
                proof {
                    before_leaf = *self;
                }
                self.map_leaf_pte(
                    t1,
                    virtual_addr.vpn1(),
                    virtual_addr,
                    page_type,
                    physical_addr,
                    permissions,
                    Ghost(offset),
                )?;
                proof {
                    lemma_changed_trans(m0, before_leaf.mem(offset), self.mem(offset), on_va, on_va, on_va);
                }
            },
            PageType::Small => {
                let t1 = self.get_or_create_page_table(
                    0,
                    virtual_addr.vpn2(),
                    virtual_addr,
                    page_type,
                    kernel_phys_to_virt_offset,
                    &mut update,
                    Ghost(2),
                )?;
                let ghost m1 = self.mem(offset);
                let t0 = self.get_or_create_page_table(
                    t1,
                    virtual_addr.vpn1(),
                    virtual_addr,
                    page_type,
                    kernel_phys_to_virt_offset,
                    &mut update,
                    Ghost(1),
                )?;
                proof {
                    before_leaf = *self;
                    lemma_changed_trans(m0, m1, self.mem(offset), on_va, on_va, on_va);
                }
                self.map_leaf_pte(
                    t0,
                    virtual_addr.vpn0(),
                    virtual_addr,
                    page_type,
                    physical_addr,
                    permissions,
                    Ghost(offset),
                )?;
                proof {
                    lemma_changed_trans(m0, before_leaf.mem(offset), self.mem(offset), on_va, on_va, on_va);
                }
            },
        }
        proof {
            if canonical(virtual_addr@) {
                assert forall|va2: usize, l2: int|
                    canonical(va2) && level < l2 <= 2 && (va2 as int) / level_size(l2) != (
                    virtual_addr@ as int) / level_size(l2) implies #[trigger] self.mem(
                    offset,
                ).page_taken(va2, l2) == old(self).mem(offset).page_taken(va2, l2) by {
                    if (va2 as int) / level_size(level) == (virtual_addr@ as int) / level_size(level) {
                        lemma_coarser_page(va2 as int, virtual_addr@ as int, level, l2);
                    }
                    assert(self.mem(offset).page_taken(va2, l2) == before_leaf.mem(offset).page_taken(va2, l2));
                }
                assert forall|va2: usize|
                    (va2 as int) / level_size(level) == (virtual_addr@ as int) / level_size(
                        level,
                    ) implies (#[trigger] old(self).mem(offset).translate(va2)) is None by {
                    assert(before_leaf.mem(offset).translate(va2) == old(self).mem(offset).translate(va2));
                }
                assert forall|va2: usize| #[trigger]
                    self.mem(offset).translate(va2) == if (va2 as int) / level_size(level) == (
                    virtual_addr@ as int) / level_size(level) {
                        Some(
                            (
                                physical_addr@ + (va2 as int) % level_size(level),
                                leaf_flag_bits(permissions),
                                level,
                            ),
                        )
                    } else {
                        old(self).mem(offset).translate(va2)
                    } by {
                    assert(before_leaf.mem(offset).translate(va2) == old(self).mem(offset).translate(va2));
                }
            }
        }
        Ok(update)
    }

    /// Where the growing pages of the range's tiling stop: `ascent_points`.
    fn ascent_points_of(vr: AddressRange<VirtualAddr>, pr: AddressRange<PhysicalAddr>) -> (r: (
        usize,
        usize,
    ))
        requires
            range_check_error(vr, pr) is None,
            pr.fits_usize(),
        ensures
            r.0 == ascent_points(vr, pr).0,
            r.1 == ascent_points(vr, pr).1,
    {
        proof {
            lemma_parts(vr, pr);
        }
        let s = vr.start.get();
        let e = s + vr.size();
        let ps = pr.start.get();
        let m = LARGE_PAGE_SIZE;
        let g = HUGE_PAGE_SIZE;
        let same_m = s % m == (ps % (m as u64)) as usize;
        let same_g = s % g == (ps % (g as u64)) as usize;
        proof {
            lemma_same_residue(s as int, ps as int, m as int);
            lemma_same_residue(s as int, ps as int, g as int);
            lemma_round_up(s as nat, m as nat);
        }
        let up_m: Option<usize> = if s % m == 0 {
            Some(s)
        } else {
            (s - s % m).checked_add(m)
        };
        let a1 = match up_m {
            Some(u) => if same_m && u <= e && e - u >= m {
                u
            } else {
                e
            },
            None => e,
        };
        proof {
            lemma_round_up(a1 as nat, g as nat);
        }
        let up_g: Option<usize> = if a1 % g == 0 {
            Some(a1)
        } else {
            (a1 - a1 % g).checked_add(g)
        };
        let a2 = match up_g {
            Some(u) => if a1 < e && same_g && u <= e && e - u >= g {
                u
            } else {
                a1
            },
            None => a1,
        };
        (a1, a2)
    }

    /// Maps the specified range using an optimal number of pages of automatically chosen size.
    ///
    /// If an error occurs, the partially applied updates are not reverted, and also may not
    /// be visible until TLB is flushed.
    #[verifier::rlimit(100)]
    #[verifier::spinoff_prover]
    pub fn map_range(
        &mut self,
        virtual_range: AddressRange<VirtualAddr>,
        physical_range: AddressRange<PhysicalAddr>,
        permissions: PagePermissions,
        kernel_phys_to_virt_offset: usize,
    ) -> (r: Result<PageTableUpdate, MapError>)
        requires
            old(self).wf(kernel_phys_to_virt_offset as int),
            physical_range.fits_usize(),
        ensures
            map_range_done(
                *old(self),
                *final(self),
                kernel_phys_to_virt_offset as int,
                virtual_range,
                physical_range,
                permissions,
                r,
            ),
    {
        let ghost offset = kernel_phys_to_virt_offset as int;
        let ghost vr = virtual_range;
        let ghost pr = physical_range;
        if !virtual_range.start.is_aligned(PageType::Small) {
            return Err(MapError::VirtualUnaligned(virtual_range.start));
        }
        if !virtual_range.end.is_aligned(PageType::Small) {
            return Err(MapError::VirtualUnaligned(virtual_range.end));
        }
        if !physical_range.start.is_aligned(PageType::Small) {
            return Err(MapError::PhysicalUnaligned(physical_range.start));
        }
        if !physical_range.end.is_aligned(PageType::Small) {
            return Err(MapError::PhysicalUnaligned(physical_range.end));
        }
        if virtual_range.size() != physical_range.size() {
            return Err(MapError::MismatchedLength(virtual_range, physical_range));
        }
        proof {
            lemma_parts(vr, pr);
            lemma_table_need_nonnegative(vr, pr);
        }
        // The range is mapped in three parts, each tiled from the largest page
        // size down: 4 KiB pages up to the first 2 MiB boundary from which a
        // megapage fits, megapages up to the first 1 GiB boundary from which a
        // gigapage fits, and the rest.
        let s = virtual_range.start.get();
        let ps = physical_range.start.get();
        let (a1, a2) = Self::ascent_points_of(virtual_range, physical_range);
        let e = s + virtual_range.size();
        let mut update = PageTableUpdate::Unchanged;
        proof {
            assert(level_size(range_page_level(vr, pr, vr.start@)) > 0);
            assert(parts_mapped(*old(self), *self, offset, vr, pr, permissions, 0, update));
        }
        let mut k: usize = 0;
        while k < 3
            invariant
                0 <= k <= 3,
                offset == kernel_phys_to_virt_offset as int,
                vr == virtual_range,
                pr == physical_range,
                range_check_error(vr, pr) is None,
                pr.fits_usize(),
                s == vr.start@,
                ps == pr.start@,
                a1 == part_bound(vr, pr, 1),
                a2 == part_bound(vr, pr, 2),
                e == part_bound(vr, pr, 3),
                parts_mapped(*old(self), *self, offset, vr, pr, permissions, k as int, update),
            decreases 3 - k,
        {
            let lo = if k == 0 {
                s
            } else if k == 1 {
                a1
            } else {
                a2
            };
            let hi = if k == 0 {
                a1
            } else if k == 1 {
                a2
            } else {
                e
            };
            proof {
                lemma_parts(vr, pr);
            }
            if lo < hi {
                let part_v = AddressRange::new(VirtualAddr::new(lo), VirtualAddr::new(hi));
                let part_p = AddressRange::new(
                    PhysicalAddr::new(ps + (lo - s) as u64),
                    PhysicalAddr::new(ps + (hi - s) as u64),
                );
                let ghost before = *self;
                let ghost old_update = update;
                let ghost part = range_part(vr, pr, k as int);
                proof {
                    broadcast use VirtualAddr::lemma_at_view, PhysicalAddr::lemma_at_view;

                    assert(lo == part_bound(vr, pr, k as int));
                    assert(hi == part_bound(vr, pr, k as int + 1));
                    VirtualAddr::lemma_view_injective(part_v.start, part.0.start);
                    VirtualAddr::lemma_view_injective(part_v.end, part.0.end);
                    PhysicalAddr::lemma_view_injective(part_p.start, part.1.start);
                    PhysicalAddr::lemma_view_injective(part_p.end, part.1.end);
                    assert(part_v == part.0);
                    assert(part_p == part.1);
                    assert(vr.end@ == e);
                    lemma_part_ready(*old(self), *self, offset, vr, pr, permissions, k as int, update);
                }
                let result = self.map_descending(part_v, part_p, permissions, kernel_phys_to_virt_offset);
                match result {
                    Ok(u) => {
                        update.add_assign(u);
                        proof {
                            lemma_part_mapped(
                                *old(self),
                                before,
                                *self,
                                offset,
                                vr,
                                pr,
                                permissions,
                                k as int,
                                old_update,
                                u,
                            );
                        }
                    },
                    Err(err) => {
                        proof {
                            lemma_part_failed(
                                *old(self),
                                before,
                                *self,
                                offset,
                                vr,
                                pr,
                                permissions,
                                k as int,
                                update,
                                err,
                            );
                        }
                        return Err(err);
                    },
                }
            }
            k = k + 1;
        }
        proof {
            lemma_parts_done(*old(self), *self, offset, vr, pr, permissions, update);
        }
        Ok(update)
    }

    /// Maps the range with pages from the largest size down: gigapages while
    /// they fit and both addresses are aligned to them, then megapages, then
    /// 4 KiB pages.
    #[verifier::rlimit(100)]
    #[verifier::spinoff_prover]
    fn map_descending(
        &mut self,
        virtual_range: AddressRange<VirtualAddr>,
        physical_range: AddressRange<PhysicalAddr>,
        permissions: PagePermissions,
        kernel_phys_to_virt_offset: usize,
    ) -> (r: Result<PageTableUpdate, MapError>)
        requires
            old(self).wf(kernel_phys_to_virt_offset as int),
            physical_range.fits_usize(),
        ensures
            slots_kept(
                old(self).mem(kernel_phys_to_virt_offset as int),
                final(self).mem(kernel_phys_to_virt_offset as int),
            ),
            entries_changed_on(
                old(self).mem(kernel_phys_to_virt_offset as int),
                final(self).mem(kernel_phys_to_virt_offset as int),
                addresses_in(virtual_range),
            ),
            final(self).wf(kernel_phys_to_virt_offset as int),
            final(self).available() == old(self).available(),
            range_check_error(virtual_range, physical_range) is None && range_canonical(virtual_range)
                && !descending_free(
                old(self).mem(kernel_phys_to_virt_offset as int),
                virtual_range,
                physical_range,
            ) ==> r is Err,
            range_canonical(virtual_range) ==> (r matches Err(MapError::Conflict(c)) ==> {
                &&& c.end@ == c.start@ + level_size(
                    descending_level(virtual_range, physical_range, c.start@),
                )
                &&& old(self).mem(kernel_phys_to_virt_offset as int).page_taken(
                    c.start@,
                    descending_level(virtual_range, physical_range, c.start@),
                )
            }),
            final(self).table_count() >= old(self).table_count(),
            final(self).table_space_end() == old(self).table_space_end(),
            final(self).next_table_location() <= old(self).next_table_location() + 4096
                * descending_need(virtual_range, physical_range),
            final(self).next_table_location() == old(self).next_table_location() + 4096 * (
            final(self).table_count() - old(self).table_count()),
            range_canonical(virtual_range) ==> taken_outside_unchanged(
                old(self).mem(kernel_phys_to_virt_offset as int),
                final(self).mem(kernel_phys_to_virt_offset as int),
                virtual_range,
            ),
            range_check_error(virtual_range, physical_range) is Some ==> *final(self) == *old(self),
            r matches Ok(u) ==> (u matches PageTableUpdate::One(_) <==> (virtual_range.len()
                == level_size(descending_level(virtual_range, physical_range, virtual_range.start@))
                && final(self).table_count() == old(self).table_count())),
            r is Err && range_check_error(virtual_range, physical_range) is None && range_canonical(
                virtual_range,
            ) ==> exists|f: int|
                #[trigger] descending_up_to(
                    old(self).mem(kernel_phys_to_virt_offset as int),
                    final(self).mem(kernel_phys_to_virt_offset as int),
                    virtual_range,
                    physical_range,
                    permissions,
                    f,
                ),
            range_canonical(virtual_range) ==> (r matches Err(e) ==> (e is Conflict || e is InvalidPermissions) ==> descending_failed(
                old(self).mem(kernel_phys_to_virt_offset as int),
                final(self).mem(kernel_phys_to_virt_offset as int),
                virtual_range,
                physical_range,
                permissions,
                e,
            )),
            r == Err::<PageTableUpdate, MapError>(MapError::TableSpaceExhausted) ==> final(self).next_table_location() + 4096 > final(self).table_space_end(),
            r == Err::<PageTableUpdate, MapError>(MapError::TableSpaceExhausted) ==> old(self).next_table_location()
                + 4096 * descending_need(virtual_range, physical_range) > old(self).table_space_end(),
            old(self).descending_owed(kernel_phys_to_virt_offset as int, virtual_range, physical_range, permissions) ==> r is Ok,
            old(self).descending_ready(kernel_phys_to_virt_offset as int, virtual_range, physical_range)
                && virtual_range.len() > 0 ==> match permissions_error(permissions) {
                Some(p) => r == Err::<PageTableUpdate, MapError>(MapError::InvalidPermissions(p)),
                None => r is Ok,
            },
            range_check_error(virtual_range, physical_range) is None && virtual_range.len() == 0
                ==> r is Ok,
            descending_outcome(
                old(self).mem(kernel_phys_to_virt_offset as int),
                final(self).mem(kernel_phys_to_virt_offset as int),
                virtual_range,
                physical_range,
                permissions,
                r,
            ),
    {
        let ghost offset = kernel_phys_to_virt_offset as int;
        let ghost vr = virtual_range;
        let ghost pr = physical_range;
        let ghost in_range = addresses_in(virtual_range);
        proof {
            lemma_huge_bytes_aligned(vr, pr);
            crate::mmu::walk::lemma_whole_multiples(0, vr.len() - huge_bytes(vr, pr), LARGE_PAGE_SIZE as int);
            lemma_regions_monotone(
                vr.start@ + huge_bytes(vr, pr),
                vr.end@ as int,
                vr.end@ as int,
                HUGE_PAGE_SIZE as int,
            );
            lemma_regions_monotone(
                vr.start@ + huge_bytes(vr, pr) + large_bytes(vr, pr),
                vr.end@ as int,
                vr.end@ as int,
                LARGE_PAGE_SIZE as int,
            );
        }

        if !virtual_range.start.is_aligned(PageType::Small) {
            return Err(MapError::VirtualUnaligned(virtual_range.start));
        }
        if !virtual_range.end.is_aligned(PageType::Small) {
            return Err(MapError::VirtualUnaligned(virtual_range.end));
        }
        if !physical_range.start.is_aligned(PageType::Small) {
            return Err(MapError::PhysicalUnaligned(physical_range.start));
        }
        if !physical_range.end.is_aligned(PageType::Small) {
            return Err(MapError::PhysicalUnaligned(physical_range.end));
        }
        if virtual_range.size() != physical_range.size() {
            return Err(MapError::MismatchedLength(virtual_range, physical_range));
        }

        let ghost ns = vr.start@ + huge_bytes(vr, pr);
        let ghost ss = ns + large_bytes(vr, pr);
        assert(tables_on_track(*self, *self, offset, ns, ss, vr.start@ as int)) by {
            reveal(tables_on_track);
        }
        assert(mapped_so_far(self.mem(offset), self.mem(offset), vr, pr, permissions, vr.start@ as int)) by {
            reveal(mapped_so_far);
        }
        let mut remaining_virtual = virtual_range;
        let mut remaining_physical = physical_range;
        let mut update = PageTableUpdate::default();
        let page_types = [PageType::Huge, PageType::Large, PageType::Small];
        let mut t: usize = 0;
        while t < 3
            invariant
                0 <= t <= 3,
                page_types@ == seq![PageType::Huge, PageType::Large, PageType::Small],
                self.wf(offset),
                self.available() == old(self).available(),
                self.table_count() >= old(self).table_count(),
                self.table_space_end() == old(self).table_space_end(),
                ns == vr.start@ + huge_bytes(vr, pr),
                ss == ns + large_bytes(vr, pr),
                0 <= huge_bytes(vr, pr),
                0 <= large_bytes(vr, pr),
                tables_on_track(*old(self), *self, offset, ns, ss, remaining_virtual.start@ as int),
                range_canonical(vr) ==> taken_outside_unchanged(
                    old(self).mem(offset),
                    self.mem(offset),
                    vr,
                ),
                offset == kernel_phys_to_virt_offset as int,
                vr == virtual_range,
                pr == physical_range,
                range_check_error(vr, pr) is None,
                pr.fits_usize(),
                remaining_virtual.end == vr.end,
                remaining_physical.end == pr.end,
                vr.start@ <= remaining_virtual.start@,
                remaining_virtual.start@ - vr.start@ == remaining_physical.start@ - pr.start@,
                remaining_virtual.len() == remaining_physical.len(),
                remaining_virtual.start@ - vr.start@ <= vr.len(),
                remaining_virtual.len() == vr.len() - (remaining_virtual.start@ - vr.start@),
                remaining_virtual.start@ % 4096 == 0,
                remaining_physical.start@ % 4096 == 0,
                t == 3 ==> remaining_virtual.len() == 0,
                t == 0 ==> remaining_virtual.start@ - vr.start@ <= huge_bytes(vr, pr) && (
                remaining_virtual.start@ - vr.start@) % (HUGE_PAGE_SIZE as int) == 0,
                t >= 1 ==> remaining_virtual.start@ - vr.start@ >= huge_bytes(vr, pr),
                t == 1 ==> remaining_virtual.start@ - vr.start@ <= huge_bytes(vr, pr) + large_bytes(
                    vr,
                    pr,
                ) && (remaining_virtual.start@ - vr.start@ - huge_bytes(vr, pr)) % (
                LARGE_PAGE_SIZE as int) == 0,
                t >= 2 ==> remaining_virtual.start@ - vr.start@ >= huge_bytes(vr, pr) + large_bytes(
                    vr,
                    pr,
                ),
                range_canonical(vr) ==> forall|va: usize|
                    remaining_virtual.start@ <= va < vr.end@ ==> #[trigger] self.mem(offset).page_taken(
                        va,
                        descending_level(vr, pr, va),
                    ) == old(self).mem(offset).page_taken(va, descending_level(vr, pr, va)),
                range_canonical(vr) ==> forall|va: usize|
                    vr.start@ <= va < remaining_virtual.start@ ==> !#[trigger] old(self).mem(
                        offset,
                    ).page_taken(va, descending_level(vr, pr, va)),
                slots_kept(old(self).mem(offset), self.mem(offset)),
                in_range == addresses_in(vr),
                entries_changed_on(old(self).mem(offset), self.mem(offset), in_range),
                permissions_error(permissions) is None || remaining_virtual.start@ == vr.start@,
                update == PageTableUpdate::Unchanged <==> remaining_virtual.start@ == vr.start@,
                update matches PageTableUpdate::One(_) <==> (remaining_virtual.start@ - vr.start@
                    == level_size(descending_level(vr, pr, vr.start@)) && self.table_count() == old(
                    self,
                ).table_count()),
                remaining_virtual.start@ > vr.start@ ==> remaining_virtual.start@ - vr.start@ >= level_size(
                    descending_level(vr, pr, vr.start@),
                ),
                update == PageTableUpdate::Unchanged ==> self.mem(offset) == old(self).mem(offset),
                update matches PageTableUpdate::One(p) ==> {
                    &&& p == vr.start
                    &&& is_page_size(remaining_virtual.start@ - vr.start@)
                    &&& self.mem(offset).same_directories(old(self).mem(offset))
                },
                mapped_so_far(
                    old(self).mem(offset),
                    self.mem(offset),
                    vr,
                    pr,
                    permissions,
                    remaining_virtual.start@ as int,
                ),
            decreases 3 - t,
        {
            let page_type = page_types[t];
            while remaining_virtual.start.is_aligned(page_type) && remaining_physical.start.is_aligned(
                page_type,
            ) && remaining_virtual.size() >= page_type.size() && remaining_physical.size()
                >= page_type.size()
                invariant
                    0 <= t < 3,
                    page_type == page_types@[t as int],
                    page_types@ == seq![PageType::Huge, PageType::Large, PageType::Small],
                    self.wf(offset),
                    self.available() == old(self).available(),
                    self.table_count() >= old(self).table_count(),
                    self.table_space_end() == old(self).table_space_end(),
                    ns == vr.start@ + huge_bytes(vr, pr),
                    ss == ns + large_bytes(vr, pr),
                    0 <= huge_bytes(vr, pr),
                    0 <= large_bytes(vr, pr),
                    tables_on_track(*old(self), *self, offset, ns, ss, remaining_virtual.start@ as int),
                    range_canonical(vr) ==> taken_outside_unchanged(
                        old(self).mem(offset),
                        self.mem(offset),
                        vr,
                    ),
                    offset == kernel_phys_to_virt_offset as int,
                    vr == virtual_range,
                    pr == physical_range,
                    range_check_error(vr, pr) is None,
                    pr.fits_usize(),
                    remaining_virtual.end == vr.end,
                    remaining_physical.end == pr.end,
                    vr.start@ <= remaining_virtual.start@,
                    remaining_virtual.start@ - vr.start@ == remaining_physical.start@ - pr.start@,
                remaining_virtual.len() == remaining_physical.len(),
                remaining_virtual.start@ - vr.start@ <= vr.len(),
                remaining_virtual.len() == vr.len() - (remaining_virtual.start@ - vr.start@),
                    remaining_virtual.start@ % 4096 == 0,
                    remaining_physical.start@ % 4096 == 0,
                    t == 0 ==> remaining_virtual.start@ - vr.start@ <= huge_bytes(vr, pr) && (
                    remaining_virtual.start@ - vr.start@) % (HUGE_PAGE_SIZE as int) == 0,
                    t >= 1 ==> remaining_virtual.start@ - vr.start@ >= huge_bytes(vr, pr),
                    t == 1 ==> remaining_virtual.start@ - vr.start@ <= huge_bytes(vr, pr) + large_bytes(
                        vr,
                        pr,
                    ) && (remaining_virtual.start@ - vr.start@ - huge_bytes(vr, pr)) % (
                    LARGE_PAGE_SIZE as int) == 0,
                    t >= 2 ==> remaining_virtual.start@ - vr.start@ >= huge_bytes(vr, pr) + large_bytes(
                        vr,
                        pr,
                    ),
                    range_canonical(vr) ==> forall|va: usize|
                        remaining_virtual.start@ <= va < vr.end@ ==> #[trigger] self.mem(offset).page_taken(
                            va,
                            descending_level(vr, pr, va),
                        ) == old(self).mem(offset).page_taken(va, descending_level(vr, pr, va)),
                    range_canonical(vr) ==> forall|va: usize|
                        vr.start@ <= va < remaining_virtual.start@ ==> !#[trigger] old(self).mem(
                            offset,
                        ).page_taken(va, descending_level(vr, pr, va)),
                    slots_kept(old(self).mem(offset), self.mem(offset)),
                    in_range == addresses_in(vr),
                    entries_changed_on(old(self).mem(offset), self.mem(offset), in_range),
                    permissions_error(permissions) is None || remaining_virtual.start@ == vr.start@,
                    update == PageTableUpdate::Unchanged <==> remaining_virtual.start@ == vr.start@,
                    update matches PageTableUpdate::One(_) <==> (remaining_virtual.start@ - vr.start@
                        == level_size(descending_level(vr, pr, vr.start@)) && self.table_count() == old(
                        self,
                    ).table_count()),
                    remaining_virtual.start@ > vr.start@ ==> remaining_virtual.start@ - vr.start@ >= level_size(
                        descending_level(vr, pr, vr.start@),
                    ),
                    update == PageTableUpdate::Unchanged ==> self.mem(offset) == old(self).mem(
                        offset,
                    ),
                    update matches PageTableUpdate::One(p) ==> {
                        &&& p == vr.start
                        &&& is_page_size(remaining_virtual.start@ - vr.start@)
                        &&& self.mem(offset).same_directories(old(self).mem(offset))
                    },
                    mapped_so_far(
                        old(self).mem(offset),
                        self.mem(offset),
                        vr,
                        pr,
                        permissions,
                        remaining_virtual.start@ as int,
                    ),
                decreases vr.end@ - remaining_virtual.start@,
            {
                let ghost before = *self;
                let ghost cur = remaining_virtual.start@ as int;
                let ghost pcur = remaining_physical.start@ as int;
                let ghost size = page_type.bytes() as int;
                proof {
                    lemma_page_levels(vr, pr, t as int, cur - vr.start@, pcur);
                }
                let page_result = self.map_page(
                    page_type,
                    remaining_virtual.start,
                    remaining_physical.start,
                    permissions,
                    kernel_phys_to_virt_offset,
                );
                proof {
                    if range_canonical(vr) {
                        assert(canonical(remaining_virtual.start@));
                        assert forall|va: usize, l2: int|
                            canonical(va) && 0 <= l2 <= 2 && page_outside(va, l2, vr) implies #[trigger] self.mem(
                                offset,
                            ).page_taken(va, l2) == old(self).mem(offset).page_taken(va, l2) by {
                            crate::mmu::walk::lemma_outside_page_differs(va, l2, vr, cur, 2 - t as int);
                            assert(self.mem(offset).page_taken(va, l2) == before.mem(offset).page_taken(va, l2));
                        }
                    }
                    assert(cur + size <= vr.end@);
                    assert forall|x: usize| #[trigger] address_is(remaining_virtual.start@)(x) implies in_range(x) by {
                        assert(x == cur);
                    }
                    lemma_changed_trans(
                        old(self).mem(offset),
                        before.mem(offset),
                        self.mem(offset),
                        in_range,
                        address_is(remaining_virtual.start@),
                        in_range,
                    );
                    lemma_slots_kept_trans(old(self).mem(offset), before.mem(offset), self.mem(offset));
                    lemma_tables_step(
                        *old(self),
                        before,
                        *self,
                        offset,
                        vr,
                        pr,
                        cur,
                        t as int,
                        page_type,
                        page_result is Ok,
                    );
                    if page_result is Err {
                        lemma_mapped_error(
                            old(self).mem(offset),
                            before.mem(offset),
                            self.mem(offset),
                            vr,
                            pr,
                            permissions,
                            cur,
                        );
                        match page_result {
                            Err(MapError::Conflict(c)) => {
                                if range_canonical(vr) {
                                    assert(c.start@ == cur);
                                    assert(descending_level(vr, pr, c.start@) == 2 - t as int);
                                    assert(c.end@ == c.start@ + level_size(2 - t as int));
                                }
                            },
                            _ => {},
                        }
                        if range_canonical(vr) {
                            lemma_descending_failed(
                                old(self).mem(offset),
                                before.mem(offset),
                                self.mem(offset),
                                vr,
                                pr,
                                permissions,
                                cur,
                                page_result->Err_0,
                            );
                        }
                    }
                }
                let page_update = page_result?;
                proof {
                    VirtualAddr::lemma_view_injective(remaining_virtual.start, vr.start);
                    if range_canonical(vr) {
                        assert forall|va: usize|
                            cur + size <= va < vr.end@ implies #[trigger] self.mem(offset).page_taken(
                            va,
                            descending_level(vr, pr, va),
                        ) == old(self).mem(offset).page_taken(va, descending_level(vr, pr, va)) by {
                            crate::mmu::walk::lemma_page_of(va as int, cur, size);
                            assert(canonical(va));
                            assert(before.mem(offset).page_taken(va, descending_level(vr, pr, va))
                                == self.mem(offset).page_taken(va, descending_level(vr, pr, va)));
                        }
                        assert(!old(self).mem(offset).page_taken(cur as usize, 2 - t as int));
                        assert forall|va: usize|
                            vr.start@ <= va < cur + size implies !#[trigger] old(self).mem(
                                offset,
                            ).page_taken(va, descending_level(vr, pr, va)) by {
                            if va >= cur {
                                crate::mmu::walk::lemma_page_of(va as int, cur, size);
                                assert(canonical(va));
                                assert(descending_level(vr, pr, va) == 2 - t as int);
                                crate::mmu::walk::lemma_same_page_taken(
                                    old(self).mem(offset),
                                    va,
                                    cur as usize,
                                    2 - t as int,
                                );
                            }
                        }
                    }
                    if range_canonical(vr) {
                        assert(canonical(remaining_virtual.start@));
                    }
                    lemma_mapped_step(
                        old(self).mem(offset),
                        before.mem(offset),
                        self.mem(offset),
                        vr,
                        pr,
                        permissions,
                        cur,
                        pcur,
                        size,
                        2 - t as int,
                    );
                }
                proof {
                    assert(size == level_size(descending_level(vr, pr, vr.start@))
                        || cur > vr.start@);
                }
                update.add_assign(page_update);
                let offset_bytes = page_type.size();
                remaining_virtual.start = remaining_virtual.start.add(offset_bytes);
                remaining_physical.start = remaining_physical.start.add(offset_bytes);
            }
            proof {
                lemma_phase_end(vr, pr, t as int, remaining_virtual.start@ - vr.start@, remaining_physical.start@ as int);
                if t == 2 {
                    assert(remaining_virtual.len() == 0);
                }
            }
            t = t + 1;
        }
        assert(remaining_virtual.len() == 0);
        assert(remaining_physical.len() == 0);
        assert(range_canonical(vr) ==> descending_free(old(self).mem(offset), vr, pr));
        assert(self.next_table_location() <= old(self).next_table_location() + 4096 * descending_need(
            vr,
            pr,
        ) && self.next_table_location() == old(self).next_table_location() + 4096 * (
        self.table_count() - old(self).table_count())) by {
            reveal(tables_on_track);
        }
        proof {
            lemma_mapped_whole(
                old(self).mem(offset),
                self.mem(offset),
                vr,
                pr,
                permissions,
                remaining_virtual.start@ as int,
            );
        }
        Ok(update)
    }

    /// An address space whose root table sits at the start of `table_space`
    /// and which hands out the virtual addresses of `range`.
    pub fn new(range: AddressRange<VirtualAddr>, table_space: AddressRange<VirtualAddr>) -> (r: Self)
        requires
            table_space.start@ + 4096 <= table_space.end@,
        ensures
            r.available() == range,
            r.table_count() == 1,
            r.root_location() == table_space.start@,
            r.next_table_location() == table_space.start@ + 4096,
            r.table_space_end() == table_space.end@,
            forall|offset: int|
                offset <= table_space.start@ && (table_space.start@ - offset) % 4096 == 0 ==> r.wf(
                    offset,
                ),
            forall|offset: int, va: usize| (#[trigger] r.mem(offset).translate(va)) is None,
            forall|offset: int, va: usize, level: int| !#[trigger] r.mem(offset).page_taken(va, level),
    {
        let root = PageTable::new(table_space.start);
        let mut tables: Vec<PageTable> = Vec::new();
        tables.push(root);
        let space = AddressSpace {
            tables,
            table_space: AddressRange::new(table_space.start.add(4096), table_space.end),
            available_range: range,
        };
        proof {
            assert(space.entries_view() =~= seq![Seq::new(512, |i: int| 0u64)]);
            assert forall|offset: int|
                offset <= table_space.start@ && (table_space.start@ - offset) % 4096 == 0 implies space.wf(
                offset,
            ) by {
                let m = space.mem(offset);
                assert(m.phys =~= seq![table_space.start@ - offset]);
                PtMem::lemma_single_table_wf(m);
                assert(space.locations()[0] == table_space.start@);
            }
            assert forall|offset: int, va: usize| (#[trigger] space.mem(offset).translate(va)) is None by {
                PtMem::lemma_empty_root(space.mem(offset), va);
            }
            assert forall|offset: int, va: usize, level: int| !#[trigger] space.mem(offset).page_taken(va, level) by {
                PtMem::lemma_empty_root_free(space.mem(offset), va, level);
            }
        }
        space
    }

    /// An address space with the given ranges mapped globally, each onto the
    /// physical memory at `kernel_phys_to_virt_offset` below it.
    #[verifier::rlimit(50)]
    #[verifier::spinoff_prover]
    pub fn new_with_global_mappings(
        range: AddressRange<VirtualAddr>,
        kernel_phys_to_virt_offset: usize,
        mappings: &[(AddressRange<VirtualAddr>, PagePermissions)],
        table_space: AddressRange<VirtualAddr>,
    ) -> (r: Result<Self, MapError>)
        requires
            kernel_phys_to_virt_offset <= table_space.start@,
            (table_space.start@ - kernel_phys_to_virt_offset) % 4096 == 0,
            forall|j: int|
                0 <= j < mappings@.len() ==> kernel_phys_to_virt_offset <= (
                #[trigger] mappings@[j]).0.start@ && kernel_phys_to_virt_offset <= mappings@[j].0.end@,
        ensures
            r matches Ok(space) ==> {
                &&& space.wf(kernel_phys_to_virt_offset as int)
                &&& space.available() == range
                &&& (forall|j: int|
                    0 <= j < mappings@.len() ==> range_canonical(#[trigger] mappings@[j].0))
                    ==> global_mappings_translate(
                    space.mem(kernel_phys_to_virt_offset as int),
                    mappings@,
                    kernel_phys_to_virt_offset as int,
                )
                &&& space.table_space_end() == table_space.end@
                &&& space.next_table_location() <= table_space.start@ + 4096 + 4096 * total_need(
                    mappings@,
                    kernel_phys_to_virt_offset as int,
                )
                &&& (forall|j: int|
                    0 <= j < mappings@.len() ==> range_canonical(#[trigger] mappings@[j].0))
                    ==> forall|va: usize|
                    canonical(va) && (forall|j: int|
                        0 <= j < mappings@.len() ==> page_outside(va, 2, #[trigger] mappings@[j].0))
                        ==> !#[trigger] space.mem(kernel_phys_to_virt_offset as int).page_taken(va, 2)
            },
            table_space.start@ + 4096 > table_space.end@ ==> r == Err::<Self, MapError>(
                MapError::TableSpaceExhausted,
            ),
            r matches Err(e) ==> (e == MapError::TableSpaceExhausted && table_space.start@ + 4096
                > table_space.end@) || exists|j: int|
                0 <= j < mappings@.len() && global_mapping_error(
                    #[trigger] mappings@[j],
                    kernel_phys_to_virt_offset as int,
                    e,
                ) && (forall|k: int|
                    0 <= k < j ==> global_mapping_accepted(
                        #[trigger] mappings@[k],
                        kernel_phys_to_virt_offset as int,
                    )) && ((forall|j2: int|
                    0 <= j2 < mappings@.len() ==> range_canonical(#[trigger] mappings@[j2].0)) ==> forall|a: int, b: int|
                    0 <= a < b < j ==> ranges_disjoint(
                        #[trigger] mappings@[a].0,
                        #[trigger] mappings@[b].0,
                    )) && ((forall|j3: int|
                    0 <= j3 < mappings@.len() ==> range_canonical(#[trigger] mappings@[j3].0)) ==> (
                e matches MapError::Conflict(c) ==> exists|k: int|
                    0 <= k < j && !page_outside(
                        c.start@,
                        range_page_level(
                            mappings@[j].0,
                            global_physical_range(mappings@[j].0, kernel_phys_to_virt_offset as int),
                            c.start@,
                        ),
                        #[trigger] mappings@[k].0,
                    ))),
            r == Err::<Self, MapError>(MapError::TableSpaceExhausted) ==> table_space.start@ + 4096
                + 4096 * total_need(mappings@, kernel_phys_to_virt_offset as int) > table_space.end@,
            r is Ok ==> forall|j: int|
                0 <= j < mappings@.len() ==> global_mapping_accepted(
                    #[trigger] mappings@[j],
                    kernel_phys_to_virt_offset as int,
                ),
            r is Ok && (forall|j: int|
                0 <= j < mappings@.len() ==> range_canonical(#[trigger] mappings@[j].0)) ==> forall|
                a: int,
                b: int,
            | 0 <= a < b < mappings@.len() ==> ranges_disjoint(
                #[trigger] mappings@[a].0,
                #[trigger] mappings@[b].0,
            ),
            global_mappings_prepared(mappings@, kernel_phys_to_virt_offset as int, table_space) ==> (
            r is Ok <==> forall|j: int|
                0 <= j < mappings@.len() ==> global_mapping_accepted(
                    #[trigger] mappings@[j],
                    kernel_phys_to_virt_offset as int,
                )),
            global_mappings_prepared(mappings@, kernel_phys_to_virt_offset as int, table_space)
                && r is Err ==> (r matches Err(MapError::InvalidPermissions(p)) && exists|j: int|
                0 <= j < mappings@.len() && mappings@[j].0.len() > 0 && permissions_error(
                    #[trigger] mappings@[j].1,
                ) == Some(p) && forall|k: int|
                    0 <= k < j ==> global_mapping_accepted(
                        #[trigger] mappings@[k],
                        kernel_phys_to_virt_offset as int,
                    )),
    {
        let ghost offset = kernel_phys_to_virt_offset as int;
        let ghost prepared = global_mappings_prepared(mappings@, offset, table_space);
        proof {
            lemma_total_need_nonnegative(mappings@, offset);
        }
        let end = table_space.end.get();
        if end < 4096 || table_space.start.get() > end - 4096 {
            return Err(MapError::TableSpaceExhausted);
        }
        let mut space = Self::new(range, table_space);
        proof {
            assert(mappings@.skip(0) =~= mappings@);
        }
        let mut i: usize = 0;
        while i < mappings.len()
            invariant
                0 <= i <= mappings@.len(),
                offset == kernel_phys_to_virt_offset as int,
                prepared == global_mappings_prepared(mappings@, offset, table_space),
                space.table_space_end() == table_space.end@,
                space.next_table_location() + 4096 * total_need(mappings@.skip(i as int), offset)
                    <= table_space.start@ + 4096 + 4096 * total_need(mappings@, offset),
                (forall|j: int| 0 <= j < mappings@.len() ==> range_canonical(#[trigger] mappings@[j].0))
                    ==> forall|va: usize, l: int|
                    canonical(va) && 0 <= l <= 2 && #[trigger] space.mem(offset).page_taken(va, l)
                        ==> exists|k: int| 0 <= k < i && !page_outside(va, l, #[trigger] mappings@[k].0),
                (forall|j: int| 0 <= j < mappings@.len() ==> range_canonical(#[trigger] mappings@[j].0))
                    ==> forall|va: usize|
                    canonical(va) && (forall|j: int|
                        0 <= j < i ==> page_outside(va, 2, #[trigger] mappings@[j].0))
                        ==> !#[trigger] space.mem(offset).page_taken(va, 2),
                prepared ==> space.next_table_location() + 4096 * total_need(
                    mappings@.skip(i as int),
                    offset,
                ) <= space.table_space_end(),
                prepared ==> forall|k: int|
                    i <= k < mappings@.len() ==> range_free(
                        space.mem(offset),
                        #[trigger] mappings@[k].0,
                        global_physical_range(mappings@[k].0, offset),
                    ),
                table_space.start@ + 4096 <= table_space.end@,
                space.wf(offset),
                space.available() == range,
                forall|j: int|
                    0 <= j < mappings@.len() ==> kernel_phys_to_virt_offset <= (
                    #[trigger] mappings@[j]).0.start@ && kernel_phys_to_virt_offset
                        <= mappings@[j].0.end@,
                (forall|j: int| 0 <= j < mappings@.len() ==> range_canonical(#[trigger] mappings@[j].0))
                    ==> global_mappings_translate(space.mem(offset), mappings@.take(i as int), offset),
                forall|k: int| 0 <= k < i ==> global_mapping_accepted(#[trigger] mappings@[k], offset),
                (forall|j: int| 0 <= j < mappings@.len() ==> range_canonical(#[trigger] mappings@[j].0))
                    ==> forall|a: int, b: int|
                    0 <= a < b < i ==> ranges_disjoint(
                        #[trigger] mappings@[a].0,
                        #[trigger] mappings@[b].0,
                    ),
            decreases mappings@.len() - i,
        {
            let (range, permissions) = mappings[i];
            let ghost before = space.mem(offset);
            let ghost before_space = space;
            proof {
                lemma_total_need_skip(mappings@, offset, i as int);
                if prepared {
                    assert(global_mapping_ready(mappings@[i as int], offset));
                    assert(before_space.map_range_ready(
                        offset,
                        range,
                        global_physical_range(range, offset),
                    ));
                }
            }
            let result = space.map_global_kernel_range(range, permissions, kernel_phys_to_virt_offset);
            proof {
                if prepared {
                    lemma_later_mappings_free(before, space.mem(offset), mappings@, i as int, offset);
                }
            }
            // The address space has never been active, so no TLB holds any of its
            // translations; it is flushed as a whole when it is switched to.
            let update = match result {
                Ok(update) => update,
                Err(e) => {
                    proof {
                        assert(global_mapping_error(mappings@[i as int], offset, e));
                        if forall|j: int| 0 <= j < mappings@.len() ==> range_canonical(#[trigger] mappings@[j].0) {
                            assert(range_canonical(mappings@[i as int].0));
                            match e {
                                MapError::Conflict(c) => {
                                    let l = range_page_level(
                                        mappings@[i as int].0,
                                        global_physical_range(mappings@[i as int].0, offset),
                                        c.start@,
                                    );
                                    assert(canonical(c.start@));
                                    assert(before.page_taken(c.start@, l));
                                },
                                _ => {},
                            }
                        }
                        if prepared {
                            assert(mappings@[i as int].0.len() > 0);
                            assert(permissions_error(mappings@[i as int].1) is Some);
                        }
                    }
                    return Err(e);
                },
            };
            update.do_not_flush();
            proof {
                assert(global_mapping_accepted(mappings@[i as int], offset));
                if forall|j: int| 0 <= j < mappings@.len() ==> range_canonical(#[trigger] mappings@[j].0) {
                    assert(range_canonical(mappings@[i as int].0));
                    assert forall|va: usize, l: int|
                        canonical(va) && 0 <= l <= 2 && #[trigger] space.mem(offset).page_taken(va, l)
                            implies exists|k: int|
                        0 <= k < i + 1 && !page_outside(va, l, #[trigger] mappings@[k].0) by {
                        if page_outside(va, l, mappings@[i as int].0) {
                            assert(space.mem(offset).page_taken(va, l) == before.page_taken(va, l));
                            let k = choose|k: int| 0 <= k < i && !page_outside(va, l, #[trigger] mappings@[k].0);
                            assert(0 <= k < i + 1 && !page_outside(va, l, mappings@[k].0));
                        } else {
                            assert(0 <= i < i + 1 && !page_outside(va, l, mappings@[i as int].0));
                        }
                    }
                    assert forall|va: usize|
                        canonical(va) && (forall|j: int|
                            0 <= j < i + 1 ==> page_outside(va, 2, #[trigger] mappings@[j].0))
                            implies !#[trigger] space.mem(offset).page_taken(va, 2) by {
                        assert(page_outside(va, 2, mappings@[i as int].0));
                        assert(space.mem(offset).page_taken(va, 2) == before.page_taken(va, 2));
                    }
                    assert forall|a: int| 0 <= a < i implies ranges_disjoint(
                        #[trigger] mappings@[a].0,
                        mappings@[i as int].0,
                    ) by {
                        let ra = mappings@[a].0;
                        let ri = mappings@[i as int].0;
                        if !ranges_disjoint(ra, ri) {
                            let va: usize = if ra.start@ < ri.start@ {
                                ri.start@
                            } else {
                                ra.start@
                            };
                            assert(mappings@.take(i as int)[a] == mappings@[a]);
                            lemma_global_mapping_index_some(mappings@.take(i as int), a, va);
                            assert(before.translate(va) is Some);
                        }
                    }
                    lemma_global_mappings_step(
                        before,
                        space.mem(offset),
                        mappings@,
                        i as int,
                        offset,
                        update,
                    );
                }
            }
            i = i + 1;
        }
        proof {
            assert(mappings@.take(mappings@.len() as int) =~= mappings@);
            assert(mappings@.skip(mappings@.len() as int) =~= Seq::<(AddressRange<VirtualAddr>, PagePermissions)>::empty());
        }
        Ok(space)
    }

    /// Maps `range` onto the physical memory at `kernel_phys_to_virt_offset` below it:
    /// whatever `map_range` promises of mapping `range` onto
    /// `global_physical_range(range, kernel_phys_to_virt_offset)`, this does.
    pub fn map_global_kernel_range(
        &mut self,
        range: AddressRange<VirtualAddr>,
        permissions: PagePermissions,
        kernel_phys_to_virt_offset: usize,
    ) -> (r: Result<PageTableUpdate, MapError>)
        requires
            old(self).wf(kernel_phys_to_virt_offset as int),
            kernel_phys_to_virt_offset <= range.start@,
            kernel_phys_to_virt_offset <= range.end@,
        ensures
            map_range_done(
                *old(self),
                *final(self),
                kernel_phys_to_virt_offset as int,
                range,
                global_physical_range(range, kernel_phys_to_virt_offset as int),
                permissions,
                r,
            ),
    {
        let to_physical = |addr: VirtualAddr| -> (p: PhysicalAddr)
            requires
                addr@ >= kernel_phys_to_virt_offset,
            ensures
                p@ == addr@ - kernel_phys_to_virt_offset,
            { Self::global_mapping_virt_to_phys(addr, kernel_phys_to_virt_offset) };
        let physical_range = range.map(to_physical);
        assert(physical_range == global_physical_range(range, kernel_phys_to_virt_offset as int)) by {
            broadcast use PhysicalAddr::lemma_at_view;

            assert(((range.start@ - kernel_phys_to_virt_offset) as u64) as int == range.start@
                - kernel_phys_to_virt_offset);
            assert(((range.end@ - kernel_phys_to_virt_offset) as u64) as int == range.end@
                - kernel_phys_to_virt_offset);
            PhysicalAddr::lemma_view_injective(physical_range.start, global_physical_range(range, kernel_phys_to_virt_offset as int).start);
            PhysicalAddr::lemma_view_injective(physical_range.end, global_physical_range(range, kernel_phys_to_virt_offset as int).end);
        }
        self.map_range(range, physical_range, permissions, kernel_phys_to_virt_offset)
    }

    /// Whether `allocate_addresses(size, alignment)` can take its addresses from
    /// the available ones.
    pub fn can_allocate(&self, size: usize, alignment: Alignment) -> (r: bool)
        ensures
            r == allocation_fits(self.available(), size, alignment@),
    {
        let requested = alignment.as_usize();
        assert(requested > 0);
        let align = alignment.max(PageType::Small.alignment()).as_usize();
        let start = self.available_range.start.get();
        let end = self.available_range.end.get();
        let rem = start % align;
        if rem != 0 && start > usize::MAX - (align - rem) {
            return false;
        }
        let aligned_start = if rem == 0 {
            start
        } else {
            start + (align - rem)
        };
        let size_rem = size % 4096;
        if size_rem != 0 && size > usize::MAX - (4096 - size_rem) {
            return false;
        }
        let aligned_size = if size_rem == 0 {
            size
        } else {
            size + (4096 - size_rem)
        };
        aligned_start <= end && aligned_size <= end - aligned_start
    }

    /// Takes the next `size` bytes (rounded up to whole small pages) of the
    /// available virtual addresses, starting at a multiple of `alignment` and
    /// of the small page size.
    pub fn allocate_addresses(&mut self, size: usize, alignment: Alignment) -> (r: AddressRange<VirtualAddr>)
        requires
            allocation_fits(old(self).available(), size, alignment@),
        ensures
            r.start@ == allocation_start(old(self).available(), alignment@),
            r.end@ == r.start@ + round_up(size as nat, 4096),
            r.start@ % alignment@ == 0,
            r.start@ % 4096 == 0,
            old(self).available().start@ <= r.start@,
            (r.end@ - r.start@) % 4096 == 0,
            size <= r.end@ - r.start@ < size + 4096,
            final(self).available().start == r.end,
            final(self).available().end == old(self).available().end,
            forall|offset: int| #[trigger] final(self).mem(offset) == old(self).mem(offset),
            forall|offset: int| old(self).wf(offset) ==> #[trigger] final(self).wf(offset),
            final(self).next_table_location() == old(self).next_table_location(),
            final(self).table_space_end() == old(self).table_space_end(),
            final(self).table_count() == old(self).table_count(),
    {
        let requested = alignment.as_usize();
        proof {
            broadcast use VirtualAddr::lemma_at_view;

            crate::mmu::lemma_allocation_placement(old(self).available(), size, requested);
        }
        let align = alignment.max(PageType::Small.alignment()).as_usize();
        let start = VirtualAddr::new(next_multiple_of(self.available_range.start.get(), align));
        let end = start.add(next_multiple_of(size, PageType::Small.alignment().as_usize()));
        self.available_range.start = end;
        AddressRange::new(start, end)
    }

    /// All page tables of the space, the root first.
    pub fn tables(&self) -> (r: &[PageTable])
        ensures
            r@.len() == self.table_count(),
            forall|k: int| 0 <= k < r@.len() ==> #[trigger] r@[k].entries_view() == self.entries_view()[k] && r@[k].location_view() == self.locations()[k],
    {
        self.tables.as_slice()
    }

    /// The root table.
    pub fn root(&self) -> (r: &PageTable)
        requires
            self.table_count() >= 1,
        ensures
            r.location_view() == self.root_location(),
    {
        &self.tables[0]
    }

    pub fn global_mapping_virt_to_phys(
        addr: VirtualAddr,
        kernel_phys_to_virt_offset: usize,
    ) -> (r: PhysicalAddr)
        requires
            addr@ >= kernel_phys_to_virt_offset,
        ensures
            r@ == addr@ - kernel_phys_to_virt_offset,
    {
        PhysicalAddr::new((addr.get() - kernel_phys_to_virt_offset) as u64)
    }

    pub fn global_mapping_phys_to_virt(
        addr: PhysicalAddr,
        kernel_phys_to_virt_offset: usize,
    ) -> (r: VirtualAddr)
        requires
            addr@ + kernel_phys_to_virt_offset <= usize::MAX,
        ensures
            r@ == addr@ + kernel_phys_to_virt_offset,
    {
        VirtualAddr::new(addr.get() as usize + kernel_phys_to_virt_offset)
    }
}

/// The least multiple of `rhs` that is at least `value`.
fn next_multiple_of(value: usize, rhs: usize) -> (r: usize)
    requires
        rhs > 0,
        round_up(value as nat, rhs as nat) <= usize::MAX,
    ensures
        r == round_up(value as nat, rhs as nat),
{
    let rem = value % rhs;
    if rem == 0 {
        value
    } else {
        value + (rhs - rem)
    }
}

/// The alignment that an allocation with `alignment` actually gets.
pub open spec fn effective_alignment(alignment: usize) -> nat {
    if alignment >= 4096 {
        alignment as nat
    } else {
        4096
    }
}

/// Where an allocation from `available` with `alignment` starts.
pub open spec fn allocation_start(available: AddressRange<VirtualAddr>, alignment: usize) -> nat {
    round_up(available.start@ as nat, effective_alignment(alignment))
}

/// An allocation of `size` bytes with `alignment` fits in `available`.
pub open spec fn allocation_fits(available: AddressRange<VirtualAddr>, size: usize, alignment: usize) -> bool {
    &&& alignment > 0
    &&& allocation_start(available, alignment) <= usize::MAX
    &&& round_up(size as nat, 4096) <= usize::MAX
    &&& allocation_start(available, alignment) + round_up(size as nat, 4096) <= available.end@
}

/// What mapping `vr` onto `pr` does to the space `start`, leaving `now` and
/// returning `r`. Every address outside the range keeps its entries and its
/// translation, and the tables grow only by what the range needs. The range
/// checks decide the error exactly. Past them: a range that is not free
/// fails; a conflict names a page of the range's tiling that was taken; bad
/// permissions fail a non-empty range before anything is mapped; a conflict
/// leaves the range mapped up to the conflicting page, and any other error
/// some prefix of it; running out of table space happens only where the
/// range needed more than there was. A free range with room for its tables
/// and good permissions is mapped whole, and the update names a single page
/// only when the range is one page of its tiling and no table was added.
pub open spec fn map_range_done(
    start: AddressSpace,
    now: AddressSpace,
    offset: int,
    vr: AddressRange<VirtualAddr>,
    pr: AddressRange<PhysicalAddr>,
    permissions: PagePermissions,
    r: Result<PageTableUpdate, MapError>,
) -> bool {
    &&& now.wf(offset)
    &&& slots_kept(start.mem(offset), now.mem(offset))
    &&& entries_changed_on(start.mem(offset), now.mem(offset), addresses_in(vr))
    &&& range_canonical(vr) ==> taken_outside_unchanged(start.mem(offset), now.mem(offset), vr)
    &&& now.available() == start.available()
    &&& now.table_count() >= start.table_count()
    &&& now.table_space_end() == start.table_space_end()
    &&& now.next_table_location() <= start.next_table_location() + 4096 * table_need(vr, pr)
    &&& now.next_table_location() == start.next_table_location() + 4096 * (now.table_count()
        - start.table_count())
    &&& range_check_error(vr, pr) is Some ==> now == start
    &&& range_check_error(vr, pr) is None && range_canonical(vr) && !range_free(
        start.mem(offset),
        vr,
        pr,
    ) ==> r is Err
    &&& range_canonical(vr) ==> (r matches Err(MapError::Conflict(c)) ==> {
        &&& c.end@ == c.start@ + level_size(range_page_level(vr, pr, c.start@))
        &&& start.mem(offset).page_taken(c.start@, range_page_level(vr, pr, c.start@))
        &&& mapped_up_to(start.mem(offset), now.mem(offset), vr, pr, permissions, c.start@ as int)
    })
    &&& range_canonical(vr) ==> (r matches Err(MapError::InvalidPermissions(_)) ==> mapped_up_to(
        start.mem(offset),
        now.mem(offset),
        vr,
        pr,
        permissions,
        vr.start@ as int,
    ))
    &&& r is Err && range_check_error(vr, pr) is None && range_canonical(vr) ==> exists|f: int|
        #[trigger] mapped_up_to(start.mem(offset), now.mem(offset), vr, pr, permissions, f)
    &&& r matches Err(MapError::TableSpaceExhausted) ==> {
        &&& now.next_table_location() + 4096 > now.table_space_end()
        &&& start.next_table_location() + 4096 * table_need(vr, pr) > start.table_space_end()
    }
    &&& start.map_range_owed(offset, vr, pr, permissions) ==> r is Ok
    &&& start.map_range_ready(offset, vr, pr) && vr.len() > 0 ==> match permissions_error(
        permissions,
    ) {
        Some(p) => r == Err::<PageTableUpdate, MapError>(MapError::InvalidPermissions(p)),
        None => r is Ok,
    }
    &&& range_check_error(vr, pr) is None && vr.len() == 0 ==> r is Ok
    &&& r matches Ok(u) ==> (u matches PageTableUpdate::One(_) <==> (vr.len() == level_size(
        range_page_level(vr, pr, vr.start@),
    ) && now.table_count() == start.table_count()))
    &&& map_outcome(start.mem(offset), now.mem(offset), vr, pr, permissions, r)
}

/// The physical range that the kernel's global mapping puts under `range`.
pub open spec fn global_physical_range(range: AddressRange<VirtualAddr>, offset: int) -> AddressRange<PhysicalAddr> {
    AddressRange {
        start: PhysicalAddr::at((range.start@ - offset) as u64),
        end: PhysicalAddr::at((range.end@ - offset) as u64),
    }
}

/// The tables that mapping a page of `page_type` at `va` into `m` may add:
/// one where the walk for `va` does not reach level 1 yet (for a megapage or
/// a 4 KiB page), and one where it does not reach level 0 yet (for a 4 KiB page).
#[verifier::opaque]
pub open spec fn page_table_need(m: PtMem, va: usize, page_type: PageType) -> int {
    (if page_level(page_type) <= 1 && !m.reaches(va, 1) {
        1int
    } else {
        0int
    }) + (if page_level(page_type) == 0 && !m.reaches(va, 0) {
        1int
    } else {
        0int
    })
}

/// Within the page-by-page mapping of a range, the tables that the page at
/// `c` may add are covered by the gigabyte and 2 MiB regions that the page
/// newly meets, given that the walk already gets down to the levels that the
/// pages before it needed.
proof fn lemma_page_need_within(
    m: PtMem,
    vr: AddressRange<VirtualAddr>,
    pr: AddressRange<PhysicalAddr>,
    c: int,
    t: int,
    page_type: PageType,
)
    requires
        0 <= t < 3,
        page_level(page_type) == 2 - t,
        0 <= c,
        c + level_size(2 - t) <= usize::MAX + 1,
        c % level_size(2 - t) == 0,
        t == 0 ==> c + level_size(2) <= vr.start@ + huge_bytes(vr, pr),
        t == 1 ==> vr.start@ + huge_bytes(vr, pr) <= c && c + level_size(1) <= vr.start@
            + huge_bytes(vr, pr) + large_bytes(vr, pr),
        t == 2 ==> vr.start@ + huge_bytes(vr, pr) + large_bytes(vr, pr) <= c,
        0 <= huge_bytes(vr, pr),
        0 <= large_bytes(vr, pr),
        vr.start@ + huge_bytes(vr, pr) < c ==> m.reaches((c - 1) as usize, 1),
        vr.start@ + huge_bytes(vr, pr) + large_bytes(vr, pr) < c ==> m.reaches((c - 1) as usize, 0),
    ensures
        page_table_need(m, c as usize, page_type) <= regions_met(vr.start@ + huge_bytes(vr, pr), c + level_size(2 - t), HUGE_PAGE_SIZE as int)
            - regions_met(vr.start@ + huge_bytes(vr, pr), c, HUGE_PAGE_SIZE as int) + regions_met(
            vr.start@ + huge_bytes(vr, pr) + large_bytes(vr, pr),
            c + level_size(2 - t),
            LARGE_PAGE_SIZE as int,
        ) - regions_met(
            vr.start@ + huge_bytes(vr, pr) + large_bytes(vr, pr),
            c,
            LARGE_PAGE_SIZE as int,
        ),
{
    reveal(page_table_need);
    let ns = vr.start@ + huge_bytes(vr, pr);
    let ss = ns + large_bytes(vr, pr);
    let s = level_size(2 - t);
    let g = HUGE_PAGE_SIZE as int;
    let mb = LARGE_PAGE_SIZE as int;
    if t == 0 {
    } else if t == 1 {
        lemma_regions_step(ns, c, s, g);
        if ns < c && c % g != 0 {
            assert((c - 1) / g == c / g) by {
                vstd::arithmetic::div_mod::lemma_fundamental_div_mod(c, g);
                vstd::arithmetic::div_mod::lemma_mod_bound(c, g);
                vstd::arithmetic::div_mod::lemma_fundamental_div_mod_converse(c - 1, g, c / g, c % g - 1);
            }
            m.lemma_reaches_in_region((c - 1) as usize, c as usize, 1);
        }
    } else {
        lemma_regions_step(ns, c, s, g);
        lemma_regions_step(ss, c, s, mb);
        if ns < c && c % g != 0 {
            assert((c - 1) / g == c / g) by {
                vstd::arithmetic::div_mod::lemma_fundamental_div_mod(c, g);
                vstd::arithmetic::div_mod::lemma_mod_bound(c, g);
                vstd::arithmetic::div_mod::lemma_fundamental_div_mod_converse(c - 1, g, c / g, c % g - 1);
            }
            m.lemma_reaches_in_region((c - 1) as usize, c as usize, 1);
        }
        if ss < c && c % mb != 0 {
            assert((c - 1) / mb == c / mb) by {
                vstd::arithmetic::div_mod::lemma_fundamental_div_mod(c, mb);
                vstd::arithmetic::div_mod::lemma_mod_bound(c, mb);
                vstd::arithmetic::div_mod::lemma_fundamental_div_mod_converse(c - 1, mb, c / mb, c % mb - 1);
            }
            m.lemma_reaches_in_region((c - 1) as usize, c as usize, 0);
        }
    }
}

/// While a range is mapped page by page, `cur` being where the unmapped rest
/// starts: the part mapped so far translated nothing at `start` and now
/// translates as the mapping says, and every other address translates as it did.
#[verifier::opaque]
pub open spec fn mapped_so_far(
    start: PtMem,
    now: PtMem,
    vr: AddressRange<VirtualAddr>,
    pr: AddressRange<PhysicalAddr>,
    permissions: PagePermissions,
    cur: int,
) -> bool {
    range_canonical(vr) ==> {
        &&& forall|va: usize| vr.start@ <= va < cur ==> (#[trigger] start.translate(va)) is None
        &&& forall|va: usize| #[trigger]
            now.translate(va) == if vr.start@ <= va < cur {
                descending_target(vr, pr, permissions, va)
            } else {
                start.translate(va)
            }
    }
}

/// Mapping the next page of the range, at `cur` onto `pcur`, extends what is
/// mapped so far by that page.
proof fn lemma_mapped_step(
    start: PtMem,
    before: PtMem,
    after: PtMem,
    vr: AddressRange<VirtualAddr>,
    pr: AddressRange<PhysicalAddr>,
    permissions: PagePermissions,
    cur: int,
    pcur: int,
    size: int,
    level: int,
)
    requires
        mapped_so_far(start, before, vr, pr, permissions, cur),
        size > 0,
        forall|va2: usize| cur <= va2 < cur + size ==> #[trigger] descending_level(vr, pr, va2) == level,
        vr.start@ <= cur,
        cur + size <= vr.end@,
        cur % size == 0,
        pcur == pr.start@ + (cur - vr.start@),
        range_canonical(vr) ==> forall|va2: usize|
            (va2 as int) / size == cur / size ==> (#[trigger] before.translate(va2)) is None,
        range_canonical(vr) ==> forall|va2: usize| #[trigger]
            after.translate(va2) == if (va2 as int) / size == cur / size {
                Some((pcur + (va2 as int) % size, leaf_flag_bits(permissions), level))
            } else {
                before.translate(va2)
            },
    ensures
        mapped_so_far(start, after, vr, pr, permissions, cur + size),
{
    reveal(mapped_so_far);
    if range_canonical(vr) {
        assert forall|va: usize| vr.start@ <= va < cur + size implies (#[trigger] start.translate(
            va,
        )) is None by {
            crate::mmu::walk::lemma_page_of(va as int, cur, size);
            if va >= cur {
                assert(before.translate(va) is None);
            }
        }
        assert forall|va: usize| #[trigger]
            after.translate(va) == if vr.start@ <= va < cur + size {
                descending_target(vr, pr, permissions, va)
            } else {
                start.translate(va)
            } by {
            crate::mmu::walk::lemma_page_of(va as int, cur, size);
            assert(after.translate(va) == if (va as int) / size == cur / size {
                Some((pcur + (va as int) % size, leaf_flag_bits(permissions), level))
            } else {
                before.translate(va)
            });
        }
    }
}

/// A page that failed to map, changing no translation, leaves each address of
/// the range either as it was or as the mapping says.
proof fn lemma_mapped_error(
    start: PtMem,
    before: PtMem,
    after: PtMem,
    vr: AddressRange<VirtualAddr>,
    pr: AddressRange<PhysicalAddr>,
    permissions: PagePermissions,
    cur: int,
)
    requires
        mapped_so_far(start, before, vr, pr, permissions, cur),
        cur <= vr.end@,
        forall|va: usize| #[trigger] after.translate(va) == before.translate(va),
    ensures
        range_canonical(vr) ==> forall|va: usize| #[trigger]
            after.translate(va) == start.translate(va) || (vr.start@ <= va < vr.end@
                && after.translate(va) == descending_target(vr, pr, permissions, va)),
        vr.start@ <= cur && cur % 4096 == 0 && range_canonical(vr) ==> descending_up_to(
            start,
            after,
            vr,
            pr,
            permissions,
            cur,
        ),
{
    reveal(mapped_so_far);
}

/// Where tiling the range stopped on `err`: the range is mapped up to the
/// page that conflicts, or not at all where the permissions are refused.
#[verifier::opaque]
spec fn descending_failed(
    start: PtMem,
    now: PtMem,
    vr: AddressRange<VirtualAddr>,
    pr: AddressRange<PhysicalAddr>,
    permissions: PagePermissions,
    err: MapError,
) -> bool {
    &&& err matches MapError::Conflict(c) ==> descending_up_to(
        start,
        now,
        vr,
        pr,
        permissions,
        c.start@ as int,
    )
    &&& err is InvalidPermissions ==> permissions_error(permissions) is Some && descending_up_to(
        start,
        now,
        vr,
        pr,
        permissions,
        vr.start@ as int,
    )
}

/// A page at `cur` that failed to map, changing no translation, stops the
/// tiling where `descending_failed` says.
proof fn lemma_descending_failed(
    start: PtMem,
    before: PtMem,
    after: PtMem,
    vr: AddressRange<VirtualAddr>,
    pr: AddressRange<PhysicalAddr>,
    permissions: PagePermissions,
    cur: int,
    err: MapError,
)
    requires
        mapped_so_far(start, before, vr, pr, permissions, cur),
        vr.start@ <= cur <= vr.end@,
        cur % 4096 == 0,
        range_canonical(vr),
        forall|va: usize| #[trigger] after.translate(va) == before.translate(va),
        err matches MapError::Conflict(c) ==> c.start@ == cur,
        err matches MapError::InvalidPermissions(p) ==> permissions_error(permissions) == Some(p)
            && cur == vr.start@,
    ensures
        descending_failed(start, after, vr, pr, permissions, err),
{
    reveal(descending_failed);
    lemma_mapped_error(start, before, after, vr, pr, permissions, cur);
}

/// The range is mapped from its start up to `f` and nothing else changed:
/// each address of `vr.start..f` translates as the mapping says, every other
/// address as in `start`.
pub open spec fn mapped_up_to(
    start: PtMem,
    now: PtMem,
    vr: AddressRange<VirtualAddr>,
    pr: AddressRange<PhysicalAddr>,
    permissions: PagePermissions,
    f: int,
) -> bool {
    &&& vr.start@ <= f <= vr.end@
    &&& f % 4096 == 0
    &&& forall|va: usize| #[trigger]
        now.translate(va) == if vr.start@ <= va < f {
            range_target(vr, pr, permissions, va)
        } else {
            start.translate(va)
        }
}

/// `mapped_up_to`, where the range is tiled from the largest page size down.
pub open spec fn descending_up_to(
    start: PtMem,
    now: PtMem,
    vr: AddressRange<VirtualAddr>,
    pr: AddressRange<PhysicalAddr>,
    permissions: PagePermissions,
    f: int,
) -> bool {
    &&& vr.start@ <= f <= vr.end@
    &&& f % 4096 == 0
    &&& forall|va: usize| #[trigger]
        now.translate(va) == if vr.start@ <= va < f {
            descending_target(vr, pr, permissions, va)
        } else {
            start.translate(va)
        }
}

/// A range mapped to its end translates as the mapping says, and translated
/// nothing before.
proof fn lemma_mapped_whole(
    start: PtMem,
    now: PtMem,
    vr: AddressRange<VirtualAddr>,
    pr: AddressRange<PhysicalAddr>,
    permissions: PagePermissions,
    cur: int,
)
    requires
        mapped_so_far(start, now, vr, pr, permissions, cur),
        cur == vr.end@ || (vr.end@ <= vr.start@ && cur == vr.start@),
    ensures
        range_canonical(vr) ==> forall|va: usize|
            vr.start@ <= va < vr.end@ ==> (#[trigger] start.translate(va)) is None,
        range_canonical(vr) ==> forall|va: usize| #[trigger]
            now.translate(va) == if vr.start@ <= va < vr.end@ {
                descending_target(vr, pr, permissions, va)
            } else {
                start.translate(va)
            },
{
    reveal(mapped_so_far);
}

/// The tables that `now` added since `start` while a range is mapped page by
/// page, `cur` being where the unmapped rest of the range starts: they are
/// covered by the gigabyte regions that its pages below gigapages met from
/// `ns` on and the 2 MiB regions that its 4 KiB pages met from `ss` on, and the
/// walk gets down to the levels that the last such pages needed.
#[verifier::opaque]
pub open spec fn tables_on_track(
    start: AddressSpace,
    now: AddressSpace,
    offset: int,
    ns: int,
    ss: int,
    cur: int,
) -> bool {
    &&& now.next_table_location() == start.next_table_location() + 4096 * (now.table_count()
        - start.table_count())
    &&& now.table_count() - start.table_count() <= regions_met(ns, cur, HUGE_PAGE_SIZE as int)
        + regions_met(ss, cur, LARGE_PAGE_SIZE as int)
    &&& ns < cur ==> now.mem(offset).reaches((cur - 1) as usize, 1)
    &&& ss < cur ==> now.mem(offset).reaches((cur - 1) as usize, 0)
}

/// One page of a range mapped: the tables stay on track, they stay within what
/// the whole range may need, and enough table space for the range leaves
/// enough for the page.
proof fn lemma_tables_step(
    start: AddressSpace,
    before: AddressSpace,
    after: AddressSpace,
    offset: int,
    vr: AddressRange<VirtualAddr>,
    pr: AddressRange<PhysicalAddr>,
    c: int,
    t: int,
    page_type: PageType,
    mapped: bool,
)
    requires
        0 <= t < 3,
        page_level(page_type) == 2 - t,
        0 <= c,
        c + level_size(2 - t) <= vr.end@,
        c % level_size(2 - t) == 0,
        t == 0 ==> c + level_size(2) <= vr.start@ + huge_bytes(vr, pr),
        t == 1 ==> vr.start@ + huge_bytes(vr, pr) <= c && c + level_size(1) <= vr.start@
            + huge_bytes(vr, pr) + large_bytes(vr, pr),
        t == 2 ==> vr.start@ + huge_bytes(vr, pr) + large_bytes(vr, pr) <= c,
        0 <= huge_bytes(vr, pr),
        0 <= large_bytes(vr, pr),
        tables_on_track(
            start,
            before,
            offset,
            vr.start@ + huge_bytes(vr, pr),
            vr.start@ + huge_bytes(vr, pr) + large_bytes(vr, pr),
            c,
        ),
        before.table_space_end() == start.table_space_end(),
        after.table_count() <= before.table_count() + page_table_need(before.mem(offset), c as usize, page_type),
        after.table_count() >= before.table_count(),
        after.next_table_location() == before.next_table_location() + 4096 * (after.table_count()
            - before.table_count()),
        mapped ==> after.mem(offset).reaches(c as usize, page_level(page_type)),
    ensures
        mapped ==> tables_on_track(
            start,
            after,
            offset,
            vr.start@ + huge_bytes(vr, pr),
            vr.start@ + huge_bytes(vr, pr) + large_bytes(vr, pr),
            c + level_size(2 - t),
        ),
        after.next_table_location() <= start.next_table_location() + 4096 * descending_need(vr, pr),
        after.next_table_location() == start.next_table_location() + 4096 * (after.table_count()
            - start.table_count()),
        start.table_space_end() >= start.next_table_location() + 4096 * descending_need(vr, pr)
            ==> before.table_space_end() >= before.next_table_location() + 4096 * page_table_need(
            before.mem(offset),
            c as usize,
            page_type,
        ),
{
    reveal(tables_on_track);
    let ns = vr.start@ + huge_bytes(vr, pr);
    let ss = ns + large_bytes(vr, pr);
    let size = level_size(2 - t);
    let g = HUGE_PAGE_SIZE as int;
    let mb = LARGE_PAGE_SIZE as int;
    lemma_page_need_within(before.mem(offset), vr, pr, c, t, page_type);
    lemma_regions_monotone(ns, c + size, vr.end@ as int, g);
    lemma_regions_monotone(ss, c + size, vr.end@ as int, mb);
    lemma_regions_monotone(ns, c, c + size, g);
    lemma_regions_monotone(ss, c, c + size, mb);
    if mapped {
        let m = after.mem(offset);
        if t >= 1 {
            m.lemma_reaches_up(c as usize);
            crate::mmu::walk::lemma_page_in_region(c, size, g);
            m.lemma_reaches_in_region(c as usize, (c + size - 1) as usize, 1);
        }
        if t == 2 {
            crate::mmu::walk::lemma_page_in_region(c, size, mb);
            m.lemma_reaches_in_region(c as usize, (c + size - 1) as usize, 0);
        }
    }
}

/// `e` is an error that mapping `mapping` globally at `offset` can give: the
/// error of its range checks where they fail, and otherwise a conflict within
/// its range, the error of its permissions, or running out of table space.
pub open spec fn global_mapping_error(
    mapping: (AddressRange<VirtualAddr>, PagePermissions),
    offset: int,
    e: MapError,
) -> bool {
    let range = mapping.0;
    match range_check_error(range, global_physical_range(range, offset)) {
        Some(c) => e == c,
        None => match e {
            MapError::Conflict(c) => range.start@ <= c.start@ && c.end@ <= range.end@,
            MapError::InvalidPermissions(p) => permissions_error(mapping.1) == Some(p),
            MapError::TableSpaceExhausted => true,
            _ => false,
        },
    }
}

/// The tables that mapping each of `mappings` globally at `offset` may add,
/// together.
pub open spec fn total_need(
    mappings: Seq<(AddressRange<VirtualAddr>, PagePermissions)>,
    offset: int,
) -> int
    decreases mappings.len(),
{
    if mappings.len() == 0 {
        0
    } else {
        table_need(mappings[0].0, global_physical_range(mappings[0].0, offset)) + total_need(
            mappings.drop_first(),
            offset,
        )
    }
}

/// The two ranges share no address.
pub open spec fn ranges_disjoint(a: AddressRange<VirtualAddr>, b: AddressRange<VirtualAddr>) -> bool {
    a.len() == 0 || b.len() == 0 || a.end@ <= b.start@ || b.end@ <= a.start@
}

/// Mapping `mapping` globally at `offset` passes the range checks and its
/// addresses are canonical.
pub open spec fn global_mapping_ready(
    mapping: (AddressRange<VirtualAddr>, PagePermissions),
    offset: int,
) -> bool {
    &&& range_check_error(mapping.0, global_physical_range(mapping.0, offset)) is None
    &&& range_canonical(mapping.0)
}

/// Mapping `mapping` globally at `offset` passes the range checks, and its
/// permissions fit a leaf unless its range is empty.
pub open spec fn global_mapping_accepted(
    mapping: (AddressRange<VirtualAddr>, PagePermissions),
    offset: int,
) -> bool {
    &&& range_check_error(mapping.0, global_physical_range(mapping.0, offset)) is None
    &&& mapping.0.len() > 0 ==> permissions_error(mapping.1) is None
}

/// Each of `mappings` is ready, no two of their ranges overlap, and
/// `table_space` holds the root table and every table that they may add.
pub open spec fn global_mappings_prepared(
    mappings: Seq<(AddressRange<VirtualAddr>, PagePermissions)>,
    offset: int,
    table_space: AddressRange<VirtualAddr>,
) -> bool {
    &&& forall|j: int| 0 <= j < mappings.len() ==> global_mapping_ready(#[trigger] mappings[j], offset)
    &&& forall|i: int, j: int|
        0 <= i < j < mappings.len() ==> ranges_disjoint(
            #[trigger] mappings[i].0,
            #[trigger] mappings[j].0,
        )
    &&& table_space.start@ + 4096 + 4096 * total_need(mappings, offset) <= table_space.end@
}

proof fn lemma_descending_need_nonnegative(vr: AddressRange<VirtualAddr>, pr: AddressRange<PhysicalAddr>)
    ensures
        descending_need(vr, pr) >= 0,
{
    lemma_huge_bytes_aligned(vr, pr);
    crate::mmu::walk::lemma_whole_multiples(0, vr.len() - huge_bytes(vr, pr), LARGE_PAGE_SIZE as int);
    lemma_regions_monotone(
        vr.start@ + huge_bytes(vr, pr),
        vr.end@ as int,
        vr.end@ as int,
        HUGE_PAGE_SIZE as int,
    );
    lemma_regions_monotone(
        vr.start@ + huge_bytes(vr, pr) + large_bytes(vr, pr),
        vr.end@ as int,
        vr.end@ as int,
        LARGE_PAGE_SIZE as int,
    );
}

proof fn lemma_total_need_nonnegative(
    mappings: Seq<(AddressRange<VirtualAddr>, PagePermissions)>,
    offset: int,
)
    ensures
        total_need(mappings, offset) >= 0,
    decreases mappings.len(),
{
    if mappings.len() > 0 {
        lemma_table_need_nonnegative(mappings[0].0, global_physical_range(mappings[0].0, offset));
        lemma_total_need_nonnegative(mappings.drop_first(), offset);
    }
}

proof fn lemma_total_need_skip(
    mappings: Seq<(AddressRange<VirtualAddr>, PagePermissions)>,
    offset: int,
    i: int,
)
    requires
        0 <= i < mappings.len(),
    ensures
        total_need(mappings.skip(i), offset) == table_need(
            mappings[i].0,
            global_physical_range(mappings[i].0, offset),
        ) + total_need(mappings.skip(i + 1), offset),
        total_need(mappings.skip(i + 1), offset) >= 0,
{
    assert(mappings.skip(i).drop_first() =~= mappings.skip(i + 1));
    lemma_total_need_nonnegative(mappings.skip(i + 1), offset);
}

/// Mapping one of fitting global mappings leaves the pages of the later ones
/// as free as they were.
proof fn lemma_later_mappings_free(
    before: PtMem,
    after: PtMem,
    mappings: Seq<(AddressRange<VirtualAddr>, PagePermissions)>,
    i: int,
    offset: int,
)
    requires
        forall|j: int| 0 <= j < mappings.len() ==> global_mapping_ready(#[trigger] mappings[j], offset),
        forall|a: int, b: int|
            0 <= a < b < mappings.len() ==> ranges_disjoint(
                #[trigger] mappings[a].0,
                #[trigger] mappings[b].0,
            ),
        0 <= i < mappings.len(),
        0 <= offset,
        forall|j: int|
            0 <= j < mappings.len() ==> offset <= (#[trigger] mappings[j]).0.start@ && offset
                <= mappings[j].0.end@,
        taken_outside_unchanged(before, after, mappings[i].0),
        forall|k: int|
            i < k < mappings.len() ==> range_free(
                before,
                #[trigger] mappings[k].0,
                global_physical_range(mappings[k].0, offset),
            ),
    ensures
        forall|k: int|
            i < k < mappings.len() ==> range_free(
                after,
                #[trigger] mappings[k].0,
                global_physical_range(mappings[k].0, offset),
            ),
{
    assert forall|k: int| i < k < mappings.len() implies range_free(
        after,
        #[trigger] mappings[k].0,
        global_physical_range(mappings[k].0, offset),
    ) by {
        let vr = mappings[k].0;
        let pr = global_physical_range(vr, offset);
        assert(global_mapping_ready(mappings[k], offset));
        assert(ranges_disjoint(mappings[i].0, mappings[k].0));
        assert(pr.fits_usize()) by {
            broadcast use PhysicalAddr::lemma_at_view;

            assert(offset <= mappings[k].0.start@ && offset <= mappings[k].0.end@);
        }
        assert forall|va: usize| vr.start@ <= va < vr.end@ implies !#[trigger] after.page_taken(
            va,
            range_page_level(vr, pr, va),
        ) by {
            let l = range_page_level(vr, pr, va);
            crate::mmu::walk::lemma_page_in_range(vr, pr, va);
            assert(canonical(va));
            assert(page_outside(va, l, mappings[i].0));
            assert(!before.page_taken(va, l));
        }
    }
}

/// Each address of each range in `mappings` translates to the physical address
/// `offset` below it with that range's permissions; every other address translates to nothing.
pub open spec fn global_mappings_translate(
    m: PtMem,
    mappings: Seq<(AddressRange<VirtualAddr>, PagePermissions)>,
    offset: int,
) -> bool {
    forall|va: usize| #[trigger]
        m.translate(va) == match global_mapping_index(mappings, va) {
            Some(j) => Some(
                (
                    va - offset,
                    leaf_flag_bits(mappings[j].1),
                    range_page_level(mappings[j].0, global_physical_range(mappings[j].0, offset), va),
                ),
            ),
            None => None,
        }
}

/// The first range of `mappings` that holds `va`.
pub open spec fn global_mapping_index(
    mappings: Seq<(AddressRange<VirtualAddr>, PagePermissions)>,
    va: usize,
) -> Option<int>
    decreases mappings.len(),
{
    if mappings.len() == 0 {
        None
    } else {
        match global_mapping_index(mappings.drop_last(), va) {
            Some(j) => Some(j),
            None => {
                let r = mappings.last().0;
                if r.start@ <= va < r.end@ {
                    Some(mappings.len() - 1)
                } else {
                    None
                }
            },
        }
    }
}

/// Mapping the next global range keeps the translation that the earlier ranges define.
proof fn lemma_global_mappings_step(
    before: PtMem,
    after: PtMem,
    mappings: Seq<(AddressRange<VirtualAddr>, PagePermissions)>,
    i: int,
    offset: int,
    update: PageTableUpdate,
)
    requires
        0 <= i < mappings.len(),
        0 <= offset,
        global_mappings_translate(before, mappings.take(i), offset),
        range_canonical(mappings[i].0),
        offset <= mappings[i].0.start@,
        offset <= mappings[i].0.end@,
        map_outcome(
            before,
            after,
            mappings[i].0,
            global_physical_range(mappings[i].0, offset),
            mappings[i].1,
            Ok(update),
        ),
    ensures
        global_mappings_translate(after, mappings.take(i + 1), offset),
{
    broadcast use PhysicalAddr::lemma_at_view;

    let r = mappings[i].0;
    let pr = global_physical_range(r, offset);
    assert(mappings.take(i + 1).drop_last() =~= mappings.take(i));
    assert(mappings.take(i + 1).last() == mappings[i]);
    assert(((r.start@ - offset) as u64) as int == r.start@ - offset);
    assert(pr.start@ == r.start@ - offset);
    assert forall|va: usize| #[trigger]
        after.translate(va) == match global_mapping_index(mappings.take(i + 1), va) {
            Some(j) => Some(
                (
                    va - offset,
                    leaf_flag_bits(mappings.take(i + 1)[j].1),
                    range_page_level(
                        mappings.take(i + 1)[j].0,
                        global_physical_range(mappings.take(i + 1)[j].0, offset),
                        va,
                    ),
                ),
            ),
            None => None,
        } by {
        assert(before.translate(va) == match global_mapping_index(mappings.take(i), va) {
            Some(j) => Some(
                (
                    va - offset,
                    leaf_flag_bits(mappings.take(i)[j].1),
                    range_page_level(
                        mappings.take(i)[j].0,
                        global_physical_range(mappings.take(i)[j].0, offset),
                        va,
                    ),
                ),
            ),
            None => None,
        });
        match global_mapping_index(mappings.take(i), va) {
            Some(j) => {
                lemma_global_mapping_index_bound(mappings.take(i), va);
                assert(mappings.take(i + 1)[j] == mappings.take(i)[j]);
            },
            None => {},
        }
    }
}

/// An address in the range of one of `mappings` has a first range that holds it.
proof fn lemma_global_mapping_index_some(
    mappings: Seq<(AddressRange<VirtualAddr>, PagePermissions)>,
    a: int,
    va: usize,
)
    requires
        0 <= a < mappings.len(),
        mappings[a].0.start@ <= va < mappings[a].0.end@,
    ensures
        global_mapping_index(mappings, va) is Some,
    decreases mappings.len(),
{
    if a < mappings.len() - 1 {
        assert(mappings.drop_last()[a] == mappings[a]);
        lemma_global_mapping_index_some(mappings.drop_last(), a, va);
    }
}

proof fn lemma_global_mapping_index_bound(
    mappings: Seq<(AddressRange<VirtualAddr>, PagePermissions)>,
    va: usize,
)
    ensures
        global_mapping_index(mappings, va) matches Some(j) ==> 0 <= j < mappings.len(),
    decreases mappings.len(),
{
    if mappings.len() > 0 {
        lemma_global_mapping_index_bound(mappings.drop_last(), va);
    }
}

/// The tables that mapping the first `k` parts of a range may add.
pub open spec fn parts_need(vr: AddressRange<VirtualAddr>, pr: AddressRange<PhysicalAddr>, k: int) -> int {
    (if k > 0 {
        descending_need(range_part(vr, pr, 0).0, range_part(vr, pr, 0).1)
    } else {
        0
    }) + (if k > 1 {
        descending_need(range_part(vr, pr, 1).0, range_part(vr, pr, 1).1)
    } else {
        0
    }) + (if k > 2 {
        descending_need(range_part(vr, pr, 2).0, range_part(vr, pr, 2).1)
    } else {
        0
    })
}

proof fn lemma_table_need_nonnegative(vr: AddressRange<VirtualAddr>, pr: AddressRange<PhysicalAddr>)
    ensures
        table_need(vr, pr) >= 0,
        forall|k: int| 0 <= k <= 3 ==> 0 <= #[trigger] parts_need(vr, pr, k) <= table_need(vr, pr),
        parts_need(vr, pr, 3) == table_need(vr, pr),
        forall|k: int|
            0 <= k < 3 ==> #[trigger] parts_need(vr, pr, k + 1) == parts_need(vr, pr, k) + descending_need(
                range_part(vr, pr, k).0,
                range_part(vr, pr, k).1,
            ),
{
    lemma_descending_need_nonnegative(range_part(vr, pr, 0).0, range_part(vr, pr, 0).1);
    lemma_descending_need_nonnegative(range_part(vr, pr, 1).0, range_part(vr, pr, 1).1);
    lemma_descending_need_nonnegative(range_part(vr, pr, 2).0, range_part(vr, pr, 2).1);
}

/// The first `k` parts of the range are mapped from `start`, leaving `now`
/// and the update `update`.
spec fn parts_mapped(
    start: AddressSpace,
    now: AddressSpace,
    offset: int,
    vr: AddressRange<VirtualAddr>,
    pr: AddressRange<PhysicalAddr>,
    permissions: PagePermissions,
    k: int,
    update: PageTableUpdate,
) -> bool {
    let b = part_bound(vr, pr, k);
    &&& now.wf(offset)
    &&& slots_kept(start.mem(offset), now.mem(offset))
    &&& entries_changed_on(start.mem(offset), now.mem(offset), addresses_in(vr))
    &&& now.available() == start.available()
    &&& now.table_count() >= start.table_count()
    &&& now.table_space_end() == start.table_space_end()
    &&& now.next_table_location() == start.next_table_location() + 4096 * (now.table_count()
        - start.table_count())
    &&& now.next_table_location() <= start.next_table_location() + 4096 * parts_need(vr, pr, k)
    &&& range_canonical(vr) ==> taken_outside_unchanged(start.mem(offset), now.mem(offset), vr)
    &&& range_canonical(vr) && vr.len() > 0 ==> mapped_up_to(
        start.mem(offset),
        now.mem(offset),
        vr,
        pr,
        permissions,
        b,
    )
    &&& range_canonical(vr) ==> forall|va: usize|
        vr.start@ <= va < b ==> (#[trigger] start.mem(offset).translate(va)) is None
    &&& (update == PageTableUpdate::Unchanged <==> b == vr.start@)
    &&& update == PageTableUpdate::Unchanged ==> now == start
    &&& (update matches PageTableUpdate::One(_) <==> (b - vr.start@ == level_size(
        range_page_level(vr, pr, vr.start@),
    ) && now.table_count() == start.table_count()))
    &&& update matches PageTableUpdate::One(p) ==> {
        &&& p == vr.start
        &&& is_page_size(b - vr.start@)
        &&& now.mem(offset).same_directories(start.mem(offset))
    }
    &&& permissions_error(permissions) is Some ==> b == vr.start@
    &&& range_canonical(vr) ==> forall|va: usize|
        b <= va < vr.end@ ==> #[trigger] now.mem(offset).page_taken(va, range_page_level(vr, pr, va))
            == start.mem(offset).page_taken(va, range_page_level(vr, pr, va))
    &&& range_canonical(vr) ==> forall|va: usize|
        vr.start@ <= va < b ==> !#[trigger] start.mem(offset).page_taken(
            va,
            range_page_level(vr, pr, va),
        )
    &&& start.map_range_ready(offset, vr, pr) ==> now.table_space_end()
        >= now.next_table_location() + 4096 * (table_need(vr, pr) - parts_need(vr, pr, k))
}

/// Within part `k`, the range's tiling is the part's own, and a range ready
/// to be mapped leaves the part ready when the parts before it are mapped.
#[verifier::spinoff_prover]
proof fn lemma_part_ready(
    start: AddressSpace,
    now: AddressSpace,
    offset: int,
    vr: AddressRange<VirtualAddr>,
    pr: AddressRange<PhysicalAddr>,
    permissions: PagePermissions,
    k: int,
    update: PageTableUpdate,
)
    requires
        range_check_error(vr, pr) is None,
        pr.fits_usize(),
        0 <= k < 3,
        parts_mapped(start, now, offset, vr, pr, permissions, k, update),
    ensures
        range_canonical(vr) ==> range_canonical(range_part(vr, pr, k).0),
        forall|va: usize|
            range_part(vr, pr, k).0.start@ <= va < range_part(vr, pr, k).0.end@ ==> #[trigger] range_page_level(
                vr,
                pr,
                va,
            ) == descending_level(range_part(vr, pr, k).0, range_part(vr, pr, k).1, va),
        start.map_range_ready(offset, vr, pr) ==> now.descending_ready(
            offset,
            range_part(vr, pr, k).0,
            range_part(vr, pr, k).1,
        ),
{
    lemma_parts(vr, pr);
    lemma_table_need_nonnegative(vr, pr);
    let part = range_part(vr, pr, k);
    assert forall|va: usize| part.0.start@ <= va < part.0.end@ implies #[trigger] range_page_level(
        vr,
        pr,
        va,
    ) == descending_level(part.0, part.1, va) by {
        assert(part_of(vr, pr, va) == k);
    }
    if start.map_range_ready(offset, vr, pr) {
        assert forall|va: usize| part.0.start@ <= va < part.0.end@ implies !#[trigger] now.mem(
            offset,
        ).page_taken(va, descending_level(part.0, part.1, va)) by {
            assert(range_page_level(vr, pr, va) == descending_level(part.0, part.1, va));
            assert(now.mem(offset).page_taken(va, range_page_level(vr, pr, va)) == start.mem(
                offset,
            ).page_taken(va, range_page_level(vr, pr, va)));
        }
        lemma_descending_need_nonnegative(range_part(vr, pr, 0).0, range_part(vr, pr, 0).1);
        lemma_descending_need_nonnegative(range_part(vr, pr, 1).0, range_part(vr, pr, 1).1);
        lemma_descending_need_nonnegative(range_part(vr, pr, 2).0, range_part(vr, pr, 2).1);
        assert(table_need(vr, pr) - parts_need(vr, pr, k) >= descending_need(part.0, part.1));
    }
}

/// Mapping part `k` of the range, which is not empty, carries the mapping of
/// the parts before it over to the first `k + 1` parts.
#[verifier::rlimit(100)]
#[verifier::spinoff_prover]
proof fn lemma_part_mapped(
    start: AddressSpace,
    before: AddressSpace,
    after: AddressSpace,
    offset: int,
    vr: AddressRange<VirtualAddr>,
    pr: AddressRange<PhysicalAddr>,
    permissions: PagePermissions,
    k: int,
    update: PageTableUpdate,
    u: PageTableUpdate,
)
    requires
        slots_kept(before.mem(offset), after.mem(offset)),
        entries_changed_on(before.mem(offset), after.mem(offset), addresses_in(range_part(vr, pr, k).0)),
        range_check_error(vr, pr) is None,
        pr.fits_usize(),
        0 <= k < 3,
        part_bound(vr, pr, k) < part_bound(vr, pr, k + 1),
        parts_mapped(start, before, offset, vr, pr, permissions, k, update),
        after.wf(offset),
        after.available() == before.available(),
        after.table_count() >= before.table_count(),
        after.table_space_end() == before.table_space_end(),
        after.next_table_location() <= before.next_table_location() + 4096 * descending_need(
            range_part(vr, pr, k).0,
            range_part(vr, pr, k).1,
        ),
        after.next_table_location() == before.next_table_location() + 4096 * (after.table_count()
            - before.table_count()),
        range_canonical(range_part(vr, pr, k).0) ==> taken_outside_unchanged(
            before.mem(offset),
            after.mem(offset),
            range_part(vr, pr, k).0,
        ),
        u matches PageTableUpdate::One(_) <==> (range_part(vr, pr, k).0.len() == level_size(
            descending_level(
                range_part(vr, pr, k).0,
                range_part(vr, pr, k).1,
                range_part(vr, pr, k).0.start@,
            ),
        ) && after.table_count() == before.table_count()),
        descending_outcome(
            before.mem(offset),
            after.mem(offset),
            range_part(vr, pr, k).0,
            range_part(vr, pr, k).1,
            permissions,
            Ok(u),
        ),
        range_canonical(range_part(vr, pr, k).0) ==> descending_free(
            before.mem(offset),
            range_part(vr, pr, k).0,
            range_part(vr, pr, k).1,
        ),
    ensures
        parts_mapped(start, after, offset, vr, pr, permissions, k + 1, combined(update, u)),
{
    broadcast use VirtualAddr::lemma_at_view, PhysicalAddr::lemma_at_view;

    lemma_parts(vr, pr);
    lemma_table_need_nonnegative(vr, pr);
    lemma_part_ready(start, before, offset, vr, pr, permissions, k, update);
    assert forall|x: usize| #[trigger] addresses_in(range_part(vr, pr, k).0)(x) implies addresses_in(vr)(x) by {
        assert(vr.end@ == part_bound(vr, pr, 3));
    }
    lemma_changed_trans(
        start.mem(offset),
        before.mem(offset),
        after.mem(offset),
        addresses_in(vr),
        addresses_in(range_part(vr, pr, k).0),
        addresses_in(vr),
    );
    lemma_slots_kept_trans(start.mem(offset), before.mem(offset), after.mem(offset));
    let part = range_part(vr, pr, k);
    let lo = part_bound(vr, pr, k);
    let hi = part_bound(vr, pr, k + 1);
    let s = vr.start@ as int;
    let sm = start.mem(offset);
    let bm = before.mem(offset);
    let am = after.mem(offset);
    assert(vr.end@ == part_bound(vr, pr, 3));
    assert(part.0.len() > 0);
    assert(u != PageTableUpdate::Unchanged);
    let nu = combined(update, u);
    if range_canonical(vr) {
        assert(range_canonical(part.0));
        assert forall|va: usize, level: int|
            canonical(va) && 0 <= level <= 2 && page_outside(va, level, vr) implies #[trigger] am.page_taken(
            va,
            level,
        ) == sm.page_taken(va, level) by {
            assert(page_outside(va, level, part.0));
            assert(bm.page_taken(va, level) == sm.page_taken(va, level));
        }
        assert forall|va: usize| #[trigger]
            am.translate(va) == if s <= va < hi {
                range_target(vr, pr, permissions, va)
            } else {
                sm.translate(va)
            } by {
            assert(bm.translate(va) == if s <= va < lo {
                range_target(vr, pr, permissions, va)
            } else {
                sm.translate(va)
            });
            if lo <= va < hi {
                assert(descending_target(part.0, part.1, permissions, va) == range_target(
                    vr,
                    pr,
                    permissions,
                    va,
                ));
            }
        }
        assert(mapped_up_to(sm, am, vr, pr, permissions, hi));
        assert forall|va: usize| s <= va < hi implies (#[trigger] sm.translate(va)) is None by {
            if va >= lo {
                assert(bm.translate(va) is None);
                assert(bm.translate(va) == sm.translate(va));
            }
        }
    }
    if update == PageTableUpdate::Unchanged {
        assert(lo == s);
        assert(before == start);
        assert(part_of(vr, pr, vr.start@) == k);
        assert(range_page_level(vr, pr, vr.start@) == descending_level(part.0, part.1, part.0.start@));
        assert(nu == u);
        match u {
            PageTableUpdate::One(p) => {
                VirtualAddr::lemma_view_injective(p, vr.start);
            },
            _ => {},
        }
    } else {
        assert(lo > s);
        assert(nu == PageTableUpdate::Many);
        assert((hi - s) % 4096 == 0) by {
            vstd::arithmetic::div_mod::lemma_sub_mod_noop(hi, s, 4096);
        }
        assert((lo - s) % 4096 == 0) by {
            vstd::arithmetic::div_mod::lemma_sub_mod_noop(lo, s, 4096);
        }
        assert((hi - lo) % 4096 == 0) by {
            vstd::arithmetic::div_mod::lemma_sub_mod_noop(hi, lo, 4096);
        }
        if part_bound(vr, pr, 1) > s {
            assert(part_of(vr, pr, vr.start@) == 0);
            assert(range_page_level(vr, pr, vr.start@) == 0);
        } else {
            assert(k == 2);
            assert(part_of(vr, pr, vr.start@) == 1);
            assert(range_page_level(vr, pr, vr.start@) == 1);
        }
    }
    if range_canonical(vr) {
        assert forall|va: usize| hi <= va < vr.end@ implies #[trigger] am.page_taken(
            va,
            range_page_level(vr, pr, va),
        ) == sm.page_taken(va, range_page_level(vr, pr, va)) by {
            let j = part_of(vr, pr, va);
            let pj = range_part(vr, pr, j);
            assert(j > k);
            assert(pj.0.start@ <= va < pj.0.end@);
            lemma_page_in_descending(pj.0, pj.1, va);
            assert(range_page_level(vr, pr, va) == descending_level(pj.0, pj.1, va));
            assert(canonical(va));
            assert(page_outside(va, range_page_level(vr, pr, va), part.0));
            assert(bm.page_taken(va, range_page_level(vr, pr, va)) == sm.page_taken(
                va,
                range_page_level(vr, pr, va),
            ));
        }
        assert forall|va: usize| s <= va < hi implies !#[trigger] sm.page_taken(
            va,
            range_page_level(vr, pr, va),
        ) by {
            if va >= lo {
                assert(range_page_level(vr, pr, va) == descending_level(part.0, part.1, va));
                assert(!bm.page_taken(va, descending_level(part.0, part.1, va)));
                assert(bm.page_taken(va, range_page_level(vr, pr, va)) == sm.page_taken(
                    va,
                    range_page_level(vr, pr, va),
                ));
            }
        }
    }
}

/// A part `part` of the range from `lo` on, tiled up to `f` after the range
/// was mapped up to `lo`: the range is mapped up to `f`.
proof fn lemma_part_prefix(
    sm: PtMem,
    bm: PtMem,
    am: PtMem,
    vr: AddressRange<VirtualAddr>,
    pr: AddressRange<PhysicalAddr>,
    permissions: PagePermissions,
    lo: int,
    f: int,
    part: (AddressRange<VirtualAddr>, AddressRange<PhysicalAddr>),
)
    requires
        vr.start@ <= lo,
        part.0.start@ == lo,
        part.0.end@ <= vr.end@,
        forall|va: usize| lo <= va < part.0.end@ ==> #[trigger] descending_target(part.0, part.1, permissions, va) == range_target(vr, pr, permissions, va),
        forall|va: usize| #[trigger]
            bm.translate(va) == if vr.start@ <= va < lo {
                range_target(vr, pr, permissions, va)
            } else {
                sm.translate(va)
            },
        descending_up_to(bm, am, part.0, part.1, permissions, f),
    ensures
        mapped_up_to(sm, am, vr, pr, permissions, f),
{
    assert forall|va: usize| #[trigger]
        am.translate(va) == if vr.start@ <= va < f {
            range_target(vr, pr, permissions, va)
        } else {
            sm.translate(va)
        } by {
        assert(bm.translate(va) == if vr.start@ <= va < lo {
            range_target(vr, pr, permissions, va)
        } else {
            sm.translate(va)
        });
    }
}

/// Mapping part `k` of the range failed: what the range's mapping has done
/// when it stops there.
#[verifier::rlimit(100)]
#[verifier::spinoff_prover]
proof fn lemma_part_failed(
    start: AddressSpace,
    before: AddressSpace,
    after: AddressSpace,
    offset: int,
    vr: AddressRange<VirtualAddr>,
    pr: AddressRange<PhysicalAddr>,
    permissions: PagePermissions,
    k: int,
    update: PageTableUpdate,
    err: MapError,
)
    requires
        slots_kept(before.mem(offset), after.mem(offset)),
        entries_changed_on(before.mem(offset), after.mem(offset), addresses_in(range_part(vr, pr, k).0)),
        range_check_error(vr, pr) is None,
        pr.fits_usize(),
        0 <= k < 3,
        part_bound(vr, pr, k) < part_bound(vr, pr, k + 1),
        parts_mapped(start, before, offset, vr, pr, permissions, k, update),
        after.wf(offset),
        after.available() == before.available(),
        after.table_count() >= before.table_count(),
        after.table_space_end() == before.table_space_end(),
        after.next_table_location() <= before.next_table_location() + 4096 * descending_need(
            range_part(vr, pr, k).0,
            range_part(vr, pr, k).1,
        ),
        after.next_table_location() == before.next_table_location() + 4096 * (after.table_count()
            - before.table_count()),
        range_canonical(range_part(vr, pr, k).0) ==> taken_outside_unchanged(
            before.mem(offset),
            after.mem(offset),
            range_part(vr, pr, k).0,
        ),
        range_canonical(range_part(vr, pr, k).0) ==> exists|f: int|
            #[trigger] descending_up_to(
                before.mem(offset),
                after.mem(offset),
                range_part(vr, pr, k).0,
                range_part(vr, pr, k).1,
                permissions,
                f,
            ),
        !before.descending_owed(offset, range_part(vr, pr, k).0, range_part(vr, pr, k).1, permissions),
        before.descending_ready(offset, range_part(vr, pr, k).0, range_part(vr, pr, k).1)
            ==> match permissions_error(permissions) {
            Some(p) => err == MapError::InvalidPermissions(p),
            None => false,
        },
        range_canonical(range_part(vr, pr, k).0) ==> (err is Conflict || err is InvalidPermissions)
            ==> descending_failed(
            before.mem(offset),
            after.mem(offset),
            range_part(vr, pr, k).0,
            range_part(vr, pr, k).1,
            permissions,
            err,
        ),
        descending_outcome(
            before.mem(offset),
            after.mem(offset),
            range_part(vr, pr, k).0,
            range_part(vr, pr, k).1,
            permissions,
            Err(err),
        ),
        range_canonical(range_part(vr, pr, k).0) ==> (err matches MapError::Conflict(c) ==> {
            &&& c.end@ == c.start@ + level_size(
                descending_level(range_part(vr, pr, k).0, range_part(vr, pr, k).1, c.start@),
            )
            &&& before.mem(offset).page_taken(
                c.start@,
                descending_level(range_part(vr, pr, k).0, range_part(vr, pr, k).1, c.start@),
            )
        }),
    ensures
        slots_kept(start.mem(offset), after.mem(offset)),
        entries_changed_on(start.mem(offset), after.mem(offset), addresses_in(vr)),
        after.wf(offset),
        after.available() == start.available(),
        after.table_count() >= start.table_count(),
        after.table_space_end() == start.table_space_end(),
        after.next_table_location() <= start.next_table_location() + 4096 * table_need(vr, pr),
        after.next_table_location() == start.next_table_location() + 4096 * (after.table_count()
            - start.table_count()),
        range_canonical(vr) ==> taken_outside_unchanged(start.mem(offset), after.mem(offset), vr),
        range_canonical(vr) ==> exists|f: int|
            #[trigger] mapped_up_to(start.mem(offset), after.mem(offset), vr, pr, permissions, f),
        !start.map_range_owed(offset, vr, pr, permissions),
        start.map_range_ready(offset, vr, pr) ==> match permissions_error(permissions) {
            Some(p) => err == MapError::InvalidPermissions(p),
            None => false,
        },
        vr.len() > 0,
        range_canonical(vr) ==> (err matches MapError::Conflict(c) ==> {
            &&& c.end@ == c.start@ + level_size(range_page_level(vr, pr, c.start@))
            &&& start.mem(offset).page_taken(c.start@, range_page_level(vr, pr, c.start@))
        }),
        map_outcome(start.mem(offset), after.mem(offset), vr, pr, permissions, Err(err)),
        range_canonical(vr) ==> (err matches MapError::Conflict(c) ==> mapped_up_to(
            start.mem(offset),
            after.mem(offset),
            vr,
            pr,
            permissions,
            c.start@ as int,
        )),
        range_canonical(vr) ==> (err is InvalidPermissions ==> mapped_up_to(
            start.mem(offset),
            after.mem(offset),
            vr,
            pr,
            permissions,
            vr.start@ as int,
        )),
{
    lemma_parts(vr, pr);
    lemma_table_need_nonnegative(vr, pr);
    lemma_part_ready(start, before, offset, vr, pr, permissions, k, update);
    assert forall|x: usize| #[trigger] addresses_in(range_part(vr, pr, k).0)(x) implies addresses_in(vr)(x) by {
        assert(vr.end@ == part_bound(vr, pr, 3));
    }
    lemma_changed_trans(
        start.mem(offset),
        before.mem(offset),
        after.mem(offset),
        addresses_in(vr),
        addresses_in(range_part(vr, pr, k).0),
        addresses_in(vr),
    );
    lemma_slots_kept_trans(start.mem(offset), before.mem(offset), after.mem(offset));
    let part = range_part(vr, pr, k);
    let lo = part_bound(vr, pr, k);
    let s = vr.start@ as int;
    let sm = start.mem(offset);
    let bm = before.mem(offset);
    let am = after.mem(offset);
    assert(vr.end@ == part_bound(vr, pr, 3));
    if range_canonical(vr) {
        assert(range_canonical(part.0));
        assert forall|va: usize, level: int|
            canonical(va) && 0 <= level <= 2 && page_outside(va, level, vr) implies #[trigger] am.page_taken(
            va,
            level,
        ) == sm.page_taken(va, level) by {
            assert(page_outside(va, level, part.0));
            assert(bm.page_taken(va, level) == sm.page_taken(va, level));
        }
        let f = choose|f: int| #[trigger]
            descending_up_to(bm, am, part.0, part.1, permissions, f);
        assert forall|va: usize| #[trigger]
            am.translate(va) == if s <= va < f {
                range_target(vr, pr, permissions, va)
            } else {
                sm.translate(va)
            } by {
            assert(bm.translate(va) == if s <= va < lo {
                range_target(vr, pr, permissions, va)
            } else {
                sm.translate(va)
            });
            if lo <= va < f {
                assert(descending_target(part.0, part.1, permissions, va) == range_target(
                    vr,
                    pr,
                    permissions,
                    va,
                ));
            }
        }
        assert(mapped_up_to(sm, am, vr, pr, permissions, f));
        if err is Conflict || err is InvalidPermissions {
            reveal(descending_failed);
            let g = match err {
                MapError::Conflict(c) => c.start@ as int,
                _ => part.0.start@ as int,
            };
            assert(descending_up_to(bm, am, part.0, part.1, permissions, g));
            assert forall|va: usize|
                lo <= va < part.0.end@ implies #[trigger] descending_target(
                part.0,
                part.1,
                permissions,
                va,
            ) == range_target(vr, pr, permissions, va) by {}
            lemma_part_prefix(sm, bm, am, vr, pr, permissions, lo, g, part);
            if err is InvalidPermissions {
                assert(lo == s);
            }
        }
    }
    if range_canonical(vr) {
        match err {
            MapError::Conflict(c) => {
                assert(range_canonical(part.0));
                assert(part.0.start@ <= c.start@ < part.0.end@);
                assert(range_page_level(vr, pr, c.start@) == descending_level(part.0, part.1, c.start@));
                assert(bm.page_taken(c.start@, range_page_level(vr, pr, c.start@)) == sm.page_taken(
                    c.start@,
                    range_page_level(vr, pr, c.start@),
                ));
            },
            _ => {},
        }
    }
}

/// All three parts mapped: the range's mapping has done what it promises.
#[verifier::spinoff_prover]
proof fn lemma_parts_done(
    start: AddressSpace,
    now: AddressSpace,
    offset: int,
    vr: AddressRange<VirtualAddr>,
    pr: AddressRange<PhysicalAddr>,
    permissions: PagePermissions,
    update: PageTableUpdate,
)
    requires
        range_check_error(vr, pr) is None,
        pr.fits_usize(),
        parts_mapped(start, now, offset, vr, pr, permissions, 3, update),
    ensures
        slots_kept(start.mem(offset), now.mem(offset)),
        entries_changed_on(start.mem(offset), now.mem(offset), addresses_in(vr)),
        now.wf(offset),
        now.available() == start.available(),
        now.table_count() >= start.table_count(),
        now.table_space_end() == start.table_space_end(),
        now.next_table_location() <= start.next_table_location() + 4096 * table_need(vr, pr),
        now.next_table_location() == start.next_table_location() + 4096 * (now.table_count()
            - start.table_count()),
        range_canonical(vr) ==> taken_outside_unchanged(start.mem(offset), now.mem(offset), vr),
        update matches PageTableUpdate::One(_) <==> (vr.len() == level_size(
            range_page_level(vr, pr, vr.start@),
        ) && now.table_count() == start.table_count()),
        permissions_error(permissions) is Some ==> vr.len() == 0,
        range_canonical(vr) ==> range_free(start.mem(offset), vr, pr),
        map_outcome(start.mem(offset), now.mem(offset), vr, pr, permissions, Ok(update)),
{
    lemma_parts(vr, pr);
    lemma_table_need_nonnegative(vr, pr);
    let sm = start.mem(offset);
    let am = now.mem(offset);
    if range_canonical(vr) && vr.len() > 0 {
        assert forall|va: usize| #[trigger]
            am.translate(va) == if vr.start@ <= va < vr.end@ {
                range_target(vr, pr, permissions, va)
            } else {
                sm.translate(va)
            } by {
            assert(mapped_up_to(sm, am, vr, pr, permissions, part_bound(vr, pr, 3)));
        }
        assert forall|va: usize| vr.start@ <= va < vr.end@ implies (#[trigger] sm.translate(va)) is None by {
        }
    }
}

/// The page that mapping a range puts at `done` bytes into it has the level
/// of the current phase, and no later page is larger.
proof fn lemma_page_levels(
    vr: AddressRange<VirtualAddr>,
    pr: AddressRange<PhysicalAddr>,
    t: int,
    done: int,
    pcur: int,
)
    requires
        0 <= t < 3,
        0 <= done,
        done + level_size(2 - t) <= vr.len(),
        vr.start@ + done <= usize::MAX,
        (vr.start@ + done) % level_size(2 - t) == 0,
        pcur == pr.start@ + done,
        pcur % level_size(2 - t) == 0,
        t == 0 ==> done <= huge_bytes(vr, pr) && done % (HUGE_PAGE_SIZE as int) == 0,
        t >= 1 ==> done >= huge_bytes(vr, pr),
        t == 1 ==> done <= huge_bytes(vr, pr) + large_bytes(vr, pr) && (done - huge_bytes(vr, pr)) % (
        LARGE_PAGE_SIZE as int) == 0,
        t >= 2 ==> done >= huge_bytes(vr, pr) + large_bytes(vr, pr),
    ensures
        descending_level(vr, pr, (vr.start@ + done) as usize) == 2 - t,
        forall|va: usize|
            va >= vr.start@ + done ==> #[trigger] descending_level(vr, pr, va) <= 2 - t,
{
    let len = vr.len() as int;
    let h = huge_bytes(vr, pr);
    if t == 0 {
        assert(vr.start@ % HUGE_PAGE_SIZE == 0) by {
            vstd::arithmetic::div_mod::lemma_mod_sub_multiples_vanish(0, HUGE_PAGE_SIZE as int);
            lemma_aligned_difference(vr.start@ + done, done, HUGE_PAGE_SIZE as int);
        }
        assert(pr.start@ % (HUGE_PAGE_SIZE as u64) == 0) by {
            lemma_aligned_difference(pcur, done, HUGE_PAGE_SIZE as int);
        }
        crate::mmu::walk::lemma_whole_multiples(done, len, HUGE_PAGE_SIZE as int);
    } else if t == 1 {
        lemma_huge_bytes_aligned(vr, pr);
        assert(done % (LARGE_PAGE_SIZE as int) == 0) by {
            lemma_aligned_sum(done - h, h, LARGE_PAGE_SIZE as int);
        }
        assert(vr.start@ % LARGE_PAGE_SIZE == 0) by {
            lemma_aligned_difference(vr.start@ + done, done, LARGE_PAGE_SIZE as int);
        }
        assert(pr.start@ % (LARGE_PAGE_SIZE as u64) == 0) by {
            lemma_aligned_difference(pcur, done, LARGE_PAGE_SIZE as int);
        }
        crate::mmu::walk::lemma_whole_multiples(done - h, len - h, LARGE_PAGE_SIZE as int);
    }
}

/// Where a phase of mapping a range ends: past all its pages.
proof fn lemma_phase_end(
    vr: AddressRange<VirtualAddr>,
    pr: AddressRange<PhysicalAddr>,
    t: int,
    done: int,
    pcur: int,
)
    requires
        0 <= t < 3,
        0 <= done <= vr.len(),
        vr.start@ + done <= usize::MAX,
        pcur == pr.start@ + done,
        done % 4096 == 0,
        (vr.start@ + done) % 4096 == 0,
        t == 0 ==> done <= huge_bytes(vr, pr) && done % (HUGE_PAGE_SIZE as int) == 0,
        t >= 1 ==> done >= huge_bytes(vr, pr),
        t == 1 ==> done <= huge_bytes(vr, pr) + large_bytes(vr, pr) && (done - huge_bytes(vr, pr)) % (
        LARGE_PAGE_SIZE as int) == 0,
        t >= 2 ==> done >= huge_bytes(vr, pr) + large_bytes(vr, pr),
        !((vr.start@ + done) % level_size(2 - t) == 0 && pcur % level_size(2 - t) == 0 && vr.len()
            - done >= level_size(2 - t)),
    ensures
        t == 0 ==> done >= huge_bytes(vr, pr),
        t == 1 ==> done >= huge_bytes(vr, pr) + large_bytes(vr, pr),
{
    let len = vr.len() as int;
    let h = huge_bytes(vr, pr);
    if t == 0 {
        if vr.start@ % HUGE_PAGE_SIZE == 0 && pr.start@ % (HUGE_PAGE_SIZE as u64) == 0 {
            lemma_aligned_sum(vr.start@ as int, done, HUGE_PAGE_SIZE as int);
            lemma_aligned_sum(pr.start@ as int, done, HUGE_PAGE_SIZE as int);
            crate::mmu::walk::lemma_whole_multiples(done, len, HUGE_PAGE_SIZE as int);
        }
    } else if t == 1 {
        if vr.start@ % LARGE_PAGE_SIZE == 0 && pr.start@ % (LARGE_PAGE_SIZE as u64) == 0 {
            lemma_huge_bytes_aligned(vr, pr);
            lemma_aligned_sum(done - h, h, LARGE_PAGE_SIZE as int);
            lemma_aligned_sum(vr.start@ as int, done, LARGE_PAGE_SIZE as int);
            lemma_aligned_sum(pr.start@ as int, done, LARGE_PAGE_SIZE as int);
            crate::mmu::walk::lemma_whole_multiples(done - h, len - h, LARGE_PAGE_SIZE as int);
        }
    }
}

/// The gigapage part of a range is a whole number of megapages and fits in the range.
proof fn lemma_huge_bytes_aligned(vr: AddressRange<VirtualAddr>, pr: AddressRange<PhysicalAddr>)
    ensures
        huge_bytes(vr, pr) % (LARGE_PAGE_SIZE as int) == 0,
        0 <= huge_bytes(vr, pr) <= vr.len(),
{
    let len = vr.len() as int;
    if vr.start@ % HUGE_PAGE_SIZE == 0 && pr.start@ % (HUGE_PAGE_SIZE as u64) == 0 {
        crate::mmu::walk::lemma_whole_multiples(0, len, HUGE_PAGE_SIZE as int);
        let q = len / (HUGE_PAGE_SIZE as int);
        assert(q >= 0) by {
            vstd::arithmetic::div_mod::lemma_div_pos_is_pos(len, HUGE_PAGE_SIZE as int);
        }
        assert((q * HUGE_PAGE_SIZE) % (LARGE_PAGE_SIZE as int) == 0) by {
            assert(q * HUGE_PAGE_SIZE == (q * 512) * LARGE_PAGE_SIZE) by (nonlinear_arith);
            vstd::arithmetic::div_mod::lemma_mod_multiples_basic(q * 512, LARGE_PAGE_SIZE as int);
        }
    }
}

proof fn lemma_aligned_difference(a: int, b: int, m: int)
    requires
        m > 0,
        a % m == 0,
        b % m == 0,
    ensures
        (a - b) % m == 0,
{
    vstd::arithmetic::div_mod::lemma_sub_mod_noop(a, b, m);
    vstd::arithmetic::div_mod::lemma_mod_self_0(m);
    vstd::arithmetic::div_mod::lemma_small_mod(0, m as nat);
}

proof fn lemma_aligned_sum(a: int, b: int, m: int)
    requires
        m > 0,
        b % m == 0,
    ensures
        (a + b) % m == a % m,
{
    vstd::arithmetic::div_mod::lemma_add_mod_noop(a, b, m);
    vstd::arithmetic::div_mod::lemma_mod_twice(a, m);
}

} // verus!
