use lunula::mmu::addr::{AddressRange, Alignment, PageType, PhysicalAddr, VirtualAddr};
use lunula::mmu::pte::InvalidPermissions;
use lunula::mmu::space::AddressSpace;
use lunula::mmu::{AddressSpaceId, MapError, MemoryManager, PagePermissions, PageTableUpdate, TlbFlush};
use lunula::shutdown::QemuShutdown;

const OFFSET: usize = 0xFFFF_FFBF_8000_0000;

fn v(a: usize) -> VirtualAddr {
    VirtualAddr::new(a)
}

fn p(a: u64) -> PhysicalAddr {
    PhysicalAddr::new(a)
}

fn vr(start: usize, end: usize) -> AddressRange<VirtualAddr> {
    AddressRange::new(v(start), v(end))
}

fn pr(start: u64, end: u64) -> AddressRange<PhysicalAddr> {
    AddressRange::new(p(start), p(end))
}

fn table_space(pages: usize) -> AddressRange<VirtualAddr> {
    vr(0xFFFF_FFC0_0100_0000, 0xFFFF_FFC0_0100_0000 + pages * 4096)
}

fn space() -> AddressSpace {
    AddressSpace::new(vr(0xFFFF_FFD0_0000_0000, usize::MAX), table_space(256))
}

fn rw() -> PagePermissions {
    PagePermissions::read().union(PagePermissions::write())
}

#[test]
fn kernel_address_space_id() {
    assert_eq!(AddressSpaceId::kernel().get(), 0);
}

#[test]
fn update_combination() {
    let a = v(0x1000);
    assert_eq!(PageTableUpdate::Unchanged + PageTableUpdate::One(a), PageTableUpdate::One(a));
    assert_eq!(PageTableUpdate::One(a) + PageTableUpdate::Unchanged, PageTableUpdate::One(a));
    assert_eq!(PageTableUpdate::One(a) + PageTableUpdate::One(a), PageTableUpdate::Many);
    assert_eq!(PageTableUpdate::Many + PageTableUpdate::Unchanged, PageTableUpdate::Many);
    assert_eq!(PageTableUpdate::Unchanged + PageTableUpdate::Unchanged, PageTableUpdate::Unchanged);
    let mut u = PageTableUpdate::default();
    assert_eq!(u, PageTableUpdate::Unchanged);
    u += PageTableUpdate::One(a);
    assert_eq!(u, PageTableUpdate::One(a));
    u += PageTableUpdate::One(v(0x2000));
    assert_eq!(u, PageTableUpdate::Many);
}

#[test]
fn update_associative_on_values() {
    let all = [PageTableUpdate::Unchanged, PageTableUpdate::One(v(0x1000)), PageTableUpdate::Many];
    for a in all {
        for b in all {
            for c in all {
                assert_eq!((a + b) + c, a + (b + c));
            }
        }
    }
}

#[test]
fn update_flush_actions() {
    let k = AddressSpaceId::kernel();
    assert_eq!(PageTableUpdate::Unchanged.flush(k), TlbFlush::Nothing);
    assert_eq!(PageTableUpdate::One(v(0x5000)).flush(k), TlbFlush::Page(k, v(0x5000)));
    assert_eq!(PageTableUpdate::Many.flush(k), TlbFlush::AddressSpace(k));
    PageTableUpdate::Many.do_not_flush();
}

#[test]
fn global_mapping_conversions() {
    let phys = AddressSpace::global_mapping_virt_to_phys(v(0xFFFF_FFC0_0020_0000), OFFSET);
    assert_eq!(phys, p(0x8020_0000));
    assert_eq!(AddressSpace::global_mapping_phys_to_virt(phys, OFFSET), v(0xFFFF_FFC0_0020_0000));
}

#[test]
fn map_small_page_then_neighbour() {
    let mut s = space();
    let first = s.map_range(
        vr(0xFFFF_FFC0_0020_0000, 0xFFFF_FFC0_0020_1000),
        pr(0x8020_0000, 0x8020_1000),
        PagePermissions::read(),
        OFFSET,
    );
    // The first page of a 1 GiB region needs new tables.
    assert_eq!(first, Ok(PageTableUpdate::Many));
    let second = s.map_range(
        vr(0xFFFF_FFC0_0020_1000, 0xFFFF_FFC0_0020_2000),
        pr(0x8020_1000, 0x8020_2000),
        PagePermissions::read(),
        OFFSET,
    );
    assert_eq!(second, Ok(PageTableUpdate::One(v(0xFFFF_FFC0_0020_1000))));
}

#[test]
fn mapping_twice_conflicts() {
    let mut s = space();
    let range = vr(0xFFFF_FFC0_0020_0000, 0xFFFF_FFC0_0020_1000);
    let phys = pr(0x8020_0000, 0x8020_1000);
    assert!(s.map_range(range, phys, rw(), OFFSET).is_ok());
    assert_eq!(
        s.map_range(range, phys, rw(), OFFSET),
        Err(MapError::Conflict(vr(0xFFFF_FFC0_0020_0000, 0xFFFF_FFC0_0020_1000)))
    );
}

#[test]
fn huge_page_then_small_page_inside_conflicts() {
    let mut s = space();
    let huge = s.map_range(
        vr(0xFFFF_FFC0_4000_0000, 0xFFFF_FFC0_8000_0000),
        pr(0xC000_0000, 0x1_0000_0000),
        PagePermissions::all(),
        OFFSET,
    );
    // A gigapage is a single root entry, no table is created.
    assert_eq!(huge, Ok(PageTableUpdate::One(v(0xFFFF_FFC0_4000_0000))));
    let small = s.map_range(
        vr(0xFFFF_FFC0_4000_3000, 0xFFFF_FFC0_4000_4000),
        pr(0x3000, 0x4000),
        PagePermissions::read(),
        OFFSET,
    );
    assert_eq!(small, Err(MapError::Conflict(vr(0xFFFF_FFC0_4000_3000, 0xFFFF_FFC0_4000_4000))));
}

#[test]
fn gigapage_writes_one_root_entry() {
    let mut s = AddressSpace::new(vr(0, usize::MAX), table_space(4));
    let r = s.map_range(
        vr(0x4000_0000, 0x8000_0000),
        pr(0x8000_0000, 0xC000_0000),
        rw(),
        0xFFFF_FFC0_0100_0000 - 0x100_0000,
    );
    assert_eq!(r, Ok(PageTableUpdate::One(v(0x4000_0000))));
    assert_eq!(s.tables().len(), 1);
    assert_eq!(s.root().entry(1).load().bits(), 0x2000_0007);
    for i in 0..512 {
        if i != 1 {
            assert!(!s.root().entry(i).load().is_valid());
            assert_eq!(s.root().entry(i).load().bits(), 0);
        }
    }
}

#[test]
fn range_uses_the_fewest_pages() {
    let mut s = space();
    // One megapage up to the gigabyte boundary, then one gigapage: one table
    // for the megapage's region besides the root.
    let r = s.map_range(
        vr(0xFFFF_FFC0_3FE0_0000, 0xFFFF_FFC0_8000_0000),
        pr(0x3FE0_0000, 0x8000_0000),
        rw(),
        OFFSET,
    );
    assert_eq!(r, Ok(PageTableUpdate::Many));
    assert_eq!(s.tables().len(), 2);
    // The gigapage is a single root entry: a 4 KiB page inside it conflicts
    // at the gigapage level.
    assert_eq!(
        s.map_range(vr(0xFFFF_FFC0_7000_0000, 0xFFFF_FFC0_7000_1000), pr(0, 0x1000), rw(), OFFSET),
        Err(MapError::Conflict(vr(0xFFFF_FFC0_7000_0000, 0xFFFF_FFC0_7000_1000)))
    );
}

#[test]
fn small_pages_grow_to_megapages() {
    let mut s = space();
    // 4 KiB pages up to the 2 MiB boundary, then megapages: 0x1FF000 bytes of
    // small pages need one level-0 table, the megapages none more.
    let r = s.map_range(
        vr(0xFFFF_FFC0_0000_1000, 0xFFFF_FFC0_0060_0000),
        pr(0x1000, 0x60_0000),
        rw(),
        OFFSET,
    );
    assert!(r.is_ok());
    assert_eq!(s.tables().len(), 3);
}

#[test]
fn mixed_page_sizes() {
    let mut s = space();
    let r = s.map_range(
        vr(0xFFFF_FFC0_0040_0000, 0xFFFF_FFC0_0080_1000),
        pr(0x8040_0000, 0x8080_1000),
        rw(),
        OFFSET,
    );
    assert_eq!(r, Ok(PageTableUpdate::Many));
    // Every page of that range is now taken.
    assert_eq!(
        s.map_range(vr(0xFFFF_FFC0_0060_0000, 0xFFFF_FFC0_0060_1000), pr(0, 0x1000), rw(), OFFSET),
        Err(MapError::Conflict(vr(0xFFFF_FFC0_0060_0000, 0xFFFF_FFC0_0060_1000)))
    );
    assert_eq!(
        s.map_range(vr(0xFFFF_FFC0_0080_0000, 0xFFFF_FFC0_0080_1000), pr(0, 0x1000), rw(), OFFSET),
        Err(MapError::Conflict(vr(0xFFFF_FFC0_0080_0000, 0xFFFF_FFC0_0080_1000)))
    );
    // The page right after it is free.
    assert!(s
        .map_range(vr(0xFFFF_FFC0_0080_1000, 0xFFFF_FFC0_0080_2000), pr(0, 0x1000), rw(), OFFSET)
        .is_ok());
}

#[test]
fn empty_range_changes_nothing() {
    let mut s = space();
    let r = s.map_range(
        vr(0xFFFF_FFC0_0020_0000, 0xFFFF_FFC0_0020_0000),
        pr(0x8020_0000, 0x8020_0000),
        PagePermissions::empty(),
        OFFSET,
    );
    assert_eq!(r, Ok(PageTableUpdate::Unchanged));
}

#[test]
fn range_checks() {
    let mut s = space();
    assert_eq!(
        s.map_range(vr(0xFFFF_FFC0_0020_0123, 0xFFFF_FFC0_0020_1000), pr(0, 0x1000), rw(), OFFSET),
        Err(MapError::VirtualUnaligned(v(0xFFFF_FFC0_0020_0123)))
    );
    assert_eq!(
        s.map_range(vr(0xFFFF_FFC0_0020_0000, 0xFFFF_FFC0_0020_1001), pr(0, 0x1000), rw(), OFFSET),
        Err(MapError::VirtualUnaligned(v(0xFFFF_FFC0_0020_1001)))
    );
    assert_eq!(
        s.map_range(vr(0xFFFF_FFC0_0020_0000, 0xFFFF_FFC0_0020_1000), pr(0x10, 0x1000), rw(), OFFSET),
        Err(MapError::PhysicalUnaligned(p(0x10)))
    );
    assert_eq!(
        s.map_range(vr(0xFFFF_FFC0_0020_0000, 0xFFFF_FFC0_0020_1000), pr(0, 0x1010), rw(), OFFSET),
        Err(MapError::PhysicalUnaligned(p(0x1010)))
    );
    assert_eq!(
        s.map_range(vr(0xFFFF_FFC0_0020_0000, 0xFFFF_FFC0_0020_1000), pr(0, 0x2000), rw(), OFFSET),
        Err(MapError::MismatchedLength(
            vr(0xFFFF_FFC0_0020_0000, 0xFFFF_FFC0_0020_1000),
            pr(0, 0x2000)
        ))
    );
}

#[test]
fn bad_permissions_are_refused() {
    let mut s = space();
    assert_eq!(
        s.map_range(
            vr(0xFFFF_FFC0_0020_0000, 0xFFFF_FFC0_0020_1000),
            pr(0, 0x1000),
            PagePermissions::write(),
            OFFSET
        ),
        Err(MapError::InvalidPermissions(InvalidPermissions::WriteOnly))
    );
    assert_eq!(
        s.map_range(
            vr(0xFFFF_FFC0_0020_0000, 0xFFFF_FFC0_0020_1000),
            pr(0, 0x1000),
            PagePermissions::empty(),
            OFFSET
        ),
        Err(MapError::InvalidPermissions(InvalidPermissions::Empty))
    );
}

#[test]
fn table_space_runs_out() {
    let mut s = AddressSpace::new(vr(0xFFFF_FFD0_0000_0000, usize::MAX), table_space(1));
    assert_eq!(
        s.map_range(vr(0xFFFF_FFC0_0020_0000, 0xFFFF_FFC0_0020_1000), pr(0, 0x1000), rw(), OFFSET),
        Err(MapError::TableSpaceExhausted)
    );
    // A gigapage needs no table besides the root.
    assert!(s
        .map_range(vr(0xFFFF_FFC0_4000_0000, 0xFFFF_FFC0_8000_0000), pr(0x4000_0000, 0x8000_0000), rw(), OFFSET)
        .is_ok());
}

#[test]
fn allocate_addresses_rounds_and_advances() {
    let mut s = AddressSpace::new(vr(0xFFFF_FFD0_0000_1234, usize::MAX), table_space(1));
    let a = s.allocate_addresses(0x1800, Alignment::new(1).unwrap());
    assert_eq!(a, vr(0xFFFF_FFD0_0000_2000, 0xFFFF_FFD0_0000_4000));
    let b = s.allocate_addresses(0x10, PageType::Large.alignment());
    assert_eq!(b, vr(0xFFFF_FFD0_0020_0000, 0xFFFF_FFD0_0020_1000));
}

#[test]
fn global_mappings_build_kernel_space() {
    let space = AddressSpace::new_with_global_mappings(
        vr(0xFFFF_FFC0_0060_0000, usize::MAX),
        OFFSET,
        &[
            (vr(0xFFFF_FFC0_0000_0000, 0xFFFF_FFC0_0010_0000), PagePermissions::read().union(PagePermissions::execute())),
            (vr(0xFFFF_FFC0_0010_0000, 0xFFFF_FFC0_0020_0000), rw()),
        ],
        table_space(16),
    );
    assert!(space.is_ok());
}

#[test]
fn global_mappings_share_their_tables() {
    let mappings = [
        (vr(0xFFFF_FFC0_0000_0000, 0xFFFF_FFC0_0010_0000), PagePermissions::read().union(PagePermissions::execute())),
        (vr(0xFFFF_FFC0_0010_0000, 0xFFFF_FFC0_0020_0000), rw()),
    ];
    // the root, one table for the gigabyte and one for the 2 MiB region
    let space = AddressSpace::new_with_global_mappings(
        vr(0xFFFF_FFC0_0060_0000, usize::MAX),
        OFFSET,
        &mappings,
        table_space(3),
    )
    .unwrap();
    assert_eq!(space.tables().len(), 3);
    let short = AddressSpace::new_with_global_mappings(
        vr(0xFFFF_FFC0_0060_0000, usize::MAX),
        OFFSET,
        &mappings,
        table_space(2),
    );
    assert!(matches!(short, Err(MapError::TableSpaceExhausted)));
}

#[test]
fn overlapping_global_mappings_conflict() {
    let space = AddressSpace::new_with_global_mappings(
        vr(0xFFFF_FFC0_0060_0000, usize::MAX),
        OFFSET,
        &[
            (vr(0xFFFF_FFC0_0000_0000, 0xFFFF_FFC0_0000_2000), PagePermissions::read()),
            (vr(0xFFFF_FFC0_0000_1000, 0xFFFF_FFC0_0000_3000), PagePermissions::read()),
        ],
        table_space(16),
    );
    assert!(matches!(
        space,
        Err(MapError::Conflict(r)) if r == vr(0xFFFF_FFC0_0000_1000, 0xFFFF_FFC0_0000_2000)
    ));
}

#[test]
fn write_only_global_mapping_is_refused() {
    let mm = MemoryManager::new_with_global_mappings(
        OFFSET,
        v(0xFFFF_FFC0_0060_0000),
        vec![
            (vr(0xFFFF_FFC0_0000_0000, 0xFFFF_FFC0_0000_1000), PagePermissions::read()),
            (vr(0xFFFF_FFC0_0000_1000, 0xFFFF_FFC0_0000_2000), PagePermissions::write()),
        ],
        table_space(16),
    );
    assert!(matches!(mm, Err(MapError::InvalidPermissions(InvalidPermissions::WriteOnly))));
}

#[test]
fn global_mappings_need_table_space() {
    let space = AddressSpace::new_with_global_mappings(
        vr(0xFFFF_FFC0_0060_0000, usize::MAX),
        OFFSET,
        &[],
        vr(0xFFFF_FFC0_0100_0000, 0xFFFF_FFC0_0100_0800),
    );
    assert!(matches!(space, Err(MapError::TableSpaceExhausted)));
}

fn kernel_mm() -> MemoryManager {
    MemoryManager::new_with_global_mappings(
        OFFSET,
        v(0xFFFF_FFC0_0060_0000),
        vec![
            (vr(0xFFFF_FFC0_0000_0000, 0xFFFF_FFC0_0010_0000), PagePermissions::read().union(PagePermissions::execute())),
            (vr(0xFFFF_FFC0_0010_0000, 0xFFFF_FFC0_0020_0000), rw()),
        ],
        table_space(16),
    )
    .unwrap()
}

#[test]
fn map_kernel_private_hands_out_fresh_ranges() {
    let mut mm = kernel_mm();
    let (first, update) = mm
        .map_kernel_private(pr(0x1010_0000, 0x1010_1000), PageType::Small, rw())
        .unwrap();
    assert_eq!(first, vr(0xFFFF_FFC0_0060_0000, 0xFFFF_FFC0_0060_1000));
    assert_eq!(update, PageTableUpdate::Many);
    let (second, update) = mm
        .map_kernel_private(pr(0x1010_1000, 0x1010_2000), PageType::Small, PagePermissions::read())
        .unwrap();
    assert_eq!(second, vr(0xFFFF_FFC0_0060_1000, 0xFFFF_FFC0_0060_2000));
    assert_eq!(update, PageTableUpdate::One(v(0xFFFF_FFC0_0060_1000)));
}

#[test]
fn map_kernel_private_unaligned_physical_range() {
    let mut mm = kernel_mm();
    let r = mm.map_kernel_private(pr(0x1010_0010, 0x1010_1010), PageType::Small, rw());
    assert_eq!(r, Err(MapError::PhysicalUnaligned(p(0x1010_0010))));
    // The virtual addresses were taken nevertheless.
    let (next, _) = mm
        .map_kernel_private(pr(0x1010_0000, 0x1010_1000), PageType::Small, rw())
        .unwrap();
    assert_eq!(next, vr(0xFFFF_FFC0_0060_1000, 0xFFFF_FFC0_0060_2000));
}

#[test]
fn qemu_shutdown_maps_its_page() {
    let mut mm = kernel_mm();
    let (device, flush) = QemuShutdown::from_unmapped(p(0x10_0000), &mut mm).unwrap();
    assert_eq!(device.addr(), v(0xFFFF_FFC0_0060_0000));
    assert_eq!(flush, TlbFlush::AddressSpace(AddressSpaceId::kernel()));
    let (second, flush) = QemuShutdown::from_unmapped(p(0x10_1000), &mut mm).unwrap();
    assert_eq!(second.addr(), v(0xFFFF_FFC0_0060_1000));
    assert_eq!(flush, TlbFlush::Page(AddressSpaceId::kernel(), v(0xFFFF_FFC0_0060_1000)));
}

#[test]
fn failed_range_keeps_pages_before_the_conflict() {
    let mut s = space();
    assert!(s
        .map_range(vr(0xFFFF_FFC0_0000_2000, 0xFFFF_FFC0_0000_3000), pr(0x9000_0000, 0x9000_1000), rw(), OFFSET)
        .is_ok());
    assert_eq!(
        s.map_range(vr(0xFFFF_FFC0_0000_0000, 0xFFFF_FFC0_0000_4000), pr(0x8000_0000, 0x8000_4000), rw(), OFFSET),
        Err(MapError::Conflict(vr(0xFFFF_FFC0_0000_2000, 0xFFFF_FFC0_0000_3000)))
    );
    // The pages before the conflict stay mapped; the one after it was not reached.
    assert_eq!(
        s.map_range(vr(0xFFFF_FFC0_0000_1000, 0xFFFF_FFC0_0000_2000), pr(0, 0x1000), rw(), OFFSET),
        Err(MapError::Conflict(vr(0xFFFF_FFC0_0000_1000, 0xFFFF_FFC0_0000_2000)))
    );
    assert!(s
        .map_range(vr(0xFFFF_FFC0_0000_3000, 0xFFFF_FFC0_0000_4000), pr(0, 0x1000), rw(), OFFSET)
        .is_ok());
}

#[test]
fn global_range_maps_as_its_physical_range() {
    let range = vr(0xFFFF_FFC0_0020_0000, 0xFFFF_FFC0_0060_3000);
    let mut global = space();
    let mut direct = space();
    let g = global.map_global_kernel_range(range, rw(), OFFSET);
    let d = direct.map_range(range, pr(0x8020_0000, 0x8060_3000), rw(), OFFSET);
    assert_eq!(g, Ok(PageTableUpdate::Many));
    assert_eq!(g, d);
    assert_eq!(global.tables().len(), direct.tables().len());
    for a in [0xFFFF_FFC0_0020_0000, 0xFFFF_FFC0_0040_0000, 0xFFFF_FFC0_0060_2000, 0xFFFF_FFC0_0060_3000] {
        let one = vr(a, a + 0x1000);
        assert_eq!(
            global.map_range(one, pr(0, 0x1000), rw(), OFFSET).is_ok(),
            direct.map_range(one, pr(0, 0x1000), rw(), OFFSET).is_ok()
        );
    }
}
