use lunula::mmu::addr::{AddressRange, PhysicalAddr, VirtualAddr};
use lunula::mmu::{MemoryManager, PagePermissions, PageTableUpdate};
use lunula::startup::{map_device_tree, memory_size_unit};

const OFFSET: usize = 0xFFFF_FFBF_8000_0000;

fn vr(start: usize, end: usize) -> AddressRange<VirtualAddr> {
    AddressRange::new(VirtualAddr::new(start), VirtualAddr::new(end))
}

fn kernel_mm() -> MemoryManager {
    MemoryManager::new_with_global_mappings(
        OFFSET,
        VirtualAddr::new(0xFFFF_FFC0_0060_0000),
        vec![(vr(0xFFFF_FFC0_0000_0000, 0xFFFF_FFC0_0020_0000), PagePermissions::all())],
        vr(0xFFFF_FFC0_0100_0000, 0xFFFF_FFC0_0110_0000),
    )
    .unwrap()
}

#[test]
fn device_tree_keeps_its_page_offset() {
    let mut mm = kernel_mm();
    let (addr, update) = map_device_tree(&mut mm, 0x8fe0_0123, 0x2000).unwrap();
    // three pages, 0x8fe0_0000..0x8fe0_3000, at the start of the free kernel addresses
    assert_eq!(addr, VirtualAddr::new(0xFFFF_FFC0_0060_0123));
    assert_eq!(update, PageTableUpdate::Many);
    let (next, _) = mm
        .map_kernel_private(
            AddressRange::new(PhysicalAddr::new(0x1000_0000), PhysicalAddr::new(0x1000_1000)),
            lunula::mmu::addr::PageType::Small,
            PagePermissions::read(),
        )
        .unwrap();
    assert_eq!(next.start, VirtualAddr::new(0xFFFF_FFC0_0060_3000));
}

#[test]
fn memory_sizes_in_units() {
    assert_eq!(memory_size_unit(128 * 1024 * 1024), (128, "MB"));
    assert_eq!(memory_size_unit(2 * 1024 * 1024 * 1024), (2, "GB"));
    assert_eq!(memory_size_unit(1536), (1, "KB"));
    assert_eq!(memory_size_unit(1023), (1023, "B"));
    assert_eq!(memory_size_unit(0), (0, "B"));
}

#[test]
fn kernel_root_is_first_table_frame() {
    let mm = kernel_mm();
    // the root table sits at the start of the table space, 0x8100_0000 physical
    assert_eq!(mm.kernel_root_ppn(), 0x81000);
}

#[test]
fn address_conversions() {
    assert_eq!(VirtualAddr::from(0x1234usize), VirtualAddr::new(0x1234));
    assert_eq!(usize::from(VirtualAddr::new(0x1234)), 0x1234);
    assert_eq!(PhysicalAddr::from(0x1000usize), PhysicalAddr::new(0x1000));
    assert_eq!(usize::from(PhysicalAddr::new(0x8000_0000)), 0x8000_0000);
}
