use lunula::mmu::addr::{AddressRange, Alignment, PageType, PhysicalAddr, VirtualAddr};
use lunula::mmu::PagePermissions;

#[test]
fn page_type_sizes() {
    assert_eq!(PageType::Small.size(), 4096);
    assert_eq!(PageType::Large.size(), 2 * 1024 * 1024);
    assert_eq!(PageType::Huge.size(), 1024 * 1024 * 1024);
    assert_eq!(PageType::Small.alignment().as_usize(), 4096);
    assert_eq!(PageType::Huge.alignment().as_usize(), 0x4000_0000);
    assert_eq!(PageType::Small.mask(), !0xfffusize);
    assert_eq!(PageType::Large.mask(), !0x1f_ffffusize);
    assert_eq!(0x8020_1234usize & PageType::Small.mask(), 0x8020_1000);
}

#[test]
fn alignment_new_and_max() {
    assert!(Alignment::new(0).is_none());
    assert!(Alignment::new(3).is_none());
    assert!(Alignment::new(0x3000).is_none());
    assert_eq!(Alignment::new(1).map(Alignment::as_usize), Some(1));
    assert_eq!(Alignment::new(0x10000).map(Alignment::as_usize), Some(0x10000));
    let small = PageType::Small.alignment();
    let big = Alignment::new(0x10000).unwrap();
    assert_eq!(small.max(big).as_usize(), 0x10000);
    assert_eq!(big.max(small).as_usize(), 0x10000);
}

#[test]
fn physical_addr_pages() {
    let a = PhysicalAddr::new(0x8020_1abc);
    assert_eq!(a.get(), 0x8020_1abc);
    assert_eq!(a.ppn(), 0x80201);
    assert_eq!(PhysicalAddr::from_ppn(0x80201).get(), 0x8020_1000);
    assert!(!a.is_aligned(PageType::Small));
    assert!(PhysicalAddr::new(0x8020_0000).is_aligned(PageType::Large));
    assert!(!PhysicalAddr::new(0x8020_0000).is_aligned(PageType::Huge));
    assert_eq!(a.add(0x10).get(), 0x8020_1acc);
}

#[test]
fn from_ppn_drops_bits_past_the_top() {
    assert_eq!(PhysicalAddr::from_ppn(0x0010_0000_0000_0001).get(), 0x1000);
}

#[test]
fn virtual_addr_indices() {
    let va = VirtualAddr::new(0xFFFF_FFC0_8040_3123);
    assert_eq!(va.vpn2(), 0x102);
    assert_eq!(va.vpn1(), 0x2);
    assert_eq!(va.vpn0(), 0x3);
    assert_eq!(va.get(), 0xFFFF_FFC0_8040_3123);
    assert!(!va.is_aligned(PageType::Small));
    assert!(VirtualAddr::new(0x4000_0000).is_aligned(PageType::Huge));
    assert_eq!(va.add(0xedd).get(), 0xFFFF_FFC0_8040_4000);
}

#[test]
fn address_range_size() {
    let r = AddressRange::new(VirtualAddr::new(0x1000), VirtualAddr::new(0x3000));
    assert_eq!(r.size(), 0x2000);
    let backwards = AddressRange::new(VirtualAddr::new(0x3000), VirtualAddr::new(0x1000));
    assert_eq!(backwards.size(), 0);
    let p = AddressRange::new(PhysicalAddr::new(0x8000_0000), PhysicalAddr::new(0x8000_0010));
    assert_eq!(p.size(), 0x10);
}

#[test]
fn address_range_aligned_end() {
    let r = AddressRange::new(VirtualAddr::new(0x1234), VirtualAddr::new(0x5001));
    let a = r.with_aligned_end(PageType::Small);
    assert_eq!(a.start, VirtualAddr::new(0x1234));
    assert_eq!(a.end, VirtualAddr::new(0x6000));
    let already = AddressRange::new(VirtualAddr::new(0), VirtualAddr::new(0x20_0000));
    assert_eq!(already.with_aligned_end(PageType::Large).end, VirtualAddr::new(0x20_0000));
}

#[test]
fn address_range_page() {
    let r = AddressRange::page(PhysicalAddr::new(0x1000_0000), PageType::Small);
    assert_eq!(r.start, PhysicalAddr::new(0x1000_0000));
    assert_eq!(r.end, PhysicalAddr::new(0x1000_1000));
    assert_eq!(r.size(), 4096);
    let h = AddressRange::page(VirtualAddr::new(0), PageType::Huge);
    assert_eq!(h.size(), 0x4000_0000);
}

#[test]
fn address_range_map() {
    let r = AddressRange::new(VirtualAddr::new(0xFFFF_FFC0_0000_1000), VirtualAddr::new(0xFFFF_FFC0_0000_3000));
    let p = r.map(|a| PhysicalAddr::new((a.get() - 0xFFFF_FFBF_8000_0000) as u64));
    assert_eq!(p.start, PhysicalAddr::new(0x8000_1000));
    assert_eq!(p.end, PhysicalAddr::new(0x8000_3000));
}

#[test]
fn permissions_sets() {
    let rw = PagePermissions::read().union(PagePermissions::write());
    assert_eq!(rw.bits(), 3);
    assert!(rw.contains(PagePermissions::read()));
    assert!(!rw.contains(PagePermissions::execute()));
    assert!(PagePermissions::all().contains(rw));
    assert!(rw.contains(PagePermissions::empty()));
    assert_eq!(PagePermissions::from_bits_truncate(0xfd).bits(), 5);
    assert_eq!(PagePermissions::all().bits(), 7);
}

#[test]
fn address_ranges_from_std_ranges() {
    let v: AddressRange<VirtualAddr> = (0x1000usize..0x3000usize).into();
    assert_eq!(v, AddressRange::new(VirtualAddr::new(0x1000), VirtualAddr::new(0x3000)));
    let v2: AddressRange<VirtualAddr> = (VirtualAddr::new(0x10)..VirtualAddr::new(0x20)).into();
    assert_eq!(v2.size(), 0x10);
    let p: AddressRange<PhysicalAddr> = (0x8000_0000usize..0x8000_2000usize).into();
    assert_eq!(p, AddressRange::new(PhysicalAddr::new(0x8000_0000), PhysicalAddr::new(0x8000_2000)));
    let p2: AddressRange<PhysicalAddr> = (PhysicalAddr::new(0x5000)..PhysicalAddr::new(0x4000)).into();
    assert_eq!(p2.size(), 0);
}
