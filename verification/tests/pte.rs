use lunula::mmu::addr::PhysicalAddr;
use lunula::mmu::pte::{InvalidPermissions, PteSlot, PteValue};
use lunula::mmu::PagePermissions;

fn leaf_bits(addr: u64, permissions: PagePermissions) -> Result<u64, InvalidPermissions> {
    PteValue::leaf(PhysicalAddr::new(addr), permissions).map(PteValue::bits)
}

#[test]
fn test_pte_leaf() {
    let read = PagePermissions::read();
    let write = PagePermissions::write();
    let execute = PagePermissions::execute();

    assert_eq!(leaf_bits(0x1000, PagePermissions::empty()), Err(InvalidPermissions::Empty));
    assert_eq!(leaf_bits(0x1000, read), Ok(0x403));
    assert_eq!(leaf_bits(0x1000, write), Err(InvalidPermissions::WriteOnly));
    assert_eq!(leaf_bits(0x1000, execute), Ok(0x409));
    assert_eq!(leaf_bits(0x1000, read.union(write)), Ok(0x407));
    assert_eq!(leaf_bits(0x1000, read.union(execute)), Ok(0x40b));
    assert_eq!(leaf_bits(0x1000, write.union(execute)), Err(InvalidPermissions::WriteOnly));
    assert_eq!(leaf_bits(0x1000, PagePermissions::all()), Ok(0x40f));
}

#[test]
fn test_pte_nonleaf() {
    assert_eq!(PteValue::non_leaf(PhysicalAddr::new(0x1000)).bits(), 0x401);
}

#[test]
fn leaf_entry_fields() {
    let v = PteValue::leaf(PhysicalAddr::new(0x8020_0000), PagePermissions::read()).unwrap();
    assert!(v.is_valid());
    assert!(v.is_leaf());
    assert_eq!(v.ppn(), 0x80200);
    assert_eq!(PhysicalAddr::from_ppn(v.ppn()), PhysicalAddr::new(0x8020_0000));
}

#[test]
fn non_leaf_entry_fields() {
    let v = PteValue::non_leaf(PhysicalAddr::new(0x8765_4000));
    assert!(v.is_valid());
    assert!(!v.is_leaf());
    assert_eq!(v.ppn(), 0x87654);
}

#[test]
fn unmapped_entry() {
    let v = PteValue::unmapped();
    assert_eq!(v.bits(), 0);
    assert!(!v.is_valid());
    assert!(!v.is_leaf());
}

#[test]
fn slot_load_returns_last_store() {
    let mut slot = PteSlot::new(PteValue::unmapped());
    assert_eq!(slot.load(), PteValue::unmapped());
    let v = PteValue::non_leaf(PhysicalAddr::new(0x2000));
    slot.store(v);
    assert_eq!(slot.load(), v);
    assert_eq!(slot.load().bits(), 0x801);
}

#[test]
fn high_physical_address_leaf() {
    // The page number keeps every bit of a 56-bit physical address.
    let v = PteValue::leaf(PhysicalAddr::new(0x00ff_ffff_ffff_f000), PagePermissions::all()).unwrap();
    assert_eq!(v.ppn(), 0x000f_ffff_ffff_ff);
    assert_eq!(v.bits(), (0x000f_ffff_ffff_ffu64 << 10) | 0xf);
}
