use device_tree_parser::{DeviceTreeNode, DtbError, Property, PropertyValue};
use lunula::mmu::addr::PhysicalAddr;
use lunula::dtb::{device_tree_nodes, DtNode};
use lunula::shutdown::{locate_shutdown_device, shutdown_candidates, shutdown_register, InitError};
use lunula::startup::{is_memory_device, memory_banks};

// two address cells and two size cells per `reg` pair
const TEST_REG: [u8; 16] = [0, 0, 0, 0, 0, 0x10, 0, 0, 0, 0, 0, 0, 0, 0, 0x10, 0];
const MEMORY_REG: [u8; 16] = [0, 0, 0, 0, 0x80, 0, 0, 0, 0, 0, 0, 0, 0x80, 0, 0, 0];
const FLASH_REG: [u8; 32] = [
    0, 0, 0, 0, 0x20, 0, 0, 0, 0, 0, 0, 0, 0x02, 0, 0, 0, //
    0, 0, 0, 0, 0x22, 0, 0, 0, 0, 0, 0, 0, 0x02, 0, 0, 0,
];

fn prop(name: &'static str, value: PropertyValue<'static>) -> Property<'static> {
    Property { name, value }
}

fn root(address_cells: u32) -> DeviceTreeNode<'static> {
    let mut root = DeviceTreeNode::new("");
    root.add_property(prop("#address-cells", PropertyValue::U32(address_cells)));
    root.add_property(prop("#size-cells", PropertyValue::U32(2)));
    root
}

fn memory(name: &'static str, reg: &'static [u8]) -> DeviceTreeNode<'static> {
    let mut node = DeviceTreeNode::new(name);
    node.add_property(prop("device_type", PropertyValue::String("memory")));
    node.add_property(prop("reg", PropertyValue::U32Array(reg)));
    node
}

fn test_device(reg: Option<&'static [u8]>) -> DeviceTreeNode<'static> {
    let mut node = DeviceTreeNode::new("test@100000");
    node.add_property(prop(
        "compatible",
        PropertyValue::StringList(vec!["sifive,test1", "sifive,test0", "syscon"]),
    ));
    if let Some(reg) = reg {
        node.add_property(prop("reg", PropertyValue::U32Array(reg)));
    }
    node
}

fn machine(test: Option<DeviceTreeNode<'static>>) -> DeviceTreeNode<'static> {
    let mut tree = root(2);
    tree.add_child(memory("memory@80000000", &MEMORY_REG));
    let mut soc = DeviceTreeNode::new("soc");
    if let Some(test) = test {
        soc.add_child(test);
    }
    let mut uart = DeviceTreeNode::new("serial@10000000");
    uart.add_property(prop("compatible", PropertyValue::String("ns16550a")));
    soc.add_child(uart);
    tree.add_child(soc);
    tree
}

#[test]
fn shutdown_device_is_found_with_its_register() {
    let tree = machine(Some(test_device(Some(&TEST_REG))));
    let found = locate_shutdown_device(shutdown_candidates(&tree)).unwrap();
    assert_eq!(found, Some(("test@100000", PhysicalAddr::new(0x10_0000))));
}

#[test]
fn no_test_device_means_none() {
    let tree = machine(None);
    assert_eq!(locate_shutdown_device(shutdown_candidates(&tree)).unwrap(), None);
}

#[test]
fn test_device_without_reg_is_refused() {
    let tree = machine(Some(test_device(None)));
    assert!(matches!(locate_shutdown_device(shutdown_candidates(&tree)), Err(InitError::NoReg("test@100000"))));
}

#[test]
fn test_device_with_bad_cells_is_refused() {
    let mut tree = root(5);
    tree.add_child(test_device(Some(&TEST_REG)));
    assert!(matches!(
        locate_shutdown_device(shutdown_candidates(&tree)),
        Err(InitError::DtbError(DtbError::InvalidAddressCells(5)))
    ));
}

#[test]
fn shutdown_register_takes_the_first_pair() {
    let reg = Ok(vec![(0x1000, 0x10), (0x2000, 0)]);
    assert_eq!(shutdown_register("dev", reg).unwrap(), PhysicalAddr::new(0x1000));
    assert!(matches!(shutdown_register("dev", Ok(vec![])), Err(InitError::NoReg("dev"))));
    assert!(matches!(
        shutdown_register("dev", Err(DtbError::MalformedHeader)),
        Err(InitError::DtbError(DtbError::MalformedHeader))
    ));
}

#[test]
fn memory_device_type() {
    assert!(is_memory_device(Some("memory")));
    assert!(!is_memory_device(Some("cpu")));
    assert!(!is_memory_device(Some("memory ")));
    assert!(!is_memory_device(None));
}

#[test]
fn memory_banks_in_tree_order() {
    let mut tree = machine(None);
    tree.add_child(memory("flash@20000000", &FLASH_REG));
    let banks: Vec<Vec<(u64, u64)>> =
        memory_banks(device_tree_nodes(&tree)).into_iter().map(|bank| bank.unwrap()).collect();
    assert_eq!(
        banks,
        vec![
            vec![(0x8000_0000, 0x8000_0000)],
            vec![(0x2000_0000, 0x0200_0000), (0x2200_0000, 0x0200_0000)],
        ]
    );
}

#[test]
fn memory_bank_with_bad_cells_is_an_error() {
    let mut tree = root(7);
    tree.add_child(memory("memory@80000000", &MEMORY_REG));
    let banks = memory_banks(device_tree_nodes(&tree));
    assert_eq!(banks.len(), 1);
    assert_eq!(banks[0], Err(DtbError::InvalidAddressCells(7)));
}

fn node(name: &'static str, device_type: Option<&str>, reg: Result<Vec<(u64, u64)>, DtbError>) -> DtNode<'static> {
    DtNode { name, device_type: device_type.map(|t| t.to_string()), reg }
}

#[test]
fn memory_banks_pick_memory_nodes_in_order() {
    let nodes = vec![
        node("cpu@0", Some("cpu"), Ok(vec![(0, 0)])),
        node("memory@80000000", Some("memory"), Ok(vec![(0x8000_0000, 0x1000)])),
        node("soc", None, Ok(vec![])),
        node("memory@c0000000", Some("memory"), Err(DtbError::MalformedHeader)),
    ];
    assert_eq!(
        memory_banks(nodes),
        vec![Ok(vec![(0x8000_0000, 0x1000)]), Err(DtbError::MalformedHeader)]
    );
    assert!(memory_banks(vec![]).is_empty());
}

#[test]
fn first_candidate_decides_the_shutdown_device() {
    let candidates = vec![
        node("test@100000", None, Ok(vec![(0x10_0000, 0x1000), (0x20_0000, 0x1000)])),
        node("test@300000", None, Ok(vec![(0x30_0000, 0x1000)])),
    ];
    assert_eq!(
        locate_shutdown_device(candidates).unwrap(),
        Some(("test@100000", PhysicalAddr::new(0x10_0000)))
    );
    assert!(matches!(
        locate_shutdown_device(vec![node("bad", None, Ok(vec![])), node("good", None, Ok(vec![(1, 1)]))]),
        Err(InitError::NoReg("bad"))
    ));
    assert_eq!(locate_shutdown_device(vec![]).unwrap(), None);
}
