//! What the kernel computes while it starts: where the device tree lands in
//! the kernel address space, which memory the device tree describes, and how
//! memory sizes are reported.
use vstd::prelude::*;

use device_tree_parser::DtbError;

use crate::dtb::DtNode;

use crate::mmu::addr::{round_up, AddressRange, PageType, PhysicalAddr, VirtualAddr};
use crate::mmu::space::allocation_fits;
use crate::mmu::walk::{level_size, map_outcome, range_page_level};
use crate::mmu::{allocated_range, MapError, MemoryManager, PagePermissions, PageTableUpdate};

verus! {

/// The whole pages that hold the `size` bytes at physical `address`.
pub open spec fn device_tree_pages(address: usize, size: usize) -> AddressRange<PhysicalAddr> {
    AddressRange {
        start: PhysicalAddr::at((address - address % 4096) as u64),
        end: PhysicalAddr::at(round_up((address + size) as nat, 4096) as u64),
    }
}

/// Maps the device tree blob of `dtb_size` bytes at physical `dtb_address`
/// read-only into the kernel address space; returns the kernel virtual address
/// of its first byte and the page-table update.
pub fn map_device_tree(mm: &mut MemoryManager, dtb_address: usize, dtb_size: usize) -> (r: Result<
    (VirtualAddr, PageTableUpdate),
    MapError,
>)
    requires
        old(mm).wf(),
        dtb_address + dtb_size <= usize::MAX,
        round_up((dtb_address + dtb_size) as nat, 4096) <= usize::MAX,
        allocation_fits(
            old(mm).kernel_available(),
            (round_up((dtb_address + dtb_size) as nat, 4096) - (dtb_address - dtb_address % 4096))
                as usize,
            4096,
        ),
    ensures
        final(mm).wf(),
        final(mm).offset() == old(mm).offset(),
        r matches Err(MapError::TableSpaceExhausted) ==> final(mm).kernel_table_space_full(),
        old(mm).kernel_space().map_range_owed(
            old(mm).offset() as int,
            allocated_range(
                old(mm).kernel_available(),
                device_tree_pages(dtb_address, dtb_size).len() as usize,
                4096,
            ),
            device_tree_pages(dtb_address, dtb_size),
            PagePermissions::spec_read_only(),
        ) ==> r is Ok,
        ({
            let pages = device_tree_pages(dtb_address, dtb_size);
            let virt = allocated_range(old(mm).kernel_available(), pages.len() as usize, 4096);
            match r {
                Ok((addr, update)) => {
                    &&& addr@ == virt.start@ + dtb_address % 4096
                    &&& map_outcome(
                        old(mm).kernel_mem(),
                        final(mm).kernel_mem(),
                        virt,
                        pages,
                        PagePermissions::spec_read_only(),
                        Ok(update),
                    )
                    &&& (update matches PageTableUpdate::One(_) <==> (virt.len() == level_size(
                        range_page_level(virt, pages, virt.start@),
                    ) && final(mm).kernel_space().table_count() == old(
                        mm,
                    ).kernel_space().table_count()))
                },
                Err(e) => map_outcome(
                    old(mm).kernel_mem(),
                    final(mm).kernel_mem(),
                    virt,
                    pages,
                    PagePermissions::spec_read_only(),
                    Err(e),
                ),
            }
        }),
{
    proof {
        broadcast use PhysicalAddr::lemma_at_view;

    }
    let mask = PageType::Small.mask();
    let dtb_page_addr = dtb_address & mask;
    let dtb_page_offset = dtb_address & !mask;
    proof {
        assert(dtb_address & !(4095usize) == dtb_address - dtb_address % 4096) by (bit_vector);
        assert(dtb_address & !(!(4095usize)) == dtb_address % 4096) by (bit_vector);
    }
    let range = AddressRange::new(
        PhysicalAddr::from(dtb_page_addr),
        PhysicalAddr::from(dtb_address + dtb_size),
    ).with_aligned_end(PageType::Small);
    let permissions = PagePermissions::read();
    proof {
        let pages = device_tree_pages(dtb_address, dtb_size);
        PhysicalAddr::lemma_view_injective(range.start, pages.start);
        PhysicalAddr::lemma_view_injective(range.end, pages.end);
        PagePermissions::lemma_read_only(permissions);
    }
    let (dtb_range, update) = mm.map_kernel_private(range, PageType::Small, permissions)?;
    Ok((dtb_range.start.add(dtb_page_offset), update))
}

/// Whether a node whose `device_type` property is `device_type` describes
/// memory.
pub fn is_memory_device(device_type: Option<&str>) -> (r: bool)
    ensures
        r == (device_type matches Some(t) && t@ == "memory"@),
{
    match device_type {
        Some(t) => t.to_owned() == "memory".to_owned(),
        None => false,
    }
}

/// `node` describes memory: its `device_type` is `memory`.
pub open spec fn is_memory_node(node: DtNode) -> bool {
    node.device_type matches Some(t) && t@ == "memory"@
}

/// The `reg` results of the memory nodes among `nodes`, in order.
pub open spec fn memory_regs<'a>(nodes: Seq<DtNode<'a>>) -> Seq<Result<Vec<(u64, u64)>, DtbError>>
    decreases nodes.len(),
{
    if nodes.len() == 0 {
        Seq::empty()
    } else {
        (if is_memory_node(nodes[0]) {
            seq![nodes[0].reg]
        } else {
            Seq::empty()
        }) + memory_regs(nodes.drop_first())
    }
}

/// The memory banks that `nodes` describe: for each node, in order, whose
/// `device_type` is `memory`, the `(address, size)` pairs of its `reg`
/// property, or the error met reading them.
pub fn memory_banks<'a>(nodes: Vec<DtNode<'a>>) -> (r: Vec<Result<Vec<(u64, u64)>, DtbError>>)
    ensures
        r@ == memory_regs(nodes@),
{
    let ghost all = nodes@;
    let mut rest = nodes;
    let mut banks: Vec<Result<Vec<(u64, u64)>, DtbError>> = Vec::new();
    while rest.len() > 0
        invariant
            banks@ + memory_regs(rest@) == memory_regs(all),
        decreases rest@.len(),
    {
        let ghost before = rest@;
        let node = rest.remove(0);
        assert(rest@ =~= before.drop_first());
        let DtNode { name: _, device_type, reg } = node;
        let memory = match &device_type {
            Some(t) => is_memory_device(Some(t.as_str())),
            None => false,
        };
        if memory {
            let ghost b = banks@;
            banks.push(reg);
            assert(banks@ + memory_regs(rest@) =~= b + (seq![before[0].reg] + memory_regs(
                before.drop_first(),
            )));
        } else {
            assert(banks@ + memory_regs(rest@) =~= banks@ + (Seq::empty() + memory_regs(
                before.drop_first(),
            )));
        }
    }
    assert(banks@ =~= banks@ + memory_regs(rest@));
    banks
}

/// A memory size in the largest unit it has at least one of.
pub fn memory_size_unit(size: u64) -> (r: (u64, &'static str))
    ensures
        size >= 0x4000_0000 ==> r.0 == size / 0x4000_0000 && r.1 == "GB",
        0x10_0000 <= size < 0x4000_0000 ==> r.0 == size / 0x10_0000 && r.1 == "MB",
        0x400 <= size < 0x10_0000 ==> r.0 == size / 0x400 && r.1 == "KB",
        size < 0x400 ==> r.0 == size && r.1 == "B",
{
    if size >= 1024 * 1024 * 1024 {
        (size / 1024 / 1024 / 1024, "GB")
    } else if size >= 1024 * 1024 {
        (size / 1024 / 1024, "MB")
    } else if size >= 1024 {
        (size / 1024, "KB")
    } else {
        (size, "B")
    }
}

} // verus!
