//! The QEMU test device through which the kernel powers the machine off:
//! finding it in the device tree and mapping its register.
use vstd::prelude::*;

use device_tree_parser::{DeviceTreeNode, DtbError};

use crate::dtb::{compatible_device_nodes, compatible_of, dt_nodes_read, DtNode};

use crate::mmu::addr::{AddressRange, PageType, PhysicalAddr, VirtualAddr};
use crate::mmu::space::allocation_fits;
use crate::mmu::walk::{level_size, map_outcome, range_page_level};
use crate::mmu::{
    allocated_range, AddressSpaceId, MapError, MemoryManager, PagePermissions, PageTableUpdate,
    TlbFlush,
};

verus! {

/// Why the global shutdown device could not be set up.
#[derive(Debug)]
pub enum InitError<'a> {
    /// The device tree could not be read.
    DtbError(DtbError),
    /// The named device has no `reg` property.
    NoReg(&'a str),
    /// The shutdown device was set up before.
    AlreadyInitialized,
    /// The device's register could not be mapped.
    MmioMap(MapError),
}

/// The register address of the device `name` whose translated `reg` pairs
/// are `reg`: the address of the first pair.
pub fn shutdown_register<'a>(name: &'a str, reg: Result<Vec<(u64, u64)>, DtbError>) -> (r: Result<
    PhysicalAddr,
    InitError<'a>,
>)
    ensures
        match reg {
            Err(e) => r matches Err(InitError::DtbError(f)) && f == e,
            Ok(v) => if v.len() == 0 {
                r matches Err(InitError::NoReg(n)) && n == name
            } else {
                r matches Ok(a) && a@ == v[0].0
            },
        },
{
    match reg {
        Err(e) => Err(InitError::DtbError(e)),
        Ok(v) => {
            if v.len() == 0 {
                Err(InitError::NoReg(name))
            } else {
                Ok(PhysicalAddr::new(v[0].0))
            }
        },
    }
}

/// The nodes of the tree under `root`, in depth-first order, that are QEMU
/// test devices: those whose `compatible` property names `sifive,test1`.
pub fn shutdown_candidates<'a>(root: &DeviceTreeNode<'a>) -> (r: Vec<DtNode<'a>>)
    ensures
        dt_nodes_read(r@, compatible_of(*root, "sifive,test1"@), *root),
{
    compatible_device_nodes(root, "sifive,test1")
}

/// The test device to power off through, of the `candidates` that
/// `shutdown_candidates` found: none where there is none, and otherwise the
/// name of the first and the address of its register, the first pair of its
/// `reg` property.
pub fn locate_shutdown_device<'a>(candidates: Vec<DtNode<'a>>) -> (r: Result<
    Option<(&'a str, PhysicalAddr)>,
    InitError<'a>,
>)
    ensures
        candidates@.len() == 0 ==> r matches Ok(None),
        candidates@.len() > 0 ==> match candidates@[0].reg {
            Err(e) => r matches Err(InitError::DtbError(f)) && f == e,
            Ok(v) => if v@.len() == 0 {
                r matches Err(InitError::NoReg(n)) && n == candidates@[0].name
            } else {
                r matches Ok(Some((n, a))) && n == candidates@[0].name && a@ == v@[0].0
            },
        },
{
    if candidates.len() == 0 {
        return Ok(None);
    }
    let mut candidates = candidates;
    let first = candidates.remove(0);
    let DtNode { name, device_type: _, reg } = first;
    match shutdown_register(name, reg) {
        Ok(addr) => Ok(Some((name, addr))),
        Err(e) => Err(e),
    }
}

/// The `sifive,test1` device of QEMU, reached at a kernel virtual address.
pub struct QemuShutdown {
    addr: VirtualAddr,
}

impl QemuShutdown {
    pub closed spec fn view(self) -> VirtualAddr {
        self.addr
    }

    /// The virtual address of the device's register.
    pub fn addr(&self) -> (r: VirtualAddr)
        ensures
            r == self@,
    {
        self.addr
    }

    /// Maps the device's page at `addr` into the kernel address space, readable
    /// and writable, and returns the device with the TLB maintenance that the
    /// new mapping needs.
    pub fn from_unmapped(addr: PhysicalAddr, mm: &mut MemoryManager) -> (r: Result<
        (Self, TlbFlush),
        MapError,
    >)
        requires
            old(mm).wf(),
            addr@ + 4096 <= usize::MAX,
            allocation_fits(old(mm).kernel_available(), 4096, 4096),
        ensures
            final(mm).wf(),
            final(mm).offset() == old(mm).offset(),
            final(mm).global_mappings() == old(mm).global_mappings(),
            r matches Err(MapError::TableSpaceExhausted) ==> final(mm).kernel_table_space_full(),
            old(mm).kernel_space().map_range_owed(
                old(mm).offset() as int,
                allocated_range(old(mm).kernel_available(), 4096, 4096),
                AddressRange { start: addr, end: PhysicalAddr::at((addr@ + 4096) as u64) },
                PagePermissions::spec_read_write(),
            ) ==> r is Ok,
            ({
                let virt = allocated_range(old(mm).kernel_available(), 4096, 4096);
                let phys = AddressRange { start: addr, end: PhysicalAddr::at((addr@ + 4096) as u64) };
                match r {
                    Ok((device, flush)) => {
                        &&& device@ == virt.start
                        &&& exists|update: PageTableUpdate|
                            {
                                &&& map_outcome(
                                    old(mm).kernel_mem(),
                                    final(mm).kernel_mem(),
                                    virt,
                                    phys,
                                    PagePermissions::spec_read_write(),
                                    Ok(update),
                                )
                                &&& flush == update.flush_action(AddressSpaceId::spec_kernel())
                                &&& (update matches PageTableUpdate::One(_) <==> (virt.len()
                                    == level_size(range_page_level(virt, phys, virt.start@))
                                    && final(mm).kernel_space().table_count() == old(
                                    mm,
                                ).kernel_space().table_count()))
                            }
                    },
                    Err(e) => map_outcome(
                        old(mm).kernel_mem(),
                        final(mm).kernel_mem(),
                        virt,
                        phys,
                        PagePermissions::spec_read_write(),
                        Err(e),
                    ),
                }
            }),
    {
        proof {
            broadcast use PhysicalAddr::lemma_at_view;

        }
        let page = AddressRange::page(addr, PageType::Small);
        let permissions = PagePermissions::read().union(PagePermissions::write());
        proof {
            PhysicalAddr::lemma_view_injective(page.end, PhysicalAddr::at((addr@ + 4096) as u64));
            assert(1u8 | 2u8 == 3u8) by (bit_vector);
            PagePermissions::lemma_read_write(permissions);
        }
        let (range, update) = mm.map_kernel_private(page, PageType::Small, permissions)?;
        let flush = update.flush(AddressSpaceId::kernel());
        Ok((QemuShutdown { addr: range.start }, flush))
    }
}

} // verus!
