# lunula

The memory-management core of Lunula, a small RISC-V kernel, written in Verus
and proved against its contracts, with the hardware-facing kernel code and the
`xtask` developer tool around it.

## Layout

- `src/` — the verified library.
  - `mmu/addr.rs`: page sizes, physical and virtual addresses, address ranges.
  - `mmu/pte.rs`: Sv39 page-table entries and the permission bits of a leaf.
  - `mmu/walk.rs`: the mathematical model of a page-table tree, the walk the
    hardware performs on it, the lemmas about mapping into it, and the
    tiling of a range with pages: pages grow from the start of the range as
    soon as a larger one fits and shrink towards its end, so that each
    address gets the largest page that holds it and could map part of the
    range.
  - `mmu/tiling.rs`: the set of pages that mapping a range creates, and the
    proof that no set of pages that could each map part of the range covers
    it with fewer.
  - `mmu/space.rs`: page tables and address spaces: mapping pages and ranges,
    handing out kernel virtual addresses, the global kernel mapping.
  - `mmu.rs`: page permissions, address-space ids, the TLB maintenance a
    change needs, map errors, and the memory manager.
  - `shutdown.rs`, `startup.rs`: what the kernel decides while it starts:
    where the device tree and the QEMU test device are mapped, which memory
    the device tree describes.
  - `dtb.rs`: the calls into `device_tree_parser` on a parsed device tree,
    and what the kernel reads of its nodes, stated over names for what the
    parser finds.
  - `workspace.rs`: which targets the `xtask workspace` command works on,
    and which symlinks of a workspace it creates and removes.
  - `cargo_config.rs`: the cargo configuration of a workspace, edited with
    `toml_edit`.
- `tests/` — tests of the library, run against the compiled crate.
- `app/` — ordinary Rust: the kernel entry, console, TLB and `satp` access,
  shutdown devices, boot trampoline, and the `xtask` command line, which
  reads and writes files.

Page tables live in a region of globally mapped kernel memory handed to the
memory manager when it is created; each address space places its tables
there one frame after another.
