//! Memory-management core of the Lunula RISC-V kernel: Sv39 page-table
//! entries, physical and virtual addresses, and the address spaces that map
//! kernel ranges onto physical memory; what the kernel reads from the device
//! tree while it starts; and which targets the development workspace covers
//! and how its cargo configuration is written.
use vstd::prelude::*;

pub mod cargo_config;
pub mod dtb;
pub mod mmu;
pub mod shutdown;
pub mod startup;
pub mod workspace;

