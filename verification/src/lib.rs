//! Core memory subsystem of a freestanding x86_64 kernel.
//!
//! The subsystem provides a physical page-frame allocator driven by the
//! boot-loader's memory map, a four-level page-table manager built on
//! recursive mapping, a kernel remap step that enforces W^X section
//! permissions, a guard-page-protected stack allocator, and the arithmetic
//! behind the GDT/TSS interrupt bootstrap.
//!
//! Page tables are modelled as owned data: a table store maps the physical
//! frame number of each page table to its 512 entries. The store is exactly
//! the part of physical memory that the paging code reads and writes, so
//! every translation and mapping operation is verified against it. Loading
//! the tables into the hardware (CR3, TLB flushes, `lgdt`) is the thin
//! unverified layer around this crate.

use vstd::prelude::*;

pub mod boot;
pub mod interrupts;
pub mod memory;
pub mod paging;
pub mod vga_buffer;

verus! {

/// Virtual address where the kernel heap begins (1 GiB, a canonical address).
pub const HEAP_START: u64 = 0o0_000_010_000_000_000;

/// Size of the kernel heap in bytes.
pub const HEAP_SIZE: u64 = 100 * 1024;

} // verus!
