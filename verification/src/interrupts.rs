//! Interrupt bootstrap arithmetic: the descriptor-table words behind the
//! GDT/TSS setup. Loading the tables into the CPU is hardware work outside
//! this crate.

use vstd::prelude::*;

pub mod gdt;

verus! {

/// Index of the double-fault stack in the TSS's interrupt stack table.
pub const DOUBLE_FAULT_IST_INDEX: u64 = 0;

} // verus!
