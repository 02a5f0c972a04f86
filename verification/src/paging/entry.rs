//! A single 64-bit page-table entry: flag bits plus a physical frame address.

use vstd::prelude::*;

use crate::memory::{Frame, MAX_FRAME, PAGE_SIZE};

verus! {

/// The page is present in memory.
pub const PRESENT: u64 = 0x1;
/// The page may be written to.
pub const WRITABLE: u64 = 0x2;
/// The page is accessible from user mode.
pub const USER_ACCESSIBLE: u64 = 0x4;
/// Writes go directly to memory.
pub const WRITE_THROUGH: u64 = 0x8;
/// No cache is used for the page.
pub const NO_CACHE: u64 = 0x10;
/// Set by the CPU when the page is accessed.
pub const ACCESSED: u64 = 0x20;
/// Set by the CPU when the page is written to.
pub const DIRTY: u64 = 0x40;
/// Must be 0 in level-1 and level-4 entries; marks a 1 GiB page in a level-3
/// entry and a 2 MiB page in a level-2 entry.
pub const HUGE_PAGE: u64 = 0x80;
/// The page stays in the TLB across an address-space switch.
pub const GLOBAL: u64 = 0x100;
/// Code in the page may not be executed (requires EFER.NXE).
pub const NO_EXECUTE: u64 = 0x8000_0000_0000_0000;

/// Bits 12..52 of an entry hold the physical address of the pointed frame.
pub const ADDRESS_MASK: u64 = 0x000f_ffff_ffff_f000;

/// All defined flag bits of an entry: bits 0..9 and bit 63.
pub const FLAGS_MASK: u64 = 0x8000_0000_0000_01ff;

/// A set of entry flag bits.
pub type EntryFlags = u64;

/// The entry maps something (its present bit is set).
pub open spec fn e_present(e: u64) -> bool {
    e & PRESENT != 0
}

/// The entry is a huge-page leaf rather than a link to a lower table.
pub open spec fn e_huge(e: u64) -> bool {
    e & HUGE_PAGE != 0
}

/// Number of the physical frame the entry points at.
pub open spec fn e_frame(e: u64) -> u64 {
    (e & ADDRESS_MASK) >> 12
}

/// The entry links to a lower-level page table: present and not huge.
pub open spec fn e_link(e: u64) -> bool {
    e_present(e) && !e_huge(e)
}

/// The 64-bit word an entry built from `frame` and `flags` holds.
pub open spec fn entry_value(frame: u64, flags: u64) -> u64 {
    ((frame * 4096) as u64) | flags
}

/// Flag bits `ELF_SECTION_WRITABLE` of a loaded ELF section.
pub const ELF_SECTION_WRITABLE: u64 = 0x1;
/// Flag bits `ELF_SECTION_ALLOCATED` of a loaded ELF section.
pub const ELF_SECTION_ALLOCATED: u64 = 0x2;
/// Flag bits `ELF_SECTION_EXECUTABLE` of a loaded ELF section.
pub const ELF_SECTION_EXECUTABLE: u64 = 0x4;

/// Entry flags an ELF section's flags translate to: allocated sections are
/// present, writable sections writable, and everything not executable is
/// marked no-execute.
pub open spec fn spec_elf_flags(section_flags: u64) -> u64 {
    (if section_flags & ELF_SECTION_ALLOCATED != 0 { PRESENT } else { 0 })
        | (if section_flags & ELF_SECTION_WRITABLE != 0 { WRITABLE } else { 0 })
        | (if section_flags & ELF_SECTION_EXECUTABLE == 0 { NO_EXECUTE } else { 0 })
}

/// A single entry in a page table.
#[derive(Debug, Clone, Copy, PartialEq, Eq, Structural)]
pub struct Entry(pub u64);

impl Entry {
    /// Whether the entry is completely empty.
    pub fn is_unused(&self) -> (r: bool)
        ensures
            r == (self.0 == 0),
    {
        self.0 == 0
    }

    /// Clear the entry.
    pub fn set_unused(&mut self)
        ensures
            final(self).0 == 0,
    {
        self.0 = 0;
    }

    /// The entry's flag bits.
    pub fn flags(&self) -> (r: EntryFlags)
        ensures
            r == self.0 & FLAGS_MASK,
    {
        self.0 & FLAGS_MASK
    }

    /// The frame the entry points at, when it is present.
    pub fn pointed_frame(&self) -> (r: Option<Frame>)
        ensures
            if e_present(self.0) {
                r matches Some(f) && f.number == e_frame(self.0)
            } else {
                r is None
            },
    {
        if self.0 & PRESENT != 0 {
            proof {
                let e = self.0;
                assert((e & ADDRESS_MASK) / 4096 == (e & ADDRESS_MASK) >> 12
                    && (e & ADDRESS_MASK) >> 12 < 0x100_0000_0000) by (bit_vector);
            }
            Some(Frame::containing_address(self.0 & ADDRESS_MASK))
        } else {
            None
        }
    }

    /// Point the entry at `frame` with the given flags. The frame's address
    /// must fit in the entry's 40 address bits.
    pub fn set(&mut self, frame: &Frame, flags: EntryFlags)
        requires
            frame.number < MAX_FRAME,
        ensures
            final(self).0 == entry_value(frame.number, flags),
    {
        proof {
            let n = frame.number;
            assert(n * 4096 < 0x10_0000_0000_0000_0 && (n * 4096) as u64 & !ADDRESS_MASK == 0)
                by (bit_vector)
                requires n < 0x100_0000_0000u64;
        }
        let start = frame.start_address();
        assert(start & !ADDRESS_MASK == 0);
        self.0 = start | flags;
    }
}

/// Entry flags for a loaded ELF section.
pub fn from_elf_section_flags(section_flags: u64) -> (r: EntryFlags)
    ensures
        r == spec_elf_flags(section_flags),
{
    let allocated: u64 = if section_flags & ELF_SECTION_ALLOCATED != 0 { PRESENT } else { 0 };
    let writable: u64 = if section_flags & ELF_SECTION_WRITABLE != 0 { WRITABLE } else { 0 };
    let executable: u64 = if section_flags & ELF_SECTION_EXECUTABLE == 0 { NO_EXECUTE } else { 0 };
    allocated | writable | executable
}

} // verus!
