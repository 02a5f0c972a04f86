//! Boot-loader-provided information as plain data: the physical memory map
//! and the kernel's loaded ELF sections.

use vstd::prelude::*;

use crate::paging::entry::ELF_SECTION_ALLOCATED;

verus! {

/// One region of usable physical memory, as reported by the boot loader.
#[derive(Debug, Clone, Copy, PartialEq, Eq, Structural)]
pub struct MemoryArea {
    pub base_addr: u64,
    pub length: u64,
}

/// One section of the loaded kernel image.
#[derive(Debug, Clone, Copy, PartialEq, Eq, Structural)]
pub struct ElfSection {
    pub addr: u64,
    pub size: u64,
    pub flags: u64,
}

impl ElfSection {
    /// Whether the section occupies memory at run time.
    pub fn is_allocated(&self) -> (r: bool)
        ensures
            r == (self.flags & ELF_SECTION_ALLOCATED != 0),
    {
        self.flags & ELF_SECTION_ALLOCATED != 0
    }

    /// First virtual address of the section.
    pub fn start_address(&self) -> (r: u64)
        ensures
            r == self.addr,
    {
        self.addr
    }

    /// First virtual address past the section.
    pub fn end_address(&self) -> (r: u64)
        requires
            self.addr + self.size <= u64::MAX,
        ensures
            r == self.addr + self.size,
    {
        self.addr + self.size
    }
}

/// The kernel image's bounds: the smallest start address and the largest
/// end address over the sections that occupy memory. This is what the
/// frame allocator reserves as the kernel.
pub fn kernel_bounds(sections: &Vec<ElfSection>) -> (r: (u64, u64))
    requires
        exists|i: int|
            0 <= i < sections@.len() && (#[trigger] sections@[i]).flags & ELF_SECTION_ALLOCATED
                != 0,
        forall|i: int|
            0 <= i < sections@.len() ==> (#[trigger] sections@[i]).addr + sections@[i].size
                <= u64::MAX,
    ensures
        forall|i: int|
            0 <= i < sections@.len() && (#[trigger] sections@[i]).flags & ELF_SECTION_ALLOCATED
                != 0 ==> r.0 <= sections@[i].addr && sections@[i].addr + sections@[i].size <= r.1,
        exists|i: int|
            0 <= i < sections@.len() && (#[trigger] sections@[i]).flags & ELF_SECTION_ALLOCATED
                != 0 && r.0 == sections@[i].addr,
        exists|i: int|
            0 <= i < sections@.len() && (#[trigger] sections@[i]).flags & ELF_SECTION_ALLOCATED
                != 0 && r.1 == sections@[i].addr + sections@[i].size,
{
    let n = sections.len();
    let mut best: Option<(u64, u64)> = None;
    let mut i: usize = 0;
    while i < n
        invariant
            i <= n,
            n == sections@.len(),
            forall|j: int|
                0 <= j < n ==> (#[trigger] sections@[j]).addr + sections@[j].size <= u64::MAX,
            match best {
                Some(b) => {
                    &&& forall|j: int|
                        0 <= j < i && (#[trigger] sections@[j]).flags & ELF_SECTION_ALLOCATED != 0
                            ==> b.0 <= sections@[j].addr && sections@[j].addr + sections@[j].size
                            <= b.1
                    &&& exists|j: int|
                        0 <= j < i && (#[trigger] sections@[j]).flags & ELF_SECTION_ALLOCATED != 0
                            && b.0 == sections@[j].addr
                    &&& exists|j: int|
                        0 <= j < i && (#[trigger] sections@[j]).flags & ELF_SECTION_ALLOCATED != 0
                            && b.1 == sections@[j].addr + sections@[j].size
                },
                None => forall|j: int|
                    0 <= j < i ==> (#[trigger] sections@[j]).flags & ELF_SECTION_ALLOCATED == 0,
            },
        decreases n - i,
    {
        let section = sections[i];
        if section.flags & ELF_SECTION_ALLOCATED != 0 {
            let start = section.addr;
            let end = section.addr + section.size;
            best = match best {
                Some(b) => Some(
                    (if start < b.0 { start } else { b.0 }, if end > b.1 { end } else { b.1 }),
                ),
                None => Some((start, end)),
            };
        }
        i = i + 1;
    }
    match best {
        Some(b) => b,
        None => {
            proof {
                let w = choose|w: int|
                    0 <= w < sections@.len() && (#[trigger] sections@[w]).flags
                        & ELF_SECTION_ALLOCATED != 0;
                assert(false);
            }
            vstd::pervasive::unreached()
        },
    }
}

/// Everything this subsystem consumes from the boot loader: the memory map,
/// the kernel's sections, and where the boot information itself lies.
pub struct BootInformation {
    pub memory_areas: Vec<MemoryArea>,
    pub elf_sections: Vec<ElfSection>,
    pub multiboot_start: u64,
    pub multiboot_end: u64,
}

impl BootInformation {
    /// Physical address of the boot information structure.
    pub fn start_address(&self) -> (r: u64)
        ensures
            r == self.multiboot_start,
    {
        self.multiboot_start
    }

    /// First physical address past the boot information structure.
    pub fn end_address(&self) -> (r: u64)
        ensures
            r == self.multiboot_end,
    {
        self.multiboot_end
    }
}

} // verus!
