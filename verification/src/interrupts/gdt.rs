//! The Global Descriptor Table: a 16-entry table of segment descriptors,
//! filled from index 1 up (entry 0 stays the null descriptor).

use vstd::prelude::*;

verus! {

/// Descriptor flag: segment is conforming.
pub const CONFORMING: u64 = 0x400_0000_0000;
/// Descriptor flag: segment is executable.
pub const EXECUTABLE: u64 = 0x800_0000_0000;
/// Descriptor flag: user segment (code or data), not a system segment.
pub const USER_SEGMENT: u64 = 0x1000_0000_0000;
/// Descriptor flag: segment is present.
pub const PRESENT_DESCRIPTOR: u64 = 0x8000_0000_0000;
/// Descriptor flag: 64-bit code segment.
pub const LONG_MODE: u64 = 0x20_0000_0000_0000;

/// Size in bytes of the task state segment the TSS descriptor covers.
pub const TSS_SIZE: u64 = 104;

/// A selector naming a GDT entry: the entry's index in bits 3.., the
/// requested privilege level in bits 0..2.
#[derive(Debug, Clone, Copy, PartialEq, Eq, Structural)]
pub struct SegmentSelector {
    pub bits: u16,
}

impl SegmentSelector {
    /// Selector for GDT entry `index` at the given privilege level.
    pub fn new(index: u16, rpl: u16) -> (r: SegmentSelector)
        requires
            index < 0x2000,
            rpl < 4,
        ensures
            r.bits == index * 8 + rpl,
    {
        proof {
            let i = index;
            let p = rpl;
            assert((i << 3) | p == i * 8 + p && i * 8 + p <= u16::MAX) by (bit_vector)
                requires
                    i < 0x2000,
                    p < 4,
            ;
        }
        SegmentSelector { bits: (index << 3) | rpl }
    }
}

/// A descriptor to be placed in the GDT: user segments take one slot,
/// system segments (the TSS descriptor) take two.
#[derive(Debug, Clone, Copy, PartialEq, Eq, Structural)]
pub enum Descriptor {
    UserSegment(u64),
    SystemSegment(u64, u64),
}

/// The descriptor word of a 64-bit kernel code segment.
pub open spec fn spec_kernel_code() -> u64 {
    USER_SEGMENT | PRESENT_DESCRIPTOR | EXECUTABLE | LONG_MODE
}

/// Low word of a TSS descriptor for a TSS at `base`: present, limit
/// `TSS_SIZE - 1`, type nibble 0b1001 (available 64-bit TSS), base bits
/// 0..24 in bits 16..40 and base bits 24..32 in bits 56..64.
pub open spec fn spec_tss_low(base: u64) -> u64 {
    PRESENT_DESCRIPTOR | ((base & 0xff_ffff) << 16) | (((base >> 24) & 0xff) << 56) | ((TSS_SIZE
        - 1) as u64) | (0x9u64 << 40)
}

/// High word of a TSS descriptor: base bits 32..64.
pub open spec fn spec_tss_high(base: u64) -> u64 {
    base >> 32
}

impl Descriptor {
    /// A kernel code segment: user segment, present, executable, long mode.
    pub fn kernel_code_segment() -> (r: Descriptor)
        ensures
            r == Descriptor::UserSegment(spec_kernel_code()),
    {
        Descriptor::UserSegment(USER_SEGMENT | PRESENT_DESCRIPTOR | EXECUTABLE | LONG_MODE)
    }

    /// A task-state-segment descriptor for the TSS at physical `base`.
    pub fn tss_segment(base: u64) -> (r: Descriptor)
        ensures
            r == Descriptor::SystemSegment(spec_tss_low(base), spec_tss_high(base)),
    {
        let low = PRESENT_DESCRIPTOR | ((base & 0xff_ffff) << 16) | (((base >> 24) & 0xff) << 56)
            | (TSS_SIZE - 1) | (0x9u64 << 40);
        proof {
            assert(TSS_SIZE - 1 == (TSS_SIZE - 1) as u64);
        }
        let high = base >> 32;
        Descriptor::SystemSegment(low, high)
    }
}

/// The GDT under construction: 16 descriptor words, the next free index.
pub struct Gdt {
    pub table: Vec<u64>,
    pub next_free: usize,
}

impl Gdt {
    /// Sixteen slots, index 0 reserved for the null descriptor.
    pub open spec fn wf(&self) -> bool {
        &&& self.table@.len() == 16
        &&& 1 <= self.next_free <= 16
    }

    /// An empty table: all zero, filling starts at entry 1.
    pub fn new() -> (r: Gdt)
        ensures
            r.wf(),
            r.next_free == 1,
            forall|i: int| 0 <= i < 16 ==> r.table@[i] == 0,
    {
        let mut table: Vec<u64> = Vec::new();
        let mut i: usize = 0;
        while i < 16
            invariant
                i <= 16,
                table@.len() == i,
                forall|j: int| 0 <= j < i ==> table@[j] == 0,
            decreases 16 - i,
        {
            table.push(0);
            i = i + 1;
        }
        Gdt { table, next_free: 1 }
    }

    /// Place one descriptor word at the next free index.
    fn push(&mut self, value: u64) -> (index: usize)
        requires
            old(self).wf(),
            old(self).next_free < 16,
        ensures
            final(self).wf(),
            index == old(self).next_free,
            final(self).next_free == old(self).next_free + 1,
            final(self).table@ == old(self).table@.update(index as int, value),
    {
        let index = self.next_free;
        self.table[index] = value;
        self.next_free = self.next_free + 1;
        index
    }

    /// Add a descriptor and return a ring-0 selector for it. Indices are
    /// handed out in increasing order starting at 1; the table must still
    /// have room (one slot for a user segment, two for a system segment).
    pub fn add_entry(&mut self, entry: Descriptor) -> (r: SegmentSelector)
        requires
            old(self).wf(),
            old(self).next_free + (match entry {
                Descriptor::UserSegment(_) => 1int,
                Descriptor::SystemSegment(_, _) => 2int,
            }) <= 16,
        ensures
            final(self).wf(),
            r.bits == old(self).next_free * 8,
            final(self).next_free == old(self).next_free + (match entry {
                Descriptor::UserSegment(_) => 1int,
                Descriptor::SystemSegment(_, _) => 2int,
            }),
            final(self).next_free > old(self).next_free,
            match entry {
                Descriptor::UserSegment(value) => final(self).table@ == old(self).table@.update(
                    old(self).next_free as int,
                    value,
                ),
                Descriptor::SystemSegment(low, high) => final(self).table@ == old(
                    self,
                ).table@.update(old(self).next_free as int, low).update(
                    old(self).next_free as int + 1,
                    high,
                ),
            },
    {
        let index = match entry {
            Descriptor::UserSegment(value) => self.push(value),
            Descriptor::SystemSegment(value_low, value_high) => {
                let index = self.push(value_low);
                self.push(value_high);
                index
            },
        };
        SegmentSelector::new(index as u16, 0)
    }
}

/// Descriptor indices grow strictly: two entries added one after the other
/// name distinct, increasing slots, never slot 0.
pub proof fn lemma_gdt_indices_increase(g0: Gdt, g1: Gdt, g2: Gdt, s1: SegmentSelector, s2: SegmentSelector)
    requires
        g0.wf(),
        g1.next_free > g0.next_free,
        s1.bits == g0.next_free * 8,
        g2.next_free > g1.next_free,
        s2.bits == g1.next_free * 8,
    ensures
        8 <= s1.bits < s2.bits,
        s1.bits / 8 >= 1,
        s2.bits / 8 > s1.bits / 8,
{
}

} // verus!
