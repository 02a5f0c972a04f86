//! A bump allocator over the boot loader's memory areas that skips the
//! kernel image and the boot information structure and never reuses a frame.

use vstd::prelude::*;

use crate::boot::MemoryArea;
use crate::memory::{Frame, FrameAllocator, MAX_FRAME};

verus! {

/// Cursor values stay below this bound: one past the largest frame number a
/// reserved-range skip can produce.
pub const CURSOR_BOUND: u64 = 0x10_0000_0000_0002;

/// The area lies within the machine's physical address space (52 bits) and
/// is not empty.
pub open spec fn area_ok(a: MemoryArea) -> bool {
    a.length > 0 && a.base_addr + a.length <= 0x10_0000_0000_0000
}

/// First frame overlapping the area.
pub open spec fn area_first(a: MemoryArea) -> u64 {
    a.base_addr / 4096
}

/// Last frame overlapping the area.
pub open spec fn area_last(a: MemoryArea) -> u64 {
    ((a.base_addr + a.length - 1) as u64) / 4096
}

/// The frame overlaps the area.
pub open spec fn in_area(a: MemoryArea, f: u64) -> bool {
    area_first(a) <= f <= area_last(a)
}

/// The frame overlaps one of the areas.
pub open spec fn in_areas(areas: Seq<MemoryArea>, f: u64) -> bool {
    exists|i: int| 0 <= i < areas.len() && in_area(#[trigger] areas[i], f)
}

/// Allocates frames in increasing order from the memory areas, skipping the
/// two reserved ranges; frames are never handed out twice and never
/// reclaimed.
pub struct AreaFrameAllocator {
    pub next_free_frame: Frame,
    pub current_area: Option<MemoryArea>,
    pub areas: Vec<MemoryArea>,
    pub kernel_start: Frame,
    pub kernel_end: Frame,
    pub multiboot_start: Frame,
    pub multiboot_end: Frame,
}

impl AreaFrameAllocator {
    /// The frame lies in the kernel image or in the boot information.
    pub open spec fn reserved(&self, f: u64) -> bool {
        (self.kernel_start.number <= f && f <= self.kernel_end.number) || (
        self.multiboot_start.number <= f && f <= self.multiboot_end.number)
    }

    /// Which skipping state the allocation loop is in: 0 while the cursor is
    /// inside the current area, 1 when the area is exhausted and the next
    /// one must be chosen.
    pub open spec fn alloc_phase(&self) -> int {
        match self.current_area {
            Some(a) => if self.next_free_frame.number <= area_last(a) {
                0
            } else {
                1
            },
            None => 0,
        }
    }

    /// Fields that allocation never changes.
    pub open spec fn fixed(&self) -> (Seq<MemoryArea>, u64, u64, u64, u64) {
        (
            self.areas@,
            self.kernel_start.number,
            self.kernel_end.number,
            self.multiboot_start.number,
            self.multiboot_end.number,
        )
    }

    /// Construct the allocator over the boot loader's memory map, reserving
    /// the kernel image and the boot information structure, both given by
    /// their first and last physical byte.
    pub fn new(
        kernel_start: u64,
        kernel_end: u64,
        multiboot_start: u64,
        multiboot_end: u64,
        memory_areas: Vec<MemoryArea>,
    ) -> (r: AreaFrameAllocator)
        requires
            forall|i: int| 0 <= i < memory_areas@.len() ==> area_ok(#[trigger] memory_areas@[i]),
        ensures
            r.wf(),
            r.areas@ == memory_areas@,
            r.kernel_start.number == kernel_start / 4096,
            r.kernel_end.number == kernel_end / 4096,
            r.multiboot_start.number == multiboot_start / 4096,
            r.multiboot_end.number == multiboot_end / 4096,
            forall|f: u64| #[trigger]
                r.avail().contains(f) <==> (in_areas(memory_areas@, f) && !r.reserved(f)),
    {
        let mut allocator = AreaFrameAllocator {
            next_free_frame: Frame::containing_address(0),
            current_area: None,
            areas: memory_areas,
            kernel_start: Frame::containing_address(kernel_start),
            kernel_end: Frame::containing_address(kernel_end),
            multiboot_start: Frame::containing_address(multiboot_start),
            multiboot_end: Frame::containing_address(multiboot_end),
        };
        proof {
            assert(kernel_end / 4096 < 0x10_0000_0000_0000 && multiboot_end / 4096
                < 0x10_0000_0000_0000 && 0u64 / 4096 < CURSOR_BOUND) by (bit_vector);
        }
        allocator.choose_next_area();
        proof {
            assert forall|f: u64| #[trigger]
                allocator.avail().contains(f) <==> (in_areas(allocator.areas@, f)
                    && !allocator.reserved(f)) by {}
        }
        allocator
    }

    /// Select the memory area with the smallest base address that still has
    /// a frame at or after the cursor, advancing the cursor to the area's
    /// first frame where the area starts later. Exactly the frames outside
    /// every area are skipped, so availability is unchanged.
    fn choose_next_area(&mut self)
        requires
            forall|i: int|
                0 <= i < old(self).areas@.len() ==> area_ok(#[trigger] old(self).areas@[i]),
            old(self).next_free_frame.number < CURSOR_BOUND,
            old(self).kernel_end.number < 0x10_0000_0000_0000,
            old(self).multiboot_end.number < 0x10_0000_0000_0000,
        ensures
            final(self).fixed() == old(self).fixed(),
            final(self).wf(),
            final(self).avail() == old(self).avail(),
            final(self).next_free_frame.number >= old(self).next_free_frame.number,
            match final(self).current_area {
                Some(a) => {
                    &&& final(self).next_free_frame.number <= area_last(a)
                    &&& exists|i: int|
                        0 <= i < old(self).areas@.len() && #[trigger] old(self).areas@[i] == a
                    &&& area_last(a) >= old(self).next_free_frame.number
                    &&& forall|i: int|
                        0 <= i < old(self).areas@.len() && area_last(
                            #[trigger] old(self).areas@[i],
                        ) >= old(self).next_free_frame.number ==> a.base_addr <= old(
                            self,
                        ).areas@[i].base_addr
                    &&& final(self).next_free_frame.number == if old(
                        self,
                    ).next_free_frame.number < area_first(a) {
                        area_first(a)
                    } else {
                        old(self).next_free_frame.number
                    }
                },
                None => {
                    &&& forall|i: int|
                        0 <= i < old(self).areas@.len() ==> area_last(#[trigger] old(self).areas@[i])
                            < old(self).next_free_frame.number
                    &&& final(self).next_free_frame == old(self).next_free_frame
                },
            },
    {
        let cursor = self.next_free_frame.number;
        let n = self.areas.len();
        let mut best: Option<MemoryArea> = None;
        let mut i: usize = 0;
        while i < n
            invariant
                i <= n,
                n == self.areas@.len(),
                forall|k: int| 0 <= k < n ==> area_ok(#[trigger] self.areas@[k]),
                match best {
                    Some(b) => {
                        &&& exists|k: int|
                            0 <= k < i && #[trigger] self.areas@[k] == b && area_last(b) >= cursor
                        &&& forall|k: int|
                            0 <= k < i && area_last(#[trigger] self.areas@[k]) >= cursor
                                ==> b.base_addr <= self.areas@[k].base_addr
                    },
                    None => forall|k: int|
                        0 <= k < i ==> area_last(#[trigger] self.areas@[k]) < cursor,
                },
            decreases n - i,
        {
            let area = self.areas[i];
            let last_address = area.base_addr + (area.length - 1);
            let last_frame = last_address / 4096;
            if last_frame >= cursor {
                best = match best {
                    Some(b) => {
                        if area.base_addr < b.base_addr {
                            Some(area)
                        } else {
                            Some(b)
                        }
                    },
                    None => Some(area),
                };
            }
            i = i + 1;
        }
        let ghost pre = *self;
        self.current_area = best;
        match &self.current_area {
            Some(area) => {
                let start_frame = area.base_addr / 4096;
                if self.next_free_frame.number < start_frame {
                    self.next_free_frame = Frame { number: start_frame };
                }
                proof {
                    let a = self.current_area->Some_0;
                    assert(area_last(a) < 0x100_0000_0000) by {
                        lemma_area_frames_bounded(a);
                    }
                    assert forall|f: u64| #[trigger]
                        self.avail().contains(f) <==> pre.avail().contains(f) by {
                        if pre.avail().contains(f) && !self.avail().contains(f) {
                            // f would have been skipped: it lies in some area
                            // whose base is at least the chosen one's
                            let k = choose|k: int|
                                0 <= k < pre.areas@.len() && in_area(#[trigger] pre.areas@[k], f);
                            let b = pre.areas@[k];
                            assert(area_last(b) >= f >= cursor);
                            assert(a.base_addr <= b.base_addr);
                            lemma_div_ordered(a.base_addr, b.base_addr);
                            assert(area_first(a) <= area_first(b) <= f);
                            assert(false);
                        }
                    }
                    assert(self.avail() =~= pre.avail());
                }
            },
            None => {
                proof {
                    assert(self.avail() =~= pre.avail());
                }
            },
        }
    }
}

/// Frames of a well-formed area fit the 40 address bits of an entry.
pub proof fn lemma_area_frames_bounded(a: MemoryArea)
    requires
        area_ok(a),
    ensures
        area_last(a) < MAX_FRAME,
        area_first(a) <= area_last(a),
{
    let base = a.base_addr;
    let length = a.length;
    assert(((base + length - 1) as u64) / 4096 < 0x100_0000_0000
        && base / 4096 <= ((base + length - 1) as u64) / 4096) by (bit_vector)
        requires
            length > 0,
            base + length <= 0x10_0000_0000_0000,
    ;
}

/// Division by the page size preserves order.
pub proof fn lemma_div_ordered(x: u64, y: u64)
    requires
        x <= y,
    ensures
        x / 4096 <= y / 4096,
{
    assert(x <= y ==> x / 4096 <= y / 4096) by (bit_vector);
}

/// The law of the bump allocator: two successive successful allocations
/// return distinct frames in strictly increasing order, never a reserved
/// frame, and only frames of the memory map. The premises are exactly what
/// `allocate_frame`'s contract gives a caller for each of the two calls.
pub proof fn lemma_allocation_sequence(
    a0: AreaFrameAllocator,
    a1: AreaFrameAllocator,
    f1: u64,
    f2: u64,
)
    requires
        a0.avail().contains(f1),
        forall|x: u64| #[trigger] a0.avail().contains(x) ==> x >= f1,
        a1.avail() == a0.avail().remove(f1),
        a1.avail().contains(f2),
    ensures
        f2 > f1,
        in_areas(a0.areas@, f1) && !a0.reserved(f1),
        in_areas(a1.areas@, f2) && !a1.reserved(f2),
{
    assert(a0.avail().contains(f2) && f2 != f1);
}

impl FrameAllocator for AreaFrameAllocator {
    /// All areas are well-formed; the current area, when there is one, is
    /// among them and the cursor has reached it; when there is none, every
    /// area lies entirely before the cursor.
    open spec fn wf(&self) -> bool {
        &&& forall|i: int| 0 <= i < self.areas@.len() ==> area_ok(#[trigger] self.areas@[i])
        &&& self.next_free_frame.number < CURSOR_BOUND
        &&& self.kernel_end.number < 0x10_0000_0000_0000
        &&& self.multiboot_end.number < 0x10_0000_0000_0000
        &&& match self.current_area {
            Some(a) => {
                &&& exists|i: int| 0 <= i < self.areas@.len() && #[trigger] self.areas@[i] == a
                &&& self.next_free_frame.number >= area_first(a)
            },
            None => forall|i: int|
                0 <= i < self.areas@.len() ==> area_last(#[trigger] self.areas@[i])
                    < self.next_free_frame.number,
        }
    }

    /// The frames still to be handed out: at or past the cursor, inside some
    /// memory area, outside the reserved ranges.
    open spec fn avail(&self) -> Set<u64> {
        Set::new(
            |f: u64|
                f >= self.next_free_frame.number && in_areas(self.areas@, f) && !self.reserved(f),
        )
    }

    /// Frames are never taken back (the bump allocator cannot reuse them).
    open spec fn dealloc_ok(&self, frame: &Frame) -> bool {
        false
    }

    fn allocate_frame(&mut self) -> (r: Option<Frame>)
        ensures
            final(self).fixed() == old(self).fixed(),
            r matches Some(f) ==> forall|x: u64| #[trigger]
                old(self).avail().contains(x) ==> x >= f.number,
    {
        loop
            invariant
                self.wf(),
                self.fixed() == old(self).fixed(),
                self.avail() == old(self).avail(),
                self.next_free_frame.number >= old(self).next_free_frame.number,
            decreases CURSOR_BOUND - self.next_free_frame.number, self.alloc_phase(),
        {
            match &self.current_area {
                None => {
                    proof {
                        assert forall|f: u64| !(#[trigger] self.avail().contains(f)) by {
                            if self.avail().contains(f) {
                                let i = choose|i: int|
                                    0 <= i < self.areas@.len() && in_area(
                                        #[trigger] self.areas@[i],
                                        f,
                                    );
                                assert(area_last(self.areas@[i]) < self.next_free_frame.number);
                            }
                        }
                        assert(self.avail() =~= Set::<u64>::empty());
                        assert(self.avail().is_empty());
                    }
                    return None;
                },
                Some(area) => {
                    let area = *area;
                    let frame = Frame { number: self.next_free_frame.number };
                    let last_address = area.base_addr + (area.length - 1);
                    let current_area_last_frame = last_address / 4096;
                    proof {
                        lemma_area_frames_bounded(area);
                    }
                    if frame.number > current_area_last_frame {
                        // all frames of the current area are used
                        self.choose_next_area();
                    } else if frame.number >= self.kernel_start.number && frame.number
                        <= self.kernel_end.number {
                        // the frame is part of the kernel image
                        let ghost pre = *self;
                        self.next_free_frame = Frame { number: self.kernel_end.number + 1 };
                        proof {
                            assert forall|f: u64| #[trigger]
                                self.avail().contains(f) <==> pre.avail().contains(f) by {}
                            assert(self.avail() =~= pre.avail());
                        }
                    } else if frame.number >= self.multiboot_start.number && frame.number
                        <= self.multiboot_end.number {
                        // the frame holds the boot information structure
                        let ghost pre = *self;
                        self.next_free_frame = Frame { number: self.multiboot_end.number + 1 };
                        proof {
                            assert forall|f: u64| #[trigger]
                                self.avail().contains(f) <==> pre.avail().contains(f) by {}
                            assert(self.avail() =~= pre.avail());
                        }
                    } else {
                        // the frame is free: move past it and hand it out
                        let ghost pre = *self;
                        self.next_free_frame = Frame { number: frame.number + 1 };
                        proof {
                            assert(in_areas(pre.areas@, frame.number)) by {
                                let i = choose|i: int|
                                    0 <= i < pre.areas@.len() && #[trigger] pre.areas@[i] == area;
                                assert(in_area(pre.areas@[i], frame.number));
                            }
                            assert(pre.avail().contains(frame.number));
                            assert forall|f: u64| #[trigger]
                                self.avail().contains(f) <==> pre.avail().remove(
                                    frame.number,
                                ).contains(f) by {}
                            assert(self.avail() =~= pre.avail().remove(frame.number));
                            assert forall|x: u64| #[trigger]
                                old(self).avail().contains(x) implies x >= frame.number by {
                                assert(pre.avail().contains(x));
                            }
                        }
                        return Some(frame);
                    }
                },
            }
        }
    }

    fn deallocate_frame(&mut self, _frame: Frame) {
        proof {
            assert(false);
        }
    }
}

} // verus!
