//! Physical memory: page frames and the frame-allocator interface.

use vstd::prelude::*;

pub mod area_frame_allocator;
pub mod stack_allocator;

use crate::paging::Page;

verus! {

/// Size of a page frame and of a virtual page, in bytes.
pub const PAGE_SIZE: u64 = 4096;

/// Physical frame numbers fit in the 40 address bits of a page-table entry
/// (bits 12..52 of the entry hold the frame's physical address).
pub const MAX_FRAME: u64 = 0x100_0000_0000;

/// Identifies a 4 KiB physical page frame by its number; the frame covers
/// physical addresses `[number * 4096, (number + 1) * 4096)`.
///
/// Deliberately neither `Clone` nor `Copy`: duplicating a `Frame` means
/// referring to the same physical memory again, not allocating more, so
/// duplication is explicit.
#[derive(Debug, PartialEq, Eq, Structural)]
pub struct Frame {
    pub number: u64,
}

impl Frame {
    /// The frame containing the given physical address.
    pub fn containing_address(address: u64) -> (r: Frame)
        ensures
            r.number == address / PAGE_SIZE,
    {
        Frame { number: address / PAGE_SIZE }
    }

    /// Physical address of the first byte of this frame.
    pub fn start_address(&self) -> (r: u64)
        requires
            self.number < MAX_FRAME,
        ensures
            r == self.number * PAGE_SIZE,
    {
        self.number * PAGE_SIZE
    }

    /// The frame's number.
    pub fn number(&self) -> (r: u64)
        ensures
            r == self.number,
    {
        self.number
    }

    /// All frames from `start` to `end`, both inclusive.
    pub fn range_inclusive(start: Frame, end: Frame) -> (r: FrameIter)
        ensures
            r.start == start,
            r.end == end,
    {
        FrameIter { start, end }
    }

    /// An explicit duplicate: the same frame referred to once more.
    pub fn clone(&self) -> (r: Frame)
        ensures
            r == *self,
    {
        Frame { number: self.number }
    }
}

/// A frame is the one containing its own start address.
pub proof fn lemma_frame_start_roundtrip(f: Frame)
    requires
        f.number < MAX_FRAME,
    ensures
        (f.number * PAGE_SIZE) / (PAGE_SIZE as int) == f.number,
{
    assert((f.number * PAGE_SIZE) / (PAGE_SIZE as int) == f.number) by (nonlinear_arith)
        requires f.number < MAX_FRAME;
}

/// Iterator over an inclusive range of frames.
pub struct FrameIter {
    pub start: Frame,
    pub end: Frame,
}

impl FrameIter {
    /// The next frame of the range, if any is left.
    pub fn next(&mut self) -> (r: Option<Frame>)
        requires
            old(self).start.number <= MAX_FRAME,
            old(self).end.number < MAX_FRAME,
        ensures
            final(self).end == old(self).end,
            if old(self).start.number <= old(self).end.number {
                &&& r matches Some(f) && f.number == old(self).start.number
                &&& final(self).start.number == old(self).start.number + 1
            } else {
                &&& r is None
                &&& final(self).start == old(self).start
            },
    {
        if self.start.number <= self.end.number {
            let frame = self.start.clone();
            self.start.number = self.start.number + 1;
            Some(frame)
        } else {
            None
        }
    }
}

/// Allocates and deallocates physical page frames.
///
/// `avail` is the set of frame numbers the allocator may still hand out.
/// Allocation removes exactly the returned frame from that set, so a frame is
/// never returned twice; when allocation fails the set was already empty.
pub trait FrameAllocator {
    /// The allocator's internal consistency.
    spec fn wf(&self) -> bool;

    /// Frame numbers this allocator may still return.
    spec fn avail(&self) -> Set<u64>;

    /// Whether the allocator accepts this frame back.
    spec fn dealloc_ok(&self, frame: &Frame) -> bool;

    /// Allocate a frame; the frame is taken out of `avail` for good.
    fn allocate_frame(&mut self) -> (r: Option<Frame>)
        requires
            old(self).wf(),
        ensures
            final(self).wf(),
            match r {
                Some(f) => {
                    &&& old(self).avail().contains(f.number)
                    &&& f.number < MAX_FRAME
                    &&& final(self).avail() == old(self).avail().remove(f.number)
                },
                None => {
                    &&& final(self).avail() == old(self).avail()
                    &&& old(self).avail().is_empty()
                },
            },
    ;

    /// Give a frame back; it becomes available again.
    fn deallocate_frame(&mut self, frame: Frame)
        requires
            old(self).wf(),
            old(self).dealloc_ok(&frame),
        ensures
            final(self).wf(),
            final(self).avail() == old(self).avail().insert(frame.number),
    ;
}

/// Memory allocation and mapping in one place: the live page tables, the
/// physical frame allocator, and the kernel-stack allocator.
pub struct MemoryController {
    pub active_table: crate::paging::ActivePageTable,
    pub frame_allocator: crate::memory::area_frame_allocator::AreaFrameAllocator,
    pub stack_allocator: crate::memory::stack_allocator::StackAllocator,
}

impl MemoryController {
    /// The controller's pieces fit together: tables well-formed, stack range
    /// mappable, allocator frames fresh.
    pub open spec fn wf(&self) -> bool {
        &&& self.active_table.mapper.wf()
        &&& self.frame_allocator.wf()
        &&& crate::memory::stack_allocator::range_ok(self.stack_allocator.range)
        &&& self.active_table.mapper.tables_fresh_for(self.frame_allocator.avail())
        &&& forall|k: u64|
            self.stack_allocator.range.start.number <= k <= self.stack_allocator.range.end.number
                ==> #[trigger] self.active_table.mapper.can_map(
                self.active_table.mapper.p4_frame,
                Page { number: k },
            )
    }

    /// Allocate a guard-protected kernel stack of the given page count. The
    /// controller stays consistent, so stacks can be taken one after
    /// another while frames last.
    pub fn alloc_stack(&mut self, size_in_pages: usize) -> (r: Option<crate::memory::stack_allocator::Stack>)
        requires
            old(self).wf(),
            at_least(old(self).frame_allocator.avail(), 4 * size_in_pages),
        ensures
            final(self).wf(),
            final(self).active_table.mapper.p4_frame == old(self).active_table.mapper.p4_frame,
            forall|n: int| #[trigger]
                at_least(old(self).frame_allocator.avail(), n) ==> at_least(
                    final(self).frame_allocator.avail(),
                    n - 4 * size_in_pages,
                ),
            (r is Some) == (size_in_pages >= 1 && old(self).stack_allocator.range.start.number
                + size_in_pages <= old(self).stack_allocator.range.end.number),
            r matches Some(stack) ==> crate::memory::stack_allocator::alloc_stack_post(
                old(self).stack_allocator,
                final(self).stack_allocator,
                stack,
                size_in_pages as int,
            ),
    {
        let ghost pre = *self;
        let r = self.stack_allocator.alloc_stack(
            &mut self.active_table,
            &mut self.frame_allocator,
            size_in_pages,
        );
        proof {
            let root = pre.active_table.mapper.p4_frame;
            assert(crate::memory::stack_allocator::range_ok(self.stack_allocator.range)) by {
                if r is Some {
                    assert forall|k: u64|
                        self.stack_allocator.range.start.number <= k
                            <= self.stack_allocator.range.end.number implies #[trigger] crate::paging::page_usable(
                        k,
                    ) by {
                        assert(pre.stack_allocator.range.start.number <= k
                            <= pre.stack_allocator.range.end.number);
                    }
                }
            }
            assert forall|k: u64|
                self.stack_allocator.range.start.number <= k
                    <= self.stack_allocator.range.end.number implies #[trigger] self.active_table.mapper.can_map(
                root,
                Page { number: k },
            ) by {
                assert(pre.stack_allocator.range.start.number <= k
                    <= pre.stack_allocator.range.end.number);
                assert(pre.active_table.mapper.can_map(root, Page { number: k }));
                if r is Some {
                    assert(crate::paging::page_usable(k));
                    assert(!(pre.stack_allocator.range.start.number < k
                        <= pre.stack_allocator.range.start.number + size_in_pages));
                    assert(pre.active_table.mapper.has_table(root)
                        && pre.active_table.mapper.level_of(root) == 4);
                    let probe = self.active_table.mapper.spec_translate_page(
                        root,
                        Page { number: k },
                    );
                }
            }
        }
        r
    }
}

/// There are at least `n` distinct elements in `s`.
pub open spec fn at_least(s: Set<u64>, n: int) -> bool
    decreases n,
{
    n <= 0 || exists|x: u64| s.contains(x) && at_least(s.remove(x), n - 1)
}

/// Removing any one element keeps at least `n - 1` elements available.
pub proof fn lemma_at_least_remove(s: Set<u64>, n: int, x: u64)
    requires
        at_least(s, n),
        s.contains(x),
    ensures
        at_least(s.remove(x), n - 1),
    decreases n,
{
    if n <= 1 {
        assert(at_least(s.remove(x), n - 1));
    } else {
        let y = choose|y: u64| s.contains(y) && at_least(s.remove(y), n - 1);
        if y == x {
            assert(at_least(s.remove(x), n - 1));
        } else {
            lemma_at_least_remove(s.remove(y), n - 1, x);
            assert(s.remove(y).remove(x) == s.remove(x).remove(y));
            assert(s.remove(x).contains(y));
            assert(at_least(s.remove(x), n - 1));
        }
    }
}

/// A smaller bound still holds.
pub proof fn lemma_at_least_weaken(s: Set<u64>, n: int, m: int)
    requires
        at_least(s, n),
        m <= n,
    ensures
        at_least(s, m),
    decreases n,
{
    if m <= 0 {
    } else {
        let x = choose|x: u64| s.contains(x) && at_least(s.remove(x), n - 1);
        lemma_at_least_weaken(s.remove(x), n - 1, m - 1);
    }
}

} // verus!
