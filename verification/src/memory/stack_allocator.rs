//! Kernel stacks carved out of a reserved virtual range, each protected by
//! one unmapped guard page below it.

use vstd::prelude::*;

use crate::memory::{at_least, lemma_at_least_weaken, Frame, FrameAllocator, PAGE_SIZE};
use crate::paging::entry::{ADDRESS_MASK, WRITABLE};
use crate::paging::{
    page_canonical, page_usable, spec_p4_index, ActivePageTable, Page, PageIter, MAX_PAGE,
};

verus! {

/// A downward-growing stack: the memory `[bottom, top)`, entered at `top`.
#[derive(Debug, PartialEq, Eq, Structural)]
pub struct Stack {
    pub top: u64,
    pub bottom: u64,
}

impl Stack {
    /// A stack must have room: its top lies above its bottom.
    pub fn new(top: u64, bottom: u64) -> (r: Stack)
        requires
            top > bottom,
        ensures
            r.top == top,
            r.bottom == bottom,
    {
        Stack { top, bottom }
    }

    /// Highest address of the stack (exclusive); the initial stack pointer.
    pub fn top(&self) -> (r: u64)
        ensures
            r == self.top,
    {
        self.top
    }

    /// Lowest address belonging to the stack.
    pub fn bottom(&self) -> (r: u64)
        ensures
            r == self.bottom,
    {
        self.bottom
    }
}

/// Every page of the iterator's range may be mapped.
pub open spec fn range_ok(range: PageIter) -> bool {
    &&& range.start.number <= MAX_PAGE
    &&& range.end.number + 1 < MAX_PAGE
    &&& forall|k: u64| range.start.number <= k <= range.end.number ==> #[trigger] page_usable(k)
}

/// What a successful stack allocation did: one guard page consumed at the
/// old cursor, `size` stack pages after it, and the cursor moved past them.
pub open spec fn alloc_stack_post(
    pre: StackAllocator,
    post: StackAllocator,
    stack: Stack,
    size: int,
) -> bool {
    &&& size >= 1
    &&& pre.range.start.number + size <= pre.range.end.number
    &&& stack.bottom == (pre.range.start.number + 1) * 4096
    &&& stack.top == (pre.range.start.number + 1 + size) * 4096
    &&& post.range.start.number == pre.range.start.number + size + 1
    &&& post.range.end == pre.range.end
}

/// Hands out guard-protected stacks from a reserved range of virtual pages.
pub struct StackAllocator {
    pub range: PageIter,
}

impl StackAllocator {
    /// An allocator over the given range of pages.
    pub fn new(page_range: PageIter) -> (r: StackAllocator)
        ensures
            r.range == page_range,
    {
        StackAllocator { range: page_range }
    }

    /// Allocate a stack of `size_in_pages` pages: skip one page as an
    /// unmapped guard, then map the next `size_in_pages` pages writable.
    /// Fails without consuming anything when the size is zero or the range
    /// has too few pages left.
    pub fn alloc_stack<FA: FrameAllocator>(
        &mut self,
        active_table: &mut ActivePageTable,
        frame_allocator: &mut FA,
        size_in_pages: usize,
    ) -> (r: Option<Stack>)
        requires
            old(active_table).mapper.wf(),
            old(frame_allocator).wf(),
            range_ok(old(self).range),
            forall|k: u64|
                old(self).range.start.number <= k <= old(self).range.end.number
                    ==> old(active_table).mapper.can_map(
                    old(active_table).mapper.p4_frame,
                    Page { number: k },
                ),
            old(active_table).mapper.tables_fresh_for(old(frame_allocator).avail()),
            at_least(old(frame_allocator).avail(), 4 * size_in_pages),
        ensures
            final(active_table).mapper.wf(),
            final(frame_allocator).wf(),
            final(active_table).mapper.p4_frame == old(active_table).mapper.p4_frame,
            final(active_table).mapper.tables_fresh_for(final(frame_allocator).avail()),
            (r is Some) == (size_in_pages >= 1 && old(self).range.start.number + size_in_pages
                <= old(self).range.end.number),
            match r {
                Some(stack) => {
                    &&& alloc_stack_post(*old(self), *final(self), stack, size_in_pages as int)
                    &&& forall|k: u64|
                        old(self).range.start.number < k <= old(self).range.start.number
                            + size_in_pages ==> #[trigger] final(active_table).mapper.spec_translate_page(
                            old(active_table).mapper.p4_frame,
                            Page { number: k },
                        ) is Some
                },
                None => {
                    &&& *final(self) == *old(self)
                    &&& *final(active_table) == *old(active_table)
                    &&& *final(frame_allocator) == *old(frame_allocator)
                },
            },
            forall|rt: u64, q: Page|
                old(active_table).mapper.has_table(rt) && old(active_table).mapper.level_of(rt)
                    == 4 && page_canonical(q.number) && spec_p4_index(q.number) != 511 && !(rt
                    == old(active_table).mapper.p4_frame && old(self).range.start.number
                    < q.number <= old(self).range.start.number + size_in_pages) ==> {
                    &&& #[trigger] final(active_table).mapper.spec_translate_page(rt, q) == old(
                        active_table,
                    ).mapper.spec_translate_page(rt, q)
                    &&& (old(active_table).mapper.can_map(rt, q)
                        ==> final(active_table).mapper.can_map(rt, q))
                },
            forall|g: u64| #[trigger]
                old(active_table).mapper.has_table(g) ==> final(active_table).mapper.has_table(g)
                    && final(active_table).mapper.level_of(g) == old(
                    active_table,
                ).mapper.level_of(g),
            forall|g: u64| #[trigger]
                final(active_table).mapper.has_table(g) ==> old(active_table).mapper.has_table(g)
                    || old(frame_allocator).avail().contains(g),
            forall|x: u64| #[trigger]
                final(frame_allocator).avail().contains(x) ==> old(
                    frame_allocator,
                ).avail().contains(x),
            forall|n: int| #[trigger]
                at_least(old(frame_allocator).avail(), n) ==> at_least(
                    final(frame_allocator).avail(),
                    n - 4 * size_in_pages,
                ),
    {
        if size_in_pages == 0 {
            proof {
                assert forall|n: int| #[trigger]
                    at_least(old(frame_allocator).avail(), n) implies at_least(
                    old(frame_allocator).avail(),
                    n - 4 * size_in_pages,
                ) by {
                    lemma_at_least_weaken(
                        old(frame_allocator).avail(),
                        n,
                        n - 4 * size_in_pages,
                    );
                }
            }
            return None;
        }
        let mut range = self.range;

        let guard_page = range.next();
        let stack_start = range.next();
        let stack_end: Option<Page> = if size_in_pages == 1 {
            stack_start
        } else {
            range.nth(size_in_pages - 2)
        };

        proof {
            let s = old(self).range.start.number;
            let e0 = old(self).range.end.number;
            if guard_page is Some {
                assert(guard_page->Some_0.number == s);
            }
        }
        match (guard_page, stack_start, stack_end) {
            (Some(_), Some(start), Some(end)) => {
                self.range = range;
                proof {
                    let s = old(self).range.start.number;
                    let e0 = old(self).range.end.number;
                    assert(start.number == s + 1);
                    assert(end.number == s + size_in_pages);
                    assert(range.start.number == s + size_in_pages + 1);
                    assert(range.end.number == e0);
                }

                proof {
                    assert forall|j: u64|
                        start.number <= j <= end.number implies #[trigger] page_usable(j) by {
                        assert(old(self).range.start.number <= j <= old(self).range.end.number);
                    }
                }

                let ghost s0 = active_table.mapper;
                let ghost a0 = *frame_allocator;
                let ghost root = s0.p4_frame;
                let ghost first = start.number;
                let ghost last = end.number;
                let mut k: u64 = start.number;
                while k <= end.number
                    invariant
                        active_table.mapper.wf(),
                        frame_allocator.wf(),
                        active_table.mapper.p4_frame == root,
                        root == s0.p4_frame,
                        first == start.number,
                        last == end.number,
                        first <= k <= last + 1,
                        last < MAX_PAGE,
                        forall|j: u64| first <= j <= last ==> #[trigger] page_usable(j),
                        active_table.mapper.tables_fresh_for(frame_allocator.avail()),
                        forall|g: u64| #[trigger]
                            s0.has_table(g) ==> active_table.mapper.has_table(g)
                                && active_table.mapper.level_of(g) == s0.level_of(g),
                        forall|g: u64| #[trigger]
                            active_table.mapper.has_table(g) ==> s0.has_table(g)
                                || a0.avail().contains(g),
                        forall|x: u64| #[trigger]
                            frame_allocator.avail().contains(x) ==> a0.avail().contains(x),
                        forall|n: int| #[trigger]
                            at_least(a0.avail(), n) ==> at_least(
                                frame_allocator.avail(),
                                n - 4 * (k - first),
                            ),
                        at_least(frame_allocator.avail(), 4 * (last + 1 - k)),
                        forall|j: u64|
                            first <= j < k ==> #[trigger] active_table.mapper.spec_translate_page(
                                root,
                                Page { number: j },
                            ) is Some,
                        forall|j: u64|
                            k <= j <= last ==> #[trigger] active_table.mapper.can_map(
                                root,
                                Page { number: j },
                            ),
                        forall|rt: u64, q: Page|
                            s0.has_table(rt) && s0.level_of(rt) == 4 && page_canonical(q.number)
                                && spec_p4_index(q.number) != 511 && !(rt == root && first
                                <= q.number < k) ==> {
                                &&& #[trigger] active_table.mapper.spec_translate_page(rt, q)
                                    == s0.spec_translate_page(rt, q)
                                &&& (s0.can_map(rt, q) ==> active_table.mapper.can_map(rt, q))
                            },
                    decreases last + 1 - k,
                {
                    let page = Page { number: k };
                    let ghost needed = active_table.mapper.tables_needed(root, page);
                    proof {
                        assert(page_usable(k));
                        assert(page_canonical(k) && spec_p4_index(k) != 511);
                        assert(active_table.mapper.can_map(root, Page { number: k }));
                        assert(needed <= 3);
                        crate::paging::lemma_writable_mask();
                        lemma_at_least_weaken(
                            frame_allocator.avail(),
                            4 * (last + 1 - k),
                            needed + 1,
                        );
                    }
                    let ghost sk = active_table.mapper;
                    let ghost ak = *frame_allocator;
                    active_table.mapper.map(page, WRITABLE, frame_allocator);
                    proof {
                        lemma_at_least_weaken(frame_allocator.avail(), 4 * (last + 1 - k) - needed
                            - 1, 4 * (last + 1 - (k + 1)));
                        assert forall|n: int| #[trigger]
                            at_least(a0.avail(), n) implies at_least(
                            frame_allocator.avail(),
                            n - 4 * ((k + 1) - first),
                        ) by {
                            assert(at_least(ak.avail(), n - 4 * (k - first)));
                            lemma_at_least_weaken(frame_allocator.avail(), n - 4 * (k - first)
                                - needed - 1, n - 4 * ((k + 1) - first));
                        }
                        assert forall|g: u64| #[trigger]
                            active_table.mapper.has_table(g) implies s0.has_table(g)
                            || a0.avail().contains(g) by {
                            if !sk.has_table(g) {
                                assert(ak.avail().contains(g));
                            }
                        }
                        assert forall|j: u64|
                            first <= j < k + 1 implies #[trigger] active_table.mapper.spec_translate_page(
                            root,
                            Page { number: j },
                        ) is Some by {
                            assert(page_usable(j));
                            if j < k {
                                assert(sk.spec_translate_page(root, Page { number: j }) is Some);
                                assert(Page { number: j } != page);
                            }
                        }
                        assert forall|j: u64|
                            k + 1 <= j <= last implies #[trigger] active_table.mapper.can_map(
                            root,
                            Page { number: j },
                        ) by {
                            assert(page_usable(j));
                            assert(sk.can_map(root, Page { number: j }));
                            assert(Page { number: j } != page);
                        }
                        assert forall|rt: u64, q: Page|
                            s0.has_table(rt) && s0.level_of(rt) == 4 && page_canonical(q.number)
                                && spec_p4_index(q.number) != 511 && !(rt == root && first
                                <= q.number < k + 1) implies {
                            &&& #[trigger] active_table.mapper.spec_translate_page(rt, q)
                                == s0.spec_translate_page(rt, q)
                            &&& (s0.can_map(rt, q) ==> active_table.mapper.can_map(rt, q))
                        } by {
                            assert(sk.has_table(rt) && sk.level_of(rt) == 4);
                            assert(!(rt == root && q == page));
                            assert(active_table.mapper.spec_translate_page(rt, q)
                                == sk.spec_translate_page(rt, q));
                        }
                    }
                    k = k + 1;
                }
                proof {
                    assert(k == last + 1 && last + 1 - first == size_in_pages);
                }
                let stack_top = end.start_address() + PAGE_SIZE;
                Some(Stack::new(stack_top, start.start_address()))
            },
            _ => {
                proof {
                    assert forall|n: int| #[trigger]
                        at_least(old(frame_allocator).avail(), n) implies at_least(
                        old(frame_allocator).avail(),
                        n - 4 * size_in_pages,
                    ) by {
                        lemma_at_least_weaken(
                            old(frame_allocator).avail(),
                            n,
                            n - 4 * size_in_pages,
                        );
                    }
                }
                None
            },
        }
    }
}

/// Two stacks allocated back to back leave exactly one untouched page
/// between the first stack's top and the second stack's bottom: the second
/// stack's guard page. The reported top is page-aligned and the sizes come
/// out exactly.
pub proof fn lemma_stack_guard_separation(
    a0: StackAllocator,
    a1: StackAllocator,
    a2: StackAllocator,
    stack1: Stack,
    stack2: Stack,
    size1: int,
    size2: int,
)
    requires
        alloc_stack_post(a0, a1, stack1, size1),
        alloc_stack_post(a1, a2, stack2, size2),
    ensures
        stack2.bottom == stack1.top + 4096,
        stack1.top % 4096 == 0,
        stack1.top - stack1.bottom == size1 * 4096,
        stack2.top - stack2.bottom == size2 * 4096,
{
    let s = a0.range.start.number as int;
    assert(stack1.top == (s + 1 + size1) * 4096);
    assert(a1.range.start.number == s + size1 + 1);
    assert(stack2.bottom == (s + size1 + 2) * 4096);
    assert((s + size1 + 2) * 4096 == (s + 1 + size1) * 4096 + 4096) by (nonlinear_arith);
    assert(((s + 1 + size1) * 4096) % 4096 == 0) by (nonlinear_arith);
    assert((s + 1 + size1) * 4096 - (s + 1) * 4096 == size1 * 4096) by (nonlinear_arith);
    assert((a1.range.start.number + 1 + size2) * 4096 - (a1.range.start.number + 1) * 4096 == size2
        * 4096) by (nonlinear_arith);
}

} // verus!
