//! A scratch virtual page backed by a three-frame pool, used to touch page
//! tables that are not part of the active address space yet.

use vstd::prelude::*;

use crate::memory::{at_least, lemma_at_least_remove, Frame, FrameAllocator, MAX_FRAME};
use crate::paging::entry::{entry_value, ADDRESS_MASK, PRESENT, WRITABLE};
use crate::paging::{page_canonical, spec_p4_index, ActivePageTable, Page};

verus! {

/// A pool of at most three frames: exactly what editing one page's walk can
/// need in intermediate tables. It breaks the loop between mapping a page
/// and allocating tables for the mapping without touching the main
/// allocator.
pub struct TinyAllocator(pub Vec<Option<Frame>>);

impl FrameAllocator for TinyAllocator {
    /// Three slots, each holding a distinct small frame or nothing.
    open spec fn wf(&self) -> bool {
        &&& self.0@.len() == 3
        &&& forall|i: int|
            0 <= i < 3 && (#[trigger] self.0@[i]) is Some ==> self.0@[i]->Some_0.number < MAX_FRAME
        &&& forall|i: int, j: int|
            0 <= i < j < 3 && (#[trigger] self.0@[i]) is Some && (#[trigger] self.0@[j]) is Some
                ==> self.0@[i]->Some_0.number != self.0@[j]->Some_0.number
    }

    /// The numbers of the frames currently held.
    open spec fn avail(&self) -> Set<u64> {
        Set::new(
            |n: u64|
                exists|i: int|
                    0 <= i < self.0@.len() && (#[trigger] self.0@[i]) is Some
                        && self.0@[i]->Some_0.number == n,
        )
    }

    /// A frame comes back only into a free slot, and only once.
    open spec fn dealloc_ok(&self, frame: &Frame) -> bool {
        &&& exists|i: int| 0 <= i < 3 && (#[trigger] self.0@[i]) is None
        &&& !self.avail().contains(frame.number)
        &&& frame.number < MAX_FRAME
    }

    fn allocate_frame(&mut self) -> (r: Option<Frame>) {
        let idx: usize = if self.0[0].is_some() {
            0
        } else if self.0[1].is_some() {
            1
        } else if self.0[2].is_some() {
            2
        } else {
            proof {
                assert forall|n: u64| !(#[trigger] self.avail().contains(n)) by {
                    if self.avail().contains(n) {
                        let i = choose|i: int|
                            0 <= i < self.0@.len() && (#[trigger] self.0@[i]) is Some
                                && self.0@[i]->Some_0.number == n;
                        assert(self.0@[i] is None);
                    }
                }
                assert(self.avail() =~= Set::<u64>::empty());
            }
            return None;
        };
        let ghost pre = *self;
        let slot = self.0.remove(idx);
        self.0.insert(idx, None);
        proof {
            assert(self.0@ =~= pre.0@.update(idx as int, None));
        }
        match slot {
            Some(f) => {
                proof {
                    let n = f.number;
                    assert(pre.0@[idx as int] is Some && pre.0@[idx as int]->Some_0.number == n);
                    assert(pre.avail().contains(n));
                    assert forall|m: u64| #[trigger]
                        self.avail().contains(m) implies pre.avail().remove(n).contains(m) by {
                        let i = choose|i: int|
                            0 <= i < self.0@.len() && (#[trigger] self.0@[i]) is Some
                                && self.0@[i]->Some_0.number == m;
                        assert(i != idx);
                        assert(pre.0@[i] is Some && pre.0@[i]->Some_0.number == m);
                        assert(m != n);
                    }
                    assert forall|m: u64| #[trigger]
                        pre.avail().remove(n).contains(m) implies self.avail().contains(m) by {
                        let i = choose|i: int|
                            0 <= i < pre.0@.len() && (#[trigger] pre.0@[i]) is Some
                                && pre.0@[i]->Some_0.number == m;
                        if i == idx {
                            assert(m == n);
                        }
                        assert(self.0@[i] is Some && self.0@[i]->Some_0.number == m);
                    }
                    assert(self.avail() =~= pre.avail().remove(n));
                }
                Some(f)
            },
            None => {
                proof {
                    assert(false);
                }
                vstd::pervasive::unreached()
            },
        }
    }

    fn deallocate_frame(&mut self, frame: Frame) {
        let idx: usize = if self.0[0].is_none() {
            0
        } else if self.0[1].is_none() {
            1
        } else if self.0[2].is_none() {
            2
        } else {
            proof {
                let i = choose|i: int| 0 <= i < 3 && (#[trigger] self.0@[i]) is None;
                assert(false);
            }
            vstd::pervasive::unreached()
        };
        let ghost pre = *self;
        let ghost n = frame.number;
        self.0.remove(idx);
        self.0.insert(idx, Some(frame));
        proof {
            assert(self.0@[idx as int] is Some && self.0@[idx as int]->Some_0.number == n);
            assert forall|m: u64| #[trigger]
                self.avail().contains(m) implies pre.avail().insert(n).contains(m) by {
                let i = choose|i: int|
                    0 <= i < self.0@.len() && (#[trigger] self.0@[i]) is Some
                        && self.0@[i]->Some_0.number == m;
                if i != idx {
                    assert(pre.0@[i] is Some && pre.0@[i]->Some_0.number == m);
                }
            }
            assert forall|m: u64| #[trigger]
                pre.avail().insert(n).contains(m) implies self.avail().contains(m) by {
                if m == n {
                    assert(self.0@[idx as int] is Some);
                } else {
                    let i = choose|i: int|
                        0 <= i < pre.0@.len() && (#[trigger] pre.0@[i]) is Some
                            && pre.0@[i]->Some_0.number == m;
                    assert(i != idx);
                    assert(self.0@[i] is Some && self.0@[i]->Some_0.number == m);
                }
            }
            assert(self.avail() =~= pre.avail().insert(n));
        }
    }
}

impl TinyAllocator {
    /// Fill the pool with three frames from the main allocator.
    pub fn new<A: FrameAllocator>(allocator: &mut A) -> (r: TinyAllocator)
        requires
            old(allocator).wf(),
            at_least(old(allocator).avail(), 3),
        ensures
            r.wf(),
            final(allocator).wf(),
            at_least(r.avail(), 3),
            forall|x: u64| #[trigger] r.avail().contains(x) ==> old(allocator).avail().contains(x),
            forall|x: u64| #[trigger]
                final(allocator).avail().contains(x) ==> old(allocator).avail().contains(x)
                    && !r.avail().contains(x),
            forall|n: int| #[trigger]
                at_least(old(allocator).avail(), n) ==> at_least(final(allocator).avail(), n - 3),
    {
        let ghost a0 = *allocator;
        let f1 = match allocator.allocate_frame() {
            Some(f) => f,
            None => {
                proof {
                    let x = choose|x: u64|
                        a0.avail().contains(x) && at_least(a0.avail().remove(x), 2);
                    assert(false);
                }
                vstd::pervasive::unreached()
            },
        };
        proof {
            lemma_at_least_remove(a0.avail(), 3, f1.number);
        }
        let ghost a1 = *allocator;
        let f2 = match allocator.allocate_frame() {
            Some(f) => f,
            None => {
                proof {
                    let x = choose|x: u64|
                        a1.avail().contains(x) && at_least(a1.avail().remove(x), 1);
                    assert(false);
                }
                vstd::pervasive::unreached()
            },
        };
        proof {
            lemma_at_least_remove(a1.avail(), 2, f2.number);
        }
        let ghost a2 = *allocator;
        let f3 = match allocator.allocate_frame() {
            Some(f) => f,
            None => {
                proof {
                    let x = choose|x: u64|
                        a2.avail().contains(x) && at_least(a2.avail().remove(x), 0);
                    assert(false);
                }
                vstd::pervasive::unreached()
            },
        };
        let ghost n1 = f1.number;
        let ghost n2 = f2.number;
        let ghost n3 = f3.number;
        let mut slots: Vec<Option<Frame>> = Vec::new();
        slots.push(Some(f1));
        slots.push(Some(f2));
        slots.push(Some(f3));
        let r = TinyAllocator(slots);
        proof {
            assert(n2 != n1 && n3 != n1 && n3 != n2);
            assert(r.0@[0] is Some && r.0@[0]->Some_0.number == n1);
            assert(r.0@[1] is Some && r.0@[1]->Some_0.number == n2);
            assert(r.0@[2] is Some && r.0@[2]->Some_0.number == n3);
            assert forall|m: u64| #[trigger]
                r.avail().contains(m) implies (m == n1 || m == n2 || m == n3) by {
                let i = choose|i: int|
                    0 <= i < r.0@.len() && (#[trigger] r.0@[i]) is Some
                        && r.0@[i]->Some_0.number == m;
            }
            assert(r.avail().contains(n1) && r.avail().contains(n2) && r.avail().contains(n3));
            assert(at_least(r.avail().remove(n1).remove(n2).remove(n3), 0));
            assert(r.avail().remove(n1).remove(n2).contains(n3));
            assert(at_least(r.avail().remove(n1).remove(n2), 1));
            assert(r.avail().remove(n1).contains(n2));
            assert(at_least(r.avail().remove(n1), 2));
            assert(at_least(r.avail(), 3));
            assert forall|n: int| #[trigger]
                at_least(a0.avail(), n) implies at_least(allocator.avail(), n - 3) by {
                lemma_at_least_remove(a0.avail(), n, n1);
                lemma_at_least_remove(a1.avail(), n - 1, n2);
                lemma_at_least_remove(a2.avail(), n - 2, n3);
            }
        }
        r
    }
}

/// A single page (conventionally outside any real mapping) that can be
/// mapped at will to look at one frame's contents, backed by its own tiny
/// frame pool for the walk's intermediate tables.
pub struct TemporaryPage {
    pub page: Page,
    pub allocator: TinyAllocator,
}

impl TemporaryPage {
    /// Set up the scratch page, pulling three frames from `allocator` into
    /// the pool.
    pub fn new<A: FrameAllocator>(page: Page, allocator: &mut A) -> (r: TemporaryPage)
        requires
            old(allocator).wf(),
            at_least(old(allocator).avail(), 3),
        ensures
            r.page == page,
            r.allocator.wf(),
            final(allocator).wf(),
            at_least(r.allocator.avail(), 3),
            forall|x: u64| #[trigger]
                r.allocator.avail().contains(x) ==> old(allocator).avail().contains(x),
            forall|x: u64| #[trigger]
                final(allocator).avail().contains(x) ==> old(allocator).avail().contains(x)
                    && !r.allocator.avail().contains(x),
            forall|n: int| #[trigger]
                at_least(old(allocator).avail(), n) ==> at_least(final(allocator).avail(), n - 3),
    {
        TemporaryPage { page, allocator: TinyAllocator::new(allocator) }
    }

    /// Map the scratch page to `frame` in the active address space and
    /// return the page's start address. The page must not be mapped yet.
    pub fn map(&mut self, frame: &Frame, active_table: &mut ActivePageTable) -> (va: u64)
        requires
            old(active_table).mapper.wf(),
            old(self).allocator.wf(),
            page_canonical(old(self).page.number),
            spec_p4_index(old(self).page.number) != 511,
            old(active_table).mapper.can_map(old(active_table).mapper.p4_frame, old(self).page),
            frame.number < MAX_FRAME,
            old(active_table).mapper.tables_fresh_for(old(self).allocator.avail()),
            at_least(
                old(self).allocator.avail(),
                old(active_table).mapper.tables_needed(
                    old(active_table).mapper.p4_frame,
                    old(self).page,
                ),
            ),
        ensures
            final(self).page == old(self).page,
            final(self).allocator.wf(),
            va == old(self).page.number * 4096,
            final(active_table).mapper.wf(),
            final(active_table).mapper.p4_frame == old(active_table).mapper.p4_frame,
            final(active_table).mapper.l1_of(
                old(active_table).mapper.p4_frame,
                old(self).page,
            ) is Some,
            final(active_table).mapper.leaf_of(old(active_table).mapper.p4_frame, old(self).page)
                == Some(entry_value(frame.number, WRITABLE | PRESENT)),
            final(active_table).mapper.spec_translate_page(
                old(active_table).mapper.p4_frame,
                old(self).page,
            ) == Some(frame.number),
            forall|g: u64| #[trigger]
                old(active_table).mapper.has_table(g) ==> final(active_table).mapper.has_table(g)
                    && final(active_table).mapper.level_of(g) == old(
                    active_table,
                ).mapper.level_of(g),
            forall|g: u64| #[trigger]
                final(active_table).mapper.has_table(g) ==> old(active_table).mapper.has_table(g)
                    || old(self).allocator.avail().contains(g),
            final(active_table).mapper.tables_fresh_for(final(self).allocator.avail()),
            forall|x: u64| #[trigger]
                final(self).allocator.avail().contains(x) ==> old(self).allocator.avail().contains(
                    x,
                ),
            forall|rt: u64, q: Page|
                old(active_table).mapper.has_table(rt) && old(active_table).mapper.level_of(rt)
                    == 4 && page_canonical(q.number) && spec_p4_index(q.number) != 511 && !(rt
                    == old(active_table).mapper.p4_frame && q == old(self).page) ==> {
                    &&& #[trigger] final(active_table).mapper.spec_translate_page(rt, q) == old(
                        active_table,
                    ).mapper.spec_translate_page(rt, q)
                    &&& (old(active_table).mapper.leaf_of(rt, q) is Some ==> final(active_table).mapper.leaf_of(rt, q) == old(active_table).mapper.leaf_of(rt, q))
                    &&& (old(active_table).mapper.l1_of(rt, q) is Some ==> final(active_table).mapper.l1_of(rt, q) == old(active_table).mapper.l1_of(rt, q))
                    &&& (old(active_table).mapper.can_map(rt, q) ==> final(active_table).mapper.can_map(rt, q))
                },
    {
        proof {
            crate::paging::lemma_writable_mask();
        }
        active_table.mapper.map_to(self.page, frame, WRITABLE, &mut self.allocator);
        self.page.start_address()
    }

    /// Unmap the scratch page from the active address space.
    pub fn unmap(&mut self, active_table: &mut ActivePageTable)
        requires
            old(active_table).mapper.wf(),
            page_canonical(old(self).page.number),
            spec_p4_index(old(self).page.number) != 511,
            old(active_table).mapper.spec_translate_page(
                old(active_table).mapper.p4_frame,
                old(self).page,
            ) is Some,
            old(active_table).mapper.l1_of(
                old(active_table).mapper.p4_frame,
                old(self).page,
            ) is Some,
        ensures
            *final(self) == *old(self),
            final(active_table).mapper.wf(),
            final(active_table).mapper.p4_frame == old(active_table).mapper.p4_frame,
            forall|g: u64| #[trigger]
                final(active_table).mapper.has_table(g) <==> old(active_table).mapper.has_table(g),
            forall|g: u64| #[trigger]
                old(active_table).mapper.has_table(g) ==> final(active_table).mapper.level_of(g)
                    == old(active_table).mapper.level_of(g),
            final(active_table).mapper.spec_translate_page(
                old(active_table).mapper.p4_frame,
                old(self).page,
            ) is None,
            final(active_table).mapper.leaf_of(old(active_table).mapper.p4_frame, old(self).page)
                == Some(0u64),
            final(active_table).mapper.can_map(old(active_table).mapper.p4_frame, old(self).page),
            forall|rt: u64, q: Page|
                old(active_table).mapper.has_table(rt) && old(active_table).mapper.level_of(rt)
                    == 4 && page_canonical(q.number) && spec_p4_index(q.number) != 511 && !(rt
                    == old(active_table).mapper.p4_frame && q == old(self).page) ==> {
                    &&& #[trigger] final(active_table).mapper.spec_translate_page(rt, q) == old(
                        active_table,
                    ).mapper.spec_translate_page(rt, q)
                    &&& final(active_table).mapper.leaf_of(rt, q) == old(
                        active_table,
                    ).mapper.leaf_of(rt, q)
                    &&& final(active_table).mapper.l1_of(rt, q) == old(active_table).mapper.l1_of(
                        rt,
                        q,
                    )
                    &&& (old(active_table).mapper.can_map(rt, q) ==> final(active_table).mapper.can_map(rt, q))
                    &&& final(active_table).mapper.tables_needed(rt, q) == old(
                        active_table,
                    ).mapper.tables_needed(rt, q)
                },
    {
        active_table.mapper.unmap(self.page, &mut self.allocator);
    }
}

} // verus!
