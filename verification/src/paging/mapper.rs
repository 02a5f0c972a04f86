//! The mapper: translation and mapping over a four-level page-table tree.
//!
//! Physical memory holding page tables is modelled explicitly: the mapper
//! owns a store associating the frame number of every page table with its
//! 512 entries. Hardware walks the same data through the recursive mapping;
//! here the store is walked directly, so every translation and mapping step
//! is a function of the stored words alone.

use vstd::prelude::*;

use crate::memory::{at_least, lemma_at_least_remove, lemma_at_least_weaken, Frame, FrameAllocator,
    MAX_FRAME, PAGE_SIZE};
use crate::paging::entry::{
    e_frame, e_huge, e_link, e_present, entry_value, EntryFlags, ADDRESS_MASK, HUGE_PAGE, PRESENT,
    WRITABLE,
};
use crate::paging::table::{zero_table, Table};
use crate::paging::{
    page_canonical, page_usable, spec_p1_index, spec_p2_index, spec_p3_index, spec_p4_index, Page,
    MAX_PAGE,
};

verus! {

/// Maps virtual pages to physical frames through a tree of page tables.
///
/// `p4_frame` is the frame of the level-4 table the walk starts from (the
/// frame CR3 would hold); `tables` is the store of all page-table frames,
/// each with its 512 entries; `levels` records, in ghost state, which level
/// of the tree each stored table belongs to.
pub struct Mapper {
    pub p4_frame: u64,
    pub tables: Vec<(u64, Table)>,
    pub levels: Ghost<Map<u64, int>>,
}

impl Mapper {
    /// The store holds a table for frame `f`.
    pub open spec fn has_table(&self, f: u64) -> bool {
        exists|i: int| 0 <= i < self.tables@.len() && self.tables@[i].0 == f
    }

    /// Index of frame `f`'s table in the store.
    pub open spec fn idx_of(&self, f: u64) -> int {
        choose|i: int| 0 <= i < self.tables@.len() && self.tables@[i].0 == f
    }

    /// The 512 entry words of the table stored for frame `f`.
    pub open spec fn table_at(&self, f: u64) -> Seq<u64> {
        self.tables@[self.idx_of(f)].1@
    }

    /// Entry word `i` of the table stored for frame `f`.
    pub open spec fn entry(&self, f: u64, i: int) -> u64 {
        self.table_at(f)[i]
    }

    /// Level (4 down to 1) of the table stored for frame `f`.
    pub open spec fn level_of(&self, f: u64) -> int {
        self.levels@[f]
    }

    /// Every stored frame appears only once.
    pub open spec fn keys_distinct(&self) -> bool {
        forall|i: int, j: int|
            0 <= i < j < self.tables@.len() ==> (#[trigger] self.tables@[i]).0 != (
            #[trigger] self.tables@[j]).0
    }

    /// Entry `i` of table `f` links to a lower-level table. The recursive
    /// slot (entry 511 of a level-4 table) is not a link down the tree.
    pub open spec fn is_link_at(&self, f: u64, i: int) -> bool {
        &&& self.level_of(f) >= 2
        &&& !(self.level_of(f) == 4 && i == 511)
        &&& e_link(self.entry(f, i))
    }

    /// Frame pointed at by entry `i` of table `f`.
    pub open spec fn child_at(&self, f: u64, i: int) -> u64 {
        e_frame(self.entry(f, i))
    }

    /// The table store forms a well-shaped forest of page-table trees:
    /// frames are distinct and small enough to be encoded in entries, every
    /// link points at a stored table one level down, no two links share a
    /// target, every level-4 table carries its recursive slot, level-4
    /// entries are never huge, and huge leaves are aligned to their size.
    pub open spec fn wf(&self) -> bool {
        &&& self.keys_distinct()
        &&& forall|i: int|
            0 <= i < self.tables@.len() ==> (#[trigger] self.tables@[i]).1.wf()
        &&& forall|f: u64| #[trigger] self.has_table(f) <==> self.levels@.dom().contains(f)
        &&& self.has_table(self.p4_frame)
        &&& self.level_of(self.p4_frame) == 4
        &&& forall|f: u64| #[trigger]
            self.has_table(f) ==> 1 <= self.level_of(f) <= 4 && f < MAX_FRAME
        &&& forall|f: u64| #[trigger]
            self.has_table(f) && self.level_of(f) == 4 ==> self.entry(f, 511) == entry_value(
                f,
                PRESENT | WRITABLE,
            )
        &&& forall|f: u64, i: int|
            self.has_table(f) && 0 <= i < 512 && self.level_of(f) == 4 ==> !(e_present(
                #[trigger] self.entry(f, i),
            ) && e_huge(self.entry(f, i)))
        &&& forall|f: u64, i: int|
            self.has_table(f) && 0 <= i < 512 && #[trigger] self.is_link_at(f, i) ==> self.has_table(
                self.child_at(f, i),
            ) && self.level_of(self.child_at(f, i)) == self.level_of(f) - 1
        &&& forall|f1: u64, i1: int, f2: u64, i2: int|
            self.has_table(f1) && 0 <= i1 < 512 && #[trigger] self.is_link_at(f1, i1)
                && self.has_table(f2) && 0 <= i2 < 512 && #[trigger] self.is_link_at(f2, i2)
                && self.child_at(f1, i1) == self.child_at(f2, i2) ==> f1 == f2 && i1 == i2
        &&& forall|f: u64, i: int|
            self.has_table(f) && 0 <= i < 512 && self.level_of(f) == 3 && e_present(
                #[trigger] self.entry(f, i),
            ) && e_huge(self.entry(f, i)) ==> e_frame(self.entry(f, i)) % 0x40000 == 0
        &&& forall|f: u64, i: int|
            self.has_table(f) && 0 <= i < 512 && self.level_of(f) == 2 && e_present(
                #[trigger] self.entry(f, i),
            ) && e_huge(self.entry(f, i)) ==> e_frame(self.entry(f, i)) % 512 == 0
    }

    /// None of the stored table frames can come out of the allocator again.
    pub open spec fn tables_fresh_for(&self, avail: Set<u64>) -> bool {
        forall|g: u64| #[trigger] self.has_table(g) ==> !avail.contains(g)
    }

    /// Position of frame `f`'s table in the store, if it is there.
    fn find(&self, f: u64) -> (r: Option<usize>)
        requires
            self.keys_distinct(),
        ensures
            match r {
                Some(i) => self.has_table(f) && i == self.idx_of(f) && i < self.tables@.len(),
                None => !self.has_table(f),
            },
    {
        let n = self.tables.len();
        let mut i: usize = 0;
        while i < n
            invariant
                i <= n,
                n == self.tables@.len(),
                self.keys_distinct(),
                forall|j: int| 0 <= j < i ==> (#[trigger] self.tables@[j]).0 != f,
            decreases n - i,
        {
            if self.tables[i].0 == f {
                proof {
                    assert(self.has_table(f));
                    let w = self.idx_of(f);
                    assert(0 <= w < self.tables@.len() && self.tables@[w].0 == f);
                    if w != i {
                        assert(self.tables@[i as int].0 == self.tables@[w].0);
                        assert(false);
                    }
                }
                return Some(i);
            }
            i = i + 1;
        }
        proof {
            if self.has_table(f) {
                let w = choose|w: int| 0 <= w < self.tables@.len() && self.tables@[w].0 == f;
                assert(self.tables@[w].0 != f);
            }
        }
        None
    }

    /// Entry word `index` of the stored table for frame `f`.
    fn read_entry(&self, f: u64, index: usize) -> (r: u64)
        requires
            self.keys_distinct(),
            forall|i: int| 0 <= i < self.tables@.len() ==> (#[trigger] self.tables@[i]).1.wf(),
            self.has_table(f),
            index < 512,
        ensures
            r == self.entry(f, index as int),
    {
        let i = match self.find(f) {
            Some(i) => i,
            None => {
                proof {
                    assert(false);
                }
                0
            },
        };
        assert(self.tables@[i as int].1.wf());
        self.tables[i].1.entry(index)
    }

    /// Write entry `index` of table `f` to point at `frame` with `flags`;
    /// clears the entry instead when `value_frame` is `None`.
    fn write_entry(&mut self, f: u64, index: usize, value_frame: Option<&Frame>, flags: EntryFlags)
        requires
            old(self).keys_distinct(),
            forall|i: int|
                0 <= i < old(self).tables@.len() ==> (#[trigger] old(self).tables@[i]).1.wf(),
            old(self).has_table(f),
            index < 512,
            value_frame matches Some(fr) ==> fr.number < MAX_FRAME,
        ensures
            final(self).p4_frame == old(self).p4_frame,
            final(self).levels == old(self).levels,
            final(self).tables@.len() == old(self).tables@.len(),
            final(self).keys_distinct(),
            forall|i: int|
                0 <= i < final(self).tables@.len() ==> (#[trigger] final(self).tables@[i]).1.wf(),
            forall|g: u64| #[trigger] final(self).has_table(g) <==> old(self).has_table(g),
            final(self).table_at(f) =~= old(self).table_at(f).update(
                index as int,
                match value_frame {
                    Some(fr) => entry_value(fr.number, flags),
                    None => 0u64,
                },
            ),
            forall|g: u64|
                g != f && old(self).has_table(g) ==> #[trigger] final(self).table_at(g) =~= old(
                    self,
                ).table_at(g),
    {
        let i = match self.find(f) {
            Some(i) => i,
            None => {
                proof {
                    assert(false);
                }
                0
            },
        };
        let ghost pre = *self;
        let mut pair = self.tables.remove(i);
        match value_frame {
            Some(fr) => pair.1.set_entry(index, fr, flags),
            None => pair.1.clear_entry(index),
        }
        self.tables.insert(i, pair);
        proof {
            assert(self.tables@ =~= pre.tables@.update(
                i as int,
                (pre.tables@[i as int].0, self.tables@[i as int].1),
            ));
            assert forall|g: u64| #[trigger] self.has_table(g) <==> pre.has_table(g) by {
                if self.has_table(g) {
                    let w = choose|w: int|
                        0 <= w < self.tables@.len() && self.tables@[w].0 == g;
                    assert(pre.tables@[w].0 == g);
                }
                if pre.has_table(g) {
                    let w = choose|w: int|
                        0 <= w < pre.tables@.len() && pre.tables@[w].0 == g;
                    assert(self.tables@[w].0 == g);
                }
            }
            assert(self.idx_of(f) == i as int) by {
                let w = self.idx_of(f);
                assert(self.has_table(f));
                assert(0 <= w < self.tables@.len() && self.tables@[w].0 == f);
                if w != i as int {
                    assert(pre.tables@[w].0 == f);
                    assert(pre.tables@[pre.idx_of(f)].0 == f);
                    assert(false);
                }
            }
            assert forall|g: u64| g != f && pre.has_table(g) implies #[trigger] self.table_at(g)
                =~= pre.table_at(g) by {
                let w = self.idx_of(g);
                assert(self.has_table(g));
                assert(0 <= w < self.tables@.len() && self.tables@[w].0 == g);
                assert(w != i as int);
                assert(pre.tables@[w].0 == g);
                let wp = pre.idx_of(g);
                assert(0 <= wp < pre.tables@.len() && pre.tables@[wp].0 == g);
                if w != wp {
                    assert(false);
                }
            }
        }
    }

    /// Add a fresh table for frame `f` to the store, at the given ghost
    /// level.
    fn add_table(&mut self, f: u64, table: Table, Ghost(level): Ghost<int>)
        requires
            old(self).keys_distinct(),
            forall|i: int|
                0 <= i < old(self).tables@.len() ==> (#[trigger] old(self).tables@[i]).1.wf(),
            !old(self).has_table(f),
            table.wf(),
        ensures
            final(self).p4_frame == old(self).p4_frame,
            final(self).levels@ == old(self).levels@.insert(f, level),
            final(self).keys_distinct(),
            forall|i: int|
                0 <= i < final(self).tables@.len() ==> (#[trigger] final(self).tables@[i]).1.wf(),
            forall|g: u64| #[trigger]
                final(self).has_table(g) <==> (old(self).has_table(g) || g == f),
            final(self).table_at(f) =~= table@,
            forall|g: u64|
                g != f && old(self).has_table(g) ==> #[trigger] final(self).table_at(g) =~= old(
                    self,
                ).table_at(g),
    {
        let ghost pre = *self;
        let ghost tv = table@;
        self.tables.push((f, table));
        proof {
            self.levels@ = self.levels@.insert(f, level);
        }
        proof {
            let n = pre.tables@.len() as int;
            assert(self.tables@ =~= pre.tables@.push((f, self.tables@[n].1)));
            assert forall|g: u64| #[trigger]
                self.has_table(g) <==> (pre.has_table(g) || g == f) by {
                if self.has_table(g) {
                    let w = choose|w: int|
                        0 <= w < self.tables@.len() && self.tables@[w].0 == g;
                    if w < n {
                        assert(pre.tables@[w].0 == g);
                    }
                }
                if pre.has_table(g) {
                    let w = choose|w: int|
                        0 <= w < pre.tables@.len() && pre.tables@[w].0 == g;
                    assert(self.tables@[w].0 == g);
                }
                if g == f {
                    assert(self.tables@[n].0 == f);
                }
            }
            assert(self.idx_of(f) == n) by {
                let w = self.idx_of(f);
                assert(self.has_table(f));
                assert(0 <= w < self.tables@.len() && self.tables@[w].0 == f);
                if w != n {
                    assert(pre.tables@[w].0 == f);
                }
            }
            assert(self.table_at(f) =~= tv);
            assert forall|g: u64| g != f && pre.has_table(g) implies #[trigger] self.table_at(g)
                =~= pre.table_at(g) by {
                let w = self.idx_of(g);
                assert(self.has_table(g));
                assert(0 <= w < self.tables@.len() && self.tables@[w].0 == g);
                if w == n {
                    assert(false);
                }
                assert(pre.tables@[w].0 == g);
                let wp = pre.idx_of(g);
                assert(0 <= wp < pre.tables@.len() && pre.tables@[wp].0 == g);
                if w != wp {
                    assert(false);
                }
            }
        }
    }
    /// The level-4 entry a page's walk starts at.
    pub open spec fn p4e(&self, root: u64, page: Page) -> u64 {
        self.entry(root, spec_p4_index(page.number) as int)
    }

    /// Frame of the level-3 table on this page's walk.
    pub open spec fn l3_of(&self, root: u64, page: Page) -> Option<u64> {
        if e_link(self.p4e(root, page)) && self.has_table(e_frame(self.p4e(root, page))) {
            Some(e_frame(self.p4e(root, page)))
        } else {
            None
        }
    }

    /// The level-3 entry on this page's walk.
    pub open spec fn p3e(&self, root: u64, page: Page) -> Option<u64> {
        match self.l3_of(root, page) {
            Some(t) => Some(self.entry(t, spec_p3_index(page.number) as int)),
            None => None,
        }
    }

    /// Frame of the level-2 table on this page's walk.
    pub open spec fn l2_of(&self, root: u64, page: Page) -> Option<u64> {
        match self.p3e(root, page) {
            Some(e) => if e_link(e) && self.has_table(e_frame(e)) {
                Some(e_frame(e))
            } else {
                None
            },
            None => None,
        }
    }

    /// The level-2 entry on this page's walk.
    pub open spec fn p2e(&self, root: u64, page: Page) -> Option<u64> {
        match self.l2_of(root, page) {
            Some(t) => Some(self.entry(t, spec_p2_index(page.number) as int)),
            None => None,
        }
    }

    /// Frame of the level-1 table on this page's walk.
    pub open spec fn l1_of(&self, root: u64, page: Page) -> Option<u64> {
        match self.p2e(root, page) {
            Some(e) => if e_link(e) && self.has_table(e_frame(e)) {
                Some(e_frame(e))
            } else {
                None
            },
            None => None,
        }
    }

    /// The leaf entry of this page: entry `p1_index` of the level-1 table on
    /// its walk.
    pub open spec fn leaf_of(&self, root: u64, page: Page) -> Option<u64> {
        match self.l1_of(root, page) {
            Some(t) => Some(self.entry(t, spec_p1_index(page.number) as int)),
            None => None,
        }
    }

    /// The frame this page translates to: through a 1 GiB huge leaf in the
    /// level-3 entry, a 2 MiB huge leaf in the level-2 entry, or a present
    /// leaf in the level-1 table.
    pub open spec fn spec_translate_page(&self, root: u64, page: Page) -> Option<u64> {
        let huge3 = match self.p3e(root, page) {
            Some(e3) => e_present(e3) && e_huge(e3),
            None => false,
        };
        let huge2 = match self.p2e(root, page) {
            Some(e2) => e_present(e2) && e_huge(e2),
            None => false,
        };
        if huge3 {
            Some(
                (e_frame(self.p3e(root, page)->Some_0) + spec_p2_index(page.number) * 512
                    + spec_p1_index(page.number)) as u64,
            )
        } else if huge2 {
            Some((e_frame(self.p2e(root, page)->Some_0) + spec_p1_index(page.number)) as u64)
        } else {
            match self.leaf_of(root, page) {
                Some(e1) => if e_present(e1) {
                    Some(e_frame(e1))
                } else {
                    None
                },
                None => None,
            }
        }
    }

    /// The physical address this virtual address translates to.
    pub open spec fn spec_translate(&self, root: u64, address: u64) -> Option<u64> {
        match self.spec_translate_page(root, Page { number: address / 4096 }) {
            Some(fr) => Some((fr * 4096 + address % 4096) as u64),
            None => None,
        }
    }

    /// The page can be mapped: no huge leaf sits on its walk and its leaf
    /// entry, where the level-1 table already exists, is still zero.
    pub open spec fn can_map(&self, root: u64, page: Page) -> bool {
        &&& !(e_present(self.p4e(root, page)) && e_huge(self.p4e(root, page)))
        &&& match self.p3e(root, page) {
            Some(e) => !(e_present(e) && e_huge(e)),
            None => true,
        }
        &&& match self.p2e(root, page) {
            Some(e) => !(e_present(e) && e_huge(e)),
            None => true,
        }
        &&& match self.leaf_of(root, page) {
            Some(e) => e == 0,
            None => true,
        }
    }

    /// How many page tables mapping this page would have to create.
    pub open spec fn tables_needed(&self, root: u64, page: Page) -> int {
        if self.l3_of(root, page) is None {
            3
        } else if self.l2_of(root, page) is None {
            2
        } else if self.l1_of(root, page) is None {
            1
        } else {
            0
        }
    }

    /// Level of the table the walk reads after the level-4 step: the
    /// recursive slot keeps it at 4, a real link steps down to 3.
    pub open spec fn lv3(page: Page) -> int {
        if spec_p4_index(page.number) == 511 {
            4
        } else {
            3
        }
    }

    /// Level of the table the walk reads after two steps.
    pub open spec fn lv2(page: Page) -> int {
        if spec_p4_index(page.number) == 511 {
            if spec_p3_index(page.number) == 511 {
                4
            } else {
                3
            }
        } else {
            2
        }
    }

    /// Level of the table the walk reads after three steps.
    pub open spec fn lv1(page: Page) -> int {
        if spec_p4_index(page.number) == 511 {
            if spec_p3_index(page.number) == 511 {
                if spec_p2_index(page.number) == 511 {
                    4
                } else {
                    3
                }
            } else {
                2
            }
        } else {
            1
        }
    }

    /// Every table a page's walk passes through is in the store, at the
    /// level `lv3`/`lv2`/`lv1` compute: links give it by well-formedness,
    /// and the recursive slot points back at the level-4 table itself.
    proof fn lemma_walk_tables(&self, root: u64, page: Page)
        requires
            self.wf(),
            self.has_table(root),
            self.level_of(root) == 4,
        ensures
            e_link(self.p4e(root, page)) ==> self.has_table(e_frame(self.p4e(root, page)))
                && self.level_of(e_frame(self.p4e(root, page))) == Self::lv3(page),
            match self.p3e(root, page) {
                Some(e) => e_link(e) ==> self.has_table(e_frame(e)) && self.level_of(e_frame(e))
                    == Self::lv2(page),
                None => true,
            },
            match self.p2e(root, page) {
                Some(e) => e_link(e) ==> self.has_table(e_frame(e)) && self.level_of(e_frame(e))
                    == Self::lv1(page),
                None => true,
            },
    {
        let n = page.number;
        let i4 = spec_p4_index(n) as int;
        let i3 = spec_p3_index(n) as int;
        let i2 = spec_p2_index(n) as int;
        assert(spec_p4_index(n) < 512 && spec_p3_index(n) < 512 && spec_p2_index(n) < 512)
            by (bit_vector);
        lemma_pw_mask();
        let p4 = root;
        if e_link(self.p4e(root, page)) {
            if i4 == 511 {
                assert(self.entry(p4, 511) == entry_value(p4, PRESENT | WRITABLE));
                lemma_entry_value_frame(p4, PRESENT | WRITABLE);
                assert(e_frame(self.p4e(root, page)) == p4);
            } else {
                assert(self.is_link_at(p4, i4));
            }
            if self.p3e(root, page) is Some && e_link(self.p3e(root, page)->Some_0) {
                let t3 = self.l3_of(root, page)->Some_0;
                if self.level_of(t3) == 4 && i3 == 511 {
                    assert(self.entry(t3, 511) == entry_value(t3, PRESENT | WRITABLE));
                    lemma_entry_value_frame(t3, PRESENT | WRITABLE);
                } else {
                    assert(self.is_link_at(t3, i3));
                }
                if self.p2e(root, page) is Some && e_link(self.p2e(root, page)->Some_0) {
                    let t2 = self.l2_of(root, page)->Some_0;
                    if self.level_of(t2) == 4 && i2 == 511 {
                        assert(self.entry(t2, 511) == entry_value(t2, PRESENT | WRITABLE));
                        lemma_entry_value_frame(t2, PRESENT | WRITABLE);
                    } else {
                        assert(self.is_link_at(t2, i2));
                    }
                }
            }
        }
    }

    /// Resolve a page to the frame it maps to, if any. Walks the tree from
    /// the level-4 table, stepping down through links and stopping early at
    /// huge-page leaves.
    pub fn translate_page(&self, page: Page) -> (r: Option<Frame>)
        requires
            self.wf(),
            page_canonical(page.number),
        ensures
            (r is Some) == (self.spec_translate_page(self.p4_frame, page) is Some),
            r matches Some(f) ==> {
                &&& Some(f.number) == self.spec_translate_page(self.p4_frame, page)
                &&& f.number < MAX_FRAME
            },
    {
        proof {
            self.lemma_walk_tables(self.p4_frame, page);
        }
        let e4 = self.read_entry(self.p4_frame, page.p4_index());
        if e4 & PRESENT == 0 || e4 & HUGE_PAGE != 0 {
            return None;
        }
        let t3 = frame_bits(e4);
        let e3 = self.read_entry(t3, page.p3_index());
        if e3 & PRESENT != 0 && e3 & HUGE_PAGE != 0 {
            // a 1 GiB page: its frame must be aligned to 1 GiB
            let start = frame_bits(e3);
            proof {
                let lv = Self::lv3(page);
                assert(e3 == self.entry(t3, spec_p3_index(page.number) as int));
                if lv == 4 {
                    assert(!(e_present(e3) && e_huge(e3)));
                    assert(false);
                }
                assert(lv == 3 && self.level_of(t3) == 3);
                assert(start % 0x40000 == 0);
            }
            return Some(Frame { number: start + (page.p2_index() as u64) * 512 + page.p1_index() as u64 });
        }
        if e3 & PRESENT == 0 {
            return None;
        }
        let t2 = frame_bits(e3);
        let e2 = self.read_entry(t2, page.p2_index());
        if e2 & PRESENT != 0 && e2 & HUGE_PAGE != 0 {
            // a 2 MiB page: its frame must be aligned to 2 MiB
            let start = frame_bits(e2);
            proof {
                let lv = Self::lv2(page);
                assert(e2 == self.entry(t2, spec_p2_index(page.number) as int));
                assert(self.level_of(t2) == lv && 2 <= lv <= 4);
                if lv == 4 {
                    assert(!(e_present(e2) && e_huge(e2)));
                    assert(false);
                }
                if lv == 3 {
                    assert(start % 0x40000 == 0);
                    lemma_align_weaken(start);
                }
                assert(start % 512 == 0);
            }
            return Some(Frame { number: start + page.p1_index() as u64 });
        }
        if e2 & PRESENT == 0 {
            return None;
        }
        let t1 = frame_bits(e2);
        let e1 = self.read_entry(t1, page.p1_index());
        if e1 & PRESENT != 0 {
            Some(Frame { number: frame_bits(e1) })
        } else {
            None
        }
    }

    /// The raw leaf entry of a page, when its walk reaches a level-1 table:
    /// what `map_to` wrote there, flags included.
    pub fn leaf_entry(&self, page: Page) -> (r: Option<u64>)
        requires
            self.wf(),
            page_canonical(page.number),
            spec_p4_index(page.number) != 511,
        ensures
            r == self.leaf_of(self.p4_frame, page),
    {
        proof {
            self.lemma_walk_tables(self.p4_frame, page);
        }
        let e4 = self.read_entry(self.p4_frame, page.p4_index());
        if e4 & PRESENT == 0 || e4 & HUGE_PAGE != 0 {
            return None;
        }
        let t3 = frame_bits(e4);
        let e3 = self.read_entry(t3, page.p3_index());
        if e3 & PRESENT == 0 || e3 & HUGE_PAGE != 0 {
            return None;
        }
        let t2 = frame_bits(e3);
        let e2 = self.read_entry(t2, page.p2_index());
        if e2 & PRESENT == 0 || e2 & HUGE_PAGE != 0 {
            return None;
        }
        let t1 = frame_bits(e2);
        Some(self.read_entry(t1, page.p1_index()))
    }

    /// Resolve a virtual address to the physical address it maps to: the
    /// page's frame plus the offset within the page.
    pub fn translate(&self, virtual_address: u64) -> (r: Option<u64>)
        requires
            self.wf(),
            crate::paging::address_canonical(virtual_address),
        ensures
            r == self.spec_translate(self.p4_frame, virtual_address),
    {
        let offset = virtual_address % PAGE_SIZE;
        let page = Page::containing_address(virtual_address);
        match self.translate_page(page) {
            Some(frame) => Some(frame.start_address() + offset),
            None => None,
        }
    }

    /// Return the table entry `index` of `parent` links to, creating a
    /// fresh zeroed table there first when the entry is still absent.
    fn next_table_create<A: FrameAllocator>(
        &mut self,
        parent: u64,
        index: usize,
        allocator: &mut A,
    ) -> (child: u64)
        requires
            old(self).wf(),
            old(allocator).wf(),
            old(self).has_table(parent),
            index < 512,
            2 <= old(self).level_of(parent),
            !(old(self).level_of(parent) == 4 && index == 511),
            !(e_present(old(self).entry(parent, index as int)) && e_huge(
                old(self).entry(parent, index as int),
            )),
            old(self).tables_fresh_for(old(allocator).avail()),
            !e_link(old(self).entry(parent, index as int)) ==> at_least(
                old(allocator).avail(),
                1,
            ),
        ensures
            final(self).wf(),
            final(allocator).wf(),
            final(self).p4_frame == old(self).p4_frame,
            final(self).has_table(child),
            final(self).level_of(child) == old(self).level_of(parent) - 1,
            final(self).tables_fresh_for(final(allocator).avail()),
            forall|g: u64| #[trigger]
                old(self).has_table(g) ==> final(self).has_table(g) && final(self).level_of(g)
                    == old(self).level_of(g),
            if e_link(old(self).entry(parent, index as int)) {
                &&& child == e_frame(old(self).entry(parent, index as int))
                &&& *final(self) == *old(self)
                &&& *final(allocator) == *old(allocator)
            } else {
                &&& !old(self).has_table(child)
                &&& old(allocator).avail().contains(child)
                &&& final(allocator).avail() == old(allocator).avail().remove(child)
                &&& forall|g: u64| #[trigger]
                    final(self).has_table(g) <==> (old(self).has_table(g) || g == child)
                &&& final(self).table_at(parent) == old(self).table_at(parent).update(
                    index as int,
                    entry_value(child, PRESENT | WRITABLE),
                )
                &&& final(self).table_at(child) == zero_table()
                &&& forall|g: u64|
                    g != parent && g != child && #[trigger] old(self).has_table(g)
                        ==> final(self).table_at(g) == old(self).table_at(g)
            },
    {
        let e = self.read_entry(parent, index);
        if e & PRESENT != 0 && e & HUGE_PAGE == 0 {
            let c = frame_bits(e);
            proof {
                assert(self.is_link_at(parent, index as int));
            }
            c
        } else {
            let f = match allocator.allocate_frame() {
                Some(f) => f,
                None => {
                    proof {
                        let x = choose|x: u64|
                            old(allocator).avail().contains(x) && at_least(
                                old(allocator).avail().remove(x),
                                0,
                            );
                        assert(old(allocator).avail().contains(x));
                        assert(false);
                    }
                    vstd::pervasive::unreached()
                },
            };
            let ghost pre = *self;
            let num = f.number;
            proof {
                assert(!self.has_table(num));
                lemma_pw_mask();
                lemma_entry_value_frame(num, PRESENT | WRITABLE);
                lemma_zero_entry();
            }
            let ghost lv = pre.level_of(parent) - 1;
            self.write_entry(parent, index, Some(&f), PRESENT | WRITABLE);
            let t = Table::new();
            self.add_table(num, t, Ghost(lv));
            proof {
                let post = *self;
                let link = entry_value(num, PRESENT | WRITABLE);
                // the store after: parent's entry links to the fresh zero table
                assert(post.table_at(parent) == pre.table_at(parent).update(index as int, link));
                assert(post.table_at(num) == zero_table());
                assert forall|g: u64|
                    g != parent && g != num && pre.has_table(g) implies #[trigger] post.table_at(
                    g,
                ) == pre.table_at(g) by {}
                assert forall|g: u64| #[trigger]
                    post.has_table(g) <==> post.levels@.dom().contains(g) by {}
                assert forall|g: u64| #[trigger]
                    pre.has_table(g) implies post.level_of(g) == pre.level_of(g) && g != num by {}
                // well-formedness of the growing tree, clause by clause
                assert forall|g: u64| #[trigger]
                    post.has_table(g) implies 1 <= post.level_of(g) <= 4 && g < MAX_FRAME by {}
                assert forall|g: u64| #[trigger]
                    post.has_table(g) && post.level_of(g) == 4 implies post.entry(g, 511)
                    == entry_value(g, PRESENT | WRITABLE) by {
                    assert(g != num);
                    if g == parent {
                        assert(index as int != 511);
                        assert(post.entry(g, 511) == pre.entry(g, 511));
                    }
                }
                assert forall|g: u64, i: int|
                    post.has_table(g) && 0 <= i < 512 && post.level_of(g) == 4 implies !(e_present(
                    #[trigger] post.entry(g, i),
                ) && e_huge(post.entry(g, i))) by {
                    assert(g != num);
                    if g == parent && i == index as int {
                        assert(post.entry(g, i) == link);
                    } else {
                        assert(post.entry(g, i) == pre.entry(g, i));
                    }
                }
                assert forall|g: u64, i: int|
                    post.has_table(g) && 0 <= i < 512 && #[trigger] post.is_link_at(g, i) implies
                    post.has_table(post.child_at(g, i)) && post.level_of(post.child_at(g, i))
                    == post.level_of(g) - 1 by {
                    if g == num {
                        assert(post.entry(g, i) == 0);
                        assert(false);
                    } else if g == parent && i == index as int {
                        assert(post.child_at(g, i) == num);
                    } else {
                        assert(post.entry(g, i) == pre.entry(g, i));
                        assert(pre.is_link_at(g, i));
                        assert(pre.has_table(pre.child_at(g, i)));
                    }
                }
                assert forall|f1: u64, i1: int, f2: u64, i2: int|
                    post.has_table(f1) && 0 <= i1 < 512 && #[trigger] post.is_link_at(f1, i1)
                        && post.has_table(f2) && 0 <= i2 < 512 && #[trigger] post.is_link_at(
                        f2,
                        i2,
                    ) && post.child_at(f1, i1) == post.child_at(f2, i2) implies f1 == f2 && i1
                    == i2 by {
                    let new1 = f1 == parent && i1 == index as int;
                    let new2 = f2 == parent && i2 == index as int;
                    if f1 == num || f2 == num {
                        assert(false);
                    }
                    if new1 && new2 {
                    } else if new1 {
                        assert(post.entry(f2, i2) == pre.entry(f2, i2));
                        assert(pre.is_link_at(f2, i2));
                        assert(pre.has_table(pre.child_at(f2, i2)));
                        assert(post.child_at(f1, i1) == num);
                        assert(false);
                    } else if new2 {
                        assert(post.entry(f1, i1) == pre.entry(f1, i1));
                        assert(pre.is_link_at(f1, i1));
                        assert(pre.has_table(pre.child_at(f1, i1)));
                        assert(post.child_at(f2, i2) == num);
                        assert(false);
                    } else {
                        assert(post.entry(f1, i1) == pre.entry(f1, i1));
                        assert(post.entry(f2, i2) == pre.entry(f2, i2));
                        assert(pre.is_link_at(f1, i1) && pre.is_link_at(f2, i2));
                    }
                }
                assert forall|g: u64, i: int|
                    post.has_table(g) && 0 <= i < 512 && post.level_of(g) == 3 && e_present(
                        #[trigger] post.entry(g, i),
                    ) && e_huge(post.entry(g, i)) implies e_frame(post.entry(g, i)) % 0x40000
                    == 0 by {
                    if g == num {
                        assert(post.entry(g, i) == 0);
                    } else if g == parent && i == index as int {
                        assert(post.entry(g, i) == link);
                    } else {
                        assert(post.entry(g, i) == pre.entry(g, i));
                    }
                }
                assert forall|g: u64, i: int|
                    post.has_table(g) && 0 <= i < 512 && post.level_of(g) == 2 && e_present(
                        #[trigger] post.entry(g, i),
                    ) && e_huge(post.entry(g, i)) implies e_frame(post.entry(g, i)) % 512 == 0 by {
                    if g == num {
                        assert(post.entry(g, i) == 0);
                    } else if g == parent && i == index as int {
                        assert(post.entry(g, i) == link);
                    } else {
                        assert(post.entry(g, i) == pre.entry(g, i));
                    }
                }
                assert(post.wf());
                assert forall|g: u64| #[trigger]
                    post.has_table(g) implies !allocator.avail().contains(g) by {}
            }
            num
        }
    }

    /// A mapper over a fresh address space: a single zeroed level-4 table in
    /// `p4_frame`, with its recursive slot pointing back at itself. Nothing
    /// is mapped yet.
    pub fn new(p4_frame: Frame) -> (r: Mapper)
        requires
            p4_frame.number < MAX_FRAME,
        ensures
            r.wf(),
            r.p4_frame == p4_frame.number,
            forall|g: u64| #[trigger] r.has_table(g) <==> g == p4_frame.number,
            forall|q: Page|
                page_canonical(q.number) && spec_p4_index(q.number) != 511 ==> {
                    &&& #[trigger] r.spec_translate_page(p4_frame.number, q) is None
                    &&& r.can_map(p4_frame.number, q)
                    &&& r.tables_needed(p4_frame.number, q) == 3
                },
    {
        let mut t = Table::new();
        t.set_entry(511, &p4_frame, PRESENT | WRITABLE);
        let mut tables: Vec<(u64, Table)> = Vec::new();
        tables.push((p4_frame.number, t));
        let num = p4_frame.number;
        let r = Mapper {
            p4_frame: num,
            tables,
            levels: Ghost(Map::<u64, int>::empty().insert(num, 4)),
        };
        proof {
            lemma_zero_entry();
            lemma_pw_mask();
            lemma_entry_value_frame(num, PRESENT | WRITABLE);
            assert forall|g: u64| #[trigger] r.has_table(g) <==> g == num by {
                if r.has_table(g) {
                    let w = choose|w: int| 0 <= w < r.tables@.len() && r.tables@[w].0 == g;
                    assert(w == 0);
                }
                if g == num {
                    assert(r.tables@[0].0 == g);
                }
            }
            assert(r.idx_of(num) == 0) by {
                let w = r.idx_of(num);
                assert(r.has_table(num));
                assert(0 <= w < r.tables@.len() && r.tables@[w].0 == num);
            }
            let tv = zero_table().update(511, entry_value(num, PRESENT | WRITABLE));
            assert(r.table_at(num) =~= tv);
            assert forall|g: u64, i: int|
                r.has_table(g) && 0 <= i < 512 && #[trigger] r.is_link_at(g, i) implies false by {
                assert(g == num);
                if i != 511 {
                    assert(r.entry(g, i) == 0);
                }
            }
            assert(r.wf());
            assert forall|q: Page|
                page_canonical(q.number) && spec_p4_index(q.number) != 511 implies {
                &&& #[trigger] r.spec_translate_page(num, q) is None
                &&& r.can_map(num, q)
                &&& r.tables_needed(num, q) == 3
            } by {
                let nq = q.number;
                assert(spec_p4_index(nq) < 512) by (bit_vector);
                assert(r.p4e(num, q) == 0);
                assert(r.l3_of(num, q) is None);
            }
        }
        r
    }

    /// Install a fresh level-4 table in `frame`: zeroed, with its recursive
    /// slot pointing back at itself. The new root maps nothing, and nothing
    /// links to it, so every existing translation is untouched.
    pub fn add_root(&mut self, frame: &Frame)
        requires
            old(self).wf(),
            !old(self).has_table(frame.number),
            frame.number < MAX_FRAME,
        ensures
            final(self).wf(),
            final(self).p4_frame == old(self).p4_frame,
            final(self).has_table(frame.number),
            final(self).level_of(frame.number) == 4,
            forall|g: u64| #[trigger]
                final(self).has_table(g) <==> (old(self).has_table(g) || g == frame.number),
            forall|g: u64| #[trigger]
                old(self).has_table(g) ==> final(self).level_of(g) == old(self).level_of(g),
            forall|q: Page|
                page_canonical(q.number) && spec_p4_index(q.number) != 511 ==> {
                    &&& #[trigger] final(self).spec_translate_page(frame.number, q) is None
                    &&& final(self).can_map(frame.number, q)
                    &&& final(self).tables_needed(frame.number, q) == 3
                },
            forall|rt: u64, q: Page|
                old(self).has_table(rt) && old(self).level_of(rt) == 4 && page_canonical(q.number)
                    && spec_p4_index(q.number) != 511 ==> {
                    &&& #[trigger] final(self).spec_translate_page(rt, q) == old(
                        self,
                    ).spec_translate_page(rt, q)
                    &&& final(self).leaf_of(rt, q) == old(self).leaf_of(rt, q)
                    &&& final(self).l1_of(rt, q) == old(self).l1_of(rt, q)
                    &&& (old(self).can_map(rt, q) ==> final(self).can_map(rt, q))
                    &&& final(self).tables_needed(rt, q) == old(self).tables_needed(rt, q)
                },
    {
        let mut t = Table::new();
        t.set_entry(511, frame, PRESENT | WRITABLE);
        let num = frame.number;
        let ghost pre = *self;
        self.add_table(num, t, Ghost(4int));
        proof {
            let post = *self;
            lemma_zero_entry();
            lemma_pw_mask();
            lemma_entry_value_frame(num, PRESENT | WRITABLE);
            let tv = zero_table().update(511, entry_value(num, PRESENT | WRITABLE));
            assert(post.table_at(num) =~= tv);
            assert forall|g: u64| #[trigger]
                post.has_table(g) <==> post.levels@.dom().contains(g) by {}
            assert forall|g: u64| #[trigger]
                post.has_table(g) && post.level_of(g) == 4 implies post.entry(g, 511)
                == entry_value(g, PRESENT | WRITABLE) by {
                if g != num {
                    assert(pre.has_table(g));
                    assert(post.entry(g, 511) == pre.entry(g, 511));
                }
            }
            assert forall|g: u64, i: int|
                post.has_table(g) && 0 <= i < 512 && post.level_of(g) == 4 implies !(e_present(
                #[trigger] post.entry(g, i),
            ) && e_huge(post.entry(g, i))) by {
                if g == num {
                    if i != 511 {
                        assert(post.entry(g, i) == 0);
                    } else {
                        assert(post.entry(g, i) == entry_value(num, PRESENT | WRITABLE));
                    }
                } else {
                    assert(post.entry(g, i) == pre.entry(g, i));
                }
            }
            assert forall|g: u64, i: int|
                post.has_table(g) && 0 <= i < 512 && #[trigger] post.is_link_at(g, i) implies
                post.has_table(post.child_at(g, i)) && post.level_of(post.child_at(g, i))
                == post.level_of(g) - 1 by {
                if g == num {
                    assert(post.entry(g, i) == 0);
                    assert(false);
                } else {
                    assert(post.entry(g, i) == pre.entry(g, i));
                    assert(pre.is_link_at(g, i));
                    assert(pre.has_table(pre.child_at(g, i)));
                }
            }
            assert forall|f1: u64, i1: int, f2: u64, i2: int|
                post.has_table(f1) && 0 <= i1 < 512 && #[trigger] post.is_link_at(f1, i1)
                    && post.has_table(f2) && 0 <= i2 < 512 && #[trigger] post.is_link_at(f2, i2)
                    && post.child_at(f1, i1) == post.child_at(f2, i2) implies f1 == f2 && i1
                == i2 by {
                if f1 == num || f2 == num {
                    assert(false);
                } else {
                    assert(post.entry(f1, i1) == pre.entry(f1, i1));
                    assert(post.entry(f2, i2) == pre.entry(f2, i2));
                    assert(pre.is_link_at(f1, i1) && pre.is_link_at(f2, i2));
                }
            }
            assert forall|g: u64, i: int|
                post.has_table(g) && 0 <= i < 512 && post.level_of(g) == 3 && e_present(
                    #[trigger] post.entry(g, i),
                ) && e_huge(post.entry(g, i)) implies e_frame(post.entry(g, i)) % 0x40000 == 0 by {
                assert(g != num);
                assert(post.entry(g, i) == pre.entry(g, i));
            }
            assert forall|g: u64, i: int|
                post.has_table(g) && 0 <= i < 512 && post.level_of(g) == 2 && e_present(
                    #[trigger] post.entry(g, i),
                ) && e_huge(post.entry(g, i)) implies e_frame(post.entry(g, i)) % 512 == 0 by {
                assert(g != num);
                assert(post.entry(g, i) == pre.entry(g, i));
            }
            assert(post.wf());
            assert forall|q: Page|
                page_canonical(q.number) && spec_p4_index(q.number) != 511 implies {
                &&& #[trigger] post.spec_translate_page(num, q) is None
                &&& post.can_map(num, q)
                &&& post.tables_needed(num, q) == 3
            } by {
                let nq = q.number;
                assert(spec_p4_index(nq) < 512 && spec_p4_index(nq) == spec_p4_index(nq))
                    by (bit_vector);
                assert(post.p4e(num, q) == 0);
                assert(post.l3_of(num, q) is None);
            }
            assert forall|rt: u64, q: Page|
                pre.has_table(rt) && pre.level_of(rt) == 4 && page_canonical(q.number)
                    && spec_p4_index(q.number) != 511 implies {
                &&& #[trigger] post.spec_translate_page(rt, q) == pre.spec_translate_page(rt, q)
                &&& post.leaf_of(rt, q) == pre.leaf_of(rt, q)
                &&& post.l1_of(rt, q) == pre.l1_of(rt, q)
                &&& (pre.can_map(rt, q) ==> post.can_map(rt, q))
                &&& post.tables_needed(rt, q) == pre.tables_needed(rt, q)
            } by {
                lemma_add_root_preserves(pre, post, num, rt, q);
            }
        }
    }

    /// Map `page` to a freshly allocated frame with the given flags.
    pub fn map<A: FrameAllocator>(&mut self, page: Page, flags: EntryFlags, allocator: &mut A)
        requires
            old(self).wf(),
            old(allocator).wf(),
            page_canonical(page.number),
            spec_p4_index(page.number) != 511,
            old(self).can_map(old(self).p4_frame, page),
            flags & ADDRESS_MASK == 0,
            old(self).tables_fresh_for(old(allocator).avail()),
            at_least(
                old(allocator).avail(),
                old(self).tables_needed(old(self).p4_frame, page) + 1,
            ),
        ensures
            final(self).wf(),
            final(allocator).wf(),
            final(self).p4_frame == old(self).p4_frame,
            final(self).l1_of(old(self).p4_frame, page) is Some,
            final(self).spec_translate_page(old(self).p4_frame, page) is Some,
            ({
                let fr = final(self).spec_translate_page(old(self).p4_frame, page)->Some_0;
                &&& old(allocator).avail().contains(fr)
                &&& fr < MAX_FRAME
                &&& final(self).leaf_of(old(self).p4_frame, page) == Some(
                    entry_value(fr, flags | PRESENT),
                )
            }),
            forall|g: u64| #[trigger]
                old(self).has_table(g) ==> final(self).has_table(g) && final(self).level_of(g)
                    == old(self).level_of(g),
            forall|g: u64| #[trigger]
                final(self).has_table(g) ==> old(self).has_table(g) || old(
                    allocator,
                ).avail().contains(g),
            final(self).tables_fresh_for(final(allocator).avail()),
            forall|x: u64| #[trigger]
                final(allocator).avail().contains(x) ==> old(allocator).avail().contains(x),
            forall|n: int| #[trigger]
                at_least(old(allocator).avail(), n) ==> at_least(
                    final(allocator).avail(),
                    n - old(self).tables_needed(old(self).p4_frame, page) - 1,
                ),
            forall|rt: u64, q: Page|
                old(self).has_table(rt) && old(self).level_of(rt) == 4 && page_canonical(q.number)
                    && spec_p4_index(q.number) != 511 && !(rt == old(self).p4_frame && q == page)
                    ==> #[trigger] final(self).spec_translate_page(rt, q) == old(
                    self,
                ).spec_translate_page(rt, q),
            forall|rt: u64, q: Page|
                old(self).has_table(rt) && old(self).level_of(rt) == 4 && page_canonical(q.number)
                    && spec_p4_index(q.number) != 511 && !(rt == old(self).p4_frame && q == page)
                    && old(self).leaf_of(rt, q) is Some ==> #[trigger] final(self).leaf_of(rt, q)
                    == old(self).leaf_of(rt, q),
            forall|rt: u64, q: Page|
                old(self).has_table(rt) && old(self).level_of(rt) == 4 && page_canonical(q.number)
                    && spec_p4_index(q.number) != 511 && !(rt == old(self).p4_frame && q == page)
                    && old(self).l1_of(rt, q) is Some ==> #[trigger] final(self).l1_of(rt, q)
                    == old(self).l1_of(rt, q),
            forall|rt: u64, q: Page|
                old(self).has_table(rt) && old(self).level_of(rt) == 4 && page_canonical(q.number)
                    && spec_p4_index(q.number) != 511 && !(rt == old(self).p4_frame && q == page)
                    && old(self).can_map(rt, q) ==> #[trigger] final(self).can_map(rt, q),
    {
        let ghost a0 = *allocator;
        let ghost needed = old(self).tables_needed(old(self).p4_frame, page);
        proof {
            lemma_at_least_weaken(a0.avail(), needed + 1, 1);
        }
        let frame = match allocator.allocate_frame() {
            Some(f) => f,
            None => {
                proof {
                    let x = choose|x: u64|
                        a0.avail().contains(x) && at_least(a0.avail().remove(x), 0);
                    assert(a0.avail().contains(x));
                    assert(false);
                }
                vstd::pervasive::unreached()
            },
        };
        proof {
            lemma_at_least_remove(a0.avail(), needed + 1, frame.number);
        }
        self.map_to(page, &frame, flags, allocator);
        proof {
            assert forall|n: int| #[trigger]
                at_least(a0.avail(), n) implies at_least(
                allocator.avail(),
                n - needed - 1,
            ) by {
                lemma_at_least_remove(a0.avail(), n, frame.number);
            }
        }
    }

    /// Map the page with the same number as `frame` to that frame: after the
    /// call the frame's physical addresses answer to the equal virtual
    /// addresses.
    pub fn identity_map<A: FrameAllocator>(
        &mut self,
        frame: &Frame,
        flags: EntryFlags,
        allocator: &mut A,
    )
        requires
            old(self).wf(),
            old(allocator).wf(),
            frame.number < crate::paging::LOW_HALF_END,
            old(self).can_map(old(self).p4_frame, Page { number: frame.number }),
            flags & ADDRESS_MASK == 0,
            old(self).tables_fresh_for(old(allocator).avail()),
            at_least(
                old(allocator).avail(),
                old(self).tables_needed(old(self).p4_frame, Page { number: frame.number }),
            ),
        ensures
            final(self).wf(),
            final(allocator).wf(),
            final(self).p4_frame == old(self).p4_frame,
            final(self).l1_of(old(self).p4_frame, Page { number: frame.number }) is Some,
            final(self).leaf_of(old(self).p4_frame, Page { number: frame.number }) == Some(
                entry_value(frame.number, flags | PRESENT),
            ),
            final(self).spec_translate_page(old(self).p4_frame, Page { number: frame.number })
                == Some(frame.number),
            forall|g: u64| #[trigger]
                old(self).has_table(g) ==> final(self).has_table(g) && final(self).level_of(g)
                    == old(self).level_of(g),
            forall|g: u64| #[trigger]
                final(self).has_table(g) ==> old(self).has_table(g) || old(
                    allocator,
                ).avail().contains(g),
            final(self).tables_fresh_for(final(allocator).avail()),
            forall|x: u64| #[trigger]
                final(allocator).avail().contains(x) ==> old(allocator).avail().contains(x),
            forall|n: int| #[trigger]
                at_least(old(allocator).avail(), n) ==> at_least(
                    final(allocator).avail(),
                    n - old(self).tables_needed(old(self).p4_frame, Page { number: frame.number }),
                ),
            forall|rt: u64, q: Page|
                old(self).has_table(rt) && old(self).level_of(rt) == 4 && page_canonical(q.number)
                    && spec_p4_index(q.number) != 511 && !(rt == old(self).p4_frame && q == (Page {
                    number: frame.number,
                })) ==> #[trigger] final(self).spec_translate_page(rt, q) == old(
                    self,
                ).spec_translate_page(rt, q),
            forall|rt: u64, q: Page|
                old(self).has_table(rt) && old(self).level_of(rt) == 4 && page_canonical(q.number)
                    && spec_p4_index(q.number) != 511 && !(rt == old(self).p4_frame && q == (Page {
                    number: frame.number,
                })) && old(self).leaf_of(rt, q) is Some ==> #[trigger] final(self).leaf_of(rt, q)
                    == old(self).leaf_of(rt, q),
            forall|rt: u64, q: Page|
                old(self).has_table(rt) && old(self).level_of(rt) == 4 && page_canonical(q.number)
                    && spec_p4_index(q.number) != 511 && !(rt == old(self).p4_frame && q == (Page {
                    number: frame.number,
                })) && old(self).l1_of(rt, q) is Some ==> #[trigger] final(self).l1_of(rt, q)
                    == old(self).l1_of(rt, q),
            forall|rt: u64, q: Page|
                old(self).has_table(rt) && old(self).level_of(rt) == 4 && page_canonical(q.number)
                    && spec_p4_index(q.number) != 511 && !(rt == old(self).p4_frame && q == (Page {
                    number: frame.number,
                })) && old(self).can_map(rt, q) ==> #[trigger] final(self).can_map(rt, q),
    {
        proof {
            let n = frame.number;
            assert(((n * 4096) as u64) / 4096 == n && ((n * 4096) as u64) < 0x0000_8000_0000_0000
                && spec_p4_index(n) != 511) by (bit_vector)
                requires n < 0x8_0000_0000u64;
        }
        let page = Page::containing_address(frame.start_address());
        assert(page == Page { number: frame.number });
        self.map_to(page, frame, flags, allocator);
    }

    /// Identity-map every frame from `first` to `last`, both inclusive, with
    /// the given flags: afterwards each of those pages carries exactly the
    /// entry built from its own frame and the flags, and no other page
    /// changed.
    pub fn identity_map_range<A: FrameAllocator>(
        &mut self,
        first: u64,
        last: u64,
        flags: EntryFlags,
        allocator: &mut A,
    )
        requires
            old(self).wf(),
            old(allocator).wf(),
            first <= last,
            last < crate::paging::LOW_HALF_END,
            flags & ADDRESS_MASK == 0,
            forall|k: u64|
                first <= k <= last ==> #[trigger] old(self).can_map(
                    old(self).p4_frame,
                    Page { number: k },
                ),
            old(self).tables_fresh_for(old(allocator).avail()),
            at_least(old(allocator).avail(), 3 * (last + 1 - first)),
        ensures
            final(self).wf(),
            final(allocator).wf(),
            final(self).p4_frame == old(self).p4_frame,
            forall|k: u64|
                first <= k <= last ==> {
                    &&& (#[trigger] final(self).leaf_of(final(self).p4_frame, Page { number: k }))
                        == Some(entry_value(k, flags | PRESENT))
                    &&& final(self).l1_of(final(self).p4_frame, Page { number: k }) is Some
                    &&& final(self).spec_translate_page(final(self).p4_frame, Page { number: k })
                        == Some(k)
                },
            forall|g: u64| #[trigger]
                old(self).has_table(g) ==> final(self).has_table(g) && final(self).level_of(g)
                    == old(self).level_of(g),
            forall|g: u64| #[trigger]
                final(self).has_table(g) ==> old(self).has_table(g) || old(
                    allocator,
                ).avail().contains(g),
            final(self).tables_fresh_for(final(allocator).avail()),
            forall|x: u64| #[trigger]
                final(allocator).avail().contains(x) ==> old(allocator).avail().contains(x),
            forall|n: int| #[trigger]
                at_least(old(allocator).avail(), n) ==> at_least(
                    final(allocator).avail(),
                    n - 3 * (last + 1 - first),
                ),
            forall|rt: u64, q: Page|
                old(self).has_table(rt) && old(self).level_of(rt) == 4 && page_canonical(q.number)
                    && spec_p4_index(q.number) != 511 && !(rt == old(self).p4_frame && first
                    <= q.number <= last) ==> {
                    &&& #[trigger] final(self).spec_translate_page(rt, q) == old(
                        self,
                    ).spec_translate_page(rt, q)
                    &&& (old(self).leaf_of(rt, q) is Some ==> final(self).leaf_of(rt, q) == old(
                        self,
                    ).leaf_of(rt, q))
                    &&& (old(self).l1_of(rt, q) is Some ==> final(self).l1_of(rt, q) == old(
                        self,
                    ).l1_of(rt, q))
                    &&& (old(self).can_map(rt, q) ==> final(self).can_map(rt, q))
                },
    {
        let ghost s0 = *self;
        let ghost a0 = *allocator;
        let ghost root = s0.p4_frame;
        let mut k: u64 = first;
        while k <= last
            invariant
                self.wf(),
                allocator.wf(),
                self.p4_frame == root,
                root == s0.p4_frame,
                first <= k <= last + 1,
                last < crate::paging::LOW_HALF_END,
                flags & ADDRESS_MASK == 0,
                self.tables_fresh_for(allocator.avail()),
                forall|g: u64| #[trigger]
                    s0.has_table(g) ==> self.has_table(g) && self.level_of(g) == s0.level_of(g),
                forall|g: u64| #[trigger]
                    self.has_table(g) ==> s0.has_table(g) || a0.avail().contains(g),
                forall|x: u64| #[trigger] allocator.avail().contains(x) ==> a0.avail().contains(x),
                at_least(allocator.avail(), 3 * (last + 1 - k)),
                forall|n: int| #[trigger]
                    at_least(a0.avail(), n) ==> at_least(allocator.avail(), n - 3 * (k - first)),
                forall|j: u64|
                    first <= j < k ==> (#[trigger] self.leaf_of(root, Page { number: j })) == Some(
                        entry_value(j, flags | PRESENT),
                    ) && self.l1_of(root, Page { number: j }) is Some && self.spec_translate_page(
                        root,
                        Page { number: j },
                    ) == Some(j),
                forall|j: u64|
                    k <= j <= last ==> #[trigger] self.can_map(root, Page { number: j }),
                forall|rt: u64, q: Page|
                    s0.has_table(rt) && s0.level_of(rt) == 4 && page_canonical(q.number)
                        && spec_p4_index(q.number) != 511 && !(rt == root && first <= q.number
                        < k) ==> {
                        &&& #[trigger] self.spec_translate_page(rt, q) == s0.spec_translate_page(
                            rt,
                            q,
                        )
                        &&& (s0.leaf_of(rt, q) is Some ==> self.leaf_of(rt, q) == s0.leaf_of(
                            rt,
                            q,
                        ))
                        &&& (s0.l1_of(rt, q) is Some ==> self.l1_of(rt, q) == s0.l1_of(rt, q))
                        &&& (s0.can_map(rt, q) ==> self.can_map(rt, q))
                    },
            decreases last + 1 - k,
        {
            let frame = Frame { number: k };
            let page = Page { number: k };
            let ghost needed = self.tables_needed(root, page);
            proof {
                crate::paging::lemma_low_page_usable(k);
                    assert(k < 0x100_0000_0000);
                assert(self.can_map(root, Page { number: k }));
                assert(needed <= 3);
                lemma_at_least_weaken(allocator.avail(), 3 * (last + 1 - k), needed);
            }
            let ghost sk = *self;
            let ghost ak = *allocator;
            self.identity_map(&frame, flags, allocator);
            proof {
                assert forall|n: int| #[trigger]
                    at_least(ak.avail(), n) implies at_least(allocator.avail(), n - 3) by {
                    lemma_at_least_weaken(allocator.avail(), n - needed, n - 3);
                }
                assert(at_least(allocator.avail(), 3 * (last + 1 - (k + 1))));
                assert forall|n: int| #[trigger]
                    at_least(a0.avail(), n) implies at_least(
                    allocator.avail(),
                    n - 3 * (k + 1 - first),
                ) by {
                    assert(at_least(ak.avail(), n - 3 * (k - first)));
                    assert(at_least(allocator.avail(), n - 3 * (k - first) - 3));
                }
                assert forall|g: u64| #[trigger]
                    self.has_table(g) implies s0.has_table(g) || a0.avail().contains(g) by {
                    if !sk.has_table(g) {
                        assert(ak.avail().contains(g));
                    }
                }
                assert forall|j: u64|
                    first <= j < k + 1 implies (#[trigger] self.leaf_of(root, Page { number: j }))
                    == Some(entry_value(j, flags | PRESENT)) && self.l1_of(
                    root,
                    Page { number: j },
                ) is Some && self.spec_translate_page(root, Page { number: j }) == Some(j) by {
                    crate::paging::lemma_low_page_usable(j);
                    if j < k {
                        assert(Page { number: j } != Page { number: k });
                        assert(sk.leaf_of(root, Page { number: j }) is Some);
                        assert(sk.l1_of(root, Page { number: j }) is Some);
                    }
                }
                assert forall|j: u64|
                    k + 1 <= j <= last implies #[trigger] self.can_map(root, Page { number: j }) by {
                    crate::paging::lemma_low_page_usable(j);
                    assert(sk.can_map(root, Page { number: j }));
                    assert(Page { number: j } != Page { number: k });
                }
                assert forall|rt: u64, q: Page|
                    s0.has_table(rt) && s0.level_of(rt) == 4 && page_canonical(q.number)
                        && spec_p4_index(q.number) != 511 && !(rt == root && first <= q.number < k
                        + 1) implies {
                    &&& #[trigger] self.spec_translate_page(rt, q) == s0.spec_translate_page(rt, q)
                    &&& (s0.leaf_of(rt, q) is Some ==> self.leaf_of(rt, q) == s0.leaf_of(rt, q))
                    &&& (s0.l1_of(rt, q) is Some ==> self.l1_of(rt, q) == s0.l1_of(rt, q))
                    &&& (s0.can_map(rt, q) ==> self.can_map(rt, q))
                } by {
                    assert(sk.has_table(rt) && sk.level_of(rt) == 4);
                    assert(!(rt == root && q == Page { number: k }));
                    assert(self.spec_translate_page(rt, q) == sk.spec_translate_page(rt, q));
                }
            }
            k = k + 1;
        }
    }

    /// Map every page from `first` to `last`, both inclusive, to freshly
    /// allocated frames with the given flags: afterwards each of those pages
    /// translates to something, and no other page changed. This is how the
    /// kernel backs a virtual region such as its heap with memory.
    pub fn map_range<A: FrameAllocator>(
        &mut self,
        first: u64,
        last: u64,
        flags: EntryFlags,
        allocator: &mut A,
    )
        requires
            old(self).wf(),
            old(allocator).wf(),
            first <= last,
            last < MAX_PAGE,
            flags & ADDRESS_MASK == 0,
            forall|k: u64| first <= k <= last ==> #[trigger] page_usable(k),
            forall|k: u64|
                first <= k <= last ==> #[trigger] old(self).can_map(
                    old(self).p4_frame,
                    Page { number: k },
                ),
            old(self).tables_fresh_for(old(allocator).avail()),
            at_least(old(allocator).avail(), 4 * (last + 1 - first)),
        ensures
            final(self).wf(),
            final(allocator).wf(),
            final(self).p4_frame == old(self).p4_frame,
            forall|k: u64|
                first <= k <= last ==> (#[trigger] final(self).spec_translate_page(
                    final(self).p4_frame,
                    Page { number: k },
                )) is Some && final(self).l1_of(final(self).p4_frame, Page { number: k }) is Some,
            forall|g: u64| #[trigger]
                old(self).has_table(g) ==> final(self).has_table(g) && final(self).level_of(g)
                    == old(self).level_of(g),
            forall|g: u64| #[trigger]
                final(self).has_table(g) ==> old(self).has_table(g) || old(
                    allocator,
                ).avail().contains(g),
            final(self).tables_fresh_for(final(allocator).avail()),
            forall|x: u64| #[trigger]
                final(allocator).avail().contains(x) ==> old(allocator).avail().contains(x),
            forall|n: int| #[trigger]
                at_least(old(allocator).avail(), n) ==> at_least(
                    final(allocator).avail(),
                    n - 4 * (last + 1 - first),
                ),
            forall|rt: u64, q: Page|
                old(self).has_table(rt) && old(self).level_of(rt) == 4 && page_canonical(q.number)
                    && spec_p4_index(q.number) != 511 && !(rt == old(self).p4_frame && first
                    <= q.number <= last) ==> {
                    &&& #[trigger] final(self).spec_translate_page(rt, q) == old(
                        self,
                    ).spec_translate_page(rt, q)
                    &&& (old(self).leaf_of(rt, q) is Some ==> final(self).leaf_of(rt, q) == old(
                        self,
                    ).leaf_of(rt, q))
                    &&& (old(self).l1_of(rt, q) is Some ==> final(self).l1_of(rt, q) == old(
                        self,
                    ).l1_of(rt, q))
                    &&& (old(self).can_map(rt, q) ==> final(self).can_map(rt, q))
                },
    {
        let ghost s0 = *self;
        let ghost a0 = *allocator;
        let ghost root = s0.p4_frame;
        let mut k: u64 = first;
        while k <= last
            invariant
                self.wf(),
                allocator.wf(),
                self.p4_frame == root,
                root == s0.p4_frame,
                first <= k <= last + 1,
                last < MAX_PAGE,
                flags & ADDRESS_MASK == 0,
                forall|j: u64| first <= j <= last ==> #[trigger] page_usable(j),
                self.tables_fresh_for(allocator.avail()),
                forall|g: u64| #[trigger]
                    s0.has_table(g) ==> self.has_table(g) && self.level_of(g) == s0.level_of(g),
                forall|g: u64| #[trigger]
                    self.has_table(g) ==> s0.has_table(g) || a0.avail().contains(g),
                forall|x: u64| #[trigger] allocator.avail().contains(x) ==> a0.avail().contains(x),
                forall|n: int| #[trigger]
                    at_least(a0.avail(), n) ==> at_least(allocator.avail(), n - 4 * (k - first)),
                at_least(allocator.avail(), 4 * (last + 1 - k)),
                forall|j: u64|
                    first <= j < k ==> (#[trigger] self.spec_translate_page(
                        root,
                        Page { number: j },
                    )) is Some && self.l1_of(root, Page { number: j }) is Some,
                forall|j: u64|
                    k <= j <= last ==> #[trigger] self.can_map(root, Page { number: j }),
                forall|rt: u64, q: Page|
                    s0.has_table(rt) && s0.level_of(rt) == 4 && page_canonical(q.number)
                        && spec_p4_index(q.number) != 511 && !(rt == root && first <= q.number
                        < k) ==> {
                        &&& #[trigger] self.spec_translate_page(rt, q) == s0.spec_translate_page(
                            rt,
                            q,
                        )
                        &&& (s0.leaf_of(rt, q) is Some ==> self.leaf_of(rt, q) == s0.leaf_of(
                            rt,
                            q,
                        ))
                        &&& (s0.l1_of(rt, q) is Some ==> self.l1_of(rt, q) == s0.l1_of(rt, q))
                        &&& (s0.can_map(rt, q) ==> self.can_map(rt, q))
                    },
            decreases last + 1 - k,
        {
            let page = Page { number: k };
            let ghost needed = self.tables_needed(root, page);
            proof {
                assert(page_usable(k));
                assert(self.can_map(root, Page { number: k }));
                assert(needed <= 3);
                lemma_at_least_weaken(allocator.avail(), 4 * (last + 1 - k), needed + 1);
            }
            let ghost sk = *self;
            let ghost ak = *allocator;
            self.map(page, flags, allocator);
            proof {
                assert forall|n: int| #[trigger]
                    at_least(ak.avail(), n) implies at_least(allocator.avail(), n - 4) by {
                    lemma_at_least_weaken(allocator.avail(), n - needed - 1, n - 4);
                }
                assert(at_least(allocator.avail(), 4 * (last + 1 - (k + 1))));
                assert forall|n: int| #[trigger]
                    at_least(a0.avail(), n) implies at_least(
                    allocator.avail(),
                    n - 4 * ((k + 1) - first),
                ) by {
                    assert(at_least(ak.avail(), n - 4 * (k - first)));
                    assert(at_least(allocator.avail(), n - 4 * (k - first) - 4));
                }
                assert forall|g: u64| #[trigger]
                    self.has_table(g) implies s0.has_table(g) || a0.avail().contains(g) by {
                    if !sk.has_table(g) {
                        assert(ak.avail().contains(g));
                    }
                }
                assert forall|j: u64|
                    first <= j < k + 1 implies (#[trigger] self.spec_translate_page(
                    root,
                    Page { number: j },
                )) is Some && self.l1_of(root, Page { number: j }) is Some by {
                    assert(page_usable(j));
                    if j < k {
                        assert(Page { number: j } != page);
                        assert(sk.spec_translate_page(root, Page { number: j }) is Some);
                        assert(sk.l1_of(root, Page { number: j }) is Some);
                    }
                }
                assert forall|j: u64|
                    k + 1 <= j <= last implies #[trigger] self.can_map(
                    root,
                    Page { number: j },
                ) by {
                    assert(page_usable(j));
                    assert(sk.can_map(root, Page { number: j }));
                    assert(Page { number: j } != page);
                }
                assert forall|rt: u64, q: Page|
                    s0.has_table(rt) && s0.level_of(rt) == 4 && page_canonical(q.number)
                        && spec_p4_index(q.number) != 511 && !(rt == root && first <= q.number < k
                        + 1) implies {
                    &&& #[trigger] self.spec_translate_page(rt, q) == s0.spec_translate_page(rt, q)
                    &&& (s0.leaf_of(rt, q) is Some ==> self.leaf_of(rt, q) == s0.leaf_of(rt, q))
                    &&& (s0.l1_of(rt, q) is Some ==> self.l1_of(rt, q) == s0.l1_of(rt, q))
                    &&& (s0.can_map(rt, q) ==> self.can_map(rt, q))
                } by {
                    assert(sk.has_table(rt) && sk.level_of(rt) == 4);
                    assert(!(rt == root && q == page));
                    assert(self.spec_translate_page(rt, q) == sk.spec_translate_page(rt, q));
                }
            }
            k = k + 1;
        }
    }

    /// Remove the mapping of `page`: clear its leaf entry. The page must be
    /// mapped through a full four-level walk (huge pages are not supported
    /// here), and afterwards it translates to nothing while every other page
    /// translates as before. The intermediate tables and the unmapped frame
    /// are deliberately not reclaimed, so the allocator is untouched; on
    /// hardware the caller flushes the page's address from the TLB.
    pub fn unmap<A: FrameAllocator>(&mut self, page: Page, _allocator: &mut A)
        requires
            old(self).wf(),
            page_canonical(page.number),
            spec_p4_index(page.number) != 511,
            old(self).spec_translate_page(old(self).p4_frame, page) is Some,
            old(self).l1_of(old(self).p4_frame, page) is Some,
        ensures
            final(self).wf(),
            final(self).p4_frame == old(self).p4_frame,
            forall|g: u64| #[trigger]
                final(self).has_table(g) <==> old(self).has_table(g),
            forall|g: u64| #[trigger]
                old(self).has_table(g) ==> final(self).level_of(g) == old(self).level_of(g),
            final(self).spec_translate_page(old(self).p4_frame, page) is None,
            final(self).leaf_of(old(self).p4_frame, page) == Some(0u64),
            final(self).can_map(old(self).p4_frame, page),
            *final(_allocator) == *old(_allocator),
            forall|rt: u64, q: Page|
                old(self).has_table(rt) && old(self).level_of(rt) == 4 && page_canonical(q.number)
                    && spec_p4_index(q.number) != 511 && !(rt == old(self).p4_frame && q == page)
                    ==> #[trigger] final(self).spec_translate_page(rt, q) == old(
                    self,
                ).spec_translate_page(rt, q),
            forall|rt: u64, q: Page|
                old(self).has_table(rt) && old(self).level_of(rt) == 4 && page_canonical(q.number)
                    && spec_p4_index(q.number) != 511 && !(rt == old(self).p4_frame && q == page)
                    ==> #[trigger] final(self).leaf_of(rt, q) == old(self).leaf_of(rt, q),
            forall|rt: u64, q: Page|
                old(self).has_table(rt) && old(self).level_of(rt) == 4 && page_canonical(q.number)
                    && spec_p4_index(q.number) != 511 && !(rt == old(self).p4_frame && q == page)
                    ==> #[trigger] final(self).l1_of(rt, q) == old(self).l1_of(rt, q),
            forall|rt: u64, q: Page|
                old(self).has_table(rt) && old(self).level_of(rt) == 4 && page_canonical(q.number)
                    && spec_p4_index(q.number) != 511 && !(rt == old(self).p4_frame && q == page)
                    && old(self).can_map(rt, q) ==> #[trigger] final(self).can_map(rt, q),
            forall|rt: u64, q: Page|
                old(self).has_table(rt) && old(self).level_of(rt) == 4 && page_canonical(q.number)
                    && spec_p4_index(q.number) != 511 && !(rt == old(self).p4_frame && q == page)
                    ==> #[trigger] final(self).tables_needed(rt, q) == old(self).tables_needed(
                    rt,
                    q,
                ),
    {
        proof {
            lemma_page_address(page.number);
            old(self).lemma_walk_tables(old(self).p4_frame, page);
            lemma_zero_entry();
        }
        // the page must actually be mapped before it can be unmapped
        let translated = self.translate(page.start_address());
        proof {
            assert(translated is Some);
        }
        let i4 = page.p4_index();
        let i3 = page.p3_index();
        let i2 = page.p2_index();
        let i1 = page.p1_index();
        let p4f = self.p4_frame;
        let e4 = self.read_entry(p4f, i4);
        proof {
            assert(e_link(e4));
        }
        let t3 = frame_bits(e4);
        let e3 = self.read_entry(t3, i3);
        proof {
            assert(e_link(e3));
        }
        let t2 = frame_bits(e3);
        let e2 = self.read_entry(t2, i2);
        proof {
            assert(e_link(e2));
        }
        let t1 = frame_bits(e2);
        let ghost pre = *self;
        proof {
            assert(pre.l3_of(p4f, page) == Some(t3) && pre.l2_of(p4f, page) == Some(t2)
                && pre.l1_of(p4f, page) == Some(t1));
            assert(pre.level_of(t3) == 3 && pre.level_of(t2) == 2 && pre.level_of(t1) == 1);
        }
        self.write_entry(t1, i1, None, 0);
        proof {
            let post = *self;
            lemma_leaf_write_wf(pre, post, t1, i1 as int);
            assert(post.table_at(p4f) == pre.table_at(p4f) && post.table_at(t3) == pre.table_at(t3)
                && post.table_at(t2) == pre.table_at(t2));
            assert(post.l3_of(p4f, page) == Some(t3) && post.l2_of(p4f, page) == Some(t2)
                && post.l1_of(p4f, page) == Some(t1));
            assert(post.entry(t1, i1 as int) == 0);
            assert(post.leaf_of(p4f, page) == Some(0u64));
            assert(post.spec_translate_page(p4f, page) is None);
            assert(post.can_map(p4f, page));
            assert forall|rt: u64, q: Page|
                pre.has_table(rt) && pre.level_of(rt) == 4 && page_canonical(q.number)
                    && spec_p4_index(q.number) != 511 && !(rt == p4f && q == page) implies
                #[trigger] post.spec_translate_page(rt, q) == pre.spec_translate_page(rt, q) by {
                lemma_leaf_write_preserves(pre, post, p4f, page, rt, q);
            }
            assert forall|rt: u64, q: Page|
                pre.has_table(rt) && pre.level_of(rt) == 4 && page_canonical(q.number)
                    && spec_p4_index(q.number) != 511 && !(rt == p4f && q == page) implies
                #[trigger] post.leaf_of(rt, q) == pre.leaf_of(rt, q) by {
                lemma_leaf_write_preserves(pre, post, p4f, page, rt, q);
            }
            assert forall|rt: u64, q: Page|
                pre.has_table(rt) && pre.level_of(rt) == 4 && page_canonical(q.number)
                    && spec_p4_index(q.number) != 511 && !(rt == p4f && q == page) implies
                #[trigger] post.l1_of(rt, q) == pre.l1_of(rt, q) by {
                lemma_leaf_write_preserves(pre, post, p4f, page, rt, q);
            }
            assert forall|rt: u64, q: Page|
                pre.has_table(rt) && pre.level_of(rt) == 4 && page_canonical(q.number)
                    && spec_p4_index(q.number) != 511 && !(rt == p4f && q == page)
                    && pre.can_map(rt, q) implies #[trigger] post.can_map(rt, q) by {
                lemma_leaf_write_preserves(pre, post, p4f, page, rt, q);
            }
            assert forall|rt: u64, q: Page|
                pre.has_table(rt) && pre.level_of(rt) == 4 && page_canonical(q.number)
                    && spec_p4_index(q.number) != 511 && !(rt == p4f && q == page) implies
                #[trigger] post.tables_needed(rt, q) == pre.tables_needed(rt, q) by {
                lemma_leaf_write_preserves(pre, post, p4f, page, rt, q);
            }
        }
    }

    /// Map `page` to `frame` with the given flags (plus `PRESENT`), creating
    /// the intermediate tables the walk still misses. Afterwards the page
    /// translates to exactly that frame, and no other page's translation has
    /// changed.
    pub fn map_to<A: FrameAllocator>(
        &mut self,
        page: Page,
        frame: &Frame,
        flags: EntryFlags,
        allocator: &mut A,
    )
        requires
            old(self).wf(),
            old(allocator).wf(),
            page_canonical(page.number),
            spec_p4_index(page.number) != 511,
            old(self).can_map(old(self).p4_frame, page),
            frame.number < MAX_FRAME,
            flags & ADDRESS_MASK == 0,
            old(self).tables_fresh_for(old(allocator).avail()),
            at_least(old(allocator).avail(), old(self).tables_needed(old(self).p4_frame, page)),
        ensures
            final(self).wf(),
            final(allocator).wf(),
            final(self).p4_frame == old(self).p4_frame,
            final(self).l1_of(old(self).p4_frame, page) is Some,
            final(self).leaf_of(old(self).p4_frame, page) == Some(
                entry_value(frame.number, flags | PRESENT),
            ),
            final(self).spec_translate_page(old(self).p4_frame, page) == Some(frame.number),
            forall|g: u64| #[trigger]
                old(self).has_table(g) ==> final(self).has_table(g) && final(self).level_of(g)
                    == old(self).level_of(g),
            forall|g: u64| #[trigger]
                final(self).has_table(g) ==> old(self).has_table(g) || old(
                    allocator,
                ).avail().contains(g),
            final(self).tables_fresh_for(final(allocator).avail()),
            forall|x: u64| #[trigger]
                final(allocator).avail().contains(x) ==> old(allocator).avail().contains(x),
            forall|n: int| #[trigger]
                at_least(old(allocator).avail(), n) ==> at_least(
                    final(allocator).avail(),
                    n - old(self).tables_needed(old(self).p4_frame, page),
                ),
            forall|rt: u64, q: Page|
                old(self).has_table(rt) && old(self).level_of(rt) == 4 && page_canonical(q.number)
                    && spec_p4_index(q.number) != 511 && !(rt == old(self).p4_frame && q == page)
                    ==> #[trigger] final(self).spec_translate_page(rt, q) == old(
                    self,
                ).spec_translate_page(rt, q),
            forall|rt: u64, q: Page|
                old(self).has_table(rt) && old(self).level_of(rt) == 4 && page_canonical(q.number)
                    && spec_p4_index(q.number) != 511 && !(rt == old(self).p4_frame && q == page)
                    && old(self).leaf_of(rt, q) is Some ==> #[trigger] final(self).leaf_of(rt, q)
                    == old(self).leaf_of(rt, q),
            forall|rt: u64, q: Page|
                old(self).has_table(rt) && old(self).level_of(rt) == 4 && page_canonical(q.number)
                    && spec_p4_index(q.number) != 511 && !(rt == old(self).p4_frame && q == page)
                    && old(self).l1_of(rt, q) is Some ==> #[trigger] final(self).l1_of(rt, q)
                    == old(self).l1_of(rt, q),
            forall|rt: u64, q: Page|
                old(self).has_table(rt) && old(self).level_of(rt) == 4 && page_canonical(q.number)
                    && spec_p4_index(q.number) != 511 && !(rt == old(self).p4_frame && q == page)
                    && old(self).can_map(rt, q) ==> #[trigger] final(self).can_map(rt, q),
    {
        let ghost s0 = *self;
        let ghost a0 = *allocator;
        let ghost needed = s0.tables_needed(s0.p4_frame, page);
        let i4 = page.p4_index();
        let i3 = page.p3_index();
        let i2 = page.p2_index();
        let i1 = page.p1_index();
        let p4f = self.p4_frame;
        let ghost created1 = !e_link(s0.entry(p4f, i4 as int));
        proof {
            lemma_zero_entry();
            assert(s0.p4e(p4f, page) == s0.entry(p4f, i4 as int));
            if created1 {
                assert(s0.l3_of(p4f, page) is None);
                assert(needed == 3);
                lemma_at_least_weaken(a0.avail(), 3, 1);
            } else {
                assert(s0.is_link_at(p4f, i4 as int));
                assert(s0.l3_of(p4f, page) == Some(e_frame(s0.p4e(p4f, page))));
            }
        }
        let t3 = self.next_table_create(p4f, i4, allocator);
        let ghost s1 = *self;
        let ghost a1 = *allocator;
        let ghost created2 = !e_link(s1.entry(t3, i3 as int));
        proof {
            assert(s1.level_of(t3) == 3);
            assert(s1.l3_of(p4f, page) == Some(t3)) by {
                if created1 {
                    lemma_pw_mask();
                    lemma_entry_value_frame(t3, PRESENT | WRITABLE);
                    assert(s1.p4e(p4f, page) == entry_value(t3, PRESENT | WRITABLE));
                } else {
                    assert(s1 == s0);
                }
            }
            assert(!(e_present(s1.entry(t3, i3 as int)) && e_huge(s1.entry(t3, i3 as int)))) by {
                if created1 {
                    assert(s1.table_at(t3) == zero_table());
                    assert(s1.entry(t3, i3 as int) == 0);
                } else {
                    assert(s1.p3e(p4f, page) == Some(s0.entry(t3, i3 as int)));
                }
            }
            if created2 {
                assert(at_least(a1.avail(), 1)) by {
                    if created1 {
                        assert(a1.avail() == a0.avail().remove(t3));
                        lemma_at_least_remove(a0.avail(), 3, t3);
                        lemma_at_least_weaken(a1.avail(), 2, 1);
                    } else {
                        assert(s1 == s0 && a1 == a0);
                        assert(s0.l2_of(p4f, page) is None);
                        assert(needed == 2);
                        lemma_at_least_weaken(a0.avail(), 2, 1);
                    }
                }
            }
        }
        let t2 = self.next_table_create(t3, i3, allocator);
        let ghost s2 = *self;
        let ghost a2 = *allocator;
        let ghost created3 = !e_link(s2.entry(t2, i2 as int));
        proof {
            assert(s2.level_of(t2) == 2);
            assert(s2.l3_of(p4f, page) == Some(t3)) by {
                assert(s2.level_of(p4f) == 4 && s2.level_of(t3) == 3);
                if created2 {
                    assert(p4f != t3 && p4f != t2);
                    assert(s2.table_at(p4f) == s1.table_at(p4f));
                }
            }
            assert(s2.l2_of(p4f, page) == Some(t2)) by {
                if created2 {
                    lemma_pw_mask();
                    lemma_entry_value_frame(t2, PRESENT | WRITABLE);
                    assert(s2.entry(t3, i3 as int) == entry_value(t2, PRESENT | WRITABLE));
                } else {
                    assert(s2 == s1);
                }
            }
            assert(!(e_present(s2.entry(t2, i2 as int)) && e_huge(s2.entry(t2, i2 as int)))) by {
                if created2 {
                    assert(s2.table_at(t2) == zero_table());
                    assert(s2.entry(t2, i2 as int) == 0);
                } else {
                    assert(s2 == s1);
                    if created1 {
                        assert(s1.table_at(t2) == zero_table() || t2 == t3 || t2 == p4f);
                        assert(s1.level_of(t2) == 2);
                        assert(s1.table_at(t2) == zero_table());
                        assert(s1.entry(t2, i2 as int) == 0);
                    } else {
                        assert(s0.p2e(p4f, page) == Some(s0.entry(t2, i2 as int)));
                    }
                }
            }
            if created3 {
                assert(at_least(a2.avail(), 1)) by {
                    if created2 {
                        assert(a2.avail() == a1.avail().remove(t2));
                        if created1 {
                            lemma_at_least_remove(a0.avail(), 3, t3);
                            lemma_at_least_remove(a1.avail(), 2, t2);
                        } else {
                            assert(needed == 2);
                            lemma_at_least_remove(a1.avail(), 2, t2);
                        }
                    } else {
                        assert(s2 == s1 && a2 == a1);
                        if created1 {
                            assert(s1.table_at(t2) == zero_table());
                            assert(s1.entry(t2, i2 as int) == 0);
                            assert(e_link(s1.entry(t2, i2 as int)) == false);
                            lemma_at_least_remove(a0.avail(), 3, t3);
                            lemma_at_least_weaken(a1.avail(), 2, 1);
                        } else {
                            assert(s1 == s0 && a1 == a0);
                            assert(s0.l1_of(p4f, page) is None);
                            assert(needed == 1);
                        }
                    }
                }
            }
        }
        let t1 = self.next_table_create(t2, i2, allocator);
        let ghost s3 = *self;
        let ghost a3 = *allocator;
        proof {
            assert(s3.level_of(t1) == 1);
            assert(s3.level_of(p4f) == 4 && s3.level_of(t3) == 3 && s3.level_of(t2) == 2);
            assert(s3.l3_of(p4f, page) == Some(t3)) by {
                if created3 {
                    assert(s3.table_at(p4f) == s2.table_at(p4f));
                }
            }
            assert(s3.l2_of(p4f, page) == Some(t2)) by {
                if created3 {
                    assert(s3.table_at(t3) == s2.table_at(t3));
                }
            }
            assert(s3.l1_of(p4f, page) == Some(t1)) by {
                if created3 {
                    lemma_pw_mask();
                    lemma_entry_value_frame(t1, PRESENT | WRITABLE);
                    assert(s3.entry(t2, i2 as int) == entry_value(t1, PRESENT | WRITABLE));
                } else {
                    assert(s3 == s2);
                }
            }
            assert(s3.entry(t1, i1 as int) == 0) by {
                if created3 {
                    assert(s3.table_at(t1) == zero_table());
                } else {
                    assert(s3 == s2);
                    if created2 {
                        assert(s2.table_at(t1) == zero_table());
                    } else {
                        assert(s2 == s1);
                        if created1 {
                            assert(s1.table_at(t1) == zero_table());
                        } else {
                            assert(s1 == s0);
                            assert(s0.leaf_of(p4f, page) == Some(s0.entry(t1, i1 as int)));
                        }
                    }
                }
            }
        }
        let leaf = self.read_entry(t1, i1);
        assert(leaf == 0);
        self.write_entry(t1, i1, Some(frame), flags | PRESENT);
        proof {
            let s4 = *self;
            let v = entry_value(frame.number, flags | PRESENT);
            lemma_entry_value_present(frame.number, flags);
            lemma_leaf_write_wf(s3, s4, t1, i1 as int);
            assert(s4.wf());
            // the page's own walk after the write
            assert(s4.level_of(p4f) == 4 && s4.level_of(t3) == 3 && s4.level_of(t2) == 2
                && s4.level_of(t1) == 1);
            assert(s4.table_at(p4f) == s3.table_at(p4f) && s4.table_at(t3) == s3.table_at(t3)
                && s4.table_at(t2) == s3.table_at(t2));
            assert(s4.l3_of(p4f, page) == Some(t3) && s4.l2_of(p4f, page) == Some(t2)
                && s4.l1_of(p4f, page) == Some(t1));
            assert(s4.entry(t1, i1 as int) == v);
            assert(s4.leaf_of(p4f, page) == Some(v));
            assert(s4.spec_translate_page(p4f, page) == Some(frame.number)) by {
                assert(!e_huge(s4.p3e(p4f, page)->Some_0));
                assert(!e_huge(s4.p2e(p4f, page)->Some_0));
            }
            // availability bookkeeping
            assert(a3 == *allocator);
            assert forall|n: int| #[trigger]
                at_least(a0.avail(), n) implies at_least(allocator.avail(), n - needed) by {
                if created1 {
                    lemma_at_least_remove(a0.avail(), n, t3);
                    lemma_at_least_remove(a1.avail(), n - 1, t2);
                    lemma_at_least_remove(a2.avail(), n - 2, t1);
                } else if created2 {
                    lemma_at_least_remove(a1.avail(), n, t2);
                    lemma_at_least_remove(a2.avail(), n - 1, t1);
                    assert(needed == 2);
                } else if created3 {
                    lemma_at_least_remove(a2.avail(), n, t1);
                    assert(needed == 1);
                } else {
                    assert(needed == 0);
                }
            }
            // preservation of all other pages, seen from any root
            assert forall|rt: u64, q: Page|
                s0.has_table(rt) && s0.level_of(rt) == 4 && page_canonical(q.number)
                    && spec_p4_index(q.number) != 511 && !(rt == p4f && q == page) implies
                #[trigger] s4.spec_translate_page(rt, q) == s0.spec_translate_page(rt, q) by {
                if created1 {
                    lemma_create_preserves(s0, s1, p4f, i4 as int, t3, rt, q);
                }
                if created2 {
                    lemma_create_preserves(s1, s2, t3, i3 as int, t2, rt, q);
                }
                if created3 {
                    lemma_create_preserves(s2, s3, t2, i2 as int, t1, rt, q);
                }
                lemma_leaf_write_preserves(s3, s4, p4f, page, rt, q);
            }
            assert forall|rt: u64, q: Page|
                s0.has_table(rt) && s0.level_of(rt) == 4 && page_canonical(q.number)
                    && spec_p4_index(q.number) != 511 && !(rt == p4f && q == page)
                    && s0.leaf_of(rt, q) is Some implies #[trigger] s4.leaf_of(rt, q)
                == s0.leaf_of(rt, q) by {
                if created1 {
                    lemma_create_preserves(s0, s1, p4f, i4 as int, t3, rt, q);
                }
                if created2 {
                    lemma_create_preserves(s1, s2, t3, i3 as int, t2, rt, q);
                }
                if created3 {
                    lemma_create_preserves(s2, s3, t2, i2 as int, t1, rt, q);
                }
                lemma_leaf_write_preserves(s3, s4, p4f, page, rt, q);
            }
            assert forall|rt: u64, q: Page|
                s0.has_table(rt) && s0.level_of(rt) == 4 && page_canonical(q.number)
                    && spec_p4_index(q.number) != 511 && !(rt == p4f && q == page)
                    && s0.l1_of(rt, q) is Some implies #[trigger] s4.l1_of(rt, q)
                == s0.l1_of(rt, q) by {
                if created1 {
                    lemma_create_preserves(s0, s1, p4f, i4 as int, t3, rt, q);
                }
                if created2 {
                    lemma_create_preserves(s1, s2, t3, i3 as int, t2, rt, q);
                }
                if created3 {
                    lemma_create_preserves(s2, s3, t2, i2 as int, t1, rt, q);
                }
                lemma_leaf_write_preserves(s3, s4, p4f, page, rt, q);
            }
            assert forall|rt: u64, q: Page|
                s0.has_table(rt) && s0.level_of(rt) == 4 && page_canonical(q.number)
                    && spec_p4_index(q.number) != 511 && !(rt == p4f && q == page)
                    && s0.can_map(rt, q) implies #[trigger] s4.can_map(rt, q) by {
                if created1 {
                    lemma_create_preserves(s0, s1, p4f, i4 as int, t3, rt, q);
                }
                if created2 {
                    lemma_create_preserves(s1, s2, t3, i3 as int, t2, rt, q);
                }
                if created3 {
                    lemma_create_preserves(s2, s3, t2, i2 as int, t1, rt, q);
                }
                lemma_leaf_write_preserves(s3, s4, p4f, page, rt, q);
            }
        }
    }
}

/// The 40-bit frame number stored in an entry's address bits.
fn frame_bits(e: u64) -> (r: u64)
    ensures
        r == e_frame(e),
        r < MAX_FRAME,
{
    proof {
        assert((e & ADDRESS_MASK) / 4096 == (e & ADDRESS_MASK) >> 12 && (e & ADDRESS_MASK) >> 12
            < 0x100_0000_0000) by (bit_vector);
    }
    (e & ADDRESS_MASK) / 4096
}

/// Turning an absent entry of `parent` into a link to the fresh, zeroed
/// table `child` changes no translation outside the recursive-mapping
/// region: a walk that used the entry found nothing before and now
/// dead-ends in the zeroed table.
pub proof fn lemma_create_preserves(
    pre: Mapper,
    post: Mapper,
    parent: u64,
    index: int,
    child: u64,
    root: u64,
    q: Page,
)
    requires
        pre.wf(),
        post.wf(),
        pre.has_table(parent),
        0 <= index < 512,
        2 <= pre.level_of(parent) <= 4,
        !(pre.level_of(parent) == 4 && index == 511),
        !e_present(pre.entry(parent, index)),
        !pre.has_table(child),
        child < MAX_FRAME,
        post.p4_frame == pre.p4_frame,
        forall|g: u64| #[trigger] post.has_table(g) <==> (pre.has_table(g) || g == child),
        forall|g: u64| #[trigger] pre.has_table(g) ==> post.level_of(g) == pre.level_of(g),
        post.table_at(parent) == pre.table_at(parent).update(
            index,
            entry_value(child, PRESENT | WRITABLE),
        ),
        post.table_at(child) == zero_table(),
        forall|g: u64|
            g != parent && g != child && #[trigger] pre.has_table(g) ==> post.table_at(g)
                == pre.table_at(g),
        pre.has_table(root),
        pre.level_of(root) == 4,
        page_canonical(q.number),
        spec_p4_index(q.number) != 511,
    ensures
        post.spec_translate_page(root, q) == pre.spec_translate_page(root, q),
        pre.leaf_of(root, q) is Some ==> post.leaf_of(root, q) == pre.leaf_of(root, q),
        pre.l1_of(root, q) is Some ==> post.l1_of(root, q) == pre.l1_of(root, q),
        pre.can_map(root, q) ==> post.can_map(root, q),
{
    pre.lemma_walk_tables(root, q);
    assert(post.has_table(root) && post.level_of(root) == 4);
    post.lemma_walk_tables(root, q);
    lemma_zero_entry();
    lemma_pw_mask();
    lemma_entry_value_frame(child, PRESENT | WRITABLE);
    let link = entry_value(child, PRESENT | WRITABLE);
    let p4 = root;
    let nq = q.number;
    let j4 = spec_p4_index(nq) as int;
    let j3 = spec_p3_index(nq) as int;
    let j2 = spec_p2_index(nq) as int;
    let j1 = spec_p1_index(nq) as int;
    assert(spec_p4_index(nq) < 512 && spec_p3_index(nq) < 512 && spec_p2_index(nq) < 512
        && spec_p1_index(nq) < 512) by (bit_vector);
    assert(p4 != child);
    if parent == p4 && index == j4 {
        // the walk's level-4 entry is the created link
        assert(post.p4e(root, q) == link);
        assert(post.l3_of(root, q) == Some(child));
        assert(post.p3e(root, q) == Some(0u64));
        assert(post.l2_of(root, q) is None && post.p2e(root, q) is None && post.leaf_of(root, q) is None);
        assert(pre.l3_of(root, q) is None && pre.p3e(root, q) is None && pre.leaf_of(root, q) is None);
        assert(post.spec_translate_page(root, q) is None && pre.spec_translate_page(root, q) is None);
    } else {
        assert(post.p4e(root, q) == pre.p4e(root, q));
        if !e_link(pre.p4e(root, q)) {
            assert(pre.l3_of(root, q) is None && post.l3_of(root, q) is None);
        } else {
            let t3 = e_frame(pre.p4e(root, q));
            assert(pre.is_link_at(p4, j4));
            assert(pre.has_table(t3) && t3 != child);
            assert(pre.level_of(t3) == 3 && post.level_of(t3) == 3);
            assert(pre.l3_of(root, q) == Some(t3) && post.l3_of(root, q) == Some(t3));
            if parent == t3 && index == j3 {
                // the walk's level-3 entry is the created link
                assert(post.p3e(root, q) == Some(link));
                assert(!e_present(pre.p3e(root, q)->Some_0));
                assert(post.l2_of(root, q) == Some(child));
                assert(post.p2e(root, q) == Some(0u64));
                assert(post.l1_of(root, q) is None && post.leaf_of(root, q) is None);
                assert(pre.l2_of(root, q) is None && pre.leaf_of(root, q) is None);
            } else {
                assert(post.p3e(root, q) == pre.p3e(root, q));
                let e3 = pre.p3e(root, q)->Some_0;
                if !e_link(e3) {
                    assert(pre.l2_of(root, q) is None && post.l2_of(root, q) is None);
                } else {
                    let t2 = e_frame(e3);
                    assert(pre.is_link_at(t3, j3));
                    assert(pre.has_table(t2) && t2 != child);
                    assert(pre.level_of(t2) == 2 && post.level_of(t2) == 2);
                    assert(pre.l2_of(root, q) == Some(t2) && post.l2_of(root, q) == Some(t2));
                    if parent == t2 && index == j2 {
                        // the walk's level-2 entry is the created link
                        assert(post.p2e(root, q) == Some(link));
                        assert(!e_present(pre.p2e(root, q)->Some_0));
                        assert(post.l1_of(root, q) == Some(child));
                        assert(post.leaf_of(root, q) == Some(0u64));
                        assert(pre.l1_of(root, q) is None && pre.leaf_of(root, q) is None);
                    } else {
                        assert(post.p2e(root, q) == pre.p2e(root, q));
                        let e2 = pre.p2e(root, q)->Some_0;
                        if !e_link(e2) {
                            assert(pre.l1_of(root, q) is None && post.l1_of(root, q) is None);
                        } else {
                            let t1 = e_frame(e2);
                            assert(pre.is_link_at(t2, j2));
                            assert(pre.has_table(t1) && t1 != child);
                            assert(pre.level_of(t1) == 1);
                            assert(t1 != parent);
                            assert(post.table_at(t1) == pre.table_at(t1));
                            assert(pre.l1_of(root, q) == Some(t1) && post.l1_of(root, q) == Some(t1));
                            assert(post.leaf_of(root, q) == pre.leaf_of(root, q));
                        }
                    }
                }
            }
        }
    }
}

/// Writing the leaf entry of `page` changes no other page's translation:
/// link injectivity makes the level-1 table and slot of any other page a
/// different slot.
pub proof fn lemma_leaf_write_preserves(
    pre: Mapper,
    post: Mapper,
    root: u64,
    page: Page,
    rt: u64,
    q: Page,
)
    requires
        pre.wf(),
        post.wf(),
        pre.has_table(root),
        pre.level_of(root) == 4,
        pre.l1_of(root, page) is Some,
        page_canonical(page.number),
        spec_p4_index(page.number) != 511,
        post.p4_frame == pre.p4_frame,
        forall|g: u64| #[trigger] post.has_table(g) <==> pre.has_table(g),
        forall|g: u64| #[trigger] pre.has_table(g) ==> post.level_of(g) == pre.level_of(g),
        post.table_at(pre.l1_of(root, page)->Some_0) == pre.table_at(
            pre.l1_of(root, page)->Some_0,
        ).update(
            spec_p1_index(page.number) as int,
            post.entry(pre.l1_of(root, page)->Some_0, spec_p1_index(page.number) as int),
        ),
        forall|g: u64|
            g != pre.l1_of(root, page)->Some_0 && #[trigger] pre.has_table(g) ==> post.table_at(g)
                == pre.table_at(g),
        pre.has_table(rt),
        pre.level_of(rt) == 4,
        page_canonical(q.number),
        spec_p4_index(q.number) != 511,
        !(rt == root && q == page),
    ensures
        post.spec_translate_page(rt, q) == pre.spec_translate_page(rt, q),
        post.leaf_of(rt, q) == pre.leaf_of(rt, q),
        post.l1_of(rt, q) == pre.l1_of(rt, q),
        pre.can_map(rt, q) ==> post.can_map(rt, q),
        post.tables_needed(rt, q) == pre.tables_needed(rt, q),
{
    pre.lemma_walk_tables(rt, q);
    post.lemma_walk_tables(rt, q);
    pre.lemma_walk_tables(root, page);
    let t1 = pre.l1_of(root, page)->Some_0;
    let i1 = spec_p1_index(page.number) as int;
    let p4 = root;
    let nq = q.number;
    let np = page.number;
    let j4 = spec_p4_index(nq) as int;
    let j3 = spec_p3_index(nq) as int;
    let j2 = spec_p2_index(nq) as int;
    let j1 = spec_p1_index(nq) as int;
    assert(spec_p4_index(nq) < 512 && spec_p3_index(nq) < 512 && spec_p2_index(nq) < 512
        && spec_p1_index(nq) < 512) by (bit_vector);
    // page's own walk: all links, t1 at level 1
    let i4 = spec_p4_index(np) as int;
    let i3 = spec_p3_index(np) as int;
    let i2 = spec_p2_index(np) as int;
    assert(spec_p4_index(np) < 512 && spec_p3_index(np) < 512 && spec_p2_index(np) < 512
        && spec_p1_index(np) < 512) by (bit_vector);
    let t3 = pre.l3_of(root, page)->Some_0;
    let t2 = pre.l2_of(root, page)->Some_0;
    assert(e_link(pre.p4e(root, page)) && pre.l3_of(root, page) == Some(t3));
    assert(pre.is_link_at(p4, i4) && pre.level_of(t3) == 3);
    assert(e_link(pre.p3e(root, page)->Some_0) && pre.l2_of(root, page) == Some(t2));
    assert(pre.is_link_at(t3, i3) && pre.level_of(t2) == 2);
    assert(e_link(pre.p2e(root, page)->Some_0) && pre.l1_of(root, page) == Some(t1));
    assert(pre.is_link_at(t2, i2) && pre.level_of(t1) == 1);
    // q's walk never reads t1 except possibly as its own level-1 table
    assert(rt != t1);
    assert(post.p4e(rt, q) == pre.p4e(rt, q));
    if !e_link(pre.p4e(rt, q)) {
        assert(pre.l3_of(rt, q) is None && post.l3_of(rt, q) is None);
    } else {
        let s3 = e_frame(pre.p4e(rt, q));
        assert(pre.is_link_at(rt, j4));
        assert(pre.has_table(s3) && pre.level_of(s3) == 3 && s3 != t1);
        assert(pre.l3_of(rt, q) == Some(s3) && post.l3_of(rt, q) == Some(s3));
        assert(post.p3e(rt, q) == pre.p3e(rt, q));
        let e3 = pre.p3e(rt, q)->Some_0;
        if e_link(e3) {
            let s2 = e_frame(e3);
            assert(pre.is_link_at(s3, j3));
            assert(pre.has_table(s2) && pre.level_of(s2) == 2 && s2 != t1);
            assert(pre.l2_of(rt, q) == Some(s2) && post.l2_of(rt, q) == Some(s2));
            assert(post.p2e(rt, q) == pre.p2e(rt, q));
            let e2 = pre.p2e(rt, q)->Some_0;
            if e_link(e2) {
                let s1 = e_frame(e2);
                assert(pre.is_link_at(s2, j2));
                assert(pre.has_table(s1) && pre.level_of(s1) == 1);
                assert(pre.l1_of(rt, q) == Some(s1) && post.l1_of(rt, q) == Some(s1));
                if s1 == t1 {
                    // same level-1 table: by injectivity the whole paths match
                    assert(pre.p2e(rt, q) == Some(pre.entry(s2, j2)));
                    assert(pre.child_at(s2, j2) == s1);
                    assert(pre.p2e(root, page) == Some(pre.entry(t2, i2)));
                    assert(pre.child_at(t2, i2) == t1);
                    assert(pre.child_at(s2, j2) == pre.child_at(t2, i2));
                    assert(s2 == t2 && j2 == i2);
                    assert(pre.child_at(s3, j3) == pre.child_at(t3, i3));
                    assert(s3 == t3 && j3 == i3);
                    assert(pre.child_at(rt, j4) == pre.child_at(p4, i4));
                    assert(pre.is_link_at(rt, j4) && pre.is_link_at(p4, i4));
                    assert(rt == p4 && j4 == i4);
                    if j1 == i1 {
                        crate::paging::lemma_indices_determine_page(nq, np);
                        assert(false);
                    }
                    assert(post.entry(s1, j1) == pre.entry(s1, j1));
                    assert(post.leaf_of(rt, q) == pre.leaf_of(rt, q));
                } else {
                    assert(post.table_at(s1) == pre.table_at(s1));
                    assert(post.leaf_of(rt, q) == pre.leaf_of(rt, q));
                }
            } else {
                assert(pre.l1_of(rt, q) is None && post.l1_of(rt, q) is None);
            }
        } else {
            assert(pre.l2_of(rt, q) is None && post.l2_of(rt, q) is None);
        }
    }
}

/// Adding a table that nothing links to leaves every walk unchanged.
pub proof fn lemma_add_root_preserves(pre: Mapper, post: Mapper, newf: u64, rt: u64, q: Page)
    requires
        pre.wf(),
        post.wf(),
        !pre.has_table(newf),
        forall|g: u64| #[trigger] post.has_table(g) <==> (pre.has_table(g) || g == newf),
        forall|g: u64| #[trigger] pre.has_table(g) ==> post.level_of(g) == pre.level_of(g),
        forall|g: u64|
            g != newf && #[trigger] pre.has_table(g) ==> post.table_at(g) == pre.table_at(g),
        pre.has_table(rt),
        pre.level_of(rt) == 4,
        page_canonical(q.number),
        spec_p4_index(q.number) != 511,
    ensures
        post.spec_translate_page(rt, q) == pre.spec_translate_page(rt, q),
        post.leaf_of(rt, q) == pre.leaf_of(rt, q),
        post.l1_of(rt, q) == pre.l1_of(rt, q),
        pre.can_map(rt, q) ==> post.can_map(rt, q),
        post.tables_needed(rt, q) == pre.tables_needed(rt, q),
{
    pre.lemma_walk_tables(rt, q);
    post.lemma_walk_tables(rt, q);
    let nq = q.number;
    let j4 = spec_p4_index(nq) as int;
    let j3 = spec_p3_index(nq) as int;
    let j2 = spec_p2_index(nq) as int;
    assert(spec_p4_index(nq) < 512 && spec_p3_index(nq) < 512 && spec_p2_index(nq) < 512)
        by (bit_vector);
    assert(rt != newf);
    assert(post.p4e(rt, q) == pre.p4e(rt, q));
    if !e_link(pre.p4e(rt, q)) {
        assert(pre.l3_of(rt, q) is None && post.l3_of(rt, q) is None);
    } else {
        let s3 = e_frame(pre.p4e(rt, q));
        assert(pre.is_link_at(rt, j4));
        assert(pre.has_table(s3) && s3 != newf && pre.level_of(s3) == 3);
        assert(pre.l3_of(rt, q) == Some(s3) && post.l3_of(rt, q) == Some(s3));
        assert(post.p3e(rt, q) == pre.p3e(rt, q));
        let e3 = pre.p3e(rt, q)->Some_0;
        if !e_link(e3) {
            assert(pre.l2_of(rt, q) is None && post.l2_of(rt, q) is None);
        } else {
            let s2 = e_frame(e3);
            assert(pre.is_link_at(s3, j3));
            assert(pre.has_table(s2) && s2 != newf && pre.level_of(s2) == 2);
            assert(pre.l2_of(rt, q) == Some(s2) && post.l2_of(rt, q) == Some(s2));
            assert(post.p2e(rt, q) == pre.p2e(rt, q));
            let e2 = pre.p2e(rt, q)->Some_0;
            if !e_link(e2) {
                assert(pre.l1_of(rt, q) is None && post.l1_of(rt, q) is None);
            } else {
                let s1 = e_frame(e2);
                assert(pre.is_link_at(s2, j2));
                assert(pre.has_table(s1) && s1 != newf);
                assert(pre.l1_of(rt, q) == Some(s1) && post.l1_of(rt, q) == Some(s1));
                assert(post.table_at(s1) == pre.table_at(s1));
                assert(post.leaf_of(rt, q) == pre.leaf_of(rt, q));
            }
        }
    }
}

/// A mapper stays well-formed when only its root pointer moves to another
/// stored level-4 table: every structural clause reads the store alone.
pub proof fn lemma_wf_transfer(m1: Mapper, m2: Mapper)
    requires
        m1.wf(),
        m2.tables@ == m1.tables@,
        m2.levels == m1.levels,
        m1.has_table(m2.p4_frame),
        m1.level_of(m2.p4_frame) == 4,
    ensures
        m2.wf(),
        forall|f: u64| #[trigger] m2.has_table(f) <==> m1.has_table(f),
        forall|f: u64| #[trigger] m1.has_table(f) ==> m2.table_at(f) == m1.table_at(f),
{
    assert forall|f: u64| #[trigger] m2.has_table(f) <==> m1.has_table(f) by {
        if m2.has_table(f) {
            let w = choose|w: int| 0 <= w < m2.tables@.len() && m2.tables@[w].0 == f;
            assert(m1.tables@[w].0 == f);
        }
        if m1.has_table(f) {
            let w = choose|w: int| 0 <= w < m1.tables@.len() && m1.tables@[w].0 == f;
            assert(m2.tables@[w].0 == f);
        }
    }
    assert forall|f: u64| #[trigger] m1.has_table(f) implies m2.table_at(f) == m1.table_at(f) by {
        let w1 = m1.idx_of(f);
        assert(0 <= w1 < m1.tables@.len() && m1.tables@[w1].0 == f);
        let w2 = m2.idx_of(f);
        assert(m2.has_table(f));
        assert(0 <= w2 < m2.tables@.len() && m2.tables@[w2].0 == f);
        if w1 != w2 {
            assert(m1.tables@[w2].0 == f);
            assert(false);
        }
    }
    assert forall|f: u64| #[trigger]
        m2.has_table(f) && m2.level_of(f) == 4 implies m2.entry(f, 511) == entry_value(
        f,
        PRESENT | WRITABLE,
    ) by {
        assert(m1.has_table(f));
        assert(m2.entry(f, 511) == m1.entry(f, 511));
    }
    assert forall|f: u64, i: int|
        m2.has_table(f) && 0 <= i < 512 && m2.level_of(f) == 4 implies !(e_present(
        #[trigger] m2.entry(f, i),
    ) && e_huge(m2.entry(f, i))) by {
        assert(m1.has_table(f));
        assert(m2.entry(f, i) == m1.entry(f, i));
    }
    assert forall|f: u64, i: int|
        m2.has_table(f) && 0 <= i < 512 && #[trigger] m2.is_link_at(f, i) implies m2.has_table(
        m2.child_at(f, i),
    ) && m2.level_of(m2.child_at(f, i)) == m2.level_of(f) - 1 by {
        assert(m1.has_table(f));
        assert(m2.entry(f, i) == m1.entry(f, i));
        assert(m1.is_link_at(f, i));
        assert(m1.has_table(m1.child_at(f, i)));
    }
    assert forall|f1: u64, i1: int, f2: u64, i2: int|
        m2.has_table(f1) && 0 <= i1 < 512 && #[trigger] m2.is_link_at(f1, i1) && m2.has_table(f2)
            && 0 <= i2 < 512 && #[trigger] m2.is_link_at(f2, i2) && m2.child_at(f1, i1)
            == m2.child_at(f2, i2) implies f1 == f2 && i1 == i2 by {
        assert(m1.has_table(f1) && m1.has_table(f2));
        assert(m2.entry(f1, i1) == m1.entry(f1, i1));
        assert(m2.entry(f2, i2) == m1.entry(f2, i2));
        assert(m1.is_link_at(f1, i1) && m1.is_link_at(f2, i2));
    }
    assert forall|f: u64, i: int|
        m2.has_table(f) && 0 <= i < 512 && m2.level_of(f) == 3 && e_present(
            #[trigger] m2.entry(f, i),
        ) && e_huge(m2.entry(f, i)) implies e_frame(m2.entry(f, i)) % 0x40000 == 0 by {
        assert(m1.has_table(f));
        assert(m2.entry(f, i) == m1.entry(f, i));
    }
    assert forall|f: u64, i: int|
        m2.has_table(f) && 0 <= i < 512 && m2.level_of(f) == 2 && e_present(
            #[trigger] m2.entry(f, i),
        ) && e_huge(m2.entry(f, i)) implies e_frame(m2.entry(f, i)) % 512 == 0 by {
        assert(m1.has_table(f));
        assert(m2.entry(f, i) == m1.entry(f, i));
    }
}

/// Two mappers over the same table store walk identically from any stored
/// root: the walk reads only the store.
pub proof fn lemma_store_eq(m1: Mapper, m2: Mapper, rt: u64, page: Page)
    requires
        m1.keys_distinct(),
        m1.tables@ == m2.tables@,
        m1.has_table(rt),
    ensures
        m2.has_table(rt),
        m2.spec_translate_page(rt, page) == m1.spec_translate_page(rt, page),
        m2.leaf_of(rt, page) == m1.leaf_of(rt, page),
        m2.l1_of(rt, page) == m1.l1_of(rt, page),
        m2.can_map(rt, page) == m1.can_map(rt, page),
        m2.tables_needed(rt, page) == m1.tables_needed(rt, page),
{
    assert forall|f: u64| #[trigger] m2.has_table(f) <==> m1.has_table(f) by {
        if m2.has_table(f) {
            let w = choose|w: int| 0 <= w < m2.tables@.len() && m2.tables@[w].0 == f;
            assert(m1.tables@[w].0 == f);
        }
        if m1.has_table(f) {
            let w = choose|w: int| 0 <= w < m1.tables@.len() && m1.tables@[w].0 == f;
            assert(m2.tables@[w].0 == f);
        }
    }
    assert forall|f: u64| #[trigger] m1.has_table(f) implies m2.table_at(f) == m1.table_at(f) by {
        let w1 = m1.idx_of(f);
        assert(0 <= w1 < m1.tables@.len() && m1.tables@[w1].0 == f);
        let w2 = m2.idx_of(f);
        assert(m2.has_table(f));
        assert(0 <= w2 < m2.tables@.len() && m2.tables@[w2].0 == f);
        if w1 != w2 {
            assert(m1.tables@[w2].0 == f);
            assert(false);
        }
    }
    assert(m2.p4e(rt, page) == m1.p4e(rt, page));
    if e_link(m1.p4e(rt, page)) && m1.has_table(e_frame(m1.p4e(rt, page))) {
        let t3 = e_frame(m1.p4e(rt, page));
        assert(m1.l3_of(rt, page) == Some(t3) && m2.l3_of(rt, page) == Some(t3));
        assert(m2.p3e(rt, page) == m1.p3e(rt, page));
        let e3 = m1.p3e(rt, page)->Some_0;
        if e_link(e3) && m1.has_table(e_frame(e3)) {
            let t2 = e_frame(e3);
            assert(m1.l2_of(rt, page) == Some(t2) && m2.l2_of(rt, page) == Some(t2));
            assert(m2.p2e(rt, page) == m1.p2e(rt, page));
            let e2 = m1.p2e(rt, page)->Some_0;
            if e_link(e2) && m1.has_table(e_frame(e2)) {
                let t1 = e_frame(e2);
                assert(m1.l1_of(rt, page) == Some(t1) && m2.l1_of(rt, page) == Some(t1));
                assert(m2.leaf_of(rt, page) == m1.leaf_of(rt, page));
            } else {
                assert(m1.l1_of(rt, page) is None && m2.l1_of(rt, page) is None);
            }
        } else {
            assert(m1.l2_of(rt, page) is None && m2.l2_of(rt, page) is None);
        }
    } else {
        assert(m1.l3_of(rt, page) is None && m2.l3_of(rt, page) is None);
    }
}

/// A canonical page's start address is canonical, and dividing it by the
/// page size gives the page number back.
pub proof fn lemma_page_address(n: u64)
    by (bit_vector)
    requires
        n < 0x8_0000_0000 || (0xf_fff8_0000_0000 <= n && n < 0x10_0000_0000_0000),
    ensures
        ((n * 4096) as u64) < 0x0000_8000_0000_0000 || ((n * 4096) as u64) >= 0xffff_8000_0000_0000,
        ((n * 4096) as u64) / 4096 == n,
        n * 4096 <= u64::MAX,
{
}

/// Writing any value into an entry of a level-1 table keeps the store
/// well-formed: level-1 entries carry no structural obligations.
pub proof fn lemma_leaf_write_wf(pre: Mapper, post: Mapper, t1: u64, i1: int)
    requires
        pre.wf(),
        pre.has_table(t1),
        pre.level_of(t1) == 1,
        0 <= i1 < 512,
        post.p4_frame == pre.p4_frame,
        post.levels == pre.levels,
        post.keys_distinct(),
        forall|i: int| 0 <= i < post.tables@.len() ==> (#[trigger] post.tables@[i]).1.wf(),
        forall|g: u64| #[trigger] post.has_table(g) <==> pre.has_table(g),
        post.table_at(t1) == pre.table_at(t1).update(i1, post.entry(t1, i1)),
        forall|g: u64|
            g != t1 && #[trigger] pre.has_table(g) ==> post.table_at(g) == pre.table_at(g),
    ensures
        post.wf(),
{
    assert forall|g: u64| #[trigger]
        post.has_table(g) && post.level_of(g) == 4 implies post.entry(g, 511) == entry_value(
        g,
        PRESENT | WRITABLE,
    ) by {
        assert(g != t1);
    }
    assert forall|g: u64, i: int|
        post.has_table(g) && 0 <= i < 512 && post.level_of(g) == 4 implies !(e_present(
        #[trigger] post.entry(g, i),
    ) && e_huge(post.entry(g, i))) by {
        assert(g != t1);
        assert(post.entry(g, i) == pre.entry(g, i));
    }
    assert forall|g: u64, i: int|
        post.has_table(g) && 0 <= i < 512 && #[trigger] post.is_link_at(g, i) implies
        post.has_table(post.child_at(g, i)) && post.level_of(post.child_at(g, i)) == post.level_of(
        g,
    ) - 1 by {
        assert(g != t1);
        assert(post.entry(g, i) == pre.entry(g, i));
        assert(pre.is_link_at(g, i));
    }
    assert forall|f1: u64, i1a: int, f2: u64, i2: int|
        post.has_table(f1) && 0 <= i1a < 512 && #[trigger] post.is_link_at(f1, i1a)
            && post.has_table(f2) && 0 <= i2 < 512 && #[trigger] post.is_link_at(f2, i2)
            && post.child_at(f1, i1a) == post.child_at(f2, i2) implies f1 == f2 && i1a == i2 by {
        assert(f1 != t1 && f2 != t1);
        assert(post.entry(f1, i1a) == pre.entry(f1, i1a));
        assert(post.entry(f2, i2) == pre.entry(f2, i2));
        assert(pre.is_link_at(f1, i1a) && pre.is_link_at(f2, i2));
    }
    assert forall|g: u64, i: int|
        post.has_table(g) && 0 <= i < 512 && post.level_of(g) == 3 && e_present(
            #[trigger] post.entry(g, i),
        ) && e_huge(post.entry(g, i)) implies e_frame(post.entry(g, i)) % 0x40000 == 0 by {
        assert(g != t1);
        assert(post.entry(g, i) == pre.entry(g, i));
    }
    assert forall|g: u64, i: int|
        post.has_table(g) && 0 <= i < 512 && post.level_of(g) == 2 && e_present(
            #[trigger] post.entry(g, i),
        ) && e_huge(post.entry(g, i)) implies e_frame(post.entry(g, i)) % 512 == 0 by {
        assert(g != t1);
        assert(post.entry(g, i) == pre.entry(g, i));
    }
}

/// The law of a fresh mapping: once a page translates to a frame, every
/// byte of the page translates to the matching byte of the frame.
pub proof fn lemma_translate_within_page(m: Mapper, page: Page, fr: u64, k: u64)
    requires
        page.number < MAX_PAGE,
        k < 4096,
        m.spec_translate_page(m.p4_frame, page) == Some(fr),
    ensures
        m.spec_translate(m.p4_frame, (page.number * 4096 + k) as u64) == Some(
            ((fr * 4096 + k) as u64),
        ),
{
    let n = page.number;
    assert(((n * 4096 + k) as u64) / 4096 == n && ((n * 4096 + k) as u64) % 4096 == k)
        by (bit_vector)
        requires
            n < 0x10_0000_0000_0000u64,
            k < 4096u64,
    ;
    assert(Page { number: ((n * 4096 + k) as u64) / 4096 } == page);
}

/// The present and writable bits stay out of an entry's address bits.
pub proof fn lemma_pw_mask()
    by (bit_vector)
    ensures
        (PRESENT | WRITABLE) & ADDRESS_MASK == 0,
{
}

/// A zero entry neither maps nor links.
pub proof fn lemma_zero_entry()
    ensures
        !e_present(0),
        !e_huge(0),
        !e_link(0),
{
    assert(0u64 & 0x1u64 == 0 && 0u64 & 0x80u64 == 0) by (bit_vector);
}

/// An entry built with `PRESENT` among its flags is present and carries the
/// frame it was built from when the flags stay out of the address bits.
pub proof fn lemma_entry_value_present(f: u64, flags: u64)
    requires
        f < MAX_FRAME,
        flags & ADDRESS_MASK == 0,
    ensures
        e_present(entry_value(f, flags | PRESENT)),
        e_frame(entry_value(f, flags | PRESENT)) == f,
{
    assert(((f * 4096) as u64 | (flags | 0x1u64)) & 0x1u64 != 0 && (((f * 4096) as u64 | (flags
        | 0x1u64)) & 0x000f_ffff_ffff_f000u64) >> 12 == f) by (bit_vector)
        requires
            f < 0x100_0000_0000u64,
            flags & 0x000f_ffff_ffff_f000u64 == 0,
    ;
}

/// The frame encoded by `entry_value(f, flags)` is `f` again when the flags
/// stay out of the address bits.
pub proof fn lemma_entry_value_frame(f: u64, flags: u64)
    requires
        f < MAX_FRAME,
        flags & ADDRESS_MASK == 0,
    ensures
        e_frame(entry_value(f, flags)) == f,
        e_present(entry_value(f, PRESENT | WRITABLE)),
        !e_huge(entry_value(f, PRESENT | WRITABLE)),
{
    assert((((f * 4096) as u64 | flags) & 0x000f_ffff_ffff_f000) >> 12 == f && ((f * 4096) as u64
        | (0x1u64 | 0x2u64)) & 0x1u64 != 0 && ((f * 4096) as u64 | (0x1u64 | 0x2u64)) & 0x80u64
        == 0) by (bit_vector)
        requires
            f < 0x100_0000_0000u64,
            flags & 0x000f_ffff_ffff_f000u64 == 0,
    ;
}

/// Alignment to 1 GiB implies alignment to 2 MiB, in frame numbers.
pub proof fn lemma_align_weaken(x: u64)
    requires
        x % 0x40000 == 0,
    ensures
        x % 512 == 0,
{
    assert(x % 0x40000 == 0 ==> x % 512 == 0) by (bit_vector);
}

} // verus!
