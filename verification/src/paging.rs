//! Four-level paging: virtual pages, page tables, and the mapper.

use vstd::prelude::*;

pub mod entry;
pub mod table;
pub mod mapper;
pub mod temporary_page;

use crate::boot::{BootInformation, ElfSection};
use crate::memory::{at_least, lemma_at_least_weaken, Frame, FrameAllocator, MAX_FRAME, PAGE_SIZE};
use crate::paging::entry::{
    e_huge, e_present, entry_value, spec_elf_flags, ADDRESS_MASK, ELF_SECTION_ALLOCATED, PRESENT,
    WRITABLE,
};
use crate::paging::mapper::{lemma_store_eq, lemma_wf_transfer, Mapper};
use crate::paging::temporary_page::TemporaryPage;

verus! {

/// Number of entries in a page table.
pub const ENTRY_COUNT: u64 = 512;

/// Upper bound (exclusive) on page numbers: virtual addresses are 64 bits
/// wide, so page numbers have 52 bits.
pub const MAX_PAGE: u64 = 0x10_0000_0000_0000;

/// Page numbers of the lower canonical half lie below this bound
/// (addresses below `2^47`).
pub const LOW_HALF_END: u64 = 0x8_0000_0000;

/// Page numbers of the higher canonical half start here
/// (addresses from `0xffff_8000_0000_0000` up).
pub const HIGH_HALF_START: u64 = 0xf_fff8_0000_0000;

/// A virtual address is canonical when bits 47..64 copy bit 46; in terms of
/// page numbers that splits the space into a low and a high half.
pub open spec fn page_canonical(number: u64) -> bool {
    number < LOW_HALF_END || (HIGH_HALF_START <= number && number < MAX_PAGE)
}

/// A virtual address whose page is canonical.
pub open spec fn address_canonical(address: u64) -> bool {
    address < 0x0000_8000_0000_0000 || address >= 0xffff_8000_0000_0000
}

/// Index into the level-4 table for this page number.
pub open spec fn spec_p4_index(number: u64) -> u64 {
    (number >> 27) & 0x1ff
}

/// Index into the level-3 table for this page number.
pub open spec fn spec_p3_index(number: u64) -> u64 {
    (number >> 18) & 0x1ff
}

/// Index into the level-2 table for this page number.
pub open spec fn spec_p2_index(number: u64) -> u64 {
    (number >> 9) & 0x1ff
}

/// Index into the level-1 table for this page number.
pub open spec fn spec_p1_index(number: u64) -> u64 {
    number & 0x1ff
}

/// The page number is canonical and outside the recursive-mapping slot, so
/// it may be mapped.
pub open spec fn page_usable(k: u64) -> bool {
    page_canonical(k) && spec_p4_index(k) != 511
}

/// The writable bit stays out of an entry's address bits.
pub proof fn lemma_writable_mask()
    by (bit_vector)
    ensures
        WRITABLE & ADDRESS_MASK == 0,
{
}

/// A page number below the low canonical half is canonical and avoids the
/// recursive-mapping slot.
pub proof fn lemma_low_page_usable(k: u64)
    by (bit_vector)
    requires
        k < 0x8_0000_0000,
    ensures
        page_canonical(k),
        spec_p4_index(k) != 511,
{
}

/// Two canonical pages with the same four table indices are the same page:
/// the indices cover bits 0..36 of the number, and canonicality forces
/// bits 36..52 to be copies of bit 35.
pub proof fn lemma_indices_determine_page(a: u64, b: u64)
    by (bit_vector)
    requires
        page_canonical(a),
        page_canonical(b),
        spec_p4_index(a) == spec_p4_index(b),
        spec_p3_index(a) == spec_p3_index(b),
        spec_p2_index(a) == spec_p2_index(b),
        spec_p1_index(a) == spec_p1_index(b),
    ensures
        a == b,
{
}

/// A 4 KiB virtual page, identified by its number; the page covers virtual
/// addresses `[number * 4096, (number + 1) * 4096)`.
#[derive(Debug, Clone, Copy, PartialEq, Eq, Structural)]
pub struct Page {
    pub number: u64,
}

impl Page {
    /// The page containing the given virtual address, which must be
    /// canonical.
    pub fn containing_address(address: u64) -> (r: Page)
        requires
            address_canonical(address),
        ensures
            r.number == address / PAGE_SIZE,
            page_canonical(r.number),
            r.number * PAGE_SIZE <= address < r.number * PAGE_SIZE + PAGE_SIZE,
    {
        proof {
            assert(page_canonical(address / 4096) && (address / 4096) * 4096 <= address
                < (address / 4096) * 4096 + 4096) by (bit_vector)
                requires address < 0x0000_8000_0000_0000 || address >= 0xffff_8000_0000_0000;
        }
        Page { number: address / PAGE_SIZE }
    }

    /// Virtual address of the first byte of this page.
    pub fn start_address(&self) -> (r: u64)
        requires
            self.number < MAX_PAGE,
        ensures
            r == self.number * PAGE_SIZE,
    {
        proof {
            let n = self.number;
            assert(n * 4096 <= u64::MAX) by (bit_vector)
                requires n < 0x10_0000_0000_0000u64;
        }
        self.number * PAGE_SIZE
    }

    /// All pages from `start` to `end`, both inclusive.
    pub fn range_inclusive(start: Page, end: Page) -> (r: PageIter)
        ensures
            r.start == start,
            r.end == end,
    {
        PageIter { start, end }
    }

    /// Index of this page's entry in the level-4 table.
    pub fn p4_index(&self) -> (r: usize)
        ensures
            r == spec_p4_index(self.number),
            r < 512,
    {
        proof {
            let n = self.number;
            assert(((n >> 27) & 0x1ff) < 512) by (bit_vector);
        }
        ((self.number >> 27) & 0x1ff) as usize
    }

    /// Index of this page's entry in the level-3 table.
    pub fn p3_index(&self) -> (r: usize)
        ensures
            r == spec_p3_index(self.number),
            r < 512,
    {
        proof {
            let n = self.number;
            assert(((n >> 18) & 0x1ff) < 512) by (bit_vector);
        }
        ((self.number >> 18) & 0x1ff) as usize
    }

    /// Index of this page's entry in the level-2 table.
    pub fn p2_index(&self) -> (r: usize)
        ensures
            r == spec_p2_index(self.number),
            r < 512,
    {
        proof {
            let n = self.number;
            assert(((n >> 9) & 0x1ff) < 512) by (bit_vector);
        }
        ((self.number >> 9) & 0x1ff) as usize
    }

    /// Index of this page's entry in the level-1 table.
    pub fn p1_index(&self) -> (r: usize)
        ensures
            r == spec_p1_index(self.number),
            r < 512,
    {
        proof {
            let n = self.number;
            assert((n & 0x1ff) < 512) by (bit_vector);
        }
        (self.number & 0x1ff) as usize
    }
}

/// Iterator over an inclusive range of pages.
#[derive(Debug, Clone, Copy)]
pub struct PageIter {
    pub start: Page,
    pub end: Page,
}

impl PageIter {
    /// The next page of the range, if any is left.
    pub fn next(&mut self) -> (r: Option<Page>)
        requires
            old(self).start.number <= MAX_PAGE,
            old(self).end.number < MAX_PAGE,
        ensures
            final(self).end == old(self).end,
            if old(self).start.number <= old(self).end.number {
                &&& r matches Some(p) && p.number == old(self).start.number
                &&& final(self).start.number == old(self).start.number + 1
            } else {
                &&& r is None
                &&& final(self).start == old(self).start
            },
    {
        if self.start.number <= self.end.number {
            let page = self.start;
            self.start.number = self.start.number + 1;
            Some(page)
        } else {
            None
        }
    }

    /// Skip `n` pages and return the one after them, advancing past it;
    /// when fewer than `n + 1` pages are left the range is exhausted.
    pub fn nth(&mut self, n: usize) -> (r: Option<Page>)
        requires
            old(self).start.number <= MAX_PAGE,
            old(self).end.number < MAX_PAGE,
        ensures
            final(self).end == old(self).end,
            if old(self).start.number + n <= old(self).end.number {
                &&& r matches Some(p) && p.number == old(self).start.number + n
                &&& final(self).start.number == old(self).start.number + n + 1
            } else {
                &&& r is None
                &&& if old(self).start.number <= old(self).end.number {
                        final(self).start.number == old(self).end.number + 1
                    } else {
                        final(self).start == old(self).start
                    }
            },
    {
        if self.start.number > self.end.number {
            None
        } else if n as u64 <= self.end.number - self.start.number {
            let p = Page { number: self.start.number + n as u64 };
            self.start.number = p.number + 1;
            Some(p)
        } else {
            self.start.number = self.end.number + 1;
            None
        }
    }
}

/// The currently loaded address space: the mapper whose root table the
/// hardware walks. Holding the one value of this type is the right to
/// mutate the live page tables.
pub struct ActivePageTable {
    pub mapper: Mapper,
}

/// An address space that is built but not loaded: only its level-4 frame.
pub struct InactivePageTable {
    pub p4_frame: Frame,
}

impl ActivePageTable {
    /// The active table over a fresh root: only the recursive slot of
    /// `p4_frame` is configured, nothing is mapped.
    pub fn new(p4_frame: Frame) -> (r: ActivePageTable)
        requires
            p4_frame.number < MAX_FRAME,
        ensures
            r.mapper.wf(),
            r.mapper.p4_frame == p4_frame.number,
            forall|g: u64| #[trigger] r.mapper.has_table(g) <==> g == p4_frame.number,
            forall|q: Page|
                page_canonical(q.number) && spec_p4_index(q.number) != 511 ==> {
                    &&& #[trigger] r.mapper.spec_translate_page(p4_frame.number, q) is None
                    &&& r.mapper.can_map(p4_frame.number, q)
                    &&& r.mapper.tables_needed(p4_frame.number, q) == 3
                },
    {
        ActivePageTable { mapper: Mapper::new(p4_frame) }
    }

    /// Load another address space: point the walk's root at the new table's
    /// frame (on hardware, a CR3 write, whose implicit TLB flush covers the
    /// change) and hand back the old root as an inactive table.
    pub fn switch(&mut self, new_table: &InactivePageTable) -> (old_table: InactivePageTable)
        requires
            old(self).mapper.wf(),
            old(self).mapper.has_table(new_table.p4_frame.number),
            old(self).mapper.level_of(new_table.p4_frame.number) == 4,
        ensures
            final(self).mapper.wf(),
            final(self).mapper.p4_frame == new_table.p4_frame.number,
            final(self).mapper.tables == old(self).mapper.tables,
            final(self).mapper.levels == old(self).mapper.levels,
            old_table.p4_frame.number == old(self).mapper.p4_frame,
    {
        let old_frame = Frame { number: self.mapper.p4_frame };
        let ghost pre = self.mapper;
        self.mapper.p4_frame = new_table.p4_frame.number;
        proof {
            crate::paging::mapper::lemma_wf_transfer(pre, self.mapper);
        }
        InactivePageTable { p4_frame: old_frame }
    }
}

impl InactivePageTable {
    /// Turn `frame` into the root of a new, empty address space: reached
    /// once through the temporary page, the table is zeroed and its
    /// recursive slot set, then the scratch mapping is removed again.
    pub fn new(
        frame: Frame,
        active_table: &mut ActivePageTable,
        temporary_page: &mut temporary_page::TemporaryPage,
    ) -> (r: InactivePageTable)
        requires
            old(active_table).mapper.wf(),
            old(temporary_page).allocator.wf(),
            frame.number < MAX_FRAME,
            !old(active_table).mapper.has_table(frame.number),
            page_canonical(old(temporary_page).page.number),
            spec_p4_index(old(temporary_page).page.number) != 511,
            old(active_table).mapper.can_map(
                old(active_table).mapper.p4_frame,
                old(temporary_page).page,
            ),
            old(active_table).mapper.tables_fresh_for(old(temporary_page).allocator.avail()),
            !old(temporary_page).allocator.avail().contains(frame.number),
            at_least(
                old(temporary_page).allocator.avail(),
                old(active_table).mapper.tables_needed(
                    old(active_table).mapper.p4_frame,
                    old(temporary_page).page,
                ),
            ),
        ensures
            r.p4_frame == frame,
            final(temporary_page).page == old(temporary_page).page,
            final(temporary_page).allocator.wf(),
            final(active_table).mapper.wf(),
            final(active_table).mapper.p4_frame == old(active_table).mapper.p4_frame,
            final(active_table).mapper.has_table(frame.number),
            final(active_table).mapper.level_of(frame.number) == 4,
            forall|g: u64| #[trigger]
                old(active_table).mapper.has_table(g) ==> final(active_table).mapper.has_table(g)
                    && final(active_table).mapper.level_of(g) == old(
                    active_table,
                ).mapper.level_of(g),
            forall|g: u64| #[trigger]
                final(active_table).mapper.has_table(g) ==> old(active_table).mapper.has_table(g)
                    || old(temporary_page).allocator.avail().contains(g) || g == frame.number,
            final(active_table).mapper.tables_fresh_for(final(temporary_page).allocator.avail()),
            forall|x: u64| #[trigger]
                final(temporary_page).allocator.avail().contains(x) ==> old(
                    temporary_page,
                ).allocator.avail().contains(x),
            // the new root is empty and accepts any mapping
            forall|q: Page|
                page_canonical(q.number) && spec_p4_index(q.number) != 511 ==> {
                    &&& #[trigger] final(active_table).mapper.spec_translate_page(
                        frame.number,
                        q,
                    ) is None
                    &&& final(active_table).mapper.can_map(frame.number, q)
                    &&& final(active_table).mapper.tables_needed(frame.number, q) == 3
                },
            // the scratch page is free again, its walk tables still in place
            final(active_table).mapper.spec_translate_page(
                old(active_table).mapper.p4_frame,
                old(temporary_page).page,
            ) is None,
            final(active_table).mapper.leaf_of(
                old(active_table).mapper.p4_frame,
                old(temporary_page).page,
            ) == Some(0u64),
            final(active_table).mapper.tables_needed(
                old(active_table).mapper.p4_frame,
                old(temporary_page).page,
            ) == 0,
            final(active_table).mapper.can_map(
                old(active_table).mapper.p4_frame,
                old(temporary_page).page,
            ),
            // every other page of every pre-existing root is untouched
            forall|rt: u64, q: Page|
                old(active_table).mapper.has_table(rt) && old(active_table).mapper.level_of(rt)
                    == 4 && page_canonical(q.number) && spec_p4_index(q.number) != 511 && !(rt
                    == old(active_table).mapper.p4_frame && q == old(temporary_page).page) ==> {
                    &&& #[trigger] final(active_table).mapper.spec_translate_page(rt, q) == old(
                        active_table,
                    ).mapper.spec_translate_page(rt, q)
                    &&& (old(active_table).mapper.leaf_of(rt, q) is Some ==> final(active_table).mapper.leaf_of(rt, q) == old(active_table).mapper.leaf_of(rt, q))
                    &&& (old(active_table).mapper.l1_of(rt, q) is Some ==> final(active_table).mapper.l1_of(rt, q) == old(active_table).mapper.l1_of(rt, q))
                    &&& (old(active_table).mapper.can_map(rt, q) ==> final(active_table).mapper.can_map(rt, q))
                },
    {
        let va = temporary_page.map(&frame, active_table);
        active_table.mapper.add_root(&frame);
        temporary_page.unmap(active_table);
        InactivePageTable { p4_frame: frame }
    }
}

/// The three mapped groups of a kernel remap, read from `root` in `m`:
/// every used section's frames carry that section's flags, the VGA frame is
/// writable, the boot information is read-only; `except` is left out.
pub open spec fn remap_groups(
    m: Mapper,
    sections: Seq<ElfSection>,
    mbf: u64,
    mbl: u64,
    root: u64,
    except: Page,
) -> bool {
    &&& forall|j: int, k: u64|
        0 <= j < sections.len() && #[trigger] in_section(sections[j], k) && Page { number: k }
            != except ==> (#[trigger] m.leaf_of(root, Page { number: k })) == Some(
            entry_value(k, spec_elf_flags(sections[j].flags) | PRESENT),
        ) && m.l1_of(root, Page { number: k }) is Some
    &&& (Page { number: 0xb8u64 } != except ==> m.leaf_of(root, Page { number: 0xb8 }) == Some(
        entry_value(0xb8, WRITABLE | PRESENT),
    ) && m.l1_of(root, Page { number: 0xb8 }) is Some)
    &&& forall|k: u64|
        mbf <= k <= mbl && Page { number: k } != except ==> (#[trigger] m.leaf_of(
            root,
            Page { number: k },
        )) == Some(entry_value(k, PRESENT | PRESENT)) && m.l1_of(root, Page { number: k }) is Some
}

/// The mapped groups survive an operation that changes no leaf outside
/// `hole`.
pub proof fn lemma_groups_preserved(
    pre: Mapper,
    post: Mapper,
    sections: Seq<ElfSection>,
    mbf: u64,
    mbl: u64,
    root: u64,
    except: Page,
    hole: Page,
)
    requires
        sections_ok(sections),
        mbl < LOW_HALF_END,
        remap_groups(pre, sections, mbf, mbl, root, except),
        forall|q: Page|
            page_canonical(q.number) && spec_p4_index(q.number) != 511 && q != hole ==> (
            #[trigger] post.leaf_of(root, q)) == pre.leaf_of(root, q) && post.l1_of(root, q)
                == pre.l1_of(root, q),
        hole == except || ((forall|j: int|
            0 <= j < sections.len() ==> !in_section(#[trigger] sections[j], hole.number)) && !(mbf
            <= hole.number <= mbl) && hole.number != 0xb8),
    ensures
        remap_groups(post, sections, mbf, mbl, root, except),
{
    assert forall|j: int, k: u64|
        0 <= j < sections.len() && #[trigger] in_section(sections[j], k) && Page { number: k }
            != except implies (#[trigger] post.leaf_of(root, Page { number: k })) == Some(
        entry_value(k, spec_elf_flags(sections[j].flags) | PRESENT),
    ) && post.l1_of(root, Page { number: k }) is Some by {
        assert(Page { number: k } != hole);
        let a = sections[j].addr;
        let sz = sections[j].size;
        assert(page_canonical(k) && spec_p4_index(k) != 511) by (bit_vector)
            requires
                a / 4096 <= k <= ((a + sz - 1) as u64) / 4096,
                a + sz <= 0x8000_0000_0000u64,
                sz > 0,
        ;
    }
    lemma_low_page_usable(0xb8u64);
    assert forall|k: u64|
        mbf <= k <= mbl && Page { number: k } != except implies (#[trigger] post.leaf_of(
        root,
        Page { number: k },
    )) == Some(entry_value(k, PRESENT | PRESENT)) && post.l1_of(root, Page { number: k })
        is Some by {
        assert(Page { number: k } != hole);
        lemma_low_page_usable(k);
    }
}

/// The mapped groups survive moving to another mapper over the same store.
pub proof fn lemma_groups_store_eq(
    pre: Mapper,
    post: Mapper,
    sections: Seq<ElfSection>,
    mbf: u64,
    mbl: u64,
    root: u64,
    except: Page,
)
    requires
        pre.keys_distinct(),
        post.tables@ == pre.tables@,
        pre.has_table(root),
        sections_ok(sections),
        mbl < LOW_HALF_END,
        remap_groups(pre, sections, mbf, mbl, root, except),
    ensures
        remap_groups(post, sections, mbf, mbl, root, except),
{
    assert forall|j: int, k: u64|
        0 <= j < sections.len() && #[trigger] in_section(sections[j], k) && Page { number: k }
            != except implies (#[trigger] post.leaf_of(root, Page { number: k })) == Some(
        entry_value(k, spec_elf_flags(sections[j].flags) | PRESENT),
    ) && post.l1_of(root, Page { number: k }) is Some by {
        lemma_store_eq(pre, post, root, Page { number: k });
    }
    lemma_store_eq(pre, post, root, Page { number: 0xb8u64 });
    assert forall|k: u64|
        mbf <= k <= mbl && Page { number: k } != except implies (#[trigger] post.leaf_of(
        root,
        Page { number: k },
    )) == Some(entry_value(k, PRESENT | PRESENT)) && post.l1_of(root, Page { number: k })
        is Some by {
        lemma_store_eq(pre, post, root, Page { number: k });
    }
}

/// The body of the remap's edit phase: identity-map every used section with
/// its flags, the VGA text buffer writable, and the boot information
/// read-only, all into the mapper's current (fresh) root.
#[verifier::rlimit(100)]
fn remap_sections<A: FrameAllocator>(
    mapper: &mut Mapper,
    boot_info: &BootInformation,
    allocator: &mut A,
)
    requires
        old(mapper).wf(),
        old(allocator).wf(),
        sections_ok(boot_info.elf_sections@),
        boot_info.multiboot_start < boot_info.multiboot_end,
        boot_info.multiboot_end <= 0x8000_0000_0000,
        forall|i: int, k: u64|
            0 <= i < boot_info.elf_sections@.len() && #[trigger] in_section(
                boot_info.elf_sections@[i],
                k,
            ) ==> !(boot_info.multiboot_start / 4096 <= k <= ((boot_info.multiboot_end - 1) as u64)
                / 4096) && k != 0xb8,
        !(boot_info.multiboot_start / 4096 <= 0xb8 <= ((boot_info.multiboot_end - 1) as u64)
            / 4096),
        forall|q: Page|
            page_canonical(q.number) && spec_p4_index(q.number) != 511 ==> #[trigger] old(
                mapper,
            ).can_map(old(mapper).p4_frame, q),
        old(mapper).tables_fresh_for(old(allocator).avail()),
        at_least(
            old(allocator).avail(),
            3 * (frames_from(boot_info.elf_sections@, 0) + 1 + (((boot_info.multiboot_end - 1)
                as u64) / 4096 + 1 - boot_info.multiboot_start / 4096)),
        ),
    ensures
        final(mapper).wf(),
        final(allocator).wf(),
        final(mapper).p4_frame == old(mapper).p4_frame,
        forall|g: u64| #[trigger]
            old(mapper).has_table(g) ==> final(mapper).has_table(g) && final(mapper).level_of(g)
                == old(mapper).level_of(g),
        final(mapper).tables_fresh_for(final(allocator).avail()),
        forall|j: int, k: u64|
            0 <= j < boot_info.elf_sections@.len() && #[trigger] in_section(
                boot_info.elf_sections@[j],
                k,
            ) ==> (#[trigger] final(mapper).leaf_of(final(mapper).p4_frame, Page { number: k }))
                == Some(
                entry_value(k, spec_elf_flags(boot_info.elf_sections@[j].flags) | PRESENT),
            ) && final(mapper).l1_of(final(mapper).p4_frame, Page { number: k }) is Some,
        final(mapper).leaf_of(final(mapper).p4_frame, Page { number: 0xb8 }) == Some(
            entry_value(0xb8, WRITABLE | PRESENT),
        ),
        final(mapper).l1_of(final(mapper).p4_frame, Page { number: 0xb8 }) is Some,
        forall|k: u64|
            boot_info.multiboot_start / 4096 <= k <= ((boot_info.multiboot_end - 1) as u64) / 4096
                ==> (#[trigger] final(mapper).leaf_of(final(mapper).p4_frame, Page { number: k }))
                == Some(entry_value(k, PRESENT | PRESENT)) && final(mapper).l1_of(
                final(mapper).p4_frame,
                Page { number: k },
            ) is Some,
        forall|rt: u64, q: Page|
            old(mapper).has_table(rt) && old(mapper).level_of(rt) == 4 && page_canonical(q.number)
                && spec_p4_index(q.number) != 511 && rt != old(mapper).p4_frame ==> {
                &&& #[trigger] final(mapper).spec_translate_page(rt, q) == old(
                    mapper,
                ).spec_translate_page(rt, q)
                &&& (old(mapper).leaf_of(rt, q) is Some ==> final(mapper).leaf_of(rt, q) == old(
                    mapper,
                ).leaf_of(rt, q))
                &&& (old(mapper).l1_of(rt, q) is Some ==> final(mapper).l1_of(rt, q) == old(
                    mapper,
                ).l1_of(rt, q))
            },
{
    let ghost sections = boot_info.elf_sections@;
    let ghost mbf = boot_info.multiboot_start / 4096;
    let ghost mbl = ((boot_info.multiboot_end - 1) as u64) / 4096;
    let ghost new_root = mapper.p4_frame;
    proof {
        lemma_frames_from_nonneg(sections, 0);
        let mbs = boot_info.multiboot_start;
        let mbe = boot_info.multiboot_end;
        assert(mbf <= mbl && mbl < LOW_HALF_END) by (bit_vector)
            requires
                mbf == mbs / 4096,
                mbl == ((mbe - 1) as u64) / 4096,
                mbs < mbe,
                mbe <= 0x8000_0000_0000u64,
        ;
    }
    let ghost s_edit = *mapper;
    let ghost a_edit = *allocator;
    // identity-map every used section with its own permissions
    let sections_len = boot_info.elf_sections.len();
    let mut si: usize = 0;
    while si < sections_len
        invariant
            (*mapper).wf(),
            allocator.wf(),
            si <= sections_len,
            sections_len == sections.len(),
            sections == boot_info.elf_sections@,
            (*mapper).p4_frame == new_root,
            sections_ok(sections),
            s_edit.has_table(new_root) && s_edit.level_of(new_root) == 4,
            sections == boot_info.elf_sections@ && mbf == boot_info.multiboot_start / 4096 && mbl
                == ((boot_info.multiboot_end - 1) as u64) / 4096,
            mbf <= mbl,
            forall|g: u64| #[trigger]
                s_edit.has_table(g) ==> (*mapper).has_table(g)
                    && (*mapper).level_of(g) == s_edit.level_of(g),
            (*mapper).tables_fresh_for(allocator.avail()),
            at_least(allocator.avail(), 3 * (frames_from(sections, si as int) + 1 + (mbl + 1
                - mbf))),
            // sections processed so far are mapped with their flags
            forall|j: int, k: u64|
                0 <= j < si && #[trigger] in_section(sections[j], k) ==> (
                #[trigger] (*mapper).leaf_of(new_root, Page { number: k })) == Some(
                    entry_value(k, spec_elf_flags(sections[j].flags) | PRESENT),
                ) && (*mapper).l1_of(new_root, Page { number: k }) is Some,
            // everything else is still free to map
            forall|q: Page|
                page_canonical(q.number) && spec_p4_index(q.number) != 511 && !(exists|j: int|
                    0 <= j < si && in_section(#[trigger] sections[j], q.number))
                    ==> #[trigger] (*mapper).can_map(new_root, q),
            // trees under other roots are untouched
            forall|rt: u64, q: Page|
                s_edit.has_table(rt) && s_edit.level_of(rt) == 4 && page_canonical(q.number)
                    && spec_p4_index(q.number) != 511 && rt != new_root ==> {
                    &&& #[trigger] (*mapper).spec_translate_page(rt, q)
                        == s_edit.spec_translate_page(rt, q)
                    &&& (s_edit.leaf_of(rt, q) is Some ==> (*mapper).leaf_of(rt, q)
                        == s_edit.leaf_of(rt, q))
                    &&& (s_edit.l1_of(rt, q) is Some ==> (*mapper).l1_of(rt, q) == s_edit.l1_of(
                        rt,
                        q,
                    ))
                },
        decreases sections_len - si,
    {
        let section = boot_info.elf_sections[si];
        if section.is_allocated() && section.size > 0 {
            proof {
                assert(section_used(sections[si as int]));
                assert(section.addr % 4096 == 0 && section.addr + section.size
                    <= 0x8000_0000_0000);
            }
            let flags = crate::paging::entry::from_elf_section_flags(section.flags);
            let first = section.start_address() / PAGE_SIZE;
            let last = (section.end_address() - 1) / PAGE_SIZE;
            let ghost sk = (*mapper);
            let ghost ak = *allocator;
            proof {
                assert(first == section_first(sections[si as int]) && last == section_last(
                    sections[si as int],
                ));
                let a = section.addr;
                let sz = section.size;
                let sf = section.flags;
                assert(first <= last && last < LOW_HALF_END) by (bit_vector)
                    requires
                        first == a / 4096,
                        last == ((a + sz - 1) as u64) / 4096,
                        a % 4096 == 0,
                        sz > 0,
                        a + sz <= 0x8000_0000_0000u64,
                ;
                assert(spec_elf_flags(sf) & ADDRESS_MASK == 0) by (bit_vector);
                assert forall|k: u64| first <= k <= last implies #[trigger] sk.can_map(
                    new_root,
                    Page { number: k },
                ) by {
                    lemma_low_page_usable(k);
                    assert(in_section(sections[si as int], k));
                    if exists|j: int| 0 <= j < si && in_section(#[trigger] sections[j], k) {
                        let j = choose|j: int| 0 <= j < si && in_section(#[trigger] sections[j], k);
                        assert(false);
                    }
                }
                assert(frames_from(sections, si as int) == (last + 1 - first) + frames_from(
                    sections,
                    si as int + 1,
                ));
                lemma_frames_from_nonneg(sections, si as int + 1);
                lemma_at_least_weaken(ak.avail(), 3 * (frames_from(sections, si as int) + 1 + (mbl
                    + 1 - mbf)), 3 * (last + 1 - first));
            }
            (*mapper).identity_map_range(first, last, flags, allocator);
            proof {
                let m = (*mapper);
                assert forall|j: int, k: u64|
                    0 <= j < si + 1 && #[trigger] in_section(sections[j], k) implies (
                #[trigger] m.leaf_of(new_root, Page { number: k })) == Some(
                    entry_value(k, spec_elf_flags(sections[j].flags) | PRESENT),
                ) && m.l1_of(new_root, Page { number: k }) is Some by {
                    lemma_low_page_usable(k);
                    if j < si {
                        if first <= k <= last {
                            assert(in_section(sections[si as int], k));
                            assert(false);
                        }
                        assert(sk.leaf_of(new_root, Page { number: k }) is Some);
                        assert(sk.l1_of(new_root, Page { number: k }) is Some);
                    }
                }
                assert forall|q: Page|
                    page_canonical(q.number) && spec_p4_index(q.number) != 511 && !(exists|j: int|
                        0 <= j < si + 1 && in_section(#[trigger] sections[j], q.number)) implies
                    #[trigger] m.can_map(new_root, q) by {
                    assert(!in_section(sections[si as int], q.number));
                    assert(!(first <= q.number <= last));
                    if exists|j: int| 0 <= j < si && in_section(#[trigger] sections[j], q.number) {
                        let j = choose|j: int|
                            0 <= j < si && in_section(#[trigger] sections[j], q.number);
                        assert(false);
                    }
                    assert(sk.can_map(new_root, q));
                }
                assert forall|rt: u64, q: Page|
                    s_edit.has_table(rt) && s_edit.level_of(rt) == 4 && page_canonical(q.number)
                        && spec_p4_index(q.number) != 511 && rt != new_root implies {
                    &&& #[trigger] m.spec_translate_page(rt, q) == s_edit.spec_translate_page(
                        rt,
                        q,
                    )
                    &&& (s_edit.leaf_of(rt, q) is Some ==> m.leaf_of(rt, q) == s_edit.leaf_of(
                        rt,
                        q,
                    ))
                    &&& (s_edit.l1_of(rt, q) is Some ==> m.l1_of(rt, q) == s_edit.l1_of(rt, q))
                } by {
                    assert(sk.has_table(rt) && sk.level_of(rt) == 4);
                    assert(m.spec_translate_page(rt, q) == sk.spec_translate_page(rt, q));
                }
                assert(at_least(allocator.avail(), 3 * (frames_from(sections, si as int + 1) + 1 + (
                mbl + 1 - mbf)))) by {
                    lemma_frames_from_nonneg(sections, si as int + 1);
                }
            }
        } else {
            proof {
                assert(!section_used(sections[si as int]));
                assert(frames_from(sections, si as int) == frames_from(sections, si as int + 1));
                assert forall|j: int, k: u64|
                    0 <= j < si + 1 && #[trigger] in_section(sections[j], k) implies (
                #[trigger] (*mapper).leaf_of(new_root, Page { number: k })) == Some(
                    entry_value(k, spec_elf_flags(sections[j].flags) | PRESENT),
                ) && (*mapper).l1_of(new_root, Page { number: k }) is Some by {
                    assert(j < si);
                }
                assert forall|q: Page|
                    page_canonical(q.number) && spec_p4_index(q.number) != 511 && !(exists|j: int|
                        0 <= j < si + 1 && in_section(#[trigger] sections[j], q.number)) implies
                    #[trigger] (*mapper).can_map(new_root, q) by {
                    if exists|j: int| 0 <= j < si && in_section(#[trigger] sections[j], q.number) {
                        let j = choose|j: int|
                            0 <= j < si && in_section(#[trigger] sections[j], q.number);
                        assert(false);
                    }
                }
            }
        }
        si = si + 1;
    }
    // identity-map the VGA text buffer, writable
    let vga_buffer_frame = Frame::containing_address(0xb_8000);
    let ghost s_vga = (*mapper);
    let ghost a_vga = *allocator;
    proof {
        let vn = vga_buffer_frame.number;
        assert(vn == 0xb8) by (bit_vector)
            requires vn == 0xb_8000u64 / 4096;
        assert(page_canonical(0xb8u64) && spec_p4_index(0xb8u64) != 511 && WRITABLE & ADDRESS_MASK
            == 0 && PRESENT & ADDRESS_MASK == 0) by (bit_vector);
        assert(s_vga.can_map(new_root, Page { number: 0xb8 })) by {
            if exists|j: int| 0 <= j < sections.len() && in_section(#[trigger] sections[j], 0xb8) {
                let j = choose|j: int|
                    0 <= j < sections.len() && in_section(#[trigger] sections[j], 0xb8);
                assert(false);
            }
        }
        lemma_at_least_weaken(a_vga.avail(), 3 * (1 + (mbl + 1 - mbf)), s_vga.tables_needed(
            new_root,
            Page { number: 0xb8 },
        ));
    }
    (*mapper).identity_map(&vga_buffer_frame, WRITABLE, allocator);
    proof {
        assert(at_least(allocator.avail(), 3 * (mbl + 1 - mbf))) by {
            assert forall|n: int| #[trigger]
                at_least(a_vga.avail(), n) implies at_least(allocator.avail(), n - 3) by {
                lemma_at_least_weaken(allocator.avail(), n - s_vga.tables_needed(
                    new_root,
                    Page { number: 0xb8 },
                ), n - 3);
            }
        }
    }
    // identity-map the boot information structure, read-only
    let mb_first = Frame::containing_address(boot_info.start_address());
    let mb_last_frame = Frame::containing_address(boot_info.end_address() - 1);
    let ghost s_mb = (*mapper);
    proof {
        assert(mb_first.number == mbf && mb_last_frame.number == mbl);
        let mbs = boot_info.multiboot_start;
        let mbe = boot_info.multiboot_end;
        assert(mbf <= mbl && mbl < LOW_HALF_END) by (bit_vector)
            requires
                mbf == mbs / 4096,
                mbl == ((mbe - 1) as u64) / 4096,
                mbs < mbe,
                mbe <= 0x8000_0000_0000u64,
        ;
        assert forall|k: u64| mbf <= k <= mbl implies #[trigger] s_mb.can_map(
            new_root,
            Page { number: k },
        ) by {
            lemma_low_page_usable(k);
            assert(k != 0xb8);
            assert(s_vga.can_map(new_root, Page { number: k })) by {
                if exists|j: int| 0 <= j < sections.len() && in_section(#[trigger] sections[j], k) {
                    let j = choose|j: int|
                        0 <= j < sections.len() && in_section(#[trigger] sections[j], k);
                    assert(false);
                }
            }
            assert(Page { number: k } != Page { number: 0xb8u64 });
        }
    }
    (*mapper).identity_map_range(mb_first.number, mb_last_frame.number, PRESENT, allocator);
    proof {
        let m3 = *mapper;
        assert((*mapper).leaf_of(new_root, Page { number: 0xb8 }) == Some(
            entry_value(0xb8, WRITABLE | PRESENT),
        ) && (*mapper).l1_of(new_root, Page { number: 0xb8 }) is Some) by {
            assert(!(mbf <= 0xb8 <= mbl));
            assert(s_mb.leaf_of(new_root, Page { number: 0xb8 }) is Some);
            assert(s_mb.l1_of(new_root, Page { number: 0xb8 }) is Some);
        }
        assert forall|j: int, k: u64|
            0 <= j < sections.len() && #[trigger] in_section(sections[j], k) implies (
        #[trigger] m3.leaf_of(new_root, Page { number: k })) == Some(
            entry_value(k, spec_elf_flags(sections[j].flags) | PRESENT),
        ) && m3.l1_of(new_root, Page { number: k }) is Some by {
            lemma_low_page_usable(k);
            assert(s_vga.leaf_of(new_root, Page { number: k }) == Some(
                entry_value(k, spec_elf_flags(sections[j].flags) | PRESENT),
            ) && s_vga.l1_of(new_root, Page { number: k }) is Some);
            assert(k != 0xb8);
            assert(Page { number: k } != Page { number: 0xb8u64 });
            assert(s_mb.leaf_of(new_root, Page { number: k }) == s_vga.leaf_of(
                new_root,
                Page { number: k },
            ));
            assert(!(mbf <= k <= mbl));
        }
    }
}

/// Replace the boot loader's page tables: build a fresh address space that
/// identity-maps every loaded ELF section with permissions derived from its
/// section flags (W^X and NX), the VGA text buffer writable, and the boot
/// information read-only; load it; and unmap the old root table's page so
/// that it becomes the kernel stack's guard page.
#[verifier::rlimit(100)]
pub fn remap_kernel<A: FrameAllocator>(
    allocator: &mut A,
    boot_info: &BootInformation,
    active_table: ActivePageTable,
) -> (r: ActivePageTable)
    requires
        active_table.mapper.wf(),
        old(allocator).wf(),
        active_table.mapper.tables_fresh_for(old(allocator).avail()),
        sections_ok(boot_info.elf_sections@),
        boot_info.multiboot_start < boot_info.multiboot_end,
        boot_info.multiboot_end <= 0x8000_0000_0000,
        forall|i: int, k: u64|
            0 <= i < boot_info.elf_sections@.len() && #[trigger] in_section(
                boot_info.elf_sections@[i],
                k,
            ) ==> !(boot_info.multiboot_start / 4096 <= k <= ((boot_info.multiboot_end - 1) as u64)
                / 4096) && k != 0xb8,
        !(boot_info.multiboot_start / 4096 <= 0xb8 <= ((boot_info.multiboot_end - 1) as u64)
            / 4096),
        active_table.mapper.can_map(active_table.mapper.p4_frame, Page { number: 0xffff_ffff }),
        forall|i: int|
            0 <= i < boot_info.elf_sections@.len() ==> !in_section(
                #[trigger] boot_info.elf_sections@[i],
                0xffff_ffff,
            ),
        !(boot_info.multiboot_start / 4096 <= 0xffff_ffff <= ((boot_info.multiboot_end - 1)
            as u64) / 4096),
        exists|i: int|
            0 <= i < boot_info.elf_sections@.len() && in_section(
                #[trigger] boot_info.elf_sections@[i],
                active_table.mapper.p4_frame,
            ),
        at_least(
            old(allocator).avail(),
            4 + 3 * (frames_from(boot_info.elf_sections@, 0) + 1 + (((boot_info.multiboot_end - 1)
                as u64) / 4096 + 1 - boot_info.multiboot_start / 4096)),
        ),
    ensures
        r.mapper.wf(),
        final(allocator).wf(),
        r.mapper.p4_frame != active_table.mapper.p4_frame,
        forall|i: int, k: u64|
            0 <= i < boot_info.elf_sections@.len() && #[trigger] in_section(
                boot_info.elf_sections@[i],
                k,
            ) && k != active_table.mapper.p4_frame ==> r.mapper.leaf_of(
                r.mapper.p4_frame,
                Page { number: k },
            ) == Some(entry_value(k, spec_elf_flags(boot_info.elf_sections@[i].flags) | PRESENT)),
        r.mapper.leaf_of(r.mapper.p4_frame, Page { number: 0xb8 }) == Some(
            entry_value(0xb8, WRITABLE | PRESENT),
        ),
        forall|k: u64|
            boot_info.multiboot_start / 4096 <= k <= ((boot_info.multiboot_end - 1) as u64) / 4096
                ==> #[trigger] r.mapper.leaf_of(r.mapper.p4_frame, Page { number: k }) == Some(
                entry_value(k, PRESENT | PRESENT),
            ),
        r.mapper.spec_translate_page(
            r.mapper.p4_frame,
            Page { number: active_table.mapper.p4_frame },
        ) is None,
{
    let ghost s_init = active_table.mapper;
    let ghost a_init = *allocator;
    let ghost boot_root = s_init.p4_frame;
    let ghost sections = boot_info.elf_sections@;
    let ghost mbf = boot_info.multiboot_start / 4096;
    let ghost mbl = ((boot_info.multiboot_end - 1) as u64) / 4096;
    let ghost total = 4 + 3 * (frames_from(sections, 0) + 1 + (mbl + 1 - mbf));
    let tp = Page { number: 0xffff_ffff };
    proof {
        assert(page_canonical(0xffff_ffffu64) && spec_p4_index(0xffff_ffffu64) != 511)
            by (bit_vector);
        lemma_frames_from_nonneg(sections, 0);
        let mbs = boot_info.multiboot_start;
        let mbe = boot_info.multiboot_end;
        assert(mbf <= mbl && mbl < LOW_HALF_END) by (bit_vector)
            requires
                mbf == mbs / 4096,
                mbl == ((mbe - 1) as u64) / 4096,
                mbs < mbe,
                mbe <= 0x8000_0000_0000u64,
        ;
        lemma_at_least_weaken(a_init.avail(), total, 3);
    }
    let mut active_table = active_table;
    let mut temporary_page = TemporaryPage::new(tp, allocator);
    let ghost tiny0 = temporary_page.allocator.avail();
    let ghost a1 = *allocator;
    let frame = match allocator.allocate_frame() {
        Some(f) => f,
        None => {
            proof {
                lemma_at_least_weaken(a1.avail(), total - 3, 1);
                let x = choose|x: u64| a1.avail().contains(x) && at_least(a1.avail().remove(x), 0);
                assert(false);
            }
            vstd::pervasive::unreached()
        },
    };
    proof {
        crate::memory::lemma_at_least_remove(a1.avail(), total - 3, frame.number);
        // the new root is no table yet, and the scratch pool cannot return it
        assert(!active_table.mapper.has_table(frame.number));
        assert(!temporary_page.allocator.avail().contains(frame.number));
        assert forall|g: u64| #[trigger]
            active_table.mapper.has_table(g) implies !temporary_page.allocator.avail().contains(
            g,
        ) by {}
        let needed = active_table.mapper.tables_needed(active_table.mapper.p4_frame, tp);
        assert(needed <= 3);
        lemma_at_least_weaken(temporary_page.allocator.avail(), 3, needed);
    }
    let ghost new_root = frame.number;
    let mut new_table = InactivePageTable::new(frame, &mut active_table, &mut temporary_page);
    let ghost m_ipt = active_table.mapper;
    // enter the edit: reach the boot root through the scratch page, then
    // redirect the walk's root at the new tree (on hardware: overwrite the
    // recursive slot and flush the TLB)
    let original_p4 = Frame { number: active_table.mapper.p4_frame };
    let _p4_table_address = temporary_page.map(&original_p4, &mut active_table);
    let ghost m1 = active_table.mapper;
    proof {
        assert(m1.has_table(new_root) && m1.level_of(new_root) == 4);
        assert(m1.spec_translate_page(boot_root, tp) is Some);
        assert(m1.l1_of(boot_root, tp) is Some);
        assert forall|q: Page|
            page_canonical(q.number) && spec_p4_index(q.number) != 511 implies #[trigger] m1.can_map(
            new_root,
            q,
        ) by {
            let probe0 = m_ipt.spec_translate_page(new_root, q);
            let probe1 = m1.spec_translate_page(new_root, q);
            assert(m_ipt.can_map(new_root, q));
            if !(new_root == m_ipt.p4_frame && q == tp) {
            }
        }
    }
    active_table.mapper.p4_frame = new_table.p4_frame.number;
    let ghost m2 = active_table.mapper;
    proof {
        lemma_wf_transfer(m1, active_table.mapper);
        assert forall|q: Page|
            page_canonical(q.number) && spec_p4_index(q.number) != 511 implies #[trigger] active_table.mapper.can_map(
            new_root,
            q,
        ) by {
            lemma_store_eq(m1, active_table.mapper, new_root, q);
        }
        assert(active_table.mapper.spec_translate_page(boot_root, tp) is Some
            && active_table.mapper.l1_of(boot_root, tp) is Some) by {
            lemma_store_eq(m1, active_table.mapper, boot_root, tp);
        }
    }
    remap_sections(&mut active_table.mapper, boot_info, allocator);
    let ghost m3 = active_table.mapper;
    let ghost guard = Page { number: boot_root };
    proof {
        assert(s_init.has_table(boot_root) && s_init.level_of(boot_root) == 4);
        assert(m_ipt.has_table(boot_root) && m_ipt.level_of(boot_root) == 4);
        assert(m1.has_table(boot_root) && m1.level_of(boot_root) == 4);
        assert(m2.has_table(boot_root) && m2.level_of(boot_root) == 4);
        assert(m2.p4_frame == new_root && boot_root != new_root);
        assert(m3.spec_translate_page(boot_root, tp) is Some && m3.l1_of(boot_root, tp)
            is Some) by {
            assert(m2.has_table(boot_root) && m2.level_of(boot_root) == 4);
            assert(boot_root != new_root && m2.p4_frame == new_root);
            assert(m2.spec_translate_page(boot_root, tp) is Some && m2.l1_of(boot_root, tp)
                is Some);
            let probe = m3.spec_translate_page(boot_root, tp);
        }
        assert(m3.has_table(new_root) && m3.level_of(new_root) == 4);
        assert(m3.has_table(boot_root) && m3.level_of(boot_root) == 4);
        assert(remap_groups(m3, sections, mbf, mbl, new_root, tp));
    }
    // leave the edit: restore the boot root (on hardware: restore the
    // recursive slot through the scratch mapping and flush the TLB again)
    active_table.mapper.p4_frame = original_p4.number;
    let ghost m4 = active_table.mapper;
    proof {
        lemma_wf_transfer(m3, m4);
        lemma_groups_store_eq(m3, m4, sections, mbf, mbl, new_root, tp);
        lemma_store_eq(m3, m4, boot_root, tp);
        assert(m4.spec_translate_page(boot_root, tp) is Some && m4.l1_of(boot_root, tp) is Some);
        assert(m4.has_table(new_root) && m4.level_of(new_root) == 4);
    }
    temporary_page.unmap(&mut active_table);
    let ghost m5 = active_table.mapper;
    proof {
        assert forall|q: Page|
            page_canonical(q.number) && spec_p4_index(q.number) != 511 && q != tp implies (
        #[trigger] m5.leaf_of(new_root, q)) == m4.leaf_of(new_root, q) && m5.l1_of(new_root, q)
            == m4.l1_of(new_root, q) by {
            let probe = m5.spec_translate_page(new_root, q);
        }
        lemma_groups_preserved(m4, m5, sections, mbf, mbl, new_root, tp, tp);
        assert(m5.has_table(new_root) && m5.level_of(new_root) == 4);
    }
    // load the new address space; the old root comes back as a handle
    let old_table = active_table.switch(&new_table);
    let ghost m6 = active_table.mapper;
    proof {
        lemma_groups_store_eq(m5, m6, sections, mbf, mbl, new_root, tp);
        lemma_guard_page_mapped(m6, sections, mbf, mbl, new_root, boot_root, tp);
    }
    let old_p4_page = Page::containing_address(old_table.p4_frame.start_address());
    proof {
        assert(old_p4_page == Page { number: boot_root });
    }
    active_table.mapper.unmap(old_p4_page, allocator);
    proof {
        let m7 = active_table.mapper;
        assert forall|q: Page|
            page_canonical(q.number) && spec_p4_index(q.number) != 511 && q != old_p4_page implies
            (#[trigger] m7.leaf_of(new_root, q)) == m6.leaf_of(new_root, q) && m7.l1_of(
            new_root,
            q,
        ) == m6.l1_of(new_root, q) by {
            let probe = m7.spec_translate_page(new_root, q);
        }
        assert(remap_groups(m6, sections, mbf, mbl, new_root, old_p4_page));
        lemma_groups_preserved(m6, m7, sections, mbf, mbl, new_root, old_p4_page, old_p4_page);
    }
    active_table
}

/// After the remap's groups are in place, the boot tables' root page is
/// mapped in the new tree through a full four-level walk, so it can be
/// unmapped to become the stack guard.
proof fn lemma_guard_page_mapped(
    m: Mapper,
    sections: Seq<ElfSection>,
    mbf: u64,
    mbl: u64,
    new_root: u64,
    boot_root: u64,
    tp: Page,
)
    requires
        m.wf(),
        sections_ok(sections),
        remap_groups(m, sections, mbf, mbl, new_root, tp),
        exists|i: int|
            0 <= i < sections.len() && in_section(#[trigger] sections[i], boot_root),
        forall|i: int| 0 <= i < sections.len() ==> !in_section(#[trigger] sections[i], tp.number),
        m.has_table(new_root),
        m.level_of(new_root) == 4,
    ensures
        boot_root < crate::paging::LOW_HALF_END,
        page_canonical(boot_root) && spec_p4_index(boot_root) != 511,
        m.spec_translate_page(new_root, Page { number: boot_root }) is Some,
        m.l1_of(new_root, Page { number: boot_root }) is Some,
{
    let i = choose|i: int| 0 <= i < sections.len() && in_section(#[trigger] sections[i], boot_root);
    let a = sections[i].addr;
    let sz = sections[i].size;
    let b = boot_root;
    assert(b < 0x8_0000_0000 && b < 0x100_0000_0000) by (bit_vector)
        requires
            a / 4096 <= b <= ((a + sz - 1) as u64) / 4096,
            a + sz <= 0x8000_0000_0000u64,
            sz > 0,
    ;
    assert(page_canonical(b) && spec_p4_index(b) != 511) by (bit_vector)
        requires b < 0x8_0000_0000u64;
    let pg = Page { number: boot_root };
    assert(pg != tp);
    assert(m.leaf_of(new_root, pg) == Some(
        entry_value(boot_root, spec_elf_flags(sections[i].flags) | PRESENT),
    ) && m.l1_of(new_root, pg) is Some);
    let fl = sections[i].flags;
    assert(spec_elf_flags(fl) & ADDRESS_MASK == 0) by (bit_vector);
    crate::paging::mapper::lemma_entry_value_present(boot_root, spec_elf_flags(fl));
    assert(e_present(m.leaf_of(new_root, pg)->Some_0));
    assert(m.l2_of(new_root, pg) is Some && m.l3_of(new_root, pg) is Some);
    assert(!e_huge(m.p3e(new_root, pg)->Some_0) && !e_huge(m.p2e(new_root, pg)->Some_0));
    assert(m.spec_translate_page(new_root, pg) is Some);
}

/// A well-formed section never identity-maps a negative number of frames.
pub proof fn lemma_frames_from_nonneg(sections: Seq<ElfSection>, i: int)
    requires
        sections_ok(sections),
    ensures
        frames_from(sections, i) >= 0,
    decreases sections.len() - i,
{
    if 0 <= i < sections.len() {
        lemma_frames_from_nonneg(sections, i + 1);
        if section_used(sections[i]) {
            let a = sections[i].addr;
            let sz = sections[i].size;
            assert(a / 4096 <= ((a + sz - 1) as u64) / 4096) by (bit_vector)
                requires
                    sz > 0,
                    a + sz <= 0x8000_0000_0000u64,
            ;
        }
    }
}

/// The section occupies memory at run time and is not empty.
pub open spec fn section_used(s: ElfSection) -> bool {
    s.flags & ELF_SECTION_ALLOCATED != 0 && s.size > 0
}

/// First frame of the section's identity mapping.
pub open spec fn section_first(s: ElfSection) -> u64 {
    s.addr / 4096
}

/// Last frame of the section's identity mapping.
pub open spec fn section_last(s: ElfSection) -> u64 {
    ((s.addr + s.size - 1) as u64) / 4096
}

/// Frame `k` belongs to the section's identity mapping.
pub open spec fn in_section(s: ElfSection, k: u64) -> bool {
    section_used(s) && section_first(s) <= k <= section_last(s)
}

/// The sections a kernel remap accepts: used sections are page-aligned, lie
/// in the low 47-bit address range, and no two of them share a frame.
pub open spec fn sections_ok(sections: Seq<ElfSection>) -> bool {
    &&& forall|i: int|
        0 <= i < sections.len() && section_used(#[trigger] sections[i]) ==> sections[i].addr % 4096
            == 0 && sections[i].addr + sections[i].size <= 0x8000_0000_0000
    &&& forall|i: int, j: int, k: u64|
        0 <= i < j < sections.len() ==> !(#[trigger] in_section(sections[i], k)
            && #[trigger] in_section(sections[j], k))
}

/// Frames the sections from index `i` on will identity-map.
pub open spec fn frames_from(sections: Seq<ElfSection>, i: int) -> int
    decreases sections.len() - i,
{
    if i < 0 || i >= sections.len() {
        0
    } else {
        (if section_used(sections[i]) {
            section_last(sections[i]) - section_first(sections[i]) + 1
        } else {
            0
        }) + frames_from(sections, i + 1)
    }
}

} // verus!
