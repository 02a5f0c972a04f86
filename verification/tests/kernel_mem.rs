//! Hosted checks of the memory subsystem: address arithmetic, the frame
//! allocator's skipping, mapping and unmapping, the kernel remap's
//! permissions, stack guards, and the descriptor tables.

use kernel_mem::boot::{kernel_bounds, BootInformation, ElfSection, MemoryArea};
use kernel_mem::interrupts::gdt::{Descriptor, Gdt};
use kernel_mem::memory::area_frame_allocator::AreaFrameAllocator;
use kernel_mem::memory::stack_allocator::StackAllocator;
use kernel_mem::memory::{Frame, FrameAllocator, PAGE_SIZE};
use kernel_mem::paging::entry::{
    from_elf_section_flags, ELF_SECTION_ALLOCATED, ELF_SECTION_EXECUTABLE, ELF_SECTION_WRITABLE,
    NO_EXECUTE, PRESENT, WRITABLE,
};
use kernel_mem::paging::{remap_kernel, ActivePageTable, Page};
use kernel_mem::vga_buffer::{clear_screen, Color, ColorCode, Writer};

fn one_area_allocator(length: u64, kernel: (u64, u64), multiboot: (u64, u64)) -> AreaFrameAllocator {
    AreaFrameAllocator::new(
        kernel.0,
        kernel.1,
        multiboot.0,
        multiboot.1,
        vec![MemoryArea { base_addr: 0, length }],
    )
}

#[test]
fn page_contains_its_address() {
    // every canonical address lies within its page's 4 KiB
    for &a in &[0u64, 1, 4095, 4096, 0x200_123, 0x7fff_ffff_ffff, 0xffff_8000_0000_0000, u64::MAX]
    {
        let p = Page::containing_address(a);
        let start = p.start_address();
        assert!(start <= a);
        assert!(a - start < PAGE_SIZE);
    }
}

#[test]
fn frame_of_start_address_roundtrips() {
    for &a in &[0u64, 4096, 0xb_8000, 0x123_4567_8000] {
        let f = Frame::containing_address(a);
        let again = Frame::containing_address(f.start_address());
        assert_eq!(again, f);
    }
}

#[test]
fn page_indices_decompose_the_number() {
    let p = Page::containing_address(0xffff_8000_1234_5000);
    let n = p.start_address() / PAGE_SIZE;
    assert_eq!(p.p4_index() as u64, (n >> 27) & 0x1ff);
    assert_eq!(p.p3_index() as u64, (n >> 18) & 0x1ff);
    assert_eq!(p.p2_index() as u64, (n >> 9) & 0x1ff);
    assert_eq!(p.p1_index() as u64, n & 0x1ff);
}

#[test]
fn elf_flags_translate_to_entry_flags() {
    // allocated + writable, not executable
    let f = from_elf_section_flags(ELF_SECTION_ALLOCATED | ELF_SECTION_WRITABLE);
    assert_eq!(f, PRESENT | WRITABLE | NO_EXECUTE);
    // allocated + executable: no NO_EXECUTE bit
    let f = from_elf_section_flags(ELF_SECTION_ALLOCATED | ELF_SECTION_EXECUTABLE);
    assert_eq!(f, PRESENT);
    // nothing set: only NO_EXECUTE
    assert_eq!(from_elf_section_flags(0), NO_EXECUTE);
}

#[test]
fn area_allocator_skips_kernel_and_multiboot() {
    // memory map [0, 0x100000), kernel [0x10000, 0x20000], multiboot
    // [0x30000, 0x31000]: frames 16..=32 and 48..=49 are skipped
    let mut allocator = one_area_allocator(0x100000, (0x10000, 0x20000), (0x30000, 0x31000));
    let mut got = Vec::new();
    while let Some(f) = allocator.allocate_frame() {
        got.push(f.start_address() / PAGE_SIZE);
    }
    let mut expected: Vec<u64> = (0..16).collect();
    expected.extend(33..48);
    expected.extend(50..256);
    assert_eq!(got, expected);
}

#[test]
fn area_allocator_is_strictly_increasing_and_exhausts() {
    let mut allocator = one_area_allocator(0x40000, (0x10000, 0x20000), (0x30000, 0x31000));
    let mut last: Option<u64> = None;
    let mut count = 0u64;
    while let Some(f) = allocator.allocate_frame() {
        let n = f.start_address() / PAGE_SIZE;
        if let Some(prev) = last {
            assert!(n > prev);
        }
        assert!(!(16..=32).contains(&n), "kernel frame {n} returned");
        assert!(!(48..=49).contains(&n), "multiboot frame {n} returned");
        assert!(n < 64, "frame {n} outside the memory map");
        last = Some(n);
        count += 1;
    }
    assert_eq!(count, 64 - 17 - 2);
    // once exhausted, it stays exhausted
    assert!(allocator.allocate_frame().is_none());
}

#[test]
fn identity_translation_after_map() {
    // a 1 MiB memory area, a mapper with only its recursive slot configured
    let mut allocator = one_area_allocator(0x100000, (0x10000, 0x20000), (0x30000, 0x31000));
    let mut probe = one_area_allocator(0x100000, (0x10000, 0x20000), (0x30000, 0x31000));
    let mut table = ActivePageTable::new(Frame::containing_address(0x10000));
    let page = Page::containing_address(0x200_000);
    table.mapper.map(page, WRITABLE, &mut allocator);
    // the frame backing the page is the first frame the allocator returned
    let expected = probe.allocate_frame().unwrap();
    assert_eq!(
        table.mapper.translate(0x200_123),
        Some(expected.start_address() + 0x123)
    );
    assert_eq!(table.mapper.translate(0x200_000), Some(expected.start_address()));
    // untouched pages translate to nothing
    assert_eq!(table.mapper.translate(0x300_000), None);
}

#[test]
fn unmap_removes_the_translation() {
    let mut allocator = one_area_allocator(0x100000, (0x10000, 0x20000), (0x30000, 0x31000));
    let mut table = ActivePageTable::new(Frame::containing_address(0x10000));
    let page = Page::containing_address(0x400_000);
    let frame = allocator.allocate_frame().unwrap();
    table.mapper.map_to(page, &frame, WRITABLE, &mut allocator);
    assert!(table.mapper.translate(0x400_000).is_some());
    table.mapper.unmap(page, &mut allocator);
    assert_eq!(table.mapper.translate(0x400_000), None);
    // the slot is free again: mapping the page anew succeeds
    let frame2 = allocator.allocate_frame().unwrap();
    let start2 = frame2.start_address();
    table.mapper.map_to(page, &frame2, WRITABLE, &mut allocator);
    assert_eq!(table.mapper.translate(0x400_000), Some(start2));
}

#[test]
fn map_to_leaves_other_pages_alone() {
    let mut allocator = one_area_allocator(0x100000, (0x10000, 0x20000), (0x30000, 0x31000));
    let mut table = ActivePageTable::new(Frame::containing_address(0x10000));
    let first = Page::containing_address(0x200_000);
    table.mapper.map(first, WRITABLE, &mut allocator);
    let before = table.mapper.translate(0x200_000);
    // a second mapping in the same table leaves the first one in place
    let second = Page::containing_address(0x201_000);
    table.mapper.map(second, WRITABLE, &mut allocator);
    assert_eq!(table.mapper.translate(0x200_000), before);
    assert!(table.mapper.translate(0x201_000).is_some());
}

fn remap_fixture() -> (ActivePageTable, BootInformation, AreaFrameAllocator) {
    // two sections: executable code at [0x100000, 0x101000), writable data
    // at [0x102000, 0x103000); the boot root frame lies in the code section
    let boot_info = BootInformation {
        memory_areas: vec![MemoryArea { base_addr: 0, length: 0x400000 }],
        elf_sections: vec![
            ElfSection { addr: 0x100000, size: 0x1000, flags: ELF_SECTION_ALLOCATED | ELF_SECTION_EXECUTABLE },
            ElfSection { addr: 0x102000, size: 0x1000, flags: ELF_SECTION_ALLOCATED | ELF_SECTION_WRITABLE },
            ElfSection { addr: 0x104000, size: 0x1000, flags: ELF_SECTION_ALLOCATED | ELF_SECTION_WRITABLE },
        ],
        multiboot_start: 0x110000,
        multiboot_end: 0x111000,
    };
    let allocator = AreaFrameAllocator::new(
        0x100000,
        0x103000,
        boot_info.multiboot_start,
        boot_info.multiboot_end,
        vec![MemoryArea { base_addr: 0, length: 0x400000 }],
    );
    // the boot tables' root lives in the last (writable) kernel section
    let table = ActivePageTable::new(Frame::containing_address(0x104000));
    (table, boot_info, allocator)
}

#[test]
fn remap_enforces_writable_xor_executable() {
    let (table, boot_info, mut allocator) = remap_fixture();
    let table = remap_kernel(&mut allocator, &boot_info, table);
    // the executable section: present, not writable, executable
    let code = table.mapper.leaf_entry(Page::containing_address(0x100000)).unwrap();
    assert_eq!(code & PRESENT, PRESENT);
    assert_eq!(code & WRITABLE, 0);
    assert_eq!(code & NO_EXECUTE, 0);
    // the writable section: present, writable, not executable
    let data = table.mapper.leaf_entry(Page::containing_address(0x102000)).unwrap();
    assert_eq!(data & PRESENT, PRESENT);
    assert_eq!(data & WRITABLE, WRITABLE);
    assert_eq!(data & NO_EXECUTE, NO_EXECUTE);
    // both identity-map their own frames
    assert_eq!(table.mapper.translate(0x102_123), Some(0x102_123));
}

#[test]
fn remap_maps_vga_and_multiboot_and_guards_old_root() {
    let (table, boot_info, mut allocator) = remap_fixture();
    let old_root = 0x104000 / PAGE_SIZE;
    let table = remap_kernel(&mut allocator, &boot_info, table);
    // VGA buffer: writable
    let vga = table.mapper.leaf_entry(Page::containing_address(0xb_8000)).unwrap();
    assert_eq!(vga & (PRESENT | WRITABLE), PRESENT | WRITABLE);
    // boot information: present, read-only
    let mb = table.mapper.leaf_entry(Page::containing_address(0x110000)).unwrap();
    assert_eq!(mb & PRESENT, PRESENT);
    assert_eq!(mb & WRITABLE, 0);
    // the old root's page is the guard: not present any more
    assert_eq!(table.mapper.translate(old_root * PAGE_SIZE), None);
}

#[test]
fn stacks_are_separated_by_guard_pages() {
    let mut allocator = one_area_allocator(0x400000, (0x10000, 0x20000), (0x30000, 0x31000));
    let mut table = ActivePageTable::new(Frame::containing_address(0x10000));
    let range = Page::range_inclusive(
        Page::containing_address(0x100_0000),
        Page::containing_address(0x100_0000 + 100 * PAGE_SIZE),
    );
    let mut stacks = StackAllocator::new(range);
    let first = stacks.alloc_stack(&mut table, &mut allocator, 2).unwrap();
    let second = stacks.alloc_stack(&mut table, &mut allocator, 1).unwrap();
    // sizes are exact and tops page-aligned
    assert_eq!(first.top() - first.bottom(), 2 * PAGE_SIZE);
    assert_eq!(second.top() - second.bottom(), PAGE_SIZE);
    assert_eq!(first.top() % PAGE_SIZE, 0);
    // exactly one untranslatable guard page between the stacks
    assert!(second.bottom() >= first.top() + PAGE_SIZE);
    let guard = first.top();
    assert_eq!(table.mapper.translate(guard), None);
    // the stack pages themselves are mapped
    assert!(table.mapper.translate(first.bottom()).is_some());
    assert!(table.mapper.translate(second.bottom()).is_some());
}

#[test]
fn stack_allocation_fails_on_zero_and_exhaustion() {
    let mut allocator = one_area_allocator(0x400000, (0x10000, 0x20000), (0x30000, 0x31000));
    let mut table = ActivePageTable::new(Frame::containing_address(0x10000));
    let range = Page::range_inclusive(
        Page::containing_address(0x100_0000),
        Page::containing_address(0x100_0000 + 2 * PAGE_SIZE),
    );
    let mut stacks = StackAllocator::new(range);
    assert!(stacks.alloc_stack(&mut table, &mut allocator, 0).is_none());
    // three pages cannot hold a guard plus a three-page stack
    assert!(stacks.alloc_stack(&mut table, &mut allocator, 3).is_none());
    // but a guard plus two pages fit exactly
    assert!(stacks.alloc_stack(&mut table, &mut allocator, 2).is_some());
}

#[test]
fn gdt_indices_start_at_one_and_increase() {
    let mut gdt = Gdt::new();
    let code_selector = gdt.add_entry(Descriptor::kernel_code_segment());
    let tss_selector = gdt.add_entry(Descriptor::tss_segment(0x1234_5678_9abc));
    // entry 0 stays the null descriptor; the first selector names entry 1
    assert_eq!(code_selector.bits, 1 << 3);
    // the TSS descriptor takes two slots starting right after
    assert_eq!(tss_selector.bits, 2 << 3);
}

#[test]
fn tss_descriptor_encodes_base_and_limit() {
    let base: u64 = 0x1234_5678_9abc_def0;
    let d = Descriptor::tss_segment(base);
    match d {
        Descriptor::SystemSegment(low, high) => {
            // limit: size of the TSS minus one
            assert_eq!(low & 0xffff, 104 - 1);
            // base bits 0..24 in bits 16..40
            assert_eq!((low >> 16) & 0xff_ffff, base & 0xff_ffff);
            // base bits 24..32 in bits 56..64
            assert_eq!((low >> 56) & 0xff, (base >> 24) & 0xff);
            // type nibble: available 64-bit TSS, present
            assert_eq!((low >> 40) & 0xf, 0b1001);
            assert_eq!((low >> 47) & 1, 1);
            // high word: base bits 32..64
            assert_eq!(high, base >> 32);
        }
        Descriptor::UserSegment(_) => panic!("expected a system segment"),
    }
}

#[test]
fn kernel_code_segment_flags() {
    match Descriptor::kernel_code_segment() {
        Descriptor::UserSegment(bits) => {
            assert_eq!(bits, (1u64 << 44) | (1 << 47) | (1 << 43) | (1 << 53));
        }
        Descriptor::SystemSegment(_, _) => panic!("expected a user segment"),
    }
}

#[test]
fn vga_writer_advances_and_scrolls() {
    let color = ColorCode::new(Color::LightGreen, Color::Black);
    assert_eq!(color.bits, 0x0a);
    let mut writer = Writer::new(color);
    writer.write_byte(b'H');
    writer.write_byte(b'i');
    assert_eq!(writer.column_position, 2);
    writer.write_byte(b'\n');
    assert_eq!(writer.column_position, 0);
    writer.write_str(b"hello world");
    assert_eq!(writer.column_position, 11);
    clear_screen(&mut writer);
    assert_eq!(writer.column_position, 0);
}

#[test]
fn kernel_bounds_cover_allocated_sections() {
    let sections = vec![
        ElfSection { addr: 0x200000, size: 0x1000, flags: ELF_SECTION_ALLOCATED },
        ElfSection { addr: 0x100000, size: 0x1000, flags: ELF_SECTION_ALLOCATED | ELF_SECTION_EXECUTABLE },
        // a section that occupies no memory at run time is ignored
        ElfSection { addr: 0x50000, size: 0x9000, flags: 0 },
        ElfSection { addr: 0x180000, size: 0x100000, flags: ELF_SECTION_ALLOCATED | ELF_SECTION_WRITABLE },
    ];
    let (start, end) = kernel_bounds(&sections);
    assert_eq!(start, 0x100000);
    assert_eq!(end, 0x280000);
}

#[test]
fn map_range_backs_a_heap() {
    let mut allocator = one_area_allocator(0x400000, (0x10000, 0x20000), (0x30000, 0x31000));
    let mut table = ActivePageTable::new(Frame::containing_address(0x10000));
    let first = 0x500_000 / PAGE_SIZE;
    let last = first + 24;
    table.mapper.map_range(first, last, WRITABLE, &mut allocator);
    for k in first..=last {
        assert!(table.mapper.translate(k * PAGE_SIZE).is_some());
    }
    // one page past the range stays unmapped
    assert_eq!(table.mapper.translate((last + 1) * PAGE_SIZE), None);
}
