use hypervisor_bootloader::copy::copy_page_table;
use hypervisor_bootloader::descriptor::{
    create_attributes_for_stage_1, create_attributes_for_stage_2, extract_output_address,
    is_block_descriptor, is_descriptor_table_or_level_3_descriptor, PAGE_DESCRIPTORS_CONTIGUOUS,
    PAGE_DESCRIPTORS_NT,
};
use hypervisor_bootloader::dump::{dump_page_table, DumpKind};
use hypervisor_bootloader::mapping::MapCursor;
use hypervisor_bootloader::memory::{FramePool, PhysicalMemory};
use hypervisor_bootloader::paging::{
    map_address, map_address_recursive, map_address_recursive_stage2,
    map_dummy_page_into_vttbr_el2, Machine,
};
use hypervisor_bootloader::registers::{
    calculate_number_of_concatenated_page_tables, get_initial_page_table_level_and_bits_to_shift,
    get_suitable_memory_attribute_index_from_mair_el2, SystemRegisters, TTBR,
};
use hypervisor_bootloader::stage2::setup_stage_2_translation;
use hypervisor_bootloader::table_alloc::{
    allocate_page_table_for_stage_1, allocate_page_table_for_stage_2,
};
use hypervisor_bootloader::walk::{find_leaf, leaf_output_address};

const MEMORY_BASE: u64 = 0x8000_0000;
const ROOT: u64 = 0x8000_0000;
const POOL: u64 = 0x8000_1000;
const MAIR: u64 = 0xff00;
const TCR_T0SZ_25: u64 = 25;

fn registers() -> SystemRegisters {
    SystemRegisters {
        tcr_el2: TCR_T0SZ_25,
        ttbr0_el2: ROOT,
        mair_el2: MAIR,
        vtcr_el2: 0,
        vttbr_el2: 0,
        id_aa64mmfr0_el1: 5,
    }
}

fn machine(pages: u64) -> Machine {
    Machine {
        registers: registers(),
        memory: PhysicalMemory::new(MEMORY_BASE, (pages as usize + 1) * 512),
        allocator: FramePool::new(POOL, pages).unwrap(),
    }
}

fn stage_1_leaf(m: &Machine, va: u64) -> Option<(i8, u64)> {
    find_leaf(&m.memory, ROOT, 1, 1, va)
}

#[test]
fn two_mebibytes_become_one_block() {
    let mut m = machine(8);
    assert_eq!(map_address(&mut m, 0x4000_0000, 0x4000_0000, 0x20_0000, true, true, false, false), Ok(()));
    assert_eq!(m.allocator.next, POOL + 0x1000);
    assert_eq!(m.allocator.remaining, 7);
    assert_eq!(m.memory.read(ROOT + 8), Some(POOL | 0b11));
    let block = m.memory.read(POOL).unwrap();
    assert!(is_block_descriptor(block));
    assert_eq!(block, 0x4000_0000 | create_attributes_for_stage_1(0b011, 1, true));
    assert_eq!(block, 0x4000_0000 | 0x0040_0000_0001_0745);
    for index in 1..512u64 {
        assert_eq!(m.memory.read(POOL + 8 * index), Some(0));
    }
    assert_eq!(stage_1_leaf(&m, 0x4010_0000), Some((2, block)));
    assert_eq!(leaf_output_address(2, block, 0x4010_0123), 0x4010_0123);
    assert_eq!(m.registers.tcr_el2, TCR_T0SZ_25);
}

#[test]
fn page_in_a_block_splits_the_block() {
    let mut m = machine(8);
    map_address(&mut m, 0x4000_0000, 0x4000_0000, 0x20_0000, true, true, false, false).unwrap();
    let block = m.memory.read(POOL).unwrap();
    assert_eq!(map_address(&mut m, 0x9000_0000, 0x4000_1000, 0x1000, true, false, true, true), Ok(()));
    let table = POOL + 0x1000;
    assert_eq!(m.allocator.next, POOL + 0x2000);
    assert_eq!(m.memory.read(POOL), Some(table | 0b11));
    let kept = ((block ^ 0x4000_0000) | 0b11) & !PAGE_DESCRIPTORS_NT;
    assert_eq!(kept, create_attributes_for_stage_1(0b011, 1, false));
    assert_ne!(block & PAGE_DESCRIPTORS_NT, 0);
    for index in 0..512u64 {
        let entry = m.memory.read(table + 8 * index).unwrap();
        if index == 1 {
            assert_eq!(entry, 0x9000_0000 | create_attributes_for_stage_1(0b101, 0, false));
        } else {
            assert_eq!(entry, (0x4000_0000 + index * 0x1000) | kept);
            assert!(is_descriptor_table_or_level_3_descriptor(entry));
        }
    }
    let (level, leaf) = stage_1_leaf(&m, 0x4000_1000).unwrap();
    assert_eq!(level, 3);
    assert_eq!(leaf_output_address(level, leaf, 0x4000_1008), 0x9000_0008);
    let (level, leaf) = stage_1_leaf(&m, 0x4000_2000).unwrap();
    assert_eq!(leaf_output_address(level, leaf, 0x4000_2000), 0x4000_2000);
}

#[test]
fn device_range_reads_back() {
    let mut m = machine(8);
    assert_eq!(map_address(&mut m, 0x4000_0000, 0x4000_0000, 0x10_0000, true, true, false, true), Ok(()));
    let mut va = 0x4000_0000u64;
    while va < 0x4010_0000 {
        let (level, leaf) = stage_1_leaf(&m, va).unwrap();
        assert_eq!(level, 3);
        assert_eq!(leaf_output_address(level, leaf, va + 0x10), va + 0x10);
        assert_eq!((leaf >> 2) & 0b111, 0);
        assert_eq!(leaf, va | create_attributes_for_stage_1(0b011, 0, false));
        va += 0x1000;
    }
    assert_eq!(stage_1_leaf(&m, 0x4010_0000), None);
    assert_eq!(stage_1_leaf(&m, 0x3fff_f000), None);
    assert_eq!(m.allocator.remaining, 6);
}

#[test]
fn size_is_rounded_up_to_pages() {
    let mut m = machine(8);
    assert_eq!(map_address(&mut m, 0x5000_0000, 0x1000, 0x1001, true, false, false, false), Ok(()));
    assert!(stage_1_leaf(&m, 0x1000).is_some());
    assert!(stage_1_leaf(&m, 0x2000).is_some());
    assert_eq!(stage_1_leaf(&m, 0x3000), None);
    assert_eq!(stage_1_leaf(&m, 0x0), None);
    let mut m = machine(8);
    assert_eq!(map_address(&mut m, 0x5000_0000, 0x1000, 0, true, false, false, false), Ok(()));
    assert_eq!(m.allocator.remaining, 8);
}

#[test]
fn map_address_rejects_what_it_cannot_map() {
    let mut m = machine(8);
    assert_eq!(map_address(&mut m, 0x4000_0800, 0x4000_0000, 0x1000, true, true, false, false), Err(()));
    assert_eq!(m.allocator.remaining, 8);
    let mut m = machine(8);
    m.registers.mair_el2 = 0x4444_4444_4444_4444;
    assert_eq!(map_address(&mut m, 0x4000_0000, 0x4000_0000, 0x1000, true, true, false, false), Err(()));
    let mut m = machine(1);
    assert_eq!(map_address(&mut m, 0x4000_0000, 0x4000_0000, 0x1000, true, true, false, false), Err(()));
    assert_eq!(m.allocator.remaining, 0);
    let mut m = machine(8);
    m.registers.ttbr0_el2 = 0x10_0000;
    assert_eq!(map_address(&mut m, 0x4000_0000, 0x4000_0000, 0x1000, true, true, false, false), Err(()));
    let mut m = machine(8);
    assert_eq!(map_address(&mut m, 0xffff_ffff_ffff_f000, 0x1000, 0x2000, true, true, false, false), Err(()));
}

#[test]
fn t0sz_is_widened_to_reach_the_range() {
    let mut m = machine(8);
    m.registers.tcr_el2 = 0x8000_0000 | 30;
    assert_eq!(map_address(&mut m, 0x4000_0000, 0x4_0000_0000, 0x1000, true, true, false, false), Ok(()));
    assert_eq!(m.registers.tcr_el2, 0x8000_0000 | 29);
    assert!(stage_1_leaf(&m, 0x4_0000_0000).is_some());
    assert_eq!(map_address(&mut m, 0x4000_0000, 0x1000, 0x1000, true, true, false, false), Ok(()));
    assert_eq!(m.registers.tcr_el2, 0x8000_0000 | 29);
}

#[test]
fn unfinished_descent_is_an_error() {
    let mut memory = PhysicalMemory::new(MEMORY_BASE, 8 * 512);
    let mut pool = FramePool::new(POOL, 4).unwrap();
    let mut cursor = MapCursor {
        physical_address: 0x4000_0000,
        virtual_address: 0x1f_f000,
        remaining_pages: 2,
    };
    assert_eq!(map_address_recursive(&mut memory, &mut pool, &mut cursor, ROOT, 3, 0b111, 1, 25), Ok(()));
    assert_eq!(cursor.remaining_pages, 1);
    assert_eq!(cursor.virtual_address, 0x20_0000);
    assert_eq!(cursor.physical_address, 0x4000_1000);
    assert_eq!(memory.read(ROOT + 8 * 511), Some(0x4000_0000 | create_attributes_for_stage_1(0b111, 1, false)));
}

#[test]
fn clone_has_the_same_leaves_in_frames_of_its_own() {
    let mut m = machine(16);
    map_address(&mut m, 0x5000_0000, 0x1000, 0x3000, true, true, false, false).unwrap();
    map_address(&mut m, 0x4000_0000, 0x4000_0000, 0x20_0000, true, false, true, false).unwrap();
    let used = m.allocator.next;
    let clone = copy_page_table(&mut m).unwrap();
    assert_eq!(clone, used);
    assert_eq!(m.allocator.next, used + 4 * 0x1000);
    for va in [0x0u64, 0x1000, 0x2000, 0x3000, 0x4000, 0x4000_0000, 0x401f_f000, 0x4020_0000] {
        assert_eq!(find_leaf(&m.memory, clone, 1, 1, va), find_leaf(&m.memory, ROOT, 1, 1, va));
    }
    for index in 0..512u64 {
        let source = m.memory.read(ROOT + 8 * index).unwrap();
        let copied = m.memory.read(clone + 8 * index).unwrap();
        if is_descriptor_table_or_level_3_descriptor(source) {
            assert_ne!(copied, source);
            assert_eq!(
                copied ^ extract_output_address(copied, 0x1000),
                source ^ extract_output_address(source, 0x1000)
            );
            assert!(extract_output_address(copied, 0x1000) > clone);
        } else {
            assert_eq!(copied, source);
        }
    }
}

#[test]
fn changing_the_clone_leaves_the_source() {
    let mut m = machine(16);
    map_address(&mut m, 0x5000_0000, 0x1000, 0x1000, true, true, false, false).unwrap();
    let before = stage_1_leaf(&m, 0x1000).unwrap();
    let clone = copy_page_table(&mut m).unwrap();
    let level_2 = extract_output_address(m.memory.read(clone).unwrap(), 0x1000);
    let level_3 = extract_output_address(m.memory.read(level_2).unwrap(), 0x1000);
    assert_eq!(m.memory.read(level_3 + 8), Some(before.1));
    m.memory.write_entry(level_3, 1, 0);
    assert_eq!(find_leaf(&m.memory, clone, 1, 1, 0x1000), None);
    assert_eq!(stage_1_leaf(&m, 0x1000), Some(before));
}

#[test]
fn copy_fails_without_frames() {
    let mut m = machine(3);
    map_address(&mut m, 0x5000_0000, 0x1000, 0x1000, true, true, false, false).unwrap();
    assert_eq!(m.allocator.remaining, 1);
    assert_eq!(copy_page_table(&mut m), Err(()));
    let mut m = machine(3);
    m.registers.ttbr0_el2 = 0x1000;
    assert_eq!(copy_page_table(&mut m), Err(()));
}

fn stage_2_machine() -> Machine {
    Machine {
        registers: registers(),
        memory: PhysicalMemory::new(MEMORY_BASE, 1040 * 512),
        allocator: FramePool::new(POOL, 1036).unwrap(),
    }
}

fn stage_2_leaf(m: &Machine, ipa: u64) -> Option<(i8, u64)> {
    find_leaf(&m.memory, TTBR::new(m.registers.vttbr_el2).get_base_address(), 1, 2, ipa)
}

#[test]
fn stage_2_maps_a_tebibyte_onto_itself() {
    let mut m = stage_2_machine();
    assert_eq!(setup_stage_2_translation(&mut m), Ok(()));
    assert_eq!(m.registers.vtcr_el2, 0x9e02_3558);
    assert_eq!(m.registers.vttbr_el2, POOL + 0x3000);
    assert_eq!(m.allocator.next, POOL + 0x3000 + 1026 * 0x1000);
    let attributes = create_attributes_for_stage_2(0b111, false, false, true);
    assert_eq!(attributes, 0x1_07fd);
    for ipa in [0u64, 0x1f_ffff, 0x20_0000, 0x1234_5678, 0x80_0000_0000, 0xff_ffff_ffff] {
        let (level, leaf) = stage_2_leaf(&m, ipa).unwrap();
        assert_eq!(level, 2);
        assert_eq!(leaf, (ipa & !0x1f_ffff) | attributes);
        assert_eq!(leaf_output_address(level, leaf, ipa), ipa);
    }
}

#[test]
fn stage_2_setup_needs_its_frames() {
    let mut m = stage_2_machine();
    m.allocator = FramePool::new(POOL, 100).unwrap();
    let vtcr = m.registers.vtcr_el2;
    assert_eq!(setup_stage_2_translation(&mut m), Err(()));
    assert_eq!(m.registers.vtcr_el2, vtcr);
    assert_eq!(m.allocator.remaining, 0);
}

#[test]
fn dummy_pages_all_lead_to_one_frame() {
    let mut m = stage_2_machine();
    setup_stage_2_translation(&mut m).unwrap();
    let dummy = 0x9000_0000u64;
    assert_eq!(map_dummy_page_into_vttbr_el2(&mut m, 0x4000_1000, 0x3000, dummy), Ok(()));
    let page = dummy | create_attributes_for_stage_2(0b111, true, false, false);
    for ipa in [0x4000_1000u64, 0x4000_2000, 0x4000_3fff] {
        let (level, leaf) = stage_2_leaf(&m, ipa).unwrap();
        assert_eq!(level, 3);
        assert!(!is_block_descriptor(leaf));
        assert_eq!(leaf, page);
        assert_eq!(extract_output_address(leaf, 0x1000), dummy);
    }
    for ipa in [0x4000_0000u64, 0x4000_4000, 0x401f_f000] {
        let (level, leaf) = stage_2_leaf(&m, ipa).unwrap();
        assert_eq!(level, 3);
        assert_eq!(leaf_output_address(level, leaf, ipa), ipa);
        assert_eq!(leaf, (ipa & !0xfff) | create_attributes_for_stage_2(0b111, false, false, false));
    }
    let (level, _) = stage_2_leaf(&m, 0x4020_0000).unwrap();
    assert_eq!(level, 2);
}

#[test]
fn dummy_mapping_checks_its_range() {
    let mut m = stage_2_machine();
    setup_stage_2_translation(&mut m).unwrap();
    assert_eq!(map_dummy_page_into_vttbr_el2(&mut m, 0x4000_0000, 0x800, 0x9000_0000), Err(()));
    assert_eq!(map_dummy_page_into_vttbr_el2(&mut m, 0xff_ffff_f000, 0x2000, 0x9000_0000), Err(()));
    assert_eq!(map_dummy_page_into_vttbr_el2(&mut m, u64::MAX - 0xfff, 0x2000, 0x9000_0000), Err(()));
    m.registers.vtcr_el2 = 0x40;
    assert_eq!(map_dummy_page_into_vttbr_el2(&mut m, 0x4000_0000, 0x1000, 0x9000_0000), Err(()));
}

fn stage_2_pages(va: u64, pages: u64) -> PhysicalMemory {
    let mut memory = PhysicalMemory::new(MEMORY_BASE, 8 * 512);
    let mut pool = FramePool::new(POOL, 4).unwrap();
    let mut cursor = MapCursor { physical_address: 0x4000_0000 + va, virtual_address: va, remaining_pages: pages };
    assert_eq!(
        map_address_recursive_stage2(&mut memory, &mut pool, &mut cursor, ROOT, 3, false, 0b111, 1, 24, false),
        Ok(())
    );
    assert_eq!(cursor.remaining_pages, 0);
    memory
}

#[test]
fn contiguous_bit_marks_whole_groups_only() {
    let memory = stage_2_pages(0x1_0000, 16);
    for index in 16..32u64 {
        let entry = memory.read(ROOT + 8 * index).unwrap();
        assert_eq!(entry & PAGE_DESCRIPTORS_CONTIGUOUS != 0, index == 16);
        assert_eq!(extract_output_address(entry, 0x1000), 0x4000_0000 + index * 0x1000);
    }
    let memory = stage_2_pages(0x1_0000, 15);
    for index in 16..31u64 {
        let entry = memory.read(ROOT + 8 * index).unwrap();
        assert_eq!(entry & PAGE_DESCRIPTORS_CONTIGUOUS, 0);
    }
    assert_eq!(memory.read(ROOT + 8 * 31), Some(0));
    let memory = stage_2_pages(0x1_1000, 31);
    for index in 17..48u64 {
        let entry = memory.read(ROOT + 8 * index).unwrap();
        assert_eq!(entry & PAGE_DESCRIPTORS_CONTIGUOUS != 0, index == 32);
    }
}

#[test]
fn partial_run_clears_the_bit_of_its_group() {
    let mut memory = stage_2_pages(0x1_0000, 16);
    let mut pool = FramePool::new(POOL, 4).unwrap();
    let mut cursor = MapCursor { physical_address: 0x7000_0000, virtual_address: 0x1_3000, remaining_pages: 1 };
    map_address_recursive_stage2(&mut memory, &mut pool, &mut cursor, ROOT, 3, false, 0b001, 1, 24, false).unwrap();
    let first = memory.read(ROOT + 8 * 16).unwrap();
    assert_eq!(first & PAGE_DESCRIPTORS_CONTIGUOUS, 0);
    assert_eq!(extract_output_address(first, 0x1000), 0x4001_0000);
    assert_eq!(memory.read(ROOT + 8 * 19), Some(0x7000_0000 | create_attributes_for_stage_2(0b001, false, false, false)));
}

#[test]
fn unmapped_pages_have_no_access_flag() {
    let unmap = create_attributes_for_stage_2(0b000, false, true, false);
    assert_eq!(unmap, 0x0040_0000_0000_033f);
    assert_eq!(unmap & 0x400, 0);
    assert_eq!(create_attributes_for_stage_2(0b011, true, false, false), 0x0040_0000_0000_07d7);
    assert_eq!(create_attributes_for_stage_1(0b111, 7, false), 0x75f);
    assert_eq!(create_attributes_for_stage_1(0b000, 0, true), 0x0040_0000_0001_07c1);
}

#[test]
fn tables_are_aligned_as_their_use_asks() {
    let mut pool = FramePool::new(0x8000_1000, 8).unwrap();
    assert_eq!(allocate_page_table_for_stage_2(&mut pool, 1, 24, true, 2), Ok(0x8000_4000));
    assert_eq!(pool.remaining, 3);
    let mut pool = FramePool::new(0x8000_2000, 8).unwrap();
    assert_eq!(allocate_page_table_for_stage_2(&mut pool, 1, 24, true, 2), Ok(0x8000_2000));
    assert_eq!(pool.remaining, 6);
    let mut pool = FramePool::new(0x8000_1800, 3).unwrap();
    assert_eq!(allocate_page_table_for_stage_1(&mut pool, 2, 25, false), Err(()));
    assert_eq!(pool.remaining, 0);
    let mut pool = FramePool::new(0x8000_1010, 3).unwrap();
    assert_eq!(allocate_page_table_for_stage_1(&mut pool, 0, 59, true), Ok(0x8000_1010));
    assert_eq!(allocate_page_table_for_stage_2(&mut pool, 2, 24, false, 1), Err(()));
    assert_eq!(FramePool::new(0xffff_ffff_f000, 2), None);
    let mut pool = FramePool::new(0x1000, 2).unwrap();
    assert_eq!(pool.allocate(3), Err(()));
    assert_eq!(pool.allocate(2), Ok(0x1000));
    assert_eq!(pool.allocate(1), Err(()));
}

#[test]
fn registers_say_where_a_walk_starts() {
    assert_eq!(get_initial_page_table_level_and_bits_to_shift(25), (1, 30));
    assert_eq!(get_initial_page_table_level_and_bits_to_shift(16), (0, 39));
    assert_eq!(get_initial_page_table_level_and_bits_to_shift(39), (2, 21));
    assert_eq!(get_initial_page_table_level_and_bits_to_shift(33), (1, 30));
    assert_eq!(get_initial_page_table_level_and_bits_to_shift(40), (2, 21));
    assert_eq!(get_initial_page_table_level_and_bits_to_shift(63), (3, 12));
    assert_eq!(get_initial_page_table_level_and_bits_to_shift(0x4000 | 17), (1, 36));
    assert_eq!(get_initial_page_table_level_and_bits_to_shift(0), (-2, 57));
    assert_eq!(calculate_number_of_concatenated_page_tables(24, 1), Ok(2));
    assert_eq!(calculate_number_of_concatenated_page_tables(25, 1), Ok(1));
    assert_eq!(calculate_number_of_concatenated_page_tables(30, 1), Ok(1));
    assert_eq!(calculate_number_of_concatenated_page_tables(12, 0), Ok(16));
    assert_eq!(calculate_number_of_concatenated_page_tables(11, 0), Err(()));
    assert_eq!(get_suitable_memory_attribute_index_from_mair_el2(0xff00, true), Ok(0));
    assert_eq!(get_suitable_memory_attribute_index_from_mair_el2(0xff00, false), Ok(1));
    assert_eq!(get_suitable_memory_attribute_index_from_mair_el2(0xff00_0000_0000_0044, false), Ok(7));
    assert_eq!(get_suitable_memory_attribute_index_from_mair_el2(0x4444_4444_4444_4444, true), Err(()));
    assert_eq!(TTBR::new(0x0001_0000_8000_1001).get_base_address(), 0x8000_1000);
}

#[test]
fn dump_lists_every_entry() {
    let mut m = machine(8);
    map_address(&mut m, 0x4000_0000, 0x4000_0000, 0x20_0000, true, true, false, false).unwrap();
    map_address(&mut m, 0x5000_0000, 0x4020_1000, 0x1000, true, true, false, false).unwrap();
    let dump = dump_page_table(&m);
    assert!(dump.supported && dump.listed);
    assert_eq!(dump.paging_level, 3);
    assert_eq!(dump.top_granule, 0x4000_0000);
    assert_eq!(dump.t0sz, 25);
    assert_eq!(dump.page_shift, 12);
    assert_eq!(dump.output_address_size, 32);
    assert_eq!(dump.memory_attribute, Some(1));
    assert_eq!(dump.page_table_address, ROOT);
    assert_eq!(dump.lines.len(), 3 * 512);
    assert_eq!(dump.lines[0].kind, DumpKind::Invalid);
    assert_eq!((dump.lines[0].start, dump.lines[0].end), (0, 0x4000_0000));
    let table = dump.lines[1];
    assert_eq!(table.kind, DumpKind::Table);
    assert_eq!(table.output_address, POOL);
    assert_eq!((table.indent, table.start), (0, 0x4000_0000));
    let block = dump.lines[2];
    assert_eq!(block.kind, DumpKind::Block);
    assert_eq!((block.indent, block.start, block.end), (2, 0x4000_0000, 0x4020_0000));
    assert_eq!(block.memory_attribute, 1);
    let below = dump.lines[3];
    assert_eq!(below.kind, DumpKind::Table);
    let page = dump.lines[5];
    assert_eq!(page.kind, DumpKind::Page);
    assert_eq!((page.indent, page.start, page.end), (4, 0x4020_1000, 0x4020_2000));
    assert_eq!(page.output_address, 0x5000_0000);
    assert_eq!(dump.lines[4].kind, DumpKind::Invalid);
    let last = dump.lines[3 * 512 - 1];
    assert_eq!((last.indent, last.end), (0, 0x80_0000_0000));
    m.registers.tcr_el2 = 0x8000 | 25;
    let dump = dump_page_table(&m);
    assert!(!dump.supported && !dump.listed);
    assert_eq!(dump.lines.len(), 0);
    m.registers.tcr_el2 = 25;
    m.registers.ttbr0_el2 = 0x1000;
    let dump = dump_page_table(&m);
    assert!(dump.supported && !dump.listed);
}
