use hypervisor_bootloader::copy::{copy_page_table, copy_page_table_at};
use hypervisor_bootloader::descriptor::{
    create_attributes_for_stage_1, create_permission, extract_output_address, is_block_descriptor,
    is_descriptor_table_or_level_3_descriptor, table_level_to_entry_span,
    table_level_to_table_shift,
};
use hypervisor_bootloader::dtb::{read_be_u32, DtbAnalyser, DtbNode, DTB_MAGIC};
use hypervisor_bootloader::dump::{dump_page_table_recursive, DumpKind, DumpLine};
use hypervisor_bootloader::mapping::{
    fill_empty_table, fill_split_table, map_address_recursive_tables, prepare_child_table,
    write_leaves, MapCursor, MapRequest,
};
use hypervisor_bootloader::memory::{FramePool, PhysicalMemory};
use hypervisor_bootloader::paging::{map_address, pages_of, Machine};
use hypervisor_bootloader::registers::{
    get_ds, get_ps, get_sl0, get_stage_2_initial_level, get_t0sz, get_tg0, set_t0sz,
    SystemRegisters,
};
use hypervisor_bootloader::stage2::make_stage_2_control;
use hypervisor_bootloader::table_alloc::{alignment_bits, allocate_aligned, count_bits};
use hypervisor_bootloader::walk::{
    find_leaf, leaf_output_address, translate_address, ATTRIBUTE_MASK,
};

const BASE: u64 = 0x8000_0000;
const POOL: u64 = 0x8000_1000;

fn machine(pages: u64) -> Machine {
    Machine {
        registers: SystemRegisters {
            tcr_el2: 25,
            ttbr0_el2: BASE,
            mair_el2: 0xff00,
            vtcr_el2: 0,
            vttbr_el2: 0,
            id_aa64mmfr0_el1: 5,
        },
        memory: PhysicalMemory::new(BASE, (pages as usize + 1) * 512),
        allocator: FramePool::new(POOL, pages).unwrap(),
    }
}

fn translation(m: &Machine, va: u64) -> Option<(u64, u64)> {
    let found = translate_address(&m.memory, BASE, 1, 1, va);
    let by_leaf = find_leaf(&m.memory, BASE, 1, 1, va)
        .map(|(level, leaf)| (leaf_output_address(level, leaf, va), leaf & ATTRIBUTE_MASK));
    assert_eq!(found, by_leaf);
    found
}

#[test]
fn mapping_keeps_what_other_addresses_lead_to() {
    let mut m = machine(16);
    map_address(&mut m, 0x4000_0000, 0x4000_0000, 0x40_0000, true, true, false, false).unwrap();
    map_address(&mut m, 0x7000_0000, 0x1000, 0x2000, true, false, false, true).unwrap();
    let watched =
        [0u64, 0x1000, 0x2fff, 0x3000, 0x3fff_f000, 0x4000_0000, 0x401f_ffff, 0x4020_0000, 0x4040_0000];
    let before: Vec<Option<(u64, u64)>> = watched.iter().map(|va| translation(&m, *va)).collect();
    map_address(&mut m, 0x9000_0000, 0x4010_0000, 0x3000, true, true, true, false).unwrap();
    for (va, old) in watched.iter().zip(before.iter()) {
        assert_eq!(translation(&m, *va), *old);
    }
    let attributes = create_attributes_for_stage_1(0b111, 1, false) & 0xffec_0000_0000_0ffc;
    for va in [0x4010_0000u64, 0x4010_1234, 0x4010_2fff] {
        assert_eq!(translation(&m, va), Some((0x9000_0000 + (va - 0x4010_0000), attributes)));
    }
    assert_eq!(translation(&m, 0x4010_3000).unwrap().0, 0x4010_3000);
    assert_eq!(translation(&m, 0x400f_ffff).unwrap().0, 0x400f_ffff);
}

#[test]
fn two_frames_for_each_page_are_enough_below_level_one() {
    let mut m = machine(6);
    assert_eq!(
        map_address(&mut m, 0x5000_0000, 0x3fff_f000, 0x3000, true, true, false, false),
        Ok(())
    );
    assert_eq!(m.allocator.remaining, 2);
    let mut m = machine(3);
    assert_eq!(
        map_address(&mut m, 0x5000_0000, 0x3fff_f000, 0x3000, true, true, false, false),
        Err(())
    );
}

fn count_tables(memory: &PhysicalMemory, table: u64, level: i8) -> u64 {
    let mut count = 1;
    if level < 3 {
        for index in 0..512u64 {
            let entry = memory.read(table + 8 * index).unwrap();
            if is_descriptor_table_or_level_3_descriptor(entry) {
                count += count_tables(memory, extract_output_address(entry, 0x1000), level + 1);
            }
        }
    }
    count
}

#[test]
fn copy_takes_a_frame_for_each_table() {
    let mut m = machine(32);
    map_address(&mut m, 0x5000_0000, 0x3fff_f000, 0x3000, true, true, false, false).unwrap();
    map_address(&mut m, 0x4000_0000, 0x8000_0000, 0x20_0000, true, true, false, false).unwrap();
    let tables = count_tables(&m.memory, BASE, 1);
    assert_eq!(tables, 6);
    let before = m.allocator.remaining;
    let clone = copy_page_table(&mut m).unwrap();
    assert_eq!(m.allocator.remaining, before - tables);
    assert_eq!(count_tables(&m.memory, clone, 1), tables);
    let mut short = machine(32);
    map_address(&mut short, 0x5000_0000, 0x3fff_f000, 0x3000, true, true, false, false).unwrap();
    short.allocator.remaining = 4;
    assert_eq!(copy_page_table(&mut short), Err(()));
    let mut memory = PhysicalMemory::new(BASE, 4 * 512);
    let mut pool = FramePool::new(POOL, 3).unwrap();
    memory.write_entry(BASE, 7, 0x1234_5000 | 0b11);
    assert_eq!(copy_page_table_at(&mut memory, &mut pool, BASE, 3), Ok(POOL));
    assert_eq!(memory.read(POOL + 8 * 7), Some(0x1234_5000 | 0b11));
    assert_eq!(pool.remaining, 2);
}

#[test]
fn leaves_are_written_up_to_the_end_of_the_table() {
    let mut memory = PhysicalMemory::new(BASE, 512);
    let mut cursor =
        MapCursor { physical_address: 0x4000_0000, virtual_address: 0x1f_e000, remaining_pages: 5 };
    let request = MapRequest {
        stage_2: false,
        permission: 0b011,
        memory_attribute: 2,
        is_unmap: false,
        is_dummy_page: false,
        t0sz: 25,
    };
    write_leaves(&mut memory, &mut cursor, &request, BASE, 510, 512);
    assert_eq!(
        cursor,
        MapCursor { physical_address: 0x4000_2000, virtual_address: 0x20_0000, remaining_pages: 3 }
    );
    assert_eq!(request.leaf_attributes(false), create_attributes_for_stage_1(0b011, 2, false));
    assert_eq!(memory.read_entry(BASE, 510), 0x4000_0000 | request.leaf_attributes(false));
    assert_eq!(memory.read_entry(BASE, 511), 0x4000_1000 | request.leaf_attributes(false));
    assert_eq!(memory.read_entry(BASE, 509), 0);
}

#[test]
fn new_tables_split_blocks_or_are_empty() {
    let mut memory = PhysicalMemory::new(BASE, 4 * 512);
    let mut pool = FramePool::new(POOL, 3).unwrap();
    let request = MapRequest {
        stage_2: true,
        permission: 0b111,
        memory_attribute: 0,
        is_unmap: false,
        is_dummy_page: false,
        t0sz: 24,
    };
    let block = 0x8000_0000u64 | 0x1_07fd;
    assert!(is_block_descriptor(block));
    assert_eq!(
        prepare_child_table(&mut memory, &mut pool, &request, block, 1),
        Ok((POOL, Some(POOL | 0b11)))
    );
    for k in 0..512u64 {
        assert_eq!(memory.read_entry(POOL, k), (0x8000_0000 + k * 0x20_0000) | 0x1_07fd);
    }
    assert_eq!(
        prepare_child_table(&mut memory, &mut pool, &request, 0, 2),
        Ok((POOL + 0x1000, Some((POOL + 0x1000) | 0b11)))
    );
    assert_eq!(memory.read_entry(POOL + 0x1000, 3), 0);
    assert_eq!(
        prepare_child_table(&mut memory, &mut pool, &request, 0x9000_0000 | 0b11, 2),
        Ok((0x9000_0000, None))
    );
    assert_eq!(pool.remaining, 1);
    fill_split_table(&mut memory, BASE, 0x4020_0000 | 0x1_0745, 2);
    assert_eq!(memory.read_entry(BASE, 0), 0x4020_0000 | 0x747);
    assert_eq!(memory.read_entry(BASE, 511), 0x403f_f000 | 0x747);
    fill_empty_table(&mut memory, BASE);
    assert_eq!(memory.read_entry(BASE, 511), 0);
    pool.remaining = 0;
    assert_eq!(prepare_child_table(&mut memory, &mut pool, &request, 0, 2), Err(()));
    let mut outside = FramePool::new(0x1000, 2).unwrap();
    assert_eq!(prepare_child_table(&mut memory, &mut outside, &request, 0, 2), Err(()));
}

#[test]
fn descent_reports_where_it_stopped() {
    let mut memory = PhysicalMemory::new(BASE, 4 * 512);
    let mut pool = FramePool::new(POOL, 1).unwrap();
    let mut cursor =
        MapCursor { physical_address: 0x4000_0000, virtual_address: 0x0, remaining_pages: 1 };
    let request = MapRequest {
        stage_2: false,
        permission: 0b011,
        memory_attribute: 1,
        is_unmap: false,
        is_dummy_page: false,
        t0sz: 25,
    };
    assert_eq!(
        map_address_recursive_tables(&mut memory, &mut pool, &mut cursor, &request, BASE, 1, 1),
        Err(())
    );
    assert_eq!(cursor.remaining_pages, 1);
    assert_eq!(pool.remaining, 0);
    assert_eq!(memory.read_entry(BASE, 0), 0);
    assert_eq!(
        map_address_recursive_tables(&mut memory, &mut pool, &mut cursor, &request, BASE, 1, 0),
        Err(())
    );
}

#[test]
fn fields_of_the_registers() {
    let tcr = (1u64 << 32) | (5 << 16) | (2 << 14) | 25;
    assert_eq!(get_t0sz(tcr), 25);
    assert_eq!(get_tg0(tcr), 2);
    assert_eq!(get_ps(tcr), 5);
    assert_eq!(get_ds(tcr), 1);
    assert_eq!(get_sl0(0x80), 2);
    assert_eq!(get_stage_2_initial_level(0x00), 2);
    assert_eq!(get_stage_2_initial_level(0x40), 1);
    assert_eq!(get_stage_2_initial_level(0x80), 0);
    assert_eq!(get_stage_2_initial_level(0xc0), 3);
    assert_eq!(set_t0sz(tcr, 16), (1u64 << 32) | (5 << 16) | (2 << 14) | 16);
    assert_eq!(make_stage_2_control(2, 1, 24), 0x9e02_3558);
    assert_eq!(make_stage_2_control(5, 0, 16), 0x9e05_3510);
    assert_eq!(create_permission(true, false, true), 0b101);
    assert_eq!(create_permission(false, true, false), 0b010);
    assert_eq!(table_level_to_entry_span(3), 0x1000);
    assert_eq!(table_level_to_entry_span(2), 0x20_0000);
    assert_eq!(table_level_to_entry_span(1), 0x4000_0000);
    assert_eq!(table_level_to_entry_span(0), 0x80_0000_0000);
    assert_eq!(table_level_to_table_shift(2), 21);
    assert_eq!(table_level_to_table_shift(-1), 48);
    assert_eq!(extract_output_address(0xffff_ffff_ffff_ffff, 0x1000), 0x0003_ffff_ffff_f000);
    assert_eq!(extract_output_address(0xffff_ffff_ffff_ffff, 0x20_0000), 0x0003_ffff_ffe0_0000);
    assert_eq!(pages_of(0), 0);
    assert_eq!(pages_of(1), 1);
    assert_eq!(pages_of(0x1000), 1);
    assert_eq!(pages_of(0x1001), 2);
    assert_eq!(pages_of(u64::MAX), 0x10_0000_0000_0000);
}

#[test]
fn alignment_of_tables() {
    assert_eq!(alignment_bits(1, 24, true, 1), 13);
    assert_eq!(alignment_bits(0, 16, true, 0), 12);
    assert_eq!(alignment_bits(3, 50, true, 0), 5);
    assert_eq!(alignment_bits(3, 63, true, 0), 4);
    assert_eq!(alignment_bits(2, 30, false, 0), 12);
    assert_eq!(count_bits(1), 0);
    assert_eq!(count_bits(2), 1);
    assert_eq!(count_bits(4), 2);
    assert_eq!(count_bits(16), 4);
    let mut pool = FramePool::new(0x3000, 10).unwrap();
    assert_eq!(allocate_aligned(&mut pool, 1, 14), Ok(0x4000));
    assert_eq!(pool.remaining, 8);
    assert_eq!(allocate_aligned(&mut pool, 2, 14), Ok(0x8000));
    assert_eq!(pool.remaining, 3);
    assert_eq!(allocate_aligned(&mut pool, 4, 12), Err(()));
    assert_eq!(pool.remaining, 3);
}

#[test]
fn memory_window_has_its_bounds() {
    let mut memory = PhysicalMemory::new(0x1000, 4);
    assert!(memory.contains(0x1000, 4));
    assert!(memory.contains(0x1018, 1));
    assert!(memory.contains(0x1020, 0));
    assert!(!memory.contains(0x1000, 5));
    assert!(!memory.contains(0x1004, 1));
    assert!(!memory.contains(0xff8, 1));
    assert!(!memory.contains(0x1020, 1));
    assert!(!memory.contains(0x1000, u64::MAX));
    memory.write_entry(0x1008, 2, 7);
    assert_eq!(memory.read(0x1018), Some(7));
    assert_eq!(memory.read(0x1019), None);
    assert_eq!(memory.read(0x1020), None);
    assert_eq!(memory.read_entry(0x1000, 3), 7);
}

#[test]
fn listing_marks_tables_outside_the_window() {
    let mut memory = PhysicalMemory::new(BASE, 2 * 512);
    memory.write_entry(BASE, 0, 0x10_0000 | 0b11);
    memory.write_entry(BASE, 1, (BASE + 0x1000) | 0b11);
    memory.write_entry(BASE + 0x1000, 2, 0x5000_0000 | 0x745);
    memory.write_entry(BASE + 0x1000, 3, 0x5000_1000 | 0x747);
    let mut lines: Vec<DumpLine> = Vec::new();
    let mut va = 0u64;
    assert!(dump_page_table_recursive(&memory, BASE, &mut va, 2, 0, 0x20_0000, &mut lines));
    assert_eq!(lines.len(), 2 * 512);
    assert_eq!(lines[0].kind, DumpKind::Missing);
    assert_eq!((lines[0].start, lines[0].end), (0, 0x20_0000));
    assert_eq!(lines[1].kind, DumpKind::Table);
    assert_eq!(lines[2].kind, DumpKind::Invalid);
    assert_eq!((lines[2].indent, lines[2].start, lines[2].end), (2, 0x20_0000, 0x20_1000));
    assert_eq!(lines[4].kind, DumpKind::Reserved);
    assert_eq!(lines[5].kind, DumpKind::Page);
    assert_eq!(lines[5].output_address, 0x5000_1000);
    assert_eq!(lines[5].memory_attribute, 1);
    assert_eq!(va, 512 * 0x20_0000);
    let mut none: Vec<DumpLine> = Vec::new();
    let mut start = 5u64;
    assert!(!dump_page_table_recursive(&memory, 0x10, &mut start, 2, 0, 0x1000, &mut none));
    assert_eq!((none.len(), start), (0, 5));
}

fn word(w: u32) -> [u8; 4] {
    w.to_be_bytes()
}

fn small_blob() -> DtbAnalyser {
    let mut structure: Vec<u8> = Vec::new();
    structure.extend_from_slice(&word(1));
    structure.extend_from_slice(b"soc\0");
    structure.extend_from_slice(&word(3));
    structure.extend_from_slice(&word(10));
    structure.extend_from_slice(&word(0));
    structure.extend_from_slice(b"abc\0de\0fg\0\0\0");
    structure.extend_from_slice(&word(3));
    structure.extend_from_slice(&word(4));
    structure.extend_from_slice(&word(11));
    structure.extend_from_slice(&word(3));
    structure.extend_from_slice(&word(2));
    structure.extend_from_slice(&word(9));
    let strings = b"compatible\0#address-cells\0".to_vec();
    let mut bytes: Vec<u8> = Vec::new();
    for w in [
        DTB_MAGIC,
        (40 + structure.len() + strings.len()) as u32,
        40,
        40 + structure.len() as u32,
        40,
        17,
        16,
        0,
        strings.len() as u32,
        structure.len() as u32,
    ] {
        bytes.extend_from_slice(&word(w));
    }
    bytes.extend_from_slice(&structure);
    bytes.extend_from_slice(&strings);
    DtbAnalyser::new(0x1000, bytes).unwrap()
}

#[test]
fn records_and_lists_are_read() {
    let dtb = small_blob();
    assert_eq!(read_be_u32(&dtb.memory, 0), Some(DTB_MAGIC));
    assert_eq!(read_be_u32(&dtb.memory, dtb.memory.len() - 3), None);
    let body = 0x1000 + 40 + 8;
    let mut p = 0x1000 + 40 + 4;
    assert_eq!(DtbNode::skip_string(&dtb, &mut p), Ok(()));
    assert_eq!(p, body);
    let mut end = dtb.base_address + dtb.memory.len() as u64 - 3;
    assert_eq!(DtbNode::skip_string(&dtb, &mut end), Ok(()));
    let mut end = dtb.base_address + dtb.memory.len() as u64;
    assert_eq!(DtbNode::skip_string(&dtb, &mut end), Err(()));
    let mut header = 0x1000 + 40;
    assert_eq!(DtbNode::skip_node_header(&dtb, &mut header), Ok(()));
    assert_eq!(header, body);
    let mut node = dtb.get_root_node();
    let record = node.read_property(&dtb, body).unwrap();
    assert_eq!((record.value, record.len), (body + 12, 10));
    assert_eq!(record.name, dtb.strings_block_address);
    assert_eq!(node, dtb.get_root_node());
    assert!(DtbNode::is_listed(&dtb, record.value, record.len, b"abc"));
    assert!(DtbNode::is_listed(&dtb, record.value, record.len, b"de"));
    assert!(DtbNode::is_listed(&dtb, record.value, record.len, b"fg"));
    assert!(!DtbNode::is_listed(&dtb, record.value, record.len, b"bc"));
    assert!(!DtbNode::is_listed(&dtb, record.value, record.len, b"ab"));
    assert!(!DtbNode::is_listed(&dtb, record.value, 4, b"de"));
    let candidates: [&[u8]; 3] = [b"zz", b"fg", b"abc"];
    assert_eq!(DtbNode::first_compatible(&dtb, record.value, record.len, &candidates), Some(1));
    assert_eq!(DtbNode::first_compatible(&dtb, record.value, 4, &candidates), Some(2));
    assert_eq!(DtbNode::first_compatible(&dtb, record.value, record.len, &candidates[..1]), None);
    let cells = body + 12 + 12;
    let record = node.read_property(&dtb, cells).unwrap();
    assert_eq!(record.len, 4);
    assert_eq!(node.address_cells, 3);
    assert_eq!(node.parent_address_cells, 2);
    assert_eq!(DtbNode::status_name(), *b"status");
    assert_eq!(DtbNode::status_okay(), *b"okay");
    assert_eq!(DtbNode::reg_name(), *b"reg");
    assert_eq!(DtbNode::compatible_name(), *b"compatible");
    assert_eq!(DtbNode::address_cells_name(), *b"#address-cells");
    assert_eq!(DtbNode::size_cells_name(), *b"#size-cells");
}

#[test]
fn walks_end_on_the_token_that_ends_the_match() {
    let dtb = small_blob();
    let body = 0x1000 + 40 + 8;
    let mut node = dtb.get_root_node();
    let mut pointer = body;
    let found = node.search_device_by_node_name(b"soc", &dtb, &mut pointer, true).unwrap().unwrap();
    assert_eq!(found.address_cells, 3);
    assert_eq!(node, found);
    assert_eq!(dtb.read_u32(pointer), Some(2));
    let mut node = dtb.get_root_node();
    let mut pointer = body;
    assert_eq!(node.search_device_by_node_name(b"soc", &dtb, &mut pointer, false), Ok(None));
    assert_eq!(dtb.read_u32(pointer), Some(9));
    let candidates: [&[u8]; 2] = [b"de", b"abc"];
    let mut node = dtb.get_root_node();
    let mut pointer = body;
    let (found, index) =
        node.search_device_by_compatible(&candidates, &dtb, &mut pointer).unwrap().unwrap();
    assert_eq!(index, 0);
    assert_eq!(found.address_cells, 3);
    assert_eq!(dtb.read_u32(pointer), Some(2));
}
