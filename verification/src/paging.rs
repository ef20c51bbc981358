//! The paging engine: mapping a range into the stage-1 tables of EL2, and
//! overlaying a range of the stage-2 tables with a dummy page.

use vstd::prelude::*;
use vstd::std_specs::bits::u64_leading_zeros;
use crate::descriptor::{create_permission, permission_mask};
use crate::mapping::{map_address_recursive_tables, map_table, MapCursor, MapRequest, MapState};
use crate::memory::{FramePool, MemoryView, PhysicalMemory, PAGE_SIZE};
use crate::registers::{
    calculate_number_of_concatenated_page_tables, concatenation_bits, first_attribute_index,
    get_initial_page_table_level_and_bits_to_shift, get_stage_2_initial_level,
    get_suitable_memory_attribute_index_from_mair_el2, get_t0sz, initial_level, set_t0sz, sl0_of,
    stage_2_initial_level, t0sz_of, tables_for, ttbr_base_address, wanted_attribute, with_t0sz,
    SystemRegisters, TTBR,
};

verus! {

/// The permission mask of a mapping that can be read, written and executed.
pub const PERMISSION_ALL: u8 = 7;

/// The machine as the paging engine sees it, as a value.
pub struct MachineView {
    pub registers: SystemRegisters,
    pub memory: MemoryView,
    pub allocator: FramePool,
}

/// The machine as the paging engine sees it: the system registers, the
/// memory that holds the translation tables, and the pool of free frames.
pub struct Machine {
    pub registers: SystemRegisters,
    pub memory: PhysicalMemory,
    pub allocator: FramePool,
}

impl View for Machine {
    type V = MachineView;

    open spec fn view(&self) -> MachineView {
        MachineView { registers: self.registers, memory: self.memory@, allocator: self.allocator }
    }
}

/// What an operation of the paging engine leaves: the machine, and whether
/// the operation succeeded.
pub struct PagingResult {
    pub machine: MachineView,
    pub ok: bool,
}

/// How many pages hold `size` bytes.
pub open spec fn pages_for(size: u64) -> int {
    (size + PAGE_SIZE - 1) / PAGE_SIZE as int
}

/// `tcr_el2` with `T0SZ` lowered to the leading zeros of `end`, where it is
/// above them: the stage-1 input addresses then reach up to `end`.
pub open spec fn widened_tcr(tcr_el2: u64, end: u64) -> u64 {
    if u64_leading_zeros(end) < t0sz_of(tcr_el2) {
        with_t0sz(tcr_el2, u64_leading_zeros(end) as u64)
    } else {
        tcr_el2
    }
}

/// What a stage-1 mapping of `pages` pages asks of the descent.
pub open spec fn stage_1_request(
    permission: u8,
    memory_attribute: u8,
    t0sz: u8,
) -> MapRequest {
    MapRequest {
        stage_2: false,
        permission,
        memory_attribute,
        is_unmap: false,
        is_dummy_page: false,
        t0sz,
    }
}

/// What a stage-2 mapping asks of the descent.
pub open spec fn stage_2_request(
    permission: u8,
    is_unmap: bool,
    is_dummy_page: bool,
    t0sz: u8,
) -> MapRequest {
    MapRequest { stage_2: true, permission, memory_attribute: 0, is_unmap, is_dummy_page, t0sz }
}

/// Whether `map_address` gets as far as the tables: the physical address is
/// a multiple of the page size, neither range leaves 64 bits, and
/// `MAIR_EL2` has an attribute for the kind of memory.
pub open spec fn map_address_starts(
    machine: MachineView,
    physical_address: u64,
    virtual_address: u64,
    size: u64,
    is_device: bool,
) -> bool {
    &&& physical_address % PAGE_SIZE == 0
    &&& virtual_address + pages_for(size) * PAGE_SIZE <= u64::MAX
    &&& physical_address + pages_for(size) * PAGE_SIZE <= u64::MAX
    &&& first_attribute_index(machine.registers.mair_el2, wanted_attribute(is_device), 0) is Some
}

/// What `map_address` leaves. Where it gets as far as the tables, `T0SZ` is
/// widened to reach the end of the range and the descent starts at the table
/// of `TTBR0_EL2`; the mapping succeeded where the descent did and left no
/// page unmapped.
pub open spec fn map_address_result(
    machine: MachineView,
    physical_address: u64,
    virtual_address: u64,
    size: u64,
    readable: bool,
    writable: bool,
    executable: bool,
    is_device: bool,
) -> PagingResult {
    if !map_address_starts(machine, physical_address, virtual_address, size, is_device) {
        PagingResult { machine, ok: false }
    } else {
        let tcr_el2 = widened_tcr(machine.registers.tcr_el2, (virtual_address + size) as u64);
        let outcome = map_table(
            MapState {
                memory: machine.memory,
                pool: machine.allocator,
                cursor: MapCursor {
                    physical_address,
                    virtual_address,
                    remaining_pages: pages_for(size) as u64,
                },
            },
            stage_1_request(
                permission_mask(readable, writable, executable),
                first_attribute_index(
                    machine.registers.mair_el2,
                    wanted_attribute(is_device),
                    0,
                )->0,
                t0sz_of(tcr_el2) as u8,
            ),
            ttbr_base_address(machine.registers.ttbr0_el2) as int,
            initial_level(machine.registers.tcr_el2),
            1,
        );
        PagingResult {
            machine: MachineView {
                registers: SystemRegisters { tcr_el2, ..machine.registers },
                memory: outcome.state.memory,
                allocator: outcome.state.pool,
            },
            ok: outcome.ok && outcome.state.cursor.remaining_pages == 0,
        }
    }
}

/// Maps what the cursor says into the stage-1 table at `table_address`, at
/// `table_level`, and into the tables below it.
pub fn map_address_recursive(
    memory: &mut PhysicalMemory,
    pool: &mut FramePool,
    cursor: &mut MapCursor,
    table_address: u64,
    table_level: i8,
    permission: u8,
    memory_attribute: u8,
    t0sz: u8,
) -> (mapped: Result<(), ()>)
    requires
        old(pool).well_formed(),
        -2 <= table_level <= 3,
        old(cursor).in_range(false),
    ensures
        ({
            let outcome = map_table(
                MapState { memory: old(memory)@, pool: *old(pool), cursor: *old(cursor) },
                stage_1_request(permission, memory_attribute, t0sz),
                table_address as int,
                table_level as int,
                1,
            );
            &&& mapped is Ok <==> outcome.ok
            &&& final(memory)@ == outcome.state.memory
            &&& *final(pool) == outcome.state.pool
            &&& *final(cursor) == outcome.state.cursor
        }),
        final(pool).well_formed(),
        final(memory)@.same_extent(old(memory)@),
        final(cursor).input_end() == old(cursor).input_end(),
        final(cursor).output_end() == old(cursor).output_end(),
{
    let request = MapRequest {
        stage_2: false,
        permission,
        memory_attribute,
        is_unmap: false,
        is_dummy_page: false,
        t0sz,
    };
    map_address_recursive_tables(memory, pool, cursor, &request, table_address, table_level, 1)
}

/// Maps what the cursor says into the `concatenated_tables` stage-2 tables
/// that lie from `table_address` on, at `table_level`, and into the tables
/// below them.
pub fn map_address_recursive_stage2(
    memory: &mut PhysicalMemory,
    pool: &mut FramePool,
    cursor: &mut MapCursor,
    table_address: u64,
    table_level: i8,
    is_unmap: bool,
    permission: u8,
    concatenated_tables: u8,
    t0sz: u8,
    is_dummy_page: bool,
) -> (mapped: Result<(), ()>)
    requires
        old(pool).well_formed(),
        -2 <= table_level <= 3,
        old(cursor).in_range(is_dummy_page),
    ensures
        ({
            let outcome = map_table(
                MapState { memory: old(memory)@, pool: *old(pool), cursor: *old(cursor) },
                stage_2_request(permission, is_unmap, is_dummy_page, t0sz),
                table_address as int,
                table_level as int,
                concatenated_tables as int,
            );
            &&& mapped is Ok <==> outcome.ok
            &&& final(memory)@ == outcome.state.memory
            &&& *final(pool) == outcome.state.pool
            &&& *final(cursor) == outcome.state.cursor
        }),
        final(pool).well_formed(),
        final(memory)@.same_extent(old(memory)@),
        final(cursor).input_end() == old(cursor).input_end(),
        !is_dummy_page ==> final(cursor).output_end() == old(cursor).output_end(),
        is_dummy_page ==> final(cursor).physical_address == old(cursor).physical_address,
{
    let request = MapRequest {
        stage_2: true,
        permission,
        memory_attribute: 0,
        is_unmap,
        is_dummy_page,
        t0sz,
    };
    map_address_recursive_tables(
        memory,
        pool,
        cursor,
        &request,
        table_address,
        table_level,
        concatenated_tables,
    )
}

/// How many pages hold `size` bytes.
pub fn pages_of(size: u64) -> (pages: u64)
    ensures
        pages == pages_for(size),
        pages * PAGE_SIZE <= u64::MAX + PAGE_SIZE - 1,
{
    if size % PAGE_SIZE != 0 {
        size / PAGE_SIZE + 1
    } else {
        size / PAGE_SIZE
    }
}

/// Maps `size` bytes, rounded up to whole pages, from `virtual_address` on
/// to `physical_address` in the stage-1 tables of EL2, as device memory or
/// as normal memory. `T0SZ` is widened where the range ends above what it
/// allows. The caller flushes the TLB of EL2 on success.
///
/// The call asks that widening `T0SZ` does not change the level at which a
/// walk starts.
pub fn map_address(
    machine: &mut Machine,
    physical_address: u64,
    virtual_address: u64,
    size: u64,
    readable: bool,
    writable: bool,
    executable: bool,
    is_device: bool,
) -> (mapped: Result<(), ()>)
    requires
        old(machine).allocator.well_formed(),
        virtual_address + size <= u64::MAX ==> initial_level(
            widened_tcr(old(machine).registers.tcr_el2, (virtual_address + size) as u64),
        ) == initial_level(old(machine).registers.tcr_el2),
    ensures
        mapped is Ok <==> map_address_result(
            old(machine)@,
            physical_address,
            virtual_address,
            size,
            readable,
            writable,
            executable,
            is_device,
        ).ok,
        final(machine)@ == map_address_result(
            old(machine)@,
            physical_address,
            virtual_address,
            size,
            readable,
            writable,
            executable,
            is_device,
        ).machine,
        final(machine).allocator.well_formed(),
        final(machine)@.memory.same_extent(old(machine)@.memory),
{
    if physical_address % PAGE_SIZE != 0 {
        return Err(());
    }
    let pages: u64 = pages_of(size);
    if pages > (u64::MAX - virtual_address) / PAGE_SIZE || pages > (u64::MAX - physical_address)
        / PAGE_SIZE {
        return Err(());
    }
    let memory_attribute: u8 = match get_suitable_memory_attribute_index_from_mair_el2(
        machine.registers.mair_el2,
        is_device,
    ) {
        Err(_) => {
            return Err(());
        },
        Ok(index) => index,
    };
    let tcr_el2: u64 = machine.registers.tcr_el2;
    let mut tcr_el2_t0sz: u8 = get_t0sz(tcr_el2);
    let (table_level, _) = get_initial_page_table_level_and_bits_to_shift(tcr_el2);
    let min_t0sz: u32 = (virtual_address + size).leading_zeros();
    if min_t0sz < tcr_el2_t0sz as u32 {
        let new_tcr_el2: u64 = set_t0sz(tcr_el2, min_t0sz as u8);
        machine.registers.tcr_el2 = new_tcr_el2;
        tcr_el2_t0sz = min_t0sz as u8;
    }
    let mut cursor = MapCursor { physical_address, virtual_address, remaining_pages: pages };
    let permission: u8 = create_permission(readable, writable, executable);
    let table_address: u64 = TTBR::new(machine.registers.ttbr0_el2).get_base_address();
    let mapped = map_address_recursive(
        &mut machine.memory,
        &mut machine.allocator,
        &mut cursor,
        table_address,
        table_level,
        permission,
        memory_attribute,
        tcr_el2_t0sz,
    );
    match mapped {
        Err(_) => Err(()),
        Ok(_) => if cursor.remaining_pages != 0 {
            Err(())
        } else {
            Ok(())
        },
    }
}

/// Whether `map_dummy_page_into_vttbr_el2` gets as far as the tables: the
/// size is a whole number of pages, the range does not leave 64 bits, and
/// `VTCR_EL2` asks for sixteen tables at the start at the most.
pub open spec fn map_dummy_starts(machine: MachineView, virtual_address: u64, size: u64) -> bool {
    &&& size % PAGE_SIZE == 0
    &&& virtual_address + size <= u64::MAX
    &&& concatenation_bits(
        t0sz_of(machine.registers.vtcr_el2) as int,
        stage_2_initial_level(sl0_of(machine.registers.vtcr_el2)),
    ) <= 4
}

/// What `map_dummy_page_into_vttbr_el2` leaves. Where it gets as far as the
/// tables, the descent starts at the tables of `VTTBR_EL2`, at the level and
/// with the number of tables that `VTCR_EL2` gives; the mapping succeeded
/// where the descent did and left no page unmapped.
pub open spec fn map_dummy_result(
    machine: MachineView,
    virtual_address: u64,
    size: u64,
    dummy_page: u64,
) -> PagingResult {
    if !map_dummy_starts(machine, virtual_address, size) {
        PagingResult { machine, ok: false }
    } else {
        let level = stage_2_initial_level(sl0_of(machine.registers.vtcr_el2));
        let t0sz = t0sz_of(machine.registers.vtcr_el2);
        let outcome = map_table(
            MapState {
                memory: machine.memory,
                pool: machine.allocator,
                cursor: MapCursor {
                    physical_address: dummy_page,
                    virtual_address,
                    remaining_pages: size / PAGE_SIZE,
                },
            },
            stage_2_request(PERMISSION_ALL, false, true, t0sz as u8),
            ttbr_base_address(machine.registers.vttbr_el2) as int,
            level,
            tables_for(concatenation_bits(t0sz as int, level)) as int,
        );
        PagingResult {
            machine: MachineView {
                registers: machine.registers,
                memory: outcome.state.memory,
                allocator: outcome.state.pool,
            },
            ok: outcome.ok && outcome.state.cursor.remaining_pages == 0,
        }
    }
}

/// Maps every page of the `size` bytes from `virtual_address` on to the one
/// frame at `dummy_page` in the stage-2 tables, readable, writable and
/// executable.
pub fn map_dummy_page_into_vttbr_el2(
    machine: &mut Machine,
    virtual_address: u64,
    size: u64,
    dummy_page: u64,
) -> (mapped: Result<(), ()>)
    requires
        old(machine).allocator.well_formed(),
    ensures
        mapped is Ok <==> map_dummy_result(old(machine)@, virtual_address, size, dummy_page).ok,
        final(machine)@ == map_dummy_result(old(machine)@, virtual_address, size, dummy_page).machine,
        final(machine).allocator.well_formed(),
        final(machine)@.memory.same_extent(old(machine)@.memory),
{
    if size % PAGE_SIZE != 0 {
        return Err(());
    }
    if size > u64::MAX - virtual_address {
        return Err(());
    }
    let vtcr_el2: u64 = machine.registers.vtcr_el2;
    let vtcr_el2_t0sz: u8 = get_t0sz(vtcr_el2);
    let initial_look_up_level: i8 = get_stage_2_initial_level(vtcr_el2);
    let concatenated_tables: u8 = match calculate_number_of_concatenated_page_tables(
        vtcr_el2_t0sz,
        initial_look_up_level,
    ) {
        Err(_) => {
            return Err(());
        },
        Ok(tables) => tables,
    };
    let mut cursor = MapCursor {
        physical_address: dummy_page,
        virtual_address,
        remaining_pages: size / PAGE_SIZE,
    };
    let table_address: u64 = TTBR::new(machine.registers.vttbr_el2).get_base_address();
    let mapped = map_address_recursive_stage2(
        &mut machine.memory,
        &mut machine.allocator,
        &mut cursor,
        table_address,
        initial_look_up_level,
        false,
        PERMISSION_ALL,
        concatenated_tables,
        vtcr_el2_t0sz,
        true,
    );
    match mapped {
        Err(_) => Err(()),
        Ok(_) => if cursor.remaining_pages != 0 {
            Err(())
        } else {
            Ok(())
        },
    }
}

} // verus!
