//! The descent that maps a range of addresses into a tree of translation
//! tables, for stage 1 and for stage 2.
//!
//! The descent works on three things: the memory that holds the tables, the
//! pool that new tables come from, and a cursor that says what is still to
//! be mapped. `map_table` says what a descent does to them, as a function of
//! values; `map_address_recursive_tables` does it.

use vstd::prelude::*;
use crate::descriptor::{
    create_attributes_for_stage_1, create_attributes_for_stage_2, entry_span,
    extract_output_address, is_block, is_block_descriptor,
    is_descriptor_table_or_level_3_descriptor, is_table_or_page, output_address,
    stage_1_attributes, stage_2_attributes, table_level_to_entry_span, DESCRIPTOR_TABLE_OR_PAGE,
    PAGE_DESCRIPTORS_CONTIGUOUS, PAGE_DESCRIPTORS_NT,
};
use crate::memory::{FramePool, MemoryView, PhysicalMemory, PAGE_SIZE, TABLE_ENTRIES};
use crate::table_alloc::{
    aligned_frames, allocate_page_table_for_stage_1, allocate_page_table_for_stage_2,
    lemma_alignment_of_bits,
};

verus! {

/// Entries that share one contiguous bit.
pub const CONTIGUOUS_RUN: u64 = 16;

/// What is still to be mapped: the next output address, the next input
/// address, and how many pages are left.
#[derive(Clone, Copy, Debug, PartialEq, Eq, Structural)]
pub struct MapCursor {
    pub physical_address: u64,
    pub virtual_address: u64,
    pub remaining_pages: u64,
}

/// What kind of mapping is asked for. `memory_attribute` counts for stage 1
/// only; `is_unmap` and `is_dummy_page` count for stage 2 only.
#[derive(Clone, Copy, Debug, PartialEq, Eq, Structural)]
pub struct MapRequest {
    pub stage_2: bool,
    pub permission: u8,
    pub memory_attribute: u8,
    pub is_unmap: bool,
    pub is_dummy_page: bool,
    pub t0sz: u8,
}

/// The memory, the pool and the cursor of a descent, as values.
pub struct MapState {
    pub memory: MemoryView,
    pub pool: FramePool,
    pub cursor: MapCursor,
}

/// How a descent ends: what it leaves, and whether it failed on the way.
pub struct MapOutcome {
    pub state: MapState,
    pub ok: bool,
}

/// The table that a descent goes down into from an entry: the memory and
/// the pool after the table has been made ready, the table's address (`None`
/// where no table could be had), and the descriptor to put into the entry
/// afterwards, where the table is new.
pub struct ChildTable {
    pub memory: MemoryView,
    pub pool: FramePool,
    pub table: Option<u64>,
    pub created: Option<u64>,
}

impl MapRequest {
    /// The attribute bits of a leaf of this mapping.
    pub open spec fn attributes(self, is_block_entry: bool) -> u64 {
        if self.stage_2 {
            stage_2_attributes(self.permission, self.is_dummy_page, self.is_unmap, is_block_entry)
        } else {
            stage_1_attributes(self.permission, self.memory_attribute, is_block_entry)
        }
    }

    /// Whether every page of the range is mapped to one and the same frame.
    pub open spec fn holds_output(self) -> bool {
        self.stage_2 && self.is_dummy_page
    }

    /// The attribute bits of a leaf of this mapping.
    pub fn leaf_attributes(&self, is_block_entry: bool) -> (attributes: u64)
        ensures
            attributes == self.attributes(is_block_entry),
    {
        if self.stage_2 {
            create_attributes_for_stage_2(
                self.permission,
                self.is_dummy_page,
                self.is_unmap,
                is_block_entry,
            )
        } else {
            create_attributes_for_stage_1(self.permission, self.memory_attribute, is_block_entry)
        }
    }
}

impl MapCursor {
    /// The cursor after `pages` pages have been mapped, the output address
    /// moving along unless `holds_output`.
    pub open spec fn advanced(self, pages: int, holds_output: bool) -> MapCursor {
        MapCursor {
            physical_address: if holds_output {
                self.physical_address
            } else {
                (self.physical_address + pages * PAGE_SIZE) as u64
            },
            virtual_address: (self.virtual_address + pages * PAGE_SIZE) as u64,
            remaining_pages: (self.remaining_pages - pages) as u64,
        }
    }

    /// The address after the last input address that is still to be mapped.
    pub open spec fn input_end(self) -> int {
        self.virtual_address + self.remaining_pages * PAGE_SIZE
    }

    /// The address after the last output address that is still to be mapped.
    pub open spec fn output_end(self) -> int {
        self.physical_address + self.remaining_pages * PAGE_SIZE
    }

    /// Neither address leaves 64 bits while the rest is mapped.
    pub open spec fn in_range(self, holds_output: bool) -> bool {
        self.input_end() <= u64::MAX && (holds_output || self.output_end() <= u64::MAX)
    }
}

/// The entry of a table of `table_len` entries at `level` that maps
/// `virtual_address`.
pub open spec fn table_index(virtual_address: u64, level: int, table_len: int) -> int {
    (virtual_address / entry_span(level)) as int % table_len
}

/// How many entries of a level-3 table of `table_len` entries are written
/// from `index` on: as many as pages are left, up to the table's end.
pub open spec fn leaf_count(cursor: MapCursor, index: int, table_len: int) -> int {
    if cursor.remaining_pages + index > table_len {
        table_len - index
    } else {
        cursor.remaining_pages as int
    }
}

/// The page descriptor written to entry `i` of a level-3 table, in a run of
/// entries from `first` up to `end` that starts with `start` to map. At
/// stage 2, where pages are mapped to frames of their own, the first entry
/// of each aligned group of sixteen has the contiguous bit, if the run goes
/// on for sixteen entries from there.
pub open spec fn leaf_entry(request: MapRequest, start: MapCursor, first: int, end: int, i: int) -> u64 {
    let output: u64 = if request.holds_output() {
        start.physical_address
    } else {
        (start.physical_address + (i - first) * PAGE_SIZE) as u64
    };
    let plain: u64 = output | request.attributes(false);
    if request.stage_2 && !request.is_dummy_page && i % 16 == 0 && end - i >= 16 {
        plain | PAGE_DESCRIPTORS_CONTIGUOUS
    } else {
        plain
    }
}

/// The first `n` page descriptors of a run from `first` up to `end`.
pub open spec fn leaf_run(request: MapRequest, start: MapCursor, first: int, end: int, n: int) -> Seq<
    u64,
> {
    Seq::new(n as nat, |k: int| leaf_entry(request, start, first, end, first + k))
}

/// The memory after the leaves of one level-3 table have been written: at
/// stage 2 the first entry of the group of sixteen that `index` lies in
/// loses its contiguous bit; then the entries from `index` on are written.
pub open spec fn leaves_memory(
    memory: MemoryView,
    cursor: MapCursor,
    request: MapRequest,
    table: int,
    index: int,
    table_len: int,
) -> MemoryView {
    let count = leaf_count(cursor, index, table_len);
    let group = index - index % 16;
    let opened = if request.stage_2 {
        memory.write_entry(table, group, memory.entry(table, group) & !PAGE_DESCRIPTORS_CONTIGUOUS)
    } else {
        memory
    };
    opened.write_run(table, index, leaf_run(request, cursor, index, index + count, count))
}

/// What writing the leaves of one level-3 table does: the entries are
/// written, and the cursor moves by as many pages.
pub open spec fn after_leaves(
    state: MapState,
    request: MapRequest,
    table: int,
    index: int,
    table_len: int,
) -> MapState {
    MapState {
        memory: leaves_memory(state.memory, state.cursor, request, table, index, table_len),
        pool: state.pool,
        cursor: state.cursor.advanced(
            leaf_count(state.cursor, index, table_len),
            request.holds_output(),
        ),
    }
}

/// Whether the next entry of a table at `level` becomes a block: the level
/// is 2, pages are mapped to frames of their own, both addresses are
/// multiples of what the entry maps, and as much is left to map.
pub open spec fn block_fits(request: MapRequest, cursor: MapCursor, level: int) -> bool {
    &&& !request.holds_output()
    &&& level > 1
    &&& cursor.physical_address % entry_span(level) == 0
    &&& cursor.virtual_address % entry_span(level) == 0
    &&& cursor.remaining_pages >= entry_span(level) / PAGE_SIZE
}

/// Entry `k` of the table that takes the place of the block `descriptor` of
/// a table at `level`: the block's output address plus `k` times what an
/// entry one level down maps, with the block's other bits; one level above
/// the pages, with the low bits of a page and without nT.
pub open spec fn split_entry(descriptor: u64, level: int, k: int) -> u64 {
    let block_address = output_address(descriptor, entry_span(level));
    let kept = descriptor ^ block_address;
    let attribute = if level + 1 == 3 {
        (kept | DESCRIPTOR_TABLE_OR_PAGE) & !PAGE_DESCRIPTORS_NT
    } else {
        kept
    };
    ((block_address + k * entry_span(level + 1)) as u64) | attribute
}

/// The first `n` entries of the table that takes the place of a block.
pub open spec fn split_run(descriptor: u64, level: int, n: int) -> Seq<u64> {
    Seq::new(n as nat, |k: int| split_entry(descriptor, level, k))
}

/// `n` invalid entries.
pub open spec fn zero_run(n: int) -> Seq<u64> {
    Seq::new(n as nat, |k: int| 0u64)
}

/// The table that a descent goes down into from an entry of a table at
/// `level` that holds `descriptor`. A table descriptor leads to its table.
/// Anything else gets a new table from the pool: one that splits the block,
/// where the entry holds a block, else an empty one.
pub open spec fn child_table(
    memory: MemoryView,
    pool: FramePool,
    descriptor: u64,
    level: int,
) -> ChildTable {
    if is_table_or_page(descriptor) {
        ChildTable {
            memory,
            pool,
            table: Some(output_address(descriptor, PAGE_SIZE)),
            created: None,
        }
    } else {
        let allocation = aligned_frames(pool, 1, 1u64 << 12);
        match allocation.table {
            None => ChildTable { memory, pool: allocation.pool, table: None, created: None },
            Some(frame) => if !memory.holds(frame as int, TABLE_ENTRIES as int) {
                ChildTable { memory, pool: allocation.pool, table: None, created: None }
            } else {
                let entries = if is_block(descriptor) {
                    split_run(descriptor, level, TABLE_ENTRIES as int)
                } else {
                    zero_run(TABLE_ENTRIES as int)
                };
                ChildTable {
                    memory: memory.write_run(frame as int, 0, entries),
                    pool: allocation.pool,
                    table: Some(output_address(frame | DESCRIPTOR_TABLE_OR_PAGE, PAGE_SIZE)),
                    created: Some(frame | DESCRIPTOR_TABLE_OR_PAGE),
                }
            },
        }
    }
}

/// What a descent does from entry `index` of the table at `table` on, the
/// table being at `level` above the pages. Each entry becomes a block where
/// one fits; else the descent goes down into the entry's table and, where
/// that table is new, points the entry to it afterwards. It ends when
/// nothing is left to map, at the table's end, or where it fails.
pub open spec fn map_entries(
    state: MapState,
    request: MapRequest,
    table: int,
    level: int,
    table_len: int,
    index: int,
) -> MapOutcome
    decreases 3 - level, table_len - index,
{
    if level >= 3 || state.cursor.remaining_pages == 0 || index >= table_len {
        MapOutcome { state, ok: true }
    } else if block_fits(request, state.cursor, level) {
        let written = MapState {
            memory: state.memory.write_entry(
                table,
                index,
                state.cursor.physical_address | request.attributes(true),
            ),
            pool: state.pool,
            cursor: state.cursor.advanced(entry_span(level) as int / PAGE_SIZE as int, false),
        };
        map_entries(written, request, table, level, table_len, index + 1)
    } else {
        let child = child_table(
            state.memory,
            state.pool,
            state.memory.entry(table, index),
            level,
        );
        let ready = MapState { memory: child.memory, pool: child.pool, cursor: state.cursor };
        match child.table {
            None => MapOutcome { state: ready, ok: false },
            Some(next) => {
                let below = map_table(ready, request, next as int, level + 1, 1);
                if !below.ok {
                    below
                } else {
                    let linked = match child.created {
                        Some(descriptor) => MapState {
                            memory: below.state.memory.write_entry(table, index, descriptor),
                            pool: below.state.pool,
                            cursor: below.state.cursor,
                        },
                        None => below.state,
                    };
                    map_entries(linked, request, table, level, table_len, index + 1)
                }
            },
        }
    }
}

/// What a descent does to the `concatenated_tables` tables that lie from
/// `table` on, at `level`: it fails, and changes nothing, where they do not
/// lie in memory; at level 3 it writes the leaves; above, it goes through
/// the entries from the one that maps the cursor's input address.
pub open spec fn map_table(
    state: MapState,
    request: MapRequest,
    table: int,
    level: int,
    concatenated_tables: int,
) -> MapOutcome
    decreases 3 - level, TABLE_ENTRIES * concatenated_tables + 1,
{
    let table_len = TABLE_ENTRIES * concatenated_tables;
    let index = table_index(state.cursor.virtual_address, level, table_len);
    if concatenated_tables < 1 || !state.memory.holds(table, table_len) {
        MapOutcome { state, ok: false }
    } else if level >= 3 {
        MapOutcome { state: after_leaves(state, request, table, index, table_len), ok: true }
    } else {
        map_entries(state, request, table, level, table_len, index)
    }
}

/// Writing a run and then the entry behind it is writing the longer run.
pub proof fn lemma_write_run_push(
    memory: MemoryView,
    table: int,
    index: int,
    values: Seq<u64>,
    value: u64,
)
    requires
        0 <= index,
        memory.holds(table, index + values.len() + 1),
    ensures
        memory.write_run(table, index, values).write_entry(table, index + values.len(), value)
            == memory.write_run(table, index, values.push(value)),
{
    let left = memory.write_run(table, index, values).write_entry(
        table,
        index + values.len(),
        value,
    );
    let right = memory.write_run(table, index, values.push(value));
    assert(left.words =~= right.words);
}

/// Writing an empty run changes nothing.
pub proof fn lemma_write_run_empty(memory: MemoryView, table: int, index: int)
    ensures
        memory.write_run(table, index, Seq::<u64>::empty()) == memory,
{
    assert(memory.write_run(table, index, Seq::<u64>::empty()).words =~= memory.words);
}

/// Writes the table that takes the place of the block `descriptor`, found
/// in a table at `level`, to the frame at `frame`.
pub fn fill_split_table(memory: &mut PhysicalMemory, frame: u64, descriptor: u64, level: i8)
    requires
        old(memory)@.holds(frame as int, TABLE_ENTRIES as int),
        -2 <= level < 3,
    ensures
        final(memory)@ == old(memory)@.write_run(
            frame as int,
            0,
            split_run(descriptor, level as int, TABLE_ENTRIES as int),
        ),
{
    let block_address: u64 = extract_output_address(descriptor, table_level_to_entry_span(level));
    let kept: u64 = descriptor ^ block_address;
    let attribute: u64 = if level + 1 == 3 {
        (kept | DESCRIPTOR_TABLE_OR_PAGE) & !PAGE_DESCRIPTORS_NT
    } else {
        kept
    };
    let step: u64 = table_level_to_entry_span(level + 1);
    assert(block_address <= 0x0003_ffff_ffff_ffff) by (bit_vector)
        requires
            block_address == descriptor & (0x0003_ffff_ffff_ffffu64 & !((entry_span(
                level as int,
            ) - 1) as u64)),
    ;
    let mut k: u64 = 0;
    proof {
        lemma_write_run_empty(old(memory)@, frame as int, 0);
        assert(split_run(descriptor, level as int, 0) =~= Seq::<u64>::empty());
    }
    while k < TABLE_ENTRIES
        invariant
            k <= TABLE_ENTRIES,
            -2 <= level < 3,
            step == entry_span(level + 1),
            block_address == output_address(descriptor, entry_span(level as int)),
            block_address <= 0x0003_ffff_ffff_ffff,
            kept == descriptor ^ block_address,
            attribute == if level + 1 == 3 {
                (kept | DESCRIPTOR_TABLE_OR_PAGE) & !PAGE_DESCRIPTORS_NT
            } else {
                kept
            },
            old(memory)@.holds(frame as int, TABLE_ENTRIES as int),
            memory@ == old(memory)@.write_run(
                frame as int,
                0,
                split_run(descriptor, level as int, k as int),
            ),
        decreases TABLE_ENTRIES - k,
    {
        let entry: u64 = (block_address + k * step) | attribute;
        proof {
            lemma_write_run_push(
                old(memory)@,
                frame as int,
                0,
                split_run(descriptor, level as int, k as int),
                entry,
            );
            assert(split_run(descriptor, level as int, k as int).push(entry) =~= split_run(
                descriptor,
                level as int,
                k + 1,
            ));
        }
        memory.write_entry(frame, k, entry);
        k += 1;
    }
}

/// Writes an empty table to the frame at `frame`.
pub fn fill_empty_table(memory: &mut PhysicalMemory, frame: u64)
    requires
        old(memory)@.holds(frame as int, TABLE_ENTRIES as int),
    ensures
        final(memory)@ == old(memory)@.write_run(frame as int, 0, zero_run(TABLE_ENTRIES as int)),
{
    let mut k: u64 = 0;
    proof {
        lemma_write_run_empty(old(memory)@, frame as int, 0);
        assert(zero_run(0) =~= Seq::<u64>::empty());
    }
    while k < TABLE_ENTRIES
        invariant
            k <= TABLE_ENTRIES,
            old(memory)@.holds(frame as int, TABLE_ENTRIES as int),
            memory@ == old(memory)@.write_run(frame as int, 0, zero_run(k as int)),
        decreases TABLE_ENTRIES - k,
    {
        proof {
            lemma_write_run_push(old(memory)@, frame as int, 0, zero_run(k as int), 0);
            assert(zero_run(k as int).push(0u64) =~= zero_run(k + 1));
        }
        memory.write_entry(frame, k, 0);
        k += 1;
    }
}

/// Makes ready the table that a descent goes down into from an entry of a
/// table at `level` that holds `descriptor`, and returns its address and,
/// where it is new, the descriptor that points to it.
pub fn prepare_child_table(
    memory: &mut PhysicalMemory,
    pool: &mut FramePool,
    request: &MapRequest,
    descriptor: u64,
    level: i8,
) -> (child: Result<(u64, Option<u64>), ()>)
    requires
        old(pool).well_formed(),
        -2 <= level < 3,
    ensures
        final(pool).well_formed(),
        final(memory)@.same_extent(old(memory)@),
        final(memory)@ == child_table(old(memory)@, *old(pool), descriptor, level as int).memory,
        *final(pool) == child_table(old(memory)@, *old(pool), descriptor, level as int).pool,
        match child_table(old(memory)@, *old(pool), descriptor, level as int).table {
            None => child is Err,
            Some(table) => child == Ok::<(u64, Option<u64>), ()>(
                (table, child_table(old(memory)@, *old(pool), descriptor, level as int).created),
            ),
        },
{
    if is_descriptor_table_or_level_3_descriptor(descriptor) {
        return Ok((extract_output_address(descriptor, PAGE_SIZE), None));
    }
    proof {
        lemma_alignment_of_bits(12);
    }
    let allocated = if request.stage_2 {
        allocate_page_table_for_stage_2(pool, level, request.t0sz, false, 1)
    } else {
        allocate_page_table_for_stage_1(pool, level, request.t0sz, false)
    };
    let frame: u64 = match allocated {
        Err(_) => {
            return Err(());
        },
        Ok(frame) => frame,
    };
    if !memory.contains(frame, TABLE_ENTRIES) {
        return Err(());
    }
    if is_block_descriptor(descriptor) {
        fill_split_table(memory, frame, descriptor, level);
    } else {
        fill_empty_table(memory, frame);
    }
    let created: u64 = frame | DESCRIPTOR_TABLE_OR_PAGE;
    Ok((extract_output_address(created, PAGE_SIZE), Some(created)))
}

/// Writes the leaves of the level-3 table at `table` from entry `index` on
/// and moves the cursor past what they map.
#[verifier::rlimit(40)]
pub fn write_leaves(
    memory: &mut PhysicalMemory,
    cursor: &mut MapCursor,
    request: &MapRequest,
    table: u64,
    index: u64,
    table_len: u64,
)
    requires
        old(memory)@.holds(table as int, table_len as int),
        index < table_len <= 0x2_0000,
        old(cursor).in_range(request.holds_output()),
    ensures
        final(memory)@ == leaves_memory(
            old(memory)@,
            *old(cursor),
            *request,
            table as int,
            index as int,
            table_len as int,
        ),
        *final(cursor) == old(cursor).advanced(
            leaf_count(*old(cursor), index as int, table_len as int),
            request.holds_output(),
        ),
        final(memory)@.same_extent(old(memory)@),
        final(cursor).input_end() == old(cursor).input_end(),
        !request.holds_output() ==> final(cursor).output_end() == old(cursor).output_end(),
        request.holds_output() ==> final(cursor).physical_address == old(cursor).physical_address,
{
    let count: u64 = if cursor.remaining_pages > table_len - index {
        table_len - index
    } else {
        cursor.remaining_pages
    };
    if request.stage_2 {
        let group: u64 = index - index % CONTIGUOUS_RUN;
        let first_of_group = memory.read_entry(table, group);
        memory.write_entry(table, group, first_of_group & !PAGE_DESCRIPTORS_CONTIGUOUS);
    }
    let attributes: u64 = request.leaf_attributes(false);
    let end: u64 = index + count;
    let ghost opened = memory@;
    let ghost start = *cursor;
    let mut i: u64 = index;
    proof {
        lemma_write_run_empty(opened, table as int, index as int);
        assert(leaf_run(*request, start, index as int, end as int, 0) =~= Seq::<u64>::empty());
    }
    while i < end
        invariant
            index <= i <= end <= table_len,
            end == index + count,
            count <= start.remaining_pages,
            start == *old(cursor),
            start.in_range(request.holds_output()),
            attributes == request.attributes(false),
            opened.holds(table as int, table_len as int),
            opened.same_extent(old(memory)@),
            memory@ == opened.write_run(
                table as int,
                index as int,
                leaf_run(*request, start, index as int, end as int, i - index),
            ),
            cursor.remaining_pages == start.remaining_pages,
            cursor.virtual_address == start.virtual_address + (i - index) * PAGE_SIZE,
            cursor.physical_address == if request.holds_output() {
                start.physical_address as int
            } else {
                start.physical_address + (i - index) * PAGE_SIZE
            },
        decreases end - i,
    {
        let plain: u64 = cursor.physical_address | attributes;
        let entry: u64 = if request.stage_2 && !request.is_dummy_page && i % CONTIGUOUS_RUN == 0
            && end - i >= CONTIGUOUS_RUN {
            plain | PAGE_DESCRIPTORS_CONTIGUOUS
        } else {
            plain
        };
        proof {
            let run = leaf_run(*request, start, index as int, end as int, i - index);
            lemma_write_run_push(opened, table as int, index as int, run, entry);
            assert(run.push(entry) =~= leaf_run(
                *request,
                start,
                index as int,
                end as int,
                i - index + 1,
            ));
        }
        memory.write_entry(table, i, entry);
        if !(request.stage_2 && request.is_dummy_page) {
            cursor.physical_address = cursor.physical_address + PAGE_SIZE;
        }
        cursor.virtual_address = cursor.virtual_address + PAGE_SIZE;
        i += 1;
    }
    cursor.remaining_pages = cursor.remaining_pages - count;
}

/// Maps what the cursor says into the `concatenated_tables` tables that lie
/// from `table_address` on, at `table_level`, and into the tables below
/// them, taking new tables from the pool. An error where a table does not
/// lie in memory or the pool gives out; the cursor then says how far the
/// descent came.
#[verifier::rlimit(40)]
pub fn map_address_recursive_tables(
    memory: &mut PhysicalMemory,
    pool: &mut FramePool,
    cursor: &mut MapCursor,
    request: &MapRequest,
    table_address: u64,
    table_level: i8,
    concatenated_tables: u8,
) -> (mapped: Result<(), ()>)
    requires
        old(pool).well_formed(),
        -2 <= table_level <= 3,
        old(cursor).in_range(request.holds_output()),
    ensures
        ({
            let outcome = map_table(
                MapState { memory: old(memory)@, pool: *old(pool), cursor: *old(cursor) },
                *request,
                table_address as int,
                table_level as int,
                concatenated_tables as int,
            );
            &&& mapped is Ok <==> outcome.ok
            &&& final(memory)@ == outcome.state.memory
            &&& *final(pool) == outcome.state.pool
            &&& *final(cursor) == outcome.state.cursor
        }),
        final(pool).well_formed(),
        final(memory)@.same_extent(old(memory)@),
        final(cursor).input_end() == old(cursor).input_end(),
        !request.holds_output() ==> final(cursor).output_end() == old(cursor).output_end(),
        request.holds_output() ==> final(cursor).physical_address == old(cursor).physical_address,
    decreases 3 - table_level,
{
    if concatenated_tables < 1 {
        return Err(());
    }
    let table_len: u64 = TABLE_ENTRIES * (concatenated_tables as u64);
    if !memory.contains(table_address, table_len) {
        return Err(());
    }
    let span: u64 = table_level_to_entry_span(table_level);
    let mut index: u64 = (cursor.virtual_address / span) % table_len;
    if table_level == 3 {
        write_leaves(memory, cursor, request, table_address, index, table_len);
        return Ok(());
    }
    let ghost goal = map_table(
        MapState { memory: old(memory)@, pool: *old(pool), cursor: *old(cursor) },
        *request,
        table_address as int,
        table_level as int,
        concatenated_tables as int,
    );
    while cursor.remaining_pages != 0 && index < table_len
        invariant
            -2 <= table_level < 3,
            span == entry_span(table_level as int),
            table_len == TABLE_ENTRIES * concatenated_tables,
            index <= table_len,
            pool.well_formed(),
            cursor.in_range(request.holds_output()),
            memory@.same_extent(old(memory)@),
            memory@.holds(table_address as int, table_len as int),
            cursor.input_end() == old(cursor).input_end(),
            !request.holds_output() ==> cursor.output_end() == old(cursor).output_end(),
            request.holds_output() ==> cursor.physical_address == old(cursor).physical_address,
            goal == map_table(
                MapState { memory: old(memory)@, pool: *old(pool), cursor: *old(cursor) },
                *request,
                table_address as int,
                table_level as int,
                concatenated_tables as int,
            ),
            map_entries(
                MapState { memory: memory@, pool: *pool, cursor: *cursor },
                *request,
                table_address as int,
                table_level as int,
                table_len as int,
                index as int,
            ) == goal,
        decreases table_len - index,
    {
        if !(request.stage_2 && request.is_dummy_page) && table_level > 1 && cursor.physical_address
            % span == 0 && cursor.virtual_address % span == 0 && cursor.remaining_pages >= span
            / PAGE_SIZE {
            let attributes: u64 = request.leaf_attributes(true);
            memory.write_entry(table_address, index, cursor.physical_address | attributes);
            cursor.physical_address = cursor.physical_address + span;
            cursor.virtual_address = cursor.virtual_address + span;
            cursor.remaining_pages = cursor.remaining_pages - span / PAGE_SIZE;
        } else {
            let target_descriptor: u64 = memory.read_entry(table_address, index);
            let (next_table, created_entry) = match prepare_child_table(
                memory,
                pool,
                request,
                target_descriptor,
                table_level,
            ) {
                Err(_) => {
                    return Err(());
                },
                Ok(child) => child,
            };
            match map_address_recursive_tables(
                memory,
                pool,
                cursor,
                request,
                next_table,
                table_level + 1,
                1,
            ) {
                Err(_) => {
                    return Err(());
                },
                Ok(_) => {},
            }
            if let Some(new_descriptor) = created_entry {
                memory.write_entry(table_address, index, new_descriptor);
            }
        }
        index += 1;
    }
    Ok(())
}

} // verus!
