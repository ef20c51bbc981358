//! When a mapping is owed success: the pool has frames enough, and they lie
//! in memory.

use vstd::prelude::*;
use crate::copy::{copy_entries, copy_page_table_result, copy_table, repointed, table_run};
use crate::copy_law::{
    copied_up_to, entry_is_copy, lemma_copy_link, lemma_copy_table, pool_ready, same_tables,
};
use crate::descriptor::{
    entry_span, is_table_or_page, output_address, permission_mask, DESCRIPTOR_TABLE_OR_PAGE,
};
use crate::forest::{forest, forest_table, grows, table_known};
use crate::map_law::{
    after_descent, cover, in_slot, lemma_map_block_step, lemma_map_child, lemma_map_descend_step,
    lemma_map_table, lemma_placed_pages_hold, lemma_slot_in_cover, lemma_slot_of_page, map_ready,
    stage_1_tree,
};
use crate::mapping::{
    block_fits, child_table, map_entries, map_table, table_index, MapCursor, MapRequest, MapState,
};
use crate::memory::{FramePool, MemoryView, PAGE_SIZE, TABLE_ENTRIES};
use crate::paging::{
    map_address_result, map_address_starts, map_dummy_result, map_dummy_starts, pages_for,
    stage_1_request, stage_2_request, widened_tcr, MachineView, PERMISSION_ALL,
};
use crate::registers::{
    concatenation_bits, first_attribute_index, initial_level, sl0_of, stage_2_initial_level,
    t0sz_of, tables_for, ttbr_base_address, wanted_attribute,
};
use crate::stage2::{
    identity_run, identity_tables, setup_stage_2_result, stage_2_tree, IDENTITY_FIRST_LEVEL,
    IDENTITY_T0SZ, IDENTITY_TOP_ENTRIES,
};
use crate::table_alloc::{aligned_frames, lemma_alignment_of_bits, stage_2_table};
use crate::table_laws::{lemma_entry_inside_run, lemma_entry_outside_run};
use crate::tree::{lemma_index_of, pages_placed, place_known, reach, tree, tree_table, Place};

verus! {

/// The frames that a descent from a table at `level` may take from the pool
/// to map `pages` pages: one for each level below it, for each page.
pub open spec fn budget(level: int, pages: int) -> int {
    if level >= 3 {
        0
    } else if level == 2 {
        pages
    } else if level == 1 {
        2 * pages
    } else {
        3 * pages
    }
}

/// Whether the pool of `state` can supply tables: its next frame lies at a
/// multiple of the page size, and all its frames lie in memory.
pub open spec fn supplied(state: MapState) -> bool {
    &&& pool_ready(state.pool)
    &&& state.memory.holds(state.pool.next as int, TABLE_ENTRIES * state.pool.remaining)
}

/// What a descent that is owed success leaves: it succeeded, the pool can
/// still supply tables, it took no more frames than the pages that it
/// mapped allow, and it mapped a page at the least.
pub open spec fn supplied_step(state: MapState, out: MapState, ok: bool, level: int) -> bool {
    &&& ok
    &&& supplied(out)
    &&& out.cursor.remaining_pages <= state.cursor.remaining_pages
    &&& out.pool.remaining + budget(
        level,
        state.cursor.remaining_pages - out.cursor.remaining_pages,
    ) >= state.pool.remaining
}

/// A descent from the top of a placed run of tables succeeds where the
/// pool can supply a table for each level below, for each page to map.
pub proof fn lemma_table_succeeds(
    state: MapState,
    request: MapRequest,
    places: Map<int, Place>,
    table: int,
    level: int,
    pages: int,
    first: int,
)
    requires
        map_ready(state, request, places),
        pages_placed(places, table, level, first, pages),
        1 <= pages <= 16,
        0 <= level <= 3,
        first % cover(level, pages) == 0,
        first <= state.cursor.virtual_address < first + cover(level, pages),
        supplied(state),
        state.pool.remaining >= budget(level, state.cursor.remaining_pages as int),
    ensures
        ({
            let out = map_table(state, request, table, level, pages);
            &&& supplied_step(state, out.state, out.ok, level)
            &&& (state.cursor.remaining_pages > 0 ==> out.state.cursor.remaining_pages
                < state.cursor.remaining_pages)
        }),
    decreases 3 - level, TABLE_ENTRIES * pages + 1, 0int,
{
    let table_len = TABLE_ENTRIES * pages;
    lemma_placed_pages_hold(state.memory, state.pool, places, table, level, first, pages);
    if level >= 3 {
        lemma_index_of(state.cursor.virtual_address as int, first, 0x1000, table_len);
    } else {
        let span = entry_span(level) as int;
        lemma_index_of(state.cursor.virtual_address as int, first, span, table_len);
        let index = table_index(state.cursor.virtual_address, level, table_len);
        lemma_entries_succeed(state, request, places, table, level, pages, first, index);
    }
}

/// A descent from entry `index` of a placed run of tables on succeeds
/// where the pool can supply a table for each level below, for each page to
/// map.
#[verifier::rlimit(40)]
pub proof fn lemma_entries_succeed(
    state: MapState,
    request: MapRequest,
    places: Map<int, Place>,
    table: int,
    level: int,
    pages: int,
    first: int,
    index: int,
)
    requires
        map_ready(state, request, places),
        pages_placed(places, table, level, first, pages),
        1 <= pages <= 16,
        0 <= level < 3,
        first % cover(level, pages) == 0,
        0 <= index <= TABLE_ENTRIES * pages,
        first <= state.cursor.virtual_address <= first + cover(level, pages),
        state.cursor.remaining_pages == 0 || (index < TABLE_ENTRIES * pages && in_slot(
            state,
            level,
            first,
            index,
        )) || (index == TABLE_ENTRIES * pages && state.cursor.virtual_address == first + cover(
            level,
            pages,
        )),
        supplied(state),
        state.pool.remaining >= budget(level, state.cursor.remaining_pages as int),
    ensures
        ({
            let out = map_entries(state, request, table, level, TABLE_ENTRIES * pages, index);
            &&& supplied_step(state, out.state, out.ok, level)
            &&& (state.cursor.remaining_pages > 0 && index < TABLE_ENTRIES * pages
                ==> out.state.cursor.remaining_pages < state.cursor.remaining_pages)
        }),
    decreases 3 - level, TABLE_ENTRIES * pages - index, 1int,
{
    let table_len = TABLE_ENTRIES * pages;
    if state.cursor.remaining_pages == 0 || index >= table_len {
    } else {
        lemma_slot_in_cover(level, pages, first, index);
        lemma_placed_pages_hold(state.memory, state.pool, places, table, level, first, pages);
        if block_fits(request, state.cursor, level) {
            lemma_map_block_step(state, request, places, table, level, pages, first, index);
            let written = MapState {
                memory: state.memory.write_entry(
                    table,
                    index,
                    state.cursor.physical_address | request.attributes(true),
                ),
                pool: state.pool,
                cursor: state.cursor.advanced(entry_span(level) as int / PAGE_SIZE as int, false),
            };
            if index + 1 < table_len {
                lemma_slot_in_cover(level, pages, first, index + 1);
            }
            lemma_entries_succeed(written, request, places, table, level, pages, first, index + 1);
        } else {
            let span = entry_span(level) as int;
            let slot_low = first + index * span;
            let page = table + (index / 512) * PAGE_SIZE;
            let page_base = first + (index / 512) * reach(level);
            let slot = index % 512;
            lemma_slot_of_page(level, first, index);
            assert(place_known(places, page, level, page_base));
            assert(tree_table(state.memory, state.pool, places, page));
            let descriptor = state.memory.entry(table, index);
            assert(descriptor == state.memory.entry(page, slot));
            let child = child_table(state.memory, state.pool, descriptor, level);
            if !is_table_or_page(descriptor) {
                lemma_alignment_of_bits(12);
                assert(aligned_frames(state.pool, 1, 1u64 << 12).table == Some(state.pool.next));
            }
            assert(child.table is Some);
            let ready = MapState { memory: child.memory, pool: child.pool, cursor: state.cursor };
            let later1 = lemma_map_child(state, request, places, page, slot, level, page_base);
            let next = child.table->0 as int;
            assert(pages_placed(later1, next, level + 1, slot_low, 1)) by {
                assert forall|k: int| 0 <= k < 1 implies #[trigger] place_known(
                    later1,
                    next + k * PAGE_SIZE,
                    level + 1,
                    slot_low + k * reach(level + 1),
                ) by {}
            }
            assert(cover(level + 1, 1) == span);
            lemma_table_succeeds(ready, request, later1, next, level + 1, 1, slot_low);
            let later2 = lemma_map_descend_step(
                state,
                request,
                places,
                table,
                level,
                pages,
                first,
                index,
            );
            let linked = after_descent(state, request, table, level, index);
            assert(pages_placed(later2, table, level, first, pages)) by {
                assert forall|k: int| 0 <= k < pages implies #[trigger] place_known(
                    later2,
                    table + k * PAGE_SIZE,
                    level,
                    first + k * reach(level),
                ) by {
                    assert(place_known(
                        places,
                        table + k * PAGE_SIZE,
                        level,
                        first + k * reach(level),
                    ));
                }
            }
            if index + 1 < table_len {
                lemma_slot_in_cover(level, pages, first, index + 1);
            }
            lemma_entries_succeed(linked, request, later2, table, level, pages, first, index + 1);
        }
    }
}

/// Whether the pool of `machine` can supply tables: its next frame lies at
/// a multiple of the page size, and all its frames lie in memory.
pub open spec fn machine_supplied(machine: MachineView) -> bool {
    &&& pool_ready(machine.allocator)
    &&& machine.memory.holds(
        machine.allocator.next as int,
        TABLE_ENTRIES * machine.allocator.remaining,
    )
}

/// `map_address` succeeds where the range is in order, lies within what
/// the top table maps, and the pool can supply a table for each level below
/// the top, for each page of the range.
///
/// This is stated of stage-1 tables that form a tree with its top at one of
/// the levels 0 to 3.
pub proof fn lemma_map_address_succeeds(
    machine: MachineView,
    physical_address: u64,
    virtual_address: u64,
    size: u64,
    readable: bool,
    writable: bool,
    executable: bool,
    is_device: bool,
    places: Map<int, Place>,
)
    requires
        stage_1_tree(machine, places, initial_level(machine.registers.tcr_el2)),
        map_address_starts(machine, physical_address, virtual_address, size, is_device),
        virtual_address % PAGE_SIZE == 0,
        virtual_address < reach(initial_level(machine.registers.tcr_el2)),
        virtual_address + pages_for(size) * PAGE_SIZE <= reach(
            initial_level(machine.registers.tcr_el2),
        ),
        physical_address + pages_for(size) * PAGE_SIZE <= crate::memory::PHYSICAL_ADDRESS_LIMIT,
        machine_supplied(machine),
        machine.allocator.remaining >= budget(
            initial_level(machine.registers.tcr_el2),
            pages_for(size),
        ),
    ensures
        map_address_result(
            machine,
            physical_address,
            virtual_address,
            size,
            readable,
            writable,
            executable,
            is_device,
        ).ok,
{
    let level = initial_level(machine.registers.tcr_el2);
    let root = ttbr_base_address(machine.registers.ttbr0_el2) as int;
    let tcr_el2 = widened_tcr(machine.registers.tcr_el2, (virtual_address + size) as u64);
    let request = stage_1_request(
        permission_mask(readable, writable, executable),
        first_attribute_index(machine.registers.mair_el2, wanted_attribute(is_device), 0)->0,
        t0sz_of(tcr_el2) as u8,
    );
    let state = MapState {
        memory: machine.memory,
        pool: machine.allocator,
        cursor: MapCursor {
            physical_address,
            virtual_address,
            remaining_pages: pages_for(size) as u64,
        },
    };
    assert(tree_table(machine.memory, machine.allocator, places, root));
    assert(pages_placed(places, root, level, 0, 1)) by {
        assert forall|k: int| 0 <= k < 1 implies #[trigger] place_known(
            places,
            root + k * PAGE_SIZE,
            level,
            0 + k * reach(level),
        ) by {}
    }
    assert(cover(level, 1) == reach(level));
    lemma_table_succeeds(state, request, places, root, level, 1, 0);
    let later = lemma_map_table(state, request, places, root, level, 1, 0);
}

/// `map_dummy_page_into_vttbr_el2` succeeds where the range is in order,
/// lies within what the top tables map, and the pool can supply a table for
/// each level below the top, for each page of the range.
///
/// This is stated of stage-2 tables that form a tree.
pub proof fn lemma_dummy_mapping_succeeds(
    machine: MachineView,
    virtual_address: u64,
    size: u64,
    dummy_page: u64,
    places: Map<int, Place>,
)
    requires
        stage_2_tree(machine, places),
        map_dummy_starts(machine, virtual_address, size),
        virtual_address % PAGE_SIZE == 0,
        virtual_address < cover(
            stage_2_initial_level(sl0_of(machine.registers.vtcr_el2)),
            tables_for(
                concatenation_bits(
                    t0sz_of(machine.registers.vtcr_el2) as int,
                    stage_2_initial_level(sl0_of(machine.registers.vtcr_el2)),
                ),
            ) as int,
        ),
        virtual_address + size <= cover(
            stage_2_initial_level(sl0_of(machine.registers.vtcr_el2)),
            tables_for(
                concatenation_bits(
                    t0sz_of(machine.registers.vtcr_el2) as int,
                    stage_2_initial_level(sl0_of(machine.registers.vtcr_el2)),
                ),
            ) as int,
        ),
        dummy_page % PAGE_SIZE == 0,
        dummy_page < crate::memory::PHYSICAL_ADDRESS_LIMIT,
        machine_supplied(machine),
        machine.allocator.remaining >= budget(
            stage_2_initial_level(sl0_of(machine.registers.vtcr_el2)),
            size as int / PAGE_SIZE as int,
        ),
    ensures
        map_dummy_result(machine, virtual_address, size, dummy_page).ok,
{
    let level = stage_2_initial_level(sl0_of(machine.registers.vtcr_el2));
    let t0sz = t0sz_of(machine.registers.vtcr_el2);
    let pages = tables_for(concatenation_bits(t0sz as int, level)) as int;
    let root = ttbr_base_address(machine.registers.vttbr_el2) as int;
    let request = stage_2_request(PERMISSION_ALL, false, true, t0sz as u8);
    let state = MapState {
        memory: machine.memory,
        pool: machine.allocator,
        cursor: MapCursor {
            physical_address: dummy_page,
            virtual_address,
            remaining_pages: size / PAGE_SIZE,
        },
    };
    assert(cover(level, pages) > 0) by (nonlinear_arith)
        requires
            cover(level, pages) == 512 * pages * entry_span(level),
            pages >= 1,
            entry_span(level) > 0,
    ;
    lemma_table_succeeds(state, request, places, root, level, pages, 0);
    let later = lemma_map_table(state, request, places, root, level, pages, 0);
}

/// Making the level-2 tables of the identity map succeeds where the pool
/// can supply them.
pub proof fn lemma_identity_tables_succeed(memory: MemoryView, pool: FramePool, root: int, i: int)
    requires
        0 <= i <= IDENTITY_TOP_ENTRIES,
        pool_ready(pool),
        memory.holds(pool.next as int, TABLE_ENTRIES * pool.remaining),
        memory.holds(root, IDENTITY_TOP_ENTRIES as int),
        pool.remaining >= IDENTITY_TOP_ENTRIES - i,
    ensures
        identity_tables(memory, pool, root, i).ok,
    decreases IDENTITY_TOP_ENTRIES - i,
{
    if i < IDENTITY_TOP_ENTRIES {
        lemma_alignment_of_bits(12);
        let frame = pool.next;
        assert(aligned_frames(pool, 1, 1u64 << 12).table == Some(frame));
        let next = memory.write_run(
            frame as int,
            0,
            identity_run(i, TABLE_ENTRIES as int),
        ).write_entry(root, i, frame | DESCRIPTOR_TABLE_OR_PAGE);
        lemma_identity_tables_succeed(next, pool.after(1), root, i + 1);
    }
}

/// Two frames at a multiple of 8 KiB can be had from a pool of five frames
/// whose next frame lies at a multiple of the page size; three frames are
/// lost at the most.
pub proof fn lemma_top_tables_can_be_had(pool: FramePool)
    requires
        pool_ready(pool),
        pool.remaining >= 5,
    ensures
        ({
            let taken = aligned_frames(pool, 2, 0x2000);
            &&& taken.table is Some
            &&& pool_ready(taken.pool)
            &&& taken.pool.remaining >= pool.remaining - 5
            &&& pool.next <= taken.table->0
            &&& taken.table->0 + 2 * PAGE_SIZE <= taken.pool.next
        }),
{
    if pool.next % 0x2000 != 0 {
        let second = pool.after(2).after(1);
        assert(second.next == pool.next + 0x3000);
        assert(second.next % 0x2000 == 0);
        assert(aligned_frames(pool, 2, 0x2000) == aligned_frames(second, 2, 0x2000));
    }
}

/// `setup_stage_2_translation` succeeds where the pool's next frame lies at
/// a multiple of the page size, all its frames lie in memory, and it has
/// 1029 frames at the least: two top tables, up to three frames lost to
/// their alignment, and 1024 level-2 tables.
#[verifier::rlimit(40)]
pub proof fn lemma_setup_succeeds(machine: MachineView)
    requires
        machine_supplied(machine),
        machine.allocator.remaining >= IDENTITY_TOP_ENTRIES + 5,
    ensures
        setup_stage_2_result(machine).ok,
{
    let pool = machine.allocator;
    lemma_alignment_of_bits(13);
    lemma_top_tables_can_be_had(pool);
    crate::table_laws::lemma_aligned_frames(pool, 2, 0x2000);
    let top = stage_2_table(pool, IDENTITY_FIRST_LEVEL as int, IDENTITY_T0SZ as int, true, 2);
    assert(top == aligned_frames(pool, 2, 0x2000));
    let root = top.table->0;
    assert(machine.memory.holds(root as int, IDENTITY_TOP_ENTRIES as int));
    lemma_identity_tables_succeed(machine.memory, top.pool, root as int, 0);
}

/// How many tables the tree below the table at `table`, at `level`, has:
/// the table, and the tables below each of its table descriptors.
pub open spec fn tables_in(memory: MemoryView, table: int, level: int) -> int
    decreases 3 - level, TABLE_ENTRIES + 1,
{
    if level >= 3 {
        1
    } else {
        1 + tables_from(memory, table, level, 0)
    }
}

/// How many tables lie below the table descriptors of the table at `table`
/// from entry `index` on.
pub open spec fn tables_from(memory: MemoryView, table: int, level: int, index: int) -> int
    decreases 3 - level, TABLE_ENTRIES - index,
{
    if level >= 3 || index >= TABLE_ENTRIES || index < 0 {
        0
    } else {
        let descriptor = memory.entry(table, index);
        (if is_table_or_page(descriptor) {
            tables_in(memory, output_address(descriptor, PAGE_SIZE) as int, level + 1)
        } else {
            0
        }) + tables_from(memory, table, level, index + 1)
    }
}

/// A tree has a table at the least, and as many tables in two memories
/// that agree on the tables of a forest which the tree belongs to.
pub proof fn lemma_tables_in(
    memory: MemoryView,
    other: MemoryView,
    pool: FramePool,
    levels: Map<int, int>,
    table: int,
    level: int,
)
    requires
        forest(memory, pool, levels),
        table_known(levels, table, level),
        same_tables(memory, other, levels),
    ensures
        tables_in(memory, table, level) >= 1,
        tables_in(other, table, level) == tables_in(memory, table, level),
    decreases 3 - level, TABLE_ENTRIES + 1,
{
    if level < 3 {
        lemma_tables_from(memory, other, pool, levels, table, level, 0);
    }
}

/// The tables below the entries of a table from `index` on are none or
/// more, and as many in two memories that agree on the tables of a forest
/// which the table belongs to.
pub proof fn lemma_tables_from(
    memory: MemoryView,
    other: MemoryView,
    pool: FramePool,
    levels: Map<int, int>,
    table: int,
    level: int,
    index: int,
)
    requires
        forest(memory, pool, levels),
        table_known(levels, table, level),
        same_tables(memory, other, levels),
        0 <= index <= TABLE_ENTRIES,
        level < 3,
    ensures
        tables_from(memory, table, level, index) >= 0,
        tables_from(other, table, level, index) == tables_from(memory, table, level, index),
    decreases 3 - level, TABLE_ENTRIES - index,
{
    if index < TABLE_ENTRIES {
        assert(forest_table(memory, pool, levels, table));
        let descriptor = memory.entry(table, index);
        assert(other.entry(table, index) == descriptor);
        if is_table_or_page(descriptor) {
            lemma_tables_in(
                memory,
                other,
                pool,
                levels,
                output_address(descriptor, PAGE_SIZE) as int,
                level + 1,
            );
        }
        lemma_tables_from(memory, other, pool, levels, table, level, index + 1);
    }
}

/// Whether a pool can supply the frames of a copy in `memory`: its next
/// frame lies at a multiple of the page size, and all its frames lie in
/// memory.
pub open spec fn copy_supplied(memory: MemoryView, pool: FramePool) -> bool {
    pool_ready(pool) && memory.holds(pool.next as int, TABLE_ENTRIES * pool.remaining)
}

/// A forest stays a forest while its tables stay as they are and the pool
/// only gives frames away.
pub proof fn lemma_forest_kept(
    memory: MemoryView,
    pool: FramePool,
    levels: Map<int, int>,
    other: MemoryView,
    other_pool: FramePool,
)
    requires
        forest(memory, pool, levels),
        same_tables(memory, other, levels),
        other.same_extent(memory),
        pool.next <= other_pool.next,
        other_pool.end() == pool.end(),
    ensures
        forest(other, other_pool, levels),
{
    assert forall|t: int| #[trigger] levels.contains_key(t) implies forest_table(
        other,
        other_pool,
        levels,
        t,
    ) by {
        assert(forest_table(memory, pool, levels, t));
        if levels[t] < 3 {
            assert forall|i: int|
                0 <= i < TABLE_ENTRIES && is_table_or_page(
                    #[trigger] other.entry(t, i),
                ) implies table_known(
                levels,
                output_address(other.entry(t, i), PAGE_SIZE) as int,
                levels[t] + 1,
            ) by {
                assert(other.entry(t, i) == memory.entry(t, i));
            }
        }
    }
}

/// Copying the tree below a known table succeeds where the pool can supply
/// a frame for each table of the tree, and takes as many frames.
#[verifier::rlimit(40)]
pub proof fn lemma_copy_table_succeeds(
    memory: MemoryView,
    pool: FramePool,
    levels: Map<int, int>,
    table: int,
    level: int,
)
    requires
        forest(memory, pool, levels),
        copy_supplied(memory, pool),
        table_known(levels, table, level),
        level <= 3,
        pool.remaining >= tables_in(memory, table, level),
    ensures
        copy_table(memory, pool, table, level).table is Some,
        copy_table(memory, pool, table, level).pool.remaining == pool.remaining - tables_in(
            memory,
            table,
            level,
        ),
        copy_table(memory, pool, table, level).pool.next == pool.next + tables_in(
            memory,
            table,
            level,
        ) * 0x1000,
        copy_supplied(
            copy_table(memory, pool, table, level).memory,
            copy_table(memory, pool, table, level).pool,
        ),
    decreases 3 - level, TABLE_ENTRIES + 1, 0int,
{
    lemma_tables_in(memory, memory, pool, levels, table, level);
    assert(forest_table(memory, pool, levels, table));
    let clone = pool.next;
    let taken = pool.after(1);
    let run = table_run(memory, table, TABLE_ENTRIES as int);
    let copied = memory.write_run(clone as int, 0, run);
    if level < 3 {
        let levels1 = levels.insert(clone as int, level);
        assert forall|t: int| levels.contains_key(t) implies t != clone && (t + PAGE_SIZE <= clone
            || clone + PAGE_SIZE <= t) by {
            assert(forest_table(memory, pool, levels, t));
        }
        assert forall|t: int, i: int|
            levels.contains_key(t) && 0 <= i < TABLE_ENTRIES implies #[trigger] copied.entry(t, i)
            == memory.entry(t, i) by {
            assert(forest_table(memory, pool, levels, t));
            lemma_entry_outside_run(memory, clone as int, run, t, i);
        }
        assert forall|i: int| 0 <= i < TABLE_ENTRIES implies #[trigger] copied.entry(
            clone as int,
            i,
        ) == memory.entry(table, i) by {
            lemma_entry_inside_run(memory, clone as int, run, i);
        }
        lemma_forest_kept(memory, pool, levels, copied, taken);
        assert forall|t: int| #[trigger] levels1.contains_key(t) implies forest_table(
            copied,
            taken,
            levels1,
            t,
        ) by {
            if t == clone {
                assert forall|i: int|
                    0 <= i < TABLE_ENTRIES && is_table_or_page(
                        #[trigger] copied.entry(t, i),
                    ) implies table_known(
                    levels1,
                    output_address(copied.entry(t, i), PAGE_SIZE) as int,
                    levels1[t] + 1,
                ) by {
                    assert(copied.entry(clone as int, i) == memory.entry(table, i));
                }
            } else {
                assert(forest_table(copied, taken, levels, t));
                if levels[t] < 3 {
                    assert forall|i: int|
                        0 <= i < TABLE_ENTRIES && is_table_or_page(
                            #[trigger] copied.entry(t, i),
                        ) implies table_known(
                        levels1,
                        output_address(copied.entry(t, i), PAGE_SIZE) as int,
                        levels1[t] + 1,
                    ) by {
                        assert(copied.entry(t, i) == memory.entry(t, i));
                    }
                }
            }
        }
        assert forall|j: int| 0 <= j < TABLE_ENTRIES implies #[trigger] copied.entry(
            clone as int,
            j,
        ) == copied.entry(table, j) by {
            assert(copied.entry(clone as int, j) == memory.entry(table, j));
        }
        lemma_tables_from(memory, copied, pool, levels, table, level, 0);
        lemma_copy_entries_succeed(copied, taken, levels, levels1, table, clone, level, 0);
    }
}

/// Pointing the table descriptors of a copy to copies of their tables
/// succeeds where the pool can supply a frame for each table below them,
/// and takes as many frames.
#[verifier::rlimit(40)]
pub proof fn lemma_copy_entries_succeed(
    memory: MemoryView,
    pool: FramePool,
    sources: Map<int, int>,
    levels: Map<int, int>,
    table: int,
    clone: u64,
    level: int,
    index: int,
)
    requires
        forest(memory, pool, sources),
        forest(memory, pool, levels),
        grows(sources, levels),
        copy_supplied(memory, pool),
        table_known(sources, table, level),
        table_known(levels, clone as int, level),
        !sources.contains_key(clone as int),
        level < 3,
        0 <= index <= TABLE_ENTRIES,
        copied_up_to(memory, table, clone as int, level, index),
        pool.remaining >= tables_from(memory, table, level, index),
    ensures
        copy_entries(memory, pool, clone, level, index).table is Some,
        copy_entries(memory, pool, clone, level, index).pool.remaining == pool.remaining
            - tables_from(memory, table, level, index),
        copy_entries(memory, pool, clone, level, index).pool.next == pool.next + tables_from(
            memory,
            table,
            level,
            index,
        ) * 0x1000,
        copy_supplied(
            copy_entries(memory, pool, clone, level, index).memory,
            copy_entries(memory, pool, clone, level, index).pool,
        ),
    decreases 3 - level, TABLE_ENTRIES - index, 0int,
{
    if index < TABLE_ENTRIES {
        assert(forest_table(memory, pool, sources, table));
        assert(forest_table(memory, pool, levels, clone as int));
        let descriptor = memory.entry(clone as int, index);
        assert(descriptor == memory.entry(table, index));
        lemma_tables_from(memory, memory, pool, sources, table, level, index + 1);
        if is_table_or_page(descriptor) {
            let source = output_address(descriptor, PAGE_SIZE) as int;
            assert(table_known(sources, source, level + 1));
            assert(table_known(levels, source, level + 1));
            lemma_tables_in(memory, memory, pool, sources, source, level + 1);
            lemma_copy_table_succeeds(memory, pool, levels, source, level + 1);
            let below = copy_table(memory, pool, source, level + 1);
            let levels1 = lemma_copy_table(memory, pool, levels, source, level + 1);
            let copy = below.table->0;
            lemma_copy_link(
                memory,
                pool,
                levels,
                below.memory,
                below.pool,
                levels1,
                table,
                clone as int,
                level,
                index,
                copy,
            );
            let linked = below.memory.write_entry(clone as int, index, repointed(descriptor, copy));
            assert(same_tables(memory, linked, sources)) by {
                assert forall|t: int, i: int|
                    sources.contains_key(t) && 0 <= i
                        < TABLE_ENTRIES implies #[trigger] linked.entry(t, i) == memory.entry(
                    t,
                    i,
                ) by {
                    assert(levels.contains_key(t) && t != clone);
                }
            }
            lemma_forest_kept(memory, pool, sources, linked, below.pool);
            assert(grows(sources, levels1)) by {
                assert forall|t: int| #[trigger] sources.contains_key(t) implies levels1.contains_key(
                    t,
                ) && levels1[t] == sources[t] by {
                    assert(levels.contains_key(t));
                }
            }
            assert(table_known(levels1, clone as int, level)) by {
                assert(levels.contains_key(clone as int));
            }
            lemma_tables_from(memory, linked, pool, sources, table, level, index + 1);
            lemma_copy_entries_succeed(
                linked,
                below.pool,
                sources,
                levels1,
                table,
                clone,
                level,
                index + 1,
            );
        } else {
            assert(entry_is_copy(memory, table, memory, clone as int, level, index));
            lemma_copy_entries_succeed(
                memory,
                pool,
                sources,
                levels,
                table,
                clone,
                level,
                index + 1,
            );
        }
    }
}

/// `copy_page_table` succeeds where the pool can supply a frame for each
/// table of the tree of `TTBR0_EL2`, and takes as many frames.
///
/// This is stated of stage-1 tables that form a forest.
pub proof fn lemma_copy_succeeds(machine: MachineView, levels: Map<int, int>)
    requires
        forest(machine.memory, machine.allocator, levels),
        machine_supplied(machine),
        table_known(
            levels,
            ttbr_base_address(machine.registers.ttbr0_el2) as int,
            initial_level(machine.registers.tcr_el2),
        ),
        machine.allocator.remaining >= tables_in(
            machine.memory,
            ttbr_base_address(machine.registers.ttbr0_el2) as int,
            initial_level(machine.registers.tcr_el2),
        ),
    ensures
        copy_page_table_result(machine).table is Some,
        copy_page_table_result(machine).pool.remaining == machine.allocator.remaining - tables_in(
            machine.memory,
            ttbr_base_address(machine.registers.ttbr0_el2) as int,
            initial_level(machine.registers.tcr_el2),
        ),
{
    lemma_copy_table_succeeds(
        machine.memory,
        machine.allocator,
        levels,
        ttbr_base_address(machine.registers.ttbr0_el2) as int,
        initial_level(machine.registers.tcr_el2),
    );
}

} // verus!
