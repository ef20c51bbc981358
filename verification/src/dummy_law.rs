//! What a dummy mapping leaves: every page of the range leads to the dummy
//! frame.

use vstd::prelude::*;
use vstd::arithmetic::div_mod::{lemma_fundamental_div_mod, lemma_fundamental_div_mod_converse_mod};
use crate::descriptor::{
    entry_span, is_block, is_table_or_page, output_address, PAGE_DESCRIPTORS_CONTIGUOUS,
};
use crate::forest::{
    dummy_leaf, forest, forest_table, grows, kept_above, lemma_dummy_leaf, lemma_leaf_stays,
    lemma_settles_twice, pages_known, settled_entry, settles, table_known,
};
use crate::mapping::{
    after_leaves, child_table, leaf_count, leaf_entry, leaf_run, map_entries, map_table,
    split_entry, split_run, table_index, zero_run, MapCursor, MapRequest, MapState,
};
use crate::memory::{FramePool, MemoryView, PAGE_SIZE, PHYSICAL_ADDRESS_LIMIT, TABLE_ENTRIES};
use crate::paging::{map_dummy_result, stage_2_request, MachineView, PERMISSION_ALL};
use crate::registers::{
    concatenation_bits, sl0_of, stage_2_initial_level, t0sz_of, tables_for, ttbr_base_address,
};
use crate::stage2::{stage_2_forest, stage_2_walk};
use crate::walk::{walk, Leaf};

verus! {

/// The address after the last address that the table of `table_len`
/// entries at `level` maps which maps `virtual_address`.
pub open spec fn table_end(virtual_address: u64, level: int, table_len: int) -> int {
    let span = entry_span(level) as int;
    virtual_address - virtual_address % (span as u64) + span + (table_len - 1 - table_index(
        virtual_address,
        level,
        table_len,
    )) * span
}

/// Whether a descent that maps every page to one frame can go on from
/// `state`: the tables form a forest, the frame and the next address are
/// multiples of the page size, and the range stays within 64 bits.
pub open spec fn dummy_ready(state: MapState, request: MapRequest, levels: Map<int, int>) -> bool {
    &&& request.holds_output()
    &&& state.pool.well_formed()
    &&& forest(state.memory, state.pool, levels)
    &&& state.cursor.physical_address % PAGE_SIZE == 0
    &&& state.cursor.physical_address < PHYSICAL_ADDRESS_LIMIT
    &&& state.cursor.virtual_address % PAGE_SIZE == 0
    &&& state.cursor.in_range(true)
}

/// Whether every address from `from` up to `to` leads to the page
/// descriptor `leaf` in the tree whose top is the table at `table`.
pub open spec fn all_lead_to(
    memory: MemoryView,
    table: int,
    level: int,
    table_len: int,
    from: int,
    to: int,
    leaf: u64,
) -> bool {
    forall|address: u64|
        from <= address < to ==> #[trigger] walk(memory, table, level, table_len, address) == Some(
            Leaf { level: 3, descriptor: leaf },
        )
}

/// Adding less than what is missing to the table's length keeps the
/// remainder growing by as much.
pub proof fn lemma_index_step(x: int, k: int, len: int)
    requires
        len > 0,
        0 <= k,
        0 <= x,
        x % len + k < len,
    ensures
        (x + k) % len == x % len + k,
{
    lemma_fundamental_div_mod(x, len);
    let q = x / len;
    let r = x % len;
    assert(x + k == q * len + (r + k)) by (nonlinear_arith)
        requires
            x == len * q + r,
    ;
    lemma_fundamental_div_mod_converse_mod(x + k, len, q, r + k);
}

/// The pages of a known run of tables lie in memory one behind the other.
pub proof fn lemma_pages_hold(
    memory: MemoryView,
    pool: FramePool,
    levels: Map<int, int>,
    table: int,
    level: int,
    pages: int,
)
    requires
        forest(memory, pool, levels),
        pages_known(levels, table, level, pages),
        1 <= pages,
    ensures
        memory.holds(table, TABLE_ENTRIES * pages),
        table % (PAGE_SIZE as int) == 0,
        0 <= table,
{
    assert(table_known(levels, table + 0 * PAGE_SIZE, level));
    assert(forest_table(memory, pool, levels, table));
    assert(table_known(levels, table + (pages - 1) * PAGE_SIZE, level));
    assert(forest_table(memory, pool, levels, table + (pages - 1) * PAGE_SIZE));
}

/// A table of a forest that shares a word with a known run of tables is one
/// of the pages of that run.
pub proof fn lemma_shared_word(
    memory: MemoryView,
    pool: FramePool,
    levels: Map<int, int>,
    table: int,
    level: int,
    pages: int,
    other: int,
    i: int,
    j: int,
)
    requires
        forest(memory, pool, levels),
        pages_known(levels, table, level, pages),
        1 <= pages,
        levels.contains_key(other),
        0 <= i < TABLE_ENTRIES,
        0 <= j < TABLE_ENTRIES * pages,
        memory.slot(other, i) == memory.slot(table, j),
    ensures
        other == table + (j / 512) * PAGE_SIZE,
        i == j % 512,
        levels[other] == level,
{
    lemma_pages_hold(memory, pool, levels, table, level, pages);
    assert(forest_table(memory, pool, levels, other));
    let k = j / 512;
    assert(table_known(levels, table + k * PAGE_SIZE, level));
}

/// What writing the leaves of a dummy mapping into a known level-3 table
/// leaves.
#[verifier::rlimit(40)]
pub proof fn lemma_dummy_leaves(
    state: MapState,
    request: MapRequest,
    levels: Map<int, int>,
    table: int,
    pages: int,
)
    requires
        dummy_ready(state, request, levels),
        pages_known(levels, table, 3, pages),
        1 <= pages <= 16,
    ensures
        ({
            let table_len = TABLE_ENTRIES * pages;
            let index = table_index(state.cursor.virtual_address, 3, table_len);
            let out = after_leaves(state, request, table, index, table_len);
            let leaf = dummy_leaf(request, state.cursor.physical_address);
            &&& dummy_ready(out, request, levels)
            &&& out.cursor.physical_address == state.cursor.physical_address
            &&& out.cursor.input_end() == state.cursor.input_end()
            &&& settles(state.memory, out.memory, levels, leaf)
            &&& kept_above(state.memory, out.memory, levels, 3)
            &&& state.cursor.virtual_address <= out.cursor.virtual_address <= table_end(
                state.cursor.virtual_address,
                3,
                table_len,
            )
            &&& (out.cursor.remaining_pages == 0 || out.cursor.virtual_address == table_end(
                state.cursor.virtual_address,
                3,
                table_len,
            ))
            &&& all_lead_to(
                out.memory,
                table,
                3,
                table_len,
                state.cursor.virtual_address as int,
                out.cursor.virtual_address as int,
                leaf,
            )
        }),
{
    let table_len = TABLE_ENTRIES * pages;
    let va = state.cursor.virtual_address;
    let index = table_index(va, 3, table_len);
    let out = after_leaves(state, request, table, index, table_len);
    let leaf = dummy_leaf(request, state.cursor.physical_address);
    let count = leaf_count(state.cursor, index, table_len);
    let group = index - index % 16;
    let memory = state.memory;
    let opened = memory.write_entry(
        table,
        group,
        memory.entry(table, group) & !PAGE_DESCRIPTORS_CONTIGUOUS,
    );
    let run = leaf_run(request, state.cursor, index, index + count, count);
    lemma_dummy_leaf(request, state.cursor.physical_address);
    lemma_pages_hold(memory, state.pool, levels, table, 3, pages);
    assert(0 <= index < table_len);
    assert(0 <= count <= table_len - index);
    assert(out.memory == opened.write_run(table, index, run));
    assert forall|k: int| 0 <= k < count implies #[trigger] run[k] == leaf by {
        assert(run[k] == leaf_entry(request, state.cursor, index, index + count, index + k));
    }
    let first = memory.slot(table, index);
    assert forall|t: int, i: int|
        levels.contains_key(t) && 0 <= i < TABLE_ENTRIES implies settled_entry(
        memory.entry(t, i),
        #[trigger] out.memory.entry(t, i),
        levels[t],
        leaf,
    ) && (levels[t] < 3 ==> out.memory.entry(t, i) == memory.entry(t, i)) by {
        assert(forest_table(memory, state.pool, levels, t));
        let s = memory.slot(t, i);
        if first <= s < first + count {
            lemma_shared_word(memory, state.pool, levels, table, 3, pages, t, i, index + (s - first));
            assert(out.memory.entry(t, i) == run[s - first]);
        } else if s == memory.slot(table, group) {
            lemma_shared_word(memory, state.pool, levels, table, 3, pages, t, i, group);
        } else {
        }
    }
    assert(settles(memory, out.memory, levels, leaf));
    assert(kept_above(memory, out.memory, levels, 3));
    assert forall|t: int| #[trigger] levels.contains_key(t) implies forest_table(
        out.memory,
        out.pool,
        levels,
        t,
    ) by {
        assert(forest_table(memory, state.pool, levels, t));
        if levels[t] < 3 {
            assert forall|i: int|
                0 <= i < TABLE_ENTRIES && is_table_or_page(
                    #[trigger] out.memory.entry(t, i),
                ) implies table_known(
                levels,
                output_address(out.memory.entry(t, i), PAGE_SIZE) as int,
                levels[t] + 1,
            ) by {
                assert(out.memory.entry(t, i) == memory.entry(t, i));
            }
        }
    }
    assert forall|address: u64|
        va <= address < out.cursor.virtual_address implies #[trigger] walk(
        out.memory,
        table,
        3,
        table_len,
        address,
    ) == Some(Leaf { level: 3, descriptor: leaf }) by {
        let k = (address / 0x1000) as int - (va / 0x1000) as int;
        assert(0 <= k < count);
        lemma_index_step((va / 0x1000) as int, k, table_len);
        assert(table_index(address, 3, table_len) == index + k);
        assert(out.memory.entry(table, index + k) == run[k]);
    }
}

/// The entries of the table that takes the place of a block above level 2
/// are blocks, and so no table descriptors.
pub proof fn lemma_split_entry_is_block(descriptor: u64, level: int, k: int)
    requires
        is_block(descriptor),
        0 <= level < 2,
        0 <= k < TABLE_ENTRIES,
    ensures
        !is_table_or_page(split_entry(descriptor, level, k)),
{
    let span = entry_span(level);
    let block_address = output_address(descriptor, span);
    let kept = descriptor ^ block_address;
    let moved = (block_address + k * entry_span(level + 1)) as u64;
    if level == 1 {
        assert((span - 1) as u64 == 0x3fff_ffffu64);
        assert(block_address % 0x1000 == 0 && block_address <= 0x0003_ffff_ffff_ffff && kept & 3
            == 1) by (bit_vector)
            requires
                descriptor & 3 == 1,
                block_address == descriptor & (0x0003_ffff_ffff_ffffu64 & !0x3fff_ffffu64),
                kept == descriptor ^ block_address,
        ;
    } else {
        assert((span - 1) as u64 == 0x7f_ffff_ffffu64);
        assert(block_address % 0x1000 == 0 && block_address <= 0x0003_ffff_ffff_ffff && kept & 3
            == 1) by (bit_vector)
            requires
                descriptor & 3 == 1,
                block_address == descriptor & (0x0003_ffff_ffff_ffffu64 & !0x7f_ffff_ffffu64),
                kept == descriptor ^ block_address,
        ;
    }
    assert(moved % 0x1000 == 0);
    assert((moved | kept) & 3 == 1) by (bit_vector)
        requires
            moved % 0x1000 == 0,
            kept & 3 == 1,
    ;
}

/// An invalid entry is no table descriptor.
pub proof fn lemma_zero_is_no_table()
    ensures
        !is_table_or_page(0),
{
    assert(0u64 & 3 != 3) by (bit_vector);
}

/// What making ready the table below an entry leaves, where pages are
/// mapped to one frame: the tables that were known are untouched, and the
/// table to go down into is known one level down.
#[verifier::rlimit(40)]
pub proof fn lemma_dummy_child(
    state: MapState,
    request: MapRequest,
    levels: Map<int, int>,
    page: int,
    slot: int,
    level: int,
) -> (later: Map<int, int>)
    requires
        dummy_ready(state, request, levels),
        table_known(levels, page, level),
        0 <= level < 3,
        0 <= slot < TABLE_ENTRIES,
        child_table(state.memory, state.pool, state.memory.entry(page, slot), level).table is Some,
    ensures
        ({
            let descriptor = state.memory.entry(page, slot);
            let child = child_table(state.memory, state.pool, descriptor, level);
            let ready = MapState { memory: child.memory, pool: child.pool, cursor: state.cursor };
            let leaf = dummy_leaf(request, state.cursor.physical_address);
            &&& grows(levels, later)
            &&& dummy_ready(ready, request, later)
            &&& table_known(later, child.table->0 as int, level + 1)
            &&& settles(state.memory, child.memory, levels, leaf)
            &&& forall|t: int, i: int|
                levels.contains_key(t) && 0 <= i < TABLE_ENTRIES ==> #[trigger] child.memory.entry(
                    t,
                    i,
                ) == state.memory.entry(t, i)
            &&& match child.created {
                Some(link) => {
                    &&& !is_table_or_page(descriptor)
                    &&& is_table_or_page(link)
                    &&& !is_block(link)
                    &&& output_address(link, PAGE_SIZE) == child.table->0
                },
                None => is_table_or_page(descriptor) && child.memory == state.memory && child.pool
                    == state.pool,
            }
        }),
{
    let memory = state.memory;
    let pool = state.pool;
    let descriptor = memory.entry(page, slot);
    let child = child_table(memory, pool, descriptor, level);
    assert(forest_table(memory, pool, levels, page));
    if is_table_or_page(descriptor) {
        levels
    } else {
        crate::table_alloc::lemma_alignment_of_bits(12);
        crate::table_laws::lemma_aligned_frames(pool, 1, 1u64 << 12);
        let allocation = crate::table_alloc::aligned_frames(pool, 1, 1u64 << 12);
        let frame = allocation.table->0;
        let entries = if is_block(descriptor) {
            split_run(descriptor, level, TABLE_ENTRIES as int)
        } else {
            zero_run(TABLE_ENTRIES as int)
        };
        assert(child.memory == memory.write_run(frame as int, 0, entries));
        crate::table_laws::lemma_table_descriptor(frame);
        let later = levels.insert(frame as int, level + 1);
        assert forall|t: int| levels.contains_key(t) implies t != frame && (t + PAGE_SIZE <= frame
            || frame + PAGE_SIZE <= t) by {
            assert(forest_table(memory, pool, levels, t));
        }
        assert forall|t: int, i: int|
            levels.contains_key(t) && 0 <= i < TABLE_ENTRIES implies #[trigger] child.memory.entry(
            t,
            i,
        ) == memory.entry(t, i) by {
            assert(forest_table(memory, pool, levels, t));
            crate::table_laws::lemma_entry_outside_run(memory, frame as int, entries, t, i);
        }
        assert forall|t: int| #[trigger] later.contains_key(t) implies forest_table(
            child.memory,
            child.pool,
            later,
            t,
        ) by {
            if t == frame {
                if level + 1 < 3 {
                    assert forall|i: int|
                        0 <= i < TABLE_ENTRIES && is_table_or_page(
                            #[trigger] child.memory.entry(t, i),
                        ) implies table_known(
                        later,
                        output_address(child.memory.entry(t, i), PAGE_SIZE) as int,
                        later[t] + 1,
                    ) by {
                        crate::table_laws::lemma_entry_inside_run(memory, frame as int, entries, i);
                        if is_block(descriptor) {
                            lemma_split_entry_is_block(descriptor, level, i);
                        } else {
                            lemma_zero_is_no_table();
                        }
                    }
                }
            } else {
                assert(forest_table(memory, pool, levels, t));
                if levels[t] < 3 {
                    assert forall|i: int|
                        0 <= i < TABLE_ENTRIES && is_table_or_page(
                            #[trigger] child.memory.entry(t, i),
                        ) implies table_known(
                        later,
                        output_address(child.memory.entry(t, i), PAGE_SIZE) as int,
                        later[t] + 1,
                    ) by {
                        assert(child.memory.entry(t, i) == memory.entry(t, i));
                    }
                }
            }
        }
        later
    }
}

/// An entry of a run of tables is an entry of one of its pages.
pub proof fn lemma_entry_of_page(memory: MemoryView, table: int, index: int)
    requires
        (table - memory.base) % 8 == 0,
        0 <= index,
    ensures
        memory.slot(table, index) == memory.slot(table + (index / 512) * PAGE_SIZE, index % 512),
        memory.entry(table, index) == memory.entry(
            table + (index / 512) * PAGE_SIZE,
            index % 512,
        ),
{
}

/// What pointing an entry that is no table descriptor to a known table
/// leaves.
#[verifier::rlimit(40)]
pub proof fn lemma_dummy_link(
    memory: MemoryView,
    pool: FramePool,
    levels: Map<int, int>,
    leaf: u64,
    table: int,
    level: int,
    pages: int,
    index: int,
    link: u64,
)
    requires
        forest(memory, pool, levels),
        pages_known(levels, table, level, pages),
        1 <= pages,
        level < 3,
        0 <= index < TABLE_ENTRIES * pages,
        !is_table_or_page(memory.entry(table, index)),
        is_table_or_page(link),
        table_known(levels, output_address(link, PAGE_SIZE) as int, level + 1),
    ensures
        ({
            let after = memory.write_entry(table, index, link);
            &&& forest(after, pool, levels)
            &&& settles(memory, after, levels, leaf)
            &&& kept_above(memory, after, levels, level)
            &&& after.entry(table, index) == link
            &&& forall|j: int|
                0 <= j < TABLE_ENTRIES * pages && j != index ==> #[trigger] after.entry(table, j)
                    == memory.entry(table, j)
        }),
{
    let after = memory.write_entry(table, index, link);
    lemma_pages_hold(memory, pool, levels, table, level, pages);
    let written = memory.slot(table, index);
    assert forall|t: int, i: int|
        levels.contains_key(t) && 0 <= i < TABLE_ENTRIES implies settled_entry(
        memory.entry(t, i),
        #[trigger] after.entry(t, i),
        levels[t],
        leaf,
    ) && (levels[t] < level ==> after.entry(t, i) == memory.entry(t, i)) && (memory.slot(t, i)
        != written ==> after.entry(t, i) == memory.entry(t, i)) by {
        assert(forest_table(memory, pool, levels, t));
        if memory.slot(t, i) == written {
            lemma_shared_word(memory, pool, levels, table, level, pages, t, i, index);
        }
    }
    assert forall|t: int| #[trigger] levels.contains_key(t) implies forest_table(
        after,
        pool,
        levels,
        t,
    ) by {
        assert(forest_table(memory, pool, levels, t));
        if levels[t] < 3 {
            assert forall|i: int|
                0 <= i < TABLE_ENTRIES && is_table_or_page(
                    #[trigger] after.entry(t, i),
                ) implies table_known(
                levels,
                output_address(after.entry(t, i), PAGE_SIZE) as int,
                levels[t] + 1,
            ) by {
                if memory.slot(t, i) == written {
                    lemma_shared_word(memory, pool, levels, table, level, pages, t, i, index);
                } else {
                    assert(after.entry(t, i) == memory.entry(t, i));
                }
            }
        }
    }
}

/// Where the entries of a table at `level` lie, each of them mapping 512
/// times what an entry one level down maps.
pub proof fn lemma_slots(virtual_address: u64, level: int, table_len: int, index: int)
    requires
        0 <= level < 3,
        table_len > 0,
        0 <= index < table_len,
        table_index(virtual_address, level, table_len) == index,
    ensures
        ({
            let span = entry_span(level) as int;
            let slot_end = virtual_address - virtual_address % (span as u64) + span;
            &&& table_end(virtual_address, level + 1, TABLE_ENTRIES as int) == slot_end
            &&& table_end(virtual_address, level, table_len) == slot_end + (table_len - 1 - index)
                * span
            &&& virtual_address < slot_end
            &&& forall|address: u64|
                virtual_address <= address < slot_end ==> #[trigger] table_index(
                    address,
                    level,
                    table_len,
                ) == index
            &&& slot_end <= u64::MAX && index + 1 < table_len ==> {
                &&& table_index(slot_end as u64, level, table_len) == index + 1
                &&& table_end(slot_end as u64, level, table_len) == table_end(
                    virtual_address,
                    level,
                    table_len,
                )
            }
        }),
{
    let span = entry_span(level) as int;
    let below = entry_span(level + 1) as int;
    let va = virtual_address as int;
    assert(span == 512 * below);
    let slot_end = va - va % span + span;
    assert(va / span == (va / below) / 512);
    assert((va / below) % 512 == (va % span) / below);
    assert(table_end(virtual_address, level + 1, TABLE_ENTRIES as int) == slot_end);
    assert forall|address: u64| va <= address < slot_end implies #[trigger] table_index(
        address,
        level,
        table_len,
    ) == index by {
        assert(address as int / span == va / span);
    }
    if slot_end <= u64::MAX && index + 1 < table_len {
        assert(slot_end / span == va / span + 1);
        lemma_index_step(va / span, 1, table_len);
        assert(slot_end % span == 0);
    }
}

/// What a descent that maps every page to one frame leaves, from entry
/// `index` of a known table on: every address that it has passed leads to
/// the frame.
pub proof fn lemma_dummy_entries(
    state: MapState,
    request: MapRequest,
    levels: Map<int, int>,
    table: int,
    level: int,
    pages: int,
    index: int,
    end: int,
) -> (later: Map<int, int>)
    requires
        dummy_ready(state, request, levels),
        pages_known(levels, table, level, pages),
        1 <= pages <= 16,
        0 <= level < 3,
        0 <= index <= TABLE_ENTRIES * pages,
        state.cursor.virtual_address <= end,
        state.cursor.remaining_pages == 0 || (index < TABLE_ENTRIES * pages && table_index(
            state.cursor.virtual_address,
            level,
            TABLE_ENTRIES * pages,
        ) == index && end == table_end(state.cursor.virtual_address, level, TABLE_ENTRIES * pages))
            || (index == TABLE_ENTRIES * pages && state.cursor.virtual_address == end),
        map_entries(state, request, table, level, TABLE_ENTRIES * pages, index).ok,
    ensures
        ({
            let out = map_entries(state, request, table, level, TABLE_ENTRIES * pages, index).state;
            let leaf = dummy_leaf(request, state.cursor.physical_address);
            &&& grows(levels, later)
            &&& dummy_ready(out, request, later)
            &&& out.cursor.physical_address == state.cursor.physical_address
            &&& out.cursor.input_end() == state.cursor.input_end()
            &&& settles(state.memory, out.memory, levels, leaf)
            &&& kept_above(state.memory, out.memory, levels, level)
            &&& forall|j: int|
                0 <= j < index ==> #[trigger] out.memory.entry(table, j) == state.memory.entry(
                    table,
                    j,
                )
            &&& state.cursor.virtual_address <= out.cursor.virtual_address <= end
            &&& (out.cursor.remaining_pages == 0 || out.cursor.virtual_address == end)
            &&& all_lead_to(
                out.memory,
                table,
                level,
                TABLE_ENTRIES * pages,
                state.cursor.virtual_address as int,
                out.cursor.virtual_address as int,
                leaf,
            )
        }),
    decreases 3 - level, TABLE_ENTRIES * pages - index, 1int,
{
    let table_len = TABLE_ENTRIES * pages;
    if state.cursor.remaining_pages == 0 || index >= table_len {
        levels
    } else {
        lemma_dummy_entry(state, request, levels, table, level, pages, index, end)
    }
}

/// The step of `lemma_dummy_entries` at an entry that the descent goes down
/// into.
#[verifier::rlimit(40)]
pub proof fn lemma_dummy_entry(
    state: MapState,
    request: MapRequest,
    levels: Map<int, int>,
    table: int,
    level: int,
    pages: int,
    index: int,
    end: int,
) -> (later: Map<int, int>)
    requires
        dummy_ready(state, request, levels),
        pages_known(levels, table, level, pages),
        1 <= pages <= 16,
        0 <= level < 3,
        0 <= index < TABLE_ENTRIES * pages,
        state.cursor.remaining_pages != 0,
        state.cursor.virtual_address <= end,
        table_index(state.cursor.virtual_address, level, TABLE_ENTRIES * pages) == index,
        end == table_end(state.cursor.virtual_address, level, TABLE_ENTRIES * pages),
        map_entries(state, request, table, level, TABLE_ENTRIES * pages, index).ok,
    ensures
        ({
            let out = map_entries(state, request, table, level, TABLE_ENTRIES * pages, index).state;
            let leaf = dummy_leaf(request, state.cursor.physical_address);
            &&& grows(levels, later)
            &&& dummy_ready(out, request, later)
            &&& out.cursor.physical_address == state.cursor.physical_address
            &&& out.cursor.input_end() == state.cursor.input_end()
            &&& settles(state.memory, out.memory, levels, leaf)
            &&& kept_above(state.memory, out.memory, levels, level)
            &&& forall|j: int|
                0 <= j < index ==> #[trigger] out.memory.entry(table, j) == state.memory.entry(
                    table,
                    j,
                )
            &&& state.cursor.virtual_address <= out.cursor.virtual_address <= end
            &&& (out.cursor.remaining_pages == 0 || out.cursor.virtual_address == end)
            &&& all_lead_to(
                out.memory,
                table,
                level,
                TABLE_ENTRIES * pages,
                state.cursor.virtual_address as int,
                out.cursor.virtual_address as int,
                leaf,
            )
        }),
    decreases 3 - level, TABLE_ENTRIES * pages - index, 0int,
{
    let table_len = TABLE_ENTRIES * pages;
    let leaf = dummy_leaf(request, state.cursor.physical_address);
    let va = state.cursor.virtual_address;
    lemma_dummy_leaf(request, state.cursor.physical_address);
    lemma_pages_hold(state.memory, state.pool, levels, table, level, pages);
    lemma_slots(va, level, table_len, index);
    let span = entry_span(level) as int;
    let slot_end = va - va % (span as u64) + span;
    let page = table + (index / 512) * PAGE_SIZE;
    let slot = index % 512;
    lemma_entry_of_page(state.memory, table, index);
    assert(table_known(levels, page, level));
    let descriptor = state.memory.entry(table, index);
    let child = child_table(state.memory, state.pool, descriptor, level);
    let ready = MapState { memory: child.memory, pool: child.pool, cursor: state.cursor };
    assert(child.table is Some);
    let next = child.table->0;
    let levels1 = lemma_dummy_child(state, request, levels, page, slot, level);
    assert(pages_known(levels1, next as int, level + 1, 1)) by {
        assert forall|k: int| 0 <= k < 1 implies #[trigger] table_known(
            levels1,
            next + k * PAGE_SIZE,
            level + 1,
        ) by {}
    }
    let below = map_table(ready, request, next as int, level + 1, 1);
    assert(below.ok);
    let levels2 = lemma_dummy_table(ready, request, levels1, next as int, level + 1, 1);
    let va2 = below.state.cursor.virtual_address;
    assert(pages_known(levels2, table, level, pages)) by {
        assert forall|k: int| 0 <= k < pages implies #[trigger] table_known(
            levels2,
            table + k * PAGE_SIZE,
            level,
        ) by {
            assert(table_known(levels, table + k * PAGE_SIZE, level));
        }
    }
    lemma_settles_twice(state.memory, child.memory, below.state.memory, levels, levels1, leaf);
    lemma_entry_of_page(below.state.memory, table, index);
    assert(below.state.memory.entry(table, index) == descriptor);
    let linked = match child.created {
        Some(link) => MapState {
            memory: below.state.memory.write_entry(table, index, link),
            pool: below.state.pool,
            cursor: below.state.cursor,
        },
        None => below.state,
    };
    match child.created {
        Some(link) => {
            assert(table_known(levels2, next as int, level + 1));
            lemma_dummy_link(
                below.state.memory,
                below.state.pool,
                levels2,
                leaf,
                table,
                level,
                pages,
                index,
                link,
            );
        },
        None => {},
    }
    assert(settles(below.state.memory, linked.memory, levels2, leaf));
    assert(forest(linked.memory, linked.pool, levels2));
    assert(linked.memory.entry(table, index) == match child.created {
        Some(link) => link,
        None => descriptor,
    });
    let levels3 = lemma_dummy_entries(linked, request, levels2, table, level, pages, index + 1, end);
    let out = map_entries(linked, request, table, level, table_len, index + 1).state;
    assert(out == map_entries(state, request, table, level, table_len, index).state);
    // the tables that were known at the start
    lemma_settles_twice(state.memory, below.state.memory, linked.memory, levels, levels2, leaf);
    lemma_settles_twice(state.memory, linked.memory, out.memory, levels, levels2, leaf);
    assert(grows(levels, levels3));
    assert(kept_above(state.memory, out.memory, levels, level)) by {
        assert forall|t: int, i: int|
            levels.contains_key(t) && levels[t] < level && 0 <= i < TABLE_ENTRIES implies #[trigger] out.memory.entry(
            t,
            i,
        ) == state.memory.entry(t, i) by {
            assert(child.memory.entry(t, i) == state.memory.entry(t, i));
            assert(levels1.contains_key(t) && levels1[t] < level + 1);
            assert(below.state.memory.entry(t, i) == child.memory.entry(t, i));
            assert(levels2.contains_key(t) && levels2[t] < level);
            assert(linked.memory.entry(t, i) == below.state.memory.entry(t, i));
            assert(out.memory.entry(t, i) == linked.memory.entry(t, i));
        }
    }
    assert forall|j: int| 0 <= j < index implies #[trigger] out.memory.entry(table, j)
        == state.memory.entry(table, j) by {
        let p = table + (j / 512) * PAGE_SIZE;
        lemma_entry_of_page(state.memory, table, j);
        lemma_entry_of_page(child.memory, table, j);
        lemma_entry_of_page(below.state.memory, table, j);
        assert(table_known(levels, p, level));
        assert(child.memory.entry(p, j % 512) == state.memory.entry(p, j % 512));
        assert(levels1.contains_key(p) && levels1[p] < level + 1);
        assert(below.state.memory.entry(p, j % 512) == child.memory.entry(p, j % 512));
        assert(linked.memory.entry(table, j) == below.state.memory.entry(table, j));
    }
    // the addresses that this entry maps
    let link = linked.memory.entry(table, index);
    assert(is_table_or_page(link) && !is_block(link) && output_address(link, PAGE_SIZE) == next) by {
        if child.created is None {
            assert(is_table_or_page(descriptor));
            assert(descriptor & 3 == 3 ==> descriptor & 3 != 1) by (bit_vector);
        }
    }
    assert(out.memory.entry(table, index) == link);
    assert forall|address: u64| va <= address < out.cursor.virtual_address implies #[trigger] walk(
        out.memory,
        table,
        level,
        table_len,
        address,
    ) == Some(Leaf { level: 3, descriptor: leaf }) by {
        if address < va2 {
            assert(table_index(address, level, table_len) == index);
            assert(walk(below.state.memory, next as int, level + 1, TABLE_ENTRIES as int, address)
                == Some(Leaf { level: 3, descriptor: leaf }));
            lemma_settles_twice(
                below.state.memory,
                linked.memory,
                out.memory,
                levels2,
                levels2,
                leaf,
            );
            lemma_leaf_stays(
                below.state.memory,
                out.memory,
                below.state.pool,
                levels2,
                leaf,
                next as int,
                level + 1,
                address,
            );
        }
    }
    levels3
}

/// What a descent that maps every page to one frame leaves, from the top
/// of a known run of tables on: every address that it has passed leads to
/// the frame.
pub proof fn lemma_dummy_table(
    state: MapState,
    request: MapRequest,
    levels: Map<int, int>,
    table: int,
    level: int,
    pages: int,
) -> (later: Map<int, int>)
    requires
        dummy_ready(state, request, levels),
        pages_known(levels, table, level, pages),
        1 <= pages <= 16,
        0 <= level <= 3,
        map_table(state, request, table, level, pages).ok,
    ensures
        ({
            let out = map_table(state, request, table, level, pages).state;
            let leaf = dummy_leaf(request, state.cursor.physical_address);
            let end = table_end(state.cursor.virtual_address, level, TABLE_ENTRIES * pages);
            &&& grows(levels, later)
            &&& dummy_ready(out, request, later)
            &&& out.cursor.physical_address == state.cursor.physical_address
            &&& out.cursor.input_end() == state.cursor.input_end()
            &&& settles(state.memory, out.memory, levels, leaf)
            &&& kept_above(state.memory, out.memory, levels, level)
            &&& state.cursor.virtual_address <= out.cursor.virtual_address <= end
            &&& (out.cursor.remaining_pages == 0 || out.cursor.virtual_address == end)
            &&& all_lead_to(
                out.memory,
                table,
                level,
                TABLE_ENTRIES * pages,
                state.cursor.virtual_address as int,
                out.cursor.virtual_address as int,
                leaf,
            )
        }),
    decreases 3 - level, TABLE_ENTRIES * pages + 1, 0int,
{
    let table_len = TABLE_ENTRIES * pages;
    lemma_pages_hold(state.memory, state.pool, levels, table, level, pages);
    if level >= 3 {
        lemma_dummy_leaves(state, request, levels, table, pages);
        levels
    } else {
        let index = table_index(state.cursor.virtual_address, level, table_len);
        lemma_slots(state.cursor.virtual_address, level, table_len, index);
        lemma_dummy_entries(
            state,
            request,
            levels,
            table,
            level,
            pages,
            index,
            table_end(state.cursor.virtual_address, level, table_len),
        )
    }
}

/// After a dummy mapping that succeeded, every address of the range leads
/// to a level-3 page descriptor, no block, whose output address is the dummy
/// page; and the stage-2 tables still form a forest.
///
/// This is stated of stage-2 tables that form a forest, of a range that
/// starts at a multiple of the page size, and of a dummy page at a multiple
/// of the page size below `PHYSICAL_ADDRESS_LIMIT`.
pub proof fn lemma_dummy_mapping_leads_to_dummy_page(
    machine: MachineView,
    virtual_address: u64,
    size: u64,
    dummy_page: u64,
    levels: Map<int, int>,
) -> (later: Map<int, int>)
    requires
        machine.allocator.well_formed(),
        stage_2_forest(machine, levels),
        virtual_address % PAGE_SIZE == 0,
        dummy_page % PAGE_SIZE == 0,
        dummy_page < PHYSICAL_ADDRESS_LIMIT,
        map_dummy_result(machine, virtual_address, size, dummy_page).ok,
    ensures
        grows(levels, later),
        stage_2_forest(map_dummy_result(machine, virtual_address, size, dummy_page).machine, later),
        forall|address: u64|
            virtual_address <= address < virtual_address + size ==> {
                let leaf = #[trigger] stage_2_walk(
                    map_dummy_result(machine, virtual_address, size, dummy_page).machine,
                    address,
                );
                &&& leaf is Some
                &&& leaf->0.level == 3
                &&& !is_block(leaf->0.descriptor)
                &&& leaf->0.output_base() == dummy_page
            },
{
    let level = stage_2_initial_level(sl0_of(machine.registers.vtcr_el2));
    let t0sz = t0sz_of(machine.registers.vtcr_el2);
    let pages = tables_for(concatenation_bits(t0sz as int, level)) as int;
    let request = stage_2_request(PERMISSION_ALL, false, true, t0sz as u8);
    let state = MapState {
        memory: machine.memory,
        pool: machine.allocator,
        cursor: MapCursor {
            physical_address: dummy_page,
            virtual_address,
            remaining_pages: size / PAGE_SIZE,
        },
    };
    let table = ttbr_base_address(machine.registers.vttbr_el2) as int;
    lemma_dummy_leaf(request, dummy_page);
    let later = lemma_dummy_table(state, request, levels, table, level, pages);
    let after = map_dummy_result(machine, virtual_address, size, dummy_page).machine;
    assert(pages_known(later, table, level, pages)) by {
        assert forall|k: int| 0 <= k < pages implies #[trigger] table_known(
            later,
            table + k * PAGE_SIZE,
            level,
        ) by {
            assert(table_known(levels, table + k * PAGE_SIZE, level));
        }
    }
    let leaf = dummy_leaf(request, dummy_page);
    assert forall|address: u64| virtual_address <= address < virtual_address + size implies {
        let found = #[trigger] stage_2_walk(after, address);
        &&& found is Some
        &&& found->0.level == 3
        &&& !is_block(found->0.descriptor)
        &&& found->0.output_base() == dummy_page
    } by {
        assert(walk(after.memory, table, level, TABLE_ENTRIES * pages, address) == Some(
            Leaf { level: 3, descriptor: leaf },
        ));
    }
    later
}

} // verus!
