//! What a mapping leaves: every address of the range is translated to its
//! place in the output range, with the attributes asked for, and every
//! other address is translated as before.

use vstd::prelude::*;
use vstd::arithmetic::div_mod::{
    lemma_fundamental_div_mod, lemma_fundamental_div_mod_converse_mod, lemma_mod_multiples_vanish,
};
use crate::descriptor::{
    entry_span, is_block, is_table_or_page, output_address, permission_mask, stage_1_attributes,
    stage_2_attributes, PAGE_DESCRIPTORS_CONTIGUOUS,
};
use crate::forest::{forest, forest_table, lemma_contiguous_cleared, outside_pool, table_known};
use crate::mapping::{
    after_leaves, block_fits, child_table, leaf_count, leaf_entry, leaf_run, map_entries,
    map_table, split_entry, split_run, table_index, zero_run, MapCursor, MapOutcome, MapRequest,
    MapState,
};
use crate::memory::{FramePool, MemoryView, PAGE_SIZE, PHYSICAL_ADDRESS_LIMIT, TABLE_ENTRIES};
use crate::paging::{
    map_address_result, map_dummy_result, pages_for, stage_1_request, stage_2_request, widened_tcr,
    MachineView, PERMISSION_ALL,
};
use crate::registers::{
    concatenation_bits, first_attribute_index, initial_level, sl0_of, stage_2_initial_level,
    t0sz_of, tables_for, ttbr_base_address, wanted_attribute,
};
use crate::stage2::stage_2_tree;
use crate::table_alloc::{aligned_frames, lemma_alignment_of_bits};
use crate::table_laws::{
    lemma_aligned_frames, lemma_entry_inside_run, lemma_entry_outside_run, lemma_table_descriptor,
};
use crate::tree::{
    beside, entry_translation, extends, lemma_aligned_to, lemma_block_leaf,
    lemma_cleared_attributes, lemma_index_of, lemma_page_leaf, lemma_range_apart,
    lemma_split_level_0, lemma_split_level_1, lemma_split_to_pages, lemma_walk_framed,
    pages_placed, place_holds, place_known, reach, same_beside, tree, tree_entry, tree_table,
    valid_block, Place,
};
use crate::walk::{translate, Translation, ATTRIBUTE_MASK};

verus! {

/// Whether a descent can go on from `state`: the tables form a tree, both
/// addresses are multiples of the page size, the input range stays within
/// 64 bits and what it is mapped to below `PHYSICAL_ADDRESS_LIMIT`.
pub open spec fn map_ready(state: MapState, request: MapRequest, places: Map<int, Place>) -> bool {
    &&& state.pool.well_formed()
    &&& tree(state.memory, state.pool, places)
    &&& state.cursor.physical_address % PAGE_SIZE == 0
    &&& state.cursor.virtual_address % PAGE_SIZE == 0
    &&& state.cursor.input_end() <= u64::MAX
    &&& if request.holds_output() {
        state.cursor.physical_address < PHYSICAL_ADDRESS_LIMIT
    } else {
        state.cursor.output_end() <= PHYSICAL_ADDRESS_LIMIT
    }
}

/// Whether the output address has moved with the input address from
/// `state` to `after`: by as much, or not at all where every page is mapped
/// to one frame.
pub open spec fn in_step(state: MapState, after: MapState, request: MapRequest) -> bool {
    if request.holds_output() {
        after.cursor.physical_address == state.cursor.physical_address
    } else {
        after.cursor.physical_address - after.cursor.virtual_address
            == state.cursor.physical_address - state.cursor.virtual_address
    }
}

/// What an address of a range is to be translated to, the range being
/// mapped from `start` on: as far into the output range as the address is
/// into the input range, or into the one frame where every page is mapped
/// to it, with the attributes of the request.
pub open spec fn mapped_to(request: MapRequest, start: MapCursor, address: u64) -> Translation {
    Translation {
        output: if request.holds_output() {
            start.physical_address + address % PAGE_SIZE
        } else {
            start.physical_address + (address - start.virtual_address)
        },
        attributes: request.attributes(false) & ATTRIBUTE_MASK,
    }
}

/// Whether every address from `from` up to `to` is translated as the
/// mapping from `start` on asks.
pub open spec fn range_mapped(
    memory: MemoryView,
    table: int,
    level: int,
    table_len: int,
    request: MapRequest,
    start: MapCursor,
    from: int,
    to: int,
) -> bool {
    forall|address: u64|
        from <= address < to ==> #[trigger] translate(memory, table, level, table_len, address)
            == Some(mapped_to(request, start, address))
}

/// Whether every address from `low` up to `high`, but for those from `from`
/// up to `to`, is translated in `after` as in `before`.
pub open spec fn rest_kept(
    before: MemoryView,
    after: MemoryView,
    table: int,
    level: int,
    table_len: int,
    low: int,
    high: int,
    from: int,
    to: int,
) -> bool {
    forall|address: u64|
        low <= address < high && !(from <= address < to) ==> #[trigger] translate(
            after,
            table,
            level,
            table_len,
            address,
        ) == translate(before, table, level, table_len, address)
}

/// The pages of a placed run of tables lie in memory one behind the other.
pub proof fn lemma_placed_pages_hold(
    memory: MemoryView,
    pool: FramePool,
    places: Map<int, Place>,
    table: int,
    level: int,
    first: int,
    pages: int,
)
    requires
        tree(memory, pool, places),
        pages_placed(places, table, level, first, pages),
        1 <= pages,
    ensures
        memory.holds(table, TABLE_ENTRIES * pages),
        table % (PAGE_SIZE as int) == 0,
        0 <= table,
        0 <= level <= 3,
        0 <= first,
        first % reach(level) == 0,
{
    assert(place_known(places, table + 0 * PAGE_SIZE, level, first + 0 * reach(level)));
    assert(tree_table(memory, pool, places, table));
    assert(place_known(
        places,
        table + (pages - 1) * PAGE_SIZE,
        level,
        first + (pages - 1) * reach(level),
    ));
    assert(tree_table(memory, pool, places, table + (pages - 1) * PAGE_SIZE));
}

/// A table of a tree that shares a word with a placed run of tables is one
/// of the pages of that run.
pub proof fn lemma_shared_page(
    memory: MemoryView,
    pool: FramePool,
    places: Map<int, Place>,
    table: int,
    level: int,
    first: int,
    pages: int,
    other: int,
    i: int,
    j: int,
)
    requires
        tree(memory, pool, places),
        pages_placed(places, table, level, first, pages),
        1 <= pages,
        places.contains_key(other),
        0 <= i < TABLE_ENTRIES,
        0 <= j < TABLE_ENTRIES * pages,
        memory.slot(other, i) == memory.slot(table, j),
    ensures
        other == table + (j / 512) * PAGE_SIZE,
        i == j % 512,
        places[other] == (Place { level, base: first + (j / 512) * reach(level) }),
        !beside(places[other], level, first, first + pages * reach(level)),
{
    lemma_placed_pages_hold(memory, pool, places, table, level, first, pages);
    assert(tree_table(memory, pool, places, other));
    let k = j / 512;
    assert(place_known(places, table + k * PAGE_SIZE, level, first + k * reach(level)));
    assert(first + k * reach(level) + reach(level) <= first + pages * reach(level))
        by (nonlinear_arith)
        requires
            0 <= k < pages,
            reach(level) >= 0,
    ;
    assert(first + k * reach(level) >= first) by (nonlinear_arith)
        requires
            0 <= k,
            reach(level) >= 0,
    ;
}

/// What writing the leaves of a mapping into a placed level-3 table
/// leaves.
#[verifier::rlimit(40)]
pub proof fn lemma_map_leaves(
    state: MapState,
    request: MapRequest,
    places: Map<int, Place>,
    table: int,
    first: int,
    pages: int,
)
    requires
        map_ready(state, request, places),
        pages_placed(places, table, 3, first, pages),
        1 <= pages <= 16,
        first % (pages * reach(3)) == 0,
        first <= state.cursor.virtual_address < first + pages * reach(3),
    ensures
        ({
            let table_len = TABLE_ENTRIES * pages;
            let index = table_index(state.cursor.virtual_address, 3, table_len);
            let out = after_leaves(state, request, table, index, table_len);
            let high = first + pages * reach(3);
            &&& map_ready(out, request, places)
            &&& out.memory.same_extent(state.memory)
            &&& out.cursor.input_end() == state.cursor.input_end()
            &&& in_step(state, out, request)
            &&& state.cursor.virtual_address <= out.cursor.virtual_address <= high
            &&& (out.cursor.remaining_pages == 0 || out.cursor.virtual_address == high)
            &&& same_beside(state.memory, out.memory, places, 3, first, high)
            &&& range_mapped(
                out.memory,
                table,
                3,
                table_len,
                request,
                state.cursor,
                state.cursor.virtual_address as int,
                out.cursor.virtual_address as int,
            )
            &&& rest_kept(
                state.memory,
                out.memory,
                table,
                3,
                table_len,
                first,
                high,
                state.cursor.virtual_address as int,
                out.cursor.virtual_address as int,
            )
        }),
{
    let table_len = TABLE_ENTRIES * pages;
    let va = state.cursor.virtual_address;
    let pa = state.cursor.physical_address;
    let index = table_index(va, 3, table_len);
    let out = after_leaves(state, request, table, index, table_len);
    let high = first + pages * reach(3);
    let count = leaf_count(state.cursor, index, table_len);
    let group = index - index % 16;
    let memory = state.memory;
    let opened = if request.stage_2 {
        memory.write_entry(table, group, memory.entry(table, group) & !PAGE_DESCRIPTORS_CONTIGUOUS)
    } else {
        memory
    };
    let run = leaf_run(request, state.cursor, index, index + count, count);
    lemma_placed_pages_hold(memory, state.pool, places, table, 3, first, pages);
    assert(pages * reach(3) == table_len * 0x1000) by (nonlinear_arith)
        requires
            reach(3) == 0x20_0000,
            table_len == 512 * pages,
    ;
    lemma_index_of(va as int, first, 0x1000, table_len);
    assert(index == (va - first) / 0x1000);
    assert(0 <= index < table_len);
    assert(0 <= count <= table_len - index);
    assert(out.memory == opened.write_run(table, index, run));
    let first_slot = memory.slot(table, index);
    // what each word of a known table becomes
    assert forall|t: int, i: int|
        places.contains_key(t) && 0 <= i < TABLE_ENTRIES implies (beside(
        places[t],
        3,
        first,
        high,
    ) ==> #[trigger] out.memory.entry(t, i) == memory.entry(t, i)) && (places[t].level < 3
        ==> out.memory.entry(t, i) == memory.entry(t, i)) by {
        assert(tree_table(memory, state.pool, places, t));
        let s = memory.slot(t, i);
        if first_slot <= s < first_slot + count {
            lemma_shared_page(
                memory,
                state.pool,
                places,
                table,
                3,
                first,
                pages,
                t,
                i,
                index + (s - first_slot),
            );
        } else if request.stage_2 && s == memory.slot(table, group) {
            lemma_shared_page(memory, state.pool, places, table, 3, first, pages, t, i, group);
        } else {
        }
    }
    assert forall|t: int| #[trigger] places.contains_key(t) implies tree_table(
        out.memory,
        out.pool,
        places,
        t,
    ) by {
        assert(tree_table(memory, state.pool, places, t));
        if places[t].level < 3 {
            assert forall|i: int| 0 <= i < TABLE_ENTRIES implies #[trigger] tree_entry(
                out.memory,
                places,
                t,
                i,
            ) by {
                assert(tree_entry(memory, places, t, i));
                assert(out.memory.entry(t, i) == memory.entry(t, i));
            }
        }
    }
    // the addresses of the range
    assert forall|address: u64|
        va <= address < out.cursor.virtual_address implies #[trigger] translate(
        out.memory,
        table,
        3,
        table_len,
        address,
    ) == Some(mapped_to(request, state.cursor, address)) by {
        lemma_index_of(address as int, first, 0x1000, table_len);
        let j = table_index(address, 3, table_len);
        let k = j - index;
        assert(0 <= k < count);
        let entry = out.memory.entry(table, j);
        assert(entry == run[k]);
        assert(entry == leaf_entry(request, state.cursor, index, index + count, j));
        let output = if request.holds_output() {
            pa
        } else {
            (pa + k * PAGE_SIZE) as u64
        };
        lemma_page_leaf(request, output, true);
        lemma_page_leaf(request, output, false);
        assert(address as int % 0x1000 == address - (first + j * 0x1000));
    }
    // the other addresses of the table
    assert forall|address: u64|
        first <= address < high && !(va <= address
            < out.cursor.virtual_address) implies #[trigger] translate(
        out.memory,
        table,
        3,
        table_len,
        address,
    ) == translate(memory, table, 3, table_len, address) by {
        lemma_index_of(address as int, first, 0x1000, table_len);
        let j = table_index(address, 3, table_len);
        assert(!(index <= j < index + count));
        let before = memory.entry(table, j);
        let after = out.memory.entry(table, j);
        if request.stage_2 && j == group {
            assert(after == before & !PAGE_DESCRIPTORS_CONTIGUOUS);
            lemma_contiguous_cleared(before);
            lemma_cleared_attributes(before);
        } else {
            assert(after == before);
        }
    }
}

/// An address in a stretch that starts at a multiple of its size lies as
/// far above the start as its remainder by the size says.
pub proof fn lemma_offset_in_stretch(a: int, low: int, span: int)
    requires
        span > 0,
        0 <= low,
        low % span == 0,
        low <= a < low + span,
    ensures
        a % span == a - low,
{
    lemma_fundamental_div_mod(low, span);
    let q = low / span;
    assert(a == q * span + (a - low)) by (nonlinear_arith)
        requires
            low == span * q + 0,
    ;
    lemma_fundamental_div_mod_converse_mod(a, span, q, a - low);
}

/// The stretch of entry `slot` of a table for the range from `base` on
/// starts at a multiple of what the entry maps.
pub proof fn lemma_slot_aligned(base: int, level: int, slot: int)
    requires
        0 <= level <= 3,
        0 <= base,
        base % reach(level) == 0,
        0 <= slot < TABLE_ENTRIES,
    ensures
        (base + slot * entry_span(level)) % (entry_span(level) as int) == 0,
        0 <= base + slot * entry_span(level),
        base + slot * entry_span(level) + entry_span(level) <= base + reach(level),
{
    let span = entry_span(level) as int;
    lemma_aligned_to(base, reach(level), span, 512);
    lemma_mod_multiples_vanish(slot, base, span);
    assert(span * slot + base == base + slot * span) by (nonlinear_arith);
    assert(0 <= slot * span && slot * span + span <= 512 * span) by (nonlinear_arith)
        requires
            0 <= slot < 512,
            span > 0,
    ;
}

/// A multiple of `big` plus `k` times `small` is a multiple of `small`,
/// where `big` is a multiple of `small`.
pub proof fn lemma_moved_aligned(address: int, big: int, small: int, m: int, k: int)
    requires
        small > 0,
        m > 0,
        big == small * m,
        address % big == 0,
    ensures
        (address + k * small) % small == 0,
{
    lemma_aligned_to(address, big, small, m);
    lemma_mod_multiples_vanish(k, address, small);
    assert(small * k + address == address + k * small) by (nonlinear_arith);
}

/// Entry `k` of the table that takes the place of a valid level-2 block is
/// a page descriptor that leads `k` pages into the block's output, with the
/// block's attributes.
pub proof fn lemma_split_entry_2(descriptor: u64, k: int)
    requires
        is_block(descriptor),
        valid_block(descriptor, 2),
        0 <= k < TABLE_ENTRIES,
    ensures
        ({
            let entry = split_entry(descriptor, 2, k);
            &&& is_table_or_page(entry)
            &&& !is_block(entry)
            &&& output_address(entry, PAGE_SIZE) == output_address(descriptor, entry_span(2)) + k
                * 0x1000
            &&& entry & ATTRIBUTE_MASK == descriptor & ATTRIBUTE_MASK
        }),
{
    lemma_split_to_pages(descriptor, 0);
    let block_address = output_address(descriptor, entry_span(2));
    lemma_moved_aligned(block_address as int, 0x20_0000, 0x1000, 512, k);
    let moved = (block_address + k * 0x1000) as u64;
    lemma_split_to_pages(descriptor, moved);
}

/// Entry `k` of the table that takes the place of a valid level-1 block is
/// a valid level-2 block that leads `k` times 2 MiB into the block's
/// output, with the block's attributes.
pub proof fn lemma_split_entry_1(descriptor: u64, k: int)
    requires
        is_block(descriptor),
        valid_block(descriptor, 1),
        0 <= k < TABLE_ENTRIES,
    ensures
        ({
            let entry = split_entry(descriptor, 1, k);
            &&& is_block(entry)
            &&& !is_table_or_page(entry)
            &&& output_address(entry, entry_span(2)) == output_address(descriptor, entry_span(1))
                + k * 0x20_0000
            &&& entry & ATTRIBUTE_MASK == descriptor & ATTRIBUTE_MASK
            &&& valid_block(entry, 2)
        }),
{
    lemma_split_level_1(descriptor, 0);
    let block_address = output_address(descriptor, entry_span(1));
    lemma_moved_aligned(block_address as int, 0x4000_0000, 0x20_0000, 512, k);
    let moved = (block_address + k * 0x20_0000) as u64;
    lemma_split_level_1(descriptor, moved);
}

/// Entry `k` of the table that takes the place of a valid level-0 block is
/// a valid level-1 block that leads `k` times 1 GiB into the block's
/// output, with the block's attributes.
pub proof fn lemma_split_entry_0(descriptor: u64, k: int)
    requires
        is_block(descriptor),
        valid_block(descriptor, 0),
        0 <= k < TABLE_ENTRIES,
    ensures
        ({
            let entry = split_entry(descriptor, 0, k);
            &&& is_block(entry)
            &&& !is_table_or_page(entry)
            &&& output_address(entry, entry_span(1)) == output_address(descriptor, entry_span(0))
                + k * 0x4000_0000
            &&& entry & ATTRIBUTE_MASK == descriptor & ATTRIBUTE_MASK
            &&& valid_block(entry, 1)
        }),
{
    lemma_split_level_0(descriptor, 0);
    let block_address = output_address(descriptor, entry_span(0));
    lemma_moved_aligned(block_address as int, 0x80_0000_0000, 0x4000_0000, 512, k);
    let moved = (block_address + k * 0x4000_0000) as u64;
    lemma_split_level_0(descriptor, moved);
}

/// The table that takes the place of a valid block translates every
/// address of the block's stretch as the block did.
#[verifier::rlimit(40)]
pub proof fn lemma_split_translates(
    memory: MemoryView,
    frame: int,
    descriptor: u64,
    level: int,
    slot_low: int,
    address: u64,
)
    requires
        memory.holds(frame, TABLE_ENTRIES as int),
        0 <= level < 3,
        is_block(descriptor),
        valid_block(descriptor, level),
        0 <= slot_low,
        slot_low % (entry_span(level) as int) == 0,
        slot_low <= address < slot_low + entry_span(level),
        forall|k: int|
            0 <= k < TABLE_ENTRIES ==> #[trigger] memory.entry(frame, k) == split_entry(
                descriptor,
                level,
                k,
            ),
    ensures
        translate(memory, frame, level + 1, TABLE_ENTRIES as int, address) == entry_translation(
            descriptor,
            level,
            address,
        ),
{
    let span = entry_span(level) as int;
    let below = entry_span(level + 1) as int;
    let a = address as int;
    assert(span == 512 * below);
    lemma_index_of(a, slot_low, below, 512);
    let k = table_index(address, level + 1, TABLE_ENTRIES as int);
    assert(k == (a - slot_low) / below);
    lemma_offset_in_stretch(a, slot_low, span);
    lemma_offset_in_stretch(a, slot_low + k * below, below);
    let entry = memory.entry(frame, k);
    assert(entry == split_entry(descriptor, level, k));
    if level == 2 {
        lemma_split_entry_2(descriptor, k);
    } else if level == 1 {
        lemma_split_entry_1(descriptor, k);
    } else {
        lemma_split_entry_0(descriptor, k);
    }
}

/// A table without a valid entry translates no address.
pub proof fn lemma_empty_translates(memory: MemoryView, frame: int, level: int, address: u64)
    requires
        forall|k: int| 0 <= k < TABLE_ENTRIES ==> #[trigger] memory.entry(frame, k) == 0,
    ensures
        translate(memory, frame, level, TABLE_ENTRIES as int, address) is None,
{
    let k = table_index(address, level, TABLE_ENTRIES as int);
    assert(0 <= k < TABLE_ENTRIES);
    assert(memory.entry(frame, k) == 0);
    assert(0u64 & 3 != 3 && 0u64 & 3 != 1) by (bit_vector);
}

/// The entries of the table that takes the place of a valid block above
/// level 2 are valid blocks.
pub proof fn lemma_split_entry_valid(descriptor: u64, level: int, k: int)
    requires
        is_block(descriptor),
        valid_block(descriptor, level),
        0 <= level < 2,
        0 <= k < TABLE_ENTRIES,
    ensures
        is_block(split_entry(descriptor, level, k)),
        !is_table_or_page(split_entry(descriptor, level, k)),
        valid_block(split_entry(descriptor, level, k), level + 1),
{
    if level == 1 {
        lemma_split_entry_1(descriptor, k);
    } else {
        lemma_split_entry_0(descriptor, k);
    }
}

/// Whether the tables of `places` are the same in both memories.
pub open spec fn same_places(before: MemoryView, after: MemoryView, places: Map<int, Place>) -> bool {
    &&& after.same_extent(before)
    &&& forall|table: int, i: int|
        places.contains_key(table) && 0 <= i < TABLE_ENTRIES ==> #[trigger] after.entry(table, i)
            == before.entry(table, i)
}

/// What making ready the table below an entry leaves, where pages are
/// mapped to frames of their own: the tables that were known are untouched,
/// the table to go down into is known for the entry's stretch, and a new
/// table translates every address of that stretch as the entry did.
#[verifier::rlimit(40)]
pub proof fn lemma_map_child(
    state: MapState,
    request: MapRequest,
    places: Map<int, Place>,
    page: int,
    slot: int,
    level: int,
    page_base: int,
) -> (later: Map<int, Place>)
    requires
        map_ready(state, request, places),
        place_known(places, page, level, page_base),
        0 <= level < 3,
        0 <= slot < TABLE_ENTRIES,
        child_table(state.memory, state.pool, state.memory.entry(page, slot), level).table is Some,
    ensures
        ({
            let descriptor = state.memory.entry(page, slot);
            let child = child_table(state.memory, state.pool, descriptor, level);
            let ready = MapState { memory: child.memory, pool: child.pool, cursor: state.cursor };
            let slot_low = page_base + slot * entry_span(level);
            &&& extends(places, later)
            &&& map_ready(ready, request, later)
            &&& place_known(later, child.table->0 as int, level + 1, slot_low)
            &&& same_places(state.memory, child.memory, places)
            &&& match child.created {
                Some(link) => {
                    &&& !is_table_or_page(descriptor)
                    &&& is_table_or_page(link)
                    &&& !is_block(link)
                    &&& output_address(link, PAGE_SIZE) == child.table->0
                    &&& forall|address: u64|
                        slot_low <= address < slot_low + entry_span(level) ==> #[trigger] translate(
                            child.memory,
                            child.table->0 as int,
                            level + 1,
                            TABLE_ENTRIES as int,
                            address,
                        ) == entry_translation(descriptor, level, address)
                },
                None => is_table_or_page(descriptor) && child.memory == state.memory && child.pool
                    == state.pool,
            }
        }),
{
    let memory = state.memory;
    let pool = state.pool;
    let descriptor = memory.entry(page, slot);
    let child = child_table(memory, pool, descriptor, level);
    let slot_low = page_base + slot * entry_span(level);
    assert(tree_table(memory, pool, places, page));
    assert(tree_entry(memory, places, page, slot));
    lemma_slot_aligned(page_base, level, slot);
    if is_table_or_page(descriptor) {
        places
    } else {
        lemma_alignment_of_bits(12);
        lemma_aligned_frames(pool, 1, 1u64 << 12);
        let allocation = aligned_frames(pool, 1, 1u64 << 12);
        let frame = allocation.table->0;
        let entries = if is_block(descriptor) {
            split_run(descriptor, level, TABLE_ENTRIES as int)
        } else {
            zero_run(TABLE_ENTRIES as int)
        };
        assert(child.memory == memory.write_run(frame as int, 0, entries));
        lemma_table_descriptor(frame);
        let later = places.insert(frame as int, Place { level: level + 1, base: slot_low });
        assert forall|t: int| places.contains_key(t) implies t != frame && (t + PAGE_SIZE <= frame
            || frame + PAGE_SIZE <= t) by {
            assert(tree_table(memory, pool, places, t));
        }
        assert forall|t: int, i: int|
            places.contains_key(t) && 0 <= i < TABLE_ENTRIES implies #[trigger] child.memory.entry(
            t,
            i,
        ) == memory.entry(t, i) by {
            assert(tree_table(memory, pool, places, t));
            lemma_entry_outside_run(memory, frame as int, entries, t, i);
        }
        assert forall|k: int| 0 <= k < TABLE_ENTRIES implies #[trigger] child.memory.entry(
            frame as int,
            k,
        ) == entries[k] by {
            lemma_entry_inside_run(memory, frame as int, entries, k);
        }
        assert forall|t: int| #[trigger] later.contains_key(t) implies tree_table(
            child.memory,
            child.pool,
            later,
            t,
        ) by {
            if t == frame {
                if level + 1 < 3 {
                    assert forall|i: int| 0 <= i < TABLE_ENTRIES implies #[trigger] tree_entry(
                        child.memory,
                        later,
                        t,
                        i,
                    ) by {
                        assert(child.memory.entry(frame as int, i) == entries[i]);
                        if is_block(descriptor) {
                            lemma_split_entry_valid(descriptor, level, i);
                        } else {
                            assert(0u64 & 3 != 3 && 0u64 & 3 != 1) by (bit_vector);
                        }
                    }
                }
            } else {
                assert(tree_table(memory, pool, places, t));
                if places[t].level < 3 {
                    assert forall|i: int| 0 <= i < TABLE_ENTRIES implies #[trigger] tree_entry(
                        child.memory,
                        later,
                        t,
                        i,
                    ) by {
                        assert(tree_entry(memory, places, t, i));
                        assert(child.memory.entry(t, i) == memory.entry(t, i));
                    }
                }
            }
        }
        assert forall|address: u64|
            slot_low <= address < slot_low + entry_span(level) implies #[trigger] translate(
            child.memory,
            frame as int,
            level + 1,
            TABLE_ENTRIES as int,
            address,
        ) == entry_translation(descriptor, level, address) by {
            if is_block(descriptor) {
                assert forall|k: int| 0 <= k < TABLE_ENTRIES implies #[trigger] child.memory.entry(
                    frame as int,
                    k,
                ) == split_entry(descriptor, level, k) by {
                    assert(child.memory.entry(frame as int, k) == entries[k]);
                }
                lemma_split_translates(
                    child.memory,
                    frame as int,
                    descriptor,
                    level,
                    slot_low,
                    address,
                );
            } else {
                assert forall|k: int| 0 <= k < TABLE_ENTRIES implies #[trigger] child.memory.entry(
                    frame as int,
                    k,
                ) == 0 by {
                    assert(child.memory.entry(frame as int, k) == entries[k]);
                }
                lemma_empty_translates(child.memory, frame as int, level + 1, address);
            }
        }
        later
    }
}

/// Whether the tables of `places` below `level` are the same in both
/// memories.
pub open spec fn same_under(
    before: MemoryView,
    after: MemoryView,
    places: Map<int, Place>,
    level: int,
) -> bool {
    forall|table: int, i: int|
        places.contains_key(table) && places[table].level > level && 0 <= i < TABLE_ENTRIES
            ==> #[trigger] after.entry(table, i) == before.entry(table, i)
}

/// The stretch of entry `index` of a placed run of tables is the stretch of
/// an entry of one of its pages.
pub proof fn lemma_slot_of_page(level: int, first: int, index: int)
    requires
        0 <= level <= 3,
        0 <= index,
    ensures
        first + (index / 512) * reach(level) + (index % 512) * entry_span(level) == first + index
            * entry_span(level),
{
    let span = entry_span(level) as int;
    let k = index / 512;
    let i = index % 512;
    assert(k * (512 * span) + i * span == index * span) by (nonlinear_arith)
        requires
            index == 512 * k + i,
    ;
}

/// An address lies in the stretch of one entry only.
pub proof fn lemma_same_slot(i: int, j: int, span: int, first: int, address: int)
    requires
        span > 0,
        first + i * span <= address < first + i * span + span,
        first + j * span <= address < first + j * span + span,
    ensures
        i == j,
{
    assert(i == j) by (nonlinear_arith)
        requires
            span > 0,
            first + i * span <= address < first + i * span + span,
            first + j * span <= address < first + j * span + span,
    ;
}

/// What writing one entry of a placed run of tables leaves, where the
/// entry written is as an entry of a tree must be.
#[verifier::rlimit(40)]
pub proof fn lemma_map_write(
    before: MemoryView,
    pool: FramePool,
    places: Map<int, Place>,
    table: int,
    level: int,
    first: int,
    pages: int,
    index: int,
    value: u64,
)
    requires
        tree(before, pool, places),
        pages_placed(places, table, level, first, pages),
        1 <= pages,
        level < 3,
        0 <= index < TABLE_ENTRIES * pages,
        is_table_or_page(value) ==> place_known(
            places,
            output_address(value, PAGE_SIZE) as int,
            level + 1,
            first + index * entry_span(level),
        ),
        is_block(value) ==> valid_block(value, level),
    ensures
        ({
            let after = before.write_entry(table, index, value);
            &&& tree(after, pool, places)
            &&& after.same_extent(before)
            &&& same_beside(before, after, places, level, first, first + pages * reach(level))
            &&& same_under(before, after, places, level)
            &&& after.entry(table, index) == value
            &&& forall|j: int|
                0 <= j < TABLE_ENTRIES * pages && j != index ==> #[trigger] after.entry(table, j)
                    == before.entry(table, j)
        }),
{
    let after = before.write_entry(table, index, value);
    lemma_placed_pages_hold(before, pool, places, table, level, first, pages);
    lemma_slot_of_page(level, first, index);
    let written = before.slot(table, index);
    assert forall|t: int, i: int|
        places.contains_key(t) && 0 <= i < TABLE_ENTRIES implies (before.slot(t, i) != written
        ==> #[trigger] after.entry(t, i) == before.entry(t, i)) && (before.slot(t, i) == written
        ==> places[t] == (Place { level, base: first + (index / 512) * reach(level) }) && i
        == index % 512 && !beside(places[t], level, first, first + pages * reach(level))) by {
        assert(tree_table(before, pool, places, t));
        if before.slot(t, i) == written {
            lemma_shared_page(before, pool, places, table, level, first, pages, t, i, index);
        }
    }
    assert forall|t: int| #[trigger] places.contains_key(t) implies tree_table(
        after,
        pool,
        places,
        t,
    ) by {
        assert(tree_table(before, pool, places, t));
        if places[t].level < 3 {
            assert forall|i: int| 0 <= i < TABLE_ENTRIES implies #[trigger] tree_entry(
                after,
                places,
                t,
                i,
            ) by {
                assert(tree_entry(before, places, t, i));
                if before.slot(t, i) == written {
                    assert(after.entry(t, i) == value);
                } else {
                    assert(after.entry(t, i) == before.entry(t, i));
                }
            }
        }
    }
}

/// Writing tables that lie under the stretch of one entry, and that entry
/// itself, keeps what the addresses of the other entries are translated to.
#[verifier::rlimit(40)]
pub proof fn lemma_other_slot_kept(
    before: MemoryView,
    after: MemoryView,
    pool: FramePool,
    places: Map<int, Place>,
    table: int,
    level: int,
    first: int,
    pages: int,
    index: int,
    address: u64,
)
    requires
        tree(before, pool, places),
        pages_placed(places, table, level, first, pages),
        1 <= pages,
        level < 3,
        first % (TABLE_ENTRIES * pages * entry_span(level)) == 0,
        first <= address < first + TABLE_ENTRIES * pages * entry_span(level),
        0 <= index < TABLE_ENTRIES * pages,
        !(first + index * entry_span(level) <= address < first + index * entry_span(level)
            + entry_span(level)),
        after.same_extent(before),
        forall|j: int|
            0 <= j < TABLE_ENTRIES * pages && j != index ==> #[trigger] after.entry(table, j)
                == before.entry(table, j),
        forall|t: int, i: int|
            places.contains_key(t) && beside(
                places[t],
                level + 1,
                first + index * entry_span(level),
                first + index * entry_span(level) + entry_span(level),
            ) && places[t].level > level && 0 <= i < TABLE_ENTRIES ==> #[trigger] after.entry(t, i)
                == before.entry(t, i),
    ensures
        translate(after, table, level, TABLE_ENTRIES * pages, address) == translate(
            before,
            table,
            level,
            TABLE_ENTRIES * pages,
            address,
        ),
{
    let span = entry_span(level) as int;
    let table_len = TABLE_ENTRIES * pages;
    let slot_low = first + index * span;
    lemma_placed_pages_hold(before, pool, places, table, level, first, pages);
    lemma_index_of(address as int, first, span, table_len);
    let j = table_index(address, level, table_len);
    assert(j != index);
    let descriptor = before.entry(table, j);
    assert(after.entry(table, j) == descriptor);
    if !is_block(descriptor) && is_table_or_page(descriptor) {
        let page = table + (j / 512) * PAGE_SIZE;
        let page_base = first + (j / 512) * reach(level);
        assert(place_known(places, page, level, page_base));
        assert(tree_table(before, pool, places, page));
        assert(tree_entry(before, places, page, j % 512));
        lemma_slot_of_page(level, first, j);
        let next = output_address(descriptor, PAGE_SIZE) as int;
        let low = first + j * span;
        assert(place_known(places, next, level + 1, low));
        lemma_slot_of_page(level, first, index);
        assert(place_known(
            places,
            table + (index / 512) * PAGE_SIZE,
            level,
            first + (index / 512) * reach(level),
        ));
        assert(tree_table(before, pool, places, table + (index / 512) * PAGE_SIZE));
        lemma_slot_aligned(first + (index / 512) * reach(level), level, index % 512);
        assert forall|t: int, i: int|
            places.contains_key(t) && places[t].level >= level + 1 && place_holds(
                places[t],
                address as int,
            ) && 0 <= i < TABLE_ENTRIES implies #[trigger] after.entry(t, i) == before.entry(
            t,
            i,
        ) by {
            assert(tree_table(before, pool, places, t));
            lemma_range_apart(places[t], level, slot_low, address as int);
        }
        lemma_walk_framed(before, after, pool, places, next, level + 1, low, address);
    }
}

/// The bytes that a run of `pages` tables at `level` maps.
pub open spec fn cover(level: int, pages: int) -> int {
    TABLE_ENTRIES * pages * entry_span(level)
}

/// Whether the cursor of `state` stands in the stretch of entry `index` of
/// the run of tables for the range from `first` on, with something left to
/// map.
pub open spec fn in_slot(state: MapState, level: int, first: int, index: int) -> bool {
    &&& state.cursor.remaining_pages != 0
    &&& first + index * entry_span(level) <= state.cursor.virtual_address
    &&& state.cursor.virtual_address < first + index * entry_span(level) + entry_span(level)
}

/// What a step of a descent claims of the state that it leaves: the tables
/// still form a tree, both addresses have moved by as much, the addresses
/// that were passed are mapped, and the others of the run's range are
/// translated as before.
pub open spec fn step_done(
    state: MapState,
    after: MapState,
    request: MapRequest,
    places: Map<int, Place>,
    later: Map<int, Place>,
    table: int,
    level: int,
    pages: int,
    first: int,
) -> bool {
    let table_len = TABLE_ENTRIES * pages;
    let high = first + cover(level, pages);
    let from = state.cursor.virtual_address as int;
    let to = after.cursor.virtual_address as int;
    &&& extends(places, later)
    &&& map_ready(after, request, later)
    &&& after.memory.same_extent(state.memory)
    &&& after.cursor.input_end() == state.cursor.input_end()
    &&& in_step(state, after, request)
    &&& from <= to
    &&& same_beside(state.memory, after.memory, places, level, first, high)
    &&& range_mapped(after.memory, table, level, table_len, request, state.cursor, from, to)
    &&& rest_kept(state.memory, after.memory, table, level, table_len, first, high, from, to)
}

/// The stretch of an entry of a run of tables lies in the run's range.
pub proof fn lemma_slot_in_cover(level: int, pages: int, first: int, index: int)
    requires
        0 <= level <= 3,
        1 <= pages,
        0 <= index < TABLE_ENTRIES * pages,
    ensures
        first <= first + index * entry_span(level),
        first + index * entry_span(level) + entry_span(level) <= first + cover(level, pages),
        first + (index + 1) * entry_span(level) == first + index * entry_span(level) + entry_span(
            level,
        ),
        index + 1 == TABLE_ENTRIES * pages ==> first + index * entry_span(level) + entry_span(level)
            == first + cover(level, pages),
        cover(level, pages) == pages * reach(level),
{
    let span = entry_span(level) as int;
    let len = TABLE_ENTRIES * pages;
    assert(0 <= index * span && index * span + span <= len * span && (index + 1) * span == index
        * span + span) by (nonlinear_arith)
        requires
            0 <= index < len,
            span > 0,
    ;
    assert(len * span == pages * (512 * span)) by (nonlinear_arith)
        requires
            len == 512 * pages,
    ;
}

/// What making an entry a block leaves.
#[verifier::rlimit(40)]
pub proof fn lemma_map_block_step(
    state: MapState,
    request: MapRequest,
    places: Map<int, Place>,
    table: int,
    level: int,
    pages: int,
    first: int,
    index: int,
)
    requires
        map_ready(state, request, places),
        pages_placed(places, table, level, first, pages),
        1 <= pages <= 16,
        0 <= level < 3,
        first % cover(level, pages) == 0,
        0 <= index < TABLE_ENTRIES * pages,
        in_slot(state, level, first, index),
        block_fits(request, state.cursor, level),
    ensures
        ({
            let written = MapState {
                memory: state.memory.write_entry(
                    table,
                    index,
                    state.cursor.physical_address | request.attributes(true),
                ),
                pool: state.pool,
                cursor: state.cursor.advanced(entry_span(level) as int / PAGE_SIZE as int, false),
            };
            &&& step_done(state, written, request, places, places, table, level, pages, first)
            &&& written.cursor.virtual_address == first + index * entry_span(level) + entry_span(
                level,
            )
            &&& forall|j: int|
                0 <= j < TABLE_ENTRIES * pages && j != index ==> #[trigger] written.memory.entry(
                    table,
                    j,
                ) == state.memory.entry(table, j)
        }),
{
    let span = entry_span(level) as int;
    let table_len = TABLE_ENTRIES * pages;
    let va = state.cursor.virtual_address;
    let pa = state.cursor.physical_address;
    let value = pa | request.attributes(true);
    let slot_low = first + index * span;
    let after = state.memory.write_entry(table, index, value);
    let written = MapState {
        memory: after,
        pool: state.pool,
        cursor: state.cursor.advanced(span / PAGE_SIZE as int, false),
    };
    assert(level == 2);
    lemma_placed_pages_hold(state.memory, state.pool, places, table, level, first, pages);
    lemma_slot_in_cover(level, pages, first, index);
    lemma_slot_of_page(level, first, index);
    assert(place_known(
        places,
        table + (index / 512) * PAGE_SIZE,
        level,
        first + (index / 512) * reach(level),
    ));
    assert(tree_table(
        state.memory,
        state.pool,
        places,
        table + (index / 512) * PAGE_SIZE,
    ));
    lemma_slot_aligned(first + (index / 512) * reach(level), level, index % 512);
    lemma_offset_in_stretch(va as int, slot_low, span);
    assert(va == slot_low);
    lemma_block_leaf(request, pa);
    lemma_map_write(state.memory, state.pool, places, table, level, first, pages, index, value);
    assert(written.cursor.virtual_address == va + span);
    assert(written.cursor.physical_address == pa + span);
    assert forall|address: u64| va <= address < va + span implies #[trigger] translate(
        after,
        table,
        level,
        table_len,
        address,
    ) == Some(mapped_to(request, state.cursor, address)) by {
        lemma_index_of(address as int, first, span, table_len);
        let j = table_index(address, level, table_len);
        lemma_same_slot(j, index, span, first, address as int);
        lemma_offset_in_stretch(address as int, slot_low, span);
    }
    assert forall|address: u64|
        first <= address < first + cover(level, pages) && !(va <= address < va
            + span) implies #[trigger] translate(after, table, level, table_len, address)
        == translate(state.memory, table, level, table_len, address) by {
        lemma_other_slot_kept(
            state.memory,
            after,
            state.pool,
            places,
            table,
            level,
            first,
            pages,
            index,
            address,
        );
    }
}

/// The state after the descent has gone down into entry `index` and, where
/// the entry's table was new, pointed the entry to it.
pub open spec fn after_descent(
    state: MapState,
    request: MapRequest,
    table: int,
    level: int,
    index: int,
) -> MapState {
    let child = child_table(state.memory, state.pool, state.memory.entry(table, index), level);
    let ready = MapState { memory: child.memory, pool: child.pool, cursor: state.cursor };
    let below = map_table(ready, request, child.table->0 as int, level + 1, 1);
    match child.created {
        Some(descriptor) => MapState {
            memory: below.state.memory.write_entry(table, index, descriptor),
            pool: below.state.pool,
            cursor: below.state.cursor,
        },
        None => below.state,
    }
}

/// Whether a descent into entry `index` succeeds.
pub open spec fn descent_succeeds(
    state: MapState,
    request: MapRequest,
    table: int,
    level: int,
    index: int,
) -> bool {
    let child = child_table(state.memory, state.pool, state.memory.entry(table, index), level);
    let ready = MapState { memory: child.memory, pool: child.pool, cursor: state.cursor };
    child.table is Some && map_table(ready, request, child.table->0 as int, level + 1, 1).ok
}

/// What going down into an entry leaves.
#[verifier::rlimit(40)]
pub proof fn lemma_map_descend_step(
    state: MapState,
    request: MapRequest,
    places: Map<int, Place>,
    table: int,
    level: int,
    pages: int,
    first: int,
    index: int,
) -> (later: Map<int, Place>)
    requires
        map_ready(state, request, places),
        pages_placed(places, table, level, first, pages),
        1 <= pages <= 16,
        0 <= level < 3,
        first % cover(level, pages) == 0,
        0 <= index < TABLE_ENTRIES * pages,
        in_slot(state, level, first, index),
        descent_succeeds(state, request, table, level, index),
    ensures
        ({
            let linked = after_descent(state, request, table, level, index);
            let slot_high = first + index * entry_span(level) + entry_span(level);
            &&& step_done(state, linked, request, places, later, table, level, pages, first)
            &&& linked.cursor.virtual_address <= slot_high
            &&& (linked.cursor.remaining_pages == 0 || linked.cursor.virtual_address == slot_high)
            &&& forall|j: int|
                0 <= j < TABLE_ENTRIES * pages && j != index ==> #[trigger] linked.memory.entry(
                    table,
                    j,
                ) == state.memory.entry(table, j)
        }),
    decreases 3 - level, TABLE_ENTRIES * pages - index, 1int,
{
    let span = entry_span(level) as int;
    let table_len = TABLE_ENTRIES * pages;
    let va = state.cursor.virtual_address;
    let slot_low = first + index * span;
    let slot_high = slot_low + span;
    let high = first + cover(level, pages);
    let page = table + (index / 512) * PAGE_SIZE;
    let page_base = first + (index / 512) * reach(level);
    let slot = index % 512;
    lemma_placed_pages_hold(state.memory, state.pool, places, table, level, first, pages);
    lemma_slot_in_cover(level, pages, first, index);
    lemma_slot_of_page(level, first, index);
    assert(place_known(places, page, level, page_base));
    assert(tree_table(state.memory, state.pool, places, page));
    lemma_slot_aligned(page_base, level, slot);
    let descriptor = state.memory.entry(table, index);
    assert(descriptor == state.memory.entry(page, slot));
    let child = child_table(state.memory, state.pool, descriptor, level);
    let ready = MapState { memory: child.memory, pool: child.pool, cursor: state.cursor };
    let next = child.table->0 as int;
    let later1 = lemma_map_child(state, request, places, page, slot, level, page_base);
    assert(pages_placed(later1, next, level + 1, slot_low, 1)) by {
        assert forall|k: int| 0 <= k < 1 implies #[trigger] place_known(
            later1,
            next + k * PAGE_SIZE,
            level + 1,
            slot_low + k * reach(level + 1),
        ) by {}
    }
    assert(cover(level + 1, 1) == span);
    let below = map_table(ready, request, next, level + 1, 1);
    let later2 = lemma_map_table(ready, request, later1, next, level + 1, 1, slot_low);
    let mid = below.state;
    let va2 = mid.cursor.virtual_address;
    assert(pages_placed(later2, table, level, first, pages)) by {
        assert forall|k: int| 0 <= k < pages implies #[trigger] place_known(
            later2,
            table + k * PAGE_SIZE,
            level,
            first + k * reach(level),
        ) by {
            assert(place_known(places, table + k * PAGE_SIZE, level, first + k * reach(level)));
            assert(later1.contains_key(table + k * PAGE_SIZE));
        }
    }
    let linked = after_descent(state, request, table, level, index);
    let link: u64 = match child.created {
        Some(created) => created,
        None => descriptor,
    };
    // the entries of the run itself
    assert forall|j: int| 0 <= j < table_len implies #[trigger] mid.memory.entry(table, j)
        == state.memory.entry(table, j) by {
        let p = table + (j / 512) * PAGE_SIZE;
        assert(place_known(places, p, level, first + (j / 512) * reach(level)));
        assert(child.memory.entry(p, j % 512) == state.memory.entry(p, j % 512));
        assert(later1.contains_key(p) && beside(later1[p], level + 1, slot_low, slot_high));
        assert(mid.memory.entry(p, j % 512) == child.memory.entry(p, j % 512));
    }
    assert(place_known(later2, next, level + 1, slot_low)) by {
        assert(later1.contains_key(next));
    }
    if child.created is Some {
        lemma_map_write(mid.memory, mid.pool, later2, table, level, first, pages, index, link);
    }
    assert(linked.memory.entry(table, index) == link);
    assert(is_table_or_page(link) && !is_block(link) && output_address(link, PAGE_SIZE) == next)
        by {
        if child.created is None {
            assert(descriptor & 3 == 3 ==> descriptor & 3 != 1) by (bit_vector);
        }
    }
    assert(same_under(mid.memory, linked.memory, later2, level));
    // the tables beside the run
    assert forall|t: int, i: int|
        places.contains_key(t) && 0 <= i < TABLE_ENTRIES && (beside(places[t], level, first, high)
            || (places[t].level > level && beside(
            places[t],
            level + 1,
            slot_low,
            slot_high,
        ))) implies #[trigger] linked.memory.entry(t, i) == state.memory.entry(t, i) by {
        assert(child.memory.entry(t, i) == state.memory.entry(t, i));
        assert(later1.contains_key(t) && later1[t] == places[t]);
        assert(beside(places[t], level + 1, slot_low, slot_high));
        assert(mid.memory.entry(t, i) == child.memory.entry(t, i));
        assert(later2.contains_key(t) && later2[t] == places[t]);
        if child.created is Some {
            assert(linked.memory.entry(t, i) == mid.memory.entry(t, i));
        }
    }
    // what the addresses of the entry's stretch are translated to
    assert(linked.memory.same_extent(mid.memory));
    assert forall|address: u64| slot_low <= address < slot_high implies #[trigger] translate(
        ready.memory,
        next,
        level + 1,
        TABLE_ENTRIES as int,
        address,
    ) == translate(state.memory, table, level, table_len, address) by {
        lemma_index_of(address as int, first, span, table_len);
        let j = table_index(address, level, table_len);
        lemma_same_slot(j, index, span, first, address as int);
        assert(state.memory.entry(table, j) == descriptor);
        if child.created is Some {
            assert(translate(child.memory, next, level + 1, TABLE_ENTRIES as int, address)
                == entry_translation(descriptor, level, address));
        } else {
            assert(ready.memory == state.memory);
            assert(is_table_or_page(descriptor) && !is_block(descriptor));
        }
    }
    assert forall|address: u64| slot_low <= address < slot_high implies #[trigger] translate(
        linked.memory,
        table,
        level,
        table_len,
        address,
    ) == translate(mid.memory, next, level + 1, TABLE_ENTRIES as int, address) by {
        lemma_index_of(address as int, first, span, table_len);
        let j = table_index(address, level, table_len);
        lemma_same_slot(j, index, span, first, address as int);
        assert(linked.memory.entry(table, j) == link);
        assert forall|t: int, i: int|
            later2.contains_key(t) && later2[t].level >= level + 1 && place_holds(
                later2[t],
                address as int,
            ) && 0 <= i < TABLE_ENTRIES implies #[trigger] linked.memory.entry(t, i)
            == mid.memory.entry(t, i) by {}
        lemma_walk_framed(
            mid.memory,
            linked.memory,
            mid.pool,
            later2,
            next,
            level + 1,
            slot_low,
            address,
        );
    }
    assert forall|address: u64| va <= address < va2 implies #[trigger] translate(
        linked.memory,
        table,
        level,
        table_len,
        address,
    ) == Some(mapped_to(request, state.cursor, address)) by {
        assert(translate(mid.memory, next, level + 1, TABLE_ENTRIES as int, address) == Some(
            mapped_to(request, state.cursor, address),
        ));
    }
    assert forall|address: u64|
        first <= address < high && !(va <= address < va2) implies #[trigger] translate(
        linked.memory,
        table,
        level,
        table_len,
        address,
    ) == translate(state.memory, table, level, table_len, address) by {
        if slot_low <= address < slot_high {
            assert(translate(mid.memory, next, level + 1, TABLE_ENTRIES as int, address)
                == translate(ready.memory, next, level + 1, TABLE_ENTRIES as int, address));
            assert(translate(linked.memory, table, level, table_len, address) == translate(
                mid.memory,
                next,
                level + 1,
                TABLE_ENTRIES as int,
                address,
            ));
            assert(translate(ready.memory, next, level + 1, TABLE_ENTRIES as int, address)
                == translate(state.memory, table, level, table_len, address));
        } else {
            lemma_other_slot_kept(
                state.memory,
                linked.memory,
                state.pool,
                places,
                table,
                level,
                first,
                pages,
                index,
                address,
            );
        }
    }
    later2
}

/// What a descent leaves, from entry `index` of a placed run of tables on.
#[verifier::rlimit(40)]
pub proof fn lemma_map_entries(
    state: MapState,
    request: MapRequest,
    places: Map<int, Place>,
    table: int,
    level: int,
    pages: int,
    first: int,
    index: int,
) -> (later: Map<int, Place>)
    requires
        map_ready(state, request, places),
        pages_placed(places, table, level, first, pages),
        1 <= pages <= 16,
        0 <= level < 3,
        first % cover(level, pages) == 0,
        0 <= index <= TABLE_ENTRIES * pages,
        first <= state.cursor.virtual_address <= first + cover(level, pages),
        state.cursor.remaining_pages == 0 || (index < TABLE_ENTRIES * pages && in_slot(
            state,
            level,
            first,
            index,
        )) || (index == TABLE_ENTRIES * pages && state.cursor.virtual_address == first + cover(
            level,
            pages,
        )),
        map_entries(state, request, table, level, TABLE_ENTRIES * pages, index).ok,
    ensures
        ({
            let out = map_entries(state, request, table, level, TABLE_ENTRIES * pages, index).state;
            let high = first + cover(level, pages);
            &&& step_done(state, out, request, places, later, table, level, pages, first)
            &&& out.cursor.virtual_address <= high
            &&& (out.cursor.remaining_pages == 0 || out.cursor.virtual_address == high)
            &&& forall|j: int|
                0 <= j < index ==> #[trigger] out.memory.entry(table, j) == state.memory.entry(
                    table,
                    j,
                )
        }),
    decreases 3 - level, TABLE_ENTRIES * pages - index, 2int,
{
    let table_len = TABLE_ENTRIES * pages;
    let high = first + cover(level, pages);
    if state.cursor.remaining_pages == 0 || index >= table_len {
        places
    } else {
        lemma_slot_in_cover(level, pages, first, index);
        let span = entry_span(level) as int;
        let va = state.cursor.virtual_address;
        let blocked = block_fits(request, state.cursor, level);
        let mid = if blocked {
            MapState {
                memory: state.memory.write_entry(
                    table,
                    index,
                    state.cursor.physical_address | request.attributes(true),
                ),
                pool: state.pool,
                cursor: state.cursor.advanced(entry_span(level) as int / PAGE_SIZE as int, false),
            }
        } else {
            after_descent(state, request, table, level, index)
        };
        let later1 = if blocked {
            lemma_map_block_step(state, request, places, table, level, pages, first, index);
            places
        } else {
            lemma_map_descend_step(state, request, places, table, level, pages, first, index)
        };
        assert(map_entries(state, request, table, level, table_len, index) == map_entries(
            mid,
            request,
            table,
            level,
            table_len,
            index + 1,
        ));
        assert(pages_placed(later1, table, level, first, pages)) by {
            assert forall|k: int| 0 <= k < pages implies #[trigger] place_known(
                later1,
                table + k * PAGE_SIZE,
                level,
                first + k * reach(level),
            ) by {
                assert(place_known(places, table + k * PAGE_SIZE, level, first + k * reach(level)));
            }
        }
        if index + 1 < table_len {
            lemma_slot_in_cover(level, pages, first, index + 1);
        }
        let later2 = lemma_map_entries(mid, request, later1, table, level, pages, first, index + 1);
        let out = map_entries(mid, request, table, level, table_len, index + 1).state;
        lemma_steps_compose(
            state,
            mid,
            out,
            request,
            places,
            later1,
            later2,
            table,
            level,
            pages,
            first,
        );
        later2
    }
}

/// Two steps of a descent, one after the other, are a step.
pub proof fn lemma_steps_compose(
    state: MapState,
    mid: MapState,
    out: MapState,
    request: MapRequest,
    places: Map<int, Place>,
    later1: Map<int, Place>,
    later2: Map<int, Place>,
    table: int,
    level: int,
    pages: int,
    first: int,
)
    requires
        step_done(state, mid, request, places, later1, table, level, pages, first),
        step_done(mid, out, request, later1, later2, table, level, pages, first),
        first <= state.cursor.virtual_address,
        out.cursor.virtual_address <= first + cover(level, pages),
    ensures
        step_done(state, out, request, places, later2, table, level, pages, first),
{
    let table_len = TABLE_ENTRIES * pages;
    let high = first + cover(level, pages);
    let from = state.cursor.virtual_address as int;
    let middle = mid.cursor.virtual_address as int;
    let to = out.cursor.virtual_address as int;
    assert forall|t: int, i: int|
        places.contains_key(t) && beside(places[t], level, first, high) && 0 <= i
            < TABLE_ENTRIES implies #[trigger] out.memory.entry(t, i) == state.memory.entry(
        t,
        i,
    ) by {
        assert(mid.memory.entry(t, i) == state.memory.entry(t, i));
        assert(later1.contains_key(t) && later1[t] == places[t]);
    }
    assert forall|address: u64| from <= address < to implies #[trigger] translate(
        out.memory,
        table,
        level,
        table_len,
        address,
    ) == Some(mapped_to(request, state.cursor, address)) by {
        if address < middle {
            assert(translate(mid.memory, table, level, table_len, address) == Some(
                mapped_to(request, state.cursor, address),
            ));
        } else {
            assert(translate(out.memory, table, level, table_len, address) == Some(
                mapped_to(request, mid.cursor, address),
            ));
        }
    }
    assert forall|address: u64|
        first <= address < high && !(from <= address < to) implies #[trigger] translate(
        out.memory,
        table,
        level,
        table_len,
        address,
    ) == translate(state.memory, table, level, table_len, address) by {
        assert(translate(mid.memory, table, level, table_len, address) == translate(
            state.memory,
            table,
            level,
            table_len,
            address,
        ));
    }
}

/// What a descent leaves, from the top of a placed run of tables on: the
/// addresses that it has passed are mapped as asked, and the others of the
/// run's range are translated as before.
pub proof fn lemma_map_table(
    state: MapState,
    request: MapRequest,
    places: Map<int, Place>,
    table: int,
    level: int,
    pages: int,
    first: int,
) -> (later: Map<int, Place>)
    requires
        map_ready(state, request, places),
        pages_placed(places, table, level, first, pages),
        1 <= pages <= 16,
        0 <= level <= 3,
        first % cover(level, pages) == 0,
        first <= state.cursor.virtual_address < first + cover(level, pages),
        map_table(state, request, table, level, pages).ok,
    ensures
        ({
            let out = map_table(state, request, table, level, pages).state;
            let high = first + cover(level, pages);
            &&& step_done(state, out, request, places, later, table, level, pages, first)
            &&& out.cursor.virtual_address <= high
            &&& (out.cursor.remaining_pages == 0 || out.cursor.virtual_address == high)
        }),
    decreases 3 - level, TABLE_ENTRIES * pages + 1, 0int,
{
    let table_len = TABLE_ENTRIES * pages;
    lemma_placed_pages_hold(state.memory, state.pool, places, table, level, first, pages);
    if level >= 3 {
        assert(cover(3, pages) == pages * reach(3)) by (nonlinear_arith)
            requires
                cover(3, pages) == 512 * pages * 0x1000,
                reach(3) == 0x20_0000,
        ;
        lemma_map_leaves(state, request, places, table, first, pages);
        places
    } else {
        let span = entry_span(level) as int;
        lemma_index_of(state.cursor.virtual_address as int, first, span, table_len);
        let index = table_index(state.cursor.virtual_address, level, table_len);
        lemma_map_entries(state, request, places, table, level, pages, first, index)
    }
}

/// Whether `places` describes the stage-1 tables of `machine` as a tree
/// whose top is the table of `TTBR0_EL2`, at `level`.
pub open spec fn stage_1_tree(machine: MachineView, places: Map<int, Place>, level: int) -> bool {
    &&& tree(machine.memory, machine.allocator, places)
    &&& place_known(places, ttbr_base_address(machine.registers.ttbr0_el2) as int, level, 0)
}

/// What `map_address` asks the tables to translate an address of its range
/// to: as far into the physical range as the address is into the virtual
/// range, with the attributes of a stage-1 page of the given permissions
/// and kind of memory.
pub open spec fn stage_1_mapping(
    machine: MachineView,
    physical_address: u64,
    virtual_address: u64,
    readable: bool,
    writable: bool,
    executable: bool,
    is_device: bool,
    address: u64,
) -> Translation {
    Translation {
        output: physical_address + (address - virtual_address),
        attributes: stage_1_attributes(
            permission_mask(readable, writable, executable),
            first_attribute_index(machine.registers.mair_el2, wanted_attribute(is_device), 0)->0,
            false,
        ) & ATTRIBUTE_MASK,
    }
}

/// After a mapping that succeeded, every address of the range is translated
/// to its place in the physical range, with the attributes asked for; every
/// other address that the top table maps is translated as before; and the
/// tables still form a tree.
///
/// This is stated of stage-1 tables that form a tree with its top at one of
/// the levels 0 to 3, of a virtual range that starts at a multiple of the
/// page size within what the top table maps, and of a physical range below
/// `PHYSICAL_ADDRESS_LIMIT`.
pub proof fn lemma_map_address_maps(
    machine: MachineView,
    physical_address: u64,
    virtual_address: u64,
    size: u64,
    readable: bool,
    writable: bool,
    executable: bool,
    is_device: bool,
    places: Map<int, Place>,
) -> (later: Map<int, Place>)
    requires
        machine.allocator.well_formed(),
        stage_1_tree(machine, places, initial_level(machine.registers.tcr_el2)),
        virtual_address % PAGE_SIZE == 0,
        virtual_address < reach(initial_level(machine.registers.tcr_el2)),
        physical_address + pages_for(size) * PAGE_SIZE <= PHYSICAL_ADDRESS_LIMIT,
        map_address_result(
            machine,
            physical_address,
            virtual_address,
            size,
            readable,
            writable,
            executable,
            is_device,
        ).ok,
    ensures
        ({
            let after = map_address_result(
                machine,
                physical_address,
                virtual_address,
                size,
                readable,
                writable,
                executable,
                is_device,
            ).machine;
            let level = initial_level(machine.registers.tcr_el2);
            let root = ttbr_base_address(machine.registers.ttbr0_el2) as int;
            let end = virtual_address + pages_for(size) * PAGE_SIZE;
            &&& extends(places, later)
            &&& stage_1_tree(after, later, level)
            &&& end <= reach(level)
            &&& forall|address: u64|
                virtual_address <= address < end ==> #[trigger] translate(
                    after.memory,
                    root,
                    level,
                    TABLE_ENTRIES as int,
                    address,
                ) == Some(
                    stage_1_mapping(
                        machine,
                        physical_address,
                        virtual_address,
                        readable,
                        writable,
                        executable,
                        is_device,
                        address,
                    ),
                )
            &&& forall|address: u64|
                address < reach(level) && !(virtual_address <= address < end) ==> #[trigger] translate(
                    after.memory,
                    root,
                    level,
                    TABLE_ENTRIES as int,
                    address,
                ) == translate(machine.memory, root, level, TABLE_ENTRIES as int, address)
        }),
{
    let level = initial_level(machine.registers.tcr_el2);
    let root = ttbr_base_address(machine.registers.ttbr0_el2) as int;
    let tcr_el2 = widened_tcr(machine.registers.tcr_el2, (virtual_address + size) as u64);
    let request = stage_1_request(
        permission_mask(readable, writable, executable),
        first_attribute_index(machine.registers.mair_el2, wanted_attribute(is_device), 0)->0,
        t0sz_of(tcr_el2) as u8,
    );
    let state = MapState {
        memory: machine.memory,
        pool: machine.allocator,
        cursor: MapCursor {
            physical_address,
            virtual_address,
            remaining_pages: pages_for(size) as u64,
        },
    };
    assert(tree_table(machine.memory, machine.allocator, places, root));
    assert(pages_placed(places, root, level, 0, 1)) by {
        assert forall|k: int| 0 <= k < 1 implies #[trigger] place_known(
            places,
            root + k * PAGE_SIZE,
            level,
            0 + k * reach(level),
        ) by {}
    }
    assert(cover(level, 1) == reach(level));
    let later = lemma_map_table(state, request, places, root, level, 1, 0);
    let out = map_table(state, request, root, level, 1).state;
    assert(place_known(later, root, level, 0));
    assert forall|address: u64|
        virtual_address <= address < virtual_address + pages_for(size)
            * PAGE_SIZE implies #[trigger] translate(
        out.memory,
        root,
        level,
        TABLE_ENTRIES as int,
        address,
    ) == Some(
        stage_1_mapping(
            machine,
            physical_address,
            virtual_address,
            readable,
            writable,
            executable,
            is_device,
            address,
        ),
    ) by {
        assert(translate(out.memory, root, level, TABLE_ENTRIES * 1, address) == Some(
            mapped_to(request, state.cursor, address),
        ));
    }
    assert forall|address: u64|
        address < reach(level) && !(virtual_address <= address < virtual_address + pages_for(size)
            * PAGE_SIZE) implies #[trigger] translate(
        out.memory,
        root,
        level,
        TABLE_ENTRIES as int,
        address,
    ) == translate(machine.memory, root, level, TABLE_ENTRIES as int, address) by {
        assert(translate(out.memory, root, level, TABLE_ENTRIES * 1, address) == translate(
            machine.memory,
            root,
            level,
            TABLE_ENTRIES * 1,
            address,
        ));
    }
    later
}

/// After a dummy mapping that succeeded, every address of the range is
/// translated into the dummy page, readable, writable and executable; every
/// other address that the top tables map is translated as before; and the
/// tables still form a tree.
///
/// This is stated of stage-2 tables that form a tree, of a range that
/// starts at a multiple of the page size within what the top tables map,
/// and of a dummy page at a multiple of the page size below
/// `PHYSICAL_ADDRESS_LIMIT`.
pub proof fn lemma_dummy_mapping_keeps_the_rest(
    machine: MachineView,
    virtual_address: u64,
    size: u64,
    dummy_page: u64,
    places: Map<int, Place>,
) -> (later: Map<int, Place>)
    requires
        machine.allocator.well_formed(),
        stage_2_tree(machine, places),
        virtual_address % PAGE_SIZE == 0,
        virtual_address < cover(
            stage_2_initial_level(sl0_of(machine.registers.vtcr_el2)),
            tables_for(
                concatenation_bits(
                    t0sz_of(machine.registers.vtcr_el2) as int,
                    stage_2_initial_level(sl0_of(machine.registers.vtcr_el2)),
                ),
            ) as int,
        ),
        dummy_page % PAGE_SIZE == 0,
        dummy_page < PHYSICAL_ADDRESS_LIMIT,
        map_dummy_result(machine, virtual_address, size, dummy_page).ok,
    ensures
        ({
            let after = map_dummy_result(machine, virtual_address, size, dummy_page).machine;
            let level = stage_2_initial_level(sl0_of(machine.registers.vtcr_el2));
            let pages = tables_for(
                concatenation_bits(t0sz_of(machine.registers.vtcr_el2) as int, level),
            ) as int;
            let root = ttbr_base_address(machine.registers.vttbr_el2) as int;
            &&& extends(places, later)
            &&& stage_2_tree(after, later)
            &&& virtual_address + size <= cover(level, pages)
            &&& forall|address: u64|
                virtual_address <= address < virtual_address + size ==> #[trigger] translate(
                    after.memory,
                    root,
                    level,
                    TABLE_ENTRIES * pages,
                    address,
                ) == Some(
                    Translation {
                        output: dummy_page + address % PAGE_SIZE,
                        attributes: stage_2_attributes(PERMISSION_ALL, true, false, false)
                            & ATTRIBUTE_MASK,
                    },
                )
            &&& forall|address: u64|
                address < cover(level, pages) && !(virtual_address <= address < virtual_address
                    + size) ==> #[trigger] translate(
                    after.memory,
                    root,
                    level,
                    TABLE_ENTRIES * pages,
                    address,
                ) == translate(machine.memory, root, level, TABLE_ENTRIES * pages, address)
        }),
{
    let level = stage_2_initial_level(sl0_of(machine.registers.vtcr_el2));
    let t0sz = t0sz_of(machine.registers.vtcr_el2);
    let pages = tables_for(concatenation_bits(t0sz as int, level)) as int;
    let root = ttbr_base_address(machine.registers.vttbr_el2) as int;
    let request = stage_2_request(PERMISSION_ALL, false, true, t0sz as u8);
    let state = MapState {
        memory: machine.memory,
        pool: machine.allocator,
        cursor: MapCursor {
            physical_address: dummy_page,
            virtual_address,
            remaining_pages: size / PAGE_SIZE,
        },
    };
    assert(cover(level, pages) > 0) by (nonlinear_arith)
        requires
            cover(level, pages) == 512 * pages * entry_span(level),
            pages >= 1,
            entry_span(level) > 0,
    ;
    let later = lemma_map_table(state, request, places, root, level, pages, 0);
    let out = map_table(state, request, root, level, pages).state;
    assert(pages_placed(later, root, level, 0, pages)) by {
        assert forall|k: int| 0 <= k < pages implies #[trigger] place_known(
            later,
            root + k * PAGE_SIZE,
            level,
            0 + k * reach(level),
        ) by {
            assert(place_known(places, root + k * PAGE_SIZE, level, 0 + k * reach(level)));
        }
    }
    assert forall|address: u64|
        virtual_address <= address < virtual_address + size implies #[trigger] translate(
        out.memory,
        root,
        level,
        TABLE_ENTRIES * pages,
        address,
    ) == Some(
        Translation {
            output: dummy_page + address % PAGE_SIZE,
            attributes: stage_2_attributes(PERMISSION_ALL, true, false, false) & ATTRIBUTE_MASK,
        },
    ) by {
        assert(translate(out.memory, root, level, TABLE_ENTRIES * pages, address) == Some(
            mapped_to(request, state.cursor, address),
        ));
    }
    later
}

/// The levels of the tables of a tree.
pub open spec fn levels_of(places: Map<int, Place>) -> Map<int, int> {
    Map::new(|t: int| places.contains_key(t), |t: int| places[t].level)
}

/// A tree of tables is a forest of tables.
pub proof fn lemma_tree_is_forest(memory: MemoryView, pool: FramePool, places: Map<int, Place>)
    requires
        tree(memory, pool, places),
    ensures
        forest(memory, pool, levels_of(places)),
        forall|table: int| #[trigger]
            places.contains_key(table) ==> table_known(
                levels_of(places),
                table,
                places[table].level,
            ),
{
    let levels = levels_of(places);
    assert forall|t: int| #[trigger] levels.contains_key(t) implies forest_table(
        memory,
        pool,
        levels,
        t,
    ) by {
        assert(tree_table(memory, pool, places, t));
        if levels[t] < 3 {
            assert forall|i: int|
                0 <= i < TABLE_ENTRIES && is_table_or_page(
                    #[trigger] memory.entry(t, i),
                ) implies table_known(
                levels,
                output_address(memory.entry(t, i), PAGE_SIZE) as int,
                levels[t] + 1,
            ) by {
                assert(tree_entry(memory, places, t, i));
            }
        }
    }
}

/// A table without a valid entry, outside the free frames of the pool, is a
/// tree by itself.
pub proof fn lemma_empty_table_is_tree(memory: MemoryView, pool: FramePool, table: int, level: int)
    requires
        0 <= table,
        table % (PAGE_SIZE as int) == 0,
        memory.holds(table, TABLE_ENTRIES as int),
        outside_pool(pool, table),
        0 <= level <= 3,
        forall|i: int| 0 <= i < TABLE_ENTRIES ==> #[trigger] memory.entry(table, i) == 0,
    ensures
        tree(memory, pool, Map::<int, Place>::empty().insert(table, Place { level, base: 0 })),
        place_known(
            Map::<int, Place>::empty().insert(table, Place { level, base: 0 }),
            table,
            level,
            0,
        ),
{
    let places = Map::<int, Place>::empty().insert(table, Place { level, base: 0 });
    assert(0u64 & 3 != 3 && 0u64 & 3 != 1) by (bit_vector);
    assert forall|t: int| #[trigger] places.contains_key(t) implies tree_table(
        memory,
        pool,
        places,
        t,
    ) by {
        assert(t == table);
        assert forall|i: int| 0 <= i < TABLE_ENTRIES implies #[trigger] tree_entry(
            memory,
            places,
            t,
            i,
        ) by {
            assert(memory.entry(table, i) == 0);
        }
    }
}

/// A stretch that fits an entry of a level-2 table, and is all that is left
/// to map, becomes one block: the entry is written, no frame is taken from
/// the pool, and no table below is touched.
pub proof fn lemma_fitting_stretch_becomes_a_block(
    state: MapState,
    request: MapRequest,
    table: int,
    table_len: int,
    index: int,
)
    requires
        block_fits(request, state.cursor, 2),
        state.cursor.remaining_pages == TABLE_ENTRIES,
        0 <= index < table_len,
    ensures
        map_entries(state, request, table, 2, table_len, index).ok,
        map_entries(state, request, table, 2, table_len, index).state.pool == state.pool,
        map_entries(state, request, table, 2, table_len, index).state.memory
            == state.memory.write_entry(
            table,
            index,
            state.cursor.physical_address | request.attributes(true),
        ),
        map_entries(state, request, table, 2, table_len, index).state.cursor.remaining_pages == 0,
{
    let written = MapState {
        memory: state.memory.write_entry(
            table,
            index,
            state.cursor.physical_address | request.attributes(true),
        ),
        pool: state.pool,
        cursor: state.cursor.advanced(entry_span(2) as int / PAGE_SIZE as int, false),
    };
    assert(written.cursor.remaining_pages == 0);
    assert(map_entries(written, request, table, 2, table_len, index + 1) == (MapOutcome {
        state: written,
        ok: true,
    }));
}

/// The contiguous bit of a page descriptor that a descent writes is set
/// where, and only where, pages are mapped at stage 2 to frames of their
/// own, the entry is the first of an aligned group of sixteen, and the run
/// goes on for sixteen entries from there.
pub proof fn lemma_contiguous_marks_whole_groups(
    request: MapRequest,
    start: MapCursor,
    first: int,
    end: int,
    i: int,
)
    requires
        first <= i < end,
        start.physical_address % PAGE_SIZE == 0,
        request.holds_output() || start.physical_address + (i - first) * PAGE_SIZE
            < PHYSICAL_ADDRESS_LIMIT,
        request.holds_output() ==> start.physical_address < PHYSICAL_ADDRESS_LIMIT,
    ensures
        leaf_entry(request, start, first, end, i) & PAGE_DESCRIPTORS_CONTIGUOUS != 0 <==> (
        request.stage_2 && !request.is_dummy_page && i % 16 == 0 && end - i >= 16),
{
    crate::tree::lemma_attribute_parts(request);
    let attributes = request.attributes(false);
    let high: u64 = if crate::descriptor::allows_execute(request.permission) {
        0
    } else {
        0x0040_0000_0000_0000
    };
    let low: u64 = (attributes - high) as u64;
    let output: u64 = if request.holds_output() {
        start.physical_address
    } else {
        (start.physical_address + (i - first) * PAGE_SIZE) as u64
    };
    assert((output | attributes) & 0x0010_0000_0000_0000u64 == 0 && ((output | attributes)
        | 0x0010_0000_0000_0000u64) & 0x0010_0000_0000_0000u64 != 0) by (bit_vector)
        requires
            output < 0x1_0000_0000_0000,
            high == 0 || high == 0x0040_0000_0000_0000,
            low < 0x1000,
            attributes == high + low,
    ;
}

} // verus!
