//! Trees of translation tables as a whole: which frames are tables, at which
//! level, and what a walk finds in them while tables are written.
//!
//! The tables of a machine are described by a map that gives each table's
//! address its level. Such a map describes a forest where every table lies
//! in memory and outside the free frames of the pool, and every table
//! descriptor in a table of the map leads to a table of the map one level
//! down.

use vstd::prelude::*;
use crate::descriptor::{is_block, is_table_or_page, output_address, PAGE_DESCRIPTORS_CONTIGUOUS};
use crate::mapping::{table_index, MapRequest};
use crate::memory::{FramePool, MemoryView, PAGE_SIZE, PHYSICAL_ADDRESS_LIMIT, TABLE_ENTRIES};
use crate::walk::{walk, Leaf};

verus! {

/// Whether `levels` has the table at `table`, at `level`.
pub open spec fn table_known(levels: Map<int, int>, table: int, level: int) -> bool {
    levels.contains_key(table) && levels[table] == level
}

/// Whether the frame at `table` lies outside the free frames of `pool`.
pub open spec fn outside_pool(pool: FramePool, table: int) -> bool {
    table + PAGE_SIZE <= pool.next || pool.end() <= table
}

/// Whether every table descriptor in the table at `table` leads to a table
/// of `levels`, one level down.
pub open spec fn links_known(memory: MemoryView, levels: Map<int, int>, table: int) -> bool {
    forall|i: int|
        0 <= i < TABLE_ENTRIES && is_table_or_page(#[trigger] memory.entry(table, i))
            ==> table_known(
            levels,
            output_address(memory.entry(table, i), PAGE_SIZE) as int,
            levels[table] + 1,
        )
}

/// Whether the table at `table` is as a table of a forest must be: at a
/// multiple of the page size, in memory, outside the free frames, at level 3
/// or above it, and with known links where it is above level 3.
pub open spec fn forest_table(
    memory: MemoryView,
    pool: FramePool,
    levels: Map<int, int>,
    table: int,
) -> bool {
    &&& 0 <= table
    &&& table % (PAGE_SIZE as int) == 0
    &&& memory.holds(table, TABLE_ENTRIES as int)
    &&& outside_pool(pool, table)
    &&& levels[table] <= 3
    &&& (levels[table] < 3 ==> links_known(memory, levels, table))
}

/// Whether `levels` describes a forest of tables in `memory`.
pub open spec fn forest(memory: MemoryView, pool: FramePool, levels: Map<int, int>) -> bool {
    forall|table: int| #[trigger]
        levels.contains_key(table) ==> forest_table(memory, pool, levels, table)
}

/// Whether `later` has every table of `levels`, at the same level.
pub open spec fn grows(levels: Map<int, int>, later: Map<int, int>) -> bool {
    forall|table: int| #[trigger]
        levels.contains_key(table) ==> later.contains_key(table) && later[table] == levels[table]
}

/// Whether the `pages` page-sized tables that lie from `table` on are all
/// tables of `levels`, at `level`.
pub open spec fn pages_known(levels: Map<int, int>, table: int, level: int, pages: int) -> bool {
    forall|k: int| 0 <= k < pages ==> #[trigger] table_known(levels, table + k * PAGE_SIZE, level)
}

/// Whether an entry of a table at `level` may go from `before` to `after`
/// while pages are mapped to the frame of `leaf`: a page descriptor may
/// become `leaf` or lose its contiguous bit; above the pages, only an entry
/// that is no table descriptor may change.
pub open spec fn settled_entry(before: u64, after: u64, level: int, leaf: u64) -> bool {
    if level >= 3 {
        after == before || after == leaf || after == before & !PAGE_DESCRIPTORS_CONTIGUOUS
    } else {
        after == before || !is_table_or_page(before)
    }
}

/// Whether the tables of `levels` went from `before` to `after` by changes
/// that `settled_entry` allows.
pub open spec fn settles(
    before: MemoryView,
    after: MemoryView,
    levels: Map<int, int>,
    leaf: u64,
) -> bool {
    &&& after.same_extent(before)
    &&& forall|table: int, i: int|
        levels.contains_key(table) && 0 <= i < TABLE_ENTRIES ==> settled_entry(
            before.entry(table, i),
            #[trigger] after.entry(table, i),
            levels[table],
            leaf,
        )
}

/// Whether the tables of `levels` above `level` are the same in `before`
/// and `after`.
pub open spec fn kept_above(
    before: MemoryView,
    after: MemoryView,
    levels: Map<int, int>,
    level: int,
) -> bool {
    forall|table: int, i: int|
        levels.contains_key(table) && levels[table] < level && 0 <= i < TABLE_ENTRIES
            ==> #[trigger] after.entry(table, i) == before.entry(table, i)
}

/// Whether `leaf` is a page descriptor without the contiguous bit.
pub open spec fn plain_page(leaf: u64) -> bool {
    &&& is_table_or_page(leaf)
    &&& !is_block(leaf)
    &&& leaf & !PAGE_DESCRIPTORS_CONTIGUOUS == leaf
}

/// The page descriptor that maps a page to the frame at `frame` for a
/// request that maps every page to one frame.
pub open spec fn dummy_leaf(request: MapRequest, frame: u64) -> u64 {
    frame | request.attributes(false)
}

/// The page descriptor of a dummy page is a page descriptor without the
/// contiguous bit, and leads to the frame.
pub proof fn lemma_dummy_leaf(request: MapRequest, frame: u64)
    requires
        request.holds_output(),
        frame % PAGE_SIZE == 0,
        frame < PHYSICAL_ADDRESS_LIMIT,
    ensures
        plain_page(dummy_leaf(request, frame)),
        output_address(dummy_leaf(request, frame), PAGE_SIZE) == frame,
{
    let attributes = request.attributes(false);
    let high: u64 = if crate::descriptor::allows_execute(request.permission) {
        0
    } else {
        0x0040_0000_0000_0000
    };
    let low: u64 = (attributes - high) as u64;
    assert(low < 0x1000 && low % 4 == 3);
    assert(attributes == high + low);
    assert((PAGE_SIZE - 1) as u64 == 0xfffu64);
    assert({
        let leaf = frame | attributes;
        &&& leaf & 3 == 3
        &&& leaf & 3 != 1
        &&& leaf & !0x0010_0000_0000_0000u64 == leaf
        &&& leaf & (0x0003_ffff_ffff_ffffu64 & !0xfffu64) == frame
    }) by (bit_vector)
        requires
            frame % 0x1000 == 0,
            frame < 0x1_0000_0000_0000,
            high == 0 || high == 0x0040_0000_0000_0000,
            low < 0x1000,
            low % 4 == 3,
            attributes == high + low,
    ;
}

/// Clearing the contiguous bit keeps what kind of descriptor it is and
/// where it leads; clearing it twice is clearing it once.
pub proof fn lemma_contiguous_cleared(descriptor: u64)
    ensures
        is_table_or_page(descriptor & !PAGE_DESCRIPTORS_CONTIGUOUS) == is_table_or_page(descriptor),
        is_block(descriptor & !PAGE_DESCRIPTORS_CONTIGUOUS) == is_block(descriptor),
        (descriptor & !PAGE_DESCRIPTORS_CONTIGUOUS) & !PAGE_DESCRIPTORS_CONTIGUOUS == descriptor
            & !PAGE_DESCRIPTORS_CONTIGUOUS,
        output_address(descriptor & !PAGE_DESCRIPTORS_CONTIGUOUS, PAGE_SIZE) == output_address(
            descriptor,
            PAGE_SIZE,
        ),
{
    assert((PAGE_SIZE - 1) as u64 == 0xfffu64);
    assert({
        let cleared = descriptor & !0x0010_0000_0000_0000u64;
        &&& cleared & 3 == descriptor & 3
        &&& cleared & !0x0010_0000_0000_0000u64 == cleared
        &&& cleared & (0x0003_ffff_ffff_ffffu64 & !0xfffu64) == descriptor & (
        0x0003_ffff_ffff_ffffu64 & !0xfffu64)
    }) by (bit_vector);
}

/// A walk that ends in `leaf` still ends in `leaf` after changes that
/// `settled_entry` allows.
pub proof fn lemma_leaf_stays(
    before: MemoryView,
    after: MemoryView,
    pool: FramePool,
    levels: Map<int, int>,
    leaf: u64,
    table: int,
    level: int,
    address: u64,
)
    requires
        forest(before, pool, levels),
        settles(before, after, levels, leaf),
        table_known(levels, table, level),
        plain_page(leaf),
        walk(before, table, level, TABLE_ENTRIES as int, address) == Some(
            Leaf { level: 3, descriptor: leaf },
        ),
    ensures
        walk(after, table, level, TABLE_ENTRIES as int, address) == Some(
            Leaf { level: 3, descriptor: leaf },
        ),
    decreases 3 - level,
{
    let index = table_index(address, level, TABLE_ENTRIES as int);
    assert(0 <= index < TABLE_ENTRIES);
    assert(forest_table(before, pool, levels, table));
    let old_entry = before.entry(table, index);
    let new_entry = after.entry(table, index);
    assert(settled_entry(old_entry, new_entry, level, leaf));
    if level >= 3 {
    } else {
        assert(is_table_or_page(old_entry));
        let next = output_address(old_entry, PAGE_SIZE) as int;
        assert(table_known(levels, next, level + 1));
        lemma_leaf_stays(before, after, pool, levels, leaf, next, level + 1, address);
    }
}

/// Changes that `settled_entry` allows, one after the other, are changes
/// that it allows.
pub proof fn lemma_settles_twice(
    first: MemoryView,
    second: MemoryView,
    third: MemoryView,
    levels: Map<int, int>,
    later: Map<int, int>,
    leaf: u64,
)
    requires
        settles(first, second, levels, leaf),
        settles(second, third, later, leaf),
        grows(levels, later),
        plain_page(leaf),
    ensures
        settles(first, third, levels, leaf),
{
    assert forall|table: int, i: int|
        levels.contains_key(table) && 0 <= i < TABLE_ENTRIES implies settled_entry(
        first.entry(table, i),
        #[trigger] third.entry(table, i),
        levels[table],
        leaf,
    ) by {
        let a = first.entry(table, i);
        let b = second.entry(table, i);
        let c = third.entry(table, i);
        assert(settled_entry(a, b, levels[table], leaf));
        assert(later.contains_key(table));
        assert(settled_entry(b, c, later[table], leaf));
        lemma_contiguous_cleared(a);
    }
}

} // verus!
