//! What copying a tree of tables leaves: a tree with the same leaves, in
//! frames of its own.

use vstd::prelude::*;
use crate::copy::{copy_entries, copy_page_table_result, copy_table, repointed, table_run};
use crate::descriptor::{entry_span, is_block, is_table_or_page, output_address};
use crate::forest::{forest, forest_table, grows, table_known};
use crate::map_law::{lemma_map_write, same_places};
use crate::mapping::table_index;
use crate::memory::{FramePool, MemoryView, PAGE_SIZE, PHYSICAL_ADDRESS_LIMIT, TABLE_ENTRIES};
use crate::paging::MachineView;
use crate::registers::{initial_level, ttbr_base_address};
use crate::table_laws::{
    lemma_entry_beside_write, lemma_entry_inside_run, lemma_entry_outside_run, lemma_entry_written,
};
use crate::tree::{
    extends, lemma_multiples_apart, pages_placed, place_known, reach, tree, tree_entry, tree_table,
    Place,
};
use crate::walk::walk;

verus! {

/// A descriptor's bits apart from the address of a table.
pub open spec fn beside_table_address(descriptor: u64) -> u64 {
    descriptor ^ output_address(descriptor, PAGE_SIZE)
}

/// Whether the table at `clone` in `copied` is a copy of the tree below the
/// table at `source` in `memory`, both at `level`: every entry is the same,
/// but that above level 3 a table descriptor differs in the address of its
/// table, which is a copy of the table that the source leads to.
pub open spec fn is_copy(
    memory: MemoryView,
    source: int,
    copied: MemoryView,
    clone: int,
    level: int,
) -> bool
    decreases 3 - level,
{
    forall|i: int|
        0 <= i < TABLE_ENTRIES ==> {
            let given = memory.entry(source, i);
            let copy = #[trigger] copied.entry(clone, i);
            if level < 3 && is_table_or_page(given) {
                &&& is_table_or_page(copy)
                &&& beside_table_address(copy) == beside_table_address(given)
                &&& is_copy(
                    memory,
                    output_address(given, PAGE_SIZE) as int,
                    copied,
                    output_address(copy, PAGE_SIZE) as int,
                    level + 1,
                )
            } else {
                copy == given
            }
        }
}

/// Whether entry `i` of the table at `clone` is a copy of entry `i` of the
/// table at `source`.
pub open spec fn entry_is_copy(
    memory: MemoryView,
    source: int,
    copied: MemoryView,
    clone: int,
    level: int,
    i: int,
) -> bool {
    let given = memory.entry(source, i);
    let copy = copied.entry(clone, i);
    if level < 3 && is_table_or_page(given) {
        &&& is_table_or_page(copy)
        &&& beside_table_address(copy) == beside_table_address(given)
        &&& is_copy(
            memory,
            output_address(given, PAGE_SIZE) as int,
            copied,
            output_address(copy, PAGE_SIZE) as int,
            level + 1,
        )
    } else {
        copy == given
    }
}

/// A table is a copy where each of its entries is.
pub proof fn lemma_copy_by_entries(
    memory: MemoryView,
    source: int,
    copied: MemoryView,
    clone: int,
    level: int,
)
    ensures
        is_copy(memory, source, copied, clone, level) <==> forall|i: int|
            0 <= i < TABLE_ENTRIES ==> #[trigger] entry_is_copy(
                memory,
                source,
                copied,
                clone,
                level,
                i,
            ),
{
    if is_copy(memory, source, copied, clone, level) {
        assert forall|i: int| 0 <= i < TABLE_ENTRIES implies #[trigger] entry_is_copy(
            memory,
            source,
            copied,
            clone,
            level,
            i,
        ) by {
            let copy = copied.entry(clone, i);
        }
    }
    if forall|i: int|
        0 <= i < TABLE_ENTRIES ==> #[trigger] entry_is_copy(memory, source, copied, clone, level, i) {
        assert forall|i: int| 0 <= i < TABLE_ENTRIES implies {
            let given = memory.entry(source, i);
            let copy = #[trigger] copied.entry(clone, i);
            if level < 3 && is_table_or_page(given) {
                &&& is_table_or_page(copy)
                &&& beside_table_address(copy) == beside_table_address(given)
                &&& is_copy(
                    memory,
                    output_address(given, PAGE_SIZE) as int,
                    copied,
                    output_address(copy, PAGE_SIZE) as int,
                    level + 1,
                )
            } else {
                copy == given
            }
        } by {
            assert(entry_is_copy(memory, source, copied, clone, level, i));
        }
    }
}

/// Whether the tables of `levels` at `level` and below it are the same in
/// both memories.
pub open spec fn same_below(
    before: MemoryView,
    after: MemoryView,
    levels: Map<int, int>,
    level: int,
) -> bool {
    forall|table: int, i: int|
        levels.contains_key(table) && levels[table] >= level && 0 <= i < TABLE_ENTRIES
            ==> #[trigger] after.entry(table, i) == before.entry(table, i)
}

/// Whether the tables of `levels` are the same in both memories.
pub open spec fn same_tables(before: MemoryView, after: MemoryView, levels: Map<int, int>) -> bool {
    forall|table: int, i: int|
        levels.contains_key(table) && 0 <= i < TABLE_ENTRIES ==> #[trigger] after.entry(table, i)
            == before.entry(table, i)
}

/// A table descriptor pointed to another table is a table descriptor, leads
/// to that table, and has the other bits of the descriptor that it was made
/// of.
pub proof fn lemma_repointed(descriptor: u64, table: u64)
    requires
        is_table_or_page(descriptor),
        table % PAGE_SIZE == 0,
        table < PHYSICAL_ADDRESS_LIMIT,
    ensures
        is_table_or_page(repointed(descriptor, table)),
        !is_block(repointed(descriptor, table)),
        output_address(repointed(descriptor, table), PAGE_SIZE) == table,
        beside_table_address(repointed(descriptor, table)) == beside_table_address(descriptor),
{
    assert((PAGE_SIZE - 1) as u64 == 0xfffu64);
    assert({
        let mask = 0x0003_ffff_ffff_ffffu64 & !0xfffu64;
        let moved = (descriptor & !(descriptor & mask)) | table;
        &&& moved & 3 == 3
        &&& moved & 3 != 1
        &&& moved & mask == table
        &&& moved ^ (moved & mask) == descriptor ^ (descriptor & mask)
    }) by (bit_vector)
        requires
            descriptor & 3 == 3,
            table % 0x1000 == 0,
            table < 0x1_0000_0000_0000,
    ;
}

/// A copy stays a copy while the tables of both trees stay as they are.
pub proof fn lemma_copy_moves(
    memory: MemoryView,
    memory_after: MemoryView,
    copied: MemoryView,
    copied_after: MemoryView,
    source: int,
    clone: int,
    level: int,
    source_pool: FramePool,
    source_levels: Map<int, int>,
    clone_pool: FramePool,
    clone_levels: Map<int, int>,
)
    requires
        is_copy(memory, source, copied, clone, level),
        forest(memory, source_pool, source_levels),
        table_known(source_levels, source, level),
        same_below(memory, memory_after, source_levels, level),
        forest(copied, clone_pool, clone_levels),
        table_known(clone_levels, clone, level),
        same_below(copied, copied_after, clone_levels, level),
    ensures
        is_copy(memory_after, source, copied_after, clone, level),
    decreases 3 - level,
{
    lemma_copy_by_entries(memory, source, copied, clone, level);
    lemma_copy_by_entries(memory_after, source, copied_after, clone, level);
    assert forall|i: int| 0 <= i < TABLE_ENTRIES implies #[trigger] entry_is_copy(
        memory_after,
        source,
        copied_after,
        clone,
        level,
        i,
    ) by {
        assert(entry_is_copy(memory, source, copied, clone, level, i));
        assert(forest_table(memory, source_pool, source_levels, source));
        assert(forest_table(copied, clone_pool, clone_levels, clone));
        let given = memory.entry(source, i);
        let copy = copied.entry(clone, i);
        assert(memory_after.entry(source, i) == given);
        assert(copied_after.entry(clone, i) == copy);
        if level < 3 && is_table_or_page(given) {
            lemma_copy_moves(
                memory,
                memory_after,
                copied,
                copied_after,
                output_address(given, PAGE_SIZE) as int,
                output_address(copy, PAGE_SIZE) as int,
                level + 1,
                source_pool,
                source_levels,
                clone_pool,
                clone_levels,
            );
        }
    }
}

/// A walk of a copy finds what the walk of the tree finds that it is a
/// copy of.
pub proof fn lemma_copy_walks_alike(
    memory: MemoryView,
    copied: MemoryView,
    source: int,
    clone: int,
    level: int,
    source_pool: FramePool,
    source_levels: Map<int, int>,
    clone_pool: FramePool,
    clone_levels: Map<int, int>,
    address: u64,
)
    requires
        is_copy(memory, source, copied, clone, level),
        forest(memory, source_pool, source_levels),
        table_known(source_levels, source, level),
        forest(copied, clone_pool, clone_levels),
        table_known(clone_levels, clone, level),
    ensures
        walk(copied, clone, level, TABLE_ENTRIES as int, address) == walk(
            memory,
            source,
            level,
            TABLE_ENTRIES as int,
            address,
        ),
    decreases 3 - level,
{
    let i = table_index(address, level, TABLE_ENTRIES as int);
    assert(0 <= i < TABLE_ENTRIES);
    lemma_copy_by_entries(memory, source, copied, clone, level);
    assert(entry_is_copy(memory, source, copied, clone, level, i));
    assert(forest_table(memory, source_pool, source_levels, source));
    assert(forest_table(copied, clone_pool, clone_levels, clone));
    let given = memory.entry(source, i);
    let copy = copied.entry(clone, i);
    if level < 3 && is_table_or_page(given) {
        assert(given & 3 == 3 ==> given & 3 != 1) by (bit_vector);
        assert(copy & 3 == 3 ==> copy & 3 != 1) by (bit_vector);
        lemma_copy_walks_alike(
            memory,
            copied,
            output_address(given, PAGE_SIZE) as int,
            output_address(copy, PAGE_SIZE) as int,
            level + 1,
            source_pool,
            source_levels,
            clone_pool,
            clone_levels,
            address,
        );
    }
}

/// Whether a pool can give the frames for copies of tables: it is well
/// formed and its next frame lies at a multiple of the page size.
pub open spec fn pool_ready(pool: FramePool) -> bool {
    pool.well_formed() && pool.next % PAGE_SIZE == 0
}

/// Whether the copy at `clone` of the table at `table` is done up to entry
/// `index`: the entries before it are copies, the entries from it on are
/// still what the table has.
pub open spec fn copied_up_to(
    memory: MemoryView,
    table: int,
    clone: int,
    level: int,
    index: int,
) -> bool {
    &&& forall|j: int|
        0 <= j < index ==> #[trigger] entry_is_copy(memory, table, memory, clone, level, j)
    &&& forall|j: int|
        index <= j < TABLE_ENTRIES ==> #[trigger] memory.entry(clone, j) == memory.entry(table, j)
}

/// What pointing entry `index` of a copy to the copy of its table leaves.
#[verifier::rlimit(40)]
pub proof fn lemma_copy_link(
    memory: MemoryView,
    pool: FramePool,
    levels: Map<int, int>,
    below: MemoryView,
    below_pool: FramePool,
    later: Map<int, int>,
    table: int,
    clone: int,
    level: int,
    index: int,
    copy: u64,
)
    requires
        forest(memory, pool, levels),
        table_known(levels, table, level),
        table_known(levels, clone, level),
        clone != table,
        level < 3,
        0 <= index < TABLE_ENTRIES,
        copied_up_to(memory, table, clone, level, index),
        is_table_or_page(memory.entry(clone, index)),
        grows(levels, later),
        forest(below, below_pool, later),
        below.same_extent(memory),
        same_tables(memory, below, levels),
        copy % PAGE_SIZE == 0,
        copy < PHYSICAL_ADDRESS_LIMIT,
        table_known(later, copy as int, level + 1),
        is_copy(
            below,
            output_address(memory.entry(clone, index), PAGE_SIZE) as int,
            below,
            copy as int,
            level + 1,
        ),
    ensures
        ({
            let linked = below.write_entry(
                clone,
                index,
                repointed(memory.entry(clone, index), copy),
            );
            &&& forest(linked, below_pool, later)
            &&& linked.same_extent(memory)
            &&& copied_up_to(linked, table, clone, level, index + 1)
            &&& forall|t: int, i: int|
                levels.contains_key(t) && t != clone && 0 <= i < TABLE_ENTRIES
                    ==> #[trigger] linked.entry(t, i) == memory.entry(t, i)
        }),
{
    let descriptor = memory.entry(clone, index);
    let link = repointed(descriptor, copy);
    let linked = below.write_entry(clone, index, link);
    let source = output_address(descriptor, PAGE_SIZE) as int;
    assert(forest_table(memory, pool, levels, clone));
    assert(forest_table(memory, pool, levels, table));
    assert(descriptor == memory.entry(table, index));
    assert(table_known(levels, source, level + 1));
    lemma_repointed(descriptor, copy);
    assert(forest_table(below, below_pool, later, clone));
    lemma_entry_written(below, clone, index, link);
    assert forall|t: int, i: int|
        later.contains_key(t) && 0 <= i < TABLE_ENTRIES && !(t == clone && i
            == index) implies #[trigger] linked.entry(t, i) == below.entry(t, i) by {
        assert(forest_table(below, below_pool, later, t));
        lemma_entry_beside_write(below, clone, index, link, t, i);
    }
    assert forall|t: int| #[trigger] later.contains_key(t) implies forest_table(
        linked,
        below_pool,
        later,
        t,
    ) by {
        assert(forest_table(below, below_pool, later, t));
        if later[t] < 3 {
            assert forall|i: int|
                0 <= i < TABLE_ENTRIES && is_table_or_page(
                    #[trigger] linked.entry(t, i),
                ) implies table_known(
                later,
                output_address(linked.entry(t, i), PAGE_SIZE) as int,
                later[t] + 1,
            ) by {
                if !(t == clone && i == index) {
                    assert(linked.entry(t, i) == below.entry(t, i));
                }
            }
        }
    }
    assert(same_below(memory, linked, levels, level + 1)) by {
        assert forall|t: int, i: int|
            levels.contains_key(t) && levels[t] >= level + 1 && 0 <= i
                < TABLE_ENTRIES implies #[trigger] linked.entry(t, i) == memory.entry(t, i) by {
            assert(below.entry(t, i) == memory.entry(t, i));
            assert(linked.entry(t, i) == below.entry(t, i));
        }
    }
    assert(same_below(below, linked, later, level + 1)) by {
        assert forall|t: int, i: int|
            later.contains_key(t) && later[t] >= level + 1 && 0 <= i
                < TABLE_ENTRIES implies #[trigger] linked.entry(t, i) == below.entry(t, i) by {}
    }
    assert forall|j: int| 0 <= j < index + 1 implies #[trigger] entry_is_copy(
        linked,
        table,
        linked,
        clone,
        level,
        j,
    ) by {
        assert(below.entry(table, j) == memory.entry(table, j));
        assert(linked.entry(table, j) == below.entry(table, j));
        if j < index {
            assert(entry_is_copy(memory, table, memory, clone, level, j));
            let given = memory.entry(table, j);
            let copied = memory.entry(clone, j);
            assert(below.entry(clone, j) == copied);
            assert(linked.entry(clone, j) == below.entry(clone, j));
            if is_table_or_page(given) {
                lemma_copy_moves(
                    memory,
                    linked,
                    memory,
                    linked,
                    output_address(given, PAGE_SIZE) as int,
                    output_address(copied, PAGE_SIZE) as int,
                    level + 1,
                    pool,
                    levels,
                    pool,
                    levels,
                );
            }
        } else {
            lemma_copy_moves(
                below,
                linked,
                below,
                linked,
                source,
                copy as int,
                level + 1,
                below_pool,
                later,
                below_pool,
                later,
            );
        }
    }
    assert forall|j: int| index + 1 <= j < TABLE_ENTRIES implies #[trigger] linked.entry(clone, j)
        == linked.entry(table, j) by {
        assert(memory.entry(clone, j) == memory.entry(table, j));
        assert(below.entry(clone, j) == memory.entry(clone, j));
        assert(below.entry(table, j) == memory.entry(table, j));
        assert(linked.entry(clone, j) == below.entry(clone, j));
        assert(linked.entry(table, j) == below.entry(table, j));
    }
}

/// What pointing the table descriptors of a copy to copies of their tables
/// leaves, from entry `index` on.
#[verifier::rlimit(40)]
pub proof fn lemma_copy_entries(
    memory: MemoryView,
    pool: FramePool,
    levels: Map<int, int>,
    table: int,
    clone: u64,
    level: int,
    index: int,
) -> (later: Map<int, int>)
    requires
        forest(memory, pool, levels),
        pool_ready(pool),
        table_known(levels, table, level),
        table_known(levels, clone as int, level),
        clone != table,
        level < 3,
        0 <= index <= TABLE_ENTRIES,
        copied_up_to(memory, table, clone as int, level, index),
        copy_entries(memory, pool, clone, level, index).table is Some,
    ensures
        ({
            let out = copy_entries(memory, pool, clone, level, index);
            &&& grows(levels, later)
            &&& forest(out.memory, out.pool, later)
            &&& pool_ready(out.pool)
            &&& out.memory.same_extent(memory)
            &&& forall|t: int, i: int|
                levels.contains_key(t) && t != clone && 0 <= i < TABLE_ENTRIES
                    ==> #[trigger] out.memory.entry(t, i) == memory.entry(t, i)
            &&& out.table == Some(clone)
            &&& is_copy(out.memory, table, out.memory, clone as int, level)
        }),
    decreases 3 - level, TABLE_ENTRIES - index, 0int,
{
    if index >= TABLE_ENTRIES {
        lemma_copy_by_entries(memory, table, memory, clone as int, level);
        levels
    } else {
        assert(forest_table(memory, pool, levels, clone as int));
        let descriptor = memory.entry(clone as int, index);
        if is_table_or_page(descriptor) {
            let source = output_address(descriptor, PAGE_SIZE) as int;
            assert(table_known(levels, source, level + 1));
            let below = copy_table(memory, pool, source, level + 1);
            let levels1 = lemma_copy_table(memory, pool, levels, source, level + 1);
            let copy = below.table->0;
            lemma_copy_link(
                memory,
                pool,
                levels,
                below.memory,
                below.pool,
                levels1,
                table,
                clone as int,
                level,
                index,
                copy,
            );
            let linked = below.memory.write_entry(clone as int, index, repointed(descriptor, copy));
            let levels2 = lemma_copy_entries(
                linked,
                below.pool,
                levels1,
                table,
                clone,
                level,
                index + 1,
            );
            levels2
        } else {
            assert(memory.entry(table, index) == descriptor);
            assert(entry_is_copy(memory, table, memory, clone as int, level, index));
            lemma_copy_entries(memory, pool, levels, table, clone, level, index + 1)
        }
    }
}

/// What copying the tree below a known table leaves: the tables that were
/// known are untouched, and the new tree is a copy in frames from the pool.
#[verifier::rlimit(40)]
pub proof fn lemma_copy_table(
    memory: MemoryView,
    pool: FramePool,
    levels: Map<int, int>,
    table: int,
    level: int,
) -> (later: Map<int, int>)
    requires
        forest(memory, pool, levels),
        pool_ready(pool),
        table_known(levels, table, level),
        level <= 3,
        copy_table(memory, pool, table, level).table is Some,
    ensures
        ({
            let out = copy_table(memory, pool, table, level);
            &&& grows(levels, later)
            &&& forest(out.memory, out.pool, later)
            &&& pool_ready(out.pool)
            &&& out.memory.same_extent(memory)
            &&& same_tables(memory, out.memory, levels)
            &&& out.table == Some(pool.next)
            &&& !levels.contains_key(pool.next as int)
            &&& table_known(later, pool.next as int, level)
            &&& is_copy(out.memory, table, out.memory, pool.next as int, level)
        }),
    decreases 3 - level, TABLE_ENTRIES + 1, 0int,
{
    let clone = pool.next;
    let taken = pool.after(1);
    let run = table_run(memory, table, TABLE_ENTRIES as int);
    let copied = memory.write_run(clone as int, 0, run);
    let levels1 = levels.insert(clone as int, level);
    assert(forest_table(memory, pool, levels, table));
    assert forall|t: int| levels.contains_key(t) implies t != clone && (t + PAGE_SIZE <= clone
        || clone + PAGE_SIZE <= t) by {
        assert(forest_table(memory, pool, levels, t));
    }
    assert forall|t: int, i: int|
        levels.contains_key(t) && 0 <= i < TABLE_ENTRIES implies #[trigger] copied.entry(t, i)
        == memory.entry(t, i) by {
        assert(forest_table(memory, pool, levels, t));
        lemma_entry_outside_run(memory, clone as int, run, t, i);
    }
    assert forall|i: int| 0 <= i < TABLE_ENTRIES implies #[trigger] copied.entry(clone as int, i)
        == memory.entry(table, i) by {
        lemma_entry_inside_run(memory, clone as int, run, i);
    }
    assert forall|t: int| #[trigger] levels1.contains_key(t) implies forest_table(
        copied,
        taken,
        levels1,
        t,
    ) by {
        if t == clone {
            if level < 3 {
                assert forall|i: int|
                    0 <= i < TABLE_ENTRIES && is_table_or_page(
                        #[trigger] copied.entry(t, i),
                    ) implies table_known(
                    levels1,
                    output_address(copied.entry(t, i), PAGE_SIZE) as int,
                    levels1[t] + 1,
                ) by {
                    assert(copied.entry(clone as int, i) == memory.entry(table, i));
                }
            }
        } else {
            assert(forest_table(memory, pool, levels, t));
            if levels[t] < 3 {
                assert forall|i: int|
                    0 <= i < TABLE_ENTRIES && is_table_or_page(
                        #[trigger] copied.entry(t, i),
                    ) implies table_known(
                    levels1,
                    output_address(copied.entry(t, i), PAGE_SIZE) as int,
                    levels1[t] + 1,
                ) by {
                    assert(copied.entry(t, i) == memory.entry(t, i));
                }
            }
        }
    }
    if level >= 3 {
        lemma_copy_by_entries(copied, table, copied, clone as int, level);
        assert forall|i: int| 0 <= i < TABLE_ENTRIES implies #[trigger] entry_is_copy(
            copied,
            table,
            copied,
            clone as int,
            level,
            i,
        ) by {
            assert(copied.entry(clone as int, i) == memory.entry(table, i));
        }
        levels1
    } else {
        assert forall|j: int| 0 <= j < TABLE_ENTRIES implies #[trigger] copied.entry(
            clone as int,
            j,
        ) == copied.entry(table, j) by {
            assert(copied.entry(clone as int, j) == memory.entry(table, j));
        }
        let levels2 = lemma_copy_entries(copied, taken, levels1, table, clone, level, 0);
        assert(levels1.contains_key(clone as int));
        assert forall|t: int| #[trigger] levels.contains_key(t) implies levels2.contains_key(t)
            && levels2[t] == levels[t] by {
            assert(levels1.contains_key(t));
        }
        levels2
    }
}

/// The copy that `copy_page_table` makes is a copy of the tree of
/// `TTBR0_EL2`: every leaf is the same, a table descriptor differs only in
/// the address of its table, a walk of the copy finds what a walk of the
/// tree finds that was copied, and that tree is as it was.
///
/// This is stated of stage-1 tables that form a forest, and of a pool whose
/// next frame lies at a multiple of the page size.
pub proof fn lemma_copy_is_equivalent(machine: MachineView, levels: Map<int, int>) -> (later: Map<
    int,
    int,
>)
    requires
        forest(machine.memory, machine.allocator, levels),
        pool_ready(machine.allocator),
        table_known(
            levels,
            ttbr_base_address(machine.registers.ttbr0_el2) as int,
            initial_level(machine.registers.tcr_el2),
        ),
        copy_page_table_result(machine).table is Some,
    ensures
        ({
            let out = copy_page_table_result(machine);
            let root = ttbr_base_address(machine.registers.ttbr0_el2) as int;
            let level = initial_level(machine.registers.tcr_el2);
            &&& grows(levels, later)
            &&& forest(out.memory, out.pool, later)
            &&& forest(out.memory, out.pool, levels)
            &&& !levels.contains_key(out.table->0 as int)
            &&& table_known(later, out.table->0 as int, level)
            &&& same_tables(machine.memory, out.memory, levels)
            &&& is_copy(machine.memory, root, out.memory, out.table->0 as int, level)
            &&& forall|address: u64| #[trigger]
                walk(out.memory, out.table->0 as int, level, TABLE_ENTRIES as int, address) == walk(
                    machine.memory,
                    root,
                    level,
                    TABLE_ENTRIES as int,
                    address,
                )
            &&& forall|address: u64| #[trigger]
                walk(out.memory, root, level, TABLE_ENTRIES as int, address) == walk(
                    machine.memory,
                    root,
                    level,
                    TABLE_ENTRIES as int,
                    address,
                )
        }),
{
    let out = copy_page_table_result(machine);
    let root = ttbr_base_address(machine.registers.ttbr0_el2) as int;
    let level = initial_level(machine.registers.tcr_el2);
    let later = lemma_copy_table(machine.memory, machine.allocator, levels, root, level);
    let clone = out.table->0 as int;
    assert(same_below(out.memory, machine.memory, levels, level));
    assert(same_below(out.memory, out.memory, later, level));
    assert(forest(out.memory, out.pool, levels)) by {
        assert forall|t: int| #[trigger] levels.contains_key(t) implies forest_table(
            out.memory,
            out.pool,
            levels,
            t,
        ) by {
            assert(forest_table(machine.memory, machine.allocator, levels, t));
            assert(forest_table(out.memory, out.pool, later, t));
            if levels[t] < 3 {
                assert forall|i: int|
                    0 <= i < TABLE_ENTRIES && is_table_or_page(
                        #[trigger] out.memory.entry(t, i),
                    ) implies table_known(
                    levels,
                    output_address(out.memory.entry(t, i), PAGE_SIZE) as int,
                    levels[t] + 1,
                ) by {
                    assert(out.memory.entry(t, i) == machine.memory.entry(t, i));
                }
            }
        }
    }
    lemma_copy_moves(
        out.memory,
        machine.memory,
        out.memory,
        out.memory,
        root,
        clone,
        level,
        out.pool,
        levels,
        out.pool,
        later,
    );
    assert forall|address: u64| #[trigger]
        walk(out.memory, clone, level, TABLE_ENTRIES as int, address) == walk(
            machine.memory,
            root,
            level,
            TABLE_ENTRIES as int,
            address,
        ) by {
        lemma_copy_walks_alike(
            machine.memory,
            out.memory,
            root,
            clone,
            level,
            machine.allocator,
            levels,
            out.pool,
            later,
            address,
        );
    }
    assert forall|address: u64| #[trigger]
        walk(out.memory, root, level, TABLE_ENTRIES as int, address) == walk(
            machine.memory,
            root,
            level,
            TABLE_ENTRIES as int,
            address,
        ) by {
        lemma_same_tables_walk_alike(
            machine.memory,
            out.memory,
            machine.allocator,
            levels,
            root,
            level,
            address,
        );
    }
    later
}

/// A walk of tables that are the same in two memories finds the same in
/// both.
pub proof fn lemma_same_tables_walk_alike(
    memory: MemoryView,
    other: MemoryView,
    pool: FramePool,
    levels: Map<int, int>,
    table: int,
    level: int,
    address: u64,
)
    requires
        forest(memory, pool, levels),
        table_known(levels, table, level),
        other.same_extent(memory),
        same_tables(memory, other, levels),
    ensures
        walk(other, table, level, TABLE_ENTRIES as int, address) == walk(
            memory,
            table,
            level,
            TABLE_ENTRIES as int,
            address,
        ),
    decreases 3 - level,
{
    let i = table_index(address, level, TABLE_ENTRIES as int);
    assert(0 <= i < TABLE_ENTRIES);
    assert(forest_table(memory, pool, levels, table));
    let descriptor = memory.entry(table, i);
    assert(other.entry(table, i) == descriptor);
    if level < 3 && !is_block(descriptor) && is_table_or_page(descriptor) {
        lemma_same_tables_walk_alike(
            memory,
            other,
            pool,
            levels,
            output_address(descriptor, PAGE_SIZE) as int,
            level + 1,
            address,
        );
    }
}

/// Writing to a table that a forest got after a tree of it was walked
/// keeps what the walk finds: where `later` has the tables of `levels` and
/// more, as after a copy, an entry of one of the further tables can be
/// changed without a change to the trees of `levels`.
#[verifier::rlimit(40)]
pub proof fn lemma_writing_the_copy_keeps_the_tree(
    memory: MemoryView,
    pool: FramePool,
    levels: Map<int, int>,
    later: Map<int, int>,
    root: int,
    level: int,
    written: int,
    index: int,
    value: u64,
    address: u64,
)
    requires
        forest(memory, pool, levels),
        forest(memory, pool, later),
        grows(levels, later),
        table_known(levels, root, level),
        later.contains_key(written),
        !levels.contains_key(written),
        0 <= index < TABLE_ENTRIES,
    ensures
        walk(memory.write_entry(written, index, value), root, level, TABLE_ENTRIES as int, address)
            == walk(memory, root, level, TABLE_ENTRIES as int, address),
{
    let after = memory.write_entry(written, index, value);
    assert(forest_table(memory, pool, later, written));
    assert forall|t: int, i: int|
        levels.contains_key(t) && 0 <= i < TABLE_ENTRIES implies #[trigger] after.entry(t, i)
        == memory.entry(t, i) by {
        assert(later.contains_key(t));
        assert(forest_table(memory, pool, later, t));
        if t < written {
            lemma_multiples_apart(t, written, 0x1000);
        } else {
            lemma_multiples_apart(written, t, 0x1000);
        }
        lemma_entry_beside_write(memory, written, index, value, t, i);
    }
    lemma_same_tables_walk_alike(memory, after, pool, levels, root, level, address);
}

/// Copying the tree below a placed table leaves a tree: the tables that were
/// placed are untouched, and each copy stands where the table stands that it
/// is a copy of.
#[verifier::rlimit(40)]
pub proof fn lemma_copy_keeps_tree(
    memory: MemoryView,
    pool: FramePool,
    places: Map<int, Place>,
    table: int,
    level: int,
    base: int,
) -> (later: Map<int, Place>)
    requires
        tree(memory, pool, places),
        pool_ready(pool),
        place_known(places, table, level, base),
        copy_table(memory, pool, table, level).table is Some,
    ensures
        ({
            let out = copy_table(memory, pool, table, level);
            &&& extends(places, later)
            &&& tree(out.memory, out.pool, later)
            &&& pool_ready(out.pool)
            &&& same_places(memory, out.memory, places)
            &&& out.table == Some(pool.next)
            &&& !places.contains_key(pool.next as int)
            &&& place_known(later, pool.next as int, level, base)
        }),
    decreases 3 - level, TABLE_ENTRIES + 1, 0int,
{
    let clone = pool.next;
    let taken = pool.after(1);
    let run = table_run(memory, table, TABLE_ENTRIES as int);
    let copied = memory.write_run(clone as int, 0, run);
    let places1 = places.insert(clone as int, Place { level, base });
    assert(tree_table(memory, pool, places, table));
    assert forall|t: int| places.contains_key(t) implies t != clone && (t + PAGE_SIZE <= clone
        || clone + PAGE_SIZE <= t) by {
        assert(tree_table(memory, pool, places, t));
    }
    assert forall|t: int, i: int|
        places.contains_key(t) && 0 <= i < TABLE_ENTRIES implies #[trigger] copied.entry(t, i)
        == memory.entry(t, i) by {
        assert(tree_table(memory, pool, places, t));
        lemma_entry_outside_run(memory, clone as int, run, t, i);
    }
    assert forall|i: int| 0 <= i < TABLE_ENTRIES implies #[trigger] copied.entry(clone as int, i)
        == memory.entry(table, i) by {
        lemma_entry_inside_run(memory, clone as int, run, i);
    }
    assert forall|t: int| #[trigger] places1.contains_key(t) implies tree_table(
        copied,
        taken,
        places1,
        t,
    ) by {
        if t == clone {
            if level < 3 {
                assert forall|i: int| 0 <= i < TABLE_ENTRIES implies #[trigger] tree_entry(
                    copied,
                    places1,
                    t,
                    i,
                ) by {
                    assert(copied.entry(clone as int, i) == memory.entry(table, i));
                    assert(tree_entry(memory, places, table, i));
                }
            }
        } else {
            assert(tree_table(memory, pool, places, t));
            if places[t].level < 3 {
                assert forall|i: int| 0 <= i < TABLE_ENTRIES implies #[trigger] tree_entry(
                    copied,
                    places1,
                    t,
                    i,
                ) by {
                    assert(copied.entry(t, i) == memory.entry(t, i));
                    assert(tree_entry(memory, places, t, i));
                }
            }
        }
    }
    if level >= 3 {
        places1
    } else {
        let places2 = lemma_copy_entries_keep_tree(copied, taken, places1, clone, level, base, 0);
        assert(places1.contains_key(clone as int));
        assert forall|t: int| #[trigger] places.contains_key(t) implies places2.contains_key(t)
            && places2[t] == places[t] by {
            assert(places1.contains_key(t));
        }
        places2
    }
}

/// Pointing the table descriptors of a placed copy to copies of their
/// tables leaves a tree.
#[verifier::rlimit(40)]
pub proof fn lemma_copy_entries_keep_tree(
    memory: MemoryView,
    pool: FramePool,
    places: Map<int, Place>,
    clone: u64,
    level: int,
    base: int,
    index: int,
) -> (later: Map<int, Place>)
    requires
        tree(memory, pool, places),
        pool_ready(pool),
        place_known(places, clone as int, level, base),
        level < 3,
        0 <= index <= TABLE_ENTRIES,
        copy_entries(memory, pool, clone, level, index).table is Some,
    ensures
        ({
            let out = copy_entries(memory, pool, clone, level, index);
            &&& extends(places, later)
            &&& tree(out.memory, out.pool, later)
            &&& pool_ready(out.pool)
            &&& out.memory.same_extent(memory)
            &&& forall|t: int, i: int|
                places.contains_key(t) && t != clone && 0 <= i < TABLE_ENTRIES
                    ==> #[trigger] out.memory.entry(t, i) == memory.entry(t, i)
            &&& out.table == Some(clone)
        }),
    decreases 3 - level, TABLE_ENTRIES - index, 0int,
{
    if index >= TABLE_ENTRIES {
        places
    } else {
        assert(tree_table(memory, pool, places, clone as int));
        assert(tree_entry(memory, places, clone as int, index));
        let descriptor = memory.entry(clone as int, index);
        if is_table_or_page(descriptor) {
            let source = output_address(descriptor, PAGE_SIZE) as int;
            let low = base + index * entry_span(level);
            assert(place_known(places, source, level + 1, low));
            let below = copy_table(memory, pool, source, level + 1);
            let places1 = lemma_copy_keeps_tree(memory, pool, places, source, level + 1, low);
            let copy = below.table->0;
            let link = repointed(descriptor, copy);
            assert(tree_table(below.memory, below.pool, places1, copy as int));
            lemma_repointed(descriptor, copy);
            assert(pages_placed(places1, clone as int, level, base, 1)) by {
                assert forall|k: int| 0 <= k < 1 implies #[trigger] place_known(
                    places1,
                    clone + k * PAGE_SIZE,
                    level,
                    base + k * reach(level),
                ) by {
                    assert(places.contains_key(clone as int));
                }
            }
            lemma_map_write(
                below.memory,
                below.pool,
                places1,
                clone as int,
                level,
                base,
                1,
                index,
                link,
            );
            let linked = below.memory.write_entry(clone as int, index, link);
            assert forall|t: int, i: int|
                places1.contains_key(t) && t != clone && 0 <= i
                    < TABLE_ENTRIES implies #[trigger] linked.entry(t, i) == below.memory.entry(
                t,
                i,
            ) by {
                assert(tree_table(below.memory, below.pool, places1, t));
                assert(tree_table(below.memory, below.pool, places1, clone as int));
                if t < clone {
                    lemma_multiples_apart(t, clone as int, 0x1000);
                } else {
                    lemma_multiples_apart(clone as int, t, 0x1000);
                }
                lemma_entry_beside_write(below.memory, clone as int, index, link, t, i);
            }
            let places2 = lemma_copy_entries_keep_tree(
                linked,
                below.pool,
                places1,
                clone,
                level,
                base,
                index + 1,
            );
            assert forall|t: int| #[trigger] places.contains_key(t) implies places2.contains_key(t)
                && places2[t] == places[t] by {
                assert(places1.contains_key(t));
            }
            places2
        } else {
            lemma_copy_entries_keep_tree(memory, pool, places, clone, level, base, index + 1)
        }
    }
}

/// The copy that `copy_page_table` makes is a tree of its own, beside the
/// tree of `TTBR0_EL2`, which is as it was.
///
/// This is stated of stage-1 tables that form a tree, and of a pool whose
/// next frame lies at a multiple of the page size.
pub proof fn lemma_copy_is_a_tree(machine: MachineView, places: Map<int, Place>) -> (later: Map<
    int,
    Place,
>)
    requires
        tree(machine.memory, machine.allocator, places),
        pool_ready(machine.allocator),
        place_known(
            places,
            ttbr_base_address(machine.registers.ttbr0_el2) as int,
            initial_level(machine.registers.tcr_el2),
            0,
        ),
        copy_page_table_result(machine).table is Some,
    ensures
        ({
            let out = copy_page_table_result(machine);
            &&& extends(places, later)
            &&& tree(out.memory, out.pool, later)
            &&& same_places(machine.memory, out.memory, places)
            &&& !places.contains_key(out.table->0 as int)
            &&& place_known(
                later,
                out.table->0 as int,
                initial_level(machine.registers.tcr_el2),
                0,
            )
        }),
{
    lemma_copy_keeps_tree(
        machine.memory,
        machine.allocator,
        places,
        ttbr_base_address(machine.registers.ttbr0_el2) as int,
        initial_level(machine.registers.tcr_el2),
        0,
    )
}

} // verus!
