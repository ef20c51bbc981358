//! Facts about descriptors, memory and the pool that the statements about
//! whole trees of tables rest on.

use vstd::prelude::*;
use crate::descriptor::{is_block, is_table_or_page, output_address, DESCRIPTOR_TABLE_OR_PAGE};
use crate::memory::{FramePool, MemoryView, PAGE_SIZE, PHYSICAL_ADDRESS_LIMIT};
use crate::table_alloc::aligned_frames;

verus! {

/// A table descriptor made of the address of a page-aligned frame below
/// `PHYSICAL_ADDRESS_LIMIT` is a table descriptor and no block, and leads
/// back to that address.
pub proof fn lemma_table_descriptor(frame: u64)
    requires
        frame % PAGE_SIZE == 0,
        frame < PHYSICAL_ADDRESS_LIMIT,
    ensures
        is_table_or_page(frame | DESCRIPTOR_TABLE_OR_PAGE),
        !is_block(frame | DESCRIPTOR_TABLE_OR_PAGE),
        output_address(frame | DESCRIPTOR_TABLE_OR_PAGE, PAGE_SIZE) == frame,
{
    assert((frame | 3) & 3 == 3 && (frame | 3) & (0x0003_ffff_ffff_ffffu64 & !0xfffu64) == frame)
        by (bit_vector)
        requires
            frame % 0x1000 == 0,
            frame < 0x1_0000_0000_0000,
    ;
    assert((PAGE_SIZE - 1) as u64 == 0xfffu64);
}

/// Taking aligned frames from a pool keeps the pool's end, never moves its
/// start backwards, and yields frames that are aligned as asked and lie
/// between the old start and the new one.
pub proof fn lemma_aligned_frames(pool: FramePool, pages: u64, alignment: u64)
    requires
        pool.well_formed(),
        alignment > 0,
    ensures
        ({
            let taken = aligned_frames(pool, pages, alignment);
            &&& taken.pool.well_formed()
            &&& taken.pool.end() == pool.end()
            &&& pool.next <= taken.pool.next
            &&& taken.table is Some ==> {
                &&& taken.table->0 % alignment == 0
                &&& pool.next <= taken.table->0
                &&& taken.table->0 + pages * PAGE_SIZE <= taken.pool.next
            }
        }),
    decreases pool.remaining,
{
    if pages == 0 || pages > pool.remaining {
    } else if pool.next % alignment == 0 {
    } else {
        let missed = pool.after(pages);
        if pages != 1 && missed.remaining >= 1 {
            lemma_aligned_frames(missed.after(1), pages, alignment);
        } else {
            lemma_aligned_frames(missed, pages, alignment);
        }
    }
}

/// An entry outside a run that is written keeps its value.
pub proof fn lemma_entry_outside_run(
    memory: MemoryView,
    frame: int,
    values: Seq<u64>,
    table: int,
    index: int,
)
    requires
        memory.holds(frame, values.len() as int),
        memory.holds(table, index + 1),
        0 <= index,
        table + 8 * index < frame || frame + 8 * values.len() <= table + 8 * index,
    ensures
        memory.write_run(frame, 0, values).entry(table, index) == memory.entry(table, index),
        memory.write_run(frame, 0, values).same_extent(memory),
{
}

/// An entry of a run that is written has the run's value.
pub proof fn lemma_entry_inside_run(memory: MemoryView, frame: int, values: Seq<u64>, index: int)
    requires
        memory.holds(frame, values.len() as int),
        0 <= index < values.len(),
    ensures
        memory.write_run(frame, 0, values).entry(frame, index) == values[index],
{
}

/// An entry other than the one that is written keeps its value.
pub proof fn lemma_entry_beside_write(
    memory: MemoryView,
    written: int,
    at: int,
    value: u64,
    table: int,
    index: int,
)
    requires
        memory.holds(written, at + 1),
        memory.holds(table, index + 1),
        0 <= index,
        0 <= at,
        table + 8 * index != written + 8 * at,
    ensures
        memory.write_entry(written, at, value).entry(table, index) == memory.entry(table, index),
        memory.write_entry(written, at, value).same_extent(memory),
{
}

/// The entry that is written has the value written.
pub proof fn lemma_entry_written(memory: MemoryView, written: int, at: int, value: u64)
    requires
        memory.holds(written, at + 1),
        0 <= at,
    ensures
        memory.write_entry(written, at, value).entry(written, at) == value,
        memory.write_entry(written, at, value).same_extent(memory),
{
}

} // verus!
