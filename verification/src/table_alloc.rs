//! Frames for translation tables: taken from the pool until one is aligned
//! as the table needs it.

use vstd::prelude::*;
use crate::memory::FramePool;

verus! {

/// What taking a table from a pool yields: the table's address, if the pool
/// had one, and the pool that is left.
pub struct TableAllocation {
    pub table: Option<u64>,
    pub pool: FramePool,
}

/// The bits in which the address of a table must be zero: twelve for a table
/// that a descriptor points to; for a table that a base register points to,
/// the bits that its entries at `look_up_level` take up, with four at the
/// least and twelve at the most, and `extra_bits` more.
pub open spec fn table_alignment_bits(
    look_up_level: int,
    t0sz: int,
    is_for_ttbr: bool,
    extra_bits: int,
) -> int {
    if is_for_ttbr {
        let used = 64 - 9 * (4 - look_up_level) - t0sz;
        (if used < 4 {
            4
        } else if used > 12 {
            12
        } else {
            used
        }) + extra_bits
    } else {
        12
    }
}

/// How many bits `number_of_tables` tables add to the alignment of the first
/// of them: the bits that count them.
pub open spec fn table_count_bits(number_of_tables: u8) -> int {
    if number_of_tables <= 1 {
        0
    } else if number_of_tables <= 2 {
        1
    } else if number_of_tables <= 4 {
        2
    } else if number_of_tables <= 8 {
        3
    } else if number_of_tables <= 16 {
        4
    } else if number_of_tables <= 32 {
        5
    } else if number_of_tables <= 64 {
        6
    } else if number_of_tables <= 128 {
        7
    } else {
        8
    }
}

/// Takes `pages` frames at a time from `pool` until the first of them is a
/// multiple of `alignment`. Frames that are not are lost; where more than
/// one frame is taken at a time, one more is given up after each miss, so
/// that the next try starts elsewhere.
pub open spec fn aligned_frames(pool: FramePool, pages: u64, alignment: u64) -> TableAllocation
    decreases pool.remaining,
{
    if pages == 0 || pages > pool.remaining {
        TableAllocation { table: None, pool }
    } else if pool.next % alignment == 0 {
        TableAllocation { table: Some(pool.next), pool: pool.after(pages) }
    } else {
        let missed = pool.after(pages);
        if pages != 1 && missed.remaining >= 1 {
            aligned_frames(missed.after(1), pages, alignment)
        } else {
            aligned_frames(missed, pages, alignment)
        }
    }
}

/// One shifted left by up to twenty bits is not zero; shifted by twelve it
/// is 4 KiB, by thirteen 8 KiB.
pub proof fn lemma_alignment_of_bits(bits: u64)
    requires
        bits <= 20,
    ensures
        1u64 << bits > 0,
        bits == 12 ==> 1u64 << bits == 0x1000,
        bits == 13 ==> 1u64 << bits == 0x2000,
{
    assert(bits <= 20 ==> 1u64 << bits > 0) by (bit_vector);
    assert(1u64 << 12 == 0x1000) by (bit_vector);
    assert(1u64 << 13 == 0x2000) by (bit_vector);
}

/// Takes `pages` frames from `pool` whose first is aligned to `bits` bits.
pub fn allocate_aligned(pool: &mut FramePool, pages: u64, bits: u64) -> (table: Result<u64, ()>)
    requires
        old(pool).well_formed(),
        pages >= 1,
        bits <= 20,
    ensures
        final(pool).well_formed(),
        *final(pool) == aligned_frames(*old(pool), pages, 1u64 << bits).pool,
        match aligned_frames(*old(pool), pages, 1u64 << bits).table {
            Some(address) => table == Ok::<u64, ()>(address),
            None => table is Err,
        },
{
    let alignment: u64 = 1u64 << bits;
    proof {
        lemma_alignment_of_bits(bits);
    }
    loop
        invariant
            pool.well_formed(),
            pages >= 1,
            alignment == 1u64 << bits,
            alignment > 0,
            aligned_frames(*pool, pages, alignment) == aligned_frames(*old(pool), pages, alignment),
        decreases pool.remaining,
    {
        match pool.allocate(pages) {
            Err(_) => {
                return Err(());
            },
            Ok(address) => {
                if address % alignment == 0 {
                    return Ok(address);
                }
                if pages != 1 {
                    let _ = pool.allocate(1);
                }
            },
        }
    }
}

/// Takes a frame for a stage-1 table used at `look_up_level`.
pub fn allocate_page_table_for_stage_1(
    pool: &mut FramePool,
    look_up_level: i8,
    t0sz: u8,
    is_for_ttbr: bool,
) -> (table: Result<u64, ()>)
    requires
        old(pool).well_formed(),
        -2 <= look_up_level <= 3,
    ensures
        final(pool).well_formed(),
        *final(pool) == stage_1_table(*old(pool), look_up_level as int, t0sz as int, is_for_ttbr).pool,
        match stage_1_table(*old(pool), look_up_level as int, t0sz as int, is_for_ttbr).table {
            Some(address) => table == Ok::<u64, ()>(address),
            None => table is Err,
        },
{
    let bits = alignment_bits(look_up_level, t0sz, is_for_ttbr, 0);
    allocate_aligned(pool, 1, bits)
}

/// What `allocate_page_table_for_stage_1` yields.
pub open spec fn stage_1_table(pool: FramePool, look_up_level: int, t0sz: int, is_for_ttbr: bool) -> TableAllocation {
    aligned_frames(
        pool,
        1,
        1u64 << (table_alignment_bits(look_up_level, t0sz, is_for_ttbr, 0) as u64),
    )
}

/// What `allocate_page_table_for_stage_2` yields.
pub open spec fn stage_2_table(
    pool: FramePool,
    look_up_level: int,
    t0sz: int,
    is_for_ttbr: bool,
    number_of_tables: u8,
) -> TableAllocation {
    aligned_frames(
        pool,
        number_of_tables as u64,
        1u64 << (table_alignment_bits(
            look_up_level,
            t0sz,
            is_for_ttbr,
            table_count_bits(number_of_tables),
        ) as u64),
    )
}

/// The bits in which the address of a table must be zero.
pub fn alignment_bits(look_up_level: i8, t0sz: u8, is_for_ttbr: bool, extra_bits: u8) -> (bits: u64)
    requires
        -2 <= look_up_level <= 3,
        extra_bits <= 8,
    ensures
        bits == table_alignment_bits(look_up_level as int, t0sz as int, is_for_ttbr, extra_bits as int),
        bits <= 20,
{
    if !is_for_ttbr {
        return 12;
    }
    let used: i64 = 64 - 9 * (4 - look_up_level as i64) - t0sz as i64;
    let clamped: u64 = if used < 4 {
        4
    } else if used > 12 {
        12
    } else {
        used as u64
    };
    clamped + extra_bits as u64
}

/// The bits that count `number_of_tables` tables.
pub fn count_bits(number_of_tables: u8) -> (bits: u8)
    ensures
        bits == table_count_bits(number_of_tables),
        bits <= 8,
{
    if number_of_tables <= 1 {
        0
    } else if number_of_tables <= 2 {
        1
    } else if number_of_tables <= 4 {
        2
    } else if number_of_tables <= 8 {
        3
    } else if number_of_tables <= 16 {
        4
    } else if number_of_tables <= 32 {
        5
    } else if number_of_tables <= 64 {
        6
    } else if number_of_tables <= 128 {
        7
    } else {
        8
    }
}

/// Takes `number_of_tables` frames, one behind the other, for stage-2
/// tables used at `look_up_level`. Only a base register points to more than
/// one table at a time.
pub fn allocate_page_table_for_stage_2(
    pool: &mut FramePool,
    look_up_level: i8,
    t0sz: u8,
    is_for_ttbr: bool,
    number_of_tables: u8,
) -> (table: Result<u64, ()>)
    requires
        old(pool).well_formed(),
        -2 <= look_up_level <= 3,
        number_of_tables != 0,
        !is_for_ttbr ==> number_of_tables == 1,
    ensures
        final(pool).well_formed(),
        *final(pool) == stage_2_table(
            *old(pool),
            look_up_level as int,
            t0sz as int,
            is_for_ttbr,
            number_of_tables,
        ).pool,
        match stage_2_table(
            *old(pool),
            look_up_level as int,
            t0sz as int,
            is_for_ttbr,
            number_of_tables,
        ).table {
            Some(address) => table == Ok::<u64, ()>(address),
            None => table is Err,
        },
{
    let extra = count_bits(number_of_tables);
    let bits = alignment_bits(look_up_level, t0sz, is_for_ttbr, extra);
    allocate_aligned(pool, number_of_tables as u64, bits)
}

} // verus!
