//! Copying the stage-1 tables of EL2: every table of the tree is copied to a
//! frame of its own, and the table descriptors of the copy point to the
//! copies.

use vstd::prelude::*;
use crate::descriptor::{
    extract_output_address, is_descriptor_table_or_level_3_descriptor, is_table_or_page,
    output_address,
};
use crate::mapping::{lemma_write_run_empty, lemma_write_run_push};
use crate::memory::{FramePool, MemoryView, PhysicalMemory, PAGE_SIZE, TABLE_ENTRIES};
use crate::paging::{Machine, MachineView};
use crate::registers::{
    get_initial_page_table_level_and_bits_to_shift, initial_level, ttbr_base_address, TTBR,
};

verus! {

/// What copying a tree leaves: the memory, the pool, and the address of the
/// copy of the top table, or `None` where the pool gave out or a table did
/// not lie in memory.
pub struct CopyOutcome {
    pub memory: MemoryView,
    pub pool: FramePool,
    pub table: Option<u64>,
}

/// The first `n` entries of the table at `table`.
pub open spec fn table_run(memory: MemoryView, table: int, n: int) -> Seq<u64> {
    Seq::new(n as nat, |k: int| memory.entry(table, k))
}

/// The table descriptor `descriptor` with the address of its table replaced
/// by `table`.
pub open spec fn repointed(descriptor: u64, table: u64) -> u64 {
    (descriptor & !output_address(descriptor, PAGE_SIZE)) | table
}

/// What copying the tree below the table at `table`, at `level`, leaves: a
/// frame is taken, the table is copied to it, and above level 3 each table
/// descriptor of the copy is pointed to a copy of its own table.
pub open spec fn copy_table(memory: MemoryView, pool: FramePool, table: int, level: int) -> CopyOutcome
    decreases 3 - level, TABLE_ENTRIES + 1,
{
    if pool.remaining < 1 {
        CopyOutcome { memory, pool, table: None }
    } else if !memory.holds(table, TABLE_ENTRIES as int) || !memory.holds(
        pool.next as int,
        TABLE_ENTRIES as int,
    ) {
        CopyOutcome { memory, pool: pool.after(1), table: None }
    } else {
        let copied = memory.write_run(
            pool.next as int,
            0,
            table_run(memory, table, TABLE_ENTRIES as int),
        );
        if level >= 3 {
            CopyOutcome { memory: copied, pool: pool.after(1), table: Some(pool.next) }
        } else {
            copy_entries(copied, pool.after(1), pool.next, level, 0)
        }
    }
}

/// What pointing the table descriptors of the copy at `clone` to copies of
/// their tables leaves, from entry `index` on.
pub open spec fn copy_entries(
    memory: MemoryView,
    pool: FramePool,
    clone: u64,
    level: int,
    index: int,
) -> CopyOutcome
    decreases 3 - level, TABLE_ENTRIES - index,
{
    if level >= 3 || index >= TABLE_ENTRIES {
        CopyOutcome { memory, pool, table: Some(clone) }
    } else {
        let descriptor = memory.entry(clone as int, index);
        if is_table_or_page(descriptor) {
            let below = copy_table(
                memory,
                pool,
                output_address(descriptor, PAGE_SIZE) as int,
                level + 1,
            );
            match below.table {
                None => below,
                Some(table) => copy_entries(
                    below.memory.write_entry(clone as int, index, repointed(descriptor, table)),
                    below.pool,
                    clone,
                    level,
                    index + 1,
                ),
            }
        } else {
            copy_entries(memory, pool, clone, level, index + 1)
        }
    }
}

/// Copies the tree below the table at `table_address`, at `current_level`,
/// and returns the address of the copy of that table.
#[verifier::rlimit(40)]
pub fn copy_page_table_at(
    memory: &mut PhysicalMemory,
    pool: &mut FramePool,
    table_address: u64,
    current_level: i8,
) -> (cloned: Result<u64, ()>)
    requires
        old(pool).well_formed(),
        -2 <= current_level <= 3,
    ensures
        final(pool).well_formed(),
        final(memory)@.same_extent(old(memory)@),
        final(memory)@ == copy_table(
            old(memory)@,
            *old(pool),
            table_address as int,
            current_level as int,
        ).memory,
        *final(pool) == copy_table(
            old(memory)@,
            *old(pool),
            table_address as int,
            current_level as int,
        ).pool,
        match copy_table(old(memory)@, *old(pool), table_address as int, current_level as int).table {
            Some(table) => cloned == Ok::<u64, ()>(table),
            None => cloned is Err,
        },
    decreases 3 - current_level,
{
    let cloned_table_address: u64 = match pool.allocate(1) {
        Err(_) => {
            return Err(());
        },
        Ok(address) => address,
    };
    if !memory.contains(table_address, TABLE_ENTRIES) || !memory.contains(
        cloned_table_address,
        TABLE_ENTRIES,
    ) {
        return Err(());
    }
    let mut entries: Vec<u64> = Vec::new();
    let mut k: u64 = 0;
    while k < TABLE_ENTRIES
        invariant
            k <= TABLE_ENTRIES,
            memory@ == old(memory)@,
            memory@.holds(table_address as int, TABLE_ENTRIES as int),
            entries@ == table_run(memory@, table_address as int, k as int),
        decreases TABLE_ENTRIES - k,
    {
        let value: u64 = memory.read_entry(table_address, k);
        proof {
            assert(entries@.push(value) =~= table_run(memory@, table_address as int, k + 1));
        }
        entries.push(value);
        k += 1;
    }
    k = 0;
    proof {
        lemma_write_run_empty(old(memory)@, cloned_table_address as int, 0);
        assert(entries@.subrange(0, 0) =~= Seq::<u64>::empty());
    }
    while k < TABLE_ENTRIES
        invariant
            k <= TABLE_ENTRIES,
            old(memory)@.holds(cloned_table_address as int, TABLE_ENTRIES as int),
            entries@ == table_run(old(memory)@, table_address as int, TABLE_ENTRIES as int),
            memory@ == old(memory)@.write_run(
                cloned_table_address as int,
                0,
                entries@.subrange(0, k as int),
            ),
        decreases TABLE_ENTRIES - k,
    {
        let value: u64 = entries[k as usize];
        proof {
            lemma_write_run_push(
                old(memory)@,
                cloned_table_address as int,
                0,
                entries@.subrange(0, k as int),
                value,
            );
            assert(entries@.subrange(0, k as int).push(value) =~= entries@.subrange(0, k + 1));
        }
        memory.write_entry(cloned_table_address, k, value);
        k += 1;
    }
    proof {
        assert(entries@.subrange(0, TABLE_ENTRIES as int) =~= entries@);
    }
    if current_level == 3 {
        return Ok(cloned_table_address);
    }
    let ghost goal = copy_table(
        old(memory)@,
        *old(pool),
        table_address as int,
        current_level as int,
    );
    let mut index: u64 = 0;
    while index < TABLE_ENTRIES
        invariant
            index <= TABLE_ENTRIES,
            -2 <= current_level < 3,
            pool.well_formed(),
            memory@.same_extent(old(memory)@),
            memory@.holds(cloned_table_address as int, TABLE_ENTRIES as int),
            goal == copy_table(
                old(memory)@,
                *old(pool),
                table_address as int,
                current_level as int,
            ),
            copy_entries(memory@, *pool, cloned_table_address, current_level as int, index as int)
                == goal,
        decreases TABLE_ENTRIES - index,
    {
        let descriptor: u64 = memory.read_entry(cloned_table_address, index);
        if is_descriptor_table_or_level_3_descriptor(descriptor) {
            let next_level_table_address: u64 = extract_output_address(descriptor, PAGE_SIZE);
            let copied = match copy_page_table_at(
                memory,
                pool,
                next_level_table_address,
                current_level + 1,
            ) {
                Err(_) => {
                    return Err(());
                },
                Ok(address) => address,
            };
            memory.write_entry(
                cloned_table_address,
                index,
                (descriptor & !next_level_table_address) | copied,
            );
        }
        index += 1;
    }
    Ok(cloned_table_address)
}

/// What `copy_page_table` leaves: the copy of the tree of `TTBR0_EL2`, made
/// from the level at which `TCR_EL2` lets a walk start.
pub open spec fn copy_page_table_result(machine: MachineView) -> CopyOutcome {
    copy_table(
        machine.memory,
        machine.allocator,
        ttbr_base_address(machine.registers.ttbr0_el2) as int,
        initial_level(machine.registers.tcr_el2),
    )
}

/// Copies the stage-1 tables of EL2 and returns the address of the copy of
/// the top table; an error where the pool gives out or a table does not lie
/// in memory.
pub fn copy_page_table(machine: &mut Machine) -> (cloned: Result<u64, ()>)
    requires
        old(machine).allocator.well_formed(),
    ensures
        final(machine).allocator.well_formed(),
        final(machine).registers == old(machine).registers,
        final(machine)@.memory.same_extent(old(machine)@.memory),
        final(machine)@.memory == copy_page_table_result(old(machine)@).memory,
        final(machine).allocator == copy_page_table_result(old(machine)@).pool,
        match copy_page_table_result(old(machine)@).table {
            Some(table) => cloned == Ok::<u64, ()>(table),
            None => cloned is Err,
        },
{
    let page_table_address: u64 = TTBR::new(machine.registers.ttbr0_el2).get_base_address();
    let tcr_el2: u64 = machine.registers.tcr_el2;
    let first_table_level: i8 = get_initial_page_table_level_and_bits_to_shift(tcr_el2).0;
    copy_page_table_at(
        &mut machine.memory,
        &mut machine.allocator,
        page_table_address,
        first_table_level,
    )
}

} // verus!
