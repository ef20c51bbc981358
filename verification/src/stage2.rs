//! The stage-2 tables that map the first tebibyte of intermediate physical
//! addresses onto itself.

use vstd::prelude::*;
use vstd::arithmetic::div_mod::lemma_mod_multiples_basic;
use crate::descriptor::{
    create_attributes_for_stage_2, entry_span, is_block, is_table_or_page, output_address,
    stage_2_attributes, DESCRIPTOR_TABLE_OR_PAGE,
};
use crate::forest::{forest, forest_table, pages_known, table_known};
use crate::mapping::{lemma_write_run_empty, lemma_write_run_push};
use crate::memory::{FramePool, MemoryView, PAGE_SIZE, PHYSICAL_ADDRESS_LIMIT, TABLE_ENTRIES};
use crate::paging::{stage_2_request, Machine, MachineView, PagingResult, PERMISSION_ALL};
use crate::registers::{
    concatenation_bits, sl0_of, stage_2_initial_level, t0sz_of, tables_for, ttbr_base_address,
    SystemRegisters, VTCR_EL2_RES1,
};
use crate::table_alloc::{
    aligned_frames, allocate_page_table_for_stage_2, lemma_alignment_of_bits, stage_2_table,
};
use crate::table_laws::{
    lemma_aligned_frames, lemma_entry_beside_write, lemma_entry_inside_run,
    lemma_entry_outside_run, lemma_entry_written, lemma_table_descriptor,
};
use crate::tree::{
    lemma_block_leaf, pages_placed, place_known, reach, tree, tree_entry, tree_table, Place,
};
use crate::walk::{walk, Leaf};

verus! {

/// The level at which a walk of the identity tables starts.
pub const IDENTITY_FIRST_LEVEL: i8 = 1;

/// `VTCR_EL2.T0SZ` for a tebibyte of intermediate physical addresses.
pub const IDENTITY_T0SZ: u8 = 24;

/// `VTCR_EL2.PS` for 40 bits of physical address.
pub const IDENTITY_PS: u8 = 2;

/// `VTCR_EL2.SL0` for a walk that starts at level 1.
pub const IDENTITY_SL0: u8 = 1;

/// The entries of the two tables at which a walk of the identity tables
/// starts.
pub const IDENTITY_TOP_ENTRIES: u64 = 1024;

/// Bytes that a level-2 block maps.
pub const BLOCK_SIZE: u64 = 0x20_0000;

/// The intermediate physical addresses that the identity tables map.
pub const IDENTITY_SIZE: u64 = 0x100_0000_0000;

/// `VTCR_EL2` with the given `PS`, `SL0` and `T0SZ`: the bit that reads as
/// one, hardware use of the four software bits of a descriptor, a 4 KiB
/// granule, inner shareable, and write-back read-allocate write-allocate
/// cacheable walks, inner and outer.
pub open spec fn stage_2_control(ps: u8, sl0: u8, t0sz: u8) -> u64 {
    (VTCR_EL2_RES1 + 0xf * 0x200_0000 + ps * 0x1_0000 + 0x3 * 0x1000 + 0x1 * 0x400 + 0x1 * 0x100 + sl0
        * 0x40 + t0sz) as u64
}

/// Block `j` of the level-2 table that entry `i` of the top tables points
/// to: readable, writable, executable, cacheable, and mapped onto itself.
pub open spec fn identity_block(i: int, j: int) -> u64 {
    (((i * TABLE_ENTRIES + j) * BLOCK_SIZE) as u64) | stage_2_attributes(
        PERMISSION_ALL,
        false,
        false,
        true,
    )
}

/// The first `n` blocks of the level-2 table that entry `i` of the top
/// tables points to.
pub open spec fn identity_run(i: int, n: int) -> Seq<u64> {
    Seq::new(n as nat, |j: int| identity_block(i, j))
}

/// What making the level-2 tables leaves: the memory, the pool, and whether
/// every table could be had.
pub struct IdentityTables {
    pub memory: MemoryView,
    pub pool: FramePool,
    pub ok: bool,
}

/// What making the level-2 tables from entry `i` of the top tables on
/// leaves: for each entry a table is taken from the pool, filled with its
/// blocks, and the entry pointed to it. It stops short where the pool gives
/// out or a table does not lie in memory.
pub open spec fn identity_tables(memory: MemoryView, pool: FramePool, root: int, i: int) -> IdentityTables
    decreases IDENTITY_TOP_ENTRIES - i,
{
    if i >= IDENTITY_TOP_ENTRIES {
        IdentityTables { memory, pool, ok: true }
    } else {
        let allocation = aligned_frames(pool, 1, 1u64 << 12);
        match allocation.table {
            None => IdentityTables { memory, pool: allocation.pool, ok: false },
            Some(frame) => if !memory.holds(frame as int, TABLE_ENTRIES as int) {
                IdentityTables { memory, pool: allocation.pool, ok: false }
            } else {
                identity_tables(
                    memory.write_run(
                        frame as int,
                        0,
                        identity_run(i, TABLE_ENTRIES as int),
                    ).write_entry(root, i, frame | DESCRIPTOR_TABLE_OR_PAGE),
                    allocation.pool,
                    root,
                    i + 1,
                )
            },
        }
    }
}

/// What `setup_stage_2_translation` leaves: two top tables, one behind the
/// other, are taken from the pool, then the level-2 tables; where all could
/// be had, `VTCR_EL2` and `VTTBR_EL2` are set.
pub open spec fn setup_stage_2_result(machine: MachineView) -> PagingResult {
    let allocation = stage_2_table(
        machine.allocator,
        IDENTITY_FIRST_LEVEL as int,
        IDENTITY_T0SZ as int,
        true,
        2,
    );
    let taken = MachineView {
        registers: machine.registers,
        memory: machine.memory,
        allocator: allocation.pool,
    };
    match allocation.table {
        None => PagingResult { machine: taken, ok: false },
        Some(root) => if !machine.memory.holds(root as int, IDENTITY_TOP_ENTRIES as int) {
            PagingResult { machine: taken, ok: false }
        } else {
            let tables = identity_tables(machine.memory, allocation.pool, root as int, 0);
            PagingResult {
                machine: MachineView {
                    registers: if tables.ok {
                        SystemRegisters {
                            vtcr_el2: stage_2_control(IDENTITY_PS, IDENTITY_SL0, IDENTITY_T0SZ),
                            vttbr_el2: root,
                            ..machine.registers
                        }
                    } else {
                        machine.registers
                    },
                    memory: tables.memory,
                    allocator: tables.pool,
                },
                ok: tables.ok,
            }
        },
    }
}

/// The leaf that maps the intermediate physical address `address` in the
/// stage-2 tables of `machine`.
pub open spec fn stage_2_walk(machine: MachineView, address: u64) -> Option<Leaf> {
    let level = stage_2_initial_level(sl0_of(machine.registers.vtcr_el2));
    walk(
        machine.memory,
        ttbr_base_address(machine.registers.vttbr_el2) as int,
        level,
        TABLE_ENTRIES * tables_for(
            concatenation_bits(t0sz_of(machine.registers.vtcr_el2) as int, level),
        ),
        address,
    )
}

/// Whether `levels` describes the stage-2 tables of `machine` as a forest
/// whose top are the tables of `VTTBR_EL2`.
pub open spec fn stage_2_forest(machine: MachineView, levels: Map<int, int>) -> bool {
    let level = stage_2_initial_level(sl0_of(machine.registers.vtcr_el2));
    &&& forest(machine.memory, machine.allocator, levels)
    &&& pages_known(
        levels,
        ttbr_base_address(machine.registers.vttbr_el2) as int,
        level,
        tables_for(concatenation_bits(t0sz_of(machine.registers.vtcr_el2) as int, level)) as int,
    )
}

/// Whether `address` is mapped onto itself by a block that is readable,
/// writable, executable and cacheable.
pub open spec fn maps_onto_itself(machine: MachineView, address: u64) -> bool {
    match stage_2_walk(machine, address) {
        None => false,
        Some(leaf) => {
            &&& leaf.level == 2
            &&& is_block(leaf.descriptor)
            &&& leaf.output(address) == address
            &&& leaf.attributes() == stage_2_attributes(PERMISSION_ALL, false, false, true)
        },
    }
}

/// Whether the tables from `root` on hold the first `tables.len()` entries
/// of the identity map, entry `k` pointing to the table at `tables[k]`.
pub open spec fn identity_tree(memory: MemoryView, root: int, tables: Seq<u64>) -> bool {
    &&& memory.holds(root, IDENTITY_TOP_ENTRIES as int)
    &&& forall|k: int| 0 <= k < tables.len() ==> #[trigger] identity_subtree(memory, root, tables, k)
}

/// Whether entry `k` of the tables from `root` on points to the table at
/// `tables[k]`, and that table holds its blocks.
pub open spec fn identity_subtree(memory: MemoryView, root: int, tables: Seq<u64>, k: int) -> bool {
    &&& tables[k] % PAGE_SIZE == 0
    &&& root + 8 * IDENTITY_TOP_ENTRIES <= tables[k]
    &&& tables[k] < PHYSICAL_ADDRESS_LIMIT
    &&& memory.holds(tables[k] as int, TABLE_ENTRIES as int)
    &&& memory.entry(root, k) == tables[k] | DESCRIPTOR_TABLE_OR_PAGE
    &&& forall|j: int|
        0 <= j < TABLE_ENTRIES ==> #[trigger] memory.entry(tables[k] as int, j) == identity_block(
            k,
            j,
        )
}

/// A block of the identity map is a block, leads to its own address, and has
/// the attributes of a readable, writable, executable, cacheable block.
pub proof fn lemma_identity_block(output: u64)
    requires
        output % BLOCK_SIZE == 0,
        output < IDENTITY_SIZE,
    ensures
        ({
            let descriptor = output | stage_2_attributes(PERMISSION_ALL, false, false, true);
            &&& is_block(descriptor)
            &&& output_address(descriptor, BLOCK_SIZE) == output
            &&& descriptor ^ output == stage_2_attributes(PERMISSION_ALL, false, false, true)
        }),
{
    assert(stage_2_attributes(PERMISSION_ALL, false, false, true) == 0x1_07fd);
    assert((BLOCK_SIZE - 1) as u64 == 0x1f_ffffu64);
    assert((output | 0x1_07fd) & 3 == 1 && (output | 0x1_07fd) & (0x0003_ffff_ffff_ffffu64
        & !0x1f_ffffu64) == output && (output | 0x1_07fd) ^ output == 0x1_07fd) by (bit_vector)
        requires
            output % 0x20_0000 == 0,
            output < 0x100_0000_0000,
    ;
}

/// In the finished identity tables every address below a tebibyte is mapped
/// onto itself.
pub proof fn lemma_identity_walk(memory: MemoryView, root: u64, tables: Seq<u64>, address: u64)
    requires
        identity_tree(memory, root as int, tables),
        tables.len() == IDENTITY_TOP_ENTRIES,
        address < IDENTITY_SIZE,
    ensures
        ({
            let leaf = walk(memory, root as int, 1, IDENTITY_TOP_ENTRIES as int, address);
            &&& leaf is Some
            &&& leaf->0.level == 2
            &&& is_block(leaf->0.descriptor)
            &&& leaf->0.output(address) == address
            &&& leaf->0.attributes() == stage_2_attributes(PERMISSION_ALL, false, false, true)
        }),
{
    let i = (address / 0x4000_0000) as int;
    let j = (address / 0x20_0000) as int % 512;
    assert(identity_subtree(memory, root as int, tables, i));
    lemma_table_descriptor(tables[i]);
    let block = (((i * TABLE_ENTRIES + j) * BLOCK_SIZE) as u64);
    assert(block == address - address % 0x20_0000);
    lemma_identity_block(block);
    assert(memory.entry(tables[i] as int, j) == identity_block(i, j));
    reveal_with_fuel(walk, 3);
}

/// The levels of the tables of the identity map: the two top tables at
/// level 1, the tables that their entries point to at level 2.
pub open spec fn identity_levels(root: int, tables: Seq<u64>) -> Map<int, int> {
    Map::new(
        |t: int| t == root || t == root + PAGE_SIZE || exists|k: int| 0 <= k < tables.len() && t == #[trigger] tables[k],
        |t: int|
            if t == root || t == root + PAGE_SIZE {
                1int
            } else {
                2int
            },
    )
}

/// The finished tables of the identity map form a forest whose top are the
/// two top tables.
#[verifier::rlimit(40)]
pub proof fn lemma_identity_forest(memory: MemoryView, pool: FramePool, root: u64, tables: Seq<u64>)
    requires
        identity_tree(memory, root as int, tables),
        tables.len() == IDENTITY_TOP_ENTRIES,
        root % PAGE_SIZE == 0,
        root + 8 * IDENTITY_TOP_ENTRIES <= pool.next,
        forall|k: int| 0 <= k < tables.len() ==> #[trigger] tables[k] + 8 * TABLE_ENTRIES <= pool.next,
    ensures
        forest(memory, pool, identity_levels(root as int, tables)),
        pages_known(identity_levels(root as int, tables), root as int, 1, 2),
{
    let levels = identity_levels(root as int, tables);
    assert forall|k: int| 0 <= k < 2 implies #[trigger] table_known(
        levels,
        root + k * PAGE_SIZE,
        1,
    ) by {}
    assert forall|k: int| 0 <= k < tables.len() implies levels.contains_key(
        #[trigger] tables[k] as int,
    ) && levels[tables[k] as int] == 2 by {
        assert(identity_subtree(memory, root as int, tables, k));
    }
    assert forall|t: int| #[trigger] levels.contains_key(t) implies forest_table(
        memory,
        pool,
        levels,
        t,
    ) by {
        if t == root || t == root + PAGE_SIZE {
            let first: int = if t == root {
                0
            } else {
                512
            };
            assert forall|i: int|
                0 <= i < TABLE_ENTRIES && is_table_or_page(
                    #[trigger] memory.entry(t, i),
                ) implies table_known(
                levels,
                output_address(memory.entry(t, i), PAGE_SIZE) as int,
                levels[t] + 1,
            ) by {
                let k = first + i;
                assert(memory.entry(t, i) == memory.entry(root as int, k));
                assert(identity_subtree(memory, root as int, tables, k));
                lemma_table_descriptor(tables[k]);
            }
        } else {
            let k = choose|k: int| 0 <= k < tables.len() && t == #[trigger] tables[k];
            assert(identity_subtree(memory, root as int, tables, k));
            assert forall|i: int|
                0 <= i < TABLE_ENTRIES && is_table_or_page(
                    #[trigger] memory.entry(t, i),
                ) implies table_known(
                levels,
                output_address(memory.entry(t, i), PAGE_SIZE) as int,
                levels[t] + 1,
            ) by {
                assert(memory.entry(t, i) == identity_block(k, i));
                let block = (((k * TABLE_ENTRIES + i) * BLOCK_SIZE) as u64);
                lemma_identity_block(block);
                let descriptor = identity_block(k, i);
                assert(descriptor & 3 == 1 ==> descriptor & 3 != 3) by (bit_vector);
            }
        }
    }
}

/// Whether `places` describes the stage-2 tables of `machine` as a tree
/// whose top are the tables of `VTTBR_EL2`.
pub open spec fn stage_2_tree(machine: MachineView, places: Map<int, Place>) -> bool {
    let level = stage_2_initial_level(sl0_of(machine.registers.vtcr_el2));
    &&& tree(machine.memory, machine.allocator, places)
    &&& pages_placed(
        places,
        ttbr_base_address(machine.registers.vttbr_el2) as int,
        level,
        0,
        tables_for(concatenation_bits(t0sz_of(machine.registers.vtcr_el2) as int, level)) as int,
    )
}

/// The places of the tables of the identity map of which the first `n`
/// level-2 tables are counted: the two top tables at level 1, for the first
/// and the second half of the tebibyte, and level-2 table `k` for gibibyte
/// `k`.
pub open spec fn identity_places(root: int, tables: Seq<u64>, n: int) -> Map<int, Place>
    decreases n,
{
    if n <= 0 {
        Map::<int, Place>::empty().insert(root, Place { level: 1, base: 0 }).insert(
            root + PAGE_SIZE,
            Place { level: 1, base: 0x80_0000_0000 },
        )
    } else {
        identity_places(root, tables, n - 1).insert(
            tables[n - 1] as int,
            Place { level: 2, base: (n - 1) * 0x4000_0000 },
        )
    }
}

/// The places of the identity map hold the top tables and the first `n`
/// level-2 tables, each at its place, and nothing else.
pub proof fn lemma_identity_places(root: int, tables: Seq<u64>, n: int)
    requires
        0 <= n <= tables.len(),
        forall|k: int| 0 <= k < tables.len() ==> root + 2 * PAGE_SIZE <= #[trigger] tables[k],
        forall|j: int, k: int| 0 <= j < k < tables.len() ==> tables[j] < tables[k],
    ensures
        place_known(identity_places(root, tables, n), root, 1, 0),
        place_known(identity_places(root, tables, n), root + PAGE_SIZE, 1, 0x80_0000_0000),
        forall|k: int|
            0 <= k < n ==> #[trigger] place_known(
                identity_places(root, tables, n),
                tables[k] as int,
                2,
                k * 0x4000_0000,
            ),
        forall|t: int| #[trigger]
            identity_places(root, tables, n).contains_key(t) ==> t == root || t == root + PAGE_SIZE
                || exists|k: int| 0 <= k < n && t == #[trigger] tables[k],
    decreases n,
{
    if n > 0 {
        lemma_identity_places(root, tables, n - 1);
        let before = identity_places(root, tables, n - 1);
        let after = identity_places(root, tables, n);
        assert forall|k: int| 0 <= k < n implies #[trigger] place_known(
            after,
            tables[k] as int,
            2,
            k * 0x4000_0000,
        ) by {
            if k < n - 1 {
                assert(place_known(before, tables[k] as int, 2, k * 0x4000_0000));
                assert(tables[k] < tables[n - 1]);
            }
        }
        assert forall|t: int| #[trigger] after.contains_key(t) implies t == root || t == root
            + PAGE_SIZE || exists|k: int| 0 <= k < n && t == #[trigger] tables[k] by {
            if t == tables[n - 1] {
            } else {
                assert(before.contains_key(t));
                if !(t == root || t == root + PAGE_SIZE) {
                    let k = choose|k: int| 0 <= k < n - 1 && t == #[trigger] tables[k];
                    assert(0 <= k < n && t == tables[k]);
                }
            }
        }
    }
}

/// The finished tables of the identity map form a tree whose top are the
/// two top tables.
#[verifier::rlimit(40)]
pub proof fn lemma_identity_placed(memory: MemoryView, pool: FramePool, root: u64, tables: Seq<u64>)
    requires
        identity_tree(memory, root as int, tables),
        tables.len() == IDENTITY_TOP_ENTRIES,
        root % PAGE_SIZE == 0,
        root + 8 * IDENTITY_TOP_ENTRIES <= pool.next,
        forall|k: int| 0 <= k < tables.len() ==> #[trigger] tables[k] + 8 * TABLE_ENTRIES <= pool.next,
        forall|j: int, k: int| 0 <= j < k < tables.len() ==> tables[j] < tables[k],
    ensures
        tree(memory, pool, identity_places(root as int, tables, IDENTITY_TOP_ENTRIES as int)),
        pages_placed(
            identity_places(root as int, tables, IDENTITY_TOP_ENTRIES as int),
            root as int,
            1,
            0,
            2,
        ),
{
    let places = identity_places(root as int, tables, IDENTITY_TOP_ENTRIES as int);
    assert forall|k: int| 0 <= k < tables.len() implies root + 2 * PAGE_SIZE <= #[trigger] tables[k] by {
        assert(identity_subtree(memory, root as int, tables, k));
    }
    lemma_identity_places(root as int, tables, IDENTITY_TOP_ENTRIES as int);
    assert(reach(1) == 0x80_0000_0000);
    assert(reach(2) == 0x4000_0000);
    assert forall|k: int| 0 <= k < 2 implies #[trigger] place_known(
        places,
        root + k * PAGE_SIZE,
        1,
        0 + k * reach(1),
    ) by {}
    assert forall|t: int| #[trigger] places.contains_key(t) implies tree_table(
        memory,
        pool,
        places,
        t,
    ) by {
        if t == root || t == root + PAGE_SIZE {
            let first: int = if t == root {
                0
            } else {
                512
            };
            assert forall|i: int| 0 <= i < TABLE_ENTRIES implies #[trigger] tree_entry(
                memory,
                places,
                t,
                i,
            ) by {
                let k = first + i;
                assert(memory.entry(t, i) == memory.entry(root as int, k));
                assert(identity_subtree(memory, root as int, tables, k));
                lemma_table_descriptor(tables[k]);
                assert(place_known(places, tables[k] as int, 2, k * 0x4000_0000));
                assert(entry_span(1) == 0x4000_0000);
                assert(places[t].base + i * entry_span(1) == k * 0x4000_0000) by (nonlinear_arith)
                    requires
                        places[t].base == first * 0x4000_0000,
                        k == first + i,
                        entry_span(1) == 0x4000_0000,
                ;
            }
        } else {
            let k = choose|k: int| 0 <= k < IDENTITY_TOP_ENTRIES && t == #[trigger] tables[k];
            assert(identity_subtree(memory, root as int, tables, k));
            assert(place_known(places, tables[k] as int, 2, k * 0x4000_0000));
            lemma_mod_multiples_basic(k, 0x4000_0000);
            assert forall|i: int| 0 <= i < TABLE_ENTRIES implies #[trigger] tree_entry(
                memory,
                places,
                t,
                i,
            ) by {
                assert(memory.entry(t, i) == identity_block(k, i));
                let block = (((k * TABLE_ENTRIES + i) * BLOCK_SIZE) as u64);
                lemma_identity_block(block);
                let request = stage_2_request(PERMISSION_ALL, false, false, IDENTITY_T0SZ);
                lemma_block_leaf(request, block);
                let descriptor = identity_block(k, i);
                assert(descriptor & 3 == 1 ==> descriptor & 3 != 3) by (bit_vector);
            }
        }
    }
}

/// Builds the stage-2 tables that map the first tebibyte of intermediate
/// physical addresses onto itself, with 2 MiB blocks that are readable,
/// writable, executable and cacheable, and points `VTCR_EL2` and
/// `VTTBR_EL2` to them.
///
/// The call asks that the machine's physical addresses have 40 bits at the
/// least.
#[verifier::rlimit(40)]
pub fn setup_stage_2_translation(machine: &mut Machine) -> (done: Result<(), ()>)
    requires
        old(machine).allocator.well_formed(),
        old(machine).registers.id_aa64mmfr0_el1 % 16 >= IDENTITY_PS,
    ensures
        done is Ok <==> setup_stage_2_result(old(machine)@).ok,
        final(machine)@ == setup_stage_2_result(old(machine)@).machine,
        final(machine).allocator.well_formed(),
        final(machine)@.memory.same_extent(old(machine)@.memory),
        done is Ok ==> forall|address: u64|
            address < IDENTITY_SIZE ==> #[trigger] maps_onto_itself(final(machine)@, address),
        done is Ok ==> exists|levels: Map<int, int>| stage_2_forest(final(machine)@, levels),
        done is Ok ==> exists|places: Map<int, Place>| stage_2_tree(final(machine)@, places),
{
    proof {
        lemma_alignment_of_bits(12);
        lemma_alignment_of_bits(13);
        lemma_aligned_frames(machine.allocator, 2, 1u64 << 13);
    }
    let table_address: u64 = match allocate_page_table_for_stage_2(
        &mut machine.allocator,
        IDENTITY_FIRST_LEVEL,
        IDENTITY_T0SZ,
        true,
        2,
    ) {
        Err(_) => {
            return Err(());
        },
        Ok(address) => address,
    };
    if !machine.memory.contains(table_address, IDENTITY_TOP_ENTRIES) {
        return Err(());
    }
    let attribute: u64 = create_attributes_for_stage_2(PERMISSION_ALL, false, false, true);
    let ghost top = stage_2_table(
        old(machine).allocator,
        IDENTITY_FIRST_LEVEL as int,
        IDENTITY_T0SZ as int,
        true,
        2,
    );
    let ghost goal = identity_tables(old(machine)@.memory, top.pool, table_address as int, 0);
    let ghost mut tables: Seq<u64> = Seq::empty();
    let mut physical_address: u64 = 0;
    let mut i: u64 = 0;
    while i < IDENTITY_TOP_ENTRIES
        invariant
            i <= IDENTITY_TOP_ENTRIES,
            machine.registers == old(machine).registers,
            machine.allocator.well_formed(),
            machine@.memory.same_extent(old(machine)@.memory),
            attribute == stage_2_attributes(PERMISSION_ALL, false, false, true),
            physical_address == i * TABLE_ENTRIES * BLOCK_SIZE,
            table_address % PAGE_SIZE == 0,
            table_address < PHYSICAL_ADDRESS_LIMIT,
            table_address + 8 * IDENTITY_TOP_ENTRIES <= machine.allocator.next,
            identity_tables(machine@.memory, machine.allocator, table_address as int, i as int)
                == goal,
            tables.len() == i,
            identity_tree(machine@.memory, table_address as int, tables),
            forall|k: int| 0 <= k < tables.len() ==> #[trigger] tables[k] + 8 * TABLE_ENTRIES
                <= machine.allocator.next,
            forall|j: int, k: int| 0 <= j < k < tables.len() ==> tables[j] < tables[k],
            top == stage_2_table(
                old(machine).allocator,
                IDENTITY_FIRST_LEVEL as int,
                IDENTITY_T0SZ as int,
                true,
                2,
            ),
            top.table == Some(table_address),
            old(machine)@.memory.holds(table_address as int, IDENTITY_TOP_ENTRIES as int),
            goal == identity_tables(old(machine)@.memory, top.pool, table_address as int, 0),
        decreases IDENTITY_TOP_ENTRIES - i,
    {
        proof {
            lemma_alignment_of_bits(12);
            lemma_aligned_frames(machine.allocator, 1, 1u64 << 12);
        }
        let second_table_address: u64 = match allocate_page_table_for_stage_2(
            &mut machine.allocator,
            IDENTITY_FIRST_LEVEL + 1,
            IDENTITY_T0SZ,
            false,
            1,
        ) {
            Err(_) => {
                return Err(());
            },
            Ok(address) => address,
        };
        if !machine.memory.contains(second_table_address, TABLE_ENTRIES) {
            return Err(());
        }
        let ghost before = machine@.memory;
        let ghost pool = machine.allocator;
        let mut j: u64 = 0;
        proof {
            lemma_write_run_empty(before, second_table_address as int, 0);
            assert(identity_run(i as int, 0) =~= Seq::<u64>::empty());
        }
        while j < TABLE_ENTRIES
            invariant
                j <= TABLE_ENTRIES,
                i < IDENTITY_TOP_ENTRIES,
                machine.registers == old(machine).registers,
                machine.allocator == pool,
                attribute == stage_2_attributes(PERMISSION_ALL, false, false, true),
                physical_address == (i * TABLE_ENTRIES + j) * BLOCK_SIZE,
                before.holds(second_table_address as int, TABLE_ENTRIES as int),
                machine@.memory == before.write_run(
                    second_table_address as int,
                    0,
                    identity_run(i as int, j as int),
                ),
            decreases TABLE_ENTRIES - j,
        {
            let entry: u64 = physical_address | attribute;
            proof {
                lemma_write_run_push(
                    before,
                    second_table_address as int,
                    0,
                    identity_run(i as int, j as int),
                    entry,
                );
                assert(identity_run(i as int, j as int).push(entry) =~= identity_run(
                    i as int,
                    j + 1,
                ));
            }
            machine.memory.write_entry(second_table_address, j, entry);
            physical_address = physical_address + BLOCK_SIZE;
            j += 1;
        }
        let ghost filled = machine@.memory;
        machine.memory.write_entry(
            table_address,
            i,
            second_table_address | DESCRIPTOR_TABLE_OR_PAGE,
        );
        proof {
            let root = table_address as int;
            let frame = second_table_address as int;
            let run = identity_run(i as int, TABLE_ENTRIES as int);
            let linked = machine@.memory;
            let grown = tables.push(second_table_address);
            assert forall|k: int| 0 <= k < grown.len() implies #[trigger] identity_subtree(
                linked,
                root,
                grown,
                k,
            ) by {
                if k < tables.len() {
                    assert(identity_subtree(before, root, tables, k));
                    assert(tables[k] + 8 * TABLE_ENTRIES <= frame);
                    lemma_entry_outside_run(before, frame, run, root, k);
                    lemma_entry_beside_write(
                        filled,
                        root,
                        i as int,
                        second_table_address | DESCRIPTOR_TABLE_OR_PAGE,
                        root,
                        k,
                    );
                    assert forall|j: int| 0 <= j < TABLE_ENTRIES implies #[trigger] linked.entry(
                        tables[k] as int,
                        j,
                    ) == identity_block(k, j) by {
                        lemma_entry_outside_run(before, frame, run, tables[k] as int, j);
                        lemma_entry_beside_write(
                            filled,
                            root,
                            i as int,
                            second_table_address | DESCRIPTOR_TABLE_OR_PAGE,
                            tables[k] as int,
                            j,
                        );
                    }
                } else {
                    lemma_entry_written(
                        filled,
                        root,
                        i as int,
                        second_table_address | DESCRIPTOR_TABLE_OR_PAGE,
                    );
                    assert forall|j: int| 0 <= j < TABLE_ENTRIES implies #[trigger] linked.entry(
                        frame,
                        j,
                    ) == identity_block(k, j) by {
                        lemma_entry_inside_run(before, frame, run, j);
                        lemma_entry_beside_write(
                            filled,
                            root,
                            i as int,
                            second_table_address | DESCRIPTOR_TABLE_OR_PAGE,
                            frame,
                            j,
                        );
                    }
                }
            }
            tables = grown;
        }
        i += 1;
    }
    machine.registers.vtcr_el2 = make_stage_2_control(IDENTITY_PS, IDENTITY_SL0, IDENTITY_T0SZ);
    machine.registers.vttbr_el2 = table_address;
    proof {
        assert forall|address: u64| address < IDENTITY_SIZE implies #[trigger] maps_onto_itself(
            machine@,
            address,
        ) by {
            lemma_identity_walk(machine@.memory, table_address, tables, address);
        }
        lemma_identity_forest(machine@.memory, machine.allocator, table_address, tables);
        assert(stage_2_forest(machine@, identity_levels(table_address as int, tables)));
        lemma_identity_placed(machine@.memory, machine.allocator, table_address, tables);
        assert(stage_2_tree(
            machine@,
            identity_places(table_address as int, tables, IDENTITY_TOP_ENTRIES as int),
        ));
    }
    Ok(())
}

/// `VTCR_EL2` with the given `PS`, `SL0` and `T0SZ`.
pub fn make_stage_2_control(ps: u8, sl0: u8, t0sz: u8) -> (control: u64)
    requires
        ps < 8,
        sl0 < 4,
        t0sz < 64,
    ensures
        control == stage_2_control(ps, sl0, t0sz),
        t0sz_of(control) == t0sz,
        sl0_of(control) == sl0,
{
    VTCR_EL2_RES1 + 0xf * 0x200_0000 + (ps as u64) * 0x1_0000 + 0x3 * 0x1000 + 0x1 * 0x400 + 0x1
        * 0x100 + (sl0 as u64) * 0x40 + t0sz as u64
}

} // verus!
