//! Reading a tree of translation tables: the leaf that maps an address.

use vstd::prelude::*;
use crate::descriptor::{
    entry_span, extract_output_address, is_block, is_block_descriptor,
    is_descriptor_table_or_level_3_descriptor, is_table_or_page, output_address,
    table_level_to_entry_span,
};
use crate::mapping::table_index;
use crate::memory::{MemoryView, PhysicalMemory, PAGE_SIZE, TABLE_ENTRIES};

verus! {

/// The descriptor that maps an address, and the level of the table that
/// holds it.
pub struct Leaf {
    pub level: int,
    pub descriptor: u64,
}

/// The leaf that maps `address` in the tree whose top is the table of
/// `table_len` entries at `table`, at `level`: the walk follows table
/// descriptors down to a block or, at level 3, to a page. `None` where it
/// meets an invalid entry or a table that does not lie in memory.
pub open spec fn walk(memory: MemoryView, table: int, level: int, table_len: int, address: u64) -> Option<
    Leaf,
>
    decreases 3 - level,
{
    let descriptor = memory.entry(table, table_index(address, level, table_len));
    if table_len < 1 || !memory.holds(table, table_len) {
        None
    } else if level >= 3 {
        if is_table_or_page(descriptor) {
            Some(Leaf { level: 3, descriptor })
        } else {
            None
        }
    } else if is_block(descriptor) {
        Some(Leaf { level, descriptor })
    } else if is_table_or_page(descriptor) {
        walk(
            memory,
            output_address(descriptor, PAGE_SIZE) as int,
            level + 1,
            TABLE_ENTRIES as int,
            address,
        )
    } else {
        None
    }
}

impl Leaf {
    /// The first output address of what the leaf maps.
    pub open spec fn output_base(self) -> u64 {
        output_address(self.descriptor, entry_span(self.level))
    }

    /// The output address that the leaf gives `address`.
    pub open spec fn output(self, address: u64) -> int {
        self.output_base() + address % entry_span(self.level)
    }

    /// The leaf's bits apart from its output address.
    pub open spec fn attributes(self) -> u64 {
        self.descriptor ^ self.output_base()
    }
}

/// Finds the leaf that maps `address` in the tree whose top are the
/// `concatenated_tables` tables that lie from `table_address` on, at
/// `table_level`, and returns its level and its descriptor.
pub fn find_leaf(
    memory: &PhysicalMemory,
    table_address: u64,
    table_level: i8,
    concatenated_tables: u8,
    address: u64,
) -> (leaf: Option<(i8, u64)>)
    requires
        -2 <= table_level <= 3,
    ensures
        match walk(
            memory@,
            table_address as int,
            table_level as int,
            TABLE_ENTRIES * concatenated_tables,
            address,
        ) {
            Some(found) => leaf == Some((found.level as i8, found.descriptor)) && table_level
                <= found.level <= 3,
            None => leaf is None,
        },
{
    let mut table: u64 = table_address;
    let mut level: i8 = table_level;
    let mut table_len: u64 = TABLE_ENTRIES * (concatenated_tables as u64);
    loop
        invariant
            table_level <= level <= 3,
            -2 <= table_level,
            table_len <= TABLE_ENTRIES * 255,
            walk(memory@, table as int, level as int, table_len as int, address) == walk(
                memory@,
                table_address as int,
                table_level as int,
                TABLE_ENTRIES * concatenated_tables,
                address,
            ),
        decreases 3 - level,
    {
        if table_len < 1 || !memory.contains(table, table_len) {
            return None;
        }
        let span: u64 = table_level_to_entry_span(level);
        let index: u64 = (address / span) % table_len;
        let descriptor: u64 = memory.read_entry(table, index);
        if level == 3 {
            if is_descriptor_table_or_level_3_descriptor(descriptor) {
                return Some((3, descriptor));
            }
            return None;
        }
        if is_block_descriptor(descriptor) {
            return Some((level, descriptor));
        }
        if !is_descriptor_table_or_level_3_descriptor(descriptor) {
            return None;
        }
        table = extract_output_address(descriptor, PAGE_SIZE);
        level = level + 1;
        table_len = TABLE_ENTRIES;
    }
}

/// The output address that the leaf `descriptor`, found at `level`, gives
/// `address`.
pub fn leaf_output_address(level: i8, descriptor: u64, address: u64) -> (output: u64)
    requires
        -2 <= level <= 3,
    ensures
        output == (Leaf { level: level as int, descriptor }).output(address),
{
    let span: u64 = table_level_to_entry_span(level);
    let base: u64 = extract_output_address(descriptor, span);
    assert(base <= 0x0003_ffff_ffff_ffff) by (bit_vector)
        requires
            base == descriptor & (0x0003_ffff_ffff_ffffu64 & !((span - 1) as u64)),
    ;
    base + address % span
}

/// The bits of a leaf that say how its range is mapped: all but the output
/// address, the two bits of the descriptor's kind, nT and the contiguous
/// bit.
pub const ATTRIBUTE_MASK: u64 = 0xffec_0000_0000_0ffc;

/// What a walk translates an address to: the output address, and the bits
/// of the leaf under `ATTRIBUTE_MASK`.
pub struct Translation {
    pub output: int,
    pub attributes: u64,
}

/// What a leaf translates `address` to.
pub open spec fn translation_of(leaf: Option<Leaf>, address: u64) -> Option<Translation> {
    match leaf {
        Some(found) => Some(
            Translation {
                output: found.output(address),
                attributes: found.descriptor & ATTRIBUTE_MASK,
            },
        ),
        None => None,
    }
}

/// What the tree whose top is the table of `table_len` entries at `table`
/// translates `address` to; `None` where the address is not mapped.
pub open spec fn translate(
    memory: MemoryView,
    table: int,
    level: int,
    table_len: int,
    address: u64,
) -> Option<Translation> {
    translation_of(walk(memory, table, level, table_len, address), address)
}

/// Translates `address` by the tree whose top are the
/// `concatenated_tables` tables that lie from `table_address` on, at
/// `table_level`: the output address, and the attributes of the leaf.
pub fn translate_address(
    memory: &PhysicalMemory,
    table_address: u64,
    table_level: i8,
    concatenated_tables: u8,
    address: u64,
) -> (translation: Option<(u64, u64)>)
    requires
        -2 <= table_level <= 3,
    ensures
        match translate(
            memory@,
            table_address as int,
            table_level as int,
            TABLE_ENTRIES * concatenated_tables,
            address,
        ) {
            Some(found) => translation == Some((found.output as u64, found.attributes))
                && found.output <= u64::MAX,
            None => translation is None,
        },
{
    match find_leaf(memory, table_address, table_level, concatenated_tables, address) {
        None => None,
        Some((level, descriptor)) => Some(
            (leaf_output_address(level, descriptor, address), descriptor & ATTRIBUTE_MASK),
        ),
    }
}

} // verus!
