//! Translation-table descriptors of the VMSAv8-64 long format with a 4 KiB
//! granule: their bits, the attributes of a mapping, and what the system
//! registers say about the tables.

use vstd::prelude::*;

verus! {

/// The two low bits of a descriptor.
pub const DESCRIPTOR_TYPE_MASK: u64 = 0b11;

/// The low bits of a table descriptor, and of a page descriptor at level 3.
pub const DESCRIPTOR_TABLE_OR_PAGE: u64 = 0b11;

/// The low bits of a block descriptor.
pub const DESCRIPTOR_BLOCK: u64 = 0b01;

/// Bits 49:0 of a descriptor.
pub const OUTPUT_ADDRESS_LIMIT_MASK: u64 = 0x0003_ffff_ffff_ffff;

/// The contiguous bit: this entry is one of sixteen that map one aligned run.
pub const PAGE_DESCRIPTORS_CONTIGUOUS: u64 = 0x0010_0000_0000_0000;

/// The nT bit of a block descriptor.
pub const PAGE_DESCRIPTORS_NT: u64 = 0x1_0000;

/// The execute-never bit of a stage-1 descriptor (bit 54).
pub const PAGE_DESCRIPTORS_XN: u64 = 0x0040_0000_0000_0000;

/// The access flag (bit 10).
pub const PAGE_DESCRIPTORS_AF: u64 = 0x400;

/// Inner shareable, in the shareability field (bits 9:8).
pub const PAGE_DESCRIPTORS_SH_INNER_SHAREABLE: u64 = 0x300;

/// Read-only, in the stage-1 access-permission field (bits 7:6).
pub const PAGE_DESCRIPTORS_AP_READ_ONLY: u64 = 0x80;

/// Readable, in the stage-2 access-permission field (bit 6).
pub const PAGE_DESCRIPTORS_S2AP_READ: u64 = 0x40;

/// Writable, in the stage-2 access-permission field (bit 7).
pub const PAGE_DESCRIPTORS_S2AP_WRITE: u64 = 0x80;

/// Normal memory, write-back cacheable, in the stage-2 memory-attribute
/// field (bits 5:2).
pub const PAGE_DESCRIPTORS_S2_NORMAL: u64 = 0x3c;

/// Normal memory, not cacheable, in the stage-2 memory-attribute field.
pub const PAGE_DESCRIPTORS_S2_NON_CACHEABLE: u64 = 0x14;

/// The `MAIR_EL2` attribute of Device-nGnRnE memory.
pub const MAIR_DEVICE: u64 = 0x00;

/// The `MAIR_EL2` attribute of normal write-back cacheable memory.
pub const MAIR_NORMAL: u64 = 0xff;

/// Whether the low bits of `descriptor` are those of a table descriptor
/// (above level 3) or of a page descriptor (at level 3).
pub open spec fn is_table_or_page(descriptor: u64) -> bool {
    descriptor & DESCRIPTOR_TYPE_MASK == DESCRIPTOR_TABLE_OR_PAGE
}

/// Whether the low bits of `descriptor` are those of a block descriptor.
pub open spec fn is_block(descriptor: u64) -> bool {
    descriptor & DESCRIPTOR_TYPE_MASK == DESCRIPTOR_BLOCK
}

/// The bytes that one entry of a table at `level` maps: 4 KiB at level 3 and
/// 512 times as much at each level above. Levels -2 to 3 are given.
pub open spec fn entry_span(level: int) -> u64 {
    if level >= 3 {
        0x1000
    } else if level == 2 {
        0x20_0000
    } else if level == 1 {
        0x4000_0000
    } else if level == 0 {
        0x80_0000_0000
    } else if level == -1 {
        0x1_0000_0000_0000
    } else {
        0x200_0000_0000_0000
    }
}

/// The bits of an address below those that an entry of a table at `level`
/// maps: 12 at level 3 and 9 more at each level above.
pub open spec fn level_shift(level: int) -> u64 {
    if level >= 3 {
        12
    } else if level == 2 {
        21
    } else if level == 1 {
        30
    } else if level == 0 {
        39
    } else if level == -1 {
        48
    } else {
        57
    }
}

/// Bits 49 down to the bits that `span` covers, `span` being a power of two.
pub open spec fn output_address_mask(span: u64) -> u64 {
    OUTPUT_ADDRESS_LIMIT_MASK & !((span - 1) as u64)
}

/// The output address in `descriptor`, for an entry that maps `span` bytes.
pub open spec fn output_address(descriptor: u64, span: u64) -> u64 {
    descriptor & output_address_mask(span)
}

/// Whether a descriptor's low bits are those of a table descriptor or of a
/// level-3 page descriptor.
pub fn is_descriptor_table_or_level_3_descriptor(descriptor: u64) -> (table_or_page: bool)
    ensures
        table_or_page == is_table_or_page(descriptor),
{
    descriptor & DESCRIPTOR_TYPE_MASK == DESCRIPTOR_TABLE_OR_PAGE
}

/// Whether a descriptor's low bits are those of a block descriptor.
pub fn is_block_descriptor(descriptor: u64) -> (block: bool)
    ensures
        block == is_block(descriptor),
{
    descriptor & DESCRIPTOR_TYPE_MASK == DESCRIPTOR_BLOCK
}

/// The bytes that one entry of a table at `table_level` maps.
pub fn table_level_to_entry_span(table_level: i8) -> (span: u64)
    requires
        -2 <= table_level <= 3,
    ensures
        span == entry_span(table_level as int),
{
    if table_level == 3 {
        0x1000
    } else if table_level == 2 {
        0x20_0000
    } else if table_level == 1 {
        0x4000_0000
    } else if table_level == 0 {
        0x80_0000_0000
    } else if table_level == -1 {
        0x1_0000_0000_0000
    } else {
        0x200_0000_0000_0000
    }
}

/// The bits of an address below those that select an entry of a table at
/// `table_level`.
pub fn table_level_to_table_shift(table_level: i8) -> (shift: u64)
    requires
        -2 <= table_level <= 3,
    ensures
        shift == level_shift(table_level as int),
{
    if table_level == 3 {
        12
    } else if table_level == 2 {
        21
    } else if table_level == 1 {
        30
    } else if table_level == 0 {
        39
    } else if table_level == -1 {
        48
    } else {
        57
    }
}

/// The output address of a descriptor whose entry maps `span` bytes: bits 49
/// down to the lowest bit that `span` does not cover. A table descriptor is
/// read with the span of a page.
pub fn extract_output_address(descriptor: u64, span: u64) -> (address: u64)
    requires
        span > 0,
    ensures
        address == output_address(descriptor, span),
{
    descriptor & (OUTPUT_ADDRESS_LIMIT_MASK & !(span - 1))
}

/// Whether a permission mask allows reading.
pub open spec fn allows_read(permission: u8) -> bool {
    permission % 2 == 1
}

/// Whether a permission mask allows writing.
pub open spec fn allows_write(permission: u8) -> bool {
    permission / 2 % 2 == 1
}

/// Whether a permission mask allows execution.
pub open spec fn allows_execute(permission: u8) -> bool {
    permission / 4 % 2 == 1
}

/// The permission mask of a mapping that can be read, written, executed.
pub open spec fn permission_mask(readable: bool, writable: bool, executable: bool) -> u8 {
    ((if readable {
        1int
    } else {
        0int
    }) + (if writable {
        2int
    } else {
        0int
    }) + (if executable {
        4int
    } else {
        0int
    })) as u8
}

/// Packs three permissions into a mask: bit 0 for reading, bit 1 for
/// writing, bit 2 for execution.
pub fn create_permission(readable: bool, writable: bool, executable: bool) -> (permission: u8)
    ensures
        permission == permission_mask(readable, writable, executable),
        allows_read(permission) == readable,
        allows_write(permission) == writable,
        allows_execute(permission) == executable,
{
    let r: u8 = if readable {
        1
    } else {
        0
    };
    let w: u8 = if writable {
        2
    } else {
        0
    };
    let x: u8 = if executable {
        4
    } else {
        0
    };
    r + w + x
}

/// The low bits of a leaf: those of a block with the nT bit, or those of a
/// page.
pub open spec fn leaf_kind_bits(is_block_entry: bool) -> u64 {
    if is_block_entry {
        0x1_0001
    } else {
        0x3
    }
}

/// The attributes of a stage-1 leaf of EL2: execute-never unless execution
/// is allowed, the access flag, inner shareable, bit 6 (which this regime
/// keeps set), read-only unless writing is allowed, the index into
/// `MAIR_EL2` in bits 4:2, and the leaf's kind.
pub open spec fn stage_1_attributes(permission: u8, memory_attribute: u8, is_block_entry: bool) -> u64 {
    ((if allows_execute(permission) {
        0
    } else {
        PAGE_DESCRIPTORS_XN
    }) + PAGE_DESCRIPTORS_AF + PAGE_DESCRIPTORS_SH_INNER_SHAREABLE + 0x40 + (if allows_write(
        permission,
    ) {
        0
    } else {
        PAGE_DESCRIPTORS_AP_READ_ONLY
    }) + (memory_attribute % 8) * 4 + leaf_kind_bits(is_block_entry)) as u64
}

/// The attributes of a stage-2 leaf: execute-never unless execution is
/// allowed, the access flag unless the leaf is to fault on every access,
/// inner shareable, the read and write permissions in bits 7:6, normal
/// memory (write-back cacheable, or not cacheable for a dummy page) in bits
/// 5:2, and the leaf's kind.
pub open spec fn stage_2_attributes(
    permission: u8,
    is_dummy_page: bool,
    is_unmap: bool,
    is_block_entry: bool,
) -> u64 {
    ((if allows_execute(permission) {
        0
    } else {
        PAGE_DESCRIPTORS_XN
    }) + (if is_unmap {
        0
    } else {
        PAGE_DESCRIPTORS_AF
    }) + PAGE_DESCRIPTORS_SH_INNER_SHAREABLE + (if allows_read(permission) {
        PAGE_DESCRIPTORS_S2AP_READ
    } else {
        0
    }) + (if allows_write(permission) {
        PAGE_DESCRIPTORS_S2AP_WRITE
    } else {
        0
    }) + (if is_dummy_page {
        PAGE_DESCRIPTORS_S2_NON_CACHEABLE
    } else {
        PAGE_DESCRIPTORS_S2_NORMAL
    }) + leaf_kind_bits(is_block_entry)) as u64
}

/// The attribute bits of a stage-1 leaf.
pub fn create_attributes_for_stage_1(
    permission: u8,
    memory_attribute: u8,
    is_block_entry: bool,
) -> (attributes: u64)
    ensures
        attributes == stage_1_attributes(permission, memory_attribute, is_block_entry),
{
    let xn: u64 = if permission / 4 % 2 == 1 {
        0
    } else {
        PAGE_DESCRIPTORS_XN
    };
    let ap: u64 = if permission / 2 % 2 == 1 {
        0
    } else {
        PAGE_DESCRIPTORS_AP_READ_ONLY
    };
    let kind: u64 = if is_block_entry {
        PAGE_DESCRIPTORS_NT + DESCRIPTOR_BLOCK
    } else {
        DESCRIPTOR_TABLE_OR_PAGE
    };
    xn + PAGE_DESCRIPTORS_AF + PAGE_DESCRIPTORS_SH_INNER_SHAREABLE + 0x40 + ap + ((memory_attribute
        % 8) as u64) * 4 + kind
}

/// The attribute bits of a stage-2 leaf.
pub fn create_attributes_for_stage_2(
    permission: u8,
    is_dummy_page: bool,
    is_unmap: bool,
    is_block_entry: bool,
) -> (attributes: u64)
    ensures
        attributes == stage_2_attributes(permission, is_dummy_page, is_unmap, is_block_entry),
{
    let xn: u64 = if permission / 4 % 2 == 1 {
        0
    } else {
        PAGE_DESCRIPTORS_XN
    };
    let af: u64 = if is_unmap {
        0
    } else {
        PAGE_DESCRIPTORS_AF
    };
    let read: u64 = if permission % 2 == 1 {
        PAGE_DESCRIPTORS_S2AP_READ
    } else {
        0
    };
    let write: u64 = if permission / 2 % 2 == 1 {
        PAGE_DESCRIPTORS_S2AP_WRITE
    } else {
        0
    };
    let memory: u64 = if is_dummy_page {
        PAGE_DESCRIPTORS_S2_NON_CACHEABLE
    } else {
        PAGE_DESCRIPTORS_S2_NORMAL
    };
    let kind: u64 = if is_block_entry {
        PAGE_DESCRIPTORS_NT + DESCRIPTOR_BLOCK
    } else {
        DESCRIPTOR_TABLE_OR_PAGE
    };
    xn + af + PAGE_DESCRIPTORS_SH_INNER_SHAREABLE + read + write + memory + kind
}

} // verus!
