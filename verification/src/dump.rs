//! A listing of the stage-1 tables of EL2, entry by entry, for diagnosis.
//! The listing is a value; printing it is left to the caller.

use vstd::prelude::*;
use crate::descriptor::{extract_output_address, output_address};
use crate::memory::{MemoryView, PhysicalMemory, PAGE_SIZE, TABLE_ENTRIES};
use crate::paging::{Machine, MachineView};
use crate::registers::{
    ds_of, first_attribute_index, get_ds, get_initial_page_table_level_and_bits_to_shift, get_ps,
    get_suitable_memory_attribute_index_from_mair_el2, get_t0sz, get_tg0, granule_shift,
    initial_level, ps_of, t0sz_of, tg0_of, ttbr_base_address, wanted_attribute, TTBR,
};

verus! {

/// What an entry of a table is.
#[derive(Clone, Copy, Debug, PartialEq, Eq, Structural)]
pub enum DumpKind {
    /// Bit 0 is clear.
    Invalid,
    /// Bit 0 is set and bit 1 is clear, at the last level.
    Reserved,
    /// A page descriptor.
    Page,
    /// A block descriptor.
    Block,
    /// A table descriptor; the entries of its table follow.
    Table,
    /// A table descriptor whose table does not lie in memory.
    Missing,
}

/// One line of a listing: an entry, the addresses that it maps, and how deep
/// in the tree it stands.
#[derive(Clone, Copy, Debug, PartialEq, Eq, Structural)]
pub struct DumpLine {
    pub indent: u8,
    pub start: u64,
    pub end: u64,
    pub kind: DumpKind,
    pub descriptor: u64,
    pub output_address: u64,
    pub memory_attribute: u8,
}

/// A listing and the address after the last address that it covers.
pub struct Dump {
    pub lines: Seq<DumpLine>,
    pub next: u64,
}

/// The sum of two addresses within 64 bits.
pub open spec fn wrapped(a: u64, b: u64) -> u64 {
    ((a + b) % 0x1_0000_0000_0000_0000) as u64
}

/// The index into `MAIR_EL2` in a descriptor: bits 4:2.
pub open spec fn attribute_index(descriptor: u64) -> u8 {
    (descriptor / 4 % 8) as u8
}

/// The line of `descriptor`, met at `start` with `levels` levels left to
/// go, each entry mapping `granule` bytes. The last level has pages, the
/// levels above have blocks and tables.
pub open spec fn line_of(descriptor: u64, start: u64, levels: int, indent: u8, granule: u64) -> DumpLine {
    let kind = if descriptor % 2 == 0 {
        DumpKind::Invalid
    } else if descriptor / 2 % 2 == 0 {
        if levels <= 1 {
            DumpKind::Reserved
        } else {
            DumpKind::Block
        }
    } else if levels <= 1 {
        DumpKind::Page
    } else {
        DumpKind::Table
    };
    DumpLine {
        indent,
        start,
        end: wrapped(start, granule),
        kind,
        descriptor,
        output_address: output_address(descriptor, PAGE_SIZE),
        memory_attribute: attribute_index(descriptor),
    }
}

/// The line of a table descriptor whose table does not lie in memory.
pub open spec fn missing(line: DumpLine) -> DumpLine {
    DumpLine { kind: DumpKind::Missing, ..line }
}

/// The indentation one level further down.
pub open spec fn deeper(indent: u8) -> u8 {
    if indent > 253 {
        255
    } else {
        (indent + 2) as u8
    }
}

/// The listing of the table at `table`, whose first entry maps `start`,
/// with `levels` levels left to go: `None` where the table does not lie in
/// memory.
pub open spec fn dump_table(
    memory: MemoryView,
    table: int,
    start: u64,
    levels: int,
    indent: u8,
    granule: u64,
) -> Option<Dump>
    decreases levels, TABLE_ENTRIES + 1,
{
    if !memory.holds(table, TABLE_ENTRIES as int) {
        None
    } else {
        Some(dump_entries(memory, table, start, levels, indent, granule, 0))
    }
}

/// The listing of the table at `table` from entry `index` on, that entry
/// mapping `start`. Each entry has a line; behind the line of a table
/// descriptor stands the listing of its table, one level down.
pub open spec fn dump_entries(
    memory: MemoryView,
    table: int,
    start: u64,
    levels: int,
    indent: u8,
    granule: u64,
    index: int,
) -> Dump
    decreases levels, TABLE_ENTRIES - index,
{
    if index >= TABLE_ENTRIES || index < 0 {
        Dump { lines: Seq::empty(), next: start }
    } else {
        let line = line_of(memory.entry(table, index), start, levels, indent, granule);
        let here = if line.kind == DumpKind::Table {
            match dump_table(
                memory,
                line.output_address as int,
                start,
                levels - 1,
                deeper(indent),
                granule / 512,
            ) {
                Some(below) => Dump { lines: seq![line] + below.lines, next: below.next },
                None => Dump { lines: seq![missing(line)], next: line.end },
            }
        } else {
            Dump { lines: seq![line], next: line.end }
        };
        let rest = dump_entries(memory, table, here.next, levels, indent, granule, index + 1);
        Dump { lines: here.lines + rest.lines, next: rest.next }
    }
}

/// Appends the listing of the table at `table_address` to `lines` and moves
/// `virtual_base_address` past what the table maps. `level` counts the
/// levels that are left, the last level being 1; `space_count` is the
/// indentation and `granule` what an entry of the table maps. Returns
/// whether the table lies in memory; nothing is appended where it does not.
#[verifier::rlimit(40)]
pub fn dump_page_table_recursive(
    memory: &PhysicalMemory,
    table_address: u64,
    virtual_base_address: &mut u64,
    level: u8,
    space_count: u8,
    granule: u64,
    lines: &mut Vec<DumpLine>,
) -> (listed: bool)
    ensures
        match dump_table(
            memory@,
            table_address as int,
            *old(virtual_base_address),
            level as int,
            space_count,
            granule,
        ) {
            Some(dump) => listed && final(lines)@ == old(lines)@ + dump.lines && dump.next
                == *final(virtual_base_address),
            None => !listed && final(lines)@ == old(lines)@ && *final(virtual_base_address)
                == *old(virtual_base_address),
        },
    decreases level,
{
    if !memory.contains(table_address, TABLE_ENTRIES) {
        return false;
    }
    let ghost goal = dump_entries(
        memory@,
        table_address as int,
        *old(virtual_base_address),
        level as int,
        space_count,
        granule,
        0,
    );
    let mut index: u64 = 0;
    proof {
        assert(lines@ + goal.lines == old(lines)@ + goal.lines);
    }
    while index < TABLE_ENTRIES
        invariant
            index <= TABLE_ENTRIES,
            memory@.holds(table_address as int, TABLE_ENTRIES as int),
            goal == dump_entries(
                memory@,
                table_address as int,
                *old(virtual_base_address),
                level as int,
                space_count,
                granule,
                0,
            ),
            lines@ + dump_entries(
                memory@,
                table_address as int,
                *virtual_base_address,
                level as int,
                space_count,
                granule,
                index as int,
            ).lines == old(lines)@ + goal.lines,
            dump_entries(
                memory@,
                table_address as int,
                *virtual_base_address,
                level as int,
                space_count,
                granule,
                index as int,
            ).next == goal.next,
        decreases TABLE_ENTRIES - index,
    {
        let descriptor: u64 = memory.read_entry(table_address, index);
        let start: u64 = *virtual_base_address;
        let kind = if descriptor % 2 == 0 {
            DumpKind::Invalid
        } else if descriptor / 2 % 2 == 0 {
            if level <= 1 {
                DumpKind::Reserved
            } else {
                DumpKind::Block
            }
        } else if level <= 1 {
            DumpKind::Page
        } else {
            DumpKind::Table
        };
        let line = DumpLine {
            indent: space_count,
            start,
            end: start.wrapping_add(granule),
            kind,
            descriptor,
            output_address: extract_output_address(descriptor, PAGE_SIZE),
            memory_attribute: (descriptor / 4 % 8) as u8,
        };
        let ghost before = lines@;
        let ghost rest_before = dump_entries(
            memory@,
            table_address as int,
            start,
            level as int,
            space_count,
            granule,
            index as int,
        );
        let is_table = match kind {
            DumpKind::Table => true,
            _ => false,
        };
        if is_table {
            lines.push(line);
            let deeper_indent: u8 = if space_count > 253 {
                255
            } else {
                space_count + 2
            };
            let listed = dump_page_table_recursive(
                memory,
                line.output_address,
                virtual_base_address,
                level - 1,
                deeper_indent,
                granule / 512,
                lines,
            );
            if !listed {
                let last: usize = lines.len() - 1;
                lines.set(last, DumpLine { kind: DumpKind::Missing, ..line });
                *virtual_base_address = line.end;
                proof {
                    assert(lines@ =~= before + seq![missing(line)]);
                }
            } else {
                proof {
                    let below = dump_table(
                        memory@,
                        line.output_address as int,
                        start,
                        level - 1,
                        deeper(space_count),
                        (granule / 512) as u64,
                    )->0;
                    assert(lines@ =~= before + (seq![line] + below.lines));
                }
            }
        } else {
            lines.push(line);
            *virtual_base_address = line.end;
            proof {
                assert(lines@ =~= before + seq![line]);
            }
        }
        proof {
            let rest_after = dump_entries(
                memory@,
                table_address as int,
                *virtual_base_address,
                level as int,
                space_count,
                granule,
                index + 1,
            );
            let here = lines@.subrange(before.len() as int, lines@.len() as int);
            assert(lines@ =~= before + here);
            assert(rest_before.lines =~= here + rest_after.lines);
            assert(lines@ + rest_after.lines =~= before + rest_before.lines);
        }
        index += 1;
    }
    proof {
        let done = dump_entries(
            memory@,
            table_address as int,
            *virtual_base_address,
            level as int,
            space_count,
            granule,
            TABLE_ENTRIES as int,
        );
        assert(lines@ + done.lines =~= lines@);
    }
    true
}

/// What `dump_page_table` reports: the fields of `TCR_EL2`, the shape of
/// the tree, the index into `MAIR_EL2` for normal memory, the address of the
/// top table, and the listing.
pub struct PageTableDump {
    pub tcr_el2: u64,
    pub ds: u8,
    pub tg0: u8,
    pub t0sz: u8,
    pub ps: u8,
    pub page_shift: u8,
    pub output_address_size: u8,
    /// Whether the granule is one that the listing is made for: a granule of
    /// 64 KiB has no listing.
    pub supported: bool,
    pub paging_level: u8,
    /// What an entry of the top table maps.
    pub top_granule: u64,
    pub mair_el2: u64,
    pub memory_attribute: Option<u8>,
    pub page_table_address: u64,
    /// Whether the top table lies in memory.
    pub listed: bool,
    pub lines: Vec<DumpLine>,
}

/// The bits of physical address that `PS` stands for.
pub open spec fn output_address_bits(ps: u64) -> u8 {
    if ps == 0 {
        32
    } else if ps == 1 {
        36
    } else if ps == 2 {
        40
    } else if ps == 3 {
        42
    } else if ps == 4 {
        44
    } else if ps == 5 {
        48
    } else {
        52
    }
}

/// The bytes of a granule, by the bits that select a byte in it.
pub open spec fn granule_bytes(shift: u64) -> u64 {
    if shift == 12 {
        0x1000
    } else if shift == 14 {
        0x4000
    } else if shift == 16 {
        0x1_0000
    } else {
        0x4_0000
    }
}

/// `granule` times 512 to the power of `steps`, held at the largest 64-bit
/// value where it would pass it.
pub open spec fn scaled(granule: u64, steps: int) -> u64
    decreases steps,
{
    if steps <= 0 {
        granule
    } else if scaled(granule, steps - 1) > u64::MAX / 512 {
        u64::MAX
    } else {
        (scaled(granule, steps - 1) * 512) as u64
    }
}

/// How many levels a walk goes through under `tcr_el2`.
pub open spec fn paging_levels(tcr_el2: u64) -> int {
    4 - initial_level(tcr_el2)
}

/// Whether `dump` is the report on `machine`.
pub open spec fn reports(dump: PageTableDump, machine: MachineView) -> bool {
    let tcr_el2 = machine.registers.tcr_el2;
    let top = scaled(granule_bytes(granule_shift(tcr_el2)), paging_levels(tcr_el2) - 1);
    let listing = dump_table(
        machine.memory,
        ttbr_base_address(machine.registers.ttbr0_el2) as int,
        0,
        paging_levels(tcr_el2),
        0,
        top,
    );
    &&& dump.tcr_el2 == tcr_el2
    &&& dump.ds == ds_of(tcr_el2)
    &&& dump.tg0 == tg0_of(tcr_el2)
    &&& dump.t0sz == t0sz_of(tcr_el2)
    &&& dump.ps == ps_of(tcr_el2)
    &&& dump.page_shift == granule_shift(tcr_el2)
    &&& dump.output_address_size == output_address_bits(ps_of(tcr_el2))
    &&& dump.supported == (granule_shift(tcr_el2) != 16)
    &&& dump.paging_level == paging_levels(tcr_el2)
    &&& dump.top_granule == top
    &&& dump.mair_el2 == machine.registers.mair_el2
    &&& dump.memory_attribute == first_attribute_index(
        machine.registers.mair_el2,
        wanted_attribute(false),
        0,
    )
    &&& dump.page_table_address == ttbr_base_address(machine.registers.ttbr0_el2)
    &&& dump.listed == (dump.supported && listing is Some)
    &&& dump.lines@ == if dump.listed {
        listing->0.lines
    } else {
        Seq::<DumpLine>::empty()
    }
}

/// Reports on the stage-1 tables of EL2: what `TCR_EL2` says, and the
/// listing of the tree of `TTBR0_EL2`.
///
/// The call asks that `TCR_EL2.PS` is not the reserved value 7.
pub fn dump_page_table(machine: &Machine) -> (dump: PageTableDump)
    requires
        ps_of(machine.registers.tcr_el2) != 7,
    ensures
        reports(dump, machine@),
{
    let tcr_el2: u64 = machine.registers.tcr_el2;
    let tg0: u8 = get_tg0(tcr_el2);
    let ps: u8 = get_ps(tcr_el2);
    let page_shift: u8 = 12 + 2 * tg0;
    let output_address_size: u8 = if ps == 0 {
        32
    } else if ps == 1 {
        36
    } else if ps == 2 {
        40
    } else if ps == 3 {
        42
    } else if ps == 4 {
        44
    } else if ps == 5 {
        48
    } else {
        52
    };
    let first_level: i8 = get_initial_page_table_level_and_bits_to_shift(tcr_el2).0;
    let paging_level: u8 = (4 - first_level) as u8;
    let page_bytes: u64 = if page_shift == 12 {
        0x1000
    } else if page_shift == 14 {
        0x4000
    } else if page_shift == 16 {
        0x1_0000
    } else {
        0x4_0000
    };
    let mut base_address: u64 = page_bytes;
    let mut step: u8 = 1;
    while step < paging_level
        invariant
            1 <= step <= paging_level,
            base_address == scaled(page_bytes, step - 1),
        decreases paging_level - step,
    {
        base_address = if base_address > u64::MAX / 512 {
            u64::MAX
        } else {
            base_address * 512
        };
        step += 1;
    }
    let memory_attribute: Option<u8> = match get_suitable_memory_attribute_index_from_mair_el2(
        machine.registers.mair_el2,
        false,
    ) {
        Ok(index) => Some(index),
        Err(_) => None,
    };
    let page_table_address: u64 = TTBR::new(machine.registers.ttbr0_el2).get_base_address();
    let mut lines: Vec<DumpLine> = Vec::new();
    let supported: bool = page_shift != 16;
    let mut listed: bool = false;
    if supported {
        let mut virtual_base_address: u64 = 0;
        listed =
        dump_page_table_recursive(
            &machine.memory,
            page_table_address,
            &mut virtual_base_address,
            paging_level,
            0,
            base_address,
            &mut lines,
        );
        proof {
            assert(Seq::<DumpLine>::empty() + lines@ =~= lines@);
        }
    }
    PageTableDump {
        tcr_el2,
        ds: get_ds(tcr_el2),
        tg0,
        t0sz: get_t0sz(tcr_el2),
        ps,
        page_shift,
        output_address_size,
        supported,
        paging_level,
        top_granule: base_address,
        mair_el2: machine.registers.mair_el2,
        memory_attribute,
        page_table_address,
        listed,
        lines,
    }
}

} // verus!
