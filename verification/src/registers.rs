//! The system registers that the paging code reads and writes, as values, and
//! what their fields say about the translation tables.

use vstd::prelude::*;
use crate::descriptor::{MAIR_DEVICE, MAIR_NORMAL};

verus! {

/// The bit of `VTCR_EL2` that reads as one.
pub const VTCR_EL2_RES1: u64 = 0x8000_0000;

/// The system registers of the translation regimes of EL2.
#[derive(Clone, Copy, Debug, PartialEq, Eq, Structural)]
pub struct SystemRegisters {
    pub tcr_el2: u64,
    pub ttbr0_el2: u64,
    pub mair_el2: u64,
    pub vtcr_el2: u64,
    pub vttbr_el2: u64,
    pub id_aa64mmfr0_el1: u64,
}

/// A translation table base register.
pub struct TTBR(pub u64);

/// The table address in a translation table base register: the register
/// without its ASID and its CnP bit.
pub open spec fn ttbr_base_address(ttbr: u64) -> u64 {
    (ttbr % 0x1_0000_0000_0000 / 2 * 2) as u64
}

impl TTBR {
    /// The register with value `ttbr`.
    pub fn new(ttbr: u64) -> (register: TTBR)
        ensures
            register.0 == ttbr,
    {
        TTBR(ttbr)
    }

    /// The address of the table that the register points to.
    pub fn get_base_address(&self) -> (address: u64)
        ensures
            address == ttbr_base_address(self.0),
    {
        self.0 % 0x1_0000_0000_0000 / 2 * 2
    }
}

/// `T0SZ` of a translation control register: bits 5:0.
pub open spec fn t0sz_of(control: u64) -> u64 {
    control % 64
}

/// `TG0` of a translation control register: bits 15:14.
pub open spec fn tg0_of(control: u64) -> u64 {
    control / 0x4000 % 4
}

/// `PS` of a translation control register: bits 18:16.
pub open spec fn ps_of(control: u64) -> u64 {
    control / 0x1_0000 % 8
}

/// `DS` of `TCR_EL2`: bit 32.
pub open spec fn ds_of(control: u64) -> u64 {
    control / 0x1_0000_0000 % 2
}

/// `SL0` of `VTCR_EL2`: bits 7:6.
pub open spec fn sl0_of(control: u64) -> u64 {
    control / 64 % 4
}

/// `control` with `T0SZ` replaced by `t0sz`.
pub open spec fn with_t0sz(control: u64, t0sz: u64) -> u64 {
    (control - control % 64 + t0sz) as u64
}

/// The bits of an address that select a byte in a granule, by `TG0`.
pub open spec fn granule_shift(control: u64) -> u64 {
    (12 + 2 * tg0_of(control)) as u64
}

/// The level at which a walk starts under `tcr_el2`: the input address has
/// `64 - T0SZ` bits, the lowest `granule_shift` of them select a byte, and
/// each level resolves `granule_shift - 3` of the rest, the last level being
/// level 3.
pub open spec fn initial_level(tcr_el2: u64) -> int {
    let shift = granule_shift(tcr_el2) as int;
    let resolved = 64 - t0sz_of(tcr_el2) - shift - 1;
    if resolved < 0 {
        3
    } else {
        3 - resolved / (shift - 3)
    }
}

/// The bits of an address below those that select an entry of the table at
/// which a walk starts under `tcr_el2`.
pub open spec fn initial_shift(tcr_el2: u64) -> int {
    let shift = granule_shift(tcr_el2) as int;
    shift + (shift - 3) * (3 - initial_level(tcr_el2))
}

/// `T0SZ` of a translation control register.
pub fn get_t0sz(control: u64) -> (t0sz: u8)
    ensures
        t0sz == t0sz_of(control),
{
    (control % 64) as u8
}

/// `TG0` of a translation control register.
pub fn get_tg0(control: u64) -> (tg0: u8)
    ensures
        tg0 == tg0_of(control),
{
    (control / 0x4000 % 4) as u8
}

/// `PS` of a translation control register.
pub fn get_ps(control: u64) -> (ps: u8)
    ensures
        ps == ps_of(control),
{
    (control / 0x1_0000 % 8) as u8
}

/// `DS` of `TCR_EL2`.
pub fn get_ds(control: u64) -> (ds: u8)
    ensures
        ds == ds_of(control),
{
    (control / 0x1_0000_0000 % 2) as u8
}

/// `SL0` of `VTCR_EL2`.
pub fn get_sl0(control: u64) -> (sl0: u8)
    ensures
        sl0 == sl0_of(control),
{
    (control / 64 % 4) as u8
}

/// `control` with `T0SZ` replaced by `t0sz`.
pub fn set_t0sz(control: u64, t0sz: u8) -> (changed: u64)
    requires
        t0sz < 64,
    ensures
        changed == with_t0sz(control, t0sz as u64),
        t0sz_of(changed) == t0sz,
{
    control - control % 64 + t0sz as u64
}

/// The level at which a walk of the stage-1 tables of EL2 starts, and the
/// bits of an address below those that select an entry of that table.
pub fn get_initial_page_table_level_and_bits_to_shift(tcr_el2: u64) -> (start: (i8, u64))
    ensures
        start.0 == initial_level(tcr_el2),
        start.1 == initial_shift(tcr_el2),
        -2 <= start.0 <= 3,
{
    let t0sz: u64 = get_t0sz(tcr_el2) as u64;
    let page_shift: u64 = 12 + 2 * (get_tg0(tcr_el2) as u64);
    let first_level: i8 = if 64 - t0sz < page_shift + 1 {
        3
    } else {
        let resolved: u64 = 64 - t0sz - page_shift - 1;
        let below: u64 = resolved / (page_shift - 3);
        assert(below <= 5) by (nonlinear_arith)
            requires
                resolved <= 51,
                9 <= page_shift - 3,
                below == resolved / ((page_shift - 3) as u64),
        ;
        3 - (below as i8)
    };
    let steps: u64 = (3 - first_level) as u64;
    assert((page_shift - 3) * steps <= 75) by (nonlinear_arith)
        requires
            steps <= 5,
            page_shift - 3 <= 15,
    ;
    (first_level, page_shift + (page_shift - 3) * steps)
}

/// The index of the first field that holds `wanted`, among the fields of
/// `MAIR_EL2` from field `index` on, `mair` holding them from its low byte
/// on.
pub open spec fn first_attribute_index(mair: u64, wanted: u64, index: int) -> Option<u8>
    decreases 8 - index,
{
    if index >= 8 || index < 0 {
        None
    } else if mair % 256 == wanted {
        Some(index as u8)
    } else {
        first_attribute_index(mair / 256, wanted, index + 1)
    }
}

/// The attribute that `MAIR_EL2` must hold for device memory, or for normal
/// memory.
pub open spec fn wanted_attribute(is_device: bool) -> u64 {
    if is_device {
        MAIR_DEVICE
    } else {
        MAIR_NORMAL
    }
}

/// The index of the first field of `mair_el2` that holds Device-nGnRnE (for
/// a device) or normal write-back cacheable memory; an error where no field
/// holds it.
pub fn get_suitable_memory_attribute_index_from_mair_el2(mair_el2: u64, is_device: bool) -> (index:
    Result<u8, ()>)
    ensures
        match first_attribute_index(mair_el2, wanted_attribute(is_device), 0) {
            Some(i) => index == Ok::<u8, ()>(i) && i < 8,
            None => index is Err,
        },
{
    let wanted: u64 = if is_device {
        MAIR_DEVICE
    } else {
        MAIR_NORMAL
    };
    let mut rest: u64 = mair_el2;
    let mut index: u8 = 0;
    while index < 8
        invariant
            index <= 8,
            wanted == wanted_attribute(is_device),
            first_attribute_index(rest, wanted, index as int) == first_attribute_index(
                mair_el2,
                wanted,
                0,
            ),
        decreases 8 - index,
    {
        if rest % 256 == wanted {
            return Ok(index);
        }
        rest = rest / 256;
        index += 1;
    }
    Err(())
}

/// The level at which a walk of the stage-2 tables starts, by `SL0` with a
/// 4 KiB granule.
pub open spec fn stage_2_initial_level(sl0: u64) -> int {
    if sl0 == 0 {
        2
    } else if sl0 == 1 {
        1
    } else if sl0 == 2 {
        0
    } else {
        3
    }
}

/// The level at which a walk of the stage-2 tables starts under `vtcr_el2`.
pub fn get_stage_2_initial_level(vtcr_el2: u64) -> (level: i8)
    ensures
        level == stage_2_initial_level(sl0_of(vtcr_el2)),
        0 <= level <= 3,
{
    let sl0 = get_sl0(vtcr_el2);
    if sl0 == 0 {
        2
    } else if sl0 == 1 {
        1
    } else if sl0 == 2 {
        0
    } else {
        3
    }
}

/// How many address bits the table at which a stage-2 walk starts resolves
/// beyond the nine of one table, where the walk starts at `level` and the
/// input address has `64 - t0sz` bits.
pub open spec fn concatenation_bits(t0sz: int, level: int) -> int {
    let top = 43 - 9 * (3 - level);
    if t0sz > top {
        0
    } else {
        top - t0sz
    }
}

/// Two to the power of `bits`, for `bits` up to four.
pub open spec fn tables_for(bits: int) -> u8 {
    if bits <= 0 {
        1
    } else if bits == 1 {
        2
    } else if bits == 2 {
        4
    } else if bits == 3 {
        8
    } else {
        16
    }
}

/// How many tables lie one behind the other at the level at which a stage-2
/// walk starts; an error where the architecture's limit of sixteen would be
/// passed.
pub fn calculate_number_of_concatenated_page_tables(t0sz: u8, initial_lookup_level: i8) -> (tables:
    Result<u8, ()>)
    requires
        0 <= initial_lookup_level <= 3,
    ensures
        tables is Ok <==> concatenation_bits(t0sz as int, initial_lookup_level as int) <= 4,
        tables is Ok ==> tables == Ok::<u8, ()>(
            tables_for(concatenation_bits(t0sz as int, initial_lookup_level as int)),
        ),
{
    let top: u8 = 43 - 9 * ((3 - initial_lookup_level) as u8);
    if t0sz > top {
        return Ok(1);
    }
    let bits: u8 = top - t0sz;
    if bits == 0 {
        Ok(1)
    } else if bits == 1 {
        Ok(2)
    } else if bits == 2 {
        Ok(4)
    } else if bits == 3 {
        Ok(8)
    } else if bits == 4 {
        Ok(16)
    } else {
        Err(())
    }
}

} // verus!
