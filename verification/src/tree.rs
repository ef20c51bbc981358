//! Trees of translation tables by what they map: each table has a level
//! and the first address of the range that it maps, so that no table serves
//! two ranges; and what a walk of such a tree translates an address to.

use vstd::prelude::*;
use vstd::arithmetic::div_mod::{
    lemma_fundamental_div_mod, lemma_fundamental_div_mod_converse_div,
    lemma_fundamental_div_mod_converse_mod, lemma_mod_mod, lemma_mod_multiples_vanish,
};
use crate::descriptor::{
    entry_span, is_block, is_table_or_page, output_address, output_address_mask,
    PAGE_DESCRIPTORS_CONTIGUOUS, PAGE_DESCRIPTORS_NT,
};
use crate::forest::outside_pool;
use crate::mapping::{table_index, MapRequest};
use crate::memory::{FramePool, MemoryView, PAGE_SIZE, PHYSICAL_ADDRESS_LIMIT, TABLE_ENTRIES};
use crate::walk::{walk, Translation, ATTRIBUTE_MASK};

verus! {

/// Where a table stands in a tree: its level, and the first address of the
/// range that it maps.
pub struct Place {
    pub level: int,
    pub base: int,
}

/// The bytes that a table of 512 entries at `level` maps.
pub open spec fn reach(level: int) -> int {
    TABLE_ENTRIES * entry_span(level)
}

/// Whether `places` has the table at `table`, at `level` and for the range
/// from `base` on.
pub open spec fn place_known(places: Map<int, Place>, table: int, level: int, base: int) -> bool {
    places.contains_key(table) && places[table] == (Place { level, base })
}

/// Whether the range of a table at `place` holds `address`.
pub open spec fn place_holds(place: Place, address: int) -> bool {
    place.base <= address < place.base + reach(place.level)
}

/// Whether a table at `place` lies beside the range from `low` up to `high`
/// of tables at `level`: above that level, or with a range of its own that
/// shares nothing with the range.
pub open spec fn beside(place: Place, level: int, low: int, high: int) -> bool {
    place.level < level || place.base + reach(place.level) <= low || high <= place.base
}

/// Whether the block `descriptor` of a table at `level` has no address bits
/// below what a block of that level maps: in bits 49:12 below the block's
/// own address only nT may be set.
pub open spec fn valid_block(descriptor: u64, level: int) -> bool {
    descriptor & (output_address_mask(PAGE_SIZE) & !output_address_mask(entry_span(level))
        & !PAGE_DESCRIPTORS_NT) == 0
}

/// Whether entry `i` of the table at `table` is as an entry of a tree must
/// be: a table descriptor leads to the table of `places` for the range of
/// the entry, one level down; a block has no stray address bits.
pub open spec fn tree_entry(memory: MemoryView, places: Map<int, Place>, table: int, i: int) -> bool {
    let descriptor = memory.entry(table, i);
    let place = places[table];
    &&& is_table_or_page(descriptor) ==> place_known(
        places,
        output_address(descriptor, PAGE_SIZE) as int,
        place.level + 1,
        place.base + i * entry_span(place.level),
    )
    &&& is_block(descriptor) ==> valid_block(descriptor, place.level)
}

/// Whether the table at `table` is as a table of a tree must be: at a
/// multiple of the page size, in memory, outside the free frames, at one of
/// the levels 0 to 3, for a range that starts at a multiple of its size, and
/// with entries as `tree_entry` asks where it is above level 3.
pub open spec fn tree_table(
    memory: MemoryView,
    pool: FramePool,
    places: Map<int, Place>,
    table: int,
) -> bool {
    &&& 0 <= table
    &&& table % (PAGE_SIZE as int) == 0
    &&& memory.holds(table, TABLE_ENTRIES as int)
    &&& outside_pool(pool, table)
    &&& 0 <= places[table].level <= 3
    &&& 0 <= places[table].base
    &&& places[table].base % reach(places[table].level) == 0
    &&& (places[table].level < 3 ==> forall|i: int|
        0 <= i < TABLE_ENTRIES ==> #[trigger] tree_entry(memory, places, table, i))
}

/// Whether `places` describes a tree of tables in `memory`.
pub open spec fn tree(memory: MemoryView, pool: FramePool, places: Map<int, Place>) -> bool {
    forall|table: int| #[trigger]
        places.contains_key(table) ==> tree_table(memory, pool, places, table)
}

/// Whether `later` has every table of `places`, at the same place.
pub open spec fn extends(places: Map<int, Place>, later: Map<int, Place>) -> bool {
    forall|table: int| #[trigger]
        places.contains_key(table) ==> later.contains_key(table) && later[table] == places[table]
}

/// Whether the `pages` page-sized tables that lie from `table` on are
/// tables of `places` at `level`, one for each stretch of the range from
/// `first` on.
pub open spec fn pages_placed(
    places: Map<int, Place>,
    table: int,
    level: int,
    first: int,
    pages: int,
) -> bool {
    forall|k: int|
        0 <= k < pages ==> #[trigger] place_known(
            places,
            table + k * PAGE_SIZE,
            level,
            first + k * reach(level),
        )
}

/// Whether the tables of `places` that lie beside the range from `low` up
/// to `high` of tables at `level` are the same in both memories.
pub open spec fn same_beside(
    before: MemoryView,
    after: MemoryView,
    places: Map<int, Place>,
    level: int,
    low: int,
    high: int,
) -> bool {
    forall|table: int, i: int|
        places.contains_key(table) && beside(places[table], level, low, high) && 0 <= i
            < TABLE_ENTRIES ==> #[trigger] after.entry(table, i) == before.entry(table, i)
}

/// Where `base` is a multiple of `count` spans and `a` lies less than
/// `count` spans above it, the spans below `a` count, modulo `count`, the
/// spans between `base` and `a`.
pub proof fn lemma_index_of(a: int, base: int, span: int, count: int)
    requires
        span > 0,
        count > 0,
        0 <= base,
        base % (count * span) == 0,
        base <= a < base + count * span,
    ensures
        (a / span) % count == (a - base) / span,
        0 <= (a - base) / span < count,
        base + ((a - base) / span) * span <= a < base + ((a - base) / span) * span + span,
        (base + ((a - base) / span) * span) % span == 0,
{
    let whole = count * span;
    assert(whole > 0) by (nonlinear_arith)
        requires
            whole == count * span,
            count > 0,
            span > 0,
    ;
    lemma_fundamental_div_mod(base, whole);
    let q = base / whole;
    let offset = a - base;
    lemma_fundamental_div_mod(offset, span);
    let i = offset / span;
    let r = offset % span;
    assert(0 <= i < count) by (nonlinear_arith)
        requires
            offset == span * i + r,
            0 <= r < span,
            0 <= offset < count * span,
            span > 0,
    ;
    assert(a == (q * count + i) * span + r) by (nonlinear_arith)
        requires
            base == whole * q + 0,
            whole == count * span,
            offset == span * i + r,
            a == base + offset,
    ;
    lemma_fundamental_div_mod_converse_div(a, span, q * count + i, r);
    lemma_fundamental_div_mod_converse_mod(q * count + i, count, q, i);
    assert(base + i * span == (q * count + i) * span + 0) by (nonlinear_arith)
        requires
            base == whole * q + 0,
            whole == count * span,
    ;
    lemma_fundamental_div_mod_converse_mod(base + i * span, span, q * count + i, 0);
    assert(base + i * span <= a < base + i * span + span) by (nonlinear_arith)
        requires
            a == base + offset,
            offset == span * i + r,
            0 <= r < span,
    ;
}

/// In a table for the range from `base` on, the entry that maps an address
/// of that range is the one for the address's stretch of the range.
pub proof fn lemma_index_in_place(address: u64, level: int, base: int)
    requires
        0 <= level <= 3,
        0 <= base,
        base % reach(level) == 0,
        base <= address < base + reach(level),
    ensures
        ({
            let index = table_index(address, level, TABLE_ENTRIES as int);
            let span = entry_span(level) as int;
            &&& 0 <= index < TABLE_ENTRIES
            &&& index == (address - base) / span
            &&& base + index * span <= address < base + index * span + span
            &&& (level < 3 ==> (base + index * span) % reach(level + 1) == 0)
            &&& (level < 3 ==> reach(level + 1) == span)
        }),
{
    lemma_index_of(address as int, base, entry_span(level) as int, 512);
}

/// A walk finds the same in two memories that agree on the tables at its
/// level and below whose ranges hold the address.
pub proof fn lemma_walk_framed(
    before: MemoryView,
    after: MemoryView,
    pool: FramePool,
    places: Map<int, Place>,
    table: int,
    level: int,
    base: int,
    address: u64,
)
    requires
        tree(before, pool, places),
        place_known(places, table, level, base),
        base <= address < base + reach(level),
        after.same_extent(before),
        forall|t: int, i: int|
            places.contains_key(t) && places[t].level >= level && place_holds(
                places[t],
                address as int,
            ) && 0 <= i < TABLE_ENTRIES ==> #[trigger] after.entry(t, i) == before.entry(t, i),
    ensures
        walk(after, table, level, TABLE_ENTRIES as int, address) == walk(
            before,
            table,
            level,
            TABLE_ENTRIES as int,
            address,
        ),
    decreases 3 - level,
{
    assert(tree_table(before, pool, places, table));
    lemma_index_in_place(address, level, base);
    let index = table_index(address, level, TABLE_ENTRIES as int);
    let descriptor = before.entry(table, index);
    assert(after.entry(table, index) == descriptor);
    if level < 3 && !is_block(descriptor) && is_table_or_page(descriptor) {
        assert(tree_entry(before, places, table, index));
        lemma_walk_framed(
            before,
            after,
            pool,
            places,
            output_address(descriptor, PAGE_SIZE) as int,
            level + 1,
            base + index * entry_span(level),
            address,
        );
    }
}

/// The attributes of a leaf are a low part below bit 12, with the low bits
/// of the leaf's kind, and at most bit 54 besides.
pub proof fn lemma_attribute_parts(request: MapRequest)
    ensures
        ({
            let page = request.attributes(false);
            let block = request.attributes(true);
            let high: u64 = if crate::descriptor::allows_execute(request.permission) {
                0
            } else {
                0x0040_0000_0000_0000
            };
            &&& page >= high + 3
            &&& (page - high - 3) % 4 == 0
            &&& page - high - 3 < 0x1000 - 3
            &&& block == page - 3 + 0x1_0001
        }),
{
}

/// A page descriptor made of a page-aligned output address and the
/// attributes of a request is a page descriptor, leads to that address,
/// and has the request's attributes, with or without the contiguous bit.
pub proof fn lemma_page_leaf(request: MapRequest, output: u64, contiguous: bool)
    requires
        output % PAGE_SIZE == 0,
        output < PHYSICAL_ADDRESS_LIMIT,
    ensures
        ({
            let plain = output | request.attributes(false);
            let leaf = if contiguous {
                plain | PAGE_DESCRIPTORS_CONTIGUOUS
            } else {
                plain
            };
            &&& is_table_or_page(leaf)
            &&& !is_block(leaf)
            &&& output_address(leaf, PAGE_SIZE) == output
            &&& leaf & ATTRIBUTE_MASK == request.attributes(false) & ATTRIBUTE_MASK
        }),
{
    lemma_attribute_parts(request);
    let attributes = request.attributes(false);
    let high: u64 = if crate::descriptor::allows_execute(request.permission) {
        0
    } else {
        0x0040_0000_0000_0000
    };
    let low: u64 = (attributes - high) as u64;
    assert((PAGE_SIZE - 1) as u64 == 0xfffu64);
    assert({
        let plain = output | attributes;
        let marked = plain | 0x0010_0000_0000_0000u64;
        let mask = 0x0003_ffff_ffff_ffffu64 & !0xfffu64;
        &&& plain & 3 == 3
        &&& plain & 3 != 1
        &&& plain & mask == output
        &&& plain & 0xffec_0000_0000_0ffcu64 == attributes & 0xffec_0000_0000_0ffcu64
        &&& marked & 3 == 3
        &&& marked & 3 != 1
        &&& marked & mask == output
        &&& marked & 0xffec_0000_0000_0ffcu64 == attributes & 0xffec_0000_0000_0ffcu64
    }) by (bit_vector)
        requires
            output % 0x1000 == 0,
            output < 0x1_0000_0000_0000,
            high == 0 || high == 0x0040_0000_0000_0000,
            low < 0x1000,
            low % 4 == 3,
            attributes == high + low,
    ;
}

/// A level-2 block made of an output address that is a multiple of what the
/// block maps and the attributes of a request is a valid block, leads to
/// that address, and has the request's attributes.
pub proof fn lemma_block_leaf(request: MapRequest, output: u64)
    requires
        output % entry_span(2) == 0,
        output < PHYSICAL_ADDRESS_LIMIT,
    ensures
        ({
            let leaf = output | request.attributes(true);
            &&& is_block(leaf)
            &&& !is_table_or_page(leaf)
            &&& output_address(leaf, entry_span(2)) == output
            &&& leaf & ATTRIBUTE_MASK == request.attributes(false) & ATTRIBUTE_MASK
            &&& valid_block(leaf, 2)
        }),
{
    lemma_attribute_parts(request);
    let page = request.attributes(false);
    let block = request.attributes(true);
    let high: u64 = if crate::descriptor::allows_execute(request.permission) {
        0
    } else {
        0x0040_0000_0000_0000
    };
    let low: u64 = (page - high - 3) as u64;
    assert((PAGE_SIZE - 1) as u64 == 0xfffu64);
    assert((entry_span(2) - 1) as u64 == 0x1f_ffffu64);
    assert({
        let leaf = output | block;
        let wide = 0x0003_ffff_ffff_ffffu64 & !0xfffu64;
        let narrow = 0x0003_ffff_ffff_ffffu64 & !0x1f_ffffu64;
        &&& leaf & 3 == 1
        &&& leaf & 3 != 3
        &&& leaf & narrow == output
        &&& leaf & 0xffec_0000_0000_0ffcu64 == page & 0xffec_0000_0000_0ffcu64
        &&& leaf & (wide & !narrow & !0x1_0000u64) == 0
    }) by (bit_vector)
        requires
            output % 0x20_0000 == 0,
            output < 0x1_0000_0000_0000,
            high == 0 || high == 0x0040_0000_0000_0000,
            low < 0x1000,
            low % 4 == 0,
            page == high + low + 3,
            block == high + low + 0x1_0001,
    ;
}

/// Clearing the contiguous bit of a descriptor keeps its attributes.
pub proof fn lemma_cleared_attributes(descriptor: u64)
    ensures
        (descriptor & !PAGE_DESCRIPTORS_CONTIGUOUS) & ATTRIBUTE_MASK == descriptor & ATTRIBUTE_MASK,
{
    assert((descriptor & !0x0010_0000_0000_0000u64) & 0xffec_0000_0000_0ffcu64 == descriptor
        & 0xffec_0000_0000_0ffcu64) by (bit_vector);
}

/// The bits of the entries of the table that takes the place of a valid
/// level-2 block: each is a page descriptor that leads 4 KiB further than
/// the one before, with the block's attributes.
pub proof fn lemma_split_to_pages(descriptor: u64, moved: u64)
    requires
        is_block(descriptor),
        valid_block(descriptor, 2),
        moved % PAGE_SIZE == 0,
        moved <= crate::descriptor::OUTPUT_ADDRESS_LIMIT_MASK,
    ensures
        ({
            let kept = descriptor ^ output_address(descriptor, entry_span(2));
            let entry = moved | ((kept | 3) & !PAGE_DESCRIPTORS_NT);
            &&& is_table_or_page(entry)
            &&& !is_block(entry)
            &&& output_address(entry, PAGE_SIZE) == moved
            &&& entry & ATTRIBUTE_MASK == descriptor & ATTRIBUTE_MASK
            &&& output_address(descriptor, entry_span(2)) % entry_span(2) == 0
            &&& output_address(descriptor, entry_span(2))
                <= crate::descriptor::OUTPUT_ADDRESS_LIMIT_MASK - 0x1f_ffff
        }),
{
    assert((PAGE_SIZE - 1) as u64 == 0xfffu64);
    assert((entry_span(2) - 1) as u64 == 0x1f_ffffu64);
    assert({
        let wide = 0x0003_ffff_ffff_ffffu64 & !0xfffu64;
        let narrow = 0x0003_ffff_ffff_ffffu64 & !0x1f_ffffu64;
        let address = descriptor & narrow;
        let kept = descriptor ^ address;
        let entry = moved | ((kept | 3) & !0x1_0000u64);
        &&& entry & 3 == 3
        &&& entry & 3 != 1
        &&& entry & wide == moved
        &&& entry & 0xffec_0000_0000_0ffcu64 == descriptor & 0xffec_0000_0000_0ffcu64
        &&& address % 0x20_0000 == 0
        &&& address <= 0x0003_ffff_ffff_ffffu64 - 0x1f_ffff
    }) by (bit_vector)
        requires
            descriptor & 3 == 1,
            descriptor & ((0x0003_ffff_ffff_ffffu64 & !0xfffu64) & !(0x0003_ffff_ffff_ffffu64
                & !0x1f_ffffu64) & !0x1_0000u64) == 0,
            moved % 0x1000 == 0,
            moved <= 0x0003_ffff_ffff_ffffu64,
    ;
}

/// The bits of the entries of the table that takes the place of a valid
/// level-1 block: each is a valid level-2 block that leads 2 MiB further
/// than the one before, with the block's attributes.
pub proof fn lemma_split_level_1(descriptor: u64, moved: u64)
    requires
        is_block(descriptor),
        valid_block(descriptor, 1),
        moved % entry_span(2) == 0,
        moved <= crate::descriptor::OUTPUT_ADDRESS_LIMIT_MASK,
    ensures
        ({
            let kept = descriptor ^ output_address(descriptor, entry_span(1));
            let entry = moved | kept;
            &&& is_block(entry)
            &&& !is_table_or_page(entry)
            &&& output_address(entry, entry_span(2)) == moved
            &&& entry & ATTRIBUTE_MASK == descriptor & ATTRIBUTE_MASK
            &&& valid_block(entry, 2)
            &&& output_address(descriptor, entry_span(1)) % entry_span(1) == 0
            &&& output_address(descriptor, entry_span(1))
                <= crate::descriptor::OUTPUT_ADDRESS_LIMIT_MASK - 0x3fff_ffff
        }),
{
    assert((PAGE_SIZE - 1) as u64 == 0xfffu64);
    assert((entry_span(2) - 1) as u64 == 0x1f_ffffu64);
    assert((entry_span(1) - 1) as u64 == 0x3fff_ffffu64);
    assert({
        let wide = 0x0003_ffff_ffff_ffffu64 & !0xfffu64;
        let narrow = 0x0003_ffff_ffff_ffffu64 & !0x1f_ffffu64;
        let address = descriptor & (0x0003_ffff_ffff_ffffu64 & !0x3fff_ffffu64);
        let kept = descriptor ^ address;
        let entry = moved | kept;
        &&& entry & 3 == 1
        &&& entry & 3 != 3
        &&& entry & narrow == moved
        &&& entry & 0xffec_0000_0000_0ffcu64 == descriptor & 0xffec_0000_0000_0ffcu64
        &&& entry & (wide & !narrow & !0x1_0000u64) == 0
        &&& address % 0x4000_0000 == 0
        &&& address <= 0x0003_ffff_ffff_ffffu64 - 0x3fff_ffff
    }) by (bit_vector)
        requires
            descriptor & 3 == 1,
            descriptor & ((0x0003_ffff_ffff_ffffu64 & !0xfffu64) & !(0x0003_ffff_ffff_ffffu64
                & !0x3fff_ffffu64) & !0x1_0000u64) == 0,
            moved % 0x20_0000 == 0,
            moved <= 0x0003_ffff_ffff_ffffu64,
    ;
}

/// The bits of the entries of the table that takes the place of a valid
/// level-0 block: each is a valid level-1 block that leads 1 GiB further
/// than the one before, with the block's attributes.
pub proof fn lemma_split_level_0(descriptor: u64, moved: u64)
    requires
        is_block(descriptor),
        valid_block(descriptor, 0),
        moved % entry_span(1) == 0,
        moved <= crate::descriptor::OUTPUT_ADDRESS_LIMIT_MASK,
    ensures
        ({
            let kept = descriptor ^ output_address(descriptor, entry_span(0));
            let entry = moved | kept;
            &&& is_block(entry)
            &&& !is_table_or_page(entry)
            &&& output_address(entry, entry_span(1)) == moved
            &&& entry & ATTRIBUTE_MASK == descriptor & ATTRIBUTE_MASK
            &&& valid_block(entry, 1)
            &&& output_address(descriptor, entry_span(0)) % entry_span(0) == 0
            &&& output_address(descriptor, entry_span(0))
                <= crate::descriptor::OUTPUT_ADDRESS_LIMIT_MASK - 0x7f_ffff_ffff
        }),
{
    assert((PAGE_SIZE - 1) as u64 == 0xfffu64);
    assert((entry_span(1) - 1) as u64 == 0x3fff_ffffu64);
    assert((entry_span(0) - 1) as u64 == 0x7f_ffff_ffffu64);
    assert({
        let wide = 0x0003_ffff_ffff_ffffu64 & !0xfffu64;
        let narrow = 0x0003_ffff_ffff_ffffu64 & !0x3fff_ffffu64;
        let address = descriptor & (0x0003_ffff_ffff_ffffu64 & !0x7f_ffff_ffffu64);
        let kept = descriptor ^ address;
        let entry = moved | kept;
        &&& entry & 3 == 1
        &&& entry & 3 != 3
        &&& entry & narrow == moved
        &&& entry & 0xffec_0000_0000_0ffcu64 == descriptor & 0xffec_0000_0000_0ffcu64
        &&& entry & (wide & !narrow & !0x1_0000u64) == 0
        &&& address % 0x80_0000_0000 == 0
        &&& address <= 0x0003_ffff_ffff_ffffu64 - 0x7f_ffff_ffff
    }) by (bit_vector)
        requires
            descriptor & 3 == 1,
            descriptor & ((0x0003_ffff_ffff_ffffu64 & !0xfffu64) & !(0x0003_ffff_ffff_ffffu64
                & !0x7f_ffff_ffffu64) & !0x1_0000u64) == 0,
            moved % 0x4000_0000 == 0,
            moved <= 0x0003_ffff_ffff_ffffu64,
    ;
}

/// What an entry of a table at `level` that is no table descriptor
/// translates `address` to: a block translates it to as far into the
/// block's output as the address is into what the block maps; anything else
/// does not map it.
pub open spec fn entry_translation(descriptor: u64, level: int, address: u64) -> Option<
    Translation,
> {
    if is_block(descriptor) {
        Some(
            Translation {
                output: output_address(descriptor, entry_span(level)) + address % entry_span(level),
                attributes: descriptor & ATTRIBUTE_MASK,
            },
        )
    } else {
        None
    }
}

/// Two multiples of `s` that differ differ by `s` at the least.
pub proof fn lemma_multiples_apart(x: int, y: int, s: int)
    requires
        s > 0,
        x % s == 0,
        y % s == 0,
        x < y,
    ensures
        x + s <= y,
{
    lemma_fundamental_div_mod(x, s);
    lemma_fundamental_div_mod(y, s);
    let qx = x / s;
    let qy = y / s;
    assert(qx < qy) by (nonlinear_arith)
        requires
            x == s * qx,
            y == s * qy,
            x < y,
            s > 0,
    ;
    assert(x + s <= y) by (nonlinear_arith)
        requires
            x == s * qx,
            y == s * qy,
            qx + 1 <= qy,
            s > 0,
    ;
}

/// A stretch of `small` bytes at a multiple of `small` that holds an
/// address outside a stretch of `big` bytes, whose ends are multiples of
/// `small` too, shares nothing with that stretch.
pub proof fn lemma_stretch_apart(base: int, small: int, slot_low: int, big: int, address: int)
    requires
        small > 0,
        base % small == 0,
        slot_low % small == 0,
        (slot_low + big) % small == 0,
        base <= address < base + small,
        !(slot_low <= address < slot_low + big),
    ensures
        base + small <= slot_low || slot_low + big <= base,
{
    if address < slot_low {
        lemma_multiples_apart(base, slot_low, small);
    } else {
        if base < slot_low + big {
            lemma_multiples_apart(base, slot_low + big, small);
        }
    }
}

/// A multiple of `big` is a multiple of each `s` that `big` is a multiple
/// of, and so is the multiple of `big` that follows it.
pub proof fn lemma_aligned_to(x: int, big: int, s: int, m: int)
    requires
        s > 0,
        m > 0,
        big == s * m,
        x % big == 0,
    ensures
        x % s == 0,
        (x + big) % s == 0,
{
    lemma_mod_mod(x, s, m);
    lemma_mod_multiples_vanish(m, x, s);
    assert(s * m + x == x + big);
}

/// The range of a table below `level` that holds an address outside the
/// stretch of one entry of a table at `level` shares nothing with that
/// stretch.
#[verifier::rlimit(40)]
pub proof fn lemma_range_apart(place: Place, level: int, slot_low: int, address: int)
    requires
        0 <= level < place.level <= 3,
        place.base % reach(place.level) == 0,
        slot_low % (entry_span(level) as int) == 0,
        place_holds(place, address),
        !(slot_low <= address < slot_low + entry_span(level)),
    ensures
        place.base + reach(place.level) <= slot_low || slot_low + entry_span(level) <= place.base,
{
    if level == 0 {
        if place.level == 1 {
            lemma_aligned_to(slot_low, 0x80_0000_0000, 0x80_0000_0000, 1);
            lemma_stretch_apart(place.base, 0x80_0000_0000, slot_low, 0x80_0000_0000, address);
        } else if place.level == 2 {
            lemma_aligned_to(slot_low, 0x80_0000_0000, 0x4000_0000, 512);
            lemma_stretch_apart(place.base, 0x4000_0000, slot_low, 0x80_0000_0000, address);
        } else {
            lemma_aligned_to(slot_low, 0x80_0000_0000, 0x20_0000, 0x4_0000);
            lemma_stretch_apart(place.base, 0x20_0000, slot_low, 0x80_0000_0000, address);
        }
    } else if level == 1 {
        if place.level == 2 {
            lemma_aligned_to(slot_low, 0x4000_0000, 0x4000_0000, 1);
            lemma_stretch_apart(place.base, 0x4000_0000, slot_low, 0x4000_0000, address);
        } else {
            lemma_aligned_to(slot_low, 0x4000_0000, 0x20_0000, 512);
            lemma_stretch_apart(place.base, 0x20_0000, slot_low, 0x4000_0000, address);
        }
    } else {
        lemma_aligned_to(slot_low, 0x20_0000, 0x20_0000, 1);
        lemma_stretch_apart(place.base, 0x20_0000, slot_low, 0x20_0000, address);
    }
}

} // verus!
