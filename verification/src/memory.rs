//! Physical memory as the paging code sees it: a window of 64-bit words, and
//! a pool that hands out page frames.

use vstd::prelude::*;

verus! {

/// Bytes in a page frame and in a translation table.
pub const PAGE_SIZE: u64 = 0x1000;

/// Bytes in a descriptor.
pub const WORD_SIZE: u64 = 8;

/// Descriptors in one translation table.
pub const TABLE_ENTRIES: u64 = 512;

/// No frame of a pool lies at or above this address: a table's address must
/// fit a translation table base register and a table descriptor.
pub const PHYSICAL_ADDRESS_LIMIT: u64 = 0x1_0000_0000_0000;

/// A window of physical memory as a value: the address of its first word and
/// the words.
pub struct MemoryView {
    pub base: int,
    pub words: Seq<u64>,
}

impl MemoryView {
    /// Whether `count` words from `address` on lie in the window, `address`
    /// being a whole number of words above the window's base.
    pub open spec fn holds(self, address: int, count: int) -> bool {
        &&& self.base <= address
        &&& (address - self.base) % 8 == 0
        &&& 0 <= count
        &&& (address - self.base) / 8 + count <= self.words.len()
    }

    /// The place in `words` of entry `index` of the table at `table`.
    pub open spec fn slot(self, table: int, index: int) -> int {
        (table - self.base) / 8 + index
    }

    /// Entry `index` of the table at `table`.
    pub open spec fn entry(self, table: int, index: int) -> u64 {
        self.words[self.slot(table, index)]
    }

    /// The window with entry `index` of the table at `table` set to `value`.
    pub open spec fn write_entry(self, table: int, index: int, value: u64) -> MemoryView {
        MemoryView { base: self.base, words: self.words.update(self.slot(table, index), value) }
    }

    /// The window with the entries of the table at `table` from `index` on
    /// set to `values`.
    pub open spec fn write_run(self, table: int, index: int, values: Seq<u64>) -> MemoryView {
        let start = self.slot(table, index);
        MemoryView {
            base: self.base,
            words: Seq::new(
                self.words.len(),
                |i: int|
                    if start <= i < start + values.len() {
                        values[i - start]
                    } else {
                        self.words[i]
                    },
            ),
        }
    }

    /// Whether the two windows cover the same addresses.
    pub open spec fn same_extent(self, other: MemoryView) -> bool {
        self.base == other.base && self.words.len() == other.words.len()
    }
}

/// A window of physical memory: the words from address `base` on.
pub struct PhysicalMemory {
    pub base: u64,
    pub words: Vec<u64>,
}

impl View for PhysicalMemory {
    type V = MemoryView;

    open spec fn view(&self) -> MemoryView {
        MemoryView { base: self.base as int, words: self.words@ }
    }
}

impl PhysicalMemory {
    /// A window of `words` zeroed words from `base` on.
    pub fn new(base: u64, words: usize) -> (memory: PhysicalMemory)
        ensures
            memory@.base == base,
            memory@.words == Seq::new(words as nat, |i: int| 0u64),
    {
        let mut cells: Vec<u64> = Vec::new();
        while cells.len() < words
            invariant
                cells@.len() <= words,
                forall|i: int| 0 <= i < cells@.len() ==> cells@[i] == 0,
            decreases words - cells@.len(),
        {
            cells.push(0);
        }
        proof {
            assert(cells@ =~= Seq::new(words as nat, |i: int| 0u64));
        }
        PhysicalMemory { base, words: cells }
    }

    /// Whether `count` words from `address` on lie in the window.
    pub fn contains(&self, address: u64, count: u64) -> (inside: bool)
        ensures
            inside == self@.holds(address as int, count as int),
    {
        if address < self.base {
            return false;
        }
        let offset: u64 = address - self.base;
        if offset % WORD_SIZE != 0 {
            return false;
        }
        let first: u64 = offset / WORD_SIZE;
        let len: u64 = self.words.len() as u64;
        count <= len && first <= len - count
    }

    /// Reads entry `index` of the table at `table`.
    pub fn read_entry(&self, table: u64, index: u64) -> (value: u64)
        requires
            self@.holds(table as int, index + 1),
        ensures
            value == self@.entry(table as int, index as int),
    {
        let first: u64 = (table - self.base) / WORD_SIZE;
        assert(first == (table as int - self.base as int) / 8);
        assert(first + index + 1 <= self.words.len());
        self.words[(first + index) as usize]
    }

    /// Writes `value` to entry `index` of the table at `table`.
    pub fn write_entry(&mut self, table: u64, index: u64, value: u64)
        requires
            old(self)@.holds(table as int, index + 1),
        ensures
            final(self)@ == old(self)@.write_entry(table as int, index as int, value),
    {
        let first: u64 = (table - self.base) / WORD_SIZE;
        assert(first == (table as int - self.base as int) / 8);
        assert(first + index + 1 <= self.words.len());
        self.words.set((first + index) as usize, value);
    }

    /// Reads the word at `address`, where the window has it.
    pub fn read(&self, address: u64) -> (value: Option<u64>)
        ensures
            value == if self@.holds(address as int, 1) {
                Some(self@.entry(address as int, 0))
            } else {
                None
            },
    {
        if self.contains(address, 1) {
            Some(self.read_entry(address, 0))
        } else {
            None
        }
    }
}

/// A pool of page frames that lie one behind the other: the address of the
/// next free frame, and how many are left.
#[derive(Clone, Copy, Debug, PartialEq, Eq, Structural)]
pub struct FramePool {
    pub next: u64,
    pub remaining: u64,
}

impl FramePool {
    /// The address after the pool's last frame.
    pub open spec fn end(self) -> int {
        self.next + self.remaining * PAGE_SIZE
    }

    /// The pool's frames lie below `PHYSICAL_ADDRESS_LIMIT`.
    pub open spec fn well_formed(self) -> bool {
        self.end() <= PHYSICAL_ADDRESS_LIMIT
    }

    /// The pool after `pages` frames have been taken from it.
    pub open spec fn after(self, pages: u64) -> FramePool {
        FramePool {
            next: (self.next + pages * PAGE_SIZE) as u64,
            remaining: (self.remaining - pages) as u64,
        }
    }

    /// A pool of `pages` frames from `start` on; `None` where they would not
    /// lie below `PHYSICAL_ADDRESS_LIMIT`.
    pub fn new(start: u64, pages: u64) -> (pool: Option<FramePool>)
        ensures
            pool is Some <==> start + pages * PAGE_SIZE <= PHYSICAL_ADDRESS_LIMIT,
            pool is Some ==> pool->0 == (FramePool { next: start, remaining: pages })
                && pool->0.well_formed(),
    {
        if start > PHYSICAL_ADDRESS_LIMIT || pages > (PHYSICAL_ADDRESS_LIMIT - start) / PAGE_SIZE {
            return None;
        }
        Some(FramePool { next: start, remaining: pages })
    }

    /// Takes `pages` frames that lie one behind the other and returns the
    /// address of the first; an error, and nothing taken, where fewer are
    /// left.
    pub fn allocate(&mut self, pages: u64) -> (frame: Result<u64, ()>)
        requires
            old(self).well_formed(),
        ensures
            final(self).well_formed(),
            frame is Ok <==> pages <= old(self).remaining,
            frame is Ok ==> frame == Ok::<u64, ()>(old(self).next) && *final(self) == old(
                self,
            ).after(pages),
            frame is Err ==> *final(self) == *old(self),
    {
        if self.remaining < pages {
            return Err(());
        }
        let frame: u64 = self.next;
        self.next = self.next + pages * PAGE_SIZE;
        self.remaining = self.remaining - pages;
        Ok(frame)
    }
}

} // verus!
