//! Flattened device tree: the blob, its tokens and the elementary cursor
//! movements over the structure block.

use vstd::prelude::*;

verus! {

/// Token that opens a node; it is followed by the node's name.
pub const FDT_BEGIN_NODE: u32 = 1;

/// Token that closes a node.
pub const FDT_END_NODE: u32 = 2;

/// Token that opens a property record.
pub const FDT_PROP: u32 = 3;

/// Token without meaning; it may stand wherever a token may stand.
pub const FDT_NOP: u32 = 4;

/// Token that closes the structure block.
pub const FDT_END: u32 = 9;

/// Bytes in a token.
pub const TOKEN_SIZE: u64 = 4;

/// Magic number in the first word of a blob.
pub const DTB_MAGIC: u32 = 0xd00dfeed;

/// Bytes in the fixed header of a blob.
pub const HEADER_SIZE: usize = 40;

/// `#address-cells` in effect below the root unless the root says otherwise.
pub const DEFAULT_ADDRESS_CELLS: u32 = 2;

/// `#size-cells` in effect below the root unless the root says otherwise.
pub const DEFAULT_SIZE_CELLS: u32 = 1;

/// No byte of a blob lies at or above this address.
pub const ADDRESS_LIMIT: u64 = 0x8000_0000_0000_0000;

/// The NUL byte that ends every string of a blob.
pub const NUL: u8 = 0;

/// The byte that parts a node's name from its unit address.
pub const UNIT_ADDRESS_MARK: u8 = 0x40;

/// The bytes of `status`.
pub open spec fn prop_status() -> Seq<u8> {
    seq![0x73u8, 0x74u8, 0x61u8, 0x74u8, 0x75u8, 0x73u8]
}

/// The bytes of `okay`.
pub open spec fn prop_status_okay() -> Seq<u8> {
    seq![0x6fu8, 0x6bu8, 0x61u8, 0x79u8]
}

/// The bytes of `compatible`.
pub open spec fn prop_compatible() -> Seq<u8> {
    seq![0x63u8, 0x6fu8, 0x6du8, 0x70u8, 0x61u8, 0x74u8, 0x69u8, 0x62u8, 0x6cu8, 0x65u8]
}

/// The bytes of `#address-cells`.
pub open spec fn prop_address_cells() -> Seq<u8> {
    seq![
        0x23u8, 0x61u8, 0x64u8, 0x64u8, 0x72u8, 0x65u8, 0x73u8, 0x73u8, 0x2du8, 0x63u8, 0x65u8,
        0x6cu8, 0x6cu8, 0x73u8,
    ]
}

/// The bytes of `#size-cells`.
pub open spec fn prop_size_cells() -> Seq<u8> {
    seq![0x23u8, 0x73u8, 0x69u8, 0x7au8, 0x65u8, 0x2du8, 0x63u8, 0x65u8, 0x6cu8, 0x6cu8, 0x73u8]
}

/// The bytes of `reg`.
pub open spec fn prop_reg() -> Seq<u8> {
    seq![0x72u8, 0x65u8, 0x67u8]
}

/// The 32-bit value whose big-endian bytes are `b0 b1 b2 b3`.
pub open spec fn be_u32(b0: u8, b1: u8, b2: u8, b3: u8) -> u32 {
    (b0 * 0x100_0000 + b1 * 0x1_0000 + b2 * 0x100 + b3) as u32
}

/// The big-endian word at `offset` of `bytes`, where four bytes lie there.
pub open spec fn word_in(bytes: Seq<u8>, offset: int) -> Option<u32> {
    if 0 <= offset && offset + 4 <= bytes.len() {
        Some(be_u32(bytes[offset], bytes[offset + 1], bytes[offset + 2], bytes[offset + 3]))
    } else {
        None
    }
}

/// The least multiple of four that is not below `p`.
pub open spec fn align4(p: int) -> int {
    (p + 3) / 4 * 4
}

/// Reads the big-endian word at `offset` of `bytes`.
pub fn read_be_u32(bytes: &[u8], offset: usize) -> (word: Option<u32>)
    ensures
        word == word_in(bytes@, offset as int),
{
    if bytes.len() < 4 || offset > bytes.len() - 4 {
        return None;
    }
    let b0: u32 = bytes[offset] as u32;
    let b1: u32 = bytes[offset + 1] as u32;
    let b2: u32 = bytes[offset + 2] as u32;
    let b3: u32 = bytes[offset + 3] as u32;
    Some(b0 * 0x100_0000 + b1 * 0x1_0000 + b2 * 0x100 + b3)
}

/// The fixed header of a blob, each field in host order.
pub struct DtbHeader {
    pub magic: u32,
    pub total_size: u32,
    pub off_dt_struct: u32,
    pub off_dt_strings: u32,
    pub off_mem_rsv_map: u32,
    pub version: u32,
    pub last_comp_version: u32,
    pub boot_cpuid_phys: u32,
    pub size_dt_strings: u32,
    pub size_dt_struct: u32,
}

/// The header that the first forty bytes of `bytes` spell, where there are
/// forty.
pub open spec fn header_in(bytes: Seq<u8>) -> Option<DtbHeader> {
    if bytes.len() >= HEADER_SIZE {
        Some(
            DtbHeader {
                magic: word_in(bytes, 0)->0,
                total_size: word_in(bytes, 4)->0,
                off_dt_struct: word_in(bytes, 8)->0,
                off_dt_strings: word_in(bytes, 12)->0,
                off_mem_rsv_map: word_in(bytes, 16)->0,
                version: word_in(bytes, 20)->0,
                last_comp_version: word_in(bytes, 24)->0,
                boot_cpuid_phys: word_in(bytes, 28)->0,
                size_dt_strings: word_in(bytes, 32)->0,
                size_dt_struct: word_in(bytes, 36)->0,
            },
        )
    } else {
        None
    }
}

impl DtbHeader {
    /// Decodes the header at the start of `bytes`.
    pub fn read(bytes: &[u8]) -> (header: Option<DtbHeader>)
        ensures
            header == header_in(bytes@),
    {
        if bytes.len() < HEADER_SIZE {
            return None;
        }
        let magic = read_be_u32(bytes, 0);
        let total_size = read_be_u32(bytes, 4);
        let off_dt_struct = read_be_u32(bytes, 8);
        let off_dt_strings = read_be_u32(bytes, 12);
        let off_mem_rsv_map = read_be_u32(bytes, 16);
        let version = read_be_u32(bytes, 20);
        let last_comp_version = read_be_u32(bytes, 24);
        let boot_cpuid_phys = read_be_u32(bytes, 28);
        let size_dt_strings = read_be_u32(bytes, 32);
        let size_dt_struct = read_be_u32(bytes, 36);
        Some(
            DtbHeader {
                magic: magic.unwrap(),
                total_size: total_size.unwrap(),
                off_dt_struct: off_dt_struct.unwrap(),
                off_dt_strings: off_dt_strings.unwrap(),
                off_mem_rsv_map: off_mem_rsv_map.unwrap(),
                version: version.unwrap(),
                last_comp_version: last_comp_version.unwrap(),
                boot_cpuid_phys: boot_cpuid_phys.unwrap(),
                size_dt_strings: size_dt_strings.unwrap(),
                size_dt_struct: size_dt_struct.unwrap(),
            },
        )
    }

    /// Whether the header carries the device-tree magic number.
    pub fn check_magic(&self) -> (ok: bool)
        ensures
            ok == (self.magic == DTB_MAGIC),
    {
        self.magic == DTB_MAGIC
    }
}

/// A node of the tree as a search hands it out.
///
/// `address_cells` and `size_cells` are the widths in effect for the node's
/// children: inherited from the parent, then replaced by the node's own
/// `#address-cells` and `#size-cells`. `parent_address_cells` and
/// `parent_size_cells` keep what was inherited; the node's own `reg` is read
/// with them. `address_offset` sums the addresses of the `reg` properties met
/// on the way down, the node's own included.
#[derive(Clone, Copy, Debug, PartialEq, Eq, Structural)]
pub struct DtbNode {
    pub address_offset: u64,
    pub address_cells: u32,
    pub size_cells: u32,
    pub parent_address_cells: u32,
    pub parent_size_cells: u32,
    pub base_pointer: u64,
}

/// A place in the structure block from which a search goes on, with the node
/// whose properties and children are being read there.
#[derive(Clone, Copy, Debug, PartialEq, Eq, Structural)]
pub struct DtbNodeNameSearchHolder {
    pub node: DtbNode,
    pub pointer: u64,
}

/// A blob in memory: its bytes, the address of the first of them, and where
/// its structure block and strings block lie.
pub struct DtbAnalyser {
    pub base_address: u64,
    pub memory: Vec<u8>,
    pub struct_block_address: u64,
    pub struct_block_size: u64,
    pub strings_block_address: u64,
    pub strings_block_size: u64,
}

impl DtbAnalyser {
    /// The address after the last byte of the blob.
    pub open spec fn limit(&self) -> int {
        self.base_address + self.memory@.len()
    }

    /// How many bytes lie at or after `p`.
    pub open spec fn remaining(&self, p: int) -> nat {
        if p < self.limit() {
            (self.limit() - p) as nat
        } else {
            0
        }
    }

    /// The blob ends at `ADDRESS_LIMIT` at the latest, both blocks start
    /// less than 4 GiB above that, and the block sizes fit in 32 bits.
    pub open spec fn well_formed(&self) -> bool {
        &&& self.limit() <= ADDRESS_LIMIT
        &&& self.struct_block_address <= ADDRESS_LIMIT + u32::MAX
        &&& self.strings_block_address <= ADDRESS_LIMIT + u32::MAX
        &&& self.struct_block_size <= u32::MAX
        &&& self.strings_block_size <= u32::MAX
    }

    /// The byte at `address`, where the blob has one.
    pub open spec fn byte_at(&self, address: int) -> Option<u8> {
        if self.base_address <= address < self.limit() {
            Some(self.memory@[address - self.base_address])
        } else {
            None
        }
    }

    /// The big-endian word at `address`, where the blob has four bytes.
    pub open spec fn word_at(&self, address: int) -> Option<u32> {
        if self.base_address <= address {
            word_in(self.memory@, address - self.base_address)
        } else {
            None
        }
    }

    /// Whether the bytes of `s` stand at `address`, all of them in the blob.
    pub open spec fn holds_bytes(&self, address: int, s: Seq<u8>) -> bool {
        &&& self.base_address <= address
        &&& address + s.len() <= self.limit()
        &&& self.memory@.subrange(address - self.base_address, address - self.base_address + s.len())
            == s
    }

    /// Whether the string at `address` is `s`: its bytes and then NUL.
    pub open spec fn matches_string(&self, address: int, s: Seq<u8>) -> bool {
        self.holds_bytes(address, s) && self.byte_at(address + s.len()) == Some(NUL)
    }

    /// Whether the node name at `address` is `s`, with or without a unit
    /// address behind it.
    pub open spec fn matches_name(&self, address: int, s: Seq<u8>) -> bool {
        self.holds_bytes(address, s) && (self.byte_at(address + s.len()) == Some(NUL)
            || self.byte_at(address + s.len()) == Some(UNIT_ADDRESS_MARK))
    }

    /// The first address at or after `p` that holds no `FDT_NOP`.
    pub open spec fn after_nops(&self, p: int) -> int
        decreases self.remaining(p),
    {
        if self.word_at(p) == Some(FDT_NOP) {
            self.after_nops(p + 4)
        } else {
            p
        }
    }

    /// The address after the NUL that ends the string at `p`; `None` where
    /// the blob ends before a NUL.
    pub open spec fn after_string(&self, p: int) -> Option<int>
        decreases self.remaining(p),
    {
        match self.byte_at(p) {
            None => None,
            Some(b) => if b == NUL {
                Some(p + 1)
            } else {
                self.after_string(p + 1)
            },
        }
    }

    /// The analyser that `new` makes of a blob with header `header`.
    pub open spec fn describes(&self, base_address: u64, bytes: Seq<u8>, header: DtbHeader) -> bool {
        &&& self.base_address == base_address
        &&& self.memory@ == bytes
        &&& self.struct_block_address == base_address + header.off_dt_struct
        &&& self.struct_block_size == header.size_dt_struct
        &&& self.strings_block_address == base_address + header.off_dt_strings
        &&& self.strings_block_size == header.size_dt_strings
    }

    /// Whether `new` accepts a blob of these bytes at `base_address`: the
    /// header is there, the magic number is right, and the blob ends at
    /// `ADDRESS_LIMIT` at the latest.
    pub open spec fn accepts(base_address: u64, bytes: Seq<u8>) -> bool {
        &&& header_in(bytes) is Some
        &&& header_in(bytes)->0.magic == DTB_MAGIC
        &&& base_address + bytes.len() <= ADDRESS_LIMIT
    }

    /// Takes the blob whose bytes `memory` lie from `base_address` on, and
    /// finds its two blocks by the header.
    pub fn new(base_address: u64, memory: Vec<u8>) -> (dtb: Result<Self, ()>)
        ensures
            dtb is Ok <==> Self::accepts(base_address, memory@),
            dtb is Ok ==> dtb->Ok_0.well_formed() && dtb->Ok_0.describes(
                base_address,
                memory@,
                header_in(memory@)->0,
            ),
    {
        let header = match DtbHeader::read(memory.as_slice()) {
            Some(header) => header,
            None => {
                return Err(());
            },
        };
        if !header.check_magic() {
            return Err(());
        }
        if base_address > ADDRESS_LIMIT || memory.len() as u64 > ADDRESS_LIMIT - base_address {
            return Err(());
        }
        Ok(
            Self {
                base_address,
                memory,
                struct_block_address: base_address + header.off_dt_struct as u64,
                struct_block_size: header.size_dt_struct as u64,
                strings_block_address: base_address + header.off_dt_strings as u64,
                strings_block_size: header.size_dt_strings as u64,
            },
        )
    }

    /// The root of the tree: the default cells, no offset, and the start of
    /// the structure block.
    pub fn get_root_node(&self) -> (root: DtbNode)
        ensures
            root == self.root_at(self.struct_block_address),
    {
        DtbNode {
            address_offset: 0,
            address_cells: DEFAULT_ADDRESS_CELLS,
            size_cells: DEFAULT_SIZE_CELLS,
            parent_address_cells: DEFAULT_ADDRESS_CELLS,
            parent_size_cells: DEFAULT_SIZE_CELLS,
            base_pointer: self.struct_block_address,
        }
    }

    /// A node with the root's cells and offset that opens at `pointer`.
    pub open spec fn root_at(&self, pointer: u64) -> DtbNode {
        DtbNode {
            address_offset: 0,
            address_cells: DEFAULT_ADDRESS_CELLS,
            size_cells: DEFAULT_SIZE_CELLS,
            parent_address_cells: DEFAULT_ADDRESS_CELLS,
            parent_size_cells: DEFAULT_SIZE_CELLS,
            base_pointer: pointer,
        }
    }

    /// Reads the byte at `address`.
    pub fn read_u8(&self, address: u64) -> (byte: Option<u8>)
        ensures
            byte == self.byte_at(address as int),
    {
        if address < self.base_address {
            return None;
        }
        let offset: u64 = address - self.base_address;
        if offset >= self.memory.len() as u64 {
            return None;
        }
        Some(self.memory[offset as usize])
    }

    /// Reads the big-endian word at `address`.
    pub fn read_u32(&self, address: u64) -> (word: Option<u32>)
        ensures
            word == self.word_at(address as int),
    {
        if address < self.base_address {
            return None;
        }
        let offset: u64 = address - self.base_address;
        if offset >= self.memory.len() as u64 {
            return None;
        }
        read_be_u32(self.memory.as_slice(), offset as usize)
    }
}

} // verus!
