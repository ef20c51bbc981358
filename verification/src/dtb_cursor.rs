//! Elementary cursor movements over the structure block, and the two walks
//! that need no knowledge of cells: to the end of a node, and to a property
//! of a node.

use vstd::prelude::*;
use crate::dtb::{
    align4, prop_reg, prop_status, prop_status_okay, DtbAnalyser, DtbNode, DtbNodeNameSearchHolder,
    FDT_BEGIN_NODE, FDT_END_NODE, FDT_NOP, FDT_PROP, NUL, TOKEN_SIZE, UNIT_ADDRESS_MARK,
};

verus! {

/// Bytes from a property token to the property's value: the token, the
/// length and the name offset.
pub const PROP_HEADER_SIZE: u64 = 12;

impl DtbAnalyser {
    /// `after_nops` never moves backwards, and never past the blob's end
    /// unless it started there.
    pub proof fn lemma_after_nops_bounds(&self, p: int)
        ensures
            p <= self.after_nops(p),
            self.after_nops(p) <= p || self.after_nops(p) <= self.limit(),
        decreases self.remaining(p),
    {
        if self.word_at(p) == Some(FDT_NOP) {
            self.lemma_after_nops_bounds(p + 4);
        }
    }

    /// A string ends after its first byte at the earliest and inside the blob.
    pub proof fn lemma_after_string_bounds(&self, p: int)
        ensures
            self.after_string(p) is Some ==> p < self.after_string(p)->0 <= self.limit(),
        decreases self.remaining(p),
    {
        if self.byte_at(p) is Some && self.byte_at(p) != Some(NUL) {
            self.lemma_after_string_bounds(p + 1);
        }
    }

    /// Where the body of the node begins that opens at the first token at or
    /// after `p` which is no `FDT_NOP`; `None` where that token is no
    /// `FDT_BEGIN_NODE` or the name does not end inside the blob.
    pub open spec fn node_body_start(&self, p: int) -> Option<int> {
        let q = self.after_nops(p);
        if self.word_at(q) == Some(FDT_BEGIN_NODE) {
            match self.after_string(q + 4) {
                Some(e) => Some(align4(e)),
                None => None,
            }
        } else {
            None
        }
    }

    /// The address after the `FDT_END_NODE` that closes the node in whose
    /// body `p` lies, `depth` levels below it; `None` where the tokens from
    /// `p` on do not lead there.
    pub open spec fn body_end(&self, p: int, depth: nat) -> Option<int>
        decreases self.remaining(p),
    {
        match self.word_at(p) {
            None => None,
            Some(token) => if token == FDT_END_NODE {
                if depth == 0 {
                    Some(p + 4)
                } else {
                    self.body_end(p + 4, (depth - 1) as nat)
                }
            } else if token == FDT_PROP {
                match self.word_at(p + 4) {
                    None => None,
                    Some(len) => self.body_end(align4(p + 12 + len), depth),
                }
            } else if token == FDT_BEGIN_NODE {
                match self.after_string(p + 4) {
                    None => None,
                    Some(e) => {
                        proof {
                            self.lemma_after_string_bounds(p + 4);
                        }
                        self.body_end(align4(e), depth + 1)
                    },
                }
            } else if token == FDT_NOP {
                self.body_end(p + 4, depth)
            } else {
                None
            },
        }
    }

    /// The address after the node that opens at `p` (behind any `FDT_NOP`).
    pub open spec fn node_end(&self, p: int) -> Option<int> {
        match self.node_body_start(p) {
            Some(body) => self.body_end(body, 0),
            None => None,
        }
    }

    /// The address of a name in the strings block, where `offset` lies in it.
    pub open spec fn name_address(&self, offset: u32) -> Option<int> {
        if self.strings_block_size > offset {
            Some(self.strings_block_address + offset)
        } else {
            None
        }
    }

    /// The value of the first property called `target` among those that
    /// stand `depth` levels up from `p`, in the node's own body: `Some(None)`
    /// where the node closes without one, `None` where the tokens are broken
    /// or a property of the node names no string of the strings block.
    pub open spec fn property_in_body(&self, p: int, depth: nat, target: Seq<u8>) -> Option<
        Option<int>,
    >
        decreases self.remaining(p),
    {
        match self.word_at(p) {
            None => None,
            Some(token) => if token == FDT_END_NODE {
                if depth == 0 {
                    Some(None)
                } else {
                    self.property_in_body(p + 4, (depth - 1) as nat, target)
                }
            } else if token == FDT_PROP {
                match self.word_at(p + 4) {
                    None => None,
                    Some(len) => if depth > 0 {
                        self.property_in_body(align4(p + 12 + len), depth, target)
                    } else {
                        match self.word_at(p + 8) {
                            None => None,
                            Some(name_offset) => match self.name_address(name_offset) {
                                None => None,
                                Some(name) => if self.matches_string(name, target) {
                                    Some(Some(p + 12))
                                } else {
                                    self.property_in_body(align4(p + 12 + len), depth, target)
                                },
                            },
                        }
                    },
                }
            } else if token == FDT_BEGIN_NODE {
                match self.after_string(p + 4) {
                    None => None,
                    Some(e) => {
                        proof {
                            self.lemma_after_string_bounds(p + 4);
                        }
                        self.property_in_body(align4(e), depth + 1, target)
                    },
                }
            } else if token == FDT_NOP {
                self.property_in_body(p + 4, depth, target)
            } else {
                None
            },
        }
    }

    /// The value of the first property called `target` of the node that
    /// opens at `p`.
    pub open spec fn property_of_node(&self, p: int, target: Seq<u8>) -> Option<Option<int>> {
        match self.node_body_start(p) {
            Some(body) => self.property_in_body(body, 0, target),
            None => None,
        }
    }

    /// The value that `cells` big-endian words from `p` on spell, each word
    /// shifting the earlier ones up by 32 bits within 64 bits; `None` where
    /// the blob ends before the last of them.
    pub open spec fn cells_value(&self, p: int, cells: nat) -> Option<u64>
        decreases cells,
    {
        if cells == 0 {
            Some(0)
        } else {
            match (self.cells_value(p, (cells - 1) as nat), self.word_at(p + 4 * (cells - 1))) {
                (Some(high), Some(word)) => Some(
                    ((high % 0x1_0000_0000) * 0x1_0000_0000 + word) as u64,
                ),
                _ => None,
            }
        }
    }

    /// Reads the value that `cells` words from `pointer` on spell.
    pub fn read_cells(&self, pointer: u64, cells: u32) -> (value: Option<u64>)
        requires
            self.well_formed(),
        ensures
            value == self.cells_value(pointer as int, cells as nat),
    {
        let mut value: u64 = 0;
        let mut address: u64 = pointer;
        let mut index: u32 = 0;
        while index < cells
            invariant
                self.well_formed(),
                index <= cells,
                address == pointer + 4 * index,
                self.cells_value(pointer as int, index as nat) == Some(value),
            decreases cells - index,
        {
            match self.read_u32(address) {
                None => {
                    proof {
                        self.lemma_cells_value_prefix(pointer as int, index as nat, cells as nat);
                    }
                    return None;
                },
                Some(word) => {
                    value = (value % 0x1_0000_0000) * 0x1_0000_0000 + word as u64;
                    address += TOKEN_SIZE;
                    index += 1;
                },
            }
        }
        Some(value)
    }

    /// Where a word is missing, no longer run of cells has a value.
    pub proof fn lemma_cells_value_prefix(&self, p: int, missing: nat, cells: nat)
        requires
            self.word_at(p + 4 * missing) is None,
            missing < cells,
        ensures
            self.cells_value(p, cells) is None,
        decreases cells,
    {
        if cells - 1 > missing {
            self.lemma_cells_value_prefix(p, missing, (cells - 1) as nat);
        }
    }

    /// The address of the name that lies `offset_of_segments` bytes into the
    /// strings block; an error where the block is not that long.
    pub fn get_name(&self, offset_of_segments: u32) -> (name: Result<u64, ()>)
        requires
            self.well_formed(),
        ensures
            match self.name_address(offset_of_segments) {
                Some(address) => name == Ok::<u64, ()>(address as u64) && address <= u64::MAX,
                None => name is Err,
            },
    {
        if self.strings_block_size > offset_of_segments as u64 {
            Ok(self.strings_block_address + offset_of_segments as u64)
        } else {
            Err(())
        }
    }

    /// The address after the structure block.
    pub fn get_struct_block_limit(&self) -> (limit: u64)
        requires
            self.well_formed(),
        ensures
            limit == self.struct_block_address + self.struct_block_size,
    {
        self.struct_block_size + self.struct_block_address
    }
}

impl DtbNode {
    /// Moves `pointer` past any run of `FDT_NOP` tokens.
    pub fn skip_nop(dtb: &DtbAnalyser, pointer: &mut u64)
        requires
            dtb.well_formed(),
        ensures
            *final(pointer) == dtb.after_nops(*old(pointer) as int),
    {
        loop
            invariant
                dtb.well_formed(),
                dtb.after_nops(*pointer as int) == dtb.after_nops(*old(pointer) as int),
            ensures
                *pointer == dtb.after_nops(*old(pointer) as int),
            decreases dtb.remaining(*pointer as int),
        {
            let token = dtb.read_u32(*pointer);
            if token != Some(FDT_NOP) {
                break ;
            }
            *pointer += TOKEN_SIZE;
        }
    }

    /// Moves `pointer` past the token under it.
    pub fn skip_token(pointer: &mut u64)
        requires
            *old(pointer) % 4 == 0,
            *old(pointer) <= u64::MAX - 4,
        ensures
            *final(pointer) == *old(pointer) + 4,
            *final(pointer) % 4 == 0,
    {
        *pointer += TOKEN_SIZE;
    }

    /// Moves `pointer` up to the next multiple of four; an error where that
    /// lies beyond the address space.
    pub fn skip_padding(pointer: &mut u64) -> (moved: Result<(), ()>)
        ensures
            moved is Ok <==> align4(*old(pointer) as int) <= u64::MAX,
            moved is Ok ==> *final(pointer) == align4(*old(pointer) as int),
            moved is Ok ==> *final(pointer) % 4 == 0,
            moved is Err ==> *final(pointer) == *old(pointer),
    {
        let rest: u64 = *pointer % TOKEN_SIZE;
        if rest == 0 {
            return Ok(());
        }
        let step: u64 = TOKEN_SIZE - rest;
        if *pointer > u64::MAX - step {
            return Err(());
        }
        *pointer += step;
        Ok(())
    }

    /// Moves `pointer` past the string under it and the NUL that ends it; an
    /// error where the blob ends before a NUL.
    pub fn skip_string(dtb: &DtbAnalyser, pointer: &mut u64) -> (moved: Result<(), ()>)
        requires
            dtb.well_formed(),
        ensures
            match dtb.after_string(*old(pointer) as int) {
                Some(end) => moved is Ok && *final(pointer) == end,
                None => moved is Err,
            },
    {
        loop
            invariant
                dtb.well_formed(),
                dtb.after_string(*pointer as int) == dtb.after_string(*old(pointer) as int),
            decreases dtb.remaining(*pointer as int),
        {
            match dtb.read_u8(*pointer) {
                None => {
                    return Err(());
                },
                Some(byte) => {
                    *pointer += 1;
                    if byte == NUL {
                        return Ok(());
                    }
                },
            }
        }
    }

    /// Moves `pointer` from the opening of a node to the start of its body:
    /// past any `FDT_NOP`, the `FDT_BEGIN_NODE`, the name and its padding.
    pub fn skip_node_header(dtb: &DtbAnalyser, pointer: &mut u64) -> (moved: Result<(), ()>)
        requires
            dtb.well_formed(),
        ensures
            match dtb.node_body_start(*old(pointer) as int) {
                Some(body) => moved is Ok && *final(pointer) == body,
                None => moved is Err,
            },
            moved is Ok ==> *old(pointer) < *final(pointer) <= dtb.limit() + 3,
            moved is Ok ==> *final(pointer) % 4 == 0,
    {
        proof {
            dtb.lemma_after_nops_bounds(*pointer as int);
        }
        Self::skip_nop(dtb, pointer);
        if dtb.read_u32(*pointer) != Some(FDT_BEGIN_NODE) {
            return Err(());
        }
        *pointer += TOKEN_SIZE;
        proof {
            dtb.lemma_after_string_bounds(*pointer as int);
        }
        match Self::skip_string(dtb, pointer) {
            Err(_) => {
                return Err(());
            },
            Ok(_) => {},
        }
        Self::skip_padding(pointer)
    }

    /// Moves `pointer` from the opening of a node to the address after the
    /// `FDT_END_NODE` that closes it, past its properties and children; an
    /// error where the tokens do not lead there.
    #[verifier::rlimit(40)]
    pub fn skip_to_end_of_node(dtb: &DtbAnalyser, pointer: &mut u64) -> (moved: Result<(), ()>)
        requires
            dtb.well_formed(),
        ensures
            match dtb.node_end(*old(pointer) as int) {
                Some(end) => moved is Ok && *final(pointer) == end,
                None => moved is Err,
            },
            moved is Ok ==> *old(pointer) < *final(pointer) <= dtb.limit(),
            moved is Ok ==> *final(pointer) % 4 == 0,
    {
        match Self::skip_node_header(dtb, pointer) {
            Err(_) => {
                return Err(());
            },
            Ok(_) => {},
        }
        let mut depth: u64 = 0;
        loop
            invariant
                dtb.well_formed(),
                dtb.body_end(*pointer as int, depth as nat) == dtb.node_end(*old(pointer) as int),
                *old(pointer) < *pointer,
                *pointer % 4 == 0,
                depth <= *pointer,
            decreases dtb.remaining(*pointer as int),
        {
            let token = match dtb.read_u32(*pointer) {
                None => {
                    return Err(());
                },
                Some(token) => token,
            };
            if token == FDT_END_NODE {
                Self::skip_token(pointer);
                if depth == 0 {
                    return Ok(());
                }
                depth -= 1;
            } else if token == FDT_PROP {
                let property_len = match dtb.read_u32(*pointer + TOKEN_SIZE) {
                    None => {
                        return Err(());
                    },
                    Some(len) => len,
                };
                *pointer += PROP_HEADER_SIZE + property_len as u64;
                let _ = Self::skip_padding(pointer);
            } else if token == FDT_BEGIN_NODE {
                Self::skip_token(pointer);
                proof {
                    dtb.lemma_after_string_bounds(*pointer as int);
                }
                match Self::skip_string(dtb, pointer) {
                    Err(_) => {
                        return Err(());
                    },
                    Ok(_) => {},
                }
                let _ = Self::skip_padding(pointer);
                depth += 1;
            } else if token == FDT_NOP {
                Self::skip_token(pointer);
            } else {
                return Err(());
            }
        }
    }

    /// The address of the value of the node's first property called
    /// `target_prop_name`, looking at the node's own properties only;
    /// `Ok(None)` where it has none, an error where the node's tokens are
    /// broken or one of its properties names no string of the strings block.
    #[verifier::rlimit(40)]
    pub fn search_pointer_to_property(&self, target_prop_name: &[u8], dtb: &DtbAnalyser) -> (found:
        Result<Option<u64>, ()>)
        requires
            dtb.well_formed(),
        ensures
            match dtb.property_of_node(self.base_pointer as int, target_prop_name@) {
                None => found is Err,
                Some(None) => found == Ok::<Option<u64>, ()>(None),
                Some(Some(value)) => found == Ok::<Option<u64>, ()>(Some(value as u64)) && 0
                    <= value <= dtb.limit() + 8,
            },
    {
        let mut pointer: u64 = self.base_pointer;
        match Self::skip_node_header(dtb, &mut pointer) {
            Err(_) => {
                return Err(());
            },
            Ok(_) => {},
        }
        let mut depth: u64 = 0;
        loop
            invariant
                dtb.well_formed(),
                dtb.property_in_body(pointer as int, depth as nat, target_prop_name@)
                    == dtb.property_of_node(self.base_pointer as int, target_prop_name@),
                depth <= pointer,
            decreases dtb.remaining(pointer as int),
        {
            let token = match dtb.read_u32(pointer) {
                None => {
                    return Err(());
                },
                Some(token) => token,
            };
            if token == FDT_END_NODE {
                if depth == 0 {
                    return Ok(None);
                }
                pointer += TOKEN_SIZE;
                depth -= 1;
            } else if token == FDT_PROP {
                let property_len = match dtb.read_u32(pointer + TOKEN_SIZE) {
                    None => {
                        return Err(());
                    },
                    Some(len) => len,
                };
                if depth == 0 {
                    let name_segment_offset = match dtb.read_u32(pointer + 2 * TOKEN_SIZE) {
                        None => {
                            return Err(());
                        },
                        Some(offset) => offset,
                    };
                    let prop_name = match dtb.get_name(name_segment_offset) {
                        Err(_) => {
                            return Err(());
                        },
                        Ok(name) => name,
                    };
                    if Self::match_string(dtb, prop_name, target_prop_name) {
                        return Ok(Some(pointer + PROP_HEADER_SIZE));
                    }
                }
                pointer += PROP_HEADER_SIZE + property_len as u64;
                let _ = Self::skip_padding(&mut pointer);
            } else if token == FDT_BEGIN_NODE {
                pointer += TOKEN_SIZE;
                proof {
                    dtb.lemma_after_string_bounds(pointer as int);
                }
                match Self::skip_string(dtb, &mut pointer) {
                    Err(_) => {
                        return Err(());
                    },
                    Ok(_) => {},
                }
                let _ = Self::skip_padding(&mut pointer);
                depth += 1;
            } else if token == FDT_NOP {
                pointer += TOKEN_SIZE;
            } else {
                return Err(());
            }
        }
    }

    /// A cursor at the start of the node's body, from which a search reads
    /// the node's properties and children.
    pub fn get_search_holder(&self, dtb: &DtbAnalyser) -> (holder: Result<
        DtbNodeNameSearchHolder,
        (),
    >)
        requires
            dtb.well_formed(),
        ensures
            match dtb.node_body_start(self.base_pointer as int) {
                Some(body) => holder == Ok::<DtbNodeNameSearchHolder, ()>(
                    DtbNodeNameSearchHolder { node: *self, pointer: body as u64 },
                ) && body <= u64::MAX && body % 4 == 0,
                None => holder is Err,
            },
    {
        let mut pointer: u64 = self.base_pointer;
        match Self::skip_node_header(dtb, &mut pointer) {
            Err(_) => Err(()),
            Ok(_) => Ok(DtbNodeNameSearchHolder { node: *self, pointer }),
        }
    }

    /// Whether the node's `status` is `okay`; `Ok(None)` where it has no
    /// `status`.
    pub fn is_status_okay(&self, dtb: &DtbAnalyser) -> (status: Result<Option<bool>, ()>)
        requires
            dtb.well_formed(),
        ensures
            match dtb.property_of_node(self.base_pointer as int, prop_status()) {
                None => status is Err,
                Some(None) => status == Ok::<Option<bool>, ()>(None),
                Some(Some(value)) => status == Ok::<Option<bool>, ()>(
                    Some(dtb.matches_string(value, prop_status_okay())),
                ),
            },
    {
        let name = Self::status_name();
        match self.search_pointer_to_property(name.as_slice(), dtb) {
            Err(_) => Err(()),
            Ok(None) => Ok(None),
            Ok(Some(p)) => {
                let okay = Self::status_okay();
                Ok(Some(Self::match_string(dtb, p, okay.as_slice())))
            },
        }
    }

    /// The address that the node's `reg` starts with, read with the cells
    /// that the node inherited; `Ok(None)` where it has no `reg`, an error
    /// also where the blob ends inside that address.
    pub fn get_reg(&self, dtb: &DtbAnalyser) -> (reg: Result<Option<u64>, ()>)
        requires
            dtb.well_formed(),
        ensures
            match dtb.property_of_node(self.base_pointer as int, prop_reg()) {
                None => reg is Err,
                Some(None) => reg == Ok::<Option<u64>, ()>(None),
                Some(Some(value)) => match dtb.cells_value(
                    value,
                    self.parent_address_cells as nat,
                ) {
                    Some(address) => reg == Ok::<Option<u64>, ()>(Some(address)),
                    None => reg is Err,
                },
            },
    {
        let name = Self::reg_name();
        match self.search_pointer_to_property(name.as_slice(), dtb) {
            Err(_) => Err(()),
            Ok(None) => Ok(None),
            Ok(Some(p)) => match dtb.read_cells(p, self.parent_address_cells) {
                Some(address) => Ok(Some(address)),
                None => Err(()),
            },
        }
    }

    /// The sum of the `reg` addresses from the root down to this node.
    pub fn get_offset(&self) -> (offset: u64)
        ensures
            offset == self.address_offset,
    {
        self.address_offset
    }

    /// The bytes of `status`.
    pub fn status_name() -> (name: [u8; 6])
        ensures
            name@ == prop_status(),
    {
        let name: [u8; 6] = [0x73, 0x74, 0x61, 0x74, 0x75, 0x73];
        assert(name@ =~= prop_status());
        name
    }

    /// The bytes of `okay`.
    pub fn status_okay() -> (name: [u8; 4])
        ensures
            name@ == prop_status_okay(),
    {
        let name: [u8; 4] = [0x6f, 0x6b, 0x61, 0x79];
        assert(name@ =~= prop_status_okay());
        name
    }

    /// The bytes of `reg`.
    pub fn reg_name() -> (name: [u8; 3])
        ensures
            name@ == prop_reg(),
    {
        let name: [u8; 3] = [0x72, 0x65, 0x67];
        assert(name@ =~= prop_reg());
        name
    }

    /// Whether the bytes of `s` stand at `pointer`.
    fn match_bytes(dtb: &DtbAnalyser, pointer: u64, s: &[u8]) -> (matched: bool)
        requires
            dtb.well_formed(),
        ensures
            matched == dtb.holds_bytes(pointer as int, s@),
    {
        if pointer < dtb.base_address || pointer - dtb.base_address > dtb.memory.len() as u64 {
            return false;
        }
        let mut index: usize = 0;
        proof {
            let o = pointer - dtb.base_address;
            assert(dtb.memory@.subrange(o, o + 0) =~= s@.subrange(0, 0));
        }
        while index < s.len()
            invariant
                dtb.well_formed(),
                index <= s.len(),
                dtb.holds_bytes(pointer as int, s@.subrange(0, index as int)),
            decreases s.len() - index,
        {
            let byte = dtb.read_u8(pointer + index as u64);
            if byte != Some(s[index]) {
                proof {
                    if dtb.holds_bytes(pointer as int, s@) {
                        let o = pointer - dtb.base_address;
                        let i = index as int;
                        assert(dtb.memory@.subrange(o, o + s@.len())[i] == s@[i]);
                    }
                }
                return false;
            }
            proof {
                let o = pointer - dtb.base_address;
                let n = index as int;
                let grown = dtb.memory@.subrange(o, o + n + 1);
                assert(dtb.memory@.subrange(o, o + n) == s@.subrange(0, n));
                assert forall|i: int| 0 <= i < n + 1 implies grown[i] == s@.subrange(0, n + 1)[i] by {
                    if i < n {
                        assert(dtb.memory@.subrange(o, o + n)[i] == s@.subrange(0, n)[i]);
                    }
                }
                assert(grown =~= s@.subrange(0, n + 1));
            }
            index += 1;
        }
        proof {
            assert(s@.subrange(0, index as int) =~= s@);
        }
        true
    }

    /// Whether the node name at `pointer` is `s`: the bytes of `s`, then NUL
    /// or the mark of a unit address.
    pub fn match_name(dtb: &DtbAnalyser, pointer: u64, s: &[u8]) -> (matched: bool)
        requires
            dtb.well_formed(),
        ensures
            matched == dtb.matches_name(pointer as int, s@),
    {
        if !Self::match_bytes(dtb, pointer, s) {
            return false;
        }
        let last = dtb.read_u8(pointer + s.len() as u64);
        last == Some(NUL) || last == Some(UNIT_ADDRESS_MARK)
    }

    /// Whether the string at `pointer` is `s`: the bytes of `s`, then NUL.
    pub fn match_string(dtb: &DtbAnalyser, pointer: u64, s: &[u8]) -> (matched: bool)
        requires
            dtb.well_formed(),
        ensures
            matched == dtb.matches_string(pointer as int, s@),
    {
        if !Self::match_bytes(dtb, pointer, s) {
            return false;
        }
        let last = dtb.read_u8(pointer + s.len() as u64);
        last == Some(NUL)
    }
}

} // verus!
