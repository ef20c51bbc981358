//! The two searches over the tree: by node name and by `compatible`.
//!
//! A search reads the structure block token by token from a cursor. The node
//! whose body the cursor is in is the current node; the nodes that enclose it
//! wait on a stack, each with the cells and the offset that it had when the
//! search went down into its child.

use vstd::prelude::*;
use crate::dtb::{
    align4, prop_address_cells, prop_compatible, prop_reg, prop_size_cells, DtbAnalyser, DtbNode,
    DtbNodeNameSearchHolder, FDT_BEGIN_NODE, FDT_END, FDT_END_NODE, FDT_NOP, FDT_PROP, NUL,
    TOKEN_SIZE,
};
use crate::dtb_cursor::PROP_HEADER_SIZE;

verus! {

/// How a walk by name ends: the node found, if any, the node that the walk
/// started in as the walk leaves it, and where the cursor stands.
pub struct NameWalkEnd {
    pub found: Option<DtbNode>,
    pub node: DtbNode,
    pub pointer: int,
}

/// How a walk by `compatible` ends: the node found and the index of the
/// candidate that it answers to, if any, the node that the walk started in as
/// the walk leaves it, and where the cursor stands.
pub struct CompatibleWalkEnd {
    pub found: Option<(DtbNode, usize)>,
    pub node: DtbNode,
    pub pointer: int,
}

/// The child that opens at `pointer` in the body of `parent`: it inherits the
/// parent's offset, and the parent's cells both as the cells for its own
/// children and as the cells that its own `reg` is read with.
pub open spec fn child_of(parent: DtbNode, pointer: u64) -> DtbNode {
    DtbNode {
        address_offset: parent.address_offset,
        address_cells: parent.address_cells,
        size_cells: parent.size_cells,
        parent_address_cells: parent.address_cells,
        parent_size_cells: parent.size_cells,
        base_pointer: pointer,
    }
}

/// The node that a walk started in: the lowest of the waiting nodes, or the
/// current node where none waits.
pub open spec fn first_node(parents: Seq<DtbNode>, node: DtbNode) -> DtbNode {
    if parents.len() == 0 {
        node
    } else {
        parents[0]
    }
}

impl DtbAnalyser {
    /// The address after the property record at `p` and its padding.
    pub open spec fn property_end(&self, p: int) -> int {
        align4(p + 12 + self.word_at(p + 4)->0)
    }

    /// The address of the name of the property record at `p`; `None` where
    /// the record's header is cut short or names no string of the strings
    /// block.
    pub open spec fn property_name(&self, p: int) -> Option<int> {
        match (self.word_at(p + 4), self.word_at(p + 8)) {
            (Some(_), Some(name_offset)) => self.name_address(name_offset),
            _ => None,
        }
    }

    /// The node after the property record at `p` has been read in its body.
    /// `#address-cells` and `#size-cells` set the cells for the node's
    /// children; `reg` adds its address, read with the inherited cells, to
    /// the offset; any other property leaves the node as it is. `None` where
    /// the record is broken, the value is cut short or the offset leaves 64
    /// bits.
    pub open spec fn node_after_property(&self, node: DtbNode, p: int) -> Option<DtbNode> {
        match self.property_name(p) {
            None => None,
            Some(name) => if self.matches_string(name, prop_address_cells()) {
                match self.word_at(p + 12) {
                    Some(cells) => Some(DtbNode { address_cells: cells, ..node }),
                    None => None,
                }
            } else if self.matches_string(name, prop_size_cells()) {
                match self.word_at(p + 12) {
                    Some(cells) => Some(DtbNode { size_cells: cells, ..node }),
                    None => None,
                }
            } else if self.matches_string(name, prop_reg()) {
                match self.cells_value(p + 12, node.parent_address_cells as nat) {
                    Some(address) => if node.address_offset + address <= u64::MAX {
                        Some(
                            DtbNode {
                                address_offset: (node.address_offset + address) as u64,
                                ..node
                            },
                        )
                    } else {
                        None
                    },
                    None => None,
                }
            } else {
                Some(node)
            },
        }
    }

    /// The walk by name from `p` on, in the body of `node`, with `parents`
    /// waiting. It ends at the first `FDT_BEGIN_NODE` or `FDT_END_NODE` met
    /// in a node whose name is `name`, with that node as it then is and the
    /// cursor on that token; or behind the `FDT_END_NODE` of the node that it
    /// started in, with nothing found. `None` where the tokens are broken.
    pub open spec fn name_walk(
        &self,
        name: Seq<u8>,
        parents: Seq<DtbNode>,
        node: DtbNode,
        matched: bool,
        p: int,
    ) -> Option<NameWalkEnd>
        decreases self.remaining(p),
    {
        match self.word_at(p) {
            None => None,
            Some(token) => if token == FDT_END_NODE {
                if matched {
                    Some(NameWalkEnd { found: Some(node), node: first_node(parents, node), pointer: p })
                } else if parents.len() == 0 {
                    Some(NameWalkEnd { found: None, node, pointer: p + 4 })
                } else {
                    self.name_walk(name, parents.drop_last(), parents.last(), false, p + 4)
                }
            } else if token == FDT_PROP {
                match self.node_after_property(node, p) {
                    None => None,
                    Some(next) => self.name_walk(name, parents, next, matched, self.property_end(p)),
                }
            } else if token == FDT_BEGIN_NODE {
                if matched {
                    Some(NameWalkEnd { found: Some(node), node: first_node(parents, node), pointer: p })
                } else {
                    match self.after_string(p + 4) {
                        None => None,
                        Some(e) => {
                            proof {
                                self.lemma_after_string_bounds(p + 4);
                            }
                            self.name_walk(
                                name,
                                parents.push(node),
                                child_of(node, p as u64),
                                self.matches_name(p + 4, name),
                                align4(e),
                            )
                        },
                    }
                }
            } else if token == FDT_NOP {
                self.name_walk(name, parents, node, matched, p + 4)
            } else {
                None
            },
        }
    }

    /// Whether a string of the list of `len` bytes at `value` starts at
    /// offset `o`: at the list's first byte, or behind a NUL.
    pub open spec fn entry_start(&self, value: int, len: int, o: int) -> bool {
        0 <= o < len && (o == 0 || self.byte_at(value + o - 1) == Some(NUL))
    }

    /// Whether `s` is one of the strings of the list of `len` bytes at
    /// `value`.
    pub open spec fn lists_string(&self, value: int, len: int, s: Seq<u8>) -> bool {
        exists|o: int| #[trigger] self.entry_start(value, len, o) && self.matches_string(value + o, s)
    }

    /// The index of the first candidate from `from` on that is one of the
    /// strings of the list of `len` bytes at `value`.
    pub open spec fn first_listed(
        &self,
        value: int,
        len: int,
        candidates: Seq<&[u8]>,
        from: int,
    ) -> Option<usize>
        decreases candidates.len() - from,
    {
        if from < 0 || from >= candidates.len() {
            None
        } else if self.lists_string(value, len, candidates[from]@) {
            Some(from as usize)
        } else {
            self.first_listed(value, len, candidates, from + 1)
        }
    }

    /// The candidate that the current node answers to after the property
    /// record at `p` has been read: where the record is a `compatible` that
    /// lists a candidate, the first candidate that it lists; else `index`.
    pub open spec fn index_after_property(
        &self,
        candidates: Seq<&[u8]>,
        index: Option<usize>,
        p: int,
    ) -> Option<usize> {
        match self.property_name(p) {
            None => index,
            Some(name) => if self.matches_string(name, prop_compatible()) {
                match self.first_listed(p + 12, self.word_at(p + 4)->0 as int, candidates, 0) {
                    Some(i) => Some(i),
                    None => index,
                }
            } else {
                index
            },
        }
    }

    /// The walk by `compatible` from `p` on, in the body of `node`, with
    /// `parents` waiting and `index` the candidate that `node` answers to so
    /// far. It ends at the first `FDT_BEGIN_NODE` or `FDT_END_NODE` met in a
    /// node that answers to a candidate, with that node as it then is, the
    /// candidate's index and the cursor on that token; or behind the
    /// `FDT_END_NODE` of the node that it started in, with nothing found.
    /// `None` where the tokens are broken.
    pub open spec fn compatible_walk(
        &self,
        candidates: Seq<&[u8]>,
        parents: Seq<DtbNode>,
        node: DtbNode,
        index: Option<usize>,
        p: int,
    ) -> Option<CompatibleWalkEnd>
        decreases self.remaining(p),
    {
        match self.word_at(p) {
            None => None,
            Some(token) => if token == FDT_END_NODE {
                if index is Some {
                    Some(
                        CompatibleWalkEnd {
                            found: Some((node, index->0)),
                            node: first_node(parents, node),
                            pointer: p,
                        },
                    )
                } else if parents.len() == 0 {
                    Some(CompatibleWalkEnd { found: None, node, pointer: p + 4 })
                } else {
                    self.compatible_walk(candidates, parents.drop_last(), parents.last(), None, p + 4)
                }
            } else if token == FDT_PROP {
                match self.node_after_property(node, p) {
                    None => None,
                    Some(next) => self.compatible_walk(
                        candidates,
                        parents,
                        next,
                        self.index_after_property(candidates, index, p),
                        self.property_end(p),
                    ),
                }
            } else if token == FDT_BEGIN_NODE {
                if index is Some {
                    Some(
                        CompatibleWalkEnd {
                            found: Some((node, index->0)),
                            node: first_node(parents, node),
                            pointer: p,
                        },
                    )
                } else {
                    match self.after_string(p + 4) {
                        None => None,
                        Some(e) => {
                            proof {
                                self.lemma_after_string_bounds(p + 4);
                            }
                            self.compatible_walk(
                                candidates,
                                parents.push(node),
                                child_of(node, p as u64),
                                None,
                                align4(e),
                            )
                        },
                    }
                }
            } else if token == FDT_NOP {
                self.compatible_walk(candidates, parents, node, index, p + 4)
            } else {
                None
            },
        }
    }
}

/// A property record as a search reads it: where its name and its value lie
/// and how long the value is.
pub struct PropertyRecord {
    pub name: u64,
    pub value: u64,
    pub len: u32,
}

impl DtbNode {
    /// The bytes of `#address-cells`.
    pub fn address_cells_name() -> (name: [u8; 14])
        ensures
            name@ == prop_address_cells(),
    {
        let name: [u8; 14] = [
            0x23,
            0x61,
            0x64,
            0x64,
            0x72,
            0x65,
            0x73,
            0x73,
            0x2d,
            0x63,
            0x65,
            0x6c,
            0x6c,
            0x73,
        ];
        assert(name@ =~= prop_address_cells());
        name
    }

    /// The bytes of `#size-cells`.
    pub fn size_cells_name() -> (name: [u8; 11])
        ensures
            name@ == prop_size_cells(),
    {
        let name: [u8; 11] = [0x23, 0x73, 0x69, 0x7a, 0x65, 0x2d, 0x63, 0x65, 0x6c, 0x6c, 0x73];
        assert(name@ =~= prop_size_cells());
        name
    }

    /// The bytes of `compatible`.
    pub fn compatible_name() -> (name: [u8; 10])
        ensures
            name@ == prop_compatible(),
    {
        let name: [u8; 10] = [0x63, 0x6f, 0x6d, 0x70, 0x61, 0x74, 0x69, 0x62, 0x6c, 0x65];
        assert(name@ =~= prop_compatible());
        name
    }

    /// Reads the property record under `pointer` into the node in whose body
    /// it stands, and tells where the record's name and value lie.
    pub fn read_property(&mut self, dtb: &DtbAnalyser, pointer: u64) -> (record: Result<
        PropertyRecord,
        (),
    >)
        requires
            dtb.well_formed(),
            dtb.word_at(pointer as int) is Some,
        ensures
            match dtb.node_after_property(*old(self), pointer as int) {
                None => record is Err,
                Some(node) => record is Ok && *final(self) == node && Some(
                    record->Ok_0.name as int,
                ) == dtb.property_name(pointer as int) && record->Ok_0.value == pointer + 12
                    && Some(record->Ok_0.len) == dtb.word_at(pointer + 4),
            },
    {
        let len = match dtb.read_u32(pointer + TOKEN_SIZE) {
            None => {
                return Err(());
            },
            Some(len) => len,
        };
        let name_segment_offset = match dtb.read_u32(pointer + 2 * TOKEN_SIZE) {
            None => {
                return Err(());
            },
            Some(offset) => offset,
        };
        let name = match dtb.get_name(name_segment_offset) {
            Err(_) => {
                return Err(());
            },
            Ok(name) => name,
        };
        let value: u64 = pointer + PROP_HEADER_SIZE;
        let address_cells_name = Self::address_cells_name();
        let size_cells_name = Self::size_cells_name();
        let reg_name = Self::reg_name();
        if Self::match_string(dtb, name, address_cells_name.as_slice()) {
            match dtb.read_u32(value) {
                None => {
                    return Err(());
                },
                Some(cells) => {
                    self.address_cells = cells;
                },
            }
        } else if Self::match_string(dtb, name, size_cells_name.as_slice()) {
            match dtb.read_u32(value) {
                None => {
                    return Err(());
                },
                Some(cells) => {
                    self.size_cells = cells;
                },
            }
        } else if Self::match_string(dtb, name, reg_name.as_slice()) {
            match dtb.read_cells(value, self.parent_address_cells) {
                None => {
                    return Err(());
                },
                Some(address) => {
                    if address > u64::MAX - self.address_offset {
                        return Err(());
                    }
                    self.address_offset = self.address_offset + address;
                },
            }
        }
        Ok(PropertyRecord { name, value, len })
    }

    /// Walks by name from `pointer` on, in the body of this node, until a
    /// node called `node_name` has been read up to its first child or its
    /// end, or this node's end has been passed.
    ///
    /// Tokens stand at multiples of four: the call asks that of `pointer`.
    #[verifier::rlimit(30)]
    pub fn search_device_by_node_name(
        &mut self,
        node_name: &[u8],
        dtb: &DtbAnalyser,
        pointer: &mut u64,
        is_name_matched: bool,
    ) -> (found: Result<Option<DtbNode>, ()>)
        requires
            dtb.well_formed(),
            *old(pointer) % 4 == 0,
        ensures
            found is Ok ==> *final(pointer) % 4 == 0,
            match dtb.name_walk(
                node_name@,
                Seq::<DtbNode>::empty(),
                *old(self),
                is_name_matched,
                *old(pointer) as int,
            ) {
                None => found is Err,
                Some(end) => found == Ok::<Option<DtbNode>, ()>(end.found) && *final(self)
                    == end.node && *final(pointer) == end.pointer && *old(pointer)
                    <= *final(pointer) <= dtb.limit() && (end.found is None ==> *old(pointer)
                    < *final(pointer)),
            },
    {
        let mut parents: Vec<DtbNode> = Vec::new();
        let mut node: DtbNode = *self;
        let mut matched: bool = is_name_matched;
        let ghost goal = dtb.name_walk(
            node_name@,
            Seq::<DtbNode>::empty(),
            *old(self),
            is_name_matched,
            *old(pointer) as int,
        );
        loop
            invariant
                dtb.well_formed(),
                goal == dtb.name_walk(
                    node_name@,
                    Seq::<DtbNode>::empty(),
                    *old(self),
                    is_name_matched,
                    *old(pointer) as int,
                ),
                dtb.name_walk(node_name@, parents@, node, matched, *pointer as int) == goal,
                *old(pointer) <= *pointer,
                *pointer % 4 == 0,
                parents@.len() <= *pointer - *old(pointer),
            decreases dtb.remaining(*pointer as int),
        {
            let token = match dtb.read_u32(*pointer) {
                None => {
                    return Err(());
                },
                Some(token) => token,
            };
            if token == FDT_END_NODE {
                if matched {
                    *self = if parents.len() == 0 {
                        node
                    } else {
                        parents[0]
                    };
                    return Ok(Some(node));
                }
                Self::skip_token(pointer);
                match parents.pop() {
                    None => {
                        *self = node;
                        return Ok(None);
                    },
                    Some(parent) => {
                        node = parent;
                    },
                }
            } else if token == FDT_PROP {
                let record = match node.read_property(dtb, *pointer) {
                    Err(_) => {
                        return Err(());
                    },
                    Ok(record) => record,
                };
                *pointer = record.value + record.len as u64;
                let _ = Self::skip_padding(pointer);
            } else if token == FDT_BEGIN_NODE {
                if matched {
                    *self = if parents.len() == 0 {
                        node
                    } else {
                        parents[0]
                    };
                    return Ok(Some(node));
                }
                let base_pointer: u64 = *pointer;
                Self::skip_token(pointer);
                matched = Self::match_name(dtb, *pointer, node_name);
                proof {
                    dtb.lemma_after_string_bounds(*pointer as int);
                }
                match Self::skip_string(dtb, pointer) {
                    Err(_) => {
                        return Err(());
                    },
                    Ok(_) => {},
                }
                let _ = Self::skip_padding(pointer);
                parents.push(node);
                node =
                DtbNode {
                    address_offset: node.address_offset,
                    address_cells: node.address_cells,
                    size_cells: node.size_cells,
                    parent_address_cells: node.address_cells,
                    parent_size_cells: node.size_cells,
                    base_pointer,
                };
            } else if token == FDT_NOP {
                Self::skip_token(pointer);
            } else {
                return Err(());
            }
        }
    }

    /// Whether `s` is one of the strings of the list of `len` bytes at
    /// `value`.
    pub fn is_listed(dtb: &DtbAnalyser, value: u64, len: u32, s: &[u8]) -> (listed: bool)
        requires
            dtb.well_formed(),
            value <= dtb.limit() + 8,
        ensures
            listed == dtb.lists_string(value as int, len as int, s@),
    {
        let mut offset: u32 = 0;
        while offset < len
            invariant
                dtb.well_formed(),
                value <= dtb.limit() + 8,
                offset <= len,
                forall|o: int|
                    0 <= o < offset ==> !(#[trigger] dtb.entry_start(value as int, len as int, o)
                        && dtb.matches_string(value + o, s@)),
            decreases len - offset,
        {
            let at_start = offset == 0 || dtb.read_u8(value + offset as u64 - 1) == Some(NUL);
            if at_start && Self::match_string(dtb, value + offset as u64, s) {
                assert(dtb.entry_start(value as int, len as int, offset as int));
                return true;
            }
            offset += 1;
        }
        false
    }

    /// The index of the first of `compatible_devices` that is one of the
    /// strings of the list of `len` bytes at `value`.
    pub fn first_compatible(
        dtb: &DtbAnalyser,
        value: u64,
        len: u32,
        compatible_devices: &[&[u8]],
    ) -> (index: Option<usize>)
        requires
            dtb.well_formed(),
            value <= dtb.limit() + 8,
        ensures
            index == dtb.first_listed(value as int, len as int, compatible_devices@, 0),
    {
        let mut index: usize = 0;
        while index < compatible_devices.len()
            invariant
                dtb.well_formed(),
                value <= dtb.limit() + 8,
                index <= compatible_devices.len(),
                dtb.first_listed(value as int, len as int, compatible_devices@, index as int)
                    == dtb.first_listed(value as int, len as int, compatible_devices@, 0),
            decreases compatible_devices.len() - index,
        {
            if Self::is_listed(dtb, value, len, compatible_devices[index]) {
                return Some(index);
            }
            index += 1;
        }
        None
    }

    /// Walks by `compatible` from `pointer` on, in the body of this node,
    /// until a node whose `compatible` lists one of `compatible_devices` has
    /// been read up to its first child or its end, or this node's end has
    /// been passed.
    ///
    /// Tokens stand at multiples of four: the call asks that of `pointer`.
    #[verifier::rlimit(30)]
    pub fn search_device_by_compatible(
        &mut self,
        compatible_devices: &[&[u8]],
        dtb: &DtbAnalyser,
        pointer: &mut u64,
    ) -> (found: Result<Option<(DtbNode, usize)>, ()>)
        requires
            dtb.well_formed(),
            *old(pointer) % 4 == 0,
        ensures
            found is Ok ==> *final(pointer) % 4 == 0,
            match dtb.compatible_walk(
                compatible_devices@,
                Seq::<DtbNode>::empty(),
                *old(self),
                None,
                *old(pointer) as int,
            ) {
                None => found is Err,
                Some(end) => found == Ok::<Option<(DtbNode, usize)>, ()>(end.found) && *final(self)
                    == end.node && *final(pointer) == end.pointer && *old(pointer)
                    <= *final(pointer) <= dtb.limit() && (end.found is None ==> *old(pointer)
                    < *final(pointer)),
            },
    {
        let mut parents: Vec<DtbNode> = Vec::new();
        let mut node: DtbNode = *self;
        let mut compatible_index: Option<usize> = None;
        let ghost goal = dtb.compatible_walk(
            compatible_devices@,
            Seq::<DtbNode>::empty(),
            *old(self),
            None,
            *old(pointer) as int,
        );
        loop
            invariant
                dtb.well_formed(),
                goal == dtb.compatible_walk(
                    compatible_devices@,
                    Seq::<DtbNode>::empty(),
                    *old(self),
                    None,
                    *old(pointer) as int,
                ),
                dtb.compatible_walk(
                    compatible_devices@,
                    parents@,
                    node,
                    compatible_index,
                    *pointer as int,
                ) == goal,
                *old(pointer) <= *pointer,
                *pointer % 4 == 0,
            decreases dtb.remaining(*pointer as int),
        {
            let token = match dtb.read_u32(*pointer) {
                None => {
                    return Err(());
                },
                Some(token) => token,
            };
            if token == FDT_END_NODE {
                if let Some(index) = compatible_index {
                    *self = if parents.len() == 0 {
                        node
                    } else {
                        parents[0]
                    };
                    return Ok(Some((node, index)));
                }
                Self::skip_token(pointer);
                match parents.pop() {
                    None => {
                        *self = node;
                        return Ok(None);
                    },
                    Some(parent) => {
                        node = parent;
                    },
                }
            } else if token == FDT_PROP {
                let record = match node.read_property(dtb, *pointer) {
                    Err(_) => {
                        return Err(());
                    },
                    Ok(record) => record,
                };
                let compatible_name = Self::compatible_name();
                if Self::match_string(dtb, record.name, compatible_name.as_slice()) {
                    match Self::first_compatible(dtb, record.value, record.len, compatible_devices) {
                        Some(index) => {
                            compatible_index = Some(index);
                        },
                        None => {},
                    }
                }
                *pointer = record.value + record.len as u64;
                let _ = Self::skip_padding(pointer);
            } else if token == FDT_BEGIN_NODE {
                if let Some(index) = compatible_index {
                    *self = if parents.len() == 0 {
                        node
                    } else {
                        parents[0]
                    };
                    return Ok(Some((node, index)));
                }
                let base_pointer: u64 = *pointer;
                Self::skip_token(pointer);
                proof {
                    dtb.lemma_after_string_bounds(*pointer as int);
                }
                match Self::skip_string(dtb, pointer) {
                    Err(_) => {
                        return Err(());
                    },
                    Ok(_) => {},
                }
                let _ = Self::skip_padding(pointer);
                parents.push(node);
                node =
                DtbNode {
                    address_offset: node.address_offset,
                    address_cells: node.address_cells,
                    size_cells: node.size_cells,
                    parent_address_cells: node.address_cells,
                    parent_size_cells: node.size_cells,
                    base_pointer,
                };
            } else if token == FDT_NOP {
                Self::skip_token(pointer);
            } else {
                return Err(());
            }
        }
    }
}

/// What one step of a search by name yields: the node found, if any, and the
/// cursor from which the next step goes on.
pub struct NameSearchStep {
    pub found: Option<DtbNode>,
    pub node: DtbNode,
    pub pointer: int,
}

/// What one step of a search by `compatible` yields: the node found and the
/// index of the candidate that it answers to, if any, and the cursor from
/// which the next step goes on.
pub struct CompatibleSearchStep {
    pub found: Option<(DtbNode, usize)>,
    pub node: DtbNode,
    pub pointer: int,
}

impl DtbAnalyser {
    /// A walk by name never moves the cursor backwards or out of the blob,
    /// and moves it forwards where it finds nothing.
    pub proof fn lemma_name_walk_advances(
        &self,
        name: Seq<u8>,
        parents: Seq<DtbNode>,
        node: DtbNode,
        matched: bool,
        p: int,
    )
        ensures
            match self.name_walk(name, parents, node, matched, p) {
                None => true,
                Some(end) => p <= end.pointer <= self.limit() && (end.found is None ==> p
                    < end.pointer),
            },
        decreases self.remaining(p),
    {
        match self.word_at(p) {
            None => {},
            Some(token) => {
                if token == FDT_END_NODE {
                    if !matched && parents.len() != 0 {
                        self.lemma_name_walk_advances(
                            name,
                            parents.drop_last(),
                            parents.last(),
                            false,
                            p + 4,
                        );
                    }
                } else if token == FDT_PROP {
                    match self.node_after_property(node, p) {
                        None => {},
                        Some(next) => {
                            self.lemma_name_walk_advances(
                                name,
                                parents,
                                next,
                                matched,
                                self.property_end(p),
                            );
                        },
                    }
                } else if token == FDT_BEGIN_NODE {
                    if !matched {
                        match self.after_string(p + 4) {
                            None => {},
                            Some(e) => {
                                self.lemma_after_string_bounds(p + 4);
                                self.lemma_name_walk_advances(
                                    name,
                                    parents.push(node),
                                    child_of(node, p as u64),
                                    self.matches_name(p + 4, name),
                                    align4(e),
                                );
                            },
                        }
                    }
                } else if token == FDT_NOP {
                    self.lemma_name_walk_advances(name, parents, node, matched, p + 4);
                }
            },
        }
    }

    /// A walk by `compatible` never moves the cursor backwards or out of the
    /// blob, and moves it forwards where it finds nothing.
    pub proof fn lemma_compatible_walk_advances(
        &self,
        candidates: Seq<&[u8]>,
        parents: Seq<DtbNode>,
        node: DtbNode,
        index: Option<usize>,
        p: int,
    )
        ensures
            match self.compatible_walk(candidates, parents, node, index, p) {
                None => true,
                Some(end) => p <= end.pointer <= self.limit() && (end.found is None ==> p
                    < end.pointer),
            },
        decreases self.remaining(p),
    {
        match self.word_at(p) {
            None => {},
            Some(token) => {
                if token == FDT_END_NODE {
                    if index is None && parents.len() != 0 {
                        self.lemma_compatible_walk_advances(
                            candidates,
                            parents.drop_last(),
                            parents.last(),
                            None,
                            p + 4,
                        );
                    }
                } else if token == FDT_PROP {
                    match self.node_after_property(node, p) {
                        None => {},
                        Some(next) => {
                            self.lemma_compatible_walk_advances(
                                candidates,
                                parents,
                                next,
                                self.index_after_property(candidates, index, p),
                                self.property_end(p),
                            );
                        },
                    }
                } else if token == FDT_BEGIN_NODE {
                    if index is None {
                        match self.after_string(p + 4) {
                            None => {},
                            Some(e) => {
                                self.lemma_after_string_bounds(p + 4);
                                self.lemma_compatible_walk_advances(
                                    candidates,
                                    parents.push(node),
                                    child_of(node, p as u64),
                                    None,
                                    align4(e),
                                );
                            },
                        }
                    }
                } else if token == FDT_NOP {
                    self.lemma_compatible_walk_advances(candidates, parents, node, index, p + 4);
                }
            },
        }
    }

    /// One step of a search by name from `p` on, in the body of `node`. Where the walk finds a
    /// node, the step yields it and leaves the cursor behind that node.
    /// Where the walk passes the end of the cursor's node, the step ends on
    /// `FDT_END` with nothing found; before the end of the structure block it
    /// goes on from there with the root's cells and offset; at or behind that
    /// end the blob is broken. `None` stands for an error.
    pub open spec fn next_by_name(&self, name: Seq<u8>, node: DtbNode, p: int) -> Option<
        NameSearchStep,
    >
        decreases self.remaining(p),
    {
        match self.name_walk(name, Seq::<DtbNode>::empty(), node, false, p) {
            None => None,
            Some(end) => match end.found {
                Some(found) => match self.node_end(found.base_pointer as int) {
                    None => None,
                    Some(after) => Some(
                        NameSearchStep { found: Some(found), node: end.node, pointer: after },
                    ),
                },
                None => if self.word_at(end.pointer) == Some(FDT_END) {
                    Some(NameSearchStep { found: None, node: end.node, pointer: end.pointer })
                } else if end.pointer >= self.struct_block_address + self.struct_block_size {
                    None
                } else {
                    proof {
                        self.lemma_name_walk_advances(
                            name,
                            Seq::<DtbNode>::empty(),
                            node,
                            false,
                            p,
                        );
                    }
                    self.next_by_name(name, self.root_at(end.pointer as u64), end.pointer)
                },
            },
        }
    }

    /// One step of a search by `compatible` from `p` on, in the body of
    /// `node`; as `next_by_name`,
    /// with the walk by `compatible` in place of the walk by name.
    pub open spec fn next_by_compatible(
        &self,
        candidates: Seq<&[u8]>,
        node: DtbNode,
        p: int,
    ) -> Option<CompatibleSearchStep>
        decreases self.remaining(p),
    {
        match self.compatible_walk(candidates, Seq::<DtbNode>::empty(), node, None, p) {
            None => None,
            Some(end) => match end.found {
                Some(found) => match self.node_end(found.0.base_pointer as int) {
                    None => None,
                    Some(after) => Some(
                        CompatibleSearchStep { found: Some(found), node: end.node, pointer: after },
                    ),
                },
                None => if self.word_at(end.pointer) == Some(FDT_END) {
                    Some(CompatibleSearchStep { found: None, node: end.node, pointer: end.pointer })
                } else if end.pointer >= self.struct_block_address + self.struct_block_size {
                    None
                } else {
                    proof {
                        self.lemma_compatible_walk_advances(
                            candidates,
                            Seq::<DtbNode>::empty(),
                            node,
                            None,
                            p,
                        );
                    }
                    self.next_by_compatible(
                        candidates,
                        self.root_at(end.pointer as u64),
                        end.pointer,
                    )
                },
            },
        }
    }
}

impl DtbNodeNameSearchHolder {
    /// The next node called `node_name` (up to NUL or a unit address) from
    /// the cursor on, as the walk leaves it at its first child or its end;
    /// `Ok(None)` where the structure block ends first. The cursor moves
    /// behind the node found, or onto the `FDT_END`.
    ///
    /// Tokens stand at multiples of four: the call asks that of the cursor.
    pub fn search_next_device_by_node_name(&mut self, node_name: &[u8], dtb: &DtbAnalyser) -> (found:
        Result<Option<DtbNode>, ()>)
        requires
            dtb.well_formed(),
            old(self).pointer % 4 == 0,
        ensures
            found is Ok ==> final(self).pointer % 4 == 0,
            match dtb.next_by_name(node_name@, old(self).node, old(self).pointer as int) {
                None => found is Err,
                Some(step) => found == Ok::<Option<DtbNode>, ()>(step.found) && final(self).node
                    == step.node && final(self).pointer == step.pointer,
            },
    {
        let ghost goal = dtb.next_by_name(node_name@, old(self).node, old(self).pointer as int);
        loop
            invariant
                dtb.well_formed(),
                goal == dtb.next_by_name(node_name@, old(self).node, old(self).pointer as int),
                dtb.next_by_name(node_name@, self.node, self.pointer as int) == goal,
                self.pointer % 4 == 0,
            decreases dtb.remaining(self.pointer as int),
        {
            let mut node = self.node;
            let mut pointer = self.pointer;
            let found = match node.search_device_by_node_name(node_name, dtb, &mut pointer, false) {
                Err(_) => {
                    return Err(());
                },
                Ok(found) => found,
            };
            match found {
                Some(t) => {
                    let mut after = t.base_pointer;
                    match DtbNode::skip_to_end_of_node(dtb, &mut after) {
                        Err(_) => {
                            return Err(());
                        },
                        Ok(_) => {},
                    }
                    self.node = node;
                    self.pointer = after;
                    return Ok(found);
                },
                None => {
                    if dtb.read_u32(pointer) == Some(FDT_END) {
                        self.node = node;
                        self.pointer = pointer;
                        return Ok(None);
                    }
                    if pointer >= dtb.get_struct_block_limit() {
                        return Err(());
                    }
                    self.node = dtb.get_root_node();
                    self.node.base_pointer = pointer;
                    self.pointer = pointer;
                },
            }
        }
    }

    /// The next node whose `compatible` lists one of `compatible_devices`
    /// from the cursor on, as the walk leaves it at its first child or its
    /// end, with the index of the first candidate that it lists; `Ok(None)`
    /// where the structure block ends first. The cursor moves behind the node
    /// found, or onto the `FDT_END`.
    ///
    /// Tokens stand at multiples of four: the call asks that of the cursor.
    pub fn search_next_device_by_compatible(
        &mut self,
        compatible_devices: &[&[u8]],
        dtb: &DtbAnalyser,
    ) -> (found: Result<Option<(DtbNode, usize)>, ()>)
        requires
            dtb.well_formed(),
            old(self).pointer % 4 == 0,
        ensures
            found is Ok ==> final(self).pointer % 4 == 0,
            match dtb.next_by_compatible(
                compatible_devices@,
                old(self).node,
                old(self).pointer as int,
            ) {
                None => found is Err,
                Some(step) => final(self).node == step.node && final(self).pointer
                    == step.pointer && found == Ok::<Option<(DtbNode, usize)>, ()>(step.found),
            },
    {
        let ghost goal = dtb.next_by_compatible(
            compatible_devices@,
            old(self).node,
            old(self).pointer as int,
        );
        loop
            invariant
                dtb.well_formed(),
                goal == dtb.next_by_compatible(
                    compatible_devices@,
                    old(self).node,
                    old(self).pointer as int,
                ),
                dtb.next_by_compatible(compatible_devices@, self.node, self.pointer as int)
                    == goal,
                self.pointer % 4 == 0,
            decreases dtb.remaining(self.pointer as int),
        {
            let mut node = self.node;
            let mut pointer = self.pointer;
            let found = match node.search_device_by_compatible(compatible_devices, dtb, &mut pointer) {
                Err(_) => {
                    return Err(());
                },
                Ok(found) => found,
            };
            match found {
                Some((t, _)) => {
                    let mut after = t.base_pointer;
                    match DtbNode::skip_to_end_of_node(dtb, &mut after) {
                        Err(_) => {
                            return Err(());
                        },
                        Ok(_) => {},
                    }
                    self.node = node;
                    self.pointer = after;
                    return Ok(found);
                },
                None => {
                    if dtb.read_u32(pointer) == Some(FDT_END) {
                        self.node = node;
                        self.pointer = pointer;
                        return Ok(None);
                    }
                    if pointer >= dtb.get_struct_block_limit() {
                        return Err(());
                    }
                    self.node = dtb.get_root_node();
                    self.node.base_pointer = pointer;
                    self.pointer = pointer;
                },
            }
        }
    }
}

} // verus!
