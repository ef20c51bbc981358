//! What holds of every search over a device tree.

use vstd::prelude::*;
use crate::dtb::{
    align4, prop_compatible, DtbAnalyser, DtbNode, FDT_BEGIN_NODE, FDT_END_NODE, FDT_NOP, FDT_PROP,
};
use crate::dtb_search::child_of;

verus! {

/// Whether the addresses in `visits` go strictly upwards.
pub open spec fn strictly_increasing(visits: Seq<int>) -> bool {
    forall|i: int, j: int| 0 <= i < j < visits.len() ==> visits[i] < visits[j]
}

impl DtbAnalyser {
    /// The nodes that open from `p` on up to the `FDT_END_NODE` that closes
    /// the node in whose body `p` lies, `depth` levels below it: the address
    /// of each `FDT_BEGIN_NODE`, in the order of the tokens.
    pub open spec fn nodes_in_body(&self, p: int, depth: nat) -> Seq<int>
        decreases self.remaining(p),
    {
        match self.word_at(p) {
            None => Seq::empty(),
            Some(token) => if token == FDT_END_NODE {
                if depth == 0 {
                    Seq::empty()
                } else {
                    self.nodes_in_body(p + 4, (depth - 1) as nat)
                }
            } else if token == FDT_PROP {
                match self.word_at(p + 4) {
                    None => Seq::empty(),
                    Some(len) => self.nodes_in_body(align4(p + 12 + len), depth),
                }
            } else if token == FDT_BEGIN_NODE {
                match self.after_string(p + 4) {
                    None => Seq::empty(),
                    Some(e) => {
                        proof {
                            self.lemma_after_string_bounds(p + 4);
                        }
                        seq![p] + self.nodes_in_body(align4(e), depth + 1)
                    },
                }
            } else if token == FDT_NOP {
                self.nodes_in_body(p + 4, depth)
            } else {
                Seq::empty()
            },
        }
    }

    /// The nodes that a walk by name goes into, in the order in which it
    /// does: the address of each `FDT_BEGIN_NODE` at which the walk takes a
    /// child as its current node.
    pub open spec fn name_walk_visits(
        &self,
        name: Seq<u8>,
        parents: Seq<DtbNode>,
        node: DtbNode,
        matched: bool,
        p: int,
    ) -> Seq<int>
        decreases self.remaining(p),
    {
        match self.word_at(p) {
            None => Seq::empty(),
            Some(token) => if token == FDT_END_NODE {
                if matched || parents.len() == 0 {
                    Seq::empty()
                } else {
                    self.name_walk_visits(name, parents.drop_last(), parents.last(), false, p + 4)
                }
            } else if token == FDT_PROP {
                match self.node_after_property(node, p) {
                    None => Seq::empty(),
                    Some(next) => self.name_walk_visits(
                        name,
                        parents,
                        next,
                        matched,
                        self.property_end(p),
                    ),
                }
            } else if token == FDT_BEGIN_NODE {
                if matched {
                    Seq::empty()
                } else {
                    match self.after_string(p + 4) {
                        None => Seq::empty(),
                        Some(e) => {
                            proof {
                                self.lemma_after_string_bounds(p + 4);
                            }
                            seq![p] + self.name_walk_visits(
                                name,
                                parents.push(node),
                                child_of(node, p as u64),
                                self.matches_name(p + 4, name),
                                align4(e),
                            )
                        },
                    }
                }
            } else if token == FDT_NOP {
                self.name_walk_visits(name, parents, node, matched, p + 4)
            } else {
                Seq::empty()
            },
        }
    }

    /// The nodes of a body open at or after the address from which they are
    /// listed, each after the one before.
    pub proof fn lemma_nodes_in_body_increase(&self, p: int, depth: nat)
        ensures
            strictly_increasing(self.nodes_in_body(p, depth)),
            forall|i: int|
                0 <= i < self.nodes_in_body(p, depth).len() ==> p <= #[trigger] self.nodes_in_body(
                    p,
                    depth,
                )[i],
        decreases self.remaining(p),
    {
        match self.word_at(p) {
            None => {},
            Some(token) => {
                if token == FDT_END_NODE {
                    if depth != 0 {
                        self.lemma_nodes_in_body_increase(p + 4, (depth - 1) as nat);
                    }
                } else if token == FDT_PROP {
                    match self.word_at(p + 4) {
                        None => {},
                        Some(len) => {
                            self.lemma_nodes_in_body_increase(align4(p + 12 + len), depth);
                        },
                    }
                } else if token == FDT_BEGIN_NODE {
                    match self.after_string(p + 4) {
                        None => {},
                        Some(e) => {
                            self.lemma_after_string_bounds(p + 4);
                            self.lemma_nodes_in_body_increase(align4(e), depth + 1);
                        },
                    }
                } else if token == FDT_NOP {
                    self.lemma_nodes_in_body_increase(p + 4, depth);
                }
            },
        }
    }

    /// A walk by a name that no node has finds nothing, ends behind the
    /// `FDT_END_NODE` that closes the node it started in, and on the way
    /// goes into every node of that body once, in the order of the tokens.
    pub proof fn lemma_unmatched_walk_visits_every_node(
        &self,
        name: Seq<u8>,
        parents: Seq<DtbNode>,
        node: DtbNode,
        p: int,
    )
        requires
            forall|q: int| !self.matches_name(q, name),
            self.name_walk(name, parents, node, false, p) is Some,
        ensures
            self.name_walk(name, parents, node, false, p)->0.found is None,
            self.body_end(p, parents.len()) == Some(
                self.name_walk(name, parents, node, false, p)->0.pointer,
            ),
            self.name_walk_visits(name, parents, node, false, p) == self.nodes_in_body(
                p,
                parents.len(),
            ),
            strictly_increasing(self.name_walk_visits(name, parents, node, false, p)),
        decreases self.remaining(p),
    {
        self.lemma_nodes_in_body_increase(p, parents.len());
        match self.word_at(p) {
            None => {},
            Some(token) => {
                if token == FDT_END_NODE {
                    if parents.len() != 0 {
                        self.lemma_unmatched_walk_visits_every_node(
                            name,
                            parents.drop_last(),
                            parents.last(),
                            p + 4,
                        );
                    }
                } else if token == FDT_PROP {
                    match self.node_after_property(node, p) {
                        None => {},
                        Some(next) => {
                            self.lemma_unmatched_walk_visits_every_node(
                                name,
                                parents,
                                next,
                                self.property_end(p),
                            );
                        },
                    }
                } else if token == FDT_BEGIN_NODE {
                    match self.after_string(p + 4) {
                        None => {},
                        Some(e) => {
                            self.lemma_after_string_bounds(p + 4);
                            self.lemma_unmatched_walk_visits_every_node(
                                name,
                                parents.push(node),
                                child_of(node, p as u64),
                                align4(e),
                            );
                        },
                    }
                } else if token == FDT_NOP {
                    self.lemma_unmatched_walk_visits_every_node(name, parents, node, p + 4);
                }
            },
        }
    }

    /// Reading a property never changes the cells that a node inherited nor
    /// where the node opens: what a node says of cells counts for its
    /// children, and its own `reg` is read with what its parent said.
    pub proof fn lemma_property_keeps_inherited_cells(&self, node: DtbNode, p: int)
        requires
            self.node_after_property(node, p) is Some,
        ensures
            self.node_after_property(node, p)->0.parent_address_cells == node.parent_address_cells,
            self.node_after_property(node, p)->0.parent_size_cells == node.parent_size_cells,
            self.node_after_property(node, p)->0.base_pointer == node.base_pointer,
    {
    }

    /// The offset that a property leaves does not depend on the cells that
    /// the node itself has set.
    pub proof fn lemma_offset_ignores_own_cells(&self, node: DtbNode, other: DtbNode, p: int)
        requires
            other.address_offset == node.address_offset,
            other.parent_address_cells == node.parent_address_cells,
            self.node_after_property(node, p) is Some,
        ensures
            self.node_after_property(other, p) is Some,
            self.node_after_property(other, p)->0.address_offset == self.node_after_property(
                node,
                p,
            )->0.address_offset,
    {
    }

    /// A child inherits the cells that its parent has at the child's
    /// `FDT_BEGIN_NODE`, and the parent's offset.
    pub proof fn lemma_child_inherits(parent: DtbNode, pointer: u64)
        ensures
            child_of(parent, pointer).parent_address_cells == parent.address_cells,
            child_of(parent, pointer).parent_size_cells == parent.size_cells,
            child_of(parent, pointer).address_cells == parent.address_cells,
            child_of(parent, pointer).size_cells == parent.size_cells,
            child_of(parent, pointer).address_offset == parent.address_offset,
            child_of(parent, pointer).base_pointer == pointer,
    {
    }

    /// The index that a `compatible` list gives is that of the first
    /// candidate, in the order of the candidates, that the list holds.
    pub proof fn lemma_first_listed_is_least(
        &self,
        value: int,
        len: int,
        candidates: Seq<&[u8]>,
        from: int,
    )
        requires
            0 <= from,
            candidates.len() <= usize::MAX,
        ensures
            match self.first_listed(value, len, candidates, from) {
                Some(index) => from <= index < candidates.len() && self.lists_string(
                    value,
                    len,
                    candidates[index as int]@,
                ) && forall|j: int|
                    from <= j < index ==> !self.lists_string(value, len, #[trigger] candidates[j]@),
                None => forall|j: int|
                    from <= j < candidates.len() ==> !self.lists_string(
                        value,
                        len,
                        #[trigger] candidates[j]@,
                    ),
            },
        decreases candidates.len() - from,
    {
        if from < candidates.len() && !self.lists_string(value, len, candidates[from]@) {
            self.lemma_first_listed_is_least(value, len, candidates, from + 1);
        }
    }

    /// A walk by name goes into the nodes of the body in the order of the
    /// tokens, and ends at the first whose name matches: it returns that
    /// node, and no node that it went into before has the name. Where it
    /// finds nothing, it has gone into every node of the body, and none has
    /// the name.
    pub proof fn lemma_walk_finds_first_match(
        &self,
        name: Seq<u8>,
        parents: Seq<DtbNode>,
        node: DtbNode,
        matched: bool,
        p: int,
    )
        requires
            self.well_formed(),
            self.name_walk(name, parents, node, matched, p) is Some,
        ensures
            ({
                let end = self.name_walk(name, parents, node, matched, p)->0;
                let visits = self.name_walk_visits(name, parents, node, matched, p);
                let nodes = self.nodes_in_body(p, parents.len());
                &&& visits.len() <= nodes.len()
                &&& visits == nodes.subrange(0, visits.len() as int)
                &&& forall|i: int|
                    0 <= i < visits.len() - 1 ==> !self.matches_name(#[trigger] visits[i] + 4, name)
                &&& matched ==> visits.len() == 0 && end.found is Some
                    && end.found->0.base_pointer == node.base_pointer
                &&& !matched ==> match end.found {
                    Some(found) => {
                        &&& visits.len() > 0
                        &&& found.base_pointer == visits.last()
                        &&& self.matches_name(visits.last() + 4, name)
                    },
                    None => {
                        &&& visits == nodes
                        &&& forall|i: int|
                            0 <= i < visits.len() ==> !self.matches_name(
                                #[trigger] visits[i] + 4,
                                name,
                            )
                    },
                }
            }),
        decreases self.remaining(p),
    {
        let visits = self.name_walk_visits(name, parents, node, matched, p);
        let nodes = self.nodes_in_body(p, parents.len());
        match self.word_at(p) {
            None => {},
            Some(token) => {
                if token == FDT_END_NODE {
                    if matched || parents.len() == 0 {
                        assert(visits =~= nodes.subrange(0, 0));
                        if !matched {
                            assert(nodes =~= Seq::<int>::empty());
                        }
                    } else {
                        self.lemma_walk_finds_first_match(
                            name,
                            parents.drop_last(),
                            parents.last(),
                            false,
                            p + 4,
                        );
                    }
                } else if token == FDT_PROP {
                    match self.node_after_property(node, p) {
                        None => {},
                        Some(next) => {
                            self.lemma_walk_finds_first_match(
                                name,
                                parents,
                                next,
                                matched,
                                self.property_end(p),
                            );
                        },
                    }
                } else if token == FDT_BEGIN_NODE {
                    if matched {
                        assert(visits =~= nodes.subrange(0, 0));
                    } else {
                        match self.after_string(p + 4) {
                            None => {},
                            Some(e) => {
                                self.lemma_after_string_bounds(p + 4);
                                let is_match = self.matches_name(p + 4, name);
                                self.lemma_walk_finds_first_match(
                                    name,
                                    parents.push(node),
                                    child_of(node, p as u64),
                                    is_match,
                                    align4(e),
                                );
                                let rest = self.name_walk_visits(
                                    name,
                                    parents.push(node),
                                    child_of(node, p as u64),
                                    is_match,
                                    align4(e),
                                );
                                let below = self.nodes_in_body(align4(e), parents.len() + 1);
                                assert(visits == seq![p] + rest);
                                assert(nodes == seq![p] + below);
                                assert(visits =~= nodes.subrange(0, visits.len() as int));
                                assert forall|i: int| 0 <= i < visits.len() - 1 implies !self.matches_name(
                                    #[trigger] visits[i] + 4,
                                    name,
                                ) by {
                                    if i > 0 {
                                        assert(visits[i] == rest[i - 1]);
                                    }
                                }
                                if !is_match {
                                    let end = self.name_walk(name, parents, node, matched, p)->0;
                                    if end.found is Some {
                                        assert(visits.last() == rest.last());
                                    } else {
                                        assert forall|i: int| 0 <= i < visits.len() implies !self.matches_name(
                                            #[trigger] visits[i] + 4,
                                            name,
                                        ) by {
                                            if i > 0 {
                                                assert(visits[i] == rest[i - 1]);
                                            }
                                        }
                                    }
                                }
                            },
                        }
                    }
                } else if token == FDT_NOP {
                    self.lemma_walk_finds_first_match(name, parents, node, matched, p + 4);
                }
            },
        }
    }

    /// Whether the property record at `q` is a `compatible` whose list holds
    /// a candidate, candidate `i` being the first that it holds.
    pub open spec fn answers_at(&self, candidates: Seq<&[u8]>, q: int, i: usize) -> bool {
        &&& self.word_at(q) == Some(FDT_PROP)
        &&& self.property_name(q) is Some
        &&& self.matches_string(self.property_name(q)->0, prop_compatible())
        &&& self.first_listed(q + 12, self.word_at(q + 4)->0 as int, candidates, 0) == Some(i)
    }

    /// The index that a walk by `compatible` returns is the one that the
    /// walk started with, or that of the first candidate in the list of a
    /// `compatible` property that the walk has read.
    pub proof fn lemma_compatible_index_is_listed(
        &self,
        candidates: Seq<&[u8]>,
        parents: Seq<DtbNode>,
        node: DtbNode,
        index: Option<usize>,
        p: int,
    )
        requires
            self.compatible_walk(candidates, parents, node, index, p) is Some,
            self.compatible_walk(candidates, parents, node, index, p)->0.found is Some,
        ensures
            ({
                let found = self.compatible_walk(candidates, parents, node, index, p)->0.found->0;
                index == Some(found.1) || exists|q: int|
                    p <= q && #[trigger] self.answers_at(candidates, q, found.1)
            }),
        decreases self.remaining(p),
    {
        let found = self.compatible_walk(candidates, parents, node, index, p)->0.found->0;
        match self.word_at(p) {
            None => {},
            Some(token) => {
                if token == FDT_END_NODE {
                    if index is None && parents.len() != 0 {
                        self.lemma_compatible_index_is_listed(
                            candidates,
                            parents.drop_last(),
                            parents.last(),
                            None,
                            p + 4,
                        );
                        let q = choose|q: int|
                            p + 4 <= q && #[trigger] self.answers_at(candidates, q, found.1);
                        assert(p <= q && self.answers_at(candidates, q, found.1));
                    }
                } else if token == FDT_PROP {
                    match self.node_after_property(node, p) {
                        None => {},
                        Some(next) => {
                            let after = self.index_after_property(candidates, index, p);
                            self.lemma_compatible_index_is_listed(
                                candidates,
                                parents,
                                next,
                                after,
                                self.property_end(p),
                            );
                            if after == Some(found.1) {
                                if index != after {
                                    assert(self.answers_at(candidates, p, found.1));
                                }
                            } else {
                                let q = choose|q: int|
                                    self.property_end(p) <= q && #[trigger] self.answers_at(
                                        candidates,
                                        q,
                                        found.1,
                                    );
                                assert(p <= q && self.answers_at(candidates, q, found.1));
                            }
                        },
                    }
                } else if token == FDT_BEGIN_NODE {
                    if index is None {
                        match self.after_string(p + 4) {
                            None => {},
                            Some(e) => {
                                self.lemma_after_string_bounds(p + 4);
                                self.lemma_compatible_index_is_listed(
                                    candidates,
                                    parents.push(node),
                                    child_of(node, p as u64),
                                    None,
                                    align4(e),
                                );
                                let q = choose|q: int|
                                    align4(e) <= q && #[trigger] self.answers_at(
                                        candidates,
                                        q,
                                        found.1,
                                    );
                                assert(p <= q && self.answers_at(candidates, q, found.1));
                            },
                        }
                    }
                } else if token == FDT_NOP {
                    self.lemma_compatible_index_is_listed(candidates, parents, node, index, p + 4);
                    if index != Some(found.1) {
                        let q = choose|q: int|
                            p + 4 <= q && #[trigger] self.answers_at(candidates, q, found.1);
                        assert(p <= q && self.answers_at(candidates, q, found.1));
                    }
                }
            },
        }
    }
}

} // verus!
