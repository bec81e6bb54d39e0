//! The hyperedge record: an owned node sequence and a weight.

use vstd::prelude::*;

verus! {

/// A weighted hyperedge: an edge that can link any number of nodes.
///
/// The node sequence is owned exclusively by the record; duplicates and
/// order are preserved.  The weight is the bit pattern of an `f64`; an
/// unweighted hypergraph stores 0 (the bits of `0.0`) in every record.
/// Identity of a hyperedge is its node sequence; the weight plays no part.
#[derive(Clone, Debug)]
pub struct Hyperedge {
    /// The nodes connected by this hyperedge, in the order they were given.
    pub nodes: Vec<i64>,
    /// The weight of the hyperedge, as `f64` bits.
    pub weight: u64,
}

impl Hyperedge {
    /// Creates a new hyperedge record from its node sequence and weight.
    pub fn new(nodes: Vec<i64>, weight: u64) -> (r: Hyperedge)
        ensures
            r.nodes@ == nodes@,
            r.weight == weight,
    {
        Hyperedge { nodes, weight }
    }

    /// Changes the weight of this hyperedge.
    pub fn set_weight(&mut self, weight: u64)
        ensures
            final(self).nodes@ == old(self).nodes@,
            final(self).weight == weight,
    {
        self.weight = weight;
    }
}

impl PartialEq for Hyperedge {
    /// Two records are equal when their node sequences are equal; the
    /// weight is not part of a hyperedge's identity.
    fn eq(&self, other: &Hyperedge) -> (r: bool) {
        let r = self.nodes == other.nodes;
        proof {
            assert(self.nodes@ =~= other.nodes@ <==> self.nodes@ == other.nodes@);
        }
        r
    }
}

impl Eq for Hyperedge {

}

impl vstd::std_specs::cmp::PartialEqSpecImpl for Hyperedge {
    open spec fn obeys_eq_spec() -> bool {
        true
    }

    open spec fn eq_spec(&self, other: &Hyperedge) -> bool {
        self.nodes@ == other.nodes@
    }
}

} // verus!
