//! The hypergraph store: a dual index kept consistent under every mutation.
//!
//! Two mutually-referencing indexes are held as parallel vectors:
//! an incidence index (node -> duplicate-free list of edge ids) and a
//! content-addressed edge table (edge id -> node sequence and weight),
//! keyed by the fingerprint of the edge's node sequence.

use vstd::prelude::*;

use crate::fingerprint::{compute_edge_id, edge_id_of};
use crate::hyperedge::Hyperedge;
use crate::util::{contains_i64, contains_u64, copy_i64_vec, lemma_nodup_index_of, vec_index_mut};
use vstd::pervasive::VecAdditionalExecFns;

verus! {

/// Core struct to represent a hypergraph: a generalization of a graph in
/// which each edge may connect any number of nodes.
///
/// Every hyperedge is identified by a 64-bit fingerprint of its node
/// sequence.  The store keeps the fingerprint-keyed edge table and, for
/// each node, the set of fingerprints of the edges touching it.  Callers
/// speak in node sequences; the store computes the fingerprint and operates
/// on that id.
#[derive(Clone, Debug)]
pub struct Hypergraph {
    /// Whether the hypergraph is weighted.  When it is not, every stored
    /// weight is 0.
    weighted: bool,
    /// The nodes of the hypergraph, each exactly once.
    inc_nodes: Vec<i64>,
    /// For each node in `inc_nodes` (by position), the duplicate-free list
    /// of ids of the hyperedges that contain it.
    inc_ids: Vec<Vec<u64>>,
    /// The edge ids, each exactly once; `eids[k]` is the fingerprint of
    /// `enodes[k]`.
    eids: Vec<u64>,
    /// For each edge (by position), its node sequence.
    enodes: Vec<Vec<i64>>,
    /// For each edge (by position), its weight as `f64` bits.
    eweights: Vec<u64>,
}

/// The weight actually stored when `w` is offered to a hypergraph whose
/// weighted flag is `weighted`: an unweighted hypergraph coerces every
/// weight to 0.
pub open spec fn coerce_weight(weighted: bool, w: u64) -> u64 {
    if weighted {
        w
    } else {
        0
    }
}

/// The single arity filter a query works with: `order` selects edges of
/// size `order + 1`, `size` selects edges of that size, and neither means
/// no filtering.  (Callers must not supply both.)
pub open spec fn spec_filter(order: Option<usize>, size: Option<usize>) -> Option<int> {
    match order {
        Some(o) => Some(o + 1),
        None => match size {
            Some(s) => Some(s as int),
            None => None,
        },
    }
}

impl Hypergraph {
    // ------------------------------------------------------------------
    // The mathematical model.
    // ------------------------------------------------------------------
    /// Whether the hypergraph is weighted.
    pub closed spec fn spec_weighted(&self) -> bool {
        self.weighted
    }

    /// The nodes, as a set.
    pub closed spec fn node_set(&self) -> Set<i64> {
        self.inc_nodes@.to_set()
    }

    /// Whether `n` is a node of the hypergraph.
    pub open spec fn has_node(&self, n: i64) -> bool {
        self.node_set().contains(n)
    }

    /// The ids of the hyperedges, in storage order, each exactly once.
    pub closed spec fn edge_id_seq(&self) -> Seq<u64> {
        self.eids@
    }

    /// The ids of the hyperedges, as a set.
    pub open spec fn edge_ids(&self) -> Set<u64> {
        self.edge_id_seq().to_set()
    }

    /// Whether an edge with id `id` is present.
    pub open spec fn has_edge_id(&self, id: u64) -> bool {
        self.edge_ids().contains(id)
    }

    /// Whether the hyperedge with node sequence `nodes` is present.
    pub open spec fn has_edge(&self, nodes: Seq<i64>) -> bool {
        self.has_edge_id(edge_id_of(nodes))
    }

    /// The node sequence of the edge with id `id` (meaningful only when
    /// `has_edge_id(id)`).
    pub closed spec fn edge_nodes(&self, id: u64) -> Seq<i64> {
        self.enodes@[self.eids@.index_of(id)]@
    }

    /// The weight of the edge with id `id` (meaningful only when
    /// `has_edge_id(id)`).
    pub closed spec fn edge_weight(&self, id: u64) -> u64 {
        self.eweights@[self.eids@.index_of(id)]
    }

    /// The arity of the edge with id `id`.
    pub open spec fn edge_size(&self, id: u64) -> int {
        self.edge_nodes(id).len() as int
    }

    /// The ids of the edges that contain node `n`, as a set.
    pub closed spec fn ids_of(&self, n: i64) -> Set<u64> {
        if self.inc_nodes@.contains(n) {
            self.inc_ids@[self.inc_nodes@.index_of(n)]@.to_set()
        } else {
            Set::empty()
        }
    }

    /// Whether the edge with id `id` is present and passes the arity
    /// filter `filt` (no filter passes everything).
    pub open spec fn edge_selected(&self, id: u64, filt: Option<int>) -> bool {
        self.has_edge_id(id) && match filt {
            Some(f) => self.edge_size(id) == f,
            None => true,
        }
    }

    // ------------------------------------------------------------------
    // Well-formedness: the invariant every public operation preserves.
    // ------------------------------------------------------------------
    /// The store invariant:
    /// - parallel vectors agree in length, node and id keys are unique;
    /// - every id referenced from an incidence entry resolves to an edge
    ///   whose node sequence contains that node (no dangling ids);
    /// - every node of every edge has an incidence entry that references
    ///   the edge's id;
    /// - each edge is keyed by the fingerprint of its node sequence;
    /// - an unweighted hypergraph stores only zero weights.
    pub closed spec fn wf(&self) -> bool {
        &&& self.inc_nodes@.len() == self.inc_ids@.len()
        &&& self.eids@.len() == self.enodes@.len()
        &&& self.eids@.len() == self.eweights@.len()
        &&& self.inc_nodes@.no_duplicates()
        &&& self.eids@.no_duplicates()
        &&& forall|i: int|
            0 <= i < self.inc_ids@.len() ==> (#[trigger] self.inc_ids@[i])@.no_duplicates()
        &&& forall|i: int, j: int|
            0 <= i < self.inc_ids@.len() && 0 <= j < self.inc_ids@[i]@.len() ==> {
                &&& self.eids@.contains(#[trigger] self.inc_ids@[i]@[j])
                &&& self.enodes@[self.eids@.index_of(self.inc_ids@[i]@[j])]@.contains(
                    self.inc_nodes@[i],
                )
            }
        &&& forall|k: int, p: int|
            0 <= k < self.enodes@.len() && 0 <= p < self.enodes@[k]@.len() ==> {
                &&& self.inc_nodes@.contains(#[trigger] self.enodes@[k]@[p])
                &&& self.inc_ids@[self.inc_nodes@.index_of(self.enodes@[k]@[p])]@.contains(
                    self.eids@[k],
                )
            }
        &&& forall|k: int|
            0 <= k < self.eids@.len() ==> self.eids@[k] == edge_id_of(
                (#[trigger] self.enodes@[k])@,
            )
        &&& !self.weighted ==> forall|k: int|
            0 <= k < self.eweights@.len() ==> #[trigger] self.eweights@[k] == 0
    }

    // ------------------------------------------------------------------
    // Exported consequences of the invariant.
    // ------------------------------------------------------------------
    /// An id referenced from a node's incidence entry resolves to a
    /// present edge whose node sequence contains the node.
    pub proof fn lemma_incidence_sound(&self, n: i64, id: u64)
        requires
            self.wf(),
            self.ids_of(n).contains(id),
        ensures
            self.has_node(n),
            self.has_edge_id(id),
            self.edge_nodes(id).contains(n),
    {
        assert(self.inc_nodes@.contains(n));
        let i = self.inc_nodes@.index_of(n);
        let j = choose|j: int| 0 <= j < self.inc_ids@[i]@.len() && self.inc_ids@[i]@[j] == id;
        assert(self.eids@.contains(self.inc_ids@[i]@[j]));
        assert(self.enodes@[self.eids@.index_of(id)]@.contains(self.inc_nodes@[i]));
    }

    /// Every node of a present edge has an incidence entry referencing it.
    pub proof fn lemma_incidence_complete(&self, n: i64, id: u64)
        requires
            self.wf(),
            self.has_edge_id(id),
            self.edge_nodes(id).contains(n),
        ensures
            self.has_node(n),
            self.ids_of(n).contains(id),
    {
        let k = self.eids@.index_of(id);
        assert(0 <= k < self.eids@.len() && self.eids@[k] == id) by {
            assert(exists|x: int| 0 <= x < self.eids@.len() && self.eids@[x] == id);
        }
        let p = choose|p: int| 0 <= p < self.enodes@[k]@.len() && self.enodes@[k]@[p] == n;
        assert(self.inc_nodes@.contains(self.enodes@[k]@[p]));
        assert(self.inc_ids@[self.inc_nodes@.index_of(n)]@.contains(self.eids@[k]));
    }

    /// A present edge is keyed by the fingerprint of its node sequence.
    pub proof fn lemma_edge_id(&self, id: u64)
        requires
            self.wf(),
            self.has_edge_id(id),
        ensures
            edge_id_of(self.edge_nodes(id)) == id,
    {
        let k = self.eids@.index_of(id);
        assert(0 <= k < self.eids@.len() && self.eids@[k] == id) by {
            assert(exists|x: int| 0 <= x < self.eids@.len() && self.eids@[x] == id);
        }
        lemma_nodup_index_of(self.eids@, k);
    }

    /// No two distinct present ids hold the same node sequence.
    pub proof fn lemma_edges_distinct(&self, id1: u64, id2: u64)
        requires
            self.wf(),
            self.has_edge_id(id1),
            self.has_edge_id(id2),
            id1 != id2,
        ensures
            self.edge_nodes(id1) != self.edge_nodes(id2),
    {
        self.lemma_edge_id(id1);
        self.lemma_edge_id(id2);
    }

    /// In an unweighted hypergraph every stored weight is 0.
    pub proof fn lemma_unweighted(&self, id: u64)
        requires
            self.wf(),
            !self.spec_weighted(),
            self.has_edge_id(id),
        ensures
            self.edge_weight(id) == 0,
    {
        let k = self.eids@.index_of(id);
        assert(0 <= k < self.eids@.len() && self.eids@[k] == id) by {
            assert(exists|x: int| 0 <= x < self.eids@.len() && self.eids@[x] == id);
        }
    }

    /// What a node's incidence set is, in terms of the edge table alone.
    pub proof fn lemma_ids_of_characterization(&self, n: i64)
        requires
            self.wf(),
        ensures
            self.has_node(n) ==> self.ids_of(n) == Set::new(
                |id: u64| self.has_edge_id(id) && self.edge_nodes(id).contains(n),
            ),
            !self.has_node(n) ==> self.ids_of(n) == Set::<u64>::empty(),
    {
        if self.has_node(n) {
            assert forall|id: u64| self.ids_of(n).contains(id) implies self.has_edge_id(id)
                && self.edge_nodes(id).contains(n) by {
                self.lemma_incidence_sound(n, id);
            }
            assert forall|id: u64|
                self.has_edge_id(id) && self.edge_nodes(id).contains(n) implies self.ids_of(
                n,
            ).contains(id) by {
                self.lemma_incidence_complete(n, id);
            }
            assert(self.ids_of(n) =~= Set::new(
                |id: u64| self.has_edge_id(id) && self.edge_nodes(id).contains(n),
            ));
        } else {
            assert(!self.inc_nodes@.contains(n));
        }
    }

    /// The id listing holds each present id exactly once, so its length
    /// is the number of hyperedges: the listing functions (`get_sizes`,
    /// `get_weights`, `get_edges`, `iter_edges`) each return one entry per
    /// hyperedge.
    pub proof fn lemma_edge_id_seq_nodup(&self)
        requires
            self.wf(),
        ensures
            self.edge_id_seq().no_duplicates(),
            self.edge_id_seq().to_set() == self.edge_ids(),
            self.edge_id_seq().len() == self.edge_ids().len(),
    {
        self.eids@.unique_seq_to_set();
    }

    /// The node and edge-id sets are finite.
    pub proof fn lemma_model_finite(&self)
        ensures
            self.node_set().finite(),
            self.edge_ids().finite(),
            forall|n: i64| (#[trigger] self.ids_of(n)).finite(),
    {
        broadcast use vstd::seq_lib::seq_to_set_is_finite;

        assert forall|n: i64| (#[trigger] self.ids_of(n)).finite() by {
            if self.inc_nodes@.contains(n) {
                assert(self.ids_of(n) == self.inc_ids@[self.inc_nodes@.index_of(n)]@.to_set());
            }
        }
    }

    // ------------------------------------------------------------------
    // Internal lookups.
    // ------------------------------------------------------------------
    /// Position of node `n` in the incidence index.
    fn find_node_idx(&self, n: i64) -> (r: Option<usize>)
        requires
            self.inc_nodes@.no_duplicates(),
        ensures
            match r {
                Some(i) => i < self.inc_nodes@.len() && self.inc_nodes@[i as int] == n
                    && self.inc_nodes@.index_of(n) == i,
                None => !self.inc_nodes@.contains(n),
            },
    {
        crate::util::find_idx_i64(&self.inc_nodes, n)
    }

    /// Position of edge id `id` in the edge table.
    fn find_edge_idx(&self, id: u64) -> (r: Option<usize>)
        requires
            self.eids@.no_duplicates(),
        ensures
            match r {
                Some(k) => k < self.eids@.len() && self.eids@[k as int] == id
                    && self.eids@.index_of(id) == k,
                None => !self.has_edge_id(id),
            },
    {
        crate::util::find_idx_u64(&self.eids, id)
    }

    // ------------------------------------------------------------------
    // Construction and basic queries.
    // ------------------------------------------------------------------
    /// Creates a new, empty hypergraph.
    pub fn new(weighted: bool) -> (r: Hypergraph)
        ensures
            r.wf(),
            r.spec_weighted() == weighted,
            r.node_set() == Set::<i64>::empty(),
            r.edge_id_seq() == Seq::<u64>::empty(),
    {
        let r = Hypergraph {
            weighted,
            inc_nodes: Vec::new(),
            inc_ids: Vec::new(),
            eids: Vec::new(),
            enodes: Vec::new(),
            eweights: Vec::new(),
        };
        proof {
            assert(r.node_set() =~= Set::<i64>::empty());
        }
        r
    }

    /// Whether the hypergraph is weighted.
    pub fn is_weighted(&self) -> (r: bool)
        ensures
            r == self.spec_weighted(),
    {
        self.weighted
    }

    /// The number of nodes in the hypergraph.
    pub fn num_nodes(&self) -> (r: usize)
        requires
            self.wf(),
        ensures
            r == self.node_set().len(),
    {
        proof {
            self.inc_nodes@.unique_seq_to_set();
        }
        self.inc_nodes.len()
    }

    /// The number of hyperedges in the hypergraph.
    pub fn num_edges(&self) -> (r: usize)
        requires
            self.wf(),
        ensures
            r == self.edge_ids().len(),
    {
        proof {
            self.eids@.unique_seq_to_set();
        }
        self.eids.len()
    }

    /// Whether node `n` is in the hypergraph.
    pub fn check_node(&self, node: i64) -> (r: bool)
        requires
            self.wf(),
        ensures
            r == self.has_node(node),
    {
        contains_i64(&self.inc_nodes, node)
    }

    /// Whether the hyperedge with node sequence `edge` is in the
    /// hypergraph.
    pub fn check_edge(&self, edge: &Vec<i64>) -> (r: bool)
        requires
            self.wf(),
        ensures
            r == self.has_edge(edge@),
    {
        let edge_id = compute_edge_id(edge);
        contains_u64(&self.eids, edge_id)
    }

    /// Adds a node; returns whether it was newly inserted.
    pub fn add_node(&mut self, node: i64) -> (r: bool)
        requires
            old(self).wf(),
        ensures
            final(self).wf(),
            r == !old(self).has_node(node),
            final(self).spec_weighted() == old(self).spec_weighted(),
            final(self).node_set() == old(self).node_set().insert(node),
            final(self).edge_id_seq() == old(self).edge_id_seq(),
            forall|id: u64|
                old(self).has_edge_id(id) ==> final(self).edge_nodes(id) == old(self).edge_nodes(id)
                    && final(self).edge_weight(id) == old(self).edge_weight(id),
    {
        if contains_i64(&self.inc_nodes, node) {
            proof {
                assert(self.node_set() =~= old(self).node_set().insert(node));
            }
            false
        } else {
            let ghost pre = *self;
            self.inc_nodes.push(node);
            self.inc_ids.push(Vec::new());
            proof {
                pre.inc_nodes@.lemma_push_to_set_commute(node);
                assert forall|i: int, j: int|
                    0 <= i < self.inc_ids@.len() && 0 <= j
                        < self.inc_ids@[i]@.len() implies #[trigger] self.eids@.contains(
                    self.inc_ids@[i]@[j],
                ) && self.enodes@[self.eids@.index_of(self.inc_ids@[i]@[j])]@.contains(
                    self.inc_nodes@[i],
                ) by {
                    if i < pre.inc_ids@.len() {
                        assert(pre.eids@.contains(pre.inc_ids@[i]@[j]));
                    }
                }
                assert forall|k: int, p: int|
                    0 <= k < self.enodes@.len() && 0 <= p
                        < self.enodes@[k]@.len() implies self.inc_nodes@.contains(
                    #[trigger] self.enodes@[k]@[p],
                ) && self.inc_ids@[self.inc_nodes@.index_of(self.enodes@[k]@[p])]@.contains(
                    self.eids@[k],
                ) by {
                    assert(pre.inc_nodes@.contains(pre.enodes@[k]@[p]));
                    let i = pre.inc_nodes@.index_of(pre.enodes@[k]@[p]);
                    assert(pre.inc_ids@[i]@.contains(pre.eids@[k]));
                    assert(self.inc_nodes@[i] == pre.enodes@[k]@[p]);
                    lemma_nodup_index_of(self.inc_nodes@, i);
                }
            }
            true
        }
    }

    /// Empties the hypergraph; the weighted flag is preserved.
    pub fn clear(&mut self)
        ensures
            final(self).wf(),
            final(self).spec_weighted() == old(self).spec_weighted(),
            final(self).node_set() == Set::<i64>::empty(),
            final(self).edge_id_seq() == Seq::<u64>::empty(),
    {
        self.inc_nodes.clear();
        self.inc_ids.clear();
        self.eids.clear();
        self.enodes.clear();
        self.eweights.clear();
        proof {
            assert(self.node_set() =~= Set::<i64>::empty());
        }
    }
}

/// The exact effect of offering the hyperedge `nodes` with weight `weight`
/// to `pre`, yielding `post` and the result `r`: a fresh fingerprint inserts
/// the record and registers it with every node of the sequence; a present
/// fingerprint only overwrites the weight in place.
pub open spec fn add_edge_post(
    pre: Hypergraph,
    post: Hypergraph,
    nodes: Seq<i64>,
    weight: u64,
    r: bool,
) -> bool {
    let id = edge_id_of(nodes);
    &&& post.wf()
    &&& r == !pre.has_edge_id(id)
    &&& post.spec_weighted() == pre.spec_weighted()
    &&& post.edge_weight(id) == coerce_weight(pre.spec_weighted(), weight)
    &&& forall|id2: u64|
        pre.has_edge_id(id2) && id2 != id ==> #[trigger] post.edge_nodes(id2) == pre.edge_nodes(
            id2,
        )
    &&& forall|id2: u64|
        pre.has_edge_id(id2) && id2 != id ==> #[trigger] post.edge_weight(id2) == pre.edge_weight(
            id2,
        )
    &&& if pre.has_edge_id(id) {
        &&& post.node_set() == pre.node_set()
        &&& post.edge_id_seq() == pre.edge_id_seq()
        &&& post.edge_nodes(id) == pre.edge_nodes(id)
    } else {
        &&& post.node_set() == pre.node_set().union(nodes.to_set())
        &&& post.edge_id_seq() == pre.edge_id_seq().push(id)
        &&& post.edge_nodes(id) == nodes
    }
}

impl Hypergraph {
    /// Inserts or re-weights the hyperedge `edge`, returning whether it was
    /// newly inserted.
    fn compute_add_edge(&mut self, edge: &Vec<i64>, weight: u64) -> (r: bool)
        requires
            old(self).wf(),
        ensures
            add_edge_post(*old(self), *final(self), edge@, weight, r),
    {
        let edge_id = compute_edge_id(edge);
        let w = if self.weighted {
            weight
        } else {
            0
        };
        match self.find_edge_idx(edge_id) {
            Some(k) => {
                self.eweights.set(k, w);
                proof {
                    assert(self.wf());
                    assert forall|id2: u64|
                        old(self).has_edge_id(id2) && id2 != edge_id implies #[trigger] self
                        .edge_weight(id2) == old(self).edge_weight(id2) by {
                        let k2 = self.eids@.index_of(id2);
                        assert(0 <= k2 < self.eids@.len() && self.eids@[k2] == id2) by {
                            assert(exists|x: int|
                                0 <= x < self.eids@.len() && self.eids@[x] == id2);
                        }
                        assert(k2 != k);
                    }
                }
                false
            },
            None => {
                let ghost pre = *self;
                self.eids.push(edge_id);
                self.enodes.push(copy_i64_vec(edge));
                self.eweights.push(w);
                let ghost kk = pre.eids@.len() as int;
                proof {
                    assert forall|i: int, j: int|
                        0 <= i < self.eids@.len() && 0 <= j < self.eids@.len() && i
                            != j implies self.eids@[i] != self.eids@[j] by {
                        if i < kk && j < kk {
                        } else if i == kk {
                            assert(pre.eids@.contains(pre.eids@[j]));
                        } else if j == kk {
                            assert(pre.eids@.contains(pre.eids@[i]));
                        }
                    }
                    assert(self.eids@.no_duplicates());
                    lemma_nodup_index_of(self.eids@, kk);
                    assert forall|i: int, j: int|
                        0 <= i < self.inc_ids@.len() && 0 <= j
                            < self.inc_ids@[i]@.len() implies {
                        &&& self.eids@.contains(#[trigger] self.inc_ids@[i]@[j])
                        &&& self.enodes@[self.eids@.index_of(self.inc_ids@[i]@[j])]@.contains(
                            self.inc_nodes@[i],
                        )
                    } by {
                        let id2 = self.inc_ids@[i]@[j];
                        assert(pre.eids@.contains(id2));
                        let k2 = choose|k2: int| 0 <= k2 < pre.eids@.len() && pre.eids@[k2] == id2;
                        assert(self.eids@[k2] == id2);
                        lemma_nodup_index_of(self.eids@, k2);
                        lemma_nodup_index_of(pre.eids@, k2);
                        assert(self.enodes@[k2] == pre.enodes@[k2]);
                        assert(pre.enodes@[pre.eids@.index_of(id2)]@.contains(pre.inc_nodes@[i]));
                    }
                    assert(edge@.subrange(0, 0).to_set() =~= Set::<i64>::empty());
                    assert(self.inc_nodes@.to_set() =~= pre.inc_nodes@.to_set().union(
                        edge@.subrange(0, 0).to_set(),
                    ));
                }
                let mut p: usize = 0;
                while p < edge.len()
                    invariant
                        self.weighted == pre.weighted,
                        self.eids@ == pre.eids@.push(edge_id),
                        self.eids@.no_duplicates(),
                        self.enodes@.len() == pre.enodes@.len() + 1,
                        forall|k2: int|
                            0 <= k2 < pre.enodes@.len() ==> #[trigger] self.enodes@[k2]
                                == pre.enodes@[k2],
                        self.enodes@[kk]@ == edge@,
                        self.eweights@ == pre.eweights@.push(w),
                        !pre.has_edge_id(edge_id),
                        kk == pre.eids@.len(),
                        w == coerce_weight(pre.weighted, weight),
                        edge_id == edge_id_of(edge@),
                        pre.wf(),
                        p <= edge@.len(),
                        self.inc_nodes@.len() == self.inc_ids@.len(),
                        self.inc_nodes@.no_duplicates(),
                        forall|i: int|
                            0 <= i < self.inc_ids@.len() ==> (
                            #[trigger] self.inc_ids@[i])@.no_duplicates(),
                        self.inc_nodes@.len() >= pre.inc_nodes@.len(),
                        forall|i: int|
                            0 <= i < pre.inc_nodes@.len() ==> #[trigger] self.inc_nodes@[i]
                                == pre.inc_nodes@[i],
                        self.inc_nodes@.to_set() == pre.inc_nodes@.to_set().union(
                            edge@.subrange(0, p as int).to_set(),
                        ),
                        forall|i: int|
                            0 <= i < pre.inc_ids@.len() ==> ((#[trigger] self.inc_ids@[i])@
                                == pre.inc_ids@[i]@ || self.inc_ids@[i]@ == pre.inc_ids@[i]@.push(
                                edge_id,
                            )),
                        forall|i: int|
                            pre.inc_ids@.len() <= i < self.inc_ids@.len() ==> (
                            #[trigger] self.inc_ids@[i])@ =~= seq![edge_id],
                        forall|i: int, j: int|
                            0 <= i < self.inc_ids@.len() && 0 <= j < self.inc_ids@[i]@.len() ==> {
                                &&& self.eids@.contains(#[trigger] self.inc_ids@[i]@[j])
                                &&& self.enodes@[self.eids@.index_of(
                                    self.inc_ids@[i]@[j],
                                )]@.contains(self.inc_nodes@[i])
                            },
                        forall|k2: int, q: int|
                            0 <= k2 < pre.enodes@.len() && 0 <= q < self.enodes@[k2]@.len() ==> {
                                &&& self.inc_nodes@.contains(#[trigger] self.enodes@[k2]@[q])
                                &&& self.inc_ids@[self.inc_nodes@.index_of(
                                    self.enodes@[k2]@[q],
                                )]@.contains(self.eids@[k2])
                            },
                        forall|q: int|
                            0 <= q < p ==> {
                                &&& self.inc_nodes@.contains(#[trigger] edge@[q])
                                &&& self.inc_ids@[self.inc_nodes@.index_of(edge@[q])]@.contains(
                                    edge_id,
                                )
                            },
                        forall|k2: int|
                            0 <= k2 < self.eids@.len() ==> self.eids@[k2] == edge_id_of(
                                (#[trigger] self.enodes@[k2])@,
                            ),
                        !self.weighted ==> forall|k2: int|
                            0 <= k2 < self.eweights@.len() ==> #[trigger] self.eweights@[k2] == 0,
                    decreases edge@.len() - p,
                {
                    let node = edge[p];
                    let ghost snap = *self;
                    match self.find_node_idx(node) {
                        Some(i) => {
                            let ghost entry0 = snap.inc_ids@[i as int]@;
                            let ids = vec_index_mut(&mut self.inc_ids, i);
                            let had = contains_u64(ids, edge_id);
                            if !had {
                                ids.push(edge_id);
                            }
                            proof {
                                assert(self.inc_nodes@ == snap.inc_nodes@);
                                assert(self.inc_ids@[i as int]@ == if had {
                                    entry0
                                } else {
                                    entry0.push(edge_id)
                                });
                                assert(self.inc_ids@[i as int]@.contains(edge_id)) by {
                                    if had {
                                    } else {
                                        assert(self.inc_ids@[i as int]@[entry0.len() as int]
                                            == edge_id);
                                    }
                                }
                                assert(self.inc_ids@[i as int]@.no_duplicates()) by {
                                    if !had {
                                        crate::util::lemma_push_nodup(entry0, edge_id);
                                    }
                                }
                                if (i as int) < pre.inc_ids@.len() {
                                    assert(self.inc_ids@[i as int]@ == pre.inc_ids@[i as int]@
                                        || self.inc_ids@[i as int]@ == pre.inc_ids@[
                                    i as int]@.push(edge_id)) by {
                                        if entry0 != pre.inc_ids@[i as int]@ {
                                            assert(entry0 == pre.inc_ids@[i as int]@.push(
                                                edge_id,
                                            ));
                                            assert(entry0[entry0.len() - 1] == edge_id);
                                            assert(entry0.contains(edge_id));
                                            assert(had);
                                        }
                                    }
                                } else {
                                    assert(entry0 =~= seq![edge_id]);
                                    assert(entry0[0] == edge_id);
                                    assert(entry0.contains(edge_id));
                                    assert(had);
                                    assert(self.inc_ids@[i as int]@ =~= seq![edge_id]);
                                }
                                assert forall|i2: int|
                                    0 <= i2 < self.inc_ids@.len() && i2 != i implies self.inc_ids@[
                                    i2] == snap.inc_ids@[i2] by {}
                                assert forall|i2: int, x: u64|
                                    0 <= i2 < snap.inc_ids@.len() && snap.inc_ids@[i2]@.contains(
                                        x,
                                    ) implies #[trigger] self.inc_ids@[i2]@.contains(x) by {
                                    if i2 == i {
                                        let j2 = choose|j2: int|
                                            0 <= j2 < entry0.len() && entry0[j2] == x;
                                        assert(self.inc_ids@[i2]@[j2] == x);
                                    }
                                }
                                assert(self.inc_nodes@.to_set() =~= pre.inc_nodes@.to_set().union(
                                    edge@.subrange(0, p + 1 as int).to_set(),
                                )) by {
                                    assert(edge@.subrange(0, p + 1 as int) =~= edge@.subrange(
                                        0,
                                        p as int,
                                    ).push(edge@[p as int]));
                                    edge@.subrange(0, p as int).lemma_push_to_set_commute(
                                        edge@[p as int],
                                    );
                                    assert(self.inc_nodes@.to_set().contains(node));
                                }
                                assert forall|i2: int, j: int|
                                    0 <= i2 < self.inc_ids@.len() && 0 <= j
                                        < self.inc_ids@[i2]@.len() implies {
                                    &&& self.eids@.contains(#[trigger] self.inc_ids@[i2]@[j])
                                    &&& self.enodes@[self.eids@.index_of(
                                        self.inc_ids@[i2]@[j],
                                    )]@.contains(self.inc_nodes@[i2])
                                } by {
                                    if i2 == i && self.inc_ids@[i2]@[j] == edge_id {
                                        lemma_nodup_index_of(self.eids@, kk);
                                        assert(self.eids@.contains(edge_id));
                                        assert(self.enodes@[kk]@.contains(node)) by {
                                            assert(self.enodes@[kk]@[p as int] == edge@[p as int]);
                                        }
                                    } else {
                                        assert(snap.inc_ids@[i2]@.contains(
                                            self.inc_ids@[i2]@[j],
                                        )) by {
                                            if i2 == i {
                                                assert(self.inc_ids@[i2]@[j] == entry0[j]);
                                                assert(entry0.contains(entry0[j]));
                                            } else {
                                                assert(snap.inc_ids@[i2]@[j] == self.inc_ids@[
                                                i2]@[j]);
                                            }
                                        }
                                        let j2 = choose|j2: int|
                                            0 <= j2 < snap.inc_ids@[i2]@.len()
                                                && snap.inc_ids@[i2]@[j2] == self.inc_ids@[i2]@[j];
                                        assert(self.eids@.contains(snap.inc_ids@[i2]@[j2]));
                                        assert(self.enodes@[self.eids@.index_of(
                                            snap.inc_ids@[i2]@[j2],
                                        )]@.contains(self.inc_nodes@[i2]));
                                    }
                                }
                                assert forall|k2: int, q: int|
                                    0 <= k2 < pre.enodes@.len() && 0 <= q
                                        < self.enodes@[k2]@.len() implies {
                                    &&& self.inc_nodes@.contains(#[trigger] self.enodes@[k2]@[q])
                                    &&& self.inc_ids@[self.inc_nodes@.index_of(
                                        self.enodes@[k2]@[q],
                                    )]@.contains(self.eids@[k2])
                                } by {
                                    let nd = snap.enodes@[k2]@[q];
                                    let i3 = snap.inc_nodes@.index_of(nd);
                                    assert(snap.inc_ids@[i3]@.contains(snap.eids@[k2]));
                                    assert(0 <= i3 < snap.inc_ids@.len()) by {
                                        assert(snap.inc_nodes@.contains(nd));
                                        assert(0 <= i3 < snap.inc_nodes@.len() && snap.inc_nodes@[
                                        i3] == nd) by {
                                            assert(exists|x: int|
                                                0 <= x < snap.inc_nodes@.len()
                                                    && snap.inc_nodes@[x] == nd);
                                        }
                                    }
                                    assert(self.inc_ids@[i3]@.contains(snap.eids@[k2]));
                                }
                                assert forall|q: int|
                                    0 <= q < p + 1 implies {
                                    &&& self.inc_nodes@.contains(#[trigger] edge@[q])
                                    &&& self.inc_ids@[self.inc_nodes@.index_of(edge@[q])]@.contains(
                                        edge_id,
                                    )
                                } by {
                                    if q < p {
                                        assert(snap.inc_nodes@.contains(edge@[q]));
                                        let i3 = snap.inc_nodes@.index_of(edge@[q]);
                                        assert(snap.inc_ids@[i3]@.contains(edge_id));
                                        assert(0 <= i3 < snap.inc_ids@.len()) by {
                                            assert(0 <= i3 < snap.inc_nodes@.len()
                                                && snap.inc_nodes@[i3] == edge@[q]) by {
                                                assert(exists|x: int|
                                                    0 <= x < snap.inc_nodes@.len()
                                                        && snap.inc_nodes@[x] == edge@[q]);
                                            }
                                        }
                                        assert(self.inc_ids@[i3]@.contains(edge_id));
                                    } else {
                                        assert(edge@[q] == node);
                                        assert(self.inc_nodes@.index_of(node) == i);
                                    }
                                }
                            }
                        },
                        None => {
                            self.inc_nodes.push(node);
                            let mut nv: Vec<u64> = Vec::new();
                            nv.push(edge_id);
                            self.inc_ids.push(nv);
                            let ghost ii = snap.inc_nodes@.len() as int;
                            proof {
                                assert forall|a: int, b: int|
                                    0 <= a < self.inc_nodes@.len() && 0 <= b
                                        < self.inc_nodes@.len() && a != b implies self.inc_nodes@[a]
                                    != self.inc_nodes@[b] by {
                                    if a < ii && b < ii {
                                    } else if a == ii {
                                        assert(snap.inc_nodes@.contains(snap.inc_nodes@[b]));
                                    } else if b == ii {
                                        assert(snap.inc_nodes@.contains(snap.inc_nodes@[a]));
                                    }
                                }
                                assert(self.inc_nodes@.no_duplicates());
                                lemma_nodup_index_of(self.inc_nodes@, ii);
                                assert(self.inc_ids@[ii]@ =~= seq![edge_id]);
                                assert(self.inc_nodes@.to_set() =~= pre.inc_nodes@.to_set().union(
                                    edge@.subrange(0, p + 1 as int).to_set(),
                                )) by {
                                    assert(edge@.subrange(0, p + 1 as int) =~= edge@.subrange(
                                        0,
                                        p as int,
                                    ).push(edge@[p as int]));
                                    edge@.subrange(0, p as int).lemma_push_to_set_commute(
                                        edge@[p as int],
                                    );
                                    snap.inc_nodes@.lemma_push_to_set_commute(node);
                                }
                                assert forall|i2: int, j: int|
                                    0 <= i2 < self.inc_ids@.len() && 0 <= j
                                        < self.inc_ids@[i2]@.len() implies {
                                    &&& self.eids@.contains(#[trigger] self.inc_ids@[i2]@[j])
                                    &&& self.enodes@[self.eids@.index_of(
                                        self.inc_ids@[i2]@[j],
                                    )]@.contains(self.inc_nodes@[i2])
                                } by {
                                    if i2 == ii {
                                        assert(self.inc_ids@[i2]@[j] == edge_id);
                                        lemma_nodup_index_of(self.eids@, kk);
                                        assert(self.enodes@[kk]@.contains(node)) by {
                                            assert(self.enodes@[kk]@[p as int] == edge@[p as int]);
                                        }
                                    } else {
                                        assert(self.eids@.contains(snap.inc_ids@[i2]@[j]));
                                        assert(self.enodes@[self.eids@.index_of(
                                            snap.inc_ids@[i2]@[j],
                                        )]@.contains(snap.inc_nodes@[i2]));
                                    }
                                }
                                assert forall|k2: int, q: int|
                                    0 <= k2 < pre.enodes@.len() && 0 <= q
                                        < self.enodes@[k2]@.len() implies {
                                    &&& self.inc_nodes@.contains(#[trigger] self.enodes@[k2]@[q])
                                    &&& self.inc_ids@[self.inc_nodes@.index_of(
                                        self.enodes@[k2]@[q],
                                    )]@.contains(self.eids@[k2])
                                } by {
                                    let nd = snap.enodes@[k2]@[q];
                                    assert(snap.inc_nodes@.contains(nd));
                                    let i3 = snap.inc_nodes@.index_of(nd);
                                    assert(snap.inc_nodes@[i3] == nd);
                                    assert(self.inc_nodes@[i3] == nd);
                                    lemma_nodup_index_of(self.inc_nodes@, i3);
                                    assert(self.inc_ids@[i3]@.contains(self.eids@[k2]));
                                }
                                assert forall|q: int|
                                    0 <= q < p + 1 implies {
                                    &&& self.inc_nodes@.contains(#[trigger] edge@[q])
                                    &&& self.inc_ids@[self.inc_nodes@.index_of(edge@[q])]@.contains(
                                        edge_id,
                                    )
                                } by {
                                    if q < p {
                                        assert(snap.inc_nodes@.contains(edge@[q]));
                                        let i3 = snap.inc_nodes@.index_of(edge@[q]);
                                        assert(snap.inc_nodes@[i3] == edge@[q]);
                                        lemma_nodup_index_of(self.inc_nodes@, i3);
                                        assert(snap.inc_ids@[i3]@.contains(edge_id));
                                    } else {
                                        assert(edge@[q] == node);
                                        assert(self.inc_nodes@.index_of(node) == ii);
                                        assert(self.inc_ids@[ii]@.contains(edge_id)) by {
                                            assert(self.inc_ids@[ii]@[0] == edge_id);
                                        }
                                    }
                                }
                            }
                        },
                    }
                    p += 1;
                }
                proof {
                    assert(edge@.subrange(0, edge@.len() as int) =~= edge@);
                    assert forall|k2: int, q: int|
                        0 <= k2 < self.enodes@.len() && 0 <= q
                            < self.enodes@[k2]@.len() implies {
                        &&& self.inc_nodes@.contains(#[trigger] self.enodes@[k2]@[q])
                        &&& self.inc_ids@[self.inc_nodes@.index_of(self.enodes@[k2]@[q])]@.contains(
                            self.eids@[k2],
                        )
                    } by {
                        if k2 == kk {
                            assert(self.enodes@[k2]@[q] == edge@[q]);
                        }
                    }
                    assert(self.wf());
                    lemma_nodup_index_of(self.eids@, kk);
                    assert(self.edge_nodes(edge_id) == edge@);
                    assert(self.edge_weight(edge_id) == w);
                    assert(self.node_set() =~= pre.node_set().union(edge@.to_set()));
                    assert forall|id2: u64|
                        pre.has_edge_id(id2) && id2 != edge_id implies #[trigger] self.edge_nodes(
                        id2,
                    ) == pre.edge_nodes(id2) by {
                        let k2 = pre.eids@.index_of(id2);
                        assert(0 <= k2 < pre.eids@.len() && pre.eids@[k2] == id2) by {
                            assert(exists|x: int|
                                0 <= x < pre.eids@.len() && pre.eids@[x] == id2);
                        }
                        assert(self.eids@[k2] == id2);
                        lemma_nodup_index_of(self.eids@, k2);
                        lemma_nodup_index_of(pre.eids@, k2);
                    }
                    assert forall|id2: u64|
                        pre.has_edge_id(id2) && id2 != edge_id implies #[trigger] self.edge_weight(
                        id2,
                    ) == pre.edge_weight(id2) by {
                        let k2 = pre.eids@.index_of(id2);
                        assert(0 <= k2 < pre.eids@.len() && pre.eids@[k2] == id2) by {
                            assert(exists|x: int|
                                0 <= x < pre.eids@.len() && pre.eids@[x] == id2);
                        }
                        assert(self.eids@[k2] == id2);
                        lemma_nodup_index_of(self.eids@, k2);
                        lemma_nodup_index_of(pre.eids@, k2);
                    }
                }
                true
            },
        }
    }
}

/// The exact effect of removing the hyperedge `nodes` from `pre`, yielding
/// `post` and the result `r`: a present fingerprint leaves the node set
/// untouched, strips the id from every incidence entry and drops the edge
/// record; an absent fingerprint changes nothing.
pub open spec fn remove_edge_post(pre: Hypergraph, post: Hypergraph, nodes: Seq<i64>, r: bool) -> bool {
    let id = edge_id_of(nodes);
    &&& post.wf()
    &&& post.spec_weighted() == pre.spec_weighted()
    &&& r == pre.has_edge_id(id)
    &&& post.node_set() == pre.node_set()
    &&& post.edge_ids() == pre.edge_ids().remove(id)
    &&& post.edge_id_seq() == if pre.has_edge_id(id) {
        pre.edge_id_seq().remove(pre.edge_id_seq().index_of(id))
    } else {
        pre.edge_id_seq()
    }
    &&& forall|id2: u64|
        pre.has_edge_id(id2) && id2 != id ==> #[trigger] post.edge_nodes(id2) == pre.edge_nodes(
            id2,
        )
    &&& forall|id2: u64|
        pre.has_edge_id(id2) && id2 != id ==> #[trigger] post.edge_weight(id2) == pre.edge_weight(
            id2,
        )
}

impl Hypergraph {
    /// Adds a hyperedge with default weight 0; if the hyperedge was
    /// already present its weight is overwritten with 0.  Returns `true`
    /// when the hyperedge was not already present.
    pub fn add_edge(&mut self, edge: &Vec<i64>) -> (r: bool)
        requires
            old(self).wf(),
        ensures
            add_edge_post(*old(self), *final(self), edge@, 0, r),
    {
        self.compute_add_edge(edge, 0)
    }

    /// Adds a hyperedge with the given weight (as `f64` bits); if the
    /// hyperedge was already present its weight is overwritten.  An
    /// unweighted hypergraph coerces the weight to 0.  Returns `true` when
    /// the hyperedge was not already present.
    pub fn add_edge_weighted(&mut self, edge: &Vec<i64>, weight: u64) -> (r: bool)
        requires
            old(self).wf(),
        ensures
            add_edge_post(*old(self), *final(self), edge@, weight, r),
    {
        self.compute_add_edge(edge, weight)
    }

    /// The weight of the given hyperedge, or `None` if it is not present.
    pub fn get_weight(&self, edge: &Vec<i64>) -> (r: Option<u64>)
        requires
            self.wf(),
        ensures
            r == if self.has_edge(edge@) {
                Some(self.edge_weight(edge_id_of(edge@)))
            } else {
                None::<u64>
            },
    {
        let edge_id = compute_edge_id(edge);
        match self.find_edge_idx(edge_id) {
            Some(k) => Some(self.eweights[k]),
            None => None,
        }
    }

    /// Overwrites the weight of a present hyperedge and returns the
    /// previous weight; an absent hyperedge leaves the store unchanged and
    /// signals failure.  An unweighted hypergraph coerces the weight to 0.
    pub fn set_weight(&mut self, edge: &Vec<i64>, new_weight: u64) -> (r: Result<u64, ()>)
        requires
            old(self).wf(),
        ensures
            final(self).wf(),
            final(self).spec_weighted() == old(self).spec_weighted(),
            final(self).node_set() == old(self).node_set(),
            final(self).edge_id_seq() == old(self).edge_id_seq(),
            forall|id2: u64|
                old(self).has_edge_id(id2) ==> #[trigger] final(self).edge_nodes(id2) == old(
                    self,
                ).edge_nodes(id2),
            old(self).has_edge(edge@) ==> {
                &&& r == Ok::<u64, ()>(old(self).edge_weight(edge_id_of(edge@)))
                &&& final(self).edge_weight(edge_id_of(edge@)) == coerce_weight(
                    old(self).spec_weighted(),
                    new_weight,
                )
                &&& forall|id2: u64|
                    old(self).has_edge_id(id2) && id2 != edge_id_of(edge@)
                        ==> #[trigger] final(self).edge_weight(id2) == old(self).edge_weight(id2)
            },
            !old(self).has_edge(edge@) ==> r == Err::<u64, ()>(()) && *final(self) == *old(self),
    {
        let edge_id = compute_edge_id(edge);
        match self.find_edge_idx(edge_id) {
            Some(k) => {
                let prev = self.eweights[k];
                let w = if self.weighted {
                    new_weight
                } else {
                    0
                };
                self.eweights.set(k, w);
                proof {
                    assert(self.wf());
                    assert forall|id2: u64|
                        old(self).has_edge_id(id2) && id2 != edge_id implies #[trigger] self
                        .edge_weight(id2) == old(self).edge_weight(id2) by {
                        let k2 = self.eids@.index_of(id2);
                        assert(0 <= k2 < self.eids@.len() && self.eids@[k2] == id2) by {
                            assert(exists|x: int|
                                0 <= x < self.eids@.len() && self.eids@[x] == id2);
                        }
                        assert(k2 != k);
                    }
                }
                Ok(prev)
            },
            None => Err(()),
        }
    }

    /// Removes the hyperedge with the given node sequence; returns whether
    /// it was present.
    pub fn remove_edge(&mut self, edge: &Vec<i64>) -> (r: bool)
        requires
            old(self).wf(),
        ensures
            remove_edge_post(*old(self), *final(self), edge@, r),
    {
        let edge_id = compute_edge_id(edge);
        match self.find_edge_idx(edge_id) {
            None => {
                proof {
                    assert(self.edge_ids() =~= old(self).edge_ids().remove(edge_id));
                }
                false
            },
            Some(k) => {
                let ghost pre = *self;
                let mut i: usize = 0;
                while i < self.inc_ids.len()
                    invariant
                        pre.wf(),
                        self.weighted == pre.weighted,
                        self.eids@ == pre.eids@,
                        self.enodes@ == pre.enodes@,
                        self.eweights@ == pre.eweights@,
                        self.inc_nodes@ == pre.inc_nodes@,
                        self.inc_ids@.len() == pre.inc_ids@.len(),
                        k < pre.eids@.len(),
                        pre.eids@[k as int] == edge_id,
                        pre.eids@.index_of(edge_id) == k,
                        i <= self.inc_ids@.len(),
                        forall|i2: int|
                            0 <= i2 < i ==> (#[trigger] self.inc_ids@[i2])@.no_duplicates(),
                        forall|i2: int, x: u64|
                            0 <= i2 < i ==> (#[trigger] self.inc_ids@[i2]@.contains(x) <==> (
                            pre.inc_ids@[i2]@.contains(x) && x != edge_id)),
                        forall|i2: int|
                            i <= i2 < self.inc_ids@.len() ==> #[trigger] self.inc_ids@[i2]
                                == pre.inc_ids@[i2],
                    decreases self.inc_ids@.len() - i,
                {
                    let ids = vec_index_mut(&mut self.inc_ids, i);
                    let ghost before = ids@;
                    match crate::util::find_idx_u64(ids, edge_id) {
                        Some(j) => {
                            ids.remove(j);
                            proof {
                                crate::util::lemma_remove_nodup(before, j as int);
                            }
                        },
                        None => {},
                    }
                    i += 1;
                }
                self.eids.remove(k);
                self.enodes.remove(k);
                self.eweights.remove(k);
                proof {
                    crate::util::lemma_remove_nodup(pre.eids@, k as int);
                    pre.eids@.remove_ensures(k as int);
                    pre.enodes@.remove_ensures(k as int);
                    pre.eweights@.remove_ensures(k as int);
                    assert(self.wf()) by {
                        assert forall|i2: int, j: int|
                            0 <= i2 < self.inc_ids@.len() && 0 <= j
                                < self.inc_ids@[i2]@.len() implies {
                            &&& self.eids@.contains(#[trigger] self.inc_ids@[i2]@[j])
                            &&& self.enodes@[self.eids@.index_of(self.inc_ids@[i2]@[j])]@.contains(
                                self.inc_nodes@[i2],
                            )
                        } by {
                            let id2 = self.inc_ids@[i2]@[j];
                            assert(self.inc_ids@[i2]@.contains(id2));
                            assert(pre.inc_ids@[i2]@.contains(id2) && id2 != edge_id);
                            let k2 = choose|k2: int|
                                0 <= k2 < pre.eids@.len() && pre.eids@[k2] == id2;
                            assert(pre.enodes@[pre.eids@.index_of(id2)]@.contains(
                                pre.inc_nodes@[i2],
                            ));
                            lemma_nodup_index_of(pre.eids@, k2);
                            if k2 < k {
                                assert(self.eids@[k2] == id2);
                                lemma_nodup_index_of(self.eids@, k2);
                                assert(self.enodes@[k2] == pre.enodes@[k2]);
                            } else {
                                assert(k2 > k);
                                assert(self.eids@[k2 - 1] == id2);
                                lemma_nodup_index_of(self.eids@, k2 - 1);
                                assert(self.enodes@[k2 - 1] == pre.enodes@[k2]);
                            }
                        }
                        assert forall|k2: int, p: int|
                            0 <= k2 < self.enodes@.len() && 0 <= p
                                < self.enodes@[k2]@.len() implies {
                            &&& self.inc_nodes@.contains(#[trigger] self.enodes@[k2]@[p])
                            &&& self.inc_ids@[self.inc_nodes@.index_of(
                                self.enodes@[k2]@[p],
                            )]@.contains(self.eids@[k2])
                        } by {
                            let kp = if k2 < k {
                                k2
                            } else {
                                k2 + 1
                            };
                            assert(self.enodes@[k2] == pre.enodes@[kp]);
                            assert(self.eids@[k2] == pre.eids@[kp]);
                            assert(pre.inc_nodes@.contains(pre.enodes@[kp]@[p]));
                            let i3 = pre.inc_nodes@.index_of(pre.enodes@[kp]@[p]);
                            assert(pre.inc_ids@[i3]@.contains(pre.eids@[kp]));
                            assert(pre.eids@[kp] != edge_id) by {
                                assert(kp != k);
                            }
                            assert(self.inc_ids@[i3]@.contains(pre.eids@[kp]));
                        }
                        assert forall|k2: int|
                            0 <= k2 < self.eids@.len() implies self.eids@[k2] == edge_id_of(
                            (#[trigger] self.enodes@[k2])@,
                        ) by {
                            let kp = if k2 < k {
                                k2
                            } else {
                                k2 + 1
                            };
                            assert(self.enodes@[k2] == pre.enodes@[kp]);
                            assert(self.eids@[k2] == pre.eids@[kp]);
                        }
                        if !self.weighted {
                            assert forall|k2: int|
                                0 <= k2 < self.eweights@.len() implies #[trigger] self.eweights@[k2]
                                == 0 by {
                                let kp = if k2 < k {
                                    k2
                                } else {
                                    k2 + 1
                                };
                                assert(self.eweights@[k2] == pre.eweights@[kp]);
                            }
                        }
                    }
                    assert(self.edge_ids() =~= pre.edge_ids().remove(edge_id));
                    assert forall|id2: u64|
                        pre.has_edge_id(id2) && id2 != edge_id implies #[trigger] self.edge_nodes(
                        id2,
                    ) == pre.edge_nodes(id2) && self.edge_weight(id2) == pre.edge_weight(id2) by {
                        let k2 = pre.eids@.index_of(id2);
                        assert(0 <= k2 < pre.eids@.len() && pre.eids@[k2] == id2) by {
                            assert(exists|x: int|
                                0 <= x < pre.eids@.len() && pre.eids@[x] == id2);
                        }
                        if k2 < k {
                            assert(self.eids@[k2] == id2);
                            lemma_nodup_index_of(self.eids@, k2);
                        } else {
                            assert(k2 != k);
                            assert(self.eids@[k2 - 1] == id2);
                            lemma_nodup_index_of(self.eids@, k2 - 1);
                        }
                    }
                }
                true
            },
        }
    }
}

/// The predicate that keeps everything but `node`.
pub open spec fn ne_pred(node: i64) -> spec_fn(i64) -> bool {
    |x: i64| x != node
}

/// The node sequence of an edge after a node is stripped from it: every
/// occurrence of `node` is removed, order otherwise preserved.
pub open spec fn spec_strip(nodes: Seq<i64>, node: i64) -> Seq<i64> {
    nodes.filter(ne_pred(node))
}

/// The exact effect of strongly removing `node` from `pre`: the node and
/// every edge touching it are deleted outright.
pub open spec fn strong_remove_node_post(
    pre: Hypergraph,
    post: Hypergraph,
    node: i64,
    r: bool,
) -> bool {
    &&& post.wf()
    &&& post.spec_weighted() == pre.spec_weighted()
    &&& r == pre.has_node(node)
    &&& post.node_set() == pre.node_set().remove(node)
    &&& post.edge_ids() == Set::new(
        |id: u64| pre.has_edge_id(id) && !pre.edge_nodes(id).contains(node),
    )
    &&& forall|id2: u64|
        post.has_edge_id(id2) ==> #[trigger] post.edge_nodes(id2) == pre.edge_nodes(id2)
    &&& forall|id2: u64|
        post.has_edge_id(id2) ==> #[trigger] post.edge_weight(id2) == pre.edge_weight(id2)
}

impl Hypergraph {
    /// Drops the incidence entry of a node that no present edge touches.
    fn remove_node_entry(&mut self, node: i64)
        requires
            old(self).wf(),
            old(self).ids_of(node) == Set::<u64>::empty(),
        ensures
            final(self).wf(),
            final(self).spec_weighted() == old(self).spec_weighted(),
            final(self).node_set() == old(self).node_set().remove(node),
            final(self).edge_id_seq() == old(self).edge_id_seq(),
            forall|id2: u64|
                old(self).has_edge_id(id2) ==> #[trigger] final(self).edge_nodes(id2) == old(
                    self,
                ).edge_nodes(id2),
            forall|id2: u64|
                old(self).has_edge_id(id2) ==> #[trigger] final(self).edge_weight(id2) == old(
                    self,
                ).edge_weight(id2),
    {
        match self.find_node_idx(node) {
            None => {
                proof {
                    assert(self.node_set() =~= old(self).node_set().remove(node));
                }
            },
            Some(i) => {
                let ghost pre = *self;
                self.inc_nodes.remove(i);
                self.inc_ids.remove(i);
                proof {
                    crate::util::lemma_remove_nodup(pre.inc_nodes@, i as int);
                    pre.inc_nodes@.remove_ensures(i as int);
                    pre.inc_ids@.remove_ensures(i as int);
                    assert(self.node_set() =~= pre.node_set().remove(node));
                    // no present edge contains the node
                    assert forall|k: int, p: int|
                        0 <= k < pre.enodes@.len() && 0 <= p
                            < pre.enodes@[k]@.len() implies pre.enodes@[k]@[p] != node by {
                        if pre.enodes@[k]@[p] == node {
                            assert(pre.inc_ids@[pre.inc_nodes@.index_of(node)]@.contains(
                                pre.eids@[k],
                            ));
                            assert(pre.ids_of(node).contains(pre.eids@[k]));
                        }
                    }
                    assert(self.wf()) by {
                        assert forall|i2: int, j: int|
                            0 <= i2 < self.inc_ids@.len() && 0 <= j
                                < self.inc_ids@[i2]@.len() implies {
                            &&& self.eids@.contains(#[trigger] self.inc_ids@[i2]@[j])
                            &&& self.enodes@[self.eids@.index_of(self.inc_ids@[i2]@[j])]@.contains(
                                self.inc_nodes@[i2],
                            )
                        } by {
                            let ip = if i2 < i {
                                i2
                            } else {
                                i2 + 1
                            };
                            assert(self.inc_ids@[i2] == pre.inc_ids@[ip]);
                            assert(self.inc_nodes@[i2] == pre.inc_nodes@[ip]);
                            assert(pre.eids@.contains(pre.inc_ids@[ip]@[j]));
                        }
                        assert forall|k: int, p: int|
                            0 <= k < self.enodes@.len() && 0 <= p
                                < self.enodes@[k]@.len() implies {
                            &&& self.inc_nodes@.contains(#[trigger] self.enodes@[k]@[p])
                            &&& self.inc_ids@[self.inc_nodes@.index_of(
                                self.enodes@[k]@[p],
                            )]@.contains(self.eids@[k])
                        } by {
                            let nd = self.enodes@[k]@[p];
                            assert(pre.inc_nodes@.contains(nd));
                            assert(nd != node);
                            let i3 = pre.inc_nodes@.index_of(nd);
                            assert(pre.inc_nodes@[i3] == nd);
                            assert(pre.inc_ids@[i3]@.contains(pre.eids@[k]));
                            assert(i3 != i);
                            let i3p = if i3 < i {
                                i3
                            } else {
                                i3 - 1
                            };
                            assert(self.inc_nodes@[i3p] == nd);
                            lemma_nodup_index_of(self.inc_nodes@, i3p);
                            assert(self.inc_ids@[i3p] == pre.inc_ids@[i3]);
                        }
                    }
                }
            },
        }
    }

    /// Strongly removes a node: the node's incidence entry and every
    /// hyperedge that touched it are deleted outright.  Returns whether the
    /// node was present.
    pub fn strong_remove_node(&mut self, node: i64) -> (r: bool)
        requires
            old(self).wf(),
        ensures
            strong_remove_node_post(*old(self), *final(self), node, r),
    {
        match self.find_node_idx(node) {
            None => {
                proof {
                    assert(self.node_set() =~= old(self).node_set().remove(node));
                    assert forall|id: u64| #[trigger]
                        self.has_edge_id(id) implies !self.edge_nodes(id).contains(node) by {
                        if self.edge_nodes(id).contains(node) {
                            self.lemma_incidence_complete(node, id);
                        }
                    }
                    assert(self.edge_ids() =~= Set::new(
                        |id: u64| old(self).has_edge_id(id) && !old(self).edge_nodes(id).contains(
                            node,
                        ),
                    ));
                }
                false
            },
            Some(i) => {
                let ghost pre = *self;
                let ids = crate::util::copy_u64_vec(&self.inc_ids[i]);
                proof {
                    assert(ids@.to_set() == pre.ids_of(node));
                    assert(ids@.no_duplicates());
                }
                let mut t: usize = 0;
                while t < ids.len()
                    invariant
                        pre.wf(),
                        self.wf(),
                        t <= ids@.len(),
                        ids@.no_duplicates(),
                        ids@.to_set() == pre.ids_of(node),
                        self.spec_weighted() == pre.spec_weighted(),
                        self.node_set() == pre.node_set(),
                        self.edge_ids() == pre.edge_ids().difference(
                            ids@.subrange(0, t as int).to_set(),
                        ),
                        forall|id2: u64|
                            #[trigger] self.has_edge_id(id2) ==> pre.has_edge_id(id2),
                        forall|id2: u64|
                            self.has_edge_id(id2) ==> #[trigger] self.edge_nodes(id2)
                                == pre.edge_nodes(id2),
                        forall|id2: u64|
                            self.has_edge_id(id2) ==> #[trigger] self.edge_weight(id2)
                                == pre.edge_weight(id2),
                    decreases ids@.len() - t,
                {
                    let id_t = ids[t];
                    proof {
                        assert(ids@.subrange(0, t as int).to_set().contains(id_t) ==> exists|u: int|
                            0 <= u < t && ids@.subrange(0, t as int)[u] == id_t);
                        assert(!ids@.subrange(0, t as int).to_set().contains(id_t));
                        assert(ids@.to_set().contains(id_t));
                        pre.lemma_incidence_sound(node, id_t);
                        assert(self.has_edge_id(id_t));
                    }
                    match self.find_edge_idx(id_t) {
                        Some(k) => {
                            let nodes_k = copy_i64_vec(&self.enodes[k]);
                            let ghost snap = *self;
                            proof {
                                lemma_nodup_index_of(snap.eids@, k as int);
                                snap.lemma_edge_id(id_t);
                                assert(edge_id_of(nodes_k@) == id_t);
                            }
                            self.remove_edge(&nodes_k);
                            proof {
                                assert(ids@.subrange(0, t + 1 as int) =~= ids@.subrange(
                                    0,
                                    t as int,
                                ).push(id_t));
                                ids@.subrange(0, t as int).lemma_push_to_set_commute(id_t);
                                assert(self.edge_ids() =~= pre.edge_ids().difference(
                                    ids@.subrange(0, t + 1 as int).to_set(),
                                ));
                            }
                        },
                        None => {
                            proof {
                                assert(false);
                            }
                        },
                    }
                    t += 1;
                }
                proof {
                    assert(ids@.subrange(0, ids@.len() as int) =~= ids@);
                    assert(self.ids_of(node) =~= Set::<u64>::empty()) by {
                        self.lemma_ids_of_characterization(node);
                        if self.has_node(node) {
                            assert forall|id2: u64| !(#[trigger] self.has_edge_id(id2)
                                && self.edge_nodes(id2).contains(node)) by {
                                if self.has_edge_id(id2) && self.edge_nodes(id2).contains(node) {
                                    pre.lemma_incidence_complete(node, id2);
                                    assert(pre.ids_of(node).contains(id2));
                                    assert(ids@.to_set().contains(id2));
                                }
                            }
                        }
                    }
                }
                let ghost mid = *self;
                self.remove_node_entry(node);
                proof {
                    assert(self.edge_ids() =~= Set::new(
                        |id: u64| pre.has_edge_id(id) && !pre.edge_nodes(id).contains(node),
                    )) by {
                        assert forall|id: u64| #[trigger]
                            mid.has_edge_id(id) implies !pre.edge_nodes(id).contains(node) by {
                            if pre.edge_nodes(id).contains(node) {
                                pre.lemma_incidence_complete(node, id);
                                assert(ids@.to_set().contains(id));
                            }
                        }
                    }
                }
                true
            },
        }
    }
}

/// Whether, in `pre`, the hyperedge `id2` is kept untouched by a weak
/// removal of `node`: it is present and does not contain the node.
pub open spec fn kept_edge(pre: Hypergraph, node: i64, id2: u64) -> bool {
    pre.has_edge_id(id2) && !pre.edge_nodes(id2).contains(node)
}

/// Whether `id2` is the fingerprint of the stripped node sequence of some
/// edge of `pre` that contains `node`.
pub open spec fn strip_target(pre: Hypergraph, node: i64, id2: u64) -> bool {
    exists|id0: u64|
        #[trigger] pre.edge_nodes(id0).contains(node) && pre.has_edge_id(id0) && id2 == edge_id_of(
            spec_strip(pre.edge_nodes(id0), node),
        )
}

/// The effect of weakly removing `node` from `pre`: the node disappears,
/// every edge that contained it is replaced by its stripped sequence
/// (which may merge with a pre-existing edge of the same sequence, in
/// which case one of the two weights survives), and every other edge is
/// untouched.
pub open spec fn remove_node_post(pre: Hypergraph, post: Hypergraph, node: i64, r: bool) -> bool {
    &&& post.wf()
    &&& post.spec_weighted() == pre.spec_weighted()
    &&& r == pre.has_node(node)
    &&& post.node_set() == pre.node_set().remove(node)
    &&& post.edge_ids() == Set::new(
        |id2: u64| kept_edge(pre, node, id2) || strip_target(pre, node, id2),
    )
    &&& forall|id2: u64|
        kept_edge(pre, node, id2) ==> #[trigger] post.edge_nodes(id2) == pre.edge_nodes(id2)
    &&& forall|id2: u64|
        #[trigger] post.has_edge_id(id2) && !kept_edge(pre, node, id2) ==> exists|id0: u64|
            pre.has_edge_id(id0) && #[trigger] pre.edge_nodes(id0).contains(node)
                && post.edge_nodes(id2) == spec_strip(pre.edge_nodes(id0), node) && id2
                == edge_id_of(spec_strip(pre.edge_nodes(id0), node))
    &&& forall|id2: u64|
        kept_edge(pre, node, id2) && !strip_target(pre, node, id2)
            ==> #[trigger] post.edge_weight(id2) == pre.edge_weight(id2)
    &&& forall|id2: u64|
        #[trigger] post.has_edge_id(id2) && strip_target(pre, node, id2) ==> exists|id0: u64|
            pre.has_edge_id(id0) && #[trigger] pre.edge_nodes(id0).contains(node) && id2
                == edge_id_of(spec_strip(pre.edge_nodes(id0), node)) && post.edge_weight(id2)
                == coerce_weight(pre.spec_weighted(), pre.edge_weight(id0))
}

impl Hypergraph {
    /// Weakly removes a node: its incidence entry disappears, and every
    /// hyperedge that contained it is re-inserted with the node stripped
    /// from its sequence, carrying the same weight (a stripped sequence
    /// may merge with an existing edge of the same sequence).  Returns
    /// whether the node was present.
    pub fn remove_node(&mut self, node: i64) -> (r: bool)
        requires
            old(self).wf(),
        ensures
            remove_node_post(*old(self), *final(self), node, r),
    {
        match self.find_node_idx(node) {
            None => {
                proof {
                    assert(self.node_set() =~= old(self).node_set().remove(node));
                    assert forall|id2: u64| !strip_target(*old(self), node, id2) by {
                        if strip_target(*old(self), node, id2) {
                            let id0 = choose|id0: u64|
                                #[trigger] old(self).edge_nodes(id0).contains(node) && old(
                                    self,
                                ).has_edge_id(id0) && id2 == edge_id_of(
                                    spec_strip(old(self).edge_nodes(id0), node),
                                );
                            old(self).lemma_incidence_complete(node, id0);
                        }
                    }
                    assert forall|id2: u64| #[trigger]
                        self.has_edge_id(id2) implies !self.edge_nodes(id2).contains(node) by {
                        if self.edge_nodes(id2).contains(node) {
                            self.lemma_incidence_complete(node, id2);
                        }
                    }
                    assert(self.edge_ids() =~= Set::new(
                        |id2: u64| kept_edge(*old(self), node, id2) || strip_target(
                            *old(self),
                            node,
                            id2,
                        ),
                    ));
                }
                false
            },
            Some(i) => {
                let ghost pre = *self;
                let ids = crate::util::copy_u64_vec(&self.inc_ids[i]);
                proof {
                    assert(ids@.to_set() == pre.ids_of(node));
                    assert(ids@.no_duplicates());
                    assert forall|u: int| 0 <= u < ids@.len() implies pre.has_edge_id(
                        #[trigger] ids@[u],
                    ) && pre.edge_nodes(ids@[u]).contains(node) by {
                        assert(ids@.to_set().contains(ids@[u]));
                        pre.lemma_incidence_sound(node, ids@[u]);
                    }
                }
                let mut rem_nodes: Vec<Vec<i64>> = Vec::new();
                let mut rem_weights: Vec<u64> = Vec::new();
                let mut t: usize = 0;
                while t < ids.len()
                    invariant
                        pre.wf(),
                        self.wf(),
                        t <= ids@.len(),
                        ids@.no_duplicates(),
                        ids@.to_set() == pre.ids_of(node),
                        forall|u: int|
                            0 <= u < ids@.len() ==> pre.has_edge_id(#[trigger] ids@[u])
                                && pre.edge_nodes(ids@[u]).contains(node),
                        self.spec_weighted() == pre.spec_weighted(),
                        self.node_set() == pre.node_set(),
                        self.edge_ids() == pre.edge_ids().difference(
                            ids@.subrange(0, t as int).to_set(),
                        ),
                        forall|id2: u64|
                            #[trigger] self.has_edge_id(id2) ==> pre.has_edge_id(id2),
                        forall|id2: u64|
                            self.has_edge_id(id2) ==> #[trigger] self.edge_nodes(id2)
                                == pre.edge_nodes(id2),
                        forall|id2: u64|
                            self.has_edge_id(id2) ==> #[trigger] self.edge_weight(id2)
                                == pre.edge_weight(id2),
                        rem_nodes@.len() == t,
                        rem_weights@.len() == t,
                        forall|u: int|
                            0 <= u < t ==> (#[trigger] rem_nodes@[u])@ == pre.edge_nodes(ids@[u]),
                        forall|u: int|
                            0 <= u < t ==> #[trigger] rem_weights@[u] == pre.edge_weight(ids@[u]),
                    decreases ids@.len() - t,
                {
                    let id_t = ids[t];
                    proof {
                        assert(ids@.subrange(0, t as int).to_set().contains(id_t) ==> exists|u: int|
                            0 <= u < t && ids@.subrange(0, t as int)[u] == id_t);
                        assert(!ids@.subrange(0, t as int).to_set().contains(id_t));
                        assert(ids@.to_set().contains(id_t));
                        pre.lemma_incidence_sound(node, id_t);
                        assert(self.has_edge_id(id_t));
                    }
                    match self.find_edge_idx(id_t) {
                        Some(k) => {
                            let nodes_k = copy_i64_vec(&self.enodes[k]);
                            let w_k = self.eweights[k];
                            proof {
                                lemma_nodup_index_of(self.eids@, k as int);
                                self.lemma_edge_id(id_t);
                                assert(nodes_k@ == self.edge_nodes(id_t));
                                assert(w_k == self.edge_weight(id_t));
                                assert(edge_id_of(nodes_k@) == id_t);
                            }
                            rem_nodes.push(nodes_k);
                            let nodes_r = copy_i64_vec(&rem_nodes[rem_nodes.len() - 1]);
                            rem_weights.push(w_k);
                            self.remove_edge(&nodes_r);
                            proof {
                                assert(ids@.subrange(0, t + 1 as int) =~= ids@.subrange(
                                    0,
                                    t as int,
                                ).push(id_t));
                                ids@.subrange(0, t as int).lemma_push_to_set_commute(id_t);
                                assert(self.edge_ids() =~= pre.edge_ids().difference(
                                    ids@.subrange(0, t + 1 as int).to_set(),
                                ));
                            }
                        },
                        None => {
                            proof {
                                assert(false);
                            }
                        },
                    }
                    t += 1;
                }
                proof {
                    assert(ids@.subrange(0, ids@.len() as int) =~= ids@);
                    assert(self.ids_of(node) =~= Set::<u64>::empty()) by {
                        self.lemma_ids_of_characterization(node);
                        if self.has_node(node) {
                            assert forall|id2: u64| !(#[trigger] self.has_edge_id(id2)
                                && self.edge_nodes(id2).contains(node)) by {
                                if self.has_edge_id(id2) && self.edge_nodes(id2).contains(node) {
                                    pre.lemma_incidence_complete(node, id2);
                                    assert(ids@.to_set().contains(id2));
                                }
                            }
                        }
                    }
                }
                self.remove_node_entry(node);
                proof {
                    assert forall|id2: u64| #[trigger]
                        self.has_edge_id(id2) implies kept_edge(pre, node, id2) by {
                        if pre.edge_nodes(id2).contains(node) {
                            pre.lemma_incidence_complete(node, id2);
                            assert(ids@.to_set().contains(id2));
                        }
                    }
                    assert forall|id2: u64|
                        kept_edge(pre, node, id2) implies #[trigger] self.has_edge_id(id2) by {
                        if ids@.to_set().contains(id2) {
                            pre.lemma_incidence_sound(node, id2);
                        }
                    }
                }
                let mut t: usize = 0;
                while t < rem_nodes.len()
                    invariant
                        pre.wf(),
                        self.wf(),
                        t <= rem_nodes@.len(),
                        ids@.no_duplicates(),
                        ids@.to_set() == pre.ids_of(node),
                        rem_nodes@.len() == ids@.len(),
                        rem_weights@.len() == ids@.len(),
                        forall|u: int|
                            0 <= u < ids@.len() ==> pre.has_edge_id(#[trigger] ids@[u])
                                && pre.edge_nodes(ids@[u]).contains(node),
                        forall|u: int|
                            0 <= u < ids@.len() ==> (#[trigger] rem_nodes@[u])@ == pre.edge_nodes(
                                ids@[u],
                            ),
                        forall|u: int|
                            0 <= u < ids@.len() ==> #[trigger] rem_weights@[u] == pre.edge_weight(
                                ids@[u],
                            ),
                        self.spec_weighted() == pre.spec_weighted(),
                        self.node_set() == pre.node_set().remove(node),
                        forall|id2: u64|
                            kept_edge(pre, node, id2) ==> #[trigger] self.has_edge_id(id2),
                        forall|id2: u64|
                            kept_edge(pre, node, id2) ==> #[trigger] self.edge_nodes(id2)
                                == pre.edge_nodes(id2),
                        forall|id2: u64|
                            #[trigger] self.has_edge_id(id2) ==> kept_edge(pre, node, id2) || (
                            exists|u: int|
                                0 <= u < t && id2 == edge_id_of(
                                    spec_strip(pre.edge_nodes(#[trigger] ids@[u]), node),
                                )),
                        forall|u: int|
                            0 <= u < t ==> self.has_edge_id(
                                edge_id_of(spec_strip(pre.edge_nodes(#[trigger] ids@[u]), node)),
                            ),
                        forall|id2: u64|
                            #[trigger] self.has_edge_id(id2) && !kept_edge(pre, node, id2)
                                ==> exists|u: int|
                                0 <= u < t && id2 == edge_id_of(
                                    spec_strip(pre.edge_nodes(#[trigger] ids@[u]), node),
                                ) && self.edge_nodes(id2) == spec_strip(
                                    pre.edge_nodes(ids@[u]),
                                    node,
                                ),
                        forall|id2: u64|
                            kept_edge(pre, node, id2) && !(exists|u: int|
                                0 <= u < t && id2 == edge_id_of(
                                    spec_strip(pre.edge_nodes(#[trigger] ids@[u]), node),
                                )) ==> #[trigger] self.edge_weight(id2) == pre.edge_weight(id2),
                        forall|id2: u64|
                            #[trigger] self.has_edge_id(id2) && (exists|u: int|
                                0 <= u < t && id2 == edge_id_of(
                                    spec_strip(pre.edge_nodes(#[trigger] ids@[u]), node),
                                )) ==> exists|u: int|
                                0 <= u < t && id2 == edge_id_of(
                                    spec_strip(pre.edge_nodes(#[trigger] ids@[u]), node),
                                ) && self.edge_weight(id2) == coerce_weight(
                                    pre.spec_weighted(),
                                    pre.edge_weight(ids@[u]),
                                ),
                    decreases rem_nodes@.len() - t,
                {
                    let stripped = crate::util::strip_value(&rem_nodes[t], node);
                    let ghost snap = *self;
                    let ghost sid = edge_id_of(spec_strip(pre.edge_nodes(ids@[t as int]), node));
                    proof {
                        assert(stripped@ == spec_strip(pre.edge_nodes(ids@[t as int]), node));
                        crate::util::lemma_filter_membership(
                            pre.edge_nodes(ids@[t as int]),
                            ne_pred(node),
                        );
                        assert forall|x: i64| stripped@.to_set().contains(x) implies snap
                            .node_set().contains(x) by {
                            assert(ne_pred(node)(x));
                            assert(pre.edge_nodes(ids@[t as int]).contains(x) && x != node);
                            pre.lemma_incidence_complete(x, ids@[t as int]);
                        }
                    }
                    let was_new = self.add_edge_weighted(&stripped, rem_weights[t]);
                    proof {
                        if was_new {
                            assert(self.node_set() =~= snap.node_set());
                            snap.edge_id_seq().lemma_push_to_set_commute(sid);
                            assert(self.edge_ids() == snap.edge_ids().insert(sid));
                        } else {
                            assert(self.edge_ids() == snap.edge_ids());
                        }
                        assert forall|id2: u64| #[trigger]
                            snap.has_edge_id(id2) implies self.has_edge_id(id2) by {}
                        assert forall|id2: u64|
                            kept_edge(pre, node, id2) implies #[trigger] self.has_edge_id(
                            id2,
                        ) by {
                            assert(snap.has_edge_id(id2));
                        }
                        assert forall|id2: u64|
                            kept_edge(pre, node, id2) implies #[trigger] self.edge_nodes(id2)
                            == pre.edge_nodes(id2) by {
                            assert(snap.has_edge_id(id2));
                            assert(snap.edge_nodes(id2) == pre.edge_nodes(id2));
                            if id2 == sid {
                                assert(self.edge_nodes(id2) == snap.edge_nodes(id2));
                            } else {
                                assert(self.edge_nodes(id2) == snap.edge_nodes(id2));
                            }
                        }
                        assert(self.has_edge_id(sid));
                        assert(self.edge_weight(sid) == coerce_weight(
                            pre.spec_weighted(),
                            pre.edge_weight(ids@[t as int]),
                        ));
                        assert forall|id2: u64| #[trigger]
                            self.has_edge_id(id2) implies kept_edge(pre, node, id2) || (exists|
                            u: int,
                        |
                            0 <= u < t + 1 && id2 == edge_id_of(
                                spec_strip(pre.edge_nodes(#[trigger] ids@[u]), node),
                            )) by {
                            if id2 == sid {
                                assert(0 <= t < t + 1 && id2 == edge_id_of(
                                    spec_strip(pre.edge_nodes(ids@[t as int]), node),
                                ));
                            } else {
                                assert(snap.has_edge_id(id2));
                            }
                        }
                        assert forall|id2: u64|
                            #[trigger] self.has_edge_id(id2) && !kept_edge(
                                pre,
                                node,
                                id2,
                            ) implies exists|u: int|
                            0 <= u < t + 1 && id2 == edge_id_of(
                                spec_strip(pre.edge_nodes(#[trigger] ids@[u]), node),
                            ) && self.edge_nodes(id2) == spec_strip(
                                pre.edge_nodes(ids@[u]),
                                node,
                            ) by {
                            if id2 == sid && !snap.has_edge_id(sid) {
                                assert(self.edge_nodes(sid) == stripped@);
                            } else {
                                assert(snap.has_edge_id(id2));
                                if !kept_edge(pre, node, id2) {
                                    let u = choose|u: int|
                                        0 <= u < t && id2 == edge_id_of(
                                            spec_strip(pre.edge_nodes(#[trigger] ids@[u]), node),
                                        ) && snap.edge_nodes(id2) == spec_strip(
                                            pre.edge_nodes(ids@[u]),
                                            node,
                                        );
                                    if id2 == sid {
                                        assert(self.edge_nodes(id2) == snap.edge_nodes(id2));
                                    } else {
                                        assert(self.edge_nodes(id2) == snap.edge_nodes(id2));
                                    }
                                }
                            }
                        }
                        assert forall|id2: u64|
                            #[trigger] self.has_edge_id(id2) && (exists|u: int|
                                0 <= u < t + 1 && id2 == edge_id_of(
                                    spec_strip(pre.edge_nodes(#[trigger] ids@[u]), node),
                                )) implies exists|u: int|
                            0 <= u < t + 1 && id2 == edge_id_of(
                                spec_strip(pre.edge_nodes(#[trigger] ids@[u]), node),
                            ) && self.edge_weight(id2) == coerce_weight(
                                pre.spec_weighted(),
                                pre.edge_weight(ids@[u]),
                            ) by {
                            if id2 == sid {
                                assert(0 <= t < t + 1 && sid == edge_id_of(
                                    spec_strip(pre.edge_nodes(ids@[t as int]), node),
                                ) && self.edge_weight(sid) == coerce_weight(
                                    pre.spec_weighted(),
                                    pre.edge_weight(ids@[t as int]),
                                ));
                            } else {
                                let u = choose|u: int|
                                    0 <= u < t + 1 && id2 == edge_id_of(
                                        spec_strip(pre.edge_nodes(#[trigger] ids@[u]), node),
                                    );
                                assert(u < t);
                                assert(snap.has_edge_id(id2));
                                assert(self.edge_weight(id2) == snap.edge_weight(id2));
                            }
                        }
                    }
                    t += 1;
                }
                proof {
                    assert(t as int == ids@.len());
                    assert(self.edge_ids() =~= Set::new(
                        |id2: u64| kept_edge(pre, node, id2) || strip_target(pre, node, id2),
                    )) by {
                        assert forall|id2: u64|
                            self.edge_ids().contains(id2) implies kept_edge(pre, node, id2)
                            || strip_target(pre, node, id2) by {
                            assert(self.has_edge_id(id2));
                            if !kept_edge(pre, node, id2) {
                                let u = choose|u: int|
                                    0 <= u < t && id2 == edge_id_of(
                                        spec_strip(pre.edge_nodes(#[trigger] ids@[u]), node),
                                    );
                                assert(pre.edge_nodes(ids@[u]).contains(node) && pre.has_edge_id(
                                    ids@[u],
                                ) && id2 == edge_id_of(spec_strip(pre.edge_nodes(ids@[u]), node)));
                            }
                        }
                        assert forall|id2: u64|
                            kept_edge(pre, node, id2) || strip_target(
                                pre,
                                node,
                                id2,
                            ) implies self.edge_ids().contains(id2) by {
                            if kept_edge(pre, node, id2) {
                                assert(self.has_edge_id(id2));
                            } else {
                                let id0 = choose|id0: u64|
                                    #[trigger] pre.edge_nodes(id0).contains(node)
                                        && pre.has_edge_id(id0) && id2 == edge_id_of(
                                        spec_strip(pre.edge_nodes(id0), node),
                                    );
                                pre.lemma_incidence_complete(node, id0);
                                assert(ids@.to_set().contains(id0));
                                let u = choose|u: int| 0 <= u < ids@.len() && ids@[u] == id0;
                                assert(self.has_edge_id(
                                    edge_id_of(spec_strip(pre.edge_nodes(ids@[u]), node)),
                                ));
                            }
                        }
                    }
                    // the remaining clauses of the contract, restated over the
                    // full batch
                    assert forall|id2: u64|
                        #[trigger] self.has_edge_id(id2) && !kept_edge(
                            pre,
                            node,
                            id2,
                        ) implies exists|id0: u64|
                        pre.has_edge_id(id0) && #[trigger] pre.edge_nodes(id0).contains(node)
                            && self.edge_nodes(id2) == spec_strip(pre.edge_nodes(id0), node) && id2
                            == edge_id_of(spec_strip(pre.edge_nodes(id0), node)) by {
                        let u = choose|u: int|
                            0 <= u < t && id2 == edge_id_of(
                                spec_strip(pre.edge_nodes(#[trigger] ids@[u]), node),
                            ) && self.edge_nodes(id2) == spec_strip(pre.edge_nodes(ids@[u]), node);
                        assert(pre.has_edge_id(ids@[u]) && pre.edge_nodes(ids@[u]).contains(node)
                            && self.edge_nodes(id2) == spec_strip(pre.edge_nodes(ids@[u]), node)
                            && id2 == edge_id_of(spec_strip(pre.edge_nodes(ids@[u]), node)));
                    }
                    assert forall|id2: u64|
                        kept_edge(pre, node, id2) && !strip_target(
                            pre,
                            node,
                            id2,
                        ) implies #[trigger] self.edge_weight(id2) == pre.edge_weight(id2) by {
                        assert(!(exists|u: int|
                            0 <= u < t && id2 == edge_id_of(
                                spec_strip(pre.edge_nodes(#[trigger] ids@[u]), node),
                            ))) by {
                            if exists|u: int|
                                0 <= u < t && id2 == edge_id_of(
                                    spec_strip(pre.edge_nodes(#[trigger] ids@[u]), node),
                                ) {
                                let u = choose|u: int|
                                    0 <= u < t && id2 == edge_id_of(
                                        spec_strip(pre.edge_nodes(#[trigger] ids@[u]), node),
                                    );
                                assert(pre.edge_nodes(ids@[u]).contains(node) && pre.has_edge_id(
                                    ids@[u],
                                ) && id2 == edge_id_of(spec_strip(pre.edge_nodes(ids@[u]), node)));
                            }
                        }
                    }
                    assert forall|id2: u64|
                        #[trigger] self.has_edge_id(id2) && strip_target(
                            pre,
                            node,
                            id2,
                        ) implies exists|id0: u64|
                        pre.has_edge_id(id0) && #[trigger] pre.edge_nodes(id0).contains(node)
                            && id2 == edge_id_of(spec_strip(pre.edge_nodes(id0), node))
                            && self.edge_weight(id2) == coerce_weight(
                            pre.spec_weighted(),
                            pre.edge_weight(id0),
                        ) by {
                        assert(exists|u: int|
                            0 <= u < t && id2 == edge_id_of(
                                spec_strip(pre.edge_nodes(#[trigger] ids@[u]), node),
                            )) by {
                            let id0 = choose|id0: u64|
                                #[trigger] pre.edge_nodes(id0).contains(node) && pre.has_edge_id(
                                    id0,
                                ) && id2 == edge_id_of(spec_strip(pre.edge_nodes(id0), node));
                            pre.lemma_incidence_complete(node, id0);
                            assert(ids@.to_set().contains(id0));
                            let u = choose|u: int| 0 <= u < ids@.len() && ids@[u] == id0;
                            assert(0 <= u < t && id2 == edge_id_of(
                                spec_strip(pre.edge_nodes(ids@[u]), node),
                            ));
                        }
                        let u = choose|u: int|
                            0 <= u < t && id2 == edge_id_of(
                                spec_strip(pre.edge_nodes(#[trigger] ids@[u]), node),
                            ) && self.edge_weight(id2) == coerce_weight(
                                pre.spec_weighted(),
                                rem_weights@[u],
                            );
                        assert(rem_weights@[u] == pre.edge_weight(ids@[u]));
                        assert(pre.has_edge_id(ids@[u]) && pre.edge_nodes(ids@[u]).contains(node)
                            && id2 == edge_id_of(spec_strip(pre.edge_nodes(ids@[u]), node))
                            && self.edge_weight(id2) == coerce_weight(
                            pre.spec_weighted(),
                            pre.edge_weight(ids@[u]),
                        ));
                    }
                }
                true
            },
        }
    }
}


/// The weight offered to the `j`-th edge of a batch: the `j`-th supplied
/// weight, or 0 once the supplied weights run out.
pub open spec fn padded_weights(weights: Seq<u64>, n: int) -> Seq<u64> {
    Seq::new(
        n as nat,
        |j: int|
            if j < weights.len() {
                weights[j]
            } else {
                0
            },
    )
}

/// Whether the `j`-th edge of a batch insertion into `pre` is newly
/// inserted: its fingerprint is neither present already nor supplied
/// earlier in the batch.
pub open spec fn fresh_at(pre: Hypergraph, edges: Seq<Seq<i64>>, j: int) -> bool {
    &&& !pre.has_edge_id(edge_id_of(edges[j]))
    &&& forall|j2: int| 0 <= j2 < j ==> edge_id_of(#[trigger] edges[j2]) != edge_id_of(edges[j])
}

/// Marks the intermediate state of a batch chain.  Always true: it
/// carries no information and exists only to give the chain's existential
/// a stable trigger term; nothing should be concluded from it.
pub open spec fn chain_link(pre: Hypergraph, mid: Hypergraph) -> bool {
    true
}

/// Whether every edge of a batch insertion into `pre` is newly inserted.
pub open spec fn all_fresh(pre: Hypergraph, edges: Seq<Seq<i64>>) -> bool {
    forall|j: int| 0 <= j < edges.len() ==> #[trigger] fresh_at(pre, edges, j)
}

/// Whether the `j`-th edge of a batch removal from `pre` is still present
/// when its turn comes: it is present and not listed earlier in the batch.
pub open spec fn present_at(pre: Hypergraph, edges: Seq<Seq<i64>>, j: int) -> bool {
    &&& pre.has_edge_id(edge_id_of(edges[j]))
    &&& forall|j2: int| 0 <= j2 < j ==> edge_id_of(#[trigger] edges[j2]) != edge_id_of(edges[j])
}

/// Whether every edge of a batch removal from `pre` is present when its
/// turn comes.
pub open spec fn all_present(pre: Hypergraph, edges: Seq<Seq<i64>>) -> bool {
    forall|j: int| 0 <= j < edges.len() ==> #[trigger] present_at(pre, edges, j)
}

/// Batch insertion applies the single-edge insertion once per listed
/// edge, in order.
pub open spec fn add_edges_post(
    pre: Hypergraph,
    post: Hypergraph,
    edges: Seq<Seq<i64>>,
    weights: Seq<u64>,
) -> bool
    decreases edges.len(),
{
    if edges.len() == 0 {
        post == pre
    } else {
        let w0: u64 = if weights.len() > 0 {
            weights[0]
        } else {
            0
        };
        let wrest: Seq<u64> = if weights.len() > 0 {
            weights.drop_first()
        } else {
            weights
        };
        let r0det = !pre.has_edge_id(edge_id_of(edges[0]));
        exists|mid: Hypergraph|
            #[trigger] chain_link(pre, mid) && add_edge_post(pre, mid, edges[0], w0, r0det)
                && add_edges_post(mid, post, edges.drop_first(), wrest)
    }
}

/// Batch removal applies the single-edge removal once per listed edge, in
/// order.
pub open spec fn remove_edges_post(pre: Hypergraph, post: Hypergraph, edges: Seq<Seq<i64>>) -> bool
    decreases edges.len(),
{
    if edges.len() == 0 {
        post == pre
    } else {
        exists|mid: Hypergraph|
            #[trigger] remove_edge_post(pre, mid, edges[0], pre.has_edge_id(edge_id_of(edges[0])))
                && remove_edges_post(mid, post, edges.drop_first())
    }
}

/// Batch weak node removal applies the single-node removal once per
/// listed node, in order.
pub open spec fn remove_nodes_post(pre: Hypergraph, post: Hypergraph, nodes: Seq<i64>) -> bool
    decreases nodes.len(),
{
    if nodes.len() == 0 {
        post == pre
    } else {
        exists|mid: Hypergraph|
            #[trigger] remove_node_post(pre, mid, nodes[0], pre.has_node(nodes[0]))
                && remove_nodes_post(mid, post, nodes.drop_first())
    }
}

/// Batch strong node removal applies the single-node removal once per
/// listed node, in order.
pub open spec fn strong_remove_nodes_post(
    pre: Hypergraph,
    post: Hypergraph,
    nodes: Seq<i64>,
) -> bool
    decreases nodes.len(),
{
    if nodes.len() == 0 {
        post == pre
    } else {
        exists|mid: Hypergraph|
            #[trigger] strong_remove_node_post(pre, mid, nodes[0], pre.has_node(nodes[0]))
                && strong_remove_nodes_post(mid, post, nodes.drop_first())
    }
}

/// Extends a batch-insertion chain by one more edge at its end.
proof fn lemma_add_edges_post_snoc(
    pre: Hypergraph,
    mid: Hypergraph,
    post: Hypergraph,
    edges: Seq<Seq<i64>>,
    weights: Seq<u64>,
    e: Seq<i64>,
    w: u64,
    rx: bool,
)
    requires
        add_edges_post(pre, mid, edges, weights),
        edges.len() == weights.len(),
        add_edge_post(mid, post, e, w, rx),
    ensures
        add_edges_post(pre, post, edges.push(e), weights.push(w)),
    decreases edges.len(),
{
    let es = edges.push(e);
    let ws = weights.push(w);
    let w0g: u64 = if ws.len() > 0 {
        ws[0]
    } else {
        0
    };
    let wrestg: Seq<u64> = if ws.len() > 0 {
        ws.drop_first()
    } else {
        ws
    };
    if edges.len() == 0 {
        assert(mid == pre);
        assert(es[0] == e && w0g == w);
        assert(es.drop_first() =~= Seq::<Seq<i64>>::empty());
        assert(wrestg =~= Seq::<u64>::empty());
        assert(rx == !pre.has_edge_id(edge_id_of(es[0])));
        assert(chain_link(pre, post));
        assert(add_edges_post(post, post, es.drop_first(), wrestg));
        assert(add_edge_post(pre, post, es[0], w0g, !pre.has_edge_id(edge_id_of(es[0]))));
    } else {
        let w0: u64 = if weights.len() > 0 {
            weights[0]
        } else {
            0
        };
        let wrest: Seq<u64> = if weights.len() > 0 {
            weights.drop_first()
        } else {
            weights
        };
        let r0det = !pre.has_edge_id(edge_id_of(edges[0]));
        let m1: Hypergraph = choose|m1: Hypergraph|
            #[trigger] chain_link(pre, m1) && add_edge_post(pre, m1, edges[0], w0, r0det)
                && add_edges_post(m1, mid, edges.drop_first(), wrest);
        assert(wrest == weights.drop_first());
        lemma_add_edges_post_snoc(
            m1,
            mid,
            post,
            edges.drop_first(),
            weights.drop_first(),
            e,
            w,
            rx,
        );
        assert(es.drop_first() =~= edges.drop_first().push(e));
        assert(wrestg =~= weights.drop_first().push(w));
        assert(es[0] == edges[0] && w0g == weights[0]);
        assert(chain_link(pre, m1));
        assert(add_edge_post(pre, m1, es[0], w0g, !pre.has_edge_id(edge_id_of(es[0]))));
        assert(add_edges_post(m1, post, es.drop_first(), wrestg));
    }
}

/// Extends a batch-removal chain by one more edge at its end.
proof fn lemma_remove_edges_post_snoc(
    pre: Hypergraph,
    mid: Hypergraph,
    post: Hypergraph,
    edges: Seq<Seq<i64>>,
    e: Seq<i64>,
    rx: bool,
)
    requires
        remove_edges_post(pre, mid, edges),
        remove_edge_post(mid, post, e, rx),
    ensures
        remove_edges_post(pre, post, edges.push(e)),
    decreases edges.len(),
{
    let es = edges.push(e);
    if edges.len() == 0 {
        assert(mid == pre);
        assert(es[0] == e);
        assert(es.drop_first() =~= Seq::<Seq<i64>>::empty());
        assert(rx == pre.has_edge_id(edge_id_of(es[0])));
        assert(remove_edges_post(post, post, es.drop_first()));
        assert(remove_edge_post(pre, post, es[0], pre.has_edge_id(edge_id_of(es[0]))));
    } else {
        let m1: Hypergraph = choose|m1: Hypergraph|
            #[trigger] remove_edge_post(pre, m1, edges[0], pre.has_edge_id(edge_id_of(edges[0])))
                && remove_edges_post(m1, mid, edges.drop_first());
        lemma_remove_edges_post_snoc(m1, mid, post, edges.drop_first(), e, rx);
        assert(es.drop_first() =~= edges.drop_first().push(e));
        assert(es[0] == edges[0]);
        assert(remove_edge_post(pre, m1, es[0], pre.has_edge_id(edge_id_of(es[0]))));
        assert(remove_edges_post(m1, post, es.drop_first()));
    }
}

/// Extends a batch weak-removal chain by one more node at its end.
proof fn lemma_remove_nodes_post_snoc(
    pre: Hypergraph,
    mid: Hypergraph,
    post: Hypergraph,
    nodes: Seq<i64>,
    n: i64,
    rx: bool,
)
    requires
        remove_nodes_post(pre, mid, nodes),
        remove_node_post(mid, post, n, rx),
    ensures
        remove_nodes_post(pre, post, nodes.push(n)),
    decreases nodes.len(),
{
    let ns = nodes.push(n);
    if nodes.len() == 0 {
        assert(mid == pre);
        assert(ns[0] == n);
        assert(ns.drop_first() =~= Seq::<i64>::empty());
        assert(rx == pre.has_node(ns[0]));
        assert(remove_nodes_post(post, post, ns.drop_first()));
        assert(remove_node_post(pre, post, ns[0], pre.has_node(ns[0])));
    } else {
        let m1: Hypergraph = choose|m1: Hypergraph|
            #[trigger] remove_node_post(pre, m1, nodes[0], pre.has_node(nodes[0]))
                && remove_nodes_post(m1, mid, nodes.drop_first());
        lemma_remove_nodes_post_snoc(m1, mid, post, nodes.drop_first(), n, rx);
        assert(ns.drop_first() =~= nodes.drop_first().push(n));
        assert(ns[0] == nodes[0]);
        assert(remove_node_post(pre, m1, ns[0], pre.has_node(ns[0])));
        assert(remove_nodes_post(m1, post, ns.drop_first()));
    }
}

/// Extends a batch strong-removal chain by one more node at its end.
proof fn lemma_strong_remove_nodes_post_snoc(
    pre: Hypergraph,
    mid: Hypergraph,
    post: Hypergraph,
    nodes: Seq<i64>,
    n: i64,
    rx: bool,
)
    requires
        strong_remove_nodes_post(pre, mid, nodes),
        strong_remove_node_post(mid, post, n, rx),
    ensures
        strong_remove_nodes_post(pre, post, nodes.push(n)),
    decreases nodes.len(),
{
    let ns = nodes.push(n);
    if nodes.len() == 0 {
        assert(mid == pre);
        assert(ns[0] == n);
        assert(ns.drop_first() =~= Seq::<i64>::empty());
        assert(rx == pre.has_node(ns[0]));
        assert(strong_remove_nodes_post(post, post, ns.drop_first()));
        assert(strong_remove_node_post(pre, post, ns[0], pre.has_node(ns[0])));
    } else {
        let m1: Hypergraph = choose|m1: Hypergraph|
            #[trigger] strong_remove_node_post(pre, m1, nodes[0], pre.has_node(nodes[0]))
                && strong_remove_nodes_post(m1, mid, nodes.drop_first());
        lemma_strong_remove_nodes_post_snoc(m1, mid, post, nodes.drop_first(), n, rx);
        assert(ns.drop_first() =~= nodes.drop_first().push(n));
        assert(ns[0] == nodes[0]);
        assert(strong_remove_node_post(pre, m1, ns[0], pre.has_node(ns[0])));
        assert(strong_remove_nodes_post(m1, post, ns.drop_first()));
    }
}

impl Hypergraph {
    /// Adds every listed node; returns `true` only when all of them were
    /// newly inserted.
    pub fn add_nodes(&mut self, nodes: &Vec<i64>) -> (r: bool)
        requires
            old(self).wf(),
        ensures
            final(self).wf(),
            final(self).spec_weighted() == old(self).spec_weighted(),
            final(self).node_set() == old(self).node_set().union(nodes@.to_set()),
            final(self).edge_id_seq() == old(self).edge_id_seq(),
            forall|id2: u64|
                old(self).has_edge_id(id2) ==> final(self).edge_nodes(id2) == old(self).edge_nodes(
                    id2,
                ) && final(self).edge_weight(id2) == old(self).edge_weight(id2),
            r == (nodes@.no_duplicates() && old(self).node_set().disjoint(nodes@.to_set())),
    {
        let mut res = true;
        let mut t: usize = 0;
        while t < nodes.len()
            invariant
                self.wf(),
                t <= nodes@.len(),
                self.spec_weighted() == old(self).spec_weighted(),
                self.node_set() == old(self).node_set().union(nodes@.subrange(0, t as int).to_set()),
                self.edge_id_seq() == old(self).edge_id_seq(),
                forall|id2: u64|
                    old(self).has_edge_id(id2) ==> self.edge_nodes(id2) == old(self).edge_nodes(id2)
                        && self.edge_weight(id2) == old(self).edge_weight(id2),
                res == (nodes@.subrange(0, t as int).no_duplicates() && old(
                    self,
                ).node_set().disjoint(nodes@.subrange(0, t as int).to_set())),
            decreases nodes@.len() - t,
        {
            let ghost prefix = nodes@.subrange(0, t as int);
            let rt = self.add_node(nodes[t]);
            res = res && rt;
            proof {
                let n = nodes@[t as int];
                assert(nodes@.subrange(0, t + 1 as int) =~= prefix.push(n));
                prefix.lemma_push_to_set_commute(n);
                assert(self.node_set() =~= old(self).node_set().union(
                    nodes@.subrange(0, t + 1 as int).to_set(),
                ));
                assert(prefix.push(n).no_duplicates() == (prefix.no_duplicates()
                    && !prefix.contains(n))) by {
                    if prefix.no_duplicates() && !prefix.contains(n) {
                        assert forall|a: int, b: int|
                            0 <= a < prefix.push(n).len() && 0 <= b < prefix.push(n).len() && a
                                != b implies prefix.push(n)[a] != prefix.push(n)[b] by {
                            if a < prefix.len() && b < prefix.len() {
                            } else if a == prefix.len() {
                                assert(prefix.contains(prefix[b]));
                            } else if b == prefix.len() {
                                assert(prefix.contains(prefix[a]));
                            }
                        }
                    } else if prefix.contains(n) {
                        let j = choose|j: int| 0 <= j < prefix.len() && prefix[j] == n;
                        assert(prefix.push(n)[j] == prefix.push(n)[prefix.len() as int]);
                    }
                }
                assert(old(self).node_set().disjoint(prefix.push(n).to_set()) == (old(
                    self,
                ).node_set().disjoint(prefix.to_set()) && !old(self).node_set().contains(n)));
                assert(rt == !(old(self).node_set().contains(n) || prefix.to_set().contains(n)));
            }
            t += 1;
        }
        proof {
            assert(nodes@.subrange(0, nodes@.len() as int) =~= nodes@);
        }
        res
    }

    /// Adds every listed hyperedge with weight 0, in order; a present
    /// hyperedge has its weight overwritten with 0.  Returns `true` only
    /// when every hyperedge was newly inserted.
    pub fn add_edges(&mut self, edges: &Vec<Vec<i64>>) -> (r: bool)
        requires
            old(self).wf(),
        ensures
            final(self).wf(),
            add_edges_post(
                *old(self),
                *final(self),
                edges@.map_values(|v: Vec<i64>| v@),
                padded_weights(Seq::<u64>::empty(), edges@.len() as int),
            ),
            r == all_fresh(*old(self), edges@.map_values(|v: Vec<i64>| v@)),
    {
        let empty: Vec<u64> = Vec::new();
        self.compute_add_edges(edges, &empty)
    }

    /// Adds every listed hyperedge, in order, the `j`-th with the `j`-th
    /// supplied weight (0 once the weights run out); a present hyperedge
    /// has its weight overwritten.  Returns `true` only when every
    /// hyperedge was newly inserted.
    pub fn add_edges_weighted(&mut self, edges: &Vec<Vec<i64>>, weights: &Vec<u64>) -> (r: bool)
        requires
            old(self).wf(),
        ensures
            final(self).wf(),
            add_edges_post(
                *old(self),
                *final(self),
                edges@.map_values(|v: Vec<i64>| v@),
                padded_weights(weights@, edges@.len() as int),
            ),
            r == all_fresh(*old(self), edges@.map_values(|v: Vec<i64>| v@)),
    {
        self.compute_add_edges(edges, weights)
    }

    /// The body shared by the batch insertions.
    fn compute_add_edges(&mut self, edges: &Vec<Vec<i64>>, weights: &Vec<u64>) -> (r: bool)
        requires
            old(self).wf(),
        ensures
            final(self).wf(),
            add_edges_post(
                *old(self),
                *final(self),
                edges@.map_values(|v: Vec<i64>| v@),
                padded_weights(weights@, edges@.len() as int),
            ),
            r == all_fresh(*old(self), edges@.map_values(|v: Vec<i64>| v@)),
    {
        let ghost views = edges@.map_values(|v: Vec<i64>| v@);
        let ghost pw = padded_weights(weights@, edges@.len() as int);
        let mut res = true;
        let mut t: usize = 0;
        proof {
            assert(views.subrange(0, 0) =~= Seq::<Seq<i64>>::empty());
            assert(pw.subrange(0, 0) =~= Seq::<u64>::empty());
            assert(self.edge_ids() =~= old(self).edge_ids().union(
                seeded_ids(views.subrange(0, 0)),
            ));
        }
        while t < edges.len()
            invariant
                self.wf(),
                t <= edges@.len(),
                views == edges@.map_values(|v: Vec<i64>| v@),
                pw == padded_weights(weights@, edges@.len() as int),
                add_edges_post(
                    *old(self),
                    *self,
                    views.subrange(0, t as int),
                    pw.subrange(0, t as int),
                ),
                self.edge_ids() == old(self).edge_ids().union(
                    seeded_ids(views.subrange(0, t as int)),
                ),
                res == (forall|j: int| 0 <= j < t ==> #[trigger] fresh_at(*old(self), views, j)),
            decreases edges@.len() - t,
        {
            let next: u64 = if t < weights.len() {
                weights[t]
            } else {
                0
            };
            let ghost snap = *self;
            let ghost res0 = res;
            let rt = self.compute_add_edge(&edges[t], next);
            res = res && rt;
            proof {
                let tt = t as int;
                let id_t = edge_id_of(views[tt]);
                assert(next == pw[tt]);
                assert(rt == !snap.has_edge_id(id_t));
                assert(rt == fresh_at(*old(self), views, tt)) by {
                    if snap.has_edge_id(id_t) {
                        if !old(self).has_edge_id(id_t) {
                            assert(seeded_ids(views.subrange(0, tt)).contains(id_t));
                            let j2 = choose|j2: int|
                                0 <= j2 < views.subrange(0, tt).len() && id_t == edge_id_of(
                                    #[trigger] views.subrange(0, tt)[j2],
                                );
                            assert(views.subrange(0, tt)[j2] == views[j2]);
                            assert(edge_id_of(views[j2]) == edge_id_of(views[tt]));
                            assert(!fresh_at(*old(self), views, tt));
                        } else {
                            assert(!fresh_at(*old(self), views, tt));
                        }
                    } else {
                        assert(!old(self).has_edge_id(id_t));
                        assert forall|j2: int| 0 <= j2 < tt implies edge_id_of(#[trigger] views[j2])
                            != id_t by {
                            if edge_id_of(views[j2]) == id_t {
                                assert(views.subrange(0, tt)[j2] == views[j2]);
                                assert(seeded_ids(views.subrange(0, tt)).contains(id_t));
                            }
                        }
                        assert(fresh_at(*old(self), views, tt));
                    }
                }
                assert(res == (forall|j: int| 0 <= j < tt + 1 ==> #[trigger] fresh_at(*old(self), views, j)))
                    by {
                    if res {
                        assert forall|j: int| 0 <= j < tt + 1 implies fresh_at(
                            *old(self),
                            views,
                            j,
                        ) by {}
                    } else {
                        if !res0 {
                            let j = choose|j: int| 0 <= j < tt && !fresh_at(*old(self), views, j);
                            assert(0 <= j < tt + 1 && !fresh_at(*old(self), views, j));
                        } else {
                            assert(!fresh_at(*old(self), views, tt));
                        }
                    }
                }
                lemma_add_edges_post_snoc(
                    *old(self),
                    snap,
                    *self,
                    views.subrange(0, tt),
                    pw.subrange(0, tt),
                    views[tt],
                    next,
                    rt,
                );
                assert(views.subrange(0, tt + 1) =~= views.subrange(0, tt).push(views[tt]));
                assert(pw.subrange(0, tt + 1) =~= pw.subrange(0, tt).push(pw[tt]));
                assert(self.edge_ids() =~= old(self).edge_ids().union(
                    seeded_ids(views.subrange(0, tt + 1)),
                )) by {
                    if rt {
                        snap.edge_id_seq().lemma_push_to_set_commute(id_t);
                    }
                    assert forall|id: u64| self.edge_ids().contains(id) implies old(
                        self,
                    ).edge_ids().contains(id) || seeded_ids(views.subrange(0, tt + 1)).contains(
                        id,
                    ) by {
                        if snap.edge_ids().contains(id) {
                            if !old(self).edge_ids().contains(id) {
                                let j2 = choose|j2: int|
                                    0 <= j2 < views.subrange(0, tt).len() && id == edge_id_of(
                                        #[trigger] views.subrange(0, tt)[j2],
                                    );
                                assert(views.subrange(0, tt + 1)[j2] == views.subrange(0, tt)[j2]);
                                assert(seeded_ids(views.subrange(0, tt + 1)).contains(id));
                            }
                        } else {
                            assert(id == id_t);
                            assert(views.subrange(0, tt + 1)[tt] == views[tt]);
                            assert(seeded_ids(views.subrange(0, tt + 1)).contains(id));
                        }
                    }
                    assert forall|id: u64|
                        old(self).edge_ids().contains(id) || seeded_ids(
                            views.subrange(0, tt + 1),
                        ).contains(id) implies self.edge_ids().contains(id) by {
                        if old(self).edge_ids().contains(id) {
                            assert(snap.edge_ids().contains(id));
                        } else {
                            let j2 = choose|j2: int|
                                0 <= j2 < views.subrange(0, tt + 1).len() && id == edge_id_of(
                                    #[trigger] views.subrange(0, tt + 1)[j2],
                                );
                            if j2 < tt {
                                assert(views.subrange(0, tt)[j2] == views.subrange(0, tt + 1)[j2]);
                                assert(seeded_ids(views.subrange(0, tt)).contains(id));
                                assert(snap.edge_ids().contains(id));
                            } else {
                                assert(id == id_t);
                                assert(self.has_edge_id(id_t));
                            }
                        }
                    }
                }
            }
            t += 1;
        }
        proof {
            assert(views.subrange(0, views.len() as int) =~= views);
            assert(pw.subrange(0, pw.len() as int) =~= pw);
            assert(res == all_fresh(*old(self), views));
        }
        res
    }

    /// Removes every listed hyperedge, in order; returns `true` only when
    /// every one of them was present.
    pub fn remove_edges(&mut self, edges: &Vec<Vec<i64>>) -> (r: bool)
        requires
            old(self).wf(),
        ensures
            final(self).wf(),
            remove_edges_post(*old(self), *final(self), edges@.map_values(|v: Vec<i64>| v@)),
            r == all_present(*old(self), edges@.map_values(|v: Vec<i64>| v@)),
    {
        let ghost views = edges@.map_values(|v: Vec<i64>| v@);
        let mut res = true;
        let mut t: usize = 0;
        proof {
            assert(views.subrange(0, 0) =~= Seq::<Seq<i64>>::empty());
            assert(self.edge_ids() =~= old(self).edge_ids().difference(
                seeded_ids(views.subrange(0, 0)),
            ));
        }
        while t < edges.len()
            invariant
                self.wf(),
                t <= edges@.len(),
                views == edges@.map_values(|v: Vec<i64>| v@),
                remove_edges_post(*old(self), *self, views.subrange(0, t as int)),
                self.edge_ids() == old(self).edge_ids().difference(
                    seeded_ids(views.subrange(0, t as int)),
                ),
                res == (forall|j: int| 0 <= j < t ==> #[trigger] present_at(*old(self), views, j)),
            decreases edges@.len() - t,
        {
            let ghost snap = *self;
            let ghost res0 = res;
            let rt = self.remove_edge(&edges[t]);
            res = res && rt;
            proof {
                let tt = t as int;
                let id_t = edge_id_of(views[tt]);
                assert(rt == snap.has_edge_id(id_t));
                assert(rt == present_at(*old(self), views, tt)) by {
                    if snap.has_edge_id(id_t) {
                        assert(old(self).edge_ids().contains(id_t));
                        assert forall|j2: int| 0 <= j2 < tt implies edge_id_of(#[trigger] views[j2])
                            != id_t by {
                            if edge_id_of(views[j2]) == id_t {
                                assert(views.subrange(0, tt)[j2] == views[j2]);
                                assert(seeded_ids(views.subrange(0, tt)).contains(id_t));
                            }
                        }
                        assert(present_at(*old(self), views, tt));
                    } else {
                        if old(self).has_edge_id(id_t) {
                            assert(seeded_ids(views.subrange(0, tt)).contains(id_t));
                            let j2 = choose|j2: int|
                                0 <= j2 < views.subrange(0, tt).len() && id_t == edge_id_of(
                                    #[trigger] views.subrange(0, tt)[j2],
                                );
                            assert(views.subrange(0, tt)[j2] == views[j2]);
                            assert(edge_id_of(views[j2]) == edge_id_of(views[tt]));
                            assert(!present_at(*old(self), views, tt));
                        } else {
                            assert(!present_at(*old(self), views, tt));
                        }
                    }
                }
                assert(res == (forall|j: int|
                    0 <= j < tt + 1 ==> #[trigger] present_at(*old(self), views, j))) by {
                    if res {
                        assert forall|j: int| 0 <= j < tt + 1 implies present_at(
                            *old(self),
                            views,
                            j,
                        ) by {}
                    } else {
                        if !res0 {
                            let j = choose|j: int| 0 <= j < tt && !present_at(*old(self), views, j);
                            assert(0 <= j < tt + 1 && !present_at(*old(self), views, j));
                        } else {
                            assert(!present_at(*old(self), views, tt));
                        }
                    }
                }
                lemma_remove_edges_post_snoc(
                    *old(self),
                    snap,
                    *self,
                    views.subrange(0, tt),
                    views[tt],
                    rt,
                );
                assert(views.subrange(0, tt + 1) =~= views.subrange(0, tt).push(views[tt]));
                assert(self.edge_ids() =~= old(self).edge_ids().difference(
                    seeded_ids(views.subrange(0, tt + 1)),
                )) by {
                    assert(self.edge_ids() == snap.edge_ids().remove(id_t));
                    assert forall|id: u64| self.edge_ids().contains(id) implies old(
                        self,
                    ).edge_ids().contains(id) && !seeded_ids(views.subrange(0, tt + 1)).contains(
                        id,
                    ) by {
                        assert(snap.edge_ids().contains(id) && id != id_t);
                        if seeded_ids(views.subrange(0, tt + 1)).contains(id) {
                            let j2 = choose|j2: int|
                                0 <= j2 < views.subrange(0, tt + 1).len() && id == edge_id_of(
                                    #[trigger] views.subrange(0, tt + 1)[j2],
                                );
                            if j2 < tt {
                                assert(views.subrange(0, tt)[j2] == views.subrange(0, tt + 1)[j2]);
                                assert(seeded_ids(views.subrange(0, tt)).contains(id));
                            } else {
                                assert(views.subrange(0, tt + 1)[tt] == views[tt]);
                            }
                        }
                    }
                    assert forall|id: u64|
                        old(self).edge_ids().contains(id) && !seeded_ids(
                            views.subrange(0, tt + 1),
                        ).contains(id) implies self.edge_ids().contains(id) by {
                        assert(!seeded_ids(views.subrange(0, tt)).contains(id)) by {
                            if seeded_ids(views.subrange(0, tt)).contains(id) {
                                let j2 = choose|j2: int|
                                    0 <= j2 < views.subrange(0, tt).len() && id == edge_id_of(
                                        #[trigger] views.subrange(0, tt)[j2],
                                    );
                                assert(views.subrange(0, tt + 1)[j2] == views.subrange(0, tt)[j2]);
                                assert(seeded_ids(views.subrange(0, tt + 1)).contains(id));
                            }
                        }
                        assert(snap.edge_ids().contains(id));
                        assert(id != id_t) by {
                            if id == id_t {
                                assert(views.subrange(0, tt + 1)[tt] == views[tt]);
                                assert(seeded_ids(views.subrange(0, tt + 1)).contains(id));
                            }
                        }
                    }
                }
            }
            t += 1;
        }
        proof {
            assert(views.subrange(0, views.len() as int) =~= views);
            assert(res == all_present(*old(self), views));
        }
        res
    }

    /// Weakly removes every listed node, in order.
    pub fn remove_nodes(&mut self, nodes: &Vec<i64>)
        requires
            old(self).wf(),
        ensures
            final(self).wf(),
            remove_nodes_post(*old(self), *final(self), nodes@),
    {
        let mut t: usize = 0;
        proof {
            assert(nodes@.subrange(0, 0) =~= Seq::<i64>::empty());
        }
        while t < nodes.len()
            invariant
                self.wf(),
                t <= nodes@.len(),
                remove_nodes_post(*old(self), *self, nodes@.subrange(0, t as int)),
            decreases nodes@.len() - t,
        {
            let ghost snap = *self;
            let rt = self.remove_node(nodes[t]);
            proof {
                lemma_remove_nodes_post_snoc(
                    *old(self),
                    snap,
                    *self,
                    nodes@.subrange(0, t as int),
                    nodes@[t as int],
                    rt,
                );
                assert(nodes@.subrange(0, t + 1 as int) =~= nodes@.subrange(0, t as int).push(
                    nodes@[t as int],
                ));
            }
            t += 1;
        }
        proof {
            assert(nodes@.subrange(0, nodes@.len() as int) =~= nodes@);
        }
    }

    /// Strongly removes every listed node, in order.
    pub fn strong_remove_nodes(&mut self, nodes: &Vec<i64>)
        requires
            old(self).wf(),
        ensures
            final(self).wf(),
            strong_remove_nodes_post(*old(self), *final(self), nodes@),
    {
        let mut t: usize = 0;
        proof {
            assert(nodes@.subrange(0, 0) =~= Seq::<i64>::empty());
        }
        while t < nodes.len()
            invariant
                self.wf(),
                t <= nodes@.len(),
                strong_remove_nodes_post(*old(self), *self, nodes@.subrange(0, t as int)),
            decreases nodes@.len() - t,
        {
            let ghost snap = *self;
            let rt = self.strong_remove_node(nodes[t]);
            proof {
                lemma_strong_remove_nodes_post_snoc(
                    *old(self),
                    snap,
                    *self,
                    nodes@.subrange(0, t as int),
                    nodes@[t as int],
                    rt,
                );
                assert(nodes@.subrange(0, t + 1 as int) =~= nodes@.subrange(0, t as int).push(
                    nodes@[t as int],
                ));
            }
            t += 1;
        }
        proof {
            assert(nodes@.subrange(0, nodes@.len() as int) =~= nodes@);
        }
    }
}

/// Whether position `j` holds the first occurrence of its fingerprint in
/// `edges`.
pub open spec fn first_with_id(edges: Seq<Seq<i64>>, j: int) -> bool {
    forall|j2: int| 0 <= j2 < j ==> edge_id_of(#[trigger] edges[j2]) != edge_id_of(edges[j])
}

/// Whether no position in `j+1 .. t` of `edges` shares the fingerprint of
/// position `j`.
pub open spec fn last_with_id_before(edges: Seq<Seq<i64>>, j: int, t: int) -> bool {
    forall|j2: int| j < j2 < t ==> edge_id_of(#[trigger] edges[j2]) != edge_id_of(edges[j])
}

/// Whether position `j` holds the last occurrence of its fingerprint in
/// `edges`.
pub open spec fn last_with_id(edges: Seq<Seq<i64>>, j: int) -> bool {
    last_with_id_before(edges, j, edges.len() as int)
}

/// The fingerprints of a seed list of edges.
pub open spec fn seeded_ids(edges: Seq<Seq<i64>>) -> Set<u64> {
    Set::new(
        |id: u64| exists|j: int| 0 <= j < edges.len() && id == edge_id_of(#[trigger] edges[j]),
    )
}

/// What a hypergraph seeded from an edge list holds: one hyperedge per
/// distinct fingerprint, with the node sequence of the fingerprint's first
/// occurrence and the (coerced) weight supplied with its last occurrence
/// (0 once the weights run out); the nodes of the kept edges, and nothing
/// else.
pub open spec fn from_post(
    edges: Seq<Seq<i64>>,
    weights: Seq<u64>,
    r: Hypergraph,
    weighted: bool,
) -> bool {
    &&& r.wf()
    &&& r.spec_weighted() == weighted
    &&& r.edge_ids() == seeded_ids(edges)
    &&& forall|j: int|
        0 <= j < edges.len() && first_with_id(edges, j) ==> r.edge_nodes(
            edge_id_of(#[trigger] edges[j]),
        ) == edges[j]
    &&& forall|j: int|
        0 <= j < edges.len() && last_with_id(edges, j) ==> r.edge_weight(
            edge_id_of(#[trigger] edges[j]),
        ) == coerce_weight(
            weighted,
            if j < weights.len() {
                weights[j]
            } else {
                0
            },
        )
    &&& r.node_set() == Set::new(
        |n: i64|
            exists|j: int|
                0 <= j < edges.len() && #[trigger] first_with_id(edges, j) && edges[j].contains(n),
    )
}

/// One step of seeding: the id set afterwards is the seeded ids of the
/// extended prefix.
#[verifier::rlimit(100)]
#[verifier::spinoff_prover]
proof fn lemma_compute_from_step_ids(
    snap: Hypergraph,
    cur: Hypergraph,
    views: Seq<Seq<i64>>,
    t: int,
    rt: bool,
)
    requires
        0 <= t < views.len(),
        snap.edge_ids() == seeded_ids(views.subrange(0, t)),
        rt == !snap.has_edge_id(edge_id_of(views[t])),
        cur.edge_id_seq() == (if rt {
            snap.edge_id_seq().push(edge_id_of(views[t]))
        } else {
            snap.edge_id_seq()
        }),
    ensures
        cur.edge_ids() == seeded_ids(views.subrange(0, t + 1)),
{
    let tt = t;
    let id_t = edge_id_of(views[tt]);
    if rt {
        snap.edge_id_seq().lemma_push_to_set_commute(id_t);
        assert(cur.edge_ids() == snap.edge_ids().insert(id_t));
    } else {
        assert(cur.edge_ids() == snap.edge_ids());
        assert(snap.has_edge_id(id_t));
    }
    // the id set grows by exactly the new fingerprint
    assert(cur.edge_ids() =~= seeded_ids(views.subrange(0, tt + 1))) by {
        assert forall|id: u64| cur.edge_ids().contains(id) implies seeded_ids(
            views.subrange(0, tt + 1),
        ).contains(id) by {
            if id == id_t {
                assert(views.subrange(0, tt + 1)[tt] == views[tt]);
            } else {
                assert(snap.edge_ids().contains(id));
                let j = choose|j: int|
                    0 <= j < views.subrange(0, tt).len() && id == edge_id_of(
                        #[trigger] views.subrange(0, tt)[j],
                    );
                assert(views.subrange(0, tt + 1)[j] == views[j]);
                assert(views.subrange(0, tt)[j] == views[j]);
            }
        }
        assert forall|id: u64|
            seeded_ids(views.subrange(0, tt + 1)).contains(id) implies cur.edge_ids().contains(
            id,
        ) by {
            let j = choose|j: int|
                0 <= j < views.subrange(0, tt + 1).len() && id == edge_id_of(
                    #[trigger] views.subrange(0, tt + 1)[j],
                );
            if j < tt {
                assert(views.subrange(0, tt)[j] == views[j]);
                assert(views.subrange(0, tt + 1)[j] == views[j]);
                assert(seeded_ids(views.subrange(0, tt)).contains(id));
                assert(snap.edge_ids().contains(id));
            } else {
                assert(id == id_t);
                if rt {
                    snap.edge_id_seq().lemma_push_to_set_commute(id_t);
                } else {
                }
            }
        }
    }
}

/// One step of seeding: first-occurrence node sequences survive.
#[verifier::rlimit(100)]
#[verifier::spinoff_prover]
proof fn lemma_compute_from_step_contents(
    snap: Hypergraph,
    cur: Hypergraph,
    views: Seq<Seq<i64>>,
    weights: Seq<u64>,
    weighted: bool,
    t: int,
    rt: bool,
)
    requires
        0 <= t < views.len(),
        snap.edge_ids() == seeded_ids(views.subrange(0, t)),
        forall|j: int|
            0 <= j < t && first_with_id(views, j) ==> snap.edge_nodes(
                edge_id_of(#[trigger] views[j]),
            ) == views[j],
        add_edge_post(snap, cur, views[t], if t < weights.len() {
            weights[t]
        } else {
            0
        }, rt),
        snap.has_edge_id(edge_id_of(views[t])) <==> !first_with_id(views, t),
    ensures
        forall|j: int|
            0 <= j < t + 1 && first_with_id(views, j) ==> cur.edge_nodes(
                edge_id_of(#[trigger] views[j]),
            ) == views[j],
{
    let tt = t;
    let id_t = edge_id_of(views[tt]);
    assert forall|j: int| 0 <= j < tt + 1 && first_with_id(views, j) implies cur.edge_nodes(
        edge_id_of(#[trigger] views[j]),
    ) == views[j] by {
        if j == tt {
            assert(!snap.has_edge_id(id_t));
        } else {
            if edge_id_of(views[j]) == id_t {
                assert(!first_with_id(views, tt));
                assert(cur.edge_nodes(id_t) == snap.edge_nodes(id_t));
            } else {
                assert(snap.edge_ids().contains(edge_id_of(views[j]))) by {
                    assert(views.subrange(0, tt)[j] == views[j]);
                }
            }
        }
    }
}

/// One step of seeding: the last weight supplied so far for each
/// fingerprint is the one stored.
#[verifier::rlimit(100)]
#[verifier::spinoff_prover]
proof fn lemma_compute_from_step_weights(
    snap: Hypergraph,
    cur: Hypergraph,
    views: Seq<Seq<i64>>,
    weights: Seq<u64>,
    weighted: bool,
    t: int,
    rt: bool,
)
    requires
        0 <= t < views.len(),
        snap.spec_weighted() == weighted,
        snap.edge_ids() == seeded_ids(views.subrange(0, t)),
        forall|j: int|
            0 <= j < t && last_with_id_before(views, j, t) ==> snap.edge_weight(
                edge_id_of(#[trigger] views[j]),
            ) == coerce_weight(
                weighted,
                if j < weights.len() {
                    weights[j]
                } else {
                    0
                },
            ),
        add_edge_post(snap, cur, views[t], if t < weights.len() {
            weights[t]
        } else {
            0
        }, rt),
    ensures
        forall|j: int|
            0 <= j < t + 1 && last_with_id_before(views, j, t + 1) ==> cur.edge_weight(
                edge_id_of(#[trigger] views[j]),
            ) == coerce_weight(
                weighted,
                if j < weights.len() {
                    weights[j]
                } else {
                    0
                },
            ),
{
    let tt = t;
    let id_t = edge_id_of(views[tt]);
    // last-so-far weights
    assert forall|j: int|
        0 <= j < tt + 1 && last_with_id_before(views, j, tt + 1) implies cur.edge_weight(
        edge_id_of(#[trigger] views[j]),
    ) == coerce_weight(
        weighted,
        if j < weights.len() {
            weights[j]
        } else {
            0
        },
    ) by {
        if j == tt {
        } else {
            assert(edge_id_of(views[j]) != id_t);
            assert(last_with_id_before(views, j, tt));
            assert(snap.edge_ids().contains(edge_id_of(views[j]))) by {
                assert(views.subrange(0, tt)[j] == views[j]);
            }
        }
    }
}

/// One step of seeding: the node set afterwards is the union of the
/// first occurrences' nodes.
#[verifier::rlimit(100)]
#[verifier::spinoff_prover]
proof fn lemma_compute_from_step_nodes(
    snap: Hypergraph,
    cur: Hypergraph,
    views: Seq<Seq<i64>>,
    t: int,
    rt: bool,
)
    requires
        0 <= t < views.len(),
        snap.node_set() == Set::new(
            |n: i64|
                exists|j: int|
                    0 <= j < t && #[trigger] first_with_id(views, j) && views[j].contains(n),
        ),
        snap.has_edge_id(edge_id_of(views[t])) <==> !first_with_id(views, t),
        add_edge_post(snap, cur, views[t], 0, rt) || cur.node_set() == (if rt {
            snap.node_set().union(views[t].to_set())
        } else {
            snap.node_set()
        }),
        rt == !snap.has_edge_id(edge_id_of(views[t])),
        cur.node_set() == (if rt {
            snap.node_set().union(views[t].to_set())
        } else {
            snap.node_set()
        }),
    ensures
        cur.node_set() == Set::new(
            |n: i64|
                exists|j: int|
                    0 <= j < t + 1 && #[trigger] first_with_id(views, j) && views[j].contains(n),
        ),
{
    let tt = t;
    let id_t = edge_id_of(views[tt]);
    assert(cur.node_set() =~= Set::new(
        |n: i64|
            exists|j: int|
                0 <= j < tt + 1 && #[trigger] first_with_id(views, j) && views[j].contains(n),
    )) by {
        if !snap.has_edge_id(id_t) {
            assert(cur.node_set() == snap.node_set().union(views[tt].to_set()));
            assert forall|n: i64| cur.node_set().contains(n) implies exists|j: int|
                0 <= j < tt + 1 && #[trigger] first_with_id(views, j) && views[j].contains(n) by {
                if snap.node_set().contains(n) {
                    let j = choose|j: int|
                        0 <= j < tt && #[trigger] first_with_id(views, j) && views[j].contains(n);
                    assert(0 <= j < tt + 1 && first_with_id(views, j) && views[j].contains(n));
                } else {
                    assert(views[tt].to_set().contains(n));
                    assert(first_with_id(views, tt) && views[tt].contains(n));
                }
            }
            assert forall|n: i64|
                (exists|j: int|
                    0 <= j < tt + 1 && #[trigger] first_with_id(views, j) && views[j].contains(
                        n,
                    )) implies cur.node_set().contains(n) by {
                let j = choose|j: int|
                    0 <= j < tt + 1 && #[trigger] first_with_id(views, j) && views[j].contains(n);
                if j < tt {
                    assert(snap.node_set().contains(n));
                } else {
                    assert(views[tt].to_set().contains(n));
                }
            }
        } else {
            assert(cur.node_set() == snap.node_set());
            assert forall|n: i64|
                (exists|j: int|
                    0 <= j < tt + 1 && #[trigger] first_with_id(views, j) && views[j].contains(
                        n,
                    )) implies cur.node_set().contains(n) by {
                let j = choose|j: int|
                    0 <= j < tt + 1 && #[trigger] first_with_id(views, j) && views[j].contains(n);
                assert(j < tt);
            }
            assert forall|n: i64| cur.node_set().contains(n) implies exists|j: int|
                0 <= j < tt + 1 && #[trigger] first_with_id(views, j) && views[j].contains(n) by {
                let j = choose|j: int|
                    0 <= j < tt && #[trigger] first_with_id(views, j) && views[j].contains(n);
                assert(0 <= j < tt + 1 && first_with_id(views, j) && views[j].contains(n));
            }
        }
    }}

/// One step of seeding: offering the `t`-th edge to the accumulated
/// hypergraph preserves the seed invariants.
#[verifier::rlimit(100)]
#[verifier::spinoff_prover]
proof fn lemma_compute_from_step(
    snap: Hypergraph,
    cur: Hypergraph,
    views: Seq<Seq<i64>>,
    weights: Seq<u64>,
    weighted: bool,
    t: int,
    next: u64,
    rt: bool,
)
    requires
        0 <= t < views.len(),
        snap.wf(),
        snap.spec_weighted() == weighted,
        snap.edge_ids() == seeded_ids(views.subrange(0, t)),
        forall|j: int|
            0 <= j < t && first_with_id(views, j) ==> snap.edge_nodes(
                edge_id_of(#[trigger] views[j]),
            ) == views[j],
        forall|j: int|
            0 <= j < t && last_with_id_before(views, j, t) ==> snap.edge_weight(
                edge_id_of(#[trigger] views[j]),
            ) == coerce_weight(
                weighted,
                if j < weights.len() {
                    weights[j]
                } else {
                    0
                },
            ),
        snap.node_set() == Set::new(
            |n: i64|
                exists|j: int|
                    0 <= j < t && #[trigger] first_with_id(views, j) && views[j].contains(n),
        ),
        next == if t < weights.len() {
            weights[t]
        } else {
            0
        },
        add_edge_post(snap, cur, views[t], next, rt),
    ensures
        cur.wf(),
        cur.spec_weighted() == weighted,
        cur.edge_ids() == seeded_ids(views.subrange(0, t + 1)),
        forall|j: int|
            0 <= j < t + 1 && first_with_id(views, j) ==> cur.edge_nodes(
                edge_id_of(#[trigger] views[j]),
            ) == views[j],
        forall|j: int|
            0 <= j < t + 1 && last_with_id_before(views, j, t + 1) ==> cur.edge_weight(
                edge_id_of(#[trigger] views[j]),
            ) == coerce_weight(
                weighted,
                if j < weights.len() {
                    weights[j]
                } else {
                    0
                },
            ),
        cur.node_set() == Set::new(
            |n: i64|
                exists|j: int|
                    0 <= j < t + 1 && #[trigger] first_with_id(views, j) && views[j].contains(n),
        ),
{
    let tt = t;
    let id_t = edge_id_of(views[tt]);
    assert(rt == !snap.has_edge_id(id_t));
    assert(cur.edge_id_seq() == (if rt {
        snap.edge_id_seq().push(id_t)
    } else {
        snap.edge_id_seq()
    }));
    lemma_compute_from_step_ids(snap, cur, views, t, rt);
    // fresh exactly when the fingerprint is first seen
    assert(snap.has_edge_id(id_t) <==> !first_with_id(views, tt)) by {
        if snap.has_edge_id(id_t) {
            let j = choose|j: int|
                0 <= j < views.subrange(0, tt).len() && id_t == edge_id_of(
                    #[trigger] views.subrange(0, tt)[j],
                );
            assert(views.subrange(0, tt)[j] == views[j]);
            assert(edge_id_of(views[j]) == edge_id_of(views[tt]));
        }
        if !first_with_id(views, tt) {
            let j = choose|j: int|
                0 <= j < tt && edge_id_of(#[trigger] views[j]) == edge_id_of(views[tt]);
            assert(views.subrange(0, tt)[j] == views[j]);
            assert(seeded_ids(views.subrange(0, tt)).contains(id_t));
        }
    }
    lemma_compute_from_step_contents(snap, cur, views, weights, weighted, t, rt);
    lemma_compute_from_step_weights(snap, cur, views, weights, weighted, t, rt);
    assert(rt == !snap.has_edge_id(id_t));
    assert(cur.node_set() == (if rt {
        snap.node_set().union(views[tt].to_set())
    } else {
        snap.node_set()
    }));
    lemma_compute_from_step_nodes(snap, cur, views, t, rt);

}

impl Hypergraph {
    /// The body shared by the two seed constructors: adds the `t`-th edge
    /// with the `t`-th padded weight, skipping nothing.
    fn compute_from(weighted: bool, edge_list: &Vec<Vec<i64>>, weights: &Vec<u64>) -> (r:
        Hypergraph)
        ensures
            from_post(edge_list@.map_values(|v: Vec<i64>| v@), weights@, r, weighted),
    {
        let ghost views = edge_list@.map_values(|v: Vec<i64>| v@);
        let mut result = Hypergraph::new(weighted);
        let mut t: usize = 0;
        proof {
            assert(result.edge_ids() =~= seeded_ids(views.subrange(0, 0)));
            assert(result.node_set() =~= Set::new(
                |n: i64|
                    exists|j: int|
                        0 <= j < views.subrange(0, 0).len() && #[trigger] first_with_id(views, j)
                            && views[j].contains(n),
            ));
        }
        while t < edge_list.len()
            invariant
                result.wf(),
                t <= views.len(),
                views == edge_list@.map_values(|v: Vec<i64>| v@),
                result.spec_weighted() == weighted,
                result.edge_ids() == seeded_ids(views.subrange(0, t as int)),
                forall|j: int|
                    0 <= j < t && first_with_id(views, j) ==> result.edge_nodes(
                        edge_id_of(#[trigger] views[j]),
                    ) == views[j],
                forall|j: int|
                    0 <= j < t && last_with_id_before(views, j, t as int) ==> result.edge_weight(
                        edge_id_of(#[trigger] views[j]),
                    ) == coerce_weight(
                        weighted,
                        if j < weights@.len() {
                            weights@[j]
                        } else {
                            0
                        },
                    ),
                result.node_set() == Set::new(
                    |n: i64|
                        exists|j: int|
                            0 <= j < t && #[trigger] first_with_id(views, j) && views[j].contains(
                                n,
                            ),
                ),
            decreases views.len() - t,
        {
            let next: u64 = if t < weights.len() {
                weights[t]
            } else {
                0
            };
            let ghost snap = result;
            let rt = result.compute_add_edge(&edge_list[t], next);
            proof {
                lemma_compute_from_step(snap, result, views, weights@, weighted, t as int, next, rt);
            }
            t += 1;
        }
        proof {
            assert(views.subrange(0, views.len() as int) =~= views);
        }
        result
    }

    /// Creates an unweighted hypergraph from a list of hyperedges.  For
    /// every set of duplicates in the list only one hyperedge is kept.
    pub fn from(_edge_list: &Vec<Vec<i64>>) -> (r: Hypergraph)
        ensures
            from_post(_edge_list@.map_values(|v: Vec<i64>| v@), Seq::<u64>::empty(), r, false),
    {
        let empty: Vec<u64> = Vec::new();
        Hypergraph::compute_from(false, _edge_list, &empty)
    }

    /// Creates a weighted hypergraph from a list of hyperedges and a list
    /// of weights (as `f64` bits): the `j`-th edge receives the `j`-th
    /// weight, and edges beyond the supplied weights receive 0.  For
    /// duplicates, the first occurrence's node sequence and the last
    /// occurrence's weight win.
    pub fn from_weighted(_edge_list: &Vec<Vec<i64>>, weights: &Vec<u64>) -> (r: Hypergraph)
        ensures
            from_post(_edge_list@.map_values(|v: Vec<i64>| v@), weights@, r, true),
    {
        Hypergraph::compute_from(true, _edge_list, weights)
    }
}

impl Hypergraph {
    /// Whether the edge with id `id` passes an arity test against `f`:
    /// size at most `f` when `up_to` is set, size exactly `f` otherwise.
    pub open spec fn arity_pass(self, id: u64, f: int, up_to: bool) -> bool {
        if up_to {
            self.edge_size(id) <= f
        } else {
            self.edge_size(id) == f
        }
    }

    /// The number of hyperedges whose size is equal to (or, with `up_to`,
    /// at most) the given order plus one, or the given size.  Exactly one
    /// of `order` and `size` must be supplied.
    pub fn num_edges_with(&self, order: Option<usize>, size: Option<usize>, up_to: bool) -> (r:
        Result<usize, &'static str>)
        requires
            self.wf(),
            order matches Some(o) ==> o < usize::MAX,
        ensures
            r is Err <==> ((order is Some && size is Some) || (order is None && size is None)),
            (order is Some && size is Some) ==> (r matches Err(m) && m@
                == "Order and size cannot be both specified"@),
            (order is None && size is None) ==> (r matches Err(m) && m@
                == "At least one between orders and sizes should be specified"@),
            r matches Ok(c) ==> ({
                let f = spec_filter(order, size)->Some_0;
                c == self.edge_id_seq().filter(|id: u64| self.arity_pass(id, f, up_to)).len()
            }),
    {
        if order.is_some() && size.is_some() {
            Err("Order and size cannot be both specified")
        } else if order.is_none() && size.is_none() {
            Err("At least one between orders and sizes should be specified")
        } else {
            let filter: usize = match order {
                Some(val) => val + 1,
                None => size.unwrap(),
            };
            let ghost f = filter as int;
            let ghost pred = |id: u64| self.arity_pass(id, f, up_to);
            let mut res: usize = 0;
            let mut k: usize = 0;
            proof {
                assert(self.eids@.subrange(0, 0).filter(pred) =~= Seq::<u64>::empty());
            }
            while k < self.eids.len()
                invariant
                    self.wf(),
                    k <= self.eids@.len(),
                    f == filter as int,
                    pred == |id: u64| self.arity_pass(id, f, up_to),
                    res == self.eids@.subrange(0, k as int).filter(pred).len(),
                    res <= k,
                decreases self.eids@.len() - k,
            {
                let ghost prefix = self.eids@.subrange(0, k as int);
                proof {
                    assert(self.eids@.subrange(0, k + 1 as int) =~= prefix.push(
                        self.eids@[k as int],
                    ));
                    prefix.lemma_filter_push(self.eids@[k as int], pred);
                    lemma_nodup_index_of(self.eids@, k as int);
                }
                let sz = self.enodes[k].len();
                let pass = if up_to {
                    sz <= filter
                } else {
                    sz == filter
                };
                proof {
                    assert(self.edge_size(self.eids@[k as int]) == sz as int);
                    assert(pass == pred(self.eids@[k as int]));
                }
                if pass {
                    res += 1;
                }
                k += 1;
            }
            proof {
                assert(self.eids@.subrange(0, self.eids@.len() as int) =~= self.eids@);
            }
            Ok(res)
        }
    }

    /// The weights (as `f64` bits) of all hyperedges, in storage order, or
    /// `None` if there are no hyperedges.
    pub fn get_weights(&self) -> (r: Option<Vec<u64>>)
        requires
            self.wf(),
        ensures
            match r {
                None => self.edge_id_seq().len() == 0,
                Some(v) => self.edge_id_seq().len() > 0 && v@.len() == self.edge_id_seq().len()
                    && forall|k: int|
                    0 <= k < v@.len() ==> v@[k] == self.edge_weight(#[trigger] self.edge_id_seq()[k]),
            },
    {
        if self.eids.len() == 0 {
            None
        } else {
            let v = crate::util::copy_u64_vec(&self.eweights);
            proof {
                assert forall|k: int| 0 <= k < v@.len() implies v@[k] == self.edge_weight(
                    #[trigger] self.edge_id_seq()[k],
                ) by {
                    lemma_nodup_index_of(self.eids@, k);
                }
            }
            Some(v)
        }
    }

    /// The sizes (arities) of all hyperedges, in storage order, or `None`
    /// if there are no hyperedges.
    pub fn get_sizes(&self) -> (r: Option<Vec<usize>>)
        requires
            self.wf(),
        ensures
            match r {
                None => self.edge_id_seq().len() == 0,
                Some(v) => self.edge_id_seq().len() > 0 && v@.len() == self.edge_id_seq().len()
                    && forall|k: int|
                    0 <= k < v@.len() ==> v@[k] == self.edge_size(#[trigger] self.edge_id_seq()[k]),
            },
    {
        if self.eids.len() == 0 {
            None
        } else {
            let mut v: Vec<usize> = Vec::new();
            let mut k: usize = 0;
            while k < self.enodes.len()
                invariant
                    self.wf(),
                    k <= self.enodes@.len(),
                    v@.len() == k,
                    forall|k2: int|
                        0 <= k2 < k ==> v@[k2] == self.edge_size(#[trigger] self.edge_id_seq()[k2]),
                decreases self.enodes@.len() - k,
            {
                v.push(self.enodes[k].len());
                proof {
                    lemma_nodup_index_of(self.eids@, k as int);
                }
                k += 1;
            }
            Some(v)
        }
    }

    /// The orders (arity minus one) of all hyperedges, in storage order,
    /// or `None` if there are no hyperedges.  An edge with an empty node
    /// sequence has order -1.
    pub fn get_orders(&self) -> (r: Option<Vec<i64>>)
        requires
            self.wf(),
            forall|id: u64|
                #[trigger] self.has_edge_id(id) ==> self.edge_size(id) <= i64::MAX as int,
        ensures
            match r {
                None => self.edge_id_seq().len() == 0,
                Some(v) => self.edge_id_seq().len() > 0 && v@.len() == self.edge_id_seq().len()
                    && forall|k: int|
                    0 <= k < v@.len() ==> v@[k] == self.edge_size(#[trigger] self.edge_id_seq()[k])
                        - 1,
            },
    {
        if self.eids.len() == 0 {
            None
        } else {
            let mut v: Vec<i64> = Vec::new();
            let mut k: usize = 0;
            while k < self.enodes.len()
                invariant
                    self.wf(),
                    forall|id: u64|
                        #[trigger] self.has_edge_id(id) ==> self.edge_size(id) <= i64::MAX as int,
                    k <= self.enodes@.len(),
                    v@.len() == k,
                    forall|k2: int|
                        0 <= k2 < k ==> v@[k2] == self.edge_size(#[trigger] self.edge_id_seq()[k2])
                            - 1,
                decreases self.enodes@.len() - k,
            {
                proof {
                    lemma_nodup_index_of(self.eids@, k as int);
                    assert(self.eids@.to_set().contains(self.eids@[k as int]));
                    assert(self.has_edge_id(self.eids@[k as int]));
                    assert(self.edge_size(self.eids@[k as int]) <= i64::MAX as int);
                }
                let l = self.enodes[k].len();
                v.push((l as i64) - 1);
                k += 1;
            }
            Some(v)
        }
    }

    /// The largest hyperedge size; 0 by convention if there are no
    /// hyperedges.
    pub fn max_size(&self) -> (r: usize)
        requires
            self.wf(),
        ensures
            forall|id: u64| #[trigger] self.has_edge_id(id) ==> self.edge_size(id) <= r as int,
            r != 0 ==> exists|id: u64|
                #[trigger] self.has_edge_id(id) && self.edge_size(id) == r as int,
    {
        let mut m: usize = 0;
        let mut k: usize = 0;
        while k < self.enodes.len()
            invariant
                self.wf(),
                k <= self.enodes@.len(),
                forall|k2: int|
                    0 <= k2 < k ==> self.edge_size(#[trigger] self.edge_id_seq()[k2]) <= m as int,
                m != 0 ==> exists|id: u64|
                    #[trigger] self.has_edge_id(id) && self.edge_size(id) == m as int,
            decreases self.enodes@.len() - k,
        {
            proof {
                lemma_nodup_index_of(self.eids@, k as int);
                assert(self.eids@.to_set().contains(self.eids@[k as int]));
            }
            let l = self.enodes[k].len();
            if l > m {
                m = l;
                proof {
                    assert(self.has_edge_id(self.eids@[k as int]) && self.edge_size(
                        self.eids@[k as int],
                    ) == m as int);
                }
            }
            k += 1;
        }
        proof {
            assert forall|id: u64| #[trigger] self.has_edge_id(id) implies self.edge_size(id)
                <= m as int by {
                let k2 = choose|k2: int| 0 <= k2 < self.eids@.len() && self.eids@[k2] == id;
                assert(self.edge_id_seq()[k2] == id);
            }
        }
        m
    }

    /// The largest hyperedge order (size minus one); 0 by convention if
    /// every hyperedge has size at most one or there are none.
    pub fn max_order(&self) -> (r: usize)
        requires
            self.wf(),
        ensures
            forall|id: u64| #[trigger] self.has_edge_id(id) ==> self.edge_size(id) <= r + 1,
            r != 0 ==> exists|id: u64|
                #[trigger] self.has_edge_id(id) && self.edge_size(id) == r + 1,
    {
        let m = self.max_size();
        if m == 0 {
            0
        } else {
            m - 1
        }
    }

    /// All nodes of the hypergraph, each exactly once.
    pub fn get_nodes(&self) -> (r: Vec<i64>)
        requires
            self.wf(),
        ensures
            r@.to_set() == self.node_set(),
            r@.no_duplicates(),
    {
        copy_i64_vec(&self.inc_nodes)
    }

    /// The node sequences of all hyperedges, in storage order, or `None`
    /// if there are no hyperedges.
    pub fn get_edges(&self) -> (r: Option<Vec<Vec<i64>>>)
        requires
            self.wf(),
        ensures
            match r {
                None => self.edge_id_seq().len() == 0,
                Some(v) => self.edge_id_seq().len() > 0 && v@.len() == self.edge_id_seq().len()
                    && forall|k: int|
                    0 <= k < v@.len() ==> (#[trigger] v@[k])@ == self.edge_nodes(
                        self.edge_id_seq()[k],
                    ),
            },
    {
        if self.eids.len() == 0 {
            None
        } else {
            let mut v: Vec<Vec<i64>> = Vec::new();
            let mut k: usize = 0;
            while k < self.enodes.len()
                invariant
                    self.wf(),
                    k <= self.enodes@.len(),
                    v@.len() == k,
                    forall|k2: int|
                        0 <= k2 < k ==> (#[trigger] v@[k2])@ == self.edge_nodes(
                            self.edge_id_seq()[k2],
                        ),
                decreases self.enodes@.len() - k,
            {
                v.push(copy_i64_vec(&self.enodes[k]));
                proof {
                    lemma_nodup_index_of(self.eids@, k as int);
                }
                k += 1;
            }
            Some(v)
        }
    }

    /// The node sequences of the hyperedges passing the arity filter, in
    /// storage order; `Ok(None)` when no hyperedge passes.  Exactly one of
    /// `order` and `size` must be supplied.
    pub fn get_edges_with(&self, order: Option<usize>, size: Option<usize>, up_to: bool) -> (r:
        Result<Option<Vec<Vec<i64>>>, &'static str>)
        requires
            self.wf(),
            order matches Some(o) ==> o < usize::MAX,
        ensures
            r is Err <==> ((order is Some && size is Some) || (order is None && size is None)),
            (order is Some && size is Some) ==> (r matches Err(m) && m@
                == "Order and size cannot be both specified"@),
            (order is None && size is None) ==> (r matches Err(m) && m@
                == "Order and size cannot be both None"@),
            r matches Ok(opt) ==> ({
                let f = spec_filter(order, size)->Some_0;
                let sel = self.edge_id_seq().filter(|id: u64| self.arity_pass(id, f, up_to));
                match opt {
                    None => sel.len() == 0,
                    Some(v) => sel.len() > 0 && v@.len() == sel.len() && forall|k: int|
                        0 <= k < v@.len() ==> (#[trigger] v@[k])@ == self.edge_nodes(sel[k]),
                }
            }),
    {
        if order.is_some() && size.is_some() {
            Err("Order and size cannot be both specified")
        } else if order.is_none() && size.is_none() {
            Err("Order and size cannot be both None")
        } else {
            let filter: usize = match order {
                Some(val) => val + 1,
                None => size.unwrap(),
            };
            let ghost f = filter as int;
            let ghost pred = |id: u64| self.arity_pass(id, f, up_to);
            let mut v: Vec<Vec<i64>> = Vec::new();
            let mut k: usize = 0;
            proof {
                assert(self.eids@.subrange(0, 0).filter(pred) =~= Seq::<u64>::empty());
            }
            while k < self.eids.len()
                invariant
                    self.wf(),
                    k <= self.eids@.len(),
                    f == filter as int,
                    pred == |id: u64| self.arity_pass(id, f, up_to),
                    v@.len() == self.eids@.subrange(0, k as int).filter(pred).len(),
                    forall|k2: int|
                        0 <= k2 < v@.len() ==> (#[trigger] v@[k2])@ == self.edge_nodes(
                            self.eids@.subrange(0, k as int).filter(pred)[k2],
                        ),
                decreases self.eids@.len() - k,
            {
                let ghost prefix = self.eids@.subrange(0, k as int);
                proof {
                    assert(self.eids@.subrange(0, k + 1 as int) =~= prefix.push(
                        self.eids@[k as int],
                    ));
                    prefix.lemma_filter_push(self.eids@[k as int], pred);
                    lemma_nodup_index_of(self.eids@, k as int);
                }
                let sz = self.enodes[k].len();
                let pass = if up_to {
                    sz <= filter
                } else {
                    sz == filter
                };
                proof {
                    assert(self.edge_size(self.eids@[k as int]) == sz as int);
                    assert(pass == pred(self.eids@[k as int]));
                }
                if pass {
                    v.push(copy_i64_vec(&self.enodes[k]));
                }
                k += 1;
            }
            proof {
                assert(self.eids@.subrange(0, self.eids@.len() as int) =~= self.eids@);
            }
            if v.len() == 0 {
                Ok(None)
            } else {
                Ok(Some(v))
            }
        }
    }

    /// The weights of the hyperedges passing the arity filter, in storage
    /// order; `Ok(None)` when no hyperedge passes.  Exactly one of `order`
    /// and `size` must be supplied.
    pub fn get_weights_with(&self, order: Option<usize>, size: Option<usize>, up_to: bool) -> (r:
        Result<Option<Vec<u64>>, &'static str>)
        requires
            self.wf(),
            order matches Some(o) ==> o < usize::MAX,
        ensures
            r is Err <==> ((order is Some && size is Some) || (order is None && size is None)),
            (order is Some && size is Some) ==> (r matches Err(m) && m@
                == "Order and size cannot be both specified"@),
            (order is None && size is None) ==> (r matches Err(m) && m@
                == "Order and size cannot be both None"@),
            r matches Ok(opt) ==> ({
                let f = spec_filter(order, size)->Some_0;
                let sel = self.edge_id_seq().filter(|id: u64| self.arity_pass(id, f, up_to));
                match opt {
                    None => sel.len() == 0,
                    Some(v) => sel.len() > 0 && v@.len() == sel.len() && forall|k: int|
                        0 <= k < v@.len() ==> v@[k] == self.edge_weight(#[trigger] sel[k]),
                }
            }),
    {
        if order.is_some() && size.is_some() {
            Err("Order and size cannot be both specified")
        } else if order.is_none() && size.is_none() {
            Err("Order and size cannot be both None")
        } else {
            let filter: usize = match order {
                Some(val) => val + 1,
                None => size.unwrap(),
            };
            let ghost f = filter as int;
            let ghost pred = |id: u64| self.arity_pass(id, f, up_to);
            let mut v: Vec<u64> = Vec::new();
            let mut k: usize = 0;
            proof {
                assert(self.eids@.subrange(0, 0).filter(pred) =~= Seq::<u64>::empty());
            }
            while k < self.eids.len()
                invariant
                    self.wf(),
                    k <= self.eids@.len(),
                    f == filter as int,
                    pred == |id: u64| self.arity_pass(id, f, up_to),
                    v@.len() == self.eids@.subrange(0, k as int).filter(pred).len(),
                    forall|k2: int|
                        0 <= k2 < v@.len() ==> v@[k2] == self.edge_weight(
                            #[trigger] self.eids@.subrange(0, k as int).filter(pred)[k2],
                        ),
                decreases self.eids@.len() - k,
            {
                let ghost prefix = self.eids@.subrange(0, k as int);
                proof {
                    assert(self.eids@.subrange(0, k + 1 as int) =~= prefix.push(
                        self.eids@[k as int],
                    ));
                    prefix.lemma_filter_push(self.eids@[k as int], pred);
                    lemma_nodup_index_of(self.eids@, k as int);
                }
                let sz = self.enodes[k].len();
                let pass = if up_to {
                    sz <= filter
                } else {
                    sz == filter
                };
                proof {
                    assert(self.edge_size(self.eids@[k as int]) == sz as int);
                    assert(pass == pred(self.eids@[k as int]));
                }
                if pass {
                    v.push(self.eweights[k]);
                }
                k += 1;
            }
            proof {
                assert(self.eids@.subrange(0, self.eids@.len() as int) =~= self.eids@);
            }
            if v.len() == 0 {
                Ok(None)
            } else {
                Ok(Some(v))
            }
        }
    }

    /// `Some(s)` when every hyperedge has size `s` (0 by convention for an
    /// edgeless hypergraph), `None` when two hyperedges differ in size.
    pub fn is_uniform(&self) -> (r: Option<usize>)
        requires
            self.wf(),
        ensures
            self.edge_id_seq().len() == 0 ==> r == Some(0usize),
            self.edge_id_seq().len() > 0 ==> match r {
                Some(s) => forall|id: u64|
                    #[trigger] self.has_edge_id(id) ==> self.edge_size(id) == s as int,
                None => exists|id1: u64, id2: u64|
                    #[trigger] self.has_edge_id(id1) && #[trigger] self.has_edge_id(id2)
                        && self.edge_size(id1) != self.edge_size(id2),
            },
    {
        if self.eids.len() == 0 {
            Some(0)
        } else {
            let length = self.enodes[0].len();
            proof {
                lemma_nodup_index_of(self.eids@, 0);
                assert(self.eids@.to_set().contains(self.eids@[0]));
            }
            let mut k: usize = 1;
            while k < self.enodes.len()
                invariant
                    self.wf(),
                    1 <= k <= self.enodes@.len(),
                    self.enodes@.len() > 0,
                    length == self.edge_size(self.edge_id_seq()[0]),
                    self.has_edge_id(self.edge_id_seq()[0]),
                    forall|k2: int|
                        0 <= k2 < k ==> self.edge_size(#[trigger] self.edge_id_seq()[k2])
                            == length as int,
                decreases self.enodes@.len() - k,
            {
                proof {
                    lemma_nodup_index_of(self.eids@, k as int);
                    assert(self.eids@.to_set().contains(self.eids@[k as int]));
                }
                if self.enodes[k].len() != length {
                    proof {
                        assert(self.has_edge_id(self.edge_id_seq()[k as int]));
                        assert(self.edge_size(self.edge_id_seq()[k as int]) != self.edge_size(
                            self.edge_id_seq()[0],
                        ));
                    }
                    return None;
                }
                k += 1;
            }
            proof {
                assert forall|id: u64| #[trigger] self.has_edge_id(id) implies self.edge_size(id)
                    == length as int by {
                    let k2 = choose|k2: int| 0 <= k2 < self.eids@.len() && self.eids@[k2] == id;
                    assert(self.edge_id_seq()[k2] == id);
                }
            }
            Some(length)
        }
    }

    /// The hyperedge records, in storage order, each with its node
    /// sequence and weight.
    pub fn iter_edges(&self) -> (r: Vec<Hyperedge>)
        requires
            self.wf(),
        ensures
            r@.len() == self.edge_id_seq().len(),
            forall|k: int|
                0 <= k < r@.len() ==> (#[trigger] r@[k]).nodes@ == self.edge_nodes(
                    self.edge_id_seq()[k],
                ) && r@[k].weight == self.edge_weight(self.edge_id_seq()[k]),
    {
        let mut r: Vec<Hyperedge> = Vec::new();
        let mut k: usize = 0;
        while k < self.enodes.len()
            invariant
                self.wf(),
                k <= self.enodes@.len(),
                r@.len() == k,
                forall|k2: int|
                    0 <= k2 < k ==> (#[trigger] r@[k2]).nodes@ == self.edge_nodes(
                        self.edge_id_seq()[k2],
                    ) && r@[k2].weight == self.edge_weight(self.edge_id_seq()[k2]),
            decreases self.enodes@.len() - k,
        {
            let rec = Hyperedge::new(copy_i64_vec(&self.enodes[k]), self.eweights[k]);
            r.push(rec);
            proof {
                lemma_nodup_index_of(self.eids@, k as int);
            }
            k += 1;
        }
        r
    }
}

/// The node sequences a list of edge vectors holds, in order.
pub open spec fn seq_views(vs: Seq<Vec<i64>>) -> Seq<Seq<i64>> {
    vs.map_values(|e: Vec<i64>| e@)
}

/// Whether `e` is the node sequence of some incident edge of `node`
/// passing the filter.
pub open spec fn incident_entry(hg: Hypergraph, node: i64, fi: Option<int>, e: Seq<i64>) -> bool {
    exists|id: u64|
        #[trigger] hg.ids_of(node).contains(id) && hg.edge_selected(id, fi) && e == hg.edge_nodes(
            id,
        )
}

/// What a list of incident edges must hold for `node` under filter
/// `fi`: each entry is the node sequence of some selected incident edge,
/// every selected incident edge appears, and no entry repeats.
pub open spec fn incident_edges_match(
    hg: Hypergraph,
    node: i64,
    fi: Option<int>,
    vs: Seq<Vec<i64>>,
) -> bool {
    &&& seq_views(vs).no_duplicates()
    &&& forall|k: int| 0 <= k < vs.len() ==> #[trigger] incident_entry(hg, node, fi, vs[k]@)
    &&& forall|id: u64|
        #[trigger] hg.ids_of(node).contains(id) && hg.edge_selected(id, fi) ==> exists|k: int|
            0 <= k < vs.len() && (#[trigger] vs[k])@ == hg.edge_nodes(id)
}

/// An optional arity filter, as the mathematical integer it selects.
pub open spec fn opt_as_int(f: Option<usize>) -> Option<int> {
    match f {
        Some(v) => Some(v as int),
        None => None,
    }
}

impl Hypergraph {
    /// The neighbors of `n` through edges passing the filter: every node
    /// co-occurring with `n` in a selected incident edge, except `n`
    /// itself.
    pub open spec fn spec_neighbors(self, n: i64, filt: Option<int>) -> Set<i64> {
        Set::new(
            |b: i64|
                b != n && exists|id: u64|
                    #[trigger] self.ids_of(n).contains(id) && self.edge_selected(id, filt)
                        && self.edge_nodes(id).contains(b),
        )
    }

    /// Whether `n` is isolated under the filter: no selected incident
    /// edge connects it to any other node (an edge consisting solely of
    /// `n` itself does not break isolation).
    pub open spec fn spec_isolated(self, n: i64, filt: Option<int>) -> bool {
        forall|id: u64|
            #[trigger] self.ids_of(n).contains(id) && self.edge_selected(id, filt) ==> (forall|
                p: int,
            |
                0 <= p < self.edge_nodes(id).len() ==> self.edge_nodes(id)[p] == n)
    }

    /// The neighbors of a node: the union of all nodes co-occurring with
    /// it in any incident edge passing the arity filter, excluding the
    /// node itself; `Ok(None)` if the node is absent.  At most one of
    /// `order` and `size` may be supplied.
    pub fn get_neighbors(&self, node: i64, order: Option<usize>, size: Option<usize>) -> (r: Result<
        Option<Vec<i64>>,
        &'static str,
    >)
        requires
            self.wf(),
            order matches Some(o) ==> o < usize::MAX,
        ensures
            r is Err <==> (order is Some && size is Some),
            (order is Some && size is Some) ==> (r matches Err(m) && m@
                == "Order and size cannot be both specified"@),
            r matches Ok(opt) ==> match opt {
                None => !self.has_node(node),
                Some(v) => self.has_node(node) && v@.no_duplicates() && v@.to_set()
                    == self.spec_neighbors(node, spec_filter(order, size)),
            },
    {
        if order.is_some() && size.is_some() {
            Err("Order and size cannot be both specified")
        } else {
            match self.find_node_idx(node) {
                None => Ok(None),
                Some(i) => {
                    let filt: Option<usize> = match order {
                        Some(o) => Some(o + 1),
                        None => size,
                    };
                    let ghost fi = spec_filter(order, size);
                    proof {
                        assert(fi == opt_as_int(filt));
                    }
                    let mut acc = crate::nodeset::NodeSet::new();
                    let ghost ids_seq = self.inc_ids@[i as int]@;
                    proof {
                        assert(acc@ =~= Set::new(
                            |b: i64|
                                b != node && exists|j: int|
                                    0 <= j < 0 && self.edge_selected(#[trigger] ids_seq[j], fi)
                                        && self.edge_nodes(ids_seq[j]).contains(b),
                        ));
                    }
                    let mut t: usize = 0;
                    while t < self.inc_ids[i].len()
                        invariant
                            self.wf(),
                            i < self.inc_nodes@.len(),
                            self.inc_nodes@[i as int] == node,
                            self.inc_nodes@.index_of(node) == i,
                            ids_seq == self.inc_ids@[i as int]@,
                            t <= ids_seq.len(),
                            fi == opt_as_int(filt),
                            acc.wf(),
                            acc@ == Set::new(
                                |b: i64|
                                    b != node && exists|j: int|
                                        0 <= j < t && self.edge_selected(
                                            #[trigger] ids_seq[j],
                                            fi,
                                        ) && self.edge_nodes(ids_seq[j]).contains(b),
                            ),
                        decreases ids_seq.len() - t,
                    {
                        let id_t = self.inc_ids[i][t];
                        proof {
                            assert(self.ids_of(node).contains(id_t)) by {
                                assert(ids_seq[t as int] == id_t);
                                assert(ids_seq.to_set().contains(id_t));
                            }
                            self.lemma_incidence_sound(node, id_t);
                        }
                        match self.find_edge_idx(id_t) {
                            Some(k) => {
                                let pass = match filt {
                                    Some(fv) => self.enodes[k].len() == fv,
                                    None => true,
                                };
                                proof {
                                    assert(self.edge_nodes(id_t) == self.enodes@[k as int]@);
                                    assert(pass == self.edge_selected(id_t, fi));
                                }
                                if pass {
                                    let ghost base = acc@;
                                    let mut p: usize = 0;
                                    while p < self.enodes[k].len()
                                        invariant
                                            self.wf(),
                                            k < self.enodes@.len(),
                                            p <= self.enodes@[k as int]@.len(),
                                            acc.wf(),
                                            acc@ == base.union(
                                                Set::new(
                                                    |b: i64|
                                                        b != node && self.enodes@[
                                                            k as int
                                                        ]@.subrange(0, p as int).contains(b),
                                                ),
                                            ),
                                        decreases self.enodes@[k as int]@.len() - p,
                                    {
                                        let b = self.enodes[k][p];
                                        let ghost acc0 = acc@;
                                        if b != node {
                                            acc.insert(b);
                                        }
                                        proof {
                                            let subp = self.enodes@[k as int]@.subrange(
                                                0,
                                                p as int,
                                            );
                                            let subp1 = self.enodes@[k as int]@.subrange(
                                                0,
                                                p + 1 as int,
                                            );
                                            let elem = self.enodes@[k as int]@[p as int];
                                            assert(subp1 =~= subp.push(elem));
                                            assert forall|b2: i64|
                                                #[trigger] subp1.contains(b2) implies (
                                            subp.contains(b2) || b2 == elem) by {
                                                let j = choose|j: int|
                                                    0 <= j < subp1.len() && subp1[j] == b2;
                                                if j < subp.len() {
                                                    assert(subp[j] == b2);
                                                }
                                            }
                                            assert forall|b2: i64| #[trigger]
                                                subp.contains(b2) implies subp1.contains(b2) by {
                                                let j = choose|j: int|
                                                    0 <= j < subp.len() && subp[j] == b2;
                                                assert(subp1[j] == b2);
                                            }
                                            assert(subp1.contains(elem)) by {
                                                assert(subp1[p as int] == elem);
                                            }
                                            assert(acc@ =~= base.union(
                                                Set::new(
                                                    |b2: i64| b2 != node && subp1.contains(b2),
                                                ),
                                            ));
                                            assert(Set::new(
                                                |b2: i64| b2 != node && subp1.contains(b2),
                                            ) =~= Set::new(
                                                |b2: i64|
                                                    b2 != node && self.enodes@[
                                                        k as int
                                                    ]@.subrange(0, p + 1 as int).contains(b2),
                                            ));
                                        }
                                        p += 1;
                                    }
                                    proof {
                                        assert(self.enodes@[k as int]@.subrange(
                                            0,
                                            self.enodes@[k as int]@.len() as int,
                                        ) =~= self.enodes@[k as int]@);
                                        assert(acc@ =~= Set::new(
                                            |b: i64|
                                                b != node && exists|j: int|
                                                    0 <= j < t + 1 && self.edge_selected(
                                                        #[trigger] ids_seq[j],
                                                        fi,
                                                    ) && self.edge_nodes(ids_seq[j]).contains(b),
                                        )) by {
                                            assert forall|b: i64| acc@.contains(b) implies (b
                                                != node && exists|j: int|
                                                0 <= j < t + 1 && self.edge_selected(
                                                    #[trigger] ids_seq[j],
                                                    fi,
                                                ) && self.edge_nodes(ids_seq[j]).contains(
                                                    b,
                                                )) by {
                                                if base.contains(b) {
                                                    let j = choose|j: int|
                                                        0 <= j < t && self.edge_selected(
                                                            #[trigger] ids_seq[j],
                                                            fi,
                                                        ) && self.edge_nodes(ids_seq[j]).contains(
                                                            b,
                                                        );
                                                    assert(0 <= j < t + 1 && self.edge_selected(
                                                        ids_seq[j],
                                                        fi,
                                                    ) && self.edge_nodes(ids_seq[j]).contains(b));
                                                } else {
                                                    assert(self.edge_nodes(id_t).contains(b));
                                                    assert(ids_seq[t as int] == id_t);
                                                    assert(0 <= t < t + 1 && self.edge_selected(
                                                        ids_seq[t as int],
                                                        fi,
                                                    ) && self.edge_nodes(
                                                        ids_seq[t as int],
                                                    ).contains(b));
                                                }
                                            }
                                            assert forall|b: i64|
                                                (b != node && exists|j: int|
                                                    0 <= j < t + 1 && self.edge_selected(
                                                        #[trigger] ids_seq[j],
                                                        fi,
                                                    ) && self.edge_nodes(ids_seq[j]).contains(
                                                        b,
                                                    )) implies acc@.contains(b) by {
                                                let j = choose|j: int|
                                                    0 <= j < t + 1 && self.edge_selected(
                                                        #[trigger] ids_seq[j],
                                                        fi,
                                                    ) && self.edge_nodes(ids_seq[j]).contains(b);
                                                if j < t {
                                                    assert(base.contains(b));
                                                } else {
                                                    assert(ids_seq[j] == id_t);
                                                    assert(self.enodes@[k as int]@.contains(b));
                                                }
                                            }
                                        }
                                    }
                                } else {
                                    proof {
                                        assert(acc@ =~= Set::new(
                                            |b: i64|
                                                b != node && exists|j: int|
                                                    0 <= j < t + 1 && self.edge_selected(
                                                        #[trigger] ids_seq[j],
                                                        fi,
                                                    ) && self.edge_nodes(ids_seq[j]).contains(b),
                                        )) by {
                                            assert forall|b: i64|
                                                (b != node && exists|j: int|
                                                    0 <= j < t + 1 && self.edge_selected(
                                                        #[trigger] ids_seq[j],
                                                        fi,
                                                    ) && self.edge_nodes(ids_seq[j]).contains(
                                                        b,
                                                    )) implies acc@.contains(b) by {
                                                let j = choose|j: int|
                                                    0 <= j < t + 1 && self.edge_selected(
                                                        #[trigger] ids_seq[j],
                                                        fi,
                                                    ) && self.edge_nodes(ids_seq[j]).contains(b);
                                                assert(j != t);
                                            }
                                        }
                                    }
                                }
                            },
                            None => {
                                proof {
                                    assert(false);
                                }
                            },
                        }
                        t += 1;
                    }
                    proof {
                        assert(acc@ =~= self.spec_neighbors(node, fi)) by {
                            assert forall|b: i64| acc@.contains(b) implies self.spec_neighbors(
                                node,
                                fi,
                            ).contains(b) by {
                                let j = choose|j: int|
                                    0 <= j < ids_seq.len() && self.edge_selected(
                                        #[trigger] ids_seq[j],
                                        fi,
                                    ) && self.edge_nodes(ids_seq[j]).contains(b);
                                assert(ids_seq.to_set().contains(ids_seq[j]));
                                assert(self.ids_of(node).contains(ids_seq[j]));
                            }
                            assert forall|b: i64|
                                self.spec_neighbors(node, fi).contains(b) implies acc@.contains(
                                b,
                            ) by {
                                let id = choose|id: u64|
                                    #[trigger] self.ids_of(node).contains(id) && self.edge_selected(
                                        id,
                                        fi,
                                    ) && self.edge_nodes(id).contains(b);
                                let j = choose|j: int|
                                    0 <= j < ids_seq.len() && ids_seq[j] == id;
                            }
                        }
                    }
                    Ok(Some(acc.to_vec()))
                },
            }
        }
    }

    /// The node sequences of the hyperedges incident to a node that pass
    /// the arity filter; `Ok(None)` if the node is absent.  At most one of
    /// `order` and `size` may be supplied.
    pub fn get_incident_edges(&self, node: i64, order: Option<usize>, size: Option<usize>) -> (r:
        Result<Option<Vec<Vec<i64>>>, &'static str>)
        requires
            self.wf(),
            order matches Some(o) ==> o < usize::MAX,
        ensures
            r is Err <==> (order is Some && size is Some),
            (order is Some && size is Some) ==> (r matches Err(m) && m@
                == "Order and size cannot be both specified"@),
            r matches Ok(opt) ==> match opt {
                None => !self.has_node(node),
                Some(v) => self.has_node(node) && incident_edges_match(
                    *self,
                    node,
                    spec_filter(order, size),
                    v@,
                ),
            },
    {
        if order.is_some() && size.is_some() {
            Err("Order and size cannot be both specified")
        } else {
            match self.find_node_idx(node) {
                None => Ok(None),
                Some(i) => {
                    let filt: Option<usize> = match order {
                        Some(o) => Some(o + 1),
                        None => size,
                    };
                    let ghost fi = spec_filter(order, size);
                    proof {
                        assert(fi == opt_as_int(filt));
                    }
                    let mut v: Vec<Vec<i64>> = Vec::new();
                    let ghost ids_seq = self.inc_ids@[i as int]@;
                    let ghost mut sel: Seq<u64> = Seq::empty();
                    proof {
                        assert(ids_seq.no_duplicates());
                    }
                    let mut t: usize = 0;
                    while t < self.inc_ids[i].len()
                        invariant
                            self.wf(),
                            i < self.inc_nodes@.len(),
                            self.inc_nodes@[i as int] == node,
                            self.inc_nodes@.index_of(node) == i,
                            ids_seq == self.inc_ids@[i as int]@,
                            t <= ids_seq.len(),
                            fi == opt_as_int(filt),
                            sel.len() == v@.len(),
                            sel.no_duplicates(),
                            ids_seq.no_duplicates(),
                            forall|k: int|
                                0 <= k < sel.len() ==> self.ids_of(node).contains(#[trigger] sel[k])
                                    && self.edge_selected(sel[k], fi) && v@[k]@ == self.edge_nodes(
                                    sel[k],
                                ),
                            forall|k: int|
                                0 <= k < sel.len() ==> exists|j: int|
                                    0 <= j < t && #[trigger] sel[k] == ids_seq[j],
                            forall|j: int|
                                0 <= j < t && self.edge_selected(#[trigger] ids_seq[j], fi)
                                    ==> sel.contains(ids_seq[j]),
                        decreases ids_seq.len() - t,
                    {
                        let id_t = self.inc_ids[i][t];
                        proof {
                            assert(self.ids_of(node).contains(id_t)) by {
                                assert(ids_seq[t as int] == id_t);
                                assert(ids_seq.to_set().contains(id_t));
                            }
                            self.lemma_incidence_sound(node, id_t);
                        }
                        match self.find_edge_idx(id_t) {
                            Some(k) => {
                                let pass = match filt {
                                    Some(fv) => self.enodes[k].len() == fv,
                                    None => true,
                                };
                                proof {
                                    assert(self.edge_nodes(id_t) == self.enodes@[k as int]@);
                                    assert(pass == self.edge_selected(id_t, fi));
                                }
                                if pass {
                                    v.push(copy_i64_vec(&self.enodes[k]));
                                    proof {
                                        assert(!sel.contains(id_t)) by {
                                            if sel.contains(id_t) {
                                                let k2 = choose|k2: int|
                                                    0 <= k2 < sel.len() && sel[k2] == id_t;
                                                let j = choose|j: int|
                                                    0 <= j < t && sel[k2] == #[trigger] ids_seq[j];
                                                assert(ids_seq[j] == ids_seq[t as int]);
                                            }
                                        }
                                        crate::util::lemma_push_nodup(sel, id_t);
                                        let sel0 = sel;
                                        sel = sel.push(id_t);
                                        assert forall|k2: int|
                                            0 <= k2 < sel.len() implies exists|j: int|
                                            0 <= j < t + 1 && #[trigger] sel[k2]
                                                == ids_seq[j] by {
                                            if k2 < sel0.len() {
                                                let j = choose|j: int|
                                                    0 <= j < t && #[trigger] sel0[k2]
                                                        == ids_seq[j];
                                                assert(sel[k2] == sel0[k2]);
                                                assert(0 <= j < t + 1 && sel[k2] == ids_seq[j]);
                                            } else {
                                                assert(sel[k2] == id_t);
                                                assert(0 <= t < t + 1 && sel[k2]
                                                    == ids_seq[t as int]);
                                            }
                                        }
                                        assert forall|j: int|
                                            0 <= j < t + 1 && self.edge_selected(
                                                #[trigger] ids_seq[j],
                                                fi,
                                            ) implies sel.contains(ids_seq[j]) by {
                                            if j < t {
                                                assert(sel0.contains(ids_seq[j]));
                                                let k2 = choose|k2: int|
                                                    0 <= k2 < sel0.len() && sel0[k2] == ids_seq[j];
                                                assert(sel[k2] == ids_seq[j]);
                                            } else {
                                                assert(sel[sel.len() - 1] == id_t);
                                            }
                                        }
                                    }
                                } else {
                                    proof {
                                        assert forall|j: int|
                                            0 <= j < t + 1 && self.edge_selected(
                                                #[trigger] ids_seq[j],
                                                fi,
                                            ) implies sel.contains(ids_seq[j]) by {
                                            assert(j != t);
                                        }
                                    }
                                }
                            },
                            None => {
                                proof {
                                    assert(false);
                                }
                            },
                        }
                        t += 1;
                    }
                    proof {
                        assert(incident_edges_match(*self, node, fi, v@)) by {
                            assert forall|k2: int|
                                0 <= k2 < v@.len() implies #[trigger] incident_entry(
                                *self,
                                node,
                                fi,
                                v@[k2]@,
                            ) by {
                                assert(self.ids_of(node).contains(sel[k2]) && self.edge_selected(
                                    sel[k2],
                                    fi,
                                ) && v@[k2]@ == self.edge_nodes(sel[k2]));
                            }
                            assert forall|id: u64|
                                #[trigger] self.ids_of(node).contains(id) && self.edge_selected(
                                    id,
                                    fi,
                                ) implies exists|k: int|
                                0 <= k < v@.len() && (#[trigger] v@[k])@ == self.edge_nodes(
                                    id,
                                ) by {
                                let j = choose|j: int| 0 <= j < ids_seq.len() && ids_seq[j] == id;
                                assert(sel.contains(id));
                                let k = choose|k: int| 0 <= k < sel.len() && sel[k] == id;
                                assert(v@[k]@ == self.edge_nodes(id));
                            }
                            assert(seq_views(v@).no_duplicates()) by {
                                let mapped = seq_views(v@);
                                assert forall|a: int, b: int|
                                    0 <= a < mapped.len() && 0 <= b < mapped.len() && a
                                        != b implies mapped[a] != mapped[b] by {
                                    assert(mapped[a] == v@[a]@ && mapped[b] == v@[b]@);
                                    self.lemma_edges_distinct(sel[a], sel[b]);
                                }
                            }
                        }
                    }
                    Ok(Some(v))
                },
            }
        }
    }
}


impl Hypergraph {
    /// The subhypergraph induced by a list of nodes: exactly those nodes,
    /// plus every hyperedge whose full node set is contained in them
    /// (set containment, whatever the sequence order), with its weight.
    pub fn subhypergraph(&self, nodes: &Vec<i64>) -> (r: Hypergraph)
        requires
            self.wf(),
        ensures
            r.wf(),
            r.spec_weighted() == self.spec_weighted(),
            r.node_set() == nodes@.to_set(),
            r.edge_ids() == Set::new(
                |id: u64|
                    self.has_edge_id(id) && self.edge_nodes(id).to_set().subset_of(nodes@.to_set()),
            ),
            forall|id: u64|
                r.has_edge_id(id) ==> #[trigger] r.edge_nodes(id) == self.edge_nodes(id),
            forall|id: u64|
                r.has_edge_id(id) ==> #[trigger] r.edge_weight(id) == self.edge_weight(id),
    {
        let mut res = Hypergraph::new(self.weighted);
        res.add_nodes(nodes);
        proof {
            assert(res.node_set() =~= nodes@.to_set());
            assert(res.edge_ids() =~= Set::new(
                |id: u64|
                    exists|k2: int|
                        0 <= k2 < 0 && #[trigger] self.edge_id_seq()[k2] == id && self.edge_nodes(
                            id,
                        ).to_set().subset_of(nodes@.to_set()),
            ));
        }
        let mut k: usize = 0;
        while k < self.enodes.len()
            invariant
                self.wf(),
                k <= self.enodes@.len(),
                res.wf(),
                res.spec_weighted() == self.spec_weighted(),
                res.node_set() == nodes@.to_set(),
                res.edge_ids() == Set::new(
                    |id: u64|
                        exists|k2: int|
                            0 <= k2 < k && #[trigger] self.edge_id_seq()[k2] == id
                                && self.edge_nodes(id).to_set().subset_of(nodes@.to_set()),
                ),
                forall|id: u64|
                    res.has_edge_id(id) ==> #[trigger] res.edge_nodes(id) == self.edge_nodes(id),
                forall|id: u64|
                    res.has_edge_id(id) ==> #[trigger] res.edge_weight(id) == self.edge_weight(id),
            decreases self.enodes@.len() - k,
        {
            let ghost id_k = self.eids@[k as int];
            proof {
                lemma_nodup_index_of(self.eids@, k as int);
                assert(self.eids@.to_set().contains(id_k));
                assert(self.edge_nodes(id_k) == self.enodes@[k as int]@);
            }
            let ok = crate::util::vec_subset(&self.enodes[k], nodes);
            let ghost snap = res;
            if ok {
                let w = self.eweights[k];
                let _ = res.add_edge_weighted(&self.enodes[k], w);
                proof {
                    assert(!snap.has_edge_id(id_k)) by {
                        if snap.has_edge_id(id_k) {
                            let k2 = choose|k2: int|
                                0 <= k2 < k && #[trigger] self.edge_id_seq()[k2] == id_k
                                    && self.edge_nodes(id_k).to_set().subset_of(nodes@.to_set());
                        }
                    }
                    snap.edge_id_seq().lemma_push_to_set_commute(id_k);
                    assert(res.edge_ids() == snap.edge_ids().insert(id_k));
                    assert(res.node_set() =~= nodes@.to_set());
                    assert(res.edge_weight(id_k) == self.edge_weight(id_k)) by {
                        if !self.spec_weighted() {
                            self.lemma_unweighted(id_k);
                        }
                    }
                    assert forall|id: u64|
                        res.has_edge_id(id) implies #[trigger] res.edge_nodes(id)
                        == self.edge_nodes(id) by {
                        if id != id_k {
                            assert(snap.has_edge_id(id));
                            assert(res.edge_nodes(id) == snap.edge_nodes(id));
                        } else {
                            assert(res.edge_nodes(id_k) == self.enodes@[k as int]@);
                        }
                    }
                    assert forall|id: u64|
                        res.has_edge_id(id) implies #[trigger] res.edge_weight(id)
                        == self.edge_weight(id) by {
                        if id != id_k {
                            assert(snap.has_edge_id(id));
                            assert(res.edge_weight(id) == snap.edge_weight(id));
                        }
                    }
                }
            }
            proof {
                assert(res.edge_ids() =~= Set::new(
                    |id: u64|
                        exists|k2: int|
                            0 <= k2 < k + 1 && #[trigger] self.edge_id_seq()[k2] == id
                                && self.edge_nodes(id).to_set().subset_of(nodes@.to_set()),
                )) by {
                    assert forall|id: u64| res.edge_ids().contains(id) implies exists|k2: int|
                        0 <= k2 < k + 1 && #[trigger] self.edge_id_seq()[k2] == id
                            && self.edge_nodes(id).to_set().subset_of(nodes@.to_set()) by {
                        if snap.edge_ids().contains(id) {
                            let k2 = choose|k2: int|
                                0 <= k2 < k && #[trigger] self.edge_id_seq()[k2] == id
                                    && self.edge_nodes(id).to_set().subset_of(nodes@.to_set());
                            assert(0 <= k2 < k + 1 && self.edge_id_seq()[k2] == id
                                && self.edge_nodes(id).to_set().subset_of(nodes@.to_set()));
                        } else {
                            assert(id == id_k);
                            assert(0 <= k < k + 1 && self.edge_id_seq()[k as int] == id
                                && self.edge_nodes(id).to_set().subset_of(nodes@.to_set()));
                        }
                    }
                    assert forall|id: u64|
                        (exists|k2: int|
                            0 <= k2 < k + 1 && #[trigger] self.edge_id_seq()[k2] == id
                                && self.edge_nodes(id).to_set().subset_of(
                                nodes@.to_set(),
                            )) implies res.edge_ids().contains(id) by {
                        let k2 = choose|k2: int|
                            0 <= k2 < k + 1 && #[trigger] self.edge_id_seq()[k2] == id
                                && self.edge_nodes(id).to_set().subset_of(nodes@.to_set());
                        if k2 < k {
                            assert(snap.edge_ids().contains(id));
                        }
                    }
                }
            }
            k += 1;
        }
        proof {
            assert(res.edge_ids() =~= Set::new(
                |id: u64|
                    self.has_edge_id(id) && self.edge_nodes(id).to_set().subset_of(nodes@.to_set()),
            )) by {
                assert forall|id: u64|
                    self.has_edge_id(id) && self.edge_nodes(id).to_set().subset_of(
                        nodes@.to_set(),
                    ) implies res.edge_ids().contains(id) by {
                    let k2 = choose|k2: int| 0 <= k2 < self.eids@.len() && self.eids@[k2] == id;
                    assert(0 <= k2 < self.enodes@.len() && self.edge_id_seq()[k2] == id
                        && self.edge_nodes(id).to_set().subset_of(nodes@.to_set()));
                }
            }
        }
        res
    }

    /// The subhypergraph induced by hyperedge arities: only the edges
    /// whose size matches one of the given orders (plus one) or sizes are
    /// kept; the nodes are kept only when `keep_nodes` is set (otherwise
    /// only the nodes of the kept edges survive).  Exactly one of
    /// `orders` and `sizes` must be supplied.
    pub fn subhypergraph_by_orders(
        &self,
        orders: Option<&Vec<usize>>,
        sizes: Option<&Vec<usize>>,
        keep_nodes: bool,
    ) -> (r: Result<Hypergraph, &'static str>)
        requires
            self.wf(),
            orders matches Some(ov) ==> forall|j: int| 0 <= j < ov@.len() ==> ov@[j] < usize::MAX,
        ensures
            r is Err <==> ((orders is Some && sizes is Some) || (orders is None && sizes is None)),
            (orders is None && sizes is None) ==> (r matches Err(m) && m@
                == "At least one between orders and sizes should be specified"@),
            (orders is Some && sizes is Some) ==> (r matches Err(m) && m@
                == "Orders and sizes cannot be both specified"@),
            r matches Ok(sub) ==> ({
                let fset = spec_filter_set(orders, sizes);
                &&& sub.wf()
                &&& sub.spec_weighted() == self.spec_weighted()
                &&& sub.edge_ids() == Set::new(
                    |id: u64| self.has_edge_id(id) && fset.contains(self.edge_size(id)),
                )
                &&& forall|id: u64|
                    sub.has_edge_id(id) ==> #[trigger] sub.edge_nodes(id) == self.edge_nodes(id)
                &&& forall|id: u64|
                    sub.has_edge_id(id) ==> #[trigger] sub.edge_weight(id) == self.edge_weight(id)
                &&& keep_nodes ==> sub.node_set() == self.node_set()
                &&& !keep_nodes ==> sub.node_set() == Set::new(
                    |n: i64|
                        exists|id: u64|
                            #[trigger] self.has_edge_id(id) && fset.contains(self.edge_size(id))
                                && self.edge_nodes(id).contains(n),
                )
            }),
    {
        if orders.is_none() && sizes.is_none() {
            Err("At least one between orders and sizes should be specified")
        } else if orders.is_some() && sizes.is_some() {
            Err("Orders and sizes cannot be both specified")
        } else {
            let ghost fset = spec_filter_set(orders, sizes);
            let mut filter_vec: Vec<usize> = Vec::new();
            match orders {
                Some(val) => {
                    let mut j: usize = 0;
                    while j < val.len()
                        invariant
                            j <= val@.len(),
                            forall|j2: int| 0 <= j2 < val@.len() ==> val@[j2] < usize::MAX,
                            filter_vec@.len() == j,
                            forall|j2: int| 0 <= j2 < j ==> filter_vec@[j2] == val@[j2] + 1,
                        decreases val@.len() - j,
                    {
                        filter_vec.push(val[j] + 1);
                        j += 1;
                    }
                },
                None => {
                    let sval = sizes.unwrap();
                    let mut j: usize = 0;
                    while j < sval.len()
                        invariant
                            j <= sval@.len(),
                            filter_vec@.len() == j,
                            forall|j2: int| 0 <= j2 < j ==> filter_vec@[j2] == sval@[j2],
                        decreases sval@.len() - j,
                    {
                        filter_vec.push(sval[j]);
                        j += 1;
                    }
                },
            }
            proof {
                assert forall|x: int|
                    fset.contains(x) <==> exists|j: int|
                        0 <= j < filter_vec@.len() && x == #[trigger] filter_vec@[j] by {
                    match orders {
                        Some(val) => {
                            if fset.contains(x) {
                                let j = choose|j: int|
                                    0 <= j < val@.len() && x == #[trigger] val@[j] + 1;
                                assert(filter_vec@[j] == x);
                            }
                            if exists|j: int|
                                0 <= j < filter_vec@.len() && x == #[trigger] filter_vec@[j] {
                                let j = choose|j: int|
                                    0 <= j < filter_vec@.len() && x == #[trigger] filter_vec@[j];
                                assert(x == val@[j] + 1);
                            }
                        },
                        None => {
                            let sval = sizes->Some_0;
                            if fset.contains(x) {
                                let j = choose|j: int|
                                    0 <= j < sval@.len() && x == #[trigger] sval@[j];
                                assert(filter_vec@[j] == x);
                            }
                            if exists|j: int|
                                0 <= j < filter_vec@.len() && x == #[trigger] filter_vec@[j] {
                                let j = choose|j: int|
                                    0 <= j < filter_vec@.len() && x == #[trigger] filter_vec@[j];
                                assert(x == sval@[j]);
                            }
                        },
                    }
                }
            }
            let mut res = Hypergraph::new(self.weighted);
            if keep_nodes {
                let all = self.get_nodes();
                res.add_nodes(&all);
                proof {
                    assert(res.node_set() =~= self.node_set());
                }
            }
            let ghost base_nodes = res.node_set();
            proof {
                assert(res.edge_ids() =~= Set::new(
                    |id: u64|
                        exists|k2: int|
                            0 <= k2 < 0 && #[trigger] self.edge_id_seq()[k2] == id && fset.contains(
                                self.edge_size(id),
                            ),
                ));
                assert(res.node_set() =~= base_nodes.union(
                    Set::new(
                        |n: i64|
                            exists|k2: int|
                                0 <= k2 < 0 && fset.contains(
                                    self.edge_size(#[trigger] self.edge_id_seq()[k2]),
                                ) && self.edge_nodes(self.edge_id_seq()[k2]).contains(n),
                    ),
                ));
            }
            let mut k: usize = 0;
            while k < self.enodes.len()
                invariant
                    self.wf(),
                    k <= self.enodes@.len(),
                    res.wf(),
                    res.spec_weighted() == self.spec_weighted(),
                    forall|x: int|
                        fset.contains(x) <==> exists|j: int|
                            0 <= j < filter_vec@.len() && x == #[trigger] filter_vec@[j],
                    base_nodes.subset_of(self.node_set()) || base_nodes == self.node_set(),
                    keep_nodes ==> base_nodes == self.node_set(),
                    !keep_nodes ==> base_nodes == Set::<i64>::empty(),
                    res.node_set() == base_nodes.union(
                        Set::new(
                            |n: i64|
                                exists|k2: int|
                                    0 <= k2 < k && fset.contains(
                                        self.edge_size(#[trigger] self.edge_id_seq()[k2]),
                                    ) && self.edge_nodes(self.edge_id_seq()[k2]).contains(n),
                        ),
                    ),
                    res.edge_ids() == Set::new(
                        |id: u64|
                            exists|k2: int|
                                0 <= k2 < k && #[trigger] self.edge_id_seq()[k2] == id
                                    && fset.contains(self.edge_size(id)),
                    ),
                    forall|id: u64|
                        res.has_edge_id(id) ==> #[trigger] res.edge_nodes(id) == self.edge_nodes(
                            id,
                        ),
                    forall|id: u64|
                        res.has_edge_id(id) ==> #[trigger] res.edge_weight(id)
                            == self.edge_weight(id),
                decreases self.enodes@.len() - k,
            {
                let ghost id_k = self.eids@[k as int];
                proof {
                    lemma_nodup_index_of(self.eids@, k as int);
                    assert(self.eids@.to_set().contains(id_k));
                    assert(self.edge_nodes(id_k) == self.enodes@[k as int]@);
                }
                let sz = self.enodes[k].len();
                let pass = crate::util::contains_usize(&filter_vec, sz);
                proof {
                    if pass {
                        let j = choose|j: int|
                            0 <= j < filter_vec@.len() && filter_vec@[j] == sz;
                        assert(sz as int == filter_vec@[j]);
                        assert(fset.contains(self.edge_size(id_k)));
                    } else {
                        if fset.contains(self.edge_size(id_k)) {
                            let j = choose|j: int|
                                0 <= j < filter_vec@.len() && self.edge_size(id_k)
                                    == #[trigger] filter_vec@[j];
                            assert(filter_vec@.contains(filter_vec@[j]));
                        }
                    }
                }
                let ghost snap = res;
                if pass {
                    let w = self.eweights[k];
                    let _ = res.add_edge_weighted(&self.enodes[k], w);
                    proof {
                        assert(!snap.has_edge_id(id_k)) by {
                            if snap.has_edge_id(id_k) {
                                let k2 = choose|k2: int|
                                    0 <= k2 < k && #[trigger] self.edge_id_seq()[k2] == id_k
                                        && fset.contains(self.edge_size(id_k));
                            }
                        }
                        snap.edge_id_seq().lemma_push_to_set_commute(id_k);
                        assert(res.edge_ids() == snap.edge_ids().insert(id_k));
                        assert(res.edge_weight(id_k) == self.edge_weight(id_k)) by {
                            if !self.spec_weighted() {
                                self.lemma_unweighted(id_k);
                            }
                        }
                        assert forall|id: u64|
                            res.has_edge_id(id) implies #[trigger] res.edge_nodes(id)
                            == self.edge_nodes(id) by {
                            if id != id_k {
                                assert(snap.has_edge_id(id));
                                assert(res.edge_nodes(id) == snap.edge_nodes(id));
                            } else {
                                assert(res.edge_nodes(id_k) == self.enodes@[k as int]@);
                            }
                        }
                        assert forall|id: u64|
                            res.has_edge_id(id) implies #[trigger] res.edge_weight(id)
                            == self.edge_weight(id) by {
                            if id != id_k {
                                assert(snap.has_edge_id(id));
                                assert(res.edge_weight(id) == snap.edge_weight(id));
                            }
                        }
                        assert(res.node_set() =~= base_nodes.union(
                            Set::new(
                                |n: i64|
                                    exists|k2: int|
                                        0 <= k2 < k + 1 && fset.contains(
                                            self.edge_size(#[trigger] self.edge_id_seq()[k2]),
                                        ) && self.edge_nodes(self.edge_id_seq()[k2]).contains(n),
                            ),
                        )) by {
                            assert(res.node_set() == snap.node_set().union(
                                self.enodes@[k as int]@.to_set(),
                            ));
                            assert forall|n: i64| res.node_set().contains(n) implies (
                            base_nodes.contains(n) || exists|k2: int|
                                0 <= k2 < k + 1 && fset.contains(
                                    self.edge_size(#[trigger] self.edge_id_seq()[k2]),
                                ) && self.edge_nodes(self.edge_id_seq()[k2]).contains(n)) by {
                                if snap.node_set().contains(n) {
                                    if !base_nodes.contains(n) {
                                        let k2 = choose|k2: int|
                                            0 <= k2 < k && fset.contains(
                                                self.edge_size(#[trigger] self.edge_id_seq()[k2]),
                                            ) && self.edge_nodes(self.edge_id_seq()[k2]).contains(
                                                n,
                                            );
                                        assert(0 <= k2 < k + 1 && fset.contains(
                                            self.edge_size(self.edge_id_seq()[k2]),
                                        ) && self.edge_nodes(self.edge_id_seq()[k2]).contains(n));
                                    }
                                } else {
                                    assert(self.edge_nodes(id_k).contains(n));
                                    assert(0 <= k < k + 1 && fset.contains(
                                        self.edge_size(self.edge_id_seq()[k as int]),
                                    ) && self.edge_nodes(self.edge_id_seq()[k as int]).contains(n));
                                }
                            }
                            assert forall|n: i64|
                                (exists|k2: int|
                                    0 <= k2 < k + 1 && fset.contains(
                                        self.edge_size(#[trigger] self.edge_id_seq()[k2]),
                                    ) && self.edge_nodes(self.edge_id_seq()[k2]).contains(
                                        n,
                                    )) implies res.node_set().contains(n) by {
                                let k2 = choose|k2: int|
                                    0 <= k2 < k + 1 && fset.contains(
                                        self.edge_size(#[trigger] self.edge_id_seq()[k2]),
                                    ) && self.edge_nodes(self.edge_id_seq()[k2]).contains(n);
                                if k2 < k {
                                    assert(snap.node_set().contains(n));
                                } else {
                                    assert(self.enodes@[k as int]@.to_set().contains(n));
                                }
                            }
                        }
                    }
                } else {
                    proof {
                        assert(res.node_set() =~= base_nodes.union(
                            Set::new(
                                |n: i64|
                                    exists|k2: int|
                                        0 <= k2 < k + 1 && fset.contains(
                                            self.edge_size(#[trigger] self.edge_id_seq()[k2]),
                                        ) && self.edge_nodes(self.edge_id_seq()[k2]).contains(n),
                            ),
                        )) by {
                            assert forall|n: i64|
                                (exists|k2: int|
                                    0 <= k2 < k + 1 && fset.contains(
                                        self.edge_size(#[trigger] self.edge_id_seq()[k2]),
                                    ) && self.edge_nodes(self.edge_id_seq()[k2]).contains(
                                        n,
                                    )) implies res.node_set().contains(n) by {
                                let k2 = choose|k2: int|
                                    0 <= k2 < k + 1 && fset.contains(
                                        self.edge_size(#[trigger] self.edge_id_seq()[k2]),
                                    ) && self.edge_nodes(self.edge_id_seq()[k2]).contains(n);
                                assert(k2 != k);
                            }
                        }
                    }
                }
                proof {
                    assert(res.edge_ids() =~= Set::new(
                        |id: u64|
                            exists|k2: int|
                                0 <= k2 < k + 1 && #[trigger] self.edge_id_seq()[k2] == id
                                    && fset.contains(self.edge_size(id)),
                    )) by {
                        assert forall|id: u64| res.edge_ids().contains(id) implies exists|k2: int|
                            0 <= k2 < k + 1 && #[trigger] self.edge_id_seq()[k2] == id
                                && fset.contains(self.edge_size(id)) by {
                            if snap.edge_ids().contains(id) {
                                let k2 = choose|k2: int|
                                    0 <= k2 < k && #[trigger] self.edge_id_seq()[k2] == id
                                        && fset.contains(self.edge_size(id));
                                assert(0 <= k2 < k + 1 && self.edge_id_seq()[k2] == id
                                    && fset.contains(self.edge_size(id)));
                            } else {
                                assert(id == id_k && fset.contains(self.edge_size(id_k)));
                                assert(0 <= k < k + 1 && self.edge_id_seq()[k as int] == id
                                    && fset.contains(self.edge_size(id)));
                            }
                        }
                        assert forall|id: u64|
                            (exists|k2: int|
                                0 <= k2 < k + 1 && #[trigger] self.edge_id_seq()[k2] == id
                                    && fset.contains(self.edge_size(id))) implies res
                            .edge_ids().contains(id) by {
                            let k2 = choose|k2: int|
                                0 <= k2 < k + 1 && #[trigger] self.edge_id_seq()[k2] == id
                                    && fset.contains(self.edge_size(id));
                            if k2 < k {
                                assert(snap.edge_ids().contains(id));
                            }
                        }
                    }
                }
                k += 1;
            }
            proof {
                assert(res.edge_ids() =~= Set::new(
                    |id: u64| self.has_edge_id(id) && fset.contains(self.edge_size(id)),
                )) by {
                    assert forall|id: u64|
                        self.has_edge_id(id) && fset.contains(self.edge_size(id)) implies res
                        .edge_ids().contains(id) by {
                        let k2 = choose|k2: int| 0 <= k2 < self.eids@.len() && self.eids@[k2] == id;
                        assert(0 <= k2 < self.enodes@.len() && self.edge_id_seq()[k2] == id
                            && fset.contains(self.edge_size(id)));
                    }
                }
                if !keep_nodes {
                    assert(res.node_set() =~= Set::new(
                        |n: i64|
                            exists|id: u64|
                                #[trigger] self.has_edge_id(id) && fset.contains(
                                    self.edge_size(id),
                                ) && self.edge_nodes(id).contains(n),
                    )) by {
                        assert forall|n: i64| res.node_set().contains(n) implies exists|id: u64|
                            #[trigger] self.has_edge_id(id) && fset.contains(self.edge_size(id))
                                && self.edge_nodes(id).contains(n) by {
                            let k2 = choose|k2: int|
                                0 <= k2 < self.enodes@.len() && fset.contains(
                                    self.edge_size(#[trigger] self.edge_id_seq()[k2]),
                                ) && self.edge_nodes(self.edge_id_seq()[k2]).contains(n);
                            assert(self.eids@.to_set().contains(self.eids@[k2]));
                            assert(self.has_edge_id(self.edge_id_seq()[k2]) && fset.contains(
                                self.edge_size(self.edge_id_seq()[k2]),
                            ) && self.edge_nodes(self.edge_id_seq()[k2]).contains(n));
                        }
                        assert forall|n: i64|
                            (exists|id: u64|
                                #[trigger] self.has_edge_id(id) && fset.contains(
                                    self.edge_size(id),
                                ) && self.edge_nodes(id).contains(n)) implies res
                            .node_set().contains(n) by {
                            let id = choose|id: u64|
                                #[trigger] self.has_edge_id(id) && fset.contains(
                                    self.edge_size(id),
                                ) && self.edge_nodes(id).contains(n);
                            let k2 = choose|k2: int|
                                0 <= k2 < self.eids@.len() && self.eids@[k2] == id;
                            assert(0 <= k2 < self.enodes@.len() && fset.contains(
                                self.edge_size(self.edge_id_seq()[k2]),
                            ) && self.edge_nodes(self.edge_id_seq()[k2]).contains(n));
                        }
                    }
                } else {
                    assert(res.node_set() =~= self.node_set()) by {
                        assert forall|n: i64| res.node_set().contains(n) implies self
                            .node_set().contains(n) by {
                            if !base_nodes.contains(n) {
                                let k2 = choose|k2: int|
                                    0 <= k2 < self.enodes@.len() && fset.contains(
                                        self.edge_size(#[trigger] self.edge_id_seq()[k2]),
                                    ) && self.edge_nodes(self.edge_id_seq()[k2]).contains(n);
                                assert(self.eids@.to_set().contains(self.eids@[k2]));
                                self.lemma_incidence_complete(n, self.edge_id_seq()[k2]);
                            }
                        }
                    }
                }
            }
            Ok(res)
        }
    }
}

/// The set of edge sizes a filter list selects: each listed order plus
/// one, or each listed size.
pub open spec fn spec_filter_set(orders: Option<&Vec<usize>>, sizes: Option<&Vec<usize>>) -> Set<
    int,
> {
    match orders {
        Some(ov) => Set::new(
            |x: int| exists|j: int| 0 <= j < ov@.len() && x == #[trigger] ov@[j] + 1,
        ),
        None => match sizes {
            Some(sv) => Set::new(
                |x: int| exists|j: int| 0 <= j < sv@.len() && x == #[trigger] sv@[j],
            ),
            None => Set::empty(),
        },
    }
}

impl Hypergraph {
    /// Whether the node at incidence position `i` is isolated under the
    /// filter.
    fn isolated_at(&self, i: usize, filt: Option<usize>) -> (r: bool)
        requires
            self.wf(),
            i < self.inc_nodes@.len(),
        ensures
            r == self.spec_isolated(self.inc_nodes@[i as int], opt_as_int(filt)),
    {
        let node = self.inc_nodes[i];
        let ghost fi = opt_as_int(filt);
        let ghost ids_seq = self.inc_ids@[i as int]@;
        proof {
            lemma_nodup_index_of(self.inc_nodes@, i as int);
            assert(self.inc_nodes@.contains(node));
            assert(self.ids_of(node) == ids_seq.to_set());
        }
        let mut t: usize = 0;
        while t < self.inc_ids[i].len()
            invariant
                self.wf(),
                i < self.inc_nodes@.len(),
                node == self.inc_nodes@[i as int],
                self.inc_nodes@.index_of(node) == i,
                ids_seq == self.inc_ids@[i as int]@,
                fi == opt_as_int(filt),
                t <= ids_seq.len(),
                forall|j: int|
                    0 <= j < t && self.edge_selected(#[trigger] ids_seq[j], fi) ==> (forall|p: int|
                        0 <= p < self.edge_nodes(ids_seq[j]).len() ==> self.edge_nodes(
                            ids_seq[j],
                        )[p] == node),
            decreases ids_seq.len() - t,
        {
            let id_t = self.inc_ids[i][t];
            proof {
                assert(self.ids_of(node).contains(id_t)) by {
                    assert(ids_seq[t as int] == id_t);
                    assert(ids_seq.to_set().contains(id_t));
                }
                self.lemma_incidence_sound(node, id_t);
            }
            match self.find_edge_idx(id_t) {
                Some(k) => {
                    let pass = match filt {
                        Some(fv) => self.enodes[k].len() == fv,
                        None => true,
                    };
                    proof {
                        assert(self.edge_nodes(id_t) == self.enodes@[k as int]@);
                        assert(pass == self.edge_selected(id_t, fi));
                    }
                    if pass {
                        let mut p: usize = 0;
                        while p < self.enodes[k].len()
                            invariant
                                self.wf(),
                                k < self.enodes@.len(),
                                p <= self.enodes@[k as int]@.len(),
                                node == self.inc_nodes@[i as int],
                                i < self.inc_nodes@.len(),
                                self.inc_nodes@.index_of(node) == i,
                                ids_seq == self.inc_ids@[i as int]@,
                                fi == opt_as_int(filt),
                                t < ids_seq.len(),
                                ids_seq[t as int] == id_t,
                                self.edge_nodes(id_t) == self.enodes@[k as int]@,
                                self.edge_selected(id_t, fi),
                                self.ids_of(node).contains(id_t),
                                forall|q: int|
                                    0 <= q < p ==> self.enodes@[k as int]@[q] == node,
                            decreases self.enodes@[k as int]@.len() - p,
                        {
                            if self.enodes[k][p] != node {
                                proof {
                                    assert(self.edge_nodes(id_t)[p as int] != node);
                                    assert(!self.spec_isolated(node, fi)) by {
                                        if self.spec_isolated(node, fi) {
                                            assert(self.ids_of(node).contains(id_t)
                                                && self.edge_selected(id_t, fi));
                                            assert(self.edge_nodes(id_t)[p as int] == node);
                                        }
                                    }
                                }
                                return false;
                            }
                            p += 1;
                        }
                    }
                },
                None => {
                    proof {
                        assert(false);
                    }
                },
            }
            t += 1;
        }
        proof {
            assert forall|id: u64|
                #[trigger] self.ids_of(node).contains(id) && self.edge_selected(
                    id,
                    fi,
                ) implies (forall|p: int|
                0 <= p < self.edge_nodes(id).len() ==> self.edge_nodes(id)[p] == node) by {
                let j = choose|j: int| 0 <= j < ids_seq.len() && ids_seq[j] == id;
            }
        }
        true
    }

    /// Whether a node is isolated: no incident edge passing the arity
    /// filter connects it to any other node (an edge consisting solely of
    /// the node itself does not break isolation).  `Ok(None)` if the node
    /// is absent; at most one of `order` and `size` may be supplied.
    pub fn is_isolated(&self, node: i64, order: Option<usize>, size: Option<usize>) -> (r: Result<
        Option<bool>,
        &'static str,
    >)
        requires
            self.wf(),
            order matches Some(o) ==> o < usize::MAX,
        ensures
            r is Err <==> (order is Some && size is Some),
            (order is Some && size is Some) ==> (r matches Err(m) && m@
                == "Order and size cannot be both specified."@),
            r matches Ok(opt) ==> match opt {
                None => !self.has_node(node),
                Some(b) => self.has_node(node) && b == self.spec_isolated(
                    node,
                    spec_filter(order, size),
                ),
            },
    {
        if order.is_some() && size.is_some() {
            Err("Order and size cannot be both specified.")
        } else {
            match self.find_node_idx(node) {
                None => Ok(None),
                Some(i) => {
                    let filt: Option<usize> = match order {
                        Some(o) => Some(o + 1),
                        None => size,
                    };
                    proof {
                        assert(spec_filter(order, size) == opt_as_int(filt));
                    }
                    Ok(Some(self.isolated_at(i, filt)))
                },
            }
        }
    }

    /// All isolated nodes under the arity filter, each exactly once.  At
    /// most one of `order` and `size` may be supplied.
    pub fn isolated_nodes(&self, order: Option<usize>, size: Option<usize>) -> (r: Result<
        Vec<i64>,
        &'static str,
    >)
        requires
            self.wf(),
            order matches Some(o) ==> o < usize::MAX,
        ensures
            r is Err <==> (order is Some && size is Some),
            (order is Some && size is Some) ==> (r matches Err(m) && m@
                == "Order and size cannot be both specified."@),
            r matches Ok(v) ==> v@.no_duplicates() && v@.to_set() == Set::new(
                |n: i64|
                    self.has_node(n) && self.spec_isolated(n, spec_filter(order, size)),
            ),
    {
        if order.is_some() && size.is_some() {
            Err("Order and size cannot be both specified.")
        } else {
            let filt: Option<usize> = match order {
                Some(o) => Some(o + 1),
                None => size,
            };
            let ghost fi = spec_filter(order, size);
            proof {
                assert(fi == opt_as_int(filt));
            }
            let mut v: Vec<i64> = Vec::new();
            let mut i: usize = 0;
            while i < self.inc_nodes.len()
                invariant
                    self.wf(),
                    i <= self.inc_nodes@.len(),
                    fi == opt_as_int(filt),
                    v@.no_duplicates(),
                    forall|x: i64|
                        #[trigger] v@.contains(x) ==> exists|i2: int|
                            0 <= i2 < i && self.inc_nodes@[i2] == x,
                    v@.to_set() == Set::new(
                        |n: i64|
                            exists|i2: int|
                                0 <= i2 < i && #[trigger] self.inc_nodes@[i2] == n
                                    && self.spec_isolated(n, fi),
                    ),
                decreases self.inc_nodes@.len() - i,
            {
                let iso = self.isolated_at(i, filt);
                let ghost v0 = v@;
                if iso {
                    let n = self.inc_nodes[i];
                    proof {
                        assert(!v@.contains(n)) by {
                            if v@.contains(n) {
                                let i2 = choose|i2: int|
                                    0 <= i2 < i && self.inc_nodes@[i2] == n;
                            }
                        }
                        crate::util::lemma_push_nodup(v@, n);
                    }
                    v.push(n);
                }
                proof {
                    assert forall|x: i64| #[trigger] v@.contains(x) implies exists|i2: int|
                        0 <= i2 < i + 1 && self.inc_nodes@[i2] == x by {
                        let j = choose|j: int| 0 <= j < v@.len() && v@[j] == x;
                        if j < v0.len() {
                            assert(v0[j] == x);
                            assert(v0.contains(x));
                            let i2 = choose|i2: int| 0 <= i2 < i && self.inc_nodes@[i2] == x;
                            assert(0 <= i2 < i + 1 && self.inc_nodes@[i2] == x);
                        } else {
                            assert(x == self.inc_nodes@[i as int]);
                            assert(0 <= i < i + 1 && self.inc_nodes@[i as int] == x);
                        }
                    }
                    assert(v@.to_set() =~= Set::new(
                        |n: i64|
                            exists|i2: int|
                                0 <= i2 < i + 1 && #[trigger] self.inc_nodes@[i2] == n
                                    && self.spec_isolated(n, fi),
                    )) by {
                        if iso {
                            v0.lemma_push_to_set_commute(self.inc_nodes@[i as int]);
                        }
                        assert forall|n: i64| v@.to_set().contains(n) implies exists|i2: int|
                            0 <= i2 < i + 1 && #[trigger] self.inc_nodes@[i2] == n
                                && self.spec_isolated(n, fi) by {
                            if v0.to_set().contains(n) {
                                let i2 = choose|i2: int|
                                    0 <= i2 < i && #[trigger] self.inc_nodes@[i2] == n
                                        && self.spec_isolated(n, fi);
                                assert(0 <= i2 < i + 1 && self.inc_nodes@[i2] == n
                                    && self.spec_isolated(n, fi));
                            } else {
                                assert(iso && n == self.inc_nodes@[i as int]);
                                assert(0 <= i < i + 1 && self.inc_nodes@[i as int] == n
                                    && self.spec_isolated(n, fi));
                            }
                        }
                        assert forall|n: i64|
                            (exists|i2: int|
                                0 <= i2 < i + 1 && #[trigger] self.inc_nodes@[i2] == n
                                    && self.spec_isolated(n, fi)) implies v@.to_set().contains(
                            n,
                        ) by {
                            let i2 = choose|i2: int|
                                0 <= i2 < i + 1 && #[trigger] self.inc_nodes@[i2] == n
                                    && self.spec_isolated(n, fi);
                            if i2 < i {
                                assert(v0.to_set().contains(n));
                            }
                        }
                    }
                }
                i += 1;
            }
            proof {
                assert(v@.to_set() =~= Set::new(
                    |n: i64| self.has_node(n) && self.spec_isolated(n, fi),
                )) by {
                    assert forall|n: i64|
                        self.has_node(n) && self.spec_isolated(n, fi) implies v@.to_set().contains(
                        n,
                    ) by {
                        let i2 = choose|i2: int|
                            0 <= i2 < self.inc_nodes@.len() && self.inc_nodes@[i2] == n;
                    }
                }
            }
            Ok(v)
        }
    }

    /// Whether some hyperedge has size `s`.
    pub open spec fn has_edge_of_size(self, s: int) -> bool {
        exists|id: u64| #[trigger] self.has_edge_id(id) && self.edge_size(id) == s
    }

    /// Whether some hyperedge among the first `k` of the edge table has
    /// size `s`.
    pub open spec fn prefix_has_size(self, k: int, s: usize) -> bool {
        exists|k2: int|
            0 <= k2 < k && self.edge_size(#[trigger] self.edge_id_seq()[k2]) == s as int
    }

    /// The distribution of hyperedge sizes: one entry per occurring size,
    /// with the number of hyperedges of that size.
    pub fn distrbution_orders(&self) -> (r: Vec<(usize, usize)>)
        requires
            self.wf(),
        ensures
            r@.map_values(|pr: (usize, usize)| pr.0).no_duplicates(),
            forall|j: int|
                0 <= j < r@.len() ==> (#[trigger] r@[j]).1 == self.edge_id_seq().filter(
                    |id: u64| self.edge_size(id) == r@[j].0,
                ).len() && r@[j].1 > 0,
            forall|s: usize| #[trigger] self.has_edge_of_size(s as int) <==> dist_has_key(r@, s),
    {
        let mut r: Vec<(usize, usize)> = Vec::new();
        let mut k: usize = 0;
        proof {
            assert(self.eids@.subrange(0, 0) =~= Seq::<u64>::empty());
        }
        while k < self.eids.len()
            invariant
                self.wf(),
                k <= self.eids@.len(),
                r@.map_values(|pr: (usize, usize)| pr.0).no_duplicates(),
                forall|j: int|
                    0 <= j < r@.len() ==> (#[trigger] r@[j]).1 == self.eids@.subrange(
                        0,
                        k as int,
                    ).filter(|id: u64| self.edge_size(id) == r@[j].0).len() && r@[j].1 > 0,
                forall|s: usize| #[trigger] self.prefix_has_size(k as int, s) <==> dist_has_key(
                    r@,
                    s,
                ),
            decreases self.eids@.len() - k,
        {
            let sz = self.enodes[k].len();
            let ghost prefix = self.eids@.subrange(0, k as int);
            let ghost id_k = self.eids@[k as int];
            proof {
                lemma_nodup_index_of(self.eids@, k as int);
                assert(self.edge_size(id_k) == sz as int);
                assert(self.eids@.subrange(0, k + 1 as int) =~= prefix.push(id_k));
            }
            let mut j: usize = 0;
            let mut found = false;
            let mut found_at: usize = 0;
            while j < r.len()
                invariant
                    j <= r@.len(),
                    !found ==> forall|j2: int| 0 <= j2 < j ==> (#[trigger] r@[j2]).0 != sz,
                    found ==> found_at < r@.len() && r@[found_at as int].0 == sz,
                decreases r@.len() - j,
            {
                if !found && r[j].0 == sz {
                    found = true;
                    found_at = j;
                    proof {
                        assert(r@[j as int].0 == sz);
                    }
                }
                j += 1;
            }
            let ghost r0 = r@;
            proof {
                if !found {
                    assert(!dist_has_key(r0, sz)) by {
                        if dist_has_key(r0, sz) {
                            let j2 = choose|j2: int|
                                0 <= j2 < r0.len() && (#[trigger] r0[j2]).0 == sz;
                        }
                    }
                }
            }
            if found {
                let c = r[found_at].1;
                proof {
                    prefix.lemma_filter_len(|id: u64| self.edge_size(id) == sz as int);
                    assert(c < usize::MAX) by {
                        assert(c == prefix.filter(|id: u64| self.edge_size(id) == sz as int).len());
                        assert(prefix.len() <= usize::MAX);
                    }
                }
                r.set(found_at, (sz, c + 1));
            } else {
                r.push((sz, 1));
            }
            proof {
                let szp = sz;
                // per-key counts over the extended prefix
                assert forall|j2: int|
                    0 <= j2 < r@.len() implies (#[trigger] r@[j2]).1 == self.eids@.subrange(
                    0,
                    k + 1 as int,
                ).filter(|id: u64| self.edge_size(id) == r@[j2].0).len() && r@[j2].1 > 0 by {
                    let key = r@[j2].0;
                    prefix.lemma_filter_push(id_k, |id: u64| self.edge_size(id) == key);
                    if found {
                        if j2 == found_at {
                            assert(key == szp);
                            assert(r0[j2].1 == prefix.filter(
                                |id: u64| self.edge_size(id) == key,
                            ).len());
                        } else {
                            assert(r@[j2] == r0[j2]);
                            assert(r0.map_values(|pr: (usize, usize)| pr.0)[j2] == key);
                            assert(r0.map_values(|pr: (usize, usize)| pr.0)[found_at as int]
                                == szp);
                            assert(key != szp);
                        }
                    } else {
                        if j2 < r0.len() {
                            assert(r@[j2] == r0[j2]);
                            assert(key != szp) by {
                                if key == szp {
                                    assert(dist_has_key(r0, szp));
                                }
                            }
                        } else {
                            assert(r@[j2] == (szp, 1usize));
                            assert(prefix.filter(|id: u64| self.edge_size(id) == szp as int).len()
                                == 0) by {
                                crate::util::lemma_filter_membership(
                                    prefix,
                                    |id: u64| self.edge_size(id) == szp as int,
                                );
                                if prefix.filter(|id: u64| self.edge_size(id) == szp as int).len()
                                    > 0 {
                                    let fid = prefix.filter(
                                        |id: u64| self.edge_size(id) == szp as int,
                                    )[0];
                                    assert(prefix.filter(
                                        |id: u64| self.edge_size(id) == szp as int,
                                    ).contains(fid));
                                    assert(prefix.contains(fid));
                                    let k2 = choose|k2: int|
                                        0 <= k2 < prefix.len() && prefix[k2] == fid;
                                    assert(self.edge_size(self.edge_id_seq()[k2]) == szp as int);
                                    assert(self.prefix_has_size(k as int, szp));
                                    assert(dist_has_key(r0, szp));
                                }
                            }
                        }
                    }
                }
                // key presence over the extended prefix
                assert forall|s: usize|
                    #[trigger] self.prefix_has_size(k + 1, s) <==> dist_has_key(r@, s) by {
                    if self.prefix_has_size(k + 1, s) {
                        let k2 = choose|k2: int|
                            0 <= k2 < k + 1 && self.edge_size(#[trigger] self.edge_id_seq()[k2])
                                == s as int;
                        if k2 < k {
                            assert(self.prefix_has_size(k as int, s));
                            assert(dist_has_key(r0, s));
                            let j2 = choose|j2: int|
                                0 <= j2 < r0.len() && (#[trigger] r0[j2]).0 == s;
                            assert(r@[j2].0 == s);
                            assert(dist_has_key(r@, s));
                        } else {
                            assert(s == szp);
                            if found {
                                assert(r@[found_at as int].0 == s);
                            } else {
                                assert(r@[r@.len() - 1].0 == s);
                            }
                            assert(dist_has_key(r@, s));
                        }
                    }
                    if dist_has_key(r@, s) {
                        let j2 = choose|j2: int|
                            0 <= j2 < r@.len() && (#[trigger] r@[j2]).0 == s;
                        if j2 < r0.len() && r0[j2].0 == s {
                            assert(dist_has_key(r0, s));
                            assert(self.prefix_has_size(k as int, s));
                            let k2 = choose|k2: int|
                                0 <= k2 < k && self.edge_size(#[trigger] self.edge_id_seq()[k2])
                                    == s as int;
                            assert(0 <= k2 < k + 1 && self.edge_size(self.edge_id_seq()[k2])
                                == s as int);
                            assert(self.prefix_has_size(k + 1, s));
                        } else {
                            assert(s == szp);
                            assert(0 <= k < k + 1 && self.edge_size(self.edge_id_seq()[k as int])
                                == s as int);
                            assert(self.prefix_has_size(k + 1, s));
                        }
                    }
                }
                // keys stay duplicate-free
                assert(r@.map_values(|pr: (usize, usize)| pr.0).no_duplicates()) by {
                    let keys = r@.map_values(|pr: (usize, usize)| pr.0);
                    let keys0 = r0.map_values(|pr: (usize, usize)| pr.0);
                    if found {
                        assert(keys =~= keys0);
                    } else {
                        assert(keys =~= keys0.push(szp));
                        assert(!keys0.contains(szp)) by {
                            if keys0.contains(szp) {
                                let j2 = choose|j2: int|
                                    0 <= j2 < keys0.len() && keys0[j2] == szp;
                                assert(r0[j2].0 == szp);
                                assert(dist_has_key(r0, szp));
                            }
                        }
                        crate::util::lemma_push_nodup(keys0, szp);
                    }
                }
            }
            k += 1;
        }
        proof {
            let n = self.eids@.len() as int;
            assert forall|s: usize|
                #[trigger] self.has_edge_of_size(s as int) <==> dist_has_key(r@, s) by {
                if self.has_edge_of_size(s as int) {
                    let id = choose|id: u64|
                        #[trigger] self.has_edge_id(id) && self.edge_size(id) == s as int;
                    let k2 = choose|k2: int| 0 <= k2 < self.eids@.len() && self.eids@[k2] == id;
                    assert(self.edge_size(self.edge_id_seq()[k2]) == s as int);
                    assert(self.prefix_has_size(n, s));
                }
                if dist_has_key(r@, s) {
                    assert(self.prefix_has_size(n, s));
                    let k2 = choose|k2: int|
                        0 <= k2 < n && self.edge_size(#[trigger] self.edge_id_seq()[k2])
                            == s as int;
                    assert(self.eids@.to_set().contains(self.eids@[k2]));
                    assert(self.has_edge_id(self.edge_id_seq()[k2]) && self.edge_size(
                        self.edge_id_seq()[k2],
                    ) == s as int);
                }
            }
            assert forall|j: int|
                0 <= j < r@.len() implies (#[trigger] r@[j]).1 == self.edge_id_seq().filter(
                |id: u64| self.edge_size(id) == r@[j].0,
            ).len() && r@[j].1 > 0 by {
                assert(self.eids@.subrange(0, self.eids@.len() as int) =~= self.eids@);
            }
        }
        r
    }
}

/// Whether the distribution list holds an entry for size `s`.
pub open spec fn dist_has_key(r: Seq<(usize, usize)>, s: usize) -> bool {
    exists|j: int| 0 <= j < r.len() && (#[trigger] r[j]).0 == s
}

} // verus!
