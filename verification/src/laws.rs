//! Laws of the store: properties that relate several operations, proved
//! once and for all over the operations' contracts.

use vstd::prelude::*;

use crate::fingerprint::edge_id_of;
use crate::store::{add_edge_post, coerce_weight, remove_edge_post, Hypergraph};

verus! {

/// Adding a hyperedge makes a membership check for its node sequence
/// succeed; removing it makes the check fail.
pub proof fn law_add_then_check(
    pre: Hypergraph,
    post: Hypergraph,
    nodes: Seq<i64>,
    weight: u64,
    r: bool,
)
    requires
        add_edge_post(pre, post, nodes, weight, r),
    ensures
        post.has_edge(nodes),
{
    let id = edge_id_of(nodes);
    if !pre.has_edge_id(id) {
        pre.edge_id_seq().lemma_push_to_set_commute(id);
    }
}

/// Removing a hyperedge makes a membership check for its node sequence
/// fail.
pub proof fn law_remove_then_check(pre: Hypergraph, post: Hypergraph, nodes: Seq<i64>, r: bool)
    requires
        remove_edge_post(pre, post, nodes, r),
    ensures
        !post.has_edge(nodes),
{
}

/// Adding the same node sequence twice leaves the number of hyperedges
/// unchanged after the second call, and the stored weight is the second
/// call's (coerced) argument.
pub proof fn law_add_edge_idempotent(
    h0: Hypergraph,
    h1: Hypergraph,
    h2: Hypergraph,
    nodes: Seq<i64>,
    w1: u64,
    w2: u64,
    r1: bool,
    r2: bool,
)
    requires
        add_edge_post(h0, h1, nodes, w1, r1),
        add_edge_post(h1, h2, nodes, w2, r2),
    ensures
        !r2,
        h2.edge_ids().len() == h1.edge_ids().len(),
        h2.edge_nodes(edge_id_of(nodes)) == h1.edge_nodes(edge_id_of(nodes)),
        h2.edge_weight(edge_id_of(nodes)) == coerce_weight(h0.spec_weighted(), w2),
{
    law_add_then_check(h0, h1, nodes, w1, r1);
}

/// The two indexes of a well-formed hypergraph agree: every edge id
/// referenced from a node's incidence entry resolves to a present edge
/// whose node sequence contains that node, and conversely every node of a
/// present edge has an incidence entry referencing the edge's id.  This
/// holds after any sequence of mutations, since every operation preserves
/// well-formedness.
pub proof fn law_indexes_agree(hg: Hypergraph, n: i64, id: u64)
    requires
        hg.wf(),
    ensures
        hg.ids_of(n).contains(id) ==> hg.has_node(n) && hg.has_edge_id(id) && hg.edge_nodes(
            id,
        ).contains(n),
        hg.has_edge_id(id) && hg.edge_nodes(id).contains(n) ==> hg.has_node(n) && hg.ids_of(
            n,
        ).contains(id),
{
    if hg.ids_of(n).contains(id) {
        hg.lemma_incidence_sound(n, id);
    }
    if hg.has_edge_id(id) && hg.edge_nodes(id).contains(n) {
        hg.lemma_incidence_complete(n, id);
    }
}

/// The subhypergraph induced by the full node set reproduces the node and
/// edge sets exactly, each edge with its content and weight.  (No two
/// distinct ids of a well-formed hypergraph hold the same node sequence,
/// by the store invariant.)
pub proof fn law_subhypergraph_roundtrip(hg: Hypergraph, sub: Hypergraph, nodes: Seq<i64>)
    requires
        hg.wf(),
        nodes.to_set() == hg.node_set(),
        sub.node_set() == nodes.to_set(),
        sub.edge_ids() == Set::new(
            |id: u64|
                hg.has_edge_id(id) && hg.edge_nodes(id).to_set().subset_of(nodes.to_set()),
        ),
        forall|id: u64|
            sub.has_edge_id(id) ==> #[trigger] sub.edge_nodes(id) == hg.edge_nodes(id),
        forall|id: u64|
            sub.has_edge_id(id) ==> #[trigger] sub.edge_weight(id) == hg.edge_weight(id),
    ensures
        sub.node_set() == hg.node_set(),
        sub.edge_ids() == hg.edge_ids(),
        forall|id: u64|
            hg.has_edge_id(id) ==> #[trigger] sub.edge_nodes(id) == hg.edge_nodes(id)
                && sub.edge_weight(id) == hg.edge_weight(id),
{
    assert(sub.edge_ids() =~= hg.edge_ids()) by {
        assert forall|id: u64| hg.edge_ids().contains(id) implies sub.edge_ids().contains(id) by {
            assert forall|x: i64|
                hg.edge_nodes(id).to_set().contains(x) implies nodes.to_set().contains(x) by {
                hg.lemma_incidence_complete(x, id);
            }
        }
    }
}

} // verus!
