//! Traversal of the hypergraph: breadth-first and depth-first search over
//! the neighbor relation, with an optional depth bound and an optional
//! edge-arity filter, and the reachability theory their contracts rest on.

use vstd::prelude::*;

use crate::nodeset::NodeSet;
use crate::store::{spec_filter, Hypergraph};

verus! {

/// Two distinct nodes are adjacent under a filter when some selected
/// hyperedge contains both.
pub open spec fn adj(hg: Hypergraph, filt: Option<int>, a: i64, b: i64) -> bool {
    a != b && exists|id: u64|
        #[trigger] hg.edge_selected(id, filt) && hg.edge_nodes(id).contains(a) && hg.edge_nodes(
            id,
        ).contains(b)
}

/// Whether `b` can be reached from `a` in at most `k` adjacency steps.
pub open spec fn reach_upto(hg: Hypergraph, filt: Option<int>, a: i64, b: i64, k: nat) -> bool
    decreases k,
{
    if k == 0 {
        a == b
    } else {
        a == b || exists|c: i64|
            #[trigger] adj(hg, filt, a, c) && reach_upto(hg, filt, c, b, (k - 1) as nat)
    }
}

/// Whether `b` can be reached from `a` in any number of adjacency steps.
pub open spec fn reachable(hg: Hypergraph, filt: Option<int>, a: i64, b: i64) -> bool {
    exists|k: nat| reach_upto(hg, filt, a, b, k)
}

/// The set a search from a present `start` returns: the nodes reachable
/// within the depth bound, or all reachable nodes when it is absent.
pub open spec fn bfs_spec(
    hg: Hypergraph,
    start: i64,
    max_depth: Option<usize>,
    filt: Option<int>,
) -> Set<i64> {
    match max_depth {
        None => Set::new(|b: i64| reachable(hg, filt, start, b)),
        Some(d) => Set::new(|b: i64| reach_upto(hg, filt, start, b, d as nat)),
    }
}

/// Adjacency is symmetric.
pub proof fn lemma_adj_symm(hg: Hypergraph, filt: Option<int>, a: i64, b: i64)
    requires
        adj(hg, filt, a, b),
    ensures
        adj(hg, filt, b, a),
{
}

/// Both ends of an adjacency are nodes of the hypergraph.
pub proof fn lemma_adj_has_node(hg: Hypergraph, filt: Option<int>, a: i64, b: i64)
    requires
        hg.wf(),
        adj(hg, filt, a, b),
    ensures
        hg.has_node(a),
        hg.has_node(b),
{
    let id = choose|id: u64|
        #[trigger] hg.edge_selected(id, filt) && hg.edge_nodes(id).contains(a) && hg.edge_nodes(
            id,
        ).contains(b);
    hg.lemma_incidence_complete(a, id);
    hg.lemma_incidence_complete(b, id);
}

/// A node's neighbor set is exactly its adjacency under the filter.
pub proof fn lemma_neighbors_adj(hg: Hypergraph, filt: Option<int>, n: i64)
    requires
        hg.wf(),
        hg.has_node(n),
    ensures
        hg.spec_neighbors(n, filt) == Set::new(|b: i64| adj(hg, filt, n, b)),
{
    assert forall|b: i64| hg.spec_neighbors(n, filt).contains(b) implies adj(hg, filt, n, b) by {
        let id = choose|id: u64|
            #[trigger] hg.ids_of(n).contains(id) && hg.edge_selected(id, filt) && hg.edge_nodes(
                id,
            ).contains(b);
        hg.lemma_incidence_sound(n, id);
    }
    assert forall|b: i64| adj(hg, filt, n, b) implies hg.spec_neighbors(n, filt).contains(b) by {
        let id = choose|id: u64|
            #[trigger] hg.edge_selected(id, filt) && hg.edge_nodes(id).contains(n) && hg.edge_nodes(
                id,
            ).contains(b);
        hg.lemma_incidence_complete(n, id);
    }
    assert(hg.spec_neighbors(n, filt) =~= Set::new(|b: i64| adj(hg, filt, n, b)));
}

/// Reachability within `k` steps implies reachability within any larger
/// bound.
pub proof fn lemma_reach_mono(hg: Hypergraph, filt: Option<int>, a: i64, b: i64, k: nat, k2: nat)
    requires
        reach_upto(hg, filt, a, b, k),
        k <= k2,
    ensures
        reach_upto(hg, filt, a, b, k2),
    decreases k,
{
    if k == 0 {
    } else if a == b {
    } else {
        let c = choose|c: i64|
            #[trigger] adj(hg, filt, a, c) && reach_upto(hg, filt, c, b, (k - 1) as nat);
        lemma_reach_mono(hg, filt, c, b, (k - 1) as nat, (k2 - 1) as nat);
    }
}

/// A path may be extended by one adjacency step at its end.
pub proof fn lemma_reach_snoc(hg: Hypergraph, filt: Option<int>, a: i64, c: i64, b: i64, k: nat)
    requires
        reach_upto(hg, filt, a, c, k),
        adj(hg, filt, c, b),
    ensures
        reach_upto(hg, filt, a, b, k + 1),
    decreases k,
{
    if a == c {
        assert(reach_upto(hg, filt, b, b, k as nat));
    } else {
        let d = choose|d: i64|
            #[trigger] adj(hg, filt, a, d) && reach_upto(hg, filt, d, c, (k - 1) as nat);
        lemma_reach_snoc(hg, filt, d, c, b, (k - 1) as nat);
    }
}

/// A path of length `k + 1` is a path of length `k`, or a path of length
/// `k` followed by one adjacency step.
pub proof fn lemma_reach_last_step(hg: Hypergraph, filt: Option<int>, a: i64, b: i64, k: nat)
    requires
        reach_upto(hg, filt, a, b, k + 1),
    ensures
        reach_upto(hg, filt, a, b, k) || exists|c: i64|
            #[trigger] reach_upto(hg, filt, a, c, k) && adj(hg, filt, c, b),
    decreases k,
{
    if a == b {
    } else {
        let c = choose|c: i64| #[trigger] adj(hg, filt, a, c) && reach_upto(hg, filt, c, b, k);
        if k == 0 {
            assert(c == b);
            assert(reach_upto(hg, filt, a, a, 0) && adj(hg, filt, a, b));
        } else {
            lemma_reach_last_step(hg, filt, c, b, (k - 1) as nat);
            if reach_upto(hg, filt, c, b, (k - 1) as nat) {
                assert(reach_upto(hg, filt, a, b, k));
            } else {
                let d = choose|d: i64|
                    #[trigger] reach_upto(hg, filt, c, d, (k - 1) as nat) && adj(hg, filt, d, b);
                assert(reach_upto(hg, filt, a, d, k));
            }
        }
    }
}

/// Every node reachable from a member of an adjacency-closed set is a
/// member as well.
pub proof fn lemma_closed_covers(
    hg: Hypergraph,
    filt: Option<int>,
    vs: Set<i64>,
    a: i64,
    b: i64,
    k: nat,
)
    requires
        vs.contains(a),
        forall|v: i64, w: i64| vs.contains(v) && #[trigger] adj(hg, filt, v, w) ==> vs.contains(w),
        reach_upto(hg, filt, a, b, k),
    ensures
        vs.contains(b),
    decreases k,
{
    if k == 0 {
    } else if a == b {
    } else {
        let c = choose|c: i64|
            #[trigger] adj(hg, filt, a, c) && reach_upto(hg, filt, c, b, (k - 1) as nat);
        lemma_closed_covers(hg, filt, vs, c, b, (k - 1) as nat);
    }
}

/// Paths concatenate.
pub proof fn lemma_reach_trans(
    hg: Hypergraph,
    filt: Option<int>,
    a: i64,
    b: i64,
    c: i64,
    j: nat,
    k: nat,
)
    requires
        reach_upto(hg, filt, a, b, j),
        reach_upto(hg, filt, b, c, k),
    ensures
        reach_upto(hg, filt, a, c, j + k),
    decreases j,
{
    if a == b {
        lemma_reach_mono(hg, filt, b, c, k, j + k);
    } else {
        let d = choose|d: i64|
            #[trigger] adj(hg, filt, a, d) && reach_upto(hg, filt, d, b, (j - 1) as nat);
        lemma_reach_trans(hg, filt, d, b, c, (j - 1) as nat, k);
    }
}

/// Paths reverse.
pub proof fn lemma_reach_symm(hg: Hypergraph, filt: Option<int>, a: i64, b: i64, k: nat)
    requires
        reach_upto(hg, filt, a, b, k),
    ensures
        reach_upto(hg, filt, b, a, k),
    decreases k,
{
    if k == 0 {
    } else if a == b {
    } else {
        let c = choose|c: i64|
            #[trigger] adj(hg, filt, a, c) && reach_upto(hg, filt, c, b, (k - 1) as nat);
        lemma_reach_symm(hg, filt, c, b, (k - 1) as nat);
        lemma_adj_symm(hg, filt, a, c);
        lemma_reach_snoc(hg, filt, b, c, a, (k - 1) as nat);
    }
}

/// Every node reachable from a node of the hypergraph is a node of the
/// hypergraph.
pub proof fn lemma_reach_in_nodes(hg: Hypergraph, filt: Option<int>, a: i64, b: i64, k: nat)
    requires
        hg.wf(),
        hg.has_node(a),
        reach_upto(hg, filt, a, b, k),
    ensures
        hg.has_node(b),
    decreases k,
{
    if k == 0 {
    } else if a == b {
    } else {
        let c = choose|c: i64|
            #[trigger] adj(hg, filt, a, c) && reach_upto(hg, filt, c, b, (k - 1) as nat);
        lemma_adj_has_node(hg, filt, a, c);
        lemma_reach_in_nodes(hg, filt, c, b, (k - 1) as nat);
    }
}

/// Mutual reachability: two nodes reach each other exactly when either
/// reaches the other.
pub proof fn lemma_reachable_symm(hg: Hypergraph, filt: Option<int>, a: i64, b: i64)
    requires
        reachable(hg, filt, a, b),
    ensures
        reachable(hg, filt, b, a),
{
    let k = choose|k: nat| reach_upto(hg, filt, a, b, k);
    lemma_reach_symm(hg, filt, a, b, k);
}

/// Reachability is transitive.
pub proof fn lemma_reachable_trans(hg: Hypergraph, filt: Option<int>, a: i64, b: i64, c: i64)
    requires
        reachable(hg, filt, a, b),
        reachable(hg, filt, b, c),
    ensures
        reachable(hg, filt, a, c),
{
    let j = choose|j: nat| reach_upto(hg, filt, a, b, j);
    let k = choose|k: nat| reach_upto(hg, filt, b, c, k);
    lemma_reach_trans(hg, filt, a, b, c, j, k);
}

/// Two nodes that reach a common node reach each other; hence the
/// reachable sets of mutually reachable nodes coincide.
pub proof fn lemma_reachable_same_class(hg: Hypergraph, filt: Option<int>, a: i64, b: i64)
    requires
        reachable(hg, filt, a, b),
    ensures
        Set::new(|c: i64| reachable(hg, filt, a, c)) == Set::new(
            |c: i64| reachable(hg, filt, b, c),
        ),
{
    lemma_reachable_symm(hg, filt, a, b);
    assert forall|c: i64| #[trigger]
        reachable(hg, filt, a, c) implies reachable(hg, filt, b, c) by {
        lemma_reachable_trans(hg, filt, b, a, c);
    }
    assert forall|c: i64| #[trigger]
        reachable(hg, filt, b, c) implies reachable(hg, filt, a, c) by {
        lemma_reachable_trans(hg, filt, a, b, c);
    }
    assert(Set::new(|c: i64| reachable(hg, filt, a, c)) =~= Set::new(
        |c: i64| reachable(hg, filt, b, c),
    ));
}

/// Whether a level search goes on: the frontier is nonempty and the
/// depth bound, if any, is not yet reached.
fn bfs_continues(frontier_len: usize, depth: usize, max_depth: Option<usize>) -> (r: bool)
    ensures
        r == (frontier_len > 0 && (match max_depth {
            Some(m) => depth < m,
            None => true,
        })),
{
    frontier_len > 0 && (match max_depth {
        Some(m) => depth < m,
        None => true,
    })
}

/// Breadth-first search from `start`: level-order expansion of the
/// filtered neighbor relation, marking nodes when they are first seen.
/// Returns the visited set: the nodes reachable from `start` within
/// `max_depth` steps (all reachable nodes when no bound is given), or the
/// empty set when `start` is not in the hypergraph.  Supplying both
/// `order` and `size` selects no edge, so only `start` is visited.
#[verifier::rlimit(100)]
pub fn _bfs(
    hg: &Hypergraph,
    start: i64,
    max_depth: Option<usize>,
    order: Option<usize>,
    size: Option<usize>,
) -> (r: NodeSet)
    requires
        hg.wf(),
        order matches Some(o) ==> o < usize::MAX,
    ensures
        r.wf(),
        !hg.has_node(start) ==> r@ == Set::<i64>::empty(),
        hg.has_node(start) && (order is Some && size is Some) ==> r@ == Set::<i64>::empty().insert(
            start,
        ),
        hg.has_node(start) && !(order is Some && size is Some) ==> r@ == bfs_spec(
            *hg,
            start,
            max_depth,
            spec_filter(order, size),
        ),
{
    let mut visited = NodeSet::new();
    if !hg.check_node(start) {
        proof {
            assert(visited@ =~= Set::<i64>::empty());
        }
        return visited;
    }
    visited.insert(start);
    if order.is_some() && size.is_some() {
        proof {
            assert(visited@ =~= Set::<i64>::empty().insert(start));
        }
        return visited;
    }
    let ghost fi = spec_filter(order, size);
    let mut frontier: Vec<i64> = Vec::new();
    frontier.push(start);
    let mut depth: usize = 0;
    let ghost mut gdepth: nat = 0;
    proof {
        hg.lemma_model_finite();
        assert(visited@ =~= Set::new(|b: i64| reach_upto(*hg, fi, start, b, 0)));
        vstd::set_lib::lemma_len_subset(visited@, hg.node_set());
        assert(frontier@.to_set() =~= Set::<i64>::empty().insert(start)) by {
            Seq::<i64>::empty().lemma_push_to_set_commute(start);
        }
    }
    while bfs_continues(frontier.len(), depth, max_depth)
        invariant
            hg.wf(),
            visited.wf(),
            hg.has_node(start),
            fi == spec_filter(order, size),
            !(order is Some && size is Some),
            order matches Some(o) ==> o < usize::MAX,
            visited@.contains(start),
            visited@.subset_of(hg.node_set()),
            frontier@.to_set().subset_of(visited@),
            visited@ == Set::new(|b: i64| reach_upto(*hg, fi, start, b, gdepth)),
            forall|v: i64, w: i64|
                visited@.contains(v) && !frontier@.to_set().contains(v) && #[trigger] adj(
                    *hg,
                    fi,
                    v,
                    w,
                ) ==> visited@.contains(w),
            match max_depth {
                Some(m) => gdepth == depth as nat && depth <= m,
                None => true,
            },
        decreases 2 * (hg.node_set().len() - visited@.len()) + frontier@.len(),
    {
        let ghost v0 = visited@;
        let ghost fseq = frontier@;
        let mut next: Vec<i64> = Vec::new();
        let mut t: usize = 0;
        proof {
            assert(visited@ =~= Set::new(
                |w: i64|
                    v0.contains(w) || exists|j: int| 0 <= j < 0 && #[trigger] adj(
                        *hg,
                        fi,
                        fseq[j],
                        w,
                    ),
            ));
            assert(next@.to_set() =~= visited@.difference(v0));
        }
        while t < frontier.len()
            invariant
                hg.wf(),
                visited.wf(),
                fi == spec_filter(order, size),
                !(order is Some && size is Some),
                order matches Some(o) ==> o < usize::MAX,
                fseq == frontier@,
                t <= fseq.len(),
                fseq.to_set().subset_of(v0),
                v0.subset_of(hg.node_set()),
                v0.subset_of(visited@),
                visited@.subset_of(hg.node_set()),
                visited@ == Set::new(
                    |w: i64|
                        v0.contains(w) || exists|j: int|
                            0 <= j < t && #[trigger] adj(*hg, fi, fseq[j], w),
                ),
                next@.to_set() == visited@.difference(v0),
                next@.no_duplicates(),
            decreases fseq.len() - t,
        {
            let now = frontier[t];
            proof {
                assert(fseq.to_set().contains(now)) by {
                    assert(fseq[t as int] == now);
                }
                assert(hg.has_node(now));
            }
            match hg.get_neighbors(now, order, size) {
                Ok(Some(nbrs)) => {
                    proof {
                        lemma_neighbors_adj(*hg, fi, now);
                    }
                    let mut p: usize = 0;
                    while p < nbrs.len()
                        invariant
                            hg.wf(),
                            visited.wf(),
                            fi == spec_filter(order, size),
                            fseq == frontier@,
                            t < fseq.len(),
                            fseq[t as int] == now,
                            fseq.to_set().subset_of(v0),
                            v0.subset_of(hg.node_set()),
                            v0.subset_of(visited@),
                            visited@.subset_of(hg.node_set()),
                            p <= nbrs@.len(),
                            nbrs@.to_set() == hg.spec_neighbors(now, fi),
                            hg.spec_neighbors(now, fi) == Set::new(
                                |b: i64| adj(*hg, fi, now, b),
                            ),
                            visited@ == Set::new(
                                |w: i64|
                                    (v0.contains(w) || exists|j: int|
                                        0 <= j < t && #[trigger] adj(*hg, fi, fseq[j], w))
                                        || nbrs@.subrange(0, p as int).contains(w),
                            ),
                            next@.to_set() == visited@.difference(v0),
                            next@.no_duplicates(),
                        decreases nbrs@.len() - p,
                    {
                        let w = nbrs[p];
                        let ghost vis0 = visited@;
                        let ghost next0 = next@;
                        if !visited.contains(w) {
                            visited.insert(w);
                            proof {
                                assert(!next0.to_set().contains(w));
                                assert(!next0.contains(w));
                                crate::util::lemma_push_nodup(next0, w);
                            }
                            next.push(w);
                            proof {
                                next0.lemma_push_to_set_commute(w);
                                assert(next@.to_set() =~= visited@.difference(v0)) by {
                                    assert(!v0.contains(w)) by {
                                        assert(v0.subset_of(vis0));
                                    }
                                }
                                assert(visited@.subset_of(hg.node_set())) by {
                                    assert(nbrs@.to_set().contains(w)) by {
                                        assert(nbrs@[p as int] == w);
                                    }
                                    assert(adj(*hg, fi, now, w));
                                    lemma_adj_has_node(*hg, fi, now, w);
                                }
                            }
                        }
                        proof {
                            assert(nbrs@.subrange(0, p + 1 as int) =~= nbrs@.subrange(
                                0,
                                p as int,
                            ).push(nbrs@[p as int]));
                            nbrs@.subrange(0, p as int).lemma_push_to_set_commute(
                                nbrs@[p as int],
                            );
                            assert(visited@ =~= Set::new(
                                |w2: i64|
                                    (v0.contains(w2) || exists|j: int|
                                        0 <= j < t && #[trigger] adj(*hg, fi, fseq[j], w2))
                                        || nbrs@.subrange(0, p + 1 as int).contains(w2),
                            )) by {
                                assert(nbrs@.subrange(0, p + 1 as int).to_set()
                                    =~= nbrs@.subrange(0, p as int).to_set().insert(
                                    nbrs@[p as int],
                                ));
                                assert(nbrs@.subrange(0, p + 1 as int).contains(
                                    nbrs@[p as int],
                                )) by {
                                    assert(nbrs@.subrange(0, p + 1 as int)[p as int]
                                        == nbrs@[p as int]);
                                }
                                assert(visited@.contains(nbrs@[p as int]));
                                assert forall|w2: i64|
                                    nbrs@.subrange(0, p + 1 as int).contains(
                                        w2,
                                    ) implies visited@.contains(w2) by {
                                    if nbrs@.subrange(0, p as int).contains(w2) {
                                        assert(vis0.contains(w2));
                                    } else {
                                        assert(w2 == nbrs@[p as int]);
                                    }
                                }
                            }
                            assert(next@.to_set() =~= visited@.difference(v0));
                        }
                        p += 1;
                    }
                    proof {
                        assert(nbrs@.subrange(0, nbrs@.len() as int) =~= nbrs@);
                        assert(visited@ =~= Set::new(
                            |w: i64|
                                v0.contains(w) || exists|j: int|
                                    0 <= j < t + 1 && #[trigger] adj(*hg, fi, fseq[j], w),
                        )) by {
                            assert forall|w: i64| visited@.contains(w) implies (v0.contains(w)
                                || exists|j: int|
                                0 <= j < t + 1 && #[trigger] adj(*hg, fi, fseq[j], w)) by {
                                if !v0.contains(w) {
                                    if nbrs@.contains(w) {
                                        assert(nbrs@.to_set().contains(w));
                                        assert(adj(*hg, fi, now, w));
                                        assert(0 <= t < t + 1 && adj(*hg, fi, fseq[t as int], w));
                                    } else {
                                        let j = choose|j: int|
                                            0 <= j < t && #[trigger] adj(*hg, fi, fseq[j], w);
                                        assert(0 <= j < t + 1 && adj(*hg, fi, fseq[j], w));
                                    }
                                }
                            }
                            assert forall|w: i64|
                                (exists|j: int|
                                    0 <= j < t + 1 && #[trigger] adj(
                                        *hg,
                                        fi,
                                        fseq[j],
                                        w,
                                    )) implies visited@.contains(w) by {
                                let j = choose|j: int|
                                    0 <= j < t + 1 && #[trigger] adj(*hg, fi, fseq[j], w);
                                if j < t {
                                } else {
                                    assert(adj(*hg, fi, now, w));
                                    assert(hg.spec_neighbors(now, fi).contains(w));
                                    assert(nbrs@.to_set().contains(w));
                                    assert(nbrs@.subrange(0, nbrs@.len() as int).contains(w));
                                }
                            }
                        }
                    }
                },
                _ => {
                    proof {
                        assert(false);
                    }
                },
            }
            t += 1;
        }
        proof {
            // the next level is exactly the nodes reachable in one more step
            let vnew = visited@;
            assert(vnew =~= Set::new(|b: i64| reach_upto(*hg, fi, start, b, gdepth + 1))) by {
                assert forall|b: i64| vnew.contains(b) implies reach_upto(
                    *hg,
                    fi,
                    start,
                    b,
                    gdepth + 1,
                ) by {
                    if v0.contains(b) {
                        lemma_reach_mono(*hg, fi, start, b, gdepth, gdepth + 1);
                    } else {
                        let j = choose|j: int|
                            0 <= j < fseq.len() && #[trigger] adj(*hg, fi, fseq[j], b);
                        assert(v0.contains(fseq[j])) by {
                            assert(fseq.to_set().contains(fseq[j]));
                        }
                        assert(reach_upto(*hg, fi, start, fseq[j], gdepth));
                        lemma_reach_snoc(*hg, fi, start, fseq[j], b, gdepth);
                    }
                }
                assert forall|b: i64|
                    reach_upto(*hg, fi, start, b, gdepth + 1) implies vnew.contains(b) by {
                    lemma_reach_last_step(*hg, fi, start, b, gdepth);
                    if reach_upto(*hg, fi, start, b, gdepth) {
                        assert(v0.contains(b));
                    } else {
                        let c = choose|c: i64|
                            #[trigger] reach_upto(*hg, fi, start, c, gdepth) && adj(
                                *hg,
                                fi,
                                c,
                                b,
                            );
                        assert(v0.contains(c));
                        if fseq.to_set().contains(c) {
                            let j = choose|j: int| 0 <= j < fseq.len() && fseq[j] == c;
                            assert(0 <= j < fseq.len() && adj(*hg, fi, fseq[j], b));
                        } else {
                            assert(v0.contains(b));
                        }
                    }
                }
            }
            // the new frontier holds every node whose neighbors are not
            // all visited
            assert forall|v: i64, w: i64|
                vnew.contains(v) && !next@.to_set().contains(v) && #[trigger] adj(
                    *hg,
                    fi,
                    v,
                    w,
                ) implies vnew.contains(w) by {
                assert(v0.contains(v));
                if fseq.to_set().contains(v) {
                    let j = choose|j: int| 0 <= j < fseq.len() && fseq[j] == v;
                    assert(0 <= j < fseq.len() && adj(*hg, fi, fseq[j], w));
                } else {
                }
            }
            // the search space shrinks
            hg.lemma_model_finite();
            vstd::set_lib::lemma_len_subset(vnew, hg.node_set());
            vstd::set_lib::lemma_len_subset(v0, hg.node_set());
            next@.unique_seq_to_set();
            assert(vnew =~= v0 + next@.to_set());
            assert(v0.disjoint(next@.to_set()));
            vstd::set_lib::lemma_set_disjoint_lens(v0, next@.to_set());
            assert(vnew.len() == v0.len() + next@.len());
            gdepth = gdepth + 1;
        }
        frontier = next;
        depth = match max_depth {
            Some(_) => depth + 1,
            None => depth,
        };
    }
    proof {
        let target = bfs_spec(*hg, start, max_depth, fi);
        if frontier@.len() == 0 {
            assert(frontier@.to_set() =~= Set::<i64>::empty());
            assert(visited@ =~= target) by {
                match max_depth {
                    None => {
                        assert forall|b: i64| visited@.contains(b) implies reachable(
                            *hg,
                            fi,
                            start,
                            b,
                        ) by {
                            assert(reach_upto(*hg, fi, start, b, gdepth));
                        }
                        assert forall|b: i64|
                            reachable(*hg, fi, start, b) implies visited@.contains(b) by {
                            let k = choose|k: nat| reach_upto(*hg, fi, start, b, k);
                            lemma_closed_covers(*hg, fi, visited@, start, b, k);
                        }
                    },
                    Some(m) => {
                        assert forall|b: i64| visited@.contains(b) implies reach_upto(
                            *hg,
                            fi,
                            start,
                            b,
                            m as nat,
                        ) by {
                            lemma_reach_mono(*hg, fi, start, b, gdepth, m as nat);
                        }
                        assert forall|b: i64|
                            reach_upto(*hg, fi, start, b, m as nat) implies visited@.contains(
                            b,
                        ) by {
                            lemma_closed_covers(*hg, fi, visited@, start, b, m as nat);
                        }
                    },
                }
            }
        } else {
            assert(match max_depth {
                Some(m) => depth == m,
                None => false,
            });
            assert(visited@ =~= target);
        }
    }
    visited
}

/// A witness that a depth-bounded, first-seen-wins search from `start`
/// visited exactly `vs`: an assignment of a visit depth to each visited
/// node such that `start` has depth 0, every other visited node was
/// entered from a visited neighbor one level up, no depth exceeds the
/// bound, and every node visited strictly below the bound has all of its
/// neighbors visited.
pub open spec fn dfs_depths(
    hg: Hypergraph,
    filt: Option<int>,
    start: i64,
    max: nat,
    vs: Set<i64>,
    dp: Map<i64, nat>,
) -> bool {
    &&& dp.dom() == vs
    &&& vs.contains(start)
    &&& dp[start] == 0
    &&& forall|v: i64| #[trigger] vs.contains(v) ==> dp[v] <= max
    &&& forall|v: i64|
        #[trigger] vs.contains(v) && v != start ==> exists|u: i64|
            #[trigger] adj(hg, filt, u, v) && vs.contains(u) && dp[u] + 1 == dp[v]
    &&& forall|v: i64, w: i64|
        vs.contains(v) && dp[v] < max && #[trigger] adj(hg, filt, v, w) ==> vs.contains(w)
}

/// Depth-first search from `start`: pre-order expansion of the filtered
/// neighbor relation, guarding against revisits, with the same depth and
/// filter semantics as [`_bfs`].  Returns the visited set.  Without a
/// depth bound this is exactly the reachable set; with a bound it is a
/// subset of the nodes reachable within the bound, characterized by
/// [`dfs_depths`]: each node keeps its first-seen depth, and only nodes
/// seen strictly below the bound are expanded (which nodes are reached
/// then depends on exploration order).
pub fn _dfs(
    hg: &Hypergraph,
    start: i64,
    max_depth: Option<usize>,
    order: Option<usize>,
    size: Option<usize>,
) -> (r: NodeSet)
    requires
        hg.wf(),
        order matches Some(o) ==> o < usize::MAX,
    ensures
        r.wf(),
        !hg.has_node(start) ==> r@ == Set::<i64>::empty(),
        hg.has_node(start) && (order is Some && size is Some) ==> r@ == Set::<i64>::empty().insert(
            start,
        ),
        hg.has_node(start) && !(order is Some && size is Some) ==> {
            &&& r@.contains(start)
            &&& r@.subset_of(bfs_spec(*hg, start, max_depth, spec_filter(order, size)))
            &&& (match max_depth {
                Some(m) => exists|dp: Map<i64, nat>|
                    #[trigger] dfs_depths(
                        *hg,
                        spec_filter(order, size),
                        start,
                        m as nat,
                        r@,
                        dp,
                    ),
                None => true,
            })
            &&& (max_depth is None ==> r@ == bfs_spec(
                *hg,
                start,
                None,
                spec_filter(order, size),
            ))
        },
{
    let mut visited = NodeSet::new();
    if !hg.check_node(start) {
        proof {
            assert(visited@ =~= Set::<i64>::empty());
        }
        return visited;
    }
    let ghost fi = spec_filter(order, size);
    proof {
        hg.lemma_model_finite();
        assert(Map::<i64, nat>::empty().dom() =~= visited@);
    }
    let gm = compute_dfs(
        hg,
        start,
        max_depth,
        0,
        order,
        size,
        &mut visited,
        Ghost(Map::empty()),
    );
    proof {
        if order is Some && size is Some {
            assert(visited@ =~= Set::<i64>::empty().insert(start));
        } else {
            assert forall|b: i64| visited@.contains(b) implies bfs_spec(
                *hg,
                start,
                max_depth,
                fi,
            ).contains(b) by {
                match max_depth {
                    Some(m) => {
                        assert(reach_upto(*hg, fi, start, b, (m - 0) as nat));
                    },
                    None => {
                        assert(reachable(*hg, fi, start, b));
                    },
                }
            }
            match max_depth {
                Some(m) => {
                    assert(dfs_depths(*hg, fi, start, m as nat, visited@, gm@)) by {
                        assert(gm@.dom() =~= visited@);
                        assert(gm@[start] == 0);
                        assert forall|v: i64| #[trigger] visited@.contains(v) implies gm@[v]
                            <= m as nat by {
                            assert(gm@.dom().contains(v));
                        }
                        assert forall|v: i64|
                            #[trigger] visited@.contains(v) && v != start implies exists|u: i64|
                            #[trigger] adj(*hg, fi, u, v) && visited@.contains(u) && gm@[u] + 1
                                == gm@[v] by {
                            assert(gm@.dom().contains(v));
                            let u = choose|u: i64|
                                #[trigger] adj(*hg, fi, u, v) && gm@.dom().contains(u) && gm@[u]
                                    + 1 == gm@[v];
                            assert(adj(*hg, fi, u, v) && visited@.contains(u) && gm@[u] + 1
                                == gm@[v]);
                        }
                        assert forall|v: i64, w: i64|
                            visited@.contains(v) && gm@[v] < m as nat && #[trigger] adj(
                                *hg,
                                fi,
                                v,
                                w,
                            ) implies visited@.contains(w) by {
                            assert(gm@.dom().contains(v));
                            assert(gm@.dom().contains(w));
                        }
                    }
                    assert(exists|dp: Map<i64, nat>|
                        #[trigger] dfs_depths(*hg, fi, start, m as nat, visited@, dp));
                },
                None => {
                    assert(visited@ =~= bfs_spec(*hg, start, None, fi)) by {
                        assert forall|b: i64|
                            reachable(*hg, fi, start, b) implies visited@.contains(b) by {
                            let k = choose|k: nat| reach_upto(*hg, fi, start, b, k);
                            lemma_closed_covers(*hg, fi, visited@, start, b, k);
                        }
                    }
                },
            }
        }
    }
    visited
}

/// The recursive worker of [`_dfs`]: visits `node` and, while the depth
/// bound allows, recurses into each of its filtered neighbors.  Under a
/// depth bound it extends the ghost depth assignment `dm` over the newly
/// visited nodes, witnessing the [`dfs_depths`] characterization.
fn compute_dfs(
    hg: &Hypergraph,
    node: i64,
    max_depth: Option<usize>,
    depth: usize,
    order: Option<usize>,
    size: Option<usize>,
    visited: &mut NodeSet,
    dm: Ghost<Map<i64, nat>>,
) -> (gm: Ghost<Map<i64, nat>>)
    requires
        hg.wf(),
        old(visited).wf(),
        old(visited)@.subset_of(hg.node_set()),
        hg.has_node(node),
        order matches Some(o) ==> o < usize::MAX,
        max_depth matches Some(m) ==> depth <= m,
        max_depth matches Some(m) ==> dm@.dom() == old(visited)@,
    ensures
        final(visited).wf(),
        old(visited)@.subset_of(final(visited)@),
        final(visited)@.contains(node),
        final(visited)@.subset_of(hg.node_set()),
        forall|b: i64|
            #[trigger] final(visited)@.contains(b) && !old(visited)@.contains(b) ==> match max_depth {
                Some(m) => reach_upto(*hg, spec_filter(order, size), node, b, (m - depth) as nat),
                None => reachable(*hg, spec_filter(order, size), node, b),
            },
        (order is Some && size is Some) ==> final(visited)@ == old(visited)@.insert(node),
        (max_depth is None && !(order is Some && size is Some)) ==> forall|v: i64, w: i64|
            final(visited)@.contains(v) && !old(visited)@.contains(v) && #[trigger] adj(
                *hg,
                spec_filter(order, size),
                v,
                w,
            ) ==> final(visited)@.contains(w),
        max_depth matches Some(m) ==> {
            &&& gm@.dom() == final(visited)@
            &&& forall|v: i64|
                #[trigger] dm@.dom().contains(v) ==> gm@.dom().contains(v) && gm@[v] == dm@[v]
            &&& (!old(visited)@.contains(node) ==> gm@[node] == depth as nat)
            &&& forall|v: i64|
                #[trigger] gm@.dom().contains(v) && !dm@.dom().contains(v) ==> gm@[v] <= m as nat
            &&& forall|v: i64|
                #[trigger] gm@.dom().contains(v) && !dm@.dom().contains(v) && v != node
                    ==> exists|u: i64|
                    #[trigger] adj(*hg, spec_filter(order, size), u, v) && gm@.dom().contains(u)
                        && gm@[u] + 1 == gm@[v]
            &&& !(order is Some && size is Some) ==> forall|v: i64, w: i64|
                gm@.dom().contains(v) && !dm@.dom().contains(v) && gm@[v] < m as nat
                    && #[trigger] adj(*hg, spec_filter(order, size), v, w) ==> gm@.dom().contains(
                    w,
                )
        },
    decreases hg.node_set().len() - old(visited)@.len(),
{
    let ghost fi = spec_filter(order, size);
    let ghost entry0 = visited@;
    let ghost mut gmv: Map<i64, nat> = dm@;
    if visited.contains(node) {
        proof {
            assert(visited@ =~= entry0);
            if order is Some && size is Some {
                assert(visited@ =~= entry0.insert(node));
            }
        }
        return Ghost(gmv);
    }
    visited.insert(node);
    proof {
        hg.lemma_model_finite();
        vstd::set_lib::lemma_len_subset(entry0, hg.node_set());
        assert(visited@ =~= entry0.insert(node));
        assert(reach_upto(*hg, fi, node, node, 0));
        match max_depth {
            Some(m) => {
                lemma_reach_mono(*hg, fi, node, node, 0, (m - depth) as nat);
                gmv = gmv.insert(node, depth as nat);
                assert(gmv.dom() =~= visited@);
            },
            None => {
                assert(reachable(*hg, fi, node, node));
            },
        }
    }
    let expand = match max_depth {
        Some(m) => depth < m,
        None => true,
    };
    if expand {
        match hg.get_neighbors(node, order, size) {
            Ok(Some(nbrs)) => {
                proof {
                    lemma_neighbors_adj(*hg, fi, node);
                }
                let mut p: usize = 0;
                while p < nbrs.len()
                    invariant
                        hg.wf(),
                        visited.wf(),
                        fi == spec_filter(order, size),
                        !(order is Some && size is Some),
                        order matches Some(o) ==> o < usize::MAX,
                        max_depth matches Some(m) ==> depth < m,
                        hg.has_node(node),
                        p <= nbrs@.len(),
                        nbrs@.to_set() == hg.spec_neighbors(node, fi),
                        hg.spec_neighbors(node, fi) == Set::new(|b: i64| adj(*hg, fi, node, b)),
                        visited@.contains(node),
                        entry0 == old(visited)@,
                        entry0.subset_of(visited@),
                        !entry0.contains(node),
                        visited@.subset_of(hg.node_set()),
                        forall|b: i64|
                            #[trigger] visited@.contains(b) && !entry0.contains(b)
                                ==> match max_depth {
                                Some(m) => reach_upto(*hg, fi, node, b, (m - depth) as nat),
                                None => reachable(*hg, fi, node, b),
                            },
                        forall|p2: int| 0 <= p2 < p ==> visited@.contains(#[trigger] nbrs@[p2]),
                        max_depth is None ==> forall|v: i64, w: i64|
                            visited@.contains(v) && !entry0.contains(v) && v != node
                                && #[trigger] adj(*hg, fi, v, w) ==> visited@.contains(w),
                        max_depth matches Some(m) ==> dm@.dom() == entry0,
                        max_depth matches Some(m) ==> gmv.dom() == visited@,
                        max_depth matches Some(m) ==> forall|v: i64|
                            #[trigger] dm@.dom().contains(v) ==> gmv.dom().contains(v) && gmv[v]
                                == dm@[v],
                        max_depth matches Some(m) ==> gmv[node] == depth as nat,
                        max_depth matches Some(m) ==> forall|v: i64|
                            #[trigger] visited@.contains(v) && !entry0.contains(v) ==> gmv[v]
                                <= m as nat,
                        max_depth matches Some(m) ==> forall|v: i64|
                            #[trigger] visited@.contains(v) && !entry0.contains(v) && v != node
                                ==> exists|u: i64|
                                #[trigger] adj(*hg, fi, u, v) && gmv.dom().contains(u) && gmv[u]
                                    + 1 == gmv[v],
                        max_depth matches Some(m) ==> forall|v: i64, w: i64|
                            visited@.contains(v) && !entry0.contains(v) && v != node && gmv[v]
                                < m as nat && #[trigger] adj(*hg, fi, v, w) ==> visited@.contains(
                                w,
                            ),
                    decreases nbrs@.len() - p,
                {
                    let w = nbrs[p];
                    proof {
                        assert(nbrs@.to_set().contains(w)) by {
                            assert(nbrs@[p as int] == w);
                        }
                        assert(adj(*hg, fi, node, w));
                        lemma_adj_has_node(*hg, fi, node, w);
                        assert(!entry0.contains(node));
                        hg.lemma_model_finite();
                        vstd::set_lib::lemma_len_subset(visited@, hg.node_set());
                        assert(entry0.subset_of(visited@.remove(node)));
                        vstd::set_lib::lemma_len_subset(entry0, visited@.remove(node));
                        assert(visited@.remove(node).len() == visited@.len() - 1);
                    }
                    let next_depth = match max_depth {
                        Some(_) => depth + 1,
                        None => depth,
                    };
                    let ghost before = visited@;
                    let ghost gprev = gmv;
                    let gw = compute_dfs(
                        hg,
                        w,
                        max_depth,
                        next_depth,
                        order,
                        size,
                        visited,
                        Ghost(gmv),
                    );
                    proof {
                        assert forall|b: i64|
                            #[trigger] visited@.contains(b) && !entry0.contains(
                                b,
                            ) implies match max_depth {
                            Some(m) => reach_upto(*hg, fi, node, b, (m - depth) as nat),
                            None => reachable(*hg, fi, node, b),
                        } by {
                            if before.contains(b) {
                            } else {
                                match max_depth {
                                    Some(m) => {
                                        assert(reach_upto(
                                            *hg,
                                            fi,
                                            w,
                                            b,
                                            (m - next_depth) as nat,
                                        ));
                                        assert(reach_upto(*hg, fi, node, b, (m - depth) as nat));
                                    },
                                    None => {
                                        assert(reachable(*hg, fi, w, b));
                                        let k = choose|k: nat| reach_upto(*hg, fi, w, b, k);
                                        assert(reach_upto(*hg, fi, node, b, k + 1));
                                    },
                                }
                            }
                        }
                        if max_depth is None {
                            assert forall|v: i64, w2: i64|
                                visited@.contains(v) && !entry0.contains(v) && v != node
                                    && #[trigger] adj(*hg, fi, v, w2) implies visited@.contains(
                                w2,
                            ) by {
                                if before.contains(v) {
                                    assert(before.contains(w2));
                                } else {
                                }
                            }
                        }
                        match max_depth {
                            Some(m) => {
                                gmv = gw@;
                                assert forall|v: i64|
                                    #[trigger] dm@.dom().contains(v) implies gmv.dom().contains(
                                    v,
                                ) && gmv[v] == dm@[v] by {
                                    assert(gprev.dom().contains(v) && gprev[v] == dm@[v]);
                                }
                                assert(gmv[node] == depth as nat) by {
                                    assert(gprev.dom().contains(node));
                                }
                                assert forall|v: i64|
                                    #[trigger] visited@.contains(v) && !entry0.contains(
                                        v,
                                    ) implies gmv[v] <= m as nat by {
                                    if before.contains(v) {
                                        assert(gprev.dom().contains(v));
                                        assert(gmv[v] == gprev[v]);
                                    } else {
                                        assert(gmv.dom().contains(v) && !gprev.dom().contains(v));
                                    }
                                }
                                assert forall|v: i64|
                                    #[trigger] visited@.contains(v) && !entry0.contains(v) && v
                                        != node implies exists|u: i64|
                                    #[trigger] adj(*hg, fi, u, v) && gmv.dom().contains(u)
                                        && gmv[u] + 1 == gmv[v] by {
                                    if before.contains(v) {
                                        let u = choose|u: i64|
                                            #[trigger] adj(*hg, fi, u, v) && gprev.dom().contains(
                                                u,
                                            ) && gprev[u] + 1 == gprev[v];
                                        assert(gmv.dom().contains(u) && gmv[u] == gprev[u]);
                                        assert(gprev.dom().contains(v));
                                        assert(gmv[v] == gprev[v]);
                                        assert(adj(*hg, fi, u, v) && gmv.dom().contains(u)
                                            && gmv[u] + 1 == gmv[v]);
                                    } else {
                                        assert(gmv.dom().contains(v) && !gprev.dom().contains(v));
                                        if v == w {
                                            assert(!before.contains(w));
                                            assert(gmv[w] == next_depth as nat);
                                            assert(gprev.dom().contains(node));
                                            assert(gmv.dom().contains(node) && gmv[node]
                                                == depth as nat);
                                            assert(adj(*hg, fi, node, v) && gmv.dom().contains(
                                                node,
                                            ) && gmv[node] + 1 == gmv[v]);
                                        }
                                    }
                                }
                                assert forall|v: i64, w2: i64|
                                    visited@.contains(v) && !entry0.contains(v) && v != node
                                        && gmv[v] < m as nat && #[trigger] adj(
                                        *hg,
                                        fi,
                                        v,
                                        w2,
                                    ) implies visited@.contains(w2) by {
                                    if before.contains(v) {
                                        assert(gprev.dom().contains(v));
                                        assert(gmv[v] == gprev[v]);
                                        assert(before.contains(w2));
                                    } else {
                                        assert(gmv.dom().contains(v) && !gprev.dom().contains(v));
                                        assert(gmv.dom().contains(w2));
                                    }
                                }
                            },
                            None => {},
                        }
                    }
                    p += 1;
                }
                proof {
                    assert forall|w2: i64| #[trigger] adj(*hg, fi, node, w2) implies visited@
                        .contains(w2) by {
                        assert(hg.spec_neighbors(node, fi).contains(w2));
                        assert(nbrs@.to_set().contains(w2));
                        let p2 = choose|p2: int| 0 <= p2 < nbrs@.len() && nbrs@[p2] == w2;
                        assert(visited@.contains(nbrs@[p2]));
                    }
                    if max_depth is None {
                        assert forall|v: i64, w2: i64|
                            visited@.contains(v) && !entry0.contains(v) && #[trigger] adj(
                                *hg,
                                fi,
                                v,
                                w2,
                            ) implies visited@.contains(w2) by {
                            if v == node {
                                assert(adj(*hg, fi, node, w2));
                            }
                        }
                    }
                    match max_depth {
                        Some(m) => {
                            assert forall|v: i64, w2: i64|
                                gmv.dom().contains(v) && !dm@.dom().contains(v) && gmv[v]
                                    < m as nat && #[trigger] adj(
                                    *hg,
                                    fi,
                                    v,
                                    w2,
                                ) implies gmv.dom().contains(w2) by {
                                if v == node {
                                    assert(adj(*hg, fi, node, w2));
                                    assert(visited@.contains(w2));
                                } else {
                                    assert(visited@.contains(v) && !entry0.contains(v));
                                    assert(visited@.contains(w2));
                                }
                            }
                        },
                        None => {},
                    }
                }
            },
            Ok(None) => {
                proof {
                    assert(false);
                }
            },
            Err(_) => {
                proof {
                    assert(visited@ =~= entry0.insert(node));
                }
            },
        }
    } else {
        proof {
            match max_depth {
                Some(m) => {
                    assert(depth == m);
                },
                None => {},
            }
        }
    }
    Ghost(gmv)
}

} // verus!
