//! Connected-component analysis: components, isolation and connectivity,
//! built on the traversal engine and the store's query surface.

use vstd::prelude::*;

use crate::nodeset::NodeSet;
use crate::store::{spec_filter, Hypergraph};
use crate::visits::{
    _bfs, bfs_spec, lemma_reachable_same_class, lemma_reachable_symm, reach_upto, reachable,
};

verus! {

/// The connected component of `v`: every node reachable from it through
/// edges passing the filter.
pub open spec fn component_of(hg: Hypergraph, filt: Option<int>, v: i64) -> Set<i64> {
    Set::new(|b: i64| reachable(hg, filt, v, b))
}

/// The components of the hypergraph under the filter: the component of
/// each of its nodes.
pub open spec fn spec_components(hg: Hypergraph, filt: Option<int>) -> Set<Set<i64>> {
    Set::new(
        |c: Set<i64>| exists|v: i64| #[trigger] hg.has_node(v) && c == component_of(hg, filt, v),
    )
}

/// Whether a node set has a member.
pub open spec fn comp_nonempty(c: NodeSet) -> bool {
    exists|v: i64| c@.contains(v)
}

/// What the component list of a hypergraph must hold under the filter:
/// well-formed, nonempty sets, each the component of each of its members,
/// pairwise disjoint, and together covering exactly the node set.
pub open spec fn components_match(hg: Hypergraph, filt: Option<int>, comps: Seq<NodeSet>) -> bool {
    &&& forall|i: int| 0 <= i < comps.len() ==> (#[trigger] comps[i]).wf()
    &&& forall|i: int| 0 <= i < comps.len() ==> comp_nonempty(#[trigger] comps[i])
    &&& forall|i: int, v: i64|
        0 <= i < comps.len() && #[trigger] comps[i]@.contains(v) ==> comps[i]@ == component_of(
            hg,
            filt,
            v,
        )
    &&& forall|i: int, j: int|
        0 <= i < comps.len() && 0 <= j < comps.len() && i != j ==> (#[trigger] comps[i])@.disjoint(
            (#[trigger] comps[j])@,
        )
    &&& forall|n: i64|
        #[trigger] hg.has_node(n) <==> exists|i: int|
            0 <= i < comps.len() && #[trigger] comps[i]@.contains(n)
}

impl Hypergraph {
    /// The connected components of the hypergraph under the arity filter:
    /// iterate all nodes and run an unbounded filtered search from every
    /// node not yet seen.  The returned sets are pairwise disjoint and
    /// their union is the full node set.  At most one of `order` and
    /// `size` may be supplied.
    pub fn ccs(&self, order: Option<usize>, size: Option<usize>) -> (r: Result<
        Vec<NodeSet>,
        &'static str,
    >)
        requires
            self.wf(),
            order matches Some(o) ==> o < usize::MAX,
        ensures
            r is Err <==> (order is Some && size is Some),
            (order is Some && size is Some) ==> (r matches Err(m) && m@
                == "Order and size cannot be both specified."@),
            r matches Ok(comps) ==> components_match(*self, spec_filter(order, size), comps@),
    {
        if order.is_some() && size.is_some() {
            Err("Order and size cannot be both specified.")
        } else {
            let ghost fi = spec_filter(order, size);
            let nodes = self.get_nodes();
            let mut visited = NodeSet::new();
            let mut cc: Vec<NodeSet> = Vec::new();
            let mut i: usize = 0;
            proof {
                assert(visited@ =~= Set::new(
                    |n: i64|
                        exists|ci: int| 0 <= ci < cc@.len() && #[trigger] cc@[ci]@.contains(n),
                ));
            }
            while i < nodes.len()
                invariant
                    self.wf(),
                    fi == spec_filter(order, size),
                    !(order is Some && size is Some),
                    order matches Some(o) ==> o < usize::MAX,
                    nodes@.to_set() == self.node_set(),
                    nodes@.no_duplicates(),
                    visited.wf(),
                    i <= nodes@.len(),
                    visited@ == Set::new(
                        |n: i64|
                            exists|ci: int|
                                0 <= ci < cc@.len() && #[trigger] cc@[ci]@.contains(n),
                    ),
                    visited@.subset_of(self.node_set()),
                    forall|ci: int| 0 <= ci < cc@.len() ==> (#[trigger] cc@[ci]).wf(),
                    forall|ci: int| 0 <= ci < cc@.len() ==> comp_nonempty(#[trigger] cc@[ci]),
                    forall|ci: int, v: i64|
                        0 <= ci < cc@.len() && #[trigger] cc@[ci]@.contains(v) ==> cc@[ci]@
                            == component_of(*self, fi, v),
                    forall|ci: int, cj: int|
                        0 <= ci < cc@.len() && 0 <= cj < cc@.len() && ci != cj ==> (
                        #[trigger] cc@[ci])@.disjoint((#[trigger] cc@[cj])@),
                    forall|j: int| 0 <= j < i ==> visited@.contains(#[trigger] nodes@[j]),
                decreases nodes@.len() - i,
            {
                let node = nodes[i];
                let ghost cc0 = cc@;
                let ghost vis0 = visited@;
                if !visited.contains(node) {
                    proof {
                        assert(self.has_node(node)) by {
                            assert(nodes@.to_set().contains(node)) by {
                                assert(nodes@[i as int] == node);
                            }
                        }
                    }
                    let res = _bfs(self, node, None, order, size);
                    proof {
                        assert(res@ == bfs_spec(*self, node, None, fi));
                        assert(res@ =~= component_of(*self, fi, node));
                        assert(res@.contains(node)) by {
                            assert(reach_upto(*self, fi, node, node, 0));
                        }
                        // every member's component is this set
                        assert forall|v: i64| res@.contains(v) implies res@ == component_of(
                            *self,
                            fi,
                            v,
                        ) by {
                            lemma_reachable_same_class(*self, fi, node, v);
                        }
                        // disjoint from every earlier component
                        assert forall|ci: int| 0 <= ci < cc0.len() implies (
                        #[trigger] cc0[ci])@.disjoint(res@) by {
                            if !cc0[ci]@.disjoint(res@) {
                                let w = choose|w: i64| cc0[ci]@.contains(w) && res@.contains(w);
                                assert(cc0[ci]@ == component_of(*self, fi, w));
                                assert(reachable(*self, fi, node, w));
                                lemma_reachable_symm(*self, fi, node, w);
                                assert(cc0[ci]@.contains(node)) by {
                                    assert(reachable(*self, fi, w, node));
                                }
                                assert(vis0.contains(node));
                            }
                        }
                        // members are nodes of the hypergraph
                        assert forall|v: i64| res@.contains(v) implies self.node_set().contains(
                            v,
                        ) by {
                            let k = choose|k: nat| reach_upto(*self, fi, node, v, k);
                            crate::visits::lemma_reach_in_nodes(*self, fi, node, v, k);
                        }
                    }
                    visited.insert_all(&res);
                    cc.push(res);
                    proof {
                        assert forall|ci: int| 0 <= ci < cc@.len() implies comp_nonempty(
                            #[trigger] cc@[ci],
                        ) by {
                            if ci < cc0.len() {
                                assert(comp_nonempty(cc0[ci]));
                                let v = choose|v: i64| cc0[ci]@.contains(v);
                                assert(cc@[ci]@.contains(v));
                            } else {
                                assert(cc@[ci]@.contains(node));
                            }
                        }
                        assert(visited@ =~= Set::new(
                            |n: i64|
                                exists|ci: int|
                                    0 <= ci < cc@.len() && #[trigger] cc@[ci]@.contains(n),
                        )) by {
                            assert forall|n: i64| visited@.contains(n) implies exists|ci: int|
                                0 <= ci < cc@.len() && #[trigger] cc@[ci]@.contains(n) by {
                                if vis0.contains(n) {
                                    let ci = choose|ci: int|
                                        0 <= ci < cc0.len() && #[trigger] cc0[ci]@.contains(n);
                                    assert(0 <= ci < cc@.len() && cc@[ci]@.contains(n));
                                } else {
                                    assert(cc@[cc@.len() - 1]@.contains(n));
                                }
                            }
                            assert forall|n: i64|
                                (exists|ci: int|
                                    0 <= ci < cc@.len() && #[trigger] cc@[ci]@.contains(
                                        n,
                                    )) implies visited@.contains(n) by {
                                let ci = choose|ci: int|
                                    0 <= ci < cc@.len() && #[trigger] cc@[ci]@.contains(n);
                                if ci < cc0.len() {
                                    assert(cc0[ci]@.contains(n));
                                    assert(vis0.contains(n));
                                }
                            }
                        }
                    }
                } else {
                    proof {
                        assert(visited@.contains(nodes@[i as int]));
                    }
                }
                i += 1;
            }
            proof {
                assert forall|n: i64| #[trigger]
                    self.has_node(n) implies exists|i2: int|
                    0 <= i2 < cc@.len() && #[trigger] cc@[i2]@.contains(n) by {
                    assert(nodes@.to_set().contains(n));
                    let j = choose|j: int| 0 <= j < nodes@.len() && nodes@[j] == n;
                    assert(visited@.contains(nodes@[j]));
                }
                assert forall|n: i64|
                    (exists|i2: int|
                        0 <= i2 < cc@.len() && #[trigger] cc@[i2]@.contains(n)) implies self
                    .has_node(n) by {
                    assert(visited@.contains(n));
                }
            }
            Ok(cc)
        }
    }

    /// The connected component containing `node` under the arity filter:
    /// the empty set when the node is absent.  At most one of `order` and
    /// `size` may be supplied.
    pub fn node_cc(&self, node: i64, order: Option<usize>, size: Option<usize>) -> (r: Result<
        NodeSet,
        &'static str,
    >)
        requires
            self.wf(),
            order matches Some(o) ==> o < usize::MAX,
        ensures
            r is Err <==> (order is Some && size is Some),
            (order is Some && size is Some) ==> (r matches Err(m) && m@
                == "Order and size cannot be both specified."@),
            r matches Ok(c) ==> c.wf() && c@ == if self.has_node(node) {
                component_of(*self, spec_filter(order, size), node)
            } else {
                Set::<i64>::empty()
            },
    {
        if order.is_some() && size.is_some() {
            Err("Order and size cannot be both specified.")
        } else {
            let res = _bfs(self, node, None, order, size);
            proof {
                if self.has_node(node) {
                    assert(res@ =~= component_of(*self, spec_filter(order, size), node));
                }
            }
            Ok(res)
        }
    }

    /// The number of connected components under the arity filter; 0
    /// exactly when the hypergraph has no nodes.  At most one of `order`
    /// and `size` may be supplied.
    pub fn num_ccs(&self, order: Option<usize>, size: Option<usize>) -> (r: Result<
        usize,
        &'static str,
    >)
        requires
            self.wf(),
            order matches Some(o) ==> o < usize::MAX,
        ensures
            r is Err <==> (order is Some && size is Some),
            (order is Some && size is Some) ==> (r matches Err(m) && m@
                == "Order and size cannot be both specified."@),
            r matches Ok(n) ==> n == spec_components(*self, spec_filter(order, size)).len(),
    {
        match self.ccs(order, size) {
            Ok(val) => {
                proof {
                    lemma_components_count(*self, spec_filter(order, size), val@);
                }
                Ok(val.len())
            },
            Err(err) => Err(err),
        }
    }

    /// The largest connected component under the arity filter; the empty
    /// set when the hypergraph has no nodes.  At most one of `order` and
    /// `size` may be supplied.
    pub fn largest_cc(&self, order: Option<usize>, size: Option<usize>) -> (r: Result<
        NodeSet,
        &'static str,
    >)
        requires
            self.wf(),
            order matches Some(o) ==> o < usize::MAX,
        ensures
            r is Err <==> (order is Some && size is Some),
            (order is Some && size is Some) ==> (r matches Err(m) && m@
                == "Order and size cannot be both specified."@),
            r matches Ok(c) ==> {
                let sc = spec_components(*self, spec_filter(order, size));
                &&& c.wf()
                &&& sc.is_empty() ==> c@ == Set::<i64>::empty()
                &&& !sc.is_empty() ==> sc.contains(c@) && (forall|d: Set<i64>|
                    #[trigger] sc.contains(d) ==> d.len() <= c@.len())
            },
    {
        match self.ccs(order, size) {
            Ok(comps) => {
                let ghost fi = spec_filter(order, size);
                proof {
                    lemma_components_count(*self, fi, comps@);
                }
                let mut res = NodeSet::new();
                let mut res_len: usize = 0;
                let mut i: usize = 0;
                proof {
                    assert(res@ =~= Set::<i64>::empty());
                }
                while i < comps.len()
                    invariant
                        self.wf(),
                        fi == spec_filter(order, size),
                        i <= comps@.len(),
                        components_match(*self, fi, comps@),
                        res.wf(),
                        res_len == res@.len(),
                        i == 0 ==> res@ == Set::<i64>::empty(),
                        i > 0 ==> exists|ci: int|
                            0 <= ci < i && res@ == (#[trigger] comps@[ci])@,
                        forall|ci: int| 0 <= ci < i ==> (#[trigger] comps@[ci])@.len() <= res@.len(),
                    decreases comps@.len() - i,
                {
                    let cl = comps[i].len();
                    if cl > res_len {
                        res = comps[i].duplicate();
                        res_len = cl;
                        proof {
                            assert(0 <= i < i + 1 && res@ == comps@[i as int]@);
                        }
                    } else {
                        proof {
                            if i > 0 {
                                let ci = choose|ci: int|
                                    0 <= ci < i && res@ == (#[trigger] comps@[ci])@;
                                assert(0 <= ci < i + 1 && res@ == comps@[ci]@);
                            } else {
                                assert(comp_nonempty(comps@[0]));
                                let v = choose|v: i64| comps@[0]@.contains(v);
                                assert(comps@[0]@.contains(v));
                                assert(self.has_node(v)) by {
                                    assert(exists|i2: int|
                                        0 <= i2 < comps@.len() && #[trigger] comps@[
                                        i2]@.contains(v));
                                }
                                assert(comps@[0]@ == component_of(*self, fi, v));
                                assert(comps@[0]@.subset_of(self.node_set())) by {
                                    assert forall|b: i64|
                                        comps@[0]@.contains(b) implies self.node_set().contains(
                                        b,
                                    ) by {
                                        let k = choose|k: nat|
                                            reach_upto(*self, fi, v, b, k);
                                        crate::visits::lemma_reach_in_nodes(*self, fi, v, b, k);
                                    }
                                }
                                self.lemma_model_finite();
                                vstd::set_lib::lemma_len_subset(comps@[0]@, self.node_set());
                                if comps@[0]@.len() == 0 {
                                    comps@[0]@.lemma_len0_is_empty();
                                }
                                assert(false);
                            }
                        }
                    }
                    i += 1;
                }
                proof {
                    let sc = spec_components(*self, fi);
                    if comps@.len() == 0 {
                        assert(sc.is_empty()) by {
                            if !sc.is_empty() {
                                let c = sc.choose();
                                assert(sc.contains(c));
                                let v = choose|v: i64|
                                    #[trigger] self.has_node(v) && c == component_of(
                                        *self,
                                        fi,
                                        v,
                                    );
                                assert(exists|i2: int|
                                    0 <= i2 < comps@.len() && #[trigger] comps@[i2]@.contains(v));
                            }
                        }
                    } else {
                        let ci = choose|ci: int|
                            0 <= ci < comps@.len() && res@ == (#[trigger] comps@[ci])@;
                        assert(comp_nonempty(comps@[ci]));
                        let v = choose|v: i64| comps@[ci]@.contains(v);
                        assert(self.has_node(v)) by {
                            assert(exists|i2: int|
                                0 <= i2 < comps@.len() && #[trigger] comps@[i2]@.contains(v));
                        }
                        assert(sc.contains(res@)) by {
                            assert(self.has_node(v) && res@ == component_of(*self, fi, v));
                        }
                        assert(!sc.is_empty());
                        assert forall|d: Set<i64>| #[trigger] sc.contains(d) implies d.len()
                            <= res@.len() by {
                            let w = choose|w: i64|
                                #[trigger] self.has_node(w) && d == component_of(*self, fi, w);
                            let i2 = choose|i2: int|
                                0 <= i2 < comps@.len() && #[trigger] comps@[i2]@.contains(w);
                            assert(comps@[i2]@ == component_of(*self, fi, w));
                            assert(comps@[i2]@.len() <= res@.len());
                        }
                    }
                }
                Ok(res)
            },
            Err(err) => Err(err),
        }
    }

    /// The size of the largest connected component under the arity
    /// filter; 0 exactly when the hypergraph has no nodes.  At most one
    /// of `order` and `size` may be supplied.
    pub fn largest_cc_size(&self, order: Option<usize>, size: Option<usize>) -> (r: Result<
        usize,
        &'static str,
    >)
        requires
            self.wf(),
            order matches Some(o) ==> o < usize::MAX,
        ensures
            r is Err <==> (order is Some && size is Some),
            (order is Some && size is Some) ==> (r matches Err(m) && m@
                == "Order and size cannot be both specified."@),
            r matches Ok(n) ==> {
                let sc = spec_components(*self, spec_filter(order, size));
                &&& sc.is_empty() ==> n == 0
                &&& !sc.is_empty() ==> (exists|c: Set<i64>|
                    #[trigger] sc.contains(c) && c.len() == n) && (forall|d: Set<i64>|
                    #[trigger] sc.contains(d) ==> d.len() <= n)
            },
    {
        match self.largest_cc(order, size) {
            Ok(val) => {
                let n = val.len();
                proof {
                    let sc = spec_components(*self, spec_filter(order, size));
                    if !sc.is_empty() {
                        assert(sc.contains(val@) && val@.len() == n as nat);
                    }
                }
                Ok(n)
            },
            Err(err) => Err(err),
        }
    }

    /// Whether the hypergraph is connected under the arity filter: at
    /// most one component (an empty hypergraph is connected by
    /// convention).  At most one of `order` and `size` may be supplied.
    pub fn is_connected(&self, order: Option<usize>, size: Option<usize>) -> (r: Result<
        bool,
        &'static str,
    >)
        requires
            self.wf(),
            order matches Some(o) ==> o < usize::MAX,
        ensures
            r is Err <==> (order is Some && size is Some),
            (order is Some && size is Some) ==> (r matches Err(m) && m@
                == "Order and size cannot be both specified."@),
            r matches Ok(b) ==> b == (spec_components(*self, spec_filter(order, size)).len() <= 1),
    {
        match self.num_ccs(order, size) {
            Ok(n) => Ok(n <= 1),
            Err(_) => Err("Order and size cannot be both specified."),
        }
    }
}

/// A component list that matches the hypergraph under the filter has
/// exactly one entry per component: its length is the number of
/// components.
pub proof fn lemma_components_count(hg: Hypergraph, filt: Option<int>, comps: Seq<NodeSet>)
    requires
        components_match(hg, filt, comps),
    ensures
        comps.len() == spec_components(hg, filt).len(),
        spec_components(hg, filt).finite(),
{
    let views = comps.map_values(|c: NodeSet| c@);
    assert(views.to_set() =~= spec_components(hg, filt)) by {
        assert forall|c: Set<i64>| views.to_set().contains(c) implies spec_components(
            hg,
            filt,
        ).contains(c) by {
            let i = choose|i: int| 0 <= i < views.len() && views[i] == c;
            assert(comps[i]@ == c);
            assert(comp_nonempty(comps[i]));
            let v = choose|v: i64| comps[i]@.contains(v);
            assert(hg.has_node(v)) by {
                assert(exists|i2: int|
                    0 <= i2 < comps.len() && #[trigger] comps[i2]@.contains(v));
            }
            assert(hg.has_node(v) && c == component_of(hg, filt, v));
        }
        assert forall|c: Set<i64>| spec_components(hg, filt).contains(c) implies views
            .to_set().contains(c) by {
            let v = choose|v: i64| #[trigger] hg.has_node(v) && c == component_of(hg, filt, v);
            let i = choose|i: int| 0 <= i < comps.len() && #[trigger] comps[i]@.contains(v);
            assert(comps[i]@ == component_of(hg, filt, v));
            assert(views[i] == c);
        }
    }
    assert(views.no_duplicates()) by {
        assert forall|a: int, b: int|
            0 <= a < views.len() && 0 <= b < views.len() && a != b implies views[a] != views[b] by {
            assert(comp_nonempty(comps[a]));
            let v = choose|v: i64| comps[a]@.contains(v);
            assert(comps[a]@.disjoint(comps[b]@));
            assert(!comps[b]@.contains(v));
        }
    }
    views.unique_seq_to_set();
}

} // verus!
