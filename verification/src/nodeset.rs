//! A set of nodes, kept as a duplicate-free vector.
//!
//! Traversals and component analysis return their results as `NodeSet`s;
//! equality of two `NodeSet`s is set equality, whatever the insertion order.

use vstd::prelude::*;

verus! {

/// A finite set of nodes.  The view is the mathematical `Set<i64>` it holds.
#[derive(Debug)]
pub struct NodeSet {
    elems: Vec<i64>,
}

impl View for NodeSet {
    type V = Set<i64>;

    closed spec fn view(&self) -> Set<i64> {
        self.elems@.to_set()
    }
}

impl NodeSet {
    /// The representation holds each member exactly once.
    pub closed spec fn wf(&self) -> bool {
        self.elems@.no_duplicates()
    }

    /// Creates an empty set.
    pub fn new() -> (r: NodeSet)
        ensures
            r@ == Set::<i64>::empty(),
            r.wf(),
    {
        let r = NodeSet { elems: Vec::new() };
        proof {
            assert(r@ =~= Set::<i64>::empty());
        }
        r
    }

    /// Whether `x` is a member.
    pub fn contains(&self, x: i64) -> (r: bool)
        ensures
            r == self@.contains(x),
    {
        crate::util::contains_i64(&self.elems, x)
    }

    /// Adds `x`; a no-op if it is already a member.
    pub fn insert(&mut self, x: i64)
        requires
            old(self).wf(),
        ensures
            final(self).wf(),
            final(self)@ == old(self)@.insert(x),
    {
        if !crate::util::contains_i64(&self.elems, x) {
            let ghost pre = self.elems@;
            self.elems.push(x);
            proof {
                pre.lemma_push_to_set_commute(x);
            }
        } else {
            proof {
                assert(self@ =~= old(self)@.insert(x));
            }
        }
    }

    /// The number of members.
    pub fn len(&self) -> (r: usize)
        requires
            self.wf(),
        ensures
            r == self@.len(),
    {
        proof {
            self.elems@.unique_seq_to_set();
        }
        self.elems.len()
    }

    /// The members as a vector, each exactly once.
    pub fn to_vec(&self) -> (r: Vec<i64>)
        requires
            self.wf(),
        ensures
            r@.to_set() == self@,
            r@.no_duplicates(),
    {
        crate::util::copy_i64_vec(&self.elems)
    }

    /// Builds a set from a vector of members (duplicates collapse).
    pub fn from_vec(v: &Vec<i64>) -> (r: NodeSet)
        ensures
            r.wf(),
            r@ == v@.to_set(),
    {
        let mut r = NodeSet::new();
        let mut i: usize = 0;
        while i < v.len()
            invariant
                i <= v@.len(),
                r.wf(),
                r@ == v@.subrange(0, i as int).to_set(),
            decreases v@.len() - i,
        {
            r.insert(v[i]);
            proof {
                assert(v@.subrange(0, i + 1 as int) =~= v@.subrange(0, i as int).push(
                    v@[i as int],
                ));
                v@.subrange(0, i as int).lemma_push_to_set_commute(v@[i as int]);
            }
            i += 1;
        }
        proof {
            assert(v@.subrange(0, v@.len() as int) =~= v@);
        }
        r
    }

    /// An independent copy of this set.
    pub fn duplicate(&self) -> (r: NodeSet)
        ensures
            r@ == self@,
            r.wf() == self.wf(),
    {
        NodeSet { elems: crate::util::copy_i64_vec(&self.elems) }
    }

    /// Adds every member of `other`.
    pub fn insert_all(&mut self, other: &NodeSet)
        requires
            old(self).wf(),
        ensures
            final(self).wf(),
            final(self)@ == old(self)@.union(other@),
    {
        let mut i: usize = 0;
        while i < other.elems.len()
            invariant
                i <= other.elems@.len(),
                self.wf(),
                self@ == old(self)@.union(other.elems@.subrange(0, i as int).to_set()),
            decreases other.elems@.len() - i,
        {
            let x = other.elems[i];
            self.insert(x);
            proof {
                assert(other.elems@.subrange(0, i + 1 as int) =~= other.elems@.subrange(
                    0,
                    i as int,
                ).push(other.elems@[i as int]));
                other.elems@.subrange(0, i as int).lemma_push_to_set_commute(
                    other.elems@[i as int],
                );
                assert(self@ =~= old(self)@.union(
                    other.elems@.subrange(0, i + 1 as int).to_set(),
                ));
            }
            i += 1;
        }
        proof {
            assert(other.elems@.subrange(0, other.elems@.len() as int) =~= other.elems@);
        }
    }

    /// Whether every member of `self` is a member of `other`.
    pub fn subset_of(&self, other: &NodeSet) -> (r: bool)
        ensures
            r == self@.subset_of(other@),
    {
        let mut i: usize = 0;
        while i < self.elems.len()
            invariant
                i <= self.elems@.len(),
                forall|j: int| 0 <= j < i ==> other@.contains(#[trigger] self.elems@[j]),
            decreases self.elems@.len() - i,
        {
            if !other.contains(self.elems[i]) {
                assert(!self@.subset_of(other@)) by {
                    assert(self@.contains(self.elems@[i as int]));
                }
                return false;
            }
            i += 1;
        }
        assert forall|x: i64| self@.contains(x) implies other@.contains(x) by {
            let j = choose|j: int| 0 <= j < self.elems@.len() && self.elems@[j] == x;
            assert(other@.contains(self.elems@[j]));
        }
        true
    }
}

impl PartialEq for NodeSet {
    /// Set equality: the same members, in whatever order.
    fn eq(&self, other: &NodeSet) -> (r: bool) {
        let r = self.subset_of(other) && other.subset_of(self);
        proof {
            if self@.subset_of(other@) && other@.subset_of(self@) {
                assert(self@ =~= other@);
            }
        }
        r
    }
}

impl vstd::std_specs::cmp::PartialEqSpecImpl for NodeSet {
    open spec fn obeys_eq_spec() -> bool {
        true
    }

    open spec fn eq_spec(&self, other: &NodeSet) -> bool {
        self@ == other@
    }
}

} // verus!
