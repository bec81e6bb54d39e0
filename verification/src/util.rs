//! Small verified helpers shared by the store and the algorithms.

use vstd::prelude::*;

verus! {

/// Mutable access to one element of a vector.
pub(crate) fn vec_index_mut<T>(v: &mut Vec<T>, i: usize) -> (element: &mut T)
    requires
        i < old(v).len(),
    ensures
        *element == old(v)@[i as int],
        final(v)@ == old(v)@.update(i as int, *final(element)),
{
    &mut v[i]
}

/// Linear membership test on a vector of edge ids.
pub(crate) fn contains_u64(v: &Vec<u64>, x: u64) -> (r: bool)
    ensures
        r == v@.contains(x),
{
    let mut i: usize = 0;
    while i < v.len()
        invariant
            i <= v@.len(),
            forall|j: int| 0 <= j < i ==> v@[j] != x,
        decreases v@.len() - i,
    {
        if v[i] == x {
            return true;
        }
        i += 1;
    }
    false
}

/// Linear membership test on a vector of nodes.
pub(crate) fn contains_i64(v: &Vec<i64>, x: i64) -> (r: bool)
    ensures
        r == v@.contains(x),
{
    let mut i: usize = 0;
    while i < v.len()
        invariant
            i <= v@.len(),
            forall|j: int| 0 <= j < i ==> v@[j] != x,
        decreases v@.len() - i,
    {
        if v[i] == x {
            return true;
        }
        i += 1;
    }
    false
}

/// Membership test on a vector of arity filters.
pub(crate) fn contains_usize(v: &Vec<usize>, x: usize) -> (r: bool)
    ensures
        r == v@.contains(x),
{
    let mut i: usize = 0;
    while i < v.len()
        invariant
            i <= v@.len(),
            forall|j: int| 0 <= j < i ==> v@[j] != x,
        decreases v@.len() - i,
    {
        if v[i] == x {
            return true;
        }
        i += 1;
    }
    false
}

/// An element-wise copy of a vector of nodes.
pub(crate) fn copy_i64_vec(v: &Vec<i64>) -> (r: Vec<i64>)
    ensures
        r@ == v@,
{
    let mut r: Vec<i64> = Vec::new();
    let mut i: usize = 0;
    while i < v.len()
        invariant
            i <= v@.len(),
            r@ == v@.subrange(0, i as int),
        decreases v@.len() - i,
    {
        r.push(v[i]);
        proof {
            assert(r@ =~= v@.subrange(0, i + 1 as int));
        }
        i += 1;
    }
    proof {
        assert(r@ =~= v@);
    }
    r
}

/// An element-wise copy of a vector of edge ids.
pub(crate) fn copy_u64_vec(v: &Vec<u64>) -> (r: Vec<u64>)
    ensures
        r@ == v@,
{
    let mut r: Vec<u64> = Vec::new();
    let mut i: usize = 0;
    while i < v.len()
        invariant
            i <= v@.len(),
            r@ == v@.subrange(0, i as int),
        decreases v@.len() - i,
    {
        r.push(v[i]);
        proof {
            assert(r@ =~= v@.subrange(0, i + 1 as int));
        }
        i += 1;
    }
    proof {
        assert(r@ =~= v@);
    }
    r
}

/// Position of `x` in a duplicate-free vector of nodes.
pub(crate) fn find_idx_i64(v: &Vec<i64>, x: i64) -> (r: Option<usize>)
    requires
        v@.no_duplicates(),
    ensures
        match r {
            Some(i) => i < v@.len() && v@[i as int] == x && v@.index_of(x) == i,
            None => !v@.contains(x),
        },
{
    let mut i: usize = 0;
    while i < v.len()
        invariant
            i <= v@.len(),
            v@.no_duplicates(),
            forall|j: int| 0 <= j < i ==> v@[j] != x,
        decreases v@.len() - i,
    {
        if v[i] == x {
            proof {
                lemma_nodup_index_of(v@, i as int);
            }
            return Some(i);
        }
        i += 1;
    }
    None
}

/// Position of `x` in a duplicate-free vector of edge ids.
pub(crate) fn find_idx_u64(v: &Vec<u64>, x: u64) -> (r: Option<usize>)
    requires
        v@.no_duplicates(),
    ensures
        match r {
            Some(i) => i < v@.len() && v@[i as int] == x && v@.index_of(x) == i,
            None => !v@.contains(x),
        },
{
    let mut i: usize = 0;
    while i < v.len()
        invariant
            i <= v@.len(),
            v@.no_duplicates(),
            forall|j: int| 0 <= j < i ==> v@[j] != x,
        decreases v@.len() - i,
    {
        if v[i] == x {
            proof {
                lemma_nodup_index_of(v@, i as int);
            }
            return Some(i);
        }
        i += 1;
    }
    None
}

/// Whether every element of `a` occurs in `b`.
pub(crate) fn vec_subset(a: &Vec<i64>, b: &Vec<i64>) -> (r: bool)
    ensures
        r == a@.to_set().subset_of(b@.to_set()),
{
    let mut i: usize = 0;
    while i < a.len()
        invariant
            i <= a@.len(),
            forall|j: int| 0 <= j < i ==> b@.to_set().contains(#[trigger] a@[j]),
        decreases a@.len() - i,
    {
        if !contains_i64(b, a[i]) {
            assert(a@.to_set().contains(a@[i as int]));
            return false;
        }
        i += 1;
    }
    assert forall|x: i64| a@.to_set().contains(x) implies b@.to_set().contains(x) by {
        let j = choose|j: int| 0 <= j < a@.len() && a@[j] == x;
        assert(b@.to_set().contains(a@[j]));
    }
    true
}

/// What a filtered sequence holds: exactly those elements of the full
/// sequence that satisfy the predicate.
pub(crate) proof fn lemma_filter_membership<A>(s: Seq<A>, pred: spec_fn(A) -> bool)
    ensures
        forall|x: A| #[trigger] s.filter(pred).contains(x) <==> (s.contains(x) && pred(x)),
    decreases s.len(),
{
    reveal(Seq::filter);
    if s.len() == 0 {
    } else {
        let dl = s.drop_last();
        let dlf = dl.filter(pred);
        lemma_filter_membership(dl, pred);
        assert forall|x: A| s.contains(x) && pred(x) implies #[trigger] s.filter(pred).contains(
            x,
        ) by {
            if x == s.last() {
                assert(s.filter(pred).last() == x);
            } else {
                let j = choose|j: int| 0 <= j < s.len() && s[j] == x;
                assert(dl.contains(x)) by {
                    assert(dl[j] == x);
                }
                assert(dlf.contains(x));
                let j2 = choose|j2: int| 0 <= j2 < dlf.len() && dlf[j2] == x;
                assert(s.filter(pred)[j2] == x);
            }
        }
        assert forall|x: A| #[trigger] s.filter(pred).contains(x) implies (s.contains(x) && pred(
            x,
        )) by {
            let f = s.filter(pred);
            let j = choose|j: int| 0 <= j < f.len() && f[j] == x;
            if pred(s.last()) && j == dlf.len() {
                assert(x == s.last());
                assert(s.contains(x)) by {
                    assert(s[s.len() - 1] == x);
                }
            } else {
                assert(dlf[j] == x);
                assert(dlf.contains(x));
                let j2 = choose|j2: int| 0 <= j2 < dl.len() && dl[j2] == x;
                assert(s.contains(x)) by {
                    assert(s[j2] == x);
                }
            }
        }
    }
}

/// The vector with every occurrence of `node` removed, order preserved.
pub(crate) fn strip_value(v: &Vec<i64>, node: i64) -> (r: Vec<i64>)
    ensures
        r@ == v@.filter(crate::store::ne_pred(node)),
{
    let mut r: Vec<i64> = Vec::new();
    let mut i: usize = 0;
    while i < v.len()
        invariant
            i <= v@.len(),
            r@ == v@.subrange(0, i as int).filter(crate::store::ne_pred(node)),
        decreases v@.len() - i,
    {
        proof {
            assert(v@.subrange(0, i + 1 as int) =~= v@.subrange(0, i as int).push(v@[i as int]));
            v@.subrange(0, i as int).lemma_filter_push(
                v@[i as int],
                crate::store::ne_pred(node),
            );
            assert(crate::store::ne_pred(node)(v@[i as int]) == (v@[i as int] != node));
        }
        if v[i] != node {
            r.push(v[i]);
        }
        i += 1;
    }
    proof {
        assert(v@.subrange(0, v@.len() as int) =~= v@);
    }
    r
}

/// Appending a fresh element keeps a sequence duplicate-free.
pub(crate) proof fn lemma_push_nodup<A>(s: Seq<A>, x: A)
    requires
        s.no_duplicates(),
        !s.contains(x),
    ensures
        s.push(x).no_duplicates(),
{
    assert forall|a: int, b: int|
        0 <= a < s.push(x).len() && 0 <= b < s.push(x).len() && a != b implies s.push(x)[a]
        != s.push(x)[b] by {
        if a < s.len() && b < s.len() {
        } else if a == s.len() {
            assert(s.contains(s[b]));
        } else if b == s.len() {
            assert(s.contains(s[a]));
        }
    }
}

/// Removing one position from a duplicate-free sequence keeps it
/// duplicate-free, and removes exactly that element from the membership.
pub(crate) proof fn lemma_remove_nodup<A>(s: Seq<A>, i: int)
    requires
        s.no_duplicates(),
        0 <= i < s.len(),
    ensures
        s.remove(i).no_duplicates(),
        forall|x: A| #[trigger] s.remove(i).contains(x) <==> (s.contains(x) && x != s[i]),
{
    s.remove_ensures(i);
    assert forall|x: A| #[trigger] s.remove(i).contains(x) implies (s.contains(x) && x
        != s[i]) by {
        let j = choose|j: int| 0 <= j < s.remove(i).len() && s.remove(i)[j] == x;
        if j < i {
            assert(s[j] == x);
        } else {
            assert(s[j + 1] == x);
        }
    }
    assert forall|x: A| s.contains(x) && x != s[i] implies #[trigger] s.remove(i).contains(x) by {
        let j = choose|j: int| 0 <= j < s.len() && s[j] == x;
        if j < i {
            assert(s.remove(i)[j] == x);
        } else {
            assert(j != i);
            assert(s.remove(i)[j - 1] == x);
        }
    }
}

/// In a duplicate-free sequence, `index_of` returns the one index that
/// holds the element.
pub(crate) proof fn lemma_nodup_index_of<A>(s: Seq<A>, k: int)
    requires
        s.no_duplicates(),
        0 <= k < s.len(),
    ensures
        s.index_of(s[k]) == k,
{
    assert(0 <= s.index_of(s[k]) < s.len() && s[s.index_of(s[k])] == s[k]) by {
        assert(exists|i: int| 0 <= i < s.len() && s[i] == s[k]);
    }
}

} // verus!
