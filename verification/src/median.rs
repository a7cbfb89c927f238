//! Sorting of depth values and the lower median of a collection of them.

use vstd::prelude::*;
use vstd::relations::sorted_by;
use vstd::relations::total_ordering;
use vstd::seq_lib::lemma_sorted_unique;
use vstd::seq_lib::to_multiset_build;
use vstd::seq_lib::to_multiset_insert;

verus! {

/// The order of the numbers, as a relation.
pub open spec fn at_most() -> spec_fn(u32, u32) -> bool {
    |a: u32, b: u32| a <= b
}

/// The values of `s` in rising order.
pub open spec fn ascending(s: Seq<u32>) -> Seq<u32> {
    s.sort_by(at_most())
}

/// `t` holds the values of `s`, each as often as `s` does, in rising order.
pub open spec fn is_ascending_of(t: Seq<u32>, s: Seq<u32>) -> bool {
    &&& t.to_multiset() == s.to_multiset()
    &&& forall|i: int, j: int| 0 <= i < j < t.len() ==> t[i] <= t[j]
}

/// The lower median of `s`: of its values in rising order, the one at index
/// `(len - 1) / 2`.
pub open spec fn lower_median(s: Seq<u32>) -> u32 {
    ascending(s)[(s.len() - 1) / 2]
}

/// There is one way to put the values of `s` in rising order.
pub proof fn ascending_is_unique(t: Seq<u32>, s: Seq<u32>)
    requires
        is_ascending_of(t, s),
    ensures
        t == ascending(s),
        t.len() == s.len(),
{
    assert(total_ordering(at_most()));
    s.lemma_sort_by_ensures(at_most());
    assert(sorted_by(t, at_most()));
    lemma_sorted_unique(t, ascending(s), at_most());
    t.to_multiset_ensures();
    s.to_multiset_ensures();
}

/// What `ascending` gives holds the values of `s` in rising order.
pub proof fn ascending_is_ascending(s: Seq<u32>)
    ensures
        is_ascending_of(ascending(s), s),
        ascending(s).len() == s.len(),
{
    assert(total_ordering(at_most()));
    s.lemma_sort_by_ensures(at_most());
    ascending(s).to_multiset_ensures();
    s.to_multiset_ensures();
    let t = ascending(s);
    assert forall|i: int, j: int| 0 <= i < j < t.len() implies t[i] <= t[j] by {
        assert(at_most()(t[i], t[j]));
    }
}

/// The values of `v` in rising order.
pub fn sorted(v: &Vec<u32>) -> (out: Vec<u32>)
    ensures
        out@ == ascending(v@),
        out@.len() == v@.len(),
{
    let mut out: Vec<u32> = Vec::new();
    let mut n: usize = 0;
    assert(out@ =~= v@.take(0));
    while n < v.len()
        invariant
            n <= v.len(),
            out@.len() == n,
            out@.to_multiset() == v@.take(n as int).to_multiset(),
            forall|i: int, j: int| 0 <= i < j < out@.len() ==> out@[i] <= out@[j],
        decreases v.len() - n,
    {
        let x: u32 = v[n];
        let mut at: usize = 0;
        while at < out.len() && out[at] <= x
            invariant
                at <= out@.len(),
                forall|i: int| 0 <= i < at ==> out@[i] <= x,
            decreases out@.len() - at,
        {
            at = at + 1;
        }
        proof {
            to_multiset_insert(out@, at as int, x);
            to_multiset_build(v@.take(n as int), x);
            assert(v@.take(n as int).push(x) == v@.take(n as int + 1));
        }
        out.insert(at, x);
        n = n + 1;
    }
    proof {
        assert(v@.take(v@.len() as int) == v@);
        ascending_is_unique(out@, v@);
    }
    out
}

/// The lower median of the values of a collection that is not empty.
pub fn lower_median_of(v: &Vec<u32>) -> (m: u32)
    requires
        v@.len() > 0,
    ensures
        m == lower_median(v@),
{
    let s = sorted(v);
    s[(s.len() - 1) / 2]
}

} // verus!
