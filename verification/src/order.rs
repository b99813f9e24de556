//! Sorting by a key of a distance and three coordinates.

use vstd::prelude::*;

verus! {

/// A distance and the coordinates that break ties.
pub type DistKey = (i128, i64, i64, i64);

/// Lexicographic order.
pub open spec fn dist_lt(a: DistKey, b: DistKey) -> bool {
    a.0 < b.0 || (a.0 == b.0 && (a.1 < b.1 || (a.1 == b.1 && (a.2 < b.2 || (a.2 == b.2 && a.3
        < b.3)))))
}

#[inline]
pub(crate) fn dist_less(a: DistKey, b: DistKey) -> (r: bool)
    ensures
        r == dist_lt(a, b),
{
    a.0 < b.0 || (a.0 == b.0 && (a.1 < b.1 || (a.1 == b.1 && (a.2 < b.2 || (a.2 == b.2 && a.3
        < b.3)))))
}

/// No key comes after a greater one.
pub open spec fn in_order(s: Seq<DistKey>) -> bool {
    forall|i: int, j: int| 0 <= i < j < s.len() ==> !dist_lt(#[trigger] s[j], #[trigger] s[i])
}

/// Sorts the keys.
pub(crate) fn sort_keys(v: Vec<DistKey>) -> (r: Vec<DistKey>)
    ensures
        in_order(r@),
        r@.to_multiset() == v@.to_multiset(),
        r.len() == v.len(),
    decreases v.len(),
{
    let n: usize = v.len();
    if n <= 1 {
        return v;
    }
    let mut left = v;
    let right = left.split_off(n / 2);
    proof {
        assert(left@ + right@ =~= v@);
        vstd::seq_lib::lemma_multiset_commutative(left@, right@);
    }
    let a = sort_keys(left);
    let b = sort_keys(right);
    merge(a, b)
}

/// Merges two sorted sequences.
fn merge(a: Vec<DistKey>, b: Vec<DistKey>) -> (r: Vec<DistKey>)
    requires
        in_order(a@),
        in_order(b@),
        a.len() + b.len() <= usize::MAX,
    ensures
        in_order(r@),
        r@.to_multiset() == a@.to_multiset().add(b@.to_multiset()),
        r.len() == a.len() + b.len(),
{
    let mut out: Vec<DistKey> = Vec::with_capacity(a.len() + b.len());
    let mut i: usize = 0;
    let mut j: usize = 0;
    assert(a@.take(0) =~= Seq::empty());
    assert(b@.take(0) =~= Seq::empty());
    assert(out@.to_multiset() =~= a@.take(0).to_multiset().add(b@.take(0).to_multiset())) by {
        a@.take(0).to_multiset_ensures();
        b@.take(0).to_multiset_ensures();
        out@.to_multiset_ensures();
    }
    while i < a.len() || j < b.len()
        invariant
            i <= a.len(),
            j <= b.len(),
            a.len() + b.len() <= usize::MAX,
            in_order(a@),
            in_order(b@),
            in_order(out@),
            out.len() == i + j,
            out@.to_multiset() == a@.take(i as int).to_multiset().add(
                b@.take(j as int).to_multiset(),
            ),
            forall|k: int, m: int|
                0 <= k < out.len() && i <= m < a.len() ==> !dist_lt(#[trigger] a[m], #[trigger] out[k]),
            forall|k: int, m: int|
                0 <= k < out.len() && j <= m < b.len() ==> !dist_lt(#[trigger] b[m], #[trigger] out[k]),
        decreases a.len() - i + b.len() - j,
    {
        let from_a: bool = if i == a.len() {
            false
        } else if j == b.len() {
            true
        } else {
            !dist_less(b[j], a[i])
        };
        let ghost was = out@;
        if from_a {
            let x = a[i];
            out.push(x);
            proof {
                assert(a@.take(i + 1) =~= a@.take(i as int).push(x));
                lemma_push_multiset(a@.take(i as int), x);
                lemma_push_multiset(was, x);
                assert(out@.to_multiset() =~= a@.take(i + 1).to_multiset().add(
                    b@.take(j as int).to_multiset(),
                ));
            }
            i += 1;
        } else {
            let x = b[j];
            out.push(x);
            proof {
                assert(b@.take(j + 1) =~= b@.take(j as int).push(x));
                lemma_push_multiset(b@.take(j as int), x);
                lemma_push_multiset(was, x);
                assert(out@.to_multiset() =~= a@.take(i as int).to_multiset().add(
                    b@.take(j + 1).to_multiset(),
                ));
            }
            j += 1;
        }
    }
    assert(a@.take(i as int) =~= a@);
    assert(b@.take(j as int) =~= b@);
    out
}

pub(crate) proof fn lemma_push_multiset<A>(s: Seq<A>, x: A)
    ensures
        s.push(x).to_multiset() == s.to_multiset().insert(x),
{
    s.to_multiset_ensures();
}

/// Sorted sequences of the same elements are equal.
pub proof fn lemma_sorted_unique(a: Seq<DistKey>, b: Seq<DistKey>)
    requires
        in_order(a),
        in_order(b),
        a.to_multiset() == b.to_multiset(),
    ensures
        a == b,
{
    let leq = |x: DistKey, y: DistKey| !dist_lt(y, x);
    assert(vstd::relations::sorted_by(a, leq));
    assert(vstd::relations::sorted_by(b, leq));
    vstd::seq_lib::lemma_sorted_unique(a, b, leq);
}

} // verus!
