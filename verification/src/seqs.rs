//! Facts about sequences.

use vstd::prelude::*;

verus! {

/// What a longer sequence holds.
pub(crate) proof fn lemma_contains_push<A>(s: Seq<A>, x: A)
    ensures
        forall|y: A| #[trigger] s.push(x).contains(y) <==> s.contains(y) || x == y,
{
    assert forall|y: A| #[trigger] s.push(x).contains(y) <==> s.contains(y) || x == y by {
        let t = s.push(x);
        if s.contains(y) {
            let i = choose|i: int| 0 <= i < s.len() && s[i] == y;
            assert(t[i] == y);
        }
        if x == y {
            assert(t[s.len() as int] == y);
        }
        if t.contains(y) {
            let i = choose|i: int| 0 <= i < t.len() && t[i] == y;
            if i < s.len() {
                assert(s[i] == y);
            }
        }
    }
}

/// Two sequences in the same strict order that hold the same are equal.
pub(crate) proof fn lemma_ordered_unique<A>(a: Seq<A>, b: Seq<A>, lt: spec_fn(A, A) -> bool)
    requires
        forall|i: int, j: int| 0 <= i < j < a.len() ==> lt(#[trigger] a[i], #[trigger] a[j]),
        forall|i: int, j: int| 0 <= i < j < b.len() ==> lt(#[trigger] b[i], #[trigger] b[j]),
        forall|x: A| #[trigger] a.contains(x) <==> b.contains(x),
        forall|x: A, y: A| #[trigger] lt(x, y) ==> !lt(y, x),
    ensures
        a == b,
    decreases a.len(),
{
    if a.len() == 0 {
        if b.len() > 0 {
            assert(b.contains(b[0]));
            assert(a.contains(b[0]));
        }
        assert(a =~= b);
    } else {
        let x = a.last();
        assert(a.contains(x));
        assert(b.contains(x));
        let y = b.last();
        assert(b.contains(y));
        assert(a.contains(y));
        let i = b.index_of(x);
        let j = a.index_of(y);
        if x != y {
            assert(lt(b[i], b[b.len() - 1]));
            assert(lt(a[j], a[a.len() - 1]));
        }
        let p = a.drop_last();
        let q = b.drop_last();
        assert forall|z: A| #[trigger] p.contains(z) <==> q.contains(z) by {
            if p.contains(z) {
                let k = p.index_of(z);
                assert(a[k] == z);
                assert(lt(a[k], a[a.len() - 1]));
                assert(a.contains(z));
                let m = b.index_of(z);
                assert(m < b.len() - 1);
                assert(q[m] == z);
            }
            if q.contains(z) {
                let k = q.index_of(z);
                assert(b[k] == z);
                assert(lt(b[k], b[b.len() - 1]));
                assert(b.contains(z));
                assert(a.contains(z));
                let m = a.index_of(z);
                assert(m < a.len() - 1);
                assert(p[m] == z);
            }
        }
        lemma_ordered_unique(p, q, lt);
        assert(a =~= p.push(x));
        assert(b =~= q.push(y));
    }
}

} // verus!
