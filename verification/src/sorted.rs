//! Ordered maps and sets keyed by integer triples.
//!
//! Entries are kept in one vector in ascending key order, so that lookups are
//! binary searches and iteration is deterministic.

use vstd::prelude::*;

verus! {

/// A key.
pub type Key = (i64, i64, i64);

/// Lexicographic order.
pub open spec fn key_lt(a: Key, b: Key) -> bool {
    a.0 < b.0 || (a.0 == b.0 && (a.1 < b.1 || (a.1 == b.1 && a.2 < b.2)))
}

#[inline]
pub(crate) fn key_less(a: Key, b: Key) -> (r: bool)
    ensures
        r == key_lt(a, b),
{
    a.0 < b.0 || (a.0 == b.0 && (a.1 < b.1 || (a.1 == b.1 && a.2 < b.2)))
}

/// A map from keys to values.
#[derive(Debug)]
pub struct SortedMap<V> {
    entries: Vec<(Key, V)>,
}

spec fn ascending<V>(s: Seq<(Key, V)>) -> bool {
    forall|i: int, j: int| 0 <= i < j < s.len() ==> key_lt(#[trigger] s[i].0, #[trigger] s[j].0)
}

/// `k` is the key of some entry.
spec fn holds<V>(s: Seq<(Key, V)>, k: Key) -> bool {
    exists|i: int| 0 <= i < s.len() && #[trigger] s[i].0 == k
}

spec fn place<V>(s: Seq<(Key, V)>, k: Key) -> int {
    choose|i: int| 0 <= i < s.len() && #[trigger] s[i].0 == k
}

spec fn as_map<V>(s: Seq<(Key, V)>) -> Map<Key, V> {
    Map::new(|k: Key| holds(s, k), |k: Key| s[place(s, k)].1)
}

proof fn lemma_place<V>(s: Seq<(Key, V)>, i: int)
    requires
        ascending(s),
        0 <= i < s.len(),
    ensures
        holds(s, s[i].0),
        place(s, s[i].0) == i,
        as_map(s).dom().contains(s[i].0),
        as_map(s)[s[i].0] == s[i].1,
{
    let k = s[i].0;
    let p = place(s, k);
    assert(s[i].0 == k);
    assert(0 <= p < s.len() && s[p].0 == k);
    if p < i {
        assert(key_lt(s[p].0, s[i].0));
    } else if i < p {
        assert(key_lt(s[i].0, s[p].0));
    }
}

proof fn lemma_keys_listed<V>(m: SortedMap<V>)
    requires
        ascending(m.entries@),
    ensures
        m.keys_listed(),
{
    let keys = m.keys();
    let s = m.entries@;
    assert forall|i: int, j: int| 0 <= i < j < keys.len() implies key_lt(
        #[trigger] keys[i],
        #[trigger] keys[j],
    ) by {
        assert(key_lt(s[i].0, s[j].0));
    }
    assert forall|k: Key| #[trigger] m@.dom().contains(k) <==> keys.contains(k) by {
        if holds(s, k) {
            let i = place(s, k);
            assert(keys[i] == k);
        }
        if keys.contains(k) {
            let i = choose|i: int| 0 <= i < keys.len() && keys[i] == k;
            assert(s[i].0 == k);
        }
    }
    assert(keys.no_duplicates()) by {
        assert forall|i: int, j: int| 0 <= i < keys.len() && 0 <= j < keys.len() && i
            != j implies keys[i] != keys[j] by {
            if i < j {
                assert(key_lt(keys[i], keys[j]));
            } else {
                assert(key_lt(keys[j], keys[i]));
            }
        }
    }
    assert(m@.dom() =~= keys.to_set());
    keys.unique_seq_to_set();
}

proof fn lemma_same_keys<V>(a: Seq<(Key, V)>, b: Seq<(Key, V)>, i: int)
    requires
        ascending(a),
        0 <= i < a.len(),
        b == a.update(i, (a[i].0, b[i].1)),
        b.len() == a.len(),
    ensures
        ascending(b),
        as_map(b) == as_map(a).insert(a[i].0, b[i].1),
{
    assert forall|p: int, q: int| 0 <= p < q < b.len() implies key_lt(
        #[trigger] b[p].0,
        #[trigger] b[q].0,
    ) by {
        assert(key_lt(a[p].0, a[q].0));
    }
    assert forall|k: Key| holds(b, k) == holds(a, k) by {
        if holds(a, k) {
            assert(b[place(a, k)].0 == k);
        }
        if holds(b, k) {
            assert(a[place(b, k)].0 == k);
        }
    }
    lemma_place(a, i);
    let m = as_map(a).insert(a[i].0, b[i].1);
    assert forall|k: Key| holds(b, k) implies as_map(b)[k] == m[k] by {
        let p = place(b, k);
        lemma_place(b, p);
        lemma_place(a, p);
    }
    assert(as_map(b) =~= m);
}

proof fn lemma_inserted<V>(a: Seq<(Key, V)>, i: int, k: Key, v: V)
    requires
        ascending(a),
        0 <= i <= a.len(),
        forall|j: int| 0 <= j < i ==> key_lt(#[trigger] a[j].0, k),
        forall|j: int| i <= j < a.len() ==> key_lt(k, #[trigger] a[j].0),
    ensures
        ascending(a.insert(i, (k, v))),
        as_map(a.insert(i, (k, v))) == as_map(a).insert(k, v),
{
    let b = a.insert(i, (k, v));
    assert forall|j: int| 0 <= j < b.len() implies #[trigger] b[j] == (if j < i {
        a[j]
    } else if j == i {
        (k, v)
    } else {
        a[j - 1]
    }) by {}
    assert forall|p: int, q: int| 0 <= p < q < b.len() implies key_lt(
        #[trigger] b[p].0,
        #[trigger] b[q].0,
    ) by {
        let pa = if p < i {
            p
        } else {
            p - 1
        };
        let qa = if q < i {
            q
        } else {
            q - 1
        };
        if p != i && q != i {
            assert(key_lt(a[pa].0, a[qa].0));
        } else if p == i {
            assert(key_lt(k, a[qa].0));
        } else {
            assert(key_lt(a[pa].0, k));
        }
    }
    let m = as_map(a).insert(k, v);
    assert forall|c: Key| holds(b, c) == m.dom().contains(c) by {
        if holds(a, c) {
            let p = place(a, c);
            let q = if p < i {
                p
            } else {
                p + 1
            };
            assert(b[q].0 == c);
        }
        if c == k {
            assert(b[i].0 == c);
        }
        if holds(b, c) {
            let q = place(b, c);
            if q < i {
                assert(a[q].0 == c);
            } else if q > i {
                assert(a[q - 1].0 == c);
            }
        }
    }
    assert forall|c: Key| holds(b, c) implies as_map(b)[c] == m[c] by {
        let q = place(b, c);
        lemma_place(b, q);
        if q < i {
            lemma_place(a, q);
        } else if q > i {
            lemma_place(a, q - 1);
        }
    }
    assert(as_map(b) =~= m);
}

proof fn lemma_removed<V>(a: Seq<(Key, V)>, i: int)
    requires
        ascending(a),
        0 <= i < a.len(),
    ensures
        ascending(a.remove(i)),
        as_map(a.remove(i)) == as_map(a).remove(a[i].0),
{
    let b = a.remove(i);
    assert forall|j: int| 0 <= j < b.len() implies #[trigger] b[j] == (if j < i {
        a[j]
    } else {
        a[j + 1]
    }) by {}
    assert forall|p: int, q: int| 0 <= p < q < b.len() implies key_lt(
        #[trigger] b[p].0,
        #[trigger] b[q].0,
    ) by {
        let pa = if p < i {
            p
        } else {
            p + 1
        };
        let qa = if q < i {
            q
        } else {
            q + 1
        };
        assert(key_lt(a[pa].0, a[qa].0));
    }
    let m = as_map(a).remove(a[i].0);
    lemma_place(a, i);
    assert forall|c: Key| holds(b, c) == m.dom().contains(c) by {
        if holds(a, c) && c != a[i].0 {
            let p = place(a, c);
            let q = if p < i {
                p
            } else {
                p - 1
            };
            assert(b[q].0 == c);
        }
        if holds(b, c) {
            let q = place(b, c);
            let p = if q < i {
                q
            } else {
                q + 1
            };
            lemma_place(a, p);
        }
    }
    assert forall|c: Key| holds(b, c) implies as_map(b)[c] == m[c] by {
        let q = place(b, c);
        lemma_place(b, q);
        let p = if q < i {
            q
        } else {
            q + 1
        };
        lemma_place(a, p);
    }
    assert(as_map(b) =~= m);
}

impl<V> View for SortedMap<V> {
    type V = Map<Key, V>;

    closed spec fn view(&self) -> Map<Key, V> {
        as_map(self.entries@)
    }
}

impl<V> SortedMap<V> {
    #[verifier::type_invariant]
    spec fn inv(self) -> bool {
        ascending(self.entries@)
    }

    /// The keys, in order.
    pub closed spec fn keys(self) -> Seq<Key> {
        self.entries@.map_values(|e: (Key, V)| e.0)
    }

    /// The keys are those of the map, each once and in order.
    pub open spec fn keys_listed(self) -> bool {
        &&& forall|i: int, j: int|
            0 <= i < j < self.keys().len() ==> key_lt(
                #[trigger] self.keys()[i],
                #[trigger] self.keys()[j],
            )
        &&& forall|k: Key| #[trigger] self@.dom().contains(k) <==> self.keys().contains(k)
        &&& self.keys().no_duplicates()
        &&& self@.dom() =~= self.keys().to_set()
        &&& self@.dom().finite()
        &&& self@.dom().len() == self.keys().len()
    }

    pub fn new() -> (r: Self)
        ensures
            r@ == Map::<Key, V>::empty(),
    {
        let r = SortedMap { entries: Vec::new() };
        assert(r@ =~= Map::<Key, V>::empty());
        r
    }

    /// Number of entries.
    pub fn len(&self) -> (n: usize)
        ensures
            n == self.keys().len(),
            n == self@.dom().len(),
            self.keys_listed(),
    {
        proof {
            use_type_invariant(self);
            lemma_keys_listed(*self);
        }
        self.entries.len()
    }

    pub fn is_empty(&self) -> (r: bool)
        ensures
            r == (self@.dom() =~= Set::<Key>::empty()),
            r == (self.keys().len() == 0),
            self.keys_listed(),
    {
        proof {
            use_type_invariant(self);
            lemma_keys_listed(*self);
            if self.entries.len() > 0 {
                assert(self.keys()[0] == self.entries[0].0);
                assert(self.keys().contains(self.keys()[0]));
            }
        }
        self.entries.len() == 0
    }

    /// The key at place `i` of the order.
    pub fn key_at(&self, i: usize) -> (k: Key)
        requires
            i < self.keys().len(),
        ensures
            k == self.keys()[i as int],
            self@.dom().contains(k),
    {
        proof {
            use_type_invariant(self);
            lemma_place(self.entries@, i as int);
        }
        self.entries[i].0
    }

    /// The value at place `i` of the order.
    pub fn value_at(&self, i: usize) -> (v: &V)
        requires
            i < self.keys().len(),
        ensures
            *v == self@[self.keys()[i as int]],
    {
        proof {
            use_type_invariant(self);
            lemma_place(self.entries@, i as int);
        }
        &self.entries[i].1
    }

    /// The place of `k`, or the place where it would go.
    fn search(&self, k: Key) -> (r: (usize, bool))
        ensures
            r.0 <= self.entries.len(),
            r.1 == self@.dom().contains(k),
            r.1 ==> r.0 < self.entries.len() && self.entries[r.0 as int].0 == k
                && self.entries[r.0 as int].1 == self@[k],
            forall|i: int| 0 <= i < r.0 ==> key_lt(#[trigger] self.entries[i].0, k),
            !r.1 ==> forall|i: int|
                r.0 <= i < self.entries.len() ==> key_lt(k, #[trigger] self.entries[i].0),
    {
        proof {
            use_type_invariant(self);
        }
        let mut lo: usize = 0;
        let mut hi: usize = self.entries.len();
        while lo < hi
            invariant
                lo <= hi <= self.entries.len(),
                ascending(self.entries@),
                forall|i: int| 0 <= i < lo ==> key_lt(#[trigger] self.entries[i].0, k),
                forall|i: int|
                    hi <= i < self.entries.len() ==> !key_lt(#[trigger] self.entries[i].0, k),
            decreases hi - lo,
        {
            let mid: usize = lo + (hi - lo) / 2;
            if key_less(self.entries[mid].0, k) {
                lo = mid + 1;
            } else {
                hi = mid;
            }
        }
        let found: bool = lo < self.entries.len() && !key_less(k, self.entries[lo].0);
        proof {
            if found {
                lemma_place(self.entries@, lo as int);
            } else {
                assert forall|i: int| lo <= i < self.entries.len() implies key_lt(
                    k,
                    #[trigger] self.entries[i].0,
                ) by {
                    assert(!key_lt(self.entries[i].0, k));
                    if i > lo {
                        assert(key_lt(self.entries[lo as int].0, self.entries[i].0));
                    }
                }
                if self@.dom().contains(k) {
                    let p = place(self.entries@, k);
                    assert(self.entries[p].0 == k);
                }
            }
        }
        (lo, found)
    }

    pub fn contains(&self, k: Key) -> (r: bool)
        ensures
            r == self@.dom().contains(k),
    {
        self.search(k).1
    }

    pub fn get(&self, k: Key) -> (r: Option<&V>)
        ensures
            match r {
                Some(v) => self@.dom().contains(k) && *v == self@[k],
                None => !self@.dom().contains(k),
            },
    {
        let (i, found) = self.search(k);
        if found {
            Some(&self.entries[i].1)
        } else {
            None
        }
    }

    /// How many keys come before `k`.
    pub fn rank(&self, k: Key) -> (r: usize)
        ensures
            r <= self.keys().len(),
            forall|i: int| 0 <= i < r ==> key_lt(#[trigger] self.keys()[i], k),
            forall|i: int| r <= i < self.keys().len() ==> !key_lt(#[trigger] self.keys()[i], k),
            self.keys_listed(),
    {
        proof {
            use_type_invariant(self);
            lemma_keys_listed(*self);
        }
        let (i, found) = self.search(k);
        proof {
            assert forall|j: int| i <= j < self.keys().len() implies !key_lt(
                #[trigger] self.keys()[j],
                k,
            ) by {
                if found && j > i {
                    assert(key_lt(self.entries[i as int].0, self.entries[j].0));
                }
            }
        }
        i
    }

    /// Sets the value of `k`, handing back the one it had.
    pub fn insert(&mut self, k: Key, v: V) -> (r: Option<V>)
        ensures
            final(self)@ == old(self)@.insert(k, v),
            match r {
                Some(w) => old(self)@.dom().contains(k) && w == old(self)@[k],
                None => !old(self)@.dom().contains(k),
            },
    {
        proof {
            use_type_invariant(&*self);
        }
        let ghost before = self.entries@;
        let (i, found) = self.search(k);
        let mut entries: Vec<(Key, V)> = Vec::new();
        core::mem::swap(&mut self.entries, &mut entries);
        if found {
            let mut slot = v;
            core::mem::swap(&mut entries[i].1, &mut slot);
            assert(entries@ =~= before.update(i as int, (k, v)));
            self.entries = entries;
            assert forall|j: int| 0 <= j < self.entries.len() implies #[trigger] self.entries[j].0
                == before[j].0 by {}
            proof {
                lemma_same_keys(before, self.entries@, i as int);
            }
            Some(slot)
        } else {
            entries.insert(i, (k, v));
            assert(entries@ == before.insert(i as int, (k, v)));
            proof {
                lemma_inserted(before, i as int, k, v);
            }
            self.entries = entries;
            None
        }
    }

    /// Removes `k`, handing back its value.
    pub fn remove(&mut self, k: Key) -> (r: Option<V>)
        ensures
            final(self)@ == old(self)@.remove(k),
            match r {
                Some(w) => old(self)@.dom().contains(k) && w == old(self)@[k],
                None => !old(self)@.dom().contains(k),
            },
    {
        proof {
            use_type_invariant(&*self);
        }
        let ghost before = self.entries@;
        let (i, found) = self.search(k);
        if found {
            let mut entries: Vec<(Key, V)> = Vec::new();
            core::mem::swap(&mut self.entries, &mut entries);
            let e = entries.remove(i);
            proof {
                lemma_removed(before, i as int);
            }
            self.entries = entries;
            Some(e.1)
        } else {
            assert(self@.remove(k) =~= self@);
            None
        }
    }

    /// Exchanges the value of `k` with `v`.
    pub fn exchange(&mut self, k: Key, v: &mut V)
        requires
            old(self)@.dom().contains(k),
        ensures
            final(self)@ == old(self)@.insert(k, *old(v)),
            *final(v) == old(self)@[k],
    {
        proof {
            use_type_invariant(&*self);
        }
        let ghost before = self.entries@;
        let ghost put = *v;
        let (i, _found) = self.search(k);
        let mut entries: Vec<(Key, V)> = Vec::new();
        core::mem::swap(&mut self.entries, &mut entries);
        core::mem::swap(&mut entries[i].1, v);
        assert(entries@ =~= before.update(i as int, (k, put)));
        proof {
            lemma_same_keys(before, entries@, i as int);
        }
        self.entries = entries;
    }

    pub fn clear(&mut self)
        ensures
            final(self)@ == Map::<Key, V>::empty(),
    {
        self.entries = Vec::new();
        assert(self@ =~= Map::<Key, V>::empty());
    }

    /// The keys are in order (see [`SortedMap::keys_listed`]).
    pub fn list_keys(&self) -> (r: Vec<Key>)
        ensures
            r@ == self.keys(),
            self.keys_listed(),
    {
        let mut out: Vec<Key> = Vec::new();
        let mut i: usize = 0;
        while i < self.entries.len()
            invariant
                i <= self.entries.len(),
                out@ == self.keys().take(i as int),
            decreases self.entries.len() - i,
        {
            out.push(self.entries[i].0);
            assert(out@ =~= self.keys().take(i + 1));
            i += 1;
        }
        proof {
            use_type_invariant(self);
            lemma_keys_listed(*self);
        }
        assert(out@ =~= self.keys());
        out
    }
}

/// A set of keys.
#[derive(Debug)]
pub struct SortedSet {
    map: SortedMap<()>,
}

impl View for SortedSet {
    type V = Set<Key>;

    closed spec fn view(&self) -> Set<Key> {
        self.map@.dom()
    }
}

impl SortedSet {
    /// The elements, in order.
    pub closed spec fn keys(self) -> Seq<Key> {
        self.map.keys()
    }

    /// The listed keys are those of the set, each once and in order.
    pub open spec fn keys_listed(self) -> bool {
        &&& forall|i: int, j: int|
            0 <= i < j < self.keys().len() ==> key_lt(
                #[trigger] self.keys()[i],
                #[trigger] self.keys()[j],
            )
        &&& forall|k: Key| #[trigger] self@.contains(k) <==> self.keys().contains(k)
        &&& self.keys().no_duplicates()
        &&& self@ =~= self.keys().to_set()
        &&& self@.finite()
        &&& self@.len() == self.keys().len()
    }

    pub fn new() -> (r: Self)
        ensures
            r@ == Set::<Key>::empty(),
    {
        let r = SortedSet { map: SortedMap::new() };
        assert(r@ =~= Set::<Key>::empty());
        r
    }

    pub fn len(&self) -> (n: usize)
        ensures
            n == self@.len(),
            n == self.keys().len(),
            self.keys_listed(),
    {
        self.map.len()
    }

    pub fn is_empty(&self) -> (r: bool)
        ensures
            r == (self@ =~= Set::<Key>::empty()),
            r == (self.keys().len() == 0),
            self.keys_listed(),
    {
        self.map.is_empty()
    }

    pub fn contains(&self, k: Key) -> (r: bool)
        ensures
            r == self@.contains(k),
    {
        self.map.contains(k)
    }

    /// Adds `k`; says whether it was missing.
    pub fn insert(&mut self, k: Key) -> (r: bool)
        ensures
            final(self)@ == old(self)@.insert(k),
            r == !old(self)@.contains(k),
    {
        let was = self.map.insert(k, ());
        assert(self@ =~= old(self)@.insert(k));
        was.is_none()
    }

    /// Removes `k`; says whether it was there.
    pub fn remove(&mut self, k: Key) -> (r: bool)
        ensures
            final(self)@ == old(self)@.remove(k),
            r == old(self)@.contains(k),
    {
        let was = self.map.remove(k);
        assert(self@ =~= old(self)@.remove(k));
        was.is_some()
    }

    pub fn clear(&mut self)
        ensures
            final(self)@ == Set::<Key>::empty(),
    {
        self.map.clear();
        assert(self@ =~= Set::<Key>::empty());
    }

    /// The element at place `i` of the order.
    pub fn key_at(&self, i: usize) -> (k: Key)
        requires
            i < self.keys().len(),
        ensures
            k == self.keys()[i as int],
            self@.contains(k),
    {
        self.map.key_at(i)
    }

    /// The elements in order.
    pub fn list_keys(&self) -> (r: Vec<Key>)
        ensures
            r@ == self.keys(),
            self.keys_listed(),
    {
        self.map.list_keys()
    }
}

} // verus!
