//! Maps and sets kept as sorted vectors.

use vstd::prelude::*;

use crate::order::{is_outcome, is_strict_order, Order};

verus! {

/// Types with a total order on their views.
pub trait Ordered: View + Sized {
    spec fn order() -> spec_fn(Self::V, Self::V) -> bool;

    proof fn lemma_order()
        ensures
            is_strict_order(Self::order()),
    ;

    fn compare(&self, other: &Self) -> (r: Order)
        ensures
            is_outcome(r, self@, other@, Self::order()),
    ;
}

/// Every item stands before all that follow it.
pub open spec fn is_sorted<T>(s: Seq<T>, before: spec_fn(T, T) -> bool) -> bool {
    forall|i: int, j: int| 0 <= i < j < s.len() ==> before(#[trigger] s[i], #[trigger] s[j])
}

pub open spec fn keys_of<A, B>(s: Seq<(A, B)>) -> Seq<A> {
    s.map_values(|e: (A, B)| e.0)
}

/// The map that holds the listed pairs.
pub open spec fn map_of<A, B>(s: Seq<(A, B)>) -> Map<A, B> {
    Map::new(
        |k: A| keys_of(s).contains(k),
        |k: A| s[choose|i: int| 0 <= i < s.len() && keys_of(s)[i] == k].1,
    )
}

/// A sorted sequence is determined by the items that it holds.
pub proof fn lemma_sorted_unique<T>(a: Seq<T>, b: Seq<T>, before: spec_fn(T, T) -> bool)
    requires
        is_strict_order(before),
        is_sorted(a, before),
        is_sorted(b, before),
        forall|x: T| a.contains(x) <==> b.contains(x),
    ensures
        a == b,
    decreases a.len(),
{
    if a.len() == 0 {
        if b.len() > 0 {
            assert(b.contains(b[0]));
        }
        assert(a =~= b);
    } else {
        assert(a.contains(a[0]));
        let i = choose|i: int| 0 <= i < b.len() && b[i] == a[0];
        assert(b.contains(b[0]));
        let j = choose|j: int| 0 <= j < a.len() && a[j] == b[0];
        if i > 0 && j > 0 {
            assert(before(b[0], b[i]));
            assert(before(a[0], a[j]));
            assert(before(a[0], a[0]));
        }
        assert(a[0] == b[0]);
        let (s, t) = (a.drop_first(), b.drop_first());
        assert forall|x: T| s.contains(x) <==> t.contains(x) by {
            if s.contains(x) {
                let k = choose|k: int| 0 <= k < s.len() && s[k] == x;
                assert(a[k + 1] == x && before(a[0], a[k + 1]));
                assert(a.contains(x));
                let l = choose|l: int| 0 <= l < b.len() && b[l] == x;
                if l == 0 {
                    assert(before(x, x));
                }
                assert(t[l - 1] == x);
            }
            if t.contains(x) {
                let k = choose|k: int| 0 <= k < t.len() && t[k] == x;
                assert(b[k + 1] == x && before(b[0], b[k + 1]));
                assert(b.contains(x));
                let l = choose|l: int| 0 <= l < a.len() && a[l] == x;
                if l == 0 {
                    assert(before(x, x));
                }
                assert(s[l - 1] == x);
            }
        }
        lemma_sorted_unique(s, t, before);
        assert(a =~= seq![a[0]] + s);
        assert(b =~= seq![b[0]] + t);
    }
}

/// What the map of a listing with sorted keys holds.
pub proof fn lemma_map_of<A, B>(s: Seq<(A, B)>, before: spec_fn(A, A) -> bool)
    requires
        is_strict_order(before),
        is_sorted(keys_of(s), before),
    ensures
        forall|i: int|
            0 <= i < s.len() ==> map_of(s).dom().contains((#[trigger] s[i]).0) && map_of(s)[s[i].0]
                == s[i].1,
        forall|k: A| #[trigger]
            map_of(s).dom().contains(k) ==> exists|i: int|
                0 <= i < s.len() && (#[trigger] s[i]).0 == k,
{
    let ks = keys_of(s);
    assert forall|i: int| 0 <= i < s.len() implies map_of(s).dom().contains((#[trigger] s[i]).0)
        && map_of(s)[s[i].0] == s[i].1 by {
        let k = s[i].0;
        assert(ks[i] == k);
        let j = choose|j: int| 0 <= j < s.len() && keys_of(s)[j] == k;
        if i < j {
            assert(before(ks[i], ks[j]));
        } else if j < i {
            assert(before(ks[j], ks[i]));
        }
    }
    assert forall|k: A| #[trigger] map_of(s).dom().contains(k) implies exists|i: int|
        0 <= i < s.len() && (#[trigger] s[i]).0 == k by {
        let j = choose|j: int| 0 <= j < ks.len() && ks[j] == k;
        assert(s[j].0 == k);
    }
}

/// A listing with sorted keys is determined by its map.
pub proof fn lemma_listing_unique<A, B>(
    s: Seq<(A, B)>,
    t: Seq<(A, B)>,
    before: spec_fn(A, A) -> bool,
)
    requires
        is_strict_order(before),
        is_sorted(keys_of(s), before),
        is_sorted(keys_of(t), before),
        map_of(s) == map_of(t),
    ensures
        s == t,
{
    lemma_map_of(s, before);
    lemma_map_of(t, before);
    let (ks, kt) = (keys_of(s), keys_of(t));
    assert forall|x: A| ks.contains(x) <==> kt.contains(x) by {
        assert(map_of(s).dom().contains(x) <==> map_of(t).dom().contains(x));
    }
    lemma_sorted_unique(ks, kt, before);
    assert(ks.len() == s.len() && kt.len() == t.len());
    assert forall|i: int| 0 <= i < s.len() implies s[i] == t[i] by {
        assert(ks[i] == s[i].0 && kt[i] == t[i].0);
        assert(map_of(s)[s[i].0] == s[i].1);
        assert(map_of(t)[t[i].0] == t[i].1);
    }
    assert(s =~= t);
}

/// The entries of a map in the order of their keys.
pub open spec fn listing_of<A, B>(m: Map<A, B>, before: spec_fn(A, A) -> bool) -> Seq<(A, B)> {
    choose|s: Seq<(A, B)>| is_sorted(keys_of(s), before) && map_of(s) == m
}

pub proof fn lemma_listing_of<A, B>(s: Seq<(A, B)>, before: spec_fn(A, A) -> bool)
    requires
        is_strict_order(before),
        is_sorted(keys_of(s), before),
    ensures
        listing_of(map_of(s), before) == s,
{
    let t = listing_of(map_of(s), before);
    assert(is_sorted(keys_of(t), before) && map_of(t) == map_of(s));
    lemma_listing_unique(t, s, before);
}

/// The items of a set in their order.
pub open spec fn items_of<A>(m: Set<A>, before: spec_fn(A, A) -> bool) -> Seq<A> {
    choose|s: Seq<A>| is_sorted(s, before) && s.to_set() == m
}

pub proof fn lemma_items_of<A>(s: Seq<A>, m: Set<A>, before: spec_fn(A, A) -> bool)
    requires
        is_strict_order(before),
        is_sorted(s, before),
        forall|x: A| s.contains(x) <==> m.contains(x),
    ensures
        items_of(m, before) == s,
{
    assert(s.to_set() =~= m);
    let t = items_of(m, before);
    assert(is_sorted(t, before) && t.to_set() == m);
    assert forall|x: A| t.contains(x) <==> s.contains(x) by {
        assert(t.to_set().contains(x) == s.to_set().contains(x));
    }
    lemma_sorted_unique(t, s, before);
}

/// A map as a vector of entries sorted by key.
#[derive(Debug, PartialEq, Eq, Hash, PartialOrd, Ord)]
pub struct SortedMap<K: Ordered, V: View> {
    entries: Vec<(K, V)>,
}

impl<K: Ordered, V: View> View for SortedMap<K, V> {
    type V = Map<K::V, V::V>;

    open spec fn view(&self) -> Map<K::V, V::V> {
        map_of(self.listing())
    }
}

impl<K: Ordered, V: View> SortedMap<K, V> {
    /// The entries in the order of their keys.
    pub closed spec fn listing(&self) -> Seq<(K::V, V::V)> {
        self.entries@.map_values(|e: (K, V)| (e.0@, e.1@))
    }

    #[verifier::type_invariant]
    spec fn keys_sorted(&self) -> bool {
        is_sorted(keys_of(self.listing()), K::order())
    }

    pub fn new() -> (r: Self)
        ensures
            r.listing() == Seq::<(K::V, V::V)>::empty(),
            r@ == Map::<K::V, V::V>::empty(),
    {
        let r = SortedMap { entries: Vec::new() };
        assert(r@ =~= Map::<K::V, V::V>::empty());
        r
    }

    pub fn len(&self) -> (r: usize)
        ensures
            r == self.listing().len(),
            is_sorted(keys_of(self.listing()), K::order()),
    {
        proof {
            use_type_invariant(self);
        }
        self.entries.len()
    }

    pub fn key_at(&self, i: usize) -> (r: &K)
        requires
            i < self.listing().len(),
        ensures
            r@ == self.listing()[i as int].0,
    {
        &self.entries[i].0
    }

    pub fn value_at(&self, i: usize) -> (r: &V)
        requires
            i < self.listing().len(),
        ensures
            r@ == self.listing()[i as int].1,
    {
        &self.entries[i].1
    }

    /// The entries, as a slice.
    pub fn entries(&self) -> (r: &[(K, V)])
        ensures
            r@.map_values(|e: (K, V)| (e.0@, e.1@)) == self.listing(),
            is_sorted(keys_of(self.listing()), K::order()),
    {
        proof {
            use_type_invariant(self);
        }
        self.entries.as_slice()
    }

    /// The entries, sorted by key.
    pub fn into_entries(self) -> (r: Vec<(K, V)>)
        ensures
            r@.map_values(|e: (K, V)| (e.0@, e.1@)) == self.listing(),
            is_sorted(keys_of(self.listing()), K::order()),
    {
        proof {
            use_type_invariant(&self);
        }
        self.entries
    }

    /// Adds an entry whose key comes after all others.
    pub fn push(&mut self, key: K, value: V)
        requires
            forall|j: int|
                0 <= j < old(self).listing().len() ==> K::order()(
                    (#[trigger] old(self).listing()[j]).0,
                    key@,
                ),
        ensures
            final(self).listing() == old(self).listing().push((key@, value@)),
    {
        let ghost s = self.listing();
        let ghost before = K::order();
        proof {
            use_type_invariant(&*self);
        }
        let ghost k = key@;
        let ghost v = value@;
        let mut es: Vec<(K, V)> = Vec::new();
        std::mem::swap(&mut self.entries, &mut es);
        es.push((key, value));
        proof {
            let t = es@.map_values(|e: (K, V)| (e.0@, e.1@));
            assert(t =~= s.push((k, v)));
            let (ks, kt) = (keys_of(s), keys_of(t));
            assert(kt =~= ks.push(k));
            assert forall|a: int, b: int| 0 <= a < b < kt.len() implies before(
                #[trigger] kt[a],
                #[trigger] kt[b],
            ) by {
                if b < ks.len() {
                    assert(before(ks[a], ks[b]));
                } else {
                    assert(before(s[a].0, k));
                }
            }
        }
        self.entries = es;
    }

    /// Whether the key is present, and its index or the index where it belongs.
    pub fn position(&self, key: &K) -> (r: (bool, usize))
        ensures
            r.1 <= self.listing().len(),
            r.0 == self@.dom().contains(key@),
            r.0 ==> r.1 < self.listing().len() && self.listing()[r.1 as int].0 == key@,
            !r.0 ==> forall|j: int|
                0 <= j < r.1 ==> K::order()((#[trigger] self.listing()[j]).0, key@),
            !r.0 ==> forall|j: int|
                r.1 <= j < self.listing().len() ==> K::order()(
                    key@,
                    (#[trigger] self.listing()[j]).0,
                ),
    {
        proof {
            use_type_invariant(self);
            K::lemma_order();
            lemma_map_of(self.listing(), K::order());
        }
        let ghost s = self.listing();
        let ghost before = K::order();
        assert forall|a: int, b: int| 0 <= a < b < s.len() implies before(
            (#[trigger] s[a]).0,
            (#[trigger] s[b]).0,
        ) by {
            assert(before(keys_of(s)[a], keys_of(s)[b]));
        }
        let mut low: usize = 0;
        let mut high: usize = self.entries.len();
        while low < high
            invariant
                is_strict_order(before),
                before == K::order(),
                s == self.listing(),
                forall|a: int, b: int|
                    0 <= a < b < s.len() ==> before((#[trigger] s[a]).0, (#[trigger] s[b]).0),
                forall|i: int| 0 <= i < s.len() ==> self@.dom().contains((#[trigger] s[i]).0),
                low <= high <= s.len(),
                forall|j: int| 0 <= j < low ==> before((#[trigger] s[j]).0, key@),
                forall|j: int| high <= j < s.len() ==> before(key@, (#[trigger] s[j]).0),
            decreases high - low,
        {
            let mid: usize = low + (high - low) / 2;
            match self.entries[mid].0.compare(key) {
                Order::Before => {
                    assert(before(s[mid as int].0, key@));
                    low = mid + 1;
                },
                Order::After => {
                    assert(before(key@, s[mid as int].0));
                    high = mid;
                },
                Order::Same => {
                    assert(s[mid as int].0 == key@);
                    return (true, mid);
                },
            }
        }
        proof {
            if self@.dom().contains(key@) {
                let i = choose|i: int| 0 <= i < s.len() && (#[trigger] s[i]).0 == key@;
                assert(before(key@, key@));
            }
        }
        (false, low)
    }

    pub fn contains(&self, key: &K) -> (r: bool)
        ensures
            r == self@.dom().contains(key@),
    {
        self.position(key).0
    }

    pub fn get(&self, key: &K) -> (r: Option<&V>)
        ensures
            match r {
                Some(v) => self@.dom().contains(key@) && v@ == self@[key@],
                None => !self@.dom().contains(key@),
            },
    {
        let (found, i) = self.position(key);
        if found {
            proof {
                use_type_invariant(self);
                K::lemma_order();
                lemma_map_of(self.listing(), K::order());
            }
            Some(self.value_at(i))
        } else {
            None
        }
    }

    /// Puts the value under the key, in place of the one that was there.
    pub fn insert(&mut self, key: K, value: V)
        ensures
            final(self)@ == old(self)@.insert(key@, value@),
    {
        let (found, i) = self.position(&key);
        let ghost s = self.listing();
        let ghost before = K::order();
        proof {
            use_type_invariant(&*self);
            K::lemma_order();
            lemma_map_of(s, before);
        }
        let ghost k = key@;
        let ghost v = value@;
        let mut es: Vec<(K, V)> = Vec::new();
        std::mem::swap(&mut self.entries, &mut es);
        if found {
            es.set(i, (key, value));
        } else {
            es.insert(i, (key, value));
        }
        let ghost t = es@.map_values(|e: (K, V)| (e.0@, e.1@));
        proof {
            if found {
                assert(t =~= s.update(i as int, (k, v)));
                assert(keys_of(t) =~= keys_of(s));
            } else {
                assert(t =~= s.insert(i as int, (k, v)));
                assert(keys_of(t) =~= keys_of(s).insert(i as int, k));
                assert(is_sorted(keys_of(t), before)) by {
                    let (ks, kt) = (keys_of(s), keys_of(t));
                    assert forall|a: int, b: int| 0 <= a < b < kt.len() implies before(
                        #[trigger] kt[a],
                        #[trigger] kt[b],
                    ) by {
                        if a < i && b == i {
                            assert(before(s[a].0, k));
                        } else if a == i {
                            assert(before(k, s[b - 1].0));
                        } else if b < i {
                            assert(before(ks[a], ks[b]));
                        } else if a < i {
                            assert(before(ks[a], ks[b - 1]));
                        } else {
                            assert(before(ks[a - 1], ks[b - 1]));
                        }
                    }
                }
            }
            lemma_map_of(t, before);
            let (m, n) = (map_of(s), map_of(t));
            assert(t[i as int] == (k, v));
            assert forall|x: K::V| n.dom().contains(x) <==> m.insert(k, v).dom().contains(x) by {
                if n.dom().contains(x) && x != k {
                    let j = choose|j: int| 0 <= j < t.len() && (#[trigger] t[j]).0 == x;
                    let o = if found || j < i {
                        j
                    } else {
                        j - 1
                    };
                    assert(s[o] == t[j]);
                }
                if m.dom().contains(x) && x != k {
                    let j = choose|j: int| 0 <= j < s.len() && (#[trigger] s[j]).0 == x;
                    let o = if found || j < i {
                        j
                    } else {
                        j + 1
                    };
                    assert(t[o] == s[j]);
                }
            }
            assert forall|x: K::V| n.dom().contains(x) implies #[trigger] n[x] == m.insert(k, v)[x] by {
                if x != k {
                    let j = choose|j: int| 0 <= j < t.len() && (#[trigger] t[j]).0 == x;
                    let o = if found || j < i {
                        j
                    } else {
                        j - 1
                    };
                    assert(s[o] == t[j]);
                }
            }
            assert(n =~= m.insert(k, v));
        }
        self.entries = es;
    }

    /// Exchanges the value of an entry.
    pub fn swap_value(&mut self, i: usize, value: &mut V)
        requires
            i < old(self).listing().len(),
        ensures
            final(self).listing() == old(self).listing().update(
                i as int,
                (old(self).listing()[i as int].0, old(value)@),
            ),
            final(value)@ == old(self).listing()[i as int].1,
            final(self)@ == old(self)@.insert(old(self).listing()[i as int].0, old(value)@),
            old(self)@.dom().contains(old(self).listing()[i as int].0),
            old(self)@[old(self).listing()[i as int].0] == old(self).listing()[i as int].1,
    {
        let ghost s = self.listing();
        let ghost before = K::order();
        let ghost k = s[i as int].0;
        let ghost v = value@;
        proof {
            use_type_invariant(&*self);
            K::lemma_order();
            lemma_map_of(s, before);
        }
        let mut es: Vec<(K, V)> = Vec::new();
        std::mem::swap(&mut self.entries, &mut es);
        std::mem::swap(&mut es[i].1, value);
        let ghost t = es@.map_values(|e: (K, V)| (e.0@, e.1@));
        proof {
            assert(t =~= s.update(i as int, (k, v)));
            assert(keys_of(t) =~= keys_of(s));
            lemma_map_of(t, before);
            let (m, n) = (map_of(s), map_of(t));
            assert(s[i as int].0 == k);
            assert(n.dom() =~= m.insert(k, v).dom());
            assert forall|x: K::V| n.dom().contains(x) implies #[trigger] n[x] == m.insert(k, v)[x] by {
                let j = choose|j: int| 0 <= j < t.len() && (#[trigger] t[j]).0 == x;
                if x != k {
                    assert(s[j] == t[j]);
                } else {
                    assert(t[i as int].0 == k);
                }
            }
            assert(n =~= m.insert(k, v));
        }
        self.entries = es;
    }

    /// Takes an entry out.
    pub fn remove_at(&mut self, i: usize)
        requires
            i < old(self).listing().len(),
        ensures
            final(self).listing() == old(self).listing().remove(i as int),
            final(self)@ == old(self)@.remove(old(self).listing()[i as int].0),
    {
        let ghost s = self.listing();
        let ghost before = K::order();
        let ghost k = s[i as int].0;
        proof {
            use_type_invariant(&*self);
            K::lemma_order();
            lemma_map_of(s, before);
        }
        let mut es: Vec<(K, V)> = Vec::new();
        std::mem::swap(&mut self.entries, &mut es);
        es.remove(i);
        let ghost t = es@.map_values(|e: (K, V)| (e.0@, e.1@));
        proof {
            assert(t =~= s.remove(i as int));
            let (ks, kt) = (keys_of(s), keys_of(t));
            assert(kt =~= ks.remove(i as int));
            assert forall|a: int, b: int| 0 <= a < b < kt.len() implies before(
                #[trigger] kt[a],
                #[trigger] kt[b],
            ) by {
                let x = if a < i {
                    a
                } else {
                    a + 1
                };
                let y = if b < i {
                    b
                } else {
                    b + 1
                };
                assert(before(ks[x], ks[y]));
            }
            lemma_map_of(t, before);
            let (m, n) = (map_of(s), map_of(t));
            assert forall|x: K::V| n.dom().contains(x) <==> m.remove(k).dom().contains(x) by {
                if n.dom().contains(x) {
                    let j = choose|j: int| 0 <= j < t.len() && (#[trigger] t[j]).0 == x;
                    let o = if j < i {
                        j
                    } else {
                        j + 1
                    };
                    assert(s[o] == t[j]);
                    if x == k {
                        assert(before(ks[o], ks[i as int]) || before(ks[i as int], ks[o]));
                        assert(before(x, x));
                    }
                }
                if m.dom().contains(x) && x != k {
                    let j = choose|j: int| 0 <= j < s.len() && (#[trigger] s[j]).0 == x;
                    let o = if j < i {
                        j
                    } else {
                        j - 1
                    };
                    assert(t[o] == s[j]);
                }
            }
            assert forall|x: K::V| n.dom().contains(x) implies #[trigger] n[x] == m.remove(k)[x] by {
                let j = choose|j: int| 0 <= j < t.len() && (#[trigger] t[j]).0 == x;
                let o = if j < i {
                    j
                } else {
                    j + 1
                };
                assert(s[o] == t[j]);
            }
            assert(n =~= m.remove(k));
        }
        self.entries = es;
    }
}

/// A set as a sorted vector.
#[derive(Debug, PartialEq, Eq, Hash, PartialOrd, Ord)]
pub struct SortedSet<K: Ordered> {
    items: SortedMap<K, ()>,
}

impl<K: Ordered> View for SortedSet<K> {
    type V = Set<K::V>;

    closed spec fn view(&self) -> Set<K::V> {
        self.items@.dom()
    }
}

impl<K: Ordered> SortedSet<K> {
    /// The items in their order.
    pub closed spec fn listing(&self) -> Seq<K::V> {
        keys_of(self.items.listing())
    }

    pub fn new() -> (r: Self)
        ensures
            r@ == Set::<K::V>::empty(),
    {
        let r = SortedSet { items: SortedMap::new() };
        assert(r@ =~= Set::<K::V>::empty());
        r
    }

    pub fn len(&self) -> (r: usize)
        ensures
            r == self.listing().len(),
            is_sorted(self.listing(), K::order()),
            forall|x: K::V| self.listing().contains(x) <==> #[trigger] self@.contains(x),
    {
        self.items.len()
    }

    pub fn item_at(&self, i: usize) -> (r: &K)
        requires
            i < self.listing().len(),
        ensures
            r@ == self.listing()[i as int],
    {
        self.items.key_at(i)
    }

    pub fn contains(&self, item: &K) -> (r: bool)
        ensures
            r == self@.contains(item@),
    {
        self.items.contains(item)
    }

    pub fn insert(&mut self, item: K)
        ensures
            final(self)@ == old(self)@.insert(item@),
    {
        self.items.insert(item, ());
        assert(self@ =~= old(self)@.insert(item@));
    }
}

} // verus!
