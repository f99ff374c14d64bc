//! A map and a set that keep their keys in order.

use crate::value::{Key, Order, Value};
use vstd::prelude::*;

verus! {

/// The keys of `s` rise strictly, so none occurs twice.
pub open spec fn rising<K: Key, B>(s: Seq<(K::V, B)>) -> bool {
    forall|i: int, j: int| 0 <= i < j < s.len() ==> K::before(#[trigger] s[i].0, #[trigger] s[j].0)
}

/// `s` holds an entry for `k`.
pub open spec fn has_key<A, B>(s: Seq<(A, B)>, k: A) -> bool {
    exists|i: int| 0 <= i < s.len() && (#[trigger] s[i]).0 == k
}

/// The position of an entry for `k`.
pub open spec fn place_of<A, B>(s: Seq<(A, B)>, k: A) -> int {
    choose|i: int| 0 <= i < s.len() && (#[trigger] s[i]).0 == k
}

/// The map that a sequence of entries stands for.
pub open spec fn map_of<A, B>(s: Seq<(A, B)>) -> Map<A, B> {
    Map::new(|k: A| has_key(s, k), |k: A| s[place_of(s, k)].1)
}

/// `s` lists the entries of `m`, in key order.
pub open spec fn lists<K: Key, B>(s: Seq<(K::V, B)>, m: Map<K::V, B>) -> bool {
    rising::<K, B>(s) && m == map_of(s)
}

/// The entries of `m` in key order.
pub open spec fn pairs_of<K: Key, B>(m: Map<K::V, B>) -> Seq<(K::V, B)> {
    choose|s: Seq<(K::V, B)>| lists::<K, B>(s, m)
}

/// A part of a rising sequence rises.
pub proof fn lemma_part_rises<K: Key, B>(s: Seq<(K::V, B)>, f: spec_fn((K::V, B)) -> bool)
    requires
        rising::<K, B>(s),
    ensures
        rising::<K, B>(s.filter(f)),
    decreases s.len(),
{
    reveal(Seq::filter);
    if s.len() > 0 {
        let t = s.drop_last();
        assert(rising::<K, B>(t)) by {
            assert forall|i: int, j: int| 0 <= i < j < t.len() implies K::before(
                #[trigger] t[i].0,
                #[trigger] t[j].0,
            ) by {
                assert(K::before(s[i].0, s[j].0));
            }
        }
        lemma_part_rises::<K, B>(t, f);
        let r = t.filter(f);
        if f(s.last()) {
            let w = s.filter(f);
            assert forall|i: int, j: int| 0 <= i < j < w.len() implies K::before(
                #[trigger] w[i].0,
                #[trigger] w[j].0,
            ) by {
                assert(w[i] == r[i]);
                if j == r.len() {
                    assert(r.contains(r[i]));
                    crate::seqs::lemma_filter_contains(t, f, r[i]);
                    let k = choose|k: int| 0 <= k < t.len() && t[k] == r[i];
                    assert(K::before(s[k].0, s[s.len() - 1].0));
                } else {
                    assert(w[j] == r[j]);
                    assert(K::before(r[i].0, r[j].0));
                }
            }
        }
    }
}

/// In a rising sequence every entry is the one that its key finds.
pub proof fn lemma_entry<K: Key, B>(s: Seq<(K::V, B)>, i: int)
    requires
        rising::<K, B>(s),
        0 <= i < s.len(),
    ensures
        map_of(s).contains_key(s[i].0),
        map_of(s)[s[i].0] == s[i].1,
        place_of(s, s[i].0) == i,
{
    let k = s[i].0;
    assert(has_key(s, k));
    let p = place_of(s, k);
    if p != i {
        if p < i {
            assert(K::before(s[p].0, s[i].0));
        } else {
            assert(K::before(s[i].0, s[p].0));
        }
        K::before_irreflexive(k);
    }
}

/// One of the first `i` entries has the key `k`.
pub open spec fn among<A, B>(s: Seq<(A, B)>, i: int, k: A) -> bool {
    exists|j: int| 0 <= j < i && (#[trigger] s[j]).0 == k
}

/// How [`among`] grows along a rising sequence.
pub proof fn lemma_among<K: Key, B>(s: Seq<(K::V, B)>, i: int)
    requires
        rising::<K, B>(s),
        0 <= i <= s.len(),
    ensures
        forall|k: K::V| !#[trigger] among(s, 0, k),
        i < s.len() ==> !among(s, i, s[i].0),
        i < s.len() ==> forall|k: K::V| #[trigger] among(s, i + 1, k) <==> among(s, i, k) || s[i].0 == k,
        forall|k: K::V| #[trigger] among(s, s.len() as int, k) <==> map_of(s).contains_key(k),
{
    if i < s.len() {
        if among(s, i, s[i].0) {
            let j = choose|j: int| 0 <= j < i && (#[trigger] s[j]).0 == s[i].0;
            assert(K::before(s[j].0, s[i].0));
            K::before_irreflexive(s[i].0);
        }
        assert forall|k: K::V| #[trigger] among(s, i + 1, k) <==> among(s, i, k) || s[i].0 == k by {
            if s[i].0 == k {
                assert(among(s, i + 1, k));
            }
            if among(s, i, k) {
                let j = choose|j: int| 0 <= j < i && (#[trigger] s[j]).0 == k;
                assert(s[j].0 == k);
            }
        }
    }
    assert forall|k: K::V| #[trigger] among(s, s.len() as int, k) <==> map_of(s).contains_key(k) by {
        if has_key(s, k) {
            let j = place_of(s, k);
            assert(s[j].0 == k);
        }
        if among(s, s.len() as int, k) {
            let j = choose|j: int| 0 <= j < s.len() && (#[trigger] s[j]).0 == k;
            assert(has_key(s, k));
        }
    }
}

/// A sequence of entries stands for a map with finitely many keys.
pub proof fn lemma_finite<A, B>(s: Seq<(A, B)>)
    ensures
        map_of(s).dom().finite(),
{
    let keys = s.map_values(|p: (A, B)| p.0);
    vstd::seq_lib::seq_to_set_is_finite(keys);
    assert forall|k: A| map_of(s).dom().contains(k) implies keys.to_set().contains(k) by {
        let j = place_of(s, k);
        assert(keys[j] == k);
    }
    vstd::set_lib::lemma_set_subset_finite(keys.to_set(), map_of(s).dom());
}

/// Listing a map in key order is possible in one way only.
pub proof fn lemma_listing_unique<K: Key, B>(s: Seq<(K::V, B)>, t: Seq<(K::V, B)>)
    requires
        rising::<K, B>(s),
        rising::<K, B>(t),
        map_of(s) == map_of(t),
    ensures
        s == t,
    decreases s.len(),
{
    if s.len() == 0 {
        if t.len() > 0 {
            lemma_entry::<K, B>(t, 0);
            assert(!map_of(s).contains_key(t[0].0));
        }
        assert(s =~= t);
    } else if t.len() == 0 {
        lemma_entry::<K, B>(s, 0);
        assert(!map_of(t).contains_key(s[0].0));
    } else {
        let m = s.len() - 1;
        let n = t.len() - 1;
        lemma_entry::<K, B>(s, m);
        lemma_entry::<K, B>(t, n);
        assert(has_key(t, s[m].0));
        assert(has_key(s, t[n].0));
        let a = place_of(t, s[m].0);
        let b = place_of(s, t[n].0);
        lemma_entry::<K, B>(t, a);
        lemma_entry::<K, B>(s, b);
        if a != n {
            assert(K::before(t[a].0, t[n].0));
            if b != m {
                assert(K::before(s[b].0, s[m].0));
                K::before_transitive(s[m].0, t[n].0, s[m].0);
            }
            K::before_irreflexive(s[m].0);
        }
        assert(s[m] == t[n]);
        let s1 = s.drop_last();
        let t1 = t.drop_last();
        assert(rising::<K, B>(s1));
        assert(rising::<K, B>(t1));
        lemma_drop_last::<K, B>(s);
        lemma_drop_last::<K, B>(t);
        lemma_listing_unique::<K, B>(s1, t1);
        assert(s =~= s1.push(s[m]));
        assert(t =~= t1.push(t[n]));
    }
}

/// Leaving out the last entry takes its key out of the map.
pub proof fn lemma_drop_last<K: Key, B>(s: Seq<(K::V, B)>)
    requires
        rising::<K, B>(s),
        s.len() > 0,
    ensures
        rising::<K, B>(s.drop_last()),
        map_of(s.drop_last()) == map_of(s).remove(s.last().0),
{
    let t = s.drop_last();
    let z = s.last().0;
    assert(rising::<K, B>(t));
    assert forall|k: K::V| map_of(t).contains_key(k) == map_of(s).remove(z).contains_key(k) by {
        if has_key(t, k) {
            let i = place_of(t, k);
            assert(s[i] == t[i]);
            assert(has_key(s, k));
            if k == z {
                assert(K::before(s[i].0, s[s.len() - 1].0));
                K::before_irreflexive(k);
            }
        }
        if has_key(s, k) && k != z {
            let i = place_of(s, k);
            assert(t[i] == s[i]);
            assert(has_key(t, k));
        }
    }
    assert forall|k: K::V| map_of(t).contains_key(k) implies map_of(t)[k] == map_of(s).remove(
        z,
    )[k] by {
        let i = place_of(t, k);
        assert(s[i] == t[i]);
        lemma_entry::<K, B>(t, i);
        lemma_entry::<K, B>(s, i);
    }
    assert(map_of(t) =~= map_of(s).remove(z));
}

/// A map has as many keys as its listing has entries.
pub proof fn lemma_listed_len<K: Key, B>(s: Seq<(K::V, B)>, m: Map<K::V, B>)
    requires
        lists::<K, B>(s, m),
    ensures
        m.dom().finite(),
        m.dom().len() == s.len(),
    decreases s.len(),
{
    if s.len() == 0 {
        assert(m.dom() =~= Set::<K::V>::empty());
    } else {
        let front = s.drop_last();
        lemma_drop_last::<K, B>(s);
        lemma_listed_len::<K, B>(front, map_of(front));
        let last = s.last();
        assert(s[s.len() - 1] == last);
        assert(!map_of(front).contains_key(last.0)) by {
            if has_key(front, last.0) {
                let i = choose|i: int| 0 <= i < front.len() && (#[trigger] front[i]).0 == last.0;
                assert(K::before(s[i].0, s[s.len() - 1].0));
                K::before_irreflexive(last.0);
            }
        }
        assert(m.dom() =~= map_of(front).dom().insert(last.0)) by {
            assert forall|k: K::V| has_key(s, k) <==> has_key(front, k) || k == last.0 by {
                if has_key(s, k) {
                    let i = choose|i: int| 0 <= i < s.len() && (#[trigger] s[i]).0 == k;
                    if i < front.len() {
                        assert(front[i] == s[i]);
                    }
                }
                if has_key(front, k) {
                    let i = choose|i: int| 0 <= i < front.len() && (#[trigger] front[i]).0 == k;
                    assert(s[i] == front[i]);
                }
                if k == last.0 {
                    assert(s[s.len() - 1].0 == k);
                }
            }
        }
    }
}

/// A listing of `m` is `pairs_of(m)`.
pub proof fn lemma_pairs_of<K: Key, B>(s: Seq<(K::V, B)>, m: Map<K::V, B>)
    requires
        lists::<K, B>(s, m),
    ensures
        s == pairs_of::<K, B>(m),
{
    lemma_listing_unique::<K, B>(s, pairs_of::<K, B>(m));
}

/// Putting a new entry between the smaller and the larger keys adds it to the map.
proof fn lemma_insert_at<K: Key, B>(s: Seq<(K::V, B)>, i: int, k: K::V, b: B)
    requires
        rising::<K, B>(s),
        0 <= i <= s.len(),
        forall|j: int| 0 <= j < i ==> K::before(#[trigger] s[j].0, k),
        forall|j: int| i <= j < s.len() ==> K::before(k, #[trigger] s[j].0),
    ensures
        rising::<K, B>(s.insert(i, (k, b))),
        map_of(s.insert(i, (k, b))) == map_of(s).insert(k, b),
        !map_of(s).contains_key(k),
{
    let t = s.insert(i, (k, b));
    assert forall|x: int, y: int| 0 <= x < y < t.len() implies K::before(
        #[trigger] t[x].0,
        #[trigger] t[y].0,
    ) by {
        if x < i && y > i {
            assert(K::before(s[x].0, s[y - 1].0));
        } else if x > i {
            assert(K::before(s[x - 1].0, s[y - 1].0));
        } else if y < i {
            assert(K::before(s[x].0, s[y].0));
        }
    }
    assert(t[i] == (k, b));
    lemma_entry::<K, B>(t, i);
    assert forall|q: K::V| map_of(t).contains_key(q) == map_of(s).insert(k, b).contains_key(q) by {
        if has_key(t, q) {
            let p = place_of(t, q);
            if p < i {
                assert(s[p] == t[p]);
            } else if p > i {
                assert(s[p - 1] == t[p]);
            }
        }
        if has_key(s, q) {
            let p = place_of(s, q);
            if p < i {
                assert(s[p] == t[p]);
            } else {
                assert(s[p] == t[p + 1]);
            }
        }
    }
    assert forall|q: K::V| map_of(t).contains_key(q) implies map_of(t)[q] == map_of(s).insert(
        k,
        b,
    )[q] by {
        let p = place_of(t, q);
        lemma_entry::<K, B>(t, p);
        if p < i {
            assert(s[p] == t[p]);
            lemma_entry::<K, B>(s, p);
            K::before_irreflexive(q);
        } else if p > i {
            assert(s[p - 1] == t[p]);
            lemma_entry::<K, B>(s, p - 1);
            K::before_irreflexive(q);
        }
    }
    assert(map_of(t) =~= map_of(s).insert(k, b));
    if has_key(s, k) {
        let p = place_of(s, k);
        K::before_irreflexive(k);
    }
}

/// Among keys that rise there is a place for one more.
proof fn lemma_room<K: Key, B>(s: Seq<(K::V, B)>, k: K::V, n: int) -> (i: int)
    requires
        rising::<K, B>(s),
        0 <= n <= s.len(),
        !has_key(s, k),
    ensures
        0 <= i <= n,
        forall|j: int| 0 <= j < i ==> K::before(#[trigger] s[j].0, k),
        forall|j: int| i <= j < n ==> K::before(k, #[trigger] s[j].0),
    decreases n,
{
    if n == 0 {
        0
    } else {
        let z = s[n - 1].0;
        K::before_total(z, k);
        if K::before(z, k) {
            assert forall|j: int| 0 <= j < n implies K::before(#[trigger] s[j].0, k) by {
                if j < n - 1 {
                    assert(K::before(s[j].0, s[n - 1].0));
                    K::before_transitive(s[j].0, z, k);
                }
            }
            n
        } else {
            lemma_room::<K, B>(s, k, n - 1)
        }
    }
}

/// Every finite map can be listed in key order.
pub proof fn lemma_map_is_listed<K: Key, B>(m: Map<K::V, B>)
    requires
        m.dom().finite(),
    ensures
        lists::<K, B>(pairs_of::<K, B>(m), m),
    decreases m.dom().len(),
{
    if m.dom().len() == 0 {
        let s = Seq::<(K::V, B)>::empty();
        assert(m =~= map_of(s));
        assert(lists::<K, B>(s, m));
    } else {
        let k = m.dom().choose();
        let rest = m.remove(k);
        assert(rest.dom() =~= m.dom().remove(k));
        lemma_map_is_listed::<K, B>(rest);
        let s = pairs_of::<K, B>(rest);
        assert(!has_key(s, k)) by {
            assert(!map_of(s).contains_key(k));
        }
        let i = lemma_room::<K, B>(s, k, s.len() as int);
        lemma_insert_at::<K, B>(s, i, k, m[k]);
        assert(rest.insert(k, m[k]) =~= m);
        assert(lists::<K, B>(s.insert(i, (k, m[k])), m));
    }
}

/// Writing over an entry's value changes the map at its key.
proof fn lemma_update_at<K: Key, B>(s: Seq<(K::V, B)>, i: int, b: B)
    requires
        rising::<K, B>(s),
        0 <= i < s.len(),
    ensures
        rising::<K, B>(s.update(i, (s[i].0, b))),
        map_of(s.update(i, (s[i].0, b))) == map_of(s).insert(s[i].0, b),
{
    let k = s[i].0;
    let t = s.update(i, (k, b));
    assert forall|x: int, y: int| 0 <= x < y < t.len() implies K::before(
        #[trigger] t[x].0,
        #[trigger] t[y].0,
    ) by {
        assert(K::before(s[x].0, s[y].0));
    }
    lemma_entry::<K, B>(s, i);
    lemma_entry::<K, B>(t, i);
    assert forall|q: K::V| map_of(t).contains_key(q) == map_of(s).insert(k, b).contains_key(q) by {
        if has_key(t, q) {
            let p = place_of(t, q);
            assert(s[p].0 == q);
        }
        if has_key(s, q) {
            let p = place_of(s, q);
            assert(t[p].0 == q);
        }
    }
    assert forall|q: K::V| map_of(t).contains_key(q) implies map_of(t)[q] == map_of(s).insert(
        k,
        b,
    )[q] by {
        let p = place_of(t, q);
        lemma_entry::<K, B>(t, p);
        lemma_entry::<K, B>(s, p);
    }
    assert(map_of(t) =~= map_of(s).insert(k, b));
}

/// Taking an entry out takes its key out of the map.
proof fn lemma_remove_at<K: Key, B>(s: Seq<(K::V, B)>, i: int)
    requires
        rising::<K, B>(s),
        0 <= i < s.len(),
    ensures
        rising::<K, B>(s.remove(i)),
        map_of(s.remove(i)) == map_of(s).remove(s[i].0),
{
    let k = s[i].0;
    let t = s.remove(i);
    assert forall|x: int, y: int| 0 <= x < y < t.len() implies K::before(
        #[trigger] t[x].0,
        #[trigger] t[y].0,
    ) by {
        let x1 = if x < i { x } else { x + 1 };
        let y1 = if y < i { y } else { y + 1 };
        assert(K::before(s[x1].0, s[y1].0));
    }
    assert forall|q: K::V| map_of(t).contains_key(q) == map_of(s).remove(k).contains_key(q) by {
        if has_key(t, q) {
            let p = place_of(t, q);
            let p1 = if p < i { p } else { p + 1 };
            assert(s[p1].0 == q);
            if q == k {
                lemma_entry::<K, B>(s, p1);
                lemma_entry::<K, B>(s, i);
            }
        }
        if has_key(s, q) && q != k {
            let p = place_of(s, q);
            let p1 = if p < i { p } else { p - 1 };
            assert(t[p1].0 == q);
        }
    }
    assert forall|q: K::V| map_of(t).contains_key(q) implies map_of(t)[q] == map_of(s).remove(
        k,
    )[q] by {
        let p = place_of(t, q);
        let p1 = if p < i { p } else { p + 1 };
        assert(s[p1] == t[p]);
        lemma_entry::<K, B>(t, p);
        lemma_entry::<K, B>(s, p1);
    }
    assert(map_of(t) =~= map_of(s).remove(k));
}

/// A map from keys to values, kept in key order. Its deep view is the map from
/// key views to value views.
#[derive(Debug, PartialEq, Eq)]
pub struct SortedMap<K: Key, V: Value> {
    entries: Vec<(K, V)>,
}

impl<K: Key, V: Value> DeepView for SortedMap<K, V> {
    type V = Map<K::V, V::V>;

    open spec fn deep_view(&self) -> Map<K::V, V::V> {
        map_of(self.pairs())
    }
}

impl<K: Key, V: Value> SortedMap<K, V> {
    /// The entries in key order.
    pub closed spec fn pairs(&self) -> Seq<(K::V, V::V)> {
        self.entries.deep_view()
    }

    #[verifier::type_invariant]
    spec fn kept_in_order(self) -> bool {
        rising::<K, V::V>(self.entries.deep_view())
    }

    pub fn new() -> (r: Self)
        ensures
            r.deep_view() == Map::<K::V, V::V>::empty(),
            r.pairs().len() == 0,
    {
        let r = SortedMap { entries: Vec::new() };
        assert(r.deep_view() =~= Map::<K::V, V::V>::empty());
        r
    }

    /// The number of entries; and what the listing of this map is.
    pub fn len(&self) -> (n: usize)
        ensures
            n == self.pairs().len(),
            lists::<K, V::V>(self.pairs(), self.deep_view()),
            self.pairs() == pairs_of::<K, V::V>(self.deep_view()),
    {
        proof {
            use_type_invariant(&*self);
            lemma_pairs_of::<K, V::V>(self.pairs(), self.deep_view());
        }
        self.entries.len()
    }

    pub fn is_empty(&self) -> (b: bool)
        ensures
            b == (self.deep_view() == Map::<K::V, V::V>::empty()),
            b == (self.pairs().len() == 0),
    {
        proof {
            use_type_invariant(&*self);
            if self.pairs().len() > 0 {
                lemma_entry::<K, V::V>(self.pairs(), 0);
                assert(self.deep_view().contains_key(self.pairs()[0].0));
            } else {
                assert(self.deep_view() =~= Map::<K::V, V::V>::empty());
            }
        }
        self.entries.len() == 0
    }

    /// The key of the entry at place `i`.
    pub fn key_at(&self, i: usize) -> (k: &K)
        requires
            i < self.pairs().len(),
        ensures
            k.deep_view() == self.pairs()[i as int].0,
            self.deep_view().contains_key(k.deep_view()),
    {
        proof {
            use_type_invariant(&*self);
            lemma_entry::<K, V::V>(self.pairs(), i as int);
        }
        &self.entries[i].0
    }

    /// The value of the entry at place `i`.
    pub fn value_at(&self, i: usize) -> (v: &V)
        requires
            i < self.pairs().len(),
        ensures
            v.deep_view() == self.pairs()[i as int].1,
            self.deep_view()[self.pairs()[i as int].0] == v.deep_view(),
    {
        proof {
            use_type_invariant(&*self);
            lemma_entry::<K, V::V>(self.pairs(), i as int);
        }
        &self.entries[i].1
    }

    /// Where `key` stands, or where it would have to be put in.
    fn locate(&self, key: &K) -> (r: (bool, usize))
        ensures
            r.1 <= self.pairs().len(),
            r.0 ==> r.1 < self.pairs().len() && self.pairs()[r.1 as int].0 == key.deep_view(),
            !r.0 ==> {
                &&& forall|j: int|
                    0 <= j < r.1 ==> K::before(#[trigger] self.pairs()[j].0, key.deep_view())
                &&& forall|j: int|
                    r.1 <= j < self.pairs().len() ==> K::before(
                        key.deep_view(),
                        #[trigger] self.pairs()[j].0,
                    )
            },
    {
        proof {
            use_type_invariant(&*self);
        }
        let ghost s = self.pairs();
        let ghost k = key.deep_view();
        let mut lo: usize = 0;
        let mut hi: usize = self.entries.len();
        while lo < hi
            invariant
                s == self.pairs(),
                k == key.deep_view(),
                rising::<K, V::V>(s),
                s.len() == self.entries@.len(),
                0 <= lo <= hi <= s.len(),
                forall|j: int| 0 <= j < lo ==> K::before(#[trigger] s[j].0, k),
                forall|j: int| hi <= j < s.len() ==> K::before(k, #[trigger] s[j].0),
            decreases hi - lo,
        {
            let mid: usize = lo + (hi - lo) / 2;
            assert(s[mid as int].0 == self.entries@[mid as int].0.deep_view());
            match key.compare(&self.entries[mid].0) {
                Order::Equal => {
                    return (true, mid);
                },
                Order::Less => {
                    assert forall|j: int| mid <= j < s.len() implies K::before(
                        k,
                        #[trigger] s[j].0,
                    ) by {
                        if j > mid {
                            K::before_transitive(k, s[mid as int].0, s[j].0);
                        }
                    }
                    hi = mid;
                },
                Order::Greater => {
                    assert forall|j: int| 0 <= j < mid + 1 implies K::before(
                        #[trigger] s[j].0,
                        k,
                    ) by {
                        if j < mid {
                            K::before_transitive(s[j].0, s[mid as int].0, k);
                        }
                    }
                    lo = mid + 1;
                },
            }
        }
        (false, lo)
    }

    /// The value under `key`, if there is one.
    pub fn get(&self, key: &K) -> (r: Option<&V>)
        ensures
            match r {
                Some(v) => {
                    &&& self.deep_view().contains_key(key.deep_view())
                    &&& self.deep_view()[key.deep_view()] == v.deep_view()
                },
                None => !self.deep_view().contains_key(key.deep_view()),
            },
    {
        proof {
            use_type_invariant(&*self);
        }
        let (found, i) = self.locate(key);
        if found {
            proof {
                lemma_entry::<K, V::V>(self.pairs(), i as int);
            }
            Some(&self.entries[i].1)
        } else {
            proof {
                if has_key(self.pairs(), key.deep_view()) {
                    let p = place_of(self.pairs(), key.deep_view());
                    K::before_irreflexive(key.deep_view());
                }
            }
            None
        }
    }

    pub fn contains_key(&self, key: &K) -> (b: bool)
        ensures
            b == self.deep_view().contains_key(key.deep_view()),
    {
        match self.get(key) {
            Some(_) => true,
            None => false,
        }
    }

    /// Puts `value` under `key`, in place of what was there.
    pub fn insert(&mut self, key: K, value: V)
        ensures
            final(self).deep_view() == old(self).deep_view().insert(
                key.deep_view(),
                value.deep_view(),
            ),
    {
        proof {
            use_type_invariant(&*self);
        }
        let ghost s = self.pairs();
        let ghost k = key.deep_view();
        let ghost v = value.deep_view();
        let (found, i) = self.locate(&key);
        let mut es: Vec<(K, V)> = Vec::new();
        std::mem::swap(&mut es, &mut self.entries);
        let ghost before = es@;
        assert(es.deep_view() == s);
        if found {
            es[i] = (key, value);
            assert(es.deep_view() =~= s.update(i as int, (k, v)));
            proof {
                lemma_update_at::<K, V::V>(s, i as int, v);
            }
        } else {
            es.insert(i, (key, value));
            assert(es.deep_view() =~= s.insert(i as int, (k, v)));
            proof {
                lemma_insert_at::<K, V::V>(s, i as int, k, v);
            }
        }
        self.entries = es;
    }

    /// Takes out what is under `key`, if anything.
    pub fn remove(&mut self, key: &K)
        ensures
            final(self).deep_view() == old(self).deep_view().remove(key.deep_view()),
    {
        proof {
            use_type_invariant(&*self);
        }
        let ghost s = self.pairs();
        let ghost k = key.deep_view();
        let (found, i) = self.locate(key);
        if found {
            let mut es: Vec<(K, V)> = Vec::new();
            std::mem::swap(&mut es, &mut self.entries);
            let _ = es.remove(i);
            assert(es.deep_view() =~= s.remove(i as int));
            proof {
                lemma_remove_at::<K, V::V>(s, i as int);
            }
            self.entries = es;
        } else {
            proof {
                if has_key(s, k) {
                    let p = place_of(s, k);
                    K::before_irreflexive(k);
                }
                assert(self.deep_view() =~= old(self).deep_view().remove(k));
            }
        }
    }

    /// Puts every entry of `other` in, in place of what was under its key.
    pub fn put_all(&mut self, other: &Self)
        ensures
            final(self).deep_view() == old(self).deep_view().union_prefer_right(other.deep_view()),
    {
        let n: usize = other.len();
        let ghost s = other.pairs();
        let ghost a = self.deep_view();
        let ghost b = other.deep_view();
        let mut i: usize = 0;
        proof {
            lemma_among::<K, V::V>(s, 0);
        }
        while i < n
            invariant
                0 <= i <= n,
                n == s.len(),
                s == other.pairs(),
                b == other.deep_view(),
                b == map_of(s),
                rising::<K, V::V>(s),
                forall|k: K::V| #[trigger] self.deep_view().contains_key(k) <==> a.contains_key(k) || among(
                    s,
                    i as int,
                    k,
                ),
                forall|k: K::V| #[trigger] self.deep_view().contains_key(k) ==> self.deep_view()[k] == (
                if among(s, i as int, k) {
                    b[k]
                } else {
                    a[k]
                }),
            decreases n - i,
        {
            proof {
                lemma_among::<K, V::V>(s, i as int);
                lemma_entry::<K, V::V>(s, i as int);
            }
            let ghost had = self.deep_view();
            let ghost k = s[i as int].0;
            self.insert(other.key_at(i).dup(), other.value_at(i).dup());
            assert(self.deep_view() == had.insert(k, b[k]));
            i = i + 1;
        }
        proof {
            lemma_among::<K, V::V>(s, n as int);
            assert(self.deep_view() =~= a.union_prefer_right(b));
        }
    }

    /// The entries, in key order.
    pub fn to_pairs(&self) -> (r: Vec<(K, V)>)
        ensures
            r.deep_view() == self.pairs(),
            self.pairs() == pairs_of::<K, V::V>(self.deep_view()),
            lists::<K, V::V>(self.pairs(), self.deep_view()),
    {
        let _ = self.len();
        self.entries.dup()
    }

    /// The values, in key order.
    pub fn to_values(&self) -> (r: Vec<V>)
        ensures
            r.deep_view() == self.pairs().map_values(|p: (K::V, V::V)| p.1),
            self.pairs() == pairs_of::<K, V::V>(self.deep_view()),
            lists::<K, V::V>(self.pairs(), self.deep_view()),
    {
        let n: usize = self.len();
        let mut r: Vec<V> = Vec::new();
        let mut i: usize = 0;
        while i < n
            invariant
                n == self.pairs().len(),
                0 <= i <= n,
                r@.len() == i,
                forall|j: int| 0 <= j < i ==> (#[trigger] r@[j]).deep_view() == self.pairs()[j].1,
            decreases n - i,
        {
            r.push(self.value_at(i).dup());
            i = i + 1;
        }
        assert(r.deep_view() =~= self.pairs().map_values(|p: (K::V, V::V)| p.1));
        r
    }

    /// The keys, in order.
    pub fn keys(&self) -> (r: Vec<K>)
        ensures
            r.deep_view() == self.pairs().map_values(|p: (K::V, V::V)| p.0),
            self.pairs() == pairs_of::<K, V::V>(self.deep_view()),
    {
        let n: usize = self.len();
        let mut r: Vec<K> = Vec::new();
        let mut i: usize = 0;
        while i < n
            invariant
                n == self.pairs().len(),
                0 <= i <= n,
                r@.len() == i,
                forall|j: int| 0 <= j < i ==> (#[trigger] r@[j]).deep_view() == self.pairs()[j].0,
            decreases n - i,
        {
            r.push(self.key_at(i).dup());
            i = i + 1;
        }
        assert(r.deep_view() =~= self.pairs().map_values(|p: (K::V, V::V)| p.0));
        r
    }
}

impl<K: Key, V: Value> Value for SortedMap<K, V> {
    fn dup(&self) -> (r: Self) {
        proof {
            use_type_invariant(&*self);
        }
        let entries = self.entries.dup();
        SortedMap { entries }
    }

    fn same(&self, other: &Self) -> (b: bool) {
        proof {
            use_type_invariant(&*self);
            use_type_invariant(&*other);
            if self.deep_view() == other.deep_view() {
                lemma_listing_unique::<K, V::V>(self.pairs(), other.pairs());
            }
        }
        self.entries.same(&other.entries)
    }
}

impl<K: Key, V: Value> Clone for SortedMap<K, V> {
    fn clone(&self) -> (r: Self)
        ensures
            r.deep_view() == self.deep_view(),
    {
        self.dup()
    }
}

/// A set of keys, kept in order. Its deep view is the set of the key views.
#[derive(Debug, PartialEq, Eq)]
pub struct SortedSet<K: Key> {
    keys: SortedMap<K, ()>,
}

impl<K: Key> DeepView for SortedSet<K> {
    type V = Set<K::V>;

    closed spec fn deep_view(&self) -> Set<K::V> {
        self.keys.deep_view().dom()
    }
}

/// `s` lists the members of `m`, in order.
pub open spec fn lists_set<K: Key>(s: Seq<K::V>, m: Set<K::V>) -> bool {
    &&& forall|i: int, j: int| 0 <= i < j < s.len() ==> K::before(#[trigger] s[i], #[trigger] s[j])
    &&& forall|k: K::V| #[trigger] m.contains(k) <==> s.contains(k)
}

/// The members of `m` in order.
pub open spec fn members_of<K: Key>(m: Set<K::V>) -> Seq<K::V> {
    choose|s: Seq<K::V>| lists_set::<K>(s, m)
}

/// Listing a set in order is possible in one way only.
pub proof fn lemma_set_listing_unique<K: Key>(s: Seq<K::V>, t: Seq<K::V>, m: Set<K::V>)
    requires
        lists_set::<K>(s, m),
        lists_set::<K>(t, m),
    ensures
        s == t,
{
    let s2 = s.map_values(|k: K::V| (k, ()));
    let t2 = t.map_values(|k: K::V| (k, ()));
    assert forall|k: K::V| has_key(s2, k) == has_key(t2, k) by {
        if has_key(s2, k) {
            let i = place_of(s2, k);
            assert(s[i] == k);
            assert(m.contains(k));
            let j = choose|j: int| 0 <= j < t.len() && t[j] == k;
            assert(t2[j].0 == k);
        }
        if has_key(t2, k) {
            let i = place_of(t2, k);
            assert(t[i] == k);
            assert(m.contains(k));
            let j = choose|j: int| 0 <= j < s.len() && s[j] == k;
            assert(s2[j].0 == k);
        }
    }
    assert(map_of(s2) =~= map_of(t2));
    assert(rising::<K, ()>(s2));
    assert(rising::<K, ()>(t2));
    lemma_listing_unique::<K, ()>(s2, t2);
    assert forall|i: int| 0 <= i < s.len() implies s[i] == t[i] by {
        assert(s2[i].0 == s[i]);
        assert(t2[i].0 == t[i]);
    }
    assert(s2.len() == s.len() && t2.len() == t.len());
    assert(s =~= t);
}

/// Every finite set can be listed in order.
pub proof fn lemma_set_is_listed<K: Key>(m: Set<K::V>)
    requires
        m.finite(),
    ensures
        lists_set::<K>(members_of::<K>(m), m),
{
    let mm = Map::new(|k: K::V| m.contains(k), |k: K::V| ());
    assert(mm.dom() =~= m);
    lemma_map_is_listed::<K, ()>(mm);
    let s = pairs_of::<K, ()>(mm);
    let t = s.map_values(|p: (K::V, ())| p.0);
    assert forall|k: K::V| #[trigger] m.contains(k) <==> t.contains(k) by {
        if m.contains(k) {
            assert(mm.contains_key(k));
            let i = place_of(s, k);
            assert(t[i] == k);
        }
        if t.contains(k) {
            let i = choose|i: int| 0 <= i < t.len() && t[i] == k;
            lemma_entry::<K, ()>(s, i);
            assert(mm.contains_key(k));
        }
    }
    assert forall|i: int, j: int| 0 <= i < j < t.len() implies K::before(#[trigger] t[i], #[trigger] t[j]) by {
        assert(K::before(s[i].0, s[j].0));
    }
    assert(lists_set::<K>(t, m));
}

impl<K: Key> SortedSet<K> {
    /// The members in order.
    pub closed spec fn members(&self) -> Seq<K::V> {
        self.keys.pairs().map_values(|p: (K::V, ())| p.0)
    }

    pub fn new() -> (r: Self)
        ensures
            r.deep_view() == Set::<K::V>::empty(),
    {
        let r = SortedSet { keys: SortedMap::new() };
        assert(r.deep_view() =~= Set::<K::V>::empty());
        r
    }

    /// The number of members; and what the listing of this set is.
    pub fn len(&self) -> (n: usize)
        ensures
            n == self.members().len(),
            lists_set::<K>(self.members(), self.deep_view()),
            self.members() == members_of::<K>(self.deep_view()),
    {
        let n: usize = self.keys.len();
        proof {
            let s = self.members();
            let ps = self.keys.pairs();
            assert forall|k: K::V| #[trigger] self.deep_view().contains(k) <==> s.contains(k) by {
                if has_key(ps, k) {
                    let i = place_of(ps, k);
                    assert(s[i] == k);
                }
                if s.contains(k) {
                    let i = choose|i: int| 0 <= i < s.len() && s[i] == k;
                    assert(ps[i].0 == k);
                    assert(has_key(ps, k));
                }
            }
            assert forall|i: int, j: int| 0 <= i < j < s.len() implies K::before(
                #[trigger] s[i],
                #[trigger] s[j],
            ) by {
                assert(K::before(ps[i].0, ps[j].0));
            }
            assert(lists_set::<K>(s, self.deep_view()));
            lemma_set_listing_unique::<K>(s, members_of::<K>(self.deep_view()), self.deep_view());
        }
        n
    }

    pub fn is_empty(&self) -> (b: bool)
        ensures
            b == (self.deep_view() == Set::<K::V>::empty()),
    {
        let b = self.keys.is_empty();
        proof {
            if b {
                assert(self.deep_view() =~= Set::<K::V>::empty());
            } else {
                let ghost k = self.keys.pairs()[0].0;
                assert(has_key(self.keys.pairs(), k));
                assert(self.deep_view().contains(k));
            }
        }
        b
    }

    /// The member at place `i`.
    pub fn at(&self, i: usize) -> (k: &K)
        requires
            i < self.members().len(),
        ensures
            k.deep_view() == self.members()[i as int],
            self.deep_view().contains(k.deep_view()),
    {
        self.keys.key_at(i)
    }

    pub fn contains(&self, key: &K) -> (b: bool)
        ensures
            b == self.deep_view().contains(key.deep_view()),
    {
        self.keys.contains_key(key)
    }

    /// Adds a member; whether it was new.
    pub fn insert(&mut self, key: K) -> (b: bool)
        ensures
            final(self).deep_view() == old(self).deep_view().insert(key.deep_view()),
            b == !old(self).deep_view().contains(key.deep_view()),
    {
        let b = !self.keys.contains_key(&key);
        self.keys.insert(key, ());
        assert(self.deep_view() =~= old(self).deep_view().insert(key.deep_view()));
        b
    }

    /// The members, in order.
    pub fn to_vec(&self) -> (r: Vec<K>)
        ensures
            r.deep_view() == members_of::<K>(self.deep_view()),
            lists_set::<K>(r.deep_view(), self.deep_view()),
    {
        let _ = self.len();
        self.keys.keys()
    }
}

impl<K: Key> Value for SortedSet<K> {
    fn dup(&self) -> (r: Self) {
        SortedSet { keys: self.keys.dup() }
    }

    fn same(&self, other: &Self) -> (b: bool) {
        let b = self.keys.same(&other.keys);
        proof {
            if self.deep_view() == other.deep_view() {
                assert(self.keys.deep_view() =~= other.keys.deep_view());
            }
        }
        b
    }
}

impl<K: Key> Clone for SortedSet<K> {
    fn clone(&self) -> (r: Self)
        ensures
            r.deep_view() == self.deep_view(),
    {
        self.dup()
    }
}

} // verus!
