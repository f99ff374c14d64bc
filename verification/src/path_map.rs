//! Maps from paths, in which texts that name the same path are one key.
//!
//! A key keeps the text under which it first came in. The model of such a map has, for
//! the text that stands for a path, the text of the key and the value.

use crate::path::{normal_path, normalize};
use crate::sorted::{among, lemma_among, lemma_entry, lists, map_of, pairs_of, rising, SortedMap};
use crate::types::RepoPath;
use crate::value::{
    lemma_lex_irreflexive, lemma_lex_total, lemma_lex_transitive, lex_before, parts_at, Key, Order, Value,
};
use vstd::prelude::*;

verus! {

// ---------------------------------------------------------------------------
// Keys
// ---------------------------------------------------------------------------

/// A component begins at this place.
pub open spec fn begins_at(s: Seq<char>, i: int) -> bool {
    i == 0 || s[i - 1] == '/'
}

/// No more of a component stands at this place.
pub open spec fn ends_at(s: Seq<char>, i: int) -> bool {
    i == s.len() || s[i] == '/'
}

/// The rank of the character at a place in path order: the separator comes before all
/// others, then a component that is one dot, then one that is two. So paths are ordered
/// component by component.
pub open spec fn path_rank(s: Seq<char>, i: int) -> int {
    if s[i] == '/' {
        0
    } else if s[i] == '.' && begins_at(s, i) && ends_at(s, i + 1) {
        1
    } else if s[i] == '.' && begins_at(s, i) && i + 1 < s.len() && s[i + 1] == '.' && ends_at(s, i + 2) {
        2
    } else {
        s[i] as int + 3
    }
}

/// A path as the ranks of its characters.
pub open spec fn path_ranks(s: Seq<char>) -> Seq<int> {
    Seq::new(s.len(), |i: int| path_rank(s, i))
}

/// The rank of a character that is no separator and begins no component of dots.
proof fn lemma_plain_rank(c: char)
    ensures
        c as int + 3 > 2,
{
}

/// Equal ranks are those of equal characters.
proof fn lemma_ranks_apart(a: Seq<char>, b: Seq<char>, i: int)
    requires
        0 <= i < a.len(),
        i < b.len(),
        path_rank(a, i) == path_rank(b, i),
    ensures
        a[i] == b[i],
{
    lemma_plain_rank(a[i]);
    lemma_plain_rank(b[i]);
}

fn plain_rank(c: char) -> (r: u32)
    ensures
        r == c as int + 3,
{
    let n: u32 = c as u32;
    assert(n <= 0x10_ffff && n == c as int);
    n + 3
}

fn rank_of(s: &Vec<char>, i: usize) -> (r: u32)
    requires
        i < s@.len(),
    ensures
        r == path_rank(s@, i as int),
{
    let n: usize = s.len();
    let c = s[i];
    if c == '/' {
        return 0;
    }
    if c == '.' && (i == 0 || s[i - 1] == '/') {
        if i + 1 == n || s[i + 1] == '/' {
            return 1;
        }
        if s[i + 1] == '.' && (i + 2 == n || s[i + 2] == '/') {
            return 2;
        }
    }
    plain_rank(c)
}

/// A path as a key: the text that stands for it.
#[derive(Debug, PartialEq, Eq)]
pub struct PathKey(String);

impl DeepView for PathKey {
    type V = Seq<char>;

    closed spec fn deep_view(&self) -> Seq<char> {
        self.0@
    }
}

impl PathKey {
    /// The key that a path is.
    fn of(path: &RepoPath) -> (r: Self)
        ensures
            r.deep_view() == normal_path(path.deep_view()),
    {
        PathKey(normalize(path.as_str()))
    }
}

impl Value for PathKey {
    fn dup(&self) -> (r: Self) {
        PathKey(self.0.clone())
    }

    fn same(&self, other: &Self) -> (b: bool) {
        self.0 == other.0
    }
}

impl Key for PathKey {
    open spec fn before(a: Seq<char>, b: Seq<char>) -> bool {
        lex_before(path_ranks(a), path_ranks(b))
    }

    proof fn before_irreflexive(a: Seq<char>) {
        lemma_lex_irreflexive(path_ranks(a));
    }

    proof fn before_transitive(a: Seq<char>, b: Seq<char>, c: Seq<char>) {
        lemma_lex_transitive(path_ranks(a), path_ranks(b), path_ranks(c));
    }

    proof fn before_total(a: Seq<char>, b: Seq<char>) {
        lemma_lex_total(path_ranks(a), path_ranks(b));
        if path_ranks(a) == path_ranks(b) {
            assert(a.len() == path_ranks(a).len() && b.len() == path_ranks(b).len());
            assert forall|i: int| 0 <= i < a.len() implies #[trigger] a[i] == b[i] by {
                assert(path_ranks(a)[i] == path_ranks(b)[i]);
                lemma_ranks_apart(a, b, i);
            }
            assert(a =~= b);
        }
    }

    fn compare(&self, other: &Self) -> (o: Order) {
        let a = crate::text::chars_of(self.0.as_str());
        let b = crate::text::chars_of(other.0.as_str());
        let ghost ra = path_ranks(a@);
        let ghost rb = path_ranks(b@);
        let mut i: usize = 0;
        while i < a.len() && i < b.len()
            invariant
                a@ == self.0@,
                b@ == other.0@,
                ra == path_ranks(a@),
                rb == path_ranks(b@),
                0 <= i <= a@.len(),
                i <= b@.len(),
                forall|j: int| 0 <= j < i ==> #[trigger] ra[j] == rb[j],
                forall|j: int| 0 <= j < i ==> a@[j] == b@[j],
            decreases a@.len() - i,
        {
            let x: u32 = rank_of(&a, i);
            let y: u32 = rank_of(&b, i);
            assert(x == ra[i as int] && y == rb[i as int]);
            if x < y {
                assert(parts_at(ra, rb, i as int));
                return Order::Less;
            }
            if y < x {
                assert(parts_at(rb, ra, i as int));
                return Order::Greater;
            }
            proof {
                lemma_ranks_apart(a@, b@, i as int);
            }
            i = i + 1;
        }
        if i < b.len() {
            assert(parts_at(ra, rb, i as int));
            Order::Less
        } else if i < a.len() {
            assert(parts_at(rb, ra, i as int));
            Order::Greater
        } else {
            assert(a@ =~= b@);
            Order::Equal
        }
    }
}

// ---------------------------------------------------------------------------
// The model
// ---------------------------------------------------------------------------

/// What stands under a path: the text of the key, and the value.
pub struct Placed<V> {
    pub text: Seq<char>,
    pub v: V,
}

/// The model of a map from paths.
pub type Paths<V> = Map<Seq<char>, Placed<V>>;

/// The text that a path's key has, or gets if it is new.
pub open spec fn text_in<V>(m: Paths<V>, text: Seq<char>) -> Seq<char> {
    if m.contains_key(normal_path(text)) {
        m[normal_path(text)].text
    } else {
        text
    }
}

/// The map with a value under a path. A key that is there keeps its text.
pub open spec fn put_at<V>(m: Paths<V>, text: Seq<char>, v: V) -> Paths<V> {
    m.insert(normal_path(text), Placed { text: text_in(m, text), v })
}

/// One map laid over another: its values win, and keys that are there keep their text.
pub open spec fn laid_over<V>(a: Paths<V>, b: Paths<V>) -> Paths<V> {
    Map::new(
        |k: Seq<char>| a.contains_key(k) || b.contains_key(k),
        |k: Seq<char>|
            if !b.contains_key(k) {
                a[k]
            } else if a.contains_key(k) {
                Placed { text: a[k].text, v: b[k].v }
            } else {
                b[k]
            },
    )
}

/// The values alone: two maps with the same are equal, however their keys are written.
pub open spec fn values_in<V>(m: Paths<V>) -> Map<Seq<char>, V> {
    Map::new(|k: Seq<char>| m.contains_key(k), |k: Seq<char>| m[k].v)
}

/// Every key's text names the path that it stands under.
pub open spec fn well_placed<V>(m: Paths<V>) -> bool {
    forall|k: Seq<char>| #[trigger] m.contains_key(k) ==> normal_path(m[k].text) == k
}

// ---------------------------------------------------------------------------
// The map
// ---------------------------------------------------------------------------

/// A value and the path that it came in with.
#[derive(Debug, PartialEq, Eq)]
pub struct Spelled<V> {
    path: RepoPath,
    value: V,
}

impl<V: DeepView> DeepView for Spelled<V> {
    type V = Placed<V::V>;

    closed spec fn deep_view(&self) -> Placed<V::V> {
        Placed { text: self.path.deep_view(), v: self.value.deep_view() }
    }
}

impl<V: Value> Value for Spelled<V> {
    fn dup(&self) -> (r: Self) {
        Spelled { path: self.path.dup(), value: self.value.dup() }
    }

    fn same(&self, other: &Self) -> (b: bool) {
        self.path.same(&other.path) && self.value.same(&other.value)
    }
}

/// A map from paths, in path order.
#[derive(Debug, PartialEq, Eq)]
pub struct PathMap<V: Value> {
    entries: SortedMap<PathKey, Spelled<V>>,
}

impl<V: Value> DeepView for PathMap<V> {
    type V = Paths<V::V>;

    open spec fn deep_view(&self) -> Paths<V::V> {
        map_of(self.pairs())
    }
}

impl<V: Value> PathMap<V> {
    /// The entries in path order.
    pub closed spec fn pairs(&self) -> Seq<(Seq<char>, Placed<V::V>)> {
        self.entries.pairs()
    }

    #[verifier::type_invariant]
    spec fn spelled_right(self) -> bool {
        well_placed(self.entries.deep_view())
    }

    pub fn new() -> (r: Self)
        ensures
            r.deep_view() == Map::<Seq<char>, Placed<V::V>>::empty(),
            r.pairs().len() == 0,
    {
        PathMap { entries: SortedMap::new() }
    }

    /// The number of entries; and what the listing of this map is.
    pub fn len(&self) -> (n: usize)
        ensures
            n == self.pairs().len(),
            lists::<PathKey, Placed<V::V>>(self.pairs(), self.deep_view()),
            self.pairs() == pairs_of::<PathKey, Placed<V::V>>(self.deep_view()),
            well_placed(self.deep_view()),
    {
        proof {
            use_type_invariant(self);
        }
        self.entries.len()
    }

    pub fn is_empty(&self) -> (b: bool)
        ensures
            b == (self.deep_view() == Map::<Seq<char>, Placed<V::V>>::empty()),
            b == (self.pairs().len() == 0),
    {
        self.entries.is_empty()
    }

    /// The path of the entry at place `i`.
    pub fn path_at(&self, i: usize) -> (p: &RepoPath)
        requires
            i < self.pairs().len(),
        ensures
            p.deep_view() == self.pairs()[i as int].1.text,
            normal_path(p.deep_view()) == self.pairs()[i as int].0,
            self.deep_view().contains_key(normal_path(p.deep_view())),
    {
        proof {
            use_type_invariant(self);
        }
        let k = self.entries.key_at(i);
        let e = self.entries.value_at(i);
        &e.path
    }

    /// The value of the entry at place `i`.
    pub fn value_at(&self, i: usize) -> (v: &V)
        requires
            i < self.pairs().len(),
        ensures
            v.deep_view() == self.pairs()[i as int].1.v,
            self.deep_view()[self.pairs()[i as int].0] == self.pairs()[i as int].1,
    {
        &self.entries.value_at(i).value
    }

    /// The value under a path, if there is one.
    pub fn get(&self, path: &RepoPath) -> (r: Option<&V>)
        ensures
            match r {
                Some(v) => {
                    &&& self.deep_view().contains_key(normal_path(path.deep_view()))
                    &&& self.deep_view()[normal_path(path.deep_view())].v == v.deep_view()
                },
                None => !self.deep_view().contains_key(normal_path(path.deep_view())),
            },
    {
        match self.entries.get(&PathKey::of(path)) {
            Some(e) => Some(&e.value),
            None => None,
        }
    }

    /// The path as the map has it, if it does.
    pub fn key_of(&self, path: &RepoPath) -> (r: Option<&RepoPath>)
        ensures
            match r {
                Some(p) => {
                    &&& self.deep_view().contains_key(normal_path(path.deep_view()))
                    &&& self.deep_view()[normal_path(path.deep_view())].text == p.deep_view()
                },
                None => !self.deep_view().contains_key(normal_path(path.deep_view())),
            },
    {
        match self.entries.get(&PathKey::of(path)) {
            Some(e) => Some(&e.path),
            None => None,
        }
    }

    pub fn contains_key(&self, path: &RepoPath) -> (b: bool)
        ensures
            b == self.deep_view().contains_key(normal_path(path.deep_view())),
    {
        self.entries.contains_key(&PathKey::of(path))
    }

    /// Puts a value under a path, in place of what was there. The key that was there
    /// stays.
    pub fn insert(&mut self, path: RepoPath, value: V)
        ensures
            final(self).deep_view() == put_at(old(self).deep_view(), path.deep_view(), value.deep_view()),
    {
        proof {
            use_type_invariant(&*self);
        }
        let key = PathKey::of(&path);
        let mut entries: SortedMap<PathKey, Spelled<V>> = SortedMap::new();
        std::mem::swap(&mut entries, &mut self.entries);
        let path = match entries.get(&key) {
            Some(e) => e.path.dup(),
            None => path,
        };
        entries.insert(key, Spelled { path, value });
        self.entries = entries;
    }

    /// Takes out what is under a path, if anything.
    pub fn remove(&mut self, path: &RepoPath)
        ensures
            final(self).deep_view() == old(self).deep_view().remove(normal_path(path.deep_view())),
    {
        proof {
            use_type_invariant(&*self);
        }
        let key = PathKey::of(path);
        let mut entries: SortedMap<PathKey, Spelled<V>> = SortedMap::new();
        std::mem::swap(&mut entries, &mut self.entries);
        entries.remove(&key);
        self.entries = entries;
    }

    /// Puts every entry of `other` in, in place of what was under its path.
    pub fn put_all(&mut self, other: &Self)
        ensures
            final(self).deep_view() == laid_over(old(self).deep_view(), other.deep_view()),
    {
        let n: usize = other.len();
        let ghost s = other.pairs();
        let ghost a = self.deep_view();
        let ghost b = other.deep_view();
        let mut i: usize = 0;
        proof {
            lemma_among::<PathKey, Placed<V::V>>(s, 0);
        }
        while i < n
            invariant
                0 <= i <= n,
                n == s.len(),
                s == other.pairs(),
                b == other.deep_view(),
                b == map_of(s),
                rising::<PathKey, Placed<V::V>>(s),
                forall|k: Seq<char>| #[trigger]
                    self.deep_view().contains_key(k) <==> a.contains_key(k) || among(s, i as int, k),
                forall|k: Seq<char>| #[trigger]
                    self.deep_view().contains_key(k) ==> self.deep_view()[k] == (if among(s, i as int, k) {
                        laid_over(a, b)[k]
                    } else {
                        a[k]
                    }),
            decreases n - i,
        {
            proof {
                lemma_among::<PathKey, Placed<V::V>>(s, i as int);
                lemma_entry::<PathKey, Placed<V::V>>(s, i as int);
            }
            let ghost had = self.deep_view();
            let ghost k = s[i as int].0;
            let path = other.path_at(i);
            let value = other.value_at(i);
            self.insert(path.dup(), value.dup());
            assert(self.deep_view() == put_at(had, b[k].text, b[k].v));
            assert(laid_over(a, b).contains_key(k));
            i = i + 1;
        }
        proof {
            lemma_among::<PathKey, Placed<V::V>>(s, n as int);
            assert(self.deep_view() =~= laid_over(a, b));
        }
    }

    /// Whether two maps have the same values under the same paths, however these are
    /// written.
    pub fn agrees(&self, other: &Self) -> (b: bool)
        ensures
            b == (values_in(self.deep_view()) == values_in(other.deep_view())),
    {
        let n: usize = self.len();
        let k: usize = other.len();
        let ghost s = self.pairs();
        let ghost t = other.pairs();
        let ghost x = self.deep_view();
        let ghost y = other.deep_view();
        let mut i: usize = 0;
        proof {
            lemma_among::<PathKey, Placed<V::V>>(s, 0);
            lemma_among::<PathKey, Placed<V::V>>(t, 0);
        }
        while i < n
            invariant
                0 <= i <= n,
                n == s.len(),
                s == self.pairs(),
                x == self.deep_view(),
                y == other.deep_view(),
                x == map_of(s),
                rising::<PathKey, Placed<V::V>>(s),
                forall|q: Seq<char>| #[trigger] among(s, i as int, q) ==> y.contains_key(q) && y[q].v == x[q].v,
            decreases n - i,
        {
            proof {
                lemma_among::<PathKey, Placed<V::V>>(s, i as int);
                lemma_entry::<PathKey, Placed<V::V>>(s, i as int);
            }
            let path = self.path_at(i);
            let value = self.value_at(i);
            let ghost q = s[i as int].0;
            let same = match other.get(path) {
                Some(v) => v.same(value),
                None => false,
            };
            if !same {
                proof {
                    assert(values_in(x).contains_key(q));
                    if values_in(x) == values_in(y) {
                        assert(values_in(y).contains_key(q));
                        assert(values_in(x)[q] == values_in(y)[q]);
                    }
                }
                return false;
            }
            i = i + 1;
        }
        proof {
            lemma_among::<PathKey, Placed<V::V>>(s, n as int);
        }
        let mut j: usize = 0;
        while j < k
            invariant
                0 <= j <= k,
                k == t.len(),
                t == other.pairs(),
                x == self.deep_view(),
                y == other.deep_view(),
                y == map_of(t),
                rising::<PathKey, Placed<V::V>>(t),
                forall|q: Seq<char>| #[trigger] among(t, j as int, q) ==> x.contains_key(q),
            decreases k - j,
        {
            proof {
                lemma_among::<PathKey, Placed<V::V>>(t, j as int);
                lemma_entry::<PathKey, Placed<V::V>>(t, j as int);
            }
            let path = other.path_at(j);
            if !self.contains_key(path) {
                proof {
                    let q = t[j as int].0;
                    assert(values_in(y).contains_key(q));
                    assert(!values_in(x).contains_key(q));
                }
                return false;
            }
            j = j + 1;
        }
        proof {
            lemma_among::<PathKey, Placed<V::V>>(t, k as int);
            assert forall|q: Seq<char>| #[trigger] x.contains_key(q) implies y.contains_key(q) && y[q].v == x[q].v by {
                assert(among(s, n as int, q));
            }
            assert forall|q: Seq<char>| #[trigger] y.contains_key(q) implies x.contains_key(q) by {
                assert(among(t, k as int, q));
            }
            assert(values_in(x) =~= values_in(y));
        }
        true
    }

    /// The paths, in order.
    pub fn paths(&self) -> (r: Vec<RepoPath>)
        ensures
            r.deep_view() == self.pairs().map_values(|p: (Seq<char>, Placed<V::V>)| p.1.text),
            self.pairs() == pairs_of::<PathKey, Placed<V::V>>(self.deep_view()),
    {
        let n: usize = self.len();
        let mut r: Vec<RepoPath> = Vec::new();
        let mut i: usize = 0;
        while i < n
            invariant
                n == self.pairs().len(),
                0 <= i <= n,
                r@.len() == i,
                forall|j: int| 0 <= j < i ==> (#[trigger] r@[j]).deep_view() == self.pairs()[j].1.text,
            decreases n - i,
        {
            r.push(self.path_at(i).dup());
            i = i + 1;
        }
        assert(r.deep_view() =~= self.pairs().map_values(|p: (Seq<char>, Placed<V::V>)| p.1.text));
        r
    }
}

impl<V: Value> Value for PathMap<V> {
    fn dup(&self) -> (r: Self) {
        proof {
            use_type_invariant(self);
        }
        PathMap { entries: self.entries.dup() }
    }

    fn same(&self, other: &Self) -> (b: bool) {
        self.entries.same(&other.entries)
    }
}

impl<V: Value> Clone for PathMap<V> {
    fn clone(&self) -> (r: Self)
        ensures
            r.deep_view() == self.deep_view(),
    {
        self.dup()
    }
}

/// What one text puts in, another that names the same path finds, and the key keeps the
/// text that it came in with.
pub proof fn law_spellings_are_one_path<V>(m: Paths<V>, a: Seq<char>, b: Seq<char>, v: V, w: V)
    requires
        normal_path(a) == normal_path(b),
    ensures
        put_at(m, a, v).contains_key(normal_path(b)),
        put_at(m, a, v)[normal_path(b)].v == v,
        put_at(put_at(m, a, v), b, w) == put_at(m, a, w),
        !m.contains_key(normal_path(a)) ==> put_at(put_at(m, a, v), b, w)[normal_path(a)].text == a,
        well_placed(m) ==> well_placed(put_at(m, a, v)),
{
    assert(put_at(put_at(m, a, v), b, w) =~= put_at(m, a, w));
}

/// Paths are in order component by component: what lies below a path comes before all that
/// only begins with the same text, and after the path itself.
pub proof fn law_what_lies_below_comes_first(p: Seq<char>, s: Seq<char>, c: char, t: Seq<char>)
    requires
        p.len() > 0,
        p.last() != '/',
        !p.contains('.'),
        c != '/',
    ensures
        PathKey::before(p.push('/') + s, p.push(c) + t),
        PathKey::before(p, p.push('/') + s),
{
    let (a, b) = (p.push('/') + s, p.push(c) + t);
    let n = p.len() as int;
    assert forall|i: int| 0 <= i < n implies path_rank(a, i) == path_rank(b, i) && path_rank(p, i) == path_rank(a, i) by {
        assert(a[i] == p[i] && b[i] == p[i]);
        assert(p.contains(p[i]));
    }
    assert(a[n] == '/' && b[n] == c);
    assert(path_rank(b, n) > 0);
    assert(parts_at(path_ranks(a), path_ranks(b), n));
    assert(parts_at(path_ranks(p), path_ranks(a), n));
}

/// What is laid over a map wins; what it does not have stays, and so does the text of a path
/// that was there.
pub proof fn law_what_is_laid_over_wins<V>(a: Paths<V>, b: Paths<V>, k: Seq<char>)
    ensures
        laid_over(a, b).contains_key(k) <==> a.contains_key(k) || b.contains_key(k),
        b.contains_key(k) ==> laid_over(a, b)[k].v == b[k].v,
        a.contains_key(k) ==> laid_over(a, b)[k].text == a[k].text,
        a.contains_key(k) && !b.contains_key(k) ==> laid_over(a, b)[k] == a[k],
        b.contains_key(k) && !a.contains_key(k) ==> laid_over(a, b)[k] == b[k],
{
}

/// A value is put under one path, and no other is touched.
pub proof fn law_put_touches_one_path<V>(m: Paths<V>, text: Seq<char>, v: V, k: Seq<char>)
    ensures
        put_at(m, text, v).contains_key(k) <==> m.contains_key(k) || k == normal_path(text),
        put_at(m, text, v)[normal_path(text)].v == v,
        k != normal_path(text) && m.contains_key(k) ==> put_at(m, text, v)[k] == m[k],
        m.contains_key(normal_path(text)) ==> put_at(m, text, v)[normal_path(text)].text == m[normal_path(text)].text,
        !m.contains_key(normal_path(text)) ==> put_at(m, text, v)[normal_path(text)].text == text,
{
}

} // verus!
