//! Facts about sequences that loops over them need.

use crate::value::Value;
use vstd::prelude::*;

verus! {

/// Filtering one more item either appends it or leaves the result as it was.
pub proof fn lemma_filter_step<T>(s: Seq<T>, i: int, f: spec_fn(T) -> bool)
    requires
        0 <= i < s.len(),
    ensures
        s.take(i + 1).filter(f) == if f(s[i]) {
            s.take(i).filter(f).push(s[i])
        } else {
            s.take(i).filter(f)
        },
{
    reveal(Seq::filter);
    assert(s.take(i + 1).drop_last() =~= s.take(i));
    assert(s.take(i + 1).last() == s[i]);
}

/// Filtering no items gives none.
pub proof fn lemma_filter_none<T>(s: Seq<T>, f: spec_fn(T) -> bool)
    ensures
        s.take(0).filter(f) == Seq::<T>::empty(),
{
    reveal(Seq::filter);
    assert(s.take(0) =~= Seq::<T>::empty());
}

/// The first item that a filter wants is the first that it keeps.
pub proof fn lemma_filter_first<T>(s: Seq<T>, i: int, f: spec_fn(T) -> bool)
    requires
        0 <= i < s.len(),
        s.take(i).filter(f).len() == 0,
        f(s[i]),
    ensures
        s.filter(f).len() > 0,
        s.filter(f)[0] == s[i],
{
    lemma_filter_step(s, i, f);
    lemma_filter_prefix(s, i + 1, f);
    assert(s.take(i + 1).filter(f)[0] == s[i]);
}

/// What is kept of a prefix is kept first.
pub proof fn lemma_filter_prefix<T>(s: Seq<T>, i: int, f: spec_fn(T) -> bool)
    requires
        0 <= i <= s.len(),
    ensures
        s.take(i).filter(f).len() <= s.filter(f).len(),
        forall|k: int| 0 <= k < s.take(i).filter(f).len() ==> s.take(i).filter(f)[k] == #[trigger] s.filter(f)[k],
    decreases s.len() - i,
{
    if i < s.len() {
        lemma_filter_step(s, i, f);
        lemma_filter_prefix(s, i + 1, f);
        assert forall|k: int| 0 <= k < s.take(i).filter(f).len() implies s.take(i).filter(f)[k]
            == #[trigger] s.filter(f)[k] by {
            assert(s.take(i + 1).filter(f)[k] == s.filter(f)[k]);
        }
    } else {
        assert(s.take(i) =~= s);
    }
}

/// What a filter keeps are the items that it wants.
pub proof fn lemma_filter_contains<T>(s: Seq<T>, f: spec_fn(T) -> bool, x: T)
    ensures
        s.filter(f).contains(x) <==> s.contains(x) && f(x),
    decreases s.len(),
{
    reveal(Seq::filter);
    if s.len() > 0 {
        let t = s.drop_last();
        lemma_filter_contains(t, f, x);
        let r = t.filter(f);
        if s.filter(f).contains(x) {
            let i = choose|i: int| 0 <= i < s.filter(f).len() && s.filter(f)[i] == x;
            if f(s.last()) && i == r.len() {
                assert(s[s.len() - 1] == x);
            } else {
                assert(r[i] == x);
                assert(r.contains(x));
                let j = choose|j: int| 0 <= j < t.len() && t[j] == x;
                assert(s[j] == x);
            }
        }
        if s.contains(x) && f(x) {
            let j = choose|j: int| 0 <= j < s.len() && s[j] == x;
            if j < s.len() - 1 {
                assert(t[j] == x);
                assert(t.contains(x));
                let i = choose|i: int| 0 <= i < r.len() && r[i] == x;
                assert(s.filter(f)[i] == x);
            } else {
                assert(s.filter(f)[r.len() as int] == x);
            }
        }
    }
}

/// Filters that agree on the items of a sequence keep the same of it.
pub proof fn lemma_filter_agrees<T>(s: Seq<T>, f: spec_fn(T) -> bool, g: spec_fn(T) -> bool)
    requires
        forall|x: T| #[trigger] s.contains(x) ==> f(x) == g(x),
    ensures
        s.filter(f) == s.filter(g),
    decreases s.len(),
{
    reveal(Seq::filter);
    if s.len() > 0 {
        let t = s.drop_last();
        assert forall|x: T| #[trigger] t.contains(x) implies f(x) == g(x) by {
            let i = choose|i: int| 0 <= i < t.len() && t[i] == x;
            assert(s[i] == x);
            assert(s.contains(x));
        }
        lemma_filter_agrees(t, f, g);
        assert(s[s.len() - 1] == s.last());
        assert(s.contains(s.last()));
    }
}

/// Filtering what a filter keeps is filtering by both.
pub proof fn lemma_filter_twice<T>(s: Seq<T>, f: spec_fn(T) -> bool, g: spec_fn(T) -> bool)
    ensures
        s.filter(f).filter(g) == s.filter(|x: T| f(x) && g(x)),
    decreases s.len(),
{
    reveal(Seq::filter);
    if s.len() > 0 {
        let t = s.drop_last();
        lemma_filter_twice(t, f, g);
        if f(s.last()) {
            assert(s.filter(f).drop_last() =~= t.filter(f));
        }
    }
}

/// A filter that wants none of the items keeps none.
pub proof fn lemma_filter_wants_none<T>(s: Seq<T>, f: spec_fn(T) -> bool)
    requires
        forall|x: T| #[trigger] s.contains(x) ==> !f(x),
    ensures
        s.filter(f) == Seq::<T>::empty(),
{
    if s.filter(f).len() > 0 {
        let x = s.filter(f)[0];
        assert(s.filter(f).contains(x));
        lemma_filter_contains(s, f, x);
    }
}

/// Whether `x` is one of `v`, by deep view.
pub fn contains<T: Value>(v: &Vec<T>, x: &T) -> (b: bool)
    ensures
        b == v.deep_view().contains(x.deep_view()),
{
    let mut i: usize = 0;
    while i < v.len()
        invariant
            0 <= i <= v@.len(),
            forall|j: int| 0 <= j < i ==> #[trigger] v.deep_view()[j] != x.deep_view(),
        decreases v@.len() - i,
    {
        if v[i].same(x) {
            assert(v.deep_view()[i as int] == x.deep_view());
            return true;
        }
        i = i + 1;
    }
    false
}

/// Appends `x`; the deep view grows by its deep view.
pub fn push<T: Value>(v: &mut Vec<T>, x: T)
    ensures
        final(v).deep_view() == old(v).deep_view().push(x.deep_view()),
        final(v)@ == old(v)@.push(x),
{
    v.push(x);
    assert(v.deep_view() =~= old(v).deep_view().push(x.deep_view()));
}

/// A vector that holds just `x`.
pub fn single<T: Value>(x: T) -> (v: Vec<T>)
    ensures
        v.deep_view() == seq![x.deep_view()],
{
    let mut v: Vec<T> = Vec::new();
    v.push(x);
    assert(v.deep_view() =~= seq![x.deep_view()]);
    v
}

/// A vector that holds nothing.
pub fn none<T: Value>() -> (v: Vec<T>)
    ensures
        v.deep_view() == Seq::<T::V>::empty(),
        v@.len() == 0,
{
    let v: Vec<T> = Vec::new();
    assert(v.deep_view() =~= Seq::<T::V>::empty());
    v
}

} // verus!
