//! Paths as sequences of components.
//!
//! Two texts name the same path where they have the same components. The text without
//! anything that makes no component stands for all of them.

use crate::split::{fields, fields_of, lemma_place, lemma_place_is, place};
use crate::text::{begins_with, join, joined, push_text, same_text, starts_with};
use vstd::prelude::*;

verus! {

/// The components among the parts of a text: those that are not empty, and a dot only
/// at the beginning.
pub open spec fn kept_parts(ps: Seq<Seq<char>>) -> Seq<Seq<char>>
    decreases ps.len(),
{
    if ps.len() == 0 {
        Seq::empty()
    } else {
        let k = kept_parts(ps.drop_last());
        let p = ps.last();
        if p.len() == 0 || (p == "."@ && ps.len() > 1) {
            k
        } else {
            k.push(p)
        }
    }
}

/// The components of a path.
pub open spec fn components_of(s: Seq<char>) -> Seq<Seq<char>> {
    kept_parts(fields_of(s, '/'))
}

/// The path begins at the root.
pub open spec fn is_rooted(s: Seq<char>) -> bool {
    begins_with(s, "/"@)
}

/// The text of a path with these components.
pub open spec fn path_text(rooted: bool, parts: Seq<Seq<char>>) -> Seq<char> {
    (if rooted {
        "/"@
    } else {
        ""@
    }) + joined(parts, "/"@)
}

/// The text that stands for all that name the same path: no separator twice or at the
/// end, no dot but at the beginning.
pub open spec fn normal_path(s: Seq<char>) -> Seq<char> {
    path_text(is_rooted(s), components_of(s))
}

/// The text that stands for a path.
pub fn normalize(s: &str) -> (r: String)
    ensures
        r@ == normal_path(s@),
{
    let parts = fields(s, '/');
    let ghost ps = parts.deep_view();
    let mut kept: Vec<String> = crate::seqs::none();
    let mut i: usize = 0;
    assert(ps.take(0) =~= Seq::<Seq<char>>::empty());
    while i < parts.len()
        invariant
            0 <= i <= parts@.len(),
            ps == parts.deep_view(),
            kept.deep_view() == kept_parts(ps.take(i as int)),
        decreases parts@.len() - i,
    {
        let p = &parts[i];
        proof {
            assert(ps.take(i as int + 1).drop_last() =~= ps.take(i as int));
            assert(ps.take(i as int + 1).last() == p@);
        }
        let empty = same_text(p.as_str(), "");
        let dot = same_text(p.as_str(), ".");
        proof {
            reveal_strlit("");
            assert(empty == (p@.len() == 0)) by {
                if p@.len() == 0 {
                    assert(p@ =~= ""@);
                }
            }
        }
        if !empty && !(dot && i > 0) {
            crate::seqs::push(&mut kept, p.clone());
        }
        i = i + 1;
    }
    assert(ps.take(ps.len() as int) =~= ps);
    let mut r = String::new();
    if starts_with(s, "/") {
        push_text(&mut r, "/");
    }
    push_text(&mut r, join(&kept, "/").as_str());
    proof {
        reveal_strlit("");
        assert(r@ =~= normal_path(s@));
    }
    r
}

/// The parts of a text hold no separator.
proof fn lemma_fields_apart(s: Seq<char>, c: char)
    ensures
        fields_of(s, c).len() > 0,
        forall|i: int| 0 <= i < fields_of(s, c).len() ==> !(#[trigger] fields_of(s, c)[i]).contains(c),
    decreases s.len(),
{
    lemma_place(s, c);
    let n = place(s, c);
    let f = fields_of(s, c);
    if 0 <= n < s.len() {
        let rest = fields_of(s.skip(n + 1), c);
        lemma_fields_apart(s.skip(n + 1), c);
        assert forall|i: int| 0 <= i < f.len() implies !(#[trigger] f[i]).contains(c) by {
            if i == 0 {
                assert(f[0] == s.take(n));
            } else {
                assert(f[i] == rest[i - 1]);
            }
        }
    } else {
        assert(f =~= seq![s]);
    }
}

/// Parts that are put behind one more.
proof fn lemma_joined_first(a: Seq<char>, rest: Seq<Seq<char>>, sep: Seq<char>)
    requires
        rest.len() > 0,
    ensures
        joined(seq![a] + rest, sep) == a + sep + joined(rest, sep),
    decreases rest.len(),
{
    let all = seq![a] + rest;
    assert(all.drop_last() =~= seq![a] + rest.drop_last());
    assert(all.last() == rest.last());
    if rest.len() == 1 {
        assert(all.drop_last() =~= seq![a]);
        assert(joined(seq![a], sep) == a);
    } else {
        lemma_joined_first(a, rest.drop_last(), sep);
        assert(a + sep + joined(rest.drop_last(), sep) + sep + rest.last() =~= a + sep + (joined(
            rest.drop_last(),
            sep,
        ) + sep + rest.last()));
    }
}

/// What is put together with separators comes apart at them.
proof fn lemma_fields_back(ks: Seq<Seq<char>>, c: char)
    requires
        ks.len() > 0,
        forall|i: int| 0 <= i < ks.len() ==> !(#[trigger] ks[i]).contains(c),
    ensures
        fields_of(joined(ks, seq![c]), c) == ks,
    decreases ks.len(),
{
    let a = ks[0];
    let s = joined(ks, seq![c]);
    assert(!a.contains(c));
    if ks.len() == 1 {
        lemma_place(a, c);
        if 0 <= place(a, c) < a.len() {
            assert(a.contains(a[place(a, c)]));
        }
        assert(ks =~= seq![a]);
    } else {
        let rest = ks.skip(1);
        assert(ks =~= seq![a] + rest);
        lemma_joined_first(a, rest, seq![c]);
        assert forall|i: int| 0 <= i < rest.len() implies !(#[trigger] rest[i]).contains(c) by {
            assert(rest[i] == ks[i + 1]);
        }
        lemma_fields_back(rest, c);
        let tail = joined(rest, seq![c]);
        assert(s =~= a + seq![c] + tail);
        assert forall|i: int| 0 <= i < a.len() implies s[i] != c by {
            assert(a.contains(a[i]));
        }
        lemma_place_is(s, c, a.len() as int);
        assert(s.take(a.len() as int) =~= a);
        assert(s.skip(a.len() as int + 1) =~= tail);
    }
}

/// What is kept of some parts: each is one of them and not empty, and a dot is the
/// first and stood first.
proof fn lemma_kept(ps: Seq<Seq<char>>)
    ensures
        ({
            let k = kept_parts(ps);
            &&& forall|i: int|
                0 <= i < k.len() ==> (#[trigger] k[i]).len() > 0 && ps.contains(k[i]) && (k[i] == "."@ ==> i == 0
                    && ps[0] == "."@)
        }),
    decreases ps.len(),
{
    if ps.len() > 0 {
        let front = ps.drop_last();
        lemma_kept(front);
        let k = kept_parts(ps);
        let kf = kept_parts(front);
        assert forall|i: int| 0 <= i < k.len() implies (#[trigger] k[i]).len() > 0 && ps.contains(k[i]) && (k[i]
            == "."@ ==> i == 0 && ps[0] == "."@) by {
            if i < kf.len() {
                assert(k[i] == kf[i]);
                let j = choose|j: int| 0 <= j < front.len() && front[j] == kf[i];
                assert(ps[j] == k[i]);
                if front.len() > 0 {
                    assert(front[0] == ps[0]);
                }
            } else {
                assert(k[i] == ps.last());
                assert(ps[ps.len() - 1] == k[i]);
            }
        }
    }
}

/// Parts that are components are all kept.
proof fn lemma_all_kept(ps: Seq<Seq<char>>)
    requires
        forall|i: int| 0 <= i < ps.len() ==> (#[trigger] ps[i]).len() > 0 && (ps[i] == "."@ ==> i == 0),
    ensures
        kept_parts(ps) == ps,
    decreases ps.len(),
{
    if ps.len() > 0 {
        let front = ps.drop_last();
        assert forall|i: int| 0 <= i < front.len() implies (#[trigger] front[i]).len() > 0 && (front[i] == "."@ ==> i
            == 0) by {
            assert(front[i] == ps[i]);
        }
        lemma_all_kept(front);
        assert(ps.last() == ps[ps.len() - 1]);
        assert(front.push(ps.last()) =~= ps);
    }
}

/// An empty part in front of others is not kept.
proof fn lemma_empty_first(ks: Seq<Seq<char>>)
    requires
        forall|i: int| 0 <= i < ks.len() ==> (#[trigger] ks[i]).len() > 0 && ks[i] != "."@,
    ensures
        kept_parts(seq![Seq::<char>::empty()] + ks) == ks,
    decreases ks.len(),
{
    let ps = seq![Seq::<char>::empty()] + ks;
    if ks.len() == 0 {
        assert(ps.drop_last() =~= Seq::<Seq<char>>::empty());
        assert(kept_parts(ps.drop_last()) =~= ks);
    } else {
        let front = ks.drop_last();
        assert forall|i: int| 0 <= i < front.len() implies (#[trigger] front[i]).len() > 0 && front[i] != "."@ by {
            assert(front[i] == ks[i]);
        }
        lemma_empty_first(front);
        assert(ps.drop_last() =~= seq![Seq::<char>::empty()] + front);
        assert(ps.last() == ks.last());
        assert(ks.last() == ks[ks.len() - 1]);
        assert(front.push(ks.last()) =~= ks);
    }
}

/// The text that stands for a path has the same components and begins where it does.
pub proof fn lemma_normal_components(s: Seq<char>)
    ensures
        components_of(normal_path(s)) == components_of(s),
        is_rooted(normal_path(s)) == is_rooted(s),
{
    reveal_strlit("/");
    reveal_strlit("");
    reveal_strlit(".");
    let ps = fields_of(s, '/');
    let ks = components_of(s);
    let t = normal_path(s);
    lemma_fields_apart(s, '/');
    lemma_kept(ps);
    lemma_place(s, '/');
    assert("/"@ =~= seq!['/']);
    assert forall|i: int| 0 <= i < ks.len() implies !(#[trigger] ks[i]).contains('/') by {
        let j = choose|j: int| 0 <= j < ps.len() && ps[j] == ks[i];
        assert(!ps[j].contains('/'));
    }
    let body = joined(ks, "/"@);
    if ks.len() > 0 {
        lemma_fields_back(ks, '/');
    }
    if is_rooted(s) {
        assert(s[0] == '/') by {
            assert(s.subrange(0, 1)[0] == '/');
        }
        lemma_place_is(s, '/', 0);
        assert(ps[0] =~= Seq::<char>::empty());
        assert(t =~= seq!['/'] + body);
        lemma_place_is(t, '/', 0);
        assert(t.take(0) =~= Seq::<char>::empty());
        assert(t.skip(1) =~= body);
        assert(t.subrange(0, 1) =~= "/"@);
        assert forall|i: int| 0 <= i < ks.len() implies (#[trigger] ks[i]).len() > 0 && ks[i] != "."@ by {
            if ks[i] == "."@ {
                assert(ps[0].len() == 1);
            }
        }
        if ks.len() > 0 {
            assert(fields_of(t, '/') =~= seq![Seq::<char>::empty()] + ks);
            lemma_empty_first(ks);
        } else {
            assert(body =~= Seq::<char>::empty());
            lemma_place(body, '/');
            assert(fields_of(body, '/') =~= seq![Seq::<char>::empty()]);
            assert(fields_of(t, '/') =~= seq![Seq::<char>::empty(), Seq::<char>::empty()]);
            let two = seq![Seq::<char>::empty(), Seq::<char>::empty()];
            lemma_empty_first(Seq::empty());
            assert(two.drop_last() =~= seq![Seq::<char>::empty()] + Seq::<Seq<char>>::empty());
            assert(kept_parts(two) =~= ks);
        }
    } else {
        assert(t =~= body);
        if ks.len() > 0 {
            lemma_all_kept(ks);
            assert(!is_rooted(t)) by {
                lemma_joined_begins(ks);
                if is_rooted(t) {
                    assert(t.subrange(0, 1)[0] == '/');
                    assert(ks[0].contains(ks[0][0]));
                }
            }
        } else {
            assert(body =~= Seq::<char>::empty());
            lemma_place(body, '/');
            assert(fields_of(t, '/') =~= seq![Seq::<char>::empty()]);
            lemma_empty_first(Seq::empty());
            assert(seq![Seq::<char>::empty()] =~= seq![Seq::<char>::empty()] + Seq::<Seq<char>>::empty());
            assert(ks =~= Seq::<Seq<char>>::empty());
        }
    }
}

/// Parts that are put together begin with the first.
proof fn lemma_joined_begins(ks: Seq<Seq<char>>)
    requires
        ks.len() > 0,
        ks[0].len() > 0,
    ensures
        joined(ks, "/"@).len() > 0,
        joined(ks, "/"@)[0] == ks[0][0],
    decreases ks.len(),
{
    if ks.len() > 1 {
        assert(ks.drop_last()[0] == ks[0]);
        lemma_joined_begins(ks.drop_last());
    }
}

/// Two texts stand for the same path if and only if they have the same components and
/// both begin at the root or neither does; and what stands for a path stands for
/// itself.
pub proof fn law_paths_are_their_components(a: Seq<char>, b: Seq<char>)
    ensures
        normal_path(a) == normal_path(b) <==> components_of(a) == components_of(b) && is_rooted(a) == is_rooted(b),
        normal_path(normal_path(a)) == normal_path(a),
{
    lemma_normal_components(a);
    lemma_normal_components(b);
}

} // verus!
