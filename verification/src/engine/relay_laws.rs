//! What one side asks another for, and what a relay keeps.

use crate::ancestry::{closure_of, reaches, Id};
use crate::bundle_codec::{parse_frame, BodyModel, FrameModel};
use crate::seqs::lemma_filter_contains;
use crate::types::ErrorModel;
use super::change_graph::{edges_of, is_working, line_tree, ordered, with_nodes, NodeModel};
use super::negotiation::{
    any_names, attested, burned_all, complete, gathered_purges, lacks, names, offered, sendable, stowed,
    tree_is_here,
};
use super::sync_laws::{asks, is_signed, law_objects_come_in, lemma_all_ordered, lemma_first_bad};
use super::RepoModel;
use vstd::prelude::*;

verus! {

// ---------------------------------------------------------------------------
// Asking
// ---------------------------------------------------------------------------

/// A change leads to an object at some path.
pub open spec fn leads_to(n: NodeModel, oid: Id) -> bool {
    exists|p: Seq<char>| #[trigger] n.tree.contains_key(p) && n.tree[p].v.0 == oid
}

/// An object is offered just where it is here and some change leads to it that the other
/// side does not name and that is not waiting for its author's signature.
pub proof fn law_what_is_offered(m: RepoModel, have: Seq<Id>, oid: Id)
    requires
        m.graph.changes.dom().finite(),
        forall|x: Id| #[trigger] m.graph.changes.contains_key(x) ==> m.graph.changes[x].id == x,
    ensures
        offered(m, have).contains(oid) <==> m.objects.contains_key(oid) && exists|c: Id| #[trigger]
            m.graph.changes.contains_key(c) && !have.contains(c) && (m.graph.changes[c].author is None
                || m.graph.changes[c].signature is Some) && leads_to(m.graph.changes[c], oid),
{
    let ns = sendable(m, have);
    let all = ordered(m.graph.changes);
    let f = |n: NodeModel| !have.contains(n.id) && !is_working(n);
    if any_names(ns, oid) {
        let i = choose|i: int| 0 <= i < ns.len() && names(#[trigger] ns[i], oid);
        assert(ns.contains(ns[i]));
        lemma_filter_contains(all, f, ns[i]);
        lemma_all_ordered(m.graph.changes, ns[i]);
        assert(leads_to(ns[i], oid));
        assert(m.graph.changes.contains_key(ns[i].id));
    }
    if exists|c: Id| #[trigger]
        m.graph.changes.contains_key(c) && !have.contains(c) && (m.graph.changes[c].author is None
            || m.graph.changes[c].signature is Some) && leads_to(m.graph.changes[c], oid) {
        let c = choose|c: Id| #[trigger]
            m.graph.changes.contains_key(c) && !have.contains(c) && (m.graph.changes[c].author is None
                || m.graph.changes[c].signature is Some) && leads_to(m.graph.changes[c], oid);
        let n = m.graph.changes[c];
        lemma_all_ordered(m.graph.changes, n);
        lemma_filter_contains(all, f, n);
        let i = choose|i: int| 0 <= i < ns.len() && ns[i] == n;
        assert(names(ns[i], oid));
    }
}

/// There is an unsigned tip just where some change names an author and carries no signature.
pub proof fn law_unsigned_is_told(m: RepoModel)
    requires
        m.graph.changes.dom().finite(),
        forall|x: Id| #[trigger] m.graph.changes.contains_key(x) ==> m.graph.changes[x].id == x,
    ensures
        (exists|i: int|
            0 <= i < ordered(m.graph.changes).len() && is_working(
                #[trigger] ordered(m.graph.changes)[i],
            )) <==> exists|c: Id| #[trigger]
            m.graph.changes.contains_key(c) && m.graph.changes[c].author is Some && m.graph.changes[c].signature is None,
{
    let all = ordered(m.graph.changes);
    if exists|i: int| 0 <= i < all.len() && is_working(#[trigger] all[i]) {
        let i = choose|i: int| 0 <= i < all.len() && is_working(#[trigger] all[i]);
        assert(all.contains(all[i]));
        lemma_all_ordered(m.graph.changes, all[i]);
        assert(m.graph.changes.contains_key(all[i].id));
    }
    if exists|c: Id| #[trigger]
        m.graph.changes.contains_key(c) && m.graph.changes[c].author is Some && m.graph.changes[c].signature is None {
        let c = choose|c: Id| #[trigger]
            m.graph.changes.contains_key(c) && m.graph.changes[c].author is Some && m.graph.changes[c].signature is None;
        let n = m.graph.changes[c];
        lemma_all_ordered(m.graph.changes, n);
        let i = choose|i: int| 0 <= i < all.len() && all[i] == n;
        assert(is_working(all[i]));
    }
}

/// What is asked for are the objects that are offered and are neither here nor burned here.
/// A head is named as known only if every object is here that it or an ancestor leads to.
pub proof fn law_what_is_asked_for(m: RepoModel, some: Seq<Id>, oid: Id, h: Id, a: Id, p: Seq<char>)
    ensures
        some.filter(|o: Id| lacks(m, o)).contains(oid) <==> some.contains(oid) && !m.objects.contains_key(oid)
            && !m.burns.contains_key(oid),
        m.graph.heads.filter(|h: Id| complete(m, h)).contains(h) ==> m.graph.heads.contains(h),
        m.graph.heads.filter(|h: Id| complete(m, h)).contains(h) && reaches(edges_of(m.graph.changes), h, a)
            && line_tree(m.graph.changes, a).contains_key(p) ==> m.objects.contains_key(
            line_tree(m.graph.changes, a)[p].v.0,
        ),
        m.graph.heads.contains(h) && (forall|b: Id, q: Seq<char>|
            #![trigger line_tree(m.graph.changes, b).contains_key(q)]
            reaches(edges_of(m.graph.changes), h, b) && line_tree(m.graph.changes, b).contains_key(q)
                ==> m.objects.contains_key(line_tree(m.graph.changes, b)[q].v.0)) ==> m.graph.heads.filter(
            |h: Id| complete(m, h),
        ).contains(h),
{
    let e = edges_of(m.graph.changes);
    lemma_filter_contains(some, |o: Id| lacks(m, o), oid);
    lemma_filter_contains(m.graph.heads, |h: Id| complete(m, h), h);
    assert(seq![h][0] == h);
    assert(seq![h].contains(h));
    if complete(m, h) && reaches(e, h, a) {
        assert(closure_of(e, seq![h]).contains(a));
    }
    if forall|b: Id, q: Seq<char>|
        #![trigger line_tree(m.graph.changes, b).contains_key(q)]
        reaches(e, h, b) && line_tree(m.graph.changes, b).contains_key(q) ==> m.objects.contains_key(
            line_tree(m.graph.changes, b)[q].v.0,
        ) {
        assert forall|b: Id| #[trigger] closure_of(e, seq![h]).contains(b) implies tree_is_here(m, b) by {
            let s = choose|s: Id| seq![h].contains(s) && #[trigger] reaches(e, s, b);
            assert(s == h);
        }
    }
}

// ---------------------------------------------------------------------------
// A relay
// ---------------------------------------------------------------------------

/// Purges are gathered each once: those that were there, in turn, and behind them those that
/// are new.
pub proof fn law_purges_are_gathered(a: Seq<(Id, Seq<char>)>, b: Seq<(Id, Seq<char>)>, x: (Id, Seq<char>))
    ensures
        gathered_purges(a, b).contains(x) <==> a.contains(x) || b.contains(x),
        a.len() <= gathered_purges(a, b).len(),
        gathered_purges(a, b).take(a.len() as int) == a,
        a.no_duplicates() ==> gathered_purges(a, b).no_duplicates(),
    decreases b.len(),
{
    if b.len() > 0 {
        let front = b.drop_last();
        let g = gathered_purges(a, front);
        let r = gathered_purges(a, b);
        law_purges_are_gathered(a, front, x);
        assert(b[b.len() - 1] == b.last());
        if b.contains(x) && x != b.last() {
            let i = choose|i: int| 0 <= i < b.len() && b[i] == x;
            assert(front[i] == x);
        }
        if front.contains(x) {
            let i = choose|i: int| 0 <= i < front.len() && front[i] == x;
            assert(b[i] == x);
        }
        if !g.contains(b.last()) {
            assert(r[g.len() as int] == b.last());
            assert(r.take(a.len() as int) =~= a) by {
                assert(g.take(a.len() as int) =~= a);
                assert forall|i: int| 0 <= i < a.len() implies r[i] == a[i] by {
                    assert(r[i] == g[i]);
                    assert(g.take(a.len() as int)[i] == a[i]);
                }
            }
            if g.contains(x) {
                let i = choose|i: int| 0 <= i < g.len() && g[i] == x;
                assert(r[i] == x);
            }
            if r.contains(x) && x != b.last() {
                let i = choose|i: int| 0 <= i < r.len() && r[i] == x;
                assert(g[i] == x);
            }
        } else {
            if x == b.last() {
                assert(b.contains(x));
            }
        }
    } else {
        assert(a.take(a.len() as int) =~= a);
    }
}

/// A relay takes in just what a sync brings: it refuses any other bundle, and one with a
/// change whose authorship does not hold. It burns what it is asked to, keeps the purges to
/// hand them on, takes in objects, changes and attestations, and never merges: it drops no
/// key on account of a purge, and neither conflicts nor grants change.
pub proof fn law_relay_keeps_what_comes(
    m: RepoModel,
    bundle: Seq<u8>,
    purges: Seq<(Id, Seq<char>)>,
    body: BodyModel,
    x: Id,
)
    requires
        parse_frame(bundle) == Ok::<FrameModel, ErrorModel>(FrameModel::Sync { purges, body }),
        body.objs.dom().finite(),
    ensures
        ({
            let r = stowed(m, bundle);
            let after = r->Ok_0;
            let burns = asks(purges, x, "\u{0}burn\u{0}"@) && !m.burns.contains_key(x);
            let new = body.objs.contains_key(x) && !(m.objects.contains_key(x) && !burns) && !m.burns.contains_key(x)
                && !burns;
            &&& r is Ok <==> forall|i: int| 0 <= i < body.changes.len() ==> is_signed(#[trigger] body.changes[i])
            &&& r is Ok ==> {
                &&& after.burns.contains_key(x) <==> m.burns.contains_key(x) || burns
                &&& after.objects.contains_key(x) <==> (m.objects.contains_key(x) && !burns) || new
                &&& m.objects.contains_key(x) && !burns ==> after.objects[x] == m.objects[x]
                &&& new ==> after.objects[x] == body.objs[x]
                &&& m.keys.contains_key(x) ==> after.keys.contains_key(x) && after.keys[x] == m.keys[x]
                &&& after.purges == gathered_purges(m.purges, purges)
                &&& after.graph == with_nodes(m.graph, body.changes)
                &&& after.attestations == attested(m.attestations, body.attestations)
                &&& after.conflicts == m.conflicts && after.manifest == m.manifest
                &&& after.identity == m.identity && after.author == m.author
            }
        }),
{
    lemma_burned_all(m, purges, 0, x);
    let m0 = burned_all(m, purges, 0);
    law_objects_come_in(m0, body.objs, body.keys, x);
    lemma_first_bad(body.changes);
}

/// No bundle but a sync is taken in by a relay.
pub proof fn law_relay_takes_only_syncs(m: RepoModel, bundle: Seq<u8>)
    requires
        parse_frame(bundle) is Err || !(parse_frame(bundle)->Ok_0 is Sync),
    ensures
        stowed(m, bundle) is Err,
{
}

proof fn lemma_burned_all(m: RepoModel, ps: Seq<(Id, Seq<char>)>, at: u64, x: Id)
    ensures
        ({
            let r = burned_all(m, ps, at);
            let burns = asks(ps, x, "\u{0}burn\u{0}"@) && !m.burns.contains_key(x);
            &&& r.objects.contains_key(x) <==> m.objects.contains_key(x) && !burns
            &&& r.objects.contains_key(x) ==> r.objects[x] == m.objects[x]
            &&& r.burns.contains_key(x) <==> m.burns.contains_key(x) || burns
            &&& r == (RepoModel { objects: r.objects, burns: r.burns, ..m })
        }),
    decreases ps.len(),
{
    let marker = "\u{0}burn\u{0}"@;
    if ps.len() == 0 {
        assert(!asks(ps, x, marker));
    } else {
        let front = ps.drop_last();
        let p = ps.last();
        lemma_burned_all(m, front, at, x);
        assert(ps[ps.len() - 1] == p);
        assert(asks(ps, x, marker) <==> asks(front, x, marker) || p == (x, marker)) by {
            if asks(ps, x, marker) {
                let i = choose|i: int| 0 <= i < ps.len() && #[trigger] ps[i] == (x, marker);
                if i < front.len() {
                    assert(front[i] == ps[i]);
                }
            }
            if asks(front, x, marker) {
                let i = choose|i: int| 0 <= i < front.len() && #[trigger] front[i] == (x, marker);
                assert(ps[i] == front[i]);
            }
        }
        if p.0 != x {
            lemma_burned_all(m, front, at, p.0);
        }
    }
}

} // verus!
