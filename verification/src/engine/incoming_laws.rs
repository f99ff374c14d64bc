//! How what comes in is weighed against what is here.

use crate::ancestry::Id;
use crate::bundle_codec::BodyModel;
use crate::converge::{attention, classified, is_line, law_conflict_is_a_double_edit, law_merge_picks_a_side, reads};
use crate::liveness::{computed, ids_apart, is_replaced, law_what_counts, VersionModel};
use crate::seqs::lemma_filter_contains;
use crate::types::{OutcomeModel, TreeModel};
use super::change_graph::{ordered, tree_of, NodeModel};
use super::merge_laws::{has_more, holds};
use super::negotiation::{classified_all, synced, versions_with};
use super::sync_laws::{law_sync_tells_the_worst, lemma_all_ordered, touches};
use super::{got, own_read, RepoModel};
use vstd::prelude::*;

verus! {

// ---------------------------------------------------------------------------
// Versions
// ---------------------------------------------------------------------------

/// A change is here, or comes in and was not.
pub open spec fn is_around(m: RepoModel, ns: Seq<NodeModel>, n: NodeModel) -> bool {
    (m.graph.changes.contains_key(n.id) && m.graph.changes[n.id] == n) || (!m.graph.changes.contains_key(n.id)
        && ns.contains(n))
}

/// Some version of the same change names this one as one that it stands in for.
pub open spec fn gives_way(m: RepoModel, ns: Seq<NodeModel>, n: NodeModel) -> bool {
    exists|x: NodeModel| #[trigger]
        is_around(m, ns, x) && x.predecessors.contains(n.id) && x.change_id is Some && x.change_id == n.change_id
}

/// A version of a change that counts: it is around, was not abandoned, and gives way to none.
pub open spec fn is_live(m: RepoModel, ns: Seq<NodeModel>, abandoned: Set<Id>, c: Seq<u8>, n: NodeModel) -> bool {
    is_around(m, ns, n) && n.change_id == Some(c) && !abandoned.contains(n.id) && !gives_way(m, ns, n)
}

/// A change has two versions that count.
pub open spec fn is_split(m: RepoModel, ns: Seq<NodeModel>, abandoned: Set<Id>, c: Seq<u8>) -> bool {
    exists|a: NodeModel, b: NodeModel| #[trigger]
        is_live(m, ns, abandoned, c, a) && #[trigger] is_live(m, ns, abandoned, c, b) && a.id != b.id
}

/// No two of the changes that come in have one id.
pub open spec fn come_apart(ns: Seq<NodeModel>) -> bool {
    forall|i: int, j: int| 0 <= i < j < ns.len() ==> (#[trigger] ns[i]).id != (#[trigger] ns[j]).id
}

spec fn of_node(n: NodeModel) -> VersionModel {
    (n.id, n.change_id, n.predecessors)
}

/// The versions are those of the changes around, each once.
proof fn lemma_versions(m: RepoModel, ns: Seq<NodeModel>) -> (all: Seq<NodeModel>)
    requires
        m.graph.changes.dom().finite(),
        forall|x: Id| #[trigger] m.graph.changes.contains_key(x) ==> m.graph.changes[x].id == x,
        come_apart(ns),
    ensures
        versions_with(m.graph, ns).len() == all.len(),
        forall|i: int| 0 <= i < all.len() ==> #[trigger] versions_with(m.graph, ns)[i] == of_node(all[i]),
        forall|n: NodeModel| #[trigger] all.contains(n) <==> is_around(m, ns, n),
        ids_apart(versions_with(m.graph, ns)),
{
    let here = ordered(m.graph.changes);
    let f = |n: NodeModel| !m.graph.changes.contains_key(n.id);
    let new = ns.filter(f);
    let all = here + new;
    let vs = versions_with(m.graph, ns);
    assert forall|n: NodeModel| #[trigger] all.contains(n) <==> is_around(m, ns, n) by {
        lemma_all_ordered(m.graph.changes, n);
        lemma_filter_contains(ns, f, n);
        if all.contains(n) {
            let i = choose|i: int| 0 <= i < all.len() && all[i] == n;
            if i < here.len() {
                assert(here[i] == n);
            } else {
                assert(new[i - here.len()] == n);
            }
        }
        if here.contains(n) {
            let i = choose|i: int| 0 <= i < here.len() && here[i] == n;
            assert(all[i] == n);
        }
        if new.contains(n) {
            let i = choose|i: int| 0 <= i < new.len() && new[i] == n;
            assert(all[here.len() + i] == n);
        }
    }
    lemma_filter_apart(ns, f);
    lemma_ordered_apart(m.graph.changes);
    assert forall|i: int, j: int| 0 <= i < j < vs.len() implies (#[trigger] vs[i]).0 != (#[trigger] vs[j]).0 by {
        assert(vs[i].0 == all[i].id && vs[j].0 == all[j].id);
        if j < here.len() {
            assert(here[i].id != here[j].id);
        } else if i >= here.len() {
            assert(new[i - here.len()].id != new[j - here.len()].id);
        } else {
            let (a, b) = (here[i], new[j - here.len()]);
            assert(here.contains(a));
            lemma_all_ordered(m.graph.changes, a);
            assert(new.contains(b));
            lemma_filter_contains(ns, f, b);
        }
    }
    all
}

proof fn lemma_filter_apart(ns: Seq<NodeModel>, f: spec_fn(NodeModel) -> bool)
    requires
        come_apart(ns),
    ensures
        come_apart(ns.filter(f)),
    decreases ns.len(),
{
    reveal(Seq::filter);
    if ns.len() > 0 {
        let front = ns.drop_last();
        assert(come_apart(front)) by {
            assert forall|i: int, j: int| 0 <= i < j < front.len() implies (#[trigger] front[i]).id != (
            #[trigger] front[j]).id by {
                assert(front[i] == ns[i] && front[j] == ns[j]);
            }
        }
        lemma_filter_apart(front, f);
        let r = front.filter(f);
        let t = ns.filter(f);
        assert forall|i: int, j: int| 0 <= i < j < t.len() implies (#[trigger] t[i]).id != (#[trigger] t[j]).id by {
            if j < r.len() {
                assert(r[i].id != r[j].id);
            } else {
                assert(t[j] == ns.last());
                assert(t[i] == r[i]);
                assert(r.contains(r[i]));
                lemma_filter_contains(front, f, r[i]);
                let k = choose|k: int| 0 <= k < front.len() && front[k] == r[i];
                assert(ns[k].id != ns[ns.len() - 1].id);
            }
        }
    }
}

/// The order of all changes has each once.
proof fn lemma_ordered_apart(changes: super::change_graph::Nodes)
    requires
        changes.dom().finite(),
        forall|x: Id| #[trigger] changes.contains_key(x) ==> changes[x].id == x,
    ensures
        come_apart(ordered(changes)),
{
    let e = super::change_graph::edges_of(changes);
    let ids = super::change_graph::ids_in_order(changes);
    let o = crate::ancestry::walk(e, ids);
    let ns = ordered(changes);
    assert(e.dom() =~= changes.dom());
    crate::ancestry::lemma_walk_once(e, ids);
    assert forall|i: int, j: int| 0 <= i < j < ns.len() implies (#[trigger] ns[i]).id != (#[trigger] ns[j]).id by {
        crate::ancestry::law_walk_is_ancestry(e, ids, o[i]);
        crate::ancestry::law_walk_is_ancestry(e, ids, o[j]);
        assert(o.contains(o[i]) && o.contains(o[j]));
        assert(changes.contains_key(o[i]) && changes.contains_key(o[j]));
    }
}

/// Two items of a list that a filter keeps make it keep more than one, and the other way
/// round.
proof fn lemma_two_kept(vs: Seq<VersionModel>, f: spec_fn(VersionModel) -> bool)
    ensures
        vs.filter(f).len() > 1 <==> exists|i: int, j: int|
            0 <= i < j < vs.len() && f(#[trigger] vs[i]) && f(#[trigger] vs[j]),
        vs.filter(f).len() > 0 <==> exists|i: int| 0 <= i < vs.len() && f(#[trigger] vs[i]),
    decreases vs.len(),
{
    reveal(Seq::filter);
    if vs.len() > 0 {
        let front = vs.drop_last();
        let last = vs.len() - 1;
        lemma_two_kept(front, f);
        assert(vs.last() == vs[last]);
        assert forall|i: int| 0 <= i < last implies front[i] == vs[i] by {}
        if vs.filter(f).len() > 1 {
            if front.filter(f).len() > 1 {
                let (i, j) = choose|i: int, j: int|
                    0 <= i < j < front.len() && f(#[trigger] front[i]) && f(#[trigger] front[j]);
                assert(f(vs[i]) && f(vs[j]));
            } else {
                let i = choose|i: int| 0 <= i < front.len() && f(#[trigger] front[i]);
                assert(f(vs[i]) && f(vs[last]));
            }
        }
        if exists|i: int, j: int| 0 <= i < j < vs.len() && f(#[trigger] vs[i]) && f(#[trigger] vs[j]) {
            let (i, j) = choose|i: int, j: int|
                0 <= i < j < vs.len() && f(#[trigger] vs[i]) && f(#[trigger] vs[j]);
            assert(f(front[i]));
            if j < last {
                assert(f(front[j]));
            }
        }
        if vs.filter(f).len() > 0 {
            if front.filter(f).len() > 0 {
                let i = choose|i: int| 0 <= i < front.len() && f(#[trigger] front[i]);
                assert(f(vs[i]));
            } else {
                assert(f(vs[last]));
            }
        }
        if exists|i: int| 0 <= i < vs.len() && f(#[trigger] vs[i]) {
            let i = choose|i: int| 0 <= i < vs.len() && f(#[trigger] vs[i]);
            if i < last {
                assert(f(front[i]));
            }
        }
    }
}

/// A change diverges, once some have come in, just where it has two versions that count among
/// those here and those that came.
pub proof fn law_what_diverges(m: RepoModel, ns: Seq<NodeModel>, abandoned: Set<Id>, c: Seq<u8>)
    requires
        m.graph.changes.dom().finite(),
        forall|x: Id| #[trigger] m.graph.changes.contains_key(x) ==> m.graph.changes[x].id == x,
        come_apart(ns),
    ensures
        computed(versions_with(m.graph, ns), abandoned, Set::empty()).divergent.contains(c) <==> is_split(
            m,
            ns,
            abandoned,
            c,
        ),
{
    let vs = versions_with(m.graph, ns);
    let all = lemma_versions(m, ns);
    let f = |n: VersionModel| n.1 == Some(c) && !abandoned.contains(n.0) && !is_replaced(vs, n.0);
    if vs.len() > 0 {
        law_what_counts(vs, abandoned, Set::empty(), vs[0].0, c);
    } else {
        law_what_counts(vs, abandoned, Set::empty(), Seq::empty(), c);
    }
    lemma_two_kept(vs, f);
    assert forall|i: int| 0 <= i < all.len() implies f(#[trigger] vs[i]) == is_live(m, ns, abandoned, c, all[i]) by {
        let n = all[i];
        assert(all.contains(n));
        if n.change_id == Some(c) {
            if is_replaced(vs, n.id) {
                let (x, y) = choose|x: int, y: int|
                    0 <= x < vs.len() && 0 <= y < vs.len() && (#[trigger] vs[x]).2.contains(n.id) && (#[trigger] vs[y]).0
                        == n.id && vs[x].1 is Some && vs[x].1 == vs[y].1;
                assert(y == i) by {
                    if y < i {
                        assert(vs[y].0 != vs[i].0);
                    } else if i < y {
                        assert(vs[i].0 != vs[y].0);
                    }
                }
                assert(all.contains(all[x]));
                assert(is_around(m, ns, all[x]));
                assert(gives_way(m, ns, n));
            }
            if gives_way(m, ns, n) {
                let x = choose|x: NodeModel| #[trigger]
                    is_around(m, ns, x) && x.predecessors.contains(n.id) && x.change_id is Some && x.change_id
                        == n.change_id;
                assert(all.contains(x));
                let k = choose|k: int| 0 <= k < all.len() && all[k] == x;
                assert(vs[k].2.contains(n.id) && vs[i].0 == n.id);
                assert(is_replaced(vs, n.id));
            }
        }
    }
    if vs.filter(f).len() > 1 {
        let (i, j) = choose|i: int, j: int| 0 <= i < j < vs.len() && f(#[trigger] vs[i]) && f(#[trigger] vs[j]);
        assert(vs[i].0 != vs[j].0);
        assert(is_live(m, ns, abandoned, c, all[i]) && is_live(m, ns, abandoned, c, all[j]));
    }
    if is_split(m, ns, abandoned, c) {
        let (a, b) = choose|a: NodeModel, b: NodeModel| #[trigger]
            is_live(m, ns, abandoned, c, a) && #[trigger] is_live(m, ns, abandoned, c, b) && a.id != b.id;
        assert(all.contains(a) && all.contains(b));
        let i = choose|i: int| 0 <= i < all.len() && all[i] == a;
        let j = choose|j: int| 0 <= j < all.len() && all[j] == b;
        assert(f(vs[i]) && f(vs[j]));
        if i < j {
            assert(f(vs[i]) && f(vs[j]));
        } else {
            assert(j < i);
            assert(f(vs[j]) && f(vs[i]));
        }
    }
}

// ---------------------------------------------------------------------------
// Paths
// ---------------------------------------------------------------------------

/// A change that comes in is weighed at a path: it has the path, and is no version of a
/// change that diverges.
pub open spec fn is_weighed(m: RepoModel, ns: Seq<NodeModel>, abandoned: Set<Id>, p: Seq<char>, i: int) -> bool {
    &&& 0 <= i < ns.len()
    &&& ns[i].tree.contains_key(p)
    &&& !(ns[i].change_id is Some && is_split(m, ns, abandoned, ns[i].change_id->Some_0))
}

/// Two trees have edits of their own at a path, as far as can be read.
pub open spec fn edits_apart(r: RepoModel, a: TreeModel, b: TreeModel, p: Seq<char>, now: u64) -> bool {
    exists|x: Seq<u8>, y: Seq<u8>| #[trigger]
        holds(r, a, p, now, x) && #[trigger] holds(r, b, p, now, y) && has_more(x, y) && has_more(y, x)
}

/// Two trees lead to different things at a path, and one of them cannot be read.
pub open spec fn cannot_weigh(r: RepoModel, a: TreeModel, b: TreeModel, p: Seq<char>, now: u64) -> bool {
    a.contains_key(p) && b.contains_key(p) && a[p].v.0 != b[p].v.0 && (got(r, a[p].v.0, r.identity, now) is Err || got(
        r,
        b[p].v.0,
        r.identity,
        now,
    ) is Err)
}

/// One tree has nothing at a path, or both lead to the same.
pub open spec fn nothing_new(a: TreeModel, b: TreeModel, p: Seq<char>) -> bool {
    !a.contains_key(p) || a[p].v.0 == b[p].v.0
}

/// What comes of one tree beside another.
proof fn lemma_one_weighed(r: RepoModel, a: TreeModel, b: TreeModel, p: Seq<char>, now: u64)
    requires
        b.contains_key(p),
    ensures
        ({
            let o = classified(a, b, None, own_read(r, now))[p].v;
            &&& o is Conflict <==> edits_apart(r, a, b, p, now)
            &&& o is Conflict ==> o == (OutcomeModel::Conflict { ours: a[p].v.0, theirs: b[p].v.0 })
            &&& o is RelayedUnmerged <==> cannot_weigh(r, a, b, p, now)
            &&& o is Converged <==> nothing_new(a, b, p)
        }),
{
    let opens = own_read(r, now);
    law_conflict_is_a_double_edit(a, b, None, opens, p);
    law_merge_picks_a_side(a, b, None, opens, p);
    let c = crate::converge::merge_conflicts(a, b, None, opens);
    if c.contains_key(p) {
        crate::converge::law_conflict_keeps_both_sides(a, b, None, opens, p);
        let (x, y) = choose|x: Seq<u8>, y: Seq<u8>|
            {
                &&& #[trigger] reads(a, opens, p, x)
                &&& #[trigger] reads(b, opens, p, y)
                &&& exists|l: Seq<u8>| #[trigger] is_line(x, l) && !is_line(y, l)
                &&& exists|l: Seq<u8>| #[trigger] is_line(y, l) && !is_line(x, l)
            };
        assert(holds(r, a, p, now, x) && holds(r, b, p, now, y));
        assert(has_more(x, y) && has_more(y, x));
    }
    if edits_apart(r, a, b, p, now) {
        let (x, y) = choose|x: Seq<u8>, y: Seq<u8>| #[trigger]
            holds(r, a, p, now, x) && #[trigger] holds(r, b, p, now, y) && has_more(x, y) && has_more(y, x);
        assert(reads(a, opens, p, x) && reads(b, opens, p, y));
    }
}

/// What a sync tells of a path, once it has come in: each change that came and is weighed
/// there is held against the tree that was here, with nothing in common to hold both
/// against. There is a conflict just where one of them and what was here have edits of their
/// own, and it names both; else it is left unmerged where one cannot be read; and it has
/// converged where none brought anything new.
pub proof fn law_sync_weighs_against_what_is_here(
    m: RepoModel,
    purges: Seq<(Id, Seq<char>)>,
    body: BodyModel,
    now: u64,
    abandoned: Set<Id>,
    p: Seq<char>,
)
    requires
        m.graph.changes.dom().finite(),
        forall|x: Id| #[trigger] m.graph.changes.contains_key(x) ==> m.graph.changes[x].id == x,
        come_apart(body.changes),
        synced(m, purges, body, now, abandoned) is Ok,
    ensures
        ({
            let (r, o) = synced(m, purges, body, now, abandoned)->Ok_0;
            let t = tree_of(m.graph.changes);
            let ns = body.changes;
            &&& o.contains_key(p) <==> exists|i: int| #[trigger] is_weighed(m, ns, abandoned, p, i)
            &&& o.contains_key(p) ==> {
                &&& o[p].v is Conflict <==> exists|i: int| #[trigger]
                    is_weighed(m, ns, abandoned, p, i) && edits_apart(r, t, ns[i].tree, p, now)
                &&& o[p].v is Conflict ==> exists|i: int| #[trigger]
                    is_weighed(m, ns, abandoned, p, i) && edits_apart(r, t, ns[i].tree, p, now) && o[p].v == (
                    OutcomeModel::Conflict { ours: t[p].v.0, theirs: ns[i].tree[p].v.0 })
                &&& o[p].v is RelayedUnmerged <==> !(o[p].v is Conflict) && exists|i: int| #[trigger]
                    is_weighed(m, ns, abandoned, p, i) && cannot_weigh(r, t, ns[i].tree, p, now)
                &&& o[p].v is Converged <==> forall|i: int| #[trigger]
                    is_weighed(m, ns, abandoned, p, i) ==> nothing_new(t, ns[i].tree, p)
            }
        }),
{
    let (r, o) = synced(m, purges, body, now, abandoned)->Ok_0;
    let t = tree_of(m.graph.changes);
    let ns = body.changes;
    let view = computed(versions_with(m.graph, ns), abandoned, Set::empty());
    let m1 = super::stored_objects(
        super::negotiation::purged(m, purges, now),
        crate::sorted::pairs_of::<crate::types::Oid, crate::sealed::SealedModel>(body.objs),
        body.keys,
    );
    super::negotiation::lemma_purged_keeps(m, purges, now);
    super::negotiation::lemma_stored_keeps(
        super::negotiation::purged(m, purges, now),
        crate::sorted::pairs_of::<crate::types::Oid, crate::sealed::SealedModel>(body.objs),
        body.keys,
    );
    assert(own_read(r, now) =~= own_read(m1, now));
    let opens = own_read(r, now);
    assert(o == classified_all(t, ns, view, opens));
    law_sync_tells_the_worst(t, ns, view, opens, p);
    assert forall|i: int| touches(view, ns, p, i) == #[trigger] is_weighed(m, ns, abandoned, p, i) by {
        if 0 <= i < ns.len() && ns[i].change_id is Some {
            law_what_diverges(m, ns, abandoned, ns[i].change_id->Some_0);
        }
    }
    if o.contains_key(p) {
        let k = choose|i: int| #[trigger]
            touches(view, ns, p, i) && o[p].v == classified(t, ns[i].tree, None, opens)[p].v;
        assert(is_weighed(m, ns, abandoned, p, k));
        lemma_one_weighed(r, t, ns[k].tree, p, now);
        assert forall|i: int| #[trigger] is_weighed(m, ns, abandoned, p, i) implies {
            let v = classified(t, ns[i].tree, None, opens)[p].v;
            &&& attention(v) <= attention(o[p].v)
            &&& v is Conflict <==> edits_apart(r, t, ns[i].tree, p, now)
            &&& v is RelayedUnmerged <==> cannot_weigh(r, t, ns[i].tree, p, now)
            &&& v is Converged <==> nothing_new(t, ns[i].tree, p)
        } by {
            assert(touches(view, ns, p, i));
            lemma_one_weighed(r, t, ns[i].tree, p, now);
        }
    }
}

} // verus!
