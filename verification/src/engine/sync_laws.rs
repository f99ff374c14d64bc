//! What travels, and what becomes of it where it arrives.

use crate::ancestry::{
    acyclic, law_walk_is_ancestry, law_walk_is_topological, lemma_reaches_self, stands_before, walk, Id,
};
use crate::attestation::{attestations_in_order, attests, filed_right, law_log_is_in_order, AttestationModel, LogModel};
use crate::bundle_codec::BodyModel;
use crate::converge::{attention, classified, Opens};
use crate::crypto::ed25519_accepts;
use crate::escrow::EscrowModel;
use crate::liveness::LivenessModel;
use crate::sealed::SealedModel;
use crate::seqs::lemma_filter_contains;
use crate::sorted::{lemma_entry, lemma_map_is_listed, lists, members_of, pairs_of, place_of};
use crate::types::{Oid, TreeModel};
use super::change_graph::{edges_of, ids_in_order, ordered, with_nodes, GraphModel, NodeModel, Nodes};
use super::negotiation::{
    any_names, any_names_openly, attested, batches, classified_all, count_of, has_id, is_full, names, names_openly,
    packed, purged, sendable, size_of, sync_body, synced,
};
use super::{authorship_holds, first_bad, stored, stored_objects, RepoModel};
use vstd::prelude::*;

verus! {

// ---------------------------------------------------------------------------
// Storing
// ---------------------------------------------------------------------------

/// An object is sealed for someone: for everyone, or for them.
pub open spec fn is_for(obj: SealedModel, who: Seq<char>) -> bool {
    obj.grant_ids.contains("*"@) || obj.grant_ids.contains(who)
}

/// An object comes in at an address, unless one is there or was burned there. Its key, if
/// it comes along and this identity is among those the object is for, goes on the ring, or
/// into escrow if the object is under embargo, unless one is there. Nothing else changes.
pub proof fn law_object_comes_in(m: RepoModel, addr: Id, obj: SealedModel, key: Option<Seq<u8>>)
    ensures
        ({
            let r = stored(m, addr, obj, key);
            let new = !m.burns.contains_key(addr) && !m.objects.contains_key(addr);
            let keyed = new && key is Some && is_for(obj, m.identity);
            &&& r.objects == if new {
                m.objects.insert(addr, obj)
            } else {
                m.objects
            }
            &&& r.keys == if keyed && !(obj.vis is Embargoed) && !m.keys.contains_key(addr) {
                m.keys.insert(addr, key->Some_0)
            } else {
                m.keys
            }
            &&& r.escrow == if keyed && obj.vis is Embargoed && !m.escrow.contains_key(addr) {
                m.escrow.insert(addr, EscrowModel { key: key->Some_0, reveal_at: obj.vis->reveal_at })
            } else {
                m.escrow
            }
            &&& r == (RepoModel { objects: r.objects, keys: r.keys, escrow: r.escrow, ..m })
        }),
{
}

/// An object that is brought along and can come in.
pub open spec fn can_come(m: RepoModel, objs: Map<Id, SealedModel>, x: Id) -> bool {
    objs.contains_key(x) && !m.objects.contains_key(x) && !m.burns.contains_key(x)
}

/// What stands at an address once some objects came in, each with its key if one came
/// along.
pub open spec fn came_in(
    m: RepoModel,
    objs: Map<Id, SealedModel>,
    keys: Map<Id, Seq<u8>>,
    r: RepoModel,
    x: Id,
) -> bool {
    let keyed = can_come(m, objs, x) && keys.contains_key(x) && is_for(objs[x], m.identity);
    &&& r.objects.contains_key(x) <==> m.objects.contains_key(x) || can_come(m, objs, x)
    &&& m.objects.contains_key(x) ==> r.objects[x] == m.objects[x]
    &&& can_come(m, objs, x) ==> r.objects[x] == objs[x]
    &&& r.keys.contains_key(x) <==> m.keys.contains_key(x) || (keyed && !(objs[x].vis is Embargoed))
    &&& m.keys.contains_key(x) ==> r.keys[x] == m.keys[x]
    &&& !m.keys.contains_key(x) && r.keys.contains_key(x) ==> r.keys[x] == keys[x]
    &&& r.escrow.contains_key(x) <==> m.escrow.contains_key(x) || (keyed && objs[x].vis is Embargoed)
    &&& m.escrow.contains_key(x) ==> r.escrow[x] == m.escrow[x]
    &&& !m.escrow.contains_key(x) && r.escrow.contains_key(x) ==> r.escrow[x] == (EscrowModel {
        key: keys[x],
        reveal_at: objs[x].vis->reveal_at,
    })
}

proof fn lemma_came_in(
    m: RepoModel,
    s: Seq<(Id, SealedModel)>,
    objs: Map<Id, SealedModel>,
    keys: Map<Id, Seq<u8>>,
    x: Id,
)
    requires
        lists::<Oid, SealedModel>(s, objs),
    ensures
        came_in(m, objs, keys, stored_objects(m, s, keys), x),
        ({
            let r = stored_objects(m, s, keys);
            r == (RepoModel { objects: r.objects, keys: r.keys, escrow: r.escrow, ..m })
        }),
    decreases s.len(),
{
    if s.len() > 0 {
        let front = s.drop_last();
        let (addr, obj) = s.last();
        crate::sorted::lemma_drop_last::<Oid, SealedModel>(s);
        let before = objs.remove(addr);
        lemma_came_in(m, front, before, keys, x);
        lemma_entry::<Oid, SealedModel>(s, s.len() - 1);
        if x != addr {
            lemma_came_in(m, front, before, keys, addr);
        }
    } else {
        assert(!objs.contains_key(x));
    }
}

/// Objects that come in together each come in as they would alone.
pub proof fn law_objects_come_in(m: RepoModel, objs: Map<Id, SealedModel>, keys: Map<Id, Seq<u8>>, x: Id)
    requires
        objs.dom().finite(),
    ensures
        came_in(m, objs, keys, stored_objects(m, pairs_of::<Oid, SealedModel>(objs), keys), x),
        ({
            let r = stored_objects(m, pairs_of::<Oid, SealedModel>(objs), keys);
            r == (RepoModel { objects: r.objects, keys: r.keys, escrow: r.escrow, ..m })
        }),
{
    lemma_map_is_listed::<Oid, SealedModel>(objs);
    lemma_came_in(m, pairs_of::<Oid, SealedModel>(objs), objs, keys, x);
}

// ---------------------------------------------------------------------------
// Purges
// ---------------------------------------------------------------------------

/// Among some purges is this one.
pub open spec fn asks(ps: Seq<(Id, Seq<char>)>, oid: Id, who: Seq<char>) -> bool {
    exists|i: int| 0 <= i < ps.len() && #[trigger] ps[i] == (oid, who)
}

/// A purge that names this identity takes its key away; one that asks for a burn destroys
/// the object, unless it was burned before, and leaves a tombstone that names nobody. No
/// other key or object goes, and nothing else changes.
pub proof fn law_purges_take_effect(m: RepoModel, ps: Seq<(Id, Seq<char>)>, at: u64, x: Id)
    requires
        m.identity != "\u{0}burn\u{0}"@,
    ensures
        ({
            let r = purged(m, ps, at);
            let burns = asks(ps, x, "\u{0}burn\u{0}"@) && !m.burns.contains_key(x);
            &&& r.keys.contains_key(x) <==> m.keys.contains_key(x) && !asks(ps, x, m.identity)
            &&& r.keys.contains_key(x) ==> r.keys[x] == m.keys[x]
            &&& r.objects.contains_key(x) <==> m.objects.contains_key(x) && !burns
            &&& r.objects.contains_key(x) ==> r.objects[x] == m.objects[x]
            &&& r.burns.contains_key(x) <==> m.burns.contains_key(x) || burns
            &&& m.burns.contains_key(x) ==> r.burns[x] == m.burns[x]
            &&& burns ==> r.burns[x].oid == x && r.burns[x].burner == Seq::new(32, |i: int| 0u8) && r.burns[x].burned_at
                == at
            &&& r == (RepoModel { keys: r.keys, objects: r.objects, burns: r.burns, ..m })
        }),
    decreases ps.len(),
{
    let marker = "\u{0}burn\u{0}"@;
    if ps.len() == 0 {
        assert(!asks(ps, x, marker) && !asks(ps, x, m.identity));
    } else {
        let front = ps.drop_last();
        let p = ps.last();
        law_purges_take_effect(m, front, at, x);
        assert(ps[ps.len() - 1] == p);
        assert forall|who: Seq<char>| #[trigger] asks(ps, x, who) <==> asks(front, x, who) || p == (x, who) by {
            if asks(ps, x, who) {
                let i = choose|i: int| 0 <= i < ps.len() && #[trigger] ps[i] == (x, who);
                if i < front.len() {
                    assert(front[i] == ps[i]);
                }
            }
            if asks(front, x, who) {
                let i = choose|i: int| 0 <= i < front.len() && #[trigger] front[i] == (x, who);
                assert(ps[i] == front[i]);
            }
        }
        assert(asks(ps, x, marker) <==> asks(front, x, marker) || p == (x, marker));
        assert(asks(ps, x, m.identity) <==> asks(front, x, m.identity) || p == (x, m.identity));
        if p.0 != x {
            law_purges_take_effect(m, front, at, p.0);
        }
        assert(crate::burn::zeros(32) =~= Seq::new(32, |i: int| 0u8));
    }
}

// ---------------------------------------------------------------------------
// Attestations
// ---------------------------------------------------------------------------

/// An attestation that holds and stands under this key comes in at this place.
pub open spec fn brings(atts: Seq<AttestationModel>, k: (Seq<u8>, (Seq<u8>, Seq<char>)), i: int) -> bool {
    0 <= i < atts.len() && attests(atts[i]) && (atts[i].change_id, (atts[i].attester, atts[i].role)) == k
}

/// Of the attestations that come in, those whose signature holds stand under their change,
/// attester and role, the last one for each; the others do not come in, and what else was
/// there stays.
pub proof fn law_attestations_come_in(log: LogModel, atts: Seq<AttestationModel>, k: (Seq<u8>, (Seq<u8>, Seq<char>)))
    ensures
        ({
            let r = attested(log, atts);
            &&& r.contains_key(k) <==> log.contains_key(k) || exists|i: int| brings(atts, k, i)
            &&& (forall|i: int| !brings(atts, k, i)) && log.contains_key(k) ==> r[k] == log[k]
            &&& forall|i: int| #[trigger]
                brings(atts, k, i) && (forall|j: int| i < j ==> !brings(atts, k, j)) ==> r[k] == atts[i]
        }),
    decreases atts.len(),
{
    if atts.len() > 0 {
        let front = atts.drop_last();
        let last = atts.len() - 1;
        law_attestations_come_in(log, front, k);
        assert forall|i: int| brings(front, k, i) == (brings(atts, k, i) && i < last) by {
            if 0 <= i < front.len() {
                assert(front[i] == atts[i]);
            }
        }
        assert(atts.last() == atts[last]);
        if brings(atts, k, last) {
        } else {
            assert forall|i: int| brings(atts, k, i) implies brings(front, k, i) by {}
            if exists|i: int| brings(atts, k, i) {
                let i = choose|i: int| brings(atts, k, i);
                assert(brings(front, k, i));
            }
        }
        if exists|i: int| brings(front, k, i) {
            let i = choose|i: int| brings(front, k, i);
            assert(brings(atts, k, i));
        }
        assert forall|i: int| #[trigger]
            brings(atts, k, i) && (forall|j: int| i < j ==> !brings(atts, k, j)) implies attested(log, atts)[k] == atts[i] by {
            if i < last {
                assert(brings(front, k, i));
                assert(!brings(atts, k, last));
                assert forall|j: int| i < j implies !brings(front, k, j) by {
                    assert(!brings(atts, k, j));
                }
            }
        }
    } else {
        assert forall|i: int| !brings(atts, k, i) by {}
    }
}

// ---------------------------------------------------------------------------
// What travels
// ---------------------------------------------------------------------------

/// One of some changes leads to an object.
pub open spec fn some_leads_to(ns: Seq<NodeModel>, oid: Id) -> bool {
    exists|i: int, p: Seq<char>|
        0 <= i < ns.len() && #[trigger] ns[i].tree.contains_key(p) && ns[i].tree[p].v.0 == oid
}

/// One of some changes leads to an object without embargo.
pub open spec fn some_leads_openly(ns: Seq<NodeModel>, oid: Id) -> bool {
    exists|i: int, p: Seq<char>|
        0 <= i < ns.len() && #[trigger] ns[i].tree.contains_key(p) && ns[i].tree[p].v.0 == oid && !(ns[i].tree[p].v.1
            is Embargoed)
}

proof fn lemma_leads(ns: Seq<NodeModel>, oid: Id)
    ensures
        any_names(ns, oid) <==> some_leads_to(ns, oid),
        any_names_openly(ns, oid) <==> some_leads_openly(ns, oid),
{
    if any_names(ns, oid) {
        let i = choose|i: int| 0 <= i < ns.len() && names(#[trigger] ns[i], oid);
        let p = choose|p: Seq<char>| #[trigger] ns[i].tree.contains_key(p) && ns[i].tree[p].v.0 == oid;
        assert(ns[i].tree.contains_key(p));
    }
    if some_leads_to(ns, oid) {
        let (i, p) = choose|i: int, p: Seq<char>|
            0 <= i < ns.len() && #[trigger] ns[i].tree.contains_key(p) && ns[i].tree[p].v.0 == oid;
        assert(names(ns[i], oid));
    }
    if any_names_openly(ns, oid) {
        let i = choose|i: int| 0 <= i < ns.len() && names_openly(#[trigger] ns[i], oid);
        let p = choose|p: Seq<char>| #[trigger]
            ns[i].tree.contains_key(p) && ns[i].tree[p].v.0 == oid && !(ns[i].tree[p].v.1 is Embargoed);
        assert(ns[i].tree.contains_key(p));
    }
    if some_leads_openly(ns, oid) {
        let (i, p) = choose|i: int, p: Seq<char>|
            0 <= i < ns.len() && #[trigger] ns[i].tree.contains_key(p) && ns[i].tree[p].v.0 == oid && !(
            ns[i].tree[p].v.1 is Embargoed);
        assert(names_openly(ns[i], oid));
    }
}

/// The order of all changes has each of them.
pub proof fn lemma_all_ordered(changes: Nodes, n: NodeModel)
    requires
        changes.dom().finite(),
        forall|x: Id| #[trigger] changes.contains_key(x) ==> changes[x].id == x,
    ensures
        ordered(changes).contains(n) <==> changes.contains_key(n.id) && changes[n.id] == n,
{
    let e = edges_of(changes);
    let ids = ids_in_order(changes);
    let o = walk(e, ids);
    let ns = ordered(changes);
    lemma_map_is_listed::<Oid, NodeModel>(changes);
    assert(e.dom() =~= changes.dom());
    if ns.contains(n) {
        let i = choose|i: int| 0 <= i < ns.len() && ns[i] == n;
        law_walk_is_ancestry(e, ids, o[i]);
        assert(o.contains(o[i]));
        assert(changes.contains_key(o[i]));
    }
    if changes.contains_key(n.id) && changes[n.id] == n {
        let s = pairs_of::<Oid, NodeModel>(changes);
        let j = place_of(s, n.id);
        lemma_entry::<Oid, NodeModel>(s, j);
        assert(ids[j] == n.id);
        assert(ids.contains(n.id));
        lemma_reaches_self(e, n.id);
        law_walk_is_ancestry(e, ids, n.id);
        let i = choose|i: int| 0 <= i < o.len() && o[i] == n.id;
        assert(ns[i] == n);
    }
}

/// A sync carries every change that the other side does not name and that is not waiting
/// for its author's signature, and no other; every object that is wanted, is here, and one
/// of these changes leads to, as it is here; the key of every object that is for everyone
/// and that one of these changes leads to without embargo, if it is on the ring, and of no
/// other; and every attestation over one of these changes.
pub proof fn law_sync_carries_what_is_lacking(
    m: RepoModel,
    have: Seq<Id>,
    wants: Option<Set<Id>>,
    n: NodeModel,
    oid: Id,
    a: AttestationModel,
)
    requires
        m.graph.changes.dom().finite(),
        forall|x: Id| #[trigger] m.graph.changes.contains_key(x) ==> m.graph.changes[x].id == x,
        m.attestations.dom().finite(),
        filed_right(m.attestations),
    ensures
        ({
            let b = sync_body(m, have, wants);
            &&& b.changes.contains(n) <==> m.graph.changes.contains_key(n.id) && m.graph.changes[n.id] == n
                && !have.contains(n.id) && (n.author is None || n.signature is Some)
            &&& b.objs.contains_key(oid) <==> m.objects.contains_key(oid) && some_leads_to(b.changes, oid) && (
            wants matches Some(w) ==> w.contains(oid))
            &&& b.objs.contains_key(oid) ==> b.objs[oid] == m.objects[oid]
            &&& b.keys.contains_key(oid) <==> m.objects.contains_key(oid) && m.objects[oid].grant_ids.contains("*"@)
                && m.keys.contains_key(oid) && some_leads_openly(b.changes, oid)
            &&& b.keys.contains_key(oid) ==> b.keys[oid] == m.keys[oid]
            &&& b.attestations.contains(a) <==> m.attestations.contains_key((a.change_id, (a.attester, a.role)))
                && m.attestations[(a.change_id, (a.attester, a.role))] == a && exists|i: int|
                0 <= i < b.changes.len() && (#[trigger] b.changes[i]).id == a.change_id
        }),
{
    let b = sync_body(m, have, wants);
    let ns = sendable(m, have);
    let f = |n: NodeModel| !have.contains(n.id) && !super::change_graph::is_working(n);
    let g = |a: AttestationModel| has_id(ns, a.change_id);
    lemma_filter_contains(ordered(m.graph.changes), f, n);
    lemma_all_ordered(m.graph.changes, n);
    lemma_leads(ns, oid);
    lemma_filter_contains(attestations_in_order(m.attestations), g, a);
    law_log_is_in_order(m.attestations);
    assert(attestations_in_order(m.attestations).contains(a) <==> m.attestations.contains_key(
        crate::attestation::key_of(a),
    ) && m.attestations[crate::attestation::key_of(a)] == a);
}

/// The changes of a sync come with parents before children.
pub proof fn law_sync_carries_parents_first(m: RepoModel, have: Seq<Id>, wants: Option<Set<Id>>, i: int, j: int)
    requires
        m.graph.changes.dom().finite(),
        acyclic(edges_of(m.graph.changes)),
        forall|x: Id| #[trigger] m.graph.changes.contains_key(x) ==> m.graph.changes[x].id == x,
        0 <= i < j < sync_body(m, have, wants).changes.len(),
    ensures
        sync_body(m, have, wants).changes[i].id != sync_body(m, have, wants).changes[j].id,
        !sync_body(m, have, wants).changes[i].parents.contains(sync_body(m, have, wants).changes[j].id),
{
    let changes = m.graph.changes;
    let e = edges_of(changes);
    let ids = ids_in_order(changes);
    let o = walk(e, ids);
    let ns = ordered(changes);
    assert(e.dom() =~= changes.dom());
    law_walk_is_topological(e, ids);
    assert forall|a: int, b: int| 0 <= a < b < ns.len() implies (#[trigger] ns[a]).id != (#[trigger] ns[b]).id
        && !ns[a].parents.contains(ns[b].id) by {
        assert(o.contains(o[a]) && o.contains(o[b]));
        assert(ns[a].id == o[a] && ns[b].id == o[b]);
        if ns[a].parents.contains(ns[b].id) {
            assert(e[o[a]].contains(o[b]));
            assert(stands_before(o, o[b], a));
            let k = choose|k: int| 0 <= k < a && #[trigger] o[k] == o[b];
            assert(o[k] == o[b]);
        }
    }
    let f = |n: NodeModel| !have.contains(n.id) && !super::change_graph::is_working(n);
    lemma_part_keeps_order(ns, f);
}

/// Each before the other, neither the same nor a child of it.
spec fn keeps_order(ns: Seq<NodeModel>) -> bool {
    forall|a: int, b: int|
        0 <= a < b < ns.len() ==> (#[trigger] ns[a]).id != (#[trigger] ns[b]).id && !ns[a].parents.contains(ns[b].id)
}

proof fn lemma_part_keeps_order(ns: Seq<NodeModel>, f: spec_fn(NodeModel) -> bool)
    requires
        keeps_order(ns),
    ensures
        keeps_order(ns.filter(f)),
    decreases ns.len(),
{
    reveal(Seq::filter);
    if ns.len() > 0 {
        let t = ns.drop_last();
        assert(keeps_order(t)) by {
            assert forall|a: int, b: int| 0 <= a < b < t.len() implies (#[trigger] t[a]).id != (#[trigger] t[b]).id
                && !t[a].parents.contains(t[b].id) by {
                assert(t[a] == ns[a] && t[b] == ns[b]);
            }
        }
        lemma_part_keeps_order(t, f);
        let r = t.filter(f);
        if f(ns.last()) {
            let w = ns.filter(f);
            assert forall|a: int, b: int| 0 <= a < b < w.len() implies (#[trigger] w[a]).id != (#[trigger] w[b]).id
                && !w[a].parents.contains(w[b].id) by {
                assert(w[a] == r[a]);
                if b == r.len() {
                    assert(r.contains(r[a]));
                    lemma_filter_contains(t, f, r[a]);
                    let k = choose|k: int| 0 <= k < t.len() && t[k] == r[a];
                    assert(ns[k] == r[a] && ns[ns.len() - 1] == w[b]);
                } else {
                    assert(w[b] == r[b]);
                }
            }
        }
    }
}

// ---------------------------------------------------------------------------
// What becomes of it
// ---------------------------------------------------------------------------

/// A change that has the path and does not stand beside another live version of itself.
pub open spec fn touches(view: LivenessModel, ns: Seq<NodeModel>, p: Seq<char>, i: int) -> bool {
    &&& 0 <= i < ns.len()
    &&& ns[i].tree.contains_key(p)
    &&& !(ns[i].change_id matches Some(c) && view.divergent.contains(c))
}

/// What is told of a path is the worst that came of it in any of the changes that touch
/// it; of a path that none touches nothing is told.
pub proof fn law_sync_tells_the_worst(
    local: TreeModel,
    ns: Seq<NodeModel>,
    view: LivenessModel,
    opens: Opens,
    p: Seq<char>,
)
    ensures
        ({
            let o = classified_all(local, ns, view, opens);
            &&& o.contains_key(p) <==> exists|i: int| touches(view, ns, p, i)
            &&& o.contains_key(p) ==> exists|i: int| #[trigger]
                touches(view, ns, p, i) && o[p].v == classified(local, ns[i].tree, None, opens)[p].v
            &&& forall|i: int| #[trigger]
                touches(view, ns, p, i) ==> attention(classified(local, ns[i].tree, None, opens)[p].v) <= attention(o[p].v)
        }),
    decreases ns.len(),
{
    if ns.len() > 0 {
        let front = ns.drop_last();
        let last = ns.len() - 1;
        law_sync_tells_the_worst(local, front, view, opens, p);
        let before = classified_all(local, front, view, opens);
        let o = classified_all(local, ns, view, opens);
        assert(ns.last() == ns[last]);
        assert forall|i: int| touches(view, front, p, i) == (touches(view, ns, p, i) && i < last) by {
            if 0 <= i < front.len() {
                assert(front[i] == ns[i]);
            }
        }
        let new = classified(local, ns[last].tree, None, opens);
        if touches(view, ns, p, last) {
            assert(new.contains_key(p));
        }
        if before.contains_key(p) {
            let i = choose|i: int| #[trigger]
                touches(view, front, p, i) && before[p].v == classified(local, front[i].tree, None, opens)[p].v;
            assert(touches(view, ns, p, i));
            assert(front[i] == ns[i]);
        }
        assert forall|i: int| #[trigger] touches(view, ns, p, i) implies attention(
            classified(local, ns[i].tree, None, opens)[p].v,
        ) <= attention(o[p].v) && o.contains_key(p) by {
            if i < last {
                assert(touches(view, front, p, i));
                assert(front[i] == ns[i]);
            }
        }
    } else {
        assert forall|i: int| !touches(view, ns, p, i) by {}
    }
}

/// The author's signature over the version and the change id is there, or there is no
/// author.
pub open spec fn is_signed(n: NodeModel) -> bool {
    n.author matches Some(a) ==> n.signature matches Some(sig) && ed25519_accepts(
        a,
        match n.change_id {
            Some(c) => n.id + c,
            None => n.id,
        },
        sig,
    )
}

pub proof fn lemma_first_bad(ns: Seq<NodeModel>)
    ensures
        first_bad(ns) is None <==> forall|i: int| 0 <= i < ns.len() ==> is_signed(#[trigger] ns[i]),
    decreases ns.len(),
{
    if ns.len() > 0 {
        let front = ns.drop_last();
        lemma_first_bad(front);
        assert(ns.last() == ns[ns.len() - 1]);
        assert(is_signed(ns.last()) == authorship_holds(ns.last()));
        if first_bad(ns) is None {
            assert forall|i: int| 0 <= i < ns.len() implies is_signed(#[trigger] ns[i]) by {
                if i < front.len() {
                    assert(front[i] == ns[i]);
                }
            }
        }
        if forall|i: int| 0 <= i < ns.len() ==> is_signed(#[trigger] ns[i]) {
            assert forall|i: int| 0 <= i < front.len() implies is_signed(#[trigger] front[i]) by {
                assert(front[i] == ns[i]);
            }
        }
    }
}

/// The first of some changes with an id.
pub open spec fn is_first_with(ns: Seq<NodeModel>, x: Id, i: int) -> bool {
    0 <= i < ns.len() && ns[i].id == x && forall|j: int| 0 <= j < i ==> (#[trigger] ns[j]).id != x
}

proof fn lemma_nodes_come_in(g: GraphModel, ns: Seq<NodeModel>, x: Id)
    ensures
        ({
            let r = with_nodes(g, ns);
            &&& r.changes.contains_key(x) <==> g.changes.contains_key(x) || exists|i: int|
                0 <= i < ns.len() && (#[trigger] ns[i]).id == x
            &&& g.changes.contains_key(x) ==> r.changes[x] == g.changes[x]
            &&& forall|i: int| #[trigger]
                is_first_with(ns, x, i) && !g.changes.contains_key(x) ==> r.changes[x] == ns[i]
        }),
    decreases ns.len(),
{
    if ns.len() > 0 {
        let front = ns.drop_last();
        let last = ns.len() - 1;
        lemma_nodes_come_in(g, front, x);
        assert(ns.last() == ns[last]);
        if exists|i: int| 0 <= i < front.len() && (#[trigger] front[i]).id == x {
            let i = choose|i: int| 0 <= i < front.len() && (#[trigger] front[i]).id == x;
            assert(ns[i].id == x);
        }
        if exists|i: int| 0 <= i < ns.len() && (#[trigger] ns[i]).id == x {
            let i = choose|i: int| 0 <= i < ns.len() && (#[trigger] ns[i]).id == x;
            if i < last {
                assert(front[i].id == x);
            }
        }
        assert forall|i: int| #[trigger] is_first_with(ns, x, i) && !g.changes.contains_key(x) implies with_nodes(
            g,
            ns,
        ).changes[x] == ns[i] by {
            if i < last {
                assert(is_first_with(front, x, i)) by {
                    assert(front[i] == ns[i]);
                    assert forall|j: int| 0 <= j < i implies (#[trigger] front[j]).id != x by {
                        assert(front[j] == ns[j]);
                    }
                }
                assert(front[i].id == x);
            } else {
                assert forall|j: int| 0 <= j < front.len() implies (#[trigger] front[j]).id != x by {
                    assert(front[j] == ns[j]);
                }
            }
        }
    }
}

/// A sync is refused whole where one of its changes lacks its author's signature, and
/// comes in otherwise. Changes that are here stay as they are and the others come in as
/// they came; objects come in after the purges took effect; the attestations that hold come
/// in; a path is in conflict if it was, or if what is told of it is a conflict, and then
/// between the addresses that are told.
pub proof fn law_sync_comes_in(
    m: RepoModel,
    purges: Seq<(Id, Seq<char>)>,
    body: BodyModel,
    now: u64,
    abandoned: Set<Id>,
    x: Id,
    p: Seq<char>,
)
    requires
        body.objs.dom().finite(),
    ensures
        synced(m, purges, body, now, abandoned) is Ok <==> forall|i: int|
            0 <= i < body.changes.len() ==> is_signed(#[trigger] body.changes[i]),
        synced(m, purges, body, now, abandoned) matches Ok((r, o)) ==> {
            &&& r.graph.changes.contains_key(x) <==> m.graph.changes.contains_key(x) || exists|i: int|
                0 <= i < body.changes.len() && (#[trigger] body.changes[i]).id == x
            &&& m.graph.changes.contains_key(x) ==> r.graph.changes[x] == m.graph.changes[x]
            &&& forall|i: int| #[trigger]
                is_first_with(body.changes, x, i) && !m.graph.changes.contains_key(x) ==> r.graph.changes[x]
                    == body.changes[i]
            &&& came_in(purged(m, purges, now), body.objs, body.keys, r, x)
            &&& r.attestations == attested(m.attestations, body.attestations)
            &&& r.conflicts.contains_key(p) <==> m.conflicts.contains_key(p) || (o.contains_key(p) && o[p].v is Conflict)
            &&& o.contains_key(p) && o[p].v is Conflict ==> r.conflicts[p].v == (o[p].v->ours, o[p].v->theirs)
            &&& !(o.contains_key(p) && o[p].v is Conflict) && m.conflicts.contains_key(p) ==> r.conflicts[p]
                == m.conflicts[p]
            &&& r.identity == m.identity && r.author == m.author && r.manifest == m.manifest && r.purges == m.purges
        },
{
    lemma_first_bad(body.changes);
    lemma_nodes_come_in(m.graph, body.changes, x);
    law_objects_come_in(purged(m, purges, now), body.objs, body.keys, x);
    lemma_purged_frame(m, purges, now);
}

proof fn lemma_purged_frame(m: RepoModel, ps: Seq<(Id, Seq<char>)>, at: u64)
    ensures
        ({
            let r = purged(m, ps, at);
            r == (RepoModel { keys: r.keys, objects: r.objects, burns: r.burns, ..m })
        }),
    decreases ps.len(),
{
    if ps.len() > 0 {
        lemma_purged_frame(m, ps.drop_last(), at);
    }
}

// ---------------------------------------------------------------------------
// Batches
// ---------------------------------------------------------------------------

/// How many bytes of ciphertext some objects have, as far as they are here.
pub open spec fn bytes_of(m: RepoModel, ids: Seq<Id>) -> nat
    decreases ids.len(),
{
    if ids.len() == 0 {
        0
    } else {
        bytes_of(m, ids.drop_last()) + if m.objects.contains_key(ids.last()) {
            m.objects[ids.last()].ciphertext.len()
        } else {
            0
        }
    }
}

/// Some objects may travel together: one alone may always, several only within both
/// limits.
pub open spec fn may_share(m: RepoModel, ids: Seq<Id>, max: nat, max_bytes: nat) -> bool {
    ids.len() == 1 || (ids.len() <= max && bytes_of(m, ids) <= max_bytes)
}

/// One batch is a stretch of what is wanted that may travel together; what comes next may
/// not travel with it.
pub open spec fn is_batch(
    m: RepoModel,
    wants: Seq<Id>,
    max: nat,
    max_bytes: nat,
    bs: Seq<Set<Id>>,
    cuts: Seq<int>,
    k: int,
) -> bool {
    &&& 0 <= cuts[k] < cuts[k + 1] <= wants.len()
    &&& bs[k] == wants.subrange(cuts[k], cuts[k + 1]).to_set()
    &&& may_share(m, wants.subrange(cuts[k], cuts[k + 1]), max, max_bytes)
    &&& k + 1 < bs.len() ==> cuts[k + 1] < wants.len() && !may_share(
        m,
        wants.subrange(cuts[k], cuts[k + 1] + 1),
        max,
        max_bytes,
    )
}

/// Batches are stretches of what is wanted, one after another, each as long as may be.
pub open spec fn cut_right(
    m: RepoModel,
    wants: Seq<Id>,
    max: nat,
    max_bytes: nat,
    bs: Seq<Set<Id>>,
    cuts: Seq<int>,
) -> bool {
    &&& bs.len() > 0
    &&& cuts.len() == bs.len() + 1
    &&& cuts[0] == 0
    &&& cuts.last() == wants.len()
    &&& forall|k: int| 0 <= k < bs.len() ==> #[trigger] is_batch(m, wants, max, max_bytes, bs, cuts, k)
}

proof fn lemma_count(s: Seq<Id>)
    requires
        s.no_duplicates(),
    ensures
        count_of(s.to_set()) == s.len(),
{
    s.unique_seq_to_set();
    crate::sorted::lemma_set_is_listed::<Oid>(s.to_set());
    let ms = members_of::<Oid>(s.to_set());
    lemma_members_apart(s.to_set());
    ms.unique_seq_to_set();
    assert(ms.to_set() =~= s.to_set()) by {
        assert forall|x: Id| ms.to_set().contains(x) <==> s.to_set().contains(x) by {
            assert(ms.contains(x) <==> s.to_set().contains(x));
        }
    }
}

proof fn lemma_members_apart(s: Set<Id>)
    requires
        s.finite(),
    ensures
        members_of::<Oid>(s).no_duplicates(),
        forall|x: Id| #[trigger] members_of::<Oid>(s).contains(x) <==> s.contains(x),
{
    crate::sorted::lemma_set_is_listed::<Oid>(s);
    let ms = members_of::<Oid>(s);
    assert forall|i: int, j: int| 0 <= i < ms.len() && 0 <= j < ms.len() && i != j implies ms[i] != ms[j] by {
        if i < j {
            <Oid as crate::value::Key>::before_irreflexive(ms[i]);
        } else {
            <Oid as crate::value::Key>::before_irreflexive(ms[j]);
        }
    }
}

proof fn lemma_bytes_step(m: RepoModel, wants: Seq<Id>, a: int, b: int)
    requires
        0 <= a <= b < wants.len(),
    ensures
        bytes_of(m, wants.subrange(a, b + 1)) == bytes_of(m, wants.subrange(a, b)) + size_of(m, wants[b]),
{
    let s = wants.subrange(a, b + 1);
    assert(s.drop_last() =~= wants.subrange(a, b));
    assert(s.last() == wants[b]);
}

/// The cut behind which the next batch begins.
proof fn lemma_cut_ends(
    m: RepoModel,
    wants: Seq<Id>,
    max: nat,
    max_bytes: nat,
    os: Seq<Set<Id>>,
    cuts: Seq<int>,
    i: int,
)
    requires
        0 < i < wants.len(),
        cut_right(m, wants.take(i), max, max_bytes, os, cuts),
        !may_share(m, wants.subrange(cuts[os.len() - 1], i + 1), max, max_bytes),
    ensures
        cut_right(
            m,
            wants.take(i + 1),
            max,
            max_bytes,
            os.push(wants.subrange(i, i + 1).to_set()),
            cuts.push(i + 1),
        ),
{
    let (v, w) = (wants.take(i), wants.take(i + 1));
    let n = os.len() as int;
    let bs = os.push(wants.subrange(i, i + 1).to_set());
    let cs = cuts.push(i + 1);
    assert(cuts[n] == i);
    assert forall|k: int| 0 <= k < bs.len() implies #[trigger] is_batch(m, w, max, max_bytes, bs, cs, k) by {
        if k < n {
            assert(is_batch(m, v, max, max_bytes, os, cuts, k));
            assert(cs[k] == cuts[k] && cs[k + 1] == cuts[k + 1]);
            assert(bs[k] == os[k]);
            assert(w.subrange(cs[k], cs[k + 1]) =~= v.subrange(cs[k], cs[k + 1]));
            if k + 1 < n {
                assert(w.subrange(cs[k], cs[k + 1] + 1) =~= v.subrange(cs[k], cs[k + 1] + 1));
            } else {
                assert(w.subrange(cs[k], cs[k + 1] + 1) =~= wants.subrange(cuts[n - 1], i + 1));
            }
        } else {
            assert(w.subrange(i, i + 1) =~= wants.subrange(i, i + 1));
        }
    }
}

/// The last batch takes one more in.
proof fn lemma_cut_grows(
    m: RepoModel,
    wants: Seq<Id>,
    max: nat,
    max_bytes: nat,
    os: Seq<Set<Id>>,
    cuts: Seq<int>,
    i: int,
)
    requires
        0 < i < wants.len(),
        cut_right(m, wants.take(i), max, max_bytes, os, cuts),
        may_share(m, wants.subrange(cuts[os.len() - 1], i + 1), max, max_bytes),
    ensures
        cut_right(
            m,
            wants.take(i + 1),
            max,
            max_bytes,
            os.drop_last().push(wants.subrange(cuts[os.len() - 1], i + 1).to_set()),
            cuts.update(os.len() as int, i + 1),
        ),
{
    let (v, w) = (wants.take(i), wants.take(i + 1));
    let n = os.len() as int;
    let bs = os.drop_last().push(wants.subrange(cuts[n - 1], i + 1).to_set());
    let cs = cuts.update(n, i + 1);
    assert(cuts[n] == i);
    assert(is_batch(m, v, max, max_bytes, os, cuts, n - 1));
    assert forall|k: int| 0 <= k < bs.len() implies #[trigger] is_batch(m, w, max, max_bytes, bs, cs, k) by {
        assert(is_batch(m, v, max, max_bytes, os, cuts, k));
        assert(cs[k] == cuts[k]);
        if k + 1 < n {
            assert(cs[k + 1] == cuts[k + 1]);
            assert(bs[k] == os[k]);
            assert(w.subrange(cs[k], cs[k + 1]) =~= v.subrange(cs[k], cs[k + 1]));
            assert(w.subrange(cs[k], cs[k + 1] + 1) =~= v.subrange(cs[k], cs[k + 1] + 1));
        } else {
            assert(w.subrange(cs[k], cs[k + 1]) =~= wants.subrange(cuts[n - 1], i + 1));
        }
    }
}

/// One more item makes one more member.
proof fn lemma_one_more(s: Seq<Id>, x: Id)
    ensures
        s.push(x).to_set() == s.to_set().insert(x),
        seq![x].to_set() == Set::<Id>::empty().insert(x),
{
    let t = s.push(x);
    assert forall|y: Id| t.to_set().contains(y) <==> s.to_set().insert(x).contains(y) by {
        if t.contains(y) {
            let j = choose|j: int| 0 <= j < t.len() && t[j] == y;
            if j < s.len() {
                assert(s[j] == y);
            }
        }
        if s.contains(y) {
            let j = choose|j: int| 0 <= j < s.len() && s[j] == y;
            assert(t[j] == y);
        }
        if y == x {
            assert(t[s.len() as int] == x);
        }
    }
    assert(t.to_set() =~= s.to_set().insert(x));
    let o = seq![x];
    assert forall|y: Id| o.to_set().contains(y) <==> y == x by {
        if y == x {
            assert(o[0] == x);
        }
    }
    assert(o.to_set() =~= Set::<Id>::empty().insert(x));
}

proof fn lemma_packed(m: RepoModel, wants: Seq<Id>, max: nat, max_bytes: nat, i: int) -> (cuts: Seq<int>)
    requires
        wants.no_duplicates(),
        0 < i <= wants.len(),
    ensures
        ({
            let p = packed(m, wants.take(i), max, max_bytes);
            let bs = p.closed.push(p.open);
            &&& cut_right(m, wants.take(i), max, max_bytes, bs, cuts)
            &&& p.bytes == bytes_of(m, wants.subrange(cuts[bs.len() - 1], i))
        }),
    decreases i,
{
    let w = wants.take(i);
    let p = packed(m, w, max, max_bytes);
    let bs = p.closed.push(p.open);
    let x = wants[i - 1];
    assert(w.drop_last() =~= wants.take(i - 1));
    assert(w.last() == x);
    assert(wants.subrange(i - 1, i) =~= seq![x]);
    assert(wants.subrange(i - 1, i - 1) =~= Seq::<Id>::empty());
    lemma_bytes_step(m, wants, i - 1, i - 1);
    if i == 1 {
        assert(wants.take(0) =~= Seq::<Id>::empty());
        let cuts = seq![0int, 1int];
        lemma_one_more(Seq::empty(), x);
        assert(w.subrange(0, 1) =~= seq![x]);
        assert(bs[0] =~= w.subrange(0, 1).to_set());
        assert(is_batch(m, w, max, max_bytes, bs, cuts, 0));
        cuts
    } else {
        let cuts = lemma_packed(m, wants, max, max_bytes, i - 1);
        let v = wants.take(i - 1);
        let q = packed(m, v, max, max_bytes);
        let os = q.closed.push(q.open);
        let n = os.len() as int;
        let a = cuts[n - 1];
        assert(cuts[n] == i - 1);
        assert(is_batch(m, v, max, max_bytes, os, cuts, n - 1));
        let open = wants.subrange(a, i - 1);
        let grown = wants.subrange(a, i);
        assert(v.subrange(a, i - 1) =~= open);
        assert(os[n - 1] == q.open);
        assert(open.no_duplicates());
        lemma_count(open);
        assert(q.open.contains(open[0])) by {
            assert(open.contains(open[0]));
        }
        lemma_bytes_step(m, wants, a, i - 1);
        lemma_one_more(open, x);
        assert(grown =~= open.push(x));
        assert(may_share(m, grown, max, max_bytes) == !is_full(q, size_of(m, x), max, max_bytes));
        if is_full(q, size_of(m, x), max, max_bytes) {
            lemma_cut_ends(m, wants, max, max_bytes, os, cuts, i - 1);
            assert(bs =~= os.push(wants.subrange(i - 1, i).to_set()));
            cuts.push(i)
        } else {
            lemma_cut_grows(m, wants, max, max_bytes, os, cuts, i - 1);
            assert(bs =~= os.drop_last().push(grown.to_set()));
            cuts.update(n, i)
        }
    }
}

/// What is wanted is cut into batches where it must be and nowhere else: each is a stretch
/// of it that may travel together, and would not with what comes next. Where nothing is
/// wanted there is one batch without objects.
pub proof fn law_batches_are_cut_right(m: RepoModel, wants: Seq<Id>, max: nat, max_bytes: nat)
    requires
        wants.no_duplicates(),
    ensures
        wants.len() == 0 ==> batches(m, wants, max, max_bytes) == seq![Set::<Id>::empty()],
        wants.len() > 0 ==> exists|cuts: Seq<int>|
            cut_right(m, wants, max, max_bytes, batches(m, wants, max, max_bytes), cuts),
{
    if wants.len() > 0 {
        let cuts = lemma_packed(m, wants, max, max_bytes, wants.len() as int);
        assert(wants.take(wants.len() as int) =~= wants);
        assert(cut_right(m, wants, max, max_bytes, batches(m, wants, max, max_bytes), cuts));
    }
}

} // verus!
