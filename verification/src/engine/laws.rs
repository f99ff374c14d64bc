//! What holds of a repository over several operations, and of several repositories.

use crate::ancestry::Id;
use crate::attestation::{attests, key_of, AttestationModel, LogModel};
use crate::bundle_codec::{frame_fits, law_frame_round_trip, parse_frame, BodyModel, FrameModel};
use crate::burn::BURN_PURGE_MARKER;
use crate::escrow::{promoted, still_held};
use crate::manifest::{grants_for_object, GrantModel};
use crate::path::normal_path;
use crate::path_map::{put_at, values_in, PathKey, Paths, Placed};
use crate::sealed::{grant_ids_of, granted_to, granted_to_anyone, opened, SealedModel, ANYONE};
use crate::seqs::lemma_filter_contains;
use crate::sorted::{lemma_entry, lemma_map_is_listed, pairs_of, place_of};
use crate::types::{ErrorModel, Oid, TreeModel, VisibilityModel};
use super::change_graph::{tree_of, with_node, with_nodes, GraphModel, NodeModel};
use super::custody::{
    granted_all, law_put_is_readable, maroon_change, marooned, migrate_change, migrated, newly_granted, other_name,
    remaining_grantees, reseal_source, sealed_anew, without_identity,
};
use super::negotiation::{
    any_names_openly, applied, attested, burned_all, gathered_purges, law_embargoed_keys_stay, lemma_purged_keeps,
    lemma_stored_keeps, purged, sendable, stowed, sync_body, sync_bundle, synced,
};
use super::graph_laws::{can_top, law_topmost_has_the_last_word, law_topmost_is_current};
use super::{
    carried, clobbered, entered, first_for_path, got, hidden, id_here, last_for_path, lemma_with_contents_keeps, node_here, recorded,
    resolution, resolved, seals, snapshot_change, snapshotted, stored_objects, tree_with, with_content, with_contents,
    ChangeModel, EntryModel, RepoModel, Sealing,
};
use vstd::prelude::*;

verus! {

// ---------------------------------------------------------------------------
// Snapshots
// ---------------------------------------------------------------------------

/// A path without an entry keeps what it had.
pub proof fn lemma_tree_with(
    t: TreeModel,
    es: Seq<EntryModel>,
    ss: Seq<Sealing>,
    p: Seq<char>,
)
    requires
        !entered(es, p),
        es.len() == ss.len(),
    ensures
        tree_with(t, es, ss).contains_key(p) <==> t.contains_key(p),
        t.contains_key(p) ==> tree_with(t, es, ss)[p] == t[p],
    decreases es.len(),
{
    if es.len() > 0 {
        assert(es.last() == es[es.len() - 1]);
        assert(normal_path(es.last().0) != p);
        assert(!entered(es.drop_last(), p)) by {
            if entered(es.drop_last(), p) {
                let i = choose|i: int|
                    0 <= i < es.drop_last().len() && normal_path((#[trigger] es.drop_last()[i]).0) == p;
                assert(normal_path(es[i].0) == p);
            }
        }
        lemma_tree_with(t, es.drop_last(), ss.drop_last(), p);
    }
}

/// A snapshot carries what its author cannot see forward, as it is, into the tree of
/// the change that it records.
pub proof fn law_snapshot_keeps_what_is_hidden(
    m: RepoModel,
    es: Seq<EntryModel>,
    ss: Seq<Sealing>,
    message: Seq<char>,
    now: u64,
    p: Seq<char>,
)
    requires
        tree_of(m.graph.changes).dom().finite(),
        clobbered(m, es, now).len() == 0,
        es.len() == ss.len(),
        tree_of(m.graph.changes).contains_key(p),
        hidden(m, tree_of(m.graph.changes)[p].v.0, now),
    ensures
        snapshot_change(m, es, ss, message, now).tree.contains_key(p),
        snapshot_change(m, es, ss, message, now).tree[p] == tree_of(m.graph.changes)[p],
{
    let t = tree_of(m.graph.changes);
    let s = pairs_of::<PathKey, Placed<(Id, VisibilityModel)>>(t);
    let f = |q: (Seq<char>, Placed<(Id, VisibilityModel)>)| entered(es, q.0) && hidden(m, q.1.v.0, now);
    lemma_map_is_listed::<PathKey, Placed<(Id, VisibilityModel)>>(t);
    if entered(es, p) {
        let i = place_of(s, p);
        lemma_entry::<PathKey, Placed<(Id, VisibilityModel)>>(s, i);
        assert(s[i] == (p, t[p]));
        lemma_filter_contains(s, f, s[i]);
        assert(clobbered(m, es, now).contains(s[i]));
        assert(false);
    }
    lemma_tree_with(carried(m, now), es, ss, p);
}

/// A path that its author can see and has not entered is not in the tree of the change
/// that a snapshot records.
pub proof fn law_snapshot_drops_what_is_gone(
    m: RepoModel,
    es: Seq<EntryModel>,
    ss: Seq<Sealing>,
    message: Seq<char>,
    now: u64,
    p: Seq<char>,
)
    requires
        es.len() == ss.len(),
        !entered(es, p),
        tree_of(m.graph.changes).contains_key(p) ==> !hidden(m, tree_of(m.graph.changes)[p].v.0, now),
    ensures
        !snapshot_change(m, es, ss, message, now).tree.contains_key(p),
{
    lemma_tree_with(carried(m, now), es, ss, p);
}

// ---------------------------------------------------------------------------
// Conflicts
// ---------------------------------------------------------------------------

/// Settling a conflict settles that one and no other, and the path leads to what it
/// was settled with.
pub proof fn law_resolving_settles_one_conflict(
    m: RepoModel,
    path: Seq<char>,
    vis: VisibilityModel,
    s: Sealing,
    cid: Option<Seq<u8>>,
    other: Seq<char>,
)
    requires
        other != normal_path(path),
    ensures
        !resolved(m, path, vis, s, cid).conflicts.contains_key(normal_path(path)),
        resolved(m, path, vis, s, cid).conflicts.contains_key(other) <==> m.conflicts.contains_key(other),
        m.conflicts.contains_key(other) ==> resolved(m, path, vis, s, cid).conflicts[other] == m.conflicts[other],
        resolution(m, path, vis, s).tree[normal_path(path)].v == (s.addr, vis),
        resolved(m, path, vis, s, cid).graph.changes.contains_key(
            id_here(with_content(m, s), resolution(m, path, vis, s)),
        ),
{
}

// ---------------------------------------------------------------------------
// Sealing anew
// ---------------------------------------------------------------------------

/// Granting moves no content and takes no key.
proof fn lemma_granting_keeps(m: RepoModel, oid: Id, to: Seq<(Seq<char>, Option<u64>)>, now: u64)
    ensures
        granted_all(m, oid, to, now).0.keys == m.keys,
        granted_all(m, oid, to, now).0.objects == m.objects,
        granted_all(m, oid, to, now).0.graph == m.graph,
        granted_all(m, oid, to, now).0.identity == m.identity,
    decreases to.len(),
{
    if to.len() > 0 {
        lemma_granting_keeps(m, oid, to.drop_last(), now);
    }
}

/// A path given another visibility holds the same content: the one who did it reads
/// it there as before, if they are among those it is sealed for and no embargo holds.
pub proof fn law_migrating_keeps_content(
    m: RepoModel,
    path: Seq<char>,
    vis: VisibilityModel,
    now: u64,
    s: Sealing,
    cid: Option<Seq<u8>>,
    later: u64,
)
    requires
        reseal_source(m, path, now) is Ok,
        sealed_anew(m, reseal_source(m, path, now)->Ok_0.2, vis, s, cid),
        !m.burns.contains_key(s.addr),
        !m.objects.contains_key(s.addr),
        !m.keys.contains_key(s.addr),
        granted_to(s.obj.grant_ids, m.identity),
        !(vis is Embargoed),
    ensures
        migrate_change(m, path, vis, s).tree[normal_path(path)].v == (s.addr, vis),
        migrated(m, path, vis, now, s, cid).0.graph.changes.contains_key(
            id_here(m, migrate_change(m, path, vis, s)),
        ),
        got(migrated(m, path, vis, now, s, cid).0, s.addr, m.identity, later) == Ok::<Seq<u8>, ErrorModel>(
            reseal_source(m, path, now)->Ok_0.2,
        ),
{
    let m1 = recorded(with_content(m, s), migrate_change(m, path, vis, s), cid, Seq::empty());
    lemma_granting_keeps(m1, s.addr, newly_granted(m, vis), now);
    law_put_is_readable(m, reseal_source(m, path, now)->Ok_0.2, vis, s, later);
}

/// Cutting an identity off from a path keeps the content for the others: the one who
/// did it reads it there as before, if they are among those it is sealed for and no
/// embargo holds.
pub proof fn law_cutting_off_keeps_content(
    m: RepoModel,
    path: Seq<char>,
    who: Seq<char>,
    now: u64,
    hard: bool,
    s: Sealing,
    cid: Option<Seq<u8>>,
    later: u64,
)
    requires
        reseal_source(m, path, now) is Ok,
        sealed_anew(
            m,
            reseal_source(m, path, now)->Ok_0.2,
            without_identity(tree_of(m.graph.changes)[normal_path(path)].v.1, who),
            s,
            cid,
        ),
        !m.burns.contains_key(s.addr),
        !m.objects.contains_key(s.addr),
        !m.keys.contains_key(s.addr),
        granted_to(s.obj.grant_ids, m.identity),
        !(tree_of(m.graph.changes)[normal_path(path)].v.1 is Embargoed),
    ensures
        maroon_change(m, path, who, s).tree[normal_path(path)].v.0 == s.addr,
        marooned(m, path, who, now, hard, s, cid).0.graph.changes.contains_key(
            id_here(m, maroon_change(m, path, who, s)),
        ),
        got(marooned(m, path, who, now, hard, s, cid).0, s.addr, m.identity, later) == Ok::<Seq<u8>, ErrorModel>(
            reseal_source(m, path, now)->Ok_0.2,
        ),
{
    let old_oid = tree_of(m.graph.changes)[normal_path(path)].v.0;
    let m1 = if hard {
        RepoModel { purges: m.purges.push((old_oid, who)), ..with_content(m, s) }
    } else {
        with_content(m, s)
    };
    let m2 = recorded(m1, maroon_change(m, path, who, s), cid, Seq::empty());
    lemma_granting_keeps(m2, s.addr, remaining_grantees(m, old_oid, who), now);
    law_put_is_readable(
        m,
        reseal_source(m, path, now)->Ok_0.2,
        without_identity(tree_of(m.graph.changes)[normal_path(path)].v.1, who),
        s,
        later,
    );
}

/// The repository with the keys on its keyring whose embargo is over.
pub open spec fn after_flush(m: RepoModel, now: u64) -> RepoModel {
    RepoModel { keys: promoted(m.escrow, m.keys, now), escrow: still_held(m.escrow, now), ..m }
}

/// Embargoed content is closed to everyone before its time. Once the time has come
/// and escrow has been emptied, the one who put it in reads it.
pub proof fn law_embargo_ends(
    m: RepoModel,
    bytes: Seq<u8>,
    reveal_at: u64,
    s: Sealing,
    reader: Seq<char>,
    now: u64,
)
    requires
        seals(bytes, VisibilityModel::Embargoed { reveal_at }, s),
        !m.burns.contains_key(s.addr),
        !m.objects.contains_key(s.addr),
        !m.escrow.contains_key(s.addr),
    ensures
        now < reveal_at ==> got(after_flush(with_content(m, s), now), s.addr, reader, now) == Err::<
            Seq<u8>,
            ErrorModel,
        >(ErrorModel::Embargoed(reveal_at)),
        now >= reveal_at ==> got(after_flush(with_content(m, s), now), s.addr, m.identity, now) == Ok::<
            Seq<u8>,
            ErrorModel,
        >(bytes),
{
    assert(s.obj.grant_ids[0] == ANYONE@);
}

// ---------------------------------------------------------------------------
// The current tree
// ---------------------------------------------------------------------------

/// Everything that the current tree rests on holds, the heads cover the graph, and the
/// change gets a new id.
pub open spec fn can_record(m: RepoModel, c: ChangeModel, cid: Option<Seq<u8>>) -> bool {
    can_top(m.graph, node_here(m, c, cid, Seq::empty()))
}

/// Putting a value under a path changes what is there and nothing else.
proof fn lemma_put_at<V>(m: Paths<V>, path: Seq<char>, v: V)
    ensures
        values_in(put_at(m, path, v)) == values_in(m).insert(normal_path(path), v),
        m.dom().subset_of(put_at(m, path, v).dom()),
{
    assert(values_in(put_at(m, path, v)) =~= values_in(m).insert(normal_path(path), v));
}

/// After a conflict has been settled, the path leads to what it was settled with. What
/// the other paths of the current tree lead to is as before.
pub proof fn law_resolution_is_current(
    m: RepoModel,
    path: Seq<char>,
    vis: VisibilityModel,
    s: Sealing,
    cid: Option<Seq<u8>>,
)
    requires
        can_record(m, resolution(m, path, vis, s), cid),
    ensures
        values_in(tree_of(resolved(m, path, vis, s, cid).graph.changes)) == values_in(tree_of(m.graph.changes)).insert(
            normal_path(path),
            (s.addr, vis),
        ),
{
    lemma_put_at(tree_of(m.graph.changes), path, (s.addr, vis));
    law_topmost_is_current(m.graph, node_here(m, resolution(m, path, vis, s), cid, Seq::empty()));
}

/// A path leads to the last content that was entered for it.
pub proof fn lemma_tree_with_entered(t: TreeModel, es: Seq<EntryModel>, ss: Seq<Sealing>, i: int)
    requires
        es.len() == ss.len(),
        last_for_path(es, i),
    ensures
        tree_with(t, es, ss).contains_key(normal_path(es[i].0)),
        tree_with(t, es, ss)[normal_path(es[i].0)].v == (ss[i].addr, es[i].2),
    decreases es.len(),
{
    assert(es.last() == es[es.len() - 1]);
    if i < es.len() - 1 {
        let front = es.drop_last();
        assert(normal_path(es[es.len() - 1].0) != normal_path(es[i].0));
        assert forall|j: int| i < j < front.len() implies normal_path((#[trigger] front[j]).0) != normal_path(
            front[i].0,
        ) by {
            assert(front[j] == es[j]);
        }
        lemma_tree_with_entered(t, front, ss.drop_last(), i);
    }
}

/// A new path has the text that it was entered with first.
pub proof fn lemma_tree_with_text(t: TreeModel, es: Seq<EntryModel>, ss: Seq<Sealing>, i: int)
    requires
        es.len() == ss.len(),
        first_for_path(es, i),
        !t.contains_key(normal_path(es[i].0)),
    ensures
        tree_with(t, es, ss).contains_key(normal_path(es[i].0)),
        tree_with(t, es, ss)[normal_path(es[i].0)].text == es[i].0,
    decreases es.len(),
{
    let front = es.drop_last();
    let p = normal_path(es[i].0);
    assert(es.last() == es[es.len() - 1]);
    if i < es.len() - 1 {
        assert(front[i] == es[i]);
        assert forall|j: int| 0 <= j < i implies normal_path((#[trigger] front[j]).0) != p by {
            assert(front[j] == es[j]);
        }
        lemma_tree_with_text(t, front, ss.drop_last(), i);
    } else {
        assert(!entered(front, p)) by {
            if entered(front, p) {
                let j = choose|j: int| 0 <= j < front.len() && normal_path((#[trigger] front[j]).0) == p;
                assert(normal_path(es[j].0) == p);
            }
        }
        lemma_tree_with(t, front, ss.drop_last(), p);
    }
}

/// After a snapshot, each path of the snapshot leads in the current tree to what it leads
/// to in the snapshot: for a path that was entered, the last content that was. Every path
/// of the changes below stays. `m` is the repository without its working change.
pub proof fn law_snapshot_is_current(
    m: RepoModel,
    es: Seq<EntryModel>,
    ss: Seq<Sealing>,
    message: Seq<char>,
    cid: Option<Seq<u8>>,
    now: u64,
)
    requires
        es.len() == ss.len(),
        can_record(m, snapshot_change(m, es, ss, message, now), cid),
    ensures
        ({
            let c = snapshot_change(m, es, ss, message, now);
            let t = tree_of(snapshotted(m, es, ss, message, cid, now).graph.changes);
            &&& forall|p: Seq<char>| #[trigger] c.tree.contains_key(p) ==> t.contains_key(p) && t[p].v == c.tree[p].v
            &&& forall|p: Seq<char>| #[trigger]
                t.contains_key(p) <==> c.tree.contains_key(p) || tree_of(m.graph.changes).contains_key(p)
            &&& forall|i: int| #[trigger]
                last_for_path(es, i) ==> t.contains_key(normal_path(es[i].0)) && t[normal_path(es[i].0)].v == (
                ss[i].addr,
                es[i].2,
            )
        }),
{
    let c = snapshot_change(m, es, ss, message, now);
    let t = tree_of(snapshotted(m, es, ss, message, cid, now).graph.changes);
    lemma_with_contents_keeps(m, ss);
    let n = node_here(m, c, cid, Seq::empty());
    law_topmost_has_the_last_word(m.graph, n);
    assert(node_here(with_contents(m, ss), c, cid, Seq::empty()) == n);
    assert(t == tree_of(with_node(m.graph, n).changes));
    assert(n.tree == c.tree);
    assert forall|i: int| #[trigger] last_for_path(es, i) implies t.contains_key(normal_path(es[i].0)) && t[normal_path(
        es[i].0,
    )].v == (ss[i].addr, es[i].2) by {
        lemma_tree_with_entered(carried(m, now), es, ss, i);
        assert(n.tree.contains_key(normal_path(es[i].0)));
    }
}

/// After a path has been given another visibility, it leads to the content sealed
/// anew under that visibility. What the other paths of the current tree lead to is as
/// before.
pub proof fn law_migration_is_current(
    m: RepoModel,
    path: Seq<char>,
    vis: VisibilityModel,
    now: u64,
    s: Sealing,
    cid: Option<Seq<u8>>,
)
    requires
        can_record(m, migrate_change(m, path, vis, s), cid),
    ensures
        values_in(tree_of(migrated(m, path, vis, now, s, cid).0.graph.changes)) == values_in(tree_of(m.graph.changes)).insert(
            normal_path(path),
            (s.addr, vis),
        ),
{
    let c = migrate_change(m, path, vis, s);
    let m1 = recorded(with_content(m, s), c, cid, Seq::empty());
    lemma_granting_keeps(m1, s.addr, newly_granted(m, vis), now);
    lemma_put_at(tree_of(m.graph.changes), path, (s.addr, vis));
    law_topmost_is_current(m.graph, node_here(m, c, cid, Seq::empty()));
}

/// After an identity has been cut off from a path, it leads to the content sealed anew
/// for the others. What the other paths of the current tree lead to is as before.
pub proof fn law_cutting_off_is_current(
    m: RepoModel,
    path: Seq<char>,
    who: Seq<char>,
    now: u64,
    hard: bool,
    s: Sealing,
    cid: Option<Seq<u8>>,
)
    requires
        can_record(m, maroon_change(m, path, who, s), cid),
    ensures
        values_in(tree_of(marooned(m, path, who, now, hard, s, cid).0.graph.changes)) == values_in(tree_of(m.graph.changes)).insert(
            normal_path(path),
            (s.addr, without_identity(tree_of(m.graph.changes)[normal_path(path)].v.1, who)),
        ),
{
    let old_oid = tree_of(m.graph.changes)[normal_path(path)].v.0;
    let c = maroon_change(m, path, who, s);
    let m1 = if hard {
        RepoModel { purges: m.purges.push((old_oid, who)), ..with_content(m, s) }
    } else {
        with_content(m, s)
    };
    let m2 = recorded(m1, c, cid, Seq::empty());
    lemma_granting_keeps(m2, s.addr, remaining_grantees(m, old_oid, who), now);
    lemma_put_at(
        tree_of(m.graph.changes),
        path,
        (s.addr, without_identity(tree_of(m.graph.changes)[normal_path(path)].v.1, who)),
    );
    law_topmost_is_current(m.graph, node_here(m, c, cid, Seq::empty()));
}

// ---------------------------------------------------------------------------
// Cutting off
// ---------------------------------------------------------------------------

proof fn lemma_granted_all(m: RepoModel, oid: Id, to: Seq<(Seq<char>, Option<u64>)>, now: u64, who: Seq<char>)
    requires
        forall|i: int| 0 <= i < to.len() ==> (#[trigger] to[i]).0 != who,
    ensures
        forall|i: int|
            0 <= i < granted_all(m, oid, to, now).1.len() ==> (#[trigger] granted_all(m, oid, to, now).1[i]).0 != who,
        granted_all(m, oid, to, now).0.purges == m.purges,
    decreases to.len(),
{
    if to.len() > 0 {
        assert forall|i: int| 0 <= i < to.drop_last().len() implies (#[trigger] to.drop_last()[i]).0 != who by {
            assert(to.drop_last()[i] == to[i]);
        }
        assert(to.last() == to[to.len() - 1]);
        lemma_granted_all(m, oid, to.drop_last(), now, who);
    }
}

/// One who is cut off from restricted content is not among those that it is sealed for
/// anew, and gets no grant of it. Cutting off hard leaves a purge for them.
pub proof fn law_marooned_is_left_out(
    m: RepoModel,
    path: Seq<char>,
    who: Seq<char>,
    bytes: Seq<u8>,
    now: u64,
    hard: bool,
    s: Sealing,
    cid: Option<Seq<u8>>,
)
    requires
        tree_of(m.graph.changes)[normal_path(path)].v.1 is Restricted,
        sealed_anew(m, bytes, without_identity(tree_of(m.graph.changes)[normal_path(path)].v.1, who), s, cid),
    ensures
        !s.obj.grant_ids.contains(who),
        forall|i: int|
            0 <= i < marooned(m, path, who, now, hard, s, cid).1.len() ==> (#[trigger] marooned(
                m,
                path,
                who,
                now,
                hard,
                s,
                cid,
            ).1[i]).0 != who,
        hard ==> marooned(m, path, who, now, hard, s, cid).0.purges == m.purges.push(
            (tree_of(m.graph.changes)[normal_path(path)].v.0, who),
        ),
{
    let old_oid = tree_of(m.graph.changes)[normal_path(path)].v.0;
    let ids = tree_of(m.graph.changes)[normal_path(path)].v.1->Restricted_0;
    assert(s.obj.grant_ids == grant_ids_of(without_identity(tree_of(m.graph.changes)[normal_path(path)].v.1, who)));
    lemma_filter_contains(ids, other_name(who), who);
    let gs = grants_for_object(m.manifest, old_oid);
    let f = |g: GrantModel| g.grantee != who && g.grantee != m.identity;
    let to = remaining_grantees(m, old_oid, who);
    assert forall|i: int| 0 <= i < to.len() implies (#[trigger] to[i]).0 != who by {
        let g = gs.filter(f)[i];
        assert(gs.filter(f).contains(g));
        lemma_filter_contains(gs, f, g);
    }
    let m1 = with_content(m, s);
    let m2 = if hard {
        RepoModel { purges: m.purges.push((old_oid, who)), ..m1 }
    } else {
        m1
    };
    let m3 = recorded(m2, maroon_change(m, path, who, s), cid, Seq::empty());
    lemma_granted_all(m3, s.addr, to, now, who);
}

/// A purge takes no key from anyone but the one that it is for.
pub proof fn law_purge_is_for_one(m: RepoModel, ps: Seq<(Id, Seq<char>)>, at: u64, oid: Id)
    requires
        !ps.contains((oid, m.identity)),
        m.keys.contains_key(oid),
    ensures
        purged(m, ps, at).keys.contains_key(oid),
        purged(m, ps, at).keys[oid] == m.keys[oid],
        purged(m, ps, at).identity == m.identity,
    decreases ps.len(),
{
    if ps.len() > 0 {
        assert(ps.last() == ps[ps.len() - 1]);
        assert(!ps.drop_last().contains((oid, m.identity))) by {
            if ps.drop_last().contains((oid, m.identity)) {
                let i = choose|i: int| 0 <= i < ps.drop_last().len() && ps.drop_last()[i] == (oid, m.identity);
                assert(ps[i] == (oid, m.identity));
            }
        }
        law_purge_is_for_one(m, ps.drop_last(), at, oid);
    }
}

proof fn lemma_purge_drops(m: RepoModel, ps: Seq<(Id, Seq<char>)>, at: u64, oid: Id)
    requires
        m.identity != BURN_PURGE_MARKER@,
        ps.contains((oid, m.identity)) || !m.keys.contains_key(oid),
    ensures
        !purged(m, ps, at).keys.contains_key(oid),
        purged(m, ps, at).identity == m.identity,
    decreases ps.len(),
{
    if ps.len() > 0 {
        assert(ps.last() == ps[ps.len() - 1]);
        let front = ps.drop_last();
        if front.contains((oid, m.identity)) || !m.keys.contains_key(oid) {
            lemma_purge_drops(m, front, at, oid);
        } else {
            let i = choose|i: int| 0 <= i < ps.len() && ps[i] == (oid, m.identity);
            if i < front.len() {
                assert(front[i] == (oid, m.identity));
            }
            assert(ps.last() == (oid, m.identity));
            lemma_purged_keeps(m, front, at);
        }
    }
}

/// A key that does not come along is not filed.
proof fn lemma_stored_keys(m: RepoModel, objs: Seq<(Id, SealedModel)>, keys: Map<Id, Seq<u8>>, oid: Id)
    requires
        !m.keys.contains_key(oid),
        !keys.contains_key(oid),
    ensures
        !stored_objects(m, objs, keys).keys.contains_key(oid),
    decreases objs.len(),
{
    if objs.len() > 0 {
        lemma_stored_keys(m, objs.drop_last(), keys, oid);
    }
}

/// One who was cut off hard drops the key with the next sync, whatever they held.
pub proof fn law_hard_maroon_takes_the_key(
    m: RepoModel,
    g: RepoModel,
    oid: Id,
    have: Seq<Id>,
    wants: Option<Set<Id>>,
    now: u64,
    abandoned: Set<Id>,
)
    requires
        m.purges.contains((oid, g.identity)),
        g.identity != BURN_PURGE_MARKER@,
        m.objects.contains_key(oid) ==> !granted_to_anyone(m.objects[oid].grant_ids),
        frame_fits(FrameModel::Sync { purges: m.purges, body: sync_body(m, have, wants) }),
        applied(g, sync_bundle(m, have, wants), now, abandoned) is Ok,
    ensures
        !applied(g, sync_bundle(m, have, wants), now, abandoned)->Ok_0.0.keys.contains_key(oid),
{
    let body = sync_body(m, have, wants);
    law_frame_round_trip(FrameModel::Sync { purges: m.purges, body });
    lemma_purge_drops(g, m.purges, now, oid);
    lemma_stored_keys(purged(g, m.purges, now), pairs_of::<Oid, SealedModel>(body.objs), body.keys, oid);
}

// ---------------------------------------------------------------------------
// Sync
// ---------------------------------------------------------------------------

/// Syncing gives nobody a key of restricted content: neither one who merges what comes
/// in, nor a relay that only keeps it.
pub proof fn law_sync_gives_no_restricted_key(
    m: RepoModel,
    g: RepoModel,
    oid: Id,
    have: Seq<Id>,
    wants: Option<Set<Id>>,
    now: u64,
    abandoned: Set<Id>,
)
    requires
        !g.keys.contains_key(oid),
        m.objects.contains_key(oid) ==> !granted_to_anyone(m.objects[oid].grant_ids),
        frame_fits(FrameModel::Sync { purges: m.purges, body: sync_body(m, have, wants) }),
    ensures
        applied(g, sync_bundle(m, have, wants), now, abandoned) matches Ok((after, _)) ==> !after.keys.contains_key(oid),
        stowed(g, sync_bundle(m, have, wants)) matches Ok(after) ==> !after.keys.contains_key(oid),
{
    let body = sync_body(m, have, wants);
    law_frame_round_trip(FrameModel::Sync { purges: m.purges, body });
    let objs = pairs_of::<Oid, SealedModel>(body.objs);
    lemma_purged_keys(g, m.purges, now, oid);
    lemma_purged_keys(g, m.purges, 0, oid);
    lemma_stored_keys(purged(g, m.purges, now), objs, body.keys, oid);
    lemma_stored_keys(burned_all(g, m.purges, 0), objs, body.keys, oid);
}

/// Embargoed content that comes in by sync stays shut whatever time it is taken for:
/// its key has not come, so that emptying escrow brings none up and nobody reads it
/// here.
pub proof fn law_embargo_holds_against_any_clock(
    m: RepoModel,
    g: RepoModel,
    oid: Id,
    have: Seq<Id>,
    wants: Option<Set<Id>>,
    now: u64,
    abandoned: Set<Id>,
    clock: u64,
    reader: Seq<char>,
)
    requires
        !any_names_openly(sendable(m, have), oid) || !m.keys.contains_key(oid),
        !g.keys.contains_key(oid),
        !g.escrow.contains_key(oid),
        frame_fits(FrameModel::Sync { purges: m.purges, body: sync_body(m, have, wants) }),
    ensures
        applied(g, sync_bundle(m, have, wants), now, abandoned) matches Ok((after, _)) ==> got(
            after_flush(after, clock),
            oid,
            reader,
            clock,
        ) is Err,
        stowed(g, sync_bundle(m, have, wants)) matches Ok(after) ==> got(
            after_flush(after, clock),
            oid,
            reader,
            clock,
        ) is Err,
{
    let body = sync_body(m, have, wants);
    law_frame_round_trip(FrameModel::Sync { purges: m.purges, body });
    law_embargoed_keys_stay(m, have, wants, oid);
    let objs = pairs_of::<Oid, SealedModel>(body.objs);
    lemma_purged_keys(g, m.purges, now, oid);
    lemma_purged_keys(g, m.purges, 0, oid);
    lemma_purged_rest(g, m.purges, now);
    lemma_burned_escrow(g, m.purges, 0);
    lemma_stored_keys(purged(g, m.purges, now), objs, body.keys, oid);
    lemma_stored_keys(burned_all(g, m.purges, 0), objs, body.keys, oid);
    lemma_stored_escrow(purged(g, m.purges, now), objs, body.keys, oid);
    lemma_stored_escrow(burned_all(g, m.purges, 0), objs, body.keys, oid);
}

proof fn lemma_burned_escrow(m: RepoModel, ps: Seq<(Id, Seq<char>)>, at: u64)
    ensures
        burned_all(m, ps, at).escrow == m.escrow,
    decreases ps.len(),
{
    if ps.len() > 0 {
        lemma_burned_escrow(m, ps.drop_last(), at);
    }
}

proof fn lemma_stored_escrow(m: RepoModel, objs: Seq<(Id, SealedModel)>, keys: Map<Id, Seq<u8>>, oid: Id)
    requires
        !m.escrow.contains_key(oid),
        !keys.contains_key(oid),
    ensures
        !stored_objects(m, objs, keys).escrow.contains_key(oid),
    decreases objs.len(),
{
    if objs.len() > 0 {
        lemma_stored_escrow(m, objs.drop_last(), keys, oid);
    }
}

/// Purges give no keys.
proof fn lemma_purged_keys(m: RepoModel, ps: Seq<(Id, Seq<char>)>, at: u64, oid: Id)
    requires
        !m.keys.contains_key(oid),
    ensures
        !purged(m, ps, at).keys.contains_key(oid),
        !burned_all(m, ps, at).keys.contains_key(oid),
    decreases ps.len(),
{
    if ps.len() > 0 {
        lemma_purged_keys(m, ps.drop_last(), at, oid);
    }
}

/// A relay merges nothing: what comes in is no conflict to it.
pub proof fn law_relay_has_no_conflicts(m: RepoModel, bundle: Seq<u8>)
    requires
        stowed(m, bundle) is Ok,
    ensures
        stowed(m, bundle)->Ok_0.conflicts == m.conflicts,
{
    match parse_frame(bundle) {
        Ok(FrameModel::Sync { purges, body }) => {
            lemma_burned_keeps(m, purges, 0);
            lemma_stored_keeps(burned_all(m, purges, 0), pairs_of::<Oid, SealedModel>(body.objs), body.keys);
        },
        _ => {},
    }
}

proof fn lemma_burned_keeps(m: RepoModel, ps: Seq<(Id, Seq<char>)>, at: u64)
    ensures
        burned_all(m, ps, at).conflicts == m.conflicts,
    decreases ps.len(),
{
    if ps.len() > 0 {
        lemma_burned_keeps(m, ps.drop_last(), at);
    }
}

/// The nodes that come in are there.
proof fn lemma_with_nodes_has(g: GraphModel, ns: Seq<NodeModel>)
    ensures
        forall|id: Id| #[trigger] g.changes.contains_key(id) ==> with_nodes(g, ns).changes.contains_key(id),
        forall|i: int| 0 <= i < ns.len() ==> with_nodes(g, ns).changes.contains_key((#[trigger] ns[i]).id),
    decreases ns.len(),
{
    if ns.len() > 0 {
        let front = ns.drop_last();
        lemma_with_nodes_has(g, front);
        assert forall|i: int| 0 <= i < ns.len() implies with_nodes(g, ns).changes.contains_key(
            (#[trigger] ns[i]).id,
        ) by {
            if i < front.len() {
                assert(front[i] == ns[i]);
            }
        }
    }
}

/// Nodes that are there already change nothing.
proof fn lemma_with_nodes_again(g: GraphModel, ns: Seq<NodeModel>)
    requires
        forall|i: int| 0 <= i < ns.len() ==> g.changes.contains_key((#[trigger] ns[i]).id),
    ensures
        with_nodes(g, ns) == g,
    decreases ns.len(),
{
    if ns.len() > 0 {
        let front = ns.drop_last();
        assert forall|i: int| 0 <= i < front.len() implies g.changes.contains_key((#[trigger] front[i]).id) by {
            assert(front[i] == ns[i]);
        }
        assert(ns.last() == ns[ns.len() - 1]);
        lemma_with_nodes_again(g, front);
    }
}

/// Objects that come in are here, or burned.
proof fn lemma_stored_has(m: RepoModel, objs: Seq<(Id, SealedModel)>, keys: Map<Id, Seq<u8>>)
    ensures
        stored_objects(m, objs, keys).burns == m.burns,
        forall|oid: Id| #[trigger]
            m.objects.contains_key(oid) ==> stored_objects(m, objs, keys).objects.contains_key(oid),
        forall|i: int|
            0 <= i < objs.len() ==> m.burns.contains_key((#[trigger] objs[i]).0) || stored_objects(
                m,
                objs,
                keys,
            ).objects.contains_key(objs[i].0),
    decreases objs.len(),
{
    if objs.len() > 0 {
        let front = objs.drop_last();
        lemma_stored_has(m, front, keys);
        assert forall|i: int| 0 <= i < objs.len() implies m.burns.contains_key((#[trigger] objs[i]).0)
            || stored_objects(m, objs, keys).objects.contains_key(objs[i].0) by {
            if i < front.len() {
                assert(front[i] == objs[i]);
            }
        }
    }
}

/// Objects that are here, or burned, change nothing.
proof fn lemma_stored_again(m: RepoModel, objs: Seq<(Id, SealedModel)>, keys: Map<Id, Seq<u8>>)
    requires
        forall|i: int|
            0 <= i < objs.len() ==> m.burns.contains_key((#[trigger] objs[i]).0) || m.objects.contains_key(objs[i].0),
    ensures
        stored_objects(m, objs, keys) == m,
    decreases objs.len(),
{
    if objs.len() > 0 {
        let front = objs.drop_last();
        assert forall|i: int| 0 <= i < front.len() implies m.burns.contains_key((#[trigger] front[i]).0)
            || m.objects.contains_key(front[i].0) by {
            assert(front[i] == objs[i]);
        }
        assert(objs.last() == objs[objs.len() - 1]);
        lemma_stored_again(m, front, keys);
    }
}

/// What the burns among some purges leave.
proof fn lemma_purged_burns(m: RepoModel, ps: Seq<(Id, Seq<char>)>, at: u64)
    ensures
        forall|oid: Id| #[trigger] m.burns.contains_key(oid) ==> purged(m, ps, at).burns.contains_key(oid),
        forall|i: int|
            0 <= i < ps.len() && (#[trigger] ps[i]).1 == BURN_PURGE_MARKER@ ==> purged(m, ps, at).burns.contains_key(
                ps[i].0,
            ),
    decreases ps.len(),
{
    if ps.len() > 0 {
        let front = ps.drop_last();
        lemma_purged_burns(m, front, at);
        assert forall|i: int|
            0 <= i < ps.len() && (#[trigger] ps[i]).1 == BURN_PURGE_MARKER@ implies purged(
            m,
            ps,
            at,
        ).burns.contains_key(ps[i].0) by {
            if i < front.len() {
                assert(front[i] == ps[i]);
            }
        }
    }
}

/// Purges whose burns have been done destroy nothing more.
proof fn lemma_purged_again(m: RepoModel, ps: Seq<(Id, Seq<char>)>, at: u64)
    requires
        forall|i: int|
            0 <= i < ps.len() && (#[trigger] ps[i]).1 == BURN_PURGE_MARKER@ ==> m.burns.contains_key(ps[i].0),
    ensures
        purged(m, ps, at).objects == m.objects,
        purged(m, ps, at).burns == m.burns,
    decreases ps.len(),
{
    if ps.len() > 0 {
        let front = ps.drop_last();
        assert forall|i: int|
            0 <= i < front.len() && (#[trigger] front[i]).1 == BURN_PURGE_MARKER@ implies m.burns.contains_key(
            front[i].0,
        ) by {
            assert(front[i] == ps[i]);
        }
        assert(ps.last() == ps[ps.len() - 1]);
        lemma_purged_again(m, front, at);
    }
}

/// Purges touch neither custody in escrow nor records.
proof fn lemma_purged_rest(m: RepoModel, ps: Seq<(Id, Seq<char>)>, at: u64)
    ensures
        purged(m, ps, at).escrow == m.escrow,
        purged(m, ps, at).manifest == m.manifest,
        purged(m, ps, at).purges == m.purges,
        purged(m, ps, at).identity == m.identity,
    decreases ps.len(),
{
    if ps.len() > 0 {
        lemma_purged_rest(m, ps.drop_last(), at);
    }
}

/// Purges of keys that are not here change nothing on the keyring.
proof fn lemma_purged_absent(m: RepoModel, ps: Seq<(Id, Seq<char>)>, at: u64)
    requires
        forall|i: int| 0 <= i < ps.len() && (#[trigger] ps[i]).1 == m.identity ==> !m.keys.contains_key(ps[i].0),
    ensures
        purged(m, ps, at).keys == m.keys,
    decreases ps.len(),
{
    if ps.len() > 0 {
        let front = ps.drop_last();
        assert forall|i: int| 0 <= i < front.len() && (#[trigger] front[i]).1 == m.identity implies !m.keys.contains_key(
            front[i].0,
        ) by {
            assert(front[i] == ps[i]);
        }
        assert(ps.last() == ps[ps.len() - 1]);
        lemma_purged_absent(m, front, at);
        lemma_purged_rest(m, front, at);
        assert(purged(m, ps, at).keys =~= m.keys);
    }
}

/// A purge of one's own takes the key.
proof fn lemma_purged_taken(m: RepoModel, ps: Seq<(Id, Seq<char>)>, at: u64, i: int)
    requires
        0 <= i < ps.len(),
        ps[i].1 == m.identity,
        m.identity != BURN_PURGE_MARKER@,
    ensures
        !purged(m, ps, at).keys.contains_key(ps[i].0),
    decreases ps.len(),
{
    let front = ps.drop_last();
    lemma_purged_rest(m, front, at);
    if i < front.len() {
        assert(front[i] == ps[i]);
        lemma_purged_taken(m, front, at, i);
    }
}

/// The last of some attestations that holds and is filed under a key.
spec fn last_under(atts: Seq<AttestationModel>, k: (Seq<u8>, (Seq<u8>, Seq<char>))) -> Option<AttestationModel>
    decreases atts.len(),
{
    if atts.len() == 0 {
        None
    } else if attests(atts.last()) && key_of(atts.last()) == k {
        Some(atts.last())
    } else {
        last_under(atts.drop_last(), k)
    }
}

proof fn lemma_attested(log: LogModel, atts: Seq<AttestationModel>, k: (Seq<u8>, (Seq<u8>, Seq<char>)))
    ensures
        match last_under(atts, k) {
            Some(a) => attested(log, atts).contains_key(k) && attested(log, atts)[k] == a,
            None => attested(log, atts).contains_key(k) == log.contains_key(k) && (log.contains_key(k)
                ==> attested(log, atts)[k] == log[k]),
        },
    decreases atts.len(),
{
    if atts.len() > 0 {
        lemma_attested(log, atts.drop_last(), k);
    }
}

/// Attestations that a log has taken in change it no more.
proof fn lemma_attested_again(log: LogModel, atts: Seq<AttestationModel>)
    ensures
        attested(attested(log, atts), atts) == attested(log, atts),
{
    let once = attested(log, atts);
    let twice = attested(once, atts);
    assert forall|k: (Seq<u8>, (Seq<u8>, Seq<char>))| #[trigger]
        twice.contains_key(k) == once.contains_key(k) by {
        lemma_attested(log, atts, k);
        lemma_attested(once, atts, k);
    }
    assert forall|k: (Seq<u8>, (Seq<u8>, Seq<char>))| once.contains_key(k) implies #[trigger] twice[k]
        == once[k] by {
        lemma_attested(log, atts, k);
        lemma_attested(once, atts, k);
    }
    assert(twice =~= once);
}

/// A list that has been added adds nothing more.
proof fn lemma_gathered_again(a: Seq<(Id, Seq<char>)>, b: Seq<(Id, Seq<char>)>)
    requires
        forall|i: int| 0 <= i < b.len() ==> a.contains(#[trigger] b[i]),
    ensures
        gathered_purges(a, b) == a,
    decreases b.len(),
{
    if b.len() > 0 {
        let front = b.drop_last();
        assert forall|i: int| 0 <= i < front.len() implies a.contains(#[trigger] front[i]) by {
            assert(front[i] == b[i]);
        }
        assert(b.last() == b[b.len() - 1]);
        lemma_gathered_again(a, front);
    }
}

/// A list to which another was added holds both.
proof fn lemma_gathered_has(a: Seq<(Id, Seq<char>)>, b: Seq<(Id, Seq<char>)>)
    ensures
        forall|i: int| 0 <= i < b.len() ==> gathered_purges(a, b).contains(#[trigger] b[i]),
    decreases b.len(),
{
    if b.len() > 0 {
        let front = b.drop_last();
        let g = gathered_purges(a, front);
        lemma_gathered_has(a, front);
        assert forall|i: int| 0 <= i < b.len() implies gathered_purges(a, b).contains(#[trigger] b[i]) by {
            if i < front.len() {
                assert(front[i] == b[i]);
                let j = choose|j: int| 0 <= j < g.len() && g[j] == b[i];
                assert(gathered_purges(a, b)[j] == b[i]);
            } else if !g.contains(b.last()) {
                assert(gathered_purges(a, b)[g.len() as int] == b[i]);
            }
        }
    }
}

/// What a sync brings comes in once: the same again, at any later time, adds no
/// change, object, burn, attestation or embargoed key. The keyring stays as it is
/// too, unless the sync both purges a key here and brings it.
pub proof fn law_sync_comes_in_once(
    m: RepoModel,
    bundle: Seq<u8>,
    purges: Seq<(Id, Seq<char>)>,
    body: BodyModel,
    now: u64,
    abandoned: Set<Id>,
    later: u64,
    given_up: Set<Id>,
)
    requires
        parse_frame(bundle) == Ok::<FrameModel, ErrorModel>(FrameModel::Sync { purges, body }),
        applied(m, bundle, now, abandoned) is Ok,
    ensures
        ({
            let once = applied(m, bundle, now, abandoned)->Ok_0.0;
            let twice = applied(once, bundle, later, given_up)->Ok_0.0;
            &&& applied(once, bundle, later, given_up) is Ok
            &&& twice.graph == once.graph
            &&& twice.objects == once.objects
            &&& twice.burns == once.burns
            &&& twice.attestations == once.attestations
            &&& twice.escrow == once.escrow
            &&& twice.manifest == once.manifest
            &&& twice.purges == once.purges
            &&& m.identity != BURN_PURGE_MARKER@ && (forall|i: int|
                0 <= i < purges.len() && (#[trigger] purges[i]).1 == m.identity ==> !body.keys.contains_key(
                    purges[i].0,
                )) ==> twice.keys == once.keys
        }),
{
    let objs = pairs_of::<Oid, SealedModel>(body.objs);
    let once = synced(m, purges, body, now, abandoned)->Ok_0.0;
    let p1 = purged(m, purges, now);
    lemma_with_nodes_has(m.graph, body.changes);
    lemma_with_nodes_again(once.graph, body.changes);
    lemma_purged_burns(m, purges, now);
    lemma_purged_keeps(m, purges, now);
    lemma_purged_rest(m, purges, now);
    lemma_stored_has(p1, objs, body.keys);
    lemma_stored_keeps(p1, objs, body.keys);
    let p2 = purged(once, purges, later);
    lemma_purged_again(once, purges, later);
    lemma_purged_keeps(once, purges, later);
    lemma_purged_rest(once, purges, later);
    lemma_stored_again(p2, objs, body.keys);
    lemma_attested_again(m.attestations, body.attestations);
    if m.identity != BURN_PURGE_MARKER@ && (forall|i: int|
        0 <= i < purges.len() && (#[trigger] purges[i]).1 == m.identity ==> !body.keys.contains_key(purges[i].0)) {
        assert forall|i: int|
            0 <= i < purges.len() && (#[trigger] purges[i]).1 == once.identity implies !once.keys.contains_key(
            purges[i].0,
        ) by {
            lemma_purged_taken(m, purges, now, i);
            lemma_stored_keys(p1, objs, body.keys, purges[i].0);
        }
        lemma_purged_absent(once, purges, later);
    }
}

/// A relay that takes in the same again stays as it is.
pub proof fn law_stowing_again_changes_nothing(m: RepoModel, bundle: Seq<u8>)
    requires
        stowed(m, bundle) is Ok,
    ensures
        stowed(stowed(m, bundle)->Ok_0, bundle) == stowed(m, bundle),
{
    match parse_frame(bundle) {
        Ok(FrameModel::Sync { purges, body }) => {
            let objs = pairs_of::<Oid, SealedModel>(body.objs);
            let once = stowed(m, bundle)->Ok_0;
            let b1 = burned_all(m, purges, 0);
            lemma_with_nodes_has(m.graph, body.changes);
            lemma_with_nodes_again(once.graph, body.changes);
            lemma_burned_has(m, purges, 0);
            lemma_purged_keeps(m, purges, 0);
            lemma_stored_has(b1, objs, body.keys);
            lemma_stored_keeps(b1, objs, body.keys);
            lemma_burned_again(once, purges, 0);
            lemma_stored_again(once, objs, body.keys);
            lemma_gathered_has(m.purges, purges);
            lemma_gathered_again(once.purges, purges);
            lemma_attested_again(m.attestations, body.attestations);
        },
        _ => {},
    }
}

/// What the burns among some purges leave.
proof fn lemma_burned_has(m: RepoModel, ps: Seq<(Id, Seq<char>)>, at: u64)
    ensures
        forall|oid: Id| #[trigger] m.burns.contains_key(oid) ==> burned_all(m, ps, at).burns.contains_key(oid),
        forall|i: int|
            0 <= i < ps.len() && (#[trigger] ps[i]).1 == BURN_PURGE_MARKER@ ==> burned_all(
                m,
                ps,
                at,
            ).burns.contains_key(ps[i].0),
    decreases ps.len(),
{
    if ps.len() > 0 {
        let front = ps.drop_last();
        lemma_burned_has(m, front, at);
        assert forall|i: int|
            0 <= i < ps.len() && (#[trigger] ps[i]).1 == BURN_PURGE_MARKER@ implies burned_all(
            m,
            ps,
            at,
        ).burns.contains_key(ps[i].0) by {
            if i < front.len() {
                assert(front[i] == ps[i]);
            }
        }
    }
}

/// Burns that have been done destroy nothing more.
proof fn lemma_burned_again(m: RepoModel, ps: Seq<(Id, Seq<char>)>, at: u64)
    requires
        forall|i: int|
            0 <= i < ps.len() && (#[trigger] ps[i]).1 == BURN_PURGE_MARKER@ ==> m.burns.contains_key(ps[i].0),
    ensures
        burned_all(m, ps, at) == m,
    decreases ps.len(),
{
    if ps.len() > 0 {
        let front = ps.drop_last();
        assert forall|i: int|
            0 <= i < front.len() && (#[trigger] front[i]).1 == BURN_PURGE_MARKER@ implies m.burns.contains_key(
            front[i].0,
        ) by {
            assert(front[i] == ps[i]);
        }
        assert(ps.last() == ps[ps.len() - 1]);
        lemma_burned_again(m, front, at);
    }
}

/// What is sent arrives: every change that travels, and every object with it that is
/// asked for and not burned where it comes in.
pub proof fn law_sync_delivers(
    m: RepoModel,
    g: RepoModel,
    have: Seq<Id>,
    wants: Option<Set<Id>>,
    now: u64,
    abandoned: Set<Id>,
)
    requires
        frame_fits(FrameModel::Sync { purges: m.purges, body: sync_body(m, have, wants) }),
        applied(g, sync_bundle(m, have, wants), now, abandoned) is Ok,
    ensures
        ({
            let after = applied(g, sync_bundle(m, have, wants), now, abandoned)->Ok_0.0;
            &&& forall|i: int|
                0 <= i < sendable(m, have).len() ==> after.graph.changes.contains_key(
                    (#[trigger] sendable(m, have)[i]).id,
                )
            &&& forall|oid: Id| #[trigger]
                sync_body(m, have, wants).objs.contains_key(oid) ==> after.objects.contains_key(oid)
                    || after.burns.contains_key(oid)
        }),
{
    let body = sync_body(m, have, wants);
    law_frame_round_trip(FrameModel::Sync { purges: m.purges, body });
    let objs = pairs_of::<Oid, SealedModel>(body.objs);
    let p1 = purged(g, m.purges, now);
    lemma_with_nodes_has(g.graph, body.changes);
    lemma_stored_has(p1, objs, body.keys);
    let after = applied(g, sync_bundle(m, have, wants), now, abandoned)->Ok_0.0;
    assert forall|oid: Id| #[trigger] body.objs.contains_key(oid) implies after.objects.contains_key(oid)
        || after.burns.contains_key(oid) by {
        lemma_map_is_listed::<Oid, SealedModel>(body.objs);
        let i = place_of(objs, oid);
        lemma_entry::<Oid, SealedModel>(objs, i);
        assert(objs[i].0 == oid);
    }
}

/// A new object that comes in with its key is here with it, if this identity is granted
/// it and it is not under embargo.
proof fn lemma_stored_new(m: RepoModel, objs: Seq<(Id, SealedModel)>, keys: Map<Id, Seq<u8>>, i: int)
    requires
        0 <= i < objs.len(),
        forall|j: int| 0 <= j < objs.len() && j != i ==> (#[trigger] objs[j]).0 != objs[i].0,
        !m.objects.contains_key(objs[i].0),
        !m.burns.contains_key(objs[i].0),
        !m.keys.contains_key(objs[i].0),
        keys.contains_key(objs[i].0),
        granted_to_anyone(objs[i].1.grant_ids),
        !(objs[i].1.vis is Embargoed),
    ensures
        stored_objects(m, objs, keys).objects.contains_key(objs[i].0),
        stored_objects(m, objs, keys).objects[objs[i].0] == objs[i].1,
        stored_objects(m, objs, keys).keys.contains_key(objs[i].0),
        stored_objects(m, objs, keys).keys[objs[i].0] == keys[objs[i].0],
    decreases objs.len(),
{
    let front = objs.drop_last();
    let oid = objs[i].0;
    if i < front.len() {
        assert(front[i] == objs[i]);
        assert forall|j: int| 0 <= j < front.len() && j != i implies (#[trigger] front[j]).0 != front[i].0 by {
            assert(front[j] == objs[j]);
        }
        lemma_stored_new(m, front, keys, i);
        assert(objs.last() == objs[objs.len() - 1]);
    } else {
        lemma_stored_keeps(m, front, keys);
        assert forall|j: int| 0 <= j < front.len() implies (#[trigger] front[j]).0 != oid by {
            assert(front[j] == objs[j]);
        }
        lemma_stored_apart(m, front, keys, oid);
    }
}

/// Objects that come in touch none under another address.
proof fn lemma_stored_apart(m: RepoModel, objs: Seq<(Id, SealedModel)>, keys: Map<Id, Seq<u8>>, oid: Id)
    requires
        forall|j: int| 0 <= j < objs.len() ==> (#[trigger] objs[j]).0 != oid,
    ensures
        stored_objects(m, objs, keys).objects.contains_key(oid) <==> m.objects.contains_key(oid),
        stored_objects(m, objs, keys).keys.contains_key(oid) <==> m.keys.contains_key(oid),
    decreases objs.len(),
{
    if objs.len() > 0 {
        let front = objs.drop_last();
        assert forall|j: int| 0 <= j < front.len() implies (#[trigger] front[j]).0 != oid by {
            assert(front[j] == objs[j]);
        }
        assert(objs.last() == objs[objs.len() - 1]);
        lemma_stored_apart(m, front, keys, oid);
    }
}

/// Purges that do not name an object leave it, and its burn record, alone.
proof fn lemma_purged_apart(m: RepoModel, ps: Seq<(Id, Seq<char>)>, at: u64, oid: Id)
    requires
        forall|j: int| 0 <= j < ps.len() ==> (#[trigger] ps[j]).0 != oid,
    ensures
        purged(m, ps, at).objects.contains_key(oid) <==> m.objects.contains_key(oid),
        purged(m, ps, at).burns.contains_key(oid) <==> m.burns.contains_key(oid),
        purged(m, ps, at).keys.contains_key(oid) <==> m.keys.contains_key(oid),
        purged(m, ps, at).identity == m.identity,
        purged(m, ps, at).manifest == m.manifest,
    decreases ps.len(),
{
    if ps.len() > 0 {
        let front = ps.drop_last();
        assert forall|j: int| 0 <= j < front.len() implies (#[trigger] front[j]).0 != oid by {
            assert(front[j] == ps[j]);
        }
        assert(ps.last() == ps[ps.len() - 1]);
        lemma_purged_apart(m, front, at, oid);
    }
}

/// Public content that travels with its key can be read where it arrives, by anyone,
/// as it was.
pub proof fn law_public_content_arrives(
    m: RepoModel,
    g: RepoModel,
    oid: Id,
    reader: Seq<char>,
    have: Seq<Id>,
    wants: Option<Set<Id>>,
    now: u64,
    abandoned: Set<Id>,
)
    requires
        sync_body(m, have, wants).objs.contains_key(oid),
        sync_body(m, have, wants).keys.contains_key(oid),
        !(m.objects[oid].vis is Embargoed),
        !g.objects.contains_key(oid),
        !g.keys.contains_key(oid),
        !g.burns.contains_key(oid),
        forall|j: int| 0 <= j < m.purges.len() ==> (#[trigger] m.purges[j]).0 != oid,
        frame_fits(FrameModel::Sync { purges: m.purges, body: sync_body(m, have, wants) }),
        applied(g, sync_bundle(m, have, wants), now, abandoned) is Ok,
    ensures
        got(applied(g, sync_bundle(m, have, wants), now, abandoned)->Ok_0.0, oid, reader, now) == opened(
            m.objects[oid],
            oid,
            reader,
            m.keys,
            now,
        ),
{
    let body = sync_body(m, have, wants);
    law_frame_round_trip(FrameModel::Sync { purges: m.purges, body });
    let objs = pairs_of::<Oid, SealedModel>(body.objs);
    lemma_map_is_listed::<Oid, SealedModel>(body.objs);
    let i = place_of(objs, oid);
    lemma_entry::<Oid, SealedModel>(objs, i);
    assert(objs[i] == (oid, m.objects[oid]));
    assert forall|j: int| 0 <= j < objs.len() && j != i implies (#[trigger] objs[j]).0 != objs[i].0 by {
        lemma_entry::<Oid, SealedModel>(objs, j);
    }
    let p1 = purged(g, m.purges, now);
    lemma_purged_apart(g, m.purges, now, oid);
    lemma_stored_new(p1, objs, body.keys, i);
}

} // verus!
