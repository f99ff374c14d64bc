//! Sync: what we would send, what we lack, and what becomes of what others send.

use crate::ancestry::{closure_of, Id};
use crate::attestation::{
    attestations_in_order, attests, key_of, Attestation, AttestationModel, LogModel,
};
use crate::bundle_codec::{frame_bytes, parse_frame, BodyModel, BundleBody, Frame, FrameModel};
use crate::burn::{nameless_tombstone, with_burn, BurnTier, Tombstone, BURN_PURGE_MARKER};
use crate::converge::{classified, classify, worst, worst_of, Opens, Outcomes};
use crate::liveness::{computed, Liveness, LivenessModel, Version, VersionModel};
use crate::manifest::{with_record, UNKNOWN_PUBKEY};
use crate::path_map::{laid_over, PathKey, PathMap, Placed};
use crate::sealed::{granted_to_anyone, is_granted_to_anyone, ContentKey, SealedModel, SealedObject};
use crate::seqs::{lemma_filter_contains, lemma_filter_none, lemma_filter_step};
use crate::sorted::{
    among, lemma_among, lemma_entry, map_of, members_of, pairs_of, place_of, rising, SortedMap, SortedSet,
};
use crate::text::same_text;
use crate::types::{
    ErrorModel, MergeOutcome, Oid, OutcomeModel, RepoError, RepoPath, SyncBundle, Tree, TreeModel, Visibility,
    VisibilityModel,
};
use crate::value::Value;
use super::change_graph::{
    edges_of, is_working, is_working_change, line_tree, ordered, tree_of, with_nodes, ChangeGraph,
    ChangeNode, GraphModel, NodeModel,
};
use super::custody::named_grant;
use super::{first_bad, own_read, stored, stored_objects, verify_all, Conflicts, DagRepo, RepoModel};
use vstd::prelude::*;

verus! {

// ---------------------------------------------------------------------------
// Taking in
// ---------------------------------------------------------------------------

/// The repository with an object destroyed at another's request.
pub open spec fn burned(m: RepoModel, oid: Id, at: u64) -> RepoModel {
    if m.burns.contains_key(oid) {
        m
    } else {
        RepoModel {
            burns: with_burn(m.burns, nameless_tombstone(oid, Seq::empty(), BurnTier::Pushed, at)),
            objects: m.objects.remove(oid),
            ..m
        }
    }
}

/// The repository after a purge: a burn destroys the object, and an identity that
/// was cut off drops its key.
pub open spec fn purged_one(m: RepoModel, p: (Id, Seq<char>), at: u64) -> RepoModel {
    if p.1 == BURN_PURGE_MARKER@ {
        burned(m, p.0, at)
    } else if p.1 == m.identity {
        RepoModel { keys: m.keys.remove(p.0), ..m }
    } else {
        m
    }
}

pub open spec fn purged(m: RepoModel, ps: Seq<(Id, Seq<char>)>, at: u64) -> RepoModel
    decreases ps.len(),
{
    if ps.len() == 0 {
        m
    } else {
        purged_one(purged(m, ps.drop_last(), at), ps.last(), at)
    }
}

/// The repository after the burns among some purges.
pub open spec fn burned_all(m: RepoModel, ps: Seq<(Id, Seq<char>)>, at: u64) -> RepoModel
    decreases ps.len(),
{
    if ps.len() == 0 {
        m
    } else {
        let m1 = burned_all(m, ps.drop_last(), at);
        if ps.last().1 == BURN_PURGE_MARKER@ {
            burned(m1, ps.last().0, at)
        } else {
            m1
        }
    }
}

/// A list with the items of another behind it that it does not hold yet.
pub open spec fn gathered_purges(a: Seq<(Id, Seq<char>)>, b: Seq<(Id, Seq<char>)>) -> Seq<(Id, Seq<char>)>
    decreases b.len(),
{
    if b.len() == 0 {
        a
    } else {
        let g = gathered_purges(a, b.drop_last());
        if g.contains(b.last()) {
            g
        } else {
            g.push(b.last())
        }
    }
}

/// A log with those of some attestations that hold.
pub open spec fn attested(log: LogModel, atts: Seq<AttestationModel>) -> LogModel
    decreases atts.len(),
{
    if atts.len() == 0 {
        log
    } else {
        let l = attested(log, atts.drop_last());
        if attests(atts.last()) {
            l.insert(key_of(atts.last()), atts.last())
        } else {
            l
        }
    }
}

/// A change as the liveness view sees it.
pub open spec fn version_of(n: NodeModel) -> VersionModel {
    (n.id, n.change_id, n.predecessors)
}

/// The versions here and those that come in.
pub open spec fn versions_with(g: GraphModel, ns: Seq<NodeModel>) -> Seq<VersionModel> {
    ordered(g.changes).map_values(|n: NodeModel| version_of(n)) + ns.filter(
        |n: NodeModel| !g.changes.contains_key(n.id),
    ).map_values(|n: NodeModel| version_of(n))
}

/// A change that comes in beside another live version of itself. It is not
/// compared with what is here.
pub open spec fn diverges(view: LivenessModel, n: NodeModel) -> bool {
    n.change_id matches Some(c) && view.divergent.contains(c)
}

/// Outcomes with more of them: the one that needs more attention stays.
pub open spec fn worse(a: Outcomes, b: Outcomes) -> Outcomes {
    Map::new(
        |p: Seq<char>| a.contains_key(p) || b.contains_key(p),
        |p: Seq<char>|
            if b.contains_key(p) {
                Placed {
                    text: if a.contains_key(p) {
                        a[p].text
                    } else {
                        b[p].text
                    },
                    v: worst_of(
                        if a.contains_key(p) {
                            a[p].v
                        } else {
                            OutcomeModel::Converged
                        },
                        b[p].v,
                    ),
                }
            } else {
                a[p]
            },
    )
}

/// What comes of several changes at each path that they touch.
pub open spec fn classified_all(
    local: TreeModel,
    ns: Seq<NodeModel>,
    view: LivenessModel,
    opens: Opens,
) -> Outcomes
    decreases ns.len(),
{
    if ns.len() == 0 {
        Map::empty()
    } else {
        let o = classified_all(local, ns.drop_last(), view, opens);
        if diverges(view, ns.last()) {
            o
        } else {
            worse(o, classified(local, ns.last().tree, None, opens))
        }
    }
}

/// The conflicts among some outcomes.
pub open spec fn conflicts_in(o: Outcomes) -> Conflicts {
    Map::new(
        |p: Seq<char>| o.contains_key(p) && o[p].v is Conflict,
        |p: Seq<char>| Placed { text: o[p].text, v: (o[p].v->ours, o[p].v->theirs) },
    )
}

/// The repository after a sync has come in, and what came of it. Nothing comes in
/// if a change's authorship does not hold.
pub open spec fn synced(
    m: RepoModel,
    purges: Seq<(Id, Seq<char>)>,
    body: BodyModel,
    now: u64,
    abandoned: Set<Id>,
) -> Result<(RepoModel, Outcomes), ErrorModel> {
    match first_bad(body.changes) {
        Some(e) => Err(e),
        None => {
            let m1 = stored_objects(
                purged(m, purges, now),
                pairs_of::<Oid, SealedModel>(body.objs),
                body.keys,
            );
            let view = computed(versions_with(m.graph, body.changes), abandoned, Set::empty());
            let o = classified_all(tree_of(m.graph.changes), body.changes, view, own_read(m1, now));
            Ok(
                (
                    RepoModel {
                        conflicts: laid_over(m1.conflicts, conflicts_in(o)),
                        graph: with_nodes(m.graph, body.changes),
                        attestations: attested(m.attestations, body.attestations),
                        ..m1
                    },
                    o,
                ),
            )
        },
    }
}

/// The repository after a grant has come in: its objects, and if it is for this
/// identity its keys, with the grant on record.
pub open spec fn handed(
    m: RepoModel,
    objs: Seq<(Id, SealedModel)>,
    keys: Map<Id, Seq<u8>>,
    ours: bool,
    now: u64,
) -> RepoModel
    decreases objs.len(),
{
    if objs.len() == 0 {
        m
    } else {
        let (addr, obj) = objs.last();
        let m1 = stored(handed(m, objs.drop_last(), keys, ours, now), addr, obj, None);
        if ours && keys.contains_key(addr) {
            RepoModel {
                keys: if m1.keys.contains_key(addr) {
                    m1.keys
                } else {
                    m1.keys.insert(addr, keys[addr])
                },
                manifest: with_record(m1.manifest, named_grant(addr, m.identity, now, None)),
                ..m1
            }
        } else {
            m1
        }
    }
}

/// The error of a sealed grant that is applied as a bundle.
pub open spec fn sealed_grant_as_bundle() -> ErrorModel {
    ErrorModel::Backend("sealed-key grant bundle (tag 3) must be applied via apply_sealed_grant"@)
}

/// The repository after a bundle has come in, and what came of it.
pub open spec fn applied(m: RepoModel, bundle: Seq<u8>, now: u64, abandoned: Set<Id>) -> Result<
    (RepoModel, Outcomes),
    ErrorModel,
> {
    match parse_frame(bundle) {
        Ok(f) => match f {
            FrameModel::Sync { purges, body } => synced(m, purges, body, now, abandoned),
            FrameModel::Grant { grantee, body } => Ok(
                (
                    handed(
                        m,
                        pairs_of::<Oid, SealedModel>(body.objs),
                        body.keys,
                        grantee == m.identity,
                        now,
                    ),
                    Map::empty(),
                ),
            ),
            FrameModel::SealedGrant { .. } => Err(sealed_grant_as_bundle()),
        },
        Err(e) => Err(e),
    }
}

/// The error of a relay that is given anything but a sync.
pub open spec fn not_stowable() -> ErrorModel {
    ErrorModel::Backend("a relay can only stow sync bundles (tag 0), not grant bundles"@)
}

/// The repository of a relay after a bundle has come in: nothing is merged, and
/// purges are kept so that they travel on.
pub open spec fn stowed(m: RepoModel, bundle: Seq<u8>) -> Result<RepoModel, ErrorModel> {
    match parse_frame(bundle) {
        Ok(f) => match f {
            FrameModel::Sync { purges, body } => match first_bad(body.changes) {
                Some(e) => Err(e),
                None => {
                    let m1 = stored_objects(
                        burned_all(m, purges, 0),
                        pairs_of::<Oid, SealedModel>(body.objs),
                        body.keys,
                    );
                    Ok(
                        RepoModel {
                            purges: gathered_purges(m.purges, purges),
                            graph: with_nodes(m.graph, body.changes),
                            attestations: attested(m.attestations, body.attestations),
                            ..m1
                        },
                    )
                },
            },
            _ => Err(not_stowable()),
        },
        Err(e) => Err(e),
    }
}

pub proof fn lemma_purged_keeps(m: RepoModel, ps: Seq<(Id, Seq<char>)>, at: u64)
    ensures
        purged(m, ps, at).graph == m.graph,
        purged(m, ps, at).identity == m.identity,
        purged(m, ps, at).attestations == m.attestations,
        burned_all(m, ps, at).graph == m.graph,
        burned_all(m, ps, at).purges == m.purges,
        burned_all(m, ps, at).attestations == m.attestations,
    decreases ps.len(),
{
    if ps.len() > 0 {
        lemma_purged_keeps(m, ps.drop_last(), at);
    }
}

/// Objects that come in touch neither history nor who this is.
pub proof fn lemma_stored_keeps(m: RepoModel, objs: Seq<(Id, SealedModel)>, keys: Map<Id, Seq<u8>>)
    ensures
        stored_objects(m, objs, keys).graph == m.graph,
        stored_objects(m, objs, keys).identity == m.identity,
        stored_objects(m, objs, keys).author == m.author,
        stored_objects(m, objs, keys).purges == m.purges,
        stored_objects(m, objs, keys).conflicts == m.conflicts,
        stored_objects(m, objs, keys).attestations == m.attestations,
        stored_objects(m, objs, keys).manifest == m.manifest,
        stored_objects(m, objs, keys).burns == m.burns,
    decreases objs.len(),
{
    if objs.len() > 0 {
        lemma_stored_keeps(m, objs.drop_last(), keys);
    }
}

/// Makes `a` the worse of both at each path.
fn worsen(a: &mut PathMap<MergeOutcome>, b: &PathMap<MergeOutcome>)
    ensures
        final(a).deep_view() == worse(old(a).deep_view(), b.deep_view()),
{
    let n: usize = b.len();
    let ghost s = b.pairs();
    let ghost am = a.deep_view();
    let ghost bm = b.deep_view();
    let mut i: usize = 0;
    proof {
        lemma_among::<PathKey, Placed<OutcomeModel>>(s, 0);
    }
    while i < n
        invariant
            0 <= i <= n,
            n == s.len(),
            s == b.pairs(),
            bm == b.deep_view(),
            bm == map_of(s),
            rising::<PathKey, Placed<OutcomeModel>>(s),
            forall|p: Seq<char>| #[trigger]
                a.deep_view().contains_key(p) <==> am.contains_key(p) || among(s, i as int, p),
            forall|p: Seq<char>| #[trigger]
                a.deep_view().contains_key(p) ==> a.deep_view()[p] == (if among(s, i as int, p) {
                    worse(am, bm)[p]
                } else {
                    am[p]
                }),
        decreases n - i,
    {
        proof {
            lemma_among::<PathKey, Placed<OutcomeModel>>(s, i as int);
            lemma_entry::<PathKey, Placed<OutcomeModel>>(s, i as int);
        }
        let ghost had = a.deep_view();
        let path = b.path_at(i);
        let ghost k = s[i as int].0;
        let slot = match a.get(path) {
            Some(o) => *o,
            None => MergeOutcome::Converged,
        };
        let w = worst(slot, *b.value_at(i));
        proof {
            assert(worse(am, bm).contains_key(k));
            assert(w.deep_view() == worse(am, bm)[k].v);
        }
        a.insert(path.dup(), w);
        assert(a.deep_view() == had.insert(k, worse(am, bm)[k]));
        i = i + 1;
    }
    proof {
        lemma_among::<PathKey, Placed<OutcomeModel>>(s, n as int);
        assert(a.deep_view() =~= worse(am, bm));
    }
}

/// The conflicts among some outcomes.
fn conflicts_of(o: &PathMap<MergeOutcome>) -> (r: PathMap<(Oid, Oid)>)
    ensures
        r.deep_view() == conflicts_in(o.deep_view()),
{
    let n: usize = o.len();
    let ghost s = o.pairs();
    let ghost m = o.deep_view();
    let mut r: PathMap<(Oid, Oid)> = PathMap::new();
    let mut i: usize = 0;
    proof {
        lemma_among::<PathKey, Placed<OutcomeModel>>(s, 0);
    }
    while i < n
        invariant
            0 <= i <= n,
            n == s.len(),
            s == o.pairs(),
            m == o.deep_view(),
            m == map_of(s),
            rising::<PathKey, Placed<OutcomeModel>>(s),
            forall|p: Seq<char>| #[trigger]
                r.deep_view().contains_key(p) <==> among(s, i as int, p) && m[p].v is Conflict,
            forall|p: Seq<char>| #[trigger]
                r.deep_view().contains_key(p) ==> r.deep_view()[p] == conflicts_in(m)[p],
        decreases n - i,
    {
        proof {
            lemma_among::<PathKey, Placed<OutcomeModel>>(s, i as int);
            lemma_entry::<PathKey, Placed<OutcomeModel>>(s, i as int);
        }
        if let MergeOutcome::Conflict { ours, theirs } = o.value_at(i) {
            assert(conflicts_in(m).contains_key(s[i as int].0));
            r.insert(o.path_at(i).dup(), (*ours, *theirs));
        }
        i = i + 1;
    }
    proof {
        lemma_among::<PathKey, Placed<OutcomeModel>>(s, n as int);
        assert(r.deep_view() =~= conflicts_in(m));
    }
    r
}

/// A change as the liveness view sees it.
fn as_version(n: &ChangeNode) -> (r: Version)
    ensures
        r.deep_view() == version_of(n.deep_view()),
{
    (n.id, n.change_id.dup(), n.predecessors.dup())
}

/// The versions in a graph and those of some changes that it does not know.
fn versions_of(graph: &ChangeGraph, incoming: &Vec<ChangeNode>) -> (r: Vec<Version>)
    ensures
        r.deep_view() == versions_with(graph.deep_view(), incoming.deep_view()),
{
    let ghost g = graph.deep_view();
    let nodes = graph.in_order();
    let ghost ns = nodes.deep_view();
    let ghost vf = |n: NodeModel| version_of(n);
    let mut r: Vec<Version> = crate::seqs::none();
    let mut i: usize = 0;
    assert(r.deep_view() =~= ns.take(0).map_values(vf));
    while i < nodes.len()
        invariant
            0 <= i <= nodes@.len(),
            ns == nodes.deep_view(),
            vf == (|n: NodeModel| version_of(n)),
            r.deep_view() == ns.take(i as int).map_values(vf),
        decreases nodes@.len() - i,
    {
        crate::seqs::push(&mut r, as_version(nodes[i]));
        proof {
            assert(ns[i as int] == nodes@[i as int].deep_view());
            assert(r.deep_view() =~= ns.take(i as int + 1).map_values(vf));
        }
        i = i + 1;
    }
    assert(ns.take(ns.len() as int) =~= ns);
    let ghost base = r.deep_view();
    let ghost is = incoming.deep_view();
    let ghost f = |n: NodeModel| !g.changes.contains_key(n.id);
    let mut k: usize = 0;
    proof {
        lemma_filter_none(is, f);
        assert(r.deep_view() =~= base + is.take(0).filter(f).map_values(vf));
    }
    while k < incoming.len()
        invariant
            0 <= k <= incoming@.len(),
            is == incoming.deep_view(),
            g == graph.deep_view(),
            f == (|n: NodeModel| !g.changes.contains_key(n.id)),
            vf == (|n: NodeModel| version_of(n)),
            r.deep_view() == base + is.take(k as int).filter(f).map_values(vf),
        decreases incoming@.len() - k,
    {
        proof {
            lemma_filter_step(is, k as int, f);
            assert(is[k as int] == incoming@[k as int].deep_view());
        }
        let known = match graph.get(&incoming[k].id) {
            Some(_) => true,
            None => false,
        };
        if !known {
            crate::seqs::push(&mut r, as_version(&incoming[k]));
            proof {
                let x = is.take(k as int).filter(f);
                assert(x.push(is[k as int]).map_values(vf) =~= x.map_values(vf).push(vf(is[k as int])));
                assert(r.deep_view() =~= base + x.push(is[k as int]).map_values(vf));
            }
        }
        k = k + 1;
    }
    assert(is.take(is.len() as int) =~= is);
    r
}

impl DagRepo {
    /// The view of which versions count here.
    pub fn liveness(&self, abandoned: SortedSet<Oid>, parked: SortedSet<Oid>) -> (r: Liveness)
        ensures
            r.deep_view() == computed(
                versions_with(self.deep_view().graph, Seq::empty()),
                abandoned.deep_view(),
                parked.deep_view(),
            ),
    {
        let none: Vec<ChangeNode> = crate::seqs::none();
        let vs = versions_of(&self.graph, &none);
        Liveness::compute(&vs, abandoned, parked)
    }

    /// Destroys an object at another's request.
    fn take_burn(&mut self, oid: &Oid, at: u64)
        ensures
            final(self).deep_view() == burned(old(self).deep_view(), oid.deep_view(), at),
    {
        if !self.burn_log.contains(oid) {
            self.burn_log.insert(Tombstone::unauthored(*oid, RepoPath::empty(), BurnTier::Pushed, at));
            self.objects.remove(oid);
        }
    }

    fn take_purges(&mut self, purges: &Vec<(Oid, String)>, at: u64)
        ensures
            final(self).deep_view() == purged(old(self).deep_view(), purges.deep_view(), at),
    {
        let ghost m = self.deep_view();
        let ghost ps = purges.deep_view();
        let mut i: usize = 0;
        assert(ps.take(0) =~= Seq::<(Id, Seq<char>)>::empty());
        while i < purges.len()
            invariant
                0 <= i <= purges@.len(),
                ps == purges.deep_view(),
                self.deep_view() == purged(m, ps.take(i as int), at),
            decreases purges@.len() - i,
        {
            let p = &purges[i];
            proof {
                assert(ps.take(i as int + 1).drop_last() =~= ps.take(i as int));
                assert(ps.take(i as int + 1).last() == p.deep_view());
            }
            if same_text(p.1.as_str(), BURN_PURGE_MARKER) {
                self.take_burn(&p.0, at);
            } else if same_text(p.1.as_str(), self.identity.as_str()) {
                self.custody.keyring.remove(&p.0);
            }
            i = i + 1;
        }
        assert(ps.take(ps.len() as int) =~= ps);
    }

    fn take_burns(&mut self, purges: &Vec<(Oid, String)>, at: u64)
        ensures
            final(self).deep_view() == burned_all(old(self).deep_view(), purges.deep_view(), at),
    {
        let ghost m = self.deep_view();
        let ghost ps = purges.deep_view();
        let mut i: usize = 0;
        assert(ps.take(0) =~= Seq::<(Id, Seq<char>)>::empty());
        while i < purges.len()
            invariant
                0 <= i <= purges@.len(),
                ps == purges.deep_view(),
                self.deep_view() == burned_all(m, ps.take(i as int), at),
            decreases purges@.len() - i,
        {
            let p = &purges[i];
            proof {
                assert(ps.take(i as int + 1).drop_last() =~= ps.take(i as int));
                assert(ps.take(i as int + 1).last() == p.deep_view());
            }
            if same_text(p.1.as_str(), BURN_PURGE_MARKER) {
                self.take_burn(&p.0, at);
            }
            i = i + 1;
        }
        assert(ps.take(ps.len() as int) =~= ps);
    }

    fn keep_purges(&mut self, purges: &Vec<(Oid, String)>)
        ensures
            final(self).deep_view() == (RepoModel {
                purges: gathered_purges(old(self).deep_view().purges, purges.deep_view()),
                ..old(self).deep_view()
            }),
    {
        let ghost m = self.deep_view();
        let ghost ps = purges.deep_view();
        let mut i: usize = 0;
        assert(ps.take(0) =~= Seq::<(Id, Seq<char>)>::empty());
        while i < purges.len()
            invariant
                0 <= i <= purges@.len(),
                ps == purges.deep_view(),
                self.deep_view() == (RepoModel { purges: gathered_purges(m.purges, ps.take(i as int)), ..m }),
            decreases purges@.len() - i,
        {
            proof {
                assert(ps.take(i as int + 1).drop_last() =~= ps.take(i as int));
                assert(ps.take(i as int + 1).last() == purges@[i as int].deep_view());
            }
            if !crate::seqs::contains(&self.custody.purges, &purges[i]) {
                crate::seqs::push(&mut self.custody.purges, purges[i].dup());
            }
            i = i + 1;
        }
        assert(ps.take(ps.len() as int) =~= ps);
    }

    fn take_attestations(&mut self, atts: &Vec<Attestation>)
        ensures
            final(self).deep_view() == (RepoModel {
                attestations: attested(old(self).deep_view().attestations, atts.deep_view()),
                ..old(self).deep_view()
            }),
    {
        let ghost m = self.deep_view();
        let ghost s = atts.deep_view();
        let mut i: usize = 0;
        assert(s.take(0) =~= Seq::<AttestationModel>::empty());
        while i < atts.len()
            invariant
                0 <= i <= atts@.len(),
                s == atts.deep_view(),
                self.deep_view() == (RepoModel { attestations: attested(m.attestations, s.take(i as int)), ..m }),
            decreases atts@.len() - i,
        {
            proof {
                assert(s.take(i as int + 1).drop_last() =~= s.take(i as int));
                assert(s.take(i as int + 1).last() == atts@[i as int].deep_view());
            }
            if atts[i].verify() {
                self.attestations.insert(atts[i].dup());
            }
            i = i + 1;
        }
        assert(s.take(s.len() as int) =~= s);
    }

    fn take_changes(&mut self, changes: Vec<ChangeNode>)
        ensures
            final(self).deep_view() == (RepoModel {
                graph: with_nodes(old(self).deep_view().graph, changes.deep_view()),
                ..old(self).deep_view()
            }),
    {
        let ghost m = self.deep_view();
        let ghost s = changes.deep_view();
        let mut i: usize = 0;
        assert(s.take(0) =~= Seq::<NodeModel>::empty());
        while i < changes.len()
            invariant
                0 <= i <= changes@.len(),
                s == changes.deep_view(),
                self.deep_view() == (RepoModel { graph: with_nodes(m.graph, s.take(i as int)), ..m }),
            decreases changes@.len() - i,
        {
            proof {
                assert(s.take(i as int + 1).drop_last() =~= s.take(i as int));
                assert(s.take(i as int + 1).last() == changes@[i as int].deep_view());
            }
            self.graph.insert(changes[i].dup());
            i = i + 1;
        }
        assert(s.take(s.len() as int) =~= s);
    }

    /// What comes of several changes at each path that they touch.
    fn classify_all(&self, local: &Tree, changes: &Vec<ChangeNode>, view: &Liveness, now: u64) -> (r: PathMap<
        MergeOutcome,
    >)
        ensures
            r.deep_view() == classified_all(
                local.deep_view(),
                changes.deep_view(),
                view.deep_view(),
                own_read(self.deep_view(), now),
            ),
    {
        let ghost s = changes.deep_view();
        let ghost opens = own_read(self.deep_view(), now);
        let mut r: PathMap<MergeOutcome> = PathMap::new();
        let mut i: usize = 0;
        assert(s.take(0) =~= Seq::<NodeModel>::empty());
        while i < changes.len()
            invariant
                0 <= i <= changes@.len(),
                s == changes.deep_view(),
                opens == own_read(self.deep_view(), now),
                r.deep_view() == classified_all(local.deep_view(), s.take(i as int), view.deep_view(), opens),
            decreases changes@.len() - i,
        {
            let n = &changes[i];
            proof {
                assert(s.take(i as int + 1).drop_last() =~= s.take(i as int));
                assert(s.take(i as int + 1).last() == n.deep_view());
            }
            let skip = match &n.change_id {
                Some(c) => view.divergent().contains(c),
                None => false,
            };
            if !skip {
                let per_change = classify(local, &n.tree, None, self, now);
                worsen(&mut r, &per_change);
            }
            i = i + 1;
        }
        assert(s.take(s.len() as int) =~= s);
        r
    }

    /// Takes a sync in.
    fn apply_sync(
        &mut self,
        purges: &Vec<(Oid, String)>,
        body: BundleBody,
        now: u64,
        abandoned: &SortedSet<Oid>,
    ) -> (r: Result<PathMap<MergeOutcome>, RepoError>)
        ensures
            match r {
                Ok(o) => synced(
                    old(self).deep_view(),
                    purges.deep_view(),
                    body.deep_view(),
                    now,
                    abandoned.deep_view(),
                ) == Ok::<(RepoModel, Outcomes), ErrorModel>((final(self).deep_view(), o.deep_view())),
                Err(e) => synced(
                    old(self).deep_view(),
                    purges.deep_view(),
                    body.deep_view(),
                    now,
                    abandoned.deep_view(),
                ) == Err::<(RepoModel, Outcomes), ErrorModel>(e.deep_view()) && final(self).deep_view() == old(
                    self,
                ).deep_view(),
            },
    {
        verify_all(&body.changes)?;
        let ghost m = self.deep_view();
        let ghost bm = body.deep_view();
        let BundleBody { changes, objs, keys, attestations } = body;
        let local_before = self.graph.current_tree();
        let versions = versions_of(&self.graph, &changes);
        let parked: SortedSet<Oid> = SortedSet::new();
        let view = Liveness::compute(&versions, abandoned.dup(), parked);
        self.take_purges(purges, now);
        self.store_all(&objs, &keys);
        proof {
            lemma_purged_keeps(m, purges.deep_view(), now);
            lemma_stored_keeps(
                purged(m, purges.deep_view(), now),
                pairs_of::<Oid, SealedModel>(bm.objs),
                bm.keys,
            );
        }
        let outcomes = self.classify_all(&local_before, &changes, &view, now);
        let found = conflicts_of(&outcomes);
        self.conflicts.put_all(&found);
        self.take_changes(changes);
        self.take_attestations(&attestations);
        Ok(outcomes)
    }

    /// Takes a grant in.
    fn apply_grant(
        &mut self,
        grantee: &str,
        objs: &SortedMap<Oid, SealedObject>,
        keys: &SortedMap<Oid, ContentKey>,
        now: u64,
    )
        ensures
            final(self).deep_view() == handed(
                old(self).deep_view(),
                pairs_of::<Oid, SealedModel>(objs.deep_view()),
                keys.deep_view(),
                grantee@ == old(self).deep_view().identity,
                now,
            ),
    {
        let ours = same_text(grantee, self.identity.as_str());
        let ghost m = self.deep_view();
        let n: usize = objs.len();
        let ghost s = objs.pairs();
        let mut i: usize = 0;
        assert(s.take(0) =~= Seq::<(Id, SealedModel)>::empty());
        while i < n
            invariant
                0 <= i <= n,
                n == s.len(),
                s == objs.pairs(),
                ours == (grantee@ == m.identity),
                self.deep_view() == handed(m, s.take(i as int), keys.deep_view(), ours, now),
            decreases n - i,
        {
            let addr = *objs.key_at(i);
            proof {
                assert(s.take(i as int + 1).drop_last() =~= s.take(i as int));
                assert(s.take(i as int + 1).last() == s[i as int]);
            }
            let _ = self.store(addr, objs.value_at(i).dup(), None);
            if ours {
                if let Some(k) = keys.get(&addr) {
                    if !self.custody.keyring.holds(&addr) {
                        assert(k.deep_view() =~= k@);
                        self.custody.keyring.insert(addr, *k);
                    }
                    self.custody.manifest.record(addr, grantee.to_owned(), UNKNOWN_PUBKEY, UNKNOWN_PUBKEY, now, None);
                }
            }
            i = i + 1;
        }
        assert(s.take(s.len() as int) =~= s);
    }

    /// Takes a bundle in. A version that comes in beside a live one of the same
    /// change is not compared with what is here, unless the one here is abandoned.
    pub fn apply_with(&mut self, bundle: &SyncBundle, now: u64, abandoned: &SortedSet<Oid>) -> (r: Result<
        PathMap<MergeOutcome>,
        RepoError,
    >)
        ensures
            match r {
                Ok(o) => applied(old(self).deep_view(), bundle.deep_view(), now, abandoned.deep_view()) == Ok::<
                    (RepoModel, Outcomes),
                    ErrorModel,
                >((final(self).deep_view(), o.deep_view())),
                Err(e) => applied(old(self).deep_view(), bundle.deep_view(), now, abandoned.deep_view()) == Err::<
                    (RepoModel, Outcomes),
                    ErrorModel,
                >(e.deep_view()) && final(self).deep_view() == old(self).deep_view(),
            },
    {
        match Frame::decode(bundle.0.as_slice())? {
            Frame::Sync { purges, body } => self.apply_sync(&purges, body, now, abandoned),
            Frame::Grant { grantee, body } => {
                self.apply_grant(grantee.as_str(), &body.objs, &body.keys, now);
                let none: PathMap<MergeOutcome> = PathMap::new();
                Ok(none)
            },
            Frame::SealedGrant { .. } => Err(
                RepoError::Backend(
                    "sealed-key grant bundle (tag 3) must be applied via apply_sealed_grant".to_owned(),
                ),
            ),
        }
    }

    /// Takes a bundle in where nothing is abandoned.
    pub fn apply(&mut self, bundle: &SyncBundle, now: u64) -> (r: Result<
        PathMap<MergeOutcome>,
        RepoError,
    >)
        ensures
            match r {
                Ok(o) => applied(old(self).deep_view(), bundle.deep_view(), now, Set::empty()) == Ok::<
                    (RepoModel, Outcomes),
                    ErrorModel,
                >((final(self).deep_view(), o.deep_view())),
                Err(e) => applied(old(self).deep_view(), bundle.deep_view(), now, Set::empty()) == Err::<
                    (RepoModel, Outcomes),
                    ErrorModel,
                >(e.deep_view()) && final(self).deep_view() == old(self).deep_view(),
            },
    {
        let none: SortedSet<Oid> = SortedSet::new();
        self.apply_with(bundle, now, &none)
    }

    /// Takes a bundle in as a relay does: nothing is merged or read.
    pub fn stow(&mut self, bundle: &SyncBundle) -> (r: Result<(), RepoError>)
        ensures
            match r {
                Ok(_) => stowed(old(self).deep_view(), bundle.deep_view()) == Ok::<RepoModel, ErrorModel>(
                    final(self).deep_view(),
                ),
                Err(e) => stowed(old(self).deep_view(), bundle.deep_view()) == Err::<RepoModel, ErrorModel>(
                    e.deep_view(),
                ) && final(self).deep_view() == old(self).deep_view(),
            },
    {
        let ghost m = self.deep_view();
        match Frame::decode(bundle.0.as_slice())? {
            Frame::Sync { purges, body } => {
                verify_all(&body.changes)?;
                let ghost bm = body.deep_view();
                let BundleBody { changes, objs, keys, attestations } = body;
                self.take_burns(&purges, 0);
                self.store_all(&objs, &keys);
                proof {
                    lemma_purged_keeps(m, purges.deep_view(), 0);
                    lemma_stored_keeps(
                        burned_all(m, purges.deep_view(), 0),
                        pairs_of::<Oid, SealedModel>(bm.objs),
                        bm.keys,
                    );
                }
                self.keep_purges(&purges);
                self.take_changes(changes);
                self.take_attestations(&attestations);
                Ok(())
            },
            _ => Err(
                RepoError::Backend(
                    "a relay can only stow sync bundles (tag 0), not grant bundles".to_owned(),
                ),
            ),
        }
    }
}

// ---------------------------------------------------------------------------
// Sending
// ---------------------------------------------------------------------------

/// The changes that travel: those that the recipient lacks and that no author has
/// left unsigned.
pub open spec fn sendable(m: RepoModel, have: Seq<Id>) -> Seq<NodeModel> {
    ordered(m.graph.changes).filter(|n: NodeModel| !have.contains(n.id) && !is_working(n))
}

/// A change's tree names an object.
pub open spec fn names(n: NodeModel, oid: Id) -> bool {
    exists|p: Seq<char>| #[trigger] n.tree.contains_key(p) && n.tree[p].v.0 == oid
}

/// A change's tree names an object without embargo.
pub open spec fn names_openly(n: NodeModel, oid: Id) -> bool {
    exists|p: Seq<char>| #[trigger]
        n.tree.contains_key(p) && n.tree[p].v.0 == oid && !(n.tree[p].v.1 is Embargoed)
}

pub open spec fn any_names(ns: Seq<NodeModel>, oid: Id) -> bool {
    exists|i: int| 0 <= i < ns.len() && names(#[trigger] ns[i], oid)
}

pub open spec fn any_names_openly(ns: Seq<NodeModel>, oid: Id) -> bool {
    exists|i: int| 0 <= i < ns.len() && names_openly(#[trigger] ns[i], oid)
}

/// The object's bytes are asked for.
pub open spec fn wanted(wants: Option<Set<Id>>, oid: Id) -> bool {
    match wants {
        Some(w) => w.contains(oid),
        None => true,
    }
}

/// The objects that travel with some changes.
pub open spec fn sent_objects(m: RepoModel, ns: Seq<NodeModel>, wants: Option<Set<Id>>) -> Map<Id, SealedModel> {
    Map::new(
        |oid: Id| any_names(ns, oid) && m.objects.contains_key(oid) && wanted(wants, oid),
        |oid: Id| m.objects[oid],
    )
}

/// The key may travel: the object is for anyone, and the key is held.
pub open spec fn may_send_key(m: RepoModel, oid: Id) -> bool {
    m.objects.contains_key(oid) && granted_to_anyone(m.objects[oid].grant_ids) && m.keys.contains_key(oid)
}

/// The keys that travel with some changes: only of content that is for anyone, and
/// not under embargo.
pub open spec fn sent_keys(m: RepoModel, ns: Seq<NodeModel>) -> Map<Id, Seq<u8>> {
    Map::new(|oid: Id| any_names_openly(ns, oid) && may_send_key(m, oid), |oid: Id| m.keys[oid])
}

/// Some change has this id.
pub open spec fn has_id(ns: Seq<NodeModel>, id: Id) -> bool {
    exists|i: int| 0 <= i < ns.len() && (#[trigger] ns[i]).id == id
}

/// What a sync bundle carries: attestations travel just with their change.
pub open spec fn sync_body(m: RepoModel, have: Seq<Id>, wants: Option<Set<Id>>) -> BodyModel {
    let ns = sendable(m, have);
    BodyModel {
        changes: ns,
        objs: sent_objects(m, ns, wants),
        keys: sent_keys(m, ns),
        attestations: attestations_in_order(m.attestations).filter(
            |a: AttestationModel| has_id(ns, a.change_id),
        ),
    }
}

/// The bytes of a sync bundle.
pub open spec fn sync_bundle(m: RepoModel, have: Seq<Id>, wants: Option<Set<Id>>) -> Seq<u8> {
    frame_bytes(FrameModel::Sync { purges: m.purges, body: sync_body(m, have, wants) })
}

/// The addresses that would be offered.
pub open spec fn offered(m: RepoModel, have: Seq<Id>) -> Set<Id> {
    Set::new(|oid: Id| any_names(sendable(m, have), oid) && m.objects.contains_key(oid))
}

/// All that a change needs is here: every object of its tree and of each
/// ancestor's.
pub open spec fn complete(m: RepoModel, id: Id) -> bool {
    forall|a: Id| #[trigger]
        closure_of(edges_of(m.graph.changes), seq![id]).contains(a) ==> tree_is_here(m, a)
}

/// Every object of a change's tree is here.
pub open spec fn tree_is_here(m: RepoModel, a: Id) -> bool {
    forall|p: Seq<char>| #[trigger]
        line_tree(m.graph.changes, a).contains_key(p) ==> m.objects.contains_key(
            line_tree(m.graph.changes, a)[p].v.0,
        )
}

/// Not here, and not burned either.
pub open spec fn lacks(m: RepoModel, oid: Id) -> bool {
    !m.objects.contains_key(oid) && !m.burns.contains_key(oid)
}

/// The model of a set that may be unknown.
pub open spec fn wants_model(w: Option<&SortedSet<Oid>>) -> Option<Set<Id>> {
    match w {
        Some(s) => Some(s.deep_view()),
        None => None,
    }
}

impl DagRepo {
    /// The changes that travel to one who has `have`.
    fn sent(&self, have: &Vec<Oid>) -> (r: Vec<ChangeNode>)
        ensures
            r.deep_view() == sendable(self.deep_view(), have.deep_view()),
    {
        let nodes = self.graph.in_order();
        let ghost ns = nodes.deep_view();
        let ghost f = |n: NodeModel| !have.deep_view().contains(n.id) && !is_working(n);
        let mut r: Vec<ChangeNode> = crate::seqs::none();
        let mut i: usize = 0;
        proof {
            lemma_filter_none(ns, f);
        }
        while i < nodes.len()
            invariant
                0 <= i <= nodes@.len(),
                ns == nodes.deep_view(),
                f == (|n: NodeModel| !have.deep_view().contains(n.id) && !is_working(n)),
                r.deep_view() == ns.take(i as int).filter(f),
            decreases nodes@.len() - i,
        {
            proof {
                lemma_filter_step(ns, i as int, f);
                assert(ns[i as int] == nodes@[i as int].deep_view());
            }
            if !crate::seqs::contains(have, &nodes[i].id) && !is_working_change(nodes[i]) {
                crate::seqs::push(&mut r, nodes[i].dup());
            }
            i = i + 1;
        }
        assert(ns.take(ns.len() as int) =~= ns);
        r
    }

    /// Whether there is a change that its author has not signed. Such a change
    /// does not travel.
    pub fn has_unsigned_tip(&self) -> (b: bool)
        ensures
            b == exists|i: int|
                0 <= i < ordered(self.deep_view().graph.changes).len() && is_working(
                    #[trigger] ordered(self.deep_view().graph.changes)[i],
                ),
    {
        let nodes = self.graph.in_order();
        let ghost ns = nodes.deep_view();
        let mut i: usize = 0;
        while i < nodes.len()
            invariant
                0 <= i <= nodes@.len(),
                ns == nodes.deep_view(),
                ns == ordered(self.deep_view().graph.changes),
                forall|j: int| 0 <= j < i ==> !is_working(#[trigger] ns[j]),
            decreases nodes@.len() - i,
        {
            assert(ns[i as int] == nodes@[i as int].deep_view());
            if is_working_change(nodes[i]) {
                assert(is_working(ns[i as int]));
                return true;
            }
            i = i + 1;
        }
        false
    }

    /// Adds what travels with one change.
    fn pack(
        &self,
        node: &ChangeNode,
        wants: Option<&SortedSet<Oid>>,
        objs: &mut SortedMap<Oid, SealedObject>,
        keys: &mut SortedMap<Oid, ContentKey>,
    )
        requires
            forall|o: Id| #[trigger]
                old(objs).deep_view().contains_key(o) ==> old(objs).deep_view()[o] == self.deep_view().objects[o],
            forall|o: Id| #[trigger]
                old(keys).deep_view().contains_key(o) ==> old(keys).deep_view()[o] == self.deep_view().keys[o],
        ensures
            forall|o: Id| #[trigger]
                final(objs).deep_view().contains_key(o) <==> old(objs).deep_view().contains_key(o) || (names(
                    node.deep_view(),
                    o,
                ) && self.deep_view().objects.contains_key(o) && wanted(wants_model(wants), o)),
            forall|o: Id| #[trigger]
                final(keys).deep_view().contains_key(o) <==> old(keys).deep_view().contains_key(o) || (
                names_openly(node.deep_view(), o) && may_send_key(self.deep_view(), o)),
            forall|o: Id| #[trigger]
                final(objs).deep_view().contains_key(o) ==> final(objs).deep_view()[o]
                    == self.deep_view().objects[o],
            forall|o: Id| #[trigger]
                final(keys).deep_view().contains_key(o) ==> final(keys).deep_view()[o] == self.deep_view().keys[o],
    {
        let ghost m = self.deep_view();
        let ghost nv = node.deep_view();
        let ghost o0 = objs.deep_view();
        let ghost k0 = keys.deep_view();
        let n: usize = node.tree.len();
        let ghost s = node.tree.pairs();
        let mut i: usize = 0;
        while i < n
            invariant
                0 <= i <= n,
                n == s.len(),
                s == node.tree.pairs(),
                m == self.deep_view(),
                nv == node.deep_view(),
                nv.tree == map_of(s),
                rising::<PathKey, Placed<(Id, VisibilityModel)>>(s),
                forall|o: Id| #[trigger]
                    objs.deep_view().contains_key(o) <==> o0.contains_key(o) || (exists|j: int|
                        0 <= j < i && (#[trigger] s[j]).1.v.0 == o && m.objects.contains_key(o) && wanted(
                            wants_model(wants),
                            o,
                        )),
                forall|o: Id| #[trigger]
                    keys.deep_view().contains_key(o) <==> k0.contains_key(o) || (exists|j: int|
                        0 <= j < i && (#[trigger] s[j]).1.v.0 == o && !(s[j].1.v.1 is Embargoed) && may_send_key(m, o)),
                forall|o: Id| #[trigger]
                    objs.deep_view().contains_key(o) ==> objs.deep_view()[o] == m.objects[o],
                forall|o: Id| #[trigger] keys.deep_view().contains_key(o) ==> keys.deep_view()[o] == m.keys[o],
            decreases n - i,
        {
            let ghost o1 = objs.deep_view();
            let ghost k1 = keys.deep_view();
            let entry = node.tree.value_at(i);
            let oid = entry.0;
            if let Ok(obj) = self.objects.get(&oid) {
                let want = match wants {
                    Some(w) => w.contains(&oid),
                    None => true,
                };
                if want {
                    objs.insert(oid, obj.dup());
                }
                let embargoed = match &entry.1 {
                    Visibility::Embargoed { .. } => true,
                    _ => false,
                };
                if is_granted_to_anyone(&obj.grant_ids) && !embargoed {
                    if let Some(k) = self.custody.keyring.key_for(&oid) {
                        assert(k.deep_view() =~= k@);
                        keys.insert(oid, k);
                    }
                }
            }
            proof {
                assert forall|o: Id| #[trigger] objs.deep_view().contains_key(o) <==> o0.contains_key(o) || (exists|
                    j: int,
                |
                    0 <= j < i + 1 && (#[trigger] s[j]).1.v.0 == o && m.objects.contains_key(o) && wanted(
                        wants_model(wants),
                        o,
                    )) by {
                    if o1.contains_key(o) && !o0.contains_key(o) {
                        let j = choose|j: int|
                            0 <= j < i && (#[trigger] s[j]).1.v.0 == o && m.objects.contains_key(o) && wanted(
                                wants_model(wants),
                                o,
                            );
                        assert(0 <= j < i + 1 && s[j].1.v.0 == o);
                    }
                    if objs.deep_view().contains_key(o) && !o1.contains_key(o) {
                        assert(s[i as int].1.v.0 == o);
                    }
                }
                assert forall|o: Id| #[trigger] keys.deep_view().contains_key(o) <==> k0.contains_key(o) || (exists|
                    j: int,
                |
                    0 <= j < i + 1 && (#[trigger] s[j]).1.v.0 == o && !(s[j].1.v.1 is Embargoed) && may_send_key(m, o)) by {
                    if k1.contains_key(o) && !k0.contains_key(o) {
                        let j = choose|j: int|
                            0 <= j < i && (#[trigger] s[j]).1.v.0 == o && !(s[j].1.v.1 is Embargoed) && may_send_key(m, o);
                        assert(0 <= j < i + 1 && s[j].1.v.0 == o);
                    }
                    if keys.deep_view().contains_key(o) && !k1.contains_key(o) {
                        assert(s[i as int].1.v.0 == o);
                    }
                }
            }
            i = i + 1;
        }
        proof {
            lemma_names(node.tree.deep_view(), s, nv);
        }
    }

    /// A sync bundle for one who has `have`, with the bytes of the wanted objects,
    /// or of all.
    pub(crate) fn bundle_impl(&self, have: &Vec<Oid>, wants: Option<&SortedSet<Oid>>) -> (r: Result<
        SyncBundle,
        RepoError,
    >)
        ensures
            r matches Ok(b) && b.deep_view() == sync_bundle(
                self.deep_view(),
                have.deep_view(),
                wants_model(wants),
            ),
    {
        let ghost m = self.deep_view();
        let changes = self.sent(have);
        let ghost ns = changes.deep_view();
        let mut objs: SortedMap<Oid, SealedObject> = SortedMap::new();
        let mut keys: SortedMap<Oid, ContentKey> = SortedMap::new();
        let mut i: usize = 0;
        while i < changes.len()
            invariant
                0 <= i <= changes@.len(),
                ns == changes.deep_view(),
                m == self.deep_view(),
                forall|o: Id| #[trigger]
                    objs.deep_view().contains_key(o) <==> any_names(ns.take(i as int), o)
                        && m.objects.contains_key(o) && wanted(wants_model(wants), o),
                forall|o: Id| #[trigger]
                    keys.deep_view().contains_key(o) <==> any_names_openly(ns.take(i as int), o) && may_send_key(m, o),
                forall|o: Id| #[trigger]
                    objs.deep_view().contains_key(o) ==> objs.deep_view()[o] == m.objects[o],
                forall|o: Id| #[trigger] keys.deep_view().contains_key(o) ==> keys.deep_view()[o] == m.keys[o],
            decreases changes@.len() - i,
        {
            proof {
                assert(ns[i as int] == changes@[i as int].deep_view());
                lemma_any_names_step(ns, i as int);
            }
            self.pack(&changes[i], wants, &mut objs, &mut keys);
            i = i + 1;
        }
        proof {
            assert(ns.take(ns.len() as int) =~= ns);
            assert(objs.deep_view() =~= sent_objects(m, ns, wants_model(wants)));
            assert(keys.deep_view() =~= sent_keys(m, ns));
        }
        let attestations = self.sent_attestations(&changes);
        let body = BundleBody { changes, objs, keys, attestations };
        let purges = self.custody.purges.dup();
        Ok(SyncBundle(Frame::Sync { purges, body }.encode()))
    }

    /// The attestations over some changes.
    fn sent_attestations(&self, changes: &Vec<ChangeNode>) -> (r: Vec<Attestation>)
        ensures
            r.deep_view() == attestations_in_order(self.deep_view().attestations).filter(
                |a: AttestationModel| has_id(changes.deep_view(), a.change_id),
            ),
    {
        let all = self.attestations.iter();
        let ghost s = all.deep_view();
        let ghost ns = changes.deep_view();
        let ghost f = |a: AttestationModel| has_id(ns, a.change_id);
        let mut r: Vec<Attestation> = crate::seqs::none();
        let mut i: usize = 0;
        proof {
            lemma_filter_none(s, f);
        }
        while i < all.len()
            invariant
                0 <= i <= all@.len(),
                s == all.deep_view(),
                ns == changes.deep_view(),
                f == (|a: AttestationModel| has_id(ns, a.change_id)),
                r.deep_view() == s.take(i as int).filter(f),
            decreases all@.len() - i,
        {
            proof {
                lemma_filter_step(s, i as int, f);
                assert(s[i as int] == all@[i as int].deep_view());
            }
            if is_among(changes, &all[i].change_id) {
                crate::seqs::push(&mut r, all[i].dup());
            }
            i = i + 1;
        }
        assert(s.take(s.len() as int) =~= s);
        r
    }

    /// A sync bundle with all that one who has `have` lacks.
    pub fn bundle(&self, have: &Vec<Oid>) -> (r: Result<SyncBundle, RepoError>)
        ensures
            r matches Ok(b) && b.deep_view() == sync_bundle(self.deep_view(), have.deep_view(), None),
    {
        self.bundle_impl(have, None)
    }

    /// A sync bundle whose object bytes are limited to `wants`.
    pub fn bundle_wanted(&self, have: &Vec<Oid>, wants: &Vec<Oid>) -> (r: Result<SyncBundle, RepoError>)
        ensures
            r matches Ok(b) && b.deep_view() == sync_bundle(
                self.deep_view(),
                have.deep_view(),
                Some(wants.deep_view().to_set()),
            ),
    {
        let set = set_of(wants);
        self.bundle_impl(have, Some(&set))
    }

    /// The addresses of the objects that one who has `have` may lack, in order.
    pub fn offered_objects(&self, have: &Vec<Oid>) -> (r: Vec<Oid>)
        ensures
            r.deep_view() == members_of::<Oid>(offered(self.deep_view(), have.deep_view())),
    {
        let ghost m = self.deep_view();
        let changes = self.sent(have);
        let ghost ns = changes.deep_view();
        let mut objs: SortedMap<Oid, SealedObject> = SortedMap::new();
        let mut keys: SortedMap<Oid, ContentKey> = SortedMap::new();
        let mut addrs: SortedSet<Oid> = SortedSet::new();
        let mut i: usize = 0;
        while i < changes.len()
            invariant
                0 <= i <= changes@.len(),
                ns == changes.deep_view(),
                m == self.deep_view(),
                forall|o: Id| #[trigger]
                    objs.deep_view().contains_key(o) <==> any_names(ns.take(i as int), o)
                        && m.objects.contains_key(o) && wanted(None, o),
                forall|o: Id| #[trigger]
                    objs.deep_view().contains_key(o) ==> objs.deep_view()[o] == m.objects[o],
                forall|o: Id| #[trigger] keys.deep_view().contains_key(o) ==> keys.deep_view()[o] == m.keys[o],
            decreases changes@.len() - i,
        {
            proof {
                assert(ns[i as int] == changes@[i as int].deep_view());
                lemma_any_names_step(ns, i as int);
            }
            self.pack(&changes[i], None, &mut objs, &mut keys);
            i = i + 1;
        }
        assert(ns.take(ns.len() as int) =~= ns);
        let n: usize = objs.len();
        let ghost s = objs.pairs();
        let mut k: usize = 0;
        proof {
            lemma_among::<Oid, SealedModel>(s, 0);
        }
        while k < n
            invariant
                0 <= k <= n,
                n == s.len(),
                s == objs.pairs(),
                rising::<Oid, SealedModel>(s),
                forall|o: Id| #[trigger] addrs.deep_view().contains(o) <==> among(s, k as int, o),
            decreases n - k,
        {
            proof {
                lemma_among::<Oid, SealedModel>(s, k as int);
            }
            let _ = addrs.insert(*objs.key_at(k));
            k = k + 1;
        }
        proof {
            lemma_among::<Oid, SealedModel>(s, n as int);
            assert(addrs.deep_view() =~= offered(m, have.deep_view()));
        }
        addrs.to_vec()
    }

    /// Whether every object that a change and its ancestors need is here.
    pub fn closure_complete(&self, id: &Oid) -> (b: bool)
        ensures
            b == complete(self.deep_view(), id.deep_view()),
    {
        let ghost m = self.deep_view();
        let set = self.graph.ancestors_of(id);
        let all = set.to_vec();
        let ghost s = all.deep_view();
        let mut i: usize = 0;
        while i < all.len()
            invariant
                0 <= i <= all@.len(),
                s == all.deep_view(),
                m == self.deep_view(),
                crate::sorted::lists_set::<Oid>(s, closure_of(edges_of(m.graph.changes), seq![id.deep_view()])),
                forall|j: int| 0 <= j < i ==> tree_is_here(m, #[trigger] s[j]),
            decreases all@.len() - i,
        {
            assert(s[i as int] == all@[i as int].deep_view());
            let tree = self.graph.tree_at(&all[i]);
            if !self.holds_tree(&tree) {
                proof {
                    let a = s[i as int];
                    assert(s.contains(a));
                    assert(closure_of(edges_of(m.graph.changes), seq![id.deep_view()]).contains(a));
                    assert(!tree_is_here(m, a));
                }
                return false;
            }
            i = i + 1;
        }
        proof {
            assert forall|a: Id| #[trigger]
                closure_of(edges_of(m.graph.changes), seq![id.deep_view()]).contains(a) implies tree_is_here(m, a) by {
                assert(s.contains(a));
                let j = choose|j: int| 0 <= j < s.len() && s[j] == a;
                assert(tree_is_here(m, s[j]));
            }
        }
        true
    }

    /// Whether every object of a tree is here.
    fn holds_tree(&self, tree: &Tree) -> (b: bool)
        ensures
            b == forall|p: Seq<char>| #[trigger]
                tree.deep_view().contains_key(p) ==> self.deep_view().objects.contains_key(tree.deep_view()[p].v.0),
    {
        let ghost m = self.deep_view();
        let ghost t = tree.deep_view();
        let n: usize = tree.len();
        let ghost s = tree.pairs();
        let mut i: usize = 0;
        while i < n
            invariant
                0 <= i <= n,
                n == s.len(),
                s == tree.pairs(),
                t == tree.deep_view(),
                t == map_of(s),
                rising::<PathKey, Placed<(Id, VisibilityModel)>>(s),
                m == self.deep_view(),
                forall|j: int| 0 <= j < i ==> m.objects.contains_key((#[trigger] s[j]).1.v.0),
            decreases n - i,
        {
            proof {
                lemma_entry::<PathKey, Placed<(Id, VisibilityModel)>>(s, i as int);
            }
            let oid = tree.value_at(i).0;
            if !self.objects.holds(&oid) {
                assert(t.contains_key(s[i as int].0) && t[s[i as int].0].v.0 == oid.deep_view());
                return false;
            }
            i = i + 1;
        }
        proof {
            assert forall|p: Seq<char>| #[trigger] t.contains_key(p) implies m.objects.contains_key(t[p].v.0) by {
                let j = place_of(s, p);
                lemma_entry::<PathKey, Placed<(Id, VisibilityModel)>>(s, j);
                assert(m.objects.contains_key(s[j].1.v.0));
            }
        }
        true
    }

    /// The heads to name in a pull: those of which nothing is missing here, so that
    /// the rest of an interrupted pull is offered again.
    pub fn negotiation_have(&self) -> (r: Vec<Oid>)
        ensures
            r.deep_view() == self.deep_view().graph.heads.filter(|h: Id| complete(self.deep_view(), h)),
    {
        let heads = self.graph.heads();
        let ghost s = heads.deep_view();
        let ghost f = |h: Id| complete(self.deep_view(), h);
        let mut r: Vec<Oid> = crate::seqs::none();
        let mut i: usize = 0;
        proof {
            lemma_filter_none(s, f);
        }
        while i < heads.len()
            invariant
                0 <= i <= heads@.len(),
                s == heads.deep_view(),
                f == (|h: Id| complete(self.deep_view(), h)),
                r.deep_view() == s.take(i as int).filter(f),
            decreases heads@.len() - i,
        {
            proof {
                lemma_filter_step(s, i as int, f);
            }
            if self.closure_complete(&heads[i]) {
                crate::seqs::push(&mut r, heads[i]);
            }
            i = i + 1;
        }
        assert(s.take(s.len() as int) =~= s);
        r
    }

    /// Those of some addresses whose objects are not here. A burned object is
    /// absent on purpose and is never asked for.
    pub fn missing_objects(&self, offered: &Vec<Oid>) -> (r: Vec<Oid>)
        ensures
            r.deep_view() == offered.deep_view().filter(|o: Id| lacks(self.deep_view(), o)),
    {
        let ghost s = offered.deep_view();
        let ghost f = |o: Id| lacks(self.deep_view(), o);
        let mut r: Vec<Oid> = crate::seqs::none();
        let mut i: usize = 0;
        proof {
            lemma_filter_none(s, f);
        }
        while i < offered.len()
            invariant
                0 <= i <= offered@.len(),
                s == offered.deep_view(),
                f == (|o: Id| lacks(self.deep_view(), o)),
                r.deep_view() == s.take(i as int).filter(f),
            decreases offered@.len() - i,
        {
            proof {
                lemma_filter_step(s, i as int, f);
            }
            if !self.objects.holds(&offered[i]) && !self.burn_log.contains(&offered[i]) {
                crate::seqs::push(&mut r, offered[i]);
            }
            i = i + 1;
        }
        assert(s.take(s.len() as int) =~= s);
        r
    }
}

proof fn lemma_names(t: TreeModel, s: Seq<(Seq<char>, Placed<(Id, VisibilityModel)>)>, n: NodeModel)
    requires
        t == n.tree,
        t == map_of(s),
        rising::<PathKey, Placed<(Id, VisibilityModel)>>(s),
    ensures
        forall|o: Id| #[trigger] names(n, o) <==> exists|j: int| 0 <= j < s.len() && (#[trigger] s[j]).1.v.0 == o,
        forall|o: Id| #[trigger]
            names_openly(n, o) <==> exists|j: int|
                0 <= j < s.len() && (#[trigger] s[j]).1.v.0 == o && !(s[j].1.v.1 is Embargoed),
{
    assert forall|o: Id| #[trigger] names(n, o) <==> exists|j: int|
        0 <= j < s.len() && (#[trigger] s[j]).1.v.0 == o by {
        if names(n, o) {
            let p = choose|p: Seq<char>| #[trigger] n.tree.contains_key(p) && n.tree[p].v.0 == o;
            let j = place_of(s, p);
            lemma_entry::<PathKey, Placed<(Id, VisibilityModel)>>(s, j);
            assert(s[j].1.v.0 == o);
        }
        if exists|j: int| 0 <= j < s.len() && (#[trigger] s[j]).1.v.0 == o {
            let j = choose|j: int| 0 <= j < s.len() && (#[trigger] s[j]).1.v.0 == o;
            lemma_entry::<PathKey, Placed<(Id, VisibilityModel)>>(s, j);
            assert(n.tree.contains_key(s[j].0) && n.tree[s[j].0].v.0 == o);
        }
    }
    assert forall|o: Id| #[trigger] names_openly(n, o) <==> exists|j: int|
        0 <= j < s.len() && (#[trigger] s[j]).1.v.0 == o && !(s[j].1.v.1 is Embargoed) by {
        if names_openly(n, o) {
            let p = choose|p: Seq<char>| #[trigger]
                n.tree.contains_key(p) && n.tree[p].v.0 == o && !(n.tree[p].v.1 is Embargoed);
            let j = place_of(s, p);
            lemma_entry::<PathKey, Placed<(Id, VisibilityModel)>>(s, j);
            assert(s[j].1.v.0 == o);
        }
        if exists|j: int| 0 <= j < s.len() && (#[trigger] s[j]).1.v.0 == o && !(s[j].1.v.1 is Embargoed) {
            let j = choose|j: int| 0 <= j < s.len() && (#[trigger] s[j]).1.v.0 == o && !(s[j].1.v.1 is Embargoed);
            lemma_entry::<PathKey, Placed<(Id, VisibilityModel)>>(s, j);
            assert(n.tree.contains_key(s[j].0) && n.tree[s[j].0].v.0 == o);
        }
    }
}

proof fn lemma_any_names_step(ns: Seq<NodeModel>, i: int)
    requires
        0 <= i < ns.len(),
    ensures
        forall|o: Id| #[trigger]
            any_names(ns.take(i + 1), o) <==> any_names(ns.take(i), o) || names(ns[i], o),
        forall|o: Id| #[trigger]
            any_names_openly(ns.take(i + 1), o) <==> any_names_openly(ns.take(i), o) || names_openly(ns[i], o),
{
    let a = ns.take(i);
    let b = ns.take(i + 1);
    assert forall|o: Id| #[trigger] any_names(b, o) <==> any_names(a, o) || names(ns[i], o) by {
        if any_names(b, o) {
            let j = choose|j: int| 0 <= j < b.len() && names(#[trigger] b[j], o);
            if j < i {
                assert(a[j] == b[j]);
            }
        }
        if any_names(a, o) {
            let j = choose|j: int| 0 <= j < a.len() && names(#[trigger] a[j], o);
            assert(b[j] == a[j]);
        }
        assert(b[i] == ns[i]);
    }
    assert forall|o: Id| #[trigger] any_names_openly(b, o) <==> any_names_openly(a, o) || names_openly(ns[i], o) by {
        if any_names_openly(b, o) {
            let j = choose|j: int| 0 <= j < b.len() && names_openly(#[trigger] b[j], o);
            if j < i {
                assert(a[j] == b[j]);
            }
        }
        if any_names_openly(a, o) {
            let j = choose|j: int| 0 <= j < a.len() && names_openly(#[trigger] a[j], o);
            assert(b[j] == a[j]);
        }
        assert(b[i] == ns[i]);
    }
}

/// Whether some change has this id.
fn is_among(changes: &Vec<ChangeNode>, id: &Oid) -> (b: bool)
    ensures
        b == has_id(changes.deep_view(), id.deep_view()),
{
    let ghost ns = changes.deep_view();
    let mut i: usize = 0;
    while i < changes.len()
        invariant
            0 <= i <= changes@.len(),
            ns == changes.deep_view(),
            forall|j: int| 0 <= j < i ==> (#[trigger] ns[j]).id != id.deep_view(),
        decreases changes@.len() - i,
    {
        assert(ns[i as int] == changes@[i as int].deep_view());
        if changes[i].id.same(id) {
            assert(ns[i as int].id == id.deep_view());
            return true;
        }
        i = i + 1;
    }
    false
}

/// The members of a list.
pub fn set_of(v: &Vec<Oid>) -> (r: SortedSet<Oid>)
    ensures
        r.deep_view() == v.deep_view().to_set(),
{
    let ghost s = v.deep_view();
    let mut r: SortedSet<Oid> = SortedSet::new();
    let mut i: usize = 0;
    while i < v.len()
        invariant
            0 <= i <= v@.len(),
            s == v.deep_view(),
            forall|x: Id| #[trigger] r.deep_view().contains(x) <==> exists|j: int| 0 <= j < i && #[trigger] s[j] == x,
        decreases v@.len() - i,
    {
        let ghost before = r.deep_view();
        assert(s[i as int] == v@[i as int].deep_view());
        let _ = r.insert(v[i]);
        proof {
            assert forall|x: Id| #[trigger] r.deep_view().contains(x) <==> exists|j: int|
                0 <= j < i + 1 && #[trigger] s[j] == x by {
                if before.contains(x) {
                    let j = choose|j: int| 0 <= j < i && #[trigger] s[j] == x;
                    assert(0 <= j < i + 1 && s[j] == x);
                }
                if exists|j: int| 0 <= j < i + 1 && #[trigger] s[j] == x {
                    let j = choose|j: int| 0 <= j < i + 1 && #[trigger] s[j] == x;
                    if j < i {
                        assert(before.contains(x));
                    }
                }
            }
        }
        i = i + 1;
    }
    proof {
        assert forall|x: Id| #[trigger] r.deep_view().contains(x) <==> s.to_set().contains(x) by {
            if s.contains(x) {
                let j = choose|j: int| 0 <= j < s.len() && s[j] == x;
                assert(s[j] == x);
            }
        }
        assert(r.deep_view() =~= s.to_set());
    }
    r
}

// ---------------------------------------------------------------------------
// Batches
// ---------------------------------------------------------------------------

/// How many bytes of ciphertext an object adds.
pub open spec fn size_of(m: RepoModel, oid: Id) -> nat {
    if m.objects.contains_key(oid) {
        m.objects[oid].ciphertext.len()
    } else {
        0
    }
}

/// Batches being packed: those that are closed, and the open one with its bytes.
pub struct Packing {
    pub closed: Seq<Set<Id>>,
    pub open: Set<Id>,
    pub bytes: nat,
}

/// How many members a batch has.
pub open spec fn count_of(s: Set<Id>) -> nat {
    members_of::<Oid>(s).len()
}

/// The open batch has to be closed before an object of `size` bytes goes in.
pub open spec fn is_full(p: Packing, size: nat, max: nat, max_bytes: nat) -> bool {
    p.open != Set::<Id>::empty() && (count_of(p.open) >= max || p.bytes + size > max_bytes)
}

pub open spec fn packed_one(m: RepoModel, p: Packing, oid: Id, max: nat, max_bytes: nat) -> Packing {
    let size = size_of(m, oid);
    if is_full(p, size, max, max_bytes) {
        Packing { closed: p.closed.push(p.open), open: Set::empty().insert(oid), bytes: size }
    } else {
        Packing { closed: p.closed, open: p.open.insert(oid), bytes: p.bytes + size }
    }
}

pub open spec fn packed(m: RepoModel, wants: Seq<Id>, max: nat, max_bytes: nat) -> Packing
    decreases wants.len(),
{
    if wants.len() == 0 {
        Packing { closed: Seq::empty(), open: Set::empty(), bytes: 0 }
    } else {
        packed_one(m, packed(m, wants.drop_last(), max, max_bytes), wants.last(), max, max_bytes)
    }
}

/// The batches that wanted objects are packed into. Nothing wanted is one batch
/// without objects.
pub open spec fn batches(m: RepoModel, wants: Seq<Id>, max: nat, max_bytes: nat) -> Seq<Set<Id>> {
    let p = packed(m, wants, max, max_bytes);
    if wants.len() == 0 {
        seq![Set::empty()]
    } else {
        p.closed.push(p.open)
    }
}

impl DagRepo {
    /// One bundle for each batch of wanted objects. A batch is closed at
    /// `batch_size` objects, or when its ciphertext would exceed `batch_bytes`; an
    /// object that exceeds it alone still travels, in a batch of its own.
    pub fn bundle_wanted_batched(
        &self,
        have: &Vec<Oid>,
        wants: &Vec<Oid>,
        batch_size: usize,
        batch_bytes: usize,
    ) -> (r: Result<Vec<SyncBundle>, RepoError>)
        ensures
            match r {
                Ok(bs) => {
                    let sets = batches(self.deep_view(), wants.deep_view(), batch_size as nat, batch_bytes as nat);
                    &&& bs@.len() == sets.len()
                    &&& forall|i: int|
                        0 <= i < bs@.len() ==> (#[trigger] bs@[i]).deep_view() == sync_bundle(
                            self.deep_view(),
                            have.deep_view(),
                            Some(sets[i]),
                        )
                },
                Err(_) => false,
            },
    {
        let ghost m = self.deep_view();
        let ghost ws = wants.deep_view();
        let ghost max = batch_size as nat;
        let ghost max_bytes = batch_bytes as nat;
        let mut sets: Vec<SortedSet<Oid>> = Vec::new();
        let mut cur: SortedSet<Oid> = SortedSet::new();
        let mut cur_bytes: usize = 0;
        let mut i: usize = 0;
        assert(ws.take(0) =~= Seq::<Id>::empty());
        while i < wants.len()
            invariant
                0 <= i <= wants@.len(),
                ws == wants.deep_view(),
                m == self.deep_view(),
                max == batch_size,
                max_bytes == batch_bytes,
                sets@.len() == packed(m, ws.take(i as int), max, max_bytes).closed.len(),
                forall|j: int|
                    0 <= j < sets@.len() ==> (#[trigger] sets@[j]).deep_view() == packed(
                        m,
                        ws.take(i as int),
                        max,
                        max_bytes,
                    ).closed[j],
                cur.deep_view() == packed(m, ws.take(i as int), max, max_bytes).open,
                cur_bytes == packed(m, ws.take(i as int), max, max_bytes).bytes,
                cur.deep_view() == Set::<Id>::empty() ==> cur_bytes == 0,
            decreases wants@.len() - i,
        {
            let oid = wants[i];
            let ghost p = packed(m, ws.take(i as int), max, max_bytes);
            proof {
                assert(ws.take(i as int + 1).drop_last() =~= ws.take(i as int));
                assert(ws.take(i as int + 1).last() == oid.deep_view());
            }
            let size: usize = match self.objects.get(&oid) {
                Ok(o) => o.ciphertext.len(),
                Err(_) => 0,
            };
            assert(size == size_of(m, oid.deep_view()));
            let over = cur_bytes > batch_bytes || size > batch_bytes - cur_bytes;
            let n: usize = cur.len();
            if !cur.is_empty() && (n >= batch_size || over) {
                assert(is_full(p, size as nat, max, max_bytes));
                let mut next: SortedSet<Oid> = SortedSet::new();
                let _ = next.insert(oid);
                std::mem::swap(&mut cur, &mut next);
                sets.push(next);
                cur_bytes = size;
            } else {
                assert(!is_full(p, size as nat, max, max_bytes));
                let _ = cur.insert(oid);
                cur_bytes = cur_bytes + size;
            }
            assert(cur.deep_view().contains(oid.deep_view()));
            i = i + 1;
        }
        assert(ws.take(ws.len() as int) =~= ws);
        sets.push(cur);
        let ghost want_sets = batches(m, ws, max, max_bytes);
        assert(sets@.len() == want_sets.len());
        assert forall|j: int| 0 <= j < sets@.len() implies (#[trigger] sets@[j]).deep_view() == want_sets[j] by {};
        let mut bundles: Vec<SyncBundle> = Vec::new();
        let mut k: usize = 0;
        while k < sets.len()
            invariant
                0 <= k <= sets@.len(),
                m == self.deep_view(),
                sets@.len() == want_sets.len(),
                forall|j: int| 0 <= j < sets@.len() ==> (#[trigger] sets@[j]).deep_view() == want_sets[j],
                bundles@.len() == k,
                forall|j: int|
                    0 <= j < k ==> (#[trigger] bundles@[j]).deep_view() == sync_bundle(
                        m,
                        have.deep_view(),
                        Some(want_sets[j]),
                    ),
                want_sets == batches(self.deep_view(), wants.deep_view(), batch_size as nat, batch_bytes as nat),
            decreases sets@.len() - k,
        {
            let b = self.bundle_impl(have, Some(&sets[k]))?;
            bundles.push(b);
            k = k + 1;
        }
        Ok(bundles)
    }
}

// ---------------------------------------------------------------------------
// What holds of bundles
// ---------------------------------------------------------------------------

/// No key of restricted content travels in a sync bundle, whoever asks for what.
pub proof fn law_restricted_keys_stay(m: RepoModel, have: Seq<Id>, wants: Option<Set<Id>>, oid: Id)
    requires
        sync_body(m, have, wants).keys.contains_key(oid),
    ensures
        m.objects.contains_key(oid),
        granted_to_anyone(m.objects[oid].grant_ids),
        sync_body(m, have, wants).keys[oid] == m.keys[oid],
{
}

/// No key of content that is embargoed wherever it is named travels in a sync
/// bundle, and none from escrow does.
pub proof fn law_embargoed_keys_stay(m: RepoModel, have: Seq<Id>, wants: Option<Set<Id>>, oid: Id)
    requires
        !any_names_openly(sendable(m, have), oid) || !m.keys.contains_key(oid),
    ensures
        !sync_body(m, have, wants).keys.contains_key(oid),
{
}

/// A change that its author has not signed does not travel, and neither do
/// attestations over it.
pub proof fn law_unsigned_changes_stay(m: RepoModel, have: Seq<Id>, wants: Option<Set<Id>>, n: NodeModel)
    ensures
        sync_body(m, have, wants).changes.contains(n) ==> !is_working(n) && !have.contains(n.id),
        forall|a: AttestationModel| #[trigger]
            sync_body(m, have, wants).attestations.contains(a) ==> has_id(sync_body(m, have, wants).changes, a.change_id),
{
    let f = |n: NodeModel| !have.contains(n.id) && !is_working(n);
    lemma_filter_contains(ordered(m.graph.changes), f, n);
    let ns = sendable(m, have);
    let g = |a: AttestationModel| has_id(ns, a.change_id);
    assert forall|a: AttestationModel| #[trigger]
        sync_body(m, have, wants).attestations.contains(a) implies has_id(ns, a.change_id) by {
        lemma_filter_contains(attestations_in_order(m.attestations), g, a);
    }
}

/// What is asked for limits the bytes of objects and nothing else.
pub proof fn law_wants_limit_objects(m: RepoModel, have: Seq<Id>, wants: Set<Id>, oid: Id)
    ensures
        sync_body(m, have, Some(wants)).changes == sync_body(m, have, None).changes,
        sync_body(m, have, Some(wants)).keys == sync_body(m, have, None).keys,
        sync_body(m, have, Some(wants)).objs.contains_key(oid) <==> sync_body(m, have, None).objs.contains_key(oid)
            && wants.contains(oid),
{
}

/// A burned object does not come back, whatever brings it.
pub proof fn law_burned_stays_out(m: RepoModel, oid: Id, objs: Seq<(Id, SealedModel)>, keys: Map<Id, Seq<u8>>)
    requires
        m.burns.contains_key(oid),
        !m.objects.contains_key(oid),
    ensures
        !stored_objects(m, objs, keys).objects.contains_key(oid),
        stored_objects(m, objs, keys).burns == m.burns,
        !lacks(m, oid),
    decreases objs.len(),
{
    if objs.len() > 0 {
        law_burned_stays_out(m, oid, objs.drop_last(), keys);
        lemma_stored_keeps(m, objs.drop_last(), keys);
    }
}

/// Objects that come in change none that is here.
pub proof fn law_objects_are_immutable(m: RepoModel, oid: Id, objs: Seq<(Id, SealedModel)>, keys: Map<Id, Seq<u8>>)
    requires
        m.objects.contains_key(oid),
    ensures
        stored_objects(m, objs, keys).objects.contains_key(oid),
        stored_objects(m, objs, keys).objects[oid] == m.objects[oid],
    decreases objs.len(),
{
    if objs.len() > 0 {
        law_objects_are_immutable(m, oid, objs.drop_last(), keys);
    }
}

/// An object within a batch is wanted, and every wanted one is in a batch.
pub proof fn law_batches_cover_wants(m: RepoModel, wants: Seq<Id>, max: nat, max_bytes: nat, oid: Id)
    ensures
        wants.contains(oid) <==> exists|i: int|
            0 <= i < batches(m, wants, max, max_bytes).len() && (#[trigger] batches(m, wants, max, max_bytes)[i]).contains(
                oid,
            ),
    decreases wants.len(),
{
    let bs = batches(m, wants, max, max_bytes);
    if wants.len() == 0 {
        assert(!bs[0].contains(oid));
        if exists|i: int| 0 <= i < bs.len() && (#[trigger] bs[i]).contains(oid) {
            let i = choose|i: int| 0 <= i < bs.len() && (#[trigger] bs[i]).contains(oid);
            assert(i == 0);
        }
    } else {
        let front = wants.drop_last();
        law_batches_cover_wants(m, front, max, max_bytes, oid);
        let p = packed(m, front, max, max_bytes);
        let q = packed(m, wants, max, max_bytes);
        let fs = p.closed.push(p.open);
        let last = wants.last();
        assert(wants[wants.len() - 1] == last);
        assert(front.contains(oid) ==> wants.contains(oid)) by {
            if front.contains(oid) {
                let k = choose|k: int| 0 <= k < front.len() && front[k] == oid;
                assert(wants[k] == oid);
            }
        }
        assert(wants.contains(oid) ==> front.contains(oid) || oid == last) by {
            if wants.contains(oid) {
                let k = choose|k: int| 0 <= k < wants.len() && wants[k] == oid;
                if k < front.len() {
                    assert(front[k] == oid);
                }
            }
        }
        assert(front.contains(oid) <==> exists|i: int| 0 <= i < fs.len() && (#[trigger] fs[i]).contains(oid)) by {
            if front.len() == 0 {
                if exists|i: int| 0 <= i < fs.len() && (#[trigger] fs[i]).contains(oid) {
                    let i = choose|i: int| 0 <= i < fs.len() && (#[trigger] fs[i]).contains(oid);
                    assert(fs[i] == Set::<Id>::empty());
                }
            } else {
                assert(batches(m, front, max, max_bytes) == fs);
            }
        }
        if exists|i: int| 0 <= i < fs.len() && (#[trigger] fs[i]).contains(oid) {
            let i = choose|i: int| 0 <= i < fs.len() && (#[trigger] fs[i]).contains(oid);
            assert(bs[i].contains(oid));
        }
        if oid == last {
            assert(bs[bs.len() - 1].contains(oid));
        }
        if exists|i: int| 0 <= i < bs.len() && (#[trigger] bs[i]).contains(oid) {
            let i = choose|i: int| 0 <= i < bs.len() && (#[trigger] bs[i]).contains(oid);
            if i < fs.len() {
                if bs[i] == fs[i] {
                    assert(fs[i].contains(oid));
                } else {
                    assert(i == fs.len() - 1);
                    assert(oid == last || fs[i].contains(oid));
                }
            }
        }
    }
}

} // verus!
