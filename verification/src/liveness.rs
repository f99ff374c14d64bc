//! Liveness: which versions of a change still count.
//!
//! A version is live if it is in the graph, not abandoned and not superseded. A
//! change with more than one live version is divergent.

use crate::ancestry::Id;
use crate::seqs::{lemma_filter_contains, lemma_filter_none, lemma_filter_step};
use crate::sorted::{among, lemma_among, lemma_entry, map_of, rising, SortedMap, SortedSet};
use crate::types::Oid;
use crate::value::Value;
use vstd::prelude::*;

verus! {

/// A version of a change: its id, its change id, the versions it takes the place of.
pub type Version = (Oid, Option<[u8; 16]>, Vec<Oid>);

/// The model of a [`Version`].
pub type VersionModel = (Id, Option<Seq<u8>>, Seq<Id>);

/// The versions that there are.
pub open spec fn version_ids(ns: Seq<VersionModel>) -> Set<Id>
    decreases ns.len(),
{
    if ns.len() == 0 {
        Set::empty()
    } else {
        version_ids(ns.drop_last()).insert(ns.last().0)
    }
}

/// The change id of each version that has one.
pub open spec fn change_ids(ns: Seq<VersionModel>) -> Map<Id, Seq<u8>>
    decreases ns.len(),
{
    if ns.len() == 0 {
        Map::empty()
    } else {
        let m = change_ids(ns.drop_last());
        match ns.last().1 {
            Some(c) => m.insert(ns.last().0, c),
            None => m,
        }
    }
}

/// `n` takes the place of `p`: it names `p`, and both are versions of one change.
pub open spec fn supersedes(n: VersionModel, cids: Map<Id, Seq<u8>>, p: Id) -> bool {
    n.1 matches Some(c) && n.2.contains(p) && cids.contains_key(p) && cids[p] == c
}

/// The versions that another version of the same change names.
pub open spec fn superseded_by_any(ns: Seq<VersionModel>, cids: Map<Id, Seq<u8>>) -> Set<Id> {
    Set::new(|p: Id| exists|i: int| 0 <= i < ns.len() && supersedes(#[trigger] ns[i], cids, p))
}

/// The versions of each change that are neither abandoned nor superseded.
pub open spec fn live_lists(ns: Seq<VersionModel>, dead: Set<Id>) -> Map<Seq<u8>, Seq<Id>>
    decreases ns.len(),
{
    if ns.len() == 0 {
        Map::empty()
    } else {
        let m = live_lists(ns.drop_last(), dead);
        let n = ns.last();
        if dead.contains(n.0) {
            m
        } else {
            match n.1 {
                Some(c) => m.insert(c, list_at(m, c).push(n.0)),
                None => m,
            }
        }
    }
}

/// The list under a key, empty if there is none.
pub open spec fn list_at(m: Map<Seq<u8>, Seq<Id>>, c: Seq<u8>) -> Seq<Id> {
    if m.contains_key(c) {
        m[c]
    } else {
        Seq::empty()
    }
}

/// The changes with more than one live version.
pub open spec fn divergent_in(m: Map<Seq<u8>, Seq<Id>>) -> Set<Seq<u8>> {
    Set::new(|c: Seq<u8>| m.contains_key(c) && m[c].len() > 1)
}

/// The model of a [`Liveness`].
pub struct LivenessModel {
    pub in_graph: Set<Id>,
    pub abandoned: Set<Id>,
    pub superseded: Set<Id>,
    pub parked: Set<Id>,
    pub cid_of: Map<Id, Seq<u8>>,
    pub live_by_cid: Map<Seq<u8>, Seq<Id>>,
    pub divergent: Set<Seq<u8>>,
}

/// The view of some versions.
pub open spec fn computed(ns: Seq<VersionModel>, abandoned: Set<Id>, parked: Set<Id>) -> LivenessModel {
    let cid_of = change_ids(ns);
    let superseded = superseded_by_any(ns, cid_of);
    let live_by_cid = live_lists(ns, abandoned.union(superseded));
    LivenessModel {
        in_graph: version_ids(ns),
        abandoned,
        superseded,
        parked,
        cid_of,
        live_by_cid,
        divergent: divergent_in(live_by_cid),
    }
}

/// The view of which versions count, for one operation.
#[derive(Debug)]
pub struct Liveness {
    in_graph: SortedSet<Oid>,
    abandoned: SortedSet<Oid>,
    superseded: SortedSet<Oid>,
    parked: SortedSet<Oid>,
    cid_of: SortedMap<Oid, [u8; 16]>,
    live_by_cid: SortedMap<[u8; 16], Vec<Oid>>,
    divergent: SortedSet<[u8; 16]>,
}

impl DeepView for Liveness {
    type V = LivenessModel;

    closed spec fn deep_view(&self) -> LivenessModel {
        LivenessModel {
            in_graph: self.in_graph.deep_view(),
            abandoned: self.abandoned.deep_view(),
            superseded: self.superseded.deep_view(),
            parked: self.parked.deep_view(),
            cid_of: self.cid_of.deep_view(),
            live_by_cid: self.live_by_cid.deep_view(),
            divergent: self.divergent.deep_view(),
        }
    }
}

/// What may be done with the heads of the graph.
#[derive(Debug)]
pub struct HeadPartition {
    /// The head that the others are folded onto.
    pub ours: Option<Oid>,
    /// Superseded heads, to be dropped.
    pub stale: Vec<Oid>,
    /// Heads that stay as they are: parked work and divergent versions.
    pub flat: Vec<Oid>,
    /// Independent lines, to be merged.
    pub fold: Vec<Oid>,
}

/// A head that may be `ours`: not superseded and not parked.
pub open spec fn may_be_ours(m: LivenessModel, remaining: Seq<Id>, c: Option<Id>) -> bool {
    c is Some && remaining.contains(c->Some_0) && !m.parked.contains(c->Some_0)
}

pub open spec fn stale_heads(m: LivenessModel, heads: Seq<Id>) -> Seq<Id> {
    heads.filter(|h: Id| m.superseded.contains(h))
}

pub open spec fn remaining_heads(m: LivenessModel, heads: Seq<Id>) -> Seq<Id> {
    heads.filter(|h: Id| !m.superseded.contains(h))
}

pub open spec fn unparked(m: LivenessModel, hs: Seq<Id>) -> Seq<Id> {
    hs.filter(|h: Id| !m.parked.contains(h))
}

/// The head that the working directory stands on: the base, else the anchor, else
/// the first head that is not parked, else the first.
pub open spec fn our_head(m: LivenessModel, heads: Seq<Id>, base: Option<Id>, anchor: Option<Id>) -> Option<Id> {
    let remaining = remaining_heads(m, heads);
    if may_be_ours(m, remaining, base) {
        base
    } else if may_be_ours(m, remaining, anchor) {
        anchor
    } else if unparked(m, remaining).len() > 0 {
        Some(unparked(m, remaining)[0])
    } else if remaining.len() > 0 {
        Some(remaining[0])
    } else {
        None
    }
}

/// Parked work, or a version of a divergent change.
pub open spec fn stays_flat(m: LivenessModel, h: Id) -> bool {
    m.parked.contains(h) || (m.cid_of.contains_key(h) && m.divergent.contains(m.cid_of[h]))
}

pub open spec fn flat_heads(m: LivenessModel, heads: Seq<Id>, ours: Option<Id>) -> Seq<Id> {
    remaining_heads(m, heads).filter(|h: Id| Some(h) != ours && stays_flat(m, h))
}

pub open spec fn fold_heads(m: LivenessModel, heads: Seq<Id>, ours: Option<Id>) -> Seq<Id> {
    remaining_heads(m, heads).filter(|h: Id| Some(h) != ours && !stays_flat(m, h))
}

/// A version that counts.
pub open spec fn is_live_in(m: LivenessModel, id: Id) -> bool {
    m.in_graph.contains(id) && !m.abandoned.contains(id) && !m.superseded.contains(id)
}

/// The model of an id that may be absent.
pub open spec fn id_model(o: Option<&Oid>) -> Option<Id> {
    match o {
        Some(x) => Some(x.deep_view()),
        None => None,
    }
}

fn copied_id(o: Option<&Oid>) -> (r: Option<Oid>)
    ensures
        r.deep_view() == id_model(o),
{
    match o {
        Some(x) => Some(*x),
        None => None,
    }
}

/// The ids and change ids of some versions.
fn ids_of(nodes: &Vec<Version>) -> (r: (SortedSet<Oid>, SortedMap<Oid, [u8; 16]>))
    ensures
        r.0.deep_view() == version_ids(nodes.deep_view()),
        r.1.deep_view() == change_ids(nodes.deep_view()),
{
    let ghost ns = nodes.deep_view();
    let mut ids: SortedSet<Oid> = SortedSet::new();
    let mut cids: SortedMap<Oid, [u8; 16]> = SortedMap::new();
    let mut i: usize = 0;
    assert(ns.take(0) =~= Seq::<VersionModel>::empty());
    while i < nodes.len()
        invariant
            0 <= i <= nodes@.len(),
            ns == nodes.deep_view(),
            ids.deep_view() == version_ids(ns.take(i as int)),
            cids.deep_view() == change_ids(ns.take(i as int)),
        decreases nodes@.len() - i,
    {
        let n = &nodes[i];
        proof {
            assert(ns.take(i as int + 1).drop_last() =~= ns.take(i as int));
            assert(ns.take(i as int + 1).last() == n.deep_view());
        }
        let _ = ids.insert(n.0);
        if let Some(c) = &n.1 {
            cids.insert(n.0, *c);
        }
        i = i + 1;
    }
    assert(ns.take(ns.len() as int) =~= ns);
    (ids, cids)
}

/// The versions that one version takes the place of, added to `r`.
fn add_superseded(n: &Version, cids: &SortedMap<Oid, [u8; 16]>, r: &mut SortedSet<Oid>)
    ensures
        forall|p: Id| #[trigger]
            final(r).deep_view().contains(p) <==> old(r).deep_view().contains(p) || supersedes(
                n.deep_view(),
                cids.deep_view(),
                p,
            ),
{
    let cid = match &n.1 {
        Some(c) => c,
        None => {
            return;
        },
    };
    let ghost nv = n.deep_view();
    let ghost had = r.deep_view();
    let ghost cm = cids.deep_view();
    let mut j: usize = 0;
    while j < n.2.len()
        invariant
            0 <= j <= n.2@.len(),
            nv == n.deep_view(),
            nv.1 == Some(cid.deep_view()),
            cm == cids.deep_view(),
            forall|p: Id| #[trigger]
                r.deep_view().contains(p) <==> had.contains(p) || (exists|k: int|
                    0 <= k < j && #[trigger] nv.2[k] == p && cm.contains_key(p) && cm[p] == cid.deep_view()),
        decreases n.2@.len() - j,
    {
        let p = n.2[j];
        let ghost before = r.deep_view();
        assert(nv.2[j as int] == p.deep_view());
        let same = match cids.get(&p) {
            Some(c) => c.same(cid),
            None => false,
        };
        if same {
            let _ = r.insert(p);
        }
        proof {
            assert forall|q: Id| #[trigger] r.deep_view().contains(q) <==> had.contains(q) || (exists|k: int|
                0 <= k < j + 1 && #[trigger] nv.2[k] == q && cm.contains_key(q) && cm[q] == cid.deep_view()) by {
                if r.deep_view().contains(q) {
                    if before.contains(q) {
                        if !had.contains(q) {
                            let k = choose|k: int|
                                0 <= k < j && #[trigger] nv.2[k] == q && cm.contains_key(q) && cm[q]
                                    == cid.deep_view();
                            assert(0 <= k < j + 1 && nv.2[k] == q);
                        }
                    } else {
                        assert(nv.2[j as int] == q);
                    }
                }
                if exists|k: int|
                    0 <= k < j + 1 && #[trigger] nv.2[k] == q && cm.contains_key(q) && cm[q] == cid.deep_view() {
                    let k = choose|k: int|
                        0 <= k < j + 1 && #[trigger] nv.2[k] == q && cm.contains_key(q) && cm[q]
                            == cid.deep_view();
                    if k < j {
                        assert(0 <= k < j && nv.2[k] == q);
                        assert(before.contains(q));
                    }
                }
            }
        }
        j = j + 1;
    }
    proof {
        assert forall|p: Id| supersedes(nv, cm, p) implies #[trigger] r.deep_view().contains(p) by {
            let k = choose|k: int| 0 <= k < nv.2.len() && nv.2[k] == p;
            assert(nv.2[k] == p);
        }
        assert forall|p: Id| #[trigger] r.deep_view().contains(p) && !had.contains(p) implies supersedes(nv, cm, p) by {
            let k = choose|k: int|
                0 <= k < n.2@.len() && #[trigger] nv.2[k] == p && cm.contains_key(p) && cm[p] == cid.deep_view();
            assert(nv.2.contains(p));
        }
    }
}

/// The versions that some version takes the place of.
fn superseded_of(nodes: &Vec<Version>, cids: &SortedMap<Oid, [u8; 16]>) -> (r: SortedSet<Oid>)
    ensures
        r.deep_view() == superseded_by_any(nodes.deep_view(), cids.deep_view()),
{
    let ghost ns = nodes.deep_view();
    let ghost cm = cids.deep_view();
    let mut r: SortedSet<Oid> = SortedSet::new();
    let mut i: usize = 0;
    while i < nodes.len()
        invariant
            0 <= i <= nodes@.len(),
            ns == nodes.deep_view(),
            cm == cids.deep_view(),
            forall|p: Id| #[trigger]
                r.deep_view().contains(p) <==> exists|k: int| 0 <= k < i && supersedes(#[trigger] ns[k], cm, p),
        decreases nodes@.len() - i,
    {
        let ghost before = r.deep_view();
        assert(ns[i as int] == nodes@[i as int].deep_view());
        add_superseded(&nodes[i], cids, &mut r);
        proof {
            assert forall|p: Id| #[trigger] r.deep_view().contains(p) <==> exists|k: int|
                0 <= k < i + 1 && supersedes(#[trigger] ns[k], cm, p) by {
                if before.contains(p) {
                    let k = choose|k: int| 0 <= k < i && supersedes(#[trigger] ns[k], cm, p);
                    assert(0 <= k < i + 1 && supersedes(ns[k], cm, p));
                }
                if supersedes(ns[i as int], cm, p) {
                    assert(r.deep_view().contains(p));
                }
                if exists|k: int| 0 <= k < i + 1 && supersedes(#[trigger] ns[k], cm, p) {
                    let k = choose|k: int| 0 <= k < i + 1 && supersedes(#[trigger] ns[k], cm, p);
                    if k < i {
                        assert(before.contains(p));
                    }
                }
            }
        }
        i = i + 1;
    }
    assert(r.deep_view() =~= superseded_by_any(ns, cm));
    r
}

impl Liveness {
    /// The view of some versions: those abandoned here and those parked elsewhere
    /// are the caller's to know. A claim to take the place of a version of another
    /// change counts for nothing; one that was made stands.
    pub fn compute(nodes: &Vec<Version>, abandoned: SortedSet<Oid>, parked: SortedSet<Oid>) -> (r: Liveness)
        ensures
            r.deep_view() == computed(nodes.deep_view(), abandoned.deep_view(), parked.deep_view()),
    {
        let ghost ns = nodes.deep_view();
        let (in_graph, cid_of) = ids_of(nodes);
        let superseded = superseded_of(nodes, &cid_of);
        let ghost dead = abandoned.deep_view().union(superseded.deep_view());
        let mut live: SortedMap<[u8; 16], Vec<Oid>> = SortedMap::new();
        let mut i: usize = 0;
        assert(ns.take(0) =~= Seq::<VersionModel>::empty());
        while i < nodes.len()
            invariant
                0 <= i <= nodes@.len(),
                ns == nodes.deep_view(),
                dead == abandoned.deep_view().union(superseded.deep_view()),
                live.deep_view() == live_lists(ns.take(i as int), dead),
            decreases nodes@.len() - i,
        {
            let n = &nodes[i];
            proof {
                assert(ns.take(i as int + 1).drop_last() =~= ns.take(i as int));
                assert(ns.take(i as int + 1).last() == n.deep_view());
            }
            if !abandoned.contains(&n.0) && !superseded.contains(&n.0) {
                if let Some(c) = &n.1 {
                    let mut list = match live.get(c) {
                        Some(l) => l.dup(),
                        None => crate::seqs::none(),
                    };
                    assert(list.deep_view() == list_at(live.deep_view(), c.deep_view()));
                    crate::seqs::push(&mut list, n.0);
                    live.insert(*c, list);
                }
            }
            i = i + 1;
        }
        assert(ns.take(ns.len() as int) =~= ns);
        let divergent = divergent_of(&live);
        Liveness { in_graph, abandoned, superseded, parked, cid_of, live_by_cid: live, divergent }
    }

    /// Whether a version counts.
    pub fn is_live(&self, id: &Oid) -> (b: bool)
        ensures
            b == is_live_in(self.deep_view(), id.deep_view()),
    {
        self.in_graph.contains(id) && !self.abandoned.contains(id) && !self.superseded.contains(id)
    }

    /// The live versions of a change, in graph order.
    pub fn live_of(&self, change_id: &[u8; 16]) -> (r: Vec<Oid>)
        ensures
            r.deep_view() == list_at(self.deep_view().live_by_cid, change_id@),
    {
        assert(change_id.deep_view() =~= change_id@);
        match self.live_by_cid.get(change_id) {
            Some(l) => l.dup(),
            None => crate::seqs::none(),
        }
    }

    /// The changes with more than one live version.
    pub fn divergent(&self) -> (r: &SortedSet<[u8; 16]>)
        ensures
            r.deep_view() == self.deep_view().divergent,
    {
        &self.divergent
    }

    /// The versions that another version takes the place of.
    pub fn superseded(&self) -> (r: &SortedSet<Oid>)
        ensures
            r.deep_view() == self.deep_view().superseded,
    {
        &self.superseded
    }

    /// Whether a version is work that is parked elsewhere.
    pub fn is_parked(&self, id: &Oid) -> (b: bool)
        ensures
            b == self.deep_view().parked.contains(id.deep_view()),
    {
        self.parked.contains(id)
    }

    fn is_flat(&self, h: &Oid) -> (b: bool)
        ensures
            b == stays_flat(self.deep_view(), h.deep_view()),
    {
        if self.parked.contains(h) {
            return true;
        }
        match self.cid_of.get(h) {
            Some(c) => self.divergent.contains(c),
            None => false,
        }
    }

    fn may_be(&self, remaining: &Vec<Oid>, c: Option<&Oid>) -> (b: bool)
        ensures
            b == may_be_ours(self.deep_view(), remaining.deep_view(), id_model(c)),
    {
        match c {
            Some(x) => crate::seqs::contains(remaining, x) && !self.parked.contains(x),
            None => false,
        }
    }

    /// What may be done with the heads. `base` is the head that the working
    /// directory shows, `anchor` the one it was last finished on.
    pub fn partition(&self, heads: &Vec<Oid>, base: Option<&Oid>, anchor: Option<&Oid>) -> (r: HeadPartition)
        ensures
            r.ours.deep_view() == our_head(self.deep_view(), heads.deep_view(), id_model(base), id_model(anchor)),
            r.stale.deep_view() == stale_heads(self.deep_view(), heads.deep_view()),
            r.flat.deep_view() == flat_heads(self.deep_view(), heads.deep_view(), r.ours.deep_view()),
            r.fold.deep_view() == fold_heads(self.deep_view(), heads.deep_view(), r.ours.deep_view()),
    {
        let ghost m = self.deep_view();
        let ghost s = heads.deep_view();
        let ghost fs = |h: Id| m.superseded.contains(h);
        let ghost fr = |h: Id| !m.superseded.contains(h);
        let mut stale: Vec<Oid> = crate::seqs::none();
        let mut remaining: Vec<Oid> = crate::seqs::none();
        let mut i: usize = 0;
        proof {
            lemma_filter_none(s, fs);
            lemma_filter_none(s, fr);
        }
        while i < heads.len()
            invariant
                0 <= i <= heads@.len(),
                s == heads.deep_view(),
                m == self.deep_view(),
                fs == (|h: Id| m.superseded.contains(h)),
                fr == (|h: Id| !m.superseded.contains(h)),
                stale.deep_view() == s.take(i as int).filter(fs),
                remaining.deep_view() == s.take(i as int).filter(fr),
            decreases heads@.len() - i,
        {
            proof {
                lemma_filter_step(s, i as int, fs);
                lemma_filter_step(s, i as int, fr);
            }
            if self.superseded.contains(&heads[i]) {
                crate::seqs::push(&mut stale, heads[i]);
            } else {
                crate::seqs::push(&mut remaining, heads[i]);
            }
            i = i + 1;
        }
        assert(s.take(s.len() as int) =~= s);
        let ghost rs = remaining.deep_view();
        let ours = if self.may_be(&remaining, base) {
            copied_id(base)
        } else if self.may_be(&remaining, anchor) {
            copied_id(anchor)
        } else {
            self.first_head(&remaining)
        };
        let ghost o = ours.deep_view();
        let ghost ff = |h: Id| Some(h) != o && stays_flat(m, h);
        let ghost fo = |h: Id| Some(h) != o && !stays_flat(m, h);
        let mut flat: Vec<Oid> = crate::seqs::none();
        let mut fold: Vec<Oid> = crate::seqs::none();
        let mut k: usize = 0;
        proof {
            lemma_filter_none(rs, ff);
            lemma_filter_none(rs, fo);
        }
        while k < remaining.len()
            invariant
                0 <= k <= remaining@.len(),
                rs == remaining.deep_view(),
                m == self.deep_view(),
                o == ours.deep_view(),
                ff == (|h: Id| Some(h) != o && stays_flat(m, h)),
                fo == (|h: Id| Some(h) != o && !stays_flat(m, h)),
                flat.deep_view() == rs.take(k as int).filter(ff),
                fold.deep_view() == rs.take(k as int).filter(fo),
            decreases remaining@.len() - k,
        {
            proof {
                lemma_filter_step(rs, k as int, ff);
                lemma_filter_step(rs, k as int, fo);
            }
            let h = remaining[k];
            let is_ours = match &ours {
                Some(x) => x.same(&h),
                None => false,
            };
            if !is_ours {
                if self.is_flat(&h) {
                    crate::seqs::push(&mut flat, h);
                } else {
                    crate::seqs::push(&mut fold, h);
                }
            }
            k = k + 1;
        }
        assert(rs.take(rs.len() as int) =~= rs);
        HeadPartition { ours, stale, flat, fold }
    }

    /// The first head that is not parked, else the first.
    fn first_head(&self, remaining: &Vec<Oid>) -> (r: Option<Oid>)
        ensures
            r.deep_view() == (if unparked(self.deep_view(), remaining.deep_view()).len() > 0 {
                Some(unparked(self.deep_view(), remaining.deep_view())[0])
            } else if remaining.deep_view().len() > 0 {
                Some(remaining.deep_view()[0])
            } else {
                None
            }),
    {
        let ghost m = self.deep_view();
        let ghost rs = remaining.deep_view();
        let ghost f = |h: Id| !m.parked.contains(h);
        let mut k: usize = 0;
        proof {
            lemma_filter_none(rs, f);
        }
        while k < remaining.len()
            invariant
                0 <= k <= remaining@.len(),
                rs == remaining.deep_view(),
                m == self.deep_view(),
                f == (|h: Id| !m.parked.contains(h)),
                rs.take(k as int).filter(f).len() == 0,
            decreases remaining@.len() - k,
        {
            proof {
                lemma_filter_step(rs, k as int, f);
            }
            if !self.parked.contains(&remaining[k]) {
                proof {
                    crate::seqs::lemma_filter_first(rs, k as int, f);
                }
                return Some(remaining[k]);
            }
            k = k + 1;
        }
        assert(rs.take(rs.len() as int) =~= rs);
        if remaining.len() > 0 {
            Some(remaining[0])
        } else {
            None
        }
    }
}

/// The keys of the lists with more than one item.
fn divergent_of(live: &SortedMap<[u8; 16], Vec<Oid>>) -> (r: SortedSet<[u8; 16]>)
    ensures
        r.deep_view() == divergent_in(live.deep_view()),
{
    let n: usize = live.len();
    let ghost s = live.pairs();
    let ghost m = live.deep_view();
    let mut r: SortedSet<[u8; 16]> = SortedSet::new();
    let mut i: usize = 0;
    proof {
        lemma_among::<[u8; 16], Seq<Id>>(s, 0);
    }
    while i < n
        invariant
            0 <= i <= n,
            n == s.len(),
            s == live.pairs(),
            m == live.deep_view(),
            m == map_of(s),
            rising::<[u8; 16], Seq<Id>>(s),
            forall|c: Seq<u8>| #[trigger]
                r.deep_view().contains(c) <==> among(s, i as int, c) && m[c].len() > 1,
        decreases n - i,
    {
        proof {
            lemma_among::<[u8; 16], Seq<Id>>(s, i as int);
            lemma_entry::<[u8; 16], Seq<Id>>(s, i as int);
        }
        let list = live.value_at(i);
        assert(list.deep_view().len() == list@.len());
        if list.len() > 1 {
            let _ = r.insert(*live.key_at(i));
        }
        i = i + 1;
    }
    proof {
        lemma_among::<[u8; 16], Seq<Id>>(s, n as int);
        assert(r.deep_view() =~= divergent_in(m));
    }
    r
}

/// Every head is the one that is ours, or stale, or flat, or to be folded, and no
/// two of these.
pub proof fn law_partition_covers_heads(m: LivenessModel, heads: Seq<Id>, ours: Option<Id>, h: Id)
    requires
        heads.contains(h),
        ours matches Some(o) ==> remaining_heads(m, heads).contains(o),
    ensures
        stale_heads(m, heads).contains(h) || ours == Some(h) || flat_heads(m, heads, ours).contains(h)
            || fold_heads(m, heads, ours).contains(h),
        ours == Some(h) ==> !stale_heads(m, heads).contains(h),
        flat_heads(m, heads, ours).contains(h) ==> !stale_heads(m, heads).contains(h) && ours != Some(h)
            && !fold_heads(m, heads, ours).contains(h),
        fold_heads(m, heads, ours).contains(h) ==> !stale_heads(m, heads).contains(h) && ours != Some(h),
{
    let rs = remaining_heads(m, heads);
    lemma_filter_contains(heads, |h: Id| m.superseded.contains(h), h);
    lemma_filter_contains(heads, |h: Id| !m.superseded.contains(h), h);
    lemma_filter_contains(rs, |h: Id| Some(h) != ours && stays_flat(m, h), h);
    lemma_filter_contains(rs, |h: Id| Some(h) != ours && !stays_flat(m, h), h);
}

/// The head that is ours is a head, is not superseded, and is not parked unless
/// every other one is.
pub proof fn law_ours_is_not_parked(m: LivenessModel, heads: Seq<Id>, base: Option<Id>, anchor: Option<Id>)
    ensures
        our_head(m, heads, base, anchor) matches Some(o) ==> remaining_heads(m, heads).contains(o) && (
        m.parked.contains(o) ==> forall|h: Id| #[trigger]
            remaining_heads(m, heads).contains(h) ==> m.parked.contains(h)),
        our_head(m, heads, base, anchor) is None <==> remaining_heads(m, heads).len() == 0,
{
    let rs = remaining_heads(m, heads);
    let f = |h: Id| !m.parked.contains(h);
    let u = unparked(m, rs);
    assert forall|h: Id| #[trigger] rs.contains(h) && !m.parked.contains(h) implies u.contains(h) by {
        lemma_filter_contains(rs, f, h);
    }
    if u.len() > 0 {
        assert(u.contains(u[0]));
        lemma_filter_contains(rs, f, u[0]);
        assert(rs.len() > 0);
    }
    if rs.len() > 0 {
        assert(rs.contains(rs[0]));
    }
}

/// A superseded version does not count, whoever superseded it.
pub proof fn law_superseded_is_dead(ns: Seq<VersionModel>, abandoned: Set<Id>, parked: Set<Id>, i: int, p: Id)
    requires
        0 <= i < ns.len(),
        supersedes(ns[i], change_ids(ns), p),
    ensures
        !is_live_in(computed(ns, abandoned, parked), p),
{
}

proof fn lemma_live_lists(ns: Seq<VersionModel>, dead: Set<Id>, c: Seq<u8>, id: Id)
    ensures
        list_at(live_lists(ns, dead), c).contains(id) <==> exists|i: int|
            0 <= i < ns.len() && (#[trigger] ns[i]).0 == id && ns[i].1 == Some(c) && !dead.contains(id),
    decreases ns.len(),
{
    if ns.len() > 0 {
        let front = ns.drop_last();
        let n = ns.last();
        lemma_live_lists(front, dead, c, id);
        let l0 = list_at(live_lists(front, dead), c);
        let l1 = list_at(live_lists(ns, dead), c);
        assert(ns[ns.len() - 1] == n);
        if l0.contains(id) {
            let i = choose|i: int|
                0 <= i < front.len() && (#[trigger] front[i]).0 == id && front[i].1 == Some(c) && !dead.contains(id);
            assert(ns[i].0 == id && ns[i].1 == Some(c));
            let k = choose|k: int| 0 <= k < l0.len() && l0[k] == id;
            assert(l1[k] == id);
        }
        if n.0 == id && n.1 == Some(c) && !dead.contains(id) {
            assert(l1[l1.len() - 1] == id);
        }
        if exists|i: int|
            0 <= i < ns.len() && (#[trigger] ns[i]).0 == id && ns[i].1 == Some(c) && !dead.contains(id) {
            let i = choose|i: int|
                0 <= i < ns.len() && (#[trigger] ns[i]).0 == id && ns[i].1 == Some(c) && !dead.contains(id);
            if i < front.len() {
                assert(front[i].0 == id && front[i].1 == Some(c));
            }
        }
        if l1.contains(id) && !l0.contains(id) {
            let k = choose|k: int| 0 <= k < l1.len() && l1[k] == id;
            if k < l0.len() {
                assert(l0[k] == id);
            }
        }
    }
}

/// The live versions of a change are just its versions that are neither abandoned
/// nor superseded.
pub proof fn law_live_versions(ns: Seq<VersionModel>, abandoned: Set<Id>, parked: Set<Id>, c: Seq<u8>, id: Id)
    ensures
        list_at(computed(ns, abandoned, parked).live_by_cid, c).contains(id) <==> exists|i: int|
            0 <= i < ns.len() && (#[trigger] ns[i]).0 == id && ns[i].1 == Some(c) && !abandoned.contains(id)
                && !computed(ns, abandoned, parked).superseded.contains(id),
{
    let dead = abandoned.union(computed(ns, abandoned, parked).superseded);
    lemma_live_lists(ns, dead, c, id);
}

/// No two of the versions have one id.
pub open spec fn ids_apart(ns: Seq<VersionModel>) -> bool {
    forall|i: int, j: int| 0 <= i < j < ns.len() ==> (#[trigger] ns[i]).0 != (#[trigger] ns[j]).0
}

proof fn lemma_change_ids(ns: Seq<VersionModel>, x: Id)
    requires
        ids_apart(ns),
    ensures
        change_ids(ns).contains_key(x) <==> exists|j: int|
            0 <= j < ns.len() && (#[trigger] ns[j]).0 == x && ns[j].1 is Some,
        forall|j: int|
            0 <= j < ns.len() && (#[trigger] ns[j]).0 == x && ns[j].1 is Some ==> change_ids(ns)[x] == ns[j].1->Some_0,
        version_ids(ns).contains(x) <==> exists|j: int| 0 <= j < ns.len() && (#[trigger] ns[j]).0 == x,
    decreases ns.len(),
{
    if ns.len() > 0 {
        let front = ns.drop_last();
        assert(ids_apart(front)) by {
            assert forall|i: int, j: int| 0 <= i < j < front.len() implies (#[trigger] front[i]).0 != (
            #[trigger] front[j]).0 by {
                assert(front[i] == ns[i] && front[j] == ns[j]);
            }
        }
        lemma_change_ids(front, x);
        let last = ns.len() - 1;
        assert(ns.last() == ns[last]);
        assert forall|j: int| 0 <= j < last implies ns[j] == front[j] by {}
        if ns[last].0 == x {
            assert forall|j: int| 0 <= j < front.len() implies (#[trigger] front[j]).0 != x by {
                assert(front[j] == ns[j]);
            }
        }
        if exists|j: int| 0 <= j < front.len() && (#[trigger] front[j]).0 == x && front[j].1 is Some {
            let j = choose|j: int| 0 <= j < front.len() && (#[trigger] front[j]).0 == x && front[j].1 is Some;
            assert(ns[j].0 == x && ns[j].1 is Some);
        }
        if exists|j: int| 0 <= j < front.len() && (#[trigger] front[j]).0 == x {
            let j = choose|j: int| 0 <= j < front.len() && (#[trigger] front[j]).0 == x;
            assert(ns[j].0 == x);
        }
    }
}

/// A version is superseded just where another one names it and both are versions of one
/// change.
pub open spec fn is_replaced(ns: Seq<VersionModel>, p: Id) -> bool {
    exists|i: int, j: int|
        0 <= i < ns.len() && 0 <= j < ns.len() && (#[trigger] ns[i]).2.contains(p) && (#[trigger] ns[j]).0 == p
            && ns[i].1 is Some && ns[i].1 == ns[j].1
}

/// Which versions count: those that are here, were not abandoned, and that no other version
/// of their change takes the place of. The live versions of a change are listed in turn, and
/// it is divergent just where there are several.
pub proof fn law_what_counts(
    ns: Seq<VersionModel>,
    abandoned: Set<Id>,
    parked: Set<Id>,
    id: Id,
    c: Seq<u8>,
)
    requires
        ids_apart(ns),
    ensures
        ({
            let v = computed(ns, abandoned, parked);
            let live = ns.filter(
                |n: VersionModel| n.1 == Some(c) && !abandoned.contains(n.0) && !is_replaced(ns, n.0),
            ).map_values(|n: VersionModel| n.0);
            &&& v.superseded.contains(id) <==> is_replaced(ns, id)
            &&& is_live_in(v, id) <==> (exists|i: int| 0 <= i < ns.len() && (#[trigger] ns[i]).0 == id)
                && !abandoned.contains(id) && !is_replaced(ns, id)
            &&& list_at(v.live_by_cid, c) == live
            &&& v.divergent.contains(c) <==> live.len() > 1
            &&& v.parked == parked
            &&& v.cid_of.contains_key(id) <==> exists|i: int|
                0 <= i < ns.len() && (#[trigger] ns[i]).0 == id && ns[i].1 is Some
            &&& forall|i: int|
                0 <= i < ns.len() && (#[trigger] ns[i]).0 == id && ns[i].1 is Some ==> v.cid_of[id] == ns[i].1->Some_0
        }),
{
    let v = computed(ns, abandoned, parked);
    let f = |n: VersionModel| n.1 == Some(c) && !abandoned.contains(n.0) && !is_replaced(ns, n.0);
    let g = |n: VersionModel| n.0;
    lemma_change_ids(ns, id);
    assert forall|p: Id| #[trigger] v.superseded.contains(p) <==> is_replaced(ns, p) by {
        lemma_change_ids(ns, p);
        if v.superseded.contains(p) {
            let i = choose|i: int| 0 <= i < ns.len() && supersedes(#[trigger] ns[i], v.cid_of, p);
            let j = choose|j: int| 0 <= j < ns.len() && (#[trigger] ns[j]).0 == p && ns[j].1 is Some;
            assert(ns[i].2.contains(p) && ns[j].0 == p);
        }
        if is_replaced(ns, p) {
            let (i, j) = choose|i: int, j: int|
                0 <= i < ns.len() && 0 <= j < ns.len() && (#[trigger] ns[i]).2.contains(p) && (#[trigger] ns[j]).0 == p
                    && ns[i].1 is Some && ns[i].1 == ns[j].1;
            assert(supersedes(ns[i], v.cid_of, p));
        }
    }
    let dead = abandoned.union(v.superseded);
    lemma_live_listed(ns, dead, c);
    let h = |n: VersionModel| n.1 == Some(c) && !dead.contains(n.0);
    assert forall|n: VersionModel| #[trigger] ns.contains(n) implies f(n) == h(n) by {
        assert(v.superseded.contains(n.0) <==> is_replaced(ns, n.0));
    }
    crate::seqs::lemma_filter_agrees(ns, f, h);
    lemma_live_has(ns, dead, c);
}

/// A change has a list just where it has a live version.
proof fn lemma_live_has(ns: Seq<VersionModel>, dead: Set<Id>, c: Seq<u8>)
    ensures
        live_lists(ns, dead).contains_key(c) <==> list_at(live_lists(ns, dead), c).len() > 0,
    decreases ns.len(),
{
    if ns.len() > 0 {
        lemma_live_has(ns.drop_last(), dead, c);
    }
}

proof fn lemma_live_listed(ns: Seq<VersionModel>, dead: Set<Id>, c: Seq<u8>)
    ensures
        list_at(live_lists(ns, dead), c) == ns.filter(
            |n: VersionModel| n.1 == Some(c) && !dead.contains(n.0),
        ).map_values(|n: VersionModel| n.0),
    decreases ns.len(),
{
    reveal(Seq::filter);
    let h = |n: VersionModel| n.1 == Some(c) && !dead.contains(n.0);
    let g = |n: VersionModel| n.0;
    if ns.len() > 0 {
        let front = ns.drop_last();
        lemma_live_listed(front, dead, c);
        let r = front.filter(h);
        if h(ns.last()) {
            assert(r.push(ns.last()).map_values(g) =~= r.map_values(g).push(ns.last().0));
        }
        assert(list_at(live_lists(ns, dead), c) =~= ns.filter(h).map_values(g));
    } else {
        assert(list_at(live_lists(ns, dead), c) =~= ns.filter(h).map_values(g));
    }
}

/// The head that is ours: the base, if it is a head that nothing took the place of and
/// that is not parked; else the anchor, if it is; else the first head that is; else the
/// first that nothing took the place of.
pub proof fn law_which_head_is_ours(m: LivenessModel, heads: Seq<Id>, base: Option<Id>, anchor: Option<Id>, i: int)
    requires
        0 <= i < heads.len(),
        !m.superseded.contains(heads[i]),
    ensures
        ({
            let r = our_head(m, heads, base, anchor);
            let fit = |c: Option<Id>| c is Some && heads.contains(c->Some_0) && !m.superseded.contains(c->Some_0)
                && !m.parked.contains(c->Some_0);
            &&& fit(base) ==> r == base
            &&& !fit(base) && fit(anchor) ==> r == anchor
            &&& !fit(base) && !fit(anchor) && !m.parked.contains(heads[i]) && (forall|j: int|
                0 <= j < i ==> m.superseded.contains(#[trigger] heads[j]) || m.parked.contains(heads[j])) ==> r == Some(
                heads[i],
            )
            &&& (forall|j: int| 0 <= j < heads.len() ==> m.superseded.contains(#[trigger] heads[j]) || m.parked.contains(
                heads[j],
            )) && (forall|j: int| 0 <= j < i ==> m.superseded.contains(#[trigger] heads[j])) && !fit(base) && !fit(
                anchor,
            ) ==> r == Some(heads[i])
        }),
{
    let f = |h: Id| !m.superseded.contains(h);
    let g = |h: Id| !m.parked.contains(h);
    let rs = remaining_heads(m, heads);
    assert forall|x: Id| #[trigger] rs.contains(x) <==> heads.contains(x) && !m.superseded.contains(x) by {
        crate::seqs::lemma_filter_contains(heads, f, x);
    }
    let both = |h: Id| f(h) && g(h);
    crate::seqs::lemma_filter_twice(heads, f, g);
    let u = unparked(m, rs);
    assert(u == heads.filter(both));
    let r = our_head(m, heads, base, anchor);
    let fit = |c: Option<Id>| c is Some && heads.contains(c->Some_0) && !m.superseded.contains(c->Some_0)
        && !m.parked.contains(c->Some_0);
    assert(may_be_ours(m, rs, base) == fit(base));
    assert(may_be_ours(m, rs, anchor) == fit(anchor));
    if !m.parked.contains(heads[i]) && (forall|j: int|
        0 <= j < i ==> m.superseded.contains(#[trigger] heads[j]) || m.parked.contains(heads[j])) {
        let front = heads.take(i);
        assert forall|x: Id| #[trigger] front.contains(x) implies !both(x) by {
            let j = choose|j: int| 0 <= j < front.len() && front[j] == x;
            assert(heads[j] == x);
        }
        crate::seqs::lemma_filter_wants_none(front, both);
        crate::seqs::lemma_filter_first(heads, i, both);
    }
    if (forall|j: int| 0 <= j < heads.len() ==> m.superseded.contains(#[trigger] heads[j]) || m.parked.contains(
        heads[j],
    )) && (forall|j: int| 0 <= j < i ==> m.superseded.contains(#[trigger] heads[j])) {
        assert forall|x: Id| #[trigger] heads.contains(x) implies !both(x) by {
            let j = choose|j: int| 0 <= j < heads.len() && heads[j] == x;
            assert(heads[j] == x);
        }
        crate::seqs::lemma_filter_wants_none(heads, both);
        let front = heads.take(i);
        assert forall|x: Id| #[trigger] front.contains(x) implies !f(x) by {
            let j = choose|j: int| 0 <= j < front.len() && front[j] == x;
            assert(heads[j] == x);
        }
        crate::seqs::lemma_filter_wants_none(front, f);
        crate::seqs::lemma_filter_first(heads, i, f);
    }
}

/// What is done with a head that is not ours: it is dropped just where something took its
/// place; else it stays flat where it is parked or a version of a divergent change; else it
/// is folded. Each list keeps the order of the heads.
pub proof fn law_what_is_done_with_heads(m: LivenessModel, heads: Seq<Id>, ours: Option<Id>, h: Id)
    ensures
        stale_heads(m, heads).contains(h) <==> heads.contains(h) && m.superseded.contains(h),
        flat_heads(m, heads, ours).contains(h) <==> heads.contains(h) && !m.superseded.contains(h) && ours != Some(h)
            && (m.parked.contains(h) || (m.cid_of.contains_key(h) && m.divergent.contains(m.cid_of[h]))),
        fold_heads(m, heads, ours).contains(h) <==> heads.contains(h) && !m.superseded.contains(h) && ours != Some(h)
            && !m.parked.contains(h) && !(m.cid_of.contains_key(h) && m.divergent.contains(m.cid_of[h])),
{
    let rs = remaining_heads(m, heads);
    crate::seqs::lemma_filter_contains(heads, |h: Id| m.superseded.contains(h), h);
    crate::seqs::lemma_filter_contains(heads, |h: Id| !m.superseded.contains(h), h);
    crate::seqs::lemma_filter_contains(rs, |h: Id| Some(h) != ours && stays_flat(m, h), h);
    crate::seqs::lemma_filter_contains(rs, |h: Id| Some(h) != ours && !stays_flat(m, h), h);
}

} // verus!
