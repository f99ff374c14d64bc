//! Buoys: the newest change that someone trusted attested with a role.
//!
//! Newest means that no other such change descends from it. Where that leaves more
//! than one, the buoy is ambiguous and none is picked.

use crate::ancestry::{acyclic, closure, closure_of, descends, reaches, Edges, History, Id};
use crate::attestation::{attests, Attestation, AttestationModel};
use crate::seqs::{lemma_filter_contains, lemma_filter_none, lemma_filter_step};
use crate::sorted::{
    lemma_entry, lemma_map_is_listed, lemma_part_rises, map_of, pairs_of, rising, SortedMap, SortedSet,
};
use crate::types::Oid;
use crate::value::Value;
use vstd::prelude::*;

verus! {

/// Where a buoy lies.
#[derive(Debug, PartialEq, Eq)]
pub enum BuoyResult {
    /// On one change, backed by these attesters.
    Resolved { change: Oid, attesters: Vec<[u8; 32]> },
    /// On several changes of which none is an ancestor of another.
    Ambiguous { candidates: Vec<Candidate> },
    /// Nowhere.
    Nowhere,
}

/// One change that a buoy may lie on.
#[derive(Debug, PartialEq, Eq)]
pub struct Candidate {
    pub change: Oid,
    pub attesters: Vec<[u8; 32]>,
}

/// The model of a [`Candidate`]: the change, and who attested it.
pub type CandidateModel = (Id, Seq<Seq<u8>>);

impl DeepView for Candidate {
    type V = CandidateModel;

    open spec fn deep_view(&self) -> CandidateModel {
        (self.change.deep_view(), self.attesters.deep_view())
    }
}

impl Value for Candidate {
    fn dup(&self) -> (r: Self) {
        Candidate { change: self.change, attesters: self.attesters.dup() }
    }

    fn same(&self, other: &Self) -> (b: bool) {
        self.change.same(&other.change) && self.attesters.same(&other.attesters)
    }
}

/// The model of a [`BuoyResult`].
pub enum BuoyModel {
    Resolved { change: Id, attesters: Seq<Seq<u8>> },
    Ambiguous { candidates: Seq<CandidateModel> },
    Nowhere,
}

impl DeepView for BuoyResult {
    type V = BuoyModel;

    open spec fn deep_view(&self) -> BuoyModel {
        match self {
            BuoyResult::Resolved { change, attesters } => BuoyModel::Resolved {
                change: change.deep_view(),
                attesters: attesters.deep_view(),
            },
            BuoyResult::Ambiguous { candidates } => BuoyModel::Ambiguous { candidates: candidates.deep_view() },
            BuoyResult::Nowhere => BuoyModel::Nowhere,
        }
    }
}

/// An attestation that counts: it has the role, its signature is good, its attester
/// is trusted, and the change is here.
pub open spec fn counts(
    a: AttestationModel,
    role: Seq<char>,
    trusted: Set<Seq<u8>>,
    present: Set<Id>,
) -> bool {
    a.role == role && attests(a) && trusted.contains(a.attester) && present.contains(a.change_id)
}

/// With one more attester of a change.
pub open spec fn backed(m: Map<Id, Seq<Seq<u8>>>, a: AttestationModel) -> Map<Id, Seq<Seq<u8>>> {
    m.insert(
        a.change_id,
        (if m.contains_key(a.change_id) {
            m[a.change_id]
        } else {
            Seq::empty()
        }).push(a.attester),
    )
}

/// Each change that an attestation counts for, with those who attested it, in turn.
pub open spec fn backers(
    atts: Seq<AttestationModel>,
    role: Seq<char>,
    trusted: Set<Seq<u8>>,
    present: Set<Id>,
) -> Map<Id, Seq<Seq<u8>>>
    decreases atts.len(),
{
    if atts.len() == 0 {
        Map::empty()
    } else {
        let before = backers(atts.drop_last(), role, trusted, present);
        if counts(atts.last(), role, trusted, present) {
            backed(before, atts.last())
        } else {
            before
        }
    }
}

/// The parents of a change; none if it is not known.
pub open spec fn parents_in(e: Edges, id: Id) -> Seq<Id> {
    if e.contains_key(id) {
        e[id]
    } else {
        Seq::empty()
    }
}

/// A change is a strict ancestor of another one of these.
pub open spec fn dominated(e: Edges, ids: Set<Id>, id: Id) -> bool {
    exists|c: Id| ids.contains(c) && #[trigger] closure_of(e, parents_in(e, c)).contains(id)
}

/// The changes that are no ancestors of others, in the order of their ids.
pub open spec fn maximal(e: Edges, m: Map<Id, Seq<Seq<u8>>>) -> Seq<CandidateModel> {
    pairs_of::<Oid, Seq<Seq<u8>>>(m).filter(|c: CandidateModel| !dominated(e, m.dom(), c.0))
}

/// Where a role's buoy lies.
pub open spec fn resolved(e: Edges, m: Map<Id, Seq<Seq<u8>>>) -> BuoyModel {
    let top = maximal(e, m);
    if top.len() == 0 {
        BuoyModel::Nowhere
    } else if top.len() == 1 {
        BuoyModel::Resolved { change: top[0].0, attesters: top[0].1 }
    } else {
        BuoyModel::Ambiguous { candidates: top }
    }
}

/// Where the buoy of a role lies, among the changes that are here.
pub fn resolve<H: History>(
    present: &SortedSet<Oid>,
    parents: &H,
    attestations: &Vec<Attestation>,
    trusted: &SortedSet<[u8; 32]>,
    role: &str,
) -> (r: BuoyResult)
    ensures
        r.deep_view() == resolved(
            parents.edges(),
            backers(attestations.deep_view(), role@, trusted.deep_view(), present.deep_view()),
        ),
{
    let candidates = gather(present, attestations, trusted, role);
    let ghost e = parents.edges();
    let ghost m = candidates.deep_view();
    let ghost s = candidates.pairs();
    let count: usize = candidates.len();
    // A change that another one descends from is not a candidate for the top. Whether
    // that other one is at the top itself makes no difference.
    let mut below: SortedSet<Oid> = SortedSet::new();
    let mut i: usize = 0;
    while i < count
        invariant
            count == s.len(),
            0 <= i <= s.len(),
            s == candidates.pairs(),
            m == candidates.deep_view(),
            e == parents.edges(),
            rising::<Oid, Seq<Seq<u8>>>(s),
            m == map_of(s),
            forall|x: Id| #[trigger]
                below.deep_view().contains(x) <==> exists|j: int|
                    0 <= j < i && #[trigger] closure_of(e, parents_in(e, s[j].0)).contains(x),
        decreases s.len() - i,
    {
        let ghost old_below = below.deep_view();
        let c = candidates.key_at(i);
        let ps: Vec<Oid> = match parents.parents_of(c) {
            Some(v) => v.dup(),
            None => crate::seqs::none(),
        };
        assert(ps.deep_view() == parents_in(e, s[i as int].0));
        let up = closure(parents, &ps);
        let ghost u = up.deep_view();
        add_all(&mut below, &up);
        proof {
            assert forall|x: Id| #[trigger] below.deep_view().contains(x) <==> exists|j: int|
                0 <= j < i + 1 && #[trigger] closure_of(e, parents_in(e, s[j].0)).contains(x) by {
                if old_below.contains(x) {
                    let j = choose|j: int|
                        0 <= j < i && #[trigger] closure_of(e, parents_in(e, s[j].0)).contains(x);
                    assert(closure_of(e, parents_in(e, s[j].0)).contains(x));
                }
                if u.contains(x) {
                    assert(closure_of(e, parents_in(e, s[i as int].0)).contains(x));
                }
            }
        }
        i = i + 1;
    }
    proof {
        assert forall|x: Id| below.deep_view().contains(x) == #[trigger] dominated(e, m.dom(), x) by {
            if below.deep_view().contains(x) {
                let j = choose|j: int|
                    0 <= j < s.len() && #[trigger] closure_of(e, parents_in(e, s[j].0)).contains(x);
                lemma_entry::<Oid, Seq<Seq<u8>>>(s, j);
                assert(m.dom().contains(s[j].0));
            }
            if dominated(e, m.dom(), x) {
                let c = choose|c: Id|
                    m.dom().contains(c) && #[trigger] closure_of(e, parents_in(e, c)).contains(x);
                let j = crate::sorted::place_of(s, c);
                assert(crate::sorted::has_key(s, c));
                assert(s[j].0 == c);
                assert(closure_of(e, parents_in(e, s[j].0)).contains(x));
            }
        }
    }
    let ghost f = |c: CandidateModel| !dominated(e, m.dom(), c.0);
    let mut top: Vec<Candidate> = crate::seqs::none();
    let mut k: usize = 0;
    proof {
        lemma_filter_none(s, f);
        crate::sorted::lemma_pairs_of::<Oid, Seq<Seq<u8>>>(s, m);
    }
    assert(top.deep_view() =~= s.take(0).filter(f));
    while k < count
        invariant
            count == s.len(),
            0 <= k <= s.len(),
            s == candidates.pairs(),
            m == candidates.deep_view(),
            f == (|c: CandidateModel| !dominated(e, m.dom(), c.0)),
            forall|x: Id| below.deep_view().contains(x) == #[trigger] dominated(e, m.dom(), x),
            top.deep_view() == s.take(k as int).filter(f),
        decreases s.len() - k,
    {
        proof {
            lemma_filter_step(s, k as int, f);
        }
        let id = candidates.key_at(k);
        if !below.contains(id) {
            let c = Candidate { change: *id, attesters: candidates.value_at(k).dup() };
            assert(c.deep_view() == s[k as int]);
            crate::seqs::push(&mut top, c);
        }
        k = k + 1;
    }
    assert(s.take(s.len() as int) =~= s);
    let ghost ts = top.deep_view();
    assert(ts == maximal(e, m));
    assert(ts.len() == top@.len());
    if top.len() == 0 {
        BuoyResult::Nowhere
    } else if top.len() == 1 {
        assert(ts[0] == top@[0].deep_view());
        let c = top[0].dup();
        BuoyResult::Resolved { change: c.change, attesters: c.attesters }
    } else {
        BuoyResult::Ambiguous { candidates: top }
    }
}

/// Puts every id of `more` among `s`.
fn add_all(s: &mut SortedSet<Oid>, more: &SortedSet<Oid>)
    ensures
        final(s).deep_view() == old(s).deep_view() + more.deep_view(),
{
    let ghost s0 = s.deep_view();
    let list = more.to_vec();
    let ghost ms = list.deep_view();
    let mut i: usize = 0;
    assert(s.deep_view() =~= s0 + ms.take(0).to_set());
    while i < list.len()
        invariant
            0 <= i <= list@.len(),
            ms == list.deep_view(),
            s.deep_view() == s0 + ms.take(i as int).to_set(),
        decreases list@.len() - i,
    {
        let _ = s.insert(list[i]);
        proof {
            let next = ms.take(i as int + 1);
            assert(next =~= ms.take(i as int).push(ms[i as int]));
            assert(ms[i as int] == list@[i as int].deep_view());
            assert forall|x: Id| next.to_set().contains(x) == (ms.take(i as int).to_set().contains(x) || x
                == ms[i as int]) by {
                if ms.take(i as int).contains(x) {
                    let j = choose|j: int| 0 <= j < i && ms.take(i as int)[j] == x;
                    assert(next[j] == x);
                }
                if x == ms[i as int] {
                    assert(next[i as int] == x);
                }
            }
            assert(s.deep_view() =~= s0 + next.to_set());
        }
        i = i + 1;
    }
    assert(ms.take(ms.len() as int) =~= ms);
    assert(ms.to_set() =~= more.deep_view());
}

/// The changes that attestations count for, with those who attested them.
fn gather(
    present: &SortedSet<Oid>,
    attestations: &Vec<Attestation>,
    trusted: &SortedSet<[u8; 32]>,
    role: &str,
) -> (r: SortedMap<Oid, Vec<[u8; 32]>>)
    ensures
        r.deep_view() == backers(attestations.deep_view(), role@, trusted.deep_view(), present.deep_view()),
{
    let ghost all = attestations.deep_view();
    let ghost t = trusted.deep_view();
    let ghost p = present.deep_view();
    let mut r: SortedMap<Oid, Vec<[u8; 32]>> = SortedMap::new();
    let mut i: usize = 0;
    assert(all.take(0) =~= Seq::<AttestationModel>::empty());
    while i < attestations.len()
        invariant
            0 <= i <= attestations@.len(),
            all == attestations.deep_view(),
            t == trusted.deep_view(),
            p == present.deep_view(),
            r.deep_view() == backers(all.take(i as int), role@, t, p),
        decreases attestations@.len() - i,
    {
        let a = &attestations[i];
        proof {
            let next = all.take(i as int + 1);
            assert(next.drop_last() =~= all.take(i as int));
            assert(next.last() == a.deep_view());
            assert(a.attester.deep_view() =~= a.deep_view().attester);
        }
        if crate::text::same_text(a.role.as_str(), role) && a.verify() && trusted.contains(&a.attester)
            && present.contains(&a.change_id) {
            let mut who: Vec<[u8; 32]> = match r.get(&a.change_id) {
                Some(v) => v.dup(),
                None => crate::seqs::none(),
            };
            crate::seqs::push(&mut who, a.attester);
            r.insert(a.change_id, who);
        }
        i = i + 1;
    }
    assert(all.take(all.len() as int) =~= all);
    r
}

// ---------------------------------------------------------------------------
// Laws
// ---------------------------------------------------------------------------

proof fn lemma_backed_count(
    atts: Seq<AttestationModel>,
    role: Seq<char>,
    trusted: Set<Seq<u8>>,
    present: Set<Id>,
    id: Id,
)
    ensures
        backers(atts, role, trusted, present).contains_key(id) ==> exists|i: int|
            0 <= i < atts.len() && #[trigger] counts(atts[i], role, trusted, present) && atts[i].change_id == id,
    decreases atts.len(),
{
    if atts.len() > 0 {
        lemma_backed_count(atts.drop_last(), role, trusted, present, id);
        let before = backers(atts.drop_last(), role, trusted, present);
        let last = atts.len() - 1;
        if before.contains_key(id) {
            let i = choose|i: int|
                0 <= i < atts.drop_last().len() && #[trigger] counts(
                    atts.drop_last()[i],
                    role,
                    trusted,
                    present,
                ) && atts.drop_last()[i].change_id == id;
            assert(counts(atts[i], role, trusted, present));
        } else if backers(atts, role, trusted, present).contains_key(id) {
            assert(counts(atts[last], role, trusted, present));
        }
    }
}

/// A buoy lies only on a change that is here, and that someone trusted attested for
/// this role with a good signature.
pub proof fn law_buoy_is_attested(
    e: Edges,
    atts: Seq<AttestationModel>,
    role: Seq<char>,
    trusted: Set<Seq<u8>>,
    present: Set<Id>,
    change: Id,
    attesters: Seq<Seq<u8>>,
)
    requires
        resolved(e, backers(atts, role, trusted, present)) == (BuoyModel::Resolved { change, attesters }),
    ensures
        present.contains(change),
        exists|i: int|
            0 <= i < atts.len() && #[trigger] counts(atts[i], role, trusted, present) && atts[i].change_id
                == change,
{
    let m = backers(atts, role, trusted, present);
    lemma_backers_finite(atts, role, trusted, present);
    lemma_top_is_maximal(e, m, 0);
    lemma_backed_count(atts, role, trusted, present, change);
}

/// There are finitely many candidates.
proof fn lemma_backers_finite(atts: Seq<AttestationModel>, role: Seq<char>, trusted: Set<Seq<u8>>, present: Set<Id>)
    ensures
        backers(atts, role, trusted, present).dom().finite(),
    decreases atts.len(),
{
    if atts.len() > 0 {
        lemma_backers_finite(atts.drop_last(), role, trusted, present);
    }
}

/// What is at the top is a candidate, and no ancestor of another.
proof fn lemma_top_is_maximal(e: Edges, m: Map<Id, Seq<Seq<u8>>>, i: int)
    requires
        m.dom().finite(),
        0 <= i < maximal(e, m).len(),
    ensures
        m.contains_key(maximal(e, m)[i].0),
        !dominated(e, m.dom(), maximal(e, m)[i].0),
{
    let s = pairs_of::<Oid, Seq<Seq<u8>>>(m);
    lemma_map_is_listed::<Oid, Seq<Seq<u8>>>(m);
    let f = |c: CandidateModel| !dominated(e, m.dom(), c.0);
    let top = s.filter(f);
    let c = top[i];
    assert(top.contains(c));
    lemma_filter_contains(s, f, c);
    let j = choose|j: int| 0 <= j < s.len() && s[j] == c;
    lemma_entry::<Oid, Seq<Seq<u8>>>(s, j);
}

/// Nothing is picked that a newer candidate descends from.
pub proof fn law_buoy_is_newest(e: Edges, m: Map<Id, Seq<Seq<u8>>>, i: int, other: Id)
    requires
        m.dom().finite(),
        0 <= i < maximal(e, m).len(),
        m.contains_key(other),
    ensures
        !closure_of(e, parents_in(e, other)).contains(maximal(e, m)[i].0),
{
    lemma_top_is_maximal(e, m, i);
    if closure_of(e, parents_in(e, other)).contains(maximal(e, m)[i].0) {
        assert(m.dom().contains(other));
        assert(dominated(e, m.dom(), maximal(e, m)[i].0));
    }
}

/// Those who attested a change in a role, as far as they are trusted, their signatures
/// are good, and the change is here, in turn.
pub open spec fn attesters_of(
    atts: Seq<AttestationModel>,
    role: Seq<char>,
    trusted: Set<Seq<u8>>,
    present: Set<Id>,
    id: Id,
) -> Seq<Seq<u8>> {
    atts.filter(
        |a: AttestationModel|
            a.change_id == id && a.role == role && present.contains(id) && trusted.contains(a.attester) && attests(a),
    ).map_values(|a: AttestationModel| a.attester)
}

/// A change is a candidate just where someone trusted attested it, and its attesters are
/// all those who did, each attestation for one, in turn.
pub proof fn law_candidates_are_the_attested(
    atts: Seq<AttestationModel>,
    role: Seq<char>,
    trusted: Set<Seq<u8>>,
    present: Set<Id>,
    id: Id,
)
    ensures
        backers(atts, role, trusted, present).dom().finite(),
        backers(atts, role, trusted, present).contains_key(id) <==> attesters_of(
            atts,
            role,
            trusted,
            present,
            id,
        ).len() > 0,
        backers(atts, role, trusted, present).contains_key(id) ==> backers(atts, role, trusted, present)[id]
            == attesters_of(atts, role, trusted, present, id),
    decreases atts.len(),
{
    reveal(Seq::filter);
    let f = |a: AttestationModel|
        a.change_id == id && a.role == role && present.contains(id) && trusted.contains(a.attester) && attests(a);
    let g = |a: AttestationModel| a.attester;
    lemma_backers_finite(atts, role, trusted, present);
    if atts.len() > 0 {
        let front = atts.drop_last();
        law_candidates_are_the_attested(front, role, trusted, present, id);
        let r = front.filter(f);
        if f(atts.last()) {
            assert(r.push(atts.last()).map_values(g) =~= r.map_values(g).push(atts.last().attester));
            if r.len() == 0 {
                assert(r.map_values(g) =~= Seq::<Seq<u8>>::empty());
            }
        }
    }
}

/// An attested change that no attested change descends from.
pub open spec fn newest(
    e: Edges,
    atts: Seq<AttestationModel>,
    role: Seq<char>,
    trusted: Set<Seq<u8>>,
    present: Set<Id>,
    id: Id,
) -> bool {
    &&& attesters_of(atts, role, trusted, present, id).len() > 0
    &&& forall|c: Id| #[trigger]
        attesters_of(atts, role, trusted, present, c).len() > 0 ==> !descends(e, c, id)
}

proof fn lemma_dominated_descends(e: Edges, ids: Set<Id>, x: Id)
    ensures
        dominated(e, ids, x) <==> exists|c: Id| ids.contains(c) && #[trigger] descends(e, c, x),
{
    if dominated(e, ids, x) {
        let c = choose|c: Id| ids.contains(c) && #[trigger] closure_of(e, parents_in(e, c)).contains(x);
        let y = choose|y: Id| parents_in(e, c).contains(y) && #[trigger] reaches(e, y, x);
        assert(descends(e, c, x));
    }
    if exists|c: Id| ids.contains(c) && #[trigger] descends(e, c, x) {
        let c = choose|c: Id| ids.contains(c) && #[trigger] descends(e, c, x);
        let y = choose|y: Id| e[c].contains(y) && #[trigger] reaches(e, y, x);
        assert(parents_in(e, c).contains(y));
        assert(closure_of(e, parents_in(e, c)).contains(x));
    }
}

/// A buoy lies on the attested change that no attested change descends from, with all
/// its attesters. Where there are several, all are named, in the order of their ids, and
/// where there is none it lies nowhere.
pub proof fn law_buoy_lies_on_the_newest(
    e: Edges,
    atts: Seq<AttestationModel>,
    role: Seq<char>,
    trusted: Set<Seq<u8>>,
    present: Set<Id>,
)
    ensures
        match resolved(e, backers(atts, role, trusted, present)) {
            BuoyModel::Nowhere => forall|id: Id| !#[trigger] newest(e, atts, role, trusted, present, id),
            BuoyModel::Resolved { change, attesters } => {
                &&& forall|id: Id| #[trigger] newest(e, atts, role, trusted, present, id) <==> id == change
                &&& attesters == attesters_of(atts, role, trusted, present, change)
            },
            BuoyModel::Ambiguous { candidates } => {
                &&& candidates.len() > 1
                &&& rising::<Oid, Seq<Seq<u8>>>(candidates)
                &&& forall|id: Id| #[trigger]
                    newest(e, atts, role, trusted, present, id) <==> candidates.contains(
                        (id, attesters_of(atts, role, trusted, present, id)),
                    )
                &&& forall|i: int|
                    0 <= i < candidates.len() ==> newest(
                        e,
                        atts,
                        role,
                        trusted,
                        present,
                        (#[trigger] candidates[i]).0,
                    )
            },
        },
{
    let m = backers(atts, role, trusted, present);
    let s = pairs_of::<Oid, Seq<Seq<u8>>>(m);
    let f = |c: CandidateModel| !dominated(e, m.dom(), c.0);
    let top = maximal(e, m);
    law_candidates_are_the_attested(atts, role, trusted, present, Seq::empty());
    lemma_map_is_listed::<Oid, Seq<Seq<u8>>>(m);
    lemma_part_rises::<Oid, Seq<Seq<u8>>>(s, f);
    assert forall|id: Id| #[trigger] newest(e, atts, role, trusted, present, id) <==> top.contains(
        (id, attesters_of(atts, role, trusted, present, id)),
    ) by {
        let c = (id, attesters_of(atts, role, trusted, present, id));
        law_candidates_are_the_attested(atts, role, trusted, present, id);
        lemma_filter_contains(s, f, c);
        lemma_dominated_descends(e, m.dom(), id);
        if newest(e, atts, role, trusted, present, id) {
            let i = crate::sorted::place_of(s, id);
            lemma_entry::<Oid, Seq<Seq<u8>>>(s, i);
            assert(s[i] == c);
            if dominated(e, m.dom(), id) {
                let d = choose|d: Id| m.dom().contains(d) && #[trigger] descends(e, d, id);
                law_candidates_are_the_attested(atts, role, trusted, present, d);
                assert(attesters_of(atts, role, trusted, present, d).len() > 0);
            }
        }
        if top.contains(c) {
            let i = choose|i: int| 0 <= i < s.len() && s[i] == c;
            lemma_entry::<Oid, Seq<Seq<u8>>>(s, i);
            assert forall|d: Id| #[trigger] attesters_of(atts, role, trusted, present, d).len() > 0 implies !descends(
                e,
                d,
                id,
            ) by {
                law_candidates_are_the_attested(atts, role, trusted, present, d);
                assert(m.dom().contains(d));
            }
        }
    }
    assert forall|i: int| 0 <= i < top.len() implies newest(e, atts, role, trusted, present, (#[trigger] top[i]).0)
        && top[i].1 == attesters_of(atts, role, trusted, present, top[i].0) by {
        let c = top[i];
        assert(top.contains(c));
        lemma_filter_contains(s, f, c);
        let j = choose|j: int| 0 <= j < s.len() && s[j] == c;
        lemma_entry::<Oid, Seq<Seq<u8>>>(s, j);
        law_candidates_are_the_attested(atts, role, trusted, present, c.0);
        assert(top.contains((c.0, attesters_of(atts, role, trusted, present, c.0))));
    }
    if top.len() == 1 {
        assert forall|id: Id| #[trigger] newest(e, atts, role, trusted, present, id) implies id == top[0].0 by {
            assert(top.contains((id, attesters_of(atts, role, trusted, present, id))));
        }
    }
    if top.len() == 0 {
        assert forall|id: Id| !#[trigger] newest(e, atts, role, trusted, present, id) by {
            assert(!top.contains((id, attesters_of(atts, role, trusted, present, id))));
        }
    }
}

/// Of finitely many changes of an acyclic history, some is such that none of them
/// descends from it.
proof fn lemma_some_newest(e: Edges, ids: Set<Id>) -> (x: Id)
    requires
        acyclic(e),
        ids.finite(),
        ids.len() > 0,
    ensures
        ids.contains(x),
        forall|c: Id| #[trigger] ids.contains(c) ==> !descends(e, c, x),
    decreases ids.len(),
{
    let a = ids.choose();
    let rest = ids.remove(a);
    assert(!descends(e, a, a)) by {
        if descends(e, a, a) {
            let y = choose|y: Id| e[a].contains(y) && #[trigger] reaches(e, y, a);
            assert(e[a].contains(y) && reaches(e, y, a));
        }
    }
    if rest.len() == 0 {
        assert forall|c: Id| #[trigger] ids.contains(c) implies !descends(e, c, a) by {
            if c != a {
                assert(rest.contains(c));
            }
        }
        a
    } else {
        let b = lemma_some_newest(e, rest);
        if descends(e, a, b) {
            assert forall|c: Id| #[trigger] ids.contains(c) implies !descends(e, c, a) by {
                if c != a && descends(e, c, a) {
                    let y = choose|y: Id| e[c].contains(y) && #[trigger] reaches(e, y, a);
                    let z = choose|z: Id| e[a].contains(z) && #[trigger] reaches(e, z, b);
                    crate::ancestry::lemma_reaches_step(e, y, a, z);
                    crate::ancestry::lemma_reaches_transitive(e, y, z, b);
                    assert(descends(e, c, b));
                    assert(rest.contains(c));
                }
            }
            a
        } else {
            assert forall|c: Id| #[trigger] ids.contains(c) implies !descends(e, c, b) by {
                if c != a {
                    assert(rest.contains(c));
                }
            }
            b
        }
    }
}

/// Where history has no cycle and someone trusted attested a change that is here, the
/// buoy lies somewhere.
pub proof fn law_attested_buoy_lies_somewhere(
    e: Edges,
    atts: Seq<AttestationModel>,
    role: Seq<char>,
    trusted: Set<Seq<u8>>,
    present: Set<Id>,
    i: int,
)
    requires
        acyclic(e),
        0 <= i < atts.len(),
        atts[i].role == role,
        attests(atts[i]),
        trusted.contains(atts[i].attester),
        present.contains(atts[i].change_id),
    ensures
        !(resolved(e, backers(atts, role, trusted, present)) is Nowhere),
{
    let m = backers(atts, role, trusted, present);
    let id = atts[i].change_id;
    let f = |a: AttestationModel|
        a.change_id == id && a.role == role && present.contains(id) && trusted.contains(a.attester) && attests(a);
    assert(atts.contains(atts[i]));
    lemma_filter_contains(atts, f, atts[i]);
    assert(atts.filter(f).len() > 0);
    law_candidates_are_the_attested(atts, role, trusted, present, id);
    assert(m.dom().contains(id));
    if m.dom().len() == 0 {
        assert(m.dom() =~= Set::<Id>::empty());
    }
    let x = lemma_some_newest(e, m.dom());
    law_candidates_are_the_attested(atts, role, trusted, present, x);
    assert(newest(e, atts, role, trusted, present, x)) by {
        assert forall|c: Id| #[trigger] attesters_of(atts, role, trusted, present, c).len() > 0 implies !descends(
            e,
            c,
            x,
        ) by {
            law_candidates_are_the_attested(atts, role, trusted, present, c);
            assert(m.dom().contains(c));
        }
    }
    law_buoy_lies_on_the_newest(e, atts, role, trusted, present);
}

} // verus!
