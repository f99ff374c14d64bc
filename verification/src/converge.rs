//! Convergence: what becomes of each path when two lines meet.
//!
//! Merging needs plaintext. This module asks for it through a [`KeyOracle`] and
//! decides nothing else: an identity that can open both sides merges them, one
//! that cannot leaves the merge to a keyholder and drops neither side.

use crate::path::normal_path;
use crate::path_map::{put_at, PathKey, PathMap, Paths, Placed};
use crate::sorted::{among, lemma_among, lemma_entry, map_of, rising, SortedMap, SortedSet};
use crate::types::{MergeOutcome, Oid, OutcomeModel, RepoPath, Tree, TreeModel, Visibility, VisibilityModel};
use crate::value::{same_bytes, Value};
use vstd::prelude::*;

verus! {

/// The plaintext behind each address, for one reader at one time.
pub type Opens = spec_fn(Seq<u8>) -> Option<Seq<u8>>;

/// The window into a repository's content.
pub trait KeyOracle {
    /// What [`KeyOracle::open`] answers at `now`.
    spec fn opens(&self, now: u64) -> Opens;

    /// The plaintext at an address, if this identity may read it now.
    fn open(&self, oid: &Oid, now: u64) -> (r: Option<Vec<u8>>)
        ensures
            match r {
                Some(b) => self.opens(now)(oid.deep_view()) == Some(b@),
                None => self.opens(now)(oid.deep_view()) is None,
            },
    ;
}

/// Contents that are held in the clear open at any time.
impl KeyOracle for SortedMap<Oid, Vec<u8>> {
    open spec fn opens(&self, now: u64) -> Opens {
        |a: Seq<u8>|
            if self.deep_view().contains_key(a) {
                Some(self.deep_view()[a])
            } else {
                None
            }
    }

    fn open(&self, oid: &Oid, now: u64) -> (r: Option<Vec<u8>>) {
        match self.get(oid) {
            Some(b) => {
                assert(b.deep_view() =~= b@);
                Some(b.dup())
            },
            None => None,
        }
    }
}

// ---------------------------------------------------------------------------
// Lines
// ---------------------------------------------------------------------------

/// The byte that ends a line.
pub const NEWLINE: u8 = 10;

/// `b[i..j]` is a line of `b`: it begins at the start or after a newline, ends at
/// the end or before one, and holds none.
pub open spec fn is_cut(b: Seq<u8>, i: int, j: int) -> bool {
    &&& 0 <= i <= j <= b.len()
    &&& i == 0 || b[i - 1] == NEWLINE
    &&& j == b.len() || b[j] == NEWLINE
    &&& forall|k: int| i <= k < j ==> b[k] != NEWLINE
}

/// `l` is one of the lines of `b`.
pub open spec fn is_line(b: Seq<u8>, l: Seq<u8>) -> bool {
    exists|i: int, j: int| #[trigger] is_cut(b, i, j) && l == b.subrange(i, j)
}

/// Every line of `a` is a line of `b`.
pub open spec fn lines_within(a: Seq<u8>, b: Seq<u8>) -> bool {
    forall|l: Seq<u8>| #[trigger] is_line(a, l) ==> is_line(b, l)
}

/// `l` is a line of `b` that ends before `end`.
spec fn is_line_before(b: Seq<u8>, l: Seq<u8>, end: int) -> bool {
    exists|i: int, j: int| #[trigger] is_cut(b, i, j) && j < end && l == b.subrange(i, j)
}

/// The only line that ends at `j` is the one that begins at `i`.
proof fn lemma_cut_unique(b: Seq<u8>, i: int, i2: int, j: int)
    requires
        is_cut(b, i, j),
        is_cut(b, i2, j),
    ensures
        i == i2,
{
    if i < i2 {
        assert(b[i2 - 1] != NEWLINE);
    } else if i2 < i {
        assert(b[i - 1] != NEWLINE);
    }
}

/// The set of lines.
fn line_set(b: &Vec<u8>) -> (r: SortedSet<Vec<u8>>)
    ensures
        forall|l: Seq<u8>| #[trigger] r.deep_view().contains(l) <==> is_line(b@, l),
{
    let ghost s = b@;
    let mut r: SortedSet<Vec<u8>> = SortedSet::new();
    let mut start: usize = 0;
    let mut i: usize = 0;
    while i < b.len()
        invariant
            s == b@,
            0 <= start <= i <= s.len(),
            start == 0 || s[start - 1] == NEWLINE,
            forall|k: int| start <= k < i ==> s[k] != NEWLINE,
            forall|l: Seq<u8>| #[trigger] r.deep_view().contains(l) <==> is_line_before(s, l, start as int),
        decreases s.len() - i,
    {
        if b[i] == NEWLINE {
            let l = vstd::slice::slice_to_vec(vstd::slice::slice_subrange(b.as_slice(), start, i));
            assert(l.deep_view() =~= s.subrange(start as int, i as int));
            let ghost had = r.deep_view();
            r.insert(l);
            proof {
                let cut = s.subrange(start as int, i as int);
                assert(is_cut(s, start as int, i as int));
                assert forall|l: Seq<u8>| #[trigger] r.deep_view().contains(l) <==> is_line_before(
                    s,
                    l,
                    i as int + 1,
                ) by {
                    if is_line_before(s, l, i as int + 1) {
                        let (x, y) = choose|x: int, y: int| #[trigger]
                            is_cut(s, x, y) && y < i as int + 1 && l == s.subrange(x, y);
                        if y == i {
                            lemma_cut_unique(s, start as int, x, y);
                        } else {
                            if y >= start {
                                assert(s[y] != NEWLINE);
                            }
                            assert(is_line_before(s, l, start as int));
                        }
                    }
                    if is_line_before(s, l, start as int) {
                        let (x, y) = choose|x: int, y: int| #[trigger]
                            is_cut(s, x, y) && y < start as int && l == s.subrange(x, y);
                        assert(is_cut(s, x, y) && y < i as int + 1);
                    }
                }
            }
            start = i + 1;
        }
        i = i + 1;
    }
    let l = vstd::slice::slice_to_vec(vstd::slice::slice_subrange(b.as_slice(), start, b.len()));
    assert(l.deep_view() =~= s.subrange(start as int, s.len() as int));
    r.insert(l);
    proof {
        let end = s.len() as int;
        assert(is_cut(s, start as int, end));
        assert forall|l: Seq<u8>| #[trigger] r.deep_view().contains(l) <==> is_line(s, l) by {
            if is_line(s, l) {
                let (x, y) = choose|x: int, y: int| #[trigger] is_cut(s, x, y) && l == s.subrange(x, y);
                if y == end {
                    lemma_cut_unique(s, start as int, x, y);
                } else {
                    if y >= start {
                        assert(s[y] != NEWLINE);
                    }
                    assert(is_line_before(s, l, start as int));
                }
            }
            if is_line_before(s, l, start as int) {
                let (x, y) = choose|x: int, y: int| #[trigger]
                    is_cut(s, x, y) && y < start as int && l == s.subrange(x, y);
                assert(is_cut(s, x, y));
            }
        }
    }
    r
}

/// Whether one set of lines lies within another.
fn is_subset(a: &SortedSet<Vec<u8>>, b: &SortedSet<Vec<u8>>) -> (r: bool)
    ensures
        r == a.deep_view().subset_of(b.deep_view()),
{
    let n: usize = a.len();
    let mut i: usize = 0;
    while i < n
        invariant
            0 <= i <= n,
            n == a.members().len(),
            forall|j: int| 0 <= j < i ==> b.deep_view().contains(#[trigger] a.members()[j]),
        decreases n - i,
    {
        let l = a.at(i);
        if !b.contains(l) {
            assert(a.deep_view().contains(l.deep_view()));
            return false;
        }
        i = i + 1;
    }
    proof {
        assert forall|l: Seq<u8>| a.deep_view().contains(l) implies b.deep_view().contains(l) by {
            assert(a.members().contains(l));
            let j = choose|j: int| 0 <= j < a.members().len() && a.members()[j] == l;
            assert(b.deep_view().contains(a.members()[j]));
        }
    }
    true
}

/// Whether every line of `a` is a line of `b`, and the other way round.
fn compare_lines(a: &Vec<u8>, b: &Vec<u8>) -> (r: (bool, bool))
    ensures
        r.0 == lines_within(a@, b@),
        r.1 == lines_within(b@, a@),
{
    let al = line_set(a);
    let bl = line_set(b);
    let x = is_subset(&al, &bl);
    let y = is_subset(&bl, &al);
    proof {
        if x {
            assert forall|l: Seq<u8>| #[trigger] is_line(a@, l) implies is_line(b@, l) by {
                assert(al.deep_view().contains(l));
                assert(bl.deep_view().contains(l));
            }
        } else {
            let l = choose|l: Seq<u8>| al.deep_view().contains(l) && !bl.deep_view().contains(l);
            assert(is_line(a@, l) && !is_line(b@, l));
        }
        if y {
            assert forall|l: Seq<u8>| #[trigger] is_line(b@, l) implies is_line(a@, l) by {
                assert(bl.deep_view().contains(l));
                assert(al.deep_view().contains(l));
            }
        } else {
            let l = choose|l: Seq<u8>| bl.deep_view().contains(l) && !al.deep_view().contains(l);
            assert(is_line(b@, l) && !is_line(a@, l));
        }
    }
    (x, y)
}

// ---------------------------------------------------------------------------
// One path
// ---------------------------------------------------------------------------

/// What to do with one path.
#[derive(Clone, Copy, Debug)]
pub enum MergeDecision {
    /// The same address on both sides.
    Converged,
    /// Only the other side has the path.
    AdoptTheirs,
    /// One side subsumes the other; its address wins.
    Merged { winner: Oid },
    /// Both sides have edits of their own.
    Conflict { ours: Oid, theirs: Oid },
    /// At least one side cannot be opened here.
    Relayed,
}

/// The model of a [`MergeDecision`].
pub enum DecisionModel {
    Converged,
    AdoptTheirs,
    Merged { winner: Seq<u8> },
    Conflict { ours: Seq<u8>, theirs: Seq<u8> },
    Relayed,
}

impl DeepView for MergeDecision {
    type V = DecisionModel;

    open spec fn deep_view(&self) -> DecisionModel {
        match self {
            MergeDecision::Converged => DecisionModel::Converged,
            MergeDecision::AdoptTheirs => DecisionModel::AdoptTheirs,
            MergeDecision::Merged { winner } => DecisionModel::Merged { winner: winner.deep_view() },
            MergeDecision::Conflict { ours, theirs } => DecisionModel::Conflict {
                ours: ours.deep_view(),
                theirs: theirs.deep_view(),
            },
            MergeDecision::Relayed => DecisionModel::Relayed,
        }
    }
}

/// The label that a decision is reported under.
pub open spec fn outcome_of(d: DecisionModel) -> OutcomeModel {
    match d {
        DecisionModel::Converged => OutcomeModel::Converged,
        DecisionModel::AdoptTheirs => OutcomeModel::Converged,
        DecisionModel::Merged { winner } => OutcomeModel::Merged,
        DecisionModel::Conflict { ours, theirs } => OutcomeModel::Conflict { ours, theirs },
        DecisionModel::Relayed => OutcomeModel::RelayedUnmerged,
    }
}

impl MergeDecision {
    /// The label that this decision is reported under.
    fn outcome(&self) -> (r: MergeOutcome)
        ensures
            r.deep_view() == outcome_of(self.deep_view()),
    {
        match self {
            MergeDecision::Converged => MergeOutcome::Converged,
            MergeDecision::AdoptTheirs => MergeOutcome::Converged,
            MergeDecision::Merged { .. } => MergeOutcome::Merged,
            MergeDecision::Conflict { ours, theirs } => MergeOutcome::Conflict {
                ours: *ours,
                theirs: *theirs,
            },
            MergeDecision::Relayed => MergeOutcome::RelayedUnmerged,
        }
    }
}

/// Two plaintexts that both can be read: equal content takes theirs, a side whose
/// lines contain the other's wins, anything else is a conflict.
pub open spec fn line_decision(ours: Seq<u8>, theirs: Seq<u8>, a: Seq<u8>, b: Seq<u8>) -> DecisionModel {
    if a == b || lines_within(a, b) {
        DecisionModel::Merged { winner: theirs }
    } else if lines_within(b, a) {
        DecisionModel::Merged { winner: ours }
    } else {
        DecisionModel::Conflict { ours, theirs }
    }
}

/// Two sides with different addresses. A side whose content is the base's has not
/// been edited since the lines parted: the other one wins.
pub open spec fn pair_decision(
    ours: Seq<u8>,
    theirs: Seq<u8>,
    base: Option<Seq<u8>>,
    opens: Opens,
) -> DecisionModel {
    match (opens(ours), opens(theirs)) {
        (Some(a), Some(b)) => {
            let base_plain = match base {
                Some(o) => opens(o),
                None => None,
            };
            if base_plain == Some(b) && a != b {
                DecisionModel::Merged { winner: ours }
            } else if base_plain == Some(a) && a != b {
                DecisionModel::Merged { winner: theirs }
            } else {
                line_decision(ours, theirs, a, b)
            }
        },
        _ => DecisionModel::Relayed,
    }
}

/// The rule for one path.
pub open spec fn path_decision(
    ours: Option<Seq<u8>>,
    theirs: Seq<u8>,
    base: Option<Seq<u8>>,
    opens: Opens,
) -> DecisionModel {
    match ours {
        None => DecisionModel::AdoptTheirs,
        Some(o) => if o == theirs {
            DecisionModel::Converged
        } else {
            pair_decision(o, theirs, base, opens)
        },
    }
}

/// The address under a path, if there is one.
pub open spec fn address_at(t: TreeModel, p: Seq<char>) -> Option<Seq<u8>> {
    if t.contains_key(p) {
        Some(t[p].v.0)
    } else {
        None
    }
}

/// The address under a path of a tree that may be unknown.
pub open spec fn base_at(t: Option<TreeModel>, p: Seq<char>) -> Option<Seq<u8>> {
    match t {
        Some(b) => address_at(b, p),
        None => None,
    }
}

fn line_set_merge(ours: &Oid, theirs: &Oid, a: &Vec<u8>, b: &Vec<u8>) -> (r: MergeDecision)
    ensures
        r.deep_view() == line_decision(ours.deep_view(), theirs.deep_view(), a@, b@),
{
    if same_bytes(a.as_slice(), b.as_slice()) {
        return MergeDecision::Merged { winner: *theirs };
    }
    let (fwd, back) = compare_lines(a, b);
    if fwd {
        MergeDecision::Merged { winner: *theirs }
    } else if back {
        MergeDecision::Merged { winner: *ours }
    } else {
        MergeDecision::Conflict { ours: *ours, theirs: *theirs }
    }
}

fn merge_pair<O: KeyOracle>(ours: &Oid, theirs: &Oid, base: Option<Oid>, oracle: &O, now: u64) -> (r:
    MergeDecision)
    ensures
        r.deep_view() == pair_decision(
            ours.deep_view(),
            theirs.deep_view(),
            base.deep_view(),
            oracle.opens(now),
        ),
{
    match (oracle.open(ours, now), oracle.open(theirs, now)) {
        (Some(a), Some(b)) => {
            let base_plain = match base {
                Some(o) => oracle.open(&o, now),
                None => None,
            };
            if let Some(p) = base_plain {
                let is_b = same_bytes(p.as_slice(), b.as_slice());
                let is_a = same_bytes(p.as_slice(), a.as_slice());
                if is_b && !is_a {
                    return MergeDecision::Merged { winner: *ours };
                }
                if is_a && !is_b {
                    return MergeDecision::Merged { winner: *theirs };
                }
            }
            line_set_merge(ours, theirs, &a, &b)
        },
        _ => MergeDecision::Relayed,
    }
}

fn reconcile_path<O: KeyOracle>(
    ours: Option<&(Oid, Visibility)>,
    their_oid: &Oid,
    base: Option<Oid>,
    oracle: &O,
    now: u64,
) -> (r: MergeDecision)
    ensures
        r.deep_view() == path_decision(
            (match ours {
                Some(e) => Some(e.0.deep_view()),
                None => None,
            }),
            their_oid.deep_view(),
            base.deep_view(),
            oracle.opens(now),
        ),
{
    match ours {
        None => MergeDecision::AdoptTheirs,
        Some(e) => if e.0.same(their_oid) {
            MergeDecision::Converged
        } else {
            merge_pair(&e.0, their_oid, base, oracle, now)
        },
    }
}

/// The model of a tree that may be unknown.
pub open spec fn base_model(t: Option<&Tree>) -> Option<TreeModel> {
    match t {
        Some(b) => Some(b.deep_view()),
        None => None,
    }
}

/// The address under a path of the base.
fn base_oid(base: Option<&Tree>, path: &RepoPath) -> (r: Option<Oid>)
    ensures
        r.deep_view() == base_at(base_model(base), normal_path(path.deep_view())),
{
    match base {
        Some(b) => match b.get(path) {
            Some(e) => Some(e.0),
            None => None,
        },
        None => None,
    }
}

/// The decision on a path of `theirs`.
pub open spec fn decision_at(
    ours: TreeModel,
    theirs: TreeModel,
    base: Option<TreeModel>,
    opens: Opens,
    p: Seq<char>,
) -> DecisionModel {
    path_decision(address_at(ours, p), theirs[p].v.0, base_at(base, p), opens)
}

// ---------------------------------------------------------------------------
// Trees
// ---------------------------------------------------------------------------

/// The model of a map from path to outcome.
pub type Outcomes = Paths<OutcomeModel>;

/// The model of a map from path to two addresses.
pub type Conflicts = Paths<(Seq<u8>, Seq<u8>)>;

/// One outcome for each path of the incoming tree.
pub open spec fn classified(
    local: TreeModel,
    incoming: TreeModel,
    base: Option<TreeModel>,
    opens: Opens,
) -> Outcomes {
    Map::new(
        |p: Seq<char>| incoming.contains_key(p),
        |p: Seq<char>|
            Placed { text: incoming[p].text, v: outcome_of(decision_at(local, incoming, base, opens, p)) },
    )
}

/// Labels every path that an incoming tree touches.
pub fn classify<O: KeyOracle>(
    local: &Tree,
    incoming: &Tree,
    base: Option<&Tree>,
    oracle: &O,
    now: u64,
) -> (r: PathMap<MergeOutcome>)
    ensures
        r.deep_view() == classified(
            local.deep_view(),
            incoming.deep_view(),
            base_model(base),
            oracle.opens(now),
        ),
{
    let ghost f = oracle.opens(now);
    let ghost want = classified(local.deep_view(), incoming.deep_view(), base_model(base), f);
    let n: usize = incoming.len();
    let ghost s = incoming.pairs();
    let mut r: PathMap<MergeOutcome> = PathMap::new();
    let mut i: usize = 0;
    proof {
        lemma_among::<PathKey, Placed<(Seq<u8>, VisibilityModel)>>(s, 0);
    }
    while i < n
        invariant
            0 <= i <= n,
            n == s.len(),
            s == incoming.pairs(),
            rising::<PathKey, Placed<(Seq<u8>, VisibilityModel)>>(s),
            incoming.deep_view() == map_of(s),
            f == oracle.opens(now),
            want == classified(local.deep_view(), incoming.deep_view(), base_model(base), f),
            forall|p: Seq<char>| #[trigger] r.deep_view().contains_key(p) <==> among(s, i as int, p),
            forall|p: Seq<char>| #[trigger] r.deep_view().contains_key(p) ==> r.deep_view()[p] == want[p],
        decreases n - i,
    {
        proof {
            lemma_among::<PathKey, Placed<(Seq<u8>, VisibilityModel)>>(s, i as int);
            lemma_entry::<PathKey, Placed<(Seq<u8>, VisibilityModel)>>(s, i as int);
        }
        let path = incoming.path_at(i);
        let entry = incoming.value_at(i);
        let d = reconcile_path(local.get(path), &entry.0, base_oid(base, path), oracle, now);
        assert(d.deep_view() == decision_at(
            local.deep_view(),
            incoming.deep_view(),
            base_model(base),
            f,
            s[i as int].0,
        ));
        r.insert(path.dup(), d.outcome());
        i = i + 1;
    }
    proof {
        lemma_among::<PathKey, Placed<(Seq<u8>, VisibilityModel)>>(s, n as int);
        assert(r.deep_view() =~= want);
    }
    r
}

/// Two lines reconciled into one.
#[derive(Debug)]
pub struct Merge {
    /// The tree that the merged change carries.
    pub tree: Tree,
    /// The paths that need a human, with both addresses.
    pub conflicts: PathMap<(Oid, Oid)>,
    /// The outcome of every path of the other side.
    pub outcomes: PathMap<MergeOutcome>,
}

/// The other side's entry goes into the tree.
pub open spec fn takes_theirs(d: DecisionModel, their_oid: Seq<u8>) -> bool {
    match d {
        DecisionModel::AdoptTheirs => true,
        DecisionModel::Merged { winner } => winner == their_oid,
        _ => false,
    }
}

/// Their entry under a path, as it goes into our tree: a path that is there stays as it
/// is written.
pub open spec fn adopted(ours: TreeModel, theirs: TreeModel, p: Seq<char>) -> Placed<(Seq<u8>, VisibilityModel)> {
    Placed {
        text: if ours.contains_key(p) {
            ours[p].text
        } else {
            theirs[p].text
        },
        v: theirs[p].v,
    }
}

/// The merged tree: ours, with theirs where their side is adopted.
pub open spec fn merged_tree(
    ours: TreeModel,
    theirs: TreeModel,
    base: Option<TreeModel>,
    opens: Opens,
) -> TreeModel {
    Map::new(
        |p: Seq<char>| ours.contains_key(p) || theirs.contains_key(p),
        |p: Seq<char>|
            if theirs.contains_key(p) && takes_theirs(
                decision_at(ours, theirs, base, opens, p),
                theirs[p].v.0,
            ) {
                adopted(ours, theirs, p)
            } else {
                ours[p]
            },
    )
}

/// The conflicts between two trees.
pub open spec fn merge_conflicts(
    ours: TreeModel,
    theirs: TreeModel,
    base: Option<TreeModel>,
    opens: Opens,
) -> Conflicts {
    Map::new(
        |p: Seq<char>|
            theirs.contains_key(p) && decision_at(ours, theirs, base, opens, p) is Conflict,
        |p: Seq<char>| Placed { text: theirs[p].text, v: (ours[p].v.0, theirs[p].v.0) },
    )
}

/// Reconciles two trees into the one that a merged change carries. A path with a
/// conflict, and one that cannot be opened here, keeps ours.
pub fn merge_trees<O: KeyOracle>(
    ours: &Tree,
    theirs: &Tree,
    base: Option<&Tree>,
    oracle: &O,
    now: u64,
) -> (r: Merge)
    ensures
        r.tree.deep_view() == merged_tree(
            ours.deep_view(),
            theirs.deep_view(),
            base_model(base),
            oracle.opens(now),
        ),
        r.conflicts.deep_view() == merge_conflicts(
            ours.deep_view(),
            theirs.deep_view(),
            base_model(base),
            oracle.opens(now),
        ),
        r.outcomes.deep_view() == classified(
            ours.deep_view(),
            theirs.deep_view(),
            base_model(base),
            oracle.opens(now),
        ),
{
    let ghost f = oracle.opens(now);
    let ghost (o, t, b) = (ours.deep_view(), theirs.deep_view(), base_model(base));
    let n: usize = theirs.len();
    let ghost s = theirs.pairs();
    let mut tree = ours.dup();
    let mut conflicts: PathMap<(Oid, Oid)> = PathMap::new();
    let mut outcomes: PathMap<MergeOutcome> = PathMap::new();
    let mut i: usize = 0;
    proof {
        lemma_among::<PathKey, Placed<(Seq<u8>, VisibilityModel)>>(s, 0);
    }
    while i < n
        invariant
            0 <= i <= n,
            n == s.len(),
            s == theirs.pairs(),
            rising::<PathKey, Placed<(Seq<u8>, VisibilityModel)>>(s),
            t == map_of(s),
            o == ours.deep_view(),
            t == theirs.deep_view(),
            b == base_model(base),
            f == oracle.opens(now),
            forall|p: Seq<char>| #[trigger] tree.deep_view().contains_key(p) <==> o.contains_key(p) || among(
                s,
                i as int,
                p,
            ),
            forall|p: Seq<char>| #[trigger] tree.deep_view().contains_key(p) ==> tree.deep_view()[p] == (
            if among(s, i as int, p) {
                merged_tree(o, t, b, f)[p]
            } else {
                o[p]
            }),
            forall|p: Seq<char>| #[trigger] outcomes.deep_view().contains_key(p) <==> among(s, i as int, p),
            forall|p: Seq<char>| #[trigger] outcomes.deep_view().contains_key(p) ==> outcomes.deep_view()[p]
                == classified(o, t, b, f)[p],
            forall|p: Seq<char>| #[trigger] conflicts.deep_view().contains_key(p) <==> among(s, i as int, p)
                && decision_at(o, t, b, f, p) is Conflict,
            forall|p: Seq<char>| #[trigger] conflicts.deep_view().contains_key(p) ==> conflicts.deep_view()[p]
                == merge_conflicts(o, t, b, f)[p],
        decreases n - i,
    {
        proof {
            lemma_among::<PathKey, Placed<(Seq<u8>, VisibilityModel)>>(s, i as int);
            lemma_entry::<PathKey, Placed<(Seq<u8>, VisibilityModel)>>(s, i as int);
        }
        let path = theirs.path_at(i);
        let entry = theirs.value_at(i);
        let ghost p = s[i as int].0;
        let ghost tree0 = tree.deep_view();
        let ghost conflicts0 = conflicts.deep_view();
        let d = reconcile_path(ours.get(path), &entry.0, base_oid(base, path), oracle, now);
        assert(d.deep_view() == decision_at(o, t, b, f, p));
        assert(merged_tree(o, t, b, f).contains_key(p));
        match &d {
            MergeDecision::Converged => {},
            MergeDecision::Relayed => {},
            MergeDecision::AdoptTheirs => {
                tree.insert(path.dup(), entry.dup());
                assert(tree.deep_view() == tree0.insert(p, adopted(o, t, p)));
            },
            MergeDecision::Merged { winner } => {
                if winner.same(&entry.0) {
                    tree.insert(path.dup(), entry.dup());
                    assert(tree.deep_view() == tree0.insert(p, adopted(o, t, p)));
                }
            },
            MergeDecision::Conflict { ours: x, theirs: y } => {
                assert(x.deep_view() == o[p].v.0 && y.deep_view() == t[p].v.0);
                conflicts.insert(path.dup(), (*x, *y));
                assert(conflicts.deep_view() == put_at(conflicts0, t[p].text, (o[p].v.0, t[p].v.0)));
                assert(merge_conflicts(o, t, b, f).contains_key(p));
            },
        }
        assert(classified(o, t, b, f).contains_key(p));
        outcomes.insert(path.dup(), d.outcome());
        i = i + 1;
    }
    proof {
        lemma_among::<PathKey, Placed<(Seq<u8>, VisibilityModel)>>(s, n as int);
        assert(tree.deep_view() =~= merged_tree(o, t, b, f));
        assert(conflicts.deep_view() =~= merge_conflicts(o, t, b, f));
        assert(outcomes.deep_view() =~= classified(o, t, b, f));
    }
    Merge { tree, conflicts, outcomes }
}

/// How much human attention an outcome needs.
pub open spec fn attention(o: OutcomeModel) -> int {
    match o {
        OutcomeModel::Converged => 0,
        OutcomeModel::Merged => 1,
        OutcomeModel::RelayedUnmerged => 2,
        OutcomeModel::Conflict { .. } => 3,
    }
}

/// The outcome that needs more attention, the first of two that need the same.
pub open spec fn worst_of(a: OutcomeModel, b: OutcomeModel) -> OutcomeModel {
    if attention(a) >= attention(b) {
        a
    } else {
        b
    }
}

fn rank(o: &MergeOutcome) -> (r: u8)
    ensures
        r == attention(o.deep_view()),
{
    match o {
        MergeOutcome::Converged => 0,
        MergeOutcome::Merged => 1,
        MergeOutcome::RelayedUnmerged => 2,
        MergeOutcome::Conflict { .. } => 3,
    }
}

/// Of two outcomes the one that needs more human attention.
pub fn worst(a: MergeOutcome, b: MergeOutcome) -> (r: MergeOutcome)
    ensures
        r.deep_view() == worst_of(a.deep_view(), b.deep_view()),
{
    if rank(&a) >= rank(&b) {
        a
    } else {
        b
    }
}

// ---------------------------------------------------------------------------
// Laws
// ---------------------------------------------------------------------------

/// A merge drops no path, and every entry of the merged tree is one side's entry
/// under that path.
pub proof fn law_merge_invents_nothing(
    ours: TreeModel,
    theirs: TreeModel,
    base: Option<TreeModel>,
    opens: Opens,
    p: Seq<char>,
)
    ensures
        merged_tree(ours, theirs, base, opens).contains_key(p) <==> ours.contains_key(p)
            || theirs.contains_key(p),
        merged_tree(ours, theirs, base, opens).contains_key(p) ==> {
            let e = merged_tree(ours, theirs, base, opens)[p];
            (ours.contains_key(p) && e == ours[p]) || (theirs.contains_key(p) && e == adopted(ours, theirs, p))
        },
{
}

/// A path in conflict keeps our entry, and the conflict names both addresses.
pub proof fn law_conflict_keeps_both_sides(
    ours: TreeModel,
    theirs: TreeModel,
    base: Option<TreeModel>,
    opens: Opens,
    p: Seq<char>,
)
    requires
        merge_conflicts(ours, theirs, base, opens).contains_key(p),
    ensures
        ours.contains_key(p),
        merged_tree(ours, theirs, base, opens)[p] == ours[p],
        merge_conflicts(ours, theirs, base, opens)[p].v == (ours[p].v.0, theirs[p].v.0),
        classified(ours, theirs, base, opens)[p].v == (OutcomeModel::Conflict {
            ours: ours[p].v.0,
            theirs: theirs[p].v.0,
        }),
{
}

/// An identity that can open nothing never reports a merge or a conflict.
pub proof fn law_relay_never_merges(
    ours: TreeModel,
    theirs: TreeModel,
    base: Option<TreeModel>,
    opens: Opens,
    p: Seq<char>,
)
    requires
        forall|o: Seq<u8>| (#[trigger] opens(o)) is None,
        theirs.contains_key(p),
    ensures
        merge_conflicts(ours, theirs, base, opens) == Map::<Seq<char>, Placed<(Seq<u8>, Seq<u8>)>>::empty(),
        classified(ours, theirs, base, opens)[p].v is Converged || classified(ours, theirs, base, opens)[p].v
            is RelayedUnmerged,
        ours.contains_key(p) ==> merged_tree(ours, theirs, base, opens)[p] == ours[p],
{
    assert(merge_conflicts(ours, theirs, base, opens) =~= Map::<Seq<char>, Placed<(Seq<u8>, Seq<u8>)>>::empty());
}

/// A side that has not been edited since the base never conflicts: the other
/// side's content wins.
pub proof fn law_untouched_side_yields(ours: Seq<u8>, theirs: Seq<u8>, base: Seq<u8>, opens: Opens)
    requires
        opens(ours) is Some,
        opens(theirs) is Some,
        ours != theirs,
        opens(ours) != opens(theirs),
    ensures
        opens(base) == opens(theirs) ==> pair_decision(ours, theirs, Some(base), opens) == (
        DecisionModel::Merged { winner: ours }),
        opens(base) == opens(ours) ==> pair_decision(ours, theirs, Some(base), opens) == (
        DecisionModel::Merged { winner: theirs }),
{
}

/// Merging a tree with itself changes nothing and every path converges.
pub proof fn law_merge_with_itself(t: TreeModel, base: Option<TreeModel>, opens: Opens, p: Seq<char>)
    ensures
        merged_tree(t, t, base, opens) == t,
        merge_conflicts(t, t, base, opens) == Map::<Seq<char>, Placed<(Seq<u8>, Seq<u8>)>>::empty(),
        t.contains_key(p) ==> classified(t, t, base, opens)[p].v is Converged,
{
    assert(merged_tree(t, t, base, opens) =~= t);
    assert(merge_conflicts(t, t, base, opens) =~= Map::<Seq<char>, Placed<(Seq<u8>, Seq<u8>)>>::empty());
}

/// Content without a newline is one line; a newline ends a line, and what follows it are
/// lines of their own, if only an empty one.
pub proof fn law_newlines_part_lines(x: Seq<u8>, y: Seq<u8>, l: Seq<u8>)
    requires
        !x.contains(10u8),
    ensures
        is_line(x, l) <==> l == x,
        is_line(x.push(10u8) + y, l) <==> l == x || is_line(y, l),
{
    let n = x.len() as int;
    let b = x.push(10u8) + y;
    assert forall|k: int| 0 <= k < n implies x[k] != 10u8 by {
        assert(x.contains(x[k]));
    }
    assert(is_cut(x, 0, n));
    assert(x.subrange(0, n) =~= x);
    if is_line(x, l) {
        let (i, j) = choose|i: int, j: int| #[trigger] is_cut(x, i, j) && l == x.subrange(i, j);
        assert(i == 0 && j == n);
    }
    assert(b[n] == 10u8);
    assert(is_cut(b, 0, n)) by {
        assert forall|k: int| 0 <= k < n implies b[k] != NEWLINE by {
            assert(b[k] == x[k]);
        }
    }
    assert(b.subrange(0, n) =~= x);
    if is_line(b, l) {
        let (i, j) = choose|i: int, j: int| #[trigger] is_cut(b, i, j) && l == b.subrange(i, j);
        if i <= n {
            if i > 0 {
                assert(b[i - 1] == x[i - 1]);
            }
            if j < n {
                assert(b[j] == x[j]);
            }
            if n < j {
                assert(b[n] != NEWLINE);
            }
            assert(i == 0 && j == n);
        } else {
            let (c, d) = (i - n - 1, j - n - 1);
            assert(is_cut(y, c, d)) by {
                if c > 0 {
                    assert(b[i - 1] == y[c - 1]);
                }
                if d < y.len() {
                    assert(b[j] == y[d]);
                }
                assert forall|k: int| c <= k < d implies y[k] != NEWLINE by {
                    assert(b[k + n + 1] == y[k]);
                }
            }
            assert(y.subrange(c, d) =~= l);
        }
    }
    if is_line(y, l) {
        let (c, d) = choose|c: int, d: int| #[trigger] is_cut(y, c, d) && l == y.subrange(c, d);
        let (i, j) = (c + n + 1, d + n + 1);
        assert(is_cut(b, i, j)) by {
            assert forall|k: int| i <= k < j implies b[k] != NEWLINE by {
                assert(b[k] == y[k - n - 1]);
            }
        }
        assert(b.subrange(i, j) =~= l);
    }
}

/// A tree holds this content under a path, as far as can be read.
pub open spec fn reads(t: TreeModel, opens: Opens, p: Seq<char>, content: Seq<u8>) -> bool {
    t.contains_key(p) && opens(t[p].v.0) == Some(content)
}

/// There is a conflict at a path just where both sides can be read, neither holds what
/// the base does, and each has a line that the other has not.
pub proof fn law_conflict_is_a_double_edit(
    ours: TreeModel,
    theirs: TreeModel,
    base: Option<TreeModel>,
    opens: Opens,
    p: Seq<char>,
)
    ensures
        merge_conflicts(ours, theirs, base, opens).contains_key(p) <==> exists|a: Seq<u8>, b: Seq<u8>|
            {
                &&& #[trigger] reads(ours, opens, p, a)
                &&& #[trigger] reads(theirs, opens, p, b)
                &&& exists|l: Seq<u8>| #[trigger] is_line(a, l) && !is_line(b, l)
                &&& exists|l: Seq<u8>| #[trigger] is_line(b, l) && !is_line(a, l)
                &&& base matches Some(t) ==> !reads(t, opens, p, a) && !reads(t, opens, p, b)
            },
        merge_conflicts(ours, theirs, base, opens).contains_key(p) ==> classified(
            ours,
            theirs,
            base,
            opens,
        ).contains_key(p),
        classified(ours, theirs, base, opens).contains_key(p) ==> (classified(ours, theirs, base, opens)[p].v
            is Conflict <==> merge_conflicts(ours, theirs, base, opens).contains_key(p)),
{
    let c = merge_conflicts(ours, theirs, base, opens);
    if c.contains_key(p) {
        let a = opens(ours[p].v.0)->Some_0;
        let b = opens(theirs[p].v.0)->Some_0;
        assert(reads(ours, opens, p, a) && reads(theirs, opens, p, b));
        let x = choose|l: Seq<u8>| #[trigger] is_line(a, l) && !is_line(b, l);
        let y = choose|l: Seq<u8>| #[trigger] is_line(b, l) && !is_line(a, l);
        assert(is_line(a, x) && is_line(b, y));
    }
    if exists|a: Seq<u8>, b: Seq<u8>|
        {
            &&& #[trigger] reads(ours, opens, p, a)
            &&& #[trigger] reads(theirs, opens, p, b)
            &&& exists|l: Seq<u8>| #[trigger] is_line(a, l) && !is_line(b, l)
            &&& exists|l: Seq<u8>| #[trigger] is_line(b, l) && !is_line(a, l)
            &&& base matches Some(t) ==> !reads(t, opens, p, a) && !reads(t, opens, p, b)
        } {
        assert(c.contains_key(p));
    }
}

/// A path that both sides have comes out of a merge with nothing lost. The other side's
/// content is what came out, or is what the base holds, or has no line that what came
/// out has not; or it is named in a conflict, or cannot be weighed here.
pub proof fn law_merge_loses_no_line(
    ours: TreeModel,
    theirs: TreeModel,
    base: Option<TreeModel>,
    opens: Opens,
    p: Seq<char>,
    x: Seq<u8>,
    y: Seq<u8>,
    l: Seq<u8>,
)
    requires
        reads(ours, opens, p, x) && reads(theirs, opens, p, y) || reads(ours, opens, p, y) && reads(
            theirs,
            opens,
            p,
            x,
        ),
        !merge_conflicts(ours, theirs, base, opens).contains_key(p),
        reads(merged_tree(ours, theirs, base, opens), opens, p, x),
        !(base matches Some(t) && reads(t, opens, p, y)),
        is_line(y, l),
    ensures
        is_line(x, l),
{
    law_conflict_is_a_double_edit(ours, theirs, base, opens, p);
}

/// What a merge makes of a path. One that a single side has comes from that side. Where
/// both have it, a side that holds what the base does gives way to the other; a side
/// that both can be held against gives way to one with more lines; theirs is taken where
/// the contents are the same; and ours stays where a side cannot be read, or in a
/// conflict.
pub proof fn law_merge_picks_a_side(
    ours: TreeModel,
    theirs: TreeModel,
    base: Option<TreeModel>,
    opens: Opens,
    p: Seq<char>,
)
    ensures
        ({
            let t = merged_tree(ours, theirs, base, opens);
            let o = classified(ours, theirs, base, opens);
            let (a, b) = (opens(ours[p].v.0), opens(theirs[p].v.0));
            let both = ours.contains_key(p) && theirs.contains_key(p) && ours[p].v.0 != theirs[p].v.0;
            &&& o.contains_key(p) <==> theirs.contains_key(p)
            &&& t.contains_key(p) <==> ours.contains_key(p) || theirs.contains_key(p)
            &&& ours.contains_key(p) && !theirs.contains_key(p) ==> t[p] == ours[p]
            &&& theirs.contains_key(p) && !ours.contains_key(p) ==> t[p] == theirs[p] && o[p].v is Converged
            &&& ours.contains_key(p) ==> t[p].text == ours[p].text
            &&& theirs.contains_key(p) ==> o[p].text == theirs[p].text
            &&& ours.contains_key(p) && theirs.contains_key(p) && ours[p].v.0 == theirs[p].v.0 ==> t[p] == ours[p]
                && o[p].v is Converged
            &&& both && (a is None || b is None) ==> t[p] == ours[p] && o[p].v is RelayedUnmerged
            &&& both && a is Some && b is Some ==> o[p].v is Merged || o[p].v is Conflict
            &&& both && a is Some && a == b ==> t[p].v == theirs[p].v && o[p].v is Merged
            &&& both && a is Some && b is Some && a != b && (base matches Some(u) && reads(u, opens, p, b->Some_0))
                ==> t[p] == ours[p] && o[p].v is Merged
            &&& both && a is Some && b is Some && a != b && (base matches Some(u) && reads(u, opens, p, a->Some_0))
                ==> t[p].v == theirs[p].v && o[p].v is Merged
            &&& both && a is Some && b is Some && a != b && !(base matches Some(u) && (reads(u, opens, p, a->Some_0)
                || reads(u, opens, p, b->Some_0))) ==> {
                let (x, y) = (a->Some_0, b->Some_0);
                let in_theirs = forall|l: Seq<u8>| #[trigger] is_line(x, l) ==> is_line(y, l);
                let in_ours = forall|l: Seq<u8>| #[trigger] is_line(y, l) ==> is_line(x, l);
                &&& in_theirs ==> t[p].v == theirs[p].v && o[p].v is Merged
                &&& !in_theirs ==> t[p] == ours[p]
                &&& !in_theirs && in_ours ==> o[p].v is Merged
            }
        }),
{
    let t = merged_tree(ours, theirs, base, opens);
    let o = classified(ours, theirs, base, opens);
    if ours.contains_key(p) || theirs.contains_key(p) {
        assert(t.contains_key(p));
    }
    if theirs.contains_key(p) {
        assert(o.contains_key(p));
    }
    if opens(ours[p].v.0) is Some && opens(theirs[p].v.0) is Some {
        let (x, y) = (opens(ours[p].v.0)->Some_0, opens(theirs[p].v.0)->Some_0);
        assert(lines_within(x, y) == (forall|l: Seq<u8>| #[trigger] is_line(x, l) ==> is_line(y, l)));
        assert(lines_within(y, x) == (forall|l: Seq<u8>| #[trigger] is_line(y, l) ==> is_line(x, l)));
    }
}

/// Taking the worst is associative, and never lowers the attention that either
/// side needs.
pub proof fn law_worst(a: OutcomeModel, b: OutcomeModel, c: OutcomeModel)
    ensures
        worst_of(worst_of(a, b), c) == worst_of(a, worst_of(b, c)),
        worst_of(a, a) == a,
        attention(worst_of(a, b)) >= attention(a),
        attention(worst_of(a, b)) >= attention(b),
{
}

/// What needs more attention: a conflict more than anything, then what only a keyholder can
/// merge, then what was merged. The worst of two is one of them, and the other is no worse.
pub proof fn law_what_needs_attention(a: OutcomeModel, b: OutcomeModel, ours: Seq<u8>, theirs: Seq<u8>)
    ensures
        worst_of(a, b) == a || worst_of(a, b) == b,
        worst_of(OutcomeModel::Converged, b) == b,
        attention(OutcomeModel::Converged) < attention(OutcomeModel::Merged),
        attention(OutcomeModel::Merged) < attention(OutcomeModel::RelayedUnmerged),
        attention(OutcomeModel::RelayedUnmerged) < attention(OutcomeModel::Conflict { ours, theirs }),
        a is Conflict ==> worst_of(a, b) == a,
        b is Conflict && !(a is Conflict) ==> worst_of(a, b) == b,
        worst_of(OutcomeModel::Merged, OutcomeModel::RelayedUnmerged) is RelayedUnmerged,
        worst_of(OutcomeModel::RelayedUnmerged, OutcomeModel::Merged) is RelayedUnmerged,
        worst_of(OutcomeModel::Merged, OutcomeModel::Converged) is Merged,
{
}

} // verus!
