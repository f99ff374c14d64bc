//! Merging: what combines lines of history into a new change.
//!
//! How two trees are reconciled path by path is the business of
//! [`crate::converge`]; here stands what becomes of the result.

use crate::ancestry::{closure_of, Id};
use crate::converge::{
    classified, merge_conflicts, merge_trees, merged_tree, worst, worst_of, KeyOracle, Outcomes,
};
use crate::hex::hex_text;
use crate::path::normal_path;
use crate::path_map::{laid_over, values_in, PathKey, PathMap, Paths, Placed};
use crate::seqs::{lemma_filter_none, lemma_filter_step};
use crate::sorted::{among, lemma_among, lemma_entry, map_of, pairs_of, rising};
use crate::text::{begins_with, contains_text, ends_with, finishes_with, has_text, push_text, starts_with};
use crate::types::{
    Change, ErrorModel, MergeOutcome, Oid, OutcomeModel, RepoError, RepoPath, Tree, TreeModel,
    VisibilityModel,
};
use crate::value::Value;
use super::change_graph::{base_tree, edges_of, line_tree, retired, NodeModel, Nodes};
use super::{
    change_model, fresh_for, hidden, id_here, own_read, recorded, ChangeModel, Conflicts, DagRepo,
    RepoModel,
};
use vstd::prelude::*;

verus! {

// ---------------------------------------------------------------------------
// Two tips
// ---------------------------------------------------------------------------

/// The change that joins two tips.
pub open spec fn joining(m: RepoModel, ours: Id, theirs: Id, message: Seq<char>, now: u64) -> ChangeModel {
    ChangeModel {
        parents: seq![ours, theirs],
        message,
        tree: merged_tree(
            line_tree(m.graph.changes, ours),
            line_tree(m.graph.changes, theirs),
            base_tree(m.graph.changes, ours, theirs),
            own_read(m, now),
        ),
    }
}

/// What came of each path when two tips are joined.
pub open spec fn joined_outcomes(m: RepoModel, ours: Id, theirs: Id, now: u64) -> Outcomes {
    classified(
        line_tree(m.graph.changes, ours),
        line_tree(m.graph.changes, theirs),
        base_tree(m.graph.changes, ours, theirs),
        own_read(m, now),
    )
}

/// The conflicts between two tips.
pub open spec fn joined_conflicts(m: RepoModel, ours: Id, theirs: Id, now: u64) -> Conflicts {
    merge_conflicts(
        line_tree(m.graph.changes, ours),
        line_tree(m.graph.changes, theirs),
        base_tree(m.graph.changes, ours, theirs),
        own_read(m, now),
    )
}

/// The repository with two tips joined.
pub open spec fn joined(
    m: RepoModel,
    ours: Id,
    theirs: Id,
    message: Seq<char>,
    now: u64,
    cid: Option<Seq<u8>>,
) -> RepoModel {
    let m1 = RepoModel {
        conflicts: laid_over(m.conflicts, joined_conflicts(m, ours, theirs, now)),
        ..m
    };
    recorded(m1, joining(m, ours, theirs, message, now), cid, Seq::empty())
}

impl DagRepo {
    /// Joins two tips in a change with a given change id.
    pub fn merge_tips_as(
        &mut self,
        ours: &Oid,
        theirs: &Oid,
        message: &str,
        now: u64,
        change_id: Option<[u8; 16]>,
    ) -> (r: (Oid, PathMap<MergeOutcome>))
        ensures
            r.0.deep_view() == id_here(
                old(self).deep_view(),
                joining(old(self).deep_view(), ours.deep_view(), theirs.deep_view(), message@, now),
            ),
            r.1.deep_view() == joined_outcomes(
                old(self).deep_view(),
                ours.deep_view(),
                theirs.deep_view(),
                now,
            ),
            final(self).deep_view() == joined(
                old(self).deep_view(),
                ours.deep_view(),
                theirs.deep_view(),
                message@,
                now,
                change_id.deep_view(),
            ),
    {
        let ghost m = self.deep_view();
        let our_tree = self.graph.tree_at(ours);
        let their_tree = self.graph.tree_at(theirs);
        let base = self.graph.common_ancestor_tree(ours, theirs);
        let merged = merge_trees(&our_tree, &their_tree, base.as_ref(), self, now);
        self.conflicts.put_all(&merged.conflicts);
        let mut parents = crate::seqs::single(*ours);
        crate::seqs::push(&mut parents, *theirs);
        let change = Change { id: Oid::zero(), parents, message: message.to_owned(), tree: merged.tree };
        proof {
            assert(parents.deep_view() =~= seq![ours.deep_view(), theirs.deep_view()]);
            assert(change_model(change) == joining(m, ours.deep_view(), theirs.deep_view(), message@, now));
        }
        let id = self.record_as(change, change_id);
        (id, merged.outcomes)
    }

    /// Joins finished tip `theirs` into finished tip `ours`. A path with a conflict
    /// keeps ours, and the conflict is recorded. The change is not signed yet.
    pub fn merge_tips(&mut self, ours: &Oid, theirs: &Oid, message: &str, now: u64) -> (r: Result<
        (Oid, PathMap<MergeOutcome>),
        RepoError,
    >)
        ensures
            match r {
                Ok((id, o)) => {
                    &&& id.deep_view() == id_here(
                        old(self).deep_view(),
                        joining(old(self).deep_view(), ours.deep_view(), theirs.deep_view(), message@, now),
                    )
                    &&& o.deep_view() == joined_outcomes(
                        old(self).deep_view(),
                        ours.deep_view(),
                        theirs.deep_view(),
                        now,
                    )
                    &&& exists|cid: Option<Seq<u8>>| #[trigger]
                        fresh_for(old(self).deep_view(), cid) && final(self).deep_view() == joined(
                            old(self).deep_view(),
                            ours.deep_view(),
                            theirs.deep_view(),
                            message@,
                            now,
                            cid,
                        )
                },
                Err(e) => e is Backend && old(self).deep_view().author is Some && final(self).deep_view()
                    == old(self).deep_view(),
            },
    {
        let cid = self.fresh_change_id()?;
        Ok(self.merge_tips_as(ours, theirs, message, now, cid))
    }
}

// ---------------------------------------------------------------------------
// One change onto another line
// ---------------------------------------------------------------------------

/// What to do at a path: write this content, or delete the path.
pub type DeltaAction = Option<Vec<u8>>;

/// What bringing one change onto another line takes.
#[derive(Debug)]
pub struct DeltaMerge {
    /// What came of each path.
    pub outcomes: PathMap<MergeOutcome>,
    /// What to do; nothing if there was a conflict.
    pub actions: PathMap<DeltaAction>,
    /// The paths that were left out, because their content cannot be read here.
    pub skipped: Vec<RepoPath>,
    pub conflicted: bool,
}

/// The model of a [`DeltaMerge`].
pub struct DeltaModel {
    pub outcomes: Outcomes,
    pub actions: Paths<Option<Seq<u8>>>,
    pub skipped: Seq<Seq<char>>,
    pub conflicted: bool,
}

impl DeepView for DeltaMerge {
    type V = DeltaModel;

    open spec fn deep_view(&self) -> DeltaModel {
        DeltaModel {
            outcomes: self.outcomes.deep_view(),
            actions: self.actions.deep_view(),
            skipped: self.skipped.deep_view(),
            conflicted: self.conflicted,
        }
    }
}

/// The tree of a change's first parent; a root's is empty.
pub open spec fn parent_tree(changes: Nodes, id: Id) -> TreeModel {
    if changes.contains_key(id) && changes[id].parents.len() > 0 {
        line_tree(changes, changes[id].parents[0])
    } else {
        Map::empty()
    }
}

/// Two trees differ at a path.
pub open spec fn differs(a: TreeModel, b: TreeModel, p: Seq<char>) -> bool {
    (a.contains_key(p) != b.contains_key(p)) || (a.contains_key(p) && a[p].v != b[p].v)
}

/// The paths at which two trees differ, as the first has them, or else the second.
pub open spec fn delta_paths(a: TreeModel, b: TreeModel) -> Paths<()> {
    Map::new(
        |p: Seq<char>| differs(a, b, p),
        |p: Seq<char>|
            Placed {
                text: if a.contains_key(p) {
                    a[p].text
                } else {
                    b[p].text
                },
                v: (),
            },
    )
}

/// The content that a tree has at a path cannot be read here.
pub open spec fn unreadable(m: RepoModel, t: TreeModel, p: Seq<char>, now: u64) -> bool {
    t.contains_key(p) && hidden(m, t[p].v.0, now)
}

/// A tree at the paths of a delta, but for what cannot be read on the incoming
/// side. The paths are as the delta has them.
pub open spec fn delta_side(
    m: RepoModel,
    t: TreeModel,
    incoming: TreeModel,
    paths: Paths<()>,
    now: u64,
) -> TreeModel {
    Map::new(
        |p: Seq<char>| paths.contains_key(p) && t.contains_key(p) && !unreadable(m, incoming, p, now),
        |p: Seq<char>| Placed { text: paths[p].text, v: t[p].v },
    )
}

/// The path is deleted: the delta takes it away, and the working line has it as it
/// was.
pub open spec fn deletes(working: TreeModel, theirs: TreeModel, base: TreeModel, p: Seq<char>) -> bool {
    !theirs.contains_key(p) && base.contains_key(p) && working.contains_key(p) && working[p].v.0 == base[p].v.0
}

/// What is to be done at a path, or nothing if the content cannot be read.
pub open spec fn delta_action(
    m: RepoModel,
    working: TreeModel,
    theirs: TreeModel,
    base: TreeModel,
    p: Seq<char>,
    now: u64,
) -> Option<Option<Seq<u8>>> {
    let t = merged_tree(working, theirs, Some(base), own_read(m, now));
    if deletes(working, theirs, base, p) || !t.contains_key(p) {
        Some(None)
    } else {
        match own_read(m, now)(t[p].v.0) {
            Some(b) => Some(Some(b)),
            None => None,
        }
    }
}

/// The outcomes of a delta, deletions among them.
pub open spec fn delta_outcomes(
    m: RepoModel,
    working: TreeModel,
    theirs: TreeModel,
    base: TreeModel,
    now: u64,
) -> Outcomes {
    let o = classified(working, theirs, Some(base), own_read(m, now));
    Map::new(
        |p: Seq<char>| o.contains_key(p) || deletes(working, theirs, base, p),
        |p: Seq<char>|
            if o.contains_key(p) {
                o[p]
            } else {
                Placed { text: base[p].text, v: OutcomeModel::Merged }
            },
    )
}

/// The texts of some paths.
pub open spec fn texts_of(s: Seq<(Seq<char>, Placed<()>)>) -> Seq<Seq<char>> {
    s.map_values(|p: (Seq<char>, Placed<()>)| p.1.text)
}

/// Everything that bringing a delta onto a working line takes. `incoming` is the
/// side that the delta leads to, `from` the one it leads from, `paths` where it makes a
/// difference.
pub open spec fn delta_of(
    m: RepoModel,
    working: TreeModel,
    incoming: TreeModel,
    from: TreeModel,
    paths: Paths<()>,
    now: u64,
) -> DeltaModel {
    let theirs = delta_side(m, incoming, incoming, paths, now);
    let base = delta_side(m, from, incoming, paths, now);
    let order = pairs_of::<PathKey, Placed<()>>(paths);
    let skipped = texts_of(order.filter(|p: (Seq<char>, Placed<()>)| unreadable(m, incoming, p.0, now)));
    if merge_conflicts(working, theirs, Some(base), own_read(m, now)) != Map::<Seq<char>, Placed<(Id, Id)>>::empty() {
        DeltaModel {
            outcomes: classified(working, theirs, Some(base), own_read(m, now)),
            actions: Map::empty(),
            skipped,
            conflicted: true,
        }
    } else {
        DeltaModel {
            outcomes: delta_outcomes(m, working, theirs, base, now),
            actions: Map::new(
                |p: Seq<char>|
                    paths.contains_key(p) && !unreadable(m, incoming, p, now) && delta_action(
                        m,
                        working,
                        theirs,
                        base,
                        p,
                        now,
                    ) is Some,
                |p: Seq<char>|
                    Placed { text: paths[p].text, v: delta_action(m, working, theirs, base, p, now)->Some_0 },
            ),
            skipped: skipped + texts_of(
                order.filter(
                    |p: (Seq<char>, Placed<()>)|
                        !unreadable(m, incoming, p.0, now) && delta_action(m, working, theirs, base, p.0, now) is None,
                ),
            ),
            conflicted: false,
        }
    }
}

/// The delta of a change onto a working line; inverted, it undoes the change.
pub open spec fn change_delta(m: RepoModel, working: Id, target: Id, invert: bool, now: u64) -> DeltaModel {
    let w = line_tree(m.graph.changes, working);
    let t = line_tree(m.graph.changes, target);
    let p = parent_tree(m.graph.changes, target);
    if invert {
        delta_of(m, w, p, t, delta_paths(t, p), now)
    } else {
        delta_of(m, w, t, p, delta_paths(t, p), now)
    }
}

/// The conflicts of a change's delta with a working line.
pub open spec fn change_delta_conflicts(m: RepoModel, working: Id, target: Id, invert: bool, now: u64) -> Conflicts {
    let w = line_tree(m.graph.changes, working);
    let t = line_tree(m.graph.changes, target);
    let p = parent_tree(m.graph.changes, target);
    let (incoming, from) = if invert {
        (p, t)
    } else {
        (t, p)
    };
    let paths = delta_paths(t, p);
    merge_conflicts(
        w,
        delta_side(m, incoming, incoming, paths, now),
        Some(delta_side(m, from, incoming, paths, now)),
        own_read(m, now),
    )
}

/// Adds the paths of `a` at which it differs from `b`.
fn add_differing(a: &Tree, b: &Tree, r: &mut PathMap<()>)
    ensures
        forall|p: Seq<char>| #[trigger]
            final(r).deep_view().contains_key(p) <==> old(r).deep_view().contains_key(p) || (
            a.deep_view().contains_key(p) && differs(a.deep_view(), b.deep_view(), p)),
        forall|p: Seq<char>| #[trigger]
            final(r).deep_view().contains_key(p) ==> final(r).deep_view()[p].text == (if old(r).deep_view().contains_key(
                p,
            ) {
                old(r).deep_view()[p].text
            } else {
                a.deep_view()[p].text
            }),
{
    let ghost am = a.deep_view();
    let ghost bm = b.deep_view();
    let ghost r0 = r.deep_view();
    let n: usize = a.len();
    let ghost s = a.pairs();
    let mut i: usize = 0;
    proof {
        lemma_among::<PathKey, Placed<(Id, VisibilityModel)>>(s, 0);
    }
    while i < n
        invariant
            0 <= i <= n,
            n == s.len(),
            s == a.pairs(),
            am == a.deep_view(),
            bm == b.deep_view(),
            am == map_of(s),
            rising::<PathKey, Placed<(Id, VisibilityModel)>>(s),
            forall|p: Seq<char>| #[trigger]
                r.deep_view().contains_key(p) <==> r0.contains_key(p) || (among(s, i as int, p) && differs(am, bm, p)),
            forall|p: Seq<char>| #[trigger]
                r.deep_view().contains_key(p) ==> r.deep_view()[p].text == (if r0.contains_key(p) {
                    r0[p].text
                } else {
                    am[p].text
                }),
        decreases n - i,
    {
        proof {
            lemma_among::<PathKey, Placed<(Id, VisibilityModel)>>(s, i as int);
            lemma_entry::<PathKey, Placed<(Id, VisibilityModel)>>(s, i as int);
        }
        let path = a.path_at(i);
        let equal = match b.get(path) {
            Some(e) => e.same(a.value_at(i)),
            None => false,
        };
        if !equal {
            r.insert(path.dup(), ());
        }
        i = i + 1;
    }
    proof {
        lemma_among::<PathKey, Placed<(Id, VisibilityModel)>>(s, n as int);
    }
}

proof fn lemma_one_unit(a: (), b: ())
    ensures
        a == b,
{
}

/// The paths at which two trees differ.
fn differing(a: &Tree, b: &Tree) -> (r: PathMap<()>)
    ensures
        r.deep_view() == delta_paths(a.deep_view(), b.deep_view()),
{
    let mut r: PathMap<()> = PathMap::new();
    add_differing(a, b, &mut r);
    add_differing(b, a, &mut r);
    proof {
        let want = delta_paths(a.deep_view(), b.deep_view());
        assert forall|p: Seq<char>| #[trigger] r.deep_view().contains_key(p) <==> want.contains_key(p) by {
            assert(differs(a.deep_view(), b.deep_view(), p) == differs(b.deep_view(), a.deep_view(), p));
        }
        assert forall|p: Seq<char>| r.deep_view().contains_key(p) implies r.deep_view()[p] == #[trigger] want[p] by {
            lemma_one_unit(r.deep_view()[p].v, want[p].v);
            assert(r.deep_view()[p].text == want[p].text);
        }
        assert(r.deep_view() =~= want);
    }
    r
}

impl DagRepo {
    /// The tree of a change's first parent.
    fn tree_of_parent(&self, id: &Oid) -> (r: Tree)
        ensures
            r.deep_view() == parent_tree(self.deep_view().graph.changes, id.deep_view()),
    {
        match self.graph.get(id) {
            Some(n) => {
                if n.parents.len() > 0 {
                    assert(n.parents.deep_view()[0] == n.parents@[0].deep_view());
                    self.graph.tree_at(&n.parents[0])
                } else {
                    PathMap::new()
                }
            },
            None => PathMap::new(),
        }
    }

    /// Whether the content that a tree has at a path cannot be read here.
    fn is_unreadable(&self, t: &Tree, path: &RepoPath, now: u64) -> (b: bool)
        ensures
            b == unreadable(self.deep_view(), t.deep_view(), normal_path(path.deep_view()), now),
    {
        match t.get(path) {
            Some(e) => self.is_hidden(&e.0, now),
            None => false,
        }
    }

    /// A tree at some paths, but for what cannot be read on the incoming side.
    fn side(&self, t: &Tree, incoming: &Tree, paths: &PathMap<()>, now: u64) -> (r: Tree)
        ensures
            r.deep_view() == delta_side(
                self.deep_view(),
                t.deep_view(),
                incoming.deep_view(),
                paths.deep_view(),
                now,
            ),
    {
        let ghost m = self.deep_view();
        let ghost tm = t.deep_view();
        let ghost im = incoming.deep_view();
        let ghost pm = paths.deep_view();
        let n: usize = paths.len();
        let ghost s = paths.pairs();
        let mut r: Tree = PathMap::new();
        let mut i: usize = 0;
        proof {
            lemma_among::<PathKey, Placed<()>>(s, 0);
        }
        while i < n
            invariant
                0 <= i <= n,
                n == s.len(),
                s == paths.pairs(),
                pm == paths.deep_view(),
                pm == map_of(s),
                rising::<PathKey, Placed<()>>(s),
                m == self.deep_view(),
                tm == t.deep_view(),
                im == incoming.deep_view(),
                forall|p: Seq<char>| #[trigger]
                    r.deep_view().contains_key(p) <==> tm.contains_key(p) && !unreadable(m, im, p, now) && among(
                        s,
                        i as int,
                        p,
                    ),
                forall|p: Seq<char>| #[trigger]
                    r.deep_view().contains_key(p) ==> r.deep_view()[p] == (Placed { text: pm[p].text, v: tm[p].v }),
            decreases n - i,
        {
            proof {
                lemma_among::<PathKey, Placed<()>>(s, i as int);
                lemma_entry::<PathKey, Placed<()>>(s, i as int);
            }
            let path = paths.path_at(i);
            if !self.is_unreadable(incoming, path, now) {
                if let Some(e) = t.get(path) {
                    r.insert(path.dup(), e.dup());
                }
            }
            i = i + 1;
        }
        proof {
            lemma_among::<PathKey, Placed<()>>(s, n as int);
            assert(r.deep_view() =~= delta_side(m, tm, im, pm, now));
        }
        r
    }

    /// The paths of a delta whose content cannot be read on the incoming side.
    fn left_out(&self, incoming: &Tree, paths: &PathMap<()>, now: u64) -> (r: Vec<RepoPath>)
        ensures
            r.deep_view() == texts_of(
                pairs_of::<PathKey, Placed<()>>(paths.deep_view()).filter(
                    |p: (Seq<char>, Placed<()>)| unreadable(self.deep_view(), incoming.deep_view(), p.0, now),
                ),
            ),
    {
        let ghost m = self.deep_view();
        let ghost im = incoming.deep_view();
        let n: usize = paths.len();
        let ghost s = paths.pairs();
        let ghost f = |p: (Seq<char>, Placed<()>)| unreadable(m, im, p.0, now);
        let mut r: Vec<RepoPath> = crate::seqs::none();
        let mut i: usize = 0;
        proof {
            lemma_filter_none(s, f);
            assert(r.deep_view() =~= texts_of(s.take(0).filter(f)));
        }
        while i < n
            invariant
                0 <= i <= n,
                n == s.len(),
                s == paths.pairs(),
                m == self.deep_view(),
                im == incoming.deep_view(),
                f == (|p: (Seq<char>, Placed<()>)| unreadable(m, im, p.0, now)),
                r.deep_view() == texts_of(s.take(i as int).filter(f)),
            decreases n - i,
        {
            proof {
                lemma_filter_step(s, i as int, f);
            }
            let path = paths.path_at(i);
            if self.is_unreadable(incoming, path, now) {
                proof {
                    let x = s.take(i as int).filter(f);
                    assert(texts_of(x.push(s[i as int])) =~= texts_of(x).push(s[i as int].1.text));
                }
                crate::seqs::push(&mut r, path.dup());
            }
            i = i + 1;
        }
        assert(s.take(s.len() as int) =~= s);
        r
    }

    /// What bringing a delta onto a working tree takes, and the conflicts in it.
    fn delta(&self, working: &Tree, incoming: &Tree, from: &Tree, paths: &PathMap<()>, now: u64) -> (r: (
        DeltaMerge,
        PathMap<(Oid, Oid)>,
    ))
        ensures
            r.0.deep_view() == delta_of(
                self.deep_view(),
                working.deep_view(),
                incoming.deep_view(),
                from.deep_view(),
                paths.deep_view(),
                now,
            ),
            r.1.deep_view() == merge_conflicts(
                working.deep_view(),
                delta_side(
                    self.deep_view(),
                    incoming.deep_view(),
                    incoming.deep_view(),
                    paths.deep_view(),
                    now,
                ),
                Some(
                    delta_side(
                        self.deep_view(),
                        from.deep_view(),
                        incoming.deep_view(),
                        paths.deep_view(),
                        now,
                    ),
                ),
                own_read(self.deep_view(), now),
            ),
    {
        let ghost m = self.deep_view();
        let ghost wm = working.deep_view();
        let ghost im = incoming.deep_view();
        let ghost fm = from.deep_view();
        let ghost pm = paths.deep_view();
        let ghost opens = own_read(m, now);
        let theirs = self.side(incoming, incoming, paths, now);
        let base = self.side(from, incoming, paths, now);
        let ghost tm = theirs.deep_view();
        let ghost bm = base.deep_view();
        let mut skipped = self.left_out(incoming, paths, now);
        let merged = merge_trees(working, &theirs, Some(&base), self, now);
        if !merged.conflicts.is_empty() {
            let none: PathMap<DeltaAction> = PathMap::new();
            return (
                DeltaMerge { outcomes: merged.outcomes, actions: none, skipped, conflicted: true },
                merged.conflicts,
            );
        }
        let n: usize = paths.len();
        let ghost s = paths.pairs();
        let ghost skip1 = skipped.deep_view();
        let ghost f2 = |p: (Seq<char>, Placed<()>)|
            !unreadable(m, im, p.0, now) && delta_action(m, wm, tm, bm, p.0, now) is None;
        let mut outcomes = merged.outcomes;
        let mut actions: PathMap<DeltaAction> = PathMap::new();
        let mut k: usize = 0;
        let ghost o0 = outcomes.deep_view();
        proof {
            lemma_filter_none(s, f2);
            lemma_among::<PathKey, Placed<()>>(s, 0);
            assert(skip1 + texts_of(s.take(0).filter(f2)) =~= skip1);
        }
        while k < n
            invariant
                0 <= k <= n,
                n == s.len(),
                s == paths.pairs(),
                pm == paths.deep_view(),
                pm == map_of(s),
                rising::<PathKey, Placed<()>>(s),
                m == self.deep_view(),
                wm == working.deep_view(),
                im == incoming.deep_view(),
                tm == theirs.deep_view(),
                bm == base.deep_view(),
                opens == own_read(m, now),
                merged.tree.deep_view() == merged_tree(wm, tm, Some(bm), opens),
                tm == delta_side(m, im, im, pm, now),
                bm == delta_side(m, fm, im, pm, now),
                o0 == classified(wm, tm, Some(bm), opens),
                f2 == (|p: (Seq<char>, Placed<()>)|
                    !unreadable(m, im, p.0, now) && delta_action(m, wm, tm, bm, p.0, now) is None),
                skipped.deep_view() == skip1 + texts_of(s.take(k as int).filter(f2)),
                forall|p: Seq<char>| #[trigger]
                    actions.deep_view().contains_key(p) <==> !unreadable(m, im, p, now) && delta_action(
                        m,
                        wm,
                        tm,
                        bm,
                        p,
                        now,
                    ) is Some && among(s, k as int, p),
                forall|p: Seq<char>| #[trigger]
                    actions.deep_view().contains_key(p) ==> actions.deep_view()[p] == (Placed {
                        text: pm[p].text,
                        v: delta_action(m, wm, tm, bm, p, now)->Some_0,
                    }),
                forall|p: Seq<char>| #[trigger]
                    outcomes.deep_view().contains_key(p) <==> o0.contains_key(p) || (deletes(wm, tm, bm, p) && among(
                        s,
                        k as int,
                        p,
                    )),
                forall|p: Seq<char>| #[trigger]
                    outcomes.deep_view().contains_key(p) ==> outcomes.deep_view()[p] == (if o0.contains_key(p) {
                        o0[p]
                    } else {
                        Placed { text: bm[p].text, v: OutcomeModel::Merged }
                    }),
            decreases n - k,
        {
            proof {
                lemma_filter_step(s, k as int, f2);
                lemma_among::<PathKey, Placed<()>>(s, k as int);
                lemma_entry::<PathKey, Placed<()>>(s, k as int);
            }
            let path = paths.path_at(k);
            let ghost key = s[k as int].0;
            let gone = match theirs.get(path) {
                Some(_) => false,
                None => match base.get(path) {
                    Some(b) => match working.get(path) {
                        Some(w) => w.0.same(&b.0),
                        None => false,
                    },
                    None => false,
                },
            };
            assert(gone == deletes(wm, tm, bm, key));
            if gone {
                assert(!o0.contains_key(key));
                assert(bm[key].text == pm[key].text);
                outcomes.insert(path.dup(), MergeOutcome::Merged);
            }
            proof {
                let x = s.take(k as int).filter(f2);
                assert(texts_of(x.push(s[k as int])) =~= texts_of(x).push(s[k as int].1.text));
                assert(skip1 + texts_of(x).push(s[k as int].1.text) =~= (skip1 + texts_of(x)).push(s[k as int].1.text));
            }
            if !self.is_unreadable(incoming, path, now) {
                if gone {
                    actions.insert(path.dup(), None);
                } else {
                    match merged.tree.get(path) {
                        Some(e) => match self.open(&e.0, now) {
                            Some(b) => {
                                let act = Some(b);
                                assert(act.deep_view() == delta_action(m, wm, tm, bm, key, now)->Some_0) by {
                                    assert(b.deep_view() =~= b@);
                                }
                                actions.insert(path.dup(), act);
                            },
                            None => {
                                crate::seqs::push(&mut skipped, path.dup());
                            },
                        },
                        None => {
                            actions.insert(path.dup(), None);
                        },
                    }
                }
            }
            k = k + 1;
        }
        proof {
            assert(s.take(s.len() as int) =~= s);
            lemma_among::<PathKey, Placed<()>>(s, n as int);
            let want = delta_of(m, wm, im, fm, pm, now);
            assert(merge_conflicts(wm, tm, Some(bm), opens) == Map::<Seq<char>, Placed<(Id, Id)>>::empty());
            assert(actions.deep_view() =~= want.actions);
            assert forall|p: Seq<char>| deletes(wm, tm, bm, p) implies pm.contains_key(p) by {}
            assert(outcomes.deep_view() =~= want.outcomes);
            assert(skipped.deep_view() =~= want.skipped);
        }
        (DeltaMerge { outcomes, actions, skipped, conflicted: false }, merged.conflicts)
    }

    /// What a change did, against its first parent, brought onto a working line:
    /// as it was, or inverted. Content that cannot be read here is left out. A
    /// conflict is recorded and leaves nothing to do; otherwise the repository
    /// stays as it is.
    pub fn change_delta_merge(&mut self, working: &Oid, target: &Oid, invert: bool, now: u64) -> (r: DeltaMerge)
        ensures
            r.deep_view() == change_delta(
                old(self).deep_view(),
                working.deep_view(),
                target.deep_view(),
                invert,
                now,
            ),
            final(self).deep_view() == (RepoModel {
                conflicts: laid_over(
                    old(self).deep_view().conflicts,
                    change_delta_conflicts(
                        old(self).deep_view(),
                        working.deep_view(),
                        target.deep_view(),
                        invert,
                        now,
                    ),
                ),
                ..old(self).deep_view()
            }),
    {
        let working_tree = self.graph.tree_at(working);
        let target_tree = self.graph.tree_at(target);
        let from_tree = self.tree_of_parent(target);
        let paths = differing(&target_tree, &from_tree);
        let (r, conflicts) = if invert {
            self.delta(&working_tree, &from_tree, &target_tree, &paths, now)
        } else {
            self.delta(&working_tree, &target_tree, &from_tree, &paths, now)
        };
        self.conflicts.put_all(&conflicts);
        r
    }
}

// ---------------------------------------------------------------------------
// A line onto another
// ---------------------------------------------------------------------------

/// How the message of a change that settles a conflict begins.
pub const RESOLVE_FALLBACK_PREFIX: &'static str = "resolve conflict at ";

/// What opens the note of a change that settles a conflict and says so at its end.
pub const RESOLUTION_SUFFIX_OPEN: &'static str = " (conflict resolution: ";

/// A change that settles a conflict, by its message.
pub open spec fn is_resolution(message: Seq<char>) -> bool {
    begins_with(message, RESOLVE_FALLBACK_PREFIX@) || (finishes_with(message, ")"@) && has_text(
        message,
        RESOLUTION_SUFFIX_OPEN@,
    ))
}

fn settles_conflict(message: &str) -> (b: bool)
    ensures
        b == is_resolution(message@),
{
    starts_with(message, RESOLVE_FALLBACK_PREFIX) || (ends_with(message, ")") && contains_text(
        message,
        RESOLUTION_SUFFIX_OPEN,
    ))
}

/// What carrying a line came to.
#[derive(Debug)]
pub enum CarryOutcome {
    /// The line was carried: the new versions, oldest first, none of them signed.
    Carried { minted: Vec<Oid>, outcomes: PathMap<MergeOutcome> },
    /// There are conflicts, which are recorded. Nothing was minted.
    Bounced { outcomes: PathMap<MergeOutcome> },
    /// The line holds work of others, or there is no key to author with.
    Foreign,
    /// There was nothing to carry.
    Covered,
}

/// The model of a [`CarryOutcome`].
pub enum CarryModel {
    Carried { minted: Seq<Id>, outcomes: Outcomes },
    Bounced { outcomes: Outcomes },
    Foreign,
    Covered,
}

impl DeepView for CarryOutcome {
    type V = CarryModel;

    open spec fn deep_view(&self) -> CarryModel {
        match self {
            CarryOutcome::Carried { minted, outcomes } => CarryModel::Carried {
                minted: minted.deep_view(),
                outcomes: outcomes.deep_view(),
            },
            CarryOutcome::Bounced { outcomes } => CarryModel::Bounced { outcomes: outcomes.deep_view() },
            CarryOutcome::Foreign => CarryModel::Foreign,
            CarryOutcome::Covered => CarryModel::Covered,
        }
    }
}

/// The error of a line that leads to an unknown change.
pub open spec fn not_loaded(id: Id) -> ErrorModel {
    ErrorModel::Backend("carry: change "@ + hex_text(id.take(8)) + " is not loaded"@)
}

/// The error of a line that leads back to itself.
pub open spec fn leads_back(id: Id) -> ErrorModel {
    ErrorModel::Backend("carry: change "@ + hex_text(id.take(8)) + " is its own ancestor"@)
}

/// The first-parent line from `cur` to what is covered, newest first. `fuel` is how
/// many changes it may have.
pub open spec fn suffix(changes: Nodes, covered: Set<Id>, cur: Id, fuel: nat) -> Result<Seq<Id>, ErrorModel>
    decreases fuel,
{
    if covered.contains(cur) {
        Ok(Seq::empty())
    } else if !changes.contains_key(cur) {
        Err(not_loaded(cur))
    } else if fuel == 0 {
        Err(leads_back(cur))
    } else if changes[cur].parents.len() == 0 {
        Ok(seq![cur])
    } else {
        match suffix(changes, covered, changes[cur].parents[0], (fuel - 1) as nat) {
            Ok(s) => Ok(seq![cur] + s),
            Err(e) => Err(e),
        }
    }
}

/// The line of `ours` that `onto` does not cover, oldest first.
pub open spec fn line_to_carry(changes: Nodes, ours: Id, onto: Id) -> Result<Seq<Id>, ErrorModel> {
    match suffix(
        changes,
        closure_of(edges_of(changes), seq![onto]),
        ours,
        crate::engine::change_graph::ids_in_order(changes).len(),
    ) {
        Ok(s) => Ok(s.reverse()),
        Err(e) => Err(e),
    }
}

/// A version that is to be minted.
pub struct Pending {
    pub message: String,
    pub cid: Option<[u8; 16]>,
    pub preds: Vec<Oid>,
    pub tree: Tree,
}

/// The model of a [`Pending`].
pub struct PendingModel {
    pub message: Seq<char>,
    pub cid: Option<Seq<u8>>,
    pub preds: Seq<Id>,
    pub tree: TreeModel,
}

impl DeepView for Pending {
    type V = PendingModel;

    open spec fn deep_view(&self) -> PendingModel {
        PendingModel {
            message: self.message@,
            cid: self.cid.deep_view(),
            preds: self.preds.deep_view(),
            tree: self.tree.deep_view(),
        }
    }
}

/// Where the replay of a line stands.
pub struct Replay {
    pub pendings: Seq<PendingModel>,
    pub tree: TreeModel,
    pub outcomes: Outcomes,
    pub open: Conflicts,
}

/// The outcomes after one more change. A later change that answers a path cleanly
/// settles the conflict there.
pub open spec fn replay_outcomes(had: Outcomes, open: Conflicts, new: Outcomes) -> Outcomes {
    Map::new(
        |p: Seq<char>| had.contains_key(p) || new.contains_key(p),
        |p: Seq<char>|
            if new.contains_key(p) {
                Placed {
                    text: if had.contains_key(p) {
                        had[p].text
                    } else {
                        new[p].text
                    },
                    v: if new[p].v is Conflict || open.contains_key(p) {
                        new[p].v
                    } else {
                        worst_of(
                            if had.contains_key(p) {
                                had[p].v
                            } else {
                                OutcomeModel::Converged
                            },
                            new[p].v,
                        )
                    },
                }
            } else {
                had[p]
            },
    )
}

/// The open conflicts that one more change does not answer.
pub open spec fn still_open(open: Conflicts, new: Outcomes) -> Conflicts {
    Map::new(
        |p: Seq<char>| open.contains_key(p) && !(new.contains_key(p) && !(new[p].v is Conflict)),
        |p: Seq<char>| open[p],
    )
}

/// The open conflicts after one more change.
pub open spec fn replay_open(open: Conflicts, new: Outcomes, found: Conflicts) -> Conflicts {
    laid_over(still_open(open, new), found)
}

/// The base of a change's replay: the tree of its first parent.
pub open spec fn replay_base(changes: Nodes, n: NodeModel) -> Option<TreeModel> {
    if n.parents.len() > 0 {
        Some(line_tree(changes, n.parents[0]))
    } else {
        None
    }
}

/// The versions to mint after one more change. One that settles a conflict, or that
/// adds nothing, goes into the version before it.
pub open spec fn replay_pendings(ps: Seq<PendingModel>, n: NodeModel, tree: TreeModel, redundant: bool) -> Seq<
    PendingModel,
> {
    if ps.len() > 0 && (is_resolution(n.message) || redundant) {
        ps.drop_last().push(PendingModel { tree, preds: ps.last().preds.push(n.id), ..ps.last() })
    } else if redundant {
        ps
    } else {
        ps.push(PendingModel { message: n.message, cid: n.change_id, preds: seq![n.id], tree })
    }
}

/// The replay after one more change.
pub open spec fn replayed_one(m: RepoModel, r: Replay, n: NodeModel, now: u64) -> Replay {
    let base = replay_base(m.graph.changes, n);
    let opens = own_read(m, now);
    let tree = merged_tree(n.tree, r.tree, base, opens);
    let new = classified(n.tree, r.tree, base, opens);
    let found = merge_conflicts(n.tree, r.tree, base, opens);
    Replay {
        pendings: replay_pendings(r.pendings, n, tree, values_in(tree) == values_in(r.tree)),
        tree,
        outcomes: replay_outcomes(r.outcomes, r.open, new),
        open: replay_open(r.open, new, found),
    }
}

pub open spec fn replayed(m: RepoModel, start: TreeModel, chain: Seq<Id>, now: u64) -> Replay
    decreases chain.len(),
{
    if chain.len() == 0 {
        Replay { pendings: Seq::empty(), tree: start, outcomes: Map::empty(), open: Map::empty() }
    } else {
        replayed_one(
            m,
            replayed(m, start, chain.drop_last(), now),
            m.graph.changes[chain.last()],
            now,
        )
    }
}

/// The repository with versions minted one on top of another, and their ids.
pub open spec fn minted_all(m: RepoModel, ps: Seq<PendingModel>, onto: Id) -> (RepoModel, Seq<Id>)
    decreases ps.len(),
{
    if ps.len() == 0 {
        (m, Seq::empty())
    } else {
        let (m1, ids) = minted_all(m, ps.drop_last(), onto);
        let p = ps.last();
        let c = ChangeModel {
            parents: seq![
                if ids.len() == 0 {
                    onto
                } else {
                    ids.last()
                },
            ],
            message: p.message,
            tree: p.tree,
        };
        (recorded(m1, c, p.cid, p.preds), ids.push(id_here(m1, c)))
    }
}

/// All changes of a line are of this author.
pub open spec fn all_by(changes: Nodes, chain: Seq<Id>, author: Option<Seq<u8>>) -> bool {
    forall|i: int| 0 <= i < chain.len() ==> changes[#[trigger] chain[i]].author == author
}

/// What carrying a line comes to, and the repository after it.
pub open spec fn carried_line(m: RepoModel, ours: Id, onto: Id, now: u64) -> Result<(RepoModel, CarryModel), ErrorModel> {
    if m.author is None {
        Ok((m, CarryModel::Foreign))
    } else {
        match line_to_carry(m.graph.changes, ours, onto) {
            Err(e) => Err(e),
            Ok(chain) => if chain.len() == 0 {
                Ok((m, CarryModel::Covered))
            } else if !all_by(m.graph.changes, chain, m.author) {
                Ok((m, CarryModel::Foreign))
            } else {
                let r = replayed(m, line_tree(m.graph.changes, onto), chain, now);
                if r.open != Map::<Seq<char>, Placed<(Id, Id)>>::empty() {
                    Ok(
                        (
                            RepoModel { conflicts: laid_over(m.conflicts, r.open), ..m },
                            CarryModel::Bounced { outcomes: r.outcomes },
                        ),
                    )
                } else if r.pendings.len() == 0 {
                    Ok((m, CarryModel::Covered))
                } else {
                    let (m1, ids) = minted_all(m, r.pendings, onto);
                    Ok(
                        (
                            RepoModel { graph: retired(m1.graph, ours), ..m1 },
                            CarryModel::Carried { minted: ids, outcomes: r.outcomes },
                        ),
                    )
                }
            },
        }
    }
}

/// Takes the outcomes of one more change in, and closes the conflicts that it
/// settles.
fn take_outcomes(
    outcomes: &mut PathMap<MergeOutcome>,
    open: &mut PathMap<(Oid, Oid)>,
    new: &PathMap<MergeOutcome>,
    found: &PathMap<(Oid, Oid)>,
)
    ensures
        final(outcomes).deep_view() == replay_outcomes(
            old(outcomes).deep_view(),
            old(open).deep_view(),
            new.deep_view(),
        ),
        final(open).deep_view() == replay_open(old(open).deep_view(), new.deep_view(), found.deep_view()),
{
    let ghost o0 = outcomes.deep_view();
    let ghost c0 = open.deep_view();
    let ghost nm = new.deep_view();
    let ghost want = replay_outcomes(o0, c0, nm);
    let n: usize = new.len();
    let ghost s = new.pairs();
    let mut i: usize = 0;
    proof {
        lemma_among::<PathKey, Placed<OutcomeModel>>(s, 0);
    }
    while i < n
        invariant
            0 <= i <= n,
            n == s.len(),
            s == new.pairs(),
            nm == new.deep_view(),
            nm == map_of(s),
            rising::<PathKey, Placed<OutcomeModel>>(s),
            want == replay_outcomes(o0, c0, nm),
            forall|p: Seq<char>| #[trigger]
                outcomes.deep_view().contains_key(p) <==> o0.contains_key(p) || among(s, i as int, p),
            forall|p: Seq<char>| #[trigger]
                outcomes.deep_view().contains_key(p) ==> outcomes.deep_view()[p] == (if among(s, i as int, p) {
                    want[p]
                } else {
                    o0[p]
                }),
            forall|p: Seq<char>| #[trigger]
                open.deep_view().contains_key(p) <==> c0.contains_key(p) && !(among(s, i as int, p) && !(
                nm[p].v is Conflict)),
            forall|p: Seq<char>| #[trigger] open.deep_view().contains_key(p) ==> open.deep_view()[p] == c0[p],
        decreases n - i,
    {
        proof {
            lemma_among::<PathKey, Placed<OutcomeModel>>(s, i as int);
            lemma_entry::<PathKey, Placed<OutcomeModel>>(s, i as int);
        }
        let ghost had = outcomes.deep_view();
        let path = new.path_at(i);
        let ghost k = s[i as int].0;
        let o = *new.value_at(i);
        assert(want.contains_key(k));
        let conflict = match o {
            MergeOutcome::Conflict { .. } => true,
            _ => false,
        };
        if conflict {
            outcomes.insert(path.dup(), o);
        } else if open.contains_key(path) {
            open.remove(path);
            outcomes.insert(path.dup(), o);
        } else {
            let slot = match outcomes.get(path) {
                Some(x) => *x,
                None => MergeOutcome::Converged,
            };
            outcomes.insert(path.dup(), worst(slot, o));
        }
        assert(outcomes.deep_view() == had.insert(k, want[k]));
        i = i + 1;
    }
    proof {
        lemma_among::<PathKey, Placed<OutcomeModel>>(s, n as int);
        assert(outcomes.deep_view() =~= want);
    }
    assert(open.deep_view() =~= still_open(c0, nm));
    open.put_all(found);
}

/// The message of a problem with a change on the line.
fn line_problem(id: &Oid, end: &str) -> (r: String)
    ensures
        r@ == "carry: change "@ + hex_text(id.deep_view().take(8)) + end@,
{
    let mut t = "carry: change ".to_owned();
    let h = crate::hex::short(id.0.as_slice(), 8);
    push_text(&mut t, h.as_str());
    push_text(&mut t, end);
    t
}

impl DagRepo {
    /// The line of `ours` that `onto` does not cover, oldest first.
    fn suffix_of(&self, ours: &Oid, onto: &Oid) -> (r: Result<Vec<Oid>, RepoError>)
        ensures
            match r {
                Ok(v) => {
                    &&& line_to_carry(self.deep_view().graph.changes, ours.deep_view(), onto.deep_view()) == Ok::<
                        Seq<Id>,
                        ErrorModel,
                    >(v.deep_view())
                    &&& forall|i: int|
                        0 <= i < v.deep_view().len() ==> self.deep_view().graph.changes.contains_key(
                            #[trigger] v.deep_view()[i],
                        )
                },
                Err(e) => line_to_carry(self.deep_view().graph.changes, ours.deep_view(), onto.deep_view())
                    == Err::<Seq<Id>, ErrorModel>(e.deep_view()),
            },
    {
        let ghost ch = self.deep_view().graph.changes;
        let covered = self.graph.ancestors_of(onto);
        let ghost cov = covered.deep_view();
        let ghost all = crate::engine::change_graph::ids_in_order(ch).len();
        let mut fuel: usize = self.graph.nodes().len();
        let mut chain: Vec<Oid> = crate::seqs::none();
        let mut cur = *ours;
        let mut done = false;
        let ghost start = suffix(ch, cov, ours.deep_view(), fuel as nat);
        assert(fuel as nat == all);
        while !done && !covered.contains(&cur)
            invariant
                ch == self.deep_view().graph.changes,
                cov == covered.deep_view(),
                cov == closure_of(edges_of(ch), seq![onto.deep_view()]),
                start == suffix(ch, cov, ours.deep_view(), all),
                all == crate::engine::change_graph::ids_in_order(ch).len(),
                forall|i: int|
                    0 <= i < chain.deep_view().len() ==> ch.contains_key(#[trigger] chain.deep_view()[i]),
                if done {
                    start == Ok::<Seq<Id>, ErrorModel>(chain.deep_view())
                } else {
                    match suffix(ch, cov, cur.deep_view(), fuel as nat) {
                        Ok(s) => start == Ok::<Seq<Id>, ErrorModel>(chain.deep_view() + s),
                        Err(e) => start == Err::<Seq<Id>, ErrorModel>(e),
                    }
                },
            decreases (if done {
                0int
            } else {
                fuel + 1
            }),
        {
            let node = match self.graph.get(&cur) {
                Some(n) => n,
                None => {
                    return Err(RepoError::Backend(line_problem(&cur, " is not loaded")));
                },
            };
            if fuel == 0 {
                return Err(RepoError::Backend(line_problem(&cur, " is its own ancestor")));
            }
            let ghost had = chain.deep_view();
            crate::seqs::push(&mut chain, cur);
            fuel = fuel - 1;
            if node.parents.len() > 0 {
                let next = node.parents[0];
                proof {
                    assert(node.parents.deep_view()[0] == next.deep_view());
                    match suffix(ch, cov, next.deep_view(), fuel as nat) {
                        Ok(s) => {
                            assert(had + (seq![cur.deep_view()] + s) =~= chain.deep_view() + s);
                        },
                        Err(_) => {},
                    }
                }
                cur = next;
            } else {
                assert(had + seq![cur.deep_view()] =~= chain.deep_view());
                assert(node.parents.deep_view().len() == 0);
                done = true;
            }
        }
        assert(start == Ok::<Seq<Id>, ErrorModel>(chain.deep_view())) by {
            if !done {
                assert(chain.deep_view() + Seq::<Id>::empty() =~= chain.deep_view());
            }
        }
        let ghost c = chain.deep_view();
        let mut r: Vec<Oid> = crate::seqs::none();
        let mut k: usize = chain.len();
        while k > 0
            invariant
                0 <= k <= chain@.len(),
                c == chain.deep_view(),
                r.deep_view().len() == c.len() - k,
                forall|i: int| 0 <= i < r.deep_view().len() ==> #[trigger] r.deep_view()[i] == c[c.len() - 1 - i],
            decreases k,
        {
            k = k - 1;
            assert(c[k as int] == chain@[k as int].deep_view());
            crate::seqs::push(&mut r, chain[k]);
        }
        assert(r.deep_view() =~= c.reverse());
        Ok(r)
    }

    /// Whether all changes of a line are ours.
    fn is_ours(&self, chain: &Vec<Oid>) -> (b: bool)
        requires
            forall|i: int|
                0 <= i < chain.deep_view().len() ==> self.deep_view().graph.changes.contains_key(
                    #[trigger] chain.deep_view()[i],
                ),
        ensures
            b == all_by(self.deep_view().graph.changes, chain.deep_view(), self.deep_view().author),
    {
        let ghost c = chain.deep_view();
        let ghost ch = self.deep_view().graph.changes;
        let mut i: usize = 0;
        while i < chain.len()
            invariant
                0 <= i <= chain@.len(),
                c == chain.deep_view(),
                ch == self.deep_view().graph.changes,
                forall|j: int| 0 <= j < c.len() ==> ch.contains_key(#[trigger] c[j]),
                forall|j: int| 0 <= j < i ==> ch[#[trigger] c[j]].author == self.deep_view().author,
            decreases chain@.len() - i,
        {
            assert(c[i as int] == chain@[i as int].deep_view());
            let same = match self.graph.get(&chain[i]) {
                Some(n) => n.author.same(&self.author),
                None => false,
            };
            if !same {
                assert(ch[c[i as int]].author != self.deep_view().author);
                return false;
            }
            i = i + 1;
        }
        true
    }

    /// Replays one more change of a line.
    fn replay_one(
        &self,
        id: &Oid,
        now: u64,
        pendings: &mut Vec<Pending>,
        tree: &mut Tree,
        outcomes: &mut PathMap<MergeOutcome>,
        open: &mut PathMap<(Oid, Oid)>,
    )
        requires
            self.deep_view().graph.changes.contains_key(id.deep_view()),
        ensures
            ({
                let had = Replay {
                    pendings: old(pendings)@.map_values(|p: Pending| p.deep_view()),
                    tree: old(tree).deep_view(),
                    outcomes: old(outcomes).deep_view(),
                    open: old(open).deep_view(),
                };
                let want = replayed_one(
                    self.deep_view(),
                    had,
                    self.deep_view().graph.changes[id.deep_view()],
                    now,
                );
                &&& final(pendings)@.map_values(|p: Pending| p.deep_view()) == want.pendings
                &&& final(tree).deep_view() == want.tree
                &&& final(outcomes).deep_view() == want.outcomes
                &&& final(open).deep_view() == want.open
            }),
    {
        let ghost m = self.deep_view();
        let ghost f = |p: Pending| p.deep_view();
        let ghost ps = pendings@.map_values(f);
        let node = match self.graph.get(id) {
            Some(n) => n,
            None => {
                return;
            },
        };
        let ghost nv = node.deep_view();
        let base = if node.parents.len() > 0 {
            assert(node.parents.deep_view()[0] == node.parents@[0].deep_view());
            Some(self.graph.tree_at(&node.parents[0]))
        } else {
            None
        };
        assert(base.deep_view() == replay_base(m.graph.changes, nv));
        let merged = merge_trees(&node.tree, tree, base.as_ref(), self, now);
        take_outcomes(outcomes, open, &merged.outcomes, &merged.conflicts);
        let redundant = merged.tree.agrees(tree);
        let settles = settles_conflict(node.message.as_str());
        let n: usize = pendings.len();
        if n > 0 && (settles || redundant) {
            let mut last = match pendings.pop() {
                Some(p) => p,
                None => {
                    return;
                },
            };
            proof {
                assert(pendings@.map_values(f) =~= ps.drop_last());
                assert(last.deep_view() == ps.last());
            }
            last.tree = merged.tree.dup();
            let ghost before = last.preds.deep_view();
            crate::seqs::push(&mut last.preds, *id);
            let ghost mid = pendings@;
            pendings.push(last);
            assert(pendings@.map_values(f) =~= mid.map_values(f).push(last.deep_view()));
        } else if !redundant {
            let p = Pending {
                message: node.message.clone(),
                cid: node.change_id.dup(),
                preds: crate::seqs::single(*id),
                tree: merged.tree.dup(),
            };
            let ghost mid = pendings@;
            pendings.push(p);
            assert(pendings@.map_values(f) =~= mid.map_values(f).push(p.deep_view()));
        }
        *tree = merged.tree;
    }

    /// Mints versions one on top of another.
    fn mint_all(&mut self, pendings: &Vec<Pending>, onto: &Oid) -> (r: Vec<Oid>)
        ensures
            minted_all(
                old(self).deep_view(),
                pendings@.map_values(|p: Pending| p.deep_view()),
                onto.deep_view(),
            ) == (final(self).deep_view(), r.deep_view()),
    {
        let ghost m = self.deep_view();
        let ghost f = |p: Pending| p.deep_view();
        let ghost ps = pendings@.map_values(f);
        let mut minted: Vec<Oid> = crate::seqs::none();
        let mut parent = *onto;
        let mut i: usize = 0;
        assert(ps.take(0) =~= Seq::<PendingModel>::empty());
        while i < pendings.len()
            invariant
                0 <= i <= pendings@.len(),
                f == (|p: Pending| p.deep_view()),
                ps == pendings@.map_values(f),
                minted_all(m, ps.take(i as int), onto.deep_view()) == (self.deep_view(), minted.deep_view()),
                parent.deep_view() == (if minted.deep_view().len() == 0 {
                    onto.deep_view()
                } else {
                    minted.deep_view().last()
                }),
            decreases pendings@.len() - i,
        {
            let p = &pendings[i];
            proof {
                assert(ps.take(i as int + 1).drop_last() =~= ps.take(i as int));
                assert(ps.take(i as int + 1).last() == p.deep_view());
            }
            let change = Change {
                id: Oid::zero(),
                parents: crate::seqs::single(parent),
                message: p.message.clone(),
                tree: p.tree.dup(),
            };
            let ghost c = change_model(change);
            let ghost m1 = self.deep_view();
            if let Ok(id) = self.record_superseding(change, p.cid.dup(), p.preds.dup()) {
                crate::seqs::push(&mut minted, id);
                parent = id;
                assert(id.deep_view() == id_here(m1, c));
            }
            i = i + 1;
        }
        assert(ps.take(ps.len() as int) =~= ps);
        minted
    }

    /// Carries the first-parent line of `ours` that `onto` does not cover onto
    /// `onto`, as new versions of its changes. A change that settles a conflict, or
    /// that adds nothing, goes into the version before it. Where a conflict is
    /// left, it is recorded and nothing is minted; where the line holds work of
    /// others, nothing is done.
    pub fn carry_line(&mut self, ours: &Oid, onto: &Oid, now: u64) -> (r: Result<CarryOutcome, RepoError>)
        ensures
            match r {
                Ok(c) => carried_line(old(self).deep_view(), ours.deep_view(), onto.deep_view(), now) == Ok::<
                    (RepoModel, CarryModel),
                    ErrorModel,
                >((final(self).deep_view(), c.deep_view())),
                Err(e) => carried_line(old(self).deep_view(), ours.deep_view(), onto.deep_view(), now) == Err::<
                    (RepoModel, CarryModel),
                    ErrorModel,
                >(e.deep_view()) && final(self).deep_view() == old(self).deep_view(),
            },
    {
        if self.author.is_none() {
            return Ok(CarryOutcome::Foreign);
        }
        let ghost m = self.deep_view();
        let chain = self.suffix_of(ours, onto)?;
        let ghost c = chain.deep_view();
        if chain.len() == 0 {
            return Ok(CarryOutcome::Covered);
        }
        if !self.is_ours(&chain) {
            return Ok(CarryOutcome::Foreign);
        }
        let ghost f = |p: Pending| p.deep_view();
        let ghost start = line_tree(m.graph.changes, onto.deep_view());
        let mut pendings: Vec<Pending> = Vec::new();
        let mut tree = self.graph.tree_at(onto);
        let mut outcomes: PathMap<MergeOutcome> = PathMap::new();
        let mut open: PathMap<(Oid, Oid)> = PathMap::new();
        let mut i: usize = 0;
        proof {
            assert(c.take(0) =~= Seq::<Id>::empty());
            assert(pendings@.map_values(f) =~= Seq::<PendingModel>::empty());
        }
        while i < chain.len()
            invariant
                0 <= i <= chain@.len(),
                c == chain.deep_view(),
                m == self.deep_view(),
                f == (|p: Pending| p.deep_view()),
                forall|j: int| 0 <= j < c.len() ==> m.graph.changes.contains_key(#[trigger] c[j]),
                pendings@.map_values(f) == replayed(m, start, c.take(i as int), now).pendings,
                tree.deep_view() == replayed(m, start, c.take(i as int), now).tree,
                outcomes.deep_view() == replayed(m, start, c.take(i as int), now).outcomes,
                open.deep_view() == replayed(m, start, c.take(i as int), now).open,
            decreases chain@.len() - i,
        {
            proof {
                assert(c.take(i as int + 1).drop_last() =~= c.take(i as int));
                assert(c.take(i as int + 1).last() == chain@[i as int].deep_view());
                assert(c[i as int] == chain@[i as int].deep_view());
                assert(m.graph.changes.contains_key(c[i as int]));
            }
            self.replay_one(&chain[i], now, &mut pendings, &mut tree, &mut outcomes, &mut open);
            i = i + 1;
        }
        assert(c.take(c.len() as int) =~= c);
        if !open.is_empty() {
            self.conflicts.put_all(&open);
            return Ok(CarryOutcome::Bounced { outcomes });
        }
        assert(pendings@.map_values(f).len() == pendings@.len());
        if pendings.len() == 0 {
            return Ok(CarryOutcome::Covered);
        }
        let minted = self.mint_all(&pendings, onto);
        self.graph.retire_head(ours);
        Ok(CarryOutcome::Carried { minted, outcomes })
    }
}

/// A line that does not end in [`CarryModel::Carried`] leaves history as it is.
pub proof fn law_only_carrying_mints(m: RepoModel, ours: Id, onto: Id, now: u64)
    ensures
        carried_line(m, ours, onto, now) matches Ok((m1, c)) ==> (!(c is Carried) ==> m1.graph == m.graph
            && m1.objects == m.objects && m1.keys == m.keys),
        m.author is None ==> carried_line(m, ours, onto, now) == Ok::<(RepoModel, CarryModel), ErrorModel>(
            (m, CarryModel::Foreign),
        ),
{
}

/// The repository keeps every conflict that it had, and a delta without conflict
/// leaves it as it is.
pub proof fn law_clean_delta_changes_nothing(m: RepoModel, working: Id, target: Id, invert: bool, now: u64)
    requires
        !change_delta(m, working, target, invert, now).conflicted,
    ensures
        laid_over(m.conflicts, change_delta_conflicts(m, working, target, invert, now)) == m.conflicts,
{
    assert(laid_over(m.conflicts, change_delta_conflicts(m, working, target, invert, now)) =~= m.conflicts);
}

} // verus!
