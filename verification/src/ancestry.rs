//! Walking history: what is reachable over parent edges, and in which order.

use crate::sorted::{lemma_finite, SortedMap, SortedSet};
use crate::types::Oid;
use crate::value::Value;
use vstd::prelude::*;

verus! {

/// An address, as a model.
pub type Id = Seq<u8>;

/// The parents of each known change.
pub type Edges = Map<Id, Seq<Id>>;

/// Something that knows the parents of changes.
pub trait History {
    /// The parents of each known change.
    spec fn edges(&self) -> Edges;

    /// Only finitely many changes are known.
    proof fn edges_finite(&self)
        ensures
            self.edges().dom().finite(),
    ;

    /// The parents of a change, if it is known.
    fn parents_of(&self, id: &Oid) -> (r: Option<&Vec<Oid>>)
        ensures
            match r {
                Some(v) => self.edges().contains_key(id.deep_view()) && self.edges()[id.deep_view()]
                    == v.deep_view(),
                None => !self.edges().contains_key(id.deep_view()),
            },
    ;
}

impl History for SortedMap<Oid, Vec<Oid>> {
    open spec fn edges(&self) -> Edges {
        self.deep_view()
    }

    proof fn edges_finite(&self) {
        lemma_finite(self.pairs());
    }

    fn parents_of(&self, id: &Oid) -> (r: Option<&Vec<Oid>>) {
        self.get(id)
    }
}

// ---------------------------------------------------------------------------
// Reachability
// ---------------------------------------------------------------------------

/// Each id on `p` is a parent of the one before it.
pub open spec fn is_path(e: Edges, p: Seq<Id>) -> bool {
    &&& p.len() > 0
    &&& forall|i: int|
        0 <= i < p.len() - 1 ==> e.contains_key(#[trigger] p[i]) && e[p[i]].contains(p[i + 1])
}

/// `b` is `a` or one of its ancestors.
pub open spec fn reaches(e: Edges, a: Id, b: Id) -> bool {
    exists|p: Seq<Id>| #[trigger] is_path(e, p) && p[0] == a && p.last() == b
}

/// `b` is one of `starts` or an ancestor of one.
pub open spec fn reaches_from(e: Edges, starts: Seq<Id>, b: Id) -> bool {
    exists|a: Id| starts.contains(a) && #[trigger] reaches(e, a, b)
}

/// All that `starts` reach.
pub open spec fn closure_of(e: Edges, starts: Seq<Id>) -> Set<Id> {
    Set::new(|b: Id| reaches_from(e, starts, b))
}

pub proof fn lemma_reaches_self(e: Edges, a: Id)
    ensures
        reaches(e, a, a),
{
    let p = seq![a];
    assert(is_path(e, p) && p[0] == a && p.last() == a);
}

/// A parent of something reached is reached.
pub proof fn lemma_reaches_step(e: Edges, a: Id, b: Id, c: Id)
    requires
        reaches(e, a, b),
        e.contains_key(b),
        e[b].contains(c),
    ensures
        reaches(e, a, c),
{
    let p = choose|p: Seq<Id>| #[trigger] is_path(e, p) && p[0] == a && p.last() == b;
    let q = p.push(c);
    assert forall|i: int| 0 <= i < q.len() - 1 implies e.contains_key(#[trigger] q[i])
        && e[q[i]].contains(q[i + 1]) by {
        if i < p.len() - 1 {
            assert(q[i] == p[i] && q[i + 1] == p[i + 1]);
        } else {
            assert(q[i] == b && q[i + 1] == c);
        }
    }
    assert(is_path(e, q) && q[0] == a && q.last() == c);
}

/// Being reached is transitive.
pub proof fn lemma_reaches_transitive(e: Edges, a: Id, b: Id, c: Id)
    requires
        reaches(e, a, b),
        reaches(e, b, c),
    ensures
        reaches(e, a, c),
{
    let p = choose|p: Seq<Id>| #[trigger] is_path(e, p) && p[0] == b && p.last() == c;
    lemma_along_path(e, a, p, p.len() - 1);
}

proof fn lemma_along_path(e: Edges, a: Id, p: Seq<Id>, i: int)
    requires
        is_path(e, p),
        reaches(e, a, p[0]),
        0 <= i < p.len(),
    ensures
        reaches(e, a, p[i]),
    decreases i,
{
    if i > 0 {
        lemma_along_path(e, a, p, i - 1);
        assert(e.contains_key(p[i - 1]) && e[p[i - 1]].contains(p[i - 1 + 1]));
        lemma_reaches_step(e, a, p[i - 1], p[i]);
    }
}

/// A set that is closed under parents holds all that its members reach.
pub proof fn lemma_closed_set(e: Edges, s: Set<Id>, a: Id, b: Id)
    requires
        s.contains(a),
        forall|x: Id, y: Id| s.contains(x) && e.contains_key(x) && #[trigger] e[x].contains(y) ==> s.contains(y),
        reaches(e, a, b),
    ensures
        s.contains(b),
{
    let p = choose|p: Seq<Id>| #[trigger] is_path(e, p) && p[0] == a && p.last() == b;
    lemma_closed_along(e, s, p, p.len() - 1);
}

proof fn lemma_closed_along(e: Edges, s: Set<Id>, p: Seq<Id>, i: int)
    requires
        is_path(e, p),
        s.contains(p[0]),
        forall|x: Id, y: Id| s.contains(x) && e.contains_key(x) && #[trigger] e[x].contains(y) ==> s.contains(y),
        0 <= i < p.len(),
    ensures
        s.contains(p[i]),
    decreases i,
{
    if i > 0 {
        lemma_closed_along(e, s, p, i - 1);
        assert(e.contains_key(p[i - 1]) && e[p[i - 1]].contains(p[i - 1 + 1]));
    }
}

/// The known changes that are not in `seen` yet.
pub open spec fn unseen(e: Edges, seen: Set<Id>) -> Set<Id> {
    e.dom().difference(seen)
}

/// Seeing a new change leaves fewer to see, if it is known, and no more otherwise.
pub proof fn lemma_unseen(e: Edges, seen: Set<Id>, id: Id)
    requires
        e.dom().finite(),
        !seen.contains(id),
    ensures
        unseen(e, seen).finite(),
        unseen(e, seen.insert(id)).finite(),
        e.contains_key(id) ==> unseen(e, seen.insert(id)).len() < unseen(e, seen).len(),
        !e.contains_key(id) ==> unseen(e, seen.insert(id)).len() == unseen(e, seen).len(),
{
    assert(unseen(e, seen).subset_of(e.dom()));
    vstd::set_lib::lemma_len_subset(unseen(e, seen), e.dom());
    if e.contains_key(id) {
        assert(unseen(e, seen.insert(id)) =~= unseen(e, seen).remove(id));
        assert(unseen(e, seen).contains(id));
    } else {
        assert(unseen(e, seen.insert(id)) =~= unseen(e, seen));
    }
}

/// All that `starts` reach, the starts themselves among them.
#[verifier::spinoff_prover]
#[verifier::rlimit(50)]
pub fn closure<H: History>(history: &H, starts: &Vec<Oid>) -> (r: SortedSet<Oid>)
    ensures
        r.deep_view() == closure_of(history.edges(), starts.deep_view()),
{
    let ghost e = history.edges();
    let ghost from = starts.deep_view();
    proof {
        history.edges_finite();
    }
    let mut seen: SortedSet<Oid> = SortedSet::new();
    let mut stack: Vec<Oid> = starts.dup();
    proof {
        assert forall|a: Id| from.contains(a) implies reaches_from(e, from, a) by {
            lemma_reaches_self(e, a);
        }
    }
    while stack.len() > 0
        invariant
            e == history.edges(),
            from == starts.deep_view(),
            e.dom().finite(),
            forall|x: Id| #[trigger] seen.deep_view().contains(x) ==> reaches_from(e, from, x),
            forall|x: Id| #[trigger] stack.deep_view().contains(x) ==> reaches_from(e, from, x),
            forall|x: Id| #[trigger] from.contains(x) ==> seen.deep_view().contains(x)
                || stack.deep_view().contains(x),
            forall|x: Id, y: Id|
                seen.deep_view().contains(x) && e.contains_key(x) && #[trigger] e[x].contains(y)
                    ==> seen.deep_view().contains(y) || stack.deep_view().contains(y),
        decreases unseen(e, seen.deep_view()).len(), stack@.len(),
    {
        let ghost seen0 = seen.deep_view();
        let ghost stack0 = stack.deep_view();
        let last: usize = stack.len() - 1;
        let id = stack[last];
        let _ = stack.pop();
        let ghost v = id.deep_view();
        proof {
            assert(stack.deep_view() =~= stack0.drop_last());
            assert(stack0.last() == v);
            assert(stack0.contains(v)) by {
                assert(stack0[last as int] == v);
            }
            assert forall|x: Id| #[trigger] stack0.contains(x) implies stack.deep_view().contains(x) || x
                == v by {
                let i = choose|i: int| 0 <= i < stack0.len() && stack0[i] == x;
                if i < last {
                    assert(stack.deep_view()[i] == x);
                }
            }
            assert forall|x: Id| #[trigger] stack.deep_view().contains(x) implies stack0.contains(x) by {
                let i = choose|i: int| 0 <= i < stack.deep_view().len() && stack.deep_view()[i] == x;
                assert(stack0[i] == x);
            }
        }
        if seen.insert(id) {
            proof {
                lemma_unseen(e, seen0, v);
            }
            let ghost stack1 = stack.deep_view();
            if let Some(ps) = history.parents_of(&id) {
                let mut i: usize = 0;
                while i < ps.len()
                    invariant
                        0 <= i <= ps@.len(),
                        e.contains_key(v),
                        ps.deep_view() == e[v],
                        forall|x: Id| #[trigger] stack.deep_view().contains(x) <==> stack1.contains(x) || exists|
                            j: int,
                        |
                            0 <= j < i && #[trigger] e[v][j] == x,
                    decreases ps@.len() - i,
                {
                    let ghost had = stack.deep_view();
                    crate::seqs::push(&mut stack, ps[i]);
                    proof {
                        let y = ps@[i as int].deep_view();
                        assert(e[v][i as int] == y);
                        assert forall|x: Id| #[trigger] stack.deep_view().contains(x) <==> stack1.contains(x)
                            || exists|j: int| 0 <= j < i + 1 && #[trigger] e[v][j] == x by {
                            if had.contains(x) {
                                let k = choose|k: int| 0 <= k < had.len() && had[k] == x;
                                assert(stack.deep_view()[k] == x);
                            }
                            if x == y {
                                assert(stack.deep_view()[had.len() as int] == x);
                            }
                            if stack.deep_view().contains(x) {
                                let k = choose|k: int|
                                    0 <= k < stack.deep_view().len() && stack.deep_view()[k] == x;
                                if k < had.len() {
                                    assert(had[k] == x);
                                }
                            }
                        }
                    }
                    i = i + 1;
                }
            }
            proof {
                assert forall|x: Id| #[trigger] stack.deep_view().contains(x) implies reaches_from(
                    e,
                    from,
                    x,
                ) by {
                    if !stack1.contains(x) {
                        let a = choose|a: Id| from.contains(a) && #[trigger] reaches(e, a, v);
                        assert(e[v].contains(x));
                        lemma_reaches_step(e, a, v, x);
                    }
                }
                assert forall|x: Id, y: Id|
                    seen.deep_view().contains(x) && e.contains_key(x) && #[trigger] e[x].contains(
                        y,
                    ) implies seen.deep_view().contains(y) || stack.deep_view().contains(y) by {
                    if x == v {
                        let j = choose|j: int| 0 <= j < e[v].len() && e[v][j] == y;
                        assert(e[v][j] == y);
                    } else {
                        assert(seen0.contains(x));
                        if !seen0.contains(y) {
                            assert(stack0.contains(y));
                        }
                    }
                }
            }
        } else {
            assert(seen.deep_view() =~= seen0);
        }
    }
    proof {
        let s = seen.deep_view();
        assert forall|x: Id| s.contains(x) <==> closure_of(e, from).contains(x) by {
            if reaches_from(e, from, x) {
                let a = choose|a: Id| from.contains(a) && #[trigger] reaches(e, a, x);
                assert(s.contains(a));
                lemma_closed_set(e, s, a, x);
            }
        }
        assert(s =~= closure_of(e, from));
    }
    seen
}

// ---------------------------------------------------------------------------
// Depth-first order
// ---------------------------------------------------------------------------

/// A depth-first walk over `todo`, one after the other, that goes on from `seen`:
/// what has been seen after it, and the known changes in the order in which they
/// are left, each after its parents. `fuel` bounds the depth.
pub open spec fn dfs(e: Edges, todo: Seq<Id>, seen: Set<Id>, fuel: nat) -> (Set<Id>, Seq<Id>)
    decreases fuel, todo.len(),
{
    if todo.len() == 0 {
        (seen, Seq::empty())
    } else {
        let (s1, o1) = dfs(e, todo.drop_last(), seen, fuel);
        let id = todo.last();
        if s1.contains(id) {
            (s1, o1)
        } else if !e.contains_key(id) {
            (s1.insert(id), o1)
        } else if fuel == 0 {
            (s1, o1)
        } else {
            let (s2, o2) = dfs(e, e[id], s1.insert(id), (fuel - 1) as nat);
            (s2, (o1 + o2).push(id))
        }
    }
}

/// A depth-first walk with enough fuel: no path without repetition is longer than
/// the number of known changes.
pub open spec fn walk(e: Edges, todo: Seq<Id>) -> Seq<Id> {
    dfs(e, todo, Set::empty(), e.dom().len()).1
}

pub proof fn lemma_dfs_grows(e: Edges, todo: Seq<Id>, seen: Set<Id>, fuel: nat)
    ensures
        seen.subset_of(dfs(e, todo, seen, fuel).0),
    decreases fuel, todo.len(),
{
    if todo.len() > 0 {
        lemma_dfs_grows(e, todo.drop_last(), seen, fuel);
        let (s1, o1) = dfs(e, todo.drop_last(), seen, fuel);
        let id = todo.last();
        if !s1.contains(id) && e.contains_key(id) && fuel > 0 {
            lemma_dfs_grows(e, e[id], s1.insert(id), (fuel - 1) as nat);
        }
    }
}

/// Seeing more leaves no more to see.
proof fn lemma_unseen_shrinks(e: Edges, a: Set<Id>, b: Set<Id>)
    requires
        e.dom().finite(),
        a.subset_of(b),
    ensures
        unseen(e, b).finite(),
        unseen(e, b).len() <= unseen(e, a).len(),
{
    assert(unseen(e, a).subset_of(e.dom()));
    vstd::set_lib::lemma_len_subset(unseen(e, a), e.dom());
    assert(unseen(e, b).subset_of(unseen(e, a)));
    vstd::set_lib::lemma_len_subset(unseen(e, b), unseen(e, a));
}

/// Fuel beyond the number of changes that are left to see makes no difference.
pub proof fn lemma_dfs_fuel(e: Edges, todo: Seq<Id>, seen: Set<Id>, f: nat, g: nat)
    requires
        e.dom().finite(),
        f >= unseen(e, seen).len(),
        g >= unseen(e, seen).len(),
    ensures
        dfs(e, todo, seen, f) == dfs(e, todo, seen, g),
    decreases f, todo.len(),
{
    if todo.len() > 0 {
        lemma_dfs_fuel(e, todo.drop_last(), seen, f, g);
        let (s1, o1) = dfs(e, todo.drop_last(), seen, f);
        let id = todo.last();
        lemma_dfs_grows(e, todo.drop_last(), seen, f);
        lemma_unseen_shrinks(e, seen, s1);
        if !s1.contains(id) && e.contains_key(id) {
            lemma_unseen(e, s1, id);
            assert(f > 0 && g > 0);
            lemma_dfs_fuel(e, e[id], s1.insert(id), (f - 1) as nat, (g - 1) as nat);
        }
    }
}

/// Visits the ids in turn: marks what it sees, and appends each known change
/// after its parents.
fn visit_all<H: History>(history: &H, ids: &Vec<Oid>, seen: &mut SortedSet<Oid>, out: &mut Vec<Oid>)
    ensures
        ({
            let e = history.edges();
            let r = dfs(e, ids.deep_view(), old(seen).deep_view(), e.dom().len());
            &&& final(seen).deep_view() == r.0
            &&& final(out).deep_view() == old(out).deep_view() + r.1
        }),
    decreases unseen(history.edges(), old(seen).deep_view()).len(),
{
    let ghost e = history.edges();
    let ghost all = ids.deep_view();
    let ghost seen0 = seen.deep_view();
    let ghost out0 = out.deep_view();
    let ghost fuel = e.dom().len();
    let mut i: usize = 0;
    proof {
        history.edges_finite();
        lemma_unseen_shrinks(e, Set::empty(), seen0);
        assert(unseen(e, Set::empty()) =~= e.dom());
        assert(all.take(0) =~= Seq::<Id>::empty());
        assert(out.deep_view() =~= out0 + Seq::<Id>::empty());
    }
    while i < ids.len()
        invariant
            0 <= i <= ids@.len(),
            e == history.edges(),
            e.dom().finite(),
            all == ids.deep_view(),
            fuel == e.dom().len(),
            seen0 == old(seen).deep_view(),
            unseen(e, seen0).len() <= fuel,
            seen.deep_view() == dfs(e, all.take(i as int), seen0, fuel).0,
            out.deep_view() == out0 + dfs(e, all.take(i as int), seen0, fuel).1,
        decreases ids@.len() - i,
    {
        let id = ids[i];
        let ghost v = id.deep_view();
        let ghost s1 = seen.deep_view();
        let ghost o1 = dfs(e, all.take(i as int), seen0, fuel).1;
        proof {
            assert(all.take(i as int + 1).drop_last() =~= all.take(i as int));
            assert(all.take(i as int + 1).last() == v);
            lemma_dfs_grows(e, all.take(i as int), seen0, fuel);
            lemma_unseen_shrinks(e, seen0, s1);
        }
        if seen.insert(id) {
            proof {
                lemma_unseen(e, s1, v);
            }
            if let Some(ps) = history.parents_of(&id) {
                proof {
                    lemma_unseen_shrinks(e, Set::empty(), s1);
                    lemma_dfs_fuel(e, e[v], s1.insert(v), fuel, (fuel - 1) as nat);
                }
                visit_all(history, ps, seen, out);
                crate::seqs::push(out, id);
                proof {
                    let o2 = dfs(e, e[v], s1.insert(v), fuel).1;
                    assert((out0 + o1 + o2).push(v) =~= out0 + (o1 + o2).push(v));
                }
            }
        } else {
            assert(seen.deep_view() =~= s1);
        }
        i = i + 1;
    }
    assert(all.take(all.len() as int) =~= all);
}

/// The known changes that a depth-first walk over `ids` leaves, in that order.
pub fn walk_order<H: History>(history: &H, ids: &Vec<Oid>) -> (r: Vec<Oid>)
    ensures
        r.deep_view() == walk(history.edges(), ids.deep_view()),
{
    let mut seen: SortedSet<Oid> = SortedSet::new();
    let mut out: Vec<Oid> = Vec::new();
    let ghost empty = out.deep_view();
    visit_all(history, ids, &mut seen, &mut out);
    assert(empty =~= Seq::<Id>::empty());
    assert(out.deep_view() =~= walk(history.edges(), ids.deep_view()));
    out
}

/// What a walk leaves: each change at most once, each known, and all that it has
/// seen anew and knows.
pub proof fn lemma_dfs_members(e: Edges, todo: Seq<Id>, seen: Set<Id>, fuel: nat)
    ensures
        ({
            let (s, o) = dfs(e, todo, seen, fuel);
            &&& o.no_duplicates()
            &&& forall|x: Id| #[trigger] o.contains(x) <==> s.contains(x) && !seen.contains(x) && e.contains_key(x)
        }),
    decreases fuel, todo.len(),
{
    let (s, o) = dfs(e, todo, seen, fuel);
    if todo.len() > 0 {
        lemma_dfs_members(e, todo.drop_last(), seen, fuel);
        lemma_dfs_grows(e, todo.drop_last(), seen, fuel);
        let (s1, o1) = dfs(e, todo.drop_last(), seen, fuel);
        let id = todo.last();
        if !s1.contains(id) && e.contains_key(id) && fuel > 0 {
            lemma_dfs_members(e, e[id], s1.insert(id), (fuel - 1) as nat);
            lemma_dfs_grows(e, e[id], s1.insert(id), (fuel - 1) as nat);
            let (s2, o2) = dfs(e, e[id], s1.insert(id), (fuel - 1) as nat);
            assert forall|x: Id| #[trigger] o.contains(x) <==> s.contains(x) && !seen.contains(x)
                && e.contains_key(x) by {
                if o.contains(x) {
                    let k = choose|k: int| 0 <= k < o.len() && o[k] == x;
                    if k < o1.len() {
                        assert(o1[k] == x);
                        assert(o1.contains(x));
                    } else if k < o1.len() + o2.len() {
                        assert(o2[k - o1.len()] == x);
                        assert(o2.contains(x));
                    }
                }
                if s.contains(x) && !seen.contains(x) && e.contains_key(x) {
                    if s1.contains(x) {
                        assert(o1.contains(x));
                        let k = choose|k: int| 0 <= k < o1.len() && o1[k] == x;
                        assert(o[k] == x);
                    } else if x == id {
                        assert(o[o.len() - 1] == x);
                    } else {
                        assert(o2.contains(x));
                        let k = choose|k: int| 0 <= k < o2.len() && o2[k] == x;
                        assert(o[k + o1.len()] == x);
                    }
                }
            }
            assert forall|i: int, j: int| 0 <= i < o.len() && 0 <= j < o.len() && i != j implies o[i]
                != o[j] by {
                let a = o1.len() as int;
                let b = o2.len() as int;
                if i < a {
                    assert(o[i] == o1[i] && o1.contains(o1[i]));
                } else if i < a + b {
                    assert(o[i] == o2[i - a] && o2.contains(o2[i - a]));
                }
                if j < a {
                    assert(o[j] == o1[j] && o1.contains(o1[j]));
                } else if j < a + b {
                    assert(o[j] == o2[j - a] && o2.contains(o2[j - a]));
                }
            }
        }
    }
}

/// No change is among its own strict ancestors.
pub open spec fn acyclic(e: Edges) -> bool {
    forall|x: Id, y: Id| e.contains_key(x) && #[trigger] e[x].contains(y) ==> !reaches(e, y, x)
}

/// A change descends from another: one of its parents is it, or descends from it.
pub open spec fn descends(e: Edges, c: Id, x: Id) -> bool {
    e.contains_key(c) && exists|y: Id| e[c].contains(y) && #[trigger] reaches(e, y, x)
}

/// With enough fuel a walk sees every id that it is given.
pub proof fn lemma_dfs_sees(e: Edges, todo: Seq<Id>, seen: Set<Id>, fuel: nat)
    requires
        e.dom().finite(),
        fuel >= unseen(e, seen).len(),
    ensures
        forall|x: Id| #[trigger] todo.contains(x) ==> dfs(e, todo, seen, fuel).0.contains(x),
    decreases todo.len(),
{
    if todo.len() > 0 {
        let front = todo.drop_last();
        lemma_dfs_sees(e, front, seen, fuel);
        lemma_dfs_grows(e, front, seen, fuel);
        let (s1, o1) = dfs(e, front, seen, fuel);
        let id = todo.last();
        lemma_unseen_shrinks(e, seen, s1);
        if !s1.contains(id) && e.contains_key(id) {
            lemma_unseen(e, s1, id);
            lemma_dfs_grows(e, e[id], s1.insert(id), (fuel - 1) as nat);
        }
        assert forall|x: Id| #[trigger] todo.contains(x) implies dfs(e, todo, seen, fuel).0.contains(x) by {
            let k = choose|k: int| 0 <= k < todo.len() && todo[k] == x;
            if k < front.len() {
                assert(front[k] == x);
                assert(front.contains(x));
            }
        }
    }
}

/// `y` stands before place `k` of `o`.
pub open spec fn stands_before(o: Seq<Id>, y: Id, k: int) -> bool {
    exists|j: int| 0 <= j < k && #[trigger] o[j] == y
}

/// Every known parent of a change in `o` is in `done` or stands before it.
pub open spec fn parents_first(e: Edges, o: Seq<Id>, done: Set<Id>) -> bool {
    forall|k: int, y: Id|
        0 <= k < o.len() && e.contains_key(y) && #[trigger] e[o[k]].contains(y) ==> done.contains(y)
            || stands_before(o, y, k)
}

/// In an acyclic history a walk leaves parents before children. `done` holds what
/// was left before; every other change that has been seen is one whose ancestors
/// are being walked, so it reaches all of `todo`.
proof fn lemma_dfs_parents_first(e: Edges, todo: Seq<Id>, seen: Set<Id>, fuel: nat, done: Set<Id>)
    requires
        e.dom().finite(),
        acyclic(e),
        fuel >= unseen(e, seen).len(),
        forall|x: Id, t: Id|
            seen.contains(x) && e.contains_key(x) && !done.contains(x) && #[trigger] todo.contains(t) ==> #[trigger] reaches(
                e,
                x,
                t,
            ),
    ensures
        parents_first(e, dfs(e, todo, seen, fuel).1, done),
    decreases fuel, todo.len(),
{
    if todo.len() > 0 {
        let front = todo.drop_last();
        let id = todo.last();
        assert(todo.contains(id)) by {
            assert(todo[todo.len() - 1] == id);
        }
        assert forall|x: Id, t: Id|
            seen.contains(x) && e.contains_key(x) && !done.contains(x) && #[trigger] front.contains(
                t,
            ) implies #[trigger] reaches(e, x, t) by {
            let k = choose|k: int| 0 <= k < front.len() && front[k] == t;
            assert(todo[k] == t);
            assert(todo.contains(t));
        }
        lemma_dfs_parents_first(e, front, seen, fuel, done);
        lemma_dfs_members(e, front, seen, fuel);
        lemma_dfs_grows(e, front, seen, fuel);
        let (s1, o1) = dfs(e, front, seen, fuel);
        lemma_unseen_shrinks(e, seen, s1);
        if !s1.contains(id) && e.contains_key(id) {
            lemma_unseen(e, s1, id);
            let done2 = done.union(o1.to_set());
            let seen2 = s1.insert(id);
            let f2 = (fuel - 1) as nat;
            assert forall|x: Id, t: Id|
                seen2.contains(x) && e.contains_key(x) && !done2.contains(x) && #[trigger] e[id].contains(
                    t,
                ) implies #[trigger] reaches(e, x, t) by {
                if x != id {
                    if !seen.contains(x) {
                        assert(o1.contains(x));
                    }
                    assert(reaches(e, x, id));
                } else {
                    lemma_reaches_self(e, id);
                }
                lemma_reaches_step(e, x, id, t);
            }
            lemma_dfs_parents_first(e, e[id], seen2, f2, done2);
            lemma_dfs_members(e, e[id], seen2, f2);
            lemma_dfs_sees(e, e[id], seen2, f2);
            let (s2, o2) = dfs(e, e[id], seen2, f2);
            let o = (o1 + o2).push(id);
            assert(dfs(e, todo, seen, fuel).1 == o);
            assert forall|k: int, y: Id|
                0 <= k < o.len() && e.contains_key(y) && #[trigger] e[o[k]].contains(y) implies done.contains(
                y,
            ) || stands_before(o, y, k) by {
                if k < o1.len() {
                    assert(o[k] == o1[k]);
                    assert(e[o1[k]].contains(y));
                    if !done.contains(y) {
                        let j = choose|j: int| 0 <= j < k && #[trigger] o1[j] == y;
                        assert(o[j] == y);
                    }
                } else if k < o1.len() + o2.len() {
                    let m = k - o1.len();
                    assert(o[k] == o2[m]);
                    assert(e[o2[m]].contains(y));
                    if done2.contains(y) {
                        if !done.contains(y) {
                            assert(o1.contains(y));
                            let j = choose|j: int| 0 <= j < o1.len() && o1[j] == y;
                            assert(o[j] == y);
                        }
                    } else {
                        let j = choose|j: int| 0 <= j < m && #[trigger] o2[j] == y;
                        assert(o[j + o1.len()] == y);
                    }
                } else {
                    assert(o[k] == id);
                    assert(s2.contains(y));
                    assert(!reaches(e, y, id));
                    if y == id {
                        lemma_reaches_self(e, id);
                    }
                    if seen2.contains(y) {
                        if seen.contains(y) {
                            assert(done.contains(y) || reaches(e, y, id));
                        } else {
                            assert(o1.contains(y));
                            let j = choose|j: int| 0 <= j < o1.len() && o1[j] == y;
                            assert(o[j] == y);
                        }
                    } else {
                        assert(o2.contains(y));
                        let j = choose|j: int| 0 <= j < o2.len() && o2[j] == y;
                        assert(o[j + o1.len()] == y);
                    }
                }
            }
        }
    }
}

/// A walk over an acyclic history leaves each change at most once, leaves every
/// known change that it is given, and leaves parents before children.
pub proof fn law_walk_is_topological(e: Edges, todo: Seq<Id>)
    requires
        e.dom().finite(),
        acyclic(e),
    ensures
        walk(e, todo).no_duplicates(),
        forall|x: Id| #[trigger] walk(e, todo).contains(x) ==> e.contains_key(x),
        forall|x: Id| todo.contains(x) && e.contains_key(x) ==> #[trigger] walk(e, todo).contains(x),
        parents_first(e, walk(e, todo), Set::empty()),
{
    let none = Set::<Id>::empty();
    assert(unseen(e, none) =~= e.dom());
    lemma_dfs_members(e, todo, none, e.dom().len());
    lemma_dfs_sees(e, todo, none, e.dom().len());
    lemma_dfs_parents_first(e, todo, none, e.dom().len(), none);
}

/// A walk leaves each change once.
pub proof fn lemma_walk_once(e: Edges, todo: Seq<Id>)
    requires
        e.dom().finite(),
    ensures
        walk(e, todo).no_duplicates(),
{
    let none = Set::<Id>::empty();
    assert(unseen(e, none) =~= e.dom());
    lemma_dfs_members(e, todo, none, e.dom().len());
}

/// The changes that a walk leaves are those that its ids reach.
pub proof fn law_walk_is_ancestry(e: Edges, todo: Seq<Id>, x: Id)
    requires
        e.dom().finite(),
    ensures
        walk(e, todo).contains(x) <==> e.contains_key(x) && reaches_from(e, todo, x),
{
    let none = Set::<Id>::empty();
    let fuel = e.dom().len();
    assert(unseen(e, none) =~= e.dom());
    lemma_dfs_members(e, todo, none, fuel);
    lemma_dfs_sees(e, todo, none, fuel);
    lemma_dfs_reached(e, todo, none, fuel);
    lemma_dfs_closed(e, todo, none, fuel);
    let s = dfs(e, todo, none, fuel).0;
    if reaches_from(e, todo, x) {
        let a = choose|a: Id| todo.contains(a) && #[trigger] reaches(e, a, x);
        assert forall|p: Id, q: Id| s.contains(p) && e.contains_key(p) && #[trigger] e[p].contains(q) implies s.contains(
            q,
        ) by {}
        lemma_closed_set(e, s, a, x);
    }
}

/// What a walk sees anew is reached from what it is given.
pub proof fn lemma_dfs_reached(e: Edges, todo: Seq<Id>, seen: Set<Id>, fuel: nat)
    ensures
        forall|x: Id| #[trigger]
            dfs(e, todo, seen, fuel).0.contains(x) ==> seen.contains(x) || reaches_from(e, todo, x),
    decreases fuel, todo.len(),
{
    if todo.len() > 0 {
        let front = todo.drop_last();
        let id = todo.last();
        assert(todo.contains(id)) by {
            assert(todo[todo.len() - 1] == id);
        }
        lemma_dfs_reached(e, front, seen, fuel);
        lemma_reaches_self(e, id);
        let (s1, o1) = dfs(e, front, seen, fuel);
        if !s1.contains(id) && e.contains_key(id) && fuel > 0 {
            lemma_dfs_reached(e, e[id], s1.insert(id), (fuel - 1) as nat);
        }
        assert forall|x: Id| #[trigger] dfs(e, todo, seen, fuel).0.contains(x) implies seen.contains(x)
            || reaches_from(e, todo, x) by {
            if s1.contains(x) {
                if !seen.contains(x) {
                    let a = choose|a: Id| front.contains(a) && #[trigger] reaches(e, a, x);
                    let k = choose|k: int| 0 <= k < front.len() && front[k] == a;
                    assert(todo[k] == a);
                    assert(todo.contains(a));
                }
            } else if x != id {
                let s2 = dfs(e, e[id], s1.insert(id), (fuel - 1) as nat).0;
                assert(s2.contains(x));
                let b = choose|b: Id| e[id].contains(b) && #[trigger] reaches(e, b, x);
                lemma_reaches_step(e, id, id, b);
                lemma_reaches_transitive(e, id, b, x);
            }
        }
    }
}

/// With enough fuel, the parents of what a walk has seen anew have been seen.
proof fn lemma_dfs_closed(e: Edges, todo: Seq<Id>, seen: Set<Id>, fuel: nat)
    requires
        e.dom().finite(),
        fuel >= unseen(e, seen).len(),
    ensures
        ({
            let s = dfs(e, todo, seen, fuel).0;
            forall|p: Id, q: Id|
                s.contains(p) && !seen.contains(p) && e.contains_key(p) && #[trigger] e[p].contains(q)
                    ==> s.contains(q)
        }),
    decreases fuel, todo.len(),
{
    if todo.len() > 0 {
        let front = todo.drop_last();
        let id = todo.last();
        lemma_dfs_closed(e, front, seen, fuel);
        lemma_dfs_grows(e, front, seen, fuel);
        let (s1, o1) = dfs(e, front, seen, fuel);
        lemma_unseen_shrinks(e, seen, s1);
        if !s1.contains(id) && e.contains_key(id) {
            lemma_unseen(e, s1, id);
            let f2 = (fuel - 1) as nat;
            lemma_dfs_closed(e, e[id], s1.insert(id), f2);
            lemma_dfs_grows(e, e[id], s1.insert(id), f2);
            lemma_dfs_sees(e, e[id], s1.insert(id), f2);
        }
    }
}

// ---------------------------------------------------------------------------
// The nearest
// ---------------------------------------------------------------------------

/// The parents of some changes, one change after another.
pub open spec fn parents_in_turn(e: Edges, ids: Seq<Id>) -> Seq<Id>
    decreases ids.len(),
{
    if ids.len() == 0 {
        Seq::empty()
    } else {
        parents_in_turn(e, ids.drop_last()) + parents_at(e, ids.last())
    }
}

/// The parents of a change; none if it is unknown.
pub open spec fn parents_at(e: Edges, id: Id) -> Seq<Id> {
    if e.contains_key(id) {
        e[id]
    } else {
        Seq::empty()
    }
}

/// What lies `k` steps from a change: itself, its parents, their parents, and so on.
pub open spec fn generation(e: Edges, start: Id, k: nat) -> Seq<Id>
    decreases k,
{
    if k == 0 {
        seq![start]
    } else {
        parents_in_turn(e, generation(e, start, (k - 1) as nat))
    }
}

/// The first known change among some that is wanted.
pub open spec fn first_of(e: Edges, wanted: Set<Id>, ids: Seq<Id>) -> Option<Id>
    decreases ids.len(),
{
    if ids.len() == 0 {
        None
    } else {
        match first_of(e, wanted, ids.drop_last()) {
            Some(x) => Some(x),
            None => if wanted.contains(ids.last()) && e.contains_key(ids.last()) {
                Some(ids.last())
            } else {
                None
            },
        }
    }
}

/// The least number of steps from a change to something wanted.
pub open spec fn is_nearest(e: Edges, wanted: Set<Id>, start: Id, k: nat) -> bool {
    &&& first_of(e, wanted, generation(e, start, k)) is Some
    &&& forall|j: nat| j < k ==> first_of(e, wanted, #[trigger] generation(e, start, j)) is None
}

/// What is wanted and lies the fewest steps from a change; of several, the first.
pub open spec fn nearest(e: Edges, wanted: Set<Id>, start: Id) -> Option<Id> {
    if exists|k: nat| is_nearest(e, wanted, start, k) {
        let k = choose|k: nat| is_nearest(e, wanted, start, k);
        first_of(e, wanted, generation(e, start, k))
    } else {
        None
    }
}

/// The common ancestor that lies the fewest steps from `b`; of several, the first.
pub open spec fn nearest_common(e: Edges, a: Id, b: Id) -> Option<Id> {
    nearest(e, closure_of(e, seq![a]), b)
}

/// What lies fewer than `k` steps from a change.
spec fn sooner(e: Edges, start: Id, k: nat) -> Set<Id> {
    Set::new(|x: Id| exists|j: nat| j < k && (#[trigger] generation(e, start, j)).contains(x))
}

/// `f` is `g` without some of what is in `known` or stands in `f` before.
spec fn thinned(f: Seq<Id>, g: Seq<Id>, known: Set<Id>) -> bool
    decreases g.len(),
{
    if g.len() == 0 {
        f.len() == 0
    } else {
        ||| f.len() > 0 && f.last() == g.last() && thinned(f.drop_last(), g.drop_last(), known)
        ||| thinned(f, g.drop_last(), known) && (known.contains(g.last()) || f.contains(g.last()))
    }
}

/// The parents of those of some changes that have not been seen, each once, and what
/// has been seen then.
spec fn collected(e: Edges, f: Seq<Id>, seen: Set<Id>) -> (Seq<Id>, Set<Id>)
    decreases f.len(),
{
    if f.len() == 0 {
        (Seq::empty(), seen)
    } else {
        let (next, s) = collected(e, f.drop_last(), seen);
        if s.contains(f.last()) {
            (next, s)
        } else {
            (next + parents_at(e, f.last()), s.insert(f.last()))
        }
    }
}

proof fn lemma_contains_last(s: Seq<Id>, x: Id)
    requires
        s.len() > 0,
    ensures
        s.contains(x) <==> s.drop_last().contains(x) || x == s.last(),
{
    if s.contains(x) {
        let k = choose|k: int| 0 <= k < s.len() && s[k] == x;
        if k < s.len() - 1 {
            assert(s.drop_last()[k] == x);
        }
    }
    if s.drop_last().contains(x) {
        let k = choose|k: int| 0 <= k < s.drop_last().len() && s.drop_last()[k] == x;
        assert(s[k] == x);
    }
    if x == s.last() {
        assert(s[s.len() - 1] == x);
    }
}

proof fn lemma_contains_both(a: Seq<Id>, b: Seq<Id>, x: Id)
    ensures
        (a + b).contains(x) <==> a.contains(x) || b.contains(x),
{
    if a.contains(x) {
        let k = choose|k: int| 0 <= k < a.len() && a[k] == x;
        assert((a + b)[k] == x);
    }
    if b.contains(x) {
        let k = choose|k: int| 0 <= k < b.len() && b[k] == x;
        assert((a + b)[a.len() + k] == x);
    }
    if (a + b).contains(x) {
        let k = choose|k: int| 0 <= k < (a + b).len() && (a + b)[k] == x;
        if k < a.len() {
            assert(a[k] == x);
        } else {
            assert(b[k - a.len()] == x);
        }
    }
}

/// The first is wanted, known and among them; there is one whenever there can be.
proof fn lemma_first_of(e: Edges, wanted: Set<Id>, ids: Seq<Id>)
    ensures
        match first_of(e, wanted, ids) {
            Some(x) => ids.contains(x) && wanted.contains(x) && e.contains_key(x),
            None => forall|x: Id| #[trigger] ids.contains(x) && e.contains_key(x) ==> !wanted.contains(x),
        },
    decreases ids.len(),
{
    if ids.len() > 0 {
        lemma_first_of(e, wanted, ids.drop_last());
        assert forall|x: Id| #[trigger] ids.contains(x) <==> ids.drop_last().contains(x) || x == ids.last() by {
            lemma_contains_last(ids, x);
        }
    }
}

/// What is left out changes nothing about the first, if it is not wanted.
proof fn lemma_thinned_first(e: Edges, wanted: Set<Id>, f: Seq<Id>, g: Seq<Id>, known: Set<Id>)
    requires
        thinned(f, g, known),
        forall|x: Id| #[trigger] known.contains(x) && e.contains_key(x) ==> !wanted.contains(x),
    ensures
        first_of(e, wanted, f) == first_of(e, wanted, g),
    decreases g.len(),
{
    if g.len() > 0 {
        if f.len() > 0 && f.last() == g.last() && thinned(f.drop_last(), g.drop_last(), known) {
            lemma_thinned_first(e, wanted, f.drop_last(), g.drop_last(), known);
        } else {
            lemma_thinned_first(e, wanted, f, g.drop_last(), known);
            lemma_first_of(e, wanted, f);
        }
    }
}

/// The same behind both, or what may be left out behind one.
proof fn lemma_thinned_more(f: Seq<Id>, g: Seq<Id>, t: Seq<Id>, known: Set<Id>)
    requires
        thinned(f, g, known),
    ensures
        thinned(f + t, g + t, known),
        (forall|x: Id| #[trigger] t.contains(x) ==> known.contains(x) || f.contains(x)) ==> thinned(f, g + t, known),
    decreases t.len(),
{
    if t.len() == 0 {
        assert(f + t =~= f);
        assert(g + t =~= g);
    } else {
        let t1 = t.drop_last();
        lemma_thinned_more(f, g, t1, known);
        assert((f + t).drop_last() =~= f + t1);
        assert((g + t).drop_last() =~= g + t1);
        assert((f + t).last() == t.last() && (g + t).last() == t.last());
        if forall|x: Id| #[trigger] t.contains(x) ==> known.contains(x) || f.contains(x) {
            assert forall|x: Id| #[trigger] t1.contains(x) implies known.contains(x) || f.contains(x) by {
                lemma_contains_last(t, x);
            }
            lemma_contains_last(t, t.last());
        }
    }
}

/// What has been collected: the parents of all that was not seen before.
proof fn lemma_collected(e: Edges, f: Seq<Id>, seen: Set<Id>)
    ensures
        forall|x: Id| #[trigger] collected(e, f, seen).1.contains(x) <==> seen.contains(x) || f.contains(x),
        forall|x: Id, y: Id|
            f.contains(x) && !seen.contains(x) && #[trigger] parents_at(e, x).contains(y) ==> collected(
                e,
                f,
                seen,
            ).0.contains(y),
    decreases f.len(),
{
    if f.len() > 0 {
        let front = f.drop_last();
        let id = f.last();
        lemma_collected(e, front, seen);
        let (n1, s1) = collected(e, front, seen);
        assert forall|x: Id| #[trigger] f.contains(x) <==> front.contains(x) || x == id by {
            lemma_contains_last(f, x);
        }
        assert forall|x: Id, y: Id|
            f.contains(x) && !seen.contains(x) && #[trigger] parents_at(e, x).contains(y) implies collected(
            e,
            f,
            seen,
        ).0.contains(y) by {
            lemma_contains_both(n1, parents_at(e, id), y);
        }
    }
}

/// What is collected from changes that were thinned out is what their parents are,
/// thinned out.
proof fn lemma_thinned_step(e: Edges, f: Seq<Id>, g: Seq<Id>, seen: Set<Id>, known: Set<Id>, more: Set<Id>)
    requires
        thinned(f, g, known),
        seen.subset_of(known),
        forall|x: Id, y: Id| known.contains(x) && #[trigger] parents_at(e, x).contains(y) ==> more.contains(y),
    ensures
        thinned(collected(e, f, seen).0, parents_in_turn(e, g), more),
    decreases g.len(),
{
    if g.len() > 0 {
        let x = g.last();
        let t = parents_at(e, x);
        let p1 = parents_in_turn(e, g.drop_last());
        if f.len() > 0 && f.last() == g.last() && thinned(f.drop_last(), g.drop_last(), known) {
            let front = f.drop_last();
            lemma_thinned_step(e, front, g.drop_last(), seen, known, more);
            lemma_collected(e, front, seen);
            let (n1, s1) = collected(e, front, seen);
            lemma_thinned_more(n1, p1, t, more);
            if s1.contains(x) {
                assert forall|y: Id| #[trigger] t.contains(y) implies more.contains(y) || n1.contains(y) by {
                    assert(parents_at(e, x).contains(y));
                }
            }
        } else {
            lemma_thinned_step(e, f, g.drop_last(), seen, known, more);
            lemma_collected(e, f, seen);
            let n1 = collected(e, f, seen).0;
            lemma_thinned_more(n1, p1, t, more);
            assert forall|y: Id| #[trigger] t.contains(y) implies more.contains(y) || n1.contains(y) by {
                assert(parents_at(e, x).contains(y));
            }
        }
    }
}

/// The parents of some changes are the parents of one of them.
proof fn lemma_parents_in_turn(e: Edges, ids: Seq<Id>)
    ensures
        forall|x: Id, y: Id| ids.contains(x) && #[trigger] parents_at(e, x).contains(y) ==> parents_in_turn(
            e,
            ids,
        ).contains(y),
        forall|y: Id| #[trigger]
            parents_in_turn(e, ids).contains(y) ==> exists|x: Id| ids.contains(x) && #[trigger] parents_at(
                e,
                x,
            ).contains(y),
    decreases ids.len(),
{
    if ids.len() > 0 {
        let front = ids.drop_last();
        let p1 = parents_in_turn(e, front);
        let t = parents_at(e, ids.last());
        lemma_parents_in_turn(e, front);
        assert forall|x: Id| #[trigger] ids.contains(x) <==> front.contains(x) || x == ids.last() by {
            lemma_contains_last(ids, x);
        }
        assert forall|x: Id, y: Id| ids.contains(x) && #[trigger] parents_at(e, x).contains(y) implies parents_in_turn(
            e,
            ids,
        ).contains(y) by {
            lemma_contains_both(p1, t, y);
        }
        assert forall|y: Id| #[trigger] parents_in_turn(e, ids).contains(y) implies exists|x: Id|
            ids.contains(x) && #[trigger] parents_at(e, x).contains(y) by {
            lemma_contains_both(p1, t, y);
            if p1.contains(y) {
                let x = choose|x: Id| front.contains(x) && #[trigger] parents_at(e, x).contains(y);
                assert(ids.contains(x) && parents_at(e, x).contains(y));
            } else {
                assert(ids.contains(ids.last()) && parents_at(e, ids.last()).contains(y));
            }
        }
    }
}

/// The parents of what lies fewer than `k` steps away lie at most `k` steps away.
proof fn lemma_sooner_parents(e: Edges, start: Id, k: nat)
    ensures
        forall|x: Id, y: Id|
            sooner(e, start, k).contains(x) && #[trigger] parents_at(e, x).contains(y) ==> sooner(
                e,
                start,
                k + 1,
            ).contains(y),
        sooner(e, start, k).subset_of(sooner(e, start, k + 1)),
{
    assert forall|x: Id, y: Id| sooner(e, start, k).contains(x) && #[trigger] parents_at(e, x).contains(y) implies sooner(
        e,
        start,
        k + 1,
    ).contains(y) by {
        let j = choose|j: nat| j < k && (#[trigger] generation(e, start, j)).contains(x);
        lemma_parents_in_turn(e, generation(e, start, j));
        assert(generation(e, start, j + 1).contains(y));
    }
}

/// Where nothing new lies `k` steps away, nothing new lies farther.
proof fn lemma_nothing_farther(e: Edges, start: Id, k: nat, n: nat)
    requires
        forall|x: Id| #[trigger] generation(e, start, k).contains(x) ==> sooner(e, start, k).contains(x),
        n >= k,
    ensures
        forall|x: Id| #[trigger] generation(e, start, n).contains(x) ==> sooner(e, start, k).contains(x),
    decreases n,
{
    if n > k {
        let m = (n - 1) as nat;
        lemma_nothing_farther(e, start, k, m);
        lemma_sooner_parents(e, start, k);
        lemma_parents_in_turn(e, generation(e, start, m));
        assert forall|y: Id| #[trigger] generation(e, start, n).contains(y) implies sooner(e, start, k).contains(y) by {
            let x = choose|x: Id| generation(e, start, m).contains(x) && #[trigger] parents_at(e, x).contains(y);
            assert(sooner(e, start, k).contains(x));
            assert(sooner(e, start, k + 1).contains(y));
            let j = choose|j: nat| j < k + 1 && (#[trigger] generation(e, start, j)).contains(y);
        }
    }
}

/// What leaves nothing was nothing but what may be left out.
proof fn lemma_thinned_empty(g: Seq<Id>, known: Set<Id>)
    requires
        thinned(Seq::empty(), g, known),
    ensures
        forall|x: Id| #[trigger] g.contains(x) ==> known.contains(x),
    decreases g.len(),
{
    if g.len() > 0 {
        lemma_thinned_empty(g.drop_last(), known);
        assert forall|x: Id| #[trigger] g.contains(x) implies known.contains(x) by {
            lemma_contains_last(g, x);
        }
    }
}

/// The nearest is found where the first is that any number of steps leads to.
proof fn lemma_nearest_is(e: Edges, wanted: Set<Id>, start: Id, k: nat)
    requires
        is_nearest(e, wanted, start, k),
    ensures
        nearest(e, wanted, start) == first_of(e, wanted, generation(e, start, k)),
{
    let n = choose|n: nat| is_nearest(e, wanted, start, n);
    if n < k {
        assert(first_of(e, wanted, generation(e, start, n)) is None);
    }
    if k < n {
        assert(first_of(e, wanted, generation(e, start, k)) is None);
    }
}

/// The first of some changes that is wanted and known.
fn pick<H: History>(history: &H, wanted: &SortedSet<Oid>, ids: &Vec<Oid>) -> (r: Option<Oid>)
    ensures
        r.deep_view() == first_of(history.edges(), wanted.deep_view(), ids.deep_view()),
{
    let ghost e = history.edges();
    let ghost s = ids.deep_view();
    let mut i: usize = 0;
    assert(s.take(0) =~= Seq::<Id>::empty());
    while i < ids.len()
        invariant
            0 <= i <= ids@.len(),
            e == history.edges(),
            s == ids.deep_view(),
            first_of(e, wanted.deep_view(), s.take(i as int)) is None,
        decreases ids@.len() - i,
    {
        proof {
            assert(s.take(i as int + 1).drop_last() =~= s.take(i as int));
            assert(s.take(i as int + 1).last() == ids@[i as int].deep_view());
        }
        if wanted.contains(&ids[i]) && history.parents_of(&ids[i]).is_some() {
            proof {
                lemma_first_stays(e, wanted.deep_view(), s, i as int + 1);
            }
            return Some(ids[i]);
        }
        i = i + 1;
    }
    assert(s.take(s.len() as int) =~= s);
    None
}

/// What is first among the first of some changes is first among all.
proof fn lemma_first_stays(e: Edges, wanted: Set<Id>, s: Seq<Id>, n: int)
    requires
        0 <= n <= s.len(),
        first_of(e, wanted, s.take(n)) is Some,
    ensures
        first_of(e, wanted, s) == first_of(e, wanted, s.take(n)),
    decreases s.len() - n,
{
    if n == s.len() {
        assert(s.take(n) =~= s);
    } else {
        assert(s.take(n + 1).drop_last() =~= s.take(n));
        lemma_first_stays(e, wanted, s, n + 1);
    }
}

/// Collects the parents of those that have not been seen, and marks them.
fn collect<H: History>(history: &H, front: &Vec<Oid>, seen: &mut SortedSet<Oid>) -> (next: Vec<Oid>)
    ensures
        next.deep_view() == collected(history.edges(), front.deep_view(), old(seen).deep_view()).0,
        final(seen).deep_view() == collected(history.edges(), front.deep_view(), old(seen).deep_view()).1,
        next@.len() > 0 ==> unseen(history.edges(), final(seen).deep_view()).len() < unseen(
            history.edges(),
            old(seen).deep_view(),
        ).len(),
{
    let ghost e = history.edges();
    let ghost f = front.deep_view();
    let ghost seen0 = seen.deep_view();
    proof {
        history.edges_finite();
    }
    let mut next: Vec<Oid> = crate::seqs::none();
    let mut i: usize = 0;
    assert(f.take(0) =~= Seq::<Id>::empty());
    while i < front.len()
        invariant
            0 <= i <= front@.len(),
            e == history.edges(),
            e.dom().finite(),
            f == front.deep_view(),
            next.deep_view() == collected(e, f.take(i as int), seen0).0,
            seen.deep_view() == collected(e, f.take(i as int), seen0).1,
            unseen(e, seen.deep_view()).len() <= unseen(e, seen0).len(),
            next@.len() > 0 ==> unseen(e, seen.deep_view()).len() < unseen(e, seen0).len(),
        decreases front@.len() - i,
    {
        let id = front[i];
        let ghost v = id.deep_view();
        let ghost s1 = seen.deep_view();
        let ghost n1 = next.deep_view();
        proof {
            assert(f.take(i as int + 1).drop_last() =~= f.take(i as int));
            assert(f.take(i as int + 1).last() == v);
            assert(n1.len() == next@.len());
        }
        if seen.insert(id) {
            proof {
                lemma_unseen(e, s1, v);
            }
            if let Some(ps) = history.parents_of(&id) {
                let mut k: usize = 0;
                assert(n1 + ps.deep_view().take(0) =~= n1);
                while k < ps.len()
                    invariant
                        0 <= k <= ps@.len(),
                        next.deep_view() == n1 + ps.deep_view().take(k as int),
                    decreases ps@.len() - k,
                {
                    crate::seqs::push(&mut next, ps[k]);
                    proof {
                        assert(ps.deep_view()[k as int] == ps@[k as int].deep_view());
                        assert(next.deep_view() =~= n1 + ps.deep_view().take(k as int + 1));
                    }
                    k = k + 1;
                }
                assert(ps.deep_view().take(ps@.len() as int) =~= ps.deep_view());
            } else {
                assert(n1 + parents_at(e, v) =~= n1);
            }
        } else {
            assert(seen.deep_view() =~= s1);
        }
        i = i + 1;
    }
    assert(f.take(f.len() as int) =~= f);
    next
}

/// What is wanted and lies the fewest steps from `start`; of several, the first.
pub fn first_in<H: History>(history: &H, wanted: &SortedSet<Oid>, start: &Oid) -> (r: Option<Oid>)
    ensures
        r.deep_view() == nearest(history.edges(), wanted.deep_view(), start.deep_view()),
{
    let ghost e = history.edges();
    let ghost w = wanted.deep_view();
    let ghost v = start.deep_view();
    let ghost mut k: nat = 0;
    let mut seen: SortedSet<Oid> = SortedSet::new();
    let mut front: Vec<Oid> = crate::seqs::single(*start);
    proof {
        assert(front.deep_view() =~= seq![v]);
        assert(front.deep_view().drop_last() =~= Seq::<Id>::empty());
        assert(thinned(Seq::<Id>::empty(), Seq::<Id>::empty(), sooner(e, v, 0)));
    }
    loop
        invariant
            e == history.edges(),
            w == wanted.deep_view(),
            v == start.deep_view(),
            thinned(front.deep_view(), generation(e, v, k), sooner(e, v, k)),
            seen.deep_view().subset_of(sooner(e, v, k)),
            forall|j: nat| j < k ==> first_of(e, w, #[trigger] generation(e, v, j)) is None,
        decreases unseen(e, seen.deep_view()).len(),
    {
        proof {
            assert forall|x: Id| #[trigger] sooner(e, v, k).contains(x) && e.contains_key(x) implies !w.contains(x) by {
                let j = choose|j: nat| j < k && (#[trigger] generation(e, v, j)).contains(x);
                lemma_first_of(e, w, generation(e, v, j));
            }
            lemma_thinned_first(e, w, front.deep_view(), generation(e, v, k), sooner(e, v, k));
        }
        if let Some(x) = pick(history, wanted, &front) {
            proof {
                assert(is_nearest(e, w, v, k));
                lemma_nearest_is(e, w, v, k);
            }
            return Some(x);
        }
        let ghost f = front.deep_view();
        let ghost seen0 = seen.deep_view();
        let next = collect(history, &front, &mut seen);
        proof {
            lemma_sooner_parents(e, v, k);
            lemma_thinned_step(
                e,
                f,
                generation(e, v, k),
                seen0,
                sooner(e, v, k),
                sooner(e, v, k + 1),
            );
            lemma_collected(e, f, seen0);
            assert forall|x: Id| #[trigger] seen.deep_view().contains(x) implies sooner(e, v, k + 1).contains(x) by {
                if !seen0.contains(x) {
                    lemma_thinned_within(f, generation(e, v, k), sooner(e, v, k));
                    assert(generation(e, v, k).contains(x));
                }
            }
            k = k + 1;
        }
        if next.len() == 0 {
            proof {
                assert(next.deep_view() =~= Seq::<Id>::empty());
                lemma_thinned_empty(generation(e, v, k), sooner(e, v, k));
                if exists|n: nat| is_nearest(e, w, v, n) {
                    let n = choose|n: nat| is_nearest(e, w, v, n);
                    lemma_first_of(e, w, generation(e, v, n));
                    let x = first_of(e, w, generation(e, v, n))->Some_0;
                    if n >= k {
                        lemma_nothing_farther(e, v, k, n);
                        let j = choose|j: nat| j < k && (#[trigger] generation(e, v, j)).contains(x);
                        lemma_first_of(e, w, generation(e, v, j));
                    }
                }
            }
            return None;
        }
        front = next;
    }
}

/// What was thinned out holds nothing else.
proof fn lemma_thinned_within(f: Seq<Id>, g: Seq<Id>, known: Set<Id>)
    requires
        thinned(f, g, known),
    ensures
        forall|x: Id| #[trigger] f.contains(x) ==> g.contains(x),
    decreases g.len(),
{
    if g.len() > 0 {
        if f.len() > 0 && f.last() == g.last() && thinned(f.drop_last(), g.drop_last(), known) {
            lemma_thinned_within(f.drop_last(), g.drop_last(), known);
            assert forall|x: Id| #[trigger] f.contains(x) implies g.contains(x) by {
                lemma_contains_last(f, x);
                lemma_contains_last(g, x);
            }
        } else {
            lemma_thinned_within(f, g.drop_last(), known);
            assert forall|x: Id| #[trigger] f.contains(x) implies g.contains(x) by {
                lemma_contains_last(g, x);
            }
        }
    }
}

/// The end of a path of `k` steps lies `k` steps away.
proof fn lemma_path_in_generation(e: Edges, p: Seq<Id>, k: nat)
    requires
        is_path(e, p),
        k < p.len(),
    ensures
        generation(e, p[0], k).contains(p[k as int]),
    decreases k,
{
    if k == 0 {
        assert(generation(e, p[0], 0)[0] == p[0]);
    } else {
        let j = (k - 1) as nat;
        lemma_path_in_generation(e, p, j);
        assert(e.contains_key(p[j as int]) && e[p[j as int]].contains(p[j as int + 1]));
        lemma_parents_in_turn(e, generation(e, p[0], j));
        assert(parents_at(e, p[j as int]).contains(p[k as int]));
    }
}

/// A path of `k` steps leads to what lies `k` steps away.
proof fn lemma_generation_path(e: Edges, start: Id, k: nat, x: Id) -> (p: Seq<Id>)
    requires
        generation(e, start, k).contains(x),
    ensures
        is_path(e, p),
        p.len() == k + 1,
        p[0] == start,
        p.last() == x,
    decreases k,
{
    if k == 0 {
        let p = seq![start];
        assert(generation(e, start, 0) =~= p);
        p
    } else {
        let j = (k - 1) as nat;
        lemma_parents_in_turn(e, generation(e, start, j));
        let y = choose|y: Id| generation(e, start, j).contains(y) && #[trigger] parents_at(e, y).contains(x);
        let q = lemma_generation_path(e, start, j, y);
        let p = q.push(x);
        assert forall|i: int| 0 <= i < p.len() - 1 implies e.contains_key(#[trigger] p[i]) && e[p[i]].contains(
            p[i + 1],
        ) by {
            if i < q.len() - 1 {
                assert(p[i] == q[i] && p[i + 1] == q[i + 1]);
            } else {
                assert(p[i] == y && p[i + 1] == x);
            }
        }
        p
    }
}

/// Something wanted lies the fewest steps away, if anything does.
proof fn lemma_some_nearest(e: Edges, wanted: Set<Id>, start: Id, k: nat)
    requires
        first_of(e, wanted, generation(e, start, k)) is Some,
    ensures
        exists|n: nat| n <= k && is_nearest(e, wanted, start, n),
    decreases k,
{
    if exists|j: nat| j < k && first_of(e, wanted, #[trigger] generation(e, start, j)) is Some {
        let j = choose|j: nat| j < k && first_of(e, wanted, #[trigger] generation(e, start, j)) is Some;
        lemma_some_nearest(e, wanted, start, j);
        let n = choose|n: nat| n <= j && is_nearest(e, wanted, start, n);
        assert(n <= k && is_nearest(e, wanted, start, n));
    } else {
        assert(is_nearest(e, wanted, start, k));
    }
}

/// The nearest common ancestor is a known ancestor of both. No path from the second
/// change to another known one is shorter than the path to it. There is one whenever
/// the two share a known ancestor.
pub proof fn law_nearest_common(e: Edges, a: Id, b: Id)
    ensures
        match nearest_common(e, a, b) {
            Some(x) => {
                &&& e.contains_key(x)
                &&& reaches(e, a, x)
                &&& exists|p: Seq<Id>| #[trigger] is_path(e, p) && p[0] == b && p.last() == x && (forall|q: Seq<Id>|
                    #[trigger] is_path(e, q) && q[0] == b && e.contains_key(q.last()) && reaches(e, a, q.last())
                        ==> p.len() <= q.len())
            },
            None => forall|x: Id|
                #![trigger e.contains_key(x)]
                e.contains_key(x) && reaches(e, a, x) ==> !reaches(e, b, x),
        },
{
    let wanted = closure_of(e, seq![a]);
    assert forall|x: Id| #[trigger] wanted.contains(x) <==> reaches(e, a, x) by {
        if reaches(e, a, x) {
            assert(seq![a].contains(a)) by {
                assert(seq![a][0] == a);
            }
        }
    }
    assert forall|q: Seq<Id>| #[trigger] is_path(e, q) && q[0] == b && e.contains_key(q.last()) && reaches(
        e,
        a,
        q.last(),
    ) implies exists|n: nat| n < q.len() && #[trigger] is_nearest(e, wanted, b, n) by {
        let k = (q.len() - 1) as nat;
        lemma_path_in_generation(e, q, k);
        lemma_first_of(e, wanted, generation(e, b, k));
        assert(wanted.contains(q.last()));
        lemma_some_nearest(e, wanted, b, k);
        let n = choose|n: nat| n <= k && is_nearest(e, wanted, b, n);
        assert(n < q.len() && is_nearest(e, wanted, b, n));
    }
    if exists|k: nat| is_nearest(e, wanted, b, k) {
        let k = choose|k: nat| is_nearest(e, wanted, b, k);
        lemma_nearest_is(e, wanted, b, k);
        lemma_first_of(e, wanted, generation(e, b, k));
        let x = nearest_common(e, a, b)->Some_0;
        let p = lemma_generation_path(e, b, k, x);
        assert forall|q: Seq<Id>| #[trigger] is_path(e, q) && q[0] == b && e.contains_key(q.last()) && reaches(
            e,
            a,
            q.last(),
        ) implies p.len() <= q.len() by {
            let n = choose|n: nat| n < q.len() && #[trigger] is_nearest(e, wanted, b, n);
            if n < k {
                assert(first_of(e, wanted, generation(e, b, n)) is None);
            }
        }
        assert(is_path(e, p) && p[0] == b && p.last() == x);
    } else {
        assert forall|x: Id|
            #![trigger e.contains_key(x)]
            e.contains_key(x) && reaches(e, a, x) implies !reaches(e, b, x) by {
            if reaches(e, b, x) {
                let q = choose|q: Seq<Id>| #[trigger] is_path(e, q) && q[0] == b && q.last() == x;
                assert(is_path(e, q) && q[0] == b);
            }
        }
    }
}

} // verus!
