//! What bringing one change onto another line comes to, and carrying a whole line.

use crate::ancestry::{closure_of, is_path, law_nearest_common, nearest_common, reaches, Id};
use crate::converge::{
    attention, classified, is_line, law_conflict_is_a_double_edit, law_merge_picks_a_side, merge_conflicts,
    merged_tree, reads, worst_of, Outcomes,
};
use crate::path_map::{laid_over, values_in, PathKey, Placed};
use crate::seqs::lemma_filter_contains;
use crate::sorted::{lemma_entry, lemma_listed_len, lemma_map_is_listed, pairs_of, place_of};
use crate::types::{ErrorModel, Oid, OutcomeModel, TreeModel};
use crate::text::{begins_with, finishes_with, has_text, stands_at};
use super::change_graph::{
    base_tree, change_digest, edges_of, ids_in_order, line_tree, other_than, retired, with_node, NodeModel, Nodes,
};
use super::merge::{
    carried_line, change_delta, change_delta_conflicts, delta_action, delta_of, delta_paths, delta_side,
    is_resolution, joined, joined_conflicts, joined_outcomes, joining, line_to_carry, minted_all, replayed,
    replayed_one, suffix, texts_of, unreadable, CarryModel, PendingModel,
};
use super::{got, node_here, own_read, recorded, ChangeModel, Conflicts, RepoModel};
use vstd::prelude::*;

verus! {

// ---------------------------------------------------------------------------
// One change
// ---------------------------------------------------------------------------

/// A tree has this content under a path, and its keeper reads it.
pub open spec fn holds(m: RepoModel, t: TreeModel, p: Seq<char>, now: u64, b: Seq<u8>) -> bool {
    t.contains_key(p) && got(m, t[p].v.0, m.identity, now) == Ok::<Seq<u8>, ErrorModel>(b)
}

/// The tree under a change's first parent. A root has nothing under it.
pub open spec fn tree_under(changes: Nodes, id: Id) -> TreeModel {
    if changes.contains_key(id) && changes[id].parents.len() > 0 {
        line_tree(changes, changes[id].parents[0])
    } else {
        Map::empty()
    }
}

/// The trees that a change's delta leads from and to.
pub open spec fn delta_ends(m: RepoModel, target: Id, invert: bool) -> (TreeModel, TreeModel) {
    let (after, before) = (line_tree(m.graph.changes, target), tree_under(m.graph.changes, target));
    if invert {
        (after, before)
    } else {
        (before, after)
    }
}

/// Two trees lead to different things at a path.
pub open spec fn parts_ways(a: TreeModel, b: TreeModel, p: Seq<char>) -> bool {
    (a.contains_key(p) || b.contains_key(p)) && !(a.contains_key(p) && b.contains_key(p) && a[p].v == b[p].v)
}

/// One content has a line that another has not.
pub open spec fn has_more(a: Seq<u8>, b: Seq<u8>) -> bool {
    exists|l: Seq<u8>| #[trigger] is_line(a, l) && !is_line(b, l)
}

/// Both the working line and the delta have edits of their own at a path.
pub open spec fn both_edit(m: RepoModel, w: TreeModel, from: TreeModel, to: TreeModel, p: Seq<char>, now: u64) -> bool {
    exists|a: Seq<u8>, b: Seq<u8>|
        {
            &&& #[trigger] holds(m, w, p, now, a)
            &&& #[trigger] holds(m, to, p, now, b)
            &&& has_more(a, b)
            &&& has_more(b, a)
            &&& !holds(m, from, p, now, a)
            &&& !holds(m, from, p, now, b)
        }
}

/// A delta is in conflict just where at some path that it changes both it and the working
/// line have edits of their own. The conflict names both sides, and nothing is done.
pub proof fn law_delta_conflicts_where_both_edit(m: RepoModel, working: Id, target: Id, invert: bool, now: u64)
    ensures
        ({
            let w = line_tree(m.graph.changes, working);
            let (from, to) = delta_ends(m, target, invert);
            let d = change_delta(m, working, target, invert, now);
            let c = change_delta_conflicts(m, working, target, invert, now);
            &&& forall|p: Seq<char>| #[trigger]
                c.contains_key(p) <==> parts_ways(from, to, p) && both_edit(m, w, from, to, p, now)
            &&& forall|p: Seq<char>| #[trigger] c.contains_key(p) ==> c[p].v == (w[p].v.0, to[p].v.0)
            &&& d.conflicted <==> exists|p: Seq<char>| #[trigger] c.contains_key(p)
            &&& d.conflicted ==> forall|p: Seq<char>| !#[trigger] d.actions.contains_key(p)
        }),
{
    let w = line_tree(m.graph.changes, working);
    let (from, to) = delta_ends(m, target, invert);
    let opens = own_read(m, now);
    let paths = if invert {
        delta_paths(from, to)
    } else {
        delta_paths(to, from)
    };
    let theirs = delta_side(m, to, to, paths, now);
    let base = delta_side(m, from, to, paths, now);
    let c = merge_conflicts(w, theirs, Some(base), opens);
    assert(c == change_delta_conflicts(m, working, target, invert, now));
    assert forall|p: Seq<char>| #[trigger] c.contains_key(p) <==> parts_ways(from, to, p) && both_edit(
        m,
        w,
        from,
        to,
        p,
        now,
    ) by {
        law_conflict_is_a_double_edit(w, theirs, Some(base), opens, p);
        if c.contains_key(p) {
            let (a, b) = choose|a: Seq<u8>, b: Seq<u8>|
                {
                    &&& #[trigger] reads(w, opens, p, a)
                    &&& #[trigger] reads(theirs, opens, p, b)
                    &&& exists|l: Seq<u8>| #[trigger] is_line(a, l) && !is_line(b, l)
                    &&& exists|l: Seq<u8>| #[trigger] is_line(b, l) && !is_line(a, l)
                    &&& !reads(base, opens, p, a) && !reads(base, opens, p, b)
                };
            assert(holds(m, w, p, now, a) && holds(m, to, p, now, b));
            assert(has_more(a, b) && has_more(b, a));
        }
        if parts_ways(from, to, p) && both_edit(m, w, from, to, p, now) {
            let (a, b) = choose|a: Seq<u8>, b: Seq<u8>|
                {
                    &&& #[trigger] holds(m, w, p, now, a)
                    &&& #[trigger] holds(m, to, p, now, b)
                    &&& has_more(a, b)
                    &&& has_more(b, a)
                    &&& !holds(m, from, p, now, a)
                    &&& !holds(m, from, p, now, b)
                };
            assert(reads(w, opens, p, a) && reads(theirs, opens, p, b));
            assert(!reads(base, opens, p, a) && !reads(base, opens, p, b));
        }
    }
    assert forall|p: Seq<char>| #[trigger] c.contains_key(p) implies c[p].v == (w[p].v.0, to[p].v.0) by {}
    if forall|p: Seq<char>| !#[trigger] c.contains_key(p) {
        assert(c =~= Map::<Seq<char>, Placed<(Id, Id)>>::empty());
    }
}

/// What a delta without conflict asks for at a path. Nothing where it changes nothing.
/// Where it leads to content that can be read: that content, if the working line has
/// nothing there, or has what the delta leads from; otherwise that content or what the
/// working line has, and no line is lost that the delta did not lead from. Where it takes
/// the path away: the same, if the working line has nothing there or has it as it was;
/// otherwise what the working line has stays. Where it leads to what cannot be read, the
/// path is left out. Paths are written as the change has them, or else its parent.
pub proof fn law_delta_leads_there(m: RepoModel, working: Id, target: Id, invert: bool, now: u64, p: Seq<char>)
    requires
        !change_delta(m, working, target, invert, now).conflicted,
        line_tree(m.graph.changes, target).dom().finite(),
        tree_under(m.graph.changes, target).dom().finite(),
    ensures
        ({
            let w = line_tree(m.graph.changes, working);
            let (from, to) = delta_ends(m, target, invert);
            let d = change_delta(m, working, target, invert, now);
            let (after, before) = (line_tree(m.graph.changes, target), tree_under(m.graph.changes, target));
            let text = if after.contains_key(p) {
                after[p].text
            } else {
                before[p].text
            };
            &&& d.actions.contains_key(p) ==> parts_ways(from, to, p) && d.actions[p].text == text
            &&& parts_ways(from, to, p) ==> {
                &&& !d.actions.contains_key(p) ==> d.skipped.contains(text) && ((to.contains_key(p) && got(
                    m,
                    to[p].v.0,
                    m.identity,
                    now,
                ) is Err) || (w.contains_key(p) && got(m, w[p].v.0, m.identity, now) is Err))
                &&& to.contains_key(p) && got(m, to[p].v.0, m.identity, now) is Err ==> !d.actions.contains_key(p)
                    && d.skipped.contains(text)
                &&& forall|y: Seq<u8>| #[trigger]
                    holds(m, to, p, now, y) && !w.contains_key(p) ==> d.actions.contains_key(p) && d.actions[p].v
                        == Some(y)
                &&& forall|x: Seq<u8>, y: Seq<u8>|
                    #![trigger holds(m, w, p, now, x), holds(m, to, p, now, y)]
                    holds(m, w, p, now, x) && holds(m, to, p, now, y) ==> {
                        &&& d.actions.contains_key(p)
                        &&& d.actions[p].v == Some(x) || d.actions[p].v == Some(y)
                        &&& holds(m, from, p, now, x) ==> d.actions[p].v == Some(y)
                        &&& holds(m, from, p, now, y) ==> d.actions[p].v == Some(x)
                        &&& !holds(m, from, p, now, x) && !holds(m, from, p, now, y) && has_more(x, y)
                            ==> d.actions[p].v == Some(x)
                        &&& !holds(m, from, p, now, x) && !holds(m, from, p, now, y) && has_more(y, x)
                            ==> d.actions[p].v == Some(y)
                    }
                &&& !to.contains_key(p) && !w.contains_key(p) ==> d.actions.contains_key(p) && d.actions[p].v is None
                &&& !to.contains_key(p) && w.contains_key(p) && w[p].v.0 == from[p].v.0 ==> d.actions.contains_key(p)
                    && d.actions[p].v is None && d.outcomes.contains_key(p) && d.outcomes[p].v is Merged
                &&& forall|x: Seq<u8>| #[trigger]
                    holds(m, w, p, now, x) && !to.contains_key(p) && w[p].v.0 != from[p].v.0
                        ==> d.actions.contains_key(p) && d.actions[p].v == Some(x)
            }
        }),
{
    let w = line_tree(m.graph.changes, working);
    let (from, to) = delta_ends(m, target, invert);
    let opens = own_read(m, now);
    let (after, before) = (line_tree(m.graph.changes, target), tree_under(m.graph.changes, target));
    let paths = delta_paths(after, before);
    let d = change_delta(m, working, target, invert, now);
    assert(d == delta_of(m, w, to, from, paths, now));
    let theirs = delta_side(m, to, to, paths, now);
    let base = delta_side(m, from, to, paths, now);
    let t = merged_tree(w, theirs, Some(base), opens);
    assert(paths.contains_key(p) == parts_ways(from, to, p));
    law_merge_picks_a_side(w, theirs, Some(base), opens, p);
    if parts_ways(from, to, p) {
        assert(paths.dom().subset_of(after.dom() + before.dom()));
        lemma_map_is_listed::<PathKey, Placed<()>>(paths);
        let s = pairs_of::<PathKey, Placed<()>>(paths);
        let i = place_of(s, p);
        lemma_entry::<PathKey, Placed<()>>(s, i);
        assert(s.contains(s[i]));
        let f = |e: (Seq<char>, Placed<()>)| unreadable(m, to, e.0, now);
        let g = |e: (Seq<char>, Placed<()>)|
            !unreadable(m, to, e.0, now) && delta_action(m, w, theirs, base, e.0, now) is None;
        let (first, second) = (s.filter(f), s.filter(g));
        assert(d.skipped == texts_of(first) + texts_of(second));
        lemma_filter_contains(s, f, s[i]);
        lemma_filter_contains(s, g, s[i]);
        if f(s[i]) {
            let k = choose|k: int| 0 <= k < first.len() && first[k] == s[i];
            assert(texts_of(first)[k] == paths[p].text);
            assert(d.skipped[k] == paths[p].text);
        } else if g(s[i]) {
            let k = choose|k: int| 0 <= k < second.len() && second[k] == s[i];
            assert(texts_of(second)[k] == paths[p].text);
            assert(d.skipped[first.len() + k] == paths[p].text);
        }
        let c = merge_conflicts(w, theirs, Some(base), opens);
        assert(c == Map::<Seq<char>, Placed<(Id, Id)>>::empty());
        law_conflict_is_a_double_edit(w, theirs, Some(base), opens, p);
        assert forall|x: Seq<u8>, y: Seq<u8>|
            #![trigger holds(m, w, p, now, x), holds(m, to, p, now, y)]
            holds(m, w, p, now, x) && holds(m, to, p, now, y) && !holds(m, from, p, now, x) && !holds(
                m,
                from,
                p,
                now,
                y,
            ) implies !has_more(x, y) || !has_more(y, x) by {
            assert(reads(w, opens, p, x) && reads(theirs, opens, p, y));
            assert(!reads(base, opens, p, x) && !reads(base, opens, p, y));
        }
    }
}

/// What a delta tells of a path. It tells of those that it changes and leads to content that
/// can be read, and of those that are taken away as they were. What the working line lacks or
/// has already has converged; what it has and nobody can weigh here is left unmerged; what
/// both edited is in conflict; and the rest was merged. Left out are just paths that the
/// delta changes and nothing is done at.
pub proof fn law_delta_tells(
    m: RepoModel,
    working: Id,
    target: Id,
    invert: bool,
    now: u64,
    p: Seq<char>,
    text: Seq<char>,
)
    requires
        line_tree(m.graph.changes, target).dom().finite(),
        tree_under(m.graph.changes, target).dom().finite(),
    ensures
        ({
            let w = line_tree(m.graph.changes, working);
            let (from, to) = delta_ends(m, target, invert);
            let d = change_delta(m, working, target, invert, now);
            let leads = to.contains_key(p) && got(m, to[p].v.0, m.identity, now) is Ok;
            let takes = !to.contains_key(p) && w.contains_key(p) && from.contains_key(p) && w[p].v.0 == from[p].v.0;
            &&& d.outcomes.contains_key(p) <==> parts_ways(from, to, p) && (leads || (takes && !d.conflicted))
            &&& d.outcomes.contains_key(p) && leads ==> {
                let o = d.outcomes[p].v;
                &&& o is Converged <==> !w.contains_key(p) || w[p].v.0 == to[p].v.0
                &&& o is RelayedUnmerged <==> w.contains_key(p) && w[p].v.0 != to[p].v.0 && got(
                    m,
                    w[p].v.0,
                    m.identity,
                    now,
                ) is Err
                &&& o is Conflict <==> both_edit(m, w, from, to, p, now)
            }
            &&& d.outcomes.contains_key(p) && takes ==> d.outcomes[p].v is Merged
            &&& d.skipped.contains(text) ==> exists|q: Seq<char>| #[trigger]
                parts_ways(from, to, q) && !d.actions.contains_key(q) && text == if line_tree(
                    m.graph.changes,
                    target,
                ).contains_key(q) {
                    line_tree(m.graph.changes, target)[q].text
                } else {
                    tree_under(m.graph.changes, target)[q].text
                }
        }),
{
    let w = line_tree(m.graph.changes, working);
    let (from, to) = delta_ends(m, target, invert);
    let opens = own_read(m, now);
    let (after, before) = (line_tree(m.graph.changes, target), tree_under(m.graph.changes, target));
    let paths = delta_paths(after, before);
    let d = change_delta(m, working, target, invert, now);
    assert(d == delta_of(m, w, to, from, paths, now));
    let theirs = delta_side(m, to, to, paths, now);
    let base = delta_side(m, from, to, paths, now);
    let c = merge_conflicts(w, theirs, Some(base), opens);
    assert(c == change_delta_conflicts(m, working, target, invert, now));
    assert(paths.contains_key(p) == parts_ways(from, to, p));
    law_delta_conflicts_where_both_edit(m, working, target, invert, now);
    law_conflict_is_a_double_edit(w, theirs, Some(base), opens, p);
    law_merge_picks_a_side(w, theirs, Some(base), opens, p);
    assert(c.contains_key(p) <==> parts_ways(from, to, p) && both_edit(m, w, from, to, p, now));
    if d.skipped.contains(text) {
        assert(paths.dom().subset_of(after.dom() + before.dom()));
        lemma_map_is_listed::<PathKey, Placed<()>>(paths);
        let s = pairs_of::<PathKey, Placed<()>>(paths);
        let f = |e: (Seq<char>, Placed<()>)| unreadable(m, to, e.0, now);
        let g = |e: (Seq<char>, Placed<()>)|
            !unreadable(m, to, e.0, now) && delta_action(m, w, theirs, base, e.0, now) is None;
        let (first, second) = (s.filter(f), s.filter(g));
        let k = choose|k: int| 0 <= k < d.skipped.len() && d.skipped[k] == text;
        let x = if k < first.len() {
            first[k]
        } else {
            second[k - first.len()]
        };
        if k < first.len() {
            assert(d.skipped[k] == texts_of(first)[k]);
            assert(first.contains(x));
            lemma_filter_contains(s, f, x);
        } else {
            assert(d.skipped[k] == texts_of(second)[k - first.len()]);
            assert(second.contains(x));
            lemma_filter_contains(s, g, x);
        }
        let j = choose|j: int| 0 <= j < s.len() && s[j] == x;
        lemma_entry::<PathKey, Placed<()>>(s, j);
        assert(paths.contains_key(x.0) && paths[x.0] == x.1);
        assert(parts_ways(from, to, x.0));
    }
}

/// Picking a change onto its own first parent is never in conflict and brings what the
/// change did: at each path that it edited, as far as both sides can be read, its content,
/// and at each that it took away, the same.
pub proof fn law_pick_onto_own_parent(m: RepoModel, working: Id, target: Id, now: u64, p: Seq<char>)
    requires
        m.graph.changes.contains_key(target),
        m.graph.changes[target].parents.len() > 0,
        m.graph.changes[target].parents[0] == working,
        line_tree(m.graph.changes, target).dom().finite(),
        line_tree(m.graph.changes, working).dom().finite(),
    ensures
        ({
            let (w, t) = (line_tree(m.graph.changes, working), line_tree(m.graph.changes, target));
            let d = change_delta(m, working, target, false, now);
            &&& !d.conflicted
            &&& forall|x: Seq<u8>, y: Seq<u8>|
                #![trigger holds(m, w, p, now, x), holds(m, t, p, now, y)]
                holds(m, w, p, now, x) && holds(m, t, p, now, y) && x != y ==> d.actions.contains_key(p)
                    && d.actions[p].v == Some(y)
            &&& forall|y: Seq<u8>| #[trigger]
                holds(m, t, p, now, y) && !w.contains_key(p) ==> d.actions.contains_key(p) && d.actions[p].v == Some(y)
            &&& w.contains_key(p) && !t.contains_key(p) ==> d.actions.contains_key(p) && d.actions[p].v is None
        }),
{
    law_delta_conflicts_where_both_edit(m, working, target, false, now);
    law_delta_leads_there(m, working, target, false, now, p);
}

/// Undoing a change on itself is never in conflict and brings back what its first parent
/// had: at each path that it edited, as far as both sides can be read, the content from
/// before, and each path that it added is taken away.
pub proof fn law_undo_on_itself(m: RepoModel, target: Id, now: u64, p: Seq<char>)
    requires
        line_tree(m.graph.changes, target).dom().finite(),
        tree_under(m.graph.changes, target).dom().finite(),
    ensures
        ({
            let (t, before) = (line_tree(m.graph.changes, target), tree_under(m.graph.changes, target));
            let d = change_delta(m, target, target, true, now);
            &&& !d.conflicted
            &&& forall|x: Seq<u8>, y: Seq<u8>|
                #![trigger holds(m, t, p, now, x), holds(m, before, p, now, y)]
                holds(m, t, p, now, x) && holds(m, before, p, now, y) && x != y ==> d.actions.contains_key(p)
                    && d.actions[p].v == Some(y)
            &&& t.contains_key(p) && !before.contains_key(p) ==> d.actions.contains_key(p) && d.actions[p].v is None
        }),
{
    law_delta_conflicts_where_both_edit(m, target, target, true, now);
    law_delta_leads_there(m, target, target, true, now, p);
}

// ---------------------------------------------------------------------------
// Two tips
// ---------------------------------------------------------------------------

/// A change that two have in common, with no shorter way from the second to any other such.
pub open spec fn is_nearest(changes: Nodes, a: Id, b: Id, x: Id) -> bool {
    let e = edges_of(changes);
    &&& changes.contains_key(x)
    &&& reaches(e, a, x)
    &&& exists|p: Seq<Id>| #[trigger]
        is_path(e, p) && p[0] == b && p.last() == x && (forall|q: Seq<Id>| #[trigger]
            is_path(e, q) && q[0] == b && changes.contains_key(q.last()) && reaches(e, a, q.last()) ==> p.len()
                <= q.len())
}

/// Two lines are held against the tree of the nearest change that they have in common, and
/// against nothing just where they have none.
pub proof fn law_base_is_the_nearest(changes: Nodes, a: Id, b: Id)
    ensures
        base_tree(changes, a, b) is Some <==> exists|x: Id| #[trigger]
            changes.contains_key(x) && reaches(edges_of(changes), a, x) && reaches(edges_of(changes), b, x),
        base_tree(changes, a, b) is Some ==> exists|x: Id| #[trigger]
            is_nearest(changes, a, b, x) && base_tree(changes, a, b)->Some_0 == changes[x].tree,
{
    let e = edges_of(changes);
    law_nearest_common(e, a, b);
    match nearest_common(e, a, b) {
        Some(x) => {
            assert(changes.contains_key(x));
            assert(is_nearest(changes, a, b, x));
        },
        None => {
            assert forall|x: Id| #[trigger] changes.contains_key(x) && reaches(e, a, x) implies !reaches(e, b, x) by {
                assert(e.contains_key(x));
            }
        },
    }
}

/// Both of two lines have edits of their own at a path, since what they have in common.
pub open spec fn both_edit_since(
    m: RepoModel,
    a: TreeModel,
    b: TreeModel,
    base: Option<TreeModel>,
    p: Seq<char>,
    now: u64,
) -> bool {
    exists|x: Seq<u8>, y: Seq<u8>|
        {
            &&& #[trigger] holds(m, a, p, now, x)
            &&& #[trigger] holds(m, b, p, now, y)
            &&& has_more(x, y)
            &&& has_more(y, x)
            &&& base is Some ==> !holds(m, base->Some_0, p, now, x) && !holds(m, base->Some_0, p, now, y)
        }
}

/// Joining two tips records one change with both as its parents. A path that one line has
/// comes from that line. Where both have it, the line that edited it since the nearest
/// common change wins over one that did not, and of two that did, the one with every line
/// of the other; ours stays where a side cannot be read. Where both have edits of their own
/// there is a conflict, which is kept and names both sides, and ours stays.
pub proof fn law_tips_are_joined(
    m: RepoModel,
    ours: Id,
    theirs: Id,
    message: Seq<char>,
    now: u64,
    cid: Option<Seq<u8>>,
    p: Seq<char>,
)
    ensures
        ({
            let (a, b) = (line_tree(m.graph.changes, ours), line_tree(m.graph.changes, theirs));
            let base = base_tree(m.graph.changes, ours, theirs);
            let c = joining(m, ours, theirs, message, now);
            let o = joined_outcomes(m, ours, theirs, now);
            let found = joined_conflicts(m, ours, theirs, now);
            let after = joined(m, ours, theirs, message, now, cid);
            &&& c.parents == seq![ours, theirs] && c.message == message
            &&& after == (RepoModel { graph: after.graph, conflicts: after.conflicts, ..m })
            &&& after.graph == with_node(m.graph, node_here(m, c, cid, Seq::empty()))
            &&& found.contains_key(p) <==> both_edit_since(m, a, b, base, p, now)
            &&& found.contains_key(p) ==> found[p].v == (a[p].v.0, b[p].v.0) && c.tree[p] == a[p] && o[p].v
                == (OutcomeModel::Conflict { ours: a[p].v.0, theirs: b[p].v.0 })
            &&& after.conflicts.contains_key(p) <==> m.conflicts.contains_key(p) || found.contains_key(p)
            &&& found.contains_key(p) ==> after.conflicts[p].v == found[p].v
            &&& m.conflicts.contains_key(p) && !found.contains_key(p) ==> after.conflicts[p] == m.conflicts[p]
            &&& o.contains_key(p) <==> b.contains_key(p)
            &&& o.contains_key(p) ==> (o[p].v is Conflict <==> found.contains_key(p))
            &&& c.tree.contains_key(p) <==> a.contains_key(p) || b.contains_key(p)
            &&& a.contains_key(p) && !b.contains_key(p) ==> c.tree[p] == a[p]
            &&& b.contains_key(p) && !a.contains_key(p) ==> c.tree[p] == b[p] && o[p].v is Converged
            &&& a.contains_key(p) && b.contains_key(p) && a[p].v.0 == b[p].v.0 ==> c.tree[p] == a[p] && o[p].v
                is Converged
            &&& a.contains_key(p) && b.contains_key(p) && a[p].v.0 != b[p].v.0 && (got(m, a[p].v.0, m.identity, now) is Err
                || got(m, b[p].v.0, m.identity, now) is Err) ==> c.tree[p] == a[p] && o[p].v is RelayedUnmerged
            &&& forall|x: Seq<u8>, y: Seq<u8>|
                #![trigger holds(m, a, p, now, x), holds(m, b, p, now, y)]
                holds(m, a, p, now, x) && holds(m, b, p, now, y) && x != y && !found.contains_key(p) ==> {
                    let unmoved = base is Some && holds(m, base->Some_0, p, now, x);
                    let unmoved_there = base is Some && holds(m, base->Some_0, p, now, y);
                    &&& o[p].v is Merged
                    &&& unmoved ==> c.tree[p].v == b[p].v
                    &&& unmoved_there ==> c.tree[p].v == a[p].v
                    &&& !unmoved && !unmoved_there && has_more(x, y) ==> c.tree[p].v == a[p].v
                    &&& !unmoved && !unmoved_there && !has_more(x, y) ==> c.tree[p].v == b[p].v
                }
        }),
{
    let (a, b) = (line_tree(m.graph.changes, ours), line_tree(m.graph.changes, theirs));
    let base = base_tree(m.graph.changes, ours, theirs);
    let opens = own_read(m, now);
    let found = joined_conflicts(m, ours, theirs, now);
    law_conflict_is_a_double_edit(a, b, base, opens, p);
    law_merge_picks_a_side(a, b, base, opens, p);
    if found.contains_key(p) {
        let (x, y) = choose|x: Seq<u8>, y: Seq<u8>|
            {
                &&& #[trigger] reads(a, opens, p, x)
                &&& #[trigger] reads(b, opens, p, y)
                &&& exists|l: Seq<u8>| #[trigger] is_line(x, l) && !is_line(y, l)
                &&& exists|l: Seq<u8>| #[trigger] is_line(y, l) && !is_line(x, l)
                &&& base matches Some(t) ==> !reads(t, opens, p, x) && !reads(t, opens, p, y)
            };
        assert(holds(m, a, p, now, x) && holds(m, b, p, now, y));
        assert(has_more(x, y) && has_more(y, x));
        if base is Some {
            assert(!reads(base->Some_0, opens, p, x) && !reads(base->Some_0, opens, p, y));
        }
    }
    if both_edit_since(m, a, b, base, p, now) {
        let (x, y) = choose|x: Seq<u8>, y: Seq<u8>|
            {
                &&& #[trigger] holds(m, a, p, now, x)
                &&& #[trigger] holds(m, b, p, now, y)
                &&& has_more(x, y)
                &&& has_more(y, x)
                &&& base is Some ==> !holds(m, base->Some_0, p, now, x) && !holds(m, base->Some_0, p, now, y)
            };
        assert(reads(a, opens, p, x) && reads(b, opens, p, y));
        if base is Some {
            assert(!reads(base->Some_0, opens, p, x) && !reads(base->Some_0, opens, p, y));
        }
    }
    assert forall|x: Seq<u8>, y: Seq<u8>|
        #![trigger holds(m, a, p, now, x), holds(m, b, p, now, y)]
        holds(m, a, p, now, x) && holds(m, b, p, now, y) && x != y && !found.contains_key(p) implies {
        let unmoved = base is Some && holds(m, base->Some_0, p, now, x);
        let unmoved_there = base is Some && holds(m, base->Some_0, p, now, y);
        let t = joining(m, ours, theirs, message, now).tree;
        &&& joined_outcomes(m, ours, theirs, now)[p].v is Merged
        &&& unmoved ==> t[p].v == b[p].v
        &&& unmoved_there ==> t[p].v == a[p].v
        &&& !unmoved && !unmoved_there && has_more(x, y) ==> t[p].v == a[p].v
        &&& !unmoved && !unmoved_there && !has_more(x, y) ==> t[p].v == b[p].v
    } by {
        assert(reads(a, opens, p, x) && reads(b, opens, p, y));
        if base is Some {
            assert(reads(base->Some_0, opens, p, x) == holds(m, base->Some_0, p, now, x));
            assert(reads(base->Some_0, opens, p, y) == holds(m, base->Some_0, p, now, y));
        }
        assert(has_more(x, y) == !(forall|l: Seq<u8>| #[trigger] is_line(x, l) ==> is_line(y, l)));
    }
}

// ---------------------------------------------------------------------------
// A line
// ---------------------------------------------------------------------------

/// The changes that lead from what `onto` covers up to `ours`, each the first parent of
/// the next.
pub open spec fn leads_up(changes: Nodes, ours: Id, onto: Id, chain: Seq<Id>) -> bool {
    let e = edges_of(changes);
    &&& forall|i: int|
        0 <= i < chain.len() ==> changes.contains_key(#[trigger] chain[i]) && !reaches(e, onto, chain[i])
    &&& forall|i: int|
        0 < i < chain.len() ==> changes[#[trigger] chain[i]].parents.len() > 0 && changes[chain[i]].parents[0]
            == chain[i - 1]
    &&& if chain.len() == 0 {
        reaches(e, onto, ours)
    } else {
        &&& chain.last() == ours
        &&& changes[chain[0]].parents.len() == 0 || reaches(e, onto, changes[chain[0]].parents[0])
    }
}

/// The suffix of a line down from a place of it.
proof fn lemma_suffix_leads(changes: Nodes, ours: Id, onto: Id, chain: Seq<Id>, k: int, fuel: nat)
    requires
        leads_up(changes, ours, onto, chain),
        0 <= k < chain.len(),
        fuel > k,
    ensures
        suffix(changes, closure_of(edges_of(changes), seq![onto]), chain[k], fuel) == Ok::<Seq<Id>, ErrorModel>(
            chain.take(k + 1).reverse(),
        ),
    decreases k,
{
    let e = edges_of(changes);
    let covered = closure_of(e, seq![onto]);
    lemma_covered(changes, onto);
    assert(changes.contains_key(chain[k]));
    if k > 0 {
        assert(changes[chain[k]].parents[0] == chain[k - 1]);
        lemma_suffix_leads(changes, ours, onto, chain, k - 1, (fuel - 1) as nat);
        assert(seq![chain[k]] + chain.take(k).reverse() =~= chain.take(k + 1).reverse());
    } else {
        reveal_with_fuel(suffix, 2);
        assert(chain.take(1).reverse() =~= seq![chain[0]]);
        assert(seq![chain[0]] + Seq::<Id>::empty() =~= seq![chain[0]]);
    }
}

proof fn lemma_covered(changes: Nodes, onto: Id)
    ensures
        forall|x: Id| #[trigger]
            closure_of(edges_of(changes), seq![onto]).contains(x) <==> reaches(edges_of(changes), onto, x),
{
    assert(seq![onto][0] == onto);
    assert(seq![onto].contains(onto));
}

/// No change comes twice on such a line.
proof fn lemma_line_apart(changes: Nodes, ours: Id, onto: Id, chain: Seq<Id>, i: int, j: int)
    requires
        leads_up(changes, ours, onto, chain),
        0 <= i < j < chain.len(),
    ensures
        chain[i] != chain[j],
    decreases i,
{
    if chain[i] == chain[j] {
        assert(changes[chain[j]].parents[0] == chain[j - 1]);
        assert(changes.contains_key(chain[j - 1]) && !reaches(edges_of(changes), onto, chain[j - 1]));
        if i > 0 {
            assert(changes[chain[i]].parents[0] == chain[i - 1]);
            lemma_line_apart(changes, ours, onto, chain, i - 1, j - 1);
        }
    }
}

/// What is to be carried is the first-parent line of `ours` down to what `onto` covers.
/// There is at most one such line, and where there is one it is found.
pub proof fn law_line_to_carry(changes: Nodes, ours: Id, onto: Id, chain: Seq<Id>)
    requires
        changes.dom().finite(),
    ensures
        line_to_carry(changes, ours, onto) == Ok::<Seq<Id>, ErrorModel>(chain) <==> leads_up(
            changes,
            ours,
            onto,
            chain,
        ),
{
    let e = edges_of(changes);
    let covered = closure_of(e, seq![onto]);
    let fuel = ids_in_order(changes).len();
    lemma_covered(changes, onto);
    lemma_map_is_listed::<Oid, NodeModel>(changes);
    lemma_listed_len::<Oid, NodeModel>(pairs_of::<Oid, NodeModel>(changes), changes);
    if leads_up(changes, ours, onto, chain) {
        if chain.len() > 0 {
            let n = chain.len() as int;
            assert(chain.no_duplicates()) by {
                assert forall|i: int, j: int| 0 <= i < chain.len() && 0 <= j < chain.len() && i != j implies chain[i]
                    != chain[j] by {
                    if i < j {
                        lemma_line_apart(changes, ours, onto, chain, i, j);
                    } else {
                        lemma_line_apart(changes, ours, onto, chain, j, i);
                    }
                }
            }
            chain.unique_seq_to_set();
            assert(chain.to_set().subset_of(changes.dom())) by {
                assert forall|x: Id| #[trigger] chain.to_set().contains(x) implies changes.dom().contains(x) by {
                    let i = choose|i: int| 0 <= i < chain.len() && chain[i] == x;
                    assert(changes.contains_key(chain[i]));
                }
            }
            vstd::set_lib::lemma_len_subset(chain.to_set(), changes.dom());
            lemma_suffix_leads(changes, ours, onto, chain, n - 1, fuel);
            assert(chain.take(n) =~= chain);
            assert(chain.reverse().reverse() =~= chain);
        } else {
            assert(Seq::<Id>::empty().reverse() =~= chain);
        }
    }
    match suffix(changes, covered, ours, fuel) {
        Ok(s) => {
            lemma_suffix_is_line(changes, ours, onto, fuel);
            if s.reverse() == chain {
                assert(leads_up(changes, ours, onto, chain));
            }
        },
        Err(_) => {},
    }
}

proof fn lemma_suffix_is_line(changes: Nodes, cur: Id, onto: Id, fuel: nat)
    ensures
        suffix(changes, closure_of(edges_of(changes), seq![onto]), cur, fuel) matches Ok(s) ==> leads_up(
            changes,
            cur,
            onto,
            s.reverse(),
        ),
    decreases fuel,
{
    let e = edges_of(changes);
    let covered = closure_of(e, seq![onto]);
    lemma_covered(changes, onto);
    match suffix(changes, covered, cur, fuel) {
        Ok(s) => {
            let r = s.reverse();
            if covered.contains(cur) {
                assert(r.len() == 0);
            } else if changes[cur].parents.len() == 0 {
                assert(r =~= seq![cur]);
            } else {
                let up = changes[cur].parents[0];
                lemma_suffix_is_line(changes, up, onto, (fuel - 1) as nat);
                let s1 = suffix(changes, covered, up, (fuel - 1) as nat)->Ok_0;
                let r1 = s1.reverse();
                assert(s == seq![cur] + s1);
                assert(r =~= r1.push(cur));
                assert forall|i: int| 0 <= i < r.len() implies changes.contains_key(#[trigger] r[i]) && !reaches(
                    e,
                    onto,
                    r[i],
                ) by {
                    if i < r1.len() {
                        assert(r[i] == r1[i]);
                    }
                }
                assert forall|i: int| 0 < i < r.len() implies changes[#[trigger] r[i]].parents.len() > 0
                    && changes[r[i]].parents[0] == r[i - 1] by {
                    if i < r1.len() {
                        assert(r[i] == r1[i] && r[i - 1] == r1[i - 1]);
                    } else {
                        assert(r[i - 1] == r1.last());
                    }
                }
                if r1.len() > 0 {
                    assert(r[0] == r1[0]);
                } else {
                    assert(r[0] == cur);
                }
            }
        },
        Err(_) => {},
    }
}

/// The message of a change that settles a conflict.
pub open spec fn settles(message: Seq<char>) -> bool {
    ||| exists|rest: Seq<char>| message == #[trigger] ("resolve conflict at "@ + rest)
    ||| exists|a: Seq<char>, b: Seq<char>| message == #[trigger] (a + " (conflict resolution: "@ + b + ")"@)
}

proof fn lemma_settles(message: Seq<char>)
    ensures
        is_resolution(message) == settles(message),
{
    reveal_strlit("resolve conflict at ");
    reveal_strlit(" (conflict resolution: ");
    reveal_strlit(")");
    let pre = "resolve conflict at "@;
    let open = " (conflict resolution: "@;
    let end = ")"@;
    if begins_with(message, pre) {
        assert(message =~= pre + message.skip(pre.len() as int));
    }
    if exists|rest: Seq<char>| message == #[trigger] (pre + rest) {
        let rest = choose|rest: Seq<char>| message == #[trigger] (pre + rest);
        assert(message.subrange(0, pre.len() as int) =~= pre);
        assert(begins_with(message, pre));
    }
    if finishes_with(message, end) && has_text(message, open) {
        let i = choose|i: int| stands_at(message, open, i);
        let n = message.len() as int;
        assert(message[n - 1] == ')') by {
            assert(message.subrange(n - 1, n)[0] == end[0]);
        }
        let j = i + open.len();
        assert(j < n) by {
            if j == n {
                assert(message.subrange(i, j)[open.len() - 1] == open[open.len() - 1]);
            }
        }
        let a = message.take(i);
        let b = message.subrange(j, n - 1);
        assert(message.subrange(i, j) =~= open);
        assert(message =~= a + open + b + end);
    }
    if exists|a: Seq<char>, b: Seq<char>| message == #[trigger] (a + open + b + end) {
        let (a, b) = choose|a: Seq<char>, b: Seq<char>| message == #[trigger] (a + open + b + end);
        let i = a.len() as int;
        assert(message.subrange(i, i + open.len()) =~= open);
        assert(stands_at(message, open, i));
        assert(message.subrange(message.len() - 1, message.len() as int) =~= end);
        assert(stands_at(message, end, message.len() - end.len()));
    }
}

/// A tree with one more change of the line on it: what the change holds against the tree
/// under it is merged with what is there.
pub open spec fn stepped(m: RepoModel, id: Id, t: TreeModel, now: u64) -> TreeModel {
    merged_tree(m.graph.changes[id].tree, t, step_base(m, id), own_read(m, now))
}

/// What a change of the line is held against: the tree under it. A root has none.
pub open spec fn step_base(m: RepoModel, id: Id) -> Option<TreeModel> {
    if m.graph.changes[id].parents.len() > 0 {
        Some(line_tree(m.graph.changes, m.graph.changes[id].parents[0]))
    } else {
        None
    }
}

/// The trees on the way up: that of `onto`, then one after each change of the line.
pub open spec fn climbs(m: RepoModel, onto: Id, chain: Seq<Id>, ts: Seq<TreeModel>, now: u64) -> bool {
    &&& ts.len() == chain.len() + 1
    &&& ts[0] == line_tree(m.graph.changes, onto)
    &&& forall|i: int| 0 <= i < chain.len() ==> ts[i + 1] == stepped(m, #[trigger] chain[i], ts[i], now)
}

/// Two trees differ at some path.
pub open spec fn moves(a: TreeModel, b: TreeModel) -> bool {
    exists|p: Seq<char>| parts_ways(a, b, p)
}

/// The places among the first `i` of the line whose changes get versions of their own:
/// those that change the tree and do not settle a conflict, and the first that changes it
/// in any case.
pub open spec fn own_places(m: RepoModel, chain: Seq<Id>, ts: Seq<TreeModel>, i: int) -> Seq<int>
    decreases i,
{
    if i <= 0 {
        Seq::empty()
    } else {
        let before = own_places(m, chain, ts, i - 1);
        if moves(ts[i - 1], ts[i]) && (before.len() == 0 || !settles(m.graph.changes[chain[i - 1]].message)) {
            before.push(i - 1)
        } else {
            before
        }
    }
}

/// Where the `k`th of some places ends: where the next begins, or at the end.
pub open spec fn place_end(ks: Seq<int>, k: int, end: int) -> int {
    if k + 1 < ks.len() {
        ks[k + 1]
    } else {
        end
    }
}

/// The places rise, and a change that changes the tree and settles nothing has one.
proof fn lemma_own_places(m: RepoModel, chain: Seq<Id>, ts: Seq<TreeModel>, i: int)
    requires
        0 <= i,
    ensures
        ({
            let ks = own_places(m, chain, ts, i);
            &&& forall|k: int| 0 <= k < ks.len() ==> 0 <= #[trigger] ks[k] < i && moves(ts[ks[k]], ts[ks[k] + 1])
            &&& forall|k: int, l: int| 0 <= k < l < ks.len() ==> #[trigger] ks[k] < #[trigger] ks[l]
            &&& forall|j: int| #![trigger chain[j]]
                0 <= j < i && moves(ts[j], ts[j + 1]) ==> ks.len() > 0 && (!settles(
                    m.graph.changes[chain[j]].message,
                ) ==> ks.contains(j))
        }),
    decreases i,
{
    if i > 0 {
        lemma_own_places(m, chain, ts, i - 1);
        let before = own_places(m, chain, ts, i - 1);
        let ks = own_places(m, chain, ts, i);
        assert forall|j: int| #![trigger chain[j]] 0 <= j < i && moves(ts[j], ts[j + 1]) implies ks.len() > 0 && (
        !settles(m.graph.changes[chain[j]].message) ==> ks.contains(j)) by {
            if j < i - 1 {
                if before.contains(j) {
                    let k = choose|k: int| 0 <= k < before.len() && before[k] == j;
                    assert(ks[k] == j);
                }
            } else if ks.len() > before.len() {
                assert(ks[before.len() as int] == j);
            }
        }
    }
}

proof fn lemma_moves(a: TreeModel, b: TreeModel)
    ensures
        moves(a, b) <==> values_in(a) != values_in(b),
{
    let (x, y) = (values_in(a), values_in(b));
    if moves(a, b) {
        let p = choose|p: Seq<char>| parts_ways(a, b, p);
        assert(x.contains_key(p) <==> a.contains_key(p));
        assert(y.contains_key(p) <==> b.contains_key(p));
        if x == y {
            assert(x[p] == y[p]);
        }
    } else {
        assert forall|p: Seq<char>| x.contains_key(p) <==> y.contains_key(p) by {
            assert(!parts_ways(a, b, p));
        }
        assert forall|p: Seq<char>| #[trigger] x.contains_key(p) implies x[p] == y[p] by {
            assert(!parts_ways(a, b, p));
        }
        assert(x =~= y);
    }
}

/// The version for the `k`th place is as it should be.
pub open spec fn version_at(
    m: RepoModel,
    chain: Seq<Id>,
    ts: Seq<TreeModel>,
    ks: Seq<int>,
    k: int,
    end: int,
    v: PendingModel,
) -> bool {
    let n = m.graph.changes[chain[ks[k]]];
    &&& v.message == n.message
    &&& v.cid == n.change_id
    &&& v.preds == chain.subrange(ks[k], place_end(ks, k, end))
    &&& v.tree == ts[place_end(ks, k, end)]
}

proof fn lemma_replay(m: RepoModel, onto: Id, chain: Seq<Id>, ts: Seq<TreeModel>, now: u64, i: int)
    requires
        climbs(m, onto, chain, ts, now),
        0 <= i <= chain.len(),
        forall|j: int| 0 <= j < chain.len() ==> m.graph.changes[#[trigger] chain[j]].id == chain[j],
    ensures
        ({
            let r = replayed(m, ts[0], chain.take(i), now);
            let ks = own_places(m, chain, ts, i);
            &&& r.tree == ts[i]
            &&& r.pendings.len() == ks.len()
            &&& forall|k: int| 0 <= k < ks.len() ==> version_at(m, chain, ts, ks, k, i, #[trigger] r.pendings[k])
        }),
    decreases i,
{
    let r = replayed(m, ts[0], chain.take(i), now);
    let ks = own_places(m, chain, ts, i);
    if i == 0 {
        assert(chain.take(0) =~= Seq::<Id>::empty());
    } else {
        lemma_replay(m, onto, chain, ts, now, i - 1);
        lemma_own_places(m, chain, ts, i - 1);
        lemma_own_places(m, chain, ts, i);
        let before = replayed(m, ts[0], chain.take(i - 1), now);
        let js = own_places(m, chain, ts, i - 1);
        let id = chain[i - 1];
        let n = m.graph.changes[id];
        assert(chain.take(i).drop_last() =~= chain.take(i - 1));
        assert(chain.take(i).last() == id);
        assert(r == replayed_one(m, before, n, now));
        assert(ts[i] == stepped(m, id, ts[i - 1], now));
        lemma_moves(ts[i - 1], ts[i]);
        lemma_settles(n.message);
        assert forall|k: int| 0 <= k < ks.len() implies version_at(m, chain, ts, ks, k, i, #[trigger] r.pendings[k]) by {
            if k < js.len() {
                assert(ks[k] == js[k]);
                assert(version_at(m, chain, ts, js, k, i - 1, before.pendings[k]));
                if k + 1 < js.len() {
                    assert(ks[k + 1] == js[k + 1]);
                    assert(r.pendings[k] == before.pendings[k]);
                } else if ks.len() == js.len() {
                    assert(before.pendings.last() == before.pendings[k]);
                    assert(chain.subrange(js[k], i - 1).push(id) =~= chain.subrange(js[k], i));
                } else {
                    assert(r.pendings[k] == before.pendings[k]);
                }
            } else {
                assert(ks[k] == i - 1);
                assert(chain.subrange(i - 1, i) =~= seq![id]);
            }
        }
    }
}

/// What came of a path when one more change of the line was laid on.
pub open spec fn step_outcome(m: RepoModel, id: Id, t: TreeModel, now: u64, p: Seq<char>) -> OutcomeModel {
    classified(m.graph.changes[id].tree, t, step_base(m, id), own_read(m, now))[p].v
}

/// The conflicts when one more change of the line was laid on.
pub open spec fn step_conflicts(m: RepoModel, id: Id, t: TreeModel, now: u64) -> Conflicts {
    merge_conflicts(m.graph.changes[id].tree, t, step_base(m, id), own_read(m, now))
}

/// A path that no change of the line was in conflict at, from a place on.
pub open spec fn clean_since(
    m: RepoModel,
    chain: Seq<Id>,
    ts: Seq<TreeModel>,
    now: u64,
    p: Seq<char>,
    j: int,
    end: int,
) -> bool {
    &&& 0 <= j < end
    &&& ts[j].contains_key(p)
    &&& forall|k: int| j <= k < end ==> !(step_outcome(m, #[trigger] chain[k], ts[k], now, p) is Conflict)
}

/// What is told of a path once the first `i` changes of the line were laid on: a conflict,
/// where the last one is in conflict; otherwise the worst that came of it since the last
/// conflict.
pub open spec fn told_right(
    m: RepoModel,
    chain: Seq<Id>,
    ts: Seq<TreeModel>,
    now: u64,
    p: Seq<char>,
    i: int,
    o: OutcomeModel,
) -> bool {
    let last = step_outcome(m, chain[i - 1], ts[i - 1], now, p);
    if last is Conflict {
        o == last
    } else {
        &&& exists|j: int| #[trigger]
            clean_since(m, chain, ts, now, p, j, i) && o == step_outcome(m, chain[j], ts[j], now, p)
        &&& forall|j: int| #[trigger]
            clean_since(m, chain, ts, now, p, j, i) ==> attention(step_outcome(m, chain[j], ts[j], now, p))
                <= attention(o)
    }
}

proof fn lemma_replay_tells(m: RepoModel, onto: Id, chain: Seq<Id>, ts: Seq<TreeModel>, now: u64, i: int, p: Seq<char>)
    requires
        climbs(m, onto, chain, ts, now),
        0 <= i <= chain.len(),
        forall|j: int| 0 <= j < chain.len() ==> m.graph.changes[#[trigger] chain[j]].id == chain[j],
    ensures
        ({
            let r = replayed(m, ts[0], chain.take(i), now);
            &&& r.open.contains_key(p) <==> i > 0 && step_conflicts(m, chain[i - 1], ts[i - 1], now).contains_key(p)
            &&& r.open.contains_key(p) ==> r.open[p].v == step_conflicts(m, chain[i - 1], ts[i - 1], now)[p].v
            &&& r.outcomes.contains_key(p) <==> i > 0 && ts[i - 1].contains_key(p)
            &&& r.outcomes.contains_key(p) ==> told_right(m, chain, ts, now, p, i, r.outcomes[p].v)
            &&& i > 0 && ts[i - 1].contains_key(p) ==> ts[i].contains_key(p)
        }),
    decreases i,
{
    if i == 0 {
        assert(chain.take(0) =~= Seq::<Id>::empty());
    } else {
        lemma_replay(m, onto, chain, ts, now, i - 1);
        lemma_replay_tells(m, onto, chain, ts, now, i - 1, p);
        let r = replayed(m, ts[0], chain.take(i), now);
        let before = replayed(m, ts[0], chain.take(i - 1), now);
        let id = chain[i - 1];
        let n = m.graph.changes[id];
        assert(chain.take(i).drop_last() =~= chain.take(i - 1));
        assert(chain.take(i).last() == id);
        assert(r == replayed_one(m, before, n, now));
        assert(ts[i - 1 + 1] == stepped(m, id, ts[i - 1], now));
        let (t, base, opens) = (ts[i - 1], step_base(m, id), own_read(m, now));
        let new = classified(n.tree, t, base, opens);
        let found = merge_conflicts(n.tree, t, base, opens);
        law_merge_picks_a_side(n.tree, t, base, opens, p);
        law_conflict_is_a_double_edit(n.tree, t, base, opens, p);
        if i > 1 {
            assert(chain[i - 2] == chain[i - 1 - 1]);
            law_merge_picks_a_side(
                m.graph.changes[chain[i - 2]].tree,
                ts[i - 2],
                step_base(m, chain[i - 2]),
                own_read(m, now),
                p,
            );
            law_conflict_is_a_double_edit(
                m.graph.changes[chain[i - 2]].tree,
                ts[i - 2],
                step_base(m, chain[i - 2]),
                own_read(m, now),
                p,
            );
        }
        if t.contains_key(p) {
            let d = step_outcome(m, id, t, now, p);
            let o = r.outcomes[p].v;
            assert(new.contains_key(p) && new[p].v == d);
            if !(d is Conflict) {
                assert(clean_since(m, chain, ts, now, p, i - 1, i));
                let had = before.outcomes.contains_key(p) && !before.open.contains_key(p);
                if had {
                    let b = before.outcomes[p].v;
                    let j = choose|j: int| #[trigger]
                        clean_since(m, chain, ts, now, p, j, i - 1) && b == step_outcome(m, chain[j], ts[j], now, p);
                    assert(clean_since(m, chain, ts, now, p, j, i)) by {
                        assert forall|k: int| j <= k < i implies !(step_outcome(m, #[trigger] chain[k], ts[k], now, p)
                            is Conflict) by {
                            if k == i - 1 {
                            } else {
                                assert(chain[k] == chain[k]);
                            }
                        }
                    }
                    assert(o == worst_of(b, d));
                } else {
                    assert(o == d || o == worst_of(OutcomeModel::Converged, d));
                }
                assert forall|j: int| #[trigger] clean_since(m, chain, ts, now, p, j, i) implies attention(
                    step_outcome(m, chain[j], ts[j], now, p),
                ) <= attention(o) by {
                    if j < i - 1 {
                        assert(clean_since(m, chain, ts, now, p, j, i - 1));
                        assert(!(step_outcome(m, chain[i - 2], ts[i - 2], now, p) is Conflict));
                        lemma_path_stays(m, onto, chain, ts, now, p, j, i - 2);
                        assert(had);
                    }
                }
            }
        }
    }
}

/// A path that is there stays.
proof fn lemma_path_stays(
    m: RepoModel,
    onto: Id,
    chain: Seq<Id>,
    ts: Seq<TreeModel>,
    now: u64,
    p: Seq<char>,
    j: int,
    k: int,
)
    requires
        climbs(m, onto, chain, ts, now),
        0 <= j <= k < ts.len(),
        ts[j].contains_key(p),
    ensures
        ts[k].contains_key(p),
    decreases k - j,
{
    if j < k {
        assert(ts[j + 1] == stepped(m, chain[j], ts[j], now));
        lemma_path_stays(m, onto, chain, ts, now, p, j + 1, k);
    }
}

/// The parent of the `k`th version: the one before it, the first on `onto`.
pub open spec fn parent_of_version(minted: Seq<Id>, onto: Id, k: int) -> Id {
    if k == 0 {
        onto
    } else {
        minted[k - 1]
    }
}

/// An id that no change had, and no version before the `k`th.
pub open spec fn is_new_version(m: RepoModel, minted: Seq<Id>, k: int) -> bool {
    !m.graph.changes.contains_key(minted[k]) && forall|j: int| 0 <= j < k ==> #[trigger] minted[j] != minted[k]
}

proof fn lemma_minted(m: RepoModel, ps: Seq<PendingModel>, onto: Id)
    ensures
        ({
            let (m1, ids) = minted_all(m, ps, onto);
            &&& ids.len() == ps.len()
            &&& m1 == (RepoModel { graph: m1.graph, ..m })
            &&& forall|x: Id| #[trigger]
                m.graph.changes.contains_key(x) ==> m1.graph.changes.contains_key(x) && m1.graph.changes[x]
                    == m.graph.changes[x]
            &&& forall|x: Id| #[trigger]
                m1.graph.changes.contains_key(x) ==> m.graph.changes.contains_key(x) || ids.contains(x)
            &&& forall|k: int|
                0 <= k < ids.len() ==> #[trigger] ids[k] == change_digest(
                    m.author,
                    ps[k].message,
                    seq![parent_of_version(ids, onto, k)],
                    ps[k].tree,
                ) && m1.graph.changes.contains_key(ids[k])
            &&& forall|k: int|
                0 <= k < ids.len() && is_new_version(m, ids, k) ==> m1.graph.changes[#[trigger] ids[k]] == (NodeModel {
                    id: ids[k],
                    parents: seq![parent_of_version(ids, onto, k)],
                    message: ps[k].message,
                    tree: ps[k].tree,
                    author: m.author,
                    signature: None,
                    change_id: ps[k].cid,
                    predecessors: ps[k].preds,
                })
        }),
    decreases ps.len(),
{
    if ps.len() > 0 {
        let front = ps.drop_last();
        lemma_minted(m, front, onto);
        let (m0, js) = minted_all(m, front, onto);
        let (m1, ids) = minted_all(m, ps, onto);
        let last = ps.len() - 1;
        let v = ps.last();
        let up = if js.len() == 0 {
            onto
        } else {
            js.last()
        };
        let c = ChangeModel { parents: seq![up], message: v.message, tree: v.tree };
        let n = node_here(m0, c, v.cid, v.preds);
        assert(m1 == recorded(m0, c, v.cid, v.preds));
        assert(ids == js.push(n.id));
        assert(ids[last] == n.id);
        assert(parent_of_version(ids, onto, last) == up);
        assert forall|k: int| 0 <= k < ids.len() implies #[trigger] ids[k] == change_digest(
            m.author,
            ps[k].message,
            seq![parent_of_version(ids, onto, k)],
            ps[k].tree,
        ) && m1.graph.changes.contains_key(ids[k]) by {
            if k < last {
                assert(ids[k] == js[k]);
                assert(front[k] == ps[k]);
                assert(parent_of_version(ids, onto, k) == parent_of_version(js, onto, k));
            }
        }
        assert forall|k: int| 0 <= k < ids.len() && is_new_version(m, ids, k) implies m1.graph.changes[#[trigger] ids[k]]
            == (NodeModel {
            id: ids[k],
            parents: seq![parent_of_version(ids, onto, k)],
            message: ps[k].message,
            tree: ps[k].tree,
            author: m.author,
            signature: None,
            change_id: ps[k].cid,
            predecessors: ps[k].preds,
        }) by {
            if k < last {
                assert(ids[k] == js[k]);
                assert(front[k] == ps[k]);
                assert(parent_of_version(ids, onto, k) == parent_of_version(js, onto, k));
                assert(is_new_version(m, js, k)) by {
                    assert forall|j: int| 0 <= j < k implies #[trigger] js[j] != js[k] by {
                        assert(ids[j] == js[j]);
                    }
                }
                assert(m0.graph.changes.contains_key(js[k]));
            } else {
                if m0.graph.changes.contains_key(n.id) {
                    assert(js.contains(n.id));
                    let j = choose|j: int| 0 <= j < js.len() && js[j] == n.id;
                    assert(ids[j] == ids[k]);
                }
            }
        }
        assert forall|x: Id| #[trigger] m1.graph.changes.contains_key(x) implies m.graph.changes.contains_key(x)
            || ids.contains(x) by {
            if m0.graph.changes.contains_key(x) {
                if js.contains(x) {
                    let j = choose|j: int| 0 <= j < js.len() && js[j] == x;
                    assert(ids[j] == x);
                }
            } else {
                assert(ids[last] == x);
            }
        }
    }
}

/// Minting leaves the heads alone that it does not build on.
#[verifier::spinoff_prover]
#[verifier::rlimit(40)]
proof fn lemma_minted_heads(m: RepoModel, ps: Seq<PendingModel>, onto: Id)
    ensures
        ({
            let (m1, ids) = minted_all(m, ps, onto);
            forall|h: Id| #![trigger m1.graph.heads.contains(h)]
                h != onto && !ids.contains(h) ==> (m1.graph.heads.contains(h) <==> m.graph.heads.contains(h))
        }),
    decreases ps.len(),
{
    if ps.len() > 0 {
        let front = ps.drop_last();
        lemma_minted_heads(m, front, onto);
        lemma_minted(m, front, onto);
        let (m0, js) = minted_all(m, front, onto);
        let (m1, ids) = minted_all(m, ps, onto);
        let last = ps.len() - 1;
        let v = ps.last();
        let up = if js.len() == 0 {
            onto
        } else {
            js.last()
        };
        let c = ChangeModel { parents: seq![up], message: v.message, tree: v.tree };
        let n = node_here(m0, c, v.cid, v.preds);
        assert(m1 == recorded(m0, c, v.cid, v.preds));
        assert(ids == js.push(n.id));
        assert forall|h: Id| #![trigger m1.graph.heads.contains(h)] h != onto && !ids.contains(h) implies (
        m1.graph.heads.contains(h) <==> m.graph.heads.contains(h)) by {
            assert(!js.contains(h)) by {
                if js.contains(h) {
                    let j = choose|j: int| 0 <= j < js.len() && js[j] == h;
                    assert(ids[j] == h);
                }
            }
            assert(h != n.id) by {
                assert(ids[last] == n.id);
            }
            assert(h != up) by {
                if js.len() > 0 {
                    assert(js.contains(js.last())) by {
                        assert(js[js.len() - 1] == js.last());
                    }
                }
            }
            let keeps = |x: Id| !n.parents.contains(x);
            lemma_filter_contains(m0.graph.heads, keeps, h);
            assert(!n.parents.contains(h)) by {
                if n.parents.contains(h) {
                    assert(n.parents[0] == up);
                }
            }
            let kept = m0.graph.heads.filter(keeps);
            assert(kept.push(n.id).contains(h) <==> kept.contains(h)) by {
                if kept.push(n.id).contains(h) {
                    let j = choose|j: int| 0 <= j < kept.push(n.id).len() && kept.push(n.id)[j] == h;
                    assert(kept[j] == h);
                }
                if kept.contains(h) {
                    let j = choose|j: int| 0 <= j < kept.len() && kept[j] == h;
                    assert(kept.push(n.id)[j] == h);
                }
            }
        }
    }
}

/// What is told of the paths of a line.
pub open spec fn all_told_right(
    m: RepoModel,
    chain: Seq<Id>,
    ts: Seq<TreeModel>,
    now: u64,
    outcomes: Outcomes,
) -> bool {
    let n = chain.len() as int;
    &&& forall|p: Seq<char>| #[trigger] outcomes.contains_key(p) <==> ts[n - 1].contains_key(p)
    &&& forall|p: Seq<char>| #[trigger]
        outcomes.contains_key(p) ==> told_right(m, chain, ts, now, p, n, outcomes[p].v)
}

/// A repository in which the conflicts of a line's last change are recorded besides those
/// that were, and nothing else is different.
pub open spec fn bounced_right(m: RepoModel, chain: Seq<Id>, ts: Seq<TreeModel>, now: u64, m1: RepoModel) -> bool {
    let n = chain.len() as int;
    let found = step_conflicts(m, chain[n - 1], ts[n - 1], now);
    &&& m1 == (RepoModel { conflicts: m1.conflicts, ..m })
    &&& forall|p: Seq<char>| #[trigger]
        m1.conflicts.contains_key(p) <==> m.conflicts.contains_key(p) || found.contains_key(p)
    &&& forall|p: Seq<char>| #[trigger]
        m1.conflicts.contains_key(p) ==> m1.conflicts[p].v == (if found.contains_key(p) {
            found[p].v
        } else {
            m.conflicts[p].v
        })
}

/// The version that the `k`th place gets.
pub open spec fn version_for(
    m: RepoModel,
    onto: Id,
    chain: Seq<Id>,
    ts: Seq<TreeModel>,
    ks: Seq<int>,
    minted: Seq<Id>,
    k: int,
) -> NodeModel {
    let n = m.graph.changes[chain[ks[k]]];
    let end = place_end(ks, k, chain.len() as int);
    let parents = seq![parent_of_version(minted, onto, k)];
    NodeModel {
        id: change_digest(m.author, n.message, parents, ts[end]),
        parents,
        message: n.message,
        tree: ts[end],
        author: m.author,
        signature: None,
        change_id: n.change_id,
        predecessors: chain.subrange(ks[k], end),
    }
}

/// A repository that has the versions of a line besides the changes that were there, and in
/// which the old tip is no head any more, and nothing else is different.
pub open spec fn carried_right(
    m: RepoModel,
    ours: Id,
    onto: Id,
    chain: Seq<Id>,
    ts: Seq<TreeModel>,
    minted: Seq<Id>,
    m1: RepoModel,
) -> bool {
    let ks = own_places(m, chain, ts, chain.len() as int);
    &&& minted.len() == ks.len()
    &&& m1 == (RepoModel { graph: m1.graph, ..m })
    &&& forall|x: Id| #[trigger]
        m.graph.changes.contains_key(x) ==> m1.graph.changes.contains_key(x) && m1.graph.changes[x]
            == m.graph.changes[x]
    &&& forall|x: Id| #[trigger]
        m1.graph.changes.contains_key(x) ==> m.graph.changes.contains_key(x) || minted.contains(x)
    &&& !m1.graph.heads.contains(ours)
    &&& forall|h: Id| #![trigger m1.graph.heads.contains(h)]
        h != ours && h != onto && !minted.contains(h) ==> (m1.graph.heads.contains(h) <==> m.graph.heads.contains(h))
    &&& forall|k: int|
        0 <= k < ks.len() ==> m1.graph.changes.contains_key(#[trigger] minted[k]) && minted[k] == version_for(
            m,
            onto,
            chain,
            ts,
            ks,
            minted,
            k,
        ).id
    &&& forall|k: int|
        0 <= k < ks.len() && is_new_version(m, minted, k) ==> m1.graph.changes[#[trigger] minted[k]] == version_for(
            m,
            onto,
            chain,
            ts,
            ks,
            minted,
            k,
        )
}

proof fn lemma_carried_right(m: RepoModel, ours: Id, onto: Id, chain: Seq<Id>, ts: Seq<TreeModel>, ps: Seq<PendingModel>)
    requires
        ({
            let ks = own_places(m, chain, ts, chain.len() as int);
            &&& ps.len() == ks.len()
            &&& forall|k: int|
                0 <= k < ks.len() ==> version_at(m, chain, ts, ks, k, chain.len() as int, #[trigger] ps[k])
        }),
    ensures
        ({
            let (m1, minted) = minted_all(m, ps, onto);
            carried_right(m, ours, onto, chain, ts, minted, RepoModel { graph: retired(m1.graph, ours), ..m1 })
        }),
{
    let ks = own_places(m, chain, ts, chain.len() as int);
    lemma_minted(m, ps, onto);
    lemma_minted_heads(m, ps, onto);
    let (m0, minted) = minted_all(m, ps, onto);
    let m1 = RepoModel { graph: retired(m0.graph, ours), ..m0 };
    assert forall|h: Id| #![trigger m1.graph.heads.contains(h)] m1.graph.heads.contains(h) <==> h != ours
        && m0.graph.heads.contains(h) by {
        lemma_filter_contains(m0.graph.heads, other_than(ours), h);
    }
    assert forall|k: int| 0 <= k < ks.len() implies m1.graph.changes.contains_key(#[trigger] minted[k]) && minted[k]
        == version_for(m, onto, chain, ts, ks, minted, k).id by {
        assert(version_at(m, chain, ts, ks, k, chain.len() as int, ps[k]));
    }
    assert forall|k: int| 0 <= k < ks.len() && is_new_version(m, minted, k) implies m1.graph.changes[#[trigger] minted[k]]
        == version_for(m, onto, chain, ts, ks, minted, k) by {
        assert(version_at(m, chain, ts, ks, k, chain.len() as int, ps[k]));
    }
    assert(m1 == (RepoModel { graph: m1.graph, ..m }));
}

proof fn lemma_line_told(m: RepoModel, onto: Id, chain: Seq<Id>, ts: Seq<TreeModel>, now: u64)
    requires
        chain.len() > 0,
        climbs(m, onto, chain, ts, now),
        forall|j: int| 0 <= j < chain.len() ==> m.graph.changes[#[trigger] chain[j]].id == chain[j],
    ensures
        ({
            let n = chain.len() as int;
            let r = replayed(m, ts[0], chain, now);
            let found = step_conflicts(m, chain[n - 1], ts[n - 1], now);
            &&& all_told_right(m, chain, ts, now, r.outcomes)
            &&& bounced_right(m, chain, ts, now, RepoModel { conflicts: laid_over(m.conflicts, r.open), ..m })
            &&& r.open != Map::<Seq<char>, Placed<(Id, Id)>>::empty() <==> exists|p: Seq<char>| #[trigger]
                found.contains_key(p)
        }),
{
    let n = chain.len() as int;
    let r = replayed(m, ts[0], chain, now);
    assert(chain.take(n) =~= chain);
    let found = step_conflicts(m, chain[n - 1], ts[n - 1], now);
    assert forall|p: Seq<char>| #[trigger] r.open.contains_key(p) <==> found.contains_key(p) by {
        lemma_replay_tells(m, onto, chain, ts, now, n, p);
    }
    assert forall|p: Seq<char>| #[trigger] r.open.contains_key(p) implies r.open[p].v == found[p].v by {
        lemma_replay_tells(m, onto, chain, ts, now, n, p);
    }
    assert forall|p: Seq<char>| #[trigger] r.outcomes.contains_key(p) <==> ts[n - 1].contains_key(p) by {
        lemma_replay_tells(m, onto, chain, ts, now, n, p);
    }
    assert forall|p: Seq<char>| #[trigger] r.outcomes.contains_key(p) implies told_right(
        m,
        chain,
        ts,
        now,
        p,
        n,
        r.outcomes[p].v,
    ) by {
        lemma_replay_tells(m, onto, chain, ts, now, n, p);
    }
    if forall|p: Seq<char>| !#[trigger] found.contains_key(p) {
        assert(r.open =~= Map::<Seq<char>, Placed<(Id, Id)>>::empty());
    } else {
        let p = choose|p: Seq<char>| #[trigger] found.contains_key(p);
        assert(r.open.contains_key(p));
    }
}

/// What carrying a line comes to, with the line and the trees on the way up. It is left to
/// others where a change of it is not ours. It bounces just where its last change is in
/// conflict at some path, and the conflicts of that change are recorded. Otherwise each
/// change that changes the tree and settles no conflict gets one version, in the order of
/// the line, each on the one before and the first on `onto`, with its message and change
/// id; its predecessors are that change and those after it that get none, and its tree is
/// the one after them. Where none gets a version there was nothing to carry.
pub proof fn law_carrying_a_line(
    m: RepoModel,
    ours: Id,
    onto: Id,
    now: u64,
    chain: Seq<Id>,
    ts: Seq<TreeModel>,
)
    requires
        m.author is Some,
        m.graph.changes.dom().finite(),
        forall|x: Id| #[trigger] m.graph.changes.contains_key(x) ==> m.graph.changes[x].id == x,
        leads_up(m.graph.changes, ours, onto, chain),
        climbs(m, onto, chain, ts, now),
    ensures
        ({
            let n = chain.len() as int;
            let ks = own_places(m, chain, ts, n);
            let strange = exists|i: int| 0 <= i < n && m.graph.changes[#[trigger] chain[i]].author != m.author;
            let stuck = exists|p: Seq<char>| #[trigger]
                step_conflicts(m, chain[n - 1], ts[n - 1], now).contains_key(p);
            let r = carried_line(m, ours, onto, now);
            &&& n == 0 ==> r == Ok::<(RepoModel, CarryModel), ErrorModel>((m, CarryModel::Covered))
            &&& n > 0 && strange ==> r == Ok::<(RepoModel, CarryModel), ErrorModel>((m, CarryModel::Foreign))
            &&& n > 0 && !strange && stuck ==> (r matches Ok((m1, CarryModel::Bounced { outcomes })) && bounced_right(
                m,
                chain,
                ts,
                now,
                m1,
            ) && all_told_right(m, chain, ts, now, outcomes))
            &&& n > 0 && !strange && !stuck && ks.len() == 0 ==> r == Ok::<(RepoModel, CarryModel), ErrorModel>(
                (m, CarryModel::Covered),
            )
            &&& n > 0 && !strange && !stuck && ks.len() > 0 ==> (r matches Ok(
                (m1, CarryModel::Carried { minted, outcomes }),
            ) && carried_right(m, ours, onto, chain, ts, minted, m1) && all_told_right(m, chain, ts, now, outcomes))
        }),
        forall|j: int| #![trigger chain[j]]
            0 <= j < chain.len() && moves(ts[j], ts[j + 1]) && !settles(m.graph.changes[chain[j]].message)
                ==> own_places(m, chain, ts, chain.len() as int).contains(j),
        forall|k: int, l: int|
            0 <= k < l < own_places(m, chain, ts, chain.len() as int).len() ==> #[trigger] own_places(
                m,
                chain,
                ts,
                chain.len() as int,
            )[k] < #[trigger] own_places(m, chain, ts, chain.len() as int)[l],
{
    let n = chain.len() as int;
    let r = replayed(m, ts[0], chain, now);
    law_line_to_carry(m.graph.changes, ours, onto, chain);
    assert(chain.take(n) =~= chain);
    lemma_own_places(m, chain, ts, n);
    assert forall|j: int| 0 <= j < chain.len() implies m.graph.changes[#[trigger] chain[j]].id == chain[j] by {
        assert(m.graph.changes.contains_key(chain[j]));
    }
    lemma_replay(m, onto, chain, ts, now, n);
    if n > 0 {
        lemma_line_told(m, onto, chain, ts, now);
        lemma_carried_right(m, ours, onto, chain, ts, r.pendings);
    }
}

/// A line that does not come down to what `onto` covers, or leads to a change that is not
/// here, cannot be carried.
pub proof fn law_no_line_no_carrying(m: RepoModel, ours: Id, onto: Id, now: u64)
    requires
        m.author is Some,
        m.graph.changes.dom().finite(),
        forall|chain: Seq<Id>| !#[trigger] leads_up(m.graph.changes, ours, onto, chain),
    ensures
        carried_line(m, ours, onto, now) is Err,
{
    match line_to_carry(m.graph.changes, ours, onto) {
        Ok(chain) => {
            law_line_to_carry(m.graph.changes, ours, onto, chain);
        },
        Err(_) => {},
    }
}

} // verus!
