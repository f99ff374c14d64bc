//! What holds of heads and of the current tree over the whole graph.

use crate::ancestry::{
    acyclic, closure_of, dfs, is_path, law_walk_is_ancestry, law_walk_is_topological, lemma_dfs_members,
    lemma_dfs_reached, lemma_reaches_self, lemma_reaches_step, lemma_reaches_transitive, reaches, reaches_from,
    stands_before, walk, Edges, Id,
};
use crate::path_map::values_in;
use crate::seqs::{lemma_filter_agrees, lemma_filter_contains, lemma_filter_twice, lemma_filter_wants_none};
use crate::sorted::{lemma_map_is_listed, lemma_set_is_listed, pairs_of, place_of};
use crate::types::Oid;
use super::change_graph::{
    edges_of, empty_graph, graph_ok, heads_cover, ids_in_order, lineage, nodes_at, ordered, overlay, referenced,
    tree_of, with_node, with_nodes, GraphModel, NodeModel, Nodes,
};
use super::persist_codec::lemma_with_nodes_changes;
use super::{heads_in_order, log_nodes, reached_by};
use vstd::prelude::*;

verus! {

proof fn lemma_listed(changes: Nodes)
    requires
        changes.dom().finite(),
    ensures
        edges_of(changes).dom().finite(),
        forall|x: Id| #[trigger] changes.contains_key(x) ==> ids_in_order(changes).contains(x),
{
    let s = pairs_of::<Oid, NodeModel>(changes);
    lemma_map_is_listed::<Oid, NodeModel>(changes);
    assert(edges_of(changes).dom() =~= changes.dom());
    assert forall|x: Id| #[trigger] changes.contains_key(x) implies ids_in_order(changes).contains(x) by {
        let j = place_of(s, x);
        assert(ids_in_order(changes)[j] == x);
    }
}

/// The order of the whole graph holds its nodes and nothing else.
proof fn lemma_order_members(changes: Nodes)
    requires
        changes.dom().finite(),
    ensures
        forall|x: Id| #[trigger]
            walk(edges_of(changes), ids_in_order(changes)).contains(x) <==> changes.contains_key(x),
{
    let e = edges_of(changes);
    let ids = ids_in_order(changes);
    lemma_listed(changes);
    assert forall|x: Id| #[trigger] walk(e, ids).contains(x) <==> changes.contains_key(x) by {
        law_walk_is_ancestry(e, ids, x);
        if changes.contains_key(x) {
            lemma_reaches_self(e, x);
        }
    }
}

/// Laying trees over one another loses no path and makes none up.
proof fn lemma_overlay_paths(ns: Seq<NodeModel>, p: Seq<char>)
    ensures
        overlay(ns).contains_key(p) <==> exists|i: int|
            0 <= i < ns.len() && (#[trigger] ns[i]).tree.contains_key(p),
    decreases ns.len(),
{
    if ns.len() > 0 {
        let front = ns.drop_last();
        lemma_overlay_paths(front, p);
        if overlay(front).contains_key(p) {
            let i = choose|i: int| 0 <= i < front.len() && (#[trigger] front[i]).tree.contains_key(p);
            assert(ns[i] == front[i]);
        }
        if ns.last().tree.contains_key(p) {
            assert(ns[ns.len() - 1].tree.contains_key(p));
        }
        if exists|i: int| 0 <= i < ns.len() && (#[trigger] ns[i]).tree.contains_key(p) {
            let i = choose|i: int| 0 <= i < ns.len() && (#[trigger] ns[i]).tree.contains_key(p);
            if i < front.len() {
                assert(front[i] == ns[i]);
            }
        }
    }
}

/// Some node has an entry for the path.
pub open spec fn some_entry(changes: Nodes, p: Seq<char>) -> bool {
    exists|id: Id| #[trigger] changes.contains_key(id) && changes[id].tree.contains_key(p)
}

/// The current tree has every path that some change has, and no other.
pub proof fn law_current_tree_has_every_path(changes: Nodes, p: Seq<char>)
    requires
        changes.dom().finite(),
    ensures
        tree_of(changes).contains_key(p) <==> some_entry(changes, p),
{
    let o = walk(edges_of(changes), ids_in_order(changes));
    let ns = ordered(changes);
    lemma_order_members(changes);
    lemma_overlay_paths(ns, p);
    if tree_of(changes).contains_key(p) {
        let i = choose|i: int| 0 <= i < ns.len() && (#[trigger] ns[i]).tree.contains_key(p);
        assert(o.contains(o[i]));
        assert(changes.contains_key(o[i]) && changes[o[i]].tree.contains_key(p));
    }
    if some_entry(changes, p) {
        let id = choose|id: Id| #[trigger] changes.contains_key(id) && changes[id].tree.contains_key(p);
        assert(o.contains(id));
        let i = choose|i: int| 0 <= i < o.len() && o[i] == id;
        assert(ns[i].tree.contains_key(p));
    }
}

/// A path over a graph with one more node, which nobody names, runs beside that node
/// unless it starts there.
proof fn lemma_path_beside(e: Edges, f: Edges, n: Id, p: Seq<Id>)
    requires
        is_path(f, p),
        p[0] != n,
        forall|x: Id| x != n && #[trigger] f.contains_key(x) ==> e.contains_key(x) && e[x] == f[x],
        forall|x: Id| #[trigger] f.contains_key(x) ==> !f[x].contains(n),
    ensures
        is_path(e, p),
        !p.contains(n),
{
    assert forall|i: int| 0 <= i < p.len() implies #[trigger] p[i] != n by {
        if i > 0 {
            assert(f.contains_key(p[i - 1]) && f[p[i - 1]].contains(p[i - 1 + 1]));
        }
    }
    assert forall|i: int| 0 <= i < p.len() - 1 implies e.contains_key(#[trigger] p[i]) && e[p[i]].contains(p[i + 1]) by {
        assert(f.contains_key(p[i]));
    }
}

/// An id that is new: no node has it, and none names it as a parent.
pub open spec fn is_new(changes: Nodes, id: Id) -> bool {
    !changes.contains_key(id) && !referenced(changes, id)
}

/// A node with a new id on top of an acyclic history leaves it acyclic.
pub proof fn law_growing_stays_acyclic(changes: Nodes, n: NodeModel)
    requires
        acyclic(edges_of(changes)),
        is_new(changes, n.id),
        !n.parents.contains(n.id),
    ensures
        acyclic(edges_of(changes.insert(n.id, n))),
{
    let e = edges_of(changes);
    let f = edges_of(changes.insert(n.id, n));
    assert forall|x: Id| #[trigger] f.contains_key(x) implies !f[x].contains(n.id) by {
        if x != n.id {
            assert(changes.contains_key(x));
        }
    }
    assert forall|x: Id, y: Id| f.contains_key(x) && #[trigger] f[x].contains(y) implies !reaches(f, y, x) by {
        if reaches(f, y, x) {
            let p = choose|p: Seq<Id>| #[trigger] is_path(f, p) && p[0] == y && p.last() == x;
            lemma_path_beside(e, f, n.id, p);
            assert(p.contains(p[p.len() - 1]));
            assert(e[x].contains(y));
            assert(reaches(e, y, x));
        }
    }
}

/// Where every other node is somebody's parent, a node comes last in the order.
proof fn lemma_tip_comes_last(changes: Nodes, id: Id)
    requires
        changes.dom().finite(),
        acyclic(edges_of(changes)),
        changes.contains_key(id),
        forall|x: Id| x != id && #[trigger] changes.contains_key(x) ==> referenced(changes, x),
    ensures
        ordered(changes).len() > 0,
        ordered(changes).last() == changes[id],
{
    let e = edges_of(changes);
    let o = walk(e, ids_in_order(changes));
    lemma_listed(changes);
    lemma_order_members(changes);
    law_walk_is_topological(e, ids_in_order(changes));
    assert(o.contains(id));
    let z = o.last();
    assert(o[o.len() - 1] == z);
    assert(o.contains(z));
    if z != id {
        assert(referenced(changes, z));
        let c = choose|c: Id| #[trigger] changes.contains_key(c) && changes[c].parents.contains(z);
        assert(o.contains(c));
        let k = choose|k: int| 0 <= k < o.len() && o[k] == c;
        assert(e[o[k]].contains(z));
        assert(stands_before(o, z, k));
        let j = choose|j: int| 0 <= j < k && #[trigger] o[j] == z;
        assert(o[j] == o[o.len() - 1]);
    }
}

/// Everything that the current tree rests on holds, and a change can be added whose
/// id is new.
pub open spec fn can_top(g: GraphModel, n: NodeModel) -> bool {
    &&& graph_ok(g)
    &&& heads_cover(g)
    &&& acyclic(edges_of(g.changes))
    &&& g.changes.dom().finite()
    &&& is_new(g.changes, n.id)
    &&& n.parents == g.heads
}

/// A new change on top of all the heads has the last word on every path that it
/// has. The other paths stay.
pub proof fn law_topmost_has_the_last_word(g: GraphModel, n: NodeModel)
    requires
        can_top(g, n),
    ensures
        forall|p: Seq<char>| #[trigger]
            n.tree.contains_key(p) ==> tree_of(with_node(g, n).changes).contains_key(p) && tree_of(
                with_node(g, n).changes,
            )[p].v == n.tree[p].v,
        forall|p: Seq<char>| #[trigger]
            tree_of(with_node(g, n).changes).contains_key(p) <==> n.tree.contains_key(p) || tree_of(
                g.changes,
            ).contains_key(p),
{
    let after = with_node(g, n).changes;
    assert(after == g.changes.insert(n.id, n));
    assert(after.dom() =~= g.changes.dom().insert(n.id));
    law_growing_stays_acyclic(g.changes, n);
    assert forall|x: Id| x != n.id && #[trigger] after.contains_key(x) implies referenced(after, x) by {
        assert(after.contains_key(n.id));
        if referenced(g.changes, x) {
            let c = choose|c: Id| #[trigger] g.changes.contains_key(c) && g.changes[c].parents.contains(x);
            assert(after.contains_key(c) && after[c].parents.contains(x));
        } else {
            assert(g.changes.contains_key(x));
            assert(after[n.id].parents.contains(x));
        }
    }
    lemma_tip_comes_last(after, n.id);
    assert forall|p: Seq<char>| #[trigger]
        tree_of(after).contains_key(p) <==> n.tree.contains_key(p) || tree_of(g.changes).contains_key(p) by {
        law_current_tree_has_every_path(after, p);
        law_current_tree_has_every_path(g.changes, p);
        if some_entry(after, p) {
            let id = choose|id: Id| #[trigger] after.contains_key(id) && after[id].tree.contains_key(p);
            if id != n.id {
                assert(g.changes.contains_key(id) && g.changes[id].tree.contains_key(p));
            }
        }
        if some_entry(g.changes, p) {
            let id = choose|id: Id| #[trigger] g.changes.contains_key(id) && g.changes[id].tree.contains_key(p);
            assert(after.contains_key(id) && after[id].tree.contains_key(p));
        }
        if n.tree.contains_key(p) {
            assert(after.contains_key(n.id) && after[n.id].tree.contains_key(p));
        }
    }
}

/// A new change on top of all the heads that has every path of the current tree: what
/// its tree holds is what the current one does.
pub proof fn law_topmost_is_current(g: GraphModel, n: NodeModel)
    requires
        can_top(g, n),
        tree_of(g.changes).dom().subset_of(n.tree.dom()),
    ensures
        values_in(tree_of(with_node(g, n).changes)) == values_in(n.tree),
{
    law_topmost_has_the_last_word(g, n);
    let t = tree_of(with_node(g, n).changes);
    assert forall|p: Seq<char>| t.dom().contains(p) <==> n.tree.dom().contains(p) by {
        if tree_of(g.changes).contains_key(p) {
            assert(tree_of(g.changes).dom().contains(p));
            assert(n.tree.dom().contains(p));
        }
        assert(t.contains_key(p) <==> n.tree.contains_key(p) || tree_of(g.changes).contains_key(p));
    }
    assert(values_in(t) =~= values_in(n.tree));
}

// ---------------------------------------------------------------------------
// The log
// ---------------------------------------------------------------------------

/// The change at a place of the order is reached from a head.
proof fn lemma_reached_at(g: GraphModel, k: int)
    requires
        heads_cover(g),
        acyclic(edges_of(g.changes)),
        g.changes.dom().finite(),
        0 <= k < walk(edges_of(g.changes), ids_in_order(g.changes)).len(),
    ensures
        reaches_from(edges_of(g.changes), g.heads, walk(edges_of(g.changes), ids_in_order(g.changes))[k]),
    decreases walk(edges_of(g.changes), ids_in_order(g.changes)).len() - k,
{
    let e = edges_of(g.changes);
    let o = walk(e, ids_in_order(g.changes));
    let id = o[k];
    lemma_listed(g.changes);
    lemma_order_members(g.changes);
    law_walk_is_topological(e, ids_in_order(g.changes));
    assert(o.contains(id));
    if referenced(g.changes, id) {
        let c = choose|c: Id| #[trigger] g.changes.contains_key(c) && g.changes[c].parents.contains(id);
        assert(o.contains(c));
        let j = choose|j: int| 0 <= j < o.len() && o[j] == c;
        assert(e[o[j]].contains(id));
        assert(stands_before(o, id, j));
        let i = choose|i: int| 0 <= i < j && #[trigger] o[i] == id;
        assert(i == k);
        lemma_reached_at(g, j);
        let h = choose|h: Id| g.heads.contains(h) && #[trigger] reaches(e, h, c);
        lemma_reaches_step(e, h, c, id);
    } else {
        lemma_reaches_self(e, id);
        assert(g.heads.contains(id));
    }
}

/// Where the heads cover an acyclic graph, every change is a head or an ancestor of one.
pub proof fn law_every_change_is_reached(g: GraphModel, id: Id)
    requires
        heads_cover(g),
        acyclic(edges_of(g.changes)),
        g.changes.dom().finite(),
        g.changes.contains_key(id),
    ensures
        reaches_from(edges_of(g.changes), g.heads, id),
{
    let o = walk(edges_of(g.changes), ids_in_order(g.changes));
    lemma_order_members(g.changes);
    assert(o.contains(id));
    let k = choose|k: int| 0 <= k < o.len() && o[k] == id;
    lemma_reached_at(g, k);
}

/// The log of a graph shows every change, children before parents, each with some head
/// that reaches it.
pub proof fn law_log_is_complete(g: GraphModel)
    requires
        graph_ok(g),
        heads_cover(g),
        acyclic(edges_of(g.changes)),
        g.changes.dom().finite(),
        heads_in_order(g).len() <= usize::MAX,
    ensures
        log_nodes(g).len() == ordered(g.changes).len(),
        forall|id: Id| #[trigger] g.changes.contains_key(id) ==> exists|i: int|
            0 <= i < log_nodes(g).len() && (#[trigger] log_nodes(g)[i]).id == id,
        forall|i: int| 0 <= i < log_nodes(g).len() ==> (#[trigger] log_nodes(g)[i]).reachable_from.len() > 0,
        forall|i: int, j: int|
            0 <= i < log_nodes(g).len() && 0 <= j < log_nodes(g).len() && g.changes[(#[trigger] log_nodes(
                g,
            )[i]).id].parents.contains((#[trigger] log_nodes(g)[j]).id) ==> i < j,
{
    let e = edges_of(g.changes);
    let o = walk(e, ids_in_order(g.changes));
    let ns = ordered(g.changes);
    let ls = log_nodes(g);
    let hs = heads_in_order(g);
    vstd::seq_lib::seq_to_set_is_finite(g.heads);
    lemma_set_is_listed::<Oid>(g.heads.to_set());
    lemma_listed(g.changes);
    lemma_order_members(g.changes);
    law_walk_is_topological(e, ids_in_order(g.changes));
    assert forall|i: int| 0 <= i < ls.len() implies (#[trigger] ls[i]).id == o[o.len() - 1 - i] && ls[i].reachable_from
        == reached_by(g, hs, o[o.len() - 1 - i]) by {
        let id = o[o.len() - 1 - i];
        assert(o.contains(id));
        assert(ns[o.len() - 1 - i] == g.changes[id]);
        assert(g.changes[id].id == id);
    }
    assert forall|id: Id| #[trigger] g.changes.contains_key(id) implies exists|i: int|
        0 <= i < ls.len() && (#[trigger] ls[i]).id == id by {
        assert(o.contains(id));
        let k = choose|k: int| 0 <= k < o.len() && o[k] == id;
        assert(ls[o.len() - 1 - k].id == id);
    }
    assert forall|i: int| 0 <= i < ls.len() implies (#[trigger] ls[i]).reachable_from.len() > 0 by {
        let id = o[o.len() - 1 - i];
        assert(o.contains(id));
        law_every_change_is_reached(g, id);
        let h = choose|h: Id| g.heads.contains(h) && #[trigger] reaches(e, h, id);
        assert(g.heads.to_set().contains(h));
        let k = choose|k: int| 0 <= k < hs.len() && hs[k] == h;
        let all = Seq::new(hs.len(), |x: int| x as usize);
        let f = |x: usize| closure_of(e, seq![hs[x as int]]).contains(id);
        let x: usize = k as usize;
        assert(all[k] == x);
        assert(all.contains(x));
        assert(seq![hs[k]][0] == h);
        assert(seq![hs[k]].contains(h));
        assert(reaches_from(e, seq![hs[k]], id));
        assert(f(x));
        lemma_filter_contains(all, f, x);
        assert(reached_by(g, hs, id) == all.filter(f));
        assert(all.filter(f).contains(x));
    }
    assert forall|i: int, j: int|
        0 <= i < ls.len() && 0 <= j < ls.len() && g.changes[(#[trigger] ls[i]).id].parents.contains(
            (#[trigger] ls[j]).id,
        ) implies i < j by {
        let a = o.len() - 1 - i;
        let b = o.len() - 1 - j;
        assert(o.contains(o[a]) && o.contains(o[b]));
        assert(e[o[a]].contains(o[b]));
        assert(stands_before(o, o[b], a));
        let k = choose|k: int| 0 <= k < a && #[trigger] o[k] == o[b];
        assert(k == b);
    }
}

// ---------------------------------------------------------------------------
// Heads
// ---------------------------------------------------------------------------

/// Being nobody's parent.
pub open spec fn unparented(changes: Nodes) -> spec_fn(Id) -> bool {
    |id: Id| !referenced(changes, id)
}

/// Adding nodes one after another, in whatever order they come: the heads are those
/// that are nobody's parent, in the order in which they came.
pub proof fn law_heads_are_the_unparented(changes: Nodes, ids: Seq<Id>)
    requires
        ids.no_duplicates(),
        forall|x: Id| #[trigger] ids.contains(x) ==> changes.contains_key(x) && changes[x].id == x,
    ensures
        ({
            let g = with_nodes(empty_graph(), nodes_at(changes, ids));
            g.heads == ids.filter(unparented(g.changes))
        }),
    decreases ids.len(),
{
    reveal(Seq::filter);
    let ns = nodes_at(changes, ids);
    if ids.len() > 0 {
        let front = ids.drop_last();
        let id = ids.last();
        assert(ids[ids.len() - 1] == id);
        assert(ids.contains(id));
        assert(front.no_duplicates());
        assert forall|x: Id| #[trigger] front.contains(x) implies ids.contains(x) && x != id by {
            let k = choose|k: int| 0 <= k < front.len() && front[k] == x;
            assert(ids[k] == x);
        }
        law_heads_are_the_unparented(changes, front);
        lemma_with_nodes_changes(front, changes);
        assert(ns.drop_last() =~= nodes_at(changes, front));
        let n = changes[id];
        assert(ns.last() == n);
        let g = with_nodes(empty_graph(), nodes_at(changes, front));
        let h = with_node(g, n);
        assert(with_nodes(empty_graph(), ns) == h);
        assert(!g.changes.contains_key(id));
        let apart = |x: Id| !n.parents.contains(x);
        let both = |x: Id| unparented(g.changes)(x) && apart(x);
        lemma_filter_twice(front, unparented(g.changes), apart);
        assert(g.heads.filter(apart) == front.filter(both));
        assert forall|x: Id| #[trigger] front.contains(x) implies both(x) == unparented(h.changes)(x) by {
            assert(h.changes.contains_key(id));
            if referenced(g.changes, x) {
                let c = choose|c: Id| #[trigger] g.changes.contains_key(c) && g.changes[c].parents.contains(x);
                assert(h.changes.contains_key(c) && h.changes[c].parents.contains(x));
            }
            if referenced(h.changes, x) {
                let c = choose|c: Id| #[trigger] h.changes.contains_key(c) && h.changes[c].parents.contains(x);
                if c != id {
                    assert(g.changes.contains_key(c) && g.changes[c].parents.contains(x));
                }
            }
        }
        lemma_filter_agrees(front, both, unparented(h.changes));
        let kept = front.filter(unparented(h.changes));
        lemma_filter_contains(front, unparented(h.changes), id);
        assert(!front.contains(id));
        assert(!kept.contains(id));
    }
}

/// No id among these is an ancestor of another.
pub open spec fn unrelated(e: Edges, ids: Seq<Id>) -> bool {
    forall|a: Id, b: Id| ids.contains(a) && ids.contains(b) && a != b ==> !#[trigger] reaches(e, a, b)
}

/// A walk leaves unrelated ids in the order in which it is given them.
proof fn lemma_walk_keeps_order(e: Edges, ids: Seq<Id>, k: int)
    requires
        e.dom().finite(),
        ids.no_duplicates(),
        forall|x: Id| #[trigger] ids.contains(x) ==> e.contains_key(x),
        unrelated(e, ids),
        0 <= k <= ids.len(),
    ensures
        dfs(e, ids.take(k), Set::empty(), e.dom().len()).1.filter(|x: Id| ids.contains(x)) == ids.take(k),
    decreases k,
{
    let none = Set::<Id>::empty();
    let fuel = e.dom().len();
    let f = |x: Id| ids.contains(x);
    let todo = ids.take(k);
    if k == 0 {
        assert(todo =~= Seq::<Id>::empty());
        assert(dfs(e, todo, none, fuel).1 =~= Seq::<Id>::empty());
        lemma_filter_wants_none(Seq::<Id>::empty(), f);
    } else {
        let front = ids.take(k - 1);
        let id = ids[k - 1];
        lemma_walk_keeps_order(e, ids, k - 1);
        assert(todo.drop_last() =~= front);
        assert(todo.last() == id);
        assert(ids.contains(id));
        let (s1, o1) = dfs(e, front, none, fuel);
        lemma_dfs_reached(e, front, none, fuel);
        assert(!s1.contains(id)) by {
            if s1.contains(id) {
                let a = choose|a: Id| front.contains(a) && #[trigger] reaches(e, a, id);
                let j = choose|j: int| 0 <= j < front.len() && front[j] == a;
                assert(ids[j] == a);
                assert(ids.contains(a));
                assert(a != id);
            }
        }
        assert(e.dom().contains(id));
        assert(fuel > 0);
        let f2 = (fuel - 1) as nat;
        let (s2, o2) = dfs(e, e[id], s1.insert(id), f2);
        lemma_dfs_members(e, e[id], s1.insert(id), f2);
        lemma_dfs_reached(e, e[id], s1.insert(id), f2);
        assert forall|x: Id| #[trigger] o2.contains(x) implies !f(x) by {
            let b = choose|b: Id| e[id].contains(b) && #[trigger] reaches(e, b, x);
            lemma_reaches_self(e, id);
            lemma_reaches_step(e, id, id, b);
            lemma_reaches_transitive(e, id, b, x);
            assert(x != id);
        }
        lemma_filter_wants_none(o2, f);
        Seq::filter_distributes_over_add(o1, o2, f);
        let o = (o1 + o2).push(id);
        assert(dfs(e, todo, none, fuel).1 == o);
        reveal(Seq::filter);
        assert(o.drop_last() =~= o1 + o2);
        assert(o.last() == id);
        assert(o.filter(f) =~= front.push(id));
        assert(front.push(id) =~= todo);
    }
}

/// Of what unrelated ids reach, just they are nobody's parent.
proof fn lemma_asked_for_are_unparented(m: Nodes, ids: Seq<Id>, g: Nodes)
    requires
        edges_of(m).dom().finite(),
        acyclic(edges_of(m)),
        forall|x: Id| #[trigger] ids.contains(x) ==> m.contains_key(x),
        unrelated(edges_of(m), ids),
        forall|x: Id| #[trigger] g.contains_key(x) <==> walk(edges_of(m), ids).contains(x),
        forall|x: Id| #[trigger] g.contains_key(x) ==> g[x] == m[x],
    ensures
        forall|x: Id| #[trigger] walk(edges_of(m), ids).contains(x) ==> (ids.contains(x) <==> !referenced(g, x)),
{
    let e = edges_of(m);
    let o = walk(e, ids);
    assert forall|x: Id| #[trigger] o.contains(x) implies (ids.contains(x) <==> !referenced(g, x)) by {
        if ids.contains(x) && referenced(g, x) {
            let c = choose|c: Id| #[trigger] g.contains_key(c) && g[c].parents.contains(x);
            assert(o.contains(c));
            law_walk_is_ancestry(e, ids, c);
            let a = choose|a: Id| ids.contains(a) && #[trigger] reaches(e, a, c);
            assert(e[c].contains(x));
            lemma_reaches_step(e, a, c, x);
            assert(a == x);
        }
        if !ids.contains(x) {
            law_walk_is_ancestry(e, ids, x);
            let a = choose|a: Id| ids.contains(a) && #[trigger] reaches(e, a, x);
            let p = choose|p: Seq<Id>| #[trigger] is_path(e, p) && p[0] == a && p.last() == x;
            let q = p.drop_last();
            assert(p.len() > 1);
            assert(e.contains_key(p[p.len() - 2]) && e[p[p.len() - 2]].contains(p[p.len() - 2 + 1]));
            let c = q.last();
            assert forall|i: int| 0 <= i < q.len() - 1 implies e.contains_key(#[trigger] q[i]) && e[q[i]].contains(
                q[i + 1],
            ) by {
                assert(e.contains_key(p[i]) && e[p[i]].contains(p[i + 1]));
            }
            assert(is_path(e, q) && q[0] == a && q.last() == c);
            assert(reaches(e, a, c));
            law_walk_is_ancestry(e, ids, c);
            assert(g.contains_key(c) && g[c].parents.contains(x));
        }
    }
}

/// The graph of just what some heads reach: where none of them is an ancestor of
/// another, its heads are the ones that were asked for, in that order.
pub proof fn law_reachable_heads(m: Nodes, heads: Seq<Id>)
    requires
        m.dom().finite(),
        acyclic(edges_of(m)),
        forall|x: Id| #[trigger] m.contains_key(x) ==> m[x].id == x,
        heads.no_duplicates(),
        forall|x: Id| #[trigger] heads.contains(x) ==> m.contains_key(x),
        unrelated(edges_of(m), heads),
    ensures
        with_nodes(empty_graph(), lineage(m, heads)).heads == heads,
{
    let e = edges_of(m);
    let o = walk(e, heads);
    let g = with_nodes(empty_graph(), lineage(m, heads));
    let f = |x: Id| heads.contains(x);
    assert(e.dom() =~= m.dom());
    law_walk_is_topological(e, heads);
    law_heads_are_the_unparented(m, o);
    lemma_with_nodes_changes(o, m);
    lemma_asked_for_are_unparented(m, heads, g.changes);
    lemma_filter_agrees(o, f, unparented(g.changes));
    lemma_walk_keeps_order(e, heads, heads.len() as int);
    assert(heads.take(heads.len() as int) =~= heads);
}

} // verus!
