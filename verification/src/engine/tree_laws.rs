//! What the graph holds after each step, and what its trees lead to.

use crate::ancestry::{
    acyclic, descends, is_path, law_walk_is_ancestry, law_walk_is_topological, lemma_reaches_self, parents_first,
    reaches, reaches_from, stands_before, walk, Edges, Id,
};
use crate::crypto::blake3_digest;
use crate::path_map::{PathKey, Placed};
use crate::seqs::lemma_filter_contains;
use crate::sorted::{
    has_key, lemma_drop_last, lemma_entry, lemma_listed_len, lemma_map_is_listed, lemma_pairs_of, lemma_part_rises,
    map_of, pairs_of, place_of, rising,
};
use crate::types::{Oid, TreeModel, VisibilityModel};
use crate::value::Key;
use super::change_graph::{
    change_digest, edges_of, empty_graph, graph_ok, id_bytes, ids_in_order, line_tree, lineage, other_than, overlay, push_new,
    referenced, restored, signed, signing_message, tips, tree_id_bytes, tree_of, with_node, with_nodes, without_head,
    GraphModel, NodeModel, Nodes,
};
use super::{embargoed_count, fresh_for, heads_in_order, log_nodes, recorded, restricted_count, ChangeModel, RepoModel};
use vstd::prelude::*;
use vstd::utf8::encode_utf8;

verus! {

// ---------------------------------------------------------------------------
// The graph
// ---------------------------------------------------------------------------

/// Some change names this one as a parent.
pub open spec fn has_child(changes: Nodes, x: Id) -> bool {
    exists|c: Id| #[trigger] changes.contains_key(c) && changes[c].parents.contains(x)
}

/// A change that comes in is there as it came, and every other one as it was. Its parents
/// are heads no longer; it is one, unless it has a child already; the other heads stay. One
/// that is there already changes nothing.
pub proof fn law_node_comes_in(g: GraphModel, n: NodeModel, x: Id)
    requires
        graph_ok(g),
    ensures
        g.changes.contains_key(n.id) ==> with_node(g, n) == g,
        !g.changes.contains_key(n.id) ==> {
            let r = with_node(g, n);
            &&& r.changes.contains_key(x) <==> g.changes.contains_key(x) || x == n.id
            &&& r.changes[n.id] == n
            &&& g.changes.contains_key(x) ==> r.changes[x] == g.changes[x]
            &&& x == n.id ==> (r.heads.contains(x) <==> !has_child(r.changes, x))
            &&& x != n.id ==> (r.heads.contains(x) <==> g.heads.contains(x) && !n.parents.contains(x))
        },
{
    if !g.changes.contains_key(n.id) {
        let f = |h: Id| !n.parents.contains(h);
        let kept = g.heads.filter(f);
        let r = with_node(g, n);
        lemma_filter_contains(g.heads, f, x);
        lemma_pushed(kept, n.id, x);
        assert(has_child(r.changes, n.id) == referenced(r.changes, n.id));
        assert(!g.heads.contains(n.id));
    }
}

proof fn lemma_pushed(s: Seq<Id>, id: Id, x: Id)
    ensures
        push_new(s, id).contains(x) <==> s.contains(x) || x == id,
{
    if !s.contains(id) {
        if s.contains(x) {
            let i = choose|i: int| 0 <= i < s.len() && s[i] == x;
            assert(s.push(id)[i] == x);
        }
        assert(s.push(id)[s.len() as int] == id);
        if s.push(id).contains(x) {
            let i = choose|i: int| 0 <= i < s.push(id).len() && s.push(id)[i] == x;
            if i < s.len() {
                assert(s[i] == x);
            }
        }
    }
}

proof fn lemma_restored(changes: Nodes, heads: Seq<Id>, parents: Seq<Id>, x: Id)
    ensures
        restored(changes, heads, parents).contains(x) <==> heads.contains(x) || (parents.contains(x)
            && changes.contains_key(x) && !has_child(changes, x)),
    decreases parents.len(),
{
    if parents.len() > 0 {
        let front = parents.drop_last();
        let p = parents.last();
        lemma_restored(changes, heads, front, x);
        lemma_pushed(restored(changes, heads, front), p, x);
        assert(has_child(changes, p) == referenced(changes, p));
        assert(parents[parents.len() - 1] == p);
        if front.contains(x) {
            let i = choose|i: int| 0 <= i < front.len() && front[i] == x;
            assert(parents[i] == x);
        }
        if parents.contains(x) && x != p {
            let i = choose|i: int| 0 <= i < parents.len() && parents[i] == x;
            assert(front[i] == x);
        }
    }
}

/// A head that is taken off is gone, and every other change is as it was. Those of its
/// parents that have no other child are heads again; the other heads stay. What is no head
/// is not taken off.
pub proof fn law_head_comes_off(g: GraphModel, id: Id, x: Id)
    requires
        graph_ok(g),
    ensures
        !g.heads.contains(id) ==> without_head(g, id) == g,
        g.heads.contains(id) ==> {
            let r = without_head(g, id);
            &&& r.changes == g.changes.remove(id)
            &&& r.heads.contains(x) <==> x != id && (g.heads.contains(x) || (g.changes[id].parents.contains(x)
                && g.changes.contains_key(x) && !has_child(r.changes, x)))
        },
{
    if g.heads.contains(id) {
        lemma_filter_contains(g.heads, other_than(id), x);
        lemma_restored(
            g.changes.remove(id),
            g.heads.filter(other_than(id)),
            g.changes[id].parents,
            x,
        );
        lemma_filter_contains(g.heads, other_than(id), id);
    }
}

/// A signature is put to one change and alters nothing else.
pub proof fn law_signature_is_put_to_one(g: GraphModel, id: Id, signature: Seq<u8>, x: Id)
    ensures
        signed(g, id, signature).heads == g.heads,
        signed(g, id, signature).changes.contains_key(x) <==> g.changes.contains_key(x),
        x != id && g.changes.contains_key(x) ==> signed(g, id, signature).changes[x] == g.changes[x],
        g.changes.contains_key(id) ==> signed(g, id, signature).changes[id] == (NodeModel {
            signature: Some(signature),
            ..g.changes[id]
        }),
{
}

// ---------------------------------------------------------------------------
// Trees
// ---------------------------------------------------------------------------

/// What a path leads to in trees laid over one another is what the last of them with the
/// path has.
proof fn lemma_overlay_last(ns: Seq<NodeModel>, p: Seq<char>, i: int)
    requires
        0 <= i < ns.len(),
        ns[i].tree.contains_key(p),
        forall|j: int| i < j < ns.len() ==> !(#[trigger] ns[j]).tree.contains_key(p),
    ensures
        overlay(ns).contains_key(p),
        overlay(ns)[p].v == ns[i].tree[p].v,
    decreases ns.len(),
{
    let front = ns.drop_last();
    assert(ns.last() == ns[ns.len() - 1]);
    if i < ns.len() - 1 {
        assert(front[i] == ns[i]);
        assert forall|j: int| i < j < front.len() implies !(#[trigger] front[j]).tree.contains_key(p) by {
            assert(front[j] == ns[j]);
        }
        lemma_overlay_last(front, p, i);
        assert(!ns[ns.len() - 1].tree.contains_key(p));
    }
}

/// The last of the first `n` with the path, if there is one.
proof fn lemma_last_with(ns: Seq<NodeModel>, p: Seq<char>, n: int) -> (i: int)
    requires
        0 <= n <= ns.len(),
    ensures
        -1 <= i < n,
        i >= 0 ==> ns[i].tree.contains_key(p),
        forall|j: int| i < j < n ==> !(#[trigger] ns[j]).tree.contains_key(p),
    decreases n,
{
    if n == 0 {
        -1
    } else if ns[n - 1].tree.contains_key(p) {
        n - 1
    } else {
        lemma_last_with(ns, p, n - 1)
    }
}

proof fn lemma_overlay_nothing(ns: Seq<NodeModel>, p: Seq<char>)
    requires
        forall|j: int| 0 <= j < ns.len() ==> !(#[trigger] ns[j]).tree.contains_key(p),
    ensures
        !overlay(ns).contains_key(p),
    decreases ns.len(),
{
    if ns.len() > 0 {
        let front = ns.drop_last();
        assert(ns.last() == ns[ns.len() - 1]);
        assert forall|j: int| 0 <= j < front.len() implies !(#[trigger] front[j]).tree.contains_key(p) by {
            assert(front[j] == ns[j]);
        }
        lemma_overlay_nothing(front, p);
    }
}

/// In an order with parents first, what a path leads to stands no later than its start.
proof fn lemma_along(e: Edges, o: Seq<Id>, q: Seq<Id>, k: int, n: int)
    requires
        is_path(e, q),
        parents_first(e, o, Set::empty()),
        0 <= n < o.len(),
        o[n] == q[0],
        0 <= k < q.len(),
        e.contains_key(q.last()),
    ensures
        k == 0 ==> o[n] == q[k],
        k > 0 ==> stands_before(o, q[k], n),
    decreases k,
{
    if k > 0 {
        lemma_along(e, o, q, k - 1, n);
        assert(e.contains_key(q[k - 1]) && e[q[k - 1]].contains(q[k - 1 + 1]));
        assert(e.contains_key(q[k])) by {
            if k < q.len() - 1 {
                assert(e.contains_key(q[k]));
            }
        }
        let m = if k == 1 {
            n
        } else {
            choose|j: int| 0 <= j < n && #[trigger] o[j] == q[k - 1]
        };
        assert(e[o[m]].contains(q[k]));
        assert(stands_before(o, q[k], m));
        let j = choose|j: int| 0 <= j < m && #[trigger] o[j] == q[k];
        assert(0 <= j < n && o[j] == q[k]);
    }
}

/// What some trees hold under a path, of changes among which none that has the path
/// descends from the one whose it is.
pub open spec fn is_latest(changes: Nodes, among: Set<Id>, t: TreeModel, p: Seq<char>, c: Id) -> bool {
    &&& among.contains(c)
    &&& changes[c].tree.contains_key(p)
    &&& t[p].v == changes[c].tree[p].v
    &&& forall|d: Id| #[trigger]
        among.contains(d) && changes[d].tree.contains_key(p) ==> !descends(edges_of(changes), d, c)
}

proof fn lemma_laid_out(changes: Nodes, starts: Seq<Id>, p: Seq<char>, among: Set<Id>)
    requires
        changes.dom().finite(),
        acyclic(edges_of(changes)),
        forall|x: Id| #[trigger]
            among.contains(x) <==> changes.contains_key(x) && reaches_from(edges_of(changes), starts, x),
    ensures
        ({
            let t = overlay(lineage(changes, starts));
            &&& t.contains_key(p) <==> exists|c: Id| #[trigger] among.contains(c) && changes[c].tree.contains_key(p)
            &&& t.contains_key(p) ==> exists|c: Id| is_latest(changes, among, t, p, c)
        }),
{
    let e = edges_of(changes);
    let o = walk(e, starts);
    let ns = lineage(changes, starts);
    let t = overlay(ns);
    assert(e.dom() =~= changes.dom());
    law_walk_is_topological(e, starts);
    assert forall|x: Id| #[trigger] o.contains(x) <==> among.contains(x) by {
        law_walk_is_ancestry(e, starts, x);
    }
    let i = lemma_last_with(ns, p, ns.len() as int);
    if i < 0 {
        lemma_overlay_nothing(ns, p);
        assert forall|c: Id| #[trigger] among.contains(c) implies !changes[c].tree.contains_key(p) by {
            assert(o.contains(c));
            let j = choose|j: int| 0 <= j < o.len() && o[j] == c;
            assert(ns[j] == changes[c]);
        }
    } else {
        lemma_overlay_last(ns, p, i);
        let c = o[i];
        assert(ns[i] == changes[c]);
        assert(o.contains(c));
        assert forall|d: Id| #[trigger] among.contains(d) && changes[d].tree.contains_key(p) implies !descends(
            e,
            d,
            c,
        ) by {
            if descends(e, d, c) {
                assert(o.contains(d));
                let k = choose|k: int| 0 <= k < o.len() && o[k] == d;
                assert(ns[k] == changes[d]);
                assert(k <= i);
                let y = choose|y: Id| e[d].contains(y) && #[trigger] reaches(e, y, c);
                let q = choose|q: Seq<Id>| #[trigger] is_path(e, q) && q[0] == y && q.last() == c;
                let r = seq![d] + q;
                assert(is_path(e, r)) by {
                    assert forall|a: int| 0 <= a < r.len() - 1 implies e.contains_key(#[trigger] r[a]) && e[r[a]].contains(
                        r[a + 1],
                    ) by {
                        if a > 0 {
                            assert(r[a] == q[a - 1] && r[a + 1] == q[a - 1 + 1]);
                        } else {
                            assert(r[1] == q[0]);
                        }
                    }
                }
                assert(r.last() == c);
                assert(e.contains_key(c));
                lemma_along(e, o, r, r.len() - 1, k);
                assert(stands_before(o, c, k));
                let j = choose|j: int| 0 <= j < k && #[trigger] o[j] == c;
                assert(o[j] == o[i]);
            }
        }
        assert(is_latest(changes, among, t, p, c));
        assert(among.contains(c) && changes[c].tree.contains_key(p));
    }
}

/// A line's tree has the paths of the change and of its ancestors, and each path leads to
/// what one of them has there that none of the others with the path descends from: what
/// was written later wins.
pub proof fn law_line_tree_has_what_is_latest(changes: Nodes, head: Id, p: Seq<char>, among: Set<Id>)
    requires
        changes.dom().finite(),
        acyclic(edges_of(changes)),
        forall|x: Id| #[trigger]
            among.contains(x) <==> changes.contains_key(x) && reaches(edges_of(changes), head, x),
    ensures
        line_tree(changes, head).contains_key(p) <==> exists|c: Id| #[trigger]
            among.contains(c) && changes[c].tree.contains_key(p),
        line_tree(changes, head).contains_key(p) ==> exists|c: Id|
            is_latest(changes, among, line_tree(changes, head), p, c),
{
    let e = edges_of(changes);
    let starts = seq![head];
    assert(starts[0] == head);
    assert forall|x: Id| #[trigger] among.contains(x) <==> changes.contains_key(x) && reaches_from(e, starts, x) by {
        if reaches(e, head, x) {
            assert(starts.contains(head));
        }
    }
    lemma_laid_out(changes, starts, p, among);
}

/// The current tree has the paths of all changes, and each path leads to what one of them
/// has there that none of the others with the path descends from: what was written later
/// wins.
pub proof fn law_current_tree_has_what_is_latest(changes: Nodes, p: Seq<char>)
    requires
        changes.dom().finite(),
        acyclic(edges_of(changes)),
    ensures
        tree_of(changes).contains_key(p) <==> exists|c: Id| #[trigger]
            changes.dom().contains(c) && changes[c].tree.contains_key(p),
        tree_of(changes).contains_key(p) ==> exists|c: Id|
            is_latest(changes, changes.dom(), tree_of(changes), p, c),
{
    let e = edges_of(changes);
    let starts = ids_in_order(changes);
    let s = pairs_of::<Oid, NodeModel>(changes);
    lemma_map_is_listed::<Oid, NodeModel>(changes);
    assert forall|x: Id| #[trigger] changes.dom().contains(x) <==> changes.contains_key(x) && reaches_from(
        e,
        starts,
        x,
    ) by {
        if changes.contains_key(x) {
            let j = place_of(s, x);
            assert(starts[j] == x);
            assert(starts.contains(x));
            lemma_reaches_self(e, x);
        }
    }
    lemma_laid_out(changes, starts, p, changes.dom());
}

// ---------------------------------------------------------------------------
// Ids
// ---------------------------------------------------------------------------

/// What the id of a change is the digest of: the author's key, if there is one, the message,
/// the parents in turn, and for each path in order the path as it is written, a zero byte
/// and the address. Visibility does not enter.
pub proof fn law_change_id_covers(
    author: Seq<u8>,
    message: Seq<char>,
    parents: Seq<Id>,
    parent: Id,
    tree: TreeModel,
    other: TreeModel,
    last: Seq<char>,
)
    requires
        tree.dom().finite(),
        tree.contains_key(last),
        forall|q: Seq<char>| #[trigger] tree.contains_key(q) && q != last ==> PathKey::before(q, last),
        other.dom() == tree.dom(),
        forall|q: Seq<char>| #[trigger]
            tree.contains_key(q) ==> other[q].text == tree[q].text && other[q].v.0 == tree[q].v.0,
    ensures
        change_digest(Some(author), message, parents, tree) == blake3_digest(
            id_bytes(Some(author), message, parents, tree),
        ),
        id_bytes(Some(author), message, parents, tree) == author + id_bytes(None, message, parents, tree),
        id_bytes(None, message, Seq::empty(), Map::empty()) == encode_utf8(message),
        id_bytes(None, message, parents.push(parent), Map::empty()) == id_bytes(None, message, parents, Map::empty())
            + parent,
        id_bytes(None, message, parents, tree) == id_bytes(None, message, parents, tree.remove(last)) + encode_utf8(
            tree[last].text,
        ) + seq![0u8] + tree[last].v.0,
        id_bytes(None, message, parents, other) == id_bytes(None, message, parents, tree),
{
    let s = pairs_of::<PathKey, Placed<(Id, VisibilityModel)>>(tree);
    lemma_map_is_listed::<PathKey, Placed<(Id, VisibilityModel)>>(tree);
    let i = place_of(s, last);
    lemma_entry::<PathKey, Placed<(Id, VisibilityModel)>>(s, i);
    if i < s.len() - 1 {
        let j = s.len() - 1;
        lemma_entry::<PathKey, Placed<(Id, VisibilityModel)>>(s, j);
        assert(PathKey::before(s[i].0, s[j].0));
        PathKey::before_transitive(s[i].0, s[j].0, last);
        PathKey::before_irreflexive(last);
        assert(false);
    }
    lemma_drop_last::<PathKey, Placed<(Id, VisibilityModel)>>(s);
    lemma_pairs_of::<PathKey, Placed<(Id, VisibilityModel)>>(s.drop_last(), tree.remove(last));
    let none = Map::<Seq<char>, Placed<(Id, VisibilityModel)>>::empty();
    let empty = Seq::<(Seq<char>, Placed<(Id, VisibilityModel)>)>::empty();
    assert(map_of(empty) =~= none);
    lemma_pairs_of::<PathKey, Placed<(Id, VisibilityModel)>>(empty, none);
    assert(parents.push(parent).drop_last() =~= parents);
    assert(id_bytes(Some(author), message, parents, tree) =~= author + id_bytes(None, message, parents, tree));
    assert(id_bytes(None, message, Seq::empty(), Map::empty()) =~= encode_utf8(message));
    assert(id_bytes(None, message, parents.push(parent), Map::empty()) =~= id_bytes(
        None,
        message,
        parents,
        Map::empty(),
    ) + parent);
    assert(id_bytes(None, message, parents, tree) =~= id_bytes(None, message, parents, tree.remove(last)) + encode_utf8(
        tree[last].text,
    ) + seq![0u8] + tree[last].v.0);
    let r = s.map_values(
        |p: (Seq<char>, Placed<(Id, VisibilityModel)>)| (p.0, other[p.0]),
    );
    assert(rising::<PathKey, Placed<(Id, VisibilityModel)>>(r)) by {
        assert forall|i: int, j: int| 0 <= i < j < r.len() implies PathKey::before(#[trigger] r[i].0, #[trigger] r[j].0) by {
            assert(PathKey::before(s[i].0, s[j].0));
        }
    }
    assert(map_of(r) =~= other) by {
        assert forall|q: Seq<char>| #[trigger] map_of(r).contains_key(q) <==> other.contains_key(q) by {
            if map_of(r).contains_key(q) {
                let j = place_of(r, q);
                assert(s[j].0 == q);
                lemma_entry::<PathKey, Placed<(Id, VisibilityModel)>>(s, j);
                assert(tree.dom().contains(q));
            }
            if other.contains_key(q) {
                assert(tree.dom().contains(q));
                let j = place_of(s, q);
                lemma_entry::<PathKey, Placed<(Id, VisibilityModel)>>(s, j);
                assert(r[j].0 == q);
                assert(has_key(r, q));
            }
        }
        assert forall|q: Seq<char>| #[trigger] map_of(r).contains_key(q) implies map_of(r)[q] == other[q] by {
            let j = place_of(r, q);
            assert(r[j].0 == q);
            lemma_entry::<PathKey, Placed<(Id, VisibilityModel)>>(r, j);
        }
    }
    lemma_pairs_of::<PathKey, Placed<(Id, VisibilityModel)>>(r, other);
    assert forall|j: int| 0 <= j < s.len() implies (#[trigger] r[j]).1.text == s[j].1.text && r[j].1.v.0 == s[j].1.v.0 by {
        lemma_entry::<PathKey, Placed<(Id, VisibilityModel)>>(s, j);
        assert(tree.contains_key(s[j].0));
    }
    lemma_same_id_bytes(s, r);
}

proof fn lemma_same_id_bytes(
    s: Seq<(Seq<char>, Placed<(Id, VisibilityModel)>)>,
    r: Seq<(Seq<char>, Placed<(Id, VisibilityModel)>)>,
)
    requires
        s.len() == r.len(),
        forall|j: int| 0 <= j < s.len() ==> (#[trigger] r[j]).1.text == s[j].1.text && r[j].1.v.0 == s[j].1.v.0,
    ensures
        tree_id_bytes(s) == tree_id_bytes(r),
    decreases s.len(),
{
    if s.len() > 0 {
        assert forall|j: int| 0 <= j < s.len() - 1 implies (#[trigger] r.drop_last()[j]).1.text == s.drop_last()[j].1.text
            && r.drop_last()[j].1.v.0 == s.drop_last()[j].1.v.0 by {
            assert(r[j] == r.drop_last()[j]);
        }
        lemma_same_id_bytes(s.drop_last(), r.drop_last());
        assert(r[s.len() - 1] == r.last());
    }
}

/// A signature covers the version id, and the change id behind it if there is one: two
/// versions that are signed alike are one.
pub proof fn law_signature_binds_both(v: Id, c: Option<Seq<u8>>, w: Id, d: Option<Seq<u8>>)
    requires
        v.len() == 32,
        w.len() == 32,
        c is Some ==> c->Some_0.len() == 16,
        d is Some ==> d->Some_0.len() == 16,
    ensures
        signing_message(v, c) == signing_message(w, d) ==> v == w && c == d,
        signing_message(v, c).take(32) == v,
        signing_message(v, c).len() == if c is Some {
            48
        } else {
            32int
        },
        c is Some ==> signing_message(v, c).skip(32) == c->Some_0,
{
    let (x, y) = (signing_message(v, c), signing_message(w, d));
    assert(x.take(32) =~= v);
    assert(y.take(32) =~= w);
    if c is Some {
        assert(x.skip(32) =~= c->Some_0);
    }
    if d is Some {
        assert(y.skip(32) =~= d->Some_0);
    }
}

// ---------------------------------------------------------------------------
// History
// ---------------------------------------------------------------------------

/// The tips are just the changes that no other names as a parent.
pub proof fn law_tips_have_no_child(changes: Nodes, x: Id)
    requires
        changes.dom().finite(),
    ensures
        tips(changes).contains(x) <==> changes.contains_key(x) && !has_child(changes, x),
{
    let ids = ids_in_order(changes);
    let s = pairs_of::<Oid, NodeModel>(changes);
    lemma_map_is_listed::<Oid, NodeModel>(changes);
    lemma_filter_contains(ids, |id: Id| !referenced(changes, id), x);
    if ids.contains(x) {
        let i = choose|i: int| 0 <= i < ids.len() && ids[i] == x;
        lemma_entry::<Oid, NodeModel>(s, i);
    }
    if changes.contains_key(x) {
        let i = place_of(s, x);
        lemma_entry::<Oid, NodeModel>(s, i);
        assert(ids[i] == x);
    }
    assert(has_child(changes, x) == referenced(changes, x));
}

/// History in detail counts the paths of each change that are restricted, and those that are
/// under embargo.
pub proof fn law_counts_by_visibility(t: TreeModel)
    requires
        t.dom().finite(),
    ensures
        ({
            let s = pairs_of::<PathKey, Placed<(Id, VisibilityModel)>>(t);
            &&& s.len() == t.dom().len()
            &&& restricted_count(s) == t.dom().filter(|p: Seq<char>| t[p].v.1 is Restricted).len()
            &&& embargoed_count(s) == t.dom().filter(|p: Seq<char>| t[p].v.1 is Embargoed).len()
        }),
{
    let s = pairs_of::<PathKey, Placed<(Id, VisibilityModel)>>(t);
    lemma_map_is_listed::<PathKey, Placed<(Id, VisibilityModel)>>(t);
    lemma_listed_len::<PathKey, Placed<(Id, VisibilityModel)>>(s, t);
    lemma_counted(t, |v: VisibilityModel| v is Restricted);
    lemma_counted(t, |v: VisibilityModel| v is Embargoed);
    let f = |v: VisibilityModel| v is Restricted;
    let g = |v: VisibilityModel| v is Embargoed;
    let fs = |p: (Seq<char>, Placed<(Id, VisibilityModel)>)| f(p.1.v.1);
    let gs = |p: (Seq<char>, Placed<(Id, VisibilityModel)>)| g(p.1.v.1);
    let rs = |p: (Seq<char>, Placed<(Id, VisibilityModel)>)| p.1.v.1 is Restricted;
    let es = |p: (Seq<char>, Placed<(Id, VisibilityModel)>)| p.1.v.1 is Embargoed;
    crate::seqs::lemma_filter_agrees(s, fs, rs);
    crate::seqs::lemma_filter_agrees(s, gs, es);
    assert(t.dom().filter(|p: Seq<char>| f(t[p].v.1)) =~= t.dom().filter(|p: Seq<char>| t[p].v.1 is Restricted));
    assert(t.dom().filter(|p: Seq<char>| g(t[p].v.1)) =~= t.dom().filter(|p: Seq<char>| t[p].v.1 is Embargoed));
}

proof fn lemma_counted(t: TreeModel, f: spec_fn(VisibilityModel) -> bool)
    requires
        t.dom().finite(),
    ensures
        pairs_of::<PathKey, Placed<(Id, VisibilityModel)>>(t).filter(
            |p: (Seq<char>, Placed<(Id, VisibilityModel)>)| f(p.1.v.1),
        ).len() == t.dom().filter(|p: Seq<char>| f(t[p].v.1)).len(),
{
    let s = pairs_of::<PathKey, Placed<(Id, VisibilityModel)>>(t);
    lemma_map_is_listed::<PathKey, Placed<(Id, VisibilityModel)>>(t);
    let fs = |p: (Seq<char>, Placed<(Id, VisibilityModel)>)| f(p.1.v.1);
    let kept = s.filter(fs);
    lemma_part_rises::<PathKey, Placed<(Id, VisibilityModel)>>(s, fs);
    lemma_listed_len::<PathKey, Placed<(Id, VisibilityModel)>>(kept, map_of(kept));
    let d = t.dom().filter(|p: Seq<char>| f(t[p].v.1));
    assert forall|p: Seq<char>| map_of(kept).dom().contains(p) <==> d.contains(p) by {
        if map_of(kept).contains_key(p) {
            let i = place_of(kept, p);
            assert(kept[i].0 == p);
            assert(kept.contains(kept[i]));
            lemma_filter_contains(s, fs, kept[i]);
            let j = choose|j: int| 0 <= j < s.len() && s[j] == kept[i];
            lemma_entry::<PathKey, Placed<(Id, VisibilityModel)>>(s, j);
        }
        if d.contains(p) {
            let j = place_of(s, p);
            lemma_entry::<PathKey, Placed<(Id, VisibilityModel)>>(s, j);
            assert(s[j] == (p, t[p]));
            lemma_filter_contains(s, fs, s[j]);
            let i = choose|i: int| 0 <= i < kept.len() && kept[i] == s[j];
            assert(kept[i].0 == p);
            assert(has_key(kept, p));
        }
    }
    assert(map_of(kept).dom() =~= d);
}

/// The graph of history tells of each change its message, and by their places just the heads
/// that it is an ancestor of.
pub proof fn law_log_tells_who_reaches(g: GraphModel, i: int, k: usize)
    requires
        0 <= i < log_nodes(g).len(),
        g.changes.dom().finite(),
        forall|x: Id| #[trigger] g.changes.contains_key(x) ==> g.changes[x].id == x,
        heads_in_order(g).len() <= usize::MAX,
    ensures
        ({
            let n = log_nodes(g)[i];
            let heads = heads_in_order(g);
            &&& g.changes.contains_key(n.id) && n.message == g.changes[n.id].message
            &&& n.reachable_from.contains(k) <==> k < heads.len() && reaches(
                edges_of(g.changes),
                heads[k as int],
                n.id,
            )
        }),
{
    let e = edges_of(g.changes);
    let heads = heads_in_order(g);
    let o = walk(e, ids_in_order(g.changes));
    let ns = super::change_graph::ordered(g.changes);
    let j = ns.len() - 1 - i;
    let n = log_nodes(g)[i];
    assert(n.id == ns[j].id);
    assert(e.dom() =~= g.changes.dom());
    law_walk_is_ancestry(e, ids_in_order(g.changes), o[j]);
    assert(o.contains(o[j]));
    assert(g.changes.contains_key(o[j]));
    let all = Seq::new(heads.len(), |i: int| i as usize);
    let f = |i: usize| crate::ancestry::closure_of(e, seq![heads[i as int]]).contains(n.id);
    lemma_filter_contains(all, f, k);
    if k < heads.len() {
        assert(all[k as int] == k);
        let h = heads[k as int];
        assert(seq![h][0] == h);
        assert(seq![h].contains(h));
    }
}

/// A change that is recorded comes in with its parents, message and tree, in the name of this
/// author and unsigned, under its change id and with the versions that it stands in for.
/// Nothing but the graph changes.
pub proof fn law_change_is_recorded(m: RepoModel, c: ChangeModel, cid: Option<Seq<u8>>, preds: Seq<Id>)
    ensures
        recorded(m, c, cid, preds) == (RepoModel {
            graph: with_node(
                m.graph,
                NodeModel {
                    id: change_digest(m.author, c.message, c.parents, c.tree),
                    parents: c.parents,
                    message: c.message,
                    tree: c.tree,
                    author: m.author,
                    signature: None,
                    change_id: cid,
                    predecessors: preds,
                },
            ),
            ..m
        }),
        fresh_for(m, cid) ==> (cid is Some <==> m.author is Some) && (cid is Some ==> cid->Some_0.len() == 16),
{
}

/// The graph of what some heads reach has just the changes that are theirs or their
/// ancestors', as they are.
pub proof fn law_reachable_is_ancestry(m: Nodes, heads: Seq<Id>, x: Id)
    requires
        m.dom().finite(),
        forall|y: Id| #[trigger] m.contains_key(y) ==> m[y].id == y,
    ensures
        ({
            let g = with_nodes(empty_graph(), lineage(m, heads));
            &&& g.changes.contains_key(x) <==> m.contains_key(x) && reaches_from(edges_of(m), heads, x)
            &&& g.changes.contains_key(x) ==> g.changes[x] == m[x]
        }),
{
    let e = edges_of(m);
    let o = walk(e, heads);
    let ns = lineage(m, heads);
    assert(e.dom() =~= m.dom());
    law_walk_is_ancestry(e, heads, x);
    assert forall|i: int| 0 <= i < ns.len() implies (#[trigger] ns[i]).id == o[i] && m.contains_key(o[i]) by {
        assert(o.contains(o[i]));
        law_walk_is_ancestry(e, heads, o[i]);
    }
    lemma_nodes_gathered(m, ns, x);
    if o.contains(x) {
        let i = choose|i: int| 0 <= i < o.len() && o[i] == x;
        assert(ns[i].id == x);
    }
    if exists|i: int| 0 <= i < ns.len() && (#[trigger] ns[i]).id == x {
        let i = choose|i: int| 0 <= i < ns.len() && (#[trigger] ns[i]).id == x;
        assert(o.contains(o[i]));
    }
}

proof fn lemma_nodes_gathered(m: Nodes, ns: Seq<NodeModel>, x: Id)
    requires
        forall|i: int| 0 <= i < ns.len() ==> m.contains_key((#[trigger] ns[i]).id) && m[ns[i].id] == ns[i],
    ensures
        ({
            let g = with_nodes(empty_graph(), ns);
            &&& g.changes.contains_key(x) <==> exists|i: int| 0 <= i < ns.len() && (#[trigger] ns[i]).id == x
            &&& g.changes.contains_key(x) ==> g.changes[x] == m[x]
        }),
    decreases ns.len(),
{
    if ns.len() > 0 {
        let front = ns.drop_last();
        let last = ns.len() - 1;
        assert forall|i: int| 0 <= i < front.len() implies m.contains_key((#[trigger] front[i]).id) && m[front[i].id]
            == front[i] by {
            assert(front[i] == ns[i]);
        }
        lemma_nodes_gathered(m, front, x);
        assert(ns.last() == ns[last]);
        if exists|i: int| 0 <= i < front.len() && (#[trigger] front[i]).id == x {
            let i = choose|i: int| 0 <= i < front.len() && (#[trigger] front[i]).id == x;
            assert(ns[i].id == x);
        }
        if exists|i: int| 0 <= i < ns.len() && (#[trigger] ns[i]).id == x {
            let i = choose|i: int| 0 <= i < ns.len() && (#[trigger] ns[i]).id == x;
            if i < last {
                assert(front[i].id == x);
            }
        }
    }
}

} // verus!
