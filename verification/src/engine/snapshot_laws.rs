//! Taking files, and taking the same files again.

use crate::ancestry::Id;
use crate::path::normal_path;
use crate::path_map::{PathKey, Placed};
use crate::sealed::granted_to;
use crate::seqs::{lemma_filter_agrees, lemma_filter_contains, lemma_filter_wants_none};
use crate::sorted::{lemma_entry, lemma_map_is_listed, pairs_of, place_of};
use crate::types::{ErrorModel, TreeModel, VisibilityModel};
use super::change_graph::{
    other_than, referenced, restored, tree_of, with_node, without_head, GraphModel, NodeModel, Nodes,
};
use super::custody::law_put_is_readable;
use super::graph_laws::can_top;
use super::laws::{can_record, lemma_tree_with, lemma_tree_with_entered, lemma_tree_with_text};
use super::{
    already_taken, carried, clobbered, dropped, entered, first_for_path, got, hidden, id_here, kept_change_id,
    last_for_path, lemma_with_contents_keeps, node_here, seals, seals_all, seals_snapshot, snapshot_change,
    snapshotted, tree_holds, tree_with, with_content, with_contents, EntryModel, RepoModel, Sealing,
};
use vstd::prelude::*;

verus! {

/// Heads that have lost their only child come back in the order in which they were its
/// parents.
proof fn lemma_parents_come_back(changes: Nodes, parents: Seq<Id>)
    requires
        parents.no_duplicates(),
        forall|x: Id| #[trigger] parents.contains(x) ==> changes.contains_key(x) && !referenced(changes, x),
    ensures
        restored(changes, Seq::empty(), parents) == parents,
    decreases parents.len(),
{
    if parents.len() > 0 {
        let front = parents.drop_last();
        let p = parents.last();
        assert(parents[parents.len() - 1] == p);
        assert(parents.contains(p));
        assert forall|x: Id| #[trigger] front.contains(x) implies parents.contains(x) && x != p by {
            let k = choose|k: int| 0 <= k < front.len() && front[k] == x;
            assert(parents[k] == x);
        }
        lemma_parents_come_back(changes, front);
        assert(front.push(p) =~= parents);
    } else {
        assert(parents =~= Seq::<Id>::empty());
    }
}

/// Taking a new change off again that stood on top of all the heads leaves the graph
/// as it was.
pub proof fn law_topmost_comes_off(g: GraphModel, n: NodeModel)
    requires
        can_top(g, n),
    ensures
        with_node(g, n).heads == seq![n.id],
        without_head(with_node(g, n), n.id) == g,
{
    let r = with_node(g, n);
    let f = |h: Id| !n.parents.contains(h);
    lemma_filter_wants_none(g.heads, f);
    assert(g.heads.filter(f) == Seq::<Id>::empty());
    if referenced(r.changes, n.id) {
        let c = choose|c: Id| #[trigger] r.changes.contains_key(c) && r.changes[c].parents.contains(n.id);
        if c == n.id {
            assert(g.heads.contains(n.id));
        } else {
            assert(g.changes.contains_key(c) && g.changes[c].parents.contains(n.id));
        }
    }
    assert(r.heads =~= seq![n.id]);
    assert(r.heads[0] == n.id);
    assert(r.heads.contains(n.id));
    assert forall|x: Id| #[trigger] r.heads.contains(x) implies !other_than(n.id)(x) by {}
    lemma_filter_wants_none(r.heads, other_than(n.id));
    assert(r.changes.remove(n.id) =~= g.changes);
    lemma_parents_come_back(g.changes, g.heads);
}

/// The address is that of one of the contents.
pub open spec fn is_content(ss: Seq<Sealing>, oid: Id) -> bool {
    exists|i: int| 0 <= i < ss.len() && (#[trigger] ss[i]).addr == oid
}

/// Putting contents in leaves all else as it was.
proof fn lemma_contents_frame(m: RepoModel, ss: Seq<Sealing>, oid: Id)
    requires
        !is_content(ss, oid),
    ensures
        with_contents(m, ss).objects.contains_key(oid) <==> m.objects.contains_key(oid),
        m.objects.contains_key(oid) ==> with_contents(m, ss).objects[oid] == m.objects[oid],
        with_contents(m, ss).keys.contains_key(oid) <==> m.keys.contains_key(oid),
        m.keys.contains_key(oid) ==> with_contents(m, ss).keys[oid] == m.keys[oid],
        with_contents(m, ss).manifest == m.manifest,
        with_contents(m, ss).burns == m.burns,
        with_contents(m, ss).identity == m.identity,
    decreases ss.len(),
{
    if ss.len() > 0 {
        let front = ss.drop_last();
        assert(ss.last() == ss[ss.len() - 1]);
        assert(!is_content(front, oid)) by {
            if is_content(front, oid) {
                let i = choose|i: int| 0 <= i < front.len() && (#[trigger] front[i]).addr == oid;
                assert(ss[i].addr == oid);
            }
        }
        lemma_contents_frame(m, front, oid);
    }
}

/// Contents that can be read where they are put in: each at a new address of its own,
/// granted to this identity and not under embargo.
pub open spec fn readable_here(m: RepoModel, es: Seq<EntryModel>, ss: Seq<Sealing>) -> bool {
    &&& seals_all(es, ss)
    &&& forall|i: int|
        0 <= i < ss.len() ==> {
            &&& !m.burns.contains_key((#[trigger] ss[i]).addr)
            &&& !m.objects.contains_key(ss[i].addr)
            &&& !m.keys.contains_key(ss[i].addr)
            &&& granted_to(ss[i].obj.grant_ids, m.identity)
            &&& !(es[i].2 is Embargoed)
        }
    &&& forall|i: int, j: int| 0 <= i < j < ss.len() ==> (#[trigger] ss[i]).addr != (#[trigger] ss[j]).addr
}

/// Each content can be read once all have been put in.
proof fn lemma_contents_readable(m: RepoModel, es: Seq<EntryModel>, ss: Seq<Sealing>, i: int, now: u64)
    requires
        readable_here(m, es, ss),
        0 <= i < ss.len(),
    ensures
        got(with_contents(m, ss), ss[i].addr, m.identity, now) == Ok::<Seq<u8>, ErrorModel>(es[i].1),
    decreases ss.len(),
{
    let front = ss.drop_last();
    let before = with_contents(m, front);
    let last = ss.last();
    assert(last == ss[ss.len() - 1]);
    assert(seals(es[ss.len() - 1].1, es[ss.len() - 1].2, ss[ss.len() - 1]));
    assert(!is_content(front, last.addr)) by {
        if is_content(front, last.addr) {
            let j = choose|j: int| 0 <= j < front.len() && (#[trigger] front[j]).addr == last.addr;
            assert(ss[j].addr == ss[ss.len() - 1].addr);
        }
    }
    lemma_contents_frame(m, front, last.addr);
    if i == ss.len() - 1 {
        law_put_is_readable(before, es[i].1, es[i].2, last, now);
    } else {
        let es1 = es.drop_last();
        assert(front[i] == ss[i]);
        assert(es1[i] == es[i]);
        assert(readable_here(m, es1, front)) by {
            assert forall|j: int| 0 <= j < es1.len() implies seals(es1[j].1, es1[j].2, #[trigger] front[j]) by {
                assert(seals(es[j].1, es[j].2, ss[j]));
            }
            assert forall|j: int| 0 <= j < front.len() implies {
                &&& !m.burns.contains_key((#[trigger] front[j]).addr)
                &&& !m.objects.contains_key(front[j].addr)
                &&& !m.keys.contains_key(front[j].addr)
                &&& granted_to(front[j].obj.grant_ids, m.identity)
                &&& !(es1[j].2 is Embargoed)
            } by {
                assert(front[j] == ss[j]);
            }
            assert forall|j: int, k: int| 0 <= j < k < front.len() implies (#[trigger] front[j]).addr != (
            #[trigger] front[k]).addr by {
                assert(front[j] == ss[j] && front[k] == ss[k]);
            }
        }
        lemma_contents_readable(m, es1, front, i, now);
        assert(ss[i].addr != ss[ss.len() - 1].addr);
        assert(with_contents(m, ss) == with_content(before, last));
    }
}

/// A path that is entered is in the tree.
proof fn lemma_tree_with_has(t: TreeModel, es: Seq<EntryModel>, ss: Seq<Sealing>, p: Seq<char>)
    requires
        es.len() == ss.len(),
        entered(es, p),
    ensures
        tree_with(t, es, ss).contains_key(p),
    decreases es.len(),
{
    let i = choose|i: int| 0 <= i < es.len() && normal_path((#[trigger] es[i]).0) == p;
    assert(es.last() == es[es.len() - 1]);
    if normal_path(es.last().0) != p {
        assert(normal_path(es.drop_last()[i].0) == p);
        assert(entered(es.drop_last(), p));
        lemma_tree_with_has(t, es.drop_last(), ss.drop_last(), p);
    }
}

/// A snapshot is idempotent: right after one, the working change holds what it took,
/// so that another snapshot of the same files with the same message changes nothing.
/// `m` is the repository without its working change; the contents are such as can be
/// read here, at addresses that no tree names yet.
pub proof fn law_snapshot_again_changes_nothing(
    m: RepoModel,
    es: Seq<EntryModel>,
    ss: Seq<Sealing>,
    message: Seq<char>,
    cid: Option<Seq<u8>>,
    now: u64,
)
    requires
        can_record(m, snapshot_change(m, es, ss, message, now), cid),
        tree_of(m.graph.changes).dom().finite(),
        clobbered(m, es, now).len() == 0,
        readable_here(m, es, ss),
        forall|p: Seq<char>| #[trigger]
            tree_of(m.graph.changes).contains_key(p) ==> !is_content(ss, tree_of(m.graph.changes)[p].v.0),
    ensures
        ({
            let after = snapshotted(m, es, ss, message, cid, now);
            let w = Some(id_here(m, snapshot_change(m, es, ss, message, now)));
            &&& already_taken(after, w, es, message, now)
            &&& clobbered(dropped(after, w), es, now).len() == 0
        }),
{
    let c = snapshot_change(m, es, ss, message, now);
    let n = node_here(m, c, cid, Seq::empty());
    let after = snapshotted(m, es, ss, message, cid, now);
    let base = with_contents(m, ss);
    let t = tree_of(m.graph.changes);
    lemma_with_contents_keeps(m, ss);
    law_topmost_comes_off(m.graph, n);
    assert(node_here(base, c, cid, Seq::empty()) == n);
    assert(after.graph == with_node(m.graph, n));
    assert(after.graph.heads[0] == n.id);
    assert(after.graph.heads.contains(n.id));
    assert(dropped(after, Some(n.id)) == base);
    assert forall|p: Seq<char>| #[trigger] t.contains_key(p) implies hidden(base, t[p].v.0, now) == hidden(
        m,
        t[p].v.0,
        now,
    ) by {
        lemma_contents_frame(m, ss, t[p].v.0);
    }
    assert(carried(base, now) =~= carried(m, now));
    let s = pairs_of::<PathKey, Placed<(Id, VisibilityModel)>>(t);
    let f = |p: (Seq<char>, Placed<(Id, VisibilityModel)>)| entered(es, p.0) && hidden(m, p.1.v.0, now);
    lemma_map_is_listed::<PathKey, Placed<(Id, VisibilityModel)>>(t);
    assert(tree_holds(c.tree, base, es, now)) by {
        assert forall|p: Seq<char>| #[trigger] c.tree.contains_key(p) <==> entered(es, p) || carried(
            base,
            now,
        ).contains_key(p) by {
            if entered(es, p) {
                lemma_tree_with_has(carried(m, now), es, ss, p);
            } else {
                lemma_tree_with(carried(m, now), es, ss, p);
            }
        }
        assert forall|p: Seq<char>| #[trigger] c.tree.contains_key(p) && !entered(es, p) implies c.tree[p] == carried(
            base,
            now,
        )[p] by {
            lemma_tree_with(carried(m, now), es, ss, p);
        }
        assert forall|i: int| #[trigger] first_for_path(es, i) implies c.tree[normal_path(es[i].0)].text == es[i].0 by {
            let p = normal_path(es[i].0);
            if carried(m, now).contains_key(p) {
                assert(entered(es, p));
                let k = place_of(s, p);
                lemma_entry::<PathKey, Placed<(Id, VisibilityModel)>>(s, k);
                lemma_filter_contains(s, f, s[k]);
                assert(clobbered(m, es, now).contains(s[k]));
                assert(false);
            }
            lemma_tree_with_text(carried(m, now), es, ss, i);
        }
        assert forall|i: int| #[trigger] last_for_path(es, i) implies c.tree[normal_path(es[i].0)].v.1 == es[i].2
            && got(
            base,
            c.tree[normal_path(es[i].0)].v.0,
            base.identity,
            now,
        ) == Ok::<Seq<u8>, ErrorModel>(es[i].1) by {
            lemma_tree_with_entered(carried(m, now), es, ss, i);
            lemma_contents_readable(m, es, ss, i, now);
            lemma_with_contents_keeps(m, ss);
        }
    }
    let g = |p: (Seq<char>, Placed<(Id, VisibilityModel)>)| entered(es, p.0) && hidden(base, p.1.v.0, now);
    assert forall|x: (Seq<char>, Placed<(Id, VisibilityModel)>)| #[trigger] s.contains(x) implies f(x) == g(x) by {
        let i = choose|i: int| 0 <= i < s.len() && s[i] == x;
        lemma_entry::<PathKey, Placed<(Id, VisibilityModel)>>(s, i);
        assert(t.contains_key(x.0) && t[x.0] == x.1);
    }
    lemma_filter_agrees(s, f, g);
    assert(clobbered(base, es, now) == s.filter(g));
}

/// An entry is for a path, and no later one is.
pub open spec fn enters_last(es: Seq<EntryModel>, i: int, p: Seq<char>) -> bool {
    &&& 0 <= i < es.len()
    &&& normal_path(es[i].0) == p
    &&& forall|j: int| i < j < es.len() ==> normal_path((#[trigger] es[j]).0) != p
}

proof fn lemma_some_enters_last(es: Seq<EntryModel>, i: int, p: Seq<char>) -> (k: int)
    requires
        0 <= i < es.len(),
        normal_path(es[i].0) == p,
    ensures
        enters_last(es, k, p),
    decreases es.len() - i,
{
    if exists|j: int| i < j < es.len() && normal_path((#[trigger] es[j]).0) == p {
        let j = choose|j: int| i < j < es.len() && normal_path((#[trigger] es[j]).0) == p;
        lemma_some_enters_last(es, j, p)
    } else {
        i
    }
}

/// The tree that a snapshot records has the paths that were entered, each with the content
/// and visibility that were entered last, and those whose content its author cannot read,
/// as they were. It has no others. It is recorded on top of all heads, with its message.
pub proof fn law_snapshot_holds_what_was_entered(
    m: RepoModel,
    es: Seq<EntryModel>,
    ss: Seq<Sealing>,
    message: Seq<char>,
    now: u64,
    p: Seq<char>,
)
    requires
        es.len() == ss.len(),
    ensures
        ({
            let c = snapshot_change(m, es, ss, message, now);
            let t = tree_of(m.graph.changes);
            &&& c.parents == m.graph.heads
            &&& c.message == message
            &&& c.tree.contains_key(p) <==> (exists|i: int| #[trigger] enters_last(es, i, p)) || (t.contains_key(p)
                && got(m, t[p].v.0, m.identity, now) is Err)
            &&& forall|i: int| #[trigger]
                enters_last(es, i, p) ==> c.tree[p].v.0 == ss[i].addr && c.tree[p].v.1 == es[i].2
            &&& c.tree.contains_key(p) && (forall|i: int| !#[trigger] enters_last(es, i, p)) ==> c.tree[p] == t[p]
        }),
{
    let c = snapshot_change(m, es, ss, message, now);
    if entered(es, p) {
        let i = choose|i: int| 0 <= i < es.len() && normal_path((#[trigger] es[i]).0) == p;
        let k = lemma_some_enters_last(es, i, p);
        assert(last_for_path(es, k));
        lemma_tree_with_entered(carried(m, now), es, ss, k);
    } else {
        lemma_tree_with(carried(m, now), es, ss, p);
        assert forall|i: int| !#[trigger] enters_last(es, i, p) by {
            if enters_last(es, i, p) {
                assert(normal_path(es[i].0) == p);
            }
        }
    }
    assert forall|i: int| #[trigger] enters_last(es, i, p) implies c.tree[p].v.0 == ss[i].addr && c.tree[p].v.1
        == es[i].2 by {
        assert(last_for_path(es, i));
        lemma_tree_with_entered(carried(m, now), es, ss, i);
    }
}

/// A snapshot is refused just where it would write over content that its author cannot
/// read, at the first such path in order.
pub proof fn law_snapshot_spares_what_is_unseen(m: RepoModel, es: Seq<EntryModel>, now: u64)
    requires
        tree_of(m.graph.changes).dom().finite(),
    ensures
        ({
            let t = tree_of(m.graph.changes);
            clobbered(m, es, now).len() > 0 <==> exists|i: int|
                0 <= i < es.len() && t.contains_key(normal_path((#[trigger] es[i]).0)) && got(
                    m,
                    t[normal_path(es[i].0)].v.0,
                    m.identity,
                    now,
                ) is Err
        }),
{
    let t = tree_of(m.graph.changes);
    let s = pairs_of::<PathKey, Placed<(Id, VisibilityModel)>>(t);
    let f = |p: (Seq<char>, Placed<(Id, VisibilityModel)>)| entered(es, p.0) && hidden(m, p.1.v.0, now);
    lemma_map_is_listed::<PathKey, Placed<(Id, VisibilityModel)>>(t);
    let r = clobbered(m, es, now);
    if r.len() > 0 {
        assert(r.contains(r[0]));
        lemma_filter_contains(s, f, r[0]);
        let j = choose|j: int| 0 <= j < s.len() && s[j] == r[0];
        lemma_entry::<PathKey, Placed<(Id, VisibilityModel)>>(s, j);
        let i = choose|i: int| 0 <= i < es.len() && normal_path((#[trigger] es[i]).0) == r[0].0;
        assert(t.contains_key(normal_path(es[i].0)));
    }
    if exists|i: int|
        0 <= i < es.len() && t.contains_key(normal_path((#[trigger] es[i]).0)) && got(
            m,
            t[normal_path(es[i].0)].v.0,
            m.identity,
            now,
        ) is Err {
        let i = choose|i: int|
            0 <= i < es.len() && t.contains_key(normal_path((#[trigger] es[i]).0)) && got(
                m,
                t[normal_path(es[i].0)].v.0,
                m.identity,
                now,
            ) is Err;
        let p = normal_path(es[i].0);
        let j = place_of(s, p);
        lemma_entry::<PathKey, Placed<(Id, VisibilityModel)>>(s, j);
        assert(s[j] == (p, t[p]));
        assert(entered(es, p));
        lemma_filter_contains(s, f, s[j]);
    }
}

/// A snapshot is left out only where the working change is an unsigned head of this author
/// with the same message, on the same parents, that holds every entry's content and
/// visibility and nothing else that its author can read.
pub proof fn law_nothing_new_is_taken(
    m: RepoModel,
    w: Id,
    es: Seq<EntryModel>,
    message: Seq<char>,
    now: u64,
    p: Seq<char>,
)
    requires
        already_taken(m, Some(w), es, message, now),
    ensures
        m.graph.heads.contains(w),
        m.graph.changes.contains_key(w),
        ({
            let n = m.graph.changes[w];
            let below = RepoModel { graph: without_head(m.graph, w), ..m };
            &&& n.signature is None && n.author == m.author && n.message == message && n.parents == below.graph.heads
            &&& forall|i: int| #[trigger]
                enters_last(es, i, p) ==> n.tree.contains_key(p) && n.tree[p].v.1 == es[i].2 && got(
                    below,
                    n.tree[p].v.0,
                    m.identity,
                    now,
                ) == Ok::<Seq<u8>, ErrorModel>(es[i].1)
            &&& n.tree.contains_key(p) && (forall|i: int| !#[trigger] enters_last(es, i, p)) ==> {
                let t = tree_of(below.graph.changes);
                t.contains_key(p) && n.tree[p] == t[p] && got(below, t[p].v.0, m.identity, now) is Err
            }
        }),
{
    let n = m.graph.changes[w];
    let base = dropped(m, Some(w));
    assert forall|i: int| #[trigger] enters_last(es, i, p) implies n.tree.contains_key(p) && n.tree[p].v.1 == es[i].2
        && got(base, n.tree[p].v.0, m.identity, now) == Ok::<Seq<u8>, ErrorModel>(es[i].1) by {
        assert(last_for_path(es, i));
        assert(entered(es, p));
    }
    if n.tree.contains_key(p) && (forall|i: int| !#[trigger] enters_last(es, i, p)) {
        if entered(es, p) {
            let i = choose|i: int| 0 <= i < es.len() && normal_path((#[trigger] es[i]).0) == p;
            let k = lemma_some_enters_last(es, i, p);
            assert(enters_last(es, k, p));
        }
        assert(carried(base, now).contains_key(p));
    }
}

/// A working change that is rewritten keeps its change id. One that has none, or a change
/// that is new, gets one just where changes are authored.
pub proof fn law_rewriting_keeps_the_change(
    m: RepoModel,
    working: Option<Id>,
    es: Seq<EntryModel>,
    ss: Seq<Sealing>,
    cid: Option<Seq<u8>>,
)
    requires
        seals_snapshot(m, es, kept_change_id(m, working), ss, cid),
    ensures
        working is Some && m.graph.changes.contains_key(working->Some_0)
            && m.graph.changes[working->Some_0].change_id is Some ==> cid
            == m.graph.changes[working->Some_0].change_id,
        (working is None || !m.graph.changes.contains_key(working->Some_0)
            || m.graph.changes[working->Some_0].change_id is None) ==> (cid is Some <==> m.author is Some),
{
}

} // verus!
