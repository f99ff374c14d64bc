//! The graph of changes: nodes, heads, order, and the trees that follow from them.
//!
//! It knows change identity and the shape of history, and nothing of bytes,
//! ciphertext or keys.

use crate::ancestry::{
    acyclic, closure, closure_of, first_in, nearest_common, walk, walk_order, Edges, History, Id,
};
use crate::crypto::{blake3_digest, blake3_hash, random_bytes};
use crate::format::{put_raw, wire_all};
use crate::path_map::{laid_over, PathKey, PathMap, Placed};
use crate::seqs::{lemma_filter_contains, lemma_filter_none, lemma_filter_step};
use crate::sorted::{lemma_entry, lemma_finite, map_of, pairs_of, place_of, rising, SortedMap};
use crate::types::{Change, Oid, RepoError, Tree, TreeModel, VisibilityModel};
use crate::value::Value;
use vstd::prelude::*;
use vstd::utf8::encode_utf8;

verus! {

/// A node of the graph.
#[derive(Debug)]
pub struct ChangeNode {
    /// The version id: a digest of author, message, parents and tree.
    pub id: Oid,
    pub parents: Vec<Oid>,
    pub message: String,
    pub tree: Tree,
    /// The author's public key, which is part of the id.
    pub author: Option<[u8; 32]>,
    /// The author's signature, once the change is finished.
    pub signature: Option<[u8; 64]>,
    /// A name that stays the same while the change is edited.
    pub change_id: Option<[u8; 16]>,
    /// The versions of the same change that this one takes the place of.
    pub predecessors: Vec<Oid>,
}

/// The model of a [`ChangeNode`].
pub struct NodeModel {
    pub id: Id,
    pub parents: Seq<Id>,
    pub message: Seq<char>,
    pub tree: TreeModel,
    pub author: Option<Seq<u8>>,
    pub signature: Option<Seq<u8>>,
    pub change_id: Option<Seq<u8>>,
    pub predecessors: Seq<Id>,
}

impl DeepView for ChangeNode {
    type V = NodeModel;

    open spec fn deep_view(&self) -> NodeModel {
        NodeModel {
            id: self.id.deep_view(),
            parents: self.parents.deep_view(),
            message: self.message@,
            tree: self.tree.deep_view(),
            author: self.author.deep_view(),
            signature: self.signature.deep_view(),
            change_id: self.change_id.deep_view(),
            predecessors: self.predecessors.deep_view(),
        }
    }
}

impl Value for ChangeNode {
    fn dup(&self) -> (r: Self) {
        ChangeNode {
            id: self.id,
            parents: self.parents.dup(),
            message: self.message.clone(),
            tree: self.tree.dup(),
            author: self.author.dup(),
            signature: self.signature.dup(),
            change_id: self.change_id.dup(),
            predecessors: self.predecessors.dup(),
        }
    }

    fn same(&self, other: &Self) -> (b: bool) {
        self.id.same(&other.id) && self.parents.same(&other.parents) && self.message == other.message
            && self.tree.same(&other.tree) && self.author.same(&other.author) && self.signature.same(
            &other.signature,
        ) && self.change_id.same(&other.change_id) && self.predecessors.same(&other.predecessors)
    }
}

impl Clone for ChangeNode {
    fn clone(&self) -> (r: Self)
        ensures
            r.deep_view() == self.deep_view(),
    {
        self.dup()
    }
}

/// A change that its author has not signed yet.
pub open spec fn is_working(n: NodeModel) -> bool {
    n.author is Some && n.signature is None
}

/// Whether a change is authored and not signed yet.
pub fn is_working_change(n: &ChangeNode) -> (b: bool)
    ensures
        b == is_working(n.deep_view()),
{
    n.author.is_some() && n.signature.is_none()
}

// ---------------------------------------------------------------------------
// Ids and signatures
// ---------------------------------------------------------------------------

/// The part of a tree that goes into a change's id: path as it is written, a zero byte,
/// address.
pub open spec fn tree_id_bytes(s: Seq<(Seq<char>, Placed<(Id, VisibilityModel)>)>) -> Seq<u8>
    decreases s.len(),
{
    if s.len() == 0 {
        Seq::empty()
    } else {
        tree_id_bytes(s.drop_last()) + encode_utf8(s.last().1.text) + seq![0u8] + s.last().1.v.0
    }
}

/// What a change's id is the digest of.
pub open spec fn id_bytes(
    author: Option<Seq<u8>>,
    message: Seq<char>,
    parents: Seq<Id>,
    tree: TreeModel,
) -> Seq<u8> {
    (match author {
        Some(a) => a,
        None => Seq::empty(),
    }) + encode_utf8(message) + wire_all::<Oid>(parents) + tree_id_bytes(
        pairs_of::<PathKey, Placed<(Id, VisibilityModel)>>(tree),
    )
}

/// A change's id.
pub open spec fn change_digest(
    author: Option<Seq<u8>>,
    message: Seq<char>,
    parents: Seq<Id>,
    tree: TreeModel,
) -> Id {
    blake3_digest(id_bytes(author, message, parents, tree))
}

/// The id of a change: the digest of its author's key, message, parents, paths and
/// addresses. Equal changes have equal ids; visibility does not enter.
pub fn compute_change_id(author: Option<&[u8; 32]>, change: &Change) -> (r: Oid)
    ensures
        r.deep_view() == change_digest(
            (match author {
                Some(a) => Some(a.deep_view()),
                None => None,
            }),
            change.message@,
            change.parents.deep_view(),
            change.tree.deep_view(),
        ),
{
    let mut b: Vec<u8> = Vec::new();
    if let Some(a) = author {
        put_raw(&mut b, a.as_slice());
        assert(a.deep_view() =~= a@);
    }
    let ghost head = match author {
        Some(a) => a.deep_view(),
        None => Seq::empty(),
    };
    assert(b@ =~= head);
    put_raw(&mut b, change.message.as_str().as_bytes());
    let ghost base = b@;
    let ghost ps = change.parents.deep_view();
    let mut i: usize = 0;
    assert(ps.take(0) =~= Seq::<Id>::empty());
    assert(base =~= base + wire_all::<Oid>(ps.take(0)));
    while i < change.parents.len()
        invariant
            0 <= i <= change.parents@.len(),
            ps == change.parents.deep_view(),
            b@ == base + wire_all::<Oid>(ps.take(i as int)),
        decreases change.parents@.len() - i,
    {
        put_raw(&mut b, change.parents[i].0.as_slice());
        proof {
            let next = ps.take(i as int + 1);
            assert(next.drop_last() =~= ps.take(i as int));
            assert(next.last() == change.parents@[i as int].deep_view());
            assert(b@ =~= base + wire_all::<Oid>(next));
        }
        i = i + 1;
    }
    assert(ps.take(ps.len() as int) =~= ps);
    let ghost base2 = b@;
    let n: usize = change.tree.len();
    let ghost s = change.tree.pairs();
    let mut j: usize = 0;
    assert(s.take(0) =~= Seq::empty());
    assert(base2 =~= base2 + tree_id_bytes(s.take(0)));
    while j < n
        invariant
            0 <= j <= n,
            n == s.len(),
            s == change.tree.pairs(),
            b@ == base2 + tree_id_bytes(s.take(j as int)),
        decreases n - j,
    {
        let path = change.tree.path_at(j);
        let entry = change.tree.value_at(j);
        put_raw(&mut b, path.as_str().as_bytes());
        b.push(0u8);
        put_raw(&mut b, entry.0.0.as_slice());
        proof {
            let next = s.take(j as int + 1);
            assert(next.drop_last() =~= s.take(j as int));
            assert(next.last() == s[j as int]);
            assert(b@ =~= base2 + tree_id_bytes(next));
        }
        j = j + 1;
    }
    assert(s.take(s.len() as int) =~= s);
    assert(b@ =~= id_bytes(
        (match author {
            Some(a) => Some(a.deep_view()),
            None => None,
        }),
        change.message@,
        ps,
        change.tree.deep_view(),
    ));
    Oid(blake3_hash(b.as_slice()))
}

/// A fresh change id. Random, so it survives the edits that change a version id.
pub fn mint_change_id() -> (r: Result<[u8; 16], RepoError>)
    ensures
        r matches Err(e) ==> e is Backend,
{
    random_bytes::<16>()
}

/// What a finished change's signature covers: the version id, then the change id
/// if there is one.
pub open spec fn signing_message(version_id: Id, change_id: Option<Seq<u8>>) -> Seq<u8> {
    match change_id {
        Some(c) => version_id + c,
        None => version_id,
    }
}

pub fn change_signing_message(version_id: &Oid, change_id: &Option<[u8; 16]>) -> (r: Vec<u8>)
    ensures
        r@ == signing_message(version_id.deep_view(), change_id.deep_view()),
{
    let mut m: Vec<u8> = Vec::new();
    put_raw(&mut m, version_id.0.as_slice());
    assert(m@ =~= version_id.deep_view());
    if let Some(c) = change_id {
        put_raw(&mut m, c.as_slice());
        assert(c.deep_view() =~= c@);
        assert(m@ =~= version_id.deep_view() + c.deep_view());
    }
    m
}

// ---------------------------------------------------------------------------
// The model of the graph
// ---------------------------------------------------------------------------

/// Nodes by version id.
pub type Nodes = Map<Id, NodeModel>;

/// The model of a [`ChangeGraph`].
pub struct GraphModel {
    pub changes: Nodes,
    pub heads: Seq<Id>,
}

/// The parents of each node.
pub open spec fn edges_of(changes: Nodes) -> Edges {
    Map::new(|id: Id| changes.contains_key(id), |id: Id| changes[id].parents)
}

/// Some node names `p` as a parent.
pub open spec fn referenced(changes: Nodes, p: Id) -> bool {
    exists|id: Id| #[trigger] changes.contains_key(id) && changes[id].parents.contains(p)
}

/// Nodes stand under their own ids; heads are nodes that are nobody's parent, each
/// once.
pub open spec fn graph_ok(g: GraphModel) -> bool {
    &&& forall|id: Id| #[trigger] g.changes.contains_key(id) ==> g.changes[id].id == id
    &&& g.heads.no_duplicates()
    &&& forall|id: Id| #[trigger] g.heads.contains(id) ==> g.changes.contains_key(id)
    &&& heads_unparented(g)
}

/// Every head is nobody's parent.
pub open spec fn heads_unparented(g: GraphModel) -> bool {
    forall|id: Id| #[trigger] g.heads.contains(id) ==> !referenced(g.changes, id)
}

/// Every node that is nobody's parent is a head.
pub open spec fn heads_cover(g: GraphModel) -> bool {
    forall|id: Id| #[trigger] g.changes.contains_key(id) && !referenced(g.changes, id) ==> g.heads.contains(id)
}

/// The graph without nodes.
pub open spec fn empty_graph() -> GraphModel {
    GraphModel { changes: Map::empty(), heads: Seq::empty() }
}

/// `heads` with `id` behind them, if it is not among them.
pub open spec fn push_new(heads: Seq<Id>, id: Id) -> Seq<Id> {
    if heads.contains(id) {
        heads
    } else {
        heads.push(id)
    }
}

/// The graph with one more node: its parents are heads no longer, and it is one
/// unless it is somebody's parent. A node that is there already changes nothing.
pub open spec fn with_node(g: GraphModel, n: NodeModel) -> GraphModel {
    if g.changes.contains_key(n.id) {
        g
    } else {
        let changes = g.changes.insert(n.id, n);
        let kept = g.heads.filter(|h: Id| !n.parents.contains(h));
        GraphModel {
            changes,
            heads: if referenced(changes, n.id) {
                kept
            } else {
                push_new(kept, n.id)
            },
        }
    }
}

/// The graph with several more nodes, in turn.
pub open spec fn with_nodes(g: GraphModel, ns: Seq<NodeModel>) -> GraphModel
    decreases ns.len(),
{
    if ns.len() == 0 {
        g
    } else {
        with_node(with_nodes(g, ns.drop_last()), ns.last())
    }
}

/// The heads after those of `parents` that nothing refers to any more have become
/// heads again.
pub open spec fn restored(changes: Nodes, heads: Seq<Id>, parents: Seq<Id>) -> Seq<Id>
    decreases parents.len(),
{
    if parents.len() == 0 {
        heads
    } else {
        let h = restored(changes, heads, parents.drop_last());
        let p = parents.last();
        if !referenced(changes, p) && changes.contains_key(p) {
            push_new(h, p)
        } else {
            h
        }
    }
}

/// Being some other id.
pub open spec fn other_than(id: Id) -> spec_fn(Id) -> bool {
    |h: Id| h != id
}

/// The graph without a head. What is no head stays.
pub open spec fn without_head(g: GraphModel, id: Id) -> GraphModel {
    if !g.heads.contains(id) || !g.changes.contains_key(id) {
        g
    } else {
        let changes = g.changes.remove(id);
        GraphModel {
            changes,
            heads: restored(changes, g.heads.filter(other_than(id)), g.changes[id].parents),
        }
    }
}

/// The graph in which `id` is a head no longer, with all nodes as they were.
pub open spec fn retired(g: GraphModel, id: Id) -> GraphModel {
    GraphModel { changes: g.changes, heads: g.heads.filter(other_than(id)) }
}

/// The graph in which a node carries a signature.
pub open spec fn signed(g: GraphModel, id: Id, signature: Seq<u8>) -> GraphModel {
    if g.changes.contains_key(id) {
        GraphModel {
            changes: g.changes.insert(id, NodeModel { signature: Some(signature), ..g.changes[id] }),
            heads: g.heads,
        }
    } else {
        g
    }
}

/// The version ids in order.
pub open spec fn ids_in_order(changes: Nodes) -> Seq<Id> {
    pairs_of::<Oid, NodeModel>(changes).map_values(|p: (Id, NodeModel)| p.0)
}

/// The nodes with these ids.
pub open spec fn nodes_at(changes: Nodes, ids: Seq<Id>) -> Seq<NodeModel> {
    ids.map_values(|id: Id| changes[id])
}

/// The nodes that a walk from `starts` leaves: ancestors first.
pub open spec fn lineage(changes: Nodes, starts: Seq<Id>) -> Seq<NodeModel> {
    nodes_at(changes, walk(edges_of(changes), starts))
}

/// All nodes, parents before children.
pub open spec fn ordered(changes: Nodes) -> Seq<NodeModel> {
    lineage(changes, ids_in_order(changes))
}

/// Trees laid over one another: what comes later wins.
pub open spec fn overlay(ns: Seq<NodeModel>) -> TreeModel
    decreases ns.len(),
{
    if ns.len() == 0 {
        Map::empty()
    } else {
        laid_over(overlay(ns.drop_last()), ns.last().tree)
    }
}

/// The latest entry of each path over the whole graph.
pub open spec fn tree_of(changes: Nodes) -> TreeModel {
    overlay(ordered(changes))
}

/// The latest entry of each path along one head's ancestry.
pub open spec fn line_tree(changes: Nodes, head: Id) -> TreeModel {
    overlay(lineage(changes, seq![head]))
}

/// The tree of the nearest common ancestor of two changes.
pub open spec fn base_tree(changes: Nodes, a: Id, b: Id) -> Option<TreeModel> {
    match nearest_common(edges_of(changes), a, b) {
        Some(id) => Some(changes[id].tree),
        None => None,
    }
}

/// The ids that nobody names as a parent, in order.
pub open spec fn tips(changes: Nodes) -> Seq<Id> {
    ids_in_order(changes).filter(|id: Id| !referenced(changes, id))
}

impl History for SortedMap<Oid, ChangeNode> {
    open spec fn edges(&self) -> Edges {
        edges_of(self.deep_view())
    }

    proof fn edges_finite(&self) {
        lemma_finite(self.pairs());
        assert(self.edges().dom() =~= self.deep_view().dom());
    }

    fn parents_of(&self, id: &Oid) -> (r: Option<&Vec<Oid>>) {
        match self.get(id) {
            Some(n) => Some(&n.parents),
            None => None,
        }
    }
}

/// Whether some node names `p` as a parent.
fn is_referenced(changes: &SortedMap<Oid, ChangeNode>, p: &Oid) -> (b: bool)
    ensures
        b == referenced(changes.deep_view(), p.deep_view()),
{
    let n: usize = changes.len();
    let ghost s = changes.pairs();
    let ghost m = changes.deep_view();
    let mut i: usize = 0;
    while i < n
        invariant
            0 <= i <= n,
            n == s.len(),
            s == changes.pairs(),
            m == changes.deep_view(),
            m == map_of(s),
            rising::<Oid, NodeModel>(s),
            forall|j: int| 0 <= j < i ==> !(#[trigger] s[j]).1.parents.contains(p.deep_view()),
        decreases n - i,
    {
        proof {
            lemma_entry::<Oid, NodeModel>(s, i as int);
        }
        let node = changes.value_at(i);
        if crate::seqs::contains(&node.parents, p) {
            assert(m.contains_key(s[i as int].0) && m[s[i as int].0].parents.contains(p.deep_view()));
            return true;
        }
        i = i + 1;
    }
    proof {
        if referenced(m, p.deep_view()) {
            let id = choose|id: Id| #[trigger] m.contains_key(id) && m[id].parents.contains(p.deep_view());
            let j = place_of(s, id);
            lemma_entry::<Oid, NodeModel>(s, j);
            assert(!s[j].1.parents.contains(p.deep_view()));
        }
    }
    false
}

/// The ids of `v` that are not `id`.
fn all_but(v: &Vec<Oid>, id: &Oid) -> (r: Vec<Oid>)
    ensures
        r.deep_view() == v.deep_view().filter(other_than(id.deep_view())),
{
    let ghost s = v.deep_view();
    let ghost f = other_than(id.deep_view());
    let mut r: Vec<Oid> = crate::seqs::none();
    let mut i: usize = 0;
    proof {
        lemma_filter_none(s, f);
    }
    while i < v.len()
        invariant
            0 <= i <= v@.len(),
            s == v.deep_view(),
            f == other_than(id.deep_view()),
            r.deep_view() == s.take(i as int).filter(f),
        decreases v@.len() - i,
    {
        proof {
            lemma_filter_step(s, i as int, f);
        }
        if !v[i].same(id) {
            crate::seqs::push(&mut r, v[i]);
        }
        i = i + 1;
    }
    assert(s.take(s.len() as int) =~= s);
    r
}

/// The ids of `v` that are not in `out`.
fn all_outside(v: &Vec<Oid>, out: &Vec<Oid>) -> (r: Vec<Oid>)
    ensures
        r.deep_view() == v.deep_view().filter(|h: Id| !out.deep_view().contains(h)),
{
    let ghost s = v.deep_view();
    let ghost f = |h: Id| !out.deep_view().contains(h);
    let mut r: Vec<Oid> = crate::seqs::none();
    let mut i: usize = 0;
    proof {
        lemma_filter_none(s, f);
    }
    while i < v.len()
        invariant
            0 <= i <= v@.len(),
            s == v.deep_view(),
            f == (|h: Id| !out.deep_view().contains(h)),
            r.deep_view() == s.take(i as int).filter(f),
        decreases v@.len() - i,
    {
        proof {
            lemma_filter_step(s, i as int, f);
        }
        if !crate::seqs::contains(out, &v[i]) {
            crate::seqs::push(&mut r, v[i]);
        }
        i = i + 1;
    }
    assert(s.take(s.len() as int) =~= s);
    r
}

/// A filter keeps the items apart that were apart.
proof fn lemma_filter_distinct<T>(s: Seq<T>, f: spec_fn(T) -> bool)
    requires
        s.no_duplicates(),
    ensures
        s.filter(f).no_duplicates(),
    decreases s.len(),
{
    reveal(Seq::filter);
    if s.len() > 0 {
        let t = s.drop_last();
        assert(t.no_duplicates());
        lemma_filter_distinct(t, f);
        lemma_filter_contains(t, f, s.last());
        let r = t.filter(f);
        if f(s.last()) {
            assert(!t.contains(s.last())) by {
                if t.contains(s.last()) {
                    let k = choose|k: int| 0 <= k < t.len() && t[k] == s.last();
                    assert(s[k] == s[s.len() - 1]);
                }
            }
            assert forall|i: int, j: int|
                0 <= i < s.filter(f).len() && 0 <= j < s.filter(f).len() && i != j implies s.filter(f)[i]
                != s.filter(f)[j] by {
                if i == r.len() {
                    assert(r.contains(r[j]));
                } else if j == r.len() {
                    assert(r.contains(r[i]));
                }
            }
        }
    }
}

proof fn lemma_push_new_ok(changes: Nodes, heads: Seq<Id>, id: Id)
    requires
        heads.no_duplicates(),
        forall|x: Id| #[trigger] heads.contains(x) ==> changes.contains_key(x),
        changes.contains_key(id),
    ensures
        push_new(heads, id).no_duplicates(),
        forall|x: Id| #[trigger] push_new(heads, id).contains(x) <==> heads.contains(x) || x == id,
{
    let h = push_new(heads, id);
    assert forall|x: Id| #[trigger] h.contains(x) <==> heads.contains(x) || x == id by {
        if heads.contains(x) {
            let k = choose|k: int| 0 <= k < heads.len() && heads[k] == x;
            assert(h[k] == x);
        }
        if x == id && !heads.contains(id) {
            assert(h[heads.len() as int] == x);
        }
        if h.contains(x) {
            let k = choose|k: int| 0 <= k < h.len() && h[k] == x;
            if k < heads.len() {
                assert(heads[k] == x);
            }
        }
    }
    if !heads.contains(id) {
        assert forall|i: int, j: int| 0 <= i < h.len() && 0 <= j < h.len() && i != j implies h[i] != h[j] by {
            if i < heads.len() {
                assert(heads.contains(heads[i]));
            }
            if j < heads.len() {
                assert(heads.contains(heads[j]));
            }
        }
    }
}

/// Adding a node, in whatever order nodes come, keeps the heads those nodes that are
/// nobody's parent, and leaves every other node as it was.
pub proof fn law_insert_keeps_graph(g: GraphModel, n: NodeModel)
    requires
        graph_ok(g),
    ensures
        graph_ok(with_node(g, n)),
        heads_unparented(with_node(g, n)),
        heads_cover(g) ==> heads_cover(with_node(g, n)),
        with_node(with_node(g, n), n) == with_node(g, n),
        with_node(g, n).changes.contains_key(n.id),
        !g.changes.contains_key(n.id) ==> (with_node(g, n).heads.contains(n.id) <==> !referenced(
            with_node(g, n).changes,
            n.id,
        )),
        forall|id: Id| #[trigger] g.changes.contains_key(id) ==> with_node(g, n).changes.contains_key(id)
            && with_node(g, n).changes[id] == g.changes[id],
{
    if !g.changes.contains_key(n.id) {
        let f = |h: Id| !n.parents.contains(h);
        let kept = g.heads.filter(f);
        let r = with_node(g, n);
        lemma_filter_distinct(g.heads, f);
        assert forall|x: Id| #[trigger] kept.contains(x) <==> g.heads.contains(x) && f(x) by {
            lemma_filter_contains(g.heads, f, x);
        }
        lemma_push_new_ok(r.changes, kept, n.id);
        assert forall|x: Id| #[trigger] r.heads.contains(x) implies !referenced(r.changes, x) by {
            if x != n.id && referenced(r.changes, x) {
                let c = choose|c: Id| #[trigger] r.changes.contains_key(c) && r.changes[c].parents.contains(x);
                assert(kept.contains(x));
                if c != n.id {
                    assert(g.changes.contains_key(c) && g.changes[c].parents.contains(x));
                }
            }
        }
        if heads_cover(g) {
            assert forall|id: Id| #[trigger]
                r.changes.contains_key(id) && !referenced(r.changes, id) implies r.heads.contains(id) by {
                if id != n.id {
                    assert(r.changes.contains_key(n.id));
                    assert(!n.parents.contains(id));
                    if referenced(g.changes, id) {
                        let c = choose|c: Id| #[trigger]
                            g.changes.contains_key(c) && g.changes[c].parents.contains(id);
                        assert(r.changes.contains_key(c) && r.changes[c].parents.contains(id));
                    }
                    assert(g.heads.contains(id));
                }
            }
        }
    }
}

proof fn lemma_restored_ok(changes: Nodes, heads: Seq<Id>, parents: Seq<Id>)
    requires
        heads.no_duplicates(),
        forall|x: Id| #[trigger] heads.contains(x) ==> changes.contains_key(x),
    ensures
        restored(changes, heads, parents).no_duplicates(),
        forall|x: Id| #[trigger] restored(changes, heads, parents).contains(x) ==> changes.contains_key(x),
        forall|x: Id| #[trigger]
            restored(changes, heads, parents).contains(x) <==> heads.contains(x) || (parents.contains(x)
                && !referenced(changes, x) && changes.contains_key(x)),
    decreases parents.len(),
{
    if parents.len() > 0 {
        let front = parents.drop_last();
        let p = parents.last();
        lemma_restored_ok(changes, heads, front);
        let h = restored(changes, heads, front);
        if !referenced(changes, p) && changes.contains_key(p) {
            lemma_push_new_ok(changes, h, p);
        }
        assert forall|x: Id| #[trigger] parents.contains(x) <==> front.contains(x) || x == p by {
            if parents.contains(x) {
                let k = choose|k: int| 0 <= k < parents.len() && parents[k] == x;
                if k < front.len() {
                    assert(front[k] == x);
                }
            }
            if front.contains(x) {
                let k = choose|k: int| 0 <= k < front.len() && front[k] == x;
                assert(parents[k] == x);
            }
            if x == p {
                assert(parents[parents.len() - 1] == x);
            }
        }
    }
}

/// Taking a head out keeps the heads those nodes that are nobody's parent; every other
/// node stays as it was.
pub proof fn law_remove_head_keeps_graph(g: GraphModel, id: Id)
    requires
        graph_ok(g),
    ensures
        graph_ok(without_head(g, id)),
        heads_unparented(without_head(g, id)),
        heads_cover(g) ==> heads_cover(without_head(g, id)),
        forall|x: Id| x != id && #[trigger] g.changes.contains_key(x) ==> without_head(g, id).changes.contains_key(x)
            && without_head(g, id).changes[x] == g.changes[x],
        g.heads.contains(id) ==> !without_head(g, id).changes.contains_key(id),
{
    if g.heads.contains(id) && g.changes.contains_key(id) {
        let f = other_than(id);
        let kept = g.heads.filter(f);
        let r = without_head(g, id);
        lemma_filter_distinct(g.heads, f);
        assert forall|x: Id| #[trigger] kept.contains(x) <==> g.heads.contains(x) && f(x) by {
            lemma_filter_contains(g.heads, f, x);
        }
        lemma_restored_ok(r.changes, kept, g.changes[id].parents);
        assert forall|x: Id| #[trigger] r.heads.contains(x) implies !referenced(r.changes, x) by {
            if kept.contains(x) && referenced(r.changes, x) {
                let c = choose|c: Id| #[trigger] r.changes.contains_key(c) && r.changes[c].parents.contains(x);
                assert(g.changes.contains_key(c) && g.changes[c].parents.contains(x));
            }
        }
        if heads_cover(g) {
            assert forall|x: Id| #[trigger]
                r.changes.contains_key(x) && !referenced(r.changes, x) implies r.heads.contains(x) by {
                if referenced(g.changes, x) {
                    let c = choose|c: Id| #[trigger]
                        g.changes.contains_key(c) && g.changes[c].parents.contains(x);
                    if c != id {
                        assert(r.changes.contains_key(c) && r.changes[c].parents.contains(x));
                    }
                }
            }
        }
    }
}

/// Retiring a head makes it one no longer, though it is nobody's parent. Every node
/// stays, and so do the other heads.
pub proof fn law_retire_keeps_graph(g: GraphModel, id: Id)
    requires
        graph_ok(g),
    ensures
        graph_ok(retired(g, id)),
        !retired(g, id).heads.contains(id),
        forall|x: Id| x != id ==> (#[trigger] retired(g, id).heads.contains(x) <==> g.heads.contains(x)),
{
    let f = other_than(id);
    lemma_filter_distinct(g.heads, f);
    assert forall|x: Id| #[trigger] retired(g, id).heads.contains(x) <==> g.heads.contains(x) && f(x) by {
        lemma_filter_contains(g.heads, f, x);
    }
}

proof fn lemma_signed_keeps(g: GraphModel, id: Id, signature: Seq<u8>)
    requires
        graph_ok(g),
    ensures
        graph_ok(signed(g, id, signature)),
{
    let r = signed(g, id, signature);
    assert forall|x: Id| #[trigger] r.heads.contains(x) implies !referenced(r.changes, x) by {
        if referenced(r.changes, x) {
            let c = choose|c: Id| #[trigger] r.changes.contains_key(c) && r.changes[c].parents.contains(x);
            assert(g.changes.contains_key(c) && g.changes[c].parents.contains(x));
        }
    }
}

// ---------------------------------------------------------------------------
// The graph
// ---------------------------------------------------------------------------

/// The graph of changes.
#[derive(Debug)]
pub struct ChangeGraph {
    changes: SortedMap<Oid, ChangeNode>,
    heads: Vec<Oid>,
}

impl DeepView for ChangeGraph {
    type V = GraphModel;

    closed spec fn deep_view(&self) -> GraphModel {
        GraphModel { changes: self.changes.deep_view(), heads: self.heads.deep_view() }
    }
}

impl ChangeGraph {
    #[verifier::type_invariant]
    spec fn well_formed(self) -> bool {
        graph_ok(GraphModel { changes: self.changes.deep_view(), heads: self.heads.deep_view() })
    }

    pub fn new() -> (r: Self)
        ensures
            r.deep_view() == empty_graph(),
    {
        let changes: SortedMap<Oid, ChangeNode> = SortedMap::new();
        let heads: Vec<Oid> = crate::seqs::none();
        ChangeGraph { changes, heads }
    }

    /// A graph with the same nodes and heads.
    pub fn copy(&self) -> (r: Self)
        ensures
            r.deep_view() == self.deep_view(),
    {
        proof {
            use_type_invariant(self);
        }
        ChangeGraph { changes: self.changes.dup(), heads: self.heads.dup() }
    }

    /// Adds a node and keeps the heads right. A node that is there already
    /// changes nothing.
    pub fn insert(&mut self, node: ChangeNode)
        ensures
            final(self).deep_view() == with_node(old(self).deep_view(), node.deep_view()),
    {
        proof {
            use_type_invariant(&*self);
            law_insert_keeps_graph(self.deep_view(), node.deep_view());
        }
        let ghost g = self.deep_view();
        let ghost n = node.deep_view();
        let id = node.id;
        if self.changes.contains_key(&id) {
            return;
        }
        let mut taken = ChangeGraph::new();
        std::mem::swap(self, &mut taken);
        let ChangeGraph { mut changes, heads } = taken;
        let mut heads = all_outside(&heads, &node.parents);
        let known = crate::seqs::contains(&heads, &id);
        changes.insert(id, node);
        if !known && !is_referenced(&changes, &id) {
            crate::seqs::push(&mut heads, id);
        }
        proof {
            assert(heads.deep_view() == with_node(g, n).heads);
            assert(changes.deep_view() == with_node(g, n).changes);
        }
        *self = ChangeGraph { changes, heads };
    }

    /// The heads.
    pub fn heads(&self) -> (r: Vec<Oid>)
        ensures
            r.deep_view() == self.deep_view().heads,
            graph_ok(self.deep_view()),
    {
        proof {
            use_type_invariant(&*self);
        }
        self.heads.dup()
    }

    /// Takes a head out of the graph; parents that nothing refers to any more
    /// become heads. What is unknown or no head stays.
    pub fn remove_head(&mut self, id: &Oid)
        ensures
            final(self).deep_view() == without_head(old(self).deep_view(), id.deep_view()),
    {
        proof {
            use_type_invariant(&*self);
            law_remove_head_keeps_graph(self.deep_view(), id.deep_view());
        }
        let ghost g = self.deep_view();
        if !crate::seqs::contains(&self.heads, id) {
            return;
        }
        let parents = match self.changes.get(id) {
            Some(n) => n.parents.dup(),
            None => {
                return;
            },
        };
        let ghost ps = parents.deep_view();
        let mut taken = ChangeGraph::new();
        std::mem::swap(self, &mut taken);
        let ChangeGraph { mut changes, heads } = taken;
        changes.remove(id);
        let mut heads = all_but(&heads, id);
        let ghost kept = heads.deep_view();
        let mut i: usize = 0;
        assert(ps.take(0) =~= Seq::<Id>::empty());
        while i < parents.len()
            invariant
                0 <= i <= parents@.len(),
                ps == parents.deep_view(),
                heads.deep_view() == restored(changes.deep_view(), kept, ps.take(i as int)),
            decreases parents@.len() - i,
        {
            let p = parents[i];
            proof {
                assert(ps.take(i as int + 1).drop_last() =~= ps.take(i as int));
                assert(ps.take(i as int + 1).last() == p.deep_view());
            }
            if !is_referenced(&changes, &p) && changes.contains_key(&p) && !crate::seqs::contains(
                &heads,
                &p,
            ) {
                crate::seqs::push(&mut heads, p);
            }
            i = i + 1;
        }
        proof {
            assert(ps.take(ps.len() as int) =~= ps);
            assert(heads.deep_view() == without_head(g, id.deep_view()).heads);
        }
        *self = ChangeGraph { changes, heads };
    }

    /// Makes `id` a head no longer. Its node stays.
    pub fn retire_head(&mut self, id: &Oid)
        ensures
            final(self).deep_view() == retired(old(self).deep_view(), id.deep_view()),
    {
        proof {
            use_type_invariant(&*self);
            law_retire_keeps_graph(self.deep_view(), id.deep_view());
        }
        let mut taken = ChangeGraph::new();
        std::mem::swap(self, &mut taken);
        let ChangeGraph { changes, heads } = taken;
        let heads = all_but(&heads, id);
        *self = ChangeGraph { changes, heads };
    }

    /// The node with this id.
    pub fn get(&self, id: &Oid) -> (r: Option<&ChangeNode>)
        ensures
            match r {
                Some(n) => self.deep_view().changes.contains_key(id.deep_view())
                    && self.deep_view().changes[id.deep_view()] == n.deep_view() && n.deep_view().id
                    == id.deep_view(),
                None => !self.deep_view().changes.contains_key(id.deep_view()),
            },
    {
        proof {
            use_type_invariant(&*self);
        }
        self.changes.get(id)
    }

    /// The nodes by id.
    pub fn nodes(&self) -> (r: &SortedMap<Oid, ChangeNode>)
        ensures
            r.deep_view() == self.deep_view().changes,
    {
        &self.changes
    }

    /// The graph of just what `heads` reach in `pool`.
    pub fn reachable_from(pool: &SortedMap<Oid, ChangeNode>, heads: &Vec<Oid>) -> (r: Self)
        ensures
            r.deep_view() == with_nodes(empty_graph(), lineage(pool.deep_view(), heads.deep_view())),
    {
        let ids = walk_order(pool, heads);
        let ghost m = pool.deep_view();
        let ghost order = ids.deep_view();
        let ghost all = lineage(m, heads.deep_view());
        proof {
            pool.edges_finite();
            lemma_walk_known(pool.edges(), heads.deep_view());
        }
        let mut g = ChangeGraph::new();
        let mut i: usize = 0;
        assert(all.take(0) =~= Seq::<NodeModel>::empty());
        while i < ids.len()
            invariant
                0 <= i <= ids@.len(),
                m == pool.deep_view(),
                order == ids.deep_view(),
                all == nodes_at(m, order),
                forall|x: Id| #[trigger] order.contains(x) ==> m.contains_key(x),
                g.deep_view() == with_nodes(empty_graph(), all.take(i as int)),
            decreases ids@.len() - i,
        {
            assert(order[i as int] == ids@[i as int].deep_view());
            assert(order.contains(order[i as int]));
            if let Some(n) = pool.get(&ids[i]) {
                g.insert(n.dup());
                proof {
                    assert(all.take(i as int + 1).drop_last() =~= all.take(i as int));
                    assert(all.take(i as int + 1).last() == n.deep_view());
                }
            }
            i = i + 1;
        }
        assert(all.take(all.len() as int) =~= all);
        g
    }

    /// The ids in `pool` that no node in it names as a parent.
    pub fn derive_all_heads(pool: &SortedMap<Oid, ChangeNode>) -> (r: Vec<Oid>)
        ensures
            r.deep_view() == tips(pool.deep_view()),
    {
        let ids = pool.keys();
        let ghost s = ids.deep_view();
        let ghost f = |id: Id| !referenced(pool.deep_view(), id);
        let mut r: Vec<Oid> = crate::seqs::none();
        let mut i: usize = 0;
        proof {
            lemma_filter_none(s, f);
        }
        while i < ids.len()
            invariant
                0 <= i <= ids@.len(),
                s == ids.deep_view(),
                f == (|id: Id| !referenced(pool.deep_view(), id)),
                r.deep_view() == s.take(i as int).filter(f),
            decreases ids@.len() - i,
        {
            proof {
                lemma_filter_step(s, i as int, f);
            }
            if !is_referenced(pool, &ids[i]) {
                crate::seqs::push(&mut r, ids[i]);
            }
            i = i + 1;
        }
        assert(s.take(s.len() as int) =~= s);
        r
    }

    /// Puts a signature on a node. `None` if the id is unknown.
    pub fn set_signature(&mut self, id: &Oid, signature: [u8; 64]) -> (r: Option<()>)
        ensures
            final(self).deep_view() == signed(old(self).deep_view(), id.deep_view(), signature@),
            r is Some <==> old(self).deep_view().changes.contains_key(id.deep_view()),
    {
        proof {
            use_type_invariant(&*self);
        }
        let ghost g = self.deep_view();
        let mut node = match self.changes.get(id) {
            Some(n) => n.dup(),
            None => {
                return None;
            },
        };
        let ghost was = node.deep_view();
        node.signature = Some(signature);
        proof {
            assert(signature.deep_view() =~= signature@);
            assert(node.deep_view() == (NodeModel { signature: Some(signature@), ..was }));
        }
        let mut taken = ChangeGraph::new();
        std::mem::swap(self, &mut taken);
        let ChangeGraph { mut changes, heads } = taken;
        changes.insert(*id, node);
        assert(GraphModel { changes: changes.deep_view(), heads: heads.deep_view() } == signed(
            g,
            id.deep_view(),
            signature@,
        ));
        proof {
            lemma_signed_keeps(g, id.deep_view(), signature@);
        }
        *self = ChangeGraph { changes, heads };
        Some(())
    }

    /// The ids of all nodes, parents before children.
    pub fn order(&self) -> (r: Vec<Oid>)
        ensures
            r.deep_view() == walk(
                edges_of(self.deep_view().changes),
                ids_in_order(self.deep_view().changes),
            ),
            forall|x: Id| #[trigger] r.deep_view().contains(x) ==> self.deep_view().changes.contains_key(x),
    {
        let keys = self.changes.keys();
        proof {
            self.changes.edges_finite();
            lemma_walk_known(self.changes.edges(), keys.deep_view());
        }
        walk_order(&self.changes, &keys)
    }

    /// The nodes with these ids.
    fn nodes_of(&self, ids: &Vec<Oid>) -> (r: Vec<&ChangeNode>)
        requires
            forall|x: Id| #[trigger] ids.deep_view().contains(x) ==> self.deep_view().changes.contains_key(x),
        ensures
            r.deep_view() == nodes_at(self.deep_view().changes, ids.deep_view()),
    {
        let ghost m = self.deep_view().changes;
        let ghost s = ids.deep_view();
        let mut r: Vec<&ChangeNode> = Vec::new();
        let mut i: usize = 0;
        while i < ids.len()
            invariant
                0 <= i <= ids@.len(),
                s == ids.deep_view(),
                m == self.deep_view().changes,
                forall|x: Id| #[trigger] s.contains(x) ==> m.contains_key(x),
                r@.len() == i,
                forall|j: int| 0 <= j < i ==> (#[trigger] r@[j]).deep_view() == m[s[j]],
            decreases ids@.len() - i,
        {
            assert(s[i as int] == ids@[i as int].deep_view());
            assert(s.contains(s[i as int]));
            if let Some(n) = self.changes.get(&ids[i]) {
                r.push(n);
            }
            i = i + 1;
        }
        assert(r.deep_view() =~= nodes_at(m, s));
        r
    }

    /// All nodes, parents before children.
    pub fn in_order(&self) -> (r: Vec<&ChangeNode>)
        ensures
            r.deep_view() == ordered(self.deep_view().changes),
    {
        let ids = self.order();
        self.nodes_of(&ids)
    }

    /// A head and its ancestors, ancestors first. Empty if the head is unknown.
    fn ancestry_in_order(&self, head: &Oid) -> (r: Vec<&ChangeNode>)
        ensures
            r.deep_view() == lineage(self.deep_view().changes, seq![head.deep_view()]),
    {
        let starts = crate::seqs::single(*head);
        proof {
            self.changes.edges_finite();
            lemma_walk_known(self.changes.edges(), starts.deep_view());
        }
        let ids = walk_order(&self.changes, &starts);
        self.nodes_of(&ids)
    }

    /// The latest entry of each path: a child's entry wins over its parent's.
    pub fn current_tree(&self) -> (r: Tree)
        ensures
            r.deep_view() == tree_of(self.deep_view().changes),
    {
        let nodes = self.in_order();
        lay_over(&nodes)
    }

    /// The latest entry of each path along one head's ancestry. An unknown head
    /// has an empty tree.
    pub fn tree_at(&self, head: &Oid) -> (r: Tree)
        ensures
            r.deep_view() == line_tree(self.deep_view().changes, head.deep_view()),
    {
        let nodes = self.ancestry_in_order(head);
        lay_over(&nodes)
    }

    /// Everything that a change reaches, itself among it.
    pub fn ancestors_of(&self, id: &Oid) -> (r: crate::sorted::SortedSet<Oid>)
        ensures
            r.deep_view() == closure_of(edges_of(self.deep_view().changes), seq![id.deep_view()]),
    {
        let starts = crate::seqs::single(*id);
        closure(&self.changes, &starts)
    }

    /// The tree of the nearest common ancestor of `a` and `b`: the first one that a
    /// breadth-first walk from `b` comes to. `None` if they share no history.
    pub fn common_ancestor_tree(&self, a: &Oid, b: &Oid) -> (r: Option<Tree>)
        ensures
            r.deep_view() == base_tree(self.deep_view().changes, a.deep_view(), b.deep_view()),
    {
        let wanted = self.ancestors_of(a);
        proof {
            self.changes.edges_finite();
            crate::ancestry::law_nearest_common(self.changes.edges(), a.deep_view(), b.deep_view());
        }
        match first_in(&self.changes, &wanted, b) {
            Some(id) => match self.changes.get(&id) {
                Some(n) => Some(n.tree.dup()),
                None => None,
            },
            None => None,
        }
    }
}

/// What a walk leaves is known.
pub proof fn lemma_walk_known(e: Edges, todo: Seq<Id>)
    requires
        e.dom().finite(),
    ensures
        forall|x: Id| #[trigger] walk(e, todo).contains(x) ==> e.contains_key(x),
{
    crate::ancestry::lemma_dfs_members(e, todo, Set::empty(), e.dom().len());
}

/// The trees of the nodes laid over one another.
fn lay_over(nodes: &Vec<&ChangeNode>) -> (r: Tree)
    ensures
        r.deep_view() == overlay(nodes.deep_view()),
{
    let ghost all = nodes.deep_view();
    let mut tree: Tree = PathMap::new();
    let mut i: usize = 0;
    assert(all.take(0) =~= Seq::<NodeModel>::empty());
    while i < nodes.len()
        invariant
            0 <= i <= nodes@.len(),
            all == nodes.deep_view(),
            tree.deep_view() == overlay(all.take(i as int)),
        decreases nodes@.len() - i,
    {
        tree.put_all(&nodes[i].tree);
        proof {
            assert(all.take(i as int + 1).drop_last() =~= all.take(i as int));
            assert(all.take(i as int + 1).last() == nodes@[i as int].deep_view());
        }
        i = i + 1;
    }
    assert(all.take(all.len() as int) =~= all);
    tree
}

impl Default for ChangeGraph {
    fn default() -> (r: Self)
        ensures
            r.deep_view() == empty_graph(),
    {
        ChangeGraph::new()
    }
}

/// Where the whole graph is acyclic, its order leaves parents before children, and
/// holds every node once.
pub proof fn law_order_is_topological(g: SortedMap<Oid, ChangeNode>)
    requires
        acyclic(edges_of(g.deep_view())),
    ensures
        ({
            let order = walk(edges_of(g.deep_view()), ids_in_order(g.deep_view()));
            &&& order.no_duplicates()
            &&& forall|x: Id| #[trigger] order.contains(x) ==> g.deep_view().contains_key(x)
            &&& crate::ancestry::parents_first(edges_of(g.deep_view()), order, Set::empty())
        }),
{
    g.edges_finite();
    crate::ancestry::law_walk_is_topological(edges_of(g.deep_view()), ids_in_order(g.deep_view()));
}

} // verus!
