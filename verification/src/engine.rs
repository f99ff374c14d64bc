//! The engine: sealed objects, history and key custody behind one repository.
//!
//! Each object is sealed on its own, and who may read it is who holds its key. The
//! repository stores ciphertext, keeps history, files keys where they belong and
//! takes in what others send.

pub mod change_graph;
pub mod custody;
pub mod custody_laws;
pub mod graph_laws;
pub mod incoming_laws;
pub mod laws;
pub mod merge;
pub mod merge_laws;
pub mod negotiation;
pub mod object_store;
pub mod persist_codec;
pub mod reading_laws;
pub mod relay_laws;
pub mod repo_files;
pub mod snapshot_laws;
pub mod sync_laws;
pub mod tree_laws;

use crate::ancestry::{closure_of, Id};
use crate::attestation::{AttestationLog, LogModel};
use crate::burn::{BurnLog, Burns};
use crate::converge::{KeyOracle, Opens};
use crate::crypto::{ed25519_accepts, ed25519_verify};
use crate::escrow::EscrowModel;
use crate::manifest::{lapsed, ManifestModel};
use crate::sealed::{
    address_of, bytes_result, granted_to, is_granted_to, is_sealing, open, open_with_key, opened,
    opened_with_key, seal, ContentKey, SealedModel, SealedObject,
};
use crate::path::normal_path;
use crate::path_map::{put_at, PathKey, PathMap, Paths, Placed};
use crate::seqs::{lemma_filter_none, lemma_filter_step};
use crate::sorted::{
    among, lemma_among, lemma_entry, map_of, members_of, pairs_of, rising, SortedMap, SortedSet,
};
use crate::text::{push_text, same_text};
use crate::types::{
    zero_oid, Change, ErrorModel, Oid, RepoError, RepoPath, Tree, TreeModel, Visibility,
    VisibilityModel,
};
use crate::value::Value;
use change_graph::{
    change_digest, compute_change_id, edges_of, empty_graph, mint_change_id, ordered, signed,
    signing_message, tree_of, with_node, without_head, ChangeGraph, ChangeNode, GraphModel,
    NodeModel,
};
use custody::Custody;
use object_store::{ObjectStore, Objects};
use vstd::prelude::*;

verus! {

/// A repository.
#[derive(Debug)]
pub struct DagRepo {
    /// The directory that files are written to.
    pub root: String,
    pub identity: String,
    /// The public key that changes are authored with.
    pub author: Option<[u8; 32]>,
    pub custody: Custody,
    pub objects: ObjectStore,
    pub graph: ChangeGraph,
    /// Paths that two lines changed differently, with our and their address.
    pub conflicts: PathMap<(Oid, Oid)>,
    pub attestations: AttestationLog,
    pub burn_log: BurnLog,
}

/// Paths with our and their address.
pub type Conflicts = Paths<(Id, Id)>;

/// The model of a [`DagRepo`].
pub struct RepoModel {
    pub root: Seq<char>,
    pub identity: Seq<char>,
    pub author: Option<Seq<u8>>,
    pub keys: Map<Id, Seq<u8>>,
    pub escrow: Map<Id, EscrowModel>,
    pub manifest: ManifestModel,
    pub purges: Seq<(Id, Seq<char>)>,
    pub objects: Objects,
    pub graph: GraphModel,
    pub conflicts: Conflicts,
    pub attestations: LogModel,
    pub burns: Burns,
}

impl DeepView for DagRepo {
    type V = RepoModel;

    open spec fn deep_view(&self) -> RepoModel {
        RepoModel {
            root: self.root@,
            identity: self.identity@,
            author: self.author.deep_view(),
            keys: self.custody.keyring.deep_view(),
            escrow: self.custody.escrow.deep_view(),
            manifest: self.custody.manifest.deep_view(),
            purges: self.custody.purges.deep_view(),
            objects: self.objects.deep_view(),
            graph: self.graph.deep_view(),
            conflicts: self.conflicts.deep_view(),
            attestations: self.attestations.deep_view(),
            burns: self.burn_log.deep_view(),
        }
    }
}

/// A repository that holds nothing.
pub open spec fn new_repo(root: Seq<char>, identity: Seq<char>) -> RepoModel {
    RepoModel {
        root,
        identity,
        author: None,
        keys: Map::empty(),
        escrow: Map::empty(),
        manifest: Map::empty(),
        purges: Seq::empty(),
        objects: Map::empty(),
        graph: empty_graph(),
        conflicts: Map::empty(),
        attestations: Map::empty(),
        burns: Map::empty(),
    }
}

// ---------------------------------------------------------------------------
// Content
// ---------------------------------------------------------------------------

/// The repository after an object has come in. What is burned stays out; what is
/// here stays as it is. A key that comes with a new object is filed if this
/// identity is granted the object: in escrow if it is embargoed, else on the
/// keyring.
pub open spec fn stored(m: RepoModel, addr: Id, obj: SealedModel, key: Option<Seq<u8>>) -> RepoModel {
    if m.burns.contains_key(addr) || m.objects.contains_key(addr) {
        m
    } else {
        let m1 = RepoModel { objects: m.objects.insert(addr, obj), ..m };
        match key {
            Some(k) => if !granted_to(obj.grant_ids, m.identity) {
                m1
            } else {
                match obj.vis {
                    VisibilityModel::Embargoed { reveal_at } => if m.escrow.contains_key(addr) {
                        m1
                    } else {
                        RepoModel { escrow: m.escrow.insert(addr, EscrowModel { key: k, reveal_at }), ..m1 }
                    },
                    _ => if m.keys.contains_key(addr) {
                        m1
                    } else {
                        RepoModel { keys: m.keys.insert(addr, k), ..m1 }
                    },
                }
            },
            None => m1,
        }
    }
}

/// The repository after several objects have come in, each with its key if one
/// came along.
pub open spec fn stored_objects(m: RepoModel, objs: Seq<(Id, SealedModel)>, keys: Map<Id, Seq<u8>>) -> RepoModel
    decreases objs.len(),
{
    if objs.len() == 0 {
        m
    } else {
        let (addr, obj) = objs.last();
        stored(
            stored_objects(m, objs.drop_last(), keys),
            addr,
            obj,
            if keys.contains_key(addr) {
                Some(keys[addr])
            } else {
                None
            },
        )
    }
}

/// This identity is on record as having been granted the object, and the grant
/// stands.
pub open spec fn has_grant(m: RepoModel, oid: Id, now: u64) -> bool {
    m.manifest.contains_key((oid, m.identity)) && !lapsed(m.manifest[(oid, m.identity)], now)
}

/// What a reader gets of the object at an address. Content is open to those it was
/// sealed for. The repository's own identity reads besides what it was granted later,
/// while the grant stands; what others were granted they read where they are.
pub open spec fn got(m: RepoModel, oid: Id, reader: Seq<char>, now: u64) -> Result<Seq<u8>, ErrorModel> {
    if !m.objects.contains_key(oid) {
        Err(ErrorModel::NotFound(oid))
    } else if reader == m.identity && has_grant(m, oid, now) {
        opened_with_key(m.objects[oid], oid, m.keys, now)
    } else {
        opened(m.objects[oid], oid, reader, m.keys, now)
    }
}

/// What the repository's own identity reads at an address.
pub open spec fn own_read(m: RepoModel, now: u64) -> Opens {
    |oid: Id|
        match got(m, oid, m.identity, now) {
            Ok(b) => Some(b),
            Err(_) => None,
        }
}

/// Content that has been sealed: its address, the object, its key.
pub struct Sealing {
    pub addr: Id,
    pub obj: SealedModel,
    pub key: Seq<u8>,
}

/// The content as a call of [`seal`] returns it.
pub type Sealed = (Oid, SealedObject, ContentKey);

pub open spec fn sealing(s: Sealed) -> Sealing {
    Sealing { addr: s.0.deep_view(), obj: s.1.deep_view(), key: s.2@ }
}

pub open spec fn sealings(v: Seq<Sealed>) -> Seq<Sealing> {
    v.map_values(|s: Sealed| sealing(s))
}

/// `s` is `bytes`, sealed for `vis`.
pub open spec fn seals(bytes: Seq<u8>, vis: VisibilityModel, s: Sealing) -> bool {
    is_sealing(bytes, vis, s.obj, s.key) && s.addr == address_of(s.obj)
}

/// The repository after freshly sealed content has been put in.
pub open spec fn with_content(m: RepoModel, s: Sealing) -> RepoModel {
    stored(m, s.addr, s.obj, Some(s.key))
}

// ---------------------------------------------------------------------------
// Changes
// ---------------------------------------------------------------------------

/// What a change is made of before it has an id.
pub struct ChangeModel {
    pub parents: Seq<Id>,
    pub message: Seq<char>,
    pub tree: TreeModel,
}

pub open spec fn change_model(c: Change) -> ChangeModel {
    ChangeModel { parents: c.parents.deep_view(), message: c.message@, tree: c.tree.deep_view() }
}

/// The id that a change gets here.
pub open spec fn id_here(m: RepoModel, c: ChangeModel) -> Id {
    change_digest(m.author, c.message, c.parents, c.tree)
}

/// The node that a change becomes here.
pub open spec fn node_here(m: RepoModel, c: ChangeModel, cid: Option<Seq<u8>>, preds: Seq<Id>) -> NodeModel {
    NodeModel {
        id: id_here(m, c),
        parents: c.parents,
        message: c.message,
        tree: c.tree,
        author: m.author,
        signature: None,
        change_id: cid,
        predecessors: preds,
    }
}

/// The repository with a change recorded.
pub open spec fn recorded(m: RepoModel, c: ChangeModel, cid: Option<Seq<u8>>, preds: Seq<Id>) -> RepoModel {
    RepoModel { graph: with_node(m.graph, node_here(m, c, cid, preds)), ..m }
}

/// A change id that a new change may get: none where changes are not authored.
pub open spec fn fresh_for(m: RepoModel, cid: Option<Seq<u8>>) -> bool {
    if m.author is Some {
        cid matches Some(c) && c.len() == 16
    } else {
        cid is None
    }
}

/// The author's signature is there and holds. A change that nobody authored needs
/// none.
pub open spec fn authorship_holds(n: NodeModel) -> bool {
    match n.author {
        Some(a) => n.signature matches Some(sig) && ed25519_accepts(
            a,
            signing_message(n.id, n.change_id),
            sig,
        ),
        None => true,
    }
}

/// The error of a change whose author's signature is missing or wrong.
pub open spec fn bad_authorship(n: NodeModel) -> ErrorModel {
    ErrorModel::Backend("invalid author signature on change "@ + crate::hex::hex_text(n.id))
}

/// The error of the first of several changes whose authorship does not hold.
pub open spec fn first_bad(ns: Seq<NodeModel>) -> Option<ErrorModel>
    decreases ns.len(),
{
    if ns.len() == 0 {
        None
    } else {
        match first_bad(ns.drop_last()) {
            Some(e) => Some(e),
            None => if authorship_holds(ns.last()) {
                None
            } else {
                Some(bad_authorship(ns.last()))
            },
        }
    }
}

/// Checks the author's signature on a change.
pub fn verify_authored_change(node: &ChangeNode) -> (r: Result<(), RepoError>)
    ensures
        match r {
            Ok(_) => authorship_holds(node.deep_view()),
            Err(e) => !authorship_holds(node.deep_view()) && e.deep_view() == bad_authorship(node.deep_view()),
        },
{
    let ok = match &node.author {
        Some(a) => match &node.signature {
            Some(sig) => {
                let m = change_graph::change_signing_message(&node.id, &node.change_id);
                assert(a.deep_view() =~= a@);
                assert(sig.deep_view() =~= sig@);
                ed25519_verify(a, m.as_slice(), sig)
            },
            None => false,
        },
        None => true,
    };
    if ok {
        Ok(())
    } else {
        let mut text = "invalid author signature on change ".to_owned();
        let id = crate::hex::encode(node.id.0.as_slice());
        push_text(&mut text, id.as_str());
        Err(RepoError::Backend(text))
    }
}

fn verify_all(nodes: &Vec<ChangeNode>) -> (r: Result<(), RepoError>)
    ensures
        match r {
            Ok(_) => first_bad(nodes.deep_view()) is None,
            Err(e) => first_bad(nodes.deep_view()) == Some(e.deep_view()),
        },
{
    let ghost ns = nodes.deep_view();
    let mut i: usize = 0;
    assert(ns.take(0) =~= Seq::<NodeModel>::empty());
    while i < nodes.len()
        invariant
            0 <= i <= nodes@.len(),
            ns == nodes.deep_view(),
            first_bad(ns.take(i as int)) is None,
        decreases nodes@.len() - i,
    {
        proof {
            assert(ns.take(i as int + 1).drop_last() =~= ns.take(i as int));
            assert(ns.take(i as int + 1).last() == nodes@[i as int].deep_view());
        }
        match verify_authored_change(&nodes[i]) {
            Ok(_) => {},
            Err(e) => {
                proof {
                    lemma_first_bad(ns, i as int + 1);
                }
                return Err(e);
            },
        }
        i = i + 1;
    }
    assert(ns.take(ns.len() as int) =~= ns);
    Ok(())
}

proof fn lemma_first_bad(ns: Seq<NodeModel>, i: int)
    requires
        0 <= i <= ns.len(),
        first_bad(ns.take(i)) is Some,
    ensures
        first_bad(ns) == first_bad(ns.take(i)),
    decreases ns.len() - i,
{
    if i < ns.len() {
        assert(ns.take(i + 1).drop_last() =~= ns.take(i));
        lemma_first_bad(ns, i + 1);
    } else {
        assert(ns.take(i) =~= ns);
    }
}

impl KeyOracle for DagRepo {
    open spec fn opens(&self, now: u64) -> Opens {
        own_read(self.deep_view(), now)
    }

    fn open(&self, oid: &Oid, now: u64) -> (r: Option<Vec<u8>>) {
        match self.get(oid, self.identity.as_str(), now) {
            Ok(b) => Some(b),
            Err(_) => None,
        }
    }
}

impl DagRepo {
    /// An empty repository of an identity. Files go under `path`.
    pub fn init(path: String, identity: &str) -> (r: Result<Self, RepoError>)
        ensures
            r matches Ok(repo) && repo.deep_view() == new_repo(path@, identity@),
    {
        let conflicts: PathMap<(Oid, Oid)> = PathMap::new();
        Ok(
            DagRepo {
                root: path,
                identity: identity.to_owned(),
                author: None,
                custody: Custody::new(),
                objects: ObjectStore::new(),
                graph: ChangeGraph::new(),
                conflicts,
                attestations: AttestationLog::new(),
                burn_log: BurnLog::new(),
            },
        )
    }

    /// Authors changes with this public key from now on.
    pub fn set_author(&mut self, key: [u8; 32])
        ensures
            final(self).deep_view() == (RepoModel { author: Some(key@), ..old(self).deep_view() }),
    {
        self.author = Some(key);
        assert(key.deep_view() =~= key@);
    }

    /// Takes a sealed object in and files its key where it belongs.
    pub fn store(&mut self, addr: Oid, obj: SealedObject, key: Option<ContentKey>) -> (r: Oid)
        ensures
            r == addr,
            final(self).deep_view() == stored(
                old(self).deep_view(),
                addr.deep_view(),
                obj.deep_view(),
                key.deep_view(),
            ),
    {
        if self.burn_log.contains(&addr) {
            return addr;
        }
        let entitled = is_granted_to(&obj.grant_ids, self.identity.as_str());
        let reveal_at: Option<u64> = match &obj.vis {
            Visibility::Embargoed { reveal_at } => Some(*reveal_at),
            _ => None,
        };
        let new = self.objects.put(addr, obj);
        if let Some(k) = key {
            assert(k.deep_view() =~= k@);
            if new && entitled {
                match reveal_at {
                    Some(t) => {
                        if !self.custody.escrow.holds(&addr) {
                            self.custody.escrow.insert(addr, k, t);
                        }
                    },
                    None => {
                        if !self.custody.keyring.holds(&addr) {
                            self.custody.keyring.insert(addr, k);
                        }
                    },
                }
            }
        }
        addr
    }

    /// Takes several sealed objects in.
    fn store_all(&mut self, objs: &SortedMap<Oid, SealedObject>, keys: &SortedMap<Oid, ContentKey>)
        ensures
            final(self).deep_view() == stored_objects(
                old(self).deep_view(),
                pairs_of::<Oid, SealedModel>(objs.deep_view()),
                keys.deep_view(),
            ),
    {
        let n: usize = objs.len();
        let ghost s = objs.pairs();
        let ghost m = self.deep_view();
        let mut i: usize = 0;
        assert(s.take(0) =~= Seq::<(Id, SealedModel)>::empty());
        while i < n
            invariant
                0 <= i <= n,
                n == s.len(),
                s == objs.pairs(),
                self.deep_view() == stored_objects(m, s.take(i as int), keys.deep_view()),
            decreases n - i,
        {
            let addr = *objs.key_at(i);
            let key = match keys.get(&addr) {
                Some(k) => Some(*k),
                None => None,
            };
            proof {
                assert(s.take(i as int + 1).drop_last() =~= s.take(i as int));
                assert(s.take(i as int + 1).last() == s[i as int]);
            }
            let _ = self.store(addr, objs.value_at(i).dup(), key);
            i = i + 1;
        }
        assert(s.take(s.len() as int) =~= s);
    }

    /// Puts content that has been sealed into the repository.
    pub fn put_sealed(&mut self, s: Sealed) -> (r: Oid)
        ensures
            r == s.0,
            final(self).deep_view() == with_content(old(self).deep_view(), sealing(s)),
    {
        let (addr, obj, key) = s;
        assert(key.deep_view() =~= key@);
        self.store(addr, obj, Some(key))
    }

    /// Seals content under a fresh key and stores it. What is fresh is up to the
    /// operating system; where it has nothing, nothing changes.
    pub fn put(&mut self, bytes: &[u8], vis: Visibility) -> (r: Result<Oid, RepoError>)
        ensures
            match r {
                Ok(oid) => exists|s: Sealing| #[trigger]
                    seals(bytes@, vis.deep_view(), s) && s.addr == oid.deep_view() && final(self).deep_view()
                        == with_content(old(self).deep_view(), s),
                Err(e) => e is Backend && final(self).deep_view() == old(self).deep_view(),
            },
    {
        let s = seal(bytes, &vis)?;
        assert(seals(bytes@, vis.deep_view(), sealing(s)));
        Ok(self.put_sealed(s))
    }

    /// What `reader` may read at an address now.
    pub fn get(&self, oid: &Oid, reader: &str, now: u64) -> (r: Result<Vec<u8>, RepoError>)
        ensures
            bytes_result(r) == got(self.deep_view(), oid.deep_view(), reader@, now),
    {
        let obj = self.objects.get(oid)?;
        let granted = match self.custody.manifest.grant_for(oid, self.identity.as_str()) {
            Some(g) => !g.is_expired(now),
            None => false,
        };
        if granted && same_text(reader, self.identity.as_str()) {
            return open_with_key(obj, oid, &self.custody.keyring, now);
        }
        open(obj, oid, reader, &self.custody.keyring, now)
    }

    /// Whether this identity cannot read the object at an address now.
    fn is_hidden(&self, oid: &Oid, now: u64) -> (b: bool)
        ensures
            b == (got(self.deep_view(), oid.deep_view(), self.deep_view().identity, now) is Err),
    {
        match self.get(oid, self.identity.as_str(), now) {
            Ok(_) => false,
            Err(_) => true,
        }
    }

    /// A change id for a new change: a fresh one where changes are authored.
    fn fresh_change_id(&self) -> (r: Result<Option<[u8; 16]>, RepoError>)
        ensures
            match r {
                Ok(c) => fresh_for(self.deep_view(), c.deep_view()),
                Err(e) => e is Backend && self.deep_view().author is Some,
            },
    {
        if self.author.is_some() {
            let c = mint_change_id()?;
            assert(c.deep_view().len() == 16);
            Ok(Some(c))
        } else {
            Ok(None)
        }
    }

    /// Records a change with a given change id, in place of given versions of it.
    pub fn record_superseding(&mut self, change: Change, change_id: Option<[u8; 16]>, predecessors: Vec<Oid>) -> (r:
        Result<Oid, RepoError>)
        ensures
            r matches Ok(id) && id.deep_view() == id_here(old(self).deep_view(), change_model(change)),
            final(self).deep_view() == recorded(
                old(self).deep_view(),
                change_model(change),
                change_id.deep_view(),
                predecessors.deep_view(),
            ),
    {
        let id = compute_change_id(self.author.as_ref(), &change);
        let node = ChangeNode {
            id,
            parents: change.parents,
            message: change.message,
            tree: change.tree,
            author: self.author,
            signature: None,
            change_id,
            predecessors,
        };
        assert(node.deep_view() == node_here(
            self.deep_view(),
            change_model(change),
            change_id.deep_view(),
            predecessors.deep_view(),
        ));
        self.graph.insert(node);
        Ok(id)
    }

    /// Records a change with a given change id.
    fn record_as(&mut self, change: Change, change_id: Option<[u8; 16]>) -> (r: Oid)
        ensures
            r.deep_view() == id_here(old(self).deep_view(), change_model(change)),
            final(self).deep_view() == recorded(
                old(self).deep_view(),
                change_model(change),
                change_id.deep_view(),
                Seq::empty(),
            ),
    {
        let preds: Vec<Oid> = crate::seqs::none();
        let ghost m = self.deep_view();
        match self.record_superseding(change, change_id, preds) {
            Ok(id) => id,
            Err(_) => Oid::zero(),
        }
    }

    /// Records a change. Its id follows from its author and content; an authored
    /// one gets a fresh change id besides.
    pub fn record(&mut self, change: Change) -> (r: Result<Oid, RepoError>)
        ensures
            match r {
                Ok(id) => {
                    &&& id.deep_view() == id_here(old(self).deep_view(), change_model(change))
                    &&& exists|cid: Option<Seq<u8>>| #[trigger]
                        fresh_for(old(self).deep_view(), cid) && final(self).deep_view() == recorded(
                            old(self).deep_view(),
                            change_model(change),
                            cid,
                            Seq::empty(),
                        )
                },
                Err(e) => e is Backend && old(self).deep_view().author is Some && final(self).deep_view()
                    == old(self).deep_view(),
            },
    {
        let cid = self.fresh_change_id()?;
        Ok(self.record_as(change, cid))
    }

    /// Puts the author's signature on a recorded change.
    pub fn attach_signature(&mut self, id: &Oid, signature: [u8; 64]) -> (r: Result<(), RepoError>)
        ensures
            final(self).deep_view() == (RepoModel {
                graph: signed(old(self).deep_view().graph, id.deep_view(), signature@),
                ..old(self).deep_view()
            }),
            match r {
                Ok(_) => old(self).deep_view().graph.changes.contains_key(id.deep_view()),
                Err(e) => !old(self).deep_view().graph.changes.contains_key(id.deep_view()) && e
                    == RepoError::NotFound(*id),
            },
    {
        match self.graph.set_signature(id, signature) {
            Some(_) => Ok(()),
            None => Err(RepoError::NotFound(*id)),
        }
    }

    /// The change id of a recorded change.
    pub fn change_change_id(&self, id: &Oid) -> (r: Option<[u8; 16]>)
        ensures
            r.deep_view() == (if self.deep_view().graph.changes.contains_key(id.deep_view()) {
                self.deep_view().graph.changes[id.deep_view()].change_id
            } else {
                None
            }),
    {
        match self.graph.get(id) {
            Some(n) => n.change_id.dup(),
            None => None,
        }
    }

    /// The heads of history.
    pub fn heads(&self) -> (r: Vec<Oid>)
        ensures
            r.deep_view() == self.deep_view().graph.heads,
    {
        self.graph.heads()
    }

    /// The address at a path of the current tree.
    pub fn current_tree_oid(&self, path: &RepoPath) -> (r: Result<Oid, RepoError>)
        ensures
            match r {
                Ok(oid) => tree_of(self.deep_view().graph.changes).contains_key(normal_path(path.deep_view()))
                    && tree_of(self.deep_view().graph.changes)[normal_path(path.deep_view())].v.0 == oid.deep_view(),
                Err(e) => !tree_of(self.deep_view().graph.changes).contains_key(normal_path(path.deep_view()))
                    && e.deep_view() == ErrorModel::NotFound(zero_oid()),
            },
    {
        let tree = self.graph.current_tree();
        match tree.get(path) {
            Some(e) => Ok(e.0),
            None => Err(RepoError::NotFound(Oid::zero())),
        }
    }

    /// The unresolved conflicts.
    pub fn conflicts(&self) -> (r: &PathMap<(Oid, Oid)>)
        ensures
            r.deep_view() == self.deep_view().conflicts,
    {
        &self.conflicts
    }
}

// ---------------------------------------------------------------------------
// Conflicts
// ---------------------------------------------------------------------------

/// The change that settles a conflict.
pub open spec fn resolution(m: RepoModel, path: Seq<char>, vis: VisibilityModel, s: Sealing) -> ChangeModel {
    ChangeModel {
        parents: m.graph.heads,
        message: "resolve conflict at "@ + path,
        tree: put_at(tree_of(m.graph.changes), path, (s.addr, vis)),
    }
}

/// The repository with a conflict settled by sealed content.
pub open spec fn resolved(
    m: RepoModel,
    path: Seq<char>,
    vis: VisibilityModel,
    s: Sealing,
    cid: Option<Seq<u8>>,
) -> RepoModel {
    let m1 = recorded(with_content(m, s), resolution(m, path, vis, s), cid, Seq::empty());
    RepoModel { conflicts: m.conflicts.remove(normal_path(path)), ..m1 }
}

/// The error of settling a conflict that there is not.
pub open spec fn no_conflict(path: Seq<char>) -> ErrorModel {
    ErrorModel::Backend("no conflict recorded at "@ + path)
}

impl DagRepo {
    /// Settles the conflict at `path` with content that has been sealed.
    pub fn resolve_sealed(&mut self, path: &RepoPath, vis: Visibility, s: Sealed, change_id: Option<[u8; 16]>) -> (r:
        Result<Oid, RepoError>)
        ensures
            match r {
                Ok(oid) => {
                    &&& old(self).deep_view().conflicts.contains_key(normal_path(path.deep_view()))
                    &&& oid == s.0
                    &&& final(self).deep_view() == resolved(
                        old(self).deep_view(),
                        path.deep_view(),
                        vis.deep_view(),
                        sealing(s),
                        change_id.deep_view(),
                    )
                },
                Err(e) => {
                    &&& !old(self).deep_view().conflicts.contains_key(normal_path(path.deep_view()))
                    &&& e.deep_view() == no_conflict(path.deep_view())
                    &&& final(self).deep_view() == old(self).deep_view()
                },
            },
    {
        if !self.conflicts.contains_key(path) {
            let mut text = "no conflict recorded at ".to_owned();
            push_text(&mut text, path.as_str());
            return Err(RepoError::Backend(text));
        }
        let ghost m = self.deep_view();
        let new_oid = self.put_sealed(s);
        let mut tree = self.graph.current_tree();
        tree.insert(path.dup(), (new_oid, vis));
        let mut message = "resolve conflict at ".to_owned();
        push_text(&mut message, path.as_str());
        let change = Change { id: Oid::zero(), parents: self.graph.heads(), message, tree };
        assert(change_model(change) == resolution(m, path.deep_view(), vis.deep_view(), sealing(s)));
        let _ = self.record_as(change, change_id);
        self.conflicts.remove(path);
        Ok(new_oid)
    }

    /// Settles the conflict at `path` with `resolution`, sealed for `vis`.
    pub fn resolve(&mut self, path: &RepoPath, resolution: &[u8], vis: Visibility) -> (r: Result<Oid, RepoError>)
        ensures
            match r {
                Ok(oid) => {
                    &&& old(self).deep_view().conflicts.contains_key(normal_path(path.deep_view()))
                    &&& exists|s: Sealing, cid: Option<Seq<u8>>| #[trigger]
                        seals(resolution@, vis.deep_view(), s) && #[trigger] fresh_for(old(self).deep_view(), cid)
                            && s.addr == oid.deep_view() && final(self).deep_view() == resolved(
                            old(self).deep_view(),
                            path.deep_view(),
                            vis.deep_view(),
                            s,
                            cid,
                        )
                },
                Err(e) => {
                    &&& final(self).deep_view() == old(self).deep_view()
                    &&& !old(self).deep_view().conflicts.contains_key(normal_path(path.deep_view())) ==> e.deep_view()
                        == no_conflict(path.deep_view())
                    &&& e is Backend
                },
            },
    {
        if !self.conflicts.contains_key(path) {
            let mut text = "no conflict recorded at ".to_owned();
            push_text(&mut text, path.as_str());
            return Err(RepoError::Backend(text));
        }
        let s = seal(resolution, &vis)?;
        let cid = self.fresh_change_id()?;
        proof {
            assert(seals(resolution@, vis.deep_view(), sealing(s)));
            assert(fresh_for(self.deep_view(), cid.deep_view()));
        }
        self.resolve_sealed(path, vis, s, cid)
    }
}

// ---------------------------------------------------------------------------
// Snapshots
// ---------------------------------------------------------------------------

/// A file of the working directory: path, content, intended visibility.
pub type Entry = (RepoPath, Vec<u8>, Visibility);

/// The model of an [`Entry`].
pub type EntryModel = (Seq<char>, Seq<u8>, VisibilityModel);

/// An entry is for this path.
pub open spec fn entered(es: Seq<EntryModel>, path: Seq<char>) -> bool {
    exists|i: int| 0 <= i < es.len() && normal_path((#[trigger] es[i]).0) == path
}

/// The repository without its working change.
pub open spec fn dropped(m: RepoModel, working: Option<Id>) -> RepoModel {
    match working {
        Some(w) => RepoModel { graph: without_head(m.graph, w), ..m },
        None => m,
    }
}

/// This identity cannot read the object now.
pub open spec fn hidden(m: RepoModel, oid: Id, now: u64) -> bool {
    got(m, oid, m.identity, now) is Err
}

/// The paths that a snapshot would write over without having seen them, in order.
pub open spec fn clobbered(m: RepoModel, es: Seq<EntryModel>, now: u64) -> Seq<
    (Seq<char>, Placed<(Id, VisibilityModel)>),
> {
    pairs_of::<PathKey, Placed<(Id, VisibilityModel)>>(tree_of(m.graph.changes)).filter(
        |p: (Seq<char>, Placed<(Id, VisibilityModel)>)| entered(es, p.0) && hidden(m, p.1.v.0, now),
    )
}

/// The error of a snapshot over sealed content.
pub open spec fn sealed_at(path: Seq<char>) -> ErrorModel {
    ErrorModel::Backend("sealed content exists at "@ + path + "; cannot overwrite content you can't see"@)
}

/// The part of the tree that this identity cannot see, which a snapshot carries
/// forward.
pub open spec fn carried(m: RepoModel, now: u64) -> TreeModel {
    let t = tree_of(m.graph.changes);
    Map::new(|p: Seq<char>| t.contains_key(p) && hidden(m, t[p].v.0, now), |p: Seq<char>| t[p])
}

/// Entry `i` is the last one for its path.
pub open spec fn last_for_path(es: Seq<EntryModel>, i: int) -> bool {
    &&& 0 <= i < es.len()
    &&& forall|j: int| i < j < es.len() ==> normal_path((#[trigger] es[j]).0) != normal_path(es[i].0)
}

/// Entry `i` is the first one for its path.
pub open spec fn first_for_path(es: Seq<EntryModel>, i: int) -> bool {
    &&& 0 <= i < es.len()
    &&& forall|j: int| 0 <= j < i ==> normal_path((#[trigger] es[j]).0) != normal_path(es[i].0)
}

/// A tree has just the paths that a snapshot would have, with what would be carried
/// forward as it is, and for each path that is entered the text that was entered first,
/// and the content and visibility that were entered last. Content that cannot be read
/// counts as other content.
pub open spec fn tree_holds(t: TreeModel, m: RepoModel, es: Seq<EntryModel>, now: u64) -> bool {
    &&& forall|p: Seq<char>| #[trigger]
        t.contains_key(p) <==> entered(es, p) || carried(m, now).contains_key(p)
    &&& forall|p: Seq<char>| #[trigger] t.contains_key(p) && !entered(es, p) ==> t[p] == carried(m, now)[p]
    &&& forall|i: int| #[trigger]
        first_for_path(es, i) ==> t[normal_path(es[i].0)].text == es[i].0
    &&& forall|i: int| #[trigger]
        last_for_path(es, i) ==> t[normal_path(es[i].0)].v.1 == es[i].2 && got(
            m,
            t[normal_path(es[i].0)].v.0,
            m.identity,
            now,
        ) == Ok::<Seq<u8>, ErrorModel>(es[i].1)
}

/// The working change is a head, not signed yet, and holds already what a snapshot
/// would take into it.
pub open spec fn already_taken(
    m: RepoModel,
    working: Option<Id>,
    es: Seq<EntryModel>,
    message: Seq<char>,
    now: u64,
) -> bool {
    match working {
        Some(w) => {
            let n = m.graph.changes[w];
            let base = dropped(m, working);
            &&& m.graph.heads.contains(w)
            &&& m.graph.changes.contains_key(w)
            &&& n.signature is None
            &&& n.author == m.author
            &&& n.message == message
            &&& n.parents == base.graph.heads
            &&& tree_holds(n.tree, base, es, now)
        },
        None => false,
    }
}

/// Each entry has been sealed.
pub open spec fn seals_all(es: Seq<EntryModel>, ss: Seq<Sealing>) -> bool {
    &&& es.len() == ss.len()
    &&& forall|i: int| 0 <= i < es.len() ==> seals(es[i].1, es[i].2, #[trigger] ss[i])
}

/// The repository with several contents put in.
pub open spec fn with_contents(m: RepoModel, ss: Seq<Sealing>) -> RepoModel
    decreases ss.len(),
{
    if ss.len() == 0 {
        m
    } else {
        with_content(with_contents(m, ss.drop_last()), ss.last())
    }
}

/// A tree with the entries under their paths.
pub open spec fn tree_with(t: TreeModel, es: Seq<EntryModel>, ss: Seq<Sealing>) -> TreeModel
    decreases es.len(),
{
    if es.len() == 0 {
        t
    } else {
        put_at(tree_with(t, es.drop_last(), ss.drop_last()), es.last().0, (ss.last().addr, es.last().2))
    }
}

/// The change id that a snapshot keeps: that of the working change it replaces.
pub open spec fn kept_change_id(m: RepoModel, working: Option<Id>) -> Option<Seq<u8>> {
    match working {
        Some(w) => if m.graph.changes.contains_key(w) {
            m.graph.changes[w].change_id
        } else {
            None
        },
        None => None,
    }
}

/// The change that a snapshot records. `m` is the repository without its working
/// change.
pub open spec fn snapshot_change(
    m: RepoModel,
    es: Seq<EntryModel>,
    ss: Seq<Sealing>,
    message: Seq<char>,
    now: u64,
) -> ChangeModel {
    ChangeModel { parents: m.graph.heads, message, tree: tree_with(carried(m, now), es, ss) }
}

/// The repository after a snapshot.
pub open spec fn snapshotted(
    m: RepoModel,
    es: Seq<EntryModel>,
    ss: Seq<Sealing>,
    message: Seq<char>,
    cid: Option<Seq<u8>>,
    now: u64,
) -> RepoModel {
    recorded(with_contents(m, ss), snapshot_change(m, es, ss, message, now), cid, Seq::empty())
}

/// What a snapshot needs fresh: each entry sealed, and a change id unless the
/// working change has one.
pub open spec fn seals_snapshot(
    m: RepoModel,
    es: Seq<EntryModel>,
    kept: Option<Seq<u8>>,
    ss: Seq<Sealing>,
    cid: Option<Seq<u8>>,
) -> bool {
    &&& seals_all(es, ss)
    &&& if kept is Some {
        cid == kept
    } else {
        fresh_for(m, cid)
    }
}

/// Whether an entry is for this path.
fn is_entered(entries: &Vec<Entry>, path: &RepoPath) -> (b: bool)
    ensures
        b == entered(entries.deep_view(), normal_path(path.deep_view())),
{
    let ghost es = entries.deep_view();
    let mut i: usize = 0;
    while i < entries.len()
        invariant
            0 <= i <= entries@.len(),
            es == entries.deep_view(),
            forall|j: int| 0 <= j < i ==> normal_path((#[trigger] es[j]).0) != normal_path(path.deep_view()),
        decreases entries@.len() - i,
    {
        assert(es[i as int] == entries@[i as int].deep_view());
        if entries[i].0 == *path {
            assert(normal_path(es[i as int].0) == normal_path(path.deep_view()));
            return true;
        }
        i = i + 1;
    }
    false
}

pub proof fn lemma_with_contents_keeps(m: RepoModel, ss: Seq<Sealing>)
    ensures
        with_contents(m, ss).graph == m.graph,
        with_contents(m, ss).identity == m.identity,
        with_contents(m, ss).author == m.author,
    decreases ss.len(),
{
    if ss.len() > 0 {
        lemma_with_contents_keeps(m, ss.drop_last());
    }
}

impl DagRepo {
    /// The error that a snapshot over sealed content gets, if it is one.
    fn snapshot_refusal(&self, entries: &Vec<Entry>, now: u64) -> (r: Option<RepoError>)
        ensures
            match r {
                Some(e) => clobbered(self.deep_view(), entries.deep_view(), now).len() > 0 && e.deep_view()
                    == sealed_at(clobbered(self.deep_view(), entries.deep_view(), now)[0].1.text),
                None => clobbered(self.deep_view(), entries.deep_view(), now).len() == 0,
            },
    {
        let ghost m = self.deep_view();
        let ghost es = entries.deep_view();
        let base = self.graph.current_tree();
        let n: usize = base.len();
        let ghost s = base.pairs();
        let ghost f = |p: (Seq<char>, Placed<(Id, VisibilityModel)>)| entered(es, p.0) && hidden(m, p.1.v.0, now);
        let mut i: usize = 0;
        proof {
            lemma_filter_none(s, f);
        }
        while i < n
            invariant
                0 <= i <= n,
                n == s.len(),
                s == base.pairs(),
                m == self.deep_view(),
                es == entries.deep_view(),
                f == (|p: (Seq<char>, Placed<(Id, VisibilityModel)>)| entered(es, p.0) && hidden(m, p.1.v.0, now)),
                s.take(i as int).filter(f).len() == 0,
                s == pairs_of::<PathKey, Placed<(Id, VisibilityModel)>>(tree_of(m.graph.changes)),
            decreases n - i,
        {
            proof {
                lemma_filter_step(s, i as int, f);
            }
            let path = base.path_at(i);
            let entry = base.value_at(i);
            if is_entered(entries, path) && self.is_hidden(&entry.0, now) {
                proof {
                    crate::seqs::lemma_filter_first(s, i as int, f);
                }
                let mut text = "sealed content exists at ".to_owned();
                push_text(&mut text, path.as_str());
                push_text(&mut text, "; cannot overwrite content you can't see");
                return Some(RepoError::Backend(text));
            }
            i = i + 1;
        }
        assert(s.take(s.len() as int) =~= s);
        None
    }

    /// The part of the current tree that this identity cannot see.
    fn carried_tree(&self, now: u64) -> (r: Tree)
        ensures
            r.deep_view() == carried(self.deep_view(), now),
    {
        let ghost m = self.deep_view();
        let base = self.graph.current_tree();
        let ghost t = base.deep_view();
        let n: usize = base.len();
        let ghost s = base.pairs();
        let mut r: Tree = PathMap::new();
        let mut i: usize = 0;
        proof {
            lemma_among::<PathKey, Placed<(Id, VisibilityModel)>>(s, 0);
        }
        while i < n
            invariant
                0 <= i <= n,
                n == s.len(),
                s == base.pairs(),
                t == base.deep_view(),
                t == map_of(s),
                rising::<PathKey, Placed<(Id, VisibilityModel)>>(s),
                m == self.deep_view(),
                forall|p: Seq<char>| #[trigger]
                    r.deep_view().contains_key(p) <==> among(s, i as int, p) && hidden(m, t[p].v.0, now),
                forall|p: Seq<char>| #[trigger] r.deep_view().contains_key(p) ==> r.deep_view()[p] == t[p],
            decreases n - i,
        {
            proof {
                lemma_among::<PathKey, Placed<(Id, VisibilityModel)>>(s, i as int);
                lemma_entry::<PathKey, Placed<(Id, VisibilityModel)>>(s, i as int);
            }
            let entry = base.value_at(i);
            if self.is_hidden(&entry.0, now) {
                r.insert(base.path_at(i).dup(), entry.dup());
            }
            i = i + 1;
        }
        proof {
            lemma_among::<PathKey, Placed<(Id, VisibilityModel)>>(s, n as int);
            assert(r.deep_view() =~= carried(m, now));
        }
        r
    }

    /// Whether a tree has what an entry says: the text, if the entry is the first one for
    /// its path, and the rest, if it is the last.
    fn holds_entry(&self, tree: &Tree, entries: &Vec<Entry>, i: usize, now: u64) -> (b: bool)
        requires
            i < entries@.len(),
        ensures
            b == ({
                let t = tree.deep_view();
                let e = entries.deep_view()[i as int];
                &&& t.contains_key(normal_path(e.0))
                &&& first_for_path(entries.deep_view(), i as int) ==> t[normal_path(e.0)].text == e.0
                &&& last_for_path(entries.deep_view(), i as int) ==> t[normal_path(e.0)].v.1 == e.2 && got(
                    self.deep_view(),
                    t[normal_path(e.0)].v.0,
                    self.deep_view().identity,
                    now,
                ) == Ok::<Seq<u8>, ErrorModel>(e.1)
            }),
    {
        let ghost es = entries.deep_view();
        let ghost t = tree.deep_view();
        let n: usize = entries.len();
        let e = &entries[i];
        assert(es[i as int] == e.deep_view());
        let (held, text) = match (tree.get(&e.0), tree.key_of(&e.0)) {
            (Some(h), Some(p)) => (h, p),
            _ => {
                return false;
            },
        };
        let mut first = true;
        let mut k: usize = 0;
        while k < i
            invariant
                0 <= k <= i < n,
                n == entries@.len(),
                es == entries.deep_view(),
                e.deep_view() == es[i as int],
                first == (forall|j: int| 0 <= j < k ==> normal_path((#[trigger] es[j]).0) != normal_path(es[i as int].0)),
            decreases i - k,
        {
            assert(es[k as int] == entries@[k as int].deep_view());
            if entries[k].0 == e.0 {
                assert(normal_path(es[k as int].0) == normal_path(es[i as int].0));
                first = false;
            }
            k = k + 1;
        }
        assert(first == first_for_path(es, i as int));
        if first && !text.same(&e.0) {
            return false;
        }
        let mut j: usize = i + 1;
        while j < n
            invariant
                i < j <= n,
                n == entries@.len(),
                es == entries.deep_view(),
                e.deep_view() == es[i as int],
                t == tree.deep_view(),
                t.contains_key(normal_path(es[i as int].0)),
                first_for_path(es, i as int) ==> t[normal_path(es[i as int].0)].text == es[i as int].0,
                forall|k: int| i < k < j ==> normal_path((#[trigger] es[k]).0) != normal_path(es[i as int].0),
            decreases n - j,
        {
            assert(es[j as int] == entries@[j as int].deep_view());
            if entries[j].0 == e.0 {
                assert(normal_path(es[j as int].0) == normal_path(es[i as int].0));
                assert(!last_for_path(es, i as int));
                return true;
            }
            j = j + 1;
        }
        assert(last_for_path(es, i as int));
        if !held.1.same(&e.2) {
            return false;
        }
        assert(e.1.deep_view() =~= e.1@);
        match self.get(&held.0, self.identity.as_str(), now) {
            Ok(b) => crate::value::same_bytes(b.as_slice(), e.1.as_slice()),
            Err(_) => false,
        }
    }

    /// Whether a tree has just what a snapshot would have.
    fn tree_held(&self, tree: &Tree, entries: &Vec<Entry>, now: u64) -> (b: bool)
        ensures
            b == tree_holds(tree.deep_view(), self.deep_view(), entries.deep_view(), now),
    {
        let ghost m = self.deep_view();
        let ghost es = entries.deep_view();
        let ghost t = tree.deep_view();
        let ghost c = carried(m, now);
        let mut i: usize = 0;
        while i < entries.len()
            invariant
                0 <= i <= entries@.len(),
                m == self.deep_view(),
                es == entries.deep_view(),
                t == tree.deep_view(),
                forall|k: int| 0 <= k < i ==> t.contains_key(normal_path((#[trigger] es[k]).0)),
                forall|k: int| 0 <= k < i && #[trigger] first_for_path(es, k) ==> t[normal_path(es[k].0)].text == es[k].0,
                forall|k: int|
                    0 <= k < i && #[trigger] last_for_path(es, k) ==> t[normal_path(es[k].0)].v.1 == es[k].2 && got(
                        m,
                        t[normal_path(es[k].0)].v.0,
                        m.identity,
                        now,
                    ) == Ok::<Seq<u8>, ErrorModel>(es[k].1),
            decreases entries@.len() - i,
        {
            if !self.holds_entry(tree, entries, i, now) {
                proof {
                    assert(entered(es, normal_path(es[i as int].0)));
                    assert(t.contains_key(normal_path(es[i as int].0)) ==> last_for_path(es, i as int)
                        || first_for_path(es, i as int));
                }
                return false;
            }
            i = i + 1;
        }
        let kept = self.carried_tree(now);
        let nc: usize = kept.len();
        let ghost cs = kept.pairs();
        let mut j: usize = 0;
        proof {
            lemma_among::<PathKey, Placed<(Id, VisibilityModel)>>(cs, 0);
        }
        while j < nc
            invariant
                0 <= j <= nc,
                nc == cs.len(),
                m == self.deep_view(),
                es == entries.deep_view(),
                cs == kept.pairs(),
                c == kept.deep_view(),
                c == map_of(cs),
                c == carried(m, now),
                rising::<PathKey, Placed<(Id, VisibilityModel)>>(cs),
                t == tree.deep_view(),
                forall|p: Seq<char>| #[trigger] among(cs, j as int, p) ==> t.contains_key(p),
            decreases nc - j,
        {
            proof {
                lemma_among::<PathKey, Placed<(Id, VisibilityModel)>>(cs, j as int);
                lemma_entry::<PathKey, Placed<(Id, VisibilityModel)>>(cs, j as int);
            }
            if !tree.contains_key(kept.path_at(j)) {
                assert(c.contains_key(cs[j as int].0) && !t.contains_key(cs[j as int].0));
                return false;
            }
            j = j + 1;
        }
        proof {
            lemma_among::<PathKey, Placed<(Id, VisibilityModel)>>(cs, cs.len() as int);
        }
        let nt: usize = tree.len();
        let ghost ts = tree.pairs();
        let mut k: usize = 0;
        proof {
            lemma_among::<PathKey, Placed<(Id, VisibilityModel)>>(ts, 0);
        }
        while k < nt
            invariant
                0 <= k <= nt,
                nt == ts.len(),
                m == self.deep_view(),
                ts == tree.pairs(),
                t == tree.deep_view(),
                t == map_of(ts),
                rising::<PathKey, Placed<(Id, VisibilityModel)>>(ts),
                es == entries.deep_view(),
                c == kept.deep_view(),
                c == carried(m, now),
                forall|p: Seq<char>| #[trigger]
                    among(ts, k as int, p) ==> entered(es, p) || (c.contains_key(p) && t[p] == c[p]),
            decreases nt - k,
        {
            proof {
                lemma_among::<PathKey, Placed<(Id, VisibilityModel)>>(ts, k as int);
                lemma_entry::<PathKey, Placed<(Id, VisibilityModel)>>(ts, k as int);
            }
            let path = tree.path_at(k);
            if !is_entered(entries, path) {
                let same = match (kept.get(path), kept.key_of(path)) {
                    (Some(h), Some(p)) => h.same(tree.value_at(k)) && p.same(path),
                    _ => false,
                };
                if !same {
                    assert(t.contains_key(ts[k as int].0));
                    return false;
                }
            }
            k = k + 1;
        }
        proof {
            lemma_among::<PathKey, Placed<(Id, VisibilityModel)>>(ts, ts.len() as int);
            assert forall|p: Seq<char>| #[trigger] t.contains_key(p) <==> entered(es, p) || c.contains_key(p) by {
                if entered(es, p) {
                    let x = choose|x: int| 0 <= x < es.len() && normal_path((#[trigger] es[x]).0) == p;
                    assert(t.contains_key(normal_path(es[x].0)));
                }
                if c.contains_key(p) {
                    assert(among(cs, cs.len() as int, p));
                }
                if t.contains_key(p) {
                    assert(among(ts, ts.len() as int, p));
                }
            }
            assert forall|p: Seq<char>| #[trigger] t.contains_key(p) && !entered(es, p) implies t[p] == c[p] by {
                assert(among(ts, ts.len() as int, p));
            }
        }
        true
    }

    /// Whether the working change holds already what a snapshot would take into it.
    /// `before` is the graph with that change, and this repository is without it.
    fn is_taken(&self, before: &ChangeGraph, w: &Oid, entries: &Vec<Entry>, message: &str, now: u64) -> (b: bool)
        ensures
            b == ({
                let m = RepoModel { graph: before.deep_view(), ..self.deep_view() };
                let n = m.graph.changes[w.deep_view()];
                &&& m.graph.heads.contains(w.deep_view())
                &&& m.graph.changes.contains_key(w.deep_view())
                &&& n.signature is None
                &&& n.author == m.author
                &&& n.message == message@
                &&& n.parents == self.deep_view().graph.heads
                &&& tree_holds(n.tree, self.deep_view(), entries.deep_view(), now)
            }),
    {
        if !crate::seqs::contains(&before.heads(), w) {
            return false;
        }
        let n = match before.get(w) {
            Some(n) => n,
            None => {
                return false;
            },
        };
        assert(n.signature.deep_view() is None <==> n.signature is None);
        n.signature.is_none() && n.author.same(&self.author) && same_text(n.message.as_str(), message)
            && n.parents.same(&self.graph.heads()) && self.tree_held(&n.tree, entries, now)
    }

    /// A snapshot with contents that have been sealed, one for each entry. The
    /// working change, if there is one, is rewritten in place.
    pub fn snapshot_sealed(
        &mut self,
        working: Option<&Oid>,
        entries: &Vec<Entry>,
        sealed: &Vec<Sealed>,
        message: &str,
        change_id: Option<[u8; 16]>,
        now: u64,
    ) -> (r: Result<Oid, RepoError>)
        requires
            entries@.len() == sealed@.len(),
        ensures
            ({
                let base = dropped(old(self).deep_view(), crate::liveness::id_model(working));
                let es = entries.deep_view();
                let ss = sealings(sealed@);
                match r {
                    Ok(id) => {
                        &&& clobbered(base, es, now).len() == 0
                        &&& id.deep_view() == id_here(base, snapshot_change(base, es, ss, message@, now))
                        &&& final(self).deep_view() == snapshotted(
                            base,
                            es,
                            ss,
                            message@,
                            change_id.deep_view(),
                            now,
                        )
                    },
                    Err(e) => {
                        &&& clobbered(base, es, now).len() > 0
                        &&& e.deep_view() == sealed_at(clobbered(base, es, now)[0].1.text)
                        &&& final(self).deep_view() == base
                    },
                }
            }),
    {
        if let Some(w) = working {
            self.graph.remove_head(w);
        }
        let ghost base = self.deep_view();
        let ghost es = entries.deep_view();
        let ghost ss = sealings(sealed@);
        match self.snapshot_refusal(entries, now) {
            Some(e) => {
                return Err(e);
            },
            None => {},
        }
        let mut tree = self.carried_tree(now);
        let mut i: usize = 0;
        proof {
            assert(es.take(0) =~= Seq::<EntryModel>::empty());
            assert(ss.take(0) =~= Seq::<Sealing>::empty());
        }
        while i < entries.len()
            invariant
                0 <= i <= entries@.len(),
                entries@.len() == sealed@.len(),
                es == entries.deep_view(),
                ss == sealings(sealed@),
                self.deep_view() == with_contents(base, ss.take(i as int)),
                tree.deep_view() == tree_with(carried(base, now), es.take(i as int), ss.take(i as int)),
            decreases entries@.len() - i,
        {
            proof {
                assert(es.take(i as int + 1).drop_last() =~= es.take(i as int));
                assert(ss.take(i as int + 1).drop_last() =~= ss.take(i as int));
                assert(es.take(i as int + 1).last() == entries@[i as int].deep_view());
                assert(ss.take(i as int + 1).last() == sealing(sealed@[i as int]));
            }
            let s = (sealed[i].0, sealed[i].1.dup(), sealed[i].2);
            assert(sealing(s) == sealing(sealed@[i as int]));
            let oid = self.put_sealed(s);
            tree.insert(entries[i].0.dup(), (oid, entries[i].2.dup()));
            i = i + 1;
        }
        proof {
            assert(es.take(es.len() as int) =~= es);
            assert(ss.take(ss.len() as int) =~= ss);
            lemma_with_contents_keeps(base, ss);
        }
        let change = Change { id: Oid::zero(), parents: self.graph.heads(), message: message.to_owned(), tree };
        assert(change_model(change) == snapshot_change(base, es, ss, message@, now));
        Ok(self.record_as(change, change_id))
    }

    /// Takes the files that this identity sees into the working change. A path
    /// that it can see and that is not among them is deleted; one that it cannot
    /// see is carried forward; writing over one that it cannot see is refused.
    /// Taking what the working change holds already changes nothing. Whether fresh
    /// keys can be had is up to the operating system.
    pub fn snapshot(&mut self, working: Option<&Oid>, entries: &Vec<Entry>, message: &str, now: u64) -> (r: Result<
        Oid,
        RepoError,
    >)
        ensures
            ({
                let base = dropped(old(self).deep_view(), crate::liveness::id_model(working));
                let es = entries.deep_view();
                let kept = kept_change_id(old(self).deep_view(), crate::liveness::id_model(working));
                let taken = already_taken(
                    old(self).deep_view(),
                    crate::liveness::id_model(working),
                    es,
                    message@,
                    now,
                );
                if clobbered(base, es, now).len() == 0 && taken {
                    &&& r is Ok
                    &&& Some(r->Ok_0.deep_view()) == crate::liveness::id_model(working)
                    &&& final(self).deep_view() == old(self).deep_view()
                } else {
                    match r {
                        Ok(id) => {
                            &&& clobbered(base, es, now).len() == 0
                            &&& exists|ss: Seq<Sealing>, cid: Option<Seq<u8>>| #[trigger]
                                seals_snapshot(base, es, kept, ss, cid) && id.deep_view() == id_here(
                                    base,
                                    snapshot_change(base, es, ss, message@, now),
                                ) && final(self).deep_view() == snapshotted(base, es, ss, message@, cid, now)
                        },
                        Err(e) => {
                            &&& e is Backend
                            &&& final(self).deep_view() == base
                            &&& clobbered(base, es, now).len() > 0 ==> e.deep_view() == sealed_at(
                                clobbered(base, es, now)[0].1.text,
                            )
                        },
                    }
                }
            }),
    {
        let ghost m0 = self.deep_view();
        let ghost w0 = crate::liveness::id_model(working);
        let kept = match working {
            Some(w) => self.change_change_id(w),
            None => None,
        };
        assert(kept.deep_view() == kept_change_id(m0, w0));
        let before = self.graph.copy();
        if let Some(w) = working {
            self.graph.remove_head(w);
        }
        let ghost base = self.deep_view();
        let ghost es = entries.deep_view();
        match self.snapshot_refusal(entries, now) {
            Some(e) => {
                return Err(e);
            },
            None => {},
        }
        if let Some(w) = working {
            if self.is_taken(&before, w, entries, message, now) {
                self.graph = before;
                assert(self.deep_view() == m0);
                return Ok(*w);
            }
        }
        let mut sealed: Vec<Sealed> = Vec::new();
        let mut i: usize = 0;
        while i < entries.len()
            invariant
                0 <= i <= entries@.len(),
                es == entries.deep_view(),
                base == self.deep_view(),
                base == dropped(m0, w0),
                m0 == old(self).deep_view(),
                w0 == crate::liveness::id_model(working),
                clobbered(base, es, now).len() == 0,
                !already_taken(m0, w0, es, message@, now),
                sealed@.len() == i,
                forall|j: int| 0 <= j < i ==> seals(es[j].1, es[j].2, sealing(#[trigger] sealed@[j])),
            decreases entries@.len() - i,
        {
            let s = seal(entries[i].1.as_slice(), &entries[i].2)?;
            proof {
                assert(entries@[i as int].1.deep_view() =~= entries@[i as int].1@);
                assert(es[i as int] == entries@[i as int].deep_view());
            }
            sealed.push(s);
            i = i + 1;
        }
        let cid = match kept {
            Some(c) => Some(c),
            None => self.fresh_change_id()?,
        };
        proof {
            let ss = sealings(sealed@);
            assert forall|j: int| 0 <= j < es.len() implies seals(es[j].1, es[j].2, #[trigger] ss[j]) by {
                assert(ss[j] == sealing(sealed@[j]));
            }
            assert(seals_all(es, ss));
            assert(dropped(base, None) == base);
        }
        let r = self.snapshot_sealed(None, entries, &sealed, message, cid, now);
        proof {
            let ss = sealings(sealed@);
            assert(seals_snapshot(base, es, kept_change_id(m0, w0), ss, cid.deep_view()));
        }
        r
    }
}

// ---------------------------------------------------------------------------
// History
// ---------------------------------------------------------------------------

/// One change of a [`LogGraph`].
#[derive(Debug)]
pub struct LogNode {
    pub id: Oid,
    pub message: String,
    /// The heads that reach the change, by their place in [`LogGraph::heads`].
    pub reachable_from: Vec<usize>,
}

/// The model of a [`LogNode`].
pub struct LogNodeModel {
    pub id: Id,
    pub message: Seq<char>,
    pub reachable_from: Seq<usize>,
}

impl DeepView for LogNode {
    type V = LogNodeModel;

    open spec fn deep_view(&self) -> LogNodeModel {
        LogNodeModel {
            id: self.id.deep_view(),
            message: self.message@,
            reachable_from: self.reachable_from@,
        }
    }
}

/// History with the heads that reach each change.
#[derive(Debug)]
pub struct LogGraph {
    /// The heads, in order.
    pub heads: Vec<Oid>,
    /// The changes, children before parents.
    pub changes: Vec<LogNode>,
}

/// The heads in order.
pub open spec fn heads_in_order(g: GraphModel) -> Seq<Id> {
    members_of::<Oid>(g.heads.to_set())
}

/// The places of the heads that reach a change, rising.
pub open spec fn reached_by(g: GraphModel, heads: Seq<Id>, id: Id) -> Seq<usize> {
    Seq::new(heads.len(), |i: int| i as usize).filter(
        |i: usize| closure_of(edges_of(g.changes), seq![heads[i as int]]).contains(id),
    )
}

/// The changes, children first, each with the heads that reach it.
pub open spec fn log_nodes(g: GraphModel) -> Seq<LogNodeModel> {
    ordered(g.changes).reverse().map_values(
        |n: NodeModel|
            LogNodeModel {
                id: n.id,
                message: n.message,
                reachable_from: reached_by(g, heads_in_order(g), n.id),
            },
    )
}

/// How many entries of a tree are restricted, and how many embargoed.
pub open spec fn restricted_count(t: Seq<(Seq<char>, Placed<(Id, VisibilityModel)>)>) -> nat {
    t.filter(|p: (Seq<char>, Placed<(Id, VisibilityModel)>)| p.1.v.1 is Restricted).len()
}

pub open spec fn embargoed_count(t: Seq<(Seq<char>, Placed<(Id, VisibilityModel)>)>) -> nat {
    t.filter(|p: (Seq<char>, Placed<(Id, VisibilityModel)>)| p.1.v.1 is Embargoed).len()
}

impl DagRepo {
    /// History as ids and messages, parents before children.
    pub fn log(&self) -> (r: Vec<(Oid, String)>)
        ensures
            r.deep_view() == ordered(self.deep_view().graph.changes).map_values(
                |n: NodeModel| (n.id, n.message),
            ),
    {
        let nodes = self.graph.in_order();
        let ghost ns = nodes.deep_view();
        let mut r: Vec<(Oid, String)> = crate::seqs::none();
        let mut i: usize = 0;
        while i < nodes.len()
            invariant
                0 <= i <= nodes@.len(),
                ns == nodes.deep_view(),
                r.deep_view().len() == i,
                forall|j: int| 0 <= j < i ==> #[trigger] r.deep_view()[j] == (ns[j].id, ns[j].message),
            decreases nodes@.len() - i,
        {
            let n = nodes[i];
            assert(ns[i as int] == n.deep_view());
            crate::seqs::push(&mut r, (n.id, n.message.clone()));
            i = i + 1;
        }
        assert(r.deep_view() =~= ns.map_values(|n: NodeModel| (n.id, n.message)));
        r
    }

    /// History as ids and messages, each with how many files the change has, how
    /// many of them are restricted and how many embargoed.
    pub fn log_detailed(&self) -> (r: Vec<(Oid, String, usize, usize, usize)>)
        ensures
            r@.len() == ordered(self.deep_view().graph.changes).len(),
            forall|i: int|
                0 <= i < r@.len() ==> {
                    let n = ordered(self.deep_view().graph.changes)[i];
                    let t = pairs_of::<PathKey, Placed<(Id, VisibilityModel)>>(n.tree);
                    &&& (#[trigger] r@[i]).0.deep_view() == n.id
                    &&& r@[i].1@ == n.message
                    &&& r@[i].2 == t.len()
                    &&& r@[i].3 == restricted_count(t)
                    &&& r@[i].4 == embargoed_count(t)
                },
    {
        let nodes = self.graph.in_order();
        let ghost ns = nodes.deep_view();
        let mut r: Vec<(Oid, String, usize, usize, usize)> = Vec::new();
        let mut i: usize = 0;
        while i < nodes.len()
            invariant
                0 <= i <= nodes@.len(),
                ns == nodes.deep_view(),
                r@.len() == i,
                forall|k: int|
                    0 <= k < i ==> {
                        let n = ns[k];
                        let t = pairs_of::<PathKey, Placed<(Id, VisibilityModel)>>(n.tree);
                        &&& (#[trigger] r@[k]).0.deep_view() == n.id
                        &&& r@[k].1@ == n.message
                        &&& r@[k].2 == t.len()
                        &&& r@[k].3 == restricted_count(t)
                        &&& r@[k].4 == embargoed_count(t)
                    },
            decreases nodes@.len() - i,
        {
            let n = nodes[i];
            assert(ns[i as int] == n.deep_view());
            let total: usize = n.tree.len();
            let (restricted, embargoed) = count_sealed(&n.tree);
            r.push((n.id, n.message.clone(), total, restricted, embargoed));
            i = i + 1;
        }
        r
    }

    /// History with the heads that reach each change, children before parents.
    pub fn log_graph(&self) -> (r: LogGraph)
        ensures
            r.heads.deep_view() == heads_in_order(self.deep_view().graph),
            r.changes.deep_view() == log_nodes(self.deep_view().graph),
    {
        let ghost g = self.deep_view().graph;
        let head_list = self.graph.heads();
        let mut set: SortedSet<Oid> = SortedSet::new();
        let mut i: usize = 0;
        while i < head_list.len()
            invariant
                0 <= i <= head_list@.len(),
                set.deep_view() == head_list.deep_view().take(i as int).to_set(),
            decreases head_list@.len() - i,
        {
            let ghost s = head_list.deep_view();
            proof {
                assert(s.take(i as int + 1) =~= s.take(i as int).push(s[i as int]));
                assert forall|x: Id| #[trigger] s.take(i as int + 1).to_set().contains(x) <==> s.take(
                    i as int,
                ).to_set().insert(s[i as int]).contains(x) by {
                    let a = s.take(i as int);
                    if a.contains(x) {
                        let k = choose|k: int| 0 <= k < a.len() && a[k] == x;
                        assert(a.push(s[i as int])[k] == x);
                    }
                    if x == s[i as int] {
                        assert(a.push(s[i as int])[i as int] == x);
                    }
                    if a.push(s[i as int]).contains(x) {
                        let k = choose|k: int| 0 <= k <= a.len() && a.push(s[i as int])[k] == x;
                        if k < a.len() {
                            assert(a[k] == x);
                        }
                    }
                }
                assert(s.take(i as int + 1).to_set() =~= s.take(i as int).to_set().insert(s[i as int]));
            }
            let _ = set.insert(head_list[i]);
            i = i + 1;
        }
        assert(head_list.deep_view().take(head_list.deep_view().len() as int) =~= head_list.deep_view());
        let heads = set.to_vec();
        let ghost hs = heads.deep_view();
        let mut reach: Vec<SortedSet<Oid>> = Vec::new();
        let mut h: usize = 0;
        while h < heads.len()
            invariant
                0 <= h <= heads@.len(),
                hs == heads.deep_view(),
                g == self.deep_view().graph,
                reach@.len() == h,
                forall|j: int|
                    0 <= j < h ==> (#[trigger] reach@[j]).deep_view() == closure_of(edges_of(g.changes), seq![hs[j]]),
            decreases heads@.len() - h,
        {
            assert(hs[h as int] == heads@[h as int].deep_view());
            reach.push(self.graph.ancestors_of(&heads[h]));
            h = h + 1;
        }
        let nodes = self.graph.in_order();
        let ghost ns = nodes.deep_view();
        let mut changes: Vec<LogNode> = Vec::new();
        let mut k: usize = nodes.len();
        while k > 0
            invariant
                0 <= k <= nodes@.len(),
                ns == nodes.deep_view(),
                hs == heads.deep_view(),
                g == self.deep_view().graph,
                reach@.len() == heads@.len(),
                forall|j: int|
                    0 <= j < heads@.len() ==> (#[trigger] reach@[j]).deep_view() == closure_of(
                        edges_of(g.changes),
                        seq![hs[j]],
                    ),
                changes@.len() == nodes@.len() - k,
                forall|j: int|
                    0 <= j < changes@.len() ==> (#[trigger] changes@[j]).deep_view() == (LogNodeModel {
                        id: ns[ns.len() - 1 - j].id,
                        message: ns[ns.len() - 1 - j].message,
                        reachable_from: reached_by(g, hs, ns[ns.len() - 1 - j].id),
                    }),
            decreases k,
        {
            k = k - 1;
            let n = nodes[k];
            assert(ns[k as int] == n.deep_view());
            let reachable_from = reaching_heads(&reach, &n.id, Ghost(g), Ghost(hs));
            changes.push(LogNode { id: n.id, message: n.message.clone(), reachable_from });
        }
        assert(changes.deep_view() =~= log_nodes(g));
        LogGraph { heads, changes }
    }
}

/// The places of the sets that hold `id`, rising.
fn reaching_heads(reach: &Vec<SortedSet<Oid>>, id: &Oid, Ghost(g): Ghost<GraphModel>, Ghost(hs): Ghost<Seq<Id>>) -> (r:
    Vec<usize>)
    requires
        reach@.len() == hs.len(),
        forall|j: int|
            0 <= j < hs.len() ==> (#[trigger] reach@[j]).deep_view() == closure_of(edges_of(g.changes), seq![hs[j]]),
    ensures
        r@ == reached_by(g, hs, id.deep_view()),
{
    let ghost all = Seq::new(hs.len(), |i: int| i as usize);
    let ghost f = |i: usize| closure_of(edges_of(g.changes), seq![hs[i as int]]).contains(id.deep_view());
    let mut r: Vec<usize> = Vec::new();
    let mut j: usize = 0;
    proof {
        lemma_filter_none(all, f);
    }
    while j < reach.len()
        invariant
            0 <= j <= reach@.len(),
            reach@.len() == hs.len(),
            all == Seq::new(hs.len(), |i: int| i as usize),
            f == (|i: usize| closure_of(edges_of(g.changes), seq![hs[i as int]]).contains(id.deep_view())),
            forall|j: int|
                0 <= j < hs.len() ==> (#[trigger] reach@[j]).deep_view() == closure_of(
                    edges_of(g.changes),
                    seq![hs[j]],
                ),
            r@ == all.take(j as int).filter(f),
        decreases reach@.len() - j,
    {
        proof {
            lemma_filter_step(all, j as int, f);
        }
        if reach[j].contains(id) {
            r.push(j);
        }
        j = j + 1;
    }
    assert(all.take(all.len() as int) =~= all);
    r
}

/// How many entries are restricted, and how many embargoed.
fn count_sealed(tree: &Tree) -> (r: (usize, usize))
    ensures
        r.0 == restricted_count(pairs_of::<PathKey, Placed<(Id, VisibilityModel)>>(tree.deep_view())),
        r.1 == embargoed_count(pairs_of::<PathKey, Placed<(Id, VisibilityModel)>>(tree.deep_view())),
{
    let n: usize = tree.len();
    let ghost s = tree.pairs();
    let ghost fr = |p: (Seq<char>, Placed<(Id, VisibilityModel)>)| p.1.v.1 is Restricted;
    let ghost fe = |p: (Seq<char>, Placed<(Id, VisibilityModel)>)| p.1.v.1 is Embargoed;
    let mut restricted: usize = 0;
    let mut embargoed: usize = 0;
    let mut i: usize = 0;
    proof {
        lemma_filter_none(s, fr);
        lemma_filter_none(s, fe);
    }
    while i < n
        invariant
            0 <= i <= n,
            n == s.len(),
            s == tree.pairs(),
            fr == (|p: (Seq<char>, Placed<(Id, VisibilityModel)>)| p.1.v.1 is Restricted),
            fe == (|p: (Seq<char>, Placed<(Id, VisibilityModel)>)| p.1.v.1 is Embargoed),
            restricted == s.take(i as int).filter(fr).len(),
            embargoed == s.take(i as int).filter(fe).len(),
            restricted <= i,
            embargoed <= i,
        decreases n - i,
    {
        proof {
            lemma_filter_step(s, i as int, fr);
            lemma_filter_step(s, i as int, fe);
        }
        match &tree.value_at(i).1 {
            Visibility::Restricted(_) => {
                restricted = restricted + 1;
            },
            Visibility::Embargoed { .. } => {
                embargoed = embargoed + 1;
            },
            Visibility::Public => {},
        }
        i = i + 1;
    }
    assert(s.take(s.len() as int) =~= s);
    (restricted, embargoed)
}

} // verus!
