//! The files of a repository: sealed objects, the graph, the keyring, the escrow.
//!
//! An object's file is named by the object's address, so it is written once and
//! never again. A build reads the files of every earlier format.

use crate::ancestry::{walk, Id};
use crate::escrow::{Escrow, EscrowEntry, EscrowModel};
use crate::format::{
    count_bytes, lemma_count_back, lemma_version_back, parse_count, parse_version, put_u32,
    put_version, read_version, version_bytes, Cursor, Parsed, Wire, FORMAT_MAJOR, STORE_MAJOR,
};
use crate::hex::{hex_bytes, hex_text};
use crate::sealed::{Keyring, SealedModel, SealedObject};
use crate::seqs::{lemma_filter_none, lemma_filter_step};
use crate::sorted::{lemma_map_is_listed, pairs_of, SortedMap};
use crate::types::{ErrorModel, Oid, RepoError, Tree, TreeModel, Visibility};
use super::change_graph::{
    edges_of, empty_graph, ids_in_order, nodes_at, ordered, with_nodes, ChangeGraph, ChangeNode,
    GraphModel, NodeModel, Nodes,
};
use super::object_store::{ObjectStore, Objects};
use vstd::prelude::*;

verus! {

// ---------------------------------------------------------------------------
// Objects
// ---------------------------------------------------------------------------

/// An object in bytes: nonce, compression flag, ciphertext, visibility, grants.
pub type ObjectRow = ([u8; 12], (bool, (Vec<u8>, (Visibility, Vec<String>))));

/// An object as it was before the compression flag.
pub type FirstObjectRow = ([u8; 12], (Vec<u8>, (Visibility, Vec<String>)));

impl Wire for SealedObject {
    open spec fn wire(v: SealedModel) -> Seq<u8> {
        ObjectRow::wire((v.nonce, (v.compressed, (v.ciphertext, (v.vis, v.grant_ids)))))
    }

    open spec fn parse(s: Seq<u8>) -> Parsed<SealedModel> {
        match ObjectRow::parse(s) {
            Ok((r, rest)) => Ok(
                (
                    SealedModel {
                        nonce: r.0,
                        compressed: r.1.0,
                        ciphertext: r.1.1.0,
                        vis: r.1.1.1.0,
                        grant_ids: r.1.1.1.1,
                    },
                    rest,
                ),
            ),
            Err(e) => Err(e),
        }
    }

    open spec fn fits(v: SealedModel) -> bool {
        ObjectRow::fits((v.nonce, (v.compressed, (v.ciphertext, (v.vis, v.grant_ids)))))
    }

    proof fn round_trip(v: SealedModel, t: Seq<u8>) {
        ObjectRow::round_trip((v.nonce, (v.compressed, (v.ciphertext, (v.vis, v.grant_ids)))), t);
    }

    fn write(&self, out: &mut Vec<u8>) {
        self.nonce.write(out);
        self.compressed.write(out);
        self.ciphertext.write(out);
        self.vis.write(out);
        self.grant_ids.write(out);
        proof {
            assert(self.nonce.deep_view() =~= self.nonce@);
            assert(self.ciphertext.deep_view() =~= self.ciphertext@);
            assert(out@ =~= old(out)@ + Self::wire(self.deep_view()));
        }
    }

    fn read(c: &mut Cursor) -> (r: Result<Self, RepoError>) {
        let row = ObjectRow::read(c)?;
        let (nonce, (compressed, (ciphertext, (vis, grant_ids)))) = row;
        assert(nonce.deep_view() =~= nonce@);
        assert(ciphertext.deep_view() =~= ciphertext@);
        Ok(SealedObject { nonce, ciphertext, vis, grant_ids, compressed })
    }
}

/// What an object of a given format reads as. One without the flag is not compressed.
pub open spec fn parse_object_body(s: Seq<u8>, major: u8) -> Parsed<SealedModel> {
    if major >= 2 {
        SealedObject::parse(s)
    } else {
        match FirstObjectRow::parse(s) {
            Ok((r, rest)) => Ok(
                (
                    SealedModel {
                        nonce: r.0,
                        compressed: false,
                        ciphertext: r.1.0,
                        vis: r.1.1.0,
                        grant_ids: r.1.1.1,
                    },
                    rest,
                ),
            ),
            Err(e) => Err(e),
        }
    }
}

/// An object's file. The object's address does not depend on it.
pub open spec fn object_bytes(o: SealedModel) -> Seq<u8> {
    version_bytes(STORE_MAJOR) + SealedObject::wire(o)
}

/// What an object's file reads as.
pub open spec fn parse_object(s: Seq<u8>) -> Result<SealedModel, ErrorModel> {
    match parse_version(s, FORMAT_MAJOR) {
        Ok((v, rest)) => match parse_object_body(rest, v.0) {
            Ok((o, rest2)) => Ok(o),
            Err(e) => Err(e),
        },
        Err(e) => Err(e),
    }
}

/// An object's file.
pub fn encode_object(obj: &SealedObject) -> (r: Vec<u8>)
    ensures
        r@ == object_bytes(obj.deep_view()),
{
    let mut out: Vec<u8> = Vec::new();
    put_version(&mut out, STORE_MAJOR);
    obj.write(&mut out);
    assert(out@ =~= object_bytes(obj.deep_view()));
    out
}

/// The object in a file of this or an earlier format.
pub fn decode_object(b: &[u8]) -> (r: Result<SealedObject, RepoError>)
    ensures
        match r {
            Ok(o) => parse_object(b@) == Ok::<SealedModel, ErrorModel>(o.deep_view()),
            Err(e) => parse_object(b@) == Err::<SealedModel, ErrorModel>(e.deep_view()),
        },
{
    let mut c = Cursor::new(b);
    let v = read_version(&mut c, FORMAT_MAJOR)?;
    if v.0 >= 2 {
        return SealedObject::read(&mut c);
    }
    let row = FirstObjectRow::read(&mut c)?;
    let (nonce, (ciphertext, (vis, grant_ids))) = row;
    assert(nonce.deep_view() =~= nonce@);
    assert(ciphertext.deep_view() =~= ciphertext@);
    Ok(SealedObject { nonce, ciphertext, vis, grant_ids, compressed: false })
}

/// An object comes back from its file as it went in.
pub proof fn law_object_round_trip(o: SealedModel)
    requires
        SealedObject::fits(o),
    ensures
        parse_object(object_bytes(o)) == Ok::<SealedModel, ErrorModel>(o),
{
    lemma_version_back(STORE_MAJOR, FORMAT_MAJOR, SealedObject::wire(o));
    SealedObject::round_trip(o, Seq::empty());
    assert(SealedObject::wire(o) + Seq::<u8>::empty() =~= SealedObject::wire(o));
}

/// A file of the first format, which has no flag, reads as the object uncompressed.
pub proof fn law_first_objects_read(o: SealedModel)
    requires
        SealedObject::fits(o),
        !o.compressed,
    ensures
        parse_object(
            version_bytes(1) + FirstObjectRow::wire((o.nonce, (o.ciphertext, (o.vis, o.grant_ids)))),
        ) == Ok::<SealedModel, ErrorModel>(o),
{
    let row = (o.nonce, (o.ciphertext, (o.vis, o.grant_ids)));
    lemma_version_back(1, FORMAT_MAJOR, FirstObjectRow::wire(row));
    FirstObjectRow::round_trip(row, Seq::empty());
    assert(FirstObjectRow::wire(row) + Seq::<u8>::empty() =~= FirstObjectRow::wire(row));
}

/// The files that a store still has to write: one for each object that has none
/// yet, in order of address, named by the address.
pub open spec fn files_to_write(objects: Objects, present: Seq<Seq<char>>) -> Seq<(Seq<char>, Seq<u8>)> {
    pairs_of::<Oid, SealedModel>(objects).filter(
        |p: (Id, SealedModel)| !present.contains(hex_text(p.0)),
    ).map_values(|p: (Id, SealedModel)| (hex_text(p.0), object_bytes(p.1)))
}

/// The files to write for the objects of which none is `present`.
pub fn save_objects_loose(objects: &ObjectStore, present: &Vec<String>) -> (r: Vec<(String, Vec<u8>)>)
    ensures
        r.deep_view() == files_to_write(objects.deep_view(), present.deep_view()),
{
    let map = objects.as_map();
    let n: usize = map.len();
    let ghost s = map.pairs();
    let ghost f = |p: (Id, SealedModel)| !present.deep_view().contains(hex_text(p.0));
    let ghost g = |p: (Id, SealedModel)| (hex_text(p.0), object_bytes(p.1));
    let mut r: Vec<(String, Vec<u8>)> = crate::seqs::none();
    let mut i: usize = 0;
    proof {
        lemma_filter_none(s, f);
        assert(r.deep_view() =~= s.take(0).filter(f).map_values(g));
    }
    while i < n
        invariant
            0 <= i <= n,
            n == s.len(),
            s == map.pairs(),
            f == (|p: (Id, SealedModel)| !present.deep_view().contains(hex_text(p.0))),
            g == (|p: (Id, SealedModel)| (hex_text(p.0), object_bytes(p.1))),
            r.deep_view() == s.take(i as int).filter(f).map_values(g),
        decreases n - i,
    {
        proof {
            lemma_filter_step(s, i as int, f);
        }
        let name = crate::hex::encode(map.key_at(i).0.as_slice());
        if !crate::seqs::contains(present, &name) {
            let bytes = encode_object(map.value_at(i));
            proof {
                assert(bytes.deep_view() =~= bytes@);
                let x = s.take(i as int).filter(f);
                assert(x.push(s[i as int]).map_values(g) =~= x.map_values(g).push(g(s[i as int])));
            }
            crate::seqs::push(&mut r, (name, bytes));
        }
        i = i + 1;
    }
    assert(s.take(s.len() as int) =~= s);
    r
}

/// The objects in some files, taken one after another. A file whose name is no
/// address is passed over.
pub open spec fn parse_loose(files: Seq<(Seq<char>, Seq<u8>)>) -> Result<Objects, ErrorModel>
    decreases files.len(),
{
    if files.len() == 0 {
        Ok(Map::empty())
    } else {
        match parse_loose(files.drop_last()) {
            Ok(m) => {
                let (name, bytes) = files.last();
                if name.len() == 64 && hex_bytes(name) is Some {
                    match parse_object(bytes) {
                        Ok(o) => Ok(
                            if m.contains_key(hex_bytes(name)->Some_0) {
                                m
                            } else {
                                m.insert(hex_bytes(name)->Some_0, o)
                            },
                        ),
                        Err(e) => Err(e),
                    }
                } else {
                    Ok(m)
                }
            },
            Err(e) => Err(e),
        }
    }
}

/// An error in the first files is the error in more.
proof fn lemma_loose_error(files: Seq<(Seq<char>, Seq<u8>)>, i: int)
    requires
        0 <= i <= files.len(),
        parse_loose(files.take(i)) is Err,
    ensures
        parse_loose(files) == parse_loose(files.take(i)),
    decreases files.len() - i,
{
    if i < files.len() {
        assert(files.take(i + 1).drop_last() =~= files.take(i));
        lemma_loose_error(files, i + 1);
    } else {
        assert(files.take(i) =~= files);
    }
}

/// The objects in the files of a directory, given by name and content.
pub fn load_objects_loose(files: &Vec<(String, Vec<u8>)>) -> (r: Result<ObjectStore, RepoError>)
    ensures
        match r {
            Ok(o) => parse_loose(files.deep_view()) == Ok::<Objects, ErrorModel>(o.deep_view()),
            Err(e) => parse_loose(files.deep_view()) == Err::<Objects, ErrorModel>(e.deep_view()),
        },
{
    let ghost all = files.deep_view();
    let mut objects = ObjectStore::new();
    let mut i: usize = 0;
    assert(all.take(0) =~= Seq::<(Seq<char>, Seq<u8>)>::empty());
    while i < files.len()
        invariant
            0 <= i <= files@.len(),
            all == files.deep_view(),
            parse_loose(all.take(i as int)) == Ok::<Objects, ErrorModel>(objects.deep_view()),
        decreases files@.len() - i,
    {
        let file = &files[i];
        proof {
            assert(all.take(i as int + 1).drop_last() =~= all.take(i as int));
            assert(all.take(i as int + 1).last() == file.deep_view());
            assert(file.1.deep_view() =~= file.1@);
        }
        if let Some(addr) = crate::hex::decode_array::<32>(file.0.as_str()) {
            match decode_object(file.1.as_slice()) {
                Ok(o) => {
                    let _ = objects.put(Oid(addr), o);
                },
                Err(e) => {
                    proof {
                        lemma_loose_error(all, i as int + 1);
                    }
                    return Err(e);
                },
            }
        }
        i = i + 1;
    }
    assert(all.take(all.len() as int) =~= all);
    Ok(objects)
}

// ---------------------------------------------------------------------------
// Changes
// ---------------------------------------------------------------------------

/// What every format holds of a change: id, parents, message, tree.
pub type BodyRow = (Oid, (Vec<Oid>, (String, Tree)));

/// What came with signatures: author and signature.
pub type SignedRow = (Option<[u8; 32]>, Option<[u8; 64]>);

/// What came with edits: change id and predecessors.
pub type NamedRow = (Option<[u8; 16]>, Vec<Oid>);

pub open spec fn body_of(n: NodeModel) -> (Id, (Seq<Id>, (Seq<char>, TreeModel))) {
    (n.id, (n.parents, (n.message, n.tree)))
}

pub open spec fn signed_of(n: NodeModel) -> (Option<Seq<u8>>, Option<Seq<u8>>) {
    (n.author, n.signature)
}

pub open spec fn named_of(n: NodeModel) -> (Option<Seq<u8>>, Seq<Id>) {
    (n.change_id, n.predecessors)
}

/// A change with change id and predecessors is written as a newer format.
pub open spec fn is_named(n: NodeModel) -> bool {
    n.change_id is Some || n.predecessors.len() > 0
}

pub open spec fn node_from(
    b: (Id, (Seq<Id>, (Seq<char>, TreeModel))),
    s: (Option<Seq<u8>>, Option<Seq<u8>>),
    m: (Option<Seq<u8>>, Seq<Id>),
) -> NodeModel {
    NodeModel {
        id: b.0,
        parents: b.1.0,
        message: b.1.1.0,
        tree: b.1.1.1,
        author: s.0,
        signature: s.1,
        change_id: m.0,
        predecessors: m.1,
    }
}

fn write_body(n: &ChangeNode, out: &mut Vec<u8>)
    ensures
        final(out)@ == old(out)@ + BodyRow::wire(body_of(n.deep_view())),
{
    n.id.write(out);
    n.parents.write(out);
    n.message.write(out);
    n.tree.write(out);
    assert(out@ =~= old(out)@ + BodyRow::wire(body_of(n.deep_view())));
}

fn write_signed(n: &ChangeNode, out: &mut Vec<u8>)
    ensures
        final(out)@ == old(out)@ + SignedRow::wire(signed_of(n.deep_view())),
{
    n.author.write(out);
    n.signature.write(out);
    assert(out@ =~= old(out)@ + SignedRow::wire(signed_of(n.deep_view())));
}

fn write_named(n: &ChangeNode, out: &mut Vec<u8>)
    ensures
        final(out)@ == old(out)@ + NamedRow::wire(named_of(n.deep_view())),
{
    n.change_id.write(out);
    n.predecessors.write(out);
    assert(out@ =~= old(out)@ + NamedRow::wire(named_of(n.deep_view())));
}

/// A change in bytes, in the format that holds all of it.
impl Wire for ChangeNode {
    open spec fn wire(v: NodeModel) -> Seq<u8> {
        BodyRow::wire(body_of(v)) + SignedRow::wire(signed_of(v)) + NamedRow::wire(named_of(v))
    }

    open spec fn parse(s: Seq<u8>) -> Parsed<NodeModel> {
        match BodyRow::parse(s) {
            Ok((b, r1)) => match SignedRow::parse(r1) {
                Ok((g, r2)) => match NamedRow::parse(r2) {
                    Ok((m, r3)) => Ok((node_from(b, g, m), r3)),
                    Err(e) => Err(e),
                },
                Err(e) => Err(e),
            },
            Err(e) => Err(e),
        }
    }

    open spec fn fits(v: NodeModel) -> bool {
        BodyRow::fits(body_of(v)) && SignedRow::fits(signed_of(v)) && NamedRow::fits(named_of(v))
    }

    proof fn round_trip(v: NodeModel, t: Seq<u8>) {
        let t2 = NamedRow::wire(named_of(v)) + t;
        let t1 = SignedRow::wire(signed_of(v)) + t2;
        assert(Self::wire(v) + t =~= BodyRow::wire(body_of(v)) + t1);
        BodyRow::round_trip(body_of(v), t1);
        SignedRow::round_trip(signed_of(v), t2);
        NamedRow::round_trip(named_of(v), t);
    }

    fn write(&self, out: &mut Vec<u8>) {
        write_body(self, out);
        write_signed(self, out);
        write_named(self, out);
        assert(out@ =~= old(out)@ + Self::wire(self.deep_view()));
    }

    fn read(c: &mut Cursor) -> (r: Result<Self, RepoError>) {
        let (id, (parents, (message, tree))) = BodyRow::read(c)?;
        let (author, signature) = SignedRow::read(c)?;
        let (change_id, predecessors) = NamedRow::read(c)?;
        Ok(ChangeNode { id, parents, message, tree, author, signature, change_id, predecessors })
    }
}

/// A change in the bytes of a given format.
pub open spec fn node_bytes(n: NodeModel, major: u8) -> Seq<u8> {
    BodyRow::wire(body_of(n)) + (if major >= 3 {
        SignedRow::wire(signed_of(n))
    } else {
        Seq::empty()
    }) + (if major >= 6 {
        NamedRow::wire(named_of(n))
    } else {
        Seq::empty()
    })
}

/// What a change of a given format reads as. What the format does not hold is
/// absent.
pub open spec fn parse_node(s: Seq<u8>, major: u8) -> Parsed<NodeModel> {
    match BodyRow::parse(s) {
        Ok((b, r1)) => match (if major >= 3 {
            SignedRow::parse(r1)
        } else {
            Ok(((None, None), r1))
        }) {
            Ok((g, r2)) => match (if major >= 6 {
                NamedRow::parse(r2)
            } else {
                Ok(((None, Seq::empty()), r2))
            }) {
                Ok((m, r3)) => Ok((node_from(b, g, m), r3)),
                Err(e) => Err(e),
            },
            Err(e) => Err(e),
        },
        Err(e) => Err(e),
    }
}

fn read_node(c: &mut Cursor, major: u8) -> (r: Result<ChangeNode, RepoError>)
    ensures
        match r {
            Ok(n) => parse_node(old(c).rest(), major) == Ok::<(NodeModel, Seq<u8>), ErrorModel>(
                (n.deep_view(), final(c).rest()),
            ),
            Err(e) => parse_node(old(c).rest(), major) == Err::<(NodeModel, Seq<u8>), ErrorModel>(
                e.deep_view(),
            ),
        },
{
    let (id, (parents, (message, tree))) = BodyRow::read(c)?;
    let mut author: Option<[u8; 32]> = None;
    let mut signature: Option<[u8; 64]> = None;
    if major >= 3 {
        let row = SignedRow::read(c)?;
        author = row.0;
        signature = row.1;
    }
    let mut change_id: Option<[u8; 16]> = None;
    let mut predecessors: Vec<Oid> = crate::seqs::none();
    if major >= 6 {
        let row = NamedRow::read(c)?;
        change_id = row.0;
        predecessors = row.1;
    }
    Ok(ChangeNode { id, parents, message, tree, author, signature, change_id, predecessors })
}

/// Several changes in the bytes of a given format.
pub open spec fn nodes_bytes(ns: Seq<NodeModel>, major: u8) -> Seq<u8>
    decreases ns.len(),
{
    if ns.len() == 0 {
        Seq::empty()
    } else {
        nodes_bytes(ns.drop_last(), major) + node_bytes(ns.last(), major)
    }
}

pub open spec fn parse_nodes(s: Seq<u8>, major: u8, n: nat) -> Parsed<Seq<NodeModel>>
    decreases n,
{
    if n == 0 {
        Ok((Seq::empty(), s))
    } else {
        match parse_nodes(s, major, (n - 1) as nat) {
            Ok((ns, rest)) => match parse_node(rest, major) {
                Ok((x, rest2)) => Ok((ns.push(x), rest2)),
                Err(e) => Err(e),
            },
            Err(e) => Err(e),
        }
    }
}

proof fn lemma_nodes_error(s: Seq<u8>, major: u8, m: nat, n: nat)
    requires
        m <= n,
        parse_nodes(s, major, m) is Err,
    ensures
        parse_nodes(s, major, n) == parse_nodes(s, major, m),
    decreases n,
{
    if m < n {
        lemma_nodes_error(s, major, m, (n - 1) as nat);
    }
}

/// The format that a graph's file is written in.
pub open spec fn graph_major(ns: Seq<NodeModel>) -> u8 {
    if exists|i: int| 0 <= i < ns.len() && is_named(#[trigger] ns[i]) {
        FORMAT_MAJOR
    } else {
        STORE_MAJOR
    }
}

/// A graph's file: its changes, parents before children.
pub open spec fn graph_bytes(changes: Nodes) -> Seq<u8> {
    let ns = ordered(changes);
    version_bytes(graph_major(ns)) + count_bytes(ns.len()) + nodes_bytes(ns, graph_major(ns))
}

/// What a graph's file reads as: its changes, put in one after another.
pub open spec fn parse_graph(s: Seq<u8>) -> Result<GraphModel, ErrorModel> {
    match parse_version(s, FORMAT_MAJOR) {
        Ok((v, rest)) => match parse_count(rest) {
            Ok((n, rest2)) => match parse_nodes(rest2, v.0, n) {
                Ok((ns, rest3)) => Ok(with_nodes(empty_graph(), ns)),
                Err(e) => Err(e),
            },
            Err(e) => Err(e),
        },
        Err(e) => Err(e),
    }
}

pub fn encode_graph(graph: &ChangeGraph) -> (r: Vec<u8>)
    ensures
        r@ == graph_bytes(graph.deep_view().changes),
{
    let changes = graph.in_order();
    let ghost ns = changes.deep_view();
    let mut major: u8 = STORE_MAJOR;
    let mut i: usize = 0;
    while i < changes.len()
        invariant
            0 <= i <= changes@.len(),
            ns == changes.deep_view(),
            major == STORE_MAJOR || major == FORMAT_MAJOR,
            major == FORMAT_MAJOR <==> exists|j: int| 0 <= j < i && is_named(#[trigger] ns[j]),
        decreases changes@.len() - i,
    {
        assert(ns[i as int] == changes@[i as int].deep_view());
        let ghost was = major;
        if changes[i].change_id.is_some() || changes[i].predecessors.len() > 0 {
            assert(is_named(ns[i as int]));
            major = FORMAT_MAJOR;
        } else {
            assert(!is_named(ns[i as int]));
        }
        proof {
            if was == FORMAT_MAJOR {
                let j = choose|j: int| 0 <= j < i && is_named(#[trigger] ns[j]);
                assert(0 <= j < i + 1 && is_named(ns[j]));
            }
        }
        i = i + 1;
    }
    assert(major == graph_major(ns));
    let mut out: Vec<u8> = Vec::new();
    put_version(&mut out, major);
    put_u32(&mut out, changes.len());
    let ghost base = out@;
    let mut k: usize = 0;
    assert(ns.take(0) =~= Seq::<NodeModel>::empty());
    while k < changes.len()
        invariant
            0 <= k <= changes@.len(),
            ns == changes.deep_view(),
            major == STORE_MAJOR || major == FORMAT_MAJOR,
            out@ == base + nodes_bytes(ns.take(k as int), major),
        decreases changes@.len() - k,
    {
        let ghost had = out@;
        write_body(changes[k], &mut out);
        write_signed(changes[k], &mut out);
        if major >= 6 {
            write_named(changes[k], &mut out);
        }
        proof {
            let next = ns.take(k as int + 1);
            assert(next.drop_last() =~= ns.take(k as int));
            assert(next.last() == changes@[k as int].deep_view());
            assert(out@ =~= had + node_bytes(next.last(), major));
            assert(out@ =~= base + nodes_bytes(next, major));
        }
        k = k + 1;
    }
    assert(ns.take(ns.len() as int) =~= ns);
    assert(out@ =~= graph_bytes(graph.deep_view().changes));
    out
}

pub fn decode_graph(b: &[u8]) -> (r: Result<ChangeGraph, RepoError>)
    ensures
        match r {
            Ok(g) => parse_graph(b@) == Ok::<GraphModel, ErrorModel>(g.deep_view()),
            Err(e) => parse_graph(b@) == Err::<GraphModel, ErrorModel>(e.deep_view()),
        },
{
    let mut c = Cursor::new(b);
    let v = read_version(&mut c, FORMAT_MAJOR)?;
    let ghost after = c.rest();
    let n: usize = c.u32()?;
    let ghost start = c.rest();
    let mut graph = ChangeGraph::new();
    let ghost mut ns: Seq<NodeModel> = Seq::empty();
    let mut i: usize = 0;
    while i < n
        invariant
            0 <= i <= n,
            parse_version(b@, FORMAT_MAJOR) == Ok::<((u8, u8), Seq<u8>), ErrorModel>((v, after)),
            parse_count(after) == Ok::<(nat, Seq<u8>), ErrorModel>((n as nat, start)),
            parse_nodes(start, v.0, i as nat) == Ok::<(Seq<NodeModel>, Seq<u8>), ErrorModel>(
                (ns, c.rest()),
            ),
            graph.deep_view() == with_nodes(empty_graph(), ns),
        decreases n - i,
    {
        match read_node(&mut c, v.0) {
            Ok(x) => {
                proof {
                    let next = ns.push(x.deep_view());
                    assert(next.drop_last() =~= ns);
                    ns = next;
                }
                graph.insert(x);
            },
            Err(e) => {
                proof {
                    lemma_nodes_error(start, v.0, i as nat + 1, n as nat);
                }
                return Err(e);
            },
        }
        i = i + 1;
    }
    Ok(graph)
}

/// Whether a format holds all that is recorded of a change: signatures came with the
/// third, change ids and predecessors with the sixth.
pub open spec fn holds_all_of(major: u8, n: NodeModel) -> bool {
    &&& major >= 3 || (n.author is None && n.signature is None)
    &&& major >= 6 || !is_named(n)
}

proof fn lemma_node_back(n: NodeModel, major: u8, t: Seq<u8>)
    requires
        ChangeNode::fits(n),
        holds_all_of(major, n),
    ensures
        parse_node(node_bytes(n, major) + t, major) == Ok::<(NodeModel, Seq<u8>), ErrorModel>((n, t)),
{
    if major >= 6 {
        assert(node_bytes(n, major) =~= ChangeNode::wire(n));
        ChangeNode::round_trip(n, t);
    } else {
        let t1 = if major >= 3 {
            SignedRow::wire(signed_of(n)) + t
        } else {
            t
        };
        assert(node_bytes(n, major) + t =~= BodyRow::wire(body_of(n)) + t1);
        BodyRow::round_trip(body_of(n), t1);
        if major >= 3 {
            SignedRow::round_trip(signed_of(n), t);
        }
        assert(n.predecessors =~= Seq::<Id>::empty());
    }
}

#[verifier::spinoff_prover]
#[verifier::rlimit(60)]
proof fn lemma_nodes_back(ns: Seq<NodeModel>, major: u8, t: Seq<u8>)
    requires
        forall|i: int| 0 <= i < ns.len() ==> ChangeNode::fits(#[trigger] ns[i]) && holds_all_of(major, ns[i]),
    ensures
        parse_nodes(nodes_bytes(ns, major) + t, major, ns.len()) == Ok::<
            (Seq<NodeModel>, Seq<u8>),
            ErrorModel,
        >((ns, t)),
    decreases ns.len(),
{
    if ns.len() == 0 {
        assert(nodes_bytes(ns, major) + t =~= t);
        assert(ns =~= Seq::<NodeModel>::empty());
    } else {
        let front = ns.drop_last();
        let last = ns.last();
        assert(last == ns[ns.len() - 1]);
        assert forall|i: int| 0 <= i < front.len() implies ChangeNode::fits(#[trigger] front[i])
            && holds_all_of(major, front[i]) by {
            assert(front[i] == ns[i]);
        }
        let t2 = node_bytes(last, major) + t;
        lemma_nodes_back(front, major, t2);
        assert(nodes_bytes(ns, major) + t =~= nodes_bytes(front, major) + t2);
        lemma_node_back(last, major, t);
        assert(front.push(last) =~= ns);
    }
}

/// A file of changes in any format up to this one reads as its changes, put in one
/// after another, if the format holds all that is recorded of each.
pub proof fn law_earlier_graphs_read(ns: Seq<NodeModel>, major: u8)
    requires
        major <= FORMAT_MAJOR,
        ns.len() < 0x1_0000_0000,
        forall|i: int| 0 <= i < ns.len() ==> ChangeNode::fits(#[trigger] ns[i]) && holds_all_of(major, ns[i]),
    ensures
        parse_graph(version_bytes(major) + count_bytes(ns.len()) + nodes_bytes(ns, major)) == Ok::<
            GraphModel,
            ErrorModel,
        >(with_nodes(empty_graph(), ns)),
{
    let body = nodes_bytes(ns, major);
    let tail = count_bytes(ns.len()) + body;
    assert(version_bytes(major) + count_bytes(ns.len()) + body =~= version_bytes(major) + tail);
    lemma_version_back(major, FORMAT_MAJOR, tail);
    lemma_count_back(ns.len(), body);
    assert(body + Seq::<u8>::empty() =~= body);
    lemma_nodes_back(ns, major, Seq::empty());
}

/// A graph's file reads as the changes of the graph, put in parents first, if each
/// of its counts fits in 32 bits.
pub proof fn law_graph_round_trip(changes: Nodes)
    requires
        ordered(changes).len() < 0x1_0000_0000,
        forall|i: int| 0 <= i < ordered(changes).len() ==> ChangeNode::fits(#[trigger] ordered(changes)[i]),
    ensures
        parse_graph(graph_bytes(changes)) == Ok::<GraphModel, ErrorModel>(
            with_nodes(empty_graph(), ordered(changes)),
        ),
{
    let ns = ordered(changes);
    let major = graph_major(ns);
    assert forall|i: int| 0 <= i < ns.len() implies ChangeNode::fits(#[trigger] ns[i])
        && holds_all_of(major, ns[i]) by {}
    law_earlier_graphs_read(ns, major);
}

/// Changes put in one after another, each under its own id and none twice, are the
/// changes of the graph.
pub proof fn lemma_with_nodes_changes(ids: Seq<Id>, changes: Nodes)
    requires
        ids.no_duplicates(),
        forall|x: Id| #[trigger] ids.contains(x) ==> changes.contains_key(x) && changes[x].id == x,
    ensures
        forall|x: Id| #[trigger]
            with_nodes(empty_graph(), nodes_at(changes, ids)).changes.contains_key(x) <==> ids.contains(x),
        forall|x: Id| #[trigger]
            with_nodes(empty_graph(), nodes_at(changes, ids)).changes.contains_key(x) ==> with_nodes(
                empty_graph(),
                nodes_at(changes, ids),
            ).changes[x] == changes[x],
    decreases ids.len(),
{
    let ns = nodes_at(changes, ids);
    if ids.len() > 0 {
        let front = ids.drop_last();
        let last = ids.last();
        assert(ids[ids.len() - 1] == last);
        assert(ids.contains(last));
        assert(front.no_duplicates());
        assert forall|x: Id| #[trigger] front.contains(x) implies ids.contains(x) by {
            let k = choose|k: int| 0 <= k < front.len() && front[k] == x;
            assert(ids[k] == x);
        }
        assert(!front.contains(last)) by {
            if front.contains(last) {
                let k = choose|k: int| 0 <= k < front.len() && front[k] == last;
                assert(ids[k] == ids[ids.len() - 1]);
            }
        }
        assert forall|x: Id| #[trigger] ids.contains(x) implies front.contains(x) || x == last by {
            let k = choose|k: int| 0 <= k < ids.len() && ids[k] == x;
            if k < front.len() {
                assert(front[k] == x);
            }
        }
        lemma_with_nodes_changes(front, changes);
        assert(ns.drop_last() =~= nodes_at(changes, front));
        assert(ns.last() == changes[last]);
        assert(!with_nodes(empty_graph(), nodes_at(changes, front)).changes.contains_key(last));
    }
}

/// Reading a graph's file back loses no change and alters none.
pub proof fn law_reading_keeps_changes(m: Nodes)
    requires
        forall|x: Id| #[trigger] m.contains_key(x) ==> m[x].id == x,
        m.dom().finite(),
    ensures
        with_nodes(empty_graph(), ordered(m)).changes == m,
{
    let e = edges_of(m);
    let starts = ids_in_order(m);
    let order = walk(e, starts);
    assert(e.dom() =~= m.dom());
    lemma_map_is_listed::<Oid, NodeModel>(m);
    crate::ancestry::lemma_dfs_members(e, starts, Set::empty(), e.dom().len());
    assert forall|x: Id| m.contains_key(x) implies #[trigger] order.contains(x) by {
        let s = pairs_of::<Oid, NodeModel>(m);
        let j = crate::sorted::place_of(s, x);
        crate::sorted::lemma_entry::<Oid, NodeModel>(s, j);
        assert(starts[j] == x);
        assert(starts.contains(x));
        crate::ancestry::lemma_reaches_self(e, x);
        crate::ancestry::law_walk_is_ancestry(e, starts, x);
    }
    lemma_with_nodes_changes(order, m);
    assert(with_nodes(empty_graph(), ordered(m)).changes =~= m);
}

// ---------------------------------------------------------------------------
// Keys
// ---------------------------------------------------------------------------

/// A file that holds a map: version, then the entries in order.
pub open spec fn keyring_bytes(keys: Map<Seq<u8>, Seq<u8>>) -> Seq<u8> {
    version_bytes(STORE_MAJOR) + SortedMap::<Oid, [u8; 32]>::wire(keys)
}

pub open spec fn parse_keyring(s: Seq<u8>) -> Result<Map<Seq<u8>, Seq<u8>>, ErrorModel> {
    match parse_version(s, FORMAT_MAJOR) {
        Ok((v, rest)) => match SortedMap::<Oid, [u8; 32]>::parse(rest) {
            Ok((m, rest2)) => Ok(m),
            Err(e) => Err(e),
        },
        Err(e) => Err(e),
    }
}

pub fn encode_keyring(keyring: &Keyring) -> (r: Vec<u8>)
    ensures
        r@ == keyring_bytes(keyring.deep_view()),
{
    let mut out: Vec<u8> = Vec::new();
    put_version(&mut out, STORE_MAJOR);
    keyring.as_map().write(&mut out);
    assert(out@ =~= keyring_bytes(keyring.deep_view()));
    out
}

pub fn decode_keyring(b: &[u8]) -> (r: Result<Keyring, RepoError>)
    ensures
        match r {
            Ok(k) => parse_keyring(b@) == Ok::<Map<Seq<u8>, Seq<u8>>, ErrorModel>(k.deep_view()),
            Err(e) => parse_keyring(b@) == Err::<Map<Seq<u8>, Seq<u8>>, ErrorModel>(e.deep_view()),
        },
{
    let mut c = Cursor::new(b);
    let _ = read_version(&mut c, FORMAT_MAJOR)?;
    let m = SortedMap::<Oid, [u8; 32]>::read(&mut c)?;
    Ok(Keyring::from_map(m))
}

/// A keyring comes back from its file as it went in.
pub proof fn law_keyring_round_trip(keys: Map<Seq<u8>, Seq<u8>>)
    requires
        SortedMap::<Oid, [u8; 32]>::fits(keys),
    ensures
        parse_keyring(keyring_bytes(keys)) == Ok::<Map<Seq<u8>, Seq<u8>>, ErrorModel>(keys),
{
    let body = SortedMap::<Oid, [u8; 32]>::wire(keys);
    lemma_version_back(STORE_MAJOR, FORMAT_MAJOR, body);
    SortedMap::<Oid, [u8; 32]>::round_trip(keys, Seq::empty());
    assert(body + Seq::<u8>::empty() =~= body);
}

impl Wire for EscrowEntry {
    open spec fn wire(v: EscrowModel) -> Seq<u8> {
        <([u8; 32], u64)>::wire((v.key, v.reveal_at))
    }

    open spec fn parse(s: Seq<u8>) -> Parsed<EscrowModel> {
        match <([u8; 32], u64)>::parse(s) {
            Ok((r, rest)) => Ok((EscrowModel { key: r.0, reveal_at: r.1 }, rest)),
            Err(e) => Err(e),
        }
    }

    open spec fn fits(v: EscrowModel) -> bool {
        <([u8; 32], u64)>::fits((v.key, v.reveal_at))
    }

    proof fn round_trip(v: EscrowModel, t: Seq<u8>) {
        <([u8; 32], u64)>::round_trip((v.key, v.reveal_at), t);
    }

    fn write(&self, out: &mut Vec<u8>) {
        self.key.write(out);
        self.reveal_at.write(out);
        proof {
            assert(self.key.deep_view() =~= self.key@);
            assert(out@ =~= old(out)@ + Self::wire(self.deep_view()));
        }
    }

    fn read(c: &mut Cursor) -> (r: Result<Self, RepoError>) {
        let (key, reveal_at) = <([u8; 32], u64)>::read(c)?;
        assert(key.deep_view() =~= key@);
        Ok(EscrowEntry { key, reveal_at })
    }
}

pub open spec fn escrow_bytes(entries: Map<Seq<u8>, EscrowModel>) -> Seq<u8> {
    version_bytes(STORE_MAJOR) + SortedMap::<Oid, EscrowEntry>::wire(entries)
}

pub open spec fn parse_escrow(s: Seq<u8>) -> Result<Map<Seq<u8>, EscrowModel>, ErrorModel> {
    match parse_version(s, FORMAT_MAJOR) {
        Ok((v, rest)) => match SortedMap::<Oid, EscrowEntry>::parse(rest) {
            Ok((m, rest2)) => Ok(m),
            Err(e) => Err(e),
        },
        Err(e) => Err(e),
    }
}

pub fn encode_escrow(escrow: &Escrow) -> (r: Vec<u8>)
    ensures
        r@ == escrow_bytes(escrow.deep_view()),
{
    let mut out: Vec<u8> = Vec::new();
    put_version(&mut out, STORE_MAJOR);
    escrow.as_map().write(&mut out);
    assert(out@ =~= escrow_bytes(escrow.deep_view()));
    out
}

pub fn decode_escrow(b: &[u8]) -> (r: Result<Escrow, RepoError>)
    ensures
        match r {
            Ok(m) => parse_escrow(b@) == Ok::<Map<Seq<u8>, EscrowModel>, ErrorModel>(m.deep_view()),
            Err(e) => parse_escrow(b@) == Err::<Map<Seq<u8>, EscrowModel>, ErrorModel>(e.deep_view()),
        },
{
    let mut c = Cursor::new(b);
    let _ = read_version(&mut c, FORMAT_MAJOR)?;
    let m = SortedMap::<Oid, EscrowEntry>::read(&mut c)?;
    Ok(Escrow::from_map(m))
}

/// An escrow comes back from its file as it went in.
pub proof fn law_escrow_round_trip(entries: Map<Seq<u8>, EscrowModel>)
    requires
        SortedMap::<Oid, EscrowEntry>::fits(entries),
    ensures
        parse_escrow(escrow_bytes(entries)) == Ok::<Map<Seq<u8>, EscrowModel>, ErrorModel>(entries),
{
    let body = SortedMap::<Oid, EscrowEntry>::wire(entries);
    lemma_version_back(STORE_MAJOR, FORMAT_MAJOR, body);
    SortedMap::<Oid, EscrowEntry>::round_trip(entries, Seq::empty());
    assert(body + Seq::<u8>::empty() =~= body);
}

} // verus!
