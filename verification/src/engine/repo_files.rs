//! A repository as files, and back.

use crate::ancestry::Id;
use crate::attestation::{
    attestations_in_order, filed_right, key_of, Attestation, AttestationKey, AttestationLog, AttestationModel, LogModel,
};
use crate::burn::{burn_bytes, parse_burns, BurnLog};
use crate::escrow::Escrow;
use crate::format::{
    lemma_raw_text_back, lemma_version_back, list_bytes, list_fits, lemma_list_back, parse_list,
    parse_version, put_version, raw_text, read_version, text_from, version_bytes, Cursor, Wire,
    FORMAT_MAJOR,
};
use crate::hex::{hex_text, law_hex_round_trip};
use crate::manifest::Manifest;
use crate::path_map::PathMap;
use crate::sealed::SealedModel;
use crate::sorted::{lemma_drop_last, lemma_entry, lemma_map_is_listed, map_of, pairs_of, rising, SortedMap};
use crate::types::{ErrorModel, Oid, RepoError};
use crate::value::Value;
use super::change_graph::{empty_graph, ordered, with_nodes};
use super::custody::{
    decode_manifest, decode_purges, encode_manifest, encode_purges, manifest_bytes, parse_manifest, parse_purges,
    purges_bytes, Custody,
};
use super::object_store::Objects;
use super::persist_codec::{
    decode_escrow, decode_graph, decode_keyring, encode_escrow, encode_graph, encode_keyring,
    escrow_bytes, files_to_write, graph_bytes, keyring_bytes, load_objects_loose, object_bytes,
    parse_escrow, parse_graph, parse_keyring, parse_loose, save_objects_loose,
};
use super::{Conflicts, DagRepo, RepoModel};
use vstd::prelude::*;
use vstd::utf8::encode_utf8;

verus! {

/// The bytes of the file of conflicts.
pub open spec fn conflicts_bytes(c: Conflicts) -> Seq<u8> {
    PathMap::<(Oid, Oid)>::wire(c)
}

pub open spec fn parse_conflicts(s: Seq<u8>) -> Result<Conflicts, ErrorModel> {
    match PathMap::<(Oid, Oid)>::parse(s) {
        Ok((c, rest)) => Ok(c),
        Err(e) => Err(e),
    }
}

pub fn encode_conflicts(conflicts: &PathMap<(Oid, Oid)>) -> (r: Vec<u8>)
    ensures
        r@ == conflicts_bytes(conflicts.deep_view()),
{
    let mut out: Vec<u8> = Vec::new();
    conflicts.write(&mut out);
    assert(out@ =~= conflicts_bytes(conflicts.deep_view()));
    out
}

pub fn decode_conflicts(b: &[u8]) -> (r: Result<PathMap<(Oid, Oid)>, RepoError>)
    ensures
        match r {
            Ok(c) => parse_conflicts(b@) == Ok::<Conflicts, ErrorModel>(c.deep_view()),
            Err(e) => parse_conflicts(b@) == Err::<Conflicts, ErrorModel>(e.deep_view()),
        },
{
    let mut c = Cursor::new(b);
    PathMap::<(Oid, Oid)>::read(&mut c)
}

/// The bytes of the file of attestations.
pub open spec fn attestations_bytes(log: LogModel) -> Seq<u8> {
    version_bytes(FORMAT_MAJOR) + list_bytes::<Attestation>(attestations_in_order(log))
}

/// Attestations filed one after another.
pub open spec fn filed_attestations(atts: Seq<AttestationModel>) -> LogModel
    decreases atts.len(),
{
    if atts.len() == 0 {
        Map::empty()
    } else {
        filed_attestations(atts.drop_last()).insert(key_of(atts.last()), atts.last())
    }
}

pub open spec fn parse_attestations(s: Seq<u8>) -> Result<LogModel, ErrorModel> {
    match parse_version(s, FORMAT_MAJOR) {
        Ok((v, rest)) => match parse_list::<Attestation>(rest) {
            Ok((atts, rest2)) => Ok(filed_attestations(atts)),
            Err(e) => Err(e),
        },
        Err(e) => Err(e),
    }
}

pub fn encode_attestations(log: &AttestationLog) -> (r: Vec<u8>)
    ensures
        r@ == attestations_bytes(log.deep_view()),
{
    let mut out: Vec<u8> = Vec::new();
    put_version(&mut out, FORMAT_MAJOR);
    log.iter().write(&mut out);
    assert(out@ =~= attestations_bytes(log.deep_view()));
    out
}

pub fn decode_attestations(b: &[u8]) -> (r: Result<AttestationLog, RepoError>)
    ensures
        match r {
            Ok(l) => parse_attestations(b@) == Ok::<LogModel, ErrorModel>(l.deep_view()),
            Err(e) => parse_attestations(b@) == Err::<LogModel, ErrorModel>(e.deep_view()),
        },
{
    let mut c = Cursor::new(b);
    let _ = read_version(&mut c, FORMAT_MAJOR)?;
    let atts = Vec::<Attestation>::read(&mut c)?;
    let ghost all = atts.deep_view();
    let mut log = AttestationLog::new();
    let mut i: usize = 0;
    assert(all.take(0) =~= Seq::<AttestationModel>::empty());
    while i < atts.len()
        invariant
            0 <= i <= atts@.len(),
            all == atts.deep_view(),
            log.deep_view() == filed_attestations(all.take(i as int)),
        decreases atts@.len() - i,
    {
        proof {
            assert(all.take(i as int + 1).drop_last() =~= all.take(i as int));
            assert(all.take(i as int + 1).last() == atts@[i as int].deep_view());
        }
        log.insert(atts[i].dup());
        i = i + 1;
    }
    assert(all.take(all.len() as int) =~= all);
    Ok(log)
}

/// The files of a repository. What may be absent in one that an earlier build wrote
/// is optional.
#[derive(Debug)]
pub struct RepoFiles {
    pub identity: Vec<u8>,
    /// Sealed objects, by the name of their file.
    pub objects: Vec<(String, Vec<u8>)>,
    pub graph: Vec<u8>,
    pub keyring: Vec<u8>,
    pub escrow: Option<Vec<u8>>,
    pub manifest: Option<Vec<u8>>,
    pub purges: Option<Vec<u8>>,
    pub conflicts: Option<Vec<u8>>,
    pub attestations: Option<Vec<u8>>,
    pub burn: Option<Vec<u8>>,
}

/// The model of [`RepoFiles`].
pub struct FilesModel {
    pub identity: Seq<u8>,
    pub objects: Seq<(Seq<char>, Seq<u8>)>,
    pub graph: Seq<u8>,
    pub keyring: Seq<u8>,
    pub escrow: Option<Seq<u8>>,
    pub manifest: Option<Seq<u8>>,
    pub purges: Option<Seq<u8>>,
    pub conflicts: Option<Seq<u8>>,
    pub attestations: Option<Seq<u8>>,
    pub burn: Option<Seq<u8>>,
}

impl DeepView for RepoFiles {
    type V = FilesModel;

    open spec fn deep_view(&self) -> FilesModel {
        FilesModel {
            identity: self.identity@,
            objects: self.objects.deep_view(),
            graph: self.graph@,
            keyring: self.keyring@,
            escrow: self.escrow.deep_view(),
            manifest: self.manifest.deep_view(),
            purges: self.purges.deep_view(),
            conflicts: self.conflicts.deep_view(),
            attestations: self.attestations.deep_view(),
            burn: self.burn.deep_view(),
        }
    }
}

/// The files to write. An object whose file is there is not written again.
pub open spec fn saved(m: RepoModel, present: Seq<Seq<char>>) -> FilesModel {
    FilesModel {
        identity: encode_utf8(m.identity),
        objects: files_to_write(m.objects, present),
        graph: graph_bytes(m.graph.changes),
        keyring: keyring_bytes(m.keys),
        escrow: Some(escrow_bytes(m.escrow)),
        manifest: Some(manifest_bytes(m.manifest)),
        purges: Some(purges_bytes(m.purges)),
        conflicts: Some(conflicts_bytes(m.conflicts)),
        attestations: Some(attestations_bytes(m.attestations)),
        burn: Some(burn_bytes(m.burns)),
    }
}

/// What a file that may be absent reads as.
pub open spec fn optional<T>(b: Option<Seq<u8>>, parse: spec_fn(Seq<u8>) -> Result<T, ErrorModel>, none: T) -> Result<
    T,
    ErrorModel,
> {
    match b {
        Some(x) => parse(x),
        None => Ok(none),
    }
}

/// The repository that some files hold.
pub open spec fn loaded(f: FilesModel, root: Seq<char>) -> Result<RepoModel, ErrorModel> {
    match raw_text(f.identity) {
        Err(e) => Err(e),
        Ok(identity) => match parse_loose(f.objects) {
            Err(e) => Err(e),
            Ok(objects) => match parse_graph(f.graph) {
                Err(e) => Err(e),
                Ok(graph) => match parse_keyring(f.keyring) {
                    Err(e) => Err(e),
                    Ok(keys) => match optional(f.escrow, |s: Seq<u8>| parse_escrow(s), Map::empty()) {
                        Err(e) => Err(e),
                        Ok(escrow) => match optional(f.manifest, |s: Seq<u8>| parse_manifest(s), Map::empty()) {
                            Err(e) => Err(e),
                            Ok(manifest) => match optional(
                                f.purges,
                                |s: Seq<u8>| parse_purges(s),
                                Seq::empty(),
                            ) {
                                Err(e) => Err(e),
                                Ok(purges) => match optional(
                                    f.conflicts,
                                    |s: Seq<u8>| parse_conflicts(s),
                                    Map::empty(),
                                ) {
                                    Err(e) => Err(e),
                                    Ok(conflicts) => match optional(
                                        f.attestations,
                                        |s: Seq<u8>| parse_attestations(s),
                                        Map::empty(),
                                    ) {
                                        Err(e) => Err(e),
                                        Ok(attestations) => match optional(
                                            f.burn,
                                            |s: Seq<u8>| parse_burns(s),
                                            Map::empty(),
                                        ) {
                                            Err(e) => Err(e),
                                            Ok(burns) => Ok(
                                                RepoModel {
                                                    root,
                                                    identity,
                                                    author: None,
                                                    keys,
                                                    escrow,
                                                    manifest,
                                                    purges,
                                                    objects,
                                                    graph,
                                                    conflicts,
                                                    attestations,
                                                    burns,
                                                },
                                            ),
                                        },
                                    },
                                },
                            },
                        },
                    },
                },
            },
        },
    }
}

/// Bytes under another view.
fn blob(b: Vec<u8>) -> (r: Option<Vec<u8>>)
    ensures
        r.deep_view() == Some(b@),
{
    assert(b.deep_view() =~= b@);
    Some(b)
}

impl DagRepo {
    /// The files of this repository. `present` are the object files that are there.
    pub fn save(&self, present: &Vec<String>) -> (r: RepoFiles)
        ensures
            r.deep_view() == saved(self.deep_view(), present.deep_view()),
    {
        RepoFiles {
            identity: vstd::slice::slice_to_vec(self.identity.as_str().as_bytes()),
            objects: save_objects_loose(&self.objects, present),
            graph: encode_graph(&self.graph),
            keyring: encode_keyring(&self.custody.keyring),
            escrow: blob(encode_escrow(&self.custody.escrow)),
            manifest: blob(encode_manifest(&self.custody.manifest)),
            purges: blob(encode_purges(&self.custody.purges)),
            conflicts: blob(encode_conflicts(&self.conflicts)),
            attestations: blob(encode_attestations(&self.attestations)),
            burn: blob(crate::burn::encode(&self.burn_log)),
        }
    }

    /// The repository that some files hold. Who authors changes is not in them.
    pub fn load(files: &RepoFiles, root: String) -> (r: Result<Self, RepoError>)
        ensures
            match r {
                Ok(repo) => loaded(files.deep_view(), root@) == Ok::<RepoModel, ErrorModel>(repo.deep_view()),
                Err(e) => loaded(files.deep_view(), root@) == Err::<RepoModel, ErrorModel>(e.deep_view()),
            },
    {
        let identity = text_from(files.identity.as_slice())?;
        let objects = load_objects_loose(&files.objects)?;
        let graph = decode_graph(files.graph.as_slice())?;
        let keyring = decode_keyring(files.keyring.as_slice())?;
        let escrow = match &files.escrow {
            Some(b) => {
                assert(b.deep_view() =~= b@);
                decode_escrow(b.as_slice())?
            },
            None => Escrow::new(),
        };
        let manifest = match &files.manifest {
            Some(b) => {
                assert(b.deep_view() =~= b@);
                decode_manifest(b.as_slice())?
            },
            None => Manifest::new(),
        };
        let purges = match &files.purges {
            Some(b) => {
                assert(b.deep_view() =~= b@);
                decode_purges(b.as_slice())?
            },
            None => crate::seqs::none(),
        };
        let conflicts = match &files.conflicts {
            Some(b) => {
                assert(b.deep_view() =~= b@);
                decode_conflicts(b.as_slice())?
            },
            None => PathMap::new(),
        };
        let attestations = match &files.attestations {
            Some(b) => {
                assert(b.deep_view() =~= b@);
                decode_attestations(b.as_slice())?
            },
            None => AttestationLog::new(),
        };
        let burn_log = match &files.burn {
            Some(b) => {
                assert(b.deep_view() =~= b@);
                crate::burn::decode(b.as_slice())?
            },
            None => BurnLog::new(),
        };
        Ok(
            DagRepo {
                root,
                identity,
                author: None,
                custody: Custody { keyring, escrow, manifest, purges },
                objects,
                graph,
                conflicts,
                attestations,
                burn_log,
            },
        )
    }
}

proof fn lemma_loose_back(s: Seq<(Id, SealedModel)>)
    requires
        rising::<Oid, SealedModel>(s),
        forall|i: int|
            0 <= i < s.len() ==> (#[trigger] s[i]).0.len() == 32 && crate::sealed::SealedObject::fits(s[i].1),
    ensures
        parse_loose(s.map_values(|p: (Id, SealedModel)| (hex_text(p.0), object_bytes(p.1)))) == Ok::<
            Objects,
            ErrorModel,
        >(map_of(s)),
    decreases s.len(),
{
    let g = |p: (Id, SealedModel)| (hex_text(p.0), object_bytes(p.1));
    let files = s.map_values(g);
    if s.len() == 0 {
        assert(map_of(s) =~= Map::<Id, SealedModel>::empty());
    } else {
        let front = s.drop_last();
        lemma_drop_last::<Oid, SealedModel>(s);
        assert forall|i: int| 0 <= i < front.len() implies (#[trigger] front[i]).0.len() == 32
            && crate::sealed::SealedObject::fits(front[i].1) by {
            assert(front[i] == s[i]);
        }
        lemma_loose_back(front);
        assert(files.drop_last() =~= front.map_values(g));
        let (addr, obj) = s.last();
        assert(s[s.len() - 1] == s.last());
        assert(files.last() == (hex_text(addr), object_bytes(obj)));
        law_hex_round_trip(addr);
        super::persist_codec::law_object_round_trip(obj);
        lemma_entry::<Oid, SealedModel>(s, s.len() - 1);
        assert(hex_text(addr).len() == 64);
        assert(!map_of(front).contains_key(addr)) by {
            if map_of(front).contains_key(addr) {
                let j = crate::sorted::place_of(front, addr);
                lemma_entry::<Oid, SealedModel>(front, j);
                lemma_entry::<Oid, SealedModel>(s, j);
                assert(front[j] == s[j]);
                assert(s[j].0 == s[s.len() - 1].0);
            }
        }
        assert(map_of(s) =~= map_of(front).insert(addr, obj));
    }
}

/// The objects of a store come back from their files as they went in.
pub proof fn law_objects_round_trip(objects: Objects)
    requires
        objects.dom().finite(),
        forall|oid: Id| #[trigger]
            objects.contains_key(oid) ==> oid.len() == 32 && crate::sealed::SealedObject::fits(objects[oid]),
    ensures
        parse_loose(files_to_write(objects, Seq::empty())) == Ok::<Objects, ErrorModel>(objects),
{
    let s = pairs_of::<Oid, SealedModel>(objects);
    lemma_map_is_listed::<Oid, SealedModel>(objects);
    let present = Seq::<Seq<char>>::empty();
    let f = |p: (Id, SealedModel)| !present.contains(hex_text(p.0));
    assert(s.filter(f) =~= s) by {
        lemma_filter_all(s, f);
    }
    assert forall|i: int| 0 <= i < s.len() implies (#[trigger] s[i]).0.len() == 32
        && crate::sealed::SealedObject::fits(s[i].1) by {
        lemma_entry::<Oid, SealedModel>(s, i);
        assert(objects.contains_key(s[i].0));
    }
    lemma_loose_back(s);
}

proof fn lemma_filter_all(s: Seq<(Id, SealedModel)>, f: spec_fn((Id, SealedModel)) -> bool)
    requires
        forall|x: (Id, SealedModel)| #[trigger] f(x),
    ensures
        s.filter(f) == s,
    decreases s.len(),
{
    reveal(Seq::filter);
    if s.len() > 0 {
        lemma_filter_all(s.drop_last(), f);
        assert(f(s.last()));
        assert(s.drop_last().push(s.last()) =~= s);
    } else {
        assert(s.filter(f) =~= s);
    }
}

/// Filing attestations that stand under their own keys gives back what they stood in.
proof fn lemma_filed_back(s: Seq<((Seq<u8>, (Seq<u8>, Seq<char>)), AttestationModel)>)
    requires
        rising::<AttestationKey, AttestationModel>(s),
        forall|i: int| 0 <= i < s.len() ==> (#[trigger] s[i]).0 == key_of(s[i].1),
    ensures
        filed_attestations(s.map_values(|p: ((Seq<u8>, (Seq<u8>, Seq<char>)), AttestationModel)| p.1)) == map_of(s),
    decreases s.len(),
{
    let f = |p: ((Seq<u8>, (Seq<u8>, Seq<char>)), AttestationModel)| p.1;
    if s.len() == 0 {
        assert(filed_attestations(s.map_values(f)) =~= map_of(s));
    } else {
        let front = s.drop_last();
        lemma_drop_last::<AttestationKey, AttestationModel>(s);
        assert forall|i: int| 0 <= i < front.len() implies (#[trigger] front[i]).0 == key_of(front[i].1) by {
            assert(front[i] == s[i]);
        }
        lemma_filed_back(front);
        assert(s.map_values(f).drop_last() =~= front.map_values(f));
        assert(s[s.len() - 1] == s.last());
        lemma_entry::<AttestationKey, AttestationModel>(s, s.len() - 1);
        assert(filed_attestations(s.map_values(f)) =~= map_of(s));
    }
}

/// A log comes back from its file as it went in.
pub proof fn law_attestations_round_trip(m: LogModel)
    requires
        filed_right(m),
        m.dom().finite(),
        list_fits::<Attestation>(attestations_in_order(m)),
    ensures
        parse_attestations(attestations_bytes(m)) == Ok::<LogModel, ErrorModel>(m),
{
    let s = pairs_of::<AttestationKey, AttestationModel>(m);
    lemma_map_is_listed::<AttestationKey, AttestationModel>(m);
    assert forall|i: int| 0 <= i < s.len() implies (#[trigger] s[i]).0 == key_of(s[i].1) by {
        lemma_entry::<AttestationKey, AttestationModel>(s, i);
        assert(m.contains_key(s[i].0));
    }
    lemma_filed_back(s);
    let atts = attestations_in_order(m);
    let body = list_bytes::<Attestation>(atts);
    lemma_version_back(FORMAT_MAJOR, FORMAT_MAJOR, body);
    lemma_list_back::<Attestation>(atts, Seq::empty());
    assert(body + Seq::<u8>::empty() =~= body);
}

/// What a repository's files can hold all of: each count fits in 32 bits, each
/// record stands under its own key.
pub open spec fn files_hold(m: RepoModel) -> bool {
    &&& m.objects.dom().finite()
    &&& forall|oid: Id| #[trigger]
        m.objects.contains_key(oid) ==> oid.len() == 32 && crate::sealed::SealedObject::fits(m.objects[oid])
    &&& ordered(m.graph.changes).len() < 0x1_0000_0000
    &&& forall|i: int|
        0 <= i < ordered(m.graph.changes).len() ==> super::change_graph::ChangeNode::fits(
            #[trigger] ordered(m.graph.changes)[i],
        )
    &&& SortedMap::<Oid, [u8; 32]>::fits(m.keys)
    &&& SortedMap::<Oid, crate::escrow::EscrowEntry>::fits(m.escrow)
    &&& m.manifest.dom().finite()
    &&& forall|k: (Id, Seq<char>)| #[trigger]
        m.manifest.contains_key(k) ==> k == (m.manifest[k].oid, m.manifest[k].grantee)
    &&& list_fits::<crate::manifest::GrantEntry>(crate::manifest::grants_in_order(m.manifest))
    &&& list_fits::<(Oid, String)>(m.purges)
    &&& PathMap::<(Oid, Oid)>::fits(m.conflicts)
    &&& crate::burn::burns_ok(m.burns)
    &&& m.burns.dom().finite()
    &&& list_fits::<crate::burn::Tombstone>(crate::burn::burns_in_order(m.burns))
    &&& list_fits::<Attestation>(attestations_in_order(m.attestations))
    &&& filed_right(m.attestations)
    &&& m.attestations.dom().finite()
}

/// A repository comes back from its files with identity, content, history, keys,
/// grants, purges, conflicts, attestations and burns as they were. History is put
/// in anew, parents first.
pub proof fn law_repository_round_trip(m: RepoModel)
    requires
        files_hold(m),
    ensures
        loaded(saved(m, Seq::empty()), m.root) == Ok::<RepoModel, ErrorModel>(
            RepoModel {
                author: None,
                graph: with_nodes(empty_graph(), ordered(m.graph.changes)),
                ..m
            },
        ),
{
    lemma_raw_text_back(m.identity);
    law_objects_round_trip(m.objects);
    super::persist_codec::law_graph_round_trip(m.graph.changes);
    super::persist_codec::law_keyring_round_trip(m.keys);
    super::persist_codec::law_escrow_round_trip(m.escrow);
    super::custody::law_manifest_round_trip(m.manifest);
    super::custody::law_purges_round_trip(m.purges);
    PathMap::<(Oid, Oid)>::round_trip(m.conflicts, Seq::empty());
    assert(conflicts_bytes(m.conflicts) + Seq::<u8>::empty() =~= conflicts_bytes(m.conflicts));
    crate::burn::law_burn_log_round_trip(m.burns);
    law_attestations_round_trip(m.attestations);
}

} // verus!
