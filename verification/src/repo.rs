//! What a repository does, whatever keeps it.

use crate::converge::Outcomes;
use crate::engine::custody::{surfaced_change, Surfaced};
use crate::engine::negotiation::{applied, sync_bundle};
use crate::engine::{
    change_model, fresh_for, got, id_here, new_repo, recorded, seals, with_content, DagRepo, RepoModel, Sealing,
};
use crate::escrow::{promoted, still_held};
use crate::path_map::PathMap;
use crate::sealed::bytes_result;
use crate::types::{Change, ErrorModel, MergeOutcome, Oid, RepoError, SyncBundle, Visibility, VisibilityModel};
use vstd::prelude::*;

verus! {

/// A repository, known by what it holds.
pub trait Repo: DeepView<V = RepoModel> + Sized {
    /// An empty repository of an identity. Files go under `path`.
    fn init(path: String, identity: &str) -> (r: Result<Self, RepoError>)
        ensures
            r matches Ok(repo) && repo.deep_view() == new_repo(path@, identity@),
    ;

    /// Stores content under a visibility and gives its address.
    fn put(&mut self, bytes: &[u8], vis: Visibility) -> (r: Result<Oid, RepoError>)
        ensures
            match r {
                Ok(oid) => exists|s: Sealing| #[trigger]
                    seals(bytes@, vis.deep_view(), s) && s.addr == oid.deep_view() && final(self).deep_view()
                        == with_content(old(self).deep_view(), s),
                Err(e) => e is Backend && final(self).deep_view() == old(self).deep_view(),
            },
    ;

    /// What `reader` may read at an address now.
    fn get(&self, oid: &Oid, reader: &str, now: u64) -> (r: Result<Vec<u8>, RepoError>)
        ensures
            bytes_result(r) == got(self.deep_view(), oid.deep_view(), reader@, now),
    ;

    /// Records a change over stored objects.
    fn record(&mut self, change: Change) -> (r: Result<Oid, RepoError>)
        ensures
            match r {
                Ok(id) => {
                    &&& id.deep_view() == id_here(old(self).deep_view(), change_model(change))
                    &&& exists|cid: Option<Seq<u8>>| #[trigger]
                        fresh_for(old(self).deep_view(), cid) && final(self).deep_view() == recorded(
                            old(self).deep_view(),
                            change_model(change),
                            cid,
                            Seq::empty(),
                        )
                },
                Err(e) => e is Backend && old(self).deep_view().author is Some && final(self).deep_view()
                    == old(self).deep_view(),
            },
    ;

    /// The files of a change that `reader` may read now.
    fn surface(&self, change: &Oid, reader: &str, now: u64) -> (r: Result<Vec<Surfaced>, RepoError>)
        ensures
            match r {
                Ok(files) => surfaced_change(self.deep_view(), change.deep_view(), reader@, now) matches Ok(x)
                    && x.0 == files.deep_view(),
                Err(e) => surfaced_change(self.deep_view(), change.deep_view(), reader@, now) == Err::<
                    (Seq<(Seq<char>, VisibilityModel, Seq<u8>)>, nat),
                    ErrorModel,
                >(e.deep_view()),
            },
    ;

    /// A sync bundle with all that one who has `have` lacks.
    fn bundle(&self, have: &Vec<Oid>) -> (r: Result<SyncBundle, RepoError>)
        ensures
            r matches Ok(b) && b.deep_view() == sync_bundle(self.deep_view(), have.deep_view(), None),
    ;

    /// Takes a bundle in and merges what it brings.
    fn apply(&mut self, bundle: &SyncBundle, now: u64) -> (r: Result<
        PathMap<MergeOutcome>,
        RepoError,
    >)
        ensures
            match r {
                Ok(o) => applied(old(self).deep_view(), bundle.deep_view(), now, Set::empty()) == Ok::<
                    (RepoModel, Outcomes),
                    ErrorModel,
                >((final(self).deep_view(), o.deep_view())),
                Err(e) => applied(old(self).deep_view(), bundle.deep_view(), now, Set::empty()) == Err::<
                    (RepoModel, Outcomes),
                    ErrorModel,
                >(e.deep_view()) && final(self).deep_view() == old(self).deep_view(),
            },
    ;

    /// The changes that no change has as a parent.
    fn heads(&self) -> (r: Vec<Oid>)
        ensures
            r.deep_view() == self.deep_view().graph.heads,
    ;

    /// Moves the keys whose embargo is over to the keyring.
    fn flush_embargo(&mut self, now: u64)
        ensures
            final(self).deep_view() == (RepoModel {
                keys: promoted(old(self).deep_view().escrow, old(self).deep_view().keys, now),
                escrow: still_held(old(self).deep_view().escrow, now),
                ..old(self).deep_view()
            }),
    ;
}

impl Repo for DagRepo {
    fn init(path: String, identity: &str) -> (r: Result<Self, RepoError>) {
        DagRepo::init(path, identity)
    }

    fn put(&mut self, bytes: &[u8], vis: Visibility) -> (r: Result<Oid, RepoError>) {
        DagRepo::put(self, bytes, vis)
    }

    fn get(&self, oid: &Oid, reader: &str, now: u64) -> (r: Result<Vec<u8>, RepoError>) {
        DagRepo::get(self, oid, reader, now)
    }

    fn record(&mut self, change: Change) -> (r: Result<Oid, RepoError>) {
        DagRepo::record(self, change)
    }

    fn surface(&self, change: &Oid, reader: &str, now: u64) -> (r: Result<Vec<Surfaced>, RepoError>) {
        DagRepo::surface(self, change, reader, now)
    }

    fn bundle(&self, have: &Vec<Oid>) -> (r: Result<SyncBundle, RepoError>) {
        DagRepo::bundle(self, have)
    }

    fn apply(&mut self, bundle: &SyncBundle, now: u64) -> (r: Result<
        PathMap<MergeOutcome>,
        RepoError,
    >) {
        DagRepo::apply(self, bundle, now)
    }

    fn heads(&self) -> (r: Vec<Oid>) {
        DagRepo::heads(self)
    }

    fn flush_embargo(&mut self, now: u64) {
        DagRepo::flush_embargo(self, now)
    }
}

} // verus!
