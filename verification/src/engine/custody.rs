//! Custody: key management as verbs. Granting, cutting off, changing who may read.

use crate::ancestry::Id;
use crate::bundle_codec::{frame_bytes, parse_frame, BodyModel, BundleBody, Frame, FrameModel, SealedHead};
use crate::escrow::{promoted, still_held, Escrow, EscrowModel};
use crate::format::{
    lemma_list_back, lemma_version_back, list_bytes, list_fits, parse_list, parse_version, put_version,
    read_version, version_bytes, Cursor, Parsed, Wire, FORMAT_MAJOR,
};
use crate::manifest::{
    grants_for_object, grants_in_order, lapsed, with_record, GrantEntry, GrantModel, Manifest, ManifestModel,
    UNKNOWN_PUBKEY,
};
use crate::path::normal_path;
use crate::path_map::{put_at, PathKey, Placed};
use crate::sealed::{opened_with_key, seal, ContentKey, Keyring, SealedModel, SealedObject};
use crate::seqs::{lemma_filter_none, lemma_filter_step};
use crate::sorted::{lemma_entry, lemma_map_is_listed, lemma_pairs_of, map_of, pairs_of, rising, SortedMap};
use crate::text::{debug_of, debug_text, decimal, push_decimal, push_text, same_text};
use crate::types::{
    zero_oid, Change, ErrorModel, Oid, RepoError, RepoPath, SyncBundle, Visibility,
    VisibilityModel,
};
use crate::value::Value;
use super::change_graph::tree_of;
use super::{
    change_model, first_bad, fresh_for, got, id_here, recorded, sealing, seals, stored_objects, verify_all,
    with_content, ChangeModel, DagRepo, RepoModel, Sealed, Sealing,
};
use vstd::prelude::*;

verus! {

/// What an identity keeps of keys, and of who was given them.
#[derive(Debug)]
pub struct Custody {
    /// The keys that this identity may use.
    pub keyring: Keyring,
    /// The keys of embargoed content, until it is revealed.
    pub escrow: Escrow,
    /// Who was granted what.
    pub manifest: Manifest,
    /// Objects that someone has been cut off from, and who.
    pub purges: Vec<(Oid, String)>,
}

impl Custody {
    pub fn new() -> (r: Self)
        ensures
            r.keyring.deep_view() == Map::<Id, Seq<u8>>::empty(),
            r.escrow.deep_view() == Map::<Id, EscrowModel>::empty(),
            r.manifest.deep_view() == Map::<(Id, Seq<char>), GrantModel>::empty(),
            r.purges.deep_view() == Seq::<(Id, Seq<char>)>::empty(),
    {
        Custody {
            keyring: Keyring::new(),
            escrow: Escrow::new(),
            manifest: Manifest::new(),
            purges: crate::seqs::none(),
        }
    }
}

// ---------------------------------------------------------------------------
// Grants
// ---------------------------------------------------------------------------

/// The body of a grant: one object, and its key if it travels in the open.
pub open spec fn grant_body(oid: Id, obj: SealedModel, key: Option<Seq<u8>>) -> BodyModel {
    BodyModel {
        changes: Seq::empty(),
        objs: Map::empty().insert(oid, obj),
        keys: match key {
            Some(k) => Map::empty().insert(oid, k),
            None => Map::empty(),
        },
        attestations: Seq::empty(),
    }
}

/// The record of a grant whose parties are known by name only.
pub open spec fn named_grant(oid: Id, grantee: Seq<char>, now: u64, expires_at: Option<u64>) -> GrantModel {
    GrantModel {
        oid,
        grantee,
        grantee_pubkey: UNKNOWN_PUBKEY@,
        grantor_pubkey: UNKNOWN_PUBKEY@,
        granted_at: now,
        expires_at,
    }
}

/// A grant of the key at `oid`: the repository with the record, and the bundle.
/// Only who holds the key can grant it.
pub open spec fn granted(m: RepoModel, oid: Id, grantee: Seq<char>, now: u64, expires_at: Option<u64>) -> Result<
    (RepoModel, Seq<u8>),
    ErrorModel,
> {
    if !m.keys.contains_key(oid) {
        Err(ErrorModel::Unauthorized(oid))
    } else if !m.objects.contains_key(oid) {
        Err(ErrorModel::NotFound(oid))
    } else {
        Ok(
            (
                RepoModel {
                    manifest: with_record(m.manifest, named_grant(oid, grantee, now, expires_at)),
                    ..m
                },
                frame_bytes(
                    FrameModel::Grant { grantee, body: grant_body(oid, m.objects[oid], Some(m.keys[oid])) },
                ),
            ),
        )
    }
}

/// The key that this identity can issue grants with: from the keyring, or from
/// escrow before the reveal.
pub open spec fn issuing_key(m: RepoModel, oid: Id) -> Option<Seq<u8>> {
    if m.keys.contains_key(oid) {
        Some(m.keys[oid])
    } else if m.escrow.contains_key(oid) {
        Some(m.escrow[oid].key)
    } else {
        None
    }
}

/// A grant whose key is sealed to the recipient: the repository with the record,
/// and the bundle.
pub open spec fn granted_sealed(
    m: RepoModel,
    grantee: Seq<char>,
    grantor_pubkey: Seq<u8>,
    head: SealedHead,
    now: u64,
) -> Result<(RepoModel, Seq<u8>), ErrorModel> {
    if issuing_key(m, head.oid) is None {
        Err(ErrorModel::Unauthorized(head.oid))
    } else if !m.objects.contains_key(head.oid) {
        Err(ErrorModel::NotFound(head.oid))
    } else {
        Ok(
            (
                RepoModel {
                    manifest: with_record(
                        m.manifest,
                        GrantModel {
                            oid: head.oid,
                            grantee,
                            grantee_pubkey: head.grantee_pubkey,
                            grantor_pubkey,
                            granted_at: now,
                            expires_at: head.expires_at,
                        },
                    ),
                    ..m
                },
                frame_bytes(
                    FrameModel::SealedGrant { head, body: grant_body(head.oid, m.objects[head.oid], None) },
                ),
            ),
        )
    }
}

/// The error of a bundle that is no sealed grant.
pub open spec fn no_sealed_grant() -> ErrorModel {
    ErrorModel::Backend("not a sealed-key grant bundle (tag 3)"@)
}

/// The sealed grant in a bundle, if it is one and has not expired.
pub open spec fn standing_grant(bundle: Seq<u8>, now: u64) -> Result<(SealedHead, BodyModel), ErrorModel> {
    match parse_frame(bundle) {
        Ok(f) => match f {
            FrameModel::SealedGrant { head, body } => if head.expires_at matches Some(t) && now >= t {
                Err(ErrorModel::Expired(head.expires_at->Some_0))
            } else {
                Ok((head, body))
            },
            _ => Err(no_sealed_grant()),
        },
        Err(e) => Err(e),
    }
}

/// The repository with a key filed: in escrow until it is due, else on the
/// keyring.
pub open spec fn with_key(m: RepoModel, oid: Id, key: Seq<u8>, reveal_at: u64, now: u64) -> RepoModel {
    if reveal_at > now {
        if m.escrow.contains_key(oid) || m.keys.contains_key(oid) {
            m
        } else {
            RepoModel { escrow: m.escrow.insert(oid, EscrowModel { key, reveal_at }), ..m }
        }
    } else if m.keys.contains_key(oid) {
        m
    } else {
        RepoModel { keys: m.keys.insert(oid, key), ..m }
    }
}

/// The repository after a sealed grant has been opened with `key`.
pub open spec fn accepted(
    m: RepoModel,
    head: SealedHead,
    body: BodyModel,
    grantor_pubkey: Seq<u8>,
    now: u64,
    key: Seq<u8>,
) -> Result<RepoModel, ErrorModel> {
    match first_bad(body.changes) {
        Some(e) => Err(e),
        None => {
            let m1 = with_key(
                stored_objects(m, pairs_of::<Oid, SealedModel>(body.objs), Map::empty()),
                head.oid,
                key,
                head.reveal_at,
                now,
            );
            Ok(
                RepoModel {
                    manifest: with_record(
                        m.manifest,
                        GrantModel {
                            oid: head.oid,
                            grantee: m.identity,
                            grantee_pubkey: head.grantee_pubkey,
                            grantor_pubkey,
                            granted_at: now,
                            expires_at: head.expires_at,
                        },
                    ),
                    ..m1
                },
            )
        },
    }
}

/// The body of a grant.
fn make_grant_body(oid: &Oid, obj: SealedObject, key: Option<ContentKey>) -> (r: BundleBody)
    ensures
        r.deep_view() == grant_body(oid.deep_view(), obj.deep_view(), key.deep_view()),
{
    let mut objs: SortedMap<Oid, SealedObject> = SortedMap::new();
    objs.insert(*oid, obj);
    let mut keys: SortedMap<Oid, ContentKey> = SortedMap::new();
    if let Some(k) = key {
        keys.insert(*oid, k);
    }
    BundleBody { changes: crate::seqs::none(), objs, keys, attestations: crate::seqs::none() }
}

impl DagRepo {
    /// Moves the keys that are due from escrow to the keyring.
    pub fn flush_escrow(&mut self, now: u64)
        ensures
            final(self).deep_view() == (RepoModel {
                keys: promoted(old(self).deep_view().escrow, old(self).deep_view().keys, now),
                escrow: still_held(old(self).deep_view().escrow, now),
                ..old(self).deep_view()
            }),
    {
        self.custody.escrow.flush(&mut self.custody.keyring, now);
    }

    /// The same, under the name that a generic caller uses.
    pub fn flush_embargo(&mut self, now: u64)
        ensures
            final(self).deep_view() == (RepoModel {
                keys: promoted(old(self).deep_view().escrow, old(self).deep_view().keys, now),
                escrow: still_held(old(self).deep_view().escrow, now),
                ..old(self).deep_view()
            }),
    {
        self.flush_escrow(now);
    }

    /// A bundle that gives `grantee` the key at `oid`, recorded in the manifest.
    pub fn grant(&mut self, oid: &Oid, grantee: &str, now: u64, expires_at: Option<u64>) -> (r: Result<
        SyncBundle,
        RepoError,
    >)
        ensures
            match r {
                Ok(b) => granted(old(self).deep_view(), oid.deep_view(), grantee@, now, expires_at) == Ok::<
                    (RepoModel, Seq<u8>),
                    ErrorModel,
                >((final(self).deep_view(), b.deep_view())),
                Err(e) => granted(old(self).deep_view(), oid.deep_view(), grantee@, now, expires_at) == Err::<
                    (RepoModel, Seq<u8>),
                    ErrorModel,
                >(e.deep_view()) && final(self).deep_view() == old(self).deep_view(),
            },
    {
        let key = match self.custody.keyring.key_for(oid) {
            Some(k) => k,
            None => {
                return Err(RepoError::Unauthorized(*oid));
            },
        };
        assert(key.deep_view() =~= key@);
        let obj = self.objects.get(oid)?.dup();
        let body = make_grant_body(oid, obj, Some(key));
        self.custody.manifest.record(
            *oid,
            grantee.to_owned(),
            UNKNOWN_PUBKEY,
            UNKNOWN_PUBKEY,
            now,
            expires_at,
        );
        Ok(SyncBundle(Frame::Grant { grantee: grantee.to_owned(), body }.encode()))
    }

    /// The key that grants are issued with.
    fn key_to_issue(&self, oid: &Oid) -> (r: Option<ContentKey>)
        ensures
            match r {
                Some(k) => issuing_key(self.deep_view(), oid.deep_view()) == Some(k@),
                None => issuing_key(self.deep_view(), oid.deep_view()) is None,
            },
    {
        match self.custody.keyring.key_for(oid) {
            Some(k) => Some(k),
            None => match self.custody.escrow.get(oid) {
                Some(e) => Some(e.key),
                None => None,
            },
        }
    }

    /// A sealed grant with a key that has been wrapped for the recipient.
    pub fn grant_wrapped(
        &mut self,
        oid: &Oid,
        grantee_name: &str,
        grantee_pubkey: [u8; 32],
        grantor_pubkey: [u8; 32],
        reveal_at: u64,
        expires_at: Option<u64>,
        now: u64,
        wrapped_key: [u8; 80],
    ) -> (r: Result<SyncBundle, RepoError>)
        ensures
            ({
                let head = SealedHead {
                    grantee_pubkey: grantee_pubkey@,
                    wrapped_key: wrapped_key@,
                    oid: oid.deep_view(),
                    reveal_at,
                    expires_at,
                };
                let want = granted_sealed(old(self).deep_view(), grantee_name@, grantor_pubkey@, head, now);
                match r {
                    Ok(b) => want == Ok::<(RepoModel, Seq<u8>), ErrorModel>(
                        (final(self).deep_view(), b.deep_view()),
                    ),
                    Err(e) => want == Err::<(RepoModel, Seq<u8>), ErrorModel>(e.deep_view())
                        && final(self).deep_view() == old(self).deep_view(),
                }
            }),
    {
        if self.key_to_issue(oid).is_none() {
            return Err(RepoError::Unauthorized(*oid));
        }
        let obj = self.objects.get(oid)?.dup();
        let body = make_grant_body(oid, obj, None);
        self.custody.manifest.record(
            *oid,
            grantee_name.to_owned(),
            grantee_pubkey,
            grantor_pubkey,
            now,
            expires_at,
        );
        Ok(
            SyncBundle(
                Frame::SealedGrant { grantee_pubkey, wrapped_key, oid: *oid, reveal_at, expires_at, body }.encode(),
            ),
        )
    }

    /// A grant that a relay may carry: the key is wrapped for the recipient by
    /// `seal`. Nonzero `reveal_at` makes it one that a relay withholds until then.
    pub fn grant_sealed<F: FnOnce(&[u8; 32]) -> Result<[u8; 80], RepoError>>(
        &mut self,
        oid: &Oid,
        grantee_name: &str,
        grantee_pubkey: [u8; 32],
        grantor_pubkey: [u8; 32],
        reveal_at: u64,
        expires_at: Option<u64>,
        now: u64,
        seal: F,
    ) -> (r: Result<SyncBundle, RepoError>)
        requires
            forall|k: &[u8; 32]| call_requires(seal, (k,)),
        ensures
            match issuing_key(old(self).deep_view(), oid.deep_view()) {
                None => r is Err && r->Err_0 == RepoError::Unauthorized(*oid) && final(self).deep_view() == old(
                    self,
                ).deep_view(),
                Some(key) => exists|k: &[u8; 32], w: Result<[u8; 80], RepoError>| #[trigger]
                    call_ensures(seal, (k,), w) && k@ == key && match w {
                        Err(e) => r == Err::<SyncBundle, RepoError>(e) && final(self).deep_view() == old(
                            self,
                        ).deep_view(),
                        Ok(wrapped) => {
                            let head = SealedHead {
                                grantee_pubkey: grantee_pubkey@,
                                wrapped_key: wrapped@,
                                oid: oid.deep_view(),
                                reveal_at,
                                expires_at,
                            };
                            let want = granted_sealed(
                                old(self).deep_view(),
                                grantee_name@,
                                grantor_pubkey@,
                                head,
                                now,
                            );
                            match r {
                                Ok(b) => want == Ok::<(RepoModel, Seq<u8>), ErrorModel>(
                                    (final(self).deep_view(), b.deep_view()),
                                ),
                                Err(e) => want == Err::<(RepoModel, Seq<u8>), ErrorModel>(e.deep_view())
                                    && final(self).deep_view() == old(self).deep_view(),
                            }
                        },
                    },
            },
    {
        let key = match self.key_to_issue(oid) {
            Some(k) => k,
            None => {
                return Err(RepoError::Unauthorized(*oid));
            },
        };
        let w = seal(&key);
        assert(call_ensures(seal, (&key,), w));
        match w {
            Ok(wrapped) => self.grant_wrapped(
                oid,
                grantee_name,
                grantee_pubkey,
                grantor_pubkey,
                reveal_at,
                expires_at,
                now,
                wrapped,
            ),
            Err(e) => Err(e),
        }
    }

    /// Takes in a sealed grant that has been opened with `key`.
    fn accept_grant(
        &mut self,
        grantee_pubkey: [u8; 32],
        oid: Oid,
        reveal_at: u64,
        expires_at: Option<u64>,
        body: BundleBody,
        grantor_pubkey: [u8; 32],
        now: u64,
        key: [u8; 32],
        Ghost(head): Ghost<SealedHead>,
    ) -> (r: Result<(), RepoError>)
        requires
            head.grantee_pubkey == grantee_pubkey@,
            head.oid == oid.deep_view(),
            head.reveal_at == reveal_at,
            head.expires_at == expires_at,
        ensures
            match r {
                Ok(_) => accepted(old(self).deep_view(), head, body.deep_view(), grantor_pubkey@, now, key@)
                    == Ok::<RepoModel, ErrorModel>(final(self).deep_view()),
                Err(e) => accepted(old(self).deep_view(), head, body.deep_view(), grantor_pubkey@, now, key@)
                    == Err::<RepoModel, ErrorModel>(e.deep_view()) && final(self).deep_view() == old(
                    self,
                ).deep_view(),
            },
    {
        verify_all(&body.changes)?;
        let ghost m = self.deep_view();
        let none: SortedMap<Oid, ContentKey> = SortedMap::new();
        self.store_all(&body.objs, &none);
        proof {
            super::negotiation::lemma_stored_keeps(
                m,
                pairs_of::<Oid, SealedModel>(body.deep_view().objs),
                Map::empty(),
            );
        }
        if reveal_at > now {
            if !self.custody.escrow.holds(&oid) && !self.custody.keyring.holds(&oid) {
                self.custody.escrow.insert(oid, key, reveal_at);
            }
        } else if !self.custody.keyring.holds(&oid) {
            self.custody.keyring.insert(oid, key);
        }
        let name = self.identity.clone();
        self.custody.manifest.record(oid, name, grantee_pubkey, grantor_pubkey, now, expires_at);
        Ok(())
    }

    /// Takes in a sealed grant with the key that opening it gave.
    pub fn apply_unsealed_grant(&mut self, bundle: &SyncBundle, grantor_pubkey: [u8; 32], now: u64, key: [u8; 32]) -> (r:
        Result<(), RepoError>)
        ensures
            ({
                let want = match standing_grant(bundle.deep_view(), now) {
                    Ok((head, body)) => accepted(old(self).deep_view(), head, body, grantor_pubkey@, now, key@),
                    Err(e) => Err(e),
                };
                match r {
                    Ok(_) => want == Ok::<RepoModel, ErrorModel>(final(self).deep_view()),
                    Err(e) => want == Err::<RepoModel, ErrorModel>(e.deep_view()) && final(self).deep_view()
                        == old(self).deep_view(),
                }
            }),
    {
        match Frame::decode(bundle.0.as_slice())? {
            Frame::SealedGrant { grantee_pubkey, wrapped_key, oid, reveal_at, expires_at, body } => {
                let ghost head = SealedHead {
                    grantee_pubkey: grantee_pubkey@,
                    wrapped_key: wrapped_key@,
                    oid: oid.deep_view(),
                    reveal_at,
                    expires_at,
                };
                if let Some(t) = expires_at {
                    if now >= t {
                        return Err(RepoError::Expired(t));
                    }
                }
                self.accept_grant(
                    grantee_pubkey,
                    oid,
                    reveal_at,
                    expires_at,
                    body,
                    grantor_pubkey,
                    now,
                    key,
                    Ghost(head),
                )
            },
            _ => Err(RepoError::Backend("not a sealed-key grant bundle (tag 3)".to_owned())),
        }
    }

    /// Takes in a sealed grant. `unseal` opens the wrapped key; where it fails, the
    /// grant was not for us. An expired grant is refused before it is opened.
    pub fn apply_sealed_grant<F: FnOnce(&[u8; 80]) -> Result<[u8; 32], RepoError>>(
        &mut self,
        bundle: &SyncBundle,
        grantor_pubkey: [u8; 32],
        now: u64,
        unseal: F,
    ) -> (r: Result<(), RepoError>)
        requires
            forall|w: &[u8; 80]| call_requires(unseal, (w,)),
        ensures
            match standing_grant(bundle.deep_view(), now) {
                Err(e) => r is Err && r->Err_0.deep_view() == e && final(self).deep_view() == old(self).deep_view(),
                Ok((head, body)) => exists|w: &[u8; 80], k: Result<[u8; 32], RepoError>| #[trigger]
                    call_ensures(unseal, (w,), k) && w@ == head.wrapped_key && match k {
                        Err(e) => r == Err::<(), RepoError>(e) && final(self).deep_view() == old(self).deep_view(),
                        Ok(key) => {
                            let want = accepted(
                                old(self).deep_view(),
                                head,
                                body,
                                grantor_pubkey@,
                                now,
                                key@,
                            );
                            match r {
                                Ok(_) => want == Ok::<RepoModel, ErrorModel>(final(self).deep_view()),
                                Err(e) => want == Err::<RepoModel, ErrorModel>(e.deep_view())
                                    && final(self).deep_view() == old(self).deep_view(),
                            }
                        },
                    },
            },
    {
        match Frame::decode(bundle.0.as_slice())? {
            Frame::SealedGrant { grantee_pubkey, wrapped_key, oid, reveal_at, expires_at, body } => {
                let ghost head = SealedHead {
                    grantee_pubkey: grantee_pubkey@,
                    wrapped_key: wrapped_key@,
                    oid: oid.deep_view(),
                    reveal_at,
                    expires_at,
                };
                if let Some(t) = expires_at {
                    if now >= t {
                        return Err(RepoError::Expired(t));
                    }
                }
                let k = unseal(&wrapped_key);
                assert(call_ensures(unseal, (&wrapped_key,), k));
                match k {
                    Ok(key) => self.accept_grant(
                        grantee_pubkey,
                        oid,
                        reveal_at,
                        expires_at,
                        body,
                        grantor_pubkey,
                        now,
                        key,
                        Ghost(head),
                    ),
                    Err(e) => Err(e),
                }
            },
            _ => Err(RepoError::Backend("not a sealed-key grant bundle (tag 3)".to_owned())),
        }
    }

    /// The record of who was granted what.
    pub fn manifest(&self) -> (r: &Manifest)
        ensures
            r.deep_view() == self.deep_view().manifest,
    {
        &self.custody.manifest
    }

    /// The key at an address, if it is held.
    pub fn content_key_for(&self, oid: &Oid) -> (r: Option<[u8; 32]>)
        ensures
            match r {
                Some(k) => self.deep_view().keys.contains_key(oid.deep_view())
                    && self.deep_view().keys[oid.deep_view()] == k@,
                None => !self.deep_view().keys.contains_key(oid.deep_view()),
            },
    {
        self.custody.keyring.key_for(oid)
    }
}

// ---------------------------------------------------------------------------
// Cutting off
// ---------------------------------------------------------------------------

/// The content at a path that is to be sealed anew: its address, visibility and
/// plaintext. Only who can read it can seal it anew.
pub open spec fn reseal_source(m: RepoModel, path: Seq<char>, now: u64) -> Result<
    (Id, VisibilityModel, Seq<u8>),
    ErrorModel,
> {
    let t = tree_of(m.graph.changes);
    let p = normal_path(path);
    if !t.contains_key(p) {
        Err(ErrorModel::NotFound(zero_oid()))
    } else {
        match got(m, t[p].v.0, m.identity, now) {
            Ok(b) => Ok((t[p].v.0, t[p].v.1, b)),
            Err(_) => Err(ErrorModel::Unauthorized(t[p].v.0)),
        }
    }
}

/// Being another identity.
pub open spec fn other_name(who: Seq<char>) -> spec_fn(Seq<char>) -> bool {
    |id: Seq<char>| id != who
}

/// What sealing content anew needs fresh: the content sealed, and a change id.
pub open spec fn sealed_anew(
    m: RepoModel,
    bytes: Seq<u8>,
    vis: VisibilityModel,
    s: Sealing,
    cid: Option<Seq<u8>>,
) -> bool {
    seals(bytes, vis, s) && fresh_for(m, cid)
}

/// A visibility without an identity.
pub open spec fn without_identity(vis: VisibilityModel, who: Seq<char>) -> VisibilityModel {
    match vis {
        VisibilityModel::Restricted(ids) => VisibilityModel::Restricted(ids.filter(other_name(who))),
        _ => vis,
    }
}

/// Grants of one key to several identities in turn, each with its expiry.
pub open spec fn granted_all(m: RepoModel, oid: Id, to: Seq<(Seq<char>, Option<u64>)>, now: u64) -> (
    RepoModel,
    Seq<(Seq<char>, Seq<u8>)>,
)
    decreases to.len(),
{
    if to.len() == 0 {
        (m, Seq::empty())
    } else {
        let (m1, bs) = granted_all(m, oid, to.drop_last(), now);
        match granted(m1, oid, to.last().0, now, to.last().1) {
            Ok((m2, b)) => (m2, bs.push((to.last().0, b))),
            Err(_) => (m1, bs),
        }
    }
}

/// Those who were granted an object, but for one identity and ourselves.
pub open spec fn remaining_grantees(m: RepoModel, oid: Id, who: Seq<char>) -> Seq<(Seq<char>, Option<u64>)> {
    grants_for_object(m.manifest, oid).filter(
        |g: GrantModel| g.grantee != who && g.grantee != m.identity,
    ).map_values(|g: GrantModel| (g.grantee, g.expires_at))
}

/// The change that points a path at content sealed anew.
pub open spec fn repointed(m: RepoModel, message: Seq<char>, path: Seq<char>, vis: VisibilityModel, s: Sealing) -> ChangeModel {
    ChangeModel {
        parents: m.graph.heads,
        message,
        tree: put_at(tree_of(m.graph.changes), path, (s.addr, vis)),
    }
}

/// The change that cuts an identity off from a path.
pub open spec fn maroon_change(m: RepoModel, path: Seq<char>, who: Seq<char>, s: Sealing) -> ChangeModel {
    repointed(
        m,
        "maroon "@ + who + " from "@ + path,
        path,
        without_identity(tree_of(m.graph.changes)[normal_path(path)].v.1, who),
        s,
    )
}

/// An identity cut off from a path, with the content sealed anew: the repository,
/// and the grants for those who stay. Cutting off hard leaves a purge besides.
pub open spec fn marooned(
    m: RepoModel,
    path: Seq<char>,
    who: Seq<char>,
    now: u64,
    hard: bool,
    s: Sealing,
    cid: Option<Seq<u8>>,
) -> (RepoModel, Seq<(Seq<char>, Seq<u8>)>) {
    let old_oid = tree_of(m.graph.changes)[normal_path(path)].v.0;
    let m1 = with_content(m, s);
    let m2 = if hard {
        RepoModel { purges: m.purges.push((old_oid, who)), ..m1 }
    } else {
        m1
    };
    let m3 = recorded(m2, maroon_change(m, path, who, s), cid, Seq::empty());
    granted_all(m3, s.addr, remaining_grantees(m, old_oid, who), now)
}

/// The model of bundles with their recipients.
pub open spec fn addressed(v: Seq<(String, SyncBundle)>) -> Seq<(Seq<char>, Seq<u8>)> {
    v.map_values(|p: (String, SyncBundle)| (p.0@, p.1.deep_view()))
}

/// What cutting off leaves to do: bundles to forward, and a change to sign.
#[derive(Debug)]
pub struct MaroonResult {
    pub new_oid: Oid,
    pub grants: Vec<(String, SyncBundle)>,
    /// The recorded change. It travels once it is signed.
    pub change_id: Oid,
}

/// What changing a path's visibility leaves to do: bundles to forward.
#[derive(Debug)]
pub struct MigrateResult {
    pub new_oid: Oid,
    pub grants: Vec<(String, SyncBundle)>,
}

/// Texts in quotes, separated by commas.
pub open spec fn quoted_list(ids: Seq<Seq<char>>) -> Seq<char>
    decreases ids.len(),
{
    if ids.len() == 0 {
        Seq::empty()
    } else if ids.len() == 1 {
        debug_text(ids[0])
    } else {
        quoted_list(ids.drop_last()) + ", "@ + debug_text(ids.last())
    }
}

/// How a visibility is shown in a message.
pub open spec fn vis_text(vis: VisibilityModel) -> Seq<char> {
    match vis {
        VisibilityModel::Public => "Public"@,
        VisibilityModel::Restricted(ids) => "Restricted(["@ + quoted_list(ids) + "])"@,
        VisibilityModel::Embargoed { reveal_at } => "Embargoed { reveal_at: "@ + decimal(reveal_at as nat)
            + " }"@,
    }
}

fn text_of_vis(vis: &Visibility) -> (r: String)
    ensures
        r@ == vis_text(vis.deep_view()),
{
    match vis {
        Visibility::Public => "Public".to_owned(),
        Visibility::Restricted(ids) => {
            let ghost all = ids.deep_view();
            let mut t = "Restricted([".to_owned();
            let ghost head = t@;
            let mut i: usize = 0;
            assert(t@ =~= head + quoted_list(all.take(0)));
            while i < ids.len()
                invariant
                    0 <= i <= ids@.len(),
                    all == ids.deep_view(),
                    t@ == head + quoted_list(all.take(i as int)),
                decreases ids@.len() - i,
            {
                let ghost had = t@;
                if i > 0 {
                    push_text(&mut t, ", ");
                }
                let d = debug_of(ids[i].as_str());
                push_text(&mut t, d.as_str());
                proof {
                    let next = all.take(i as int + 1);
                    assert(next.drop_last() =~= all.take(i as int));
                    assert(next.last() == ids@[i as int]@);
                    assert(t@ =~= head + quoted_list(next));
                }
                i = i + 1;
            }
            assert(all.take(all.len() as int) =~= all);
            push_text(&mut t, "])");
            t
        },
        Visibility::Embargoed { reveal_at } => {
            let mut t = "Embargoed { reveal_at: ".to_owned();
            push_decimal(&mut t, *reveal_at);
            push_text(&mut t, " }");
            t
        },
    }
}

/// The change that gives a path another visibility.
pub open spec fn migrate_change(m: RepoModel, path: Seq<char>, vis: VisibilityModel, s: Sealing) -> ChangeModel {
    repointed(m, "migrate "@ + path + " to "@ + vis_text(vis), path, vis, s)
}

/// Those whom a visibility lists, but for ourselves, with no expiry.
pub open spec fn newly_granted(m: RepoModel, vis: VisibilityModel) -> Seq<(Seq<char>, Option<u64>)> {
    match vis {
        VisibilityModel::Restricted(ids) => ids.filter(other_name(m.identity)).map_values(
            |id: Seq<char>| (id, None::<u64>),
        ),
        _ => Seq::empty(),
    }
}

/// A path given another visibility, with the content sealed anew: the repository,
/// and the grants for those who are listed.
pub open spec fn migrated(
    m: RepoModel,
    path: Seq<char>,
    vis: VisibilityModel,
    now: u64,
    s: Sealing,
    cid: Option<Seq<u8>>,
) -> (RepoModel, Seq<(Seq<char>, Seq<u8>)>) {
    let m1 = recorded(with_content(m, s), migrate_change(m, path, vis, s), cid, Seq::empty());
    granted_all(m1, s.addr, newly_granted(m, vis), now)
}

/// The identities but for one.
fn all_but_name(ids: &Vec<String>, who: &str) -> (r: Vec<String>)
    ensures
        r.deep_view() == ids.deep_view().filter(other_name(who@)),
{
    let ghost s = ids.deep_view();
    let ghost f = other_name(who@);
    let mut r: Vec<String> = crate::seqs::none();
    let mut i: usize = 0;
    proof {
        lemma_filter_none(s, f);
    }
    while i < ids.len()
        invariant
            0 <= i <= ids@.len(),
            s == ids.deep_view(),
            f == other_name(who@),
            r.deep_view() == s.take(i as int).filter(f),
        decreases ids@.len() - i,
    {
        proof {
            lemma_filter_step(s, i as int, f);
        }
        if !same_text(ids[i].as_str(), who) {
            crate::seqs::push(&mut r, ids[i].clone());
        }
        i = i + 1;
    }
    assert(s.take(s.len() as int) =~= s);
    r
}

impl DagRepo {
    /// The content at a path that is to be sealed anew.
    fn source(&self, path: &RepoPath, now: u64) -> (r: Result<(Oid, Visibility, Vec<u8>), RepoError>)
        ensures
            match r {
                Ok((oid, vis, b)) => reseal_source(self.deep_view(), path.deep_view(), now) == Ok::<
                    (Id, VisibilityModel, Seq<u8>),
                    ErrorModel,
                >((oid.deep_view(), vis.deep_view(), b@)),
                Err(e) => reseal_source(self.deep_view(), path.deep_view(), now) == Err::<
                    (Id, VisibilityModel, Seq<u8>),
                    ErrorModel,
                >(e.deep_view()),
            },
    {
        let tree = self.graph.current_tree();
        match tree.get(path) {
            Some(e) => match self.get(&e.0, self.identity.as_str(), now) {
                Ok(b) => Ok((e.0, e.1.dup(), b)),
                Err(_) => Err(RepoError::Unauthorized(e.0)),
            },
            None => Err(RepoError::NotFound(Oid::zero())),
        }
    }

    /// Grants one key to several identities in turn.
    fn grant_all(&mut self, oid: &Oid, to: &Vec<(String, Option<u64>)>, now: u64) -> (r: Vec<(String, SyncBundle)>)
        ensures
            granted_all(old(self).deep_view(), oid.deep_view(), to.deep_view(), now) == (
                final(self).deep_view(),
                addressed(r@),
            ),
    {
        let ghost m = self.deep_view();
        let ghost all = to.deep_view();
        let mut r: Vec<(String, SyncBundle)> = Vec::new();
        let mut i: usize = 0;
        proof {
            assert(all.take(0) =~= Seq::<(Seq<char>, Option<u64>)>::empty());
            assert(addressed(r@) =~= Seq::<(Seq<char>, Seq<u8>)>::empty());
        }
        while i < to.len()
            invariant
                0 <= i <= to@.len(),
                all == to.deep_view(),
                granted_all(m, oid.deep_view(), all.take(i as int), now) == (self.deep_view(), addressed(r@)),
            decreases to@.len() - i,
        {
            proof {
                assert(all.take(i as int + 1).drop_last() =~= all.take(i as int));
                assert(all.take(i as int + 1).last() == to@[i as int].deep_view());
                assert(to@[i as int].1.deep_view() == to@[i as int].1);
            }
            let ghost had = r@;
            if let Ok(b) = self.grant(oid, to[i].0.as_str(), now, to[i].1) {
                r.push((to[i].0.clone(), b));
                assert(addressed(r@) =~= addressed(had).push((to@[i as int].0@, b.deep_view())));
            }
            i = i + 1;
        }
        assert(all.take(all.len() as int) =~= all);
        r
    }

    /// Those who were granted an object, but for one identity and ourselves.
    fn remaining(&self, oid: &Oid, who: &str) -> (r: Vec<(String, Option<u64>)>)
        ensures
            r.deep_view() == remaining_grantees(self.deep_view(), oid.deep_view(), who@),
    {
        let entries = self.custody.manifest.grants_for(oid);
        let ghost s = entries.deep_view();
        let ghost me = self.deep_view().identity;
        let ghost f = |g: GrantModel| g.grantee != who@ && g.grantee != me;
        let ghost h = |g: GrantModel| (g.grantee, g.expires_at);
        let mut r: Vec<(String, Option<u64>)> = crate::seqs::none();
        let mut i: usize = 0;
        proof {
            lemma_filter_none(s, f);
            assert(r.deep_view() =~= s.take(0).filter(f).map_values(h));
        }
        while i < entries.len()
            invariant
                0 <= i <= entries@.len(),
                s == entries.deep_view(),
                me == self.deep_view().identity,
                f == (|g: GrantModel| g.grantee != who@ && g.grantee != me),
                h == (|g: GrantModel| (g.grantee, g.expires_at)),
                r.deep_view() == s.take(i as int).filter(f).map_values(h),
            decreases entries@.len() - i,
        {
            let e = &entries[i];
            proof {
                lemma_filter_step(s, i as int, f);
                assert(s[i as int] == e.deep_view());
            }
            if !same_text(e.grantee.as_str(), who) && !same_text(e.grantee.as_str(), self.identity.as_str()) {
                let row = (e.grantee.clone(), e.expires_at);
                proof {
                    assert(row.deep_view() == h(s[i as int]));
                    let x = s.take(i as int).filter(f);
                    assert(x.push(s[i as int]).map_values(h) =~= x.map_values(h).push(h(s[i as int])));
                }
                crate::seqs::push(&mut r, row);
            }
            i = i + 1;
        }
        assert(s.take(s.len() as int) =~= s);
        r
    }

    /// Cuts an identity off from a path whose content has been sealed anew.
    pub fn maroon_sealed(
        &mut self,
        path: &RepoPath,
        marooned_id: &str,
        now: u64,
        hard: bool,
        s: Sealed,
        change_id: Option<[u8; 16]>,
    ) -> (r: Result<MaroonResult, RepoError>)
        ensures
            match r {
                Ok(x) => {
                    &&& reseal_source(old(self).deep_view(), path.deep_view(), now) is Ok
                    &&& x.new_oid == s.0
                    &&& x.change_id.deep_view() == id_here(
                        old(self).deep_view(),
                        maroon_change(old(self).deep_view(), path.deep_view(), marooned_id@, sealing(s)),
                    )
                    &&& marooned(
                        old(self).deep_view(),
                        path.deep_view(),
                        marooned_id@,
                        now,
                        hard,
                        sealing(s),
                        change_id.deep_view(),
                    ) == (final(self).deep_view(), addressed(x.grants@))
                },
                Err(e) => reseal_source(old(self).deep_view(), path.deep_view(), now) == Err::<
                    (Id, VisibilityModel, Seq<u8>),
                    ErrorModel,
                >(e.deep_view()) && final(self).deep_view() == old(self).deep_view(),
            },
    {
        let (old_oid, old_vis, _) = self.source(path, now)?;
        let ghost m = self.deep_view();
        let ghost sm = sealing(s);
        let new_vis = match &old_vis {
            Visibility::Restricted(ids) => Visibility::Restricted(all_but_name(ids, marooned_id)),
            other => other.dup(),
        };
        assert(new_vis.deep_view() == without_identity(old_vis.deep_view(), marooned_id@));
        let grantees = self.remaining(&old_oid, marooned_id);
        let new_oid = self.put_sealed(s);
        if hard {
            crate::seqs::push(&mut self.custody.purges, (old_oid, marooned_id.to_owned()));
        }
        let mut tree = self.graph.current_tree();
        tree.insert(path.dup(), (new_oid, new_vis));
        let mut message = "maroon ".to_owned();
        push_text(&mut message, marooned_id);
        push_text(&mut message, " from ");
        push_text(&mut message, path.as_str());
        let change = Change { id: Oid::zero(), parents: self.graph.heads(), message, tree };
        assert(change_model(change) == maroon_change(m, path.deep_view(), marooned_id@, sm));
        let change_id = self.record_as(change, change_id);
        let grants = self.grant_all(&new_oid, &grantees, now);
        Ok(MaroonResult { new_oid, grants, change_id })
    }

    fn maroon_inner(&mut self, path: &RepoPath, marooned_id: &str, now: u64, hard: bool) -> (r: Result<
        MaroonResult,
        RepoError,
    >)
        ensures
            match r {
                Ok(x) => is_marooning(
                    old(self).deep_view(),
                    path.deep_view(),
                    marooned_id@,
                    now,
                    hard,
                    final(self).deep_view(),
                    x,
                ),
                Err(e) => {
                    &&& final(self).deep_view() == old(self).deep_view()
                    &&& reseal_source(old(self).deep_view(), path.deep_view(), now) matches Err(x)
                        ==> e.deep_view() == x
                    &&& reseal_source(old(self).deep_view(), path.deep_view(), now) is Ok ==> e is Backend
                },
            },
    {
        let (_, old_vis, plaintext) = self.source(path, now)?;
        assert(reseal_source(self.deep_view(), path.deep_view(), now)->Ok_0.2 == plaintext@);
        assert(reseal_source(self.deep_view(), path.deep_view(), now)->Ok_0.1 == old_vis.deep_view());
        let new_vis = match &old_vis {
            Visibility::Restricted(ids) => Visibility::Restricted(all_but_name(ids, marooned_id)),
            other => other.dup(),
        };
        assert(new_vis.deep_view() == without_identity(old_vis.deep_view(), marooned_id@));
        let s = seal(plaintext.as_slice(), &new_vis)?;
        let cid = self.fresh_change_id()?;
        assert(sealed_anew(self.deep_view(), plaintext@, new_vis.deep_view(), sealing(s), cid.deep_view()));
        let ghost sm = sealing(s);
        let r = self.maroon_sealed(path, marooned_id, now, hard, s, cid);
        proof {
            assert(r matches Ok(x) ==> sm.addr == x.new_oid.deep_view());
        }
        r
    }

    /// Cuts an identity off from a path: the content is sealed anew without it, and
    /// those who stay get grants. The old key is not taken away.
    pub fn maroon(&mut self, path: &RepoPath, marooned_id: &str, now: u64) -> (r: Result<MaroonResult, RepoError>)
        ensures
            match r {
                Ok(x) => is_marooning(
                    old(self).deep_view(),
                    path.deep_view(),
                    marooned_id@,
                    now,
                    false,
                    final(self).deep_view(),
                    x,
                ),
                Err(e) => {
                    &&& final(self).deep_view() == old(self).deep_view()
                    &&& reseal_source(old(self).deep_view(), path.deep_view(), now) matches Err(x)
                        ==> e.deep_view() == x
                    &&& reseal_source(old(self).deep_view(), path.deep_view(), now) is Ok ==> e is Backend
                },
            },
    {
        self.maroon_inner(path, marooned_id, now, false)
    }

    /// The same, and asks others to drop the identity's old key.
    pub fn maroon_hard(&mut self, path: &RepoPath, marooned_id: &str, now: u64) -> (r: Result<MaroonResult, RepoError>)
        ensures
            match r {
                Ok(x) => is_marooning(
                    old(self).deep_view(),
                    path.deep_view(),
                    marooned_id@,
                    now,
                    true,
                    final(self).deep_view(),
                    x,
                ),
                Err(e) => {
                    &&& final(self).deep_view() == old(self).deep_view()
                    &&& reseal_source(old(self).deep_view(), path.deep_view(), now) matches Err(x)
                        ==> e.deep_view() == x
                    &&& reseal_source(old(self).deep_view(), path.deep_view(), now) is Ok ==> e is Backend
                },
            },
    {
        self.maroon_inner(path, marooned_id, now, true)
    }

    /// Those whom a visibility lists, but for ourselves.
    fn listed(&self, vis: &Visibility) -> (r: Vec<(String, Option<u64>)>)
        ensures
            r.deep_view() == newly_granted(self.deep_view(), vis.deep_view()),
    {
        let mut r: Vec<(String, Option<u64>)> = crate::seqs::none();
        match vis {
            Visibility::Restricted(ids) => {
                let names = all_but_name(ids, self.identity.as_str());
                let ghost s = names.deep_view();
                let ghost h = |id: Seq<char>| (id, None::<u64>);
                let mut i: usize = 0;
                assert(r.deep_view() =~= s.take(0).map_values(h));
                while i < names.len()
                    invariant
                        0 <= i <= names@.len(),
                        s == names.deep_view(),
                        h == (|id: Seq<char>| (id, None::<u64>)),
                        r.deep_view() == s.take(i as int).map_values(h),
                    decreases names@.len() - i,
                {
                    let row = (names[i].clone(), None);
                    assert(row.deep_view() == h(s[i as int]));
                    crate::seqs::push(&mut r, row);
                    assert(r.deep_view() =~= s.take(i as int + 1).map_values(h));
                    i = i + 1;
                }
                assert(s.take(s.len() as int) =~= s);
            },
            _ => {},
        }
        r
    }

    /// Gives a path another visibility, with the content sealed anew.
    pub fn migrate_sealed(
        &mut self,
        path: &RepoPath,
        new_vis: Visibility,
        now: u64,
        s: Sealed,
        change_id: Option<[u8; 16]>,
    ) -> (r: Result<MigrateResult, RepoError>)
        ensures
            match r {
                Ok(x) => {
                    &&& reseal_source(old(self).deep_view(), path.deep_view(), now) is Ok
                    &&& x.new_oid == s.0
                    &&& migrated(
                        old(self).deep_view(),
                        path.deep_view(),
                        new_vis.deep_view(),
                        now,
                        sealing(s),
                        change_id.deep_view(),
                    ) == (final(self).deep_view(), addressed(x.grants@))
                },
                Err(e) => reseal_source(old(self).deep_view(), path.deep_view(), now) == Err::<
                    (Id, VisibilityModel, Seq<u8>),
                    ErrorModel,
                >(e.deep_view()) && final(self).deep_view() == old(self).deep_view(),
            },
    {
        let _ = self.source(path, now)?;
        let ghost m = self.deep_view();
        let ghost sm = sealing(s);
        let grantees = self.listed(&new_vis);
        let mut message = "migrate ".to_owned();
        push_text(&mut message, path.as_str());
        push_text(&mut message, " to ");
        let vis_words = text_of_vis(&new_vis);
        push_text(&mut message, vis_words.as_str());
        let ghost vm = new_vis.deep_view();
        let new_oid = self.put_sealed(s);
        let mut tree = self.graph.current_tree();
        tree.insert(path.dup(), (new_oid, new_vis));
        let change = Change { id: Oid::zero(), parents: self.graph.heads(), message, tree };
        assert(change_model(change) == migrate_change(m, path.deep_view(), vm, sm));
        let _ = self.record_as(change, change_id);
        let grants = self.grant_all(&new_oid, &grantees, now);
        Ok(MigrateResult { new_oid, grants })
    }

    /// Gives a path another visibility: the content is sealed anew, and those who
    /// are listed get grants.
    pub fn migrate(&mut self, path: &RepoPath, new_vis: Visibility, now: u64) -> (r: Result<
        MigrateResult,
        RepoError,
    >)
        ensures
            match r {
                Ok(x) => {
                    &&& reseal_source(old(self).deep_view(), path.deep_view(), now) is Ok
                    &&& exists|s: Sealing, cid: Option<Seq<u8>>| #[trigger]
                        sealed_anew(
                            old(self).deep_view(),
                            reseal_source(old(self).deep_view(), path.deep_view(), now)->Ok_0.2,
                            new_vis.deep_view(),
                            s,
                            cid,
                        ) && s.addr == x.new_oid.deep_view()
                            && migrated(
                            old(self).deep_view(),
                            path.deep_view(),
                            new_vis.deep_view(),
                            now,
                            s,
                            cid,
                        ) == (final(self).deep_view(), addressed(x.grants@))
                },
                Err(e) => {
                    &&& final(self).deep_view() == old(self).deep_view()
                    &&& reseal_source(old(self).deep_view(), path.deep_view(), now) matches Err(x)
                        ==> e.deep_view() == x
                    &&& reseal_source(old(self).deep_view(), path.deep_view(), now) is Ok ==> e is Backend
                },
            },
    {
        let (_, _, plaintext) = self.source(path, now)?;
        assert(reseal_source(self.deep_view(), path.deep_view(), now)->Ok_0.2 == plaintext@);
        let s = seal(plaintext.as_slice(), &new_vis)?;
        let cid = self.fresh_change_id()?;
        assert(sealed_anew(self.deep_view(), plaintext@, new_vis.deep_view(), sealing(s), cid.deep_view()));
        let ghost sm = sealing(s);
        let r = self.migrate_sealed(path, new_vis, now, s, cid);
        proof {
            assert(r matches Ok(x) ==> sm.addr == x.new_oid.deep_view());
        }
        r
    }
}

/// The content was sealed anew without the identity, and all else followed.
pub open spec fn is_marooning(
    m: RepoModel,
    path: Seq<char>,
    who: Seq<char>,
    now: u64,
    hard: bool,
    after: RepoModel,
    x: MaroonResult,
) -> bool {
    &&& reseal_source(m, path, now) is Ok
    &&& exists|s: Sealing, cid: Option<Seq<u8>>| #[trigger]
        sealed_anew(
            m,
            reseal_source(m, path, now)->Ok_0.2,
            without_identity(reseal_source(m, path, now)->Ok_0.1, who),
            s,
            cid,
        ) && s.addr == x.new_oid.deep_view() && x.change_id.deep_view()
            == id_here(m, maroon_change(m, path, who, s)) && marooned(m, path, who, now, hard, s, cid) == (
            after,
            addressed(x.grants@),
        )
}

// ---------------------------------------------------------------------------
// Reading out
// ---------------------------------------------------------------------------

/// A reader's own grant of an object is recorded and has expired.
pub open spec fn grant_expired(m: RepoModel, oid: Id, reader: Seq<char>, now: u64) -> bool {
    m.manifest.contains_key((oid, reader)) && lapsed(m.manifest[(oid, reader)], now)
}

/// What a reader gets of a tree: the files that they may read, and how many they
/// may not. A burned object counts as one that nobody may read.
pub open spec fn surfaced(
    m: RepoModel,
    s: Seq<(Seq<char>, Placed<(Id, VisibilityModel)>)>,
    reader: Seq<char>,
    now: u64,
) -> Result<(Seq<(Seq<char>, VisibilityModel, Seq<u8>)>, nat), ErrorModel>
    decreases s.len(),
{
    if s.len() == 0 {
        Ok((Seq::empty(), 0))
    } else {
        match surfaced(m, s.drop_last(), reader, now) {
            Ok((files, skipped)) => {
                let path = s.last().1.text;
                let (oid, vis) = s.last().1.v;
                if grant_expired(m, oid, reader, now) || (m.burns.contains_key(oid)
                    && !m.objects.contains_key(oid)) {
                    Ok((files, skipped + 1))
                } else {
                    match got(m, oid, reader, now) {
                        Ok(b) => Ok((files.push((path, vis, b)), skipped)),
                        Err(e) => if e is Unauthorized || e is Embargoed {
                            Ok((files, skipped + 1))
                        } else {
                            Err(e)
                        },
                    }
                }
            },
            Err(e) => Err(e),
        }
    }
}

/// A change's tree for a reader.
pub open spec fn surfaced_change(m: RepoModel, change: Id, reader: Seq<char>, now: u64) -> Result<
    (Seq<(Seq<char>, VisibilityModel, Seq<u8>)>, nat),
    ErrorModel,
> {
    if m.graph.changes.contains_key(change) {
        surfaced(
            m,
            pairs_of::<PathKey, Placed<(Id, VisibilityModel)>>(m.graph.changes[change].tree),
            reader,
            now,
        )
    } else {
        Err(ErrorModel::NotFound(change))
    }
}

/// A file to write: path, visibility, content.
pub type Surfaced = (RepoPath, Visibility, Vec<u8>);

proof fn lemma_surfaced_error(
    m: RepoModel,
    s: Seq<(Seq<char>, Placed<(Id, VisibilityModel)>)>,
    reader: Seq<char>,
    now: u64,
    i: int,
)
    requires
        0 <= i <= s.len(),
        surfaced(m, s.take(i), reader, now) is Err,
    ensures
        surfaced(m, s, reader, now) == surfaced(m, s.take(i), reader, now),
    decreases s.len() - i,
{
    if i < s.len() {
        assert(s.take(i + 1).drop_last() =~= s.take(i));
        lemma_surfaced_error(m, s, reader, now, i + 1);
    } else {
        assert(s.take(i) =~= s);
    }
}

/// An embargoed path whose key is here: path, address, reveal time.
pub open spec fn embargoed_in(m: RepoModel, s: Seq<(Seq<char>, Placed<(Id, VisibilityModel)>)>) -> Seq<
    (Seq<char>, Id, u64),
> {
    s.filter(
        |p: (Seq<char>, Placed<(Id, VisibilityModel)>)|
            p.1.v.1 is Embargoed && (m.keys.contains_key(p.1.v.0) || m.escrow.contains_key(p.1.v.0)),
    ).map_values(|p: (Seq<char>, Placed<(Id, VisibilityModel)>)| (p.1.text, p.1.v.0, p.1.v.1->reveal_at))
}

impl DagRepo {
    /// Whether a reader's own grant of an object has expired. No record is no
    /// expiry.
    pub fn grant_expired_for(&self, oid: &Oid, reader: &str, now: u64) -> (b: bool)
        ensures
            b == grant_expired(self.deep_view(), oid.deep_view(), reader@, now),
    {
        match self.custody.manifest.grant_for(oid, reader) {
            Some(g) => g.is_expired(now),
            None => false,
        }
    }

    /// The files of a change that `reader` may read now, and how many they may not.
    pub fn surface_with_report(&self, change: &Oid, reader: &str, now: u64) -> (r: Result<
        (Vec<Surfaced>, usize),
        RepoError,
    >)
        ensures
            match r {
                Ok((files, skipped)) => surfaced_change(self.deep_view(), change.deep_view(), reader@, now)
                    == Ok::<(Seq<(Seq<char>, VisibilityModel, Seq<u8>)>, nat), ErrorModel>(
                    (files.deep_view(), skipped as nat),
                ),
                Err(e) => surfaced_change(self.deep_view(), change.deep_view(), reader@, now) == Err::<
                    (Seq<(Seq<char>, VisibilityModel, Seq<u8>)>, nat),
                    ErrorModel,
                >(e.deep_view()),
            },
    {
        let ghost m = self.deep_view();
        let node = match self.graph.get(change) {
            Some(n) => n,
            None => {
                return Err(RepoError::NotFound(*change));
            },
        };
        let n: usize = node.tree.len();
        let ghost s = node.tree.pairs();
        let mut files: Vec<Surfaced> = crate::seqs::none();
        let mut skipped: usize = 0;
        let mut i: usize = 0;
        assert(s.take(0) =~= Seq::<(Seq<char>, Placed<(Id, VisibilityModel)>)>::empty());
        while i < n
            invariant
                0 <= i <= n,
                n == s.len(),
                s == node.tree.pairs(),
                m == self.deep_view(),
                s == pairs_of::<PathKey, Placed<(Id, VisibilityModel)>>(m.graph.changes[change.deep_view()].tree),
                m.graph.changes.contains_key(change.deep_view()),
                skipped <= i,
                surfaced(m, s.take(i as int), reader@, now) == Ok::<
                    (Seq<(Seq<char>, VisibilityModel, Seq<u8>)>, nat),
                    ErrorModel,
                >((files.deep_view(), skipped as nat)),
            decreases n - i,
        {
            let path = node.tree.path_at(i);
            let entry = node.tree.value_at(i);
            proof {
                assert(s.take(i as int + 1).drop_last() =~= s.take(i as int));
                assert(s.take(i as int + 1).last() == s[i as int]);
            }
            if self.grant_expired_for(&entry.0, reader, now) || (self.burn_log.contains(&entry.0)
                && !self.objects.holds(&entry.0)) {
                skipped = skipped + 1;
            } else {
                match self.get(&entry.0, reader, now) {
                    Ok(b) => {
                        assert(b.deep_view() =~= b@);
                        crate::seqs::push(&mut files, (path.dup(), entry.1.dup(), b));
                    },
                    Err(RepoError::Unauthorized(_)) => {
                        skipped = skipped + 1;
                    },
                    Err(RepoError::Embargoed(_)) => {
                        skipped = skipped + 1;
                    },
                    Err(e) => {
                        proof {
                            lemma_surfaced_error(m, s, reader@, now, i as int + 1);
                        }
                        return Err(e);
                    },
                }
            }
            i = i + 1;
        }
        assert(s.take(s.len() as int) =~= s);
        Ok((files, skipped))
    }

    /// The files of a change that `reader` may read now.
    pub fn surface(&self, change: &Oid, reader: &str, now: u64) -> (r: Result<Vec<Surfaced>, RepoError>)
        ensures
            match r {
                Ok(files) => surfaced_change(self.deep_view(), change.deep_view(), reader@, now) matches Ok(x)
                    && x.0 == files.deep_view(),
                Err(e) => surfaced_change(self.deep_view(), change.deep_view(), reader@, now) == Err::<
                    (Seq<(Seq<char>, VisibilityModel, Seq<u8>)>, nat),
                    ErrorModel,
                >(e.deep_view()),
            },
    {
        let (files, _) = self.surface_with_report(change, reader, now)?;
        Ok(files)
    }

    /// The embargoed paths of the current tree whose key is here, on the keyring or
    /// in escrow.
    pub fn embargoed_paths(&self) -> (r: Vec<(RepoPath, Oid, u64)>)
        ensures
            r.deep_view() == embargoed_in(
                self.deep_view(),
                pairs_of::<PathKey, Placed<(Id, VisibilityModel)>>(tree_of(self.deep_view().graph.changes)),
            ),
    {
        let ghost m = self.deep_view();
        let tree = self.graph.current_tree();
        let n: usize = tree.len();
        let ghost s = tree.pairs();
        let ghost f = |p: (Seq<char>, Placed<(Id, VisibilityModel)>)|
            p.1.v.1 is Embargoed && (m.keys.contains_key(p.1.v.0) || m.escrow.contains_key(p.1.v.0));
        let ghost h = |p: (Seq<char>, Placed<(Id, VisibilityModel)>)| (p.1.text, p.1.v.0, p.1.v.1->reveal_at);
        let mut r: Vec<(RepoPath, Oid, u64)> = crate::seqs::none();
        let mut i: usize = 0;
        proof {
            lemma_filter_none(s, f);
            assert(r.deep_view() =~= s.take(0).filter(f).map_values(h));
        }
        while i < n
            invariant
                0 <= i <= n,
                n == s.len(),
                s == tree.pairs(),
                m == self.deep_view(),
                f == (|p: (Seq<char>, Placed<(Id, VisibilityModel)>)|
                    p.1.v.1 is Embargoed && (m.keys.contains_key(p.1.v.0) || m.escrow.contains_key(p.1.v.0))),
                h == (|p: (Seq<char>, Placed<(Id, VisibilityModel)>)| (p.1.text, p.1.v.0, p.1.v.1->reveal_at)),
                r.deep_view() == s.take(i as int).filter(f).map_values(h),
            decreases n - i,
        {
            proof {
                lemma_filter_step(s, i as int, f);
            }
            let entry = tree.value_at(i);
            if let Visibility::Embargoed { reveal_at } = &entry.1 {
                if self.custody.keyring.holds(&entry.0) || self.custody.escrow.holds(&entry.0) {
                    let row = (tree.path_at(i).dup(), entry.0, *reveal_at);
                    proof {
                        assert(row.deep_view() == h(s[i as int]));
                        let x = s.take(i as int).filter(f);
                        assert(x.push(s[i as int]).map_values(h) =~= x.map_values(h).push(h(s[i as int])));
                    }
                    crate::seqs::push(&mut r, row);
                }
            }
            i = i + 1;
        }
        assert(s.take(s.len() as int) =~= s);
        r
    }
}

// ---------------------------------------------------------------------------
// Files
// ---------------------------------------------------------------------------

/// A grant in bytes, before grants could expire.
pub type FirstGrantRow = (Oid, (String, ([u8; 32], ([u8; 32], u64))));

/// A grant in bytes.
pub type GrantRow = (FirstGrantRow, Option<u64>);

pub open spec fn first_row(g: GrantModel) -> (Id, (Seq<char>, (Seq<u8>, (Seq<u8>, u64)))) {
    (g.oid, (g.grantee, (g.grantee_pubkey, (g.grantor_pubkey, g.granted_at))))
}

pub open spec fn grant_from(r: (Id, (Seq<char>, (Seq<u8>, (Seq<u8>, u64)))), expires_at: Option<u64>) -> GrantModel {
    GrantModel {
        oid: r.0,
        grantee: r.1.0,
        grantee_pubkey: r.1.1.0,
        grantor_pubkey: r.1.1.1.0,
        granted_at: r.1.1.1.1,
        expires_at,
    }
}

impl Wire for GrantEntry {
    open spec fn wire(v: GrantModel) -> Seq<u8> {
        GrantRow::wire((first_row(v), v.expires_at))
    }

    open spec fn parse(s: Seq<u8>) -> Parsed<GrantModel> {
        match GrantRow::parse(s) {
            Ok((r, rest)) => Ok((grant_from(r.0, r.1), rest)),
            Err(e) => Err(e),
        }
    }

    open spec fn fits(v: GrantModel) -> bool {
        GrantRow::fits((first_row(v), v.expires_at))
    }

    proof fn round_trip(v: GrantModel, t: Seq<u8>) {
        GrantRow::round_trip((first_row(v), v.expires_at), t);
    }

    fn write(&self, out: &mut Vec<u8>) {
        self.oid.write(out);
        self.grantee.write(out);
        self.grantee_pubkey.write(out);
        self.grantor_pubkey.write(out);
        self.granted_at.write(out);
        self.expires_at.write(out);
        proof {
            assert(self.grantee_pubkey.deep_view() =~= self.grantee_pubkey@);
            assert(self.grantor_pubkey.deep_view() =~= self.grantor_pubkey@);
            assert(self.expires_at.deep_view() == self.expires_at);
            assert(out@ =~= old(out)@ + Self::wire(self.deep_view()));
        }
    }

    fn read(c: &mut Cursor) -> (r: Result<Self, RepoError>) {
        let (row, expires_at) = GrantRow::read(c)?;
        let (oid, (grantee, (grantee_pubkey, (grantor_pubkey, granted_at)))) = row;
        proof {
            assert(grantee_pubkey.deep_view() =~= grantee_pubkey@);
            assert(grantor_pubkey.deep_view() =~= grantor_pubkey@);
            assert(expires_at.deep_view() == expires_at);
        }
        Ok(GrantEntry { oid, grantee, grantee_pubkey, grantor_pubkey, granted_at, expires_at })
    }
}

/// The manifest that recording grants one after another leaves.
pub open spec fn recorded_grants(gs: Seq<GrantModel>) -> ManifestModel
    decreases gs.len(),
{
    if gs.len() == 0 {
        Map::empty()
    } else {
        with_record(recorded_grants(gs.drop_last()), gs.last())
    }
}

/// The bytes of a manifest's file.
pub open spec fn manifest_bytes(m: ManifestModel) -> Seq<u8> {
    version_bytes(FORMAT_MAJOR) + list_bytes::<GrantEntry>(grants_in_order(m))
}

/// Grants without expiry, as an earlier format holds them.
pub open spec fn lasting(rows: Seq<(Id, (Seq<char>, (Seq<u8>, (Seq<u8>, u64))))>) -> Seq<GrantModel> {
    rows.map_values(|r: (Id, (Seq<char>, (Seq<u8>, (Seq<u8>, u64))))| grant_from(r, None))
}

/// What a manifest's file reads as. In a format before 8, grants do not expire.
pub open spec fn parse_manifest(s: Seq<u8>) -> Result<ManifestModel, ErrorModel> {
    match parse_version(s, FORMAT_MAJOR) {
        Ok((v, rest)) => if v.0 >= 8 {
            match parse_list::<GrantEntry>(rest) {
                Ok((gs, rest2)) => Ok(recorded_grants(gs)),
                Err(e) => Err(e),
            }
        } else {
            match parse_list::<FirstGrantRow>(rest) {
                Ok((rows, rest2)) => Ok(recorded_grants(lasting(rows))),
                Err(e) => Err(e),
            }
        },
        Err(e) => Err(e),
    }
}

pub fn encode_manifest(manifest: &Manifest) -> (r: Vec<u8>)
    ensures
        r@ == manifest_bytes(manifest.deep_view()),
{
    let mut out: Vec<u8> = Vec::new();
    put_version(&mut out, FORMAT_MAJOR);
    manifest.iter().write(&mut out);
    assert(out@ =~= manifest_bytes(manifest.deep_view()));
    out
}

fn record_all(gs: &Vec<GrantEntry>) -> (r: Manifest)
    ensures
        r.deep_view() == recorded_grants(gs.deep_view()),
{
    let ghost all = gs.deep_view();
    let mut m = Manifest::new();
    let mut i: usize = 0;
    assert(all.take(0) =~= Seq::<GrantModel>::empty());
    while i < gs.len()
        invariant
            0 <= i <= gs@.len(),
            all == gs.deep_view(),
            m.deep_view() == recorded_grants(all.take(i as int)),
        decreases gs@.len() - i,
    {
        let g = &gs[i];
        proof {
            assert(all.take(i as int + 1).drop_last() =~= all.take(i as int));
            assert(all.take(i as int + 1).last() == g.deep_view());
        }
        m.record(g.oid, g.grantee.clone(), g.grantee_pubkey, g.grantor_pubkey, g.granted_at, g.expires_at);
        i = i + 1;
    }
    assert(all.take(all.len() as int) =~= all);
    m
}

pub fn decode_manifest(b: &[u8]) -> (r: Result<Manifest, RepoError>)
    ensures
        match r {
            Ok(m) => parse_manifest(b@) == Ok::<ManifestModel, ErrorModel>(m.deep_view()),
            Err(e) => parse_manifest(b@) == Err::<ManifestModel, ErrorModel>(e.deep_view()),
        },
{
    let mut c = Cursor::new(b);
    let v = read_version(&mut c, FORMAT_MAJOR)?;
    if v.0 >= 8 {
        let gs = Vec::<GrantEntry>::read(&mut c)?;
        return Ok(record_all(&gs));
    }
    let rows = Vec::<FirstGrantRow>::read(&mut c)?;
    let ghost rs = rows.deep_view();
    let mut gs: Vec<GrantEntry> = crate::seqs::none();
    let mut i: usize = 0;
    while i < rows.len()
        invariant
            0 <= i <= rows@.len(),
            rs == rows.deep_view(),
            gs.deep_view().len() == i,
            forall|j: int| 0 <= j < i ==> #[trigger] gs.deep_view()[j] == grant_from(rs[j], None),
        decreases rows@.len() - i,
    {
        let row = &rows[i];
        let g = GrantEntry {
            oid: row.0,
            grantee: row.1.0.clone(),
            grantee_pubkey: row.1.1.0,
            grantor_pubkey: row.1.1.1.0,
            granted_at: row.1.1.1.1,
            expires_at: None,
        };
        proof {
            assert(rs[i as int] == row.deep_view());
            assert(row.1.1.0.deep_view() =~= row.1.1.0@);
            assert(row.1.1.1.0.deep_view() =~= row.1.1.1.0@);
            assert(g.deep_view() == grant_from(rs[i as int], None));
        }
        crate::seqs::push(&mut gs, g);
        i = i + 1;
    }
    assert(gs.deep_view() =~= lasting(rs));
    Ok(record_all(&gs))
}

/// The bytes of the file of purges.
pub open spec fn purges_bytes(ps: Seq<(Id, Seq<char>)>) -> Seq<u8> {
    version_bytes(FORMAT_MAJOR) + list_bytes::<(Oid, String)>(ps)
}

pub open spec fn parse_purges(s: Seq<u8>) -> Result<Seq<(Id, Seq<char>)>, ErrorModel> {
    match parse_version(s, FORMAT_MAJOR) {
        Ok((v, rest)) => match parse_list::<(Oid, String)>(rest) {
            Ok((ps, rest2)) => Ok(ps),
            Err(e) => Err(e),
        },
        Err(e) => Err(e),
    }
}

pub fn encode_purges(purges: &Vec<(Oid, String)>) -> (r: Vec<u8>)
    ensures
        r@ == purges_bytes(purges.deep_view()),
{
    let mut out: Vec<u8> = Vec::new();
    put_version(&mut out, FORMAT_MAJOR);
    purges.write(&mut out);
    assert(out@ =~= purges_bytes(purges.deep_view()));
    out
}

pub fn decode_purges(b: &[u8]) -> (r: Result<Vec<(Oid, String)>, RepoError>)
    ensures
        match r {
            Ok(ps) => parse_purges(b@) == Ok::<Seq<(Id, Seq<char>)>, ErrorModel>(ps.deep_view()),
            Err(e) => parse_purges(b@) == Err::<Seq<(Id, Seq<char>)>, ErrorModel>(e.deep_view()),
        },
{
    let mut c = Cursor::new(b);
    let _ = read_version(&mut c, FORMAT_MAJOR)?;
    Vec::<(Oid, String)>::read(&mut c)
}

/// Purges come back from their file as they went in.
pub proof fn law_purges_round_trip(ps: Seq<(Id, Seq<char>)>)
    requires
        list_fits::<(Oid, String)>(ps),
    ensures
        parse_purges(purges_bytes(ps)) == Ok::<Seq<(Id, Seq<char>)>, ErrorModel>(ps),
{
    let body = list_bytes::<(Oid, String)>(ps);
    lemma_version_back(FORMAT_MAJOR, FORMAT_MAJOR, body);
    lemma_list_back::<(Oid, String)>(ps, Seq::empty());
    assert(body + Seq::<u8>::empty() =~= body);
}

proof fn lemma_recorded_grants(s: Seq<((Id, Seq<char>), GrantModel)>)
    requires
        rising::<(Oid, String), GrantModel>(s),
        forall|i: int| 0 <= i < s.len() ==> (#[trigger] s[i]).0 == (s[i].1.oid, s[i].1.grantee),
    ensures
        recorded_grants(s.map_values(|p: ((Id, Seq<char>), GrantModel)| p.1)) == map_of(s),
    decreases s.len(),
{
    let f = |p: ((Id, Seq<char>), GrantModel)| p.1;
    if s.len() == 0 {
        assert(recorded_grants(s.map_values(f)) =~= map_of(s));
    } else {
        let front = s.drop_last();
        crate::sorted::lemma_drop_last::<(Oid, String), GrantModel>(s);
        assert forall|i: int| 0 <= i < front.len() implies (#[trigger] front[i]).0 == (
            front[i].1.oid,
            front[i].1.grantee,
        ) by {
            assert(front[i] == s[i]);
        }
        lemma_recorded_grants(front);
        assert(s.map_values(f).drop_last() =~= front.map_values(f));
        assert(s.last().0 == (s.last().1.oid, s.last().1.grantee)) by {
            assert(s[s.len() - 1] == s.last());
        }
        lemma_entry::<(Oid, String), GrantModel>(s, s.len() - 1);
        assert(recorded_grants(s.map_values(f)) =~= map_of(s));
    }
}

/// A manifest comes back from its file as it went in.
pub proof fn law_manifest_round_trip(m: ManifestModel)
    requires
        m.dom().finite(),
        forall|k: (Id, Seq<char>)| #[trigger] m.contains_key(k) ==> k == (m[k].oid, m[k].grantee),
        list_fits::<GrantEntry>(grants_in_order(m)),
    ensures
        parse_manifest(manifest_bytes(m)) == Ok::<ManifestModel, ErrorModel>(m),
{
    let gs = grants_in_order(m);
    let s = pairs_of::<(Oid, String), GrantModel>(m);
    lemma_map_is_listed::<(Oid, String), GrantModel>(m);
    let body = list_bytes::<GrantEntry>(gs);
    lemma_version_back(FORMAT_MAJOR, FORMAT_MAJOR, body);
    lemma_list_back::<GrantEntry>(gs, Seq::empty());
    assert(body + Seq::<u8>::empty() =~= body);
    assert forall|i: int| 0 <= i < s.len() implies (#[trigger] s[i]).0 == (s[i].1.oid, s[i].1.grantee) by {
        lemma_entry::<(Oid, String), GrantModel>(s, i);
        assert(m.contains_key(s[i].0));
    }
    lemma_recorded_grants(s);
}

/// A manifest of a format before 8 reads as its grants, none of which expires.
pub proof fn law_earlier_manifests_read(
    rows: Seq<(Id, (Seq<char>, (Seq<u8>, (Seq<u8>, u64))))>,
    major: u8,
)
    requires
        major < 8,
        list_fits::<FirstGrantRow>(rows),
    ensures
        parse_manifest(version_bytes(major) + list_bytes::<FirstGrantRow>(rows)) == Ok::<
            ManifestModel,
            ErrorModel,
        >(recorded_grants(lasting(rows))),
{
    let body = list_bytes::<FirstGrantRow>(rows);
    lemma_version_back(major, FORMAT_MAJOR, body);
    lemma_list_back::<FirstGrantRow>(rows, Seq::empty());
    assert(body + Seq::<u8>::empty() =~= body);
}

/// The objects of a grant are one.
proof fn lemma_one_object(oid: Id, obj: SealedModel)
    ensures
        pairs_of::<Oid, SealedModel>(Map::<Id, SealedModel>::empty().insert(oid, obj)) == seq![(oid, obj)],
{
    let objs = Map::<Id, SealedModel>::empty().insert(oid, obj);
    let s = seq![(oid, obj)];
    lemma_entry::<Oid, SealedModel>(s, 0);
    assert(map_of(s) =~= objs);
    lemma_pairs_of::<Oid, SealedModel>(s, objs);
}

/// What a grant gives, its grantee has: once they have applied the bundle, they
/// hold the object and its key, and read what the key opens, unless an earlier grant
/// that stays on record has lapsed.
#[verifier::spinoff_prover]
#[verifier::rlimit(60)]
pub proof fn law_grant_gives_key(
    m: RepoModel,
    g: RepoModel,
    oid: Id,
    now: u64,
    expires_at: Option<u64>,
    later: u64,
)
    requires
        granted(m, oid, g.identity, now, expires_at) is Ok,
        crate::bundle_codec::frame_fits(
            FrameModel::Grant {
                grantee: g.identity,
                body: grant_body(oid, m.objects[oid], Some(m.keys[oid])),
            },
        ),
        !g.burns.contains_key(oid),
        !g.objects.contains_key(oid),
        !g.keys.contains_key(oid),
        g.manifest.contains_key((oid, g.identity)) ==> !lapsed(g.manifest[(oid, g.identity)], later),
    ensures
        ({
            let bundle = granted(m, oid, g.identity, now, expires_at)->Ok_0.1;
            &&& super::negotiation::applied(g, bundle, later, Set::empty()) is Ok
            &&& ({
                let after = super::negotiation::applied(g, bundle, later, Set::empty())->Ok_0.0;
                &&& after.objects.contains_key(oid)
                &&& after.objects[oid] == m.objects[oid]
                &&& after.keys.contains_key(oid)
                &&& after.keys[oid] == m.keys[oid]
                &&& got(after, oid, g.identity, later) == opened_with_key(m.objects[oid], oid, m.keys, later)
            })
        }),
{
    let body = grant_body(oid, m.objects[oid], Some(m.keys[oid]));
    let f = FrameModel::Grant { grantee: g.identity, body };
    crate::bundle_codec::law_frame_round_trip(f);
    let s = pairs_of::<Oid, SealedModel>(body.objs);
    lemma_one_object(oid, m.objects[oid]);
    assert(s.drop_last() =~= Seq::<(Id, SealedModel)>::empty());
    reveal_with_fuel(super::negotiation::handed, 2);
    assert(s.last() == s[0]);
}

/// A sealed grant that its recipient can open lets them read, from its reveal on,
/// what the key opens, unless an earlier grant that stays on record has lapsed.
#[verifier::spinoff_prover]
#[verifier::rlimit(60)]
pub proof fn law_sealed_grant_gives_key(
    m: RepoModel,
    g: RepoModel,
    grantor_pubkey: Seq<u8>,
    head: SealedHead,
    now: u64,
    later: u64,
)
    requires
        granted_sealed(m, g.identity, grantor_pubkey, head, now) is Ok,
        crate::bundle_codec::frame_fits(
            FrameModel::SealedGrant { head, body: grant_body(head.oid, m.objects[head.oid], None) },
        ),
        head.expires_at matches Some(t) ==> later < t,
        head.reveal_at <= later,
        !g.burns.contains_key(head.oid),
        !g.objects.contains_key(head.oid),
        !g.keys.contains_key(head.oid),
        g.manifest.contains_key((head.oid, g.identity)) ==> !lapsed(
            g.manifest[(head.oid, g.identity)],
            later,
        ),
    ensures
        ({
            let bundle = granted_sealed(m, g.identity, grantor_pubkey, head, now)->Ok_0.1;
            let body = grant_body(head.oid, m.objects[head.oid], None);
            let key = issuing_key(m, head.oid)->Some_0;
            &&& standing_grant(bundle, later) == Ok::<(SealedHead, BodyModel), ErrorModel>((head, body))
            &&& accepted(g, head, body, grantor_pubkey, later, key) is Ok
            &&& ({
                let after = accepted(g, head, body, grantor_pubkey, later, key)->Ok_0;
                &&& after.keys.contains_key(head.oid)
                &&& after.keys[head.oid] == key
                &&& got(after, head.oid, g.identity, later) == opened_with_key(
                    m.objects[head.oid],
                    head.oid,
                    Map::empty().insert(head.oid, key),
                    later,
                )
            })
        }),
{
    let obj = m.objects[head.oid];
    let body = grant_body(head.oid, obj, None);
    let f = FrameModel::SealedGrant { head, body };
    crate::bundle_codec::law_frame_round_trip(f);
    lemma_one_object(head.oid, obj);
    let s = pairs_of::<Oid, SealedModel>(body.objs);
    assert(s.drop_last() =~= Seq::<(Id, SealedModel)>::empty());
    assert(s.last() == (head.oid, obj));
    reveal_with_fuel(stored_objects, 2);
    assert(first_bad(body.changes) is None);
}

/// Content that is put in can be read back by the one who put it in, if it is
/// granted to them and not under embargo.
pub proof fn law_put_is_readable(m: RepoModel, bytes: Seq<u8>, vis: VisibilityModel, s: Sealing, now: u64)
    requires
        seals(bytes, vis, s),
        !m.burns.contains_key(s.addr),
        !m.objects.contains_key(s.addr),
        !m.keys.contains_key(s.addr),
        crate::sealed::granted_to(s.obj.grant_ids, m.identity),
        !(vis is Embargoed),
    ensures
        got(with_content(m, s), s.addr, m.identity, now) == Ok::<Seq<u8>, ErrorModel>(bytes),
{
}

} // verus!
