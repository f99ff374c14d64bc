//! Who can give a key away, who gets it, and who keeps it.

use crate::ancestry::Id;
use crate::bundle_codec::{frame_fits, law_frame_round_trip, parse_frame, BodyModel, FrameModel, SealedHead};
use crate::escrow::EscrowModel;
use crate::manifest::{grants_for_object, GrantModel, ManifestModel};
use crate::path::normal_path;
use crate::path_map::{PathKey, Placed};
use crate::sealed::SealedModel;
use crate::seqs::lemma_filter_contains;
use crate::sorted::{lemma_entry, lemma_map_is_listed, lists, pairs_of};
use crate::types::{ErrorModel, Oid, VisibilityModel};
use super::change_graph::tree_of;
use super::custody::{
    accepted, embargoed_in, granted, granted_all, granted_sealed, issuing_key, marooned, migrated, newly_granted,
    other_name, remaining_grantees, reseal_source, standing_grant, without_identity,
};
use super::negotiation::{applied, handed};
use super::sync_laws::{came_in, law_objects_come_in};
use super::{got, RepoModel, Sealing};
use vstd::prelude::*;

verus! {

// ---------------------------------------------------------------------------
// Granting
// ---------------------------------------------------------------------------

/// A manifest after a grant was put on record: that grant is there, unless one for the same
/// object and grantee was there before; nothing else changed.
pub open spec fn on_record(before: ManifestModel, after: ManifestModel, g: GrantModel) -> bool {
    &&& before.contains_key((g.oid, g.grantee)) ==> after == before
    &&& !before.contains_key((g.oid, g.grantee)) ==> after == before.insert((g.oid, g.grantee), g)
}

/// A bundle that hands over one object, with its key in the open or without.
pub open spec fn hands_over(body: BodyModel, oid: Id, obj: SealedModel, key: Option<Seq<u8>>) -> bool {
    &&& body.changes.len() == 0
    &&& body.attestations.len() == 0
    &&& forall|x: Id| #[trigger] body.objs.contains_key(x) <==> x == oid
    &&& body.objs[oid] == obj
    &&& forall|x: Id| #[trigger] body.keys.contains_key(x) <==> x == oid && key is Some
    &&& key is Some ==> body.keys[oid] == key->Some_0
}

proof fn lemma_handing_over(b: BodyModel, oid: Id, obj: SealedModel, key: Option<Seq<u8>>)
    requires
        hands_over(b, oid, obj, key),
    ensures
        b == super::custody::grant_body(oid, obj, key),
{
    let want = super::custody::grant_body(oid, obj, key);
    assert(b.changes =~= want.changes);
    assert(b.attestations =~= want.attestations);
    assert(b.objs =~= want.objs);
    assert(b.keys =~= want.keys);
}

/// The record of a grant under names alone, with no public key.
pub open spec fn by_name(g: GrantModel) -> bool {
    &&& g.grantee_pubkey == Seq::new(32, |i: int| 0u8)
    &&& g.grantor_pubkey == Seq::new(32, |i: int| 0u8)
}

/// Who holds a key can grant it, and nobody else. The grant goes on record by name, with its
/// date and expiry, unless one was there, and is all that changes.
pub proof fn law_who_holds_can_grant(m: RepoModel, oid: Id, grantee: Seq<char>, now: u64, expires_at: Option<u64>)
    ensures
        ({
            let r = granted(m, oid, grantee, now, expires_at);
            &&& !m.keys.contains_key(oid) ==> r == Err::<(RepoModel, Seq<u8>), ErrorModel>(
                ErrorModel::Unauthorized(oid),
            )
            &&& m.keys.contains_key(oid) && !m.objects.contains_key(oid) ==> r == Err::<
                (RepoModel, Seq<u8>),
                ErrorModel,
            >(ErrorModel::NotFound(oid))
            &&& m.keys.contains_key(oid) && m.objects.contains_key(oid) ==> {
                let after = r->Ok_0.0;
                let g = after.manifest[(oid, grantee)];
                &&& r is Ok
                &&& after == (RepoModel { manifest: after.manifest, ..m })
                &&& m.manifest.contains_key((oid, grantee)) ==> after.manifest == m.manifest
                &&& !m.manifest.contains_key((oid, grantee)) ==> {
                    &&& after.manifest == m.manifest.insert((oid, grantee), g)
                    &&& g.oid == oid && g.grantee == grantee && by_name(g)
                    &&& g.granted_at == now && g.expires_at == expires_at
                }
            }
        }),
{
    assert(crate::manifest::UNKNOWN_PUBKEY@ =~= Seq::new(32, |i: int| 0u8));
    if granted(m, oid, grantee, now, expires_at) is Ok {
        let after = granted(m, oid, grantee, now, expires_at)->Ok_0.0;
        assert(after.manifest == crate::manifest::with_record(
            m.manifest,
            super::custody::named_grant(oid, grantee, now, expires_at),
        ));
    }
}

/// The bundle of a grant names the grantee and holds the object and its key.
pub proof fn law_grant_hands_over(
    m: RepoModel,
    oid: Id,
    grantee: Seq<char>,
    now: u64,
    expires_at: Option<u64>,
    body: BodyModel,
)
    requires
        m.keys.contains_key(oid),
        m.objects.contains_key(oid),
        hands_over(body, oid, m.objects[oid], Some(m.keys[oid])),
        frame_fits(FrameModel::Grant { grantee, body }),
    ensures
        granted(m, oid, grantee, now, expires_at) is Ok,
        parse_frame(granted(m, oid, grantee, now, expires_at)->Ok_0.1) == Ok::<FrameModel, ErrorModel>(
            FrameModel::Grant { grantee, body },
        ),
{
    lemma_handing_over(body, oid, m.objects[oid], Some(m.keys[oid]));
    law_frame_round_trip(FrameModel::Grant { grantee, body });
}

/// Who holds a key, on the ring or in escrow, can grant it sealed, and nobody else. The
/// grant goes on record under both public keys, and is all that changes. The bundle holds
/// the object and no key but the one that is sealed.
pub proof fn law_who_holds_can_grant_sealed(
    m: RepoModel,
    grantee: Seq<char>,
    grantor_pubkey: Seq<u8>,
    head: SealedHead,
    now: u64,
)
    ensures
        issuing_key(m, head.oid) == if m.keys.contains_key(head.oid) {
            Some(m.keys[head.oid])
        } else if m.escrow.contains_key(head.oid) {
            Some(m.escrow[head.oid].key)
        } else {
            None
        },
        ({
            let r = granted_sealed(m, grantee, grantor_pubkey, head, now);
            let held = m.keys.contains_key(head.oid) || m.escrow.contains_key(head.oid);
            &&& !held ==> r == Err::<(RepoModel, Seq<u8>), ErrorModel>(ErrorModel::Unauthorized(head.oid))
            &&& held && !m.objects.contains_key(head.oid) ==> r == Err::<(RepoModel, Seq<u8>), ErrorModel>(
                ErrorModel::NotFound(head.oid),
            )
            &&& held && m.objects.contains_key(head.oid) ==> {
                &&& r is Ok
                &&& r->Ok_0.0 == (RepoModel { manifest: r->Ok_0.0.manifest, ..m })
                &&& on_record(
                    m.manifest,
                    r->Ok_0.0.manifest,
                    GrantModel {
                        oid: head.oid,
                        grantee,
                        grantee_pubkey: head.grantee_pubkey,
                        grantor_pubkey,
                        granted_at: now,
                        expires_at: head.expires_at,
                    },
                )
                &&& forall|body: BodyModel| #[trigger]
                    hands_over(body, head.oid, m.objects[head.oid], None) && frame_fits(
                        FrameModel::SealedGrant { head, body },
                    ) ==> parse_frame(r->Ok_0.1) == Ok::<FrameModel, ErrorModel>(FrameModel::SealedGrant { head, body })
            }
        }),
{
    if issuing_key(m, head.oid) is Some && m.objects.contains_key(head.oid) {
        let r = granted_sealed(m, grantee, grantor_pubkey, head, now);
        assert forall|b: BodyModel| #[trigger]
            hands_over(b, head.oid, m.objects[head.oid], None) && frame_fits(
                FrameModel::SealedGrant { head, body: b },
            ) implies parse_frame(r->Ok_0.1) == Ok::<FrameModel, ErrorModel>(FrameModel::SealedGrant { head, body: b }) by {
            law_frame_round_trip(FrameModel::SealedGrant { head, body: b });
            lemma_handing_over(b, head.oid, m.objects[head.oid], None);
        }
    }
}

// ---------------------------------------------------------------------------
// Being granted
// ---------------------------------------------------------------------------

/// What stands at an address once a grant came in: the object as it would come in alone; and
/// if the grant is for this identity, a key that comes along with the object, unless one was
/// there, and the grant on record.
pub open spec fn was_handed(
    m: RepoModel,
    objs: Map<Id, SealedModel>,
    keys: Map<Id, Seq<u8>>,
    ours: bool,
    now: u64,
    r: RepoModel,
    x: Id,
) -> bool {
    let given = ours && objs.contains_key(x) && keys.contains_key(x);
    let new = objs.contains_key(x) && !m.objects.contains_key(x) && !m.burns.contains_key(x);
    &&& r.objects.contains_key(x) <==> m.objects.contains_key(x) || new
    &&& m.objects.contains_key(x) ==> r.objects[x] == m.objects[x]
    &&& new ==> r.objects[x] == objs[x]
    &&& r.keys.contains_key(x) <==> m.keys.contains_key(x) || given
    &&& m.keys.contains_key(x) ==> r.keys[x] == m.keys[x]
    &&& given && !m.keys.contains_key(x) ==> r.keys[x] == keys[x]
    &&& forall|who: Seq<char>| #[trigger]
        r.manifest.contains_key((x, who)) <==> m.manifest.contains_key((x, who)) || (given && who == m.identity)
    &&& forall|who: Seq<char>| #[trigger]
        m.manifest.contains_key((x, who)) ==> r.manifest[(x, who)] == m.manifest[(x, who)]
    &&& given && !m.manifest.contains_key((x, m.identity)) ==> r.manifest[(x, m.identity)] == (GrantModel {
        oid: x,
        grantee: m.identity,
        grantee_pubkey: Seq::new(32, |i: int| 0u8),
        grantor_pubkey: Seq::new(32, |i: int| 0u8),
        granted_at: now,
        expires_at: None,
    })
}

proof fn lemma_handed(
    m: RepoModel,
    s: Seq<(Id, SealedModel)>,
    objs: Map<Id, SealedModel>,
    keys: Map<Id, Seq<u8>>,
    ours: bool,
    now: u64,
    x: Id,
)
    requires
        lists::<Oid, SealedModel>(s, objs),
    ensures
        was_handed(m, objs, keys, ours, now, handed(m, s, keys, ours, now), x),
        ({
            let r = handed(m, s, keys, ours, now);
            r == (RepoModel { objects: r.objects, keys: r.keys, manifest: r.manifest, ..m })
        }),
    decreases s.len(),
{
    if s.len() > 0 {
        let front = s.drop_last();
        let (addr, obj) = s.last();
        crate::sorted::lemma_drop_last::<Oid, SealedModel>(s);
        let before = objs.remove(addr);
        lemma_handed(m, front, before, keys, ours, now, x);
        lemma_entry::<Oid, SealedModel>(s, s.len() - 1);
        assert(crate::manifest::UNKNOWN_PUBKEY@ =~= Seq::new(32, |i: int| 0u8));
        if x != addr {
            lemma_handed(m, front, before, keys, ours, now, addr);
        }
    } else {
        assert(!objs.contains_key(x));
    }
}

/// A grant that is applied gives its keys to the one it names, with the grant on record
/// without an expiry, and to nobody else. It merges nothing and touches nothing else.
pub proof fn law_grant_is_for_one(
    m: RepoModel,
    bundle: Seq<u8>,
    grantee: Seq<char>,
    body: BodyModel,
    now: u64,
    abandoned: Set<Id>,
    x: Id,
)
    requires
        parse_frame(bundle) == Ok::<FrameModel, ErrorModel>(FrameModel::Grant { grantee, body }),
        body.objs.dom().finite(),
    ensures
        ({
            let r = applied(m, bundle, now, abandoned);
            &&& r is Ok
            &&& r->Ok_0.1.dom() == Set::<Seq<char>>::empty()
            &&& was_handed(m, body.objs, body.keys, grantee == m.identity, now, r->Ok_0.0, x)
            &&& r->Ok_0.0 == (RepoModel {
                objects: r->Ok_0.0.objects,
                keys: r->Ok_0.0.keys,
                manifest: r->Ok_0.0.manifest,
                ..m
            })
        }),
{
    lemma_map_is_listed::<Oid, SealedModel>(body.objs);
    lemma_handed(
        m,
        pairs_of::<Oid, SealedModel>(body.objs),
        body.objs,
        body.keys,
        grantee == m.identity,
        now,
        x,
    );
    assert(applied(m, bundle, now, abandoned)->Ok_0.1.dom() =~= Set::<Seq<char>>::empty());
}

/// A sealed grant stands until its expiry, and is refused from then on.
pub proof fn law_sealed_grant_runs_out(bundle: Seq<u8>, head: SealedHead, body: BodyModel, now: u64)
    requires
        parse_frame(bundle) == Ok::<FrameModel, ErrorModel>(FrameModel::SealedGrant { head, body }),
    ensures
        standing_grant(bundle, now) is Ok <==> head.expires_at is None || now < head.expires_at->Some_0,
        standing_grant(bundle, now) is Ok ==> standing_grant(bundle, now)->Ok_0 == (head, body),
        standing_grant(bundle, now) is Err ==> standing_grant(bundle, now)->Err_0 == ErrorModel::Expired(
            head.expires_at->Some_0,
        ),
{
}

/// No bundle but a sealed grant is taken for one.
pub proof fn law_only_sealed_grants_are_opened(bundle: Seq<u8>, now: u64)
    requires
        parse_frame(bundle) is Err || !(parse_frame(bundle)->Ok_0 is SealedGrant),
    ensures
        standing_grant(bundle, now) is Err,
{
}

/// Once a sealed grant is accepted, its key waits in escrow until the reveal, or is on the
/// ring from then on, unless a key is there; the objects came in without keys; the grant is
/// on record for this identity; and nothing else changed.
pub proof fn law_sealed_grant_is_kept(
    m: RepoModel,
    head: SealedHead,
    body: BodyModel,
    grantor_pubkey: Seq<u8>,
    now: u64,
    key: Seq<u8>,
    x: Id,
)
    requires
        body.objs.dom().finite(),
        body.changes.len() == 0,
    ensures
        ({
            let r = accepted(m, head, body, grantor_pubkey, now, key);
            let after = r->Ok_0;
            let waits = head.reveal_at > now && !m.escrow.contains_key(head.oid) && !m.keys.contains_key(head.oid);
            let due = head.reveal_at <= now && !m.keys.contains_key(head.oid);
            let new = body.objs.contains_key(x) && !m.objects.contains_key(x) && !m.burns.contains_key(x);
            &&& r is Ok
            &&& after.escrow == if waits {
                m.escrow.insert(head.oid, EscrowModel { key, reveal_at: head.reveal_at })
            } else {
                m.escrow
            }
            &&& after.keys == if due {
                m.keys.insert(head.oid, key)
            } else {
                m.keys
            }
            &&& after.objects.contains_key(x) <==> m.objects.contains_key(x) || new
            &&& m.objects.contains_key(x) ==> after.objects[x] == m.objects[x]
            &&& new ==> after.objects[x] == body.objs[x]
            &&& on_record(
                m.manifest,
                after.manifest,
                GrantModel {
                    oid: head.oid,
                    grantee: m.identity,
                    grantee_pubkey: head.grantee_pubkey,
                    grantor_pubkey,
                    granted_at: now,
                    expires_at: head.expires_at,
                },
            )
            &&& after == (RepoModel {
                escrow: after.escrow,
                keys: after.keys,
                objects: after.objects,
                manifest: after.manifest,
                ..m
            })
        }),
{
    let none = Map::<Id, Seq<u8>>::empty();
    let m1 = super::stored_objects(m, pairs_of::<Oid, SealedModel>(body.objs), none);
    assert forall|y: Id| #[trigger] came_in(m, body.objs, none, m1, y) by {
        law_objects_come_in(m, body.objs, none, y);
    }
    law_objects_come_in(m, body.objs, none, x);
    assert(m1.keys =~= m.keys) by {
        assert forall|y: Id| m1.keys.contains_key(y) <==> m.keys.contains_key(y) by {
            assert(came_in(m, body.objs, none, m1, y));
        }
        assert forall|y: Id| m.keys.contains_key(y) implies m1.keys[y] == m.keys[y] by {
            assert(came_in(m, body.objs, none, m1, y));
        }
    }
    assert(m1.escrow =~= m.escrow) by {
        assert forall|y: Id| m1.escrow.contains_key(y) <==> m.escrow.contains_key(y) by {
            assert(came_in(m, body.objs, none, m1, y));
        }
        assert forall|y: Id| m.escrow.contains_key(y) implies m1.escrow[y] == m.escrow[y] by {
            assert(came_in(m, body.objs, none, m1, y));
        }
    }
    reveal_with_fuel(super::first_bad, 1);
    assert(super::first_bad(body.changes) is None);
}

// ---------------------------------------------------------------------------
// Cutting off
// ---------------------------------------------------------------------------

/// Content can be sealed anew by who can read it at its path now, and by nobody else.
pub proof fn law_who_reads_can_reseal(m: RepoModel, path: Seq<char>, now: u64)
    ensures
        ({
            let t = tree_of(m.graph.changes);
            let p = normal_path(path);
            let r = reseal_source(m, path, now);
            &&& r is Ok <==> t.contains_key(p) && got(m, t[p].v.0, m.identity, now) is Ok
            &&& r is Ok ==> r->Ok_0.0 == t[p].v.0 && r->Ok_0.1 == t[p].v.1 && got(m, t[p].v.0, m.identity, now) == Ok::<
                Seq<u8>,
                ErrorModel,
            >(r->Ok_0.2)
            &&& !t.contains_key(p) ==> r->Err_0 == ErrorModel::NotFound(Seq::new(32, |i: int| 0u8))
            &&& t.contains_key(p) && r is Err ==> r->Err_0 == ErrorModel::Unauthorized(t[p].v.0)
        }),
{
    assert(crate::types::zero_oid() =~= Seq::new(32, |i: int| 0u8));
}

/// A restricted visibility loses one name and keeps the others in turn; any other stays as
/// it is.
pub proof fn law_one_name_is_taken_off(vis: VisibilityModel, who: Seq<char>, name: Seq<char>)
    ensures
        vis is Restricted ==> without_identity(vis, who) is Restricted,
        vis is Restricted ==> (without_identity(vis, who)->Restricted_0.contains(name)
            <==> vis->Restricted_0.contains(name) && name != who),
        !(vis is Restricted) ==> without_identity(vis, who) == vis,
{
    if vis is Restricted {
        lemma_filter_contains(vis->Restricted_0, other_name(who), name);
    }
}

/// Grants of one key that is held, to several in turn: each gets a bundle with the object
/// and its key.
proof fn lemma_granted_all(m: RepoModel, oid: Id, to: Seq<(Seq<char>, Option<u64>)>, now: u64)
    requires
        m.keys.contains_key(oid),
        m.objects.contains_key(oid),
    ensures
        ({
            let (after, bs) = granted_all(m, oid, to, now);
            &&& after == (RepoModel { manifest: after.manifest, ..m })
            &&& bs.len() == to.len()
            &&& forall|i: int|
                0 <= i < to.len() ==> (#[trigger] bs[i]).0 == to[i].0 && bs[i].1 == granted(
                    m,
                    oid,
                    to[i].0,
                    now,
                    to[i].1,
                )->Ok_0.1
            &&& forall|k: (Seq<u8>, Seq<char>)| #[trigger]
                m.manifest.contains_key(k) ==> after.manifest.contains_key(k) && after.manifest[k] == m.manifest[k]
            &&& forall|k: (Seq<u8>, Seq<char>)| #[trigger]
                after.manifest.contains_key(k) && !m.manifest.contains_key(k) ==> k.0 == oid && exists|i: int|
                    0 <= i < to.len() && (#[trigger] to[i]).0 == k.1 && after.manifest[k].expires_at == to[i].1
                        && after.manifest[k].granted_at == now
            &&& forall|i: int| 0 <= i < to.len() ==> after.manifest.contains_key((oid, (#[trigger] to[i]).0))
        }),
    decreases to.len(),
{
    if to.len() > 0 {
        let front = to.drop_last();
        lemma_granted_all(m, oid, front, now);
        let (m1, bs) = granted_all(m, oid, front, now);
        let (after, all) = granted_all(m, oid, to, now);
        let last = to.len() - 1;
        assert(to.last() == to[last]);
        assert forall|i: int| 0 <= i < front.len() implies front[i] == to[i] by {}
        assert forall|i: int| 0 <= i < to.len() implies (#[trigger] all[i]).0 == to[i].0 && all[i].1 == granted(
            m,
            oid,
            to[i].0,
            now,
            to[i].1,
        )->Ok_0.1 by {
            if i < last {
                assert(all[i] == bs[i]);
                assert(front[i] == to[i]);
            }
        }
        assert forall|k: (Seq<u8>, Seq<char>)| #[trigger]
            after.manifest.contains_key(k) && !m.manifest.contains_key(k) implies k.0 == oid && exists|i: int|
                0 <= i < to.len() && (#[trigger] to[i]).0 == k.1 && after.manifest[k].expires_at == to[i].1
                    && after.manifest[k].granted_at == now by {
            if m1.manifest.contains_key(k) {
                let i = choose|i: int|
                    0 <= i < front.len() && (#[trigger] front[i]).0 == k.1 && m1.manifest[k].expires_at == front[i].1
                        && m1.manifest[k].granted_at == now;
                assert(to[i] == front[i]);
            } else {
                assert(to[last].0 == k.1);
            }
        }
        assert forall|i: int| 0 <= i < to.len() implies after.manifest.contains_key((oid, (#[trigger] to[i]).0)) by {
            if i < last {
                assert(front[i] == to[i]);
                assert(m1.manifest.contains_key((oid, front[i].0)));
            }
        }
    }
}

/// Those who stay get their grants anew when one is cut off: each one whose grant of the
/// content is on record, but for the one who is cut off and the one who does it, gets a
/// bundle with the content sealed anew and its key, under the expiry they had. Nobody else
/// does.
pub proof fn law_who_stays_is_granted(
    m: RepoModel,
    path: Seq<char>,
    who: Seq<char>,
    now: u64,
    hard: bool,
    s: Sealing,
    cid: Option<Seq<u8>>,
    name: Seq<char>,
)
    requires
        m.manifest.dom().finite(),
        forall|k: (Seq<u8>, Seq<char>)| #[trigger]
            m.manifest.contains_key(k) ==> k == (m.manifest[k].oid, m.manifest[k].grantee),
        !m.burns.contains_key(s.addr),
        !m.objects.contains_key(s.addr),
        !m.keys.contains_key(s.addr),
        s.obj.grant_ids.contains("*"@) || s.obj.grant_ids.contains(m.identity),
        !(s.obj.vis is Embargoed),
    ensures
        ({
            let old_oid = tree_of(m.graph.changes)[normal_path(path)].v.0;
            let (after, bs) = marooned(m, path, who, now, hard, s, cid);
            let stays = name != who && name != m.identity && m.manifest.contains_key((old_oid, name));
            &&& after.objects[s.addr] == s.obj && after.keys[s.addr] == s.key
            &&& (exists|i: int| 0 <= i < bs.len() && (#[trigger] bs[i]).0 == name) <==> stays
            &&& forall|i: int|
                0 <= i < bs.len() && (#[trigger] bs[i]).0 == name ==> bs[i].1 == granted(
                    after,
                    s.addr,
                    name,
                    now,
                    m.manifest[(old_oid, name)].expires_at,
                )->Ok_0.1
            &&& !m.manifest.contains_key((s.addr, name)) ==> {
                &&& after.manifest.contains_key((s.addr, name)) <==> stays
                &&& stays ==> after.manifest[(s.addr, name)].expires_at == m.manifest[(old_oid, name)].expires_at
            }
        }),
{
    let old_oid = tree_of(m.graph.changes)[normal_path(path)].v.0;
    let to = remaining_grantees(m, old_oid, who);
    let gs = grants_for_object(m.manifest, old_oid);
    let f = |g: GrantModel| g.grantee != who && g.grantee != m.identity;
    let kept = gs.filter(f);
    let (after, bs) = marooned(m, path, who, now, hard, s, cid);
    let m1 = super::with_content(m, s);
    super::sync_laws::law_object_comes_in(m, s.addr, s.obj, Some(s.key));
    let m2 = if hard {
        RepoModel { purges: m.purges.push((old_oid, who)), ..m1 }
    } else {
        m1
    };
    let m3 = super::recorded(m2, super::custody::maroon_change(m, path, who, s), cid, Seq::empty());
    assert(m3.manifest == m.manifest);
    lemma_granted_all(m3, s.addr, to, now);
    assert forall|i: int| 0 <= i < to.len() implies (#[trigger] to[i]).0 != who && to[i].0 != m.identity
        && m.manifest.contains_key((old_oid, to[i].0)) && m.manifest[(old_oid, to[i].0)].expires_at == to[i].1 by {
        let g = kept[i];
        assert(kept.contains(g));
        lemma_filter_contains(gs, f, g);
        crate::manifest::law_grants_are_found(m.manifest, old_oid, name, g);
    }
    let stays = name != who && name != m.identity && m.manifest.contains_key((old_oid, name));
    if stays {
        let g = m.manifest[(old_oid, name)];
        crate::manifest::law_grants_are_found(m.manifest, old_oid, name, g);
        lemma_filter_contains(gs, f, g);
        let i = choose|i: int| 0 <= i < kept.len() && kept[i] == g;
        assert(to[i] == (g.grantee, g.expires_at));
        assert(bs[i].0 == name);
        assert(after.manifest.contains_key((s.addr, to[i].0)));
    }
    assert forall|i: int| 0 <= i < bs.len() && (#[trigger] bs[i]).0 == name implies bs[i].1 == granted(
        after,
        s.addr,
        name,
        now,
        m.manifest[(old_oid, name)].expires_at,
    )->Ok_0.1 by {
        assert(to[i].0 == name);
    }
    if exists|i: int| 0 <= i < bs.len() && (#[trigger] bs[i]).0 == name {
        let i = choose|i: int| 0 <= i < bs.len() && (#[trigger] bs[i]).0 == name;
        assert(to[i].0 == name);
    }
}

/// A path that is given another visibility is granted to those whom it lists, but for the
/// one who does it, with no expiry, and to nobody else.
pub proof fn law_who_is_listed_is_granted(
    m: RepoModel,
    path: Seq<char>,
    vis: VisibilityModel,
    now: u64,
    s: Sealing,
    cid: Option<Seq<u8>>,
    name: Seq<char>,
)
    requires
        !m.burns.contains_key(s.addr),
        !m.objects.contains_key(s.addr),
        !m.keys.contains_key(s.addr),
        s.obj.grant_ids.contains("*"@) || s.obj.grant_ids.contains(m.identity),
        !(s.obj.vis is Embargoed),
    ensures
        ({
            let (after, bs) = migrated(m, path, vis, now, s, cid);
            let listed = vis is Restricted && vis->Restricted_0.contains(name) && name != m.identity;
            &&& after.objects[s.addr] == s.obj && after.keys[s.addr] == s.key
            &&& (exists|i: int| 0 <= i < bs.len() && (#[trigger] bs[i]).0 == name) <==> listed
            &&& forall|i: int|
                0 <= i < bs.len() && (#[trigger] bs[i]).0 == name ==> bs[i].1 == granted(
                    after,
                    s.addr,
                    name,
                    now,
                    None,
                )->Ok_0.1
            &&& !m.manifest.contains_key((s.addr, name)) ==> {
                &&& after.manifest.contains_key((s.addr, name)) <==> listed
                &&& listed ==> after.manifest[(s.addr, name)].expires_at is None
            }
        }),
{
    let (after, bs) = migrated(m, path, vis, now, s, cid);
    let to = newly_granted(m, vis);
    super::sync_laws::law_object_comes_in(m, s.addr, s.obj, Some(s.key));
    let m1 = super::recorded(
        super::with_content(m, s),
        super::custody::migrate_change(m, path, vis, s),
        cid,
        Seq::empty(),
    );
    lemma_granted_all(m1, s.addr, to, now);
    let f = other_name(m.identity);
    let ids = vis->Restricted_0;
    let kept = ids.filter(f);
    assert forall|i: int| 0 <= i < to.len() implies (#[trigger] to[i]).0 != m.identity && ids.contains(to[i].0)
        && to[i].1 is None && vis is Restricted by {
        assert(kept.contains(kept[i]));
        lemma_filter_contains(ids, f, kept[i]);
    }
    if vis is Restricted && ids.contains(name) && name != m.identity {
        lemma_filter_contains(ids, f, name);
        let i = choose|i: int| 0 <= i < kept.len() && kept[i] == name;
        assert(to[i].0 == name);
        assert(bs[i].0 == name);
        assert(after.manifest.contains_key((s.addr, to[i].0)));
    }
    assert forall|i: int| 0 <= i < bs.len() && (#[trigger] bs[i]).0 == name implies bs[i].1 == granted(
        after,
        s.addr,
        name,
        now,
        None,
    )->Ok_0.1 by {
        assert(to[i].0 == name);
    }
    if exists|i: int| 0 <= i < bs.len() && (#[trigger] bs[i]).0 == name {
        let i = choose|i: int| 0 <= i < bs.len() && (#[trigger] bs[i]).0 == name;
        assert(to[i].0 == name);
    }
}

/// Cutting an identity off records one change on top of all heads: its tree is the current
/// one, but for the path, which leads to the content sealed anew without that identity. Only
/// cutting off hard leaves a purge, of the old content and for that identity.
pub proof fn law_cutting_off_is_one_change(
    m: RepoModel,
    path: Seq<char>,
    who: Seq<char>,
    now: u64,
    hard: bool,
    s: Sealing,
    cid: Option<Seq<u8>>,
    q: Seq<char>,
)
    ensures
        ({
            let t = tree_of(m.graph.changes);
            let p = normal_path(path);
            let c = super::custody::maroon_change(m, path, who, s);
            let after = marooned(m, path, who, now, hard, s, cid).0;
            &&& after.graph == super::change_graph::with_node(m.graph, super::node_here(m, c, cid, Seq::empty()))
            &&& c.parents == m.graph.heads
            &&& c.message == "maroon "@ + who + " from "@ + path
            &&& c.tree.contains_key(q) <==> t.contains_key(q) || q == p
            &&& q != p && t.contains_key(q) ==> c.tree[q] == t[q]
            &&& c.tree[p].v.0 == s.addr && c.tree[p].v.1 == without_identity(t[p].v.1, who)
            &&& after.purges == if hard {
                m.purges.push((t[p].v.0, who))
            } else {
                m.purges
            }
            &&& after.conflicts == m.conflicts && after.burns == m.burns && after.attestations == m.attestations
            &&& after.identity == m.identity && after.author == m.author
        }),
{
    let old_oid = tree_of(m.graph.changes)[normal_path(path)].v.0;
    let m1 = super::with_content(m, s);
    super::sync_laws::law_object_comes_in(m, s.addr, s.obj, Some(s.key));
    let m2 = if hard {
        RepoModel { purges: m.purges.push((old_oid, who)), ..m1 }
    } else {
        m1
    };
    let m3 = super::recorded(m2, super::custody::maroon_change(m, path, who, s), cid, Seq::empty());
    lemma_granting_frame(m3, s.addr, remaining_grantees(m, old_oid, who), now);
}

proof fn lemma_granting_frame(m: RepoModel, oid: Id, to: Seq<(Seq<char>, Option<u64>)>, now: u64)
    ensures
        granted_all(m, oid, to, now).0 == (RepoModel { manifest: granted_all(m, oid, to, now).0.manifest, ..m }),
    decreases to.len(),
{
    if to.len() > 0 {
        lemma_granting_frame(m, oid, to.drop_last(), now);
    }
}

/// Giving a path another visibility records one change on top of all heads: its tree is the
/// current one, but for the path, which leads to the content sealed anew under that
/// visibility.
pub proof fn law_migrating_is_one_change(
    m: RepoModel,
    path: Seq<char>,
    vis: VisibilityModel,
    now: u64,
    s: Sealing,
    cid: Option<Seq<u8>>,
    q: Seq<char>,
)
    ensures
        ({
            let t = tree_of(m.graph.changes);
            let p = normal_path(path);
            let c = super::custody::migrate_change(m, path, vis, s);
            let after = migrated(m, path, vis, now, s, cid).0;
            &&& after.graph == super::change_graph::with_node(m.graph, super::node_here(m, c, cid, Seq::empty()))
            &&& c.parents == m.graph.heads
            &&& c.tree.contains_key(q) <==> t.contains_key(q) || q == p
            &&& q != p && t.contains_key(q) ==> c.tree[q] == t[q]
            &&& c.tree[p].v.0 == s.addr && c.tree[p].v.1 == vis
            &&& after.purges == m.purges
            &&& after.conflicts == m.conflicts && after.burns == m.burns && after.attestations == m.attestations
            &&& after.identity == m.identity && after.author == m.author
        }),
{
    super::sync_laws::law_object_comes_in(m, s.addr, s.obj, Some(s.key));
    let m1 = super::recorded(
        super::with_content(m, s),
        super::custody::migrate_change(m, path, vis, s),
        cid,
        Seq::empty(),
    );
    lemma_granting_frame(m1, s.addr, newly_granted(m, vis), now);
}

/// Settling a conflict records one change on top of all heads: its tree is the current one,
/// but for the path, which leads to what it was settled with.
pub proof fn law_settling_is_one_change(
    m: RepoModel,
    path: Seq<char>,
    vis: VisibilityModel,
    s: Sealing,
    cid: Option<Seq<u8>>,
    q: Seq<char>,
)
    ensures
        ({
            let t = tree_of(m.graph.changes);
            let p = normal_path(path);
            let c = super::resolution(m, path, vis, s);
            let after = super::resolved(m, path, vis, s, cid);
            &&& after.graph == super::change_graph::with_node(m.graph, super::node_here(m, c, cid, Seq::empty()))
            &&& c.parents == m.graph.heads
            &&& c.message == "resolve conflict at "@ + path
            &&& c.tree.contains_key(q) <==> t.contains_key(q) || q == p
            &&& q != p && t.contains_key(q) ==> c.tree[q] == t[q]
            &&& c.tree[p].v.0 == s.addr && c.tree[p].v.1 == vis
            &&& after.purges == m.purges && after.burns == m.burns && after.attestations == m.attestations
            &&& after.manifest == m.manifest && after.identity == m.identity && after.author == m.author
        }),
{
    super::sync_laws::law_object_comes_in(m, s.addr, s.obj, Some(s.key));
}

/// What is listed as embargoed: each path of the current tree that is under embargo and whose
/// key is on the ring or in escrow, with its address and the time of its reveal.
pub proof fn law_embargoes_are_listed(m: RepoModel, text: Seq<char>, oid: Id, reveal_at: u64)
    requires
        tree_of(m.graph.changes).dom().finite(),
    ensures
        ({
            let t = tree_of(m.graph.changes);
            embargoed_in(m, pairs_of::<PathKey, Placed<(Id, VisibilityModel)>>(t)).contains((text, oid, reveal_at))
                <==> exists|p: Seq<char>| #[trigger]
                t.contains_key(p) && t[p].text == text && t[p].v.0 == oid && t[p].v.1 == (VisibilityModel::Embargoed {
                    reveal_at,
                }) && (m.keys.contains_key(oid) || m.escrow.contains_key(oid))
        }),
{
    let t = tree_of(m.graph.changes);
    let s = pairs_of::<PathKey, Placed<(Id, VisibilityModel)>>(t);
    lemma_map_is_listed::<PathKey, Placed<(Id, VisibilityModel)>>(t);
    let f = |p: (Seq<char>, Placed<(Id, VisibilityModel)>)|
        p.1.v.1 is Embargoed && (m.keys.contains_key(p.1.v.0) || m.escrow.contains_key(p.1.v.0));
    let kept = s.filter(f);
    let r = embargoed_in(m, s);
    let x = (text, oid, reveal_at);
    if r.contains(x) {
        let i = choose|i: int| 0 <= i < r.len() && r[i] == x;
        assert(kept.contains(kept[i]));
        lemma_filter_contains(s, f, kept[i]);
        let j = choose|j: int| 0 <= j < s.len() && s[j] == kept[i];
        lemma_entry::<PathKey, Placed<(Id, VisibilityModel)>>(s, j);
        assert(t.contains_key(s[j].0));
    }
    if exists|p: Seq<char>| #[trigger]
        t.contains_key(p) && t[p].text == text && t[p].v.0 == oid && t[p].v.1 == (VisibilityModel::Embargoed {
            reveal_at,
        }) && (m.keys.contains_key(oid) || m.escrow.contains_key(oid)) {
        let p = choose|p: Seq<char>| #[trigger]
            t.contains_key(p) && t[p].text == text && t[p].v.0 == oid && t[p].v.1 == (VisibilityModel::Embargoed {
                reveal_at,
            }) && (m.keys.contains_key(oid) || m.escrow.contains_key(oid));
        let j = crate::sorted::place_of(s, p);
        lemma_entry::<PathKey, Placed<(Id, VisibilityModel)>>(s, j);
        assert(s[j] == (p, t[p]));
        lemma_filter_contains(s, f, s[j]);
        let i = choose|i: int| 0 <= i < kept.len() && kept[i] == s[j];
        assert(r[i] == x);
    }
}

} // verus!
