//! Bundles: what travels between repositories.
//!
//! A bundle holds sealed objects, the keys that may travel with them, changes and
//! attestations. A frame says what a bundle is for: a sync, a grant, or a grant
//! whose key is sealed to its recipient.

use crate::attestation::{Attestation, AttestationModel};
use crate::engine::change_graph::{ChangeNode, NodeModel};
use crate::format::{gather, gathered, lemma_gather_rising, Cursor, Wire, FORMAT_MAJOR};
use crate::sealed::{ContentKey, SealedModel, SealedObject};
use crate::sorted::{lemma_map_is_listed, pairs_of, SortedMap};
use crate::text::push_decimal;
use crate::types::{ErrorModel, Oid, RepoError};
use vstd::prelude::*;

verus! {

/// The first format whose bundles hold all of a change.
pub const BUNDLE_MAJOR: u8 = 6;

/// What a bundle carries.
#[derive(Debug)]
pub struct BundleBody {
    pub changes: Vec<ChangeNode>,
    pub objs: SortedMap<Oid, SealedObject>,
    pub keys: SortedMap<Oid, ContentKey>,
    pub attestations: Vec<Attestation>,
}

/// The model of a [`BundleBody`].
pub struct BodyModel {
    pub changes: Seq<NodeModel>,
    pub objs: Map<Seq<u8>, SealedModel>,
    pub keys: Map<Seq<u8>, Seq<u8>>,
    pub attestations: Seq<AttestationModel>,
}

impl DeepView for BundleBody {
    type V = BodyModel;

    open spec fn deep_view(&self) -> BodyModel {
        BodyModel {
            changes: self.changes.deep_view(),
            objs: self.objs.deep_view(),
            keys: self.keys.deep_view(),
            attestations: self.attestations.deep_view(),
        }
    }
}

/// A body in the order of its bytes.
pub type BundleRow = (
    Vec<(Oid, SealedObject)>,
    (SortedMap<Oid, [u8; 32]>, (Vec<ChangeNode>, Vec<Attestation>)),
);

/// The model of a body as it is read.
pub type RowModel = (
    Seq<(Seq<u8>, SealedModel)>,
    (Map<Seq<u8>, Seq<u8>>, (Seq<NodeModel>, Seq<AttestationModel>)),
);

pub open spec fn row_of(b: BodyModel) -> RowModel {
    (pairs_of::<Oid, SealedModel>(b.objs), (b.keys, (b.changes, b.attestations)))
}

pub open spec fn body_from(r: RowModel) -> BodyModel {
    BodyModel { objs: gather(r.0), keys: r.1.0, changes: r.1.1.0, attestations: r.1.1.1 }
}

/// The bytes of a body: objects, keys, changes, attestations.
pub open spec fn body_bytes(b: BodyModel) -> Seq<u8> {
    BundleRow::wire(row_of(b))
}

/// A body that its bytes hold all of: every count fits in 32 bits.
pub open spec fn body_fits(b: BodyModel) -> bool {
    &&& BundleRow::fits(row_of(b))
    &&& b.objs.dom().finite()
}

/// What the bytes of a body in a given format read as.
pub open spec fn parse_row(s: Seq<u8>, major: u8) -> Result<RowModel, ErrorModel> {
    if major < BUNDLE_MAJOR || major > FORMAT_MAJOR {
        Err(ErrorModel::UnsupportedFormat { found: major, supported: FORMAT_MAJOR })
    } else {
        match BundleRow::parse(s) {
            Ok((r, rest)) => Ok(r),
            Err(e) => Err(e),
        }
    }
}

/// The bytes of a body.
pub fn encode(
    changes: &Vec<ChangeNode>,
    objs: &SortedMap<Oid, SealedObject>,
    public_keys: &SortedMap<Oid, ContentKey>,
    attestations: &Vec<Attestation>,
) -> (r: Vec<u8>)
    ensures
        r@ == body_bytes(
            (BodyModel {
                changes: changes.deep_view(),
                objs: objs.deep_view(),
                keys: public_keys.deep_view(),
                attestations: attestations.deep_view(),
            }),
        ),
{
    let mut out: Vec<u8> = Vec::new();
    objs.write(&mut out);
    public_keys.write(&mut out);
    changes.write(&mut out);
    attestations.write(&mut out);
    assert(out@ =~= body_bytes(
        (BodyModel {
            changes: changes.deep_view(),
            objs: objs.deep_view(),
            keys: public_keys.deep_view(),
            attestations: attestations.deep_view(),
        }),
    ));
    out
}

/// What the parts of a body are, objects first.
pub type Parts = (Vec<ChangeNode>, Vec<(Oid, SealedObject)>, SortedMap<Oid, ContentKey>, Vec<Attestation>);

/// Reads a body of format `major`.
pub fn decode(b: &[u8], major: u8) -> (r: Result<Parts, RepoError>)
    ensures
        match r {
            Ok(p) => parse_row(b@, major) == Ok::<RowModel, ErrorModel>(
                (p.1.deep_view(), (p.2.deep_view(), (p.0.deep_view(), p.3.deep_view()))),
            ),
            Err(e) => parse_row(b@, major) == Err::<RowModel, ErrorModel>(e.deep_view()),
        },
{
    if major < BUNDLE_MAJOR || major > FORMAT_MAJOR {
        return Err(RepoError::UnsupportedFormat { found: major, supported: FORMAT_MAJOR });
    }
    let mut c = Cursor::new(b);
    let (objs, (keys, (changes, attestations))) = BundleRow::read(&mut c)?;
    Ok((changes, objs, keys, attestations))
}

/// The bytes of a grant's body, which is a body like another.
pub fn encode_grant(
    changes: &Vec<ChangeNode>,
    objs: &SortedMap<Oid, SealedObject>,
    public_keys: &SortedMap<Oid, ContentKey>,
    attestations: &Vec<Attestation>,
) -> (r: Vec<u8>)
    ensures
        r@ == body_bytes(
            (BodyModel {
                changes: changes.deep_view(),
                objs: objs.deep_view(),
                keys: public_keys.deep_view(),
                attestations: attestations.deep_view(),
            }),
        ),
{
    encode(changes, objs, public_keys, attestations)
}

/// Reads a grant's body.
pub fn decode_grant(b: &[u8], major: u8) -> (r: Result<Parts, RepoError>)
    ensures
        match r {
            Ok(p) => parse_row(b@, major) == Ok::<RowModel, ErrorModel>(
                (p.1.deep_view(), (p.2.deep_view(), (p.0.deep_view(), p.3.deep_view()))),
            ),
            Err(e) => parse_row(b@, major) == Err::<RowModel, ErrorModel>(e.deep_view()),
        },
{
    decode(b, major)
}

/// A body comes back from its bytes as it went in, whatever follows.
pub proof fn law_body_round_trip(b: BodyModel, t: Seq<u8>)
    requires
        body_fits(b),
    ensures
        parse_row(body_bytes(b) + t, FORMAT_MAJOR) == Ok::<RowModel, ErrorModel>(row_of(b)),
        body_from(row_of(b)) == b,
{
    BundleRow::round_trip(row_of(b), t);
    lemma_map_is_listed::<Oid, SealedModel>(b.objs);
    lemma_gather_rising::<Oid, SealedModel>(pairs_of::<Oid, SealedModel>(b.objs));
}

// ---------------------------------------------------------------------------
// Frames
// ---------------------------------------------------------------------------

/// What a bundle is for.
#[derive(Debug)]
pub enum Frame {
    /// A sync: the sender's purges and what the recipient lacks.
    Sync { purges: Vec<(Oid, String)>, body: BundleBody },
    /// A grant of a key to an identity.
    Grant { grantee: String, body: BundleBody },
    /// A grant whose key is sealed to the recipient.
    SealedGrant {
        grantee_pubkey: [u8; 32],
        wrapped_key: [u8; 80],
        oid: Oid,
        reveal_at: u64,
        expires_at: Option<u64>,
        body: BundleBody,
    },
}

/// The head of a sealed grant.
pub struct SealedHead {
    pub grantee_pubkey: Seq<u8>,
    pub wrapped_key: Seq<u8>,
    pub oid: Seq<u8>,
    pub reveal_at: u64,
    pub expires_at: Option<u64>,
}

/// The model of a [`Frame`].
pub enum FrameModel {
    Sync { purges: Seq<(Seq<u8>, Seq<char>)>, body: BodyModel },
    Grant { grantee: Seq<char>, body: BodyModel },
    SealedGrant { head: SealedHead, body: BodyModel },
}

impl DeepView for Frame {
    type V = FrameModel;

    open spec fn deep_view(&self) -> FrameModel {
        match *self {
            Frame::Sync { purges, body } => FrameModel::Sync {
                purges: purges.deep_view(),
                body: body.deep_view(),
            },
            Frame::Grant { grantee, body } => FrameModel::Grant { grantee: grantee@, body: body.deep_view() },
            Frame::SealedGrant { grantee_pubkey, wrapped_key, oid, reveal_at, expires_at, body } => FrameModel::SealedGrant {
                head: SealedHead {
                    grantee_pubkey: grantee_pubkey@,
                    wrapped_key: wrapped_key@,
                    oid: oid.deep_view(),
                    reveal_at,
                    expires_at,
                },
                body: body.deep_view(),
            },
        }
    }
}

/// A purge list in bytes.
pub type PurgeRow = Vec<(Oid, String)>;

/// The head of a sealed grant in bytes.
pub type SealedRow = ([u8; 32], ([u8; 80], (Oid, (u64, Option<u64>))));

pub open spec fn head_row(h: SealedHead) -> (Seq<u8>, (Seq<u8>, (Seq<u8>, (u64, Option<u64>)))) {
    (h.grantee_pubkey, (h.wrapped_key, (h.oid, (h.reveal_at, h.expires_at))))
}

/// The bytes of a frame: its kind, its head, its body.
pub open spec fn frame_bytes(f: FrameModel) -> Seq<u8> {
    match f {
        FrameModel::Sync { purges, body } => seq![0u8] + (PurgeRow::wire(purges) + body_bytes(body)),
        FrameModel::Grant { grantee, body } => seq![1u8] + (String::wire(grantee) + body_bytes(body)),
        FrameModel::SealedGrant { head, body } => seq![3u8] + (SealedRow::wire(head_row(head)) + body_bytes(
            body,
        )),
    }
}

/// A frame that its bytes hold all of.
pub open spec fn frame_fits(f: FrameModel) -> bool {
    match f {
        FrameModel::Sync { purges, body } => PurgeRow::fits(purges) && body_fits(body),
        FrameModel::Grant { grantee, body } => String::fits(grantee) && body_fits(body),
        FrameModel::SealedGrant { head, body } => SealedRow::fits(head_row(head)) && body_fits(body),
    }
}

/// The words for a byte that is no frame's.
pub open spec fn bad_frame(t: u8) -> ErrorModel {
    ErrorModel::Backend("unknown bundle tag "@ + crate::text::decimal(t as nat))
}

/// What the bytes of a frame read as.
pub open spec fn parse_frame(s: Seq<u8>) -> Result<FrameModel, ErrorModel> {
    match u8::parse(s) {
        Ok((tag, rest)) => if tag == 0 {
            match PurgeRow::parse(rest) {
                Ok((purges, rest2)) => match parse_row(rest2, FORMAT_MAJOR) {
                    Ok(r) => Ok(FrameModel::Sync { purges, body: body_from(r) }),
                    Err(e) => Err(e),
                },
                Err(e) => Err(e),
            }
        } else if tag == 1 {
            match String::parse(rest) {
                Ok((grantee, rest2)) => match parse_row(rest2, FORMAT_MAJOR) {
                    Ok(r) => Ok(FrameModel::Grant { grantee, body: body_from(r) }),
                    Err(e) => Err(e),
                },
                Err(e) => Err(e),
            }
        } else if tag == 3 {
            match SealedRow::parse(rest) {
                Ok((h, rest2)) => match parse_row(rest2, FORMAT_MAJOR) {
                    Ok(r) => Ok(
                        FrameModel::SealedGrant {
                            head: SealedHead {
                                grantee_pubkey: h.0,
                                wrapped_key: h.1.0,
                                oid: h.1.1.0,
                                reveal_at: h.1.1.1.0,
                                expires_at: h.1.1.1.1,
                            },
                            body: body_from(r),
                        },
                    ),
                    Err(e) => Err(e),
                },
                Err(e) => Err(e),
            }
        } else {
            Err(bad_frame(tag))
        },
        Err(e) => Err(e),
    }
}

impl BundleBody {
    fn write(&self, out: &mut Vec<u8>)
        ensures
            final(out)@ == old(out)@ + body_bytes(self.deep_view()),
    {
        let b = encode(&self.changes, &self.objs, &self.keys, &self.attestations);
        crate::format::put_raw(out, b.as_slice());
    }

    fn read(b: &[u8]) -> (r: Result<BundleBody, RepoError>)
        ensures
            match r {
                Ok(x) => parse_row(b@, FORMAT_MAJOR) matches Ok(row) && x.deep_view() == body_from(row),
                Err(e) => parse_row(b@, FORMAT_MAJOR) == Err::<RowModel, ErrorModel>(e.deep_view()),
            },
    {
        let (changes, objs, keys, attestations) = decode(b, FORMAT_MAJOR)?;
        let objs = gathered(&objs);
        Ok(BundleBody { changes, objs, keys, attestations })
    }
}

impl Frame {
    /// The bytes of this frame.
    pub fn encode(&self) -> (r: Vec<u8>)
        ensures
            r@ == frame_bytes(self.deep_view()),
    {
        let mut out: Vec<u8> = Vec::new();
        match self {
            Frame::Sync { purges, body } => {
                out.push(0u8);
                purges.write(&mut out);
                body.write(&mut out);
            },
            Frame::Grant { grantee, body } => {
                out.push(1u8);
                grantee.write(&mut out);
                body.write(&mut out);
            },
            Frame::SealedGrant { grantee_pubkey, wrapped_key, oid, reveal_at, expires_at, body } => {
                out.push(3u8);
                grantee_pubkey.write(&mut out);
                wrapped_key.write(&mut out);
                oid.write(&mut out);
                reveal_at.write(&mut out);
                expires_at.write(&mut out);
                proof {
                    assert(grantee_pubkey.deep_view() =~= grantee_pubkey@);
                    assert(wrapped_key.deep_view() =~= wrapped_key@);
                    assert(expires_at.deep_view() == *expires_at);
                }
                body.write(&mut out);
            },
        }
        assert(out@ =~= frame_bytes(self.deep_view()));
        out
    }

    /// Reads a frame.
    pub fn decode(b: &[u8]) -> (r: Result<Frame, RepoError>)
        ensures
            match r {
                Ok(f) => parse_frame(b@) == Ok::<FrameModel, ErrorModel>(f.deep_view()),
                Err(e) => parse_frame(b@) == Err::<FrameModel, ErrorModel>(e.deep_view()),
            },
    {
        let mut c = Cursor::new(b);
        let tag: u8 = u8::read(&mut c)?;
        if tag == 0 {
            let purges = PurgeRow::read(&mut c)?;
            let body = BundleBody::read(c.take_rest())?;
            Ok(Frame::Sync { purges, body })
        } else if tag == 1 {
            let grantee = String::read(&mut c)?;
            let body = BundleBody::read(c.take_rest())?;
            Ok(Frame::Grant { grantee, body })
        } else if tag == 3 {
            let (grantee_pubkey, (wrapped_key, (oid, (reveal_at, expires_at)))) = SealedRow::read(&mut c)?;
            let body = BundleBody::read(c.take_rest())?;
            proof {
                assert(grantee_pubkey.deep_view() =~= grantee_pubkey@);
                assert(wrapped_key.deep_view() =~= wrapped_key@);
                assert(expires_at.deep_view() == expires_at);
            }
            Ok(Frame::SealedGrant { grantee_pubkey, wrapped_key, oid, reveal_at, expires_at, body })
        } else {
            let mut text = "unknown bundle tag ".to_owned();
            push_decimal(&mut text, tag as u64);
            Err(RepoError::Backend(text))
        }
    }
}

/// A frame comes back from its bytes as it went in.
pub proof fn law_frame_round_trip(f: FrameModel)
    requires
        frame_fits(f),
    ensures
        parse_frame(frame_bytes(f)) == Ok::<FrameModel, ErrorModel>(f),
{
    match f {
        FrameModel::Sync { purges, body } => {
            u8::round_trip(0u8, PurgeRow::wire(purges) + body_bytes(body));
            PurgeRow::round_trip(purges, body_bytes(body));
            law_body_round_trip(body, Seq::empty());
            assert(body_bytes(body) + Seq::<u8>::empty() =~= body_bytes(body));
        },
        FrameModel::Grant { grantee, body } => {
            u8::round_trip(1u8, String::wire(grantee) + body_bytes(body));
            String::round_trip(grantee, body_bytes(body));
            law_body_round_trip(body, Seq::empty());
            assert(body_bytes(body) + Seq::<u8>::empty() =~= body_bytes(body));
        },
        FrameModel::SealedGrant { head, body } => {
            u8::round_trip(3u8, SealedRow::wire(head_row(head)) + body_bytes(body));
            SealedRow::round_trip(head_row(head), body_bytes(body));
            law_body_round_trip(body, Seq::empty());
            assert(body_bytes(body) + Seq::<u8>::empty() =~= body_bytes(body));
        },
    }
}

/// A bundle begins with what it is: a zero for a sync, a one for a grant, a three for a grant
/// whose key is sealed. No other first byte stands for any.
pub proof fn law_bundles_begin_with_their_kind(f: FrameModel, tag: u8, rest: Seq<u8>)
    ensures
        frame_bytes(f).len() > 0,
        f is Sync <==> frame_bytes(f)[0] == 0,
        f is Grant <==> frame_bytes(f)[0] == 1,
        f is SealedGrant <==> frame_bytes(f)[0] == 3,
        tag != 0 && tag != 1 && tag != 3 ==> parse_frame(seq![tag] + rest) is Err,
{
    u8::round_trip(tag, rest);
    assert(u8::wire(tag) =~= seq![tag]);
}

} // verus!
