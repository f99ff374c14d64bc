//! Attestations: detachable, advisory signatures over a change.
//!
//! An attestation never enters a change's id and never decides a merge. One that
//! does not verify is dropped, and nothing else is.

use crate::crypto::{ed25519_accepts, ed25519_verify};
use crate::format::{put_raw, Cursor, Parsed, Wire};
use crate::seqs::{lemma_filter_contains, lemma_filter_none, lemma_filter_step};
use crate::sorted::{lemma_entry, lemma_finite, lemma_map_is_listed, pairs_of, place_of, SortedMap};
use crate::types::{Oid, RepoError};
use crate::value::{Key, Value};
use vstd::prelude::*;
use vstd::utf8::encode_utf8;

verus! {

/// A signature over a change's id by some identity, with a role.
#[derive(Debug, PartialEq, Eq)]
pub struct Attestation {
    /// The change that is attested.
    pub change_id: Oid,
    /// The attester's public key.
    pub attester: [u8; 32],
    /// What the attester says of themselves: "co-author", "reviewed", ...
    pub role: String,
    /// The signature over [`signing_bytes`].
    pub signature: [u8; 64],
}

/// The model of an [`Attestation`].
pub struct AttestationModel {
    pub change_id: Seq<u8>,
    pub attester: Seq<u8>,
    pub role: Seq<char>,
    pub signature: Seq<u8>,
}

impl DeepView for Attestation {
    type V = AttestationModel;

    open spec fn deep_view(&self) -> AttestationModel {
        AttestationModel {
            change_id: self.change_id.deep_view(),
            attester: self.attester@,
            role: self.role@,
            signature: self.signature@,
        }
    }
}

impl Value for Attestation {
    fn dup(&self) -> (r: Self) {
        Attestation {
            change_id: self.change_id,
            attester: self.attester,
            role: self.role.clone(),
            signature: self.signature,
        }
    }

    fn same(&self, other: &Self) -> (b: bool) {
        proof {
            assert(self.attester.deep_view() =~= self.attester@);
            assert(other.attester.deep_view() =~= other.attester@);
            assert(self.signature.deep_view() =~= self.signature@);
            assert(other.signature.deep_view() =~= other.signature@);
        }
        self.change_id.same(&other.change_id) && self.attester.same(&other.attester) && self.role == other.role
            && self.signature.same(&other.signature)
    }
}

impl Clone for Attestation {
    fn clone(&self) -> (r: Self)
        ensures
            r.deep_view() == self.deep_view(),
    {
        self.dup()
    }
}

/// What an attestation signs: change, attester, role. None of them can be
/// exchanged without breaking the signature.
pub open spec fn attested_bytes(change_id: Seq<u8>, attester: Seq<u8>, role: Seq<char>) -> Seq<u8> {
    change_id + attester + encode_utf8(role)
}

pub fn signing_bytes(change_id: &Oid, attester: &[u8; 32], role: &str) -> (r: Vec<u8>)
    ensures
        r@ == attested_bytes(change_id.deep_view(), attester@, role@),
{
    let mut m: Vec<u8> = Vec::new();
    put_raw(&mut m, change_id.0.as_slice());
    put_raw(&mut m, attester.as_slice());
    put_raw(&mut m, role.as_bytes());
    assert(m@ =~= attested_bytes(change_id.deep_view(), attester@, role@));
    m
}

/// The attester has signed just this.
pub open spec fn attests(a: AttestationModel) -> bool {
    ed25519_accepts(a.attester, attested_bytes(a.change_id, a.attester, a.role), a.signature)
}

impl Attestation {
    /// Whether the signature is the attester's over this change and role.
    pub fn verify(&self) -> (b: bool)
        ensures
            b == attests(self.deep_view()),
    {
        let m = signing_bytes(&self.change_id, &self.attester, self.role.as_str());
        ed25519_verify(&self.attester, m.as_slice(), &self.signature)
    }
}

/// What tells attestations apart: change, attester, role.
pub type AttestationKey = (Oid, ([u8; 32], String));

/// The model of an [`AttestationLog`].
pub type LogModel = Map<(Seq<u8>, (Seq<u8>, Seq<char>)), AttestationModel>;

pub open spec fn key_of(a: AttestationModel) -> (Seq<u8>, (Seq<u8>, Seq<char>)) {
    (a.change_id, (a.attester, a.role))
}

/// Attestations, one for each change, attester and role.
#[derive(Debug)]
pub struct AttestationLog {
    entries: SortedMap<AttestationKey, Attestation>,
}

impl DeepView for AttestationLog {
    type V = LogModel;

    closed spec fn deep_view(&self) -> LogModel {
        self.entries.deep_view()
    }
}

/// Every attestation stands under its own change, attester and role.
pub open spec fn filed_right(m: LogModel) -> bool {
    forall|k: (Seq<u8>, (Seq<u8>, Seq<char>))| #[trigger] m.contains_key(k) ==> key_of(m[k]) == k
}

/// `a` comes before `b` in the order of a log.
pub open spec fn comes_before(a: AttestationModel, b: AttestationModel) -> bool {
    AttestationKey::before(key_of(a), key_of(b))
}

/// The attestations of a list rise by change, attester and role, so that none of these
/// occurs twice.
pub open spec fn in_log_order(s: Seq<AttestationModel>) -> bool {
    forall|i: int, j: int| 0 <= i < j < s.len() ==> comes_before(#[trigger] s[i], #[trigger] s[j])
}

/// The attestations in order of change, attester and role.
pub open spec fn attestations_in_order(m: LogModel) -> Seq<AttestationModel> {
    pairs_of::<AttestationKey, AttestationModel>(m).map_values(
        |p: ((Seq<u8>, (Seq<u8>, Seq<char>)), AttestationModel)| p.1,
    )
}

/// The attestations over one change, in order.
pub open spec fn attestations_for(m: LogModel, change_id: Seq<u8>) -> Seq<AttestationModel> {
    attestations_in_order(m).filter(|a: AttestationModel| a.change_id == change_id)
}

/// A log lists each of its attestations once, in order.
pub proof fn law_log_is_in_order(m: LogModel)
    requires
        m.dom().finite(),
        filed_right(m),
    ensures
        in_log_order(attestations_in_order(m)),
        forall|a: AttestationModel| #[trigger]
            attestations_in_order(m).contains(a) <==> m.contains_key(key_of(a)) && m[key_of(a)] == a,
{
    lemma_map_is_listed::<AttestationKey, AttestationModel>(m);
    let s = pairs_of::<AttestationKey, AttestationModel>(m);
    let r = attestations_in_order(m);
    assert forall|i: int| 0 <= i < s.len() implies key_of(#[trigger] r[i]) == s[i].0 by {
        lemma_entry::<AttestationKey, AttestationModel>(s, i);
        assert(m.contains_key(s[i].0));
    }
    assert forall|i: int, j: int| 0 <= i < j < r.len() implies comes_before(#[trigger] r[i], #[trigger] r[j]) by {
        assert(AttestationKey::before(s[i].0, s[j].0));
    }
    assert forall|a: AttestationModel| #[trigger] r.contains(a) <==> m.contains_key(key_of(a)) && m[key_of(a)]
        == a by {
        if r.contains(a) {
            let i = choose|i: int| 0 <= i < r.len() && r[i] == a;
            lemma_entry::<AttestationKey, AttestationModel>(s, i);
        }
        if m.contains_key(key_of(a)) && m[key_of(a)] == a {
            let i = place_of(s, key_of(a));
            lemma_entry::<AttestationKey, AttestationModel>(s, i);
            assert(r[i] == a);
        }
    }
}

/// A part of a list in order is in order.
proof fn lemma_part_in_order(s: Seq<AttestationModel>, f: spec_fn(AttestationModel) -> bool)
    requires
        in_log_order(s),
    ensures
        in_log_order(s.filter(f)),
    decreases s.len(),
{
    reveal(Seq::filter);
    if s.len() > 0 {
        let t = s.drop_last();
        assert forall|i: int, j: int| 0 <= i < j < t.len() implies comes_before(#[trigger] t[i], #[trigger] t[j]) by {
            assert(comes_before(s[i], s[j]));
        }
        lemma_part_in_order(t, f);
        let r = t.filter(f);
        if f(s.last()) {
            assert forall|i: int, j: int| 0 <= i < j < s.filter(f).len() implies comes_before(
                #[trigger] s.filter(f)[i],
                #[trigger] s.filter(f)[j],
            ) by {
                assert(s.filter(f)[i] == r[i]);
                if j == r.len() {
                    assert(r.contains(r[i]));
                    lemma_filter_contains(t, f, r[i]);
                    let k = choose|k: int| 0 <= k < t.len() && t[k] == r[i];
                    assert(comes_before(s[k], s[s.len() - 1]));
                } else {
                    assert(s.filter(f)[j] == r[j]);
                }
            }
        }
    }
}

/// The attestations over one change are those of the log that are over it, each once, in
/// order of attester and role.
pub proof fn law_change_lists_its_attestations(m: LogModel, change_id: Seq<u8>)
    requires
        m.dom().finite(),
        filed_right(m),
    ensures
        in_log_order(attestations_for(m, change_id)),
        forall|a: AttestationModel| #[trigger]
            attestations_for(m, change_id).contains(a) <==> a.change_id == change_id && m.contains_key(key_of(a))
                && m[key_of(a)] == a,
{
    let f = |a: AttestationModel| a.change_id == change_id;
    law_log_is_in_order(m);
    lemma_part_in_order(attestations_in_order(m), f);
    assert forall|a: AttestationModel| #[trigger]
        attestations_for(m, change_id).contains(a) <==> a.change_id == change_id && m.contains_key(key_of(a))
            && m[key_of(a)] == a by {
        lemma_filter_contains(attestations_in_order(m), f, a);
    }
}

impl AttestationLog {
    #[verifier::type_invariant]
    spec fn well_filed(self) -> bool {
        filed_right(self.entries.deep_view())
    }

    pub fn new() -> (r: Self)
        ensures
            r.deep_view() == Map::<(Seq<u8>, (Seq<u8>, Seq<char>)), AttestationModel>::empty(),
    {
        AttestationLog { entries: SortedMap::new() }
    }

    /// Files an attestation, in place of one for the same change, attester and role.
    pub fn insert(&mut self, att: Attestation)
        ensures
            final(self).deep_view() == old(self).deep_view().insert(key_of(att.deep_view()), att.deep_view()),
    {
        proof {
            use_type_invariant(&*self);
        }
        let key = (att.change_id, (att.attester, att.role.clone()));
        assert(att.attester.deep_view() =~= att.attester@);
        let mut entries: SortedMap<AttestationKey, Attestation> = SortedMap::new();
        std::mem::swap(&mut entries, &mut self.entries);
        entries.insert(key, att);
        self.entries = entries;
    }

    /// Takes the attestations of another log in.
    pub fn merge(&mut self, other: &AttestationLog)
        ensures
            final(self).deep_view() == old(self).deep_view().union_prefer_right(other.deep_view()),
    {
        proof {
            use_type_invariant(&*self);
            use_type_invariant(other);
        }
        let mut entries: SortedMap<AttestationKey, Attestation> = SortedMap::new();
        std::mem::swap(&mut entries, &mut self.entries);
        entries.put_all(&other.entries);
        self.entries = entries;
    }

    /// Every attestation, in order.
    pub fn iter(&self) -> (r: Vec<Attestation>)
        ensures
            r.deep_view() == attestations_in_order(self.deep_view()),
            filed_right(self.deep_view()),
            in_log_order(r.deep_view()),
    {
        proof {
            use_type_invariant(self);
            lemma_finite(self.entries.pairs());
            law_log_is_in_order(self.deep_view());
        }
        self.entries.to_values()
    }

    /// The attestations over one change, in order.
    pub fn for_change(&self, change_id: &Oid) -> (r: Vec<Attestation>)
        ensures
            r.deep_view() == attestations_for(self.deep_view(), change_id.deep_view()),
            filed_right(self.deep_view()),
            in_log_order(r.deep_view()),
    {
        let all = self.iter();
        let ghost s = all.deep_view();
        let ghost f = |a: AttestationModel| a.change_id == change_id.deep_view();
        let mut r: Vec<Attestation> = crate::seqs::none();
        let mut i: usize = 0;
        proof {
            lemma_filter_none(s, f);
        }
        while i < all.len()
            invariant
                0 <= i <= all@.len(),
                s == all.deep_view(),
                f == (|a: AttestationModel| a.change_id == change_id.deep_view()),
                r.deep_view() == s.take(i as int).filter(f),
            decreases all@.len() - i,
        {
            proof {
                lemma_filter_step(s, i as int, f);
            }
            if all[i].change_id.same(change_id) {
                crate::seqs::push(&mut r, all[i].dup());
            }
            i = i + 1;
        }
        proof {
            assert(s.take(s.len() as int) =~= s);
            lemma_part_in_order(s, f);
        }
        r
    }

    /// How many attestations there are.
    pub fn len(&self) -> (n: usize)
        ensures
            n == attestations_in_order(self.deep_view()).len(),
    {
        self.entries.len()
    }

    pub fn is_empty(&self) -> (b: bool)
        ensures
            b == (self.deep_view() == Map::<(Seq<u8>, (Seq<u8>, Seq<char>)), AttestationModel>::empty()),
    {
        self.entries.is_empty()
    }
}

impl Default for AttestationLog {
    fn default() -> (r: Self)
        ensures
            r.deep_view() == Map::<(Seq<u8>, (Seq<u8>, Seq<char>)), AttestationModel>::empty(),
    {
        AttestationLog::new()
    }
}

/// The fields of an attestation in the order of its bytes.
pub type AttestationRow = (Oid, ([u8; 32], (String, [u8; 64])));

impl Wire for Attestation {
    open spec fn wire(v: AttestationModel) -> Seq<u8> {
        AttestationRow::wire((v.change_id, (v.attester, (v.role, v.signature))))
    }

    open spec fn parse(s: Seq<u8>) -> Parsed<AttestationModel> {
        match AttestationRow::parse(s) {
            Ok((r, rest)) => Ok(
                (
                    AttestationModel {
                        change_id: r.0,
                        attester: r.1.0,
                        role: r.1.1.0,
                        signature: r.1.1.1,
                    },
                    rest,
                ),
            ),
            Err(e) => Err(e),
        }
    }

    open spec fn fits(v: AttestationModel) -> bool {
        AttestationRow::fits((v.change_id, (v.attester, (v.role, v.signature))))
    }

    proof fn round_trip(v: AttestationModel, t: Seq<u8>) {
        AttestationRow::round_trip((v.change_id, (v.attester, (v.role, v.signature))), t);
    }

    fn write(&self, out: &mut Vec<u8>) {
        self.change_id.write(out);
        self.attester.write(out);
        self.role.write(out);
        self.signature.write(out);
        proof {
            assert(self.attester.deep_view() =~= self.attester@);
            assert(self.signature.deep_view() =~= self.signature@);
            assert(out@ =~= old(out)@ + Self::wire(self.deep_view()));
        }
    }

    fn read(c: &mut Cursor) -> (r: Result<Self, RepoError>) {
        let row = AttestationRow::read(c)?;
        let (change_id, (attester, (role, signature))) = row;
        assert(attester.deep_view() =~= attester@);
        assert(signature.deep_view() =~= signature@);
        Ok(Attestation { change_id, attester, role, signature })
    }
}

/// Filing the same attestation twice files it once, and merging is idempotent.
pub proof fn law_attesting_is_idempotent(m: LogModel, other: LogModel, a: AttestationModel)
    ensures
        m.insert(key_of(a), a).insert(key_of(a), a) == m.insert(key_of(a), a),
        m.union_prefer_right(other).union_prefer_right(other) == m.union_prefer_right(other),
{
    assert(m.insert(key_of(a), a).insert(key_of(a), a) =~= m.insert(key_of(a), a));
    assert(m.union_prefer_right(other).union_prefer_right(other) =~= m.union_prefer_right(other));
}

/// What an attestation signs holds the change, then the attester, then the role: of two that
/// sign the same, none of these differs.
pub proof fn law_attestation_binds_all(a: AttestationModel, b: AttestationModel)
    requires
        a.change_id.len() == 32,
        b.change_id.len() == 32,
        a.attester.len() == 32,
        b.attester.len() == 32,
    ensures
        ({
            let s = attested_bytes(a.change_id, a.attester, a.role);
            &&& s.take(32) == a.change_id
            &&& s.subrange(32, 64) == a.attester
            &&& s.skip(64) == encode_utf8(a.role)
            &&& s == attested_bytes(b.change_id, b.attester, b.role) ==> a.change_id == b.change_id && a.attester
                == b.attester && encode_utf8(a.role) == encode_utf8(b.role)
            &&& attests(a) <==> ed25519_accepts(a.attester, s, a.signature)
        }),
{
    let s = attested_bytes(a.change_id, a.attester, a.role);
    let t = attested_bytes(b.change_id, b.attester, b.role);
    assert(s.take(32) =~= a.change_id);
    assert(s.subrange(32, 64) =~= a.attester);
    assert(s.skip(64) =~= encode_utf8(a.role));
    assert(t.take(32) =~= b.change_id);
    assert(t.subrange(32, 64) =~= b.attester);
    assert(t.skip(64) =~= encode_utf8(b.role));
}

/// Attestations are told apart by change, attester and role: a log holds one for each of
/// these, and filing one touches no other.
pub proof fn law_attestations_are_filed_apart(m: LogModel, a: AttestationModel, b: AttestationModel)
    ensures
        key_of(a) == key_of(b) <==> a.change_id == b.change_id && a.attester == b.attester && a.role == b.role,
        m.insert(key_of(a), a)[key_of(a)] == a,
        key_of(a) != key_of(b) && m.contains_key(key_of(b)) ==> m.insert(key_of(a), a)[key_of(b)] == m[key_of(b)],
{
}

} // verus!
