//! The manifest: the append-only audit trail of grants.

use crate::seqs::{lemma_filter_contains, lemma_filter_none, lemma_filter_step};
use crate::sorted::{among, lemma_among, lemma_entry, lemma_map_is_listed, map_of, pairs_of, rising, SortedMap};
use crate::text::same_text;
use crate::types::Oid;
use crate::value::{same_bytes, Value};
use vstd::prelude::*;

verus! {

/// Stands for a public key that is not recorded.
pub const UNKNOWN_PUBKEY: [u8; 32] = [
    0, 0, 0, 0, 0, 0, 0, 0, 0, 0, 0, 0, 0, 0, 0, 0, 0, 0, 0, 0, 0, 0, 0, 0, 0, 0, 0, 0, 0, 0, 0, 0,
];

/// One grant.
#[derive(Debug, PartialEq, Eq)]
pub struct GrantEntry {
    /// The object that the grant is for.
    pub oid: Oid,
    /// The name of the identity that got the key.
    pub grantee: String,
    /// Its public key, or [`UNKNOWN_PUBKEY`].
    pub grantee_pubkey: [u8; 32],
    /// The public key of the identity that gave it, or [`UNKNOWN_PUBKEY`].
    pub grantor_pubkey: [u8; 32],
    /// When the grant was given, in unix seconds.
    pub granted_at: u64,
    /// When it lapses, if ever.
    pub expires_at: Option<u64>,
}

/// The model of a [`GrantEntry`].
pub struct GrantModel {
    pub oid: Seq<u8>,
    pub grantee: Seq<char>,
    pub grantee_pubkey: Seq<u8>,
    pub grantor_pubkey: Seq<u8>,
    pub granted_at: u64,
    pub expires_at: Option<u64>,
}

impl DeepView for GrantEntry {
    type V = GrantModel;

    open spec fn deep_view(&self) -> GrantModel {
        GrantModel {
            oid: self.oid.deep_view(),
            grantee: self.grantee@,
            grantee_pubkey: self.grantee_pubkey@,
            grantor_pubkey: self.grantor_pubkey@,
            granted_at: self.granted_at,
            expires_at: self.expires_at,
        }
    }
}

impl Value for GrantEntry {
    fn dup(&self) -> (r: Self) {
        GrantEntry {
            oid: self.oid,
            grantee: self.grantee.clone(),
            grantee_pubkey: self.grantee_pubkey,
            grantor_pubkey: self.grantor_pubkey,
            granted_at: self.granted_at,
            expires_at: self.expires_at,
        }
    }

    fn same(&self, other: &Self) -> (b: bool) {
        let e = match (self.expires_at, other.expires_at) {
            (Some(a), Some(b)) => a == b,
            (None, None) => true,
            _ => false,
        };
        e && self.oid.same(&other.oid) && self.grantee == other.grantee && same_bytes(
            self.grantee_pubkey.as_slice(),
            other.grantee_pubkey.as_slice(),
        ) && same_bytes(self.grantor_pubkey.as_slice(), other.grantor_pubkey.as_slice())
            && self.granted_at == other.granted_at
    }
}

impl Clone for GrantEntry {
    fn clone(&self) -> (r: Self)
        ensures
            r.deep_view() == self.deep_view(),
    {
        self.dup()
    }
}

/// The grant has lapsed at `now`.
pub open spec fn lapsed(g: GrantModel, now: u64) -> bool {
    g.expires_at matches Some(t) && t <= now
}

impl GrantEntry {
    /// Whether the grantor's public key is recorded.
    pub fn has_grantor(&self) -> (b: bool)
        ensures
            b == (self.grantor_pubkey@ != UNKNOWN_PUBKEY@),
    {
        let unknown: [u8; 32] = UNKNOWN_PUBKEY;
        !same_bytes(self.grantor_pubkey.as_slice(), unknown.as_slice())
    }

    /// Whether the grant has lapsed.
    pub fn is_expired(&self, now: u64) -> (b: bool)
        ensures
            b == lapsed(self.deep_view(), now),
    {
        match self.expires_at {
            Some(t) => t <= now,
            None => false,
        }
    }
}

/// The model of a [`Manifest`]: one grant for each object and grantee.
pub type ManifestModel = Map<(Seq<u8>, Seq<char>), GrantModel>;

/// Append-only audit trail of grants, one for each object and grantee.
#[derive(Debug)]
pub struct Manifest {
    entries: SortedMap<(Oid, String), GrantEntry>,
}

impl DeepView for Manifest {
    type V = ManifestModel;

    closed spec fn deep_view(&self) -> ManifestModel {
        self.entries.deep_view()
    }
}

/// The manifest after a grant was recorded: an earlier record for the same object
/// and grantee stays.
pub open spec fn with_record(m: ManifestModel, g: GrantModel) -> ManifestModel {
    if m.contains_key((g.oid, g.grantee)) {
        m
    } else {
        m.insert((g.oid, g.grantee), g)
    }
}

/// A grant with the earlier of two dates.
pub open spec fn dated_earlier(g: GrantModel, at: u64) -> GrantModel {
    if at < g.granted_at {
        GrantModel { granted_at: at, ..g }
    } else {
        g
    }
}

/// Two manifests in one: of a grant that both record, the first one's, with the
/// earlier date.
pub open spec fn merged(a: ManifestModel, b: ManifestModel) -> ManifestModel {
    Map::new(
        |k: (Seq<u8>, Seq<char>)| a.contains_key(k) || b.contains_key(k),
        |k: (Seq<u8>, Seq<char>)|
            if a.contains_key(k) && b.contains_key(k) {
                dated_earlier(a[k], b[k].granted_at)
            } else if a.contains_key(k) {
                a[k]
            } else {
                b[k]
            },
    )
}

/// The grants in order of object and grantee.
pub open spec fn grants_in_order(m: ManifestModel) -> Seq<GrantModel> {
    pairs_of::<(Oid, String), GrantModel>(m).map_values(
        |p: ((Seq<u8>, Seq<char>), GrantModel)| p.1,
    )
}

/// The grants whose key has the property, in order.
pub open spec fn grants_where(m: ManifestModel, f: spec_fn((Seq<u8>, Seq<char>)) -> bool) -> Seq<GrantModel> {
    pairs_of::<(Oid, String), GrantModel>(m).filter(
        |p: ((Seq<u8>, Seq<char>), GrantModel)| f(p.0),
    ).map_values(|p: ((Seq<u8>, Seq<char>), GrantModel)| p.1)
}

/// Being for this object.
pub open spec fn of_object(oid: Seq<u8>) -> spec_fn((Seq<u8>, Seq<char>)) -> bool {
    |k: (Seq<u8>, Seq<char>)| k.0 == oid
}

/// Being to this identity.
pub open spec fn of_name(name: Seq<char>) -> spec_fn((Seq<u8>, Seq<char>)) -> bool {
    |k: (Seq<u8>, Seq<char>)| k.1 == name
}

/// The grants for an object, in order of grantee.
pub open spec fn grants_for_object(m: ManifestModel, oid: Seq<u8>) -> Seq<GrantModel> {
    grants_where(m, of_object(oid))
}

/// The grants to an identity, in order of object.
pub open spec fn grants_to_name(m: ManifestModel, name: Seq<char>) -> Seq<GrantModel> {
    grants_where(m, of_name(name))
}

impl Manifest {
    pub fn new() -> (r: Self)
        ensures
            r.deep_view() == Map::<(Seq<u8>, Seq<char>), GrantModel>::empty(),
    {
        Manifest { entries: SortedMap::new() }
    }

    /// Records a grant. If one is on record for this object and grantee, it stays
    /// as it is.
    pub fn record(
        &mut self,
        oid: Oid,
        grantee: String,
        grantee_pubkey: [u8; 32],
        grantor_pubkey: [u8; 32],
        granted_at: u64,
        expires_at: Option<u64>,
    )
        ensures
            final(self).deep_view() == with_record(
                old(self).deep_view(),
                (GrantModel {
                    oid: oid.deep_view(),
                    grantee: grantee@,
                    grantee_pubkey: grantee_pubkey@,
                    grantor_pubkey: grantor_pubkey@,
                    granted_at,
                    expires_at,
                }),
            ),
    {
        let key = (oid, grantee.clone());
        if !self.entries.contains_key(&key) {
            self.entries.insert(
                key,
                GrantEntry { oid, grantee, grantee_pubkey, grantor_pubkey, granted_at, expires_at },
            );
        }
    }

    /// Takes the grants of `other` in, keeping the earlier date of one that both
    /// record.
    pub fn merge(&mut self, other: &Manifest)
        ensures
            final(self).deep_view() == merged(old(self).deep_view(), other.deep_view()),
    {
        let n: usize = other.entries.len();
        let ghost s = other.entries.pairs();
        let ghost a = self.deep_view();
        let ghost b = other.deep_view();
        let mut i: usize = 0;
        proof {
            lemma_among::<(Oid, String), GrantModel>(s, 0);
        }
        while i < n
            invariant
                0 <= i <= n,
                n == s.len(),
                s == other.entries.pairs(),
                b == other.deep_view(),
                b == map_of(s),
                rising::<(Oid, String), GrantModel>(s),
                forall|k: (Seq<u8>, Seq<char>)| #[trigger]
                    self.deep_view().contains_key(k) <==> a.contains_key(k) || among(s, i as int, k),
                forall|k: (Seq<u8>, Seq<char>)| #[trigger]
                    self.deep_view().contains_key(k) ==> self.deep_view()[k] == (if among(s, i as int, k) {
                        merged(a, b)[k]
                    } else {
                        a[k]
                    }),
            decreases n - i,
        {
            let key = other.entries.key_at(i);
            let theirs = other.entries.value_at(i);
            proof {
                lemma_among::<(Oid, String), GrantModel>(s, i as int);
                lemma_entry::<(Oid, String), GrantModel>(s, i as int);
            }
            let ghost had = self.deep_view();
            let ghost k = s[i as int].0;
            assert(key.deep_view() == k);
            assert(merged(a, b).contains_key(k));
            match self.entries.get(key) {
                Some(ours) => {
                    assert(had.contains_key(k) && had[k] == a[k] && ours.deep_view() == a[k]);
                    if theirs.granted_at < ours.granted_at {
                        let mut e = ours.dup();
                        e.granted_at = theirs.granted_at;
                        assert(e.deep_view() == merged(a, b)[k]);
                        self.entries.insert(key.dup(), e);
                        assert(self.deep_view() == had.insert(k, merged(a, b)[k]));
                    }
                },
                None => {
                    self.entries.insert(key.dup(), theirs.dup());
                    assert(self.deep_view() == had.insert(k, merged(a, b)[k]));
                },
            }
            i = i + 1;
        }
        proof {
            lemma_among::<(Oid, String), GrantModel>(s, n as int);
        }
        assert(self.deep_view() =~= merged(a, b));
    }

    /// Every grant, in order of object and grantee.
    pub fn iter(&self) -> (r: Vec<GrantEntry>)
        ensures
            r.deep_view() == grants_in_order(self.deep_view()),
    {
        self.entries.to_values()
    }

    /// All grants for an object.
    pub fn grants_for(&self, oid: &Oid) -> (r: Vec<GrantEntry>)
        ensures
            r.deep_view() == grants_for_object(self.deep_view(), oid.deep_view()),
    {
        let n: usize = self.entries.len();
        let ghost s = self.entries.pairs();
        let ghost f = |p: ((Seq<u8>, Seq<char>), GrantModel)|
            (|k: (Seq<u8>, Seq<char>)| k.0 == oid.deep_view())(p.0);
        let ghost g = |p: ((Seq<u8>, Seq<char>), GrantModel)| p.1;
        let mut r: Vec<GrantEntry> = Vec::new();
        let mut i: usize = 0;
        proof {
            lemma_filter_none(s, f);
            assert(r.deep_view() =~= s.take(0).filter(f).map_values(g));
        }
        while i < n
            invariant
                0 <= i <= n,
                n == s.len(),
                s == self.entries.pairs(),
                f == (|p: ((Seq<u8>, Seq<char>), GrantModel)|
                    (|k: (Seq<u8>, Seq<char>)| k.0 == oid.deep_view())(p.0)),
                g == (|p: ((Seq<u8>, Seq<char>), GrantModel)| p.1),
                r.deep_view() == s.take(i as int).filter(f).map_values(g),
            decreases n - i,
        {
            let key = self.entries.key_at(i);
            proof {
                lemma_filter_step(s, i as int, f);
            }
            if key.0.same(oid) {
                crate::seqs::push(&mut r, self.entries.value_at(i).dup());
                assert(s.take(i as int).filter(f).push(s[i as int]).map_values(g) =~= s.take(
                    i as int,
                ).filter(f).map_values(g).push(g(s[i as int])));
            }
            i = i + 1;
        }
        assert(s.take(n as int) =~= s);
        r
    }

    /// All grants to an identity.
    pub fn grants_to(&self, grantee: &str) -> (r: Vec<GrantEntry>)
        ensures
            r.deep_view() == grants_to_name(self.deep_view(), grantee@),
    {
        let n: usize = self.entries.len();
        let ghost s = self.entries.pairs();
        let ghost f = |p: ((Seq<u8>, Seq<char>), GrantModel)|
            (|k: (Seq<u8>, Seq<char>)| k.1 == grantee@)(p.0);
        let ghost g = |p: ((Seq<u8>, Seq<char>), GrantModel)| p.1;
        let mut r: Vec<GrantEntry> = Vec::new();
        let mut i: usize = 0;
        proof {
            lemma_filter_none(s, f);
            assert(r.deep_view() =~= s.take(0).filter(f).map_values(g));
        }
        while i < n
            invariant
                0 <= i <= n,
                n == s.len(),
                s == self.entries.pairs(),
                f == (|p: ((Seq<u8>, Seq<char>), GrantModel)|
                    (|k: (Seq<u8>, Seq<char>)| k.1 == grantee@)(p.0)),
                g == (|p: ((Seq<u8>, Seq<char>), GrantModel)| p.1),
                r.deep_view() == s.take(i as int).filter(f).map_values(g),
            decreases n - i,
        {
            let key = self.entries.key_at(i);
            proof {
                lemma_filter_step(s, i as int, f);
            }
            if same_text(key.1.as_str(), grantee) {
                crate::seqs::push(&mut r, self.entries.value_at(i).dup());
                assert(s.take(i as int).filter(f).push(s[i as int]).map_values(g) =~= s.take(
                    i as int,
                ).filter(f).map_values(g).push(g(s[i as int])));
            }
            i = i + 1;
        }
        assert(s.take(n as int) =~= s);
        r
    }

    /// The grant of an object to an identity, if there is one.
    pub fn grant_for(&self, oid: &Oid, grantee: &str) -> (r: Option<&GrantEntry>)
        ensures
            match r {
                Some(e) => self.deep_view().contains_key((oid.deep_view(), grantee@))
                    && self.deep_view()[(oid.deep_view(), grantee@)] == e.deep_view(),
                None => !self.deep_view().contains_key((oid.deep_view(), grantee@)),
            },
    {
        let key = (*oid, grantee.to_owned());
        self.entries.get(&key)
    }
}

impl Default for Manifest {
    fn default() -> (r: Self)
        ensures
            r.deep_view() == Map::<(Seq<u8>, Seq<char>), GrantModel>::empty(),
    {
        Manifest::new()
    }
}

impl Clone for Manifest {
    fn clone(&self) -> (r: Self)
        ensures
            r.deep_view() == self.deep_view(),
    {
        Manifest { entries: self.entries.dup() }
    }
}

/// Recording the same grant again changes nothing, and no record is ever lost or
/// changed by recording.
pub proof fn law_record_appends(m: ManifestModel, g: GrantModel, k: (Seq<u8>, Seq<char>))
    ensures
        with_record(with_record(m, g), g) == with_record(m, g),
        m.contains_key(k) ==> with_record(m, g).contains_key(k) && with_record(m, g)[k] == m[k],
{
}

/// Merging loses no grant and never moves a date later.
pub proof fn law_merge_keeps_grants(a: ManifestModel, b: ManifestModel, k: (Seq<u8>, Seq<char>))
    ensures
        a.contains_key(k) ==> merged(a, b).contains_key(k) && merged(a, b)[k].granted_at <= a[k].granted_at,
        b.contains_key(k) ==> merged(a, b).contains_key(k) && merged(a, b)[k].granted_at <= b[k].granted_at,
        merged(merged(a, b), b) == merged(a, b),
{
    assert(merged(merged(a, b), b) =~= merged(a, b));
}

/// A grant that is recorded stands under its object and grantee, unless one stood there
/// before; nothing else comes in.
pub proof fn law_record_stands(m: ManifestModel, g: GrantModel, k: (Seq<u8>, Seq<char>))
    ensures
        with_record(m, g).contains_key(k) <==> m.contains_key(k) || k == (g.oid, g.grantee),
        !m.contains_key((g.oid, g.grantee)) ==> with_record(m, g)[(g.oid, g.grantee)] == g,
{
}

/// Merging brings in what either side records and nothing else. A grant that only one side
/// has comes as it is there; one that both have is as the first has it, but for the date,
/// which is the earlier.
pub proof fn law_merge_takes_each_grant(a: ManifestModel, b: ManifestModel, k: (Seq<u8>, Seq<char>))
    ensures
        merged(a, b).contains_key(k) <==> a.contains_key(k) || b.contains_key(k),
        a.contains_key(k) && !b.contains_key(k) ==> merged(a, b)[k] == a[k],
        b.contains_key(k) && !a.contains_key(k) ==> merged(a, b)[k] == b[k],
        a.contains_key(k) && b.contains_key(k) ==> merged(a, b)[k] == (GrantModel {
            granted_at: if a[k].granted_at <= b[k].granted_at {
                a[k].granted_at
            } else {
                b[k].granted_at
            },
            ..a[k]
        }),
{
}

proof fn lemma_grants_where(m: ManifestModel, f: spec_fn((Seq<u8>, Seq<char>)) -> bool, g: GrantModel)
    requires
        m.dom().finite(),
        forall|k: (Seq<u8>, Seq<char>)| #[trigger] m.contains_key(k) ==> k == (m[k].oid, m[k].grantee),
    ensures
        grants_where(m, f).contains(g) <==> f((g.oid, g.grantee)) && m.contains_key((g.oid, g.grantee)) && m[(
            g.oid,
            g.grantee,
        )] == g,
{
    let s = pairs_of::<(Oid, String), GrantModel>(m);
    let h = |p: ((Seq<u8>, Seq<char>), GrantModel)| f(p.0);
    let kept = s.filter(h);
    let r = grants_where(m, f);
    let k = (g.oid, g.grantee);
    lemma_map_is_listed::<(Oid, String), GrantModel>(m);
    if r.contains(g) {
        let i = choose|i: int| 0 <= i < r.len() && r[i] == g;
        assert(kept.contains(kept[i]));
        lemma_filter_contains(s, h, kept[i]);
        let j = choose|j: int| 0 <= j < s.len() && s[j] == kept[i];
        lemma_entry::<(Oid, String), GrantModel>(s, j);
        assert(m.contains_key(s[j].0));
    }
    if f(k) && m.contains_key(k) && m[k] == g {
        let j = crate::sorted::place_of(s, k);
        lemma_entry::<(Oid, String), GrantModel>(s, j);
        assert(s.contains(s[j]));
        lemma_filter_contains(s, h, s[j]);
        let i = choose|i: int| 0 <= i < kept.len() && kept[i] == s[j];
        assert(r[i] == g);
    }
}

/// The grants for an object, and those to an identity, are all that are on record for it,
/// and no others.
pub proof fn law_grants_are_found(m: ManifestModel, oid: Seq<u8>, name: Seq<char>, g: GrantModel)
    requires
        m.dom().finite(),
        forall|k: (Seq<u8>, Seq<char>)| #[trigger] m.contains_key(k) ==> k == (m[k].oid, m[k].grantee),
    ensures
        grants_for_object(m, oid).contains(g) <==> g.oid == oid && m.contains_key((g.oid, g.grantee)) && m[(
            g.oid,
            g.grantee,
        )] == g,
        grants_to_name(m, name).contains(g) <==> g.grantee == name && m.contains_key((g.oid, g.grantee)) && m[(
            g.oid,
            g.grantee,
        )] == g,
{
    lemma_grants_where(m, of_object(oid), g);
    lemma_grants_where(m, of_name(name), g);
}

} // verus!
