//! Burns: signed tombstones for destroyed objects.
//!
//! A burn destroys an object's bytes and leaves history alone. The tombstone makes
//! the absence legible, and keeps the bytes from coming back.

use crate::crypto::{ed25519_accepts, ed25519_verify};
use crate::format::{
    gather, lemma_gather_rising, lemma_list_back, lemma_version_back, list_bytes, list_fits,
    parse_list, parse_version, put_raw, put_u64, put_version, read_version, version_bytes, Cursor,
    Parsed, Wire, FORMAT_MAJOR,
};
use crate::sorted::{
    among, lemma_among, lemma_entry, lemma_map_is_listed, map_of, pairs_of, rising, SortedMap, SortedSet,
};
use crate::text::push_decimal;
use crate::types::{ErrorModel, Oid, RepoError, RepoPath};
use crate::value::Value;
use vstd::prelude::*;
use vstd::utf8::encode_utf8;

verus! {

/// The identity that marks a purge as a burn. No identity can have this name.
pub const BURN_PURGE_MARKER: &'static str = "\u{0}burn\u{0}";

/// How far a burn reaches.
#[derive(Clone, Copy, Debug, PartialEq, Eq, Structural)]
pub enum BurnTier {
    /// The only copy was local: destruction is complete.
    NeverPushed,
    /// The object was disclosed: other holders are asked to destroy their copy.
    Pushed,
}

impl DeepView for BurnTier {
    type V = BurnTier;

    open spec fn deep_view(&self) -> BurnTier {
        *self
    }
}

impl Value for BurnTier {
    fn dup(&self) -> (r: Self) {
        *self
    }

    fn same(&self, other: &Self) -> (b: bool) {
        *self == *other
    }
}

/// The byte of a tier.
pub open spec fn tier_tag(t: BurnTier) -> u8 {
    match t {
        BurnTier::NeverPushed => 0,
        BurnTier::Pushed => 1,
    }
}

/// The words for a byte that is no tier's.
pub open spec fn bad_tier(t: u8) -> ErrorModel {
    ErrorModel::Backend("unknown burn tier tag "@ + crate::text::decimal(t as nat))
}

pub open spec fn tier_name(t: BurnTier) -> Seq<char> {
    match t {
        BurnTier::NeverPushed => "never-pushed"@,
        BurnTier::Pushed => "pushed"@,
    }
}

impl BurnTier {
    fn tag(self) -> (t: u8)
        ensures
            t == tier_tag(self),
    {
        match self {
            BurnTier::NeverPushed => 0,
            BurnTier::Pushed => 1,
        }
    }

    /// The word that stands for the tier in a record.
    pub fn label(self) -> (r: &'static str)
        ensures
            r@ == tier_name(self),
    {
        match self {
            BurnTier::NeverPushed => "never-pushed",
            BurnTier::Pushed => "pushed",
        }
    }
}

impl Wire for BurnTier {
    open spec fn wire(v: BurnTier) -> Seq<u8> {
        seq![tier_tag(v)]
    }

    open spec fn parse(s: Seq<u8>) -> Parsed<BurnTier> {
        match u8::parse(s) {
            Ok((t, rest)) => if t == 0 {
                Ok((BurnTier::NeverPushed, rest))
            } else if t == 1 {
                Ok((BurnTier::Pushed, rest))
            } else {
                Err(bad_tier(t))
            },
            Err(e) => Err(e),
        }
    }

    open spec fn fits(v: BurnTier) -> bool {
        true
    }

    proof fn round_trip(v: BurnTier, t: Seq<u8>) {
        u8::round_trip(tier_tag(v), t);
    }

    fn write(&self, out: &mut Vec<u8>) {
        let t: u8 = self.tag();
        t.write(out);
    }

    fn read(c: &mut Cursor) -> (r: Result<Self, RepoError>) {
        let t: u8 = u8::read(c)?;
        if t == 0 {
            Ok(BurnTier::NeverPushed)
        } else if t == 1 {
            Ok(BurnTier::Pushed)
        } else {
            let mut text = "unknown burn tier tag ".to_owned();
            push_decimal(&mut text, t as u64);
            Err(RepoError::Backend(text))
        }
    }
}

/// A record that an object was destroyed on purpose.
#[derive(Debug, PartialEq, Eq)]
pub struct Tombstone {
    /// The destroyed address.
    pub oid: Oid,
    /// The path it was burned from; empty if another repository asked for the burn.
    pub path: RepoPath,
    pub tier: BurnTier,
    /// The burner's public key, or zeros.
    pub burner: [u8; 32],
    /// When, in unix seconds.
    pub burned_at: u64,
    /// The signature over [`signing_bytes`], or zeros.
    pub signature: [u8; 64],
}

/// The model of a [`Tombstone`].
pub struct TombstoneModel {
    pub oid: Seq<u8>,
    pub path: Seq<char>,
    pub tier: BurnTier,
    pub burner: Seq<u8>,
    pub burned_at: u64,
    pub signature: Seq<u8>,
}

impl DeepView for Tombstone {
    type V = TombstoneModel;

    open spec fn deep_view(&self) -> TombstoneModel {
        TombstoneModel {
            oid: self.oid.deep_view(),
            path: self.path.deep_view(),
            tier: self.tier,
            burner: self.burner@,
            burned_at: self.burned_at,
            signature: self.signature@,
        }
    }
}

impl Value for Tombstone {
    fn dup(&self) -> (r: Self) {
        Tombstone {
            oid: self.oid,
            path: self.path.dup(),
            tier: self.tier,
            burner: self.burner,
            burned_at: self.burned_at,
            signature: self.signature,
        }
    }

    fn same(&self, other: &Self) -> (b: bool) {
        proof {
            assert(self.burner.deep_view() =~= self.burner@);
            assert(other.burner.deep_view() =~= other.burner@);
            assert(self.signature.deep_view() =~= self.signature@);
            assert(other.signature.deep_view() =~= other.signature@);
        }
        self.oid.same(&other.oid) && self.path.same(&other.path) && self.tier == other.tier && self.burner.same(
            &other.burner,
        ) && self.burned_at == other.burned_at && self.signature.same(&other.signature)
    }
}

impl Clone for Tombstone {
    fn clone(&self) -> (r: Self)
        ensures
            r.deep_view() == self.deep_view(),
    {
        self.dup()
    }
}

/// What a tombstone signs: all of it but the signature.
pub open spec fn burned_bytes(
    oid: Seq<u8>,
    path: Seq<char>,
    tier: BurnTier,
    burner: Seq<u8>,
    burned_at: u64,
) -> Seq<u8> {
    oid + encode_utf8(path) + seq![tier_tag(tier)] + burner + u64::wire(burned_at)
}

pub fn signing_bytes(oid: &Oid, path: &RepoPath, tier: BurnTier, burner: &[u8; 32], burned_at: u64) -> (r: Vec<
    u8,
>)
    ensures
        r@ == burned_bytes(oid.deep_view(), path.deep_view(), tier, burner@, burned_at),
{
    let mut m: Vec<u8> = Vec::new();
    put_raw(&mut m, oid.0.as_slice());
    put_raw(&mut m, path.as_str().as_bytes());
    m.push(tier.tag());
    put_raw(&mut m, burner.as_slice());
    put_u64(&mut m, burned_at);
    assert(m@ =~= burned_bytes(oid.deep_view(), path.deep_view(), tier, burner@, burned_at));
    m
}

/// `n` zero bytes.
pub open spec fn zeros(n: nat) -> Seq<u8> {
    Seq::new(n, |i: int| 0u8)
}

/// Nobody signed the tombstone.
pub open spec fn nameless(t: TombstoneModel) -> bool {
    t.burner == zeros(32)
}

/// A tombstone holds if its burner signed it, or if it names none and carries none.
pub open spec fn tombstone_holds(t: TombstoneModel) -> bool {
    if nameless(t) {
        t.signature == zeros(64)
    } else {
        ed25519_accepts(t.burner, burned_bytes(t.oid, t.path, t.tier, t.burner, t.burned_at), t.signature)
    }
}

/// A tombstone that names no burner.
pub open spec fn nameless_tombstone(oid: Seq<u8>, path: Seq<char>, tier: BurnTier, burned_at: u64) -> TombstoneModel {
    TombstoneModel { oid, path, tier, burner: zeros(32), burned_at, signature: zeros(64) }
}

/// Whether all bytes are zero.
fn all_zero(b: &[u8]) -> (r: bool)
    ensures
        r == (b@ == zeros(b@.len())),
{
    let mut i: usize = 0;
    while i < b.len()
        invariant
            0 <= i <= b@.len(),
            forall|j: int| 0 <= j < i ==> b@[j] == 0,
        decreases b@.len() - i,
    {
        if b[i] != 0 {
            assert(zeros(b@.len())[i as int] == 0);
            return false;
        }
        i = i + 1;
    }
    assert(b@ =~= zeros(b@.len()));
    true
}

impl Tombstone {
    /// A tombstone that names no burner: the burn of a repository without a key, or
    /// one that another repository asked for.
    pub fn unauthored(oid: Oid, path: RepoPath, tier: BurnTier, burned_at: u64) -> (r: Self)
        ensures
            r.deep_view() == nameless_tombstone(oid.deep_view(), path.deep_view(), tier, burned_at),
    {
        let r = Tombstone { oid, path, tier, burner: [0u8; 32], burned_at, signature: [0u8; 64] };
        assert(r.burner@ =~= zeros(32));
        assert(r.signature@ =~= zeros(64));
        r
    }

    /// Whether the tombstone names no burner.
    pub fn is_unauthored(&self) -> (b: bool)
        ensures
            b == nameless(self.deep_view()),
    {
        all_zero(self.burner.as_slice())
    }

    /// Whether the burner signed it. One that names no burner must carry no
    /// signature either.
    pub fn verify(&self) -> (b: bool)
        ensures
            b == tombstone_holds(self.deep_view()),
    {
        if self.is_unauthored() {
            return all_zero(self.signature.as_slice());
        }
        let m = signing_bytes(&self.oid, &self.path, self.tier, &self.burner, self.burned_at);
        ed25519_verify(&self.burner, m.as_slice(), &self.signature)
    }
}

/// The model of a [`BurnLog`].
pub type Burns = Map<Seq<u8>, TombstoneModel>;

/// Tombstones, one for each burned address.
#[derive(Debug)]
pub struct BurnLog {
    by_oid: SortedMap<Oid, Tombstone>,
}

impl DeepView for BurnLog {
    type V = Burns;

    closed spec fn deep_view(&self) -> Burns {
        self.by_oid.deep_view()
    }
}

/// A tombstone stands under its own address.
pub open spec fn burns_ok(m: Burns) -> bool {
    forall|oid: Seq<u8>| #[trigger] m.contains_key(oid) ==> m[oid].oid == oid
}

/// A log with one more tombstone.
pub open spec fn with_burn(m: Burns, t: TombstoneModel) -> Burns {
    m.insert(t.oid, t)
}

/// Two logs as one. What comes in wins, but one that names no burner does not
/// displace one that does.
pub open spec fn merged_burns(a: Burns, b: Burns) -> Burns {
    Map::new(
        |oid: Seq<u8>| a.contains_key(oid) || b.contains_key(oid),
        |oid: Seq<u8>|
            if b.contains_key(oid) && !(a.contains_key(oid) && !nameless(a[oid]) && nameless(b[oid])) {
                b[oid]
            } else {
                a[oid]
            },
    )
}

/// The tombstones in order of address.
pub open spec fn burns_in_order(m: Burns) -> Seq<TombstoneModel> {
    pairs_of::<Oid, TombstoneModel>(m).map_values(|p: (Seq<u8>, TombstoneModel)| p.1)
}

impl BurnLog {
    #[verifier::type_invariant]
    spec fn keyed(self) -> bool {
        burns_ok(self.by_oid.deep_view())
    }

    pub fn new() -> (r: Self)
        ensures
            r.deep_view() == Map::<Seq<u8>, TombstoneModel>::empty(),
    {
        let by_oid: SortedMap<Oid, Tombstone> = SortedMap::new();
        BurnLog { by_oid }
    }

    /// Files a tombstone, in place of an earlier one for the same address.
    pub fn insert(&mut self, t: Tombstone)
        ensures
            final(self).deep_view() == with_burn(old(self).deep_view(), t.deep_view()),
    {
        proof {
            use_type_invariant(&*self);
        }
        let mut m: SortedMap<Oid, Tombstone> = SortedMap::new();
        std::mem::swap(&mut self.by_oid, &mut m);
        m.insert(t.oid, t);
        self.by_oid = m;
    }

    /// Takes the tombstones of another log in.
    pub fn merge(&mut self, other: &BurnLog)
        ensures
            final(self).deep_view() == merged_burns(old(self).deep_view(), other.deep_view()),
    {
        proof {
            use_type_invariant(&*other);
        }
        let n: usize = other.by_oid.len();
        let ghost s = other.by_oid.pairs();
        let ghost a = self.deep_view();
        let ghost b = other.deep_view();
        let mut i: usize = 0;
        proof {
            lemma_among::<Oid, TombstoneModel>(s, 0);
        }
        while i < n
            invariant
                0 <= i <= n,
                n == s.len(),
                s == other.by_oid.pairs(),
                b == other.deep_view(),
                burns_ok(b),
                b == map_of(s),
                rising::<Oid, TombstoneModel>(s),
                forall|k: Seq<u8>| #[trigger]
                    self.deep_view().contains_key(k) <==> a.contains_key(k) || among(s, i as int, k),
                forall|k: Seq<u8>| #[trigger]
                    self.deep_view().contains_key(k) ==> self.deep_view()[k] == (if among(s, i as int, k) {
                        merged_burns(a, b)[k]
                    } else {
                        a[k]
                    }),
            decreases n - i,
        {
            proof {
                lemma_among::<Oid, TombstoneModel>(s, i as int);
                lemma_entry::<Oid, TombstoneModel>(s, i as int);
            }
            let t = other.by_oid.value_at(i);
            let ghost had = self.deep_view();
            let ghost k = s[i as int].0;
            assert(b.contains_key(k) && t.deep_view() == b[k] && t.deep_view().oid == k);
            assert(merged_burns(a, b).contains_key(k));
            let keep = match self.get(&t.oid) {
                Some(existing) => !existing.is_unauthored() && t.is_unauthored(),
                None => false,
            };
            if !keep {
                self.insert(t.dup());
                assert(self.deep_view() == had.insert(k, merged_burns(a, b)[k]));
            }
            i = i + 1;
        }
        proof {
            lemma_among::<Oid, TombstoneModel>(s, n as int);
        }
        assert(self.deep_view() =~= merged_burns(a, b));
    }

    /// Whether an address is burned.
    pub fn contains(&self, oid: &Oid) -> (b: bool)
        ensures
            b == self.deep_view().contains_key(oid.deep_view()),
    {
        self.by_oid.contains_key(oid)
    }

    /// The tombstone of an address.
    pub fn get(&self, oid: &Oid) -> (r: Option<&Tombstone>)
        ensures
            match r {
                Some(t) => self.deep_view().contains_key(oid.deep_view())
                    && self.deep_view()[oid.deep_view()] == t.deep_view(),
                None => !self.deep_view().contains_key(oid.deep_view()),
            },
    {
        self.by_oid.get(oid)
    }

    /// Every tombstone, in order of address.
    pub fn iter(&self) -> (r: Vec<Tombstone>)
        ensures
            r.deep_view() == burns_in_order(self.deep_view()),
    {
        self.by_oid.to_values()
    }

    /// The burned addresses.
    pub fn burned_oids(&self) -> (r: SortedSet<Oid>)
        ensures
            r.deep_view() == self.deep_view().dom(),
    {
        let keys = self.by_oid.keys();
        let n: usize = self.by_oid.len();
        let ghost s = self.by_oid.pairs();
        let mut r: SortedSet<Oid> = SortedSet::new();
        let mut i: usize = 0;
        assert(keys.deep_view().len() == keys@.len());
        proof {
            lemma_among::<Oid, TombstoneModel>(s, 0);
        }
        while i < keys.len()
            invariant
                0 <= i <= keys@.len(),
                keys@.len() == s.len(),
                keys.deep_view() == s.map_values(|p: (Seq<u8>, TombstoneModel)| p.0),
                rising::<Oid, TombstoneModel>(s),
                forall|k: Seq<u8>| #[trigger] r.deep_view().contains(k) <==> among(s, i as int, k),
            decreases keys@.len() - i,
        {
            proof {
                lemma_among::<Oid, TombstoneModel>(s, i as int);
                assert(keys.deep_view()[i as int] == s[i as int].0);
            }
            let _ = r.insert(keys[i]);
            i = i + 1;
        }
        proof {
            lemma_among::<Oid, TombstoneModel>(s, n as int);
            assert(r.deep_view() =~= self.deep_view().dom());
        }
        r
    }

    /// How many addresses are burned.
    pub fn len(&self) -> (n: usize)
        ensures
            n == burns_in_order(self.deep_view()).len(),
    {
        self.by_oid.len()
    }

    pub fn is_empty(&self) -> (b: bool)
        ensures
            b == (self.deep_view() == Map::<Seq<u8>, TombstoneModel>::empty()),
    {
        self.by_oid.is_empty()
    }
}

impl Clone for BurnLog {
    fn clone(&self) -> (r: Self)
        ensures
            r.deep_view() == self.deep_view(),
    {
        proof {
            use_type_invariant(&*self);
        }
        let by_oid = self.by_oid.dup();
        BurnLog { by_oid }
    }
}

impl Default for BurnLog {
    fn default() -> (r: Self)
        ensures
            r.deep_view() == Map::<Seq<u8>, TombstoneModel>::empty(),
    {
        BurnLog::new()
    }
}

// ---------------------------------------------------------------------------
// The log in bytes
// ---------------------------------------------------------------------------

/// The fields of a tombstone in the order of its bytes.
pub type TombstoneRow = (Oid, (RepoPath, (BurnTier, ([u8; 32], (u64, [u8; 64])))));

impl Wire for Tombstone {
    open spec fn wire(v: TombstoneModel) -> Seq<u8> {
        TombstoneRow::wire((v.oid, (v.path, (v.tier, (v.burner, (v.burned_at, v.signature))))))
    }

    open spec fn parse(s: Seq<u8>) -> Parsed<TombstoneModel> {
        match TombstoneRow::parse(s) {
            Ok((r, rest)) => Ok(
                (
                    TombstoneModel {
                        oid: r.0,
                        path: r.1.0,
                        tier: r.1.1.0,
                        burner: r.1.1.1.0,
                        burned_at: r.1.1.1.1.0,
                        signature: r.1.1.1.1.1,
                    },
                    rest,
                ),
            ),
            Err(e) => Err(e),
        }
    }

    open spec fn fits(v: TombstoneModel) -> bool {
        TombstoneRow::fits((v.oid, (v.path, (v.tier, (v.burner, (v.burned_at, v.signature))))))
    }

    proof fn round_trip(v: TombstoneModel, t: Seq<u8>) {
        TombstoneRow::round_trip((v.oid, (v.path, (v.tier, (v.burner, (v.burned_at, v.signature))))), t);
    }

    fn write(&self, out: &mut Vec<u8>) {
        self.oid.write(out);
        self.path.write(out);
        self.tier.write(out);
        self.burner.write(out);
        self.burned_at.write(out);
        self.signature.write(out);
        proof {
            assert(self.burner.deep_view() =~= self.burner@);
            assert(self.signature.deep_view() =~= self.signature@);
            assert(out@ =~= old(out)@ + Self::wire(self.deep_view()));
        }
    }

    fn read(c: &mut Cursor) -> (r: Result<Self, RepoError>) {
        let row = TombstoneRow::read(c)?;
        let (oid, (path, (tier, (burner, (burned_at, signature))))) = row;
        assert(burner.deep_view() =~= burner@);
        assert(signature.deep_view() =~= signature@);
        Ok(Tombstone { oid, path, tier, burner, burned_at, signature })
    }
}

/// The bytes of a log: the version and the tombstones in order.
pub open spec fn burn_bytes(m: Burns) -> Seq<u8> {
    version_bytes(FORMAT_MAJOR) + list_bytes::<Tombstone>(burns_in_order(m))
}

/// Tombstones filed one after another.
pub open spec fn filed(ts: Seq<TombstoneModel>) -> Burns
    decreases ts.len(),
{
    if ts.len() == 0 {
        Map::empty()
    } else {
        with_burn(filed(ts.drop_last()), ts.last())
    }
}

/// What a log's bytes read as.
pub open spec fn parse_burns(s: Seq<u8>) -> Result<Burns, ErrorModel> {
    match parse_version(s, FORMAT_MAJOR) {
        Ok((v, rest)) => match parse_list::<Tombstone>(rest) {
            Ok((ts, rest2)) => Ok(filed(ts)),
            Err(e) => Err(e),
        },
        Err(e) => Err(e),
    }
}

pub fn encode(log: &BurnLog) -> (r: Vec<u8>)
    ensures
        r@ == burn_bytes(log.deep_view()),
{
    let mut out: Vec<u8> = Vec::new();
    put_version(&mut out, FORMAT_MAJOR);
    log.iter().write(&mut out);
    assert(out@ =~= burn_bytes(log.deep_view()));
    out
}

pub fn decode(b: &[u8]) -> (r: Result<BurnLog, RepoError>)
    ensures
        match r {
            Ok(log) => parse_burns(b@) == Ok::<Burns, ErrorModel>(log.deep_view()),
            Err(e) => parse_burns(b@) == Err::<Burns, ErrorModel>(e.deep_view()),
        },
{
    let mut c = Cursor::new(b);
    let _ = read_version(&mut c, FORMAT_MAJOR)?;
    let ts = Vec::<Tombstone>::read(&mut c)?;
    let mut log = BurnLog::new();
    let ghost all = ts.deep_view();
    let mut i: usize = 0;
    assert(all.take(0) =~= Seq::<TombstoneModel>::empty());
    while i < ts.len()
        invariant
            0 <= i <= ts@.len(),
            all == ts.deep_view(),
            log.deep_view() == filed(all.take(i as int)),
        decreases ts@.len() - i,
    {
        log.insert(ts[i].dup());
        proof {
            assert(all.take(i as int + 1).drop_last() =~= all.take(i as int));
            assert(all.take(i as int + 1).last() == ts@[i as int].deep_view());
        }
        i = i + 1;
    }
    assert(all.take(all.len() as int) =~= all);
    Ok(log)
}

proof fn lemma_filed(s: Seq<(Seq<u8>, TombstoneModel)>)
    requires
        rising::<Oid, TombstoneModel>(s),
        burns_ok(map_of(s)),
    ensures
        filed(s.map_values(|p: (Seq<u8>, TombstoneModel)| p.1)) == gather(s),
    decreases s.len(),
{
    let f = |p: (Seq<u8>, TombstoneModel)| p.1;
    if s.len() > 0 {
        let front = s.drop_last();
        crate::sorted::lemma_drop_last::<Oid, TombstoneModel>(s);
        assert forall|k: Seq<u8>| #[trigger] map_of(front).contains_key(k) implies map_of(front)[k].oid == k by {
            let j = crate::sorted::place_of(front, k);
            lemma_entry::<Oid, TombstoneModel>(front, j);
            lemma_entry::<Oid, TombstoneModel>(s, j);
            assert(front[j] == s[j]);
        }
        lemma_filed(front);
        lemma_entry::<Oid, TombstoneModel>(s, s.len() - 1);
        assert(s.map_values(f).drop_last() =~= front.map_values(f));
        assert(s.last().1.oid == s.last().0);
    }
}

/// Reading a log's bytes gives the log back, if each of its counts fits in 32 bits.
pub proof fn law_burn_log_round_trip(m: Burns)
    requires
        burns_ok(m),
        m.dom().finite(),
        list_fits::<Tombstone>(burns_in_order(m)),
    ensures
        parse_burns(burn_bytes(m)) == Ok::<Burns, ErrorModel>(m),
{
    let ts = burns_in_order(m);
    let s = pairs_of::<Oid, TombstoneModel>(m);
    lemma_map_is_listed::<Oid, TombstoneModel>(m);
    lemma_version_back(FORMAT_MAJOR, FORMAT_MAJOR, list_bytes::<Tombstone>(ts));
    lemma_list_back::<Tombstone>(ts, Seq::empty());
    assert(list_bytes::<Tombstone>(ts) + Seq::<u8>::empty() =~= list_bytes::<Tombstone>(ts));
    lemma_filed(s);
    lemma_gather_rising::<Oid, TombstoneModel>(s);
}

/// A merge never loses a burned address and never trades a signed tombstone for an
/// unsigned one.
pub proof fn law_burns_only_grow(a: Burns, b: Burns, oid: Seq<u8>)
    ensures
        a.contains_key(oid) || b.contains_key(oid) ==> merged_burns(a, b).contains_key(oid),
        a.contains_key(oid) && !nameless(a[oid]) ==> !nameless(merged_burns(a, b)[oid]),
        merged_burns(merged_burns(a, b), b) == merged_burns(a, b),
{
    assert(merged_burns(merged_burns(a, b), b) =~= merged_burns(a, b));
}

/// A tombstone stands under its address, in place of what stood there; no other is touched.
/// Merging brings in what either log has and nothing else. What the second has wins, unless
/// it names no burner and the first does.
pub proof fn law_burns_are_where_they_belong(a: Burns, b: Burns, t: TombstoneModel, oid: Seq<u8>)
    ensures
        with_burn(a, t).contains_key(oid) <==> a.contains_key(oid) || oid == t.oid,
        with_burn(a, t)[t.oid] == t,
        oid != t.oid && a.contains_key(oid) ==> with_burn(a, t)[oid] == a[oid],
        merged_burns(a, b).contains_key(oid) <==> a.contains_key(oid) || b.contains_key(oid),
        a.contains_key(oid) && !b.contains_key(oid) ==> merged_burns(a, b)[oid] == a[oid],
        b.contains_key(oid) && !a.contains_key(oid) ==> merged_burns(a, b)[oid] == b[oid],
        a.contains_key(oid) && b.contains_key(oid) ==> merged_burns(a, b)[oid] == (if a[oid].burner != zeros(32)
            && b[oid].burner == zeros(32) {
            a[oid]
        } else {
            b[oid]
        }),
{
}

/// A tombstone that names a burner holds just where the burner signed the rest of it; one
/// that names none, where it carries no signature.
pub proof fn law_when_a_tombstone_holds(t: TombstoneModel)
    ensures
        t.burner != Seq::new(32, |i: int| 0u8) ==> (tombstone_holds(t) <==> ed25519_accepts(
            t.burner,
            burned_bytes(t.oid, t.path, t.tier, t.burner, t.burned_at),
            t.signature,
        )),
        t.burner == Seq::new(32, |i: int| 0u8) ==> (tombstone_holds(t) <==> t.signature == Seq::new(64, |i: int| 0u8)),
        tombstone_holds(nameless_tombstone(t.oid, t.path, t.tier, t.burned_at)),
{
    assert(zeros(32) =~= Seq::new(32, |i: int| 0u8));
    assert(zeros(64) =~= Seq::new(64, |i: int| 0u8));
}

/// What a burner signs holds the address, the path, the tier, the burner and the time: of two
/// with paths of one length that sign the same, none of these differs.
pub proof fn law_burn_binds_all(a: TombstoneModel, b: TombstoneModel)
    requires
        a.oid.len() == 32,
        b.oid.len() == 32,
        a.burner.len() == 32,
        b.burner.len() == 32,
        encode_utf8(a.path).len() == encode_utf8(b.path).len(),
        burned_bytes(a.oid, a.path, a.tier, a.burner, a.burned_at) == burned_bytes(
            b.oid,
            b.path,
            b.tier,
            b.burner,
            b.burned_at,
        ),
    ensures
        a.oid == b.oid,
        encode_utf8(a.path) == encode_utf8(b.path),
        tier_tag(a.tier) == tier_tag(b.tier),
        a.burner == b.burner,
        u64::wire(a.burned_at) == u64::wire(b.burned_at),
{
    let s = burned_bytes(a.oid, a.path, a.tier, a.burner, a.burned_at);
    let t = burned_bytes(b.oid, b.path, b.tier, b.burner, b.burned_at);
    let n = 32 + encode_utf8(a.path).len() as int;
    assert(s.take(32) =~= a.oid);
    assert(t.take(32) =~= b.oid);
    assert(s.subrange(32, n) =~= encode_utf8(a.path));
    assert(t.subrange(32, n) =~= encode_utf8(b.path));
    assert(s[n] == tier_tag(a.tier));
    assert(t[n] == tier_tag(b.tier));
    assert(s.subrange(n + 1, n + 33) =~= a.burner);
    assert(t.subrange(n + 1, n + 33) =~= b.burner);
    assert(s.skip(n + 33) =~= u64::wire(a.burned_at));
    assert(t.skip(n + 33) =~= u64::wire(b.burned_at));
}

} // verus!
