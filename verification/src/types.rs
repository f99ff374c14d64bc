//! The shared vocabulary: addresses, paths, visibility, changes and errors.

use crate::path::{normal_path, normalize};
use crate::path_map::{PathMap, Paths};
use crate::value::{
    byte_ranks, compare_bytes, lemma_bytes_total, lemma_lex_irreflexive, lemma_lex_transitive, lex_before, same_bytes,
    Key, Order, Value,
};
use crate::text::{decimal, push_decimal, push_text, same_text};
use vstd::prelude::*;

verus! {

/// Content identity: a stable handle to a unit of content.
#[derive(Clone, Copy, Debug, PartialEq, Eq, PartialOrd, Ord, Hash)]
pub struct Oid(pub [u8; 32]);

impl DeepView for Oid {
    type V = Seq<u8>;

    open spec fn deep_view(&self) -> Seq<u8> {
        self.0@
    }
}

impl Value for Oid {
    fn dup(&self) -> (r: Self) {
        *self
    }

    fn same(&self, other: &Self) -> (b: bool) {
        same_bytes(self.0.as_slice(), other.0.as_slice())
    }
}

impl Key for Oid {
    open spec fn before(a: Seq<u8>, b: Seq<u8>) -> bool {
        lex_before(byte_ranks(a), byte_ranks(b))
    }

    proof fn before_irreflexive(a: Seq<u8>) {
        lemma_lex_irreflexive(byte_ranks(a));
    }

    proof fn before_transitive(a: Seq<u8>, b: Seq<u8>, c: Seq<u8>) {
        lemma_lex_transitive(byte_ranks(a), byte_ranks(b), byte_ranks(c));
    }

    proof fn before_total(a: Seq<u8>, b: Seq<u8>) {
        lemma_bytes_total(a, b);
    }

    fn compare(&self, other: &Self) -> (o: Order) {
        compare_bytes(self.0.as_slice(), other.0.as_slice())
    }
}

/// The address that stands for "no object": every byte is zero.
pub open spec fn zero_oid() -> Seq<u8> {
    Seq::new(32, |i: int| 0u8)
}

impl Oid {
    /// The all-zero address.
    pub fn zero() -> (r: Oid)
        ensures
            r.deep_view() == zero_oid(),
    {
        let r = Oid([0u8; 32]);
        assert(r.deep_view() =~= zero_oid());
        r
    }
}

/// A path inside a repository, as it was written. Texts with the same components name
/// the same path.
#[derive(Debug, Eq)]
pub struct RepoPath(String);

impl DeepView for RepoPath {
    type V = Seq<char>;

    closed spec fn deep_view(&self) -> Seq<char> {
        self.0@
    }
}

impl PartialEq for RepoPath {
    fn eq(&self, other: &Self) -> (b: bool) {
        same_text(normalize(self.0.as_str()).as_str(), normalize(other.0.as_str()).as_str())
    }
}

impl vstd::std_specs::cmp::PartialEqSpecImpl for RepoPath {
    open spec fn obeys_eq_spec() -> bool {
        true
    }

    open spec fn eq_spec(&self, other: &Self) -> bool {
        normal_path(self.deep_view()) == normal_path(other.deep_view())
    }
}

impl Value for RepoPath {
    fn dup(&self) -> (r: Self) {
        RepoPath(self.0.clone())
    }

    fn same(&self, other: &Self) -> (b: bool) {
        self.0 == other.0
    }
}

impl Clone for RepoPath {
    fn clone(&self) -> (r: Self)
        ensures
            r.deep_view() == self.deep_view(),
    {
        self.dup()
    }
}

impl RepoPath {
    /// The path that this text names.
    pub fn new(text: &str) -> (r: Self)
        ensures
            r.deep_view() == text@,
    {
        RepoPath(text.to_owned())
    }

    /// The path without components.
    pub fn empty() -> (r: Self)
        ensures
            r.deep_view() == Seq::<char>::empty(),
    {
        let r = RepoPath(String::new());
        assert(r.deep_view() =~= Seq::<char>::empty());
        r
    }

    /// The text of the path.
    pub fn as_str(&self) -> (r: &str)
        ensures
            r@ == self.deep_view(),
    {
        self.0.as_str()
    }
}

/// Who may read a unit of content. Visibility is a property of the content,
/// not of the repository.
#[derive(Debug, PartialEq, Eq)]
pub enum Visibility {
    /// Readable by anyone who can read the repository.
    Public,
    /// Readable only by the listed identities.
    Restricted(Vec<String>),
    /// Sealed to all, with the key withheld until `reveal_at` (unix seconds).
    Embargoed { reveal_at: u64 },
}

/// The model of a [`Visibility`].
pub enum VisibilityModel {
    Public,
    Restricted(Seq<Seq<char>>),
    Embargoed { reveal_at: u64 },
}

impl DeepView for Visibility {
    type V = VisibilityModel;

    open spec fn deep_view(&self) -> VisibilityModel {
        match self {
            Visibility::Public => VisibilityModel::Public,
            Visibility::Restricted(ids) => VisibilityModel::Restricted(ids.deep_view()),
            Visibility::Embargoed { reveal_at } => VisibilityModel::Embargoed { reveal_at: *reveal_at },
        }
    }
}

impl Value for Visibility {
    fn dup(&self) -> (r: Self) {
        match self {
            Visibility::Public => Visibility::Public,
            Visibility::Restricted(ids) => Visibility::Restricted(ids.dup()),
            Visibility::Embargoed { reveal_at } => Visibility::Embargoed { reveal_at: *reveal_at },
        }
    }

    fn same(&self, other: &Self) -> (b: bool) {
        match (self, other) {
            (Visibility::Public, Visibility::Public) => true,
            (Visibility::Restricted(a), Visibility::Restricted(b)) => a.same(b),
            (
                Visibility::Embargoed { reveal_at: a },
                Visibility::Embargoed { reveal_at: b },
            ) => *a == *b,
            _ => false,
        }
    }
}

impl Clone for Visibility {
    fn clone(&self) -> (r: Self)
        ensures
            r.deep_view() == self.deep_view(),
    {
        self.dup()
    }
}

/// A path's content address and visibility, for every path of a change.
pub type Tree = PathMap<(Oid, Visibility)>;

/// The model of a [`Tree`].
pub type TreeModel = Paths<(Seq<u8>, VisibilityModel)>;

/// A change: the reviewable, permission-bearing unit of history.
#[derive(Debug)]
pub struct Change {
    pub id: Oid,
    pub parents: Vec<Oid>,
    pub message: String,
    pub tree: Tree,
}

/// What became of one path when two lines met.
#[derive(Clone, Copy, Debug, PartialEq, Eq)]
pub enum MergeOutcome {
    /// Nothing to resolve.
    Converged,
    /// One side subsumed the other.
    Merged,
    /// At least one side is sealed to this identity; the merge is left to a keyholder.
    RelayedUnmerged,
    /// Both sides edited the path and neither subsumes the other.
    Conflict { ours: Oid, theirs: Oid },
}

/// The model of a [`MergeOutcome`].
pub enum OutcomeModel {
    Converged,
    Merged,
    RelayedUnmerged,
    Conflict { ours: Seq<u8>, theirs: Seq<u8> },
}

impl DeepView for MergeOutcome {
    type V = OutcomeModel;

    open spec fn deep_view(&self) -> OutcomeModel {
        match self {
            MergeOutcome::Converged => OutcomeModel::Converged,
            MergeOutcome::Merged => OutcomeModel::Merged,
            MergeOutcome::RelayedUnmerged => OutcomeModel::RelayedUnmerged,
            MergeOutcome::Conflict { ours, theirs } => OutcomeModel::Conflict {
                ours: ours.deep_view(),
                theirs: theirs.deep_view(),
            },
        }
    }
}

impl Value for MergeOutcome {
    fn dup(&self) -> (r: Self) {
        *self
    }

    fn same(&self, other: &Self) -> (b: bool) {
        match (self, other) {
            (MergeOutcome::Converged, MergeOutcome::Converged) => true,
            (MergeOutcome::Merged, MergeOutcome::Merged) => true,
            (MergeOutcome::RelayedUnmerged, MergeOutcome::RelayedUnmerged) => true,
            (
                MergeOutcome::Conflict { ours: a, theirs: b },
                MergeOutcome::Conflict { ours: c, theirs: d },
            ) => a.same(c) && b.same(d),
            _ => false,
        }
    }
}

/// What a repository operation refuses with.
#[derive(Debug, PartialEq, Eq)]
pub enum RepoError {
    /// There is no such object.
    NotFound(Oid),
    /// The reader may not read the object, or does not hold its key.
    Unauthorized(Oid),
    /// The content is sealed to everyone until this time.
    Embargoed(u64),
    /// The grant lapsed at this time.
    Expired(u64),
    /// The bytes were written by a later format than this build reads.
    UnsupportedFormat { found: u8, supported: u8 },
    /// Anything else, in words.
    Backend(String),
}

/// The model of a [`RepoError`].
pub enum ErrorModel {
    NotFound(Seq<u8>),
    Unauthorized(Seq<u8>),
    Embargoed(u64),
    Expired(u64),
    UnsupportedFormat { found: u8, supported: u8 },
    Backend(Seq<char>),
}

impl DeepView for RepoError {
    type V = ErrorModel;

    open spec fn deep_view(&self) -> ErrorModel {
        match self {
            RepoError::NotFound(o) => ErrorModel::NotFound(o.deep_view()),
            RepoError::Unauthorized(o) => ErrorModel::Unauthorized(o.deep_view()),
            RepoError::Embargoed(t) => ErrorModel::Embargoed(*t),
            RepoError::Expired(t) => ErrorModel::Expired(*t),
            RepoError::UnsupportedFormat { found, supported } => ErrorModel::UnsupportedFormat {
                found: *found,
                supported: *supported,
            },
            RepoError::Backend(s) => ErrorModel::Backend(s@),
        }
    }
}

/// Numbers with commas between them.
pub open spec fn number_list(b: Seq<u8>) -> Seq<char>
    decreases b.len(),
{
    if b.len() == 0 {
        Seq::empty()
    } else if b.len() == 1 {
        decimal(b[0] as nat)
    } else {
        number_list(b.drop_last()) + ", "@ + decimal(b.last() as nat)
    }
}

/// How an address is shown in an error.
pub open spec fn shown_oid(b: Seq<u8>) -> Seq<char> {
    "Oid(["@ + number_list(b) + "])"@
}

/// An error in words.
pub open spec fn error_text(e: ErrorModel) -> Seq<char> {
    match e {
        ErrorModel::NotFound(o) => "object not found: "@ + shown_oid(o),
        ErrorModel::Unauthorized(o) => "not authorized to read "@ + shown_oid(o),
        ErrorModel::Embargoed(t) => "content still embargoed until "@ + decimal(t as nat),
        ErrorModel::Expired(t) => "grant expired at "@ + decimal(t as nat),
        ErrorModel::UnsupportedFormat { found, supported } => "unsupported format version "@ + decimal(
            found as nat,
        ) + " (this build reads up to "@ + decimal(supported as nat) + ")"@,
        ErrorModel::Backend(t) => "backend error: "@ + t,
    }
}

fn push_shown(t: &mut String, oid: &Oid)
    ensures
        final(t)@ == old(t)@ + shown_oid(oid.deep_view()),
{
    let ghost t0 = t@;
    push_text(t, "Oid([");
    let ghost head = t@;
    let ghost b = oid.deep_view();
    let mut i: usize = 0;
    assert(t@ =~= head + number_list(b.take(0)));
    while i < 32
        invariant
            0 <= i <= 32,
            b == oid.0@,
            b.len() == 32,
            t@ == head + number_list(b.take(i as int)),
        decreases 32 - i,
    {
        if i > 0 {
            push_text(t, ", ");
        }
        push_decimal(t, oid.0[i] as u64);
        proof {
            let next = b.take(i as int + 1);
            assert(next.drop_last() =~= b.take(i as int));
            assert(next.last() == b[i as int]);
            assert(t@ =~= head + number_list(next));
        }
        i = i + 1;
    }
    assert(b.take(32) =~= b);
    push_text(t, "])");
    assert(t@ =~= t0 + shown_oid(b));
}

impl RepoError {
    /// The error in words.
    pub fn text(&self) -> (r: String)
        ensures
            r@ == error_text(self.deep_view()),
    {
        match self {
            RepoError::NotFound(o) => {
                let mut t = "object not found: ".to_owned();
                push_shown(&mut t, o);
                t
            },
            RepoError::Unauthorized(o) => {
                let mut t = "not authorized to read ".to_owned();
                push_shown(&mut t, o);
                t
            },
            RepoError::Embargoed(at) => {
                let mut t = "content still embargoed until ".to_owned();
                push_decimal(&mut t, *at);
                t
            },
            RepoError::Expired(at) => {
                let mut t = "grant expired at ".to_owned();
                push_decimal(&mut t, *at);
                t
            },
            RepoError::UnsupportedFormat { found, supported } => {
                let mut t = "unsupported format version ".to_owned();
                push_decimal(&mut t, *found as u64);
                push_text(&mut t, " (this build reads up to ");
                push_decimal(&mut t, *supported as u64);
                push_text(&mut t, ")");
                t
            },
            RepoError::Backend(w) => {
                let mut t = "backend error: ".to_owned();
                push_text(&mut t, w.as_str());
                t
            },
        }
    }
}

/// Bytes that carry changes, objects or keys between repositories.
#[derive(Debug, PartialEq, Eq)]
pub struct SyncBundle(pub Vec<u8>);

impl Clone for SyncBundle {
    fn clone(&self) -> (r: Self)
        ensures
            r.deep_view() == self.deep_view(),
    {
        let b = self.0.dup();
        assert(b@ =~= b.deep_view());
        assert(self.0@ =~= self.0.deep_view());
        SyncBundle(b)
    }
}

impl DeepView for SyncBundle {
    type V = Seq<u8>;

    open spec fn deep_view(&self) -> Seq<u8> {
        self.0@
    }
}

/// Addresses are in order by the first byte in which they differ.
pub proof fn law_addresses_are_in_order(p: Seq<u8>, x: u8, s: Seq<u8>, y: u8, t: Seq<u8>)
    requires
        x < y,
    ensures
        Oid::before(p.push(x) + s, p.push(y) + t),
{
    let (a, b) = (byte_ranks(p.push(x) + s), byte_ranks(p.push(y) + t));
    assert(crate::value::parts_at(a, b, p.len() as int));
}

} // verus!
