//! The byte formats: little-endian numbers, counted lists, versions.
//!
//! A type that goes into bytes says how ([`Wire::wire`]), how it is read back
//! ([`Wire::parse`]), and proves that reading undoes writing.

use crate::path::normal_path;
use crate::path_map::{put_at, well_placed, PathKey, PathMap, Placed, Paths};
use crate::sorted::{
    lemma_drop_last, lemma_entry, lemma_map_is_listed, lists, map_of, pairs_of, rising, SortedMap,
};
use crate::text::push_decimal;
use crate::types::{ErrorModel, Oid, RepoError, RepoPath, Visibility, VisibilityModel};
use crate::value::{Key, Value};
use vstd::prelude::*;
use vstd::utf8::{decode_utf8, encode_utf8, encode_utf8_decode_utf8, encode_utf8_valid_utf8, valid_utf8};

verus! {

/// The format that this build writes.
pub const FORMAT_MAJOR: u8 = 8;

pub const FORMAT_MINOR: u8 = 0;

/// The format of the files that hold objects, history and keys. Their layout
/// has stayed as it was in this format.
pub const STORE_MAJOR: u8 = 4;

// ---------------------------------------------------------------------------
// Numbers
// ---------------------------------------------------------------------------

/// `n` as `k` little-endian bytes; what does not fit is cut off.
pub open spec fn le(n: nat, k: nat) -> Seq<u8>
    decreases k,
{
    if k == 0 {
        Seq::empty()
    } else {
        seq![(n % 256) as u8] + le(n / 256, (k - 1) as nat)
    }
}

/// The number that little-endian bytes write.
pub open spec fn le_value(s: Seq<u8>) -> nat
    decreases s.len(),
{
    if s.len() == 0 {
        0
    } else {
        s[0] as nat + 256 * le_value(s.drop_first())
    }
}

/// 256 to the power `k`.
pub open spec fn pow256(k: nat) -> nat
    decreases k,
{
    if k == 0 {
        1
    } else {
        256 * pow256((k - 1) as nat)
    }
}

pub proof fn lemma_pow256()
    ensures
        pow256(4) == 0x1_0000_0000,
        pow256(8) == 0x1_0000_0000_0000_0000,
{
    reveal_with_fuel(pow256, 9);
}

/// A number below `256^k` comes back from its `k` bytes.
pub proof fn lemma_le(n: nat, k: nat)
    ensures
        le(n, k).len() == k,
        n < pow256(k) ==> le_value(le(n, k)) == n,
    decreases k,
{
    if k > 0 {
        lemma_le(n / 256, (k - 1) as nat);
        let rest = le(n / 256, (k - 1) as nat);
        assert(le(n, k).drop_first() =~= rest);
        assert(le(n, k)[0] == (n % 256) as u8);
    }
}

/// `k` bytes write a number below `256^k`, and that number is written by them.
pub proof fn lemma_le_value(s: Seq<u8>)
    ensures
        le_value(s) < pow256(s.len()),
        le(le_value(s), s.len()) == s,
    decreases s.len(),
{
    if s.len() > 0 {
        lemma_le_value(s.drop_first());
        let r = le_value(s.drop_first());
        assert((s[0] as nat + 256 * r) % 256 == s[0] as nat);
        assert((s[0] as nat + 256 * r) / 256 == r);
        assert(le(le_value(s), s.len()) =~= s);
    } else {
        assert(le(le_value(s), s.len()) =~= s);
    }
}

/// Writes the low `k` bytes of `n`.
fn put_le(out: &mut Vec<u8>, n: u64, k: usize)
    ensures
        final(out)@ == old(out)@ + le(n as nat, k as nat),
    decreases k,
{
    if k > 0 {
        out.push((n % 256) as u8);
        put_le(out, n / 256, k - 1);
    }
    assert(out@ =~= old(out)@ + le(n as nat, k as nat));
}

/// Reads a number from at most eight bytes.
fn read_le(b: &[u8]) -> (n: u64)
    requires
        b@.len() <= 8,
    ensures
        n == le_value(b@),
{
    let mut n: u64 = 0;
    let mut i: usize = b.len();
    assert(b@.subrange(i as int, b@.len() as int).len() == 0);
    while i > 0
        invariant
            0 <= i <= b@.len() <= 8,
            n == le_value(b@.subrange(i as int, b@.len() as int)),
        decreases i,
    {
        let ghost tail = b@.subrange(i as int, b@.len() as int);
        let ghost longer = b@.subrange(i as int - 1, b@.len() as int);
        proof {
            assert(longer.drop_first() =~= tail);
            lemma_le_value(longer);
            reveal_with_fuel(pow256, 9);
        }
        i = i - 1;
        n = b[i] as u64 + 256 * n;
    }
    assert(b@.subrange(0, b@.len() as int) =~= b@);
    n
}

/// A count as four bytes, cut off to 32 bits.
pub open spec fn count_bytes(n: nat) -> Seq<u8> {
    le(n % 0x1_0000_0000, 4)
}

/// Bytes with their count in front.
pub open spec fn counted(b: Seq<u8>) -> Seq<u8> {
    count_bytes(b.len()) + b
}

/// Writes a count.
pub fn put_u32(out: &mut Vec<u8>, n: usize)
    ensures
        final(out)@ == old(out)@ + count_bytes(n as nat),
{
    let low: u64 = n as u64 % 0x1_0000_0000u64;
    put_le(out, low, 4);
}

/// Writes a 64-bit number.
pub fn put_u64(out: &mut Vec<u8>, n: u64)
    ensures
        final(out)@ == old(out)@ + le(n as nat, 8),
{
    put_le(out, n, 8);
}

/// Appends bytes.
pub fn put_raw(out: &mut Vec<u8>, b: &[u8])
    ensures
        final(out)@ == old(out)@ + b@,
{
    let mut i: usize = 0;
    while i < b.len()
        invariant
            0 <= i <= b@.len(),
            out@ == old(out)@ + b@.take(i as int),
        decreases b@.len() - i,
    {
        out.push(b[i]);
        assert(old(out)@ + b@.take(i as int + 1) =~= (old(out)@ + b@.take(i as int)).push(
            b@[i as int],
        ));
        i = i + 1;
    }
    assert(b@.take(b@.len() as int) =~= b@);
}

/// Writes bytes with their count in front.
pub fn put_bytes(out: &mut Vec<u8>, b: &[u8])
    ensures
        final(out)@ == old(out)@ + counted(b@),
{
    put_u32(out, b.len());
    put_raw(out, b);
    assert(out@ =~= old(out)@ + counted(b@));
}

// ---------------------------------------------------------------------------
// Reading
// ---------------------------------------------------------------------------

/// What reading gives: a value and the bytes that are left, or an error.
pub type Parsed<T> = Result<(T, Seq<u8>), ErrorModel>;

/// The error of bytes that end too early.
pub open spec fn truncated() -> ErrorModel {
    ErrorModel::Backend("bundle truncated"@)
}

/// The next `n` bytes.
pub open spec fn parse_take(s: Seq<u8>, n: nat) -> Parsed<Seq<u8>> {
    if n <= s.len() {
        Ok((s.take(n as int), s.skip(n as int)))
    } else {
        Err(truncated())
    }
}

/// A count.
pub open spec fn parse_count(s: Seq<u8>) -> Parsed<nat> {
    match parse_take(s, 4) {
        Ok((b, rest)) => Ok((le_value(b), rest)),
        Err(e) => Err(e),
    }
}

/// Bytes with their count in front.
pub open spec fn parse_counted(s: Seq<u8>) -> Parsed<Seq<u8>> {
    match parse_count(s) {
        Ok((n, rest)) => parse_take(rest, n),
        Err(e) => Err(e),
    }
}

/// The words in which std says that `b` is not UTF-8.
pub uninterp spec fn utf8_fault_text(b: Seq<u8>) -> Seq<char>;

/// `String::from_utf8`: the text that the bytes encode, if they are valid UTF-8;
/// otherwise the words of its error, which depend on the bytes alone.
#[verifier::external_body]
fn string_from_utf8(v: Vec<u8>) -> (r: Result<String, String>)
    ensures
        match r {
            Ok(s) => valid_utf8(v@) && s@ == decode_utf8(v@),
            Err(t) => !valid_utf8(v@) && t@ == utf8_fault_text(v@),
        },
{
    String::from_utf8(v).map_err(|e| e.to_string())
}

/// Text in UTF-8 with its count of bytes in front.
pub open spec fn parse_text(s: Seq<u8>) -> Parsed<Seq<char>> {
    match parse_counted(s) {
        Ok((b, rest)) => if valid_utf8(b) {
            Ok((decode_utf8(b), rest))
        } else {
            Err(ErrorModel::Backend(utf8_fault_text(b)))
        },
        Err(e) => Err(e),
    }
}

/// The text that some bytes are in UTF-8.
pub open spec fn raw_text(b: Seq<u8>) -> Result<Seq<char>, ErrorModel> {
    if valid_utf8(b) {
        Ok(decode_utf8(b))
    } else {
        Err(ErrorModel::Backend(utf8_fault_text(b)))
    }
}

/// Reads bytes as text.
pub fn text_from(b: &[u8]) -> (r: Result<String, RepoError>)
    ensures
        match r {
            Ok(t) => raw_text(b@) == Ok::<Seq<char>, ErrorModel>(t@),
            Err(e) => raw_text(b@) == Err::<Seq<char>, ErrorModel>(e.deep_view()),
        },
{
    let v = vstd::slice::slice_to_vec(b);
    match string_from_utf8(v) {
        Ok(s) => Ok(s),
        Err(t) => Err(RepoError::Backend(t)),
    }
}

/// Text reads back from its bytes.
pub proof fn lemma_raw_text_back(t: Seq<char>)
    ensures
        raw_text(encode_utf8(t)) == Ok::<Seq<char>, ErrorModel>(t),
{
    encode_utf8_valid_utf8(t);
    encode_utf8_decode_utf8(t);
}

/// Text as bytes with their count in front.
pub open spec fn text_bytes(t: Seq<char>) -> Seq<u8> {
    counted(encode_utf8(t))
}

/// The text is short enough for its count.
pub open spec fn text_fits(t: Seq<char>) -> bool {
    encode_utf8(t).len() < 0x1_0000_0000
}

pub proof fn lemma_take_back(b: Seq<u8>, t: Seq<u8>)
    ensures
        parse_take(b + t, b.len()) == Ok::<(Seq<u8>, Seq<u8>), ErrorModel>((b, t)),
{
    assert((b + t).take(b.len() as int) =~= b);
    assert((b + t).skip(b.len() as int) =~= t);
}

pub proof fn lemma_count_back(n: nat, t: Seq<u8>)
    requires
        n < 0x1_0000_0000,
    ensures
        parse_count(count_bytes(n) + t) == Ok::<(nat, Seq<u8>), ErrorModel>((n, t)),
{
    lemma_pow256();
    lemma_le(n, 4);
    lemma_take_back(count_bytes(n), t);
}

pub proof fn lemma_counted_back(b: Seq<u8>, t: Seq<u8>)
    requires
        b.len() < 0x1_0000_0000,
    ensures
        parse_counted(counted(b) + t) == Ok::<(Seq<u8>, Seq<u8>), ErrorModel>((b, t)),
{
    assert(counted(b) + t =~= count_bytes(b.len()) + (b + t));
    lemma_count_back(b.len(), b + t);
    lemma_take_back(b, t);
}

pub proof fn lemma_text_back(x: Seq<char>, t: Seq<u8>)
    requires
        text_fits(x),
    ensures
        parse_text(text_bytes(x) + t) == Ok::<(Seq<char>, Seq<u8>), ErrorModel>((x, t)),
{
    lemma_counted_back(encode_utf8(x), t);
    encode_utf8_valid_utf8(x);
    encode_utf8_decode_utf8(x);
}

/// A place in a sequence of bytes, from which values are read one after another.
pub struct Cursor<'a> {
    b: &'a [u8],
    i: usize,
}

impl<'a> Cursor<'a> {
    #[verifier::type_invariant]
    spec fn inside(self) -> bool {
        self.i <= self.b@.len()
    }

    /// The bytes that have not been read yet.
    pub closed spec fn rest(&self) -> Seq<u8> {
        self.b@.skip(self.i as int)
    }

    /// At the start of `b`.
    pub fn new(b: &'a [u8]) -> (r: Self)
        ensures
            r.rest() == b@,
    {
        let r = Cursor { b, i: 0 };
        assert(r.rest() =~= b@);
        r
    }

    /// The next `n` bytes.
    pub fn take(&mut self, n: usize) -> (r: Result<&'a [u8], RepoError>)
        ensures
            match r {
                Ok(s) => parse_take(old(self).rest(), n as nat) == Ok::<(Seq<u8>, Seq<u8>), ErrorModel>(
                    (s@, final(self).rest()),
                ),
                Err(e) => parse_take(old(self).rest(), n as nat) == Err::<(Seq<u8>, Seq<u8>), ErrorModel>(
                    e.deep_view(),
                ),
            },
    {
        proof {
            use_type_invariant(&*self);
        }
        if n > self.b.len() - self.i {
            return Err(RepoError::Backend("bundle truncated".to_owned()));
        }
        let s = vstd::slice::slice_subrange(self.b, self.i, self.i + n);
        proof {
            assert(s@ =~= old(self).rest().take(n as int));
        }
        self.i = self.i + n;
        proof {
            assert(self.rest() =~= old(self).rest().skip(n as int));
        }
        Ok(s)
    }

    /// All bytes that are left.
    pub fn take_rest(&mut self) -> (r: &'a [u8])
        ensures
            r@ == old(self).rest(),
            final(self).rest().len() == 0,
    {
        proof {
            use_type_invariant(&*self);
        }
        let s = vstd::slice::slice_subrange(self.b, self.i, self.b.len());
        proof {
            assert(s@ =~= old(self).rest());
        }
        self.i = self.b.len();
        s
    }

    /// A count.
    pub fn u32(&mut self) -> (r: Result<usize, RepoError>)
        ensures
            match r {
                Ok(n) => parse_count(old(self).rest()) == Ok::<(nat, Seq<u8>), ErrorModel>(
                    (n as nat, final(self).rest()),
                ),
                Err(e) => parse_count(old(self).rest()) == Err::<(nat, Seq<u8>), ErrorModel>(
                    e.deep_view(),
                ),
            },
    {
        let s = self.take(4)?;
        let n: u64 = read_le(s);
        proof {
            lemma_le_value(s@);
            lemma_pow256();
        }
        Ok(n as usize)
    }

    /// A 64-bit number.
    pub fn u64(&mut self) -> (r: Result<u64, RepoError>)
        ensures
            match r {
                Ok(n) => u64::parse(old(self).rest()) == Ok::<(u64, Seq<u8>), ErrorModel>(
                    (n, final(self).rest()),
                ),
                Err(e) => u64::parse(old(self).rest()) == Err::<(u64, Seq<u8>), ErrorModel>(
                    e.deep_view(),
                ),
            },
    {
        let s = self.take(8)?;
        let n: u64 = read_le(s);
        Ok(n)
    }

    /// A fixed number of bytes.
    fn array<const N: usize>(&mut self) -> (r: Result<[u8; N], RepoError>)
        ensures
            match r {
                Ok(a) => parse_take(old(self).rest(), N as nat) == Ok::<(Seq<u8>, Seq<u8>), ErrorModel>(
                    (a@, final(self).rest()),
                ),
                Err(e) => parse_take(old(self).rest(), N as nat) == Err::<(Seq<u8>, Seq<u8>), ErrorModel>(
                    e.deep_view(),
                ),
            },
    {
        let s = self.take(N)?;
        let a = array_of::<N>(s);
        Ok(a)
    }

    pub fn arr32(&mut self) -> (r: Result<[u8; 32], RepoError>)
        ensures
            match r {
                Ok(a) => parse_take(old(self).rest(), 32) == Ok::<(Seq<u8>, Seq<u8>), ErrorModel>(
                    (a@, final(self).rest()),
                ),
                Err(e) => parse_take(old(self).rest(), 32) == Err::<(Seq<u8>, Seq<u8>), ErrorModel>(
                    e.deep_view(),
                ),
            },
    {
        self.array::<32>()
    }

    pub fn arr12(&mut self) -> (r: Result<[u8; 12], RepoError>)
        ensures
            match r {
                Ok(a) => parse_take(old(self).rest(), 12) == Ok::<(Seq<u8>, Seq<u8>), ErrorModel>(
                    (a@, final(self).rest()),
                ),
                Err(e) => parse_take(old(self).rest(), 12) == Err::<(Seq<u8>, Seq<u8>), ErrorModel>(
                    e.deep_view(),
                ),
            },
    {
        self.array::<12>()
    }

    /// Bytes with their count in front.
    pub fn bytes(&mut self) -> (r: Result<Vec<u8>, RepoError>)
        ensures
            match r {
                Ok(v) => parse_counted(old(self).rest()) == Ok::<(Seq<u8>, Seq<u8>), ErrorModel>(
                    (v@, final(self).rest()),
                ),
                Err(e) => parse_counted(old(self).rest()) == Err::<(Seq<u8>, Seq<u8>), ErrorModel>(
                    e.deep_view(),
                ),
            },
    {
        let n: usize = self.u32()?;
        let s = self.take(n)?;
        let v = vstd::slice::slice_to_vec(s);
        Ok(v)
    }

    /// Text in UTF-8 with its count of bytes in front.
    pub fn string(&mut self) -> (r: Result<String, RepoError>)
        ensures
            match r {
                Ok(t) => parse_text(old(self).rest()) == Ok::<(Seq<char>, Seq<u8>), ErrorModel>(
                    (t@, final(self).rest()),
                ),
                Err(e) => parse_text(old(self).rest()) == Err::<(Seq<char>, Seq<u8>), ErrorModel>(
                    e.deep_view(),
                ),
            },
    {
        let v = self.bytes()?;
        match string_from_utf8(v) {
            Ok(t) => Ok(t),
            Err(t) => Err(RepoError::Backend(t)),
        }
    }

    /// A visibility.
    pub fn vis(&mut self) -> (r: Result<Visibility, RepoError>)
        ensures
            match r {
                Ok(v) => Visibility::parse(old(self).rest()) == Ok::<
                    (VisibilityModel, Seq<u8>),
                    ErrorModel,
                >((v.deep_view(), final(self).rest())),
                Err(e) => Visibility::parse(old(self).rest()) == Err::<
                    (VisibilityModel, Seq<u8>),
                    ErrorModel,
                >(e.deep_view()),
            },
    {
        Visibility::read(self)
    }
}

/// The bytes of a slice of length `N`.
pub fn array_of<const N: usize>(s: &[u8]) -> (r: [u8; N])
    requires
        s@.len() == N,
    ensures
        r@ == s@,
{
    let mut a: [u8; N] = [0u8; N];
    let mut i: usize = 0;
    while i < N
        invariant
            0 <= i <= N,
            s@.len() == N,
            forall|j: int| 0 <= j < i ==> a@[j] == s@[j],
        decreases N - i,
    {
        a[i] = s[i];
        i = i + 1;
    }
    assert(a@ =~= s@);
    a
}

// ---------------------------------------------------------------------------
// Types that go into bytes
// ---------------------------------------------------------------------------

/// A value with a byte form.
pub trait Wire: Value {
    /// The bytes that stand for a value.
    spec fn wire(v: Self::V) -> Seq<u8>;

    /// What reading from the front of `s` gives.
    spec fn parse(s: Seq<u8>) -> Parsed<Self::V>;

    /// The value is one whose bytes hold all of it: every count fits in 32 bits.
    spec fn fits(v: Self::V) -> bool;

    /// Reading undoes writing, whatever follows.
    proof fn round_trip(v: Self::V, t: Seq<u8>)
        requires
            Self::fits(v),
        ensures
            Self::parse(Self::wire(v) + t) == Ok::<(Self::V, Seq<u8>), ErrorModel>((v, t)),
    ;

    /// Appends the bytes of this value.
    fn write(&self, out: &mut Vec<u8>)
        ensures
            final(out)@ == old(out)@ + Self::wire(self.deep_view()),
    ;

    /// Reads a value.
    fn read(c: &mut Cursor) -> (r: Result<Self, RepoError>)
        ensures
            match r {
                Ok(v) => Self::parse(old(c).rest()) == Ok::<(Self::V, Seq<u8>), ErrorModel>(
                    (v.deep_view(), final(c).rest()),
                ),
                Err(e) => Self::parse(old(c).rest()) == Err::<(Self::V, Seq<u8>), ErrorModel>(
                    e.deep_view(),
                ),
            },
    ;
}

/// The bytes of several values in turn.
pub open spec fn wire_all<T: Wire>(s: Seq<T::V>) -> Seq<u8>
    decreases s.len(),
{
    if s.len() == 0 {
        Seq::empty()
    } else {
        wire_all::<T>(s.drop_last()) + T::wire(s.last())
    }
}

/// Reading `n` values in turn.
pub open spec fn parse_many<T: Wire>(s: Seq<u8>, n: nat) -> Parsed<Seq<T::V>>
    decreases n,
{
    if n == 0 {
        Ok((Seq::empty(), s))
    } else {
        match parse_many::<T>(s, (n - 1) as nat) {
            Ok((vs, rest)) => match T::parse(rest) {
                Ok((v, rest2)) => Ok((vs.push(v), rest2)),
                Err(e) => Err(e),
            },
            Err(e) => Err(e),
        }
    }
}

/// An error in reading the first values is the error in reading more.
proof fn lemma_error_stays<T: Wire>(s: Seq<u8>, m: nat, n: nat)
    requires
        m <= n,
        parse_many::<T>(s, m) is Err,
    ensures
        parse_many::<T>(s, n) == parse_many::<T>(s, m),
    decreases n,
{
    if m < n {
        lemma_error_stays::<T>(s, m, (n - 1) as nat);
    }
}

/// Reading several values undoes writing them.
pub proof fn lemma_many_back<T: Wire>(vs: Seq<T::V>, t: Seq<u8>)
    requires
        forall|i: int| 0 <= i < vs.len() ==> T::fits(#[trigger] vs[i]),
    ensures
        parse_many::<T>(wire_all::<T>(vs) + t, vs.len()) == Ok::<(Seq<T::V>, Seq<u8>), ErrorModel>(
            (vs, t),
        ),
    decreases vs.len(),
{
    if vs.len() == 0 {
        assert(wire_all::<T>(vs) + t =~= t);
        assert(vs =~= Seq::empty());
    } else {
        let front = vs.drop_last();
        let t2 = T::wire(vs.last()) + t;
        assert forall|i: int| 0 <= i < front.len() implies T::fits(#[trigger] front[i]) by {
            assert(front[i] == vs[i]);
        }
        lemma_many_back::<T>(front, t2);
        assert(wire_all::<T>(vs) + t =~= wire_all::<T>(front) + t2);
        T::round_trip(vs.last(), t);
        assert(front.push(vs.last()) =~= vs);
    }
}

/// A list: its count and its items.
pub open spec fn list_bytes<T: Wire>(s: Seq<T::V>) -> Seq<u8> {
    count_bytes(s.len()) + wire_all::<T>(s)
}

pub open spec fn parse_list<T: Wire>(s: Seq<u8>) -> Parsed<Seq<T::V>> {
    match parse_count(s) {
        Ok((n, rest)) => parse_many::<T>(rest, n),
        Err(e) => Err(e),
    }
}

/// A list of items that fit, with a count that fits.
pub open spec fn list_fits<T: Wire>(s: Seq<T::V>) -> bool {
    &&& s.len() < 0x1_0000_0000
    &&& forall|i: int| 0 <= i < s.len() ==> T::fits(#[trigger] s[i])
}

pub proof fn lemma_list_back<T: Wire>(vs: Seq<T::V>, t: Seq<u8>)
    requires
        list_fits::<T>(vs),
    ensures
        parse_list::<T>(list_bytes::<T>(vs) + t) == Ok::<(Seq<T::V>, Seq<u8>), ErrorModel>((vs, t)),
{
    assert(list_bytes::<T>(vs) + t =~= count_bytes(vs.len()) + (wire_all::<T>(vs) + t));
    lemma_count_back(vs.len(), wire_all::<T>(vs) + t);
    lemma_many_back::<T>(vs, t);
}

impl<T: Wire> Wire for Vec<T> {
    open spec fn wire(v: Seq<T::V>) -> Seq<u8> {
        list_bytes::<T>(v)
    }

    open spec fn parse(s: Seq<u8>) -> Parsed<Seq<T::V>> {
        parse_list::<T>(s)
    }

    open spec fn fits(v: Seq<T::V>) -> bool {
        list_fits::<T>(v)
    }

    proof fn round_trip(v: Seq<T::V>, t: Seq<u8>) {
        lemma_list_back::<T>(v, t);
    }

    fn write(&self, out: &mut Vec<u8>) {
        put_u32(out, self.len());
        let ghost base = out@;
        let ghost all = self.deep_view();
        let mut i: usize = 0;
        assert(all.take(0) =~= Seq::<T::V>::empty());
        while i < self.len()
            invariant
                0 <= i <= self@.len(),
                all == self.deep_view(),
                out@ == base + wire_all::<T>(all.take(i as int)),
            decreases self@.len() - i,
        {
            self[i].write(out);
            proof {
                let next = all.take(i as int + 1);
                assert(next.drop_last() =~= all.take(i as int));
                assert(next.last() == self@[i as int].deep_view());
                assert(out@ =~= base + wire_all::<T>(next));
            }
            i = i + 1;
        }
        assert(all.take(all.len() as int) =~= all);
        assert(out@ =~= old(out)@ + list_bytes::<T>(all));
    }

    fn read(c: &mut Cursor) -> (r: Result<Self, RepoError>) {
        let n: usize = c.u32()?;
        let ghost start = c.rest();
        let mut v: Vec<T> = Vec::new();
        let mut i: usize = 0;
        assert(v.deep_view() =~= Seq::<T::V>::empty());
        while i < n
            invariant
                0 <= i <= n,
                parse_many::<T>(start, i as nat) == Ok::<(Seq<T::V>, Seq<u8>), ErrorModel>(
                    (v.deep_view(), c.rest()),
                ),
                parse_count(old(c).rest()) == Ok::<(nat, Seq<u8>), ErrorModel>((n as nat, start)),
            decreases n - i,
        {
            let ghost had = v.deep_view();
            match T::read(c) {
                Ok(x) => {
                    v.push(x);
                    assert(v.deep_view() =~= had.push(x.deep_view()));
                },
                Err(e) => {
                    proof {
                        lemma_error_stays::<T>(start, i as nat + 1, n as nat);
                    }
                    return Err(e);
                },
            }
            i = i + 1;
        }
        Ok(v)
    }
}

impl Wire for u8 {
    open spec fn wire(v: u8) -> Seq<u8> {
        seq![v]
    }

    open spec fn parse(s: Seq<u8>) -> Parsed<u8> {
        match parse_take(s, 1) {
            Ok((b, rest)) => Ok((b[0], rest)),
            Err(e) => Err(e),
        }
    }

    open spec fn fits(v: u8) -> bool {
        true
    }

    proof fn round_trip(v: u8, t: Seq<u8>) {
        lemma_take_back(seq![v], t);
    }

    fn write(&self, out: &mut Vec<u8>) {
        out.push(*self);
        assert(out@ =~= old(out)@ + seq![*self]);
    }

    fn read(c: &mut Cursor) -> (r: Result<Self, RepoError>) {
        let s = c.take(1)?;
        Ok(s[0])
    }
}

/// A flag: a zero byte, or another one.
impl Wire for bool {
    open spec fn wire(v: bool) -> Seq<u8> {
        seq![if v { 1u8 } else { 0u8 }]
    }

    open spec fn parse(s: Seq<u8>) -> Parsed<bool> {
        match u8::parse(s) {
            Ok((b, rest)) => Ok((b != 0, rest)),
            Err(e) => Err(e),
        }
    }

    open spec fn fits(v: bool) -> bool {
        true
    }

    proof fn round_trip(v: bool, t: Seq<u8>) {
        u8::round_trip(if v { 1u8 } else { 0u8 }, t);
    }

    fn write(&self, out: &mut Vec<u8>) {
        let b: u8 = if *self {
            1
        } else {
            0
        };
        b.write(out);
    }

    fn read(c: &mut Cursor) -> (r: Result<Self, RepoError>) {
        let b: u8 = u8::read(c)?;
        Ok(b != 0)
    }
}

impl Wire for u32 {
    open spec fn wire(v: u32) -> Seq<u8> {
        count_bytes(v as nat)
    }

    open spec fn parse(s: Seq<u8>) -> Parsed<u32> {
        match parse_count(s) {
            Ok((n, rest)) => Ok((n as u32, rest)),
            Err(e) => Err(e),
        }
    }

    open spec fn fits(v: u32) -> bool {
        true
    }

    proof fn round_trip(v: u32, t: Seq<u8>) {
        lemma_count_back(v as nat, t);
    }

    fn write(&self, out: &mut Vec<u8>) {
        put_u32(out, *self as usize);
    }

    fn read(c: &mut Cursor) -> (r: Result<Self, RepoError>) {
        let n: usize = c.u32()?;
        Ok(n as u32)
    }
}

impl Wire for u64 {
    open spec fn wire(v: u64) -> Seq<u8> {
        le(v as nat, 8)
    }

    open spec fn parse(s: Seq<u8>) -> Parsed<u64> {
        match parse_take(s, 8) {
            Ok((b, rest)) => Ok((le_value(b) as u64, rest)),
            Err(e) => Err(e),
        }
    }

    open spec fn fits(v: u64) -> bool {
        true
    }

    proof fn round_trip(v: u64, t: Seq<u8>) {
        lemma_pow256();
        lemma_le(v as nat, 8);
        lemma_take_back(le(v as nat, 8), t);
    }

    fn write(&self, out: &mut Vec<u8>) {
        put_u64(out, *self);
    }

    fn read(c: &mut Cursor) -> (r: Result<Self, RepoError>) {
        c.u64()
    }
}

impl<const N: usize> Wire for [u8; N] {
    open spec fn wire(v: Seq<u8>) -> Seq<u8> {
        v
    }

    open spec fn parse(s: Seq<u8>) -> Parsed<Seq<u8>> {
        parse_take(s, N as nat)
    }

    open spec fn fits(v: Seq<u8>) -> bool {
        v.len() == N
    }

    proof fn round_trip(v: Seq<u8>, t: Seq<u8>) {
        lemma_take_back(v, t);
    }

    fn write(&self, out: &mut Vec<u8>) {
        put_raw(out, self.as_slice());
        assert(self.deep_view() =~= self@);
    }

    fn read(c: &mut Cursor) -> (r: Result<Self, RepoError>) {
        let a = c.array::<N>()?;
        assert(a.deep_view() =~= a@);
        Ok(a)
    }
}

impl Wire for Oid {
    open spec fn wire(v: Seq<u8>) -> Seq<u8> {
        v
    }

    open spec fn parse(s: Seq<u8>) -> Parsed<Seq<u8>> {
        parse_take(s, 32)
    }

    open spec fn fits(v: Seq<u8>) -> bool {
        v.len() == 32
    }

    proof fn round_trip(v: Seq<u8>, t: Seq<u8>) {
        lemma_take_back(v, t);
    }

    fn write(&self, out: &mut Vec<u8>) {
        put_raw(out, self.0.as_slice());
    }

    fn read(c: &mut Cursor) -> (r: Result<Self, RepoError>) {
        let a = c.arr32()?;
        Ok(Oid(a))
    }
}

impl Wire for String {
    open spec fn wire(v: Seq<char>) -> Seq<u8> {
        text_bytes(v)
    }

    open spec fn parse(s: Seq<u8>) -> Parsed<Seq<char>> {
        parse_text(s)
    }

    open spec fn fits(v: Seq<char>) -> bool {
        text_fits(v)
    }

    proof fn round_trip(v: Seq<char>, t: Seq<u8>) {
        lemma_text_back(v, t);
    }

    fn write(&self, out: &mut Vec<u8>) {
        put_bytes(out, self.as_str().as_bytes());
    }

    fn read(c: &mut Cursor) -> (r: Result<Self, RepoError>) {
        c.string()
    }
}

impl Wire for RepoPath {
    open spec fn wire(v: Seq<char>) -> Seq<u8> {
        text_bytes(v)
    }

    open spec fn parse(s: Seq<u8>) -> Parsed<Seq<char>> {
        parse_text(s)
    }

    open spec fn fits(v: Seq<char>) -> bool {
        text_fits(v)
    }

    proof fn round_trip(v: Seq<char>, t: Seq<u8>) {
        lemma_text_back(v, t);
    }

    fn write(&self, out: &mut Vec<u8>) {
        put_bytes(out, self.as_str().as_bytes());
    }

    fn read(c: &mut Cursor) -> (r: Result<Self, RepoError>) {
        let t = c.string()?;
        Ok(RepoPath::new(t.as_str()))
    }
}

impl<A: Wire, B: Wire> Wire for (A, B) {
    open spec fn wire(v: (A::V, B::V)) -> Seq<u8> {
        A::wire(v.0) + B::wire(v.1)
    }

    open spec fn parse(s: Seq<u8>) -> Parsed<(A::V, B::V)> {
        match A::parse(s) {
            Ok((a, rest)) => match B::parse(rest) {
                Ok((b, rest2)) => Ok(((a, b), rest2)),
                Err(e) => Err(e),
            },
            Err(e) => Err(e),
        }
    }

    open spec fn fits(v: (A::V, B::V)) -> bool {
        A::fits(v.0) && B::fits(v.1)
    }

    proof fn round_trip(v: (A::V, B::V), t: Seq<u8>) {
        assert(A::wire(v.0) + B::wire(v.1) + t =~= A::wire(v.0) + (B::wire(v.1) + t));
        A::round_trip(v.0, B::wire(v.1) + t);
        B::round_trip(v.1, t);
    }

    fn write(&self, out: &mut Vec<u8>) {
        self.0.write(out);
        self.1.write(out);
        assert(out@ =~= old(out)@ + (A::wire(self.0.deep_view()) + B::wire(self.1.deep_view())));
    }

    fn read(c: &mut Cursor) -> (r: Result<Self, RepoError>) {
        let a = A::read(c)?;
        let b = B::read(c)?;
        Ok((a, b))
    }
}

impl<A: Wire, B: Wire, C: Wire> Wire for (A, B, C) {
    open spec fn wire(v: (A::V, B::V, C::V)) -> Seq<u8> {
        A::wire(v.0) + B::wire(v.1) + C::wire(v.2)
    }

    open spec fn parse(s: Seq<u8>) -> Parsed<(A::V, B::V, C::V)> {
        match A::parse(s) {
            Ok((a, rest)) => match B::parse(rest) {
                Ok((b, rest2)) => match C::parse(rest2) {
                    Ok((c, rest3)) => Ok(((a, b, c), rest3)),
                    Err(e) => Err(e),
                },
                Err(e) => Err(e),
            },
            Err(e) => Err(e),
        }
    }

    open spec fn fits(v: (A::V, B::V, C::V)) -> bool {
        A::fits(v.0) && B::fits(v.1) && C::fits(v.2)
    }

    proof fn round_trip(v: (A::V, B::V, C::V), t: Seq<u8>) {
        let t2 = C::wire(v.2) + t;
        let t1 = B::wire(v.1) + t2;
        assert(A::wire(v.0) + B::wire(v.1) + C::wire(v.2) + t =~= A::wire(v.0) + t1);
        A::round_trip(v.0, t1);
        B::round_trip(v.1, t2);
        C::round_trip(v.2, t);
    }

    fn write(&self, out: &mut Vec<u8>) {
        self.0.write(out);
        self.1.write(out);
        self.2.write(out);
        assert(out@ =~= old(out)@ + (A::wire(self.0.deep_view()) + B::wire(self.1.deep_view())
            + C::wire(self.2.deep_view())));
    }

    fn read(c: &mut Cursor) -> (r: Result<Self, RepoError>) {
        let a = A::read(c)?;
        let b = B::read(c)?;
        let d = C::read(c)?;
        Ok((a, b, d))
    }
}

/// A value that may be absent: a zero byte, or another byte and the value.
impl<A: Wire> Wire for Option<A> {
    open spec fn wire(v: Option<A::V>) -> Seq<u8> {
        match v {
            Some(a) => seq![1u8] + A::wire(a),
            None => seq![0u8],
        }
    }

    open spec fn parse(s: Seq<u8>) -> Parsed<Option<A::V>> {
        match u8::parse(s) {
            Ok((b, rest)) => if b == 0 {
                Ok((None, rest))
            } else {
                match A::parse(rest) {
                    Ok((a, rest2)) => Ok((Some(a), rest2)),
                    Err(e) => Err(e),
                }
            },
            Err(e) => Err(e),
        }
    }

    open spec fn fits(v: Option<A::V>) -> bool {
        match v {
            Some(a) => A::fits(a),
            None => true,
        }
    }

    proof fn round_trip(v: Option<A::V>, t: Seq<u8>) {
        match v {
            Some(a) => {
                assert(seq![1u8] + A::wire(a) + t =~= seq![1u8] + (A::wire(a) + t));
                u8::round_trip(1u8, A::wire(a) + t);
                A::round_trip(a, t);
            },
            None => {
                u8::round_trip(0u8, t);
            },
        }
    }

    fn write(&self, out: &mut Vec<u8>) {
        match self {
            Some(a) => {
                out.push(1u8);
                a.write(out);
                assert(out@ =~= old(out)@ + (seq![1u8] + A::wire(a.deep_view())));
            },
            None => {
                out.push(0u8);
                assert(out@ =~= old(out)@ + seq![0u8]);
            },
        }
    }

    fn read(c: &mut Cursor) -> (r: Result<Self, RepoError>) {
        let b: u8 = u8::read(c)?;
        if b == 0 {
            Ok(None)
        } else {
            let a = A::read(c)?;
            Ok(Some(a))
        }
    }
}

/// The error of a visibility tag that stands for none.
pub open spec fn bad_vis_tag(t: u8) -> ErrorModel {
    ErrorModel::Backend("bad vis tag "@ + crate::text::decimal(t as nat))
}

impl Wire for Visibility {
    open spec fn wire(v: VisibilityModel) -> Seq<u8> {
        match v {
            VisibilityModel::Public => seq![0u8],
            VisibilityModel::Restricted(ids) => seq![1u8] + list_bytes::<String>(ids),
            VisibilityModel::Embargoed { reveal_at } => seq![2u8] + le(reveal_at as nat, 8),
        }
    }

    open spec fn parse(s: Seq<u8>) -> Parsed<VisibilityModel> {
        match u8::parse(s) {
            Ok((tag, rest)) => if tag == 0 {
                Ok((VisibilityModel::Public, rest))
            } else if tag == 1 {
                match parse_list::<String>(rest) {
                    Ok((ids, rest2)) => Ok((VisibilityModel::Restricted(ids), rest2)),
                    Err(e) => Err(e),
                }
            } else if tag == 2 {
                match u64::parse(rest) {
                    Ok((t, rest2)) => Ok((VisibilityModel::Embargoed { reveal_at: t }, rest2)),
                    Err(e) => Err(e),
                }
            } else {
                Err(bad_vis_tag(tag))
            },
            Err(e) => Err(e),
        }
    }

    open spec fn fits(v: VisibilityModel) -> bool {
        match v {
            VisibilityModel::Restricted(ids) => list_fits::<String>(ids),
            _ => true,
        }
    }

    proof fn round_trip(v: VisibilityModel, t: Seq<u8>) {
        match v {
            VisibilityModel::Public => {
                u8::round_trip(0u8, t);
            },
            VisibilityModel::Restricted(ids) => {
                assert(seq![1u8] + list_bytes::<String>(ids) + t =~= seq![1u8] + (list_bytes::<
                    String,
                >(ids) + t));
                u8::round_trip(1u8, list_bytes::<String>(ids) + t);
                lemma_list_back::<String>(ids, t);
            },
            VisibilityModel::Embargoed { reveal_at } => {
                assert(seq![2u8] + le(reveal_at as nat, 8) + t =~= seq![2u8] + (le(
                    reveal_at as nat,
                    8,
                ) + t));
                u8::round_trip(2u8, le(reveal_at as nat, 8) + t);
                u64::round_trip(reveal_at, t);
            },
        }
    }

    fn write(&self, out: &mut Vec<u8>) {
        match self {
            Visibility::Public => {
                out.push(0u8);
                assert(out@ =~= old(out)@ + seq![0u8]);
            },
            Visibility::Restricted(ids) => {
                out.push(1u8);
                ids.write(out);
                assert(out@ =~= old(out)@ + (seq![1u8] + list_bytes::<String>(ids.deep_view())));
            },
            Visibility::Embargoed { reveal_at } => {
                out.push(2u8);
                put_u64(out, *reveal_at);
                assert(out@ =~= old(out)@ + (seq![2u8] + le(*reveal_at as nat, 8)));
            },
        }
    }

    fn read(c: &mut Cursor) -> (r: Result<Self, RepoError>) {
        let tag: u8 = u8::read(c)?;
        if tag == 0 {
            Ok(Visibility::Public)
        } else if tag == 1 {
            let ids = Vec::<String>::read(c)?;
            Ok(Visibility::Restricted(ids))
        } else if tag == 2 {
            let t: u64 = c.u64()?;
            Ok(Visibility::Embargoed { reveal_at: t })
        } else {
            let mut text = "bad vis tag ".to_owned();
            push_decimal(&mut text, tag as u64);
            Err(RepoError::Backend(text))
        }
    }
}

/// Writes a visibility.
pub fn put_vis(out: &mut Vec<u8>, vis: &Visibility)
    ensures
        final(out)@ == old(out)@ + Visibility::wire(vis.deep_view()),
{
    vis.write(out);
}

/// The map that entries leave when they are put in one after another: of two
/// with the same key the later one stays.
pub open spec fn gather<A, B>(s: Seq<(A, B)>) -> Map<A, B>
    decreases s.len(),
{
    if s.len() == 0 {
        Map::empty()
    } else {
        gather(s.drop_last()).insert(s.last().0, s.last().1)
    }
}

/// Entries with rising keys gather into the map that they list.
pub proof fn lemma_gather_rising<K: Key, B>(s: Seq<(K::V, B)>)
    requires
        rising::<K, B>(s),
    ensures
        gather(s) == map_of(s),
    decreases s.len(),
{
    if s.len() == 0 {
        assert(gather(s) =~= map_of(s));
    } else {
        lemma_drop_last::<K, B>(s);
        lemma_gather_rising::<K, B>(s.drop_last());
        lemma_entry::<K, B>(s, s.len() - 1);
        assert(gather(s) =~= map_of(s));
    }
}

/// Puts entries into a map one after another.
pub fn gathered<K: Key, V: Value>(es: &Vec<(K, V)>) -> (m: SortedMap<K, V>)
    ensures
        m.deep_view() == gather(es.deep_view()),
{
    let ghost all = es.deep_view();
    let mut m: SortedMap<K, V> = SortedMap::new();
    let mut i: usize = 0;
    assert(all.take(0) =~= Seq::<(K::V, V::V)>::empty());
    while i < es.len()
        invariant
            0 <= i <= es@.len(),
            all == es.deep_view(),
            m.deep_view() == gather(all.take(i as int)),
        decreases es@.len() - i,
    {
        m.insert(es[i].0.dup(), es[i].1.dup());
        proof {
            assert(all.take(i as int + 1).drop_last() =~= all.take(i as int));
            assert(all.take(i as int + 1).last() == es@[i as int].deep_view());
        }
        i = i + 1;
    }
    assert(all.take(all.len() as int) =~= all);
    m
}

/// A map as the list of its entries in key order.
impl<K: Key + Wire, V: Wire> Wire for SortedMap<K, V> {
    open spec fn wire(v: Map<K::V, V::V>) -> Seq<u8> {
        list_bytes::<(K, V)>(pairs_of::<K, V::V>(v))
    }

    open spec fn parse(s: Seq<u8>) -> Parsed<Map<K::V, V::V>> {
        match parse_list::<(K, V)>(s) {
            Ok((es, rest)) => Ok((gather(es), rest)),
            Err(e) => Err(e),
        }
    }

    open spec fn fits(v: Map<K::V, V::V>) -> bool {
        &&& v.dom().finite()
        &&& list_fits::<(K, V)>(pairs_of::<K, V::V>(v))
    }

    proof fn round_trip(v: Map<K::V, V::V>, t: Seq<u8>) {
        let s = pairs_of::<K, V::V>(v);
        lemma_map_is_listed::<K, V::V>(v);
        lemma_list_back::<(K, V)>(s, t);
        lemma_gather_rising::<K, V::V>(s);
    }

    fn write(&self, out: &mut Vec<u8>) {
        let n: usize = self.len();
        put_u32(out, n);
        let ghost base = out@;
        let ghost all = self.pairs();
        let mut i: usize = 0;
        assert(all.take(0) =~= Seq::<(K::V, V::V)>::empty());
        while i < n
            invariant
                0 <= i <= n,
                n == all.len(),
                all == self.pairs(),
                out@ == base + wire_all::<(K, V)>(all.take(i as int)),
            decreases n - i,
        {
            let k = self.key_at(i);
            k.write(out);
            let v = self.value_at(i);
            v.write(out);
            proof {
                let next = all.take(i as int + 1);
                assert(next.drop_last() =~= all.take(i as int));
                assert(next.last() == (k.deep_view(), v.deep_view()));
                assert(out@ =~= base + wire_all::<(K, V)>(next));
            }
            i = i + 1;
        }
        assert(all.take(all.len() as int) =~= all);
        assert(out@ =~= old(out)@ + list_bytes::<(K, V)>(all));
    }

    fn read(c: &mut Cursor) -> (r: Result<Self, RepoError>) {
        let n: usize = c.u32()?;
        let ghost start = c.rest();
        let mut m: SortedMap<K, V> = SortedMap::new();
        let ghost mut es: Seq<(K::V, V::V)> = Seq::empty();
        let mut i: usize = 0;
        while i < n
            invariant
                0 <= i <= n,
                parse_many::<(K, V)>(start, i as nat) == Ok::<
                    (Seq<(K::V, V::V)>, Seq<u8>),
                    ErrorModel,
                >((es, c.rest())),
                m.deep_view() == gather(es),
                parse_count(old(c).rest()) == Ok::<(nat, Seq<u8>), ErrorModel>((n as nat, start)),
            decreases n - i,
        {
            match <(K, V)>::read(c) {
                Ok((k, v)) => {
                    proof {
                        let next = es.push((k.deep_view(), v.deep_view()));
                        assert(next.drop_last() =~= es);
                        es = next;
                    }
                    m.insert(k, v);
                },
                Err(e) => {
                    proof {
                        lemma_error_stays::<(K, V)>(start, i as nat + 1, n as nat);
                    }
                    return Err(e);
                },
            }
            i = i + 1;
        }
        Ok(m)
    }
}

/// The rows of a map from paths, in path order.
pub open spec fn rows_in<V>(s: Seq<(Seq<char>, Placed<V>)>) -> Seq<(Seq<char>, V)> {
    s.map_values(|p: (Seq<char>, Placed<V>)| (p.1.text, p.1.v))
}

/// Rows put into a map one after another.
pub open spec fn placed_rows<V>(rows: Seq<(Seq<char>, V)>) -> Paths<V>
    decreases rows.len(),
{
    if rows.len() == 0 {
        Map::empty()
    } else {
        put_at(placed_rows(rows.drop_last()), rows.last().0, rows.last().1)
    }
}

/// The rows of a map give it back.
proof fn lemma_rows_back<V>(s: Seq<(Seq<char>, Placed<V>)>)
    requires
        rising::<PathKey, Placed<V>>(s),
        well_placed(map_of(s)),
    ensures
        placed_rows(rows_in(s)) == map_of(s),
    decreases s.len(),
{
    if s.len() == 0 {
        assert(placed_rows(rows_in(s)) =~= map_of(s));
    } else {
        let front = s.drop_last();
        let k = s.last().0;
        lemma_drop_last::<PathKey, Placed<V>>(s);
        lemma_entry::<PathKey, Placed<V>>(s, s.len() - 1);
        assert(well_placed(map_of(front))) by {
            assert forall|q: Seq<char>| #[trigger] map_of(front).contains_key(q) implies normal_path(
                map_of(front)[q].text,
            ) == q by {
                assert(map_of(s).contains_key(q));
            }
        }
        lemma_rows_back(front);
        assert(rows_in(s).drop_last() =~= rows_in(front));
        assert(rows_in(s).last() == (s.last().1.text, s.last().1.v));
        assert(map_of(s).contains_key(k));
        assert(placed_rows(rows_in(s)) =~= map_of(s));
    }
}

/// A map from paths as the list of its rows in path order.
impl<V: Wire> Wire for PathMap<V> {
    open spec fn wire(v: Paths<V::V>) -> Seq<u8> {
        list_bytes::<(RepoPath, V)>(rows_in(pairs_of::<PathKey, Placed<V::V>>(v)))
    }

    open spec fn parse(s: Seq<u8>) -> Parsed<Paths<V::V>> {
        match parse_list::<(RepoPath, V)>(s) {
            Ok((es, rest)) => Ok((placed_rows(es), rest)),
            Err(e) => Err(e),
        }
    }

    open spec fn fits(v: Paths<V::V>) -> bool {
        &&& v.dom().finite()
        &&& well_placed(v)
        &&& list_fits::<(RepoPath, V)>(rows_in(pairs_of::<PathKey, Placed<V::V>>(v)))
    }

    proof fn round_trip(v: Paths<V::V>, t: Seq<u8>) {
        let s = pairs_of::<PathKey, Placed<V::V>>(v);
        lemma_map_is_listed::<PathKey, Placed<V::V>>(v);
        lemma_list_back::<(RepoPath, V)>(rows_in(s), t);
        lemma_rows_back(s);
    }

    fn write(&self, out: &mut Vec<u8>) {
        let n: usize = self.len();
        put_u32(out, n);
        let ghost base = out@;
        let ghost all = rows_in(self.pairs());
        let mut i: usize = 0;
        assert(all.take(0) =~= Seq::<(Seq<char>, V::V)>::empty());
        while i < n
            invariant
                0 <= i <= n,
                n == all.len(),
                all == rows_in(self.pairs()),
                n == self.pairs().len(),
                out@ == base + wire_all::<(RepoPath, V)>(all.take(i as int)),
            decreases n - i,
        {
            let k = self.path_at(i);
            k.write(out);
            let v = self.value_at(i);
            v.write(out);
            proof {
                let next = all.take(i as int + 1);
                assert(next.drop_last() =~= all.take(i as int));
                assert(next.last() == (k.deep_view(), v.deep_view()));
                assert(out@ =~= base + wire_all::<(RepoPath, V)>(next));
            }
            i = i + 1;
        }
        assert(all.take(all.len() as int) =~= all);
        assert(out@ =~= old(out)@ + list_bytes::<(RepoPath, V)>(all));
    }

    fn read(c: &mut Cursor) -> (r: Result<Self, RepoError>) {
        let n: usize = c.u32()?;
        let ghost start = c.rest();
        let mut m: PathMap<V> = PathMap::new();
        let ghost mut es: Seq<(Seq<char>, V::V)> = Seq::empty();
        let mut i: usize = 0;
        while i < n
            invariant
                0 <= i <= n,
                parse_many::<(RepoPath, V)>(start, i as nat) == Ok::<
                    (Seq<(Seq<char>, V::V)>, Seq<u8>),
                    ErrorModel,
                >((es, c.rest())),
                m.deep_view() == placed_rows(es),
                parse_count(old(c).rest()) == Ok::<(nat, Seq<u8>), ErrorModel>((n as nat, start)),
            decreases n - i,
        {
            match <(RepoPath, V)>::read(c) {
                Ok((k, v)) => {
                    proof {
                        let next = es.push((k.deep_view(), v.deep_view()));
                        assert(next.drop_last() =~= es);
                        es = next;
                    }
                    m.insert(k, v);
                },
                Err(e) => {
                    proof {
                        lemma_error_stays::<(RepoPath, V)>(start, i as nat + 1, n as nat);
                    }
                    return Err(e);
                },
            }
            i = i + 1;
        }
        Ok(m)
    }
}

// ---------------------------------------------------------------------------
// Versions
// ---------------------------------------------------------------------------

/// The two bytes that open a file of format `major`.
pub open spec fn version_bytes(major: u8) -> Seq<u8> {
    seq![major, FORMAT_MINOR]
}

/// Reading a version: a build reads every format up to the one it knows.
pub open spec fn parse_version(s: Seq<u8>, supported: u8) -> Parsed<(u8, u8)> {
    match <(u8, u8)>::parse(s) {
        Ok((v, rest)) => if v.0 > supported {
            Err(ErrorModel::UnsupportedFormat { found: v.0, supported })
        } else {
            Ok((v, rest))
        },
        Err(e) => Err(e),
    }
}

/// Writes the version.
pub fn put_version(out: &mut Vec<u8>, major: u8)
    ensures
        final(out)@ == old(out)@ + version_bytes(major),
{
    out.push(major);
    out.push(FORMAT_MINOR);
    assert(out@ =~= old(out)@ + version_bytes(major));
}

/// Reads a version and refuses one that is too new.
pub fn read_version(c: &mut Cursor, supported: u8) -> (r: Result<(u8, u8), RepoError>)
    ensures
        match r {
            Ok(v) => parse_version(old(c).rest(), supported) == Ok::<((u8, u8), Seq<u8>), ErrorModel>(
                (v, final(c).rest()),
            ),
            Err(e) => parse_version(old(c).rest(), supported) == Err::<
                ((u8, u8), Seq<u8>),
                ErrorModel,
            >(e.deep_view()),
        },
{
    let v = <(u8, u8)>::read(c)?;
    if v.0 > supported {
        return Err(RepoError::UnsupportedFormat { found: v.0, supported });
    }
    Ok(v)
}

pub proof fn lemma_version_back(major: u8, supported: u8, t: Seq<u8>)
    requires
        major <= supported,
    ensures
        parse_version(version_bytes(major) + t, supported) == Ok::<((u8, u8), Seq<u8>), ErrorModel>(
            ((major, FORMAT_MINOR), t),
        ),
{
    assert(version_bytes(major) =~= <(u8, u8)>::wire((major, FORMAT_MINOR)));
    <(u8, u8)>::round_trip((major, FORMAT_MINOR), t);
}

/// What a later build wrote is refused, whatever follows its version.
pub proof fn law_later_format_is_refused(major: u8, minor: u8, t: Seq<u8>, supported: u8)
    requires
        major > supported,
    ensures
        parse_version(seq![major, minor] + t, supported) == Err::<((u8, u8), Seq<u8>), ErrorModel>(
            ErrorModel::UnsupportedFormat { found: major, supported },
        ),
{
    assert(seq![major, minor] =~= <(u8, u8)>::wire((major, minor)));
    <(u8, u8)>::round_trip((major, minor), t);
}

/// How numbers, texts and lists stand in bytes: numbers with the lowest byte first, counts in
/// four bytes and times in eight; a text as its count of bytes and the bytes; a list as its
/// count and its items in turn; what may be there behind a one, and a zero where it is not.
pub proof fn law_how_values_stand_in_bytes(v: u64, n: u32, t: Seq<char>, ts: Seq<Seq<char>>)
    ensures
        u64::wire(v).len() == 8,
        forall|i: int|
            0 <= i < 8 ==> #[trigger] u64::wire(v)[i] == (v as nat / pow256(i as nat)) % 256,
        u32::wire(n).len() == 4,
        forall|i: int| 0 <= i < 4 ==> #[trigger] u32::wire(n)[i] == (n as nat / pow256(i as nat)) % 256,
        bool::wire(true) == seq![1u8],
        bool::wire(false) == seq![0u8],
        encode_utf8(t).len() <= u32::MAX ==> String::wire(t) == u32::wire(encode_utf8(t).len() as u32) + encode_utf8(t),
        ts.len() <= u32::MAX ==> Vec::<String>::wire(ts) == u32::wire(ts.len() as u32) + wire_all::<String>(ts),
        wire_all::<String>(ts.push(t)) == wire_all::<String>(ts) + String::wire(t),
        Option::<u64>::wire(Some(v)) == seq![1u8] + u64::wire(v),
        Option::<u64>::wire(None) == seq![0u8],
{
    lemma_le_digits(v as nat, 8);
    lemma_le_digits(n as nat, 4);
    assert(n as nat % 0x1_0000_0000 == n as nat);
    assert(ts.push(t).drop_last() =~= ts);
}

/// A number's bytes are its digits to the base of 256.
proof fn lemma_le_digits(n: nat, k: nat)
    ensures
        le(n, k).len() == k,
        forall|i: int| 0 <= i < k ==> #[trigger] le(n, k)[i] == (n / pow256(i as nat)) % 256,
    decreases k,
{
    if k > 0 {
        let rest = le(n / 256, (k - 1) as nat);
        lemma_le_digits(n / 256, (k - 1) as nat);
        assert forall|i: int| 0 <= i < k implies #[trigger] le(n, k)[i] == (n / pow256(i as nat)) % 256 by {
            if i == 0 {
                assert(pow256(0) == 1);
                assert(n / 1 == n);
            } else {
                assert(le(n, k)[i] == rest[i - 1]);
                lemma_pow_grows((i - 1) as nat);
                let p = pow256((i - 1) as nat);
                vstd::arithmetic::div_mod::lemma_div_denominator(n as int, 256, p as int);
                assert(pow256(i as nat) == 256 * p);
            }
        }
    }
}

proof fn lemma_pow_grows(k: nat)
    ensures
        pow256(k) > 0,
    decreases k,
{
    if k > 0 {
        lemma_pow_grows((k - 1) as nat);
    }
}

/// How a visibility stands in bytes: a zero if public, a one and the names if restricted, a
/// two and the time if embargoed. No other first byte stands for any.
pub proof fn law_how_visibility_stands_in_bytes(ids: Seq<Seq<char>>, reveal_at: u64, tag: u8, rest: Seq<u8>)
    ensures
        Visibility::wire(VisibilityModel::Public) == seq![0u8],
        Visibility::wire(VisibilityModel::Restricted(ids)) == seq![1u8] + Vec::<String>::wire(ids),
        Visibility::wire(VisibilityModel::Embargoed { reveal_at }) == seq![2u8] + u64::wire(reveal_at),
        tag > 2 ==> Visibility::parse(seq![tag] + rest) is Err,
{
    u8::round_trip(tag, rest);
    assert(u8::wire(tag) =~= seq![tag]);
}

/// A file begins with its format, of which every one up to the newest is read.
pub proof fn law_files_begin_with_their_format(major: u8, minor: u8, t: Seq<u8>, supported: u8)
    requires
        major <= supported,
    ensures
        version_bytes(major) == seq![major, 0u8],
        parse_version(seq![major, minor] + t, supported) == Ok::<((u8, u8), Seq<u8>), ErrorModel>(((major, minor), t)),
{
    assert(seq![major, minor] =~= <(u8, u8)>::wire((major, minor)));
    <(u8, u8)>::round_trip((major, minor), t);
}

} // verus!
