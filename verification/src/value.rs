//! Values with a mathematical model, and keys with a strict order.

use vstd::prelude::*;

verus! {

/// The three ways in which one key may stand to another.
#[derive(Clone, Copy, Debug, PartialEq, Eq, Structural)]
pub enum Order {
    Less,
    Equal,
    Greater,
}

/// A value that is known by its deep view: copying keeps it, and two values
/// are the same when their deep views are.
pub trait Value: DeepView + Sized {
    /// A copy with the same deep view.
    fn dup(&self) -> (r: Self)
        ensures
            r.deep_view() == self.deep_view(),
    ;

    /// Whether the two deep views are equal.
    fn same(&self, other: &Self) -> (b: bool)
        ensures
            b == (self.deep_view() == other.deep_view()),
    ;
}

/// A value with a strict total order, by which maps and sets are walked.
pub trait Key: Value {
    /// `a` comes strictly before `b`.
    spec fn before(a: Self::V, b: Self::V) -> bool;

    /// Nothing comes before itself.
    proof fn before_irreflexive(a: Self::V)
        ensures
            !Self::before(a, a),
    ;

    /// The order is transitive.
    proof fn before_transitive(a: Self::V, b: Self::V, c: Self::V)
        requires
            Self::before(a, b),
            Self::before(b, c),
        ensures
            Self::before(a, c),
    ;

    /// The order is total.
    proof fn before_total(a: Self::V, b: Self::V)
        ensures
            a == b || Self::before(a, b) || Self::before(b, a),
    ;

    /// Compares two keys.
    fn compare(&self, other: &Self) -> (o: Order)
        ensures
            match o {
                Order::Less => Self::before(self.deep_view(), other.deep_view()),
                Order::Equal => self.deep_view() == other.deep_view(),
                Order::Greater => Self::before(other.deep_view(), self.deep_view()),
            },
    ;
}

/// `a` and `b` agree below `i`, and at `i` the sequence `a` is the smaller: it
/// has ended there and `b` has not, or its element is the smaller one.
pub open spec fn parts_at(a: Seq<int>, b: Seq<int>, i: int) -> bool {
    &&& 0 <= i <= a.len()
    &&& i < b.len()
    &&& forall|j: int| 0 <= j < i ==> a[j] == b[j]
    &&& i < a.len() ==> a[i] < b[i]
}

/// Lexicographic order on sequences of integers, a proper prefix first.
pub open spec fn lex_before(a: Seq<int>, b: Seq<int>) -> bool {
    exists|i: int| #[trigger] parts_at(a, b, i)
}

pub proof fn lemma_lex_irreflexive(a: Seq<int>)
    ensures
        !lex_before(a, a),
{
}

pub proof fn lemma_lex_transitive(a: Seq<int>, b: Seq<int>, c: Seq<int>)
    requires
        lex_before(a, b),
        lex_before(b, c),
    ensures
        lex_before(a, c),
{
    let i = choose|i: int| #[trigger] parts_at(a, b, i);
    let j = choose|j: int| #[trigger] parts_at(b, c, j);
    if i <= j {
        assert(parts_at(a, c, i));
    } else {
        assert(parts_at(a, c, j));
    }
}

pub proof fn lemma_lex_total(a: Seq<int>, b: Seq<int>)
    ensures
        a == b || lex_before(a, b) || lex_before(b, a),
{
    lemma_lex_total_from(a, b, 0);
}

/// Sequences that agree below `i` are equal, or one comes first.
proof fn lemma_lex_total_from(a: Seq<int>, b: Seq<int>, i: int)
    requires
        0 <= i <= a.len(),
        i <= b.len(),
        forall|j: int| 0 <= j < i ==> a[j] == b[j],
    ensures
        a == b || lex_before(a, b) || lex_before(b, a),
    decreases a.len() - i,
{
    if i == a.len() && i == b.len() {
        assert(a =~= b);
    } else if i == a.len() {
        assert(parts_at(a, b, i));
    } else if i == b.len() {
        assert(parts_at(b, a, i));
    } else if a[i] < b[i] {
        assert(parts_at(a, b, i));
    } else if b[i] < a[i] {
        assert(parts_at(b, a, i));
    } else {
        lemma_lex_total_from(a, b, i + 1);
    }
}

/// A byte sequence as integers.
pub open spec fn byte_ranks(s: Seq<u8>) -> Seq<int> {
    Seq::new(s.len(), |i: int| s[i] as int)
}

/// A text as the integers of its characters.
pub open spec fn char_ranks(s: Seq<char>) -> Seq<int> {
    Seq::new(s.len(), |i: int| s[i] as int)
}

pub proof fn lemma_bytes_total(a: Seq<u8>, b: Seq<u8>)
    ensures
        a == b || lex_before(byte_ranks(a), byte_ranks(b)) || lex_before(byte_ranks(b), byte_ranks(a)),
{
    lemma_lex_total(byte_ranks(a), byte_ranks(b));
    if byte_ranks(a) == byte_ranks(b) {
        assert(a.len() == byte_ranks(a).len() && b.len() == byte_ranks(b).len());
        assert forall|i: int| 0 <= i < a.len() implies #[trigger] a[i] == b[i] by {
            assert(byte_ranks(a)[i] == byte_ranks(b)[i]);
        }
        assert(a =~= b);
    }
}

pub proof fn lemma_chars_total(a: Seq<char>, b: Seq<char>)
    ensures
        a == b || lex_before(char_ranks(a), char_ranks(b)) || lex_before(char_ranks(b), char_ranks(a)),
{
    lemma_lex_total(char_ranks(a), char_ranks(b));
    if char_ranks(a) == char_ranks(b) {
        assert(a.len() == char_ranks(a).len() && b.len() == char_ranks(b).len());
        assert forall|i: int| 0 <= i < a.len() implies #[trigger] a[i] == b[i] by {
            assert(char_ranks(a)[i] == char_ranks(b)[i]);
        }
        assert(a =~= b);
    }
}

/// Compares two byte slices in lexicographic order.
pub fn compare_bytes(a: &[u8], b: &[u8]) -> (o: Order)
    ensures
        match o {
            Order::Less => lex_before(byte_ranks(a@), byte_ranks(b@)),
            Order::Equal => a@ == b@,
            Order::Greater => lex_before(byte_ranks(b@), byte_ranks(a@)),
        },
{
    let mut i: usize = 0;
    while i < a.len() && i < b.len()
        invariant
            0 <= i <= a@.len(),
            i <= b@.len(),
            forall|j: int| 0 <= j < i ==> a@[j] == b@[j],
        decreases a@.len() - i,
    {
        if a[i] < b[i] {
            assert(parts_at(byte_ranks(a@), byte_ranks(b@), i as int));
            return Order::Less;
        }
        if b[i] < a[i] {
            assert(parts_at(byte_ranks(b@), byte_ranks(a@), i as int));
            return Order::Greater;
        }
        i = i + 1;
    }
    if i < b.len() {
        assert(parts_at(byte_ranks(a@), byte_ranks(b@), i as int));
        Order::Less
    } else if i < a.len() {
        assert(parts_at(byte_ranks(b@), byte_ranks(a@), i as int));
        Order::Greater
    } else {
        assert(a@ =~= b@);
        Order::Equal
    }
}

/// Whether two byte slices hold the same bytes.
pub fn same_bytes(a: &[u8], b: &[u8]) -> (r: bool)
    ensures
        r == (a@ == b@),
{
    if a.len() != b.len() {
        return false;
    }
    let mut i: usize = 0;
    while i < a.len()
        invariant
            a@.len() == b@.len(),
            0 <= i <= a@.len(),
            forall|j: int| 0 <= j < i ==> a@[j] == b@[j],
        decreases a@.len() - i,
    {
        if a[i] != b[i] {
            return false;
        }
        i = i + 1;
    }
    assert(a@ =~= b@);
    true
}

impl Value for String {
    fn dup(&self) -> (r: Self) {
        self.clone()
    }

    fn same(&self, other: &Self) -> (b: bool) {
        *self == *other
    }
}

impl Value for u64 {
    fn dup(&self) -> (r: Self) {
        *self
    }

    fn same(&self, other: &Self) -> (b: bool) {
        *self == *other
    }
}

impl Value for usize {
    fn dup(&self) -> (r: Self) {
        *self
    }

    fn same(&self, other: &Self) -> (b: bool) {
        *self == *other
    }
}

impl Value for u8 {
    fn dup(&self) -> (r: Self) {
        *self
    }

    fn same(&self, other: &Self) -> (b: bool) {
        *self == *other
    }
}

impl Value for u32 {
    fn dup(&self) -> (r: Self) {
        *self
    }

    fn same(&self, other: &Self) -> (b: bool) {
        *self == *other
    }
}

impl Value for bool {
    fn dup(&self) -> (r: Self) {
        *self
    }

    fn same(&self, other: &Self) -> (b: bool) {
        *self == *other
    }
}

impl Value for () {
    fn dup(&self) -> (r: Self) {
    }

    fn same(&self, other: &Self) -> (b: bool) {
        true
    }
}

impl<const N: usize> Value for [u8; N] {
    fn dup(&self) -> (r: Self) {
        *self
    }

    fn same(&self, other: &Self) -> (b: bool) {
        let r = same_bytes(self.as_slice(), other.as_slice());
        assert(self.deep_view() =~= self@);
        assert(other.deep_view() =~= other@);
        r
    }
}

impl<A: Value, B: Value> Value for (A, B) {
    fn dup(&self) -> (r: Self) {
        (self.0.dup(), self.1.dup())
    }

    fn same(&self, other: &Self) -> (b: bool) {
        self.0.same(&other.0) && self.1.same(&other.1)
    }
}

impl<A: Value, B: Value, C: Value> Value for (A, B, C) {
    fn dup(&self) -> (r: Self) {
        (self.0.dup(), self.1.dup(), self.2.dup())
    }

    fn same(&self, other: &Self) -> (b: bool) {
        self.0.same(&other.0) && self.1.same(&other.1) && self.2.same(&other.2)
    }
}

impl<T: Value> Value for Option<T> {
    fn dup(&self) -> (r: Self) {
        match self {
            Some(t) => Some(t.dup()),
            None => None,
        }
    }

    fn same(&self, other: &Self) -> (b: bool) {
        match (self, other) {
            (Some(a), Some(b)) => a.same(b),
            (None, None) => true,
            _ => false,
        }
    }
}

impl<T: Value> Value for Vec<T> {
    fn dup(&self) -> (r: Self) {
        let mut r: Vec<T> = Vec::new();
        let mut i: usize = 0;
        while i < self.len()
            invariant
                0 <= i <= self@.len(),
                r@.len() == i,
                forall|j: int| 0 <= j < i ==> (#[trigger] r@[j]).deep_view() == self@[j].deep_view(),
            decreases self@.len() - i,
        {
            r.push(self[i].dup());
            i = i + 1;
        }
        assert(r.deep_view() =~= self.deep_view());
        r
    }

    fn same(&self, other: &Self) -> (b: bool) {
        if self.len() != other.len() {
            assert(self.deep_view().len() != other.deep_view().len());
            return false;
        }
        let mut i: usize = 0;
        while i < self.len()
            invariant
                self@.len() == other@.len(),
                0 <= i <= self@.len(),
                forall|j: int|
                    0 <= j < i ==> (#[trigger] self@[j]).deep_view() == other@[j].deep_view(),
            decreases self@.len() - i,
        {
            if !self[i].same(&other[i]) {
                assert(self.deep_view()[i as int] != other.deep_view()[i as int]);
                return false;
            }
            i = i + 1;
        }
        assert(self.deep_view() =~= other.deep_view());
        true
    }
}

impl Key for String {
    open spec fn before(a: Seq<char>, b: Seq<char>) -> bool {
        lex_before(char_ranks(a), char_ranks(b))
    }

    proof fn before_irreflexive(a: Seq<char>) {
        lemma_lex_irreflexive(char_ranks(a));
    }

    proof fn before_transitive(a: Seq<char>, b: Seq<char>, c: Seq<char>) {
        lemma_lex_transitive(char_ranks(a), char_ranks(b), char_ranks(c));
    }

    proof fn before_total(a: Seq<char>, b: Seq<char>) {
        lemma_chars_total(a, b);
    }

    fn compare(&self, other: &Self) -> (o: Order) {
        let a = crate::text::chars_of(self.as_str());
        let b = crate::text::chars_of(other.as_str());
        let mut i: usize = 0;
        while i < a.len() && i < b.len()
            invariant
                a@ == self@,
                b@ == other@,
                0 <= i <= a@.len(),
                i <= b@.len(),
                forall|j: int| 0 <= j < i ==> a@[j] == b@[j],
            decreases a@.len() - i,
        {
            if a[i] < b[i] {
                assert(parts_at(char_ranks(a@), char_ranks(b@), i as int));
                return Order::Less;
            }
            if b[i] < a[i] {
                assert(parts_at(char_ranks(b@), char_ranks(a@), i as int));
                return Order::Greater;
            }
            i = i + 1;
        }
        if i < b.len() {
            assert(parts_at(char_ranks(a@), char_ranks(b@), i as int));
            Order::Less
        } else if i < a.len() {
            assert(parts_at(char_ranks(b@), char_ranks(a@), i as int));
            Order::Greater
        } else {
            assert(a@ =~= b@);
            Order::Equal
        }
    }
}

impl<const N: usize> Key for [u8; N] {
    open spec fn before(a: Seq<u8>, b: Seq<u8>) -> bool {
        lex_before(byte_ranks(a), byte_ranks(b))
    }

    proof fn before_irreflexive(a: Seq<u8>) {
        lemma_lex_irreflexive(byte_ranks(a));
    }

    proof fn before_transitive(a: Seq<u8>, b: Seq<u8>, c: Seq<u8>) {
        lemma_lex_transitive(byte_ranks(a), byte_ranks(b), byte_ranks(c));
    }

    proof fn before_total(a: Seq<u8>, b: Seq<u8>) {
        lemma_bytes_total(a, b);
    }

    fn compare(&self, other: &Self) -> (o: Order) {
        let o = compare_bytes(self.as_slice(), other.as_slice());
        assert(self.deep_view() =~= self@);
        assert(other.deep_view() =~= other@);
        o
    }
}

impl Key for Vec<u8> {
    open spec fn before(a: Seq<u8>, b: Seq<u8>) -> bool {
        lex_before(byte_ranks(a), byte_ranks(b))
    }

    proof fn before_irreflexive(a: Seq<u8>) {
        lemma_lex_irreflexive(byte_ranks(a));
    }

    proof fn before_transitive(a: Seq<u8>, b: Seq<u8>, c: Seq<u8>) {
        lemma_lex_transitive(byte_ranks(a), byte_ranks(b), byte_ranks(c));
    }

    proof fn before_total(a: Seq<u8>, b: Seq<u8>) {
        lemma_bytes_total(a, b);
    }

    fn compare(&self, other: &Self) -> (o: Order) {
        let o = compare_bytes(self.as_slice(), other.as_slice());
        assert(self.deep_view() =~= self@);
        assert(other.deep_view() =~= other@);
        o
    }
}

impl<A: Key, B: Key> Key for (A, B) {
    open spec fn before(a: (A::V, B::V), b: (A::V, B::V)) -> bool {
        A::before(a.0, b.0) || (a.0 == b.0 && B::before(a.1, b.1))
    }

    proof fn before_irreflexive(a: (A::V, B::V)) {
        A::before_irreflexive(a.0);
        B::before_irreflexive(a.1);
    }

    proof fn before_transitive(a: (A::V, B::V), b: (A::V, B::V), c: (A::V, B::V)) {
        if A::before(a.0, b.0) && A::before(b.0, c.0) {
            A::before_transitive(a.0, b.0, c.0);
        }
        if B::before(a.1, b.1) && B::before(b.1, c.1) {
            B::before_transitive(a.1, b.1, c.1);
        }
    }

    proof fn before_total(a: (A::V, B::V), b: (A::V, B::V)) {
        A::before_total(a.0, b.0);
        B::before_total(a.1, b.1);
    }

    fn compare(&self, other: &Self) -> (o: Order) {
        match self.0.compare(&other.0) {
            Order::Equal => self.1.compare(&other.1),
            o => o,
        }
    }
}

/// Bytes and texts are in order by the first place where they differ, and what has ended
/// there comes first.
pub proof fn law_first_difference_decides(
    p: Seq<u8>,
    x: u8,
    s: Seq<u8>,
    y: u8,
    t: Seq<u8>,
    q: Seq<char>,
    c: char,
    u: Seq<char>,
    d: char,
    v: Seq<char>,
)
    requires
        x < y,
        (c as int) < d as int,
    ensures
        Vec::<u8>::before(p.push(x) + s, p.push(y) + t),
        Vec::<u8>::before(p, p.push(x) + s),
        String::before(q.push(c) + u, q.push(d) + v),
        String::before(q, q.push(c) + u),
{
    let (a, b) = (byte_ranks(p.push(x) + s), byte_ranks(p.push(y) + t));
    assert(parts_at(a, b, p.len() as int));
    assert(parts_at(byte_ranks(p), a, p.len() as int));
    let (e, f) = (char_ranks(q.push(c) + u), char_ranks(q.push(d) + v));
    assert(parts_at(e, f, q.len() as int));
    assert(parts_at(char_ranks(q), e, q.len() as int));
}

/// A pair comes before another by its first part, and by its second where the first are the
/// same.
pub proof fn law_first_part_decides<A: Key, B: Key>(a: (A::V, B::V), b: (A::V, B::V))
    ensures
        a.0 != b.0 ==> (<(A, B)>::before(a, b) <==> A::before(a.0, b.0)),
        a.0 == b.0 ==> (<(A, B)>::before(a, b) <==> B::before(a.1, b.1)),
{
    A::before_irreflexive(a.0);
}

} // verus!
