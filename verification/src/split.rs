//! Taking text apart: lines, words, fields, numbers.

use crate::text::{
    begins_with, chars_of, decimal, digit, flat, is_at, is_white, stands_at, starts_with, string_of, trimmed, trimmed_end, trimmed_front,
    white,
};
use vstd::prelude::*;

verus! {

/// The place of the first `c`, or the length if there is none.
pub open spec fn place(s: Seq<char>, c: char) -> int
    decreases s.len(),
{
    if s.len() == 0 || s[0] == c {
        0
    } else {
        1 + place(s.skip(1), c)
    }
}

/// The place is within the text; `c` stands there, and nowhere before.
pub proof fn lemma_place(s: Seq<char>, c: char)
    ensures
        0 <= place(s, c) <= s.len(),
        place(s, c) < s.len() ==> s[place(s, c)] == c,
        forall|i: int| 0 <= i < place(s, c) ==> s[i] != c,
    decreases s.len(),
{
    if s.len() > 0 && s[0] != c {
        let t = s.skip(1);
        lemma_place(t, c);
        assert forall|i: int| 0 <= i < place(s, c) implies s[i] != c by {
            if i > 0 {
                assert(t[i - 1] == s[i]);
            }
        }
    }
}

/// A place that has `c`, or the end, with none before it, is the first.
pub proof fn lemma_place_is(s: Seq<char>, c: char, n: int)
    requires
        0 <= n <= s.len(),
        n < s.len() ==> s[n] == c,
        forall|i: int| 0 <= i < n ==> s[i] != c,
    ensures
        place(s, c) == n,
{
    lemma_place(s, c);
    let p = place(s, c);
    if p < n {
        assert(s[p] != c);
    }
    if n < p {
        assert(s[n] != c);
    }
}

/// The length of the first word: the place of the first white character, or the end.
pub open spec fn word_len(s: Seq<char>) -> int
    decreases s.len(),
{
    if s.len() == 0 || white(s[0]) {
        0
    } else {
        1 + word_len(s.skip(1))
    }
}

proof fn lemma_word_len(s: Seq<char>)
    ensures
        0 <= word_len(s) <= s.len(),
        word_len(s) < s.len() ==> white(s[word_len(s)]),
        forall|i: int| 0 <= i < word_len(s) ==> !white(s[i]),
    decreases s.len(),
{
    if s.len() > 0 && !white(s[0]) {
        let t = s.skip(1);
        lemma_word_len(t);
        assert forall|i: int| 0 <= i < word_len(s) implies !white(s[i]) by {
            if i > 0 {
                assert(t[i - 1] == s[i]);
            }
        }
    }
}

proof fn lemma_word_len_is(s: Seq<char>, n: int)
    requires
        0 <= n <= s.len(),
        n < s.len() ==> white(s[n]),
        forall|i: int| 0 <= i < n ==> !white(s[i]),
    ensures
        word_len(s) == n,
{
    lemma_word_len(s);
    let p = word_len(s);
    if p < n {
        assert(!white(s[p]));
    }
    if n < p {
        assert(!white(s[n]));
    }
}

/// A line without the carriage return that ended it.
pub open spec fn without_return(s: Seq<char>) -> Seq<char> {
    if s.len() > 0 && s.last() == '\r' {
        s.drop_last()
    } else {
        s
    }
}

/// The lines of a text. A line ends with a line feed, or with a carriage return and
/// a line feed; the last may end with the text.
pub open spec fn lines_of(s: Seq<char>) -> Seq<Seq<char>>
    decreases s.len(),
{
    let n = place(s, '\n');
    if s.len() == 0 {
        Seq::empty()
    } else if 0 <= n < s.len() {
        seq![without_return(s.take(n))] + lines_of(s.skip(n + 1))
    } else {
        seq![s]
    }
}

/// The words of a text: what stands between white space.
pub open spec fn words_of(s: Seq<char>) -> Seq<Seq<char>>
    decreases s.len(),
{
    let n = word_len(s);
    if s.len() == 0 {
        Seq::empty()
    } else if n == 0 {
        words_of(s.skip(1))
    } else if 0 < n <= s.len() {
        seq![s.take(n)] + words_of(s.skip(n))
    } else {
        Seq::empty()
    }
}

/// The place of the first `c` in `cs[from..]`.
fn find_char(cs: &Vec<char>, from: usize, c: char) -> (r: usize)
    requires
        from <= cs@.len(),
    ensures
        from <= r <= cs@.len(),
        r == from + place(cs@.skip(from as int), c),
{
    let n: usize = cs.len();
    let ghost t = cs@.skip(from as int);
    let mut i: usize = from;
    while i < n && cs[i] != c
        invariant
            n == cs@.len(),
            from <= i <= n,
            t == cs@.skip(from as int),
            forall|j: int| 0 <= j < i - from ==> t[j] != c,
        decreases n - i,
    {
        assert(t[i - from] == cs@[i as int]);
        i = i + 1;
    }
    proof {
        if i < n {
            assert(t[i - from] == cs@[i as int]);
        }
        lemma_place_is(t, c, i - from);
    }
    i
}

/// The end of the word that begins at `from`.
fn find_white(cs: &Vec<char>, from: usize) -> (r: usize)
    requires
        from <= cs@.len(),
    ensures
        from <= r <= cs@.len(),
        r == from + word_len(cs@.skip(from as int)),
{
    let n: usize = cs.len();
    let ghost t = cs@.skip(from as int);
    let mut i: usize = from;
    while i < n && !is_white(cs[i])
        invariant
            n == cs@.len(),
            from <= i <= n,
            t == cs@.skip(from as int),
            forall|j: int| 0 <= j < i - from ==> !white(t[j]),
        decreases n - i,
    {
        assert(t[i - from] == cs@[i as int]);
        i = i + 1;
    }
    proof {
        if i < n {
            assert(t[i - from] == cs@[i as int]);
        }
        lemma_word_len_is(t, i - from);
    }
    i
}

/// The lines of a text.
pub fn lines(s: &str) -> (r: Vec<String>)
    ensures
        r.deep_view() == lines_of(s@),
{
    let cs = chars_of(s);
    let n: usize = cs.len();
    let mut r: Vec<String> = crate::seqs::none();
    let mut from: usize = 0;
    assert(s@.skip(0) =~= s@);
    assert(r.deep_view() + lines_of(s@.skip(0)) =~= lines_of(s@));
    while from < n
        invariant
            cs@ == s@,
            n == cs@.len(),
            0 <= from <= n,
            r.deep_view() + lines_of(s@.skip(from as int)) == lines_of(s@),
        decreases n - from,
    {
        let ghost r0 = r.deep_view();
        let ghost t = s@.skip(from as int);
        let at = find_char(&cs, from, '\n');
        if at < n {
            let end: usize = if at > from && cs[at - 1] == '\r' {
                at - 1
            } else {
                at
            };
            let line = string_of(&cs, from, end);
            proof {
                let k = at - from;
                assert(t.take(k) =~= s@.subrange(from as int, at as int));
                assert(line@ =~= without_return(t.take(k)));
                assert(t.skip(k + 1) =~= s@.skip(at as int + 1));
                assert(lines_of(t) == seq![line@] + lines_of(s@.skip(at as int + 1)));
            }
            crate::seqs::push(&mut r, line);
            assert(r.deep_view() + lines_of(s@.skip(at as int + 1)) =~= r0 + lines_of(t));
            from = at + 1;
        } else {
            let line = string_of(&cs, from, n);
            proof {
                assert(line@ =~= t);
                assert(lines_of(t) == seq![line@]);
                assert(s@.skip(n as int) =~= Seq::<char>::empty());
            }
            crate::seqs::push(&mut r, line);
            assert(r.deep_view() + lines_of(s@.skip(n as int)) =~= r0 + lines_of(t));
            from = n;
        }
    }
    assert(s@.skip(n as int) =~= Seq::<char>::empty());
    assert(r.deep_view() + lines_of(s@.skip(n as int)) =~= r.deep_view());
    r
}

/// The words of a text.
pub fn words(s: &str) -> (r: Vec<String>)
    ensures
        r.deep_view() == words_of(s@),
{
    let cs = chars_of(s);
    let n: usize = cs.len();
    let mut r: Vec<String> = crate::seqs::none();
    let mut from: usize = 0;
    assert(s@.skip(0) =~= s@);
    assert(r.deep_view() + words_of(s@.skip(0)) =~= words_of(s@));
    while from < n
        invariant
            cs@ == s@,
            n == cs@.len(),
            0 <= from <= n,
            r.deep_view() + words_of(s@.skip(from as int)) == words_of(s@),
        decreases n - from,
    {
        let ghost r0 = r.deep_view();
        let ghost t = s@.skip(from as int);
        let at = find_white(&cs, from);
        if at == from {
            assert(t.skip(1) =~= s@.skip(from as int + 1));
            from = from + 1;
        } else {
            let word = string_of(&cs, from, at);
            proof {
                let k = at - from;
                assert(word@ =~= t.take(k));
                assert(t.skip(k) =~= s@.skip(at as int));
                assert(words_of(t) == seq![word@] + words_of(s@.skip(at as int)));
            }
            crate::seqs::push(&mut r, word);
            assert(r.deep_view() + words_of(s@.skip(at as int)) =~= r0 + words_of(t));
            from = at;
        }
    }
    assert(s@.skip(n as int) =~= Seq::<char>::empty());
    assert(r.deep_view() + words_of(s@.skip(n as int)) =~= r.deep_view());
    r
}

/// What stands before the first `c`, and what behind it.
pub open spec fn split_at(s: Seq<char>, c: char) -> Option<(Seq<char>, Seq<char>)> {
    let n = place(s, c);
    if n < s.len() {
        Some((s.take(n), s.skip(n + 1)))
    } else {
        None
    }
}

/// What stands before the first `c`, and what behind it, if `c` occurs.
pub fn split_once(s: &str, c: char) -> (r: Option<(String, String)>)
    ensures
        r.deep_view() == split_at(s@, c),
{
    let cs = chars_of(s);
    let n: usize = cs.len();
    assert(cs@.skip(0) =~= s@);
    let at = find_char(&cs, 0, c);
    if at < n {
        let a = string_of(&cs, 0, at);
        let b = string_of(&cs, at + 1, n);
        assert(a@ =~= s@.take(at as int));
        assert(b@ =~= s@.skip(at as int + 1));
        Some((a, b))
    } else {
        None
    }
}

/// The fields of a text: what stands between the `c`s.
pub open spec fn fields_of(s: Seq<char>, c: char) -> Seq<Seq<char>>
    decreases s.len(),
{
    let n = place(s, c);
    if 0 <= n < s.len() {
        seq![s.take(n)] + fields_of(s.skip(n + 1), c)
    } else {
        seq![s]
    }
}

/// The fields of a text.
pub fn fields(s: &str, c: char) -> (r: Vec<String>)
    ensures
        r.deep_view() == fields_of(s@, c),
{
    let cs = chars_of(s);
    let n: usize = cs.len();
    let mut r: Vec<String> = crate::seqs::none();
    let mut from: usize = 0;
    assert(s@.skip(0) =~= s@);
    assert(r.deep_view() + fields_of(s@.skip(0), c) =~= fields_of(s@, c));
    loop
        invariant
            cs@ == s@,
            n == cs@.len(),
            0 <= from <= n,
            r.deep_view() + fields_of(s@.skip(from as int), c) == fields_of(s@, c),
        decreases n - from,
    {
        let ghost r0 = r.deep_view();
        let ghost t = s@.skip(from as int);
        let at = find_char(&cs, from, c);
        let field = string_of(&cs, from, at);
        if at < n {
            proof {
                let k = at - from;
                assert(field@ =~= t.take(k));
                assert(t.skip(k + 1) =~= s@.skip(at as int + 1));
            }
            crate::seqs::push(&mut r, field);
            assert(r.deep_view() + fields_of(s@.skip(at as int + 1), c) =~= r0 + fields_of(t, c));
            from = at + 1;
        } else {
            assert(field@ =~= t);
            crate::seqs::push(&mut r, field);
            assert(r.deep_view() =~= r0 + fields_of(t, c));
            return r;
        }
    }
}

/// What stands behind the first place where `p` occurs.
pub open spec fn behind(s: Seq<char>, p: Seq<char>) -> Option<Seq<char>>
    decreases s.len(),
{
    if begins_with(s, p) {
        Some(s.skip(p.len() as int))
    } else if s.len() == 0 {
        None
    } else {
        behind(s.skip(1), p)
    }
}

/// What stands behind the first place where `p` occurs.
pub fn find_behind(s: &str, p: &str) -> (r: Option<String>)
    ensures
        r.deep_view() == behind(s@, p@),
{
    let cs = chars_of(s);
    let ps = chars_of(p);
    let n: usize = cs.len();
    let m: usize = ps.len();
    let mut i: usize = 0;
    assert(s@.skip(0) =~= s@);
    loop
        invariant
            cs@ == s@,
            ps@ == p@,
            n == cs@.len(),
            m == ps@.len(),
            0 <= i <= n,
            behind(s@, p@) == behind(s@.skip(i as int), p@),
        decreases n - i,
    {
        let ghost t = s@.skip(i as int);
        if m <= n - i && is_at(&cs, &ps, i) {
            assert(t.subrange(0, m as int) =~= s@.subrange(i as int, i + m));
            let r = string_of(&cs, i + m, n);
            assert(r@ =~= t.skip(m as int));
            return Some(r);
        }
        proof {
            if begins_with(t, p@) {
                assert(t.subrange(0, m as int) =~= s@.subrange(i as int, i + m));
                assert(stands_at(s@, p@, i as int));
            }
            if i < n {
                assert(t.skip(1) =~= s@.skip(i as int + 1));
            }
        }
        if i == n {
            return None;
        }
        i = i + 1;
    }
}

/// The digits at the front of a text.
pub open spec fn leading_digits(s: Seq<char>) -> Seq<char>
    decreases s.len(),
{
    if s.len() > 0 && '0' <= s[0] <= '9' {
        seq![s[0]] + leading_digits(s.skip(1))
    } else {
        Seq::empty()
    }
}

/// The digits at the front of a text.
pub fn take_digits(s: &str) -> (r: String)
    ensures
        r@ == leading_digits(s@),
{
    let cs = chars_of(s);
    let n: usize = cs.len();
    let mut i: usize = 0;
    assert(s@.skip(0) =~= s@);
    assert(s@.take(0) + leading_digits(s@.skip(0)) =~= leading_digits(s@));
    while i < n && '0' <= cs[i] && cs[i] <= '9'
        invariant
            cs@ == s@,
            n == cs@.len(),
            0 <= i <= n,
            s@.take(i as int) + leading_digits(s@.skip(i as int)) == leading_digits(s@),
        decreases n - i,
    {
        proof {
            let t = s@.skip(i as int);
            assert(t[0] == s@[i as int]);
            assert(t.skip(1) =~= s@.skip(i as int + 1));
            assert(s@.take(i as int + 1) + leading_digits(s@.skip(i as int + 1)) =~= s@.take(i as int)
                + leading_digits(t));
        }
        i = i + 1;
    }
    let r = string_of(&cs, 0, i);
    proof {
        let t = s@.skip(i as int);
        if i < n {
            assert(t[0] == s@[i as int]);
        }
        assert(leading_digits(t) =~= Seq::<char>::empty());
        assert(r@ =~= s@.take(i as int));
        assert(s@.take(i as int) + leading_digits(t) =~= s@.take(i as int));
    }
    r
}

/// The bytes that a character takes in UTF-8.
pub open spec fn width(c: char) -> nat {
    if (c as u32) < 0x80 {
        1
    } else if (c as u32) < 0x800 {
        2
    } else if (c as u32) < 0x10000 {
        3
    } else {
        4
    }
}

/// The first `n` bytes of a text in UTF-8, or all of it if it is shorter. There is no
/// such beginning where a character lies across the border.
pub open spec fn first_bytes(s: Seq<char>, n: nat) -> Option<Seq<char>>
    decreases s.len(),
{
    if s.len() == 0 || n == 0 {
        Some(Seq::empty())
    } else if width(s[0]) > n {
        None
    } else {
        match first_bytes(s.skip(1), (n - width(s[0])) as nat) {
            Some(t) => Some(seq![s[0]] + t),
            None => None,
        }
    }
}

/// The first `n` bytes of a text.
pub fn cut(s: &str, n: usize) -> (r: String)
    requires
        first_bytes(s@, n as nat) is Some,
    ensures
        first_bytes(s@, n as nat) == Some(r@),
{
    let cs = chars_of(s);
    let len: usize = cs.len();
    let mut left: usize = n;
    let mut i: usize = 0;
    let ghost full = first_bytes(s@, n as nat)->Some_0;
    assert(s@.skip(0) =~= s@);
    assert(s@.take(0) + first_bytes(s@.skip(0), n as nat)->Some_0 =~= full);
    while i < len && left > 0
        invariant
            cs@ == s@,
            len == cs@.len(),
            0 <= i <= len,
            first_bytes(s@.skip(i as int), left as nat) is Some,
            s@.take(i as int) + first_bytes(s@.skip(i as int), left as nat)->Some_0 == full,
        decreases len - i,
    {
        let ghost t = s@.skip(i as int);
        assert(t[0] == s@[i as int]);
        assert(t.skip(1) =~= s@.skip(i as int + 1));
        let c: u32 = cs[i] as u32;
        let w: usize = if c < 0x80 {
            1
        } else if c < 0x800 {
            2
        } else if c < 0x10000 {
            3
        } else {
            4
        };
        assert(w == width(t[0]));
        proof {
            let rest = first_bytes(t.skip(1), (left - w) as nat);
            assert(rest is Some);
            assert(s@.take(i as int + 1) + rest->Some_0 =~= s@.take(i as int) + first_bytes(
                t,
                left as nat,
            )->Some_0);
        }
        left = left - w;
        i = i + 1;
    }
    let r = string_of(&cs, 0, i);
    assert(r@ =~= s@.take(i as int));
    assert(first_bytes(s@.skip(i as int), left as nat)->Some_0 =~= Seq::<char>::empty());
    assert(r@ =~= full);
    r
}

/// What is left of a text behind a beginning that it may have.
pub open spec fn after(s: Seq<char>, p: Seq<char>) -> Option<Seq<char>> {
    if begins_with(s, p) {
        Some(s.skip(p.len() as int))
    } else {
        None
    }
}

/// What is left of a text behind a beginning that it may have.
pub fn strip_prefix(s: &str, p: &str) -> (r: Option<String>)
    ensures
        r.deep_view() == after(s@, p@),
{
    if starts_with(s, p) {
        let cs = chars_of(s);
        let n: usize = chars_of(p).len();
        let m: usize = cs.len();
        let t = string_of(&cs, n, m);
        assert(t@ =~= s@.skip(n as int));
        Some(t)
    } else {
        None
    }
}

// ---------------------------------------------------------------------------
// Numbers
// ---------------------------------------------------------------------------

/// All characters are decimal digits.
pub open spec fn all_digits(s: Seq<char>) -> bool {
    forall|i: int| 0 <= i < s.len() ==> '0' <= #[trigger] s[i] <= '9'
}

/// The number that decimal digits stand for.
pub open spec fn digits_value(s: Seq<char>) -> nat
    decreases s.len(),
{
    if s.len() == 0 {
        0
    } else {
        digits_value(s.drop_last()) * 10 + (s.last() as nat - '0' as nat) as nat
    }
}

/// The digits of a number, without a plus sign before them.
pub open spec fn unsigned(s: Seq<char>) -> Seq<char> {
    if s.len() > 0 && s[0] == '+' {
        s.skip(1)
    } else {
        s
    }
}

/// The number that a text stands for, if it does and the number is small enough.
pub open spec fn number_in(s: Seq<char>) -> Option<u64> {
    let d = unsigned(s);
    if d.len() > 0 && all_digits(d) && digits_value(d) <= u64::MAX {
        Some(digits_value(d) as u64)
    } else {
        None
    }
}

proof fn lemma_digits_grow(s: Seq<char>, i: int)
    requires
        0 <= i <= s.len(),
    ensures
        digits_value(s.take(i)) <= digits_value(s),
    decreases s.len() - i,
{
    if i < s.len() {
        let next = s.take(i + 1);
        assert(next.drop_last() =~= s.take(i));
        assert(digits_value(next) >= digits_value(s.take(i)));
        lemma_digits_grow(s, i + 1);
    } else {
        assert(s.take(i) =~= s);
    }
}

/// The number that a text stands for.
pub fn parse_number(s: &str) -> (r: Option<u64>)
    ensures
        r == number_in(s@),
{
    let cs = chars_of(s);
    let n: usize = cs.len();
    let from: usize = if n > 0 && cs[0] == '+' {
        1
    } else {
        0
    };
    let ghost d = unsigned(s@);
    assert(d =~= s@.skip(from as int));
    if from == n {
        return None;
    }
    let mut v: u64 = 0;
    let mut i: usize = from;
    assert(d.take(0) =~= Seq::<char>::empty());
    while i < n
        invariant
            cs@ == s@,
            n == cs@.len(),
            from < n,
            from <= i <= n,
            d == unsigned(s@),
            d == s@.skip(from as int),
            forall|j: int| 0 <= j < i - from ==> '0' <= #[trigger] d[j] <= '9',
            v == digits_value(d.take(i - from)),
        decreases n - i,
    {
        let c = cs[i];
        assert(d[i - from] == c);
        if c < '0' || c > '9' {
            return None;
        }
        let x: u64 = (c as u32 - '0' as u32) as u64;
        proof {
            let next = d.take(i - from + 1);
            assert(next.drop_last() =~= d.take(i - from));
            assert(next.last() == c);
            lemma_digits_grow(d, i - from + 1);
        }
        if v > u64::MAX / 10 {
            return None;
        }
        let w: u64 = v * 10;
        if x > u64::MAX - w {
            return None;
        }
        v = w + x;
        i = i + 1;
    }
    assert(d.take(n - from) =~= d);
    Some(v)
}

proof fn lemma_decimal(n: nat)
    ensures
        decimal(n).len() > 0,
        all_digits(decimal(n)),
        digits_value(decimal(n)) == n,
    decreases n,
{
    if n < 10 {
        let s = decimal(n);
        assert(s.drop_last() =~= Seq::<char>::empty());
        assert(s.last() == digit(n));
        assert(digits_value(s.drop_last()) == 0);
        assert(digit(n) as nat - '0' as nat == n);
    } else {
        lemma_decimal(n / 10);
        let s = decimal(n);
        assert(s.drop_last() =~= decimal(n / 10));
        assert(s.last() == digit(n % 10));
        assert(digit(n % 10) as nat - '0' as nat == n % 10);
        assert forall|i: int| 0 <= i < s.len() implies '0' <= #[trigger] s[i] <= '9' by {
            if i < s.len() - 1 {
                assert(s[i] == decimal(n / 10)[i]);
            }
        }
    }
}

/// A number comes back from its decimal writing.
pub proof fn law_decimal_round_trip(n: u64)
    ensures
        number_in(decimal(n as nat)) == Some(n),
{
    lemma_decimal(n as nat);
    let s = decimal(n as nat);
    assert('0' <= s[0] <= '9');
    assert(unsigned(s) == s);
}

// ---------------------------------------------------------------------------
// What was put together comes apart
// ---------------------------------------------------------------------------

/// A text without a line feed.
pub open spec fn one_line(s: Seq<char>) -> bool {
    forall|i: int| 0 <= i < s.len() ==> #[trigger] s[i] != '\n'
}

/// A text that is one word.
pub open spec fn one_word(s: Seq<char>) -> bool {
    s.len() > 0 && forall|i: int| 0 <= i < s.len() ==> !white(#[trigger] s[i])
}

/// The first line.
pub proof fn lemma_first_line(line: Seq<char>, rest: Seq<char>)
    requires
        one_line(line),
    ensures
        lines_of(line + seq!['\n'] + rest) == seq![without_return(line)] + lines_of(rest),
{
    let s = line + seq!['\n'] + rest;
    let n = line.len() as int;
    assert forall|i: int| 0 <= i < n implies s[i] != '\n' by {
        assert(s[i] == line[i]);
    }
    assert(s[n] == '\n');
    lemma_place_is(s, '\n', n);
    assert(s.take(n) =~= line);
    assert(s.skip(n + 1) =~= rest);
}

/// The last line, where the one before it was ended.
pub proof fn lemma_last_line(front: Seq<char>, line: Seq<char>)
    requires
        one_line(line),
        front.len() == 0 || front.last() == '\n',
    ensures
        lines_of(front + line + seq!['\n']) == lines_of(front).push(without_return(line)),
        line.len() > 0 ==> lines_of(front + line) == lines_of(front).push(line),
    decreases front.len(),
{
    if front.len() == 0 {
        lemma_first_line(line, Seq::empty());
        assert(front + line + seq!['\n'] =~= line + seq!['\n'] + Seq::<char>::empty());
        assert(lines_of(front + line + seq!['\n']) =~= lines_of(front).push(without_return(line)));
        if line.len() > 0 {
            lemma_place_is(line, '\n', line.len() as int);
            assert(front + line =~= line);
            assert(lines_of(front + line) =~= lines_of(front).push(line));
        }
    } else {
        lemma_place(front, '\n');
        let n = place(front, '\n');
        let last = front.len() - 1;
        if n > last {
            assert(front[last] != '\n');
        }
        let head = front.take(n);
        let rest = front.skip(n + 1);
        assert(front =~= head + seq!['\n'] + rest);
        assert(one_line(head)) by {
            assert forall|i: int| 0 <= i < head.len() implies #[trigger] head[i] != '\n' by {
                assert(head[i] == front[i]);
            }
        }
        if rest.len() > 0 {
            assert(rest.last() == front.last());
        }
        lemma_last_line(rest, line);
        lemma_first_line(head, rest);
        lemma_first_line(head, rest + line + seq!['\n']);
        assert(front + line + seq!['\n'] =~= head + seq!['\n'] + (rest + line + seq!['\n']));
        assert(lines_of(front + line + seq!['\n']) =~= lines_of(front).push(without_return(line)));
        if line.len() > 0 {
            lemma_first_line(head, rest + line);
            assert(front + line =~= head + seq!['\n'] + (rest + line));
            assert(lines_of(front + line) =~= lines_of(front).push(line));
        }
    }
}

/// Lines that were each ended come apart again.
pub proof fn lemma_lines_back(rows: Seq<Seq<char>>, ended: Seq<Seq<char>>)
    requires
        ended.len() == rows.len(),
        forall|i: int| 0 <= i < rows.len() ==> #[trigger] ended[i] == rows[i] + seq!['\n'],
        forall|i: int| 0 <= i < rows.len() ==> one_line(#[trigger] rows[i]),
        forall|i: int| 0 <= i < rows.len() ==> without_return(#[trigger] rows[i]) == rows[i],
    ensures
        lines_of(flat(ended)) == rows,
        flat(ended).len() == 0 || flat(ended).last() == '\n',
    decreases rows.len(),
{
    if rows.len() == 0 {
        assert(lines_of(flat(ended)) =~= rows);
    } else {
        let r = rows.drop_last();
        let e = ended.drop_last();
        assert forall|i: int| 0 <= i < r.len() implies #[trigger] e[i] == r[i] + seq!['\n'] by {
            assert(ended[i] == rows[i] + seq!['\n']);
        }
        assert forall|i: int| 0 <= i < r.len() implies one_line(#[trigger] r[i]) by {
            assert(one_line(rows[i]));
        }
        assert forall|i: int| 0 <= i < r.len() implies without_return(#[trigger] r[i]) == r[i] by {
            assert(without_return(rows[i]) == rows[i]);
        }
        lemma_lines_back(r, e);
        let n = rows.len() - 1;
        assert(ended.last() == ended[n]);
        lemma_last_line(flat(e), rows[n]);
        assert(flat(ended) =~= flat(e) + rows[n] + seq!['\n']);
        assert(lines_of(flat(ended)) =~= rows);
    }
}

/// One word is its own words.
pub proof fn lemma_one_word(w: Seq<char>)
    requires
        one_word(w),
    ensures
        words_of(w) == seq![w],
{
    lemma_word_len_is(w, w.len() as int);
    assert(w.take(w.len() as int) =~= w);
    assert(w.skip(w.len() as int) =~= Seq::<char>::empty());
    assert(words_of(w.skip(w.len() as int)) =~= Seq::<Seq<char>>::empty());
    assert(words_of(w) == seq![w] + words_of(w.skip(w.len() as int)));
    assert(words_of(w) =~= seq![w]);
}

/// A word, a blank, and more words.
pub proof fn lemma_first_word(w: Seq<char>, rest: Seq<char>)
    requires
        one_word(w),
    ensures
        words_of(w + seq![' '] + rest) == seq![w] + words_of(rest),
{
    let s = w + seq![' '] + rest;
    let n = w.len() as int;
    assert forall|i: int| 0 <= i < n implies !white(s[i]) by {
        assert(s[i] == w[i]);
    }
    assert(s[n] == ' ');
    lemma_word_len_is(s, n);
    assert(s.take(n) =~= w);
    let t = s.skip(n);
    assert(t =~= seq![' '] + rest);
    assert(t[0] == ' ');
    assert(t.skip(1) =~= rest);
    assert(words_of(t) == words_of(rest));
}

/// Text with no white space around it stays as it is.
pub proof fn lemma_trimmed(s: Seq<char>)
    requires
        s.len() == 0 || (!white(s[0]) && !white(s.last())),
    ensures
        trimmed(s) == s,
        trimmed_end(s) == s,
        trimmed_front(s) == s,
{
}

/// A number is written in one word.
pub proof fn lemma_decimal_is_word(n: nat)
    ensures
        one_word(decimal(n)),
{
    lemma_decimal(n);
    let s = decimal(n);
    assert forall|i: int| 0 <= i < s.len() implies !white(#[trigger] s[i]) by {
        assert('0' <= s[i] <= '9');
    }
}

// ---------------------------------------------------------------------------
// Trimming
// ---------------------------------------------------------------------------

pub proof fn lemma_trim_len(s: Seq<char>)
    ensures
        trimmed_front(s).len() <= s.len(),
        trimmed_end(s).len() <= s.len(),
    decreases s.len(),
{
    if s.len() > 0 {
        lemma_trim_len(s.skip(1));
        lemma_trim_len(s.drop_last());
    }
}

/// Text that trimming leaves alone has no white space around it.
pub proof fn lemma_untouched(s: Seq<char>)
    requires
        trimmed(s) == s,
        s.len() > 0,
    ensures
        !white(s[0]),
        !white(s.last()),
{
    lemma_trim_len(s);
    lemma_trim_len(trimmed_front(s));
    if white(s[0]) {
        lemma_trim_len(s.skip(1));
    } else if white(s.last()) {
        lemma_trim_len(s.drop_last());
    }
}

/// What trimming leaves at the end is a beginning that ends in no white space.
pub proof fn lemma_trim_end_is(s: Seq<char>)
    ensures
        trimmed_end(s).len() <= s.len(),
        trimmed_end(s) == s.take(trimmed_end(s).len() as int),
        trimmed_end(s).len() > 0 ==> !white(trimmed_end(s).last()),
        trimmed_end(trimmed_end(s)) == trimmed_end(s),
        forall|i: int| trimmed_end(s).len() <= i < s.len() ==> white(#[trigger] s[i]),
    decreases s.len(),
{
    if s.len() > 0 && white(s.last()) {
        lemma_trim_end_is(s.drop_last());
        let t = trimmed_end(s);
        assert(s.drop_last().take(t.len() as int) =~= s.take(t.len() as int));
        assert forall|i: int| t.len() <= i < s.len() implies white(#[trigger] s[i]) by {
            if i < s.len() - 1 {
                assert(s.drop_last()[i] == s[i]);
            }
        }
    } else {
        assert(s.take(s.len() as int) =~= s);
    }
}

/// Something is left of a text that has a character other than white space.
pub proof fn lemma_not_all_white(s: Seq<char>, i: int)
    requires
        0 <= i < s.len(),
        !white(s[i]),
    ensures
        trimmed_end(s).len() > i,
        trimmed(s).len() > 0,
    decreases s.len(),
{
    lemma_trim_end_is(s);
    lemma_front_is(s);
    let k = s.len() - trimmed_front(s).len();
    if i < k {
        assert(white(s[i]));
    }
    lemma_trim_end_is(trimmed_front(s));
    assert(trimmed_front(s)[i - k] == s[i]);
}

pub proof fn lemma_front_is(s: Seq<char>)
    ensures
        trimmed_front(s).len() <= s.len(),
        trimmed_front(s) == s.skip(s.len() - trimmed_front(s).len()),
        forall|i: int| 0 <= i < s.len() - trimmed_front(s).len() ==> white(#[trigger] s[i]),
    decreases s.len(),
{
    if s.len() > 0 && white(s[0]) {
        lemma_front_is(s.skip(1));
        let t = trimmed_front(s);
        assert(s.skip(1).skip(s.len() - 1 - t.len()) =~= s.skip(s.len() - t.len()));
        assert forall|i: int| 0 <= i < s.len() - t.len() implies white(#[trigger] s[i]) by {
            if i > 0 {
                assert(s.skip(1)[i - 1] == s[i]);
            }
        }
    } else {
        assert(s.skip(0) =~= s);
    }
}

/// White space more at either end makes no difference to trimming.
pub proof fn lemma_trim_more(s: Seq<char>, t: Seq<char>, a: int, b: int)
    requires
        0 <= a <= b <= s.len(),
        t == s.subrange(a, b),
        forall|i: int| 0 <= i < a ==> white(#[trigger] s[i]),
        forall|i: int| b <= i < s.len() ==> white(#[trigger] s[i]),
    ensures
        trimmed(s) == trimmed(t),
    decreases a, s.len() - b,
{
    if a > 0 {
        assert(white(s[0]));
        let u = s.skip(1);
        assert(t =~= u.subrange(a - 1, b - 1));
        assert forall|i: int| 0 <= i < a - 1 implies white(#[trigger] u[i]) by {
            assert(u[i] == s[i + 1]);
        }
        assert forall|i: int| b - 1 <= i < u.len() implies white(#[trigger] u[i]) by {
            assert(u[i] == s[i + 1]);
        }
        lemma_trim_more(u, t, a - 1, b - 1);
    } else if b < s.len() {
        let u = s.drop_last();
        assert(t =~= u.subrange(a, b));
        assert forall|i: int| b <= i < u.len() implies white(#[trigger] u[i]) by {
            assert(u[i] == s[i]);
        }
        lemma_trim_more(u, t, a, b);
        lemma_trim_back(s);
    } else {
        assert(t =~= s);
    }
}

proof fn lemma_trim_back(s: Seq<char>)
    requires
        s.len() > 0,
        white(s.last()),
    ensures
        trimmed(s) == trimmed(s.drop_last()),
    decreases s.len(),
{
    if s.len() == 1 {
        assert(s.skip(1) =~= Seq::<char>::empty());
        assert(s.drop_last() =~= Seq::<char>::empty());
        assert(trimmed_front(s.skip(1)) =~= Seq::<char>::empty());
    } else if white(s[0]) {
        assert(s.skip(1).drop_last() =~= s.drop_last().skip(1));
        assert(s.drop_last()[0] == s[0]);
        lemma_trim_back(s.skip(1));
    } else {
        assert(s.drop_last()[0] == s[0]);
    }
}

/// How a text falls into lines: what stands before the first line feed is one, without a
/// carriage return before it; what follows are lines of their own; and an empty text has none.
pub proof fn law_line_feeds_end_lines(x: Seq<char>, y: Seq<char>)
    requires
        !x.contains('\n'),
    ensures
        lines_of(Seq::empty()) == Seq::<Seq<char>>::empty(),
        x.len() > 0 ==> lines_of(x) == seq![x],
        x.len() > 0 && x.last() == '\r' ==> lines_of(x.push('\n') + y) == seq![x.drop_last()] + lines_of(y),
        x.len() == 0 || x.last() != '\r' ==> lines_of(x.push('\n') + y) == seq![x] + lines_of(y),
{
    let n = x.len() as int;
    let b = x.push('\n') + y;
    assert forall|i: int| 0 <= i < n implies x[i] != '\n' by {
        assert(x.contains(x[i]));
    }
    lemma_place_is(x, '\n', n);
    assert forall|i: int| 0 <= i < n implies b[i] != '\n' by {
        assert(b[i] == x[i]);
    }
    lemma_place_is(b, '\n', n);
    assert(b.take(n) =~= x);
    assert(b.skip(n + 1) =~= y);
}

/// How a text falls into words: white space parts them and belongs to none.
pub proof fn law_white_space_parts_words(w: Seq<char>, c: char, y: Seq<char>)
    requires
        forall|i: int| 0 <= i < w.len() ==> !white(#[trigger] w[i]),
        white(c),
    ensures
        words_of(Seq::empty()) == Seq::<Seq<char>>::empty(),
        w.len() > 0 ==> words_of(w) == seq![w],
        w.len() > 0 ==> words_of(w.push(c) + y) == seq![w] + words_of(y),
        w.len() == 0 ==> words_of(w.push(c) + y) == words_of(y),
{
    let n = w.len() as int;
    let b = w.push(c) + y;
    lemma_word_len_is(w, n);
    assert forall|i: int| 0 <= i < n implies !white(b[i]) by {
        assert(b[i] == w[i]);
    }
    lemma_word_len_is(b, n);
    assert(w.take(n) =~= w);
    assert(w.skip(n) =~= Seq::<char>::empty());
    assert(words_of(Seq::<char>::empty()) =~= Seq::<Seq<char>>::empty());
    if n > 0 {
        assert(words_of(w) =~= seq![w]);
        assert(b.take(n) =~= w);
        let t = b.skip(n);
        assert(t[0] == c);
        lemma_word_len_is(t, 0);
        assert(t.skip(1) =~= y);
        assert(words_of(t) == words_of(y));
    } else {
        assert(b.skip(1) =~= y);
    }
}

/// A text is parted at the first place of a character, and not at all where it does not occur.
pub proof fn law_text_is_parted_once(k: Seq<char>, c: char, v: Seq<char>)
    requires
        !k.contains(c),
    ensures
        split_at(k.push(c) + v, c) == Some((k, v)),
        split_at(k, c) is None,
{
    let n = k.len() as int;
    let b = k.push(c) + v;
    assert forall|i: int| 0 <= i < n implies k[i] != c by {
        assert(k.contains(k[i]));
    }
    lemma_place_is(k, c, n);
    assert forall|i: int| 0 <= i < n implies b[i] != c by {
        assert(b[i] == k[i]);
    }
    lemma_place_is(b, c, n);
    assert(b.take(n) =~= k);
    assert(b.skip(n + 1) =~= v);
}

} // verus!
