//! Bytes as lowercase hexadecimal text, two characters for each byte.

use crate::format::array_of;
use crate::text::chars_of;
use vstd::prelude::*;

verus! {

/// The lowercase hexadecimal digit of `d`.
pub open spec fn hex_digit(d: u8) -> char {
    if d < 10 {
        ('0' as int + d) as char
    } else {
        ('a' as int + d - 10) as char
    }
}

/// The value of a hexadecimal digit, in either case.
pub open spec fn digit_value(c: char) -> Option<u8> {
    if '0' <= c <= '9' {
        Some((c as int - '0' as int) as u8)
    } else if 'a' <= c <= 'f' {
        Some((c as int - 'a' as int + 10) as u8)
    } else if 'A' <= c <= 'F' {
        Some((c as int - 'A' as int + 10) as u8)
    } else {
        None
    }
}

/// The text of some bytes.
pub open spec fn hex_text(b: Seq<u8>) -> Seq<char> {
    Seq::new(
        b.len() * 2,
        |i: int|
            if i % 2 == 0 {
                hex_digit(b[i / 2] / 16)
            } else {
                hex_digit(b[i / 2] % 16)
            },
    )
}

/// All characters are hexadecimal digits.
pub open spec fn is_hex(t: Seq<char>) -> bool {
    forall|i: int| 0 <= i < t.len() ==> digit_value(#[trigger] t[i]) is Some
}

/// The bytes that a text of an even number of hexadecimal digits stands for.
pub open spec fn hex_bytes(t: Seq<char>) -> Option<Seq<u8>> {
    if t.len() % 2 == 0 && is_hex(t) {
        Some(
            Seq::new(
                t.len() / 2,
                |i: int|
                    (digit_value(t[2 * i])->Some_0 * 16 + digit_value(t[2 * i + 1])->Some_0) as u8,
            ),
        )
    } else {
        None
    }
}

fn digit_of(d: u8) -> (c: char)
    requires
        d < 16,
    ensures
        c == hex_digit(d),
{
    let b: u8 = if d < 10 {
        48u8 + d
    } else {
        87u8 + d
    };
    b as char
}

fn value_of(c: char) -> (r: Option<u8>)
    ensures
        r == digit_value(c),
        r matches Some(d) ==> d < 16,
{
    let n: u32 = c as u32;
    if 48 <= n && n <= 57 {
        Some((n - 48) as u8)
    } else if 97 <= n && n <= 102 {
        Some((n - 87) as u8)
    } else if 65 <= n && n <= 70 {
        Some((n - 55) as u8)
    } else {
        None
    }
}

/// The lowercase hexadecimal text of `bytes`.
pub fn encode(bytes: &[u8]) -> (r: String)
    ensures
        r@ == hex_text(bytes@),
{
    let mut s = String::new();
    let mut i: usize = 0;
    while i < bytes.len()
        invariant
            0 <= i <= bytes@.len(),
            s@.len() == 2 * i,
            forall|j: int| 0 <= j < 2 * i ==> s@[j] == hex_text(bytes@)[j],
        decreases bytes@.len() - i,
    {
        let b: u8 = bytes[i];
        s.push(digit_of(b / 16));
        s.push(digit_of(b % 16));
        proof {
            let k = 2 * i as int;
            assert(k / 2 == i && k % 2 == 0);
            assert((k + 1) / 2 == i && (k + 1) % 2 == 1);
        }
        i = i + 1;
    }
    assert(s@ =~= hex_text(bytes@));
    s
}

/// The bytes of a hexadecimal text, in either case. `None` on an odd length or a
/// character that is no digit.
pub fn decode(s: &str) -> (r: Option<Vec<u8>>)
    ensures
        match r {
            Some(b) => hex_bytes(s@) == Some(b@),
            None => hex_bytes(s@) is None,
        },
{
    let cs = chars_of(s);
    if cs.len() % 2 != 0 {
        return None;
    }
    let mut out: Vec<u8> = Vec::new();
    let mut i: usize = 0;
    while i < cs.len()
        invariant
            cs@ == s@,
            cs@.len() % 2 == 0,
            0 <= i <= cs@.len(),
            i % 2 == 0,
            out@.len() * 2 == i,
            forall|j: int| 0 <= j < i ==> digit_value(#[trigger] cs@[j]) is Some,
            forall|j: int|
                0 <= j < out@.len() ==> #[trigger] out@[j] == (digit_value(cs@[2 * j])->Some_0 * 16
                    + digit_value(cs@[2 * j + 1])->Some_0) as u8,
        decreases cs@.len() - i,
    {
        let hi: u8 = match value_of(cs[i]) {
            Some(d) => d,
            None => {
                assert(!is_hex(s@));
                return None;
            },
        };
        let lo: u8 = match value_of(cs[i + 1]) {
            Some(d) => d,
            None => {
                assert(!is_hex(s@));
                return None;
            },
        };
        out.push(hi * 16 + lo);
        i = i + 2;
    }
    proof {
        assert(is_hex(s@));
        assert(out@ =~= hex_bytes(s@)->Some_0);
    }
    Some(out)
}

/// Just `N` bytes of hexadecimal text. `None` on another length or a character
/// that is no digit.
pub fn decode_array<const N: usize>(s: &str) -> (r: Option<[u8; N]>)
    ensures
        match r {
            Some(a) => s@.len() == 2 * N && hex_bytes(s@) == Some(a@),
            None => s@.len() != 2 * N || hex_bytes(s@) is None,
        },
{
    match decode(s) {
        Some(v) => {
            if v.len() == N {
                Some(array_of::<N>(v.as_slice()))
            } else {
                None
            }
        },
        None => None,
    }
}

/// The text of the first `n` bytes, or of all if there are fewer.
pub fn short(bytes: &[u8], n: usize) -> (r: String)
    ensures
        r@ == hex_text(
            if n <= bytes@.len() {
                bytes@.take(n as int)
            } else {
                bytes@
            },
        ),
{
    let k: usize = if n < bytes.len() {
        n
    } else {
        bytes.len()
    };
    let head = vstd::slice::slice_subrange(bytes, 0, k);
    assert(head@ =~= if n <= bytes@.len() {
        bytes@.take(n as int)
    } else {
        bytes@
    });
    encode(head)
}

/// Reading a text back gives the bytes that it was made of.
pub proof fn law_hex_round_trip(b: Seq<u8>)
    ensures
        hex_bytes(hex_text(b)) == Some(b),
{
    let t = hex_text(b);
    assert forall|i: int| 0 <= i < t.len() implies digit_value(#[trigger] t[i]) is Some by {
        let d = if i % 2 == 0 {
            b[i / 2] / 16
        } else {
            b[i / 2] % 16
        };
        assert(d < 16);
        assert(digit_value(hex_digit(d)) == Some(d));
    }
    let back = hex_bytes(t)->Some_0;
    assert forall|i: int| 0 <= i < b.len() implies #[trigger] back[i] == b[i] by {
        assert((2 * i) / 2 == i && (2 * i) % 2 == 0);
        assert((2 * i + 1) / 2 == i && (2 * i + 1) % 2 == 1);
        assert(t[2 * i] == hex_digit(b[i] / 16));
        assert(t[2 * i + 1] == hex_digit(b[i] % 16));
        assert(digit_value(hex_digit(b[i] / 16)) == Some((b[i] / 16) as u8));
        assert(digit_value(hex_digit(b[i] % 16)) == Some((b[i] % 16) as u8));
    }
    assert(back =~= b);
}

} // verus!
