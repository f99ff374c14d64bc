use loot::bridge::{append_trailers, commit_timestamp, parse_oid_hex, strip_trailers};
use loot::format::{put_bytes, put_u32, put_u64, put_version, read_version, text_from, Cursor};
use loot::split::{cut, fields, find_behind, lines, parse_number, split_once, strip_prefix, take_digits, words};
use loot::text::{contains_text, decimal_of, ends_with, join, starts_with, trim, trim_end};
use loot::types::{Oid, RepoError};

fn v(ws: &[&str]) -> Vec<String> {
    ws.iter().map(|w| w.to_string()).collect()
}

#[test]
fn lines_end_at_newlines() {
    assert_eq!(lines("a\nb\r\nc"), v(&["a", "b", "c"]));
    assert_eq!(lines("a\n"), v(&["a"]));
    assert_eq!(lines("a\n\n"), v(&["a", ""]));
    assert_eq!(lines(""), v(&[]));
}

#[test]
fn words_and_fields_are_split() {
    assert_eq!(words("  a\tb  c\n"), v(&["a", "b", "c"]));
    assert_eq!(fields("a\t\tb", '\t'), v(&["a", "", "b"]));
    assert_eq!(fields("", '\t'), v(&[""]));
    assert_eq!(split_once("k=v=w", '='), Some(("k".to_string(), "v=w".to_string())));
    assert_eq!(split_once("kv", '='), None);
    assert_eq!(find_behind("x/pull/7", "/pull/"), Some("7".to_string()));
    assert_eq!(take_digits("12ab3"), "12");
    assert_eq!(strip_prefix("review: x", "review:"), Some(" x".to_string()));
    assert_eq!(strip_prefix("x", "review:"), None);
}

#[test]
fn numbers_read_back() {
    for n in [0u64, 7, 10, 218, u64::MAX] {
        assert_eq!(parse_number(&decimal_of(n)), Some(n));
    }
    assert_eq!(parse_number("+7"), Some(7));
    assert_eq!(parse_number(""), None);
    assert_eq!(parse_number("+"), None);
    assert_eq!(parse_number("7x"), None);
    assert_eq!(parse_number("18446744073709551616"), None);
}

#[test]
fn text_is_cut_and_joined() {
    assert_eq!(cut("0123456789", 8), "01234567");
    assert_eq!(cut("—x", 3), "—");
    assert_eq!(cut("ab", 8), "ab");
    assert_eq!(join(&v(&["a", "b"]), ", "), "a, b");
    assert_eq!(join(&v(&[]), ", "), "");
    assert_eq!(loot::text::concat(&v(&["a", "b"])), "ab");
    assert_eq!(trim(" \t a \u{2003}"), "a");
    assert_eq!(trim_end(" a\u{85}"), " a");
    assert!(starts_with("abc", "ab") && !starts_with("abc", "bc"));
    assert!(ends_with("abc", "bc") && !ends_with("abc", "ab"));
    assert!(contains_text("abc", "b") && !contains_text("abc", "d"));
}

#[test]
fn numbers_are_little_endian() {
    let mut out = Vec::new();
    put_u32(&mut out, 0x0102);
    put_u64(&mut out, 1_800_000_000);
    put_bytes(&mut out, b"ab");
    assert_eq!(out, vec![2, 1, 0, 0, 0, 210, 73, 107, 0, 0, 0, 0, 2, 0, 0, 0, 97, 98]);
    let mut c = Cursor::new(&out);
    assert_eq!(c.u32().unwrap(), 0x0102);
    assert_eq!(c.u64().unwrap(), 1_800_000_000);
    assert_eq!(c.bytes().unwrap(), b"ab");
    assert!(matches!(c.u32(), Err(RepoError::Backend(_))), "nothing is left");
}

#[test]
fn a_later_format_is_refused() {
    let mut out = Vec::new();
    put_version(&mut out, 4);
    assert_eq!(out, vec![4, 0]);
    assert_eq!(read_version(&mut Cursor::new(&out), 4).unwrap(), (4, 0));
    assert_eq!(
        read_version(&mut Cursor::new(&out), 3).unwrap_err(),
        RepoError::UnsupportedFormat { found: 4, supported: 3 }
    );
}

#[test]
fn bytes_that_are_no_text_are_refused() {
    assert_eq!(text_from("—".as_bytes()).unwrap(), "—");
    let words = String::from_utf8(vec![0xff]).unwrap_err().to_string();
    assert_eq!(text_from(&[0xff]).unwrap_err(), RepoError::Backend(words));
}

#[test]
fn errors_in_words() {
    let o = Oid([0; 32]);
    assert_eq!(RepoError::NotFound(o).text(), format!("object not found: {o:?}"));
    assert_eq!(RepoError::Unauthorized(o).text(), format!("not authorized to read {o:?}"));
    assert_eq!(RepoError::Embargoed(100).text(), "content still embargoed until 100");
    assert_eq!(RepoError::Expired(100).text(), "grant expired at 100");
    assert_eq!(
        RepoError::UnsupportedFormat { found: 9, supported: 8 }.text(),
        "unsupported format version 9 (this build reads up to 8)"
    );
    assert_eq!(RepoError::Backend("x".into()).text(), "backend error: x");
}

#[test]
fn dates_rise_with_generations() {
    assert_eq!(commit_timestamp(0), 1_600_000_000);
    assert_eq!(commit_timestamp(7), 1_600_000_007);
}

#[test]
fn trailers_come_off_again() {
    let with = append_trailers("subject\n\nbody", &[("Loot-Change-Id", "ab".to_string())]);
    assert_eq!(with, "subject\n\nbody\n\nLoot-Change-Id: ab");
    assert_eq!(strip_trailers(&with), "subject\n\nbody");
}

#[test]
fn addresses_are_read_from_hex() {
    assert_eq!(parse_oid_hex(&"ab".repeat(32)), Some(Oid([0xab; 32])));
    assert_eq!(parse_oid_hex("ab"), None);
}
