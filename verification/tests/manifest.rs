use loot::manifest::{Manifest, UNKNOWN_PUBKEY};
use loot::types::Oid;

fn oid(b: u8) -> Oid {
    Oid([b; 32])
}

fn pk(b: u8) -> [u8; 32] {
    [b; 32]
}

#[test]
fn record_is_idempotent_earlier_timestamp_wins() {
    let mut m = Manifest::new();
    m.record(oid(1), "alice".into(), pk(0xaa), pk(0xbb), 100, None);
    m.record(oid(1), "alice".into(), pk(0xaa), pk(0xbb), 50, None);
    m.record(oid(1), "alice".into(), pk(0xaa), pk(0xbb), 200, None);

    let entries = m.grants_for(&oid(1));
    assert_eq!(entries.len(), 1);
    assert_eq!(entries[0].granted_at, 100, "first write wins");
}

#[test]
fn merge_preserves_earlier_timestamp() {
    let mut a = Manifest::new();
    a.record(oid(1), "alice".into(), pk(0xaa), pk(0xbb), 100, None);

    let mut b = Manifest::new();
    b.record(oid(1), "alice".into(), pk(0xaa), pk(0xbb), 50, None);

    a.merge(&b);
    let entries = a.grants_for(&oid(1));
    assert_eq!(entries[0].granted_at, 50, "merge should take the earlier timestamp");
}

#[test]
fn grants_for_filters_by_oid() {
    let mut m = Manifest::new();
    m.record(oid(1), "alice".into(), pk(0xaa), pk(0xbb), 100, None);
    m.record(oid(2), "bob".into(), pk(0xcc), pk(0xbb), 200, None);
    m.record(oid(1), "carol".into(), pk(0xdd), pk(0xbb), 150, None);

    let for_oid1 = m.grants_for(&oid(1));
    assert_eq!(for_oid1.len(), 2);
    assert!(for_oid1.iter().all(|e| e.oid == oid(1)));
}

#[test]
fn grants_to_filters_by_grantee_name() {
    let mut m = Manifest::new();
    m.record(oid(1), "alice".into(), pk(0xaa), pk(0xbb), 100, None);
    m.record(oid(2), "alice".into(), pk(0xaa), pk(0xbb), 200, None);
    m.record(oid(3), "bob".into(), pk(0xcc), pk(0xbb), 300, None);

    let to_alice = m.grants_to("alice");
    assert_eq!(to_alice.len(), 2);
    assert!(to_alice.iter().all(|e| e.grantee == "alice"));
}

#[test]
fn has_grantor_distinguishes_relay_vs_file_grants() {
    let mut m = Manifest::new();
    m.record(oid(1), "alice".into(), UNKNOWN_PUBKEY, UNKNOWN_PUBKEY, 100, None);
    m.record(oid(2), "bob".into(), pk(0xaa), pk(0xbb), 200, None);

    let file_grant = m.grants_for(&oid(1))[0].clone();
    let relay_grant = m.grants_for(&oid(2))[0].clone();
    assert!(!file_grant.has_grantor());
    assert!(relay_grant.has_grantor());
}

#[test]
fn iter_covers_all_entries() {
    let mut m = Manifest::new();
    m.record(oid(1), "alice".into(), pk(0xaa), pk(0xbb), 100, None);
    m.record(oid(2), "bob".into(), pk(0xcc), pk(0xdd), 200, None);
    assert_eq!(m.iter().len(), 2);
}
