use loot::escrow::Escrow;
use loot::sealed::{ContentKey, Keyring};
use loot::types::Oid;

fn make_key(b: u8) -> ContentKey {
    [b; 32]
}

fn oid(b: u8) -> Oid {
    Oid([b; 32])
}

#[test]
fn flush_promotes_eligible_entries() {
    let mut escrow = Escrow::new();
    let mut kr = Keyring::new();
    escrow.insert(oid(1), make_key(1), 100);
    escrow.insert(oid(2), make_key(2), 200);

    escrow.flush(&mut kr, 100);
    assert!(kr.holds(&oid(1)), "exactly at reveal_at should promote");
    assert!(!kr.holds(&oid(2)), "not yet due should stay in escrow");
    assert!(!escrow.holds(&oid(1)), "promoted entry should leave escrow");
    assert!(escrow.holds(&oid(2)), "pending entry should remain");
}

#[test]
fn flush_before_reveal_promotes_nothing() {
    let mut escrow = Escrow::new();
    let mut kr = Keyring::new();
    escrow.insert(oid(1), make_key(1), 100);
    escrow.flush(&mut kr, 99);
    assert!(!kr.holds(&oid(1)));
    assert!(escrow.holds(&oid(1)));
}

#[test]
fn flush_after_reveal_clears_escrow() {
    let mut escrow = Escrow::new();
    let mut kr = Keyring::new();
    escrow.insert(oid(1), make_key(1), 100);
    escrow.flush(&mut kr, 101);
    assert!(kr.holds(&oid(1)));
    assert!(!escrow.holds(&oid(1)));
}

#[test]
fn iter_covers_all_pending_entries() {
    let mut escrow = Escrow::new();
    escrow.insert(oid(1), make_key(1), 100);
    escrow.insert(oid(2), make_key(2), 200);
    let pairs = escrow.iter();
    assert_eq!(pairs.len(), 2);
}
