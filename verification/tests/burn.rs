use loot::burn::{decode, encode, signing_bytes, BurnLog, BurnTier, Tombstone};
use loot::types::{Oid, RepoPath};
use loot::value::Value;
use ed25519_dalek::{Signer, SigningKey};

fn signer(seed: u8) -> (SigningKey, [u8; 32]) {
    let sk = SigningKey::from_bytes(&[seed; 32]);
    let pk = sk.verifying_key().to_bytes();
    (sk, pk)
}

fn signed(sk: &SigningKey, pk: [u8; 32], oid: Oid, path: &str, tier: BurnTier) -> Tombstone {
    let p = RepoPath::new(path);
    let sig = sk.sign(&signing_bytes(&oid, &p, tier, &pk, 42)).to_bytes();
    Tombstone { oid, path: p, tier, burner: pk, burned_at: 42, signature: sig }
}

#[test]
fn signed_tombstone_verifies() {
    let (sk, pk) = signer(7);
    assert!(signed(&sk, pk, Oid([1; 32]), ".env", BurnTier::NeverPushed).verify());
}

#[test]
fn tampered_tier_fails_verify() {
    let (sk, pk) = signer(7);
    let mut t = signed(&sk, pk, Oid([1; 32]), ".env", BurnTier::NeverPushed);
    t.tier = BurnTier::Pushed; // signature covered NeverPushed
    assert!(!t.verify());
}

#[test]
fn tampered_oid_fails_verify() {
    let (sk, pk) = signer(7);
    let mut t = signed(&sk, pk, Oid([1; 32]), ".env", BurnTier::NeverPushed);
    t.oid = Oid([2; 32]);
    assert!(!t.verify());
}

#[test]
fn unauthored_tombstone_is_valid_only_when_unsigned() {
    let t = Tombstone::unauthored(Oid([3; 32]), RepoPath::new(".env"), BurnTier::Pushed, 1);
    assert!(t.verify(), "an all-zero burner/signature tombstone is a valid unauthored record");
    let mut forged = t.dup();
    forged.signature[0] = 1; // a nonzero sig with a zero burner is nonsense
    assert!(!forged.verify());
}

#[test]
fn burn_log_is_idempotent_and_queryable() {
    let (sk, pk) = signer(7);
    let mut log = BurnLog::new();
    log.insert(signed(&sk, pk, Oid([1; 32]), ".env", BurnTier::NeverPushed));
    log.insert(signed(&sk, pk, Oid([1; 32]), ".env", BurnTier::NeverPushed)); // dup
    log.insert(signed(&sk, pk, Oid([2; 32]), "id_rsa", BurnTier::Pushed));
    assert_eq!(log.len(), 2, "a repeated burn of the same oid is idempotent");
    assert!(log.contains(&Oid([1; 32])));
    assert_eq!(log.burned_oids().to_vec(), vec![Oid([1; 32]), Oid([2; 32])]);
}

#[test]
fn codec_round_trips_authored_and_unauthored() {
    let (sk, pk) = signer(9);
    let mut log = BurnLog::new();
    log.insert(signed(&sk, pk, Oid([5; 32]), "secrets/.env", BurnTier::Pushed));
    log.insert(Tombstone::unauthored(Oid([6; 32]), RepoPath::new(""), BurnTier::Pushed, 100));
    let back = decode(&encode(&log)).unwrap();
    assert_eq!(back.len(), 2);
    let a = back.get(&Oid([5; 32])).unwrap();
    assert_eq!(a.path, RepoPath::new("secrets/.env"));
    assert_eq!(a.tier, BurnTier::Pushed);
    assert!(a.verify());
    assert!(back.get(&Oid([6; 32])).unwrap().is_unauthored());
}

#[test]
fn merge_keeps_authored_over_received_unauthored() {
    let (sk, pk) = signer(9);
    let mut log = BurnLog::new();
    log.insert(signed(&sk, pk, Oid([5; 32]), ".env", BurnTier::Pushed));
    // A later received purge event (unauthored) for the same oid must not
    // clobber the signed provenance.
    let mut other = BurnLog::new();
    other.insert(Tombstone::unauthored(Oid([5; 32]), RepoPath::new(""), BurnTier::Pushed, 1));
    log.merge(&other);
    assert!(!log.get(&Oid([5; 32])).unwrap().is_unauthored());
    // But a received purge for a NEW oid is filed.
    let mut third = BurnLog::new();
    third.insert(Tombstone::unauthored(Oid([8; 32]), RepoPath::new(""), BurnTier::Pushed, 1));
    log.merge(&third);
    assert!(log.contains(&Oid([8; 32])));
}
