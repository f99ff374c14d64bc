use loot::attestation::{signing_bytes, Attestation, AttestationLog};
use loot::types::Oid;
use ed25519_dalek::{Signer, SigningKey};

fn signer(seed: u8) -> (SigningKey, [u8; 32]) {
    let sk = SigningKey::from_bytes(&[seed; 32]);
    let pk = sk.verifying_key().to_bytes();
    (sk, pk)
}

fn make(sk: &SigningKey, pk: [u8; 32], change: Oid, role: &str) -> Attestation {
    let signature = sk.sign(&signing_bytes(&change, &pk, role)).to_bytes();
    Attestation { change_id: change, attester: pk, role: role.into(), signature }
}

#[test]
fn valid_attestation_verifies() {
    let (sk, pk) = signer(3);
    assert!(make(&sk, pk, Oid([1; 32]), "reviewed").verify());
}

#[test]
fn tampered_role_fails_verify() {
    let (sk, pk) = signer(3);
    let mut a = make(&sk, pk, Oid([1; 32]), "reviewed");
    a.role = "approved".into(); // signature covers "reviewed"
    assert!(!a.verify());
}

#[test]
fn wrong_attester_fails_verify() {
    let (sk, _pk) = signer(3);
    let (_o, other_pk) = signer(4);
    // Claims other_pk as attester, but sk (pk=3) signed.
    let sig = sk.sign(&signing_bytes(&Oid([1; 32]), &other_pk, "reviewed")).to_bytes();
    let a = Attestation { change_id: Oid([1; 32]), attester: other_pk, role: "reviewed".into(), signature: sig };
    assert!(!a.verify());
}

#[test]
fn attestation_log_is_idempotent_and_queryable() {
    let (sk, pk) = signer(3);
    let mut log = AttestationLog::new();
    log.insert(make(&sk, pk, Oid([1; 32]), "reviewed"));
    log.insert(make(&sk, pk, Oid([1; 32]), "reviewed")); // duplicate
    log.insert(make(&sk, pk, Oid([2; 32]), "reviewed"));
    assert_eq!(log.len(), 2, "duplicate (change, attester, role) is idempotent");
    assert_eq!(log.for_change(&Oid([1; 32])).len(), 1);
}

#[test]
fn a_log_goes_by_change_attester_and_role() {
    let (sk3, pk3) = signer(3);
    let (sk4, pk4) = signer(4);
    let mut log = AttestationLog::new();
    log.insert(make(&sk3, pk3, Oid([2; 32]), "reviewed"));
    log.insert(make(&sk4, pk4, Oid([1; 32]), "reviewed"));
    log.insert(make(&sk3, pk3, Oid([1; 32]), "tested"));
    log.insert(make(&sk3, pk3, Oid([1; 32]), "approved"));
    let all: Vec<(Oid, [u8; 32], String)> =
        log.iter().iter().map(|a| (a.change_id, a.attester, a.role.clone())).collect();
    let mut want = vec![
        (Oid([1; 32]), pk3, "approved".to_string()),
        (Oid([1; 32]), pk3, "tested".to_string()),
        (Oid([1; 32]), pk4, "reviewed".to_string()),
        (Oid([2; 32]), pk3, "reviewed".to_string()),
    ];
    want.sort_by(|a, b| (a.0 .0, a.1, &a.2).cmp(&(b.0 .0, b.1, &b.2)));
    assert_eq!(all, want);
    let first: Vec<(Oid, [u8; 32], String)> =
        log.for_change(&Oid([1; 32])).iter().map(|a| (a.change_id, a.attester, a.role.clone())).collect();
    assert_eq!(first, want[..3].to_vec());
}
