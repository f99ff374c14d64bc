use loot::attestation::{signing_bytes, Attestation, AttestationLog};
use loot::buoy::{resolve, BuoyResult};
use loot::sorted::{SortedMap, SortedSet};
use loot::types::Oid;
use loot::value::Value;
use ed25519_dalek::{Signer, SigningKey};

// --- Helpers ---------------------------------------------------------------

fn oid(b: u8) -> Oid {
    Oid([b; 32])
}

fn make_key(seed: u8) -> (SigningKey, [u8; 32]) {
    let sk = SigningKey::from_bytes(&[seed; 32]);
    let pk = sk.verifying_key().to_bytes();
    (sk, pk)
}

fn attest(sk: &SigningKey, pk: [u8; 32], change: Oid, role: &str) -> Attestation {
    let sig = sk.sign(&signing_bytes(&change, &pk, role)).to_bytes();
    Attestation { change_id: change, attester: pk, role: role.into(), signature: sig }
}

fn trusted_set(keys: &[[u8; 32]]) -> SortedSet<[u8; 32]> {
    let mut s = SortedSet::new();
    for k in keys {
        s.insert(*k);
    }
    s
}

/// Build an `AttestationLog` from a slice of `Attestation`s.
fn log_from(atts: &[Attestation]) -> AttestationLog {
    let mut log = AttestationLog::new();
    for a in atts {
        log.insert(a.dup());
    }
    log
}

// A minimal parent-map: map from child oid-byte to list of parent oid-bytes.
fn make_parents(edges: &[(u8, &[u8])]) -> SortedMap<Oid, Vec<Oid>> {
    let mut m = SortedMap::new();
    for (c, ps) in edges {
        m.insert(oid(*c), ps.iter().map(|&b| oid(b)).collect());
    }
    m
}

fn present(ids: &[u8]) -> SortedSet<Oid> {
    let mut s = SortedSet::new();
    for b in ids {
        s.insert(oid(*b));
    }
    s
}

// --- Cycle 1: single resolved buoy -----------------------------------------

#[test]
fn single_attested_change_resolves_as_buoy() {
    let (sk, pk) = make_key(1);
    let log = log_from(&[attest(&sk, pk, oid(10), "reviewed")]);
    let parents = make_parents(&[]);
    let result = resolve(
        &present(&[10]),
        &parents,
        &log.iter(),
        &trusted_set(&[pk]),
        "reviewed",
    );
    assert_eq!(result, BuoyResult::Resolved { change: oid(10), attesters: vec![pk] });
}

// --- Cycle 2: no matching attestation → None --------------------------------

#[test]
fn no_attestation_returns_none() {
    let log = AttestationLog::new();
    let parents = make_parents(&[]);
    let result = resolve(&present(&[10]), &parents, &log.iter(), &trusted_set(&[]), "reviewed");
    assert_eq!(result, BuoyResult::Nowhere);
}

#[test]
fn wrong_role_returns_none() {
    let (sk, pk) = make_key(1);
    let log = log_from(&[attest(&sk, pk, oid(10), "base")]);
    let parents = make_parents(&[]);
    let result = resolve(
        &present(&[10]),
        &parents,
        &log.iter(),
        &trusted_set(&[pk]),
        "reviewed",
    );
    assert_eq!(result, BuoyResult::Nowhere);
}

// --- Cycle 3: untrusted attester is ignored ---------------------------------

#[test]
fn untrusted_attester_is_ignored() {
    let (sk, pk) = make_key(2);
    let log = log_from(&[attest(&sk, pk, oid(10), "reviewed")]);
    let parents = make_parents(&[]);
    // pk is NOT in the trusted set
    let result = resolve(&present(&[10]), &parents, &log.iter(), &trusted_set(&[]), "reviewed");
    assert_eq!(result, BuoyResult::Nowhere);
}

// --- Cycle 4: bad signature is dropped --------------------------------------

#[test]
fn bad_signature_is_dropped() {
    let (sk, pk) = make_key(3);
    let mut att = attest(&sk, pk, oid(10), "reviewed");
    att.signature[0] ^= 0xff; // corrupt
    let log = log_from(&[att]);
    let parents = make_parents(&[]);
    let result = resolve(
        &present(&[10]),
        &parents,
        &log.iter(),
        &trusted_set(&[pk]),
        "reviewed",
    );
    assert_eq!(result, BuoyResult::Nowhere);
}

// --- Cycle 5: missing change excluded from resolution -----------------------

#[test]
fn attestation_for_absent_change_is_excluded() {
    let (sk, pk) = make_key(1);
    // Change oid(10) is attested but NOT in present set
    let log = log_from(&[attest(&sk, pk, oid(10), "reviewed")]);
    let parents = make_parents(&[]);
    let result = resolve(
        &present(&[]),  // empty local store
        &parents,
        &log.iter(),
        &trusted_set(&[pk]),
        "reviewed",
    );
    assert_eq!(result, BuoyResult::Nowhere);
}

// --- Cycle 6: ancestor collapsed under descendant ---------------------------

#[test]
fn ancestor_is_dominated_by_descendant() {
    let (sk, pk) = make_key(1);
    // Linear chain: 10 <- 11 (11 is child of 10)
    // Both attested — 10 must be dropped (it's an ancestor of 11).
    let log = log_from(&[
        attest(&sk, pk, oid(10), "reviewed"),
        attest(&sk, pk, oid(11), "reviewed"),
    ]);
    let parents = make_parents(&[(11, &[10])]);
    let result = resolve(
        &present(&[10, 11]),
        &parents,
        &log.iter(),
        &trusted_set(&[pk]),
        "reviewed",
    );
    assert_eq!(result, BuoyResult::Resolved { change: oid(11), attesters: vec![pk] });
}

// --- Cycle 7: concurrent attestations → Ambiguous ---------------------------

#[test]
fn concurrent_attestations_are_ambiguous() {
    let (sk, pk) = make_key(1);
    // Forks from a common base (oid(9)): 10 and 11 are incomparable.
    let log = log_from(&[
        attest(&sk, pk, oid(10), "reviewed"),
        attest(&sk, pk, oid(11), "reviewed"),
    ]);
    // Both are children of 9, neither is the other's ancestor.
    let parents = make_parents(&[(10, &[9]), (11, &[9])]);
    let result = resolve(
        &present(&[9, 10, 11]),
        &parents,
        &log.iter(),
        &trusted_set(&[pk]),
        "reviewed",
    );
    match result {
        BuoyResult::Ambiguous { candidates } => {
            let ids: Vec<Oid> = candidates.iter().map(|c| c.change.clone()).collect();
            assert!(ids.contains(&oid(10)));
            assert!(ids.contains(&oid(11)));
            assert_eq!(ids.len(), 2);
        }
        other => panic!("expected Ambiguous, got {other:?}"),
    }
}

// --- Cycle 8: self-trust (local identity counts as trusted) -----------------

#[test]
fn self_attestation_is_trusted() {
    let (sk, pk) = make_key(5);
    let log = log_from(&[attest(&sk, pk, oid(10), "reviewed")]);
    let parents = make_parents(&[]);
    // Self-trust: pk is the local identity's own pubkey.
    let result = resolve(
        &present(&[10]),
        &parents,
        &log.iter(),
        &trusted_set(&[pk]),
        "reviewed",
    );
    assert_eq!(result, BuoyResult::Resolved { change: oid(10), attesters: vec![pk] });
}

// --- Cycle 9: three-level chain, only grandchild survives -------------------

#[test]
fn only_leaf_survives_in_linear_chain() {
    let (sk, pk) = make_key(1);
    // Chain: 10 <- 11 <- 12. All three attested; only 12 is maximal.
    let log = log_from(&[
        attest(&sk, pk, oid(10), "reviewed"),
        attest(&sk, pk, oid(11), "reviewed"),
        attest(&sk, pk, oid(12), "reviewed"),
    ]);
    let parents = make_parents(&[(11, &[10]), (12, &[11])]);
    let result = resolve(
        &present(&[10, 11, 12]),
        &parents,
        &log.iter(),
        &trusted_set(&[pk]),
        "reviewed",
    );
    assert_eq!(result, BuoyResult::Resolved { change: oid(12), attesters: vec![pk] });
}

// --- Cycle 10: merge node — one candidate, one of its parents attested ------

#[test]
fn merge_node_dominates_its_attested_parents() {
    let (sk, pk) = make_key(1);
    // Merge: 12 merges 10 and 11 (10 and 11 are both parents of 12).
    // 10 and 12 both attested; 10 is an ancestor of 12, so only 12 remains.
    let log = log_from(&[
        attest(&sk, pk, oid(10), "reviewed"),
        attest(&sk, pk, oid(12), "reviewed"),
    ]);
    let parents = make_parents(&[(12, &[10, 11])]);
    let result = resolve(
        &present(&[10, 11, 12]),
        &parents,
        &log.iter(),
        &trusted_set(&[pk]),
        "reviewed",
    );
    assert_eq!(result, BuoyResult::Resolved { change: oid(12), attesters: vec![pk] });
}
