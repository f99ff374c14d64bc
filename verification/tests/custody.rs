use ed25519_dalek::Signer;
use loot::bundle_codec::{self, Frame};
use loot::engine::change_graph::change_signing_message;
use loot::engine::custody::{decode_manifest, decode_purges, encode_manifest, encode_purges};
use loot::engine::DagRepo;
use loot::format::FORMAT_MAJOR;
use loot::manifest::Manifest;
use loot::types::{Change, Oid, RepoError, RepoPath, Tree, Visibility};

fn root() -> String {
    "/work".to_string()
}

fn contains_window(haystack: &[u8], needle: &[u8]) -> bool {
    haystack.windows(needle.len()).any(|w| w == needle)
}

/// The body of a sync bundle, without its frame.
fn extract_sync_payload(bundle: &[u8]) -> Vec<u8> {
    let frame = Frame::decode(bundle).expect("valid sync bundle");
    let Frame::Sync { body, .. } = frame else {
        panic!("expected sync bundle (tag 0)");
    };
    bundle_codec::encode(&body.changes, &body.objs, &body.keys, &body.attestations)
}

// --- embargo / escrow ---

/// Core guarantee: the originator's own embargoed key is in Escrow, not
/// the Keyring, so `get` returns Embargoed before flush.
#[test]
fn custody_embargo_key_in_escrow_not_keyring_before_reveal() {
    let mut alice = DagRepo::init(root(), "alice").unwrap();
    let oid = alice
        .put(b"cve fix", Visibility::Embargoed { reveal_at: 100 })
        .unwrap();

    // Before flush: Keyring has no entry, Escrow does.
    assert!(
        !alice.custody.keyring.holds(&oid),
        "key must be in escrow, not keyring"
    );
    assert!(
        alice.custody.escrow.holds(&oid),
        "key must be in escrow before reveal"
    );
    // get() returns Embargoed (open() finds no key in keyring).
    assert!(matches!(
        alice.get(&oid, "alice", 99),
        Err(RepoError::Embargoed(100))
    ));
}

/// After flush_escrow with now >= reveal_at, the key promotes to the Keyring
/// and get() succeeds.
#[test]
fn custody_flush_escrow_promotes_key_and_enables_read() {
    let mut alice = DagRepo::init(root(), "alice").unwrap();
    let oid = alice
        .put(b"cve fix", Visibility::Embargoed { reveal_at: 100 })
        .unwrap();

    alice.flush_escrow(100);

    assert!(
        alice.custody.keyring.holds(&oid),
        "key must be in keyring after flush"
    );
    assert!(
        !alice.custody.escrow.holds(&oid),
        "escrow must be empty after flush"
    );
    assert_eq!(alice.get(&oid, "alice", 100).unwrap(), b"cve fix");
}

/// Hard embargo: an embargoed key never rides in a sync
/// bundle at all. The receiver gets ciphertext only — the key bytes are
/// simply not on their machine, no matter what clock they claim or how
/// they read their own storage. Keys arrive only as relay-withheld timed
/// SealedGrants after reveal.
#[test]
fn bundle_never_carries_an_embargoed_key() {
    let mut alice = DagRepo::init(root(), "alice").unwrap();
    let oid = alice
        .put(b"cve fix", Visibility::Embargoed { reveal_at: 100 })
        .unwrap();
    let mut tree = Tree::new();
    tree.insert(
        RepoPath::new("cve.txt"),
        (oid.clone(), Visibility::Embargoed { reveal_at: 100 }),
    );
    alice
        .record(Change {
            id: Oid([0; 32]),
            parents: vec![],
            message: "cve".into(),
            tree,
        })
        .unwrap();
    // Alice's own key stages in their own escrow (originator staging) —
    // that never travels.
    assert!(alice.custody.escrow.holds(&oid));

    let bundle = alice.bundle(&vec![]).unwrap();

    // Wire check: no key for the embargoed object anywhere in the body, and
    // the raw key bytes appear nowhere in the whole bundle.
    let payload = extract_sync_payload(&bundle.0);
    let (_changes, objs, plain_keys, _attestations) =
        bundle_codec::decode(&payload, FORMAT_MAJOR).unwrap();
    assert!(
        plain_keys.get(&oid).is_none(),
        "embargoed key must not be in the keys section"
    );
    assert!(
        objs.iter().any(|(a, _)| *a == oid),
        "the ciphertext itself still syncs"
    );
    let alice_key = alice
        .custody
        .escrow
        .iter()
        .into_iter()
        .find(|(o, _)| *o == oid)
        .map(|(_, e)| e.key)
        .unwrap();
    assert!(
        !contains_window(&bundle.0, &alice_key),
        "raw embargoed key bytes must not appear anywhere on the wire"
    );

    // Bob applies: ciphertext lands, but no key exists on their machine —
    // neither keyring nor escrow — even long after reveal_at. A lying clock
    // or a modified binary has nothing to find.
    let mut bob = DagRepo::init(root(), "bob").unwrap();
    bob.apply(&bundle, 50).unwrap();
    assert!(
        !bob.custody.escrow.holds(&oid),
        "no escrow entry arrives via bundle (v5)"
    );
    assert!(
        !bob.custody.keyring.holds(&oid),
        "no keyring entry arrives via bundle"
    );
    bob.flush_escrow(1_000_000);
    assert!(
        bob.get(&oid, "bob", 1_000_000).is_err(),
        "no key, no read — ever, via this lane"
    );
}

/// Escrow persists across save/load so reveal works in a new process.
#[test]
fn custody_escrow_survives_save_load() {
    let mut repo = DagRepo::init(root(), "alice").unwrap();
    let oid = repo
        .put(b"cve fix", Visibility::Embargoed { reveal_at: 100 })
        .unwrap();
    let files = repo.save(&vec![]);

    let mut loaded = DagRepo::load(&files, root()).unwrap();
    // Still embargoed after reload.
    assert!(loaded.custody.escrow.holds(&oid));
    assert!(matches!(
        loaded.get(&oid, "alice", 50),
        Err(RepoError::Embargoed(100))
    ));
    // Flush and read.
    loaded.flush_escrow(100);
    assert_eq!(loaded.get(&oid, "alice", 100).unwrap(), b"cve fix");
}

/// Manifest persists across save/load.
#[test]
fn custody_manifest_survives_save_load() {
    let mut repo = DagRepo::init(root(), "alice").unwrap();
    let oid = repo
        .put(
            b"shared data",
            Visibility::Restricted(vec!["alice".into(), "bob".into()]),
        )
        .unwrap();
    repo.custody
        .manifest
        .record(oid.clone(), "bob".to_string(), [0u8; 32], [0u8; 32], 42, None);
    let files = repo.save(&vec![]);

    let loaded = DagRepo::load(&files, root()).unwrap();
    let grants = loaded.custody.manifest.grants_for(&oid);
    assert_eq!(grants.len(), 1);
    assert_eq!(grants[0].grantee, "bob");
    assert_eq!(grants[0].granted_at, 42);
}

/// Purge events persist across save/load.
#[test]
fn custody_purge_events_survive_save_load() {
    let mut repo = DagRepo::init(root(), "alice").unwrap();
    let oid = repo
        .put(b"data", Visibility::Restricted(vec!["alice".into()]))
        .unwrap();
    repo.custody.purges.push((oid.clone(), "bob".to_string()));
    let files = repo.save(&vec![]);

    let loaded = DagRepo::load(&files, root()).unwrap();
    assert_eq!(loaded.custody.purges.len(), 1);
    assert_eq!(loaded.custody.purges[0].0, oid);
    assert_eq!(loaded.custody.purges[0].1, "bob");
}

// --- grant / manifest ---

#[test]
fn custody_grant_gives_grantee_the_key_and_records_in_manifest() {
    let mut alice = DagRepo::init(root(), "alice").unwrap();
    let oid = alice
        .put(b"secret data", Visibility::Restricted(vec!["alice".into()]))
        .unwrap();

    let bundle = alice.grant(&oid, "bob", 100, None).unwrap();

    // Manifest should record the grant.
    let grants = alice.custody.manifest.grants_for(&oid);
    assert_eq!(grants.len(), 1);
    assert_eq!(grants[0].grantee, "bob");
    assert_eq!(grants[0].granted_at, 100);

    // Bob applies the grant bundle.
    let mut bob = DagRepo::init(root(), "bob").unwrap();
    // Also give bob the object (normally via regular bundle).
    let obj = alice.objects.get(&oid).unwrap().clone();
    bob.objects.put(oid.clone(), obj);

    bob.apply(&bundle, 0).unwrap();
    assert!(
        bob.custody.keyring.holds(&oid),
        "bob must hold the key after applying grant"
    );
    assert_eq!(bob.get(&oid, "bob", 0).unwrap(), b"secret data");
}

#[test]
fn custody_grant_requires_caller_to_hold_key() {
    let alice = DagRepo::init(root(), "alice").unwrap();
    let unknown_oid = Oid([99; 32]);
    let mut repo = alice;
    let result = repo.grant(&unknown_oid, "bob", 0, None);
    assert!(
        matches!(result, Err(RepoError::Unauthorized(_))),
        "must fail without key"
    );
}

#[test]
fn custody_manifest_accumulates_across_bundles() {
    let mut alice = DagRepo::init(root(), "alice").unwrap();
    let oid1 = alice
        .put(b"data1", Visibility::Restricted(vec!["alice".into()]))
        .unwrap();
    let oid2 = alice
        .put(b"data2", Visibility::Restricted(vec!["alice".into()]))
        .unwrap();

    alice.grant(&oid1, "bob", 10, None).unwrap();
    alice.grant(&oid2, "carol", 20, None).unwrap();

    assert_eq!(alice.custody.manifest.grants_for(&oid1).len(), 1);
    assert_eq!(alice.custody.manifest.grants_for(&oid2).len(), 1);
    assert_eq!(alice.custody.manifest.iter().len(), 2);
}

// --- grant expiry ---
//
// A trivial fixed-position seal/unseal pair stands in for real ECIES here
// (identity crypto is deliberately outside the engine) — only
// the wire path and the expiry gate are under test.
fn fake_seal(key: &[u8; 32]) -> Result<[u8; 80], RepoError> {
    let mut w = [0u8; 80];
    w[..32].copy_from_slice(key);
    Ok(w)
}
fn fake_unseal(wrapped: &[u8; 80]) -> Result<[u8; 32], RepoError> {
    let mut k = [0u8; 32];
    k.copy_from_slice(&wrapped[..32]);
    Ok(k)
}

#[test]
fn apply_sealed_grant_rejects_a_grant_past_its_expires_at() {
    let mut alice = DagRepo::init(root(), "alice").unwrap();
    let oid = alice
        .put(b"secret data", Visibility::Restricted(vec!["alice".into()]))
        .unwrap();
    let bundle = alice
        .grant_sealed(&oid, "bob", [0xbb; 32], [0xaa; 32], 0, Some(100), 50, fake_seal)
        .unwrap();

    let mut bob = DagRepo::init(root(), "bob").unwrap();
    let obj = alice.objects.get(&oid).unwrap().clone();
    bob.objects.put(oid.clone(), obj);

    let result = bob.apply_sealed_grant(&bundle, [0xaa; 32], 100, fake_unseal);
    match &result {
        Err(RepoError::Expired(t)) => assert_eq!(*t, 100),
        other => panic!("expected Err(Expired(100)), got {other:?}"),
    }
    assert!(
        !bob.custody.keyring.holds(&oid),
        "an expired grant must install nothing"
    );
    assert!(
        bob.custody.manifest.grant_for(&oid, "bob").is_none(),
        "an expired grant must not even be recorded"
    );
}

#[test]
fn apply_sealed_grant_accepts_a_grant_before_its_expires_at() {
    let mut alice = DagRepo::init(root(), "alice").unwrap();
    let oid = alice
        .put(b"secret data", Visibility::Restricted(vec!["alice".into()]))
        .unwrap();
    let bundle = alice
        .grant_sealed(&oid, "bob", [0xbb; 32], [0xaa; 32], 0, Some(100), 50, fake_seal)
        .unwrap();

    let mut bob = DagRepo::init(root(), "bob").unwrap();
    let obj = alice.objects.get(&oid).unwrap().clone();
    bob.objects.put(oid.clone(), obj);

    bob.apply_sealed_grant(&bundle, [0xaa; 32], 99, fake_unseal)
        .unwrap();
    assert!(
        bob.custody.keyring.holds(&oid),
        "a not-yet-expired grant must file the key"
    );
    assert_eq!(bob.get(&oid, "bob", 99).unwrap(), b"secret data");
    assert_eq!(
        bob.custody.manifest.grant_for(&oid, "bob").unwrap().expires_at,
        Some(100)
    );
}

#[test]
fn a_grant_opens_content_only_for_its_grantee_where_they_are() {
    let mut alice = DagRepo::init(root(), "alice").unwrap();
    let oid = alice
        .put(b"secret data", Visibility::Restricted(vec!["alice".into()]))
        .unwrap();
    alice.grant(&oid, "bob", 100, None).unwrap();
    assert!(matches!(alice.get(&oid, "bob", 100), Err(RepoError::Unauthorized(_))));
    assert_eq!(alice.get(&oid, "alice", 100).unwrap(), b"secret data");
}

#[test]
fn a_grant_that_has_lapsed_opens_nothing() {
    let mut alice = DagRepo::init(root(), "alice").unwrap();
    let oid = alice
        .put(b"secret data", Visibility::Restricted(vec!["alice".into()]))
        .unwrap();
    let bundle = alice
        .grant_sealed(&oid, "bob", [0xbb; 32], [0xaa; 32], 0, Some(100), 50, fake_seal)
        .unwrap();
    let mut bob = DagRepo::init(root(), "bob").unwrap();
    let obj = alice.objects.get(&oid).unwrap().clone();
    bob.objects.put(oid.clone(), obj);
    bob.apply_sealed_grant(&bundle, [0xaa; 32], 99, fake_unseal).unwrap();
    assert_eq!(bob.get(&oid, "bob", 99).unwrap(), b"secret data");
    assert!(matches!(bob.get(&oid, "bob", 100), Err(RepoError::Unauthorized(_))));
}

#[test]
fn apply_sealed_grant_with_no_expires_at_behaves_as_before() {
    // The field is optional: a grant that never sets expires_at must
    // behave exactly as it did before this feature existed.
    let mut alice = DagRepo::init(root(), "alice").unwrap();
    let oid = alice
        .put(b"secret data", Visibility::Restricted(vec!["alice".into()]))
        .unwrap();
    let bundle = alice
        .grant_sealed(&oid, "bob", [0xbb; 32], [0xaa; 32], 0, None, 50, fake_seal)
        .unwrap();

    let mut bob = DagRepo::init(root(), "bob").unwrap();
    let obj = alice.objects.get(&oid).unwrap().clone();
    bob.objects.put(oid.clone(), obj);

    bob.apply_sealed_grant(&bundle, [0xaa; 32], u64::MAX, fake_unseal)
        .unwrap();
    assert!(bob.custody.keyring.holds(&oid), "an unexpiring grant is never rejected");
}

#[test]
fn surface_skips_a_path_whose_grant_has_expired() {
    let mut alice = DagRepo::init(root(), "alice").unwrap();
    let oid = alice
        .put(b"secret", Visibility::Restricted(vec!["alice".into(), "bob".into()]))
        .unwrap();
    let mut tree = Tree::new();
    tree.insert(
        RepoPath::new("s.txt"),
        (oid.clone(), Visibility::Restricted(vec!["alice".into(), "bob".into()])),
    );
    let change_id = alice
        .record(Change { id: Oid([0; 32]), parents: vec![], message: "add".into(), tree })
        .unwrap();

    let bundle = alice.bundle(&vec![]).unwrap();
    let mut bob = DagRepo::init(root(), "bob").unwrap();
    bob.apply(&bundle, 0).unwrap();
    // Bob holds the key directly and their own manifest records an already-
    // expired grant for it — the state `apply_sealed_grant` would have left
    // them in before `now` passed `expires_at`.
    let key = alice.custody.keyring.key_for(&oid).unwrap();
    bob.custody.keyring.insert(oid.clone(), key);
    bob.custody
        .manifest
        .record(oid.clone(), "bob".to_string(), [0u8; 32], [0u8; 32], 0, Some(100));

    let (written, skipped) = bob.surface_with_report(&change_id, "bob", 100).unwrap();
    assert!(written.is_empty(), "the expired path must not be materialized: {written:?}");
    assert_eq!(skipped, 1);
}

#[test]
fn surface_keeps_a_path_whose_grant_has_not_yet_expired() {
    let mut alice = DagRepo::init(root(), "alice").unwrap();
    let oid = alice
        .put(b"secret", Visibility::Restricted(vec!["alice".into(), "bob".into()]))
        .unwrap();
    let mut tree = Tree::new();
    tree.insert(
        RepoPath::new("s.txt"),
        (oid.clone(), Visibility::Restricted(vec!["alice".into(), "bob".into()])),
    );
    let change_id = alice
        .record(Change { id: Oid([0; 32]), parents: vec![], message: "add".into(), tree })
        .unwrap();

    let bundle = alice.bundle(&vec![]).unwrap();
    let mut bob = DagRepo::init(root(), "bob").unwrap();
    bob.apply(&bundle, 0).unwrap();
    let key = alice.custody.keyring.key_for(&oid).unwrap();
    bob.custody.keyring.insert(oid.clone(), key);
    bob.custody
        .manifest
        .record(oid.clone(), "bob".to_string(), [0u8; 32], [0u8; 32], 0, Some(100));

    let (written, skipped) = bob.surface_with_report(&change_id, "bob", 99).unwrap();
    assert_eq!(written.len(), 1, "not yet expired: the path must surface");
    assert_eq!(skipped, 0);
}

#[test]
fn surface_ignores_expiry_check_when_no_grant_is_recorded() {
    // An owner reading their own content: no manifest entry for
    // (oid, "alice") was ever recorded (an owner doesn't grant to
    // themselves), so the miss must not read as an expiry no matter how
    // far `now` runs.
    let mut alice = DagRepo::init(root(), "alice").unwrap();
    let oid = alice
        .put(b"mine", Visibility::Restricted(vec!["alice".into()]))
        .unwrap();
    let mut tree = Tree::new();
    tree.insert(
        RepoPath::new("m.txt"),
        (oid.clone(), Visibility::Restricted(vec!["alice".into()])),
    );
    let change_id = alice
        .record(Change { id: Oid([0; 32]), parents: vec![], message: "add".into(), tree })
        .unwrap();

    let (written, skipped) = alice.surface_with_report(&change_id, "alice", u64::MAX).unwrap();
    assert_eq!(written.len(), 1, "an owner's own content is unaffected by the expiry gate");
    assert_eq!(skipped, 0);
}

// --- forward maroon ---

#[test]
fn custody_forward_maroon_cuts_future_access() {
    let mut alice = DagRepo::init(root(), "alice").unwrap();
    let oid = alice
        .put(
            b"secret",
            Visibility::Restricted(vec!["alice".into(), "bob".into()]),
        )
        .unwrap();
    let mut tree = Tree::new();
    tree.insert(
        RepoPath::new("secret.txt"),
        (
            oid.clone(),
            Visibility::Restricted(vec!["alice".into(), "bob".into()]),
        ),
    );
    alice
        .record(Change {
            id: Oid([0; 32]),
            parents: vec![],
            message: "add secret".into(),
            tree,
        })
        .unwrap();

    let result = alice.maroon(&RepoPath::new("secret.txt"), "bob", 0).unwrap();

    // The new oid is different (re-sealed without bob).
    assert_ne!(result.new_oid, oid, "re-sealed content must have new oid");

    // Alice can still read the new object.
    let plaintext = alice.get(&result.new_oid, "alice", 0).unwrap();
    assert_eq!(plaintext, b"secret");
}

#[test]
fn custody_forward_maroon_re_grants_remaining_identities() {
    let mut alice = DagRepo::init(root(), "alice").unwrap();
    let oid = alice
        .put(
            b"secret",
            Visibility::Restricted(vec!["alice".into(), "bob".into(), "carol".into()]),
        )
        .unwrap();
    // Record grant of old oid to bob and carol so maroon can find them.
    // Carol's grant carries an expiry — the re-grant must preserve it.
    alice
        .custody
        .manifest
        .record(oid.clone(), "bob".to_string(), [0u8; 32], [0u8; 32], 1, None);
    alice.custody.manifest.record(
        oid.clone(),
        "carol".to_string(),
        [0u8; 32],
        [0u8; 32],
        1,
        Some(9_999),
    );
    let mut tree = Tree::new();
    tree.insert(
        RepoPath::new("s.txt"),
        (
            oid.clone(),
            Visibility::Restricted(vec!["alice".into(), "bob".into(), "carol".into()]),
        ),
    );
    alice
        .record(Change {
            id: Oid([0; 32]),
            parents: vec![],
            message: "add".into(),
            tree,
        })
        .unwrap();

    let result = alice.maroon(&RepoPath::new("s.txt"), "bob", 0).unwrap();

    // Carol should get a grant bundle (bob was marooned, carol remains).
    assert!(
        result.grants.iter().any(|(g, _)| g == "carol"),
        "carol must receive a re-grant bundle"
    );
    assert!(
        !result.grants.iter().any(|(g, _)| g == "bob"),
        "bob must not receive a re-grant bundle"
    );
    // The re-grant to carol must carry their original expiry forward —
    // a maroon must not accidentally un-expire a lapsing grant.
    assert_eq!(
        alice.custody.manifest.grant_for(&result.new_oid, "carol").and_then(|e| e.expires_at),
        Some(9_999),
        "carol's re-grant must preserve their original expires_at"
    );
}

#[test]
fn custody_forward_maroon_unknown_path_is_not_found() {
    let mut alice = DagRepo::init(root(), "alice").unwrap();
    let result = alice.maroon(&RepoPath::new("nonexistent.txt"), "bob", 0);
    assert!(matches!(result, Err(RepoError::NotFound(_))));
}

#[test]
fn custody_forward_maroon_requires_keyholder() {
    let mut alice = DagRepo::init(root(), "alice").unwrap();
    let oid = alice
        .put(b"secret", Visibility::Restricted(vec!["alice".into()]))
        .unwrap();
    let mut tree = Tree::new();
    tree.insert(
        RepoPath::new("s.txt"),
        (oid.clone(), Visibility::Restricted(vec!["alice".into()])),
    );
    alice
        .record(Change {
            id: Oid([0; 32]),
            parents: vec![],
            message: "add".into(),
            tree,
        })
        .unwrap();

    let bundle = alice.bundle(&vec![]).unwrap();
    let mut bob = DagRepo::init(root(), "bob").unwrap();
    bob.apply(&bundle, 0).unwrap();

    // Bob cannot maroon alice (they don't hold the key).
    let result = bob.maroon(&RepoPath::new("s.txt"), "alice", 0);
    assert!(matches!(result, Err(RepoError::Unauthorized(_))));
}

// --- hard maroon ---

#[test]
fn custody_hard_maroon_purges_old_key_on_apply() {
    let mut alice = DagRepo::init(root(), "alice").unwrap();
    let oid = alice
        .put(
            b"secret",
            Visibility::Restricted(vec!["alice".into(), "bob".into()]),
        )
        .unwrap();
    let mut tree = Tree::new();
    tree.insert(
        RepoPath::new("s.txt"),
        (
            oid.clone(),
            Visibility::Restricted(vec!["alice".into(), "bob".into()]),
        ),
    );
    alice
        .record(Change {
            id: Oid([0; 32]),
            parents: vec![],
            message: "add".into(),
            tree,
        })
        .unwrap();

    // Give bob their own copy with the key.
    let mut bob = DagRepo::init(root(), "bob").unwrap();
    let init_bundle = alice.bundle(&vec![]).unwrap();
    bob.apply(&init_bundle, 0).unwrap();
    // Manually insert bob's key for testing purposes.
    let key = alice.custody.keyring.key_for(&oid).unwrap();
    bob.custody.keyring.insert(oid.clone(), key);
    assert!(
        bob.custody.keyring.holds(&oid),
        "bob should have the key before maroon"
    );

    // Alice hard-marooned bob.
    alice.maroon_hard(&RepoPath::new("s.txt"), "bob", 0).unwrap();

    // Alice ships a new bundle to bob (with the purge event).
    let purge_bundle = alice.bundle(&vec![]).unwrap();
    bob.apply(&purge_bundle, 0).unwrap();

    // Bob's old key should be purged.
    assert!(
        !bob.custody.keyring.holds(&oid),
        "bob's old key must be removed after hard maroon"
    );
}

#[test]
fn custody_hard_maroon_does_not_purge_other_identities() {
    let mut alice = DagRepo::init(root(), "alice").unwrap();
    let oid = alice
        .put(
            b"secret",
            Visibility::Restricted(vec!["alice".into(), "bob".into(), "carol".into()]),
        )
        .unwrap();
    let mut tree = Tree::new();
    tree.insert(
        RepoPath::new("s.txt"),
        (
            oid.clone(),
            Visibility::Restricted(vec!["alice".into(), "bob".into(), "carol".into()]),
        ),
    );
    alice
        .record(Change {
            id: Oid([0; 32]),
            parents: vec![],
            message: "add".into(),
            tree,
        })
        .unwrap();

    alice.maroon_hard(&RepoPath::new("s.txt"), "bob", 0).unwrap();
    let purge_bundle = alice.bundle(&vec![]).unwrap();

    // Carol applies — their key must NOT be removed (purge is only for bob).
    let mut carol = DagRepo::init(root(), "carol").unwrap();
    let init_bundle = alice.bundle(&vec![]).unwrap();
    carol.apply(&init_bundle, 0).unwrap();
    let key = alice.custody.keyring.key_for(&oid).unwrap();
    carol.custody.keyring.insert(oid.clone(), key);

    carol.apply(&purge_bundle, 0).unwrap();
    assert!(
        carol.custody.keyring.holds(&oid),
        "carol's key must NOT be purged"
    );
}

#[test]
fn authored_maroon_reseal_travels_only_after_signing() {
    // The regression behind the section-B grant/maroon demo: in an AUTHORED
    // repo the maroon re-seal change is recorded authored-but-unsigned, so —
    // like any working change — its new object is NOT offered for push
    //. The CLI must finalize it via
    // the returned change_id, after which the re-seal propagates. (Keyless
    // repos are unaffected: their unauthored changes always travel, which is
    // why the older maroon tests above never caught this.)
    let (sk, pk) = test_signer(11);
    let mut alice = DagRepo::init(root(), "alice").unwrap();
    alice.set_author(pk);
    let restricted = Visibility::Restricted(vec!["alice".into(), "bob".into()]);
    let oid = alice.put(b"secret", restricted.clone()).unwrap();
    let mut tree = Tree::new();
    tree.insert(RepoPath::new("s.txt"), (oid, restricted));
    let add_id = alice
        .record(Change {
            id: Oid([0; 32]),
            parents: vec![],
            message: "add".into(),
            tree,
        })
        .unwrap();
    // Sign the finalize message (`version_id ‖ change_id`), exactly
    // as the workspace does — an authored change now carries a minted change id.
    let add_cid = alice.change_change_id(&add_id);
    alice
        .attach_signature(
            &add_id,
            sk.sign(&change_signing_message(&add_id, &add_cid))
                .to_bytes(),
        )
        .unwrap();

    let res = alice.maroon_hard(&RepoPath::new("s.txt"), "bob", 0).unwrap();
    assert!(
        !alice.offered_objects(&vec![]).contains(&res.new_oid),
        "an unsigned maroon re-seal must not be offered (it would strand on the originator)"
    );

    // Finalize exactly as `cmd_maroon` now does.
    let res_cid = alice.change_change_id(&res.change_id);
    alice
        .attach_signature(
            &res.change_id,
            sk.sign(&change_signing_message(&res.change_id, &res_cid))
                .to_bytes(),
        )
        .unwrap();
    assert!(
        alice.offered_objects(&vec![]).contains(&res.new_oid),
        "after signing, the maroon re-seal must be offered so peers receive it"
    );
}

/// A deterministic ed25519 test keypair (seeded, no RNG needed). Duplicated
/// from `engine::tests` — small and pure, cheaper to duplicate than
/// to share across the two test modules.
fn test_signer(seed: u8) -> (ed25519_dalek::SigningKey, [u8; 32]) {
    let sk = ed25519_dalek::SigningKey::from_bytes(&[seed; 32]);
    let pk = sk.verifying_key().to_bytes();
    (sk, pk)
}

// --- migrate ---

#[test]
fn custody_migrate_restricted_to_public_drops_key_guard() {
    let mut alice = DagRepo::init(root(), "alice").unwrap();
    let oid = alice
        .put(b"was secret", Visibility::Restricted(vec!["alice".into()]))
        .unwrap();
    let mut tree = Tree::new();
    tree.insert(
        RepoPath::new("f.txt"),
        (oid.clone(), Visibility::Restricted(vec!["alice".into()])),
    );
    alice
        .record(Change {
            id: Oid([0; 32]),
            parents: vec![],
            message: "add".into(),
            tree,
        })
        .unwrap();

    let result = alice
        .migrate(&RepoPath::new("f.txt"), Visibility::Public, 0)
        .unwrap();
    let new_oid = result.new_oid;

    // The re-sealed content should be readable by anyone holding the key.
    let plaintext = alice.get(&new_oid, "alice", 0).unwrap();
    assert_eq!(plaintext, b"was secret");
}

#[test]
fn custody_migrate_public_to_restricted_gates_access() {
    let mut alice = DagRepo::init(root(), "alice").unwrap();
    let oid = alice.put(b"now secret", Visibility::Public).unwrap();
    let mut tree = Tree::new();
    tree.insert(RepoPath::new("f.txt"), (oid.clone(), Visibility::Public));
    alice
        .record(Change {
            id: Oid([0; 32]),
            parents: vec![],
            message: "add".into(),
            tree,
        })
        .unwrap();

    let result = alice
        .migrate(
            &RepoPath::new("f.txt"),
            Visibility::Restricted(vec!["alice".into()]),
            0,
        )
        .unwrap();
    let new_oid = result.new_oid;

    // Alice can read.
    assert_eq!(alice.get(&new_oid, "alice", 0).unwrap(), b"now secret");
}

#[test]
fn custody_migrate_produces_grants_for_restricted_identities() {
    let mut alice = DagRepo::init(root(), "alice").unwrap();
    let oid = alice.put(b"data", Visibility::Public).unwrap();
    let mut tree = Tree::new();
    tree.insert(RepoPath::new("f.txt"), (oid.clone(), Visibility::Public));
    alice
        .record(Change {
            id: Oid([0; 32]),
            parents: vec![],
            message: "add".into(),
            tree,
        })
        .unwrap();

    let result = alice
        .migrate(
            &RepoPath::new("f.txt"),
            Visibility::Restricted(vec!["alice".into(), "bob".into()]),
            0,
        )
        .unwrap();

    // bob should receive a grant bundle.
    assert!(
        result.grants.iter().any(|(g, _)| g == "bob"),
        "bob must receive a grant bundle"
    );
}

#[test]
fn custody_migrate_unknown_path_is_not_found() {
    let mut alice = DagRepo::init(root(), "alice").unwrap();
    let result = alice.migrate(&RepoPath::new("nonexistent.txt"), Visibility::Public, 0);
    assert!(matches!(result, Err(RepoError::NotFound(_))));
}

// --- golden-byte fixtures + major-rejection for the manifest/purges codecs
// ---

// manifest: one entry — oid=[1;32], grantee="bob", grantee_pubkey=[2;32],
//           grantor_pubkey=[3;32], granted_at=42.
// Layout: [major=1][minor=0][count=1 u32le][oid 32][put_bytes("bob")=7][grantee_pk 32][grantor_pk 32][granted_at u64le]
const GOLDEN_MANIFEST_V1: [u8; 117] = [
    1, 0, 1, 0, 0, 0, 1, 1, 1, 1, 1, 1, 1, 1, 1, 1, 1, 1, 1, 1, 1, 1, 1, 1, 1, 1, 1, 1, 1, 1,
    1, 1, 1, 1, 1, 1, 1, 1, // oid=[1;32]
    3, 0, 0, 0, 98, 111, 98, // put_bytes("bob")
    2, 2, 2, 2, 2, 2, 2, 2, 2, 2, 2, 2, 2, 2, 2, 2, 2, 2, 2, 2, 2, 2, 2, 2, 2, 2, 2, 2, 2, 2,
    2, 2, // grantee_pk=[2;32]
    3, 3, 3, 3, 3, 3, 3, 3, 3, 3, 3, 3, 3, 3, 3, 3, 3, 3, 3, 3, 3, 3, 3, 3, 3, 3, 3, 3, 3, 3,
    3, 3, // grantor_pk=[3;32]
    42, 0, 0, 0, 0, 0, 0, 0, // granted_at=42
];

// purges: one entry — oid=[6;32], identity="eve".
// Layout: [major=1][minor=0][count=1 u32le][oid 32][put_bytes("eve")=7]
const GOLDEN_PURGES_V1: [u8; 45] = [
    1, 0, 1, 0, 0, 0, 6, 6, 6, 6, 6, 6, 6, 6, 6, 6, 6, 6, 6, 6, 6, 6, 6, 6, 6, 6, 6, 6, 6, 6,
    6, 6, 6, 6, 6, 6, 6, 6, // oid=[6;32]
    3, 0, 0, 0, 101, 118, 101, // put_bytes("eve")
];

// v2 goldens (current format, FORMAT_MAJOR = 2). These layouts are
// unchanged from v1; only the marker byte differs.
const GOLDEN_MANIFEST_V2: [u8; 117] = [
    2, 0, 1, 0, 0, 0, 1, 1, 1, 1, 1, 1, 1, 1, 1, 1, 1, 1, 1, 1, 1, 1, 1, 1, 1, 1, 1, 1, 1, 1,
    1, 1, 1, 1, 1, 1, 1, 1, 3, 0, 0, 0, 98, 111, 98, 2, 2, 2, 2, 2, 2, 2, 2, 2, 2, 2, 2, 2, 2,
    2, 2, 2, 2, 2, 2, 2, 2, 2, 2, 2, 2, 2, 2, 2, 2, 2, 2, 3, 3, 3, 3, 3, 3, 3, 3, 3, 3, 3, 3,
    3, 3, 3, 3, 3, 3, 3, 3, 3, 3, 3, 3, 3, 3, 3, 3, 3, 3, 3, 3, 42, 0, 0, 0, 0, 0, 0, 0,
];
const GOLDEN_PURGES_V2: [u8; 45] = [
    2, 0, 1, 0, 0, 0, 6, 6, 6, 6, 6, 6, 6, 6, 6, 6, 6, 6, 6, 6, 6, 6, 6, 6, 6, 6, 6, 6, 6, 6,
    6, 6, 6, 6, 6, 6, 6, 6, 3, 0, 0, 0, 101, 118, 101,
];

// v3 goldens (current format, FORMAT_MAJOR = 3). None of these
// artifacts contain changes, so their layouts are unchanged from v2 — only
// the marker byte differs.
const GOLDEN_MANIFEST_V3: [u8; 117] = [
    3, 0, 1, 0, 0, 0, 1, 1, 1, 1, 1, 1, 1, 1, 1, 1, 1, 1, 1, 1, 1, 1, 1, 1, 1, 1, 1, 1, 1, 1,
    1, 1, 1, 1, 1, 1, 1, 1, 3, 0, 0, 0, 98, 111, 98, 2, 2, 2, 2, 2, 2, 2, 2, 2, 2, 2, 2, 2, 2,
    2, 2, 2, 2, 2, 2, 2, 2, 2, 2, 2, 2, 2, 2, 2, 2, 2, 2, 3, 3, 3, 3, 3, 3, 3, 3, 3, 3, 3, 3,
    3, 3, 3, 3, 3, 3, 3, 3, 3, 3, 3, 3, 3, 3, 3, 3, 3, 3, 3, 3, 42, 0, 0, 0, 0, 0, 0, 0,
];
const GOLDEN_PURGES_V3: [u8; 45] = [
    3, 0, 1, 0, 0, 0, 6, 6, 6, 6, 6, 6, 6, 6, 6, 6, 6, 6, 6, 6, 6, 6, 6, 6, 6, 6, 6, 6, 6, 6,
    6, 6, 6, 6, 6, 6, 6, 6, 3, 0, 0, 0, 101, 118, 101,
];

// v4 goldens (FORMAT_MAJOR = 4). manifest/purges layouts unchanged in S4 —
// only the marker.
const GOLDEN_MANIFEST_V4: [u8; 117] = [
    4, 0, 1, 0, 0, 0, 1, 1, 1, 1, 1, 1, 1, 1, 1, 1, 1, 1, 1, 1, 1, 1, 1, 1, 1, 1, 1, 1, 1, 1,
    1, 1, 1, 1, 1, 1, 1, 1, 3, 0, 0, 0, 98, 111, 98, 2, 2, 2, 2, 2, 2, 2, 2, 2, 2, 2, 2, 2, 2,
    2, 2, 2, 2, 2, 2, 2, 2, 2, 2, 2, 2, 2, 2, 2, 2, 2, 2, 3, 3, 3, 3, 3, 3, 3, 3, 3, 3, 3, 3,
    3, 3, 3, 3, 3, 3, 3, 3, 3, 3, 3, 3, 3, 3, 3, 3, 3, 3, 3, 3, 42, 0, 0, 0, 0, 0, 0, 0,
];
const GOLDEN_PURGES_V4: [u8; 45] = [
    4, 0, 1, 0, 0, 0, 6, 6, 6, 6, 6, 6, 6, 6, 6, 6, 6, 6, 6, 6, 6, 6, 6, 6, 6, 6, 6, 6, 6, 6,
    6, 6, 6, 6, 6, 6, 6, 6, 3, 0, 0, 0, 101, 118, 101,
];

fn sample_manifest() -> Manifest {
    let mut m = Manifest::new();
    m.record(Oid([1; 32]), "bob".to_string(), [2u8; 32], [3u8; 32], 42, None);
    m
}

#[test]
fn v1_manifest_still_decodes() {
    // Layout unchanged since v1; a v2 build still reads a v1 manifest.
    let back = decode_manifest(&GOLDEN_MANIFEST_V1).unwrap();
    let entries = back.grants_for(&Oid([1; 32]));
    assert_eq!(entries.len(), 1);
    assert_eq!(entries[0].grantee, "bob");
    assert_eq!(entries[0].granted_at, 42);
}

#[test]
fn v2_manifest_still_decodes() {
    assert_eq!(
        decode_manifest(&GOLDEN_MANIFEST_V2)
            .unwrap()
            .grants_for(&Oid([1; 32]))
            .len(),
        1
    );
}

#[test]
fn v3_manifest_still_decodes() {
    assert_eq!(
        decode_manifest(&GOLDEN_MANIFEST_V3)
            .unwrap()
            .grants_for(&Oid([1; 32]))
            .len(),
        1
    );
}

#[test]
fn v4_manifest_still_decodes() {
    // v5/v6/v7 durable manifest layouts stayed byte-identical to v4 apart
    // from the marker; v8 is the first layout change since v1 (an
    // appended optional expires_at) — a v8 reader still reads v4 bytes,
    // filling expires_at = None (never expires, the behavior).
    let back = decode_manifest(&GOLDEN_MANIFEST_V4).unwrap();
    let entries = back.grants_for(&Oid([1; 32]));
    assert_eq!(entries.len(), 1);
    assert_eq!(entries[0].expires_at, None);
}

#[test]
fn golden_v8_manifest_matches_and_round_trips_without_expiry() {
    // v8 appends an expires_at presence byte (+ 8-byte value when
    // present) per entry — the first manifest layout change since v1. An
    // entry without expires_at costs exactly one extra zero byte over the
    // v4 layout.
    let mut expected = GOLDEN_MANIFEST_V4.to_vec();
    expected[0] = FORMAT_MAJOR;
    expected.push(0); // expires_at presence = absent
    assert_eq!(
        encode_manifest(&sample_manifest()),
        expected,
        "v8 manifest layout (no expiry) must not drift"
    );
    let back = decode_manifest(&expected).unwrap();
    assert_eq!(back.grants_for(&Oid([1; 32]))[0].expires_at, None);
}

#[test]
fn golden_v8_manifest_matches_and_round_trips_with_expiry() {
    let mut m = Manifest::new();
    m.record(
        Oid([1; 32]),
        "bob".to_string(),
        [2u8; 32],
        [3u8; 32],
        42,
        Some(0x0102_0304_0506_0708),
    );
    let mut expected = GOLDEN_MANIFEST_V4.to_vec();
    expected[0] = FORMAT_MAJOR;
    expected.push(1); // expires_at presence = present
    expected.extend_from_slice(&0x0102_0304_0506_0708u64.to_le_bytes());
    assert_eq!(
        encode_manifest(&m),
        expected,
        "v8 manifest layout (with expiry) must not drift"
    );
    let back = decode_manifest(&expected).unwrap();
    assert_eq!(
        back.grants_for(&Oid([1; 32]))[0].expires_at,
        Some(0x0102_0304_0506_0708)
    );
}

#[test]
fn v1_purges_still_decodes() {
    let back = decode_purges(&GOLDEN_PURGES_V1).unwrap();
    assert_eq!(back.len(), 1);
    assert_eq!(back[0].0, Oid([6; 32]));
    assert_eq!(back[0].1, "eve");
}

#[test]
fn v2_purges_still_decodes() {
    assert_eq!(decode_purges(&GOLDEN_PURGES_V2).unwrap().len(), 1);
}

#[test]
fn v3_purges_still_decodes() {
    assert_eq!(decode_purges(&GOLDEN_PURGES_V3).unwrap().len(), 1);
}

#[test]
fn golden_v4_purges_matches_and_round_trips() {
    let purges = vec![(Oid([6; 32]), "eve".to_string())];
    let mut golden_v5 = GOLDEN_PURGES_V4.to_vec();
    golden_v5[0] = FORMAT_MAJOR;
    assert_eq!(
        encode_purges(&purges),
        golden_v5,
        "v5 purges layout must not drift"
    );
    assert_eq!(decode_purges(&GOLDEN_PURGES_V4).unwrap().len(), 1);
}

#[test]
fn decode_manifest_rejects_incompatible_future_major() {
    let mut bytes = encode_manifest(&sample_manifest());
    bytes[0] = FORMAT_MAJOR + 1;
    assert!(matches!(
        decode_manifest(&bytes),
        Err(RepoError::UnsupportedFormat { .. })
    ));
}

#[test]
fn decode_purges_rejects_incompatible_future_major() {
    let mut bytes = encode_purges(&vec![(Oid([6; 32]), "eve".to_string())]);
    bytes[0] = FORMAT_MAJOR + 1;
    assert!(matches!(
        decode_purges(&bytes),
        Err(RepoError::UnsupportedFormat { .. })
    ));
}
