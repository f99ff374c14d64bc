use loot::bundle_codec::{self, Frame};
use loot::engine::DagRepo;
use loot::format::FORMAT_MAJOR;
use loot::hex;
use loot::types::{Change, MergeOutcome, Oid, RepoError, RepoPath, Tree, Visibility};

fn root() -> String {
    "/work".to_string()
}

/// Leak guard: a Restricted content key must NEVER appear in a sync
/// bundle. Mint a restricted blob, capture its real content key from the
/// keyring, and assert the raw key bytes are absent from the wire. Public
/// keys may ride along; restricted ones may not.
#[test]
fn bundle_never_carries_restricted_keys() {
    let mut alice = DagRepo::init(root(), "alice").unwrap();
    let secret_oid = alice
        .put(b"TOKEN=supersecret\n", Visibility::Restricted(vec!["alice".into()]))
        .unwrap();
    let pub_oid = alice.put(b"readme\n", Visibility::Public).unwrap();

    let mut tree = Tree::new();
    tree.insert(RepoPath::new(".env"), (secret_oid.clone(), Visibility::Restricted(vec!["alice".into()])));
    tree.insert(RepoPath::new("README"), (pub_oid.clone(), Visibility::Public));
    alice
        .record(Change { id: Oid([0; 32]), parents: vec![], message: "m".into(), tree })
        .unwrap();

    let restricted_key = alice.custody.keyring.key_for(&secret_oid).expect("alice holds their key");
    let public_key = alice.custody.keyring.key_for(&pub_oid).expect("alice holds public key");

    let bundle = alice.bundle(&vec![]).unwrap();
    // Extract the payload past the tag and purge prefix.
    let payload = extract_sync_payload(&bundle.0);

    assert!(
        !contains_window(&payload, &restricted_key),
        "restricted content key leaked into the sync bundle"
    );
    assert!(
        contains_window(&payload, &public_key),
        "public content key should ride along for ANYONE-granted content"
    );
}

/// Leak guard: the sync wire must carry no plaintext-equality
/// oracle. Commit the SAME restricted plaintext into two repos; neither
/// bundle may contain blake3(plaintext), and the ciphertexts must differ.
#[test]
fn bundle_carries_no_plaintext_equality_oracle() {
    let secret = b"DUPLICATED SECRET VALUE";
    let plaintext_hash = *blake3::hash(secret).as_bytes();

    let bundle_for = |identity: &str| {
        let mut repo = DagRepo::init(root(), identity).unwrap();
        let oid = repo
            .put(secret, Visibility::Restricted(vec![identity.into()]))
            .unwrap();
        let mut tree = Tree::new();
        tree.insert(RepoPath::new(".env"), (oid, Visibility::Restricted(vec![identity.into()])));
        repo.record(Change { id: Oid([0; 32]), parents: vec![], message: "m".into(), tree })
            .unwrap();
        repo.bundle(&vec![]).unwrap().0
    };

    let a = bundle_for("alice");
    let b = bundle_for("bob");

    assert!(!contains_window(&a, &plaintext_hash));
    assert!(!contains_window(&b, &plaintext_hash));

    let ct_a = single_ciphertext(&a);
    let ct_b = single_ciphertext(&b);
    assert_ne!(ct_a, ct_b, "same plaintext must not produce equal ciphertext on the wire");
}

fn single_ciphertext(bundle: &[u8]) -> Vec<u8> {
    let payload = extract_sync_payload(bundle);
    let (_changes, objs, _keys, _attestations) = bundle_codec::decode(&payload, FORMAT_MAJOR).unwrap();
    assert_eq!(objs.len(), 1, "test fixture commits exactly one object");
    objs.into_iter().next().unwrap().1.ciphertext
}

fn contains_window(haystack: &[u8], needle: &[u8]) -> bool {
    haystack.windows(needle.len()).any(|w| w == needle)
}

/// The body of a sync bundle, without its frame.
fn extract_sync_payload(bundle: &[u8]) -> Vec<u8> {
    let Frame::Sync { body, .. } = Frame::decode(bundle).unwrap() else {
        panic!("expected sync bundle");
    };
    bundle_codec::encode(&body.changes, &body.objs, &body.keys, &body.attestations)
}

/// A repo survives save -> load with identity, content, history,
/// and key custody intact — so a process-per-command CLI works.
#[test]
fn save_load_round_trips() {
    let mut repo = DagRepo::init(root(), "alice").unwrap();
    let secret_oid = repo
        .put(b"TOKEN=abc\n", Visibility::Restricted(vec!["alice".into()]))
        .unwrap();
    let pub_oid = repo.put(b"hi\n", Visibility::Public).unwrap();
    let mut tree = Tree::new();
    tree.insert(RepoPath::new(".env"), (secret_oid.clone(), Visibility::Restricted(vec!["alice".into()])));
    tree.insert(RepoPath::new("README"), (pub_oid, Visibility::Public));
    let change_id = repo
        .record(Change { id: Oid([0; 32]), parents: vec![], message: "init".into(), tree })
        .unwrap();
    let files = repo.save(&vec![]);

    let loaded = DagRepo::load(&files, root()).unwrap();
    // Identity preserved -> alice can still decrypt their restricted content.
    assert_eq!(loaded.get(&secret_oid, "alice", 0).unwrap(), b"TOKEN=abc\n");
    // A peer that never received the key cannot read — confirmed by checking
    // that a fresh repo without the key returns NotFound for the oid.
    // (Holding the key IS authorization; an identity
    // that was never granted the key simply won't have it in their keyring.)
    let mallory_repo = DagRepo::init(root(), "mallory").unwrap();
    assert!(matches!(
        mallory_repo.get(&secret_oid, "mallory", 0),
        Err(RepoError::NotFound(_))
    ));
    // History preserved.
    assert!(loaded.heads().contains(&change_id));
}

#[test]
fn save_writes_objects_as_loose_immutable_files() {
    // Each object is its own content-addressed file, written once. A second save
    // after adding one object writes only the new file.
    let mut repo = DagRepo::init(root(), "alice").unwrap();
    let a = repo.put(b"first\n", Visibility::Public).unwrap();
    let first = repo.save(&vec![]);
    let name_a = hex::encode(&a.0);
    assert_eq!(first.objects.len(), 1);
    assert_eq!(first.objects[0].0, name_a, "object A should be a loose file named by its address");

    // Add a second object and save again.
    let b = repo.put(b"second\n", Visibility::Public).unwrap();
    let second = repo.save(&vec![name_a.clone()]);

    // A's file is untouched; B's file is new.
    assert_eq!(second.objects.len(), 1, "existing object file must not be rewritten");
    assert_eq!(second.objects[0].0, hex::encode(&b.0), "new object B should have its own file");
}

// --- multi-head log display ---

fn empty_change(parents: Vec<Oid>, message: &str) -> Change {
    Change { id: Oid([0; 32]), parents, message: message.into(), tree: Tree::new() }
}

#[test]
fn log_graph_single_head_is_linear() {
    let mut repo = DagRepo::init(root(), "alice").unwrap();
    let root = repo.record(empty_change(vec![], "root")).unwrap();
    let tip = repo.record(empty_change(vec![root.clone()], "tip")).unwrap();

    let g = repo.log_graph();
    assert_eq!(g.heads, vec![tip.clone()], "one head: the tip");
    // Every change is reachable from the single head (index 0).
    for node in &g.changes {
        assert_eq!(node.reachable_from, vec![0]);
    }
    // Children-first ordering: the tip precedes its ancestor.
    let ids: Vec<&Oid> = g.changes.iter().map(|n| &n.id).collect();
    assert_eq!(ids, vec![&tip, &root]);
}

#[test]
fn log_graph_shows_two_diverged_heads() {
    let mut repo = DagRepo::init(root(), "alice").unwrap();
    let root = repo.record(empty_change(vec![], "root")).unwrap();
    let a = repo.record(empty_change(vec![root.clone()], "head A")).unwrap();
    let b = repo.record(empty_change(vec![root.clone()], "head B")).unwrap();

    let g = repo.log_graph();
    assert_eq!(g.heads.len(), 2);
    assert!(g.heads.contains(&a) && g.heads.contains(&b));

    let find = |id: &Oid| g.changes.iter().find(|n| &n.id == id).unwrap();
    // Root is shared by both heads; each tip is unique to one head.
    assert_eq!(find(&root).reachable_from.len(), 2, "root shared across the divergence");
    assert_eq!(find(&a).reachable_from.len(), 1);
    assert_eq!(find(&b).reachable_from.len(), 1);
    assert_ne!(
        find(&a).reachable_from,
        find(&b).reachable_from,
        "the two tips belong to different heads"
    );
}

#[test]
fn log_graph_shows_three_diverged_heads() {
    let mut repo = DagRepo::init(root(), "alice").unwrap();
    let root = repo.record(empty_change(vec![], "root")).unwrap();
    let a = repo.record(empty_change(vec![root.clone()], "head A")).unwrap();
    let b = repo.record(empty_change(vec![root.clone()], "head B")).unwrap();
    let c = repo.record(empty_change(vec![root.clone()], "head C")).unwrap();

    let g = repo.log_graph();
    assert_eq!(g.heads.len(), 3);
    for h in [&a, &b, &c] {
        assert!(g.heads.contains(h), "each tip is a head");
    }
    let find = |id: &Oid| g.changes.iter().find(|n| &n.id == id).unwrap();
    assert_eq!(find(&root).reachable_from.len(), 3, "root shared by all three heads");
    assert_eq!(find(&a).reachable_from.len(), 1);
    assert_eq!(find(&b).reachable_from.len(), 1);
    assert_eq!(find(&c).reachable_from.len(), 1);
}

// --- snapshot / reconcile ---

fn entry(path: &str, body: &[u8], vis: Visibility) -> (RepoPath, Vec<u8>, Visibility) {
    (RepoPath::new(path), body.to_vec(), vis)
}

#[test]
fn snapshot_rewrites_working_change_in_place() {
    let mut repo = DagRepo::init(root(), "alice").unwrap();
    let w1 = repo
        .snapshot(None, &vec![entry("a.txt", b"one", Visibility::Public)], "wip", 0)
        .unwrap();
    // Re-snapshot with new content -> same working slot, not a second change.
    let w2 = repo
        .snapshot(Some(&w1), &vec![entry("a.txt", b"two", Visibility::Public)], "wip", 0)
        .unwrap();
    assert_eq!(repo.log().len(), 1, "working change rewritten, not appended");
    assert!(repo.heads().contains(&w2));
    // Latest content wins.
    let tree = repo.graph.current_tree();
    let oid = &tree.get(&RepoPath::new("a.txt")).unwrap().0;
    assert_eq!(repo.get(oid, "alice", 0).unwrap(), b"two");
}

#[test]
fn a_snapshot_of_an_unchanged_tree_changes_nothing() {
    let mut repo = DagRepo::init(root(), "alice").unwrap();
    let files = vec![
        entry("a.txt", b"one", Visibility::Public),
        entry(".env", b"SECRET", Visibility::Restricted(vec!["alice".into()])),
    ];
    let w1 = repo.snapshot(None, &files, "wip", 0).unwrap();
    let oid = repo.graph.current_tree().get(&RepoPath::new("a.txt")).unwrap().0;
    let w2 = repo.snapshot(Some(&w1), &files, "wip", 0).unwrap();
    assert_eq!(w1, w2);
    assert_eq!(repo.log().len(), 1);
    assert_eq!(repo.heads(), vec![w1]);
    assert_eq!(repo.graph.current_tree().get(&RepoPath::new("a.txt")).unwrap().0, oid);

    // Another message, visibility or file is another snapshot.
    let w3 = repo.snapshot(Some(&w2), &files, "described", 0).unwrap();
    assert_ne!(w2, w3);
    let public = vec![
        entry("a.txt", b"one", Visibility::Public),
        entry(".env", b"SECRET", Visibility::Public),
    ];
    let w4 = repo.snapshot(Some(&w3), &public, "described", 0).unwrap();
    assert_ne!(w3, w4);
    let fewer = vec![entry("a.txt", b"one", Visibility::Public)];
    let w5 = repo.snapshot(Some(&w4), &fewer, "described", 0).unwrap();
    assert_ne!(w4, w5);
    assert_eq!(repo.log().len(), 1);
}

#[test]
fn snapshot_deletes_a_visible_path_absent_from_the_tree() {
    let mut repo = DagRepo::init(root(), "alice").unwrap();
    let w = repo
        .snapshot(
            None,
            &vec![
                entry("keep.txt", b"k", Visibility::Public),
                entry("gone.txt", b"g", Visibility::Public),
            ],
            "wip",
            0,
        )
        .unwrap();
    // Re-snapshot with gone.txt removed from the tree -> it's deleted.
    let w2 = repo
        .snapshot(Some(&w), &vec![entry("keep.txt", b"k", Visibility::Public)], "wip", 0)
        .unwrap();
    let tree = repo.graph.current_tree();
    assert!(tree.contains_key(&RepoPath::new("keep.txt")));
    assert!(!tree.contains_key(&RepoPath::new("gone.txt")), "visible+absent => deleted");
    let _ = w2;
}

#[test]
fn non_keyholder_snapshot_preserves_sealed_content() {
    // The core safety property: a non-keyholder snapshotting their
    // partial tree must NOT delete the sealed file they cannot see.
    // Build a repo where alice committed a restricted .env + public README.
    let mut alice = DagRepo::init(root(), "alice").unwrap();
    let _ = alice
        .snapshot(
            None,
            &vec![
                entry(".env", b"SECRET", Visibility::Restricted(vec!["alice".into()])),
                entry("README", b"hi", Visibility::Public),
            ],
            "init",
            0,
        )
        .unwrap();
    // Sync the full history to bob (non-keyholder) via a bundle.
    let bundle = alice.bundle(&vec![]).unwrap();
    let mut bob = DagRepo::init(root(), "bob").unwrap();
    bob.apply(&bundle, 0).unwrap();

    // Bob's visible tree is README only (they can't open .env). They have no
    // working change yet (just applied finalized history), so working=None:
    // their snapshot appends on alice's change, carrying .env forward.
    let sealed_env_oid = bob.graph.current_tree().get(&RepoPath::new(".env")).unwrap().0.clone();
    bob.snapshot(
        None,
        &vec![entry("README", b"hi edited by bob", Visibility::Public)],
        "bob edits readme",
        0,
    )
    .unwrap();

    // .env must still be present in bob's tree, carried forward as ciphertext.
    let tree = bob.graph.current_tree();
    assert!(tree.contains_key(&RepoPath::new(".env")), ".env must survive bob's snapshot");
    assert_eq!(tree.get(&RepoPath::new(".env")).unwrap().0, sealed_env_oid, ".env carried forward unchanged");
    // And bob still cannot read it.
    assert!(matches!(
        bob.get(&sealed_env_oid, "bob", 0),
        Err(RepoError::Unauthorized(_))
    ));
}

#[test]
fn snapshot_refuses_write_onto_sealed_invisible_path() {
    // Bob (non-keyholder) tries to write their own .env where alice's sealed
    // .env already lives -> refused, no silent clobber.
    let mut alice = DagRepo::init(root(), "alice").unwrap();
    let _ = alice
        .snapshot(
            None,
            &vec![entry(".env", b"ALICE", Visibility::Restricted(vec!["alice".into()]))],
            "init",
            0,
        )
        .unwrap();
    let bundle = alice.bundle(&vec![]).unwrap();
    let mut bob = DagRepo::init(root(), "bob").unwrap();
    bob.apply(&bundle, 0).unwrap();

    let result = bob.snapshot(
        None,
        &vec![entry(".env", b"BOB", Visibility::Restricted(vec!["bob".into()]))],
        "bob writes own env",
        0,
    );
    assert!(matches!(result, Err(RepoError::Backend(_))), "must refuse the collision");
}

// --- conflicts ---

#[test]
fn conflicts_recorded_on_apply() {
    // Two peers both edit the same public file (both are keyholders) with
    // divergent content, so the classifier produces Conflict.
    let mut alice = DagRepo::init(root(), "alice").unwrap();
    let mut bob = DagRepo::init(root(), "bob").unwrap();

    // Shared base.
    let oid_base = alice.put(b"base\n", Visibility::Public).unwrap();
    let mut base_tree = Tree::new();
    base_tree.insert(RepoPath::new("f.txt"), (oid_base.clone(), Visibility::Public));
    alice.record(Change { id: Oid([0; 32]), parents: vec![], message: "base".into(), tree: base_tree }).unwrap();
    let seed = alice.bundle(&vec![]).unwrap();
    bob.apply(&seed, 0).unwrap();

    // Divergent edits.
    let oid_alice = alice.put(b"alice edit\n", Visibility::Public).unwrap();
    let mut alice_tree = Tree::new();
    alice_tree.insert(RepoPath::new("f.txt"), (oid_alice, Visibility::Public));
    alice.record(Change { id: Oid([0; 32]), parents: alice.graph.heads(), message: "alice".into(), tree: alice_tree }).unwrap();

    let oid_bob = bob.put(b"bob edit\n", Visibility::Public).unwrap();
    let mut bob_tree = Tree::new();
    bob_tree.insert(RepoPath::new("f.txt"), (oid_bob.clone(), Visibility::Public));
    bob.record(Change { id: Oid([0; 32]), parents: bob.graph.heads(), message: "bob".into(), tree: bob_tree }).unwrap();

    // Bob applies alice's bundle.
    let alice_bundle = alice.bundle(&bob.heads()).unwrap();
    let outcomes = bob.apply(&alice_bundle, 0).unwrap();

    let f_outcome = outcomes.get(&RepoPath::new("f.txt"));
    assert!(
        matches!(f_outcome, Some(MergeOutcome::Conflict { .. })),
        "divergent edits must produce Conflict"
    );
    assert!(bob.conflicts.contains_key(&RepoPath::new("f.txt")), "conflict must be recorded");
}

// --- relay stow ---

#[test]
fn stow_stores_restricted_ciphertext_without_its_key_and_never_merges() {
    // A relay stows alice's bundle carrying RESTRICTED content. It gains the
    // ciphertext and the change as a tip, but receives no restricted key
    // (those never travel), so it cannot read it. It also records
    // no conflict and surfaces no working tree: storage + forwarding only.
    let mut alice = DagRepo::init(root(), "alice").unwrap();
    let restricted = Visibility::Restricted(vec!["alice".into()]);
    let oid = alice.put(b"secret\n", restricted.clone()).unwrap();
    let mut tree = Tree::new();
    tree.insert(RepoPath::new(".env"), (oid.clone(), restricted));
    let change_id = alice
        .record(Change { id: Oid([0; 32]), parents: vec![], message: "init".into(), tree })
        .unwrap();
    let bundle = alice.bundle(&vec![]).unwrap();

    let mut relay = DagRepo::init(root(), "relay").unwrap();
    relay.stow(&bundle).unwrap();

    // Object stored as ciphertext; the change is now a tip.
    assert!(relay.objects.get(&oid).is_ok(), "relay must store the ciphertext");
    assert!(relay.heads().contains(&change_id), "relay must hold the change");
    // The relay holds no key for restricted content and cannot read it.
    assert!(!relay.custody.keyring.holds(&oid), "a relay must never hold a restricted key");
    assert!(relay.get(&oid, "relay", 0).is_err(), "relay must not read restricted content");
    // Nothing classified, nothing conflicted.
    assert!(relay.conflicts.is_empty(), "stow must never record a conflict");
}

#[test]
fn stow_forwards_public_keys_so_downstream_peers_can_read() {
    // Public content is ANYONE-granted, so its key travels in every sync
    // bundle. A relay must retain that key and forward it, or a
    // downstream peer would receive unreadable public ciphertext.
    let mut alice = DagRepo::init(root(), "alice").unwrap();
    let oid = alice.put(b"readme\n", Visibility::Public).unwrap();
    let mut tree = Tree::new();
    tree.insert(RepoPath::new("README"), (oid.clone(), Visibility::Public));
    alice.record(Change { id: Oid([0; 32]), parents: vec![], message: "init".into(), tree }).unwrap();

    let mut relay = DagRepo::init(root(), "relay").unwrap();
    relay.stow(&alice.bundle(&vec![]).unwrap()).unwrap();

    // A fresh peer pulls from the relay and can read the public content.
    let mut bob = DagRepo::init(root(), "bob").unwrap();
    bob.apply(&relay.bundle(&vec![]).unwrap(), 0).unwrap();
    assert_eq!(bob.get(&oid, "bob", 0).unwrap(), b"readme\n", "public content must survive the relay hop");
}

#[test]
fn stow_accumulates_concurrent_forks_without_conflict() {
    // Two peers fork from a shared base. A relay stows both. The relay's
    // graph holds both tips (a fork) and records no conflict — convergence
    // is the keyholders' job on pull, not the relay's.
    let mut alice = DagRepo::init(root(), "alice").unwrap();
    let base_oid = alice.put(b"base\n", Visibility::Public).unwrap();
    let mut base_tree = Tree::new();
    base_tree.insert(RepoPath::new("f.txt"), (base_oid, Visibility::Public));
    alice.record(Change { id: Oid([0; 32]), parents: vec![], message: "base".into(), tree: base_tree }).unwrap();

    let mut relay = DagRepo::init(root(), "relay").unwrap();
    relay.stow(&alice.bundle(&vec![]).unwrap()).unwrap();

    // Bob clones the base off the relay's state by applying the same seed.
    let mut bob = DagRepo::init(root(), "bob").unwrap();
    bob.apply(&alice.bundle(&vec![]).unwrap(), 0).unwrap();

    // Divergent edits on the same path.
    let a_oid = alice.put(b"alice\n", Visibility::Public).unwrap();
    let mut a_tree = Tree::new();
    a_tree.insert(RepoPath::new("f.txt"), (a_oid, Visibility::Public));
    alice.record(Change { id: Oid([0; 32]), parents: alice.graph.heads(), message: "a".into(), tree: a_tree }).unwrap();

    let b_oid = bob.put(b"bob\n", Visibility::Public).unwrap();
    let mut b_tree = Tree::new();
    b_tree.insert(RepoPath::new("f.txt"), (b_oid, Visibility::Public));
    bob.record(Change { id: Oid([0; 32]), parents: bob.graph.heads(), message: "b".into(), tree: b_tree }).unwrap();

    // Relay stows both pushes. No merge, no conflict — just two tips.
    relay.stow(&alice.bundle(&vec![]).unwrap()).unwrap();
    relay.stow(&bob.bundle(&vec![]).unwrap()).unwrap();

    assert!(relay.conflicts.is_empty(), "relay must never manufacture a conflict");
    assert!(relay.heads().len() >= 2, "relay must hold the forked tips, uncollapsed");
}

#[test]
fn stow_rejects_grant_bundles() {
    // A grant bundle (tag 1) is a targeted key handoff — meaningless to a
    // keyless relay. Stow rejects it rather than silently dropping it.
    let mut alice = DagRepo::init(root(), "alice").unwrap();
    let oid = alice.put(b"secret\n", Visibility::Restricted(vec!["alice".into()])).unwrap();
    let mut tree = Tree::new();
    tree.insert(RepoPath::new(".env"), (oid.clone(), Visibility::Restricted(vec!["alice".into()])));
    alice.record(Change { id: Oid([0; 32]), parents: vec![], message: "init".into(), tree }).unwrap();
    let grant = alice.grant(&oid, "bob", 0, None).unwrap();

    let mut relay = DagRepo::init(root(), "relay").unwrap();
    assert!(matches!(relay.stow(&grant), Err(RepoError::Backend(_))), "relay must reject grant bundles");
}

#[test]
fn stow_forwards_purges_downstream() {
    // A hard-maroon purge event rides a sync bundle. A relay stows it,
    // holds no keyring entry to remove, but re-emits the purge in its own
    // bundle so a downstream marooned peer still receives it.
    let mut alice = DagRepo::init(root(), "alice").unwrap();
    let oid = alice.put(b"code\n", Visibility::Restricted(vec!["alice".into(), "bob".into()])).unwrap();
    let mut tree = Tree::new();
    tree.insert(RepoPath::new("src.rs"), (oid.clone(), Visibility::Restricted(vec!["alice".into(), "bob".into()])));
    alice.record(Change { id: Oid([0; 32]), parents: vec![], message: "init".into(), tree }).unwrap();
    // Grant bob so the manifest knows them, then hard-maroon them.
    alice.grant(&oid, "bob", 0, None).unwrap();
    alice.maroon_hard(&RepoPath::new("src.rs"), "bob", 1).unwrap();

    let mut relay = DagRepo::init(root(), "relay").unwrap();
    relay.stow(&alice.bundle(&vec![]).unwrap()).unwrap();

    // The relay re-emits the purge in its own outgoing bundle.
    let relay_out = relay.bundle(&vec![]).unwrap();
    let purges = match Frame::decode(&relay_out.0).unwrap() {
        Frame::Sync { purges, .. } => purges,
        _ => panic!("relay bundle must be a sync frame"),
    };
    assert!(
        purges.iter().any(|(o, who)| *o == oid && who == "bob"),
        "relay must forward the purge event downstream"
    );
}

#[test]
fn resolve_clears_conflict_and_updates_tree() {
    let mut alice = DagRepo::init(root(), "alice").unwrap();
    let mut bob = DagRepo::init(root(), "bob").unwrap();

    // Shared base.
    let oid_base = alice.put(b"base\n", Visibility::Public).unwrap();
    let mut base_tree = Tree::new();
    base_tree.insert(RepoPath::new("f.txt"), (oid_base.clone(), Visibility::Public));
    alice.record(Change { id: Oid([0; 32]), parents: vec![], message: "base".into(), tree: base_tree }).unwrap();
    let seed = alice.bundle(&vec![]).unwrap();
    bob.apply(&seed, 0).unwrap();

    // Divergent edits.
    let oid_alice = alice.put(b"alice\n", Visibility::Public).unwrap();
    let mut alice_tree = Tree::new();
    alice_tree.insert(RepoPath::new("f.txt"), (oid_alice, Visibility::Public));
    alice.record(Change { id: Oid([0; 32]), parents: alice.graph.heads(), message: "alice".into(), tree: alice_tree }).unwrap();

    let oid_bob_edit = bob.put(b"bob\n", Visibility::Public).unwrap();
    let mut bob_tree = Tree::new();
    bob_tree.insert(RepoPath::new("f.txt"), (oid_bob_edit.clone(), Visibility::Public));
    bob.record(Change { id: Oid([0; 32]), parents: bob.graph.heads(), message: "bob".into(), tree: bob_tree }).unwrap();

    let alice_bundle = alice.bundle(&bob.heads()).unwrap();
    bob.apply(&alice_bundle, 0).unwrap();

    // Ensure conflict is recorded.
    assert!(bob.conflicts.contains_key(&RepoPath::new("f.txt")));

    // Resolve.
    let resolution = b"resolved content\n";
    let new_oid = bob.resolve(&RepoPath::new("f.txt"), resolution, Visibility::Public).unwrap();

    // Conflict cleared.
    assert!(!bob.conflicts.contains_key(&RepoPath::new("f.txt")), "conflict must be cleared after resolve");

    // Tree updated.
    let tree = bob.graph.current_tree();
    assert_eq!(tree.get(&RepoPath::new("f.txt")).unwrap().0, new_oid, "tree must point to resolution oid");
}

#[test]
fn resolve_unknown_path_errors() {
    let mut alice = DagRepo::init(root(), "alice").unwrap();
    let result = alice.resolve(&RepoPath::new("no-conflict.txt"), b"resolution", Visibility::Public);
    assert!(matches!(result, Err(RepoError::Backend(_))), "unknown path must error");
}

#[test]
fn conflicts_survive_save_load() {
    let mut repo = DagRepo::init(root(), "alice").unwrap();
    // Manually insert a conflict to test persistence.
    repo.conflicts.insert(
        RepoPath::new("f.txt"),
        (Oid([1; 32]), Oid([2; 32])),
    );
    let files = repo.save(&vec![]);

    let loaded = DagRepo::load(&files, root()).unwrap();
    assert!(loaded.conflicts.contains_key(&RepoPath::new("f.txt")), "conflict must survive save/load");
    let (ours, theirs) = loaded.conflicts.get(&RepoPath::new("f.txt")).unwrap();
    assert_eq!(*ours, Oid([1; 32]));
    assert_eq!(*theirs, Oid([2; 32]));
}

#[test]
fn the_text_of_a_path_goes_into_files_and_reports() {
    let mut repo = DagRepo::init(root(), "alice").unwrap();
    let w = repo.snapshot(None, &vec![entry("a//b", b"one", Visibility::Public)], "wip", 0).unwrap();
    repo.conflicts.insert(RepoPath::new("c/./d"), (Oid([1; 32]), Oid([2; 32])));
    let loaded = DagRepo::load(&repo.save(&vec![]), root()).unwrap();
    let files = loaded.surface(&w, "alice", 0).unwrap();
    assert_eq!(files.len(), 1);
    assert_eq!(files[0].0.as_str(), "a//b");
    assert_eq!(files[0].2, b"one");
    assert_eq!(loaded.conflicts.path_at(0).as_str(), "c/./d");
    assert!(loaded.conflicts.contains_key(&RepoPath::new("c/d")));

    // The same content under another text of the path is another snapshot.
    let again = repo.snapshot(Some(&w), &vec![entry("a/b", b"one", Visibility::Public)], "wip", 0).unwrap();
    assert_ne!(w, again);
    assert_eq!(repo.log().len(), 1);
    assert_eq!(repo.graph.current_tree().path_at(0).as_str(), "a/b");
}

#[test]
fn a_conflict_is_settled_under_any_text_of_its_path() {
    let mut repo = DagRepo::init(root(), "alice").unwrap();
    repo.conflicts.insert(RepoPath::new("c//d"), (Oid([1; 32]), Oid([2; 32])));
    let oid = repo.resolve(&RepoPath::new("c/d"), b"settled", Visibility::Public).unwrap();
    assert!(repo.conflicts.is_empty());
    assert_eq!(repo.log()[0].1, "resolve conflict at c/d");
    assert_eq!(repo.graph.current_tree().get(&RepoPath::new("c//d")).unwrap().0, oid);
}
