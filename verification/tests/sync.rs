use loot::burn::{BurnTier, Tombstone};
use loot::engine::change_graph::change_signing_message;
use loot::engine::merge::CarryOutcome;
use loot::engine::DagRepo;
use loot::identity::Identity;
use loot::repo::Repo;
use loot::types::{Change, MergeOutcome, Oid, RepoError, RepoPath, SyncBundle, Tree, Visibility};

fn repo(identity: &str) -> DagRepo {
    DagRepo::init("/work".to_string(), identity).unwrap()
}

/// Records a change of these files, each public.
fn commit(repo: &mut DagRepo, parents: Vec<Oid>, message: &str, files: &[(&str, &str)]) -> Oid {
    let mut tree = Tree::new();
    for (path, body) in files {
        let oid = repo.put(body.as_bytes(), Visibility::Public).unwrap();
        tree.insert(RepoPath::new(path), (oid, Visibility::Public));
    }
    repo.record(Change { id: Oid([0; 32]), parents, message: message.into(), tree }).unwrap()
}

fn sign(repo: &mut DagRepo, id: &Identity, change: &Oid) {
    let cid = repo.change_change_id(change);
    let signature = id.sign(&change_signing_message(change, &cid));
    repo.attach_signature(change, signature).unwrap();
}

fn content(repo: &DagRepo, head: &Oid, path: &str) -> String {
    let tree = repo.graph.tree_at(head);
    let oid = tree.get(&RepoPath::new(path)).unwrap().0;
    let identity = repo.identity.clone();
    String::from_utf8(repo.get(&oid, &identity, 0).unwrap()).unwrap()
}

fn everything(repo: &DagRepo) -> SyncBundle {
    repo.bundle(&vec![]).unwrap()
}

#[test]
fn applying_twice_changes_nothing_more() {
    let mut alice = repo("alice");
    let a = commit(&mut alice, vec![], "a", &[("f.txt", "one\n")]);
    commit(&mut alice, vec![a], "b", &[("f.txt", "one\ntwo\n")]);
    let bundle = everything(&alice);

    let mut bob = repo("bob");
    bob.apply(&bundle, 0).unwrap();
    let once = bob.save(&vec![]);
    bob.apply(&bundle, 0).unwrap();
    let twice = bob.save(&vec![]);
    assert_eq!(once.graph, twice.graph);
    assert_eq!(once.objects, twice.objects);
    assert_eq!(once.keyring, twice.keyring);
}

#[test]
fn an_unsigned_change_stays_until_it_is_signed() {
    let id = Identity::from_seed([1; 32]);
    let mut alice = repo("alice");
    alice.set_author(id.public_key_bytes());
    let a = commit(&mut alice, vec![], "a", &[("f.txt", "x")]);
    assert!(alice.has_unsigned_tip());
    assert!(alice.offered_objects(&vec![]).is_empty());
    let mut bob = repo("bob");
    bob.apply(&everything(&alice), 0).unwrap();
    assert!(bob.heads().is_empty());

    sign(&mut alice, &id, &a);
    assert!(!alice.has_unsigned_tip());
    bob.apply(&everything(&alice), 0).unwrap();
    assert_eq!(bob.heads(), vec![a]);
    assert_eq!(content(&bob, &a, "f.txt"), "x");
}

#[test]
fn a_wrong_signature_is_refused() {
    let id = Identity::from_seed([1; 32]);
    let other = Identity::from_seed([2; 32]);
    let mut alice = repo("alice");
    alice.set_author(id.public_key_bytes());
    let a = commit(&mut alice, vec![], "a", &[("f.txt", "x")]);
    sign(&mut alice, &other, &a);
    let bundle = everything(&alice);
    let mut bob = repo("bob");
    assert!(matches!(bob.apply(&bundle, 0), Err(RepoError::Backend(_))));
    assert!(bob.heads().is_empty(), "nothing was taken in");
    let mut relay = repo("relay");
    assert!(matches!(relay.stow(&bundle), Err(RepoError::Backend(_))));
    assert!(relay.heads().is_empty());
}

#[test]
fn a_signature_for_an_unknown_change_is_not_found() {
    let mut alice = repo("alice");
    assert_eq!(alice.attach_signature(&Oid([9; 32]), [0; 64]), Err(RepoError::NotFound(Oid([9; 32]))));
}

#[test]
fn only_wanted_objects_are_sent() {
    let mut alice = repo("alice");
    let a = commit(&mut alice, vec![], "a", &[("f.txt", "x"), ("g.txt", "y")]);
    let wanted = alice.graph.tree_at(&a).get(&RepoPath::new("f.txt")).unwrap().0;
    let bundle = alice.bundle_wanted(&vec![], &vec![wanted]).unwrap();
    let mut bob = repo("bob");
    bob.apply(&bundle, 0).unwrap();
    assert!(bob.objects.holds(&wanted));
    let offered = alice.offered_objects(&vec![]);
    assert_eq!(offered.len(), 2);
    let missing = bob.missing_objects(&offered);
    assert_eq!(missing.len(), 1);
    assert_ne!(missing[0], wanted);
    assert!(!bob.closure_complete(&a));
    assert!(bob.negotiation_have().is_empty(), "a change without its objects is not claimed");

    bob.apply(&alice.bundle_wanted(&bob.negotiation_have(), &missing).unwrap(), 0).unwrap();
    assert!(bob.closure_complete(&a));
    assert_eq!(bob.negotiation_have(), vec![a]);
}

#[test]
fn batches_carry_all_that_is_wanted() {
    let mut alice = repo("alice");
    commit(&mut alice, vec![], "a", &[("a", "1"), ("b", "2"), ("c", "3"), ("d", "4"), ("e", "5")]);
    let wants = alice.offered_objects(&vec![]);
    assert_eq!(wants.len(), 5);
    let batches = alice.bundle_wanted_batched(&vec![], &wants, 2, 1_000_000).unwrap();
    assert_eq!(batches.len(), 3);
    let mut bob = repo("bob");
    for b in &batches {
        bob.apply(b, 0).unwrap();
    }
    assert!(bob.missing_objects(&wants).is_empty());
}

#[test]
fn a_burned_object_stays_out() {
    let mut alice = repo("alice");
    let a = commit(&mut alice, vec![], "a", &[("f.txt", "x")]);
    let oid = alice.graph.tree_at(&a).get(&RepoPath::new("f.txt")).unwrap().0;
    let mut bob = repo("bob");
    bob.burn_log.insert(Tombstone::unauthored(oid, RepoPath::new("f.txt"), BurnTier::NeverPushed, 1));
    bob.apply(&everything(&alice), 0).unwrap();
    assert!(!bob.objects.holds(&oid));
    assert_eq!(bob.get(&oid, "bob", 0), Err(RepoError::NotFound(oid)));
    assert!(bob.heads().contains(&a), "history comes all the same");
}

#[test]
fn an_object_is_never_replaced() {
    let mut alice = repo("alice");
    let oid = alice.put(b"x", Visibility::Public).unwrap();
    let mut other = alice.objects.get(&oid).unwrap().clone();
    let first = other.clone();
    other.ciphertext.push(0);
    assert!(!alice.objects.put(oid, other));
    assert_eq!(*alice.objects.get(&oid).unwrap(), first);
}

#[test]
fn two_tips_are_joined() {
    let mut alice = repo("alice");
    let root = commit(&mut alice, vec![], "root", &[("f.txt", "x"), ("g.txt", "y")]);
    let a = commit(&mut alice, vec![root], "a", &[("f.txt", "x"), ("g.txt", "y"), ("a.txt", "a")]);
    let b = commit(&mut alice, vec![root], "b", &[("f.txt", "x"), ("g.txt", "y"), ("b.txt", "b")]);
    let (m, outcomes) = alice.merge_tips(&a, &b, "join", 0).unwrap();
    assert_eq!(alice.heads(), vec![m]);
    assert_eq!(alice.graph.get(&m).unwrap().parents, vec![a, b]);
    assert_eq!(content(&alice, &m, "a.txt"), "a");
    assert_eq!(content(&alice, &m, "b.txt"), "b");
    assert_eq!(outcomes.get(&RepoPath::new("b.txt")), Some(&MergeOutcome::Converged));
    assert!(alice.conflicts().is_empty());
}

#[test]
fn a_conflict_between_tips_keeps_ours() {
    let mut alice = repo("alice");
    let root = commit(&mut alice, vec![], "root", &[("f.txt", "x\n")]);
    let a = commit(&mut alice, vec![root], "a", &[("f.txt", "ours\n")]);
    let b = commit(&mut alice, vec![root], "b", &[("f.txt", "theirs\n")]);
    let (m, _) = alice.merge_tips(&a, &b, "join", 0).unwrap();
    assert_eq!(content(&alice, &m, "f.txt"), "ours\n");
    assert!(alice.conflicts().contains_key(&RepoPath::new("f.txt")));
}

#[test]
fn a_change_is_picked_onto_another_line_and_undone() {
    let mut alice = repo("alice");
    let root = commit(&mut alice, vec![], "root", &[("f.txt", "x\n")]);
    // Addresses are kept where nothing changed.
    let f = alice.graph.tree_at(&root).get(&RepoPath::new("f.txt")).unwrap().0;
    let g = alice.put(b"new\n", Visibility::Public).unwrap();
    let mut tree = Tree::new();
    tree.insert(RepoPath::new("f.txt"), (f, Visibility::Public));
    tree.insert(RepoPath::new("g.txt"), (g, Visibility::Public));
    let target = alice
        .record(Change { id: Oid([0; 32]), parents: vec![root], message: "add g".into(), tree })
        .unwrap();

    let picked = alice.change_delta_merge(&root, &target, false, 0);
    assert!(!picked.conflicted);
    assert_eq!(picked.actions.len(), 1);
    assert_eq!(picked.actions.get(&RepoPath::new("g.txt")), Some(&Some(b"new\n".to_vec())));

    let undone = alice.change_delta_merge(&target, &target, true, 0);
    assert!(!undone.conflicted);
    assert_eq!(undone.actions.len(), 1);
    assert_eq!(undone.actions.get(&RepoPath::new("g.txt")), Some(&None));
}

#[test]
fn a_delta_in_conflict_does_nothing() {
    let mut alice = repo("alice");
    let root = commit(&mut alice, vec![], "root", &[("f.txt", "x\n")]);
    let a = commit(&mut alice, vec![root], "a", &[("f.txt", "ours\n")]);
    let b = commit(&mut alice, vec![root], "b", &[("f.txt", "theirs\n")]);
    let d = alice.change_delta_merge(&a, &b, false, 0);
    assert!(d.conflicted);
    assert!(d.actions.is_empty());
    assert!(alice.conflicts().contains_key(&RepoPath::new("f.txt")));
}

#[test]
fn what_cannot_be_read_is_not_picked() {
    let mut alice = repo("alice");
    let root = commit(&mut alice, vec![], "root", &[("f.txt", "x\n")]);
    let only = Visibility::Restricted(vec!["alice".into()]);
    let secret = alice.put(b"s", only.clone()).unwrap();
    let mut tree = alice.graph.tree_at(&root);
    tree.insert(RepoPath::new(".env"), (secret, only));
    let target = alice
        .record(Change { id: Oid([0; 32]), parents: vec![root], message: "secret".into(), tree })
        .unwrap();
    let mut bob = repo("bob");
    bob.apply(&everything(&alice), 0).unwrap();
    let d = bob.change_delta_merge(&root, &target, false, 0);
    assert_eq!(d.skipped, vec![RepoPath::new(".env")]);
    assert!(d.actions.is_empty());
}

#[test]
fn a_line_is_carried_onto_another() {
    let id = Identity::from_seed([1; 32]);
    let mut alice = repo("alice");
    alice.set_author(id.public_key_bytes());
    let root = commit(&mut alice, vec![], "root", &[("f.txt", "x\n")]);
    let f = alice.graph.tree_at(&root).get(&RepoPath::new("f.txt")).unwrap().0;
    let with = |repo: &mut DagRepo, name: &str| {
        let oid = repo.put(name.as_bytes(), Visibility::Public).unwrap();
        let mut tree = Tree::new();
        tree.insert(RepoPath::new("f.txt"), (f, Visibility::Public));
        tree.insert(RepoPath::new(name), (oid, Visibility::Public));
        let c = Change { id: Oid([0; 32]), parents: vec![root], message: name.into(), tree };
        repo.record(c).unwrap()
    };
    let ours = with(&mut alice, "ours");
    let main = with(&mut alice, "main");
    let cid = alice.change_change_id(&ours);
    assert!(cid.is_some());

    let CarryOutcome::Carried { minted, .. } = alice.carry_line(&ours, &main, 0).unwrap() else {
        panic!("expected the line to be carried");
    };
    assert_eq!(minted.len(), 1);
    let new = alice.graph.get(&minted[0]).unwrap();
    assert_eq!(new.parents, vec![main]);
    assert_eq!(new.message, "ours");
    assert_eq!(new.change_id, cid);
    assert_eq!(new.predecessors, vec![ours]);
    assert_eq!(content(&alice, &minted[0], "ours"), "ours");
    assert_eq!(content(&alice, &minted[0], "main"), "main");
    assert!(!alice.heads().contains(&ours));

    assert!(matches!(alice.carry_line(&main, &minted[0], 0).unwrap(), CarryOutcome::Covered));
}

#[test]
fn work_of_others_is_not_carried() {
    let mut alice = repo("alice");
    let root = commit(&mut alice, vec![], "root", &[("f.txt", "x\n")]);
    let a = commit(&mut alice, vec![root], "a", &[("f.txt", "y\n")]);
    assert!(matches!(alice.carry_line(&a, &root, 0).unwrap(), CarryOutcome::Foreign), "no key");
    alice.set_author(Identity::from_seed([1; 32]).public_key_bytes());
    assert!(matches!(alice.carry_line(&a, &root, 0).unwrap(), CarryOutcome::Foreign), "unauthored work");
}

#[test]
fn a_line_in_conflict_bounces() {
    let id = Identity::from_seed([1; 32]);
    let mut alice = repo("alice");
    alice.set_author(id.public_key_bytes());
    let root = commit(&mut alice, vec![], "root", &[("f.txt", "x\n")]);
    let ours = commit(&mut alice, vec![root], "ours", &[("f.txt", "ours\n")]);
    let main = commit(&mut alice, vec![root], "main", &[("f.txt", "main\n")]);
    let before = alice.graph.nodes().len();
    assert!(matches!(alice.carry_line(&ours, &main, 0).unwrap(), CarryOutcome::Bounced { .. }));
    assert_eq!(alice.graph.nodes().len(), before, "nothing was minted");
    assert!(alice.conflicts().contains_key(&RepoPath::new("f.txt")));
}

#[test]
fn an_unknown_line_cannot_be_carried() {
    let mut alice = repo("alice");
    alice.set_author([1; 32]);
    let root = commit(&mut alice, vec![], "root", &[("f.txt", "x\n")]);
    let e = alice.carry_line(&Oid([0xab; 32]), &root, 0).unwrap_err();
    assert_eq!(e, RepoError::Backend("carry: change abababababababab is not loaded".into()));
}

#[test]
fn history_is_listed_parents_first() {
    let mut alice = repo("alice");
    let root = commit(&mut alice, vec![], "root", &[("f.txt", "x\n")]);
    let tip = commit(&mut alice, vec![root], "tip", &[("f.txt", "y\n")]);
    assert_eq!(alice.log(), vec![(root, "root".to_string()), (tip, "tip".to_string())]);
    let detailed = alice.log_detailed();
    assert_eq!((detailed[0].2, detailed[0].3, detailed[0].4), (1, 0, 0), "one public path");
}

#[test]
fn a_path_leads_to_its_object() {
    let mut alice = repo("alice");
    let root = commit(&mut alice, vec![], "root", &[("f.txt", "x\n")]);
    let oid = alice.graph.tree_at(&root).get(&RepoPath::new("f.txt")).unwrap().0;
    assert_eq!(alice.current_tree_oid(&RepoPath::new("f.txt")), Ok(oid));
    assert!(matches!(alice.current_tree_oid(&RepoPath::new("none")), Err(RepoError::NotFound(_))));
}

#[test]
fn embargoed_paths_are_listed_with_their_time() {
    let mut alice = repo("alice");
    let vis = Visibility::Embargoed { reveal_at: 100 };
    let oid = alice.put(b"cve", vis.clone()).unwrap();
    let mut tree = Tree::new();
    tree.insert(RepoPath::new("cve.txt"), (oid, vis));
    alice.record(Change { id: Oid([0; 32]), parents: vec![], message: "m".into(), tree }).unwrap();
    assert_eq!(alice.embargoed_paths(), vec![(RepoPath::new("cve.txt"), oid, 100)]);
}

#[test]
fn a_reader_without_a_grant_sees_nothing_sealed() {
    let mut alice = repo("alice");
    let only = Visibility::Restricted(vec!["alice".into()]);
    let secret = alice.put(b"s", only.clone()).unwrap();
    let public = alice.put(b"p", Visibility::Public).unwrap();
    let mut tree = Tree::new();
    tree.insert(RepoPath::new(".env"), (secret, only));
    tree.insert(RepoPath::new("README"), (public, Visibility::Public));
    let c = alice.record(Change { id: Oid([0; 32]), parents: vec![], message: "m".into(), tree }).unwrap();
    // The key lies here, but the reader is not one that the content is for.
    let (files, skipped) = alice.surface_with_report(&c, "mallory", 0).unwrap();
    assert_eq!(files.len(), 1);
    assert_eq!(files[0].0, RepoPath::new("README"));
    assert_eq!(files[0].2, b"p");
    assert_eq!(skipped, 1);
    assert_eq!(alice.surface(&c, "alice", 0).unwrap().len(), 2);
}

#[test]
fn a_grant_of_an_object_that_is_not_here_is_not_found() {
    let mut alice = repo("alice");
    alice.custody.keyring.insert(Oid([4; 32]), [1; 32]);
    assert_eq!(alice.grant(&Oid([4; 32]), "bob", 0, None), Err(RepoError::NotFound(Oid([4; 32]))));
}

#[test]
fn a_sealed_grant_cannot_be_applied_as_a_bundle() {
    let mut alice = repo("alice");
    let oid = alice.put(b"s", Visibility::Restricted(vec!["alice".into()])).unwrap();
    let bundle =
        alice.grant_sealed(&oid, "bob", [2; 32], [1; 32], 0, None, 0, |_: &[u8; 32]| Ok([7u8; 80])).unwrap();
    let mut bob = repo("bob");
    assert!(matches!(bob.apply(&bundle, 0), Err(RepoError::Backend(_))));
    let e = bob.apply_sealed_grant(&bundle, [1; 32], 0, |_: &[u8; 80]| Err(RepoError::Unauthorized(Oid([0; 32]))));
    assert_eq!(e, Err(RepoError::Unauthorized(Oid([0; 32]))), "what the opening says");
    let plain = alice.grant(&oid, "bob", 0, None).unwrap();
    assert!(matches!(
        bob.apply_sealed_grant(&plain, [1; 32], 0, |_: &[u8; 80]| Ok([0u8; 32])),
        Err(RepoError::Backend(_))
    ));
}

#[test]
fn a_timed_grant_waits_in_escrow() {
    let mut alice = repo("alice");
    let oid = alice.put(b"cve", Visibility::Embargoed { reveal_at: 100 }).unwrap();
    let key = alice.custody.escrow.get(&oid).unwrap().key;
    let bundle =
        alice.grant_sealed(&oid, "bob", [2; 32], [1; 32], 100, None, 0, |_: &[u8; 32]| Ok([7u8; 80])).unwrap();
    let mut bob = repo("bob");
    bob.apply_sealed_grant(&bundle, [1; 32], 50, |_: &[u8; 80]| Ok(key)).unwrap();
    assert!(bob.custody.escrow.holds(&oid) && !bob.custody.keyring.holds(&oid));
    bob.flush_embargo(100);
    assert_eq!(bob.get(&oid, "bob", 100).unwrap(), b"cve");
}

fn exchange<R: Repo>(body: &[u8]) -> Vec<u8> {
    let mut alice = R::init("/a".to_string(), "alice").unwrap();
    let oid = alice.put(body, Visibility::Public).unwrap();
    let mut tree = Tree::new();
    tree.insert(RepoPath::new("f.txt"), (oid, Visibility::Public));
    let id = alice
        .record(Change { id: Oid([0; 32]), parents: vec![], message: "one".into(), tree })
        .unwrap();
    assert!(alice.heads() == vec![id]);

    let mut bob = R::init("/b".to_string(), "bob").unwrap();
    bob.apply(&alice.bundle(&vec![]).unwrap(), 0).unwrap();
    bob.flush_embargo(0);
    let files = bob.surface(&id, "bob", 0).unwrap();
    assert_eq!(files.len(), 1);
    assert_eq!(files[0].2, bob.get(&oid, "bob", 0).unwrap());
    files[0].2.clone()
}

#[test]
fn any_repository_hands_its_content_on() {
    assert_eq!(exchange::<DagRepo>(b"hello\n"), b"hello\n".to_vec());
}

#[test]
fn stowing_twice_changes_nothing_more() {
    let mut alice = repo("alice");
    let a = commit(&mut alice, vec![], "a", &[("f.txt", "one\n")]);
    commit(&mut alice, vec![a], "b", &[("f.txt", "two\n")]);
    let bundle = everything(&alice);

    let mut relay = repo("relay");
    relay.stow(&bundle).unwrap();
    let once = relay.save(&vec![]);
    relay.stow(&bundle).unwrap();
    let twice = relay.save(&vec![]);
    assert_eq!(once.graph, twice.graph);
    assert_eq!(once.objects, twice.objects);
    assert_eq!(once.keyring, twice.keyring);
    assert_eq!(once.purges, twice.purges);
    assert_eq!(once.conflicts, twice.conflicts);
}

#[test]
fn another_visibility_keeps_the_content() {
    let mut alice = repo("alice");
    let only_alice = Visibility::Restricted(vec!["alice".to_string()]);
    let oid = alice.put(b"plain words", only_alice.clone()).unwrap();
    let mut tree = Tree::new();
    tree.insert(RepoPath::new("a.txt"), (oid, only_alice));
    alice.record(Change { id: Oid([0; 32]), parents: vec![], message: "a".into(), tree }).unwrap();

    let result = alice.migrate(&RepoPath::new("a.txt"), Visibility::Public, 0).unwrap();
    assert_ne!(result.new_oid, oid);
    assert_eq!(alice.current_tree_oid(&RepoPath::new("a.txt")).unwrap(), result.new_oid);
    assert_eq!(alice.get(&result.new_oid, "alice", 0).unwrap(), b"plain words".to_vec());
    assert_eq!(alice.get(&result.new_oid, "bob", 0).unwrap(), b"plain words".to_vec());
}

#[test]
fn no_clock_opens_what_is_embargoed_elsewhere() {
    let mut alice = repo("alice");
    let vis = Visibility::Embargoed { reveal_at: 1000 };
    let oid = alice.put(b"the fix", vis.clone()).unwrap();
    let mut tree = Tree::new();
    tree.insert(RepoPath::new("fix.txt"), (oid, vis));
    alice.record(Change { id: Oid([0; 32]), parents: vec![], message: "fix".into(), tree }).unwrap();

    let mut bob = repo("bob");
    bob.apply(&everything(&alice), 0).unwrap();
    bob.flush_escrow(u64::MAX);
    assert!(matches!(bob.get(&oid, "bob", u64::MAX), Err(RepoError::Unauthorized(_))));

    assert!(matches!(alice.get(&oid, "alice", 999), Err(RepoError::Embargoed(1000))));
    alice.flush_escrow(1000);
    assert_eq!(alice.get(&oid, "alice", 1000).unwrap(), b"the fix".to_vec());
}
