use loot::converge::{classify, merge_trees};
use loot::sorted::SortedMap;
use loot::types::{MergeOutcome, Oid, RepoPath, Tree, Visibility};

/// Contents that open: anything absent cannot be opened.
type Contents = SortedMap<Oid, Vec<u8>>;

fn oid(n: u8) -> Oid {
    Oid([n; 32])
}
fn tree(entries: &[(&str, Oid)]) -> Tree {
    let mut t = Tree::new();
    for (path, o) in entries {
        t.insert(p(path), (*o, Visibility::Public));
    }
    t
}

#[test]
fn absent_path_converges() {
    let local = Tree::new();
    let inc = tree(&[("a.txt", oid(1))]);
    let out = classify(&local, &inc, None, &Contents::new(), 0);
    assert_eq!(*out.get(&p("a.txt")).unwrap(), MergeOutcome::Converged);
}

#[test]
fn identical_address_converges() {
    let mut local = Tree::new();
    local.insert(p("a.txt"), (oid(1), Visibility::Public));
    let inc = tree(&[("a.txt", oid(1))]);
    let out = classify(&local, &inc, None, &Contents::new(), 0);
    assert_eq!(*out.get(&p("a.txt")).unwrap(), MergeOutcome::Converged);
}

#[test]
fn concurrent_without_key_relays() {
    let mut local = Tree::new();
    local.insert(p("a.txt"), (oid(1), Visibility::Public));
    let inc = tree(&[("a.txt", oid(2))]);
    // Oracle opens neither -> relay.
    let out = classify(&local, &inc, None, &Contents::new(), 0);
    assert_eq!(*out.get(&p("a.txt")).unwrap(), MergeOutcome::RelayedUnmerged);
}

#[test]
fn concurrent_with_keys_subset_merges() {
    let mut local = Tree::new();
    local.insert(p("a.txt"), (oid(1), Visibility::Public));
    let inc = tree(&[("a.txt", oid(2))]);
    let mut plain = Contents::new();
    plain.insert(oid(1), b"x\n".to_vec());
    plain.insert(oid(2), b"x\ny\n".to_vec()); // superset
    let out = classify(&local, &inc, None, &plain, 0);
    assert_eq!(*out.get(&p("a.txt")).unwrap(), MergeOutcome::Merged);
}

#[test]
fn concurrent_with_keys_divergent_conflicts() {
    let mut local = Tree::new();
    local.insert(p("a.txt"), (oid(1), Visibility::Public));
    let inc = tree(&[("a.txt", oid(2))]);
    let mut plain = Contents::new();
    plain.insert(oid(1), b"left\n".to_vec());
    plain.insert(oid(2), b"right\n".to_vec());
    let out = classify(&local, &inc, None, &plain, 0);
    assert_eq!(
        *out.get(&p("a.txt")).unwrap(),
        MergeOutcome::Conflict { ours: oid(1), theirs: oid(2) }
    );
}

// --- base-aware downgrade: untouched-since-fork must not conflict ---

#[test]
fn theirs_untouched_since_base_keeps_ours_not_conflict() {
    // Pilot finding 6: our line edited the path, theirs still carries the
    // base bytes under a fresh re-seal address. Two-way this line-conflicts
    // (modified line = no subset); with the base it is ours-wins Merged.
    let mut local = Tree::new();
    local.insert(p("ctx.md"), (oid(1), Visibility::Public));
    let inc = tree(&[("ctx.md", oid(2))]);
    let base = tree(&[("ctx.md", oid(3))]);
    let mut plain = Contents::new();
    plain.insert(oid(1), b"alpha\nbeta EDITED\n".to_vec()); // our edit
    plain.insert(oid(2), b"alpha\nbeta\n".to_vec()); // their re-seal of base
    plain.insert(oid(3), b"alpha\nbeta\n".to_vec()); // the base
    let out = classify(&local, &inc, Some(&base), &plain, 0);
    assert_eq!(*out.get(&p("ctx.md")).unwrap(), MergeOutcome::Merged);

    // And merge_trees keeps ours in the assembled tree.
    let ours = tree(&[("ctx.md", oid(1))]);
    let m = merge_trees(&ours, &inc, Some(&base), &plain, 0);
    assert_eq!(m.tree.get(&p("ctx.md")).unwrap().0, oid(1), "our edit wins");
    assert!(m.conflicts.is_empty());
}

#[test]
fn ours_untouched_since_base_adopts_theirs() {
    let mut local = Tree::new();
    local.insert(p("ctx.md"), (oid(1), Visibility::Public));
    let inc = tree(&[("ctx.md", oid(2))]);
    let base = tree(&[("ctx.md", oid(3))]);
    let mut plain = Contents::new();
    plain.insert(oid(1), b"alpha\nbeta\n".to_vec()); // ours == base
    plain.insert(oid(2), b"alpha\nbeta EDITED\n".to_vec()); // their edit
    plain.insert(oid(3), b"alpha\nbeta\n".to_vec());
    let ours = tree(&[("ctx.md", oid(1))]);
    let m = merge_trees(&ours, &inc, Some(&base), &plain, 0);
    assert_eq!(m.tree.get(&p("ctx.md")).unwrap().0, oid(2), "their edit adopted");
    assert_eq!(*m.outcomes.get(&p("ctx.md")).unwrap(), MergeOutcome::Merged);
}

#[test]
fn both_edited_since_base_still_conflicts() {
    // The base only rescues an untouched side — a genuine double edit is
    // still a conflict for a human.
    let mut local = Tree::new();
    local.insert(p("ctx.md"), (oid(1), Visibility::Public));
    let inc = tree(&[("ctx.md", oid(2))]);
    let base = tree(&[("ctx.md", oid(3))]);
    let mut plain = Contents::new();
    plain.insert(oid(1), b"left\n".to_vec());
    plain.insert(oid(2), b"right\n".to_vec());
    plain.insert(oid(3), b"original\n".to_vec());
    let out = classify(&local, &inc, Some(&base), &plain, 0);
    assert_eq!(
        *out.get(&p("ctx.md")).unwrap(),
        MergeOutcome::Conflict { ours: oid(1), theirs: oid(2) }
    );
}

#[test]
fn unopenable_base_falls_back_to_two_way() {
    // The base path exists but we can't open it (sealed to us) — behave
    // exactly as if no base were known.
    let mut local = Tree::new();
    local.insert(p("ctx.md"), (oid(1), Visibility::Public));
    let inc = tree(&[("ctx.md", oid(2))]);
    let base = tree(&[("ctx.md", oid(9))]); // oid(9) not in the oracle
    let mut plain = Contents::new();
    plain.insert(oid(1), b"left\n".to_vec());
    plain.insert(oid(2), b"right\n".to_vec());
    let out = classify(&local, &inc, Some(&base), &plain, 0);
    assert_eq!(
        *out.get(&p("ctx.md")).unwrap(),
        MergeOutcome::Conflict { ours: oid(1), theirs: oid(2) }
    );
}

// --- merge_trees (CA2): assembles the reconciled tree, not just labels ---

fn p(s: &str) -> RepoPath {
    RepoPath::new(s)
}

#[test]
fn merge_disjoint_paths_takes_the_union() {
    // ours has a.txt, theirs adds b.txt — a clean disjoint merge.
    let ours = tree(&[("a.txt", oid(1))]);
    let theirs = tree(&[("b.txt", oid(2))]);
    let m = merge_trees(&ours, &theirs, None, &Contents::new(), 0);
    assert_eq!(m.tree.get(&p("a.txt")).unwrap().0, oid(1), "ours kept");
    assert_eq!(m.tree.get(&p("b.txt")).unwrap().0, oid(2), "theirs adopted");
    assert!(m.conflicts.is_empty());
    assert_eq!(*m.outcomes.get(&p("b.txt")).unwrap(), MergeOutcome::Converged);
}

#[test]
fn merge_clean_line_superset_adopts_theirs() {
    let ours = tree(&[("a.txt", oid(1))]);
    let theirs = tree(&[("a.txt", oid(2))]);
    let mut plain = Contents::new();
    plain.insert(oid(1), b"x\n".to_vec());
    plain.insert(oid(2), b"x\ny\n".to_vec()); // theirs is the superset
    let m = merge_trees(&ours, &theirs, None, &plain, 0);
    assert_eq!(m.tree.get(&p("a.txt")).unwrap().0, oid(2), "superset (theirs) wins");
    assert_eq!(*m.outcomes.get(&p("a.txt")).unwrap(), MergeOutcome::Merged);
    assert!(m.conflicts.is_empty());
}

#[test]
fn merge_clean_line_superset_keeps_ours_when_ours_is_bigger() {
    let ours = tree(&[("a.txt", oid(1))]);
    let theirs = tree(&[("a.txt", oid(2))]);
    let mut plain = Contents::new();
    plain.insert(oid(1), b"x\ny\n".to_vec()); // ours is the superset
    plain.insert(oid(2), b"x\n".to_vec());
    let m = merge_trees(&ours, &theirs, None, &plain, 0);
    assert_eq!(m.tree.get(&p("a.txt")).unwrap().0, oid(1), "superset (ours) wins");
    assert_eq!(*m.outcomes.get(&p("a.txt")).unwrap(), MergeOutcome::Merged);
}

#[test]
fn merge_conflict_keeps_ours_and_records_it() {
    let ours = tree(&[("a.txt", oid(1))]);
    let theirs = tree(&[("a.txt", oid(2))]);
    let mut plain = Contents::new();
    plain.insert(oid(1), b"left\n".to_vec());
    plain.insert(oid(2), b"right\n".to_vec());
    let m = merge_trees(&ours, &theirs, None, &plain, 0);
    // Ours stays in the tree; theirs is recorded for resolution, not dropped.
    assert_eq!(m.tree.get(&p("a.txt")).unwrap().0, oid(1));
    assert_eq!(*m.conflicts.get(&p("a.txt")).unwrap(), (oid(1), oid(2)));
    assert_eq!(
        *m.outcomes.get(&p("a.txt")).unwrap(),
        MergeOutcome::Conflict { ours: oid(1), theirs: oid(2) }
    );
}

#[test]
fn merge_sealed_path_relays_and_keeps_ours() {
    // We can't open either side (no keys) -> relay role, ours carried forward.
    let ours = tree(&[("a.txt", oid(1))]);
    let theirs = tree(&[("a.txt", oid(2))]);
    let m = merge_trees(&ours, &theirs, None, &Contents::new(), 0);
    assert_eq!(m.tree.get(&p("a.txt")).unwrap().0, oid(1), "ours carried forward");
    assert_eq!(*m.outcomes.get(&p("a.txt")).unwrap(), MergeOutcome::RelayedUnmerged);
    assert!(m.conflicts.is_empty(), "relay is not a conflict");
}

#[test]
fn merge_identical_address_is_converged_noop() {
    let ours = tree(&[("a.txt", oid(1))]);
    let theirs = tree(&[("a.txt", oid(1))]);
    let m = merge_trees(&ours, &theirs, None, &Contents::new(), 0);
    assert_eq!(m.tree.get(&p("a.txt")).unwrap().0, oid(1));
    assert_eq!(*m.outcomes.get(&p("a.txt")).unwrap(), MergeOutcome::Converged);
}
