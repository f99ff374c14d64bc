use loot::sorted::SortedSet;
use loot::store::{valid_dock_name, Disk, RepoStore, HOME_DOCK};
use loot::types::Oid;

#[test]
fn paths_are_under_dot() {
    let s = RepoStore::new("/tmp/repo/.loot".to_string());
    assert!(s.graph().ends_with(".loot/graph"));
    assert!(s.working(None).ends_with(".loot/working"));
    assert!(s.objects_dir().ends_with(".loot/objects"));
    assert!(s.peers().ends_with(".loot/peers"));
}

#[test]
fn home_dock_uses_root_files_named_docks_are_nested() {
    // The compat guarantee: home's process files are the root files, so a
    // repo that never docks looks exactly as before.
    let s = RepoStore::new("/tmp/repo/.loot".to_string());
    assert!(s.working(None).ends_with(".loot/working"));
    assert!(s.tip(None).ends_with(".loot/tip"));
    assert!(s.working(Some("feat")).ends_with(".loot/docks/feat/working"));
    assert!(s.tip(Some("feat")).ends_with(".loot/docks/feat/tip"));
}

#[test]
fn working_round_trips_and_clears() {
    let mut disk = Disk::new();
    let s = RepoStore::new("/repo/.loot".to_string());

    assert_eq!(s.read_working(&disk, None), None, "no working file yet");
    s.write_working(&mut disk, None, Some(&Oid([5; 32])));
    assert_eq!(s.read_working(&disk, None), Some(Oid([5; 32])));
    s.write_working(&mut disk, None, None);
    assert_eq!(s.read_working(&disk, None), None, "None removes the file");
}

#[test]
fn tree_hash_round_trips_and_clears() {
    let mut disk = Disk::new();
    let s = RepoStore::new("/repo/.loot".to_string());

    assert!(s.read_tree_hash(&disk, None).is_empty());
    s.write_tree_hash(&mut disk, None, b"hash-bytes");
    assert_eq!(s.read_tree_hash(&disk, None), b"hash-bytes");
    s.clear_tree_hash(&mut disk, None);
    assert!(s.read_tree_hash(&disk, None).is_empty());
}

#[test]
fn docks_are_isolated_and_listed_home_first() {
    let mut disk = Disk::new();
    let s = RepoStore::new("/repo/.loot".to_string());

    // Ambient defaults to home with no pointer on disk.
    assert_eq!(s.read_dock(&disk), HOME_DOCK);
    assert_eq!(s.list_docks(&disk), vec![HOME_DOCK.to_string()], "home always present");

    // A named dock's tip is independent of home's.
    s.ensure_dock_dir(&mut disk, "feat");
    s.write_tip(&mut disk, None, Some(&Oid([1; 32])));
    s.write_tip(&mut disk, Some("feat"), Some(&Oid([2; 32])));
    assert_eq!(s.read_tip(&disk, None), Some(Oid([1; 32])));
    assert_eq!(s.read_tip(&disk, Some("feat")), Some(Oid([2; 32])), "per-dock tips don't collide");

    // Ambient pointer round-trips; writing home clears it back to pristine.
    s.write_dock(&mut disk, "feat");
    assert_eq!(s.read_dock(&disk), "feat");
    assert!(disk.read(&s.dock_pointer()).is_some());
    s.write_dock(&mut disk, HOME_DOCK);
    assert_eq!(s.read_dock(&disk), HOME_DOCK);
    assert!(!disk.read(&s.dock_pointer()).is_some(), "home removes the pointer (compat shape)");

    assert_eq!(s.list_docks(&disk), vec![HOME_DOCK.to_string(), "feat".to_string()]);
    assert!(s.dock_exists(&disk, "feat") && s.dock_exists(&disk, HOME_DOCK) && !s.dock_exists(&disk, "nope"));
}

#[test]
fn abandoned_set_round_trips_and_clears() {
    let mut disk = Disk::new();
    let s = RepoStore::new("/repo/.loot".to_string());

    assert!(s.read_abandoned(&disk).is_empty(), "no abandoned file yet");
    let mut set = SortedSet::new();
    set.insert(Oid([3; 32]));
    set.insert(Oid([9; 32]));
    s.write_abandoned(&mut disk, &set);
    assert_eq!(s.read_abandoned(&disk), set, "round-trips the version-id set");
    // Empty writes remove the file (pristine repo stays clean).
    s.write_abandoned(&mut disk, &SortedSet::new());
    assert!(s.read_abandoned(&disk).is_empty());
    assert!(!disk.read(&s.abandoned()).is_some(), "empty set removes the file");
}

#[test]
fn dock_name_validation_blocks_traversal_and_reserved() {
    assert!(valid_dock_name("feature-1").is_ok());
    assert!(valid_dock_name("feat_2").is_ok());
    assert!(valid_dock_name("").is_err(), "empty rejected");
    assert!(valid_dock_name(HOME_DOCK).is_err(), "home reserved");
    assert!(valid_dock_name("../evil").is_err(), "path traversal rejected");
    assert!(valid_dock_name("a/b").is_err(), "separators rejected");
    assert!(valid_dock_name("has space").is_err(), "whitespace rejected");
}
