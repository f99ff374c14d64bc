use loot::oplog::{read, record, restore, undo, StepError};
use loot::store::{decode_oids, Disk, RepoStore};
use loot::types::Oid;

fn store() -> (RepoStore, Disk) {
    (RepoStore::new("/repo/.loot".to_string()), Disk::new())
}

fn write_view(store: &RepoStore, disk: &mut Disk, heads: &[u8]) {
    disk.put_file(store.heads(), Some(heads.to_vec()));
}

fn heads_on(store: &RepoStore, disk: &Disk) -> Vec<Oid> {
    decode_oids(&disk.read(&store.heads()).unwrap())
}

#[test]
fn record_appends_and_round_trips() {
    let (s, mut disk) = store();
    write_view(&s, &mut disk, &[1; 32]);
    let a = record(&s, &mut disk, "new", "main", "finalize aa", false, 10).unwrap();
    write_view(&s, &mut disk, &[2; 32]);
    let b = record(&s, &mut disk, "describe", "main", "drafting", false, 20).unwrap();
    assert_eq!((a.index, a.pos), (1, 1));
    assert_eq!((b.index, b.pos), (2, 2));

    let back = read(&s, &disk).unwrap();
    assert_eq!(back.len(), 2);
    assert_eq!(back[0].command, "new");
    assert_eq!(back[1].description, "drafting");
    assert_eq!(back[1].heads(), vec![Oid([2; 32])]);
}

#[test]
fn undo_grows_the_log_and_walks_back_one_step() {
    let (s, mut disk) = store();
    // Three view-changing ops: heads 1 -> 2 -> 3.
    write_view(&s, &mut disk, &[1; 32]);
    record(&s, &mut disk, "init", "main", "init", false, 1).unwrap();
    write_view(&s, &mut disk, &[2; 32]);
    record(&s, &mut disk, "new", "main", "finalize", false, 2).unwrap();
    write_view(&s, &mut disk, &[3; 32]);
    record(&s, &mut disk, "describe", "main", "drafting", false, 3).unwrap();

    // First undo: revert op 3, land on op 2's view (heads == 2). Log grows.
    let u1 = undo(&s, &mut disk, "main", 4).unwrap();
    assert_eq!(u1.restored_to, 2);
    assert_eq!(heads_on(&s, &disk), vec![Oid([2; 32])]);
    assert_eq!(read(&s, &disk).unwrap().len(), 4, "undo is itself an op — the log grows");

    // Second undo walks back one more: land on op 1's view (heads == 1).
    let u2 = undo(&s, &mut disk, "main", 5).unwrap();
    assert_eq!(u2.restored_to, 1);
    assert_eq!(heads_on(&s, &disk), vec![Oid([1; 32])]);
    assert_eq!(read(&s, &disk).unwrap().len(), 5);

    // Redo via restore: jump forward to op 3's view.
    let r = restore(&s, &mut disk, "main", 3, 6).unwrap();
    assert_eq!(r.restored_to, 3);
    assert_eq!(heads_on(&s, &disk), vec![Oid([3; 32])]);
}

#[test]
fn undo_refuses_to_cross_a_barrier() {
    let (s, mut disk) = store();
    write_view(&s, &mut disk, &[1; 32]);
    record(&s, &mut disk, "new", "main", "finalize", false, 1).unwrap();
    write_view(&s, &mut disk, &[2; 32]);
    record(&s, &mut disk, "push", "main", "push → origin", true, 2).unwrap();

    match undo(&s, &mut disk, "main", 3) {
        Err(StepError::Barrier(b)) => {
            assert_eq!(b.index, 2);
            assert_eq!(b.command, "push");
        }
        other => panic!("expected barrier refusal, got {other:?}"),
    }
    // The refusal changed nothing — heads still at the post-push view.
    assert_eq!(heads_on(&s, &disk), vec![Oid([2; 32])]);
    assert_eq!(read(&s, &disk).unwrap().len(), 2, "a refused undo appends no op");
}

#[test]
fn restore_reproduces_absent_pointer_files() {
    let (s, mut disk) = store();
    // Op 1 has a working change on disk; op 2 has none (file removed).
    disk.put_file(s.working(None), Some([7; 32].to_vec()));
    write_view(&s, &mut disk, &[1; 32]);
    record(&s, &mut disk, "describe", "main", "wip", false, 1).unwrap();
    disk.put_file(s.working(None), None);
    write_view(&s, &mut disk, &[1; 32]);
    record(&s, &mut disk, "new", "main", "finalize", false, 2).unwrap();

    // Restoring op 1 must bring the working pointer back.
    restore(&s, &mut disk, "main", 1, 3).unwrap();
    assert_eq!(disk.read(&s.working(None)).unwrap(), [7; 32]);
    // Restoring op 2 must remove it again (absent captured -> absent restored).
    restore(&s, &mut disk, "main", 2, 4).unwrap();
    assert!(disk.read(&s.working(None)).is_none());
}

#[test]
fn an_undo_further_back_can_be_undone_too() {
    let (s, mut disk) = store();
    for i in 1..=3u8 {
        write_view(&s, &mut disk, &[i; 32]);
        record(&s, &mut disk, "new", "main", "finalize", false, i as u64).unwrap();
    }
    undo(&s, &mut disk, "main", 10).unwrap();
    disk.put_file(s.tip(None), Some(vec![7]));
    assert_eq!(undo(&s, &mut disk, "main", 11).unwrap().restored_to, 1);
    assert_eq!(heads_on(&s, &disk), vec![Oid([1; 32])]);
    assert!(disk.read(&s.tip(None)).is_none(), "absent then, absent now");
    let back = restore(&s, &mut disk, "main", 2, 12).unwrap();
    assert_eq!((back.restored_to, back.appended.index), (2, 6));
    assert_eq!(heads_on(&s, &disk), vec![Oid([2; 32])]);
}
