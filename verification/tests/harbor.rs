use loot::harbor::{contend, held_message, ledger_message, Contention};

const HOUR: u64 = 3_600_000;

#[test]
fn contention_with_a_live_lock_times_out() {
    // A live lock, no time to wait: it is neither broken nor waited for.
    assert_eq!(contend(Some(10), HOUR, Some(0), 0), Contention::GiveUp);
    let err = held_message("/repo/.loot/harbor.lock");
    assert!(err.contains("another land holds the harbor lock"), "{err}");
}

#[test]
fn a_contended_acquire_reports_the_callers_message() {
    assert_eq!(contend(Some(10), HOUR, Some(0), 0), Contention::GiveUp);
    let err = ledger_message("/repo/.loot/pr-map.lock");
    assert!(err.contains("/repo/.loot/pr-map.lock"), "{err}");
    assert_ne!(err, held_message("/repo/.loot/pr-map.lock"));
}

#[test]
fn stale_lock_is_broken() {
    // A staleness of zero takes any lock for that of a crashed land.
    assert_eq!(contend(Some(10), 0, Some(0), 0), Contention::Break);
    assert_eq!(contend(Some(HOUR), HOUR, Some(0), 0), Contention::Break);
}

#[test]
fn a_lock_is_waited_for_while_there_is_time() {
    assert_eq!(contend(Some(10), HOUR, Some(4_999), 5_000), Contention::Wait);
    assert_eq!(contend(Some(10), HOUR, Some(5_000), 5_000), Contention::GiveUp);
}
