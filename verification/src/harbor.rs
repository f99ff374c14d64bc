//! Who may land: one at a time.
//!
//! A file is the lock. A lock that is old enough is taken for abandoned and broken; a
//! younger one is waited for, as long as there is time left.

use crate::text::push_text;
use vstd::prelude::*;

verus! {

/// What to do about a lock that another one holds.
#[derive(Debug, Clone, Copy, PartialEq, Eq, Structural)]
pub enum Contention {
    /// Break it and try again at once.
    Break,
    /// Wait a little and try again.
    Wait,
    /// Give up.
    GiveUp,
}

/// What to do about a lock of this age, after this wait. Times are in milliseconds.
pub open spec fn contention_of(age: Option<u64>, stale: u64, waited: Option<u64>, wait: u64) -> Contention {
    if age is None || age->Some_0 >= stale {
        Contention::Break
    } else if waited is None || waited->Some_0 >= wait {
        Contention::GiveUp
    } else {
        Contention::Wait
    }
}

/// What to do about a lock that another one holds. Its age is not known where it has
/// gone in the meantime; the wait is not known where the clock went back.
pub fn contend(age: Option<u64>, stale: u64, waited: Option<u64>, wait: u64) -> (r: Contention)
    ensures
        r == contention_of(age, stale, waited, wait),
{
    let old = match age {
        Some(a) => a >= stale,
        None => true,
    };
    if old {
        return Contention::Break;
    }
    let over = match waited {
        Some(w) => w >= wait,
        None => true,
    };
    if over {
        Contention::GiveUp
    } else {
        Contention::Wait
    }
}

/// The words for a landing that another one keeps out.
pub open spec fn held_text(path: Seq<char>) -> Seq<char> {
    "another land holds the harbor lock ("@ + path
        + ") — one land projects to git-main at a time (ADR 0036); retry when it releases, or remove the file if you are sure no land is running"@
}

/// The words for a landing that another one keeps out.
pub fn held_message(path: &str) -> (r: String)
    ensures
        r@ == held_text(path@),
{
    let mut t = "another land holds the harbor lock (".to_owned();
    push_text(&mut t, path);
    push_text(
        &mut t,
        ") — one land projects to git-main at a time (ADR 0036); retry when it releases, or remove the file if you are sure no land is running",
    );
    t
}

/// The words for a ledger that another one is writing.
pub open spec fn ledger_text(path: Seq<char>) -> Seq<char> {
    "another review/land is writing the pr-map ledger ("@ + path
        + ") — ledger writes serialize under this lock (#336); retry, or remove the file if you are sure no loot-first is running"@
}

/// The words for a ledger that another one is writing.
pub fn ledger_message(path: &str) -> (r: String)
    ensures
        r@ == ledger_text(path@),
{
    let mut t = "another review/land is writing the pr-map ledger (".to_owned();
    push_text(&mut t, path);
    push_text(
        &mut t,
        ") — ledger writes serialize under this lock (#336); retry, or remove the file if you are sure no loot-first is running",
    );
    t
}

/// A lock is always broken in the end: one that has grown old enough is neither
/// waited for nor given up on.
pub proof fn law_stale_lock_is_broken(age: u64, stale: u64, waited: Option<u64>, wait: u64)
    requires
        age >= stale,
    ensures
        contention_of(Some(age), stale, waited, wait) == Contention::Break,
{
}

/// A lock that is not old is never broken.
pub proof fn law_live_lock_stands(age: u64, stale: u64, waited: Option<u64>, wait: u64)
    requires
        age < stale,
    ensures
        contention_of(Some(age), stale, waited, wait) != Contention::Break,
{
}

/// What is done about a lock: one that is gone or old is broken; one that is not is waited
/// for, until the wait is over or cannot be told.
pub proof fn law_what_is_done_about_a_lock(age: u64, stale: u64, waited: u64, wait: u64, other: Option<u64>)
    ensures
        contention_of(None, stale, other, wait) == Contention::Break,
        contention_of(Some(age), stale, Some(waited), wait) == Contention::Wait <==> age < stale && waited < wait,
        contention_of(Some(age), stale, Some(waited), wait) == Contention::GiveUp <==> age < stale && waited >= wait,
        age < stale ==> contention_of(Some(age), stale, None, wait) == Contention::GiveUp,
{
}

} // verus!
