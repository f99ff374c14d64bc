//! When a change may land. Each function decides from what was read before.

use crate::forge::{PrState, ReviewDecision};
use crate::split::{after, cut, first_bytes, number_in, parse_number, split_at, split_once, strip_prefix, words, words_of};
use crate::text::{debug_of, debug_text, push_text, same_text, trim, trimmed};
use vstd::prelude::*;

verus! {

/// Whether a pull request is approved.
#[derive(Debug, Clone, Copy, PartialEq, Eq, Structural)]
pub enum Approval {
    /// By someone else.
    Approved,
    /// By being one's own, with no changes asked for: one cannot approve one's own.
    SelfAuthoredFastPath,
    Refused,
}

/// Whether a pull request is approved.
pub open spec fn approval_of(decision: ReviewDecision, author: Seq<char>, viewer: Seq<char>) -> Approval {
    if decision == ReviewDecision::Approved {
        Approval::Approved
    } else if author == viewer && decision != ReviewDecision::ChangesRequested {
        Approval::SelfAuthoredFastPath
    } else {
        Approval::Refused
    }
}

/// Whether a pull request is approved.
pub fn approval(decision: ReviewDecision, author: &str, viewer: &str) -> (r: Approval)
    ensures
        r == approval_of(decision, author@, viewer@),
{
    if decision == ReviewDecision::Approved {
        Approval::Approved
    } else if same_text(author, viewer) && decision != ReviewDecision::ChangesRequested {
        Approval::SelfAuthoredFastPath
    } else {
        Approval::Refused
    }
}

/// Whether what would land is what was reviewed.
#[derive(Debug, Clone, Copy, PartialEq, Eq, Structural)]
pub enum Currency {
    Current,
    /// The change was amended since.
    Stale,
}

/// The model of a text that there may be.
pub open spec fn text_model(t: Option<&str>) -> Option<Seq<char>> {
    match t {
        Some(s) => Some(s@),
        None => None,
    }
}

/// Whether what would land is what was reviewed.
pub open spec fn currency_of(reviewed: Option<Seq<char>>, current: Option<Seq<char>>) -> Currency {
    if reviewed is Some && current is Some && reviewed != current {
        Currency::Stale
    } else {
        Currency::Current
    }
}

/// Whether what would land is what was reviewed. Where either is not known, there is
/// nothing to compare.
pub fn review_currency(reviewed_version: Option<&str>, current_version: Option<&str>) -> (r: Currency)
    ensures
        r == currency_of(text_model(reviewed_version), text_model(current_version)),
{
    match (reviewed_version, current_version) {
        (Some(r), Some(c)) => if same_text(r, c) {
            Currency::Current
        } else {
            Currency::Stale
        },
        _ => Currency::Current,
    }
}

/// Whether one is on the dock that would land.
#[derive(Debug, Clone, Copy, PartialEq, Eq, Structural)]
pub enum DockTarget {
    Match,
    Mismatch,
}

/// Whether one is on the dock that would land.
pub fn dock_targeting(ambient_dock: &str, lane_dock: &str) -> (r: DockTarget)
    ensures
        r == (if ambient_dock@ == lane_dock@ {
            DockTarget::Match
        } else {
            DockTarget::Mismatch
        }),
{
    if same_text(ambient_dock, lane_dock) {
        DockTarget::Match
    } else {
        DockTarget::Mismatch
    }
}

/// What is done before a change is finished.
#[derive(Debug, Clone, Copy, PartialEq, Eq, Structural)]
pub enum PreLand {
    RunTests,
    Skip,
}

/// What is done before a change is finished.
pub fn pre_land(skip_tests: bool) -> (r: PreLand)
    ensures
        r == (if skip_tests {
            PreLand::Skip
        } else {
            PreLand::RunTests
        }),
{
    if skip_tests {
        PreLand::Skip
    } else {
        PreLand::RunTests
    }
}

/// How a landing ended.
#[derive(Debug, Clone, Copy, PartialEq, Eq, Structural)]
pub enum LandingStatus {
    /// The forge saw that the change was in.
    Merged,
    /// The forge closed the pull request when nothing was left of it.
    ClosedByCollapse,
    /// It was closed with a word on where the change went.
    ClosedWithPointer,
}

/// How a landing ended.
pub open spec fn landing_of(main_fast_forwarded: bool, polled: PrState) -> LandingStatus {
    if !main_fast_forwarded {
        LandingStatus::ClosedWithPointer
    } else {
        match polled {
            PrState::Merged => LandingStatus::Merged,
            PrState::Closed => LandingStatus::ClosedByCollapse,
            PrState::Open => LandingStatus::ClosedWithPointer,
        }
    }
}

/// How a landing ended, from whether main moved and what the forge says.
pub fn interpret_landing(main_fast_forwarded: bool, polled_state: PrState) -> (r: LandingStatus)
    ensures
        r == landing_of(main_fast_forwarded, polled_state),
{
    if !main_fast_forwarded {
        return LandingStatus::ClosedWithPointer;
    }
    match polled_state {
        PrState::Merged => LandingStatus::Merged,
        PrState::Closed => LandingStatus::ClosedByCollapse,
        PrState::Open => LandingStatus::ClosedWithPointer,
    }
}

/// How the mirror's main stands to that of the forge.
#[derive(Debug, Clone, Copy, PartialEq, Eq, Structural)]
pub enum Ancestry {
    Same,
    /// The mirror leads: as it is until the next fetch.
    MirrorAhead,
    /// The forge has commits that the mirror has not taken in.
    MirrorBehind,
    /// Neither descends from the other.
    Diverged,
}

/// The shortened name of a commit.
pub open spec fn short_sha(sha: Seq<char>) -> Seq<char> {
    first_bytes(sha, 12)->Some_0
}

/// The warning about a mirror, if one is due.
pub open spec fn drift_warning(mirror: Seq<char>, origin: Seq<char>, a: Ancestry) -> Option<Seq<char>> {
    let m = short_sha(mirror);
    let o = short_sha(origin);
    match a {
        Ancestry::Same | Ancestry::MirrorAhead => None,
        Ancestry::MirrorBehind => Some(
            "loot mirror is behind origin/main ("@ + m + " vs "@ + o
                + ") — reconcile before landing (#243)."@,
        ),
        Ancestry::Diverged => Some(
            "loot mirror has DIVERGED from origin/main ("@ + m + " vs "@ + o
                + ") — do NOT land: a lane off this mirror would project backward over landed work. Reconcile the mirror to origin/main first (#243)."@,
        ),
    }
}

/// The warning about a mirror; none where it is the same, or leads.
pub fn mirror_drift_warning(mirror: &str, origin: &str, ancestry: Ancestry) -> (r: Option<String>)
    requires
        first_bytes(mirror@, 12) is Some,
        first_bytes(origin@, 12) is Some,
    ensures
        r.deep_view() == drift_warning(mirror@, origin@, ancestry),
{
    let m = cut(mirror, 12);
    let o = cut(origin, 12);
    match ancestry {
        Ancestry::Same => None,
        Ancestry::MirrorAhead => None,
        Ancestry::MirrorBehind => {
            let mut t = "loot mirror is behind origin/main (".to_owned();
            push_text(&mut t, m.as_str());
            push_text(&mut t, " vs ");
            push_text(&mut t, o.as_str());
            push_text(&mut t, ") — reconcile before landing (#243).");
            Some(t)
        },
        Ancestry::Diverged => {
            let mut t = "loot mirror has DIVERGED from origin/main (".to_owned();
            push_text(&mut t, m.as_str());
            push_text(&mut t, " vs ");
            push_text(&mut t, o.as_str());
            push_text(
                &mut t,
                ") — do NOT land: a lane off this mirror would project backward over landed work. Reconcile the mirror to origin/main first (#243).",
            );
            Some(t)
        },
    }
}

/// A lane that was shown for review.
#[derive(Debug, Clone, PartialEq, Eq)]
pub struct ReviewLine {
    pub dock: String,
    /// The lane that showed it; empty for the primary.
    pub owner: String,
    pub branch: String,
    pub sha: String,
    pub change: String,
    pub version: String,
    pub round: u64,
    pub op: String,
}

/// The model of a [`ReviewLine`].
pub struct ReviewLineModel {
    pub dock: Seq<char>,
    pub owner: Seq<char>,
    pub branch: Seq<char>,
    pub sha: Seq<char>,
    pub change: Seq<char>,
    pub version: Seq<char>,
    pub round: u64,
    pub op: Seq<char>,
}

impl DeepView for ReviewLine {
    type V = ReviewLineModel;

    open spec fn deep_view(&self) -> ReviewLineModel {
        ReviewLineModel {
            dock: self.dock@,
            owner: self.owner@,
            branch: self.branch@,
            sha: self.sha@,
            change: self.change@,
            version: self.version@,
            round: self.round,
            op: self.op@,
        }
    }
}

/// What showing a change for review did.
#[derive(Debug, Clone, PartialEq, Eq)]
pub enum ReviewOutcome {
    /// There was nothing to show.
    Nothing,
    Projected(ReviewLine),
}

/// The model of a [`ReviewOutcome`].
pub enum ReviewModel {
    Nothing,
    Projected(ReviewLineModel),
}

impl DeepView for ReviewOutcome {
    type V = ReviewModel;

    open spec fn deep_view(&self) -> ReviewModel {
        match self {
            ReviewOutcome::Nothing => ReviewModel::Nothing,
            ReviewOutcome::Projected(l) => ReviewModel::Projected(l.deep_view()),
        }
    }
}

/// The value of the last word `key=value`.
pub open spec fn value_of(ws: Seq<Seq<char>>, key: Seq<char>) -> Option<Seq<char>>
    decreases ws.len(),
{
    if ws.len() == 0 {
        None
    } else {
        match split_at(ws.last(), '=') {
            Some((k, v)) => if k == key {
                Some(v)
            } else {
                value_of(ws.drop_last(), key)
            },
            None => value_of(ws.drop_last(), key),
        }
    }
}

/// The error for a value that is not there.
pub open spec fn missing(key: Seq<char>, line: Seq<char>) -> Seq<char> {
    "review line missing "@ + key + ": "@ + debug_text(line)
}

/// The words of a review line.
pub open spec fn review_words(line: Seq<char>) -> Seq<Seq<char>> {
    words_of(
        trimmed(
            match after(line, "review:"@) {
                Some(rest) => rest,
                None => line,
            },
        ),
    )
}

/// The owner of a review line: `-`, or none, is the primary.
pub open spec fn owner_of(ws: Seq<Seq<char>>) -> Seq<char> {
    match value_of(ws, "owner"@) {
        Some(o) => if o == "-"@ {
            Seq::empty()
        } else {
            o
        },
        None => Seq::empty(),
    }
}

/// What a review line says.
pub open spec fn review_in(line: Seq<char>) -> Result<ReviewModel, Seq<char>> {
    let ws = review_words(line);
    if value_of(ws, "op"@) == Some("none"@) {
        Ok(ReviewModel::Nothing)
    } else if value_of(ws, "round"@) is None {
        Err(missing("round"@, line))
    } else if number_in(value_of(ws, "round"@)->Some_0) is None {
        Err("review line: bad round: "@ + debug_text(line))
    } else if value_of(ws, "dock"@) is None {
        Err(missing("dock"@, line))
    } else if value_of(ws, "branch"@) is None {
        Err(missing("branch"@, line))
    } else if value_of(ws, "sha"@) is None {
        Err(missing("sha"@, line))
    } else if value_of(ws, "change"@) is None {
        Err(missing("change"@, line))
    } else if value_of(ws, "version"@) is None {
        Err(missing("version"@, line))
    } else if value_of(ws, "op"@) is None {
        Err(missing("op"@, line))
    } else {
        Ok(
            ReviewModel::Projected(
                ReviewLineModel {
                    dock: value_of(ws, "dock"@)->Some_0,
                    owner: owner_of(ws),
                    branch: value_of(ws, "branch"@)->Some_0,
                    sha: value_of(ws, "sha"@)->Some_0,
                    change: value_of(ws, "change"@)->Some_0,
                    version: value_of(ws, "version"@)->Some_0,
                    round: number_in(value_of(ws, "round"@)->Some_0)->Some_0,
                    op: value_of(ws, "op"@)->Some_0,
                },
            ),
        )
    }
}

fn find_value(ws: &Vec<String>, key: &str) -> (r: Option<String>)
    ensures
        r.deep_view() == value_of(ws.deep_view(), key@),
{
    let ghost all = ws.deep_view();
    let mut i: usize = ws.len();
    assert(all.take(all.len() as int) =~= all);
    while i > 0
        invariant
            0 <= i <= ws@.len(),
            all == ws.deep_view(),
            value_of(all, key@) == value_of(all.take(i as int), key@),
        decreases i,
    {
        proof {
            let t = all.take(i as int);
            assert(t.last() == ws@[i - 1]@);
            assert(t.drop_last() =~= all.take(i as int - 1));
        }
        if let Some((k, v)) = split_once(ws[i - 1].as_str(), '=') {
            if same_text(k.as_str(), key) {
                return Some(v);
            }
        }
        i = i - 1;
    }
    None
}

fn get(ws: &Vec<String>, key: &str, line: &str) -> (r: Result<String, String>)
    ensures
        match value_of(ws.deep_view(), key@) {
            Some(v) => r matches Ok(x) && x@ == v,
            None => r matches Err(e) && e@ == missing(key@, line@),
        },
{
    match find_value(ws, key) {
        Some(v) => Ok(v),
        None => {
            let mut e = "review line missing ".to_owned();
            push_text(&mut e, key);
            push_text(&mut e, ": ");
            push_text(&mut e, debug_of(line).as_str());
            Err(e)
        },
    }
}

/// What a review line says. With `op=none` there was nothing; else every value must
/// be there, but for the owner.
pub fn parse_review_line(line: &str) -> (r: Result<ReviewOutcome, String>)
    ensures
        match r {
            Ok(x) => review_in(line@) == Ok::<ReviewModel, Seq<char>>(x.deep_view()),
            Err(e) => review_in(line@) == Err::<ReviewModel, Seq<char>>(e@),
        },
{
    let body = match strip_prefix(line, "review:") {
        Some(rest) => trim(rest.as_str()),
        None => trim(line),
    };
    let ws = words(body.as_str());
    assert(ws.deep_view() == review_words(line@));
    if let Some(op) = find_value(&ws, "op") {
        if same_text(op.as_str(), "none") {
            return Ok(ReviewOutcome::Nothing);
        }
    }
    let round_word = get(&ws, "round", line)?;
    let round: u64 = match parse_number(round_word.as_str()) {
        Some(n) => n,
        None => {
            let mut e = "review line: bad round: ".to_owned();
            push_text(&mut e, debug_of(line).as_str());
            return Err(e);
        },
    };
    let none = String::new();
    assert(none@ =~= Seq::<char>::empty());
    let owner = match find_value(&ws, "owner") {
        None => none,
        Some(o) => if same_text(o.as_str(), "-") {
            none
        } else {
            o
        },
    };
    let dock = get(&ws, "dock", line)?;
    let branch = get(&ws, "branch", line)?;
    let sha = get(&ws, "sha", line)?;
    let change = get(&ws, "change", line)?;
    let version = get(&ws, "version", line)?;
    let op = get(&ws, "op", line)?;
    Ok(ReviewOutcome::Projected(ReviewLine { dock, owner, branch, sha, change, version, round, op }))
}

// ---------------------------------------------------------------------------
// Laws
// ---------------------------------------------------------------------------

/// Where changes were asked for, nothing is approved, whoever wrote it.
pub proof fn law_requested_changes_refuse(author: Seq<char>, viewer: Seq<char>)
    ensures
        approval_of(ReviewDecision::ChangesRequested, author, viewer) == Approval::Refused,
{
}

/// Only one's own lands without the word of another.
pub proof fn law_fast_path_is_ones_own(decision: ReviewDecision, author: Seq<char>, viewer: Seq<char>)
    requires
        approval_of(decision, author, viewer) == Approval::SelfAuthoredFastPath,
    ensures
        author == viewer,
{
}

/// Where main did not move, nothing is taken for merged.
pub proof fn law_unmoved_main_is_not_merged(polled: PrState)
    ensures
        landing_of(false, polled) == LandingStatus::ClosedWithPointer,
{
}

/// What is approved: what another has approved; else one's own, unless changes were asked
/// for; and nothing else.
pub proof fn law_what_is_approved(decision: ReviewDecision, author: Seq<char>, viewer: Seq<char>)
    ensures
        approval_of(decision, author, viewer) == Approval::Approved <==> decision == ReviewDecision::Approved,
        approval_of(decision, author, viewer) == Approval::SelfAuthoredFastPath <==> author == viewer && decision
            != ReviewDecision::Approved && decision != ReviewDecision::ChangesRequested,
{
}

/// A review is stale where both versions are known and are not the same, and nowhere else.
pub proof fn law_amended_is_stale(a: Seq<char>, b: Seq<char>, other: Option<Seq<char>>)
    ensures
        currency_of(Some(a), Some(b)) == Currency::Stale <==> a != b,
        currency_of(None, other) == Currency::Current,
        currency_of(other, None) == Currency::Current,
{
}

/// How a landing ended: merged where main moved and the forge says so, collapsed where main
/// moved and the forge closed it, and else with a pointer.
pub proof fn law_how_it_landed(moved: bool, polled: PrState)
    ensures
        landing_of(moved, polled) == LandingStatus::Merged <==> moved && polled == PrState::Merged,
        landing_of(moved, polled) == LandingStatus::ClosedByCollapse <==> moved && polled == PrState::Closed,
{
}

/// A mirror is warned of just where the forge has what it has not; and the warning tells a
/// mirror that is behind from one that has parted ways.
pub proof fn law_drift_is_told(mirror: Seq<char>, origin: Seq<char>, a: Ancestry)
    ensures
        drift_warning(mirror, origin, a) is Some <==> a == Ancestry::MirrorBehind || a == Ancestry::Diverged,
        a == Ancestry::MirrorBehind ==> has_beginning(
            drift_warning(mirror, origin, a)->Some_0,
            "loot mirror is behind origin/main ("@,
        ),
        a == Ancestry::Diverged ==> has_beginning(
            drift_warning(mirror, origin, a)->Some_0,
            "loot mirror has DIVERGED from origin/main ("@,
        ),
{
    if a == Ancestry::MirrorBehind {
        let p = "loot mirror is behind origin/main ("@;
        assert(drift_warning(mirror, origin, a)->Some_0.take(p.len() as int) =~= p);
    }
    if a == Ancestry::Diverged {
        let p = "loot mirror has DIVERGED from origin/main ("@;
        assert(drift_warning(mirror, origin, a)->Some_0.take(p.len() as int) =~= p);
    }
}

/// A text begins with another.
pub open spec fn has_beginning(s: Seq<char>, p: Seq<char>) -> bool {
    p.len() <= s.len() && s.take(p.len() as int) == p
}

/// A word gives a key this value.
pub open spec fn gives(word: Seq<char>, key: Seq<char>, value: Seq<char>) -> bool {
    word == key + "="@ + value && !key.contains('=')
}

/// A key has the value that the last word for it gives, and none where no word does.
pub proof fn law_last_word_gives_the_value(ws: Seq<Seq<char>>, key: Seq<char>, value: Seq<char>)
    requires
        !key.contains('='),
    ensures
        value_of(ws, key) == Some(value) <==> exists|i: int|
            0 <= i < ws.len() && gives(#[trigger] ws[i], key, value) && forall|j: int, v: Seq<char>|
                i < j < ws.len() ==> !#[trigger] gives(ws[j], key, v),
        value_of(ws, key) is None ==> forall|i: int, v: Seq<char>|
            0 <= i < ws.len() ==> !#[trigger] gives(ws[i], key, v),
    decreases ws.len(),
{
    reveal_strlit("=");
    if ws.len() > 0 {
        let front = ws.drop_last();
        let last = ws.len() - 1;
        let w = ws.last();
        assert(ws[last] == w);
        law_last_word_gives_the_value(front, key, value);
        assert forall|v: Seq<char>| #[trigger] gives(w, key, v) <==> split_at(w, '=') == Some((key, v)) by {
            lemma_gives(w, key, v);
        }
        assert forall|i: int, v: Seq<char>| 0 <= i < last implies #[trigger] gives(front[i], key, v) == gives(
            ws[i],
            key,
            v,
        ) by {
            assert(front[i] == ws[i]);
        }
        let own = split_at(w, '=') is Some && split_at(w, '=')->Some_0.0 == key;
        if own {
            let v = split_at(w, '=')->Some_0.1;
            assert(gives(ws[last], key, v));
            if value_of(ws, key) == Some(value) {
                assert(gives(ws[last], key, value));
            }
            if exists|i: int|
                0 <= i < ws.len() && gives(#[trigger] ws[i], key, value) && forall|j: int, v: Seq<char>|
                    i < j < ws.len() ==> !#[trigger] gives(ws[j], key, v) {
                let i = choose|i: int|
                    0 <= i < ws.len() && gives(#[trigger] ws[i], key, value) && forall|j: int, v: Seq<char>|
                        i < j < ws.len() ==> !#[trigger] gives(ws[j], key, v);
                assert(i == last);
            }
        } else {
            assert forall|v: Seq<char>| !#[trigger] gives(ws[last], key, v) by {
                assert(gives(w, key, v) <==> split_at(w, '=') == Some((key, v)));
            }
            if value_of(ws, key) == Some(value) {
                let i = choose|i: int|
                    0 <= i < front.len() && gives(#[trigger] front[i], key, value) && forall|j: int, v: Seq<char>|
                        i < j < front.len() ==> !#[trigger] gives(front[j], key, v);
                assert(gives(ws[i], key, value));
                assert forall|j: int, v: Seq<char>| i < j < ws.len() implies !#[trigger] gives(ws[j], key, v) by {
                    if j < last {
                        assert(front[j] == ws[j]);
                        assert(!gives(front[j], key, v));
                    }
                }
            }
            if exists|i: int|
                0 <= i < ws.len() && gives(#[trigger] ws[i], key, value) && forall|j: int, v: Seq<char>|
                    i < j < ws.len() ==> !#[trigger] gives(ws[j], key, v) {
                let i = choose|i: int|
                    0 <= i < ws.len() && gives(#[trigger] ws[i], key, value) && forall|j: int, v: Seq<char>|
                        i < j < ws.len() ==> !#[trigger] gives(ws[j], key, v);
                assert(i < last);
                assert(gives(front[i], key, value));
                assert forall|j: int, v: Seq<char>| i < j < front.len() implies !#[trigger] gives(front[j], key, v) by {
                    assert(front[j] == ws[j]);
                    assert(!gives(ws[j], key, v));
                }
            }
            if value_of(ws, key) is None {
                assert forall|i: int, v: Seq<char>| 0 <= i < ws.len() implies !#[trigger] gives(ws[i], key, v) by {
                    if i < last {
                        assert(!gives(front[i], key, v));
                    }
                }
            }
        }
    }
}

proof fn lemma_gives(w: Seq<char>, key: Seq<char>, v: Seq<char>)
    requires
        !key.contains('='),
    ensures
        gives(w, key, v) <==> split_at(w, '=') == Some((key, v)),
{
    reveal_strlit("=");
    let n = crate::split::place(w, '=');
    crate::split::lemma_place(w, '=');
    let k = key.len() as int;
    if gives(w, key, v) {
        assert(w[k] == '=');
        assert forall|i: int| 0 <= i < k implies w[i] != '=' by {
            assert(w[i] == key[i]);
            assert(key.contains(key[i]));
        }
        assert(n == k);
        assert(w.take(n) =~= key);
        assert(w.skip(n + 1) =~= v);
    }
    if split_at(w, '=') == Some((key, v)) {
        assert(w =~= key + "="@ + v);
    }
}

/// A review line tells of a change that was shown just where it says so with all values but
/// the owner, of which the round is a number; and of nothing where it says that.
pub proof fn law_review_line_tells_all(line: Seq<char>)
    ensures
        ({
            let ws = review_words(line);
            let r = review_in(line);
            let all = value_of(ws, "dock"@) is Some && value_of(ws, "branch"@) is Some && value_of(ws, "sha"@) is Some
                && value_of(ws, "change"@) is Some && value_of(ws, "version"@) is Some && value_of(ws, "op"@) is Some
                && value_of(ws, "round"@) is Some && number_in(value_of(ws, "round"@)->Some_0) is Some;
            let none = value_of(ws, "op"@) == Some("none"@);
            &&& none <==> r == Ok::<ReviewModel, Seq<char>>(ReviewModel::Nothing)
            &&& !none ==> (r is Ok <==> all)
            &&& !none && all ==> {
                let l = r->Ok_0->Projected_0;
                &&& r->Ok_0 is Projected
                &&& Some(l.dock) == value_of(ws, "dock"@) && Some(l.branch) == value_of(ws, "branch"@)
                &&& Some(l.sha) == value_of(ws, "sha"@) && Some(l.change) == value_of(ws, "change"@)
                &&& Some(l.version) == value_of(ws, "version"@) && Some(l.op) == value_of(ws, "op"@)
                &&& Some(l.round) == number_in(value_of(ws, "round"@)->Some_0)
                &&& value_of(ws, "owner"@) is None || value_of(ws, "owner"@) == Some("-"@) ==> l.owner.len() == 0
                &&& value_of(ws, "owner"@) is Some && value_of(ws, "owner"@) != Some("-"@) ==> Some(l.owner) == value_of(
                    ws,
                    "owner"@,
                )
            }
        }),
{
}

} // verus!
