//! Landing, from step to step.
//!
//! Between two steps something is done outside; [`LandEvent`] says what came of it,
//! and [`next`] where it goes from there.

use crate::ledger::{first_lane, of_pr, PrLane, PrMap};
use crate::orchestrator::{harbor_moved_main, landing_word, landing_words, Gate, GateModel};
use crate::policy::{pre_land, text_model, LandingStatus, PreLand};
use crate::split::{cut, first_bytes};
use crate::text::{decimal, join, joined, push_decimal, push_text};
use crate::value::Value;
use vstd::prelude::*;

verus! {

/// What is to land, and how.
pub struct LandJob<'a> {
    pub pr: u64,
    /// The change, by the id that lasts.
    pub change: &'a str,
    pub skip_tests: bool,
    /// Only the guard is asked.
    pub dry_run: bool,
    /// The lane that this is; none on the primary.
    pub lane: Option<&'a str>,
}

/// The model of a [`LandJob`].
pub struct JobModel {
    pub pr: u64,
    pub change: Seq<char>,
    pub skip_tests: bool,
    pub dry_run: bool,
    pub lane: Option<Seq<char>>,
}

impl<'a> DeepView for LandJob<'a> {
    type V = JobModel;

    open spec fn deep_view(&self) -> JobModel {
        JobModel {
            pr: self.pr,
            change: self.change@,
            skip_tests: self.skip_tests,
            dry_run: self.dry_run,
            lane: text_model(self.lane),
        }
    }
}

/// What is to be done next.
#[derive(Debug, Clone, PartialEq, Eq)]
pub enum LandStep {
    /// Ask the guard.
    AskGate,
    RunTests,
    /// Finish and sign the change.
    Finalize,
    /// Take the lock.
    Lock,
    /// Bring the change to the mirror's main.
    Ferry,
    /// Main did not move: find out whether it carries the change already.
    Prove { main: String },
    /// Publish main, and move the pull request onto it.
    Publish { main: String },
    /// Give the lock back.
    Unlock { main: String, status: LandingStatus },
    /// Push to the relay.
    Relay { main: String, status: LandingStatus },
    /// Take the lane out of the ledger.
    Clear { main: String, status: LandingStatus },
    /// Mark the lane as landed.
    Mark,
    Done,
    Failed(String),
}

/// The model of a [`LandStep`].
pub enum LandModel {
    AskGate,
    RunTests,
    Finalize,
    Lock,
    Ferry,
    Prove { main: Seq<char> },
    Publish { main: Seq<char> },
    Unlock { main: Seq<char>, status: LandingStatus },
    Relay { main: Seq<char>, status: LandingStatus },
    Clear { main: Seq<char>, status: LandingStatus },
    Mark,
    Done,
    Failed(Seq<char>),
}

impl DeepView for LandStep {
    type V = LandModel;

    open spec fn deep_view(&self) -> LandModel {
        match self {
            LandStep::AskGate => LandModel::AskGate,
            LandStep::RunTests => LandModel::RunTests,
            LandStep::Finalize => LandModel::Finalize,
            LandStep::Lock => LandModel::Lock,
            LandStep::Ferry => LandModel::Ferry,
            LandStep::Prove { main } => LandModel::Prove { main: main@ },
            LandStep::Publish { main } => LandModel::Publish { main: main@ },
            LandStep::Unlock { main, status } => LandModel::Unlock { main: main@, status: *status },
            LandStep::Relay { main, status } => LandModel::Relay { main: main@, status: *status },
            LandStep::Clear { main, status } => LandModel::Clear { main: main@, status: *status },
            LandStep::Mark => LandModel::Mark,
            LandStep::Done => LandModel::Done,
            LandStep::Failed(t) => LandModel::Failed(t@),
        }
    }
}

/// What came of a step.
#[derive(Debug, Clone, PartialEq, Eq)]
pub enum LandEvent {
    /// What the guard said.
    Gated(Gate),
    /// It was done.
    Went,
    /// It could not be done.
    Failed(String),
    /// The change does not fit with what landed meanwhile; these paths are in conflict.
    Conflicted(Vec<String>),
    /// The mirror's main before and after.
    Ferried { before: Option<String>, after: String },
    /// Whether main carries the change already.
    Proved(bool),
    /// How publishing ended.
    Published(LandingStatus),
}

/// The model of a [`LandEvent`].
pub enum EventModel {
    Gated(GateModel),
    Went,
    Failed(Seq<char>),
    Conflicted(Seq<Seq<char>>),
    Ferried { before: Option<Seq<char>>, after: Seq<char> },
    Proved(bool),
    Published(LandingStatus),
}

impl DeepView for LandEvent {
    type V = EventModel;

    open spec fn deep_view(&self) -> EventModel {
        match self {
            LandEvent::Gated(g) => EventModel::Gated(g.deep_view()),
            LandEvent::Went => EventModel::Went,
            LandEvent::Failed(e) => EventModel::Failed(e@),
            LandEvent::Conflicted(ps) => EventModel::Conflicted(ps.deep_view()),
            LandEvent::Ferried { before, after } => EventModel::Ferried {
                before: before.deep_view(),
                after: after@,
            },
            LandEvent::Proved(b) => EventModel::Proved(*b),
            LandEvent::Published(s) => EventModel::Published(*s),
        }
    }
}

/// Where it goes, and what is said on the way.
pub struct Turn {
    pub step: LandStep,
    pub said: Vec<String>,
}

/// The model of a [`Turn`].
pub type TurnModel = (LandModel, Seq<Seq<char>>);

impl DeepView for Turn {
    type V = TurnModel;

    open spec fn deep_view(&self) -> TurnModel {
        (self.step.deep_view(), self.said.deep_view())
    }
}

// ---------------------------------------------------------------------------
// Words
// ---------------------------------------------------------------------------

/// The guard let it through.
pub open spec fn approved_line(pr: u64, fast: bool) -> Seq<char> {
    "land: pr #"@ + decimal(pr as nat) + " approved"@ + (if fast {
        " (self-authored fast path)"@
    } else {
        ""@
    })
}

/// The change is in conflict with what landed.
pub open spec fn bounce_text(pr: u64, paths: Seq<Seq<char>>) -> Seq<char> {
    "harbor bounce: this change conflicts with what landed on main while you worked ("@ + joined(paths, ", "@)
        + ") — nothing was pushed and your signed change is safe. Reconcile each with `loot resolve <path> <file>`, then re-run `loot-first land --pr "@
        + decimal(pr as nat) + "`."@
}

/// Main did not move.
pub open spec fn unmoved_text(main: Seq<char>) -> Seq<char> {
    "harbor: git-main did not move (still "@ + first_bytes(main, 12)->Some_0
        + ") — this lane's change was not integrated into the harbor, so there is nothing to collapse the PR onto (issue #195). Nothing was pushed; check the `loot ferry` output above."@
}

/// Main carried the change already.
pub const OWED_LINE: &'static str =
    "harbor: main did not move in this land, but it already carries this land's signed tip ahead of origin/main — an earlier ferry projected it (#349); proceeding to the owed push + PR collapse";

/// Main is about to be published.
pub open spec fn publish_line(main: Seq<char>) -> Seq<char> {
    ">>> publish main + collapse PR head → "@ + first_bytes(main, 8)->Some_0
}

/// The relay could not be reached.
pub open spec fn relay_warning(e: Seq<char>) -> Seq<char> {
    "warning: relay push failed ("@ + e + "); the land stands — retry `loot push`."@
}

/// It has landed.
pub open spec fn landed_line(j: JobModel, main: Seq<char>, status: LandingStatus) -> Seq<char> {
    "landed: change_id="@ + j.change + " main="@ + main + " pr=#"@ + decimal(j.pr as nat) + " status="@
        + landing_words(status)
}

/// The lane was marked.
pub open spec fn marked_line(lane: Seq<char>) -> Seq<char> {
    "lane '"@ + lane + "' marked landed — `loot lane gc` (from the primary) reaps it unless it was named"@
}

/// The lane could not be marked.
pub open spec fn unmarked_line(lane: Seq<char>, e: Seq<char>) -> Seq<char> {
    "warning: could not mark lane '"@ + lane + "' landed ("@ + e + ")"@
}

/// The primary does not follow by itself.
pub const BEHIND_NOTE: &'static str =
    "note: the primary's main dock is now behind landed main — `loot adopt` from the primary fast-forwards it (any bare `loot ferry` there does too).";

pub const DRY_LINE: &'static str = "(dry run) stopping before finalize";

pub const SKIP_LINE: &'static str = "pre-land cargo test SKIPPED (--skip-tests break-glass)";

pub const TEST_LINE: &'static str = ">>> cargo test  (pre-land gate: the landed commit must build)";

pub const FINALIZE_LINE: &'static str = ">>> loot new  (finalize + sign)";

pub const LOCK_LINE: &'static str = ">>> harbor: acquiring the land lock";

pub const FERRY_LINE: &'static str = ">>> loot ferry  (project signed change → main, reap the lane)";

pub const RELAY_LINE: &'static str = ">>> loot push  (relay)";

/// An event that does not belong to the step.
pub const OUT_OF_STEP: &'static str = "land: out of step";

// ---------------------------------------------------------------------------
// The steps
// ---------------------------------------------------------------------------

/// Commit names can be shortened where they are told of: main where it is published,
/// and main that did not move where it does not carry the change.
pub open spec fn can_tell(s: LandModel, e: EventModel) -> bool {
    match (s, e) {
        (LandModel::Ferry, EventModel::Ferried { before, after }) => before != Some(after) ==> first_bytes(
            after,
            8,
        ) is Some,
        (LandModel::Prove { main }, EventModel::Proved(carried)) => if carried {
            first_bytes(main, 8) is Some
        } else {
            first_bytes(main, 12) is Some
        },
        _ => true,
    }
}

/// Where it goes from a step with an event, and what is said on the way.
pub open spec fn land_next(j: JobModel, s: LandModel, e: EventModel) -> TurnModel {
    match (s, e) {
        (LandModel::Done, _) => (s, Seq::empty()),
        (LandModel::Failed(t), _) => (s, Seq::empty()),
        (LandModel::AskGate, EventModel::Gated(GateModel::Refuse(why))) => (LandModel::Failed(why), Seq::empty()),
        (LandModel::AskGate, EventModel::Gated(GateModel::Proceed { self_fast_path })) => {
            let ok = approved_line(j.pr, self_fast_path);
            if j.dry_run {
                (LandModel::Done, seq![ok, DRY_LINE@])
            } else if j.skip_tests {
                (LandModel::Finalize, seq![ok, SKIP_LINE@, FINALIZE_LINE@])
            } else {
                (LandModel::RunTests, seq![ok, TEST_LINE@])
            }
        },
        (LandModel::RunTests, EventModel::Went) => (LandModel::Finalize, seq![FINALIZE_LINE@]),
        (LandModel::Finalize, EventModel::Went) => (LandModel::Lock, seq![LOCK_LINE@]),
        (LandModel::Lock, EventModel::Went) => (LandModel::Ferry, seq![FERRY_LINE@]),
        (LandModel::Ferry, EventModel::Conflicted(paths)) => (
            LandModel::Failed(bounce_text(j.pr, paths)),
            Seq::empty(),
        ),
        (LandModel::Ferry, EventModel::Ferried { before, after }) => if before != Some(after) {
            (LandModel::Publish { main: after }, seq![publish_line(after)])
        } else {
            (LandModel::Prove { main: after }, Seq::empty())
        },
        (LandModel::Prove { main }, EventModel::Proved(carried)) => if carried {
            (LandModel::Publish { main }, seq![OWED_LINE@, publish_line(main)])
        } else {
            (LandModel::Failed(unmoved_text(main)), Seq::empty())
        },
        (LandModel::Publish { main }, EventModel::Published(status)) => (
            LandModel::Unlock { main, status },
            Seq::empty(),
        ),
        (LandModel::Unlock { main, status }, EventModel::Went) => (
            LandModel::Relay { main, status },
            seq![RELAY_LINE@],
        ),
        (LandModel::Relay { main, status }, EventModel::Went) => (
            LandModel::Clear { main, status },
            Seq::empty(),
        ),
        (LandModel::Relay { main, status }, EventModel::Failed(e)) => (
            LandModel::Clear { main, status },
            seq![relay_warning(e)],
        ),
        (LandModel::Clear { main, status }, EventModel::Went) => (
            if j.lane is Some {
                LandModel::Mark
            } else {
                LandModel::Done
            },
            seq![landed_line(j, main, status)],
        ),
        (LandModel::Mark, EventModel::Went) => (
            LandModel::Done,
            if j.lane is Some {
                seq![marked_line(j.lane->Some_0), BEHIND_NOTE@]
            } else {
                Seq::empty()
            },
        ),
        (LandModel::Mark, EventModel::Failed(e)) => (
            LandModel::Done,
            if j.lane is Some {
                seq![unmarked_line(j.lane->Some_0, e), BEHIND_NOTE@]
            } else {
                Seq::empty()
            },
        ),
        (_, EventModel::Failed(e)) => (LandModel::Failed(e), Seq::empty()),
        _ => (LandModel::Failed(OUT_OF_STEP@), Seq::empty()),
    }
}

fn quiet(step: LandStep) -> (r: Turn)
    ensures
        r.deep_view() == (step.deep_view(), Seq::<Seq<char>>::empty()),
{
    Turn { step, said: crate::seqs::none() }
}

fn saying(step: LandStep, a: String) -> (r: Turn)
    ensures
        r.deep_view() == (step.deep_view(), seq![a@]),
{
    let said = crate::seqs::single(a);
    assert(said.deep_view() =~= seq![a@]);
    Turn { step, said }
}

fn saying_both(step: LandStep, a: String, b: &str) -> (r: Turn)
    ensures
        r.deep_view() == (step.deep_view(), seq![a@, b@]),
{
    let ghost x = a@;
    let mut said = crate::seqs::single(a);
    crate::seqs::push(&mut said, b.to_owned());
    assert(said.deep_view() =~= seq![x, b@]);
    Turn { step, said }
}

fn publish_words(main: &str) -> (r: String)
    requires
        first_bytes(main@, 8) is Some,
    ensures
        r@ == publish_line(main@),
{
    let mut t = ">>> publish main + collapse PR head → ".to_owned();
    push_text(&mut t, cut(main, 8).as_str());
    t
}

fn after_gate(job: &LandJob, gate: Gate) -> (r: Turn)
    ensures
        r.deep_view() == land_next(job.deep_view(), LandModel::AskGate, EventModel::Gated(gate.deep_view())),
{
    match gate {
        Gate::Refuse(why) => quiet(LandStep::Failed(why)),
        Gate::Proceed { self_fast_path } => {
            let mut ok = "land: pr #".to_owned();
            push_decimal(&mut ok, job.pr);
            push_text(&mut ok, " approved");
            push_text(
                &mut ok,
                if self_fast_path {
                    " (self-authored fast path)"
                } else {
                    ""
                },
            );
            if job.dry_run {
                return saying_both(LandStep::Done, ok, DRY_LINE);
            }
            match pre_land(job.skip_tests) {
                PreLand::Skip => {
                    let mut t = saying_both(LandStep::Finalize, ok, SKIP_LINE);
                    crate::seqs::push(&mut t.said, FINALIZE_LINE.to_owned());
                    assert(t.said.deep_view() =~= seq![ok@, SKIP_LINE@, FINALIZE_LINE@]);
                    t
                },
                PreLand::RunTests => saying_both(LandStep::RunTests, ok, TEST_LINE),
            }
        },
    }
}

fn bounce(job: &LandJob, paths: &Vec<String>) -> (r: Turn)
    ensures
        r.deep_view() == land_next(
            job.deep_view(),
            LandModel::Ferry,
            EventModel::Conflicted(paths.deep_view()),
        ),
{
    let mut t = "harbor bounce: this change conflicts with what landed on main while you worked (".to_owned();
    push_text(&mut t, join(paths, ", ").as_str());
    push_text(
        &mut t,
        ") — nothing was pushed and your signed change is safe. Reconcile each with `loot resolve <path> <file>`, then re-run `loot-first land --pr ",
    );
    push_decimal(&mut t, job.pr);
    push_text(&mut t, "`.");
    quiet(LandStep::Failed(t))
}

fn after_proof(job: &LandJob, main: String, carried: bool) -> (r: Turn)
    requires
        can_tell(LandModel::Prove { main: main@ }, EventModel::Proved(carried)),
    ensures
        r.deep_view() == land_next(
            job.deep_view(),
            LandModel::Prove { main: main@ },
            EventModel::Proved(carried),
        ),
{
    if carried {
        let line = publish_words(main.as_str());
        let mut t = saying(LandStep::Publish { main }, OWED_LINE.to_owned());
        crate::seqs::push(&mut t.said, line);
        assert(t.said.deep_view() =~= seq![OWED_LINE@, publish_line(main@)]);
        t
    } else {
        let mut t = "harbor: git-main did not move (still ".to_owned();
        push_text(&mut t, cut(main.as_str(), 12).as_str());
        push_text(
            &mut t,
            ") — this lane's change was not integrated into the harbor, so there is nothing to collapse the PR onto (issue #195). Nothing was pushed; check the `loot ferry` output above.",
        );
        quiet(LandStep::Failed(t))
    }
}

fn after_clear(job: &LandJob, main: &str, status: LandingStatus) -> (r: Turn)
    ensures
        r.deep_view() == land_next(
            job.deep_view(),
            LandModel::Clear { main: main@, status },
            EventModel::Went,
        ),
{
    let mut t = "landed: change_id=".to_owned();
    push_text(&mut t, job.change);
    push_text(&mut t, " main=");
    push_text(&mut t, main);
    push_text(&mut t, " pr=#");
    push_decimal(&mut t, job.pr);
    push_text(&mut t, " status=");
    push_text(&mut t, landing_word(status));
    let step = if job.lane.is_some() {
        LandStep::Mark
    } else {
        LandStep::Done
    };
    saying(step, t)
}

fn after_mark(job: &LandJob, failed: Option<String>) -> (r: Turn)
    ensures
        r.deep_view() == land_next(
            job.deep_view(),
            LandModel::Mark,
            match failed {
                None => EventModel::Went,
                Some(e) => EventModel::Failed(e@),
            },
        ),
{
    match job.lane {
        None => quiet(LandStep::Done),
        Some(id) => {
            let line = match failed {
                None => {
                    let mut t = "lane '".to_owned();
                    push_text(&mut t, id);
                    push_text(
                        &mut t,
                        "' marked landed — `loot lane gc` (from the primary) reaps it unless it was named",
                    );
                    t
                },
                Some(e) => {
                    let mut t = "warning: could not mark lane '".to_owned();
                    push_text(&mut t, id);
                    push_text(&mut t, "' landed (");
                    push_text(&mut t, e.as_str());
                    push_text(&mut t, ")");
                    t
                },
            };
            saying_both(LandStep::Done, line, BEHIND_NOTE)
        },
    }
}

/// Where it goes from a step, with what came of it.
pub fn next(job: &LandJob, step: LandStep, event: LandEvent) -> (r: Turn)
    requires
        can_tell(step.deep_view(), event.deep_view()),
    ensures
        r.deep_view() == land_next(job.deep_view(), step.deep_view(), event.deep_view()),
{
    match (step, event) {
        (LandStep::Done, _) => quiet(LandStep::Done),
        (LandStep::Failed(t), _) => quiet(LandStep::Failed(t)),
        (LandStep::AskGate, LandEvent::Gated(gate)) => after_gate(job, gate),
        (LandStep::RunTests, LandEvent::Went) => saying(LandStep::Finalize, FINALIZE_LINE.to_owned()),
        (LandStep::Finalize, LandEvent::Went) => saying(LandStep::Lock, LOCK_LINE.to_owned()),
        (LandStep::Lock, LandEvent::Went) => saying(LandStep::Ferry, FERRY_LINE.to_owned()),
        (LandStep::Ferry, LandEvent::Conflicted(paths)) => bounce(job, &paths),
        (LandStep::Ferry, LandEvent::Ferried { before, after }) => {
            let was = match &before {
                Some(b) => Some(b.as_str()),
                None => None,
            };
            if harbor_moved_main(was, after.as_str()) {
                let line = publish_words(after.as_str());
                saying(LandStep::Publish { main: after }, line)
            } else {
                quiet(LandStep::Prove { main: after })
            }
        },
        (LandStep::Prove { main }, LandEvent::Proved(carried)) => after_proof(job, main, carried),
        (LandStep::Publish { main }, LandEvent::Published(status)) => quiet(LandStep::Unlock { main, status }),
        (LandStep::Unlock { main, status }, LandEvent::Went) => saying(
            LandStep::Relay { main, status },
            RELAY_LINE.to_owned(),
        ),
        (LandStep::Relay { main, status }, LandEvent::Went) => quiet(LandStep::Clear { main, status }),
        (LandStep::Relay { main, status }, LandEvent::Failed(e)) => {
            let mut t = "warning: relay push failed (".to_owned();
            push_text(&mut t, e.as_str());
            push_text(&mut t, "); the land stands — retry `loot push`.");
            saying(LandStep::Clear { main, status }, t)
        },
        (LandStep::Clear { main, status }, LandEvent::Went) => after_clear(job, main.as_str(), status),
        (LandStep::Mark, LandEvent::Went) => after_mark(job, None),
        (LandStep::Mark, LandEvent::Failed(e)) => after_mark(job, Some(e)),
        (_, LandEvent::Failed(e)) => quiet(LandStep::Failed(e)),
        _ => quiet(LandStep::Failed(OUT_OF_STEP.to_owned())),
    }
}

/// A pull request that the ledger does not know.
pub open spec fn unknown_pr(pr: u64, hint: Option<Seq<char>>) -> Seq<char> {
    let t = "PR #"@ + decimal(pr as nat) + " is not in the pr-map ledger (was it opened by 'review'?)"@;
    match hint {
        Some(h) => t + "\n  "@ + h,
        None => t,
    }
}

/// The lane of a pull request. Where there is none, the hint is told, if there is one.
pub fn find_lane(map: &PrMap, pr: u64, hint: Option<&str>) -> (r: Result<PrLane, String>)
    ensures
        match first_lane(map.lanes.deep_view(), of_pr(pr)) {
            Some(l) => r matches Ok(x) && x.deep_view() == l,
            None => r matches Err(e) && e@ == unknown_pr(pr, text_model(hint)),
        },
{
    match map.lane_for_pr(pr) {
        Some(l) => Ok(l.dup()),
        None => {
            let mut t = "PR #".to_owned();
            push_decimal(&mut t, pr);
            push_text(&mut t, " is not in the pr-map ledger (was it opened by 'review'?)");
            if let Some(h) = hint {
                push_text(&mut t, "\n  ");
                push_text(&mut t, h);
            }
            Err(t)
        },
    }
}

// ---------------------------------------------------------------------------
// Laws
// ---------------------------------------------------------------------------

/// Where it is after these events.
pub open spec fn landing_at(j: JobModel, events: Seq<EventModel>) -> LandModel
    decreases events.len(),
{
    if events.len() == 0 {
        LandModel::AskGate
    } else {
        land_next(j, landing_at(j, events.drop_last()), events.last()).0
    }
}

/// It got past the guard and has not failed.
pub open spec fn past_gate(s: LandModel) -> bool {
    !(s is AskGate) && !(s is Done) && !(s is Failed)
}

/// The lock is held.
pub open spec fn under_lock(s: LandModel) -> bool {
    s is Ferry || s is Prove || s is Publish || s is Unlock
}

/// Nothing is done to a change that the guard did not let through, and nothing at all
/// in a dry run.
pub proof fn law_gate_comes_first(j: JobModel, events: Seq<EventModel>)
    requires
        past_gate(landing_at(j, events)),
    ensures
        !j.dry_run,
        events.len() > 0,
        events[0] matches EventModel::Gated(g) && g is Proceed,
    decreases events.len(),
{
    if events.len() > 0 {
        let before = events.drop_last();
        if events.len() == 1 {
            assert(landing_at(j, before) is AskGate);
            assert(events.last() == events[0]);
        } else {
            if past_gate(landing_at(j, before)) {
                law_gate_comes_first(j, before);
                assert(before[0] == events[0]);
            } else {
                lemma_gate_is_left(j, before);
            }
        }
    }
}

/// The first event leads away from the guard, for good.
proof fn lemma_gate_is_left(j: JobModel, events: Seq<EventModel>)
    requires
        events.len() > 0,
    ensures
        !(landing_at(j, events) is AskGate),
    decreases events.len(),
{
    if events.len() > 1 {
        lemma_gate_is_left(j, events.drop_last());
    } else {
        assert(landing_at(j, events.drop_last()) is AskGate);
    }
}

/// Main is published only where the change got into it, by this landing or an earlier
/// one, and under the lock.
pub proof fn law_only_what_is_in_main_is_published(j: JobModel, s: LandModel, e: EventModel)
    requires
        land_next(j, s, e).0 is Publish,
    ensures
        under_lock(s),
        (s is Ferry && (e matches EventModel::Ferried { before, after } && before != Some(after))) || (s is Prove
            && e == EventModel::Proved(true)),
{
}

/// A change that is in conflict with what landed ends the landing: nothing is pushed.
pub proof fn law_conflict_ends_it(j: JobModel, paths: Seq<Seq<char>>, later: EventModel)
    ensures
        land_next(j, LandModel::Ferry, EventModel::Conflicted(paths)).0 is Failed,
        land_next(j, land_next(j, LandModel::Ferry, EventModel::Conflicted(paths)).0, later).0 is Failed,
{
}

/// A change is finished only after its tests went well, unless they are to be skipped.
pub proof fn law_tests_come_before_finish(j: JobModel, s: LandModel, e: EventModel)
    requires
        land_next(j, s, e).0 is Finalize,
    ensures
        (s is RunTests && e is Went) || (s is AskGate && j.skip_tests && !j.dry_run),
{
}

/// What was published stays landed, whatever becomes of the relay.
pub proof fn law_relay_does_not_unland(j: JobModel, main: Seq<char>, status: LandingStatus, e: Seq<char>)
    ensures
        land_next(j, LandModel::Relay { main, status }, EventModel::Failed(e)).0 == (LandModel::Clear {
            main,
            status,
        }),
{
}

proof fn lemma_one_event_more(j: JobModel, es: Seq<EventModel>, e: EventModel)
    ensures
        landing_at(j, es.push(e)) == land_next(j, landing_at(j, es), e).0,
{
    assert(es.push(e).drop_last() =~= es);
}

/// What happens to a change until it is in main, where nothing stands in the way.
pub open spec fn way_to_main(j: JobModel, fast: bool) -> Seq<EventModel> {
    let start = seq![EventModel::Gated(GateModel::Proceed { self_fast_path: fast })];
    let tested = if j.skip_tests {
        start
    } else {
        start.push(EventModel::Went)
    };
    tested.push(EventModel::Went).push(EventModel::Went)
}

/// A landing that nothing stands in the way of: after the guard come the tests, unless they
/// are to be skipped, the signature, the lock, and main; where main moved, or carries the
/// change already, it is published; then the lock is given back, the relay is told, the lane
/// leaves the ledger and is marked, and it is done, as it was published.
pub proof fn law_landing_runs_through(
    j: JobModel,
    fast: bool,
    before: Option<Seq<char>>,
    after: Seq<char>,
    status: LandingStatus,
    e: Seq<char>,
)
    requires
        !j.dry_run,
    ensures
        ({
            let w = way_to_main(j, fast);
            let ferried = w.push(EventModel::Ferried { before, after });
            let ready = if before == Some(after) {
                ferried.push(EventModel::Proved(true))
            } else {
                ferried
            };
            let told = ready.push(EventModel::Published(status)).push(EventModel::Went);
            let cleared = told.push(EventModel::Went).push(EventModel::Went);
            let unrelayed = told.push(EventModel::Failed(e)).push(EventModel::Went);
            &&& landing_at(j, w) is Ferry
            &&& landing_at(j, ready) == (LandModel::Publish { main: after })
            &&& landing_at(j, ready.push(EventModel::Published(status))) == (LandModel::Unlock { main: after, status })
            &&& landing_at(j, told) == (LandModel::Relay { main: after, status })
            &&& landing_at(j, cleared) == landing_at(j, unrelayed)
            &&& j.lane is None ==> landing_at(j, cleared) is Done
            &&& j.lane is Some ==> landing_at(j, cleared) is Mark && landing_at(j, cleared.push(EventModel::Went))
                is Done && landing_at(j, cleared.push(EventModel::Failed(e))) is Done
        }),
{
    let start = seq![EventModel::Gated(GateModel::Proceed { self_fast_path: fast })];
    assert(start.drop_last() =~= Seq::<EventModel>::empty());
    assert(landing_at(j, start.drop_last()) is AskGate);
    assert(landing_at(j, start) == land_next(j, LandModel::AskGate, start[0]).0);
    let tested = if j.skip_tests {
        start
    } else {
        start.push(EventModel::Went)
    };
    lemma_one_event_more(j, start, EventModel::Went);
    assert(landing_at(j, tested) is Finalize);
    lemma_one_event_more(j, tested, EventModel::Went);
    lemma_one_event_more(j, tested.push(EventModel::Went), EventModel::Went);
    let w = way_to_main(j, fast);
    let ferried = w.push(EventModel::Ferried { before, after });
    lemma_one_event_more(j, w, EventModel::Ferried { before, after });
    lemma_one_event_more(j, ferried, EventModel::Proved(true));
    let ready = if before == Some(after) {
        ferried.push(EventModel::Proved(true))
    } else {
        ferried
    };
    let out = ready.push(EventModel::Published(status));
    lemma_one_event_more(j, ready, EventModel::Published(status));
    lemma_one_event_more(j, out, EventModel::Went);
    let told = out.push(EventModel::Went);
    lemma_one_event_more(j, told, EventModel::Went);
    lemma_one_event_more(j, told, EventModel::Failed(e));
    lemma_one_event_more(j, told.push(EventModel::Went), EventModel::Went);
    lemma_one_event_more(j, told.push(EventModel::Failed(e)), EventModel::Went);
    let cleared = told.push(EventModel::Went).push(EventModel::Went);
    lemma_one_event_more(j, cleared, EventModel::Went);
    lemma_one_event_more(j, cleared, EventModel::Failed(e));
}

/// A failure ends a landing with what was said of it, unless it was published before; a
/// landing that was refused, or whose main neither moved nor carries the change, has failed;
/// and one that has failed or is done stays so.
pub proof fn law_failure_ends_it(j: JobModel, s: LandModel, e: EventModel, why: Seq<char>, main: Seq<char>)
    ensures
        !(s is Relay) && !(s is Mark) && !(s is Done) && !(s is Failed) ==> land_next(j, s, EventModel::Failed(why)).0
            == LandModel::Failed(why),
        land_next(j, LandModel::AskGate, EventModel::Gated(GateModel::Refuse(why))).0 == LandModel::Failed(why),
        land_next(j, LandModel::Prove { main }, EventModel::Proved(false)).0 is Failed,
        s is Done || s is Failed ==> land_next(j, s, e).0 == s,
        j.dry_run && e is Gated ==> land_next(j, LandModel::AskGate, e).0 is Done || land_next(j, LandModel::AskGate, e).0
            is Failed,
{
}

} // verus!
