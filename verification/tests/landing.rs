use loot::command::{parse_command, Command};
use loot::forge::{PrState, PrView, ReviewDecision};
use loot::ledger::{PrLane, PrMap};
use loot::orchestrator::land::{
    find_lane, next, LandEvent, LandJob, LandStep, BEHIND_NOTE, DRY_LINE, FERRY_LINE, FINALIZE_LINE, LOCK_LINE,
    OWED_LINE, RELAY_LINE, SKIP_LINE, TEST_LINE,
};
use loot::orchestrator::review::{
    after_create, after_look, after_push, after_record, begin, ReviewJob, ReviewStep,
};
use loot::orchestrator::{
    already_projected_unpushed, decide_gate, hex8, landing_word, mirror_ancestry, position_name, resolve_title,
    status_lines, tag_call, tag_next, tag_refspec, tracked_dock, ForgeCall, Gate, LandFacts, Reply, TagStep, Unmoved,
};
use loot::policy::{parse_review_line, Ancestry, LandingStatus, ReviewLine, ReviewOutcome};

const SHA: &str = "abcdef0123456789abcdef0123456789abcdef01";
const OLD: &str = "1111111111111111111111111111111111111111";

fn job(lane: Option<&'static str>) -> LandJob<'static> {
    LandJob { pr: 218, change: "deadbeef", skip_tests: false, dry_run: false, lane }
}

fn proceed() -> LandEvent {
    LandEvent::Gated(Gate::Proceed { self_fast_path: false })
}

/// Takes the steps one by one, and gives the step it ends in and all that was said.
fn walk(job: &LandJob, events: Vec<LandEvent>) -> (LandStep, Vec<String>) {
    let mut step = LandStep::AskGate;
    let mut said = Vec::new();
    for e in events {
        let turn = next(job, step, e);
        step = turn.step;
        said.extend(turn.said);
    }
    (step, said)
}

fn ferried() -> LandEvent {
    LandEvent::Ferried { before: Some(OLD.to_string()), after: SHA.to_string() }
}

fn unmoved() -> LandEvent {
    LandEvent::Ferried { before: Some(SHA.to_string()), after: SHA.to_string() }
}

#[test]
fn a_lane_lands_from_guard_to_mark() {
    let (step, said) = walk(
        &job(Some("t67")),
        vec![
            proceed(),
            LandEvent::Went,
            LandEvent::Went,
            LandEvent::Went,
            ferried(),
            LandEvent::Published(LandingStatus::Merged),
            LandEvent::Went,
            LandEvent::Went,
            LandEvent::Went,
            LandEvent::Went,
        ],
    );
    assert_eq!(step, LandStep::Done);
    assert_eq!(
        said,
        vec![
            "land: pr #218 approved".to_string(),
            TEST_LINE.to_string(),
            FINALIZE_LINE.to_string(),
            LOCK_LINE.to_string(),
            FERRY_LINE.to_string(),
            ">>> publish main + collapse PR head → abcdef01".to_string(),
            RELAY_LINE.to_string(),
            format!("landed: change_id=deadbeef main={SHA} pr=#218 status=merged"),
            "lane 't67' marked landed — `loot lane gc` (from the primary) reaps it unless it was named".to_string(),
            BEHIND_NOTE.to_string(),
        ]
    );
}

#[test]
fn the_primary_marks_nothing() {
    let (step, said) = walk(
        &job(None),
        vec![
            LandEvent::Gated(Gate::Proceed { self_fast_path: true }),
            LandEvent::Went,
            LandEvent::Went,
            LandEvent::Went,
            ferried(),
            LandEvent::Published(LandingStatus::ClosedByCollapse),
            LandEvent::Went,
            LandEvent::Went,
            LandEvent::Went,
        ],
    );
    assert_eq!(step, LandStep::Done);
    assert_eq!(said[0], "land: pr #218 approved (self-authored fast path)");
    assert!(said.last().unwrap().ends_with("status=closed-by-collapse"));
}

#[test]
fn a_refusal_ends_it_before_anything_is_done() {
    let (step, said) = walk(&job(None), vec![LandEvent::Gated(Gate::Refuse("no".into())), LandEvent::Went]);
    assert_eq!(step, LandStep::Failed("no".into()));
    assert!(said.is_empty());
}

#[test]
fn a_dry_run_stops_at_the_guard() {
    let dry = LandJob { dry_run: true, ..job(None) };
    let (step, said) = walk(&dry, vec![proceed()]);
    assert_eq!(step, LandStep::Done);
    assert_eq!(said[1], DRY_LINE);
}

#[test]
fn tests_are_skipped_only_on_request() {
    let skipping = LandJob { skip_tests: true, ..job(None) };
    let (step, said) = walk(&skipping, vec![proceed()]);
    assert_eq!(step, LandStep::Finalize);
    assert_eq!(said[1], SKIP_LINE);
    assert_eq!(walk(&job(None), vec![proceed()]).0, LandStep::RunTests);
    let (step, _) = walk(&job(None), vec![proceed(), LandEvent::Failed("tests failed".into())]);
    assert_eq!(step, LandStep::Failed("tests failed".into()));
}

#[test]
fn a_conflict_bounces_the_change() {
    let (step, _) = walk(
        &job(None),
        vec![
            proceed(),
            LandEvent::Went,
            LandEvent::Went,
            LandEvent::Went,
            LandEvent::Conflicted(vec!["a.txt".into(), "b.txt".into()]),
        ],
    );
    let LandStep::Failed(why) = step else {
        panic!("expected a failure");
    };
    assert!(why.contains("(a.txt, b.txt)"), "{why}");
    assert!(why.ends_with("then re-run `loot-first land --pr 218`."), "{why}");
}

#[test]
fn a_main_that_did_not_move_is_not_published() {
    let start = vec![proceed(), LandEvent::Went, LandEvent::Went, LandEvent::Went, unmoved()];
    let (step, _) = walk(&job(None), start.clone());
    assert_eq!(step, LandStep::Prove { main: SHA.to_string() });

    let mut refused = start.clone();
    refused.push(LandEvent::Proved(false));
    let LandStep::Failed(why) = walk(&job(None), refused).0 else {
        panic!("expected a failure");
    };
    assert!(why.contains("(still abcdef012345)"), "{why}");

    let mut owed = start;
    owed.push(LandEvent::Proved(true));
    let (step, said) = walk(&job(None), owed);
    assert_eq!(step, LandStep::Publish { main: SHA.to_string() });
    assert!(said.contains(&OWED_LINE.to_string()));
}

#[test]
fn a_relay_that_fails_does_not_unland() {
    let turn = next(
        &job(None),
        LandStep::Relay { main: SHA.into(), status: LandingStatus::Merged },
        LandEvent::Failed("offline".into()),
    );
    assert_eq!(turn.step, LandStep::Clear { main: SHA.into(), status: LandingStatus::Merged });
    assert_eq!(turn.said, vec!["warning: relay push failed (offline); the land stands — retry `loot push`.".to_string()]);
}

#[test]
fn a_lane_that_cannot_be_marked_is_only_warned_of() {
    let turn = next(&job(Some("t67")), LandStep::Mark, LandEvent::Failed("read-only".into()));
    assert_eq!(turn.step, LandStep::Done);
    assert_eq!(turn.said[0], "warning: could not mark lane 't67' landed (read-only)");
}

#[test]
fn an_event_out_of_step_fails() {
    let turn = next(&job(None), LandStep::AskGate, LandEvent::Went);
    assert_eq!(turn.step, LandStep::Failed("land: out of step".into()));
}

fn lane(pr: u64, owner: &str) -> PrLane {
    PrLane { change: "deadbeefcafe".into(), dock: "main".into(), pr, owner: owner.into() }
}

#[test]
fn a_pull_request_is_found_in_the_ledger() {
    let mut map = PrMap::parse("");
    map.push(lane(7, "t1"));
    assert_eq!(find_lane(&map, 7, None).unwrap(), lane(7, "t1"));
    assert_eq!(
        find_lane(&map, 8, None).unwrap_err(),
        "PR #8 is not in the pr-map ledger (was it opened by 'review'?)"
    );
    assert_eq!(
        find_lane(&map, 8, Some("run review")).unwrap_err(),
        "PR #8 is not in the pr-map ledger (was it opened by 'review'?)\n  run review"
    );
}

#[test]
fn status_shows_each_lane() {
    let mut map = PrMap::parse("");
    assert_eq!(status_lines(&map), vec!["no in-flight review lanes".to_string()]);
    map.push(lane(7, ""));
    assert_eq!(status_lines(&map), vec!["lane change=deadbeef dock=main pr=#7".to_string()]);
}

// --- review ---

fn shown() -> ReviewLine {
    ReviewLine {
        dock: "ferry".into(),
        owner: "".into(),
        branch: "review/ferry".into(),
        sha: SHA.into(),
        change: "deadbeef".into(),
        version: "cafe".into(),
        round: 1,
        op: "opened".into(),
    }
}

const LINE: &str =
    "review: dock=ferry branch=review/ferry sha=abcdef0123456789abcdef0123456789abcdef01 change=deadbeef version=cafe round=1 op=opened";

fn review_job(dry_run: bool) -> ReviewJob<'static> {
    ReviewJob { title: None, described: Some("fix: it\n\nbody"), dry_run }
}

#[test]
fn a_first_round_opens_a_pull_request() {
    let j = review_job(false);
    let t = begin(&j, Some(LINE));
    assert_eq!(t.said, vec![">>> push (single-ref, inline URL) review/ferry".to_string()]);
    let ReviewStep::Push { line, refspec, force } = t.step else {
        panic!("expected a push");
    };
    assert_eq!(line, shown());
    assert_eq!(refspec, "refs/heads/review/ferry:refs/heads/review/ferry");
    assert!(force);
    let ReviewStep::Look { line } = after_push(line, Ok(())).step else {
        panic!("expected a look");
    };
    let t = after_look(&j, line, None);
    assert_eq!(t.said, vec![">>> gh pr create --head review/ferry".to_string()]);
    let ReviewStep::Create { line, base, title, body } = t.step else {
        panic!("expected a pull request");
    };
    assert_eq!(title, "fix: it");
    assert!(body.starts_with("Review view of unfinalized loot WIP (change `deadbeef`, dock `ferry`)"), "{body}");
    assert_eq!(base, "main");
    let ReviewStep::Record { lane, branch } = after_create(line, Ok(300)).step else {
        panic!("expected a record");
    };
    assert_eq!(lane, PrLane { change: "deadbeef".into(), dock: "ferry".into(), pr: 300, owner: "".into() });
    let t = after_record(lane.pr, &branch, Ok(()));
    assert_eq!(t.step, ReviewStep::Done);
    assert_eq!(t.said, vec!["opened PR #300 for review/ferry".to_string()]);
}

#[test]
fn a_second_round_opens_nothing() {
    let t = after_look(&review_job(false), shown(), Some(300));
    assert_eq!(t.step, ReviewStep::Done);
    assert_eq!(t.said, vec!["review round updated on PR #300 (op=opened)".to_string()]);
}

#[test]
fn a_dry_review_pushes_nothing() {
    let j = review_job(true);
    let t = begin(&j, Some(LINE));
    assert_eq!(t.step, ReviewStep::Look { line: shown() });
    let t = after_look(&j, shown(), None);
    assert_eq!(t.step, ReviewStep::Done);
    assert_eq!(t.said, vec!["(dry run) would open a PR for review/ferry".to_string()]);
}

#[test]
fn a_review_ends_where_there_is_nothing_or_something_fails() {
    let j = review_job(false);
    assert_eq!(begin(&j, None).step, ReviewStep::Failed("ferry emitted no review line".into()));
    let t = begin(&j, Some("review: op=none"));
    assert_eq!(t.step, ReviewStep::Done);
    assert_eq!(t.said, vec!["nothing to review.".to_string()]);
    assert_eq!(after_push(shown(), Err("denied".into())).step, ReviewStep::Failed("denied".into()));
    assert_eq!(after_create(shown(), Err("denied".into())).step, ReviewStep::Failed("denied".into()));
    assert_eq!(after_record(1, "b", Err("full".into())).step, ReviewStep::Failed("full".into()));
}

#[test]
fn a_review_line_without_a_value_is_refused() {
    let cut = LINE.replace(" sha=abcdef0123456789abcdef0123456789abcdef01", "");
    assert_eq!(parse_review_line(&cut).unwrap_err(), format!("review line missing sha: {cut:?}"));
    let bad = LINE.replace("round=1", "round=one");
    assert_eq!(parse_review_line(&bad).unwrap_err(), format!("review line: bad round: {bad:?}"));
    assert_eq!(parse_review_line("review: op=none").unwrap(), ReviewOutcome::Nothing);
}

// --- the guard and the mirror ---

fn facts() -> LandFacts<'static> {
    LandFacts {
        pr: 218,
        lane_dock: "main",
        lane_owner: "",
        position: "",
        ambient_dock: "main",
        tracked_dock: "main",
        reviewed_version: Some("aaaaaaaa1111"),
        current_version: Some("aaaaaaaa1111"),
        current_subject: Some("fix: it"),
    }
}

fn open_view(decision: ReviewDecision) -> PrView {
    PrView { state: PrState::Open, review_decision: decision, author_login: "someone".into() }
}

#[test]
fn the_guard_lets_an_approved_current_change_through() {
    let g = decide_gate(&open_view(ReviewDecision::Approved), "connor", &facts());
    assert_eq!(g, Gate::Proceed { self_fast_path: false });
    let g = decide_gate(&open_view(ReviewDecision::Other), "someone", &facts());
    assert_eq!(g, Gate::Proceed { self_fast_path: true });
    let g = decide_gate(&open_view(ReviewDecision::ChangesRequested), "someone", &facts());
    assert!(matches!(g, Gate::Refuse(_)));
}

#[test]
fn the_guard_names_both_versions() {
    let stale = LandFacts { current_version: Some("bbbbbbbb2222"), ..facts() };
    let Gate::Refuse(why) = decide_gate(&open_view(ReviewDecision::Approved), "connor", &stale) else {
        panic!("expected refuse");
    };
    assert!(why.contains("(version bbbbbbbb != reviewed aaaaaaaa)"), "{why}");
}

#[test]
fn ancestry_same_when_shas_match() {
    assert_eq!(mirror_ancestry(SHA, SHA, false, false), Ancestry::Same);
}

#[test]
fn ancestry_follows_the_two_answers() {
    assert_eq!(mirror_ancestry(SHA, OLD, true, false), Ancestry::MirrorAhead);
    assert_eq!(mirror_ancestry(SHA, OLD, false, true), Ancestry::MirrorBehind);
    assert_eq!(mirror_ancestry(SHA, OLD, false, false), Ancestry::Diverged);
}

#[test]
fn already_projected_line_ahead_of_origin_reads_as_landable() {
    let u = Unmoved { tip: Some("ab"), origin: Some(OLD), ahead: true, carried: true };
    assert!(already_projected_unpushed(&u, SHA));
}

#[test]
fn a_mirror_matching_origin_is_genuinely_nothing_to_land() {
    let u = Unmoved { tip: Some("ab"), origin: Some(SHA), ahead: true, carried: true };
    assert!(!already_projected_unpushed(&u, SHA));
}

#[test]
fn an_ahead_line_that_is_not_this_lands_does_not_unlock_the_land() {
    let u = Unmoved { tip: Some("ab"), origin: Some(OLD), ahead: true, carried: false };
    assert!(!already_projected_unpushed(&u, SHA));
}

#[test]
fn no_origin_ref_keeps_the_conservative_refusal() {
    let u = Unmoved { tip: Some("ab"), origin: None, ahead: true, carried: true };
    assert!(!already_projected_unpushed(&u, SHA));
}

#[test]
fn a_diverged_mirror_keeps_the_conservative_refusal() {
    let u = Unmoved { tip: Some("ab"), origin: Some(OLD), ahead: false, carried: true };
    assert!(!already_projected_unpushed(&u, SHA));
}

#[test]
fn a_land_with_no_finalized_tip_keeps_the_conservative_refusal() {
    let u = Unmoved { tip: None, origin: Some(OLD), ahead: true, carried: true };
    assert!(!already_projected_unpushed(&u, SHA));
}

#[test]
fn names_and_titles_are_shortened() {
    assert_eq!(hex8(Some("0123456789")), "01234567");
    assert_eq!(hex8(Some("012")), "012");
    assert_eq!(hex8(None), "-");
    assert_eq!(position_name(""), "the primary");
    assert_eq!(position_name("t67"), "lane 't67'");
    assert_eq!(landing_word(LandingStatus::ClosedWithPointer), "closed-with-pointer");
    assert_eq!(tag_refspec("v1"), "refs/tags/v1:refs/tags/v1");
    assert_eq!(resolve_title(Some("  mine "), Some("fix: it"), "ferry"), "mine");
    assert_eq!(resolve_title(Some("  "), Some("fix: it\n\nbody"), "ferry"), "fix: it");
    assert_eq!(resolve_title(None, None, "ferry"), "loot-first: ferry");
}

#[test]
fn the_followed_dock_is_read_from_the_configuration() {
    assert_eq!(tracked_dock("remote = x\n dock = ferry \n"), "ferry");
    assert_eq!(tracked_dock("remote = x\n"), "main");
}

// --- the command line ---

fn parsed(words: &[&str]) -> Result<Command, String> {
    parse_command(&words.iter().map(|w| w.to_string()).collect())
}

#[test]
fn commands_are_read() {
    assert_eq!(parsed(&[]), Ok(Command::Help));
    assert_eq!(parsed(&["-h"]), Ok(Command::Help));
    assert_eq!(parsed(&["status"]), Ok(Command::Status));
    assert_eq!(parsed(&["init-hook"]), Ok(Command::InitHook));
    assert_eq!(
        parsed(&["review", "--title", "x", "--dry-run"]),
        Ok(Command::Review { title: Some("x".into()), dry_run: true })
    );
    assert_eq!(
        parsed(&["land", "--skip-tests", "--pr", "218"]),
        Ok(Command::Land { pr: 218, skip_tests: true, dry_run: false })
    );
}

#[test]
fn commands_are_refused() {
    assert_eq!(
        parsed(&["land"]).unwrap_err(),
        "usage: loot-first land --pr <n> [--skip-tests] [--dry-run]"
    );
    assert_eq!(parsed(&["land", "--pr", "x"]).unwrap_err(), "--pr must be a number");
    assert_eq!(parsed(&["sail"]).unwrap_err(), "unknown command 'sail' (try: review, land, status, init-hook)");
}

#[test]
fn a_tag_goes_out_after_main() {
    let push = |refspec: &str| Some(ForgeCall::Push { refspec: refspec.into(), force: false });
    let ok = || Reply { result: Ok(None) };
    let no = || Reply { result: Err("denied".into()) };
    assert_eq!(tag_call("v1", &TagStep::PushMain), push("refs/heads/main:refs/heads/main"));
    assert_eq!(tag_next("v1", TagStep::PushMain, ok()), TagStep::PushTag);
    assert_eq!(tag_call("v1", &TagStep::PushTag), push("refs/tags/v1:refs/tags/v1"));
    assert_eq!(tag_next("v1", TagStep::PushTag, ok()), TagStep::Done);
    assert_eq!(tag_call("v1", &TagStep::Done), None);

    let failed = tag_next("v1", TagStep::PushMain, no());
    assert!(matches!(&failed, TagStep::Failed(e) if e.starts_with("publish main before tagging failed (denied)")));
    assert_eq!(tag_call("v1", &failed), None);
    assert_eq!(
        tag_next("v1", TagStep::PushTag, no()),
        TagStep::Failed("push tag 'v1' failed (denied) — does it already exist on origin?".into())
    );
}
