use loot::forge::{PrState, ReviewDecision};
use loot::policy::{
    approval, dock_targeting, interpret_landing, mirror_drift_warning, parse_review_line, pre_land, review_currency,
    Ancestry, Approval, Currency, DockTarget, LandingStatus, PreLand, ReviewOutcome,
};

#[test]
fn drift_same_is_quiet() {
    // Mirror main == origin/main (the happy path right after a land+push):
    // no warning at all.
    assert_eq!(mirror_drift_warning("abc123", "abc123", Ancestry::Same), None);
}

#[test]
fn drift_ahead_is_quiet() {
    // The mirror pushed and the checkout has not fetched yet, so its
    // origin/main trails by a commit. This is the normal post-land state,
    // not drift — warning here is the wolf-cry that trains the
    // operator to scroll past the real divergence.
    assert_eq!(
        mirror_drift_warning("bbbbbbbbbbbb", "aaaaaaaaaaaa", Ancestry::MirrorAhead),
        None
    );
}

#[test]
fn drift_behind_warns_reconcile() {
    // origin/main advanced past the mirror (a break-glass git land the
    // mirror never ingested) — the case the guard exists to catch.
    let w = mirror_drift_warning("bbbbbbbbbbbb", "aaaaaaaaaaaa", Ancestry::MirrorBehind)
        .expect("behind must warn");
    assert!(w.contains("behind origin/main"), "{w}");
    assert!(w.contains("bbbbbbbbbbbb") && w.contains("aaaaaaaaaaaa"), "{w}");
    assert!(w.contains("reconcile"), "{w}");
}

#[test]
fn drift_diverged_warns_do_not_land() {
    // The actual shape: the mirror projected a `main` that never
    // reached origin, so neither is an
    // ancestor of the other. This is the loudest, land-blocking case.
    let w = mirror_drift_warning("bc282ff", "e2cb01e", Ancestry::Diverged)
        .expect("diverged must warn");
    assert!(w.to_uppercase().contains("DIVERGED"), "{w}");
    assert!(w.contains("do NOT land") || w.contains("DO NOT LAND"), "{w}");
}

#[test]
fn approval_takes_explicit_approved() {
    assert_eq!(approval(ReviewDecision::Approved, "someone", "connor"), Approval::Approved);
    // APPROVED wins even when self-authored (no fast-path note needed).
    assert_eq!(approval(ReviewDecision::Approved, "connor", "connor"), Approval::Approved);
}

#[test]
fn approval_self_authored_fast_path() {
    // Self-authored + no CHANGES_REQUESTED (empty decision) → fast path.
    assert_eq!(approval(ReviewDecision::Other, "connor", "connor"), Approval::SelfAuthoredFastPath);
}

#[test]
fn approval_refuses_changes_requested_even_self() {
    assert_eq!(approval(ReviewDecision::ChangesRequested, "connor", "connor"), Approval::Refused);
}

#[test]
fn approval_refuses_unapproved_from_other_author() {
    assert_eq!(approval(ReviewDecision::Other, "someone", "connor"), Approval::Refused);
}

#[test]
fn review_currency_stale_only_when_both_present_and_differ() {
    assert_eq!(review_currency(Some("aa"), Some("bb")), Currency::Stale);
    assert_eq!(review_currency(Some("aa"), Some("aa")), Currency::Current);
    // Empty working change (no current version) skips.
    assert_eq!(review_currency(Some("aa"), None), Currency::Current);
    // No reviewed version recorded skips.
    assert_eq!(review_currency(None, Some("bb")), Currency::Current);
    assert_eq!(review_currency(None, None), Currency::Current);
}

#[test]
fn dock_targeting_matches_exactly() {
    assert_eq!(dock_targeting("ferry", "ferry"), DockTarget::Match);
    assert_eq!(dock_targeting("main", "ferry"), DockTarget::Mismatch);
}

#[test]
fn pre_land_gate_honours_break_glass() {
    assert_eq!(pre_land(false), PreLand::RunTests);
    assert_eq!(pre_land(true), PreLand::Skip);
}

#[test]
fn landing_signal_interpretation() {
    // Diverged main → pointer regardless of PR state.
    assert_eq!(interpret_landing(false, PrState::Merged), LandingStatus::ClosedWithPointer);
    // Fast-forwarded main, GitHub outcomes:
    assert_eq!(interpret_landing(true, PrState::Merged), LandingStatus::Merged);
    assert_eq!(interpret_landing(true, PrState::Closed), LandingStatus::ClosedByCollapse);
    // Poll exhausted, still open → pointer close.
    assert_eq!(interpret_landing(true, PrState::Open), LandingStatus::ClosedWithPointer);
}

#[test]
fn parse_review_line_op_none() {
    assert_eq!(
        parse_review_line("review: op=none (no working change to project)").unwrap(),
        ReviewOutcome::Nothing
    );
}

#[test]
fn parse_review_line_projected() {
    let line = "review: dock=ferry owner=- branch=review/ferry sha=abc123 change=deadbeef version=cafef00d round=2 op=appended";
    let ReviewOutcome::Projected(r) = parse_review_line(line).unwrap() else {
        panic!("expected projected");
    };
    assert_eq!(r.dock, "ferry");
    assert_eq!(r.owner, "", "`owner=-` is the primary");
    assert_eq!(r.branch, "review/ferry");
    assert_eq!(r.change, "deadbeef");
    assert_eq!(r.version, "cafef00d");
    assert_eq!(r.round, 2);
    assert_eq!(r.op, "appended");
}

#[test]
fn parse_review_line_carries_the_owning_lane() {
    // From an isolation lane the branch is lane-named and `owner`
    // carries the lane id; a line without the token parses too.
    let line = "review: dock=main owner=t281 branch=review/t281 sha=abc123 change=deadbeef version=cafef00d round=1 op=opened";
    let ReviewOutcome::Projected(r) = parse_review_line(line).unwrap() else {
        panic!("expected projected");
    };
    assert_eq!(r.owner, "t281");
    assert_eq!(r.branch, "review/t281");

    let legacy = "review: dock=main branch=review/main sha=abc123 change=deadbeef version=cafef00d round=1 op=opened";
    let ReviewOutcome::Projected(r) = parse_review_line(legacy).unwrap() else {
        panic!("expected projected");
    };
    assert_eq!(r.owner, "", "missing owner token reads as primary");
}

#[test]
fn parse_review_line_rejects_missing_field() {
    assert!(parse_review_line("review: dock=ferry op=appended").is_err());
}
