use loot::forge::{Forge, PrState, PrView, ReviewDecision};
use loot::orchestrator::{
    execute_landing, execute_tag_push, harbor_moved_main, land_gate, subject_of, Counted, Gate, LandFacts, Pause,
    MAX_PR_TITLE,
};
use loot::policy::LandingStatus;
use std::cell::{Cell, RefCell};

/// A forge that answers as it was told to and keeps a log of what was asked.
struct FakeForge {
    viewer: String,
    /// Response for `pr_view`.
    view: RefCell<Option<PrView>>,
    /// Successive `pr_state` answers (poll sequence); the last repeats
    /// once exhausted.
    states: RefCell<Vec<PrState>>,
    state_idx: Cell<usize>,
    /// PR number handed out by the next `create_pr`.
    next_pr: Cell<u64>,
    /// Refspec substrings whose push should fail (simulating a diverged main).
    failing_pushes: RefCell<Vec<String>>,
    /// Ordered log of every intent, for assertions.
    calls: RefCell<Vec<String>>,
}

impl FakeForge {
    fn new() -> Self {
        FakeForge {
            viewer: "connor".into(),
            view: RefCell::new(None),
            states: RefCell::new(vec![PrState::Merged]),
            state_idx: Cell::new(0),
            next_pr: Cell::new(300),
            failing_pushes: RefCell::new(Vec::new()),
            calls: RefCell::new(Vec::new()),
        }
    }

    fn with_viewer(mut self, login: &str) -> Self {
        self.viewer = login.into();
        self
    }

    fn with_view(self, view: PrView) -> Self {
        *self.view.borrow_mut() = Some(view);
        self
    }

    fn with_poll(self, states: Vec<PrState>) -> Self {
        *self.states.borrow_mut() = states;
        self
    }

    /// Make any push whose refspec contains `needle` fail (diverged main).
    fn failing_push(self, needle: &str) -> Self {
        self.failing_pushes.borrow_mut().push(needle.into());
        self
    }

    fn calls(&self) -> Vec<String> {
        self.calls.borrow().clone()
    }

    fn record(&self, call: impl Into<String>) {
        self.calls.borrow_mut().push(call.into());
    }
}

impl Forge for FakeForge {
    fn viewer_login(&self) -> Result<String, String> {
        Ok(self.viewer.clone())
    }
    fn push_ref(&self, refspec: &str, force: bool) -> Result<(), String> {
        self.record(format!("push {refspec} force={force}"));
        if self.failing_pushes.borrow().iter().any(|n| refspec.contains(n.as_str())) {
            return Err(format!("push {refspec}: non-fast-forward (simulated)"));
        }
        Ok(())
    }
    fn create_pr(&self, head: &str, base: &str, title: &str, _body: &str) -> Result<u64, String> {
        let pr = self.next_pr.get();
        self.record(format!("create_pr head={head} base={base} title={title:?} -> #{pr}"));
        Ok(pr)
    }
    fn pr_view(&self, pr: u64) -> Result<PrView, String> {
        self.record(format!("pr_view #{pr}"));
        self.view
            .borrow()
            .clone()
            .ok_or_else(|| "FakeForge: no programmed pr_view".to_string())
    }
    fn pr_state(&self, pr: u64) -> Result<PrState, String> {
        let states = self.states.borrow();
        let i = self.state_idx.get().min(states.len().saturating_sub(1));
        self.state_idx.set(self.state_idx.get() + 1);
        let st = *states.get(i).unwrap_or(&PrState::Open);
        self.record(format!("pr_state #{pr} -> {st:?}"));
        Ok(st)
    }
    fn close_pr(&self, pr: u64, comment: &str) -> Result<(), String> {
        self.record(format!("close_pr #{pr} comment={comment:?}"));
        Ok(())
    }
    fn comment_pr(&self, pr: u64, body: &str) -> Result<(), String> {
        self.record(format!("comment_pr #{pr} body={body:?}"));
        Ok(())
    }
}

struct NoPause;

impl Pause for NoPause {
    fn pause(&mut self) {}
}

/// Waits that leave a mark each.
struct Tally<'a>(&'a Cell<usize>);

impl Pause for Tally<'_> {
    fn pause(&mut self) {
        self.0.set(self.0.get() + 1);
    }
}

fn view(decision: ReviewDecision, author: &str, state: PrState) -> PrView {
    PrView { state, review_decision: decision, author_login: author.into() }
}

fn facts<'a>(
    ambient: &'a str,
    lane_dock: &'a str,
    reviewed: Option<&'a str>,
    current: Option<&'a str>,
) -> LandFacts<'a> {
    LandFacts {
        pr: 218,
        lane_dock,
        lane_owner: "",
        position: "",
        ambient_dock: ambient,
        tracked_dock: lane_dock,
        reviewed_version: reviewed,
        current_version: current,
        current_subject: None,
    }
}

#[test]
fn a_pr_title_is_the_messages_first_line_not_its_body() {
    let msg = "fix: the subject\n\nA body paragraph explaining why, which is\nnot the title.";
    assert_eq!(subject_of(msg), "fix: the subject");
}

#[test]
fn a_one_line_message_is_its_own_subject() {
    assert_eq!(subject_of("fix: a one-liner"), "fix: a one-liner");
    assert_eq!(subject_of(""), "");
}

#[test]
fn a_subject_has_no_white_space_around_it() {
    assert_eq!(subject_of("  fix: a one-liner \nbody"), "fix: a one-liner");
}

#[test]
fn an_overlong_subject_is_cut_to_githubs_cap_on_a_char_boundary() {
    let long = "—".repeat(400);
    let cut = subject_of(&long);
    assert_eq!(cut.chars().count(), MAX_PR_TITLE, "cut to the cap, in chars");
    assert!(long.starts_with(cut.as_str()), "and it is a prefix of the subject");
}

#[test]
fn gate_proceeds_on_approved() {
    let f = FakeForge::new().with_view(view(ReviewDecision::Approved, "someone", PrState::Open));
    let g = land_gate(&f, &facts("ferry", "ferry", None, None)).unwrap();
    assert_eq!(g, Gate::Proceed { self_fast_path: false });
}

#[test]
fn gate_self_authored_fast_path() {
    let f = FakeForge::new()
        .with_viewer("connor")
        .with_view(view(ReviewDecision::Other, "connor", PrState::Open));
    let g = land_gate(&f, &facts("ferry", "ferry", None, None)).unwrap();
    assert_eq!(g, Gate::Proceed { self_fast_path: true });
}

#[test]
fn gate_refuses_non_open_pr() {
    let f = FakeForge::new().with_view(view(ReviewDecision::Approved, "someone", PrState::Merged));
    let Gate::Refuse(why) = land_gate(&f, &facts("ferry", "ferry", None, None)).unwrap() else {
        panic!("expected refuse");
    };
    assert!(why.contains("not OPEN"), "{why}");
}

#[test]
fn gate_refuses_unapproved_from_other_author() {
    let f = FakeForge::new()
        .with_viewer("connor")
        .with_view(view(ReviewDecision::ChangesRequested, "someone", PrState::Open));
    let Gate::Refuse(why) = land_gate(&f, &facts("ferry", "ferry", None, None)).unwrap() else {
        panic!("expected refuse");
    };
    assert!(why.contains("not approved"), "{why}");
}

#[test]
fn gate_refuses_dock_mismatch() {
    let f = FakeForge::new().with_view(view(ReviewDecision::Approved, "someone", PrState::Open));
    let Gate::Refuse(why) = land_gate(&f, &facts("main", "ferry", None, None)).unwrap() else {
        panic!("expected refuse");
    };
    assert!(why.contains("ambient dock"), "{why}");
}

#[test]
fn gate_refuses_side_lane_not_on_tracked_dock() {
    let f = FakeForge::new().with_view(view(ReviewDecision::Approved, "someone", PrState::Open));
    let facts = LandFacts {
        pr: 218,
        lane_dock: "loot-first",
        lane_owner: "",
        position: "",
        ambient_dock: "loot-first",
        tracked_dock: "main",
        reviewed_version: None,
        current_version: None,
        current_subject: None,
    };
    let Gate::Refuse(why) = land_gate(&f, &facts).unwrap() else {
        panic!("expected refuse");
    };
    assert!(why.contains("side-lane") && why.contains("git-main tracks 'main'"), "{why}");
}

#[test]
fn gate_refuses_stale_review() {
    let f = FakeForge::new().with_view(view(ReviewDecision::Approved, "someone", PrState::Open));
    let Gate::Refuse(why) =
        land_gate(&f, &facts("ferry", "ferry", Some("aaaaaaaa1111"), Some("bbbbbbbb2222"))).unwrap()
    else {
        panic!("expected refuse");
    };
    assert!(why.contains("amended since"), "{why}");
}

#[test]
fn gate_refuses_resolve_placeholder_subject() {
    let f = FakeForge::new().with_view(view(ReviewDecision::Approved, "someone", PrState::Open));
    let facts = LandFacts {
        current_subject: Some("resolve conflict at crates/loot-cli/src/main.rs"),
        ..facts("ferry", "ferry", None, None)
    };
    let Gate::Refuse(why) = land_gate(&f, &facts).unwrap() else {
        panic!("expected refuse");
    };
    assert!(why.contains("loot describe"), "{why}");
    assert!(why.contains("resolve conflict at crates/loot-cli/src/main.rs"), "{why}");
}

#[test]
fn gate_proceeds_on_a_real_described_subject() {
    let f = FakeForge::new().with_view(view(ReviewDecision::Approved, "someone", PrState::Open));
    let facts = LandFacts {
        current_subject: Some("loot status: show ambient dock and pending PR (#7)"),
        ..facts("ferry", "ferry", None, None)
    };
    assert_eq!(land_gate(&f, &facts).unwrap(), Gate::Proceed { self_fast_path: false });
}

#[test]
fn gate_refuses_a_land_from_another_position() {
    let f = FakeForge::new().with_view(view(ReviewDecision::Approved, "someone", PrState::Open));
    let facts = LandFacts { lane_owner: "t67", ..facts("main", "main", None, None) };
    let Gate::Refuse(why) = land_gate(&f, &facts).unwrap() else {
        panic!("expected refuse");
    };
    assert!(why.contains("lane 't67'") && why.contains("the primary"), "{why}");
}

#[test]
fn gate_allows_the_owning_lane_to_land() {
    let f = FakeForge::new().with_view(view(ReviewDecision::Approved, "someone", PrState::Open));
    let facts =
        LandFacts { lane_owner: "t67", position: "t67", ..facts("main", "main", None, None) };
    assert_eq!(land_gate(&f, &facts).unwrap(), Gate::Proceed { self_fast_path: false });
}

#[test]
fn harbor_guard_refuses_a_no_op_land() {
    assert!(!harbor_moved_main(Some("abc123"), "abc123"), "unchanged main = not integrated");
}

#[test]
fn harbor_guard_passes_when_main_advances() {
    assert!(harbor_moved_main(Some("abc123"), "def456"), "advanced main = integrated");
    assert!(harbor_moved_main(None, "def456"), "first land is always a move");
}

#[test]
fn landing_merged_by_reachability() {
    let f = FakeForge::new().with_poll(vec![PrState::Merged]);
    let mut s = Counted::new(NoPause);
    let st =
        execute_landing(&f, 218, "deadbeef", "review/ferry", "abc1234567", 10, &mut s).unwrap();
    assert_eq!(st, LandingStatus::Merged);
    let calls = f.calls();
    assert!(calls.iter().any(|c| c.contains("push refs/heads/main:refs/heads/main")));
    assert!(calls.iter().any(|c| c.contains("push abc1234567:refs/heads/review/ferry force=true")));
    assert!(calls.iter().any(|c| c.starts_with("comment_pr #218")));
    assert!(calls.iter().any(|c| c.contains("push :refs/heads/review/ferry")));
}

#[test]
fn landing_collapses_the_lane_named_branch() {
    let f = FakeForge::new().with_poll(vec![PrState::Merged]);
    let mut s = Counted::new(NoPause);
    let st =
        execute_landing(&f, 281, "deadbeef", "review/t281", "abc1234567", 10, &mut s).unwrap();
    assert_eq!(st, LandingStatus::Merged);
    let calls = f.calls();
    assert!(calls.iter().any(|c| c.contains("push abc1234567:refs/heads/review/t281 force=true")));
    assert!(calls.iter().any(|c| c.contains("push :refs/heads/review/t281")));
}

#[test]
fn landing_auto_close_is_the_signal() {
    let f = FakeForge::new().with_poll(vec![PrState::Open, PrState::Closed]);
    let mut s = Counted::new(NoPause);
    let st =
        execute_landing(&f, 218, "deadbeef", "review/ferry", "abc1234567", 10, &mut s).unwrap();
    assert_eq!(st, LandingStatus::ClosedByCollapse);
    assert!(f.calls().iter().any(|c| c.contains("auto-closed on the zero-diff collapse")));
}

#[test]
fn landing_diverged_main_closes_with_pointer() {
    let f = FakeForge::new().failing_push("refs/heads/main:refs/heads/main");
    let mut s = Counted::new(NoPause);
    let st =
        execute_landing(&f, 218, "deadbeef", "review/ferry", "abc1234567", 10, &mut s).unwrap();
    assert_eq!(st, LandingStatus::ClosedWithPointer);
    let calls = f.calls();
    assert!(calls.iter().any(|c| c.contains("close_pr #218") && c.contains("diverged")));
    assert!(!calls.iter().any(|c| c.contains("push abc1234567:")), "must not collapse a stale head");
}

#[test]
fn landing_open_after_poll_closes_with_pointer() {
    let f = FakeForge::new().with_poll(vec![PrState::Open]);
    let mut s = Counted::new(NoPause);
    let st =
        execute_landing(&f, 218, "deadbeef", "review/ferry", "abc1234567", 3, &mut s).unwrap();
    assert_eq!(st, LandingStatus::ClosedWithPointer);
    assert!(f.calls().iter().any(|c| c.starts_with("close_pr #218")));
}

#[test]
fn a_landing_waits_before_each_look_and_no_other_time() {
    let waits = |f: FakeForge, polls: usize| {
        let marks = Cell::new(0);
        let mut s = Counted::new(Tally(&marks));
        let _ = execute_landing(&f, 218, "deadbeef", "review/ferry", "abc1234567", polls, &mut s);
        marks.get()
    };
    assert_eq!(waits(FakeForge::new().with_poll(vec![PrState::Merged]), 10), 1);
    assert_eq!(waits(FakeForge::new().with_poll(vec![PrState::Open, PrState::Closed]), 10), 2);
    assert_eq!(waits(FakeForge::new().with_poll(vec![PrState::Open]), 3), 3);
    assert_eq!(waits(FakeForge::new().with_poll(vec![PrState::Open]), 0), 0);
    assert_eq!(waits(FakeForge::new().failing_push("refs/heads/main:refs/heads/main"), 10), 0);
}

#[test]
fn tag_push_publishes_main_then_the_tag_ref() {
    let f = FakeForge::new();
    execute_tag_push(&f, "v0.1.0").unwrap();
    assert_eq!(
        f.calls(),
        vec![
            "push refs/heads/main:refs/heads/main force=false".to_string(),
            "push refs/tags/v0.1.0:refs/tags/v0.1.0 force=false".to_string(),
        ]
    );
}

#[test]
fn tag_push_refuses_on_diverged_main_without_pushing_the_tag() {
    let f = FakeForge::new().failing_push("refs/heads/main:refs/heads/main");
    let err = execute_tag_push(&f, "v0.1.0").unwrap_err();
    assert!(err.contains("diverged"), "{err}");
    assert!(
        !f.calls().iter().any(|c| c.contains("refs/tags/")),
        "a diverged main must abort before the tag is pushed: {:?}",
        f.calls()
    );
}
