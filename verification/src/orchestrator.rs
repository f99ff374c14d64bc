//! Reviewing and landing: what is asked of the forge, and what follows from its
//! answers.

use crate::forge::{closes, comments, pushes, Forge, PrState, PrView, PrViewModel, ReviewDecision};
use crate::ledger::{PrLaneModel, PrMap};
use crate::policy::{
    approval, approval_of, currency_of, dock_targeting, interpret_landing, landing_of, review_currency, text_model,
    Ancestry, Approval, Currency, DockTarget, LandingStatus,
};
use crate::split::{cut, first_bytes, lines, lines_of, split_at, split_once};
use crate::text::{
    begins_with, chars_of, decimal, push_decimal, push_text, same_text, starts_with, string_of, trim, trimmed,
};
use vstd::prelude::*;

pub mod land;
pub mod review;

verus! {

// ---------------------------------------------------------------------------
// Words
// ---------------------------------------------------------------------------

/// The beginning of an id, or a dash.
pub open spec fn hex8_of(s: Option<Seq<char>>) -> Seq<char> {
    match s {
        Some(v) => first_bytes(v, 8)->Some_0,
        None => "-"@,
    }
}

/// The beginning of an id, or a dash.
pub fn hex8(s: Option<&str>) -> (r: String)
    requires
        text_model(s) matches Some(v) ==> first_bytes(v, 8) is Some,
    ensures
        r@ == hex8_of(text_model(s)),
{
    match s {
        Some(v) => cut(v, 8),
        None => "-".to_owned(),
    }
}

/// A position, in words.
pub open spec fn position_words(owner: Seq<char>) -> Seq<char> {
    if owner.len() == 0 {
        "the primary"@
    } else {
        "lane '"@ + owner + "'"@
    }
}

/// A position, in words.
pub fn position_name(owner: &str) -> (r: String)
    ensures
        r@ == position_words(owner@),
{
    if chars_of(owner).len() == 0 {
        "the primary".to_owned()
    } else {
        let mut t = "lane '".to_owned();
        push_text(&mut t, owner);
        push_text(&mut t, "'");
        t
    }
}

/// The dock that a configuration names.
pub open spec fn dock_in(ls: Seq<Seq<char>>) -> Seq<char>
    decreases ls.len(),
{
    if ls.len() == 0 {
        "main"@
    } else {
        match split_at(ls[0], '=') {
            Some((k, v)) => if trimmed(k) == "dock"@ {
                trimmed(v)
            } else {
                dock_in(ls.skip(1))
            },
            None => dock_in(ls.skip(1)),
        }
    }
}

/// The dock that git's main follows: the first `dock = <name>`, else `main`.
pub fn tracked_dock(config: &str) -> (r: String)
    ensures
        r@ == dock_in(lines_of(config@)),
{
    let ls = lines(config);
    let ghost all = ls.deep_view();
    let n: usize = ls.len();
    let mut i: usize = 0;
    assert(all.skip(0) =~= all);
    while i < n
        invariant
            n == ls@.len(),
            0 <= i <= n,
            all == ls.deep_view(),
            all == lines_of(config@),
            dock_in(all) == dock_in(all.skip(i as int)),
        decreases n - i,
    {
        proof {
            let t = all.skip(i as int);
            assert(t[0] == ls@[i as int]@);
            assert(t.skip(1) =~= all.skip(i as int + 1));
        }
        if let Some((k, v)) = split_once(ls[i].as_str(), '=') {
            if same_text(trim(k.as_str()).as_str(), "dock") {
                return trim(v.as_str());
            }
        }
        i = i + 1;
    }
    assert(all.skip(n as int) =~= Seq::<Seq<char>>::empty());
    "main".to_owned()
}

/// The longest title that the forge takes.
pub const MAX_PR_TITLE: usize = 256;

/// The subject of a message: its first line, without white space around it, cut to
/// what the forge takes.
pub open spec fn subject_in(message: Seq<char>) -> Seq<char> {
    let ls = lines_of(message);
    let first = trimmed(
        if ls.len() == 0 {
            Seq::empty()
        } else {
            ls[0]
        },
    );
    if first.len() > MAX_PR_TITLE {
        first.take(MAX_PR_TITLE as int)
    } else {
        first
    }
}

/// The subject of a message: its first line, cut to what the forge takes.
pub fn subject_of(message: &str) -> (r: String)
    ensures
        r@ == subject_in(message@),
{
    let ls = lines(message);
    assert(ls.deep_view().len() == ls@.len());
    let none = String::new();
    assert(none@ =~= Seq::<char>::empty());
    let first = if ls.len() == 0 {
        trim(none.as_str())
    } else {
        assert(ls.deep_view()[0] == ls@[0]@);
        trim(ls[0].as_str())
    };
    let cs = chars_of(first.as_str());
    if cs.len() > MAX_PR_TITLE {
        let r = string_of(&cs, 0, MAX_PR_TITLE);
        assert(r@ =~= first@.take(MAX_PR_TITLE as int));
        r
    } else {
        first
    }
}

/// The title of a pull request: the one given, else the subject of what is worked on,
/// if that was described, else one from the dock.
pub open spec fn title_of(title: Option<Seq<char>>, described: Option<Seq<char>>, dock: Seq<char>) -> Seq<char> {
    if title is Some && trimmed(title->Some_0).len() > 0 {
        trimmed(title->Some_0)
    } else {
        match described {
            Some(m) => subject_in(trimmed(m)),
            None => "loot-first: "@ + dock,
        }
    }
}

/// The title of a pull request. `described` is the message of what is worked on, if
/// it was given one.
pub fn resolve_title(title: Option<&str>, described: Option<&str>, dock: &str) -> (r: String)
    ensures
        r@ == title_of(text_model(title), text_model(described), dock@),
{
    if let Some(t) = title {
        let t = trim(t);
        if chars_of(t.as_str()).len() > 0 {
            return t;
        }
    }
    match described {
        Some(m) => subject_of(trim(m).as_str()),
        None => {
            let mut t = "loot-first: ".to_owned();
            push_text(&mut t, dock);
            t
        },
    }
}

/// The word for how a landing ended.
pub open spec fn landing_words(s: LandingStatus) -> Seq<char> {
    match s {
        LandingStatus::Merged => "merged"@,
        LandingStatus::ClosedByCollapse => "closed-by-collapse"@,
        LandingStatus::ClosedWithPointer => "closed-with-pointer"@,
    }
}

/// The word for how a landing ended.
pub fn landing_word(s: LandingStatus) -> (r: &'static str)
    ensures
        r@ == landing_words(s),
{
    match s {
        LandingStatus::Merged => "merged",
        LandingStatus::ClosedByCollapse => "closed-by-collapse",
        LandingStatus::ClosedWithPointer => "closed-with-pointer",
    }
}

// ---------------------------------------------------------------------------
// The mirror
// ---------------------------------------------------------------------------

/// Where the forge's main is read.
#[derive(Debug, Clone, Copy, PartialEq, Eq, Structural)]
pub enum OriginRef {
    /// From what was fetched last.
    Tracking,
    /// From the forge itself.
    Remote,
}

/// How the mirror stands, from two questions: whether the forge's main is an ancestor
/// of the mirror's, and whether the mirror's is one of the forge's.
pub open spec fn ancestry_of(mirror: Seq<char>, origin: Seq<char>, ahead: bool, behind: bool) -> Ancestry {
    if mirror == origin {
        Ancestry::Same
    } else if ahead {
        Ancestry::MirrorAhead
    } else if behind {
        Ancestry::MirrorBehind
    } else {
        Ancestry::Diverged
    }
}

/// How the mirror stands to the forge. `ahead` says that the forge's main is an
/// ancestor of the mirror's, `behind` the converse; neither where it cannot be told.
pub fn mirror_ancestry(mirror: &str, origin: &str, ahead: bool, behind: bool) -> (r: Ancestry)
    ensures
        r == ancestry_of(mirror@, origin@, ahead, behind),
{
    if same_text(mirror, origin) {
        Ancestry::Same
    } else if ahead {
        Ancestry::MirrorAhead
    } else if behind {
        Ancestry::MirrorBehind
    } else {
        Ancestry::Diverged
    }
}

/// Whether a landing moved main. The first one always does.
pub fn harbor_moved_main(before: Option<&str>, after: &str) -> (b: bool)
    ensures
        b == (text_model(before) != Some(after@)),
{
    match before {
        Some(s) => !same_text(s, after),
        None => true,
    }
}

/// What is known of a main that did not move.
pub struct Unmoved<'a> {
    /// What this landing signed, if anything.
    pub tip: Option<&'a str>,
    /// The forge's main, if it is known.
    pub origin: Option<&'a str>,
    /// Whether the forge's main is an ancestor of the mirror's.
    pub ahead: bool,
    /// Whether a commit between the two stands for what this landing signed.
    pub carried: bool,
}

/// Main carries what this landing signed, and only the push is owed.
pub open spec fn push_is_owed(
    tip: Option<Seq<char>>,
    origin: Option<Seq<char>>,
    ahead: bool,
    carried: bool,
    main: Seq<char>,
) -> bool {
    tip is Some && origin is Some && origin != Some(main) && ahead && carried
}

/// Whether main carries already what this landing signed, and only the push is owed.
/// What cannot be shown counts as not so.
pub fn already_projected_unpushed(facts: &Unmoved, main_sha: &str) -> (b: bool)
    ensures
        b == push_is_owed(
            text_model(facts.tip),
            text_model(facts.origin),
            facts.ahead,
            facts.carried,
            main_sha@,
        ),
{
    if facts.tip.is_none() {
        return false;
    }
    match facts.origin {
        None => false,
        Some(o) => !same_text(o, main_sha) && facts.ahead && facts.carried,
    }
}

// ---------------------------------------------------------------------------
// The guard
// ---------------------------------------------------------------------------

/// What the guard decides on.
pub struct LandFacts<'a> {
    pub pr: u64,
    pub lane_dock: &'a str,
    /// The position that opened the pull request; empty for the primary.
    pub lane_owner: &'a str,
    /// The position that lands; empty for the primary.
    pub position: &'a str,
    /// The dock that one is on.
    pub ambient_dock: &'a str,
    /// The dock that git's main follows.
    pub tracked_dock: &'a str,
    /// The version that was shown last.
    pub reviewed_version: Option<&'a str>,
    /// The version that is worked on; none where there is nothing.
    pub current_version: Option<&'a str>,
    /// Its message.
    pub current_subject: Option<&'a str>,
}

/// The model of [`LandFacts`].
pub struct FactsModel {
    pub pr: u64,
    pub lane_dock: Seq<char>,
    pub lane_owner: Seq<char>,
    pub position: Seq<char>,
    pub ambient_dock: Seq<char>,
    pub tracked_dock: Seq<char>,
    pub reviewed_version: Option<Seq<char>>,
    pub current_version: Option<Seq<char>>,
    pub current_subject: Option<Seq<char>>,
}

impl<'a> DeepView for LandFacts<'a> {
    type V = FactsModel;

    open spec fn deep_view(&self) -> FactsModel {
        FactsModel {
            pr: self.pr,
            lane_dock: self.lane_dock@,
            lane_owner: self.lane_owner@,
            position: self.position@,
            ambient_dock: self.ambient_dock@,
            tracked_dock: self.tracked_dock@,
            reviewed_version: text_model(self.reviewed_version),
            current_version: text_model(self.current_version),
            current_subject: text_model(self.current_subject),
        }
    }
}

/// What the guard says.
#[derive(Debug, Clone, PartialEq, Eq)]
pub enum Gate {
    Proceed { self_fast_path: bool },
    /// No, and why.
    Refuse(String),
}

/// The model of a [`Gate`].
pub enum GateModel {
    Proceed { self_fast_path: bool },
    Refuse(Seq<char>),
}

impl DeepView for Gate {
    type V = GateModel;

    open spec fn deep_view(&self) -> GateModel {
        match self {
            Gate::Proceed { self_fast_path } => GateModel::Proceed { self_fast_path: *self_fast_path },
            Gate::Refuse(t) => GateModel::Refuse(t@),
        }
    }
}

/// How the message begins that a resolved conflict gets where nothing better is
/// known. It does not land.
pub const RESOLVE_PLACEHOLDER_PREFIX: &'static str = "resolve conflict at ";

/// A state, in words.
pub open spec fn state_word(s: PrState) -> Seq<char> {
    match s {
        PrState::Open => "Open"@,
        PrState::Merged => "Merged"@,
        PrState::Closed => "Closed"@,
    }
}

/// A decision, in words.
pub open spec fn decision_word(d: ReviewDecision) -> Seq<char> {
    match d {
        ReviewDecision::Approved => "Approved"@,
        ReviewDecision::ChangesRequested => "ChangesRequested"@,
        ReviewDecision::Other => "Other"@,
    }
}

fn state_name(s: PrState) -> (r: &'static str)
    ensures
        r@ == state_word(s),
{
    match s {
        PrState::Open => "Open",
        PrState::Merged => "Merged",
        PrState::Closed => "Closed",
    }
}

fn decision_name(d: ReviewDecision) -> (r: &'static str)
    ensures
        r@ == decision_word(d),
{
    match d {
        ReviewDecision::Approved => "Approved",
        ReviewDecision::ChangesRequested => "ChangesRequested",
        ReviewDecision::Other => "Other",
    }
}

/// Why a pull request that is not open does not land.
pub open spec fn not_open(pr: u64, s: PrState) -> Seq<char> {
    "PR #"@ + decimal(pr as nat) + " is "@ + state_word(s) + ", not OPEN"@
}

/// Why one that is not approved does not land.
pub open spec fn not_approved(pr: u64, d: ReviewDecision, author: Seq<char>) -> Seq<char> {
    "PR #"@ + decimal(pr as nat) + " not approved (reviewDecision "@ + decision_word(d) + ", author "@ + author
        + ")"@
}

/// Why one does not land from another dock.
pub open spec fn wrong_dock(ambient: Seq<char>, lane: Seq<char>) -> Seq<char> {
    "ambient dock is '"@ + ambient + "', not '"@ + lane + "' — run 'loot dock "@ + lane
        + "' first (land refuses to finalize another lane)"@
}

/// Why one does not land from another position.
pub open spec fn wrong_position(pr: u64, owner: Seq<char>, position: Seq<char>) -> Seq<char> {
    "PR #"@ + decimal(pr as nat) + " was opened from "@ + position_words(owner) + " — this is "@
        + position_words(position)
        + "; land finalizes the current position's working change, so run it from the position that opened the PR (#281)"@
}

/// Why a lane of another dock than the one followed does not land.
pub open spec fn wrong_lane(pr: u64, lane: Seq<char>, followed: Seq<char>) -> Seq<char> {
    "PR #"@ + decimal(pr as nat) + "'s review lane is on dock '"@ + lane + "', but git-main tracks '"@ + followed
        + "' — a side-lane change can't project to main directly. Merge it in first from the primary: `loot lane merge "@
        + lane + "`, then land from '"@ + followed + "'."@
}

/// Why a change without a subject of its own does not land.
pub open spec fn placeholder(subject: Seq<char>) -> Seq<char> {
    "working change carries the auto-minted resolve placeholder subject (\""@ + subject
        + "\") — a land would publish that as git main's commit subject. Run 'loot describe -m \"<subject>\"' to restore the change's real subject, then land again."@
}

/// Why a change that was amended does not land.
pub open spec fn amended(current: Option<Seq<char>>, reviewed: Option<Seq<char>>) -> Seq<char> {
    "working change amended since the last review round (version "@ + hex8_of(current) + " != reviewed "@
        + hex8_of(reviewed) + ") — run 'loot-first review' and re-approve before landing"@
}

/// What the guard says: the first thing that stands in the way, if any does.
pub open spec fn gate_of(view: PrViewModel, viewer: Seq<char>, f: FactsModel) -> GateModel {
    let appr = approval_of(view.review_decision, view.author_login, viewer);
    if view.state != PrState::Open {
        GateModel::Refuse(not_open(f.pr, view.state))
    } else if appr == Approval::Refused {
        GateModel::Refuse(not_approved(f.pr, view.review_decision, view.author_login))
    } else if f.ambient_dock != f.lane_dock {
        GateModel::Refuse(wrong_dock(f.ambient_dock, f.lane_dock))
    } else if f.lane_owner != f.position {
        GateModel::Refuse(wrong_position(f.pr, f.lane_owner, f.position))
    } else if f.lane_dock != f.tracked_dock {
        GateModel::Refuse(wrong_lane(f.pr, f.lane_dock, f.tracked_dock))
    } else if f.current_subject is Some && begins_with(
        f.current_subject->Some_0,
        RESOLVE_PLACEHOLDER_PREFIX@,
    ) {
        GateModel::Refuse(placeholder(f.current_subject->Some_0))
    } else if currency_of(f.reviewed_version, f.current_version) == Currency::Stale {
        GateModel::Refuse(amended(f.current_version, f.reviewed_version))
    } else {
        GateModel::Proceed { self_fast_path: appr == Approval::SelfAuthoredFastPath }
    }
}

/// The guard comes to the versions: nothing in these facts stands in the way before.
pub open spec fn comes_to_versions(f: FactsModel) -> bool {
    &&& f.ambient_dock == f.lane_dock
    &&& f.lane_owner == f.position
    &&& f.lane_dock == f.tracked_dock
    &&& !(f.current_subject is Some && begins_with(f.current_subject->Some_0, RESOLVE_PLACEHOLDER_PREFIX@))
}

/// The versions can be shortened, where they have to be.
pub open spec fn can_shorten(f: FactsModel) -> bool {
    comes_to_versions(f) && currency_of(f.reviewed_version, f.current_version) == Currency::Stale
        ==> first_bytes(f.reviewed_version->Some_0, 8) is Some && first_bytes(f.current_version->Some_0, 8) is Some
}

/// What the guard says of an open pull request, once it is known who asks.
pub fn decide_gate(view: &PrView, viewer: &str, f: &LandFacts) -> (r: Gate)
    requires
        view.state == PrState::Open && approval_of(view.review_decision, view.author_login@, viewer@)
            != Approval::Refused ==> can_shorten(f.deep_view()),
    ensures
        r.deep_view() == gate_of(view.deep_view(), viewer@, f.deep_view()),
{
    if view.state != PrState::Open {
        return refuse_closed(f.pr, view.state);
    }
    let appr = approval(view.review_decision, view.author_login.as_str(), viewer);
    if appr == Approval::Refused {
        let mut t = "PR #".to_owned();
        push_decimal(&mut t, f.pr);
        push_text(&mut t, " not approved (reviewDecision ");
        push_text(&mut t, decision_name(view.review_decision));
        push_text(&mut t, ", author ");
        push_text(&mut t, view.author_login.as_str());
        push_text(&mut t, ")");
        return Gate::Refuse(t);
    }
    if dock_targeting(f.ambient_dock, f.lane_dock) == DockTarget::Mismatch {
        let mut t = "ambient dock is '".to_owned();
        push_text(&mut t, f.ambient_dock);
        push_text(&mut t, "', not '");
        push_text(&mut t, f.lane_dock);
        push_text(&mut t, "' — run 'loot dock ");
        push_text(&mut t, f.lane_dock);
        push_text(&mut t, "' first (land refuses to finalize another lane)");
        return Gate::Refuse(t);
    }
    if !same_text(f.lane_owner, f.position) {
        let mut t = "PR #".to_owned();
        push_decimal(&mut t, f.pr);
        push_text(&mut t, " was opened from ");
        push_text(&mut t, position_name(f.lane_owner).as_str());
        push_text(&mut t, " — this is ");
        push_text(&mut t, position_name(f.position).as_str());
        push_text(
            &mut t,
            "; land finalizes the current position's working change, so run it from the position that opened the PR (#281)",
        );
        return Gate::Refuse(t);
    }
    if !same_text(f.lane_dock, f.tracked_dock) {
        let mut t = "PR #".to_owned();
        push_decimal(&mut t, f.pr);
        push_text(&mut t, "'s review lane is on dock '");
        push_text(&mut t, f.lane_dock);
        push_text(&mut t, "', but git-main tracks '");
        push_text(&mut t, f.tracked_dock);
        push_text(
            &mut t,
            "' — a side-lane change can't project to main directly. Merge it in first from the primary: `loot lane merge ",
        );
        push_text(&mut t, f.lane_dock);
        push_text(&mut t, "`, then land from '");
        push_text(&mut t, f.tracked_dock);
        push_text(&mut t, "'.");
        return Gate::Refuse(t);
    }
    if let Some(subject) = f.current_subject {
        if starts_with(subject, RESOLVE_PLACEHOLDER_PREFIX) {
            let mut t = "working change carries the auto-minted resolve placeholder subject (\"".to_owned();
            push_text(&mut t, subject);
            push_text(
                &mut t,
                "\") — a land would publish that as git main's commit subject. Run 'loot describe -m \"<subject>\"' to restore the change's real subject, then land again.",
            );
            return Gate::Refuse(t);
        }
    }
    if review_currency(f.reviewed_version, f.current_version) == Currency::Stale {
        let mut t = "working change amended since the last review round (version ".to_owned();
        push_text(&mut t, hex8(f.current_version).as_str());
        push_text(&mut t, " != reviewed ");
        push_text(&mut t, hex8(f.reviewed_version).as_str());
        push_text(&mut t, ") — run 'loot-first review' and re-approve before landing");
        return Gate::Refuse(t);
    }
    Gate::Proceed { self_fast_path: appr == Approval::SelfAuthoredFastPath }
}

fn refuse_closed(pr: u64, state: PrState) -> (r: Gate)
    ensures
        r.deep_view() == GateModel::Refuse(not_open(pr, state)),
{
    let mut t = "PR #".to_owned();
    push_decimal(&mut t, pr);
    push_text(&mut t, " is ");
    push_text(&mut t, state_name(state));
    push_text(&mut t, ", not OPEN");
    Gate::Refuse(t)
}

/// What is said of a landing, with what the forge answers when it is asked for the
/// pull request and then, where that is open, for who asks.
pub open spec fn gated(
    view: Result<PrViewModel, Seq<char>>,
    viewer: Result<Seq<char>, Seq<char>>,
    f: FactsModel,
) -> Result<GateModel, Seq<char>> {
    match view {
        Err(e) => Err(e),
        Ok(v) => if v.state != PrState::Open {
            Ok(GateModel::Refuse(not_open(f.pr, v.state)))
        } else {
            match viewer {
                Err(e) => Err(e),
                Ok(w) => Ok(gate_of(v, w, f)),
            }
        },
    }
}

/// The model of what is said, or of the forge's error.
pub open spec fn gate_result(r: Result<Gate, String>) -> Result<GateModel, Seq<char>> {
    match r {
        Ok(g) => Ok(g.deep_view()),
        Err(e) => Err(e@),
    }
}

/// The model of what the forge says of a pull request.
pub open spec fn view_result(r: Result<PrView, String>) -> Result<PrViewModel, Seq<char>> {
    match r {
        Ok(v) => Ok(v.deep_view()),
        Err(e) => Err(e@),
    }
}

/// The model of whom the forge names.
pub open spec fn viewer_result(r: Result<String, String>) -> Result<Seq<char>, Seq<char>> {
    match r {
        Ok(v) => Ok(v@),
        Err(e) => Err(e@),
    }
}

/// Answers of this forge: what it says of a pull request and, where that is open, who
/// it says is logged in.
pub open spec fn says<F: Forge>(
    forge: &F,
    pr: u64,
    view: Result<PrView, String>,
    viewer: Result<String, String>,
) -> bool {
    &&& call_ensures(F::pr_view, (forge, pr), view)
    &&& (view is Ok && view->Ok_0.state == PrState::Open) ==> call_ensures(F::viewer_login, (forge,), viewer)
}

/// Asks the forge, and says whether the change may land. Whatever the forge answers,
/// what is said is what the guard says of such an answer; an error is the forge's own.
pub fn land_gate<F: Forge>(forge: &F, f: &LandFacts) -> (r: Result<Gate, String>)
    requires
        can_shorten(f.deep_view()),
    ensures
        exists|view: Result<PrView, String>, viewer: Result<String, String>| #[trigger]
            says(forge, f.pr, view, viewer) && gate_result(r) == gated(
                view_result(view),
                viewer_result(viewer),
                f.deep_view(),
            ),
{
    let answer = forge.pr_view(f.pr);
    let ghost said = answer;
    let ghost unasked: Result<String, String> = Err(arbitrary());
    let view = match answer {
        Ok(v) => v,
        Err(e) => {
            assert(says(forge, f.pr, said, unasked));
            return Err(e);
        },
    };
    if view.state != PrState::Open {
        assert(says(forge, f.pr, said, unasked));
        return Ok(refuse_closed(f.pr, view.state));
    }
    let named = forge.viewer_login();
    assert(says(forge, f.pr, said, named));
    match named {
        Ok(viewer) => Ok(decide_gate(&view, viewer.as_str(), f)),
        Err(e) => Err(e),
    }
}

// ---------------------------------------------------------------------------
// Publishing
// ---------------------------------------------------------------------------

/// The ref of main.
pub const MAIN_REFSPEC: &'static str = "refs/heads/main:refs/heads/main";

/// What is published: which pull request, for which change, on which branch, and what
/// main is then.
pub struct Publication<'a> {
    pub pr: u64,
    pub change_hex: &'a str,
    pub branch: &'a str,
    pub main_sha: &'a str,
    /// How often the forge is asked for the state in the end.
    pub polls: usize,
}

/// The model of a [`Publication`].
pub struct PublicationModel {
    pub pr: u64,
    pub change_hex: Seq<char>,
    pub branch: Seq<char>,
    pub main_sha: Seq<char>,
    pub polls: nat,
}

impl<'a> DeepView for Publication<'a> {
    type V = PublicationModel;

    open spec fn deep_view(&self) -> PublicationModel {
        PublicationModel {
            pr: self.pr,
            change_hex: self.change_hex@,
            branch: self.branch@,
            main_sha: self.main_sha@,
            polls: self.polls as nat,
        }
    }
}

/// How far a publication is.
#[derive(Debug, Clone, PartialEq, Eq)]
pub enum PublishStep {
    /// Main is to be moved.
    PushMain,
    /// Main could not be moved: the pull request is to be closed.
    CloseDiverged,
    /// The pull request is to be moved onto main.
    Collapse,
    /// The forge is to be asked for the state, this often at most.
    Poll { left: usize },
    /// The pull request is to be told where the change went.
    Tell { status: LandingStatus },
    /// The branch is to be removed.
    CleanUp { status: LandingStatus },
    Ended { status: LandingStatus },
    Failed(String),
}

/// The model of a [`PublishStep`].
pub enum PublishModel {
    PushMain,
    CloseDiverged,
    Collapse,
    Poll { left: nat },
    Tell { status: LandingStatus },
    CleanUp { status: LandingStatus },
    Ended { status: LandingStatus },
    Failed(Seq<char>),
}

impl DeepView for PublishStep {
    type V = PublishModel;

    open spec fn deep_view(&self) -> PublishModel {
        match self {
            PublishStep::PushMain => PublishModel::PushMain,
            PublishStep::CloseDiverged => PublishModel::CloseDiverged,
            PublishStep::Collapse => PublishModel::Collapse,
            PublishStep::Poll { left } => PublishModel::Poll { left: *left as nat },
            PublishStep::Tell { status } => PublishModel::Tell { status: *status },
            PublishStep::CleanUp { status } => PublishModel::CleanUp { status: *status },
            PublishStep::Ended { status } => PublishModel::Ended { status: *status },
            PublishStep::Failed(t) => PublishModel::Failed(t@),
        }
    }
}

/// What is asked of the forge.
#[derive(Debug, Clone, PartialEq, Eq)]
pub enum ForgeCall {
    Push { refspec: String, force: bool },
    Close { pr: u64, comment: String },
    Comment { pr: u64, body: String },
    /// After a pause.
    State { pr: u64 },
}

/// The model of a [`ForgeCall`].
pub enum CallModel {
    Push { refspec: Seq<char>, force: bool },
    Close { pr: u64, comment: Seq<char> },
    Comment { pr: u64, body: Seq<char> },
    State { pr: u64 },
}

impl DeepView for ForgeCall {
    type V = CallModel;

    open spec fn deep_view(&self) -> CallModel {
        match self {
            ForgeCall::Push { refspec, force } => CallModel::Push { refspec: refspec@, force: *force },
            ForgeCall::Close { pr, comment } => CallModel::Close { pr: *pr, comment: comment@ },
            ForgeCall::Comment { pr, body } => CallModel::Comment { pr: *pr, body: body@ },
            ForgeCall::State { pr } => CallModel::State { pr: *pr },
        }
    }
}

/// What the forge answered: a state, or nothing, or that it failed.
#[derive(Debug, PartialEq, Eq)]
pub struct Reply {
    pub result: Result<Option<PrState>, String>,
}

/// The model of a [`Reply`].
pub type ReplyModel = Result<Option<PrState>, Seq<char>>;

impl DeepView for Reply {
    type V = ReplyModel;

    open spec fn deep_view(&self) -> ReplyModel {
        match self.result {
            Ok(s) => Ok(s),
            Err(e) => Err(e@),
        }
    }
}

/// Where the change went.
pub open spec fn pointer_text(p: PublicationModel) -> Seq<char> {
    "Landed via loot as change `"@ + p.change_hex + "` -> main `"@ + p.main_sha + "`."@
}

/// Where the change went, where main could not be moved.
pub open spec fn diverged_text(p: PublicationModel) -> Seq<char> {
    "Landed via loot as change `"@ + p.change_hex + "` -> mirror main `"@ + p.main_sha
        + "`. GitHub main had diverged; reconcile with 'loot ferry' then push."@
}

/// What is asked of the forge at a step; nothing where it is over.
pub open spec fn call_at(p: PublicationModel, s: PublishModel) -> Option<CallModel> {
    match s {
        PublishModel::PushMain => Some(CallModel::Push { refspec: MAIN_REFSPEC@, force: false }),
        PublishModel::CloseDiverged => Some(CallModel::Close { pr: p.pr, comment: diverged_text(p) }),
        PublishModel::Collapse => Some(
            CallModel::Push { refspec: p.main_sha + ":refs/heads/"@ + p.branch, force: true },
        ),
        PublishModel::Poll { left } => Some(CallModel::State { pr: p.pr }),
        PublishModel::Tell { status } => Some(
            match status {
                LandingStatus::Merged => CallModel::Comment { pr: p.pr, body: pointer_text(p) },
                LandingStatus::ClosedByCollapse => CallModel::Comment {
                    pr: p.pr,
                    body: pointer_text(p)
                        + " GitHub auto-closed on the zero-diff collapse - this close is the landing signal (map #148); the signed commit on main is the authoritative record."@,
                },
                LandingStatus::ClosedWithPointer => CallModel::Close { pr: p.pr, comment: pointer_text(p) },
            },
        ),
        PublishModel::CleanUp { status } => Some(
            CallModel::Push { refspec: ":refs/heads/"@ + p.branch, force: false },
        ),
        PublishModel::Ended { status } => None,
        PublishModel::Failed(e) => None,
    }
}

/// Where it goes from a step, with an answer of the forge. A state that was asked for
/// and not given counts as open.
pub open spec fn publish_next(p: PublicationModel, s: PublishModel, reply: ReplyModel) -> PublishModel {
    match s {
        PublishModel::PushMain => if reply is Ok {
            PublishModel::Collapse
        } else {
            PublishModel::CloseDiverged
        },
        PublishModel::CloseDiverged => match reply {
            Ok(x) => PublishModel::Ended { status: LandingStatus::ClosedWithPointer },
            Err(e) => PublishModel::Failed(e),
        },
        PublishModel::Collapse => match reply {
            Ok(x) => if p.polls == 0 {
                PublishModel::Tell { status: landing_of(true, PrState::Open) }
            } else {
                PublishModel::Poll { left: p.polls }
            },
            Err(e) => PublishModel::Failed(e),
        },
        PublishModel::Poll { left } => match reply {
            Ok(x) => {
                let state = match x {
                    Some(st) => st,
                    None => PrState::Open,
                };
                if state == PrState::Open && left > 1 {
                    PublishModel::Poll { left: (left - 1) as nat }
                } else {
                    PublishModel::Tell { status: landing_of(true, state) }
                }
            },
            Err(e) => PublishModel::Failed(e),
        },
        PublishModel::Tell { status } => match reply {
            Ok(x) => PublishModel::CleanUp { status },
            Err(e) => PublishModel::Failed(e),
        },
        PublishModel::CleanUp { status } => PublishModel::Ended { status },
        PublishModel::Ended { status } => s,
        PublishModel::Failed(e) => s,
    }
}

/// Where a publication is after these answers.
pub open spec fn published(p: PublicationModel, replies: Seq<ReplyModel>) -> PublishModel
    decreases replies.len(),
{
    if replies.len() == 0 {
        PublishModel::PushMain
    } else {
        publish_next(p, published(p, replies.drop_last()), replies.last())
    }
}

impl<'a> Publication<'a> {
    fn pointer(&self) -> (r: String)
        ensures
            r@ == pointer_text(self.deep_view()),
    {
        let mut t = "Landed via loot as change `".to_owned();
        push_text(&mut t, self.change_hex);
        push_text(&mut t, "` -> main `");
        push_text(&mut t, self.main_sha);
        push_text(&mut t, "`.");
        t
    }

    /// What is to be asked of the forge at a step.
    pub fn call(&self, step: &PublishStep) -> (r: Option<ForgeCall>)
        ensures
            r.deep_view() == call_at(self.deep_view(), step.deep_view()),
    {
        match step {
            PublishStep::PushMain => Some(ForgeCall::Push { refspec: MAIN_REFSPEC.to_owned(), force: false }),
            PublishStep::CloseDiverged => {
                let mut t = "Landed via loot as change `".to_owned();
                push_text(&mut t, self.change_hex);
                push_text(&mut t, "` -> mirror main `");
                push_text(&mut t, self.main_sha);
                push_text(&mut t, "`. GitHub main had diverged; reconcile with 'loot ferry' then push.");
                Some(ForgeCall::Close { pr: self.pr, comment: t })
            },
            PublishStep::Collapse => {
                let mut t = self.main_sha.to_owned();
                push_text(&mut t, ":refs/heads/");
                push_text(&mut t, self.branch);
                Some(ForgeCall::Push { refspec: t, force: true })
            },
            PublishStep::Poll { left: _ } => Some(ForgeCall::State { pr: self.pr }),
            PublishStep::Tell { status } => {
                let mut t = self.pointer();
                match status {
                    LandingStatus::Merged => Some(ForgeCall::Comment { pr: self.pr, body: t }),
                    LandingStatus::ClosedByCollapse => {
                        push_text(
                            &mut t,
                            " GitHub auto-closed on the zero-diff collapse - this close is the landing signal (map #148); the signed commit on main is the authoritative record.",
                        );
                        Some(ForgeCall::Comment { pr: self.pr, body: t })
                    },
                    LandingStatus::ClosedWithPointer => Some(ForgeCall::Close { pr: self.pr, comment: t }),
                }
            },
            PublishStep::CleanUp { status: _ } => {
                let mut t = ":refs/heads/".to_owned();
                push_text(&mut t, self.branch);
                Some(ForgeCall::Push { refspec: t, force: false })
            },
            PublishStep::Ended { status: _ } => None,
            PublishStep::Failed(_) => None,
        }
    }

    /// Where it goes from a step, with an answer of the forge.
    pub fn next(&self, step: PublishStep, reply: Reply) -> (r: PublishStep)
        ensures
            r.deep_view() == publish_next(self.deep_view(), step.deep_view(), reply.deep_view()),
    {
        match step {
            PublishStep::PushMain => match reply.result {
                Ok(_) => PublishStep::Collapse,
                Err(_) => PublishStep::CloseDiverged,
            },
            PublishStep::CloseDiverged => match reply.result {
                Ok(_) => PublishStep::Ended { status: LandingStatus::ClosedWithPointer },
                Err(e) => PublishStep::Failed(e),
            },
            PublishStep::Collapse => match reply.result {
                Ok(_) => if self.polls == 0 {
                    PublishStep::Tell { status: interpret_landing(true, PrState::Open) }
                } else {
                    PublishStep::Poll { left: self.polls }
                },
                Err(e) => PublishStep::Failed(e),
            },
            PublishStep::Poll { left } => match reply.result {
                Ok(x) => {
                    let state = match x {
                        Some(s) => s,
                        None => PrState::Open,
                    };
                    if state == PrState::Open && left > 1 {
                        PublishStep::Poll { left: left - 1 }
                    } else {
                        PublishStep::Tell { status: interpret_landing(true, state) }
                    }
                },
                Err(e) => PublishStep::Failed(e),
            },
            PublishStep::Tell { status } => match reply.result {
                Ok(_) => PublishStep::CleanUp { status },
                Err(e) => PublishStep::Failed(e),
            },
            PublishStep::CleanUp { status } => PublishStep::Ended { status },
            PublishStep::Ended { status } => PublishStep::Ended { status },
            PublishStep::Failed(e) => PublishStep::Failed(e),
        }
    }
}

/// Someone who waits a moment.
pub trait Pause {
    fn pause(&mut self);
}

/// Someone who waits, with the count of how often they were asked to. Nobody else asks
/// them.
pub struct Counted<P: Pause> {
    inner: P,
    times: Ghost<nat>,
}

impl<P: Pause> Counted<P> {
    pub fn new(inner: P) -> (r: Self)
        ensures
            r.waited() == 0,
    {
        Counted { inner, times: Ghost(0) }
    }

    /// How often they were asked.
    pub closed spec fn waited(&self) -> nat {
        self.times@
    }

    /// Asks them once.
    fn pause(&mut self)
        ensures
            final(self).waited() == old(self).waited() + 1,
    {
        self.inner.pause();
        self.times = Ghost(self.times@ + 1);
    }
}

/// The answer that an outcome is.
pub open spec fn reply_of(r: Result<(), String>) -> ReplyModel {
    match r {
        Ok(_) => Ok(None),
        Err(e) => Err(e@),
    }
}

/// The answer that a state is.
pub open spec fn state_reply_of(r: Result<PrState, String>) -> ReplyModel {
    match r {
        Ok(s) => Ok(Some(s)),
        Err(e) => Err(e@),
    }
}

/// An answer of this forge to a call.
pub open spec fn answers<F: Forge>(forge: &F, call: CallModel, reply: ReplyModel) -> bool {
    match call {
        CallModel::Push { refspec, force } => answers_push(forge, refspec, force, reply),
        CallModel::Close { pr, comment } => answers_close(forge, pr, comment, reply),
        CallModel::Comment { pr, body } => answers_comment(forge, pr, body, reply),
        CallModel::State { pr } => answers_state(forge, pr, reply),
    }
}

pub open spec fn answers_push<F: Forge>(forge: &F, refspec: Seq<char>, force: bool, reply: ReplyModel) -> bool {
    exists|r: Result<(), String>| #[trigger] pushes(forge, refspec, force, r) && reply == reply_of(r)
}

pub open spec fn answers_close<F: Forge>(forge: &F, pr: u64, comment: Seq<char>, reply: ReplyModel) -> bool {
    exists|r: Result<(), String>| #[trigger] closes(forge, pr, comment, r) && reply == reply_of(r)
}

pub open spec fn answers_comment<F: Forge>(forge: &F, pr: u64, body: Seq<char>, reply: ReplyModel) -> bool {
    exists|r: Result<(), String>| #[trigger] comments(forge, pr, body, r) && reply == reply_of(r)
}

pub open spec fn answers_state<F: Forge>(forge: &F, pr: u64, reply: ReplyModel) -> bool {
    exists|r: Result<PrState, String>| #[trigger]
        call_ensures(F::pr_state, (forge, pr), r) && reply == state_reply_of(r)
}

/// Answers of this forge to the calls of a publication, each to the one that is due
/// after those before it.
pub open spec fn answered<F: Forge>(forge: &F, p: PublicationModel, replies: Seq<ReplyModel>) -> bool
    decreases replies.len(),
{
    replies.len() == 0 || {
        &&& answered(forge, p, replies.drop_last())
        &&& call_at(p, published(p, replies.drop_last())) matches Some(call) && answers(
            forge,
            call,
            replies.last(),
        )
    }
}

/// How often these answers were to what became of the pull request.
pub open spec fn times_polled(p: PublicationModel, replies: Seq<ReplyModel>) -> nat
    decreases replies.len(),
{
    if replies.len() == 0 {
        0
    } else {
        times_polled(p, replies.drop_last()) + if published(p, replies.drop_last()) is Poll {
            1nat
        } else {
            0nat
        }
    }
}

/// Asks the forge for one thing.
fn ask<F: Forge>(forge: &F, call: &ForgeCall) -> (r: Reply)
    ensures
        answers(forge, call.deep_view(), r.deep_view()),
{
    let done: Result<(), String> = match call {
        ForgeCall::Push { refspec, force } => {
            let r = forge.push_ref(refspec.as_str(), *force);
            assert(pushes(forge, refspec@, *force, r));
            r
        },
        ForgeCall::Close { pr, comment } => {
            let r = forge.close_pr(*pr, comment.as_str());
            assert(closes(forge, *pr, comment@, r));
            r
        },
        ForgeCall::Comment { pr, body } => {
            let r = forge.comment_pr(*pr, body.as_str());
            assert(comments(forge, *pr, body@, r));
            r
        },
        ForgeCall::State { pr } => {
            let r = forge.pr_state(*pr);
            assert(call_ensures(F::pr_state, (forge, *pr), r));
            return match r {
                Ok(s) => Reply { result: Ok(Some(s)) },
                Err(e) => Reply { result: Err(e) },
            };
        },
    };
    match done {
        Ok(_) => Reply { result: Ok(None) },
        Err(e) => Reply { result: Err(e) },
    }
}

/// How much is left to do at most.
pub open spec fn steps_left(p: PublicationModel, s: PublishModel) -> nat {
    match s {
        PublishModel::PushMain => p.polls + 5,
        PublishModel::Collapse => p.polls + 4,
        PublishModel::Poll { left } => left + 3,
        PublishModel::Tell { status } => 2,
        PublishModel::CleanUp { status } => 1,
        PublishModel::CloseDiverged => 1,
        PublishModel::Ended { status } => 0,
        PublishModel::Failed(e) => 0,
    }
}

/// Publishes what landed, and says how it ended. Whatever the forge answers, it is
/// asked what is due after the answers so far, and it ends where they lead. There is
/// one wait for each time that it is asked what became of the pull request, and no
/// other.
pub fn execute_landing<F: Forge, P: Pause>(
    forge: &F,
    pr: u64,
    change_hex: &str,
    branch: &str,
    main_sha: &str,
    poll_attempts: usize,
    pause: &mut Counted<P>,
) -> (r: Result<LandingStatus, String>)
    ensures
        ({
            let p = PublicationModel {
                pr,
                change_hex: change_hex@,
                branch: branch@,
                main_sha: main_sha@,
                polls: poll_attempts as nat,
            };
            exists|replies: Seq<ReplyModel>| #[trigger]
                answered(forge, p, replies) && match published(p, replies) {
                    PublishModel::Ended { status } => r == Ok::<LandingStatus, String>(status),
                    PublishModel::Failed(e) => r matches Err(x) && x@ == e,
                    _ => false,
                } && final(pause).waited() == old(pause).waited() + times_polled(p, replies)
        }),
{
    let p = Publication { pr, change_hex, branch, main_sha, polls: poll_attempts };
    let ghost pm = p.deep_view();
    let ghost mut replies: Seq<ReplyModel> = Seq::empty();
    let mut step = PublishStep::PushMain;
    loop
        invariant
            pm == p.deep_view(),
            pm == (PublicationModel {
                pr,
                change_hex: change_hex@,
                branch: branch@,
                main_sha: main_sha@,
                polls: poll_attempts as nat,
            }),
            answered(forge, pm, replies),
            pause.waited() == old(pause).waited() + times_polled(pm, replies),
            step.deep_view() == published(pm, replies),
            step.deep_view() matches PublishModel::Poll { left } ==> 0 < left <= pm.polls,
        decreases steps_left(pm, step.deep_view()),
    {
        match p.call(&step) {
            Some(call) => {
                let ghost before = step.deep_view();
                if let ForgeCall::State { pr: _ } = &call {
                    pause.pause();
                }
                let reply = ask(forge, &call);
                proof {
                    let next = replies.push(reply.deep_view());
                    assert(next.drop_last() =~= replies);
                    replies = next;
                }
                step = p.next(step, reply);
            },
            None => {
                return match step {
                    PublishStep::Ended { status } => {
                        assert(published(pm, replies) == (PublishModel::Ended { status }));
                        Ok(status)
                    },
                    PublishStep::Failed(e) => {
                        assert(published(pm, replies) == PublishModel::Failed(e@));
                        Err(e)
                    },
                    _ => {
                        Err(String::new())
                    },
                };
            },
        }
    }
}

// ---------------------------------------------------------------------------
// Tags
// ---------------------------------------------------------------------------

/// The ref of a tag.
pub open spec fn tag_refspec_of(name: Seq<char>) -> Seq<char> {
    "refs/tags/"@ + name + ":"@ + "refs/tags/"@ + name
}

/// The ref of a tag.
pub fn tag_refspec(name: &str) -> (r: String)
    ensures
        r@ == tag_refspec_of(name@),
{
    let mut t = "refs/tags/".to_owned();
    push_text(&mut t, name);
    push_text(&mut t, ":");
    push_text(&mut t, "refs/tags/");
    push_text(&mut t, name);
    t
}

/// How far publishing a tag is.
#[derive(Debug, Clone, PartialEq, Eq)]
pub enum TagStep {
    /// Main is to be pushed.
    PushMain,
    /// The tag is to be pushed.
    PushTag,
    Done,
    Failed(String),
}

/// The model of a [`TagStep`].
pub enum TagModel {
    PushMain,
    PushTag,
    Done,
    Failed(Seq<char>),
}

impl DeepView for TagStep {
    type V = TagModel;

    open spec fn deep_view(&self) -> TagModel {
        match self {
            TagStep::PushMain => TagModel::PushMain,
            TagStep::PushTag => TagModel::PushTag,
            TagStep::Done => TagModel::Done,
            TagStep::Failed(t) => TagModel::Failed(t@),
        }
    }
}

/// Main could not be pushed.
pub open spec fn main_refused_text(e: Seq<char>) -> Seq<char> {
    "publish main before tagging failed ("@ + e
        + ") — GitHub main may have diverged; reconcile with `loot ferry` (or land the pending work) and retry the tag"@
}

/// The tag could not be pushed.
pub open spec fn tag_refused_text(name: Seq<char>, e: Seq<char>) -> Seq<char> {
    "push tag '"@ + name + "' failed ("@ + e + ") — does it already exist on origin?"@
}

/// What is asked of the forge at a step of a tag; nothing where it is over.
pub open spec fn tag_call_at(name: Seq<char>, s: TagModel) -> Option<CallModel> {
    match s {
        TagModel::PushMain => Some(CallModel::Push { refspec: MAIN_REFSPEC@, force: false }),
        TagModel::PushTag => Some(CallModel::Push { refspec: tag_refspec_of(name), force: false }),
        TagModel::Done => None,
        TagModel::Failed(e) => None,
    }
}

/// Where a tag goes from a step, with an answer of the forge.
pub open spec fn tag_next_of(name: Seq<char>, s: TagModel, reply: ReplyModel) -> TagModel {
    match s {
        TagModel::PushMain => match reply {
            Ok(x) => TagModel::PushTag,
            Err(e) => TagModel::Failed(main_refused_text(e)),
        },
        TagModel::PushTag => match reply {
            Ok(x) => TagModel::Done,
            Err(e) => TagModel::Failed(tag_refused_text(name, e)),
        },
        TagModel::Done => s,
        TagModel::Failed(e) => s,
    }
}

/// Where a tag is after these answers.
pub open spec fn tagged(name: Seq<char>, replies: Seq<ReplyModel>) -> TagModel
    decreases replies.len(),
{
    if replies.len() == 0 {
        TagModel::PushMain
    } else {
        tag_next_of(name, tagged(name, replies.drop_last()), replies.last())
    }
}

/// Answers of this forge to the calls of a tag, each to the one that is due after
/// those before it.
pub open spec fn tag_answered<F: Forge>(forge: &F, name: Seq<char>, replies: Seq<ReplyModel>) -> bool
    decreases replies.len(),
{
    replies.len() == 0 || {
        &&& tag_answered(forge, name, replies.drop_last())
        &&& tag_call_at(name, tagged(name, replies.drop_last())) matches Some(call) && answers(
            forge,
            call,
            replies.last(),
        )
    }
}

/// What is to be asked of the forge at a step of a tag: main, then the tag, then
/// nothing.
pub fn tag_call(name: &str, step: &TagStep) -> (r: Option<ForgeCall>)
    ensures
        r.deep_view() == tag_call_at(name@, step.deep_view()),
{
    match step {
        TagStep::PushMain => Some(ForgeCall::Push { refspec: MAIN_REFSPEC.to_owned(), force: false }),
        TagStep::PushTag => Some(ForgeCall::Push { refspec: tag_refspec(name), force: false }),
        TagStep::Done => None,
        TagStep::Failed(_) => None,
    }
}

/// Where a tag goes from a step, with an answer of the forge. The tag comes only after
/// main.
pub fn tag_next(name: &str, step: TagStep, reply: Reply) -> (r: TagStep)
    ensures
        r.deep_view() == tag_next_of(name@, step.deep_view(), reply.deep_view()),
{
    match step {
        TagStep::PushMain => match reply.result {
            Ok(_) => TagStep::PushTag,
            Err(e) => {
                let mut t = "publish main before tagging failed (".to_owned();
                push_text(&mut t, e.as_str());
                push_text(
                    &mut t,
                    ") — GitHub main may have diverged; reconcile with `loot ferry` (or land the pending work) and retry the tag",
                );
                TagStep::Failed(t)
            },
        },
        TagStep::PushTag => match reply.result {
            Ok(_) => TagStep::Done,
            Err(e) => {
                let mut t = "push tag '".to_owned();
                push_text(&mut t, name);
                push_text(&mut t, "' failed (");
                push_text(&mut t, e.as_str());
                push_text(&mut t, ") — does it already exist on origin?");
                TagStep::Failed(t)
            },
        },
        TagStep::Done => TagStep::Done,
        TagStep::Failed(e) => TagStep::Failed(e),
    }
}

/// How much of a tag is left to do.
spec fn tag_steps_left(s: TagModel) -> nat {
    match s {
        TagModel::PushMain => 2,
        TagModel::PushTag => 1,
        _ => 0,
    }
}

/// Pushes main, and then the tag. Where main cannot be pushed, the tag is not. Whatever
/// the forge answers, it is asked what is due after the answers so far, and it ends
/// where they lead.
pub fn execute_tag_push<F: Forge>(forge: &F, name: &str) -> (r: Result<(), String>)
    ensures
        exists|replies: Seq<ReplyModel>| #[trigger]
            tag_answered(forge, name@, replies) && match tagged(name@, replies) {
                TagModel::Done => r is Ok,
                TagModel::Failed(e) => r matches Err(x) && x@ == e,
                _ => false,
            },
{
    let ghost mut replies: Seq<ReplyModel> = Seq::empty();
    let mut step = TagStep::PushMain;
    loop
        invariant
            tag_answered(forge, name@, replies),
            step.deep_view() == tagged(name@, replies),
        decreases tag_steps_left(step.deep_view()),
    {
        match tag_call(name, &step) {
            Some(call) => {
                let reply = ask(forge, &call);
                proof {
                    let next = replies.push(reply.deep_view());
                    assert(next.drop_last() =~= replies);
                    replies = next;
                }
                step = tag_next(name, step, reply);
            },
            None => {
                return match step {
                    TagStep::Failed(e) => {
                        assert(tag_answered(forge, name@, replies));
                        Err(e)
                    },
                    _ => {
                        assert(tag_answered(forge, name@, replies));
                        Ok(())
                    },
                };
            },
        }
    }
}

// ---------------------------------------------------------------------------
// Status
// ---------------------------------------------------------------------------

/// One lane, in words.
pub open spec fn status_line(l: PrLaneModel) -> Seq<char> {
    "lane change="@ + hex8_of(Some(l.change)) + " dock="@ + l.dock + " pr=#"@ + decimal(l.pr as nat)
}

/// What is shown of the lanes.
pub fn status_lines(map: &PrMap) -> (r: Vec<String>)
    requires
        forall|i: int|
            0 <= i < map.lanes@.len() ==> first_bytes((#[trigger] map.lanes@[i]).change@, 8) is Some,
    ensures
        r.deep_view() == (if map.lanes@.len() == 0 {
            seq!["no in-flight review lanes"@]
        } else {
            map.lanes.deep_view().map_values(|l: PrLaneModel| status_line(l))
        }),
{
    let ghost ls = map.lanes.deep_view();
    let ghost f = |l: PrLaneModel| status_line(l);
    if map.lanes.len() == 0 {
        let r = crate::seqs::single("no in-flight review lanes".to_owned());
        assert(r.deep_view() =~= seq!["no in-flight review lanes"@]);
        return r;
    }
    let mut r: Vec<String> = crate::seqs::none();
    let mut i: usize = 0;
    assert(r.deep_view() =~= ls.take(0).map_values(f));
    while i < map.lanes.len()
        invariant
            0 <= i <= map.lanes@.len(),
            ls == map.lanes.deep_view(),
            f == (|l: PrLaneModel| status_line(l)),
            forall|i: int|
                0 <= i < map.lanes@.len() ==> first_bytes((#[trigger] map.lanes@[i]).change@, 8) is Some,
            r.deep_view() == ls.take(i as int).map_values(f),
        decreases map.lanes@.len() - i,
    {
        let l = &map.lanes[i];
        assert(ls[i as int] == l.deep_view());
        let mut t = "lane change=".to_owned();
        push_text(&mut t, hex8(Some(l.change.as_str())).as_str());
        push_text(&mut t, " dock=");
        push_text(&mut t, l.dock.as_str());
        push_text(&mut t, " pr=#");
        push_decimal(&mut t, l.pr);
        crate::seqs::push(&mut r, t);
        assert(r.deep_view() =~= ls.take(i as int + 1).map_values(f));
        i = i + 1;
    }
    assert(ls.take(ls.len() as int) =~= ls);
    r
}

/// What is put where git runs it before a commit: it warns, and stops nothing.
pub const HOOK_BODY: &'static str =
    "#!/bin/sh\n# loot-first guard (map #148, warn-only by design - break-glass stays open).\nbranch=$(git symbolic-ref --short HEAD 2>/dev/null)\nif [ \"$branch\" = \"main\" ]; then\n  echo \"loot: warning - committing directly to git main is off the loot-first path.\" >&2\n  echo \"      git main is a projection of loot; the next 'loot ferry' ingests this.\" >&2\n  echo \"      prefer: loot dock <task> -> loot ferry --with-wip -> PR  (docs/agents/workflow.md)\" >&2\nfi\nexit 0\n";

// ---------------------------------------------------------------------------
// Laws
// ---------------------------------------------------------------------------

/// What the guard lets through is open, approved, on the dock that one is on and that
/// main follows, opened from here, described, and as it was reviewed.
pub proof fn law_gate_lets_only_good_through(view: PrViewModel, viewer: Seq<char>, f: FactsModel)
    requires
        gate_of(view, viewer, f) is Proceed,
    ensures
        view.state == PrState::Open,
        approval_of(view.review_decision, view.author_login, viewer) != Approval::Refused,
        f.ambient_dock == f.lane_dock,
        f.lane_owner == f.position,
        f.lane_dock == f.tracked_dock,
        f.current_subject matches Some(s) ==> !begins_with(s, RESOLVE_PLACEHOLDER_PREFIX@),
        f.reviewed_version is Some && f.current_version is Some ==> f.reviewed_version == f.current_version,
{
}

/// Where main could not be moved, the pull request is never moved onto it.
pub proof fn law_diverged_main_is_not_collapsed(p: PublicationModel, replies: Seq<ReplyModel>)
    requires
        replies.len() > 0,
        replies[0] is Err,
    ensures
        published(p, replies) is CloseDiverged || published(p, replies) is Ended || published(p, replies) is Failed,
        published(p, replies) matches PublishModel::Ended { status } ==> status
            == LandingStatus::ClosedWithPointer,
    decreases replies.len(),
{
    if replies.len() == 1 {
        assert(replies.drop_last() =~= Seq::<ReplyModel>::empty());
        assert(published(p, replies.drop_last()) is PushMain);
        assert(replies.last() == replies[0]);
    } else {
        assert(replies.drop_last()[0] == replies[0]);
        law_diverged_main_is_not_collapsed(p, replies.drop_last());
    }
}

/// A pull request counts as merged only where the forge said so, after main was moved.
pub proof fn law_merged_was_said(p: PublicationModel, replies: Seq<ReplyModel>)
    requires
        published(p, replies) matches PublishModel::Ended { status } && status == LandingStatus::Merged,
    ensures
        replies.len() > 0,
        replies[0] is Ok,
        exists|i: int|
            0 <= i < replies.len() && #[trigger] replies[i] == Ok::<Option<PrState>, Seq<char>>(
                Some(PrState::Merged),
            ),
{
    lemma_merged_was_said(p, replies);
    if replies.len() == 0 {
        assert(published(p, replies) is PushMain);
    } else if replies[0] is Err {
        law_diverged_main_is_not_collapsed(p, replies);
    }
}

/// A step that speaks of a merge.
spec fn says_merged(s: PublishModel) -> bool {
    match s {
        PublishModel::Tell { status } => status == LandingStatus::Merged,
        PublishModel::CleanUp { status } => status == LandingStatus::Merged,
        PublishModel::Ended { status } => status == LandingStatus::Merged,
        _ => false,
    }
}

proof fn lemma_merged_was_said(p: PublicationModel, replies: Seq<ReplyModel>)
    requires
        says_merged(published(p, replies)),
    ensures
        exists|i: int|
            0 <= i < replies.len() && #[trigger] replies[i] == Ok::<Option<PrState>, Seq<char>>(
                Some(PrState::Merged),
            ),
    decreases replies.len(),
{
    if replies.len() > 0 {
        let before = replies.drop_last();
        if says_merged(published(p, before)) {
            lemma_merged_was_said(p, before);
            let i = choose|i: int|
                0 <= i < before.len() && #[trigger] before[i] == Ok::<Option<PrState>, Seq<char>>(
                    Some(PrState::Merged),
                );
            assert(replies[i] == before[i]);
        } else {
            assert(replies[replies.len() - 1] == Ok::<Option<PrState>, Seq<char>>(Some(PrState::Merged)));
        }
    }
}

/// Main goes first. The tag is asked for only where main has been pushed; where main
/// is refused, nothing more is asked and publishing the tag has failed.
pub proof fn law_tag_needs_main(name: Seq<char>, replies: Seq<ReplyModel>)
    ensures
        tag_call_at(name, tagged(name, Seq::empty())) == Some(
            CallModel::Push { refspec: MAIN_REFSPEC@, force: false },
        ),
        tagged(name, replies) is PushTag ==> replies.len() == 1 && replies[0] is Ok,
        replies.len() > 0 && replies[0] is Err ==> {
            &&& tagged(name, replies) == TagModel::Failed(main_refused_text(replies[0]->Err_0))
            &&& tag_call_at(name, tagged(name, replies)) is None
        },
    decreases replies.len(),
{
    if replies.len() == 1 {
        assert(replies.drop_last() =~= Seq::<ReplyModel>::empty());
        assert(replies.last() == replies[0]);
    } else if replies.len() > 1 {
        assert(replies.drop_last()[0] == replies[0]);
        law_tag_needs_main(name, replies.drop_last());
        lemma_tag_moves_on(name, replies.drop_last());
    }
}

/// With an answer, main is not pushed again.
proof fn lemma_tag_moves_on(name: Seq<char>, replies: Seq<ReplyModel>)
    requires
        replies.len() > 0,
    ensures
        !(tagged(name, replies) is PushMain),
    decreases replies.len(),
{
    if replies.len() == 1 {
        assert(replies.drop_last() =~= Seq::<ReplyModel>::empty());
    } else {
        lemma_tag_moves_on(name, replies.drop_last());
    }
}

/// The guard lets through all that nothing stands in the way of, and tells one's own from
/// what another approved.
pub proof fn law_gate_lets_all_good_through(view: PrViewModel, viewer: Seq<char>, f: FactsModel)
    requires
        view.state == PrState::Open,
        view.review_decision == ReviewDecision::Approved || (view.author_login == viewer && view.review_decision
            != ReviewDecision::ChangesRequested),
        f.ambient_dock == f.lane_dock,
        f.lane_owner == f.position,
        f.lane_dock == f.tracked_dock,
        f.current_subject is None || !begins_with(f.current_subject->Some_0, RESOLVE_PLACEHOLDER_PREFIX@),
        f.reviewed_version is None || f.current_version is None || f.reviewed_version == f.current_version,
    ensures
        gate_of(view, viewer, f) == (GateModel::Proceed {
            self_fast_path: view.review_decision != ReviewDecision::Approved,
        }),
{
}

/// A publication with this many polls that found it open.
proof fn lemma_polled(p: PublicationModel, first: Option<PrState>, second: Option<PrState>, k: nat)
    requires
        k < p.polls,
    ensures
        published(
            p,
            seq![Ok::<Option<PrState>, Seq<char>>(first), Ok(second)] + Seq::new(
                k,
                |i: int| Ok::<Option<PrState>, Seq<char>>(Some(PrState::Open)),
            ),
        ) == (PublishModel::Poll { left: (p.polls - k) as nat }),
    decreases k,
{
    let two = seq![Ok::<Option<PrState>, Seq<char>>(first), Ok(second)];
    let opens = Seq::new(k, |i: int| Ok::<Option<PrState>, Seq<char>>(Some(PrState::Open)));
    let rs = two + opens;
    if k == 0 {
        assert(rs =~= two);
        let one = two.drop_last();
        assert(one.drop_last() =~= Seq::<ReplyModel>::empty());
        assert(published(p, one.drop_last()) is PushMain);
        assert(published(p, one) is Collapse);
    } else {
        let fewer = Seq::new((k - 1) as nat, |i: int| Ok::<Option<PrState>, Seq<char>>(Some(PrState::Open)));
        assert(rs.drop_last() =~= two + fewer);
        lemma_polled(p, first, second, (k - 1) as nat);
    }
}

/// A publication on a forge that does as it is asked: main is moved and the pull request
/// onto it; its state is asked for while it is open, as often as may be; it is told where the
/// change went, and the branch is removed. It ends as merged, closed or open, as the forge
/// said last, whatever becomes of the branch.
pub proof fn law_publication_runs_through(
    p: PublicationModel,
    first: Option<PrState>,
    second: Option<PrState>,
    k: nat,
    state: PrState,
    told: Option<PrState>,
    gone: ReplyModel,
)
    requires
        k < p.polls,
        state != PrState::Open || k == p.polls - 1,
    ensures
        ({
            let rs = seq![Ok::<Option<PrState>, Seq<char>>(first), Ok(second)] + Seq::new(
                k,
                |i: int| Ok::<Option<PrState>, Seq<char>>(Some(PrState::Open)),
            );
            let done = rs.push(Ok(Some(state))).push(Ok(told)).push(gone);
            published(p, done) == (PublishModel::Ended {
                status: match state {
                    PrState::Merged => LandingStatus::Merged,
                    PrState::Closed => LandingStatus::ClosedByCollapse,
                    PrState::Open => LandingStatus::ClosedWithPointer,
                },
            })
        }),
{
    let rs = seq![Ok::<Option<PrState>, Seq<char>>(first), Ok(second)] + Seq::new(
        k,
        |i: int| Ok::<Option<PrState>, Seq<char>>(Some(PrState::Open)),
    );
    lemma_polled(p, first, second, k);
    let a = rs.push(Ok(Some(state)));
    let b = a.push(Ok(told));
    assert(a.drop_last() =~= rs);
    assert(b.drop_last() =~= a);
    assert(b.push(gone).drop_last() =~= b);
    assert(published(p, a) is Tell);
    assert(published(p, b) is CleanUp);
}

/// What a publication asks for, in turn: main without force, the pull request's branch onto
/// main with force, its state, a word to it, and at last that the branch goes. A pull request
/// is closed only where it was not merged or closed by then.
pub proof fn law_what_is_asked_of_the_forge(p: PublicationModel, left: nat, status: LandingStatus)
    ensures
        call_at(p, PublishModel::PushMain) == Some(
            CallModel::Push { refspec: "refs/heads/main:refs/heads/main"@, force: false },
        ),
        call_at(p, PublishModel::Collapse) == Some(
            CallModel::Push { refspec: p.main_sha + ":refs/heads/"@ + p.branch, force: true },
        ),
        call_at(p, PublishModel::Poll { left }) == Some(CallModel::State { pr: p.pr }),
        call_at(p, PublishModel::CleanUp { status }) == Some(
            CallModel::Push { refspec: ":refs/heads/"@ + p.branch, force: false },
        ),
        call_at(p, PublishModel::Tell { status }) is Some,
        call_at(p, PublishModel::Tell { status }) matches Some(c) && (c is Comment || c is Close) && (c is Comment
            ==> c->Comment_pr == p.pr) && (c is Close ==> c->Close_pr == p.pr),
        call_at(p, PublishModel::Tell { status })->Some_0 is Close <==> status == LandingStatus::ClosedWithPointer,
        call_at(p, PublishModel::CloseDiverged) matches Some(c) && c is Close && c->Close_pr == p.pr,
        call_at(p, PublishModel::Ended { status }) is None,
{
}

/// A refusal on the way ends a publication, but for main, where the pull request is closed
/// instead, and for the branch, which may stay.
pub proof fn law_refusal_ends_publication(p: PublicationModel, e: Seq<char>, left: nat, status: LandingStatus)
    ensures
        publish_next(p, PublishModel::PushMain, Err(e)) is CloseDiverged,
        publish_next(p, PublishModel::CloseDiverged, Err(e)) == PublishModel::Failed(e),
        publish_next(p, PublishModel::Collapse, Err(e)) == PublishModel::Failed(e),
        publish_next(p, PublishModel::Poll { left }, Err(e)) == PublishModel::Failed(e),
        publish_next(p, PublishModel::Tell { status }, Err(e)) == PublishModel::Failed(e),
        publish_next(p, PublishModel::CleanUp { status }, Err(e)) == (PublishModel::Ended { status }),
{
}

/// A tag is published once main and then the tag were taken; where the tag is refused, it has
/// failed.
pub proof fn law_tag_is_published(name: Seq<char>, first: Option<PrState>, second: Option<PrState>, e: Seq<char>)
    ensures
        tagged(name, seq![Ok::<Option<PrState>, Seq<char>>(first), Ok(second)]) is Done,
        tagged(name, seq![Ok::<Option<PrState>, Seq<char>>(first), Err(e)]) is Failed,
        tag_call_at(name, TagModel::PushTag) == Some(
            CallModel::Push { refspec: "refs/tags/"@ + name + ":"@ + "refs/tags/"@ + name, force: false },
        ),
{
    let a = seq![Ok::<Option<PrState>, Seq<char>>(first), Ok(second)];
    let b = seq![Ok::<Option<PrState>, Seq<char>>(first), Err(e)];
    assert(a.drop_last() =~= b.drop_last());
    assert(a.drop_last().drop_last() =~= Seq::<ReplyModel>::empty());
    assert(tagged(name, a.drop_last().drop_last()) is PushMain);
    assert(tagged(name, a.drop_last()) is PushTag);
}

/// How a mirror stands: the same where the names are; else ahead where the forge's main is an
/// ancestor of its own, behind where its own is one of the forge's, and apart where neither.
/// A push is owed only where the mirror leads the forge with what was signed.
pub proof fn law_how_the_mirror_stands(
    mirror: Seq<char>,
    origin: Seq<char>,
    ahead: bool,
    behind: bool,
    tip: Option<Seq<char>>,
    carried: bool,
)
    ensures
        ancestry_of(mirror, origin, ahead, behind) == Ancestry::Same <==> mirror == origin,
        ancestry_of(mirror, origin, ahead, behind) == Ancestry::MirrorAhead <==> mirror != origin && ahead,
        ancestry_of(mirror, origin, ahead, behind) == Ancestry::MirrorBehind <==> mirror != origin && !ahead && behind,
        push_is_owed(tip, Some(origin), ahead, carried, mirror) <==> tip is Some && origin != mirror && ahead && carried,
        !push_is_owed(tip, None, ahead, carried, mirror),
{
}

/// The dock that a configuration names is in its first line that gives one; it is `main`
/// where none does.
pub proof fn law_dock_is_named_first(ls: Seq<Seq<char>>, i: int, k: Seq<char>, v: Seq<char>)
    requires
        0 <= i <= ls.len(),
        forall|j: int|
            0 <= j < i ==> !(split_at(#[trigger] ls[j], '=') is Some && trimmed(split_at(ls[j], '=')->Some_0.0) == "dock"@),
        i < ls.len() ==> split_at(ls[i], '=') == Some((k, v)) && trimmed(k) == "dock"@,
    ensures
        i < ls.len() ==> dock_in(ls) == trimmed(v),
        i == ls.len() ==> dock_in(ls) == "main"@,
    decreases i,
{
    if i > 0 {
        let rest = ls.skip(1);
        assert(rest.len() == ls.len() - 1);
        assert forall|j: int| 0 <= j < i - 1 implies !(split_at(#[trigger] rest[j], '=') is Some && trimmed(
            split_at(rest[j], '=')->Some_0.0,
        ) == "dock"@) by {
            assert(rest[j] == ls[j + 1]);
        }
        if i < ls.len() {
            assert(rest[i - 1] == ls[i]);
        }
        law_dock_is_named_first(rest, i - 1, k, v);
        assert(!(split_at(ls[0], '=') is Some && trimmed(split_at(ls[0], '=')->Some_0.0) == "dock"@));
    }
}

/// A title that was given is taken; else that of what was described, within what the forge
/// takes; else one from the dock.
pub proof fn law_title_is_found(title: Seq<char>, described: Seq<char>, dock: Seq<char>)
    ensures
        trimmed(title).len() > 0 ==> title_of(Some(title), Some(described), dock) == trimmed(title) && title_of(
            Some(title),
            None,
            dock,
        ) == trimmed(title),
        title_of(None, Some(described), dock) == subject_in(trimmed(described)),
        trimmed(title).len() == 0 ==> title_of(Some(title), Some(described), dock) == subject_in(trimmed(described)),
        title_of(None, None, dock) == "loot-first: "@ + dock,
        subject_in(described).len() <= MAX_PR_TITLE,
        lines_of(described).len() == 0 ==> subject_in(described) == trimmed(Seq::empty()),
        lines_of(described).len() > 0 && trimmed(lines_of(described)[0]).len() <= MAX_PR_TITLE ==> subject_in(described)
            == trimmed(lines_of(described)[0]),
        lines_of(described).len() > 0 && trimmed(lines_of(described)[0]).len() > MAX_PR_TITLE ==> subject_in(described)
            == trimmed(lines_of(described)[0]).take(MAX_PR_TITLE as int),
{
    if lines_of(described).len() == 0 {
        assert(trimmed(Seq::<char>::empty()).len() == 0) by {
            assert(crate::text::trimmed_front(Seq::<char>::empty()) =~= Seq::<char>::empty());
        }
    }
}

} // verus!
