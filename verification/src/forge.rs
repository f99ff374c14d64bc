//! The forge where changes are reviewed, as far as landing needs it.
//!
//! Whoever talks to the forge implements [`Forge`]. What the forge answers is read
//! here.

use crate::split::{behind, fields, fields_of, find_behind, leading_digits, number_in, parse_number, take_digits};
use crate::text::{debug_of, debug_text, push_text, same_text, trim, trimmed};
use vstd::prelude::*;

verus! {

/// What those who looked at it decided.
#[derive(Debug, Clone, Copy, PartialEq, Eq, Structural)]
pub enum ReviewDecision {
    Approved,
    ChangesRequested,
    /// Anything else, no decision among it.
    Other,
}

/// The decision that a word stands for.
pub open spec fn decision_of(s: Seq<char>) -> ReviewDecision {
    if trimmed(s) == "APPROVED"@ {
        ReviewDecision::Approved
    } else if trimmed(s) == "CHANGES_REQUESTED"@ {
        ReviewDecision::ChangesRequested
    } else {
        ReviewDecision::Other
    }
}

impl ReviewDecision {
    pub fn parse(s: &str) -> (r: Self)
        ensures
            r == decision_of(s@),
    {
        let t = trim(s);
        if same_text(t.as_str(), "APPROVED") {
            ReviewDecision::Approved
        } else if same_text(t.as_str(), "CHANGES_REQUESTED") {
            ReviewDecision::ChangesRequested
        } else {
            ReviewDecision::Other
        }
    }
}

/// Where a pull request stands.
#[derive(Debug, Clone, Copy, PartialEq, Eq, Structural)]
pub enum PrState {
    Open,
    Merged,
    Closed,
}

/// The state that a word stands for.
pub open spec fn state_of(s: Seq<char>) -> Option<PrState> {
    if trimmed(s) == "OPEN"@ {
        Some(PrState::Open)
    } else if trimmed(s) == "MERGED"@ {
        Some(PrState::Merged)
    } else if trimmed(s) == "CLOSED"@ {
        Some(PrState::Closed)
    } else {
        None
    }
}

impl PrState {
    pub fn parse(s: &str) -> (r: Option<Self>)
        ensures
            r == state_of(s@),
    {
        let t = trim(s);
        if same_text(t.as_str(), "OPEN") {
            Some(PrState::Open)
        } else if same_text(t.as_str(), "MERGED") {
            Some(PrState::Merged)
        } else if same_text(t.as_str(), "CLOSED") {
            Some(PrState::Closed)
        } else {
            None
        }
    }
}

/// What landing needs to know of a pull request.
#[derive(Debug, Clone, PartialEq, Eq)]
pub struct PrView {
    pub state: PrState,
    pub review_decision: ReviewDecision,
    pub author_login: String,
}

/// The model of a [`PrView`].
pub struct PrViewModel {
    pub state: PrState,
    pub review_decision: ReviewDecision,
    pub author_login: Seq<char>,
}

impl DeepView for PrView {
    type V = PrViewModel;

    open spec fn deep_view(&self) -> PrViewModel {
        PrViewModel {
            state: self.state,
            review_decision: self.review_decision,
            author_login: self.author_login@,
        }
    }
}

/// Someone who talks to the forge. Nothing is promised of the answers.
pub trait Forge {
    /// Who is logged in.
    fn viewer_login(&self) -> (r: Result<String, String>);

    /// Pushes one ref. With nothing before the colon, the ref is deleted.
    fn push_ref(&self, refspec: &str, force: bool) -> (r: Result<(), String>);

    /// Opens a pull request and gives its number.
    fn create_pr(&self, head: &str, base: &str, title: &str, body: &str) -> (r: Result<u64, String>);

    fn pr_view(&self, pr: u64) -> (r: Result<PrView, String>);

    fn pr_state(&self, pr: u64) -> (r: Result<PrState, String>);

    fn close_pr(&self, pr: u64, comment: &str) -> (r: Result<(), String>);

    fn comment_pr(&self, pr: u64, body: &str) -> (r: Result<(), String>);
}

/// An answer of this forge to being asked to push a ref.
pub open spec fn pushes<F: Forge>(forge: &F, refspec: Seq<char>, force: bool, r: Result<(), String>) -> bool {
    exists|t: &str| t@ == refspec && #[trigger] call_ensures(F::push_ref, (forge, t, force), r)
}

/// An answer of this forge to being asked to close a pull request.
pub open spec fn closes<F: Forge>(forge: &F, pr: u64, comment: Seq<char>, r: Result<(), String>) -> bool {
    exists|t: &str| t@ == comment && #[trigger] call_ensures(F::close_pr, (forge, pr, t), r)
}

/// An answer of this forge to being asked to comment on a pull request.
pub open spec fn comments<F: Forge>(forge: &F, pr: u64, body: Seq<char>, r: Result<(), String>) -> bool {
    exists|t: &str| t@ == body && #[trigger] call_ensures(F::comment_pr, (forge, pr, t), r)
}

/// The number of the pull request that a link leads to.
pub open spec fn pr_number_in(text: Seq<char>) -> Option<u64> {
    match behind(text, "/pull/"@) {
        Some(tail) => number_in(leading_digits(tail)),
        None => None,
    }
}

/// The number of the pull request that a link leads to (`.../pull/123`).
pub fn parse_pr_number(text: &str) -> (r: Option<u64>)
    ensures
        r == pr_number_in(text@),
{
    match find_behind(text, "/pull/") {
        Some(tail) => parse_number(take_digits(tail.as_str()).as_str()),
        None => None,
    }
}

/// What a line of three fields says of a pull request: state, decision, author.
pub open spec fn pr_view_in(out: Seq<char>) -> Result<PrViewModel, Seq<char>> {
    let cols = fields_of(out, '\t');
    if cols.len() < 3 {
        Err("unexpected gh pr view output: "@ + debug_text(out))
    } else {
        match state_of(cols[0]) {
            None => Err("unknown PR state "@ + debug_text(cols[0])),
            Some(state) => Ok(
                PrViewModel {
                    state,
                    review_decision: decision_of(cols[1]),
                    author_login: trimmed(cols[2]),
                },
            ),
        }
    }
}

/// What a line of three fields, with tabs between them, says of a pull request.
pub fn parse_pr_view(out: &str) -> (r: Result<PrView, String>)
    ensures
        match r {
            Ok(v) => pr_view_in(out@) == Ok::<PrViewModel, Seq<char>>(v.deep_view()),
            Err(e) => pr_view_in(out@) == Err::<PrViewModel, Seq<char>>(e@),
        },
{
    let cols = fields(out, '\t');
    let ghost cm = cols.deep_view();
    assert(cm.len() == cols@.len());
    if cols.len() < 3 {
        let mut e = "unexpected gh pr view output: ".to_owned();
        push_text(&mut e, debug_of(out).as_str());
        return Err(e);
    }
    assert(cm[0] == cols@[0]@ && cm[1] == cols@[1]@ && cm[2] == cols@[2]@);
    match PrState::parse(cols[0].as_str()) {
        None => {
            let mut e = "unknown PR state ".to_owned();
            push_text(&mut e, debug_of(cols[0].as_str()).as_str());
            Err(e)
        },
        Some(state) => Ok(
            PrView {
                state,
                review_decision: ReviewDecision::parse(cols[1].as_str()),
                author_login: trim(cols[2].as_str()),
            },
        ),
    }
}

/// The state of a pull request in one word; another word is an error.
pub fn parse_pr_state(out: &str) -> (r: Result<PrState, String>)
    ensures
        match state_of(out@) {
            Some(s) => r matches Ok(x) && x == s,
            None => r matches Err(e) && e@ == "unknown PR state "@ + debug_text(out@),
        },
{
    match PrState::parse(out) {
        Some(s) => Ok(s),
        None => {
            let mut e = "unknown PR state ".to_owned();
            push_text(&mut e, debug_of(out).as_str());
            Err(e)
        },
    }
}

} // verus!
