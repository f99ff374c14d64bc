//! Showing a change for review, from step to step.

use crate::ledger::{PrLane, PrLaneModel};
use crate::orchestrator::{resolve_title, title_of};
use crate::policy::{
    parse_review_line, review_in, text_model, ReviewLine, ReviewLineModel, ReviewModel, ReviewOutcome,
};
use crate::text::{decimal, push_decimal, push_text};
use vstd::prelude::*;

verus! {

/// What is to be shown, and how.
pub struct ReviewJob<'a> {
    pub title: Option<&'a str>,
    /// The message of what is worked on, if it was given one.
    pub described: Option<&'a str>,
    /// Nothing is pushed and nothing opened.
    pub dry_run: bool,
}

/// The model of a [`ReviewJob`].
pub struct ReviewJobModel {
    pub title: Option<Seq<char>>,
    pub described: Option<Seq<char>>,
    pub dry_run: bool,
}

impl<'a> DeepView for ReviewJob<'a> {
    type V = ReviewJobModel;

    open spec fn deep_view(&self) -> ReviewJobModel {
        ReviewJobModel {
            title: text_model(self.title),
            described: text_model(self.described),
            dry_run: self.dry_run,
        }
    }
}

/// What is to be done next.
#[derive(Debug, Clone, PartialEq, Eq)]
pub enum ReviewStep {
    /// Push the branch, over what it was before.
    Push { line: ReviewLine, refspec: String, force: bool },
    /// Look for the lane in the ledger.
    Look { line: ReviewLine },
    /// Open a pull request against a branch.
    Create { line: ReviewLine, base: String, title: String, body: String },
    /// Put the lane into the ledger.
    Record { lane: PrLane, branch: String },
    Done,
    Failed(String),
}

/// The model of a [`ReviewStep`].
pub enum ReviewStepModel {
    Push { line: ReviewLineModel, refspec: Seq<char>, force: bool },
    Look { line: ReviewLineModel },
    Create { line: ReviewLineModel, base: Seq<char>, title: Seq<char>, body: Seq<char> },
    Record { lane: PrLaneModel, branch: Seq<char> },
    Done,
    Failed(Seq<char>),
}

impl DeepView for ReviewStep {
    type V = ReviewStepModel;

    open spec fn deep_view(&self) -> ReviewStepModel {
        match self {
            ReviewStep::Push { line, refspec, force } => ReviewStepModel::Push {
                line: line.deep_view(),
                refspec: refspec@,
                force: *force,
            },
            ReviewStep::Look { line } => ReviewStepModel::Look { line: line.deep_view() },
            ReviewStep::Create { line, base, title, body } => ReviewStepModel::Create {
                line: line.deep_view(),
                base: base@,
                title: title@,
                body: body@,
            },
            ReviewStep::Record { lane, branch } => ReviewStepModel::Record {
                lane: lane.deep_view(),
                branch: branch@,
            },
            ReviewStep::Done => ReviewStepModel::Done,
            ReviewStep::Failed(t) => ReviewStepModel::Failed(t@),
        }
    }
}

/// Where it goes, and what is said on the way.
pub struct ReviewTurn {
    pub step: ReviewStep,
    pub said: Vec<String>,
}

/// The model of a [`ReviewTurn`].
pub type ReviewTurnModel = (ReviewStepModel, Seq<Seq<char>>);

impl DeepView for ReviewTurn {
    type V = ReviewTurnModel;

    open spec fn deep_view(&self) -> ReviewTurnModel {
        (self.step.deep_view(), self.said.deep_view())
    }
}

/// The branch that changes are reviewed against.
pub const REVIEW_BASE: &'static str = "main";

/// The ref of a branch.
pub open spec fn branch_refspec(b: Seq<char>) -> Seq<char> {
    "refs/heads/"@ + b + ":refs/heads/"@ + b
}

/// What a pull request says of itself.
pub open spec fn body_of(l: ReviewLineModel) -> Seq<char> {
    "Review view of unfinalized loot WIP (change `"@ + l.change + "`, dock `"@ + l.dock
        + "`) - see docs/agents/workflow.md. Lands via loot on approval; GitHub will mark it Merged by reachability."@
}

/// Where it begins, with what the mirror says was shown.
pub open spec fn review_begins(j: ReviewJobModel, line: Option<Seq<char>>) -> ReviewTurnModel {
    match line {
        None => (ReviewStepModel::Failed("ferry emitted no review line"@), Seq::empty()),
        Some(l) => match review_in(l) {
            Err(e) => (ReviewStepModel::Failed(e), Seq::empty()),
            Ok(ReviewModel::Nothing) => (ReviewStepModel::Done, seq!["nothing to review."@]),
            Ok(ReviewModel::Projected(p)) => {
                let said = seq![">>> push (single-ref, inline URL) "@ + p.branch];
                if j.dry_run {
                    (ReviewStepModel::Look { line: p }, said)
                } else {
                    (ReviewStepModel::Push { line: p, refspec: branch_refspec(p.branch), force: true }, said)
                }
            },
        },
    }
}

/// Where it begins, with what the mirror says was shown.
pub fn begin(job: &ReviewJob, line: Option<&str>) -> (r: ReviewTurn)
    ensures
        r.deep_view() == review_begins(job.deep_view(), text_model(line)),
{
    match line {
        None => ReviewTurn {
            step: ReviewStep::Failed("ferry emitted no review line".to_owned()),
            said: crate::seqs::none(),
        },
        Some(l) => match parse_review_line(l) {
            Err(e) => ReviewTurn { step: ReviewStep::Failed(e), said: crate::seqs::none() },
            Ok(ReviewOutcome::Nothing) => {
                let said = crate::seqs::single("nothing to review.".to_owned());
                assert(said.deep_view() =~= seq!["nothing to review."@]);
                ReviewTurn { step: ReviewStep::Done, said }
            },
            Ok(ReviewOutcome::Projected(p)) => {
                let mut t = ">>> push (single-ref, inline URL) ".to_owned();
                push_text(&mut t, p.branch.as_str());
                let ghost words = t@;
                let said = crate::seqs::single(t);
                assert(said.deep_view() =~= seq![words]);
                if job.dry_run {
                    ReviewTurn { step: ReviewStep::Look { line: p }, said }
                } else {
                    let mut refspec = "refs/heads/".to_owned();
                    push_text(&mut refspec, p.branch.as_str());
                    push_text(&mut refspec, ":refs/heads/");
                    push_text(&mut refspec, p.branch.as_str());
                    ReviewTurn { step: ReviewStep::Push { line: p, refspec, force: true }, said }
                }
            },
        },
    }
}

/// Where it goes once the branch was pushed, or could not be.
pub fn after_push(line: ReviewLine, pushed: Result<(), String>) -> (r: ReviewTurn)
    ensures
        r.deep_view() == (match pushed {
            Ok(_) => (ReviewStepModel::Look { line: line.deep_view() }, Seq::<Seq<char>>::empty()),
            Err(e) => (ReviewStepModel::Failed(e@), Seq::<Seq<char>>::empty()),
        }),
{
    match pushed {
        Ok(_) => ReviewTurn { step: ReviewStep::Look { line }, said: crate::seqs::none() },
        Err(e) => ReviewTurn { step: ReviewStep::Failed(e), said: crate::seqs::none() },
    }
}

/// Where it goes once the ledger was looked into. A lane that is there is only told
/// of.
pub open spec fn looked(j: ReviewJobModel, line: ReviewLineModel, known: Option<u64>) -> ReviewTurnModel {
    match known {
        Some(pr) => (
            ReviewStepModel::Done,
            seq![
                "review round updated on PR #"@ + decimal(pr as nat) + " (op="@ + line.op + ")"@,
            ],
        ),
        None => if j.dry_run {
            (ReviewStepModel::Done, seq!["(dry run) would open a PR for "@ + line.branch])
        } else {
            (
                ReviewStepModel::Create {
                    line,
                    base: REVIEW_BASE@,
                    title: title_of(j.title, j.described, line.dock),
                    body: body_of(line),
                },
                seq![">>> gh pr create --head "@ + line.branch],
            )
        },
    }
}

/// Where it goes once the ledger was looked into. `known` is the pull request of a
/// lane that is there.
pub fn after_look(job: &ReviewJob, line: ReviewLine, known: Option<u64>) -> (r: ReviewTurn)
    ensures
        r.deep_view() == looked(job.deep_view(), line.deep_view(), known),
{
    match known {
        Some(pr) => {
            let mut t = "review round updated on PR #".to_owned();
            push_decimal(&mut t, pr);
            push_text(&mut t, " (op=");
            push_text(&mut t, line.op.as_str());
            push_text(&mut t, ")");
            let ghost words = t@;
            let said = crate::seqs::single(t);
            assert(said.deep_view() =~= seq![words]);
            ReviewTurn { step: ReviewStep::Done, said }
        },
        None => {
            if job.dry_run {
                let mut t = "(dry run) would open a PR for ".to_owned();
                push_text(&mut t, line.branch.as_str());
                let ghost words = t@;
                let said = crate::seqs::single(t);
                assert(said.deep_view() =~= seq![words]);
                return ReviewTurn { step: ReviewStep::Done, said };
            }
            let title = resolve_title(job.title, job.described, line.dock.as_str());
            let mut body = "Review view of unfinalized loot WIP (change `".to_owned();
            push_text(&mut body, line.change.as_str());
            push_text(&mut body, "`, dock `");
            push_text(&mut body, line.dock.as_str());
            push_text(
                &mut body,
                "`) - see docs/agents/workflow.md. Lands via loot on approval; GitHub will mark it Merged by reachability.",
            );
            let mut t = ">>> gh pr create --head ".to_owned();
            push_text(&mut t, line.branch.as_str());
            let ghost words = t@;
            let said = crate::seqs::single(t);
            assert(said.deep_view() =~= seq![words]);
            ReviewTurn { step: ReviewStep::Create { line, base: REVIEW_BASE.to_owned(), title, body }, said }
        },
    }
}

/// The lane of a change that was shown.
pub open spec fn lane_of(line: ReviewLineModel, pr: u64) -> PrLaneModel {
    PrLaneModel { change: line.change, dock: line.dock, pr, owner: line.owner }
}

/// Where it goes once a pull request was opened, or could not be.
pub fn after_create(line: ReviewLine, created: Result<u64, String>) -> (r: ReviewTurn)
    ensures
        r.deep_view() == (match created {
            Ok(pr) => (
                ReviewStepModel::Record {
                    lane: lane_of(line.deep_view(), pr),
                    branch: line.deep_view().branch,
                },
                Seq::<Seq<char>>::empty(),
            ),
            Err(e) => (ReviewStepModel::Failed(e@), Seq::<Seq<char>>::empty()),
        }),
{
    match created {
        Ok(pr) => ReviewTurn {
            step: ReviewStep::Record {
                lane: PrLane { change: line.change, dock: line.dock, pr, owner: line.owner },
                branch: line.branch,
            },
            said: crate::seqs::none(),
        },
        Err(e) => ReviewTurn { step: ReviewStep::Failed(e), said: crate::seqs::none() },
    }
}

/// Where it goes once the lane is in the ledger, or could not be put there.
pub fn after_record(pr: u64, branch: &str, recorded: Result<(), String>) -> (r: ReviewTurn)
    ensures
        r.deep_view() == (match recorded {
            Ok(_) => (
                ReviewStepModel::Done,
                seq!["opened PR #"@ + decimal(pr as nat) + " for "@ + branch@],
            ),
            Err(e) => (ReviewStepModel::Failed(e@), Seq::<Seq<char>>::empty()),
        }),
{
    match recorded {
        Ok(_) => {
            let mut t = "opened PR #".to_owned();
            push_decimal(&mut t, pr);
            push_text(&mut t, " for ");
            push_text(&mut t, branch);
            let ghost words = t@;
            let said = crate::seqs::single(t);
            assert(said.deep_view() =~= seq![words]);
            ReviewTurn { step: ReviewStep::Done, said }
        },
        Err(e) => ReviewTurn { step: ReviewStep::Failed(e), said: crate::seqs::none() },
    }
}

/// A second round on a change opens no second pull request.
pub proof fn law_second_round_opens_nothing(j: ReviewJobModel, line: ReviewLineModel, pr: u64)
    ensures
        looked(j, line, Some(pr)).0 is Done,
{
}

/// A dry run pushes nothing and opens nothing.
pub proof fn law_dry_run_shows_nothing(
    j: ReviewJobModel,
    text: Option<Seq<char>>,
    line: ReviewLineModel,
    known: Option<u64>,
)
    requires
        j.dry_run,
    ensures
        !(review_begins(j, text).0 is Push),
        looked(j, line, known).0 is Done,
{
}

/// A change that was shown is pushed to its branch and nowhere else; where the ledger does
/// not know it, a pull request against main is opened for it, under its title; and its lane
/// is that of its change, dock and owner.
pub proof fn law_review_opens_one(j: ReviewJobModel, text: Seq<char>, line: ReviewLineModel, pr: u64)
    requires
        !j.dry_run,
        review_in(text) == Ok::<ReviewModel, Seq<char>>(ReviewModel::Projected(line)),
    ensures
        review_begins(j, Some(text)).0 == (ReviewStepModel::Push {
            line,
            refspec: "refs/heads/"@ + line.branch + ":refs/heads/"@ + line.branch,
            force: true,
        }),
        looked(j, line, None).0 == (ReviewStepModel::Create {
            line,
            base: "main"@,
            title: title_of(j.title, j.described, line.dock),
            body: body_of(line),
        }),
        lane_of(line, pr).change == line.change,
        lane_of(line, pr).dock == line.dock,
        lane_of(line, pr).owner == line.owner,
        lane_of(line, pr).pr == pr,
{
}

/// Where nothing was shown, nothing is done; a line that is missing or wrong ends it.
pub proof fn law_nothing_shown_nothing_done(j: ReviewJobModel, text: Seq<char>)
    ensures
        review_begins(j, None).0 is Failed,
        review_in(text) is Err ==> review_begins(j, Some(text)).0 == ReviewStepModel::Failed(review_in(text)->Err_0),
        review_in(text) == Ok::<ReviewModel, Seq<char>>(ReviewModel::Nothing) ==> review_begins(j, Some(text)).0 is Done,
{
}

} // verus!
