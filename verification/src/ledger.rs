//! The ledger of review lanes: which pull request was opened for which change.
//!
//! One lane on a line, its fields apart by white space. A line that is wrong is
//! passed over.

use crate::seqs::{lemma_filter_first, lemma_filter_none, lemma_filter_step};
use crate::split::{
    law_decimal_round_trip, lemma_decimal_is_word, lemma_first_word, lemma_lines_back, lemma_one_word, lines,
    lines_of, number_in, one_line, one_word, parse_number, without_return, words, words_of,
};
use crate::text::{chars_of, concat, decimal, flat, push_decimal, push_text, same_text};
use crate::value::Value;
use vstd::prelude::*;

verus! {

/// A review lane: a change on a dock, and the pull request that shows it.
#[derive(Debug, Clone, PartialEq, Eq)]
pub struct PrLane {
    /// The change, by the id that lasts.
    pub change: String,
    pub dock: String,
    pub pr: u64,
    /// The lane that opened it; empty for the primary.
    pub owner: String,
}

/// The model of a [`PrLane`].
pub struct PrLaneModel {
    pub change: Seq<char>,
    pub dock: Seq<char>,
    pub pr: u64,
    pub owner: Seq<char>,
}

impl DeepView for PrLane {
    type V = PrLaneModel;

    open spec fn deep_view(&self) -> PrLaneModel {
        PrLaneModel { change: self.change@, dock: self.dock@, pr: self.pr, owner: self.owner@ }
    }
}

impl Value for PrLane {
    fn dup(&self) -> (r: Self) {
        PrLane { change: self.change.clone(), dock: self.dock.clone(), pr: self.pr, owner: self.owner.clone() }
    }

    fn same(&self, other: &Self) -> (b: bool) {
        self.change == other.change && self.dock == other.dock && self.pr == other.pr && self.owner
            == other.owner
    }
}

/// The branch that shows a lane: named after its owner, or its dock.
pub open spec fn branch_of(l: PrLaneModel) -> Seq<char> {
    "review/"@ + (if l.owner.len() == 0 {
        l.dock
    } else {
        l.owner
    })
}

impl PrLane {
    /// The branch that shows this lane.
    pub fn review_branch(&self) -> (r: String)
        ensures
            r@ == branch_of(self.deep_view()),
    {
        let mut r = "review/".to_owned();
        if chars_of(self.owner.as_str()).len() == 0 {
            push_text(&mut r, self.dock.as_str());
        } else {
            push_text(&mut r, self.owner.as_str());
        }
        r
    }
}

/// The lanes.
#[derive(Debug, Clone, PartialEq, Eq)]
pub struct PrMap {
    pub lanes: Vec<PrLane>,
}

/// The lane of a line, if it is right: change, dock, number, and perhaps an owner.
pub open spec fn lane_in(line: Seq<char>) -> Option<PrLaneModel> {
    let f = words_of(line);
    if f.len() == 3 || f.len() == 4 {
        match number_in(f[2]) {
            Some(pr) => Some(
                PrLaneModel {
                    change: f[0],
                    dock: f[1],
                    pr,
                    owner: if f.len() == 4 {
                        f[3]
                    } else {
                        Seq::empty()
                    },
                },
            ),
            None => None,
        }
    } else {
        None
    }
}

/// The lanes of lines.
pub open spec fn lanes_in(ls: Seq<Seq<char>>) -> Seq<PrLaneModel>
    decreases ls.len(),
{
    if ls.len() == 0 {
        Seq::empty()
    } else {
        match lane_in(ls.last()) {
            Some(l) => lanes_in(ls.drop_last()).push(l),
            None => lanes_in(ls.drop_last()),
        }
    }
}

/// A lane as a line, without its end.
pub open spec fn lane_words(l: PrLaneModel) -> Seq<char> {
    let three = l.change + " "@ + l.dock + " "@ + decimal(l.pr as nat);
    if l.owner.len() == 0 {
        three
    } else {
        three + " "@ + l.owner
    }
}

/// A lane as a line.
pub open spec fn lane_row(l: PrLaneModel) -> Seq<char> {
    lane_words(l) + "\n"@
}

/// The lanes as text.
pub open spec fn lanes_text(ls: Seq<PrLaneModel>) -> Seq<char> {
    flat(ls.map_values(|l: PrLaneModel| lane_row(l)))
}

/// The first that is wanted.
pub open spec fn first_lane(ls: Seq<PrLaneModel>, f: spec_fn(PrLaneModel) -> bool) -> Option<PrLaneModel> {
    let found = ls.filter(f);
    if found.len() == 0 {
        None
    } else {
        Some(found[0])
    }
}

/// The lanes of a pull request.
pub open spec fn of_pr(pr: u64) -> spec_fn(PrLaneModel) -> bool {
    |l: PrLaneModel| l.pr == pr
}

/// The lanes of other pull requests.
pub open spec fn of_other_pr(pr: u64) -> spec_fn(PrLaneModel) -> bool {
    |l: PrLaneModel| l.pr != pr
}

/// The lanes of a change on a dock.
pub open spec fn of_change(change: Seq<char>, dock: Seq<char>) -> spec_fn(PrLaneModel) -> bool {
    |l: PrLaneModel| l.change == change && l.dock == dock
}

/// The lanes of a change on a dock that this position opened.
pub open spec fn of_position(change: Seq<char>, dock: Seq<char>, owner: Seq<char>) -> spec_fn(
    PrLaneModel,
) -> bool {
    |l: PrLaneModel| l.change == change && l.dock == dock && l.owner == owner
}

/// The model of a lane that there may be.
pub open spec fn found_lane(l: Option<&PrLane>) -> Option<PrLaneModel> {
    match l {
        Some(x) => Some(x.deep_view()),
        None => None,
    }
}

impl Default for PrMap {
    /// No lanes.
    fn default() -> (r: Self)
        ensures
            r.lanes.deep_view() == Seq::<PrLaneModel>::empty(),
    {
        PrMap { lanes: crate::seqs::none() }
    }
}

impl PrMap {
    /// The lanes that a text holds.
    pub fn parse(text: &str) -> (r: Self)
        ensures
            r.lanes.deep_view() == lanes_in(lines_of(text@)),
    {
        let ls = lines(text);
        let ghost all = ls.deep_view();
        let mut lanes: Vec<PrLane> = crate::seqs::none();
        let mut i: usize = 0;
        assert(all.take(0) =~= Seq::<Seq<char>>::empty());
        while i < ls.len()
            invariant
                0 <= i <= ls@.len(),
                all == ls.deep_view(),
                lanes.deep_view() == lanes_in(all.take(i as int)),
            decreases ls@.len() - i,
        {
            proof {
                let next = all.take(i as int + 1);
                assert(next.drop_last() =~= all.take(i as int));
                assert(next.last() == ls@[i as int]@);
            }
            let f = words(ls[i].as_str());
            let ghost fm = f.deep_view();
            assert(fm.len() == f@.len());
            if f.len() == 3 || f.len() == 4 {
                assert(fm[0] == f@[0]@ && fm[1] == f@[1]@ && fm[2] == f@[2]@);
                if let Some(pr) = parse_number(f[2].as_str()) {
                    let owner = if f.len() == 4 {
                        assert(fm[3] == f@[3]@);
                        f[3].clone()
                    } else {
                        let none = String::new();
                        assert(none@ =~= Seq::<char>::empty());
                        none
                    };
                    crate::seqs::push(
                        &mut lanes,
                        PrLane { change: f[0].clone(), dock: f[1].clone(), pr, owner },
                    );
                }
            }
            i = i + 1;
        }
        assert(all.take(all.len() as int) =~= all);
        PrMap { lanes }
    }

    /// As text, a line for each lane.
    pub fn encode(&self) -> (r: String)
        ensures
            r@ == lanes_text(self.lanes.deep_view()),
    {
        let ghost ls = self.lanes.deep_view();
        let ghost f = |l: PrLaneModel| lane_row(l);
        let mut rows: Vec<String> = crate::seqs::none();
        let mut i: usize = 0;
        assert(rows.deep_view() =~= ls.take(0).map_values(f));
        while i < self.lanes.len()
            invariant
                0 <= i <= self.lanes@.len(),
                ls == self.lanes.deep_view(),
                f == (|l: PrLaneModel| lane_row(l)),
                rows.deep_view() == ls.take(i as int).map_values(f),
            decreases self.lanes@.len() - i,
        {
            let l = &self.lanes[i];
            assert(ls[i as int] == l.deep_view());
            let mut row = l.change.clone();
            push_text(&mut row, " ");
            push_text(&mut row, l.dock.as_str());
            push_text(&mut row, " ");
            push_decimal(&mut row, l.pr);
            if chars_of(l.owner.as_str()).len() > 0 {
                push_text(&mut row, " ");
                push_text(&mut row, l.owner.as_str());
            }
            push_text(&mut row, "\n");
            assert(row@ == lane_row(ls[i as int]));
            crate::seqs::push(&mut rows, row);
            assert(rows.deep_view() =~= ls.take(i as int + 1).map_values(f));
            i = i + 1;
        }
        assert(ls.take(ls.len() as int) =~= ls);
        concat(&rows)
    }

    /// The lane of a pull request.
    pub fn lane_for_pr(&self, pr: u64) -> (r: Option<&PrLane>)
        ensures
            found_lane(r) == first_lane(self.lanes.deep_view(), of_pr(pr)),
    {
        let ghost ls = self.lanes.deep_view();
        let ghost f = of_pr(pr);
        let mut i: usize = 0;
        proof {
            lemma_filter_none(ls, f);
        }
        while i < self.lanes.len()
            invariant
                0 <= i <= self.lanes@.len(),
                ls == self.lanes.deep_view(),
                f == of_pr(pr),
                ls.take(i as int).filter(f).len() == 0,
            decreases self.lanes@.len() - i,
        {
            assert(ls[i as int] == self.lanes@[i as int].deep_view());
            if self.lanes[i].pr == pr {
                proof {
                    lemma_filter_first(ls, i as int, f);
                }
                return Some(&self.lanes[i]);
            }
            proof {
                lemma_filter_step(ls, i as int, f);
            }
            i = i + 1;
        }
        assert(ls.take(ls.len() as int) =~= ls);
        None
    }

    /// The lane of a change on a dock. A second round on it is no new lane.
    pub fn lane_for(&self, change: &str, dock: &str) -> (r: Option<&PrLane>)
        ensures
            found_lane(r) == first_lane(self.lanes.deep_view(), of_change(change@, dock@)),
    {
        let ghost ls = self.lanes.deep_view();
        let ghost f = of_change(change@, dock@);
        let mut i: usize = 0;
        proof {
            lemma_filter_none(ls, f);
        }
        while i < self.lanes.len()
            invariant
                0 <= i <= self.lanes@.len(),
                ls == self.lanes.deep_view(),
                f == of_change(change@, dock@),
                ls.take(i as int).filter(f).len() == 0,
            decreases self.lanes@.len() - i,
        {
            let l = &self.lanes[i];
            assert(ls[i as int] == l.deep_view());
            if same_text(l.change.as_str(), change) && same_text(l.dock.as_str(), dock) {
                proof {
                    lemma_filter_first(ls, i as int, f);
                }
                return Some(l);
            }
            proof {
                lemma_filter_step(ls, i as int, f);
            }
            i = i + 1;
        }
        assert(ls.take(ls.len() as int) =~= ls);
        None
    }

    /// The lane of a change on a dock that a position opened.
    pub fn lane_for_owner(&self, change: &str, dock: &str, owner: &str) -> (r: Option<&PrLane>)
        ensures
            found_lane(r) == first_lane(self.lanes.deep_view(), of_position(change@, dock@, owner@)),
    {
        let ghost ls = self.lanes.deep_view();
        let ghost f = of_position(change@, dock@, owner@);
        let mut i: usize = 0;
        proof {
            lemma_filter_none(ls, f);
        }
        while i < self.lanes.len()
            invariant
                0 <= i <= self.lanes@.len(),
                ls == self.lanes.deep_view(),
                f == of_position(change@, dock@, owner@),
                ls.take(i as int).filter(f).len() == 0,
            decreases self.lanes@.len() - i,
        {
            let l = &self.lanes[i];
            assert(ls[i as int] == l.deep_view());
            if same_text(l.change.as_str(), change) && same_text(l.dock.as_str(), dock) && same_text(
                l.owner.as_str(),
                owner,
            ) {
                proof {
                    lemma_filter_first(ls, i as int, f);
                }
                return Some(l);
            }
            proof {
                lemma_filter_step(ls, i as int, f);
            }
            i = i + 1;
        }
        assert(ls.take(ls.len() as int) =~= ls);
        None
    }

    /// Puts a lane behind the others.
    pub fn push(&mut self, lane: PrLane)
        ensures
            final(self).lanes.deep_view() == old(self).lanes.deep_view().push(lane.deep_view()),
    {
        crate::seqs::push(&mut self.lanes, lane);
    }

    /// Drops the lanes of a pull request.
    pub fn remove_pr(&mut self, pr: u64)
        ensures
            final(self).lanes.deep_view() == old(self).lanes.deep_view().filter(of_other_pr(pr)),
    {
        let ghost ls = self.lanes.deep_view();
        let ghost f = of_other_pr(pr);
        let mut kept: Vec<PrLane> = crate::seqs::none();
        let mut i: usize = 0;
        proof {
            lemma_filter_none(ls, f);
        }
        assert(kept.deep_view() =~= ls.take(0).filter(f));
        while i < self.lanes.len()
            invariant
                0 <= i <= self.lanes@.len(),
                ls == self.lanes.deep_view(),
                f == of_other_pr(pr),
                kept.deep_view() == ls.take(i as int).filter(f),
            decreases self.lanes@.len() - i,
        {
            proof {
                lemma_filter_step(ls, i as int, f);
                assert(ls[i as int] == self.lanes@[i as int].deep_view());
            }
            if self.lanes[i].pr != pr {
                crate::seqs::push(&mut kept, self.lanes[i].dup());
            }
            i = i + 1;
        }
        assert(ls.take(ls.len() as int) =~= ls);
        self.lanes = kept;
    }
}

// ---------------------------------------------------------------------------
// Laws
// ---------------------------------------------------------------------------

/// A lane that can be written: change and dock are one word each, and so is the
/// owner, if there is one.
pub open spec fn writable_lane(l: PrLaneModel) -> bool {
    one_word(l.change) && one_word(l.dock) && (l.owner.len() == 0 || one_word(l.owner))
}

proof fn lemma_lane_line(l: PrLaneModel)
    requires
        writable_lane(l),
    ensures
        one_line(lane_words(l)),
        without_return(lane_words(l)) == lane_words(l),
        lane_in(lane_words(l)) == Some(l),
{
    reveal_strlit(" ");
    let b = seq![' '];
    assert(" "@ =~= b);
    let d = decimal(l.pr as nat);
    lemma_decimal_is_word(l.pr as nat);
    law_decimal_round_trip(l.pr);
    let s = lane_words(l);
    let three = l.change + b + l.dock + b + d;
    assert forall|i: int| 0 <= i < three.len() implies #[trigger] three[i] != '\n' by {
        let x = l.change.len() as int;
        let y = x + 1 + l.dock.len();
        if i < x {
            assert(three[i] == l.change[i]);
        } else if x < i < y {
            assert(three[i] == l.dock[i - x - 1]);
        } else if i > y {
            assert(three[i] == d[i - y - 1]);
        }
    }
    if l.owner.len() == 0 {
        assert(s == three);
        assert(s =~= l.change + b + (l.dock + b + d));
        lemma_first_word(l.change, l.dock + b + d);
        lemma_first_word(l.dock, d);
        lemma_one_word(d);
        assert(words_of(s) =~= seq![l.change, l.dock, d]);
        assert(s.last() == d.last());
        assert(l.owner =~= Seq::<char>::empty());
    } else {
        assert(s =~= l.change + b + (l.dock + b + (d + b + l.owner)));
        lemma_first_word(l.change, l.dock + b + (d + b + l.owner));
        lemma_first_word(l.dock, d + b + l.owner);
        lemma_first_word(d, l.owner);
        lemma_one_word(l.owner);
        assert(words_of(s) =~= seq![l.change, l.dock, d, l.owner]);
        assert(s.last() == l.owner.last());
        assert forall|i: int| 0 <= i < s.len() implies #[trigger] s[i] != '\n' by {
            let z = three.len() as int;
            if i < z {
                assert(s[i] == three[i]);
            } else if i > z {
                assert(s[i] == l.owner[i - z - 1]);
            }
        }
    }
}

/// The lanes come back from their text.
pub proof fn law_ledger_round_trip(ls: Seq<PrLaneModel>)
    requires
        forall|i: int| 0 <= i < ls.len() ==> writable_lane(#[trigger] ls[i]),
    ensures
        lanes_in(lines_of(lanes_text(ls))) == ls,
{
    reveal_strlit("\n");
    assert("\n"@ =~= seq!['\n']);
    let rows = ls.map_values(|l: PrLaneModel| lane_words(l));
    let ended = ls.map_values(|l: PrLaneModel| lane_row(l));
    assert forall|i: int| 0 <= i < rows.len() implies one_line(#[trigger] rows[i]) && without_return(rows[i])
        == rows[i] by {
        lemma_lane_line(ls[i]);
    }
    lemma_lines_back(rows, ended);
    lemma_lanes_fold(ls, ls.len() as int);
    assert(rows.take(ls.len() as int) =~= rows);
    assert(ls.take(ls.len() as int) =~= ls);
}

proof fn lemma_lanes_fold(ls: Seq<PrLaneModel>, i: int)
    requires
        forall|i: int| 0 <= i < ls.len() ==> writable_lane(#[trigger] ls[i]),
        0 <= i <= ls.len(),
    ensures
        lanes_in(ls.map_values(|l: PrLaneModel| lane_words(l)).take(i)) == ls.take(i),
    decreases i,
{
    let rows = ls.map_values(|l: PrLaneModel| lane_words(l));
    if i > 0 {
        lemma_lanes_fold(ls, i - 1);
        let t = rows.take(i);
        assert(t.drop_last() =~= rows.take(i - 1));
        assert(t.last() == lane_words(ls[i - 1]));
        lemma_lane_line(ls[i - 1]);
        assert(ls.take(i) =~= ls.take(i - 1).push(ls[i - 1]));
    } else {
        assert(ls.take(0) =~= Seq::<PrLaneModel>::empty());
        assert(rows.take(0) =~= Seq::<Seq<char>>::empty());
    }
}

/// Dropping one pull request's lanes keeps every other lane.
pub proof fn law_removing_keeps_others(ls: Seq<PrLaneModel>, pr: u64, l: PrLaneModel)
    ensures
        ls.filter(of_other_pr(pr)).contains(l) <==> ls.contains(l) && l.pr != pr,
{
    crate::seqs::lemma_filter_contains(ls, of_other_pr(pr), l);
}

/// The lane that is found for a pull request, a change on a dock, or a position is the first
/// that is for it; none is found where none is.
pub proof fn law_first_lane_is_found(
    ls: Seq<PrLaneModel>,
    pr: u64,
    change: Seq<char>,
    dock: Seq<char>,
    owner: Seq<char>,
    i: int,
)
    requires
        0 <= i < ls.len(),
    ensures
        ls[i].pr == pr && (forall|j: int| 0 <= j < i ==> (#[trigger] ls[j]).pr != pr) ==> first_lane(ls, of_pr(pr))
            == Some(ls[i]),
        ls[i].change == change && ls[i].dock == dock && (forall|j: int|
            0 <= j < i ==> (#[trigger] ls[j]).change != change || ls[j].dock != dock) ==> first_lane(
            ls,
            of_change(change, dock),
        ) == Some(ls[i]),
        ls[i].change == change && ls[i].dock == dock && ls[i].owner == owner && (forall|j: int|
            0 <= j < i ==> (#[trigger] ls[j]).change != change || ls[j].dock != dock || ls[j].owner != owner)
            ==> first_lane(ls, of_position(change, dock, owner)) == Some(ls[i]),
        first_lane(ls, of_pr(pr)) is None ==> ls[i].pr != pr,
        first_lane(ls, of_change(change, dock)) is None ==> ls[i].change != change || ls[i].dock != dock,
        first_lane(ls, of_position(change, dock, owner)) is None ==> ls[i].change != change || ls[i].dock != dock
            || ls[i].owner != owner,
        first_lane(ls, of_pr(pr)) is Some ==> first_lane(ls, of_pr(pr))->Some_0.pr == pr,
        first_lane(ls, of_change(change, dock)) matches Some(l) ==> l.change == change && l.dock == dock,
        first_lane(ls, of_position(change, dock, owner)) matches Some(l) ==> l.change == change && l.dock == dock
            && l.owner == owner,
{
    lemma_first_lane(ls, of_pr(pr), i);
    lemma_first_lane(ls, of_change(change, dock), i);
    lemma_first_lane(ls, of_position(change, dock, owner), i);
}

proof fn lemma_first_lane(ls: Seq<PrLaneModel>, f: spec_fn(PrLaneModel) -> bool, i: int)
    requires
        0 <= i < ls.len(),
    ensures
        f(ls[i]) && (forall|j: int| 0 <= j < i ==> !f(#[trigger] ls[j])) ==> first_lane(ls, f) == Some(ls[i]),
        first_lane(ls, f) is None ==> !f(ls[i]),
        first_lane(ls, f) matches Some(l) ==> f(l),
{
    crate::seqs::lemma_filter_contains(ls, f, ls[i]);
    if ls.filter(f).len() > 0 {
        assert(ls.filter(f).contains(ls.filter(f)[0]));
        crate::seqs::lemma_filter_contains(ls, f, ls.filter(f)[0]);
    }
    if f(ls[i]) && (forall|j: int| 0 <= j < i ==> !f(#[trigger] ls[j])) {
        let front = ls.take(i);
        assert forall|x: PrLaneModel| #[trigger] front.contains(x) implies !f(x) by {
            let j = choose|j: int| 0 <= j < front.len() && front[j] == x;
            assert(ls[j] == x);
        }
        crate::seqs::lemma_filter_wants_none(front, f);
        crate::seqs::lemma_filter_first(ls, i, f);
    }
    assert(ls.contains(ls[i]));
}

/// A lane is shown on the branch of its owner, or of its dock where it has none.
pub proof fn law_branch_shows_the_lane(l: PrLaneModel)
    ensures
        l.owner.len() == 0 ==> branch_of(l) == "review/"@ + l.dock,
        l.owner.len() > 0 ==> branch_of(l) == "review/"@ + l.owner,
{
}

} // verus!
