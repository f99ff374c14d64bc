//! The formats of the git mirror: trailers of commit messages, commit dates, the
//! map between commits and changes, and where both sides last agreed.

use crate::ancestry::Id;
use crate::hex::{self, hex_bytes, hex_text, is_hex};
use crate::sorted::{pairs_of, SortedMap};
use crate::split::{
    after, lines, lines_of, split_at, split_once, strip_prefix, words, words_of,
};
use crate::text::{
    chars_of, concat, decimal, flat, join, joined, push_decimal, push_text, same_text, trim, trim_end, trimmed,
    trimmed_end,
};
use crate::types::Oid;
use crate::value::Value;
use vstd::prelude::*;

verus! {

/// Names the change that a mirrored commit stands for.
pub const TRAILER_CHANGE_ID: &'static str = "Loot-Change-Id";

/// The public key of a change's author.
pub const TRAILER_AUTHOR: &'static str = "Loot-Author";

/// The author's signature over the change.
pub const TRAILER_SIGNATURE: &'static str = "Loot-Signature";

/// Who wrote a commit that came from git.
pub const TRAILER_GIT_AUTHOR: &'static str = "Git-Author";

/// Marks a commit of a change that is not finished.
pub const TRAILER_PROVISIONAL: &'static str = "Loot-Provisional";

/// The versions that a change stands in for.
pub const TRAILER_PREDECESSORS: &'static str = "Loot-Predecessors";

/// The commit date of a change without ancestors.
pub const BASE_EPOCH: i64 = 1_600_000_000;

/// A depth as a signed number: what does not fit is taken around.
pub open spec fn signed(g: u64) -> int {
    if g <= i64::MAX {
        g as int
    } else {
        g - 0x1_0000_0000_0000_0000
    }
}

/// The commit date of a change with so many generations before it.
pub fn commit_timestamp(generation: u64) -> (r: i64)
    requires
        BASE_EPOCH + signed(generation) <= i64::MAX,
    ensures
        r == BASE_EPOCH + signed(generation),
{
    if generation <= i64::MAX as u64 {
        BASE_EPOCH + generation as i64
    } else {
        let back: i64 = (u64::MAX - generation) as i64;
        BASE_EPOCH - 1 - back
    }
}

/// A change's date is later than those of its ancestors.
pub proof fn law_dates_follow_ancestry(g: u64, h: u64)
    requires
        g < h,
        BASE_EPOCH + h <= i64::MAX,
    ensures
        BASE_EPOCH + signed(g) < BASE_EPOCH + signed(h),
{
}

// ---------------------------------------------------------------------------
// Trailers
// ---------------------------------------------------------------------------

/// A character that may stand in a trailer's key.
pub open spec fn key_char(c: char) -> bool {
    ('a' <= c <= 'z') || ('A' <= c <= 'Z') || ('0' <= c <= '9') || c == '-'
}

/// A trailer's key.
pub open spec fn is_key(k: Seq<char>) -> bool {
    k.len() > 0 && forall|i: int| 0 <= i < k.len() ==> key_char(#[trigger] k[i])
}

/// A line that looks like a trailer: a key and a colon.
pub open spec fn trailer_shaped(line: Seq<char>) -> bool {
    match split_at(line, ':') {
        Some((key, value)) => is_key(key),
        None => false,
    }
}

/// A line with nothing but white space.
pub open spec fn blank(line: Seq<char>) -> bool {
    trimmed(line).len() == 0
}

/// The number of lines at the end that are not blank.
pub open spec fn last_paragraph(ls: Seq<Seq<char>>) -> nat
    decreases ls.len(),
{
    if ls.len() == 0 || blank(ls.last()) {
        0
    } else {
        1 + last_paragraph(ls.drop_last())
    }
}

/// The lines without the blank ones at the end.
pub open spec fn without_blank_end(ls: Seq<Seq<char>>) -> Seq<Seq<char>>
    decreases ls.len(),
{
    if ls.len() > 0 && blank(ls.last()) {
        without_blank_end(ls.drop_last())
    } else {
        ls
    }
}

/// The trailers among some lines: the last paragraph, if all its lines look like
/// trailers and it is not all there is.
pub open spec fn trailers_among(ls: Seq<Seq<char>>) -> Seq<Seq<char>> {
    let k = last_paragraph(ls);
    let block = ls.skip(ls.len() - k);
    if k == 0 || k >= ls.len() || exists|i: int| 0 <= i < block.len() && !trailer_shaped(#[trigger] block[i]) {
        Seq::empty()
    } else {
        block
    }
}

/// The trailers of a message.
pub open spec fn trailer_block_of(message: Seq<char>) -> Seq<Seq<char>> {
    trailers_among(lines_of(trimmed_end(message)))
}

/// One trailer as a line.
pub open spec fn trailer_line(t: (Seq<char>, Seq<char>)) -> Seq<char> {
    t.0 + ": "@ + t.1
}

/// The trailers as lines.
pub open spec fn trailer_lines(ts: Seq<(Seq<char>, Seq<char>)>) -> Seq<Seq<char>> {
    ts.map_values(|t: (Seq<char>, Seq<char>)| trailer_line(t))
}

/// A message with trailers.
pub open spec fn with_trailers(message: Seq<char>, ts: Seq<(Seq<char>, Seq<char>)>) -> Seq<char> {
    let out = trimmed_end(message);
    if ts.len() == 0 {
        out
    } else if trailer_block_of(out).len() > 0 {
        out + "\n"@ + joined(trailer_lines(ts), "\n"@)
    } else {
        out + "\n\n"@ + joined(trailer_lines(ts), "\n"@)
    }
}

/// The model of a list of trailers.
pub open spec fn trailer_models(ts: Seq<(&str, String)>) -> Seq<(Seq<char>, Seq<char>)> {
    Seq::new(ts.len(), |i: int| (ts[i].0@, ts[i].1@))
}

/// The value of a trailer in a line, if the line is that trailer.
pub open spec fn value_in(line: Seq<char>, key: Seq<char>) -> Option<Seq<char>> {
    match after(line, key) {
        Some(rest) => match after(rest, ":"@) {
            Some(value) => Some(trimmed(value)),
            None => None,
        },
        None => None,
    }
}

/// The value of the first line that is that trailer.
pub open spec fn first_value(ls: Seq<Seq<char>>, key: Seq<char>) -> Option<Seq<char>>
    decreases ls.len(),
{
    if ls.len() == 0 {
        None
    } else {
        match value_in(ls[0], key) {
            Some(v) => Some(v),
            None => first_value(ls.skip(1), key),
        }
    }
}

/// A message without its trailers.
pub open spec fn without_trailers(message: Seq<char>) -> Seq<char> {
    let t = trimmed_end(message);
    let k = trailer_block_of(t).len();
    if k == 0 {
        t
    } else {
        let ls = lines_of(t);
        joined(without_blank_end(ls.take(ls.len() - k)), "\n"@)
    }
}

fn is_trailer_line(line: &str) -> (b: bool)
    ensures
        b == trailer_shaped(line@),
{
    match split_once(line, ':') {
        Some((key, _)) => {
            let cs = chars_of(key.as_str());
            let n: usize = cs.len();
            if n == 0 {
                return false;
            }
            let mut i: usize = 0;
            while i < n
                invariant
                    n == cs@.len(),
                    n > 0,
                    cs@ == key@,
                    0 <= i <= n,
                    forall|j: int| 0 <= j < i ==> key_char(#[trigger] key@[j]),
                    split_at(line@, ':') is Some,
                    split_at(line@, ':')->Some_0.0 == key@,
                decreases n - i,
            {
                let c = cs[i];
                let good = ('a' <= c && c <= 'z') || ('A' <= c && c <= 'Z') || ('0' <= c && c <= '9') || c == '-';
                if !good {
                    assert(!key_char(key@[i as int]));
                    return false;
                }
                i = i + 1;
            }
            true
        },
        None => false,
    }
}

fn is_blank(line: &str) -> (b: bool)
    ensures
        b == blank(line@),
{
    let t = trim(line);
    let cs = chars_of(t.as_str());
    cs.len() == 0
}

/// The number of lines at the end that are trailers.
fn trailer_count(ls: &Vec<String>) -> (k: usize)
    ensures
        k <= ls@.len(),
        trailers_among(ls.deep_view()).len() == k,
        k > 0 ==> trailers_among(ls.deep_view()) == ls.deep_view().skip(ls@.len() - k),
{
    let n: usize = ls.len();
    let ghost all = ls.deep_view();
    assert(all.len() == n);
    let mut at: usize = n;
    assert(all.take(n as int) =~= all);
    while at > 0 && !is_blank(ls[at - 1].as_str())
        invariant
            n == ls@.len(),
            all == ls.deep_view(),
            all.len() == n,
            0 <= at <= n,
            last_paragraph(all) == (n - at) + last_paragraph(all.take(at as int)),
        decreases at,
    {
        proof {
            let t = all.take(at as int);
            assert(t.last() == ls@[at - 1]@);
            assert(t.drop_last() =~= all.take(at as int - 1));
        }
        at = at - 1;
    }
    proof {
        if at > 0 {
            assert(all.take(at as int).last() == ls@[at - 1]@);
        }
        assert(last_paragraph(all) == n - at);
    }
    let ghost block = all.skip(at as int);
    if at == n || at == 0 {
        return 0;
    }
    let mut i: usize = at;
    while i < n
        invariant
            n == ls@.len(),
            all == ls.deep_view(),
            all.len() == n,
            0 < at < n,
            at <= i <= n,
            last_paragraph(all) == n - at,
            block == all.skip(at as int),
            forall|j: int| 0 <= j < i - at ==> trailer_shaped(#[trigger] block[j]),
        decreases n - i,
    {
        assert(block[i - at] == ls@[i as int]@);
        if !is_trailer_line(ls[i].as_str()) {
            return 0;
        }
        i = i + 1;
    }
    assert(trailers_among(all) == block);
    n - at
}

/// The message with trailers at its end. Where it has some already, these follow.
pub fn append_trailers(message: &str, trailers: &[(&str, String)]) -> (r: String)
    ensures
        r@ == with_trailers(message@, trailer_models(trailers@)),
{
    let mut out = trim_end(message);
    let ghost ts = trailer_models(trailers@);
    if trailers.len() == 0 {
        return out;
    }
    let t = trim_end(out.as_str());
    let ls = lines(t.as_str());
    if trailer_count(&ls) > 0 {
        push_text(&mut out, "\n");
    } else {
        push_text(&mut out, "\n\n");
    }
    let ghost f = |t: (Seq<char>, Seq<char>)| trailer_line(t);
    let mut rows: Vec<String> = crate::seqs::none();
    let mut i: usize = 0;
    assert(rows.deep_view() =~= ts.take(0).map_values(f));
    while i < trailers.len()
        invariant
            0 <= i <= trailers@.len(),
            ts == trailer_models(trailers@),
            f == (|t: (Seq<char>, Seq<char>)| trailer_line(t)),
            rows.deep_view() == ts.take(i as int).map_values(f),
        decreases trailers@.len() - i,
    {
        let (key, value) = &trailers[i];
        let mut row = (*key).to_owned();
        push_text(&mut row, ": ");
        push_text(&mut row, value.as_str());
        assert(row@ == trailer_line(ts[i as int]));
        crate::seqs::push(&mut rows, row);
        assert(rows.deep_view() =~= ts.take(i as int + 1).map_values(f));
        i = i + 1;
    }
    assert(ts.take(ts.len() as int) =~= ts);
    push_text(&mut out, join(&rows, "\n").as_str());
    out
}

/// The value of a trailer of a message.
pub fn parse_trailer(message: &str, key: &str) -> (r: Option<String>)
    ensures
        r.deep_view() == first_value(trailer_block_of(message@), key@),
{
    let t = trim_end(message);
    let ls = lines(t.as_str());
    let n: usize = ls.len();
    let k = trailer_count(&ls);
    let ghost all = ls.deep_view();
    let ghost block = trailers_among(all);
    assert(all.len() == n);
    assert(block =~= all.skip(n - k));
    let mut i: usize = n - k;
    assert(block.skip(0) =~= block);
    while i < n
        invariant
            n == ls@.len(),
            all == ls.deep_view(),
            k <= n,
            n - k <= i <= n,
            block == all.skip(n - k),
            block == trailer_block_of(message@),
            first_value(block, key@) == first_value(block.skip(i - (n - k)), key@),
        decreases n - i,
    {
        let ghost at = i - (n - k);
        proof {
            assert(block.skip(at)[0] == ls@[i as int]@);
            assert(block.skip(at).skip(1) =~= block.skip(at + 1));
        }
        if let Some(rest) = strip_prefix(ls[i].as_str(), key) {
            if let Some(value) = strip_prefix(rest.as_str(), ":") {
                return Some(trim(value.as_str()));
            }
        }
        i = i + 1;
    }
    assert(block.skip(k as int) =~= Seq::<Seq<char>>::empty());
    None
}

/// The message without its trailers and the blank lines before them.
pub fn strip_trailers(message: &str) -> (r: String)
    ensures
        r@ == without_trailers(message@),
{
    let trimmed = trim_end(message);
    let again = trim_end(trimmed.as_str());
    let k = trailer_count(&lines(again.as_str()));
    if k == 0 {
        return trimmed;
    }
    let all = lines(trimmed.as_str());
    let ghost ls = all.deep_view();
    let n: usize = all.len();
    assert(ls.len() == n);
    proof {
        lemma_trim_end_twice(message@);
    }
    let mut keep: usize = n - k;
    while keep > 0 && is_blank(all[keep - 1].as_str())
        invariant
            n == all@.len(),
            ls == all.deep_view(),
            k <= n,
            0 <= keep <= n - k,
            without_blank_end(ls.take(n - k)) == without_blank_end(ls.take(keep as int)),
        decreases keep,
    {
        proof {
            let t = ls.take(keep as int);
            assert(t.last() == all@[keep - 1]@);
            assert(t.drop_last() =~= ls.take(keep as int - 1));
        }
        keep = keep - 1;
    }
    proof {
        if keep > 0 {
            assert(ls.take(keep as int).last() == all@[keep - 1]@);
        }
    }
    let mut kept: Vec<String> = crate::seqs::none();
    let mut i: usize = 0;
    assert(kept.deep_view() =~= ls.take(0));
    while i < keep
        invariant
            n == all@.len(),
            ls == all.deep_view(),
            keep <= n,
            0 <= i <= keep,
            kept.deep_view() == ls.take(i as int),
        decreases keep - i,
    {
        crate::seqs::push(&mut kept, all[i].clone());
        assert(kept.deep_view() =~= ls.take(i as int + 1));
        i = i + 1;
    }
    join(&kept, "\n")
}

/// Taking white space off the end once is enough.
proof fn lemma_trim_end_twice(s: Seq<char>)
    ensures
        trimmed_end(trimmed_end(s)) == trimmed_end(s),
    decreases s.len(),
{
    if s.len() > 0 && crate::text::white(s.last()) {
        lemma_trim_end_twice(s.drop_last());
    }
}

// ---------------------------------------------------------------------------
// Marks
// ---------------------------------------------------------------------------

/// Where what a mark names came from.
#[derive(Clone, Copy, Debug, PartialEq, Eq, Structural)]
pub enum MarkOrigin {
    /// A change that was mirrored.
    Loot,
    /// A commit that was taken in.
    Git,
}

impl DeepView for MarkOrigin {
    type V = MarkOrigin;

    open spec fn deep_view(&self) -> MarkOrigin {
        *self
    }
}

impl Value for MarkOrigin {
    fn dup(&self) -> (r: Self) {
        *self
    }

    fn same(&self, other: &Self) -> (b: bool) {
        *self == *other
    }
}

/// Which commit stands for which change.
pub struct MarkMap {
    by_sha: SortedMap<String, (Oid, MarkOrigin)>,
    by_change: SortedMap<Oid, String>,
}

/// The model of a [`MarkMap`].
#[verifier::ext_equal]
pub struct MarksModel {
    pub by_sha: Map<Seq<char>, (Id, MarkOrigin)>,
    pub by_change: Map<Id, Seq<char>>,
}

impl DeepView for MarkMap {
    type V = MarksModel;

    closed spec fn deep_view(&self) -> MarksModel {
        MarksModel { by_sha: self.by_sha.deep_view(), by_change: self.by_change.deep_view() }
    }
}

/// No marks.
pub open spec fn no_marks() -> MarksModel {
    MarksModel { by_sha: Map::empty(), by_change: Map::empty() }
}

/// With one mark more.
pub open spec fn with_mark(m: MarksModel, sha: Seq<char>, id: Id, origin: MarkOrigin) -> MarksModel {
    MarksModel { by_sha: m.by_sha.insert(sha, (id, origin)), by_change: m.by_change.insert(id, sha) }
}

/// The word for an origin.
pub open spec fn origin_word(o: MarkOrigin) -> Seq<char> {
    match o {
        MarkOrigin::Loot => "loot"@,
        MarkOrigin::Git => "git"@,
    }
}

/// The origin of a word.
pub open spec fn origin_of(w: Seq<char>) -> Option<MarkOrigin> {
    if w == "loot"@ {
        Some(MarkOrigin::Loot)
    } else if w == "git"@ {
        Some(MarkOrigin::Git)
    } else {
        None
    }
}

/// A change id in hexadecimal.
pub open spec fn oid_in(s: Seq<char>) -> Option<Id> {
    if s.len() == 64 {
        hex_bytes(s)
    } else {
        None
    }
}

/// One mark as a line.
pub open spec fn mark_row(e: (Seq<char>, (Id, MarkOrigin))) -> Seq<char> {
    e.0 + " "@ + hex_text(e.1.0) + " "@ + origin_word(e.1.1) + "\n"@
}

/// What is wrong with a line.
pub open spec fn bad_line(what: Seq<char>, n: nat, why: Seq<char>) -> Seq<char> {
    what + decimal(n) + why
}

/// The mark of a line; none if it is blank.
pub open spec fn mark_in(line: Seq<char>, n: nat) -> Result<Option<(Seq<char>, Id, MarkOrigin)>, Seq<char>> {
    let t = trimmed(line);
    let ws = words_of(t);
    if t.len() == 0 {
        Ok(None)
    } else if ws.len() < 3 {
        Err(bad_line("marks line "@, n, ": expected `<sha> <change-id> <origin>`"@))
    } else {
        match origin_of(ws[2]) {
            None => Err(bad_line("marks line "@, n, ": unknown origin '"@ + ws[2] + "'"@)),
            Some(origin) => match oid_in(ws[1]) {
                None => Err(bad_line("marks line "@, n, ": bad change id"@)),
                Some(id) => Ok(Some((ws[0], id, origin))),
            },
        }
    }
}

/// The marks of lines. The first line that is wrong is an error.
pub open spec fn marks_in(ls: Seq<Seq<char>>) -> Result<MarksModel, Seq<char>>
    decreases ls.len(),
{
    if ls.len() == 0 {
        Ok(no_marks())
    } else {
        match marks_in(ls.drop_last()) {
            Err(e) => Err(e),
            Ok(m) => match mark_in(ls.last(), ls.len()) {
                Err(e) => Err(e),
                Ok(None) => Ok(m),
                Ok(Some((sha, id, origin))) => Ok(with_mark(m, sha, id, origin)),
            },
        }
    }
}

proof fn lemma_marks_fail(ls: Seq<Seq<char>>, i: int)
    requires
        0 <= i <= ls.len(),
        marks_in(ls.take(i)) is Err,
    ensures
        marks_in(ls) == marks_in(ls.take(i)),
    decreases ls.len() - i,
{
    if i < ls.len() {
        assert(ls.take(i + 1).drop_last() =~= ls.take(i));
        lemma_marks_fail(ls, i + 1);
    } else {
        assert(ls.take(i) =~= ls);
    }
}

/// The text of marks.
pub open spec fn marks_text(m: MarksModel) -> Seq<char> {
    flat(
        pairs_of::<String, (Id, MarkOrigin)>(m.by_sha).map_values(
            |e: (Seq<char>, (Id, MarkOrigin))| mark_row(e),
        ),
    )
}

/// A change id of 64 hexadecimal digits.
pub fn parse_oid_hex(s: &str) -> (r: Option<Oid>)
    ensures
        r.deep_view() == oid_in(s@),
{
    match hex::decode_array::<32>(s) {
        Some(a) => Some(Oid(a)),
        None => None,
    }
}

fn line_error(what: &str, n: usize, why: &str) -> (r: String)
    ensures
        r@ == bad_line(what@, n as nat, why@),
{
    let mut t = what.to_owned();
    push_decimal(&mut t, n as u64);
    push_text(&mut t, why);
    t
}

fn read_mark(line: &str, n: usize) -> (r: Result<Option<(String, Oid, MarkOrigin)>, String>)
    ensures
        match r {
            Ok(x) => mark_in(line@, n as nat) == Ok::<Option<(Seq<char>, Id, MarkOrigin)>, Seq<char>>(
                x.deep_view(),
            ),
            Err(e) => mark_in(line@, n as nat) == Err::<Option<(Seq<char>, Id, MarkOrigin)>, Seq<char>>(e@),
        },
{
    let t = trim(line);
    if chars_of(t.as_str()).len() == 0 {
        return Ok(None);
    }
    let ws = words(t.as_str());
    let ghost wm = ws.deep_view();
    assert(wm.len() == ws@.len());
    if ws.len() < 3 {
        return Err(line_error("marks line ", n, ": expected `<sha> <change-id> <origin>`"));
    }
    assert(wm[0] == ws@[0]@ && wm[1] == ws@[1]@ && wm[2] == ws@[2]@);
    let origin = if same_text(ws[2].as_str(), "loot") {
        MarkOrigin::Loot
    } else if same_text(ws[2].as_str(), "git") {
        MarkOrigin::Git
    } else {
        let mut why = ": unknown origin '".to_owned();
        push_text(&mut why, ws[2].as_str());
        push_text(&mut why, "'");
        return Err(line_error("marks line ", n, why.as_str()));
    };
    match parse_oid_hex(ws[1].as_str()) {
        None => Err(line_error("marks line ", n, ": bad change id")),
        Some(id) => Ok(Some((ws[0].clone(), id, origin))),
    }
}

impl MarkMap {
    pub fn new() -> (r: Self)
        ensures
            r.deep_view() == no_marks(),
    {
        MarkMap { by_sha: SortedMap::new(), by_change: SortedMap::new() }
    }

    /// The marks that a text holds. A line that is wrong is an error: to pass over it
    /// would be to mirror, or take in, once more what is marked already.
    pub fn parse(text: &str) -> (r: Result<Self, String>)
        ensures
            match r {
                Ok(m) => marks_in(lines_of(text@)) == Ok::<MarksModel, Seq<char>>(m.deep_view()),
                Err(e) => marks_in(lines_of(text@)) == Err::<MarksModel, Seq<char>>(e@),
            },
    {
        let ls = lines(text);
        let ghost all = ls.deep_view();
        let mut map = Self::new();
        let mut i: usize = 0;
        let n: usize = ls.len();
        assert(all.take(0) =~= Seq::<Seq<char>>::empty());
        while i < n
            invariant
                n == ls@.len(),
                0 <= i <= n,
                all == ls.deep_view(),
                all == lines_of(text@),
                marks_in(all.take(i as int)) == Ok::<MarksModel, Seq<char>>(map.deep_view()),
            decreases n - i,
        {
            proof {
                let next = all.take(i as int + 1);
                assert(next.drop_last() =~= all.take(i as int));
                assert(next.last() == ls@[i as int]@);
            }
            match read_mark(ls[i].as_str(), i + 1) {
                Err(e) => {
                    proof {
                        lemma_marks_fail(all, i as int + 1);
                    }
                    return Err(e);
                },
                Ok(None) => {},
                Ok(Some((sha, id, origin))) => {
                    map.insert(sha, id, origin);
                },
            }
            i = i + 1;
        }
        assert(all.take(n as int) =~= all);
        Ok(map)
    }

    /// The marks as text, a line each, in the order of the commits.
    pub fn encode(&self) -> (r: String)
        ensures
            r@ == marks_text(self.deep_view()),
    {
        let n: usize = self.by_sha.len();
        let ghost s = self.by_sha.pairs();
        let ghost f = |e: (Seq<char>, (Id, MarkOrigin))| mark_row(e);
        let mut rows: Vec<String> = crate::seqs::none();
        let mut i: usize = 0;
        assert(rows.deep_view() =~= s.take(0).map_values(f));
        while i < n
            invariant
                n == s.len(),
                0 <= i <= n,
                s == self.by_sha.pairs(),
                f == (|e: (Seq<char>, (Id, MarkOrigin))| mark_row(e)),
                rows.deep_view() == s.take(i as int).map_values(f),
            decreases n - i,
        {
            let sha = self.by_sha.key_at(i);
            let (id, origin) = self.by_sha.value_at(i);
            let mut row = sha.clone();
            push_text(&mut row, " ");
            push_text(&mut row, hex::encode(id.0.as_slice()).as_str());
            push_text(&mut row, " ");
            match origin {
                MarkOrigin::Loot => push_text(&mut row, "loot"),
                MarkOrigin::Git => push_text(&mut row, "git"),
            }
            push_text(&mut row, "\n");
            assert(row@ == mark_row(s[i as int]));
            crate::seqs::push(&mut rows, row);
            assert(rows.deep_view() =~= s.take(i as int + 1).map_values(f));
            i = i + 1;
        }
        assert(s.take(n as int) =~= s);
        concat(&rows)
    }

    pub fn insert(&mut self, sha: String, id: Oid, origin: MarkOrigin)
        ensures
            final(self).deep_view() == with_mark(old(self).deep_view(), sha@, id.deep_view(), origin),
    {
        self.by_change.insert(id, sha.clone());
        self.by_sha.insert(sha, (id, origin));
    }

    /// The change that a commit stands for.
    pub fn change_for(&self, sha: &str) -> (r: Option<&(Oid, MarkOrigin)>)
        ensures
            match r {
                Some(x) => self.deep_view().by_sha.contains_key(sha@) && self.deep_view().by_sha[sha@]
                    == x.deep_view(),
                None => !self.deep_view().by_sha.contains_key(sha@),
            },
    {
        self.by_sha.get(&sha.to_owned())
    }

    /// The commit that stands for a change.
    pub fn sha_for(&self, id: &Oid) -> (r: Option<&str>)
        ensures
            match r {
                Some(x) => self.deep_view().by_change.contains_key(id.deep_view())
                    && self.deep_view().by_change[id.deep_view()] == x@,
                None => !self.deep_view().by_change.contains_key(id.deep_view()),
            },
    {
        match self.by_change.get(id) {
            Some(s) => Some(s.as_str()),
            None => None,
        }
    }

    pub fn contains_sha(&self, sha: &str) -> (b: bool)
        ensures
            b == self.deep_view().by_sha.contains_key(sha@),
    {
        self.by_sha.contains_key(&sha.to_owned())
    }

    /// The number of commits.
    pub fn len(&self) -> (n: usize)
        ensures
            n == pairs_of::<String, (Id, MarkOrigin)>(self.deep_view().by_sha).len(),
    {
        self.by_sha.len()
    }

    pub fn is_empty(&self) -> (b: bool)
        ensures
            b == (self.deep_view().by_sha == Map::<Seq<char>, (Id, MarkOrigin)>::empty()),
    {
        self.by_sha.is_empty()
    }

    /// The commits, in order.
    pub fn shas(&self) -> (r: Vec<String>)
        ensures
            r.deep_view() == pairs_of::<String, (Id, MarkOrigin)>(self.deep_view().by_sha).map_values(
                |e: (Seq<char>, (Id, MarkOrigin))| e.0,
            ),
    {
        self.by_sha.keys()
    }

    /// The changes, in order.
    pub fn change_ids(&self) -> (r: Vec<Oid>)
        ensures
            r.deep_view() == pairs_of::<Oid, Seq<char>>(self.deep_view().by_change).map_values(
                |e: (Id, Seq<char>)| e.0,
            ),
    {
        self.by_change.keys()
    }
}

// ---------------------------------------------------------------------------
// Where both sides last agreed
// ---------------------------------------------------------------------------

/// Where both sides last agreed.
pub struct FerryState {
    /// The last commit of the mirrored branch.
    pub git_main: Option<String>,
    /// The heads of the repository.
    pub loot_heads: Vec<Oid>,
}

/// The model of a [`FerryState`].
#[verifier::ext_equal]
pub struct FerryModel {
    pub git_main: Option<Seq<char>>,
    pub loot_heads: Seq<Id>,
}

impl DeepView for FerryState {
    type V = FerryModel;

    open spec fn deep_view(&self) -> FerryModel {
        FerryModel { git_main: self.git_main.deep_view(), loot_heads: self.loot_heads.deep_view() }
    }
}

/// What one line says of it.
pub open spec fn ferry_line(m: FerryModel, line: Seq<char>, n: nat) -> Result<FerryModel, Seq<char>> {
    let t = trimmed(line);
    if t.len() == 0 {
        Ok(m)
    } else {
        match split_at(t, ' ') {
            Some((word, rest)) => if word == "git-main"@ {
                Ok(FerryModel { git_main: Some(trimmed(rest)), loot_heads: m.loot_heads })
            } else if word == "loot-head"@ {
                match oid_in(trimmed(rest)) {
                    Some(id) => Ok(FerryModel { git_main: m.git_main, loot_heads: m.loot_heads.push(id) }),
                    None => Err(bad_line("state line "@, n, ": bad change id"@)),
                }
            } else {
                Err(bad_line("state line "@, n, ": unknown entry"@))
            },
            None => Err(bad_line("state line "@, n, ": unknown entry"@)),
        }
    }
}

/// What lines say of it. The first line that is wrong is an error.
pub open spec fn ferry_in(ls: Seq<Seq<char>>) -> Result<FerryModel, Seq<char>>
    decreases ls.len(),
{
    if ls.len() == 0 {
        Ok(FerryModel { git_main: None, loot_heads: Seq::empty() })
    } else {
        match ferry_in(ls.drop_last()) {
            Err(e) => Err(e),
            Ok(m) => ferry_line(m, ls.last(), ls.len()),
        }
    }
}

proof fn lemma_ferry_fails(ls: Seq<Seq<char>>, i: int)
    requires
        0 <= i <= ls.len(),
        ferry_in(ls.take(i)) is Err,
    ensures
        ferry_in(ls) == ferry_in(ls.take(i)),
    decreases ls.len() - i,
{
    if i < ls.len() {
        assert(ls.take(i + 1).drop_last() =~= ls.take(i));
        lemma_ferry_fails(ls, i + 1);
    } else {
        assert(ls.take(i) =~= ls);
    }
}

/// The line of the mirrored branch.
pub open spec fn main_row(sha: Seq<char>) -> Seq<char> {
    "git-main "@ + sha + "\n"@
}

/// The line of a head.
pub open spec fn head_row(id: Id) -> Seq<char> {
    "loot-head "@ + hex_text(id) + "\n"@
}

/// All the lines.
pub open spec fn ferry_rows(m: FerryModel) -> Seq<Seq<char>> {
    let heads = m.loot_heads.map_values(|id: Id| head_row(id));
    match m.git_main {
        Some(sha) => seq![main_row(sha)] + heads,
        None => heads,
    }
}

impl FerryState {
    /// What a text says of it.
    pub fn parse(text: &str) -> (r: Result<Self, String>)
        ensures
            match r {
                Ok(m) => ferry_in(lines_of(text@)) == Ok::<FerryModel, Seq<char>>(m.deep_view()),
                Err(e) => ferry_in(lines_of(text@)) == Err::<FerryModel, Seq<char>>(e@),
            },
    {
        let ls = lines(text);
        let ghost all = ls.deep_view();
        let n: usize = ls.len();
        let mut state = FerryState { git_main: None, loot_heads: crate::seqs::none() };
        let mut i: usize = 0;
        assert(all.take(0) =~= Seq::<Seq<char>>::empty());
        while i < n
            invariant
                n == ls@.len(),
                0 <= i <= n,
                all == ls.deep_view(),
                all == lines_of(text@),
                ferry_in(all.take(i as int)) == Ok::<FerryModel, Seq<char>>(state.deep_view()),
            decreases n - i,
        {
            let ghost m = state.deep_view();
            proof {
                let next = all.take(i as int + 1);
                assert(next.drop_last() =~= all.take(i as int));
                assert(next.last() == ls@[i as int]@);
                if ferry_in(next) is Err {
                    lemma_ferry_fails(all, i as int + 1);
                }
            }
            let t = trim(ls[i].as_str());
            if chars_of(t.as_str()).len() > 0 {
                match split_once(t.as_str(), ' ') {
                    Some((word, rest)) => {
                        if same_text(word.as_str(), "git-main") {
                            state.git_main = Some(trim(rest.as_str()));
                        } else if same_text(word.as_str(), "loot-head") {
                            match parse_oid_hex(trim(rest.as_str()).as_str()) {
                                Some(id) => {
                                    crate::seqs::push(&mut state.loot_heads, id);
                                },
                                None => {
                                    return Err(line_error("state line ", i + 1, ": bad change id"));
                                },
                            }
                        } else {
                            return Err(line_error("state line ", i + 1, ": unknown entry"));
                        }
                    },
                    None => {
                        return Err(line_error("state line ", i + 1, ": unknown entry"));
                    },
                }
            }
            i = i + 1;
        }
        assert(all.take(n as int) =~= all);
        Ok(state)
    }

    /// As text, a line each.
    pub fn encode(&self) -> (r: String)
        ensures
            r@ == flat(ferry_rows(self.deep_view())),
    {
        let ghost ids = self.loot_heads.deep_view();
        let ghost f = |id: Id| head_row(id);
        let mut rows: Vec<String> = crate::seqs::none();
        if let Some(sha) = &self.git_main {
            let mut row = "git-main ".to_owned();
            push_text(&mut row, sha.as_str());
            push_text(&mut row, "\n");
            crate::seqs::push(&mut rows, row);
        }
        let ghost front = rows.deep_view();
        let mut i: usize = 0;
        assert(rows.deep_view() =~= front + ids.take(0).map_values(f));
        while i < self.loot_heads.len()
            invariant
                0 <= i <= self.loot_heads@.len(),
                ids == self.loot_heads.deep_view(),
                f == (|id: Id| head_row(id)),
                rows.deep_view() == front + ids.take(i as int).map_values(f),
            decreases self.loot_heads@.len() - i,
        {
            let id = &self.loot_heads[i];
            let mut row = "loot-head ".to_owned();
            push_text(&mut row, hex::encode(id.0.as_slice()).as_str());
            push_text(&mut row, "\n");
            assert(ids[i as int] == id.deep_view());
            assert(row@ == head_row(ids[i as int]));
            crate::seqs::push(&mut rows, row);
            assert(rows.deep_view() =~= front + ids.take(i as int + 1).map_values(f));
            i = i + 1;
        }
        assert(ids.take(ids.len() as int) =~= ids);
        assert(rows.deep_view() =~= ferry_rows(self.deep_view()));
        concat(&rows)
    }
}

/// The mark of a commit that is put on: the commit leads to the change and the change to the
/// commit, and every other mark of commits and changes stays.
pub proof fn law_mark_leads_both_ways(m: MarksModel, sha: Seq<char>, id: Id, origin: MarkOrigin, s: Seq<char>, x: Id)
    ensures
        ({
            let r = with_mark(m, sha, id, origin);
            &&& r.by_sha.contains_key(sha) && r.by_sha[sha] == (id, origin)
            &&& r.by_change.contains_key(id) && r.by_change[id] == sha
            &&& s != sha ==> (r.by_sha.contains_key(s) <==> m.by_sha.contains_key(s)) && (m.by_sha.contains_key(s)
                ==> r.by_sha[s] == m.by_sha[s])
            &&& x != id ==> (r.by_change.contains_key(x) <==> m.by_change.contains_key(x)) && (m.by_change.contains_key(x)
                ==> r.by_change[x] == m.by_change[x])
        }),
{
}

/// What a line of marks says: nothing if it is blank; a commit, the change that it stands for
/// and where it came from, by its first three words, if these are right; and else it is wrong.
pub proof fn law_line_holds_a_mark(line: Seq<char>, n: nat)
    ensures
        ({
            let ws = words_of(trimmed(line));
            let good = ws.len() >= 3 && (ws[2] == "loot"@ || ws[2] == "git"@) && ws[1].len() == 64 && is_hex(ws[1]);
            let r = mark_in(line, n);
            &&& trimmed(line).len() == 0 ==> r == Ok::<Option<(Seq<char>, Id, MarkOrigin)>, Seq<char>>(None)
            &&& trimmed(line).len() > 0 ==> (r is Ok <==> good)
            &&& trimmed(line).len() > 0 && good ==> r->Ok_0 is Some && r->Ok_0->Some_0.0 == ws[0] && hex_bytes(ws[1])
                == Some(r->Ok_0->Some_0.1)
            &&& trimmed(line).len() > 0 && good && ws[2] == "loot"@ ==> r->Ok_0->Some_0.2 == MarkOrigin::Loot
            &&& trimmed(line).len() > 0 && good && ws[2] == "git"@ ==> r->Ok_0->Some_0.2 == MarkOrigin::Git
        }),
{
    reveal_strlit("loot");
    reveal_strlit("git");
    assert("loot"@.len() != "git"@.len());
}

/// Marks are read line by line, each of which must be right.
pub proof fn law_marks_are_read_in_turn(ls: Seq<Seq<char>>, line: Seq<char>)
    ensures
        marks_in(Seq::empty()) == Ok::<MarksModel, Seq<char>>(no_marks()),
        marks_in(ls.push(line)) is Ok <==> marks_in(ls) is Ok && mark_in(line, (ls.len() + 1) as nat) is Ok,
        marks_in(ls.push(line)) is Ok && mark_in(line, (ls.len() + 1) as nat)->Ok_0 is None ==> marks_in(ls.push(line))
            == marks_in(ls),
        marks_in(ls.push(line)) is Ok && mark_in(line, (ls.len() + 1) as nat)->Ok_0 is Some ==> {
            let (sha, id, origin) = mark_in(line, (ls.len() + 1) as nat)->Ok_0->Some_0;
            marks_in(ls.push(line))->Ok_0 == with_mark(marks_in(ls)->Ok_0, sha, id, origin)
        },
{
    assert(ls.push(line).drop_last() =~= ls);
}

/// What a line on the mirror says: where its main was, or one more head that was brought
/// over; a blank one says nothing, and any other is wrong.
pub proof fn law_line_holds_a_ferry_state(m: FerryModel, sha: Seq<char>, line: Seq<char>, n: nat)
    ensures
        trimmed(line).len() == 0 ==> ferry_line(m, line, n) == Ok::<FerryModel, Seq<char>>(m),
        ({
            let parts = split_at(trimmed(line), ' ');
            let (word, rest) = parts->Some_0;
            let r = ferry_line(m, line, n);
            &&& trimmed(line).len() > 0 && (parts is None || (word != "git-main"@ && word != "loot-head"@)) ==> r is Err
            &&& trimmed(line).len() > 0 && parts is Some && word == "git-main"@ ==> r == Ok::<FerryModel, Seq<char>>(
                FerryModel { git_main: Some(trimmed(rest)), loot_heads: m.loot_heads },
            )
            &&& trimmed(line).len() > 0 && parts is Some && word == "loot-head"@ ==> (r is Ok <==> trimmed(rest).len()
                == 64 && is_hex(trimmed(rest))) && (r is Ok ==> r->Ok_0.git_main == m.git_main && r->Ok_0.loot_heads
                == m.loot_heads.push(hex_bytes(trimmed(rest))->Some_0))
        }),
{
    reveal_strlit("git-main");
    reveal_strlit("loot-head");
    assert("git-main"@.len() != "loot-head"@.len());
}

/// What is known of the mirror is read line by line, each of which must be right.
pub proof fn law_ferry_state_is_read_in_turn(ls: Seq<Seq<char>>, line: Seq<char>)
    ensures
        ferry_in(Seq::empty()) == Ok::<FerryModel, Seq<char>>(
            FerryModel { git_main: None, loot_heads: Seq::empty() },
        ),
        ferry_in(ls) is Err ==> ferry_in(ls.push(line)) is Err,
        ferry_in(ls) is Ok ==> ferry_in(ls.push(line)) == ferry_line(ferry_in(ls)->Ok_0, line, (ls.len() + 1) as nat),
{
    assert(ls.push(line).drop_last() =~= ls);
}

} // verus!
