//! Machine-readable output, as lines of tab-separated columns and as JSON.
//!
//! Both say the same. The columns carry paths as they are; JSON escapes them, so a
//! path with a tab or a line break in it belongs there.

use crate::format::FORMAT_MAJOR;
use crate::hex::{self, hex_digit, hex_text};
use crate::text::{chars_of, concat, decimal, decimal_of, flat, join, joined, push_decimal, push_text};
use crate::types::{MergeOutcome, Oid, OutcomeModel, RepoPath, Visibility, VisibilityModel};
use vstd::prelude::*;

verus! {

/// The version of what is written here. It goes with the version of what is stored.
pub const VERDICT_CONTRACT: u8 = FORMAT_MAJOR;

/// What stands in a column for an address that there is not.
pub const NONE_ADDR: &'static str = "-";

/// The mark of a path of the working change.
pub const WORKING_MARK: char = '~';

/// The mark of the line that names the working change.
pub const CHANGE_MARK: char = '@';

/// The mark of a path that was surfaced.
pub const SURFACE_MARK: char = 'S';

/// The mark of a lane.
pub const LANE_MARK: char = 'L';

// ---------------------------------------------------------------------------
// JSON strings
// ---------------------------------------------------------------------------

/// How one character is written in a JSON string.
pub open spec fn escaped_char(c: char) -> Seq<char> {
    if c == '"' {
        seq!['\\', '"']
    } else if c == '\\' {
        seq!['\\', '\\']
    } else if c == '\n' {
        seq!['\\', 'n']
    } else if c == '\r' {
        seq!['\\', 'r']
    } else if c == '\t' {
        seq!['\\', 't']
    } else if c == '\u{08}' {
        seq!['\\', 'b']
    } else if c == '\u{0c}' {
        seq!['\\', 'f']
    } else if (c as u32) < 0x20 {
        seq!['\\', 'u', '0', '0', hex_digit((c as u8) / 16), hex_digit((c as u8) % 16)]
    } else {
        seq![c]
    }
}

/// The inside of a JSON string.
pub open spec fn escaped(s: Seq<char>) -> Seq<char>
    decreases s.len(),
{
    if s.len() == 0 {
        Seq::empty()
    } else {
        escaped(s.drop_last()) + escaped_char(s.last())
    }
}

/// A JSON string.
pub open spec fn json_text(s: Seq<char>) -> Seq<char> {
    seq!['"'] + escaped(s) + seq!['"']
}

fn push_escaped(c: char, out: &mut String)
    ensures
        final(out)@ == old(out)@ + escaped_char(c),
{
    if c == '"' {
        out.push('\\');
        out.push('"');
    } else if c == '\\' {
        out.push('\\');
        out.push('\\');
    } else if c == '\n' {
        out.push('\\');
        out.push('n');
    } else if c == '\r' {
        out.push('\\');
        out.push('r');
    } else if c == '\t' {
        out.push('\\');
        out.push('t');
    } else if c == '\u{08}' {
        out.push('\\');
        out.push('b');
    } else if c == '\u{0c}' {
        out.push('\\');
        out.push('f');
    } else if (c as u32) < 0x20 {
        out.push('\\');
        out.push('u');
        out.push('0');
        out.push('0');
        let ghost head = out@;
        let b: u8 = c as u8;
        let bytes: [u8; 1] = [b];
        let h = hex::encode(bytes.as_slice());
        push_text(out, h.as_str());
        proof {
            assert(h@.len() == 2);
            assert(h@[0] == hex_digit(b / 16));
            assert(h@[1] == hex_digit(b % 16));
        }
    } else {
        out.push(c);
    }
    assert(out@ =~= old(out)@ + escaped_char(c));
}

/// Puts a text at the end of `out` as a JSON string.
pub fn json_string(s: &str, out: &mut String)
    ensures
        final(out)@ == old(out)@ + json_text(s@),
{
    let ghost o = out@;
    let cs = chars_of(s);
    out.push('"');
    let mut i: usize = 0;
    assert(out@ =~= o + seq!['"'] + escaped(s@.take(0)));
    while i < cs.len()
        invariant
            cs@ == s@,
            0 <= i <= cs@.len(),
            out@ == o + seq!['"'] + escaped(s@.take(i as int)),
        decreases cs@.len() - i,
    {
        let ghost before = out@;
        push_escaped(cs[i], out);
        proof {
            let next = s@.take(i as int + 1);
            assert(next.drop_last() =~= s@.take(i as int));
            assert(next.last() == s@[i as int]);
            assert(before + escaped_char(s@[i as int]) =~= o + seq!['"'] + (escaped(s@.take(i as int))
                + escaped_char(s@[i as int])));
        }
        i = i + 1;
    }
    assert(s@.take(s@.len() as int) =~= s@);
    out.push('"');
    assert(out@ =~= o + json_text(s@));
}

/// A JSON string holds no raw control character, whatever the text does.
pub proof fn law_json_has_no_control(s: Seq<char>)
    ensures
        forall|i: int| 0 <= i < json_text(s).len() ==> (#[trigger] json_text(s)[i]) as u32 >= 0x20,
    decreases s.len(),
{
    if s.len() > 0 {
        law_json_has_no_control(s.drop_last());
        let before = json_text(s.drop_last());
        let all = json_text(s);
        let e = escaped_char(s.last());
        assert forall|i: int| 0 <= i < all.len() implies (#[trigger] all[i]) as u32 >= 0x20 by {
            let n = escaped(s.drop_last()).len() as int;
            if i <= n {
                assert(all[i] == before[i]);
            } else if i < n + 1 + e.len() {
                assert(all[i] == e[i - n - 1]);
            }
        }
    }
}

/// No two characters are written alike, not even at the beginning.
proof fn lemma_escape_is_prefix_free(a: char, b: char, x: Seq<char>, y: Seq<char>)
    requires
        escaped_char(a) + x == escaped_char(b) + y,
    ensures
        a == b,
        x == y,
{
    let s = escaped_char(a) + x;
    let t = escaped_char(b) + y;
    let n = escaped_char(a).len() as int;
    let m = escaped_char(b).len() as int;
    assert(s[0] == escaped_char(a)[0]);
    assert(t[0] == escaped_char(b)[0]);
    if n >= 2 {
        assert(s[1] == escaped_char(a)[1]);
    }
    if m >= 2 {
        assert(t[1] == escaped_char(b)[1]);
    }
    if n == 6 && m == 6 {
        assert(s[4] == escaped_char(a)[4]);
        assert(t[4] == escaped_char(b)[4]);
        assert(s[5] == escaped_char(a)[5]);
        assert(t[5] == escaped_char(b)[5]);
        let p = a as u8;
        let q = b as u8;
        assert(p < 32 && q < 32);
        assert(p / 16 == q / 16);
        assert(p % 16 == q % 16);
        assert(p == q);
    }
    assert(a == b);
    assert(x =~= s.skip(n));
    assert(y =~= t.skip(n));
}

/// The inside of a JSON string, from the front.
proof fn lemma_escaped_front(s: Seq<char>)
    requires
        s.len() > 0,
    ensures
        escaped(s) == escaped_char(s[0]) + escaped(s.skip(1)),
    decreases s.len(),
{
    if s.len() == 1 {
        assert(s.drop_last() =~= Seq::<char>::empty());
        assert(s.skip(1) =~= Seq::<char>::empty());
        assert(escaped(s) =~= escaped_char(s[0]) + escaped(s.skip(1)));
    } else {
        lemma_escaped_front(s.drop_last());
        assert(s.drop_last().skip(1) =~= s.skip(1).drop_last());
        assert(s.skip(1).last() == s.last());
        assert(escaped(s) =~= escaped_char(s[0]) + escaped(s.skip(1)));
    }
}

/// JSON strings lose nothing: two texts that are written alike are the same.
pub proof fn law_json_is_lossless(s: Seq<char>, t: Seq<char>)
    requires
        json_text(s) == json_text(t),
    ensures
        s == t,
{
    let a = json_text(s);
    assert(escaped(s) =~= a.subrange(1, a.len() - 1));
    assert(escaped(t) =~= a.subrange(1, a.len() - 1));
    lemma_escaped_injective(s, t);
}

proof fn lemma_escaped_injective(s: Seq<char>, t: Seq<char>)
    requires
        escaped(s) == escaped(t),
    ensures
        s == t,
    decreases s.len(),
{
    if s.len() > 0 {
        lemma_escaped_front(s);
    }
    if t.len() > 0 {
        lemma_escaped_front(t);
    }
    if s.len() > 0 && t.len() > 0 {
        lemma_escape_is_prefix_free(s[0], t[0], escaped(s.skip(1)), escaped(t.skip(1)));
        lemma_escaped_injective(s.skip(1), t.skip(1));
        assert(s =~= seq![s[0]] + s.skip(1));
        assert(t =~= seq![t[0]] + t.skip(1));
    } else {
        if s.len() > 0 {
            assert(escaped_char(s[0]).len() > 0);
            assert(escaped(s).len() > 0);
            assert(escaped(t).len() == 0);
        }
        if t.len() > 0 {
            assert(escaped_char(t[0]).len() > 0);
            assert(escaped(t).len() > 0);
            assert(escaped(s).len() == 0);
        }
        assert(s =~= t);
    }
}

// ---------------------------------------------------------------------------
// Columns
// ---------------------------------------------------------------------------

/// An address in a column.
pub open spec fn addr_text(oid: Option<Seq<u8>>) -> Seq<char> {
    match oid {
        Some(b) => hex_text(b),
        None => NONE_ADDR@,
    }
}

/// An address in JSON.
pub open spec fn json_addr(oid: Option<Seq<u8>>) -> Seq<char> {
    match oid {
        Some(b) => json_text(hex_text(b)),
        None => "null"@,
    }
}

/// A text in a column.
pub open spec fn word_text(t: Option<Seq<char>>) -> Seq<char> {
    match t {
        Some(w) => w,
        None => NONE_ADDR@,
    }
}

/// A text in JSON.
pub open spec fn json_word(t: Option<Seq<char>>) -> Seq<char> {
    match t {
        Some(w) => json_text(w),
        None => "null"@,
    }
}

/// A truth in JSON.
pub open spec fn json_bool(b: bool) -> Seq<char> {
    if b {
        "true"@
    } else {
        "false"@
    }
}

fn addr_col(oid: &Option<Oid>) -> (r: String)
    ensures
        r@ == addr_text(oid.deep_view()),
{
    match oid {
        Some(o) => hex::encode(o.0.as_slice()),
        None => NONE_ADDR.to_owned(),
    }
}

fn change_col(id: &Option<[u8; 16]>) -> (r: String)
    ensures
        r@ == addr_text(id.deep_view()),
{
    match id {
        Some(c) => {
            assert(c.deep_view() =~= c@);
            hex::encode(c.as_slice())
        },
        None => NONE_ADDR.to_owned(),
    }
}

fn json_string_of(s: &str) -> (r: String)
    ensures
        r@ == json_text(s@),
{
    let mut r = String::new();
    json_string(s, &mut r);
    assert(r@ =~= json_text(s@));
    r
}

fn json_opt_addr(oid: &Option<Oid>) -> (r: String)
    ensures
        r@ == json_addr(oid.deep_view()),
{
    match oid {
        Some(o) => json_string_of(hex::encode(o.0.as_slice()).as_str()),
        None => "null".to_owned(),
    }
}

fn json_opt_change(id: &Option<[u8; 16]>) -> (r: String)
    ensures
        r@ == json_addr(id.deep_view()),
{
    match id {
        Some(c) => {
            assert(c.deep_view() =~= c@);
            json_string_of(hex::encode(c.as_slice()).as_str())
        },
        None => "null".to_owned(),
    }
}

fn json_opt_word(t: &Option<String>) -> (r: String)
    ensures
        r@ == json_word(t.deep_view()),
{
    match t {
        Some(w) => json_string_of(w.as_str()),
        None => "null".to_owned(),
    }
}

fn word_col(t: &Option<String>) -> (r: String)
    ensures
        r@ == word_text(t.deep_view()),
{
    match t {
        Some(w) => w.clone(),
        None => NONE_ADDR.to_owned(),
    }
}

fn json_truth(b: bool) -> (r: &'static str)
    ensures
        r@ == json_bool(b),
{
    if b {
        "true"
    } else {
        "false"
    }
}

/// How JSON output begins.
pub open spec fn json_head() -> Seq<char> {
    "{\"contract\":"@ + decimal(VERDICT_CONTRACT as nat)
}

fn json_start() -> (r: String)
    ensures
        r@ == json_head(),
{
    let mut s = "{\"contract\":".to_owned();
    push_decimal(&mut s, VERDICT_CONTRACT as u64);
    s
}

// ---------------------------------------------------------------------------
// What became of each path
// ---------------------------------------------------------------------------

/// What became of one path.
#[derive(Clone, Debug, PartialEq, Eq)]
pub struct PathVerdict {
    pub path: RepoPath,
    pub outcome: MergeOutcome,
}

/// The model of a [`PathVerdict`].
pub struct VerdictModel {
    pub path: Seq<char>,
    pub outcome: OutcomeModel,
}

impl DeepView for PathVerdict {
    type V = VerdictModel;

    open spec fn deep_view(&self) -> VerdictModel {
        VerdictModel { path: self.path.deep_view(), outcome: self.outcome.deep_view() }
    }
}

/// The mark of an outcome.
pub open spec fn outcome_char(o: OutcomeModel) -> char {
    match o {
        OutcomeModel::Converged => '=',
        OutcomeModel::Merged => 'M',
        OutcomeModel::Conflict { ours, theirs } => 'C',
        OutcomeModel::RelayedUnmerged => 'R',
    }
}

/// The two sides of a conflict.
pub open spec fn outcome_addrs(o: OutcomeModel) -> (Option<Seq<u8>>, Option<Seq<u8>>) {
    match o {
        OutcomeModel::Conflict { ours, theirs } => (Some(ours), Some(theirs)),
        _ => (None, None),
    }
}

/// The mark of an outcome: `=` converged, `M` merged, `C` conflict, `R` relayed.
pub fn status_char(o: &MergeOutcome) -> (c: char)
    ensures
        c == outcome_char(o.deep_view()),
{
    match o {
        MergeOutcome::Converged => '=',
        MergeOutcome::Merged => 'M',
        MergeOutcome::Conflict { .. } => 'C',
        MergeOutcome::RelayedUnmerged => 'R',
    }
}

impl PathVerdict {
    pub fn new(path: RepoPath, outcome: MergeOutcome) -> (r: Self)
        ensures
            r.deep_view() == (VerdictModel { path: path.deep_view(), outcome: outcome.deep_view() }),
    {
        PathVerdict { path, outcome }
    }

    /// The mark of this outcome.
    pub fn status_char(&self) -> (c: char)
        ensures
            c == outcome_char(self.deep_view().outcome),
    {
        status_char(&self.outcome)
    }

    /// The two sides, where there is a conflict.
    pub fn addrs(&self) -> (r: (Option<Oid>, Option<Oid>))
        ensures
            r.deep_view() == outcome_addrs(self.deep_view().outcome),
    {
        match &self.outcome {
            MergeOutcome::Conflict { ours, theirs } => (Some(*ours), Some(*theirs)),
            _ => (None, None),
        }
    }
}

/// One path in columns: the mark, the path, and the two sides.
pub open spec fn verdict_row(v: VerdictModel) -> Seq<char> {
    let (base, incoming) = outcome_addrs(v.outcome);
    seq![outcome_char(v.outcome)] + "\t"@ + v.path + "\t"@ + addr_text(base) + "\t"@ + addr_text(incoming)
        + "\n"@
}

/// One path in JSON.
pub open spec fn verdict_json(v: VerdictModel) -> Seq<char> {
    let (base, incoming) = outcome_addrs(v.outcome);
    "{\"status\":\""@ + seq![outcome_char(v.outcome)] + "\",\"path\":"@ + json_text(v.path) + ",\"base\":"@
        + json_addr(base) + ",\"incoming\":"@ + json_addr(incoming) + "}"@
}

fn one_char(c: char) -> (r: String)
    ensures
        r@ == seq![c],
{
    let mut r = String::new();
    r.push(c);
    assert(r@ =~= seq![c]);
    r
}

/// One line for each path, in the order given.
pub fn porcelain(verdicts: &[PathVerdict]) -> (r: String)
    ensures
        r@ == flat(verdicts.deep_view().map_values(|v: VerdictModel| verdict_row(v))),
{
    let ghost vs = verdicts.deep_view();
    let ghost f = |v: VerdictModel| verdict_row(v);
    let mut rows: Vec<String> = crate::seqs::none();
    let mut i: usize = 0;
    assert(rows.deep_view() =~= vs.take(0).map_values(f));
    while i < verdicts.len()
        invariant
            0 <= i <= verdicts@.len(),
            vs == verdicts.deep_view(),
            f == (|v: VerdictModel| verdict_row(v)),
            rows.deep_view() == vs.take(i as int).map_values(f),
        decreases verdicts@.len() - i,
    {
        let v = &verdicts[i];
        assert(vs[i as int] == v.deep_view());
        let (base, incoming) = v.addrs();
        let mut row = one_char(v.status_char());
        push_text(&mut row, "\t");
        push_text(&mut row, v.path.as_str());
        push_text(&mut row, "\t");
        push_text(&mut row, addr_col(&base).as_str());
        push_text(&mut row, "\t");
        push_text(&mut row, addr_col(&incoming).as_str());
        push_text(&mut row, "\n");
        assert(row@ == verdict_row(vs[i as int]));
        crate::seqs::push(&mut rows, row);
        assert(rows.deep_view() =~= vs.take(i as int + 1).map_values(f));
        i = i + 1;
    }
    assert(vs.take(vs.len() as int) =~= vs);
    concat(&rows)
}

/// The paths as one JSON object.
pub open spec fn verdicts_json(vs: Seq<VerdictModel>) -> Seq<char> {
    json_head() + ",\"verdicts\":["@ + joined(vs.map_values(|v: VerdictModel| verdict_json(v)), ","@) + "]}"@
}

/// The paths as one JSON object, in the order given.
pub fn json(verdicts: &[PathVerdict]) -> (r: String)
    ensures
        r@ == verdicts_json(verdicts.deep_view()),
{
    let ghost vs = verdicts.deep_view();
    let ghost f = |v: VerdictModel| verdict_json(v);
    let mut rows: Vec<String> = crate::seqs::none();
    let mut i: usize = 0;
    assert(rows.deep_view() =~= vs.take(0).map_values(f));
    while i < verdicts.len()
        invariant
            0 <= i <= verdicts@.len(),
            vs == verdicts.deep_view(),
            f == (|v: VerdictModel| verdict_json(v)),
            rows.deep_view() == vs.take(i as int).map_values(f),
        decreases verdicts@.len() - i,
    {
        let v = &verdicts[i];
        assert(vs[i as int] == v.deep_view());
        let (base, incoming) = v.addrs();
        let mut row = "{\"status\":\"".to_owned();
        push_text(&mut row, one_char(v.status_char()).as_str());
        push_text(&mut row, "\",\"path\":");
        json_string(v.path.as_str(), &mut row);
        push_text(&mut row, ",\"base\":");
        push_text(&mut row, json_opt_addr(&base).as_str());
        push_text(&mut row, ",\"incoming\":");
        push_text(&mut row, json_opt_addr(&incoming).as_str());
        push_text(&mut row, "}");
        assert(row@ == verdict_json(vs[i as int]));
        crate::seqs::push(&mut rows, row);
        assert(rows.deep_view() =~= vs.take(i as int + 1).map_values(f));
        i = i + 1;
    }
    assert(vs.take(vs.len() as int) =~= vs);
    let mut s = json_start();
    push_text(&mut s, ",\"verdicts\":[");
    push_text(&mut s, join(&rows, ",").as_str());
    push_text(&mut s, "]}");
    s
}

// ---------------------------------------------------------------------------
// The working change, and the surfaced tree
// ---------------------------------------------------------------------------

/// Who may read, in one word.
pub open spec fn visibility_word(v: VisibilityModel) -> Seq<char> {
    match v {
        VisibilityModel::Public => "public"@,
        VisibilityModel::Restricted(ids) => "restricted="@ + joined(ids, ","@),
        VisibilityModel::Embargoed { reveal_at } => "embargoed@"@ + decimal(reveal_at as nat),
    }
}

/// Who may read, in one word: `public`, `restricted=a,b` or `embargoed@<time>`.
pub fn visibility_token(vis: &Visibility) -> (r: String)
    ensures
        r@ == visibility_word(vis.deep_view()),
{
    match vis {
        Visibility::Public => "public".to_owned(),
        Visibility::Restricted(ids) => {
            let mut s = "restricted=".to_owned();
            push_text(&mut s, join(ids, ",").as_str());
            s
        },
        Visibility::Embargoed { reveal_at } => {
            let mut s = "embargoed@".to_owned();
            push_decimal(&mut s, *reveal_at);
            s
        },
    }
}

/// One path of a tree.
pub type TreeEntry = (RepoPath, Visibility);

/// One path of a tree in columns.
pub open spec fn entry_row(mark: char, e: (Seq<char>, VisibilityModel)) -> Seq<char> {
    seq![mark] + "\t"@ + e.0 + "\t"@ + visibility_word(e.1) + "\n"@
}

/// One path of a tree in JSON.
pub open spec fn entry_json(e: (Seq<char>, VisibilityModel)) -> Seq<char> {
    "{\"path\":"@ + json_text(e.0) + ",\"visibility\":"@ + json_text(visibility_word(e.1)) + "}"@
}

/// A tree in columns.
pub open spec fn entry_rows(mark: char, es: Seq<(Seq<char>, VisibilityModel)>) -> Seq<char> {
    flat(es.map_values(|e: (Seq<char>, VisibilityModel)| entry_row(mark, e)))
}

/// A tree as a JSON list.
pub open spec fn entries_json(es: Seq<(Seq<char>, VisibilityModel)>) -> Seq<char> {
    joined(es.map_values(|e: (Seq<char>, VisibilityModel)| entry_json(e)), ","@)
}

fn tree_rows(mark: char, entries: &[TreeEntry]) -> (r: String)
    ensures
        r@ == entry_rows(mark, entries.deep_view()),
{
    let ghost es = entries.deep_view();
    let ghost f = |e: (Seq<char>, VisibilityModel)| entry_row(mark, e);
    let mut rows: Vec<String> = crate::seqs::none();
    let mut i: usize = 0;
    assert(rows.deep_view() =~= es.take(0).map_values(f));
    while i < entries.len()
        invariant
            0 <= i <= entries@.len(),
            es == entries.deep_view(),
            f == (|e: (Seq<char>, VisibilityModel)| entry_row(mark, e)),
            rows.deep_view() == es.take(i as int).map_values(f),
        decreases entries@.len() - i,
    {
        let (path, vis) = &entries[i];
        assert(es[i as int] == (path.deep_view(), vis.deep_view()));
        let mut row = one_char(mark);
        push_text(&mut row, "\t");
        push_text(&mut row, path.as_str());
        push_text(&mut row, "\t");
        push_text(&mut row, visibility_token(vis).as_str());
        push_text(&mut row, "\n");
        assert(row@ == entry_row(mark, es[i as int]));
        crate::seqs::push(&mut rows, row);
        assert(rows.deep_view() =~= es.take(i as int + 1).map_values(f));
        i = i + 1;
    }
    assert(es.take(es.len() as int) =~= es);
    concat(&rows)
}

fn tree_json(entries: &[TreeEntry]) -> (r: String)
    ensures
        r@ == entries_json(entries.deep_view()),
{
    let ghost es = entries.deep_view();
    let ghost f = |e: (Seq<char>, VisibilityModel)| entry_json(e);
    let mut rows: Vec<String> = crate::seqs::none();
    let mut i: usize = 0;
    assert(rows.deep_view() =~= es.take(0).map_values(f));
    while i < entries.len()
        invariant
            0 <= i <= entries@.len(),
            es == entries.deep_view(),
            f == (|e: (Seq<char>, VisibilityModel)| entry_json(e)),
            rows.deep_view() == es.take(i as int).map_values(f),
        decreases entries@.len() - i,
    {
        let (path, vis) = &entries[i];
        assert(es[i as int] == (path.deep_view(), vis.deep_view()));
        let mut row = "{\"path\":".to_owned();
        json_string(path.as_str(), &mut row);
        push_text(&mut row, ",\"visibility\":");
        json_string(visibility_token(vis).as_str(), &mut row);
        push_text(&mut row, "}");
        assert(row@ == entry_json(es[i as int]));
        crate::seqs::push(&mut rows, row);
        assert(rows.deep_view() =~= es.take(i as int + 1).map_values(f));
        i = i + 1;
    }
    assert(es.take(es.len() as int) =~= es);
    join(&rows, ",")
}

/// The address behind a reference, if there is one.
pub open spec fn version_model(v: Option<&Oid>) -> Option<Seq<u8>> {
    match v {
        Some(o) => Some(o.deep_view()),
        None => None,
    }
}

fn owned(v: Option<&Oid>) -> (r: Option<Oid>)
    ensures
        r.deep_view() == version_model(v),
{
    match v {
        Some(o) => Some(*o),
        None => None,
    }
}

/// The working change in columns: a line that names it, then its paths.
pub open spec fn status_rows(
    change: Option<Seq<u8>>,
    version: Option<Seq<u8>>,
    es: Seq<(Seq<char>, VisibilityModel)>,
) -> Seq<char> {
    seq![CHANGE_MARK] + "\t"@ + addr_text(change) + "\t"@ + addr_text(version) + "\n"@ + entry_rows(
        WORKING_MARK,
        es,
    )
}

/// The working change in columns: a line that names it, then one for each path.
pub fn status_porcelain(
    change_id: Option<[u8; 16]>,
    version: Option<&Oid>,
    entries: &[TreeEntry],
) -> (r: String)
    ensures
        r@ == status_rows(change_id.deep_view(), version_model(version), entries.deep_view()),
{
    let mut s = one_char(CHANGE_MARK);
    push_text(&mut s, "\t");
    push_text(&mut s, change_col(&change_id).as_str());
    push_text(&mut s, "\t");
    push_text(&mut s, addr_col(&owned(version)).as_str());
    push_text(&mut s, "\n");
    push_text(&mut s, tree_rows(WORKING_MARK, entries).as_str());
    s
}

/// The working change as one JSON object.
pub open spec fn status_object(
    change: Option<Seq<u8>>,
    version: Option<Seq<u8>>,
    es: Seq<(Seq<char>, VisibilityModel)>,
) -> Seq<char> {
    json_head() + ",\"change\":"@ + json_addr(change) + ",\"version\":"@ + json_addr(version)
        + ",\"working\":["@ + entries_json(es) + "]}"@
}

/// The working change as one JSON object.
pub fn status_json(change_id: Option<[u8; 16]>, version: Option<&Oid>, entries: &[TreeEntry]) -> (r: String)
    ensures
        r@ == status_object(change_id.deep_view(), version_model(version), entries.deep_view()),
{
    let mut s = json_start();
    push_text(&mut s, ",\"change\":");
    push_text(&mut s, json_opt_change(&change_id).as_str());
    push_text(&mut s, ",\"version\":");
    push_text(&mut s, json_opt_addr(&owned(version)).as_str());
    push_text(&mut s, ",\"working\":[");
    push_text(&mut s, tree_json(entries).as_str());
    push_text(&mut s, "]}");
    s
}

/// The surfaced tree in columns.
pub fn surface_porcelain(entries: &[TreeEntry]) -> (r: String)
    ensures
        r@ == entry_rows(SURFACE_MARK, entries.deep_view()),
{
    tree_rows(SURFACE_MARK, entries)
}

/// The surfaced tree as one JSON object.
pub open spec fn surface_object(es: Seq<(Seq<char>, VisibilityModel)>) -> Seq<char> {
    json_head() + ",\"tree\":["@ + entries_json(es) + "]}"@
}

/// The surfaced tree as one JSON object.
pub fn surface_json(entries: &[TreeEntry]) -> (r: String)
    ensures
        r@ == surface_object(entries.deep_view()),
{
    let mut s = json_start();
    push_text(&mut s, ",\"tree\":[");
    push_text(&mut s, tree_json(entries).as_str());
    push_text(&mut s, "]}");
    s
}

// ---------------------------------------------------------------------------
// Lanes
// ---------------------------------------------------------------------------

/// What can be seen of one lane.
#[derive(Clone, Debug, PartialEq, Eq)]
pub struct LaneRow {
    pub id: String,
    pub name: Option<String>,
    pub path: RepoPath,
    pub tip: Option<Oid>,
    pub change: Option<String>,
    pub pr: Option<u64>,
    /// `None` where the lane's tree could not be read.
    pub dirty: Option<bool>,
    /// Seconds since the lane was last used.
    pub heartbeat_age: u64,
    pub landed: bool,
    pub stale: bool,
}

/// The model of a [`LaneRow`].
pub struct LaneModel {
    pub id: Seq<char>,
    pub name: Option<Seq<char>>,
    pub path: Seq<char>,
    pub tip: Option<Seq<u8>>,
    pub change: Option<Seq<char>>,
    pub pr: Option<u64>,
    pub dirty: Option<bool>,
    pub heartbeat_age: u64,
    pub landed: bool,
    pub stale: bool,
}

impl DeepView for LaneRow {
    type V = LaneModel;

    open spec fn deep_view(&self) -> LaneModel {
        LaneModel {
            id: self.id@,
            name: self.name.deep_view(),
            path: self.path.deep_view(),
            tip: self.tip.deep_view(),
            change: self.change.deep_view(),
            pr: self.pr,
            dirty: self.dirty,
            heartbeat_age: self.heartbeat_age,
            landed: self.landed,
            stale: self.stale,
        }
    }
}

/// Whether a lane has changes, in one word.
pub open spec fn state_word(dirty: Option<bool>) -> Seq<char> {
    match dirty {
        Some(d) => if d {
            "dirty"@
        } else {
            "clean"@
        },
        None => NONE_ADDR@,
    }
}

/// A lane's flags, in one word.
pub open spec fn flags_word(landed: bool, stale: bool) -> Seq<char> {
    if landed && stale {
        "landed,stale"@
    } else if landed {
        "landed"@
    } else if stale {
        "stale"@
    } else {
        NONE_ADDR@
    }
}

/// A number in a column.
pub open spec fn number_text(n: Option<u64>) -> Seq<char> {
    match n {
        Some(p) => decimal(p as nat),
        None => NONE_ADDR@,
    }
}

fn lane_state_token(dirty: Option<bool>) -> (r: &'static str)
    ensures
        r@ == state_word(dirty),
{
    match dirty {
        Some(d) => if d {
            "dirty"
        } else {
            "clean"
        },
        None => NONE_ADDR,
    }
}

fn lane_flags_token(landed: bool, stale: bool) -> (r: &'static str)
    ensures
        r@ == flags_word(landed, stale),
{
    if landed && stale {
        "landed,stale"
    } else if landed {
        "landed"
    } else if stale {
        "stale"
    } else {
        NONE_ADDR
    }
}

fn number_col(n: Option<u64>) -> (r: String)
    ensures
        r@ == number_text(n),
{
    match n {
        Some(p) => decimal_of(p),
        None => NONE_ADDR.to_owned(),
    }
}

/// One lane in columns.
pub open spec fn lane_line(r: LaneModel) -> Seq<char> {
    seq![LANE_MARK] + "\t"@ + r.id + "\t"@ + word_text(r.name) + "\t"@ + r.path + "\t"@ + addr_text(r.tip)
        + "\t"@ + word_text(r.change) + "\t"@ + number_text(r.pr) + "\t"@ + state_word(r.dirty) + "\t"@
        + decimal(r.heartbeat_age as nat) + "\t"@ + flags_word(r.landed, r.stale) + "\n"@
}

/// One line for each lane.
pub fn lanes_porcelain(rows: &[LaneRow]) -> (r: String)
    ensures
        r@ == flat(rows.deep_view().map_values(|l: LaneModel| lane_line(l))),
{
    let ghost ls = rows.deep_view();
    let ghost f = |l: LaneModel| lane_line(l);
    let mut lines: Vec<String> = crate::seqs::none();
    let mut i: usize = 0;
    assert(lines.deep_view() =~= ls.take(0).map_values(f));
    while i < rows.len()
        invariant
            0 <= i <= rows@.len(),
            ls == rows.deep_view(),
            f == (|l: LaneModel| lane_line(l)),
            lines.deep_view() == ls.take(i as int).map_values(f),
        decreases rows@.len() - i,
    {
        let l = &rows[i];
        assert(ls[i as int] == l.deep_view());
        let mut row = one_char(LANE_MARK);
        push_text(&mut row, "\t");
        push_text(&mut row, l.id.as_str());
        push_text(&mut row, "\t");
        push_text(&mut row, word_col(&l.name).as_str());
        push_text(&mut row, "\t");
        push_text(&mut row, l.path.as_str());
        push_text(&mut row, "\t");
        push_text(&mut row, addr_col(&l.tip).as_str());
        push_text(&mut row, "\t");
        push_text(&mut row, word_col(&l.change).as_str());
        push_text(&mut row, "\t");
        push_text(&mut row, number_col(l.pr).as_str());
        push_text(&mut row, "\t");
        push_text(&mut row, lane_state_token(l.dirty));
        push_text(&mut row, "\t");
        push_decimal(&mut row, l.heartbeat_age);
        push_text(&mut row, "\t");
        push_text(&mut row, lane_flags_token(l.landed, l.stale));
        push_text(&mut row, "\n");
        assert(row@ == lane_line(ls[i as int]));
        crate::seqs::push(&mut lines, row);
        assert(lines.deep_view() =~= ls.take(i as int + 1).map_values(f));
        i = i + 1;
    }
    assert(ls.take(ls.len() as int) =~= ls);
    concat(&lines)
}

/// A number in JSON.
pub open spec fn json_number(n: Option<u64>) -> Seq<char> {
    match n {
        Some(p) => decimal(p as nat),
        None => "null"@,
    }
}

/// A truth in JSON that may be unknown.
pub open spec fn json_opt_bool(b: Option<bool>) -> Seq<char> {
    match b {
        Some(d) => json_bool(d),
        None => "null"@,
    }
}

/// One lane in JSON.
pub open spec fn lane_json(r: LaneModel) -> Seq<char> {
    "{\"id\":"@ + json_text(r.id) + ",\"name\":"@ + json_word(r.name) + ",\"path\":"@ + json_text(r.path)
        + ",\"tip\":"@ + json_addr(r.tip) + ",\"change\":"@ + json_word(r.change) + ",\"pr\":"@
        + json_number(r.pr) + ",\"dirty\":"@ + json_opt_bool(r.dirty) + ",\"heartbeat_age\":"@ + decimal(
        r.heartbeat_age as nat,
    ) + ",\"landed\":"@ + json_bool(r.landed) + ",\"stale\":"@ + json_bool(r.stale) + "}"@
}

/// The lanes as one JSON object.
pub open spec fn lanes_object(ls: Seq<LaneModel>) -> Seq<char> {
    json_head() + ",\"lanes\":["@ + joined(ls.map_values(|l: LaneModel| lane_json(l)), ","@) + "]}"@
}

/// The lanes as one JSON object.
pub fn lanes_json(rows: &[LaneRow]) -> (r: String)
    ensures
        r@ == lanes_object(rows.deep_view()),
{
    let ghost ls = rows.deep_view();
    let ghost f = |l: LaneModel| lane_json(l);
    let mut items: Vec<String> = crate::seqs::none();
    let mut i: usize = 0;
    assert(items.deep_view() =~= ls.take(0).map_values(f));
    while i < rows.len()
        invariant
            0 <= i <= rows@.len(),
            ls == rows.deep_view(),
            f == (|l: LaneModel| lane_json(l)),
            items.deep_view() == ls.take(i as int).map_values(f),
        decreases rows@.len() - i,
    {
        let l = &rows[i];
        assert(ls[i as int] == l.deep_view());
        let mut s = "{\"id\":".to_owned();
        json_string(l.id.as_str(), &mut s);
        push_text(&mut s, ",\"name\":");
        push_text(&mut s, json_opt_word(&l.name).as_str());
        push_text(&mut s, ",\"path\":");
        json_string(l.path.as_str(), &mut s);
        push_text(&mut s, ",\"tip\":");
        push_text(&mut s, json_opt_addr(&l.tip).as_str());
        push_text(&mut s, ",\"change\":");
        push_text(&mut s, json_opt_word(&l.change).as_str());
        push_text(&mut s, ",\"pr\":");
        match l.pr {
            Some(p) => push_decimal(&mut s, p),
            None => push_text(&mut s, "null"),
        }
        push_text(&mut s, ",\"dirty\":");
        match l.dirty {
            Some(d) => push_text(&mut s, json_truth(d)),
            None => push_text(&mut s, "null"),
        }
        push_text(&mut s, ",\"heartbeat_age\":");
        push_decimal(&mut s, l.heartbeat_age);
        push_text(&mut s, ",\"landed\":");
        push_text(&mut s, json_truth(l.landed));
        push_text(&mut s, ",\"stale\":");
        push_text(&mut s, json_truth(l.stale));
        push_text(&mut s, "}");
        assert(s@ == lane_json(ls[i as int]));
        crate::seqs::push(&mut items, s);
        assert(items.deep_view() =~= ls.take(i as int + 1).map_values(f));
        i = i + 1;
    }
    assert(ls.take(ls.len() as int) =~= ls);
    let mut s = json_start();
    push_text(&mut s, ",\"lanes\":[");
    push_text(&mut s, join(&items, ",").as_str());
    push_text(&mut s, "]}");
    s
}

// ---------------------------------------------------------------------------
// Buoys
// ---------------------------------------------------------------------------

/// Where a buoy lies.
#[derive(Clone, Debug, PartialEq, Eq)]
pub enum BuoyVerdict {
    /// On one change.
    Resolved { role: String, change: Oid, attesters: Vec<[u8; 32]> },
    /// On several changes of which none is an ancestor of another.
    Ambiguous { role: String, candidates: Vec<(Oid, Vec<[u8; 32]>)> },
    /// Nowhere.
    Nowhere { role: String },
}

/// The model of a [`BuoyVerdict`].
pub enum BuoyVerdictModel {
    Resolved { role: Seq<char>, change: Seq<u8>, attesters: Seq<Seq<u8>> },
    Ambiguous { role: Seq<char>, candidates: Seq<(Seq<u8>, Seq<Seq<u8>>)> },
    Nowhere { role: Seq<char> },
}

impl DeepView for BuoyVerdict {
    type V = BuoyVerdictModel;

    open spec fn deep_view(&self) -> BuoyVerdictModel {
        match self {
            BuoyVerdict::Resolved { role, change, attesters } => BuoyVerdictModel::Resolved {
                role: role@,
                change: change.deep_view(),
                attesters: attesters.deep_view(),
            },
            BuoyVerdict::Ambiguous { role, candidates } => BuoyVerdictModel::Ambiguous {
                role: role@,
                candidates: candidates.deep_view(),
            },
            BuoyVerdict::Nowhere { role } => BuoyVerdictModel::Nowhere { role: role@ },
        }
    }
}

/// One candidate in columns.
pub open spec fn buoy_line(mark: Seq<char>, change: Seq<u8>, role: Seq<char>) -> Seq<char> {
    mark + "\t"@ + hex_text(change) + "\t"@ + role + "\n"@
}

/// A buoy in columns. Where it lies nowhere, there are no lines.
pub open spec fn buoy_rows(v: BuoyVerdictModel) -> Seq<char> {
    match v {
        BuoyVerdictModel::Resolved { role, change, attesters } => buoy_line("B"@, change, role),
        BuoyVerdictModel::Ambiguous { role, candidates } => flat(
            candidates.map_values(|c: (Seq<u8>, Seq<Seq<u8>>)| buoy_line("A"@, c.0, role)),
        ),
        BuoyVerdictModel::Nowhere { role } => Seq::empty(),
    }
}

/// Those who attested, as a JSON list.
pub open spec fn json_keys(ks: Seq<Seq<u8>>) -> Seq<char> {
    joined(ks.map_values(|k: Seq<u8>| json_text(hex_text(k))), ","@)
}

/// One candidate in JSON.
pub open spec fn candidate_json(c: (Seq<u8>, Seq<Seq<u8>>)) -> Seq<char> {
    "{\"change\":"@ + json_text(hex_text(c.0)) + ",\"attesters\":["@ + json_keys(c.1) + "]}"@
}

/// A buoy as one JSON object.
pub open spec fn buoy_object(v: BuoyVerdictModel) -> Seq<char> {
    match v {
        BuoyVerdictModel::Resolved { role, change, attesters } => json_head() + ",\"role\":"@ + json_text(role)
            + ",\"status\":\"resolved\",\"buoy\":"@ + json_text(hex_text(change)) + ",\"attesters\":["@
            + json_keys(attesters) + "]}"@,
        BuoyVerdictModel::Ambiguous { role, candidates } => json_head() + ",\"role\":"@ + json_text(role)
            + ",\"status\":\"ambiguous\",\"candidates\":["@ + joined(
            candidates.map_values(|c: (Seq<u8>, Seq<Seq<u8>>)| candidate_json(c)),
            ","@,
        ) + "]}"@,
        BuoyVerdictModel::Nowhere { role } => json_head() + ",\"role\":"@ + json_text(role)
            + ",\"status\":\"none\"}"@,
    }
}

fn buoy_row(mark: &str, change: &Oid, role: &str) -> (r: String)
    ensures
        r@ == buoy_line(mark@, change.deep_view(), role@),
{
    let mut s = mark.to_owned();
    push_text(&mut s, "\t");
    push_text(&mut s, hex::encode(change.0.as_slice()).as_str());
    push_text(&mut s, "\t");
    push_text(&mut s, role);
    push_text(&mut s, "\n");
    s
}

fn json_attesters(attesters: &Vec<[u8; 32]>) -> (r: String)
    ensures
        r@ == json_keys(attesters.deep_view()),
{
    let ghost ks = attesters.deep_view();
    let ghost f = |k: Seq<u8>| json_text(hex_text(k));
    let mut items: Vec<String> = crate::seqs::none();
    let mut i: usize = 0;
    assert(items.deep_view() =~= ks.take(0).map_values(f));
    while i < attesters.len()
        invariant
            0 <= i <= attesters@.len(),
            ks == attesters.deep_view(),
            f == (|k: Seq<u8>| json_text(hex_text(k))),
            items.deep_view() == ks.take(i as int).map_values(f),
        decreases attesters@.len() - i,
    {
        let k = &attesters[i];
        assert(ks[i as int] =~= k@);
        crate::seqs::push(&mut items, json_string_of(hex::encode(k.as_slice()).as_str()));
        assert(items.deep_view() =~= ks.take(i as int + 1).map_values(f));
        i = i + 1;
    }
    assert(ks.take(ks.len() as int) =~= ks);
    join(&items, ",")
}

impl BuoyVerdict {
    /// In columns: `B` for the one change, or `A` for each of several; none where
    /// there is no buoy.
    pub fn porcelain(&self) -> (r: String)
        ensures
            r@ == buoy_rows(self.deep_view()),
    {
        match self {
            BuoyVerdict::Resolved { role, change, attesters: _ } => buoy_row("B", change, role.as_str()),
            BuoyVerdict::Ambiguous { role, candidates } => {
                let ghost cs = candidates.deep_view();
                let ghost f = |c: (Seq<u8>, Seq<Seq<u8>>)| buoy_line("A"@, c.0, role@);
                let mut rows: Vec<String> = crate::seqs::none();
                let mut i: usize = 0;
                assert(rows.deep_view() =~= cs.take(0).map_values(f));
                while i < candidates.len()
                    invariant
                        0 <= i <= candidates@.len(),
                        cs == candidates.deep_view(),
                        f == (|c: (Seq<u8>, Seq<Seq<u8>>)| buoy_line("A"@, c.0, role@)),
                        rows.deep_view() == cs.take(i as int).map_values(f),
                    decreases candidates@.len() - i,
                {
                    let (change, _) = &candidates[i];
                    assert(cs[i as int].0 == change.deep_view());
                    crate::seqs::push(&mut rows, buoy_row("A", change, role.as_str()));
                    assert(rows.deep_view() =~= cs.take(i as int + 1).map_values(f));
                    i = i + 1;
                }
                assert(cs.take(cs.len() as int) =~= cs);
                concat(&rows)
            },
            BuoyVerdict::Nowhere { role: _ } => {
                let r = String::new();
                assert(r@ =~= Seq::<char>::empty());
                r
            },
        }
    }

    /// As one JSON object.
    pub fn json(&self) -> (r: String)
        ensures
            r@ == buoy_object(self.deep_view()),
    {
        let mut s = json_start();
        push_text(&mut s, ",\"role\":");
        match self {
            BuoyVerdict::Resolved { role, change, attesters } => {
                json_string(role.as_str(), &mut s);
                push_text(&mut s, ",\"status\":\"resolved\",\"buoy\":");
                json_string(hex::encode(change.0.as_slice()).as_str(), &mut s);
                push_text(&mut s, ",\"attesters\":[");
                push_text(&mut s, json_attesters(attesters).as_str());
                push_text(&mut s, "]}");
                s
            },
            BuoyVerdict::Ambiguous { role, candidates } => {
                let ghost cs = candidates.deep_view();
                let ghost f = |c: (Seq<u8>, Seq<Seq<u8>>)| candidate_json(c);
                let mut items: Vec<String> = crate::seqs::none();
                let mut i: usize = 0;
                assert(items.deep_view() =~= cs.take(0).map_values(f));
                while i < candidates.len()
                    invariant
                        0 <= i <= candidates@.len(),
                        cs == candidates.deep_view(),
                        f == (|c: (Seq<u8>, Seq<Seq<u8>>)| candidate_json(c)),
                        items.deep_view() == cs.take(i as int).map_values(f),
                    decreases candidates@.len() - i,
                {
                    let (change, attesters) = &candidates[i];
                    assert(cs[i as int] == (change.deep_view(), attesters.deep_view()));
                    let mut item = "{\"change\":".to_owned();
                    json_string(hex::encode(change.0.as_slice()).as_str(), &mut item);
                    push_text(&mut item, ",\"attesters\":[");
                    push_text(&mut item, json_attesters(attesters).as_str());
                    push_text(&mut item, "]}");
                    assert(item@ == candidate_json(cs[i as int]));
                    crate::seqs::push(&mut items, item);
                    assert(items.deep_view() =~= cs.take(i as int + 1).map_values(f));
                    i = i + 1;
                }
                assert(cs.take(cs.len() as int) =~= cs);
                json_string(role.as_str(), &mut s);
                push_text(&mut s, ",\"status\":\"ambiguous\",\"candidates\":[");
                push_text(&mut s, join(&items, ",").as_str());
                push_text(&mut s, "]}");
                s
            },
            BuoyVerdict::Nowhere { role } => {
                json_string(role.as_str(), &mut s);
                push_text(&mut s, ",\"status\":\"none\"}");
                s
            },
        }
    }
}

/// Each outcome has a mark of its own, and only a conflict has two sides to show.
pub proof fn law_marks_tell_outcomes_apart(a: OutcomeModel, ours: Seq<u8>, theirs: Seq<u8>)
    ensures
        outcome_char(a) == '=' <==> a is Converged,
        outcome_char(a) == 'M' <==> a is Merged,
        outcome_char(a) == 'C' <==> a is Conflict,
        outcome_char(a) == 'R' <==> a is RelayedUnmerged,
        outcome_addrs(OutcomeModel::Conflict { ours, theirs }) == (Some(ours), Some(theirs)),
        !(a is Conflict) ==> outcome_addrs(a) == (None::<Seq<u8>>, None::<Seq<u8>>),
{
}

/// A lane in columns, with tabs between them and a dash where there is nothing to say: its
/// mark, id, name, path, tip, change, pull request, whether it has changes, how long it has
/// been silent, and whether it landed or is stale.
pub proof fn law_lane_stands_in_columns(r: LaneModel)
    ensures
        lane_line(r) == joined(
            seq![
                seq!['L'],
                r.id,
                if r.name is Some {
                    r.name->Some_0
                } else {
                    "-"@
                },
                r.path,
                if r.tip is Some {
                    hex_text(r.tip->Some_0)
                } else {
                    "-"@
                },
                if r.change is Some {
                    r.change->Some_0
                } else {
                    "-"@
                },
                if r.pr is Some {
                    decimal(r.pr->Some_0 as nat)
                } else {
                    "-"@
                },
                if r.dirty == Some(true) {
                    "dirty"@
                } else if r.dirty == Some(false) {
                    "clean"@
                } else {
                    "-"@
                },
                decimal(r.heartbeat_age as nat),
                if r.landed && r.stale {
                    "landed,stale"@
                } else if r.landed {
                    "landed"@
                } else if r.stale {
                    "stale"@
                } else {
                    "-"@
                },
            ],
            "\t"@,
        ) + "\n"@,
{
    let (a, b, c, d) = (seq!['L'], r.id, word_text(r.name), r.path);
    let (e, f, g, h) = (addr_text(r.tip), word_text(r.change), number_text(r.pr), state_word(r.dirty));
    let (i, j) = (decimal(r.heartbeat_age as nat), flags_word(r.landed, r.stale));
    let cols = seq![a, b, c, d, e, f, g, h, i, j];
    lemma_columns(seq![a, b, c, d, e, f, g, h, i], j);
    lemma_columns(seq![a, b, c, d, e, f, g, h], i);
    lemma_columns(seq![a, b, c, d, e, f, g], h);
    lemma_columns(seq![a, b, c, d, e, f], g);
    lemma_columns(seq![a, b, c, d, e], f);
    lemma_columns(seq![a, b, c, d], e);
    lemma_columns(seq![a, b, c], d);
    lemma_columns(seq![a, b], c);
    lemma_columns(seq![a], b);
    assert(seq![a].push(b) =~= seq![a, b]);
    assert(seq![a, b].push(c) =~= seq![a, b, c]);
    assert(seq![a, b, c].push(d) =~= seq![a, b, c, d]);
    assert(seq![a, b, c, d].push(e) =~= seq![a, b, c, d, e]);
    assert(seq![a, b, c, d, e].push(f) =~= seq![a, b, c, d, e, f]);
    assert(seq![a, b, c, d, e, f].push(g) =~= seq![a, b, c, d, e, f, g]);
    assert(seq![a, b, c, d, e, f, g].push(h) =~= seq![a, b, c, d, e, f, g, h]);
    assert(seq![a, b, c, d, e, f, g, h].push(i) =~= seq![a, b, c, d, e, f, g, h, i]);
    assert(seq![a, b, c, d, e, f, g, h, i].push(j) =~= cols);
    assert(joined(seq![a], "\t"@) =~= a);
    assert(lane_line(r) =~= joined(cols, "\t"@) + "\n"@);
}

/// One more column stands behind a tab.
proof fn lemma_columns(cols: Seq<Seq<char>>, last: Seq<char>)
    requires
        cols.len() > 0,
    ensures
        joined(cols.push(last), "\t"@) == joined(cols, "\t"@) + "\t"@ + last,
{
    assert(cols.push(last).drop_last() =~= cols);
}

/// A buoy in columns: one line for the change that it lies on, one for each candidate where
/// it cannot be told, and none where it lies nowhere.
pub proof fn law_buoy_stands_in_columns(
    role: Seq<char>,
    change: Seq<u8>,
    attesters: Seq<Seq<u8>>,
    cs: Seq<(Seq<u8>, Seq<Seq<u8>>)>,
)
    ensures
        buoy_rows(BuoyVerdictModel::Resolved { role, change, attesters }) == "B\t"@ + hex_text(change) + "\t"@ + role
            + "\n"@,
        buoy_rows(BuoyVerdictModel::Nowhere { role }).len() == 0,
        buoy_rows(BuoyVerdictModel::Ambiguous { role, candidates: cs.push((change, attesters)) }) == buoy_rows(
            BuoyVerdictModel::Ambiguous { role, candidates: cs },
        ) + "A\t"@ + hex_text(change) + "\t"@ + role + "\n"@,
        buoy_rows(BuoyVerdictModel::Ambiguous { role, candidates: Seq::empty() }).len() == 0,
{
    reveal_strlit("B");
    reveal_strlit("B\t");
    reveal_strlit("A");
    reveal_strlit("A\t");
    reveal_strlit("\t");
    assert("B"@ + "\t"@ =~= "B\t"@);
    assert("A"@ + "\t"@ =~= "A\t"@);
    let f = |c: (Seq<u8>, Seq<Seq<u8>>)| buoy_line("A"@, c.0, role);
    let more = cs.push((change, attesters)).map_values(f);
    assert(more.drop_last() =~= cs.map_values(f));
    assert(more.last() == buoy_line("A"@, change, role));
    assert(Seq::<(Seq<u8>, Seq<Seq<u8>>)>::empty().map_values(f) =~= Seq::<Seq<char>>::empty());
    assert(buoy_rows(BuoyVerdictModel::Ambiguous { role, candidates: cs.push((change, attesters)) }) =~= buoy_rows(
        BuoyVerdictModel::Ambiguous { role, candidates: cs },
    ) + "A\t"@ + hex_text(change) + "\t"@ + role + "\n"@);
    assert(buoy_rows(BuoyVerdictModel::Resolved { role, change, attesters }) =~= "B\t"@ + hex_text(change) + "\t"@ + role
        + "\n"@);
}

/// A field of a JSON object.
pub open spec fn json_field(f: (Seq<char>, Seq<char>)) -> Seq<char> {
    "\""@ + f.0 + "\":"@ + f.1
}

/// The fields of a JSON object in turn.
pub open spec fn json_fields(fs: Seq<(Seq<char>, Seq<char>)>) -> Seq<char> {
    joined(fs.map_values(|f: (Seq<char>, Seq<char>)| json_field(f)), ","@)
}

/// One more field stands behind a comma.
proof fn lemma_one_field_more(fs: Seq<(Seq<char>, Seq<char>)>, f: (Seq<char>, Seq<char>))
    ensures
        fs.len() > 0 ==> json_fields(fs.push(f)) == json_fields(fs) + ","@ + json_field(f),
        fs.len() == 0 ==> json_fields(fs.push(f)) == json_field(f),
{
    let g = |f: (Seq<char>, Seq<char>)| json_field(f);
    let more = fs.push(f).map_values(g);
    assert(more.drop_last() =~= fs.map_values(g));
    assert(more.last() == json_field(f));
}

/// What a value that may be unknown is in JSON: itself, or null.
pub proof fn law_unknown_is_null(t: Seq<char>, b: Seq<u8>, n: u64)
    ensures
        json_word(Some(t)) == json_text(t) && json_word(None) == "null"@,
        json_addr(Some(b)) == json_text(hex_text(b)) && json_addr(None) == "null"@,
        json_number(Some(n)) == decimal(n as nat) && json_number(None) == "null"@,
        json_opt_bool(Some(true)) == "true"@ && json_opt_bool(Some(false)) == "false"@ && json_opt_bool(None) == "null"@,
        json_bool(true) == "true"@ && json_bool(false) == "false"@,
{
}

/// The text between the values of a lane's fields names them.
proof fn lemma_lane_names()
    ensures
        "{\"id\":"@ == "{"@ + "\""@ + "id"@ + "\":"@,
        ",\"name\":"@ == ","@ + "\""@ + "name"@ + "\":"@,
        ",\"path\":"@ == ","@ + "\""@ + "path"@ + "\":"@,
        ",\"tip\":"@ == ","@ + "\""@ + "tip"@ + "\":"@,
        ",\"change\":"@ == ","@ + "\""@ + "change"@ + "\":"@,
        ",\"pr\":"@ == ","@ + "\""@ + "pr"@ + "\":"@,
        ",\"dirty\":"@ == ","@ + "\""@ + "dirty"@ + "\":"@,
        ",\"heartbeat_age\":"@ == ","@ + "\""@ + "heartbeat_age"@ + "\":"@,
        ",\"landed\":"@ == ","@ + "\""@ + "landed"@ + "\":"@,
        ",\"stale\":"@ == ","@ + "\""@ + "stale"@ + "\":"@,
{
    reveal_strlit("\"");
    reveal_strlit("\":");
    reveal_strlit(",");
    reveal_strlit("{");
    assert("{\"id\":"@ == "{"@ + "\""@ + "id"@ + "\":"@) by {
        reveal_strlit("id");
        reveal_strlit("{\"id\":");
        assert("{\"id\":"@ =~= "{"@ + "\""@ + "id"@ + "\":"@);
    }
    assert(",\"name\":"@ == ","@ + "\""@ + "name"@ + "\":"@) by {
        reveal_strlit("name");
        reveal_strlit(",\"name\":");
        assert(",\"name\":"@ =~= ","@ + "\""@ + "name"@ + "\":"@);
    }
    assert(",\"path\":"@ == ","@ + "\""@ + "path"@ + "\":"@) by {
        reveal_strlit("path");
        reveal_strlit(",\"path\":");
        assert(",\"path\":"@ =~= ","@ + "\""@ + "path"@ + "\":"@);
    }
    assert(",\"tip\":"@ == ","@ + "\""@ + "tip"@ + "\":"@) by {
        reveal_strlit("tip");
        reveal_strlit(",\"tip\":");
        assert(",\"tip\":"@ =~= ","@ + "\""@ + "tip"@ + "\":"@);
    }
    assert(",\"change\":"@ == ","@ + "\""@ + "change"@ + "\":"@) by {
        reveal_strlit("change");
        reveal_strlit(",\"change\":");
        assert(",\"change\":"@ =~= ","@ + "\""@ + "change"@ + "\":"@);
    }
    assert(",\"pr\":"@ == ","@ + "\""@ + "pr"@ + "\":"@) by {
        reveal_strlit("pr");
        reveal_strlit(",\"pr\":");
        assert(",\"pr\":"@ =~= ","@ + "\""@ + "pr"@ + "\":"@);
    }
    assert(",\"dirty\":"@ == ","@ + "\""@ + "dirty"@ + "\":"@) by {
        reveal_strlit("dirty");
        reveal_strlit(",\"dirty\":");
        assert(",\"dirty\":"@ =~= ","@ + "\""@ + "dirty"@ + "\":"@);
    }
    assert(",\"heartbeat_age\":"@ == ","@ + "\""@ + "heartbeat_age"@ + "\":"@) by {
        reveal_strlit("heartbeat_age");
        reveal_strlit(",\"heartbeat_age\":");
        assert(",\"heartbeat_age\":"@ =~= ","@ + "\""@ + "heartbeat_age"@ + "\":"@);
    }
    assert(",\"landed\":"@ == ","@ + "\""@ + "landed"@ + "\":"@) by {
        reveal_strlit("landed");
        reveal_strlit(",\"landed\":");
        assert(",\"landed\":"@ =~= ","@ + "\""@ + "landed"@ + "\":"@);
    }
    assert(",\"stale\":"@ == ","@ + "\""@ + "stale"@ + "\":"@) by {
        reveal_strlit("stale");
        reveal_strlit(",\"stale\":");
        assert(",\"stale\":"@ =~= ","@ + "\""@ + "stale"@ + "\":"@);
    }
}

/// An object that is not closed yet takes one more field.
proof fn lemma_object_grows(t: Seq<char>, fs: Seq<(Seq<char>, Seq<char>)>, h: Seq<char>, f: (Seq<char>, Seq<char>))
    requires
        fs.len() > 0,
        t == "{"@ + json_fields(fs),
        h == ","@ + "\""@ + f.0 + "\":"@,
    ensures
        t + h + f.1 == "{"@ + json_fields(fs.push(f)),
{
    lemma_one_field_more(fs, f);
    assert(t + h + f.1 =~= "{"@ + (json_fields(fs) + ","@ + json_field(f)));
}

/// A lane in JSON is an object of its id, name, path, tip, change, pull request, whether it
/// has changes, how long it has been silent, and whether it landed and is stale.
pub proof fn law_lane_is_an_object(r: LaneModel)
    ensures
        lane_json(r) == "{"@ + json_fields(
            seq![
                ("id"@, json_text(r.id)),
                ("name"@, json_word(r.name)),
                ("path"@, json_text(r.path)),
                ("tip"@, json_addr(r.tip)),
                ("change"@, json_word(r.change)),
                ("pr"@, json_number(r.pr)),
                ("dirty"@, json_opt_bool(r.dirty)),
                ("heartbeat_age"@, decimal(r.heartbeat_age as nat)),
                ("landed"@, json_bool(r.landed)),
                ("stale"@, json_bool(r.stale)),
            ],
        ) + "}"@,
{
    lemma_lane_names();
    let f0 = Seq::<(Seq<char>, Seq<char>)>::empty();
    let f1 = f0.push(("id"@, json_text(r.id)));
    lemma_one_field_more(f0, ("id"@, json_text(r.id)));
    let t1 = "{\"id\":"@ + json_text(r.id);
    assert(t1 =~= "{"@ + json_fields(f1));
    let f2 = f1.push(("name"@, json_word(r.name)));
    lemma_object_grows(t1, f1, ",\"name\":"@, ("name"@, json_word(r.name)));
    let t2 = t1 + ",\"name\":"@ + json_word(r.name);
    let f3 = f2.push(("path"@, json_text(r.path)));
    lemma_object_grows(t2, f2, ",\"path\":"@, ("path"@, json_text(r.path)));
    let t3 = t2 + ",\"path\":"@ + json_text(r.path);
    let f4 = f3.push(("tip"@, json_addr(r.tip)));
    lemma_object_grows(t3, f3, ",\"tip\":"@, ("tip"@, json_addr(r.tip)));
    let t4 = t3 + ",\"tip\":"@ + json_addr(r.tip);
    let f5 = f4.push(("change"@, json_word(r.change)));
    lemma_object_grows(t4, f4, ",\"change\":"@, ("change"@, json_word(r.change)));
    let t5 = t4 + ",\"change\":"@ + json_word(r.change);
    let f6 = f5.push(("pr"@, json_number(r.pr)));
    lemma_object_grows(t5, f5, ",\"pr\":"@, ("pr"@, json_number(r.pr)));
    let t6 = t5 + ",\"pr\":"@ + json_number(r.pr);
    let f7 = f6.push(("dirty"@, json_opt_bool(r.dirty)));
    lemma_object_grows(t6, f6, ",\"dirty\":"@, ("dirty"@, json_opt_bool(r.dirty)));
    let t7 = t6 + ",\"dirty\":"@ + json_opt_bool(r.dirty);
    let f8 = f7.push(("heartbeat_age"@, decimal(r.heartbeat_age as nat)));
    lemma_object_grows(t7, f7, ",\"heartbeat_age\":"@, ("heartbeat_age"@, decimal(r.heartbeat_age as nat)));
    let t8 = t7 + ",\"heartbeat_age\":"@ + decimal(r.heartbeat_age as nat);
    let f9 = f8.push(("landed"@, json_bool(r.landed)));
    lemma_object_grows(t8, f8, ",\"landed\":"@, ("landed"@, json_bool(r.landed)));
    let t9 = t8 + ",\"landed\":"@ + json_bool(r.landed);
    let f10 = f9.push(("stale"@, json_bool(r.stale)));
    lemma_object_grows(t9, f9, ",\"stale\":"@, ("stale"@, json_bool(r.stale)));
    let t10 = t9 + ",\"stale\":"@ + json_bool(r.stale);
    assert(lane_json(r) == t10 + "}"@);
    assert(f10 =~= seq![
        ("id"@, json_text(r.id)),
        ("name"@, json_word(r.name)),
        ("path"@, json_text(r.path)),
        ("tip"@, json_addr(r.tip)),
        ("change"@, json_word(r.change)),
        ("pr"@, json_number(r.pr)),
        ("dirty"@, json_opt_bool(r.dirty)),
        ("heartbeat_age"@, decimal(r.heartbeat_age as nat)),
        ("landed"@, json_bool(r.landed)),
        ("stale"@, json_bool(r.stale)),
    ]);
}

} // verus!
