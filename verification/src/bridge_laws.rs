//! What goes into the mirror's formats comes out again.

use crate::ancestry::Id;
use crate::bridge::{
    blank, ferry_in, ferry_rows, first_value, head_row, is_key, last_paragraph, main_row, mark_in,
    mark_row, marks_in, marks_text, oid_in, origin_word, trailer_block_of, trailer_line,
    trailer_lines, trailer_shaped, trailers_among, value_in, with_trailers, without_blank_end,
    without_trailers, FerryModel, MarkOrigin, MarksModel,
};
use crate::hex::{hex_text, law_hex_round_trip};
use crate::sorted::{among, lemma_among, lemma_entry, lemma_map_is_listed, lists, pairs_of};
use crate::split::{
    lemma_not_all_white, lemma_trim_end_is, lemma_trim_more, lemma_untouched, lemma_first_line,
    lemma_first_word, lemma_last_line, lemma_lines_back, lemma_one_word, lemma_place,
    lemma_place_is, lemma_trimmed, lines_of, one_line, one_word, place, split_at, without_return,
    words_of,
};
use crate::text::{begins_with, flat, joined, trimmed, trimmed_end, white};
use vstd::prelude::*;

verus! {

// ---------------------------------------------------------------------------
// Marks
// ---------------------------------------------------------------------------

/// Marks that can be written: each commit is named in one word, each change has 32
/// bytes, and each change has the commit that has it.
pub open spec fn paired(m: MarksModel) -> bool {
    &&& forall|sha: Seq<char>| #[trigger]
        m.by_sha.contains_key(sha) ==> one_word(sha) && m.by_sha[sha].0.len() == 32 && m.by_change.contains_key(
            m.by_sha[sha].0,
        ) && m.by_change[m.by_sha[sha].0] == sha
    &&& forall|id: Id| #[trigger]
        m.by_change.contains_key(id) ==> m.by_sha.contains_key(m.by_change[id])
            && m.by_sha[m.by_change[id]].0 == id
}

proof fn lemma_hex_word(id: Id)
    requires
        id.len() == 32,
    ensures
        one_word(hex_text(id)),
        oid_in(hex_text(id)) == Some(id),
{
    law_hex_round_trip(id);
    let h = hex_text(id);
    assert forall|i: int| 0 <= i < h.len() implies !white(#[trigger] h[i]) by {}
}

/// A mark's line without its end.
spec fn mark_words(e: (Seq<char>, (Id, MarkOrigin))) -> Seq<char> {
    e.0 + seq![' '] + (hex_text(e.1.0) + seq![' '] + origin_word(e.1.1))
}

proof fn lemma_mark_line(e: (Seq<char>, (Id, MarkOrigin)), n: nat)
    requires
        one_word(e.0),
        e.1.0.len() == 32,
    ensures
        mark_row(e) == mark_words(e) + seq!['\n'],
        one_line(mark_words(e)),
        without_return(mark_words(e)) == mark_words(e),
        mark_in(mark_words(e), n) == Ok::<Option<(Seq<char>, Id, MarkOrigin)>, Seq<char>>(
            Some((e.0, e.1.0, e.1.1)),
        ),
{
    reveal_strlit(" ");
    reveal_strlit("\n");
    reveal_strlit("loot");
    reveal_strlit("git");
    let h = hex_text(e.1.0);
    let o = origin_word(e.1.1);
    let s = mark_words(e);
    lemma_hex_word(e.1.0);
    assert(one_word(o));
    assert(mark_row(e) =~= s + seq!['\n']);
    assert forall|i: int| 0 <= i < s.len() implies #[trigger] s[i] != '\n' by {
        let a = e.0.len() as int;
        if i < a {
            assert(s[i] == e.0[i]);
        } else if i > a && i < a + 1 + h.len() {
            assert(s[i] == h[i - a - 1]);
        } else if i > a + 1 + h.len() {
            assert(s[i] == o[i - a - 2 - h.len()]);
        }
    }
    assert(s[0] == e.0[0]);
    assert(s.last() == o.last());
    lemma_trimmed(s);
    lemma_first_word(e.0, h + seq![' '] + o);
    lemma_first_word(h, o);
    lemma_one_word(o);
    let ws = words_of(s);
    assert(ws =~= seq![e.0, h, o]);
    assert("loot"@ != "git"@) by {
        assert("loot"@.len() == 4);
        assert("git"@.len() == 3);
    }
}

/// The marks come back from their text.
pub proof fn law_marks_round_trip(m: MarksModel)
    requires
        m.by_sha.dom().finite(),
        paired(m),
    ensures
        marks_in(lines_of(marks_text(m))) == Ok::<MarksModel, Seq<char>>(m),
{
    let s = pairs_of::<String, (Id, MarkOrigin)>(m.by_sha);
    lemma_map_is_listed::<String, (Id, MarkOrigin)>(m.by_sha);
    let f = |e: (Seq<char>, (Id, MarkOrigin))| mark_row(e);
    let ended = s.map_values(f);
    let rows = s.map_values(|e: (Seq<char>, (Id, MarkOrigin))| mark_words(e));
    assert forall|i: int| 0 <= i < s.len() implies one_word((#[trigger] s[i]).0) && s[i].1.0.len() == 32 by {
        lemma_entry::<String, (Id, MarkOrigin)>(s, i);
    }
    assert forall|i: int| 0 <= i < rows.len() implies #[trigger] ended[i] == rows[i] + seq!['\n'] by {
        lemma_mark_line(s[i], 0);
    }
    assert forall|i: int| 0 <= i < rows.len() implies one_line(#[trigger] rows[i]) && without_return(rows[i])
        == rows[i] by {
        lemma_mark_line(s[i], 0);
    }
    lemma_lines_back(rows, ended);
    lemma_marks_fold(m, s, s.len() as int);
    assert(rows.take(s.len() as int) =~= rows);
    let r = marks_in(rows)->Ok_0;
    lemma_among::<String, (Id, MarkOrigin)>(s, s.len() as int);
    assert(r.by_sha =~= m.by_sha);
    assert(r.by_change =~= m.by_change);
}

proof fn lemma_marks_fold(m: MarksModel, s: Seq<(Seq<char>, (Id, MarkOrigin))>, i: int)
    requires
        lists::<String, (Id, MarkOrigin)>(s, m.by_sha),
        paired(m),
        0 <= i <= s.len(),
    ensures
        ({
            let rows = s.map_values(|e: (Seq<char>, (Id, MarkOrigin))| mark_words(e));
            let r = marks_in(rows.take(i));
            &&& r is Ok
            &&& forall|k: Seq<char>| #[trigger] r->Ok_0.by_sha.contains_key(k) <==> among(s, i, k)
            &&& forall|k: Seq<char>| #[trigger]
                r->Ok_0.by_sha.contains_key(k) ==> r->Ok_0.by_sha[k] == m.by_sha[k]
            &&& forall|id: Id| #[trigger]
                r->Ok_0.by_change.contains_key(id) <==> m.by_change.contains_key(id) && among(
                    s,
                    i,
                    m.by_change[id],
                )
            &&& forall|id: Id| #[trigger]
                r->Ok_0.by_change.contains_key(id) ==> r->Ok_0.by_change[id] == m.by_change[id]
        }),
    decreases i,
{
    let g = |e: (Seq<char>, (Id, MarkOrigin))| mark_words(e);
    let rows = s.map_values(g);
    lemma_among::<String, (Id, MarkOrigin)>(s, i);
    if i > 0 {
        lemma_marks_fold(m, s, i - 1);
        lemma_among::<String, (Id, MarkOrigin)>(s, i - 1);
        let t = rows.take(i);
        assert(t.drop_last() =~= rows.take(i - 1));
        let e = s[i - 1];
        assert(t.last() == mark_words(e));
        lemma_entry::<String, (Id, MarkOrigin)>(s, i - 1);
        assert(m.by_sha.contains_key(e.0));
        lemma_mark_line(e, i as nat);
        let r = marks_in(t)->Ok_0;
        assert forall|id: Id| #[trigger]
            r.by_change.contains_key(id) <==> m.by_change.contains_key(id) && among(s, i, m.by_change[id]) by {
            if m.by_change.contains_key(id) && m.by_change[id] == e.0 {
                assert(m.by_sha[e.0].0 == id);
            }
        }
    } else {
        assert(rows.take(0) =~= Seq::<Seq<char>>::empty());
    }
}

// ---------------------------------------------------------------------------
// Where both sides last agreed
// ---------------------------------------------------------------------------

/// What can be written: a commit with something in it and no white space around it,
/// on one line; and heads of 32 bytes.
pub open spec fn writable(m: FerryModel) -> bool {
    &&& m.git_main matches Some(sha) ==> sha.len() > 0 && one_line(sha) && trimmed(sha) == sha
    &&& forall|i: int| 0 <= i < m.loot_heads.len() ==> (#[trigger] m.loot_heads[i]).len() == 32
}

/// A word, a blank and what stands behind it, as a line.
proof fn lemma_entry_line(word: Seq<char>, rest: Seq<char>)
    requires
        one_word(word),
        rest.len() > 0,
        one_line(rest),
        !white(rest[0]),
        !white(rest.last()),
    ensures
        ({
            let s = word + seq![' '] + rest;
            &&& one_line(s)
            &&& without_return(s) == s
            &&& trimmed(s) == s
            &&& s.len() > 0
            &&& split_at(s, ' ') == Some((word, rest))
            &&& trimmed(rest) == rest
        }),
{
    let s = word + seq![' '] + rest;
    let n = word.len() as int;
    assert forall|i: int| 0 <= i < s.len() implies #[trigger] s[i] != '\n' by {
        if i < n {
            assert(s[i] == word[i]);
        } else if i > n {
            assert(s[i] == rest[i - n - 1]);
        }
    }
    assert(s[0] == word[0]);
    assert(s.last() == rest.last());
    lemma_trimmed(s);
    lemma_trimmed(rest);
    assert forall|i: int| 0 <= i < n implies s[i] != ' ' by {
        assert(s[i] == word[i]);
    }
    lemma_place_is(s, ' ', n);
    assert(s.take(n) =~= word);
    assert(s.skip(n + 1) =~= rest);
}

/// A line of it without its end.
spec fn ferry_words(m: FerryModel) -> Seq<Seq<char>> {
    let heads = m.loot_heads.map_values(|id: Id| "loot-head"@ + seq![' '] + hex_text(id));
    match m.git_main {
        Some(sha) => seq!["git-main"@ + seq![' '] + sha] + heads,
        None => heads,
    }
}

proof fn lemma_ferry_words()
    ensures
        one_word("git-main"@),
        one_word("loot-head"@),
        "git-main"@ != "loot-head"@,
        "git-main "@ == "git-main"@ + seq![' '],
        "loot-head "@ == "loot-head"@ + seq![' '],
        "\n"@ == seq!['\n'],
{
    reveal_strlit("git-main");
    reveal_strlit("git-main ");
    reveal_strlit("loot-head");
    reveal_strlit("loot-head ");
    reveal_strlit("\n");
    assert("git-main "@ =~= "git-main"@ + seq![' ']);
    assert("loot-head "@ =~= "loot-head"@ + seq![' ']);
    assert("\n"@ =~= seq!['\n']);
    assert("git-main"@.len() != "loot-head"@.len());
}

/// Where both sides last agreed comes back from its text.
pub proof fn law_ferry_state_round_trip(m: FerryModel)
    requires
        writable(m),
    ensures
        ferry_in(lines_of(flat(ferry_rows(m)))) == Ok::<FerryModel, Seq<char>>(m),
{
    lemma_ferry_words();
    let ended = ferry_rows(m);
    let rows = ferry_words(m);
    let k: int = if m.git_main is Some {
        1
    } else {
        0
    };
    assert(ended.len() == rows.len());
    if let Some(sha) = m.git_main {
        lemma_untouched(sha);
        lemma_entry_line("git-main"@, sha);
    }
    assert forall|i: int| 0 <= i < rows.len() implies #[trigger] ended[i] == rows[i] + seq!['\n'] && one_line(
        rows[i],
    ) && without_return(rows[i]) == rows[i] by {
        if i >= k {
            let id = m.loot_heads[i - k];
            lemma_hex_word(id);
            assert(one_line(hex_text(id)));
            lemma_entry_line("loot-head"@, hex_text(id));
            assert(ended[i] == head_row(id));
        } else {
            assert(ended[i] == main_row(m.git_main->Some_0));
        }
    }
    lemma_lines_back(rows, ended);
    lemma_ferry_fold(m, k, m.loot_heads.len() as int);
    assert(rows.take(rows.len() as int) =~= rows);
    assert(m.loot_heads.take(m.loot_heads.len() as int) =~= m.loot_heads);
}

proof fn lemma_ferry_fold(m: FerryModel, k: int, i: int)
    requires
        writable(m),
        k == (if m.git_main is Some {
            1int
        } else {
            0int
        }),
        0 <= i <= m.loot_heads.len(),
    ensures
        ferry_in(ferry_words(m).take(k + i)) == Ok::<FerryModel, Seq<char>>(
            FerryModel { git_main: m.git_main, loot_heads: m.loot_heads.take(i) },
        ),
    decreases i,
{
    lemma_ferry_words();
    let rows = ferry_words(m);
    if i > 0 {
        lemma_ferry_fold(m, k, i - 1);
        let t = rows.take(k + i);
        assert(t.drop_last() =~= rows.take(k + i - 1));
        let id = m.loot_heads[i - 1];
        assert(t.last() == "loot-head"@ + seq![' '] + hex_text(id));
        lemma_hex_word(id);
        assert(one_line(hex_text(id)));
        lemma_entry_line("loot-head"@, hex_text(id));
        assert(m.loot_heads.take(i) =~= m.loot_heads.take(i - 1).push(id));
    } else {
        assert(m.loot_heads.take(0) =~= Seq::<Id>::empty());
        if let Some(sha) = m.git_main {
            lemma_untouched(sha);
            lemma_entry_line("git-main"@, sha);
            let t = rows.take(1);
            assert(t.drop_last() =~= Seq::<Seq<char>>::empty());
            assert(t.last() == "git-main"@ + seq![' '] + sha);
            assert(ferry_in(t.drop_last()) is Ok);
        } else {
            assert(rows.take(0) =~= Seq::<Seq<char>>::empty());
        }
    }
}

// ---------------------------------------------------------------------------
// Trailers
// ---------------------------------------------------------------------------

/// Trailers that can be written: their keys are keys, and each value is on one line.
pub open spec fn good_trailers(ts: Seq<(Seq<char>, Seq<char>)>) -> bool {
    forall|i: int| 0 <= i < ts.len() ==> is_key((#[trigger] ts[i]).0) && one_line(ts[i].1)
}

/// The value of the first of these trailers with that key.
pub open spec fn given_value(ts: Seq<(Seq<char>, Seq<char>)>, key: Seq<char>) -> Option<Seq<char>>
    decreases ts.len(),
{
    if ts.len() == 0 {
        None
    } else if ts[0].0 == key {
        Some(trimmed(ts[0].1))
    } else {
        given_value(ts.skip(1), key)
    }
}

/// A text in which no carriage return stands before a line feed.
pub open spec fn no_returns(s: Seq<char>) -> bool {
    forall|i: int| 0 <= i < s.len() - 1 && #[trigger] s[i] == '\r' ==> s[i + 1] != '\n'
}

/// Trimming stops within the last part, if something is left of it.
proof fn lemma_trim_last(a: Seq<char>, b: Seq<char>)
    requires
        trimmed_end(b).len() > 0,
    ensures
        trimmed_end(a + b) == a + trimmed_end(b),
    decreases b.len(),
{
    assert((a + b).last() == b.last());
    if white(b.last()) {
        assert((a + b).drop_last() =~= a + b.drop_last());
        lemma_trim_last(a, b.drop_last());
    }
}

/// How a trailer may look in a message: a key, a colon, and the value with white
/// space around it or not.
spec fn looks_like(line: Seq<char>, t: (Seq<char>, Seq<char>)) -> bool {
    exists|w: Seq<char>| line == #[trigger] (t.0 + seq![':'] + w) && trimmed(w) == trimmed(t.1)
}

proof fn lemma_key_has_no_colon(k: Seq<char>)
    requires
        is_key(k),
    ensures
        forall|i: int| 0 <= i < k.len() ==> #[trigger] k[i] != ':' && !white(k[i]) && k[i] != '\n',
{
}

/// A line that looks like a trailer is one, is not blank, and has its value.
proof fn lemma_trailer_line(line: Seq<char>, t: (Seq<char>, Seq<char>), key: Seq<char>)
    requires
        is_key(t.0),
        is_key(key),
        looks_like(line, t),
    ensures
        trailer_shaped(line),
        !blank(line),
        line.len() > 0,
        value_in(line, key) == (if t.0 == key {
            Some(trimmed(t.1))
        } else {
            None::<Seq<char>>
        }),
{
    reveal_strlit(":");
    let w = choose|w: Seq<char>| line == #[trigger] (t.0 + seq![':'] + w) && trimmed(w) == trimmed(t.1);
    let n = t.0.len() as int;
    lemma_key_has_no_colon(t.0);
    lemma_key_has_no_colon(key);
    assert forall|i: int| 0 <= i < n implies line[i] != ':' by {
        assert(line[i] == t.0[i]);
    }
    assert(line[n] == ':');
    lemma_place_is(line, ':', n);
    assert(line.take(n) =~= t.0);
    assert(line[0] == t.0[0]);
    lemma_not_all_white(line, 0);
    let m = key.len() as int;
    if t.0 == key {
        assert(line.take(m) =~= key);
        assert(begins_with(line, key));
        let rest = line.skip(m);
        assert(rest =~= seq![':'] + w);
        assert(rest.take(1) =~= ":"@);
        assert(begins_with(rest, ":"@));
        assert(rest.skip(1) =~= w);
        assert(":"@.len() == 1);
    } else if begins_with(line, key) {
        let rest = line.skip(m);
        if begins_with(rest, ":"@) {
            assert(rest[0] == ":"@[0]);
            assert(line[m] == ':');
            if m < n {
                assert(line[m] == t.0[m]);
            }
            if m > n {
                assert(key[n] == line[n]);
            }
            assert(key =~= t.0) by {
                assert forall|i: int| 0 <= i < m implies key[i] == t.0[i] by {
                    assert(key[i] == line[i]);
                }
            }
        }
    }
}

/// Taking white space off a trailer's end leaves a trailer.
proof fn lemma_trailer_looks(t: (Seq<char>, Seq<char>))
    requires
        is_key(t.0),
        one_line(t.1),
    ensures
        one_line(trailer_line(t)),
        looks_like(without_return(trailer_line(t)), t),
        looks_like(trimmed_end(trailer_line(t)), t),
        trimmed_end(trailer_line(t)).len() > 0,
        one_line(trimmed_end(trailer_line(t))),
{
    reveal_strlit(": ");
    let s = trailer_line(t);
    let n = t.0.len() as int;
    assert(s =~= t.0 + seq![':'] + (seq![' '] + t.1));
    lemma_key_has_no_colon(t.0);
    assert forall|i: int| 0 <= i < s.len() implies #[trigger] s[i] != '\n' by {
        if i < n {
            assert(s[i] == t.0[i]);
        } else if i >= n + 2 {
            assert(s[i] == t.1[i - n - 2]);
        }
    }
    assert(s[n] == ':');
    assert(!white(':'));
    // Any beginning that keeps the colon, and drops white space only, looks the same.
    assert forall|e: int| n < e <= s.len() && (forall|i: int| e <= i < s.len() ==> white(#[trigger] s[i])) implies
        looks_like(#[trigger] s.take(e), t) by {
        let w = s.subrange(n + 1, e);
        assert(s.take(e) =~= t.0 + seq![':'] + w);
        let full = seq![' '] + t.1;
        assert(full =~= s.skip(n + 1));
        assert(w =~= full.subrange(0, e - n - 1));
        assert forall|i: int| e - n - 1 <= i < full.len() implies white(#[trigger] full[i]) by {
            assert(full[i] == s[i + n + 1]);
        }
        lemma_trim_more(full, w, 0, e - n - 1);
        assert(t.1 =~= full.subrange(1, full.len() as int));
        lemma_trim_more(full, t.1, 1, full.len() as int);
    }
    lemma_not_all_white(s, n);
    lemma_trim_end_is(s);
    let e = trimmed_end(s).len() as int;
    assert(looks_like(s.take(e), t));
    assert forall|i: int| 0 <= i < e implies #[trigger] trimmed_end(s)[i] != '\n' by {
        assert(trimmed_end(s)[i] == s[i]);
    }
    if s.last() == '\r' {
        let c = s.len() - 1;
        assert(s.drop_last() =~= s.take(c));
        assert(looks_like(s.take(c), t));
    } else {
        assert(s.take(s.len() as int) =~= s);
        assert(looks_like(s.take(s.len() as int), t));
    }
}

/// Ending a line that was not ended makes no other lines.
proof fn lemma_end_line(m: Seq<char>)
    requires
        m.len() > 0,
        !white(m.last()),
    ensures
        lines_of(m + seq!['\n']) == lines_of(m),
        lines_of(m).len() > 0,
        !blank(lines_of(m).last()),
    decreases m.len(),
{
    lemma_place(m, '\n');
    let n = place(m, '\n');
    if n < m.len() {
        let head = m.take(n);
        let rest = m.skip(n + 1);
        assert(m =~= head + seq!['\n'] + rest);
        assert(one_line(head)) by {
            assert forall|i: int| 0 <= i < head.len() implies #[trigger] head[i] != '\n' by {
                assert(head[i] == m[i]);
            }
        }
        assert(m.last() != '\n');
        assert(rest.len() > 0);
        assert(rest.last() == m.last());
        lemma_end_line(rest);
        lemma_first_line(head, rest);
        lemma_first_line(head, rest + seq!['\n']);
        assert(m + seq!['\n'] =~= head + seq!['\n'] + (rest + seq!['\n']));
        assert(lines_of(m).last() == lines_of(rest).last());
    } else {
        lemma_first_line(m, Seq::empty());
        assert(m + seq!['\n'] =~= m + seq!['\n'] + Seq::<char>::empty());
        assert(lines_of(m) =~= seq![m]);
        assert(m.last() != '\r');
        assert(lines_of(m + seq!['\n']) =~= seq![m]);
        lemma_not_all_white(m, m.len() - 1);
    }
}

/// Lines that were not ended by a carriage return join to what they were.
proof fn lemma_join_lines(m: Seq<char>)
    requires
        m.len() > 0,
        !white(m.last()),
        no_returns(m),
    ensures
        joined(lines_of(m), seq!['\n']) == m,
    decreases m.len(),
{
    lemma_place(m, '\n');
    let n = place(m, '\n');
    if n < m.len() {
        let head = m.take(n);
        let rest = m.skip(n + 1);
        assert(m =~= head + seq!['\n'] + rest);
        assert(one_line(head)) by {
            assert forall|i: int| 0 <= i < head.len() implies #[trigger] head[i] != '\n' by {
                assert(head[i] == m[i]);
            }
        }
        assert(rest.len() > 0);
        assert(rest.last() == m.last());
        if head.len() > 0 && head.last() == '\r' {
            assert(m[n - 1] == '\r');
            assert(m[n] == '\n');
        }
        assert forall|i: int| 0 <= i < rest.len() - 1 && #[trigger] rest[i] == '\r' implies rest[i + 1] != '\n' by {
            assert(m[n + 1 + i] == '\r');
            assert(m[n + 1 + i + 1] == rest[i + 1]);
        }
        lemma_join_lines(rest);
        lemma_end_line(rest);
        lemma_first_line(head, rest);
        lemma_joined_front(head, lines_of(rest), seq!['\n']);
    } else {
        assert(lines_of(m) =~= seq![m]);
    }
}

proof fn lemma_joined_front(x: Seq<char>, parts: Seq<Seq<char>>, sep: Seq<char>)
    requires
        parts.len() > 0,
    ensures
        joined(seq![x] + parts, sep) == x + sep + joined(parts, sep),
    decreases parts.len(),
{
    let all = seq![x] + parts;
    assert(all.drop_last() =~= seq![x] + parts.drop_last());
    assert(all.last() == parts.last());
    if parts.len() == 1 {
        assert(all.drop_last() =~= seq![x]);
        assert(joined(all.drop_last(), sep) == x);
    } else {
        lemma_joined_front(x, parts.drop_last(), sep);
        assert(joined(all, sep) =~= x + sep + joined(parts, sep));
    }
}

/// The lines of a text with more lines behind it: all ended but the last, which has
/// no white space at its end.
proof fn lemma_more_lines(front: Seq<char>, ts: Seq<(Seq<char>, Seq<char>)>) -> (more: Seq<Seq<char>>)
    requires
        front.len() > 0,
        front.last() == '\n',
        ts.len() > 0,
        good_trailers(ts),
    ensures
        lines_of(trimmed_end(front + joined(trailer_lines(ts), seq!['\n']))) == lines_of(front) + more,
        more.len() == ts.len(),
        forall|i: int| 0 <= i < ts.len() ==> looks_like(#[trigger] more[i], ts[i]),
{
    let n = ts.len() - 1;
    let init = ts.take(n);
    let j = lemma_ended_lines(front, init);
    let last = ts[n];
    assert(is_key(last.0) && one_line(last.1));
    lemma_trailer_looks(last);
    let rows = trailer_lines(ts);
    let head = ended_text(init);
    lemma_joined_ended(ts);
    let p = front + head;
    assert(front + joined(rows, seq!['\n']) =~= p + trailer_line(last));
    lemma_trim_last(p, trailer_line(last));
    lemma_last_line(p, trimmed_end(trailer_line(last)));
    let more = j.push(trimmed_end(trailer_line(last)));
    assert(lines_of(p + trimmed_end(trailer_line(last))) =~= lines_of(front) + more);
    assert forall|i: int| 0 <= i < ts.len() implies looks_like(#[trigger] more[i], ts[i]) by {
        if i < n {
            assert(looks_like(j[i], init[i]));
        }
    }
    more
}

/// Trailers, each on a line that is ended.
spec fn ended_text(ts: Seq<(Seq<char>, Seq<char>)>) -> Seq<char>
    decreases ts.len(),
{
    if ts.len() == 0 {
        Seq::empty()
    } else {
        ended_text(ts.drop_last()) + trailer_line(ts.last()) + seq!['\n']
    }
}

proof fn lemma_joined_ended(ts: Seq<(Seq<char>, Seq<char>)>)
    requires
        ts.len() > 0,
    ensures
        joined(trailer_lines(ts), seq!['\n']) == ended_text(ts.drop_last()) + trailer_line(ts.last()),
    decreases ts.len(),
{
    let rows = trailer_lines(ts);
    if ts.len() == 1 {
        assert(ts.drop_last() =~= Seq::<(Seq<char>, Seq<char>)>::empty());
        assert(joined(rows, seq!['\n']) == rows[0]);
        assert(joined(rows, seq!['\n']) =~= ended_text(ts.drop_last()) + trailer_line(ts.last()));
    } else {
        lemma_joined_ended(ts.drop_last());
        assert(rows.drop_last() =~= trailer_lines(ts.drop_last()));
        assert(rows.last() == trailer_line(ts.last()));
        assert(joined(rows, seq!['\n']) =~= ended_text(ts.drop_last()) + trailer_line(ts.last()));
    }
}

proof fn lemma_ended_lines(front: Seq<char>, ts: Seq<(Seq<char>, Seq<char>)>) -> (more: Seq<Seq<char>>)
    requires
        front.len() > 0,
        front.last() == '\n',
        good_trailers(ts),
    ensures
        lines_of(front + ended_text(ts)) == lines_of(front) + more,
        (front + ended_text(ts)).last() == '\n',
        more.len() == ts.len(),
        forall|i: int| 0 <= i < ts.len() ==> looks_like(#[trigger] more[i], ts[i]),
    decreases ts.len(),
{
    if ts.len() == 0 {
        assert(front + ended_text(ts) =~= front);
        let more = Seq::<Seq<char>>::empty();
        assert(lines_of(front) + more =~= lines_of(front));
        more
    } else {
        let init = ts.drop_last();
        assert forall|i: int| 0 <= i < init.len() implies is_key((#[trigger] init[i]).0) && one_line(init[i].1) by {
            assert(init[i] == ts[i]);
        }
        let j = lemma_ended_lines(front, init);
        let last = ts[ts.len() - 1];
        assert(is_key(last.0) && one_line(last.1));
        lemma_trailer_looks(last);
        lemma_last_line(front + ended_text(init), trailer_line(last));
        assert(front + ended_text(ts) =~= front + ended_text(init) + trailer_line(last) + seq!['\n']);
        let more = j.push(without_return(trailer_line(last)));
        assert(lines_of(front + ended_text(ts)) =~= lines_of(front) + more);
        assert forall|i: int| 0 <= i < ts.len() implies looks_like(#[trigger] more[i], ts[i]) by {
            if i < ts.len() - 1 {
                assert(looks_like(j[i], init[i]));
            }
        }
        more
    }
}

/// A paragraph grows by the lines behind it that are not blank.
proof fn lemma_paragraph_grows(a: Seq<Seq<char>>, b: Seq<Seq<char>>)
    requires
        forall|i: int| 0 <= i < b.len() ==> !blank(#[trigger] b[i]),
    ensures
        last_paragraph(a + b) == b.len() + last_paragraph(a),
    decreases b.len(),
{
    if b.len() == 0 {
        assert(a + b =~= a);
    } else {
        assert((a + b).last() == b[b.len() - 1]);
        assert((a + b).drop_last() =~= a + b.drop_last());
        assert forall|i: int| 0 <= i < b.drop_last().len() implies !blank(#[trigger] b.drop_last()[i]) by {
            assert(!blank(b[i]));
        }
        lemma_paragraph_grows(a, b.drop_last());
    }
}

proof fn lemma_paragraph_len(a: Seq<Seq<char>>)
    ensures
        last_paragraph(a) <= a.len(),
    decreases a.len(),
{
    if a.len() > 0 {
        lemma_paragraph_len(a.drop_last());
    }
}

/// The lines of a message with trailers: those of the message, perhaps a blank one,
/// and the trailers.
proof fn lemma_message_lines(message: Seq<char>, ts: Seq<(Seq<char>, Seq<char>)>) -> (r: (
    Seq<Seq<char>>,
    Seq<Seq<char>>,
))
    requires
        ts.len() > 0,
        good_trailers(ts),
    ensures
        lines_of(trimmed_end(with_trailers(message, ts))) == r.0 + r.1,
        r.1.len() == ts.len(),
        forall|i: int| 0 <= i < ts.len() ==> looks_like(#[trigger] r.1[i], ts[i]),
        ({
            let m = trimmed_end(message);
            if trailer_block_of(m).len() > 0 {
                r.0 == lines_of(m)
            } else if m.len() > 0 {
                r.0 == lines_of(m).push(Seq::<char>::empty())
            } else {
                r.0 == seq![Seq::<char>::empty(), Seq::<char>::empty()]
            }
        }),
{
    reveal_strlit("\n");
    reveal_strlit("\n\n");
    let m = trimmed_end(message);
    lemma_trim_end_is(message);
    let nl = seq!['\n'];
    assert("\n"@ =~= nl);
    assert("\n\n"@ =~= nl + nl);
    let j = joined(trailer_lines(ts), nl);
    let none = Seq::<char>::empty();
    assert(one_line(none));
    if trailer_block_of(m).len() > 0 {
        assert(m.len() > 0) by {
            if m.len() == 0 {
                assert(lines_of(m).len() == 0);
            }
        }
        lemma_end_line(m);
        let more = lemma_more_lines(m + nl, ts);
        assert(with_trailers(message, ts) == m + nl + j);
        (lines_of(m), more)
    } else {
        let front = m + nl + nl;
        if m.len() > 0 {
            lemma_end_line(m);
        } else {
            lemma_first_line(none, none);
            assert(m + nl =~= none + nl + none);
            assert(lines_of(m + nl) =~= seq![none]);
        }
        lemma_last_line(m + nl, none);
        assert(m + nl + none + nl =~= front);
        let more = lemma_more_lines(front, ts);
        assert(with_trailers(message, ts) =~= front + j);
        if m.len() == 0 {
            assert(lines_of(front) =~= seq![none, none]);
        }
        (lines_of(front), more)
    }
}

/// The trailers of a message with trailers: those that it had, and the new ones.
proof fn lemma_new_block(message: Seq<char>, ts: Seq<(Seq<char>, Seq<char>)>) -> (r: (
    Seq<Seq<char>>,
    Seq<Seq<char>>,
))
    requires
        ts.len() > 0,
        good_trailers(ts),
    ensures
        lines_of(trimmed_end(with_trailers(message, ts))) == r.0 + r.1,
        trailer_block_of(with_trailers(message, ts)) == trailer_block_of(message) + r.1,
        r.1.len() == ts.len(),
        forall|i: int| 0 <= i < ts.len() ==> looks_like(#[trigger] r.1[i], ts[i]),
        ({
            let m = trimmed_end(message);
            if trailer_block_of(message).len() > 0 {
                r.0 == lines_of(m)
            } else if m.len() > 0 {
                r.0 == lines_of(m).push(Seq::<char>::empty())
            } else {
                r.0 == seq![Seq::<char>::empty(), Seq::<char>::empty()]
            }
        }),
{
    lemma_trim_end_is(message);
    let (a, b) = lemma_message_lines(message, ts);
    assert forall|i: int| 0 <= i < b.len() implies !blank(#[trigger] b[i]) && trailer_shaped(b[i]) by {
        assert(looks_like(b[i], ts[i]));
        assert(is_key(ts[i].0));
        lemma_trailer_line(b[i], ts[i], ts[i].0);
    }
    lemma_paragraph_grows(a, b);
    lemma_paragraph_len(a);
    let ls = a + b;
    let k = last_paragraph(ls) as int;
    let old_block = trailer_block_of(message);
    if old_block.len() > 0 {
        let p = last_paragraph(a) as int;
        assert(a.skip(a.len() - p) == old_block);
        assert(ls.skip(ls.len() - k) =~= old_block + b);
        let block = old_block + b;
        assert forall|i: int| 0 <= i < block.len() implies trailer_shaped(#[trigger] block[i]) by {
            if i < old_block.len() {
                assert(trailer_shaped(a.skip(a.len() - p)[i]));
            } else {
                assert(block[i] == b[i - old_block.len()]);
            }
        }
        assert(trailers_among(ls) == block);
    } else {
        assert(blank(a.last()));
        assert(last_paragraph(a) == 0);
        assert(ls.skip(ls.len() - k) =~= b);
        assert(trailers_among(ls) =~= old_block + b);
    }
    (a, b)
}

/// Taking the trailers off a message again leaves what the message was without
/// trailers, if its lines do not end in carriage returns.
pub proof fn law_trailers_come_off(message: Seq<char>, ts: Seq<(Seq<char>, Seq<char>)>)
    requires
        good_trailers(ts),
        no_returns(message),
    ensures
        without_trailers(with_trailers(message, ts)) == without_trailers(message),
{
    reveal_strlit("\n");
    assert("\n"@ =~= seq!['\n']);
    lemma_trim_end_is(message);
    let m = trimmed_end(message);
    if ts.len() == 0 {
        assert(without_trailers(m) == without_trailers(message));
    } else {
        let (a, b) = lemma_new_block(message, ts);
        let all = with_trailers(message, ts);
        lemma_trim_end_is(all);
        let t = trimmed_end(all);
        let ls = a + b;
        let k = trailer_block_of(t).len();
        assert(k == trailer_block_of(message).len() + b.len());
        if trailer_block_of(message).len() > 0 {
            let p = trailer_block_of(message).len();
            assert(ls.take(ls.len() - k) =~= a.take(a.len() - p));
        } else {
            assert(ls.take(ls.len() - k) =~= a);
            let none = Seq::<char>::empty();
            assert(blank(none));
            if m.len() > 0 {
                lemma_end_line(m);
                assert(a.drop_last() =~= lines_of(m));
                assert(without_blank_end(a) == without_blank_end(lines_of(m)));
                assert(without_blank_end(lines_of(m)) == lines_of(m));
                assert(no_returns(m)) by {
                    assert forall|i: int| 0 <= i < m.len() - 1 && #[trigger] m[i] == '\r' implies m[i + 1] != '\n' by {
                        assert(message[i] == m[i]);
                        assert(message[i + 1] == m[i + 1]);
                    }
                }
                lemma_join_lines(m);
            } else {
                assert(a.drop_last() =~= seq![none]);
                assert(a.drop_last().drop_last() =~= Seq::<Seq<char>>::empty());
                assert(without_blank_end(a.drop_last()) == without_blank_end(a.drop_last().drop_last()));
                assert(without_blank_end(a) =~= Seq::<Seq<char>>::empty());
                assert(joined(without_blank_end(a), seq!['\n']) =~= m);
            }
        }
    }
}

proof fn lemma_first_value_joins(a: Seq<Seq<char>>, b: Seq<Seq<char>>, key: Seq<char>)
    ensures
        first_value(a + b, key) == (match first_value(a, key) {
            Some(v) => Some(v),
            None => first_value(b, key),
        }),
    decreases a.len(),
{
    if a.len() == 0 {
        assert(a + b =~= b);
    } else {
        assert((a + b)[0] == a[0]);
        assert((a + b).skip(1) =~= a.skip(1) + b);
        lemma_first_value_joins(a.skip(1), b, key);
    }
}

proof fn lemma_values_given(ls: Seq<Seq<char>>, ts: Seq<(Seq<char>, Seq<char>)>, key: Seq<char>)
    requires
        ls.len() == ts.len(),
        good_trailers(ts),
        is_key(key),
        forall|i: int| 0 <= i < ts.len() ==> looks_like(#[trigger] ls[i], ts[i]),
    ensures
        first_value(ls, key) == given_value(ts, key),
    decreases ls.len(),
{
    if ls.len() > 0 {
        assert(looks_like(ls[0], ts[0]));
        assert(is_key(ts[0].0));
        lemma_trailer_line(ls[0], ts[0], key);
        assert forall|i: int| 0 <= i < ts.skip(1).len() implies looks_like(#[trigger] ls.skip(1)[i], ts.skip(1)[i]) by {
            assert(looks_like(ls[i + 1], ts[i + 1]));
        }
        assert forall|i: int| 0 <= i < ts.skip(1).len() implies is_key((#[trigger] ts.skip(1)[i]).0) && one_line(
            ts.skip(1)[i].1,
        ) by {
            assert(is_key(ts[i + 1].0));
        }
        lemma_values_given(ls.skip(1), ts.skip(1), key);
    }
}

/// A trailer that was put on a message is found in it, unless the message had one
/// with that key before.
pub proof fn law_trailers_are_found(message: Seq<char>, ts: Seq<(Seq<char>, Seq<char>)>, key: Seq<char>)
    requires
        good_trailers(ts),
        is_key(key),
    ensures
        first_value(trailer_block_of(with_trailers(message, ts)), key) == (match first_value(
            trailer_block_of(message),
            key,
        ) {
            Some(v) => Some(v),
            None => given_value(ts, key),
        }),
{
    lemma_trim_end_is(message);
    if ts.len() > 0 {
        let (a, b) = lemma_new_block(message, ts);
        lemma_first_value_joins(trailer_block_of(message), b, key);
        lemma_values_given(b, ts, key);
    }
}

} // verus!
