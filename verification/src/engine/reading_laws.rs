//! Who reads what, and which files a change gives them.

use crate::ancestry::Id;
use crate::crypto::aes_gcm_opened;
use crate::path_map::{PathKey, Placed};
use crate::sealed::grant_ids_of;
use crate::seqs::{lemma_filter_none, lemma_filter_step};
use crate::sorted::{lemma_entry, lemma_map_is_listed, pairs_of, place_of};
use crate::types::{ErrorModel, TreeModel, VisibilityModel};
use super::custody::{surfaced, surfaced_change};
use super::laws::{after_flush, law_embargo_ends};
use super::{got, own_read, seals, with_content, RepoModel, Sealing};
use vstd::prelude::*;

verus! {

// ---------------------------------------------------------------------------
// Content
// ---------------------------------------------------------------------------

/// Content is sealed for everyone, unless it is restricted: then for those named, and
/// no one else.
pub proof fn law_sealed_for_whom(vis: VisibilityModel, who: Seq<char>)
    ensures
        grant_ids_of(vis).contains(who) <==> match vis {
            VisibilityModel::Restricted(ids) => ids.contains(who),
            _ => who == "*"@,
        },
{
    if !(vis is Restricted) {
        assert(grant_ids_of(vis)[0] == crate::sealed::ANYONE@);
    }
}

/// The embargo on an object is not over.
pub open spec fn is_held_back(m: RepoModel, oid: Id, now: u64) -> bool {
    m.objects[oid].vis matches VisibilityModel::Embargoed { reveal_at } && now < reveal_at
}

/// The object is open to a reader: it was sealed for them or for everyone, or they are
/// who keeps this repository and have a grant on record that has not run out.
pub open spec fn is_open_to(m: RepoModel, oid: Id, reader: Seq<char>, now: u64) -> bool {
    ||| m.objects[oid].grant_ids.contains("*"@)
    ||| m.objects[oid].grant_ids.contains(reader)
    ||| reader == m.identity && m.manifest.contains_key((oid, reader)) && match m.manifest[(oid, reader)].expires_at {
        Some(t) => now < t,
        None => true,
    }
}

/// Someone reads an object just where it is here, its embargo is over, it is open to
/// them, and its key is on the ring and opens it. They get what the key opens. What
/// stands in the way first is told.
pub proof fn law_who_reads_what(m: RepoModel, oid: Id, reader: Seq<char>, now: u64)
    ensures
        ({
            let r = got(m, oid, reader, now);
            let o = m.objects[oid];
            let plain = aes_gcm_opened(m.keys[oid], o.nonce, o.ciphertext);
            &&& r is Ok <==> m.objects.contains_key(oid) && !is_held_back(m, oid, now) && is_open_to(m, oid, reader, now)
                && m.keys.contains_key(oid) && plain is Some
            &&& r matches Ok(b) ==> plain == Some(b)
            &&& !m.objects.contains_key(oid) ==> r == Err::<Seq<u8>, ErrorModel>(ErrorModel::NotFound(oid))
            &&& m.objects.contains_key(oid) && is_held_back(m, oid, now) ==> r == Err::<Seq<u8>, ErrorModel>(
                ErrorModel::Embargoed(o.vis->reveal_at),
            )
            &&& m.objects.contains_key(oid) && !is_held_back(m, oid, now) && !(is_open_to(m, oid, reader, now)
                && m.keys.contains_key(oid)) ==> r == Err::<Seq<u8>, ErrorModel>(ErrorModel::Unauthorized(oid))
            &&& r matches Err(e) ==> !(e is Unauthorized) && !(e is Embargoed) && !(e is NotFound) ==> e is Backend
        }),
{
}

/// What a repository opens for merging is what its keeper reads.
pub proof fn law_opens_what_is_read(m: RepoModel, oid: Id, now: u64, b: Seq<u8>)
    ensures
        own_read(m, now)(oid) == Some(b) <==> got(m, oid, m.identity, now) == Ok::<Seq<u8>, ErrorModel>(b),
        own_read(m, now)(oid) is None <==> got(m, oid, m.identity, now) is Err,
{
}

// ---------------------------------------------------------------------------
// Files
// ---------------------------------------------------------------------------

/// A reader's own grant of an object has run out.
pub open spec fn has_run_out(m: RepoModel, oid: Id, reader: Seq<char>, now: u64) -> bool {
    m.manifest.contains_key((oid, reader)) && (m.manifest[(oid, reader)].expires_at matches Some(t) && t <= now)
}

/// A reader is given the object: they can read it, and a grant of their own has not run
/// out.
pub open spec fn is_given(m: RepoModel, oid: Id, reader: Seq<char>, now: u64) -> bool {
    got(m, oid, reader, now) is Ok && !has_run_out(m, oid, reader, now)
}

/// The object is passed over: the reader's grant has run out, or it was burned, or they
/// may not read it, or not yet.
pub open spec fn is_passed_over(m: RepoModel, oid: Id, reader: Seq<char>, now: u64) -> bool {
    ||| has_run_out(m, oid, reader, now)
    ||| m.burns.contains_key(oid) && !m.objects.contains_key(oid)
    ||| (got(m, oid, reader, now) matches Err(e) && (e is Unauthorized || e is Embargoed))
}

/// The file that an entry of a tree gives a reader.
pub open spec fn file_of(
    m: RepoModel,
    reader: Seq<char>,
    now: u64,
    e: (Seq<char>, Placed<(Id, VisibilityModel)>),
) -> (Seq<char>, VisibilityModel, Seq<u8>) {
    (e.1.text, e.1.v.1, got(m, e.1.v.0, reader, now)->Ok_0)
}

/// The file is that of an entry that the reader is given.
pub open spec fn is_from(
    m: RepoModel,
    t: TreeModel,
    reader: Seq<char>,
    now: u64,
    file: (Seq<char>, VisibilityModel, Seq<u8>),
) -> bool {
    exists|p: Seq<char>| #[trigger]
        t.contains_key(p) && is_given(m, t[p].v.0, reader, now) && file == file_of(m, reader, now, (p, t[p]))
}

proof fn lemma_surfaced_prefix(
    m: RepoModel,
    s: Seq<(Seq<char>, Placed<(Id, VisibilityModel)>)>,
    reader: Seq<char>,
    now: u64,
    i: int,
)
    requires
        0 <= i <= s.len(),
    ensures
        ({
            let f = |e: (Seq<char>, Placed<(Id, VisibilityModel)>)| is_given(m, e.1.v.0, reader, now);
            let h = |e: (Seq<char>, Placed<(Id, VisibilityModel)>)| file_of(m, reader, now, e);
            let r = surfaced(m, s.take(i), reader, now);
            match r {
                Ok((files, skipped)) => {
                    &&& files == s.take(i).filter(f).map_values(h)
                    &&& files.len() + skipped == i
                    &&& forall|j: int|
                        0 <= j < i ==> is_given(m, (#[trigger] s[j]).1.v.0, reader, now) || is_passed_over(
                            m,
                            s[j].1.v.0,
                            reader,
                            now,
                        )
                },
                Err(x) => exists|j: int|
                    0 <= j < i && !is_given(m, (#[trigger] s[j]).1.v.0, reader, now) && !is_passed_over(
                        m,
                        s[j].1.v.0,
                        reader,
                        now,
                    ) && got(m, s[j].1.v.0, reader, now) == Err::<Seq<u8>, ErrorModel>(x),
            }
        }),
    decreases i,
{
    let f = |e: (Seq<char>, Placed<(Id, VisibilityModel)>)| is_given(m, e.1.v.0, reader, now);
    let h = |e: (Seq<char>, Placed<(Id, VisibilityModel)>)| file_of(m, reader, now, e);
    if i == 0 {
        lemma_filter_none(s, f);
        assert(s.take(0).filter(f).map_values(h) =~= Seq::<(Seq<char>, VisibilityModel, Seq<u8>)>::empty());
    } else {
        lemma_surfaced_prefix(m, s, reader, now, i - 1);
        lemma_filter_step(s, i - 1, f);
        assert(s.take(i).drop_last() =~= s.take(i - 1));
        assert(s.take(i).last() == s[i - 1]);
        let before = s.take(i - 1).filter(f);
        if f(s[i - 1]) {
            assert(before.push(s[i - 1]).map_values(h) =~= before.map_values(h).push(h(s[i - 1])));
        }
    }
}

/// A change gives a reader a file for each entry of its tree that they can read and
/// whose grant has not run out, as it is written there, with its content, in path order;
/// the others are counted. It fails only for an entry that is neither given nor passed
/// over, with the error that reading it gives.
pub proof fn law_change_surfaces_what_is_readable(m: RepoModel, change: Id, reader: Seq<char>, now: u64)
    requires
        m.graph.changes.contains_key(change),
        m.graph.changes[change].tree.dom().finite(),
    ensures
        ({
            let t = m.graph.changes[change].tree;
            match surfaced_change(m, change, reader, now) {
                Ok((files, skipped)) => {
                    &&& files.len() + skipped == t.len()
                    &&& files == pairs_of::<PathKey, Placed<(Id, VisibilityModel)>>(t).filter(
                        |e: (Seq<char>, Placed<(Id, VisibilityModel)>)| is_given(m, e.1.v.0, reader, now),
                    ).map_values(|e: (Seq<char>, Placed<(Id, VisibilityModel)>)| file_of(m, reader, now, e))
                    &&& forall|p: Seq<char>, b: Seq<u8>|
                        #![trigger t.contains_key(p), files.contains((t[p].text, t[p].v.1, b))]
                        t.contains_key(p) && got(m, t[p].v.0, reader, now) == Ok::<Seq<u8>, ErrorModel>(b)
                            && !has_run_out(m, t[p].v.0, reader, now) ==> files.contains((t[p].text, t[p].v.1, b))
                    &&& forall|i: int|
                        0 <= i < files.len() ==> is_from(m, t, reader, now, #[trigger] files[i])
                    &&& forall|p: Seq<char>| #[trigger]
                        t.contains_key(p) ==> is_given(m, t[p].v.0, reader, now) || is_passed_over(
                            m,
                            t[p].v.0,
                            reader,
                            now,
                        )
                },
                Err(x) => exists|p: Seq<char>| #[trigger]
                    t.contains_key(p) && !is_given(m, t[p].v.0, reader, now) && !is_passed_over(
                        m,
                        t[p].v.0,
                        reader,
                        now,
                    ) && got(m, t[p].v.0, reader, now) == Err::<Seq<u8>, ErrorModel>(x),
            }
        }),
{
    let t = m.graph.changes[change].tree;
    let s = pairs_of::<PathKey, Placed<(Id, VisibilityModel)>>(t);
    lemma_map_is_listed::<PathKey, Placed<(Id, VisibilityModel)>>(t);
    lemma_surfaced_prefix(m, s, reader, now, s.len() as int);
    assert(s.take(s.len() as int) =~= s);
    let f = |e: (Seq<char>, Placed<(Id, VisibilityModel)>)| is_given(m, e.1.v.0, reader, now);
    let h = |e: (Seq<char>, Placed<(Id, VisibilityModel)>)| file_of(m, reader, now, e);
    crate::sorted::lemma_listed_len::<PathKey, Placed<(Id, VisibilityModel)>>(s, t);
    match surfaced_change(m, change, reader, now) {
        Ok((files, skipped)) => {
            assert(files == s.filter(f).map_values(h));
            assert(files.len() + skipped == s.len());
            assert(t.len() == s.len());
            assert forall|p: Seq<char>, b: Seq<u8>|
                #![trigger t.contains_key(p), files.contains((t[p].text, t[p].v.1, b))]
                t.contains_key(p) && got(m, t[p].v.0, reader, now) == Ok::<Seq<u8>, ErrorModel>(b) && !has_run_out(
                    m,
                    t[p].v.0,
                    reader,
                    now,
                ) implies files.contains((t[p].text, t[p].v.1, b)) by {
                let i = place_of(s, p);
                lemma_entry::<PathKey, Placed<(Id, VisibilityModel)>>(s, i);
                assert(s[i] == (p, t[p]));
                assert(s.contains(s[i]));
                crate::seqs::lemma_filter_contains(s, f, s[i]);
                let k = choose|k: int| 0 <= k < s.filter(f).len() && s.filter(f)[k] == s[i];
                assert(files[k] == h(s[i]));
            }
            assert forall|i: int| 0 <= i < files.len() implies is_from(m, t, reader, now, #[trigger] files[i]) by {
                let e = s.filter(f)[i];
                assert(s.filter(f).contains(e));
                crate::seqs::lemma_filter_contains(s, f, e);
                let k = choose|k: int| 0 <= k < s.len() && s[k] == e;
                lemma_entry::<PathKey, Placed<(Id, VisibilityModel)>>(s, k);
                assert(t.contains_key(e.0) && t[e.0] == e.1);
                assert(files[i] == h(e));
            }
            assert forall|p: Seq<char>| #[trigger] t.contains_key(p) implies is_given(m, t[p].v.0, reader, now)
                || is_passed_over(m, t[p].v.0, reader, now) by {
                let i = place_of(s, p);
                lemma_entry::<PathKey, Placed<(Id, VisibilityModel)>>(s, i);
                assert(s[i] == (p, t[p]));
            }
        },
        Err(x) => {
            let j = choose|j: int|
                0 <= j < s.len() && !is_given(m, (#[trigger] s[j]).1.v.0, reader, now) && !is_passed_over(
                    m,
                    s[j].1.v.0,
                    reader,
                    now,
                ) && got(m, s[j].1.v.0, reader, now) == Err::<Seq<u8>, ErrorModel>(x);
            lemma_entry::<PathKey, Placed<(Id, VisibilityModel)>>(s, j);
            assert(t.contains_key(s[j].0));
        },
    }
}

/// Embargoed content that has been put in comes with its change, to the one who put it in,
/// once its time has come and escrow has been emptied.
pub proof fn law_revealed_content_surfaces(
    m: RepoModel,
    bytes: Seq<u8>,
    reveal_at: u64,
    s: Sealing,
    change: Id,
    p: Seq<char>,
    now: u64,
)
    requires
        seals(bytes, VisibilityModel::Embargoed { reveal_at }, s),
        !m.burns.contains_key(s.addr),
        !m.objects.contains_key(s.addr),
        !m.escrow.contains_key(s.addr),
        !m.manifest.contains_key((s.addr, m.identity)),
        m.graph.changes.contains_key(change),
        m.graph.changes[change].tree.dom().finite(),
        m.graph.changes[change].tree.contains_key(p),
        m.graph.changes[change].tree[p].v.0 == s.addr,
        reveal_at <= now,
    ensures
        surfaced_change(after_flush(with_content(m, s), now), change, m.identity, now) matches Ok((files, skipped))
            ==> files.contains(
            (m.graph.changes[change].tree[p].text, m.graph.changes[change].tree[p].v.1, bytes),
        ),
{
    let after = after_flush(with_content(m, s), now);
    law_embargo_ends(m, bytes, reveal_at, s, m.identity, now);
    law_change_surfaces_what_is_readable(after, change, m.identity, now);
    let t = after.graph.changes[change].tree;
    assert(t.contains_key(p));
    assert(got(after, t[p].v.0, m.identity, now) == Ok::<Seq<u8>, ErrorModel>(bytes));
    assert(!has_run_out(after, t[p].v.0, m.identity, now));
}

} // verus!
