//! The public keys of others: `name = <OpenSSH line>`, one on a line.

use crate::format::{raw_text, text_from};
use crate::identity::{key_in, openssh_key, IdentityError, IdentityErrorModel};
use crate::sorted::{among, lemma_among, lemma_entry, lemma_map_is_listed, lists, pairs_of, SortedMap};
use crate::split::{
    lemma_lines_back, lemma_place_is, lemma_trim_end_is, lemma_trim_more, lines, lines_of,
    one_line, split_at, split_once, without_return,
};
use crate::split::lemma_front_is;
use crate::store::{file_at, join, join_path, with_file, Disk, DiskModel};
use crate::text::{
    chars_of, concat, flat, push_text, trim, trimmed, trimmed_end, trimmed_front, white,
};
use vstd::prelude::*;
use vstd::utf8::encode_utf8;

verus! {

/// The public keys of others, by name.
pub struct PeerRegistry {
    entries: SortedMap<String, String>,
    path: String,
}

/// The model of a [`PeerRegistry`].
#[verifier::ext_equal]
pub struct PeersModel {
    pub entries: Map<Seq<char>, Seq<char>>,
    pub path: Seq<char>,
}

impl DeepView for PeerRegistry {
    type V = PeersModel;

    closed spec fn deep_view(&self) -> PeersModel {
        PeersModel { entries: self.entries.deep_view(), path: self.path@ }
    }
}

/// The names and keys with those of one line more.
pub open spec fn with_line(m: Map<Seq<char>, Seq<char>>, line: Seq<char>) -> Map<Seq<char>, Seq<char>> {
    let t = trimmed(line);
    if t.len() == 0 || t[0] == '#' {
        m
    } else {
        match split_at(t, '=') {
            Some((k, v)) => m.insert(trimmed(k), trimmed(v)),
            None => m,
        }
    }
}

/// The names and keys of lines.
pub open spec fn peers_in(ls: Seq<Seq<char>>) -> Map<Seq<char>, Seq<char>>
    decreases ls.len(),
{
    if ls.len() == 0 {
        Map::empty()
    } else {
        with_line(peers_in(ls.drop_last()), ls.last())
    }
}

/// The names and keys on a disk. A file that is not there, or holds no text, holds
/// none.
pub open spec fn peers_on(d: DiskModel, path: Seq<char>) -> Map<Seq<char>, Seq<char>> {
    match file_at(d, path) {
        Some(b) => match raw_text(b) {
            Ok(t) => peers_in(lines_of(t)),
            Err(e) => Map::empty(),
        },
        None => Map::empty(),
    }
}

/// One name and key, without the end of the line.
pub open spec fn peer_words(e: (Seq<char>, Seq<char>)) -> Seq<char> {
    e.0 + " = "@ + e.1
}

/// One name and key as a line.
pub open spec fn peer_row(e: (Seq<char>, Seq<char>)) -> Seq<char> {
    peer_words(e) + "\n"@
}

/// The names and keys as text.
pub open spec fn peers_text(m: Map<Seq<char>, Seq<char>>) -> Seq<char> {
    flat(pairs_of::<String, Seq<char>>(m).map_values(|e: (Seq<char>, Seq<char>)| peer_row(e)))
}

/// The key in a line, or why there is none.
pub open spec fn key_of_line(line: Seq<char>) -> Result<Seq<u8>, IdentityErrorModel> {
    match openssh_key(line) {
        Ok(Some(k)) => Ok(k),
        Ok(None) => Err(IdentityErrorModel::Format("key is not ed25519"@)),
        Err(e) => Err(IdentityErrorModel::Format(e)),
    }
}

/// The names and keys of a text.
fn read_peers(text: &str) -> (r: SortedMap<String, String>)
    ensures
        r.deep_view() == peers_in(lines_of(text@)),
{
    let ls = lines(text);
    let ghost all = ls.deep_view();
    let mut entries: SortedMap<String, String> = SortedMap::new();
    let mut i: usize = 0;
    assert(all.take(0) =~= Seq::<Seq<char>>::empty());
    while i < ls.len()
        invariant
            0 <= i <= ls@.len(),
            all == ls.deep_view(),
            entries.deep_view() == peers_in(all.take(i as int)),
        decreases ls@.len() - i,
    {
        proof {
            let next = all.take(i as int + 1);
            assert(next.drop_last() =~= all.take(i as int));
            assert(next.last() == ls@[i as int]@);
        }
        let t = trim(ls[i].as_str());
        let cs = chars_of(t.as_str());
        if cs.len() > 0 && cs[0] != '#' {
            if let Some((k, v)) = split_once(t.as_str(), '=') {
                entries.insert(trim(k.as_str()), trim(v.as_str()));
            }
        }
        i = i + 1;
    }
    assert(all.take(all.len() as int) =~= all);
    entries
}

impl PeerRegistry {
    /// The keys in a directory's `peers`.
    pub fn load(disk: &Disk, dot: &str) -> (r: Self)
        ensures
            r.deep_view() == (PeersModel {
                entries: peers_on(disk.deep_view(), join_path(dot@, "peers"@)),
                path: join_path(dot@, "peers"@),
            }),
    {
        let path = join(dot, "peers");
        let none: SortedMap<String, String> = SortedMap::new();
        let entries = match disk.read(&path) {
            None => none,
            Some(b) => {
                assert(b.deep_view() =~= b@);
                match text_from(b.as_slice()) {
                    Ok(t) => read_peers(t.as_str()),
                    Err(_) => none,
                }
            },
        };
        PeerRegistry { entries, path }
    }

    /// Adds someone, or replaces their key.
    pub fn add(&mut self, name: &str, pubkey_line: &str)
        ensures
            final(self).deep_view() == (PeersModel {
                entries: old(self).deep_view().entries.insert(name@, trimmed(pubkey_line@)),
                path: old(self).deep_view().path,
            }),
    {
        self.entries.insert(name.to_owned(), trim(pubkey_line));
    }

    /// Removes someone, if they are there.
    pub fn remove(&mut self, name: &str)
        ensures
            final(self).deep_view() == (PeersModel {
                entries: old(self).deep_view().entries.remove(name@),
                path: old(self).deep_view().path,
            }),
    {
        self.entries.remove(&name.to_owned());
    }

    /// Someone's key, as a line.
    pub fn get(&self, name: &str) -> (r: Option<&str>)
        ensures
            match r {
                Some(l) => self.deep_view().entries.contains_key(name@) && self.deep_view().entries[name@] == l@,
                None => !self.deep_view().entries.contains_key(name@),
            },
    {
        match self.entries.get(&name.to_owned()) {
            Some(l) => Some(l.as_str()),
            None => None,
        }
    }

    /// All names and keys, by name.
    pub fn list(&self) -> (r: Vec<(String, String)>)
        ensures
            r.deep_view() == pairs_of::<String, Seq<char>>(self.deep_view().entries),
    {
        self.entries.to_pairs()
    }

    /// Someone's key in bytes; none if they are not there, or their key is of another
    /// kind.
    pub fn pubkey_bytes(&self, name: &str) -> (r: Result<Option<[u8; 32]>, IdentityError>)
        ensures
            if !self.deep_view().entries.contains_key(name@) {
                r matches Ok(k) && k is None
            } else {
                match openssh_key(self.deep_view().entries[name@]) {
                    Ok(k) => r matches Ok(x) && x.deep_view() == k,
                    Err(e) => r matches Err(f) && f.deep_view() == IdentityErrorModel::Format(e),
                }
            },
    {
        match self.get(name) {
            None => Ok(None),
            Some(line) => match key_in(line) {
                Err(e) => Err(IdentityError::Format(e)),
                Ok(k) => Ok(k),
            },
        }
    }

    /// The key in a line.
    pub fn parse_pubkey_bytes_from_line(line: &str) -> (r: Result<[u8; 32], IdentityError>)
        ensures
            match key_of_line(line@) {
                Ok(k) => r matches Ok(x) && x@ == k,
                Err(e) => r matches Err(f) && f.deep_view() == e,
            },
    {
        match key_in(line) {
            Err(e) => Err(IdentityError::Format(e)),
            Ok(None) => Err(IdentityError::Format("key is not ed25519".to_owned())),
            Ok(Some(k)) => {
                assert(k.deep_view() =~= k@);
                Ok(k)
            },
        }
    }

    /// Writes the names and keys to where they were loaded from.
    pub fn save(&self, disk: &mut Disk)
        ensures
            final(disk).deep_view() == with_file(
                old(disk).deep_view(),
                self.deep_view().path,
                Some(encode_utf8(peers_text(self.deep_view().entries))),
            ),
    {
        let n: usize = self.entries.len();
        let ghost s = self.entries.pairs();
        let ghost f = |e: (Seq<char>, Seq<char>)| peer_row(e);
        let mut rows: Vec<String> = crate::seqs::none();
        let mut i: usize = 0;
        assert(rows.deep_view() =~= s.take(0).map_values(f));
        while i < n
            invariant
                n == s.len(),
                0 <= i <= n,
                s == self.entries.pairs(),
                f == (|e: (Seq<char>, Seq<char>)| peer_row(e)),
                rows.deep_view() == s.take(i as int).map_values(f),
            decreases n - i,
        {
            let mut row = self.entries.key_at(i).clone();
            push_text(&mut row, " = ");
            push_text(&mut row, self.entries.value_at(i).as_str());
            push_text(&mut row, "\n");
            assert(row@ == peer_row(s[i as int]));
            crate::seqs::push(&mut rows, row);
            assert(rows.deep_view() =~= s.take(i as int + 1).map_values(f));
            i = i + 1;
        }
        assert(s.take(n as int) =~= s);
        let text = concat(&rows);
        let b = vstd::slice::slice_to_vec(text.as_str().as_bytes());
        assert(b.deep_view() =~= b@);
        disk.put_file(self.path.clone(), Some(b));
    }
}

// ---------------------------------------------------------------------------
// Laws
// ---------------------------------------------------------------------------

/// A name that can be written: on one line, without white space around it, without an
/// equals sign, and not like a remark.
pub open spec fn writable_name(n: Seq<char>) -> bool {
    &&& one_line(n)
    &&& trimmed(n) == n
    &&& forall|i: int| 0 <= i < n.len() ==> #[trigger] n[i] != '='
    &&& n.len() > 0 ==> n[0] != '#'
}

/// A key's line that can be written.
pub open spec fn writable_key(v: Seq<char>) -> bool {
    one_line(v) && trimmed(v) == v
}

/// What trimming leaves is a part with white space around it.
proof fn lemma_trimmed_part(s: Seq<char>, at: int) -> (r: (int, int))
    requires
        0 <= at < s.len(),
        !white(s[at]),
    ensures
        0 <= r.0 <= at < r.1 <= s.len(),
        trimmed(s) == s.subrange(r.0, r.1),
        forall|i: int| 0 <= i < r.0 ==> white(#[trigger] s[i]),
        forall|i: int| r.1 <= i < s.len() ==> white(#[trigger] s[i]),
{
    lemma_front_is(s);
    let front = trimmed_front(s);
    let a = s.len() - front.len();
    lemma_trim_end_is(front);
    let t = trimmed_end(front);
    let b = a + t.len();
    assert(t =~= s.subrange(a, b));
    assert forall|i: int| b <= i < s.len() implies white(#[trigger] s[i]) by {
        assert(front[i - a] == s[i]);
    }
    if at < a {
        assert(white(s[at]));
    }
    if at >= b {
        assert(white(s[at]));
    }
    (a, b)
}

proof fn lemma_peer_line(e: (Seq<char>, Seq<char>), m: Map<Seq<char>, Seq<char>>)
    requires
        writable_name(e.0),
        writable_key(e.1),
    ensures
        one_line(peer_words(e)),
        with_line(m, without_return(peer_words(e))) == m.insert(e.0, e.1),
{
    reveal_strlit(" = ");
    let full = peer_words(e);
    let n = e.0.len() as int;
    assert(full =~= e.0 + seq![' ', '=', ' '] + e.1);
    assert forall|i: int| 0 <= i < full.len() implies #[trigger] full[i] != '\n' by {
        if i < n {
            assert(full[i] == e.0[i]);
        } else if i >= n + 3 {
            assert(full[i] == e.1[i - n - 3]);
        }
    }
    let s = without_return(full);
    let at = n + 1;
    assert(full[at] == '=');
    assert(s[at] == '=');
    assert(s =~= full.take(s.len() as int));
    let (a, b) = lemma_trimmed_part(s, at);
    let t = trimmed(s);
    let k = at - a;
    assert(t[k] == '=');
    assert forall|i: int| 0 <= i < k implies t[i] != '=' by {
        assert(t[i] == full[i + a]);
        if i + a < n {
            assert(full[i + a] == e.0[i + a]);
        }
    }
    lemma_place_is(t, '=', k);
    let left = t.take(k);
    let right = t.skip(k + 1);
    // What stands left of the sign is the name, with white space around it or not.
    let name = e.0 + seq![' '];
    assert(left =~= name.subrange(a, n + 1)) by {
        assert forall|i: int| 0 <= i < left.len() implies left[i] == name[i + a] by {
            assert(left[i] == full[i + a]);
        }
    }
    assert forall|i: int| 0 <= i < a implies white(#[trigger] name[i]) by {
        assert(name[i] == full[i]);
        assert(s[i] == full[i]);
    }
    lemma_trim_more(name, left, a, n + 1);
    assert(e.0 =~= name.subrange(0, n));
    lemma_trim_more(name, e.0, 0, n);
    // And right of it the key.
    let key = seq![' '] + e.1;
    let c = b - at - 1;
    assert(right =~= key.subrange(0, c)) by {
        assert forall|i: int| 0 <= i < right.len() implies right[i] == key[i] by {
            assert(right[i] == full[at + 1 + i]);
        }
    }
    assert forall|i: int| c <= i < key.len() implies white(#[trigger] key[i]) by {
        assert(key[i] == full[at + 1 + i]);
        if at + 1 + i < s.len() {
            assert(white(s[at + 1 + i]));
        } else {
            assert(full.last() == '\r');
        }
    }
    lemma_trim_more(key, right, 0, c);
    assert(e.1 =~= key.subrange(1, key.len() as int));
    lemma_trim_more(key, e.1, 1, key.len() as int);
    // It is not taken for a remark.
    assert(t[0] == full[a]);
    if a < n {
        if a > 0 {
            lemma_name_front(e.0);
            assert(white(s[0]));
            assert(s[0] == e.0[0]);
        }
        assert(full[a] == e.0[a]);
    }
}

/// A name that trimming leaves alone does not begin with white space.
proof fn lemma_name_front(n: Seq<char>)
    requires
        trimmed(n) == n,
        n.len() > 0,
    ensures
        !white(n[0]),
{
    crate::split::lemma_untouched(n);
}

/// The keys come back from their text.
pub proof fn law_peers_round_trip(m: Map<Seq<char>, Seq<char>>)
    requires
        m.dom().finite(),
        forall|n: Seq<char>| #[trigger] m.contains_key(n) ==> writable_name(n) && writable_key(m[n]),
    ensures
        peers_in(lines_of(peers_text(m))) == m,
{
    reveal_strlit("\n");
    assert("\n"@ =~= seq!['\n']);
    let s = pairs_of::<String, Seq<char>>(m);
    lemma_map_is_listed::<String, Seq<char>>(m);
    let rows = s.map_values(|e: (Seq<char>, Seq<char>)| peer_words(e));
    let ended = s.map_values(|e: (Seq<char>, Seq<char>)| peer_row(e));
    assert forall|i: int| 0 <= i < s.len() implies writable_name((#[trigger] s[i]).0) && writable_key(s[i].1) by {
        lemma_entry::<String, Seq<char>>(s, i);
    }
    assert forall|i: int| 0 <= i < rows.len() implies one_line(#[trigger] rows[i]) && without_return(rows[i])
        == rows[i] by {
        lemma_peer_line(s[i], m);
        lemma_peer_end(s[i]);
    }
    lemma_lines_back(rows, ended);
    lemma_peers_fold(m, s, s.len() as int);
    assert(rows.take(s.len() as int) =~= rows);
    lemma_among::<String, Seq<char>>(s, s.len() as int);
    assert(peers_in(rows) =~= m);
}

/// A line of a key does not end in a carriage return.
proof fn lemma_peer_end(e: (Seq<char>, Seq<char>))
    requires
        writable_key(e.1),
    ensures
        without_return(peer_words(e)) == peer_words(e),
{
    reveal_strlit(" = ");
    let s = peer_words(e);
    if e.1.len() > 0 {
        crate::split::lemma_untouched(e.1);
        assert(s.last() == e.1.last());
    } else {
        assert(s.last() == ' ');
    }
}

proof fn lemma_peers_fold(m: Map<Seq<char>, Seq<char>>, s: Seq<(Seq<char>, Seq<char>)>, i: int)
    requires
        lists::<String, Seq<char>>(s, m),
        forall|i: int| 0 <= i < s.len() ==> writable_name((#[trigger] s[i]).0) && writable_key(s[i].1),
        0 <= i <= s.len(),
    ensures
        ({
            let r = peers_in(s.map_values(|e: (Seq<char>, Seq<char>)| peer_words(e)).take(i));
            &&& forall|k: Seq<char>| #[trigger] r.contains_key(k) <==> among(s, i, k)
            &&& forall|k: Seq<char>| #[trigger] r.contains_key(k) ==> r[k] == m[k]
        }),
    decreases i,
{
    let rows = s.map_values(|e: (Seq<char>, Seq<char>)| peer_words(e));
    lemma_among::<String, Seq<char>>(s, i);
    if i > 0 {
        lemma_peers_fold(m, s, i - 1);
        lemma_among::<String, Seq<char>>(s, i - 1);
        let t = rows.take(i);
        assert(t.drop_last() =~= rows.take(i - 1));
        let e = s[i - 1];
        assert(t.last() == peer_words(e));
        lemma_entry::<String, Seq<char>>(s, i - 1);
        lemma_peer_end(e);
        lemma_peer_line(e, peers_in(t.drop_last()));
    } else {
        assert(rows.take(0) =~= Seq::<Seq<char>>::empty());
    }
}

} // verus!
