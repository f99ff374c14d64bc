//! Where a repository keeps what: the files under its directory, and what the small
//! ones among them hold.
//!
//! A [`Disk`] stands for the files and the dock directories. What is done to it is
//! what is to be done to the file system.

use crate::ancestry::Id;
use crate::format::{array_of, put_raw, text_from, raw_text, wire_all};
use crate::sorted::{members_of, SortedMap, SortedSet};
use crate::text::{begins_with, chars_of, ends_with, finishes_with, push_text, same_text, starts_with, trim, trimmed};
use crate::types::Oid;
use crate::value::Value;
use vstd::prelude::*;
use vstd::utf8::encode_utf8;

verus! {

/// The dock that every repository starts on. Its files stand at the root.
pub const HOME_DOCK: &'static str = "main";

/// Files by path, and the names of the dock directories.
#[derive(Debug)]
pub struct Disk {
    pub files: SortedMap<String, Vec<u8>>,
    pub docks: SortedSet<String>,
}

/// The model of a [`Disk`].
pub struct DiskModel {
    pub files: Map<Seq<char>, Seq<u8>>,
    pub docks: Set<Seq<char>>,
}

impl DeepView for Disk {
    type V = DiskModel;

    open spec fn deep_view(&self) -> DiskModel {
        DiskModel { files: self.files.deep_view(), docks: self.docks.deep_view() }
    }
}

/// The content of a file.
pub open spec fn file_at(d: DiskModel, path: Seq<char>) -> Option<Seq<u8>> {
    if d.files.contains_key(path) {
        Some(d.files[path])
    } else {
        None
    }
}

/// The disk with a file written, or removed.
pub open spec fn with_file(d: DiskModel, path: Seq<char>, bytes: Option<Seq<u8>>) -> DiskModel {
    DiskModel {
        files: match bytes {
            Some(b) => d.files.insert(path, b),
            None => d.files.remove(path),
        },
        docks: d.docks,
    }
}

impl Disk {
    pub fn new() -> (r: Self)
        ensures
            r.deep_view().files == Map::<Seq<char>, Seq<u8>>::empty(),
            r.deep_view().docks == Set::<Seq<char>>::empty(),
    {
        let files: SortedMap<String, Vec<u8>> = SortedMap::new();
        let docks: SortedSet<String> = SortedSet::new();
        Disk { files, docks }
    }

    /// The content of a file.
    pub fn read(&self, path: &String) -> (r: Option<Vec<u8>>)
        ensures
            r.deep_view() == file_at(self.deep_view(), path@),
    {
        match self.files.get(path) {
            Some(b) => Some(b.dup()),
            None => None,
        }
    }

    /// Writes a file, or removes it. Removing one that is not there is no error.
    pub fn put_file(&mut self, path: String, bytes: Option<Vec<u8>>)
        ensures
            final(self).deep_view() == with_file(old(self).deep_view(), path@, bytes.deep_view()),
    {
        match bytes {
            Some(b) => {
                self.files.insert(path, b);
            },
            None => {
                self.files.remove(&path);
            },
        }
    }
}

/// A path with a part behind it. A part that starts at the root stands alone.
pub open spec fn join_path(base: Seq<char>, part: Seq<char>) -> Seq<char> {
    if begins_with(part, "/"@) {
        part
    } else if base.len() == 0 || finishes_with(base, "/"@) {
        base + part
    } else {
        base + "/"@ + part
    }
}

pub fn join(base: &str, part: &str) -> (r: String)
    ensures
        r@ == join_path(base@, part@),
{
    if starts_with(part, "/") {
        return part.to_owned();
    }
    let mut t = base.to_owned();
    let n: usize = chars_of(base).len();
    if n > 0 && !ends_with(base, "/") {
        push_text(&mut t, "/");
    }
    push_text(&mut t, part);
    assert(t@ =~= join_path(base@, part@));
    t
}

/// The names of the files of a repository's directory.
#[derive(Debug)]
pub struct RepoStore {
    dot: String,
}

impl DeepView for RepoStore {
    type V = Seq<char>;

    closed spec fn deep_view(&self) -> Seq<char> {
        self.dot@
    }
}

/// A file at the root of the directory.
pub open spec fn root_file(dot: Seq<char>, name: Seq<char>) -> Seq<char> {
    join_path(dot, name)
}

/// The directory of a dock's files: the root for home.
pub open spec fn dock_dir_of(dot: Seq<char>, dock: Option<Seq<char>>) -> Seq<char> {
    match dock {
        None => dot,
        Some(name) => join_path(join_path(dot, "docks"@), name),
    }
}

/// A file of a dock.
pub open spec fn dock_file(dot: Seq<char>, dock: Option<Seq<char>>, name: Seq<char>) -> Seq<char> {
    join_path(dock_dir_of(dot, dock), name)
}

/// A name that is one part of a path.
pub open spec fn is_part(name: Seq<char>) -> bool {
    name.len() > 0 && !name.contains('/')
}

/// The dock is home, or its name is one part of a path.
pub open spec fn is_dock(dock: Option<Seq<char>>) -> bool {
    dock matches Some(n) ==> is_part(n)
}

/// What stands before every part that is joined to a path.
spec fn dir_text(dot: Seq<char>) -> Seq<char> {
    if dot.len() == 0 || finishes_with(dot, "/"@) {
        dot
    } else {
        dot + "/"@
    }
}

/// Where a dock's file stands below the root.
spec fn below_root(dock: Option<Seq<char>>, name: Seq<char>) -> Seq<char> {
    match dock {
        None => name,
        Some(n) => "docks"@ + "/"@ + n + "/"@ + name,
    }
}

proof fn lemma_join_part(base: Seq<char>, part: Seq<char>)
    requires
        is_part(part),
    ensures
        join_path(base, part) == dir_text(base) + part,
        join_path(base, part).len() > 0,
        !finishes_with(join_path(base, part), "/"@),
{
    reveal_strlit("/");
    if begins_with(part, "/"@) {
        assert(part.subrange(0, 1)[0] == "/"@[0]);
        assert(part[0] == '/');
        assert(part.contains('/'));
    }
    let r = join_path(base, part);
    assert(r =~= dir_text(base) + part);
    if finishes_with(r, "/"@) {
        assert(r.subrange(r.len() - 1, r.len() as int)[0] == "/"@[0]);
        assert(r[r.len() - 1] == part[part.len() - 1]);
        assert(part.contains('/'));
    }
}

proof fn lemma_dock_file(dot: Seq<char>, dock: Option<Seq<char>>, name: Seq<char>)
    requires
        is_dock(dock),
        is_part(name),
    ensures
        dock_file(dot, dock, name) == dir_text(dot) + below_root(dock, name),
{
    match dock {
        None => {
            lemma_join_part(dot, name);
        },
        Some(n) => {
            reveal_strlit("docks");
            assert(is_part("docks"@));
            let a = join_path(dot, "docks"@);
            let b = join_path(a, n);
            lemma_join_part(dot, "docks"@);
            lemma_join_part(a, n);
            lemma_join_part(b, name);
            assert(a == dir_text(dot) + "docks"@);
            assert(b == a + "/"@ + n);
            assert(dock_file(dot, dock, name) =~= b + "/"@ + name);
            assert(dock_file(dot, dock, name) =~= dir_text(dot) + below_root(dock, name));
        },
    }
}

proof fn lemma_below_root_apart(a: Option<Seq<char>>, x: Seq<char>, b: Option<Seq<char>>, y: Seq<char>)
    requires
        is_dock(a),
        is_dock(b),
        is_part(x),
        is_part(y),
        below_root(a, x) == below_root(b, y),
    ensures
        a == b && x == y,
{
    reveal_strlit("docks");
    reveal_strlit("/");
    let s = below_root(a, x);
    let t = below_root(b, y);
    if a is Some && b is None {
        assert(s[5] == '/');
        assert(y[5] == '/');
        assert(y.contains('/'));
    } else if a is None && b is Some {
        assert(t[5] == '/');
        assert(x[5] == '/');
        assert(x.contains('/'));
    } else if a is Some && b is Some {
        let n = a->Some_0;
        let m = b->Some_0;
        assert(s[6int + n.len()] == '/');
        assert(t[6int + m.len()] == '/');
        assert forall|i: int| 0 <= i < n.len() implies s[6 + i] == n[i] by {}
        assert forall|i: int| 0 <= i < m.len() implies t[6 + i] == m[i] by {}
        if n.len() < m.len() {
            assert(m[n.len() as int] == t[6int + n.len()]);
            assert(m.contains('/'));
        }
        if m.len() < n.len() {
            assert(n[m.len() as int] == s[6int + m.len()]);
            assert(n.contains('/'));
        }
        assert forall|i: int| 0 <= i < n.len() implies n[i] == m[i] by {
            assert(s[6 + i] == t[6 + i]);
        }
        assert(n =~= m);
        assert(s.len() == 7 + n.len() + x.len());
        assert(t.len() == 7 + m.len() + y.len());
        assert forall|i: int| 0 <= i < x.len() implies x[i] == y[i] by {
            assert(s[7 + n.len() + i] == x[i]);
            assert(t[7 + n.len() + i] == y[i]);
        }
        assert(x =~= y);
    }
}

/// No two docks share a file, and no file has two names.
pub proof fn law_dock_files_are_apart(
    dot: Seq<char>,
    a: Option<Seq<char>>,
    x: Seq<char>,
    b: Option<Seq<char>>,
    y: Seq<char>,
)
    requires
        is_dock(a),
        is_dock(b),
        is_part(x),
        is_part(y),
        a != b || x != y,
    ensures
        dock_file(dot, a, x) != dock_file(dot, b, y),
{
    lemma_dock_file(dot, a, x);
    lemma_dock_file(dot, b, y);
    if dock_file(dot, a, x) == dock_file(dot, b, y) {
        let d = dir_text(dot);
        let s = below_root(a, x);
        let t = below_root(b, y);
        assert(s =~= (d + s).skip(d.len() as int));
        assert(t =~= (d + t).skip(d.len() as int));
        lemma_below_root_apart(a, x, b, y);
    }
}

/// A file of the git mirror.
pub open spec fn mirror_file(dot: Seq<char>, name: Seq<char>) -> Seq<char> {
    join_path(join_path(dot, "git-mirror"@), name)
}

/// The model of a dock that may be home.
pub open spec fn dock_model(dock: Option<&str>) -> Option<Seq<char>> {
    match dock {
        Some(d) => Some(d@),
        None => None,
    }
}

/// Several ids in turn, 32 bytes each. What is left over at the end is dropped.
pub open spec fn ids_from(b: Seq<u8>) -> Seq<Id>
    decreases b.len(),
{
    if b.len() < 32 {
        Seq::empty()
    } else {
        seq![b.take(32)] + ids_from(b.skip(32))
    }
}

/// Reads several ids in turn.
pub fn decode_oids(b: &[u8]) -> (r: Vec<Oid>)
    ensures
        r.deep_view() == ids_from(b@),
{
    let mut r: Vec<Oid> = crate::seqs::none();
    let mut i: usize = 0;
    let n: usize = b.len();
    assert(b@.skip(0) =~= b@);
    assert(Seq::<Id>::empty() + ids_from(b@) =~= ids_from(b@));
    while n - i >= 32
        invariant
            0 <= i <= n,
            n == b@.len(),
            ids_from(b@) == r.deep_view() + ids_from(b@.skip(i as int)),
        decreases n - i,
    {
        let chunk = vstd::slice::slice_subrange(b, i, i + 32);
        let ghost had = r.deep_view();
        let id = Oid(array_of::<32>(chunk));
        proof {
            assert(b@.skip(i as int).take(32) =~= chunk@);
            assert(b@.skip(i as int).skip(32) =~= b@.skip(i as int + 32));
        }
        crate::seqs::push(&mut r, id);
        proof {
            assert(had + (seq![id.deep_view()] + ids_from(b@.skip(i as int + 32))) =~= r.deep_view() + ids_from(
                b@.skip(i as int + 32),
            ));
        }
        i = i + 32;
    }
    assert(r.deep_view() + ids_from(b@.skip(i as int)) =~= r.deep_view());
    r
}

/// Writes several ids in turn.
pub fn encode_oids(ids: &Vec<Oid>) -> (r: Vec<u8>)
    ensures
        r@ == wire_all::<Oid>(ids.deep_view()),
{
    let ghost all = ids.deep_view();
    let mut b: Vec<u8> = Vec::new();
    let mut i: usize = 0;
    assert(all.take(0) =~= Seq::<Id>::empty());
    assert(b@ =~= wire_all::<Oid>(all.take(0)));
    while i < ids.len()
        invariant
            0 <= i <= ids@.len(),
            all == ids.deep_view(),
            b@ == wire_all::<Oid>(all.take(i as int)),
        decreases ids@.len() - i,
    {
        put_raw(&mut b, ids[i].0.as_slice());
        proof {
            assert(all.take(i as int + 1).drop_last() =~= all.take(i as int));
            assert(all.take(i as int + 1).last() == ids@[i as int].deep_view());
        }
        i = i + 1;
    }
    assert(all.take(all.len() as int) =~= all);
    b
}

/// Ids come back from their bytes as they went in.
pub proof fn law_ids_round_trip(ids: Seq<Id>)
    requires
        forall|i: int| 0 <= i < ids.len() ==> (#[trigger] ids[i]).len() == 32,
    ensures
        ids_from(wire_all::<Oid>(ids)) == ids,
        wire_all::<Oid>(ids).len() == 32 * ids.len(),
    decreases ids.len(),
{
    lemma_ids_back(ids, Seq::empty());
    assert(wire_all::<Oid>(ids) + Seq::<u8>::empty() =~= wire_all::<Oid>(ids));
    assert(ids + Seq::<Id>::empty() =~= ids);
}

proof fn lemma_ids_back(ids: Seq<Id>, t: Seq<u8>)
    requires
        forall|i: int| 0 <= i < ids.len() ==> (#[trigger] ids[i]).len() == 32,
    ensures
        ids_from(wire_all::<Oid>(ids) + t) == ids + ids_from(t),
        wire_all::<Oid>(ids).len() == 32 * ids.len(),
    decreases ids.len(),
{
    if ids.len() == 0 {
        assert(wire_all::<Oid>(ids) + t =~= t);
        assert(ids + ids_from(t) =~= ids_from(t));
    } else {
        let front = ids.drop_last();
        let last = ids.last();
        assert(last == ids[ids.len() - 1]);
        assert forall|i: int| 0 <= i < front.len() implies (#[trigger] front[i]).len() == 32 by {
            assert(front[i] == ids[i]);
        }
        lemma_ids_back(front, last + t);
        assert(wire_all::<Oid>(ids) + t =~= wire_all::<Oid>(front) + (last + t));
        assert((last + t).take(32) =~= last);
        assert((last + t).skip(32) =~= t);
        assert(front + (seq![last] + ids_from(t)) =~= ids + ids_from(t));
    }
}

/// An id that fills a file.
pub open spec fn only_id(b: Option<Seq<u8>>) -> Option<Id> {
    match b {
        Some(x) => if x.len() == 32 {
            Some(x)
        } else {
            None
        },
        None => None,
    }
}

/// The ids that a file holds: nothing if it is cut short.
pub open spec fn abandoned_in(b: Option<Seq<u8>>) -> Set<Id> {
    match b {
        Some(x) => if x.len() % 32 == 0 {
            ids_from(x).to_set()
        } else {
            Set::empty()
        },
        None => Set::empty(),
    }
}

/// The bytes of a set of ids, or nothing if it is empty.
pub open spec fn abandoned_bytes(s: Set<Id>) -> Option<Seq<u8>> {
    if s == Set::<Id>::empty() {
        None
    } else {
        Some(wire_all::<Oid>(members_of::<Oid>(s)))
    }
}

/// The heads in a file: unknown if it is empty or cut short.
pub open spec fn heads_in(b: Option<Seq<u8>>) -> Option<Seq<Id>> {
    match b {
        Some(x) => if x.len() == 0 || x.len() % 32 != 0 {
            None
        } else {
            Some(ids_from(x))
        },
        None => None,
    }
}

/// The change id that fills a file.
pub open spec fn only_change_id(b: Option<Seq<u8>>) -> Option<Seq<u8>> {
    match b {
        Some(x) => if x.len() == 16 {
            Some(x)
        } else {
            None
        },
        None => None,
    }
}

/// The dock that the pointer names: home if there is none, or if it names none.
pub open spec fn ambient_dock(b: Option<Seq<u8>>) -> Seq<char> {
    match b {
        Some(x) => match raw_text(x) {
            Ok(t) => if trimmed(t).len() > 0 {
                trimmed(t)
            } else {
                HOME_DOCK@
            },
            Err(_) => HOME_DOCK@,
        },
        None => HOME_DOCK@,
    }
}

/// Home first, then the named docks in order.
pub open spec fn docks_in_order(d: DiskModel) -> Seq<Seq<char>> {
    seq![HOME_DOCK@] + members_of::<String>(d.docks)
}

impl RepoStore {
    /// The layout of a repository's directory.
    pub fn new(dot: String) -> (r: Self)
        ensures
            r.deep_view() == dot@,
    {
        RepoStore { dot }
    }

    /// The directory itself.
    pub fn dot(&self) -> (r: &String)
        ensures
            r@ == self.deep_view(),
    {
        &self.dot
    }

    fn root(&self, name: &str) -> (r: String)
        ensures
            r@ == root_file(self.deep_view(), name@),
    {
        join(self.dot.as_str(), name)
    }

    fn dock_dir(&self, dock: Option<&str>) -> (r: String)
        ensures
            r@ == dock_dir_of(self.deep_view(), dock_model(dock)),
    {
        match dock {
            None => self.dot.clone(),
            Some(name) => {
                let docks = self.docks_dir();
                join(docks.as_str(), name)
            },
        }
    }

    fn of_dock(&self, dock: Option<&str>, name: &str) -> (r: String)
        ensures
            r@ == dock_file(self.deep_view(), dock_model(dock), name@),
    {
        let dir = self.dock_dir(dock);
        join(dir.as_str(), name)
    }

    pub fn objects_dir(&self) -> (r: String)
        ensures
            r@ == root_file(self.deep_view(), "objects"@),
    {
        self.root("objects")
    }

    pub fn identity(&self) -> (r: String)
        ensures
            r@ == root_file(self.deep_view(), "identity"@),
    {
        self.root("identity")
    }

    pub fn graph(&self) -> (r: String)
        ensures
            r@ == root_file(self.deep_view(), "graph"@),
    {
        self.root("graph")
    }

    pub fn keyring(&self) -> (r: String)
        ensures
            r@ == root_file(self.deep_view(), "keyring"@),
    {
        self.root("keyring")
    }

    pub fn escrow(&self) -> (r: String)
        ensures
            r@ == root_file(self.deep_view(), "escrow"@),
    {
        self.root("escrow")
    }

    pub fn manifest(&self) -> (r: String)
        ensures
            r@ == root_file(self.deep_view(), "manifest"@),
    {
        self.root("manifest")
    }

    pub fn purges(&self) -> (r: String)
        ensures
            r@ == root_file(self.deep_view(), "purges"@),
    {
        self.root("purges")
    }

    pub fn conflicts(&self) -> (r: String)
        ensures
            r@ == root_file(self.deep_view(), "conflicts"@),
    {
        self.root("conflicts")
    }

    pub fn attestations(&self) -> (r: String)
        ensures
            r@ == root_file(self.deep_view(), "attestations"@),
    {
        self.root("attestations")
    }

    /// The tombstones of burned objects.
    pub fn burn(&self) -> (r: String)
        ensures
            r@ == root_file(self.deep_view(), "burn"@),
    {
        self.root("burn")
    }

    pub fn config(&self) -> (r: String)
        ensures
            r@ == root_file(self.deep_view(), "config"@),
    {
        self.root("config")
    }

    /// The id of a dock's working change.
    pub fn working(&self, dock: Option<&str>) -> (r: String)
        ensures
            r@ == dock_file(self.deep_view(), dock_model(dock), "working"@),
    {
        self.of_dock(dock, "working")
    }

    pub fn tree_hash(&self, dock: Option<&str>) -> (r: String)
        ensures
            r@ == dock_file(self.deep_view(), dock_model(dock), "tree-hash"@),
    {
        self.of_dock(dock, "tree-hash")
    }

    pub fn next_change(&self, dock: Option<&str>) -> (r: String)
        ensures
            r@ == dock_file(self.deep_view(), dock_model(dock), "next-change"@),
    {
        self.of_dock(dock, "next-change")
    }

    pub fn tip(&self, dock: Option<&str>) -> (r: String)
        ensures
            r@ == dock_file(self.deep_view(), dock_model(dock), "tip"@),
    {
        self.of_dock(dock, "tip")
    }

    /// The file that names the dock that one is on.
    pub fn dock_pointer(&self) -> (r: String)
        ensures
            r@ == root_file(self.deep_view(), "dock"@),
    {
        self.root("dock")
    }

    pub fn docks_dir(&self) -> (r: String)
        ensures
            r@ == root_file(self.deep_view(), "docks"@),
    {
        self.root("docks")
    }

    pub fn id(&self) -> (r: String)
        ensures
            r@ == root_file(self.deep_view(), "id"@),
    {
        self.root("id")
    }

    pub fn id_pub(&self) -> (r: String)
        ensures
            r@ == root_file(self.deep_view(), "id.pub"@),
    {
        self.root("id.pub")
    }

    pub fn peers(&self) -> (r: String)
        ensures
            r@ == root_file(self.deep_view(), "peers"@),
    {
        self.root("peers")
    }

    pub fn git_mirror_dir(&self) -> (r: String)
        ensures
            r@ == root_file(self.deep_view(), "git-mirror"@),
    {
        self.root("git-mirror")
    }

    fn of_mirror(&self, name: &str) -> (r: String)
        ensures
            r@ == mirror_file(self.deep_view(), name@),
    {
        let dir = self.git_mirror_dir();
        join(dir.as_str(), name)
    }

    pub fn git_marks(&self) -> (r: String)
        ensures
            r@ == mirror_file(self.deep_view(), "marks"@),
    {
        self.of_mirror("marks")
    }

    pub fn git_state(&self) -> (r: String)
        ensures
            r@ == mirror_file(self.deep_view(), "state"@),
    {
        self.of_mirror("state")
    }

    pub fn git_identity_map(&self) -> (r: String)
        ensures
            r@ == mirror_file(self.deep_view(), "identity"@),
    {
        self.of_mirror("identity")
    }

    pub fn git_allowed_signers(&self) -> (r: String)
        ensures
            r@ == mirror_file(self.deep_view(), "allowed-signers"@),
    {
        self.of_mirror("allowed-signers")
    }

    pub fn git_config(&self) -> (r: String)
        ensures
            r@ == mirror_file(self.deep_view(), "config"@),
    {
        self.of_mirror("config")
    }

    /// The log of operations, which never leaves this machine.
    pub fn ops(&self) -> (r: String)
        ensures
            r@ == root_file(self.deep_view(), "ops"@),
    {
        self.root("ops")
    }

    /// The versions that were abandoned here.
    pub fn abandoned(&self) -> (r: String)
        ensures
            r@ == root_file(self.deep_view(), "abandoned"@),
    {
        self.root("abandoned")
    }

    pub fn heads(&self) -> (r: String)
        ensures
            r@ == root_file(self.deep_view(), "heads"@),
    {
        self.root("heads")
    }

    pub fn working_change(&self) -> (r: String)
        ensures
            r@ == root_file(self.deep_view(), "working-change"@),
    {
        self.root("working-change")
    }

    /// The versions that were abandoned here.
    pub fn read_abandoned(&self, disk: &Disk) -> (r: SortedSet<Oid>)
        ensures
            r.deep_view() == abandoned_in(file_at(disk.deep_view(), root_file(self.deep_view(), "abandoned"@))),
    {
        match disk.read(&self.abandoned()) {
            Some(b) => {
                assert(b.deep_view() =~= b@);
                if b.len() % 32 == 0 {
                    let ids = decode_oids(b.as_slice());
                    crate::engine::negotiation::set_of(&ids)
                } else {
                    SortedSet::new()
                }
            },
            None => SortedSet::new(),
        }
    }

    /// Writes the abandoned versions; none leave no file.
    pub fn write_abandoned(&self, disk: &mut Disk, set: &SortedSet<Oid>)
        ensures
            final(disk).deep_view() == with_file(
                old(disk).deep_view(),
                root_file(self.deep_view(), "abandoned"@),
                abandoned_bytes(set.deep_view()),
            ),
    {
        if set.is_empty() {
            disk.put_file(self.abandoned(), None);
        } else {
            let ids = set.to_vec();
            let b = encode_oids(&ids);
            assert(b.deep_view() =~= b@);
            disk.put_file(self.abandoned(), Some(b));
        }
    }

    fn read_oid_file(&self, disk: &Disk, path: &String) -> (r: Option<Oid>)
        ensures
            r.deep_view() == only_id(file_at(disk.deep_view(), path@)),
    {
        match disk.read(path) {
            Some(b) => {
                assert(b.deep_view() =~= b@);
                if b.len() == 32 {
                    Some(Oid(array_of::<32>(b.as_slice())))
                } else {
                    None
                }
            },
            None => None,
        }
    }

    fn write_oid_file(&self, disk: &mut Disk, path: String, oid: Option<&Oid>)
        ensures
            final(disk).deep_view() == with_file(
                old(disk).deep_view(),
                path@,
                crate::liveness::id_model(oid),
            ),
    {
        match oid {
            Some(o) => {
                let mut b: Vec<u8> = Vec::new();
                put_raw(&mut b, o.0.as_slice());
                assert(b.deep_view() =~= o.deep_view());
                disk.put_file(path, Some(b));
            },
            None => {
                disk.put_file(path, None);
            },
        }
    }

    /// The id of a dock's working change, if one is in progress.
    pub fn read_working(&self, disk: &Disk, dock: Option<&str>) -> (r: Option<Oid>)
        ensures
            r.deep_view() == only_id(
                file_at(disk.deep_view(), dock_file(self.deep_view(), dock_model(dock), "working"@)),
            ),
    {
        let path = self.working(dock);
        self.read_oid_file(disk, &path)
    }

    pub fn write_working(&self, disk: &mut Disk, dock: Option<&str>, working: Option<&Oid>)
        ensures
            final(disk).deep_view() == with_file(
                old(disk).deep_view(),
                dock_file(self.deep_view(), dock_model(dock), "working"@),
                crate::liveness::id_model(working),
            ),
    {
        let path = self.working(dock);
        self.write_oid_file(disk, path, working);
    }

    /// The finished change that a dock stands on.
    pub fn read_tip(&self, disk: &Disk, dock: Option<&str>) -> (r: Option<Oid>)
        ensures
            r.deep_view() == only_id(
                file_at(disk.deep_view(), dock_file(self.deep_view(), dock_model(dock), "tip"@)),
            ),
    {
        let path = self.tip(dock);
        self.read_oid_file(disk, &path)
    }

    pub fn write_tip(&self, disk: &mut Disk, dock: Option<&str>, tip: Option<&Oid>)
        ensures
            final(disk).deep_view() == with_file(
                old(disk).deep_view(),
                dock_file(self.deep_view(), dock_model(dock), "tip"@),
                crate::liveness::id_model(tip),
            ),
    {
        let path = self.tip(dock);
        self.write_oid_file(disk, path, tip);
    }

    /// The hash of a dock's last snapshot; empty if there was none.
    pub fn read_tree_hash(&self, disk: &Disk, dock: Option<&str>) -> (r: Vec<u8>)
        ensures
            r@ == (match file_at(disk.deep_view(), dock_file(self.deep_view(), dock_model(dock), "tree-hash"@)) {
                Some(b) => b,
                None => Seq::empty(),
            }),
    {
        let path = self.tree_hash(dock);
        match disk.read(&path) {
            Some(b) => {
                assert(b.deep_view() =~= b@);
                b
            },
            None => Vec::new(),
        }
    }

    pub fn write_tree_hash(&self, disk: &mut Disk, dock: Option<&str>, hash: &[u8])
        ensures
            final(disk).deep_view() == with_file(
                old(disk).deep_view(),
                dock_file(self.deep_view(), dock_model(dock), "tree-hash"@),
                Some(hash@),
            ),
    {
        let path = self.tree_hash(dock);
        let b = vstd::slice::slice_to_vec(hash);
        assert(b.deep_view() =~= hash@);
        disk.put_file(path, Some(b));
    }

    /// Forgets a dock's last snapshot, so that the next one is taken anew.
    pub fn clear_tree_hash(&self, disk: &mut Disk, dock: Option<&str>)
        ensures
            final(disk).deep_view() == with_file(
                old(disk).deep_view(),
                dock_file(self.deep_view(), dock_model(dock), "tree-hash"@),
                None,
            ),
    {
        let path = self.tree_hash(dock);
        disk.put_file(path, None);
    }

    /// The change id that waits for a dock's next change.
    pub fn read_next_change(&self, disk: &Disk, dock: Option<&str>) -> (r: Option<[u8; 16]>)
        ensures
            r.deep_view() == only_change_id(
                file_at(disk.deep_view(), dock_file(self.deep_view(), dock_model(dock), "next-change"@)),
            ),
    {
        let path = self.next_change(dock);
        match disk.read(&path) {
            Some(b) => {
                assert(b.deep_view() =~= b@);
                if b.len() == 16 {
                    let a = array_of::<16>(b.as_slice());
                    assert(a.deep_view() =~= a@);
                    Some(a)
                } else {
                    None
                }
            },
            None => None,
        }
    }

    pub fn write_next_change(&self, disk: &mut Disk, dock: Option<&str>, id: Option<&[u8; 16]>)
        ensures
            final(disk).deep_view() == with_file(
                old(disk).deep_view(),
                dock_file(self.deep_view(), dock_model(dock), "next-change"@),
                (match id {
                    Some(c) => Some(c@),
                    None => None,
                }),
            ),
    {
        let path = self.next_change(dock);
        match id {
            Some(c) => {
                let mut b: Vec<u8> = Vec::new();
                put_raw(&mut b, c.as_slice());
                assert(b.deep_view() =~= c@);
                disk.put_file(path, Some(b));
            },
            None => {
                disk.put_file(path, None);
            },
        }
    }

    /// The dock that one is on.
    pub fn read_dock(&self, disk: &Disk) -> (r: String)
        ensures
            r@ == ambient_dock(file_at(disk.deep_view(), root_file(self.deep_view(), "dock"@))),
    {
        match disk.read(&self.dock_pointer()) {
            Some(b) => {
                assert(b.deep_view() =~= b@);
                match text_from(b.as_slice()) {
                    Ok(t) => {
                        let name = trim(t.as_str());
                        let n: usize = chars_of(name.as_str()).len();
                        if n > 0 {
                            name
                        } else {
                            HOME_DOCK.to_owned()
                        }
                    },
                    Err(_) => HOME_DOCK.to_owned(),
                }
            },
            None => HOME_DOCK.to_owned(),
        }
    }

    /// Goes to a dock. Going home leaves no pointer.
    pub fn write_dock(&self, disk: &mut Disk, name: &str)
        ensures
            final(disk).deep_view() == with_file(
                old(disk).deep_view(),
                root_file(self.deep_view(), "dock"@),
                (if name@ == HOME_DOCK@ {
                    None
                } else {
                    Some(encode_utf8(name@))
                }),
            ),
    {
        if same_text(name, HOME_DOCK) {
            disk.put_file(self.dock_pointer(), None);
        } else {
            let b = vstd::slice::slice_to_vec(name.as_bytes());
            assert(b.deep_view() =~= encode_utf8(name@));
            disk.put_file(self.dock_pointer(), Some(b));
        }
    }

    /// Makes the directory of a named dock.
    pub fn ensure_dock_dir(&self, disk: &mut Disk, name: &str)
        ensures
            final(disk).deep_view() == (DiskModel {
                files: old(disk).deep_view().files,
                docks: old(disk).deep_view().docks.insert(name@),
            }),
    {
        let _ = disk.docks.insert(name.to_owned());
    }

    /// Whether there is such a dock. Home always exists.
    pub fn dock_exists(&self, disk: &Disk, name: &str) -> (b: bool)
        ensures
            b == (name@ == HOME_DOCK@ || disk.deep_view().docks.contains(name@)),
    {
        same_text(name, HOME_DOCK) || disk.docks.contains(&name.to_owned())
    }

    /// Every dock: home first, then the named ones in order.
    pub fn list_docks(&self, disk: &Disk) -> (r: Vec<String>)
        ensures
            r.deep_view() == docks_in_order(disk.deep_view()),
    {
        let named = disk.docks.to_vec();
        let ghost ns = named.deep_view();
        let mut r: Vec<String> = crate::seqs::single(HOME_DOCK.to_owned());
        let mut i: usize = 0;
        assert(r.deep_view() =~= seq![HOME_DOCK@] + ns.take(0));
        while i < named.len()
            invariant
                0 <= i <= named@.len(),
                ns == named.deep_view(),
                r.deep_view() == seq![HOME_DOCK@] + ns.take(i as int),
            decreases named@.len() - i,
        {
            crate::seqs::push(&mut r, named[i].clone());
            assert(r.deep_view() =~= seq![HOME_DOCK@] + ns.take(i as int + 1));
            i = i + 1;
        }
        assert(ns.take(ns.len() as int) =~= ns);
        r
    }

    /// A dock's heads, if they are written down.
    pub fn read_heads(&self, disk: &Disk) -> (r: Option<Vec<Oid>>)
        ensures
            r.deep_view() == heads_in(file_at(disk.deep_view(), root_file(self.deep_view(), "heads"@))),
    {
        match disk.read(&self.heads()) {
            Some(b) => {
                assert(b.deep_view() =~= b@);
                if b.len() == 0 || b.len() % 32 != 0 {
                    None
                } else {
                    Some(decode_oids(b.as_slice()))
                }
            },
            None => None,
        }
    }

    pub fn write_heads(&self, disk: &mut Disk, heads: &Vec<Oid>)
        ensures
            final(disk).deep_view() == with_file(
                old(disk).deep_view(),
                root_file(self.deep_view(), "heads"@),
                Some(wire_all::<Oid>(heads.deep_view())),
            ),
    {
        let b = encode_oids(heads);
        assert(b.deep_view() =~= b@);
        disk.put_file(self.heads(), Some(b));
    }

    /// The working change in bytes, if one is in progress.
    pub fn read_working_change(&self, disk: &Disk) -> (r: Option<Vec<u8>>)
        ensures
            r.deep_view() == file_at(disk.deep_view(), root_file(self.deep_view(), "working-change"@)),
    {
        disk.read(&self.working_change())
    }

    pub fn write_working_change(&self, disk: &mut Disk, blob: Option<Vec<u8>>)
        ensures
            final(disk).deep_view() == with_file(
                old(disk).deep_view(),
                root_file(self.deep_view(), "working-change"@),
                blob.deep_view(),
            ),
    {
        disk.put_file(self.working_change(), blob);
    }
}

/// A letter, a digit, `-` or `_`.
pub open spec fn dock_char(c: char) -> bool {
    ('a' <= c && c <= 'z') || ('A' <= c && c <= 'Z') || ('0' <= c && c <= '9') || c == '-' || c == '_'
}

/// All characters may stand in a dock's name.
pub open spec fn dock_chars(name: Seq<char>) -> bool {
    forall|i: int| 0 <= i < name.len() ==> dock_char(#[trigger] name[i])
}

/// Why a name cannot be a new dock's.
pub open spec fn dock_name_fault(name: Seq<char>) -> Option<Seq<char>> {
    if name.len() == 0 {
        Some("dock name cannot be empty"@)
    } else if name == HOME_DOCK@ {
        Some("'"@ + HOME_DOCK@ + "' is the default dock — it always exists"@)
    } else if encode_utf8(name).len() > 64 {
        Some("dock name is too long (max 64 characters)"@)
    } else if !dock_chars(name) {
        Some("invalid dock name '"@ + name + "' — use only letters, digits, '-' and '_'"@)
    } else {
        None
    }
}

/// Whether a name can be a new dock's. It cannot lead out of the docks' directory.
pub fn valid_dock_name(name: &str) -> (r: Result<(), String>)
    ensures
        match r {
            Ok(_) => dock_name_fault(name@) is None,
            Err(t) => dock_name_fault(name@) == Some(t@),
        },
{
    let cs = chars_of(name);
    if cs.len() == 0 {
        return Err("dock name cannot be empty".to_owned());
    }
    if same_text(name, HOME_DOCK) {
        let mut t = "'".to_owned();
        push_text(&mut t, HOME_DOCK);
        push_text(&mut t, "' is the default dock — it always exists");
        return Err(t);
    }
    if name.as_bytes().len() > 64 {
        return Err("dock name is too long (max 64 characters)".to_owned());
    }
    let mut i: usize = 0;
    while i < cs.len()
        invariant
            cs@ == name@,
            0 <= i <= cs@.len(),
            name@.len() > 0,
            name@ != HOME_DOCK@,
            encode_utf8(name@).len() <= 64,
            forall|j: int| 0 <= j < i ==> dock_char(#[trigger] cs@[j]),
        decreases cs@.len() - i,
    {
        let c = cs[i];
        let ok = ('a' <= c && c <= 'z') || ('A' <= c && c <= 'Z') || ('0' <= c && c <= '9') || c == '-' || c == '_';
        if !ok {
            assert(!dock_char(name@[i as int]));
            let mut t = "invalid dock name '".to_owned();
            push_text(&mut t, name);
            push_text(&mut t, "' — use only letters, digits, '-' and '_'");
            return Err(t);
        }
        i = i + 1;
    }
    Ok(())
}

/// A valid name has nothing in it that could lead out of the docks' directory.
pub proof fn law_dock_name_stays_inside(name: Seq<char>, i: int)
    requires
        dock_name_fault(name) is None,
        0 <= i < name.len(),
    ensures
        name[i] != '/',
        name[i] != '.',
        name != HOME_DOCK@,
{
    assert(dock_char(name[i]));
}

/// What a file of pointers is taken for: an id only if it is just as long as one; ids only if
/// it holds no part of one; and heads only if there is one at least.
pub proof fn law_cut_files_count_for_nothing(b: Seq<u8>)
    ensures
        only_id(Some(b)) is Some <==> b.len() == 32,
        only_id(Some(b)) is Some ==> only_id(Some(b))->Some_0 == b,
        only_change_id(Some(b)) is Some <==> b.len() == 16,
        only_change_id(Some(b)) is Some ==> only_change_id(Some(b))->Some_0 == b,
        heads_in(Some(b)) is Some <==> b.len() > 0 && b.len() % 32 == 0,
        heads_in(Some(b)) is Some ==> heads_in(Some(b))->Some_0 == ids_from(b),
        b.len() % 32 != 0 ==> abandoned_in(Some(b)) == Set::<Id>::empty(),
        b.len() % 32 == 0 ==> abandoned_in(Some(b)) == ids_from(b).to_set(),
        only_id(None) is None && only_change_id(None) is None && heads_in(None) is None,
        abandoned_in(None) == Set::<Id>::empty(),
{
}

/// The dock that one is on is the one that the pointer names, and home where it names none.
pub proof fn law_ambient_dock_is_named(b: Seq<u8>)
    ensures
        ambient_dock(None) == "main"@,
        raw_text(b) is Err ==> ambient_dock(Some(b)) == "main"@,
        raw_text(b) is Ok && trimmed(raw_text(b)->Ok_0).len() == 0 ==> ambient_dock(Some(b)) == "main"@,
        raw_text(b) is Ok && trimmed(raw_text(b)->Ok_0).len() > 0 ==> ambient_dock(Some(b)) == trimmed(
            raw_text(b)->Ok_0,
        ),
{
}

/// A name can be a new dock's just where it is made of letters, digits, dashes and
/// underscores, is not home's, and is neither empty nor too long.
pub proof fn law_what_a_dock_can_be_named(name: Seq<char>)
    ensures
        dock_name_fault(name) is None <==> name.len() > 0 && name != "main"@ && encode_utf8(name).len() <= 64 && forall|
            i: int,
        |
            0 <= i < name.len() ==> ('a' <= #[trigger] name[i] <= 'z' || 'A' <= name[i] <= 'Z' || '0' <= name[i] <= '9'
                || name[i] == '-' || name[i] == '_'),
{
    if dock_chars(name) {
        assert forall|i: int| 0 <= i < name.len() implies ('a' <= #[trigger] name[i] <= 'z' || 'A' <= name[i] <= 'Z'
            || '0' <= name[i] <= '9' || name[i] == '-' || name[i] == '_') by {
            assert(dock_char(name[i]));
        }
    }
    if forall|i: int|
        0 <= i < name.len() ==> ('a' <= #[trigger] name[i] <= 'z' || 'A' <= name[i] <= 'Z' || '0' <= name[i] <= '9'
            || name[i] == '-' || name[i] == '_') {
        assert forall|i: int| 0 <= i < name.len() implies dock_char(#[trigger] name[i]) by {}
    }
}

} // verus!
