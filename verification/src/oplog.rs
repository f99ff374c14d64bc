//! The log of operations, and undo.
//!
//! Each operation holds the view it left: the pointers into history that it reset.
//! Going back is a new operation whose view is an earlier one's, so the log only
//! grows and there is always something to come back to. An operation that cannot
//! be taken back is a barrier, which undo does not cross.

use crate::ancestry::Id;
use crate::format::{
    lemma_list_back, lemma_version_back, list_bytes, list_fits, parse_list, parse_version, put_version,
    read_version, version_bytes, Cursor, Parsed, Wire, FORMAT_MAJOR,
};
use crate::sorted::{lemma_set_is_listed, members_of};
use crate::store::{
    dock_file, dock_model, docks_in_order, file_at, ids_from, is_dock, is_part, law_dock_files_are_apart, root_file,
    with_file, Disk, DiskModel, RepoStore, HOME_DOCK,
};
use crate::text::{decimal, push_decimal, push_text, same_text};
use crate::types::{error_text, ErrorModel, Oid, RepoError};
use crate::value::Value;
use vstd::prelude::*;

verus! {

/// Putting bytes behind bytes, in whatever order.
proof fn lemma_join(a: Seq<u8>, b: Seq<u8>, c: Seq<u8>)
    ensures
        a + b + c == a + (b + c),
{
    assert(a + b + c =~= a + (b + c));
}

/// The pointers of one dock: what its files held, or that they were absent.
#[derive(Debug, PartialEq, Eq)]
pub struct DockView {
    pub name: String,
    pub working: Option<Vec<u8>>,
    pub tip: Option<Vec<u8>>,
    pub tree_hash: Option<Vec<u8>>,
    pub next_change: Option<Vec<u8>>,
}

/// The model of a [`DockView`].
pub struct DockModel {
    pub name: Seq<char>,
    pub working: Option<Seq<u8>>,
    pub tip: Option<Seq<u8>>,
    pub tree_hash: Option<Seq<u8>>,
    pub next_change: Option<Seq<u8>>,
}

impl DeepView for DockView {
    type V = DockModel;

    open spec fn deep_view(&self) -> DockModel {
        DockModel {
            name: self.name@,
            working: self.working.deep_view(),
            tip: self.tip.deep_view(),
            tree_hash: self.tree_hash.deep_view(),
            next_change: self.next_change.deep_view(),
        }
    }
}

impl Value for DockView {
    fn dup(&self) -> (r: Self) {
        DockView {
            name: self.name.clone(),
            working: self.working.dup(),
            tip: self.tip.dup(),
            tree_hash: self.tree_hash.dup(),
            next_change: self.next_change.dup(),
        }
    }

    fn same(&self, other: &Self) -> (b: bool) {
        self.name == other.name && self.working.same(&other.working) && self.tip.same(&other.tip)
            && self.tree_hash.same(&other.tree_hash) && self.next_change.same(&other.next_change)
    }
}

/// A dock in bytes.
pub type DockRow = (String, (Option<Vec<u8>>, (Option<Vec<u8>>, (Option<Vec<u8>>, Option<Vec<u8>>))));

pub open spec fn dock_row(d: DockModel) -> (
    Seq<char>,
    (Option<Seq<u8>>, (Option<Seq<u8>>, (Option<Seq<u8>>, Option<Seq<u8>>))),
) {
    (d.name, (d.working, (d.tip, (d.tree_hash, d.next_change))))
}

impl Wire for DockView {
    open spec fn wire(v: DockModel) -> Seq<u8> {
        DockRow::wire(dock_row(v))
    }

    open spec fn parse(s: Seq<u8>) -> Parsed<DockModel> {
        match DockRow::parse(s) {
            Ok((r, rest)) => Ok(
                (
                    DockModel {
                        name: r.0,
                        working: r.1.0,
                        tip: r.1.1.0,
                        tree_hash: r.1.1.1.0,
                        next_change: r.1.1.1.1,
                    },
                    rest,
                ),
            ),
            Err(e) => Err(e),
        }
    }

    open spec fn fits(v: DockModel) -> bool {
        DockRow::fits(dock_row(v))
    }

    proof fn round_trip(v: DockModel, t: Seq<u8>) {
        DockRow::round_trip(dock_row(v), t);
    }

    fn write(&self, out: &mut Vec<u8>) {
        self.name.write(out);
        self.working.write(out);
        self.tip.write(out);
        self.tree_hash.write(out);
        self.next_change.write(out);
        assert(out@ =~= old(out)@ + Self::wire(self.deep_view()));
    }

    fn read(c: &mut Cursor) -> (r: Result<Self, RepoError>) {
        let (name, (working, (tip, (tree_hash, next_change)))) = DockRow::read(c)?;
        Ok(DockView { name, working, tip, tree_hash, next_change })
    }
}

/// What an operation can bring back: the heads, the working change, the conflicts,
/// the dock that one is on, and each dock's pointers.
#[derive(Debug, PartialEq, Eq)]
pub struct OpView {
    pub heads: Option<Vec<u8>>,
    pub working_change: Option<Vec<u8>>,
    pub conflicts: Option<Vec<u8>>,
    pub dock_pointer: Option<Vec<u8>>,
    pub docks: Vec<DockView>,
}

/// The model of a [`OpView`].
pub struct ViewModel {
    pub heads: Option<Seq<u8>>,
    pub working_change: Option<Seq<u8>>,
    pub conflicts: Option<Seq<u8>>,
    pub dock_pointer: Option<Seq<u8>>,
    pub docks: Seq<DockModel>,
}

impl DeepView for OpView {
    type V = ViewModel;

    open spec fn deep_view(&self) -> ViewModel {
        ViewModel {
            heads: self.heads.deep_view(),
            working_change: self.working_change.deep_view(),
            conflicts: self.conflicts.deep_view(),
            dock_pointer: self.dock_pointer.deep_view(),
            docks: self.docks.deep_view(),
        }
    }
}

impl Value for OpView {
    fn dup(&self) -> (r: Self) {
        OpView {
            heads: self.heads.dup(),
            working_change: self.working_change.dup(),
            conflicts: self.conflicts.dup(),
            dock_pointer: self.dock_pointer.dup(),
            docks: self.docks.dup(),
        }
    }

    fn same(&self, other: &Self) -> (b: bool) {
        self.heads.same(&other.heads) && self.working_change.same(&other.working_change) && self.conflicts.same(
            &other.conflicts,
        ) && self.dock_pointer.same(&other.dock_pointer) && self.docks.same(&other.docks)
    }
}

/// A view in bytes.
pub type ViewRow = (
    Option<Vec<u8>>,
    (Option<Vec<u8>>, (Option<Vec<u8>>, (Option<Vec<u8>>, Vec<DockView>))),
);

pub open spec fn view_row(v: ViewModel) -> (
    Option<Seq<u8>>,
    (Option<Seq<u8>>, (Option<Seq<u8>>, (Option<Seq<u8>>, Seq<DockModel>))),
) {
    (v.heads, (v.working_change, (v.conflicts, (v.dock_pointer, v.docks))))
}

impl Wire for OpView {
    open spec fn wire(v: ViewModel) -> Seq<u8> {
        ViewRow::wire(view_row(v))
    }

    open spec fn parse(s: Seq<u8>) -> Parsed<ViewModel> {
        match ViewRow::parse(s) {
            Ok((r, rest)) => Ok(
                (
                    ViewModel {
                        heads: r.0,
                        working_change: r.1.0,
                        conflicts: r.1.1.0,
                        dock_pointer: r.1.1.1.0,
                        docks: r.1.1.1.1,
                    },
                    rest,
                ),
            ),
            Err(e) => Err(e),
        }
    }

    open spec fn fits(v: ViewModel) -> bool {
        ViewRow::fits(view_row(v))
    }

    proof fn round_trip(v: ViewModel, t: Seq<u8>) {
        ViewRow::round_trip(view_row(v), t);
    }

    #[verifier::spinoff_prover]
    fn write(&self, out: &mut Vec<u8>) {
        let ghost v = self.deep_view();
        let ghost o = out@;
        let ghost a = Option::<Vec<u8>>::wire(v.heads);
        let ghost b = Option::<Vec<u8>>::wire(v.working_change);
        let ghost c = Option::<Vec<u8>>::wire(v.conflicts);
        let ghost d = Option::<Vec<u8>>::wire(v.dock_pointer);
        let ghost e = Vec::<DockView>::wire(v.docks);
        self.heads.write(out);
        self.working_change.write(out);
        self.conflicts.write(out);
        self.dock_pointer.write(out);
        self.docks.write(out);
        assert(out@ == o + a + b + c + d + e);
        assert(Self::wire(v) == a + (b + (c + (d + e))));
        proof {
            lemma_join(o + a + b + c, d, e);
            lemma_join(o + a + b, c, d + e);
            lemma_join(o + a, b, c + (d + e));
            lemma_join(o, a, b + (c + (d + e)));
        }
    }

    fn read(c: &mut Cursor) -> (r: Result<Self, RepoError>) {
        let (heads, (working_change, (conflicts, (dock_pointer, docks)))) = ViewRow::read(c)?;
        Ok(OpView { heads, working_change, conflicts, dock_pointer, docks })
    }
}

/// A dock's files stand at the root if it is home.
pub open spec fn selector(name: Seq<char>) -> Option<Seq<char>> {
    if name == HOME_DOCK@ {
        None
    } else {
        Some(name)
    }
}

/// The pointers of a dock as they stand.
pub open spec fn captured_dock(dot: Seq<char>, d: DiskModel, name: Seq<char>) -> DockModel {
    DockModel {
        name,
        working: file_at(d, dock_file(dot, selector(name), "working"@)),
        tip: file_at(d, dock_file(dot, selector(name), "tip"@)),
        tree_hash: file_at(d, dock_file(dot, selector(name), "tree-hash"@)),
        next_change: file_at(d, dock_file(dot, selector(name), "next-change"@)),
    }
}

/// The view as it stands.
pub open spec fn captured(dot: Seq<char>, d: DiskModel) -> ViewModel {
    ViewModel {
        heads: file_at(d, root_file(dot, "heads"@)),
        working_change: file_at(d, root_file(dot, "working-change"@)),
        conflicts: file_at(d, root_file(dot, "conflicts"@)),
        dock_pointer: file_at(d, root_file(dot, "dock"@)),
        docks: docks_in_order(d).map_values(|n: Seq<char>| captured_dock(dot, d, n)),
    }
}

/// The disk with a dock's pointers as a view has them.
pub open spec fn with_dock(dot: Seq<char>, d: DiskModel, v: DockModel) -> DiskModel {
    let sel = selector(v.name);
    let d0 = if sel is Some {
        DiskModel { files: d.files, docks: d.docks.insert(v.name) }
    } else {
        d
    };
    let d1 = with_file(d0, dock_file(dot, sel, "working"@), v.working);
    let d2 = with_file(d1, dock_file(dot, sel, "tip"@), v.tip);
    let d3 = with_file(d2, dock_file(dot, sel, "tree-hash"@), v.tree_hash);
    with_file(d3, dock_file(dot, sel, "next-change"@), v.next_change)
}

pub open spec fn with_docks(dot: Seq<char>, d: DiskModel, vs: Seq<DockModel>) -> DiskModel
    decreases vs.len(),
{
    if vs.len() == 0 {
        d
    } else {
        with_dock(dot, with_docks(dot, d, vs.drop_last()), vs.last())
    }
}

/// The disk with the pointers as a view has them. What was absent is removed;
/// nothing but pointers is touched.
pub open spec fn restored(dot: Seq<char>, d: DiskModel, v: ViewModel) -> DiskModel {
    let d1 = with_file(d, root_file(dot, "heads"@), v.heads);
    let d2 = with_file(d1, root_file(dot, "working-change"@), v.working_change);
    let d3 = with_file(d2, root_file(dot, "conflicts"@), v.conflicts);
    let d4 = with_file(d3, root_file(dot, "dock"@), v.dock_pointer);
    with_docks(dot, d4, v.docks)
}

/// The heads that a view's bytes name.
pub open spec fn view_heads(v: ViewModel) -> Seq<Id> {
    match v.heads {
        Some(b) => ids_from(b),
        None => Seq::empty(),
    }
}

fn select(name: &String) -> (r: Option<&str>)
    ensures
        dock_model(r) == selector(name@),
{
    if same_text(name.as_str(), HOME_DOCK) {
        None
    } else {
        Some(name.as_str())
    }
}

impl OpView {
    /// The view as it stands.
    pub fn capture(store: &RepoStore, disk: &Disk) -> (r: OpView)
        ensures
            r.deep_view() == captured(store.deep_view(), disk.deep_view()),
    {
        let ghost dot = store.deep_view();
        let ghost d = disk.deep_view();
        let names = store.list_docks(disk);
        let ghost ns = names.deep_view();
        let ghost f = |n: Seq<char>| captured_dock(dot, d, n);
        let mut docks: Vec<DockView> = crate::seqs::none();
        let mut i: usize = 0;
        assert(docks.deep_view() =~= ns.take(0).map_values(f));
        while i < names.len()
            invariant
                0 <= i <= names@.len(),
                ns == names.deep_view(),
                dot == store.deep_view(),
                d == disk.deep_view(),
                f == (|n: Seq<char>| captured_dock(dot, d, n)),
                docks.deep_view() == ns.take(i as int).map_values(f),
            decreases names@.len() - i,
        {
            let name = &names[i];
            let sel = select(name);
            let v = DockView {
                name: name.clone(),
                working: disk.read(&store.working(sel)),
                tip: disk.read(&store.tip(sel)),
                tree_hash: disk.read(&store.tree_hash(sel)),
                next_change: disk.read(&store.next_change(sel)),
            };
            assert(v.deep_view() == captured_dock(dot, d, ns[i as int]));
            crate::seqs::push(&mut docks, v);
            assert(docks.deep_view() =~= ns.take(i as int + 1).map_values(f));
            i = i + 1;
        }
        assert(ns.take(ns.len() as int) =~= ns);
        OpView {
            heads: disk.read(&store.heads()),
            working_change: disk.read(&store.working_change()),
            conflicts: disk.read(&store.conflicts()),
            dock_pointer: disk.read(&store.dock_pointer()),
            docks,
        }
    }

    /// Puts the pointers back as this view has them.
    pub fn restore(&self, store: &RepoStore, disk: &mut Disk)
        ensures
            final(disk).deep_view() == restored(store.deep_view(), old(disk).deep_view(), self.deep_view()),
    {
        let ghost dot = store.deep_view();
        disk.put_file(store.heads(), self.heads.dup());
        disk.put_file(store.working_change(), self.working_change.dup());
        disk.put_file(store.conflicts(), self.conflicts.dup());
        disk.put_file(store.dock_pointer(), self.dock_pointer.dup());
        let ghost d4 = disk.deep_view();
        let ghost vs = self.docks.deep_view();
        let mut i: usize = 0;
        assert(vs.take(0) =~= Seq::<DockModel>::empty());
        while i < self.docks.len()
            invariant
                0 <= i <= self.docks@.len(),
                vs == self.docks.deep_view(),
                dot == store.deep_view(),
                disk.deep_view() == with_docks(dot, d4, vs.take(i as int)),
            decreases self.docks@.len() - i,
        {
            let v = &self.docks[i];
            proof {
                assert(vs.take(i as int + 1).drop_last() =~= vs.take(i as int));
                assert(vs.take(i as int + 1).last() == v.deep_view());
            }
            let sel = select(&v.name);
            if sel.is_some() {
                store.ensure_dock_dir(disk, v.name.as_str());
            }
            disk.put_file(store.working(sel), v.working.dup());
            disk.put_file(store.tip(sel), v.tip.dup());
            disk.put_file(store.tree_hash(sel), v.tree_hash.dup());
            disk.put_file(store.next_change(sel), v.next_change.dup());
            i = i + 1;
        }
        assert(vs.take(vs.len() as int) =~= vs);
    }

    /// The heads that this view names.
    pub fn heads(&self) -> (r: Vec<Oid>)
        ensures
            r.deep_view() == view_heads(self.deep_view()),
    {
        match &self.heads {
            Some(b) => {
                assert(b.deep_view() =~= b@);
                crate::store::decode_oids(b.as_slice())
            },
            None => crate::seqs::none(),
        }
    }
}

/// One operation: the view it left, and what is shown of it.
#[derive(Debug, PartialEq, Eq)]
pub struct Operation {
    /// Its place in the log, from 1.
    pub index: u32,
    /// The place of the operation whose view this is: its own, or that of the one
    /// it went back to.
    pub pos: u32,
    pub time: u64,
    pub command: String,
    pub dock: String,
    pub description: String,
    /// Undo does not cross this.
    pub barrier: bool,
    pub view: OpView,
}

/// The model of an [`Operation`].
pub struct OpModel {
    pub index: u32,
    pub pos: u32,
    pub time: u64,
    pub command: Seq<char>,
    pub dock: Seq<char>,
    pub description: Seq<char>,
    pub barrier: bool,
    pub view: ViewModel,
}

impl DeepView for Operation {
    type V = OpModel;

    open spec fn deep_view(&self) -> OpModel {
        OpModel {
            index: self.index,
            pos: self.pos,
            time: self.time,
            command: self.command@,
            dock: self.dock@,
            description: self.description@,
            barrier: self.barrier,
            view: self.view.deep_view(),
        }
    }
}

impl Value for Operation {
    fn dup(&self) -> (r: Self) {
        Operation {
            index: self.index,
            pos: self.pos,
            time: self.time,
            command: self.command.clone(),
            dock: self.dock.clone(),
            description: self.description.clone(),
            barrier: self.barrier,
            view: self.view.dup(),
        }
    }

    fn same(&self, other: &Self) -> (b: bool) {
        self.index == other.index && self.pos == other.pos && self.time == other.time && self.command
            == other.command && self.dock == other.dock && self.description == other.description && self.barrier
            == other.barrier && self.view.same(&other.view)
    }
}

/// An operation in bytes.
pub type OpRow = (u32, (u32, (u64, (String, (String, (String, (bool, OpView)))))));

pub open spec fn op_row(o: OpModel) -> (
    u32,
    (u32, (u64, (Seq<char>, (Seq<char>, (Seq<char>, (bool, ViewModel)))))),
) {
    (o.index, (o.pos, (o.time, (o.command, (o.dock, (o.description, (o.barrier, o.view)))))))
}

impl Wire for Operation {
    open spec fn wire(v: OpModel) -> Seq<u8> {
        OpRow::wire(op_row(v))
    }

    open spec fn parse(s: Seq<u8>) -> Parsed<OpModel> {
        match OpRow::parse(s) {
            Ok((r, rest)) => Ok(
                (
                    OpModel {
                        index: r.0,
                        pos: r.1.0,
                        time: r.1.1.0,
                        command: r.1.1.1.0,
                        dock: r.1.1.1.1.0,
                        description: r.1.1.1.1.1.0,
                        barrier: r.1.1.1.1.1.1.0,
                        view: r.1.1.1.1.1.1.1,
                    },
                    rest,
                ),
            ),
            Err(e) => Err(e),
        }
    }

    open spec fn fits(v: OpModel) -> bool {
        OpRow::fits(op_row(v))
    }

    proof fn round_trip(v: OpModel, t: Seq<u8>) {
        OpRow::round_trip(op_row(v), t);
    }

    fn write(&self, out: &mut Vec<u8>) {
        let ghost v = self.deep_view();
        let ghost o = out@;
        let ghost a = u32::wire(v.index);
        let ghost b = u32::wire(v.pos);
        let ghost c = u64::wire(v.time);
        let ghost d = String::wire(v.command);
        let ghost e = String::wire(v.dock);
        let ghost f = String::wire(v.description);
        let ghost g = bool::wire(v.barrier);
        let ghost h = OpView::wire(v.view);
        self.index.write(out);
        self.pos.write(out);
        self.time.write(out);
        self.command.write(out);
        self.dock.write(out);
        self.description.write(out);
        self.barrier.write(out);
        self.view.write(out);
        assert(out@ == o + a + b + c + d + e + f + g + h);
        assert(Self::wire(v) == a + (b + (c + (d + (e + (f + (g + h)))))));
        proof {
            lemma_join(o + a + b + c + d + e + f, g, h);
            lemma_join(o + a + b + c + d + e, f, g + h);
            lemma_join(o + a + b + c + d, e, f + (g + h));
            lemma_join(o + a + b + c, d, e + (f + (g + h)));
            lemma_join(o + a + b, c, d + (e + (f + (g + h))));
            lemma_join(o + a, b, c + (d + (e + (f + (g + h)))));
            lemma_join(o, a, b + (c + (d + (e + (f + (g + h))))));
        }
    }

    fn read(c: &mut Cursor) -> (r: Result<Self, RepoError>) {
        let (index, (pos, (time, (command, (dock, (description, (barrier, view))))))) = OpRow::read(c)?;
        Ok(Operation { index, pos, time, command, dock, description, barrier, view })
    }
}

impl Operation {
    /// The heads after this operation.
    pub fn heads(&self) -> (r: Vec<Oid>)
        ensures
            r.deep_view() == view_heads(self.deep_view().view),
    {
        self.view.heads()
    }
}

/// A barrier that stood in the way.
#[derive(Debug, PartialEq, Eq)]
pub struct BarrierRefusal {
    pub index: u32,
    pub command: String,
    pub description: String,
}

/// Why a step was not taken.
#[derive(Debug, PartialEq, Eq)]
pub enum StepError {
    /// There is nothing to go to.
    Nothing(String),
    /// The step would cross a barrier.
    Barrier(BarrierRefusal),
    /// The log could not be read.
    Io(String),
}

/// The model of a [`StepError`].
pub enum StepModel {
    Nothing(Seq<char>),
    Barrier { index: u32, command: Seq<char>, description: Seq<char> },
    Io(Seq<char>),
}

impl DeepView for StepError {
    type V = StepModel;

    open spec fn deep_view(&self) -> StepModel {
        match self {
            StepError::Nothing(t) => StepModel::Nothing(t@),
            StepError::Barrier(b) => StepModel::Barrier {
                index: b.index,
                command: b.command@,
                description: b.description@,
            },
            StepError::Io(t) => StepModel::Io(t@),
        }
    }
}

/// A step that was taken: the operation that stands for it, and the one whose view
/// it brought back.
#[derive(Debug, PartialEq, Eq)]
pub struct Stepped {
    pub appended: Operation,
    pub restored_to: u32,
}

/// The bytes of a log.
pub open spec fn log_bytes(ops: Seq<OpModel>) -> Seq<u8> {
    version_bytes(FORMAT_MAJOR) + list_bytes::<Operation>(ops)
}

pub open spec fn parse_log(s: Seq<u8>) -> Result<Seq<OpModel>, ErrorModel> {
    match parse_version(s, FORMAT_MAJOR) {
        Ok((v, rest)) => match parse_list::<Operation>(rest) {
            Ok((ops, rest2)) => Ok(ops),
            Err(e) => Err(e),
        },
        Err(e) => Err(e),
    }
}

/// The log on a disk. One that is absent is empty.
pub open spec fn log_on(dot: Seq<char>, d: DiskModel) -> Result<Seq<OpModel>, ErrorModel> {
    match file_at(d, root_file(dot, "ops"@)) {
        Some(b) => parse_log(b),
        None => Ok(Seq::empty()),
    }
}

/// The disk with a log written.
pub open spec fn with_log(dot: Seq<char>, d: DiskModel, ops: Seq<OpModel>) -> DiskModel {
    with_file(d, root_file(dot, "ops"@), Some(log_bytes(ops)))
}

/// The log in bytes.
pub fn encode(ops: &Vec<Operation>) -> (r: Vec<u8>)
    ensures
        r@ == log_bytes(ops.deep_view()),
{
    let mut out: Vec<u8> = Vec::new();
    put_version(&mut out, FORMAT_MAJOR);
    ops.write(&mut out);
    assert(out@ =~= log_bytes(ops.deep_view()));
    out
}

pub fn decode(b: &[u8]) -> (r: Result<Vec<Operation>, RepoError>)
    ensures
        match r {
            Ok(ops) => parse_log(b@) == Ok::<Seq<OpModel>, ErrorModel>(ops.deep_view()),
            Err(e) => parse_log(b@) == Err::<Seq<OpModel>, ErrorModel>(e.deep_view()),
        },
{
    let mut c = Cursor::new(b);
    let _ = read_version(&mut c, FORMAT_MAJOR)?;
    Vec::<Operation>::read(&mut c)
}

/// A log comes back from its bytes as it went in.
pub proof fn law_log_round_trip(ops: Seq<OpModel>)
    requires
        list_fits::<Operation>(ops),
    ensures
        parse_log(log_bytes(ops)) == Ok::<Seq<OpModel>, ErrorModel>(ops),
{
    let body = list_bytes::<Operation>(ops);
    lemma_version_back(FORMAT_MAJOR, FORMAT_MAJOR, body);
    lemma_list_back::<Operation>(ops, Seq::empty());
    assert(body + Seq::<u8>::empty() =~= body);
}

/// The whole log, oldest first.
pub fn read(store: &RepoStore, disk: &Disk) -> (r: Result<Vec<Operation>, RepoError>)
    ensures
        match r {
            Ok(ops) => log_on(store.deep_view(), disk.deep_view()) == Ok::<Seq<OpModel>, ErrorModel>(
                ops.deep_view(),
            ),
            Err(e) => log_on(store.deep_view(), disk.deep_view()) == Err::<Seq<OpModel>, ErrorModel>(e.deep_view()),
        },
{
    match disk.read(&store.ops()) {
        Some(b) => {
            assert(b.deep_view() =~= b@);
            decode(b.as_slice())
        },
        None => Ok(crate::seqs::none()),
    }
}

/// The most operations that a log can number.
pub const LOG_MAX: usize = 0xffff_ffff;

/// The error of a log that can number no more.
pub open spec fn log_full() -> ErrorModel {
    ErrorModel::Backend("operation log is full"@)
}

/// A new operation behind the others.
pub open spec fn next_op(
    ops: Seq<OpModel>,
    command: Seq<char>,
    dock: Seq<char>,
    description: Seq<char>,
    barrier: bool,
    now: u64,
    view: ViewModel,
) -> OpModel {
    OpModel {
        index: (ops.len() + 1) as u32,
        pos: (ops.len() + 1) as u32,
        time: now,
        command,
        dock,
        description,
        barrier,
        view,
    }
}

/// Records an operation with the view as it stands.
#[verifier::spinoff_prover]
#[verifier::rlimit(40)]
pub fn record(
    store: &RepoStore,
    disk: &mut Disk,
    command: &str,
    dock: &str,
    description: &str,
    barrier: bool,
    now: u64,
) -> (r: Result<Operation, RepoError>)
    ensures
        match log_on(store.deep_view(), old(disk).deep_view()) {
            Err(e) => r is Err && r->Err_0.deep_view() == e && final(disk).deep_view() == old(disk).deep_view(),
            Ok(ops) => if ops.len() >= LOG_MAX {
                r is Err && r->Err_0.deep_view() == log_full() && final(disk).deep_view() == old(disk).deep_view()
            } else {
                let op = next_op(
                    ops,
                    command@,
                    dock@,
                    description@,
                    barrier,
                    now,
                    captured(store.deep_view(), old(disk).deep_view()),
                );
                &&& r matches Ok(x) && x.deep_view() == op
                &&& final(disk).deep_view() == with_log(
                    store.deep_view(),
                    old(disk).deep_view(),
                    ops.push(op),
                )
            },
        },
{
    let mut ops = read(store, disk)?;
    assert(ops.deep_view().len() == ops@.len());
    if ops.len() >= LOG_MAX {
        return Err(RepoError::Backend("operation log is full".to_owned()));
    }
    let index: u32 = ops.len() as u32 + 1;
    let op = Operation {
        index,
        pos: index,
        time: now,
        command: command.to_owned(),
        dock: dock.to_owned(),
        description: description.to_owned(),
        barrier,
        view: OpView::capture(store, disk),
    };
    crate::seqs::push(&mut ops, op.dup());
    write_log(store, disk, &ops);
    Ok(op)
}

fn write_log(store: &RepoStore, disk: &mut Disk, ops: &Vec<Operation>)
    ensures
        final(disk).deep_view() == with_log(store.deep_view(), old(disk).deep_view(), ops.deep_view()),
{
    let b = encode(ops);
    assert(b.deep_view() =~= b@);
    disk.put_file(store.ops(), Some(b));
}

/// The operation at a place.
pub open spec fn op_at(ops: Seq<OpModel>, index: u32) -> Option<OpModel> {
    if 1 <= index <= ops.len() {
        Some(ops[index - 1])
    } else {
        None
    }
}

/// The words for an empty log.
pub open spec fn nothing_recorded() -> StepModel {
    StepModel::Nothing("nothing to undo — no operations recorded yet"@)
}

/// A barrier that stands in the way.
pub open spec fn refusal(o: OpModel) -> StepModel {
    StepModel::Barrier { index: o.index, command: o.command, description: o.description }
}

/// Where the log stands: the operation whose view is on the disk.
pub open spec fn current_of(ops: Seq<OpModel>) -> u32 {
    if ops.len() == 0 {
        0u32
    } else {
        ops.last().pos
    }
}

/// Where undo goes, and what it says.
pub open spec fn undo_target(ops: Seq<OpModel>) -> Result<(u32, Seq<char>), StepModel> {
    if ops.len() == 0 {
        Err(nothing_recorded())
    } else {
        let current = current_of(ops);
        match op_at(ops, current) {
            None => Err(nothing_recorded()),
            Some(o) => if o.barrier {
                Err(refusal(o))
            } else if current <= 1 {
                Err(StepModel::Nothing("nothing to undo — already at the initial operation"@))
            } else {
                Ok(
                    (
                        (current - 1) as u32,
                        "undid op "@ + decimal(current as nat) + " ("@ + o.command + ")"@,
                    ),
                )
            },
        }
    }
}

/// Between two places, the later one counted.
pub open spec fn crosses(o: OpModel, target: u32, current: u32) -> bool {
    o.pos > target && o.pos <= current && o.barrier
}

/// What going to a place says, if nothing stands in the way.
pub open spec fn restore_target(ops: Seq<OpModel>, target: u32) -> Result<Seq<char>, StepModel> {
    if op_at(ops, target) is None {
        Err(
            StepModel::Nothing(
                "no operation "@ + decimal(target as nat) + " in the log (see `loot op log`)"@,
            ),
        )
    } else {
        let current = current_of(ops);
        let barriers = ops.filter(|o: OpModel| crosses(o, target, current));
        if target < current && barriers.len() > 0 {
            Err(refusal(barriers[0]))
        } else {
            Ok("restored to op "@ + decimal(target as nat))
        }
    }
}

/// The operation that stands for going to a place.
pub open spec fn step_op(
    ops: Seq<OpModel>,
    target: u32,
    dock: Seq<char>,
    command: Seq<char>,
    description: Seq<char>,
    now: u64,
) -> OpModel {
    OpModel {
        index: (ops.len() + 1) as u32,
        pos: target,
        time: now,
        command,
        dock,
        description,
        barrier: false,
        view: op_at(ops, target)->Some_0.view,
    }
}

/// The disk after going to a place.
pub open spec fn stepped(
    dot: Seq<char>,
    d: DiskModel,
    ops: Seq<OpModel>,
    target: u32,
    dock: Seq<char>,
    command: Seq<char>,
    description: Seq<char>,
    now: u64,
) -> DiskModel {
    let op = step_op(ops, target, dock, command, description, now);
    with_log(dot, restored(dot, d, op.view), ops.push(op))
}

/// The operation at a place.
fn find_op(ops: &Vec<Operation>, index: u32) -> (r: Option<&Operation>)
    ensures
        match r {
            Some(o) => op_at(ops.deep_view(), index) == Some(o.deep_view()),
            None => op_at(ops.deep_view(), index) is None,
        },
{
    assert(ops.deep_view().len() == ops@.len());
    if index >= 1 && (index as usize) <= ops.len() {
        let i: usize = index as usize - 1;
        assert(ops.deep_view()[i as int] == ops@[i as int].deep_view());
        Some(&ops[i])
    } else {
        None
    }
}

/// Goes to a place, and files the operation that stands for it.
fn step_to(
    store: &RepoStore,
    disk: &mut Disk,
    ops: Vec<Operation>,
    target: u32,
    dock: &str,
    command: &str,
    description: String,
    now: u64,
) -> (r: Operation)
    requires
        op_at(ops.deep_view(), target) is Some,
        ops@.len() < LOG_MAX,
    ensures
        r.deep_view() == step_op(ops.deep_view(), target, dock@, command@, description@, now),
        final(disk).deep_view() == stepped(
            store.deep_view(),
            old(disk).deep_view(),
            ops.deep_view(),
            target,
            dock@,
            command@,
            description@,
            now,
        ),
{
    let ghost os = ops.deep_view();
    assert(os.len() == ops@.len());
    let i: usize = target as usize - 1;
    assert(os[i as int] == ops@[i as int].deep_view());
    let view = ops[i].view.dup();
    view.restore(store, disk);
    let index: u32 = ops.len() as u32 + 1;
    let op = Operation {
        index,
        pos: target,
        time: now,
        command: command.to_owned(),
        dock: dock.to_owned(),
        description,
        barrier: false,
        view,
    };
    let mut all = ops;
    crate::seqs::push(&mut all, op.dup());
    write_log(store, disk, &all);
    op
}

/// Goes one operation back. A barrier is not crossed; going back grows the log.
pub fn undo(store: &RepoStore, disk: &mut Disk, dock: &str, now: u64) -> (r: Result<Stepped, StepError>)
    ensures
        match log_on(store.deep_view(), old(disk).deep_view()) {
            Err(e) => r is Err && r->Err_0.deep_view() == StepModel::Io(error_text(e)) && final(disk).deep_view()
                == old(disk).deep_view(),
            Ok(ops) => match undo_target(ops) {
                Err(e) => r is Err && r->Err_0.deep_view() == e && final(disk).deep_view() == old(
                    disk,
                ).deep_view(),
                Ok((target, words)) => if ops.len() >= LOG_MAX {
                    r is Err && r->Err_0.deep_view() == StepModel::Io(error_text(log_full()))
                        && final(disk).deep_view() == old(disk).deep_view()
                } else {
                    &&& r matches Ok(s) && s.restored_to == target && s.appended.deep_view() == step_op(
                        ops,
                        target,
                        dock@,
                        "undo"@,
                        words,
                        now,
                    )
                    &&& final(disk).deep_view() == stepped(
                        store.deep_view(),
                        old(disk).deep_view(),
                        ops,
                        target,
                        dock@,
                        "undo"@,
                        words,
                        now,
                    )
                },
            },
        },
{
    let ops = match read(store, disk) {
        Ok(v) => v,
        Err(e) => {
            return Err(StepError::Io(e.text()));
        },
    };
    let ghost os = ops.deep_view();
    assert(os.len() == ops@.len());
    if ops.len() == 0 {
        return Err(StepError::Nothing("nothing to undo — no operations recorded yet".to_owned()));
    }
    let last: usize = ops.len() - 1;
    assert(os[last as int] == ops@[last as int].deep_view());
    let current: u32 = ops[last].pos;
    let mut words = "undid op ".to_owned();
    match find_op(&ops, current) {
        None => {
            return Err(StepError::Nothing("nothing to undo — no operations recorded yet".to_owned()));
        },
        Some(o) => {
            if o.barrier {
                return Err(
                    StepError::Barrier(
                        BarrierRefusal {
                            index: o.index,
                            command: o.command.clone(),
                            description: o.description.clone(),
                        },
                    ),
                );
            }
            push_decimal(&mut words, current as u64);
            push_text(&mut words, " (");
            push_text(&mut words, o.command.as_str());
            push_text(&mut words, ")");
        },
    }
    if current <= 1 {
        return Err(StepError::Nothing("nothing to undo — already at the initial operation".to_owned()));
    }
    if ops.len() >= LOG_MAX {
        return Err(StepError::Io(RepoError::Backend("operation log is full".to_owned()).text()));
    }
    let target: u32 = current - 1;
    let appended = step_to(store, disk, ops, target, dock, "undo", words, now);
    Ok(Stepped { appended, restored_to: target })
}

/// Goes to any operation. Going back does not cross a barrier; going forth always
/// arrives.
pub fn restore(store: &RepoStore, disk: &mut Disk, dock: &str, target: u32, now: u64) -> (r: Result<
    Stepped,
    StepError,
>)
    ensures
        match log_on(store.deep_view(), old(disk).deep_view()) {
            Err(e) => r is Err && r->Err_0.deep_view() == StepModel::Io(error_text(e)) && final(disk).deep_view()
                == old(disk).deep_view(),
            Ok(ops) => match restore_target(ops, target) {
                Err(e) => r is Err && r->Err_0.deep_view() == e && final(disk).deep_view() == old(
                    disk,
                ).deep_view(),
                Ok(words) => if ops.len() >= LOG_MAX {
                    r is Err && r->Err_0.deep_view() == StepModel::Io(error_text(log_full()))
                        && final(disk).deep_view() == old(disk).deep_view()
                } else {
                    &&& r matches Ok(s) && s.restored_to == target && s.appended.deep_view() == step_op(
                        ops,
                        target,
                        dock@,
                        "restore"@,
                        words,
                        now,
                    )
                    &&& final(disk).deep_view() == stepped(
                        store.deep_view(),
                        old(disk).deep_view(),
                        ops,
                        target,
                        dock@,
                        "restore"@,
                        words,
                        now,
                    )
                },
            },
        },
{
    let ops = match read(store, disk) {
        Ok(v) => v,
        Err(e) => {
            return Err(StepError::Io(e.text()));
        },
    };
    let ghost os = ops.deep_view();
    assert(os.len() == ops@.len());
    if find_op(&ops, target).is_none() {
        let mut t = "no operation ".to_owned();
        push_decimal(&mut t, target as u64);
        push_text(&mut t, " in the log (see `loot op log`)");
        return Err(StepError::Nothing(t));
    }
    let last: usize = ops.len() - 1;
    assert(os[last as int] == ops@[last as int].deep_view());
    let current: u32 = ops[last].pos;
    let ghost f = |o: OpModel| crosses(o, target, current);
    if target < current {
        let mut i: usize = 0;
        proof {
            crate::seqs::lemma_filter_none(os, f);
        }
        while i < ops.len()
            invariant
                0 <= i <= ops@.len(),
                os == ops.deep_view(),
                os.len() == ops@.len(),
                os.len() > 0,
                current == os.last().pos,
                target < current,
                op_at(os, target) is Some,
                f == (|o: OpModel| crosses(o, target, current)),
                os.take(i as int).filter(f).len() == 0,
                log_on(store.deep_view(), old(disk).deep_view()) == Ok::<Seq<OpModel>, ErrorModel>(os),
                disk.deep_view() == old(disk).deep_view(),
            decreases ops@.len() - i,
        {
            let o = &ops[i];
            proof {
                crate::seqs::lemma_filter_step(os, i as int, f);
                assert(os[i as int] == o.deep_view());
            }
            if o.pos > target && o.pos <= current && o.barrier {
                proof {
                    crate::seqs::lemma_filter_first(os, i as int, f);
                }
                return Err(
                    StepError::Barrier(
                        BarrierRefusal {
                            index: o.index,
                            command: o.command.clone(),
                            description: o.description.clone(),
                        },
                    ),
                );
            }
            i = i + 1;
        }
        assert(os.take(os.len() as int) =~= os);
    }
    if ops.len() >= LOG_MAX {
        return Err(StepError::Io(RepoError::Backend("operation log is full".to_owned()).text()));
    }
    let mut words = "restored to op ".to_owned();
    push_decimal(&mut words, target as u64);
    let appended = step_to(store, disk, ops, target, dock, "restore", words, now);
    Ok(Stepped { appended, restored_to: target })
}

/// Going back and coming forth again, wherever the log stands: after a step to an
/// earlier operation the log holds all that it held, nothing stands in the way of going
/// to where it stood, and what is brought back there is the view that was recorded.
pub proof fn law_step_back_can_be_undone(
    dot: Seq<char>,
    d: DiskModel,
    ops: Seq<OpModel>,
    target: u32,
    dock: Seq<char>,
    command: Seq<char>,
    words: Seq<char>,
    now: u64,
)
    requires
        op_at(ops, target) is Some,
        op_at(ops, current_of(ops)) is Some,
        target <= current_of(ops),
        ops.len() < LOG_MAX,
        list_fits::<Operation>(ops.push(step_op(ops, target, dock, command, words, now))),
    ensures
        ({
            let back = stepped(dot, d, ops, target, dock, command, words, now);
            let after = ops.push(step_op(ops, target, dock, command, words, now));
            &&& log_on(dot, back) == Ok::<Seq<OpModel>, ErrorModel>(after)
            &&& forall|i: int| 0 <= i < ops.len() ==> after[i] == ops[i]
            &&& restore_target(after, current_of(ops)) is Ok
            &&& op_at(after, current_of(ops)) == op_at(ops, current_of(ops))
        }),
{
    let op = step_op(ops, target, dock, command, words, now);
    let after = ops.push(op);
    law_log_round_trip(after);
    assert(after.last().pos == target);
}

/// Undo can be undone, from any operation: with one undo, and then going to where the
/// log stood before it, the disk has the pointers of the view recorded there, and the
/// log two more operations.
pub proof fn law_undo_can_be_undone(
    dot: Seq<char>,
    d: DiskModel,
    ops: Seq<OpModel>,
    dock: Seq<char>,
    now: u64,
    later: u64,
)
    requires
        log_on(dot, d) == Ok::<Seq<OpModel>, ErrorModel>(ops),
        undo_target(ops) is Ok,
        ops.len() + 1 < LOG_MAX,
        list_fits::<Operation>(
            ops.push(
                step_op(ops, undo_target(ops)->Ok_0.0, dock, "undo"@, undo_target(ops)->Ok_0.1, now),
            ),
        ),
    ensures
        ({
            let (target, words) = undo_target(ops)->Ok_0;
            let undo_op = step_op(ops, target, dock, "undo"@, words, now);
            let undone = stepped(dot, d, ops, target, dock, "undo"@, words, now);
            let back = restore_target(ops.push(undo_op), current_of(ops));
            let redone = stepped(
                dot,
                undone,
                ops.push(undo_op),
                current_of(ops),
                dock,
                "restore"@,
                back->Ok_0,
                later,
            );
            let redo_op = step_op(ops.push(undo_op), current_of(ops), dock, "restore"@, back->Ok_0, later);
            &&& log_on(dot, undone) == Ok::<Seq<OpModel>, ErrorModel>(ops.push(undo_op))
            &&& back is Ok
            &&& redo_op.view == ops[current_of(ops) - 1].view
            &&& redo_op.pos == current_of(ops)
            &&& redone == with_log(
                dot,
                restored(dot, undone, ops[current_of(ops) - 1].view),
                ops.push(undo_op).push(redo_op),
            )
            &&& docks_ok(redo_op.view) ==> shows(dot, redone, redo_op.view)
        }),
{
    let (target, words) = undo_target(ops)->Ok_0;
    let undo_op = step_op(ops, target, dock, "undo"@, words, now);
    let undone = stepped(dot, d, ops, target, dock, "undo"@, words, now);
    let current = current_of(ops);
    let back = restore_target(ops.push(undo_op), current);
    law_step_back_can_be_undone(dot, d, ops, target, dock, "undo"@, words, now);
    if docks_ok(ops[current - 1].view) {
        law_step_brings_view_back(dot, undone, ops.push(undo_op), current, dock, "restore"@, back->Ok_0, later);
    }
}

/// Each dock of the view has a name of its own, which is one part of a path.
pub open spec fn docks_ok(v: ViewModel) -> bool {
    &&& forall|i: int| 0 <= i < v.docks.len() ==> is_part((#[trigger] v.docks[i]).name)
    &&& forall|i: int, j: int|
        0 <= i < j < v.docks.len() ==> (#[trigger] v.docks[i]).name != (#[trigger] v.docks[j]).name
}

/// The pointers on the disk are those of the view: a file that was there holds what it
/// held, and one that was absent is absent.
pub open spec fn shows(dot: Seq<char>, d: DiskModel, v: ViewModel) -> bool {
    &&& file_at(d, root_file(dot, "heads"@)) == v.heads
    &&& file_at(d, root_file(dot, "working-change"@)) == v.working_change
    &&& file_at(d, root_file(dot, "conflicts"@)) == v.conflicts
    &&& file_at(d, root_file(dot, "dock"@)) == v.dock_pointer
    &&& forall|i: int|
        0 <= i < v.docks.len() ==> captured_dock(dot, d, (#[trigger] v.docks[i]).name) == v.docks[i]
}

/// The name of a file at the root that no dock has.
spec fn is_root_name(name: Seq<char>) -> bool {
    &&& is_part(name)
    &&& name != "working"@
    &&& name != "tip"@
    &&& name != "tree-hash"@
    &&& name != "next-change"@
}

/// The names of a dock's pointers.
proof fn lemma_dock_names()
    ensures
        is_part("working"@),
        is_part("tip"@),
        is_part("tree-hash"@),
        is_part("next-change"@),
        "working"@ != "tip"@,
        "working"@ != "tree-hash"@,
        "working"@ != "next-change"@,
        "tip"@ != "tree-hash"@,
        "tip"@ != "next-change"@,
        "tree-hash"@ != "next-change"@,
{
    reveal_strlit("working");
    reveal_strlit("tip");
    reveal_strlit("tree-hash");
    reveal_strlit("next-change");
}

/// The names of the pointers at the root, and of the log.
proof fn lemma_root_names()
    ensures
        is_root_name("heads"@),
        is_root_name("working-change"@),
        is_root_name("conflicts"@),
        is_root_name("dock"@),
        is_root_name("ops"@),
        "heads"@ != "working-change"@,
        "heads"@ != "conflicts"@,
        "heads"@ != "dock"@,
        "heads"@ != "ops"@,
        "working-change"@ != "conflicts"@,
        "working-change"@ != "dock"@,
        "working-change"@ != "ops"@,
        "conflicts"@ != "dock"@,
        "conflicts"@ != "ops"@,
        "dock"@ != "ops"@,
{
    reveal_strlit("working");
    reveal_strlit("tip");
    reveal_strlit("tree-hash");
    reveal_strlit("next-change");
    reveal_strlit("heads");
    reveal_strlit("working-change");
    reveal_strlit("conflicts");
    reveal_strlit("dock");
    reveal_strlit("ops");
    assert("conflicts"@[0] != "tree-hash"@[0]);
    assert("ops"@[0] != "tip"@[0]);
}

/// Another dock's file, or a file at the root, is none of a dock's pointers.
proof fn lemma_beside_dock(dot: Seq<char>, v: DockModel, dock: Option<Seq<char>>, name: Seq<char>)
    requires
        is_part(v.name),
        is_dock(dock),
        is_part(name),
        dock != selector(v.name) || is_root_name(name),
    ensures
        beside_dock(dot, v, dock_file(dot, dock, name)),
{
    let sel = selector(v.name);
    lemma_dock_names();
    law_dock_files_are_apart(dot, dock, name, sel, "working"@);
    law_dock_files_are_apart(dot, dock, name, sel, "tip"@);
    law_dock_files_are_apart(dot, dock, name, sel, "tree-hash"@);
    law_dock_files_are_apart(dot, dock, name, sel, "next-change"@);
}

/// A dock's pointers are as they were put.
proof fn lemma_dock_shown(dot: Seq<char>, d: DiskModel, v: DockModel)
    requires
        is_part(v.name),
    ensures
        captured_dock(dot, with_dock(dot, d, v), v.name) == v,
{
    let sel = selector(v.name);
    lemma_dock_names();
    law_dock_files_are_apart(dot, sel, "working"@, sel, "tip"@);
    law_dock_files_are_apart(dot, sel, "working"@, sel, "tree-hash"@);
    law_dock_files_are_apart(dot, sel, "working"@, sel, "next-change"@);
    law_dock_files_are_apart(dot, sel, "tip"@, sel, "tree-hash"@);
    law_dock_files_are_apart(dot, sel, "tip"@, sel, "next-change"@);
    law_dock_files_are_apart(dot, sel, "tree-hash"@, sel, "next-change"@);
}

proof fn lemma_docks_shown(dot: Seq<char>, d: DiskModel, vs: Seq<DockModel>, i: int)
    requires
        0 <= i < vs.len(),
        forall|j: int| 0 <= j < vs.len() ==> is_part((#[trigger] vs[j]).name),
        forall|j: int, k: int| 0 <= j < k < vs.len() ==> (#[trigger] vs[j]).name != (#[trigger] vs[k]).name,
    ensures
        captured_dock(dot, with_docks(dot, d, vs), vs[i].name) == vs[i],
    decreases vs.len(),
{
    let front = vs.drop_last();
    let last = vs.last();
    assert(last == vs[vs.len() - 1]);
    if i == vs.len() - 1 {
        lemma_dock_shown(dot, with_docks(dot, d, front), last);
    } else {
        let sel = selector(vs[i].name);
        assert(front[i] == vs[i]);
        assert forall|j: int| 0 <= j < front.len() implies is_part((#[trigger] front[j]).name) by {
            assert(front[j] == vs[j]);
        }
        assert forall|j: int, k: int| 0 <= j < k < front.len() implies (#[trigger] front[j]).name != (
        #[trigger] front[k]).name by {
            assert(front[j] == vs[j] && front[k] == vs[k]);
        }
        lemma_docks_shown(dot, d, front, i);
        assert(vs[i].name != vs[vs.len() - 1].name);
        lemma_dock_names();
        lemma_beside_dock(dot, last, sel, "working"@);
        lemma_beside_dock(dot, last, sel, "tip"@);
        lemma_beside_dock(dot, last, sel, "tree-hash"@);
        lemma_beside_dock(dot, last, sel, "next-change"@);
    }
}

/// A file at the root is none of the docks' pointers.
proof fn lemma_root_beside(dot: Seq<char>, d: DiskModel, vs: Seq<DockModel>, name: Seq<char>)
    requires
        forall|j: int| 0 <= j < vs.len() ==> is_part((#[trigger] vs[j]).name),
        is_root_name(name),
    ensures
        file_at(with_docks(dot, d, vs), root_file(dot, name)) == file_at(d, root_file(dot, name)),
{
    assert forall|j: int| 0 <= j < vs.len() implies beside_dock(dot, #[trigger] vs[j], root_file(dot, name)) by {
        lemma_beside_dock(dot, vs[j], None, name);
    }
    lemma_docks_beside(dot, d, vs, root_file(dot, name));
}

/// After a view has been brought back, the pointers on the disk are those of the view,
/// whatever they were before.
pub proof fn law_restore_brings_pointers_back(dot: Seq<char>, d: DiskModel, v: ViewModel)
    requires
        docks_ok(v),
    ensures
        shows(dot, restored(dot, d, v), v),
{
    let d1 = with_file(d, root_file(dot, "heads"@), v.heads);
    let d2 = with_file(d1, root_file(dot, "working-change"@), v.working_change);
    let d3 = with_file(d2, root_file(dot, "conflicts"@), v.conflicts);
    let d4 = with_file(d3, root_file(dot, "dock"@), v.dock_pointer);
    lemma_root_names();
    law_dock_files_are_apart(dot, None, "heads"@, None, "working-change"@);
    law_dock_files_are_apart(dot, None, "heads"@, None, "conflicts"@);
    law_dock_files_are_apart(dot, None, "heads"@, None, "dock"@);
    law_dock_files_are_apart(dot, None, "working-change"@, None, "conflicts"@);
    law_dock_files_are_apart(dot, None, "working-change"@, None, "dock"@);
    law_dock_files_are_apart(dot, None, "conflicts"@, None, "dock"@);
    lemma_root_beside(dot, d4, v.docks, "heads"@);
    lemma_root_beside(dot, d4, v.docks, "working-change"@);
    lemma_root_beside(dot, d4, v.docks, "conflicts"@);
    lemma_root_beside(dot, d4, v.docks, "dock"@);
    assert forall|i: int| 0 <= i < v.docks.len() implies captured_dock(
        dot,
        restored(dot, d, v),
        (#[trigger] v.docks[i]).name,
    ) == v.docks[i] by {
        lemma_docks_shown(dot, d4, v.docks, i);
    }
}

/// Writing the log moves no pointer.
proof fn lemma_log_beside(dot: Seq<char>, d: DiskModel, ops: Seq<OpModel>, v: ViewModel)
    requires
        docks_ok(v),
        shows(dot, d, v),
    ensures
        shows(dot, with_log(dot, d, ops), v),
{
    lemma_root_names();
    lemma_dock_names();
    law_dock_files_are_apart(dot, None, "ops"@, None, "heads"@);
    law_dock_files_are_apart(dot, None, "ops"@, None, "working-change"@);
    law_dock_files_are_apart(dot, None, "ops"@, None, "conflicts"@);
    law_dock_files_are_apart(dot, None, "ops"@, None, "dock"@);
    assert forall|i: int| 0 <= i < v.docks.len() implies captured_dock(
        dot,
        with_log(dot, d, ops),
        (#[trigger] v.docks[i]).name,
    ) == v.docks[i] by {
        assert(is_part(v.docks[i].name));
        lemma_beside_dock(dot, v.docks[i], None, "ops"@);
    }
}

/// A step brings back the view of the operation that it goes to: the pointers on the
/// disk are those that it recorded, and the log has one more operation, which stands
/// there.
pub proof fn law_step_brings_view_back(
    dot: Seq<char>,
    d: DiskModel,
    ops: Seq<OpModel>,
    target: u32,
    dock: Seq<char>,
    command: Seq<char>,
    words: Seq<char>,
    now: u64,
)
    requires
        op_at(ops, target) is Some,
        docks_ok(op_at(ops, target)->Some_0.view),
    ensures
        step_op(ops, target, dock, command, words, now).view == op_at(ops, target)->Some_0.view,
        step_op(ops, target, dock, command, words, now).pos == target,
        shows(dot, stepped(dot, d, ops, target, dock, command, words, now), op_at(ops, target)->Some_0.view),
{
    let op = step_op(ops, target, dock, command, words, now);
    law_restore_brings_pointers_back(dot, d, op.view);
    lemma_log_beside(dot, restored(dot, d, op.view), ops.push(op), op.view);
}

/// Undo never goes across a barrier.
pub proof fn law_undo_stops_at_barrier(ops: Seq<OpModel>)
    requires
        ops.len() > 0,
        op_at(ops, ops.last().pos) matches Some(o) && o.barrier,
    ensures
        undo_target(ops) is Err,
{
}

/// A file that no pointer of a view names.
pub open spec fn beside(dot: Seq<char>, v: ViewModel, path: Seq<char>) -> bool {
    &&& path != root_file(dot, "heads"@)
    &&& path != root_file(dot, "working-change"@)
    &&& path != root_file(dot, "conflicts"@)
    &&& path != root_file(dot, "dock"@)
    &&& forall|i: int| 0 <= i < v.docks.len() ==> beside_dock(dot, #[trigger] v.docks[i], path)
}

/// A file that no pointer of a dock names.
pub open spec fn beside_dock(dot: Seq<char>, v: DockModel, path: Seq<char>) -> bool {
    let sel = selector(v.name);
    &&& path != dock_file(dot, sel, "working"@)
    &&& path != dock_file(dot, sel, "tip"@)
    &&& path != dock_file(dot, sel, "tree-hash"@)
    &&& path != dock_file(dot, sel, "next-change"@)
}

proof fn lemma_docks_beside(dot: Seq<char>, d: DiskModel, vs: Seq<DockModel>, path: Seq<char>)
    requires
        forall|i: int| 0 <= i < vs.len() ==> beside_dock(dot, #[trigger] vs[i], path),
    ensures
        file_at(with_docks(dot, d, vs), path) == file_at(d, path),
    decreases vs.len(),
{
    if vs.len() > 0 {
        lemma_docks_beside(dot, d, vs.drop_last(), path);
        assert(beside_dock(dot, vs[vs.len() - 1], path));
    }
}

/// Bringing a view back moves pointers only: every other file, the objects and the
/// changes among them, stays as it is.
pub proof fn law_restore_moves_pointers_only(dot: Seq<char>, d: DiskModel, v: ViewModel, path: Seq<char>)
    requires
        beside(dot, v, path),
    ensures
        file_at(restored(dot, d, v), path) == file_at(d, path),
{
    let d1 = with_file(d, root_file(dot, "heads"@), v.heads);
    let d2 = with_file(d1, root_file(dot, "working-change"@), v.working_change);
    let d3 = with_file(d2, root_file(dot, "conflicts"@), v.conflicts);
    let d4 = with_file(d3, root_file(dot, "dock"@), v.dock_pointer);
    lemma_docks_beside(dot, d4, v.docks, path);
}

proof fn lemma_same_file(d: DiskModel, path: Seq<char>)
    ensures
        with_file(d, path, file_at(d, path)) == d,
{
    assert(with_file(d, path, file_at(d, path)).files =~= d.files);
}

/// Bringing back the view as it stands changes nothing.
pub proof fn law_capture_then_restore(dot: Seq<char>, d: DiskModel)
    requires
        d.docks.finite(),
    ensures
        restored(dot, d, captured(dot, d)) == d,
{
    lemma_same_file(d, root_file(dot, "heads"@));
    lemma_same_file(d, root_file(dot, "working-change"@));
    lemma_same_file(d, root_file(dot, "conflicts"@));
    lemma_same_file(d, root_file(dot, "dock"@));
    let names = docks_in_order(d);
    let vs = captured(dot, d).docks;
    assert forall|i: int| 0 <= i < names.len() implies #[trigger] names[i] == HOME_DOCK@ || d.docks.contains(
        names[i],
    ) by {
        let ms = members_of::<String>(d.docks);
        lemma_set_is_listed::<String>(d.docks);
        if i > 0 {
            assert(names[i] == ms[i - 1]);
            assert(ms.contains(ms[i - 1]));
        }
    }
    lemma_same_docks(dot, d, names, names.len() as int);
    assert(names.take(names.len() as int) =~= names);
    let f = |n: Seq<char>| captured_dock(dot, d, n);
    assert(vs =~= names.map_values(f));
}

proof fn lemma_same_docks(dot: Seq<char>, d: DiskModel, names: Seq<Seq<char>>, i: int)
    requires
        0 <= i <= names.len(),
        forall|j: int| 0 <= j < names.len() ==> #[trigger] names[j] == HOME_DOCK@ || d.docks.contains(names[j]),
    ensures
        with_docks(dot, d, names.take(i).map_values(|n: Seq<char>| captured_dock(dot, d, n))) == d,
    decreases i,
{
    let f = |n: Seq<char>| captured_dock(dot, d, n);
    if i > 0 {
        lemma_same_docks(dot, d, names, i - 1);
        let vs = names.take(i).map_values(f);
        assert(vs.drop_last() =~= names.take(i - 1).map_values(f));
        let n = names[i - 1];
        assert(vs.last() == captured_dock(dot, d, n));
        let sel = selector(n);
        if sel is Some {
            assert(d.docks.insert(n) =~= d.docks);
        }
        lemma_same_file(d, dock_file(dot, sel, "working"@));
        lemma_same_file(d, dock_file(dot, sel, "tip"@));
        lemma_same_file(d, dock_file(dot, sel, "tree-hash"@));
        lemma_same_file(d, dock_file(dot, sel, "next-change"@));
    }
}

/// Undo goes back by one from where the log stands, unless that operation is a barrier, or is
/// the first, or there is none.
pub proof fn law_undo_goes_one_back(ops: Seq<OpModel>)
    ensures
        ({
            let at = ops.last().pos;
            let can = ops.len() > 0 && 2 <= at <= ops.len() && !ops[at - 1].barrier;
            &&& undo_target(ops) is Ok <==> can
            &&& can ==> undo_target(ops)->Ok_0.0 == at - 1
            &&& ops.len() > 0 && 1 <= at <= ops.len() && ops[at - 1].barrier ==> undo_target(ops)
                == Err::<(u32, Seq<char>), StepModel>(
                StepModel::Barrier {
                    index: ops[at - 1].index,
                    command: ops[at - 1].command,
                    description: ops[at - 1].description,
                },
            )
            &&& !can && !(ops.len() > 0 && 1 <= at <= ops.len() && ops[at - 1].barrier) ==> undo_target(ops) is Err
                && undo_target(ops)->Err_0 is Nothing
        }),
{
}

/// Going to a place works where there is one, and no barrier lies between it and where the
/// log stands, if it lies behind. The first such barrier is named.
pub proof fn law_no_step_back_across_barriers(ops: Seq<OpModel>, target: u32, i: int)
    requires
        ops.len() > 0,
    ensures
        ({
            let at = ops.last().pos;
            let r = restore_target(ops, target);
            &&& !(1 <= target <= ops.len()) ==> r is Err && r->Err_0 is Nothing
            &&& 1 <= target <= ops.len() ==> (r is Ok <==> forall|j: int|
                0 <= j < ops.len() ==> !((#[trigger] ops[j]).barrier && target < ops[j].pos <= at))
            &&& 1 <= target <= ops.len() && 0 <= i < ops.len() && ops[i].barrier && target < ops[i].pos <= at && (forall|
                j: int,
            |
                0 <= j < i ==> !((#[trigger] ops[j]).barrier && target < ops[j].pos <= at)) ==> r == Err::<
                Seq<char>,
                StepModel,
            >(
                StepModel::Barrier {
                    index: ops[i].index,
                    command: ops[i].command,
                    description: ops[i].description,
                },
            )
        }),
{
    let at = ops.last().pos;
    let f = |o: OpModel| crosses(o, target, at);
    let bs = ops.filter(f);
    if bs.len() > 0 {
        assert(bs.contains(bs[0]));
        crate::seqs::lemma_filter_contains(ops, f, bs[0]);
        let j = choose|j: int| 0 <= j < ops.len() && ops[j] == bs[0];
        assert(ops[j].barrier && target < ops[j].pos <= at);
    } else {
        assert forall|j: int| 0 <= j < ops.len() implies !((#[trigger] ops[j]).barrier && target < ops[j].pos <= at) by {
            crate::seqs::lemma_filter_contains(ops, f, ops[j]);
            assert(ops.contains(ops[j]));
        }
    }
    if 0 <= i < ops.len() && ops[i].barrier && target < ops[i].pos <= at && (forall|j: int|
        0 <= j < i ==> !((#[trigger] ops[j]).barrier && target < ops[j].pos <= at)) {
        let front = ops.take(i);
        assert forall|x: OpModel| #[trigger] front.contains(x) implies !f(x) by {
            let j = choose|j: int| 0 <= j < front.len() && front[j] == x;
            assert(ops[j] == x);
        }
        crate::seqs::lemma_filter_wants_none(front, f);
        crate::seqs::lemma_filter_first(ops, i, f);
    }
}

/// A new operation is numbered behind the others, and the log stands at it. One that stands
/// for going to a place is numbered in the same way, is no barrier, and the log stands at that
/// place, with the view that was there.
pub proof fn law_operations_are_numbered(
    ops: Seq<OpModel>,
    command: Seq<char>,
    dock: Seq<char>,
    description: Seq<char>,
    barrier: bool,
    now: u64,
    view: ViewModel,
    target: u32,
)
    requires
        ops.len() < 0xffff_ffff,
        1 <= target <= ops.len(),
    ensures
        ({
            let o = next_op(ops, command, dock, description, barrier, now, view);
            &&& o.index == ops.len() + 1 && o.pos == ops.len() + 1
            &&& o.command == command && o.dock == dock && o.description == description
            &&& o.barrier == barrier && o.time == now && o.view == view
            &&& current_of(ops.push(o)) == ops.len() + 1
        }),
        ({
            let o = step_op(ops, target, dock, command, description, now);
            &&& o.index == ops.len() + 1 && o.pos == target && !o.barrier
            &&& o.command == command && o.dock == dock && o.description == description && o.time == now
            &&& o.view == ops[target - 1].view
            &&& current_of(ops.push(o)) == target
        }),
{
}

/// What a view holds is what the pointers' files hold: heads, the change that is worked on,
/// conflicts and the dock, and of home and each dock its working change, tip, tree and next
/// change.
pub proof fn law_view_holds_the_pointers(dot: Seq<char>, d: DiskModel, i: int)
    requires
        d.docks.finite(),
    ensures
        ({
            let v = captured(dot, d);
            let names = seq!["main"@] + members_of::<String>(d.docks);
            &&& v.heads == file_at(d, root_file(dot, "heads"@))
            &&& v.working_change == file_at(d, root_file(dot, "working-change"@))
            &&& v.conflicts == file_at(d, root_file(dot, "conflicts"@))
            &&& v.dock_pointer == file_at(d, root_file(dot, "dock"@))
            &&& v.docks.len() == names.len()
            &&& 0 <= i < names.len() ==> {
                let sel = if names[i] == "main"@ {
                    None
                } else {
                    Some(names[i])
                };
                &&& v.docks[i].name == names[i]
                &&& v.docks[i].working == file_at(d, dock_file(dot, sel, "working"@))
                &&& v.docks[i].tip == file_at(d, dock_file(dot, sel, "tip"@))
                &&& v.docks[i].tree_hash == file_at(d, dock_file(dot, sel, "tree-hash"@))
                &&& v.docks[i].next_change == file_at(d, dock_file(dot, sel, "next-change"@))
            }
        }),
{
}

} // verus!
