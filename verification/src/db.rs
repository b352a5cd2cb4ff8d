//! The tables of the state database, and what can be written to them.

use vstd::prelude::*;
use vstd::multiset::*;
use vstd::seq_lib::*;
use vstd::string::*;
use crate::text::{bytes_eq, copy_bytes};

verus! {

/// How one file depends on another.
#[derive(Clone, Copy, Debug, Eq, PartialEq, Structural, Hash)]
#[non_exhaustive]
pub enum DepMode {
    /// The dependent is out of date once the other file exists.
    Created,
    /// The dependent is out of date once the other file has changed.
    Modified,
}

impl DepMode {
    /// The letter that stands for a mode.
    pub open spec fn letter(self) -> u8 {
        match self {
            DepMode::Created => 0x63,
            DepMode::Modified => 0x6d,
        }
    }

    /// The mode that a letter stands for.
    pub fn from_char(c: u8) -> (r: Option<DepMode>)
        ensures
            match r {
                Some(m) => m.letter() == c,
                None => forall|m: DepMode| m.letter() != c,
            },
    {
        if c == 0x63 {
            Some(DepMode::Created)
        } else if c == 0x6d {
            Some(DepMode::Modified)
        } else {
            None
        }
    }

    /// The letter that stands for the mode.
    pub fn into_char(self) -> (r: u8)
        ensures
            r == self.letter(),
    {
        match self {
            DepMode::Created => 0x63,
            DepMode::Modified => 0x6d,
        }
    }

    /// The letter that stands for the mode, as text.
    pub fn into_str(self) -> (r: &'static str)
        ensures
            r@ == seq![self.letter() as char],
    {
        proof {
            reveal_strlit("c");
            reveal_strlit("m");
        }
        match self {
            DepMode::Created => {
                let s = "c";
                assert(s@ =~= seq!['c']);
                s
            },
            DepMode::Modified => {
                let s = "m";
                assert(s@ =~= seq!['m']);
                s
            },
        }
    }
}

/// A letter stands for at most one mode, and every mode has one.
pub proof fn law_mode_letters(a: DepMode, b: DepMode)
    ensures
        a.letter() == b.letter() ==> a == b,
{
}

/// A row of the table of files.
#[derive(Debug)]
pub struct FileRow {
    pub id: i64,
    pub name: Vec<u8>,
    pub is_generated: Option<bool>,
    pub is_override: Option<bool>,
    pub checked_runid: Option<i64>,
    pub changed_runid: Option<i64>,
    pub failed_runid: Option<i64>,
    pub stamp: Option<String>,
    pub csum: Option<String>,
}

/// What a row of the table of files says.
pub struct FileRowView {
    pub id: i64,
    pub name: Seq<u8>,
    pub is_generated: Option<bool>,
    pub is_override: Option<bool>,
    pub checked_runid: Option<i64>,
    pub changed_runid: Option<i64>,
    pub failed_runid: Option<i64>,
    pub stamp: Option<Seq<char>>,
    pub csum: Option<Seq<char>>,
}

/// The contents of an optional string.
pub open spec fn opt_text(s: Option<String>) -> Option<Seq<char>> {
    match s {
        Some(s) => Some(s@),
        None => None,
    }
}

impl View for FileRow {
    type V = FileRowView;

    open spec fn view(&self) -> FileRowView {
        FileRowView {
            id: self.id,
            name: self.name@,
            is_generated: self.is_generated,
            is_override: self.is_override,
            checked_runid: self.checked_runid,
            changed_runid: self.changed_runid,
            failed_runid: self.failed_runid,
            stamp: opt_text(self.stamp),
            csum: opt_text(self.csum),
        }
    }
}

/// A copy of an optional string.
pub fn copy_opt(s: &Option<String>) -> (r: Option<String>)
    ensures
        opt_text(r) == opt_text(*s),
{
    match s {
        Some(s) => Some(s.clone()),
        None => None,
    }
}

impl Clone for FileRow {
    fn clone(&self) -> (r: FileRow)
        ensures
            r@ == self@,
    {
        FileRow {
            id: self.id,
            name: copy_bytes(self.name.as_slice()),
            is_generated: self.is_generated,
            is_override: self.is_override,
            checked_runid: self.checked_runid,
            changed_runid: self.changed_runid,
            failed_runid: self.failed_runid,
            stamp: copy_opt(&self.stamp),
            csum: copy_opt(&self.csum),
        }
    }
}

/// A row of the table of dependencies.
#[derive(Clone, Copy, Debug, Eq, PartialEq, Structural)]
pub struct DepRow {
    pub target: i64,
    pub source: i64,
    pub mode: DepMode,
    pub delete_me: bool,
}

/// The contents of the tables.
pub struct Db {
    pub files: Seq<FileRowView>,
    pub deps: Seq<DepRow>,
}

/// What rows of the table of files say.
pub open spec fn row_views(rows: Seq<FileRow>) -> Seq<FileRowView> {
    rows.map_values(|r: FileRow| r@)
}

/// The first row with the given id.
pub open spec fn row_by_id(files: Seq<FileRowView>, id: i64) -> Option<FileRowView>
    decreases files.len(),
{
    if files.len() == 0 {
        None
    } else if files[0].id == id {
        Some(files[0])
    } else {
        row_by_id(files.skip(1), id)
    }
}

/// The first row with the given name.
pub open spec fn row_by_name(files: Seq<FileRowView>, name: Seq<u8>) -> Option<FileRowView>
    decreases files.len(),
{
    if files.len() == 0 {
        None
    } else if files[0].name == name {
        Some(files[0])
    } else {
        row_by_name(files.skip(1), name)
    }
}

/// The largest id of any row, at least zero.
pub open spec fn max_id(files: Seq<FileRowView>) -> i64
    decreases files.len(),
{
    if files.len() == 0 {
        0
    } else if files.last().id > max_id(files.drop_last()) {
        files.last().id
    } else {
        max_id(files.drop_last())
    }
}

/// A row for a file of which nothing but the name is known.
pub open spec fn fresh_row(id: i64, name: Seq<u8>) -> FileRowView {
    FileRowView {
        id,
        name,
        is_generated: None,
        is_override: None,
        checked_runid: None,
        changed_runid: None,
        failed_runid: None,
        stamp: None,
        csum: None,
    }
}

/// Something written to the tables.
#[derive(Debug)]
pub enum Write {
    /// A new file, of which nothing but the name is known.
    InsertFile(Vec<u8>),
    /// New values for the file with the row's id. The name stays as it is.
    UpdateFile(FileRow),
    /// All dependencies of a target are marked for deletion.
    MarkDeps(i64),
    /// The dependencies of a target that are marked are deleted.
    DeleteMarkedDeps(i64),
    /// A dependency, in place of one between the same two files.
    PutDep(DepRow),
}

/// What is written to the tables.
pub enum WriteView {
    InsertFile(Seq<u8>),
    UpdateFile(FileRowView),
    MarkDeps(i64),
    DeleteMarkedDeps(i64),
    PutDep(DepRow),
}

impl View for Write {
    type V = WriteView;

    open spec fn view(&self) -> WriteView {
        match self {
            Write::InsertFile(n) => WriteView::InsertFile(n@),
            Write::UpdateFile(r) => WriteView::UpdateFile(r@),
            Write::MarkDeps(t) => WriteView::MarkDeps(*t),
            Write::DeleteMarkedDeps(t) => WriteView::DeleteMarkedDeps(*t),
            Write::PutDep(d) => WriteView::PutDep(*d),
        }
    }
}

/// What writes say.
pub open spec fn write_views(ws: Seq<Write>) -> Seq<WriteView> {
    ws.map_values(|w: Write| w@)
}

/// A row with new values.
pub open spec fn updated_row(old: FileRowView, new: FileRowView) -> FileRowView {
    if old.id == new.id {
        FileRowView { name: old.name, ..new }
    } else {
        old
    }
}

/// A dependency, marked for deletion if it is the given target's.
pub open spec fn marked_dep(d: DepRow, target: i64) -> DepRow {
    if d.target == target {
        DepRow { delete_me: true, ..d }
    } else {
        d
    }
}

/// The tables after a write.
pub open spec fn apply(db: Db, w: WriteView) -> Db {
    match w {
        WriteView::InsertFile(name) => Db {
            files: db.files.push(fresh_row((max_id(db.files) + 1) as i64, name)),
            ..db
        },
        WriteView::UpdateFile(row) => Db {
            files: db.files.map_values(|r: FileRowView| updated_row(r, row)),
            ..db
        },
        WriteView::MarkDeps(t) => Db { deps: db.deps.map_values(|d: DepRow| marked_dep(d, t)), ..db },
        WriteView::DeleteMarkedDeps(t) => Db {
            deps: db.deps.filter(|d: DepRow| !(d.target == t && d.delete_me)),
            ..db
        },
        WriteView::PutDep(dep) => Db {
            deps: db.deps.filter(|d: DepRow| !(d.target == dep.target && d.source == dep.source)).push(dep),
            ..db
        },
    }
}

/// The tables after a series of writes.
pub open spec fn replay(db: Db, ws: Seq<WriteView>) -> Db
    decreases ws.len(),
{
    if ws.len() == 0 {
        db
    } else {
        apply(replay(db, ws.drop_last()), ws.last())
    }
}

/// Writes one after the other.
pub proof fn lemma_replay_concat(db: Db, a: Seq<WriteView>, b: Seq<WriteView>)
    ensures
        replay(db, a + b) == replay(replay(db, a), b),
    decreases b.len(),
{
    if b.len() == 0 {
        assert(a + b =~= a);
    } else {
        assert((a + b).drop_last() =~= a + b.drop_last());
        lemma_replay_concat(db, a, b.drop_last());
    }
}

/// The tables, held in memory.
#[derive(Debug)]
pub struct Tables {
    pub files: Vec<FileRow>,
    pub deps: Vec<DepRow>,
}

impl View for Tables {
    type V = Db;

    open spec fn view(&self) -> Db {
        Db { files: row_views(self.files@), deps: self.deps@ }
    }
}

/// A copy of rows.
fn copy_rows(rows: &Vec<FileRow>) -> (r: Vec<FileRow>)
    ensures
        row_views(r@) == row_views(rows@),
{
    let mut r: Vec<FileRow> = Vec::new();
    let mut i: usize = 0;
    while i < rows.len()
        invariant
            i <= rows.len(),
            r.len() == i,
            forall|k: int| 0 <= k < i ==> (#[trigger] r@[k])@ == rows@[k]@,
        decreases rows.len() - i,
    {
        r.push(rows[i].clone());
        i = i + 1;
    }
    assert(row_views(r@) =~= row_views(rows@));
    r
}

pub(crate) fn copy_deps(rows: &Vec<DepRow>) -> (r: Vec<DepRow>)
    ensures
        r@ == rows@,
{
    let mut r: Vec<DepRow> = Vec::new();
    let mut i: usize = 0;
    while i < rows.len()
        invariant
            i <= rows.len(),
            r@ == rows@.take(i as int),
        decreases rows.len() - i,
    {
        r.push(rows[i]);
        i = i + 1;
    }
    r
}

impl Clone for Tables {
    fn clone(&self) -> (r: Tables)
        ensures
            r@ == self@,
    {
        Tables { files: copy_rows(&self.files), deps: copy_deps(&self.deps) }
    }
}

impl Tables {
    /// The first row with the given id.
    pub fn by_id(&self, id: i64) -> (r: Option<&FileRow>)
        ensures
            (match r {
                Some(row) => Some(row@),
                None => None,
            }) == row_by_id(self@.files, id),
    {
        let ghost all = row_views(self.files@);
        let mut i: usize = 0;
        assert(all.skip(0) =~= all);
        while i < self.files.len()
            invariant
                i <= self.files.len(),
                all == row_views(self.files@),
                row_by_id(all, id) == row_by_id(all.skip(i as int), id),
            decreases self.files.len() - i,
        {
            assert(all.skip(i as int)[0] == self.files@[i as int]@);
            assert(all.skip(i as int).skip(1) =~= all.skip(i + 1));
            if self.files[i].id == id {
                return Some(&self.files[i]);
            }
            i = i + 1;
        }
        None
    }

    /// The first row with the given name.
    pub fn by_name(&self, name: &[u8]) -> (r: Option<&FileRow>)
        ensures
            (match r {
                Some(row) => Some(row@),
                None => None,
            }) == row_by_name(self@.files, name@),
    {
        let ghost all = row_views(self.files@);
        let mut i: usize = 0;
        assert(all.skip(0) =~= all);
        while i < self.files.len()
            invariant
                i <= self.files.len(),
                all == row_views(self.files@),
                row_by_name(all, name@) == row_by_name(all.skip(i as int), name@),
            decreases self.files.len() - i,
        {
            assert(all.skip(i as int)[0] == self.files@[i as int]@);
            assert(all.skip(i as int).skip(1) =~= all.skip(i + 1));
            if bytes_eq(self.files[i].name.as_slice(), name) {
                return Some(&self.files[i]);
            }
            i = i + 1;
        }
        None
    }

    /// The largest id of any row, at least zero.
    pub fn largest_id(&self) -> (r: i64)
        ensures
            r == max_id(self@.files),
    {
        let ghost all = row_views(self.files@);
        let mut m: i64 = 0;
        let mut i: usize = 0;
        assert(all.take(0) =~= seq![]);
        while i < self.files.len()
            invariant
                i <= self.files.len(),
                all == row_views(self.files@),
                m == max_id(all.take(i as int)),
            decreases self.files.len() - i,
        {
            assert(all.take(i + 1).drop_last() =~= all.take(i as int));
            assert(all.take(i + 1).last() == self.files@[i as int]@);
            if self.files[i].id > m {
                m = self.files[i].id;
            }
            i = i + 1;
        }
        assert(all.take(i as int) =~= all);
        m
    }

    /// Puts a write into effect.
    pub fn write(&mut self, w: &Write)
        requires
            w is InsertFile ==> max_id(old(self)@.files) < i64::MAX,
        ensures
            final(self)@ == apply(old(self)@, w@),
    {
        match w {
            Write::InsertFile(name) => {
                let ghost before = self.files@;
                let id: i64 = self.largest_id() + 1;
                self.files.push(
                    FileRow {
                        id,
                        name: copy_bytes(name.as_slice()),
                        is_generated: None,
                        is_override: None,
                        checked_runid: None,
                        changed_runid: None,
                        failed_runid: None,
                        stamp: None,
                        csum: None,
                    },
                );
                assert(row_views(self.files@) =~= row_views(before).push(fresh_row(id, name@)));
            },
            Write::UpdateFile(row) => {
                let ghost before = self.files@;
                let ghost deps = self.deps;
                let mut i: usize = 0;
                while i < self.files.len()
                    invariant
                        i <= self.files.len(),
                        self.files.len() == before.len(),
                        self.deps == deps,
                        forall|k: int| 0 <= k < i ==> (#[trigger] self.files@[k])@ == updated_row(before[k]@, row@),
                        forall|k: int| i <= k < before.len() ==> self.files@[k] == before[k],
                    decreases self.files.len() - i,
                {
                    if self.files[i].id == row.id {
                        let mut new = row.clone();
                        new.name = copy_bytes(self.files[i].name.as_slice());
                        self.files[i] = new;
                    }
                    i = i + 1;
                }
                assert(row_views(self.files@) =~= row_views(before).map_values(
                    |r: FileRowView| updated_row(r, row@),
                ));
            },
            Write::MarkDeps(target) => {
                let ghost before = self.deps@;
                let ghost files = self.files;
                let mut i: usize = 0;
                while i < self.deps.len()
                    invariant
                        i <= self.deps.len(),
                        self.deps.len() == before.len(),
                        self.files == files,
                        forall|k: int| 0 <= k < i ==> self.deps@[k] == marked_dep(before[k], *target),
                        forall|k: int| i <= k < before.len() ==> self.deps@[k] == before[k],
                    decreases self.deps.len() - i,
                {
                    let d = self.deps[i];
                    if d.target == *target {
                        self.deps[i] = DepRow {
                            target: d.target,
                            source: d.source,
                            mode: d.mode,
                            delete_me: true,
                        };
                    }
                    i = i + 1;
                }
                assert(self.deps@ =~= before.map_values(|d: DepRow| marked_dep(d, *target)));
            },
            Write::DeleteMarkedDeps(target) => {
                let ghost keep = |d: DepRow| !(d.target == *target && d.delete_me);
                let mut kept: Vec<DepRow> = Vec::new();
                let mut i: usize = 0;
                assert(self.deps@.take(0) =~= seq![]);
                proof {
                    reveal(Seq::filter);
                }
                while i < self.deps.len()
                    invariant
                        i <= self.deps.len(),
                        keep == (|d: DepRow| !(d.target == *target && d.delete_me)),
                        kept@ == self.deps@.take(i as int).filter(keep),
                    decreases self.deps.len() - i,
                {
                    let d = self.deps[i];
                    proof {
                        reveal(Seq::filter);
                    }
                    assert(self.deps@.take(i + 1).drop_last() =~= self.deps@.take(i as int));
                    assert(self.deps@.take(i + 1).last() == d);
                    if !(d.target == *target && d.delete_me) {
                        kept.push(d);
                    }
                    i = i + 1;
                }
                assert(self.deps@.take(i as int) =~= self.deps@);
                self.deps = kept;
            },
            Write::PutDep(dep) => {
                let ghost keep = |d: DepRow| !(d.target == dep.target && d.source == dep.source);
                let mut kept: Vec<DepRow> = Vec::new();
                let mut i: usize = 0;
                assert(self.deps@.take(0) =~= seq![]);
                proof {
                    reveal(Seq::filter);
                }
                while i < self.deps.len()
                    invariant
                        i <= self.deps.len(),
                        keep == (|d: DepRow| !(d.target == dep.target && d.source == dep.source)),
                        kept@ == self.deps@.take(i as int).filter(keep),
                    decreases self.deps.len() - i,
                {
                    let d = self.deps[i];
                    proof {
                        reveal(Seq::filter);
                    }
                    assert(self.deps@.take(i + 1).drop_last() =~= self.deps@.take(i as int));
                    assert(self.deps@.take(i + 1).last() == d);
                    if !(d.target == dep.target && d.source == dep.source) {
                        kept.push(d);
                    }
                    i = i + 1;
                }
                assert(self.deps@.take(i as int) =~= self.deps@);
                kept.push(*dep);
                self.deps = kept;
            },
        }
    }
}

pub proof fn lemma_filter_contains(s: Seq<DepRow>, p: spec_fn(DepRow) -> bool, x: DepRow)
    ensures
        s.filter(p).contains(x) <==> s.contains(x) && p(x),
    decreases s.len(),
{
    reveal(Seq::filter);
    if s.len() > 0 {
        let init = s.drop_last();
        lemma_filter_contains(init, p, x);
        assert(s =~= init.push(s.last()));
        lemma_push_contains(init, s.last(), x);
        lemma_push_contains(init.filter(p), s.last(), x);
    }
}

pub proof fn lemma_push_contains(s: Seq<DepRow>, y: DepRow, x: DepRow)
    ensures
        s.push(y).contains(x) <==> s.contains(x) || x == y,
{
    if s.contains(x) {
        let i = choose|i: int| 0 <= i < s.len() && s[i] == x;
        assert(s.push(y)[i] == x);
    }
    if x == y {
        assert(s.push(y)[s.len() as int] == x);
    }
}

/// Dependencies as writes.
pub open spec fn puts(ds: Seq<DepRow>) -> Seq<WriteView> {
    ds.map_values(|d: DepRow| WriteView::PutDep(d))
}

/// Whether a dependency is the last one in a list between its two files.
pub open spec fn is_last_put(ds: Seq<DepRow>, d: DepRow) -> bool
    decreases ds.len(),
{
    ds.len() > 0 && (ds.last() == d || (!(ds.last().target == d.target && ds.last().source == d.source)
        && is_last_put(ds.drop_last(), d)))
}

/// Whether a list of dependencies has one between the same two files.
pub open spec fn has_put(ds: Seq<DepRow>, d: DepRow) -> bool {
    exists|i: int| 0 <= i < ds.len() && (#[trigger] ds[i]).target == d.target && ds[i].source == d.source
}

proof fn lemma_replay_puts(db: Db, ds: Seq<DepRow>, d: DepRow)
    ensures
        replay(db, puts(ds)).files == db.files,
        replay(db, puts(ds)).deps.contains(d) <==> is_last_put(ds, d) || (db.deps.contains(d) && !has_put(ds, d)),
    decreases ds.len(),
{
    if ds.len() > 0 {
        let init = ds.drop_last();
        let last = ds.last();
        assert(puts(ds).drop_last() =~= puts(init));
        lemma_replay_puts(db, init, d);
        let before = replay(db, puts(init)).deps;
        let keep = |x: DepRow| !(x.target == last.target && x.source == last.source);
        lemma_filter_contains(before, keep, d);
        lemma_push_contains(before.filter(keep), last, d);
        if has_put(init, d) {
            let i = choose|i: int|
                0 <= i < init.len() && (#[trigger] init[i]).target == d.target && init[i].source == d.source;
            assert(ds[i] == init[i]);
        }
        if has_put(ds, d) && !has_put(init, d) {
            let i = choose|i: int|
                0 <= i < ds.len() && (#[trigger] ds[i]).target == d.target && ds[i].source == d.source;
            if i < init.len() {
                assert(init[i] == ds[i]);
            }
        }
        if last.target == d.target && last.source == d.source {
            assert(ds[ds.len() - 1] == last);
        }
    }
}

/// The database after a successful build that found the dependencies `ds`: the old ones are
/// marked first, the new ones are put in, and what is still marked is deleted.
pub open spec fn rebuilt(db: Db, target: i64, ds: Seq<DepRow>) -> Db {
    apply(
        replay(apply(db, WriteView::MarkDeps(target)), puts(ds)),
        WriteView::DeleteMarkedDeps(target),
    )
}

/// After a successful build the dependencies of the target are exactly those that the build
/// found, and those of other targets are what they were.
pub proof fn law_rebuild_replaces_deps(db: Db, target: i64, ds: Seq<DepRow>, d: DepRow)
    requires
        forall|i: int| 0 <= i < ds.len() ==> (#[trigger] ds[i]).target == target && !ds[i].delete_me,
    ensures
        d.target == target ==> (rebuilt(db, target, ds).deps.contains(d) <==> is_last_put(ds, d)),
        d.target != target ==> (rebuilt(db, target, ds).deps.contains(d) <==> db.deps.contains(d)),
        rebuilt(db, target, ds).files == db.files,
{
    let marked = apply(db, WriteView::MarkDeps(target));
    lemma_replay_puts(marked, ds, d);
    let put = replay(marked, puts(ds));
    lemma_filter_contains(put.deps, |x: DepRow| !(x.target == target && x.delete_me), d);
    lemma_last_put_is_put(ds, d);
    if marked.deps.contains(d) {
        let i = choose|i: int| 0 <= i < marked.deps.len() && marked.deps[i] == d;
        assert(marked.deps[i] == marked_dep(db.deps[i], target));
    }
    if db.deps.contains(d) && d.target != target {
        let i = choose|i: int| 0 <= i < db.deps.len() && db.deps[i] == d;
        assert(marked.deps[i] == d);
    }
    if d.target != target && has_put(ds, d) {
        let i = choose|i: int|
            0 <= i < ds.len() && (#[trigger] ds[i]).target == d.target && ds[i].source == d.source;
    }
}

/// Whether no file is noted twice to depend on the same other one.
pub open spec fn each_once(deps: Seq<DepRow>) -> bool {
    forall|i: int, j: int|
        0 <= i < j < deps.len() ==> (#[trigger] deps[i]).target != (#[trigger] deps[j]).target || deps[i].source
            != deps[j].source
}

/// The rows of the dependencies of a target that are not to be deleted.
spec fn lasting(deps: Seq<DepRow>, target: i64) -> Seq<DepRow> {
    deps.filter(|d: DepRow| d.target == target && !d.delete_me)
}

proof fn lemma_filter_once(deps: Seq<DepRow>, keep: spec_fn(DepRow) -> bool)
    requires
        each_once(deps),
    ensures
        each_once(deps.filter(keep)),
    decreases deps.len(),
{
    reveal(Seq::filter);
    if deps.len() > 0 {
        let init = deps.drop_last();
        assert(each_once(init)) by {
            assert forall|i: int, j: int| 0 <= i < j < init.len() implies (#[trigger] init[i]).target != (
            #[trigger] init[j]).target || init[i].source != init[j].source by {
                assert(init[i] == deps[i] && init[j] == deps[j]);
            }
        }
        lemma_filter_once(init, keep);
        if keep(deps.last()) {
            let fewer = init.filter(keep);
            assert forall|i: int, j: int| 0 <= i < j < deps.filter(keep).len() implies (#[trigger] deps.filter(
                keep,
            )[i]).target != (#[trigger] deps.filter(keep)[j]).target || deps.filter(keep)[i].source != deps.filter(
                keep,
            )[j].source by {
                let x = fewer[i];
                assert(deps.filter(keep)[i] == x);
                if j == fewer.len() {
                    assert(fewer.contains(x));
                    lemma_filter_contains(init, keep, x);
                    let k = choose|k: int| 0 <= k < init.len() && init[k] == x;
                    assert(deps[k] == x);
                    assert(deps[deps.len() - 1] == deps.last());
                } else {
                    assert(deps.filter(keep)[j] == fewer[j]);
                }
            }
        }
    }
}

proof fn lemma_put_once(deps: Seq<DepRow>, dep: DepRow)
    requires
        each_once(deps),
    ensures
        each_once(deps.filter(|d: DepRow| !(d.target == dep.target && d.source == dep.source)).push(dep)),
{
    let keep = |d: DepRow| !(d.target == dep.target && d.source == dep.source);
    let others = deps.filter(keep);
    lemma_filter_once(deps, keep);
    assert forall|i: int, j: int| 0 <= i < j < others.push(dep).len() implies (#[trigger] others.push(dep)[i]).target != (
    #[trigger] others.push(dep)[j]).target || others.push(dep)[i].source != others.push(dep)[j].source by {
        assert(others.push(dep)[i] == others[i]);
        if j == others.len() {
            assert(others.contains(others[i]));
            lemma_filter_contains(deps, keep, others[i]);
        } else {
            assert(others.push(dep)[j] == others[j]);
        }
    }
}

/// Whatever is written, no file is ever noted twice to depend on the same other one.
pub proof fn law_deps_stand_once(db: Db, ws: Seq<WriteView>)
    requires
        each_once(db.deps),
    ensures
        each_once(replay(db, ws).deps),
    decreases ws.len(),
{
    if ws.len() > 0 {
        let before = replay(db, ws.drop_last());
        law_deps_stand_once(db, ws.drop_last());
        match ws.last() {
            WriteView::MarkDeps(t) => {
                let after = before.deps.map_values(|d: DepRow| marked_dep(d, t));
                assert forall|i: int, j: int| 0 <= i < j < after.len() implies (#[trigger] after[i]).target != (
                #[trigger] after[j]).target || after[i].source != after[j].source by {
                    assert(after[i] == marked_dep(before.deps[i], t));
                    assert(after[j] == marked_dep(before.deps[j], t));
                }
            },
            WriteView::DeleteMarkedDeps(t) => {
                lemma_filter_once(before.deps, |d: DepRow| !(d.target == t && d.delete_me));
            },
            WriteView::PutDep(dep) => {
                lemma_put_once(before.deps, dep);
            },
            _ => {},
        }
    }
}

proof fn lemma_lasting_puts(db: Db, target: i64, ds: Seq<DepRow>)
    requires
        lasting(db.deps, target).len() == 0,
        forall|i: int| 0 <= i < ds.len() ==> (#[trigger] ds[i]).target == target && !ds[i].delete_me,
    ensures
        each_once(lasting(replay(db, puts(ds)).deps, target)),
    decreases ds.len(),
{
    if ds.len() > 0 {
        let init = ds.drop_last();
        let dep = ds.last();
        assert forall|i: int| 0 <= i < init.len() implies (#[trigger] init[i]).target == target && !init[i].delete_me by {
            assert(init[i] == ds[i]);
        }
        assert(ds[ds.len() - 1] == dep);
        assert(puts(ds).drop_last() =~= puts(init));
        lemma_lasting_puts(db, target, init);
        let before = replay(db, puts(init)).deps;
        let keep = |d: DepRow| !(d.target == dep.target && d.source == dep.source);
        let good = |d: DepRow| d.target == target && !d.delete_me;
        lemma_filters_swap(before, keep, good);
        reveal(Seq::filter);
        assert(before.filter(keep).push(dep).drop_last() =~= before.filter(keep));
        lemma_put_once(lasting(before, target), dep);
    }
}

proof fn lemma_filters_swap(s: Seq<DepRow>, p: spec_fn(DepRow) -> bool, q: spec_fn(DepRow) -> bool)
    ensures
        s.filter(p).filter(q) == s.filter(q).filter(p),
    decreases s.len(),
{
    reveal(Seq::filter);
    if s.len() > 0 {
        let init = s.drop_last();
        lemma_filters_swap(init, p, q);
        assert(init.filter(p).push(s.last()).drop_last() =~= init.filter(p));
        assert(init.filter(q).push(s.last()).drop_last() =~= init.filter(q));
    }
}

/// After a successful build each dependency of the target stands there once, whatever stood there before.
pub proof fn law_rebuilt_deps_stand_once(db: Db, target: i64, ds: Seq<DepRow>)
    requires
        forall|i: int| 0 <= i < ds.len() ==> (#[trigger] ds[i]).target == target && !ds[i].delete_me,
    ensures
        each_once(rebuilt(db, target, ds).deps.filter(|d: DepRow| d.target == target)),
{
    let marked = apply(db, WriteView::MarkDeps(target));
    let put = replay(marked, puts(ds));
    let good = |d: DepRow| d.target == target && !d.delete_me;
    if lasting(marked.deps, target).len() > 0 {
        let d = lasting(marked.deps, target)[0];
        assert(lasting(marked.deps, target).contains(d));
        lemma_filter_contains(marked.deps, good, d);
        let i = choose|i: int| 0 <= i < marked.deps.len() && marked.deps[i] == d;
        assert(marked.deps[i] == marked_dep(db.deps[i], target));
    }
    lemma_lasting_puts(marked, target, ds);
    lemma_lasting_is_left(put.deps, target);
}

proof fn lemma_lasting_is_left(s: Seq<DepRow>, target: i64)
    ensures
        s.filter(|d: DepRow| !(d.target == target && d.delete_me)).filter(|d: DepRow| d.target == target) == lasting(
            s,
            target,
        ),
    decreases s.len(),
{
    reveal(Seq::filter);
    if s.len() > 0 {
        let p = |d: DepRow| !(d.target == target && d.delete_me);
        let init = s.drop_last();
        lemma_lasting_is_left(init, target);
        assert(init.filter(p).push(s.last()).drop_last() =~= init.filter(p));
    }
}

proof fn lemma_last_put_is_put(ds: Seq<DepRow>, d: DepRow)
    ensures
        is_last_put(ds, d) ==> ds.contains(d),
    decreases ds.len(),
{
    if ds.len() > 0 {
        lemma_last_put_is_put(ds.drop_last(), d);
        if ds.last() == d {
            assert(ds[ds.len() - 1] == d);
        } else if is_last_put(ds, d) {
            let i = choose|i: int| 0 <= i < ds.drop_last().len() && ds.drop_last()[i] == d;
            assert(ds[i] == d);
        }
    }
}

/// Looking for a row after an update finds the updated row.
pub proof fn lemma_updated_by_id(files: Seq<FileRowView>, row: FileRowView, id: i64)
    ensures
        row_by_id(files.map_values(|r: FileRowView| updated_row(r, row)), id) == match row_by_id(files, id) {
            None => None,
            Some(r) => Some(updated_row(r, row)),
        },
    decreases files.len(),
{
    let f = |r: FileRowView| updated_row(r, row);
    if files.len() > 0 {
        lemma_updated_by_id(files.skip(1), row, id);
        assert(files.map_values(f).skip(1) =~= files.skip(1).map_values(f));
        assert(files.map_values(f)[0] == updated_row(files[0], row));
    }
}

/// A row that was added hides none that is found by its id.
pub proof fn lemma_pushed_by_id(files: Seq<FileRowView>, row: FileRowView, id: i64)
    ensures
        row_by_id(files, id) is Some ==> row_by_id(files.push(row), id) is Some,
    decreases files.len(),
{
    if files.len() > 0 {
        lemma_pushed_by_id(files.skip(1), row, id);
        assert(files.push(row).skip(1) =~= files.skip(1).push(row));
    }
}

/// A row that was added is found by its name, unless there was one already.
pub proof fn lemma_pushed_by_name(files: Seq<FileRowView>, row: FileRowView)
    ensures
        row_by_name(files.push(row), row.name) == match row_by_name(files, row.name) {
            None => Some(row),
            Some(r) => Some(r),
        },
    decreases files.len(),
{
    let all = files.push(row);
    if files.len() > 0 {
        lemma_pushed_by_name(files.skip(1), row);
        assert(all.skip(1) =~= files.skip(1).push(row));
    } else {
        assert(all.skip(1) =~= seq![]);
    }
}

/// A row is found by its id, wherever it stands, if it is the first with that id; an id that no row has is not found.
pub proof fn law_found_by_id(files: Seq<FileRowView>, k: int, id: i64)
    ensures
        0 <= k < files.len() && files[k].id == id && (forall|i: int| 0 <= i < k ==> (#[trigger] files[i]).id != id)
            ==> row_by_id(files, id) == Some(files[k]),
        (forall|i: int| 0 <= i < files.len() ==> (#[trigger] files[i]).id != id) ==> row_by_id(files, id) is None,
    decreases files.len(),
{
    if files.len() > 0 {
        let rest = files.skip(1);
        law_found_by_id(rest, k - 1, id);
        if 0 < k < files.len() && files[k].id == id && (forall|i: int| 0 <= i < k ==> (#[trigger] files[i]).id != id) {
            assert forall|i: int| 0 <= i < k - 1 implies (#[trigger] rest[i]).id != id by {
                assert(rest[i] == files[i + 1]);
            }
            assert(rest[k - 1] == files[k]);
            assert(files[0].id != id);
        }
        if forall|i: int| 0 <= i < files.len() ==> (#[trigger] files[i]).id != id {
            assert(files[0].id != id);
            assert forall|i: int| 0 <= i < rest.len() implies (#[trigger] rest[i]).id != id by {
                assert(rest[i] == files[i + 1]);
            }
        }
    }
}

/// A row is found by its name, wherever it stands, if it is the first with that name; a name that no row has is not found.
pub proof fn law_found_by_name(files: Seq<FileRowView>, k: int, name: Seq<u8>)
    ensures
        0 <= k < files.len() && files[k].name == name && (forall|i: int| 0 <= i < k ==> (#[trigger] files[i]).name != name)
            ==> row_by_name(files, name) == Some(files[k]),
        (forall|i: int| 0 <= i < files.len() ==> (#[trigger] files[i]).name != name) ==> row_by_name(files, name) is None,
    decreases files.len(),
{
    if files.len() > 0 {
        let rest = files.skip(1);
        law_found_by_name(rest, k - 1, name);
        if 0 < k < files.len() && files[k].name == name && (forall|i: int| 0 <= i < k ==> (#[trigger] files[i]).name != name) {
            assert forall|i: int| 0 <= i < k - 1 implies (#[trigger] rest[i]).name != name by {
                assert(rest[i] == files[i + 1]);
            }
            assert(rest[k - 1] == files[k]);
            assert(files[0].name != name);
        }
        if forall|i: int| 0 <= i < files.len() ==> (#[trigger] files[i]).name != name {
            assert(files[0].name != name);
            assert forall|i: int| 0 <= i < rest.len() implies (#[trigger] rest[i]).name != name by {
                assert(rest[i] == files[i + 1]);
            }
        }
    }
}

/// No row has a larger id than the largest.
pub proof fn law_largest_id(files: Seq<FileRowView>, i: int)
    requires
        0 <= i < files.len(),
    ensures
        files[i].id <= max_id(files),
    decreases files.len(),
{
    if i < files.len() - 1 {
        law_largest_id(files.drop_last(), i);
        assert(files.drop_last()[i] == files[i]);
    }
}

/// A new file gets an id that no other has, and nothing but its name is known of it. Everything else stays as it is.
pub proof fn law_insert_adds_one(db: Db, name: Seq<u8>)
    requires
        max_id(db.files) < i64::MAX,
    ensures
        ({
            let after = apply(db, WriteView::InsertFile(name));
            let n = db.files.len() as int;
            &&& after.files.len() == n + 1
            &&& forall|i: int| 0 <= i < n ==> #[trigger] after.files[i] == db.files[i]
            &&& forall|i: int| 0 <= i < n ==> (#[trigger] db.files[i]).id < after.files[n].id
            &&& after.files[n].id > 0
            &&& after.files[n].name == name
            &&& after.files[n].is_generated is None
            &&& after.files[n].is_override is None
            &&& after.files[n].checked_runid is None
            &&& after.files[n].changed_runid is None
            &&& after.files[n].failed_runid is None
            &&& after.files[n].stamp is None
            &&& after.files[n].csum is None
            &&& after.deps == db.deps
        }),
{
    lemma_max_id_positive(db.files);
    assert forall|i: int| 0 <= i < db.files.len() implies (#[trigger] db.files[i]).id < apply(
        db,
        WriteView::InsertFile(name),
    ).files[db.files.len() as int].id by {
        law_largest_id(db.files, i);
    }
}

proof fn lemma_max_id_positive(files: Seq<FileRowView>)
    ensures
        max_id(files) >= 0,
    decreases files.len(),
{
    if files.len() > 0 {
        lemma_max_id_positive(files.drop_last());
    }
}

/// An update gives the row with its id all the new values, but for the name, which stays. All other rows, and all
/// dependencies, stay as they are.
pub proof fn law_update_changes_one(db: Db, row: FileRowView, i: int)
    requires
        0 <= i < db.files.len(),
    ensures
        ({
            let after = apply(db, WriteView::UpdateFile(row));
            &&& after.files.len() == db.files.len()
            &&& after.deps == db.deps
            &&& after.files[i].id == db.files[i].id
            &&& after.files[i].name == db.files[i].name
            &&& db.files[i].id != row.id ==> after.files[i] == db.files[i]
            &&& db.files[i].id == row.id ==> {
                &&& after.files[i].is_generated == row.is_generated
                &&& after.files[i].is_override == row.is_override
                &&& after.files[i].checked_runid == row.checked_runid
                &&& after.files[i].changed_runid == row.changed_runid
                &&& after.files[i].failed_runid == row.failed_runid
                &&& after.files[i].stamp == row.stamp
                &&& after.files[i].csum == row.csum
            }
        }),
{
}

/// Marking marks all dependencies of the target, and changes nothing else.
pub proof fn law_mark_marks_all(db: Db, target: i64, i: int)
    requires
        0 <= i < db.deps.len(),
    ensures
        ({
            let after = apply(db, WriteView::MarkDeps(target));
            &&& after.files == db.files
            &&& after.deps.len() == db.deps.len()
            &&& after.deps[i].target == db.deps[i].target
            &&& after.deps[i].source == db.deps[i].source
            &&& after.deps[i].mode == db.deps[i].mode
            &&& after.deps[i].delete_me == (db.deps[i].delete_me || db.deps[i].target == target)
        }),
{
}

/// Deleting takes away just those dependencies of the target that are marked.
pub proof fn law_delete_takes_marked(db: Db, target: i64, d: DepRow)
    ensures
        apply(db, WriteView::DeleteMarkedDeps(target)).files == db.files,
        apply(db, WriteView::DeleteMarkedDeps(target)).deps.contains(d) <==> db.deps.contains(d) && !(d.target == target
            && d.delete_me),
{
    lemma_filter_contains(db.deps, |x: DepRow| !(x.target == target && x.delete_me), d);
}

/// A dependency that is put in is there then, in place of any other between the same two files. All other dependencies
/// stay.
pub proof fn law_put_replaces(db: Db, dep: DepRow, d: DepRow)
    ensures
        apply(db, WriteView::PutDep(dep)).files == db.files,
        apply(db, WriteView::PutDep(dep)).deps.contains(d) <==> d == dep || (db.deps.contains(d) && !(d.target == dep.target
            && d.source == dep.source)),
{
    let keep = |x: DepRow| !(x.target == dep.target && x.source == dep.source);
    lemma_filter_contains(db.deps, keep, d);
    lemma_push_contains(db.deps.filter(keep), dep, d);
}

/// Writes take effect one after the other.
pub proof fn law_writes_in_turn(db: Db, ws: Seq<WriteView>, w: WriteView)
    ensures
        replay(db, seq![]) == db,
        replay(db, ws.push(w)) == apply(replay(db, ws), w),
{
    assert(ws.push(w).drop_last() =~= ws);
}

} // verus!
