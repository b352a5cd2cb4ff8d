//! Code for checking redo target dependencies.

use vstd::prelude::*;
use vstd::string::*;
use crate::db::{apply, row_by_id, Db, DepMode, DepRow, FileRowView, WriteView};
use crate::env::Env;
use crate::error::{generic, of_kind, ErrorView, KindView, RedoError, RedoErrorKind};
use crate::redopath::RedoPathBuf;
use crate::stamp::{stamp_of_seen, Observed};
use crate::state::{
    dep_files, dep_rows, dep_views, deps_of, found_by_id, row_of_file, since, since_known, File, FileView,
    ProcessTransaction,
};

verus! {

/// Result of a call to [`is_dirty`].
#[derive(Debug)]
pub enum Dirtiness {
    Clean,
    Dirty,
    NeedTargets(Vec<File>),
}

/// What a check for dirtiness found.
pub enum DirtView {
    Clean,
    Dirty,
    NeedTargets(Seq<FileView>),
}

/// What files say.
pub open spec fn file_views(fs: Seq<File>) -> Seq<FileView> {
    fs.map_values(|f: File| f@)
}

impl View for Dirtiness {
    type V = DirtView;

    open spec fn view(&self) -> DirtView {
        match self {
            Dirtiness::Clean => DirtView::Clean,
            Dirtiness::Dirty => DirtView::Dirty,
            Dirtiness::NeedTargets(ts) => DirtView::NeedTargets(file_views(ts@)),
        }
    }
}

impl Dirtiness {
    /// Reports whether the dirtiness value is [`Dirtiness::Clean`].
    pub fn is_clean(&self) -> (r: bool)
        ensures
            r == (self@ is Clean),
    {
        match self {
            Dirtiness::Clean => true,
            _ => false,
        }
    }

    /// Reports whether the dirtiness value is [`Dirtiness::Dirty`].
    pub fn is_dirty(&self) -> (r: bool)
        ensures
            r == (self@ is Dirty),
    {
        match self {
            Dirtiness::Dirty => true,
            _ => false,
        }
    }
}

impl Default for Dirtiness {
    fn default() -> (r: Dirtiness)
        ensures
            r@ is Clean,
    {
        Dirtiness::Clean
    }
}

/// Where it is kept which files have been looked at already.
#[derive(Clone, Copy, Debug, Eq, PartialEq, Structural)]
pub enum Kept {
    /// In the database, for the whole run.
    Database,
    /// In memory, by the ids of the files.
    Memory,
}

/// Hooks for the [`is_dirty`] function.
#[derive(Debug)]
pub struct DirtyCallbacks {
    is_checked: Kept,
    set_checked: Kept,
    log_override: bool,
    memory: Vec<i64>,
    overridden: Vec<RedoPathBuf>,
}

/// Builder for [`DirtyCallbacks`].
#[derive(Debug)]
pub struct DirtyCallbacksBuilder {
    callbacks: DirtyCallbacks,
}

/// The bytes of paths.
pub open spec fn path_views(ps: Seq<RedoPathBuf>) -> Seq<Seq<u8>> {
    ps.map_values(|p: RedoPathBuf| p@)
}

/// What hooks do.
pub struct Hooks {
    /// Where it is looked up whether a file has been looked at.
    pub is_checked: Kept,
    /// Where it is noted that a file has been looked at.
    pub set_checked: Kept,
    /// Whether overridden targets are reported.
    pub log_override: bool,
}

/// The hooks that read from and write to the state, and report overridden targets.
pub open spec fn default_hooks() -> Hooks {
    Hooks { is_checked: Kept::Database, set_checked: Kept::Database, log_override: true }
}

impl DirtyCallbacks {
    /// What the hooks do.
    pub closed spec fn hooks(&self) -> Hooks {
        Hooks { is_checked: self.is_checked, set_checked: self.set_checked, log_override: self.log_override }
    }

    /// The files that are noted in memory.
    pub closed spec fn marks(&self) -> Set<i64> {
        self.memory@.to_set()
    }

    /// The overridden targets to report.
    pub closed spec fn reported(&self) -> Seq<Seq<u8>> {
        path_views(self.overridden@)
    }

    /// Targets that are clean but that the user modified.
    pub fn overridden(&self) -> (r: &Vec<RedoPathBuf>)
        ensures
            path_views(r@) == self.reported(),
    {
        &self.overridden
    }
}

impl Default for DirtyCallbacks {
    /// Default hooks read from and write to the state.
    fn default() -> (r: DirtyCallbacks)
        ensures
            r.hooks() == default_hooks(),
            r.marks() == Set::<i64>::empty(),
            r.reported() == Seq::<Seq<u8>>::empty(),
    {
        let r = DirtyCallbacks {
            is_checked: Kept::Database,
            set_checked: Kept::Database,
            log_override: true,
            memory: Vec::new(),
            overridden: Vec::new(),
        };
        assert(path_views(r.overridden@) =~= Seq::<Seq<u8>>::empty());
        assert(r.memory@.to_set() =~= Set::<i64>::empty());
        r
    }
}

impl DirtyCallbacksBuilder {
    /// What the hooks built so far do.
    pub closed spec fn hooks(&self) -> Hooks {
        self.callbacks.hooks()
    }

    /// Whether nothing has been noted or reported yet.
    pub closed spec fn fresh(&self) -> bool {
        self.callbacks.marks() == Set::<i64>::empty() && self.callbacks.reported() == Seq::<Seq<u8>>::empty()
    }

    /// Starts from the default hooks.
    pub fn new() -> (r: DirtyCallbacksBuilder)
        ensures
            r.hooks() == default_hooks(),
            r.fresh(),
    {
        DirtyCallbacksBuilder { callbacks: DirtyCallbacks::default() }
    }

    /// Sets where it is looked up whether a file has been looked at.
    pub fn is_checked(self, kept: Kept) -> (r: DirtyCallbacksBuilder)
        ensures
            r.hooks() == (Hooks { is_checked: kept, ..self.hooks() }),
            r.fresh() == self.fresh(),
    {
        let mut b = self;
        b.callbacks.is_checked = kept;
        b
    }

    /// Sets where it is noted that a file has been looked at.
    pub fn set_checked(self, kept: Kept) -> (r: DirtyCallbacksBuilder)
        ensures
            r.hooks() == (Hooks { set_checked: kept, ..self.hooks() }),
            r.fresh() == self.fresh(),
    {
        let mut b = self;
        b.callbacks.set_checked = kept;
        b
    }

    /// Sets whether a target is reported that is clean but that the user modified.
    pub fn log_override(self, yes: bool) -> (r: DirtyCallbacksBuilder)
        ensures
            r.hooks() == (Hooks { log_override: yes, ..self.hooks() }),
            r.fresh() == self.fresh(),
    {
        let mut b = self;
        b.callbacks.log_override = yes;
        b
    }

    /// The hooks.
    pub fn build(self) -> (r: DirtyCallbacks)
        ensures
            r.hooks() == self.hooks(),
            self.fresh() ==> r.marks() == Set::<i64>::empty() && r.reported() == Seq::<Seq<u8>>::empty(),
    {
        self.callbacks
    }
}

/// What was seen of files, by their ids.
pub type Sightings = Vec<(i64, Observed)>;

/// The files of which something was seen.
pub open spec fn sighted(fs: Seq<(i64, Observed)>) -> Set<i64> {
    fs.map_values(|x: (i64, Observed)| x.0).to_set()
}

/// What was seen of a file.
pub open spec fn sighting(fs: Seq<(i64, Observed)>, id: i64) -> Option<Observed>
    decreases fs.len(),
{
    if fs.len() == 0 {
        None
    } else if fs[0].0 == id {
        Some(fs[0].1)
    } else {
        sighting(fs.skip(1), id)
    }
}

/// Whether with every target in a set of files all its dependencies are in the set.
pub open spec fn closed_under_deps(deps: Seq<DepRow>, ids: Set<i64>) -> bool {
    forall|i: int| 0 <= i < deps.len() && ids.contains((#[trigger] deps[i]).target) ==> ids.contains(deps[i].source)
}

/// What a check goes by that does not change during it.
pub struct Surroundings {
    pub runid: i64,
    pub seen: Seq<(i64, Observed)>,
    pub hooks: Hooks,
}

/// What changes during a check.
pub struct Walk {
    pub db: Db,
    pub writes: Seq<WriteView>,
    pub marks: Set<i64>,
    pub reported: Seq<Seq<u8>>,
}

impl Walk {
    /// The walk after one more write.
    pub open spec fn write(self, w: WriteView) -> Walk {
        Walk { db: apply(self.db, w), writes: self.writes.push(w), ..self }
    }
}

/// Whether a file has been looked at already.
pub open spec fn was_checked(f: FileView, w: Walk, s: Surroundings) -> bool {
    match s.hooks.is_checked {
        Kept::Memory => w.marks.contains(f.id),
        Kept::Database => since(f.checked_runid, s.runid),
    }
}

/// The outcome of a check: what was found, the file as it is then, and the walk so far.
pub struct Outcome {
    pub verdict: Result<DirtView, ErrorView>,
    pub file: FileView,
    pub walk: Walk,
}

/// The files that are left to be looked at.
pub open spec fn left(s: Surroundings, path: Set<i64>) -> nat {
    sighted(s.seen).difference(path).len()
}

/// What becomes of a file that is found clean: it is noted, and reported if someone has
/// overridden it.
pub open spec fn found_clean(f: FileView, w: Walk, s: Surroundings) -> Outcome {
    let told = if f.is_override && s.hooks.log_override {
        Walk { reported: w.reported.push(f.name), ..w }
    } else {
        w
    };
    match s.hooks.set_checked {
        Kept::Memory => Outcome {
            verdict: Ok(DirtView::Clean),
            file: f,
            walk: Walk { marks: told.marks.insert(f.id), ..told },
        },
        Kept::Database => {
            let g = FileView { checked_runid: Some(s.runid), ..f };
            Outcome {
                verdict: Ok(DirtView::Clean),
                file: g,
                walk: told.write(WriteView::UpdateFile(row_of_file(g))),
            }
        },
    }
}

/// What a file that is not clean says of what depends on it: one with a checksum has to be built
/// before that is known.
pub open spec fn found_dirty(f: FileView) -> DirtView {
    if f.csum.len() > 0 {
        DirtView::NeedTargets(seq![f])
    } else {
        DirtView::Dirty
    }
}

/// What becomes of a file whose stamp is not what it was. A generated one that has gone missing is
/// no longer taken for a target.
pub open spec fn found_changed(f: FileView, stamp: Seq<char>, w: Walk, s: Surroundings) -> Outcome {
    if stamp == "0"@ && f.is_generated {
        let g = FileView { is_generated: false, failed_runid: Some(0), ..f };
        let w2 = w.write(WriteView::UpdateFile(row_of_file(g)));
        match found_by_id(w2.db, f.id, Some(s.runid)) {
            Err(e) => Outcome { verdict: Err(e), file: g, walk: w2 },
            Ok(h) => Outcome { verdict: Ok(found_dirty(h)), file: h, walk: w2 },
        }
    } else {
        Outcome { verdict: Ok(found_dirty(f)), file: f, walk: w }
    }
}

/// What a file says by itself, before its dependencies are looked at; nothing if they have to be.
pub open spec fn own_verdict(f: FileView, max_changed: i64, w: Walk, s: Surroundings) -> Option<Outcome> {
    if f.failed_runid is Some {
        // failed last time
        Some(Outcome { verdict: Ok(DirtView::Dirty), file: f, walk: w })
    } else if f.changed_runid is None || f.changed_runid.unwrap() > max_changed {
        // never built, or built more recently than what depends on it
        Some(Outcome { verdict: Ok(DirtView::Dirty), file: f, walk: w })
    } else if was_checked(f, w, s) {
        Some(Outcome { verdict: Ok(DirtView::Clean), file: f, walk: w })
    } else if f.stamp is None {
        Some(Outcome { verdict: Ok(DirtView::Dirty), file: f, walk: w })
    } else {
        match stamp_of_seen(sighting(s.seen, f.id).unwrap()) {
            Err(e) => Some(Outcome { verdict: Err(e), file: f, walk: w }),
            Ok(stamp) => if f.stamp != Some(stamp) {
                Some(found_changed(f, stamp, w, s))
            } else {
                None
            },
        }
    }
}

/// Up to which run a dependency may have changed without making the file dirty.
pub open spec fn allowed_change(f: FileView) -> i64 {
    let c = f.changed_runid.unwrap();
    let k = match f.checked_runid {
        Some(k) => k,
        None => 0,
    };
    if c > k {
        c
    } else {
        k
    }
}

/// What a dependency turned out to be.
pub open spec fn dep_verdict(mode: DepMode, g: FileView, max: i64, path: Set<i64>, w: Walk, s: Surroundings) -> Outcome
    decreases left(s, path), 1int, 0nat,
{
    match mode {
        DepMode::Created => Outcome {
            verdict: if sighting(s.seen, g.id).unwrap().target is Found {
                Ok(DirtView::Dirty)
            } else {
                Ok(DirtView::Clean)
            },
            file: g,
            walk: w,
        },
        DepMode::Modified => check(g, max, path, w, s),
    }
}

/// What the dependencies of a file say of it, from the given one on. `must` are the targets
/// that have to be built before the earlier ones are certain.
pub open spec fn check_deps(
    f: FileView,
    deps: Seq<(DepMode, FileView)>,
    must: Seq<FileView>,
    path: Set<i64>,
    w: Walk,
    s: Surroundings,
) -> Outcome
    decreases left(s, path), 2int, deps.len(),
{
    if deps.len() == 0 {
        if must.len() > 0 {
            Outcome { verdict: Ok(DirtView::NeedTargets(must)), file: f, walk: w }
        } else {
            found_clean(f, w, s)
        }
    } else {
        let sub = dep_verdict(deps[0].0, deps[0].1, allowed_change(f), path, w, s);
        match sub.verdict {
            Err(e) => Outcome { verdict: Err(e), file: f, walk: sub.walk },
            Ok(DirtView::Dirty) => Outcome { verdict: Ok(found_dirty(f)), file: f, walk: sub.walk },
            Ok(DirtView::NeedTargets(ts)) => check_deps(f, deps.skip(1), must + ts, path, sub.walk, s),
            Ok(DirtView::Clean) => check_deps(f, deps.skip(1), must, path, sub.walk, s),
        }
    }
}

/// What a check of a file finds. `path` are the files that led to it.
pub open spec fn check(f: FileView, max_changed: i64, path: Set<i64>, w: Walk, s: Surroundings) -> Outcome
    decreases left(s, path), 0int, 0nat,
    via check_decreases
{
    if path.contains(f.id) {
        Outcome { verdict: Err(of_kind(KindView::CyclicDependency)), file: f, walk: w }
    } else {
        match own_verdict(f, max_changed, w, s) {
            Some(o) => o,
            None => match deps_of(f, w.db, Some(s.runid)) {
                Err(e) => Outcome { verdict: Err(e), file: f, walk: w },
                Ok(deps) => if sighted(s.seen).contains(f.id) {
                    check_deps(f, deps, seq![], path.insert(f.id), w, s)
                } else {
                    Outcome { verdict: Ok(DirtView::Dirty), file: f, walk: w }
                },
            },
        }
    }
}

#[via_fn]
proof fn check_decreases(f: FileView, max_changed: i64, path: Set<i64>, w: Walk, s: Surroundings) {
    lemma_sighted_finite(s.seen);
    lemma_left(s, path, f.id);
}

proof fn lemma_left(s: Surroundings, path: Set<i64>, id: i64)
    requires
        sighted(s.seen).finite(),
    ensures
        sighted(s.seen).contains(id) && !path.contains(id) ==> left(s, path.insert(id)) < left(s, path),
{
    let all = sighted(s.seen);
    if all.contains(id) && !path.contains(id) {
        let a = all.difference(path);
        let b = all.difference(path.insert(id));
        assert(b =~= a.remove(id));
        assert(a.contains(id));
    }
}

proof fn lemma_sighted_finite(fs: Seq<(i64, Observed)>)
    ensures
        sighted(fs).finite(),
{
    vstd::seq_lib::seq_to_set_is_finite(fs.map_values(|x: (i64, Observed)| x.0));
}

/// The state of a check, taken from a transaction and hooks.
pub open spec fn walk_of(ptx: &ProcessTransaction, cb: &DirtyCallbacks) -> Walk {
    Walk { db: ptx.db(), writes: ptx.writes(), marks: cb.marks(), reported: cb.reported() }
}

/// A result over views.
pub open spec fn verdict_of(r: Result<Dirtiness, RedoError>) -> Result<DirtView, ErrorView> {
    match r {
        Ok(d) => Ok(d@),
        Err(e) => Err(e@),
    }
}

/// Whether a transaction and hooks have become what a check leaves, with all else as before.
pub open spec fn walked(
    ptx: &ProcessTransaction,
    cb: &DirtyCallbacks,
    before: &ProcessTransaction,
    cb_before: &DirtyCallbacks,
    w: Walk,
) -> bool {
    &&& walk_of(ptx, cb) == w
    &&& ptx.saved_db() == before.saved_db()
    &&& ptx.settings() == before.settings()
    &&& ptx.locks_in_use() == before.locks_in_use()
    &&& ptx.beginning() == before.beginning()
    &&& ptx.ending() == before.ending()
    &&& cb.hooks() == cb_before.hooks()
}

pub(crate) fn look_up<'a>(fs: &'a Sightings, id: i64) -> (r: &'a Observed)
    requires
        sighted(fs@).contains(id),
    ensures
        sighting(fs@, id) == Some(*r),
{
    let ghost ids = fs@.map_values(|x: (i64, Observed)| x.0);
    let mut i: usize = 0;
    assert(fs@.skip(0) =~= fs@);
    proof {
        let k = choose|k: int| 0 <= k < ids.len() && ids[k] == id;
        assert(fs@[k].0 == id);
    }
    while i < fs.len()
        invariant
            i <= fs.len(),
            sighting(fs@, id) == sighting(fs@.skip(i as int), id),
            exists|k: int| i <= k < fs@.len() && (#[trigger] fs@[k]).0 == id,
        decreases fs.len() - i,
    {
        assert(fs@.skip(i as int)[0] == fs@[i as int]);
        assert(fs@.skip(i as int).skip(1) =~= fs@.skip(i + 1));
        if fs[i].0 == id {
            return &fs[i].1;
        }
        i = i + 1;
    }
    assert(false);
    &fs[0].1
}

fn has_id(ids: &Vec<i64>, id: i64) -> (r: bool)
    ensures
        r == ids@.to_set().contains(id),
        r == ids@.contains(id),
{
    let mut i: usize = 0;
    while i < ids.len()
        invariant
            i <= ids.len(),
            forall|k: int| 0 <= k < i ==> ids@[k] != id,
        decreases ids.len() - i,
    {
        if ids[i] == id {
            assert(ids@.contains(id));
            return true;
        }
        i = i + 1;
    }
    assert(!ids@.contains(id));
    false
}

fn with_id(ids: &Vec<i64>, id: i64) -> (r: Vec<i64>)
    ensures
        r@.to_set() == ids@.to_set().insert(id),
{
    let mut r: Vec<i64> = Vec::new();
    let mut i: usize = 0;
    while i < ids.len()
        invariant
            i <= ids.len(),
            r@ == ids@.take(i as int),
        decreases ids.len() - i,
    {
        r.push(ids[i]);
        i = i + 1;
    }
    assert(r@ =~= ids@);
    r.push(id);
    proof {
        ids@.lemma_push_to_set_commute(id);
    }
    r
}

impl DirtyCallbacks {
    fn knows(&self, f: &File, v: &Env) -> (r: bool)
        requires
            v.runid is Some,
        ensures
            r == match self.hooks().is_checked {
                Kept::Memory => self.marks().contains(f@.id),
                Kept::Database => since_known(f@.checked_runid, v.runid),
            },
    {
        match self.is_checked {
            Kept::Database => f.is_checked(v),
            Kept::Memory => has_id(&self.memory, f.id()),
        }
    }

    /// What is done with a file that is found clean.
    fn settle(&mut self, f: &mut File, ptx: &mut ProcessTransaction, Ghost(s): Ghost<Surroundings>)
        requires
            old(ptx).settings().runid == Some(s.runid),
            old(self).hooks() == s.hooks,
        ensures
            ({
                let o = found_clean(old(f)@, walk_of(old(ptx), old(self)), s);
                &&& final(f)@ == o.file
                &&& walked(final(ptx), final(self), old(ptx), old(self), o.walk)
            }),
    {
        if f.is_override() && self.log_override {
            let ghost before = self.overridden@;
            let name = f.name().to_redo_path_buf();
            self.overridden.push(name);
            assert(path_views(self.overridden@) =~= path_views(before).push(f@.name));
        }
        match self.set_checked {
            Kept::Database => {
                f.set_checked_save(ptx);
            },
            Kept::Memory => {
                let ghost before = self.memory@;
                self.memory.push(f.id());
                proof {
                    before.lemma_push_to_set_commute(f@.id);
                }
            },
        }
    }
}

/// The dependencies of a covered file are covered too.
proof fn lemma_deps_covered(f: FileView, db: Db, runid: Option<i64>, ids: Set<i64>)
    requires
        ids.contains(f.id),
        closed_under_deps(db.deps, ids),
    ensures
        deps_of(f, db, runid) matches Ok(ds) ==> forall|i: int|
            0 <= i < ds.len() ==> ids.contains((#[trigger] ds[i]).1.id),
{
    lemma_dep_rows_sources(db.deps, f.id, ids);
    lemma_dep_files_ids(db.files, dep_rows(db.deps, f.id), runid, ids);
}

proof fn lemma_dep_rows_sources(deps: Seq<DepRow>, target: i64, ids: Set<i64>)
    requires
        ids.contains(target),
        closed_under_deps(deps, ids),
    ensures
        forall|i: int| 0 <= i < dep_rows(deps, target).len() ==> ids.contains((#[trigger] dep_rows(deps, target)[i]).source),
    decreases deps.len(),
{
    if deps.len() > 0 {
        let rest = deps.skip(1);
        assert forall|i: int| 0 <= i < rest.len() && ids.contains((#[trigger] rest[i]).target) implies ids.contains(
            rest[i].source,
        ) by {
            assert(rest[i] == deps[i + 1]);
        }
        lemma_dep_rows_sources(rest, target, ids);
        let rows = dep_rows(deps, target);
        assert forall|i: int| 0 <= i < rows.len() implies ids.contains((#[trigger] rows[i]).source) by {
            if deps[0].target == target {
                if i > 0 {
                    assert(rows[i] == dep_rows(rest, target)[i - 1]);
                } else {
                    assert(rows[0] == deps[0]);
                }
            } else {
                assert(rows[i] == dep_rows(rest, target)[i]);
            }
        }
    }
}

proof fn lemma_row_id(files: Seq<FileRowView>, id: i64)
    ensures
        row_by_id(files, id) matches Some(row) ==> row.id == id,
    decreases files.len(),
{
    if files.len() > 0 {
        lemma_row_id(files.skip(1), id);
    }
}

proof fn lemma_dep_files_ids(files: Seq<FileRowView>, rows: Seq<DepRow>, runid: Option<i64>, ids: Set<i64>)
    requires
        forall|i: int| 0 <= i < rows.len() ==> ids.contains((#[trigger] rows[i]).source),
    ensures
        dep_files(files, rows, runid) matches Ok(ds) ==> forall|i: int|
            0 <= i < ds.len() ==> ids.contains((#[trigger] ds[i]).1.id),
    decreases rows.len(),
{
    if rows.len() > 0 {
        let init = rows.drop_last();
        assert forall|i: int| 0 <= i < init.len() implies ids.contains((#[trigger] init[i]).source) by {
            assert(init[i] == rows[i]);
        }
        lemma_dep_files_ids(files, init, runid, ids);
        assert(ids.contains(rows[rows.len() - 1].source));
        lemma_row_id(files, rows.last().source);
    }
}

/// What a file whose stamp is not what it was says.
fn changed(
    ptx: &mut ProcessTransaction,
    f: &mut File,
    missing: bool,
    Ghost(stamp): Ghost<Seq<char>>,
    Ghost(cb): Ghost<DirtyCallbacks>,
    Ghost(s): Ghost<Surroundings>,
) -> (r: Result<Dirtiness, RedoError>)
    requires
        missing == (stamp == "0"@),
        old(ptx).settings().runid == Some(s.runid),
    ensures
        ({
            let o = found_changed(old(f)@, stamp, walk_of(old(ptx), &cb), s);
            &&& verdict_of(r) == o.verdict
            &&& final(f)@ == o.file
            &&& walked(final(ptx), &cb, old(ptx), &cb, o.walk)
            &&& final(ptx).db().deps == old(ptx).db().deps
        }),
{
    if missing && f.is_generated() {
        // previously was stamped and generated, but suddenly missing.
        // We can safely forget that it is/was a target; if someone
        // does redo-ifchange on it and it doesn't exist, we'll mark
        // it a target again, but if someone creates it by hand,
        // it'll be a source.  This should reduce false alarms when
        // files change from targets to sources as a project evolves.
        f.forget_target();
        f.save(ptx);
        match f.refresh(ptx) {
            Err(e) => return Err(e),
            Ok(_) => {},
        }
    }
    Ok(dirty_or_targets(f))
}

/// What a file that is not clean says of what depends on it.
fn dirty_or_targets(f: &File) -> (r: Dirtiness)
    ensures
        r@ == found_dirty(f@),
{
    if f.has_checksum() {
        let mut v: Vec<File> = Vec::new();
        v.push(f.clone());
        assert(file_views(v@) =~= seq![f@]);
        Dirtiness::NeedTargets(v)
    } else {
        Dirtiness::Dirty
    }
}

/// Determine if the given `File` needs to be built.
///
/// `max_changed` is initially the current runid:
/// if a target is newer than this,
/// anything that depends on it is considered outdated.
/// `already_checked` is the list of dependencies already checked in this recursive cycle
/// to avoid infinite loops.
fn private_is_dirty(
    ptx: &mut ProcessTransaction,
    f: &mut File,
    max_changed: i64,
    already_checked: &Vec<i64>,
    cb: &mut DirtyCallbacks,
    seen: &Sightings,
    runid: i64,
) -> (r: Result<Dirtiness, RedoError>)
    requires
        sighted(seen@).contains(old(f)@.id),
        closed_under_deps(old(ptx).db().deps, sighted(seen@)),
        old(ptx).settings().runid == Some(runid),
    ensures
        ({
            let s = Surroundings { runid, seen: seen@, hooks: old(cb).hooks() };
            let o = check(old(f)@, max_changed, already_checked@.to_set(), walk_of(old(ptx), old(cb)), s);
            &&& verdict_of(r) == o.verdict
            &&& final(f)@ == o.file
            &&& walked(final(ptx), final(cb), old(ptx), old(cb), o.walk)
            &&& final(ptx).db().deps == old(ptx).db().deps
        }),
    decreases left(Surroundings { runid, seen: seen@, hooks: old(cb).hooks() }, already_checked@.to_set()),
{
    let ghost s = Surroundings { runid, seen: seen@, hooks: cb.hooks() };
    let ghost path0 = already_checked@.to_set();
    let ghost o = check(f@, max_changed, path0, walk_of(ptx, cb), s);
    let ghost ptx0 = *ptx;
    let ghost cb0 = *cb;
    if has_id(already_checked, f.id()) {
        return Err(RedoError::from_kind(RedoErrorKind::CyclicDependency));
    }
    let path = with_id(already_checked, f.id());
    proof {
        lemma_sighted_finite(seen@);
        lemma_left(s, path0, f@.id);
    }
    if f.has_failed_before() {
        // failed last time
        return Ok(Dirtiness::Dirty);
    }
    let changed_runid: i64 = match f.changed_run() {
        // never built
        None => return Ok(Dirtiness::Dirty),
        Some(c) => c,
    };
    if changed_runid > max_changed {
        // has been built more recently than parent
        return Ok(Dirtiness::Dirty);
    }
    if cb.knows(f, ptx.state().env()) {
        // has already been checked during this session
        return Ok(Dirtiness::Clean);
    }
    let current = match f.stamp() {
        None => return Ok(Dirtiness::Dirty),
        Some(old) => {
            let new = match f.read_stamp(look_up(seen, f.id())) {
                Ok(n) => n,
                Err(e) => return Err(e),
            };
            if old.same(&new) {
                None
            } else {
                Some(new)
            }
        },
    };
    if let Some(new) = current {
        return changed(ptx, f, new.is_missing(), Ghost(new@), Ghost(*cb), Ghost(s));
    }
    assert(own_verdict(f@, max_changed, walk_of(ptx, cb), s) is None);
    let deps = match f.deps(ptx) {
        Ok(d) => d,
        Err(e) => return Err(e),
    };
    proof {
        lemma_deps_covered(f@, ptx.db(), Some(runid), sighted(seen@));
    }
    let checked: i64 = match f.checked_run() {
        Some(k) => k,
        None => 0,
    };
    let allowed: i64 = if changed_runid > checked {
        changed_runid
    } else {
        checked
    };
    let ghost f0 = f@;
    let ghost ds = dep_views(deps@);
    let mut must_build: Vec<File> = Vec::new();
    let mut i: usize = 0;
    assert(ds.skip(0) =~= ds);
    assert(file_views(must_build@) =~= seq![]);
    while i < deps.len()
        invariant
            i <= deps.len(),
            f@ == f0,
            allowed == allowed_change(f0),
            ds == dep_views(deps@),
            forall|k: int| 0 <= k < ds.len() ==> sighted(seen@).contains((#[trigger] ds[k]).1.id),
            closed_under_deps(ptx.db().deps, sighted(seen@)),
            ptx.db().deps == ptx0.db().deps,
            ptx.settings().runid == Some(runid),
            walked(ptx, cb, &ptx0, &cb0, walk_of(ptx, cb)),
            cb0.hooks() == s.hooks,
            s == (Surroundings { runid, seen: seen@, hooks: cb.hooks() }),
            ptx0 == *old(ptx),
            cb0 == *old(cb),
            o == check(old(f)@, max_changed, path0, walk_of(old(ptx), old(cb)), s),
            path@.to_set() == path0.insert(f0.id),
            left(s, path@.to_set()) < left(s, path0),
            path0 == already_checked@.to_set(),
            cb.hooks() == old(cb).hooks(),
            check_deps(
                f0,
                ds.skip(i as int),
                file_views(must_build@),
                path@.to_set(),
                walk_of(ptx, cb),
                s,
            ) == o,
        decreases deps.len() - i,
    {
        let ghost rest = ds.skip(i as int);
        assert(rest[0] == (deps@[i as int].0, deps@[i as int].1@));
        assert(ds[i as int].1.id == deps@[i as int].1@.id);
        assert(rest.skip(1) =~= ds.skip(i + 1));
        let ghost w = walk_of(ptx, cb);
        let ghost sub = dep_verdict(rest[0].0, rest[0].1, allowed, path@.to_set(), w, s);
        let dirty = match deps[i].0 {
            DepMode::Created => if look_up(seen, deps[i].1.id()).is_there() {
                Dirtiness::Dirty
            } else {
                Dirtiness::Clean
            },
            DepMode::Modified => {
                let mut f2 = deps[i].1.clone();
                match private_is_dirty(ptx, &mut f2, allowed, &path, cb, seen, runid) {
                    Ok(d) => d,
                    Err(e) => return Err(e),
                }
            },
        };
        assert(Ok::<DirtView, ErrorView>(dirty@) == sub.verdict);
        assert(walk_of(ptx, cb) == sub.walk);
        match dirty {
            Dirtiness::Dirty => {
                // The dependency is definitely dirty, so f definitely needs to
                // redo.  If f has a checksum, it might turn out to be unchanged after that.
                return Ok(dirty_or_targets(f));
            },
            Dirtiness::NeedTargets(targets) => {
                // our child might be dirty, but it's not sure yet.  It's
                // given us a list of targets we have to redo in order to
                // be sure.
                let mut targets = targets;
                let ghost a = must_build@;
                let ghost b = targets@;
                must_build.append(&mut targets);
                assert(file_views(must_build@) =~= file_views(a) + file_views(b));
            },
            Dirtiness::Clean => {},
        }
        i = i + 1;
    }
    assert(ds.skip(i as int) =~= seq![]);
    if must_build.len() > 0 {
        // f is *maybe* dirty because at least one of its children is maybe
        // dirty.  must_build has accumulated a list of "topmost" uncertain
        // objects in the tree.  If we build all those, we can then
        // redo-ifchange f and it won't have any uncertainty next time.
        return Ok(Dirtiness::NeedTargets(must_build));
    }
    // if we get here, it's because the target is clean
    cb.settle(f, ptx, Ghost(s));
    Ok(Dirtiness::Clean)
}

/// Determine if the given `File` needs to be built, given what was seen of it and of everything
/// that it depends on.
pub fn is_dirty(ptx: &mut ProcessTransaction, f: &mut File, cb: &mut DirtyCallbacks, seen: &Sightings) -> (r: Result<
    Dirtiness,
    RedoError,
>)
    requires
        sighted(seen@).contains(old(f)@.id),
        closed_under_deps(old(ptx).db().deps, sighted(seen@)),
    ensures
        match old(ptx).settings().runid {
            None => r matches Err(e) && e@ == generic("RUNID not set"@) && final(f)@ == old(f)@ && *final(ptx) == *old(
                ptx,
            ) && *final(cb) == *old(cb),
            Some(runid) => {
                let s = Surroundings { runid, seen: seen@, hooks: old(cb).hooks() };
                let o = check(old(f)@, runid, Set::empty(), walk_of(old(ptx), old(cb)), s);
                &&& verdict_of(r) == o.verdict
                &&& final(f)@ == o.file
                &&& walked(final(ptx), final(cb), old(ptx), old(cb), o.walk)
            },
        },
{
    let runid: i64 = match ptx.state().env().runid {
        None => return Err(RedoError::new("RUNID not set")),
        Some(r) => r,
    };
    let none: Vec<i64> = Vec::new();
    assert(none@.to_set() =~= Set::<i64>::empty());
    private_is_dirty(ptx, f, runid, &none, cb, seen, runid)
}

/// Whether all files have checksums.
pub open spec fn all_have_checksums(fs: Seq<FileView>) -> bool {
    forall|i: int| 0 <= i < fs.len() ==> (#[trigger] fs[i]).csum.len() > 0
}

proof fn lemma_targets(f: FileView, max_changed: i64, path: Set<i64>, w: Walk, s: Surroundings)
    ensures
        check(f, max_changed, path, w, s).verdict matches Ok(DirtView::NeedTargets(ts)) ==> ts.len() > 0
            && all_have_checksums(ts),
    decreases left(s, path), 0int, 0nat,
{
    lemma_sighted_finite(s.seen);
    lemma_left(s, path, f.id);
    if !path.contains(f.id) && own_verdict(f, max_changed, w, s) is None && sighted(s.seen).contains(f.id) {
        match deps_of(f, w.db, Some(s.runid)) {
            Ok(deps) => {
                lemma_deps_targets(f, deps, seq![], path.insert(f.id), w, s);
            },
            Err(_) => {},
        }
    }
}

proof fn lemma_deps_targets(
    f: FileView,
    deps: Seq<(DepMode, FileView)>,
    must: Seq<FileView>,
    path: Set<i64>,
    w: Walk,
    s: Surroundings,
)
    requires
        all_have_checksums(must),
    ensures
        check_deps(f, deps, must, path, w, s).verdict matches Ok(DirtView::NeedTargets(ts)) ==> ts.len() > 0
            && all_have_checksums(ts),
    decreases left(s, path), 2int, deps.len(),
{
    if deps.len() > 0 {
        let sub = dep_verdict(deps[0].0, deps[0].1, allowed_change(f), path, w, s);
        if deps[0].0 == DepMode::Modified {
            lemma_targets(deps[0].1, allowed_change(f), path, w, s);
        }
        match sub.verdict {
            Ok(DirtView::NeedTargets(ts)) => {
                lemma_deps_targets(f, deps.skip(1), must + ts, path, sub.walk, s);
            },
            Ok(DirtView::Clean) => {
                lemma_deps_targets(f, deps.skip(1), must, path, sub.walk, s);
            },
            _ => {},
        }
    }
}

/// Where a check asks for targets to be built first, it asks for at least one, and each of them
/// has a checksum: one without would have been dirty for certain.
pub proof fn law_needed_targets_have_checksums(
    f: FileView,
    max_changed: i64,
    path: Set<i64>,
    w: Walk,
    s: Surroundings,
)
    ensures
        check(f, max_changed, path, w, s).verdict matches Ok(DirtView::NeedTargets(ts)) ==> ts.len() > 0
            && all_have_checksums(ts),
{
    lemma_targets(f, max_changed, path, w, s);
}

/// Whether two tables of files list the same files: the same ids and names in the same order.
pub open spec fn same_files(a: Seq<FileRowView>, b: Seq<FileRowView>) -> bool {
    &&& a.len() == b.len()
    &&& forall|i: int| 0 <= i < a.len() ==> (#[trigger] a[i]).id == b[i].id && a[i].name == b[i].name
}

/// Whether a walk has left the dependencies and the list of files of another as they are.
pub open spec fn keeps_structure(after: Walk, before: Walk) -> bool {
    after.db.deps == before.db.deps && same_files(after.db.files, before.db.files)
}

proof fn lemma_keeps(f: FileView, max_changed: i64, path: Set<i64>, w: Walk, s: Surroundings)
    ensures
        keeps_structure(check(f, max_changed, path, w, s).walk, w),
    decreases left(s, path), 0int, 0nat,
{
    lemma_sighted_finite(s.seen);
    lemma_left(s, path, f.id);
    if !path.contains(f.id) && own_verdict(f, max_changed, w, s) is None && sighted(s.seen).contains(f.id) {
        match deps_of(f, w.db, Some(s.runid)) {
            Ok(deps) => {
                lemma_deps_keep(f, deps, seq![], path.insert(f.id), w, s);
            },
            Err(_) => {},
        }
    }
}

proof fn lemma_deps_keep(
    f: FileView,
    deps: Seq<(DepMode, FileView)>,
    must: Seq<FileView>,
    path: Set<i64>,
    w: Walk,
    s: Surroundings,
)
    ensures
        keeps_structure(check_deps(f, deps, must, path, w, s).walk, w),
    decreases left(s, path), 2int, deps.len(),
{
    if deps.len() > 0 {
        let sub = dep_verdict(deps[0].0, deps[0].1, allowed_change(f), path, w, s);
        if deps[0].0 == DepMode::Modified {
            lemma_keeps(deps[0].1, allowed_change(f), path, w, s);
        }
        match sub.verdict {
            Ok(DirtView::NeedTargets(ts)) => {
                lemma_deps_keep(f, deps.skip(1), must + ts, path, sub.walk, s);
            },
            Ok(DirtView::Clean) => {
                lemma_deps_keep(f, deps.skip(1), must, path, sub.walk, s);
            },
            _ => {},
        }
    }
}

/// A check writes nothing but what is known about files: it adds and removes no file, renames
/// none, and leaves all dependencies as they are.
pub proof fn law_check_keeps_structure(f: FileView, max_changed: i64, path: Set<i64>, w: Walk, s: Surroundings)
    ensures
        keeps_structure(check(f, max_changed, path, w, s).walk, w),
{
    lemma_keeps(f, max_changed, path, w, s);
}

/// Whether each of the dependencies is found clean when its turn comes.
pub open spec fn deps_clean(f: FileView, deps: Seq<(DepMode, FileView)>, path: Set<i64>, w: Walk, s: Surroundings) -> bool
    decreases deps.len(),
{
    deps.len() == 0 || {
        let sub = dep_verdict(deps[0].0, deps[0].1, allowed_change(f), path, w, s);
        sub.verdict == Ok::<DirtView, ErrorView>(DirtView::Clean) && deps_clean(f, deps.skip(1), path, sub.walk, s)
    }
}

proof fn lemma_deps_clean(
    f: FileView,
    deps: Seq<(DepMode, FileView)>,
    must: Seq<FileView>,
    path: Set<i64>,
    w: Walk,
    s: Surroundings,
)
    requires
        all_have_checksums(must),
    ensures
        check_deps(f, deps, must, path, w, s).verdict == Ok::<DirtView, ErrorView>(DirtView::Clean) <==> must.len() == 0
            && deps_clean(f, deps, path, w, s),
    decreases deps.len(),
{
    if deps.len() > 0 {
        let sub = dep_verdict(deps[0].0, deps[0].1, allowed_change(f), path, w, s);
        match sub.verdict {
            Ok(DirtView::NeedTargets(ts)) => {
                if deps[0].0 == DepMode::Modified {
                    lemma_targets(deps[0].1, allowed_change(f), path, w, s);
                }
                lemma_deps_clean(f, deps.skip(1), must + ts, path, sub.walk, s);
            },
            Ok(DirtView::Clean) => {
                lemma_deps_clean(f, deps.skip(1), must, path, sub.walk, s);
            },
            _ => {},
        }
    }
}

/// When a file is clean: its last build did not fail, it was built, and not after what depends on
/// it; and either it was found clean in this session already, or it is what it was when it was
/// last stamped and everything it depends on is clean: what it was built without is still not
/// there, and what it was built from is clean itself.
pub proof fn law_clean_means_all_is_clean(f: FileView, max_changed: i64, path: Set<i64>, w: Walk, s: Surroundings)
    requires
        sighted(s.seen).contains(f.id),
    ensures
        check(f, max_changed, path, w, s).verdict == Ok::<DirtView, ErrorView>(DirtView::Clean) <==> {
            &&& !path.contains(f.id)
            &&& f.failed_runid is None
            &&& f.changed_runid matches Some(c) && c <= max_changed
            &&& was_checked(f, w, s) || {
                &&& f.stamp matches Some(t) && stamp_of_seen(sighting(s.seen, f.id).unwrap()) == Ok::<
                    Seq<char>,
                    ErrorView,
                >(t)
                &&& deps_of(f, w.db, Some(s.runid)) matches Ok(deps) && deps_clean(
                    f,
                    deps,
                    path.insert(f.id),
                    w,
                    s,
                )
            }
        },
{
    match deps_of(f, w.db, Some(s.runid)) {
        Ok(deps) => {
            lemma_deps_clean(f, deps, seq![], path.insert(f.id), w, s);
        },
        Err(_) => {},
    }
}

/// Whether a dependency has changed: one that a file was built without is there, or one that it was built from is not
/// what it was when it was last stamped, and has not been looked at in this session.
pub open spec fn has_changed(dep: (DepMode, FileView), s: Surroundings) -> bool {
    let seen = sighting(s.seen, dep.1.id).unwrap();
    match dep.0 {
        DepMode::Created => seen.target is Found,
        DepMode::Modified => !(dep.1.checked_runid matches Some(k) && k != 0 && k >= s.runid) && !(dep.1.stamp matches Some(t)
            && stamp_of_seen(seen) == Ok::<Seq<char>, ErrorView>(t)),
    }
}

proof fn lemma_changed_dep(
    f: FileView,
    deps: Seq<(DepMode, FileView)>,
    i: int,
    path: Set<i64>,
    w: Walk,
    s: Surroundings,
)
    requires
        s.hooks.is_checked == Kept::Database,
        0 <= i < deps.len(),
        has_changed(deps[i], s),
    ensures
        !deps_clean(f, deps, path, w, s),
    decreases i,
{
    let sub = dep_verdict(deps[0].0, deps[0].1, allowed_change(f), path, w, s);
    if i > 0 {
        assert(deps.skip(1)[i - 1] == deps[i]);
        lemma_changed_dep(f, deps.skip(1), i - 1, path, sub.walk, s);
    }
}

/// If something that a file depends on changes, the file is not clean, unless it was found clean earlier in the same session.
pub proof fn law_changed_dependency_is_noticed(
    f: FileView,
    deps: Seq<(DepMode, FileView)>,
    i: int,
    max_changed: i64,
    path: Set<i64>,
    w: Walk,
    s: Surroundings,
)
    requires
        s.hooks.is_checked == Kept::Database,
        sighted(s.seen).contains(f.id),
        !(f.checked_runid matches Some(k) && k != 0 && k >= s.runid),
        deps_of(f, w.db, Some(s.runid)) == Ok::<Seq<(DepMode, FileView)>, ErrorView>(deps),
        0 <= i < deps.len(),
        has_changed(deps[i], s),
    ensures
        check(f, max_changed, path, w, s).verdict != Ok::<DirtView, ErrorView>(DirtView::Clean),
{
    law_clean_means_all_is_clean(f, max_changed, path, w, s);
    lemma_changed_dep(f, deps, i, path.insert(f.id), w, s);
}

/// A file that led to itself is an error, never clean or dirty.
pub proof fn law_cycle_is_an_error(f: FileView, max_changed: i64, path: Set<i64>, w: Walk, s: Surroundings)
    requires
        path.contains(f.id),
    ensures
        check(f, max_changed, path, w, s).verdict == Err::<DirtView, ErrorView>(of_kind(KindView::CyclicDependency)),
        check(f, max_changed, path, w, s).walk == w,
{
}

/// A file that was found clean is clean when it is looked at again in the same session, and
/// looking again changes nothing, as long as it is looked up where it is noted.
pub proof fn law_clean_is_remembered(f: FileView, max_changed: i64, path: Set<i64>, w: Walk, s: Surroundings)
    requires
        s.runid != 0,
        s.hooks.is_checked == s.hooks.set_checked,
        sighted(s.seen).contains(f.id),
    ensures
        ({
            let o = check(f, max_changed, path, w, s);
            let again = check(o.file, max_changed, path, o.walk, s);
            o.verdict == Ok::<DirtView, ErrorView>(DirtView::Clean) ==> {
                &&& again.verdict == Ok::<DirtView, ErrorView>(DirtView::Clean)
                &&& again.walk == o.walk
                &&& again.file == o.file
            }
        }),
{
    match deps_of(f, w.db, Some(s.runid)) {
        Ok(deps) => {
            lemma_clean_file(f, deps, seq![], path.insert(f.id), w, s);
        },
        Err(_) => {},
    }
}

/// What a file whose dependencies are all clean has become.
proof fn lemma_clean_file(
    f: FileView,
    deps: Seq<(DepMode, FileView)>,
    must: Seq<FileView>,
    path: Set<i64>,
    w: Walk,
    s: Surroundings,
)
    ensures
        ({
            let o = check_deps(f, deps, must, path, w, s);
            o.verdict == Ok::<DirtView, ErrorView>(DirtView::Clean) ==> {
                &&& o.file.id == f.id
                &&& o.file.failed_runid == f.failed_runid
                &&& o.file.changed_runid == f.changed_runid
                &&& match s.hooks.set_checked {
                    Kept::Memory => o.walk.marks.contains(f.id),
                    Kept::Database => o.file.checked_runid == Some(s.runid),
                }
            }
        }),
    decreases deps.len(),
{
    if deps.len() > 0 {
        let sub = dep_verdict(deps[0].0, deps[0].1, allowed_change(f), path, w, s);
        match sub.verdict {
            Ok(DirtView::NeedTargets(ts)) => {
                lemma_clean_file(f, deps.skip(1), must + ts, path, sub.walk, s);
            },
            Ok(DirtView::Clean) => {
                lemma_clean_file(f, deps.skip(1), must, path, sub.walk, s);
            },
            _ => {},
        }
    }
}

/// The files that have to be looked at to find out whether the file with the given id is dirty: that file
/// itself and all that it depends on, directly or not. It is the smallest set of files that holds
/// the one and with every target all its dependencies.
pub fn files_to_observe(ptx: &ProcessTransaction, id: i64) -> (r: Vec<i64>)
    ensures
        r@.to_set().contains(id),
        closed_under_deps(ptx.db().deps, r@.to_set()),
        forall|ids: Set<i64>|
            ids.contains(id) && #[trigger] closed_under_deps(ptx.db().deps, ids) ==> r@.to_set().subset_of(ids),
{
    let ghost deps = ptx.db().deps;
    let mut pending = ptx.dep_table();
    let mut ids: Vec<i64> = Vec::new();
    ids.push(id);
    proof {
        assert(ids@[0] == id);
        assert forall|i: int| 0 <= i < deps.len() implies pending@.contains(#[trigger] deps[i]) by {
            assert(pending@[i] == deps[i]);
        }
    }
    let mut i: usize = 0;
    while i < pending.len()
        invariant
            i <= pending.len(),
            deps == ptx.db().deps,
            ids@.contains(id),
            forall|k: int| 0 <= k < pending@.len() ==> deps.contains(#[trigger] pending@[k]),
            forall|k: int| 0 <= k < i ==> !ids@.contains((#[trigger] pending@[k]).target),
            forall|k: int|
                0 <= k < deps.len() ==> pending@.contains(#[trigger] deps[k]) || ids@.contains(deps[k].source),
            forall|other: Set<i64>, k: int|
                #![trigger closed_under_deps(deps, other), ids@[k]]
                other.contains(id) && closed_under_deps(deps, other) && 0 <= k < ids@.len() ==> other.contains(ids@[k]),
        decreases pending.len(), pending.len() - i,
    {
        let d = pending[i];
        if has_id(&ids, d.target) {
            let ghost before = pending@;
            let ghost ids0 = ids@;
            let _ = pending.remove(i);
            if !has_id(&ids, d.source) {
                ids.push(d.source);
            }
            proof {
                assert(pending@ == before.remove(i as int));
                assert(ids@.contains(d.source)) by {
                    if !ids0.contains(d.source) {
                        assert(ids@[ids0.len() as int] == d.source);
                    }
                }
                assert forall|x: i64| ids0.contains(x) implies ids@.contains(x) by {
                    let k = choose|k: int| 0 <= k < ids0.len() && ids0[k] == x;
                    assert(ids@[k] == x);
                }
                assert forall|k: int| 0 <= k < deps.len() implies pending@.contains(#[trigger] deps[k]) || ids@.contains(
                    deps[k].source,
                ) by {
                    if before.contains(deps[k]) && deps[k] != d {
                        let j = choose|j: int| 0 <= j < before.len() && before[j] == deps[k];
                        if j < i {
                            assert(pending@[j] == deps[k]);
                        } else {
                            assert(pending@[j - 1] == deps[k]);
                        }
                    }
                }
                assert forall|k: int| 0 <= k < pending@.len() implies deps.contains(#[trigger] pending@[k]) by {
                    if k < i {
                        assert(pending@[k] == before[k]);
                    } else {
                        assert(pending@[k] == before[k + 1]);
                    }
                }
                assert forall|other: Set<i64>, k: int|
                    #![trigger closed_under_deps(deps, other), ids@[k]]
                    other.contains(id) && closed_under_deps(deps, other) && 0 <= k
                        < ids@.len() implies other.contains(ids@[k]) by {
                    if k < ids0.len() {
                        assert(ids@[k] == ids0[k]);
                    } else {
                        let j = choose|j: int| 0 <= j < ids0.len() && ids0[j] == d.target;
                        assert(other.contains(ids0[j]));
                        assert(deps.contains(before[i as int]));
                        let m = choose|m: int| 0 <= m < deps.len() && deps[m] == d;
                        assert(other.contains(deps[m].target));
                    }
                }
            }
            i = 0;
        } else {
            i = i + 1;
        }
    }
    proof {
        assert forall|k: int| 0 <= k < deps.len() && ids@.to_set().contains((#[trigger] deps[k]).target) implies ids@.to_set().contains(
            deps[k].source,
        ) by {
            if pending@.contains(deps[k]) {
                let j = choose|j: int| 0 <= j < pending@.len() && pending@[j] == deps[k];
                assert(!ids@.contains(pending@[j].target));
            }
        }
        assert forall|other: Set<i64>|
            other.contains(id) && #[trigger] closed_under_deps(deps, other) implies ids@.to_set().subset_of(other) by {
            assert forall|x: i64| ids@.to_set().contains(x) implies other.contains(x) by {
                let k = choose|k: int| 0 <= k < ids@.len() && ids@[k] == x;
                assert(other.contains(ids@[k]));
            }
        }
    }
    ids
}

/// What always changes is dirty in every run, for anything that was last built or looked at in an
/// earlier one.
pub proof fn law_always_is_dirty(row: FileRowView, max_changed: i64, path: Set<i64>, w: Walk, s: Surroundings)
    requires
        row.name == crate::state::always_name(),
        row.failed_runid is None,
        max_changed < s.runid,
        !path.contains(row.id),
    ensures
        check(crate::state::file_of_row(row, Some(s.runid)), max_changed, path, w, s).verdict == Ok::<
            DirtView,
            ErrorView,
        >(DirtView::Dirty),
{
}

/// What was seen of a file is the first thing that is said of it.
pub proof fn law_first_sighting(fs: Seq<(i64, Observed)>, k: int)
    requires
        0 <= k < fs.len(),
        forall|i: int| 0 <= i < k ==> (#[trigger] fs[i]).0 != fs[k].0,
    ensures
        sighting(fs, fs[k].0) == Some(fs[k].1),
        sighted(fs).contains(fs[k].0),
    decreases fs.len(),
{
    let ids = fs.map_values(|x: (i64, Observed)| x.0);
    assert(ids[k] == fs[k].0);
    if k > 0 {
        let rest = fs.skip(1);
        assert forall|i: int| 0 <= i < k - 1 implies (#[trigger] rest[i]).0 != rest[k - 1].0 by {
            assert(rest[i] == fs[i + 1]);
        }
        assert(fs[0].0 != fs[k].0);
        law_first_sighting(rest, k - 1);
    }
}

/// Whether a file has been found clean in this session, by where that is kept.
pub open spec fn known_clean(f: FileView, w: Walk, s: Surroundings) -> bool {
    ||| s.hooks.is_checked == Kept::Memory && w.marks.contains(f.id)
    ||| s.hooks.is_checked == Kept::Database && (f.checked_runid matches Some(k) && k != 0 && k >= s.runid)
}

/// If something that a file was built from has been built again since the file was last built and last found clean, the file is
/// not clean, unless it was found clean earlier in the same session.
pub proof fn law_newer_dependency_is_noticed(
    f: FileView,
    deps: Seq<(DepMode, FileView)>,
    i: int,
    newer: i64,
    max_changed: i64,
    path: Set<i64>,
    w: Walk,
    s: Surroundings,
)
    requires
        sighted(s.seen).contains(f.id),
        !known_clean(f, w, s),
        deps_of(f, w.db, Some(s.runid)) == Ok::<Seq<(DepMode, FileView)>, ErrorView>(deps),
        0 <= i < deps.len(),
        deps[i].0 == DepMode::Modified,
        deps[i].1.changed_runid == Some(newer),
        newer > 0,
        f.changed_runid matches Some(c) ==> newer > c,
        f.checked_runid matches Some(k) ==> newer > k,
    ensures
        check(f, max_changed, path, w, s).verdict != Ok::<DirtView, ErrorView>(DirtView::Clean),
{
    law_clean_means_all_is_clean(f, max_changed, path, w, s);
    if f.changed_runid is Some {
        lemma_newer_dep(f, deps, i, path.insert(f.id), w, s);
    }
}

proof fn lemma_newer_dep(
    f: FileView,
    deps: Seq<(DepMode, FileView)>,
    i: int,
    path: Set<i64>,
    w: Walk,
    s: Surroundings,
)
    requires
        0 <= i < deps.len(),
        deps[i].0 == DepMode::Modified,
        deps[i].1.changed_runid matches Some(d) && d > allowed_change(f),
    ensures
        !deps_clean(f, deps, path, w, s),
    decreases i,
{
    let sub = dep_verdict(deps[0].0, deps[0].1, allowed_change(f), path, w, s);
    if i > 0 {
        assert(deps.skip(1)[i - 1] == deps[i]);
        lemma_newer_dep(f, deps.skip(1), i - 1, path, sub.walk, s);
    }
}

/// Whether a dependency of a file gives no reason to build the file again: what the file was built without is still not there;
/// and what it was built from has been built, not failed, and not changed since the file was last built or last found clean,
/// and was either found clean in this run already or is a source that is what it was.
pub open spec fn gives_no_reason(f: FileView, dep: (DepMode, FileView), path: Set<i64>, s: Surroundings) -> bool {
    let g = dep.1;
    match dep.0 {
        DepMode::Created => !(sighting(s.seen, g.id).unwrap().target is Found),
        DepMode::Modified => {
            &&& g.id != f.id && !path.contains(g.id)
            &&& g.failed_runid is None
            &&& g.changed_runid matches Some(d) && ((f.changed_runid matches Some(c) && d <= c) || (f.checked_runid matches Some(
                k,
            ) && d <= k))
            &&& {
                ||| s.hooks.is_checked == Kept::Database && (g.checked_runid matches Some(k) && k != 0 && k >= s.runid)
                ||| {
                    &&& !g.is_generated || g.is_override
                    &&& sighted(s.seen).contains(g.id)
                    &&& g.stamp matches Some(t) && stamp_of_seen(sighting(s.seen, g.id).unwrap()) == Ok::<
                        Seq<char>,
                        ErrorView,
                    >(t)
                }
            }
        },
    }
}

/// A file is clean, and is not built again, if it has been built and has not failed, is what it was when it was stamped, and none
/// of its dependencies gives a reason to build it.
pub proof fn law_unchanged_is_clean(
    f: FileView,
    deps: Seq<(DepMode, FileView)>,
    max_changed: i64,
    path: Set<i64>,
    w: Walk,
    s: Surroundings,
)
    requires
        sighted(s.seen).contains(f.id),
        !path.contains(f.id),
        f.failed_runid is None,
        f.changed_runid matches Some(c) && c <= max_changed,
        f.stamp matches Some(t) && stamp_of_seen(sighting(s.seen, f.id).unwrap()) == Ok::<Seq<char>, ErrorView>(t),
        deps_of(f, w.db, Some(s.runid)) == Ok::<Seq<(DepMode, FileView)>, ErrorView>(deps),
        forall|i: int| 0 <= i < deps.len() ==> gives_no_reason(f, #[trigger] deps[i], path, s),
    ensures
        check(f, max_changed, path, w, s).verdict == Ok::<DirtView, ErrorView>(DirtView::Clean),
{
    law_clean_means_all_is_clean(f, max_changed, path, w, s);
    lemma_no_reason(f, deps, path, w, s);
}

proof fn lemma_no_reason(f: FileView, deps: Seq<(DepMode, FileView)>, path: Set<i64>, w: Walk, s: Surroundings)
    requires
        f.changed_runid is Some,
        forall|i: int| 0 <= i < deps.len() ==> gives_no_reason(f, #[trigger] deps[i], path, s),
    ensures
        deps_clean(f, deps, path.insert(f.id), w, s),
    decreases deps.len(),
{
    if deps.len() > 0 {
        lemma_dep_without_reason(f, deps[0], path, w, s);
        let sub = dep_verdict(deps[0].0, deps[0].1, allowed_change(f), path.insert(f.id), w, s);
        assert forall|i: int| 0 <= i < deps.skip(1).len() implies gives_no_reason(f, #[trigger] deps.skip(1)[i], path, s) by {
            assert(deps.skip(1)[i] == deps[i + 1]);
        }
        lemma_no_reason(f, deps.skip(1), path, sub.walk, s);
    }
}

proof fn lemma_dep_without_reason(f: FileView, dep: (DepMode, FileView), path: Set<i64>, w: Walk, s: Surroundings)
    requires
        f.changed_runid is Some,
        gives_no_reason(f, dep, path, s),
    ensures
        dep_verdict(dep.0, dep.1, allowed_change(f), path.insert(f.id), w, s).verdict == Ok::<DirtView, ErrorView>(
            DirtView::Clean,
        ),
{
    let g = dep.1;
    if dep.0 == DepMode::Modified && !was_checked(g, w, s) {
        let here = path.insert(f.id);
        assert(own_verdict(g, allowed_change(f), w, s) is None);
        assert(deps_of(g, w.db, Some(s.runid)) == Ok::<Seq<(DepMode, FileView)>, ErrorView>(seq![]));
        assert(check_deps(g, seq![], seq![], here.insert(g.id), w, s).verdict == Ok::<DirtView, ErrorView>(
            DirtView::Clean,
        ));
    }
}

/// A file is dirty, whatever it depends on, if its last build failed, if it was never built, if it was built later than what
/// depends on it, or if it was never stamped and has not been found clean in this session. Nothing is noted about it.
pub proof fn law_reasons_to_build(f: FileView, max_changed: i64, path: Set<i64>, w: Walk, s: Surroundings)
    requires
        !path.contains(f.id),
        f.failed_runid is Some || f.changed_runid is None || (f.changed_runid matches Some(c) && c > max_changed) || (
        f.stamp is None && !known_clean(f, w, s)),
    ensures
        check(f, max_changed, path, w, s).verdict == Ok::<DirtView, ErrorView>(DirtView::Dirty),
        check(f, max_changed, path, w, s).file == f,
        check(f, max_changed, path, w, s).walk == w,
{
}

/// A file that is not what it was when it was stamped is not clean. Without a checksum it is dirty; one with a checksum has to be
/// built before it is known whether it has changed. That a generated file has gone missing makes it no target any more.
pub proof fn law_changed_file_is_noticed(
    f: FileView,
    now: Seq<char>,
    max_changed: i64,
    path: Set<i64>,
    w: Walk,
    s: Surroundings,
    k: int,
)
    requires
        !path.contains(f.id),
        f.failed_runid is None,
        f.changed_runid matches Some(c) && c <= max_changed,
        !known_clean(f, w, s),
        f.stamp is Some,
        f.stamp != Some(now),
        stamp_of_seen(sighting(s.seen, f.id).unwrap()) == Ok::<Seq<char>, ErrorView>(now),
    ensures
        ({
            let o = check(f, max_changed, path, w, s);
            let vanished = f.is_generated && now == "0"@;
            &&& !vanished ==> {
                &&& f.csum.len() == 0 ==> o.verdict == Ok::<DirtView, ErrorView>(DirtView::Dirty)
                &&& f.csum.len() > 0 ==> o.verdict == Ok::<DirtView, ErrorView>(DirtView::NeedTargets(seq![f]))
                &&& o.walk == w
                &&& o.file == f
            }
            &&& vanished ==> o.verdict != Ok::<DirtView, ErrorView>(DirtView::Clean) && (0 <= k < w.db.files.len()
                && w.db.files[k].id == f.id ==> o.walk.db.files[k].is_generated == Some(false)
                && o.walk.db.files[k].failed_runid == Some(0i64))
        }),
{
    if f.is_generated && now == "0"@ && 0 <= k < w.db.files.len() {
        let g = FileView { is_generated: false, failed_runid: Some(0), ..f };
        crate::db::law_update_changes_one(w.db, row_of_file(g), k);
    }
}

/// A file that is found clean is noted, so that it need not be looked at again in the same session; one that was known to be clean
/// is left as it is. A clean file that someone has overridden is reported, if that is wanted. Nothing else is known of it then than
/// before.
pub proof fn law_clean_is_noted(f: FileView, max_changed: i64, path: Set<i64>, w: Walk, s: Surroundings)
    requires
        sighted(s.seen).contains(f.id),
        check(f, max_changed, path, w, s).verdict == Ok::<DirtView, ErrorView>(DirtView::Clean),
    ensures
        ({
            let o = check(f, max_changed, path, w, s);
            &&& known_clean(f, w, s) ==> o.file == f && o.walk == w
            &&& !known_clean(f, w, s) ==> {
                &&& s.hooks.set_checked == Kept::Database ==> o.file.checked_runid == Some(s.runid) && o.walk.writes.len() > 0
                    && o.walk.writes.last() == WriteView::UpdateFile(row_of_file(o.file))
                &&& s.hooks.set_checked == Kept::Memory ==> o.file == f && o.walk.marks.contains(f.id)
                &&& f.is_override && s.hooks.log_override ==> o.walk.reported.len() > 0 && o.walk.reported.last() == f.name
            }
            &&& o.file.id == f.id && o.file.name == f.name && o.file.changed_runid == f.changed_runid
            &&& o.file.failed_runid == f.failed_runid && o.file.stamp == f.stamp && o.file.csum == f.csum
            &&& o.file.is_generated == f.is_generated && o.file.is_override == f.is_override
        }),
{
    match deps_of(f, w.db, Some(s.runid)) {
        Ok(deps) => {
            lemma_clean_end(f, deps, seq![], path.insert(f.id), w, s);
        },
        Err(_) => {},
    }
}

proof fn lemma_clean_end(
    f: FileView,
    deps: Seq<(DepMode, FileView)>,
    must: Seq<FileView>,
    path: Set<i64>,
    w: Walk,
    s: Surroundings,
)
    ensures
        check_deps(f, deps, must, path, w, s).verdict == Ok::<DirtView, ErrorView>(DirtView::Clean) ==> exists|v: Walk|
            check_deps(f, deps, must, path, w, s) == #[trigger] found_clean(f, v, s),
    decreases deps.len(),
{
    if deps.len() == 0 {
        if must.len() == 0 {
            assert(check_deps(f, deps, must, path, w, s) == found_clean(f, w, s));
        }
    } else {
        let sub = dep_verdict(deps[0].0, deps[0].1, allowed_change(f), path, w, s);
        match sub.verdict {
            Ok(DirtView::NeedTargets(ts)) => {
                lemma_clean_end(f, deps.skip(1), must + ts, path, sub.walk, s);
            },
            Ok(DirtView::Clean) => {
                lemma_clean_end(f, deps.skip(1), must, path, sub.walk, s);
            },
            _ => {},
        }
    }
}

/// Whether a dependency of a file is one with a checksum that is not what it was: only building it tells whether it has changed.
pub open spec fn leaves_it_open(f: FileView, dep: (DepMode, FileView), path: Set<i64>, s: Surroundings) -> bool {
    let g = dep.1;
    &&& dep.0 == DepMode::Modified
    &&& g.id != f.id && !path.contains(g.id)
    &&& g.failed_runid is None
    &&& g.changed_runid matches Some(d) && ((f.changed_runid matches Some(c) && d <= c) || (f.checked_runid matches Some(k) && d
        <= k))
    &&& s.hooks.is_checked == Kept::Database && !(g.checked_runid matches Some(k) && k != 0 && k >= s.runid)
    &&& g.csum.len() > 0
    &&& g.stamp matches Some(t) && (stamp_of_seen(sighting(s.seen, g.id).unwrap()) matches Ok(now) && now != t && (now != "0"@
        || !g.is_generated))
}

/// If nothing gives a reason to build a file but dependencies with a checksum that are not what they were, it is not dirty for
/// that: those dependencies, and no others, have to be built first.
pub proof fn law_checksums_are_built_first(
    f: FileView,
    deps: Seq<(DepMode, FileView)>,
    i: int,
    max_changed: i64,
    path: Set<i64>,
    w: Walk,
    s: Surroundings,
)
    requires
        sighted(s.seen).contains(f.id),
        !path.contains(f.id),
        !known_clean(f, w, s),
        f.failed_runid is None,
        f.changed_runid matches Some(c) && c <= max_changed,
        f.stamp matches Some(t) && stamp_of_seen(sighting(s.seen, f.id).unwrap()) == Ok::<Seq<char>, ErrorView>(t),
        deps_of(f, w.db, Some(s.runid)) == Ok::<Seq<(DepMode, FileView)>, ErrorView>(deps),
        forall|j: int|
            0 <= j < deps.len() ==> gives_no_reason(f, #[trigger] deps[j], path, s) || leaves_it_open(f, deps[j], path, s),
        0 <= i < deps.len(),
        leaves_it_open(f, deps[i], path, s),
    ensures
        check(f, max_changed, path, w, s).verdict matches Ok(DirtView::NeedTargets(ts)) && ts.contains(deps[i].1)
            && forall|t: FileView| #[trigger] ts.contains(t) ==> exists|j: int|
            0 <= j < deps.len() && leaves_it_open(f, #[trigger] deps[j], path, s) && deps[j].1 == t,
{
    assert(seq![] + Seq::<FileView>::empty() =~= Seq::<FileView>::empty());
    let ts = open_deps(f, deps, path, s);
    lemma_open_deps(f, deps, path, s);
    assert(leaves_it_open(f, deps[i], path, s));
    assert(ts.contains(deps[i].1));
    lemma_left_open(f, deps, seq![], path, w, s);
    assert(Seq::<FileView>::empty() + ts =~= ts);
}

spec fn open_deps(f: FileView, deps: Seq<(DepMode, FileView)>, path: Set<i64>, s: Surroundings) -> Seq<FileView>
    decreases deps.len(),
{
    if deps.len() == 0 {
        seq![]
    } else if leaves_it_open(f, deps[0], path, s) {
        seq![deps[0].1] + open_deps(f, deps.skip(1), path, s)
    } else {
        open_deps(f, deps.skip(1), path, s)
    }
}

proof fn lemma_open_deps(f: FileView, deps: Seq<(DepMode, FileView)>, path: Set<i64>, s: Surroundings)
    ensures
        forall|j: int|
            0 <= j < deps.len() && leaves_it_open(f, #[trigger] deps[j], path, s) ==> open_deps(f, deps, path, s).contains(
                deps[j].1,
            ),
        forall|t: FileView| #[trigger]
            open_deps(f, deps, path, s).contains(t) ==> exists|j: int|
                0 <= j < deps.len() && leaves_it_open(f, #[trigger] deps[j], path, s) && deps[j].1 == t,
    decreases deps.len(),
{
    if deps.len() > 0 {
        let rest = deps.skip(1);
        let all = open_deps(f, deps, path, s);
        let fewer = open_deps(f, rest, path, s);
        lemma_open_deps(f, rest, path, s);
        let off: int = if leaves_it_open(f, deps[0], path, s) {
            1
        } else {
            0
        };
        assert forall|j: int| 0 <= j < deps.len() && leaves_it_open(f, #[trigger] deps[j], path, s) implies all.contains(
            deps[j].1,
        ) by {
            if j == 0 {
                assert(all[0] == deps[0].1);
            } else {
                assert(rest[j - 1] == deps[j]);
                let k = choose|k: int| 0 <= k < fewer.len() && fewer[k] == deps[j].1;
                assert(all[k + off] == deps[j].1);
            }
        }
        assert forall|t: FileView| #[trigger] all.contains(t) implies exists|j: int|
            0 <= j < deps.len() && leaves_it_open(f, #[trigger] deps[j], path, s) && deps[j].1 == t by {
            let k = choose|k: int| 0 <= k < all.len() && all[k] == t;
            if off == 1 && k == 0 {
                assert(deps[0].1 == t);
            } else {
                assert(fewer[k - off] == t);
                assert(fewer.contains(t));
                let j = choose|j: int|
                    0 <= j < rest.len() && leaves_it_open(f, #[trigger] rest[j], path, s) && rest[j].1 == t;
                assert(deps[j + 1] == rest[j]);
            }
        }
    }
}

proof fn lemma_left_open(
    f: FileView,
    deps: Seq<(DepMode, FileView)>,
    must: Seq<FileView>,
    path: Set<i64>,
    w: Walk,
    s: Surroundings,
)
    requires
        f.changed_runid is Some,
        forall|j: int|
            0 <= j < deps.len() ==> gives_no_reason(f, #[trigger] deps[j], path, s) || leaves_it_open(f, deps[j], path, s),
        must.len() + open_deps(f, deps, path, s).len() > 0,
    ensures
        check_deps(f, deps, must, path.insert(f.id), w, s).verdict == Ok::<DirtView, ErrorView>(
            DirtView::NeedTargets(must + open_deps(f, deps, path, s)),
        ),
    decreases deps.len(),
{
    if deps.len() == 0 {
        assert(must + seq![] =~= must);
    } else {
        let here = path.insert(f.id);
        let sub = dep_verdict(deps[0].0, deps[0].1, allowed_change(f), here, w, s);
        assert forall|j: int| 0 <= j < deps.skip(1).len() implies gives_no_reason(f, #[trigger] deps.skip(1)[j], path, s)
            || leaves_it_open(f, deps.skip(1)[j], path, s) by {
            assert(deps.skip(1)[j] == deps[j + 1]);
        }
        assert(deps[0] == deps[0]);
        if leaves_it_open(f, deps[0], path, s) {
            assert(sub.verdict == Ok::<DirtView, ErrorView>(DirtView::NeedTargets(seq![deps[0].1])));
            let ts = seq![deps[0].1];
            lemma_left_open(f, deps.skip(1), must + ts, path, sub.walk, s);
            assert((must + ts) + open_deps(f, deps.skip(1), path, s) =~= must + open_deps(f, deps, path, s));
        } else {
            lemma_dep_without_reason(f, deps[0], path, w, s);
            lemma_left_open(f, deps.skip(1), must, path, sub.walk, s);
        }
    }
}

/// A file that is found clean has clean dependencies, and these in turn have clean ones: everything that it was built from is
/// clean by itself, for something that was last built or found clean when this file was; and nothing is there that it was
/// built without.
pub proof fn law_clean_file_has_clean_deps(
    f: FileView,
    deps: Seq<(DepMode, FileView)>,
    i: int,
    max_changed: i64,
    path: Set<i64>,
    w: Walk,
    s: Surroundings,
    latest: i64,
)
    requires
        sighted(s.seen).contains(f.id),
        !known_clean(f, w, s),
        check(f, max_changed, path, w, s).verdict == Ok::<DirtView, ErrorView>(DirtView::Clean),
        deps_of(f, w.db, Some(s.runid)) == Ok::<Seq<(DepMode, FileView)>, ErrorView>(deps),
        0 <= i < deps.len(),
        f.changed_runid matches Some(c) && c <= latest,
        f.checked_runid matches Some(k) ==> k <= latest,
        f.changed_runid == Some(latest) || f.checked_runid == Some(latest),
        latest >= 0,
    ensures
        deps[i].0 == DepMode::Created ==> !(sighting(s.seen, deps[i].1.id).unwrap().target is Found),
        deps[i].0 == DepMode::Modified ==> exists|v: Walk|
            keeps_structure(v, w) && #[trigger] check(deps[i].1, latest, path.insert(f.id), v, s).verdict == Ok::<
                DirtView,
                ErrorView,
            >(DirtView::Clean),
{
    law_clean_means_all_is_clean(f, max_changed, path, w, s);
    assert(allowed_change(f) == latest);
    lemma_clean_dep_at(f, deps, i, path.insert(f.id), w, s);
}

proof fn lemma_clean_dep_at(
    f: FileView,
    deps: Seq<(DepMode, FileView)>,
    i: int,
    path: Set<i64>,
    w: Walk,
    s: Surroundings,
)
    requires
        deps_clean(f, deps, path, w, s),
        0 <= i < deps.len(),
    ensures
        deps[i].0 == DepMode::Created ==> !(sighting(s.seen, deps[i].1.id).unwrap().target is Found),
        deps[i].0 == DepMode::Modified ==> exists|v: Walk|
            keeps_structure(v, w) && #[trigger] check(deps[i].1, allowed_change(f), path, v, s).verdict == Ok::<
                DirtView,
                ErrorView,
            >(DirtView::Clean),
    decreases i,
{
    let sub = dep_verdict(deps[0].0, deps[0].1, allowed_change(f), path, w, s);
    if i == 0 {
        if deps[0].0 == DepMode::Modified {
            assert(keeps_structure(w, w));
            assert(check(deps[0].1, allowed_change(f), path, w, s).verdict == Ok::<DirtView, ErrorView>(DirtView::Clean));
        }
    } else {
        if deps[0].0 == DepMode::Modified {
            law_check_keeps_structure(deps[0].1, allowed_change(f), path, w, s);
        }
        assert(deps.skip(1)[i - 1] == deps[i]);
        lemma_clean_dep_at(f, deps.skip(1), i - 1, path, sub.walk, s);
        if deps[i].0 == DepMode::Modified {
            let v = choose|v: Walk|
                keeps_structure(v, sub.walk) && #[trigger] check(deps[i].1, allowed_change(f), path, v, s).verdict == Ok::<
                    DirtView,
                    ErrorView,
                >(DirtView::Clean);
            assert(keeps_structure(v, w));
        }
    }
}

} // verus!
