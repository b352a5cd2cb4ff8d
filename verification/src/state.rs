//! The state of a build: files, their stamps and their dependencies.

use vstd::prelude::*;
use vstd::string::*;
use vstd::utf8::*;
use crate::db::{
    apply, fresh_row, marked_dep, max_id, replay, row_by_id, row_by_name, row_views, write_views, Db,
    DepMode, DepRow, FileRow, FileRowView, Tables, Write, WriteView,
};
use crate::env::Env;
use crate::error::{debug_str, generic, opaque, plain, quoted, ErrorView, KindView, RedoError, RedoErrorKind};
use crate::lock::{Lock, LockManager};
use crate::pathname::{is_rooted, join_path, pushed};
use crate::redopath::{
    bad_path, is_redo_path, lossy_utf8, show_bytes, shown, to_lossy, utf8_text, RedoPath, RedoPathBuf,
};
use crate::relpath::{parts, relative_real, relpath, same_path, Places};
use crate::stamp::{stamp_of_seen, stamp_result, Observed, Stamp};
use crate::text::{bytes_eq, copy_bytes, dec_i64, decimal_int, SEP};

verus! {

/// The version of the database's layout.
pub const SCHEMA_VER: i32 = 2;

/// An invalid filename that is always marked as dirty.
pub const ALWAYS: &'static str = "//ALWAYS";

/// fid offset for "log locks".
pub const LOG_LOCK_MAGIC: i64 = 0x10000000;

/// The run before the first one of a new database.
///
/// Because of the cheesy way that a cache is flushed, leave a lot of runids available before the
/// "first" one so that we can adjust cached values to be before the first value.
pub const FIRST_RUNID: i64 = 1000000000;

/// The bytes of [`ALWAYS`].
pub open spec fn always_name() -> Seq<u8> {
    "//ALWAYS".spec_bytes()
}

pub proof fn lemma_always()
    ensures
        is_redo_path(always_name()),
{
    reveal_strlit("//ALWAYS");
    encode_utf8_valid_utf8("//ALWAYS"@);
    assert(is_ascii("//ALWAYS"));
    is_ascii_spec_bytes("//ALWAYS");
}

/// Returns an invalid filename that is always marked as dirty.
pub fn always_filename() -> (r: RedoPath)
    ensures
        r@ == always_name(),
{
    proof {
        lemma_always();
    }
    RedoPath::from_str_unchecked("//ALWAYS")
}

/// How a transaction begins.
#[derive(Clone, Copy, Debug, Eq, PartialEq, Structural)]
pub enum TransactionBehavior {
    Deferred,
    Immediate,
    Exclusive,
}

/// How a transaction ends if nothing else is said.
#[derive(Clone, Copy, Debug, Eq, PartialEq, Structural)]
pub enum DropBehavior {
    Rollback,
    Commit,
    Ignore,
    Panic,
}

/// The state of a process: what the database held when it was last in step with it, what it
/// holds with the writes since then, and those writes.
#[derive(Debug)]
#[non_exhaustive]
pub struct ProcessState {
    tables: Tables,
    saved: Tables,
    journal: Vec<Write>,
    env: Env,
    locks: LockManager,
}

/// What was found when the database was opened.
#[derive(Debug)]
pub enum Opened {
    /// There was none: a new one has been made.
    Fresh,
    /// There was one.
    Existing {
        /// The version of its layout.
        version: Option<i32>,
        /// The last run.
        last_runid: i64,
        tables: Tables,
    },
}

/// The text of the error for a database of another version.
pub open spec fn version_text(dbfile: Seq<u8>, version: Option<i32>) -> Seq<char> {
    shown(dbfile) + ": found v"@ + decimal_int(
        match version {
            Some(v) => v as int,
            None => 0,
        },
    ) + " (expected v"@ + decimal_int(SCHEMA_VER as int)
        + ")\nmanually delete .redo dir to start over."@
}

/// The directory that holds the database.
pub open spec fn db_dir(base: Seq<u8>) -> Seq<u8> {
    pushed(base, ".redo".spec_bytes())
}

/// What a new database holds.
pub open spec fn fresh_db() -> Db {
    Db { files: seq![fresh_row(1, always_name())], deps: seq![] }
}

/// What was in a database when it was opened.
pub open spec fn opened_db(opened: Opened) -> Db {
    match opened {
        Opened::Fresh => fresh_db(),
        Opened::Existing { version, last_runid, tables } => tables@,
    }
}

/// The last run that a database knows of.
pub open spec fn opened_runid(opened: Opened) -> i64 {
    match opened {
        Opened::Fresh => FIRST_RUNID,
        Opened::Existing { version, last_runid, tables } => last_runid,
    }
}

/// Whether a database is one that can be worked with.
pub open spec fn opened_ok(opened: Opened) -> bool {
    match opened {
        Opened::Fresh => true,
        Opened::Existing { version, last_runid, tables } => version == Some(SCHEMA_VER),
    }
}

/// The settings of a process that begins a new run after `last`, unless it belongs to one already.
pub open spec fn settings_of_run(e: Env, last: i64) -> Env {
    if e.runid is None {
        Env { runid: Some((last + 1) as i64), ..e }
    } else {
        e
    }
}

/// The tables of a new database.
fn fresh_tables() -> (t: Tables)
    ensures
        t@ == fresh_db(),
{
    let mut files: Vec<FileRow> = Vec::new();
    files.push(
        FileRow {
            id: 1,
            name: copy_bytes("//ALWAYS".as_bytes()),
            is_generated: None,
            is_override: None,
            checked_runid: None,
            changed_runid: None,
            failed_runid: None,
            stamp: None,
            csum: None,
        },
    );
    let t = Tables { files, deps: Vec::new() };
    assert(t@.files =~= fresh_db().files);
    assert(t@.deps =~= fresh_db().deps);
    t
}

/// The error for a database of another version.
fn version_error(e: &Env, version: Option<i32>) -> (r: RedoError)
    ensures
        r@ == generic(version_text(pushed(db_dir(e.base@), "db.sqlite3".spec_bytes()), version)),
{
    let found: i32 = match version {
        Some(v) => v,
        None => 0,
    };
    let mut msg = show_bytes(ProcessState::db_file(e).as_slice());
    msg.append(": found v");
    msg.append(dec_i64(found as i64).as_str());
    msg.append(" (expected v");
    msg.append(dec_i64(SCHEMA_VER as i64).as_str());
    msg.append(")\nmanually delete .redo dir to start over.");
    RedoError::new(msg.as_str())
}

impl ProcessState {
    /// What the database holds, as far as this process is concerned.
    pub closed spec fn db(&self) -> Db {
        self.tables@
    }

    /// What the database held when it was last in step with this process.
    pub closed spec fn saved_db(&self) -> Db {
        self.saved@
    }

    /// What has been written since then.
    pub closed spec fn writes(&self) -> Seq<WriteView> {
        write_views(self.journal@)
    }

    /// The settings.
    pub closed spec fn settings(&self) -> Env {
        self.env
    }

    /// The files that this process has locks for.
    pub closed spec fn locks_in_use(&self) -> Set<i64> {
        self.locks.in_use()
    }

    /// The file of the database.
    pub fn db_file(env: &Env) -> (r: Vec<u8>)
        ensures
            r@ == pushed(db_dir(env.base@), "db.sqlite3".spec_bytes()),
    {
        let dir = join_path(env.base.as_slice(), ".redo".as_bytes());
        join_path(dir.as_slice(), "db.sqlite3".as_bytes())
    }

    /// The file for locks.
    pub fn lock_file(env: &Env) -> (r: Vec<u8>)
        ensures
            r@ == pushed(db_dir(env.base@), "locks".spec_bytes()),
    {
        let dir = join_path(env.base.as_slice(), ".redo".as_bytes());
        join_path(dir.as_slice(), "locks".as_bytes())
    }

    /// Starts from what was found in the database. A process that was not told which run it
    /// belongs to begins a new one.
    pub fn init(e: Env, opened: Opened) -> (r: Result<ProcessState, RedoError>)
        ensures
            match r {
                Ok(ps) => {
                    &&& opened_ok(opened)
                    &&& e.runid is None ==> opened_runid(opened) < i64::MAX
                    &&& ps.db() == opened_db(opened)
                    &&& ps.saved_db() == opened_db(opened)
                    &&& ps.writes() == Seq::<WriteView>::empty()
                    &&& ps.settings() == settings_of_run(e, opened_runid(opened))
                    &&& ps.locks_in_use() == Set::<i64>::empty()
                },
                Err(err) => if !opened_ok(opened) {
                    err@ == generic(
                        version_text(
                            pushed(db_dir(e.base@), "db.sqlite3".spec_bytes()),
                            opened->Existing_version,
                        ),
                    )
                } else {
                    &&& e.runid is None
                    &&& opened_runid(opened) == i64::MAX
                    &&& err@ == generic("failed to insert new Runid"@)
                },
            },
    {
        let (tables, last_runid): (Tables, i64) = match opened {
            Opened::Fresh => (fresh_tables(), FIRST_RUNID),
            Opened::Existing { version, last_runid, tables } => {
                let ok = match version {
                    Some(v) => v == SCHEMA_VER,
                    None => false,
                };
                if !ok {
                    return Err(version_error(&e, version));
                }
                (tables, last_runid)
            },
        };
        let mut e = e;
        if e.runid.is_none() {
            if last_runid == i64::MAX {
                return Err(RedoError::new("failed to insert new Runid"));
            }
            e.fill_runid(last_runid + 1);
        }
        let saved = tables.clone();
        let journal: Vec<Write> = Vec::new();
        assert(write_views(journal@) =~= Seq::<WriteView>::empty());
        Ok(ProcessState { tables, saved, journal, env: e, locks: LockManager::new() })
    }

    /// Borrow the process state's settings immutably.
    pub fn env(&self) -> (r: &Env)
        ensures
            *r == self.settings(),
    {
        &self.env
    }

    /// Borrow the process state's settings mutably.
    pub fn env_mut(&mut self) -> (r: &mut Env)
        ensures
            *r == old(self).settings(),
            final(self).settings() == *final(r),
            final(self).db() == old(self).db(),
            final(self).saved_db() == old(self).saved_db(),
            final(self).writes() == old(self).writes(),
            final(self).locks_in_use() == old(self).locks_in_use(),
    {
        &mut self.env
    }

    /// Whether there is a lock for a file.
    pub fn uses_lock(&self, fid: i64) -> (r: bool)
        ensures
            r == self.locks_in_use().contains(fid),
    {
        self.locks.uses(fid)
    }

    /// A lock for a file that there is none for yet.
    pub fn new_lock(&mut self, fid: i64) -> (r: Lock)
        requires
            !old(self).locks_in_use().contains(fid),
        ensures
            r.file() == fid,
            !r.held(),
            final(self).locks_in_use() == old(self).locks_in_use().insert(fid),
            final(self).settings() == old(self).settings(),
            final(self).db() == old(self).db(),
            final(self).saved_db() == old(self).saved_db(),
            final(self).writes() == old(self).writes(),
    {
        self.locks.new_lock(fid)
    }

    /// Gives up the use of a lock. Reports whether it has to be unlocked.
    pub fn discard_lock(&mut self, lock: Lock) -> (r: bool)
        ensures
            r == lock.held(),
            final(self).locks_in_use() == old(self).locks_in_use().remove(lock.file()),
            final(self).settings() == old(self).settings(),
            final(self).db() == old(self).db(),
            final(self).saved_db() == old(self).saved_db(),
            final(self).writes() == old(self).writes(),
    {
        self.locks.discard(lock)
    }

    /// Takes in what the database holds now, which other processes may have changed.
    pub fn reload(&mut self, tables: Tables)
        requires
            old(self).writes().len() == 0,
        ensures
            final(self).db() == tables@,
            final(self).saved_db() == tables@,
            final(self).writes().len() == 0,
            final(self).settings() == old(self).settings(),
            final(self).locks_in_use() == old(self).locks_in_use(),
    {
        self.saved = tables.clone();
        self.tables = tables;
    }

    /// Whether no other redo process started this one.
    pub fn is_toplevel(&self) -> (r: bool)
        ensures
            r == self.settings().is_toplevel,
    {
        self.env.is_toplevel
    }

    /// Whether everything that was written is in the database.
    pub fn is_flushed(&self) -> (r: bool)
        ensures
            r == (self.writes().len() == 0),
    {
        self.journal.len() == 0
    }

    /// What has been written since the process was last in step with the database.
    pub fn journal(&self) -> (r: &Vec<Write>)
        ensures
            write_views(r@) == self.writes(),
    {
        &self.journal
    }
}

/// A transaction.
#[derive(Debug)]
pub struct ProcessTransaction {
    state: ProcessState,
    behavior: TransactionBehavior,
    drop_behavior: DropBehavior,
}

impl ProcessTransaction {
    /// What the database holds within the transaction.
    pub closed spec fn db(&self) -> Db {
        self.state.db()
    }

    /// What the database held when the process was last in step with it.
    pub closed spec fn saved_db(&self) -> Db {
        self.state.saved_db()
    }

    /// What has been written since then.
    pub closed spec fn writes(&self) -> Seq<WriteView> {
        self.state.writes()
    }

    /// The settings.
    pub closed spec fn settings(&self) -> Env {
        self.state.settings()
    }

    /// The files that this process has locks for.
    pub closed spec fn locks_in_use(&self) -> Set<i64> {
        self.state.locks_in_use()
    }

    /// How the transaction begins.
    pub closed spec fn beginning(&self) -> TransactionBehavior {
        self.behavior
    }

    /// How the transaction ends if nothing else is said.
    pub closed spec fn ending(&self) -> DropBehavior {
        self.drop_behavior
    }

    /// Whether a transaction differs from an earlier one by one write.
    pub open spec fn wrote(&self, before: &ProcessTransaction, w: WriteView) -> bool {
        &&& self.db() == apply(before.db(), w)
        &&& self.writes() == before.writes().push(w)
        &&& self.saved_db() == before.saved_db()
        &&& self.settings() == before.settings()
        &&& self.locks_in_use() == before.locks_in_use()
        &&& self.beginning() == before.beginning()
        &&& self.ending() == before.ending()
    }

    /// Whether a transaction differs from an earlier one by a series of writes.
    pub open spec fn wrote_all(&self, before: &ProcessTransaction, ws: Seq<WriteView>) -> bool {
        &&& self.db() == replay(before.db(), ws)
        &&& self.writes() == before.writes() + ws
        &&& self.saved_db() == before.saved_db()
        &&& self.settings() == before.settings()
        &&& self.locks_in_use() == before.locks_in_use()
        &&& self.beginning() == before.beginning()
        &&& self.ending() == before.ending()
    }

    /// The statement that begins the transaction.
    pub fn begin_statement(&self) -> (r: &'static str)
        ensures
            r@ == match self.beginning() {
                TransactionBehavior::Deferred => "BEGIN DEFERRED"@,
                TransactionBehavior::Immediate => "BEGIN IMMEDIATE"@,
                TransactionBehavior::Exclusive => "BEGIN EXCLUSIVE"@,
            },
    {
        match self.behavior {
            TransactionBehavior::Deferred => "BEGIN DEFERRED",
            TransactionBehavior::Immediate => "BEGIN IMMEDIATE",
            TransactionBehavior::Exclusive => "BEGIN EXCLUSIVE",
        }
    }

    /// Starts a transaction, which is rolled back in the end unless something else is said.
    pub fn new(state: ProcessState, behavior: TransactionBehavior) -> (r: ProcessTransaction)
        ensures
            r.db() == state.db(),
            r.saved_db() == state.saved_db(),
            r.writes() == state.writes(),
            r.settings() == state.settings(),
            r.locks_in_use() == state.locks_in_use(),
            r.beginning() == behavior,
            r.ending() == DropBehavior::Rollback,
    {
        ProcessTransaction { state, behavior, drop_behavior: DropBehavior::Rollback }
    }

    /// Says how the transaction ends.
    pub fn set_drop_behavior(&mut self, drop_behavior: DropBehavior)
        ensures
            final(self).ending() == drop_behavior,
            final(self).beginning() == old(self).beginning(),
            final(self).locks_in_use() == old(self).locks_in_use(),
            final(self).db() == old(self).db(),
            final(self).saved_db() == old(self).saved_db(),
            final(self).writes() == old(self).writes(),
            final(self).settings() == old(self).settings(),
    {
        self.drop_behavior = drop_behavior;
    }

    /// The state within the transaction.
    pub fn state(&self) -> (r: &ProcessState)
        ensures
            r.db() == self.db(),
            r.saved_db() == self.saved_db(),
            r.writes() == self.writes(),
            r.settings() == self.settings(),
            r.locks_in_use() == self.locks_in_use(),
    {
        &self.state
    }

    /// A lock for a file that there is none for yet.
    pub fn new_lock(&mut self, fid: i64) -> (r: Lock)
        requires
            !old(self).locks_in_use().contains(fid),
        ensures
            r.file() == fid,
            !r.held(),
            final(self).locks_in_use() == old(self).locks_in_use().insert(fid),
            final(self).settings() == old(self).settings(),
            final(self).db() == old(self).db(),
            final(self).saved_db() == old(self).saved_db(),
            final(self).writes() == old(self).writes(),
            final(self).beginning() == old(self).beginning(),
            final(self).ending() == old(self).ending(),
    {
        self.state.new_lock(fid)
    }

    /// Takes in what the database holds at the beginning of the transaction.
    pub fn reload(&mut self, tables: Tables)
        requires
            old(self).writes().len() == 0,
        ensures
            final(self).db() == tables@,
            final(self).saved_db() == tables@,
            final(self).writes().len() == 0,
            final(self).settings() == old(self).settings(),
            final(self).locks_in_use() == old(self).locks_in_use(),
            final(self).beginning() == old(self).beginning(),
            final(self).ending() == old(self).ending(),
    {
        self.state.reload(tables);
    }

    /// A copy of the table of dependencies.
    pub fn dep_table(&self) -> (r: Vec<DepRow>)
        ensures
            r@ == self.db().deps,
    {
        crate::db::copy_deps(&self.state.tables.deps)
    }

    /// The statement that ends the transaction, if there is one to be run.
    pub fn finish_statement(&self) -> (r: Option<&'static str>)
        ensures
            match self.ending() {
                DropBehavior::Commit => r matches Some(s) && s@ == "COMMIT"@,
                DropBehavior::Rollback => r matches Some(s) && s@ == "ROLLBACK"@,
                _ => r is None,
            },
    {
        match self.drop_behavior {
            DropBehavior::Commit => Some("COMMIT"),
            DropBehavior::Rollback => Some("ROLLBACK"),
            _ => None,
        }
    }

    /// Ends the transaction the way that was said, given what became of the statement that
    /// [`finish_statement`](ProcessTransaction::finish_statement) names. Where a commit fails, the
    /// transaction is rolled back.
    pub fn finish(self, outcome: Result<(), String>) -> (r: (ProcessState, Result<(), RedoError>))
        requires
            self.ending() != DropBehavior::Panic,
        ensures
            r.0.settings() == self.settings(),
            r.0.locks_in_use() == self.locks_in_use(),
            match self.ending() {
                DropBehavior::Ignore => {
                    &&& r.1 is Ok
                    &&& r.0.db() == self.db()
                    &&& r.0.saved_db() == self.saved_db()
                    &&& r.0.writes() == self.writes()
                },
                DropBehavior::Commit => {
                    &&& r.0.db() == if outcome is Ok { self.db() } else { self.saved_db() }
                    &&& r.0.saved_db() == r.0.db()
                    &&& r.0.writes().len() == 0
                    &&& match outcome {
                        Ok(_) => r.1 is Ok,
                        Err(text) => r.1 matches Err(e) && e@ == opaque(text@),
                    }
                },
                _ => {
                    &&& r.0.db() == self.saved_db()
                    &&& r.0.saved_db() == self.saved_db()
                    &&& r.0.writes().len() == 0
                    &&& match outcome {
                        Ok(_) => r.1 is Ok,
                        Err(text) => r.1 matches Err(e) && e@ == opaque(text@),
                    }
                },
            },
    {
        let ProcessState { tables, saved, journal, env, locks } = self.state;
        if self.drop_behavior == DropBehavior::Ignore {
            return (ProcessState { tables, saved, journal, env, locks }, Ok(()));
        }
        let kept = match (self.drop_behavior, &outcome) {
            (DropBehavior::Commit, Ok(_)) => tables,
            _ => saved,
        };
        let result = match outcome {
            Ok(_) => Ok(()),
            Err(text) => Err(RedoError::opaque_error(text.as_str())),
        };
        let again = kept.clone();
        (ProcessState { tables: kept, saved: again, journal: Vec::new(), env, locks }, result)
    }

    /// Ends the transaction by a commit, given what became of the statement `COMMIT`.
    pub fn commit(self, outcome: Result<(), String>) -> (r: (ProcessState, Result<(), RedoError>))
        ensures
            r.0.settings() == self.settings(),
            r.0.locks_in_use() == self.locks_in_use(),
            r.0.db() == if outcome is Ok { self.db() } else { self.saved_db() },
            r.0.saved_db() == r.0.db(),
            r.0.writes().len() == 0,
            match outcome {
                Ok(_) => r.1 is Ok,
                Err(text) => r.1 matches Err(e) && e@ == opaque(text@),
            },
    {
        let mut tx = self;
        tx.set_drop_behavior(DropBehavior::Commit);
        tx.finish(outcome)
    }

    fn write(&mut self, w: Write)
        requires
            w is InsertFile ==> max_id(old(self).db().files) < i64::MAX,
        ensures
            final(self).wrote(old(self), w@),
    {
        let ghost before = self.state.journal@;
        self.state.tables.write(&w);
        self.state.journal.push(w);
        assert(write_views(self.state.journal@) =~= write_views(before).push(w@));
    }
}

/// The database is always what it held when the process was last in step with it, with the
/// writes since then: if that holds before a write, it holds after it.
pub proof fn law_writes_account_for_db(before: ProcessTransaction, after: ProcessTransaction, w: WriteView)
    requires
        before.db() == replay(before.saved_db(), before.writes()),
        after.wrote(&before, w),
    ensures
        after.db() == replay(after.saved_db(), after.writes()),
{
    assert(before.writes().push(w).drop_last() =~= before.writes());
}

/// What is known about a source or target.
pub struct FileView {
    pub id: i64,
    pub name: Seq<u8>,
    pub is_generated: bool,
    pub is_override: bool,
    pub checked_runid: Option<i64>,
    pub changed_runid: Option<i64>,
    pub failed_runid: Option<i64>,
    pub stamp: Option<Seq<char>>,
    pub csum: Seq<char>,
}

/// The later of a run that may not be known and one that is.
pub open spec fn later_run(a: Option<i64>, b: i64) -> i64 {
    match a {
        Some(x) if x > b => x,
        _ => b,
    }
}

/// What a row says about a file during the given run. The file that is always dirty
/// is one that changes with every run.
pub open spec fn file_of_row(row: FileRowView, runid: Option<i64>) -> FileView {
    FileView {
        id: row.id,
        name: row.name,
        is_generated: row.is_generated == Some(true),
        is_override: row.is_override == Some(true),
        checked_runid: row.checked_runid,
        changed_runid: if row.name == always_name() && runid is Some {
            Some(later_run(row.changed_runid, runid.unwrap()))
        } else {
            row.changed_runid
        },
        failed_runid: row.failed_runid,
        stamp: row.stamp,
        csum: match row.csum {
            Some(c) => c,
            None => seq![],
        },
    }
}

/// What reading a row gives: a file, unless the name in the given column is not one that redo
/// can use.
pub open spec fn read_row(row: FileRowView, runid: Option<i64>, column: nat) -> Result<FileView, ErrorView> {
    if is_redo_path(row.name) {
        Ok(file_of_row(row, runid))
    } else {
        Err(
            opaque(
                "Conversion error from type Text at index: "@ + crate::text::decimal(column) + ", "@ + bad_path(
                    row.name,
                ).msg,
            ),
        )
    }
}

/// The row that keeps what is known about a file.
pub open spec fn row_of_file(f: FileView) -> FileRowView {
    FileRowView {
        id: f.id,
        name: f.name,
        is_generated: Some(f.is_generated),
        is_override: Some(f.is_override),
        checked_runid: f.checked_runid,
        changed_runid: f.changed_runid,
        failed_runid: f.failed_runid,
        stamp: f.stamp,
        csum: if f.csum.len() == 0 {
            None
        } else {
            Some(f.csum)
        },
    }
}

/// The name of a file in the database: its path relative to the base directory, but for the name
/// that is always dirty.
pub open spec fn db_name(name: Seq<u8>, base: Seq<u8>, places: Places) -> Result<Seq<u8>, ErrorView> {
    if parts(name) == parts(always_name()) {
        Ok(always_name())
    } else {
        match relative_real(name, base, places) {
            Ok(p) => Ok(lossy_utf8(p)),
            Err(e) => Err(opaque(e)),
        }
    }
}

/// A result over views.
pub open spec fn file_result(r: Result<File, RedoError>) -> Result<FileView, ErrorView> {
    match r {
        Ok(f) => Ok(f@),
        Err(e) => Err(e@),
    }
}

/// The error for a name that the database does not know.
pub open spec fn unknown_name(name: Seq<u8>) -> ErrorView {
    plain(KindView::FileNotFound, "no file with name="@ + quoted(decode_utf8(name)))
}

/// The error for an id that the database does not know.
pub open spec fn unknown_id(id: i64) -> ErrorView {
    plain(KindView::FileNotFound, "no file with id="@ + decimal_int(id as int))
}

/// What looking up a name gives, and what it writes: a name that is not known yet is added if
/// that is asked for, as long as there is an id for it.
pub open spec fn looked_up(db: Db, name: Seq<u8>, runid: Option<i64>, allow_add: bool) -> (
    Result<FileView, ErrorView>,
    Option<WriteView>,
) {
    match row_by_name(db.files, name) {
        Some(row) => (read_row(row, runid, 1), None),
        None => if !allow_add {
            (Err(unknown_name(name)), None)
        } else if max_id(db.files) == i64::MAX {
            (Err(opaque("database or disk is full"@)), None)
        } else {
            (
                read_row(fresh_row((max_id(db.files) + 1) as i64, name), runid, 1),
                Some(WriteView::InsertFile(name)),
            )
        },
    }
}

/// The dependencies of a target in the table.
pub open spec fn dep_rows(deps: Seq<DepRow>, target: i64) -> Seq<DepRow>
    decreases deps.len(),
{
    if deps.len() == 0 {
        seq![]
    } else if deps[0].target == target {
        seq![deps[0]] + dep_rows(deps.skip(1), target)
    } else {
        dep_rows(deps.skip(1), target)
    }
}

/// The files that the given dependencies lead to, each with its mode. One that leads to no known
/// file counts for nothing; the first file that cannot be read makes the whole fail.
pub open spec fn dep_files(files: Seq<FileRowView>, deps: Seq<DepRow>, runid: Option<i64>) -> Result<
    Seq<(DepMode, FileView)>,
    ErrorView,
>
    decreases deps.len(),
{
    if deps.len() == 0 {
        Ok(seq![])
    } else {
        let rest = dep_files(files, deps.drop_last(), runid);
        match rest {
            Err(e) => Err(e),
            Ok(fs) => match row_by_id(files, deps.last().source) {
                None => Ok(fs),
                Some(row) => match read_row(row, runid, 3) {
                    Err(e) => Err(e),
                    Ok(f) => Ok(fs.push((deps.last().mode, f))),
                },
            },
        }
    }
}

/// The files that a file depends on. One that is not generated, or that someone has
/// overridden, depends on none.
pub open spec fn deps_of(f: FileView, db: Db, runid: Option<i64>) -> Result<Seq<(DepMode, FileView)>, ErrorView> {
    if f.is_override || !f.is_generated {
        Ok(seq![])
    } else {
        dep_files(db.files, dep_rows(db.deps, f.id), runid)
    }
}

/// What dependencies say.
pub open spec fn dep_views(v: Seq<(DepMode, File)>) -> Seq<(DepMode, FileView)> {
    v.map_values(|x: (DepMode, File)| (x.0, x.1@))
}

/// A file that has changed in the given run.
pub open spec fn changed_in(f: FileView, runid: Option<i64>) -> FileView {
    FileView { changed_runid: runid, failed_runid: None, is_override: false, ..f }
}

/// A file once its stamp has been brought up to date.
pub open spec fn restamped(
    f: FileView,
    runid: Option<i64>,
    must_exist: bool,
    stamp: Result<Seq<char>, ErrorView>,
) -> Result<FileView, ErrorView> {
    match stamp {
        Err(e) => Err(e),
        Ok(s) => if must_exist && s == "0"@ {
            Err(generic(quoted(decode_utf8(f.name)) + " does not exist"@))
        } else if f.stamp == Some(s) {
            Ok(f)
        } else {
            Ok(changed_in(FileView { stamp: Some(s), ..f }, runid))
        },
    }
}

/// A file whose build has failed. If it exists now, it counts as generated; if it does not, it
/// goes back to being a source.
pub open spec fn failed_in(f: FileView, runid: Option<i64>, stamp: Result<Seq<char>, ErrorView>) -> Result<
    FileView,
    ErrorView,
> {
    match restamped(f, runid, false, stamp) {
        Err(e) => Err(e),
        Ok(g) => Ok(FileView { failed_runid: runid, is_generated: g.stamp != Some("0"@), ..g }),
    }
}

/// A file that turned out to be a source.
pub open spec fn made_static(f: FileView, runid: Option<i64>, stamp: Result<Seq<char>, ErrorView>) -> Result<
    FileView,
    ErrorView,
> {
    match restamped(f, runid, true, stamp) {
        Err(e) => Err(e),
        Ok(g) => Ok(FileView { failed_runid: None, is_override: false, is_generated: false, ..g }),
    }
}

/// A target that someone has changed by hand.
pub open spec fn made_override(f: FileView, runid: Option<i64>, stamp: Result<Seq<char>, ErrorView>) -> Result<
    FileView,
    ErrorView,
> {
    match restamped(f, runid, false, stamp) {
        Err(e) => Err(e),
        Ok(g) => Ok(FileView { failed_runid: None, is_override: true, ..g }),
    }
}

/// Whether a run is the given one or a later one, zero standing for no run.
pub open spec fn since(run: Option<i64>, current: i64) -> bool {
    run matches Some(r) && r != 0 && r >= current
}

/// The same for a run that need not be known.
pub open spec fn since_known(run: Option<i64>, runid: Option<i64>) -> bool {
    runid matches Some(r) && since(run, r)
}

/// Whether there was a run at all.
pub open spec fn had_run(run: Option<i64>) -> bool {
    run matches Some(r) && r != 0
}

/// Whether a file failed to build in the given run.
pub open spec fn has_failed(f: FileView, runid: Option<i64>) -> bool {
    since_known(f.failed_runid, runid)
}

/// Whether a name is one of redo's own, which stand for no file.
pub open spec fn is_special(name: Seq<u8>) -> bool {
    name.len() >= 2 && name[0] == 0x2f && name[1] == 0x2f
}

/// Whether something is a source, given its stamp.
pub open spec fn source_with(f: FileView, runid: Option<i64>, stamp: Seq<char>) -> bool {
    let missing = stamp == "0"@;
    let as_left = f.is_generated && (!has_failed(f, runid) || !missing) && !f.is_override && f.stamp == Some(stamp);
    let gone = (!f.is_generated || f.stamp != Some(stamp)) && missing;
    !as_left && !gone
}

/// Whether something is a source.
pub open spec fn is_source_view(f: FileView, runid: Option<i64>, stamp: Result<Seq<char>, ErrorView>) -> Result<
    bool,
    ErrorView,
> {
    if is_special(f.name) {
        Ok(false)
    } else {
        match stamp {
            Err(e) => Err(e),
            Ok(s) => Ok(source_with(f, runid, s)),
        }
    }
}

/// Whether something is a target.
pub open spec fn is_target_view(f: FileView, runid: Option<i64>, stamp: Result<Seq<char>, ErrorView>) -> Result<
    bool,
    ErrorView,
> {
    if !f.is_generated {
        Ok(false)
    } else {
        match is_source_view(f, runid, stamp) {
            Err(e) => Err(e),
            Ok(b) => Ok(!b),
        }
    }
}

/// A result over views.
pub open spec fn bool_result(r: Result<bool, RedoError>) -> Result<bool, ErrorView> {
    match r {
        Ok(b) => Ok(b),
        Err(e) => Err(e@),
    }
}

/// An object representing a source or target in the redo database.
#[derive(Debug)]
#[non_exhaustive]
pub struct File {
    id: i64,
    name: RedoPathBuf,
    pub(crate) is_generated: bool,
    pub(crate) is_override: bool,
    pub(crate) checked_runid: Option<i64>,
    pub(crate) changed_runid: Option<i64>,
    pub(crate) failed_runid: Option<i64>,
    pub(crate) stamp: Option<Stamp>,
    csum: String,
}

/// The contents of an optional stamp.
pub open spec fn opt_stamp(s: Option<Stamp>) -> Option<Seq<char>> {
    match s {
        Some(s) => Some(s@),
        None => None,
    }
}

impl View for File {
    type V = FileView;

    closed spec fn view(&self) -> FileView {
        FileView {
            id: self.id,
            name: self.name@,
            is_generated: self.is_generated,
            is_override: self.is_override,
            checked_runid: self.checked_runid,
            changed_runid: self.changed_runid,
            failed_runid: self.failed_runid,
            stamp: opt_stamp(self.stamp),
            csum: self.csum@,
        }
    }
}

impl Clone for File {
    fn clone(&self) -> (r: File)
        ensures
            r@ == self@,
    {
        File {
            id: self.id,
            name: self.name.clone(),
            is_generated: self.is_generated,
            is_override: self.is_override,
            checked_runid: self.checked_runid,
            changed_runid: self.changed_runid,
            failed_runid: self.failed_runid,
            stamp: match &self.stamp {
                Some(s) => Some(s.clone()),
                None => None,
            },
            csum: self.csum.clone(),
        }
    }
}

/// The text of the error for a name that redo cannot use, found in the given column.
fn name_error(name: Vec<u8>, column: u64) -> (r: RedoError)
    requires
        !is_redo_path(name@),
    ensures
        r@ == opaque(
            "Conversion error from type Text at index: "@ + crate::text::decimal(column as nat) + ", "@ + bad_path(
                name@,
            ).msg,
        ),
{
    let mut msg = "Conversion error from type Text at index: ".to_owned();
    msg.append(crate::text::dec_u64(column).as_str());
    msg.append(", ");
    match RedoPathBuf::try_from(name) {
        Ok(_) => {},
        Err(e) => {
            msg.append(e.text().as_str());
        },
    }
    RedoError::opaque_error(msg.as_str())
}

impl File {
    /// Reads a row, the name of which stands in the given column.
    pub(crate) fn from_cols_with_runid(row: &FileRow, runid: Option<i64>, column: u64) -> (r: Result<
        File,
        RedoError,
    >)
        ensures
            file_result(r) == read_row(row@, runid, column as nat),
    {
        let name = match RedoPathBuf::try_from(copy_bytes(row.name.as_slice())) {
            Ok(n) => n,
            Err(_) => return Err(name_error(copy_bytes(row.name.as_slice()), column)),
        };
        let mut f = File {
            id: row.id,
            name,
            is_generated: match row.is_generated {
                Some(b) => b,
                None => false,
            },
            is_override: match row.is_override {
                Some(b) => b,
                None => false,
            },
            checked_runid: row.checked_runid,
            changed_runid: row.changed_runid,
            failed_runid: row.failed_runid,
            stamp: match &row.stamp {
                Some(s) => Some(Stamp::from(s.clone())),
                None => None,
            },
            csum: match &row.csum {
                Some(s) => s.clone(),
                None => String::new(),
            },
        };
        if bytes_eq(row.name.as_slice(), "//ALWAYS".as_bytes()) {
            if let Some(env_runid) = runid {
                f.changed_runid = match f.changed_runid {
                    Some(c) => if c > env_runid {
                        Some(c)
                    } else {
                        Some(env_runid)
                    },
                    None => Some(env_runid),
                };
            }
        }
        assert(Seq::<char>::empty() =~= seq![]);
        Ok(f)
    }

    /// Looks up a file by its path.
    pub fn from_name(ptx: &mut ProcessTransaction, name: &[u8], places: &Places, allow_add: bool) -> (r: Result<
        File,
        RedoError,
    >)
        requires
            is_rooted(old(ptx).settings().base@),
        ensures
            match db_name(name@, old(ptx).settings().base@, *places) {
                Err(e) => file_result(r) == Err::<FileView, ErrorView>(e) && *final(ptx) == *old(ptx),
                Ok(n) => {
                    let (res, w) = looked_up(old(ptx).db(), n, old(ptx).settings().runid, allow_add);
                    &&& file_result(r) == res
                    &&& match w {
                        None => *final(ptx) == *old(ptx),
                        Some(w) => final(ptx).wrote(old(ptx), w),
                    }
                },
            },
    {
        if same_path(name, "//ALWAYS".as_bytes()) {
            proof {
                lemma_always();
            }
            return File::from_db_name(ptx, "//ALWAYS".as_bytes(), allow_add);
        }
        match relpath(name, ptx.state().env().base.as_slice(), places) {
            Err(e) => Err(RedoError::opaque_error(e.as_str())),
            Ok(p) => File::from_db_name(ptx, to_lossy(p.as_slice()).as_slice(), allow_add),
        }
    }

    /// Looks up a file by its name in the database.
    pub fn from_db_name(ptx: &mut ProcessTransaction, name: &[u8], allow_add: bool) -> (r: Result<
        File,
        RedoError,
    >)
        requires
            valid_utf8(name@),
        ensures
            ({
                let (res, w) = looked_up(old(ptx).db(), name@, old(ptx).settings().runid, allow_add);
                &&& file_result(r) == res
                &&& match w {
                    None => *final(ptx) == *old(ptx),
                    Some(w) => final(ptx).wrote(old(ptx), w),
                }
            }),
    {
        let runid = ptx.state.env.runid;
        match ptx.state.tables.by_name(name) {
            Some(row) => return File::from_cols_with_runid(row, runid, 1),
            None => {},
        }
        if !allow_add {
            let mut msg = "no file with name=".to_owned();
            msg.append(debug_str(utf8_text(name).unwrap().as_str()).as_str());
            return Err(RedoError::new(msg.as_str()).with_kind(RedoErrorKind::FileNotFound));
        }
        let last: i64 = ptx.state.tables.largest_id();
        if last == i64::MAX {
            return Err(RedoError::opaque_error("database or disk is full"));
        }
        ptx.write(Write::InsertFile(copy_bytes(name)));
        assert(ptx.state.tables.files@.len() == row_views(ptx.state.tables.files@).len());
        assert(row_views(ptx.state.tables.files@) == ptx.db().files);
        let n: usize = ptx.state.tables.files.len() - 1;
        assert(ptx.state.tables@.files[n as int] == ptx.state.tables.files@[n as int]@);
        File::from_cols_with_runid(&ptx.state.tables.files[n], runid, 1)
    }

    /// Looks up a file by its id.
    pub fn from_id(ptx: &ProcessTransaction, id: i64) -> (r: Result<File, RedoError>)
        ensures
            file_result(r) == found_by_id(ptx.db(), id, ptx.settings().runid),
    {
        match ptx.state.tables.by_id(id) {
            Some(row) => File::from_cols_with_runid(row, ptx.state.env.runid, 1),
            None => {
                let mut msg = "no file with id=".to_owned();
                msg.append(dec_i64(id).as_str());
                Err(RedoError::new(msg.as_str()).with_kind(RedoErrorKind::FileNotFound))
            },
        }
    }
}

/// What looking up an id gives.
pub open spec fn found_by_id(db: Db, id: i64, runid: Option<i64>) -> Result<FileView, ErrorView> {
    match row_by_id(db.files, id) {
        Some(row) => read_row(row, runid, 1),
        None => Err(unknown_id(id)),
    }
}

impl File {
    /// The id of the file.
    pub fn id(&self) -> (r: i64)
        ensures
            r == self@.id,
    {
        self.id
    }

    /// The name of the file, relative to the base directory.
    pub fn name(&self) -> (r: &RedoPath)
        ensures
            r@ == self@.name,
    {
        self.name.as_redo_path()
    }

    /// Whether redo made the file.
    pub fn is_generated(&self) -> (r: bool)
        ensures
            r == self@.is_generated,
    {
        self.is_generated
    }

    /// Whether someone has changed the file by hand after redo made it.
    pub fn is_override(&self) -> (r: bool)
        ensures
            r == self@.is_override,
    {
        self.is_override
    }

    /// The stamp of the file when redo last looked at it.
    pub fn stamp(&self) -> (r: &Option<Stamp>)
        ensures
            opt_stamp(*r) == self@.stamp,
    {
        &self.stamp
    }

    /// Whether the last build of the file failed.
    pub fn has_failed_before(&self) -> (r: bool)
        ensures
            r == (self@.failed_runid is Some),
    {
        self.failed_runid.is_some()
    }

    /// The last run in which the file was looked at.
    pub fn checked_run(&self) -> (r: Option<i64>)
        ensures
            r == self@.checked_runid,
    {
        self.checked_runid
    }

    /// The last run in which the file changed.
    pub fn changed_run(&self) -> (r: Option<i64>)
        ensures
            r == self@.changed_runid,
    {
        self.changed_runid
    }

    /// Notes that the file is not a target any more.
    pub(crate) fn forget_target(&mut self)
        ensures
            final(self)@ == (FileView { is_generated: false, failed_runid: Some(0), ..old(self)@ }),
    {
        self.is_generated = false;
        self.failed_runid = Some(0);
    }

    /// Notes that redo makes the file.
    pub fn set_generated(&mut self)
        ensures
            final(self)@ == (FileView { is_generated: true, is_override: false, failed_runid: None, ..old(self)@ }),
    {
        self.is_generated = true;
        self.is_override = false;
        self.failed_runid = None;
    }

    /// Notes that redo has made the file just now.
    pub(crate) fn set_built(&mut self)
        ensures
            final(self)@ == (FileView { is_generated: true, is_override: false, ..old(self)@ }),
    {
        self.is_generated = true;
        self.is_override = false;
    }

    /// Returns the file's checksum. An empty string means no checksum.
    pub fn checksum(&self) -> (r: &str)
        ensures
            r@ == self@.csum,
    {
        self.csum.as_str()
    }

    /// Whether the file has a checksum.
    pub fn has_checksum(&self) -> (r: bool)
        ensures
            r == (self@.csum.len() > 0),
    {
        self.csum.as_str().unicode_len() > 0
    }

    /// Sets the file's checksum.
    pub fn set_checksum(&mut self, csum: String)
        ensures
            final(self)@ == (FileView { csum: csum@, ..old(self)@ }),
    {
        self.csum = csum;
    }

    /// Reads the file from the database again.
    pub fn refresh(&mut self, ptx: &ProcessTransaction) -> (r: Result<(), RedoError>)
        ensures
            match found_by_id(ptx.db(), old(self)@.id, ptx.settings().runid) {
                Ok(f) => r is Ok && final(self)@ == f,
                Err(e) => r matches Err(err) && err@ == e && final(self)@ == old(self)@,
            },
    {
        match File::from_id(ptx, self.id) {
            Ok(f) => {
                *self = f;
                Ok(())
            },
            Err(e) => Err(e),
        }
    }

    fn to_row(&self) -> (r: FileRow)
        ensures
            r@ == row_of_file(self@),
    {
        FileRow {
            id: self.id,
            name: self.name.clone().into_os_string(),
            is_generated: Some(self.is_generated),
            is_override: Some(self.is_override),
            checked_runid: self.checked_runid,
            changed_runid: self.changed_runid,
            failed_runid: self.failed_runid,
            stamp: match &self.stamp {
                Some(s) => Some(s.as_str().to_owned()),
                None => None,
            },
            csum: if self.has_checksum() {
                Some(self.csum.clone())
            } else {
                None
            },
        }
    }

    /// Write the file to the database.
    pub fn save(&self, ptx: &mut ProcessTransaction)
        ensures
            final(ptx).wrote(old(ptx), WriteView::UpdateFile(row_of_file(self@))),
    {
        ptx.write(Write::UpdateFile(self.to_row()));
    }

    /// Notes that the file has been looked at in this run.
    pub fn set_checked(&mut self, v: &Env)
        ensures
            final(self)@ == (FileView { checked_runid: v.runid, ..old(self)@ }),
    {
        self.checked_runid = v.runid;
    }

    /// Notes that the file has been looked at in this run, and writes it to the database.
    pub fn set_checked_save(&mut self, ptx: &mut ProcessTransaction)
        ensures
            final(self)@ == (FileView { checked_runid: old(ptx).settings().runid, ..old(self)@ }),
            final(ptx).wrote(old(ptx), WriteView::UpdateFile(row_of_file(final(self)@))),
    {
        self.checked_runid = ptx.state.env.runid;
        self.save(ptx);
    }

    /// Notes that the file has changed in this run.
    pub fn set_changed(&mut self, v: &Env)
        ensures
            final(self)@ == changed_in(old(self)@, v.runid),
    {
        self.changed_runid = v.runid;
        self.failed_runid = None;
        self.is_override = false;
    }

    /// Notes that the file failed to build in this run.
    pub fn set_failed(&mut self, v: &Env, seen: &Observed) -> (r: Result<(), RedoError>)
        ensures
            match failed_in(old(self)@, v.runid, stamp_of_seen(*seen)) {
                Ok(f) => r is Ok && final(self)@ == f,
                Err(e) => r matches Err(err) && err@ == e && final(self)@ == old(self)@,
            },
    {
        match self.update_stamp(v, false, seen) {
            Err(e) => return Err(e),
            Ok(_) => {},
        }
        self.failed_runid = v.runid;
        // if we failed and the target file still exists,
        // then we're generated.
        //
        // if the target file now does *not* exist, then go back to
        // treating this as a source file.  Since it doesn't exist,
        // if someone tries to rebuild it immediately, it'll go
        // back to being a target.  But if the file is manually
        // created before that, we don't need a "manual override"
        // warning.
        self.is_generated = match &self.stamp {
            Some(s) => !s.is_missing(),
            None => true,
        };
        Ok(())
    }

    /// Notes that the file is a source, which has to exist.
    pub fn set_static(&mut self, v: &Env, seen: &Observed) -> (r: Result<(), RedoError>)
        ensures
            match made_static(old(self)@, v.runid, stamp_of_seen(*seen)) {
                Ok(f) => r is Ok && final(self)@ == f,
                Err(e) => r matches Err(err) && err@ == e && final(self)@ == old(self)@,
            },
    {
        match self.update_stamp(v, true, seen) {
            Err(e) => return Err(e),
            Ok(_) => {},
        }
        self.failed_runid = None;
        self.is_override = false;
        self.is_generated = false;
        Ok(())
    }

    /// Notes that someone has changed the file by hand after redo made it.
    pub fn set_override(&mut self, v: &Env, seen: &Observed) -> (r: Result<(), RedoError>)
        ensures
            match made_override(old(self)@, v.runid, stamp_of_seen(*seen)) {
                Ok(f) => r is Ok && final(self)@ == f,
                Err(e) => r matches Err(err) && err@ == e && final(self)@ == old(self)@,
            },
    {
        match self.update_stamp(v, false, seen) {
            Err(e) => return Err(e),
            Ok(_) => {},
        }
        self.failed_runid = None;
        self.is_override = true;
        Ok(())
    }

    /// Sets the file's stamp.
    pub fn set_stamp(&mut self, newstamp: Stamp)
        ensures
            final(self)@ == (FileView { stamp: Some(newstamp@), ..old(self)@ }),
    {
        self.stamp = Some(newstamp);
    }

    /// Brings the stamp up to date. A file with another stamp than before has changed.
    pub fn update_stamp(&mut self, v: &Env, must_exist: bool, seen: &Observed) -> (r: Result<(), RedoError>)
        ensures
            match restamped(old(self)@, v.runid, must_exist, stamp_of_seen(*seen)) {
                Ok(f) => r is Ok && final(self)@ == f,
                Err(e) => r matches Err(err) && err@ == e && final(self)@ == old(self)@,
            },
    {
        let newstamp = match self.read_stamp(seen) {
            Ok(s) => s,
            Err(e) => return Err(e),
        };
        if must_exist && newstamp.is_missing() {
            let mut msg = debug_str(self.name.as_redo_path().as_str().as_str());
            msg.append(" does not exist");
            return Err(RedoError::new(msg.as_str()));
        }
        let same = self.stamp_is(&newstamp);
        if !same {
            self.stamp = Some(newstamp);
            self.set_changed(v);
        }
        Ok(())
    }

    fn stamp_is(&self, other: &Stamp) -> (r: bool)
        ensures
            r == (self@.stamp == Some(other@)),
    {
        match &self.stamp {
            Some(s) => s.same(other),
            None => false,
        }
    }

    /// Reports if this object represents a source (not a target).
    pub fn is_source(&self, v: &Env, seen: &Observed) -> (r: Result<bool, RedoError>)
        ensures
            bool_result(r) == is_source_view(self@, v.runid, stamp_of_seen(*seen)),
    {
        if self.has_special_name() {
            // Special name, ignore.
            return Ok(false);
        }
        let newstamp = match self.read_stamp(seen) {
            Ok(s) => s,
            Err(e) => return Err(e),
        };
        if self.is_generated && (!self.is_failed(v) || !newstamp.is_missing()) && !self.is_override
            && self.stamp_is(&newstamp) {
            // Target is as we left it.
            return Ok(false);
        }
        if (!self.is_generated || !self.stamp_is(&newstamp)) && newstamp.is_missing() {
            // Target has gone missing after the last build.
            // It's not usefully a source *or* a target.
            return Ok(false);
        }
        Ok(true)
    }

    fn has_special_name(&self) -> (r: bool)
        ensures
            r == is_special(self@.name),
    {
        let b = self.name.as_redo_path().as_os_str();
        b.len() >= 2 && b[0] == 0x2f && b[1] == 0x2f
    }

    /// Reports if this object represents a target (not a source).
    pub fn is_target(&self, v: &Env, seen: &Observed) -> (r: Result<bool, RedoError>)
        ensures
            bool_result(r) == is_target_view(self@, v.runid, stamp_of_seen(*seen)),
    {
        if !self.is_generated {
            return Ok(false);
        }
        match self.is_source(v, seen) {
            Ok(b) => Ok(!b),
            Err(e) => Err(e),
        }
    }

    /// Reports whether the file was looked at in this run already.
    pub fn is_checked(&self, v: &Env) -> (r: bool)
        requires
            had_run(self@.checked_runid) ==> v.runid is Some,
        ensures
            r == since_known(self@.checked_runid, v.runid),
    {
        match self.checked_runid {
            Some(c) => c != 0 && c >= v.runid.unwrap(),
            None => false,
        }
    }

    /// Reports whether the file has changed in this run.
    pub fn is_changed(&self, v: &Env) -> (r: bool)
        requires
            had_run(self@.changed_runid) ==> v.runid is Some,
        ensures
            r == since_known(self@.changed_runid, v.runid),
    {
        match self.changed_runid {
            Some(c) => c != 0 && c >= v.runid.unwrap(),
            None => false,
        }
    }

    /// Reports whether the file already failed during this run.
    pub fn is_failed(&self, v: &Env) -> (r: bool)
        ensures
            r == has_failed(self@, v.runid),
    {
        match (self.failed_runid, v.runid) {
            (Some(f), Some(r)) => f != 0 && f >= r,
            _ => false,
        }
    }

    /// Return the list of objects that this object depends on.
    pub fn deps(&self, ptx: &ProcessTransaction) -> (r: Result<Vec<(DepMode, File)>, RedoError>)
        ensures
            (match r {
                Ok(v) => Ok(dep_views(v@)),
                Err(e) => Err(e@),
            }) == deps_of(self@, ptx.db(), ptx.settings().runid),
    {
        let mut out: Vec<(DepMode, File)> = Vec::new();
        if self.is_override || !self.is_generated {
            assert(dep_views(out@) =~= seq![]);
            return Ok(out);
        }
        let rows = &ptx.state.tables.deps;
        let runid = ptx.state.env.runid;
        let ghost files = ptx.db().files;
        let ghost goal = dep_rows(rows@, self.id);
        let ghost mut done: Seq<DepRow> = seq![];
        let mut i: usize = 0;
        assert(rows@.skip(0) =~= rows@);
        assert(done + dep_rows(rows@.skip(0), self.id) =~= goal);
        assert(dep_views(out@) =~= seq![]);
        while i < rows.len()
            invariant
                i <= rows.len(),
                self.is_generated && !self.is_override,
                rows@ == ptx.db().deps,
                runid == ptx.settings().runid,
                files == ptx.db().files,
                files == row_views(ptx.state.tables.files@),
                files == ptx.state.tables@.files,
                goal == dep_rows(rows@, self.id),
                done + dep_rows(rows@.skip(i as int), self.id) == goal,
                dep_files(files, done, runid) == Ok::<Seq<(DepMode, FileView)>, ErrorView>(dep_views(out@)),
            decreases rows.len() - i,
        {
            let d = rows[i];
            let ghost rest = rows@.skip(i as int);
            assert(rest[0] == d);
            assert(rest.skip(1) =~= rows@.skip(i + 1));
            if d.target == self.id {
                let ghost before = done;
                proof {
                    done = done.push(d);
                    assert(done.drop_last() =~= before);
                    assert(done + dep_rows(rows@.skip(i + 1), self.id) =~= goal);
                }
                match ptx.state.tables.by_id(d.source) {
                    None => {},
                    Some(row) => match File::from_cols_with_runid(row, runid, 3) {
                        Err(e) => {
                            proof {
                                assert(goal.take(done.len() as int) =~= done);
                                lemma_dep_files_fails(files, goal, runid, done.len() as int);
                            }
                            return Err(e);
                        },
                        Ok(f) => {
                            let ghost v = out@;
                            out.push((d.mode, f));
                            assert(dep_views(out@) =~= dep_views(v).push((d.mode, f@)));
                        },
                    },
                }
            }
            i = i + 1;
        }
        proof {
            assert(rows@.skip(i as int) =~= seq![]);
            assert(done =~= goal);
        }
        Ok(out)
    }

    /// Mark the list of dependencies of this object as deprecated.
    ///
    /// We do this when starting a new build of the current target.  We don't
    /// delete them right away, because if the build fails, we still want to
    /// know the old deps.
    pub fn zap_deps1(&self, ptx: &mut ProcessTransaction)
        ensures
            final(ptx).wrote(old(ptx), WriteView::MarkDeps(self@.id)),
    {
        ptx.write(Write::MarkDeps(self.id));
    }

    /// Delete any deps that were *not* referenced in the current run.
    ///
    /// Dependencies of a given target can change from one build to the next.
    /// We forget old dependencies only after a build completes successfully.
    pub fn zap_deps2(&self, ptx: &mut ProcessTransaction)
        ensures
            final(ptx).wrote(old(ptx), WriteView::DeleteMarkedDeps(self@.id)),
    {
        ptx.write(Write::DeleteMarkedDeps(self.id));
    }

    /// What the file's stamp is now, from what was seen of it.
    pub fn read_stamp(&self, seen: &Observed) -> (r: Result<Stamp, RedoError>)
        ensures
            stamp_result(r) == stamp_of_seen(*seen),
    {
        Stamp::read(seen)
    }

    /// Where the file is.
    pub fn path(&self, v: &Env) -> (r: Vec<u8>)
        ensures
            r@ == pushed(v.base@, self@.name),
    {
        join_path(v.base.as_slice(), self.name.as_redo_path().as_os_str())
    }

    /// The name of the file as seen from where redo was started, for messages.
    pub fn nice_name(&self, v: &Env, places: &Places) -> (r: Result<String, RedoError>)
        requires
            is_rooted(v.startdir@),
        ensures
            match relative_real(pushed(v.base@, self@.name), v.startdir@, *places) {
                Ok(p) => r matches Ok(s) && s@ == shown(p),
                Err(e) => r matches Err(err) && err@ == opaque(e),
            },
    {
        match relpath(self.path(v).as_slice(), v.startdir.as_slice(), places) {
            Ok(p) => Ok(show_bytes(p.as_slice())),
            Err(e) => Err(RedoError::opaque_error(e.as_str())),
        }
    }
}

proof fn lemma_dep_files_fails(files: Seq<FileRowView>, deps: Seq<DepRow>, runid: Option<i64>, k: int)
    requires
        0 <= k <= deps.len(),
        dep_files(files, deps.take(k), runid) is Err,
    ensures
        dep_files(files, deps, runid) == dep_files(files, deps.take(k), runid),
    decreases deps.len() - k,
{
    if k < deps.len() {
        assert(deps.take(k + 1).drop_last() =~= deps.take(k));
        lemma_dep_files_fails(files, deps, runid, k + 1);
    } else {
        assert(deps.take(k) =~= deps);
    }
}

/// The writes of a lookup.
pub open spec fn lookup_writes(w: Option<WriteView>) -> Seq<WriteView> {
    match w {
        Some(w) => seq![w],
        None => seq![],
    }
}

/// A dependency of one file on another.
pub open spec fn dep_row(target: i64, source: i64, mode: DepMode) -> DepRow {
    DepRow { target, source, mode, delete_me: false }
}

/// What adding a dependency by path gives and what it writes. A file cannot depend on itself:
/// then nothing but the lookup is done.
pub open spec fn added_dep(target: i64, db: Db, env: Env, mode: DepMode, dep: Seq<u8>, places: Places) -> (
    Result<bool, ErrorView>,
    Seq<WriteView>,
) {
    match db_name(dep, env.base@, places) {
        Err(e) => (Err(e), seq![]),
        Ok(n) => {
            let (res, w) = looked_up(db, n, env.runid, true);
            match res {
                Err(e) => (Err(e), lookup_writes(w)),
                Ok(src) => if src.id == target {
                    (Ok(false), lookup_writes(w))
                } else {
                    (Ok(true), lookup_writes(w).push(WriteView::PutDep(dep_row(target, src.id, mode))))
                },
            }
        },
    }
}

impl File {
    /// Add a dependency on a file that has been looked up, and write it to the database.
    pub fn add_dep_on(&self, ptx: &mut ProcessTransaction, mode: DepMode, src: &File)
        requires
            src@.id != self@.id,
        ensures
            final(ptx).wrote(old(ptx), WriteView::PutDep(dep_row(self@.id, src@.id, mode))),
    {
        ptx.write(Write::PutDep(DepRow { target: self.id, source: src.id, mode, delete_me: false }));
    }

    /// Add a dependency and write it to the database. Reports whether that was done: a file
    /// cannot depend on itself.
    pub fn add_dep(&self, ptx: &mut ProcessTransaction, mode: DepMode, dep: &[u8], places: &Places) -> (r: Result<
        bool,
        RedoError,
    >)
        requires
            is_rooted(old(ptx).settings().base@),
        ensures
            ({
                let (res, ws) = added_dep(self@.id, old(ptx).db(), old(ptx).settings(), mode, dep@, *places);
                &&& bool_result(r) == res
                &&& final(ptx).wrote_all(old(ptx), ws)
            }),
    {
        let ghost before = *ptx;
        proof {
            reveal_with_fuel(replay, 3);
        }
        let looked = File::from_name(ptx, dep, places, true);
        proof {
            assert(before.writes() + seq![] =~= before.writes());
            assert forall|w: WriteView| before.writes().push(w) =~= #[trigger] (before.writes() + seq![w]) by {}
            assert forall|w: WriteView| (#[trigger] seq![w]).drop_last() =~= seq![] by {}
        }
        let src = match looked {
            Err(e) => return Err(e),
            Ok(f) => f,
        };
        if src.id == self.id {
            return Ok(false);
        }
        let ghost mid = *ptx;
        self.add_dep_on(ptx, mode, &src);
        proof {
            let put = WriteView::PutDep(dep_row(self@.id, src@.id, mode));
            let n = db_name(dep@, before.settings().base@, *places)->Ok_0;
            let w = looked_up(before.db(), n, before.settings().runid, true).1;
            assert(lookup_writes(w).push(put).drop_last() =~= lookup_writes(w));
            assert(ptx.writes() =~= before.writes() + lookup_writes(w).push(put));
        }
        Ok(true)
    }
}

/// A file that was saved is read back as it was saved, as long as its name is not the one that is
/// always dirty; every other file is read as before.
pub proof fn law_save_reads_back(db: Db, f: FileView, runid: Option<i64>, other: i64)
    requires
        row_by_id(db.files, f.id) matches Some(row) && row.name == f.name,
        is_redo_path(f.name),
        f.name != always_name(),
        other != f.id,
    ensures
        found_by_id(apply(db, WriteView::UpdateFile(row_of_file(f))), f.id, runid) == Ok::<FileView, ErrorView>(f),
        found_by_id(apply(db, WriteView::UpdateFile(row_of_file(f))), other, runid) == found_by_id(db, other, runid),
{
    crate::db::lemma_updated_by_id(db.files, row_of_file(f), f.id);
    crate::db::lemma_updated_by_id(db.files, row_of_file(f), other);
    lemma_row_by_id(db.files, f.id);
    lemma_row_by_id(db.files, other);
    if f.csum.len() == 0 {
        assert(f.csum =~= seq![]);
    }
}

proof fn lemma_row_by_id(files: Seq<FileRowView>, id: i64)
    ensures
        row_by_id(files, id) matches Some(row) ==> row.id == id,
    decreases files.len(),
{
    if files.len() > 0 {
        lemma_row_by_id(files.skip(1), id);
    }
}

/// Looking up a name a second time gives the same file and writes nothing more.
pub proof fn law_lookup_once(db: Db, name: Seq<u8>, runid: Option<i64>, allow_add: bool)
    ensures
        looked_up(db, name, runid, true).1 matches Some(w) ==> looked_up(apply(db, w), name, runid, allow_add) == (
            looked_up(db, name, runid, true).0,
            None::<WriteView>,
        ),
{
    if looked_up(db, name, runid, true).1 is Some {
        crate::db::lemma_pushed_by_name(db.files, fresh_row((max_id(db.files) + 1) as i64, name));
    }
}

/// Whether one file is noted to depend on another.
pub open spec fn depends_on(deps: Seq<DepRow>, target: i64, source: i64) -> bool {
    exists|i: int| 0 <= i < deps.len() && (#[trigger] deps[i]).target == target && deps[i].source == source
}

/// Whether a file is among dependencies.
pub open spec fn is_among(deps: Seq<(DepMode, FileView)>, id: i64) -> bool {
    exists|i: int| 0 <= i < deps.len() && (#[trigger] deps[i]).1.id == id
}

proof fn lemma_write_keeps_dep(db: Db, w: WriteView, target: i64, source: i64)
    requires
        w != WriteView::DeleteMarkedDeps(target),
    ensures
        depends_on(db.deps, target, source) ==> depends_on(apply(db, w).deps, target, source),
        row_by_id(db.files, source) is Some ==> row_by_id(apply(db, w).files, source) is Some,
{
    let after = apply(db, w);
    if depends_on(db.deps, target, source) {
        let i = choose|i: int|
            0 <= i < db.deps.len() && (#[trigger] db.deps[i]).target == target && db.deps[i].source == source;
        let d = db.deps[i];
        assert(db.deps.contains(d));
        match w {
            WriteView::MarkDeps(t) => {
                assert(after.deps[i] == marked_dep(d, t));
            },
            WriteView::DeleteMarkedDeps(t) => {
                crate::db::lemma_filter_contains(db.deps, |x: DepRow| !(x.target == t && x.delete_me), d);
                let j = choose|j: int| 0 <= j < after.deps.len() && after.deps[j] == d;
                assert(after.deps[j].target == target);
            },
            WriteView::PutDep(dep) => {
                let keep = |x: DepRow| !(x.target == dep.target && x.source == dep.source);
                if keep(d) {
                    crate::db::lemma_filter_contains(db.deps, keep, d);
                    crate::db::lemma_push_contains(db.deps.filter(keep), dep, d);
                    let j = choose|j: int| 0 <= j < after.deps.len() && after.deps[j] == d;
                    assert(after.deps[j].target == target);
                } else {
                    assert(after.deps.last() == dep);
                    assert(after.deps[after.deps.len() - 1].target == target);
                }
            },
            _ => {
                assert(after.deps[i] == d);
            },
        }
    }
    match w {
        WriteView::InsertFile(name) => {
            crate::db::lemma_pushed_by_id(db.files, fresh_row((max_id(db.files) + 1) as i64, name), source);
        },
        WriteView::UpdateFile(row) => {
            crate::db::lemma_updated_by_id(db.files, row, source);
        },
        _ => {},
    }
}

/// Whatever is written, a dependency of a target is not forgotten as long as its marked dependencies are not deleted.
proof fn lemma_writes_keep_dep(db: Db, ws: Seq<WriteView>, target: i64, source: i64)
    requires
        forall|i: int| 0 <= i < ws.len() ==> #[trigger] ws[i] != WriteView::DeleteMarkedDeps(target),
    ensures
        depends_on(db.deps, target, source) ==> depends_on(replay(db, ws).deps, target, source),
        row_by_id(db.files, source) is Some ==> row_by_id(replay(db, ws).files, source) is Some,
    decreases ws.len(),
{
    if ws.len() > 0 {
        let init = ws.drop_last();
        assert forall|i: int| 0 <= i < init.len() implies #[trigger] init[i] != WriteView::DeleteMarkedDeps(target) by {
            assert(init[i] == ws[i]);
        }
        lemma_writes_keep_dep(db, init, target, source);
        lemma_write_keeps_dep(replay(db, init), ws.last(), target, source);
    }
}

/// The files that rows of dependencies name, as far as they are known.
proof fn lemma_dep_files(files: Seq<FileRowView>, deps: Seq<DepRow>, runid: Option<i64>, id: i64)
    ensures
        dep_files(files, deps, runid) matches Ok(fs) ==> (is_among(fs, id) <==> row_by_id(files, id) is Some && exists|i: int|
            0 <= i < deps.len() && (#[trigger] deps[i]).source == id),
    decreases deps.len(),
{
    if deps.len() > 0 {
        let init = deps.drop_last();
        let last = deps.last();
        lemma_dep_files(files, init, runid, id);
        lemma_row_by_id(files, last.source);
        match (dep_files(files, init, runid), dep_files(files, deps, runid)) {
            (Ok(before), Ok(after)) => {
                if is_among(before, id) {
                    let i = choose|i: int| 0 <= i < before.len() && (#[trigger] before[i]).1.id == id;
                    assert(after[i] == before[i]);
                }
                if is_among(after, id) && !is_among(before, id) {
                    let i = choose|i: int| 0 <= i < after.len() && (#[trigger] after[i]).1.id == id;
                    if i < before.len() {
                        assert(before[i] == after[i]);
                    }
                    assert(deps[deps.len() - 1].source == id);
                }
                if exists|i: int| 0 <= i < init.len() && (#[trigger] init[i]).source == id {
                    let i = choose|i: int| 0 <= i < init.len() && (#[trigger] init[i]).source == id;
                    assert(deps[i].source == id);
                }
                if row_by_id(files, id) is Some && last.source == id {
                    assert(after[after.len() - 1].1.id == id);
                }
                if exists|i: int| 0 <= i < deps.len() && (#[trigger] deps[i]).source == id {
                    let i = choose|i: int| 0 <= i < deps.len() && (#[trigger] deps[i]).source == id;
                    if i < init.len() {
                        assert(init[i].source == id);
                    }
                }
            },
            _ => {},
        }
    }
}

proof fn lemma_dep_rows(deps: Seq<DepRow>, target: i64, source: i64)
    ensures
        depends_on(deps, target, source) <==> exists|i: int|
            0 <= i < dep_rows(deps, target).len() && (#[trigger] dep_rows(deps, target)[i]).source == source,
    decreases deps.len(),
{
    if deps.len() > 0 {
        let rest = deps.skip(1);
        let rows = dep_rows(deps, target);
        let fewer = dep_rows(rest, target);
        lemma_dep_rows(rest, target, source);
        let off: int = if deps[0].target == target {
            1
        } else {
            0
        };
        assert forall|i: int| 0 <= i < fewer.len() implies rows[i + off] == #[trigger] fewer[i] by {}
        if depends_on(deps, target, source) {
            let i = choose|i: int|
                0 <= i < deps.len() && (#[trigger] deps[i]).target == target && deps[i].source == source;
            if i == 0 {
                assert(rows[0].source == source);
            } else {
                assert(rest[i - 1] == deps[i]);
                assert(depends_on(rest, target, source));
                let j = choose|j: int| 0 <= j < fewer.len() && (#[trigger] fewer[j]).source == source;
                assert(rows[j + off].source == source);
            }
        }
        if exists|i: int| 0 <= i < rows.len() && (#[trigger] rows[i]).source == source {
            let i = choose|i: int| 0 <= i < rows.len() && (#[trigger] rows[i]).source == source;
            if off == 1 && i == 0 {
                assert(deps[0].source == source);
            } else {
                assert(fewer[i - off].source == source);
                let j = choose|j: int|
                    0 <= j < rest.len() && (#[trigger] rest[j]).target == target && rest[j].source == source;
                assert(deps[j + 1] == rest[j]);
            }
        }
    }
}

/// As long as the marked dependencies of a target are not deleted, nothing that is written makes it forget one: whatever
/// it depended on before, it depends on still.
pub proof fn law_undeleted_deps_stay(
    f: FileView,
    g: FileView,
    db: Db,
    ws: Seq<WriteView>,
    runid: Option<i64>,
    later: Option<i64>,
    source: i64,
)
    requires
        f.id == g.id,
        forall|i: int| 0 <= i < ws.len() ==> #[trigger] ws[i] != WriteView::DeleteMarkedDeps(f.id),
    ensures
        depends_on(db.deps, f.id, source) ==> depends_on(replay(db, ws).deps, f.id, source),
        g.is_generated && !g.is_override ==> match (deps_of(f, db, runid), deps_of(g, replay(db, ws), later)) {
            (Ok(before), Ok(after)) => is_among(before, source) ==> is_among(after, source),
            _ => true,
        },
{
    let then = replay(db, ws);
    lemma_writes_keep_dep(db, ws, f.id, source);
    lemma_dep_rows(db.deps, f.id, source);
    lemma_dep_rows(then.deps, f.id, source);
    lemma_dep_files(db.files, dep_rows(db.deps, f.id), runid, source);
    lemma_dep_files(then.files, dep_rows(then.deps, f.id), later, source);
}

/// Marking the dependencies of a target, which is done when a build starts, leaves them as they are
/// to anyone who asks for them.
pub proof fn law_marking_forgets_nothing(f: FileView, db: Db, runid: Option<i64>, target: i64)
    ensures
        deps_of(f, apply(db, WriteView::MarkDeps(target)), runid) == deps_of(f, db, runid),
{
    lemma_marked_rows(db.deps, f.id, target);
    lemma_marked_files(db.files, dep_rows(db.deps, f.id), runid, target);
}

proof fn lemma_marked_rows(deps: Seq<DepRow>, id: i64, target: i64)
    ensures
        dep_rows(deps.map_values(|d: DepRow| marked_dep(d, target)), id) == dep_rows(deps, id).map_values(
            |d: DepRow| marked_dep(d, target),
        ),
    decreases deps.len(),
{
    let m = |d: DepRow| marked_dep(d, target);
    if deps.len() == 0 {
        assert(dep_rows(deps.map_values(m), id) =~= dep_rows(deps, id).map_values(m));
    } else {
        lemma_marked_rows(deps.skip(1), id, target);
        assert(deps.map_values(m).skip(1) =~= deps.skip(1).map_values(m));
        assert(dep_rows(deps.map_values(m), id) =~= dep_rows(deps, id).map_values(m));
    }
}

proof fn lemma_marked_files(files: Seq<FileRowView>, deps: Seq<DepRow>, runid: Option<i64>, target: i64)
    ensures
        dep_files(files, deps.map_values(|d: DepRow| marked_dep(d, target)), runid) == dep_files(files, deps, runid),
    decreases deps.len(),
{
    let m = |d: DepRow| marked_dep(d, target);
    if deps.len() > 0 {
        lemma_marked_files(files, deps.drop_last(), runid, target);
        assert(deps.map_values(m).drop_last() =~= deps.drop_last().map_values(m));
        assert(deps.map_values(m).last() == marked_dep(deps.last(), target));
    }
}

/// Given the ID of a `File`, return the filename of its build log.
pub fn logname(v: &Env, fid: i64) -> (r: Vec<u8>)
    ensures
        r@ == pushed(db_dir(v.base@), encode_utf8("log."@ + decimal_int(fid as int))),
{
    let dir = join_path(v.base.as_slice(), ".redo".as_bytes());
    let mut name = "log.".to_owned();
    name.append(dec_i64(fid).as_str());
    join_path(dir.as_slice(), name.as_str().as_bytes())
}

/// Whether one name comes before another or is the same, byte by byte.
pub open spec fn name_le(a: Seq<u8>, b: Seq<u8>) -> bool
    decreases a.len(),
{
    if a.len() == 0 {
        true
    } else if b.len() == 0 {
        false
    } else if a[0] != b[0] {
        a[0] < b[0]
    } else {
        name_le(a.skip(1), b.skip(1))
    }
}

proof fn lemma_name_le_total(a: Seq<u8>, b: Seq<u8>)
    ensures
        name_le(a, b) || name_le(b, a),
    decreases a.len(),
{
    if a.len() > 0 && b.len() > 0 && a[0] == b[0] {
        lemma_name_le_total(a.skip(1), b.skip(1));
    }
}

proof fn lemma_name_le_trans(a: Seq<u8>, b: Seq<u8>, c: Seq<u8>)
    requires
        name_le(a, b),
        name_le(b, c),
    ensures
        name_le(a, c),
    decreases a.len(),
{
    if a.len() > 0 && b.len() > 0 && c.len() > 0 && a[0] == b[0] && b[0] == c[0] {
        lemma_name_le_trans(a.skip(1), b.skip(1), c.skip(1));
    }
}

fn name_at_most(a: &[u8], b: &[u8]) -> (r: bool)
    ensures
        r == name_le(a@, b@),
{
    let mut i: usize = 0;
    assert(a@.skip(0) =~= a@);
    assert(b@.skip(0) =~= b@);
    while i < a.len() && i < b.len() && a[i] == b[i]
        invariant
            i <= a.len(),
            i <= b.len(),
            name_le(a@, b@) == name_le(a@.skip(i as int), b@.skip(i as int)),
        decreases a.len() - i,
    {
        assert(a@.skip(i as int).skip(1) =~= a@.skip(i + 1));
        assert(b@.skip(i as int).skip(1) =~= b@.skip(i + 1));
        i = i + 1;
    }
    if i == a.len() {
        true
    } else if i == b.len() {
        false
    } else {
        a[i] < b[i]
    }
}

/// Whether rows are ordered by name.
pub open spec fn ordered_by_name(rows: Seq<FileRowView>) -> bool {
    forall|i: int, j: int| 0 <= i < j < rows.len() ==> name_le((#[trigger] rows[i]).name, (#[trigger] rows[j]).name)
}

/// What reading rows one after the other gives, up to the first that cannot be read.
pub open spec fn read_all(rows: Seq<FileRowView>, runid: Option<i64>) -> Seq<Result<FileView, ErrorView>>
    decreases rows.len(),
{
    if rows.len() == 0 {
        seq![]
    } else {
        let first = read_row(rows[0], runid, 1);
        match first {
            Ok(f) => seq![first] + read_all(rows.skip(1), runid),
            Err(e) => seq![first],
        }
    }
}

/// Iterator over files.
pub struct Files {
    rows: Vec<FileRow>,
    at: usize,
    runid: Option<i64>,
}

impl Files {
    pub closed spec fn wf(&self) -> bool {
        self.at <= self.rows@.len()
    }

    /// All rows, in the order in which they are read.
    pub closed spec fn all(&self) -> Seq<FileRowView> {
        row_views(self.rows@)
    }

    /// What is still to come.
    pub closed spec fn remaining(&self) -> Seq<Result<FileView, ErrorView>> {
        read_all(row_views(self.rows@).skip(self.at as int), self.runid)
    }

    /// List all of the files known to redo, ordered by name.
    pub fn list(ptx: &ProcessTransaction) -> (r: Files)
        ensures
            r.wf(),
            ordered_by_name(r.all()),
            r.all().to_multiset() == ptx.db().files.to_multiset(),
            r.remaining() == read_all(r.all(), ptx.settings().runid),
    {
        let rows = &ptx.state.tables.files;
        let mut out: Vec<FileRow> = Vec::new();
        let mut i: usize = 0;
        assert(row_views(out@) =~= row_views(rows@).take(0));
        while i < rows.len()
            invariant
                i <= rows.len(),
                ordered_by_name(row_views(out@)),
                row_views(out@).to_multiset() == row_views(rows@).take(i as int).to_multiset(),
            decreases rows.len() - i,
        {
            let ghost before = row_views(out@);
            insert_by_name(&mut out, rows[i].clone());
            proof {
                let all = row_views(rows@);
                assert(all.take(i + 1) =~= all.take(i as int).push(all[i as int]));
                all.take(i as int).to_multiset_ensures();
            }
            i = i + 1;
        }
        assert(row_views(rows@).take(i as int) =~= row_views(rows@));
        let r = Files { rows: out, at: 0, runid: ptx.state.env.runid };
        assert(row_views(r.rows@).skip(0) =~= row_views(r.rows@));
        r
    }

    /// The next file. Once a file could not be read, there is no other.
    pub fn next(&mut self) -> (r: Option<Result<File, RedoError>>)
        requires
            old(self).wf(),
        ensures
            final(self).wf(),
            final(self).all() == old(self).all(),
            match r {
                None => old(self).remaining().len() == 0 && final(self).remaining().len() == 0,
                Some(f) => {
                    &&& old(self).remaining().len() > 0
                    &&& old(self).remaining()[0] == file_result(f)
                    &&& final(self).remaining() == old(self).remaining().skip(1)
                },
            },
    {
        if self.at >= self.rows.len() {
            return None;
        }
        let ghost all = row_views(self.rows@);
        let ghost rest = all.skip(self.at as int);
        assert(rest[0] == self.rows@[self.at as int]@);
        assert(rest.skip(1) =~= all.skip(self.at + 1));
        let f = File::from_cols_with_runid(&self.rows[self.at], self.runid, 1);
        let ghost before = self.remaining();
        if f.is_ok() {
            self.at = self.at + 1;
        } else {
            self.at = self.rows.len();
            assert(all.skip(self.at as int) =~= seq![]);
        }
        assert(before.skip(1) =~= self.remaining());
        Some(f)
    }
}

/// Puts a row where it belongs among rows that are ordered by name.
fn insert_by_name(rows: &mut Vec<FileRow>, row: FileRow)
    requires
        ordered_by_name(row_views(old(rows)@)),
    ensures
        ordered_by_name(row_views(final(rows)@)),
        row_views(final(rows)@).to_multiset() == row_views(old(rows)@).to_multiset().insert(row@),
{
    let ghost before = row_views(rows@);
    let mut k: usize = 0;
    while k < rows.len() && name_at_most(rows[k].name.as_slice(), row.name.as_slice())
        invariant
            k <= rows.len(),
            before == row_views(rows@),
            forall|i: int| 0 <= i < k ==> name_le((#[trigger] before[i]).name, row@.name),
        decreases rows.len() - k,
    {
        assert(before[k as int] == rows@[k as int]@);
        k = k + 1;
    }
    proof {
        if k < rows@.len() {
            assert(before[k as int] == rows@[k as int]@);
            lemma_name_le_total(before[k as int].name, row@.name);
            assert forall|j: int| k <= j < before.len() implies name_le(row@.name, (#[trigger] before[j]).name) by {
                if j > k {
                    lemma_name_le_trans(row@.name, before[k as int].name, before[j].name);
                }
            }
        }
    }
    rows.insert(k, row);
    proof {
        let after = row_views(rows@);
        assert(after =~= before.insert(k as int, row@));
        vstd::seq_lib::to_multiset_insert(before, k as int, row@);
        assert forall|i: int, j: int| 0 <= i < j < after.len() implies name_le(
            (#[trigger] after[i]).name,
            (#[trigger] after[j]).name,
        ) by {
            let bi: int = if i < k {
                i
            } else {
                i - 1
            };
            let bj: int = if j < k {
                j
            } else {
                j - 1
            };
            if i != k && j != k {
                assert(after[i] == before[bi]);
                assert(after[j] == before[bj]);
            } else if i == k {
                assert(after[j] == before[j - 1]);
            } else {
                assert(after[i] == before[i]);
            }
        }
    }
}

/// A run counts as the current one if it is that run or a later one, and an earlier one does not count; nothing counts where
/// no run was noted, and nothing is current where the current run is not known.
pub proof fn law_current_run(run: i64, current: i64)
    requires
        current > 0,
    ensures
        since_known(Some(run), Some(current)) <==> run >= current,
        !since_known(None, Some(current)),
        !since_known(Some(run), None),
        !since_known(Some(0), Some(run)),
        had_run(Some(current)) && !had_run(Some(0)) && !had_run(None),
{
}

/// When a file is stamped anew, it has changed in this run if its stamp is not the one that was noted before, and nothing
/// becomes of it if it is. The only file that cannot be stamped is one that must exist and does not.
pub proof fn law_new_stamp_means_change(f: FileView, runid: Option<i64>, must_exist: bool, s: Seq<char>)
    ensures
        restamped(f, runid, must_exist, Ok(s)) is Err <==> must_exist && s == "0"@,
        restamped(f, runid, must_exist, Ok(s)) matches Ok(g) ==> {
            &&& g.stamp == Some(s)
            &&& f.stamp == Some(s) ==> g == f
            &&& f.stamp != Some(s) ==> g.changed_runid == runid && g.failed_runid is None && !g.is_override
            &&& g.id == f.id && g.name == f.name && g.is_generated == f.is_generated && g.csum == f.csum
            &&& g.checked_runid == f.checked_runid
        },
{
}

/// A stamp that could not be read leaves a file without a new one, whatever it was to become.
pub proof fn law_unread_stamp_fails(f: FileView, runid: Option<i64>, must_exist: bool, e: ErrorView)
    ensures
        restamped(f, runid, must_exist, Err(e)) == Err::<FileView, ErrorView>(e),
        failed_in(f, runid, Err(e)) == Err::<FileView, ErrorView>(e),
        made_static(f, runid, Err(e)) == Err::<FileView, ErrorView>(e),
        made_override(f, runid, Err(e)) == Err::<FileView, ErrorView>(e),
{
}

/// A file that turns out to be a source is one that exists, that we did not generate, that nobody has overridden and that has
/// not failed. If it is not what it was when it was last stamped, it has changed in this run, so that what was built
/// from it earlier is out of date; if it is, it has not.
pub proof fn law_source_is_noted(f: FileView, runid: Option<i64>, s: Seq<char>)
    ensures
        made_static(f, runid, Ok(s)) is Ok <==> s != "0"@,
        made_static(f, runid, Ok(s)) matches Ok(g) ==> {
            &&& !g.is_generated && !g.is_override && g.failed_runid is None
            &&& g.stamp == Some(s)
            &&& f.stamp != Some(s) ==> g.changed_runid == runid
            &&& f.stamp == Some(s) ==> g.changed_runid == f.changed_runid
            &&& g.id == f.id && g.name == f.name && g.csum == f.csum && g.checked_runid == f.checked_runid
        },
{
}

/// A file whose build has failed has failed in this run. It counts as generated just if it exists. If it is not what it was when
/// it was last stamped, it has changed in this run.
pub proof fn law_failure_is_noted(f: FileView, runid: Option<i64>, s: Seq<char>)
    ensures
        failed_in(f, runid, Ok(s)) matches Ok(g) && {
            &&& g.failed_runid == runid
            &&& g.is_generated <==> s != "0"@
            &&& g.stamp == Some(s)
            &&& f.stamp != Some(s) ==> g.changed_runid == runid && !g.is_override
            &&& f.stamp == Some(s) ==> g.changed_runid == f.changed_runid && g.is_override == f.is_override
            &&& g.id == f.id && g.name == f.name && g.csum == f.csum && g.checked_runid == f.checked_runid
        },
{
}

/// A target that someone has modified is overridden, and has not failed. It stays generated if it was. If it is not what it was
/// when it was last stamped, it has changed in this run.
pub proof fn law_override_is_noted(f: FileView, runid: Option<i64>, s: Seq<char>)
    ensures
        made_override(f, runid, Ok(s)) matches Ok(g) && {
            &&& g.is_override
            &&& g.failed_runid is None
            &&& g.is_generated == f.is_generated
            &&& g.stamp == Some(s)
            &&& f.stamp != Some(s) ==> g.changed_runid == runid
            &&& f.stamp == Some(s) ==> g.changed_runid == f.changed_runid
            &&& g.id == f.id && g.name == f.name && g.csum == f.csum && g.checked_runid == f.checked_runid
        },
{
}

/// A file that has changed has changed in this run, has not failed and is not overridden. All else stays as it is.
pub proof fn law_change_is_noted(f: FileView, runid: Option<i64>)
    ensures
        ({
            let g = changed_in(f, runid);
            &&& g.changed_runid == runid
            &&& g.failed_runid is None
            &&& !g.is_override
            &&& g.id == f.id && g.name == f.name && g.csum == f.csum && g.checked_runid == f.checked_runid
            &&& g.stamp == f.stamp && g.is_generated == f.is_generated
        }),
{
}

/// What is a source and what is a target. Something that exists is one or the other, never both: a target if we generated it,
/// nobody has overridden it and it is still what it was when it was stamped, and a source otherwise. Something that does not
/// exist is a source under no circumstances but one: that it was generated as nothing, and then failed or was overridden.
pub proof fn law_source_or_target(f: FileView, runid: Option<i64>, s: Seq<char>, current: i64)
    requires
        !(f.name.len() >= 2 && f.name[0] == SEP && f.name[1] == SEP),
        runid == Some(current),
        current > 0,
    ensures
        ({
            let source = is_source_view(f, runid, Ok(s));
            let target = is_target_view(f, runid, Ok(s));
            let as_built = f.is_generated && !f.is_override && f.stamp == Some(s);
            let failed_now = f.failed_runid matches Some(r) && r >= current;
            &&& source is Ok && target is Ok
            &&& s != "0"@ ==> (source->Ok_0 <==> !as_built)
            &&& s != "0"@ ==> (target->Ok_0 <==> as_built)
            &&& s == "0"@ ==> (source->Ok_0 <==> f.is_generated && f.stamp == Some(s) && (f.is_override || failed_now))
            &&& target->Ok_0 <==> f.is_generated && !source->Ok_0
        }),
{
}

/// What has a name of redo's own is no source. What was not generated is no target. What cannot be looked at is an error for
/// all others.
pub proof fn law_special_is_no_source(f: FileView, runid: Option<i64>, stamp: Result<Seq<char>, ErrorView>)
    ensures
        f.name.len() >= 2 && f.name[0] == SEP && f.name[1] == SEP ==> is_source_view(f, runid, stamp) == Ok::<
            bool,
            ErrorView,
        >(false),
        !f.is_generated ==> is_target_view(f, runid, stamp) == Ok::<bool, ErrorView>(false),
        !(f.name.len() >= 2 && f.name[0] == SEP && f.name[1] == SEP) && stamp is Err ==> is_source_view(f, runid, stamp)
            == Err::<bool, ErrorView>(stamp->Err_0),
{
}

/// A row keeps all that is known about a file, each value in its own column, and a file is read from a row in the same way. Of a
/// checksum, none at all and an empty one are the same.
pub proof fn law_row_keeps_file(f: FileView, row: FileRowView, runid: Option<i64>)
    ensures
        ({
            let kept = row_of_file(f);
            &&& kept.id == f.id
            &&& kept.name == f.name
            &&& kept.is_generated == Some(f.is_generated)
            &&& kept.is_override == Some(f.is_override)
            &&& kept.checked_runid == f.checked_runid
            &&& kept.changed_runid == f.changed_runid
            &&& kept.failed_runid == f.failed_runid
            &&& kept.stamp == f.stamp
            &&& f.csum.len() > 0 ==> kept.csum == Some(f.csum)
            &&& f.csum.len() == 0 ==> kept.csum is None
        }),
        is_redo_path(row.name) <==> read_row(row, runid, 1) is Ok,
        read_row(row, runid, 1) matches Ok(g) ==> {
            &&& g.id == row.id
            &&& g.name == row.name
            &&& g.is_generated <==> row.is_generated == Some(true)
            &&& g.is_override <==> row.is_override == Some(true)
            &&& g.checked_runid == row.checked_runid
            &&& g.failed_runid == row.failed_runid
            &&& g.stamp == row.stamp
            &&& row.csum matches Some(c) ==> g.csum == c
            &&& row.csum is None ==> g.csum.len() == 0
            &&& row.name != "//ALWAYS".spec_bytes() ==> g.changed_runid == row.changed_runid
            &&& row.name == "//ALWAYS".spec_bytes() && runid is Some ==> (g.changed_runid matches Some(c) && c >= runid.unwrap())
        },
{
}

/// Looking up a name that the database knows gives the file of that name and writes nothing. Looking up any other is an error,
/// unless it may be added: then it is written, and is a new file with an id of its own, of which nothing is known.
pub proof fn law_lookup_by_name(db: Db, name: Seq<u8>, runid: Option<i64>, allow_add: bool, k: int)
    requires
        is_redo_path(name),
        max_id(db.files) < i64::MAX,
    ensures
        ({
            let (found, w) = looked_up(db, name, runid, allow_add);
            &&& 0 <= k < db.files.len() && db.files[k].name == name && (forall|i: int|
                0 <= i < k ==> (#[trigger] db.files[i]).name != name) ==> {
                &&& w is None
                &&& found matches Ok(f) && f.id == db.files[k].id && f.name == name && f.stamp == db.files[k].stamp
            }
            &&& (forall|i: int| 0 <= i < db.files.len() ==> (#[trigger] db.files[i]).name != name) ==> {
                &&& allow_add ==> {
                    &&& w == Some(WriteView::InsertFile(name))
                    &&& found matches Ok(f) && f.name == name && !f.is_generated && f.stamp is None && f.csum.len() == 0
                        && forall|i: int| 0 <= i < db.files.len() ==> (#[trigger] db.files[i]).id != f.id
                }
                &&& !allow_add ==> w is None && (found matches Err(e) && e.kind is FileNotFound)
            }
        }),
{
    crate::db::law_found_by_name(db.files, k, name);
    if db.files.len() > 0 {
        assert forall|i: int| 0 <= i < db.files.len() implies (#[trigger] db.files[i]).id <= max_id(db.files) by {
            crate::db::law_largest_id(db.files, i);
        }
    }
}

/// Adding a dependency by its path finds or makes the file of that path, and notes that the target depends on it in the given
/// way, from then on for good. No other dependency changes but one between the same two files, and no file that was known does.
pub proof fn law_dependency_is_added(
    target: i64,
    db: Db,
    env: Env,
    mode: DepMode,
    dep: Seq<u8>,
    places: Places,
    name: Seq<u8>,
)
    requires
        db_name(dep, env.base@, places) == Ok::<Seq<u8>, ErrorView>(name),
        is_redo_path(name),
        max_id(db.files) < i64::MAX,
        exists|i: int| 0 <= i < db.files.len() && (#[trigger] db.files[i]).id == target,
    ensures
        ({
            let (res, ws) = added_dep(target, db, env, mode, dep, places);
            let after = replay(db, ws);
            &&& res is Ok
            &&& db.files.len() <= after.files.len() <= db.files.len() + 1
            &&& forall|i: int| 0 <= i < db.files.len() ==> #[trigger] after.files[i] == db.files[i]
            &&& forall|i: int| db.files.len() <= i < after.files.len() ==> (#[trigger] after.files[i]).id > max_id(db.files)
            &&& max_id(after.files) <= max_id(db.files) + 1
            &&& res == Ok::<bool, ErrorView>(false) ==> after.deps == db.deps && has_name(db.files, target, name)
            &&& res == Ok::<bool, ErrorView>(true) ==> exists|source: i64|
                {
                    &&& #[trigger] has_name(after.files, source, name)
                    &&& source != target
                    &&& after.deps.contains(DepRow { target, source, mode, delete_me: false })
                    &&& forall|d: DepRow|
                        !(d.target == target && d.source == source) ==> (#[trigger] after.deps.contains(d) <==> db.deps.contains(
                            d,
                        ))
                }
        }),
{
    let (res, ws) = added_dep(target, db, env, mode, dep, places);
    let (found, w) = looked_up(db, name, env.runid, true);
    lemma_row_by_name(db.files, name);
    let t = choose|i: int| 0 <= i < db.files.len() && (#[trigger] db.files[i]).id == target;
    crate::db::law_largest_id(db.files, t);
    let mid = replay(db, lookup_writes(w));
    crate::db::law_writes_in_turn(db, seq![], WriteView::InsertFile(name));
    assert(Seq::<WriteView>::empty().push(WriteView::InsertFile(name)) =~= seq![WriteView::InsertFile(name)]);
    if w is Some {
        let row = fresh_row((max_id(db.files) + 1) as i64, name);
        assert(mid.files == db.files.push(row));
        assert(mid.files.drop_last() =~= db.files);
        assert(mid.files[db.files.len() as int] == row);
        assert(has_name(mid.files, row.id, name));
    } else {
        let row = row_by_name(db.files, name).unwrap();
        assert(has_name(db.files, row.id, name));
    }
    assert(found is Ok);
    let source = found->Ok_0.id;
    assert(has_name(mid.files, source, name));
    if source != target {
        let put = dep_row(target, source, mode);
        crate::db::law_writes_in_turn(db, lookup_writes(w), WriteView::PutDep(put));
        let after = replay(db, ws);
        assert(after == apply(mid, WriteView::PutDep(put)));
        crate::db::law_put_replaces(mid, put, put);
        assert forall|d: DepRow| !(d.target == target && d.source == source) implies (#[trigger] after.deps.contains(d)
            <==> db.deps.contains(d)) by {
            crate::db::law_put_replaces(mid, put, d);
        }
        assert(has_name(after.files, source, name));
    }
}

/// Whether the file with the given id has the given name.
pub open spec fn has_name(files: Seq<FileRowView>, id: i64, name: Seq<u8>) -> bool {
    exists|i: int| 0 <= i < files.len() && (#[trigger] files[i]).id == id && files[i].name == name
}

proof fn lemma_row_by_name(files: Seq<FileRowView>, name: Seq<u8>)
    ensures
        row_by_name(files, name) matches Some(row) ==> row.name == name && exists|i: int|
            0 <= i < files.len() && #[trigger] files[i] == row,
        row_by_name(files, name) is None ==> forall|i: int| 0 <= i < files.len() ==> (#[trigger] files[i]).name != name,
    decreases files.len(),
{
    if files.len() > 0 {
        let rest = files.skip(1);
        lemma_row_by_name(rest, name);
        match row_by_name(files, name) {
            Some(row) => {
                if files[0].name != name {
                    let i = choose|i: int| 0 <= i < rest.len() && #[trigger] rest[i] == row;
                    assert(files[i + 1] == row);
                } else {
                    assert(files[0] == row);
                }
            },
            None => {
                assert forall|i: int| 0 <= i < files.len() implies (#[trigger] files[i]).name != name by {
                    if i > 0 {
                        assert(rest[i - 1] == files[i]);
                    }
                }
            },
        }
    }
}

/// The dependencies of a target are just those that are noted in the table, each with its mode and with what is known of the
/// file it leads to, as long as files have ids of their own.
pub proof fn law_deps_are_those_noted(f: FileView, db: Db, runid: Option<i64>, ds: Seq<(DepMode, FileView)>, d: int, k: int)
    requires
        deps_of(f, db, runid) == Ok::<Seq<(DepMode, FileView)>, ErrorView>(ds),
        forall|i: int, j: int| 0 <= i < j < db.files.len() ==> (#[trigger] db.files[i]).id != (#[trigger] db.files[j]).id,
        0 <= d < db.deps.len(),
        0 <= k < db.files.len(),
        db.deps[d].target == f.id,
        db.deps[d].source == db.files[k].id,
        f.is_generated,
        !f.is_override,
    ensures
        exists|j: int|
            0 <= j < ds.len() && (#[trigger] ds[j]).0 == db.deps[d].mode && Ok::<FileView, ErrorView>(ds[j].1) == read_row(
                db.files[k],
                runid,
                1,
            ),
{
    let rows = dep_rows(db.deps, f.id);
    let i = lemma_dep_row_at(db.deps, f.id, d);
    crate::db::law_found_by_id(db.files, k, db.files[k].id);
    let j = lemma_dep_file_at(db.files, rows, runid, i, ds);
    assert(ds[j].0 == db.deps[d].mode);
}

/// A file that was not generated, or that someone has overridden, depends on nothing.
pub proof fn law_sources_have_no_deps(f: FileView, db: Db, runid: Option<i64>)
    requires
        !f.is_generated || f.is_override,
    ensures
        deps_of(f, db, runid) == Ok::<Seq<(DepMode, FileView)>, ErrorView>(seq![]),
{
}

/// What a target depends on is noted in the table.
pub proof fn law_deps_are_noted(f: FileView, db: Db, runid: Option<i64>, ds: Seq<(DepMode, FileView)>, j: int)
    requires
        deps_of(f, db, runid) == Ok::<Seq<(DepMode, FileView)>, ErrorView>(ds),
        0 <= j < ds.len(),
    ensures
        exists|d: int|
            0 <= d < db.deps.len() && (#[trigger] db.deps[d]).target == f.id && db.deps[d].source == ds[j].1.id
                && db.deps[d].mode == ds[j].0,
{
    let rows = dep_rows(db.deps, f.id);
    lemma_dep_files_from_rows(db.files, rows, runid, ds, j);
    let i = choose|i: int| 0 <= i < rows.len() && (#[trigger] rows[i]).source == ds[j].1.id && rows[i].mode == ds[j].0;
    lemma_dep_rows_from_table(db.deps, f.id, i);
}

proof fn lemma_dep_row_at(deps: Seq<DepRow>, target: i64, d: int) -> (i: int)
    requires
        0 <= d < deps.len(),
        deps[d].target == target,
    ensures
        0 <= i < dep_rows(deps, target).len(),
        dep_rows(deps, target)[i] == deps[d],
    decreases deps.len(),
{
    if d == 0 {
        0
    } else {
        assert(deps.skip(1)[d - 1] == deps[d]);
        let i = lemma_dep_row_at(deps.skip(1), target, d - 1);
        if deps[0].target == target {
            i + 1
        } else {
            i
        }
    }
}

proof fn lemma_dep_rows_from_table(deps: Seq<DepRow>, target: i64, i: int)
    requires
        0 <= i < dep_rows(deps, target).len(),
    ensures
        dep_rows(deps, target)[i].target == target,
        exists|d: int| 0 <= d < deps.len() && #[trigger] deps[d] == dep_rows(deps, target)[i],
    decreases deps.len(),
{
    if deps.len() > 0 {
        let rest = deps.skip(1);
        let off: int = if deps[0].target == target {
            1
        } else {
            0
        };
        if i == 0 && off == 1 {
            assert(deps[0] == dep_rows(deps, target)[i]);
        } else {
            lemma_dep_rows_from_table(rest, target, i - off);
            let d = choose|d: int| 0 <= d < rest.len() && #[trigger] rest[d] == dep_rows(rest, target)[i - off];
            assert(deps[d + 1] == rest[d]);
            assert(dep_rows(deps, target)[i] == dep_rows(rest, target)[i - off]);
        }
    }
}

proof fn lemma_dep_file_at(
    files: Seq<FileRowView>,
    rows: Seq<DepRow>,
    runid: Option<i64>,
    i: int,
    ds: Seq<(DepMode, FileView)>,
) -> (j: int)
    requires
        dep_files(files, rows, runid) == Ok::<Seq<(DepMode, FileView)>, ErrorView>(ds),
        0 <= i < rows.len(),
        row_by_id(files, rows[i].source) is Some,
    ensures
        0 <= j < ds.len(),
        ds[j].0 == rows[i].mode,
        Ok::<FileView, ErrorView>(ds[j].1) == read_row(row_by_id(files, rows[i].source).unwrap(), runid, 1),
    decreases rows.len(),
{
    let init = rows.drop_last();
    let before = dep_files(files, init, runid)->Ok_0;
    if i == rows.len() - 1 {
        ds.len() - 1
    } else {
        assert(init[i] == rows[i]);
        let j = lemma_dep_file_at(files, init, runid, i, before);
        assert(ds[j] == before[j]);
        j
    }
}

proof fn lemma_dep_files_from_rows(
    files: Seq<FileRowView>,
    rows: Seq<DepRow>,
    runid: Option<i64>,
    ds: Seq<(DepMode, FileView)>,
    j: int,
)
    requires
        dep_files(files, rows, runid) == Ok::<Seq<(DepMode, FileView)>, ErrorView>(ds),
        0 <= j < ds.len(),
    ensures
        exists|i: int| 0 <= i < rows.len() && (#[trigger] rows[i]).source == ds[j].1.id && rows[i].mode == ds[j].0,
    decreases rows.len(),
{
    if rows.len() > 0 {
        let init = rows.drop_last();
        let before = dep_files(files, init, runid)->Ok_0;
        lemma_row_by_id(files, rows.last().source);
        if j < before.len() {
            lemma_dep_files_from_rows(files, init, runid, before, j);
            let i = choose|i: int|
                0 <= i < init.len() && (#[trigger] init[i]).source == before[j].1.id && init[i].mode == before[j].0;
            assert(rows[i] == init[i]);
            assert(ds[j] == before[j]);
        } else {
            assert(rows[rows.len() - 1] == rows.last());
        }
    }
}

/// A new run has a number of its own: the one after the last that the database knows of. A process that belongs to a run
/// already stays in it.
pub proof fn law_runs_are_numbered(e: Env, last: i64)
    requires
        last < i64::MAX,
    ensures
        e.runid is None ==> (settings_of_run(e, last).runid matches Some(r) && r == last + 1),
        e.runid is Some ==> settings_of_run(e, last) == e,
{
}

/// A new database knows one file, the one that is always dirty, and no dependencies. One that exists is taken as it is, if its layout is of
/// the version that is known here, and refused if not.
pub proof fn law_databases_are_opened(version: Option<i32>, last_runid: i64, tables: Tables)
    ensures
        opened_ok(Opened::Fresh),
        opened_db(Opened::Fresh).files.len() == 1,
        opened_db(Opened::Fresh).files[0].name == "//ALWAYS".spec_bytes(),
        opened_db(Opened::Fresh).files[0].id == 1,
        opened_db(Opened::Fresh).files[0].changed_runid is None,
        opened_db(Opened::Fresh).deps.len() == 0,
        opened_runid(Opened::Fresh) == 1000000000,
        opened_ok(Opened::Existing { version, last_runid, tables }) <==> version == Some(2i32),
        opened_db(Opened::Existing { version, last_runid, tables }) == tables@,
        opened_runid(Opened::Existing { version, last_runid, tables }) == last_runid,
{
}

/// The database is kept in `.redo` in the base directory.
pub proof fn law_where_the_database_is(base: Seq<u8>)
    ensures
        base.len() > 0 && base.last() != SEP ==> db_dir(base) == base + "/.redo".spec_bytes(),
        base.len() > 0 && base.last() == SEP ==> db_dir(base) == base + ".redo".spec_bytes(),
{
    reveal_strlit("/.redo");
    reveal_strlit(".redo");
    assert(is_ascii("/.redo"));
    assert(is_ascii(".redo"));
    is_ascii_spec_bytes("/.redo");
    is_ascii_spec_bytes(".redo");
    let a = "/.redo".spec_bytes();
    let b = ".redo".spec_bytes();
    assert(a =~= seq![SEP] + b);
    assert(base.push(SEP) + b =~= base + a);
}

/// A file has failed in this run just if it failed in it or later.
pub proof fn law_failed_in_this_run(f: FileView, current: i64)
    ensures
        has_failed(f, Some(current)) <==> f.failed_runid is Some && f.failed_runid->0 != 0 && f.failed_runid->0 >= current,
        !has_failed(f, None),
{
}

/// Files are listed one by one as their rows say, up to the first whose name cannot be used.
pub proof fn law_all_files_are_read(rows: Seq<FileRowView>, runid: Option<i64>, n: int)
    requires
        0 <= n <= rows.len(),
        forall|i: int| 0 <= i < n ==> is_redo_path((#[trigger] rows[i]).name),
        n < rows.len() ==> !is_redo_path(rows[n].name),
    ensures
        n == rows.len() ==> read_all(rows, runid).len() == n,
        n < rows.len() ==> read_all(rows, runid).len() == n + 1 && read_all(rows, runid)[n] is Err,
        forall|i: int|
            0 <= i < n ==> (#[trigger] read_all(rows, runid)[i] matches Ok(f) && f.id == rows[i].id && f.name == rows[i].name),
    decreases rows.len(),
{
    if rows.len() > 0 {
        let rest = rows.skip(1);
        let all = read_all(rows, runid);
        if n > 0 {
            assert(is_redo_path(rows[0].name));
            assert forall|i: int| 0 <= i < n - 1 implies is_redo_path((#[trigger] rest[i]).name) by {
                assert(rest[i] == rows[i + 1]);
            }
            if n < rows.len() {
                assert(rest[n - 1] == rows[n]);
            }
            law_all_files_are_read(rest, runid, n - 1);
            let tail = read_all(rest, runid);
            assert forall|i: int| 0 <= i < n implies (#[trigger] all[i] matches Ok(f) && f.id == rows[i].id && f.name
                == rows[i].name) by {
                if i > 0 {
                    assert(all[i] == tail[i - 1]);
                    assert(rest[i - 1] == rows[i]);
                }
            }
            if n < rows.len() {
                assert(all[n] == tail[n - 1]);
            }
        }
    }
}

/// Names are ordered by the first byte in which they differ; a name comes before every longer one that begins with it.
pub proof fn law_order_of_names(a: Seq<u8>, b: Seq<u8>, k: int)
    requires
        0 <= k <= a.len(),
        k <= b.len(),
        a.take(k) == b.take(k),
    ensures
        k == a.len() ==> name_le(a, b),
        k == b.len() && k < a.len() ==> !name_le(a, b),
        k < a.len() && k < b.len() && a[k] != b[k] ==> (name_le(a, b) <==> a[k] < b[k]),
    decreases k,
{
    if k > 0 {
        assert(a.take(k)[0] == a[0] && b.take(k)[0] == b[0]);
        assert(a.skip(1).take(k - 1) =~= a.take(k).skip(1));
        assert(b.skip(1).take(k - 1) =~= b.take(k).skip(1));
        law_order_of_names(a.skip(1), b.skip(1), k - 1);
    }
}

/// The name that is always dirty is that of no file, wherever the base directory is.
pub proof fn law_always_is_no_file(base: Seq<u8>, places: Places)
    ensures
        db_name("//ALWAYS".spec_bytes(), base, places) == Ok::<Seq<u8>, ErrorView>("//ALWAYS".spec_bytes()),
{
}

/// A row is read as it stands. What was not noted is taken as not so, and no checksum as an empty one. A name that cannot be used is an
/// error.
pub proof fn law_rows_are_read(row: FileRowView, runid: Option<i64>, column: nat)
    ensures
        read_row(row, runid, column) is Ok <==> is_redo_path(row.name),
        read_row(row, runid, column) matches Ok(f) ==> {
            &&& f.id == row.id && f.name == row.name && f.stamp == row.stamp
            &&& f.is_generated <==> row.is_generated == Some(true)
            &&& f.is_override <==> row.is_override == Some(true)
            &&& f.checked_runid == row.checked_runid && f.failed_runid == row.failed_runid
            &&& row.name != "//ALWAYS".spec_bytes() || runid is None ==> f.changed_runid == row.changed_runid
            &&& row.name == "//ALWAYS".spec_bytes() && runid is Some ==> f.changed_runid is Some && f.changed_runid->0
                >= runid->0 && (row.changed_runid is Some ==> f.changed_runid->0 >= row.changed_runid->0) && (f.changed_runid
                == runid || f.changed_runid == row.changed_runid)
            &&& row.csum is None ==> f.csum.len() == 0
            &&& row.csum is Some ==> f.csum == row.csum->0
        },
{
}

} // verus!
