//! What the commands decide, apart from the files and processes that they deal with.

use sha1::{Digest, Sha1};
use vstd::prelude::*;
use vstd::string::*;
use vstd::utf8::*;
use crate::builder::{change_views, EnvChange, EnvChangeView};
use crate::db::{apply, lemma_replay_concat, replay, Db, DepMode, DepRow, WriteView};
use crate::deps::{
    check, closed_under_deps, file_views, is_dirty, look_up, sighted, sighting, walk_of, walked, DirtView,
    Dirtiness, DirtyCallbacks, Outcome, Sightings, Surroundings,
};
use crate::env::{get_os_copy, lookup, var_views, Env, OptionalBool, Var};
use crate::error::{debug_str, generic, quoted, ErrorView, KindView, RedoError, RedoErrorKind};
use crate::exits::{EXIT_CYCLIC_DEPENDENCY, EXIT_FAILED_IN_ANOTHER_THREAD, EXIT_FAILURE, EXIT_INVALID_TARGET};
use crate::pathname::is_rooted;
use crate::redopath::{show_bytes, shown};
use crate::relpath::Places;
use crate::stamp::{stamp_of_seen, Observed, Stamp};
use crate::state::{
    added_dep, always_name, bool_result, changed_in, has_failed, is_target_view, looked_up, lookup_writes,
    read_all, row_of_file, File, FileView, Files, ProcessTransaction,
};
use crate::text::{
    copy_bytes, dec_i64, dec_u64, decimal, decimal_int, parse_i32, parsed_within, str_eq, to_chars,
};

verus! {

/// The programs that share one executable.
#[derive(Clone, Copy, Debug, Eq, PartialEq, Structural)]
pub enum Tool {
    Redo,
    Always,
    IfChange,
    IfCreate,
    Log,
    Ood,
    Sources,
    Stamp,
    Targets,
    Unlocked,
    WhichDo,
}

/// The program that an executable of the given name is.
pub open spec fn tool_named(name: Seq<char>) -> Tool {
    if name == "redo-always"@ {
        Tool::Always
    } else if name == "redo-ifchange"@ {
        Tool::IfChange
    } else if name == "redo-ifcreate"@ {
        Tool::IfCreate
    } else if name == "redo-log"@ {
        Tool::Log
    } else if name == "redo-ood"@ {
        Tool::Ood
    } else if name == "redo-sources"@ {
        Tool::Sources
    } else if name == "redo-stamp"@ {
        Tool::Stamp
    } else if name == "redo-targets"@ {
        Tool::Targets
    } else if name == "redo-unlocked"@ {
        Tool::Unlocked
    } else if name == "redo-whichdo"@ {
        Tool::WhichDo
    } else {
        Tool::Redo
    }
}

/// The program that an executable of the given name is.
pub fn tool_for(name: &str) -> (r: Tool)
    ensures
        r == tool_named(name@),
{
    if str_eq(name, "redo-always") {
        Tool::Always
    } else if str_eq(name, "redo-ifchange") {
        Tool::IfChange
    } else if str_eq(name, "redo-ifcreate") {
        Tool::IfCreate
    } else if str_eq(name, "redo-log") {
        Tool::Log
    } else if str_eq(name, "redo-ood") {
        Tool::Ood
    } else if str_eq(name, "redo-sources") {
        Tool::Sources
    } else if str_eq(name, "redo-stamp") {
        Tool::Stamp
    } else if str_eq(name, "redo-targets") {
        Tool::Targets
    } else if str_eq(name, "redo-unlocked") {
        Tool::Unlocked
    } else if str_eq(name, "redo-whichdo") {
        Tool::WhichDo
    } else {
        Tool::Redo
    }
}

/// The exit code for a kind of error.
pub open spec fn code_of_kind(kind: KindView) -> i32 {
    match kind {
        KindView::FailedInAnotherThread { target } => EXIT_FAILED_IN_ANOTHER_THREAD,
        KindView::InvalidTarget(_) => EXIT_INVALID_TARGET,
        KindView::CyclicDependency => EXIT_CYCLIC_DEPENDENCY,
        KindView::ImmediateExit(code) => code,
        _ => EXIT_FAILURE,
    }
}

/// The exit code of a program that ends with an error.
pub fn exit_code(e: &RedoError) -> (r: i32)
    ensures
        r == code_of_kind(e@.first_kind()),
{
    match RedoErrorKind::of(e) {
        RedoErrorKind::FailedInAnotherThread { .. } => EXIT_FAILED_IN_ANOTHER_THREAD,
        RedoErrorKind::InvalidTarget(_) => EXIT_INVALID_TARGET,
        RedoErrorKind::CyclicDependency => EXIT_CYCLIC_DEPENDENCY,
        RedoErrorKind::ImmediateExit(code) => *code,
        _ => EXIT_FAILURE,
    }
}

/// A setting that one flag switches on and another off.
pub fn tri_state(on: bool, off: bool) -> (r: OptionalBool)
    ensures
        r == if on {
            OptionalBool::On
        } else if off {
            OptionalBool::Off
        } else {
            OptionalBool::Auto
        },
{
    if on {
        OptionalBool::On
    } else if off {
        OptionalBool::Off
    } else {
        OptionalBool::Auto
    }
}

/// What the user asked redo for.
#[derive(Clone, Copy, Debug)]
pub struct RedoFlags {
    pub debug: u64,
    pub verbose: u64,
    pub xtrace: u64,
    pub keep_going: bool,
    pub shuffle: bool,
    pub debug_locks: bool,
    pub debug_pids: bool,
    pub log: OptionalBool,
    pub pretty: OptionalBool,
    pub color: OptionalBool,
}

/// One change for a flag that was given some number of times.
pub open spec fn count_change(n: u64, name: Seq<char>) -> Seq<EnvChangeView> {
    if n > 0 {
        seq![EnvChangeView::Put(name, encode_utf8(decimal(n as nat)))]
    } else {
        seq![]
    }
}

/// One change for a flag that was given.
pub open spec fn flag_change(yes: bool, name: Seq<char>) -> Seq<EnvChangeView> {
    if yes {
        seq![EnvChangeView::Put(name, "1".spec_bytes())]
    } else {
        seq![]
    }
}

/// The digit that stands for a setting.
pub open spec fn setting_digit(v: OptionalBool) -> Seq<u8> {
    match v {
        OptionalBool::Off => "0".spec_bytes(),
        OptionalBool::Auto => "1".spec_bytes(),
        OptionalBool::On => "2".spec_bytes(),
    }
}

/// The value of a variable, or the digit of a setting if there is none.
pub open spec fn default_change(vars: Seq<(Seq<u8>, Seq<u8>)>, name: Seq<char>, v: OptionalBool) -> EnvChangeView {
    EnvChangeView::Put(
        name,
        match lookup(vars, encode_utf8(name)) {
            Some(old) => old,
            None => setting_digit(v),
        },
    )
}

/// How the environment changes by what the user asked for.
pub open spec fn flag_env(f: RedoFlags, vars: Seq<(Seq<u8>, Seq<u8>)>) -> Seq<EnvChangeView> {
    count_change(f.debug, "REDO_DEBUG"@) + count_change(f.verbose, "REDO_VERBOSE"@) + count_change(
        f.xtrace,
        "REDO_XTRACE"@,
    ) + flag_change(f.keep_going, "REDO_KEEP_GOING"@) + flag_change(f.shuffle, "REDO_SHUFFLE"@) + flag_change(
        f.debug_locks,
        "REDO_DEBUG_LOCKS"@,
    ) + flag_change(f.debug_pids, "REDO_DEBUG_PIDS"@) + seq![
        default_change(vars, "REDO_LOG"@, f.log),
        default_change(vars, "REDO_PRETTY"@, f.pretty),
        default_change(vars, "REDO_COLOR"@, f.color),
    ]
}

fn push_count(out: &mut Vec<EnvChange>, n: u64, name: &'static str)
    ensures
        change_views(final(out)@) == change_views(old(out)@) + count_change(n, name@),
{
    let ghost before = out@;
    if n > 0 {
        out.push(EnvChange::Put(name, copy_bytes(dec_u64(n).as_str().as_bytes())));
    }
    assert(change_views(out@) =~= change_views(before) + count_change(n, name@));
}

fn push_flag(out: &mut Vec<EnvChange>, yes: bool, name: &'static str)
    ensures
        change_views(final(out)@) == change_views(old(out)@) + flag_change(yes, name@),
{
    let ghost before = out@;
    if yes {
        out.push(EnvChange::Put(name, copy_bytes("1".as_bytes())));
    }
    assert(change_views(out@) =~= change_views(before) + flag_change(yes, name@));
}

fn push_default(out: &mut Vec<EnvChange>, vars: &Vec<Var>, name: &'static str, v: OptionalBool)
    ensures
        change_views(final(out)@) == change_views(old(out)@).push(default_change(var_views(vars@), name@, v)),
{
    let ghost before = out@;
    let value = match get_os_copy(vars, name) {
        Some(old_value) => old_value,
        None => copy_bytes(
            match v {
                OptionalBool::Off => "0",
                OptionalBool::Auto => "1",
                OptionalBool::On => "2",
            }.as_bytes(),
        ),
    };
    out.push(EnvChange::Put(name, value));
    assert(change_views(out@) =~= change_views(before).push(default_change(var_views(vars@), name@, v)));
}

/// How the environment changes by what the user asked for. Whether there is a log, and how it looks, is
/// left as it is if it was settled before.
pub fn flag_changes(f: &RedoFlags, vars: &Vec<Var>) -> (r: Vec<EnvChange>)
    ensures
        change_views(r@) == flag_env(*f, var_views(vars@)),
{
    let mut out: Vec<EnvChange> = Vec::new();
    assert(change_views(out@) =~= seq![]);
    push_count(&mut out, f.debug, "REDO_DEBUG");
    push_count(&mut out, f.verbose, "REDO_VERBOSE");
    push_count(&mut out, f.xtrace, "REDO_XTRACE");
    push_flag(&mut out, f.keep_going, "REDO_KEEP_GOING");
    push_flag(&mut out, f.shuffle, "REDO_SHUFFLE");
    push_flag(&mut out, f.debug_locks, "REDO_DEBUG_LOCKS");
    push_flag(&mut out, f.debug_pids, "REDO_DEBUG_PIDS");
    push_default(&mut out, vars, "REDO_LOG", f.log);
    push_default(&mut out, vars, "REDO_PRETTY", f.pretty);
    push_default(&mut out, vars, "REDO_COLOR", f.color);
    assert(change_views(out@) =~= flag_env(*f, var_views(vars@)));
    out
}

/// How many jobs the user asked for: none if that is not a number.
pub fn requested_jobs(arg: Option<&str>) -> (r: i32)
    ensures
        r == match arg {
            None => 0,
            Some(s) => match parsed_within(s@, i32::MIN as int, i32::MAX as int) {
                Some(n) => n,
                None => 0,
            },
        },
{
    match arg {
        None => 0,
        Some(s) => {
            let c = to_chars(s);
            match parse_i32(c.as_slice()) {
                Some(n) => n,
                None => 0,
            }
        },
    }
}

/// How many jobs there are, and whether the user is warned that they cannot run in parallel because
/// locks are broken.
pub fn usable_jobs(jobs: i32, toplevel: bool, locks_broken: bool) -> (r: (i32, bool))
    ensures
        r.1 == ((toplevel || jobs > 1) && locks_broken),
        r.0 == if locks_broken && jobs > 1 { 1 } else { jobs as int },
{
    if (toplevel || jobs > 1) && locks_broken {
        if jobs > 1 {
            (1, true)
        } else {
            (jobs, true)
        }
    } else {
        (jobs, false)
    }
}

/// Makes sure that a number of jobs is one that there can be.
pub fn check_jobs(jobs: i32) -> (r: Result<i32, RedoError>)
    ensures
        match r {
            Ok(n) => n == jobs && 0 <= jobs <= 1000,
            Err(e) => !(0 <= jobs <= 1000) && e@ == generic("invalid --jobs value: "@ + decimal_int(jobs as int)),
        },
{
    if jobs < 0 || jobs > 1000 {
        let mut msg = "invalid --jobs value: ".to_owned();
        msg.append(dec_i64(jobs as i64).as_str());
        return Err(RedoError::new(msg.as_str()));
    }
    Ok(jobs)
}

/// Whether standard input is closed before anything is built.
pub fn closes_stdin(env: &Env, jobs: i32) -> (r: bool)
    ensures
        r == (env.is_toplevel && (env.log.resolved(true) || jobs > 1)),
{
    env.is_toplevel && (env.log.unwrap_or(true) || jobs > 1)
}

/// Whether a redo-log instance shows what is written.
pub fn wants_log_reader(env: &Env) -> (r: bool)
    ensures
        r == (env.is_toplevel && env.log.resolved(true)),
{
    env.is_toplevel && env.log.unwrap_or(true)
}

/// The targets to build, given those that the user named.
pub open spec fn targets_or_all(named: Seq<Seq<char>>, toplevel: bool) -> Seq<Seq<char>> {
    if toplevel && named.len() == 0 {
        seq!["all"@]
    } else {
        named
    }
}

/// Whether a target has to be built if something that it depends on has changed, given what a check found: whether it is
/// generated, and how dirty it is. One that would have to be built before that is known has to be built.
pub open spec fn wanted(f: FileView, o: Outcome) -> Result<(bool, DirtView), ErrorView> {
    match o.verdict {
        Err(e) => Err(e),
        Ok(DirtView::NeedTargets(ts)) => if ts.len() == 1 && ts[0].id == f.id {
            Ok((o.file.is_generated, DirtView::Dirty))
        } else {
            Ok((o.file.is_generated, DirtView::NeedTargets(ts)))
        },
        Ok(d) => Ok((o.file.is_generated, d)),
    }
}

/// A result over views.
pub open spec fn wanted_view(r: Result<Option<(bool, Dirtiness)>, RedoError>) -> Result<Option<(bool, DirtView)>, ErrorView> {
    match r {
        Ok(Some((g, d))) => Ok(Some((g, d@))),
        Ok(None) => Ok(None),
        Err(e) => Err(e@),
    }
}

/// Finds out whether a target has to be built if something that it depends on has changed: gives whether it is
/// generated, and how dirty it is; nothing if it has already failed during this run.
pub fn should_build(ptx: &mut ProcessTransaction, f: &mut File, cb: &mut DirtyCallbacks, seen: &Sightings) -> (r: Result<
    Option<(bool, Dirtiness)>,
    RedoError,
>)
    requires
        sighted(seen@).contains(old(f)@.id),
        closed_under_deps(old(ptx).db().deps, sighted(seen@)),
    ensures
        if has_failed(old(f)@, old(ptx).settings().runid) {
            r matches Ok(None) && final(f)@ == old(f)@ && *final(ptx) == *old(ptx) && *final(cb)
                == *old(cb)
        } else {
            match old(ptx).settings().runid {
                None => r matches Err(e) && e@ == generic("RUNID not set"@) && final(f)@ == old(f)@ && *final(ptx) == *old(
                    ptx,
                ) && *final(cb) == *old(cb),
                Some(runid) => {
                    let s = Surroundings { runid, seen: seen@, hooks: old(cb).hooks() };
                    let o = check(old(f)@, runid, Set::empty(), walk_of(old(ptx), old(cb)), s);
                    &&& wanted_view(r) == match wanted(old(f)@, o) {
                        Ok(x) => Ok(Some(x)),
                        Err(e) => Err(e),
                    }
                    &&& final(f)@ == o.file
                    &&& walked(final(ptx), final(cb), old(ptx), old(cb), o.walk)
                },
            }
        },
{
    if f.is_failed(ptx.state().env()) {
        return Ok(None);
    }
    let id: i64 = f.id();
    match is_dirty(ptx, f, cb, seen) {
        Err(e) => Err(e),
        Ok(Dirtiness::NeedTargets(ts)) => {
            assert(file_views(ts@).len() == ts@.len());
            if ts.len() == 1 {
                assert(file_views(ts@)[0] == ts@[0]@);
                if ts[0].id() == id {
                    return Ok(Some((f.is_generated(), Dirtiness::Dirty)));
                }
            }
            Ok(Some((f.is_generated(), Dirtiness::NeedTargets(ts))))
        },
        Ok(d) => Ok(Some((f.is_generated(), d))),
    }
}

/// Adds the default target if the user has named none.
pub fn add_default_target(targets: &mut Vec<String>, toplevel: bool)
    ensures
        crate::text::strings(final(targets)@) == targets_or_all(crate::text::strings(old(targets)@), toplevel),
{
    assert(crate::text::strings(targets@).len() == targets@.len());
    if toplevel && targets.len() == 0 {
        targets.push("all".to_owned());
        assert(crate::text::strings(targets@) =~= seq!["all"@]);
    }
}

/// The SHA-1 digest of bytes.
pub uninterp spec fn sha1_digest(data: Seq<u8>) -> Seq<u8>;

/// `Sha1::digest` gives the SHA-1 digest of the bytes: twenty bytes that depend on them alone.
#[verifier::external_body]
fn sha1(data: &[u8]) -> (r: Vec<u8>)
    ensures
        r@ == sha1_digest(data@),
        r@.len() == 20,
{
    Sha1::digest(data).to_vec()
}

/// A digit in base sixteen.
pub open spec fn hex_digit(n: int) -> char {
    if n < 10 {
        (0x30 + n) as char
    } else {
        (0x57 + n) as char
    }
}

/// Bytes in base sixteen, two digits each.
pub open spec fn hex(b: Seq<u8>) -> Seq<char>
    decreases b.len(),
{
    if b.len() == 0 {
        seq![]
    } else {
        hex(b.drop_last()).push(hex_digit(b.last() as int / 16)).push(hex_digit(b.last() as int % 16))
    }
}

fn hex_char(n: u8) -> (r: char)
    requires
        n < 16,
    ensures
        r == hex_digit(n as int),
{
    if n < 10 {
        (0x30 + n) as char
    } else {
        (0x57 + n) as char
    }
}

/// Bytes in base sixteen, two digits each.
pub fn to_hex(b: &[u8]) -> (r: String)
    ensures
        r@ == hex(b@),
{
    let mut s = String::new();
    let mut i: usize = 0;
    assert(b@.take(0) =~= seq![]);
    assert(s@ =~= seq![]);
    while i < b.len()
        invariant
            i <= b.len(),
            s@ == hex(b@.take(i as int)),
        decreases b.len() - i,
    {
        assert(b@.take(i + 1).drop_last() =~= b@.take(i as int));
        s.push(hex_char(b[i] / 16));
        s.push(hex_char(b[i] % 16));
        i = i + 1;
    }
    assert(b@.take(i as int) =~= b@);
    s
}

/// The checksum of a target's contents: their SHA-1 digest in base sixteen.
pub fn checksum(data: &[u8]) -> (r: String)
    ensures
        r@ == hex(sha1_digest(data@)),
        r@.len() == 40,
{
    let d = sha1(data);
    proof {
        lemma_hex_len(d@);
    }
    to_hex(d.as_slice())
}

proof fn lemma_hex_len(b: Seq<u8>)
    ensures
        hex(b).len() == 2 * b.len(),
    decreases b.len(),
{
    if b.len() > 0 {
        lemma_hex_len(b.drop_last());
    }
}

/// What is known of a target whose contents have the given checksum: one with another checksum than before has
/// changed, any other has only been looked at.
pub open spec fn checksummed(f: FileView, runid: Option<i64>, csum: Seq<char>) -> FileView {
    let g = FileView { is_generated: true, is_override: false, failed_runid: None, ..f };
    if csum != f.csum {
        FileView { csum, ..changed_in(g, runid) }
    } else {
        FileView { checked_runid: runid, ..g }
    }
}

/// Takes note of the checksum of a target's contents.
pub fn apply_checksum(ptx: &mut ProcessTransaction, f: &mut File, csum: String)
    ensures
        final(f)@ == checksummed(old(f)@, old(ptx).settings().runid, csum@),
        final(ptx).wrote(old(ptx), WriteView::UpdateFile(row_of_file(final(f)@))),
{
    let changed = !str_eq(csum.as_str(), f.checksum());
    f.set_generated();
    if changed {
        // update_stamp might skip this if mtime is identical
        f.set_changed(ptx.state().env());
        f.set_checksum(csum);
    } else {
        // unchanged
        f.set_checked(ptx.state().env());
    }
    f.save(ptx);
}

/// Takes note of a target's contents by their checksum.
pub fn stamp_contents(ptx: &mut ProcessTransaction, f: &mut File, data: &[u8])
    ensures
        final(f)@ == checksummed(old(f)@, old(ptx).settings().runid, hex(sha1_digest(data@))),
        final(ptx).wrote(old(ptx), WriteView::UpdateFile(row_of_file(final(f)@))),
{
    apply_checksum(ptx, f, checksum(data));
}

/// A target whose contents have the same checksum as before has not changed, and one whose contents have another
/// has changed in this run.
pub proof fn law_checksum_tells_change(f: FileView, runid: Option<i64>, csum: Seq<char>)
    ensures
        csum == f.csum ==> checksummed(f, runid, csum).changed_runid == f.changed_runid,
        csum != f.csum ==> checksummed(f, runid, csum).changed_runid == runid,
        checksummed(f, runid, csum).csum == csum,
        checksummed(checksummed(f, runid, csum), runid, csum).changed_runid == checksummed(f, runid, csum).changed_runid,
{
}

/// What making a target depend on what always changes comes to, and what it writes.
pub open spec fn always_marked(target: i64, db: Db, env: Env, places: Places) -> (Result<bool, ErrorView>, Seq<WriteView>) {
    let (res, ws) = added_dep(target, db, env, DepMode::Modified, always_name(), places);
    if res == Ok::<bool, ErrorView>(true) {
        let (found, w) = looked_up(replay(db, ws), always_name(), env.runid, true);
        match found {
            Err(e) => (Err(e), ws + lookup_writes(w)),
            Ok(a) => (
                Ok(true),
                (ws + lookup_writes(w)).push(
                    WriteView::UpdateFile(
                        row_of_file(changed_in(FileView { stamp: Some("0"@), ..a }, env.runid)),
                    ),
                ),
            ),
        }
    } else {
        (res, ws)
    }
}

/// Makes a target depend on what always changes, so that it is built in every run. Reports whether that was done.
pub fn mark_always(ptx: &mut ProcessTransaction, f: &File, places: &Places) -> (r: Result<bool, RedoError>)
    requires
        is_rooted(old(ptx).settings().base@),
    ensures
        ({
            let (res, ws) = always_marked(f@.id, old(ptx).db(), old(ptx).settings(), *places);
            &&& bool_result(r) == res
            &&& final(ptx).wrote_all(old(ptx), ws)
        }),
{
    let ghost before = *ptx;
    let ghost env = ptx.settings();
    let ghost ws = added_dep(f@.id, before.db(), env, DepMode::Modified, always_name(), *places).1;
    match f.add_dep(ptx, DepMode::Modified, "//ALWAYS".as_bytes(), places) {
        Err(e) => return Err(e),
        Ok(done) => {
            if !done {
                return Ok(false);
            }
        },
    }
    let ghost mid = *ptx;
    let found = File::from_name(ptx, "//ALWAYS".as_bytes(), places, true);
    let ghost w = looked_up(mid.db(), always_name(), env.runid, true).1;
    proof {
        reveal_with_fuel(replay, 2);
        lemma_replay_concat(before.db(), ws, lookup_writes(w));
        match w {
            Some(x) => {
                assert(seq![x].drop_last() =~= seq![]);
                assert(ptx.writes() =~= before.writes() + (ws + lookup_writes(w)));
            },
            None => {
                assert(ptx.writes() =~= before.writes() + (ws + lookup_writes(w)));
            },
        }
        assert(ptx.wrote_all(&before, ws + lookup_writes(w)));
    }
    let mut always = match found {
        Err(e) => return Err(e),
        Ok(a) => a,
    };
    let ghost two = *ptx;
    always.set_stamp(Stamp::missing());
    always.set_changed(ptx.state().env());
    always.save(ptx);
    proof {
        let all = ws + lookup_writes(w);
        let u = WriteView::UpdateFile(row_of_file(always@));
        assert(all.push(u).drop_last() =~= all);
        assert(ptx.writes() =~= before.writes() + all.push(u));
    }
    Ok(true)
}

/// What making a target depend on the absence of a file comes to.
#[derive(Debug)]
pub enum IfCreate {
    Added,
    /// The name is empty.
    EmptyName,
    /// It is the target itself.
    Itself,
}

/// Makes a target depend on the absence of a file, given whether it is there.
pub fn depend_on_absence(ptx: &mut ProcessTransaction, f: &File, name: &[u8], there: bool, places: &Places) -> (r: Result<
    IfCreate,
    RedoError,
>)
    requires
        is_rooted(old(ptx).settings().base@),
    ensures
        if name@.len() == 0 {
            r == Ok::<IfCreate, RedoError>(IfCreate::EmptyName) && *final(ptx) == *old(ptx)
        } else if there {
            &&& r matches Err(e) && e@ == generic(quoted(shown(name@)) + " already exists"@)
            &&& *final(ptx) == *old(ptx)
        } else if !valid_utf8(name@) {
            &&& r matches Err(e) && e@ == generic("cannot use "@ + quoted(shown(name@)) + " as target name"@)
            &&& *final(ptx) == *old(ptx)
        } else {
            let (res, ws) = added_dep(
                f@.id,
                old(ptx).db(),
                old(ptx).settings(),
                DepMode::Created,
                name@,
                *places,
            );
            &&& final(ptx).wrote_all(old(ptx), ws)
            &&& match res {
                Err(e) => r matches Err(err) && err@ == e,
                Ok(true) => r == Ok::<IfCreate, RedoError>(IfCreate::Added),
                Ok(false) => r == Ok::<IfCreate, RedoError>(IfCreate::Itself),
            }
        },
{
    if name.len() == 0 {
        return Ok(IfCreate::EmptyName);
    }
    if there {
        let mut msg = debug_str(show_bytes(name).as_str());
        msg.append(" already exists");
        return Err(RedoError::new(msg.as_str()));
    }
    if crate::redopath::utf8_text(name).is_err() {
        let mut msg = "cannot use ".to_owned();
        msg.append(debug_str(show_bytes(name).as_str()).as_str());
        msg.append(" as target name");
        return Err(RedoError::new(msg.as_str()));
    }
    match f.add_dep(ptx, DepMode::Created, name, places) {
        Err(e) => Err(e),
        Ok(done) => if done {
            Ok(IfCreate::Added)
        } else {
            Ok(IfCreate::Itself)
        },
    }
}

/// Those of the given files that are targets, up to the first that cannot be read or looked at.
pub open spec fn targets_among(all: Seq<Result<FileView, ErrorView>>, seen: Seq<(i64, Observed)>, runid: Option<i64>) -> Result<
    Seq<FileView>,
    ErrorView,
>
    decreases all.len(),
{
    if all.len() == 0 {
        Ok(seq![])
    } else {
        match all[0] {
            Err(e) => Err(e),
            Ok(f) => match is_target_view(f, runid, stamp_of_seen(sighting(seen, f.id).unwrap())) {
                Err(e) => Err(e),
                Ok(yes) => match targets_among(all.skip(1), seen, runid) {
                    Err(e) => Err(e),
                    Ok(rest) => Ok(
                        if yes {
                            seq![f] + rest
                        } else {
                            rest
                        },
                    ),
                },
            },
        }
    }
}

/// The targets among the files known to redo, ordered by name, given what was seen of the files.
pub fn list_targets(ptx: &ProcessTransaction, seen: &Sightings) -> (r: Result<Vec<File>, RedoError>)
    requires
        forall|i: int| 0 <= i < ptx.db().files.len() ==> sighted(seen@).contains((#[trigger] ptx.db().files[i]).id),
    ensures
        exists|rows: Seq<crate::db::FileRowView>|
            #![trigger read_all(rows, ptx.settings().runid)]
            {
                &&& crate::state::ordered_by_name(rows)
                &&& rows.to_multiset() == ptx.db().files.to_multiset()
                &&& (match r {
                    Ok(fs) => Ok(file_views(fs@)),
                    Err(e) => Err(e@),
                }) == targets_among(read_all(rows, ptx.settings().runid), seen@, ptx.settings().runid)
            },
{
    let mut it = Files::list(ptx);
    let ghost rows = it.all();
    let ghost runid = ptx.settings().runid;
    let ghost all = read_all(rows, runid);
    proof {
        lemma_read_all_ids(rows, ptx.db().files, runid, sighted(seen@));
    }
    let mut out: Vec<File> = Vec::new();
    let ghost goal = targets_among(all, seen@, runid);
    assert(file_views(out@) =~= seq![]);
    proof {
        match goal {
            Ok(g) => {
                assert(file_views(out@) + g =~= g);
            },
            Err(_) => {},
        }
    }
    loop
        invariant
            it.wf(),
            it.all() == rows,
            runid == ptx.settings().runid,
            all == read_all(rows, runid),
            crate::state::ordered_by_name(rows),
            rows.to_multiset() == ptx.db().files.to_multiset(),
            forall|i: int|
                0 <= i < it.remaining().len() ==> ((#[trigger] it.remaining()[i]) matches Ok(f) ==> sighted(
                    seen@,
                ).contains(f.id)),
            goal == targets_among(all, seen@, runid),
            match targets_among(it.remaining(), seen@, runid) {
                Err(e) => goal == Err::<Seq<FileView>, ErrorView>(e),
                Ok(rest) => goal == Ok::<Seq<FileView>, ErrorView>(file_views(out@) + rest),
            },
        decreases it.remaining().len(),
    {
        let ghost rem = it.remaining();
        match it.next() {
            None => {
                proof {
                    assert(rem =~= seq![]);
                    assert(file_views(out@) + seq![] =~= file_views(out@));
                }
                return Ok(out);
            },
            Some(Err(e)) => {
                return Err(e);
            },
            Some(Ok(f)) => {
                assert(rem[0] == Ok::<FileView, ErrorView>(f@));
                assert(it.remaining() == rem.skip(1));
                assert forall|i: int| 0 <= i < it.remaining().len() implies ((#[trigger] it.remaining()[i]) matches Ok(g)
                    ==> sighted(seen@).contains(g.id)) by {
                    assert(it.remaining()[i] == rem[i + 1]);
                }
                match f.is_target(ptx.state().env(), look_up(seen, f.id())) {
                    Err(e) => return Err(e),
                    Ok(yes) => {
                        if yes {
                            let ghost before = out@;
                            let ghost v = f@;
                            out.push(f);
                            proof {
                                match targets_among(it.remaining(), seen@, runid) {
                                    Ok(rest) => {
                                        assert(file_views(out@) + rest =~= file_views(before) + (seq![v] + rest));
                                    },
                                    Err(_) => {},
                                }
                            }
                        }
                    },
                }
            },
        }
    }
}

/// Files that are read from rows have the ids of rows.
proof fn lemma_read_all_ids(
    rows: Seq<crate::db::FileRowView>,
    files: Seq<crate::db::FileRowView>,
    runid: Option<i64>,
    ids: Set<i64>,
)
    requires
        rows.to_multiset() == files.to_multiset(),
        forall|i: int| 0 <= i < files.len() ==> ids.contains((#[trigger] files[i]).id),
    ensures
        forall|i: int|
            0 <= i < read_all(rows, runid).len() ==> ((#[trigger] read_all(rows, runid)[i]) matches Ok(f) ==> ids.contains(
                f.id,
            )),
{
    rows.to_multiset_ensures();
    files.to_multiset_ensures();
    assert forall|i: int| 0 <= i < rows.len() implies ids.contains((#[trigger] rows[i]).id) by {
        assert(rows.contains(rows[i]));
        assert(rows.to_multiset().count(rows[i]) > 0);
        assert(files.contains(rows[i]));
        let j = choose|j: int| 0 <= j < files.len() && files[j] == rows[i];
        assert(ids.contains(files[j].id));
    }
    lemma_read_ids(rows, runid, ids);
}

proof fn lemma_read_ids(rows: Seq<crate::db::FileRowView>, runid: Option<i64>, ids: Set<i64>)
    requires
        forall|i: int| 0 <= i < rows.len() ==> ids.contains((#[trigger] rows[i]).id),
    ensures
        forall|i: int|
            0 <= i < read_all(rows, runid).len() ==> ((#[trigger] read_all(rows, runid)[i]) matches Ok(f) ==> ids.contains(
                f.id,
            )),
    decreases rows.len(),
{
    if rows.len() > 0 {
        let rest = rows.skip(1);
        assert forall|i: int| 0 <= i < rest.len() implies ids.contains((#[trigger] rest[i]).id) by {
            assert(rest[i] == rows[i + 1]);
        }
        lemma_read_ids(rest, runid, ids);
        assert(ids.contains(rows[0].id));
        let all = read_all(rows, runid);
        assert forall|i: int| 0 <= i < all.len() implies ((#[trigger] all[i]) matches Ok(f) ==> ids.contains(f.id)) by {
            if i > 0 {
                assert(all[i] == read_all(rest, runid)[i - 1]);
            }
        }
    }
}

/// The arguments of redo-unlocked: the target that is being looked at, and what has to be built first.
pub fn unlocked_args(args: &Vec<Vec<u8>>) -> (r: Result<(Vec<u8>, Vec<Vec<u8>>), RedoError>)
    ensures
        match r {
            Err(e) => args@.len() < 2 && e@ == generic("at least 2 arguments expected."@),
            Ok((target, deps)) => {
                &&& args@.len() >= 2
                &&& target@ == args@[0]@
                &&& crate::text::views(deps@) == crate::text::views(args@).skip(1)
            },
        },
{
    if args.len() < 2 {
        return Err(RedoError::new("at least 2 arguments expected."));
    }
    let target = copy_bytes(args[0].as_slice());
    let mut deps: Vec<Vec<u8>> = Vec::new();
    let mut i: usize = 1;
    while i < args.len()
        invariant
            1 <= i <= args.len(),
            deps.len() == i - 1,
            forall|k: int| 0 <= k < i - 1 ==> (#[trigger] deps@[k])@ == args@[k + 1]@,
        decreases args.len() - i,
    {
        deps.push(copy_bytes(args[i].as_slice()));
        i = i + 1;
    }
    assert(crate::text::views(deps@) =~= crate::text::views(args@).skip(1));
    Ok((target, deps))
}

/// A target is built just if a check does not find it clean. One of which a check says that it alone has to be built first is
/// dirty; otherwise what has to be built first is what the check says.
pub proof fn law_build_what_is_not_clean(f: FileView, o: Outcome)
    ensures
        o.verdict matches Err(e) ==> wanted(f, o) == Err::<(bool, DirtView), ErrorView>(e),
        o.verdict matches Ok(d) ==> {
            &&& wanted(f, o) matches Ok((generated, found)) && {
                &&& generated == o.file.is_generated
                &&& found is Clean <==> d is Clean
                &&& d is Dirty ==> found is Dirty
                &&& found matches DirtView::NeedTargets(ts) ==> d == DirtView::NeedTargets(ts)
                &&& d matches DirtView::NeedTargets(ts) ==> {
                    &&& ts.len() == 1 && ts[0].id == f.id ==> found is Dirty
                    &&& !(ts.len() == 1 && ts[0].id == f.id) ==> found == DirtView::NeedTargets(ts)
                }
            }
        },
{
}

/// What `redo-stamp` notes. With another checksum than before the target has changed in this run and keeps the new one; with the
/// same it has been looked at in this run, and has not changed. Either way it is generated, not overridden and not failed,
/// and its stamp stays.
pub proof fn law_checksum_is_noted(f: FileView, run: i64, csum: Seq<char>)
    ensures
        ({
            let g = checksummed(f, Some(run), csum);
            &&& g.is_generated && !g.is_override && g.failed_runid is None
            &&& g.csum == csum
            &&& g.stamp == f.stamp && g.id == f.id && g.name == f.name
            &&& f.csum != csum ==> g.changed_runid == Some(run) && g.checked_runid == f.checked_runid
            &&& f.csum == csum ==> g.changed_runid == f.changed_runid && g.checked_runid == Some(run)
        }),
{
}

/// A target that is marked to be built always depends on what always changes, and that has changed in this run. `k` is where what
/// always changes stands in the table.
pub proof fn law_always_is_noted(target: i64, db: Db, env: Env, places: Places, k: int)
    requires
        crate::paths::has_own_ids(db.files, target),
        crate::db::max_id(db.files) < i64::MAX,
        0 <= k < db.files.len(),
        db.files[k].name == "//ALWAYS".spec_bytes(),
        forall|i: int| 0 <= i < k ==> (#[trigger] db.files[i]).name != "//ALWAYS".spec_bytes(),
        db.files[k].id != target,
    ensures
        ({
            let (res, ws) = always_marked(target, db, env, places);
            let after = replay(db, ws);
            &&& res == Ok::<bool, ErrorView>(true)
            &&& after.deps.contains(DepRow { target, source: db.files[k].id, mode: DepMode::Modified, delete_me: false })
            &&& after.files.len() == db.files.len()
            &&& after.files[k].changed_runid == env.runid
            &&& after.files[k].failed_runid is None
            &&& forall|i: int| 0 <= i < db.files.len() && i != k ==> #[trigger] after.files[i] == db.files[i]
            &&& forall|d: DepRow|
                !(d.target == target && d.source == db.files[k].id) ==> (#[trigger] after.deps.contains(d) <==> db.deps.contains(
                    d,
                ))
        }),
{
    let name = always_name();
    let source = db.files[k].id;
    crate::state::lemma_always();
    crate::db::law_found_by_name(db.files, k, name);
    let (res, ws) = added_dep(target, db, env, DepMode::Modified, name, places);
    let put = WriteView::PutDep(crate::state::dep_row(target, source, DepMode::Modified));
    assert(ws =~= Seq::<WriteView>::empty().push(put));
    crate::db::law_writes_in_turn(db, seq![], put);
    let mid = apply(db, put);
    assert(replay(db, ws) == mid);
    crate::db::law_put_replaces(db, put->PutDep_0, put->PutDep_0);
    assert(mid.files == db.files);
    let all = always_marked(target, db, env, places).1;
    let up = all.last();
    assert(all =~= ws.push(up));
    crate::db::law_writes_in_turn(db, ws, up);
    let after = replay(db, all);
    assert(after == apply(mid, up));
    assert(up matches WriteView::UpdateFile(row) && row.id == source);
    crate::db::law_update_changes_one(mid, up->UpdateFile_0, k);
    assert forall|i: int| 0 <= i < db.files.len() && i != k implies #[trigger] after.files[i] == db.files[i] by {
        crate::db::law_update_changes_one(mid, up->UpdateFile_0, i);
        if i < k {
            assert(db.files[i].id != db.files[k].id);
        } else {
            assert(db.files[k].id != db.files[i].id);
        }
    }
    assert forall|d: DepRow| !(d.target == target && d.source == source) implies (#[trigger] after.deps.contains(d)
        <==> db.deps.contains(d)) by {
        crate::db::law_put_replaces(db, put->PutDep_0, d);
    }
}

/// Just those files are listed as targets that are targets, and each of them as often as it is among the files.
pub proof fn law_targets_are_listed(
    all: Seq<Result<FileView, ErrorView>>,
    seen: Seq<(i64, Observed)>,
    runid: Option<i64>,
    ts: Seq<FileView>,
    f: FileView,
)
    requires
        targets_among(all, seen, runid) == Ok::<Seq<FileView>, ErrorView>(ts),
    ensures
        ts.contains(f) <==> all.contains(Ok::<FileView, ErrorView>(f)) && is_target_view(
            f,
            runid,
            stamp_of_seen(sighting(seen, f.id).unwrap()),
        ) == Ok::<bool, ErrorView>(true),
        forall|i: int| 0 <= i < all.len() ==> (#[trigger] all[i]) is Ok,
    decreases all.len(),
{
    if all.len() > 0 {
        let rest = all.skip(1);
        let fewer = targets_among(rest, seen, runid)->Ok_0;
        law_targets_are_listed(rest, seen, runid, fewer, f);
        let g = all[0]->Ok_0;
        let ok = Ok::<FileView, ErrorView>(f);
        if rest.contains(ok) {
            let i = choose|i: int| 0 <= i < rest.len() && rest[i] == ok;
            assert(all[i + 1] == ok);
        }
        if all.contains(ok) && f != g {
            let i = choose|i: int| 0 <= i < all.len() && all[i] == ok;
            assert(rest[i - 1] == ok);
        }
        if f == g {
            assert(all[0] == ok);
        }
        let off: int = ts.len() - fewer.len();
        if fewer.contains(f) {
            let i = choose|i: int| 0 <= i < fewer.len() && fewer[i] == f;
            assert(ts[i + off] == f);
        }
        if ts.contains(f) {
            let i = choose|i: int| 0 <= i < ts.len() && ts[i] == f;
            if i >= off {
                assert(fewer[i - off] == f);
            }
        }
        if off == 1 {
            assert(ts[0] == g);
        }
        assert forall|i: int| 0 <= i < all.len() implies (#[trigger] all[i]) is Ok by {
            if i > 0 {
                assert(rest[i - 1] == all[i]);
            }
        }
    }
}

/// The exit code of a program tells what went wrong.
pub proof fn law_exit_codes(t: Seq<u8>, code: i32)
    ensures
        code_of_kind(KindView::InvalidTarget(t)) == 204,
        code_of_kind(KindView::CyclicDependency) == 208,
        code_of_kind(KindView::ImmediateExit(code)) == code,
        code_of_kind(KindView::Generic) == 1,
        code_of_kind(KindView::FileNotFound) == 1,
{
}

/// What the user asks for is handed on to all processes.
pub proof fn law_flags_are_handed_on(f: RedoFlags, vars: Seq<(Seq<u8>, Seq<u8>)>)
    ensures
        ({
            let cs = flag_env(f, vars);
            &&& f.debug > 0 ==> cs.contains(EnvChangeView::Put("REDO_DEBUG"@, encode_utf8(decimal(f.debug as nat))))
            &&& f.verbose > 0 ==> cs.contains(EnvChangeView::Put("REDO_VERBOSE"@, encode_utf8(decimal(f.verbose as nat))))
            &&& f.xtrace > 0 ==> cs.contains(EnvChangeView::Put("REDO_XTRACE"@, encode_utf8(decimal(f.xtrace as nat))))
            &&& f.keep_going ==> cs.contains(EnvChangeView::Put("REDO_KEEP_GOING"@, "1".spec_bytes()))
            &&& f.shuffle ==> cs.contains(EnvChangeView::Put("REDO_SHUFFLE"@, "1".spec_bytes()))
            &&& f.debug_locks ==> cs.contains(EnvChangeView::Put("REDO_DEBUG_LOCKS"@, "1".spec_bytes()))
            &&& f.debug_pids ==> cs.contains(EnvChangeView::Put("REDO_DEBUG_PIDS"@, "1".spec_bytes()))
        }),
{
    if f.debug > 0 {
        lemma_flag_part(f, vars, count_change(f.debug, "REDO_DEBUG"@)[0]);
    }
    if f.verbose > 0 {
        lemma_flag_part(f, vars, count_change(f.verbose, "REDO_VERBOSE"@)[0]);
    }
    if f.xtrace > 0 {
        lemma_flag_part(f, vars, count_change(f.xtrace, "REDO_XTRACE"@)[0]);
    }
    if f.keep_going {
        lemma_flag_part(f, vars, flag_change(f.keep_going, "REDO_KEEP_GOING"@)[0]);
    }
    if f.shuffle {
        lemma_flag_part(f, vars, flag_change(f.shuffle, "REDO_SHUFFLE"@)[0]);
    }
    if f.debug_locks {
        lemma_flag_part(f, vars, flag_change(f.debug_locks, "REDO_DEBUG_LOCKS"@)[0]);
    }
    if f.debug_pids {
        lemma_flag_part(f, vars, flag_change(f.debug_pids, "REDO_DEBUG_PIDS"@)[0]);
    }
}

spec fn begins_with(s: Seq<EnvChangeView>, x: EnvChangeView) -> bool {
    s.len() > 0 && s[0] == x
}

proof fn lemma_flag_part(f: RedoFlags, vars: Seq<(Seq<u8>, Seq<u8>)>, x: EnvChangeView)
    requires
        begins_with(count_change(f.debug, "REDO_DEBUG"@), x) || begins_with(count_change(f.verbose, "REDO_VERBOSE"@), x)
            || begins_with(count_change(f.xtrace, "REDO_XTRACE"@), x) || begins_with(
            flag_change(f.keep_going, "REDO_KEEP_GOING"@),
            x,
        ) || begins_with(flag_change(f.shuffle, "REDO_SHUFFLE"@), x) || begins_with(
            flag_change(f.debug_locks, "REDO_DEBUG_LOCKS"@),
            x,
        ) || begins_with(flag_change(f.debug_pids, "REDO_DEBUG_PIDS"@), x),
    ensures
        flag_env(f, vars).contains(x),
{
    lemma_part(
        count_change(f.debug, "REDO_DEBUG"@),
        count_change(f.verbose, "REDO_VERBOSE"@),
        count_change(f.xtrace, "REDO_XTRACE"@),
        flag_change(f.keep_going, "REDO_KEEP_GOING"@),
        flag_change(f.shuffle, "REDO_SHUFFLE"@),
        flag_change(f.debug_locks, "REDO_DEBUG_LOCKS"@),
        flag_change(f.debug_pids, "REDO_DEBUG_PIDS"@),
        seq![
            default_change(vars, "REDO_LOG"@, f.log),
            default_change(vars, "REDO_PRETTY"@, f.pretty),
            default_change(vars, "REDO_COLOR"@, f.color),
        ],
        x,
    );
}

/// Whether there is a log, and how it looks, stays as it was settled before; if it was not, it is as the user wants it.
pub proof fn law_log_settings_stay(f: RedoFlags, vars: Seq<(Seq<u8>, Seq<u8>)>)
    ensures
        ({
            let cs = flag_env(f, vars);
            let n = cs.len() as int;
            &&& n >= 3
            &&& lookup(vars, encode_utf8("REDO_LOG"@)) matches Some(v) ==> cs[n - 3] == EnvChangeView::Put("REDO_LOG"@, v)
            &&& lookup(vars, encode_utf8("REDO_LOG"@)) is None ==> cs[n - 3] == EnvChangeView::Put(
                "REDO_LOG"@,
                match f.log {
                    OptionalBool::Off => "0".spec_bytes(),
                    OptionalBool::Auto => "1".spec_bytes(),
                    OptionalBool::On => "2".spec_bytes(),
                },
            )
            &&& lookup(vars, encode_utf8("REDO_PRETTY"@)) matches Some(v) ==> cs[n - 2] == EnvChangeView::Put("REDO_PRETTY"@, v)
            &&& lookup(vars, encode_utf8("REDO_COLOR"@)) matches Some(v) ==> cs[n - 1] == EnvChangeView::Put("REDO_COLOR"@, v)
        }),
{
}

proof fn lemma_part(
    a: Seq<EnvChangeView>,
    b: Seq<EnvChangeView>,
    c: Seq<EnvChangeView>,
    d: Seq<EnvChangeView>,
    e: Seq<EnvChangeView>,
    g: Seq<EnvChangeView>,
    h: Seq<EnvChangeView>,
    t: Seq<EnvChangeView>,
    x: EnvChangeView,
)
    requires
        begins_with(a, x) || begins_with(b, x) || begins_with(c, x) || begins_with(d, x) || begins_with(e, x) || begins_with(
            g,
            x,
        ) || begins_with(h, x),
    ensures
        (a + b + c + d + e + g + h + t).contains(x),
{
    assert(a.contains(x) || b.contains(x) || c.contains(x) || d.contains(x) || e.contains(x) || g.contains(x) || h.contains(x));
    if a.contains(x) || b.contains(x) {
        lemma_in_either(a, b, x);
    }
    if (a + b).contains(x) || c.contains(x) {
        lemma_in_either(a + b, c, x);
    }
    if (a + b + c).contains(x) || d.contains(x) {
        lemma_in_either(a + b + c, d, x);
    }
    if (a + b + c + d).contains(x) || e.contains(x) {
        lemma_in_either(a + b + c + d, e, x);
    }
    if (a + b + c + d + e).contains(x) || g.contains(x) {
        lemma_in_either(a + b + c + d + e, g, x);
    }
    if (a + b + c + d + e + g).contains(x) || h.contains(x) {
        lemma_in_either(a + b + c + d + e + g, h, x);
    }
    lemma_in_either(a + b + c + d + e + g + h, t, x);
}

proof fn lemma_in_either(a: Seq<EnvChangeView>, b: Seq<EnvChangeView>, x: EnvChangeView)
    requires
        a.contains(x) || b.contains(x),
    ensures
        (a + b).contains(x),
{
    if a.contains(x) {
        let i = choose|i: int| 0 <= i < a.len() && a[i] == x;
        assert((a + b)[i] == x);
    } else {
        let i = choose|i: int| 0 <= i < b.len() && b[i] == x;
        assert((a + b)[a.len() + i] == x);
    }
}

/// Bytes in base sixteen can be told apart: two that are different are written differently.
pub proof fn law_hex_tells_bytes(a: Seq<u8>, b: Seq<u8>)
    ensures
        hex(a) == hex(b) ==> a == b,
        hex(a).len() == 2 * a.len(),
    decreases a.len(),
{
    lemma_hex_len(a);
    lemma_hex_len(b);
    if hex(a) == hex(b) {
        if a.len() > 0 {
            let (x, y) = (hex(a), hex(b));
            let n = x.len() as int;
            assert(x.take(n - 2) =~= hex(a.drop_last()));
            assert(y.take(n - 2) =~= hex(b.drop_last()));
            law_hex_tells_bytes(a.drop_last(), b.drop_last());
            assert(x[n - 2] == y[n - 2] && x[n - 1] == y[n - 1]);
            let (p, q) = (a.last() as int, b.last() as int);
            lemma_hex_digit(p / 16, q / 16);
            lemma_hex_digit(p % 16, q % 16);
            assert(p == q);
            assert(a =~= a.drop_last().push(a.last()));
            assert(b =~= b.drop_last().push(b.last()));
        } else {
            assert(a =~= b);
        }
    }
}

proof fn lemma_hex_digit(m: int, n: int)
    requires
        0 <= m < 16,
        0 <= n < 16,
    ensures
        hex_digit(m) == hex_digit(n) ==> m == n,
{
}

/// Each program is known by its own name. An executable of any other name is redo itself.
pub proof fn law_tools_have_names(name: Seq<char>)
    ensures
        tool_named(name) is Always <==> name == "redo-always"@,
        tool_named(name) is IfChange <==> name == "redo-ifchange"@,
        tool_named(name) is IfCreate <==> name == "redo-ifcreate"@,
        tool_named(name) is Log <==> name == "redo-log"@,
        tool_named(name) is Ood <==> name == "redo-ood"@,
        tool_named(name) is Sources <==> name == "redo-sources"@,
        tool_named(name) is Stamp <==> name == "redo-stamp"@,
        tool_named(name) is Targets <==> name == "redo-targets"@,
        tool_named(name) is Unlocked <==> name == "redo-unlocked"@,
        tool_named(name) is WhichDo <==> name == "redo-whichdo"@,
{
    reveal_strlit("redo-always");
    reveal_strlit("redo-ifchange");
    reveal_strlit("redo-ifcreate");
    reveal_strlit("redo-log");
    reveal_strlit("redo-ood");
    reveal_strlit("redo-sources");
    reveal_strlit("redo-stamp");
    reveal_strlit("redo-targets");
    reveal_strlit("redo-unlocked");
    reveal_strlit("redo-whichdo");
    assert("redo-always"@[5] == 'a' && "redo-ifchange"@[5] == 'i' && "redo-ifcreate"@[5] == 'i' && "redo-log"@[5] == 'l');
    assert("redo-ifchange"@[8] == 'h' && "redo-ifcreate"@[8] == 'r');
    assert("redo-ood"@[5] == 'o' && "redo-sources"@[5] == 's' && "redo-stamp"@[5] == 's' && "redo-targets"@[5] == 't');
    assert("redo-sources"@[6] == 'o' && "redo-stamp"@[6] == 't');
    assert("redo-unlocked"@[5] == 'u' && "redo-whichdo"@[5] == 'w');
}

/// If the user names no target, `all` is built; a process that another redo has started builds just what it was told.
pub proof fn law_all_is_the_default(named: Seq<Seq<char>>, toplevel: bool)
    ensures
        named.len() > 0 || !toplevel ==> targets_or_all(named, toplevel) == named,
        named.len() == 0 && toplevel ==> targets_or_all(named, toplevel).len() == 1 && targets_or_all(named, toplevel)[0]
            == "all"@,
{
}

} // verus!
