//! Code for parallel-building a set of targets.

use rand::seq::SliceRandom;
use std::collections::VecDeque;
use vstd::multiset::*;
use vstd::prelude::*;
use vstd::string::*;
use vstd::utf8::*;
use crate::cycles;
use crate::db::{apply, lemma_replay_concat, max_id, replay, Db, DepMode, DepRow, WriteView};
use crate::deps::{
    check, deps_clean, file_views, law_clean_means_all_is_clean, sighted, sighting, DirtView, Dirtiness,
    Surroundings, Walk,
};
use crate::env::{Env, OptionalBool};
use crate::error::{debug_str, generic, quoted, ErrorView, RedoError};
use crate::exits::{
    EXIT_BUILD_JOB_ERROR, EXIT_CYCLIC_DEPENDENCY, EXIT_FAILED_IN_ANOTHER_THREAD, EXIT_FAILURE,
    EXIT_INVALID_TARGET, EXIT_MULTIPLE_OUTPUTS, EXIT_SUCCESS, EXIT_TARGET_DIRECTLY_MODIFIED,
};
use crate::helpers::{absolute, normalized};
use crate::pathname::{is_rooted, join_path, pushed};
use crate::paths::{
    candidates, depends_on_name, enough_looks, find_do_file, has_own_ids, law_search_depends_on_all,
    searched, DoFile, DoFileView, Look, Search, SearchView,
};
use crate::redopath::is_redo_path;
use crate::relpath::Places;
use crate::stamp::{overridden, stamp_of_seen, Observed, Stamp};
use crate::state::{
    added_dep, changed_in, db_name, depends_on, deps_of, failed_in, found_by_id, had_run, has_name,
    is_among, law_undeleted_deps_stay, looked_up, made_override, made_static, restamped, row_of_file, since,
    since_known, File, FileView, ProcessTransaction,
};
use crate::text::{
    append_bytes, bytes_eq, copy_bytes, dec_i64, decimal_int, split, split_chars, str_eq, strings, to_chars,
    trim, trimmed, trimmed_front, views, SEP,
};

verus! {

/// Why a build failed.
#[derive(Clone, Eq, PartialEq, Debug)]
#[non_exhaustive]
pub enum BuildErrorKind {
    Generic,
    FailedInAnotherThread(String),
    InvalidTarget(String),
    CyclicDependency,
}

/// What a kind of build error says.
pub enum BuildErrorView {
    Generic,
    FailedInAnotherThread(Seq<char>),
    InvalidTarget(Seq<char>),
    CyclicDependency,
}

impl View for BuildErrorKind {
    type V = BuildErrorView;

    open spec fn view(&self) -> BuildErrorView {
        match self {
            BuildErrorKind::Generic => BuildErrorView::Generic,
            BuildErrorKind::FailedInAnotherThread(t) => BuildErrorView::FailedInAnotherThread(t@),
            BuildErrorKind::InvalidTarget(t) => BuildErrorView::InvalidTarget(t@),
            BuildErrorKind::CyclicDependency => BuildErrorView::CyclicDependency,
        }
    }
}

/// The text of a kind of build error.
pub open spec fn build_error_text(kind: BuildErrorView) -> Seq<char> {
    match kind {
        BuildErrorView::Generic => "Build failed"@,
        BuildErrorView::FailedInAnotherThread(t) => quoted(t) + ": failed in another thread"@,
        BuildErrorView::InvalidTarget(t) => "Invalid target "@ + quoted(t),
        BuildErrorView::CyclicDependency => "Cyclic dependency detected"@,
    }
}

/// The exit code of a process whose build failed.
pub open spec fn build_error_code(kind: BuildErrorView) -> i32 {
    match kind {
        BuildErrorView::FailedInAnotherThread(_) => EXIT_FAILED_IN_ANOTHER_THREAD,
        BuildErrorView::InvalidTarget(_) => EXIT_INVALID_TARGET,
        BuildErrorView::CyclicDependency => EXIT_CYCLIC_DEPENDENCY,
        BuildErrorView::Generic => EXIT_FAILURE,
    }
}

impl BuildErrorKind {
    /// The text of the kind.
    pub fn text(&self) -> (r: String)
        ensures
            r@ == build_error_text(self@),
    {
        match self {
            BuildErrorKind::Generic => "Build failed".to_owned(),
            BuildErrorKind::FailedInAnotherThread(t) => {
                let mut s = debug_str(t.as_str());
                s.append(": failed in another thread");
                s
            },
            BuildErrorKind::InvalidTarget(t) => {
                let mut s = "Invalid target ".to_owned();
                s.append(debug_str(t.as_str()).as_str());
                s
            },
            BuildErrorKind::CyclicDependency => "Cyclic dependency detected".to_owned(),
        }
    }

    /// The exit code of a process whose build failed this way.
    pub fn exit_code(&self) -> (r: i32)
        ensures
            r == build_error_code(self@),
    {
        match self {
            BuildErrorKind::FailedInAnotherThread(_) => EXIT_FAILED_IN_ANOTHER_THREAD,
            BuildErrorKind::InvalidTarget(_) => EXIT_INVALID_TARGET,
            BuildErrorKind::CyclicDependency => EXIT_CYCLIC_DEPENDENCY,
            BuildErrorKind::Generic => EXIT_FAILURE,
        }
    }
}

impl Default for BuildErrorKind {
    fn default() -> (r: BuildErrorKind)
        ensures
            r@ == BuildErrorView::Generic,
    {
        BuildErrorKind::Generic
    }
}

/// A failed build: how it failed, and what made it fail.
#[derive(Debug)]
pub struct BuildError {
    pub(crate) kind: BuildErrorKind,
    pub(crate) cause: Option<RedoError>,
}

/// How a build failed, and what made it fail.
pub struct FailureView {
    pub kind: BuildErrorView,
    pub cause: Option<ErrorView>,
}

/// A failure that nothing else caused.
pub open spec fn uncaused(kind: BuildErrorView) -> FailureView {
    FailureView { kind, cause: None }
}

/// What an error says, if there is one.
pub open spec fn opt_error(e: Option<RedoError>) -> Option<ErrorView> {
    match e {
        Some(e) => Some(e@),
        None => None,
    }
}

impl View for BuildError {
    type V = FailureView;

    closed spec fn view(&self) -> FailureView {
        FailureView { kind: self.kind@, cause: opt_error(self.cause) }
    }
}

impl BuildError {
    /// How the build failed.
    pub fn kind(&self) -> (r: &BuildErrorKind)
        ensures
            r@ == self@.kind,
    {
        &self.kind
    }

    /// What made the build fail, if something else did.
    pub fn cause(&self) -> (r: &Option<RedoError>)
        ensures
            opt_error(*r) == self@.cause,
    {
        &self.cause
    }

    /// A failure that nothing else caused.
    pub fn from_kind(kind: BuildErrorKind) -> (r: BuildError)
        ensures
            r@ == uncaused(kind@),
    {
        BuildError { kind, cause: None }
    }

    /// A failure of no particular kind, with its cause.
    pub fn caused_by(cause: RedoError) -> (r: BuildError)
        ensures
            r@ == (FailureView { kind: BuildErrorView::Generic, cause: Some(cause@) }),
    {
        BuildError { kind: BuildErrorKind::Generic, cause: Some(cause) }
    }
}

/// What is done about a target.
#[derive(Debug)]
pub enum Start {
    /// Target doesn't need to be built; skip the whole task.
    Skip {
        /// Whether it is said that the target is unchanged.
        announce: bool,
    },
    /// The target is built.
    BuildSelf,
    /// These are built first, to find out whether the target needs to be.
    BuildDeps(Vec<File>),
}

/// What is done about a target.
pub enum StartView {
    Skip { announce: bool },
    BuildSelf,
    BuildDeps(Seq<FileView>),
}

impl View for Start {
    type V = StartView;

    open spec fn view(&self) -> StartView {
        match self {
            Start::Skip { announce } => StartView::Skip { announce: *announce },
            Start::BuildSelf => StartView::BuildSelf,
            Start::BuildDeps(fs) => StartView::BuildDeps(file_views(fs@)),
        }
    }
}

/// What is done about a target of the given dirtiness.
pub open spec fn start_view(is_target: bool, dirty: DirtView, no_oob: bool) -> StartView {
    match dirty {
        DirtView::Clean => StartView::Skip { announce: is_target },
        DirtView::Dirty => StartView::BuildSelf,
        DirtView::NeedTargets(ts) => if no_oob {
            StartView::BuildSelf
        } else {
            StartView::BuildDeps(ts)
        },
    }
}

/// A target is skipped just if it is clean, and that is said just of one that is generated. Nothing but what has to be built first
/// is built first, and that only where it is allowed; any other target that is not clean is built.
pub proof fn law_only_clean_is_skipped(is_target: bool, dirty: DirtView, no_oob: bool)
    ensures
        start_view(is_target, dirty, no_oob) is Skip <==> dirty is Clean,
        start_view(is_target, dirty, no_oob) matches StartView::Skip { announce } ==> announce == is_target,
        start_view(is_target, dirty, no_oob) matches StartView::BuildDeps(ts) ==> !no_oob && dirty == DirtView::NeedTargets(ts),
        dirty is NeedTargets && !no_oob ==> start_view(is_target, dirty, no_oob) is BuildDeps,
        dirty is Dirty ==> start_view(is_target, dirty, no_oob) is BuildSelf,
{
}

/// What is done about a target of the given dirtiness. Where building other targets first is switched
/// off, one that might be dirty is built.
pub fn start(is_target: bool, dirty: Dirtiness, no_oob: bool) -> (r: Start)
    ensures
        r@ == match dirty@ {
            DirtView::Clean => StartView::Skip { announce: is_target },
            DirtView::Dirty => StartView::BuildSelf,
            DirtView::NeedTargets(ts) => if no_oob {
                StartView::BuildSelf
            } else {
                StartView::BuildDeps(ts)
            },
        },
        r@ == start_view(is_target, dirty@, no_oob),
{
    match dirty {
        Dirtiness::Clean => Start::Skip { announce: is_target },
        Dirtiness::Dirty => Start::BuildSelf,
        Dirtiness::NeedTargets(targets) => if no_oob {
            Start::BuildSelf
        } else {
            Start::BuildDeps(targets)
        },
    }
}

/// What is known of a target before it is built.
#[derive(Clone, Copy, Debug, Eq, PartialEq, Structural)]
pub enum Before {
    /// It is a source: there is nothing to build.
    Static,
    /// Its `.do` file has to be found.
    FindDoFile,
}

/// What is said about a target that someone has modified.
#[derive(Clone, Copy, Debug, Eq, PartialEq, Structural)]
pub enum OverrideNotice {
    /// Nothing is said.
    Silent,
    /// It was known to be modified.
    Known,
    /// It has just been found to be modified: its stamps are shown.
    New,
}

/// What was found out before a target is built: what is to be done, what is said, the file as it is then, and what
/// was written.
pub struct BeforeView {
    pub step: Result<Before, ErrorView>,
    pub notice: OverrideNotice,
    pub file: FileView,
    pub writes: Seq<WriteView>,
}

/// What is said about a target whose stamp is the given one now.
pub open spec fn override_notice(f: FileView, stamp: Seq<char>) -> OverrideNotice {
    if f.is_generated && stamp != "0"@ && (f.is_override || overridden(f.stamp.unwrap(), stamp)) {
        if f.is_override {
            OverrideNotice::Known
        } else {
            OverrideNotice::New
        }
    } else {
        OverrideNotice::Silent
    }
}

/// Whether a target's earlier stamp has to be known to tell if someone has modified it: it is there now, and was generated and
/// not modified before.
pub open spec fn needs_stamp(f: FileView, stamp: Result<Seq<char>, ErrorView>) -> bool {
    stamp matches Ok(s) && s != "0"@ && f.is_generated && !f.is_override
}

/// The end of [`before_build`], once it is known whether someone has modified the target.
pub open spec fn static_or_built(
    f: FileView,
    runid: Option<i64>,
    stamp: Result<Seq<char>, ErrorView>,
    is_file: bool,
    notice: OverrideNotice,
    writes: Seq<WriteView>,
) -> BeforeView {
    if is_file && (f.is_override || !f.is_generated) {
        let g = if f.is_override {
            Ok(f)
        } else {
            made_static(f, runid, stamp)
        };
        match g {
            Err(e) => BeforeView { step: Err(e), notice, file: f, writes },
            Ok(g) => BeforeView {
                step: Ok(Before::Static),
                notice,
                file: g,
                writes: writes.push(WriteView::UpdateFile(row_of_file(g))),
            },
        }
    } else {
        BeforeView { step: Ok(Before::FindDoFile), notice, file: f, writes: writes.push(WriteView::MarkDeps(f.id)) }
    }
}

/// What is found out before a target is built. `is_file` says whether the target exists and
/// is no directory.
pub open spec fn before_build_view(
    f: FileView,
    runid: Option<i64>,
    stamp: Result<Seq<char>, ErrorView>,
    is_file: bool,
) -> BeforeView {
    match stamp {
        Err(e) => BeforeView { step: Err(e), notice: OverrideNotice::Silent, file: f, writes: seq![] },
        Ok(s) => {
            let notice = override_notice(f, s);
            match notice {
                OverrideNotice::Silent => static_or_built(f, runid, stamp, is_file, notice, seq![]),
                OverrideNotice::Known => static_or_built(
                    f,
                    runid,
                    stamp,
                    is_file,
                    notice,
                    seq![WriteView::UpdateFile(row_of_file(f))],
                ),
                OverrideNotice::New => match made_override(f, runid, stamp) {
                    Err(e) => BeforeView { step: Err(e), notice, file: f, writes: seq![] },
                    Ok(g) => static_or_built(
                        g,
                        runid,
                        stamp,
                        is_file,
                        notice,
                        seq![WriteView::UpdateFile(row_of_file(g))],
                    ),
                },
            }
        },
    }
}

/// Finds out whether a target has to be built at all.
///
/// One that someone has modified is treated the same as a static file. An existing source file that was not
/// generated by us is not built. This step is mentioned by djb in his notes.
/// For example, a rule called default.c.do could be used to try
/// to produce hello.c, but we don't want that to happen if
/// hello.c was created by the end user.
pub fn before_build(ptx: &mut ProcessTransaction, sf: &mut File, seen: &Observed, is_file: bool) -> (r: (
    Result<Before, RedoError>,
    OverrideNotice,
))
    requires
        needs_stamp(old(sf)@, stamp_of_seen(*seen)) ==> old(sf)@.stamp is Some,
    ensures
        ({
            let b = before_build_view(old(sf)@, old(ptx).settings().runid, stamp_of_seen(*seen), is_file);
            &&& (match r.0 {
                Ok(x) => Ok(x),
                Err(e) => Err(e@),
            }) == b.step
            &&& r.1 == b.notice
            &&& final(sf)@ == b.file
            &&& final(ptx).wrote_all(old(ptx), b.writes)
        }),
{
    let ghost before = *ptx;
    let ghost runid = ptx.settings().runid;
    let ghost stamp = stamp_of_seen(*seen);
    let ghost mut ws: Seq<WriteView> = seq![];
    assert(before.writes() + ws =~= before.writes());
    assert(replay(before.db(), ws) == before.db());
    let newstamp = match sf.read_stamp(seen) {
        Ok(s) => s,
        Err(e) => return (Err(e), OverrideNotice::Silent),
    };
    let mut notice = OverrideNotice::Silent;
    if sf.is_generated() && !newstamp.is_missing() {
        let modified = if sf.is_override() {
            true
        } else {
            match sf.stamp() {
                Some(old_stamp) => Stamp::detect_override(old_stamp, &newstamp),
                None => false,
            }
        };
        if modified {
            if sf.is_override() {
                notice = OverrideNotice::Known;
            } else {
                notice = OverrideNotice::New;
                match sf.set_override(ptx.state().env(), seen) {
                    Err(e) => return (Err(e), notice),
                    Ok(_) => {},
                }
            }
            let ghost w = WriteView::UpdateFile(row_of_file(sf@));
            sf.save(ptx);
            proof {
                lemma_one_write(&before, ptx, w);
                ws = seq![w];
            }
            // Fall through and treat it the same as a static file.
        }
    }
    let ghost f1 = sf@;
    let ghost mid = *ptx;
    assert(before_build_view(old(sf)@, runid, stamp, is_file) == static_or_built(f1, runid, stamp, is_file, notice, ws));
    if is_file && (sf.is_override() || !sf.is_generated()) {
        if !sf.is_override() {
            match sf.set_static(ptx.state().env(), seen) {
                Err(e) => return (Err(e), notice),
                Ok(_) => {},
            }
        }
        let ghost w = WriteView::UpdateFile(row_of_file(sf@));
        sf.save(ptx);
        proof {
            lemma_more_writes(&before, &mid, ptx, ws, w);
        }
        return (Ok(Before::Static), notice);
    }
    let ghost w = WriteView::MarkDeps(sf@.id);
    sf.zap_deps1(ptx);
    proof {
        lemma_more_writes(&before, &mid, ptx, ws, w);
    }
    (Ok(Before::FindDoFile), notice)
}

proof fn lemma_one_write(before: &ProcessTransaction, after: &ProcessTransaction, w: WriteView)
    requires
        after.wrote(before, w),
    ensures
        after.wrote_all(before, seq![w]),
{
    reveal_with_fuel(replay, 2);
    assert(seq![w].drop_last() =~= seq![]);
    assert(before.writes().push(w) =~= before.writes() + seq![w]);
}

proof fn lemma_more_writes(
    before: &ProcessTransaction,
    mid: &ProcessTransaction,
    after: &ProcessTransaction,
    ws: Seq<WriteView>,
    w: WriteView,
)
    requires
        mid.wrote_all(before, ws),
        after.wrote(mid, w),
    ensures
        after.wrote_all(before, ws.push(w)),
{
    assert(ws.push(w).drop_last() =~= ws);
    assert((before.writes() + ws).push(w) =~= before.writes() + ws.push(w));
}

/// What becomes of a target without a `.do` file: one that exists is a source, any other has failed.
pub open spec fn no_rule_view(f: FileView, runid: Option<i64>, stamp: Result<Seq<char>, ErrorView>, there: bool) -> Result<
    (i32, FileView),
    ErrorView,
> {
    if there {
        match made_static(f, runid, stamp) {
            Ok(g) => Ok((EXIT_SUCCESS, g)),
            Err(e) => Err(e),
        }
    } else {
        match failed_in(f, runid, stamp) {
            Ok(g) => Ok((EXIT_FAILURE, g)),
            Err(e) => Err(e),
        }
    }
}

/// Takes note of a target without a `.do` file. Gives the exit code of the job.
pub fn no_rule(ptx: &mut ProcessTransaction, sf: &mut File, seen: &Observed, there: bool) -> (r: Result<i32, RedoError>)
    ensures
        match no_rule_view(old(sf)@, old(ptx).settings().runid, stamp_of_seen(*seen), there) {
            Err(e) => r matches Err(err) && err@ == e && final(sf)@ == old(sf)@ && *final(ptx) == *old(ptx),
            Ok((rv, g)) => {
                &&& r == Ok::<i32, RedoError>(rv)
                &&& final(sf)@ == g
                &&& final(ptx).wrote(old(ptx), WriteView::UpdateFile(row_of_file(g)))
            },
        },
{
    let rv: i32 = if there {
        match sf.set_static(ptx.state().env(), seen) {
            Err(e) => return Err(e),
            Ok(_) => EXIT_SUCCESS,
        }
    } else {
        match sf.set_failed(ptx.state().env(), seen) {
            Err(e) => return Err(e),
            Ok(_) => EXIT_FAILURE,
        }
    };
    sf.save(ptx);
    Ok(rv)
}

/// What is to be done to build a target.
#[derive(Debug)]
pub enum Plan {
    /// Nothing more: the job ends with this exit code.
    Over(i32),
    /// The `.do` file is run.
    Run(DoFile),
    /// Nothing can be done: the target would be its own `.do` file.
    DependsOnItself(DoFile),
}

/// What is to be done to build a target.
pub enum PlanView {
    Over(i32),
    Run(DoFileView),
    DependsOnItself(DoFileView),
}

impl View for Plan {
    type V = PlanView;

    open spec fn view(&self) -> PlanView {
        match self {
            Plan::Over(rv) => PlanView::Over(*rv),
            Plan::Run(d) => PlanView::Run(d@),
            Plan::DependsOnItself(d) => PlanView::DependsOnItself(d@),
        }
    }
}

/// What was planned for a target: what is to be done, what is said, the file as it is then, and what was written.
pub struct PlannedView {
    pub plan: Result<PlanView, ErrorView>,
    pub notice: OverrideNotice,
    pub file: FileView,
    pub writes: Seq<WriteView>,
}

/// What is planned once the `.do` file of a target has been looked for.
pub open spec fn plan_after_search(
    b: BeforeView,
    found: Result<SearchView, ErrorView>,
    writes: Seq<WriteView>,
    runid: Option<i64>,
    stamp: Result<Seq<char>, ErrorView>,
    there: bool,
) -> PlannedView {
    let unchanged = |plan: Result<PlanView, ErrorView>| PlannedView { plan, notice: b.notice, file: b.file, writes };
    match found {
        Err(e) => unchanged(Err(e)),
        Ok(SearchView::Found(d)) => unchanged(Ok(PlanView::Run(d))),
        Ok(SearchView::DependsOnItself(d)) => unchanged(Ok(PlanView::DependsOnItself(d))),
        Ok(SearchView::NotFound) => match no_rule_view(b.file, runid, stamp, there) {
            Err(e) => unchanged(Err(e)),
            Ok((rv, g)) => PlannedView {
                plan: Ok(PlanView::Over(rv)),
                notice: b.notice,
                file: g,
                writes: writes.push(WriteView::UpdateFile(row_of_file(g))),
            },
        },
    }
}

/// What is planned for a target: one that is a source is left alone; for any other, the `.do` file is looked for.
pub open spec fn planned(
    f: FileView,
    db: Db,
    env: Env,
    stamp: Result<Seq<char>, ErrorView>,
    is_file: bool,
    there: bool,
    looks: Seq<Look>,
) -> PlannedView {
    let b = before_build_view(f, env.runid, stamp, is_file);
    match b.step {
        Err(e) => PlannedView { plan: Err(e), notice: b.notice, file: b.file, writes: b.writes },
        Ok(Before::Static) => PlannedView {
            plan: Ok(PlanView::Over(EXIT_SUCCESS)),
            notice: b.notice,
            file: b.file,
            writes: b.writes,
        },
        Ok(Before::FindDoFile) => {
            let (found, ws) = searched(candidates(env.base@, f.name), looks, f.id, replay(db, b.writes), env);
            plan_after_search(b, found, b.writes + ws, env.runid, stamp, there)
        },
    }
}

/// Plans how a target is built. `there` says whether the target exists, `is_file` whether it also is no directory, and
/// `looks` what was found out about the `.do` files that might build it.
pub fn plan_build(
    ptx: &mut ProcessTransaction,
    sf: &mut File,
    seen: &Observed,
    is_file: bool,
    there: bool,
    looks: &Vec<Look>,
) -> (r: (Result<Plan, RedoError>, OverrideNotice))
    requires
        needs_stamp(old(sf)@, stamp_of_seen(*seen)) ==> old(sf)@.stamp is Some,
        is_rooted(old(ptx).settings().base@),
        normalized(absolute(old(ptx).settings().base@, old(sf)@.name)) != seq![SEP],
        enough_looks(candidates(old(ptx).settings().base@, old(sf)@.name).len(), looks@),
    ensures
        ({
            let p = planned(
                old(sf)@,
                old(ptx).db(),
                old(ptx).settings(),
                stamp_of_seen(*seen),
                is_file,
                there,
                looks@,
            );
            &&& (match r.0 {
                Ok(x) => Ok(x@),
                Err(e) => Err(e@),
            }) == p.plan
            &&& r.1 == p.notice
            &&& final(sf)@ == p.file
            &&& final(ptx).wrote_all(old(ptx), p.writes)
        }),
{
    let ghost env = ptx.settings();
    let ghost before = *ptx;
    let ghost stamp = stamp_of_seen(*seen);
    let ghost b = before_build_view(sf@, env.runid, stamp, is_file);
    let (step, notice) = before_build(ptx, sf, seen, is_file);
    match step {
        Err(e) => return (Err(e), notice),
        Ok(Before::Static) => return (Ok(Plan::Over(EXIT_SUCCESS)), notice),
        Ok(Before::FindDoFile) => {},
    }
    let ghost mid = *ptx;
    let ghost (res, ws) = searched(candidates(env.base@, sf@.name), looks@, sf@.id, mid.db(), env);
    let found = find_do_file(ptx, sf, looks);
    let ghost last = *ptx;
    proof {
        lemma_replay_concat(before.db(), b.writes, ws);
        assert(before.writes() + (b.writes + ws) =~= (before.writes() + b.writes) + ws);
        assert(last.wrote_all(&before, b.writes + ws));
    }
    match found {
        Err(e) => (Err(e), notice),
        Ok(Search::Found(d)) => (Ok(Plan::Run(d)), notice),
        Ok(Search::DependsOnItself(d)) => (Ok(Plan::DependsOnItself(d)), notice),
        Ok(Search::NotFound) => match no_rule(ptx, sf, seen, there) {
            Err(e) => (Err(e), notice),
            Ok(rv) => {
                proof {
                    lemma_more_writes(
                        &before,
                        &last,
                        ptx,
                        b.writes + ws,
                        WriteView::UpdateFile(row_of_file(sf@)),
                    );
                }
                (Ok(Plan::Over(rv)), notice)
            },
        },
    }
}

/// Nothing that the user made is built over: a file that we did not generate, or that someone has modified since, is left
/// alone as long as it is there.
pub proof fn law_sources_are_left_alone(
    f: FileView,
    db: Db,
    env: Env,
    stamp: Seq<char>,
    there: bool,
    looks: Seq<Look>,
)
    requires
        !f.is_generated || f.is_override || (stamp != "0"@ && overridden(f.stamp.unwrap(), stamp)),
    ensures
        !(planned(f, db, env, Ok(stamp), true, there, looks).plan matches Ok(PlanView::Run(_))),
{
}

/// What noting the `.do` file of a target comes to, and what is written: it is a source, whatever it was before.
pub open spec fn noted_do_file(path: Seq<u8>, db: Db, env: Env, stamp: Result<Seq<char>, ErrorView>, places: Places) -> (
    Result<(), ErrorView>,
    Seq<WriteView>,
) {
    match db_name(path, env.base@, places) {
        Err(e) => (Err(e), seq![]),
        Ok(n) => {
            let (res, w) = looked_up(db, n, env.runid, true);
            let ws = match w {
                None => seq![],
                Some(w) => seq![w],
            };
            match res {
                Err(e) => (Err(e), ws),
                Ok(f) => match made_static(f, env.runid, stamp) {
                    Err(e) => (Err(e), ws),
                    Ok(g) => (Ok(()), ws.push(WriteView::UpdateFile(row_of_file(g)))),
                },
            }
        },
    }
}

/// Takes note that a `.do` file, which is about to be run, is a source. `places` is what the file system says about its path.
pub fn note_do_file(ptx: &mut ProcessTransaction, df: &DoFile, seen: &Observed, places: &Places) -> (r: Result<
    (),
    RedoError,
>)
    requires
        is_rooted(old(ptx).settings().base@),
    ensures
        ({
            let (res, ws) = noted_do_file(
                pushed(df@.do_dir, df@.do_file),
                old(ptx).db(),
                old(ptx).settings(),
                stamp_of_seen(*seen),
                *places,
            );
            &&& (match r {
                Ok(_) => Ok(()),
                Err(e) => Err(e@),
            }) == res
            &&& final(ptx).wrote_all(old(ptx), ws)
        }),
{
    let ghost before = *ptx;
    assert(before.writes() + seq![] =~= before.writes());
    assert(replay(before.db(), seq![]) == before.db());
    let path = join_path(df.do_dir.as_slice(), df.do_file.as_slice());
    let found = File::from_name(ptx, path.as_slice(), places, true);
    let ghost mid = *ptx;
    let ghost mut ws: Seq<WriteView> = seq![];
    proof {
        if let Ok(n) = db_name(path@, before.settings().base@, *places) {
            if let Some(w) = looked_up(before.db(), n, before.settings().runid, true).1 {
                lemma_one_write(&before, &mid, w);
                ws = seq![w];
            }
        }
        assert(mid.wrote_all(&before, ws));
    }
    match found {
        Err(e) => Err(e),
        Ok(mut f) => {
            match f.set_static(ptx.state().env(), seen) {
                Err(e) => return Err(e),
                Ok(_) => {},
            }
            f.save(ptx);
            proof {
                lemma_more_writes(&before, &mid, ptx, ws, WriteView::UpdateFile(row_of_file(f@)));
            }
            Ok(())
        },
    }
}

/// The name of the target, as seen from the directory of the `.do` file.
pub open spec fn target_arg(df: DoFileView) -> Seq<u8> {
    df.base_name + df.ext
}

/// The name of the temporary file for the target's contents.
pub open spec fn tmp_name_of(df: DoFileView) -> Seq<u8> {
    pushed(df.do_dir, df.base_name + df.ext + ".redo.tmp".spec_bytes())
}

/// The name of the temporary file for the target's contents.
///
/// The $3 temp filename can be hardcoded to be in
/// the target directory, even if that directory does not exist.
/// It's not *redo*'s job to create that file.  The .do file will
/// create it, if it wants, and it's the .do file's job to first ensure
/// that the directory exists.
pub fn tmp_name(df: &DoFile) -> (r: Vec<u8>)
    ensures
        r@ == tmp_name_of(df@),
{
    let mut n = copy_bytes(df.base_name.as_slice());
    append_bytes(&mut n, df.ext.as_slice());
    append_bytes(&mut n, ".redo.tmp".as_bytes());
    join_path(df.do_dir.as_slice(), n.as_slice())
}

/// The shell's option argument.
pub open spec fn shell_flags(verbose: bool, xtrace: bool) -> Seq<u8> {
    "-e".spec_bytes() + (if verbose {
        "v".spec_bytes()
    } else {
        seq![]
    }) + (if xtrace {
        "x".spec_bytes()
    } else {
        seq![]
    })
}

/// The arguments of a `.do` file: its name, `$1`, `$2` and `$3`.
pub open spec fn do_args(df: DoFileView, tmp: Seq<u8>) -> Seq<Seq<u8>> {
    seq![df.do_file, target_arg(df), df.base_name, tmp]
}

/// Whether the first line of a `.do` file names an interpreter.
pub open spec fn names_interpreter(line: Seq<char>) -> bool {
    line.len() >= 3 && line[0] == '#' && line[1] == '!' && line[2] == '/'
}

/// The texts as bytes.
pub open spec fn encoded(words: Seq<Seq<char>>) -> Seq<Seq<u8>> {
    words.map_values(|w: Seq<char>| encode_utf8(w))
}

/// The command that runs a `.do` file whose first line is the given one.
pub open spec fn do_command(df: DoFileView, tmp: Seq<u8>, verbose: bool, xtrace: bool, firstline: Seq<char>) -> Seq<Seq<u8>> {
    let line = trimmed(trimmed_front(firstline));
    if names_interpreter(line) {
        encoded(split(line.skip(2), ' ')) + do_args(df, tmp)
    } else {
        seq!["sh".spec_bytes(), shell_flags(verbose, xtrace)] + do_args(df, tmp)
    }
}

/// The command that runs a `.do` file. `tmp` is the temporary file for the target's contents as seen from the
/// directory of the `.do` file, where the command runs.
pub fn do_argv(df: &DoFile, tmp: &[u8], env: &Env, firstline: &str) -> (r: Vec<Vec<u8>>)
    ensures
        views(r@) == do_command(df@, tmp@, env.verbose != 0, env.xtrace != 0, firstline@),
{
    let line = trim(firstline);
    let c = to_chars(line.as_str());
    let mut argv: Vec<Vec<u8>> = Vec::new();
    if c.len() >= 3 && c[0] == '#' && c[1] == '!' && c[2] == '/' {
        let rest = vstd::slice::slice_subrange(c.as_slice(), 2, c.len());
        assert(rest@ =~= c@.skip(2));
        let words = split_chars(rest, ' ');
        let mut i: usize = 0;
        while i < words.len()
            invariant
                i <= words.len(),
                argv.len() == i,
                forall|k: int| 0 <= k < i ==> (#[trigger] argv@[k])@ == encode_utf8(words@[k]@),
            decreases words.len() - i,
        {
            argv.push(copy_bytes(words[i].as_str().as_bytes()));
            i = i + 1;
        }
        assert(views(argv@) =~= encoded(strings(words@)));
    } else {
        argv.push(copy_bytes("sh".as_bytes()));
        let mut flags = copy_bytes("-e".as_bytes());
        if env.verbose != 0 {
            append_bytes(&mut flags, "v".as_bytes());
        }
        if env.xtrace != 0 {
            append_bytes(&mut flags, "x".as_bytes());
        }
        assert(flags@ =~= shell_flags(env.verbose != 0, env.xtrace != 0));
        argv.push(flags);
        assert(views(argv@) =~= seq!["sh".spec_bytes(), flags@]);
    }
    let ghost head = argv@;
    argv.push(copy_bytes(df.do_file.as_slice()));
    let mut arg1 = copy_bytes(df.base_name.as_slice());
    append_bytes(&mut arg1, df.ext.as_slice());
    argv.push(arg1);
    argv.push(copy_bytes(df.base_name.as_slice()));
    argv.push(copy_bytes(tmp));
    assert(views(argv@) =~= views(head) + do_args(df@, tmp@));
    argv
}

/// A byte, or a space in place of a line feed.
pub open spec fn on_one_line(b: Seq<u8>) -> Seq<u8> {
    b.map_values(|c: u8| if c == 0x0a { 0x20u8 } else { c })
}

/// A command as it is shown before it runs.
pub open spec fn shown_command(argv: Seq<Seq<u8>>) -> Seq<u8>
    decreases argv.len(),
{
    if argv.len() == 0 {
        seq![0x2au8]
    } else {
        shown_command(argv.drop_last()) + seq![0x20u8] + on_one_line(argv.last())
    }
}

/// A command as it is shown before it runs: an asterisk and its words, all on one line.
pub fn show_command(argv: &Vec<Vec<u8>>) -> (r: Vec<u8>)
    ensures
        r@ == shown_command(views(argv@)),
{
    let mut out: Vec<u8> = Vec::new();
    out.push(0x2a);
    let ghost all = views(argv@);
    let mut i: usize = 0;
    assert(all.take(0) =~= seq![]);
    assert(out@ =~= seq![0x2au8]);
    while i < argv.len()
        invariant
            i <= argv.len(),
            all == views(argv@),
            out@ == shown_command(all.take(i as int)),
        decreases argv.len() - i,
    {
        let ghost before = out@;
        let ghost word = argv@[i as int]@;
        out.push(0x20);
        let mut k: usize = 0;
        assert(out@ =~= before + seq![0x20u8] + on_one_line(word.take(0)));
        while k < argv[i].len()
            invariant
                i < argv.len(),
                word == argv@[i as int]@,
                k <= word.len(),
                out@ == before + seq![0x20u8] + on_one_line(word.take(k as int)),
            decreases word.len() - k,
        {
            let b: u8 = argv[i][k];
            if b == 0x0a {
                out.push(0x20);
            } else {
                out.push(b);
            }
            k = k + 1;
            assert(out@ =~= before + seq![0x20u8] + on_one_line(word.take(k as int)));
        }
        proof {
            assert(word.take(k as int) =~= word);
            assert(all.take(i + 1).drop_last() =~= all.take(i as int));
            assert(all.take(i + 1).last() == word);
        }
        i = i + 1;
    }
    assert(all.take(i as int) =~= all);
    out
}

/// A change to the environment of a process.
#[derive(Debug)]
pub enum EnvChange {
    Put(&'static str, Vec<u8>),
    Remove(&'static str),
}

/// A change to the environment of a process.
pub enum EnvChangeView {
    Put(Seq<char>, Seq<u8>),
    Remove(Seq<char>),
}

impl View for EnvChange {
    type V = EnvChangeView;

    open spec fn view(&self) -> EnvChangeView {
        match self {
            EnvChange::Put(n, v) => EnvChangeView::Put(n@, v@),
            EnvChange::Remove(n) => EnvChangeView::Remove(n@),
        }
    }
}

/// Changes, in order.
pub open spec fn change_views(v: Seq<EnvChange>) -> Seq<EnvChangeView> {
    v.map_values(|c: EnvChange| c@)
}

/// One change if a condition holds.
pub open spec fn change_if(yes: bool, c: EnvChangeView) -> Seq<EnvChangeView> {
    if yes {
        seq![c]
    } else {
        seq![]
    }
}

/// The depth of messages of a process that this one starts.
pub open spec fn deeper(depth: Seq<u8>) -> Seq<u8> {
    depth + "  ".spec_bytes()
}

/// How the environment of a process that builds dependencies of a target differs from ours.
pub fn unlocked_changes(env: &Env) -> (r: Vec<EnvChange>)
    ensures
        change_views(r@) == seq![EnvChangeView::Put("REDO_DEPTH"@, deeper(env.depth@))],
{
    let mut out: Vec<EnvChange> = Vec::new();
    out.push(EnvChange::Put("REDO_DEPTH", deepen(env.depth.as_slice())));
    assert(change_views(out@) =~= seq![EnvChangeView::Put("REDO_DEPTH"@, deeper(env.depth@))]);
    out
}

fn deepen(depth: &[u8]) -> (r: Vec<u8>)
    ensures
        r@ == deeper(depth@),
{
    let mut r = copy_bytes(depth);
    append_bytes(&mut r, "  ".as_bytes());
    r
}

/// How the environment of a process that runs a `.do` file differs from ours, as far as its target
/// goes. `pwd` is the directory of the `.do` file as seen from where redo was started.
pub open spec fn job_env(env: Env, df: DoFileView, pwd: Seq<u8>) -> Seq<EnvChangeView> {
    seq![
        EnvChangeView::Remove("CDPATH"@),
        EnvChangeView::Put("REDO_PWD"@, pwd),
        EnvChangeView::Put("REDO_TARGET"@, target_arg(df)),
        EnvChangeView::Put("REDO_DEPTH"@, deeper(env.depth@)),
    ] + change_if(env.xtrace == 1, EnvChangeView::Put("REDO_XTRACE"@, "0".spec_bytes())) + change_if(
        env.verbose == 1,
        EnvChangeView::Put("REDO_VERBOSE"@, "0".spec_bytes()),
    )
}

/// How the environment of a process that runs a `.do` file differs from ours.
///
/// careful: REDO_PWD was the PWD relative to the STARTPATH at the time
/// we *started* building the current target; but that target ran
/// redo-ifchange, and it might have done it from a different directory
/// than we started it in.  So the current directory might be != REDO_PWD right
/// now.
///
/// CDPATH apparently caused unexpected 'cd' output on some platforms.
pub fn job_changes(env: &Env, df: &DoFile, pwd: &[u8], cycles_var: Option<&str>, fid: i64) -> (r: Vec<EnvChange>)
    ensures
        ({
            let base = job_env(*env, df@, pwd@);
            let held = cycles::held(cycles::opt_str(cycles_var)).contains(decimal_int(fid as int));
            &&& held ==> change_views(r@) == base
            &&& !held ==> {
                &&& r@.len() == base.len() + 1
                &&& change_views(r@).take(base.len() as int) == base
                &&& change_views(r@)[base.len() as int] matches EnvChangeView::Put(n, v) && n == "REDO_CYCLES"@ && exists|
                    text: Seq<char>,
                |
                    v == encode_utf8(text) && #[trigger] cycles::listed(Some(text)) == cycles::listed(
                        cycles::opt_str(cycles_var),
                    ) + split(decimal_int(fid as int), ':')
            }
        }),
{
    let mut out: Vec<EnvChange> = Vec::new();
    out.push(EnvChange::Remove("CDPATH"));
    out.push(EnvChange::Put("REDO_PWD", copy_bytes(pwd)));
    let mut target = copy_bytes(df.base_name.as_slice());
    append_bytes(&mut target, df.ext.as_slice());
    out.push(EnvChange::Put("REDO_TARGET", target));
    out.push(EnvChange::Put("REDO_DEPTH", deepen(env.depth.as_slice())));
    assert(change_views(out@) =~= seq![
        EnvChangeView::Remove("CDPATH"@),
        EnvChangeView::Put("REDO_PWD"@, pwd@),
        EnvChangeView::Put("REDO_TARGET"@, target_arg(df@)),
        EnvChangeView::Put("REDO_DEPTH"@, deeper(env.depth@)),
    ]);
    if env.xtrace == 1 {
        out.push(EnvChange::Put("REDO_XTRACE", copy_bytes("0".as_bytes())));
    }
    if env.verbose == 1 {
        out.push(EnvChange::Put("REDO_VERBOSE", copy_bytes("0".as_bytes())));
    }
    assert(change_views(out@) =~= job_env(*env, df@, pwd@));
    let ghost base = out@;
    match cycles::add(cycles_var, dec_i64(fid).as_str()) {
        None => {},
        Some(v) => {
            out.push(EnvChange::Put("REDO_CYCLES", copy_bytes(v.as_str().as_bytes())));
            proof {
                assert(change_views(out@).take(base.len() as int) =~= change_views(base));
                assert(cycles::listed(Some(v@)) == cycles::listed(cycles::opt_str(cycles_var)) + split(
                    decimal_int(fid as int),
                    ':',
                ));
            }
        },
    }
    out
}

/// Where the messages of a process that runs a `.do` file go.
#[derive(Clone, Copy, Debug, Eq, PartialEq, Structural)]
pub enum LogTarget {
    /// To a log of its own.
    Own,
    /// Where ours go.
    Inherited,
    /// Nowhere in particular: logs are switched off.
    Off,
}

/// Where the messages of a process that runs a `.do` file go. `inode` is that of what our messages go to.
///
/// If the .do script has *not* redirected stderr, we're
/// using redo-log's log saving mode.  That means subprocs
/// should be logged to their own file.  If the .do script
/// *does* redirect stderr, that redirection should be inherited
/// by subprocs, so we'd do nothing.
pub fn log_target(env: &Env, inode: &[u8]) -> (r: LogTarget)
    ensures
        r == if !env.log.resolved(true) {
            LogTarget::Off
        } else if env.log_inode@.len() == 0 || env.log_inode@ == inode@ {
            LogTarget::Own
        } else {
            LogTarget::Inherited
        },
{
    if !env.log.unwrap_or(true) {
        LogTarget::Off
    } else if env.log_inode.len() == 0 || bytes_eq(env.log_inode.as_slice(), inode) {
        LogTarget::Own
    } else {
        LogTarget::Inherited
    }
}

/// How the environment of a process that runs a `.do` file differs from ours, as far as its log
/// goes. `new_inode` is that of its own log.
pub open spec fn log_env(target: LogTarget, new_inode: Seq<u8>) -> Seq<EnvChangeView> {
    match target {
        LogTarget::Own => seq![
            EnvChangeView::Put("REDO_LOG"@, "1".spec_bytes()),
            EnvChangeView::Put("REDO_LOG_INODE"@, new_inode),
        ],
        LogTarget::Inherited => seq![],
        LogTarget::Off => seq![
            EnvChangeView::Remove("REDO_LOG_INODE"@),
            EnvChangeView::Put("REDO_LOG"@, "0".spec_bytes()),
        ],
    }
}

/// How the environment of a process that runs a `.do` file differs from ours, as far as its log goes.
pub fn log_changes(target: LogTarget, new_inode: &[u8]) -> (r: Vec<EnvChange>)
    ensures
        change_views(r@) == log_env(target, new_inode@),
{
    let mut out: Vec<EnvChange> = Vec::new();
    match target {
        LogTarget::Own => {
            // .do files can check this
            out.push(EnvChange::Put("REDO_LOG", copy_bytes("1".as_bytes())));
            out.push(EnvChange::Put("REDO_LOG_INODE", copy_bytes(new_inode)));
        },
        LogTarget::Inherited => {},
        LogTarget::Off => {
            out.push(EnvChange::Remove("REDO_LOG_INODE"));
            out.push(EnvChange::Put("REDO_LOG", copy_bytes("0".as_bytes())));
        },
    }
    assert(change_views(out@) =~= log_env(target, new_inode@));
    out
}

/// Names without those that occur before.
pub open spec fn distinct(names: Seq<Seq<u8>>) -> Seq<Seq<u8>>
    decreases names.len(),
{
    if names.len() == 0 {
        seq![]
    } else {
        let init = distinct(names.drop_last());
        if init.contains(names.last()) {
            init
        } else {
            init.push(names.last())
        }
    }
}

/// The command that builds the given targets to find out whether `own` is dirty. Names are as seen
/// from the current directory; each is given once.
pub fn unlocked_argv(own: &[u8], targets: &Vec<Vec<u8>>) -> (r: Vec<Vec<u8>>)
    ensures
        views(r@) == seq!["redo-unlocked".spec_bytes(), own@] + distinct(views(targets@)),
{
    let mut argv: Vec<Vec<u8>> = Vec::new();
    argv.push(copy_bytes("redo-unlocked".as_bytes()));
    argv.push(copy_bytes(own));
    let ghost all = views(targets@);
    let ghost head = seq!["redo-unlocked".spec_bytes(), own@];
    let mut i: usize = 0;
    assert(all.take(0) =~= seq![]);
    assert(views(argv@) =~= head + distinct(all.take(0)));
    while i < targets.len()
        invariant
            i <= targets.len(),
            all == views(targets@),
            head.len() == 2,
            views(argv@) == head + distinct(all.take(i as int)),
        decreases targets.len() - i,
    {
        let ghost init = distinct(all.take(i as int));
        proof {
            assert(all.take(i + 1).drop_last() =~= all.take(i as int));
            assert(all.take(i + 1).last() == targets@[i as int]@);
            assert(views(argv@).len() == argv@.len());
            assert(forall|k: int| 0 <= k < init.len() ==> init[k] == views(argv@)[k + 2]);
        }
        let mut found = false;
        let mut k: usize = 2;
        while k < argv.len()
            invariant
                2 <= k <= argv.len(),
                i < targets.len(),
                init.len() + 2 == argv@.len(),
                forall|j: int| 0 <= j < init.len() ==> init[j] == (#[trigger] argv@[j + 2])@,
                found == exists|j: int| 2 <= j < k && (#[trigger] argv@[j])@ == targets@[i as int]@,
            decreases argv.len() - k,
        {
            if bytes_eq(argv[k].as_slice(), targets[i].as_slice()) {
                found = true;
            }
            k = k + 1;
        }
        proof {
            if found {
                let j = choose|j: int| 2 <= j < argv@.len() && (#[trigger] argv@[j])@ == targets@[i as int]@;
                assert(init[j - 2] == targets@[i as int]@);
            } else if init.contains(targets@[i as int]@) {
                let j = choose|j: int| 0 <= j < init.len() && init[j] == targets@[i as int]@;
                assert(argv@[j + 2]@ == targets@[i as int]@);
            }
        }
        let ghost before = argv@;
        if !found {
            argv.push(copy_bytes(targets[i].as_slice()));
            assert(views(argv@) =~= views(before).push(targets@[i as int]@));
        }
        i = i + 1;
        assert(views(argv@) =~= head + distinct(all.take(i as int)));
    }
    assert(all.take(i as int) =~= all);
    argv
}

/// Every name is there, and none is there twice.
pub proof fn law_distinct(names: Seq<Seq<u8>>, x: Seq<u8>)
    ensures
        distinct(names).contains(x) <==> names.contains(x),
        distinct(names).no_duplicates(),
    decreases names.len(),
{
    if names.len() > 0 {
        let init = names.drop_last();
        let d = distinct(init);
        law_distinct(init, x);
        law_distinct(init, names.last());
        assert(names =~= init.push(names.last()));
        if names.contains(x) && !init.contains(x) {
            let i = choose|i: int| 0 <= i < names.len() && names[i] == x;
            if i < init.len() {
                assert(init[i] == x);
            }
        }
        if init.contains(x) {
            let i = choose|i: int| 0 <= i < init.len() && init[i] == x;
            assert(names[i] == x);
        }
        assert(names[names.len() - 1] == names.last());
        if !d.contains(names.last()) {
            let e = d.push(names.last());
            if d.contains(x) {
                let i = choose|i: int| 0 <= i < d.len() && d[i] == x;
                assert(e[i] == x);
            }
            assert(e[d.len() as int] == names.last());
            if e.contains(x) && !d.contains(x) {
                let i = choose|i: int| 0 <= i < e.len() && e[i] == x;
                if i < d.len() {
                    assert(d[i] == x);
                }
            }
            assert forall|i: int, j: int| 0 <= i < e.len() && 0 <= j < e.len() && i != j implies e[i] != e[j] by {
                if i < d.len() && j == d.len() {
                    assert(d.contains(d[i]));
                } else if j < d.len() && i == d.len() {
                    assert(d.contains(d[j]));
                }
            }
        }
    }
}

/// What is known of the target's file when a job starts or ends.
#[derive(Clone, Copy, Debug)]
pub struct FileTimes {
    pub is_dir: bool,
    /// When it was last modified, in seconds and nanoseconds, if that is known.
    pub mtime: Option<(i64, u32)>,
}

/// What is wrong with what a `.do` file did.
#[derive(Clone, Copy, Debug, Eq, PartialEq, Structural)]
pub enum Mistake {
    /// Nothing.
    Nothing,
    /// It wrote to `$1`, where it should write to `$3` or to standard output.
    WroteTarget,
    /// It wrote to standard output and to `$3`.
    TwoOutputs,
}

/// Whether a job has written to its target directly.
pub open spec fn target_modified(before: Option<FileTimes>, after: Option<FileTimes>) -> bool {
    match after {
        None => false,
        Some(a) => !a.is_dir && match before {
            None => true,
            Some(b) => b.mtime is Some && a.mtime is Some && b.mtime != a.mtime,
        },
    }
}

/// What is wrong with what a `.do` file did.
pub open spec fn mistake_of(before: Option<FileTimes>, after: Option<FileTimes>, stdout_size: int, tmp_there: bool) -> Mistake {
    if target_modified(before, after) {
        Mistake::WroteTarget
    } else if tmp_there && stdout_size > 0 {
        Mistake::TwoOutputs
    } else {
        Mistake::Nothing
    }
}

/// The exit code of a job whose process ended with the given one, once it has been judged.
pub open spec fn judged(rv: i32, mistake: Mistake) -> i32 {
    match mistake {
        Mistake::Nothing => rv,
        Mistake::WroteTarget => EXIT_TARGET_DIRECTLY_MODIFIED,
        Mistake::TwoOutputs => EXIT_MULTIPLE_OUTPUTS,
    }
}

/// Judges what a `.do` file did: gives what is wrong with it, and the exit code of the job.
pub fn judge(rv: i32, before: Option<FileTimes>, after: Option<FileTimes>, stdout_size: u64, tmp_there: bool) -> (r: (
    Mistake,
    i32,
))
    ensures
        r.0 == mistake_of(before, after, stdout_size as int, tmp_there),
        r.1 == judged(rv, r.0),
{
    let modified = match after {
        None => false,
        Some(a) => !a.is_dir && match before {
            None => true,
            Some(b) => match (b.mtime, a.mtime) {
                (Some(x), Some(y)) => x.0 != y.0 || x.1 != y.1,
                _ => false,
            },
        },
    };
    if modified {
        (Mistake::WroteTarget, EXIT_TARGET_DIRECTLY_MODIFIED)
    } else if tmp_there && stdout_size > 0 {
        (Mistake::TwoOutputs, EXIT_MULTIPLE_OUTPUTS)
    } else {
        (Mistake::Nothing, rv)
    }
}

/// What is done with the output of a job.
#[derive(Clone, Copy, Debug, Eq, PartialEq, Structural)]
pub enum OutputStep {
    /// What it wrote to standard output is copied to the temporary file.
    CopyStdout,
    /// The temporary file becomes the target.
    RenameTmp,
    /// There is no output at all: the target is removed.
    RemoveTarget,
    /// The job has failed: the temporary file is removed.
    RemoveTmp,
}

/// What is done first with the output of a job.
pub open spec fn first_step(rv: i32, stdout_size: int, tmp_there: bool) -> OutputStep {
    if rv != 0 {
        OutputStep::RemoveTmp
    } else if tmp_there {
        OutputStep::RenameTmp
    } else if stdout_size > 0 {
        OutputStep::CopyStdout
    } else {
        OutputStep::RemoveTarget
    }
}

/// The exit code of a job once a step has been tried.
pub open spec fn code_after(worked: bool, rv: i32) -> i32 {
    if worked {
        rv
    } else {
        EXIT_BUILD_JOB_ERROR
    }
}

/// What is done next with the output of a job, once a step has been tried. `code` is the exit code of the job then.
pub open spec fn next_step(step: OutputStep, worked: bool, code: i32) -> Option<OutputStep> {
    match step {
        OutputStep::CopyStdout => if worked {
            Some(OutputStep::RenameTmp)
        } else {
            Some(OutputStep::RemoveTarget)
        },
        OutputStep::RenameTmp | OutputStep::RemoveTarget => if code != 0 {
            Some(OutputStep::RemoveTmp)
        } else {
            None
        },
        OutputStep::RemoveTmp => None,
    }
}

/// Output is moved to its final location only if the script completes successfully: nothing but to remove the temporary file is
/// done with the output of one that fails, writes to its target directly or writes two outputs, and a temporary file
/// becomes the target only if it is complete.
pub proof fn law_output_only_on_success(status: i32, mistake: Mistake, stdout_size: int, tmp_there: bool)
    ensures
        first_step(judged(status, mistake), stdout_size, tmp_there) != OutputStep::RemoveTmp ==> status == 0 && mistake is Nothing,
        first_step(judged(status, mistake), stdout_size, tmp_there) == OutputStep::RenameTmp ==> tmp_there,
        forall|step: OutputStep, worked: bool, code: i32|
            (#[trigger] next_step(step, worked, code)) == Some(OutputStep::RenameTmp) ==> step is CopyStdout && worked,
{
}

/// What is done first with the output of a job. Nothing is moved to its final location unless
/// the job has succeeded.
pub fn first_output_step(rv: i32, stdout_size: u64, tmp_there: bool) -> (r: OutputStep)
    ensures
        r == first_step(rv, stdout_size as int, tmp_there),
{
    if rv != 0 {
        OutputStep::RemoveTmp
    } else if tmp_there {
        OutputStep::RenameTmp
    } else if stdout_size > 0 {
        OutputStep::CopyStdout
    } else {
        OutputStep::RemoveTarget
    }
}

/// What is done next, and the exit code of the job, once a step has been tried. A temporary file is not left behind by
/// a job that has failed, or whose output could not be put in place.
pub fn next_output_step(step: OutputStep, worked: bool, rv: i32) -> (r: (Option<OutputStep>, i32))
    ensures
        r.1 == code_after(worked, rv),
        r.0 == next_step(step, worked, r.1),
{
    let code: i32 = if worked {
        rv
    } else {
        EXIT_BUILD_JOB_ERROR
    };
    match step {
        OutputStep::CopyStdout => if worked {
            (Some(OutputStep::RenameTmp), code)
        } else {
            (Some(OutputStep::RemoveTarget), code)
        },
        OutputStep::RenameTmp | OutputStep::RemoveTarget => if code != 0 {
            (Some(OutputStep::RemoveTmp), code)
        } else {
            (None, code)
        },
        OutputStep::RemoveTmp => (None, code),
    }
}

/// What the target and the temporary file hold, nothing where there is no such file.
pub struct OutputFiles {
    pub target: Option<Seq<u8>>,
    pub tmp: Option<Seq<u8>>,
}

/// A step that was tried, whether it worked, and the files after it.
pub struct Tried {
    pub step: OutputStep,
    pub worked: bool,
    pub after: OutputFiles,
}

/// Whether a step can turn the files `before` into those after it. `stdout` is what the job wrote to standard output. If
/// that could not be copied, the temporary file may hold anything.
pub open spec fn can_follow(stdout: Seq<u8>, before: OutputFiles, t: Tried) -> bool {
    match t.step {
        OutputStep::CopyStdout => t.after.target == before.target && (t.worked ==> t.after.tmp == Some(stdout)),
        OutputStep::RenameTmp => t.after == if t.worked {
            OutputFiles { target: before.tmp, tmp: None }
        } else {
            before
        },
        OutputStep::RemoveTarget => t.after == if t.worked {
            OutputFiles { target: None, ..before }
        } else {
            before
        },
        OutputStep::RemoveTmp => t.after == if t.worked {
            OutputFiles { tmp: None, ..before }
        } else {
            before
        },
    }
}

/// Whether the steps that were tried are those that are to be done, beginning with `step`, one after the other until there is
/// none left.
pub open spec fn all_tried(step: Option<OutputStep>, code: i32, stdout: Seq<u8>, before: OutputFiles, tried: Seq<Tried>) -> bool
    decreases tried.len(),
{
    match step {
        None => tried.len() == 0,
        Some(s) => {
            &&& tried.len() > 0
            &&& tried[0].step == s
            &&& can_follow(stdout, before, tried[0])
            &&& all_tried(
                next_step(s, tried[0].worked, code_after(tried[0].worked, code)),
                code_after(tried[0].worked, code),
                stdout,
                tried[0].after,
                tried.skip(1),
            )
        },
    }
}

/// Whether all steps worked.
pub open spec fn all_worked(tried: Seq<Tried>) -> bool {
    forall|i: int| 0 <= i < tried.len() ==> (#[trigger] tried[i]).worked
}

/// A job that fails leaves its target exactly as the script left it, and no temporary file: all that is done is to remove that.
/// Its exit code stays what it is, and whatever is recorded of it then, it is not that of success.
pub proof fn law_failed_job_leaves_target(
    rv: i32,
    stdout: Seq<u8>,
    before: OutputFiles,
    tried: Seq<Tried>,
    f: FileView,
    db: Db,
    runid: Option<i64>,
    stamp: Result<Seq<char>, ErrorView>,
)
    requires
        rv != 0,
        all_tried(Some(first_step(rv, stdout.len() as int, before.tmp is Some)), rv, stdout, before, tried),
    ensures
        tried.len() == 1,
        tried[0].step is RemoveTmp,
        tried[0].after.target == before.target,
        tried[0].worked ==> tried[0].after.tmp is None,
        recorded(f, db, runid, false, rv, stamp).1 != 0,
{
    reveal_with_fuel(all_tried, 2);
}

/// Once all steps have been tried, no temporary file is left, unless one could not be removed. If all of them worked, the
/// target of a job that succeeded holds what the script wrote to `$3`, or to standard output if it did not write to `$3`;
/// if it wrote nothing there is no target.
pub proof fn law_output_is_put_in_place(rv: i32, stdout: Seq<u8>, before: OutputFiles, tried: Seq<Tried>)
    requires
        all_tried(Some(first_step(rv, stdout.len() as int, before.tmp is Some)), rv, stdout, before, tried),
    ensures
        tried.len() > 0,
        tried.last().step is RemoveTmp && !tried.last().worked || tried.last().after.tmp is None,
        rv == 0 && all_worked(tried) ==> tried.last().after.target == if before.tmp is Some {
            before.tmp
        } else if stdout.len() > 0 {
            Some(stdout)
        } else {
            None
        },
{
    reveal_with_fuel(all_tried, 5);
    assert(tried.skip(1).len() == tried.len() - 1);
    if tried.len() > 1 {
        assert(tried.skip(1)[0] == tried[1]);
        assert(tried.skip(1).skip(1).len() == tried.len() - 2);
    }
    if tried.len() > 2 {
        assert(tried.skip(1).skip(1)[0] == tried[2]);
        assert(tried.skip(1).skip(1).skip(1).len() == tried.len() - 3);
    }
    assert(tried.len() <= 3);
}

/// What is known of a target once its job has succeeded, and the exit code of the job.
pub open spec fn recorded_success(f: FileView, db: Db, runid: Option<i64>, rv: i32, stamp: Result<Seq<char>, ErrorView>) -> (
    FileView,
    i32,
) {
    let (f1, rv1) = match found_by_id(db, f.id, runid) {
        Ok(g) => (g, rv),
        Err(_) => (f, EXIT_BUILD_JOB_ERROR),
    };
    let f2 = FileView { is_generated: true, is_override: false, ..f1 };
    if since_known(f2.checked_runid, runid) || since_known(f2.changed_runid, runid) {
        match stamp {
            Ok(s) => (FileView { stamp: Some(s), ..f2 }, rv1),
            Err(_) => (f2, EXIT_BUILD_JOB_ERROR),
        }
    } else {
        let f3 = FileView { csum: seq![], ..f2 };
        match restamped(f3, runid, false, stamp) {
            Ok(g) => (changed_in(g, runid), rv1),
            Err(_) => (changed_in(f3, runid), EXIT_BUILD_JOB_ERROR),
        }
    }
}

/// What is known of a target once its job has ended, and the exit code of the job.
pub open spec fn recorded(
    f: FileView,
    db: Db,
    runid: Option<i64>,
    built: bool,
    rv: i32,
    stamp: Result<Seq<char>, ErrorView>,
) -> (FileView, i32) {
    let (f1, rv1) = if built {
        recorded_success(f, db, runid, rv, stamp)
    } else {
        (f, rv)
    };
    if rv1 != 0 {
        match failed_in(f1, runid, stamp) {
            Ok(g) => (g, rv1),
            Err(_) => (f1, EXIT_BUILD_JOB_ERROR),
        }
    } else {
        (f1, rv1)
    }
}

/// What is written once a job has ended: old dependencies are forgotten only after a build completes successfully.
pub open spec fn end_writes(f: FileView, code: i32) -> Seq<WriteView> {
    if code == 0 {
        seq![WriteView::DeleteMarkedDeps(f.id), WriteView::UpdateFile(row_of_file(f))]
    } else {
        seq![WriteView::UpdateFile(row_of_file(f))]
    }
}

/// Whether the current run has to be known to tell if a file was looked at or has changed in it.
pub open spec fn needs_run(f: FileView, db: Db, runid: Option<i64>) -> bool {
    let g = match found_by_id(db, f.id, runid) {
        Ok(g) => g,
        Err(_) => f,
    };
    had_run(g.checked_runid) || had_run(g.changed_runid)
}

fn record_success(ptx: &ProcessTransaction, sf: &mut File, rv: i32, seen: &Observed) -> (r: i32)
    requires
        needs_run(old(sf)@, ptx.db(), ptx.settings().runid) ==> ptx.settings().runid is Some,
    ensures
        (final(sf)@, r) == recorded_success(old(sf)@, ptx.db(), ptx.settings().runid, rv, stamp_of_seen(*seen)),
{
    let mut rv: i32 = rv;
    if sf.refresh(ptx).is_err() {
        rv = EXIT_BUILD_JOB_ERROR;
    }
    sf.set_built();
    let env = ptx.state().env();
    if sf.is_checked(env) || sf.is_changed(env) {
        // it got checked during the run; someone ran redo-stamp.
        // update_stamp would call set_changed(); we don't want that,
        // so only use read_stamp.
        match sf.read_stamp(seen) {
            Ok(s) => sf.set_stamp(s),
            Err(_) => {
                rv = EXIT_BUILD_JOB_ERROR;
            },
        }
    } else {
        let none = String::new();
        assert(none@ =~= seq![]);
        sf.set_checksum(none);
        if sf.update_stamp(env, false, seen).is_err() {
            rv = EXIT_BUILD_JOB_ERROR;
        }
        sf.set_changed(env);
    }
    rv
}

/// After a job has ended, takes note of what is known of its target. `built` says whether its output has
/// been put in place; `rv` is the exit code so far. Gives the exit code of the job.
pub fn record_new_state(ptx: &mut ProcessTransaction, sf: &mut File, built: bool, rv: i32, seen: &Observed) -> (r: i32)
    requires
        built && needs_run(old(sf)@, old(ptx).db(), old(ptx).settings().runid) ==> old(ptx).settings().runid is Some,
    ensures
        ({
            let runid = old(ptx).settings().runid;
            let (f, code) = recorded(old(sf)@, old(ptx).db(), runid, built, rv, stamp_of_seen(*seen));
            &&& final(sf)@ == f
            &&& r == code
            &&& final(ptx).wrote_all(old(ptx), end_writes(f, code))
        }),
{
    let ghost before = *ptx;
    let mut rv: i32 = if built {
        record_success(ptx, sf, rv, seen)
    } else {
        rv
    };
    // rv might have changed up above
    if rv != 0 {
        if sf.set_failed(ptx.state().env(), seen).is_err() {
            rv = EXIT_BUILD_JOB_ERROR;
        }
    }
    let ghost w1 = WriteView::DeleteMarkedDeps(sf@.id);
    let ghost w2 = WriteView::UpdateFile(row_of_file(sf@));
    if rv == 0 {
        sf.zap_deps2(ptx);
        proof {
            lemma_one_write(&before, ptx, w1);
        }
    }
    let ghost mid = *ptx;
    sf.save(ptx);
    proof {
        if rv == 0 {
            lemma_more_writes(&before, &mid, ptx, seq![w1], w2);
            assert(seq![w1].push(w2) =~= seq![w1, w2]);
        } else {
            lemma_one_write(&before, ptx, w2);
        }
    }
    rv
}

/// A build that fails forgets no dependency: from when the old ones are marked, through whatever is written while the job
/// runs, to the end of a job that has failed, a target keeps whatever it depended on before.
pub proof fn law_failed_build_keeps_deps(
    f: FileView,
    g: FileView,
    code: i32,
    db: Db,
    meanwhile: Seq<WriteView>,
    runid: Option<i64>,
    source: i64,
)
    requires
        f.id == g.id,
        code != 0,
        forall|i: int| 0 <= i < meanwhile.len() ==> #[trigger] meanwhile[i] != WriteView::DeleteMarkedDeps(f.id),
    ensures
        ({
            let then = replay(db, seq![WriteView::MarkDeps(f.id)] + meanwhile + end_writes(g, code));
            &&& depends_on(db.deps, f.id, source) ==> depends_on(then.deps, f.id, source)
            &&& g.is_generated && !g.is_override ==> match (deps_of(f, db, runid), deps_of(g, then, runid)) {
                (Ok(before), Ok(after)) => is_among(before, source) ==> is_among(after, source),
                _ => true,
            }
        }),
{
    let ws = seq![WriteView::MarkDeps(f.id)] + meanwhile + end_writes(g, code);
    assert forall|i: int| 0 <= i < ws.len() implies #[trigger] ws[i] != WriteView::DeleteMarkedDeps(f.id) by {
        if 0 < i <= meanwhile.len() {
            assert(ws[i] == meanwhile[i - 1]);
        }
    }
    law_undeleted_deps_stay(f, g, db, ws, runid, runid, source);
}

/// A target that has just been built is clean, as long as it stays what it is and what it depends on is clean. One that
/// was noted as checked or changed while it was built must not be noted as failed then.
pub proof fn law_built_target_is_clean(f: FileView, db: Db, stamp: Seq<char>, w: Walk, s: Surroundings)
    requires
        s.runid > 0,
        sighted(s.seen).contains(f.id),
        stamp_of_seen(sighting(s.seen, f.id).unwrap()) == Ok::<Seq<char>, ErrorView>(stamp),
        found_by_id(db, f.id, Some(s.runid)) matches Ok(g) && g.id == f.id && (since(g.checked_runid, s.runid) || since(
            g.changed_runid,
            s.runid,
        ) ==> g.failed_runid is None && (g.changed_runid matches Some(c) && c <= s.runid)),
    ensures
        ({
            let (g, code) = recorded(f, db, Some(s.runid), true, EXIT_SUCCESS, Ok(stamp));
            &&& code == EXIT_SUCCESS
            &&& (deps_of(g, w.db, Some(s.runid)) matches Ok(deps) && deps_clean(g, deps, Set::empty().insert(g.id), w, s))
                ==> check(g, s.runid, Set::empty(), w, s).verdict == Ok::<DirtView, ErrorView>(DirtView::Clean)
        }),
{
    let (g, code) = recorded(f, db, Some(s.runid), true, EXIT_SUCCESS, Ok(stamp));
    law_clean_means_all_is_clean(g, s.runid, Set::empty(), w, s);
}

/// A target whose job has failed counts as failed in this run, and one whose job has succeeded as generated, not overridden, and
/// as what it is now; as long as its stamp can be read.
pub proof fn law_job_end_is_recorded(
    f: FileView,
    db: Db,
    runid: i64,
    built: bool,
    rv: i32,
    stamp: Result<Seq<char>, ErrorView>,
)
    requires
        stamp is Ok,
        built || rv != 0,
    ensures
        ({
            let (g, code) = recorded(f, db, Some(runid), built, rv, stamp);
            &&& code != 0 ==> g.failed_runid == Some(runid) && g.stamp == Some(stamp->Ok_0)
            &&& code == 0 ==> g.is_generated && !g.is_override && g.stamp == Some(stamp->Ok_0)
        }),
{
}

/// Shuffles numbers with `rand`'s thread-local generator. The result holds the same numbers, each as
/// often as before; in which order is left to chance.
#[verifier::external_body]
fn shuffle(v: &mut Vec<usize>)
    ensures
        final(v)@.to_multiset() == old(v)@.to_multiset(),
{
    v.shuffle(&mut rand::thread_rng());
}

/// The numbers below `n`, in order.
pub open spec fn counting(n: nat) -> Seq<usize> {
    Seq::new(n, |i: int| i as usize)
}

/// The order in which targets are built: as they are given, or any order if that is asked for.
pub fn target_order(n: usize, shuffled: bool) -> (r: Vec<usize>)
    ensures
        r@.to_multiset() == counting(n as nat).to_multiset(),
        !shuffled ==> r@ == counting(n as nat),
{
    let mut v: Vec<usize> = Vec::new();
    let mut i: usize = 0;
    while i < n
        invariant
            i <= n,
            v@ == counting(i as nat),
        decreases n - i,
    {
        v.push(i);
        i = i + 1;
        assert(v@ =~= counting(i as nat));
    }
    if shuffled {
        shuffle(&mut v);
    }
    v
}

/// Every target has its turn exactly once, whatever the order.
pub proof fn law_every_target_once(order: Seq<usize>, n: nat)
    requires
        n <= usize::MAX,
        order.to_multiset() == counting(n).to_multiset(),
    ensures
        order.len() == n,
        forall|i: int| 0 <= i < order.len() ==> (#[trigger] order[i]) < n,
        order.no_duplicates(),
{
    let c = counting(n);
    c.to_multiset_ensures();
    order.to_multiset_ensures();
    assert(order.len() == order.to_multiset().len());
    assert(c.len() == c.to_multiset().len());
    assert forall|i: int| 0 <= i < order.len() implies (#[trigger] order[i]) < n by {
        assert(order.contains(order[i]));
        assert(order.to_multiset().count(order[i]) > 0);
        assert(c.contains(order[i]));
    }
    assert(c.no_duplicates());
    c.lemma_multiset_has_no_duplicates();
    order.lemma_multiset_has_no_duplicates_conv();
}

/// Whether a text holds a line feed.
fn has_newline(s: &str) -> (r: bool)
    ensures
        r == s@.contains('\n'),
{
    let c = to_chars(s);
    let mut i: usize = 0;
    while i < c.len()
        invariant
            i <= c.len(),
            c@ == s@,
            forall|k: int| 0 <= k < i ==> c@[k] != '\n',
        decreases c.len() - i,
    {
        if c[i] == '\n' {
            assert(c@.contains(c@[i as int]));
            return true;
        }
        i = i + 1;
    }
    false
}

/// The first target in the given order whose name holds a line feed.
pub open spec fn first_bad(targets: Seq<Seq<char>>, order: Seq<usize>) -> Option<Seq<char>>
    decreases order.len(),
{
    if order.len() == 0 {
        None
    } else if targets[order[0] as int].contains('\n') {
        Some(targets[order[0] as int])
    } else {
        first_bad(targets, order.skip(1))
    }
}

/// Makes sure that no target's name holds a line feed.
pub fn check_names(targets: &Vec<String>, order: &Vec<usize>) -> (r: Result<(), BuildError>)
    requires
        forall|i: int| 0 <= i < order@.len() ==> (#[trigger] order@[i]) < targets@.len(),
    ensures
        match first_bad(strings(targets@), order@) {
            None => r is Ok,
            Some(t) => r matches Err(e) && e@ == uncaused(BuildErrorView::InvalidTarget(t)),
        },
{
    let mut i: usize = 0;
    assert(order@.skip(0) =~= order@);
    while i < order.len()
        invariant
            i <= order.len(),
            forall|k: int| 0 <= k < order@.len() ==> (#[trigger] order@[k]) < targets@.len(),
            first_bad(strings(targets@), order@) == first_bad(strings(targets@), order@.skip(i as int)),
        decreases order.len() - i,
    {
        assert(order@.skip(i as int)[0] == order@[i as int]);
        assert(order@.skip(i as int).skip(1) =~= order@.skip(i + 1));
        let k: usize = order[i];
        assert(strings(targets@)[k as int] == targets@[k as int]@);
        if has_newline(targets[k].as_str()) {
            return Err(BuildError::from_kind(BuildErrorKind::InvalidTarget(targets[k].clone())));
        }
        i = i + 1;
    }
    Ok(())
}

/// What has been done of a list of targets, and what is left.
#[derive(Debug)]
pub struct Schedule {
    order: Vec<usize>,
    at: usize,
    seen: Vec<String>,
    locked: VecDeque<(i64, usize)>,
    failure: Option<BuildError>,
    keep_going: bool,
}

/// What has been done of a list of targets, and what is left.
pub struct ScheduleView {
    /// The targets that have not had their turn, in order.
    pub rest: Seq<usize>,
    /// The names of those that have had it.
    pub seen: Set<Seq<char>>,
    /// The targets that somebody else was building, by the ids of their files.
    pub locked: Seq<(i64, usize)>,
    /// How the build failed, if it did.
    pub failure: Option<FailureView>,
    /// Whether it goes on after a failure.
    pub keep_going: bool,
}

/// The failure of a job that ended with the given exit code.
pub open spec fn failed_job(target: Seq<char>, rv: int) -> FailureView {
    FailureView {
        kind: BuildErrorView::Generic,
        cause: Some(generic(quoted(target) + ": exit code "@ + decimal_int(rv))),
    }
}

/// How a build failed, if it did.
pub open spec fn failure_view(f: Option<BuildError>) -> Option<FailureView> {
    match f {
        Some(e) => Some(e@),
        None => None,
    }
}

impl View for Schedule {
    type V = ScheduleView;

    closed spec fn view(&self) -> ScheduleView {
        ScheduleView {
            rest: self.order@.skip(self.at as int),
            seen: strings(self.seen@).to_set(),
            locked: self.locked@,
            failure: failure_view(self.failure),
            keep_going: self.keep_going,
        }
    }
}

impl ScheduleView {
    /// Whether there is any use in going on: nothing has failed, or it was asked to go on anyway.
    pub open spec fn goes_on(self) -> bool {
        self.failure is None || self.keep_going
    }
}

/// Whose turn it is.
#[derive(Clone, Copy, Debug, Eq, PartialEq, Structural)]
pub enum Turn {
    /// This target's: it needs a token.
    Target(usize),
    /// That of a target without a name, which cannot be built.
    Nameless,
    /// Nobody's: all have had their turn.
    Over,
}

/// Whose turn it is, and what is left then. A name has its turn only once. At a target without
/// a name everything stops.
pub open spec fn next_turn(v: ScheduleView, targets: Seq<Seq<char>>) -> (Turn, ScheduleView)
    decreases v.rest.len(),
{
    if v.rest.len() == 0 {
        (Turn::Over, v)
    } else {
        let i = v.rest[0];
        let t = targets[i as int];
        if t.len() == 0 {
            (
                Turn::Nameless,
                ScheduleView { rest: seq![], failure: Some(uncaused(BuildErrorView::InvalidTarget(t))), ..v },
            )
        } else if v.seen.contains(t) {
            next_turn(ScheduleView { rest: v.rest.skip(1), ..v }, targets)
        } else {
            (Turn::Target(i), ScheduleView { rest: v.rest.skip(1), seen: v.seen.insert(t), ..v })
        }
    }
}

fn contains_str(v: &Vec<String>, s: &str) -> (r: bool)
    ensures
        r == strings(v@).to_set().contains(s@),
{
    let mut i: usize = 0;
    while i < v.len()
        invariant
            i <= v.len(),
            forall|k: int| 0 <= k < i ==> strings(v@)[k] != s@,
        decreases v.len() - i,
    {
        assert(strings(v@)[i as int] == v@[i as int]@);
        if str_eq(v[i].as_str(), s) {
            assert(strings(v@).contains(s@));
            return true;
        }
        i = i + 1;
    }
    assert(!strings(v@).contains(s@));
    false
}

impl Schedule {
    pub closed spec fn wf(&self) -> bool {
        self.at <= self.order@.len()
    }

    /// Whether every target that has not had its turn is one of so many.
    pub open spec fn within(&self, n: nat) -> bool {
        forall|i: int| 0 <= i < self@.rest.len() ==> (#[trigger] self@.rest[i]) < n
    }

    /// Starts with a list of targets in the given order.
    pub fn new(order: Vec<usize>, keep_going: bool) -> (r: Schedule)
        ensures
            r.wf(),
            r@ == (ScheduleView {
                rest: order@,
                seen: Set::empty(),
                locked: seq![],
                failure: None,
                keep_going,
            }),
    {
        let r = Schedule {
            order,
            at: 0,
            seen: Vec::new(),
            locked: VecDeque::new(),
            failure: None,
            keep_going,
        };
        proof {
            assert(r.order@.skip(0) =~= r.order@);
            assert(strings(r.seen@) =~= Seq::empty());
            assert(strings(r.seen@).to_set() =~= Set::empty());
            assert(r.locked@ =~= seq![]);
        }
        r
    }

    /// Whose turn it is to be built.
    ///
    /// In the first cycle, we just build as much as we can without worrying
    /// about any lock contention.  If someone else has it locked, we move on.
    pub fn next(&mut self, targets: &Vec<String>) -> (r: Turn)
        requires
            old(self).wf(),
            old(self).within(targets@.len()),
        ensures
            final(self).wf(),
            final(self).within(targets@.len()),
            (r, final(self)@) == next_turn(old(self)@, strings(targets@)),
    {
        let ghost goal = next_turn(self@, strings(targets@));
        loop
            invariant
                self.wf(),
                self.within(targets@.len()),
                goal == next_turn(self@, strings(targets@)),
                goal == next_turn(old(self)@, strings(targets@)),
            decreases self.order@.len() - self.at,
        {
            if self.at >= self.order.len() {
                return Turn::Over;
            }
            let ghost before = self@;
            let i: usize = self.order[self.at];
            proof {
                assert(before.rest[0] == i);
                assert(i < targets@.len());
                assert(strings(targets@)[i as int] == targets@[i as int]@);
                assert(before.rest.skip(1) =~= self.order@.skip(self.at + 1));
                assert forall|k: int| 0 <= k < before.rest.skip(1).len() implies (#[trigger] before.rest.skip(1)[k])
                    < targets@.len() by {
                    assert(before.rest.skip(1)[k] == before.rest[k + 1]);
                }
            }
            let t = targets[i].as_str();
            if t.unicode_len() == 0 {
                self.failure = Some(BuildError::from_kind(BuildErrorKind::InvalidTarget(targets[i].clone())));
                self.at = self.order.len();
                assert(self@.rest =~= seq![]);
                return Turn::Nameless;
            }
            let known = contains_str(&self.seen, t);
            self.at = self.at + 1;
            assert(self@.rest == before.rest.skip(1));
            if !known {
                let ghost s = self.seen@;
                self.seen.push(targets[i].clone());
                proof {
                    assert(strings(self.seen@) =~= strings(s).push(t@));
                    strings(s).lemma_push_to_set_commute(t@);
                }
                return Turn::Target(i);
            }
        }
    }

    /// Whether there is any use in going on.
    pub fn goes_on(&self) -> (r: bool)
        ensures
            r == self@.goes_on(),
    {
        self.failure.is_none() || self.keep_going
    }

    /// Takes note that somebody else is building a target.
    pub fn put_off(&mut self, fid: i64, target: usize)
        requires
            old(self).wf(),
        ensures
            final(self).wf(),
            final(self)@ == (ScheduleView { locked: old(self)@.locked.push((fid, target)), ..old(self)@ }),
    {
        self.locked.push_back((fid, target));
    }

    /// Takes note that a job has ended with the given exit code, for a target that had not been put off.
    pub fn job_ended(&mut self, target: &str, rv: i32)
        requires
            old(self).wf(),
        ensures
            final(self).wf(),
            final(self)@ == if rv == 0 {
                old(self)@
            } else {
                ScheduleView { failure: Some(failed_job(target@, rv as int)), ..old(self)@ }
            },
    {
        if rv != 0 {
            let mut msg = debug_str(target);
            msg.append(": exit code ");
            msg.append(dec_i64(rv as i64).as_str());
            self.failure = Some(BuildError::caused_by(RedoError::new(msg.as_str())));
        }
    }

    /// Takes note that a job has ended for a target that had been put off. It is not said which one failed.
    pub fn late_job_ended(&mut self, rv: i32)
        requires
            old(self).wf(),
        ensures
            final(self).wf(),
            final(self)@ == if rv == 0 {
                old(self)@
            } else {
                ScheduleView { failure: Some(uncaused(BuildErrorView::Generic)), ..old(self)@ }
            },
    {
        if rv != 0 {
            self.failure = Some(BuildError::from_kind(BuildErrorKind::Generic));
        }
    }

    /// Takes note that somebody else failed to build a target.
    pub fn failed_elsewhere(&mut self, target: &str)
        requires
            old(self).wf(),
        ensures
            final(self).wf(),
            final(self)@ == (ScheduleView {
                failure: Some(uncaused(BuildErrorView::FailedInAnotherThread(target@))),
                ..old(self)@
            }),
    {
        self.failure = Some(BuildError::from_kind(BuildErrorKind::FailedInAnotherThread(target.to_owned())));
    }

    /// Whether there is something left to wait for: targets that others were building, or jobs of our own.
    pub fn must_wait(&self, running: bool) -> (r: bool)
        ensures
            r == (self@.locked.len() > 0 || running),
    {
        self.locked.len() > 0 || running
    }

    /// The next of the targets that others were building.
    ///
    /// Now we've built all the "easy" ones.  Go back and just wait on the
    /// remaining ones one by one.  There's no reason to do it any more
    /// efficiently, because if these targets were previously locked, that
    /// means someone else was building them; thus, we probably won't need to
    /// do anything.
    pub fn next_locked(&mut self) -> (r: Option<(i64, usize)>)
        requires
            old(self).wf(),
        ensures
            final(self).wf(),
            if old(self)@.locked.len() == 0 {
                r is None && final(self)@ == old(self)@
            } else {
                &&& r == Some(old(self)@.locked[0])
                &&& final(self)@ == (ScheduleView { locked: old(self)@.locked.skip(1), ..old(self)@ })
            },
    {
        let ghost before = self.locked@;
        let r = self.locked.pop_front();
        assert(before.len() > 0 ==> self.locked@ =~= before.skip(1));
        r
    }

    /// What the build comes to.
    pub fn finish(self) -> (r: Result<(), BuildError>)
        ensures
            match r {
                Ok(_) => self@.failure is None,
                Err(e) => self@.failure == Some(e@),
            },
    {
        match self.failure {
            None => Ok(()),
            Some(e) => Err(e),
        }
    }
}

/// No name has its turn twice: whoever's turn it is had none before, and has none after.
pub proof fn law_turn_once(v: ScheduleView, targets: Seq<Seq<char>>)
    ensures
        next_turn(v, targets).0 matches Turn::Target(i) ==> {
            &&& !v.seen.contains(targets[i as int])
            &&& next_turn(v, targets).1.seen.contains(targets[i as int])
            &&& v.seen.subset_of(next_turn(v, targets).1.seen)
        },
    decreases v.rest.len(),
{
    if v.rest.len() > 0 {
        let t = targets[v.rest[0] as int];
        if t.len() > 0 && v.seen.contains(t) {
            law_turn_once(ScheduleView { rest: v.rest.skip(1), ..v }, targets);
        }
    }
}

/// The path of the target that this process is building, if it holds no lock of its own for it.
pub open spec fn own_target(env: Env) -> Option<Seq<u8>> {
    if env.target@.len() > 0 && !env.unlocked {
        Some(pushed(pushed(env.startdir@, env.pwd@), env.target@))
    } else {
        None
    }
}

/// The path of the target that this process is building, if there is one whose log may be watched.
pub fn own_path(env: &Env) -> (r: Option<Vec<u8>>)
    ensures
        (match r {
            Some(p) => Some(p@),
            None => None,
        }) == own_target(*env),
{
    if env.target.len() > 0 && !env.unlocked {
        let dir = join_path(env.startdir.as_slice(), env.pwd.as_slice());
        Some(join_path(dir.as_slice(), env.target.as_slice()))
    } else {
        None
    }
}

/// How many tokens to make, given whether the lock on our own log could be taken; nothing if there is none.
/// If redo-log owns it, we give ourselves one extra token so that the "foreground" log
/// can always make progress.
pub fn cheat_tokens(got_own_lock: Option<bool>) -> (r: i32)
    ensures
        r == if got_own_lock == Some(false) { 1int } else { 0 },
{
    match got_own_lock {
        Some(got) => if got {
            // redo-log isn't watching us (yet)
            0
        } else {
            1
        },
        None => 0,
    }
}

/// A builder used to start a redo-log instance.
#[derive(Clone, Copy, Debug)]
pub struct StdinLogReaderBuilder {
    status: bool,
    details: bool,
    pretty: bool,
    color: OptionalBool,
    debug_locks: bool,
    debug_pids: bool,
}

/// What a [`StdinLogReaderBuilder`] has been told.
pub struct LogReaderView {
    pub status: bool,
    pub details: bool,
    pub pretty: bool,
    pub color: OptionalBool,
    pub debug_locks: bool,
    pub debug_pids: bool,
}

impl View for StdinLogReaderBuilder {
    type V = LogReaderView;

    closed spec fn view(&self) -> LogReaderView {
        LogReaderView {
            status: self.status,
            details: self.details,
            pretty: self.pretty,
            color: self.color,
            debug_locks: self.debug_locks,
            debug_pids: self.debug_pids,
        }
    }
}

/// One of two options.
pub open spec fn either(yes: bool, on: Seq<char>, off: Seq<char>) -> Seq<char> {
    if yes {
        on
    } else {
        off
    }
}

/// The command of a redo-log instance that shows what we write.
pub open spec fn log_command(b: LogReaderView, ack_fd: int, to_tty: bool) -> Seq<Seq<char>> {
    seq![
        "redo-log"@,
        "--recursive"@,
        "--follow"@,
        "--ack-fd"@,
        decimal_int(ack_fd),
        either(b.status && to_tty, "--status"@, "--no-status"@),
        either(b.details, "--details"@, "--no-details"@),
        either(b.pretty, "--pretty"@, "--no-pretty"@),
        either(b.debug_locks, "--debug-locks"@, "--no-debug-locks"@),
        either(b.debug_pids, "--debug-pids"@, "--no-debug-pids"@),
    ] + (match b.color {
        OptionalBool::Auto => seq![],
        OptionalBool::On => seq!["--color"@],
        OptionalBool::Off => seq!["--no-color"@],
    }) + seq!["-"@]
}

fn pick(yes: bool, on: &str, off: &str) -> (r: String)
    ensures
        r@ == either(yes, on@, off@),
{
    if yes {
        on.to_owned()
    } else {
        off.to_owned()
    }
}

impl StdinLogReaderBuilder {
    /// Everything is shown, nothing about locks and processes.
    pub fn new() -> (r: StdinLogReaderBuilder)
        ensures
            r@ == (LogReaderView {
                status: true,
                details: true,
                pretty: true,
                color: OptionalBool::Auto,
                debug_locks: false,
                debug_pids: false,
            }),
    {
        StdinLogReaderBuilder {
            status: true,
            details: true,
            pretty: true,
            color: OptionalBool::Auto,
            debug_locks: false,
            debug_pids: false,
        }
    }

    /// What the settings ask for.
    pub fn from_env(e: &Env) -> (r: StdinLogReaderBuilder)
        ensures
            r@ == (LogReaderView {
                status: true,
                details: true,
                pretty: e.pretty.resolved(true),
                color: e.color,
                debug_locks: e.debug_locks,
                debug_pids: e.debug_pids,
            }),
    {
        StdinLogReaderBuilder {
            status: true,
            details: true,
            pretty: e.pretty.unwrap_or(true),
            color: e.color,
            debug_locks: e.debug_locks,
            debug_pids: e.debug_pids,
        }
    }

    /// Set whether to display build summary line at the bottom of the screen.
    pub fn set_status(&mut self, val: bool) -> (r: &mut StdinLogReaderBuilder)
        ensures
            r@ == (LogReaderView { status: val, ..old(self)@ }),
            *final(self) == *final(r),
    {
        self.status = val;
        self
    }

    /// Set whether to show what targets print.
    pub fn set_details(&mut self, val: bool) -> (r: &mut StdinLogReaderBuilder)
        ensures
            r@ == (LogReaderView { details: val, ..old(self)@ }),
            *final(self) == *final(r),
    {
        self.details = val;
        self
    }

    /// Set whether logs are pretty-printed.
    pub fn set_pretty(&mut self, val: bool) -> (r: &mut StdinLogReaderBuilder)
        ensures
            r@ == (LogReaderView { pretty: val, ..old(self)@ }),
            *final(self) == *final(r),
    {
        self.pretty = val;
        self
    }

    /// Force logs to display without terminal colors.
    pub fn disable_color(&mut self) -> (r: &mut StdinLogReaderBuilder)
        ensures
            r@ == (LogReaderView { color: OptionalBool::Off, ..old(self)@ }),
            *final(self) == *final(r),
    {
        self.color = OptionalBool::Off;
        self
    }

    /// Force logs to display with terminal colors.
    pub fn force_color(&mut self) -> (r: &mut StdinLogReaderBuilder)
        ensures
            r@ == (LogReaderView { color: OptionalBool::On, ..old(self)@ }),
            *final(self) == *final(r),
    {
        self.color = OptionalBool::On;
        self
    }

    /// Set whether to print messages about file locking.
    pub fn set_debug_locks(&mut self, val: bool) -> (r: &mut StdinLogReaderBuilder)
        ensures
            r@ == (LogReaderView { debug_locks: val, ..old(self)@ }),
            *final(self) == *final(r),
    {
        self.debug_locks = val;
        self
    }

    /// Set whether to print process IDs as part of log messages.
    pub fn set_debug_pids(&mut self, val: bool) -> (r: &mut StdinLogReaderBuilder)
        ensures
            r@ == (LogReaderView { debug_pids: val, ..old(self)@ }),
            *final(self) == *final(r),
    {
        self.debug_pids = val;
        self
    }

    /// The command of a redo-log instance that shows what we write. It says on the given file
    /// descriptor when it has started.
    pub fn argv(&self, ack_fd: i32, to_tty: bool) -> (r: Vec<String>)
        ensures
            strings(r@) == log_command(self@, ack_fd as int, to_tty),
    {
        let mut v: Vec<String> = Vec::new();
        v.push("redo-log".to_owned());
        v.push("--recursive".to_owned());
        v.push("--follow".to_owned());
        v.push("--ack-fd".to_owned());
        v.push(dec_i64(ack_fd as i64));
        v.push(pick(self.status && to_tty, "--status", "--no-status"));
        v.push(pick(self.details, "--details", "--no-details"));
        v.push(pick(self.pretty, "--pretty", "--no-pretty"));
        v.push(pick(self.debug_locks, "--debug-locks", "--no-debug-locks"));
        v.push(pick(self.debug_pids, "--debug-pids", "--no-debug-pids"));
        match self.color {
            OptionalBool::Auto => {},
            OptionalBool::On => v.push("--color".to_owned()),
            OptionalBool::Off => v.push("--no-color".to_owned()),
        }
        v.push("-".to_owned());
        assert(strings(v@) =~= log_command(self@, ack_fd as int, to_tty));
        v
    }
}

impl Default for StdinLogReaderBuilder {
    fn default() -> (r: StdinLogReaderBuilder)
        ensures
            r@ == (LogReaderView {
                status: true,
                details: true,
                pretty: true,
                color: OptionalBool::Auto,
                debug_locks: false,
                debug_pids: false,
            }),
    {
        StdinLogReaderBuilder::new()
    }
}

/// What a redo-log instance has said when it has started.
#[derive(Clone, Copy, Debug, Eq, PartialEq, Structural)]
pub enum Ack {
    /// It has started.
    Started,
    /// It ended without saying anything: that's bad.
    Dead,
    /// It said something else.
    Unexpected,
}

/// What a redo-log instance has said when it has started.
pub fn check_ack(said: &[u8]) -> (r: Ack)
    ensures
        r == if said@.len() == 0 {
            Ack::Dead
        } else if said@ == "REDO-OK\n".spec_bytes() {
            Ack::Started
        } else {
            Ack::Unexpected
        },
{
    if said.len() == 0 {
        Ack::Dead
    } else if bytes_eq(said, "REDO-OK\n".as_bytes()) {
        Ack::Started
    } else {
        Ack::Unexpected
    }
}

/// A target that has to be built is built by the first of its `.do` files that is there: that one is run, and nothing else is
/// planned. A target has to be built unless it is a file that we did not generate or that someone has modified: so if it is
/// no file, or we generated it and it is still what it was. The job depends on that `.do` file then, and on all before it
/// being absent. What the target depended on before is marked, to be forgotten if the job succeeds.
pub proof fn law_first_do_file_is_run(
    f: FileView,
    db: Db,
    env: Env,
    stamp: Seq<char>,
    is_file: bool,
    there: bool,
    looks: Seq<Look>,
    names: Seq<Seq<u8>>,
    k: int,
)
    requires
        !is_file || (f.is_generated && !f.is_override),
        f.is_generated && !f.is_override ==> stamp == "0"@ || f.stamp == Some(stamp) || !overridden(f.stamp.unwrap(), stamp),
        f.is_generated && f.is_override ==> stamp == "0"@,
        0 <= k < candidates(env.base@, f.name).len(),
        k < looks.len() && looks[k].there,
        forall|j: int| 0 <= j < k ==> !(#[trigger] looks[j]).there,
        names.len() == k + 1,
        forall|j: int|
            0 <= j <= k ==> db_name(
                pushed(candidates(env.base@, f.name)[j].do_dir, candidates(env.base@, f.name)[j].do_file),
                env.base@,
                looks[j].places,
            ) == Ok::<Seq<u8>, ErrorView>(#[trigger] names[j]),
        forall|j: int| 0 <= j <= k ==> is_redo_path(#[trigger] names[j]) && !has_name(db.files, f.id, names[j]),
        forall|i: int, j: int| 0 <= i < j <= k ==> #[trigger] names[i] != #[trigger] names[j],
        has_own_ids(db.files, f.id),
        max_id(db.files) + k + 1 <= i64::MAX,
    ensures
        ({
            let p = planned(f, db, env, Ok(stamp), is_file, there, looks);
            let after = replay(db, p.writes);
            &&& p.plan == Ok::<PlanView, ErrorView>(PlanView::Run(candidates(env.base@, f.name)[k]))
            &&& p.file == f
            &&& p.notice == OverrideNotice::Silent
            &&& forall|j: int| 0 <= j < k ==> depends_on_name(after, f.id, #[trigger] names[j], DepMode::Created)
            &&& depends_on_name(after, f.id, names[k], DepMode::Modified)
        }),
{
    let b = before_build_view(f, env.runid, Ok(stamp), is_file);
    let mark = WriteView::MarkDeps(f.id);
    assert(Seq::<WriteView>::empty().push(mark) =~= seq![mark]);
    assert(b.writes == seq![mark]);
    let mid = replay(db, b.writes);
    crate::db::law_writes_in_turn(db, seq![], mark);
    assert(mid == apply(db, mark));
    assert(mid.files == db.files);
    let cands = candidates(env.base@, f.name);
    law_search_depends_on_all(cands, looks, f.id, mid, env, names, k);
    let ws = searched(cands, looks, f.id, mid, env).1;
    lemma_replay_concat(db, b.writes, ws);
}

/// Nothing is run, and the job succeeds, only for something that exists and that is a source or overridden from then on. It fails
/// only for something that does not exist and that nothing can build: then it is noted as failed. And only what nothing
/// could be found to build, or what the user made, is not built.
pub proof fn law_nothing_is_run_only_for_sources(
    f: FileView,
    db: Db,
    env: Env,
    stamp: Seq<char>,
    is_file: bool,
    there: bool,
    looks: Seq<Look>,
    rv: i32,
)
    requires
        planned(f, db, env, Ok(stamp), is_file, there, looks).plan == Ok::<PlanView, ErrorView>(PlanView::Over(rv)),
        enough_looks(candidates(env.base@, f.name).len(), looks),
    ensures
        ({
            let p = planned(f, db, env, Ok(stamp), is_file, there, looks);
            let g = p.file;
            let users = is_file && (!f.is_generated || f.is_override || (stamp != "0"@ && overridden(f.stamp.unwrap(), stamp)));
            let none_there = forall|j: int|
                0 <= j < candidates(env.base@, f.name).len() && j < looks.len() ==> !(#[trigger] looks[j]).there;
            &&& users || none_there
            &&& rv == 0 ==> (users || there) && (g.is_override || !g.is_generated)
            &&& rv != 0 ==> rv == 1 && !users && !there && g.failed_runid == env.runid && g.stamp == Some(stamp)
            &&& p.writes.len() > 0 && p.writes.last() == WriteView::UpdateFile(row_of_file(g))
            &&& g.id == f.id
        }),
{
    let b = before_build_view(f, env.runid, Ok(stamp), is_file);
    if b.step == Ok::<Before, ErrorView>(Before::FindDoFile) {
        let cands = candidates(env.base@, f.name);
        lemma_not_found(cands, looks, f.id, replay(db, b.writes), env);
    }
}

proof fn lemma_not_found(cands: Seq<DoFileView>, looks: Seq<Look>, target: i64, db: Db, env: Env)
    requires
        searched(cands, looks, target, db, env).0 == Ok::<SearchView, ErrorView>(SearchView::NotFound),
        enough_looks(cands.len(), looks),
    ensures
        forall|j: int| 0 <= j < cands.len() && j < looks.len() ==> !(#[trigger] looks[j]).there,
    decreases cands.len(),
{
    if cands.len() > 0 {
        let c = cands[0];
        assert(looks.len() > 0);
        let ws = added_dep(
            target,
            db,
            env,
            crate::paths::look_mode(looks[0]),
            pushed(c.do_dir, c.do_file),
            looks[0].places,
        ).1;
        if looks.len() < cands.len() {
            let i = choose|i: int| 0 <= i < looks.len() && (#[trigger] looks[i]).there;
            assert(i > 0);
            assert(looks.skip(1)[i - 1] == looks[i]);
        }
        lemma_not_found(cands.skip(1), looks.skip(1), target, replay(db, ws), env);
        assert forall|j: int| 0 <= j < cands.len() && j < looks.len() implies !(#[trigger] looks[j]).there by {
            if j > 0 {
                assert(looks.skip(1)[j - 1] == looks[j]);
            }
        }
    }
}

/// What the user made is left alone: nothing is run for a file that we did not generate, that is known to be overridden, or that
/// someone has modified since we generated it. It is noted as what it is: a source with its stamp, or overridden. One that
/// has just been modified is told apart from one that is known to be.
pub proof fn law_users_files_are_noted(
    f: FileView,
    db: Db,
    env: Env,
    stamp: Seq<char>,
    there: bool,
    looks: Seq<Look>,
)
    requires
        stamp != "0"@,
        !f.is_generated || f.is_override || overridden(f.stamp.unwrap(), stamp),
        f.stamp is Some || !f.is_generated || f.is_override,
    ensures
        ({
            let p = planned(f, db, env, Ok(stamp), true, there, looks);
            let g = p.file;
            &&& p.plan == Ok::<PlanView, ErrorView>(PlanView::Over(0))
            &&& !f.is_generated && !f.is_override ==> !g.is_generated && !g.is_override && g.stamp == Some(stamp)
                && p.notice == OverrideNotice::Silent && (f.stamp != Some(stamp) ==> g.changed_runid == env.runid)
            &&& f.is_override ==> g == f
            &&& f.is_generated && f.is_override ==> p.notice == OverrideNotice::Known
            &&& f.is_generated && !f.is_override ==> g.is_override && g.is_generated && g.stamp == Some(stamp)
                && g.changed_runid == env.runid && p.notice == OverrideNotice::New
        }),
{
}

/// A target that cannot be looked at is not built, and nothing is written about it.
pub proof fn law_unseen_target_is_an_error(
    f: FileView,
    db: Db,
    env: Env,
    e: ErrorView,
    is_file: bool,
    there: bool,
    looks: Seq<Look>,
)
    ensures
        planned(f, db, env, Err(e), is_file, there, looks).plan == Err::<PlanView, ErrorView>(e),
        planned(f, db, env, Err(e), is_file, there, looks).writes.len() == 0,
{
}

/// The end of a job that succeeded. If its row says that it was looked at or has changed in this run, `redo-stamp` has run: then
/// its checksum and both runs stay as they are in the row. Otherwise it has no checksum and has changed in this run.
/// Either way it is generated, not overridden, and stamped as what it is now. `k` is where its row is.
pub proof fn law_success_is_recorded(f: FileView, db: Db, run: i64, stamp: Seq<char>, k: int)
    requires
        run > 0,
        0 <= k < db.files.len(),
        db.files[k].id == f.id,
        forall|i: int| 0 <= i < k ==> (#[trigger] db.files[i]).id != f.id,
        is_redo_path(db.files[k].name),
        db.files[k].name != "//ALWAYS".spec_bytes(),
    ensures
        ({
            let row = db.files[k];
            let (g, code) = recorded(f, db, Some(run), true, 0, Ok(stamp));
            let noted = (row.checked_runid matches Some(r) && r >= run) || (row.changed_runid matches Some(r) && r >= run);
            &&& code == 0
            &&& g.id == f.id && g.name == row.name
            &&& g.is_generated && !g.is_override
            &&& g.stamp == Some(stamp)
            &&& g.checked_runid == row.checked_runid
            &&& noted ==> {
                &&& g.changed_runid == row.changed_runid
                &&& row.csum matches Some(c) ==> g.csum == c
                &&& row.csum is None ==> g.csum.len() == 0
                &&& g.failed_runid == row.failed_runid
            }
            &&& !noted ==> g.changed_runid == Some(run) && g.csum.len() == 0 && g.failed_runid is None
        }),
{
    crate::db::law_found_by_id(db.files, k, f.id);
}

/// The end of a job that failed: its target has failed in this run, and counts as generated just if it exists. It keeps its
/// checksum, and the run in which it was looked at. The exit code stays what it is.
pub proof fn law_failure_is_recorded(f: FileView, db: Db, runid: Option<i64>, rv: i32, stamp: Seq<char>)
    requires
        rv != 0,
    ensures
        ({
            let (g, code) = recorded(f, db, runid, false, rv, Ok(stamp));
            &&& code == rv
            &&& g.failed_runid == runid
            &&& g.is_generated <==> stamp != "0"@
            &&& g.stamp == Some(stamp)
            &&& g.csum == f.csum && g.checked_runid == f.checked_runid && g.id == f.id && g.name == f.name
            &&& f.stamp == Some(stamp) ==> g.changed_runid == f.changed_runid
            &&& f.stamp != Some(stamp) ==> g.changed_runid == runid
        }),
{
}

/// A job whose target cannot be read or looked at when it ends has failed with the code for that.
pub proof fn law_unrecorded_is_an_error(
    f: FileView,
    db: Db,
    runid: Option<i64>,
    built: bool,
    rv: i32,
    stamp: Result<Seq<char>, ErrorView>,
)
    requires
        stamp is Err || forall|i: int| 0 <= i < db.files.len() ==> (#[trigger] db.files[i]).id != f.id,
        built || (stamp is Err && rv != 0),
    ensures
        recorded(f, db, runid, built, rv, stamp).1 == 209,
{
    crate::db::law_found_by_id(db.files, 0, f.id);
}

/// Once a job has succeeded, none of the dependencies is left that were marked when it began and that it did not note again; all
/// others stay. What is known of the target is written, whether the job succeeded or not.
pub proof fn law_end_of_job_is_written(g: FileView, code: i32, db: Db, d: DepRow, k: int)
    requires
        0 <= k < db.files.len(),
    ensures
        ({
            let after = replay(db, end_writes(g, code));
            &&& code == 0 ==> (after.deps.contains(d) <==> db.deps.contains(d) && !(d.target == g.id && d.delete_me))
            &&& code != 0 ==> after.deps == db.deps
            &&& after.files.len() == db.files.len()
            &&& db.files[k].id != g.id ==> after.files[k] == db.files[k]
            &&& db.files[k].id == g.id ==> after.files[k].stamp == g.stamp && after.files[k].changed_runid == g.changed_runid
                && after.files[k].failed_runid == g.failed_runid && after.files[k].checked_runid == g.checked_runid
                && after.files[k].is_generated == Some(g.is_generated) && after.files[k].is_override == Some(g.is_override)
        }),
{
    let del = WriteView::DeleteMarkedDeps(g.id);
    let up = WriteView::UpdateFile(row_of_file(g));
    crate::db::law_writes_in_turn(db, seq![], del);
    crate::db::law_writes_in_turn(db, seq![], up);
    crate::db::law_writes_in_turn(db, seq![del], up);
    assert(Seq::<WriteView>::empty().push(del) =~= seq![del]);
    assert(Seq::<WriteView>::empty().push(up) =~= seq![up]);
    assert(seq![del].push(up) =~= seq![del, up]);
    crate::db::law_delete_takes_marked(db, g.id, d);
    crate::db::law_update_changes_one(db, row_of_file(g), k);
    crate::db::law_update_changes_one(apply(db, del), row_of_file(g), k);
}

/// What a `.do` file does wrong. One that leaves its target as it was has not written to it; one that makes a target where there was
/// none has, and so has one that changes the time of its target. A directory is no such target. A job with a mistake
/// has failed, and one without has the exit code of its process.
pub proof fn law_mistakes_fail(
    rv: i32,
    before: Option<FileTimes>,
    after: Option<FileTimes>,
    stdout_size: int,
    tmp_there: bool,
)
    ensures
        ({
            let m = mistake_of(before, after, stdout_size, tmp_there);
            &&& after is None ==> m != Mistake::WroteTarget
            &&& after matches Some(a) ==> {
                &&& a.is_dir ==> m != Mistake::WroteTarget
                &&& before is None && !a.is_dir ==> m == Mistake::WroteTarget
                &&& before matches Some(b) ==> {
                    &&& a.mtime == b.mtime ==> m != Mistake::WroteTarget
                    &&& a.mtime is Some && b.mtime is Some && a.mtime != b.mtime && !a.is_dir ==> m == Mistake::WroteTarget
                }
            }
            &&& tmp_there && stdout_size > 0 ==> m != Mistake::Nothing
            &&& m == Mistake::TwoOutputs ==> tmp_there && stdout_size > 0
            &&& m == Mistake::Nothing ==> judged(rv, m) == rv
            &&& m == Mistake::WroteTarget ==> judged(rv, m) == 206
            &&& m == Mistake::TwoOutputs ==> judged(rv, m) == 207
        }),
{
}

/// Whichever `.do` file builds a target, what it is called with names that target: from the directory of the `.do` file `$1`
/// leads to it, `$2` is `$1` without the extension that the `.do` file stands for, and the temporary file lies beside it, under
/// its name with `.redo.tmp` behind.
pub proof fn law_job_is_told_its_target(p: Seq<u8>, i: int, tmp: Seq<u8>, verbose: bool, xtrace: bool, firstline: Seq<char>)
    requires
        is_rooted(p),
        normalized(p) != seq![SEP],
        0 <= i < crate::paths::do_files_for(normalized(p)).len(),
    ensures
        ({
            let d = crate::paths::do_files_for(normalized(p))[i];
            let argv = do_command(d, tmp, verbose, xtrace, firstline);
            let n = argv.len() as int;
            &&& tmp_name_of(d) == normalized(p) + ".redo.tmp".spec_bytes()
            &&& n >= 5
            &&& argv[n - 4] == d.do_file
            &&& pushed(d.do_dir, argv[n - 3]) == normalized(p)
            &&& argv[n - 3] == argv[n - 2] + d.ext
            &&& argv[n - 1] == tmp
        }),
{
    let d = crate::paths::do_files_for(normalized(p))[i];
    crate::paths::law_do_file_names_target(p, i);
    let x = d.base_name + d.ext;
    let suf = ".redo.tmp".spec_bytes();
    reveal_strlit(".redo.tmp");
    assert(is_ascii(".redo.tmp"));
    is_ascii_spec_bytes(".redo.tmp");
    assert(suf.len() > 0 && suf[0] != SEP);
    assert(is_rooted(x + suf) == is_rooted(x)) by {
        if x.len() > 0 {
            assert((x + suf)[0] == x[0]);
        } else {
            assert((x + suf)[0] == suf[0]);
        }
    }
    assert(pushed(d.do_dir, x + suf) =~= pushed(d.do_dir, x) + suf);
    let argv = do_command(d, tmp, verbose, xtrace, firstline);
    let line = trimmed(trimmed_front(firstline));
    let args = do_args(d, tmp);
    assert(args.len() == 4);
    if names_interpreter(line) {
        crate::text::lemma_split_len(line.skip(2), ' ');
        let head = encoded(split(line.skip(2), ' '));
        assert(argv == head + args);
        assert(argv.len() == head.len() + 4);
    } else {
        assert(argv.len() == 6);
    }
}

/// A `.do` file is run by the interpreter that its first line names, and by the shell otherwise, which then stops at the first
/// command that fails.
pub proof fn law_interpreter_runs_do_file(d: DoFileView, tmp: Seq<u8>, verbose: bool, xtrace: bool, firstline: Seq<char>)
    ensures
        ({
            let argv = do_command(d, tmp, verbose, xtrace, firstline);
            let line = trimmed(trimmed_front(firstline));
            let named = line.len() >= 3 && line[0] == '#' && line[1] == '!' && line[2] == '/';
            &&& !named ==> {
                &&& argv.len() == 6
                &&& argv[0] == "sh".spec_bytes()
                &&& "-e".spec_bytes().is_prefix_of(argv[1])
                &&& !verbose && !xtrace ==> argv[1] == "-e".spec_bytes()
                &&& verbose && !xtrace ==> argv[1] == "-e".spec_bytes() + "v".spec_bytes()
                &&& !verbose && xtrace ==> argv[1] == "-e".spec_bytes() + "x".spec_bytes()
                &&& verbose && xtrace ==> argv[1] == "-e".spec_bytes() + "v".spec_bytes() + "x".spec_bytes()
            }
            &&& named ==> argv.len() == split(line.skip(2), ' ').len() + 4 && forall|i: int|
                0 <= i < split(line.skip(2), ' ').len() ==> #[trigger] argv[i] == encode_utf8(split(line.skip(2), ' ')[i])
        }),
{
    let e = "-e".spec_bytes();
    assert(e + seq![] + seq![] =~= e);
    assert(e + "v".spec_bytes() + seq![] =~= e + "v".spec_bytes());
    assert(e + seq![] + "x".spec_bytes() =~= e + "x".spec_bytes());
}

/// What a job finds in its environment: its target, where its `.do` file is, and how deep its messages are, one step deeper than
/// ours. What was asked for once is not handed on.
pub proof fn law_job_environment(env: Env, df: DoFileView, pwd: Seq<u8>)
    ensures
        ({
            let cs = job_env(env, df, pwd);
            &&& cs.contains(EnvChangeView::Put("REDO_TARGET"@, df.base_name + df.ext))
            &&& cs.contains(EnvChangeView::Put("REDO_PWD"@, pwd))
            &&& cs.contains(EnvChangeView::Put("REDO_DEPTH"@, env.depth@ + "  ".spec_bytes()))
            &&& cs.contains(EnvChangeView::Remove("CDPATH"@))
            &&& env.xtrace == 1 ==> cs.contains(EnvChangeView::Put("REDO_XTRACE"@, "0".spec_bytes()))
            &&& env.verbose == 1 ==> cs.contains(EnvChangeView::Put("REDO_VERBOSE"@, "0".spec_bytes()))
            &&& env.xtrace != 1 && env.verbose != 1 ==> cs.len() == 4
        }),
{
    let cs = job_env(env, df, pwd);
    assert(cs[0] == EnvChangeView::Remove("CDPATH"@));
    assert(cs[1] == EnvChangeView::Put("REDO_PWD"@, pwd));
    assert(cs[2] == EnvChangeView::Put("REDO_TARGET"@, df.base_name + df.ext));
    assert(cs[3] == EnvChangeView::Put("REDO_DEPTH"@, env.depth@ + "  ".spec_bytes()));
    if env.xtrace == 1 {
        assert(cs[4] == EnvChangeView::Put("REDO_XTRACE"@, "0".spec_bytes()));
    }
    if env.verbose == 1 {
        assert(cs[cs.len() - 1] == EnvChangeView::Put("REDO_VERBOSE"@, "0".spec_bytes()));
    }
}

/// The exit code of a process tells how its build failed.
pub proof fn law_build_exit_codes(t: Seq<char>)
    ensures
        build_error_code(BuildErrorView::Generic) == 1,
        build_error_code(BuildErrorView::FailedInAnotherThread(t)) == 2,
        build_error_code(BuildErrorView::InvalidTarget(t)) == 204,
        build_error_code(BuildErrorView::CyclicDependency) == 208,
{
}

/// The `.do` file that is about to be run is noted as a source, with its stamp, under its own name. If it is not what it was when it
/// was last stamped, it has changed in this run.
pub proof fn law_do_file_is_noted(
    path: Seq<u8>,
    db: Db,
    env: Env,
    stamp: Seq<char>,
    places: Places,
    name: Seq<u8>,
    k: int,
)
    requires
        db_name(path, env.base@, places) == Ok::<Seq<u8>, ErrorView>(name),
        is_redo_path(name),
        name != "//ALWAYS".spec_bytes(),
        stamp != "0"@,
        0 <= k < db.files.len(),
        db.files[k].name == name,
        forall|i: int| 0 <= i < k ==> (#[trigger] db.files[i]).name != name,
    ensures
        ({
            let (res, ws) = noted_do_file(path, db, env, Ok(stamp), places);
            let after = replay(db, ws);
            &&& res is Ok
            &&& after.files.len() == db.files.len()
            &&& after.deps == db.deps
            &&& after.files[k].is_generated == Some(false)
            &&& after.files[k].is_override == Some(false)
            &&& after.files[k].failed_runid is None
            &&& after.files[k].stamp == Some(stamp)
            &&& db.files[k].stamp != Some(stamp) ==> after.files[k].changed_runid == env.runid
            &&& db.files[k].stamp == Some(stamp) ==> after.files[k].changed_runid == db.files[k].changed_runid
        }),
{
    crate::db::law_found_by_name(db.files, k, name);
    let (res, ws) = noted_do_file(path, db, env, Ok(stamp), places);
    let w = ws.last();
    assert(ws =~= Seq::<WriteView>::empty().push(w));
    crate::db::law_writes_in_turn(db, seq![], w);
    assert(w matches WriteView::UpdateFile(row) && row.id == db.files[k].id);
    crate::db::law_update_changes_one(db, w->UpdateFile_0, k);
}

/// Targets have their turns in order. Whose turn it is, all before it have had theirs under the same name, and it has not; all
/// after it are left, and nothing else changes.
pub proof fn law_turns_in_order(v: ScheduleView, targets: Seq<Seq<char>>, k: int)
    requires
        0 <= k < v.rest.len(),
        forall|j: int|
            0 <= j < k ==> targets[(#[trigger] v.rest[j]) as int].len() > 0 && v.seen.contains(targets[v.rest[j] as int]),
        targets[v.rest[k] as int].len() == 0 || !v.seen.contains(targets[v.rest[k] as int]),
    ensures
        ({
            let t = targets[v.rest[k] as int];
            let (turn, w) = next_turn(v, targets);
            &&& t.len() > 0 ==> {
                &&& turn == Turn::Target(v.rest[k])
                &&& w.rest == v.rest.skip(k + 1)
                &&& w.seen == v.seen.insert(t)
                &&& w.failure == v.failure
            }
            &&& t.len() == 0 ==> {
                &&& turn is Nameless
                &&& w.rest.len() == 0
                &&& w.failure matches Some(f) && f.kind is InvalidTarget
            }
            &&& w.locked == v.locked && w.keep_going == v.keep_going
        }),
    decreases k,
{
    if k > 0 {
        let u = ScheduleView { rest: v.rest.skip(1), ..v };
        assert(targets[v.rest[0] as int].len() > 0);
        assert forall|j: int| 0 <= j < k - 1 implies targets[(#[trigger] u.rest[j]) as int].len() > 0 && u.seen.contains(
            targets[u.rest[j] as int],
        ) by {
            assert(u.rest[j] == v.rest[j + 1]);
        }
        assert(u.rest[k - 1] == v.rest[k]);
        law_turns_in_order(u, targets, k - 1);
        assert(u.rest.skip(k) =~= v.rest.skip(k + 1));
    }
}

/// Once every name has had its turn, it is nobody's.
pub proof fn law_turns_end(v: ScheduleView, targets: Seq<Seq<char>>)
    requires
        forall|j: int|
            0 <= j < v.rest.len() ==> targets[(#[trigger] v.rest[j]) as int].len() > 0 && v.seen.contains(
                targets[v.rest[j] as int],
            ),
    ensures
        next_turn(v, targets).0 is Over,
        next_turn(v, targets).1 == (ScheduleView { rest: seq![], ..v }),
    decreases v.rest.len(),
{
    if v.rest.len() > 0 {
        let u = ScheduleView { rest: v.rest.skip(1), ..v };
        assert(targets[v.rest[0] as int].len() > 0);
        assert forall|j: int| 0 <= j < u.rest.len() implies targets[(#[trigger] u.rest[j]) as int].len() > 0
            && u.seen.contains(targets[u.rest[j] as int]) by {
            assert(u.rest[j] == v.rest[j + 1]);
        }
        law_turns_end(u, targets);
    } else {
        assert(v.rest =~= seq![]);
    }
}

/// A list of targets is refused just if a name in it holds a line feed; the first such name is the one that is named.
pub proof fn law_line_feeds_are_refused(targets: Seq<Seq<char>>, order: Seq<usize>, k: int)
    ensures
        (forall|j: int| 0 <= j < order.len() ==> !targets[(#[trigger] order[j]) as int].contains('\n')) ==> first_bad(
            targets,
            order,
        ) is None,
        0 <= k < order.len() && targets[order[k] as int].contains('\n') && (forall|j: int|
            0 <= j < k ==> !targets[(#[trigger] order[j]) as int].contains('\n')) ==> first_bad(targets, order) == Some(
            targets[order[k] as int],
        ),
    decreases order.len(),
{
    if order.len() > 0 {
        let rest = order.skip(1);
        law_line_feeds_are_refused(targets, rest, k - 1);
        if forall|j: int| 0 <= j < order.len() ==> !targets[(#[trigger] order[j]) as int].contains('\n') {
            assert(!targets[order[0] as int].contains('\n'));
            assert forall|j: int| 0 <= j < rest.len() implies !targets[(#[trigger] rest[j]) as int].contains('\n') by {
                assert(rest[j] == order[j + 1]);
            }
        }
        if 0 < k < order.len() && (forall|j: int| 0 <= j < k ==> !targets[(#[trigger] order[j]) as int].contains('\n')) {
            assert(!targets[order[0] as int].contains('\n'));
            assert(rest[k - 1] == order[k]);
            assert forall|j: int| 0 <= j < k - 1 implies !targets[(#[trigger] rest[j]) as int].contains('\n') by {
                assert(rest[j] == order[j + 1]);
            }
        }
    }
}

/// If anything goes wrong when output is put in place, the job fails. What went well changes nothing.
pub proof fn law_lost_output_fails_job(step: OutputStep, worked: bool, rv: i32)
    ensures
        code_after(true, rv) == rv,
        code_after(false, rv) == 209,
        !(step is RemoveTmp) && !(step is CopyStdout) && code_after(worked, rv) != 0 ==> next_step(
            step,
            worked,
            code_after(worked, rv),
        ) == Some(OutputStep::RemoveTmp),
        step is CopyStdout && !worked ==> next_step(step, worked, code_after(worked, rv)) == Some(OutputStep::RemoveTarget),
{
}

/// A process whose messages may be watched is one that builds a target and was not told to leave the lock alone. The target is
/// found from where redo was started.
pub proof fn law_own_target(env: Env)
    ensures
        own_target(env) is Some <==> env.target@.len() > 0 && !env.unlocked,
        own_target(env) is Some && env.startdir@.len() > 0 && env.startdir@.last() != SEP && env.pwd@.len() > 0 && env.pwd@[0]
            != SEP && env.pwd@.last() != SEP && env.target@[0] != SEP ==> own_target(env) == Some(
            env.startdir@ + seq![SEP] + env.pwd@ + seq![SEP] + env.target@,
        ),
        own_target(env) is Some && env.startdir@.len() > 0 && env.startdir@.last() != SEP && env.pwd@.len() == 0
            && env.target@[0] != SEP ==> own_target(env) == Some(env.startdir@ + seq![SEP] + env.target@),
        own_target(env) is Some && env.target@[0] == SEP ==> own_target(env) == Some(env.target@),
{
    let d = pushed(env.startdir@, env.pwd@);
    crate::helpers::law_pushed(env.startdir@, env.pwd@);
    crate::helpers::law_pushed(d, env.target@);
    if env.startdir@.len() > 0 && env.startdir@.last() != SEP && env.pwd@.len() > 0 && env.pwd@[0] != SEP {
        assert(d == env.startdir@ + seq![SEP] + env.pwd@);
        assert(d.last() == env.pwd@.last());
    }
    if env.startdir@.len() > 0 && env.startdir@.last() != SEP && env.pwd@.len() == 0 {
        assert(d =~= env.startdir@ + seq![SEP]);
    }
}

/// The redo-log that shows what we write follows standard input, says on the given file descriptor when it is ready, and has
/// for each setting either the option that switches it on or the one that switches it off. Color has neither if it is to be
/// found out.
pub proof fn law_log_reader_command(b: LogReaderView, ack_fd: int, to_tty: bool)
    ensures
        ({
            let c = log_command(b, ack_fd, to_tty);
            &&& c.take(5) == seq!["redo-log"@, "--recursive"@, "--follow"@, "--ack-fd"@, decimal_int(ack_fd)]
            &&& c.last() == "-"@
            &&& c[5] == if b.status && to_tty { "--status"@ } else { "--no-status"@ }
            &&& c[6] == if b.details { "--details"@ } else { "--no-details"@ }
            &&& c[7] == if b.pretty { "--pretty"@ } else { "--no-pretty"@ }
            &&& c[8] == if b.debug_locks { "--debug-locks"@ } else { "--no-debug-locks"@ }
            &&& c[9] == if b.debug_pids { "--debug-pids"@ } else { "--no-debug-pids"@ }
            &&& b.color is Auto <==> c.len() == 11
            &&& b.color is On ==> c.len() == 12 && c[10] == "--color"@
            &&& b.color is Off ==> c.len() == 12 && c[10] == "--no-color"@
        }),
{
    let c = log_command(b, ack_fd, to_tty);
    assert(c.take(5) =~= seq!["redo-log"@, "--recursive"@, "--follow"@, "--ack-fd"@, decimal_int(ack_fd)]);
}

/// A command is shown with its words in order, a space before each, after an asterisk. It is all on one line: a line feed is
/// shown as a space, and every other byte as it is.
pub proof fn law_commands_are_shown(argv: Seq<Seq<u8>>, word: Seq<u8>, i: int)
    ensures
        shown_command(seq![]) == "*".spec_bytes(),
        shown_command(argv.push(word)).len() == shown_command(argv).len() + 1 + word.len(),
        shown_command(argv.push(word)).take(shown_command(argv).len() as int) == shown_command(argv),
        shown_command(argv.push(word))[shown_command(argv).len() as int] == 0x20,
        0 <= i < word.len() ==> shown_command(argv.push(word))[shown_command(argv).len() + 1 + i] == if word[i] == 0x0a {
            0x20
        } else {
            word[i]
        },
{
    reveal_strlit("*");
    assert(is_ascii("*"));
    is_ascii_spec_bytes("*");
    assert("*".spec_bytes() =~= seq![0x2au8]);
    assert(shown_command(seq![]) == seq![0x2au8]);
    let all = argv.push(word);
    assert(all.drop_last() =~= argv);
    assert(shown_command(all) == shown_command(argv) + seq![0x20u8] + on_one_line(word));
    assert(shown_command(all).take(shown_command(argv).len() as int) =~= shown_command(argv));
}

/// A job with a log of its own is told so, and which it is. One without logs is told that; one whose messages go where ours go
/// is told nothing.
pub proof fn law_log_environment(inode: Seq<u8>)
    ensures
        log_env(LogTarget::Own, inode).contains(EnvChangeView::Put("REDO_LOG"@, "1".spec_bytes())),
        log_env(LogTarget::Own, inode).contains(EnvChangeView::Put("REDO_LOG_INODE"@, inode)),
        log_env(LogTarget::Inherited, inode).len() == 0,
        log_env(LogTarget::Off, inode).contains(EnvChangeView::Put("REDO_LOG"@, "0".spec_bytes())),
        log_env(LogTarget::Off, inode).contains(EnvChangeView::Remove("REDO_LOG_INODE"@)),
{
    assert(log_env(LogTarget::Own, inode)[0] == EnvChangeView::Put("REDO_LOG"@, "1".spec_bytes()));
    assert(log_env(LogTarget::Own, inode)[1] == EnvChangeView::Put("REDO_LOG_INODE"@, inode));
    assert(log_env(LogTarget::Off, inode)[0] == EnvChangeView::Remove("REDO_LOG_INODE"@));
    assert(log_env(LogTarget::Off, inode)[1] == EnvChangeView::Put("REDO_LOG"@, "0".spec_bytes()));
}

/// What is said of a target that someone has modified: nothing unless we generated it and it is still there; that it was known, if it
/// was; and otherwise that it was just found out, if its stamps show it.
pub proof fn law_what_is_said_of_overrides(f: FileView, stamp: Seq<char>)
    ensures
        !f.is_generated || stamp == "0"@ ==> override_notice(f, stamp) is Silent,
        f.is_generated && stamp != "0"@ && f.is_override ==> override_notice(f, stamp) is Known,
        f.is_generated && stamp != "0"@ && !f.is_override ==> {
            &&& overridden(f.stamp.unwrap(), stamp) ==> override_notice(f, stamp) is New
            &&& !overridden(f.stamp.unwrap(), stamp) ==> override_notice(f, stamp) is Silent
        },
{
}

/// Before a target is built, what it depended on is marked as no longer needed. That is not done for a file of the user's: it is noted as
/// it is, and nothing is built.
pub proof fn law_before_a_build(f: FileView, runid: Option<i64>, s: Seq<char>, is_file: bool)
    requires
        f.is_generated && !f.is_override ==> f.stamp is Some,
        f.is_generated && !f.is_override && s != "0"@ ==> !overridden(f.stamp.unwrap(), s),
    ensures
        ({
            let b = before_build_view(f, runid, Ok(s), is_file);
            &&& !is_file || f.is_generated && !f.is_override ==> {
                &&& b.step == Ok::<Before, ErrorView>(Before::FindDoFile)
                &&& b.file == f
                &&& b.writes.len() > 0 && b.writes.last() == WriteView::MarkDeps(f.id)
            }
            &&& is_file && f.is_override ==> b.step == Ok::<Before, ErrorView>(Before::Static) && b.file == f
            &&& is_file && !f.is_override && !f.is_generated && b.step is Ok ==> {
                &&& b.step == Ok::<Before, ErrorView>(Before::Static)
                &&& b.file.stamp == Some(s) && !b.file.is_generated
            }
            &&& is_file && (f.is_override || !f.is_generated) && b.step is Ok ==> b.writes.last() == WriteView::UpdateFile(
                row_of_file(b.file),
            )
        }),
{
}

/// A target without a `.do` file is a source if it is there, and that is success. If it is not there the job has failed.
pub proof fn law_no_rule(f: FileView, runid: Option<i64>, stamp: Result<Seq<char>, ErrorView>, there: bool)
    ensures
        no_rule_view(f, runid, stamp, there) matches Ok((rv, g)) ==> {
            &&& there <==> rv == 0
            &&& !there ==> rv == 1 && g.failed_runid == runid
            &&& there ==> !g.is_generated && !g.is_override && g.failed_runid is None
            &&& g.id == f.id && g.name == f.name
        },
        stamp is Err ==> no_rule_view(f, runid, stamp, there) is Err,
{
}

/// What a failed build says by its kind.
pub proof fn law_build_error_texts(t: Seq<char>)
    ensures
        build_error_text(BuildErrorView::Generic) == "Build failed"@,
        build_error_text(BuildErrorView::FailedInAnotherThread(t)) == quoted(t) + ": failed in another thread"@,
        build_error_text(BuildErrorView::InvalidTarget(t)) == "Invalid target "@ + quoted(t),
        build_error_text(BuildErrorView::CyclicDependency) == "Cyclic dependency detected"@,
{
}

} // verus!
