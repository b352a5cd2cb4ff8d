use redo::builder::{
    before_build, cheat_tokens, check_ack, check_names, do_argv, first_output_step, job_changes, judge, log_changes,
    log_target, next_output_step, no_rule, note_do_file, own_path, plan_build, record_new_state, show_command, start, target_order,
    tmp_name, unlocked_argv, unlocked_changes, Ack, Before, BuildError, BuildErrorKind, EnvChange, FileTimes, LogTarget, Mistake, OutputStep,
    OverrideNotice, Plan, Start, StdinLogReaderBuilder,
};
use redo::commands::{
    add_default_target, apply_checksum, check_jobs, checksum, closes_stdin, depend_on_absence, exit_code, flag_changes,
    list_targets, mark_always, requested_jobs, should_build, stamp_contents, to_hex, tool_for, tri_state, unlocked_args, usable_jobs,
    wants_log_reader, IfCreate, RedoFlags, Tool,
};
use redo::db::{DepMode, FileRow, Tables};
use redo::deps::{is_dirty, Dirtiness, DirtyCallbacks};
use redo::env::{Env, OptionalBool, Var};
use redo::error::{RedoError, RedoErrorKind};
use redo::paths::{DoFile, Look};
use redo::relpath::{AbsolutePath, Places, RealDir};
use redo::runner::{Action, Event, Runner};
use redo::stamp::{FileMeta, Observed, Stat};
use redo::state::{File, Opened, ProcessState, ProcessTransaction, TransactionBehavior};

const RUN: i64 = 1000000001;

fn vars(pairs: &[(&str, &str)]) -> Vec<Var> {
    pairs.iter().map(|(k, v)| (k.as_bytes().to_vec(), v.as_bytes().to_vec())).collect()
}

fn env(pairs: &[(&str, &str)]) -> Env {
    Env::inherit(&vars(pairs))
}

fn places() -> Places {
    Places { cwd: Ok(AbsolutePath::new(b"/base".to_vec()).unwrap()), target: RealDir::NotFound, base: RealDir::NotFound }
}

fn row(id: i64, name: &str) -> FileRow {
    FileRow {
        id,
        name: name.as_bytes().to_vec(),
        is_generated: None,
        is_override: None,
        checked_runid: None,
        changed_runid: None,
        failed_runid: None,
        stamp: None,
        csum: None,
    }
}

fn generated(id: i64, name: &str, stamp: &str) -> FileRow {
    let mut r = row(id, name);
    r.is_generated = Some(true);
    r.changed_runid = Some(5);
    r.stamp = Some(stamp.to_string());
    r
}

fn with(files: Vec<FileRow>) -> ProcessTransaction {
    let tables = Tables { files, deps: vec![] };
    let opened = Opened::Existing { version: Some(2), last_runid: RUN - 1, tables };
    ProcessTransaction::new(ProcessState::init(env(&[("REDO_BASE", "/base")]), opened).unwrap(), TransactionBehavior::Immediate)
}

fn regular(mtime: &str) -> Observed {
    let meta = || FileMeta {
        is_dir: false,
        is_symlink: false,
        mtime: Ok(mtime.to_string()),
        len: 2,
        ino: 3,
        mode: 4,
        uid: 5,
        gid: 6,
    };
    Observed { link: Stat::Found(meta()), target: Stat::Found(meta()) }
}

fn nothing() -> Observed {
    Observed { link: Stat::NotFound, target: Stat::NotFound }
}

const STAMP: &str = "1.0-2-3-4-5-6";

fn do_file() -> DoFile {
    DoFile {
        do_dir: b"/p".to_vec(),
        do_file: b"default.o.do".to_vec(),
        base_dir: b"s".to_vec(),
        base_name: b"s/x".to_vec(),
        ext: b".o".to_vec(),
    }
}

fn words(v: &[Vec<u8>]) -> Vec<String> {
    v.iter().map(|w| String::from_utf8(w.clone()).unwrap()).collect()
}

fn changes(v: &[EnvChange]) -> Vec<String> {
    v.iter()
        .map(|c| match c {
            EnvChange::Put(n, b) => format!("{}={}", n, String::from_utf8(b.clone()).unwrap()),
            EnvChange::Remove(n) => format!("-{}", n),
        })
        .collect()
}

#[test]
fn build_errors() {
    assert_eq!("Build failed", BuildErrorKind::default().text());
    assert_eq!("\"x\": failed in another thread", BuildErrorKind::FailedInAnotherThread("x".to_string()).text());
    assert_eq!("Invalid target \"a\\nb\"", BuildErrorKind::InvalidTarget("a\nb".to_string()).text());
    assert_eq!("Cyclic dependency detected", BuildErrorKind::CyclicDependency.text());
    assert_eq!(2, BuildErrorKind::FailedInAnotherThread("x".to_string()).exit_code());
    assert_eq!(204, BuildErrorKind::InvalidTarget("x".to_string()).exit_code());
    assert_eq!(1, BuildErrorKind::Generic.exit_code());
    assert_eq!(208, BuildErrorKind::CyclicDependency.exit_code());
    let e = BuildError::caused_by(RedoError::new("why"));
    assert_eq!(&BuildErrorKind::Generic, e.kind());
    assert_eq!("why", e.cause().as_ref().unwrap().message());
}

#[test]
fn what_is_done_about_targets() {
    assert!(matches!(start(true, Dirtiness::Clean, false), Start::Skip { announce: true }));
    assert!(matches!(start(false, Dirtiness::Clean, false), Start::Skip { announce: false }));
    assert!(matches!(start(true, Dirtiness::Dirty, false), Start::BuildSelf));
    assert!(matches!(start(true, Dirtiness::NeedTargets(vec![]), false), Start::BuildDeps(_)));
    assert!(matches!(start(true, Dirtiness::NeedTargets(vec![]), true), Start::BuildSelf));
}

#[test]
fn sources_are_not_built() {
    let mut ptx = with(vec![row(1, "s")]);
    let mut f = File::from_id(&ptx, 1).unwrap();
    let (step, notice) = before_build(&mut ptx, &mut f, &regular("1.0"), true);
    assert_eq!((Before::Static, OverrideNotice::Silent), (step.unwrap(), notice));
    assert_eq!(STAMP, f.stamp().as_ref().unwrap().as_str());
    assert_eq!(1, ptx.state().journal().len());
}

#[test]
fn targets_are_built() {
    let mut ptx = with(vec![generated(1, "t", STAMP)]);
    let mut f = File::from_id(&ptx, 1).unwrap();
    let (step, notice) = before_build(&mut ptx, &mut f, &regular("1.0"), true);
    assert_eq!((Before::FindDoFile, OverrideNotice::Silent), (step.unwrap(), notice));
}

#[test]
fn modified_targets_are_not_built() {
    let mut ptx = with(vec![generated(1, "t", STAMP)]);
    let mut f = File::from_id(&ptx, 1).unwrap();
    let (step, notice) = before_build(&mut ptx, &mut f, &regular("2.0"), true);
    assert_eq!((Before::Static, OverrideNotice::New), (step.unwrap(), notice));
    assert!(f.is_override());
    let (step, notice) = before_build(&mut ptx, &mut f, &regular("2.0"), true);
    assert_eq!((Before::Static, OverrideNotice::Known), (step.unwrap(), notice));
    let failed = Observed { link: Stat::Failed("denied".to_string()), target: Stat::NotFound };
    let (step, _) = before_build(&mut ptx, &mut f, &failed, true);
    assert_eq!("redo: denied", step.unwrap_err().message());
}

#[test]
fn targets_without_a_rule() {
    let mut ptx = with(vec![row(1, "t")]);
    let mut f = File::from_id(&ptx, 1).unwrap();
    assert_eq!(0, no_rule(&mut ptx, &mut f, &regular("1.0"), true).unwrap());
    assert!(!f.is_failed(ptx.state().env()));
    assert_eq!(1, no_rule(&mut ptx, &mut f, &nothing(), false).unwrap());
    assert!(f.is_failed(ptx.state().env()));
}

#[test]
fn commands_of_do_files() {
    let e = env(&[]);
    let df = do_file();
    assert_eq!(b"/p/s/x.o.redo.tmp".to_vec(), tmp_name(&df));
    assert_eq!(
        vec!["sh", "-e", "default.o.do", "s/x.o", "s/x", "s/x.o.redo.tmp"],
        words(&do_argv(&df, b"s/x.o.redo.tmp", &e, "echo hi\n"))
    );
    let loud = env(&[("REDO_VERBOSE", "1"), ("REDO_XTRACE", "2")]);
    assert_eq!("-evx", words(&do_argv(&df, b"t", &loud, ""))[1]);
    assert_eq!(
        vec!["/usr/bin/env", "python", "-u", "default.o.do", "s/x.o", "s/x", "t"],
        words(&do_argv(&df, b"t", &loud, "  #!/usr/bin/env python -u \r\n"))
    );
    assert_eq!("sh", words(&do_argv(&df, b"t", &e, "#!bin"))[0]);
    assert_eq!(b"* sh a b".to_vec(), show_command(&vec![b"sh".to_vec(), b"a\nb".to_vec()]));
}

#[test]
fn environment_of_jobs() {
    let e = env(&[("REDO_DEPTH", "  "), ("REDO_VERBOSE", "1")]);
    assert_eq!(
        vec!["-CDPATH", "REDO_PWD=sub", "REDO_TARGET=s/x.o", "REDO_DEPTH=    ", "REDO_VERBOSE=0", "REDO_CYCLES=3:9"],
        changes(&job_changes(&e, &do_file(), b"sub", Some("3"), 9))
    );
    let e = env(&[("REDO_XTRACE", "1"), ("REDO_VERBOSE", "2")]);
    assert_eq!(
        vec!["-CDPATH", "REDO_PWD=", "REDO_TARGET=s/x.o", "REDO_DEPTH=  ", "REDO_XTRACE=0"],
        changes(&job_changes(&e, &do_file(), b"", Some("9"), 9))
    );
    assert_eq!(vec!["REDO_DEPTH=   "], changes(&unlocked_changes(&env(&[("REDO_DEPTH", " ")]))));
}

#[test]
fn logs_of_jobs() {
    let on = env(&[("REDO_LOG", "1"), ("REDO_LOG_INODE", "77")]);
    assert_eq!(LogTarget::Own, log_target(&on, b"77"));
    assert_eq!(LogTarget::Inherited, log_target(&on, b"78"));
    assert_eq!(LogTarget::Own, log_target(&env(&[]), b"78"));
    assert_eq!(LogTarget::Off, log_target(&env(&[("REDO_LOG", "0")]), b""));
    assert_eq!(vec!["REDO_LOG=1", "REDO_LOG_INODE=5"], changes(&log_changes(LogTarget::Own, b"5")));
    assert!(log_changes(LogTarget::Inherited, b"5").is_empty());
    assert_eq!(vec!["-REDO_LOG_INODE", "REDO_LOG=0"], changes(&log_changes(LogTarget::Off, b"5")));
}

#[test]
fn targets_that_are_built_first() {
    let deps = vec![b"b".to_vec(), b"a".to_vec(), b"b".to_vec()];
    assert_eq!(vec!["redo-unlocked", "t", "b", "a"], words(&unlocked_argv(b"t", &deps)));
}

#[test]
fn mistakes_of_do_files() {
    let at = |s: i64| Some(FileTimes { is_dir: false, mtime: Some((s, 0)) });
    let dir = Some(FileTimes { is_dir: true, mtime: Some((9, 0)) });
    let unknown = Some(FileTimes { is_dir: false, mtime: None });
    assert_eq!((Mistake::Nothing, 3), judge(3, at(1), at(1), 5, false));
    assert_eq!((Mistake::WroteTarget, 206), judge(0, at(1), at(2), 5, true));
    assert_eq!((Mistake::WroteTarget, 206), judge(0, None, at(2), 0, false));
    assert_eq!((Mistake::Nothing, 0), judge(0, None, dir, 0, false));
    assert_eq!((Mistake::Nothing, 0), judge(0, at(1), unknown, 0, true));
    assert_eq!((Mistake::Nothing, 0), judge(0, at(1), None, 0, true));
    assert_eq!((Mistake::TwoOutputs, 207), judge(0, at(1), at(1), 5, true));
}

#[test]
fn output_is_put_in_place() {
    assert_eq!(OutputStep::RemoveTmp, first_output_step(1, 5, false));
    assert_eq!(OutputStep::RemoveTmp, first_output_step(1, 0, true));
    assert_eq!(OutputStep::RenameTmp, first_output_step(0, 0, true));
    assert_eq!(OutputStep::CopyStdout, first_output_step(0, 5, false));
    assert_eq!(OutputStep::RemoveTarget, first_output_step(0, 0, false));
    assert_eq!((Some(OutputStep::RenameTmp), 0), next_output_step(OutputStep::CopyStdout, true, 0));
    assert_eq!((Some(OutputStep::RemoveTarget), 209), next_output_step(OutputStep::CopyStdout, false, 0));
    assert_eq!((Some(OutputStep::RemoveTmp), 209), next_output_step(OutputStep::RenameTmp, false, 0));
    assert_eq!((Some(OutputStep::RemoveTmp), 209), next_output_step(OutputStep::RemoveTarget, true, 209));
    assert_eq!((None, 209), next_output_step(OutputStep::RemoveTmp, true, 209));
    assert_eq!((None, 7), next_output_step(OutputStep::RemoveTmp, true, 7));
    assert_eq!((None, 0), next_output_step(OutputStep::RenameTmp, true, 0));
    assert_eq!((None, 0), next_output_step(OutputStep::RemoveTarget, true, 0));
}

#[test]
fn ended_jobs_are_recorded() {
    let mut ptx = with(vec![generated(1, "t", "old")]);
    let mut f = File::from_id(&ptx, 1).unwrap();
    assert_eq!(0, record_new_state(&mut ptx, &mut f, true, 0, &regular("1.0")));
    let g = File::from_id(&ptx, 1).unwrap();
    assert!(g.is_generated() && g.is_changed(ptx.state().env()) && !g.is_failed(ptx.state().env()));
    assert_eq!(STAMP, g.stamp().as_ref().unwrap().as_str());
    let mut f = File::from_id(&ptx, 1).unwrap();
    assert_eq!(7, record_new_state(&mut ptx, &mut f, false, 7, &regular("1.0")));
    assert!(File::from_id(&ptx, 1).unwrap().is_failed(ptx.state().env()));
}

#[test]
fn failed_builds_keep_dependencies() {
    let names = |ptx: &ProcessTransaction| {
        let deps = File::from_id(ptx, 1).unwrap().deps(ptx).unwrap();
        deps.iter().map(|(_, d)| d.name().as_str().to_string()).collect::<Vec<String>>()
    };
    let mut ptx = with(vec![generated(1, "t", STAMP), row(2, "a"), row(3, "b")]);
    let mut f = File::from_id(&ptx, 1).unwrap();
    f.add_dep(&mut ptx, DepMode::Modified, b"a", &places()).unwrap();
    f.zap_deps1(&mut ptx);
    f.add_dep(&mut ptx, DepMode::Modified, b"b", &places()).unwrap();
    assert_eq!(7, record_new_state(&mut ptx, &mut f, false, 7, &regular("1.0")));
    assert_eq!(vec!["a", "b"], names(&ptx));
    let mut f = File::from_id(&ptx, 1).unwrap();
    f.zap_deps1(&mut ptx);
    f.add_dep(&mut ptx, DepMode::Modified, b"b", &places()).unwrap();
    assert_eq!(0, record_new_state(&mut ptx, &mut f, true, 0, &regular("1.0")));
    assert_eq!(vec!["b"], names(&ptx));
}

#[test]
fn vanished_targets_need_no_stamp() {
    let mut r = generated(2, "x.o", STAMP);
    r.stamp = None;
    let mut ptx = with(vec![row(1, "//ALWAYS"), r]);
    let mut f = File::from_id(&ptx, 2).unwrap();
    let (plan, notice) = plan_build(&mut ptx, &mut f, &nothing(), false, false, &looks(&[true]));
    assert!(matches!(plan.unwrap(), Plan::Run(_)));
    assert_eq!(OverrideNotice::Silent, notice);
}

#[test]
fn checksums_outlive_builds() {
    let mut r = generated(1, "t", "old");
    r.csum = Some("abc".to_string());
    r.checked_runid = Some(RUN);
    let mut ptx = with(vec![r]);
    let mut f = File::from_id(&ptx, 1).unwrap();
    assert_eq!(0, record_new_state(&mut ptx, &mut f, true, 0, &regular("1.0")));
    let g = File::from_id(&ptx, 1).unwrap();
    assert_eq!(("abc", Some(5)), (g.checksum(), g.changed_run()));
    let mut r = generated(1, "t", "old");
    r.csum = Some("abc".to_string());
    let mut ptx = with(vec![r]);
    let mut f = File::from_id(&ptx, 1).unwrap();
    record_new_state(&mut ptx, &mut f, true, 0, &regular("1.0"));
    assert_eq!("", File::from_id(&ptx, 1).unwrap().checksum());
    let failed = Observed { link: Stat::Failed("denied".to_string()), target: Stat::NotFound };
    assert_eq!(209, record_new_state(&mut ptx, &mut f, true, 0, &failed));
}

#[test]
fn order_of_targets() {
    assert_eq!(vec![0, 1, 2, 3], target_order(4, false));
    let mut o = target_order(50, true);
    let mut other = false;
    for _ in 0..10 {
        other = other || target_order(50, true) != target_order(50, false);
    }
    assert!(other);
    o.sort();
    assert_eq!(target_order(50, false), o);
}

fn looks(there: &[bool]) -> Vec<Look> {
    there.iter().map(|t| Look { there: *t, places: places() }).collect()
}

#[test]
fn plans_for_targets() {
    let mut ptx = with(vec![row(1, "//ALWAYS"), generated(2, "x.o", STAMP)]);
    let mut f = File::from_id(&ptx, 2).unwrap();
    let (plan, notice) = plan_build(&mut ptx, &mut f, &regular("1.0"), true, true, &looks(&[false, true]));
    assert_eq!(OverrideNotice::Silent, notice);
    match plan.unwrap() {
        Plan::Run(d) => assert_eq!((&b"/base"[..], &b"default.o.do"[..]), (d.do_dir(), d.do_file())),
        _ => panic!("not run"),
    }
    let deps = f.deps(&ptx).unwrap();
    assert_eq!(vec!["x.o.do", "default.o.do"], deps.iter().map(|(_, d)| d.name().as_str()).collect::<Vec<_>>());
    assert_eq!(vec![b'c', b'm'], deps.iter().map(|(m, _)| m.into_char()).collect::<Vec<_>>());
}

#[test]
fn plans_for_sources() {
    let mut ptx = with(vec![row(1, "//ALWAYS"), row(2, "x.c"), generated(3, "y.c", STAMP), row(4, "z.c")]);
    let all = looks(&[false, false, false, false, false]);
    let mut f = File::from_id(&ptx, 2).unwrap();
    let (plan, _) = plan_build(&mut ptx, &mut f, &regular("1.0"), true, true, &looks(&[true]));
    assert!(matches!(plan.unwrap(), Plan::Over(0)));
    let mut g = File::from_id(&ptx, 3).unwrap();
    let (plan, notice) = plan_build(&mut ptx, &mut g, &regular("7.0"), true, true, &looks(&[true]));
    assert!(matches!(plan.unwrap(), Plan::Over(0)));
    assert_eq!(OverrideNotice::New, notice);
    let mut h = File::from_id(&ptx, 4).unwrap();
    let (plan, _) = plan_build(&mut ptx, &mut h, &nothing(), false, false, &all);
    assert!(matches!(plan.unwrap(), Plan::Over(1)));
    assert!(File::from_id(&ptx, 4).unwrap().is_failed(ptx.state().env()));
    let mut own = with(vec![row(1, "//ALWAYS"), row(2, "default.do")]);
    let mut d = File::from_id(&own, 2).unwrap();
    let (plan, _) = plan_build(&mut own, &mut d, &nothing(), false, false, &looks(&[false, false, true]));
    assert!(matches!(plan.unwrap(), Plan::DependsOnItself(_)));
}

#[test]
fn built_targets_are_clean() {
    let mut ptx = with(vec![row(1, "//ALWAYS"), row(2, "t")]);
    let mut f = File::from_id(&ptx, 2).unwrap();
    let mut cb = DirtyCallbacks::default();
    assert!(is_dirty(&mut ptx, &mut f, &mut cb, &vec![(2, nothing())]).unwrap().is_dirty());
    assert_eq!(0, record_new_state(&mut ptx, &mut f, true, 0, &regular("1.0")));
    let mut g = File::from_id(&ptx, 2).unwrap();
    assert!(is_dirty(&mut ptx, &mut g, &mut cb, &vec![(2, regular("1.0"))]).unwrap().is_clean());
    let mut h = File::from_id(&ptx, 2).unwrap();
    assert_eq!(3, record_new_state(&mut ptx, &mut h, false, 3, &regular("1.0")));
    let mut h = File::from_id(&ptx, 2).unwrap();
    assert!(is_dirty(&mut ptx, &mut h, &mut cb, &vec![(2, regular("1.0"))]).unwrap().is_dirty());
}

#[test]
fn targets_that_have_to_be_built() {
    let mut summed = generated(2, "t", "old");
    summed.csum = Some("abc".to_string());
    let mut failed = generated(3, "u", STAMP);
    failed.failed_runid = Some(RUN);
    let mut ptx = with(vec![row(1, "//ALWAYS"), summed, failed, generated(4, "v", STAMP)]);
    let mut cb = DirtyCallbacks::default();
    let mut f = File::from_id(&ptx, 2).unwrap();
    let r = should_build(&mut ptx, &mut f, &mut cb, &vec![(2, regular("1.0"))]).unwrap();
    assert!(matches!(r, Some((true, Dirtiness::Dirty))));
    let mut f = File::from_id(&ptx, 3).unwrap();
    assert!(should_build(&mut ptx, &mut f, &mut cb, &vec![(3, regular("1.0"))]).unwrap().is_none());
    let mut f = File::from_id(&ptx, 4).unwrap();
    let r = should_build(&mut ptx, &mut f, &mut cb, &vec![(4, regular("1.0"))]).unwrap();
    assert!(matches!(r, Some((true, Dirtiness::Clean))));
}

#[test]
fn do_files_are_sources() {
    let mut ptx = with(vec![row(1, "//ALWAYS"), generated(2, "d.do", "old")]);
    let mut d = do_file();
    d.do_dir = b"/base".to_vec();
    d.do_file = b"d.do".to_vec();
    note_do_file(&mut ptx, &d, &regular("1.0"), &places()).unwrap();
    let f = File::from_id(&ptx, 2).unwrap();
    assert!(!f.is_generated());
    assert_eq!(STAMP, f.stamp().as_ref().unwrap().as_str());
    assert!(note_do_file(&mut ptx, &d, &nothing(), &places()).is_err());
}

#[test]
fn names_with_line_feeds() {
    let ts = vec!["a".to_string(), "b\n".to_string(), "c\n".to_string()];
    assert!(check_names(&ts, &vec![0]).is_ok());
    let e = check_names(&ts, &vec![2, 0, 1]).unwrap_err();
    assert_eq!(&BuildErrorKind::InvalidTarget("c\n".to_string()), e.kind());
    let e = Runner::new(&ts, vec![0, 2], false).unwrap_err();
    assert_eq!(&BuildErrorKind::InvalidTarget("c\n".to_string()), e.kind());
    assert!(Runner::new(&ts, vec![0], false).is_ok());
}

fn names(ts: &[&str]) -> Vec<String> {
    ts.iter().map(|t| t.to_string()).collect()
}

#[test]
fn runs_of_targets() {
    let ts = names(&["a", "b", "a"]);
    let mut r = Runner::new(&ts, vec![0, 1, 2], false).unwrap();
    assert_eq!(Action::GetToken(0), r.step(Event::Begin, false, &ts));
    assert_eq!(Action::TryLock(0), r.step(Event::Done, false, &ts));
    assert_eq!(Action::Start(0), r.step(Event::Lock { fid: 10, owned: true }, false, &ts));
    assert_eq!(Action::GetToken(1), r.step(Event::Done, true, &ts));
    assert_eq!(Action::TryLock(1), r.step(Event::Done, true, &ts));
    assert_eq!(Action::SayLocked(1), r.step(Event::Lock { fid: 11, owned: false }, true, &ts));
    assert_eq!(Action::WaitAll, r.step(Event::Done, true, &ts));
    r.job_ended("a", 0, false);
    assert_eq!(Action::TryLockAgain(11, 1), r.step(Event::Done, false, &ts));
    assert_eq!(Action::Pause(100), r.step(Event::Lock { fid: 11, owned: false }, false, &ts));
    assert_eq!(Action::WaitForLock(1), r.step(Event::Done, false, &ts));
    assert_eq!(Action::Pause(200), r.step(Event::Lock { fid: 11, owned: false }, false, &ts));
    assert_eq!(Action::WaitForLock(1), r.step(Event::Done, false, &ts));
    assert_eq!(Action::LookAgain(1), r.step(Event::Lock { fid: 11, owned: true }, false, &ts));
    assert_eq!(Action::StartLate(1), r.step(Event::Looked { failed: false }, false, &ts));
    assert_eq!(Action::WaitAll, r.step(Event::Done, true, &ts));
    assert_eq!(Action::Finish, r.step(Event::Done, false, &ts));
    assert!(r.finish().is_ok());
}

#[test]
fn runs_that_fail() {
    let ts = names(&["a", "b"]);
    let mut r = Runner::new(&ts, vec![0, 1], false).unwrap();
    r.step(Event::Begin, false, &ts);
    r.step(Event::Done, false, &ts);
    r.step(Event::Lock { fid: 10, owned: true }, false, &ts);
    assert_eq!(Action::GetToken(1), r.step(Event::Done, true, &ts));
    r.job_ended("a", 3, false);
    assert_eq!(Action::Finish, r.step(Event::Done, false, &ts));
    let e = r.finish().unwrap_err();
    assert_eq!("\"a\": exit code 3", e.cause().as_ref().unwrap().message());
    let mut r = Runner::new(&ts, vec![0, 1], true).unwrap();
    r.step(Event::Begin, false, &ts);
    r.job_ended("x", 3, false);
    assert_eq!(Action::TryLock(0), r.step(Event::Done, false, &ts));
    assert!(r.finish().is_err());
}

#[test]
fn late_jobs_that_fail() {
    let ts = names(&["a"]);
    let mut r = Runner::new(&ts, vec![0], false).unwrap();
    r.step(Event::Begin, false, &ts);
    r.job_ended("a", 3, true);
    let e = r.finish().unwrap_err();
    assert_eq!(&BuildErrorKind::Generic, e.kind());
    assert!(e.cause().is_none());
}

#[test]
fn runs_with_nameless_targets() {
    let ts = names(&["", "b"]);
    let mut r = Runner::new(&ts, vec![0, 1], true).unwrap();
    assert_eq!(Action::ReportNameless, r.step(Event::Begin, false, &ts));
    assert_eq!(Action::Finish, r.step(Event::Done, false, &ts));
    assert_eq!(&BuildErrorKind::InvalidTarget("".to_string()), r.finish().unwrap_err().kind());
}

#[test]
fn targets_that_fail_elsewhere() {
    let ts = names(&["a"]);
    let mut r = Runner::new(&ts, vec![0], false).unwrap();
    r.step(Event::Begin, false, &ts);
    r.step(Event::Done, false, &ts);
    r.step(Event::Lock { fid: 10, owned: false }, false, &ts);
    assert_eq!(Action::WaitAll, r.step(Event::Done, false, &ts));
    r.step(Event::Done, false, &ts);
    r.step(Event::Lock { fid: 10, owned: true }, false, &ts);
    assert_eq!(Action::Unlock(0), r.step(Event::Looked { failed: true }, false, &ts));
    assert_eq!(Action::Finish, r.step(Event::Done, false, &ts));
    assert_eq!(&BuildErrorKind::FailedInAnotherThread("a".to_string()), r.finish().unwrap_err().kind());
}

#[test]
fn own_targets() {
    let e = env(&[("REDO_STARTDIR", "/s"), ("REDO_PWD", "p"), ("REDO_TARGET", "t")]);
    assert_eq!(Some(b"/s/p/t".to_vec()), own_path(&e));
    let u = env(&[("REDO_STARTDIR", "/s"), ("REDO_TARGET", "t"), ("REDO_UNLOCKED", "1")]);
    assert_eq!(None, own_path(&u));
    assert_eq!(None, own_path(&env(&[])));
    assert_eq!((0, 0, 1), (cheat_tokens(None), cheat_tokens(Some(true)), cheat_tokens(Some(false))));
}

#[test]
fn log_readers() {
    let mut b = StdinLogReaderBuilder::new();
    b.set_status(true).set_details(false).set_pretty(false).set_debug_locks(true).set_debug_pids(true).force_color();
    assert_eq!(
        "redo-log --recursive --follow --ack-fd 5 --status --no-details --no-pretty --debug-locks --debug-pids --color -",
        b.argv(5, true).join(" ")
    );
    let mut d = StdinLogReaderBuilder::default();
    assert_eq!(
        "redo-log --recursive --follow --ack-fd 5 --no-status --details --pretty --no-debug-locks --no-debug-pids -",
        d.argv(5, false).join(" ")
    );
    d.disable_color();
    assert!(d.argv(5, false).contains(&"--no-color".to_string()));
    let e = StdinLogReaderBuilder::from_env(&env(&[("REDO_PRETTY", "1"), ("REDO_COLOR", "2")]));
    assert!(e.argv(5, false).contains(&"--color".to_string()));
    assert_eq!((Ack::Started, Ack::Dead, Ack::Unexpected), (check_ack(b"REDO-OK\n"), check_ack(b""), check_ack(b"x")));
}

#[test]
fn programs() {
    assert_eq!(Tool::Redo, tool_for("redo"));
    assert_eq!(Tool::Redo, tool_for("anything"));
    assert_eq!(Tool::Always, tool_for("redo-always"));
    assert_eq!(Tool::IfChange, tool_for("redo-ifchange"));
    assert_eq!(Tool::IfCreate, tool_for("redo-ifcreate"));
    assert_eq!(Tool::Log, tool_for("redo-log"));
    assert_eq!(Tool::Ood, tool_for("redo-ood"));
    assert_eq!(Tool::Sources, tool_for("redo-sources"));
    assert_eq!(Tool::Stamp, tool_for("redo-stamp"));
    assert_eq!(Tool::Targets, tool_for("redo-targets"));
    assert_eq!(Tool::Unlocked, tool_for("redo-unlocked"));
    assert_eq!(Tool::WhichDo, tool_for("redo-whichdo"));
}

#[test]
fn exit_codes() {
    let code = |k: RedoErrorKind| exit_code(&RedoError::wrap(RedoError::from_kind(k), "outer"));
    assert_eq!(1, code(RedoErrorKind::Generic));
    assert_eq!(1, code(RedoErrorKind::FileNotFound));
    assert_eq!(204, code(RedoErrorKind::InvalidTarget(vec![])));
    assert_eq!(208, code(RedoErrorKind::CyclicDependency));
    assert_eq!(200, code(RedoErrorKind::ImmediateExit(200)));
    let target = redo::RedoPathBuf::new();
    assert_eq!(2, code(RedoErrorKind::FailedInAnotherThread { target }));
}

#[test]
fn flags() {
    assert_eq!(OptionalBool::On, tri_state(true, true));
    assert_eq!(OptionalBool::Off, tri_state(false, true));
    assert_eq!(OptionalBool::Auto, tri_state(false, false));
    let f = RedoFlags {
        debug: 2,
        verbose: 0,
        xtrace: 1,
        keep_going: true,
        shuffle: false,
        debug_locks: true,
        debug_pids: false,
        log: OptionalBool::Off,
        pretty: OptionalBool::Auto,
        color: OptionalBool::On,
    };
    assert_eq!(
        vec![
            "REDO_DEBUG=2",
            "REDO_XTRACE=1",
            "REDO_KEEP_GOING=1",
            "REDO_DEBUG_LOCKS=1",
            "REDO_LOG=0",
            "REDO_PRETTY=old",
            "REDO_COLOR=2"
        ],
        changes(&flag_changes(&f, &vars(&[("REDO_PRETTY", "old")])))
    );
}

#[test]
fn jobs() {
    assert_eq!(4, requested_jobs(Some("4")));
    assert_eq!(0, requested_jobs(Some("x")));
    assert_eq!(0, requested_jobs(None));
    assert_eq!((1, true), usable_jobs(4, false, true));
    assert_eq!((0, true), usable_jobs(0, true, true));
    assert_eq!((0, false), usable_jobs(0, false, true));
    assert_eq!((4, false), usable_jobs(4, true, false));
    assert_eq!(1000, check_jobs(1000).unwrap());
    assert_eq!("invalid --jobs value: 1001", check_jobs(1001).unwrap_err().message());
    assert_eq!("invalid --jobs value: -1", check_jobs(-1).unwrap_err().message());
    let mut e = env(&[("REDO_LOG", "0")]);
    e.is_toplevel = true;
    assert!(closes_stdin(&e, 2) && !closes_stdin(&e, 1) && !wants_log_reader(&e));
    e.log = OptionalBool::Auto;
    assert!(closes_stdin(&e, 0) && wants_log_reader(&e));
    e.is_toplevel = false;
    assert!(!closes_stdin(&e, 5) && !wants_log_reader(&e));
    let mut ts: Vec<String> = vec![];
    add_default_target(&mut ts, false);
    assert!(ts.is_empty());
    add_default_target(&mut ts, true);
    add_default_target(&mut ts, true);
    assert_eq!(names(&["all"]), ts);
}

#[test]
fn checksums() {
    assert_eq!("da39a3ee5e6b4b0d3255bfef95601890afd80709", checksum(b""));
    assert_eq!("a9993e364706816aba3e25717850c26c9cd0d89d", checksum(b"abc"));
    assert_eq!("00ff1a", to_hex(&[0, 255, 26]));
}

#[test]
fn stamped_contents() {
    let mut ptx = with(vec![generated(1, "t", STAMP)]);
    let mut f = File::from_id(&ptx, 1).unwrap();
    stamp_contents(&mut ptx, &mut f, b"abc");
    assert_eq!("a9993e364706816aba3e25717850c26c9cd0d89d", f.checksum());
    assert_eq!((Some(RUN), None), (f.changed_run(), f.checked_run()));
    let mut r = generated(1, "t", STAMP);
    r.csum = Some("xyz".to_string());
    let mut ptx = with(vec![r]);
    let mut f = File::from_id(&ptx, 1).unwrap();
    apply_checksum(&mut ptx, &mut f, "xyz".to_string());
    assert_eq!((Some(5), Some(RUN)), (f.changed_run(), f.checked_run()));
}

#[test]
fn targets_that_are_always_built() {
    let mut ptx = with(vec![row(1, "t")]);
    let f = File::from_id(&ptx, 1).unwrap();
    assert!(mark_always(&mut ptx, &f, &places()).unwrap());
    let a = File::from_id(&ptx, 2).unwrap();
    assert_eq!("//ALWAYS", a.name().as_str());
    assert_eq!(Some(RUN), a.changed_run());
    assert!(a.stamp().as_ref().unwrap().is_missing());
    assert_eq!(1, ptx.dep_table().len());
}

#[test]
fn files_that_must_not_be_there() {
    let mut ptx = with(vec![row(1, "t")]);
    let f = File::from_id(&ptx, 1).unwrap();
    assert!(matches!(depend_on_absence(&mut ptx, &f, b"x", false, &places()).unwrap(), IfCreate::Added));
    assert!(matches!(depend_on_absence(&mut ptx, &f, b"", false, &places()).unwrap(), IfCreate::EmptyName));
    assert!(matches!(depend_on_absence(&mut ptx, &f, b"t", false, &places()).unwrap(), IfCreate::Itself));
    let e = depend_on_absence(&mut ptx, &f, b"x", true, &places()).unwrap_err();
    assert_eq!("\"x\" already exists", e.message());
    let e = depend_on_absence(&mut ptx, &f, b"\xff", false, &places()).unwrap_err();
    assert_eq!("cannot use \"\u{fffd}\" as target name", e.message());
}

#[test]
fn listed_targets() {
    let ptx = with(vec![generated(1, "z", STAMP), row(2, "s"), generated(3, "a", STAMP)]);
    let seen = vec![(1, regular("1.0")), (2, regular("1.0")), (3, regular("1.0"))];
    let got = list_targets(&ptx, &seen).unwrap();
    assert_eq!(vec!["a".to_string(), "z".to_string()], got.iter().map(|f| f.name().as_str()).collect::<Vec<_>>());
    let failed = Observed { link: Stat::Failed("denied".to_string()), target: Stat::NotFound };
    let seen = vec![(1, failed), (2, regular("1.0")), (3, regular("1.0"))];
    assert_eq!("redo: denied", list_targets(&ptx, &seen).unwrap_err().message());
}

#[test]
fn arguments_of_redo_unlocked() {
    let e = unlocked_args(&vec![b"t".to_vec()]).unwrap_err();
    assert_eq!("at least 2 arguments expected.", e.message());
    let (t, deps) = unlocked_args(&vec![b"t".to_vec(), b"a".to_vec(), b"b".to_vec()]).unwrap();
    assert_eq!((b"t".to_vec(), vec![b"a".to_vec(), b"b".to_vec()]), (t, deps));
}
