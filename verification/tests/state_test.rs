use redo::db::{DepMode, DepRow, FileRow, Tables, Write};
use redo::deps::{files_to_observe, is_dirty, Dirtiness, DirtyCallbacks, DirtyCallbacksBuilder, Kept};
use redo::env::{Env, Var};
use redo::error::RedoErrorKind;
use redo::paths::{find_do_file, Look, Search};
use redo::relpath::{AbsolutePath, Places, RealDir};
use redo::stamp::{FileMeta, Observed, Stamp, Stat};
use redo::state::{
    always_filename, logname, DropBehavior, File, Files, Opened, ProcessState, ProcessTransaction, TransactionBehavior,
};

const RUN: i64 = 1000000001;

fn env() -> Env {
    let v: Vec<Var> = vec![
        (b"REDO_BASE".to_vec(), b"/base".to_vec()),
        (b"REDO_STARTDIR".to_vec(), b"/base/sub".to_vec()),
    ];
    Env::inherit(&v)
}

fn places() -> Places {
    Places { cwd: Ok(AbsolutePath::new(b"/base".to_vec()).unwrap()), target: RealDir::NotFound, base: RealDir::NotFound }
}

fn fresh() -> ProcessTransaction {
    ProcessTransaction::new(ProcessState::init(env(), Opened::Fresh).unwrap(), TransactionBehavior::Immediate)
}

fn meta(mtime: &str, len: u64) -> FileMeta {
    FileMeta {
        is_dir: false,
        is_symlink: false,
        mtime: Ok(mtime.to_string()),
        len,
        ino: 3,
        mode: 4,
        uid: 5,
        gid: 6,
    }
}

fn regular(mtime: &str, len: u64) -> Observed {
    Observed { link: Stat::Found(meta(mtime, len)), target: Stat::Found(meta(mtime, len)) }
}

fn nothing() -> Observed {
    Observed { link: Stat::NotFound, target: Stat::NotFound }
}

fn row(id: i64, name: &str) -> FileRow {
    FileRow {
        id,
        name: name.as_bytes().to_vec(),
        is_generated: None,
        is_override: None,
        checked_runid: None,
        changed_runid: None,
        failed_runid: None,
        stamp: None,
        csum: None,
    }
}

fn built(id: i64, name: &str, run: i64, stamp: &str) -> FileRow {
    let mut r = row(id, name);
    r.is_generated = Some(true);
    r.changed_runid = Some(run);
    r.stamp = Some(stamp.to_string());
    r
}

fn source(id: i64, name: &str, run: i64, stamp: &str) -> FileRow {
    let mut r = built(id, name, run, stamp);
    r.is_generated = None;
    r
}

fn dep(target: i64, source: i64, mode: DepMode) -> DepRow {
    DepRow { target, source, mode, delete_me: false }
}

fn with(files: Vec<FileRow>, deps: Vec<DepRow>) -> ProcessTransaction {
    let opened = Opened::Existing { version: Some(2), last_runid: RUN - 1, tables: Tables { files, deps } };
    ProcessTransaction::new(ProcessState::init(env(), opened).unwrap(), TransactionBehavior::Immediate)
}

#[test]
fn stamps_of_files() {
    assert_eq!("12.000000-7-3-4-5-6", Stamp::read(&regular("12.000000", 7)).unwrap().as_str());
    assert!(Stamp::read(&nothing()).unwrap().is_missing());
    let mut m = meta("1.5", 1);
    m.is_dir = true;
    assert_eq!("dir", Stamp::from_metadata(&m).unwrap().as_str());
    let mut l = meta("1.5", 1);
    l.is_symlink = true;
    let link = Observed { link: Stat::Found(l), target: Stat::NotFound };
    assert_eq!("1.5-1-3-4-5-6+0", Stamp::read(&link).unwrap().as_str());
    let mut bad = meta("1.5", 1);
    bad.mtime = Err("no clock".to_string());
    assert_eq!("redo: no clock", Stamp::from_metadata(&bad).unwrap_err().message());
    let failed = Observed { link: Stat::Failed("denied".to_string()), target: Stat::NotFound };
    assert_eq!("redo: denied", Stamp::read(&failed).unwrap_err().message());
}

#[test]
fn stamps_and_overrides() {
    let s = |t: &str| Stamp::from(t.to_string());
    assert!(!Stamp::detect_override(&s("1-2-3-4"), &s("1-2-3-4")));
    assert!(!Stamp::detect_override(&s("1-2-3-4"), &s("1-2-9-9")));
    assert!(Stamp::detect_override(&s("1-2-3-4"), &s("1-3-3-4")));
    assert!(Stamp::detect_override(&s("1-2-3-4"), &s("5-2-3-4")));
    assert!(Stamp::detect_override(&s("0"), &s("1-2-3")));
    assert!(!Stamp::detect_override(&s("1-2"), &s("1-2-3")));
    assert_eq!("0", Stamp::default().as_str());
}

#[test]
fn new_database() {
    let mut ptx = fresh();
    assert_eq!(Some(RUN), ptx.state().env().runid);
    assert!(ptx.state().is_flushed());
    let f = File::from_name(&mut ptx, b"//ALWAYS", &places(), false).unwrap();
    assert_eq!(1, f.id());
    assert_eq!(Some(RUN), f.changed_run());
    assert_eq!("//ALWAYS", always_filename().as_str());
    assert!(ptx.state().is_flushed());
}

#[test]
fn database_of_another_version() {
    let tables = Tables { files: vec![], deps: vec![] };
    let e = ProcessState::init(env(), Opened::Existing { version: Some(1), last_runid: 5, tables }).unwrap_err();
    assert_eq!(
        "/base/.redo/db.sqlite3: found v1 (expected v2)\nmanually delete .redo dir to start over.",
        e.message()
    );
    let tables = Tables { files: vec![], deps: vec![] };
    let e = ProcessState::init(env(), Opened::Existing { version: None, last_runid: 5, tables }).unwrap_err();
    assert!(e.message().contains("found v0"));
    let tables = Tables { files: vec![], deps: vec![] };
    let e = ProcessState::init(env(), Opened::Existing { version: Some(2), last_runid: i64::MAX, tables }).unwrap_err();
    assert_eq!("failed to insert new Runid", e.message());
    assert_eq!(b"/base/.redo/locks".to_vec(), ProcessState::lock_file(&env()));
    assert_eq!(b"/base/.redo/log.12".to_vec(), logname(&env(), 12));
}

#[test]
fn known_run_is_kept() {
    let mut e = env();
    e.runid = Some(77);
    let ps = ProcessState::init(e, Opened::Fresh).unwrap();
    assert_eq!(Some(77), ps.env().runid);
}

#[test]
fn files_by_name() {
    let mut ptx = fresh();
    let e = File::from_name(&mut ptx, b"a.c", &places(), false).unwrap_err();
    assert!(matches!(e.kind(), RedoErrorKind::FileNotFound));
    assert_eq!("no file with name=\"a.c\"", e.message());
    let f = File::from_name(&mut ptx, b"sub/../a.c", &places(), true).unwrap();
    assert_eq!((2, "a.c".to_string()), (f.id(), f.name().as_str()));
    assert_eq!(1, ptx.state().journal().len());
    let g = File::from_name(&mut ptx, b"/base/a.c", &places(), false).unwrap();
    assert_eq!(2, g.id());
    assert_eq!(1, ptx.state().journal().len());
    let h = File::from_name(&mut ptx, b"/other/x", &places(), true).unwrap();
    assert_eq!("../other/x", h.name().as_str());
    let e = File::from_id(&ptx, 99).unwrap_err();
    assert_eq!("no file with id=99", e.message());
}

#[test]
fn files_with_names_that_cannot_be_used() {
    let mut ptx = fresh();
    let e = File::from_name(&mut ptx, b"a\nb", &places(), true).unwrap_err();
    assert_eq!(
        "redo: Conversion error from type Text at index: 1, could not use \"a\\nb\" as redo path",
        e.message()
    );
    assert_eq!(1, ptx.state().journal().len());
    let f = File::from_name(&mut ptx, b"a\xffb", &places(), true).unwrap();
    assert_eq!("a\u{fffd}b", f.name().as_str());
}

#[test]
fn full_table_of_files() {
    let mut ptx = with(vec![row(i64::MAX, "x")], vec![]);
    let e = File::from_name(&mut ptx, b"y", &places(), true).unwrap_err();
    assert_eq!("redo: database or disk is full", e.message());
}

#[test]
fn saved_files_are_read_back() {
    let mut ptx = fresh();
    let mut f = File::from_name(&mut ptx, b"a", &places(), true).unwrap();
    f.set_generated();
    f.set_checksum("abc".to_string());
    f.set_stamp(Stamp::from("1-2-3".to_string()));
    f.set_changed(ptx.state().env());
    f.save(&mut ptx);
    let g = File::from_id(&ptx, f.id()).unwrap();
    assert!(g.is_generated() && !g.is_override());
    assert_eq!("abc", g.checksum());
    assert_eq!("1-2-3", g.stamp().as_ref().unwrap().as_str());
    assert_eq!(Some(RUN), g.changed_run());
    assert!(g.is_changed(ptx.state().env()) && !g.is_checked(ptx.state().env()));
    assert!(!g.is_failed(ptx.state().env()));
}

#[test]
fn transactions() {
    assert_eq!("BEGIN IMMEDIATE", fresh().begin_statement());
    let mut ptx = fresh();
    File::from_name(&mut ptx, b"a", &places(), true).unwrap();
    assert_eq!(Some("ROLLBACK"), ptx.finish_statement());
    assert!(!ptx.state().is_flushed());
    let (ps, r) = ptx.finish(Ok(()));
    assert!(r.is_ok() && ps.is_flushed());
    let mut ptx = ProcessTransaction::new(ps, TransactionBehavior::Immediate);
    assert!(File::from_name(&mut ptx, b"a", &places(), false).is_err());
    File::from_name(&mut ptx, b"a", &places(), true).unwrap();
    let (ps, r) = ptx.commit(Ok(()));
    assert!(r.is_ok() && ps.is_flushed());
    let mut ptx = ProcessTransaction::new(ps, TransactionBehavior::Immediate);
    assert!(File::from_name(&mut ptx, b"a", &places(), false).is_ok());
    File::from_name(&mut ptx, b"b", &places(), true).unwrap();
    let (ps, r) = ptx.commit(Err("locked".to_string()));
    assert_eq!("redo: locked", r.unwrap_err().message());
    let mut ptx = ProcessTransaction::new(ps, TransactionBehavior::Immediate);
    assert!(File::from_name(&mut ptx, b"b", &places(), false).is_err());
    File::from_name(&mut ptx, b"b", &places(), true).unwrap();
    ptx.set_drop_behavior(DropBehavior::Ignore);
    assert_eq!(None, ptx.finish_statement());
    let (ps, _) = ptx.finish(Ok(()));
    assert!(!ps.is_flushed());
}

#[test]
fn dependencies_of_a_build() {
    let mut ptx = with(
        vec![built(1, "t", 5, "s"), row(2, "a"), row(3, "b"), row(4, "c")],
        vec![dep(1, 2, DepMode::Modified), dep(1, 3, DepMode::Created), dep(4, 2, DepMode::Modified)],
    );
    let t = File::from_id(&ptx, 1).unwrap();
    let list = |ptx: &ProcessTransaction| -> Vec<(DepMode, i64)> {
        File::from_id(ptx, 1).unwrap().deps(ptx).unwrap().iter().map(|(m, f)| (*m, f.id())).collect()
    };
    let before = vec![(DepMode::Modified, 2), (DepMode::Created, 3)];
    assert_eq!(before, list(&ptx));
    t.zap_deps1(&mut ptx);
    assert_eq!(before, list(&ptx));
    assert!(t.add_dep(&mut ptx, DepMode::Modified, b"b", &places()).unwrap());
    assert!(t.add_dep(&mut ptx, DepMode::Created, b"new", &places()).unwrap());
    assert!(!t.add_dep(&mut ptx, DepMode::Created, b"t", &places()).unwrap());
    t.zap_deps2(&mut ptx);
    assert_eq!(vec![(DepMode::Modified, 3), (DepMode::Created, 5)], list(&ptx));
    assert!(File::from_id(&ptx, 4).unwrap().deps(&ptx).unwrap().is_empty());
    assert!(matches!(ptx.state().journal().last(), Some(Write::DeleteMarkedDeps(1))));
}

#[test]
fn dependency_modes() {
    assert_eq!(Some(DepMode::Created), DepMode::from_char(b'c'));
    assert_eq!(Some(DepMode::Modified), DepMode::from_char(b'm'));
    assert_eq!(None, DepMode::from_char(b'x'));
    assert_eq!(("c", b'm'), (DepMode::Created.into_str(), DepMode::Modified.into_char()));
}

#[test]
fn failed_and_static_files() {
    let ptx = with(vec![built(1, "t", 5, "x")], vec![]);
    let v = ptx.state().env();
    let mut f = File::from_id(&ptx, 1).unwrap();
    f.set_failed(v, &nothing()).unwrap();
    assert!(f.is_failed(v) && !f.is_generated());
    f.set_failed(v, &regular("1.0", 2)).unwrap();
    assert!(f.is_failed(v) && f.is_generated());
    f.set_static(v, &regular("1.0", 2)).unwrap();
    assert!(!f.is_failed(v) && !f.is_generated());
    assert_eq!("\"t\" does not exist", f.set_static(v, &nothing()).unwrap_err().message());
    f.set_override(v, &regular("1.0", 3)).unwrap();
    assert!(f.is_override());
    let failed = Observed { link: Stat::Failed("denied".to_string()), target: Stat::NotFound };
    assert_eq!("redo: denied", f.set_override(v, &failed).unwrap_err().message());
    assert_eq!("../t", f.nice_name(v, &places()).unwrap());
}

#[test]
fn sources_and_targets() {
    let stamp = "1.0-2-3-4-5-6";
    let ptx = with(
        vec![built(1, "t", 5, stamp), source(2, "s", 5, stamp), row(3, "//ALWAYS"), built(4, "gone", 5, stamp)],
        vec![],
    );
    let v = ptx.state().env();
    let there = regular("1.0", 2);
    let f = |id: i64| File::from_id(&ptx, id).unwrap();
    assert!(f(1).is_target(v, &there).unwrap() && !f(1).is_source(v, &there).unwrap());
    assert!(!f(2).is_target(v, &there).unwrap() && f(2).is_source(v, &there).unwrap());
    assert!(!f(3).is_source(v, &there).unwrap());
    assert!(!f(4).is_source(v, &nothing()).unwrap() && f(4).is_target(v, &nothing()).unwrap());
    assert!(f(1).is_source(v, &regular("2.0", 2)).unwrap());
}

#[test]
fn files_in_order_of_names() {
    let ptx = with(vec![row(1, "b"), row(2, "a/z"), row(3, "a"), row(4, "")], vec![]);
    let mut it = Files::list(&ptx);
    let mut names = Vec::new();
    while let Some(f) = it.next() {
        names.push(f.unwrap().name().as_str());
    }
    assert_eq!(vec!["".to_string(), "a".to_string(), "a/z".to_string(), "b".to_string()], names);
    let ptx = with(vec![row(1, "b"), row(2, "a\n")], vec![]);
    let mut it = Files::list(&ptx);
    assert!(it.next().unwrap().is_err());
    assert!(it.next().is_none());
}

#[test]
fn finding_do_files() {
    let mut ptx = with(vec![row(1, "x.o")], vec![]);
    let f = File::from_id(&ptx, 1).unwrap();
    let look = |there: bool| Look { there, places: places() };
    match find_do_file(&mut ptx, &f, &vec![look(false), look(true)]).unwrap() {
        Search::Found(d) => assert_eq!(b"default.o.do", d.do_file()),
        other => panic!("{:?}", other),
    }
    let g = File::from_id(&ptx, 1).unwrap();
    assert!(!g.is_generated());
    let t = ptx.dep_table();
    assert_eq!(vec![DepMode::Created, DepMode::Modified], t.iter().map(|d| d.mode).collect::<Vec<_>>());
    let none: Vec<Look> = (0..5).map(|_| look(false)).collect();
    assert!(matches!(find_do_file(&mut ptx, &f, &none).unwrap(), Search::NotFound));
}

#[test]
fn default_do_file_cannot_build_itself() {
    let mut ptx = with(vec![row(1, "default.do")], vec![]);
    let f = File::from_id(&ptx, 1).unwrap();
    let looks: Vec<Look> = (0..5).map(|_| Look { there: false, places: places() }).collect();
    match find_do_file(&mut ptx, &f, &looks).unwrap() {
        Search::DependsOnItself(d) => assert_eq!(b"default.do", d.do_file()),
        other => panic!("{:?}", other),
    }
}

const STAMP: &str = "1.0-2-3-4-5-6";

fn verdict(ptx: &mut ProcessTransaction, id: i64, seen: Vec<(i64, Observed)>) -> Dirtiness {
    let mut f = File::from_id(ptx, id).unwrap();
    let mut cb = DirtyCallbacks::default();
    is_dirty(ptx, &mut f, &mut cb, &seen).unwrap()
}

fn here() -> Observed {
    regular("1.0", 2)
}

#[test]
fn clean_target() {
    let mut ptx = with(
        vec![built(1, "t", RUN - 5, STAMP), source(2, "s", RUN - 6, STAMP)],
        vec![dep(1, 2, DepMode::Modified)],
    );
    assert_eq!(vec![1, 2], files_to_observe(&ptx, 1));
    assert!(verdict(&mut ptx, 1, vec![(1, here()), (2, here())]).is_clean());
    assert!(File::from_id(&ptx, 1).unwrap().is_checked(ptx.state().env()));
    assert!(File::from_id(&ptx, 2).unwrap().is_checked(ptx.state().env()));
    assert!(verdict(&mut ptx, 1, vec![(1, nothing()), (2, nothing())]).is_clean());
}

#[test]
fn dirty_targets() {
    let seen = || vec![(1, here()), (2, here())];
    let deps = || vec![dep(1, 2, DepMode::Modified)];
    // never built
    let mut ptx = with(vec![row(1, "t"), source(2, "s", 5, STAMP)], deps());
    assert!(verdict(&mut ptx, 1, seen()).is_dirty());
    // failed last time
    let mut failed = built(1, "t", 5, STAMP);
    failed.failed_runid = Some(3);
    let mut ptx = with(vec![failed, source(2, "s", 5, STAMP)], deps());
    assert!(verdict(&mut ptx, 1, seen()).is_dirty());
    // without a stamp
    let mut bare = built(1, "t", 5, STAMP);
    bare.stamp = None;
    let mut ptx = with(vec![bare, source(2, "s", 5, STAMP)], deps());
    assert!(verdict(&mut ptx, 1, seen()).is_dirty());
    // a source that was changed
    let mut ptx = with(vec![built(1, "t", 5, STAMP), source(2, "s", 5, STAMP)], deps());
    assert!(verdict(&mut ptx, 1, vec![(1, here()), (2, regular("2.0", 2))]).is_dirty());
    // a source that was built more recently
    let mut ptx = with(vec![built(1, "t", 5, STAMP), source(2, "s", 6, STAMP)], deps());
    assert!(verdict(&mut ptx, 1, seen()).is_dirty());
    // a file that was created
    let mut ptx = with(vec![built(1, "t", 5, STAMP), row(2, "n")], vec![dep(1, 2, DepMode::Created)]);
    assert!(verdict(&mut ptx, 1, seen()).is_dirty());
    assert!(verdict(&mut ptx, 1, vec![(1, here()), (2, nothing())]).is_clean());
}

#[test]
fn missing_target_becomes_a_source() {
    let mut ptx = with(vec![built(1, "t", 5, STAMP)], vec![]);
    assert!(verdict(&mut ptx, 1, vec![(1, nothing())]).is_dirty());
    assert!(!File::from_id(&ptx, 1).unwrap().is_generated());
}

#[test]
fn checksummed_dependencies_are_built_first() {
    let mut mid = built(2, "mid", 4, STAMP);
    mid.csum = Some("abc".to_string());
    let mut ptx = with(
        vec![built(1, "t", 5, STAMP), mid, source(3, "s", 3, STAMP)],
        vec![dep(1, 2, DepMode::Modified), dep(2, 3, DepMode::Modified)],
    );
    match verdict(&mut ptx, 1, vec![(1, here()), (2, here()), (3, regular("9.0", 2))]) {
        Dirtiness::NeedTargets(ts) => assert_eq!(vec![2], ts.iter().map(|f| f.id()).collect::<Vec<_>>()),
        other => panic!("{:?}", other),
    }
}

#[test]
fn cyclic_dependencies() {
    let mut ptx = with(
        vec![built(1, "a", 5, STAMP), built(2, "b", 5, STAMP)],
        vec![dep(1, 2, DepMode::Modified), dep(2, 1, DepMode::Modified)],
    );
    let mut f = File::from_id(&ptx, 1).unwrap();
    let mut cb = DirtyCallbacks::default();
    let e = is_dirty(&mut ptx, &mut f, &mut cb, &vec![(1, here()), (2, here())]).unwrap_err();
    assert!(matches!(e.kind(), RedoErrorKind::CyclicDependency));
}

#[test]
fn what_always_changes_is_dirty() {
    let mut ptx = with(
        vec![built(1, "t", RUN - 1, STAMP), row(2, "//ALWAYS")],
        vec![dep(1, 2, DepMode::Modified)],
    );
    assert!(verdict(&mut ptx, 1, vec![(1, here()), (2, nothing())]).is_dirty());
}

#[test]
fn checks_kept_in_memory() {
    let mut over = built(1, "t", 5, STAMP);
    over.is_override = Some(true);
    let mut ptx = with(vec![over], vec![]);
    let mut cb = DirtyCallbacksBuilder::new()
        .is_checked(Kept::Memory)
        .set_checked(Kept::Memory)
        .log_override(false)
        .build();
    let mut f = File::from_id(&ptx, 1).unwrap();
    let seen = vec![(1, here())];
    assert!(is_dirty(&mut ptx, &mut f, &mut cb, &seen).unwrap().is_clean());
    assert!(ptx.state().is_flushed());
    assert!(cb.overridden().is_empty());
    let gone = vec![(1, nothing())];
    assert!(is_dirty(&mut ptx, &mut f, &mut cb, &gone).unwrap().is_clean());
    let mut cb = DirtyCallbacks::default();
    let mut f = File::from_id(&ptx, 1).unwrap();
    assert!(is_dirty(&mut ptx, &mut f, &mut cb, &seen).unwrap().is_clean());
    assert_eq!(1, cb.overridden().len());
    assert!(!ptx.state().is_flushed());
}

#[test]
fn check_without_a_run() {
    let mut ps = ProcessState::init(env(), Opened::Fresh).unwrap();
    let mut e = env();
    e.runid = None;
    *ps.env_mut() = e;
    let mut ptx = ProcessTransaction::new(ps, TransactionBehavior::Immediate);
    let mut f = File::from_id(&ptx, 1).unwrap();
    let mut cb = DirtyCallbacks::default();
    let e = is_dirty(&mut ptx, &mut f, &mut cb, &vec![(1, nothing())]).unwrap_err();
    assert_eq!("RUNID not set", e.message());
    assert!(Dirtiness::default().is_clean());
}

#[test]
fn files_of_no_run() {
    let mut r = row(2, "t");
    r.checked_runid = Some(0);
    let ptx = with(vec![row(1, "u"), r], Vec::new());
    let e = Env::inherit(&Vec::new());
    for id in [1, 2] {
        let f = File::from_id(&ptx, id).unwrap();
        assert!(!f.is_checked(&e) && !f.is_changed(&e) && !f.is_failed(&e));
    }
}

#[test]
fn dependencies_stand_once() {
    let deps = vec![dep(1, 2, DepMode::Modified)];
    let mut ptx = with(vec![built(1, "t", RUN, "s"), row(2, "a"), row(3, "b")], deps);
    let t = File::from_id(&ptx, 1).unwrap();
    t.zap_deps1(&mut ptx);
    for name in [&b"b"[..], b"a", b"b"] {
        assert!(t.add_dep(&mut ptx, DepMode::Modified, name, &places()).unwrap());
    }
    t.zap_deps2(&mut ptx);
    let ids: Vec<i64> = t.deps(&ptx).unwrap().iter().map(|(_, f)| f.id()).collect();
    assert_eq!(vec![2, 3], ids);
}
