use redo::cycles;
use redo::env::{get_bool, get_int, init, init_no_state, not_inherited, Env, OptionalBool, Var};
use redo::error::{RedoError, RedoErrorKind};
use redo::lock::{detect_broken_locks, lock_probe_exit, LockAnswer, LockManager, LockType};
use redo::redopath::{show_bytes, RedoPath, RedoPathBuf};

fn vars(pairs: &[(&str, &str)]) -> Vec<Var> {
    pairs.iter().map(|(k, v)| (k.as_bytes().to_vec(), v.as_bytes().to_vec())).collect()
}

#[test]
fn redo_path_from_text() {
    assert_eq!("a/é", RedoPath::from_str("a/é").unwrap().as_str());
    assert_eq!(b"a\nb", RedoPath::from_str("a\nb").unwrap_err().input());
    assert_eq!(b"a\0", RedoPath::from_str("a\0").unwrap_err().input());
    assert!(RedoPath::from_str("").unwrap().is_empty());
}

#[test]
fn redo_path_from_bytes() {
    assert_eq!(b"x", RedoPath::from_os_str(b"x").unwrap().as_os_str());
    let e = RedoPath::from_os_str(b"x\xffy").unwrap_err();
    assert_eq!(b"x\xffy", e.input());
    assert!(RedoPath::from_os_str(b"x\ny").is_err());
    let e = RedoPathBuf::try_from(b"\n".to_vec()).unwrap_err();
    assert_eq!("could not use \"\\n\" as redo path", e.text());
    let e = e.into_error();
    assert!(matches!(RedoErrorKind::of(&e), RedoErrorKind::InvalidTarget(b) if b == b"\n"));
}

#[test]
fn redo_path_parts() {
    let p = RedoPath::from_str("/a/./b/../ü.c").unwrap();
    assert_eq!("ü.c", p.file_name().unwrap().into_string());
    assert_eq!("/a/./b/..", p.parent().unwrap().into_string());
    assert_eq!("/a/ü.c", p.normpath().into_string());
    let q = RedoPath::from_str("x/").unwrap().join(&RedoPath::from_str("y").unwrap());
    assert_eq!("x/y", q.into_string());
    assert_eq!(b"/\0".to_vec(), RedoPath::from_str("/").unwrap().to_c_string());
    assert!(RedoPath::from_str("/").unwrap().parent().is_none());
    assert!(RedoPathBuf::new().as_redo_path().is_empty());
}

#[test]
fn bytes_shown_as_text() {
    assert_eq!("a\u{fffd}b", show_bytes(b"a\xffb"));
    assert_eq!("é", show_bytes("é".as_bytes()));
}

#[test]
fn error_messages() {
    assert_eq!("boom", RedoError::new("boom").message());
    assert_eq!("redo: boom", RedoError::opaque_error("boom").message());
    assert_eq!("cyclic dependency detected", RedoError::from_kind(RedoErrorKind::CyclicDependency).message());
    assert_eq!("file not found", RedoErrorKind::FileNotFound.text());
    assert_eq!("error", RedoErrorKind::default().text());
    let target = RedoPath::from_str("x\"y").unwrap().to_redo_path_buf();
    assert_eq!("\"x\\\"y\": failed in another thread", RedoErrorKind::FailedInAnotherThread { target }.text());
    assert_eq!("invalid target \"q\"", RedoErrorKind::InvalidTarget(b"q".to_vec()).text());
}

#[test]
fn error_kind_is_the_first_along_the_chain() {
    let inner = RedoError::from_kind(RedoErrorKind::CyclicDependency);
    let middle = RedoError::wrap(inner, "middle");
    let outer = RedoError::wrap(middle, "outer");
    assert!(matches!(RedoErrorKind::of(&outer), RedoErrorKind::CyclicDependency));
    assert!(matches!(outer.kind(), RedoErrorKind::Generic));
    assert_eq!("outer: middle: cyclic dependency detected", outer.chain_text());
    assert_eq!("middle", outer.cause().unwrap().message());
    let over = RedoError::wrap(outer, "top").with_kind(RedoErrorKind::FileNotFound);
    assert!(matches!(RedoErrorKind::of(&over), RedoErrorKind::FileNotFound));
    assert!(matches!(RedoErrorKind::of(&RedoError::new("x")), RedoErrorKind::Generic));
}

#[test]
fn cycles_are_detected() {
    assert!(cycles::check(None, "5").is_ok());
    assert_eq!(Some("5".to_string()), cycles::add(None, "5"));
    assert_eq!(Some("5:7".to_string()), cycles::add(Some("5"), "7"));
    assert_eq!(None, cycles::add(Some("5:7"), "7"));
    assert!(cycles::check(Some("5:7"), "7").is_err());
    assert!(cycles::check(Some("5:7"), "57").is_ok());
    assert_eq!(vec!["5".to_string(), "7".to_string()], cycles::get(Some("5:7")));
    assert_eq!(vec!["".to_string()], cycles::get(Some("")));
}

#[test]
fn settings_from_variables() {
    let e = Env::inherit(&vars(&[
        ("REDO_BASE", "/base"),
        ("REDO_DEBUG", "2"),
        ("REDO_VERBOSE", "x"),
        ("REDO_XTRACE", "-1"),
        ("REDO_KEEP_GOING", "no"),
        ("REDO_SHUFFLE", ""),
        ("REDO_LOG", "0"),
        ("REDO_COLOR", "1"),
        ("REDO_PRETTY", "2"),
        ("REDO_RUNID", "1000000007"),
    ]));
    assert_eq!(b"/base".to_vec(), e.base);
    assert_eq!((2, 0, -1), (e.debug, e.verbose, e.xtrace));
    assert!(e.keep_going && !e.shuffle);
    assert_eq!((OptionalBool::Off, OptionalBool::Auto, OptionalBool::On), (e.log, e.color, e.pretty));
    assert_eq!(Some(1000000007), e.runid);
    let none = Env::inherit(&vars(&[("REDO_RUNID", "0")]));
    assert_eq!((None, OptionalBool::Auto, OptionalBool::Off), (none.runid, none.log, none.color));
    assert_eq!(vec!["REDO_UNLOCKED".to_string(), "REDO_NO_OOB".to_string()], not_inherited());
}

#[test]
fn numbers_in_variables() {
    let v = vars(&[("A", "2147483647"), ("B", "2147483648"), ("C", "+7"), ("D", " 7"), ("A", "1")]);
    assert_eq!(2147483647, get_int(&v, "A", 5));
    assert_eq!(5, get_int(&v, "B", 5));
    assert_eq!(7, get_int(&v, "C", 5));
    assert_eq!(5, get_int(&v, "D", 5));
    assert_eq!(5, get_int(&v, "E", 5));
    assert!(get_bool(&v, "D") && !get_bool(&v, "E"));
}

#[test]
fn sessions() {
    let (e, all) = init_no_state(&vars(&[]));
    assert!(e.is_toplevel);
    assert_eq!(b"NOT_DEFINED".to_vec(), e.base);
    assert_eq!(2, all.len());
    let (e, all) = init_no_state(&vars(&[("REDO", "/bin/redo"), ("REDO_BASE", "/b")]));
    assert!(!e.is_toplevel);
    assert_eq!(b"/b".to_vec(), e.base);
    assert_eq!(2, all.len());
    assert!(init(&vars(&[])).is_toplevel);
    assert!(!init(&vars(&[("REDO", "x")])).is_toplevel);
}

#[test]
fn settings_that_change() {
    let mut e = Env::inherit(&vars(&[]));
    e.set_depth(3);
    e.fill_runid(9);
    e.mark_locks_broken();
    assert_eq!(b"   ".to_vec(), e.depth);
    assert_eq!(Some(9), e.runid);
    assert!(e.locks_broken);
    for v in [OptionalBool::Off, OptionalBool::Auto, OptionalBool::On] {
        assert_eq!(v, OptionalBool::from_code(v.code()));
    }
    assert!(!OptionalBool::Off.unwrap_or(true) && OptionalBool::Auto.unwrap_or(true) && OptionalBool::On.unwrap_or(false));
    assert_eq!(OptionalBool::On, OptionalBool::from_code(-3));
}

#[test]
fn locks() {
    let mut m = LockManager::new();
    let mut l = m.new_lock(7);
    assert!(m.uses(7) && !m.uses(8));
    assert_eq!(7, l.file_id());
    assert!(!l.try_lock(None, LockAnswer::Busy).unwrap());
    assert!(!l.is_owned());
    assert!(l.try_lock(Some("1:2"), LockAnswer::Granted).unwrap());
    assert!(l.is_owned());
    assert_eq!("redo: bad", l.unlock(Err("bad".to_string())).unwrap_err().message());
    assert!(l.is_owned());
    l.unlock(Ok(())).unwrap();
    assert!(!l.is_owned());
    l.wait_lock(None, Ok(())).unwrap();
    assert!(m.discard(l));
    assert!(!m.uses(7));
    assert_eq!(LockType::Exclusive, LockType::default());
}

#[test]
fn locks_of_targets_further_up() {
    let mut m = LockManager::new();
    let mut l = m.new_lock(7);
    assert!(matches!(l.check(Some("3:7")).unwrap_err().kind(), RedoErrorKind::CyclicDependency));
    assert!(l.try_lock(Some("3:7"), LockAnswer::Granted).is_err());
    assert!(l.wait_lock(Some("3:7"), Ok(())).is_err());
    assert!(!l.is_owned());
    assert_eq!("redo: x", l.try_lock(None, LockAnswer::Failed("x".to_string())).unwrap_err().message());
    l.force_owned();
    assert!(l.is_owned());
}

#[test]
fn broken_locks() {
    assert_eq!(0, lock_probe_exit(&Ok(false)));
    assert_eq!(1, lock_probe_exit(&Ok(true)));
    assert_eq!(1, lock_probe_exit(&Err(RedoError::new("x"))));
    assert!(!detect_broken_locks(Some(0)));
    assert!(detect_broken_locks(Some(1)));
    assert!(detect_broken_locks(None));
}

#[test]
fn white_space_at_the_end() {
    assert_eq!("a b", redo::text::trim_end("a b \t\r\n\u{a0}\u{2003}\u{3000}"));
    assert_eq!(" a\u{200b}", redo::text::trim_end(" a\u{200b} "));
    assert_eq!("", redo::text::trim_end("\u{b}\u{c}\u{85}"));
}
