use redo::env::{Env, OptionalBool, Var};
use redo::logcat::{format_thousands, line_meta, tty_width, CatOptions, LogState, Out, Read};
use redo::logs::{
    check_tty, debug_level, meta, reduce_depth, set_depth, ColorEscapes, LogBuilder, Logs, Meta, PrettyLog,
    PrettyLogConfig, RawLog,
};

fn env(pairs: &[(&str, &str)]) -> Env {
    let v: Vec<Var> = pairs.iter().map(|(k, v)| (k.as_bytes().to_vec(), v.as_bytes().to_vec())).collect();
    Env::inherit(&v)
}

fn config() -> PrettyLogConfig {
    PrettyLogConfig { debug: 0, debug_locks: false, debug_pids: false, verbose: 0, xtrace: 0, log: OptionalBool::Auto }
}

fn plain() -> PrettyLog {
    PrettyLog { escapes: ColorEscapes::default(), config: config() }
}

fn line(kind: &str, text: &str) -> String {
    meta(kind, text, 42, "12.5000")
}

#[test]
fn parse_done_text_simple() {
    assert_eq!(Meta::parse_done_text("0 foo"), Some((0, "foo".to_string())));
}

#[test]
fn parse_done_text_multiple_spaces() {
    assert_eq!(Meta::parse_done_text("1 foo bar"), Some((1, "foo bar".to_string())));
}

#[test]
fn parse_done_text_errors() {
    assert_eq!(Meta::parse_done_text("foo"), None);
    assert_eq!(Meta::parse_done_text("x foo"), None);
    assert_eq!(Meta::parse_done_text("-9 "), Some((-9, "".to_string())));
    assert_eq!(Meta::new("do", 1, "1.0", "0 x").done_text(), None);
    assert_eq!(Meta::new("done", 1, "1.0", "0 x").done_text(), Some((0, "x".to_string())));
}

#[test]
fn meta_lines_are_read_back() {
    let m = Meta::new("do", 42, "1630.1234", "some @@ text: é");
    let l = m.to_line();
    assert_eq!("@@REDO:do:42:1630.1234@@ some @@ text: é", l);
    let g = Meta::parse(&l).unwrap();
    assert_eq!(m, g);
    assert_eq!(("do", 42, "1630.1234", "some @@ text: é"), (g.kind(), g.pid(), g.timestamp(), g.text()));
}

#[test]
fn meta_timestamps() {
    for t in ["1", "1.", ".5", "-1e5", "+1.5E-3", "inf", "NaN", "-Infinity", "1e+0"] {
        assert!(t.parse::<f64>().is_ok());
        assert!(Meta::parse(&format!("@@REDO:do:1:{}@@ x", t)).is_ok(), "{}", t);
    }
    for t in ["", ".", "e5", "1e", "1e+", "--1", "1.2.3", "in", "infinit", "0x1", "1 ", "+"] {
        assert!(t.parse::<f64>().is_err());
        let e = Meta::parse(&format!("@@REDO:do:1:{}@@ x", t)).unwrap_err();
        assert_eq!(format!("cannot parse timestamp in \"@@REDO:do:1:{}@@ x\"", t), e.message());
    }
}

#[test]
fn meta_errors() {
    let msg = |s: &str| Meta::parse(s).unwrap_err().message().to_string();
    assert_eq!("\"x\" does not begin with \"@@REDO:\"", msg("x"));
    assert_eq!("\"@@REDO:a\\n\" contains a newline", msg("@@REDO:a\n"));
    assert_eq!("\"@@REDO:a\" has unterminated metadata", msg("@@REDO:a"));
    assert_eq!("\"@@REDO:a@b@@ x\" contains @ inside metadata", msg("@@REDO:a@b@@ x"));
    assert_eq!("\"@@REDO:a@@ x\" is missing a pid", msg("@@REDO:a@@ x"));
    assert_eq!("cannot parse pid in \"@@REDO:a:b@@ x\"", msg("@@REDO:a:b@@ x"));
    assert_eq!("\"@@REDO:a:1@@ x\" is missing a timestamp", msg("@@REDO:a:1@@ x"));
}

#[test]
fn raw_lines() {
    assert_eq!("x\n", RawLog::new().write_line("x"));
}

#[test]
fn pretty_lines() {
    let p = plain();
    assert_eq!("hello\n", p.write_line(4, "hello"));
    assert_eq!("redo    t\n", p.write_line(2, &line("do", "t")));
    assert_eq!("redo  (t)\n", p.write_line(0, &line("check", "t")));
    assert_eq!("redo  t (unchanged)\n", p.write_line(0, &line("unchanged", "t")));
    assert_eq!("redo  t (resumed)\n", p.write_line(0, &line("resumed", "t")));
    assert_eq!("redo  t (exit 3)\n", p.write_line(0, &line("done", "3 t")));
    assert_eq!("", p.write_line(0, &line("done", "0 t")));
    assert_eq!("redo  nonsense\n", p.write_line(0, &line("done", "nonsense")));
    assert_eq!("", p.write_line(0, &line("locked", "t")));
    assert_eq!("", p.write_line(0, &line("waiting", "t")));
    assert_eq!("", p.write_line(0, &line("unlocked", "t")));
    assert_eq!("redo: bad\n", p.write_line(3, &line("error", "bad")));
    assert_eq!("redo: hm\n", p.write_line(3, &line("warning", "hm")));
    assert_eq!("redo  d\n", p.write_line(0, &line("debug", "d")));
    assert_eq!("redo  ?\n", p.write_line(0, &line("novel", "?")));
    assert_eq!("beforeredo  t\n", p.write_line(0, &format!("before{}", line("do", "t"))));
    assert_eq!("@@REDO:broken\n", p.write_line(0, "@@REDO:broken"));
}

#[test]
fn pretty_lines_with_more_details() {
    let mut p = plain();
    p.config.debug_pids = true;
    p.config.debug_locks = true;
    p.config.verbose = 1;
    assert_eq!("42     redo  t (locked...)\n", p.write_line(0, &line("locked", "t")));
    assert_eq!("42     redo  t (WAITING)\n", p.write_line(0, &line("waiting", "t")));
    assert_eq!("42     redo  t (...unlocked!)\n", p.write_line(0, &line("unlocked", "t")));
    assert_eq!("42     redo  t (done)\n\n", p.write_line(0, &line("done", "0 t")));
    assert_eq!("1234567 redo  t\n", p.write_line(0, &meta("do", "t", 1234567, "1.0")));
    p.config.log = OptionalBool::Off;
    assert_eq!("", p.write_line(0, &line("unchanged", "t")));
    p.config.debug = 1;
    assert_eq!("42     redo  t (unchanged)\n", p.write_line(0, &line("unchanged", "t")));
}

#[test]
fn pretty_lines_in_colour() {
    let p = PrettyLog { escapes: check_tty(OptionalBool::On, false, None), config: config() };
    assert_eq!("\x1b[32mredo  \x1b[1mt\x1b[m\n", p.write_line(0, &line("do", "t")));
    assert_eq!("\x1b[31mredo: \x1b[1mt\x1b[m\n", p.write_line(0, &line("error", "t")));
    assert_eq!("\x1b[33mredo: \x1b[1mt\x1b[m\n", p.write_line(0, &line("warning", "t")));
    assert_eq!("redo  t (unchanged)\x1b[m\n", p.write_line(0, &line("unchanged", "t")));
}

#[test]
fn terminals() {
    let coloured = |e: ColorEscapes| !e.red.is_empty();
    assert!(coloured(check_tty(OptionalBool::Auto, true, Some("xterm"))));
    assert!(!coloured(check_tty(OptionalBool::Auto, true, Some("dumb"))));
    assert!(!coloured(check_tty(OptionalBool::Auto, true, Some(""))));
    assert!(!coloured(check_tty(OptionalBool::Auto, true, None)));
    assert!(!coloured(check_tty(OptionalBool::Auto, false, Some("xterm"))));
    assert!(!coloured(check_tty(OptionalBool::Off, true, Some("xterm"))));
}

#[test]
fn log_builder() {
    let e = env(&[("REDO_DEBUG", "2"), ("REDO_DEPTH", "    ")]);
    let mut logs = Logs::new();
    assert_eq!(3, debug_level(&logs));
    assert_eq!("42     redo  t (locked...)\n", redo::logs::write(&logs, &line("locked", "t")));
    LogBuilder::new().parent_logs(false).pretty(true).disable_color().setup(&mut logs, &e, Some(true), Some("xterm"));
    assert_eq!(2, debug_level(&logs));
    assert_eq!("redo      t\n", redo::logs::write(&logs, &line("do", "t")));
    LogBuilder::new().color(OptionalBool::Auto).force_color().setup(&mut logs, &e, Some(false), None);
    assert_eq!("\x1b[32mredo      \x1b[1mt\x1b[m\n", redo::logs::write(&logs, &line("do", "t")));
    LogBuilder::new().force_color().setup(&mut logs, &e, None, Some("xterm"));
    assert_eq!("redo      t\n", redo::logs::write(&logs, &line("do", "t")));
    LogBuilder::new().parent_logs(true).setup(&mut logs, &e, Some(true), None);
    assert_eq!(line("do", "t") + "\n", redo::logs::write(&logs, &line("do", "t")));
    LogBuilder::from_env(&e).setup(&mut logs, &e, Some(false), None);
    assert_eq!("x\n", redo::logs::write(&logs, "x"));
    LogBuilder::default().pretty(false).setup(&mut logs, &e, Some(true), None);
    assert_eq!(line("do", "t") + "\n", redo::logs::write(&logs, &line("do", "t")));
}

#[test]
fn depth_of_messages() {
    let mut logs = Logs::new();
    set_depth(&mut logs, 5);
    assert_eq!(5, reduce_depth(&mut logs));
    assert_eq!(3, reduce_depth(&mut logs));
    assert_eq!(1, reduce_depth(&mut logs));
    assert_eq!(0, reduce_depth(&mut logs));
}

#[test]
fn format_thousands_zero() {
    assert_eq!("0", &format_thousands(0));
}

#[test]
fn format_thousands_one() {
    assert_eq!("1", &format_thousands(1));
}

#[test]
fn format_thousands_one_thousand() {
    assert_eq!("1,000", &format_thousands(1000));
}

#[test]
fn format_thousands_1234() {
    assert_eq!("1,234", &format_thousands(1234));
}

#[test]
fn format_thousands_more() {
    assert_eq!("999", &format_thousands(999));
    assert_eq!("12,345", &format_thousands(12345));
    assert_eq!("123,456", &format_thousands(123456));
    assert_eq!("18,446,744,073,709,551,615", &format_thousands(u64::MAX));
}

#[test]
fn terminal_width() {
    assert_eq!(80, tty_width(Some(80), Some("40")));
    assert_eq!(40, tty_width(None, Some("40")));
    assert_eq!(41, tty_width(None, Some("+41")));
    assert_eq!(70, tty_width(None, Some("-1")));
    assert_eq!(70, tty_width(None, Some("99999999999999999999999")));
    assert_eq!(70, tty_width(None, None));
}

fn options() -> CatOptions {
    CatOptions { recursive: true, unchanged: false, follow: true, details: true, debug_locks: false }
}

fn status_of(names: &[&str], width: usize) -> String {
    let mut s = LogState::new();
    for n in names {
        s.open(n.as_bytes()).unwrap();
    }
    s.set_status(width);
    assert!(s.status().len() <= width);
    String::from_utf8(s.status().to_vec()).unwrap()
}

#[test]
fn status_lines() {
    assert_eq!("redo 0 ", status_of(&["-"], 70));
    assert_eq!("redo 0 a b ", status_of(&["a", "-", "b"], 70));
    assert_eq!("redo 0 ... b ", status_of(&["aaaa", "b"], 14));
    assert_eq!("redo 0 ...target.o ", status_of(&["a/very/long/name/of/a/target.o"], 19));
    assert_eq!("redo 0 ... ", status_of(&["a/very/long/name/of/a/target.o"], 11));
    assert_eq!(7, LogState::new().status_room());
    let mut s = LogState::new();
    s.open(b"t").unwrap();
    assert_eq!(11, s.status_room());
}

#[test]
fn status_line_is_taken_off() {
    let mut s = LogState::new();
    assert!(!s.clear_status());
    s.set_status(70);
    assert!(s.clear_status());
    assert!(s.status().is_empty());
}

#[test]
fn no_log_is_shown_twice() {
    let mut s = LogState::new();
    let f = s.open(b"dir/t").unwrap();
    assert!(s.open(b"dir/t").is_none());
    assert_eq!(2, s.indent());
    assert_eq!(b"dir/t", f.target());
    assert_eq!(b"/top/dir/x".to_vec(), f.full_path(b"/top", "x"));
    let (n, tail) = f.close(&mut s);
    assert_eq!((0, "".to_string()), (n, tail));
    assert_eq!(0, s.indent());
    assert!(s.open(b"dir/t").is_none());
}

#[test]
fn lines_in_pieces() {
    let mut s = LogState::new();
    let mut f = s.open(b"-").unwrap();
    let o = options();
    assert!(matches!(f.read(&mut s, &o, "".to_string()), Read::Finished));
    f.set_locked(true);
    assert!(matches!(f.read(&mut s, &o, "".to_string()), Read::Wait));
    assert!(matches!(f.read(&mut s, &o, "half ".to_string()), Read::Partial));
    match f.read(&mut s, &o, "line\n".to_string()) {
        Read::Line(l) => assert_eq!("half line\n", l),
        other => panic!("{:?}", other),
    }
    assert!(matches!(f.read(&mut s, &o, "tail".to_string()), Read::Partial));
    let p = f.poll(true, true, false);
    assert_eq!((false, 10), (p.show_status, p.sleep));
    let p = f.poll(false, true, true);
    assert_eq!((true, 20), (p.show_status, p.sleep));
    assert!(matches!(f.read(&mut s, &o, "".to_string()), Read::Finished));
    assert_eq!((0, "tail".to_string()), f.close(&mut s));
}

#[test]
fn lines_about_other_targets() {
    let mut s = LogState::new();
    let mut f = s.open(b"d/t").unwrap();
    let o = options();
    let l = line("do", "../x") + "\n";
    let m = line_meta(&l).unwrap();
    let step = f.on_meta(&s, &o, &m, &l, "x");
    assert_eq!(1, step.out.len());
    assert!(matches!(&step.out[0], Out::Meta { kind, text, pid } if kind == "do" && text == "x" && *pid == Some(42)));
    assert_eq!(Some(b"d/../x".to_vec()), step.recurse);
    assert_eq!(Some(b"x".to_vec()), step.remember);
    f.settle(&mut s, 3, step.remember);
    let again = f.on_meta(&s, &o, &m, &l, "x");
    assert!(again.out.is_empty());
    let out = f.on_plain(&o, "output \n");
    assert!(matches!(&out[0], Out::Resumed(t) if t == "d/t"));
    assert!(matches!(&out[1], Out::Line(t) if t == "output"));
    assert_eq!(1, f.on_plain(&o, "more\n").len());
    assert_eq!((6, "".to_string()), f.close(&mut s));
}

#[test]
fn other_structured_lines() {
    let mut s = LogState::new();
    let mut f = s.open(b"-").unwrap();
    let mut o = options();
    let l = line("done", "2 x");
    let step = f.on_meta(&s, &o, &line_meta(&l).unwrap(), &l, "sub/x");
    assert!(matches!(&step.out[0], Out::Meta { kind, text, pid: None } if kind == "done" && text == "2 sub/x"));
    assert_eq!(None, step.recurse);
    let l = line("error", "bad") + "\n";
    let step = f.on_meta(&s, &o, &line_meta(&l).unwrap(), &l, "");
    assert!(matches!(&step.out[0], Out::Line(t) if *t == line("error", "bad")));
    let l = line("unchanged", "y");
    assert!(f.on_meta(&s, &o, &line_meta(&l).unwrap(), &l, "y").remember.is_none());
    o.unchanged = true;
    let step = f.on_meta(&s, &o, &line_meta(&l).unwrap(), &l, "y");
    assert!(matches!(&step.out[0], Out::Meta { kind, .. } if kind == "do"));
    o.debug_locks = true;
    let step = f.on_meta(&s, &o, &line_meta(&l).unwrap(), &l, "y");
    assert!(matches!(&step.out[0], Out::Meta { kind, .. } if kind == "unchanged"));
    let l = line("waiting", "y") + "\n";
    assert_eq!(2, f.on_meta(&s, &o, &line_meta(&l).unwrap(), &l, "y").out.len());
    o.details = false;
    assert!(f.on_plain(&o, "x\n").is_empty());
    assert!(line_meta("plain\n").is_none());
}
