use redo::logcat::{CatOptions, Out};
use redo::logs::meta;
use redo::viewer::{Action, Event, Stop, Viewer};

fn options() -> CatOptions {
    CatOptions { recursive: true, unchanged: false, follow: true, details: true, debug_locks: false }
}

fn line(kind: &str, text: &str) -> Event {
    Event::Line(meta(kind, text, 42, "12.5000") + "\n")
}

fn text(t: &str) -> Event {
    Event::Line(t.to_string())
}

/// An action in a few words.
fn shown(a: &Action) -> String {
    match a {
        Action::Open(t) => format!("open {}", String::from_utf8(t.clone()).unwrap()),
        Action::Read => "read".to_string(),
        Action::Look => "look".to_string(),
        Action::Wait { show_status, sleep } => format!("wait {} {}", sleep, show_status),
        Action::Name { clear, path } => format!("name {} {}", String::from_utf8(path.clone()).unwrap(), clear),
        Action::Write { clear, out } => {
            let texts: Vec<String> = out
                .iter()
                .map(|o| match o {
                    Out::Meta { kind, text, .. } => format!("{}={}", kind, text),
                    Out::Line(l) => l.clone(),
                    Out::Resumed(t) => format!("resumed={}", t),
                })
                .collect();
            format!("write [{}] {}", texts.join(","), clear)
        }
        Action::Leave => "leave".to_string(),
        Action::Return => "return".to_string(),
        Action::Close { clear, tail } => format!("close [{}] {}", tail, clear),
        Action::Finish => "finish".to_string(),
        Action::Stop(s) => format!("stop {:?}", s),
    }
}

fn step(v: &mut Viewer, e: Event) -> String {
    shown(&v.step(e))
}

fn open(v: &mut Viewer, t: &str, locked: bool) {
    assert_eq!(format!("open {}", t), shown(&v.begin(t.as_bytes()).unwrap()));
    assert_eq!("read", step(v, Event::Opened { locked }));
}

#[test]
fn logs_within_logs() {
    let mut v = Viewer::new(b"/top".to_vec(), options(), false);
    open(&mut v, "d/t", false);
    assert_eq!(2, v.indent());
    assert_eq!("write [one] false", step(&mut v, text("one\n")));
    assert_eq!("read", step(&mut v, Event::Done));
    assert_eq!("name /top/d/x false", step(&mut v, line("do", "x")));
    assert_eq!("write [do=d/x] false", step(&mut v, Event::Name("d/x".to_string())));
    assert_eq!("leave", step(&mut v, Event::Done));
    assert_eq!("open d/x", step(&mut v, Event::Done));
    assert_eq!(4, v.indent());
    assert_eq!(Some(&b"d/x"[..]), v.target());
    assert_eq!("read", step(&mut v, Event::Opened { locked: false }));
    assert_eq!("write [inner] false", step(&mut v, text("inner\n")));
    assert_eq!("read", step(&mut v, Event::Done));
    assert_eq!("read", step(&mut v, text("half")));
    assert_eq!("close [half] false", step(&mut v, text("")));
    assert_eq!(2, v.indent());
    assert_eq!("return", step(&mut v, Event::Done));
    assert_eq!("read", step(&mut v, Event::Done));
    assert_eq!("write [resumed=d/t,two] false", step(&mut v, text("two\n")));
    assert_eq!("read", step(&mut v, Event::Done));
    assert_eq!("name /top/d/x false", step(&mut v, line("unlocked", "x")));
    assert_eq!("write [] false", step(&mut v, Event::Name("d/x".to_string())));
    assert_eq!("leave", step(&mut v, Event::Done));
    assert_eq!("return", step(&mut v, Event::Done));
    assert_eq!("read", step(&mut v, Event::Done));
    assert_eq!("name /top/d/x false", step(&mut v, line("done", "3 x")));
    assert_eq!("write [done=3 d/x] false", step(&mut v, Event::Name("d/x".to_string())));
    assert_eq!("read", step(&mut v, Event::Done));
    assert_eq!("close [] false", step(&mut v, text("")));
    assert_eq!("finish", step(&mut v, Event::Done));
    assert_eq!(0, v.indent());
    assert!(v.begin(b"d/t").is_none());
    assert!(v.target().is_none());
}

#[test]
fn following_logs() {
    let mut v = Viewer::new(b"/top".to_vec(), options(), true);
    open(&mut v, "t", true);
    assert_eq!("look", step(&mut v, text("")));
    assert_eq!("wait 10 false", step(&mut v, Event::Looked { locked: true, over_a_second: false, width: 70 }));
    assert_eq!("read", step(&mut v, Event::Done));
    assert_eq!("look", step(&mut v, text("")));
    assert_eq!("wait 20 true", step(&mut v, Event::Looked { locked: true, over_a_second: true, width: 70 }));
    assert_eq!(b"redo 0 t ", v.status());
    assert_eq!("read", step(&mut v, Event::Done));
    assert_eq!("write [x] true", step(&mut v, text("x\n")));
    assert!(v.status().is_empty());
    assert_eq!("read", step(&mut v, Event::Done));
    assert_eq!("look", step(&mut v, text("")));
    assert_eq!("wait 10 true", step(&mut v, Event::Looked { locked: false, over_a_second: true, width: 70 }));
    assert_eq!("read", step(&mut v, Event::Done));
    assert_eq!("close [] true", step(&mut v, text("")));
}

#[test]
fn waits_grow_to_a_second() {
    let mut v = Viewer::new(b"/top".to_vec(), options(), false);
    open(&mut v, "t", true);
    for i in 1..=150 {
        assert_eq!("look", step(&mut v, text("")));
        let ms = if i < 100 { i * 10 } else { 1000 };
        let seen = Event::Looked { locked: true, over_a_second: true, width: 0 };
        assert_eq!(format!("wait {} false", ms), step(&mut v, seen));
        assert_eq!("read", step(&mut v, Event::Done));
    }
}

#[test]
fn logs_that_cannot_be_shown() {
    let mut v = Viewer::new(b"/top".to_vec(), options(), true);
    open(&mut v, "-", false);
    assert_eq!(0, v.indent());
    assert_eq!("stop BadDone", step(&mut v, line("done", "nothing")));
    let mut v = Viewer::new(b"/top".to_vec(), options(), true);
    open(&mut v, "-", false);
    assert_eq!("name /top/ false", step(&mut v, line("do", "")));
    assert_eq!("stop Nameless", step(&mut v, Event::Name("".to_string())));
    let mut v = Viewer::new(b"/top".to_vec(), options(), true);
    open(&mut v, "t", true);
    assert_eq!("look", step(&mut v, text("")));
    let seen = Event::Looked { locked: true, over_a_second: true, width: 10 };
    assert!(matches!(v.step(seen), Action::Stop(Stop::NoRoom)));
}
