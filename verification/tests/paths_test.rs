use redo::pathname::join_path;
use std::path::Path;
use redo::paths::{path_splits, possible_do_files, DefaultDoFiles, DoFile, PossibleDoFiles};

fn collect_defaults(name: &str) -> Vec<(String, String, String)> {
    let mut it = DefaultDoFiles::from(name.as_bytes());
    let mut out = Vec::new();
    while let Some((do_file, base, ext)) = it.next() {
        out.push((
            String::from_utf8(do_file).unwrap(),
            String::from_utf8(base.to_vec()).unwrap(),
            String::from_utf8(ext.to_vec()).unwrap(),
        ));
    }
    assert!(it.next().is_none());
    out
}

fn triple(a: &str, b: &str, c: &str) -> (String, String, String) {
    (a.to_string(), b.to_string(), c.to_string())
}

fn collect(mut it: PossibleDoFiles) -> Vec<DoFile> {
    let mut out = Vec::new();
    while let Some(d) = it.next() {
        out.push(d);
    }
    assert!(it.next().is_none());
    out
}

fn do_file(do_dir: &str, do_file: &str, base_dir: &str, base_name: &str, ext: &str) -> DoFile {
    DoFile {
        do_dir: do_dir.into(),
        do_file: do_file.into(),
        base_dir: base_dir.into(),
        base_name: base_name.into(),
        ext: ext.into(),
    }
}

#[test]
fn default_do_files_empty_string() {
    assert_eq!(collect_defaults(""), vec![triple("default.do", "", "")]);
}

#[test]
fn default_do_files_no_dots() {
    assert_eq!(collect_defaults("foo"), vec![triple("default.do", "foo", "")]);
}

#[test]
fn default_do_files_with_dots() {
    assert_eq!(
        collect_defaults("foo.gen.c"),
        vec![
            triple("default.gen.c.do", "foo", ".gen.c"),
            triple("default.c.do", "foo.gen", ".c"),
            triple("default.do", "foo.gen.c", ""),
        ]
    );
}

#[test]
fn default_do_files_hidden_file() {
    assert_eq!(
        collect_defaults(".rc."),
        vec![
            triple("default.rc..do", "", ".rc."),
            triple("default..do", ".rc", "."),
            triple("default.do", ".rc.", ""),
        ]
    );
}

#[test]
fn possible_do_files_test() {
    assert_eq!(
        collect(possible_do_files(b"/src/redo-rs/bin/redo-log.o")),
        vec![
            do_file("/src/redo-rs/bin", "redo-log.o.do", "", "redo-log.o", ""),
            do_file("/src/redo-rs/bin", "default.o.do", "", "redo-log", ".o"),
            do_file("/src/redo-rs/bin", "default.do", "", "redo-log.o", ""),
            do_file("/src/redo-rs", "default.o.do", "bin", "bin/redo-log", ".o"),
            do_file("/src/redo-rs", "default.do", "bin", "bin/redo-log.o", ""),
            do_file("/src", "default.o.do", "redo-rs/bin", "redo-rs/bin/redo-log", ".o"),
            do_file("/src", "default.do", "redo-rs/bin", "redo-rs/bin/redo-log.o", ""),
            do_file("/", "default.o.do", "src/redo-rs/bin", "src/redo-rs/bin/redo-log", ".o"),
            do_file("/", "default.do", "src/redo-rs/bin", "src/redo-rs/bin/redo-log.o", ""),
        ]
    )
}

#[test]
fn possible_do_files_lead_to_the_target() {
    for t in ["/x", "/a/b/.c.d", "/a//b/../e.f/g"] {
        let want = redo::helpers::normpath(t.as_bytes()).into_owned();
        let all = collect(possible_do_files(t.as_bytes()));
        let mut last: Option<Vec<u8>> = None;
        for d in all {
            let mut name = d.base_name.clone();
            name.extend(&d.ext);
            assert_eq!(want, join_path(d.do_dir(), &name));
            assert!(d.do_file().ends_with(b".do"));
            if let Some(l) = last {
                assert!(l.starts_with(&d.do_dir));
            }
            last = Some(d.do_dir.clone());
        }
        assert_eq!(Some(b"/".to_vec()), last);
    }
}

#[test]
fn path_splits_test() {
    let s = |v: &[(&str, &str)]| -> Vec<(Vec<u8>, Vec<u8>)> {
        v.iter().map(|(a, b)| (a.as_bytes().to_vec(), b.as_bytes().to_vec())).collect()
    };
    let got = |p: &str| -> Vec<(Vec<u8>, Vec<u8>)> {
        path_splits(p.as_bytes()).into_iter().map(|(a, b)| (a.to_vec(), b.to_vec())).collect()
    };
    assert_eq!(got("foo"), s(&[("foo", ""), ("", "foo")]));
    assert_eq!(got("/foo"), s(&[("/foo", ""), ("/", "foo")]));
    assert_eq!(got("foo/bar"), s(&[("foo/bar", ""), ("foo", "bar"), ("", "foo/bar")]));
    assert_eq!(
        got("foo/bar/baz"),
        s(&[("foo/bar/baz", ""), ("foo/bar", "baz"), ("foo", "bar/baz"), ("", "foo/bar/baz")])
    );
}

#[test]
fn path_splits_like_std() {
    for p in ["", "/", "./a", "a//b/", "/a/./b/.", "../x", "/x/../y/"] {
        let path = Path::new(p);
        let mut subs: Vec<&Path> = Vec::new();
        let mut it = path.iter();
        loop {
            let sub = it.as_path();
            if it.next().is_none() {
                break;
            }
            subs.push(sub);
        }
        subs.push(Path::new(""));
        let want: Vec<(Vec<u8>, Vec<u8>)> = path
            .ancestors()
            .zip(subs.into_iter().rev())
            .map(|(a, b)| (a.to_str().unwrap().into(), b.to_str().unwrap().into()))
            .collect();
        let got: Vec<(Vec<u8>, Vec<u8>)> =
            path_splits(p.as_bytes()).into_iter().map(|(a, b)| (a.to_vec(), b.to_vec())).collect();
        assert_eq!(want, got, "{:?}", p);
    }
}

#[test]
fn do_files_of_paths_that_are_not_normal() {
    assert_eq!(collect(possible_do_files(b"/a/b.c")), collect(possible_do_files(b"//a/./x/../b.c/")));
    let _ = possible_do_files(b"/..");
}
