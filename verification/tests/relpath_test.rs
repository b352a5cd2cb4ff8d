use redo::error::RedoErrorKind;
use redo::helpers::normpath;
use redo::pathname::join_path;
use redo::env::{Env, Var};
use redo::relpath::{
    realdir_query, realdirpath, relative_to, relpath, same_path, target_dir, target_relpath, AbsolutePath, Places,
    RealDir,
};

fn text(b: Vec<u8>) -> String {
    String::from_utf8(b).unwrap()
}

fn at(p: &str) -> AbsolutePath {
    AbsolutePath::new(p.as_bytes().to_vec()).unwrap()
}

fn cwd() -> Result<AbsolutePath, String> {
    Ok(at("/cwd"))
}

/// Nothing but the root directory exists.
fn bare(t: &str) -> RealDir {
    match realdir_query(t.as_bytes()) {
        Some(b"/") => RealDir::Real(at("/")),
        _ => RealDir::NotFound,
    }
}

fn bare_places(t: &str, base: &str) -> Places {
    Places { cwd: cwd(), target: bare(t), base: bare(base) }
}

fn vars(pairs: &[(&str, &str)]) -> Vec<Var> {
    pairs.iter().map(|(k, v)| (k.as_bytes().to_vec(), v.as_bytes().to_vec())).collect()
}

#[test]
fn realdirpath_root() {
    assert_eq!("/", text(realdirpath(b"/", &bare("/"), &cwd()).unwrap()));
}

#[test]
fn realdirpath_curdir() {
    assert_eq!(".", text(realdirpath(b".", &bare("."), &cwd()).unwrap()));
}

#[test]
fn realdirpath_top() {
    assert_eq!("/foo.txt", text(realdirpath(b"/foo.txt", &bare("/foo.txt"), &cwd()).unwrap()));
}

#[test]
fn realdirpath_trailing_parent() {
    assert_eq!("/foo/..", text(realdirpath(b"/foo/..", &bare("/foo/.."), &cwd()).unwrap()));
}

#[test]
fn realdirpath_intermediate_parent1() {
    assert_eq!("/bar", text(realdirpath(b"/foo/../bar", &bare("/foo/../bar"), &cwd()).unwrap()));
}

#[test]
fn realdirpath_intermediate_parent2() {
    assert_eq!("/workspace/client/install", text(realdirpath(b"/workspace/cmd/server/../../client/dist/../install", &bare("/workspace/cmd/server/../../client/dist/../install"), &cwd()).unwrap()));
}

#[test]
fn relpath_basic() {
    let t = "/a/b/c";
    let base = "/a";
    let got = relpath(t.as_bytes(), base.as_bytes(), &bare_places(t, base)).unwrap();
    assert_eq!("b/c", text(got));
}

#[test]
fn relpath_different_root() {
    let t = "/a/b/c";
    let base = "/d";
    let got = relpath(t.as_bytes(), base.as_bytes(), &bare_places(t, base)).unwrap();
    assert_eq!("../a/b/c", text(got));
}

#[test]
fn relpath_tricky_parents() {
    let t = "/home/light/src/github.com/zombiezen/redo-rs/.redo/../test.redo.tmp";
    let base = "/home/light/src/github.com/zombiezen/redo-rs/.redo/..";
    let got = relpath(t.as_bytes(), base.as_bytes(), &bare_places(t, base)).unwrap();
    assert_eq!("test.redo.tmp", text(got));
}

#[test]
fn relpath_more_tricky_parents() {
    let t = "/workspace/cmd/server/../../client/dist/../install";
    let base = "/workspace";
    let got = relpath(t.as_bytes(), base.as_bytes(), &bare_places(t, base)).unwrap();
    assert_eq!("client/install", text(got));
}

#[test]
fn realdirpath_follows_directory_links() {
    let dir = RealDir::Real(at("/real"));
    assert_eq!("/real/x", text(realdirpath(b"/link/x", &dir, &cwd()).unwrap()));
    assert_eq!("./x", text(realdirpath(b"./x", &dir, &cwd()).unwrap()));
    assert_eq!("x", text(realdirpath(b"x", &dir, &cwd()).unwrap()));
    assert_eq!("/cwd/a/x", text(realdirpath(b"b/../a/x", &RealDir::NotFound, &cwd()).unwrap()));
}

#[test]
fn realdirpath_failures() {
    let failed = RealDir::Failed("denied".to_string());
    assert_eq!(Err("denied".to_string()), realdirpath(b"/a/b", &failed, &cwd()));
    let lost: Result<AbsolutePath, String> = Err("gone".to_string());
    assert_eq!(Err("gone".to_string()), realdirpath(b"a/b", &RealDir::NotFound, &lost));
    assert_eq!(Ok(b"/a/b".to_vec()), realdirpath(b"/a/b", &RealDir::NotFound, &lost));
}

#[test]
fn realdir_query_names_the_directory() {
    assert_eq!(Some(&b"/a/"[..]), realdir_query(b"/a/b"));
    assert_eq!(None, realdir_query(b"b"));
    assert_eq!(None, realdir_query(b"./b"));
    assert_eq!(Some(&b"../"[..]), realdir_query(b"../b"));
}

#[test]
fn relpath_of_relative_path() {
    let places = Places { cwd: cwd(), target: RealDir::NotFound, base: RealDir::NotFound };
    assert_eq!("x/y", text(relpath(b"x/y", b"/cwd", &places).unwrap()));
    assert_eq!("../cwd/x", text(relpath(b"x", b"/other", &places).unwrap()));
    let lost = Places { cwd: Err("gone".to_string()), target: RealDir::NotFound, base: RealDir::NotFound };
    assert_eq!(Err("gone".to_string()), relpath(b"x", b"/other", &lost));
}

#[test]
fn relative_to_leads_back() {
    for t in ["/", "/a", "/a/b/c", "/x/y"] {
        for base in ["/", "/a", "/a/b", "/z/z/z"] {
            let rel = relative_to(t.as_bytes(), base.as_bytes());
            let full = join_path(base.as_bytes(), &rel);
            assert_eq!(normpath(&full).as_ref(), t.as_bytes());
        }
    }
}

#[test]
fn same_path_compares_components() {
    assert!(same_path(b"//ALWAYS", b"/ALWAYS"));
    assert!(same_path(b"a/./b/", b"a/b"));
    assert!(!same_path(b"./a", b"a"));
    assert!(!same_path(b"/a", b"a"));
    assert!(!same_path(b"a/b", b"a"));
}

#[test]
fn target_relpath_goes_by_the_target_directory() {
    let env = Env::inherit(&vars(&[("REDO_STARTDIR", "/start"), ("REDO_PWD", "sub"), ("REDO_TARGET", "out/prog")]));
    assert_eq!(b"/start/sub/out".to_vec(), target_dir(&env, &at("/cwd")).unwrap());
    let places = Places { cwd: cwd(), target: RealDir::NotFound, base: RealDir::NotFound };
    let p = target_relpath(&env, b"/start/sub/src/x.c", &places).unwrap();
    assert_eq!("../src/x.c", p.into_string());
}

#[test]
fn target_relpath_without_target() {
    let env = Env::inherit(&vars(&[("REDO_STARTDIR", "start"), ("REDO_PWD", "sub")]));
    assert_eq!(b"/cwd/start/sub".to_vec(), target_dir(&env, &at("/cwd")).unwrap());
}

#[test]
fn target_relpath_errors() {
    let env = Env::inherit(&vars(&[("REDO_STARTDIR", "/start"), ("REDO_TARGET", "/")]));
    let e = target_dir(&env, &at("/cwd")).unwrap_err();
    assert_eq!("invalid target path \"/\" (no directory)", e.message());
    assert!(matches!(e.kind(), RedoErrorKind::InvalidTarget(t) if t == b"/"));
    let ok = Env::inherit(&vars(&[("REDO_STARTDIR", "/start")]));
    let lost = Places { cwd: Err("gone".to_string()), target: RealDir::NotFound, base: RealDir::NotFound };
    assert_eq!("redo: gone", target_relpath(&ok, b"x", &lost).unwrap_err().message());
    let places = Places { cwd: cwd(), target: RealDir::NotFound, base: RealDir::NotFound };
    let e = target_relpath(&ok, b"/start/a\nb", &places).unwrap_err();
    assert!(matches!(e.kind(), RedoErrorKind::InvalidTarget(_)));
    assert_eq!("could not use \"a\\nb\" as redo path", e.message());
}

#[test]
fn absolute_paths() {
    assert_eq!(b"/a/b", at("/a/b").as_bytes());
    assert!(AbsolutePath::new(b"a/b".to_vec()).is_none());
    assert!(AbsolutePath::new(Vec::new()).is_none());
}

#[test]
fn relpath_leads_back_through_links() {
    let places = Places { cwd: cwd(), target: RealDir::Real(at("/real/src")), base: RealDir::Real(at("/real")) };
    let rel = relpath(b"/link/x", b"/other/build", &places).unwrap();
    assert_eq!("../src/x", text(rel.clone()));
    assert_eq!(normpath(&join_path(b"/real/build", &rel)).as_ref(), b"/real/src/x");
}
