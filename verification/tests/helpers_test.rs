use std::path::Path;
use redo::helpers::{abs_path, normpath};
use redo::pathname::{file_name, join_path, parent};
use std::borrow::Cow;

fn norm(p: &str) -> String {
    let c = normpath(p.as_bytes());
    String::from_utf8(c.into_owned()).unwrap()
}

#[test]
fn normpath_clean_name() {
    assert_eq!("abc", norm("abc"));
}

#[test]
fn normpath_clean_one_slash() {
    assert_eq!("abc/def", norm("abc/def"));
}

#[test]
fn normpath_clean_multiple_slashes() {
    assert_eq!("a/b/c", norm("a/b/c"));
}

#[test]
fn normpath_clean_dot() {
    assert_eq!(".", norm("."));
}

#[test]
fn normpath_clean_parent() {
    assert_eq!("..", norm(".."));
}

#[test]
fn normpath_clean_multiple_parents() {
    assert_eq!("../..", norm("../.."));
}

#[test]
fn normpath_clean_multiple_parents_with_file() {
    assert_eq!("../../abc", norm("../../abc"));
}

#[test]
fn normpath_clean_root_file() {
    assert_eq!("/abc", norm("/abc"));
}

#[test]
fn normpath_clean_root() {
    assert_eq!("/", norm("/"));
}

#[test]
fn normpath_empty() {
    assert_eq!(".", norm(""));
}

#[test]
fn normpath_trailing_slash_name() {
    assert_eq!("abc", norm("abc/"));
}

#[test]
fn normpath_trailing_slash_one_slash() {
    assert_eq!("abc/def", norm("abc/def/"));
}

#[test]
fn normpath_trailing_slash_multiple_slashes() {
    assert_eq!("a/b/c", norm("a/b/c/"));
}

#[test]
fn normpath_trailing_slash_dot() {
    assert_eq!(".", norm("./"));
}

#[test]
fn normpath_trailing_slash_parent() {
    assert_eq!("..", norm("../"));
}

#[test]
fn normpath_trailing_slash_multiple_parents() {
    assert_eq!("../..", norm("../../"));
}

#[test]
fn normpath_trailing_slash_multiple_parents_with_file() {
    assert_eq!("../../abc", norm("../../abc/"));
}

#[test]
fn normpath_double_slash_inner() {
    assert_eq!("abc/def/ghi", norm("abc//def//ghi"));
}

#[test]
fn normpath_double_slash_leading() {
    assert_eq!("/abc", norm("//abc"));
}

#[test]
fn normpath_triple_slash_leading() {
    assert_eq!("/abc", norm("///abc"));
}

#[test]
fn normpath_double_slash_leading_and_trailing() {
    assert_eq!("/abc", norm("//abc//"));
}

#[test]
fn normpath_double_slash_trailing() {
    assert_eq!("abc", norm("abc//"));
}

#[test]
fn normpath_dot_inner() {
    assert_eq!("abc/def", norm("abc/./def"));
}

#[test]
fn normpath_dot_root() {
    assert_eq!("/abc/def", norm("/./abc/def"));
}

#[test]
fn normpath_dot_trailing() {
    assert_eq!("abc", norm("abc/."));
}

#[test]
fn normpath_parent_inner() {
    assert_eq!("abc/def/jkl", norm("abc/def/ghi/../jkl"));
}

#[test]
fn normpath_parent_double_inner() {
    assert_eq!("abc/jkl", norm("abc/def/../ghi/../jkl"));
}

#[test]
fn normpath_parent_trailing() {
    assert_eq!("abc", norm("abc/def/.."));
}

#[test]
fn normpath_parent_trailing_to_dot() {
    assert_eq!(".", norm("abc/def/../.."));
}

#[test]
fn normpath_parent_trailing_to_root() {
    assert_eq!("/", norm("/abc/def/../.."));
}

#[test]
fn normpath_parent_trailing_to_parent() {
    assert_eq!("..", norm("abc/def/../../.."));
}

#[test]
fn normpath_parent_trailing_to_root_parent() {
    assert_eq!("/", norm("/abc/def/../../.."));
}

#[test]
fn normpath_parent_to_sibling() {
    assert_eq!("../../mno", norm("abc/def/../../../ghi/jkl/../../../mno"));
}

#[test]
fn normpath_parent_root_file() {
    assert_eq!("/abc", norm("/../abc"));
}

#[test]
fn normpath_combo1() {
    assert_eq!("def", norm("abc/./../def"));
}

#[test]
fn normpath_combo2() {
    assert_eq!("def", norm("abc//./../def"));
}

#[test]
fn normpath_combo3() {
    assert_eq!("../../def", norm("abc/../../././../def"));
}

#[test]
fn normpath_combo4() {
    assert_eq!("/abc/jkl", norm("/abc/def/ghi/../../jkl/mno/.."));
}

#[test]
fn normpath_borrows_clean_paths() {
    assert!(matches!(normpath(b"a/b/c"), Cow::Borrowed(_)));
    assert!(matches!(normpath(b"abc/"), Cow::Borrowed(_)));
    assert!(matches!(normpath(b"a/../b"), Cow::Owned(_)));
}

#[test]
fn normpath_of_bytes_that_are_no_text() {
    assert_eq!(normpath(b"\xff/./\xfe//x").as_ref(), b"\xff/\xfe/x");
}

#[test]
fn normpath_twice_is_normpath_once() {
    for p in ["", "/", "a/../..", "/..//x/./y/", "./.", "...", "a/.b/..c"] {
        let once = norm(p);
        assert_eq!(once, norm(&once));
        assert!(once == "/" || !once.ends_with('/'));
        assert!(!once.is_empty());
    }
}

#[test]
fn abs_path_of_absolute_path() {
    let p = abs_path(b"/home", b"/usr/x");
    assert!(matches!(p, Cow::Borrowed(_)));
    assert_eq!(p.as_ref(), b"/usr/x");
}

#[test]
fn abs_path_of_relative_path() {
    let p = abs_path(b"/home", b"x/y");
    assert!(matches!(p, Cow::Owned(_)));
    assert_eq!(p.as_ref(), b"/home/x/y");
    assert_eq!(abs_path(b"/", b"x").as_ref(), b"/x");
    assert_eq!(abs_path(b"/home", b"").as_ref(), b"/home/");
}

#[test]
fn join_path_like_std() {
    for base in ["", "/", "a", "a/", "/a/b"] {
        for p in ["", "x", "/x", "x/y/", "."] {
            let want = Path::new(base).join(p);
            let got = join_path(base.as_bytes(), p.as_bytes());
            assert_eq!(want.to_str().unwrap().as_bytes(), &got[..]);
        }
    }
}

#[test]
fn parent_and_file_name_like_std() {
    for p in ["", "/", "a", "a/b", "/a", "/a/", "a//b//", "a/.", "./a", ".", "./.", "..", "a/..", "//", "/.", "a/./b", ".//."] {
        let std_path = Path::new(p);
        let want = std_path.parent().map(|d| d.to_str().unwrap().as_bytes().to_vec());
        assert_eq!(want, parent(p.as_bytes()).map(|d| d.to_vec()), "parent of {:?}", p);
        let want = std_path.file_name().map(|d| d.to_str().unwrap().as_bytes().to_vec());
        assert_eq!(want, file_name(p.as_bytes()).map(|d| d.to_vec()), "file name of {:?}", p);
    }
}

#[test]
fn normal_forms_are_shortest() {
    for q in ["a/./b/../c", "a//c", "a/c/", "./a/c", "a/c"] {
        assert_eq!("a/c", norm(q));
        assert!(norm(q).len() <= q.len());
    }
    assert_eq!(".", norm("a/.."));
}

#[test]
fn prefixes_may_be_normalized_first() {
    for a in ["", "/", "a/..", "../x/", "/..", "a//b/../c"] {
        for b in ["", "b", "../b", "./.././b/"] {
            let whole = redo::pathname::join_path(a.as_bytes(), b.as_bytes());
            let first = redo::pathname::join_path(norm(a).as_bytes(), b.as_bytes());
            assert_eq!(normpath(&whole), normpath(&first));
        }
    }
}
