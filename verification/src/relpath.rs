//! One unique name for a file, however it is reached.
//!
//! What the file system has to say is passed in: the current directory, and where a directory
//! really is once symbolic links are followed.

use std::borrow::Cow;
use vstd::prelude::*;
use vstd::string::*;
use crate::env::Env;
use crate::error::{debug_str, opaque, plain, quoted, ErrorView, KindView, RedoError, RedoErrorKind};
use crate::helpers::{
    abs_path, absolute, cow_bytes, element_start, is_clean, is_name, is_plain, lemma_clean_names,
    lemma_names_around, lemma_names_render, lemma_normalized_parent, lemma_ranges_render,
    lemma_render_prefix, names, normalized, normpath, parent_element, render, resolve, resolved, step,
};
use crate::pathname::{
    component, components, is_absolute, is_rooted, join_path, law_parent_and_name, lemma_ranges, parent,
    parent_of, pushed, range_ints, ranges,
};
use crate::redopath::{bad_path, is_redo_path, show_bytes, shown, RedoPathBuf};
use crate::text::{bytes_eq, copy_bytes, join, views, DOT, SEP};

verus! {

/// An absolute path, as the file system gives it.
#[derive(Debug)]
pub struct AbsolutePath {
    bytes: Vec<u8>,
}

impl View for AbsolutePath {
    type V = Seq<u8>;

    closed spec fn view(&self) -> Seq<u8> {
        self.bytes@
    }
}

impl AbsolutePath {
    #[verifier::type_invariant]
    spec fn inv(self) -> bool {
        is_rooted(self.bytes@)
    }

    /// Takes a path that is absolute, and no other.
    pub fn new(path: Vec<u8>) -> (r: Option<AbsolutePath>)
        ensures
            match r {
                Some(p) => is_rooted(path@) && p@ == path@,
                None => !is_rooted(path@),
            },
    {
        if is_absolute(path.as_slice()) {
            Some(AbsolutePath { bytes: path })
        } else {
            None
        }
    }

    /// The bytes of the path.
    pub fn as_bytes(&self) -> (r: &[u8])
        ensures
            r@ == self@,
            is_rooted(r@),
    {
        proof {
            use_type_invariant(self);
        }
        self.bytes.as_slice()
    }
}

/// Where a directory really is: the answer of the file system to the question for its
/// canonical path.
#[derive(Debug)]
pub enum RealDir {
    /// The canonical path.
    Real(AbsolutePath),
    /// There is no such directory.
    NotFound,
    /// It could not be found out, for the given reason.
    Failed(String),
}

/// What the file system says about two paths, one of which is to be expressed relative to the
/// other.
#[derive(Debug)]
pub struct Places {
    /// The current directory, or why it is not known.
    pub cwd: Result<AbsolutePath, String>,
    /// Where the directory of the first path is.
    pub target: RealDir,
    /// Where the directory of the second path is.
    pub base: RealDir,
}

impl RealDir {
    /// A canonical path is absolute.
    pub open spec fn ok(self) -> bool {
        self matches RealDir::Real(p) ==> is_rooted(p@)
    }
}

impl Places {
    /// The current directory and canonical paths are absolute.
    pub open spec fn ok(self) -> bool {
        &&& (self.cwd matches Ok(c) ==> is_rooted(c@))
        &&& self.target.ok()
        &&& self.base.ok()
    }
}

/// The components of a path.
pub open spec fn parts(p: Seq<u8>) -> Seq<Seq<u8>> {
    Seq::new(ranges(p).len(), |i: int| component(p, i))
}

/// The components of a path.
pub fn path_parts(p: &[u8]) -> (r: Vec<Vec<u8>>)
    ensures
        views(r@) == parts(p@),
{
    let rs = components(p);
    let mut out: Vec<Vec<u8>> = Vec::new();
    proof {
        lemma_ranges(p@);
        assert(range_ints(rs@).len() == rs@.len());
    }
    let mut i: usize = 0;
    while i < rs.len()
        invariant
            i <= rs.len(),
            out.len() == i,
            range_ints(rs@) == ranges(p@),
            rs@.len() == ranges(p@).len(),
            forall|k: int|
                0 <= k < ranges(p@).len() ==> 0 <= (#[trigger] ranges(p@)[k]).0 < ranges(p@)[k].1 <= p@.len(),
            forall|k: int| 0 <= k < i ==> (#[trigger] out@[k])@ == component(p@, k),
        decreases rs.len() - i,
    {
        assert(range_ints(rs@)[i as int] == (rs@[i as int].0 as int, rs@[i as int].1 as int));
        let ghost r = ranges(p@)[i as int];
        out.push(copy_bytes(vstd::slice::slice_subrange(p, rs[i].0, rs[i].1)));
        i = i + 1;
    }
    assert(views(out@) =~= parts(p@));
    out
}

/// How many leading elements two lists have in common.
pub open spec fn common(a: Seq<Seq<u8>>, b: Seq<Seq<u8>>) -> int
    decreases a.len(),
{
    if a.len() == 0 || b.len() == 0 || a[0] != b[0] {
        0
    } else {
        1 + common(a.skip(1), b.skip(1))
    }
}

proof fn lemma_common(a: Seq<Seq<u8>>, b: Seq<Seq<u8>>, n: int)
    requires
        0 <= n <= a.len(),
        n <= b.len(),
        forall|i: int| 0 <= i < n ==> a[i] == b[i],
        n == a.len() || n == b.len() || a[n] != b[n],
    ensures
        common(a, b) == n,
    decreases n,
{
    if n > 0 {
        lemma_common(a.skip(1), b.skip(1), n - 1);
    }
}

pub proof fn lemma_common_bounds(a: Seq<Seq<u8>>, b: Seq<Seq<u8>>)
    ensures
        0 <= common(a, b) <= a.len(),
        common(a, b) <= b.len(),
        a.take(common(a, b)) == b.take(common(a, b)),
        common(a, b) == a.len() || common(a, b) == b.len() || a[common(a, b)] != b[common(a, b)],
    decreases a.len(),
{
    if a.len() == 0 || b.len() == 0 || a[0] != b[0] {
        assert(a.take(0) =~= b.take(0));
    } else {
        lemma_common_bounds(a.skip(1), b.skip(1));
        let n = common(a.skip(1), b.skip(1));
        assert(a.take(n + 1) =~= seq![a[0]] + a.skip(1).take(n));
        assert(b.take(n + 1) =~= seq![b[0]] + b.skip(1).take(n));
    }
}

fn common_prefix(a: &Vec<Vec<u8>>, b: &Vec<Vec<u8>>) -> (n: usize)
    ensures
        n == common(views(a@), views(b@)),
        n <= a.len(),
        n <= b.len(),
{
    let mut n: usize = 0;
    while n < a.len() && n < b.len() && bytes_eq(a[n].as_slice(), b[n].as_slice())
        invariant
            n <= a.len(),
            n <= b.len(),
            forall|i: int| 0 <= i < n ==> (#[trigger] a@[i])@ == b@[i]@,
        decreases a.len() - n,
    {
        n = n + 1;
    }
    proof {
        assert forall|i: int| 0 <= i < n implies views(a@)[i] == views(b@)[i] by {
            assert(a@[i]@ == b@[i]@);
        }
        lemma_common(views(a@), views(b@), n as int);
    }
    n
}

/// Whether two paths have the same components.
pub fn same_path(a: &[u8], b: &[u8]) -> (r: bool)
    ensures
        r == (parts(a@) == parts(b@)),
{
    let x = path_parts(a);
    let y = path_parts(b);
    if x.len() != y.len() {
        assert(views(x@).len() != views(y@).len());
        return false;
    }
    let n: usize = common_prefix(&x, &y);
    proof {
        lemma_common_bounds(views(x@), views(y@));
        if n == x.len() {
            assert(views(x@).take(n as int) =~= views(x@));
            assert(views(y@).take(n as int) =~= views(y@));
        } else if views(x@) == views(y@) {
            lemma_common(views(x@), views(y@), x.len() as int);
        }
    }
    n == x.len()
}

/// Where the last separator of a path is.
pub open spec fn last_sep(p: Seq<u8>) -> Option<int>
    decreases p.len(),
{
    if p.len() == 0 {
        None
    } else if p.last() == SEP {
        Some(p.len() - 1)
    } else {
        last_sep(p.drop_last())
    }
}

/// Where the last separator of a path is.
fn find_last_sep(p: &[u8]) -> (r: Option<usize>)
    ensures
        match r {
            Some(i) => i < p.len() && last_sep(p@) == Some(i as int),
            None => last_sep(p@) is None,
        },
{
    let mut i: usize = p.len();
    assert(p@.take(i as int) =~= p@);
    while i > 0
        invariant
            i <= p.len(),
            last_sep(p@) == last_sep(p@.take(i as int)),
        decreases i,
    {
        assert(p@.take(i as int).last() == p@[i - 1]);
        assert(p@.take(i as int).drop_last() =~= p@.take(i - 1));
        if p[i - 1] == SEP {
            return Some(i - 1);
        }
        i = i - 1;
    }
    None
}

/// The directory that has to be looked up to find out where a path really leads: all but its
/// last element. There is nothing to look up for something in the current directory.
pub open spec fn directory_of(t: Seq<u8>) -> Option<Seq<u8>> {
    match last_sep(t) {
        None => None,
        Some(i) => if parts(t.take(i + 1)) == parts(seq![DOT]) {
            None
        } else {
            Some(t.take(i + 1))
        },
    }
}

/// What an operation that needs the current directory gives if that is not known.
pub open spec fn text_of(r: Result<Vec<u8>, String>) -> Result<Seq<u8>, Seq<char>> {
    match r {
        Ok(v) => Ok(v@),
        Err(e) => Err(e@),
    }
}

/// The current directory, or why it is not known.
pub open spec fn cwd_of(r: Result<AbsolutePath, String>) -> Result<Seq<u8>, Seq<char>> {
    match r {
        Ok(v) => Ok(v@),
        Err(e) => Err(e@),
    }
}

/// The path with its directory replaced by where it really is.
pub open spec fn real_path(t: Seq<u8>, dir: RealDir, cwd: Result<Seq<u8>, Seq<char>>) -> Result<Seq<u8>, Seq<char>> {
    match directory_of(t) {
        None => Ok(t),
        Some(d) => {
            let name = t.skip(last_sep(t).unwrap() + 1);
            match dir {
                RealDir::Real(p) => Ok(pushed(p@, name)),
                RealDir::NotFound => if is_rooted(d) {
                    Ok(pushed(normalized(d), name))
                } else {
                    match cwd {
                        Ok(c) => Ok(pushed(normalized(pushed(c, d)), name)),
                        Err(e) => Err(e),
                    }
                },
                RealDir::Failed(e) => Err(e@),
            }
        },
    }
}

proof fn lemma_last_sep(t: Seq<u8>)
    ensures
        last_sep(t) matches Some(i) ==> 0 <= i < t.len() && t[i] == SEP,
    decreases t.len(),
{
    if t.len() > 0 && t.last() != SEP {
        lemma_last_sep(t.drop_last());
    }
}

/// The directory that [`realdirpath`] needs to be looked up.
pub fn realdir_query(t: &[u8]) -> (r: Option<&[u8]>)
    ensures
        (match r {
            Some(d) => Some(d@),
            None => None,
        }) == directory_of(t@),
{
    match find_last_sep(t) {
        None => None,
        Some(i) => {
            let dname = vstd::slice::slice_subrange(t, 0, i + 1);
            assert(dname@ =~= t@.take(i + 1));
            let dot: [u8; 1] = [DOT];
            assert(dot@ =~= seq![DOT]);
            if same_path(dname, &dot) {
                None
            } else {
                Some(dname)
            }
        },
    }
}

fn owned(c: Cow<[u8]>) -> (r: Vec<u8>)
    ensures
        r@ == cow_bytes(c),
{
    match c {
        Cow::Borrowed(b) => copy_bytes(b),
        Cow::Owned(v) => v,
    }
}

/// Like `Path::canonicalize()`, but don't follow symlinks for the last element.
///
/// redo needs this because targets can be symlinks themselves, and we want
/// to talk about the symlink, not what it points at.  However, all the path
/// elements along the way could result in pathname aliases for a *particular*
/// target, so we want to resolve it to one unique name.
///
/// `dir` says where the directory is that [`realdir_query`] names.
pub fn realdirpath(t: &[u8], dir: &RealDir, cwd: &Result<AbsolutePath, String>) -> (r: Result<Vec<u8>, String>)
    ensures
        text_of(r) == real_path(t@, *dir, cwd_of(*cwd)),
        is_rooted(t@) ==> (r matches Ok(p) ==> is_rooted(p@)),
{
    let dname = match realdir_query(t) {
        None => return Ok(copy_bytes(t)),
        Some(d) => d,
    };
    proof {
        lemma_last_sep(t@);
    }
    let n: usize = dname.len();
    let fname = vstd::slice::slice_subrange(t, n, t.len());
    assert(fname@ =~= t@.skip(last_sep(t@).unwrap() + 1));
    let buf: Vec<u8> = match dir {
        RealDir::Real(p) => copy_bytes(p.as_bytes()),
        RealDir::NotFound => if is_absolute(dname) {
            owned(normpath(dname))
        } else {
            match cwd {
                Ok(c) => owned(normpath(join_path(c.as_bytes(), dname).as_slice())),
                Err(e) => return Err(e.clone()),
            }
        },
        RealDir::Failed(e) => return Err(e.clone()),
    };
    proof {
        crate::helpers::law_normalized_keeps_meaning(dname@);
        if is_rooted(t@) {
            assert(dname@[0] == t@[0]);
            lemma_pushed_rooted(buf@, fname@);
        }
    }
    Ok(join_path(buf.as_slice(), fname))
}

/// Elements pushed onto a path one after the other.
pub open spec fn push_all(base: Seq<u8>, es: Seq<Seq<u8>>) -> Seq<u8>
    decreases es.len(),
{
    if es.len() == 0 {
        base
    } else {
        pushed(push_all(base, es.drop_last()), es.last())
    }
}

/// One path seen from another: up from `base` as far as is needed, and down to `t` from there.
pub open spec fn relative(t: Seq<u8>, base: Seq<u8>) -> Seq<u8> {
    let n = common(parts(t), parts(base));
    push_all(
        push_all(seq![], Seq::new((parts(base).len() - n) as nat, |i: int| parent_element())),
        parts(t).skip(n),
    )
}

/// The one unique name of a path: its directory is where it really is, and the whole is in its normal form.
pub open spec fn unique_name(t: Seq<u8>, dir: RealDir, cwd: Result<Seq<u8>, Seq<char>>) -> Result<Seq<u8>, Seq<char>> {
    if !is_rooted(t) && cwd is Err {
        Err(cwd->Err_0)
    } else {
        let full = if is_rooted(t) {
            t
        } else {
            pushed(cwd->Ok_0, t)
        };
        match real_path(full, dir, cwd) {
            Err(e) => Err(e),
            Ok(p) => Ok(normalized(p)),
        }
    }
}

/// One path seen from another, both of them reduced to their unique names first.
pub open spec fn relative_real(t: Seq<u8>, base: Seq<u8>, places: Places) -> Result<Seq<u8>, Seq<char>> {
    match unique_name(t, places.target, cwd_of(places.cwd)) {
        Err(e) => Err(e),
        Ok(tn) => match unique_name(base, places.base, cwd_of(places.cwd)) {
            Err(e) => Err(e),
            Ok(bn) => Ok(relative(tn, bn)),
        },
    }
}

/// Whether the path `r` leads from the directory `base` to `t`, both of them absolute: it is relative, goes up from `base` just to
/// the longest part that both have in common, and down to `t` from there.
pub open spec fn leads(r: Seq<u8>, base: Seq<u8>, t: Seq<u8>) -> bool {
    let (tp, bp) = (parts(t), parts(base));
    let n = common(tp, bp);
    &&& is_rooted(t) && is_rooted(base) && !is_rooted(r)
    &&& 0 < n <= tp.len() && n <= bp.len() && tp.take(n) == bp.take(n)
    &&& n == tp.len() || n == bp.len() || tp[n] != bp[n]
    &&& r == join(Seq::new((bp.len() - n) as nat, |i: int| parent_element()) + tp.skip(n), SEP)
    &&& normalized(pushed(base, r)) == t
}

/// Given a relative or absolute path `t`, express it relative to `base`. The result leads from `base` to `t`.
pub fn relpath(t: &[u8], base: &[u8], places: &Places) -> (r: Result<Vec<u8>, String>)
    requires
        is_rooted(base@),
    ensures
        text_of(r) == relative_real(t@, base@, *places),
        r matches Ok(p) ==> leads(
            p@,
            unique_name(base@, places.base, cwd_of(places.cwd))->Ok_0,
            unique_name(t@, places.target, cwd_of(places.cwd))->Ok_0,
        ),
{
    let full: Vec<u8> = if is_absolute(t) {
        copy_bytes(t)
    } else {
        match &places.cwd {
            Ok(c) => {
                let c = c.as_bytes();
                proof {
                    lemma_pushed_rooted(c@, t@);
                }
                join_path(c, t)
            },
            Err(e) => return Err(e.clone()),
        }
    };
    let rt = match realdirpath(full.as_slice(), &places.target, &places.cwd) {
        Ok(p) => p,
        Err(e) => return Err(e),
    };
    let tn = owned(normpath(rt.as_slice()));
    let rb = match realdirpath(base, &places.base, &places.cwd) {
        Ok(p) => p,
        Err(e) => return Err(e),
    };
    let bn = owned(normpath(rb.as_slice()));
    proof {
        law_relative_leads_back(rt@, rb@);
    }
    Ok(relative_to(tn.as_slice(), bn.as_slice()))
}

/// One path seen from another, both taken as they are written.
pub fn relative_to(t: &[u8], base: &[u8]) -> (r: Vec<u8>)
    ensures
        r@ == relative(t@, base@),
{
    let tp = path_parts(t);
    let bp = path_parts(base);
    let n: usize = common_prefix(&tp, &bp);
    let mut buf: Vec<u8> = Vec::new();
    let ups: usize = bp.len() - n;
    let dotdot: [u8; 2] = [DOT, DOT];
    assert(dotdot@ =~= parent_element());
    assert(buf@ =~= seq![]);
    let ghost up = |k: int| Seq::new(k as nat, |i: int| parent_element());
    let mut i: usize = 0;
    while i < ups
        invariant
            i <= ups,
            dotdot@ == parent_element(),
            up == (|k: int| Seq::new(k as nat, |i: int| parent_element())),
            buf@ == push_all(seq![], up(i as int)),
        decreases ups - i,
    {
        buf = join_path(buf.as_slice(), &dotdot);
        assert(up(i + 1).drop_last() =~= up(i as int));
        i = i + 1;
    }
    let ghost start = buf@;
    let ghost rest = parts(t@).skip(n as int);
    assert(views(tp@) == parts(t@));
    assert(views(tp@).len() == tp@.len());
    let mut j: usize = n;
    assert(rest.take(0) =~= seq![]);
    while j < tp.len()
        invariant
            n <= j <= tp.len(),
            views(tp@) == parts(t@),
            tp@.len() == parts(t@).len(),
            rest == parts(t@).skip(n as int),
            buf@ == push_all(start, rest.take(j - n)),
        decreases tp.len() - j,
    {
        buf = join_path(buf.as_slice(), tp[j].as_slice());
        assert(views(tp@)[j as int] == tp@[j as int]@);
        assert(rest.take(j - n + 1).drop_last() =~= rest.take(j - n));
        assert(rest.take(j - n + 1).last() == tp@[j as int]@);
        j = j + 1;
    }
    assert(rest.take(j - n) =~= rest);
    buf
}

/// The directory of the target that is being built, by the settings of a process that was started
/// to build it and the current directory.
pub open spec fn target_dir_of(env: Env, cwd: Seq<u8>) -> Result<Seq<u8>, ErrorView> {
    let dofile_dir = absolute(cwd, pushed(env.startdir@, env.pwd@));
    if env.target@.len() == 0 {
        Ok(absolute(cwd, dofile_dir))
    } else {
        match parent_of(pushed(dofile_dir, env.target@)) {
            Some(d) => Ok(absolute(cwd, d)),
            None => Err(
                plain(
                    KindView::InvalidTarget(env.target@),
                    "invalid target path "@ + quoted(shown(env.target@)) + " (no directory)"@,
                ),
            ),
        }
    }
}

/// What [`target_relpath`] gives.
pub open spec fn relative_to_target(env: Env, t: Seq<u8>, places: Places) -> Result<Seq<u8>, ErrorView> {
    match cwd_of(places.cwd) {
        Err(e) => Err(opaque(e)),
        Ok(cwd) => match target_dir_of(env, cwd) {
            Err(e) => Err(e),
            Ok(dir) => match relative_real(t, dir, places) {
                Err(e) => Err(opaque(e)),
                Ok(p) => if is_redo_path(p) {
                    Ok(p)
                } else {
                    Err(bad_path(p))
                },
            },
        },
    }
}

proof fn lemma_parent_rooted(p: Seq<u8>)
    requires
        is_rooted(p),
    ensures
        parent_of(p) matches Some(d) ==> is_rooted(d),
{
    lemma_ranges(p);
    let rs = ranges(p);
    if rs.len() > 1 {
        let e = rs[rs.len() - 2];
        assert(p.take(e.1)[0] == p[0]);
    }
}

proof fn lemma_pushed_rooted(base: Seq<u8>, path: Seq<u8>)
    requires
        is_rooted(base),
    ensures
        is_rooted(pushed(base, path)),
{
    assert(pushed(base, path)[0] == SEP);
}

/// The directory of the target that is being built.
pub fn target_dir(env: &Env, cwd: &AbsolutePath) -> (r: Result<Vec<u8>, RedoError>)
    ensures
        match r {
            Ok(d) => target_dir_of(*env, cwd@) == Ok::<Seq<u8>, ErrorView>(d@) && is_rooted(d@),
            Err(e) => target_dir_of(*env, cwd@) == Err::<Seq<u8>, ErrorView>(e@),
        },
{
    let cwd = cwd.as_bytes();
    let rel_dofile_dir = join_path(env.startdir.as_slice(), env.pwd.as_slice());
    let dofile_dir = owned(abs_path(cwd, rel_dofile_dir.as_slice()));
    proof {
        lemma_pushed_rooted(cwd@, rel_dofile_dir@);
    }
    if env.target.len() == 0 {
        Ok(owned(abs_path(cwd, dofile_dir.as_slice())))
    } else {
        let full = join_path(dofile_dir.as_slice(), env.target.as_slice());
        proof {
            lemma_pushed_rooted(dofile_dir@, env.target@);
            lemma_parent_rooted(full@);
        }
        match parent(full.as_slice()) {
            Some(d) => Ok(owned(abs_path(cwd, d))),
            None => {
                let mut msg = "invalid target path ".to_owned();
                msg.append(debug_str(show_bytes(env.target.as_slice()).as_str()).as_str());
                msg.append(" (no directory)");
                let kind = RedoErrorKind::InvalidTarget(copy_bytes(env.target.as_slice()));
                Err(RedoError::new(msg.as_str()).with_kind(kind))
            },
        }
    }
}

/// Return a relative path for `t` that will work after we do
/// `chdir(dirname(env.target()))`.
///
/// This is tricky!  `env.startdir + env.pwd` is the directory for the
/// *dofile*, when the dofile was started.  However, inside the dofile, someone
/// may have done a `chdir` to anywhere else.  `env.target` is relative to the
/// dofile path, so we have to first figure out where the dofile was, then find
/// TARGET relative to that, then find t relative to that.
pub fn target_relpath(env: &Env, t: &[u8], places: &Places) -> (r: Result<RedoPathBuf, RedoError>)
    ensures
        match r {
            Ok(p) => relative_to_target(*env, t@, *places) == Ok::<Seq<u8>, ErrorView>(p@),
            Err(e) => relative_to_target(*env, t@, *places) == Err::<Seq<u8>, ErrorView>(e@),
        },
{
    let cwd = match &places.cwd {
        Ok(c) => c,
        Err(e) => return Err(RedoError::opaque_error(e.as_str())),
    };
    let dir = match target_dir(env, cwd) {
        Ok(d) => d,
        Err(e) => return Err(e),
    };
    match relpath(t, dir.as_slice(), places) {
        Err(e) => Err(RedoError::opaque_error(e.as_str())),
        Ok(p) => match RedoPathBuf::try_from(p) {
            Ok(p) => Ok(p),
            Err(e) => Err(e.into_error()),
        },
    }
}

/// Elements pushed onto nothing are joined by separators.
proof fn lemma_push_all_join(es: Seq<Seq<u8>>)
    requires
        forall|i: int| 0 <= i < es.len() ==> is_name(#[trigger] es[i]) && !es[i].contains(SEP),
    ensures
        push_all(seq![], es) == join(es, SEP),
        es.len() > 0 ==> join(es, SEP).len() > 0 && join(es, SEP).last() != SEP && !is_rooted(join(es, SEP)),
    decreases es.len(),
{
    if es.len() > 0 {
        let init = es.drop_last();
        assert forall|i: int| 0 <= i < init.len() implies is_name(#[trigger] init[i])
            && !init[i].contains(SEP) by {
            assert(init[i] == es[i]);
        }
        lemma_push_all_join(init);
        let last = es[es.len() - 1];
        assert(last.contains(last[0]));
        assert(last.contains(last.last()));
        if init.len() == 0 {
            assert(seq![] + last =~= last);
        } else {
            assert(join(es, SEP)[0] == join(init, SEP)[0]);
        }
    }
}

proof fn lemma_push_all_concat(base: Seq<u8>, a: Seq<Seq<u8>>, b: Seq<Seq<u8>>)
    ensures
        push_all(push_all(base, a), b) == push_all(base, a + b),
    decreases b.len(),
{
    if b.len() == 0 {
        assert(a + b =~= a);
    } else {
        lemma_push_all_concat(base, a, b.drop_last());
        assert((a + b).drop_last() =~= a + b.drop_last());
    }
}

proof fn lemma_resolve_concat(rooted: bool, dir: Seq<Seq<u8>>, a: Seq<Seq<u8>>, b: Seq<Seq<u8>>)
    ensures
        resolve(rooted, dir, a + b) == resolve(rooted, resolve(rooted, dir, a), b),
    decreases a.len(),
{
    if a.len() == 0 {
        assert(a + b =~= b);
    } else {
        assert((a + b).skip(1) =~= a.skip(1) + b);
        lemma_resolve_concat(rooted, step(rooted, dir, a[0]), a.skip(1), b);
    }
}

/// Going up from a directory of ordinary names.
proof fn lemma_resolve_ups(dir: Seq<Seq<u8>>, k: nat)
    requires
        forall|i: int| 0 <= i < dir.len() ==> is_plain(#[trigger] dir[i]),
        k <= dir.len(),
    ensures
        resolve(true, dir, Seq::new(k, |i: int| parent_element())) == dir.take(dir.len() - k),
    decreases k,
{
    let ups = Seq::new(k, |i: int| parent_element());
    if k == 0 {
        assert(dir.take(dir.len() as int) =~= dir);
    } else {
        assert(is_plain(dir[dir.len() - 1]));
        let up = dir.drop_last();
        assert forall|i: int| 0 <= i < up.len() implies is_plain(#[trigger] up[i]) by {
            assert(up[i] == dir[i]);
        }
        lemma_resolve_ups(up, (k - 1) as nat);
        assert(ups.skip(1) =~= Seq::new((k - 1) as nat, |i: int| parent_element()));
        assert(up.take(up.len() - (k - 1)) =~= dir.take(dir.len() - k));
    }
}

/// Going down by ordinary names.
proof fn lemma_resolve_downs(dir: Seq<Seq<u8>>, es: Seq<Seq<u8>>)
    requires
        forall|i: int| 0 <= i < es.len() ==> is_plain(#[trigger] es[i]),
    ensures
        resolve(true, dir, es) == dir + es,
    decreases es.len(),
{
    if es.len() == 0 {
        assert(dir + es =~= dir);
    } else {
        assert(is_plain(es[0]));
        let rest = es.skip(1);
        assert forall|i: int| 0 <= i < rest.len() implies is_plain(#[trigger] rest[i]) by {
            assert(rest[i] == es[i + 1]);
        }
        lemma_resolve_downs(dir.push(es[0]), rest);
        assert(dir.push(es[0]) + rest =~= dir + es);
    }
}

/// The components of a written-out rooted directory.
proof fn lemma_parts_render(dir: Seq<Seq<u8>>)
    requires
        is_clean(true, dir, 0),
    ensures
        parts(render(true, dir)) == seq![seq![SEP]] + dir,
{
    let p = render(true, dir);
    lemma_ranges_render(dir);
    let rs = ranges(p);
    assert forall|i: int| 0 <= i < rs.len() implies #[trigger] parts(p)[i] == (seq![seq![SEP]] + dir)[i] by {
        if i == 0 {
            assert(p.subrange(0, 1) =~= seq![SEP]);
        } else {
            lemma_render_prefix(true, dir, i - 1);
            assert(rs[i] == (element_start(true, dir, i - 1), render(true, dir.take(i)).len() as int));
        }
    }
    assert(parts(p) =~= seq![seq![SEP]] + dir);
}

/// What a rooted directory and a relative path behind it lead to.
proof fn lemma_names_pushed(dir: Seq<Seq<u8>>, es: Seq<Seq<u8>>)
    requires
        is_clean(true, dir, 0),
        forall|i: int| 0 <= i < es.len() ==> is_name(#[trigger] es[i]) && !es[i].contains(SEP),
    ensures
        is_rooted(pushed(render(true, dir), join(es, SEP))),
        names(pushed(render(true, dir), join(es, SEP))) == dir + es,
{
    let base = render(true, dir);
    let rel = join(es, SEP);
    lemma_clean_names(true, dir, 0);
    lemma_names_render(true, dir);
    lemma_names_render(false, es);
    assert(render(false, es) =~= rel);
    lemma_push_all_join(es);
    lemma_push_all_join(dir);
    lemma_pushed_rooted(base, rel);
    if dir.len() == 0 {
        assert(base =~= seq![SEP]);
        assert(pushed(base, rel) =~= render(true, es));
        lemma_names_render(true, es);
        assert(dir + es =~= es);
    } else {
        assert(base.last() == join(dir, SEP).last());
        assert(pushed(base, rel) =~= base.push(SEP) + rel);
        lemma_names_around(base, rel);
    }
}

/// A path that was expressed relative to a directory leads, from that directory, to where it
/// led before.
pub proof fn law_relative_leads_back(t: Seq<u8>, base: Seq<u8>)
    requires
        is_rooted(t),
        is_rooted(base),
    ensures
        leads(relative(normalized(t), normalized(base)), normalized(base), normalized(t)),
{
    lemma_normalized_parent(t);
    lemma_normalized_parent(base);
    let td = resolved(t);
    let bd = resolved(base);
    lemma_parts_render(td);
    lemma_parts_render(bd);
    let tp = seq![seq![SEP]] + td;
    let bp = seq![seq![SEP]] + bd;
    let n = common(tp, bp);
    lemma_common_bounds(tp, bp);
    lemma_common_bounds(tp.skip(1), bp.skip(1));
    assert(n >= 1);
    let m = n - 1;
    assert(td.take(m) =~= tp.take(n).skip(1));
    assert(bd.take(m) =~= bp.take(n).skip(1));
    let k = (bd.len() - m) as nat;
    let ups = Seq::new(k, |i: int| parent_element());
    assert((bp.len() - n) as nat == k);
    let downs = td.skip(m);
    assert(tp.skip(n) =~= downs);
    let es = ups + downs;
    lemma_clean_names(true, td, 0);
    assert forall|i: int| 0 <= i < es.len() implies is_name(#[trigger] es[i]) && !es[i].contains(SEP) by {
        if i < k {
            assert(es[i] == parent_element());
            assert(es[i].len() == 2);
        } else {
            assert(es[i] == td[m + i - k]);
        }
    }
    let rel = relative(normalized(t), normalized(base));
    lemma_push_all_concat(seq![], ups, downs);
    lemma_push_all_join(es);
    assert(rel == join(es, SEP));
    lemma_names_pushed(bd, es);
    let full = pushed(render(true, bd), rel);
    // Resolving stays in `base`, goes up to what both have in common, and down to `t`.
    assert forall|i: int| 0 <= i < bd.len() implies is_plain(#[trigger] bd[i]) by {}
    lemma_resolve_concat(true, seq![], bd, es);
    lemma_resolve_downs(seq![], bd);
    assert(seq![] + bd =~= bd);
    lemma_resolve_concat(true, bd, ups, downs);
    lemma_resolve_ups(bd, k);
    assert forall|i: int| 0 <= i < downs.len() implies is_plain(#[trigger] downs[i]) by {
        assert(downs[i] == td[m + i]);
    }
    lemma_resolve_downs(bd.take(m), downs);
    assert(td.take(m) + downs =~= td);
    assert(resolved(full) == td);
    crate::helpers::law_normalized_keeps_meaning(t);
    crate::helpers::law_normalized_keeps_meaning(base);
    assert(tp.skip(n) =~= parts(normalized(t)).skip(n));
    assert(tp.take(n) =~= bp.take(n));
}

proof fn lemma_unique_name(t: Seq<u8>, dir: RealDir, cwd: Result<Seq<u8>, Seq<char>>)
    requires
        dir.ok(),
        cwd matches Ok(c) ==> is_rooted(c),
    ensures
        unique_name(t, dir, cwd) is Ok ==> exists|p: Seq<u8>|
            is_rooted(p) && unique_name(t, dir, cwd) == Ok::<Seq<u8>, Seq<char>>(#[trigger] normalized(p)),
{
    if unique_name(t, dir, cwd) is Ok {
        let full = if is_rooted(t) {
            t
        } else {
            pushed(cwd->Ok_0, t)
        };
        if !is_rooted(t) {
            lemma_pushed_rooted(cwd->Ok_0, t);
        }
        let p = real_path(full, dir, cwd)->Ok_0;
        lemma_last_sep(full);
        if directory_of(full) is Some {
            let d = directory_of(full).unwrap();
            let name = full.skip(last_sep(full).unwrap() + 1);
            assert(d[0] == full[0]);
            match dir {
                RealDir::Real(q) => {
                    lemma_pushed_rooted(q@, name);
                },
                RealDir::NotFound => {
                    crate::helpers::law_normalized_keeps_meaning(d);
                    lemma_pushed_rooted(normalized(d), name);
                },
                RealDir::Failed(_) => {},
            }
        }
        assert(is_rooted(p));
        assert(unique_name(t, dir, cwd) == Ok::<Seq<u8>, Seq<char>>(normalized(p)));
    }
}

/// A path that was expressed relative to a directory leads, from that directory, to where it led before: both are
/// taken by their unique names.
pub proof fn law_relpath_leads_back(t: Seq<u8>, base: Seq<u8>, places: Places)
    requires
        places.ok(),
        is_rooted(base),
    ensures
        relative_real(t, base, places) matches Ok(r) ==> leads(
            r,
            unique_name(base, places.base, cwd_of(places.cwd))->Ok_0,
            unique_name(t, places.target, cwd_of(places.cwd))->Ok_0,
        ),
{
    let cwd = cwd_of(places.cwd);
    lemma_unique_name(t, places.target, cwd);
    lemma_unique_name(base, places.base, cwd);
    if relative_real(t, base, places) is Ok {
        let a = choose|p: Seq<u8>|
            is_rooted(p) && unique_name(t, places.target, cwd) == Ok::<Seq<u8>, Seq<char>>(#[trigger] normalized(p));
        let b = choose|p: Seq<u8>|
            is_rooted(p) && unique_name(base, places.base, cwd) == Ok::<Seq<u8>, Seq<char>>(#[trigger] normalized(p));
        law_relative_leads_back(a, b);
    }
}

proof fn lemma_last_sep_at(dir: Seq<u8>, name: Seq<u8>)
    requires
        forall|i: int| 0 <= i < name.len() ==> name[i] != SEP,
    ensures
        last_sep(dir + seq![SEP] + name) == Some(dir.len() as int),
    decreases name.len(),
{
    let t = dir + seq![SEP] + name;
    if name.len() > 0 {
        assert(t.last() == name.last());
        assert(t.drop_last() =~= dir + seq![SEP] + name.drop_last());
        lemma_last_sep_at(dir, name.drop_last());
    } else {
        assert(t.last() == SEP);
    }
}

proof fn lemma_no_sep(name: Seq<u8>)
    requires
        forall|i: int| 0 <= i < name.len() ==> name[i] != SEP,
    ensures
        last_sep(name) is None,
    decreases name.len(),
{
    if name.len() > 0 {
        lemma_no_sep(name.drop_last());
    }
}

/// What stands before the last separator of a path is replaced by where it really is, and the name behind it is kept. If there is no such
/// directory, its normal form takes its place; if it could not be found out where it is, that is an error. A name in the current directory
/// stays as it is.
pub proof fn law_only_directories_are_resolved(
    dir: Seq<u8>,
    name: Seq<u8>,
    at: RealDir,
    cwd: Result<Seq<u8>, Seq<char>>,
)
    requires
        forall|i: int| 0 <= i < name.len() ==> name[i] != SEP,
    ensures
        real_path(name, at, cwd) == Ok::<Seq<u8>, Seq<char>>(name),
        parts(dir + seq![SEP]) == parts(seq![DOT]) ==> real_path(dir + seq![SEP] + name, at, cwd) == Ok::<
            Seq<u8>,
            Seq<char>,
        >(dir + seq![SEP] + name),
        parts(dir + seq![SEP]) != parts(seq![DOT]) ==> {
            let r = real_path(dir + seq![SEP] + name, at, cwd);
            match at {
                RealDir::Real(p) => r == Ok::<Seq<u8>, Seq<char>>(pushed(p@, name)),
                RealDir::Failed(e) => r == Err::<Seq<u8>, Seq<char>>(e@),
                RealDir::NotFound => {
                    &&& (dir + seq![SEP])[0] == SEP ==> r == Ok::<Seq<u8>, Seq<char>>(
                        pushed(normalized(dir + seq![SEP]), name),
                    )
                    &&& (dir + seq![SEP])[0] != SEP ==> match cwd {
                        Ok(c) => r == Ok::<Seq<u8>, Seq<char>>(pushed(normalized(pushed(c, dir + seq![SEP])), name)),
                        Err(e) => r == Err::<Seq<u8>, Seq<char>>(e),
                    }
                },
            }
        },
{
    let t = dir + seq![SEP] + name;
    lemma_no_sep(name);
    lemma_last_sep_at(dir, name);
    let n = dir.len() as int;
    assert(t.take(n + 1) =~= dir + seq![SEP]);
    assert(t.skip(n + 1) =~= name);
}

/// The unique name of a path is an absolute one in its normal form. It is the same whether the path is given from the current directory or
/// from the root directory.
pub proof fn law_unique_names(t: Seq<u8>, cwd: Seq<u8>, at: RealDir, why: Seq<char>)
    requires
        at.ok(),
        is_rooted(cwd),
    ensures
        unique_name(t, at, Ok(cwd)) matches Ok(p) ==> is_rooted(p) && normalized(p) == p,
        unique_name(pushed(cwd, t), at, Ok(cwd)) == unique_name(t, at, Ok(cwd)),
        !is_rooted(t) ==> unique_name(t, at, Err(why)) == Err::<Seq<u8>, Seq<char>>(why),
        unique_name(t, at, Ok(cwd)) is Err ==> at is Failed,
{
    lemma_unique_name(t, at, Ok(cwd));
    lemma_pushed_rooted(cwd, t);
    if unique_name(t, at, Ok(cwd)) is Ok {
        let q = choose|q: Seq<u8>|
            is_rooted(q) && unique_name(t, at, Ok(cwd)) == Ok::<Seq<u8>, Seq<char>>(#[trigger] normalized(q));
        crate::helpers::law_normalized_idempotent(q);
        crate::helpers::law_normalized_keeps_meaning(q);
    }
}

/// The directory of the target that is being built is that of its `.do` file, and that of the target in it if the target has a directory of
/// its own.
pub proof fn law_directory_of_target(env: Env, cwd: Seq<u8>, sub: Seq<u8>, name: Seq<u8>)
    requires
        env.startdir@.len() > 0 && env.startdir@[0] == SEP,
        env.startdir@.last() != SEP && env.startdir@.last() != DOT,
        name.len() > 0 && (forall|i: int| 0 <= i < name.len() ==> name[i] != SEP) && name != seq![DOT] && name != seq![DOT, DOT],
        sub.len() > 0 && sub[0] != SEP && sub.last() != SEP && sub.last() != DOT,
    ensures
        env.pwd@.len() > 0 && env.pwd@[0] != SEP && env.target@.len() == 0 ==> target_dir_of(env, cwd) == Ok::<
            Seq<u8>,
            ErrorView,
        >(env.startdir@ + seq![SEP] + env.pwd@),
        env.pwd@ == sub && env.target@ == name ==> target_dir_of(env, cwd) == Ok::<Seq<u8>, ErrorView>(
            env.startdir@ + seq![SEP] + sub,
        ),
        env.pwd@ == sub && env.target@ == sub + seq![SEP] + name ==> target_dir_of(env, cwd) == Ok::<Seq<u8>, ErrorView>(
            env.startdir@ + seq![SEP] + sub + seq![SEP] + sub,
        ),
{
    let start = env.startdir@;
    crate::helpers::law_pushed(start, env.pwd@);
    let d = pushed(start, env.pwd@);
    if env.pwd@.len() > 0 && env.pwd@[0] != SEP {
        assert(d == start + seq![SEP] + env.pwd@);
        assert(d[0] == SEP);
        crate::helpers::law_pushed(d, env.target@);
        if env.pwd@ == sub {
            assert(d.last() == sub.last());
            if env.target@ == name {
                law_parent_and_name(d, name);
            }
            if env.target@ == sub + seq![SEP] + name {
                let e = d + seq![SEP] + sub;
                assert(e.last() == sub.last());
                assert(e[0] == SEP);
                assert(env.target@[0] == sub[0]);
                assert(pushed(d, env.target@) =~= e + seq![SEP] + name);
                law_parent_and_name(e, name);
            }
        }
    }
}

} // verus!
