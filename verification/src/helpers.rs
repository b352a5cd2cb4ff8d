//! Paths as byte strings: joining, taking apart and lexical cleaning.

use std::borrow::Cow;
use vstd::prelude::*;
use crate::pathname::{
    component, counts, element_len, file_name_of, is_absolute, is_rooted, join_path, lemma_piece_len,
    parent_of, pushed, ranges, ranges_from,
};
use crate::text::{
    copy_bytes, join, lemma_join_split, lemma_split_around, lemma_split_join, lemma_split_len,
    lemma_split_pieces, lemma_split_single, split, DOT, SEP,
};

verus! {

/// The bytes behind a borrowed or owned path.
pub open spec fn cow_bytes(c: Cow<[u8]>) -> Seq<u8> {
    match c {
        Cow::Borrowed(b) => b@,
        Cow::Owned(v) => v@,
    }
}

/// A path made absolute against `cwd`.
pub open spec fn absolute(cwd: Seq<u8>, path: Seq<u8>) -> Seq<u8> {
    if is_rooted(path) {
        path
    } else {
        pushed(cwd, path)
    }
}

/// Make a path absolute if it isn't already.
pub fn abs_path<'q>(cwd: &[u8], path: &'q [u8]) -> (r: Cow<'q, [u8]>)
    ensures
        cow_bytes(r) == absolute(cwd@, path@),
        r is Borrowed <==> is_rooted(path@),
{
    if is_absolute(path) {
        Cow::Borrowed(path)
    } else {
        Cow::Owned(join_path(cwd, path))
    }
}

/// The element `..`, which names the parent directory.
pub open spec fn parent_element() -> Seq<u8> {
    seq![DOT, DOT]
}

/// Whether a piece between separators names something: it is neither empty nor `.`.
pub open spec fn is_name(e: Seq<u8>) -> bool {
    e.len() > 0 && e != seq![DOT]
}

/// Those of the given pieces that name something.
pub open spec fn only_names(es: Seq<Seq<u8>>) -> Seq<Seq<u8>> {
    es.filter(|e: Seq<u8>| is_name(e))
}

/// The elements of a path that name something, `..` among them.
pub open spec fn names(p: Seq<u8>) -> Seq<Seq<u8>> {
    only_names(split(p, SEP))
}

/// Where one more element leads from the directory reached so far.
pub open spec fn step(rooted: bool, dir: Seq<Seq<u8>>, e: Seq<u8>) -> Seq<Seq<u8>> {
    if e != parent_element() {
        dir.push(e)
    } else if dir.len() > 0 && dir.last() != parent_element() {
        dir.drop_last()
    } else if rooted {
        dir
    } else {
        dir.push(e)
    }
}

/// Where a list of elements leads from the directory reached so far.
pub open spec fn resolve(rooted: bool, dir: Seq<Seq<u8>>, es: Seq<Seq<u8>>) -> Seq<Seq<u8>>
    decreases es.len(),
{
    if es.len() == 0 {
        dir
    } else {
        resolve(rooted, step(rooted, dir, es[0]), es.skip(1))
    }
}

/// A path written out, with nothing for the current directory.
pub open spec fn render(rooted: bool, dir: Seq<Seq<u8>>) -> Seq<u8> {
    (if rooted {
        seq![SEP]
    } else {
        seq![]
    }) + join(dir, SEP)
}

/// The elements that a path comes down to once `.` and `..` are resolved.
pub open spec fn resolved(p: Seq<u8>) -> Seq<Seq<u8>> {
    resolve(is_rooted(p), seq![], names(p))
}

/// The shortest path that is lexically equivalent to `p`.
pub open spec fn normalized(p: Seq<u8>) -> Seq<u8> {
    let r = render(is_rooted(p), resolved(p));
    if r.len() == 0 {
        seq![DOT]
    } else {
        r
    }
}

/// Whether an element is an ordinary name: not empty, `.` or `..`, and without a separator.
pub open spec fn is_plain(e: Seq<u8>) -> bool {
    is_name(e) && e != parent_element() && !e.contains(SEP)
}

/// Whether `dir` is `ups` times `..`, followed by ordinary names.
pub open spec fn is_clean(rooted: bool, dir: Seq<Seq<u8>>, ups: int) -> bool {
    &&& 0 <= ups <= dir.len()
    &&& rooted ==> ups == 0
    &&& forall|i: int| 0 <= i < ups ==> dir[i] == parent_element()
    &&& forall|i: int| ups <= i < dir.len() ==> is_plain(#[trigger] dir[i])
}

/// A buffer that stays a prefix of `path` until something else is written to it.
struct LazyBuf<'a> {
    path: &'a [u8],
    buf: Option<Vec<u8>>,
    w: usize,
}

impl<'a> LazyBuf<'a> {
    spec fn store(&self) -> Seq<u8> {
        match self.buf {
            None => self.path@,
            Some(b) => b@,
        }
    }

    spec fn content(&self) -> Seq<u8> {
        self.store().take(self.w as int)
    }

    spec fn wf(&self) -> bool {
        self.w <= self.store().len()
    }

    fn index(&self, i: usize) -> (r: u8)
        requires
            i < self.store().len(),
        ensures
            r == self.store()[i as int],
    {
        match &self.buf {
            None => self.path[i],
            Some(b) => b[i],
        }
    }

    fn append(&mut self, c: u8)
        requires
            old(self).wf(),
            old(self).w < usize::MAX,
        ensures
            final(self).wf(),
            final(self).path == old(self).path,
            final(self).content() == old(self).content().push(c),
            final(self).w == old(self).w + 1,
    {
        let ghost before = self.content();
        let mut buf: Vec<u8> = match self.buf.take() {
            None => {
                if self.w < self.path.len() && self.path[self.w] == c {
                    self.w = self.w + 1;
                    assert(self.content() =~= before.push(c));
                    return;
                }
                copy_bytes(vstd::slice::slice_subrange(self.path, 0, self.w))
            },
            Some(b) => b,
        };
        if self.w < buf.len() {
            buf.truncate(self.w);
        }
        buf.push(c);
        self.w = self.w + 1;
        self.buf = Some(buf);
        assert(self.content() =~= before.push(c));
    }

    /// Takes the last element off what was written.
    fn backtrack(&mut self, dotdot: usize, Ghost(rooted): Ghost<bool>, Ghost(dir): Ghost<Seq<Seq<u8>>>, Ghost(ups): Ghost<int>)
        requires
            old(self).wf(),
            is_clean(rooted, dir, ups),
            ups < dir.len(),
            old(self).content() == render(rooted, dir),
            dotdot == render(rooted, dir.take(ups)).len(),
        ensures
            final(self).wf(),
            final(self).path == old(self).path,
            final(self).content() == render(rooted, dir.drop_last()),
            final(self).w < old(self).w,
    {
        let ghost path = self.path;
        let ghost whole = self.content();
        let ghost q = render(rooted, dir.drop_last()).len();
        let ghost store = self.store();
        let ghost w0 = self.w;
        proof {
            lemma_backtrack(rooted, dir, ups);
        }
        self.w = self.w - 1;
        while self.w > dotdot && self.index(self.w) != SEP
            invariant
                self.wf(),
                self.path == path,
                self.store() == store,
                dotdot <= q <= self.w < w0,
                w0 == whole.len(),
                w0 <= store.len(),
                store.take(w0 as int) == whole,
                forall|j: int| q < j < whole.len() ==> whole[j] != SEP,
                q > dotdot ==> whole[q as int] == SEP,
            decreases self.w,
        {
            assert(whole[self.w as int] == store[self.w as int]);
            self.w = self.w - 1;
        }
        proof {
            assert(whole[self.w as int] == store[self.w as int]);
            assert(self.w == q);
            assert(self.content() =~= whole.take(q as int));
        }
    }

    /// Writes one more `..`.
    fn append_parent(&mut self, Ghost(dir): Ghost<Seq<Seq<u8>>>)
        requires
            old(self).wf(),
            old(self).w < usize::MAX - 2,
            is_clean(false, dir, dir.len() as int),
            old(self).content() == render(false, dir),
        ensures
            final(self).wf(),
            final(self).path == old(self).path,
            final(self).content() == render(false, dir.push(parent_element())),
            final(self).w == old(self).w + (if old(self).w > 0 { 3int } else { 2 }),
    {
        proof {
            lemma_join_push(dir, parent_element());
            lemma_join_empty(dir);
            assert(self.content().len() == self.w);
        }
        if self.w > 0 {
            self.append(SEP);
        }
        self.append(DOT);
        self.append(DOT);
        assert(self.content() =~= render(false, dir.push(parent_element())));
    }

    /// Writes the element of `p` that starts at `r`, after a separator if one is needed.
    fn append_element(&mut self, rooted: bool, p: &[u8], r: usize, n: usize, Ghost(dir): Ghost<Seq<Seq<u8>>>)
        requires
            old(self).wf(),
            r + n <= p.len(),
            old(self).w <= r,
            old(self).w < r || old(self).w == 0 || (rooted && old(self).w == 1),
            forall|i: int| 0 <= i < dir.len() ==> (#[trigger] dir[i]).len() > 0,
            old(self).content() == render(rooted, dir),
        ensures
            final(self).wf(),
            final(self).path == old(self).path,
            final(self).content() == render(rooted, dir.push(p@.subrange(r as int, r + n))),
            final(self).w <= r + n,
    {
        let ghost e = p@.subrange(r as int, r + n);
        let ghost path = self.path;
        proof {
            lemma_join_push(dir, e);
            lemma_join_empty(dir);
            assert(self.content().len() == self.w);
        }
        // add slash if needed
        if (rooted && self.w != 1) || (!rooted && self.w != 0) {
            self.append(SEP);
        }
        let ghost start = self.content();
        // copy element
        let mut i: usize = 0;
        while i < n
            invariant
                i <= n,
                r + n <= p.len(),
                e == p@.subrange(r as int, r + n),
                self.wf(),
                self.path == path,
                self.content() == start + e.take(i as int),
                self.w == start.len() + i,
                start.len() <= r,
            decreases n - i,
        {
            self.append(p[r + i]);
            i = i + 1;
            assert(self.content() =~= start + e.take(i as int));
        }
        assert(e.take(i as int) =~= e);
        assert(self.content() =~= render(rooted, dir.push(e)));
    }

    fn into_bytes(self) -> (r: Cow<'a, [u8]>)
        requires
            self.wf(),
        ensures
            cow_bytes(r) == self.content(),
    {
        let w = self.w;
        match self.buf {
            None => Cow::Borrowed(vstd::slice::slice_subrange(self.path, 0, w)),
            Some(b) => {
                let mut b = b;
                b.truncate(w);
                Cow::Owned(b)
            },
        }
    }
}

proof fn lemma_join_push(dir: Seq<Seq<u8>>, e: Seq<u8>)
    ensures
        join(dir.push(e), SEP) == if dir.len() == 0 {
            e
        } else {
            join(dir, SEP).push(SEP) + e
        },
{
    assert(dir.push(e).drop_last() =~= dir);
}

/// What a directory with names in it is written as is never shorter than before.
proof fn lemma_join_grows(dir: Seq<Seq<u8>>, k: int)
    requires
        0 <= k < dir.len(),
        forall|i: int| 0 <= i < dir.len() ==> (#[trigger] dir[i]).len() > 0,
    ensures
        join(dir, SEP).len() > join(dir.take(k), SEP).len(),
    decreases dir.len() - k,
{
    assert(dir.take(k + 1) =~= dir.take(k).push(dir[k]));
    lemma_join_push(dir.take(k), dir[k]);
    if k + 1 < dir.len() {
        lemma_join_grows(dir, k + 1);
    } else {
        assert(dir.take(k + 1) =~= dir);
    }
}

/// Where the last element of a directory starts in what it is written as.
proof fn lemma_backtrack(rooted: bool, dir: Seq<Seq<u8>>, ups: int)
    requires
        is_clean(rooted, dir, ups),
        ups < dir.len(),
    ensures
        ({
            let whole = render(rooted, dir);
            let q = render(rooted, dir.drop_last()).len();
            let dotdot = render(rooted, dir.take(ups)).len();
            &&& dotdot <= q < whole.len()
            &&& q > dotdot ==> whole[q as int] == SEP
            &&& forall|j: int| q < j < whole.len() ==> whole[j] != SEP
            &&& whole.take(q as int) == render(rooted, dir.drop_last())
        }),
{
    let pre = dir.drop_last();
    let last = dir.last();
    let whole = render(rooted, dir);
    let q = render(rooted, pre).len();
    assert(dir =~= pre.push(last));
    assert(is_plain(dir[dir.len() - 1]));
    lemma_join_push(pre, last);
    assert(pre.take(ups) =~= dir.take(ups));
    if pre.len() > ups {
        lemma_join_grows(pre, ups);
    } else {
        assert(pre.take(ups) =~= pre);
    }
    let off: int = if pre.len() > 0 {
        q as int + 1
    } else {
        q as int
    };
    assert forall|j: int| q < j < whole.len() implies whole[j] != SEP by {
        assert(whole[j] == last[j - off]);
        assert(last.contains(last[j - off]));
    }
    assert(whole.take(q as int) =~= render(rooted, pre));
}

proof fn lemma_plain(p: Seq<u8>, n: int)
    requires
        0 < n <= p.len(),
        forall|i: int| 0 <= i < n ==> p[i] != SEP,
        !(p[0] == DOT && n == 1),
        !(p[0] == DOT && n == 2 && p[1] == DOT),
    ensures
        is_plain(p.take(n)),
{
    let e = p.take(n);
    if e == seq![DOT] {
        assert(e.len() == 1 && e[0] == DOT);
    }
    if e == parent_element() {
        assert(e.len() == 2 && e[0] == DOT && e[1] == DOT);
    }
    assert(!e.contains(SEP));
}

proof fn lemma_names_skip_sep(p: Seq<u8>)
    requires
        is_rooted(p),
    ensures
        names(p) == names(p.skip(1)),
{
    let pred = |e: Seq<u8>| is_name(e);
    let rest = split(p.skip(1), SEP);
    Seq::filter_distributes_over_add(seq![Seq::<u8>::empty()], rest, pred);
    lemma_filter_one(Seq::<u8>::empty());
    assert(seq![Seq::<u8>::empty()].filter(pred) + rest.filter(pred) =~= rest.filter(pred));
}

proof fn lemma_filter_one(e: Seq<u8>)
    ensures
        only_names(seq![e]) == if is_name(e) {
            seq![e]
        } else {
            seq![]
        },
{
    let pred = |e: Seq<u8>| is_name(e);
    reveal(Seq::filter);
    assert(seq![e].drop_last() =~= Seq::<Seq<u8>>::empty());
    assert(Seq::<Seq<u8>>::empty().filter(pred) =~= seq![]);
    assert(seq![e].filter(pred) =~= if is_name(e) { seq![e] } else { seq![] });
}

/// The elements of a path that starts with the piece `p[..n]`.
proof fn lemma_names_first(p: Seq<u8>, n: int)
    requires
        0 < n <= p.len(),
        !p.take(n).contains(SEP),
        n < p.len() ==> p[n] == SEP,
    ensures
        names(p) == (if is_name(p.take(n)) {
            seq![p.take(n)]
        } else {
            seq![]
        }) + names(p.skip(n)),
{
    let pred = |e: Seq<u8>| is_name(e);
    let e = p.take(n);
    lemma_split_single(e, SEP);
    lemma_filter_one(e);
    if n < p.len() {
        assert(p =~= e.push(SEP) + p.skip(n + 1));
        lemma_split_around(e, p.skip(n + 1), SEP);
        Seq::filter_distributes_over_add(seq![e], split(p.skip(n + 1), SEP), pred);
        lemma_names_skip_sep(p.skip(n));
        assert(p.skip(n).skip(1) =~= p.skip(n + 1));
    } else {
        assert(p =~= e);
        assert(p.skip(n) =~= Seq::empty());
        lemma_filter_one(Seq::<u8>::empty());
        assert(names(p) =~= (if is_name(e) { seq![e] } else { seq![] }) + names(p.skip(n)));
    }
}

proof fn lemma_resolve_first(rooted: bool, dir: Seq<Seq<u8>>, e: Seq<u8>, es: Seq<Seq<u8>>)
    ensures
        resolve(rooted, dir, seq![e] + es) == resolve(rooted, step(rooted, dir, e), es),
{
    assert((seq![e] + es).skip(1) =~= es);
}

/// Return the shortest path name equivalent to path by purely lexical
/// processing. It applies the following rules iteratively until no further
/// processing can be done:
///
/// 1. Replace multiple separator elements with a single one.
/// 2. Eliminate each `.` path name element (the current directory).
/// 3. Eliminate each inner `..` path name element (the parent directory)
///    along with the non-`..` element that precedes it.
/// 4. Eliminate `..` elements that begin a rooted path:
///    that is, replace `/..` by `/` at the beginning of a path.
///
/// The returned path ends in a slash only if it represents the root directory, `/`.
///
/// If the result of this process is an empty string, `normpath` returns the
/// string `.`.
///
/// See also Rob Pike, [Lexical File Names in Plan 9 or Getting Dot-Dot Right](https://9p.io/sys/doc/lexnames.html).
pub fn normpath<'a>(p: &'a [u8]) -> (res: Cow<'a, [u8]>)
    ensures
        cow_bytes(res) == normalized(p@),
{
    let rooted = is_absolute(p);
    let mut out = LazyBuf { path: p, buf: None, w: 0 };
    let mut r: usize = 0;
    let mut dotdot: usize = 0;
    let ghost mut dir: Seq<Seq<u8>> = seq![];
    let ghost mut ups: int = 0;
    let ghost goal = resolved(p@);
    assert(p@.skip(0) =~= p@);
    if rooted {
        out.append(SEP);
        r = 1;
        dotdot = 1;
        proof {
            lemma_names_skip_sep(p@);
        }
    }
    assert(out.content() =~= render(rooted, dir));
    assert(dir.take(0) =~= dir);
    while r < p.len()
        invariant
            rooted == is_rooted(p@),
            r <= p.len(),
            out.wf(),
            out.path@ == p@,
            is_clean(rooted, dir, ups),
            out.content() == render(rooted, dir),
            out.w <= r,
            r == 0 || r == p.len() || p@[r - 1] == SEP || p@[r as int] == SEP,
            r > 0 && p@[r - 1] == SEP ==> out.w < r || (rooted && out.w == 1),
            dotdot == render(rooted, dir.take(ups)).len(),
            resolve(rooted, dir, names(p@.skip(r as int))) == goal,
        decreases p.len() - r,
    {
        let ghost rest = p@.skip(r as int);
        let r0: u8 = p[r];
        let n: usize = element_len(p, r);
        let ghost e = rest.take(n as int);
        proof {
            assert(forall|i: int| 0 <= i < n ==> rest[i] == p@[r + i]);
            if n > 0 {
                lemma_names_first(rest, n as int);
                assert(rest.skip(n as int) =~= p@.skip(r + n));
            } else {
                lemma_names_skip_sep(rest);
                assert(rest.skip(1) =~= p@.skip(r + 1));
            }
            assert(out.content().len() == out.w);
        }
        if r0 == SEP {
            // empty path element
            r = r + 1;
        } else if r0 == DOT && n == 1 {
            // . element
            assert(e =~= seq![DOT]);
            assert(seq![] + names(p@.skip(r + n)) =~= names(p@.skip(r + n)));
            r = r + 1;
        } else if r0 == DOT && n == 2 && p[r + 1] == DOT {
            // .. element: remove to last separator
            assert(e =~= parent_element());
            proof {
                lemma_resolve_first(rooted, dir, e, names(p@.skip(r + n)));
                if dir.len() > ups {
                    lemma_join_grows(dir, ups);
                    assert(is_plain(dir.last()));
                } else {
                    assert(dir.take(ups) =~= dir);
                    assert(dir.len() > 0 ==> dir.last() == parent_element());
                }
            }
            r = r + 2;
            if out.w > dotdot {
                // can backtrack
                out.backtrack(dotdot, Ghost(rooted), Ghost(dir), Ghost(ups));
                proof {
                    assert(dir.drop_last().take(ups) =~= dir.take(ups));
                    dir = dir.drop_last();
                }
            } else if !rooted {
                // cannot backtrack, but not rooted, so append .. element.
                out.append_parent(Ghost(dir));
                dotdot = out.w;
                proof {
                    dir = dir.push(e);
                    ups = dir.len() as int;
                    assert(dir.take(ups) =~= dir);
                }
            }
        } else {
            // real path element.
            proof {
                lemma_resolve_first(rooted, dir, e, names(p@.skip(r + n)));
                lemma_plain(rest, n as int);
            }
            out.append_element(rooted, p, r, n, Ghost(dir));
            proof {
                assert(p@.subrange(r as int, r + n) =~= e);
                assert(dir.push(e).take(ups) =~= dir.take(ups));
                dir = dir.push(e);
            }
            r = r + n;
        }
    }
    proof {
        assert(p@.skip(r as int) =~= Seq::empty());
        lemma_filter_one(Seq::<u8>::empty());
        assert(names(p@.skip(r as int)) =~= seq![]);
        assert(dir == goal);
    }
    // Turn empty string into "."
    if out.w == 0 {
        out.append(DOT);
        assert(out.content() =~= seq![DOT]);
    }
    out.into_bytes()
}

proof fn lemma_join_empty(dir: Seq<Seq<u8>>)
    requires
        forall|i: int| 0 <= i < dir.len() ==> (#[trigger] dir[i]).len() > 0,
    ensures
        join(dir, SEP).len() == 0 <==> dir.len() == 0,
{
    if dir.len() > 0 {
        lemma_join_grows(dir, 0);
    }
}

proof fn lemma_filter_pieces(es: Seq<Seq<u8>>)
    requires
        forall|i: int| 0 <= i < es.len() ==> !(#[trigger] es[i]).contains(SEP),
    ensures
        forall|i: int|
            0 <= i < only_names(es).len() ==> is_name(
                #[trigger] only_names(es)[i],
            ) && !only_names(es)[i].contains(SEP),
    decreases es.len(),
{
    reveal(Seq::filter);
    if es.len() > 0 {
        let init = es.drop_last();
        assert forall|i: int| 0 <= i < init.len() implies !(#[trigger] init[i]).contains(SEP) by {
            assert(init[i] == es[i]);
        }
        assert(!es[es.len() - 1].contains(SEP));
        lemma_filter_pieces(init);
        assert(only_names(es) == if is_name(es.last()) {
            only_names(init).push(es.last())
        } else {
            only_names(init)
        });
    }
}

proof fn lemma_names_pieces(p: Seq<u8>)
    ensures
        forall|i: int|
            0 <= i < names(p).len() ==> is_name(#[trigger] names(p)[i]) && !names(p)[i].contains(SEP),
{
    lemma_split_pieces(p, SEP);
    lemma_filter_pieces(split(p, SEP));
}

/// Resolving elements from a clean directory leads to a clean directory.
proof fn lemma_resolve_clean(rooted: bool, dir: Seq<Seq<u8>>, ups: int, es: Seq<Seq<u8>>) -> (k: int)
    requires
        is_clean(rooted, dir, ups),
        forall|i: int| 0 <= i < es.len() ==> is_name(#[trigger] es[i]) && !es[i].contains(SEP),
    ensures
        is_clean(rooted, resolve(rooted, dir, es), k),
    decreases es.len(),
{
    if es.len() == 0 {
        ups
    } else {
        let next = step(rooted, dir, es[0]);
        let n: int = if es[0] != parent_element() {
            ups
        } else if dir.len() > 0 && dir.last() != parent_element() {
            ups
        } else if rooted {
            ups
        } else {
            ups + 1
        };
        if dir.len() > 0 && ups < dir.len() {
            assert(is_plain(dir[dir.len() - 1]));
        }
        assert(is_name(es[0]));
        let rest = es.skip(1);
        assert forall|i: int| 0 <= i < rest.len() implies is_name(#[trigger] rest[i])
            && !rest[i].contains(SEP) by {
            assert(rest[i] == es[i + 1]);
        }
        assert forall|i: int| n <= i < next.len() implies is_plain(#[trigger] next[i]) by {
            if i < dir.len() {
                assert(next[i] == dir[i]);
            }
        }
        lemma_resolve_clean(rooted, next, n, rest)
    }
}

/// The elements of a normalized path are some number of `..`, none in a rooted path,
/// followed by ordinary names.
pub proof fn law_normalized_is_clean(p: Seq<u8>) -> (ups: int)
    ensures
        is_clean(is_rooted(p), resolved(p), ups),
{
    lemma_names_pieces(p);
    lemma_resolve_clean(is_rooted(p), seq![], 0, names(p))
}

proof fn lemma_filter_all(es: Seq<Seq<u8>>)
    requires
        forall|i: int| 0 <= i < es.len() ==> is_name(#[trigger] es[i]),
    ensures
        only_names(es) == es,
    decreases es.len(),
{
    let pred = |e: Seq<u8>| is_name(e);
    reveal(Seq::filter);
    if es.len() > 0 {
        let init = es.drop_last();
        assert forall|i: int| 0 <= i < init.len() implies is_name(#[trigger] init[i]) by {
            assert(init[i] == es[i]);
        }
        lemma_filter_all(init);
        assert(init.push(es.last()) =~= es);
    } else {
        assert(es.filter(pred) =~= es);
    }
}

/// The elements of two paths with a separator between.
pub proof fn lemma_names_around(a: Seq<u8>, b: Seq<u8>)
    ensures
        names(a.push(SEP) + b) == names(a) + names(b),
{
    lemma_split_around(a, b, SEP);
    Seq::filter_distributes_over_add(split(a, SEP), split(b, SEP), |e: Seq<u8>| is_name(e));
}

/// Elements that were written out are read back as they are.
pub proof fn lemma_names_render(rooted: bool, dir: Seq<Seq<u8>>)
    requires
        forall|i: int| 0 <= i < dir.len() ==> is_name(#[trigger] dir[i]) && !dir[i].contains(SEP),
    ensures
        names(render(rooted, dir)) == dir,
        is_rooted(render(rooted, dir)) == rooted,
{
    let body = join(dir, SEP);
    let r = render(rooted, dir);
    if dir.len() == 0 {
        lemma_filter_one(Seq::<u8>::empty());
        assert(split(body, SEP) =~= seq![Seq::<u8>::empty()]);
        assert(names(body) =~= dir);
    } else {
        lemma_split_join(dir, SEP);
        lemma_filter_all(dir);
        lemma_join_starts(dir);
    }
    if rooted {
        assert(r.skip(1) =~= body);
        lemma_names_skip_sep(r);
    } else {
        assert(r =~= body);
    }
}

proof fn lemma_join_starts(dir: Seq<Seq<u8>>)
    requires
        dir.len() > 0,
        forall|i: int| 0 <= i < dir.len() ==> is_name(#[trigger] dir[i]) && !dir[i].contains(SEP),
    ensures
        !is_rooted(join(dir, SEP)),
        join(dir, SEP).len() > 0,
        join(dir, SEP).last() != SEP,
    decreases dir.len(),
{
    assert(is_name(dir[0]));
    assert(is_name(dir[dir.len() - 1]));
    if dir.len() == 1 {
        assert(dir[0].contains(dir[0][0]));
        assert(dir[0].contains(dir[0].last()));
    } else {
        let init = dir.drop_last();
        assert forall|i: int| 0 <= i < init.len() implies is_name(#[trigger] init[i])
            && !init[i].contains(SEP) by {
            assert(init[i] == dir[i]);
        }
        lemma_join_starts(init);
        assert(dir.last().contains(dir.last().last()));
        assert(join(dir, SEP)[0] == join(init, SEP)[0]);
    }
}

/// A clean directory leads to itself.
pub proof fn lemma_resolve_stays(rooted: bool, dir: Seq<Seq<u8>>, ups: int, i: int)
    requires
        is_clean(rooted, dir, ups),
        0 <= i <= dir.len(),
    ensures
        resolve(rooted, dir.take(i), dir.skip(i)) == dir,
    decreases dir.len() - i,
{
    if i == dir.len() {
        assert(dir.take(i) =~= dir);
    } else {
        let e = dir[i];
        if ups <= i {
            assert(is_plain(dir[i]));
        } else if i > 0 {
            assert(dir.take(i).last() == dir[i - 1]);
        }
        assert(dir.take(i).push(e) =~= dir.take(i + 1));
        assert(dir.skip(i).skip(1) =~= dir.skip(i + 1));
        lemma_resolve_stays(rooted, dir, ups, i + 1);
    }
}

pub proof fn lemma_clean_names(rooted: bool, dir: Seq<Seq<u8>>, ups: int)
    requires
        is_clean(rooted, dir, ups),
    ensures
        forall|i: int| 0 <= i < dir.len() ==> is_name(#[trigger] dir[i]) && !dir[i].contains(SEP),
{
    assert forall|i: int| 0 <= i < dir.len() implies is_name(#[trigger] dir[i])
        && !dir[i].contains(SEP) by {
        if i < ups {
            assert(dir[i] == parent_element());
            assert(dir[i].len() == 2);
        } else {
            assert(is_plain(dir[i]));
        }
    }
}

/// Normalizing keeps the elements that a path comes down to, and whether it is rooted.
pub proof fn law_normalized_keeps_meaning(p: Seq<u8>)
    ensures
        is_rooted(normalized(p)) == is_rooted(p),
        resolved(normalized(p)) == resolved(p),
{
    let rooted = is_rooted(p);
    let dir = resolved(p);
    let ups = law_normalized_is_clean(p);
    lemma_clean_names(rooted, dir, ups);
    lemma_names_render(rooted, dir);
    lemma_resolve_stays(rooted, dir, ups, 0);
    assert(dir.take(0) =~= seq![]);
    assert(dir.skip(0) =~= dir);
    let r = render(rooted, dir);
    if r.len() == 0 {
        lemma_join_empty(dir);
        assert(!rooted);
        let dot = seq![DOT];
        assert(!dot.contains(SEP));
        lemma_split_single(dot, SEP);
        lemma_filter_one(dot);
        assert(names(dot) =~= dir);
    }
}

/// Normalizing twice is the same as normalizing once.
pub proof fn law_normalized_idempotent(p: Seq<u8>)
    ensures
        normalized(normalized(p)) == normalized(p),
{
    law_normalized_keeps_meaning(p);
}

/// Whether two paths lead to the same place by their elements alone, whatever the file system holds.
pub open spec fn equivalent(p: Seq<u8>, q: Seq<u8>) -> bool {
    is_rooted(p) == is_rooted(q) && resolved(p) == resolved(q)
}

/// The room that elements take when each of them ends in a separator.
spec fn room(es: Seq<Seq<u8>>) -> nat
    decreases es.len(),
{
    if es.len() == 0 {
        0
    } else {
        room(es.drop_last()) + es.last().len() + 1
    }
}

proof fn lemma_room_push(es: Seq<Seq<u8>>, e: Seq<u8>)
    ensures
        room(es.push(e)) == room(es) + e.len() + 1,
{
    assert(es.push(e).drop_last() =~= es);
}

proof fn lemma_room_join(es: Seq<Seq<u8>>)
    ensures
        es.len() > 0 ==> join(es, SEP).len() + 1 == room(es),
    decreases es.len(),
{
    if es.len() > 0 {
        let init = es.drop_last();
        lemma_room_join(init);
        assert(init.len() == 0 ==> room(init) == 0);
        assert(init.push(es.last()) =~= es);
        lemma_join_push(init, es.last());
    }
}

proof fn lemma_room_names(es: Seq<Seq<u8>>)
    ensures
        room(only_names(es)) <= room(es),
        es.len() > 0 && es[0].len() == 0 ==> room(only_names(es)) < room(es),
    decreases es.len(),
{
    reveal(Seq::filter);
    if es.len() > 0 {
        let init = es.drop_last();
        lemma_room_names(init);
        lemma_room_push(only_names(init), es.last());
        if init.len() > 0 {
            assert(init[0] == es[0]);
        }
    }
}

proof fn lemma_room_resolve(rooted: bool, dir: Seq<Seq<u8>>, es: Seq<Seq<u8>>)
    ensures
        room(resolve(rooted, dir, es)) <= room(dir) + room(es),
    decreases es.len(),
{
    if es.len() > 0 {
        let init = es.drop_last();
        let d = resolve(rooted, dir, init);
        lemma_room_resolve(rooted, dir, init);
        lemma_resolve_add(rooted, dir, init, seq![es.last()]);
        assert(init + seq![es.last()] =~= es);
        lemma_resolve_first(rooted, d, es.last(), seq![]);
        assert(seq![es.last()] + seq![] =~= seq![es.last()]);
        lemma_room_push(d, es.last());
    }
}

proof fn lemma_resolve_add(rooted: bool, dir: Seq<Seq<u8>>, a: Seq<Seq<u8>>, b: Seq<Seq<u8>>)
    ensures
        resolve(rooted, dir, a + b) == resolve(rooted, resolve(rooted, dir, a), b),
    decreases a.len(),
{
    if a.len() == 0 {
        assert(a + b =~= b);
    } else {
        assert((a + b).skip(1) =~= a.skip(1) + b);
        lemma_resolve_add(rooted, step(rooted, dir, a[0]), a.skip(1), b);
    }
}

/// The normal form of a path is equivalent to it, and no path that is equivalent is shorter, but for the empty one.
pub proof fn law_normalized_is_shortest(p: Seq<u8>, q: Seq<u8>)
    ensures
        equivalent(normalized(p), p),
        equivalent(p, q) && q.len() > 0 ==> normalized(p).len() <= q.len(),
{
    law_normalized_keeps_meaning(p);
    let pieces = split(q, SEP);
    lemma_split_len(q, SEP);
    lemma_join_split(q, SEP);
    lemma_room_join(pieces);
    lemma_room_names(pieces);
    lemma_room_resolve(is_rooted(q), seq![], names(q));
    lemma_room_join(resolved(q));
}

/// A path that another is pushed onto may be normalized first.
pub proof fn law_normalized_prefix(a: Seq<u8>, b: Seq<u8>)
    ensures
        normalized(pushed(normalized(a), b)) == normalized(pushed(a, b)),
        equivalent(pushed(normalized(a), b), pushed(a, b)),
{
    if !is_rooted(b) {
        let n = normalized(a);
        law_normalized_keeps_meaning(a);
        lemma_names_pushed(a, b);
        lemma_names_pushed(n, b);
        lemma_resolve_add(is_rooted(a), seq![], names(a), names(b));
        lemma_resolve_add(is_rooted(a), seq![], names(n), names(b));
    }
}

proof fn lemma_names_pushed(a: Seq<u8>, b: Seq<u8>)
    requires
        !is_rooted(b),
    ensures
        names(pushed(a, b)) == names(a) + names(b),
        is_rooted(pushed(a, b)) == is_rooted(a),
{
    if a.len() == 0 {
        assert(pushed(a, b) =~= b);
        lemma_filter_one(Seq::<u8>::empty());
        assert(split(a, SEP) =~= seq![Seq::<u8>::empty()]);
        assert(names(a) + names(b) =~= names(b));
    } else if a.last() == SEP {
        let init = a.drop_last();
        lemma_names_around(init, b);
        lemma_names_around(init, seq![]);
        lemma_filter_one(Seq::<u8>::empty());
        assert(split(Seq::<u8>::empty(), SEP) =~= seq![Seq::<u8>::empty()]);
        assert(names(init) + names(seq![]) =~= names(init));
        assert(init.push(SEP) + seq![] =~= a);
        assert(init.push(SEP) + b =~= a + b);
    } else {
        lemma_names_around(a, b);
    }
}

/// A normalized path is never empty, and ends in a separator only if it is the root directory.
pub proof fn law_normalized_trailing_separator(p: Seq<u8>)
    ensures
        normalized(p).len() > 0,
        normalized(p).last() == SEP ==> normalized(p) == seq![SEP],
{
    let rooted = is_rooted(p);
    let dir = resolved(p);
    let ups = law_normalized_is_clean(p);
    lemma_clean_names(rooted, dir, ups);
    if dir.len() > 0 {
        lemma_join_starts(dir);
    } else {
        assert(render(rooted, dir) =~= if rooted { seq![SEP] } else { seq![] });
    }
}

/// A path that has been made absolute is rooted whenever the directory it was made
/// absolute against is, and making it absolute again changes nothing.
pub proof fn law_absolute(cwd: Seq<u8>, path: Seq<u8>)
    requires
        is_rooted(cwd),
    ensures
        is_rooted(absolute(cwd, path)),
        absolute(cwd, absolute(cwd, path)) == absolute(cwd, path),
{
}

/// Where the element after the first `k` starts in what a directory is written as.
pub open spec fn element_start(rooted: bool, dir: Seq<Seq<u8>>, k: int) -> int {
    render(rooted, dir.take(k)).len() + (if k > 0 {
        1int
    } else {
        0
    })
}

/// What the first elements of a directory are written as begins what the whole is written as.
pub proof fn lemma_render_prefix(rooted: bool, dir: Seq<Seq<u8>>, k: int)
    requires
        0 <= k <= dir.len(),
    ensures
        render(rooted, dir.take(k)).len() <= render(rooted, dir).len(),
        render(rooted, dir).take(render(rooted, dir.take(k)).len() as int) == render(rooted, dir.take(k)),
        k < dir.len() ==> {
            let p = render(rooted, dir);
            let s = element_start(rooted, dir, k);
            let e = render(rooted, dir.take(k + 1)).len();
            &&& k > 0 ==> p[s - 1] == SEP
            &&& s + dir[k].len() == e <= p.len()
            &&& p.subrange(s, e as int) == dir[k]
        },
    decreases dir.len() - k,
{
    let p = render(rooted, dir);
    let here = render(rooted, dir.take(k));
    if k == dir.len() {
        assert(dir.take(k) =~= dir);
        assert(p.take(p.len() as int) =~= p);
    } else {
        lemma_render_prefix(rooted, dir, k + 1);
        let next = render(rooted, dir.take(k + 1));
        assert(dir.take(k + 1) =~= dir.take(k).push(dir[k]));
        lemma_join_push(dir.take(k), dir[k]);
        let s = element_start(rooted, dir, k);
        if k > 0 {
            assert(next =~= here.push(SEP) + dir[k]);
        } else {
            assert(dir.take(0) =~= Seq::empty());
            assert(next =~= here + dir[k]);
        }
        assert(p.take(next.len() as int) == next);
        assert forall|i: int| 0 <= i < next.len() implies p[i] == next[i] by {
            assert(p.take(next.len() as int)[i] == p[i]);
        }
        assert(p.take(here.len() as int) =~= here);
        assert(p.subrange(s, next.len() as int) =~= dir[k]);
    }
}

/// The components of a written-out directory, from the one after the first `k` on.
proof fn lemma_ranges_from_render(dir: Seq<Seq<u8>>, k: int)
    requires
        0 <= k <= dir.len(),
        is_clean(true, dir, 0),
    ensures
        ranges_from(render(true, dir), render(true, dir.take(k)).len() as int) == Seq::new(
            (dir.len() - k) as nat,
            |i: int| (element_start(true, dir, k + i), render(true, dir.take(k + i + 1)).len() as int),
        ),
    decreases dir.len() - k,
{
    let p = render(true, dir);
    let at = render(true, dir.take(k)).len() as int;
    let goal = Seq::new(
        (dir.len() - k) as nat,
        |i: int| (element_start(true, dir, k + i), render(true, dir.take(k + i + 1)).len() as int),
    );
    lemma_render_prefix(true, dir, k);
    if k == dir.len() {
        assert(dir.take(k) =~= dir);
        assert(ranges_from(p, at) =~= goal);
    } else {
        let s = element_start(true, dir, k);
        let e = s + dir[k].len();
        assert(is_plain(dir[k]));
        lemma_render_prefix(true, dir, k + 1);
        lemma_ranges_from_render(dir, k + 1);
        assert forall|i: int| s <= i < e implies p[i] != SEP by {
            assert(p.subrange(s, e)[i - s] == dir[k][i - s]);
            assert(dir[k].contains(dir[k][i - s]));
        }
        if k + 1 == dir.len() {
            assert(dir.take(k + 1) =~= dir);
        }
        lemma_piece_len(p, s, e - s);
        assert(p.subrange(s, e)[0] == p[s]);
        if e - s == 1 && p[s] == DOT {
            assert(dir[k] =~= seq![DOT]);
        }
        assert(counts(p, s));
        assert(ranges_from(p, s) =~= seq![(s, e)] + ranges_from(p, e));
        assert(ranges_from(p, at) =~= goal);
    }
}

/// The components of a written-out rooted directory: the root and its elements.
pub proof fn lemma_ranges_render(dir: Seq<Seq<u8>>)
    requires
        is_clean(true, dir, 0),
    ensures
        ranges(render(true, dir)).len() == dir.len() + 1,
        ranges(render(true, dir))[0] == (0int, 1int),
        forall|i: int| #![trigger ranges(render(true, dir))[i]]
            1 <= i <= dir.len() ==> ranges(render(true, dir))[i] == (
                element_start(true, dir, i - 1),
                render(true, dir.take(i)).len() as int,
            ),
{
    assert(dir.take(0) =~= Seq::empty());
    assert(render(true, dir.take(0)) =~= seq![SEP]);
    lemma_ranges_from_render(dir, 0);
}

/// The parent and the file name of a written-out rooted directory: all elements but the last,
/// and the last.
pub proof fn lemma_parent_render(dir: Seq<Seq<u8>>)
    requires
        is_clean(true, dir, 0),
    ensures
        dir.len() == 0 ==> parent_of(render(true, dir)) is None && file_name_of(render(true, dir)) is None,
        dir.len() > 0 ==> {
            &&& parent_of(render(true, dir)) == Some(render(true, dir.drop_last()))
            &&& file_name_of(render(true, dir)) == Some(dir.last())
        },
{
    let p = render(true, dir);
    let n = dir.len() as int;
    lemma_ranges_render(dir);
    if n > 0 {
        lemma_render_prefix(true, dir, n - 1);
        assert(dir.take(n) =~= dir);
        assert(dir.take(n - 1) =~= dir.drop_last());
        assert(is_plain(dir[n - 1]));
        let rs = ranges(p);
        assert(rs[n] == (element_start(true, dir, n - 1), p.len() as int));
        assert(component(p, n) == dir.last());
        if n > 1 {
            assert(rs[n - 1] == (element_start(true, dir, n - 2), render(true, dir.take(n - 1)).len() as int));
        } else {
            assert(dir.take(0) =~= Seq::empty());
            assert(render(true, dir.take(0)) =~= seq![SEP]);
            assert(p.take(1) =~= seq![SEP]);
        }
    }
}

/// A rooted path has a parent and a file name unless it comes down to the root directory.
pub proof fn lemma_normalized_parent(p: Seq<u8>)
    requires
        is_rooted(p),
    ensures
        is_clean(true, resolved(p), 0),
        normalized(p) == render(true, resolved(p)),
        normalized(p) == seq![SEP] <==> resolved(p).len() == 0,
        file_name_of(normalized(p)) is Some <==> normalized(p) != seq![SEP],
        parent_of(normalized(p)) is Some <==> normalized(p) != seq![SEP],
{
    let dir = resolved(p);
    let ups = law_normalized_is_clean(p);
    assert(is_clean(true, dir, 0));
    lemma_parent_render(dir);
    lemma_clean_names(true, dir, 0);
    lemma_join_empty(dir);
    assert(render(true, dir).len() == 1 + join(dir, SEP).len());
    if dir.len() == 0 {
        assert(render(true, dir) =~= seq![SEP]);
    }
}

/// Any number of separators counts as one, wherever it stands, and one at the end counts for nothing.
pub proof fn law_separators_count_once(a: Seq<u8>, b: Seq<u8>)
    ensures
        normalized(a.push(SEP).push(SEP) + b) == normalized(a.push(SEP) + b),
        a.len() > 0 ==> normalized(a.push(SEP)) == normalized(a),
{
    let empty = Seq::<u8>::empty();
    lemma_filter_one(empty);
    assert(split(empty, SEP) =~= seq![empty]);
    assert(names(empty) =~= seq![]);
    lemma_names_around(a.push(SEP), b);
    lemma_names_around(a, empty);
    lemma_names_around(a, b);
    assert(a.push(SEP) + empty =~= a.push(SEP));
    assert(names(a) + names(empty) =~= names(a));
    assert(is_rooted(a.push(SEP).push(SEP) + b) == is_rooted(a.push(SEP) + b));
}

/// The element `.` counts for nothing.
pub proof fn law_dot_counts_for_nothing(a: Seq<u8>, b: Seq<u8>)
    requires
        !is_rooted(b),
    ensures
        normalized(pushed(pushed(a, seq![DOT]), b)) == normalized(pushed(a, b)),
{
    let dot = seq![DOT];
    assert(!dot.contains(SEP));
    lemma_split_single(dot, SEP);
    lemma_filter_one(dot);
    assert(names(dot) =~= seq![]);
    lemma_names_pushed(a, dot);
    lemma_names_pushed(pushed(a, dot), b);
    lemma_names_pushed(a, b);
    assert(names(a) + names(dot) + names(b) =~= names(a) + names(b));
}

/// An ordinary name with `..` behind it counts for nothing, whatever stands before and after.
pub proof fn law_parent_takes_name_away(a: Seq<u8>, x: Seq<u8>, b: Seq<u8>)
    requires
        x.len() > 0,
        x != seq![DOT],
        x != seq![DOT, DOT],
        forall|i: int| 0 <= i < x.len() ==> x[i] != SEP,
        !is_rooted(b),
    ensures
        normalized(pushed(pushed(pushed(a, x), seq![DOT, DOT]), b)) == normalized(pushed(a, b)),
{
    let up = seq![DOT, DOT];
    let rooted = is_rooted(a);
    assert(!up.contains(SEP));
    assert(!x.contains(SEP));
    lemma_split_single(x, SEP);
    lemma_split_single(up, SEP);
    lemma_filter_one(x);
    lemma_filter_one(up);
    assert(up.len() == 2);
    assert(names(x) =~= seq![x]);
    assert(names(up) =~= seq![up]);
    lemma_names_pushed(a, x);
    lemma_names_pushed(pushed(a, x), up);
    lemma_names_pushed(pushed(pushed(a, x), up), b);
    lemma_names_pushed(a, b);
    let d = resolve(rooted, seq![], names(a));
    lemma_resolve_add(rooted, seq![], names(a), names(b));
    lemma_resolve_add(rooted, seq![], names(a), seq![x]);
    lemma_resolve_add(rooted, seq![], names(a) + seq![x], seq![up]);
    lemma_resolve_add(rooted, seq![], names(a) + seq![x] + seq![up], names(b));
    lemma_resolve_first(rooted, d, x, seq![]);
    assert(seq![x] + seq![] =~= seq![x]);
    lemma_resolve_first(rooted, d.push(x), up, seq![]);
    assert(seq![up] + seq![] =~= seq![up]);
    assert(d.push(x).drop_last() =~= d);
}

/// The root directory is its own parent.
pub proof fn law_root_has_no_parent(b: Seq<u8>)
    requires
        !is_rooted(b),
    ensures
        normalized(pushed(pushed(seq![SEP], seq![DOT, DOT]), b)) == normalized(pushed(seq![SEP], b)),
{
    let root = seq![SEP];
    let up = seq![DOT, DOT];
    let empty = Seq::<u8>::empty();
    lemma_filter_one(empty);
    assert(split(empty, SEP) =~= seq![empty]);
    assert(names(empty) =~= seq![]);
    lemma_names_around(empty, empty);
    assert(empty.push(SEP) + empty =~= root);
    assert(names(root) =~= seq![]);
    assert(!up.contains(SEP));
    lemma_split_single(up, SEP);
    lemma_filter_one(up);
    assert(up.len() == 2);
    assert(names(up) =~= seq![up]);
    lemma_names_pushed(root, up);
    lemma_names_pushed(pushed(root, up), b);
    lemma_names_pushed(root, b);
    assert(names(root) + names(up) + names(b) =~= seq![up] + names(b));
    assert(names(root) + names(b) =~= names(b));
    lemma_resolve_first(true, seq![], up, names(b));
}

/// A path that is nothing but names, with one separator between each two, is its own normal form; so is one that goes up some number
/// of times first, if it is not rooted.
pub proof fn law_plain_paths_are_normal(rooted: bool, ups: int, es: Seq<Seq<u8>>)
    requires
        es.len() > 0,
        0 <= ups <= es.len(),
        rooted ==> ups == 0,
        forall|i: int| 0 <= i < ups ==> #[trigger] es[i] == seq![DOT, DOT],
        forall|i: int| ups <= i < es.len() ==> is_ordinary(#[trigger] es[i]),
    ensures
        ({
            let p = if rooted {
                seq![SEP] + join(es, SEP)
            } else {
                join(es, SEP)
            };
            normalized(p) == p
        }),
{
    assert forall|i: int| ups <= i < es.len() implies is_plain(#[trigger] es[i]) by {
        assert(is_ordinary(es[i]));
    }
    assert(is_clean(rooted, es, ups)) by {
        assert forall|i: int| 0 <= i < ups implies es[i] == parent_element() by {
            assert(es[i] == seq![DOT, DOT]);
        }
    }
    lemma_clean_names(rooted, es, ups);
    lemma_names_render(rooted, es);
    lemma_resolve_stays(rooted, es, ups, 0);
    assert(es.take(0) =~= seq![]);
    assert(es.skip(0) =~= es);
    lemma_join_starts(es);
    assert(render(false, es) =~= join(es, SEP));
}

/// Whether an element is an ordinary name: not empty, not `.` or `..`, and without a separator.
pub open spec fn is_ordinary(x: Seq<u8>) -> bool {
    &&& x.len() > 0
    &&& x != seq![DOT]
    &&& x != seq![DOT, DOT]
    &&& forall|i: int| 0 <= i < x.len() ==> x[i] != SEP
}

/// Pushing an absolute path gives that path. Pushing any other puts it behind the base, with just one separator between if the base
/// does not end in one and is not empty.
pub proof fn law_pushed(base: Seq<u8>, path: Seq<u8>)
    ensures
        path.len() > 0 && path[0] == SEP ==> pushed(base, path) == path,
        !(path.len() > 0 && path[0] == SEP) ==> {
            &&& base.len() == 0 ==> pushed(base, path) == path
            &&& base.len() > 0 && base[base.len() - 1] == SEP ==> pushed(base, path) == base + path
            &&& base.len() > 0 && base[base.len() - 1] != SEP ==> pushed(base, path) == base + seq![SEP] + path
        },
{
    assert(base + path =~= if base.len() == 0 { path } else { base + path });
    assert(base.push(SEP) + path =~= base + seq![SEP] + path);
}

} // verus!
