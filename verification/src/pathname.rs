//! The parts of a path, as Unix reads them: root, elements, parent and file name.

use vstd::prelude::*;
use crate::text::{append_bytes, copy_bytes, DOT, SEP};

verus! {

/// Whether a path begins with a separator.
pub open spec fn is_rooted(p: Seq<u8>) -> bool {
    p.len() > 0 && p[0] == SEP
}

/// What pushing `path` onto `base` gives: an absolute path replaces the base,
/// any other is put behind it, with a separator between where one is needed.
pub open spec fn pushed(base: Seq<u8>, path: Seq<u8>) -> Seq<u8> {
    if is_rooted(path) {
        path
    } else if base.len() > 0 && base.last() != SEP {
        base.push(SEP) + path
    } else {
        base + path
    }
}

/// Whether the path begins at the root directory.
pub fn is_absolute(path: &[u8]) -> (r: bool)
    ensures
        r == is_rooted(path@),
{
    path.len() > 0 && path[0] == SEP
}

/// `base` with `path` pushed onto it.
pub fn join_path(base: &[u8], path: &[u8]) -> (r: Vec<u8>)
    ensures
        r@ == pushed(base@, path@),
{
    if is_absolute(path) {
        return copy_bytes(path);
    }
    let mut v = copy_bytes(base);
    if base.len() > 0 && base[base.len() - 1] != SEP {
        v.push(SEP);
    }
    append_bytes(&mut v, path);
    v
}

/// The length of the piece of `p` that starts at `at`: up to the next separator or the end.
pub fn element_len(p: &[u8], at: usize) -> (n: usize)
    requires
        at <= p.len(),
    ensures
        at + n <= p.len(),
        forall|i: int| at <= i < at + n ==> p@[i] != SEP,
        at + n < p.len() ==> p@[at + n] == SEP,
{
    let mut n: usize = 0;
    while at + n < p.len() && p[at + n] != SEP
        invariant
            at + n <= p.len(),
            forall|i: int| at <= i < at + n ==> p@[i] != SEP,
        decreases p.len() - at - n,
    {
        n = n + 1;
    }
    n
}

/// How many bytes of `p` follow from `at` on before the next separator or the end.
pub open spec fn piece_len(p: Seq<u8>, at: int) -> int
    decreases p.len() - at,
{
    if at < 0 || at >= p.len() || p[at] == SEP {
        0
    } else {
        1 + piece_len(p, at + 1)
    }
}

/// Whether the piece of `p` at `at` counts as a component: `.` does so only
/// at the very beginning of a path.
pub open spec fn counts(p: Seq<u8>, at: int) -> bool {
    at == 0 || piece_len(p, at) != 1 || p[at] != DOT
}

/// Where the components of `p` from `at` on start and end.
pub open spec fn ranges_from(p: Seq<u8>, at: int) -> Seq<(int, int)>
    decreases p.len() - at,
{
    if at < 0 || at >= p.len() {
        seq![]
    } else if p[at] == SEP {
        ranges_from(p, at + 1)
    } else {
        let end = at + piece_len(p, at);
        let rest = if end <= at || end > p.len() {
            seq![]
        } else {
            ranges_from(p, end)
        };
        if counts(p, at) {
            seq![(at, end)] + rest
        } else {
            rest
        }
    }
}

/// Where the components of `p` start and end, the root directory first if `p` is rooted.
pub open spec fn ranges(p: Seq<u8>) -> Seq<(int, int)> {
    if is_rooted(p) {
        seq![(0, 1)] + ranges_from(p, 1)
    } else {
        ranges_from(p, 0)
    }
}

/// Positions as mathematical integers.
pub open spec fn range_ints(r: Seq<(usize, usize)>) -> Seq<(int, int)> {
    r.map_values(|x: (usize, usize)| (x.0 as int, x.1 as int))
}

pub proof fn lemma_piece_len(p: Seq<u8>, at: int, n: int)
    requires
        0 <= at <= at + n <= p.len(),
        forall|i: int| at <= i < at + n ==> p[i] != SEP,
        at + n < p.len() ==> p[at + n] == SEP,
    ensures
        piece_len(p, at) == n,
    decreases n,
{
    if n > 0 {
        lemma_piece_len(p, at + 1, n - 1);
    }
}

pub proof fn lemma_piece_bounds(p: Seq<u8>, at: int)
    requires
        0 <= at <= p.len(),
    ensures
        0 <= piece_len(p, at) <= p.len() - at,
        forall|i: int| at <= i < at + piece_len(p, at) ==> p[i] != SEP,
        at + piece_len(p, at) < p.len() ==> p[at + piece_len(p, at)] == SEP,
    decreases p.len() - at,
{
    if at < p.len() && p[at] != SEP {
        lemma_piece_bounds(p, at + 1);
    }
}

/// Whether the given ranges are not empty, lie between `lo` and `hi`, and are one behind
/// the other with something between.
pub open spec fn apart(rs: Seq<(int, int)>, lo: int, hi: int) -> bool {
    &&& forall|i: int| 0 <= i < rs.len() ==> lo <= (#[trigger] rs[i]).0 < rs[i].1 <= hi
    &&& forall|i: int, j: int| 0 <= i < j < rs.len() ==> (#[trigger] rs[i]).1 < (#[trigger] rs[j]).0
}

proof fn lemma_ranges_from(p: Seq<u8>, at: int)
    requires
        0 <= at,
    ensures
        apart(ranges_from(p, at), at, p.len() as int),
        at < p.len() && p[at] == SEP ==> apart(ranges_from(p, at), at + 1, p.len() as int),
    decreases p.len() - at,
{
    let rs = ranges_from(p, at);
    if at < p.len() {
        if p[at] == SEP {
            lemma_ranges_from(p, at + 1);
        } else {
            lemma_piece_bounds(p, at);
            let end = at + piece_len(p, at);
            lemma_ranges_from(p, end);
            let rest = ranges_from(p, end);
            if counts(p, at) {
                assert(rs =~= seq![(at, end)] + rest);
                assert forall|i: int| 0 <= i < rs.len() implies at <= (#[trigger] rs[i]).0 < rs[i].1
                    <= p.len() by {
                    if i > 0 {
                        assert(rs[i] == rest[i - 1]);
                    }
                }
                assert forall|i: int, j: int| 0 <= i < j < rs.len() implies (#[trigger] rs[i]).1 < (
                #[trigger] rs[j]).0 by {
                    assert(rs[j] == rest[j - 1]);
                    if i > 0 {
                        assert(rs[i] == rest[i - 1]);
                    }
                }
            }
        }
    }
}

/// The components of a path lie in it one behind the other, none of them empty,
/// and there is a separator between any two but the root and the first name.
pub proof fn lemma_ranges(p: Seq<u8>)
    ensures
        forall|i: int|
            0 <= i < ranges(p).len() ==> 0 <= (#[trigger] ranges(p)[i]).0 < ranges(p)[i].1 <= p.len(),
        forall|i: int, j: int|
            0 <= i < j < ranges(p).len() ==> (#[trigger] ranges(p)[i]).1 <= (#[trigger] ranges(p)[j]).0,
        is_rooted(p) ==> ranges(p).len() > 0 && ranges(p)[0] == (0int, 1int),
        p.len() > 0 ==> ranges(p).len() > 0 && ranges(p)[0].0 == 0,
{
    let rs = ranges(p);
    lemma_piece_bounds(p, 0);
    if is_rooted(p) {
        lemma_ranges_from(p, 1);
        let rest = ranges_from(p, 1);
        assert forall|i: int| 0 <= i < rs.len() implies 0 <= (#[trigger] rs[i]).0 < rs[i].1 <= p.len() by {
            if i > 0 {
                assert(rs[i] == rest[i - 1]);
            }
        }
        assert forall|i: int, j: int| 0 <= i < j < rs.len() implies (#[trigger] rs[i]).1 <= (
        #[trigger] rs[j]).0 by {
            assert(rs[j] == rest[j - 1]);
            if i > 0 {
                assert(rs[i] == rest[i - 1]);
            }
        }
    } else {
        lemma_ranges_from(p, 0);
    }
}

/// The components of `p`: where each starts and ends. The root directory of a rooted path
/// is the first; `.` counts only at the very beginning of a relative path.
pub fn components(p: &[u8]) -> (r: Vec<(usize, usize)>)
    ensures
        range_ints(r@) == ranges(p@),
{
    let mut out: Vec<(usize, usize)> = Vec::new();
    let mut at: usize = 0;
    let ghost goal = ranges(p@);
    if is_absolute(p) {
        out.push((0, 1));
        at = 1;
        assert(range_ints(out@) =~= seq![(0int, 1int)]);
    } else {
        assert(range_ints(out@) =~= seq![]);
    }
    assert(range_ints(out@) + ranges_from(p@, at as int) =~= goal);
    while at < p.len()
        invariant
            at <= p.len(),
            range_ints(out@) + ranges_from(p@, at as int) == goal,
        decreases p.len() - at,
    {
        if p[at] == SEP {
            at = at + 1;
        } else {
            let n: usize = element_len(p, at);
            proof {
                lemma_piece_len(p@, at as int, n as int);
            }
            let ghost before = out@;
            let end: usize = at + n;
            if at == 0 || n != 1 || p[at] != DOT {
                out.push((at, end));
                assert(range_ints(out@) =~= range_ints(before).push((at as int, end as int)));
            }
            assert(range_ints(out@) + ranges_from(p@, end as int) =~= goal);
            at = end;
        }
    }
    assert(ranges_from(p@, at as int) =~= seq![]);
    assert(range_ints(out@) =~= goal);
    out
}

/// The component of `p` at the given place.
pub open spec fn component(p: Seq<u8>, i: int) -> Seq<u8> {
    p.subrange(ranges(p)[i].0, ranges(p)[i].1)
}

/// The path without its final component. The root directory has none, nor has an empty path.
pub open spec fn parent_of(p: Seq<u8>) -> Option<Seq<u8>> {
    let rs = ranges(p);
    if rs.len() == 0 || (is_rooted(p) && rs.len() == 1) {
        None
    } else if rs.len() == 1 {
        Some(seq![])
    } else {
        Some(p.take(rs[rs.len() - 2].1))
    }
}

/// The final component of a path, if it is an ordinary name.
pub open spec fn file_name_of(p: Seq<u8>) -> Option<Seq<u8>> {
    let n = ranges(p).len();
    if n == 0 || (is_rooted(p) && n == 1) {
        None
    } else {
        let e = component(p, n - 1);
        if e == seq![DOT] || e == seq![DOT, DOT] {
            None
        } else {
            Some(e)
        }
    }
}

/// The path without its final component.
pub fn parent(p: &[u8]) -> (r: Option<&[u8]>)
    ensures
        (match r {
            Some(d) => Some(d@),
            None => None,
        }) == parent_of(p@),
{
    let rs = components(p);
    proof {
        lemma_ranges(p@);
        assert(range_ints(rs@).len() == rs@.len());
    }
    if rs.len() == 0 || (is_absolute(p) && rs.len() == 1) {
        None
    } else if rs.len() == 1 {
        let d = vstd::slice::slice_subrange(p, 0, 0);
        assert(d@ =~= seq![]);
        Some(d)
    } else {
        let k: usize = rs.len() - 2;
        assert(range_ints(rs@)[k as int] == (rs@[k as int].0 as int, rs@[k as int].1 as int));
        Some(vstd::slice::slice_subrange(p, 0, rs[k].1))
    }
}

/// The final component of a path, if it is an ordinary name.
pub fn file_name(p: &[u8]) -> (r: Option<&[u8]>)
    ensures
        (match r {
            Some(d) => Some(d@),
            None => None,
        }) == file_name_of(p@),
{
    let rs = components(p);
    proof {
        lemma_ranges(p@);
        assert(range_ints(rs@).len() == rs@.len());
    }
    if rs.len() == 0 || (is_absolute(p) && rs.len() == 1) {
        None
    } else {
        let k: usize = rs.len() - 1;
        assert(range_ints(rs@)[k as int] == (rs@[k as int].0 as int, rs@[k as int].1 as int));
        let e = vstd::slice::slice_subrange(p, rs[k].0, rs[k].1);
        proof {
            if e@.len() == 1 && e@[0] == DOT {
                assert(e@ =~= seq![DOT]);
            }
            if e@.len() == 2 && e@[0] == DOT && e@[1] == DOT {
                assert(e@ =~= seq![DOT, DOT]);
            }
            assert(e@ == seq![DOT] ==> e@.len() == 1 && e@[0] == DOT);
            assert(e@ == seq![DOT, DOT] ==> e@.len() == 2 && e@[0] == DOT && e@[1] == DOT);
        }
        if (e.len() == 1 && e[0] == DOT) || (e.len() == 2 && e[0] == DOT && e[1] == DOT) {
            None
        } else {
            Some(e)
        }
    }
}

proof fn lemma_same_piece(dir: Seq<u8>, name: Seq<u8>, at: int)
    requires
        0 <= at <= dir.len(),
    ensures
        piece_len(dir + seq![SEP] + name, at) == piece_len(dir, at),
        0 <= piece_len(dir, at) <= dir.len() - at,
        at < dir.len() && dir[at] != SEP ==> piece_len(dir, at) > 0,
    decreases dir.len() - at,
{
    let p = dir + seq![SEP] + name;
    if at < dir.len() {
        assert(p[at] == dir[at]);
        if dir[at] != SEP {
            lemma_same_piece(dir, name, at + 1);
        }
    } else {
        assert(p[at] == SEP);
    }
}

/// The components of a path are those of its directory, and its name.
pub proof fn lemma_ranges_in_dir(dir: Seq<u8>, name: Seq<u8>, at: int)
    requires
        0 <= at <= dir.len(),
        name.len() > 0,
        forall|i: int| 0 <= i < name.len() ==> name[i] != SEP,
        name.len() == 1 ==> name[0] != DOT,
    ensures
        ranges_from(dir + seq![SEP] + name, at) == ranges_from(dir, at).push(
            (dir.len() as int + 1, dir.len() as int + 1 + name.len()),
        ),
    decreases dir.len() - at,
{
    let p = dir + seq![SEP] + name;
    let n = dir.len() as int;
    lemma_same_piece(dir, name, at);
    if at == n {
        assert(p[n] == SEP);
        assert forall|i: int| n + 1 <= i < n + 1 + name.len() implies p[i] != SEP by {
            assert(p[i] == name[i - n - 1]);
        }
        lemma_piece_len(p, n + 1, name.len() as int);
        assert(p[n + 1] == name[0]);
        assert(ranges_from(p, p.len() as int) =~= seq![]);
        assert(ranges_from(p, n + 1) =~= seq![(n + 1, n + 1 + name.len())]);
        assert(ranges_from(dir, n) =~= seq![]);
    } else {
        assert(p[at] == dir[at]);
        if dir[at] == SEP {
            lemma_ranges_in_dir(dir, name, at + 1);
        } else {
            let end = at + piece_len(dir, at);
            lemma_ranges_in_dir(dir, name, end);
            assert(counts(p, at) == counts(dir, at));
            assert(ranges_from(p, at) =~= ranges_from(dir, at).push((n + 1, n + 1 + name.len())));
        }
    }
}

/// The last component of a path that ends in no separator ends with it.
pub proof fn lemma_last_range(dir: Seq<u8>, at: int)
    requires
        0 <= at < dir.len(),
        dir.last() != SEP,
        dir.last() != DOT,
    ensures
        ranges_from(dir, at).len() > 0,
        ranges_from(dir, at).last().1 == dir.len(),
    decreases dir.len() - at,
{
    lemma_same_piece(dir, seq![], at);
    if dir[at] == SEP {
        lemma_last_range(dir, at + 1);
    } else {
        let end = at + piece_len(dir, at);
        if end < dir.len() {
            lemma_last_range(dir, end);
        } else {
            assert(ranges_from(dir, end) =~= seq![]);
        }
    }
}

/// What stands behind the last separator of a path is its final component, and what stands before it is the path without that. A
/// path without a separator is its own final component. The root directory has none, nor has an empty path.
pub proof fn law_parent_and_name(dir: Seq<u8>, name: Seq<u8>)
    requires
        name.len() > 0,
        forall|i: int| 0 <= i < name.len() ==> name[i] != SEP,
        name != seq![DOT],
        name != seq![DOT, DOT],
        dir.len() > 0 ==> dir.last() != SEP && dir.last() != DOT,
    ensures
        parent_of(name) == Some(Seq::<u8>::empty()),
        file_name_of(name) == Some(name),
        parent_of(seq![SEP] + name) == Some(seq![SEP]),
        file_name_of(seq![SEP] + name) == Some(name),
        dir.len() > 0 ==> parent_of(dir + seq![SEP] + name) == Some(dir),
        dir.len() > 0 ==> file_name_of(dir + seq![SEP] + name) == Some(name),
        parent_of(seq![]) is None,
        file_name_of(seq![]) is None,
        parent_of(seq![SEP]) is None,
        file_name_of(seq![SEP]) is None,
{
    let none = Seq::<u8>::empty();
    if name.len() == 1 && name[0] == DOT {
        assert(name =~= seq![DOT]);
    }
    // A name alone.
    lemma_piece_len(name, 0, name.len() as int);
    assert(ranges_from(name, name.len() as int) =~= seq![]);
    assert(ranges_from(name, 0) =~= seq![(0, name.len() as int)]);
    assert(component(name, 0) =~= name);
    // A name in the root directory.
    let r = seq![SEP] + name;
    lemma_ranges_in_dir(none, name, 0);
    assert(none + seq![SEP] + name =~= r);
    assert(ranges_from(none, 0) =~= seq![]);
    assert(r[0] == SEP);
    assert(ranges_from(r, 1) =~= seq![(1, 1 + name.len() as int)]);
    assert(ranges(r) =~= seq![(0, 1), (1, 1 + name.len() as int)]);
    assert(r.take(1) =~= seq![SEP]);
    assert(component(r, 1) =~= name);
    // A name in a directory.
    if dir.len() > 0 {
        let p = dir + seq![SEP] + name;
        let from: int = if is_rooted(dir) {
            1
        } else {
            0
        };
        assert(p[0] == dir[0]);
        lemma_ranges_in_dir(dir, name, from);
        lemma_last_range(dir, from);
        let rs = ranges(p);
        let inner = ranges_from(dir, from);
        assert(rs[rs.len() - 1] == (dir.len() as int + 1, dir.len() as int + 1 + name.len()));
        assert(rs[rs.len() - 2] == inner.last());
        assert(p.take(dir.len() as int) =~= dir);
        assert(component(p, rs.len() - 1) =~= name);
    }
    // Nothing, and the root directory.
    assert(ranges(none) =~= seq![]);
    assert(ranges_from(seq![SEP], 1) =~= seq![]);
    assert(ranges(seq![SEP]).len() == 1);
}

} // verus!
