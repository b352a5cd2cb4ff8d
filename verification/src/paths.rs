//! Which `.do` files can build a target.

use vstd::prelude::*;
use vstd::string::*;
use crate::db::{
    law_largest_id, lemma_replay_concat, max_id, replay, Db, DepMode, DepRow, FileRowView, WriteView,
};
use crate::env::Env;
use crate::error::{ErrorView, RedoError};
use crate::helpers::{
    abs_path, absolute, element_start, is_clean, is_plain, law_normalized_idempotent,
    law_normalized_keeps_meaning, lemma_normalized_parent, lemma_parent_render, lemma_ranges_render,
    lemma_render_prefix, normalized, normpath, render, resolved,
};
use crate::pathname::{
    components, file_name, file_name_of, is_absolute, is_rooted, join_path, lemma_last_range,
    lemma_piece_len, lemma_ranges, lemma_ranges_in_dir, parent, parent_of, pushed, range_ints, ranges,
    ranges_from,
};
use crate::relpath::Places;
use crate::redopath::is_redo_path;
use crate::state::{added_dep, db_name, has_name, law_dependency_is_added, File, ProcessTransaction};
use crate::text::{append_bytes, copy_bytes, DOT, SEP};

verus! {

/// One of the `default*.do` names for a file name: the name of the `.do` file, the file name
/// without the extension that matched, and that extension.
pub struct DefaultView {
    pub do_file: Seq<u8>,
    pub base: Seq<u8>,
    pub ext: Seq<u8>,
}

/// The name for the extension that starts at `at`.
pub open spec fn default_at(filename: Seq<u8>, at: int) -> DefaultView {
    DefaultView {
        do_file: "default".spec_bytes() + filename.skip(at) + ".do".spec_bytes(),
        base: filename.take(at),
        ext: filename.skip(at),
    }
}

/// The names for the extensions that start at `at` or later, longest extension first,
/// and last the one for no extension at all.
pub open spec fn defaults_from(filename: Seq<u8>, at: int) -> Seq<DefaultView>
    decreases filename.len() - at,
{
    if at >= filename.len() {
        seq![default_at(filename, filename.len() as int)]
    } else if filename[at] == DOT {
        seq![default_at(filename, at)] + defaults_from(filename, at + 1)
    } else {
        defaults_from(filename, at + 1)
    }
}

/// An iterator over the default.do patterns for a given file name.
#[derive(Clone, Debug)]
pub struct DefaultDoFiles<'a> {
    filename: &'a [u8],
    next: Option<usize>,
}

/// The bytes of `default{ext}.do`.
fn default_name(ext: &[u8]) -> (r: Vec<u8>)
    ensures
        r@ == "default".spec_bytes() + ext@ + ".do".spec_bytes(),
{
    let mut name = copy_bytes("default".as_bytes());
    append_bytes(&mut name, ext);
    append_bytes(&mut name, ".do".as_bytes());
    name
}

impl<'a> DefaultDoFiles<'a> {
    /// What is still to come.
    pub closed spec fn remaining(&self) -> Seq<DefaultView> {
        match self.next {
            None => seq![],
            Some(at) => defaults_from(self.filename@, at as int),
        }
    }

    /// The file name that the patterns are for.
    pub closed spec fn name(&self) -> Seq<u8> {
        self.filename@
    }

    pub closed spec fn wf(&self) -> bool {
        self.next matches Some(at) ==> at <= self.filename@.len()
    }

    /// All patterns for the given file name.
    pub fn from(filename: &'a [u8]) -> (r: DefaultDoFiles<'a>)
        ensures
            r.wf(),
            r.name() == filename@,
            r.remaining() == defaults_from(filename@, 0),
    {
        DefaultDoFiles { filename, next: Some(0) }
    }

    /// The next pattern: the name of the `.do` file, the file name without the extension, and
    /// the extension.
    pub fn next(&mut self) -> (r: Option<(Vec<u8>, &'a [u8], &'a [u8])>)
        requires
            old(self).wf(),
        ensures
            final(self).wf(),
            final(self).name() == old(self).name(),
            match r {
                None => old(self).remaining().len() == 0 && final(self).remaining().len() == 0,
                Some((do_file, base, ext)) => {
                    &&& old(self).remaining().len() > 0
                    &&& old(self).remaining()[0] == (DefaultView { do_file: do_file@, base: base@, ext: ext@ })
                    &&& final(self).remaining() == old(self).remaining().skip(1)
                },
            },
    {
        let filename = self.filename;
        let start: usize = match self.next {
            None => return None,
            Some(at) => at,
        };
        let mut at: usize = start;
        let ghost rest = self.remaining();
        while at < filename.len() && filename[at] != DOT
            invariant
                at <= filename.len(),
                rest == defaults_from(filename@, at as int),
            decreases filename.len() - at,
        {
            at = at + 1;
        }
        let base = vstd::slice::slice_subrange(filename, 0, at);
        let ext = vstd::slice::slice_subrange(filename, at, filename.len());
        assert(ext@ =~= filename@.skip(at as int));
        self.next = if at < filename.len() {
            Some(at + 1)
        } else {
            // Last iteration: default.do itself.
            None
        };
        assert(rest.skip(1) =~= self.remaining());
        Some((default_name(ext), base, ext))
    }
}

/// The ways to cut the path `p` in two: a directory that it lies in, itself first and the
/// root or the current directory last, and the rest of it from there.
pub open spec fn splits(p: Seq<u8>) -> Seq<(Seq<u8>, Seq<u8>)> {
    let rs = ranges(p);
    let m = rs.len() as int;
    Seq::new(
        if is_rooted(p) {
            rs.len()
        } else {
            rs.len() + 1
        },
        |j: int|
            if j == 0 {
                (p, Seq::<u8>::empty())
            } else if j < m {
                (p.take(rs[m - j - 1].1), p.subrange(rs[m - j].0, rs[m - 1].1))
            } else {
                (Seq::<u8>::empty(), p.subrange(rs[0].0, rs[m - 1].1))
            },
    )
}

/// The contents of pairs of slices.
pub open spec fn pair_views(v: Seq<(&[u8], &[u8])>) -> Seq<(Seq<u8>, Seq<u8>)> {
    v.map_values(|x: (&[u8], &[u8])| (x.0@, x.1@))
}

/// The ways to cut a path in two, from the whole path down to its first component.
pub fn path_splits<'a>(p: &'a [u8]) -> (r: Vec<(&'a [u8], &'a [u8])>)
    ensures
        pair_views(r@) == splits(p@),
{
    let rs = components(p);
    let m: usize = rs.len();
    proof {
        lemma_ranges(p@);
        assert(range_ints(rs@).len() == m);
        assert forall|i: int| 0 <= i < m implies #[trigger] ranges(p@)[i] == (
            rs@[i].0 as int,
            rs@[i].1 as int,
        ) by {
            assert(range_ints(rs@)[i] == (rs@[i].0 as int, rs@[i].1 as int));
        }
    }
    let mut out: Vec<(&'a [u8], &'a [u8])> = Vec::new();
    let empty = vstd::slice::slice_subrange(p, 0, 0);
    assert(empty@ =~= Seq::<u8>::empty());
    let rooted = is_absolute(p);
    if m == 0 {
        out.push((p, empty));
        assert(p@.len() == 0);
        assert(pair_views(out@) =~= splits(p@));
        return out;
    }
    out.push((p, empty));
    let mut j: usize = 1;
    while j < m
        invariant
            1 <= j <= m,
            m == rs.len(),
            m == ranges(p@).len(),
            out.len() == j,
            forall|i: int| 0 <= i < m ==> #[trigger] ranges(p@)[i] == (rs@[i].0 as int, rs@[i].1 as int),
            forall|i: int|
                0 <= i < ranges(p@).len() ==> 0 <= (#[trigger] ranges(p@)[i]).0 < ranges(p@)[i].1 <= p@.len(),
            forall|i: int, k: int|
                0 <= i < k < ranges(p@).len() ==> (#[trigger] ranges(p@)[i]).1 <= (#[trigger] ranges(p@)[k]).0,
            forall|i: int|
                0 <= i < j ==> (#[trigger] out@[i]).0@ == splits(p@)[i].0 && out@[i].1@ == splits(p@)[i].1,
        decreases m - j,
    {
        let ghost r1 = ranges(p@)[m - j - 1];
        let ghost r2 = ranges(p@)[m - j];
        let ghost r3 = ranges(p@)[m - 1];
        let base = vstd::slice::slice_subrange(p, 0, rs[m - j - 1].1);
        let sub = vstd::slice::slice_subrange(p, rs[m - j].0, rs[m - 1].1);
        out.push((base, sub));
        j = j + 1;
    }
    if !rooted {
        let ghost r0 = ranges(p@)[0];
        let ghost r3 = ranges(p@)[m - 1];
        out.push((empty, vstd::slice::slice_subrange(p, rs[0].0, rs[m - 1].1)));
    }
    assert(pair_views(out@) =~= splits(p@));
    out
}

/// What a [`DoFile`] says.
pub struct DoFileView {
    pub do_dir: Seq<u8>,
    pub do_file: Seq<u8>,
    pub base_dir: Seq<u8>,
    pub base_name: Seq<u8>,
    pub ext: Seq<u8>,
}

/// Information about a single .do file.
#[derive(Clone, Debug, Eq, PartialEq)]
pub struct DoFile {
    /// Absolute path to the directory that the .do file is located in.
    pub do_dir: Vec<u8>,
    /// Name of the .do file.
    pub do_file: Vec<u8>,
    /// Path of the directory that the target file is located in,
    /// relative to the `do_dir`.
    pub base_dir: Vec<u8>,
    /// Path of the target file, relative to the `do_dir`, with `ext` stripped.
    pub base_name: Vec<u8>,
    /// Extension used for default.do matching
    /// (i.e. `ext = ".c"` implies `do_file = "default.c.do"`).
    pub ext: Vec<u8>,
}

impl View for DoFile {
    type V = DoFileView;

    open spec fn view(&self) -> DoFileView {
        DoFileView {
            do_dir: self.do_dir@,
            do_file: self.do_file@,
            base_dir: self.base_dir@,
            base_name: self.base_name@,
            ext: self.ext@,
        }
    }
}

impl DoFile {
    /// Returns the absolute path to the directory that the .do file is located in.
    pub fn do_dir(&self) -> (r: &[u8])
        ensures
            r@ == self@.do_dir,
    {
        self.do_dir.as_slice()
    }

    /// Returns the name of the .do file.
    pub fn do_file(&self) -> (r: &[u8])
        ensures
            r@ == self@.do_file,
    {
        self.do_file.as_slice()
    }
}

/// A `default*.do` file in the given directory, which the target lies in or below.
pub open spec fn default_in(bit: (Seq<u8>, Seq<u8>), d: DefaultView) -> DoFileView {
    DoFileView {
        do_dir: bit.0,
        do_file: d.do_file,
        base_dir: bit.1,
        base_name: pushed(bit.1, d.base),
        ext: d.ext,
    }
}

/// Some of the `default*.do` files in one directory.
pub open spec fn defaults_in(bit: (Seq<u8>, Seq<u8>), ds: Seq<DefaultView>) -> Seq<DoFileView> {
    ds.map_values(|d: DefaultView| default_in(bit, d))
}

/// All the `default*.do` files in the given directories, one directory after the other.
pub open spec fn defaults_in_all(bits: Seq<(Seq<u8>, Seq<u8>)>, filename: Seq<u8>) -> Seq<DoFileView>
    decreases bits.len(),
{
    if bits.len() == 0 {
        seq![]
    } else {
        defaults_in(bits[0], defaults_from(filename, 0)) + defaults_in_all(bits.skip(1), filename)
    }
}

/// The `.do` file that is named after the target itself.
pub open spec fn own_do_file(t: Seq<u8>) -> DoFileView {
    let filename = file_name_of(t).unwrap();
    DoFileView {
        do_dir: parent_of(t).unwrap(),
        do_file: filename + ".do".spec_bytes(),
        base_dir: seq![],
        base_name: filename,
        ext: seq![],
    }
}

/// All `.do` files that can build the normalized absolute path `t`, best one first.
pub open spec fn do_files_for(t: Seq<u8>) -> Seq<DoFileView> {
    seq![own_do_file(t)] + defaults_in_all(splits(parent_of(t).unwrap()), file_name_of(t).unwrap())
}

/// Iterator over the list of .do files needed to build a given path,
/// returned by [`possible_do_files`].
#[derive(Debug)]
pub struct PossibleDoFiles {
    state: DoFilesState,
}

#[derive(Debug)]
enum DoFilesState {
    First(Vec<u8>),
    Recursive(RecursiveDoFilesState),
    Stopped,
}

#[derive(Debug)]
struct RecursiveDoFilesState {
    filename: Vec<u8>,
    /// Stored in reverse order as stack.
    dir_bits: Vec<(Vec<u8>, Vec<u8>)>,
    /// Where the next extension is looked for.
    next_default: Option<usize>,
}

spec fn stack_views(v: Seq<(Vec<u8>, Vec<u8>)>) -> Seq<(Seq<u8>, Seq<u8>)> {
    Seq::new(v.len(), |i: int| (v[v.len() - 1 - i].0@, v[v.len() - 1 - i].1@))
}

impl RecursiveDoFilesState {
    spec fn wf(&self) -> bool {
        self.next_default matches Some(at) ==> at <= self.filename@.len()
    }

    spec fn defaults(&self) -> Seq<DefaultView> {
        match self.next_default {
            None => seq![],
            Some(at) => defaults_from(self.filename@, at as int),
        }
    }

    spec fn remaining(&self) -> Seq<DoFileView> {
        let bits = stack_views(self.dir_bits@);
        if bits.len() == 0 {
            seq![]
        } else {
            defaults_in(bits[0], self.defaults()) + defaults_in_all(bits.skip(1), self.filename@)
        }
    }

    fn from_path(norm_path: &[u8]) -> (r: RecursiveDoFilesState)
        requires
            parent_of(norm_path@) is Some,
            file_name_of(norm_path@) is Some,
        ensures
            r.wf(),
            r.remaining() == defaults_in_all(
                splits(parent_of(norm_path@).unwrap()),
                file_name_of(norm_path@).unwrap(),
            ),
    {
        let dirname = parent(norm_path).unwrap();
        let filename = file_name(norm_path).unwrap();
        let bits = path_splits(dirname);
        let n: usize = bits.len();
        let mut dir_bits: Vec<(Vec<u8>, Vec<u8>)> = Vec::new();
        let mut i: usize = 0;
        while i < n
            invariant
                i <= n,
                n == bits.len(),
                dir_bits.len() == i,
                forall|k: int|
                    0 <= k < i ==> (#[trigger] dir_bits@[k]).0@ == bits@[n - 1 - k].0@ && dir_bits@[k].1@
                        == bits@[n - 1 - k].1@,
            decreases n - i,
        {
            dir_bits.push((copy_bytes(bits[n - 1 - i].0), copy_bytes(bits[n - 1 - i].1)));
            i = i + 1;
        }
        let r = RecursiveDoFilesState { filename: copy_bytes(filename), dir_bits, next_default: Some(0) };
        assert(stack_views(r.dir_bits@) =~= pair_views(bits@));
        r
    }

    // It's important to try every possibility in a directory before resorting
    // to a parent directory.  Think about nested projects: We don't want
    // ../../default.o.do to take precedence over ../default.do, because
    // the former one might just be an artifact of someone embedding my project
    // into theirs as a subdir.  When they do, my rules should still be used
    // for building my project in *all* cases.
    fn next(&mut self) -> (r: Option<DoFile>)
        requires
            old(self).wf(),
        ensures
            final(self).wf(),
            match r {
                None => old(self).remaining().len() == 0 && final(self).remaining().len() == 0,
                Some(d) => {
                    &&& old(self).remaining().len() > 0
                    &&& old(self).remaining()[0] == d@
                    &&& final(self).remaining() == old(self).remaining().skip(1)
                },
            },
    {
        let ghost rest = self.remaining();
        loop
            invariant
                self.wf(),
                self.remaining() == rest,
                rest == old(self).remaining(),
            decreases self.dir_bits.len(),
        {
            let n: usize = self.dir_bits.len();
            if n == 0 {
                return None;
            }
            let ghost bits = stack_views(self.dir_bits@);
            let ghost before = self.defaults();
            let mut it = DefaultDoFiles { filename: self.filename.as_slice(), next: self.next_default };
            let found = it.next();
            let next_default = it.next;
            let ghost after = it.remaining();
            match found {
                Some((do_file, base, ext)) => {
                    let sub_dir = self.dir_bits[n - 1].1.as_slice();
                    let d = DoFile {
                        do_dir: copy_bytes(self.dir_bits[n - 1].0.as_slice()),
                        do_file,
                        base_dir: copy_bytes(sub_dir),
                        base_name: join_path(sub_dir, base),
                        ext: copy_bytes(ext),
                    };
                    self.next_default = next_default;
                    proof {
                        assert(self.defaults() == after);
                        assert(rest[0] == default_in(bits[0], before[0]));
                        assert(defaults_in(bits[0], before).skip(1) =~= defaults_in(bits[0], after));
                        assert(rest.skip(1) =~= self.remaining());
                    }
                    return Some(d);
                },
                None => {},
            }
            let ghost dirs = self.dir_bits@;
            let _ = self.dir_bits.pop();
            self.next_default = Some(0);
            proof {
                assert(before.len() == 0);
                assert(stack_views(self.dir_bits@) =~= bits.skip(1));
                assert(rest =~= defaults_in_all(bits.skip(1), self.filename@));
                assert(self.remaining() =~= rest);
            }
        }
    }
}

/// Create an iterator over the .do files for the absolute path `p`. If that is the root directory, which has no name,
/// there is no use in asking for the first of them.
pub fn possible_do_files(p: &[u8]) -> (r: PossibleDoFiles)
    requires
        is_rooted(p@),
    ensures
        r.wf() <==> normalized(p@) != seq![SEP],
        r.remaining() == do_files_for(normalized(p@)),
{
    proof {
        lemma_normalized_parent(p@);
    }
    let t = match normpath(p) {
        std::borrow::Cow::Borrowed(b) => copy_bytes(b),
        std::borrow::Cow::Owned(v) => v,
    };
    PossibleDoFiles { state: DoFilesState::First(t) }
}

impl PossibleDoFiles {
    pub closed spec fn wf(&self) -> bool {
        match self.state {
            DoFilesState::First(t) => file_name_of(t@) is Some,
            DoFilesState::Recursive(r) => r.wf(),
            DoFilesState::Stopped => true,
        }
    }

    /// What is still to come.
    pub closed spec fn remaining(&self) -> Seq<DoFileView> {
        match self.state {
            DoFilesState::First(t) => do_files_for(t@),
            DoFilesState::Recursive(r) => r.remaining(),
            DoFilesState::Stopped => seq![],
        }
    }

    /// The next `.do` file that might build the target.
    pub fn next(&mut self) -> (r: Option<DoFile>)
        requires
            old(self).wf(),
        ensures
            final(self).wf(),
            match r {
                None => old(self).remaining().len() == 0 && final(self).remaining().len() == 0,
                Some(d) => {
                    &&& old(self).remaining().len() > 0
                    &&& old(self).remaining()[0] == d@
                    &&& final(self).remaining() == old(self).remaining().skip(1)
                },
            },
    {
        let mut state = DoFilesState::Stopped;
        std::mem::swap(&mut state, &mut self.state);
        match state {
            DoFilesState::First(t) => {
                let ghost all = do_files_for(t@);
                let dirname = parent(t.as_slice()).unwrap();
                let filename = file_name(t.as_slice()).unwrap();
                let mut do_file = copy_bytes(filename);
                append_bytes(&mut do_file, ".do".as_bytes());
                let d = DoFile {
                    do_dir: copy_bytes(dirname),
                    do_file,
                    base_dir: Vec::new(),
                    base_name: copy_bytes(filename),
                    ext: Vec::new(),
                };
                self.state = DoFilesState::Recursive(RecursiveDoFilesState::from_path(t.as_slice()));
                assert(all.skip(1) =~= self.remaining());
                Some(d)
            },
            DoFilesState::Recursive(mut r) => match r.next() {
                Some(d) => {
                    self.state = DoFilesState::Recursive(r);
                    Some(d)
                },
                None => {
                    self.state = DoFilesState::Stopped;
                    None
                },
            },
            DoFilesState::Stopped => None,
        }
    }
}

/// A path and its normal form have the same `.do` files: one is absolute if the other is, and is the root directory if the
/// other is.
pub proof fn law_do_files_of_normal_form(p: Seq<u8>)
    ensures
        is_rooted(normalized(p)) <==> is_rooted(p),
        normalized(normalized(p)) == seq![SEP] <==> normalized(p) == seq![SEP],
        do_files_for(normalized(normalized(p))) == do_files_for(normalized(p)),
{
    law_normalized_keeps_meaning(p);
    law_normalized_idempotent(p);
}

/// The directory is never empty of candidates, and each splits the file name in two.
proof fn lemma_defaults(filename: Seq<u8>, at: int)
    requires
        0 <= at <= filename.len(),
    ensures
        defaults_from(filename, at).len() > 0,
        forall|i: int|
            0 <= i < defaults_from(filename, at).len() ==> {
                let d = #[trigger] defaults_from(filename, at)[i];
                &&& d.base + d.ext == filename
                &&& d.base.len() > 0 ==> d.base[0] == filename[0]
            },
    decreases filename.len() - at,
{
    assert(filename.take(at) + filename.skip(at) =~= filename);
    if at < filename.len() {
        lemma_defaults(filename, at + 1);
        let rest = defaults_from(filename, at + 1);
        let ds = defaults_from(filename, at);
        if filename[at] == DOT {
            assert forall|i: int| 0 <= i < ds.len() implies {
                let d = #[trigger] ds[i];
                &&& d.base + d.ext == filename
                &&& d.base.len() > 0 ==> d.base[0] == filename[0]
            } by {
                if i > 0 {
                    assert(ds[i] == rest[i - 1]);
                }
            }
        }
    }
}

/// The default patterns of a file name each cut it into a base and an extension.
pub proof fn law_default_parts(filename: Seq<u8>, i: int)
    requires
        0 <= i < defaults_from(filename, 0).len(),
    ensures
        defaults_from(filename, 0)[i].base + defaults_from(filename, 0)[i].ext == filename,
{
    lemma_defaults(filename, 0);
}

/// How a rooted directory is cut in two.
proof fn lemma_splits_render(dir: Seq<Seq<u8>>)
    requires
        is_clean(true, dir, 0),
    ensures
        splits(render(true, dir)).len() == dir.len() + 1,
        forall|j: int|
            0 <= j <= dir.len() ==> (#[trigger] splits(render(true, dir))[j]).0 == render(
                true,
                dir.take(dir.len() - j),
            ),
        forall|j: int| #![trigger splits(render(true, dir))[j]]
            1 <= j <= dir.len() ==> splits(render(true, dir))[j].1 == render(true, dir).skip(
                element_start(true, dir, dir.len() - j),
            ),
        splits(render(true, dir))[0].1 == Seq::<u8>::empty(),
{
    let p = render(true, dir);
    let n = dir.len() as int;
    lemma_ranges_render(dir);
    let rs = ranges(p);
    assert(dir.take(n) =~= dir);
    assert forall|j: int| 0 <= j <= n implies (#[trigger] splits(p)[j]).0 == render(true, dir.take(n - j)) by {
        if j > 0 {
            lemma_render_prefix(true, dir, n - j);
            assert(splits(p)[j].0 == p.take(rs[n - j].1));
            if j == n {
                assert(dir.take(0) =~= Seq::empty());
                assert(render(true, dir.take(0)) =~= seq![SEP]);
                assert(p.take(1) =~= seq![SEP]);
            }
        }
    }
    assert forall|j: int| 1 <= j <= n implies #[trigger] splits(p)[j].1 == p.skip(
        element_start(true, dir, n - j),
    ) by {
        assert(rs[n].1 == p.len());
        assert(rs[n + 1 - j].0 == element_start(true, dir, n - j));
        lemma_render_prefix(true, dir, n - j);
        assert(splits(p)[j].1 =~= p.skip(element_start(true, dir, n - j)));
    }
}

proof fn lemma_defaults_in_all(bits: Seq<(Seq<u8>, Seq<u8>)>, filename: Seq<u8>, i: int) -> (jk: (int, int))
    requires
        0 <= i < defaults_in_all(bits, filename).len(),
    ensures
        0 <= jk.0 < bits.len(),
        0 <= jk.1 < defaults_from(filename, 0).len(),
        defaults_in_all(bits, filename)[i] == default_in(bits[jk.0], defaults_from(filename, 0)[jk.1]),
    decreases bits.len(),
{
    let here = defaults_in(bits[0], defaults_from(filename, 0));
    if i < here.len() {
        (0, i)
    } else {
        let r = lemma_defaults_in_all(bits.skip(1), filename, i - here.len());
        (r.0 + 1, r.1)
    }
}

/// One more element goes behind a separator, or directly behind the root.
proof fn lemma_render_push(up: Seq<Seq<u8>>, filename: Seq<u8>)
    requires
        forall|k: int| 0 <= k < up.len() ==> is_plain(#[trigger] up[k]),
        is_plain(filename),
    ensures
        render(true, up.push(filename)) == pushed(render(true, up), filename),
{
    let dir = up.push(filename);
    let t = render(true, dir);
    let upp = render(true, up);
    lemma_render_prefix(true, dir, dir.len() - 1);
    assert(dir.take(dir.len() - 1) =~= up);
    assert(dir.take(dir.len() as int) =~= dir);
    lemma_last_sep(up);
    assert(filename.contains(filename[0]));
    assert(t =~= t.take(upp.len() as int) + t.skip(upp.len() as int));
    if up.len() == 0 {
        assert(t.skip(1) =~= filename);
    } else {
        assert(t.skip(upp.len() as int) =~= seq![SEP] + filename);
        assert(t =~= upp.push(SEP) + filename);
    }
}

/// A directory cut in two and put together again around a file name.
proof fn lemma_split_target(up: Seq<Seq<u8>>, j: int, base: Seq<u8>, ext: Seq<u8>)
    requires
        is_clean(true, up, 0),
        0 < j <= up.len(),
        is_plain(base + ext),
    ensures
        ({
            let bit = splits(render(true, up))[j];
            pushed(bit.0, pushed(bit.1, base) + ext) == pushed(render(true, up), base + ext)
        }),
{
    let filename = base + ext;
    let upp = render(true, up);
    lemma_splits_render(up);
    let sub = splits(upp)[j].1;
    let h = up.len() - j;
    let s = element_start(true, up, h);
    let head = render(true, up.take(h));
    assert(filename.contains(filename[0]));
    if base.len() > 0 {
        assert(base[0] == filename[0]);
    }
    lemma_render_prefix(true, up, h);
    lemma_last_sep(up);
    assert forall|k: int| 0 <= k < h implies is_plain(#[trigger] up.take(h)[k]) by {
        assert(up.take(h)[k] == up[k]);
    }
    lemma_last_sep(up.take(h));
    assert(is_plain(up[h]));
    assert(sub == upp.skip(s));
    assert(sub.last() == upp.last());
    let name = pushed(sub, base) + ext;
    assert(name =~= sub.push(SEP) + filename);
    assert(upp.subrange(s, s + up[h].len())[0] == up[h][0]);
    assert(up[h].contains(up[h][0]));
    assert(!is_rooted(name));
    assert(upp =~= upp.take(head.len() as int) + upp.skip(head.len() as int));
    if h == 0 {
        assert(upp =~= head + sub);
    } else {
        assert(upp.skip(head.len() as int) =~= seq![SEP] + sub);
        assert(upp =~= head.push(SEP) + sub);
    }
    assert(pushed(head, name) =~= pushed(upp, filename));
}

/// Every candidate leads back to the target: from its directory, the base name with the
/// extension put back is the normalized target path.
pub proof fn law_do_file_names_target(p: Seq<u8>, i: int)
    requires
        is_rooted(p),
        normalized(p) != seq![SEP],
        0 <= i < do_files_for(normalized(p)).len(),
    ensures
        ({
            let d = do_files_for(normalized(p))[i];
            pushed(d.do_dir, d.base_name + d.ext) == normalized(p)
        }),
{
    let t = normalized(p);
    let dir = resolved(p);
    lemma_normalized_parent(p);
    lemma_parent_render(dir);
    let up = dir.drop_last();
    let filename = dir.last();
    assert(is_plain(dir[dir.len() - 1]));
    assert forall|k: int| 0 <= k < up.len() implies is_plain(#[trigger] up[k]) by {
        assert(up[k] == dir[k]);
    }
    assert(is_clean(true, up, 0));
    assert(dir =~= up.push(filename));
    lemma_render_push(up, filename);
    let d = do_files_for(t)[i];
    if i == 0 {
        assert(d.base_name + d.ext =~= filename);
    } else {
        let bits = splits(render(true, up));
        let (j, k) = lemma_defaults_in_all(bits, filename, i - 1);
        lemma_defaults(filename, 0);
        let c = defaults_from(filename, 0)[k];
        assert(d == default_in(bits[j], c));
        lemma_splits_render(up);
        if j == 0 {
            assert(up.take(up.len() as int) =~= up);
            assert(filename.contains(filename[0]));
            assert(d.base_name =~= c.base);
            assert(d.base_name + d.ext =~= filename);
        } else {
            lemma_split_target(up, j, c.base, c.ext);
        }
    }
}

/// A written-out directory ends in a separator only if it is the root.
proof fn lemma_last_sep(dir: Seq<Seq<u8>>)
    requires
        forall|k: int| 0 <= k < dir.len() ==> is_plain(#[trigger] dir[k]),
    ensures
        render(true, dir).len() > 0,
        dir.len() > 0 <==> render(true, dir).last() != SEP,
        dir.len() == 0 ==> render(true, dir) == seq![SEP],
{
    let n = dir.len() as int;
    let p = render(true, dir);
    if n > 0 {
        lemma_render_prefix(true, dir, n - 1);
        assert(dir.take(n) =~= dir);
        assert(is_plain(dir[n - 1]));
        let s = element_start(true, dir, n - 1);
        assert(p.subrange(s, p.len() as int).last() == p.last());
        assert(dir[n - 1].contains(dir[n - 1].last()));
    } else {
        assert(p =~= seq![SEP]);
    }
}

proof fn lemma_dirs_descend(bits: Seq<(Seq<u8>, Seq<u8>)>, filename: Seq<u8>, i: int, k: int) -> (ab: (int, int))
    requires
        0 <= i < k < defaults_in_all(bits, filename).len(),
    ensures
        0 <= ab.0 <= ab.1 < bits.len(),
        defaults_in_all(bits, filename)[i].do_dir == bits[ab.0].0,
        defaults_in_all(bits, filename)[k].do_dir == bits[ab.1].0,
    decreases bits.len(),
{
    let here = defaults_in(bits[0], defaults_from(filename, 0));
    if i < here.len() {
        if k < here.len() {
            (0, 0)
        } else {
            let r = lemma_defaults_in_all(bits.skip(1), filename, k - here.len());
            (0, r.0 + 1)
        }
    } else {
        let r = lemma_dirs_descend(bits.skip(1), filename, i - here.len(), k - here.len());
        (r.0 + 1, r.1 + 1)
    }
}

/// A directory further up is a prefix.
proof fn lemma_shorter_is_prefix(up: Seq<Seq<u8>>, m: int, n: int)
    requires
        is_clean(true, up, 0),
        0 <= n <= m <= up.len(),
    ensures
        render(true, up.take(n)).is_prefix_of(render(true, up.take(m))),
{
    let near = up.take(m);
    assert(near.take(n) =~= up.take(n));
    assert forall|k: int| 0 <= k < near.len() implies is_plain(#[trigger] near[k]) by {
        assert(near[k] == up[k]);
    }
    lemma_render_prefix(true, near, n);
}

/// Every possibility in a directory comes before any in a directory further up: the directory
/// of a later candidate is the same as, or an ancestor of, that of an earlier one.
pub proof fn law_nearer_directories_first(p: Seq<u8>, i: int, k: int)
    requires
        is_rooted(p),
        normalized(p) != seq![SEP],
        0 <= i < k < do_files_for(normalized(p)).len(),
    ensures
        do_files_for(normalized(p))[k].do_dir.is_prefix_of(do_files_for(normalized(p))[i].do_dir),
{
    let t = normalized(p);
    let dir = resolved(p);
    lemma_normalized_parent(p);
    lemma_parent_render(dir);
    let up = dir.drop_last();
    let upp = render(true, up);
    let n = up.len() as int;
    assert(is_clean(true, up, 0)) by {
        assert forall|k: int| 0 <= k < up.len() implies is_plain(#[trigger] up[k]) by {
            assert(up[k] == dir[k]);
        }
    }
    lemma_splits_render(up);
    let bits = splits(upp);
    let (a, b) = if i == 0 {
        let r = lemma_defaults_in_all(bits, dir.last(), k - 1);
        assert(up.take(n) =~= up);
        (0int, r.0)
    } else {
        lemma_dirs_descend(bits, dir.last(), i - 1, k - 1)
    };
    lemma_shorter_is_prefix(up, n - a, n - b);
    let all = do_files_for(t);
    let defaults = defaults_in_all(bits, dir.last());
    assert(i > 0 ==> all[i] == defaults[i - 1]);
    assert(all[k] == defaults[k - 1]);
    assert(all[i].do_dir == bits[a].0);
    assert(all[k].do_dir == bits[b].0);
}

/// What was found out about a candidate: whether it is there, and what the file system says about its path.
#[derive(Debug)]
pub struct Look {
    pub there: bool,
    pub places: Places,
}

/// What looking for a `.do` file comes to.
#[derive(Debug)]
pub enum Search {
    Found(DoFile),
    NotFound,
    /// The candidate is the target itself, which cannot depend on itself.
    DependsOnItself(DoFile),
}

/// What looking for a `.do` file comes to.
pub enum SearchView {
    Found(DoFileView),
    NotFound,
    DependsOnItself(DoFileView),
}

impl View for Search {
    type V = SearchView;

    open spec fn view(&self) -> SearchView {
        match self {
            Search::Found(d) => SearchView::Found(d@),
            Search::NotFound => SearchView::NotFound,
            Search::DependsOnItself(d) => SearchView::DependsOnItself(d@),
        }
    }
}

/// How the target depends on a candidate: it is out of date once one that is there changes, or
/// once one that is not there is created.
pub open spec fn look_mode(look: Look) -> DepMode {
    if look.there {
        DepMode::Modified
    } else {
        DepMode::Created
    }
}

/// What looking at the candidates in turn comes to, and what is written: a dependency on each of
/// them, up to the first that is there.
pub open spec fn searched(cands: Seq<DoFileView>, looks: Seq<Look>, target: i64, db: Db, env: Env) -> (
    Result<SearchView, ErrorView>,
    Seq<WriteView>,
)
    decreases cands.len(),
{
    if cands.len() == 0 {
        (Ok(SearchView::NotFound), seq![])
    } else {
        let c = cands[0];
        let (res, ws) = added_dep(
            target,
            db,
            env,
            look_mode(looks[0]),
            pushed(c.do_dir, c.do_file),
            looks[0].places,
        );
        match res {
            Err(e) => (Err(e), ws),
            Ok(false) => (Ok(SearchView::DependsOnItself(c)), ws),
            Ok(true) => if looks[0].there {
                (Ok(SearchView::Found(c)), ws)
            } else {
                let (rest, more) = searched(cands.skip(1), looks.skip(1), target, replay(db, ws), env);
                (rest, ws + more)
            },
        }
    }
}

/// Whether enough is known about candidates to find one: something about each of them, or about
/// all up to one that is there.
pub open spec fn enough_looks(n: nat, looks: Seq<Look>) -> bool {
    looks.len() >= n || exists|i: int| 0 <= i < looks.len() && (#[trigger] looks[i]).there
}

/// The candidates for a file.
pub open spec fn candidates(base: Seq<u8>, name: Seq<u8>) -> Seq<DoFileView> {
    do_files_for(normalized(absolute(base, name)))
}

/// Looks for the `.do` file of a file, given what was found out about the candidates in turn, and makes the
/// file depend on all that were looked at.
pub fn find_do_file(ptx: &mut ProcessTransaction, f: &File, looks: &Vec<Look>) -> (r: Result<Search, RedoError>)
    requires
        is_rooted(old(ptx).settings().base@),
        normalized(absolute(old(ptx).settings().base@, f@.name)) != seq![SEP],
        enough_looks(candidates(old(ptx).settings().base@, f@.name).len(), looks@),
    ensures
        ({
            let env = old(ptx).settings();
            let (res, ws) = searched(candidates(env.base@, f@.name), looks@, f@.id, old(ptx).db(), env);
            &&& (match r {
                Ok(s) => Ok(s@),
                Err(e) => Err(e@),
            }) == res
            &&& final(ptx).wrote_all(old(ptx), ws)
        }),
{
    let ghost env = ptx.settings();
    let ghost before = *ptx;
    let full = match abs_path(ptx.state().env().base.as_slice(), f.name().as_os_str()) {
        std::borrow::Cow::Borrowed(b) => copy_bytes(b),
        std::borrow::Cow::Owned(v) => v,
    };
    proof {
        assert(is_rooted(full@)) by {
            if !is_rooted(f@.name) {
                assert(full@[0] == env.base@[0]);
            }
        }
    }
    let mut it = possible_do_files(full.as_slice());
    let ghost all = it.remaining();
    let ghost goal = searched(all, looks@, f@.id, ptx.db(), env);
    let ghost mut ws: Seq<WriteView> = seq![];
    let mut i: usize = 0;
    proof {
        assert(looks@.skip(0) =~= looks@);
        assert(ptx.writes() + ws =~= ptx.writes());
        assert(replay(ptx.db(), ws) == ptx.db());
        let sub = searched(all, looks@, f@.id, ptx.db(), env);
        assert(ws + sub.1 =~= sub.1);
    }
    loop
        invariant
            it.wf(),
            i <= looks.len(),
            env == before.settings(),
            is_rooted(env.base@),
            before == *old(ptx),
            ptx.wrote_all(&before, ws),
            enough_looks(it.remaining().len(), looks@.skip(i as int)),
            ({
                let sub = searched(it.remaining(), looks@.skip(i as int), f@.id, ptx.db(), env);
                goal == (sub.0, ws + sub.1)
            }),
            goal == searched(candidates(env.base@, f@.name), looks@, f@.id, before.db(), env),
        decreases it.remaining().len(),
    {
        let ghost rest = it.remaining();
        let ghost left = looks@.skip(i as int);
        let d = match it.next() {
            None => {
                assert(ws + seq![] =~= ws);
                return Ok(Search::NotFound);
            },
            Some(d) => d,
        };
        proof {
            if left.len() < rest.len() {
                let k = choose|k: int| 0 <= k < left.len() && (#[trigger] left[k]).there;
                assert(left.len() > 0);
            }
        }
        let look = &looks[i];
        assert(left[0] == *look);
        let do_path = join_path(d.do_dir.as_slice(), d.do_file.as_slice());
        let mode = if look.there {
            DepMode::Modified
        } else {
            DepMode::Created
        };
        let ghost mid = *ptx;
        let ghost one = added_dep(f@.id, mid.db(), env, look_mode(*look), do_path@, look.places);
        let added = f.add_dep(ptx, mode, do_path.as_slice(), &look.places);
        proof {
            lemma_replay_concat(before.db(), ws, one.1);
            assert(ptx.writes() =~= before.writes() + (ws + one.1));
            ws = ws + one.1;
        }
        match added {
            Err(e) => return Err(e),
            Ok(done) => {
                if !done {
                    return Ok(Search::DependsOnItself(d));
                }
            },
        }
        if look.there {
            return Ok(Search::Found(d));
        }
        i = i + 1;
        proof {
            assert(left.skip(1) =~= looks@.skip(i as int));
            let sub = searched(it.remaining(), looks@.skip(i as int), f@.id, ptx.db(), env);
            let old_ws = ws.take(ws.len() - one.1.len());
            assert(old_ws + (one.1 + sub.1) =~= ws + sub.1);
            if left.len() < rest.len() {
                let k = choose|k: int| 0 <= k < left.len() && (#[trigger] left[k]).there;
                assert(k > 0);
                assert(left.skip(1)[k - 1] == left[k]);
            }
        }
    }
}

/// Whether a target is noted to depend, in the given way and for good, on the file of the given name.
pub open spec fn depends_on_name(db: Db, target: i64, name: Seq<u8>, mode: DepMode) -> bool {
    exists|source: i64| #[trigger]
        has_name(db.files, source, name) && db.deps.contains(DepRow { target, source, mode, delete_me: false })
}

/// Whether no two files have the same id, and the target is one of the files.
pub open spec fn has_own_ids(files: Seq<FileRowView>, target: i64) -> bool {
    &&& forall|i: int, j: int| 0 <= i < j < files.len() ==> (#[trigger] files[i]).id != (#[trigger] files[j]).id
    &&& exists|i: int| 0 <= i < files.len() && (#[trigger] files[i]).id == target
}

proof fn lemma_one_dep(
    target: i64,
    db: Db,
    env: Env,
    mode: DepMode,
    dep: Seq<u8>,
    places: Places,
    name: Seq<u8>,
)
    requires
        db_name(dep, env.base@, places) == Ok::<Seq<u8>, ErrorView>(name),
        is_redo_path(name),
        max_id(db.files) < i64::MAX,
        has_own_ids(db.files, target),
        !has_name(db.files, target, name),
    ensures
        ({
            let (res, ws) = added_dep(target, db, env, mode, dep, places);
            let after = replay(db, ws);
            &&& res == Ok::<bool, ErrorView>(true)
            &&& has_own_ids(after.files, target)
            &&& max_id(after.files) <= max_id(db.files) + 1
            &&& depends_on_name(after, target, name, mode)
            &&& forall|n: Seq<u8>, m: DepMode|
                n != name && depends_on_name(db, target, n, m) ==> #[trigger] depends_on_name(after, target, n, m)
            &&& forall|n: Seq<u8>| !has_name(db.files, target, n) ==> !#[trigger] has_name(after.files, target, n)
        }),
{
    law_dependency_is_added(target, db, env, mode, dep, places, name);
    let (res, ws) = added_dep(target, db, env, mode, dep, places);
    let after = replay(db, ws);
    let t = choose|i: int| 0 <= i < db.files.len() && (#[trigger] db.files[i]).id == target;
    law_largest_id(db.files, t);
    assert(after.files[t].id == target);
    assert forall|i: int, j: int| 0 <= i < j < after.files.len() implies (#[trigger] after.files[i]).id != (
    #[trigger] after.files[j]).id by {
        assert(after.files[i] == db.files[i]);
        if j < db.files.len() {
            assert(after.files[j] == db.files[j]);
        } else {
            law_largest_id(db.files, i);
        }
    }
    let source = choose|source: i64|
        {
            &&& #[trigger] has_name(after.files, source, name)
            &&& source != target
            &&& after.deps.contains(DepRow { target, source, mode, delete_me: false })
            &&& forall|d: DepRow|
                !(d.target == target && d.source == source) ==> (#[trigger] after.deps.contains(d) <==> db.deps.contains(d))
        };
    assert forall|n: Seq<u8>, m: DepMode|
        n != name && depends_on_name(db, target, n, m) implies #[trigger] depends_on_name(after, target, n, m) by {
        let s = choose|s: i64| #[trigger]
            has_name(db.files, s, n) && db.deps.contains(DepRow { target, source: s, mode: m, delete_me: false });
        let i = choose|i: int| 0 <= i < db.files.len() && (#[trigger] db.files[i]).id == s && db.files[i].name == n;
        assert(after.files[i] == db.files[i]);
        assert(has_name(after.files, s, n));
        let k = choose|k: int|
            0 <= k < after.files.len() && (#[trigger] after.files[k]).id == source && after.files[k].name == name;
        assert(s != source) by {
            if s == source {
                assert(i != k);
                assert(after.files[i].id == after.files[k].id);
            }
        }
        assert(after.deps.contains(DepRow { target, source: s, mode: m, delete_me: false }));
    }
    assert forall|n: Seq<u8>| !has_name(db.files, target, n) implies !#[trigger] has_name(after.files, target, n) by {
        if has_name(after.files, target, n) {
            let i = choose|i: int|
                0 <= i < after.files.len() && (#[trigger] after.files[i]).id == target && after.files[i].name == n;
            if i < db.files.len() {
                assert(db.files[i] == after.files[i]);
            }
        }
    }
}

/// A search that comes to its end finds the first candidate that is there, and none if there is none. Whichever it is, the target
/// is noted to depend on every candidate before it being absent, and on the one that was found staying as it is. So if one
/// of the others is created later, the target is known to be out of date. `names` are the names of the candidates, up to
/// the one that is found; they are different from each other and from the target's.
pub proof fn law_search_depends_on_all(
    cands: Seq<DoFileView>,
    looks: Seq<Look>,
    target: i64,
    db: Db,
    env: Env,
    names: Seq<Seq<u8>>,
    k: int,
)
    requires
        0 <= k <= cands.len(),
        k <= looks.len(),
        k < cands.len() ==> k < looks.len() && looks[k].there,
        forall|j: int| 0 <= j < k ==> !(#[trigger] looks[j]).there,
        names.len() == (if k < cands.len() { k + 1 } else { k }),
        forall|j: int|
            0 <= j < names.len() ==> db_name(
                pushed(cands[j].do_dir, cands[j].do_file),
                env.base@,
                looks[j].places,
            ) == Ok::<Seq<u8>, ErrorView>(#[trigger] names[j]),
        forall|j: int| 0 <= j < names.len() ==> is_redo_path(#[trigger] names[j]) && !has_name(db.files, target, names[j]),
        forall|i: int, j: int| 0 <= i < j < names.len() ==> #[trigger] names[i] != #[trigger] names[j],
        has_own_ids(db.files, target),
        max_id(db.files) + names.len() <= i64::MAX,
    ensures
        ({
            let (found, ws) = searched(cands, looks, target, db, env);
            let after = replay(db, ws);
            &&& k < cands.len() ==> found == Ok::<SearchView, ErrorView>(SearchView::Found(cands[k]))
            &&& k == cands.len() ==> found == Ok::<SearchView, ErrorView>(SearchView::NotFound)
            &&& forall|j: int| 0 <= j < k ==> depends_on_name(after, target, #[trigger] names[j], DepMode::Created)
            &&& k < cands.len() ==> depends_on_name(after, target, names[k], DepMode::Modified)
            &&& forall|n: Seq<u8>, m: DepMode|
                !names.contains(n) && depends_on_name(db, target, n, m) ==> #[trigger] depends_on_name(after, target, n, m)
        }),
    decreases cands.len(),
{
    let (found, ws) = searched(cands, looks, target, db, env);
    let after = replay(db, ws);
    if cands.len() > 0 {
        let c = cands[0];
        let mode = if looks[0].there {
            DepMode::Modified
        } else {
            DepMode::Created
        };
        assert(names[0] == names[0]);
        lemma_one_dep(target, db, env, mode, pushed(c.do_dir, c.do_file), looks[0].places, names[0]);
        let (res, ws1) = added_dep(target, db, env, mode, pushed(c.do_dir, c.do_file), looks[0].places);
        let mid = replay(db, ws1);
        assert(names.contains(names[0]));
        if k > 0 {
            assert(!looks[0].there);
            let rest = names.skip(1);
            assert forall|j: int| 0 <= j < rest.len() implies db_name(
                pushed(cands.skip(1)[j].do_dir, cands.skip(1)[j].do_file),
                env.base@,
                looks.skip(1)[j].places,
            ) == Ok::<Seq<u8>, ErrorView>(#[trigger] rest[j]) by {
                assert(rest[j] == names[j + 1]);
            }
            assert forall|j: int| 0 <= j < rest.len() implies is_redo_path(#[trigger] rest[j]) && !has_name(
                mid.files,
                target,
                rest[j],
            ) by {
                assert(rest[j] == names[j + 1]);
            }
            assert forall|i: int, j: int| 0 <= i < j < rest.len() implies #[trigger] rest[i] != #[trigger] rest[j] by {
                assert(rest[i] == names[i + 1] && rest[j] == names[j + 1]);
            }
            assert forall|j: int| 0 <= j < k - 1 implies !(#[trigger] looks.skip(1)[j]).there by {
                assert(looks.skip(1)[j] == looks[j + 1]);
            }
            law_search_depends_on_all(cands.skip(1), looks.skip(1), target, mid, env, rest, k - 1);
            let ws2 = searched(cands.skip(1), looks.skip(1), target, mid, env).1;
            lemma_replay_concat(db, ws1, ws2);
            assert(after == replay(mid, ws2));
            assert(!rest.contains(names[0])) by {
                if rest.contains(names[0]) {
                    let j = choose|j: int| 0 <= j < rest.len() && rest[j] == names[0];
                    assert(rest[j] == names[j + 1]);
                }
            }
            assert forall|j: int| 0 <= j < k implies depends_on_name(
                after,
                target,
                #[trigger] names[j],
                DepMode::Created,
            ) by {
                if j > 0 {
                    assert(rest[j - 1] == names[j]);
                }
            }
            if k < cands.len() {
                assert(rest[k - 1] == names[k]);
            }
            assert forall|n: Seq<u8>, m: DepMode|
                !names.contains(n) && depends_on_name(db, target, n, m) implies #[trigger] depends_on_name(
                after,
                target,
                n,
                m,
            ) by {
                assert(n != names[0]);
                assert(depends_on_name(mid, target, n, m));
                assert(!rest.contains(n)) by {
                    if rest.contains(n) {
                        let j = choose|j: int| 0 <= j < rest.len() && rest[j] == n;
                        assert(names[j + 1] == n);
                    }
                }
            }
        }
    }
}

/// The first candidate is the `.do` file that has the target's own name, beside the target.
pub proof fn law_own_do_file_is_first(p: Seq<u8>)
    requires
        is_rooted(p),
        normalized(p) != seq![SEP],
    ensures
        ({
            let ds = do_files_for(normalized(p));
            &&& ds.len() > 0
            &&& pushed(ds[0].do_dir, ds[0].do_file) == normalized(p) + ".do".spec_bytes()
            &&& pushed(ds[0].do_dir, ds[0].base_name) == normalized(p)
            &&& ds[0].base_dir.len() == 0
            &&& ds[0].ext.len() == 0
        }),
{
    let t = normalized(p);
    let dir = resolved(p);
    lemma_normalized_parent(p);
    lemma_parent_render(dir);
    let up = dir.drop_last();
    let filename = dir.last();
    assert(is_plain(dir[dir.len() - 1]));
    assert forall|k: int| 0 <= k < up.len() implies is_plain(#[trigger] up[k]) by {
        assert(up[k] == dir[k]);
    }
    assert(dir =~= up.push(filename));
    lemma_render_push(up, filename);
    let d = do_files_for(t)[0];
    assert(filename.contains(filename[0]));
    assert(d.base_name == filename);
    assert(!is_rooted(filename));
    assert(!is_rooted(d.do_file)) by {
        assert(d.do_file[0] == filename[0]);
    }
    assert(pushed(d.do_dir, d.do_file) =~= pushed(d.do_dir, filename) + ".do".spec_bytes());
}

/// Every `default.do` is a candidate that could build the target: in each directory that the target lies in, at whatever depth, one
/// for every extension of the target's name that begins with a dot, and one for none. `h` is how deep the directory is, and
/// `at` where the extension begins.
pub proof fn law_every_default_is_tried(p: Seq<u8>, h: int, at: int)
    requires
        is_rooted(p),
        normalized(p) != seq![SEP],
        0 <= h < resolved(p).len(),
        0 <= at <= resolved(p).last().len(),
        at < resolved(p).last().len() ==> resolved(p).last()[at] == DOT,
    ensures
        exists|i: int|
            0 < i < do_files_for(normalized(p)).len() && {
                let d = #[trigger] do_files_for(normalized(p))[i];
                &&& d.do_dir == render(true, resolved(p).take(h))
                &&& d.do_file == "default".spec_bytes() + resolved(p).last().skip(at) + ".do".spec_bytes()
                &&& d.ext == resolved(p).last().skip(at)
            },
{
    let t = normalized(p);
    let dir = resolved(p);
    lemma_normalized_parent(p);
    lemma_parent_render(dir);
    let up = dir.drop_last();
    let n = up.len() as int;
    assert(is_clean(true, up, 0)) by {
        assert forall|k: int| 0 <= k < up.len() implies is_plain(#[trigger] up[k]) by {
            assert(up[k] == dir[k]);
        }
    }
    lemma_splits_render(up);
    let bits = splits(render(true, up));
    let filename = dir.last();
    let k = lemma_default_for(filename, 0, at);
    let i = lemma_default_place(bits, filename, n - h, k);
    let all = do_files_for(t);
    assert(all[i + 1] == defaults_in_all(bits, filename)[i]);
    assert(up.take(h) =~= dir.take(h));
    assert(bits[n - h].0 == render(true, up.take(n - (n - h))));
}

proof fn lemma_default_for(filename: Seq<u8>, from: int, at: int) -> (k: int)
    requires
        0 <= from <= at <= filename.len(),
        at < filename.len() ==> filename[at] == DOT,
    ensures
        0 <= k < defaults_from(filename, from).len(),
        defaults_from(filename, from)[k] == default_at(filename, at),
    decreases filename.len() - from,
{
    if from == at {
        0
    } else {
        let k = lemma_default_for(filename, from + 1, at);
        if filename[from] == DOT {
            k + 1
        } else {
            k
        }
    }
}

proof fn lemma_default_place(bits: Seq<(Seq<u8>, Seq<u8>)>, filename: Seq<u8>, j: int, k: int) -> (i: int)
    requires
        0 <= j < bits.len(),
        0 <= k < defaults_from(filename, 0).len(),
    ensures
        0 <= i < defaults_in_all(bits, filename).len(),
        defaults_in_all(bits, filename)[i] == default_in(bits[j], defaults_from(filename, 0)[k]),
    decreases j,
{
    let here = defaults_in(bits[0], defaults_from(filename, 0));
    if j == 0 {
        k
    } else {
        let i = lemma_default_place(bits.skip(1), filename, j - 1, k);
        i + here.len()
    }
}

/// The more of a file name a pattern takes as its extension, the earlier it is tried. There is no other pattern than one for every
/// extension that begins with a dot, and one for none.
pub proof fn law_longer_extensions_first(filename: Seq<u8>, i: int, k: int)
    requires
        0 <= i < defaults_from(filename, 0).len(),
    ensures
        i < k < defaults_from(filename, 0).len() ==> defaults_from(filename, 0)[i].ext.len() > defaults_from(
            filename,
            0,
        )[k].ext.len(),
        ({
            let d = defaults_from(filename, 0)[i];
            &&& d.do_file == "default".spec_bytes() + d.ext + ".do".spec_bytes()
            &&& d.base + d.ext == filename
            &&& d.ext.len() > 0 ==> d.ext[0] == DOT
        }),
{
    lemma_defaults(filename, 0);
    lemma_longer_first(filename, 0, i, k);
}

proof fn lemma_longer_first(filename: Seq<u8>, at: int, i: int, k: int)
    requires
        0 <= at <= filename.len(),
        0 <= i < defaults_from(filename, at).len(),
    ensures
        defaults_from(filename, at)[i].ext.len() <= filename.len() - at,
        i < k < defaults_from(filename, at).len() ==> defaults_from(filename, at)[i].ext.len() > defaults_from(
            filename,
            at,
        )[k].ext.len(),
        ({
            let d = defaults_from(filename, at)[i];
            &&& d.do_file == "default".spec_bytes() + d.ext + ".do".spec_bytes()
            &&& d.ext.len() > 0 ==> d.ext[0] == DOT
        }),
    decreases filename.len() - at,
{
    if at < filename.len() {
        let rest = defaults_from(filename, at + 1);
        if filename[at] == DOT {
            if i > 0 {
                lemma_longer_first(filename, at + 1, i - 1, k - 1);
            } else if 0 < k < defaults_from(filename, at).len() {
                lemma_longer_first(filename, at + 1, k - 1, k - 1);
            }
        } else {
            lemma_longer_first(filename, at + 1, i, k);
        }
    }
}

/// The ways to cut a path in two: the whole and nothing; its directory and its name; and then all ways to cut its directory, with the name
/// behind the rest. A name alone is cut last into nothing and itself.
pub proof fn law_paths_are_cut(dir: Seq<u8>, name: Seq<u8>, j: int)
    requires
        name.len() > 0,
        forall|i: int| 0 <= i < name.len() ==> name[i] != SEP,
        name != seq![DOT],
        dir.len() > 0 && dir.last() != SEP && dir.last() != DOT,
    ensures
        splits(name).len() == 2,
        splits(name)[0] == (name, Seq::<u8>::empty()),
        splits(name)[1] == (Seq::<u8>::empty(), name),
        ({
            let p = dir + seq![SEP] + name;
            &&& splits(p).len() == splits(dir).len() + 1
            &&& splits(p)[0] == (p, Seq::<u8>::empty())
            &&& splits(p)[1] == (dir, name)
            &&& 1 <= j < splits(dir).len() ==> {
                &&& splits(p)[j + 1].0 == splits(dir)[j].0
                &&& splits(p)[j + 1].1 == splits(dir)[j].1 + seq![SEP] + name
            }
        }),
{
    if name.len() == 1 && name[0] == DOT {
        assert(name =~= seq![DOT]);
    }
    lemma_piece_len(name, 0, name.len() as int);
    assert(ranges_from(name, name.len() as int) =~= seq![]);
    assert(ranges_from(name, 0) =~= seq![(0, name.len() as int)]);
    assert(name.subrange(0, name.len() as int) =~= name);
    let p = dir + seq![SEP] + name;
    let from: int = if is_rooted(dir) {
        1
    } else {
        0
    };
    assert(p[0] == dir[0]);
    lemma_ranges_in_dir(dir, name, from);
    lemma_last_range(dir, from);
    lemma_ranges(dir);
    let rs = ranges(p);
    let rd = ranges(dir);
    assert(rs =~= rd.push((dir.len() as int + 1, dir.len() as int + 1 + name.len())));
    assert(rd.last().1 == dir.len());
    assert(p.take(dir.len() as int) =~= dir);
    assert(p.subrange(dir.len() as int + 1, p.len() as int) =~= name);
    let m = rd.len() as int;
    if 1 <= j < splits(dir).len() {
        let at: int = if j < m {
            m - j
        } else {
            0
        };
        assert(0 <= rd[at].0 < rd[at].1 <= dir.len());
        assert(p.subrange(rd[at].0, p.len() as int) =~= dir.subrange(rd[at].0, dir.len() as int) + seq![SEP] + name);
        if j < m {
            assert(p.take(rd[m - j - 1].1) =~= dir.take(rd[m - j - 1].1));
        }
    }
}

} // verus!
