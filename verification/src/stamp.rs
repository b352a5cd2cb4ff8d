//! Stamps: what the file system says about a file, in a form that can be kept and compared.

use vstd::prelude::*;
use vstd::string::*;
use crate::error::{opaque, ErrorView, RedoError};
use crate::text::{
    chars_eq, dec_u64, decimal, join, lemma_join_split, lemma_split_around, lemma_split_single, split,
    str_eq, to_chars,
};

verus! {

/// What is known about something in the file system.
#[derive(Debug)]
pub struct FileMeta {
    pub is_dir: bool,
    pub is_symlink: bool,
    /// When it was last modified: seconds since the beginning of 1970, with six decimals.
    /// Or why that is not known.
    pub mtime: Result<String, String>,
    pub len: u64,
    pub ino: u64,
    pub mode: u32,
    pub uid: u32,
    pub gid: u32,
}

/// What the file system answers when it is asked about a file.
#[derive(Debug)]
pub enum Stat {
    Found(FileMeta),
    NotFound,
    Failed(String),
}

/// What was seen of a file: first without following a symbolic link, then following it.
#[derive(Debug)]
pub struct Observed {
    pub link: Stat,
    pub target: Stat,
}

impl Observed {
    /// Whether the file exists, as far as a symbolic link can be followed.
    pub fn is_there(&self) -> (r: bool)
        ensures
            r == (self.target is Found),
    {
        match &self.target {
            Stat::Found(_) => true,
            _ => false,
        }
    }
}

/// Serialized file metadata.
#[derive(Debug, Eq, PartialEq, Hash)]
pub struct Stamp {
    text: String,
}

impl View for Stamp {
    type V = Seq<char>;

    closed spec fn view(&self) -> Seq<char> {
        self.text@
    }
}

/// The stamp that metadata amounts to.
pub open spec fn stamp_of(m: FileMeta) -> Result<Seq<char>, ErrorView> {
    if m.is_dir {
        Ok("dir"@)
    } else {
        match m.mtime {
            Err(e) => Err(opaque(e@)),
            Ok(t) => Ok(
                t@ + "-"@ + decimal(m.len as nat) + "-"@ + decimal(m.ino as nat) + "-"@ + decimal(
                    m.mode as nat,
                ) + "-"@ + decimal(m.uid as nat) + "-"@ + decimal(m.gid as nat),
            ),
        }
    }
}

/// The stamp that an answer of the file system amounts to, and whether it is a symbolic link's.
pub open spec fn stamp_of_stat(s: Stat) -> Result<(bool, Seq<char>), ErrorView> {
    match s {
        Stat::Found(m) => match stamp_of(m) {
            Ok(t) => Ok((m.is_symlink, t)),
            Err(e) => Err(e),
        },
        Stat::NotFound => Ok((false, "0"@)),
        Stat::Failed(e) => Err(opaque(e@)),
    }
}

/// The stamp of a file. That of a symbolic link goes by the link itself and by what it leads to.
pub open spec fn stamp_of_seen(seen: Observed) -> Result<Seq<char>, ErrorView> {
    match stamp_of_stat(seen.link) {
        Err(e) => Err(e),
        Ok((is_link, pre)) => if is_link {
            match stamp_of_stat(seen.target) {
                Err(e) => Err(e),
                Ok((_, post)) => Ok(pre + "+"@ + post),
            }
        } else {
            Ok(pre)
        },
    }
}

/// A result over views.
pub open spec fn stamp_result(r: Result<Stamp, RedoError>) -> Result<Seq<char>, ErrorView> {
    match r {
        Ok(s) => Ok(s@),
        Err(e) => Err(e@),
    }
}

/// The parts of a stamp that tell whether someone has edited the file: the first two between dashes.
pub open spec fn critical(s: Seq<char>) -> Seq<Seq<char>> {
    let p = split(s, '-');
    if p.len() > 2 {
        p.take(2)
    } else {
        p
    }
}

/// Whether two stamps differ in a way that means manual override.
pub open spec fn overridden(a: Seq<char>, b: Seq<char>) -> bool {
    a != b && critical(a) != critical(b)
}

impl Clone for Stamp {
    fn clone(&self) -> (r: Stamp)
        ensures
            r@ == self@,
    {
        Stamp { text: self.text.clone() }
    }
}

impl Stamp {
    /// The stamp of a directory; mtime is unhelpful.
    pub fn dir() -> (r: Stamp)
        ensures
            r@ == "dir"@,
    {
        Stamp { text: "dir".to_owned() }
    }

    /// The stamp of a nonexistent file.
    pub fn missing() -> (r: Stamp)
        ensures
            r@ == "0"@,
    {
        Stamp { text: "0".to_owned() }
    }

    /// A stamp that was kept as text.
    pub fn from(s: String) -> (r: Stamp)
        ensures
            r@ == s@,
    {
        Stamp { text: s }
    }

    /// The stamp as text.
    pub fn as_str(&self) -> (r: &str)
        ensures
            r@ == self@,
    {
        self.text.as_str()
    }

    /// The stamp that metadata amounts to.
    pub fn from_metadata(m: &FileMeta) -> (r: Result<Stamp, RedoError>)
        ensures
            stamp_result(r) == stamp_of(*m),
    {
        if m.is_dir {
            // Directories change too much; detect only existence.
            return Ok(Stamp::dir());
        }
        // A "unique identifier" stamp for a regular file.
        match &m.mtime {
            Err(e) => Err(RedoError::opaque_error(e.as_str())),
            Ok(t) => {
                let mut s = t.clone();
                s.append("-");
                s.append(dec_u64(m.len).as_str());
                s.append("-");
                s.append(dec_u64(m.ino).as_str());
                s.append("-");
                s.append(dec_u64(m.mode as u64).as_str());
                s.append("-");
                s.append(dec_u64(m.uid as u64).as_str());
                s.append("-");
                s.append(dec_u64(m.gid as u64).as_str());
                Ok(Stamp { text: s })
            },
        }
    }

    fn from_stat(s: &Stat) -> (r: Result<(bool, Stamp), RedoError>)
        ensures
            (match r {
                Ok((b, t)) => Ok((b, t@)),
                Err(e) => Err(e@),
            }) == stamp_of_stat(*s),
    {
        match s {
            Stat::Found(m) => match Stamp::from_metadata(m) {
                Ok(t) => Ok((m.is_symlink, t)),
                Err(e) => Err(e),
            },
            Stat::NotFound => Ok((false, Stamp::missing())),
            Stat::Failed(e) => Err(RedoError::opaque_error(e.as_str())),
        }
    }

    /// The stamp of a file, from what was seen of it.
    pub fn read(seen: &Observed) -> (r: Result<Stamp, RedoError>)
        ensures
            stamp_result(r) == stamp_of_seen(*seen),
    {
        let (is_link, pre) = match Stamp::from_stat(&seen.link) {
            Ok(x) => x,
            Err(e) => return Err(e),
        };
        if is_link {
            // if we're a symlink, we actually care about the link object
            // itself, *and* the target of the link.  If either changes,
            // we're considered dirty.
            //
            // On the other hand, detect_override() doesn't care about the
            // target of the link, only the link itself.
            match Stamp::from_stat(&seen.target) {
                Ok((_, post)) => Ok(pre.with_link_target(&post)),
                Err(e) => Err(e),
            }
        } else {
            Ok(pre)
        }
    }

    /// The stamp of a symbolic link, of which `self` is the link's own part.
    pub fn with_link_target(self, dst_stamp: &Stamp) -> (r: Stamp)
        ensures
            r@ == self@ + "+"@ + dst_stamp@,
    {
        let mut s = self.text;
        s.append("+");
        s.append(dst_stamp.text.as_str());
        Stamp { text: s }
    }

    /// Whether this is the stamp of a nonexistent file.
    pub fn is_missing(&self) -> (r: bool)
        ensures
            r == (self@ == "0"@),
    {
        str_eq(self.text.as_str(), "0")
    }

    /// Whether two stamps are the same.
    pub fn same(&self, other: &Stamp) -> (r: bool)
        ensures
            r == (self@ == other@),
    {
        str_eq(self.text.as_str(), other.text.as_str())
    }

    /// Determine if two stamps differ in a way that means manual override.
    ///
    /// When two stamps differ at all, that means the source is dirty and so we
    /// need to rebuild.  If they differ in mtime or size, then someone has surely
    /// edited the file, and we don't want to trample their changes.
    ///
    /// But if the only difference is something else (like ownership, st_mode,
    /// etc) then that might be a false positive; it's annoying to mark as
    /// overridden in that case, so we return `false`.  (It's still dirty though!)
    pub fn detect_override(stamp1: &Stamp, stamp2: &Stamp) -> (r: bool)
        ensures
            r == overridden(stamp1@, stamp2@),
    {
        let a = to_chars(stamp1.text.as_str());
        let b = to_chars(stamp2.text.as_str());
        if chars_eq(a.as_slice(), b.as_slice()) {
            return false;
        }
        let m: usize = critical_end(a.as_slice());
        let n: usize = critical_end(b.as_slice());
        proof {
            assert(critical(a@) == critical(b@) <==> a@.take(m as int) == b@.take(n as int));
        }
        let x = vstd::slice::slice_subrange(a.as_slice(), 0, m);
        let y = vstd::slice::slice_subrange(b.as_slice(), 0, n);
        !chars_eq(x, y)
    }
}

impl Default for Stamp {
    fn default() -> (r: Stamp)
        ensures
            r@ == "0"@,
    {
        Stamp::missing()
    }
}

/// Where the first dash from `from` on is, or the end.
fn next_dash(s: &[char], from: usize) -> (i: usize)
    requires
        from <= s.len(),
    ensures
        from <= i <= s.len(),
        forall|k: int| from <= k < i ==> s@[k] != '-',
        i < s.len() ==> s@[i as int] == '-',
{
    let mut i: usize = from;
    while i < s.len() && s[i] != '-'
        invariant
            from <= i <= s.len(),
            forall|k: int| from <= k < i ==> s@[k] != '-',
        decreases s.len() - i,
    {
        i = i + 1;
    }
    i
}

/// Where the critical part of a stamp ends.
fn critical_end(s: &[char]) -> (n: usize)
    ensures
        n <= s.len(),
        split(s@.take(n as int), '-') == critical(s@),
        join(critical(s@), '-') == s@.take(n as int),
{
    let i: usize = next_dash(s, 0);
    let ghost a = s@.take(i as int);
    proof {
        assert(!a.contains('-'));
        lemma_split_single(a, '-');
    }
    if i == s.len() {
        assert(a =~= s@);
        return i;
    }
    let j: usize = next_dash(s, i + 1);
    let ghost c = s@.subrange(i + 1, j as int);
    let ghost b = s@.skip(i + 1);
    proof {
        assert(!c.contains('-'));
        lemma_split_single(c, '-');
        assert(s@ =~= a.push('-') + b);
        lemma_split_around(a, b, '-');
        lemma_split_around(a, c, '-');
        assert(s@.take(j as int) =~= a.push('-') + c);
        assert(split(s@.take(j as int), '-') =~= seq![a, c]);
        if j == s.len() {
            assert(b =~= c);
        } else {
            let d = s@.skip(j + 1);
            assert(b =~= c.push('-') + d);
            lemma_split_around(c, d, '-');
            crate::text::lemma_split_len(d, '-');
            assert(split(s@, '-') =~= seq![a, c] + split(d, '-'));
        }
        assert(critical(s@) =~= seq![a, c]);
        lemma_join_split(s@.take(j as int), '-');
    }
    j
}

/// Equal stamps never mean an override, and it does not matter which of two stamps is older.
pub proof fn law_override_symmetric(a: Seq<char>, b: Seq<char>)
    ensures
        !overridden(a, a),
        overridden(a, b) == overridden(b, a),
{
}

/// Stamps of regular files with the same modification time and size never mean an override,
/// whatever else differs, as long as the time's text has no dash in it.
pub proof fn law_override_needs_edit(a: FileMeta, b: FileMeta)
    requires
        !a.is_dir,
        !b.is_dir,
        a.mtime is Ok,
        b.mtime is Ok,
        !a.mtime->Ok_0@.contains('-'),
    ensures
        a.mtime->Ok_0@ == b.mtime->Ok_0@ && a.len == b.len ==> !overridden(
            stamp_of(a)->Ok_0,
            stamp_of(b)->Ok_0,
        ),
{
    if a.mtime->Ok_0@ == b.mtime->Ok_0@ && a.len == b.len {
        lemma_critical_stamp(a);
        lemma_critical_stamp(b);
    }
}

/// The critical parts of a regular file's stamp are its modification time and its size.
proof fn lemma_critical_stamp(m: FileMeta)
    requires
        !m.is_dir,
        m.mtime is Ok,
        !m.mtime->Ok_0@.contains('-'),
    ensures
        critical(stamp_of(m)->Ok_0) == seq![m.mtime->Ok_0@, decimal(m.len as nat)],
{
    reveal_strlit("-");
    let t = m.mtime->Ok_0@;
    let n = decimal(m.len as nat);
    let rest = decimal(m.ino as nat) + "-"@ + decimal(m.mode as nat) + "-"@ + decimal(m.uid as nat) + "-"@
        + decimal(m.gid as nat);
    let s = stamp_of(m)->Ok_0;
    crate::text::lemma_decimal_digits(m.len as nat);
    assert(!n.contains('-')) by {
        assert forall|i: int| 0 <= i < n.len() implies n[i] != '-' by {
            assert(crate::text::is_digit(n[i]));
        }
    }
    assert("-"@ =~= seq!['-']);
    assert(s =~= t.push('-') + (n.push('-') + rest));
    lemma_split_around(t, n.push('-') + rest, '-');
    lemma_split_around(n, rest, '-');
    lemma_split_single(t, '-');
    lemma_split_single(n, '-');
    crate::text::lemma_split_len(rest, '-');
    assert(split(s, '-') =~= seq![t, n] + split(rest, '-'));
    assert(critical(s) =~= seq![t, n]);
}

/// The parts of a regular file's stamp: its modification time, size, inode, mode, owner and group.
proof fn lemma_stamp_parts(m: FileMeta)
    requires
        !m.is_dir,
        m.mtime is Ok,
        !m.mtime->Ok_0@.contains('-'),
    ensures
        split(stamp_of(m)->Ok_0, '-') == seq![
            m.mtime->Ok_0@,
            decimal(m.len as nat),
            decimal(m.ino as nat),
            decimal(m.mode as nat),
            decimal(m.uid as nat),
            decimal(m.gid as nat),
        ],
{
    reveal_strlit("-");
    assert("-"@ =~= seq!['-']);
    let t = m.mtime->Ok_0@;
    let n = decimal(m.len as nat);
    let i = decimal(m.ino as nat);
    let o = decimal(m.mode as nat);
    let u = decimal(m.uid as nat);
    let g = decimal(m.gid as nat);
    lemma_no_dash(m.len as nat);
    lemma_no_dash(m.ino as nat);
    lemma_no_dash(m.mode as nat);
    lemma_no_dash(m.uid as nat);
    lemma_no_dash(m.gid as nat);
    let r4 = u.push('-') + g;
    let r3 = o.push('-') + r4;
    let r2 = i.push('-') + r3;
    let r1 = n.push('-') + r2;
    let s = stamp_of(m)->Ok_0;
    assert(s =~= t.push('-') + r1);
    lemma_split_around(u, g, '-');
    lemma_split_around(o, r4, '-');
    lemma_split_around(i, r3, '-');
    lemma_split_around(n, r2, '-');
    lemma_split_around(t, r1, '-');
    lemma_split_single(t, '-');
    lemma_split_single(n, '-');
    lemma_split_single(i, '-');
    lemma_split_single(o, '-');
    lemma_split_single(u, '-');
    lemma_split_single(g, '-');
    assert(split(s, '-') =~= seq![t, n, i, o, u, g]);
}

proof fn lemma_no_dash(n: nat)
    ensures
        !decimal(n).contains('-'),
{
    crate::text::lemma_decimal_digits(n);
    assert forall|i: int| 0 <= i < decimal(n).len() implies decimal(n)[i] != '-' by {
        assert(crate::text::is_digit(decimal(n)[i]));
    }
}

proof fn lemma_decimal_injective(a: nat, b: nat)
    ensures
        decimal(a) == decimal(b) ==> a == b,
{
    crate::text::law_decimal_round_trip(a as int);
    crate::text::law_decimal_round_trip(b as int);
}

/// The stamp of a regular file tells whether anything about it has changed: two stamps are the same just if time, size, inode,
/// mode, owner and group all are, as long as the times' texts have no dash in them.
pub proof fn law_stamp_tells_all(a: FileMeta, b: FileMeta)
    requires
        !a.is_dir,
        !b.is_dir,
        a.mtime is Ok,
        b.mtime is Ok,
        !a.mtime->Ok_0@.contains('-'),
        !b.mtime->Ok_0@.contains('-'),
    ensures
        stamp_of(a) is Ok && stamp_of(b) is Ok,
        stamp_of(a) == stamp_of(b) <==> {
            &&& a.mtime->Ok_0@ == b.mtime->Ok_0@
            &&& a.len == b.len
            &&& a.ino == b.ino
            &&& a.mode == b.mode
            &&& a.uid == b.uid
            &&& a.gid == b.gid
        },
        stamp_of(a) != Ok::<Seq<char>, ErrorView>("0"@),
        stamp_of(a) != Ok::<Seq<char>, ErrorView>("dir"@),
{
    lemma_stamp_parts(a);
    lemma_stamp_parts(b);
    let x = split(stamp_of(a)->Ok_0, '-');
    let y = split(stamp_of(b)->Ok_0, '-');
    if stamp_of(a) == stamp_of(b) {
        assert(x[0] == y[0] && x[1] == y[1] && x[2] == y[2] && x[3] == y[3] && x[4] == y[4] && x[5] == y[5]);
        lemma_decimal_injective(a.len as nat, b.len as nat);
        lemma_decimal_injective(a.ino as nat, b.ino as nat);
        lemma_decimal_injective(a.mode as nat, b.mode as nat);
        lemma_decimal_injective(a.uid as nat, b.uid as nat);
        lemma_decimal_injective(a.gid as nat, b.gid as nat);
    }
    reveal_strlit("0");
    reveal_strlit("dir");
    lemma_split_single("0"@, '-');
    lemma_split_single("dir"@, '-');
    assert(x.len() == 6);
}

/// If the time or the size of a regular file is another, someone has edited it; if both are the same, nobody has, whatever
/// else is different.
pub proof fn law_edit_means_override(a: FileMeta, b: FileMeta)
    requires
        !a.is_dir,
        !b.is_dir,
        a.mtime is Ok,
        b.mtime is Ok,
        !a.mtime->Ok_0@.contains('-'),
        !b.mtime->Ok_0@.contains('-'),
    ensures
        overridden(stamp_of(a)->Ok_0, stamp_of(b)->Ok_0) <==> a.mtime->Ok_0@ != b.mtime->Ok_0@ || a.len != b.len,
        overridden(stamp_of(a)->Ok_0, "0"@),
        overridden(stamp_of(a)->Ok_0, "dir"@),
{
    lemma_critical_stamp(a);
    lemma_critical_stamp(b);
    lemma_decimal_injective(a.len as nat, b.len as nat);
    let x = critical(stamp_of(a)->Ok_0);
    let y = critical(stamp_of(b)->Ok_0);
    assert(x[0] == a.mtime->Ok_0@ && x[1] == decimal(a.len as nat));
    assert(y[0] == b.mtime->Ok_0@ && y[1] == decimal(b.len as nat));
    reveal_strlit("0");
    reveal_strlit("dir");
    lemma_split_single("0"@, '-');
    lemma_split_single("dir"@, '-');
    assert(x.len() == 2);
}

/// The stamp of what is not there is `0`, that of a directory is always the same, and what cannot be looked at has none. The stamp
/// of a symbolic link changes if the link does and if what it leads to does; that of anything else goes by itself alone.
pub proof fn law_stamps_of_all_kinds(link: Stat, target: Stat, other: Stat)
    ensures
        link is NotFound ==> stamp_of_seen(Observed { link, target }) == Ok::<Seq<char>, ErrorView>("0"@),
        link matches Stat::Failed(e) ==> stamp_of_seen(Observed { link, target }) is Err,
        link matches Stat::Found(m) ==> {
            &&& m.is_dir && !m.is_symlink ==> stamp_of_seen(Observed { link, target }) == Ok::<Seq<char>, ErrorView>("dir"@)
            &&& !m.is_symlink ==> stamp_of_seen(Observed { link, target }) == stamp_of_seen(Observed { link, target: other })
            &&& !m.is_symlink ==> stamp_of_seen(Observed { link, target }) == stamp_of(m)
            &&& m.is_symlink && stamp_of(m) is Ok && target is NotFound ==> stamp_of_seen(Observed { link, target }) == Ok::<
                Seq<char>,
                ErrorView,
            >(stamp_of(m)->Ok_0 + "+0"@)
            &&& m.is_symlink && stamp_of(m) is Ok ==> match (target, other) {
                (Stat::Found(a), Stat::Found(b)) => stamp_of(a) is Ok && stamp_of(b) is Ok && stamp_of(a) != stamp_of(b)
                    ==> stamp_of_seen(Observed { link, target }) != stamp_of_seen(Observed { link, target: other }),
                _ => true,
            }
        },
{
    reveal_strlit("+");
    reveal_strlit("0");
    reveal_strlit("+0");
    assert("+"@ + "0"@ =~= "+0"@);
    match (link, target, other) {
        (Stat::Found(m), Stat::NotFound, _) => {
            if stamp_of(m) is Ok {
                let p = stamp_of(m)->Ok_0;
                assert(p + "+"@ + "0"@ =~= p + "+0"@);
            }
        },
        (Stat::Found(m), Stat::Found(a), Stat::Found(b)) => {
            if stamp_of(m) is Ok && stamp_of(a) is Ok && stamp_of(b) is Ok {
                let p = stamp_of(m)->Ok_0 + "+"@;
                let x = p + stamp_of(a)->Ok_0;
                let y = p + stamp_of(b)->Ok_0;
                assert(x.skip(p.len() as int) =~= stamp_of(a)->Ok_0);
                assert(y.skip(p.len() as int) =~= stamp_of(b)->Ok_0);
            }
        },
        _ => {},
    }
}

} // verus!
