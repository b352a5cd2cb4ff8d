//! Following build logs: which lines are shown, and in which order.
//!
//! Logs are kept per target. Where the log of a target says that another one was built, the other
//! one's log is shown in its place. Reading, printing and waiting are not done here.

use std::borrow::Cow;
use vstd::prelude::*;
use vstd::string::*;
use crate::helpers::{normalized, normpath};
use crate::logs::{done_line, law_done_round_trip, parsed_done, parsed_meta, Meta, MetaView};
use crate::pathname::{join_path, parent, parent_of, pushed};
use crate::redopath::{show_bytes, shown};
use crate::text::{
    append_bytes, bytes_eq, copy_bytes, dec_i64, dec_u64, decimal, decimal_int, from_chars,
    lemma_decimal_digits, parse_usize, parsed_nat, str_eq, to_chars, trim_end, trim_end_of, trimmed,
    trimmed_of, views,
};

verus! {

/// Digits with a comma before every third one, counted from the end.
pub open spec fn grouped(digits: Seq<char>) -> Seq<char>
    decreases digits.len(),
{
    if digits.len() <= 3 {
        digits
    } else {
        grouped(digits.take(digits.len() - 3)).push(',') + digits.skip(digits.len() - 3)
    }
}

/// Format an integer with thousands separators.
pub fn format_thousands(n: u64) -> (r: String)
    ensures
        r@ == grouped(decimal(n as nat)),
        r@.len() <= 2 * decimal(n as nat).len(),
{
    let d = to_chars(dec_u64(n).as_str());
    let total: usize = d.len();
    let mut i: usize = if total % 3 == 0 {
        0
    } else {
        total % 3
    };
    let mut out = from_chars(vstd::slice::slice_subrange(d.as_slice(), 0, i));
    proof {
        lemma_decimal_digits(n as nat);
        assert(d@.subrange(0, i as int) =~= d@.take(i as int));
    }
    assert(out@ =~= grouped(d@.take(i as int)));
    assert((total - i) % 3 == 0);
    while i < total
        invariant
            total == d.len(),
            i <= total,
            (total - i) % 3 == 0,
            out@ == grouped(d@.take(i as int)),
            out@.len() <= 2 * i,
        decreases total - i,
    {
        let ghost head = d@.take(i as int);
        let ghost next = d@.take(i + 3);
        let ghost before = out@;
        if i > 0 {
            out.push(',');
        }
        out.push(d[i]);
        out.push(d[i + 1]);
        out.push(d[i + 2]);
        proof {
            assert(next.take(next.len() - 3) =~= head);
            assert(next.skip(next.len() - 3) =~= seq![d@[i as int], d@[i + 1], d@[i + 2]]);
            if i > 0 {
                assert(out@ =~= before.push(',') + seq![d@[i as int], d@[i + 1], d@[i + 2]]);
            } else {
                assert(head =~= seq![]);
                assert(before =~= seq![]);
                assert(out@ =~= next);
            }
        }
        i = i + 3;
    }
    assert(d@.take(i as int) =~= d@);
    out
}

/// Without its commas, a number with thousands separators is the number in decimal.
pub proof fn law_thousands_without_commas(n: nat)
    ensures
        grouped(decimal(n)).filter(|c: char| c != ',') == decimal(n),
{
    lemma_decimal_digits(n);
    let d = decimal(n);
    assert forall|i: int| 0 <= i < d.len() implies d[i] != ',' by {
        assert(crate::text::is_digit(d[i]));
    }
    lemma_grouped_filter(d);
}

proof fn lemma_filter_keeps(s: Seq<char>)
    requires
        forall|i: int| 0 <= i < s.len() ==> s[i] != ',',
    ensures
        s.filter(|c: char| c != ',') == s,
    decreases s.len(),
{
    reveal(Seq::filter);
    if s.len() > 0 {
        lemma_filter_keeps(s.drop_last());
        assert(s.drop_last().push(s.last()) =~= s);
    } else {
        assert(s.filter(|c: char| c != ',') =~= s);
    }
}

proof fn lemma_grouped_filter(d: Seq<char>)
    requires
        forall|i: int| 0 <= i < d.len() ==> d[i] != ',',
    ensures
        grouped(d).filter(|c: char| c != ',') == d,
    decreases d.len(),
{
    let p = |c: char| c != ',';
    if d.len() <= 3 {
        lemma_filter_keeps(d);
    } else {
        let head = d.take(d.len() - 3);
        let tail = d.skip(d.len() - 3);
        lemma_grouped_filter(head);
        lemma_filter_keeps(tail);
        let g = grouped(head);
        Seq::filter_distributes_over_add(g.push(','), tail, p);
        g.lemma_filter_push(',', p);
        assert(head + tail =~= d);
    }
}

/// The width of a terminal, from its size or else from the value of `WIDTH`.
pub fn tty_width(size: Option<usize>, var: Option<&str>) -> (r: usize)
    ensures
        r == match size {
            Some(w) => w as int,
            None => match var {
                Some(s) => match parsed_nat(s@) {
                    Some(n) if n <= usize::MAX => n as int,
                    _ => 70,
                },
                None => 70,
            },
        },
{
    match size {
        Some(w) => w,
        None => match var {
            None => 70,
            Some(s) => {
                let c = to_chars(s);
                match parse_usize(c.as_slice()) {
                    Some(n) => n,
                    None => 70,
                }
            },
        },
    }
}

/// What the user asked for.
#[derive(Clone, Copy, Debug)]
pub struct CatOptions {
    /// Show build logs for dependencies too.
    pub recursive: bool,
    /// Show lines for dependencies not needing to be rebuilt.
    pub unchanged: bool,
    /// Keep watching for more lines to be appended.
    pub follow: bool,
    /// Show what targets print, not only what redo says about them.
    pub details: bool,
    /// Show messages about file locking.
    pub debug_locks: bool,
}

/// What has been shown so far.
#[derive(Debug)]
pub struct LogState {
    already: Vec<Vec<u8>>,
    depth: Vec<Vec<u8>>,
    total_lines: u64,
    status: Vec<u8>,
}

/// What has been shown so far.
pub struct LogStateView {
    /// The targets that have been shown or announced.
    pub already: Set<Seq<u8>>,
    /// The targets whose logs are being shown, each within the one before.
    pub depth: Seq<Seq<u8>>,
    /// How many lines have been read.
    pub total_lines: nat,
    /// The status line on the screen, empty if there is none.
    pub status: Seq<u8>,
}

impl View for LogState {
    type V = LogStateView;

    closed spec fn view(&self) -> LogStateView {
        LogStateView {
            already: views(self.already@).to_set(),
            depth: views(self.depth@),
            total_lines: self.total_lines as nat,
            status: self.status@,
        }
    }
}

/// The log of one target.
#[derive(Debug)]
pub struct Frame {
    target: Vec<u8>,
    mydir: Vec<u8>,
    lines_written: u64,
    interrupted: u64,
    line_head: String,
    delay: u64,
    was_locked: bool,
}

/// The log of one target.
pub struct FrameView {
    /// The target, `-` for what comes from standard input.
    pub target: Seq<u8>,
    /// The directory of the target.
    pub mydir: Seq<u8>,
    /// How many lines have been written.
    pub lines_written: nat,
    /// How many lines about other targets have been written since this one last said something.
    pub interrupted: nat,
    /// The beginning of a line that has not ended yet.
    pub line_head: Seq<char>,
    /// How long to wait for more, in milliseconds.
    pub delay: nat,
    /// Whether the target was still being built when that was last looked at.
    pub was_locked: bool,
}

impl View for Frame {
    type V = FrameView;

    closed spec fn view(&self) -> FrameView {
        FrameView {
            target: self.target@,
            mydir: self.mydir@,
            lines_written: self.lines_written as nat,
            interrupted: self.interrupted as nat,
            line_head: self.line_head@,
            delay: self.delay as nat,
            was_locked: self.was_locked,
        }
    }
}

/// The name of standard input.
pub open spec fn stdin_name() -> Seq<u8> {
    seq![0x2du8]
}

/// The directory that a target's log is relative to.
pub open spec fn dir_of(t: Seq<u8>) -> Seq<u8> {
    match parent_of(t) {
        Some(d) => d,
        None => seq![],
    }
}

fn is_stdin(t: &[u8]) -> (r: bool)
    ensures
        r == (t@ == stdin_name()),
{
    let r = t.len() == 1 && t[0] == 0x2d;
    assert(r ==> t@ =~= stdin_name());
    assert(t@ == stdin_name() ==> t@.len() == 1 && t@[0] == 0x2d);
    r
}

fn contains_name(v: &Vec<Vec<u8>>, name: &[u8]) -> (r: bool)
    ensures
        r == views(v@).to_set().contains(name@),
{
    let mut i: usize = 0;
    while i < v.len()
        invariant
            i <= v.len(),
            forall|k: int| 0 <= k < i ==> views(v@)[k] != name@,
        decreases v.len() - i,
    {
        assert(views(v@)[i as int] == v@[i as int]@);
        if bytes_eq(v[i].as_slice(), name) {
            assert(views(v@).contains(name@));
            return true;
        }
        i = i + 1;
    }
    assert(!views(v@).contains(name@));
    false
}

fn push_name(v: &mut Vec<Vec<u8>>, name: Vec<u8>)
    ensures
        views(final(v)@) == views(old(v)@).push(name@),
        views(final(v)@).to_set() == views(old(v)@).to_set().insert(name@),
{
    let ghost before = v@;
    v.push(name);
    proof {
        assert(views(v@) =~= views(before).push(name@));
        views(before).lemma_push_to_set_commute(name@);
    }
}

/// What the log of a target looks like before anything has been read.
pub open spec fn new_frame(t: Seq<u8>) -> FrameView {
    FrameView {
        target: t,
        mydir: dir_of(t),
        lines_written: 0,
        interrupted: 0,
        line_head: seq![],
        delay: 10,
        was_locked: false,
    }
}

/// What has been shown once the log of a target is begun; nothing if it was shown or announced before.
pub open spec fn opened(v: LogStateView, t: Seq<u8>) -> Option<LogStateView> {
    if v.already.contains(t) {
        None
    } else {
        Some(
            LogStateView {
                already: v.already.insert(t),
                depth: if t == stdin_name() {
                    v.depth
                } else {
                    v.depth.push(t)
                },
                ..v
            },
        )
    }
}

/// What has been shown once the log of a target is ended.
pub open spec fn ended(v: LogStateView, t: Seq<u8>) -> LogStateView {
    LogStateView {
        depth: if t == stdin_name() {
            v.depth
        } else {
            v.depth.drop_last()
        },
        ..v
    }
}

impl LogState {
    /// Nothing has been shown yet.
    pub fn new() -> (r: LogState)
        ensures
            r@ == (LogStateView {
                already: Set::empty(),
                depth: seq![],
                total_lines: 0,
                status: seq![],
            }),
    {
        let r = LogState { already: Vec::new(), depth: Vec::new(), total_lines: 0, status: Vec::new() };
        assert(views(r.already@) =~= Seq::empty());
        assert(views(r.already@).to_set() =~= Set::empty());
        assert(views(r.depth@) =~= seq![]);
        assert(r.status@ =~= seq![]);
        r
    }

    /// Begins with the log of a target, unless it has been shown or announced already.
    pub fn open(&mut self, t: &[u8]) -> (r: Option<Frame>)
        ensures
            match opened(old(self)@, t@) {
                None => r is None && final(self)@ == old(self)@,
                Some(v) => r matches Some(f) && f@ == new_frame(t@) && final(self)@ == v,
            },
    {
        if contains_name(&self.already, t) {
            return None;
        }
        push_name(&mut self.already, copy_bytes(t));
        if !is_stdin(t) {
            push_name(&mut self.depth, copy_bytes(t));
        }
        let mydir = match parent(t) {
            Some(d) => copy_bytes(d),
            None => Vec::new(),
        };
        assert(mydir@ =~= dir_of(t@));
        let line_head = String::new();
        assert(line_head@ =~= seq![]);
        Some(
            Frame {
                target: copy_bytes(t),
                mydir,
                lines_written: 0,
                interrupted: 0,
                line_head,
                delay: 10,
                was_locked: false,
            },
        )
    }

    /// How far lines are indented: two spaces for each log that is being shown.
    pub fn indent(&self) -> (r: usize)
        requires
            2 * self@.depth.len() <= usize::MAX,
        ensures
            r == 2 * self@.depth.len(),
    {
        assert(views(self.depth@).len() == self.depth@.len());
        self.depth.len() * 2
    }
}

/// How many lines can be counted.
pub proof fn lemma_total_lines(s: &LogState)
    ensures
        s@.total_lines <= u64::MAX,
{
}

/// How the status line starts.
pub open spec fn status_head(total_lines: nat) -> Seq<u8> {
    vstd::utf8::encode_utf8("redo "@ + grouped(decimal(total_lines)) + " "@)
}

/// The names of targets in a status line of the given width, innermost last: as many as there is room
/// for, and a few dots for the others.
pub open spec fn status_tail(depth: Seq<Seq<u8>>, tail: Seq<u8>, head_len: int, width: int) -> Seq<u8>
    decreases depth.len(),
{
    if depth.len() == 0 {
        tail
    } else {
        let n = depth.last();
        let remain = width - head_len - tail.len();
        if remain < n.len() + 5 || remain <= 4 {
            // always leave room for a final '... ' prefix
            if n.len() < 6 || remain < 11 {
                "... ".spec_bytes() + tail
            } else {
                "...".spec_bytes() + n.skip(n.len() - (remain - 4)) + " ".spec_bytes() + tail
            }
        } else if n != stdin_name() {
            status_tail(depth.drop_last(), n + " ".spec_bytes() + tail, head_len, width)
        } else {
            status_tail(depth.drop_last(), tail, head_len, width)
        }
    }
}

/// A status line of the given width.
pub open spec fn status_line(v: LogStateView, width: int) -> Seq<u8> {
    let head = status_head(v.total_lines);
    head + status_tail(v.depth, seq![], head.len() as int, width)
}

/// How many bytes a status line needs at least: room for how it starts, and for a few dots if there is any name to show.
pub open spec fn room_for(v: LogStateView) -> nat {
    status_head(v.total_lines).len() + if v.depth.len() == 0 {
        0nat
    } else {
        4
    }
}

proof fn lemma_dots()
    ensures
        "... ".spec_bytes().len() == 4,
        "...".spec_bytes().len() == 3,
        " ".spec_bytes().len() == 1,
{
    reveal_strlit("... ");
    reveal_strlit("...");
    reveal_strlit(" ");
    assert(is_ascii("... "));
    assert(is_ascii("..."));
    assert(is_ascii(" "));
    is_ascii_spec_bytes("... ");
    is_ascii_spec_bytes("...");
    is_ascii_spec_bytes(" ");
}

/// A status line never takes more than the width it was made for, if there is room for how it starts and
/// for a few dots.
pub proof fn law_status_fits(v: LogStateView, width: int)
    requires
        room_for(v) <= width,
    ensures
        status_line(v, width).len() <= width,
{
    if v.depth.len() > 0 {
        lemma_status_tail(v.depth, seq![], status_head(v.total_lines).len() as int, width);
    }
}

proof fn lemma_status_tail(depth: Seq<Seq<u8>>, tail: Seq<u8>, head_len: int, width: int)
    requires
        head_len + tail.len() + 4 <= width,
    ensures
        head_len + status_tail(depth, tail, head_len, width).len() <= width,
    decreases depth.len(),
{
    lemma_dots();
    if depth.len() > 0 {
        let n = depth.last();
        let remain = width - head_len - tail.len();
        if !(remain < n.len() + 5 || remain <= 4) {
            if n != stdin_name() {
                lemma_status_tail(depth.drop_last(), n + " ".spec_bytes() + tail, head_len, width);
            } else {
                lemma_status_tail(depth.drop_last(), tail, head_len, width);
            }
        }
    }
}

/// What to do when there is nothing more to read at the moment.
#[derive(Debug)]
pub struct Poll {
    /// Whether a status line is shown.
    pub show_status: bool,
    /// How long to wait, in milliseconds.
    pub sleep: u64,
}

impl LogState {
    /// The status line on the screen, empty if there is none.
    pub fn status(&self) -> (r: &[u8])
        ensures
            r@ == self@.status,
    {
        self.status.as_slice()
    }

    /// How many bytes a status line needs at least.
    pub fn status_room(&self) -> (r: usize)
        ensures
            r == room_for(self@),
    {
        let h = self.head();
        assert(views(self.depth@).len() == self.depth@.len());
        if self.depth.len() == 0 {
            h.len()
        } else {
            h.len() + 4
        }
    }

    fn head(&self) -> (r: Vec<u8>)
        ensures
            r@ == status_head(self@.total_lines),
            r@.len() <= 1000,
    {
        let mut s = "redo ".to_owned();
        s.append(format_thousands(self.total_lines).as_str());
        s.append(" ");
        let r = copy_bytes(s.as_str().as_bytes());
        proof {
            lemma_head_len(self@.total_lines, r@);
        }
        r
    }

    /// Makes a new status line of the given width.
    pub fn set_status(&mut self, width: usize)
        requires
            room_for(old(self)@) <= width,
        ensures
            final(self)@ == (LogStateView { status: status_line(old(self)@, width as int), ..old(self)@ }),
            final(self)@.status.len() <= width,
    {
        let ghost before = self@;
        let head = self.head();
        let mut tail: Vec<u8> = Vec::new();
        let mut i: usize = self.depth.len();
        let ghost all = views(self.depth@);
        let ghost goal = status_tail(all, seq![], head@.len() as int, width as int);
        assert(tail@ =~= seq![]);
        assert(all.take(i as int) =~= all);
        let mut done = false;
        while i > 0 && !done
            invariant
                i <= self.depth.len(),
                self@ == before,
                all == views(self.depth@),
                head@.len() + tail@.len() <= width,
                !done && i > 0 ==> head@.len() + tail@.len() + 4 <= width,
                !done ==> goal == status_tail(all.take(i as int), tail@, head@.len() as int, width as int),
                done ==> goal == tail@,
            decreases i,
        {
            proof {
                lemma_dots();
                assert(all.take(i as int).last() == self.depth@[i - 1]@);
                assert(all.take(i as int).drop_last() =~= all.take(i - 1));
            }
            let n = self.depth[i - 1].as_slice();
            let remain: usize = width - head.len() - tail.len();
            // always leave room for a final '... ' prefix
            if remain <= 4 || remain - 5 < n.len() {
                let mut t: Vec<u8> = Vec::new();
                if n.len() < 6 || remain < 11 {
                    append_bytes(&mut t, "... ".as_bytes());
                    append_bytes(&mut t, tail.as_slice());
                    assert(t@ =~= "... ".spec_bytes() + tail@);
                } else {
                    let start: usize = n.len() - (remain - 4);
                    let end = vstd::slice::slice_subrange(n, start, n.len());
                    append_bytes(&mut t, "...".as_bytes());
                    append_bytes(&mut t, end);
                    append_bytes(&mut t, " ".as_bytes());
                    append_bytes(&mut t, tail.as_slice());
                    assert(t@ =~= "...".spec_bytes() + n@.skip(n@.len() - (remain - 4)) + " ".spec_bytes() + tail@);
                }
                tail = t;
                done = true;
            } else if !is_stdin(n) {
                let mut t = copy_bytes(n);
                append_bytes(&mut t, " ".as_bytes());
                append_bytes(&mut t, tail.as_slice());
                tail = t;
            }
            i = i - 1;
        }
        proof {
            if !done {
                assert(all.take(0) =~= seq![]);
            }
        }
        let mut status = head;
        append_bytes(&mut status, tail.as_slice());
        self.status = status;
    }

    /// Takes the status line off the screen. Reports whether there was one.
    pub fn clear_status(&mut self) -> (r: bool)
        ensures
            r == (old(self)@.status.len() > 0),
            final(self)@ == (LogStateView { status: seq![], ..old(self)@ }),
    {
        let r = self.status.len() > 0;
        self.status = Vec::new();
        assert(self.status@ =~= seq![]);
        r
    }
}

proof fn lemma_head_len(n: nat, h: Seq<u8>)
    requires
        n <= u64::MAX,
        h == status_head(n),
    ensures
        h.len() <= 1000,
{
    reveal_strlit("redo ");
    reveal_strlit(" ");
    lemma_grouped_ascii(n);
    assert(n < tens(20)) by {
        reveal_with_fuel(tens, 21);
    }
    lemma_decimal_short(n, 20);
    let t = "redo "@ + grouped(decimal(n)) + " "@;
    lemma_grouped_len(decimal(n));
    assert(vstd::utf8::is_ascii_chars(t)) by {
        assert forall|i: int| 0 <= i < t.len() implies '\0' <= #[trigger] t[i] <= '\u{7f}' by {
            if i >= 5 && i < 5 + grouped(decimal(n)).len() {
                assert(t[i] == grouped(decimal(n))[i - 5]);
            }
        }
    }
    vstd::utf8::is_ascii_chars_encode_utf8(t);
}

proof fn lemma_grouped_len(d: Seq<char>)
    ensures
        grouped(d).len() <= 2 * d.len(),
    decreases d.len(),
{
    if d.len() > 3 {
        lemma_grouped_len(d.take(d.len() - 3));
    }
}

proof fn lemma_grouped_ascii(n: nat)
    ensures
        forall|i: int| 0 <= i < grouped(decimal(n)).len() ==> '\0' <= #[trigger] grouped(decimal(n))[i] <= '\u{7f}',
{
    lemma_decimal_digits(n);
    let d = decimal(n);
    assert forall|i: int| 0 <= i < d.len() implies '\0' <= #[trigger] d[i] <= '\u{7f}' by {
        assert(crate::text::is_digit(d[i]));
    }
    lemma_grouped_chars(d);
}

proof fn lemma_grouped_chars(d: Seq<char>)
    requires
        forall|i: int| 0 <= i < d.len() ==> '\0' <= #[trigger] d[i] <= '\u{7f}',
    ensures
        forall|i: int| 0 <= i < grouped(d).len() ==> '\0' <= #[trigger] grouped(d)[i] <= '\u{7f}',
    decreases d.len(),
{
    if d.len() > 3 {
        let head = d.take(d.len() - 3);
        let tail = d.skip(d.len() - 3);
        assert forall|i: int| 0 <= i < head.len() implies '\0' <= #[trigger] head[i] <= '\u{7f}' by {
            assert(head[i] == d[i]);
        }
        lemma_grouped_chars(head);
        let g = grouped(d);
        assert forall|i: int| 0 <= i < g.len() implies '\0' <= #[trigger] g[i] <= '\u{7f}' by {
            let n = grouped(head).len();
            if i < n {
                assert(g[i] == grouped(head)[i]);
            } else if i > n {
                assert(g[i] == d[d.len() - 3 + (i - n - 1)]);
            }
        }
    }
}

/// A power of ten.
spec fn tens(k: nat) -> nat
    decreases k,
{
    if k == 0 {
        1
    } else {
        10 * tens((k - 1) as nat)
    }
}

/// How many digits a number below a power of ten has at most.
proof fn lemma_decimal_short(n: nat, k: nat)
    requires
        k > 0,
        n < tens(k),
    ensures
        decimal(n).len() <= k,
    decreases k,
{
    if n >= 10 {
        if k == 1 {
            assert(tens(0) == 1);
        } else {
            lemma_decimal_short(n / 10, (k - 1) as nat);
        }
    }
}

/// Something that is written to the log's output.
#[derive(Debug)]
pub enum Out {
    /// A structured log-line, by the given process or by this one.
    Meta { kind: String, text: String, pid: Option<i32> },
    /// A line as it is.
    Line(String),
    /// The target whose log is being shown goes on; this is said two spaces further left.
    Resumed(String),
}

/// What is written to the log's output.
pub enum OutView {
    Meta { kind: Seq<char>, text: Seq<char>, pid: Option<int> },
    Line(Seq<char>),
    Resumed(Seq<char>),
}

impl View for Out {
    type V = OutView;

    open spec fn view(&self) -> OutView {
        match self {
            Out::Meta { kind, text, pid } => OutView::Meta {
                kind: kind@,
                text: text@,
                pid: match pid {
                    Some(p) => Some(*p as int),
                    None => None,
                },
            },
            Out::Line(l) => OutView::Line(l@),
            Out::Resumed(t) => OutView::Resumed(t@),
        }
    }
}

/// What is written, in order.
pub open spec fn out_views(v: Seq<Out>) -> Seq<OutView> {
    v.map_values(|o: Out| o@)
}

/// What becomes of something that was read.
#[derive(Debug)]
pub enum Read {
    /// There is nothing more to come.
    Finished,
    /// There may be more to come: look whether the target is still being built, and wait.
    Wait,
    /// Only the beginning of a line is there yet.
    Partial,
    /// A whole line, with the line feed at its end.
    Line(String),
}

/// What becomes of something that was read.
pub enum ReadView {
    Finished,
    Wait,
    Partial,
    Line(Seq<char>),
}

impl View for Read {
    type V = ReadView;

    open spec fn view(&self) -> ReadView {
        match self {
            Read::Finished => ReadView::Finished,
            Read::Wait => ReadView::Wait,
            Read::Partial => ReadView::Partial,
            Read::Line(l) => ReadView::Line(l@),
        }
    }
}

/// What becomes of something that was read, and the log then. At the end of what is there, a log that is followed may have
/// more to come as long as the target is being built.
pub open spec fn taken_in(f: FrameView, follow: bool, line: Seq<char>) -> (ReadView, FrameView) {
    let whole = f.line_head + line;
    if line.len() == 0 {
        (if follow && f.was_locked { ReadView::Wait } else { ReadView::Finished }, f)
    } else if line.last() != '\n' {
        (ReadView::Partial, FrameView { delay: 10, line_head: whole, ..f })
    } else {
        (ReadView::Line(whole), FrameView { delay: 10, line_head: seq![], ..f })
    }
}

/// The log once it has been looked whether the target is still being built: the next wait is a little longer, up to a second.
pub open spec fn polled(f: FrameView, locked: bool) -> FrameView {
    FrameView {
        was_locked: locked,
        delay: if f.delay < 1000 {
            f.delay + 10
        } else {
            f.delay
        },
        ..f
    }
}

/// What is written of a line that is not structured, and the log then.
pub open spec fn plain_step(f: FrameView, opts: CatOptions, line: Seq<char>) -> (Seq<OutView>, FrameView) {
    if !opts.details {
        (seq![], f)
    } else {
        (
            (if f.interrupted != 0 {
                seq![OutView::Resumed(shown(f.target))]
            } else {
                seq![]
            }) + seq![OutView::Line(trimmed(line))],
            FrameView { interrupted: 0, lines_written: f.lines_written + 1, ..f },
        )
    }
}

impl Frame {
    /// The target whose log this is.
    pub fn target(&self) -> (r: &[u8])
        ensures
            r@ == self@.target,
    {
        self.target.as_slice()
    }

    /// Notes whether the target is being built, at the beginning.
    pub fn set_locked(&mut self, locked: bool)
        ensures
            final(self)@ == (FrameView { was_locked: locked, ..old(self)@ }),
    {
        self.was_locked = locked;
    }

    /// Takes in what was read next, nothing at the end of what is there.
    ///
    /// Normally a line includes its line feed. When a log is followed, a line might come without one
    /// (eg. when a program is halfway through a test).
    pub fn read(&mut self, state: &mut LogState, opts: &CatOptions, line: String) -> (r: Read)
        requires
            line@.len() > 0 ==> old(state)@.total_lines < u64::MAX,
        ensures
            (r@, final(self)@) == taken_in(old(self)@, opts.follow, line@),
            final(state)@ == if line@.len() == 0 {
                old(state)@
            } else {
                LogStateView { total_lines: old(state)@.total_lines + 1, ..old(state)@ }
            },
    {
        let n: usize = line.as_str().unicode_len();
        if n == 0 {
            // file not locked, and no new lines: done
            if opts.follow && self.was_locked {
                return Read::Wait;
            }
            return Read::Finished;
        }
        state.total_lines = state.total_lines + 1;
        self.delay = 10;
        let ended = line.as_str().get_char(n - 1) == '\n';
        self.line_head.append(line.as_str());
        if !ended {
            return Read::Partial;
        }
        let whole = self.line_head.clone();
        let none = String::new();
        assert(none@ =~= seq![]);
        self.line_head = none;
        Read::Line(whole)
    }

    /// What to do while there is nothing more to read, given whether the target is still being built
    /// and whether the log has been followed for more than a second: the status line is not shown for
    /// extremely short-lived runs.
    pub fn poll(&mut self, locked: bool, status_wanted: bool, over_a_second: bool) -> (r: Poll)
        ensures
            final(self)@ == polled(old(self)@, locked),
            r.show_status == (status_wanted && over_a_second),
            r.sleep == if old(self)@.delay < 1000 { old(self)@.delay } else { 1000 },
    {
        self.was_locked = locked;
        let sleep: u64 = if self.delay < 1000 {
            self.delay
        } else {
            1000
        };
        if self.delay < 1000 {
            self.delay = self.delay + 10;
        }
        Poll { show_status: status_wanted && over_a_second, sleep }
    }
}

/// The structured log-line that a line stands for, if it is one.
pub fn line_meta(line: &str) -> (r: Option<Meta>)
    ensures
        match parsed_meta(trimmed_of(line@, '\n')) {
            Ok(m) => r matches Some(g) && g@ == m,
            Err(_) => r is None,
        },
{
    match Meta::parse(trim_end_of(line, '\n').as_str()) {
        Ok(m) => Some(m),
        Err(_) => None,
    }
}

/// Whether a kind of line says that something happens to a target.
pub open spec fn is_job_kind(kind: Seq<char>) -> bool {
    kind == "do"@ || kind == "waiting"@ || kind == "locked"@ || kind == "unlocked"@
}

/// What is done about a structured log-line.
pub struct MetaStepView {
    /// What is written at once.
    pub out: Seq<OutView>,
    /// The target whose log is shown then.
    pub recurse: Option<Seq<u8>>,
    /// The target that counts as announced after that.
    pub remember: Option<Seq<u8>>,
    /// How many lines have been written about other targets.
    pub interrupted: nat,
    /// How many lines have been written.
    pub written: nat,
}

/// What is done about a structured log-line.
#[derive(Debug)]
pub struct MetaStep {
    pub out: Vec<Out>,
    pub recurse: Option<Vec<u8>>,
    pub remember: Option<Vec<u8>>,
}

/// The bytes of an optional path.
pub open spec fn opt_bytes(v: Option<Vec<u8>>) -> Option<Seq<u8>> {
    match v {
        Some(b) => Some(b@),
        None => None,
    }
}

/// The announcement of a target.
pub open spec fn announce(kind: Seq<char>, name: Seq<char>, m: MetaView) -> OutView {
    OutView::Meta { kind, text: name, pid: Some(m.pid) }
}

/// What is done about a structured log-line. `relname` is the name in it as seen from here; for
/// a line of kind `done`, that is the name behind the exit code.
pub open spec fn meta_step(
    already: Set<Seq<u8>>,
    opts: CatOptions,
    mydir: Seq<u8>,
    m: MetaView,
    line: Seq<char>,
    relname: Seq<char>,
) -> MetaStepView {
    let path = pushed(mydir, vstd::utf8::encode_utf8(m.text));
    let fixname = normalized(path);
    let known = already.contains(fixname);
    let recurse = if opts.recursive {
        Some(path)
    } else {
        None
    };
    if m.kind == "unchanged"@ {
        if opts.unchanged {
            MetaStepView {
                out: if opts.debug_locks {
                    seq![announce(m.kind, relname, m)]
                } else if !known {
                    seq![announce("do"@, relname, m)]
                } else {
                    seq![]
                },
                recurse,
                remember: Some(fixname),
                interrupted: 0,
                written: 0,
            }
        } else {
            MetaStepView { out: seq![], recurse: None, remember: None, interrupted: 0, written: 0 }
        }
    } else if is_job_kind(m.kind) {
        let n: nat = if opts.debug_locks || !known {
            1
        } else {
            0
        };
        MetaStepView {
            out: if opts.debug_locks {
                seq![announce(m.kind, relname, m), OutView::Line(trimmed(line))]
            } else if !known {
                seq![announce("do"@, relname, m)]
            } else {
                seq![]
            },
            recurse,
            remember: Some(fixname),
            interrupted: n,
            written: n,
        }
    } else if m.kind == "done"@ {
        MetaStepView {
            out: seq![
                OutView::Meta {
                    kind: m.kind,
                    text: done_line(parsed_done(m.text).unwrap().0, relname),
                    pid: None,
                },
            ],
            recurse: None,
            remember: None,
            interrupted: 0,
            written: 1,
        }
    } else {
        MetaStepView { out: seq![OutView::Line(trimmed(line))], recurse: None, remember: None, interrupted: 0, written: 1 }
    }
}

impl Frame {
    /// The path that a name in the log stands for, before it is expressed as seen from the current directory.
    pub fn full_path(&self, top: &[u8], name: &str) -> (r: Vec<u8>)
        ensures
            r@ == pushed(pushed(top@, self@.mydir), name.spec_bytes()),
    {
        join_path(join_path(top, self.mydir.as_slice()).as_slice(), name.as_bytes())
    }

    /// What is done about a structured log-line. The output is written first, then the other log is
    /// shown, and [`settle`](Frame::settle) takes note of it.
    pub fn on_meta(&mut self, state: &LogState, opts: &CatOptions, m: &Meta, line: &str, relname: &str) -> (r: MetaStep)
        requires
            old(self)@.lines_written < u64::MAX,
            old(self)@.interrupted < u64::MAX,
            m@.kind == "done"@ ==> parsed_done(m@.text) is Some,
        ensures
            ({
                let s = meta_step(state@.already, *opts, old(self)@.mydir, m@, line@, relname@);
                &&& out_views(r.out@) == s.out
                &&& opt_bytes(r.recurse) == s.recurse
                &&& opt_bytes(r.remember) == s.remember
                &&& final(self)@ == (FrameView {
                    interrupted: old(self)@.interrupted + s.interrupted,
                    lines_written: old(self)@.lines_written + s.written,
                    ..old(self)@
                })
            }),
    {
        let ghost s = meta_step(state@.already, *opts, self@.mydir, m@, line@, relname@);
        let path = join_path(self.mydir.as_slice(), m.text().as_bytes());
        let fixname = match normpath(path.as_slice()) {
            Cow::Borrowed(b) => copy_bytes(b),
            Cow::Owned(v) => v,
        };
        let known = contains_name(&state.already, fixname.as_slice());
        let kind = m.kind();
        let mut out: Vec<Out> = Vec::new();
        assert(out_views(out@) =~= seq![]);
        let recurse = if opts.recursive {
            Some(copy_bytes(path.as_slice()))
        } else {
            None
        };
        if str_eq(kind, "unchanged") {
            if !opts.unchanged {
                return MetaStep { out, recurse: None, remember: None };
            }
            if opts.debug_locks {
                out.push(Out::Meta { kind: kind.to_owned(), text: relname.to_owned(), pid: Some(m.pid()) });
                assert(out_views(out@) =~= s.out);
            } else if !known {
                out.push(Out::Meta { kind: "do".to_owned(), text: relname.to_owned(), pid: Some(m.pid()) });
                assert(out_views(out@) =~= s.out);
            }
            MetaStep { out, recurse, remember: Some(fixname) }
        } else if str_eq(kind, "do") || str_eq(kind, "waiting") || str_eq(kind, "locked") || str_eq(kind, "unlocked") {
            if opts.debug_locks {
                out.push(Out::Meta { kind: kind.to_owned(), text: relname.to_owned(), pid: Some(m.pid()) });
                out.push(Out::Line(trim_end(line)));
                self.interrupted = self.interrupted + 1;
                self.lines_written = self.lines_written + 1;
                assert(out_views(out@) =~= s.out);
            } else if !known {
                out.push(Out::Meta { kind: "do".to_owned(), text: relname.to_owned(), pid: Some(m.pid()) });
                self.interrupted = self.interrupted + 1;
                self.lines_written = self.lines_written + 1;
                assert(out_views(out@) =~= s.out);
            }
            MetaStep { out, recurse, remember: Some(fixname) }
        } else if str_eq(kind, "done") {
            let (rv, _) = m.done_text().unwrap();
            let mut text = dec_i64(rv as i64);
            text.append(" ");
            text.append(relname);
            out.push(Out::Meta { kind: kind.to_owned(), text, pid: None });
            assert(out_views(out@) =~= s.out);
            self.lines_written = self.lines_written + 1;
            MetaStep { out, recurse: None, remember: None }
        } else {
            out.push(Out::Line(trim_end(line)));
            assert(out_views(out@) =~= s.out);
            self.lines_written = self.lines_written + 1;
            MetaStep { out, recurse: None, remember: None }
        }
    }

    /// Takes note of what came after a structured log-line: how many lines the other log had, if it was
    /// shown, and which target counts as announced now.
    pub fn settle(&mut self, state: &mut LogState, got: u64, remember: Option<Vec<u8>>)
        requires
            old(self)@.lines_written + got <= u64::MAX,
            old(self)@.interrupted + got <= u64::MAX,
        ensures
            final(self)@ == (FrameView {
                lines_written: old(self)@.lines_written + got as nat,
                interrupted: old(self)@.interrupted + got as nat,
                ..old(self)@
            }),
            final(state)@ == match remember {
                Some(name) => LogStateView { already: old(state)@.already.insert(name@), ..old(state)@ },
                None => old(state)@,
            },
    {
        self.lines_written = self.lines_written + got;
        self.interrupted = self.interrupted + got;
        match remember {
            Some(name) => {
                let ghost before = views(state.already@).to_set();
                let ghost n = name@;
                if contains_name(&state.already, name.as_slice()) {
                    assert(before.insert(n) =~= before);
                } else {
                    push_name(&mut state.already, name);
                }
            },
            None => {},
        }
    }

    /// What is written of a line that is not structured. Where lines about other targets have come
    /// in between, it is said first that this one goes on.
    pub fn on_plain(&mut self, opts: &CatOptions, line: &str) -> (r: Vec<Out>)
        requires
            opts.details ==> old(self)@.lines_written < u64::MAX,
        ensures
            (out_views(r@), final(self)@) == plain_step(old(self)@, *opts, line@),
    {
        let mut out: Vec<Out> = Vec::new();
        if !opts.details {
            assert(out_views(out@) =~= Seq::<OutView>::empty());
            return out;
        }
        if self.interrupted != 0 {
            out.push(Out::Resumed(show_bytes(self.target.as_slice())));
            self.interrupted = 0;
        }
        let ghost before = out@;
        out.push(Out::Line(trim_end(line)));
        self.lines_written = self.lines_written + 1;
        proof {
            if before.len() > 0 {
                assert(out_views(out@) =~= seq![OutView::Resumed(shown(self@.target))] + seq![
                    OutView::Line(trimmed(line@)),
                ]);
            } else {
                assert(out_views(out@) =~= seq![] + seq![OutView::Line(trimmed(line@))]);
            }
        }
        out
    }

    /// Ends the log of a target: gives how many lines were written, and the beginning of a last line that never
    /// ended.
    pub fn close(self, state: &mut LogState) -> (r: (u64, String))
        requires
            self@.target != stdin_name() ==> old(state)@.depth.len() > 0 && old(state)@.depth.last() == self@.target,
        ensures
            r.0 == self@.lines_written,
            r.1@ == self@.line_head,
            final(state)@ == ended(old(state)@, self@.target),
    {
        if !is_stdin(self.target.as_slice()) {
            let ghost before = state.depth@;
            assert(views(before).len() == before.len());
            let _ = state.depth.pop();
            assert(views(state.depth@) =~= views(before).drop_last());
        }
        (self.lines_written, self.line_head)
    }
}

/// No log is shown twice: once a target's log has been opened, it is never opened again, as long as what has
/// been announced is not forgotten.
pub proof fn law_shown_once(before: LogStateView, t: Seq<u8>, later: LogStateView)
    requires
        opened(before, t) matches Some(after) && after.already.subset_of(later.already),
    ensures
        opened(later, t) is None,
{
    assert(opened(before, t).unwrap().already.contains(t));
}

/// Closing a log leads back to the logs that were being shown before it was opened.
pub proof fn law_open_close_depth(before: LogStateView, t: Seq<u8>)
    ensures
        opened(before, t) matches Some(after) ==> ended(after, t).depth == before.depth,
{
    assert(before.depth.push(t).drop_last() =~= before.depth);
}

/// Counted from the end, every fourth character of a number with thousands separators is a comma. The others are its digits, in order.
pub proof fn law_where_the_commas_are(d: Seq<char>, k: int)
    requires
        d.len() > 0,
    ensures
        grouped(d).len() == d.len() + (d.len() - 1) / 3,
        0 <= k < grouped(d).len() ==> grouped(d)[grouped(d).len() - 1 - k] == if k % 4 == 3 {
            ','
        } else {
            d[d.len() - 1 - (k - k / 4)]
        },
    decreases d.len(),
{
    if d.len() > 3 {
        let head = d.take(d.len() - 3);
        let tail = d.skip(d.len() - 3);
        law_where_the_commas_are(head, k - 4);
        let g = grouped(head);
        assert(grouped(d) == g.push(',') + tail);
        if k >= 4 {
            assert((k - 4) % 4 == k % 4);
            assert((k - 4) / 4 == k / 4 - 1);
        }
    }
}

/// At the end of what is there, a log has ended, unless it is followed and its target is still being built. What has no line feed at its
/// end is kept until the rest of the line is there: a line that comes in two parts is the same as one that comes whole.
pub proof fn law_lines_are_put_together(f: FrameView, follow: bool, a: Seq<char>, b: Seq<char>)
    requires
        a.len() > 0,
        a.last() != '\n',
        b.len() > 0,
        b.last() == '\n',
    ensures
        taken_in(f, follow, seq![]).1 == f,
        taken_in(f, follow, seq![]).0 is Wait <==> follow && f.was_locked,
        taken_in(f, follow, seq![]).0 is Finished <==> !(follow && f.was_locked),
        taken_in(f, follow, a).0 is Partial,
        taken_in(f, follow, a).1.line_head == f.line_head + a,
        taken_in(taken_in(f, follow, a).1, follow, b) == taken_in(f, follow, a + b),
        taken_in(f, follow, b).0 == ReadView::Line(f.line_head + b),
        taken_in(f, follow, b).1 == (FrameView { delay: 10, line_head: seq![], ..f }),
{
    assert(f.line_head + a + b =~= f.line_head + (a + b));
    assert((a + b).last() == b.last());
}

/// Each time there is nothing to read, the next wait is ten milliseconds longer, until it is a second. What counts is whether the target
/// is being built now.
pub proof fn law_waits_get_longer(f: FrameView, locked: bool)
    ensures
        polled(f, locked).was_locked == locked,
        f.delay < 1000 ==> polled(f, locked).delay == f.delay + 10,
        f.delay >= 1000 ==> polled(f, locked).delay == f.delay,
        polled(f, locked) == (FrameView { was_locked: locked, delay: polled(f, locked).delay, ..f }),
{
}

/// What a target prints is shown if the user wants that, without white space at its end. If lines about other targets came between, it is
/// said first that the target goes on.
pub proof fn law_what_targets_print(f: FrameView, opts: CatOptions, line: Seq<char>)
    ensures
        ({
            let (out, g) = plain_step(f, opts, line);
            &&& !opts.details ==> out.len() == 0 && g == f
            &&& opts.details ==> {
                &&& out.last() == OutView::Line(trimmed(line))
                &&& f.interrupted == 0 ==> out.len() == 1
                &&& f.interrupted > 0 ==> out.len() == 2 && out[0] == OutView::Resumed(shown(f.target))
                &&& g == (FrameView { interrupted: 0, lines_written: f.lines_written + 1, ..f })
            }
        }),
{
}

/// The log of a target is begun just if it was neither shown nor announced. It counts as shown then, and is the innermost one, but
/// standard input has no name. Nothing of it has been read.
pub proof fn law_logs_are_begun(v: LogStateView, t: Seq<u8>)
    ensures
        opened(v, t) is None <==> v.already.contains(t),
        opened(v, t) matches Some(w) ==> {
            &&& w.already == v.already.insert(t)
            &&& t == "-".spec_bytes() ==> w.depth == v.depth
            &&& t != "-".spec_bytes() ==> w.depth.len() == v.depth.len() + 1 && w.depth.last() == t && w.depth.drop_last()
                == v.depth
            &&& w.total_lines == v.total_lines && w.status == v.status
        },
        new_frame(t).target == t,
        new_frame(t).lines_written == 0 && new_frame(t).interrupted == 0 && new_frame(t).line_head.len() == 0,
        new_frame(t).delay == 10 && !new_frame(t).was_locked,
        t != "-".spec_bytes() && v.depth.len() > 0 ==> ended(v, t).depth.len() == v.depth.len() - 1,
        ended(v, t).already == v.already && ended(v, t).total_lines == v.total_lines,
{
    reveal_strlit("-");
    assert(is_ascii("-"));
    is_ascii_spec_bytes("-");
    assert("-".spec_bytes() =~= seq![0x2du8]);
    assert(v.depth.push(t).drop_last() =~= v.depth);
}

/// The names of targets one after the other, a space behind each.
pub open spec fn in_a_row(depth: Seq<Seq<u8>>) -> Seq<u8>
    decreases depth.len(),
{
    if depth.len() == 0 {
        seq![]
    } else {
        in_a_row(depth.drop_last()) + depth.last() + " ".spec_bytes()
    }
}

/// A status line names all targets whose logs are being shown, outermost first, if there is room for them and a few dots. Otherwise it
/// begins the names with dots, and shows the last part of them.
pub proof fn law_names_in_status_line(v: LogStateView, width: int)
    requires
        forall|i: int| 0 <= i < v.depth.len() ==> #[trigger] v.depth[i] != "-".spec_bytes(),
    ensures
        ({
            let head = vstd::utf8::encode_utf8("redo "@ + grouped(decimal(v.total_lines)) + " "@);
            let line = status_line(v, width);
            let all = in_a_row(v.depth);
            &&& line.len() >= head.len() && line.take(head.len() as int) == head
            &&& head.len() + all.len() + 4 <= width || v.depth.len() == 0 ==> line == head + all
            &&& head.len() + all.len() + 4 > width && v.depth.len() > 0 ==> {
                let names = line.skip(head.len() as int);
                &&& names.len() >= 4 && names.take(3) == "...".spec_bytes()
                &&& names.skip(3).is_suffix_of(all) || names.skip(4).is_suffix_of(all)
            }
        }),
{
    let head = status_head(v.total_lines);
    reveal_strlit("-");
    assert(is_ascii("-"));
    is_ascii_spec_bytes("-");
    assert("-".spec_bytes() =~= stdin_name());
    lemma_names(v.depth, seq![], head.len() as int, width);
    let all = in_a_row(v.depth);
    assert(all + seq![] =~= all);
    let tail = status_tail(v.depth, seq![], head.len() as int, width);
    assert((head + tail).take(head.len() as int) =~= head);
    assert((head + tail).skip(head.len() as int) =~= tail);
}

proof fn lemma_names(depth: Seq<Seq<u8>>, tail: Seq<u8>, head_len: int, width: int)
    requires
        forall|i: int| 0 <= i < depth.len() ==> #[trigger] depth[i] != stdin_name(),
    ensures
        ({
            let r = status_tail(depth, tail, head_len, width);
            let all = in_a_row(depth) + tail;
            &&& head_len + all.len() + 4 <= width || depth.len() == 0 ==> r == all
            &&& head_len + all.len() + 4 > width && depth.len() > 0 ==> {
                &&& r.len() >= 4 && r.take(3) == "...".spec_bytes()
                &&& r.skip(3).is_suffix_of(all) || r.skip(4).is_suffix_of(all)
            }
        }),
    decreases depth.len(),
{
    lemma_dots();
    if depth.len() == 0 {
        assert(in_a_row(depth) + tail =~= tail);
    } else {
        let n = depth.last();
        let init = depth.drop_last();
        let all = in_a_row(depth) + tail;
        let longer = n + " ".spec_bytes() + tail;
        assert(in_a_row(init) + longer =~= all);
        let remain = width - head_len - tail.len();
        if remain < n.len() + 5 || remain <= 4 {
            let r = status_tail(depth, tail, head_len, width);
            assert(all.len() >= n.len() + 1 + tail.len());
            if n.len() < 6 || remain < 11 {
                reveal_strlit("... ");
                reveal_strlit("...");
                is_ascii_spec_bytes("... ");
                is_ascii_spec_bytes("...");
                assert(r == "... ".spec_bytes() + tail);
                assert(r.take(3) =~= "...".spec_bytes());
                assert(r.skip(4) =~= tail);
                assert(tail =~= all.skip(all.len() - tail.len()));
            } else {
                let part = n.skip(n.len() - (remain - 4));
                assert(r.take(3) =~= "...".spec_bytes());
                assert(r.skip(3) =~= part + " ".spec_bytes() + tail);
                assert(r.skip(3) =~= all.skip(all.len() - r.skip(3).len()));
            }
        } else {
            assert forall|i: int| 0 <= i < init.len() implies #[trigger] init[i] != stdin_name() by {
                assert(init[i] == depth[i]);
            }
            assert(depth[depth.len() - 1] != stdin_name());
            lemma_names(init, longer, head_len, width);
            if init.len() == 0 {
                assert(in_a_row(init) + longer =~= longer);
            }
        }
    }
}

/// A line says of a target that it is built, locked, waited for or unlocked. Its log is shown within this one if the user wants that, and
/// only after it has been announced. It is announced once, unless the user wants to see all about locks; it counts as announced from then
/// on.
pub proof fn law_jobs_are_announced(
    already: Set<Seq<u8>>,
    opts: CatOptions,
    mydir: Seq<u8>,
    m: MetaView,
    line: Seq<char>,
    relname: Seq<char>,
)
    requires
        m.kind == "do"@ || m.kind == "waiting"@ || m.kind == "locked"@ || m.kind == "unlocked"@,
    ensures
        ({
            let s = meta_step(already, opts, mydir, m, line, relname);
            let path = pushed(mydir, vstd::utf8::encode_utf8(m.text));
            let known = already.contains(normalized(path));
            &&& s.recurse == if opts.recursive { Some(path) } else { None }
            &&& s.remember == Some(normalized(path))
            &&& !opts.debug_locks && known ==> s.out.len() == 0 && s.written == 0 && s.interrupted == 0
            &&& !opts.debug_locks && !known ==> s.out == seq![
                OutView::Meta { kind: "do"@, text: relname, pid: Some(m.pid) },
            ] && s.written == 1 && s.interrupted == 1
            &&& opts.debug_locks ==> s.out == seq![
                OutView::Meta { kind: m.kind, text: relname, pid: Some(m.pid) },
                OutView::Line(trimmed(line)),
            ] && s.written == 1 && s.interrupted == 1
        }),
{
    reveal_strlit("do");
    reveal_strlit("waiting");
    reveal_strlit("locked");
    reveal_strlit("unlocked");
    reveal_strlit("unchanged");
    assert("do"@.len() == 2 && "waiting"@.len() == 7 && "locked"@.len() == 6 && "unlocked"@.len() == 8);
    assert("unchanged"@.len() == 9);
}

/// A target that has not changed is passed over, unless the user wants to see those too. Then it is announced as one that is built, once.
pub proof fn law_unchanged_targets_are_announced(
    already: Set<Seq<u8>>,
    opts: CatOptions,
    mydir: Seq<u8>,
    m: MetaView,
    line: Seq<char>,
    relname: Seq<char>,
)
    requires
        m.kind == "unchanged"@,
    ensures
        ({
            let s = meta_step(already, opts, mydir, m, line, relname);
            let path = pushed(mydir, vstd::utf8::encode_utf8(m.text));
            let known = already.contains(normalized(path));
            &&& s.written == 0 && s.interrupted == 0
            &&& !opts.unchanged ==> s.out.len() == 0 && s.recurse is None && s.remember is None
            &&& opts.unchanged ==> {
                &&& s.recurse == if opts.recursive { Some(path) } else { None }
                &&& s.remember == Some(normalized(path))
                &&& opts.debug_locks ==> s.out == seq![
                    OutView::Meta { kind: "unchanged"@, text: relname, pid: Some(m.pid) },
                ]
                &&& !opts.debug_locks && !known ==> s.out == seq![
                    OutView::Meta { kind: "do"@, text: relname, pid: Some(m.pid) },
                ]
                &&& !opts.debug_locks && known ==> s.out.len() == 0
            }
        }),
{
}

/// The end of a job is said with its exit code and the name of its target as seen from here. Any other line is shown as it is. Neither
/// shows another log.
pub proof fn law_other_lines_are_passed_on(
    already: Set<Seq<u8>>,
    opts: CatOptions,
    mydir: Seq<u8>,
    m: MetaView,
    line: Seq<char>,
    relname: Seq<char>,
    rv: i32,
    name: Seq<char>,
)
    requires
        m.kind != "unchanged"@ && m.kind != "do"@ && m.kind != "waiting"@ && m.kind != "locked"@ && m.kind != "unlocked"@,
    ensures
        ({
            let s = meta_step(already, opts, mydir, m, line, relname);
            &&& s.recurse is None && s.remember is None && s.interrupted == 0 && s.written == 1 && s.out.len() == 1
            &&& m.kind == "done"@ && m.text == decimal_int(rv as int) + " "@ + name ==> s.out[0] == (OutView::Meta {
                kind: "done"@,
                text: decimal_int(rv as int) + " "@ + relname,
                pid: None,
            })
            &&& m.kind != "done"@ ==> s.out[0] == OutView::Line(trimmed(line))
        }),
{
    law_done_round_trip(rv, name);
}

/// There is room for a status line if it can show how it starts, and a few dots if there is any name to show.
pub proof fn law_room_for_status(v: LogStateView)
    ensures
        room_for(v) == vstd::utf8::encode_utf8("redo "@ + grouped(decimal(v.total_lines)) + " "@).len() + (if v.depth.len() > 0 {
            4nat
        } else {
            0nat
        }),
{
}

} // verus!
