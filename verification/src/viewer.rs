//! Showing build logs, step by step.
//!
//! A [`Viewer`] decides what happens next; whoever runs it reads, prints, locks and waits, and reports
//! what came of it.

use vstd::prelude::*;
use crate::logcat::{
    ended, is_job_kind, lemma_total_lines, line_meta, meta_step, new_frame, opened, opt_bytes, out_views,
    plain_step, polled, room_for, status_line, stdin_name, taken_in, CatOptions, Frame, FrameView, LogState,
    LogStateView, Out, OutView, Read, ReadView,
};
use crate::logs::{law_done_round_trip, lemma_index_without, parsed_done, parsed_meta, Meta, MetaView};
use crate::pathname::pushed;
use crate::text::{copy_bytes, decimal_int, str_eq, trimmed_of};

verus! {

/// Why the showing of logs cannot go on.
#[derive(Clone, Copy, Debug, Eq, PartialEq, Structural)]
pub enum Stop {
    /// A line about the end of a job is malformed.
    BadDone,
    /// A line about a target names none.
    Nameless,
    /// There is no room for a status line.
    NoRoom,
}

/// What is to be done next.
#[derive(Debug)]
pub enum Action {
    /// Begin with the log of this target: lock the log, so that nobody cheats while it is being watched, and see whether
    /// the target is being built. A target `-` stands for standard input, which is neither locked nor built.
    Open(Vec<u8>),
    /// Read the next line of the innermost log.
    Read,
    /// See whether the target of the innermost log is still being built, how long it has taken, and how wide the
    /// screen is.
    Look,
    /// Wait for so many milliseconds, after showing the status line if there is a new one.
    Wait { show_status: bool, sleep: u64 },
    /// Express this path as seen from here, after clearing the status line if there is one.
    Name { clear: bool, path: Vec<u8> },
    /// Write this, after clearing the status line if there is one.
    Write { clear: bool, out: Vec<Out> },
    /// Unlock the innermost log, for as long as another one is shown.
    Leave,
    /// Lock the innermost log again.
    Return,
    /// Unlock and close the innermost log, clear the status line if there is one, and print the beginning of
    /// a last line that never ended.
    Close { clear: bool, tail: String },
    /// There is nothing left to do.
    Finish,
    /// It is not possible to go on.
    Stop(Stop),
}

/// What is to be done next.
pub enum ActionView {
    Open(Seq<u8>),
    Read,
    Look,
    Wait { show_status: bool, sleep: u64 },
    Name { clear: bool, path: Seq<u8> },
    Write { clear: bool, out: Seq<OutView> },
    Leave,
    Return,
    Close { clear: bool, tail: Seq<char> },
    Finish,
    Stop(Stop),
}

impl View for Action {
    type V = ActionView;

    open spec fn view(&self) -> ActionView {
        match self {
            Action::Open(t) => ActionView::Open(t@),
            Action::Read => ActionView::Read,
            Action::Look => ActionView::Look,
            Action::Wait { show_status, sleep } => ActionView::Wait { show_status: *show_status, sleep: *sleep },
            Action::Name { clear, path } => ActionView::Name { clear: *clear, path: path@ },
            Action::Write { clear, out } => ActionView::Write { clear: *clear, out: out_views(out@) },
            Action::Leave => ActionView::Leave,
            Action::Return => ActionView::Return,
            Action::Close { clear, tail } => ActionView::Close { clear: *clear, tail: tail@ },
            Action::Finish => ActionView::Finish,
            Action::Stop(s) => ActionView::Stop(*s),
        }
    }
}

/// What has happened.
#[derive(Debug)]
pub enum Event {
    /// What was to be done has been done.
    Done,
    /// A log has been opened; whether its target is being built.
    Opened { locked: bool },
    /// What was read: nothing at the end of what is there.
    Line(String),
    /// Whether the target is still being built, whether more than a second has passed, and how wide the screen is.
    Looked { locked: bool, over_a_second: bool, width: usize },
    /// What a path is called, as seen from here.
    Name(String),
}

/// What has happened.
pub enum EventView {
    Done,
    Opened { locked: bool },
    Line(Seq<char>),
    Looked { locked: bool, over_a_second: bool, width: usize },
    Name(Seq<char>),
}

impl View for Event {
    type V = EventView;

    open spec fn view(&self) -> EventView {
        match self {
            Event::Done => EventView::Done,
            Event::Opened { locked } => EventView::Opened { locked: *locked },
            Event::Line(l) => EventView::Line(l@),
            Event::Looked { locked, over_a_second, width } => EventView::Looked {
                locked: *locked,
                over_a_second: *over_a_second,
                width: *width,
            },
            Event::Name(n) => EventView::Name(n@),
        }
    }
}

/// What is being waited for.
#[derive(Clone, Copy, Debug, Eq, PartialEq, Structural)]
pub enum Phase {
    Idle,
    Opening,
    Reading,
    Looking,
    Waiting,
    Naming,
    Writing,
    Leaving,
    Closing,
    Returning,
}

/// A log that is being shown, and the target that counts as announced once the log within it has been shown.
#[derive(Debug)]
pub struct Level {
    frame: Frame,
    remember: Option<Vec<u8>>,
}

/// A log that is being shown, and the target that counts as announced once the log within it has been shown.
pub struct LevelView {
    pub frame: FrameView,
    pub remember: Option<Seq<u8>>,
}

impl View for Level {
    type V = LevelView;

    closed spec fn view(&self) -> LevelView {
        LevelView { frame: self.frame@, remember: opt_bytes(self.remember) }
    }
}

/// The levels that are being shown.
pub open spec fn level_views(v: Seq<Level>) -> Seq<LevelView> {
    v.map_values(|l: Level| l@)
}

/// Shows logs: each log within the one that speaks of its target.
#[derive(Debug)]
pub struct Viewer {
    top: Vec<u8>,
    opts: CatOptions,
    status: bool,
    state: LogState,
    levels: Vec<Level>,
    meta: Option<(Meta, String)>,
    next: Option<Vec<u8>>,
    got: u64,
    phase: Phase,
}

/// How far the showing of logs has come.
pub struct ViewerView {
    /// The current directory.
    pub top: Seq<u8>,
    /// What the user asked for.
    pub opts: CatOptions,
    /// Whether a status line is wanted.
    pub status: bool,
    /// What has been shown.
    pub log: LogStateView,
    /// The logs that are being shown, each within the one before.
    pub levels: Seq<LevelView>,
    /// A structured log-line whose target is being named, and the whole line.
    pub meta: Option<(MetaView, Seq<char>)>,
    /// The target whose log is shown next.
    pub next: Option<Seq<u8>>,
    /// How many lines the log had that was closed last.
    pub got: nat,
    pub phase: Phase,
}

/// A structured log-line with its text.
pub open spec fn meta_view(m: Option<(Meta, String)>) -> Option<(MetaView, Seq<char>)> {
    match m {
        Some((g, l)) => Some((g@, l@)),
        None => None,
    }
}

impl View for Viewer {
    type V = ViewerView;

    closed spec fn view(&self) -> ViewerView {
        ViewerView {
            top: self.top@,
            opts: self.opts,
            status: self.status,
            log: self.state@,
            levels: level_views(self.levels@),
            meta: meta_view(self.meta),
            next: opt_bytes(self.next),
            got: self.got as nat,
            phase: self.phase,
        }
    }
}

/// Whether an event can happen in a phase.
pub open spec fn expected(phase: Phase, e: EventView) -> bool {
    match phase {
        Phase::Idle => false,
        Phase::Opening => e is Opened,
        Phase::Reading => e is Line,
        Phase::Looking => e is Looked,
        Phase::Naming => e is Name,
        _ => e is Done,
    }
}

/// The targets of logs that are being shown, standard input left aside.
pub open spec fn named(levels: Seq<LevelView>) -> Seq<Seq<u8>>
    decreases levels.len(),
{
    if levels.len() == 0 {
        seq![]
    } else {
        let t = levels.last().frame.target;
        if t == stdin_name() {
            named(levels.drop_last())
        } else {
            named(levels.drop_last()).push(t)
        }
    }
}

/// How many lines have been written of the logs that are being shown.
pub open spec fn written(levels: Seq<LevelView>) -> nat
    decreases levels.len(),
{
    if levels.len() == 0 {
        0
    } else {
        written(levels.drop_last()) + levels.last().frame.lines_written
    }
}

impl ViewerView {
    /// The innermost log.
    pub open spec fn inner(self) -> FrameView {
        self.levels.last().frame
    }

    /// The same with another innermost log.
    pub open spec fn with_inner(self, f: FrameView) -> ViewerView {
        ViewerView {
            levels: self.levels.drop_last().push(LevelView { frame: f, remember: self.levels.last().remember }),
            ..self
        }
    }

    /// What holds at all times: the logs that are being shown are those of the targets in the status line; no more
    /// lines are written than are read; and there is whatever the phase speaks of.
    pub open spec fn ok(self) -> bool {
        &&& self.log.depth == named(self.levels)
        &&& written(self.levels) + self.got <= self.log.total_lines
        &&& forall|i: int| 0 <= i < self.levels.len() ==> (#[trigger] self.levels[i]).frame.interrupted
            <= self.levels[i].frame.lines_written
        &&& !(self.phase is Idle || self.phase is Closing) ==> self.levels.len() > 0
        &&& self.phase is Naming <==> self.meta is Some
        &&& self.meta matches Some((m, l)) ==> (m.kind == "done"@ ==> parsed_done(m.text) is Some)
        &&& self.phase is Naming ==> written(self.levels) + self.got < self.log.total_lines
        &&& self.phase is Leaving ==> self.next is Some
        &&& !(self.phase is Closing || self.phase is Returning) ==> self.got == 0
    }
}

/// The name in a structured log-line: in one of kind `done`, that behind the exit code.
pub open spec fn name_in(m: MetaView) -> Option<Seq<char>> {
    if m.kind == "done"@ {
        match parsed_done(m.text) {
            Some((rv, name)) => Some(name),
            None => None,
        }
    } else {
        Some(m.text)
    }
}

/// What is done when the innermost log has ended.
pub open spec fn closed(v: ViewerView) -> (ActionView, ViewerView) {
    (
        ActionView::Close { clear: v.log.status.len() > 0, tail: v.inner().line_head },
        ViewerView {
            log: ended(LogStateView { status: seq![], ..v.log }, v.inner().target),
            levels: v.levels.drop_last(),
            got: v.inner().lines_written,
            phase: Phase::Closing,
            ..v
        },
    )
}

/// What is done about a whole line.
pub open spec fn about_line(v: ViewerView, line: Seq<char>) -> (ActionView, ViewerView) {
    let clear = v.log.status.len() > 0;
    let w = ViewerView { log: LogStateView { status: seq![], ..v.log }, ..v };
    match parsed_meta(trimmed_of(line, '\n')) {
        Err(_) => {
            let (out, f) = plain_step(v.inner(), v.opts, line);
            (ActionView::Write { clear, out }, ViewerView { next: None, phase: Phase::Writing, ..w.with_inner(f) })
        },
        Ok(m) => match name_in(m) {
            None => (ActionView::Stop(Stop::BadDone), ViewerView { phase: Phase::Reading, ..w }),
            Some(n) => (
                ActionView::Name { clear, path: pushed(pushed(v.top, v.inner().mydir), vstd::utf8::encode_utf8(n)) },
                ViewerView { meta: Some((m, line)), phase: Phase::Naming, ..w },
            ),
        },
    }
}

/// What is done about something that was read.
pub open spec fn about_read(v: ViewerView, line: Seq<char>) -> (ActionView, ViewerView) {
    let (r, f) = taken_in(v.inner(), v.opts.follow, line);
    let read = ViewerView {
        log: LogStateView {
            total_lines: v.log.total_lines + if line.len() == 0 {
                0nat
            } else {
                1
            },
            ..v.log
        },
        ..v.with_inner(f)
    };
    match r {
        ReadView::Finished => closed(read),
        ReadView::Partial => (ActionView::Read, read),
        ReadView::Wait => (ActionView::Look, ViewerView { phase: Phase::Looking, ..read }),
        ReadView::Line(l) => about_line(read, l),
    }
}

/// What is done while there is nothing more to read.
pub open spec fn about_look(v: ViewerView, locked: bool, over_a_second: bool, width: usize) -> (ActionView, ViewerView) {
    let f = v.inner();
    let w = v.with_inner(polled(f, locked));
    let sleep = if f.delay < 1000 {
        f.delay as u64
    } else {
        1000
    };
    if v.status && over_a_second {
        if width < room_for(v.log) {
            (ActionView::Stop(Stop::NoRoom), w)
        } else {
            (
                ActionView::Wait { show_status: true, sleep },
                ViewerView {
                    log: LogStateView { status: status_line(v.log, width as int), ..v.log },
                    phase: Phase::Waiting,
                    ..w
                },
            )
        }
    } else {
        (ActionView::Wait { show_status: false, sleep }, ViewerView { phase: Phase::Waiting, ..w })
    }
}

/// What is done about a structured log-line once its target has been named.
pub open spec fn about_name(v: ViewerView, relname: Seq<char>) -> (ActionView, ViewerView) {
    let (m, line) = v.meta.unwrap();
    let f = v.inner();
    let s = meta_step(v.log.already, v.opts, f.mydir, m, line, relname);
    let g = FrameView {
        interrupted: f.interrupted + s.interrupted,
        lines_written: f.lines_written + s.written,
        ..f
    };
    if is_job_kind(m.kind) && v.opts.recursive && m.text.len() == 0 {
        (ActionView::Stop(Stop::Nameless), ViewerView { meta: None, phase: Phase::Reading, ..v })
    } else {
        (
            ActionView::Write { clear: false, out: s.out },
            ViewerView {
                levels: v.levels.drop_last().push(LevelView { frame: g, remember: s.remember }),
                meta: None,
                next: s.recurse,
                phase: Phase::Writing,
                ..v
            },
        )
    }
}

/// Takes note of the log that was shown within the innermost one, and goes on with that.
pub open spec fn settled(v: ViewerView) -> (ActionView, ViewerView) {
    let f = v.inner();
    let g = FrameView { lines_written: f.lines_written + v.got, interrupted: f.interrupted + v.got, ..f };
    (
        ActionView::Read,
        ViewerView {
            log: match v.levels.last().remember {
                Some(name) => LogStateView { already: v.log.already.insert(name), ..v.log },
                None => v.log,
            },
            levels: v.levels.drop_last().push(LevelView { frame: g, remember: None }),
            got: 0,
            phase: Phase::Reading,
            ..v
        },
    )
}

/// Begins with a log, unless it has been shown or announced already.
pub open spec fn begun(v: ViewerView, t: Seq<u8>) -> Option<(ActionView, ViewerView)> {
    match opened(v.log, t) {
        None => None,
        Some(log) => Some(
            (
                ActionView::Open(t),
                ViewerView {
                    log,
                    levels: v.levels.push(LevelView { frame: new_frame(t), remember: None }),
                    next: None,
                    phase: Phase::Opening,
                    ..v
                },
            ),
        ),
    }
}

/// What is done when something has happened, and how far the showing of logs has come then.
pub open spec fn view_step(v: ViewerView, e: EventView) -> (ActionView, ViewerView) {
    match v.phase {
        Phase::Idle => (ActionView::Finish, v),
        Phase::Opening => (
            ActionView::Read,
            ViewerView { phase: Phase::Reading, ..v.with_inner(FrameView { was_locked: e->Opened_locked, ..v.inner() }) },
        ),
        Phase::Reading => about_read(v, e->Line_0),
        Phase::Looking => about_look(v, e->Looked_locked, e->over_a_second, e->width),
        Phase::Waiting => (ActionView::Read, ViewerView { phase: Phase::Reading, ..v }),
        Phase::Naming => about_name(v, e->Name_0),
        Phase::Writing => match v.next {
            Some(_) => (ActionView::Leave, ViewerView { phase: Phase::Leaving, ..v }),
            None => settled(v),
        },
        Phase::Leaving => match begun(v, v.next.unwrap()) {
            Some(r) => r,
            None => (ActionView::Return, ViewerView { next: None, phase: Phase::Returning, ..v }),
        },
        Phase::Closing => if v.levels.len() == 0 {
            (ActionView::Finish, ViewerView { got: 0, phase: Phase::Idle, ..v })
        } else {
            (ActionView::Return, ViewerView { phase: Phase::Returning, ..v })
        },
        Phase::Returning => settled(v),
    }
}

proof fn lemma_inner(levels: Seq<LevelView>, l: LevelView)
    requires
        levels.len() > 0,
        l.frame.target == levels.last().frame.target,
    ensures
        named(levels.drop_last().push(l)) == named(levels),
        written(levels.drop_last().push(l)) + levels.last().frame.lines_written == written(levels)
            + l.frame.lines_written,
{
    assert(levels.drop_last().push(l).drop_last() =~= levels.drop_last());
}

proof fn lemma_new_level(levels: Seq<LevelView>, l: LevelView)
    ensures
        named(levels.push(l)) == if l.frame.target == stdin_name() {
            named(levels)
        } else {
            named(levels).push(l.frame.target)
        },
        written(levels.push(l)) == written(levels) + l.frame.lines_written,
{
    assert(levels.push(l).drop_last() =~= levels);
}

/// Beginning with a log keeps what holds at all times.
pub proof fn law_begin_keeps_ok(v: ViewerView, t: Seq<u8>)
    requires
        v.ok(),
        v.phase is Idle || v.phase is Leaving,
    ensures
        begun(v, t) matches Some(r) ==> r.1.ok(),
{
    lemma_new_level(v.levels, LevelView { frame: new_frame(t), remember: None });
}

/// Every step keeps what holds of the showing of logs at all times: in particular, the status line names the targets whose
/// logs are being shown, and no more lines are written than were read.
pub proof fn law_view_step_keeps_ok(v: ViewerView, e: EventView)
    requires
        v.ok(),
        expected(v.phase, e),
    ensures
        view_step(v, e).1.ok(),
{
    let (_, w) = view_step(v, e);
    let f = v.inner();
    match v.phase {
        Phase::Opening => {
            let l = LevelView { frame: FrameView { was_locked: e->Opened_locked, ..f }, remember: v.levels.last().remember };
            lemma_inner(v.levels, l);
        },
        Phase::Reading => {
            lemma_read_keeps_ok(v, e->Line_0);
        },
        Phase::Looking => {
            let l = LevelView { frame: polled(f, e->Looked_locked), remember: v.levels.last().remember };
            lemma_inner(v.levels, l);
        },
        Phase::Naming => {
            let (m, line) = v.meta.unwrap();
            let s = meta_step(v.log.already, v.opts, f.mydir, m, line, e->Name_0);
            let g = FrameView {
                interrupted: f.interrupted + s.interrupted,
                lines_written: f.lines_written + s.written,
                ..f
            };
            lemma_inner(v.levels, LevelView { frame: g, remember: s.remember });
            assert(s.interrupted <= s.written <= 1);
        },
        Phase::Writing | Phase::Returning => {
            let g = FrameView { lines_written: f.lines_written + v.got, interrupted: f.interrupted + v.got, ..f };
            lemma_inner(v.levels, LevelView { frame: g, remember: None });
        },
        Phase::Leaving => {
            law_begin_keeps_ok(v, v.next.unwrap());
        },
        _ => {},
    }
}

proof fn lemma_read_keeps_ok(v: ViewerView, line: Seq<char>)
    requires
        v.ok(),
        v.phase is Reading,
    ensures
        about_read(v, line).1.ok(),
{
    let rem = v.levels.last().remember;
    let (r, f) = taken_in(v.inner(), v.opts.follow, line);
    lemma_inner(v.levels, LevelView { frame: f, remember: rem });
    let levels = v.with_inner(f).levels;
    match r {
        ReadView::Finished => {
            assert(levels.drop_last() =~= v.levels.drop_last());
            if f.target != stdin_name() {
                assert(named(levels).drop_last() =~= named(levels.drop_last()));
            }
        },
        ReadView::Line(l) => {
            let g = plain_step(f, v.opts, l).1;
            lemma_inner(levels, LevelView { frame: g, remember: rem });
        },
        _ => {},
    }
}

/// What has been announced or shown is never forgotten.
pub proof fn law_announced_stays(v: ViewerView, e: EventView)
    ensures
        v.log.already.subset_of(view_step(v, e).1.log.already),
{
}

/// No log is opened twice: one that is opened has never been shown or announced before, and counts as shown from then on.
pub proof fn law_opened_once(v: ViewerView, e: EventView, t: Seq<u8>)
    requires
        view_step(v, e).0 == ActionView::Open(t),
    ensures
        !v.log.already.contains(t),
        view_step(v, e).1.log.already.contains(t),
{
}

/// Every line of a log that is not structured is written at once, if the user wants such lines.
pub proof fn law_plain_lines_are_written(v: ViewerView, line: Seq<char>)
    requires
        v.phase is Reading,
        v.opts.details,
        line.len() > 0,
        line.last() == '\n',
        parsed_meta(trimmed_of(v.inner().line_head + line, '\n')) is Err,
    ensures
        view_step(v, EventView::Line(line)).0 matches ActionView::Write { clear, out } && out.len() > 0 && out.last()
            == OutView::Line(crate::text::trimmed(v.inner().line_head + line)),
{
}

impl Viewer {
    /// Nothing has been shown yet. `top` is the current directory.
    pub fn new(top: Vec<u8>, opts: CatOptions, status: bool) -> (r: Viewer)
        ensures
            r@ == (ViewerView {
                top: top@,
                opts,
                status,
                log: LogStateView { already: Set::empty(), depth: seq![], total_lines: 0, status: seq![] },
                levels: seq![],
                meta: None,
                next: None,
                got: 0,
                phase: Phase::Idle,
            }),
            r@.ok(),
    {
        let r = Viewer {
            top,
            opts,
            status,
            state: LogState::new(),
            levels: Vec::new(),
            meta: None,
            next: None,
            got: 0,
            phase: Phase::Idle,
        };
        assert(level_views(r.levels@) =~= seq![]);
        r
    }

    /// How far lines are indented.
    pub fn indent(&self) -> (r: usize)
        requires
            2 * self@.log.depth.len() <= usize::MAX,
        ensures
            r == 2 * self@.log.depth.len(),
    {
        self.state.indent()
    }

    /// The status line on the screen, empty if there is none.
    pub fn status(&self) -> (r: &[u8])
        ensures
            r@ == self@.log.status,
    {
        self.state.status()
    }

    /// The target of the innermost log, if any log is being shown.
    pub fn target(&self) -> (r: Option<&[u8]>)
        ensures
            match r {
                Some(t) => self@.levels.len() > 0 && t@ == self@.inner().target,
                None => self@.levels.len() == 0,
            },
    {
        let n: usize = self.levels.len();
        assert(level_views(self.levels@).len() == n);
        if n == 0 {
            None
        } else {
            assert(level_views(self.levels@)[n - 1] == self.levels@[n - 1]@);
            Some(self.levels[n - 1].frame.target())
        }
    }

    /// Begins with the log of a target. If it has been shown already there is nothing to do.
    pub fn begin(&mut self, t: &[u8]) -> (r: Option<Action>)
        requires
            old(self)@.ok(),
            old(self)@.phase is Idle,
        ensures
            match begun(old(self)@, t@) {
                None => r is None && final(self)@ == old(self)@,
                Some((a, v)) => r matches Some(x) && x@ == a && final(self)@ == v,
            },
            final(self)@.ok(),
    {
        let ghost v = self@;
        proof {
            law_begin_keeps_ok(v, t@);
        }
        match self.state.open(t) {
            None => None,
            Some(frame) => {
                let ghost before = self.levels@;
                self.levels.push(Level { frame, remember: None });
                assert(level_views(self.levels@) =~= level_views(before).push(self.levels@.last()@));
                self.next = None;
                self.phase = Phase::Opening;
                Some(Action::Open(copy_bytes(t)))
            },
        }
    }

    /// Takes the innermost log out.
    fn take_level(&mut self) -> (r: Level)
        requires
            old(self)@.levels.len() > 0,
        ensures
            r@ == old(self)@.levels.last(),
            final(self)@ == (ViewerView { levels: old(self)@.levels.drop_last(), ..old(self)@ }),
    {
        let ghost before = self.levels@;
        assert(level_views(before).len() == before.len());
        let l = self.levels.pop().unwrap();
        assert(level_views(self.levels@) =~= level_views(before).drop_last());
        l
    }

    /// Puts the innermost log back.
    fn put_level(&mut self, l: Level)
        ensures
            final(self)@ == (ViewerView { levels: old(self)@.levels.push(l@), ..old(self)@ }),
    {
        let ghost before = self.levels@;
        self.levels.push(l);
        assert(level_views(self.levels@) =~= level_views(before).push(l@));
    }

    fn on_line(&mut self, line: String) -> (r: Action)
        requires
            old(self)@.ok(),
            old(self)@.phase is Reading,
            line@.len() > 0 ==> old(self)@.log.total_lines < u64::MAX,
        ensures
            (r@, final(self)@) == about_read(old(self)@, line@),
    {
        let ghost v = self@;
        let mut level = self.take_level();
        proof {
            assert(v.levels[v.levels.len() - 1] == v.levels.last());
        }
        let opts = self.opts;
        match level.frame.read(&mut self.state, &opts, line) {
            Read::Finished => {
                let clear = self.state.clear_status();
                proof {
                    if v.inner().target != stdin_name() {
                        assert(named(v.levels).last() == v.inner().target);
                    }
                }
                let (got, tail) = level.frame.close(&mut self.state);
                self.got = got;
                self.phase = Phase::Closing;
                assert(v.with_inner(v.inner()).levels.drop_last() =~= v.levels.drop_last());
                Action::Close { clear, tail }
            },
            Read::Partial => {
                self.put_level(level);
                Action::Read
            },
            Read::Wait => {
                self.put_level(level);
                self.phase = Phase::Looking;
                Action::Look
            },
            Read::Line(whole) => {
                let clear = self.state.clear_status();
                let ghost f = level.frame@;
                match line_meta(whole.as_str()) {
                    None => {
                        let out = level.frame.on_plain(&opts, whole.as_str());
                        self.put_level(level);
                        self.next = None;
                        self.phase = Phase::Writing;
                        proof {
                            let w = v.with_inner(f);
                            assert(w.levels.drop_last() =~= v.levels.drop_last());
                        }
                        Action::Write { clear, out }
                    },
                    Some(m) => {
                        let path = if str_eq(m.kind(), "done") {
                            match m.done_text() {
                                None => {
                                    self.put_level(level);
                                    return Action::Stop(Stop::BadDone);
                                },
                                Some((_, n)) => level.frame.full_path(self.top.as_slice(), n.as_str()),
                            }
                        } else {
                            level.frame.full_path(self.top.as_slice(), m.text())
                        };
                        self.put_level(level);
                        self.meta = Some((m, whole));
                        self.phase = Phase::Naming;
                        Action::Name { clear, path }
                    },
                }
            },
        }
    }

    fn on_look(&mut self, locked: bool, over_a_second: bool, width: usize) -> (r: Action)
        requires
            old(self)@.ok(),
            old(self)@.phase is Looking,
        ensures
            (r@, final(self)@) == about_look(old(self)@, locked, over_a_second, width),
    {
        let mut level = self.take_level();
        let p = level.frame.poll(locked, self.status, over_a_second);
        self.put_level(level);
        if p.show_status {
            if width < self.state.status_room() {
                return Action::Stop(Stop::NoRoom);
            }
            self.state.set_status(width);
        }
        self.phase = Phase::Waiting;
        Action::Wait { show_status: p.show_status, sleep: p.sleep }
    }

    fn on_name(&mut self, relname: &str) -> (r: Action)
        requires
            old(self)@.ok(),
            old(self)@.phase is Naming,
        ensures
            (r@, final(self)@) == about_name(old(self)@, relname@),
    {
        let ghost v = self@;
        proof {
            assert(v.levels[v.levels.len() - 1] == v.levels.last());
            assert(written(v.levels) >= v.inner().lines_written);
            lemma_total_lines(&self.state);
        }
        let (m, line) = self.meta.take().unwrap();
        let opts = self.opts;
        let kind = m.kind();
        let about_job = str_eq(kind, "do") || str_eq(kind, "waiting") || str_eq(kind, "locked") || str_eq(
            kind,
            "unlocked",
        );
        if about_job && opts.recursive && m.text().unicode_len() == 0 {
            self.phase = Phase::Reading;
            return Action::Stop(Stop::Nameless);
        }
        let mut level = self.take_level();
        let s = level.frame.on_meta(&self.state, &opts, &m, line.as_str(), relname);
        level.remember = s.remember;
        self.put_level(level);
        self.next = s.recurse;
        self.phase = Phase::Writing;
        Action::Write { clear: false, out: s.out }
    }

    fn settle(&mut self) -> (r: Action)
        requires
            old(self)@.ok(),
            old(self)@.levels.len() > 0,
        ensures
            (r@, final(self)@) == settled(old(self)@),
    {
        let ghost v = self@;
        proof {
            assert(v.levels[v.levels.len() - 1] == v.levels.last());
            assert(written(v.levels) >= v.inner().lines_written);
            lemma_total_lines(&self.state);
        }
        let level = self.take_level();
        let Level { frame, remember } = level;
        let mut frame = frame;
        frame.settle(&mut self.state, self.got, remember);
        self.put_level(Level { frame, remember: None });
        self.got = 0;
        self.phase = Phase::Reading;
        Action::Read
    }

    /// What is to be done when something has happened.
    pub fn step(&mut self, e: Event) -> (r: Action)
        requires
            old(self)@.ok(),
            expected(old(self)@.phase, e@),
            e@ matches EventView::Line(l) ==> (l.len() > 0 ==> old(self)@.log.total_lines < u64::MAX),
        ensures
            (r@, final(self)@) == view_step(old(self)@, e@),
            final(self)@.ok(),
    {
        let ghost v = self@;
        proof {
            law_view_step_keeps_ok(v, e@);
        }
        match self.phase {
            Phase::Idle => Action::Finish,
            Phase::Opening => {
                if let Event::Opened { locked } = e {
                    let mut level = self.take_level();
                    level.frame.set_locked(locked);
                    self.put_level(level);
                }
                self.phase = Phase::Reading;
                Action::Read
            },
            Phase::Reading => match e {
                Event::Line(line) => self.on_line(line),
                _ => Action::Finish,
            },
            Phase::Looking => match e {
                Event::Looked { locked, over_a_second, width } => self.on_look(locked, over_a_second, width),
                _ => Action::Finish,
            },
            Phase::Waiting => {
                self.phase = Phase::Reading;
                Action::Read
            },
            Phase::Naming => match e {
                Event::Name(relname) => self.on_name(relname.as_str()),
                _ => Action::Finish,
            },
            Phase::Writing => {
                if self.next.is_some() {
                    self.phase = Phase::Leaving;
                    Action::Leave
                } else {
                    self.settle()
                }
            },
            Phase::Leaving => {
                let t = self.next.take().unwrap();
                match self.state.open(t.as_slice()) {
                    None => {
                        self.phase = Phase::Returning;
                        Action::Return
                    },
                    Some(frame) => {
                        self.put_level(Level { frame, remember: None });
                        self.phase = Phase::Opening;
                        Action::Open(t)
                    },
                }
            },
            Phase::Closing => {
                assert(level_views(self.levels@).len() == self.levels@.len());
                if self.levels.len() == 0 {
                    self.got = 0;
                    self.phase = Phase::Idle;
                    Action::Finish
                } else {
                    self.phase = Phase::Returning;
                    Action::Return
                }
            },
            Phase::Returning => self.settle(),
        }
    }
}

/// Once a log has been opened it is read, and it is known whether its target is being built.
pub proof fn law_opened_logs_are_read(v: ViewerView, locked: bool)
    requires
        v.phase is Opening,
        v.levels.len() > 0,
    ensures
        ({
            let (a, w) = view_step(v, EventView::Opened { locked });
            &&& a is Read && w.phase is Reading
            &&& w.levels.len() == v.levels.len()
            &&& w.levels.last().frame.was_locked == locked
            &&& w.levels.last().frame.target == v.levels.last().frame.target
            &&& forall|i: int| 0 <= i < v.levels.len() - 1 ==> (#[trigger] w.levels[i]) == v.levels[i]
        }),
{
}

/// A log whose end has been reached is closed, with what was left of a line, and the one around it goes on. If it is followed and its target
/// is still being built, more is waited for.
pub proof fn law_ended_logs_are_closed(v: ViewerView)
    requires
        v.phase is Reading,
        v.levels.len() > 0,
    ensures
        ({
            let f = v.levels.last().frame;
            let (a, w) = view_step(v, EventView::Line(seq![]));
            &&& v.opts.follow && f.was_locked ==> a is Look && w.phase is Looking && w.log == v.log
            &&& !(v.opts.follow && f.was_locked) ==> {
                &&& a matches ActionView::Close { clear, tail } && (clear <==> v.log.status.len() > 0) && tail == f.line_head
                &&& w.phase is Closing
                &&& w.levels == v.levels.drop_last()
                &&& w.got == f.lines_written
                &&& w.log.status.len() == 0 && w.log.already == v.log.already && w.log.total_lines == v.log.total_lines
            }
        }),
{
    let f = v.levels.last().frame;
    assert(v.with_inner(taken_in(f, v.opts.follow, seq![]).1).levels.drop_last() =~= v.levels.drop_last());
}

/// Every piece that is read counts as one more line. A line that is not complete is read on.
pub proof fn law_lines_are_counted(v: ViewerView, line: Seq<char>)
    requires
        v.phase is Reading,
        v.levels.len() > 0,
        line.len() > 0,
    ensures
        view_step(v, EventView::Line(line)).1.log.total_lines == v.log.total_lines + 1,
        line.last() != '\n' ==> {
            let (a, w) = view_step(v, EventView::Line(line));
            a is Read && w.phase is Reading && w.levels.last().frame.line_head == v.levels.last().frame.line_head + line
        },
{
}

/// A structured line is not shown before the name in it has been found out as seen from here. The name is one in the directory of the target
/// whose log it stands in. A line on the end of a job without an exit code and a name stops everything.
pub proof fn law_names_are_found_out(v: ViewerView, line: Seq<char>, m: MetaView, rv: i32, name: Seq<char>)
    requires
        v.phase is Reading,
        v.levels.len() > 0,
        line.len() > 0,
        line.last() == '\n',
        parsed_meta(trimmed_of(v.levels.last().frame.line_head + line, '\n')) == Ok::<MetaView, Seq<char>>(m),
    ensures
        ({
            let f = v.levels.last().frame;
            let (a, w) = view_step(v, EventView::Line(line));
            let dir = pushed(v.top, f.mydir);
            let clear = v.log.status.len() > 0;
            &&& m.kind != "done"@ ==> a == (ActionView::Name { clear, path: pushed(dir, vstd::utf8::encode_utf8(m.text)) })
            &&& m.kind == "done"@ && m.text == decimal_int(rv as int) + " "@ + name ==> a == (ActionView::Name {
                clear,
                path: pushed(dir, vstd::utf8::encode_utf8(name)),
            })
            &&& m.kind == "done"@ && !m.text.contains(' ') ==> a == ActionView::Stop(Stop::BadDone)
            &&& a is Name ==> w.phase is Naming && w.meta == Some((m, f.line_head + line)) && w.log.status.len() == 0
        }),
{
    law_done_round_trip(rv, name);
    if !m.text.contains(' ') {
        lemma_no_space(m.text);
    }
}

proof fn lemma_no_space(s: Seq<char>)
    requires
        !s.contains(' '),
    ensures
        parsed_done(s) is None,
{
    lemma_index_without(s, ' ');
}

/// When the name has been found out, what is to be said about the line is written. Then the log of the target it speaks of is shown, if it is to
/// be shown and was not shown or announced before; after that the reading goes on. A target without a name cannot be shown.
pub proof fn law_logs_within_logs(v: ViewerView, relname: Seq<char>, m: MetaView, line: Seq<char>)
    requires
        v.levels.len() > 0,
    ensures
        v.phase is Naming && v.meta == Some((m, line)) ==> {
            let f = v.levels.last().frame;
            let s = meta_step(v.log.already, v.opts, f.mydir, m, line, relname);
            let (a, w) = view_step(v, EventView::Name(relname));
            let job = m.kind == "do"@ || m.kind == "waiting"@ || m.kind == "locked"@ || m.kind == "unlocked"@;
            &&& job && v.opts.recursive && m.text.len() == 0 ==> a == ActionView::Stop(Stop::Nameless)
            &&& !(job && v.opts.recursive && m.text.len() == 0) ==> {
                &&& a == (ActionView::Write { clear: false, out: s.out })
                &&& w.phase is Writing && w.next == s.recurse && w.levels.last().remember == s.remember
                &&& w.levels.last().frame.lines_written == f.lines_written + s.written
                &&& w.levels.last().frame.interrupted == f.interrupted + s.interrupted
            }
        },
        v.phase is Writing && v.next is Some ==> {
            let (a, w) = view_step(v, EventView::Done);
            a is Leave && w.phase is Leaving && w.next == v.next
        },
        v.phase is Leaving && v.next is Some ==> {
            let t = v.next->0;
            let (a, w) = view_step(v, EventView::Done);
            &&& v.log.already.contains(t) ==> a is Return && w.phase is Returning && w.levels == v.levels && w.next is None
            &&& !v.log.already.contains(t) ==> {
                &&& a == ActionView::Open(t)
                &&& w.levels.len() == v.levels.len() + 1
                &&& w.levels.drop_last() == v.levels
                &&& w.levels.last().frame.target == t
                &&& w.log.already.contains(t)
            }
        },
        v.phase is Closing ==> {
            let (a, w) = view_step(v, EventView::Done);
            a is Return && w.phase is Returning && w.levels == v.levels && w.got == v.got
        },
{
    if v.phase is Leaving && v.next is Some && !v.log.already.contains(v.next->0) {
        let w = view_step(v, EventView::Done).1;
        assert(w.levels.drop_last() =~= v.levels);
    }
}

/// Once another log has been shown within a log, its lines count as lines about other targets, its target counts as announced, and the
/// log goes on.
pub proof fn law_logs_go_on(v: ViewerView)
    requires
        v.phase is Returning || v.phase is Writing && v.next is None,
        v.levels.len() > 0,
    ensures
        ({
            let f = v.levels.last().frame;
            let (a, w) = view_step(v, EventView::Done);
            &&& a is Read && w.phase is Reading && w.got == 0
            &&& w.levels.len() == v.levels.len()
            &&& w.levels.last().frame == (FrameView {
                lines_written: f.lines_written + v.got,
                interrupted: f.interrupted + v.got,
                ..f
            })
            &&& v.levels.last().remember matches Some(t) ==> w.log.already == v.log.already.insert(t)
            &&& v.levels.last().remember is None ==> w.log.already == v.log.already
            &&& w.levels.last().remember is None
        }),
{
}

/// When the outermost log has been closed, there is nothing left to show.
pub proof fn law_showing_ends(v: ViewerView)
    requires
        v.phase is Closing,
        v.levels.len() == 0,
    ensures
        view_step(v, EventView::Done).0 is Finish,
        view_step(v, EventView::Done).1.phase is Idle,
{
}

/// While there is nothing to read, a status line is shown if one is wanted and a second has passed; everything stops if there is no room for
/// it. The wait is as long as it has grown to be, but not over a second.
pub proof fn law_waiting_for_more(v: ViewerView, locked: bool, over: bool, width: usize)
    requires
        v.phase is Looking,
        v.levels.len() > 0,
    ensures
        ({
            let f = v.levels.last().frame;
            let (a, w) = view_step(v, EventView::Looked { locked, over_a_second: over, width });
            &&& w.levels.last().frame.was_locked == locked
            &&& !(v.status && over) ==> (a matches ActionView::Wait { show_status, sleep } && !show_status && sleep <= 1000 && (
            f.delay <= 1000 ==> sleep == f.delay) && (f.delay > 1000 ==> sleep == 1000)) && w.log == v.log
            &&& v.status && over && width < room_for(v.log) ==> a == ActionView::Stop(Stop::NoRoom)
            &&& v.status && over && width >= room_for(v.log) ==> (a matches ActionView::Wait { show_status, sleep }
                && show_status && sleep <= 1000 && (f.delay <= 1000 ==> sleep == f.delay)) && w.log.status == status_line(
                v.log,
                width as int,
            )
            &&& a is Wait ==> w.phase is Waiting
        }),
        view_step(ViewerView { phase: Phase::Waiting, ..v }, EventView::Done) == (
            ActionView::Read,
            ViewerView { phase: Phase::Reading, ..v },
        ),
{
}

} // verus!
