//! The order of steps in which a list of targets is built.
//!
//! In the first round every target has its turn. One that somebody else is building is put off. In the
//! second round those are waited for one by one.

use vstd::prelude::*;
use vstd::string::*;
use crate::builder::{
    check_names, failed_job, first_bad, next_turn, uncaused, BuildError, BuildErrorView, Schedule,
    ScheduleView, Turn,
};
use crate::error::{generic, quoted};
use crate::text::{decimal_int, strings};

verus! {

/// What is to be done next.
#[derive(Clone, Copy, Debug, Eq, PartialEq, Structural)]
pub enum Action {
    /// Say that a target without a name cannot be built.
    ReportNameless,
    /// Get a token for this target, or cheat.
    GetToken(usize),
    /// Look up this target and try to lock it.
    TryLock(usize),
    /// Say that somebody else is building this target.
    SayLocked(usize),
    /// Find out whether this target, which is locked now, has to be built, and start that.
    Start(usize),
    /// The same, for a target that had been put off.
    StartLate(usize),
    /// Wait until all jobs are done.
    WaitAll,
    /// Try again to lock the target with the given file id.
    TryLockAgain(i64, usize),
    /// Pause for some time, at most so many milliseconds.
    Pause(u64),
    /// Say that we are waiting for this target; give up our token until its lock is free; and with a
    /// token again, try to lock it.
    ///
    /// This sequence looks a little silly, but the idea is to
    /// give up our personal token while we wait for the lock to
    /// be released; but we should never get a token while
    /// holding a lock, or we could cause deadlocks.
    WaitForLock(usize),
    /// Say that this target is ours now, and see whether somebody else has failed to build it.
    LookAgain(usize),
    /// Unlock this target.
    Unlock(usize),
    /// There is nothing left to do.
    Finish,
}

/// What has happened.
#[derive(Clone, Copy, Debug, Eq, PartialEq, Structural)]
pub enum Event {
    /// The build begins.
    Begin,
    /// What was to be done has been done.
    Done,
    /// It was tried to lock a target, whose file has the given id.
    Lock { fid: i64, owned: bool },
    /// Whether somebody else has failed to build the target.
    Looked { failed: bool },
}

/// How far the build has come.
#[derive(Clone, Copy, Debug, Eq, PartialEq, Structural)]
pub enum Phase {
    Fresh,
    Nameless,
    Token(usize),
    Locking(usize),
    /// A target of the first round has been put off or started.
    FirstTurn,
    WaitingAll,
    /// A target of the second round is to be locked; how long the next pause is.
    LockingAgain { fid: i64, target: usize, backoff: u64 },
    Pausing { fid: i64, target: usize, backoff: u64 },
    Looking(usize),
    /// A target of the second round has been started, or had failed.
    SecondTurn,
    Finished,
}

/// A build of a list of targets.
#[derive(Debug)]
pub struct Runner {
    schedule: Schedule,
    phase: Phase,
}

/// A build of a list of targets.
pub struct RunnerView {
    pub schedule: ScheduleView,
    pub phase: Phase,
}

impl View for Runner {
    type V = RunnerView;

    closed spec fn view(&self) -> RunnerView {
        RunnerView { schedule: self.schedule@, phase: self.phase }
    }
}

/// A build that has not begun.
pub open spec fn fresh(order: Seq<usize>, keep_going: bool) -> RunnerView {
    RunnerView {
        schedule: ScheduleView { rest: order, seen: Set::empty(), locked: seq![], failure: None, keep_going },
        phase: Phase::Fresh,
    }
}

/// Whether an event can happen in a phase.
pub open spec fn expected(phase: Phase, e: Event) -> bool {
    match phase {
        Phase::Fresh => e is Begin,
        Phase::Locking(_) => e is Lock,
        Phase::LockingAgain { fid, target, backoff } => e is Lock,
        Phase::Looking(_) => e is Looked,
        Phase::Finished => false,
        _ => e is Done,
    }
}

/// The second round: goes on as long as there are targets that were put off, or jobs that run.
pub open spec fn second_round(s: ScheduleView, running: bool) -> (Action, RunnerView) {
    if s.locked.len() > 0 || running {
        (Action::WaitAll, RunnerView { schedule: s, phase: Phase::WaitingAll })
    } else {
        (Action::Finish, RunnerView { schedule: s, phase: Phase::Finished })
    }
}

/// The first round: whose turn it is.
pub open spec fn first_round(s: ScheduleView, running: bool, targets: Seq<Seq<char>>) -> (Action, RunnerView) {
    let (turn, rest) = next_turn(s, targets);
    match turn {
        Turn::Over => second_round(rest, running),
        Turn::Nameless => (Action::ReportNameless, RunnerView { schedule: rest, phase: Phase::Nameless }),
        Turn::Target(i) => (Action::GetToken(i), RunnerView { schedule: rest, phase: Phase::Token(i) }),
    }
}

/// Once all jobs are done: the next target that was put off.
pub open spec fn after_wait(s: ScheduleView, running: bool) -> (Action, RunnerView) {
    if !s.goes_on() {
        (Action::Finish, RunnerView { schedule: s, phase: Phase::Finished })
    } else if s.locked.len() == 0 {
        second_round(s, running)
    } else {
        let (fid, i) = s.locked[0];
        (
            Action::TryLockAgain(fid, i),
            RunnerView {
                schedule: ScheduleView { locked: s.locked.skip(1), ..s },
                phase: Phase::LockingAgain { fid, target: i, backoff: 100 },
            },
        )
    }
}

/// The longest that a pause may be.
pub open spec fn pause_limit(backoff: u64) -> u64 {
    if backoff < 1000 {
        backoff
    } else {
        1000
    }
}

/// How long the pause after a pause may be.
pub open spec fn longer(backoff: u64) -> u64 {
    if backoff < 1000 {
        (2 * backoff) as u64
    } else {
        backoff
    }
}

/// What is to be done when something has happened, and how far the build has come then. `running` says whether
/// any job is running.
pub open spec fn run_step(v: RunnerView, e: Event, running: bool, targets: Seq<Seq<char>>) -> (Action, RunnerView) {
    let s = v.schedule;
    match v.phase {
        Phase::Fresh => first_round(s, running, targets),
        Phase::FirstTurn => first_round(s, running, targets),
        Phase::Nameless => second_round(s, running),
        Phase::SecondTurn => second_round(s, running),
        Phase::Token(i) => if s.goes_on() {
            (Action::TryLock(i), RunnerView { schedule: s, phase: Phase::Locking(i) })
        } else {
            second_round(s, running)
        },
        Phase::Locking(i) => if e->owned {
            (Action::Start(i), RunnerView { schedule: s, phase: Phase::FirstTurn })
        } else {
            (
                Action::SayLocked(i),
                RunnerView {
                    schedule: ScheduleView { locked: s.locked.push((e->fid, i)), ..s },
                    phase: Phase::FirstTurn,
                },
            )
        },
        Phase::WaitingAll => after_wait(s, running),
        Phase::LockingAgain { fid, target, backoff } => if e->owned {
            (Action::LookAgain(target), RunnerView { schedule: s, phase: Phase::Looking(target) })
        } else {
            (
                Action::Pause(pause_limit(backoff)),
                RunnerView { schedule: s, phase: Phase::Pausing { fid, target, backoff: longer(backoff) } },
            )
        },
        Phase::Pausing { fid, target, backoff } => (
            Action::WaitForLock(target),
            RunnerView { schedule: s, phase: Phase::LockingAgain { fid, target, backoff } },
        ),
        Phase::Looking(i) => if e->failed {
            (
                Action::Unlock(i),
                RunnerView {
                    schedule: ScheduleView {
                        failure: Some(uncaused(BuildErrorView::FailedInAnotherThread(targets[i as int]))),
                        ..s
                    },
                    phase: Phase::SecondTurn,
                },
            )
        } else {
            (Action::StartLate(i), RunnerView { schedule: s, phase: Phase::SecondTurn })
        },
        Phase::Finished => (Action::Finish, v),
    }
}

/// How far the build has come when a job has ended.
pub open spec fn job_end(v: RunnerView, target: Seq<char>, rv: int, late: bool) -> RunnerView {
    if rv == 0 {
        v
    } else {
        let failure = if late {
            uncaused(BuildErrorView::Generic)
        } else {
            failed_job(target, rv)
        };
        RunnerView { schedule: ScheduleView { failure: Some(failure), ..v.schedule }, ..v }
    }
}

impl RunnerView {
    /// The target that the build is busy with.
    pub open spec fn current(self) -> Option<usize> {
        match self.phase {
            Phase::Token(i) => Some(i),
            Phase::Locking(i) => Some(i),
            Phase::LockingAgain { fid, target, backoff } => Some(target),
            Phase::Pausing { fid, target, backoff } => Some(target),
            Phase::Looking(i) => Some(i),
            _ => None,
        }
    }

    /// Whether the first round is over.
    pub open spec fn in_second_round(self) -> bool {
        match self.phase {
            Phase::Fresh | Phase::FirstTurn | Phase::Token(_) | Phase::Locking(_) => false,
            _ => true,
        }
    }

    /// What holds at all times, of so many targets: every target that is spoken of is one of them, and
    /// after the first round none of them is left without a turn, unless the build has failed.
    pub open spec fn ok(self, n: nat) -> bool {
        &&& forall|i: int| 0 <= i < self.schedule.rest.len() ==> (#[trigger] self.schedule.rest[i]) < n
        &&& forall|i: int| 0 <= i < self.schedule.locked.len() ==> (#[trigger] self.schedule.locked[i]).1 < n
        &&& self.current() matches Some(i) ==> i < n
        &&& self.in_second_round() ==> self.schedule.rest.len() == 0 || !self.schedule.goes_on()
    }
}

impl Runner {
    pub closed spec fn wf(&self) -> bool {
        self.schedule.wf()
    }

    /// A build of targets in the given order. Nothing is built at all if the name of any of them holds a line feed.
    pub fn new(targets: &Vec<String>, order: Vec<usize>, keep_going: bool) -> (r: Result<Runner, BuildError>)
        requires
            forall|i: int| 0 <= i < order@.len() ==> (#[trigger] order@[i]) < targets@.len(),
        ensures
            match first_bad(strings(targets@), order@) {
                None => r matches Ok(b) && b.wf() && b@ == fresh(order@, keep_going) && b@.ok(targets@.len()),
                Some(t) => r matches Err(e) && e@ == uncaused(BuildErrorView::InvalidTarget(t)),
            },
    {
        match check_names(targets, &order) {
            Err(e) => Err(e),
            Ok(_) => Ok(Runner { schedule: Schedule::new(order, keep_going), phase: Phase::Fresh }),
        }
    }

    fn go_second(&mut self, running: bool) -> (r: Action)
        requires
            old(self).wf(),
        ensures
            final(self).wf(),
            (r, final(self)@) == second_round(old(self)@.schedule, running),
    {
        if self.schedule.must_wait(running) {
            self.phase = Phase::WaitingAll;
            Action::WaitAll
        } else {
            self.phase = Phase::Finished;
            Action::Finish
        }
    }

    fn go_first(&mut self, running: bool, targets: &Vec<String>) -> (r: Action)
        requires
            old(self).wf(),
            old(self)@.ok(targets@.len()),
        ensures
            final(self).wf(),
            (r, final(self)@) == first_round(old(self)@.schedule, running, strings(targets@)),
    {
        match self.schedule.next(targets) {
            Turn::Over => self.go_second(running),
            Turn::Nameless => {
                self.phase = Phase::Nameless;
                Action::ReportNameless
            },
            Turn::Target(i) => {
                self.phase = Phase::Token(i);
                Action::GetToken(i)
            },
        }
    }

    fn go_on_waiting(&mut self, running: bool) -> (r: Action)
        requires
            old(self).wf(),
        ensures
            final(self).wf(),
            (r, final(self)@) == after_wait(old(self)@.schedule, running),
    {
        if !self.schedule.goes_on() {
            self.phase = Phase::Finished;
            return Action::Finish;
        }
        match self.schedule.next_locked() {
            None => self.go_second(running),
            Some((fid, target)) => {
                self.phase = Phase::LockingAgain { fid, target, backoff: 100 };
                Action::TryLockAgain(fid, target)
            },
        }
    }

    /// What is to be done when something has happened.
    pub fn step(&mut self, e: Event, running: bool, targets: &Vec<String>) -> (r: Action)
        requires
            old(self).wf(),
            expected(old(self)@.phase, e),
            old(self)@.ok(targets@.len()),
        ensures
            final(self).wf(),
            (r, final(self)@) == run_step(old(self)@, e, running, strings(targets@)),
            final(self)@.ok(targets@.len()),
    {
        proof {
            law_run_step_keeps_ok(self@, e, running, strings(targets@));
            assert(strings(targets@).len() == targets@.len());
        }
        match self.phase {
            Phase::Fresh => self.go_first(running, targets),
            Phase::FirstTurn => self.go_first(running, targets),
            Phase::Nameless => self.go_second(running),
            Phase::SecondTurn => self.go_second(running),
            Phase::Token(i) => {
                if self.schedule.goes_on() {
                    self.phase = Phase::Locking(i);
                    Action::TryLock(i)
                } else {
                    self.go_second(running)
                }
            },
            Phase::Locking(i) => match e {
                Event::Lock { fid, owned } => {
                    self.phase = Phase::FirstTurn;
                    if owned {
                        Action::Start(i)
                    } else {
                        self.schedule.put_off(fid, i);
                        Action::SayLocked(i)
                    }
                },
                _ => Action::Finish,
            },
            Phase::WaitingAll => self.go_on_waiting(running),
            Phase::LockingAgain { fid, target, backoff } => match e {
                Event::Lock { fid: _, owned } => {
                    if owned {
                        self.phase = Phase::Looking(target);
                        Action::LookAgain(target)
                    } else {
                        let limit: u64 = if backoff < 1000 {
                            backoff
                        } else {
                            1000
                        };
                        let more: u64 = if backoff < 1000 {
                            2 * backoff
                        } else {
                            backoff
                        };
                        self.phase = Phase::Pausing { fid, target, backoff: more };
                        Action::Pause(limit)
                    }
                },
                _ => Action::Finish,
            },
            Phase::Pausing { fid, target, backoff } => {
                self.phase = Phase::LockingAgain { fid, target, backoff };
                Action::WaitForLock(target)
            },
            Phase::Looking(i) => match e {
                Event::Looked { failed } => {
                    self.phase = Phase::SecondTurn;
                    if failed {
                        assert(strings(targets@)[i as int] == targets@[i as int]@);
                        self.schedule.failed_elsewhere(targets[i].as_str());
                        Action::Unlock(i)
                    } else {
                        Action::StartLate(i)
                    }
                },
                _ => Action::Finish,
            },
            Phase::Finished => Action::Finish,
        }
    }

    /// Takes note that a job has ended with the given exit code. `late` says whether its target had been put off.
    pub fn job_ended(&mut self, target: &str, rv: i32, late: bool)
        requires
            old(self).wf(),
        ensures
            final(self).wf(),
            final(self)@ == job_end(old(self)@, target@, rv as int, late),
            forall|n: nat| old(self)@.ok(n) ==> final(self)@.ok(n),
    {
        if late {
            self.schedule.late_job_ended(rv);
        } else {
            self.schedule.job_ended(target, rv);
        }
    }

    /// What the build comes to.
    pub fn finish(self) -> (r: Result<(), BuildError>)
        ensures
            match r {
                Ok(_) => self@.schedule.failure is None,
                Err(e) => self@.schedule.failure == Some(e@),
            },
    {
        self.schedule.finish()
    }
}

proof fn lemma_next_turn(s: ScheduleView, targets: Seq<Seq<char>>)
    requires
        forall|i: int| 0 <= i < s.rest.len() ==> (#[trigger] s.rest[i]) < targets.len(),
    ensures
        ({
            let (turn, rest) = next_turn(s, targets);
            &&& forall|i: int| 0 <= i < rest.rest.len() ==> (#[trigger] rest.rest[i]) < targets.len()
            &&& rest.locked == s.locked
            &&& turn matches Turn::Target(i) ==> i < targets.len()
            &&& !(turn is Target) ==> rest.rest.len() == 0
        }),
    decreases s.rest.len(),
{
    if s.rest.len() > 0 {
        let t = targets[s.rest[0] as int];
        let tail = s.rest.skip(1);
        assert forall|i: int| 0 <= i < tail.len() implies (#[trigger] tail[i]) < targets.len() by {
            assert(tail[i] == s.rest[i + 1]);
        }
        if t.len() > 0 && s.seen.contains(t) {
            lemma_next_turn(ScheduleView { rest: tail, ..s }, targets);
        }
    }
}

/// Every step keeps what holds of a build at all times.
pub proof fn law_run_step_keeps_ok(v: RunnerView, e: Event, running: bool, targets: Seq<Seq<char>>)
    requires
        v.ok(targets.len()),
        expected(v.phase, e),
    ensures
        run_step(v, e, running, targets).1.ok(targets.len()),
{
    let s = v.schedule;
    lemma_next_turn(s, targets);
    let r = run_step(v, e, running, targets).1;
    assert forall|i: int| 0 <= i < r.schedule.locked.len() implies (#[trigger] r.schedule.locked[i]).1
        < targets.len() by {
        match v.phase {
            Phase::WaitingAll => {
                if r.schedule.locked.len() < s.locked.len() {
                    assert(r.schedule.locked[i] == s.locked[i + 1]);
                } else {
                    assert(r.schedule.locked[i] == s.locked[i]);
                }
            },
            _ => {
                if i < s.locked.len() {
                    assert(r.schedule.locked[i] == s.locked[i]);
                }
            },
        }
    }
    if v.phase is WaitingAll && s.locked.len() > 0 {
        assert(s.locked[0].1 < targets.len());
    }
}

/// A build that finishes without a failure has given every target its turn, and left none that was put off and no
/// job that runs.
pub proof fn law_finished_means_done(v: RunnerView, e: Event, running: bool, targets: Seq<Seq<char>>)
    requires
        v.ok(targets.len()),
        expected(v.phase, e),
        run_step(v, e, running, targets).0 == Action::Finish,
    ensures
        ({
            let s = run_step(v, e, running, targets).1.schedule;
            s.failure is None ==> s.rest.len() == 0 && s.locked.len() == 0 && !running
        }),
{
    law_run_step_keeps_ok(v, e, running, targets);
}

/// No target is started unless it is locked for us: every start follows the event that the lock was taken, or that
/// somebody else has not failed to build the target after it was.
pub proof fn law_started_only_when_locked(v: RunnerView, e: Event, running: bool, targets: Seq<Seq<char>>, i: usize)
    requires
        expected(v.phase, e),
    ensures
        run_step(v, e, running, targets).0 == Action::Start(i) ==> v.phase == Phase::Locking(i) && e->owned,
        run_step(v, e, running, targets).0 == Action::StartLate(i) ==> v.phase == Phase::Looking(i) && !e->failed,
{
}

/// One thing that happens in a build.
pub enum Move {
    /// A step.
    Step { e: Event, running: bool },
    /// A job ends.
    JobEnded { target: Seq<char>, rv: int, late: bool },
}

/// What has been done in a build, and how far it has come.
pub struct Course {
    pub actions: Seq<Action>,
    pub now: RunnerView,
}

/// What one more thing that happens adds.
pub open spec fn moved(c: Course, m: Move, targets: Seq<Seq<char>>) -> Course {
    match m {
        Move::Step { e, running } => {
            let (a, v) = run_step(c.now, e, running, targets);
            Course { actions: c.actions.push(a), now: v }
        },
        Move::JobEnded { target, rv, late } => Course { now: job_end(c.now, target, rv, late), ..c },
    }
}

/// The course of a build in which so much has happened.
pub open spec fn course(order: Seq<usize>, keep_going: bool, ms: Seq<Move>, targets: Seq<Seq<char>>) -> Course
    decreases ms.len(),
{
    if ms.len() == 0 {
        Course { actions: seq![], now: fresh(order, keep_going) }
    } else {
        moved(course(order, keep_going, ms.drop_last(), targets), ms.last(), targets)
    }
}

/// Whether so much can happen in a build.
pub open spec fn can_happen(order: Seq<usize>, keep_going: bool, ms: Seq<Move>, targets: Seq<Seq<char>>) -> bool
    decreases ms.len(),
{
    ms.len() > 0 ==> {
        &&& can_happen(order, keep_going, ms.drop_last(), targets)
        &&& ms.last() matches Move::Step { e, running } ==> expected(
            course(order, keep_going, ms.drop_last(), targets).now.phase,
            e,
        )
    }
}

/// The target that is started.
pub open spec fn started(a: Action) -> Option<usize> {
    match a {
        Action::Start(i) => Some(i),
        Action::StartLate(i) => Some(i),
        _ => None,
    }
}

/// Whether a target of the given name has been started.
pub open spec fn was_started(actions: Seq<Action>, targets: Seq<Seq<char>>, t: Seq<char>) -> bool {
    exists|i: int|
        0 <= i < actions.len() && (#[trigger] started(actions[i]) matches Some(x) && targets[x as int] == t)
}

/// Whether a target of the given name has been put off.
pub open spec fn is_put_off(locked: Seq<(i64, usize)>, targets: Seq<Seq<char>>, t: Seq<char>) -> bool {
    exists|i: int| 0 <= i < locked.len() && targets[(#[trigger] locked[i]).1 as int] == t
}

/// Whether the build is busy with a target of the given name.
pub open spec fn is_busy(v: RunnerView, targets: Seq<Seq<char>>, t: Seq<char>) -> bool {
    v.current() matches Some(x) && targets[x as int] == t
}

/// What holds in the course of a build. A name that has had its turn is started, put off or in work, and only one of
/// these, unless the build has failed; one that has not is still to come.
spec fn keeps_account(c: Course, order: Seq<usize>, targets: Seq<Seq<char>>) -> bool {
    let s = c.now.schedule;
    &&& c.now.ok(targets.len())
    &&& forall|i: int| 0 <= i < s.rest.len() ==> order.contains(#[trigger] s.rest[i])
    &&& forall|i: int| 0 <= i < s.locked.len() ==> order.contains((#[trigger] s.locked[i]).1)
    &&& c.now.current() matches Some(x) ==> order.contains(x)
    &&& forall|i: int| 0 <= i < c.actions.len() ==> (#[trigger] started(c.actions[i]) matches Some(x) ==> order.contains(x))
    &&& forall|t: Seq<char>| #[trigger] was_started(c.actions, targets, t) ==> s.seen.contains(t)
    &&& forall|t: Seq<char>| #[trigger] is_put_off(s.locked, targets, t) ==> s.seen.contains(t) && !was_started(
        c.actions,
        targets,
        t,
    )
    &&& forall|t: Seq<char>| #[trigger] is_busy(c.now, targets, t) ==> s.seen.contains(t) && !was_started(
        c.actions,
        targets,
        t,
    ) && !is_put_off(s.locked, targets, t)
    &&& forall|i: int, j: int|
        0 <= i < j < s.locked.len() ==> targets[(#[trigger] s.locked[i]).1 as int] != targets[(
        #[trigger] s.locked[j]).1 as int]
    &&& forall|i: int, j: int|
        0 <= i < j < c.actions.len() ==> (#[trigger] started(c.actions[i]) matches Some(x) ==> (
        #[trigger] started(c.actions[j]) matches Some(y) ==> targets[x as int] != targets[y as int]))
    &&& s.failure is None ==> {
        &&& forall|k: int|
            0 <= k < order.len() ==> s.seen.contains(targets[#[trigger] order[k] as int]) || s.rest.contains(order[k])
        &&& forall|t: Seq<char>| #[trigger] s.seen.contains(t) ==> was_started(c.actions, targets, t) || is_put_off(
            s.locked,
            targets,
            t,
        ) || is_busy(c.now, targets, t)
    }
}

proof fn lemma_turn_taken(s: ScheduleView, targets: Seq<Seq<char>>)
    ensures
        ({
            let (turn, r) = next_turn(s, targets);
            &&& r.locked == s.locked
            &&& forall|i: int| 0 <= i < r.rest.len() ==> s.rest.contains(#[trigger] r.rest[i])
            &&& match turn {
                Turn::Target(x) => {
                    &&& s.rest.contains(x)
                    &&& !s.seen.contains(targets[x as int])
                    &&& r.seen == s.seen.insert(targets[x as int])
                    &&& r.failure == s.failure
                    &&& forall|y: usize|
                        s.rest.contains(y) ==> r.seen.contains(targets[y as int]) || #[trigger] r.rest.contains(y)
                },
                Turn::Nameless => r.seen == s.seen && r.failure is Some,
                Turn::Over => {
                    &&& r.seen == s.seen
                    &&& r.failure == s.failure
                    &&& forall|y: usize| #[trigger] s.rest.contains(y) ==> s.seen.contains(targets[y as int])
                },
            }
        }),
    decreases s.rest.len(),
{
    if s.rest.len() > 0 {
        let x = s.rest[0];
        let t = targets[x as int];
        let tail = s.rest.skip(1);
        assert(s.rest.contains(x));
        assert forall|y: usize| s.rest.contains(y) implies y == x || #[trigger] tail.contains(y) by {
            let i = choose|i: int| 0 <= i < s.rest.len() && s.rest[i] == y;
            if i > 0 {
                assert(tail[i - 1] == y);
            }
        }
        assert forall|y: usize| #[trigger] tail.contains(y) implies s.rest.contains(y) by {
            let i = choose|i: int| 0 <= i < tail.len() && tail[i] == y;
            assert(s.rest[i + 1] == y);
        }
        if t.len() == 0 {
        } else if s.seen.contains(t) {
            let s1 = ScheduleView { rest: tail, ..s };
            lemma_turn_taken(s1, targets);
            let (turn, r) = next_turn(s1, targets);
            assert forall|i: int| 0 <= i < r.rest.len() implies s.rest.contains(#[trigger] r.rest[i]) by {
                assert(tail.contains(r.rest[i]));
            }
            if turn is Target {
                assert forall|y: usize| s.rest.contains(y) implies r.seen.contains(targets[y as int])
                    || #[trigger] r.rest.contains(y) by {
                    assert(y == x || tail.contains(y));
                }
            }
            if turn is Over {
                assert forall|y: usize| #[trigger] s.rest.contains(y) implies s.seen.contains(targets[y as int]) by {
                    assert(y == x || tail.contains(y));
                }
            }
        } else {
            assert forall|i: int| 0 <= i < tail.len() implies s.rest.contains(#[trigger] tail[i]) by {
                assert(tail.contains(tail[i]));
            }
        }
    }
}

proof fn lemma_one_more_action(actions: Seq<Action>, a: Action, targets: Seq<Seq<char>>)
    ensures
        forall|t: Seq<char>| #[trigger]
            was_started(actions.push(a), targets, t) == (was_started(actions, targets, t) || (started(a) matches Some(x)
                && targets[x as int] == t)),
{
    let all = actions.push(a);
    assert(all[actions.len() as int] == a);
    assert forall|t: Seq<char>| #[trigger]
        was_started(all, targets, t) == (was_started(actions, targets, t) || (started(a) matches Some(x)
            && targets[x as int] == t)) by {
        if was_started(actions, targets, t) {
            let i = choose|i: int|
                0 <= i < actions.len() && (#[trigger] started(actions[i]) matches Some(x) && targets[x as int] == t);
            assert(started(all[i]) == started(actions[i]));
        }
        if started(a) matches Some(x) && targets[x as int] == t {
            assert(started(all[actions.len() as int]) == started(a));
        }
        if was_started(all, targets, t) {
            let i = choose|i: int|
                0 <= i < all.len() && (#[trigger] started(all[i]) matches Some(x) && targets[x as int] == t);
            if i < actions.len() {
                assert(started(actions[i]) == started(all[i]));
            }
        }
    }
}

proof fn lemma_one_more_put_off(locked: Seq<(i64, usize)>, p: (i64, usize), targets: Seq<Seq<char>>)
    ensures
        forall|t: Seq<char>| #[trigger]
            is_put_off(locked.push(p), targets, t) == (is_put_off(locked, targets, t) || targets[p.1 as int] == t),
{
    let all = locked.push(p);
    assert(all[locked.len() as int] == p);
    assert forall|t: Seq<char>| #[trigger]
        is_put_off(all, targets, t) == (is_put_off(locked, targets, t) || targets[p.1 as int] == t) by {
        if is_put_off(locked, targets, t) {
            let i = choose|i: int| 0 <= i < locked.len() && targets[(#[trigger] locked[i]).1 as int] == t;
            assert(all[i] == locked[i]);
        }
        if is_put_off(all, targets, t) {
            let i = choose|i: int| 0 <= i < all.len() && targets[(#[trigger] all[i]).1 as int] == t;
            if i < locked.len() {
                assert(locked[i] == all[i]);
            }
        }
    }
}

proof fn lemma_one_less_put_off(locked: Seq<(i64, usize)>, targets: Seq<Seq<char>>)
    requires
        locked.len() > 0,
    ensures
        forall|t: Seq<char>| is_put_off(locked, targets, t) == (#[trigger] is_put_off(locked.skip(1), targets, t)
            || targets[locked[0].1 as int] == t),
{
    let rest = locked.skip(1);
    assert forall|t: Seq<char>| is_put_off(locked, targets, t) == (#[trigger] is_put_off(rest, targets, t)
        || targets[locked[0].1 as int] == t) by {
        if is_put_off(rest, targets, t) {
            let i = choose|i: int| 0 <= i < rest.len() && targets[(#[trigger] rest[i]).1 as int] == t;
            assert(locked[i + 1] == rest[i]);
        }
        if is_put_off(locked, targets, t) {
            let i = choose|i: int| 0 <= i < locked.len() && targets[(#[trigger] locked[i]).1 as int] == t;
            if i > 0 {
                assert(rest[i - 1] == locked[i]);
            }
        }
    }
}

proof fn lemma_step_keeps_account(c: Course, e: Event, running: bool, order: Seq<usize>, targets: Seq<Seq<char>>)
    requires
        keeps_account(c, order, targets),
        expected(c.now.phase, e),
    ensures
        keeps_account(moved(c, Move::Step { e, running }, targets), order, targets),
{
    let s = c.now.schedule;
    let (a, v) = run_step(c.now, e, running, targets);
    let d = moved(c, Move::Step { e, running }, targets);
    law_run_step_keeps_ok(c.now, e, running, targets);
    lemma_turn_taken(s, targets);
    lemma_one_more_action(c.actions, a, targets);
    assert forall|i: int| 0 <= i < d.actions.len() implies (#[trigger] started(d.actions[i]) matches Some(x)
        ==> order.contains(x)) by {
        if i < c.actions.len() {
            assert(started(d.actions[i]) == started(c.actions[i]));
        }
    }
    assert forall|i: int, j: int| 0 <= i < j < d.actions.len() implies (#[trigger] started(d.actions[i]) matches Some(x)
        ==> (#[trigger] started(d.actions[j]) matches Some(y) ==> targets[x as int] != targets[y as int])) by {
        assert(started(d.actions[i]) == started(c.actions[i]));
        if j < c.actions.len() {
            assert(started(d.actions[j]) == started(c.actions[j]));
        } else if started(c.actions[i]) is Some && started(a) is Some {
            let x = started(c.actions[i])->0;
            let y = started(a)->0;
            assert(was_started(c.actions, targets, targets[x as int]));
            assert(is_busy(c.now, targets, targets[y as int]));
        }
    }
    match c.now.phase {
        Phase::Locking(i) => {
            assert(is_busy(c.now, targets, targets[i as int]));
            if !e->owned {
                let all = s.locked.push((e->fid, i));
                lemma_one_more_put_off(s.locked, (e->fid, i), targets);
                assert forall|k: int| 0 <= k < all.len() implies order.contains((#[trigger] all[k]).1) by {
                    if k < s.locked.len() {
                        assert(all[k] == s.locked[k]);
                    }
                }
                assert forall|k: int, j: int| 0 <= k < j < all.len() implies targets[(#[trigger] all[k]).1 as int]
                    != targets[(#[trigger] all[j]).1 as int] by {
                    assert(all[k] == s.locked[k]);
                    assert(is_put_off(s.locked, targets, targets[s.locked[k].1 as int]));
                    if j < s.locked.len() {
                        assert(all[j] == s.locked[j]);
                    }
                }
            }
        },
        Phase::WaitingAll => {
            if s.locked.len() > 0 {
                lemma_one_less_put_off(s.locked, targets);
                let rest = s.locked.skip(1);
                let x = s.locked[0].1;
                assert forall|i: int| 0 <= i < rest.len() implies order.contains((#[trigger] rest[i]).1) by {
                    assert(rest[i] == s.locked[i + 1]);
                }
                assert forall|i: int, j: int| 0 <= i < j < rest.len() implies targets[(#[trigger] rest[i]).1 as int]
                    != targets[(#[trigger] rest[j]).1 as int] by {
                    assert(rest[i] == s.locked[i + 1]);
                    assert(rest[j] == s.locked[j + 1]);
                }
                assert(is_put_off(s.locked, targets, targets[x as int]));
                if is_put_off(rest, targets, targets[x as int]) {
                    let k = choose|k: int|
                        0 <= k < rest.len() && targets[(#[trigger] rest[k]).1 as int] == targets[x as int];
                    assert(rest[k] == s.locked[k + 1]);
                }
            }
        },
        Phase::Looking(i) => {
            assert(is_busy(c.now, targets, targets[i as int]));
        },
        Phase::Token(_) | Phase::LockingAgain { .. } | Phase::Pausing { .. } => {
            assert forall|t: Seq<char>| #[trigger] is_busy(v, targets, t) implies is_busy(c.now, targets, t) by {}
        },
        _ => {},
    }
}

proof fn lemma_course_keeps_account(order: Seq<usize>, keep_going: bool, ms: Seq<Move>, targets: Seq<Seq<char>>)
    requires
        forall|i: int| 0 <= i < order.len() ==> (#[trigger] order[i]) < targets.len(),
        can_happen(order, keep_going, ms, targets),
    ensures
        keeps_account(course(order, keep_going, ms, targets), order, targets),
    decreases ms.len(),
{
    if ms.len() == 0 {
        assert forall|i: int| 0 <= i < order.len() implies order.contains(#[trigger] order[i]) by {}
    } else {
        let c = course(order, keep_going, ms.drop_last(), targets);
        lemma_course_keeps_account(order, keep_going, ms.drop_last(), targets);
        match ms.last() {
            Move::Step { e, running } => {
                lemma_step_keeps_account(c, e, running, order, targets);
            },
            Move::JobEnded { target, rv, late } => {
                let v = job_end(c.now, target, rv, late);
                assert forall|t: Seq<char>| #[trigger] is_busy(v, targets, t) implies is_busy(c.now, targets, t) by {}
            },
        }
    }
}

/// A target is started at most once, whatever happens: no two targets of the same name are ever started.
pub proof fn law_started_at_most_once(
    order: Seq<usize>,
    keep_going: bool,
    ms: Seq<Move>,
    targets: Seq<Seq<char>>,
    i: int,
    j: int,
)
    requires
        forall|i: int| 0 <= i < order.len() ==> (#[trigger] order[i]) < targets.len(),
        can_happen(order, keep_going, ms, targets),
        0 <= i < j < course(order, keep_going, ms, targets).actions.len(),
    ensures
        ({
            let actions = course(order, keep_going, ms, targets).actions;
            match (started(actions[i]), started(actions[j])) {
                (Some(x), Some(y)) => targets[x as int] != targets[y as int],
                _ => true,
            }
        }),
{
    lemma_course_keeps_account(order, keep_going, ms, targets);
}

/// A build that has finished without a failure has started every target, as far as targets of the same name are the same.
pub proof fn law_success_starts_all(
    order: Seq<usize>,
    keep_going: bool,
    ms: Seq<Move>,
    targets: Seq<Seq<char>>,
    k: int,
)
    requires
        forall|i: int| 0 <= i < order.len() ==> (#[trigger] order[i]) < targets.len(),
        can_happen(order, keep_going, ms, targets),
        0 <= k < order.len(),
    ensures
        ({
            let c = course(order, keep_going, ms, targets);
            c.now.phase is Finished && c.now.schedule.failure is None ==> was_started(
                c.actions,
                targets,
                targets[order[k] as int],
            )
        }),
{
    let c = course(order, keep_going, ms, targets);
    lemma_course_keeps_account(order, keep_going, ms, targets);
    if c.now.phase is Finished && c.now.schedule.failure is None {
        lemma_finished_leaves_none(order, keep_going, ms, targets);
        let t = targets[order[k] as int];
        assert(c.now.schedule.seen.contains(t));
        assert(!is_put_off(c.now.schedule.locked, targets, t));
        assert(!is_busy(c.now, targets, t));
    }
}

proof fn lemma_finished_leaves_none(order: Seq<usize>, keep_going: bool, ms: Seq<Move>, targets: Seq<Seq<char>>)
    requires
        forall|i: int| 0 <= i < order.len() ==> (#[trigger] order[i]) < targets.len(),
        can_happen(order, keep_going, ms, targets),
    ensures
        ({
            let v = course(order, keep_going, ms, targets).now;
            v.phase is Finished && v.schedule.failure is None ==> v.schedule.rest.len() == 0 && v.schedule.locked.len() == 0
        }),
    decreases ms.len(),
{
    if ms.len() > 0 {
        let c = course(order, keep_going, ms.drop_last(), targets);
        lemma_finished_leaves_none(order, keep_going, ms.drop_last(), targets);
        lemma_course_keeps_account(order, keep_going, ms.drop_last(), targets);
        if let Move::Step { e, running } = ms.last() {
            if run_step(c.now, e, running, targets).1.phase is Finished {
                law_finished_means_done(c.now, e, running, targets);
            }
        }
    }
}

/// Only targets that the build was asked for are started, and none whose name holds a line feed: of a list with such a name
/// there is no build.
pub proof fn law_started_names(order: Seq<usize>, keep_going: bool, ms: Seq<Move>, targets: Seq<Seq<char>>, i: int)
    requires
        forall|i: int| 0 <= i < order.len() ==> (#[trigger] order[i]) < targets.len(),
        first_bad(targets, order) is None,
        can_happen(order, keep_going, ms, targets),
        0 <= i < course(order, keep_going, ms, targets).actions.len(),
    ensures
        started(course(order, keep_going, ms, targets).actions[i]) matches Some(x) ==> order.contains(x)
            && !targets[x as int].contains('\n'),
{
    lemma_course_keeps_account(order, keep_going, ms, targets);
    if started(course(order, keep_going, ms, targets).actions[i]) is Some {
        let x = started(course(order, keep_going, ms, targets).actions[i])->0;
        let k = choose|k: int| 0 <= k < order.len() && order[k] == x;
        lemma_no_bad_name(targets, order, k);
    }
}

proof fn lemma_no_bad_name(targets: Seq<Seq<char>>, order: Seq<usize>, k: int)
    requires
        first_bad(targets, order) is None,
        0 <= k < order.len(),
    ensures
        !targets[order[k] as int].contains('\n'),
    decreases order.len(),
{
    if k > 0 {
        lemma_no_bad_name(targets, order.skip(1), k - 1);
        assert(order.skip(1)[k - 1] == order[k]);
    }
}

/// A failed job is never forgotten: whatever happens then, the build has failed.
pub proof fn law_failure_stays(v: RunnerView, e: Event, running: bool, targets: Seq<Seq<char>>)
    requires
        v.schedule.failure is Some,
        expected(v.phase, e),
    ensures
        run_step(v, e, running, targets).1.schedule.failure is Some,
        forall|t: Seq<char>, rv: int, late: bool| (#[trigger] job_end(v, t, rv, late)).schedule.failure is Some,
{
    lemma_failure_kept(v.schedule, targets);
}

proof fn lemma_failure_kept(s: ScheduleView, targets: Seq<Seq<char>>)
    requires
        s.failure is Some,
    ensures
        next_turn(s, targets).1.failure is Some,
    decreases s.rest.len(),
{
    if s.rest.len() > 0 {
        let t = targets[s.rest[0] as int];
        if t.len() > 0 && s.seen.contains(t) {
            lemma_failure_kept(ScheduleView { rest: s.rest.skip(1), ..s }, targets);
        }
    }
}

/// A job that succeeds changes nothing about a build. One that fails makes the build fail; a job of the first round says which
/// target it was and how it ended.
pub proof fn law_job_end_counts(v: RunnerView, target: Seq<char>, rv: int, late: bool)
    ensures
        rv == 0 ==> job_end(v, target, rv, late) == v,
        rv != 0 ==> {
            let w = job_end(v, target, rv, late);
            &&& w.schedule.failure matches Some(f) && f.kind is Generic && (late <==> f.cause is None)
            &&& !late ==> w.schedule.failure->0.cause == Some(
                generic(quoted(target) + ": exit code "@ + decimal_int(rv)),
            )
            &&& w == (RunnerView { schedule: ScheduleView { failure: w.schedule.failure, ..v.schedule }, ..v })
        },
{
}

/// Once a build has failed, no further target is locked or started, unless it was asked to go on. As long as it has not failed, or
/// was asked to go on, the target whose turn it is gets locked, and those that were put off are tried again one after the other.
pub proof fn law_failed_build_stops(v: RunnerView, e: Event, running: bool, targets: Seq<Seq<char>>, i: usize)
    requires
        expected(v.phase, e),
    ensures
        ({
            let s = v.schedule;
            let (a, w) = run_step(v, e, running, targets);
            &&& s.failure is Some && !s.keep_going ==> !(a is TryLock) && !(a is TryLockAgain)
            &&& v.phase is WaitingAll && s.failure is Some && !s.keep_going ==> a is Finish
            &&& v.phase == Phase::Token(i) && (s.failure is None || s.keep_going) ==> {
                &&& a == Action::TryLock(i)
                &&& w == (RunnerView { phase: Phase::Locking(i), ..v })
            }
            &&& v.phase is WaitingAll && s.locked.len() > 0 && (s.failure is None || s.keep_going) ==> {
                &&& a == Action::TryLockAgain(s.locked[0].0, s.locked[0].1)
                &&& w.phase matches Phase::LockingAgain { fid, target, backoff } && fid == s.locked[0].0 && target
                    == s.locked[0].1
                &&& w.schedule == (ScheduleView { locked: s.locked.skip(1), ..s })
            }
        }),
{
    lemma_next_turn_only(v.schedule, targets);
}

proof fn lemma_next_turn_only(s: ScheduleView, targets: Seq<Seq<char>>)
    ensures
        next_turn(s, targets).1.locked == s.locked,
    decreases s.rest.len(),
{
    if s.rest.len() > 0 {
        lemma_next_turn_only(ScheduleView { rest: s.rest.skip(1), ..s }, targets);
    }
}

/// A target that we could lock is started at once. One that somebody else is building is put off, behind those that already were.
pub proof fn law_busy_targets_are_put_off(v: RunnerView, fid: i64, owned: bool, running: bool, targets: Seq<Seq<char>>, i: usize)
    requires
        v.phase == Phase::Locking(i),
    ensures
        ({
            let s = v.schedule;
            let (a, w) = run_step(v, Event::Lock { fid, owned }, running, targets);
            &&& w.phase is FirstTurn
            &&& owned ==> a == Action::Start(i) && w.schedule == s
            &&& !owned ==> {
                &&& a == Action::SayLocked(i)
                &&& w.schedule.locked.len() == s.locked.len() + 1
                &&& w.schedule.locked.last() == (fid, i)
                &&& forall|j: int| 0 <= j < s.locked.len() ==> (#[trigger] w.schedule.locked[j]) == s.locked[j]
                &&& w.schedule == (ScheduleView { locked: w.schedule.locked, ..s })
            }
        }),
{
}

/// A target that was put off is waited for until we hold its lock, in pauses that get longer, up to a second. Once we hold it, it is
/// seen whether somebody else has failed to build it. If so, the build has failed, and the target is unlocked and not
/// started; if not it is started.
pub proof fn law_put_off_targets_are_waited_for(
    v: RunnerView,
    n: i64,
    yes: bool,
    running: bool,
    targets: Seq<Seq<char>>,
    i: usize,
    fid: i64,
    ms: u64,
)
    ensures
        v.phase == (Phase::LockingAgain { fid, target: i, backoff: ms }) ==> {
            let (a, w) = run_step(v, Event::Lock { fid: n, owned: yes }, running, targets);
            &&& yes ==> a == Action::LookAgain(i) && w.phase == Phase::Looking(i)
            &&& !yes ==> {
                &&& a matches Action::Pause(m) && m <= ms && m <= 1000 && (m == ms || m == 1000)
                &&& w.phase matches Phase::Pausing { fid: f, target, backoff } && f == fid && target == i && (if ms < 1000 {
                    backoff == 2 * ms
                } else {
                    backoff == ms
                })
            }
            &&& w.schedule == v.schedule
        },
        v.phase == (Phase::Pausing { fid, target: i, backoff: ms }) ==> run_step(v, Event::Done, running, targets) == (
            Action::WaitForLock(i),
            RunnerView { phase: Phase::LockingAgain { fid, target: i, backoff: ms }, ..v },
        ),
        v.phase == Phase::Looking(i) ==> {
            let (a, w) = run_step(v, Event::Looked { failed: yes }, running, targets);
            &&& w.phase is SecondTurn
            &&& yes ==> a == Action::Unlock(i) && (w.schedule.failure matches Some(f) && f.kind
                == BuildErrorView::FailedInAnotherThread(targets[i as int]))
            &&& !yes ==> a == Action::StartLate(i) && w.schedule == v.schedule
        },
{
}

/// A build does not finish as long as a job runs or a target is put off, unless it has failed and was not asked to go on. It
/// waits then.
pub proof fn law_jobs_are_waited_for(v: RunnerView, e: Event, running: bool, targets: Seq<Seq<char>>)
    requires
        expected(v.phase, e),
    ensures
        ({
            let s = v.schedule;
            let (a, w) = run_step(v, e, running, targets);
            &&& a is Finish && (s.failure is None || s.keep_going) ==> !running && s.locked.len() == 0
            &&& a is Finish && running ==> v.phase is WaitingAll
            &&& a is Finish <==> w.phase is Finished
            &&& a is WaitAll <==> w.phase is WaitingAll
            &&& (v.phase is SecondTurn || v.phase is Nameless) && (running || s.locked.len() > 0) ==> a is WaitAll
        }),
{
    lemma_next_turn_only(v.schedule, targets);
}

} // verus!
