//! Decisions of a GNU make-compatible jobserver.
//!
//! The basic idea is that both ends of a pipe (tokenfds) are shared with all
//! subprocesses.  At startup, we write one "token" into the pipe for each
//! configured job but one, whose token is our own. (So eg. redo -j20 will put
//! 19 tokens in the pipe.)  In order to do more work at a time, you must first
//! obtain another token, by reading the other end of the pipe.  When you're done working, you write the token back into
//! the pipe so that someone else can grab it.
//!
//! The toplevel process in the hierarchy is what creates the pipes in the
//! first place.  Then it puts the pipe file descriptor numbers into MAKEFLAGS,
//! so that subprocesses can pull them back out.
//!
//! As usual, edge cases make all this a bit tricky:
//!
//! - Every process is defined as owning a token at startup time.  This makes
//!   sense because it's backward compatible with single-process make: if a
//!   subprocess neither reads nor writes the pipe, then it has exactly one
//!   token, so it's allowed to do one thread of work.
//!
//! - Thus, for symmetry, processes also must own a token at exit time.
//!
//! - In turn, to make *that* work, a parent process must destroy *its* token
//!   upon launching a subprocess.  (Destroy, not release, because the
//!   subprocess has created its own token.) It can try to obtain another
//!   token, but if none are available, it has to stop work until one of its
//!   subprocesses finishes.  When the subprocess finishes, its token is
//!   destroyed, so the parent creates a new one.
//!
//! - If our process is going to stop and wait for a lock (eg. because we
//!   depend on a target and someone else is already building that target),
//!   we must give up our token.  Otherwise, we're sucking up a "thread" (a
//!   unit of parallelism) just to do nothing.
//!
//! - Unfortunately this leads to a problem: if we give up our token, we then
//!   have to re-acquire a token before exiting, even if we want to exit with
//!   an error code.
//!
//! - redo-log wants to linearize output so that it always prints log messages
//!   in the order jobs were started; but because of the above, a job being
//!   logged might end up with no tokens for a long time, waiting for some
//!   other branch of the build to complete.
//!
//! As a result, we extend beyond GNU make's model.  We add a second pipe,
//! cheatfds, which we use to "cheat" on tokens if our particular job is in the
//! foreground.  If we are the foreground task, and we need a token, and we
//! don't have a token, and we don't have any subtasks, we synthesize our own
//! token, but we don't read from tokenfds.  Then, when it's time to give up our
//! token again, we also won't write back to tokenfds, so the synthesized token
//! disappears.
//!
//! A process that holds a cheat token when it exits writes it to cheatfds.
//! Then, any task, upon noticing one of its subprocesses has finished, will
//! check to see if there are any tokens on cheatfds; if so, it will remove one
//! of them and *not* re-create its child's token, thus destroying the cheater
//! token from earlier, and restoring balance.
//!
//! Reading, writing, waiting and forking are not done here: the functions say what is to be
//! written, read or waited for, and take what came of it.

use vstd::prelude::*;
use vstd::string::*;
use vstd::utf8::*;
use crate::error::{
    debug_str, generic, opaque, plain, quoted, wrapped, ErrorView, KindView, RedoError, RedoErrorKind,
};
use crate::exits::EXIT_INVALID_JOBSERVER;
use crate::redopath::{utf8_error, utf8_text};
use crate::text::{
    append_bytes, dec_i64, dec_u64, decimal, decimal_int, find_bytes, first_occurrence, from_chars,
    int_error, int_error_text, lemma_decimal_chars, lemma_first_occurrence, parse_i32, parsed_within,
    to_chars,
};

verus! {

/// The flags with a space before and behind them.
pub open spec fn padded(flags: Seq<u8>) -> Seq<u8> {
    seq![0x20u8] + flags + seq![0x20u8]
}

/// The flag by which GNU make names the jobserver since version 4.2.
pub open spec fn auth_flag() -> Seq<u8> {
    " --jobserver-auth=".spec_bytes()
}

/// The flag by which GNU make named the jobserver before.
pub open spec fn fds_flag() -> Seq<u8> {
    " --jobserver-fds=".spec_bytes()
}

/// Where the argument of the jobserver flag starts in padded flags, if there is one.
pub open spec fn arg_start(padded: Seq<u8>) -> Option<int> {
    match first_occurrence(padded, auth_flag()) {
        Some(i) => Some(i + auth_flag().len()),
        None => match first_occurrence(padded, fds_flag()) {
            Some(i) => Some(i + fds_flag().len()),
            None => None,
        },
    }
}

/// How many bytes of `s` come before the first space, or all.
pub open spec fn word_len(s: Seq<u8>) -> int
    decreases s.len(),
{
    if s.len() == 0 || s[0] == 0x20 {
        0
    } else {
        1 + word_len(s.skip(1))
    }
}

/// Where the first comma is.
pub open spec fn first_comma(s: Seq<char>) -> Option<int>
    decreases s.len(),
{
    if s.len() == 0 {
        None
    } else if s[0] == ',' {
        Some(0)
    } else {
        match first_comma(s.skip(1)) {
            Some(i) => Some(i + 1),
            None => None,
        }
    }
}

/// A pair of file descriptors written as two numbers with a comma between.
pub open spec fn fd_pair(s: Seq<char>) -> Option<(int, int)> {
    match first_comma(s) {
        None => None,
        Some(i) => match (
            parsed_within(s.take(i), i32::MIN as int, i32::MAX as int),
            parsed_within(s.skip(i + 1), i32::MIN as int, i32::MAX as int),
        ) {
            (Some(a), Some(b)) => Some((a, b)),
            _ => None,
        },
    }
}

/// The jobserver that flags name.
pub open spec fn makeflags_fds(flags: Seq<u8>) -> Result<Option<(int, int)>, ErrorView> {
    let p = padded(flags);
    match arg_start(p) {
        None => Ok(None),
        Some(start) => {
            let rest = p.skip(start);
            let arg = rest.take(word_len(rest));
            if !valid_utf8(arg) {
                Err(wrapped(generic(utf8_error(arg)), "invalid MAKEFLAGS"@))
            } else {
                match fd_pair(decode_utf8(arg)) {
                    Some(fds) => Ok(Some(fds)),
                    None => Err(bad_auth(decode_utf8(arg))),
                }
            }
        },
    }
}

/// Whether a text is a number that fits into a file descriptor.
pub open spec fn is_fd(s: Seq<char>) -> bool {
    parsed_within(s, i32::MIN as int, i32::MAX as int) is Some
}

/// The error for an argument that is no pair of file descriptors: it wraps what is wrong with the first of the two numbers
/// that is none, if there are two.
pub open spec fn bad_auth(arg: Seq<char>) -> ErrorView {
    let msg = "invalid --jobserver-auth: "@ + arg;
    match first_comma(arg) {
        None => generic(msg),
        Some(i) => {
            let bad = if is_fd(arg.take(i)) {
                arg.skip(i + 1)
            } else {
                arg.take(i)
            };
            wrapped(generic(int_error(bad)), msg)
        },
    }
}

/// A pair as mathematical integers.
pub open spec fn int_pair(p: Option<(i32, i32)>) -> Option<(int, int)> {
    match p {
        Some((a, b)) => Some((a as int, b as int)),
        None => None,
    }
}

/// Where the first comma is.
fn find_comma(s: &[char]) -> (r: Option<usize>)
    ensures
        match r {
            Some(i) => i < s.len() && first_comma(s@) == Some(i as int),
            None => first_comma(s@) is None,
        },
{
    let mut i: usize = 0;
    assert(s@.skip(0) =~= s@);
    while i < s.len() && s[i] != ','
        invariant
            i <= s.len(),
            first_comma(s@) == match first_comma(s@.skip(i as int)) {
                Some(k) => Some(k + i),
                None => None,
            },
        decreases s.len() - i,
    {
        assert(s@.skip(i as int).skip(1) =~= s@.skip(i + 1));
        i = i + 1;
    }
    if i == s.len() {
        None
    } else {
        assert(s@.skip(i as int)[0] == ',');
        Some(i)
    }
}

/// A pair of file descriptors written as two numbers with a comma between.
fn parse_fd_pair(s: &[char]) -> (r: Option<(i32, i32)>)
    ensures
        int_pair(r) == fd_pair(s@),
{
    let i: usize = match find_comma(s) {
        None => return None,
        Some(i) => i,
    };
    let left = vstd::slice::slice_subrange(s, 0, i);
    let right = vstd::slice::slice_subrange(s, i + 1, s.len());
    assert(left@ =~= s@.take(i as int));
    assert(right@ =~= s@.skip(i + 1));
    match (parse_i32(left), parse_i32(right)) {
        (Some(a), Some(b)) => Some((a, b)),
        _ => None,
    }
}

/// The error for an argument that is no pair of file descriptors.
fn bad_auth_error(arg: &str) -> (r: RedoError)
    ensures
        r@ == bad_auth(arg@),
{
    let mut msg = "invalid --jobserver-auth: ".to_owned();
    msg.append(arg);
    let c = to_chars(arg);
    match find_comma(c.as_slice()) {
        None => RedoError::new(msg.as_str()),
        Some(i) => {
            let left = vstd::slice::slice_subrange(c.as_slice(), 0, i);
            let right = vstd::slice::slice_subrange(c.as_slice(), i + 1, c.len());
            assert(left@ =~= arg@.take(i as int));
            assert(right@ =~= arg@.skip(i + 1));
            let bad = match parse_i32(left) {
                Some(_) => from_chars(right),
                None => from_chars(left),
            };
            RedoError::wrap(RedoError::new(int_error_text(bad.as_str()).as_str()), msg.as_str())
        },
    }
}

/// A result over views.
pub open spec fn fds_result(r: Result<Option<(i32, i32)>, RedoError>) -> Result<Option<(int, int)>, ErrorView> {
    match r {
        Ok(p) => Ok(int_pair(p)),
        Err(e) => Err(e@),
    }
}

/// The file descriptors of the jobserver that the flags in `MAKEFLAGS` name.
pub fn parse_makeflags(flags: &[u8]) -> (r: Result<Option<(i32, i32)>, RedoError>)
    ensures
        fds_result(r) == makeflags_fds(flags@),
{
    let mut p: Vec<u8> = Vec::new();
    p.push(0x20);
    append_bytes(&mut p, flags);
    p.push(0x20);
    assert(p@ =~= padded(flags@));
    let auth = " --jobserver-auth=".as_bytes();
    let fds = " --jobserver-fds=".as_bytes();
    let start: usize = match find_bytes(p.as_slice(), auth) {
        Some(i) => i + auth.len(),
        None => match find_bytes(p.as_slice(), fds) {
            Some(i) => i + fds.len(),
            None => return Ok(None),
        },
    };
    let ghost rest = p@.skip(start as int);
    let mut end: usize = start;
    assert(rest.skip(0) =~= rest);
    while end < p.len() && p[end] != 0x20
        invariant
            start <= end <= p.len(),
            rest == p@.skip(start as int),
            word_len(rest) == (end - start) + word_len(rest.skip(end - start)),
        decreases p.len() - end,
    {
        assert(rest.skip(end - start)[0] == p@[end as int]);
        assert(rest.skip(end - start).skip(1) =~= rest.skip(end - start + 1));
        end = end + 1;
    }
    let arg = vstd::slice::slice_subrange(p.as_slice(), start, end);
    proof {
        if end < p.len() {
            assert(rest.skip(end - start)[0] == p@[end as int]);
        }
        assert(word_len(rest) == end - start);
        assert(arg@ =~= rest.take(end - start));
    }
    match utf8_text(arg) {
        Err(e) => Err(RedoError::wrap(RedoError::new(e.as_str()), "invalid MAKEFLAGS")),
        Ok(s) => {
            let c = to_chars(s.as_str());
            match parse_fd_pair(c.as_slice()) {
                Some(fds) => Ok(Some(fds)),
                None => Err(bad_auth_error(s.as_str())),
            }
        },
    }
}

/// Where tokens come from.
#[derive(Clone, Copy, Debug, Eq, PartialEq, Structural)]
pub enum TokenSource {
    /// From the parent's jobserver, by these file descriptors.
    Parent(i32, i32),
    /// From a new jobserver.
    New {
        /// Whether the user is warned about it.
        warn: bool,
    },
}

/// Where a process gets its tokens from, given what the flags say, whether the file
/// descriptors that they name are open, and how many jobs the user asks for.
pub open spec fn token_source(fds: Option<(int, int)>, open: bool, max_jobs: int) -> Result<TokenSource, ErrorView> {
    match fds {
        None => Ok(TokenSource::New { warn: false }),
        Some((a, b)) => if !open {
            Err(
                plain(
                    KindView::ImmediateExit(EXIT_INVALID_JOBSERVER),
                    "broken --jobserver-auth from parent process"@,
                ),
            )
        } else if max_jobs == 0 {
            Ok(TokenSource::Parent(a as i32, b as i32))
        } else {
            Ok(TokenSource::New { warn: max_jobs != 1 })
        },
    }
}

/// Where a process gets its tokens from.
pub fn choose_tokens(fds: Option<(i32, i32)>, open: bool, max_jobs: i32) -> (r: Result<TokenSource, RedoError>)
    requires
        max_jobs >= 0,
    ensures
        (match r {
            Ok(t) => Ok(t),
            Err(e) => Err(e@),
        }) == token_source(int_pair(fds), open, max_jobs as int),
{
    match fds {
        None => Ok(TokenSource::New { warn: false }),
        Some((a, b)) => {
            if !open {
                return Err(
                    RedoError::immediate_exit(
                        EXIT_INVALID_JOBSERVER,
                        "broken --jobserver-auth from parent process",
                    ),
                );
            }
            if max_jobs == 0 {
                // user requested zero tokens, which means use the parent jobserver
                // if it exists.
                Ok(TokenSource::Parent(a, b))
            } else if max_jobs == 1 {
                // user requested exactly one token, which means they want to
                // serialize us, even if the parent redo is running in parallel.
                // That's pretty harmless, so allow it without a warning.
                Ok(TokenSource::New { warn: false })
            } else {
                // user requested more than one token, even though we have a parent
                // jobserver, which is fishy.  Warn about it, like make does.
                Ok(TokenSource::New { warn: true })
            }
        },
    }
}

/// The jobserver flags as an error that ends the process.
pub fn makeflags_fds_or_exit(flags: &[u8]) -> (r: Result<Option<(i32, i32)>, RedoError>)
    ensures
        fds_result(r) == match makeflags_fds(flags@) {
            Ok(p) => Ok(p),
            Err(e) => Err(ErrorView { kind: KindView::ImmediateExit(EXIT_INVALID_JOBSERVER), ..e }),
        },
{
    match parse_makeflags(flags) {
        Ok(p) => Ok(p),
        Err(e) => Err(e.with_kind(RedoErrorKind::ImmediateExit(EXIT_INVALID_JOBSERVER))),
    }
}

/// The name of the variable that names the pipe for cheat tokens.
pub const ENV_CHEATFDS: &'static str = "REDO_CHEATFDS";

/// The name of the variable that names the jobserver.
pub const ENV_MAKEFLAGS: &'static str = "MAKEFLAGS";

/// The pipe for cheat tokens that the parent has, if a process uses the parent's jobserver.
pub open spec fn cheat_fds(max_jobs: int, var: Seq<char>) -> Result<Option<(int, int)>, ErrorView> {
    if max_jobs != 0 || var.len() == 0 {
        Ok(None)
    } else {
        match fd_pair(var) {
            Some(fds) => Ok(Some(fds)),
            None => Err(generic("invalid REDO_CHEATFDS: "@ + quoted(var))),
        }
    }
}

/// The pipe for cheat tokens that the parent has, from the value of `REDO_CHEATFDS`.
pub fn parse_cheatfds(max_jobs: i32, var: &str) -> (r: Result<Option<(i32, i32)>, RedoError>)
    ensures
        fds_result(r) == cheat_fds(max_jobs as int, var@),
{
    let c = to_chars(var);
    if max_jobs != 0 || c.len() == 0 {
        return Ok(None);
    }
    match parse_fd_pair(c.as_slice()) {
        Some(fds) => Ok(Some(fds)),
        None => {
            let mut msg = "invalid REDO_CHEATFDS: ".to_owned();
            msg.append(debug_str(var).as_str());
            Err(RedoError::new(msg.as_str()))
        },
    }
}

/// The value of `REDO_CHEATFDS` for a new pipe.
pub fn cheatfds_value(a: i32, b: i32) -> (r: String)
    ensures
        r@ == decimal_int(a as int) + ","@ + decimal_int(b as int),
{
    let mut s = dec_i64(a as i64);
    s.append(",");
    s.append(dec_i64(b as i64).as_str());
    s
}

/// The value of `MAKEFLAGS` for a new jobserver.
pub open spec fn makeflags_text(a: int, b: int) -> Seq<char> {
    " -j --jobserver-auth="@ + decimal_int(a) + ","@ + decimal_int(b) + " --jobserver-fds="@ + decimal_int(a) + ","@
        + decimal_int(b)
}

/// The value of `MAKEFLAGS` for a new jobserver.
pub fn makeflags_value(a: i32, b: i32) -> (r: String)
    ensures
        r@ == makeflags_text(a as int, b as int),
{
    let mut s = " -j --jobserver-auth=".to_owned();
    s.append(dec_i64(a as i64).as_str());
    s.append(",");
    s.append(dec_i64(b as i64).as_str());
    s.append(" --jobserver-fds=");
    s.append(dec_i64(a as i64).as_str());
    s.append(",");
    s.append(dec_i64(b as i64).as_str());
    s
}

/// A running job: the file descriptor that tells when it has ended, and its process.
#[derive(Debug)]
pub struct Job {
    pub fd: i32,
    pub pid: i32,
    pub name: String,
}

/// What is known about a job.
pub struct JobView {
    pub fd: i32,
    pub pid: i32,
    pub name: Seq<char>,
}

impl View for Job {
    type V = JobView;

    open spec fn view(&self) -> JobView {
        JobView { fd: self.fd, pid: self.pid, name: self.name@ }
    }
}

/// What is known about jobs.
pub open spec fn job_views(jobs: Seq<Job>) -> Seq<JobView> {
    jobs.map_values(|j: Job| j@)
}

/// Mutable information about a jobserver's client.
#[derive(Debug)]
pub struct ServerState {
    my_tokens: i32,
    cheats: i32,
    jobs: Vec<Job>,
    next_token_stream_id: i64,
    token_wakers: Vec<i64>,
    timers: Vec<u64>,
}

/// What a jobserver's client knows.
pub struct ServerView {
    /// The tokens that it holds.
    pub my_tokens: int,
    /// How many of them it has made itself.
    pub cheats: int,
    /// Its running jobs.
    pub jobs: Seq<JobView>,
    /// The number of the next one to wait for a token.
    pub next_id: int,
    /// Who waits for a token, who is next first.
    pub waiting: Seq<i64>,
    /// When sleepers want to be woken, in order.
    pub timers: Seq<u64>,
}

impl View for ServerState {
    type V = ServerView;

    closed spec fn view(&self) -> ServerView {
        ServerView {
            my_tokens: self.my_tokens as int,
            cheats: self.cheats as int,
            jobs: job_views(self.jobs@),
            next_id: self.next_token_stream_id as int,
            waiting: self.token_wakers@,
            timers: self.timers@,
        }
    }
}

impl ServerView {
    /// What holds of a client at all times: nothing is counted below zero, and timers are in order.
    pub open spec fn wf(self) -> bool {
        &&& 0 <= self.my_tokens
        &&& 0 <= self.cheats <= i32::MAX
        &&& self.my_tokens + self.jobs.len() <= i32::MAX
        &&& 0 <= self.next_id <= i64::MAX
        &&& forall|i: int, j: int| 0 <= i < j < self.timers.len() ==> self.timers[i] <= self.timers[j]
    }

    /// The real tokens that the client accounts for: those that it holds and has not made itself,
    /// and one for each running job.
    pub open spec fn balance(self) -> int {
        self.my_tokens - self.cheats + self.jobs.len()
    }

    /// The real tokens that the client holds.
    pub open spec fn genuine(self) -> int {
        self.my_tokens - self.cheats
    }

    /// The client with other tokens.
    pub open spec fn with_tokens(self, my_tokens: int, cheats: int) -> ServerView {
        ServerView { my_tokens, cheats, ..self }
    }
}

/// The smaller of two numbers.
pub open spec fn lesser(a: int, b: int) -> int {
    if a < b {
        a
    } else {
        b
    }
}

/// A client that has made `n` tokens. Each token of its own making is destroyed by one of them.
pub open spec fn created(v: ServerView, n: int) -> ServerView {
    let eaten = lesser(n, v.cheats);
    v.with_tokens(v.my_tokens + n - eaten, v.cheats - eaten)
}

/// A client that has given up `n` tokens. Those of its own making go first, and are not
/// handed on to others.
pub open spec fn released(v: ServerView, n: int) -> ServerView {
    v.with_tokens(v.my_tokens - n, v.cheats - lesser(n, v.cheats))
}

/// How many of `n` released tokens are handed on to others.
pub open spec fn shared(v: ServerView, n: int) -> int {
    n - lesser(n, v.cheats)
}

/// A client that has just started.
pub open spec fn first_view() -> ServerView {
    ServerView { my_tokens: 1, cheats: 0, jobs: seq![], next_id: 0, waiting: seq![], timers: seq![] }
}

impl Default for ServerState {
    fn default() -> (r: ServerState)
        ensures
            r@ == first_view(),
            r@.wf(),
    {
        let r = ServerState {
            my_tokens: 1,
            cheats: 0,
            jobs: Vec::new(),
            next_token_stream_id: 0,
            token_wakers: Vec::new(),
            timers: Vec::new(),
        };
        assert(r@.jobs =~= seq![]);
        assert(r@.waiting =~= seq![]);
        assert(r@.timers =~= seq![]);
        r
    }
}

impl ServerState {
    /// Materialize and own `n` tokens.
    ///
    /// If there are any cheater tokens active, they each destroy one matching
    /// newly-created token.
    pub fn create_tokens(&mut self, n: i32)
        requires
            n >= 0,
            old(self)@.cheats >= 0,
            old(self)@.my_tokens + n <= i32::MAX,
        ensures
            final(self)@ == created(old(self)@, n as int),
    {
        let ghost before = self@;
        let mut i: i32 = 0;
        while i < n
            invariant
                0 <= i <= n,
                before.cheats >= 0,
                before.my_tokens + n <= i32::MAX,
                self@ == created(before, i as int),
            decreases n - i,
        {
            if self.cheats > 0 {
                self.cheats = self.cheats - 1;
            } else {
                self.my_tokens = self.my_tokens + 1;
            }
            i = i + 1;
        }
    }

    /// Destroy n tokens that are currently in our posession.
    pub fn destroy_tokens(&mut self, n: i32)
        requires
            n >= 0,
            old(self)@.my_tokens >= n,
        ensures
            final(self)@ == old(self)@.with_tokens(old(self)@.my_tokens - n, old(self)@.cheats),
    {
        self.my_tokens = self.my_tokens - n;
    }

    /// Whether any job is running.
    pub fn is_running(&self) -> (r: bool)
        ensures
            r == (self@.jobs.len() > 0),
    {
        assert(self@.jobs.len() == self.jobs@.len());
        self.jobs.len() > 0
    }

    /// Whether we hold a token.
    pub fn has_token(&self) -> (r: bool)
        ensures
            r == (self@.my_tokens >= 1),
    {
        self.my_tokens >= 1
    }

    /// The tokens that we hold.
    pub fn my_tokens(&self) -> (r: i32)
        ensures
            r == self@.my_tokens,
    {
        self.my_tokens
    }

    /// The tokens that we have made ourselves.
    pub fn cheats(&self) -> (r: i32)
        ensures
            r == self@.cheats,
    {
        self.cheats
    }

    /// Gives up `n` tokens, and says how many of them have to be written to the pipe.
    pub fn release(&mut self, n: i32) -> (to_share: usize)
        requires
            0 <= n <= old(self)@.my_tokens,
            0 <= old(self)@.cheats,
        ensures
            final(self)@ == released(old(self)@, n as int),
            to_share == shared(old(self)@, n as int),
    {
        let ghost before = self@;
        let mut n_to_share: usize = 0;
        let mut i: i32 = 0;
        while i < n
            invariant
                0 <= i <= n <= before.my_tokens,
                0 <= before.cheats,
                self@ == released(before, i as int),
                n_to_share == shared(before, i as int),
                n_to_share <= i,
            decreases n - i,
        {
            self.my_tokens = self.my_tokens - 1;
            if self.cheats > 0 {
                self.cheats = self.cheats - 1;
            } else {
                n_to_share = n_to_share + 1;
            }
            i = i + 1;
        }
        n_to_share
    }

    /// Gives up all tokens but one.
    pub fn release_except_mine(&mut self) -> (to_share: usize)
        requires
            old(self)@.my_tokens > 0,
            0 <= old(self)@.cheats,
        ensures
            final(self)@ == released(old(self)@, old(self)@.my_tokens - 1),
            to_share == shared(old(self)@, old(self)@.my_tokens - 1),
    {
        self.release(self.my_tokens - 1)
    }

    /// Gives up one token.
    pub fn release_mine(&mut self) -> (to_share: usize)
        requires
            old(self)@.my_tokens >= 1,
            0 <= old(self)@.cheats,
        ensures
            final(self)@ == released(old(self)@, 1),
            to_share == shared(old(self)@, 1),
    {
        self.release(1)
    }
}

/// Making tokens adds to the balance what was made.
pub proof fn law_create_balance(v: ServerView, n: int)
    requires
        v.wf(),
        n >= 0,
    ensures
        created(v, n).balance() == v.balance() + n,
        created(v, n).my_tokens >= v.my_tokens,
        0 <= created(v, n).cheats <= v.cheats,
{
}

/// Giving up tokens takes from the balance exactly what is handed on to others.
pub proof fn law_release_balance(v: ServerView, n: int)
    requires
        v.wf(),
        0 <= n <= v.my_tokens,
    ensures
        released(v, n).balance() == v.balance() - shared(v, n),
        released(v, n).wf(),
        0 <= shared(v, n) <= n,
{
}

/// What came of trying to read tokens from a pipe without blocking.
#[derive(Debug)]
pub enum TryRead {
    /// Some bytes; none at the end of the file.
    Got(usize),
    /// There was nothing to read.
    Nothing,
    Failed(String),
}

/// What a new jobserver starts with.
#[derive(Debug)]
pub struct NewServer {
    pub state: ServerState,
    /// How many tokens are written to its pipe.
    pub to_share: usize,
    /// How many tokens there are in all.
    pub top_level: i32,
}

/// Starts a new jobserver for the given number of jobs, one if the user has not said.
pub fn new_server(max_jobs: i32) -> (r: NewServer)
    requires
        max_jobs >= 0,
    ensures
        r.top_level == if max_jobs == 0 { 1 } else { max_jobs as int },
        r.to_share == r.top_level - 1,
        r.state@ == first_view(),
        r.state@.wf(),
{
    let realmax: i32 = if max_jobs == 0 {
        1
    } else {
        max_jobs
    };
    let mut state = ServerState::default();
    state.create_tokens(realmax - 1);
    let to_share: usize = state.release_except_mine();
    NewServer { state, to_share, top_level: realmax }
}

/// What the main loop does next.
#[derive(Debug)]
pub enum Step {
    /// Somebody can go on at once.
    GoOn,
    /// There is nothing to do for so many nanoseconds.
    Sleep(u64),
    /// Nobody will ever go on.
    Deadlock,
    /// Wait until one of the file descriptors can be read, but no longer than so many nanoseconds.
    Select(Vec<i32>, Option<u64>),
}

/// How many of the timers lie before `now`, up to the first that does not.
pub open spec fn due(timers: Seq<u64>, now: u64) -> int
    decreases timers.len(),
{
    if timers.len() == 0 || timers[0] >= now {
        0
    } else {
        1 + due(timers.skip(1), now)
    }
}

/// A client at the beginning of a round of the main loop: timers that are due are taken off,
/// and if there is a token, whoever is next for it is.
pub open spec fn woken(v: ServerView, now: u64) -> ServerView {
    ServerView {
        timers: v.timers.skip(due(v.timers, now)),
        waiting: if v.my_tokens >= 1 && v.waiting.len() > 0 {
            v.waiting.skip(1)
        } else {
            v.waiting
        },
        ..v
    }
}

/// The file descriptors to wait for: those of the jobs, and that of the tokens if anybody needs one.
pub open spec fn wait_list(v: ServerView, token_fd: i32) -> Seq<i32> {
    v.jobs.map_values(|j: JobView| j.fd) + (if v.waiting.len() > 0 {
        seq![token_fd]
    } else {
        seq![]
    })
}

/// How long until the first timer is due.
pub open spec fn delay(v: ServerView, now: u64) -> Option<u64> {
    if v.timers.len() == 0 {
        None
    } else {
        Some((v.timers[0] - now) as u64)
    }
}

proof fn lemma_due(timers: Seq<u64>, now: u64, k: int)
    requires
        0 <= k <= timers.len(),
        forall|i: int| 0 <= i < k ==> timers[i] < now,
        k < timers.len() ==> timers[k] >= now,
    ensures
        due(timers, now) == k,
    decreases k,
{
    if k > 0 {
        lemma_due(timers.skip(1), now, k - 1);
    }
}

impl ServerState {
    /// What the main loop does next, once everything that could go on has done so.
    pub fn plan(&mut self, now: u64, token_fd: i32) -> (r: Step)
        requires
            old(self)@.wf(),
        ensures
            final(self)@ == woken(old(self)@, now),
            final(self)@.wf(),
            ({
                let v = woken(old(self)@, now);
                let someone = v != old(self)@;
                let fds = wait_list(v, token_fd);
                match r {
                    Step::GoOn => someone,
                    Step::Sleep(d) => !someone && fds.len() == 0 && delay(v, now) == Some(d),
                    Step::Deadlock => !someone && fds.len() == 0 && delay(v, now) is None,
                    Step::Select(l, d) => !someone && fds.len() > 0 && l@ == fds && d == delay(v, now),
                }
            }),
    {
        let ghost before = self@;
        // If there are any timers that have triggered during the run, don't
        // bother waiting on I/O.
        let mut k: usize = 0;
        while k < self.timers.len() && self.timers[k] < now
            invariant
                k <= self.timers.len(),
                forall|i: int| 0 <= i < k ==> self.timers@[i] < now,
            decreases self.timers.len() - k,
        {
            k = k + 1;
        }
        proof {
            lemma_due(self.timers@, now, k as int);
        }
        let rest = self.timers.split_off(k);
        self.timers = rest;
        assert(self.timers@ =~= before.timers.skip(k as int));
        // Similarly, if there is anybody who can have a token, wake the first.
        let mut woke = k > 0;
        if self.my_tokens >= 1 && self.token_wakers.len() > 0 {
            let _ = self.token_wakers.remove(0);
            assert(self.token_wakers@ =~= before.waiting.skip(1));
            woke = true;
        }
        proof {
            assert(self@ == woken(before, now));
            assert(k > 0 ==> self@.timers.len() < before.timers.len());
            if k == 0 {
                assert(before.timers.skip(0) =~= before.timers);
            }
            assert forall|i: int, j: int| 0 <= i < j < self@.timers.len() implies self@.timers[i] <= self@.timers[j] by {
                assert(self@.timers[i] == before.timers[i + k]);
                assert(self@.timers[j] == before.timers[j + k]);
            }
        }
        if woke {
            return Step::GoOn;
        }
        let mut fds: Vec<i32> = Vec::new();
        let mut i: usize = 0;
        while i < self.jobs.len()
            invariant
                i <= self.jobs.len(),
                fds@ == job_views(self.jobs@).take(i as int).map_values(|j: JobView| j.fd),
            decreases self.jobs.len() - i,
        {
            fds.push(self.jobs[i].fd);
            i = i + 1;
            assert(fds@ =~= job_views(self.jobs@).take(i as int).map_values(|j: JobView| j.fd));
        }
        assert(job_views(self.jobs@).take(i as int) =~= job_views(self.jobs@));
        if self.token_wakers.len() > 0 {
            fds.push(token_fd);
        }
        assert(fds@ =~= wait_list(self@, token_fd));
        let d: Option<u64> = if self.timers.len() == 0 {
            None
        } else {
            Some(self.timers[0] - now)
        };
        if fds.len() == 0 {
            match d {
                Some(d) => Step::Sleep(d),
                None => Step::Deadlock,
            }
        } else {
            Step::Select(fds, d)
        }
    }

    /// Takes in what was read from the pipe of tokens. Reports whether a token was read, and
    /// with it whoever is next for one is taken off the list.
    pub fn token_read(&mut self, read: TryRead) -> (r: Result<bool, RedoError>)
        requires
            old(self)@.wf(),
            old(self)@.my_tokens + old(self)@.jobs.len() < i32::MAX,
            read matches TryRead::Got(n) ==> n <= 1,
        ensures
            final(self)@.wf(),
            match read {
                TryRead::Got(0) => {
                    &&& r matches Err(e) && e@ == generic("unexpected EOF on token read"@)
                    &&& final(self)@ == old(self)@
                },
                TryRead::Got(_) => {
                    &&& r == Ok::<bool, RedoError>(true)
                    &&& final(self)@ == (ServerView {
                        my_tokens: old(self)@.my_tokens + 1,
                        waiting: if old(self)@.waiting.len() > 0 {
                            old(self)@.waiting.skip(1)
                        } else {
                            old(self)@.waiting
                        },
                        ..old(self)@
                    })
                },
                TryRead::Nothing => r == Ok::<bool, RedoError>(false) && final(self)@ == old(self)@,
                TryRead::Failed(text) => r matches Err(e) && e@ == opaque(text@) && final(self)@ == old(self)@,
            },
    {
        let ghost before = self@;
        match read {
            TryRead::Got(n) => {
                if n == 0 {
                    return Err(RedoError::new("unexpected EOF on token read"));
                }
                self.my_tokens = self.my_tokens + 1;
                if self.token_wakers.len() > 0 {
                    let _ = self.token_wakers.remove(0);
                    assert(self.token_wakers@ =~= before.waiting.skip(1));
                }
                Ok(true)
            },
            // Token may have been stolen.
            TryRead::Nothing => Ok(false),
            TryRead::Failed(text) => Err(RedoError::opaque_error(text.as_str())),
        }
    }

    /// The job that tells its end by the given file descriptor.
    pub fn job_at(&self, fd: i32) -> (r: Option<usize>)
        ensures
            match r {
                Some(i) => i < self@.jobs.len() && self@.jobs[i as int].fd == fd,
                None => forall|i: int| 0 <= i < self@.jobs.len() ==> (#[trigger] self@.jobs[i]).fd != fd,
            },
    {
        let mut i: usize = 0;
        while i < self.jobs.len()
            invariant
                i <= self.jobs.len(),
                forall|k: int| 0 <= k < i ==> (#[trigger] self@.jobs[k]).fd != fd,
            decreases self.jobs.len() - i,
        {
            assert(self@.jobs[i as int] == self.jobs@[i as int]@);
            if self.jobs[i].fd == fd {
                return Some(i);
            }
            i = i + 1;
        }
        None
    }

    /// Takes note that a job has ended, given what was read from the pipe of cheat tokens. Gives the job and
    /// how many tokens have to be written to the pipe.
    pub fn job_ended(&mut self, at: usize, cheat: TryRead) -> (r: Result<(Job, usize), RedoError>)
        requires
            old(self)@.wf(),
            at < old(self)@.jobs.len(),
            cheat matches TryRead::Got(n) ==> n <= 1,
        ensures
            match cheat {
                TryRead::Failed(text) => r matches Err(e) && e@ == opaque(text@) && final(self)@ == old(self)@,
                _ => {
                    let eaten = cheat == TryRead::Got(1);
                    let without = ServerView { jobs: old(self)@.jobs.remove(at as int), ..old(self)@ };
                    let back = created(without, 1);
                    &&& r matches Ok((job, n)) && job@ == old(self)@.jobs[at as int] && n == if eaten
                        || back.my_tokens < 1 {
                        0
                    } else {
                        shared(back, back.my_tokens - 1)
                    }
                    &&& final(self)@ == if eaten {
                        without
                    } else if back.my_tokens < 1 {
                        back
                    } else {
                        released(back, back.my_tokens - 1)
                    }
                },
            },
            final(self)@.wf(),
    {
        // redo subprocesses are expected to die without releasing their
        // tokens, so things are less likely to get confused if they
        // die abnormally.  Since a child has died, that means a token has
        // 'disappeared' and we now need to recreate it.
        let ghost before = self@;
        assert(self.jobs@.len() == before.jobs.len());
        let eaten = match cheat {
            // someone exited with cheats > 0, so we need to compensate
            // by *not* re-creating a token now.
            TryRead::Got(n) => n == 1,
            TryRead::Nothing => false,
            TryRead::Failed(text) => return Err(RedoError::opaque_error(text.as_str())),
        };
        let ghost js = self.jobs@;
        let job = self.jobs.remove(at);
        assert(job_views(js)[at as int] == job@);
        assert(self@.jobs =~= before.jobs.remove(at as int));
        let mut n: usize = 0;
        if !eaten {
            self.create_tokens(1);
            if self.has_token() {
                n = self.release_except_mine();
            }
        }
        Ok((job, n))
    }
}

/// How a process ended.
#[derive(Debug)]
pub enum Ended {
    Exited(i32),
    Signaled(i32),
    /// In some other way, described by the text.
    Other(String),
}

/// The status of a job whose process has ended: its exit code, or the negated number of the
/// signal that killed it.
pub fn job_status(end: &Ended) -> (r: Result<i32, RedoError>)
    requires
        end matches Ended::Signaled(s) ==> s > 0,
    ensures
        match end {
            Ended::Exited(code) => r == Ok::<i32, RedoError>(*code),
            Ended::Signaled(s) => r == Ok::<i32, RedoError>((0 - *s) as i32),
            Ended::Other(text) => r matches Err(e) && e@ == generic("unhandled process status: "@ + text@),
        },
{
    match end {
        Ended::Exited(code) => Ok(*code),
        Ended::Signaled(s) => Ok(-*s),
        Ended::Other(text) => {
            let mut msg = "unhandled process status: ".to_owned();
            msg.append(text.as_str());
            Err(RedoError::new(msg.as_str()))
        },
    }
}

/// A job that ends gives back what it was given: the balance changes by nothing but what is
/// written to the pipe, or by the one cheat token that was eaten for it.
pub proof fn law_job_end_balance(v: ServerView, at: int)
    requires
        v.wf(),
        0 <= at < v.jobs.len(),
    ensures
        ({
            let without = ServerView { jobs: v.jobs.remove(at), ..v };
            let back = created(without, 1);
            &&& without.balance() == v.balance() - 1
            &&& back.balance() == v.balance()
            &&& back.my_tokens >= 1 ==> released(back, back.my_tokens - 1).balance() == v.balance() - shared(
                back,
                back.my_tokens - 1,
            )
        }),
{
}

/// How far somebody who waits for a token has come.
#[derive(Clone, Copy, Debug, Eq, PartialEq, Structural)]
pub enum EnsureTokenState {
    New,
    Polling,
    Terminated,
}

impl Default for EnsureTokenState {
    fn default() -> (r: EnsureTokenState)
        ensures
            r == EnsureTokenState::New,
    {
        EnsureTokenState::New
    }
}

/// Somebody who waits for a token.
#[derive(Debug)]
pub struct EnsureToken {
    id: i64,
    future_state: EnsureTokenState,
}

impl EnsureToken {
    /// The number by which the waiting one is known.
    pub closed spec fn number(&self) -> i64 {
        self.id
    }

    /// How far it has come.
    pub closed spec fn stage(&self) -> EnsureTokenState {
        self.future_state
    }

    /// The number by which the waiting one is known.
    pub fn id(&self) -> (r: i64)
        ensures
            r == self.number(),
    {
        self.id
    }

    /// Whether it has had its token.
    pub fn is_terminated(&self) -> (r: bool)
        ensures
            r == (self.stage() == EnsureTokenState::Terminated),
    {
        self.future_state == EnsureTokenState::Terminated
    }

    /// Sees whether there is a token; if there is none, waits for one before all others.
    pub fn poll(&mut self, state: &mut ServerState) -> (ready: bool)
        requires
            old(state)@.wf(),
            old(self).stage() == EnsureTokenState::New ==> old(state)@.my_tokens <= 1,
        ensures
            final(state)@.wf(),
            final(self).number() == old(self).number(),
            if old(self).stage() == EnsureTokenState::Terminated {
                ready && final(self).stage() == old(self).stage() && final(state)@ == old(state)@
            } else {
                let others = without_id(old(state)@.waiting, old(self).number());
                &&& ready == (old(state)@.my_tokens >= 1)
                &&& final(self).stage() == if ready {
                    EnsureTokenState::Terminated
                } else {
                    EnsureTokenState::Polling
                }
                &&& final(state)@ == (ServerView {
                    waiting: if ready {
                        others
                    } else {
                        seq![old(self).number()] + others
                    },
                    ..old(state)@
                })
            },
    {
        if self.future_state == EnsureTokenState::Terminated {
            return true;
        }
        let ghost before = state@;
        state.forget(self.id);
        if state.my_tokens >= 1 {
            self.future_state = EnsureTokenState::Terminated;
            true
        } else {
            self.future_state = EnsureTokenState::Polling;
            let ghost others = state.token_wakers@;
            state.token_wakers.insert(0, self.id);
            assert(state.token_wakers@ =~= seq![self.id] + others);
            false
        }
    }
}

/// Those who wait, but for the given one.
pub open spec fn without_id(waiting: Seq<i64>, id: i64) -> Seq<i64> {
    waiting.filter(other_than(id))
}

/// Tells the given one from all others.
pub open spec fn other_than(id: i64) -> spec_fn(i64) -> bool {
    |x: i64| x != id
}

/// A client with one more timer, behind all that are due no later.
pub open spec fn timers_with(timers: Seq<u64>, end: u64) -> Seq<u64>
    decreases timers.len(),
{
    if timers.len() > 0 && timers[0] <= end {
        seq![timers[0]] + timers_with(timers.skip(1), end)
    } else {
        seq![end] + timers
    }
}

proof fn lemma_timers_with(timers: Seq<u64>, end: u64, k: int)
    requires
        0 <= k <= timers.len(),
        forall|i: int| 0 <= i < k ==> timers[i] <= end,
        k < timers.len() ==> timers[k] > end,
    ensures
        timers_with(timers, end) == timers.insert(k, end),
    decreases k,
{
    if k > 0 {
        lemma_timers_with(timers.skip(1), end, k - 1);
        assert(timers_with(timers, end) =~= timers.insert(k, end));
    } else {
        assert(timers_with(timers, end) =~= timers.insert(0, end));
    }
}

impl ServerState {
    /// Takes somebody off the list of those who wait for a token.
    pub fn forget(&mut self, id: i64)
        ensures
            final(self)@ == (ServerView { waiting: without_id(old(self)@.waiting, id), ..old(self)@ }),
    {
        let ghost before = self@;
        let ghost keep = other_than(id);
        let mut kept: Vec<i64> = Vec::new();
        let mut i: usize = 0;
        proof {
            reveal(Seq::filter);
            assert(self.token_wakers@.take(0).filter(keep) =~= seq![]);
        }
        while i < self.token_wakers.len()
            invariant
                i <= self.token_wakers.len(),
                self@ == before,
                keep == other_than(id),
                kept@ == self.token_wakers@.take(i as int).filter(keep),
            decreases self.token_wakers.len() - i,
        {
            let x: i64 = self.token_wakers[i];
            proof {
                reveal(Seq::filter);
                assert(self.token_wakers@.take(i + 1).drop_last() =~= self.token_wakers@.take(i as int));
                assert(self.token_wakers@.take(i + 1).last() == x);
            }
            if x != id {
                kept.push(x);
            }
            i = i + 1;
        }
        assert(self.token_wakers@.take(i as int) =~= self.token_wakers@);
        self.token_wakers = kept;
    }

    /// Somebody begins to wait for a token.
    pub fn ensure_token(&mut self) -> (r: EnsureToken)
        requires
            old(self)@.wf(),
            old(self)@.next_id < i64::MAX,
        ensures
            final(self)@ == (ServerView { next_id: old(self)@.next_id + 1, ..old(self)@ }),
            final(self)@.wf(),
            r.number() == old(self)@.next_id,
            r.stage() == EnsureTokenState::New,
    {
        let id: i64 = self.next_token_stream_id;
        self.next_token_stream_id = id + 1;
        EnsureToken { id, future_state: EnsureTokenState::New }
    }

    /// Somebody sleeps until `end`: reports whether that has passed, and sets a timer if not.
    pub fn sleep_poll(&mut self, now: u64, end: u64) -> (ready: bool)
        requires
            old(self)@.wf(),
        ensures
            ready == (now >= end),
            final(self)@ == if ready {
                old(self)@
            } else {
                ServerView { timers: timers_with(old(self)@.timers, end), ..old(self)@ }
            },
            final(self)@.wf(),
    {
        if now >= end {
            return true;
        }
        let ghost before = self.timers@;
        let mut k: usize = 0;
        while k < self.timers.len() && self.timers[k] <= end
            invariant
                k <= self.timers.len(),
                forall|i: int| 0 <= i < k ==> self.timers@[i] <= end,
            decreases self.timers.len() - k,
        {
            k = k + 1;
        }
        proof {
            lemma_timers_with(before, end, k as int);
        }
        self.timers.insert(k, end);
        assert(self.timers@ =~= before.insert(k as int, end));
        assert forall|i: int, j: int| 0 <= i < j < self@.timers.len() implies self@.timers[i] <= self@.timers[j] by {
            if j > k && k < before.len() {
                assert(before[k as int] <= before[j - 1]);
            }
        }
        false
    }

    /// Gives up the token for a job that is about to start. The job begins with one of its own.
    ///
    /// Subprocesses always start with 1 token, so we have to destroy ours
    /// in order for the universe to stay in balance.
    pub fn start_job(&mut self, job: Job)
        requires
            old(self)@.wf(),
            old(self)@.my_tokens == 1,
        ensures
            final(self)@ == started(old(self)@, job@),
            final(self)@.wf(),
            final(self)@.balance() == old(self)@.balance(),
    {
        let ghost before = self@;
        self.destroy_tokens(1);
        let ghost js = self.jobs@;
        self.jobs.push(job);
        assert(job_views(self.jobs@) =~= job_views(js).push(job@));
    }

    /// Makes tokens of our own, without reading any from the pipe.
    pub fn cheat(&mut self, n: i32)
        requires
            old(self)@.wf(),
            0 < n,
            old(self)@.my_tokens + old(self)@.jobs.len() + n <= i32::MAX,
            old(self)@.cheats + n <= i32::MAX,
        ensures
            final(self)@ == old(self)@.with_tokens(old(self)@.my_tokens + n, old(self)@.cheats + n),
            final(self)@.wf(),
            final(self)@.balance() == old(self)@.balance(),
    {
        let ghost before = self@;
        self.my_tokens = self.my_tokens + n;
        self.cheats = self.cheats + n;
        assert(self@ == before.with_tokens(before.my_tokens + n, before.cheats + n));
    }
}

/// A client that has started a job.
pub open spec fn started(v: ServerView, job: JobView) -> ServerView {
    ServerView { my_tokens: 0, jobs: v.jobs.push(job), ..v }
}

/// A client that is about to exit, once it has got back what it gave up for jobs.
pub open spec fn back_at_exit(v: ServerView) -> ServerView {
    created(ServerView { jobs: seq![], ..v }, v.jobs.len() as int)
}

/// How many tokens a client hands on to others at exit: all but one.
pub open spec fn handed_on(v: ServerView) -> int {
    let back = back_at_exit(v);
    if back.my_tokens >= 1 {
        shared(back, back.my_tokens - 1)
    } else {
        0
    }
}

/// What a client still has at exit.
pub open spec fn kept(v: ServerView) -> ServerView {
    let back = back_at_exit(v);
    if back.my_tokens >= 1 {
        released(back, back.my_tokens - 1)
    } else {
        back
    }
}

/// What [`wait_all`] comes to.
#[derive(Clone, Copy, Debug, Eq, PartialEq, Structural)]
pub enum AllDone {
    /// Jobs are still running.
    Waiting,
    /// No job is running.
    Done {
        /// Whether the tokens have to be counted, because this is the toplevel process.
        count_tokens: bool,
    },
}

impl ServerState {
    /// Sees whether all jobs are done, and gives up the tokens that are not needed for that. Says how many of
    /// them have to be written to the pipe.
    ///
    /// We should only release our last token if we have remaining
    /// children.  A terminating redo process should try to terminate while
    /// holding a token, and if we have no children left, we might be
    /// about to terminate. The toplevel process releases it too, in order to count all tokens.
    pub fn wait_all(&mut self, top_level: i32) -> (r: (AllDone, usize))
        requires
            old(self)@.wf(),
        ensures
            ({
                let running = old(self)@.jobs.len() > 0;
                let keep: int = if running || top_level != 0 {
                    0
                } else {
                    1
                };
                let n = if old(self)@.my_tokens > keep {
                    old(self)@.my_tokens - keep
                } else {
                    0
                };
                &&& r.0 == if running {
                    AllDone::Waiting
                } else {
                    AllDone::Done { count_tokens: top_level != 0 }
                }
                &&& r.1 == shared(old(self)@, n)
                &&& final(self)@ == released(old(self)@, n)
                &&& final(self)@.wf()
            }),
    {
        let running = self.is_running();
        let keep: i32 = if running || top_level != 0 {
            0
        } else {
            1
        };
        let n: i32 = if self.my_tokens > keep {
            self.my_tokens - keep
        } else {
            0
        };
        let to_share: usize = self.release(n);
        if running {
            (AllDone::Waiting, to_share)
        } else {
            (AllDone::Done { count_tokens: top_level != 0 }, to_share)
        }
    }

    /// Whether every token of our own making is one that we still hold or that stands for a running job, so that
    /// it can be accounted for at exit.
    pub fn in_balance(&self) -> (r: bool)
        requires
            self@.wf(),
        ensures
            r == (self@.balance() >= 0),
    {
        assert(self@.jobs.len() == self.jobs@.len());
        self.my_tokens + self.jobs.len() as i32 >= self.cheats
    }

    /// Release or destroy all the tokens we own, in preparation for exit. Says how many have to be
    /// written to the pipe of tokens, and how many to that of cheat tokens.
    pub fn force_return_tokens(&mut self) -> (r: (usize, usize))
        requires
            old(self)@.wf(),
            old(self)@.balance() >= 0,
        ensures
            r.0 == handed_on(old(self)@),
            r.1 == kept(old(self)@).cheats,
            final(self)@ == kept(old(self)@).with_tokens(
                kept(old(self)@).my_tokens - kept(old(self)@).cheats,
                kept(old(self)@).cheats,
            ),
            r.0 + final(self)@.my_tokens == old(self)@.balance(),
    {
        let ghost before = self@;
        assert(self.jobs@.len() == before.jobs.len());
        let n: i32 = self.jobs.len() as i32;
        self.jobs.clear();
        assert(self@.jobs =~= seq![]);
        self.create_tokens(n);
        let mut to_share: usize = 0;
        if self.has_token() {
            to_share = self.release_except_mine();
        }
        let cheats: i32 = self.cheats;
        if cheats > 0 {
            self.destroy_tokens(cheats);
        }
        (to_share, cheats as usize)
    }
}

/// A process that exits leaves the tokens in balance: what it still holds or hands on, less the cheat tokens that it
/// reports, is what it accounted for. It holds at most one token then.
pub proof fn law_exit_balance(v: ServerView)
    requires
        v.wf(),
        v.balance() >= 0,
    ensures
        back_at_exit(v).balance() == v.balance(),
        kept(v).my_tokens <= 1,
        kept(v).cheats <= kept(v).my_tokens,
        handed_on(v) + kept(v).genuine() == v.balance(),
{
}

/// No token appears or disappears by a job: what a process gives up to start one is what the job's process begins
/// with.
pub proof fn law_start_conserves_tokens(v: ServerView, job: JobView)
    requires
        v.wf(),
        v.my_tokens == 1,
    ensures
        started(v, job).genuine() + first_view().genuine() == v.genuine(),
{
}

/// No token appears or disappears when a job's process exits while it holds a token and runs no job: counting those on the
/// pipe of tokens for and those on the pipe of cheat tokens against, there are as many once its parent has taken note of
/// it as there were before. It makes no difference whether the parent eats a cheat token for it.
pub proof fn law_end_conserves_tokens(parent: ServerView, at: int, child: ServerView)
    requires
        parent.wf(),
        0 <= at < parent.jobs.len(),
        child.wf(),
        child.balance() >= 0,
        child.jobs.len() == 0,
        child.my_tokens >= 1,
    ensures
        ({
            let without = ServerView { jobs: parent.jobs.remove(at), ..parent };
            let pipes = handed_on(child) - kept(child).cheats;
            &&& created(without, 1).genuine() + pipes == parent.genuine() + child.genuine()
            &&& without.genuine() + pipes + 1 == parent.genuine() + child.genuine()
        }),
{
}

/// Ensure that the sum of the tokens and cheat tokens equals the number of
/// tokens granted at top level.
pub fn test_tokens(top_level: i32, tokens: usize, cheats: usize) -> (r: Result<(), RedoError>)
    ensures
        match r {
            Ok(_) => tokens - cheats == top_level,
            Err(e) => {
                &&& tokens - cheats != top_level
                &&& e@ == generic(
                    "on exit: expected "@ + decimal_int(top_level as int) + " tokens; found "@ + decimal(
                        tokens as nat,
                    ) + "-"@ + decimal(cheats as nat),
                )
            },
        },
{
    let same = if top_level >= 0 {
        tokens >= cheats && (tokens - cheats) as u64 == top_level as u64
    } else {
        cheats >= tokens && (cheats - tokens) as u64 == (-(top_level as i64)) as u64
    };
    if same {
        return Ok(());
    }
    let mut msg = "on exit: expected ".to_owned();
    msg.append(dec_i64(top_level as i64).as_str());
    msg.append(" tokens; found ");
    msg.append(dec_u64(tokens as u64).as_str());
    msg.append("-");
    msg.append(dec_u64(cheats as u64).as_str());
    Err(RedoError::new(msg.as_str()))
}

/// Somebody who waits for a token, or cheats.
#[derive(Clone, Copy, Debug, Eq, PartialEq, Structural)]
pub struct TokenOrCheat {
    backoff_ms: u64,
}

/// What somebody who waits for a token, or cheats, does next.
#[derive(Clone, Copy, Debug, Eq, PartialEq, Structural)]
pub enum TokenStep {
    /// There is a token.
    Ready,
    /// Wait for a token: a job is running, so that one will come.
    AwaitToken,
    /// Wait for a token, but no longer than so many milliseconds.
    AwaitTokenFor(u64),
}

/// What came of waiting for a limited time.
#[derive(Debug)]
pub enum TokenEvent {
    /// A token came.
    Token,
    /// None came in time. How many tokens to make ourselves, or why that is not known.
    Timeout(Result<i32, RedoError>),
}

impl TokenOrCheat {
    /// How long to wait before it is considered to cheat, in milliseconds.
    pub closed spec fn backoff(&self) -> u64 {
        self.backoff_ms
    }

    /// Begins to wait.
    pub fn new() -> (r: TokenOrCheat)
        ensures
            r.backoff() == 10,
    {
        TokenOrCheat { backoff_ms: 10 }
    }

    /// What to do next.
    ///
    /// If we already have a token, there is nothing to wait for.  If we have any
    /// processes running *and* we don't own any tokens, we wait for a process
    /// to finish, and then use that token.
    ///
    /// Otherwise, we're allowed to cheat, and consider that every now and then.
    pub fn next(&self, state: &ServerState) -> (r: TokenStep)
        ensures
            r == if state@.my_tokens >= 1 {
                TokenStep::Ready
            } else if state@.jobs.len() > 0 {
                TokenStep::AwaitToken
            } else {
                TokenStep::AwaitTokenFor(
                    if self.backoff() < 1000 {
                        self.backoff()
                    } else {
                        1000
                    },
                )
            },
    {
        if state.has_token() {
            TokenStep::Ready
        } else if state.is_running() {
            // If we already have a subproc running, then effectively we
            // already have a token.  Don't create a cheater token unless
            // we're completely idle.
            TokenStep::AwaitToken
        } else if self.backoff_ms < 1000 {
            TokenStep::AwaitTokenFor(self.backoff_ms)
        } else {
            TokenStep::AwaitTokenFor(1000)
        }
    }

    /// Takes in what came of waiting for a limited time. Reports whether there is a token now: one
    /// that came, or one of our own making.
    pub fn waited(&mut self, state: &mut ServerState, event: TokenEvent) -> (r: Result<bool, RedoError>)
        requires
            old(state)@.wf(),
            event matches TokenEvent::Timeout(Ok(n)) ==> old(state)@.jobs.len() + n <= i32::MAX && old(state)@.cheats + n
                <= i32::MAX,
        ensures
            final(state)@.wf(),
            final(state)@.balance() == old(state)@.balance(),
            match event {
                TokenEvent::Token => {
                    &&& r == Ok::<bool, RedoError>(true)
                    &&& final(state)@ == old(state)@
                    &&& final(self).backoff() == old(self).backoff()
                },
                TokenEvent::Timeout(answer) => {
                    &&& final(self).backoff() == if old(self).backoff() <= 1000 {
                        2 * old(self).backoff()
                    } else {
                        old(self).backoff() as int
                    }
                    &&& if old(state)@.my_tokens >= 1 {
                        r == Ok::<bool, RedoError>(false) && final(state)@ == old(state)@
                    } else {
                        match answer {
                            Err(e) => r == Err::<bool, RedoError>(e) && final(state)@ == old(state)@,
                            Ok(n) => if n > 0 {
                                r == Ok::<bool, RedoError>(true) && final(state)@ == old(state)@.with_tokens(
                                    n as int,
                                    old(state)@.cheats + n,
                                )
                            } else {
                                r == Ok::<bool, RedoError>(false) && final(state)@ == old(state)@
                            },
                        }
                    }
                },
            },
    {
        match event {
            TokenEvent::Token => Ok(true),
            TokenEvent::Timeout(answer) => {
                if self.backoff_ms <= 1000 {
                    self.backoff_ms = self.backoff_ms * 2;
                }
                if state.has_token() {
                    return Ok(false);
                }
                match answer {
                    Err(e) => Err(e),
                    Ok(n) => if n > 0 {
                        state.cheat(n);
                        Ok(true)
                    } else {
                        Ok(false)
                    },
                }
            },
        }
    }
}

proof fn lemma_word_len(s: Seq<u8>, n: int)
    requires
        0 <= n < s.len(),
        s[n] == 0x20,
        forall|i: int| 0 <= i < n ==> s[i] != 0x20,
    ensures
        word_len(s) == n,
    decreases n,
{
    if n > 0 {
        lemma_word_len(s.skip(1), n - 1);
    }
}

proof fn lemma_first_comma(s: Seq<char>, n: int)
    requires
        0 <= n < s.len(),
        s[n] == ',',
        forall|i: int| 0 <= i < n ==> s[i] != ',',
    ensures
        first_comma(s) == Some(n),
    decreases n,
{
    if n > 0 {
        lemma_first_comma(s.skip(1), n - 1);
    }
}

/// Two file descriptors as they stand in the flags are read back.
proof fn lemma_fd_pair(a: i32, b: i32)
    ensures
        fd_pair(decimal_int(a as int) + ","@ + decimal_int(b as int)) == Some((a as int, b as int)),
{
    reveal_strlit(",");
    let x = decimal_int(a as int);
    let y = decimal_int(b as int);
    let s = x + ","@ + y;
    lemma_decimal_chars(a as int);
    assert(s[x.len() as int] == ',');
    assert forall|i: int| 0 <= i < x.len() implies s[i] != ',' by {
        assert(s[i] == x[i]);
    }
    lemma_first_comma(s, x.len() as int);
    assert(s.take(x.len() as int) =~= x);
    assert(s.skip(x.len() as int + 1) =~= y);
    crate::text::law_decimal_round_trip(a as int);
    crate::text::law_decimal_round_trip(b as int);
}

/// A jobserver that a process names in `MAKEFLAGS` is the one that its subprocesses find there.
pub proof fn law_makeflags_round_trip(a: i32, b: i32)
    ensures
        makeflags_fds(encode_utf8(makeflags_text(a as int, b as int))) == Ok::<Option<(int, int)>, ErrorView>(
            Some((a as int, b as int)),
        ),
{
    let x = decimal_int(a as int);
    let y = decimal_int(b as int);
    let t = makeflags_text(a as int, b as int);
    reveal_strlit(" -j --jobserver-auth=");
    reveal_strlit(" --jobserver-auth=");
    reveal_strlit(" --jobserver-fds=");
    reveal_strlit(",");
    lemma_decimal_chars(a as int);
    lemma_decimal_chars(b as int);
    let head = " -j --jobserver-auth="@;
    let c = x + ","@ + y;
    let tail = " --jobserver-fds="@ + c;
    assert(t =~= head + c + tail);
    assert forall|i: int| 0 <= i < c.len() implies '\0' <= #[trigger] c[i] <= '\u{7f}' && c[i] != ' ' by {
        if i < x.len() {
            assert(c[i] == x[i]);
        } else if i > x.len() {
            assert(c[i] == y[i - x.len() - 1]);
        }
    }
    assert(is_ascii_chars(c));
    assert(is_ascii_chars(head));
    assert forall|i: int| 0 <= i < tail.len() implies '\0' <= #[trigger] tail[i] <= '\u{7f}' by {
        if i >= 17 {
            assert(tail[i] == c[i - 17]);
        }
    }
    assert forall|i: int| 0 <= i < t.len() implies '\0' <= #[trigger] t[i] <= '\u{7f}' by {
        if i < 21 {
            assert(t[i] == head[i]);
        } else if i < 21 + c.len() {
            assert(t[i] == c[i - 21]);
        } else {
            assert(t[i] == tail[i - 21 - c.len()]);
        }
    }
    assert(is_ascii_chars(t));
    is_ascii_chars_encode_utf8(t);
    is_ascii_chars_encode_utf8(c);
    let bytes = encode_utf8(t);
    assert(bytes =~= Seq::new(t.len(), |i: int| t[i] as u8));
    let p = padded(bytes);
    let flag = auth_flag();
    assert(is_ascii(" --jobserver-auth="));
    is_ascii_spec_bytes(" --jobserver-auth=");
    assert(flag =~= Seq::new(18, |i: int| " --jobserver-auth="@[i] as u8));
    assert forall|i: int| 0 <= i < t.len() implies #[trigger] p[i + 1] == t[i] as u8 by {}
    assert forall|i: int| 0 <= i < 21 implies #[trigger] p[i + 1] == head[i] as u8 by {
        assert(t[i] == head[i]);
    }
    assert(p.subrange(4, 4 + flag.len() as int) =~= flag) by {
        assert forall|i: int| 0 <= i < 18 implies p[4 + i] == flag[i] by {
            assert(p[(3 + i) + 1] == head[3 + i] as u8);
        }
    }
    let zero: int = 0;
    assert(p[0] == 0x20 && p[zero + 1] == head[0] as u8 && p[zero + 1 + 1] == head[1] as u8 && p[zero + 2 + 1]
        == head[2] as u8);
    assert forall|j: int| 0 <= j < 4 implies #[trigger] p.subrange(j, j + flag.len()) != flag by {
        let w = p.subrange(j, j + flag.len());
        assert(w[0] == p[j] && w[1] == p[j + 1] && w[2] == p[j + 2]);
        assert(flag[0] == 0x20 && flag[1] == 0x2d && flag[2] == 0x2d);
    }
    lemma_first_occurrence(p, flag, 4);
    let rest = p.skip(22);
    let arg = encode_utf8(c);
    assert forall|i: int| 0 <= i < c.len() implies #[trigger] rest[i] == c[i] as u8 by {
        assert(p[(21 + i) + 1] == t[21 + i] as u8);
        assert(t[21 + i] == c[i]);
    }
    assert(rest[c.len() as int] == 0x20) by {
        assert(p[(21 + c.len() as int) + 1] == t[21 + c.len() as int] as u8);
        assert(t[21 + c.len() as int] == tail[0]);
    }
    assert forall|i: int| 0 <= i < c.len() implies rest[i] != 0x20 by {
        assert(c[i] != ' ');
        assert(rest[i] == c[i] as u8);
    }
    lemma_word_len(rest, c.len() as int);
    assert(rest.take(c.len() as int) =~= arg);
    encode_utf8_valid_utf8(c);
    encode_utf8_decode_utf8(c);
    lemma_fd_pair(a, b);
}

/// New tokens pay back those that a client has made itself, one for one, before it holds any more than before. Nothing else about
/// it changes.
pub proof fn law_new_tokens_pay_back(v: ServerView, n: int)
    requires
        v.wf(),
        n >= 0,
    ensures
        ({
            let c = created(v, n);
            &&& n <= v.cheats ==> c.cheats == v.cheats - n && c.my_tokens == v.my_tokens
            &&& n >= v.cheats ==> c.cheats == 0 && c.my_tokens == v.my_tokens + n - v.cheats
            &&& c.jobs == v.jobs && c.waiting == v.waiting && c.timers == v.timers && c.next_id == v.next_id
        }),
{
}

/// Tokens that are given up are gone from the client. Those of its own making go first and are handed on to nobody; all others are
/// handed on.
pub proof fn law_own_tokens_go_first(v: ServerView, n: int)
    requires
        v.wf(),
        0 <= n <= v.my_tokens,
    ensures
        ({
            let r = released(v, n);
            &&& r.my_tokens == v.my_tokens - n
            &&& n <= v.cheats ==> r.cheats == v.cheats - n && shared(v, n) == 0
            &&& n >= v.cheats ==> r.cheats == 0 && shared(v, n) == n - v.cheats
            &&& r.jobs == v.jobs && r.waiting == v.waiting && r.timers == v.timers && r.next_id == v.next_id
        }),
{
}

/// A process that begins holds one token that is not of its own making, runs nothing, and has nobody waiting.
pub proof fn law_every_process_begins_with_a_token()
    ensures
        first_view().my_tokens == 1,
        first_view().cheats == 0,
        first_view().jobs.len() == 0,
        first_view().waiting.len() == 0,
        first_view().timers.len() == 0,
{
}

/// A job that starts takes the token of its process with it, and runs from then on.
pub proof fn law_job_takes_token(v: ServerView, job: JobView)
    ensures
        started(v, job).my_tokens == 0,
        started(v, job).cheats == v.cheats,
        started(v, job).jobs.len() == v.jobs.len() + 1,
        started(v, job).jobs.last() == job,
        forall|i: int| 0 <= i < v.jobs.len() ==> #[trigger] started(v, job).jobs[i] == v.jobs[i],
{
}

/// A process that exits gets back one token for each of its jobs. If that leaves it with any that are not of its own making, it
/// keeps one of those and hands on all others. If not, it hands on none, and is left with what it has made itself.
pub proof fn law_tokens_at_exit(v: ServerView)
    requires
        v.wf(),
    ensures
        ({
            let n = v.my_tokens - v.cheats + v.jobs.len();
            &&& n >= 1 ==> handed_on(v) == n - 1 && kept(v).my_tokens == 1 && kept(v).cheats == 0
            &&& n < 1 ==> handed_on(v) == 0 && kept(v).my_tokens == (if v.my_tokens >= 1 {
                1int
            } else {
                0int
            }) && kept(v).cheats == kept(v).my_tokens - n
            &&& kept(v).jobs.len() == 0
        }),
{
}

/// Timers that are due are taken off, and no others. If there is a token, whoever is next for one is woken, and nobody else; if
/// there is none, nobody is.
pub proof fn law_who_is_woken(v: ServerView, now: u64, i: int)
    requires
        v.wf(),
    ensures
        ({
            let w = woken(v, now);
            let n = v.timers.len() - w.timers.len();
            &&& 0 <= n <= v.timers.len()
            &&& 0 <= i < n ==> v.timers[i] < now
            &&& 0 <= i < w.timers.len() ==> w.timers[i] >= now && w.timers[i] == v.timers[i + n]
            &&& v.my_tokens >= 1 && v.waiting.len() > 0 ==> w.waiting == v.waiting.skip(1)
            &&& v.my_tokens < 1 || v.waiting.len() == 0 ==> w.waiting == v.waiting
            &&& w.my_tokens == v.my_tokens && w.cheats == v.cheats && w.jobs == v.jobs
        }),
{
    lemma_due_bounds(v.timers, now);
    let n = due(v.timers, now);
    if 0 <= i < v.timers.len() - n {
        assert(v.timers[n] <= v.timers[i + n]);
    }
}

proof fn lemma_due_bounds(timers: Seq<u64>, now: u64)
    ensures
        0 <= due(timers, now) <= timers.len(),
        forall|i: int| 0 <= i < due(timers, now) ==> #[trigger] timers[i] < now,
        due(timers, now) < timers.len() ==> timers[due(timers, now)] >= now,
    decreases timers.len(),
{
    if timers.len() > 0 && timers[0] < now {
        lemma_due_bounds(timers.skip(1), now);
        let k = due(timers.skip(1), now);
        assert forall|i: int| 0 <= i < due(timers, now) implies #[trigger] timers[i] < now by {
            if i > 0 {
                assert(timers.skip(1)[i - 1] == timers[i]);
            }
        }
        if k < timers.len() - 1 {
            assert(timers.skip(1)[k] == timers[k + 1]);
        }
    }
}

/// A process waits for all its jobs at once, and for a token just if somebody needs one. It waits no longer than until the first
/// timer is due.
pub proof fn law_what_is_waited_for(v: ServerView, token_fd: i32, now: u64, fd: i32)
    ensures
        wait_list(v, token_fd).contains(fd) <==> (exists|i: int| 0 <= i < v.jobs.len() && (#[trigger] v.jobs[i]).fd == fd) || (
        v.waiting.len() > 0 && fd == token_fd),
        v.timers.len() == 0 <==> delay(v, now) is None,
        v.timers.len() > 0 && v.timers[0] >= now ==> (delay(v, now) matches Some(d) && d == v.timers[0] - now),
{
    let fds = v.jobs.map_values(|j: JobView| j.fd);
    let l = wait_list(v, token_fd);
    if exists|i: int| 0 <= i < v.jobs.len() && (#[trigger] v.jobs[i]).fd == fd {
        let i = choose|i: int| 0 <= i < v.jobs.len() && (#[trigger] v.jobs[i]).fd == fd;
        assert(l[i] == fd);
    }
    if v.waiting.len() > 0 && fd == token_fd {
        assert(l[fds.len() as int] == fd);
    }
    if l.contains(fd) {
        let i = choose|i: int| 0 <= i < l.len() && l[i] == fd;
        if i < fds.len() {
            assert(v.jobs[i].fd == fd);
        }
    }
}

/// Whoever no longer waits is not among those who wait; all others are.
pub proof fn law_forgotten_waits_no_more(waiting: Seq<i64>, id: i64, other: i64)
    ensures
        without_id(waiting, id).contains(other) <==> waiting.contains(other) && other != id,
    decreases waiting.len(),
{
    reveal(Seq::filter);
    if waiting.len() > 0 {
        let init = waiting.drop_last();
        law_forgotten_waits_no_more(init, id, other);
        let rest = without_id(init, id);
        if init.contains(other) {
            let i = choose|i: int| 0 <= i < init.len() && init[i] == other;
            assert(waiting[i] == other);
        }
        if waiting.contains(other) && waiting.last() != other {
            let i = choose|i: int| 0 <= i < waiting.len() && waiting[i] == other;
            assert(init[i] == other);
        }
        if waiting.last() != id {
            let all = rest.push(waiting.last());
            if rest.contains(other) {
                let i = choose|i: int| 0 <= i < rest.len() && rest[i] == other;
                assert(all[i] == other);
            }
            assert(all[rest.len() as int] == waiting.last());
            if all.contains(other) && other != waiting.last() {
                let i = choose|i: int| 0 <= i < all.len() && all[i] == other;
                assert(rest[i] == other);
            }
        }
        if waiting.last() == other {
            assert(waiting[waiting.len() - 1] == other);
        }
    }
}

/// A timer that is set is there, besides all that were, and the timers stay in order.
pub proof fn law_timers_stay_in_order(timers: Seq<u64>, end: u64)
    requires
        forall|i: int, j: int| 0 <= i < j < timers.len() ==> timers[i] <= timers[j],
    ensures
        ({
            let after = timers_with(timers, end);
            &&& after.len() == timers.len() + 1
            &&& exists|k: int|
                0 <= k <= timers.len() && after == #[trigger] timers.insert(k, end) && (forall|i: int|
                    0 <= i < k ==> timers[i] <= end) && (forall|i: int| k <= i < timers.len() ==> timers[i] > end)
        }),
    decreases timers.len(),
{
    let k = count_up_to(timers, end);
    lemma_count_up_to(timers, end);
    lemma_timers_with(timers, end, k);
    assert(timers_with(timers, end) == timers.insert(k, end));
    assert forall|i: int| k <= i < timers.len() implies timers[i] > end by {
        if i > k {
            assert(timers[k] <= timers[i]);
        }
    }
}

spec fn count_up_to(timers: Seq<u64>, end: u64) -> int
    decreases timers.len(),
{
    if timers.len() > 0 && timers[0] <= end {
        1 + count_up_to(timers.skip(1), end)
    } else {
        0
    }
}

proof fn lemma_count_up_to(timers: Seq<u64>, end: u64)
    ensures
        0 <= count_up_to(timers, end) <= timers.len(),
        forall|i: int| 0 <= i < count_up_to(timers, end) ==> #[trigger] timers[i] <= end,
        count_up_to(timers, end) < timers.len() ==> timers[count_up_to(timers, end)] > end,
    decreases timers.len(),
{
    if timers.len() > 0 && timers[0] <= end {
        let rest = timers.skip(1);
        lemma_count_up_to(rest, end);
        let k = count_up_to(rest, end);
        assert forall|i: int| 0 <= i < k + 1 implies #[trigger] timers[i] <= end by {
            if i > 0 {
                assert(rest[i - 1] == timers[i]);
            }
        }
        if k < rest.len() {
            assert(rest[k] == timers[k + 1]);
        }
    }
}

/// Where tokens come from. Without a jobserver in the flags there is a new one, and nobody is warned. With one whose file
/// descriptors are not open the process ends. With one that is open, it is used unless the user asks for a number of jobs: then
/// there is a new one, and the user is warned if it is more than one.
pub proof fn law_where_tokens_come_from(a: i32, b: i32, open: bool, max_jobs: int)
    requires
        max_jobs >= 0,
    ensures
        token_source(None, open, max_jobs) == Ok::<TokenSource, ErrorView>(TokenSource::New { warn: false }),
        !open ==> (token_source(Some((a as int, b as int)), open, max_jobs) matches Err(e) && e.kind == KindView::ImmediateExit(
            200,
        )),
        open && max_jobs == 0 ==> token_source(Some((a as int, b as int)), open, max_jobs) == Ok::<TokenSource, ErrorView>(
            TokenSource::Parent(a, b),
        ),
        open && max_jobs > 0 ==> (token_source(Some((a as int, b as int)), open, max_jobs) matches Ok(
            TokenSource::New { warn },
        ) && (warn <==> max_jobs > 1)),
{
}

/// The pipe for cheat tokens is the parent's just if the parent's jobserver is used and the parent has named one.
pub proof fn law_cheat_pipe(max_jobs: int, a: i32, b: i32, var: Seq<char>)
    ensures
        max_jobs != 0 || var.len() == 0 ==> cheat_fds(max_jobs, var) == Ok::<Option<(int, int)>, ErrorView>(None),
        cheat_fds(0, decimal_int(a as int) + ","@ + decimal_int(b as int)) == Ok::<Option<(int, int)>, ErrorView>(
            Some((a as int, b as int)),
        ),
        var.len() > 0 && (forall|i: int| 0 <= i < var.len() ==> var[i] != ',') ==> cheat_fds(0, var) is Err,
{
    lemma_fd_pair(a, b);
    lemma_decimal_chars(a as int);
    assert((decimal_int(a as int) + ","@ + decimal_int(b as int)).len() > 0);
    lemma_no_comma(var);
}

proof fn lemma_no_comma(s: Seq<char>)
    ensures
        (forall|i: int| 0 <= i < s.len() ==> s[i] != ',') ==> first_comma(s) is None,
    decreases s.len(),
{
    if s.len() > 0 && (forall|i: int| 0 <= i < s.len() ==> s[i] != ',') {
        let rest = s.skip(1);
        assert forall|i: int| 0 <= i < rest.len() implies rest[i] != ',' by {
            assert(rest[i] == s[i + 1]);
        }
        lemma_no_comma(rest);
    }
}

/// The newer of the two flags counts if it is there, wherever it stands, and the older one otherwise. What counts is the argument
/// up to the next space; without either flag there is no jobserver.
pub proof fn law_which_flag_counts(flags: Seq<u8>, flag: Seq<u8>, i: int, n: int)
    requires
        flag == " --jobserver-auth=".spec_bytes() || flag == " --jobserver-fds=".spec_bytes(),
        ({
            let p = seq![0x20u8] + flags + seq![0x20u8];
            let newer = " --jobserver-auth=".spec_bytes();
            let start = i + flag.len();
            &&& 0 <= i && start + n < p.len() && 0 <= n
            &&& p.subrange(i, start as int) == flag
            &&& forall|j: int| 0 <= j < i ==> #[trigger] p.subrange(j, j + flag.len()) != flag
            &&& flag != newer ==> forall|j: int|
                0 <= j && j + newer.len() <= p.len() ==> #[trigger] p.subrange(j, j + newer.len()) != newer
            &&& forall|j: int| start <= j < start + n ==> p[j] != 0x20
            &&& p[start + n] == 0x20
        }),
    ensures
        ({
            let p = seq![0x20u8] + flags + seq![0x20u8];
            let start = i + flag.len();
            let arg = p.subrange(start as int, start + n);
            &&& !valid_utf8(arg) ==> makeflags_fds(flags) is Err
            &&& valid_utf8(arg) ==> match makeflags_fds(flags) {
                Ok(fds) => fds is Some && fds == fd_pair(decode_utf8(arg)),
                Err(_) => fd_pair(decode_utf8(arg)) is None,
            }
        }),
{
    reveal_strlit(" --jobserver-auth=");
    reveal_strlit(" --jobserver-fds=");
    assert(is_ascii(" --jobserver-auth="));
    is_ascii_spec_bytes(" --jobserver-auth=");
    assert(is_ascii(" --jobserver-fds="));
    is_ascii_spec_bytes(" --jobserver-fds=");
    let p = seq![0x20u8] + flags + seq![0x20u8];
    let start = i + flag.len();
    lemma_first_occurrence(p, flag, i);
    if flag != auth_flag() {
        lemma_no_occurrence(p, auth_flag());
    }
    assert(arg_start(p) == Some(start));
    let rest = p.skip(start as int);
    assert(rest[n] == p[start + n]);
    assert forall|j: int| 0 <= j < n implies rest[j] != 0x20 by {
        assert(rest[j] == p[start + j]);
    }
    lemma_word_len(rest, n);
    assert(rest.take(n) =~= p.subrange(start as int, start + n));
}

proof fn lemma_no_occurrence(hay: Seq<u8>, needle: Seq<u8>)
    requires
        needle.len() > 0,
        forall|j: int| 0 <= j && j + needle.len() <= hay.len() ==> #[trigger] hay.subrange(j, j + needle.len()) != needle,
    ensures
        first_occurrence(hay, needle) is None,
    decreases hay.len(),
{
    if hay.len() >= needle.len() {
        assert(hay.subrange(0, 0 + needle.len() as int) =~= hay.take(needle.len() as int));
        let rest = hay.skip(1);
        assert forall|j: int| 0 <= j && j + needle.len() <= rest.len() implies #[trigger] rest.subrange(
            j,
            j + needle.len(),
        ) != needle by {
            assert(rest.subrange(j, j + needle.len()) =~= hay.subrange(j + 1, j + 1 + needle.len()));
        }
        lemma_no_occurrence(rest, needle);
    }
}

/// Flags that name no jobserver give none.
pub proof fn law_no_flag_no_jobserver(flags: Seq<u8>)
    requires
        ({
            let p = seq![0x20u8] + flags + seq![0x20u8];
            let auth = " --jobserver-auth=".spec_bytes();
            let fds = " --jobserver-fds=".spec_bytes();
            &&& forall|j: int| 0 <= j && j + auth.len() <= p.len() ==> #[trigger] p.subrange(j, j + auth.len()) != auth
            &&& forall|j: int| 0 <= j && j + fds.len() <= p.len() ==> #[trigger] p.subrange(j, j + fds.len()) != fds
        }),
    ensures
        makeflags_fds(flags) == Ok::<Option<(int, int)>, ErrorView>(None),
{
    let p = seq![0x20u8] + flags + seq![0x20u8];
    reveal_strlit(" --jobserver-auth=");
    reveal_strlit(" --jobserver-fds=");
    assert(is_ascii(" --jobserver-auth="));
    is_ascii_spec_bytes(" --jobserver-auth=");
    assert(is_ascii(" --jobserver-fds="));
    is_ascii_spec_bytes(" --jobserver-fds=");
    lemma_no_occurrence(p, auth_flag());
    lemma_no_occurrence(p, fds_flag());
}

/// Two numbers with a comma between are a pair, whatever the numbers are that fit; without a comma, or with something else for one of
/// the numbers, there is none.
pub proof fn law_pairs_are_read(a: Seq<char>, b: Seq<char>)
    requires
        !a.contains(','),
    ensures
        fd_pair(a) is None,
        fd_pair(a + ","@ + b) == (match (
            parsed_within(a, i32::MIN as int, i32::MAX as int),
            parsed_within(b, i32::MIN as int, i32::MAX as int),
        ) {
            (Some(x), Some(y)) => Some((x, y)),
            _ => None,
        }),
{
    reveal_strlit(",");
    let s = a + ","@ + b;
    assert forall|i: int| 0 <= i < a.len() implies a[i] != ',' by {
        assert(a.contains(a[i]));
    }
    lemma_no_comma(a);
    assert forall|i: int| 0 <= i < a.len() implies s[i] != ',' by {
        assert(s[i] == a[i]);
    }
    lemma_first_comma(s, a.len() as int);
    assert(s.take(a.len() as int) =~= a);
    assert(s.skip(a.len() as int + 1) =~= b);
}

} // verus!
