use redo::error::{RedoError, RedoErrorKind};
use redo::jobserver::{
    cheatfds_value, choose_tokens, job_status, makeflags_fds_or_exit, makeflags_value, new_server, parse_cheatfds,
    parse_makeflags, test_tokens, AllDone, Ended, Job, ServerState, Step, TokenEvent, TokenOrCheat, TokenSource,
    TokenStep, TryRead,
};

fn job(fd: i32) -> Job {
    Job { fd, pid: fd + 1000, name: format!("job {}", fd) }
}

#[test]
fn parse_makeflags_test() {
    assert_eq!(parse_makeflags(b"").unwrap(), None);
    assert_eq!(parse_makeflags(b"--jobserver-auth=1,2").unwrap(), Some((1, 2)));
    assert_eq!(parse_makeflags(b"--jobserver-fds=1,2").unwrap(), Some((1, 2)));
    assert_eq!(parse_makeflags(b"--jobserver-fds=1,2 --jobserver-auth=3,4").unwrap(), Some((3, 4)));
    assert_eq!(parse_makeflags(b" -j --jobserver-auth=1,2 --jobserver-fds=3,4").unwrap(), Some((1, 2)));
}

#[test]
fn parse_makeflags_errors() {
    assert_eq!("invalid --jobserver-auth: 12", parse_makeflags(b"--jobserver-auth=12").unwrap_err().message());
    assert_eq!("invalid --jobserver-auth: a,2", parse_makeflags(b"--jobserver-auth=a,2").unwrap_err().message());
    assert_eq!("invalid --jobserver-auth: 1,2,3", parse_makeflags(b"--jobserver-auth=1,2,3").unwrap_err().message());
    assert_eq!("invalid MAKEFLAGS", parse_makeflags(b"--jobserver-auth=\xff").unwrap_err().message());
    let cause = |flags: &[u8]| parse_makeflags(flags).unwrap_err().cause().map(|c| c.message().to_string());
    let number = |s: &str| Some(s.parse::<i32>().unwrap_err().to_string());
    assert_eq!(None, cause(b"--jobserver-auth=12"));
    assert_eq!(number("a"), cause(b"--jobserver-auth=a,"));
    assert_eq!(number(""), cause(b"--jobserver-auth=1,"));
    assert_eq!(number("99999999999"), cause(b"--jobserver-auth=1,99999999999"));
    assert_eq!(Some(std::str::from_utf8(b"\xff").unwrap_err().to_string()), cause(b"--jobserver-auth=\xff"));
    assert_eq!(None, parse_makeflags(b"x--jobserver-auth=1,2").unwrap());
    let e = makeflags_fds_or_exit(b"--jobserver-auth=1").unwrap_err();
    assert!(matches!(e.kind(), RedoErrorKind::ImmediateExit(200)));
}

#[test]
fn makeflags_are_read_back() {
    for (a, b) in [(100, 101), (0, 0), (-1, 2147483647)] {
        let v = makeflags_value(a, b);
        assert_eq!(Some((a, b)), parse_makeflags(v.as_bytes()).unwrap());
        assert_eq!(Some((a, b)), parse_cheatfds(0, &cheatfds_value(a, b)).unwrap());
    }
    assert_eq!(" -j --jobserver-auth=3,4 --jobserver-fds=3,4", makeflags_value(3, 4));
}

#[test]
fn cheat_file_descriptors() {
    assert_eq!(None, parse_cheatfds(0, "").unwrap());
    assert_eq!(None, parse_cheatfds(2, "1,2").unwrap());
    assert_eq!(Some((1, 2)), parse_cheatfds(0, "1,2").unwrap());
    assert_eq!("invalid REDO_CHEATFDS: \"1\"", parse_cheatfds(0, "1").unwrap_err().message());
}

#[test]
fn where_tokens_come_from() {
    assert_eq!(TokenSource::New { warn: false }, choose_tokens(None, true, 4).unwrap());
    assert_eq!(TokenSource::Parent(3, 4), choose_tokens(Some((3, 4)), true, 0).unwrap());
    assert_eq!(TokenSource::New { warn: false }, choose_tokens(Some((3, 4)), true, 1).unwrap());
    assert_eq!(TokenSource::New { warn: true }, choose_tokens(Some((3, 4)), true, 2).unwrap());
    let e = choose_tokens(Some((3, 4)), false, 0).unwrap_err();
    assert!(matches!(e.kind(), RedoErrorKind::ImmediateExit(200)));
    assert_eq!("broken --jobserver-auth from parent process", e.message());
}

#[test]
fn new_servers() {
    let s = new_server(0);
    assert_eq!((0, 1, 1), (s.to_share, s.top_level, s.state.my_tokens()));
    let s = new_server(5);
    assert_eq!((4, 5, 1), (s.to_share, s.top_level, s.state.my_tokens()));
}

#[test]
fn tokens_stay_in_balance() {
    let mut s = ServerState::default();
    s.start_job(job(50));
    assert!(!s.has_token() && s.is_running());
    let (j, n) = s.job_ended(s.job_at(50).unwrap(), TryRead::Nothing).unwrap();
    assert_eq!((50, 0, 1), (j.fd, n, s.my_tokens()));
    assert_eq!("job 50", j.name);
    assert!(s.token_read(TryRead::Got(1)).unwrap());
    assert_eq!(2, s.my_tokens());
    assert_eq!(1, s.release_except_mine());
    assert_eq!((1, 0), (s.my_tokens(), s.cheats()));
    assert_eq!(1, s.release_mine());
    assert_eq!(0, s.my_tokens());
    s.create_tokens(3);
    assert_eq!(3, s.my_tokens());
    s.destroy_tokens(2);
    assert_eq!((0, 0), s.force_return_tokens());
    assert_eq!(1, s.my_tokens());
}

#[test]
fn cheating_is_paid_back() {
    let mut s = ServerState::default();
    s.release_mine();
    s.cheat(1);
    assert_eq!((1, 1), (s.my_tokens(), s.cheats()));
    assert_eq!(0, s.release_mine());
    assert_eq!((0, 0), (s.my_tokens(), s.cheats()));
    s.cheat(1);
    s.start_job(job(50));
    let (_, n) = s.job_ended(0, TryRead::Nothing).unwrap();
    assert_eq!((0, 0, 0), (n, s.my_tokens(), s.cheats()));
    s.cheat(1);
    assert_eq!((0, 1), s.force_return_tokens());
    assert_eq!(0, s.my_tokens());
}

#[test]
fn ended_jobs() {
    let mut s = ServerState::default();
    s.start_job(job(50));
    s.create_tokens(1);
    s.start_job(job(51));
    assert_eq!(None, s.job_at(99));
    assert_eq!("redo: bad", s.job_ended(0, TryRead::Failed("bad".to_string())).unwrap_err().message());
    let (_, n) = s.job_ended(s.job_at(50).unwrap(), TryRead::Got(1)).unwrap();
    assert_eq!((0, 0), (n, s.my_tokens()));
    s.create_tokens(1);
    let (j, n) = s.job_ended(s.job_at(51).unwrap(), TryRead::Got(0)).unwrap();
    assert_eq!((51, 1, 1), (j.fd, n, s.my_tokens()));
    assert_eq!(4, job_status(&Ended::Exited(4)).unwrap());
    assert_eq!(-9, job_status(&Ended::Signaled(9)).unwrap());
    let e = job_status(&Ended::Other("Stopped".to_string())).unwrap_err();
    assert_eq!("unhandled process status: Stopped", e.message());
}

#[test]
fn token_reads() {
    let mut s = ServerState::default();
    assert_eq!("unexpected EOF on token read", s.token_read(TryRead::Got(0)).unwrap_err().message());
    assert!(!s.token_read(TryRead::Nothing).unwrap());
    assert_eq!("redo: x", s.token_read(TryRead::Failed("x".to_string())).unwrap_err().message());
    assert_eq!(1, s.my_tokens());
}

#[test]
fn main_loop_plans() {
    let mut s = ServerState::default();
    assert!(matches!(s.plan(100, 7), Step::Deadlock));
    assert!(!s.sleep_poll(100, 300));
    assert!(!s.sleep_poll(100, 200));
    assert!(s.sleep_poll(200, 200));
    assert!(matches!(s.plan(150, 7), Step::Sleep(50)));
    s.start_job(job(50));
    let mut t = s.ensure_token();
    assert!(!t.poll(&mut s));
    match s.plan(150, 7) {
        Step::Select(fds, d) => assert_eq!((vec![50, 7], Some(50)), (fds, d)),
        other => panic!("{:?}", other),
    }
    assert!(matches!(s.plan(201, 7), Step::GoOn));
    s.create_tokens(1);
    assert!(matches!(s.plan(201, 7), Step::GoOn));
    assert!(t.poll(&mut s));
    assert!(t.is_terminated());
    match s.plan(201, 7) {
        Step::Select(fds, d) => assert_eq!((vec![50], Some(99)), (fds, d)),
        other => panic!("{:?}", other),
    }
}

#[test]
fn waiting_for_tokens() {
    let mut s = ServerState::default();
    let mut a = s.ensure_token();
    assert!(a.poll(&mut s));
    s.release_mine();
    let mut b = s.ensure_token();
    let mut c = s.ensure_token();
    assert!(!b.poll(&mut s));
    assert!(!c.poll(&mut s));
    s.forget(2);
    assert!(s.token_read(TryRead::Got(1)).unwrap());
    assert!(b.poll(&mut s));
    assert!(!c.is_terminated());
}

#[test]
fn token_or_cheat() {
    let mut s = ServerState::default();
    let mut w = TokenOrCheat::new();
    assert_eq!(TokenStep::Ready, w.next(&s));
    s.start_job(job(50));
    assert_eq!(TokenStep::AwaitToken, w.next(&s));
    s.job_ended(0, TryRead::Got(1)).unwrap();
    assert_eq!(TokenStep::AwaitTokenFor(10), w.next(&s));
    assert!(!w.waited(&mut s, TokenEvent::Timeout(Ok(0))).unwrap());
    assert_eq!(TokenStep::AwaitTokenFor(20), w.next(&s));
    let e = w.waited(&mut s, TokenEvent::Timeout(Err(RedoError::new("lock")))).unwrap_err();
    assert_eq!("lock", e.message());
    for _ in 0..100 {
        w.waited(&mut s, TokenEvent::Timeout(Ok(0))).unwrap();
    }
    assert_eq!(TokenStep::AwaitTokenFor(1000), w.next(&s));
    assert!(w.waited(&mut s, TokenEvent::Timeout(Ok(1))).unwrap());
    assert_eq!((1, 1), (s.my_tokens(), s.cheats()));
    assert!(!w.waited(&mut s, TokenEvent::Timeout(Ok(1))).unwrap());
    assert!(w.waited(&mut s, TokenEvent::Token).unwrap());
}

#[test]
fn waiting_for_all_jobs() {
    let mut s = ServerState::default();
    s.create_tokens(2);
    assert_eq!((AllDone::Done { count_tokens: false }, 2), s.wait_all(0));
    assert_eq!(1, s.my_tokens());
    s.start_job(job(50));
    s.create_tokens(2);
    assert_eq!((AllDone::Waiting, 2), s.wait_all(3));
    assert_eq!(0, s.my_tokens());
    s.job_ended(0, TryRead::Nothing).unwrap();
    assert_eq!((AllDone::Done { count_tokens: true }, 1), s.wait_all(3));
    assert_eq!(0, s.my_tokens());
}

#[test]
fn counting_tokens() {
    assert!(test_tokens(5, 5, 0).is_ok());
    assert!(test_tokens(5, 7, 2).is_ok());
    let e = test_tokens(5, 4, 1).unwrap_err();
    assert_eq!("on exit: expected 5 tokens; found 4-1", e.message());
    assert!(test_tokens(1, 0, 1).is_err());
}

#[test]
fn tokens_are_conserved() {
    let mut parent = ServerState::default();
    parent.start_job(job(50));
    let mut child = ServerState::default();
    assert_eq!(1, child.release_mine());
    child.cheat(1);
    assert_eq!((0, 1), child.force_return_tokens());
    // The cheat token that the child has reported stands for the one that it handed on.
    let (_, n) = parent.job_ended(0, TryRead::Got(1)).unwrap();
    assert_eq!((0, 0), (n, parent.my_tokens()));
    assert!(parent.token_read(TryRead::Got(1)).unwrap());
    assert_eq!(1, parent.my_tokens());
}

#[test]
fn tokens_out_of_balance() {
    let mut s = ServerState::default();
    assert!(s.in_balance());
    s.release_mine();
    s.cheat(1);
    s.start_job(job(50));
    assert!(s.in_balance());
    s.job_ended(0, TryRead::Got(1)).unwrap();
    assert!(!s.in_balance());
    assert!(s.token_read(TryRead::Got(1)).unwrap());
    assert!(s.in_balance());
}
