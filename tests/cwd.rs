use steed_os::cwd::{chdir_argument, getcwd_start, getcwd_step, GetcwdReply, GetcwdStep, INITIAL_CAPACITY};
use steed_os::error::{error_string, OsError, ERANGE};

/// Runs the retry protocol against a scripted kernel: `too_small` refusals,
/// then the given reply. Returns the number of calls and the outcome.
fn run_scripted(too_small: usize, last: GetcwdReply) -> (usize, Result<Vec<u8>, OsError>, Vec<usize>) {
    let mut replies: Vec<GetcwdReply> = (0..too_small).map(|_| GetcwdReply::BufferTooSmall).collect();
    replies.push(last);
    let mut replies = replies.into_iter();
    let mut calls = 0;
    let mut capacities = Vec::new();
    let mut step = getcwd_start();
    loop {
        match step {
            GetcwdStep::Call(cap) => {
                calls += 1;
                capacities.push(cap);
                step = getcwd_step(cap, replies.next().expect("more calls than scripted"));
            }
            GetcwdStep::Done(p) => return (calls, Ok(p), capacities),
            GetcwdStep::Fail(e) => return (calls, Err(e), capacities),
        }
    }
}

fn filled(path: &[u8], cap: usize) -> GetcwdReply {
    let mut b = path.to_vec();
    b.push(0);
    b.resize(cap, 7);
    GetcwdReply::Filled(b)
}

#[test]
fn retries_then_success() {
    for n in [0usize, 1, 5] {
        let (calls, r, caps) = run_scripted(n, filled(b"/home/user/project", 64));
        assert_eq!(calls, n + 1);
        assert_eq!(r, Ok(b"/home/user/project".to_vec()));
        assert_eq!(caps[0], INITIAL_CAPACITY);
        for w in caps.windows(2) {
            assert_eq!(w[1], 2 * w[0]);
        }
    }
}

#[test]
fn other_failure_is_handed_on() {
    let (calls, r, _) = run_scripted(2, GetcwdReply::Failed(2));
    assert_eq!(calls, 3);
    assert_eq!(r, Err(OsError::Os(2)));
}

#[test]
fn filled_buffer_is_cut_at_first_terminator() {
    match getcwd_step(512, GetcwdReply::Filled(b"/a\0/b\0".to_vec())) {
        GetcwdStep::Done(p) => assert_eq!(p, b"/a".to_vec()),
        other => panic!("unexpected {:?}", other),
    }
    match getcwd_step(512, GetcwdReply::Filled(b"/no/terminator".to_vec())) {
        GetcwdStep::Done(p) => assert_eq!(p, b"/no/terminator".to_vec()),
        other => panic!("unexpected {:?}", other),
    }
    match getcwd_step(512, GetcwdReply::Filled(b"\0xyz".to_vec())) {
        GetcwdStep::Done(p) => assert!(p.is_empty()),
        other => panic!("unexpected {:?}", other),
    }
}

#[test]
fn capacity_that_cannot_double_fails() {
    match getcwd_step(usize::MAX / 2 + 1, GetcwdReply::BufferTooSmall) {
        GetcwdStep::Fail(e) => assert_eq!(e, OsError::Os(ERANGE)),
        other => panic!("unexpected {:?}", other),
    }
    match getcwd_step(usize::MAX / 2, GetcwdReply::BufferTooSmall) {
        GetcwdStep::Call(c) => assert_eq!(c, usize::MAX - 1),
        other => panic!("unexpected {:?}", other),
    }
}

#[test]
fn chdir_argument_is_terminated() {
    assert_eq!(chdir_argument(b"/tmp"), Ok(b"/tmp\0".to_vec()));
    assert_eq!(chdir_argument(b""), Ok(b"\0".to_vec()));
}

#[test]
fn chdir_argument_refuses_terminator() {
    assert_eq!(chdir_argument(b"/tmp\0/x"), Err(OsError::Encoding));
    assert_eq!(chdir_argument(b"\0"), Err(OsError::Encoding));
}

#[test]
fn error_string_uses_description() {
    assert_eq!(error_string(2, Some("No such file or directory".to_string())), "No such file or directory");
}

#[test]
fn error_string_fallback() {
    assert_eq!(error_string(4242, None), "Unknown OS error (4242)");
    assert_eq!(error_string(0, None), "Unknown OS error (0)");
    assert_eq!(error_string(7, None), "Unknown OS error (7)");
    assert_eq!(error_string(-13, None), "Unknown OS error (-13)");
    assert_eq!(error_string(i32::MIN, None), "Unknown OS error (-2147483648)");
    assert_eq!(error_string(i32::MAX, None), "Unknown OS error (2147483647)");
}
