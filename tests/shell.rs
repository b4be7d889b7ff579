use zrsh::{
    builtin_of, cd_target, parse_cmd, parse_cmd_one, parse_i32, parse_pipe, parse_usize,
    stage_wiring, Action, Builtin, ChildEvent, CmdError, Group, Notice, PipeEnd, ProcState, Reply,
    Step, Wiring, Worker,
};

fn words(v: &[&str]) -> Vec<String> {
    v.iter().map(|s| s.to_string()).collect()
}

/// Submits `line`, which must ask for a launch, and registers the job
/// under `pids`.
fn launch(w: &mut Worker, line: &str, pids: &[i32]) -> usize {
    let step = w.handle_line(line);
    match &step.action {
        Action::Launch(stages) => assert_eq!(stages.len(), pids.len()),
        _ => panic!("expected a launch"),
    }
    let step = w.register_job(line, &pids.to_vec());
    assert!(matches!(step.action, Action::Foreground(g) if g == pids[0]));
    w.jobs.iter().find(|j| j.pgid == pids[0]).unwrap().id
}

fn finish(w: &mut Worker, pids: &[i32]) -> Step {
    let mut last = None;
    for p in pids {
        last = Some(w.handle_child(ChildEvent::Exited(*p, 0)));
    }
    last.unwrap()
}

#[test]
fn parse_cmd_single_and_pipe() {
    let v = parse_cmd("echo abc def").unwrap();
    assert_eq!(v.len(), 1);
    assert_eq!(v[0].program, "echo");
    assert_eq!(v[0].args, words(&["echo", "abc", "def"]));

    let v = parse_cmd("echo abc | less").unwrap();
    assert_eq!(v.len(), 2);
    assert_eq!(v[0].program, "echo");
    assert_eq!(v[0].args, words(&["echo", "abc"]));
    assert_eq!(v[1].program, "less");
    assert_eq!(v[1].args, words(&["less"]));
}

#[test]
fn parse_cmd_whitespace() {
    let v = parse_cmd("  ls \t -l   x ").unwrap();
    assert_eq!(v[0].args, words(&["ls", "-l", "x"]));
    assert_eq!(parse_pipe("a|b|"), words(&["a", "b", ""]));
    assert_eq!(parse_cmd_one("   ").err(), Some(CmdError::Empty));
}

#[test]
fn parse_cmd_errors() {
    assert_eq!(parse_cmd("").err(), Some(CmdError::Empty));
    assert_eq!(parse_cmd("   ").err(), Some(CmdError::Empty));
    assert_eq!(parse_cmd("ls |").err(), Some(CmdError::Empty));
    assert_eq!(parse_cmd("a | b | c").err(), Some(CmdError::TooManyStages));
}

#[test]
fn decimal_parsing() {
    assert_eq!(parse_i32("42"), Some(42));
    assert_eq!(parse_i32("-7"), Some(-7));
    assert_eq!(parse_i32("+3"), Some(3));
    assert_eq!(parse_i32("2147483647"), Some(i32::MAX));
    assert_eq!(parse_i32("-2147483648"), Some(i32::MIN));
    assert_eq!(parse_i32("2147483648"), None);
    assert_eq!(parse_i32("12a"), None);
    assert_eq!(parse_i32("-"), None);
    assert_eq!(parse_i32(""), None);
    assert_eq!(parse_usize("5"), Some(5));
    assert_eq!(parse_usize("-0"), None);
    assert_eq!(parse_usize("+0"), Some(0));
}

#[test]
fn builtin_names() {
    assert_eq!(builtin_of("exit"), Some(Builtin::Exit));
    assert_eq!(builtin_of("jobs"), Some(Builtin::Jobs));
    assert_eq!(builtin_of("fg"), Some(Builtin::Fg));
    assert_eq!(builtin_of("cd"), Some(Builtin::Cd));
    assert_eq!(builtin_of("ls"), None);
    assert_eq!(builtin_of("exits"), None);
}

#[test]
fn two_stage_wiring() {
    assert_eq!(
        stage_wiring(2, 0),
        Wiring { group: Group::Own, stdin: None, stdout: Some(PipeEnd::Write), close: Some(PipeEnd::Read) }
    );
    assert_eq!(
        stage_wiring(2, 1),
        Wiring { group: Group::Leader, stdin: Some(PipeEnd::Read), stdout: None, close: Some(PipeEnd::Write) }
    );
    assert_eq!(
        stage_wiring(1, 0),
        Wiring { group: Group::Own, stdin: None, stdout: None, close: None }
    );
}

#[test]
fn job_ids_reuse_smallest_free() {
    let mut w = Worker::new(1);
    assert_eq!(launch(&mut w, "a", &[100]), 0);
    w.handle_child(ChildEvent::Stopped(100));
    assert_eq!(launch(&mut w, "b", &[200]), 1);
    w.handle_child(ChildEvent::Stopped(200));
    assert_eq!(launch(&mut w, "c", &[300]), 2);
    w.handle_child(ChildEvent::Stopped(300));
    // B completes in the background.
    let step = w.handle_child(ChildEvent::Exited(200, 0));
    assert!(matches!(step.notice, Notice::Quiet));
    assert!(matches!(step.action, Action::Idle));
    assert_eq!(launch(&mut w, "d", &[400]), 1);
    let ids: Vec<usize> = w.job_table().iter().map(|j| j.id).collect();
    assert_eq!(ids, vec![0, 1, 2]);
}

#[test]
fn exit_refused_while_jobs_registered() {
    let mut w = Worker::new(1);
    launch(&mut w, "sleep 10", &[100]);
    w.handle_child(ChildEvent::Stopped(100));
    let step = w.handle_line("exit");
    assert!(matches!(step.notice, Notice::ExitRefused));
    assert!(matches!(step.action, Action::Reply(Reply::Continue(-1))));
    assert_eq!(w.exit_val, -1);
    assert_eq!(w.jobs.len(), 1);
}

#[test]
fn exit_codes() {
    let mut w = Worker::new(1);
    assert!(matches!(w.handle_line("exit 3").action, Action::Reply(Reply::Quit(3))));
    let step = w.handle_line("exit x");
    assert!(matches!(&step.notice, Notice::BadExitCode(s) if s == "x"));
    assert!(matches!(step.action, Action::Reply(Reply::Continue(1))));
    assert!(matches!(w.handle_line("exit").action, Action::Reply(Reply::Quit(1))));
}

#[test]
fn fg_unknown_job_keeps_foreground() {
    let mut w = Worker::new(1);
    launch(&mut w, "vi", &[100]);
    w.handle_child(ChildEvent::Stopped(100));
    assert_eq!(w.fg, None);
    let step = w.handle_line("fg 7");
    assert!(matches!(&step.notice, Notice::NoSuchJob(s) if s == "7"));
    assert!(matches!(step.action, Action::Reply(Reply::Continue(1))));
    assert_eq!(w.fg, None);
    let step = w.handle_line("fg");
    assert!(matches!(step.notice, Notice::FgUsage));
    assert!(matches!(step.action, Action::Reply(Reply::Continue(1))));
    let step = w.handle_line("fg x");
    assert!(matches!(&step.notice, Notice::NoSuchJob(s) if s == "x"));
    assert_eq!(w.fg, None);
}

#[test]
fn stop_then_fg_resumes() {
    let mut w = Worker::new(1);
    let id = launch(&mut w, "yes | head", &[100, 101]);
    assert_eq!(w.fg, Some(100));
    assert!(matches!(w.handle_child(ChildEvent::Stopped(100)).action, Action::Idle));
    assert_eq!(w.fg, Some(100));
    let step = w.handle_child(ChildEvent::Stopped(101));
    assert!(matches!(&step.notice, Notice::Stopped(i, l) if *i == id && l == "yes | head"));
    assert!(matches!(step.action, Action::Release(Reply::Continue(_))));
    assert_eq!(w.fg, None);
    let table = w.job_table();
    assert_eq!(table.len(), 1);
    assert!(table[0].stopped);
    assert_eq!(table[0].line, "yes | head");

    let step = w.handle_line("fg 0");
    assert!(matches!(&step.notice, Notice::Resumed(0, l) if l == "yes | head"));
    assert!(matches!(step.action, Action::Resume(100)));
    assert_eq!(w.fg, Some(100));
    w.handle_child(ChildEvent::Continued(100));
    w.handle_child(ChildEvent::Continued(101));
    assert!(!w.job_table()[0].stopped);
}

#[test]
fn cd_destination() {
    let mut w = Worker::new(1);
    let step = w.handle_line("cd /tmp extra");
    assert!(matches!(&step.action, Action::ChangeDir(d) if d == "/tmp"));
    assert_eq!(cd_target(&words(&["cd"]), Some("/home/u".to_string())), "/home/u");
    assert_eq!(cd_target(&words(&["cd"]), None), "/");
    assert_eq!(cd_target(&words(&["cd", "x"]), Some("/home/u".to_string())), "x");
    assert!(matches!(w.handle_line("cd").action, Action::ChangeDir(_)));
    assert!(matches!(w.cd_finished(false).action, Action::Reply(Reply::Continue(1))));
    assert!(matches!(w.cd_finished(true).action, Action::Reply(Reply::Continue(0))));
}

#[test]
fn pipeline_finishes_and_prompt_resumes() {
    let mut w = Worker::new(1);
    let step = w.handle_line("echo hello | cat");
    match &step.action {
        Action::Launch(stages) => {
            assert_eq!(stages.len(), 2);
            assert_eq!(stages[0].args, words(&["echo", "hello"]));
            assert_eq!(stages[1].args, words(&["cat"]));
        }
        _ => panic!("expected a launch"),
    }
    w.register_job("echo hello | cat", &vec![100, 101]);
    assert_eq!(w.job_table().len(), 1);
    assert!(matches!(w.handle_child(ChildEvent::Exited(100, 0)).action, Action::Idle));
    let step = w.handle_child(ChildEvent::Exited(101, 0));
    assert!(matches!(&step.notice, Notice::Finished(0, l) if l == "echo hello | cat"));
    assert!(matches!(step.action, Action::Release(Reply::Continue(0))));
    assert_eq!(w.job_table().len(), 0);
    assert_eq!(w.fg, None);
}

#[test]
fn three_stage_pipeline_rejected() {
    let mut w = Worker::new(1);
    let step = w.handle_line("a | b | c");
    assert!(matches!(step.notice, Notice::BadCommand(CmdError::TooManyStages)));
    assert!(matches!(step.action, Action::Reply(Reply::Continue(0))));
    assert_eq!(w.jobs.len(), 0);
}

#[test]
fn signaled_job_sets_status() {
    let mut w = Worker::new(1);
    launch(&mut w, "sleep 5", &[100]);
    let step = w.handle_child(ChildEvent::Signaled(100, 9));
    assert!(matches!(step.action, Action::Release(Reply::Continue(137))));
    assert_eq!(w.exit_val, 137);
    let step = finish(&mut w, &[555]);
    assert!(matches!(step.action, Action::Idle));
    assert_eq!(w.exit_val, 0);
}

#[test]
fn untracked_registration_refused() {
    let mut w = Worker::new(1);
    launch(&mut w, "a", &[100]);
    let step = w.register_job("b", &vec![100]);
    assert!(matches!(step.notice, Notice::Untracked));
    let step = w.register_job("b", &vec![200, 200]);
    assert!(matches!(step.notice, Notice::Untracked));
    assert_eq!(w.jobs.len(), 1);
    assert!(matches!(w.launch_failed().action, Action::Reply(Reply::Continue(0))));
}

#[test]
fn jobs_listing() {
    let mut w = Worker::new(1);
    launch(&mut w, "a", &[100]);
    let step = w.handle_line("jobs");
    assert!(matches!(step.notice, Notice::JobTable));
    assert!(matches!(step.action, Action::Reply(Reply::Continue(0))));
    let t = w.job_table();
    assert_eq!((t[0].id, t[0].stopped, t[0].line.as_str()), (0, false, "a"));
    assert_eq!(w.jobs[0].members[0].state, ProcState::Running);
    let step = w.handle_line("jobs | cat");
    assert!(matches!(step.action, Action::Launch(_)));
}
