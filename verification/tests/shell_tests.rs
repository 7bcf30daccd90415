use rcore_os::shell::{
    builtin_of, cd_target, command_string, echo_text, exec_args, execute_plan, is_history_clear,
    is_pipeline_builtin, is_whitespace, nul, parse_command, parse_kill_args, parse_usize,
    pipeline_status, should_run, stage_pgid, stage_pipes, tokenize, Builtin, Connector, JobStatus, KillError,
    KillTarget, Shell, ShellError, WaitResult, SIGCONT_BITS, SIGINT_BITS, SIGSEGV_BITS, BgAction, group_kill_target,
};

fn chars(s: &str) -> Vec<char> {
    s.chars().collect()
}

fn text(v: &[char]) -> String {
    v.iter().collect()
}

fn toks(s: &str) -> Vec<String> {
    tokenize(&chars(s)).unwrap().iter().map(|t| text(t)).collect()
}

fn words(v: &[&str]) -> Vec<Vec<char>> {
    v.iter().map(|s| chars(s)).collect()
}

#[test]
fn tokenize_words_and_operators() {
    assert_eq!(toks("ls -l | wc"), vec!["ls", "-l", "|", "wc"]);
    assert_eq!(toks("a&&b||c;d&"), vec!["a", "&&", "b", "||", "c", ";", "d", "&"]);
    assert_eq!(toks("cat <in >out >>log 2>err"), vec!["cat", "<", "in", ">", "out", ">>", "log", "2>", "err"]);
    assert_eq!(toks("x2>y"), vec!["x", "2>", "y"]);
    assert_eq!(toks("   "), Vec::<String>::new());
}

#[test]
fn tokenize_quotes_and_escapes() {
    assert_eq!(toks("echo 'a b' \"c|d\""), vec!["echo", "a b", "c|d"]);
    assert_eq!(toks("echo a\\ b \\|"), vec!["echo", "a b", "|"]);
    assert_eq!(toks("echo \"it's\""), vec!["echo", "it's"]);
    assert_eq!(toks("echo ''"), vec!["echo"]);
    assert_eq!(tokenize(&chars("echo 'open")), Err(ShellError::Unbalanced));
    assert_eq!(tokenize(&chars("echo trailing\\")), Err(ShellError::Unbalanced));
}

#[test]
fn unicode_whitespace_separates_words() {
    assert!(is_whitespace('\u{3000}'));
    assert!(is_whitespace('\t'));
    assert!(!is_whitespace('x'));
    assert_eq!(toks("a\u{00a0}b"), vec!["a", "b"]);
}

#[test]
fn parse_pipeline_with_redirections() {
    let cmds = parse_command(&chars("cat < in.txt | grep x > out.txt 2> err.txt")).unwrap();
    assert_eq!(cmds.len(), 1);
    let c = &cmds[0];
    assert_eq!(c.stages.len(), 2);
    assert!(!c.background);
    assert_eq!(c.connector, Connector::Always);
    assert_eq!(text(&c.stages[0].prog), "cat");
    assert_eq!(c.stages[0].input.as_ref().map(|f| text(f)), Some("in.txt".to_string()));
    assert_eq!(text(&c.stages[1].prog), "grep");
    assert_eq!(c.stages[1].args, words(&["x"]));
    assert_eq!(c.stages[1].output.as_ref().map(|f| text(f)), Some("out.txt".to_string()));
    assert!(!c.stages[1].append);
    assert_eq!(c.stages[1].stderr.as_ref().map(|f| text(f)), Some("err.txt".to_string()));
}

#[test]
fn parse_command_lists() {
    let cmds = parse_command(&chars("make && ./run || echo failed; sleep 5 &")).unwrap();
    assert_eq!(cmds.len(), 4);
    assert_eq!(cmds[0].connector, Connector::Always);
    assert_eq!(cmds[1].connector, Connector::And);
    assert_eq!(cmds[2].connector, Connector::Or);
    assert_eq!(cmds[3].connector, Connector::Always);
    assert!(cmds[3].background);
    assert!(!cmds[0].background);
    assert_eq!(parse_command(&chars("")).unwrap().len(), 0);
    let append = parse_command(&chars("echo hi >> log")).unwrap();
    assert!(append[0].stages[0].append);
}

#[test]
fn parse_errors() {
    assert!(matches!(parse_command(&chars("| wc")), Err(ShellError::EmptyCommand)));
    assert!(matches!(parse_command(&chars("ls | ")), Err(ShellError::EmptyCommand)));
    assert!(matches!(parse_command(&chars("ls ;; ls")), Err(ShellError::EmptyCommand)));
    assert!(matches!(parse_command(&chars("cat <")), Err(ShellError::MissingRedirectTarget)));
    assert!(matches!(parse_command(&chars("echo \"x")), Err(ShellError::Unbalanced)));
    assert_eq!(ShellError::EmptyCommand.message(), "empty command in pipeline");
    assert_eq!(ShellError::MissingRedirectTarget.message(), "missing file for redirection");
    assert_eq!(ShellError::Unbalanced.message(), "unbalanced quotes or trailing escape");
}

#[test]
fn command_text_for_jobs() {
    let cmds = parse_command(&chars("cat < a  b | sort > c 2> e &")).unwrap();
    assert_eq!(text(&command_string(&cmds[0])), "cat b < a | sort > c &");
}

#[test]
fn builtins_and_dispatch() {
    assert_eq!(builtin_of(&chars("cd")), Some(Builtin::Cd));
    assert_eq!(builtin_of(&chars("exit")), Some(Builtin::Exit));
    assert_eq!(builtin_of(&chars("ls")), None);
    assert!(is_pipeline_builtin(&chars("echo")));
    assert!(!is_pipeline_builtin(&chars("cd")));
    let single = parse_command(&chars("jobs")).unwrap();
    assert_eq!(execute_plan(&single[0]), Some(Builtin::Jobs));
    let piped = parse_command(&chars("echo a | wc")).unwrap();
    assert_eq!(execute_plan(&piped[0]), None);
}

#[test]
fn connectors_decide_what_runs() {
    assert!(should_run(Connector::Always, 3));
    assert!(should_run(Connector::And, 0));
    assert!(!should_run(Connector::And, 1));
    assert!(should_run(Connector::Or, 1));
    assert!(!should_run(Connector::Or, 0));
}

#[test]
fn pipes_of_stages() {
    assert_eq!(stage_pipes(0, 1), (None, None));
    assert_eq!(stage_pipes(0, 3), (None, Some(0)));
    assert_eq!(stage_pipes(1, 3), (Some(0), Some(1)));
    assert_eq!(stage_pipes(2, 3), (Some(1), None));
}

#[test]
fn exec_arguments_are_nul_terminated() {
    assert_eq!(nul(&chars("ls")), chars("ls\0"));
    let cmds = parse_command(&chars("grep -n x")).unwrap();
    let args = exec_args(&cmds[0].stages[0]);
    assert_eq!(args, vec![chars("grep\0"), chars("-n\0"), chars("x\0")]);
}

#[test]
fn foreground_status() {
    assert_eq!(pipeline_status(&[]), (0, false));
    assert_eq!(pipeline_status(&[WaitResult::Reaped(3), WaitResult::Reaped(0)]), (0, false));
    assert_eq!(pipeline_status(&[WaitResult::Reaped(0), WaitResult::Reaped(2)]), (2, false));
    assert_eq!(pipeline_status(&[WaitResult::Reaped(2), WaitResult::Stopped]), (1, true));
}

#[test]
fn echo_joins_with_spaces() {
    assert_eq!(text(&echo_text(&words(&["a", "b c", "d"]))), "a b c d");
    assert_eq!(text(&echo_text(&Vec::new())), "");
}

#[test]
fn numbers_parse_like_str_parse() {
    assert_eq!(parse_usize(&chars("42")), Some(42));
    assert_eq!(parse_usize(&chars("+7")), Some(7));
    assert_eq!(parse_usize(&chars("")), None);
    assert_eq!(parse_usize(&chars("+")), None);
    assert_eq!(parse_usize(&chars("-1")), None);
    assert_eq!(parse_usize(&chars("4x")), None);
    assert_eq!(parse_usize(&chars("18446744073709551615")), Some(usize::MAX));
    assert_eq!(parse_usize(&chars("18446744073709551616")), None);
}

#[test]
fn kill_arguments() {
    assert_eq!(parse_kill_args(&words(&["12"])), Ok((SIGINT_BITS, KillTarget::Process(12))));
    assert_eq!(parse_kill_args(&words(&["-5"])), Ok((SIGINT_BITS, KillTarget::Group(5))));
    assert_eq!(parse_kill_args(&words(&["-cont", "-3"])), Ok((SIGCONT_BITS, KillTarget::Group(3))));
    assert_eq!(parse_kill_args(&words(&["-SEGV", "9"])), Ok((SIGSEGV_BITS, KillTarget::Process(9))));
    assert_eq!(parse_kill_args(&words(&[])), Err(KillError::Usage));
    assert_eq!(parse_kill_args(&words(&["-INT"])), Err(KillError::Usage));
    assert_eq!(parse_kill_args(&words(&["-HUP", "1"])), Err(KillError::UnknownSignal));
    assert_eq!(parse_kill_args(&words(&["abc"])), Err(KillError::InvalidArgument));
}

#[test]
fn cd_and_history_arguments() {
    assert_eq!(cd_target(&Vec::new()), chars("/"));
    assert_eq!(cd_target(&words(&["/tmp", "x"])), chars("/tmp"));
    assert!(is_history_clear(&words(&["-c"])));
    assert!(!is_history_clear(&words(&["-d"])));
    assert!(!is_history_clear(&Vec::new()));
}

#[test]
fn job_table() {
    let mut sh = Shell::new(1);
    assert_eq!(sh.register_job(10, vec![10, 11], chars("a | b"), JobStatus::Running), 1);
    assert_eq!(sh.register_job(20, vec![20], chars("sleep"), JobStatus::Stopped), 2);
    assert_eq!(sh.find_job(None), Some(1));
    assert_eq!(sh.find_job(Some(&chars("1"))), Some(0));
    assert_eq!(sh.find_job(Some(&chars("9"))), None);
    assert_eq!(sh.find_job(Some(&chars("x"))), None);
    sh.resume_job(1);
    assert_eq!(sh.jobs[1].status, JobStatus::Running);
    sh.finish_foreground(1, true);
    assert_eq!(sh.jobs[1].status, JobStatus::Stopped);
    sh.finish_foreground(1, false);
    assert_eq!(sh.jobs.len(), 1);
    sh.jobs[0].status = JobStatus::Done(0);
    sh.drop_done_jobs();
    assert!(sh.jobs.is_empty());
    assert_eq!(sh.register_job(30, vec![30], chars("x"), JobStatus::Running), 3);
}

#[test]
fn shell_history_skips_repeats() {
    let mut sh = Shell::new(1);
    sh.add_history(b"ls");
    sh.add_history(b"ls");
    sh.add_history(b"");
    sh.add_history(b"pwd");
    assert_eq!(sh.history.len(), 2);
    assert_eq!(sh.history[1], b"pwd".to_vec());
}

#[test]
fn reap_jobs_reports_finished_pipelines() {
    let mut sh = Shell::new(1);
    sh.register_job(10, vec![10, 11], chars("a | b"), JobStatus::Running);
    sh.register_job(20, vec![20], chars("sleep"), JobStatus::Running);
    sh.register_job(30, vec![30, 31], chars("c | d"), JobStatus::Running);
    // job 1: both reaped (the second already gone); job 2 still running;
    // job 3: only the first reaped
    let reports = vec![vec![(10, 3), (-1, 7)], vec![(-2, 0)], vec![(30, 5), (0, 0)]];
    let done = sh.reap_jobs(&reports);
    assert_eq!(done, vec![(1, 7, chars("a | b"))]);
    assert_eq!(sh.jobs.len(), 2);
    assert_eq!(sh.jobs[0].jid, 2);
    assert_eq!(sh.jobs[0].pids, vec![20]);
    assert_eq!(sh.jobs[1].jid, 3);
    assert_eq!(sh.jobs[1].pids, vec![31]);
    assert!(sh.jobs[1].status == JobStatus::Running);
    let done = sh.reap_jobs(&vec![vec![(20, 0)], vec![(31, 2)]]);
    assert_eq!(done, vec![(2, 0, chars("sleep")), (3, 2, chars("c | d"))]);
    assert!(sh.jobs.is_empty());
}

#[test]
fn bg_continues_only_stopped_jobs() {
    let mut sh = Shell::new(1);
    assert_eq!(sh.bg_action(None), BgAction::NotFound);
    sh.register_job(10, vec![10], chars("a"), JobStatus::Running);
    sh.register_job(20, vec![20], chars("b"), JobStatus::Stopped);
    assert_eq!(sh.bg_action(None), BgAction::Continue(1));
    assert_eq!(sh.bg_action(Some(&chars("1"))), BgAction::AlreadyRunning(1));
    assert_eq!(sh.bg_action(Some(&chars("2"))), BgAction::Continue(1));
    assert_eq!(sh.bg_action(Some(&chars("3"))), BgAction::NotFound);
    assert_eq!(sh.bg_action(Some(&chars("x"))), BgAction::NotFound);
    assert_eq!(group_kill_target(20), -20);
}

#[test]
fn finishing_pipelines() {
    let mut sh = Shell::new(1);
    assert_eq!(sh.finish_pipeline(10, vec![10, 11], chars("a | b &"), true, &[]), (0, Some(1)));
    assert_eq!(sh.jobs[0].status, JobStatus::Running);
    let ended = [WaitResult::Reaped(0), WaitResult::Reaped(3)];
    assert_eq!(sh.finish_pipeline(20, vec![20, 21], chars("c | d"), false, &ended), (3, None));
    assert_eq!(sh.jobs.len(), 1);
    let stopped = [WaitResult::Stopped, WaitResult::Reaped(0)];
    assert_eq!(sh.finish_pipeline(30, vec![30, 31], chars("e | f"), false, &stopped), (1, Some(2)));
    assert_eq!(sh.jobs[1].status, JobStatus::Stopped);
    assert_eq!(sh.jobs[1].pids, vec![30, 31]);
    assert_eq!(sh.next_jid, 3);
}

#[test]
fn first_stage_leads_the_pipeline_group() {
    // inside the children
    assert_eq!(stage_pgid(0, 0, 0), 0);
    assert_eq!(stage_pgid(2, 41, 0), 41);
    // in the shell, after each fork
    let mut pgid = 0;
    pgid = stage_pgid(0, pgid, 41);
    assert_eq!(pgid, 41);
    pgid = stage_pgid(1, pgid, 42);
    assert_eq!(pgid, 41);
}
