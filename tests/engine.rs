use minishell::ast::{fork, log_or, pipe, sequential, single, Command, FileInput, FileOutput};
use minishell::executor::{Action, Engine, Event, StreamSet, RESOURCE_FAILURE};
use minishell::lexer::lex;
use minishell::parser::parse;

fn words(ws: &[&str]) -> Command {
    single(ws.iter().map(|w| w.to_string()).collect())
}

/// Drives the engine against a scripted world: each program exits with the
/// status that `status_of` gives its name, and every step is logged.
fn drive(cmd: Command, status_of: &dyn Fn(&str) -> i32) -> (i32, Vec<String>) {
    let mut log: Vec<String> = vec![];
    let mut names: Vec<(i32, String)> = vec![];
    let mut next_pid = 100;
    let mut next_fd = 10;
    let (mut engine, mut action) = Engine::begin(cmd, StreamSet::standard());
    loop {
        let event = match action {
            Action::Spawn { args, streams, attached } => {
                log.push(format!(
                    "spawn {} in={:?} out={:?} attached={}",
                    args[0], streams.stdin, streams.stdout, attached
                ));
                next_pid += 1;
                names.push((next_pid, args[0].clone()));
                Event::Spawned(next_pid)
            }
            Action::Subshell { attached, .. } => {
                log.push(format!("subshell attached={}", attached));
                next_pid += 1;
                names.push((next_pid, "subshell".to_string()));
                Event::Spawned(next_pid)
            }
            Action::OpenInput { path } => {
                log.push(format!("open-in {}", path));
                if path == "missing" {
                    Event::Failed
                } else {
                    next_fd += 1;
                    Event::Opened(next_fd)
                }
            }
            Action::OpenOutput { path, append } => {
                log.push(format!("open-out {} append={}", path, append));
                next_fd += 1;
                Event::Opened(next_fd)
            }
            Action::MakePipe => {
                log.push("pipe".to_string());
                next_fd += 2;
                Event::PipeMade(next_fd - 1, next_fd)
            }
            Action::Close { fd } => {
                log.push(format!("close {}", fd));
                Event::Closed
            }
            Action::Wait { pid } => {
                let name = names.iter().find(|(p, _)| *p == pid).unwrap().1.clone();
                log.push(format!("wait {}", name));
                Event::Exited(status_of(&name))
            }
            Action::Finish { status } => return (status, log),
        };
        assert!(engine.accepts(event));
        let (e, a) = engine.resume(event);
        engine = e;
        action = a;
    }
}

fn statuses(name: &str) -> i32 {
    match name {
        "fail" => 1,
        "false" => 1,
        _ => 0,
    }
}

#[test]
fn nil_finishes_with_success() {
    let (status, log) = drive(Command::Nil, &statuses);
    assert_eq!(status, 0);
    assert!(log.is_empty());
}

#[test]
fn single_waits_for_its_process() {
    let (status, log) = drive(words(&["fail", "x"]), &statuses);
    assert_eq!(status, 1);
    assert_eq!(log, vec!["spawn fail in=Some(0) out=Some(1) attached=true", "wait fail"]);
}

#[test]
fn sequence_finishes_first_before_second() {
    let (status, log) = drive(sequential(words(&["a"]), words(&["fail"])), &statuses);
    assert_eq!(status, 1);
    assert_eq!(
        log,
        vec![
            "spawn a in=Some(0) out=Some(1) attached=true",
            "wait a",
            "spawn fail in=Some(0) out=Some(1) attached=true",
            "wait fail",
        ]
    );
}

#[test]
fn end_to_end_and_runs_second_only_after_success() {
    for (first, expect_second) in [("ok", true), ("fail", false)] {
        let line = format!("{} && second", first);
        let tokens = lex(&line).unwrap();
        let cmd = parse(&tokens).unwrap();
        let (status, log) = drive(cmd, &statuses);
        let launched_second = log.iter().any(|l| l.starts_with("spawn second"));
        assert_eq!(launched_second, expect_second);
        assert_eq!(status, if expect_second { 0 } else { 1 });
    }
}

#[test]
fn or_skips_second_after_success() {
    let (status, log) = drive(log_or(words(&["ok"]), words(&["second"])), &statuses);
    assert_eq!(status, 0);
    assert!(!log.iter().any(|l| l.starts_with("spawn second")));
    let (status, log) = drive(log_or(words(&["fail"]), words(&["second"])), &statuses);
    assert_eq!(status, 0);
    assert!(log.iter().any(|l| l.starts_with("spawn second")));
}

#[test]
fn fork_never_waits_for_background() {
    let (status, log) = drive(fork(words(&["sleeper"]), words(&["fail"])), &statuses);
    assert_eq!(status, 1);
    assert_eq!(
        log,
        vec![
            "spawn sleeper in=Some(0) out=Some(1) attached=false",
            "spawn fail in=Some(0) out=Some(1) attached=true",
            "wait fail",
        ]
    );
}

#[test]
fn fork_with_trailing_nil_returns_at_once() {
    let (status, log) = drive(fork(words(&["sleeper"]), Command::Nil), &statuses);
    assert_eq!(status, 0);
    assert_eq!(log, vec!["spawn sleeper in=Some(0) out=Some(1) attached=false"]);
}

#[test]
fn pipe_starts_both_and_closes_write_end_first() {
    let (status, log) = drive(pipe(words(&["fail"]), words(&["cat"])), &statuses);
    assert_eq!(status, 0);
    assert_eq!(
        log,
        vec![
            "pipe",
            "spawn fail in=Some(0) out=Some(12) attached=true",
            "close 12",
            "spawn cat in=Some(11) out=Some(1) attached=true",
            "close 11",
            "wait cat",
            "wait fail",
        ]
    );
}

#[test]
fn compound_left_of_pipe_runs_in_subshell() {
    let cmd = pipe(sequential(words(&["a"]), words(&["b"])), words(&["c"]));
    let (_, log) = drive(cmd, &statuses);
    assert_eq!(log[1], "subshell attached=true");
}

#[test]
fn output_redirection_opens_then_closes() {
    let cmd = Command::FileOutput(FileOutput {
        src: Box::new(words(&["echo"])),
        dst: "out.txt".to_string(),
        append: true,
    });
    let (status, log) = drive(cmd, &statuses);
    assert_eq!(status, 0);
    assert_eq!(
        log,
        vec![
            "open-out out.txt append=true",
            "spawn echo in=Some(0) out=Some(11) attached=true",
            "close 11",
            "wait echo",
        ]
    );
}

#[test]
fn missing_input_file_fails_the_subtree_only() {
    let cmd = sequential(
        Command::FileInput(FileInput {
            src: "missing".to_string(),
            dst: Box::new(words(&["cat"])),
        }),
        words(&["after"]),
    );
    let (status, log) = drive(cmd, &statuses);
    assert_eq!(status, 0);
    assert_eq!(
        log,
        vec!["open-in missing", "spawn after in=Some(0) out=Some(1) attached=true", "wait after"]
    );
    let (status, _) = drive(
        Command::FileInput(FileInput { src: "missing".to_string(), dst: Box::new(words(&["cat"])) }),
        &statuses,
    );
    assert_eq!(status, RESOURCE_FAILURE);
}

#[test]
fn engine_rejects_unexpected_events() {
    let (engine, action) = Engine::begin(words(&["a"]), StreamSet::standard());
    assert!(matches!(action, Action::Spawn { .. }));
    assert!(!engine.accepts(Event::Closed));
    assert!(!engine.accepts(Event::Exited(0)));
    assert!(engine.accepts(Event::Spawned(7)));
}

#[test]
fn stream_sets_split() {
    let ss = StreamSet::standard();
    assert_eq!(ss, StreamSet { stdin: Some(0), stdout: Some(1), stderr: Some(2) });
    let (l, r) = ss.pipe(5, 6);
    assert_eq!(l, StreamSet { stdin: Some(0), stdout: Some(6), stderr: Some(2) });
    assert_eq!(r, StreamSet { stdin: Some(5), stdout: Some(1), stderr: Some(2) });
    let (a, b) = ss.fork();
    assert_eq!(a, ss);
    assert_eq!(b, ss);
}
