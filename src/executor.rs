use vstd::prelude::*;
use crate::ast::{BinaryOp, Command};

verus! {

/// The descriptors that a command reads from and writes to. `None` leaves
/// the channel as the launching process has it.
#[derive(Debug, Clone, Copy, PartialEq, Eq, Structural)]
pub struct StreamSet {
    pub stdin: Option<i32>,
    pub stdout: Option<i32>,
    pub stderr: Option<i32>,
}

impl StreamSet {
    /// The standard input, output and error of the calling process.
    pub fn standard() -> (r: StreamSet)
        ensures
            r == (StreamSet { stdin: Some(0), stdout: Some(1), stderr: Some(2) }),
    {
        StreamSet { stdin: Some(0), stdout: Some(1), stderr: Some(2) }
    }

    /// Splits the channels across a pipe whose ends are `read` and `write`:
    /// the left side writes into the pipe, the right side reads from it, and
    /// both keep the other channels.
    pub fn pipe(self, read: i32, write: i32) -> (r: (StreamSet, StreamSet))
        ensures
            r.0 == self.with_output_spec(write),
            r.1 == self.with_input_spec(read),
    {
        (self.with_output(write), self.with_input(read))
    }

    /// Splits the channels for a background command and the command after
    /// it: both sides see the same channels.
    pub fn fork(self) -> (r: (StreamSet, StreamSet))
        ensures
            r.0 == self,
            r.1 == self,
    {
        (self, self)
    }

    pub open spec fn with_input_spec(self, fd: i32) -> StreamSet {
        StreamSet { stdin: Some(fd), stdout: self.stdout, stderr: self.stderr }
    }

    pub open spec fn with_output_spec(self, fd: i32) -> StreamSet {
        StreamSet { stdin: self.stdin, stdout: Some(fd), stderr: self.stderr }
    }

    /// These channels with standard input replaced by `fd`.
    pub fn with_input(self, fd: i32) -> (r: StreamSet)
        ensures
            r == self.with_input_spec(fd),
    {
        StreamSet { stdin: Some(fd), stdout: self.stdout, stderr: self.stderr }
    }

    /// These channels with standard output replaced by `fd`.
    pub fn with_output(self, fd: i32) -> (r: StreamSet)
        ensures
            r == self.with_output_spec(fd),
    {
        StreamSet { stdin: self.stdin, stdout: Some(fd), stderr: self.stderr }
    }
}

/// The status that a subtree yields when a file or a pipe it needs cannot be had.
pub const RESOURCE_FAILURE: i32 = 1;

/// What a launched subtree hands back: a status known at once, or a process
/// whose exit gives the status.
#[derive(Debug, Clone, Copy, PartialEq, Eq, Structural)]
pub enum Completion {
    Status(i32),
    Running(i32),
}

/// How a subtree is launched. `Foreground` may wait on processes before it
/// completes; `Piped` and `Background` must start at once without waiting,
/// attached to the engine or detached from it.
#[derive(Debug, Clone, Copy, PartialEq, Eq, Structural)]
pub enum Mode {
    Foreground,
    Piped,
    Background,
}

/// Work that is waiting for the completion of the subtree launched above it.
pub enum Frame {
    /// `first op second` with `first` running: `op` is sequencing, `&&` or `||`.
    Then { op: BinaryOp, second: Command, streams: StreamSet },
    /// `first & second` with `first` launched in the background.
    AfterFork { second: Command, streams: StreamSet },
    /// `first | second` with `first` launched into the pipe.
    AfterPipeLeft { second: Command, streams: StreamSet, read: i32, write: i32 },
    /// Close `fd` once the subtree above has been launched.
    Release { fd: i32 },
    /// The right side of a pipe ran; wait for the left side too.
    Reap { left: Completion },
    /// Discard the next status and yield `status` instead.
    Keep { status: i32 },
}

/// Where the engine stands.
pub enum Step {
    /// Launch `cmd` on `streams`.
    Run { cmd: Command, streams: StreamSet, mode: Mode },
    /// Hand a completion to the frame on top.
    Deliver(Completion),
    /// Waiting for the id of the process just started.
    AwaitSpawn,
    /// Waiting for the exit status of a process.
    AwaitExit,
    /// Waiting for a file to be opened for `cmd`: for its input, or its output.
    AwaitOpen { input: bool, cmd: Command, streams: StreamSet, mode: Mode },
    /// Waiting for a pipe to join `first` to `second`.
    AwaitPipe { first: Command, second: Command, streams: StreamSet },
    /// Waiting for a descriptor to close, then delivering the completion.
    AwaitCloseThenDeliver(Completion),
    /// Waiting for a descriptor to close, then launching `cmd`.
    AwaitCloseThenRun { cmd: Command, streams: StreamSet, mode: Mode },
    /// The whole tree completed with this status.
    Finished(i32),
}

/// What the engine asks its driver to do.
pub enum Action {
    /// Start the program `args` on `streams`; answered by `Spawned`.
    Spawn { args: Vec<String>, streams: StreamSet, attached: bool },
    /// Start a copy of the interpreter running `cmd` on `streams`; answered by `Spawned`.
    Subshell { cmd: Command, streams: StreamSet, attached: bool },
    /// Open `path` for reading; answered by `Opened` or `Failed`.
    OpenInput { path: String },
    /// Open `path` for writing, created if missing, appending or truncating;
    /// answered by `Opened` or `Failed`.
    OpenOutput { path: String, append: bool },
    /// Create a pipe; answered by `PipeMade` or `Failed`.
    MakePipe,
    /// Close `fd`; answered by `Closed`.
    Close { fd: i32 },
    /// Wait for process `pid` to exit; answered by `Exited`.
    Wait { pid: i32 },
    /// The whole tree completed with `status`.
    Finish { status: i32 },
}

/// What the driver reports back after performing an action.
#[derive(Debug, Clone, Copy, PartialEq, Eq, Structural)]
pub enum Event {
    Spawned(i32),
    Exited(i32),
    Opened(i32),
    PipeMade(i32, i32),
    Closed,
    Failed,
}

/// Whether a status lets the second operand of `op` run.
pub open spec fn proceeds(op: BinaryOp, status: i32) -> bool {
    match op {
        BinaryOp::LogAnd => status == 0,
        BinaryOp::LogOr => status != 0,
        _ => true,
    }
}

pub open spec fn size(c: Command) -> nat
    decreases c,
{
    match c {
        Command::BinaryExpr(b) => 1 + size(*b.first) + size(*b.second),
        Command::FileInput(f) => 1 + size(*f.dst),
        Command::FileOutput(f) => 1 + size(*f.src),
        _ => 1,
    }
}

pub open spec fn frame_weight(f: Frame) -> nat {
    match f {
        Frame::Then { second, .. } => 3 * size(second) + 2,
        Frame::AfterFork { second, .. } => 3 * size(second) + 2,
        Frame::AfterPipeLeft { second, .. } => 3 * size(second) + 2,
        _ => 1,
    }
}

pub open spec fn frames_weight(fs: Seq<Frame>) -> nat
    decreases fs.len(),
{
    if fs.len() == 0 {
        0
    } else {
        frames_weight(fs.drop_last()) + frame_weight(fs.last())
    }
}

/// A measure that every internal move of the engine decreases.
pub open spec fn weight(fs: Seq<Frame>, s: Step) -> nat {
    frames_weight(fs) + match s {
        Step::Run { cmd, .. } => 3 * size(cmd) + 1,
        _ => 0,
    }
}

/// Whether the engine can move on from `s` without hearing from its driver.
pub open spec fn internal(s: Step) -> bool {
    s is Run || s is Deliver
}

/// The next status that a frame needs before it can go on.
pub open spec fn needs_status(f: Frame) -> bool {
    f is Then || f is Reap || f is Keep
}

/// One internal move: the new frames, the new step, and the action that the
/// move asks for, if any.
pub open spec fn micro(fs: Seq<Frame>, s: Step) -> (Seq<Frame>, Step, Option<Action>) {
    match s {
        Step::Run { cmd, streams, mode } => match cmd {
            Command::Nil => (fs, Step::Deliver(Completion::Status(0)), None),
            Command::Single(sc) => (
                fs,
                Step::AwaitSpawn,
                Some(Action::Spawn { args: sc.args, streams, attached: !(mode is Background) }),
            ),
            Command::FileInput(f) => (
                fs,
                Step::AwaitOpen { input: true, cmd: *f.dst, streams, mode },
                Some(Action::OpenInput { path: f.src }),
            ),
            Command::FileOutput(f) => (
                fs,
                Step::AwaitOpen { input: false, cmd: *f.src, streams, mode },
                Some(Action::OpenOutput { path: f.dst, append: f.append }),
            ),
            Command::BinaryExpr(b) => if !(mode is Foreground) {
                (
                    fs,
                    Step::AwaitSpawn,
                    Some(Action::Subshell { cmd, streams, attached: !(mode is Background) }),
                )
            } else {
                match b.op {
                    BinaryOp::Pipe => (
                        fs,
                        Step::AwaitPipe { first: *b.first, second: *b.second, streams },
                        Some(Action::MakePipe),
                    ),
                    BinaryOp::Fork => (
                        fs.push(Frame::AfterFork { second: *b.second, streams }),
                        Step::Run { cmd: *b.first, streams, mode: Mode::Background },
                        None,
                    ),
                    op => (
                        fs.push(Frame::Then { op, second: *b.second, streams }),
                        Step::Run { cmd: *b.first, streams, mode: Mode::Foreground },
                        None,
                    ),
                }
            },
        },
        Step::Deliver(c) => if fs.len() == 0 {
            match c {
                Completion::Status(st) => (fs, Step::Finished(st), Some(Action::Finish { status: st })),
                Completion::Running(p) => (fs, Step::AwaitExit, Some(Action::Wait { pid: p })),
            }
        } else if needs_status(fs.last()) && c is Running {
            (fs, Step::AwaitExit, Some(Action::Wait { pid: c->Running_0 }))
        } else {
            let rest = fs.drop_last();
            match fs.last() {
                Frame::Then { op, second, streams } => if proceeds(op, c->Status_0) {
                    (rest, Step::Run { cmd: second, streams, mode: Mode::Foreground }, None)
                } else {
                    (rest, Step::Deliver(c), None)
                },
                Frame::AfterFork { second, streams } => (
                    rest,
                    Step::Run { cmd: second, streams, mode: Mode::Foreground },
                    None,
                ),
                Frame::AfterPipeLeft { second, streams, read, write } => (
                    rest.push(Frame::Reap { left: c }).push(Frame::Release { fd: read }),
                    Step::AwaitCloseThenRun { cmd: second, streams, mode: Mode::Foreground },
                    Some(Action::Close { fd: write }),
                ),
                Frame::Release { fd } => (
                    rest,
                    Step::AwaitCloseThenDeliver(c),
                    Some(Action::Close { fd }),
                ),
                Frame::Reap { left } => match left {
                    Completion::Running(p) => (
                        rest.push(Frame::Keep { status: c->Status_0 }),
                        Step::AwaitExit,
                        Some(Action::Wait { pid: p }),
                    ),
                    Completion::Status(_) => (rest, Step::Deliver(c), None),
                },
                Frame::Keep { status } => (
                    rest,
                    Step::Deliver(Completion::Status(status)),
                    None,
                ),
            }
        },
        _ => (fs, s, None),
    }
}

/// Moves on from an internal step until an action is asked for: the frames,
/// the step and the action at that point.
pub open spec fn advance(fs: Seq<Frame>, s: Step) -> (Seq<Frame>, Step, Action)
    decreases weight(fs, s),
    when internal(s)
    via advance_decreases
{
    let (fs2, s2, a) = micro(fs, s);
    match a {
        Some(a) => (fs2, s2, a),
        None => advance(fs2, s2),
    }
}

proof fn lemma_frames_weight_push(fs: Seq<Frame>, f: Frame)
    ensures
        frames_weight(fs.push(f)) == frames_weight(fs) + frame_weight(f),
{
    assert(fs.push(f).drop_last() =~= fs);
}

/// Every internal move that asks for no action leaves an internal step and a smaller weight.
proof fn lemma_micro_decreases(fs: Seq<Frame>, s: Step)
    requires
        internal(s),
        micro(fs, s).2 is None,
    ensures
        internal(micro(fs, s).1),
        weight(micro(fs, s).0, micro(fs, s).1) < weight(fs, s),
{
    match s {
        Step::Run { cmd, streams, mode } => {
            if let Command::BinaryExpr(b) = cmd {
                if b.op is Fork {
                    lemma_frames_weight_push(fs, Frame::AfterFork { second: *b.second, streams });
                } else {
                    lemma_frames_weight_push(fs, Frame::Then { op: b.op, second: *b.second, streams });
                }
            }
        },
        _ => {},
    }
}

#[via_fn]
proof fn advance_decreases(fs: Seq<Frame>, s: Step) {
    if internal(s) && micro(fs, s).2 is None {
        lemma_micro_decreases(fs, s);
    }
}

/// Whether `ev` answers the action that left the engine at `s`.
pub open spec fn accepts_event(s: Step, ev: Event) -> bool {
    match s {
        Step::AwaitSpawn => ev is Spawned,
        Step::AwaitExit => ev is Exited,
        Step::AwaitOpen { .. } => ev is Opened || ev is Failed,
        Step::AwaitPipe { .. } => ev is PipeMade || ev is Failed,
        Step::AwaitCloseThenDeliver(_) => ev is Closed,
        Step::AwaitCloseThenRun { .. } => ev is Closed,
        _ => false,
    }
}

/// The frames and the step after the driver answers with `ev`.
pub open spec fn on_event(fs: Seq<Frame>, s: Step, ev: Event) -> (Seq<Frame>, Step) {
    match s {
        Step::AwaitSpawn => (fs, Step::Deliver(Completion::Running(ev->Spawned_0))),
        Step::AwaitExit => (fs, Step::Deliver(Completion::Status(ev->Exited_0))),
        Step::AwaitOpen { input, cmd, streams, mode } => match ev {
            Event::Opened(fd) => (
                fs.push(Frame::Release { fd }),
                Step::Run {
                    cmd,
                    streams: if input {
                        streams.with_input_spec(fd)
                    } else {
                        streams.with_output_spec(fd)
                    },
                    mode,
                },
            ),
            _ => (fs, Step::Deliver(Completion::Status(RESOURCE_FAILURE))),
        },
        Step::AwaitPipe { first, second, streams } => match ev {
            Event::PipeMade(read, write) => (
                fs.push(
                    Frame::AfterPipeLeft {
                        second,
                        streams: streams.with_input_spec(read),
                        read,
                        write,
                    },
                ),
                Step::Run { cmd: first, streams: streams.with_output_spec(write), mode: Mode::Piped },
            ),
            _ => (fs, Step::Deliver(Completion::Status(RESOURCE_FAILURE))),
        },
        Step::AwaitCloseThenDeliver(c) => (fs, Step::Deliver(c)),
        Step::AwaitCloseThenRun { cmd, streams, mode } => (fs, Step::Run { cmd, streams, mode }),
        _ => (fs, s),
    }
}

pub open spec fn joined(op: BinaryOp, a: Command, b: Command) -> Command {
    Command::BinaryExpr(crate::ast::BinaryExpr { op, first: Box::new(a), second: Box::new(b) })
}

/// `a ; b` runs `a` first and keeps `b` aside; while `a` is still a running
/// process the engine waits for it with `b` untouched; only `a`'s exit status
/// lets `b` start.
pub proof fn lemma_sequence_waits(fs: Seq<Frame>, a: Command, b: Command, ss: StreamSet, pid: i32, status: i32)
    ensures
        advance(fs, Step::Run { cmd: joined(BinaryOp::Sequence, a, b), streams: ss, mode: Mode::Foreground })
            == advance(
            fs.push(Frame::Then { op: BinaryOp::Sequence, second: b, streams: ss }),
            Step::Run { cmd: a, streams: ss, mode: Mode::Foreground },
        ),
        advance(
            fs.push(Frame::Then { op: BinaryOp::Sequence, second: b, streams: ss }),
            Step::Deliver(Completion::Running(pid)),
        ) == (
            fs.push(Frame::Then { op: BinaryOp::Sequence, second: b, streams: ss }),
            Step::AwaitExit,
            Action::Wait { pid },
        ),
        advance(
            fs.push(Frame::Then { op: BinaryOp::Sequence, second: b, streams: ss }),
            Step::Deliver(Completion::Status(status)),
        ) == advance(fs, Step::Run { cmd: b, streams: ss, mode: Mode::Foreground }),
{
    assert(fs.push(Frame::Then { op: BinaryOp::Sequence, second: b, streams: ss }).drop_last() =~= fs);
}

/// `a && b` never launches `b` once `a` has failed, and `a || b` never
/// launches `b` once `a` has succeeded: the engine goes on as if `b` were
/// not there, with `a`'s status.
pub proof fn lemma_short_circuit(fs: Seq<Frame>, b: Command, ss: StreamSet, status: i32)
    ensures
        status != 0 ==> advance(
            fs.push(Frame::Then { op: BinaryOp::LogAnd, second: b, streams: ss }),
            Step::Deliver(Completion::Status(status)),
        ) == advance(fs, Step::Deliver(Completion::Status(status))),
        status == 0 ==> advance(
            fs.push(Frame::Then { op: BinaryOp::LogOr, second: b, streams: ss }),
            Step::Deliver(Completion::Status(status)),
        ) == advance(fs, Step::Deliver(Completion::Status(status))),
        status == 0 ==> advance(
            fs.push(Frame::Then { op: BinaryOp::LogAnd, second: b, streams: ss }),
            Step::Deliver(Completion::Status(status)),
        ) == advance(fs, Step::Run { cmd: b, streams: ss, mode: Mode::Foreground }),
        status != 0 ==> advance(
            fs.push(Frame::Then { op: BinaryOp::LogOr, second: b, streams: ss }),
            Step::Deliver(Completion::Status(status)),
        ) == advance(fs, Step::Run { cmd: b, streams: ss, mode: Mode::Foreground }),
{
    assert(fs.push(Frame::Then { op: BinaryOp::LogAnd, second: b, streams: ss }).drop_last() =~= fs);
    assert(fs.push(Frame::Then { op: BinaryOp::LogOr, second: b, streams: ss }).drop_last() =~= fs);
}

/// `a && b` and `a || b` run `a` first with `b` kept aside.
pub proof fn lemma_logical_runs_first(fs: Seq<Frame>, op: BinaryOp, a: Command, b: Command, ss: StreamSet)
    requires
        op is LogAnd || op is LogOr,
    ensures
        advance(fs, Step::Run { cmd: joined(op, a, b), streams: ss, mode: Mode::Foreground })
            == advance(
            fs.push(Frame::Then { op, second: b, streams: ss }),
            Step::Run { cmd: a, streams: ss, mode: Mode::Foreground },
        ),
{
}

/// `a & b` launches `a` in the background and then runs `b` whatever `a`
/// hands back, without ever waiting for `a`; a program launched in the
/// background is detached.
pub proof fn lemma_fork_does_not_wait(
    fs: Seq<Frame>,
    a: Command,
    b: Command,
    ss: StreamSet,
    c: Completion,
    args: Vec<String>,
)
    ensures
        advance(fs, Step::Run { cmd: joined(BinaryOp::Fork, a, b), streams: ss, mode: Mode::Foreground })
            == advance(
            fs.push(Frame::AfterFork { second: b, streams: ss }),
            Step::Run { cmd: a, streams: ss, mode: Mode::Background },
        ),
        advance(fs.push(Frame::AfterFork { second: b, streams: ss }), Step::Deliver(c))
            == advance(fs, Step::Run { cmd: b, streams: ss, mode: Mode::Foreground }),
        advance(
            fs,
            Step::Run {
                cmd: Command::Single(crate::ast::SingleCommand { args }),
                streams: ss,
                mode: Mode::Background,
            },
        ) == (fs, Step::AwaitSpawn, Action::Spawn { args, streams: ss, attached: false }),
{
    assert(fs.push(Frame::AfterFork { second: b, streams: ss }).drop_last() =~= fs);
}

/// `a | b` asks for a pipe first; with its ends `read` and `write`, `a` is
/// launched without waiting and writes into the pipe; once `a` is launched
/// the engine closes its own copy of `write` before `b` starts reading from
/// `read`, and after `b` it closes `read` and waits for `a` too.
pub proof fn lemma_pipe_wiring(
    fs: Seq<Frame>,
    a: Command,
    b: Command,
    ss: StreamSet,
    read: i32,
    write: i32,
    c: Completion,
)
    ensures
        advance(fs, Step::Run { cmd: joined(BinaryOp::Pipe, a, b), streams: ss, mode: Mode::Foreground })
            == (fs, Step::AwaitPipe { first: a, second: b, streams: ss }, Action::MakePipe),
        on_event(fs, Step::AwaitPipe { first: a, second: b, streams: ss }, Event::PipeMade(read, write))
            == (
            fs.push(
                Frame::AfterPipeLeft { second: b, streams: ss.with_input_spec(read), read, write },
            ),
            Step::Run { cmd: a, streams: ss.with_output_spec(write), mode: Mode::Piped },
        ),
        advance(
            fs.push(
                Frame::AfterPipeLeft { second: b, streams: ss.with_input_spec(read), read, write },
            ),
            Step::Deliver(c),
        ) == (
            fs.push(Frame::Reap { left: c }).push(Frame::Release { fd: read }),
            Step::AwaitCloseThenRun { cmd: b, streams: ss.with_input_spec(read), mode: Mode::Foreground },
            Action::Close { fd: write },
        ),
{
    let f = Frame::AfterPipeLeft { second: b, streams: ss.with_input_spec(read), read, write };
    assert(fs.push(f).drop_last() =~= fs);
}

/// Performs one internal move.
fn micro_step(frames: &mut Vec<Frame>, s: Step) -> (r: (Step, Option<Action>))
    requires
        internal(s),
    ensures
        (final(frames)@, r.0, r.1) == micro(old(frames)@, s),
{
    match s {
        Step::Run { cmd, streams, mode } => match cmd {
            Command::Nil => (Step::Deliver(Completion::Status(0)), None),
            Command::Single(sc) => (
                Step::AwaitSpawn,
                Some(Action::Spawn { args: sc.args, streams, attached: mode != Mode::Background }),
            ),
            Command::FileInput(f) => (
                Step::AwaitOpen { input: true, cmd: *f.dst, streams, mode },
                Some(Action::OpenInput { path: f.src }),
            ),
            Command::FileOutput(f) => (
                Step::AwaitOpen { input: false, cmd: *f.src, streams, mode },
                Some(Action::OpenOutput { path: f.dst, append: f.append }),
            ),
            Command::BinaryExpr(b) => if mode != Mode::Foreground {
                (
                    Step::AwaitSpawn,
                    Some(
                        Action::Subshell {
                            cmd: Command::BinaryExpr(b),
                            streams,
                            attached: mode != Mode::Background,
                        },
                    ),
                )
            } else {
                match b.op {
                    BinaryOp::Pipe => (
                        Step::AwaitPipe { first: *b.first, second: *b.second, streams },
                        Some(Action::MakePipe),
                    ),
                    BinaryOp::Fork => {
                        frames.push(Frame::AfterFork { second: *b.second, streams });
                        (Step::Run { cmd: *b.first, streams, mode: Mode::Background }, None)
                    },
                    op => {
                        frames.push(Frame::Then { op, second: *b.second, streams });
                        (Step::Run { cmd: *b.first, streams, mode: Mode::Foreground }, None)
                    },
                }
            },
        },
        Step::Deliver(c) => {
            let waiting = match frames.last() {
                None => true,
                Some(Frame::Then { .. }) => true,
                Some(Frame::Reap { .. }) => true,
                Some(Frame::Keep { .. }) => true,
                Some(_) => false,
            };
            if waiting {
                if let Completion::Running(p) = c {
                    return (Step::AwaitExit, Some(Action::Wait { pid: p }));
                }
            }
            let ghost old_frames = frames@;
            match frames.pop() {
                None => match c {
                    Completion::Status(st) => (Step::Finished(st), Some(Action::Finish { status: st })),
                    Completion::Running(p) => (Step::AwaitExit, Some(Action::Wait { pid: p })),
                },
                Some(frame) => {
                    assert(frames@ == old_frames.drop_last());
                    match frame {
                        Frame::Then { op, second, streams } => {
                            let go = match c {
                                Completion::Status(st) => match op {
                                    BinaryOp::LogAnd => st == 0,
                                    BinaryOp::LogOr => st != 0,
                                    _ => true,
                                },
                                Completion::Running(_) => true,
                            };
                            if go {
                                (Step::Run { cmd: second, streams, mode: Mode::Foreground }, None)
                            } else {
                                (Step::Deliver(c), None)
                            }
                        },
                        Frame::AfterFork { second, streams } => (
                            Step::Run { cmd: second, streams, mode: Mode::Foreground },
                            None,
                        ),
                        Frame::AfterPipeLeft { second, streams, read, write } => {
                            frames.push(Frame::Reap { left: c });
                            frames.push(Frame::Release { fd: read });
                            (
                                Step::AwaitCloseThenRun { cmd: second, streams, mode: Mode::Foreground },
                                Some(Action::Close { fd: write }),
                            )
                        },
                        Frame::Release { fd } => (Step::AwaitCloseThenDeliver(c), Some(Action::Close { fd })),
                        Frame::Reap { left } => match left {
                            Completion::Running(p) => {
                                let st = match c {
                                    Completion::Status(st) => st,
                                    Completion::Running(q) => q,
                                };
                                frames.push(Frame::Keep { status: st });
                                (Step::AwaitExit, Some(Action::Wait { pid: p }))
                            },
                            Completion::Status(_) => (Step::Deliver(c), None),
                        },
                        Frame::Keep { status } => (Step::Deliver(Completion::Status(status)), None),
                    }
                },
            }
        },
        _ => (s, None),
    }
}

/// Moves on from an internal step until an action is asked for.
fn run_until_action(start_frames: Vec<Frame>, start: Step) -> (r: (Vec<Frame>, Step, Action))
    requires
        internal(start),
    ensures
        (r.0@, r.1, r.2) == advance(start_frames@, start),
{
    let ghost goal = advance(start_frames@, start);
    let mut frames = start_frames;
    let mut s = start;
    loop
        invariant
            internal(s),
            internal(start),
            goal == advance(start_frames@, start),
            advance(frames@, s) == goal,
        decreases weight(frames@, s),
    {
        let ghost before = (frames@, s);
        let (next, action) = micro_step(&mut frames, s);
        proof {
            if action is None {
                lemma_micro_decreases(before.0, before.1);
            }
        }
        match action {
            Some(a) => {
                assert(advance(before.0, before.1) == (frames@, next, a));
                return (frames, next, a);
            },
            None => {
                assert(advance(before.0, before.1) == advance(frames@, next));
                s = next;
            },
        }
    }
}

/// An execution in progress: the frames of pending work and where it stands.
pub struct Engine {
    pub frames: Vec<Frame>,
    pub step: Step,
}

impl Engine {
    /// Starts executing `cmd` on `streams`: the engine and its first action.
    pub fn begin(cmd: Command, streams: StreamSet) -> (r: (Engine, Action))
        ensures
            (r.0.frames@, r.0.step, r.1) == advance(
                Seq::empty(),
                Step::Run { cmd, streams, mode: Mode::Foreground },
            ),
    {
        let (frames, step, action) = run_until_action(
            Vec::new(),
            Step::Run { cmd, streams, mode: Mode::Foreground },
        );
        (Engine { frames, step }, action)
    }

    /// Whether `ev` answers the action that the engine asked for last.
    pub fn accepts(&self, ev: Event) -> (r: bool)
        ensures
            r == accepts_event(self.step, ev),
    {
        match self.step {
            Step::AwaitSpawn => matches!(ev, Event::Spawned(_)),
            Step::AwaitExit => matches!(ev, Event::Exited(_)),
            Step::AwaitOpen { .. } => matches!(ev, Event::Opened(_) | Event::Failed),
            Step::AwaitPipe { .. } => matches!(ev, Event::PipeMade(_, _) | Event::Failed),
            Step::AwaitCloseThenDeliver(_) => matches!(ev, Event::Closed),
            Step::AwaitCloseThenRun { .. } => matches!(ev, Event::Closed),
            _ => false,
        }
    }

    /// Takes the driver's answer `ev` and moves on to the next action.
    pub fn resume(self, ev: Event) -> (r: (Engine, Action))
        requires
            accepts_event(self.step, ev),
        ensures
            ({
                let (fs, s) = on_event(self.frames@, self.step, ev);
                (r.0.frames@, r.0.step, r.1) == advance(fs, s)
            }),
    {
        let Engine { mut frames, step } = self;
        let next = match step {
            Step::AwaitSpawn => match ev {
                Event::Spawned(pid) => Step::Deliver(Completion::Running(pid)),
                _ => Step::Deliver(Completion::Status(RESOURCE_FAILURE)),
            },
            Step::AwaitExit => match ev {
                Event::Exited(st) => Step::Deliver(Completion::Status(st)),
                _ => Step::Deliver(Completion::Status(RESOURCE_FAILURE)),
            },
            Step::AwaitOpen { input, cmd, streams, mode } => match ev {
                Event::Opened(fd) => {
                    frames.push(Frame::Release { fd });
                    let streams = if input {
                        streams.with_input(fd)
                    } else {
                        streams.with_output(fd)
                    };
                    Step::Run { cmd, streams, mode }
                },
                _ => Step::Deliver(Completion::Status(RESOURCE_FAILURE)),
            },
            Step::AwaitPipe { first, second, streams } => match ev {
                Event::PipeMade(read, write) => {
                    let (left, right) = streams.pipe(read, write);
                    frames.push(Frame::AfterPipeLeft { second, streams: right, read, write });
                    Step::Run { cmd: first, streams: left, mode: Mode::Piped }
                },
                _ => Step::Deliver(Completion::Status(RESOURCE_FAILURE)),
            },
            Step::AwaitCloseThenDeliver(c) => Step::Deliver(c),
            Step::AwaitCloseThenRun { cmd, streams, mode } => Step::Run { cmd, streams, mode },
            _ => Step::Deliver(Completion::Status(RESOURCE_FAILURE)),
        };
        let (frames, step, action) = run_until_action(frames, next);
        (Engine { frames, step }, action)
    }
}

} // verus!
