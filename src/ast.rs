use vstd::prelude::*;
use crate::tokens::{Tok, Token};

verus! {

/// One program invocation: `args[0]` names the program, the rest are its arguments.
#[derive(Debug, Clone, Eq, PartialEq)]
pub struct SingleCommand {
    pub args: Vec<String>,
}

/// The operators that join two commands.
#[derive(Debug, Clone, Copy, Eq, PartialEq, Structural)]
pub enum BinaryOp {
    Sequence,
    Fork,
    Pipe,
    LogAnd,
    LogOr,
}

/// An operator node that owns its two operands.
#[derive(Debug, Eq, PartialEq)]
pub struct BinaryExpr {
    pub op: BinaryOp,
    pub first: Box<Command>,
    pub second: Box<Command>,
}

/// `dst` with its standard input read from the file `src`.
#[derive(Debug, Eq, PartialEq)]
pub struct FileInput {
    pub src: String,
    pub dst: Box<Command>,
}

/// `src` with its standard output written to the file `dst`.
#[derive(Debug, Eq, PartialEq)]
pub struct FileOutput {
    pub src: Box<Command>,
    pub dst: String,
    pub append: bool,
}

/// A command tree.
#[derive(Debug, Eq, PartialEq)]
pub enum Command {
    Nil,
    Single(SingleCommand),
    BinaryExpr(BinaryExpr),
    FileInput(FileInput),
    FileOutput(FileOutput),
}

/// The mathematical value of a command tree: strings become character sequences.
pub enum Cmd {
    Nil,
    Single(Seq<Seq<char>>),
    Binary(BinaryOp, Box<Cmd>, Box<Cmd>),
    Input(Seq<char>, Box<Cmd>),
    Output(Box<Cmd>, Seq<char>, bool),
}

pub open spec fn strings(v: Seq<String>) -> Seq<Seq<char>> {
    v.map_values(|s: String| s@)
}

pub open spec fn cmd_of(c: Command) -> Cmd
    decreases c,
{
    match c {
        Command::Nil => Cmd::Nil,
        Command::Single(s) => Cmd::Single(strings(s.args@)),
        Command::BinaryExpr(b) => Cmd::Binary(
            b.op,
            Box::new(cmd_of(*b.first)),
            Box::new(cmd_of(*b.second)),
        ),
        Command::FileInput(f) => Cmd::Input(f.src@, Box::new(cmd_of(*f.dst))),
        Command::FileOutput(f) => Cmd::Output(Box::new(cmd_of(*f.src)), f.dst@, f.append),
    }
}

/// Every invocation in the tree has at least one argument, its program.
pub open spec fn well_formed(c: Cmd) -> bool
    decreases c,
{
    match c {
        Cmd::Nil => true,
        Cmd::Single(args) => args.len() > 0,
        Cmd::Binary(_, a, b) => well_formed(*a) && well_formed(*b),
        Cmd::Input(_, d) => well_formed(*d),
        Cmd::Output(src, _, _) => well_formed(*src),
    }
}

impl View for Command {
    type V = Cmd;

    open spec fn view(&self) -> Cmd {
        cmd_of(*self)
    }
}

/// The operator that a token stands for, if it stands for one.
pub open spec fn op_of(t: Tok) -> Option<BinaryOp> {
    match t {
        Tok::LogAnd => Some(BinaryOp::LogAnd),
        Tok::LogOr => Some(BinaryOp::LogOr),
        Tok::Pipe => Some(BinaryOp::Pipe),
        Tok::Semicolon => Some(BinaryOp::Sequence),
        Tok::Fork => Some(BinaryOp::Fork),
        _ => None,
    }
}

impl BinaryOp {
    /// The operator that `token` stands for: `None` for words, parentheses,
    /// redirections and the other non-operator tokens.
    pub fn from(token: &Token) -> (r: Option<BinaryOp>)
        ensures
            r == op_of(token@),
    {
        match token {
            Token::LogAnd => Some(BinaryOp::LogAnd),
            Token::LogOr => Some(BinaryOp::LogOr),
            Token::Pipe => Some(BinaryOp::Pipe),
            Token::Semicolon => Some(BinaryOp::Sequence),
            Token::Fork => Some(BinaryOp::Fork),
            _ => None,
        }
    }
}

/// A single invocation of `args`.
pub fn single(args: Vec<String>) -> (r: Command)
    ensures
        r@ == Cmd::Single(strings(args@)),
        r == Command::Single(SingleCommand { args }),
{
    Command::Single(SingleCommand { args })
}

/// `a op b`.
pub fn binary(op: BinaryOp, a: Command, b: Command) -> (r: Command)
    ensures
        r@ == Cmd::Binary(op, Box::new(a@), Box::new(b@)),
        r == Command::BinaryExpr(BinaryExpr { op, first: Box::new(a), second: Box::new(b) }),
{
    Command::BinaryExpr(BinaryExpr { op, first: Box::new(a), second: Box::new(b) })
}

/// `a ; b`.
pub fn sequential(a: Command, b: Command) -> (r: Command)
    ensures
        r@ == Cmd::Binary(BinaryOp::Sequence, Box::new(a@), Box::new(b@)),
{
    binary(BinaryOp::Sequence, a, b)
}

/// `a & b`.
pub fn fork(a: Command, b: Command) -> (r: Command)
    ensures
        r@ == Cmd::Binary(BinaryOp::Fork, Box::new(a@), Box::new(b@)),
{
    binary(BinaryOp::Fork, a, b)
}

/// `a && b`.
pub fn log_and(a: Command, b: Command) -> (r: Command)
    ensures
        r@ == Cmd::Binary(BinaryOp::LogAnd, Box::new(a@), Box::new(b@)),
{
    binary(BinaryOp::LogAnd, a, b)
}

/// `a || b`.
pub fn log_or(a: Command, b: Command) -> (r: Command)
    ensures
        r@ == Cmd::Binary(BinaryOp::LogOr, Box::new(a@), Box::new(b@)),
{
    binary(BinaryOp::LogOr, a, b)
}

/// `a | b`.
pub fn pipe(a: Command, b: Command) -> (r: Command)
    ensures
        r@ == Cmd::Binary(BinaryOp::Pipe, Box::new(a@), Box::new(b@)),
{
    binary(BinaryOp::Pipe, a, b)
}

} // verus!
