use vstd::prelude::*;
use crate::ast::{binary, op_of, well_formed, BinaryOp, Cmd, Command, SingleCommand};
use crate::tokens::{toks, Tok, Token};

verus! {

/// A syntax error in a token sequence.
#[derive(Debug, Clone, Copy, Eq, PartialEq, Structural)]
pub enum ParserError {
    /// A closing parenthesis with no open scope.
    ExtraRParen,
    /// The input ended with an open scope.
    MissingRParen,
    /// A token that the grammar has no place for (a glob, a space or a redirection).
    UnexpectedToken,
    /// A parenthesized group directly beside a word or another group, with no operator between.
    AdjacentCommands,
}

impl ParserError {
    /// A description of the error for people.
    pub fn message(&self) -> (r: &'static str)
        ensures
            *self == ParserError::ExtraRParen ==> r@ == "there was an extra right parenthesis"@,
            *self == ParserError::MissingRParen ==> r@ == "there was a missing right parenthesis"@,
            *self == ParserError::UnexpectedToken ==> r@ == "a token has no place in a command here"@,
            *self == ParserError::AdjacentCommands ==> r@ == "a parenthesized group stands beside another command"@,
    {
        match self {
            ParserError::ExtraRParen => "there was an extra right parenthesis",
            ParserError::MissingRParen => "there was a missing right parenthesis",
            ParserError::UnexpectedToken => "a token has no place in a command here",
            ParserError::AdjacentCommands => "a parenthesized group stands beside another command",
        }
    }
}

/// A symbol on the parser's stack.
enum Symbol {
    /// A word waiting to become an argument.
    Text(String),
    /// An operator with its left operand, waiting for its right operand.
    BinaryOp(Command, BinaryOp),
    /// A finished command.
    Command(Command),
    /// The start of a parenthesized scope.
    LParen,
}

/// The mathematical value of a stack symbol.
pub enum Sym {
    Word(Seq<char>),
    Pending(Cmd, BinaryOp),
    Done(Cmd),
    Open,
}

spec fn sym_of(s: Symbol) -> Sym {
    match s {
        Symbol::Text(t) => Sym::Word(t@),
        Symbol::BinaryOp(c, op) => Sym::Pending(c@, op),
        Symbol::Command(c) => Sym::Done(c@),
        Symbol::LParen => Sym::Open,
    }
}

spec fn syms(st: Seq<Symbol>) -> Seq<Sym> {
    st.map_values(|s: Symbol| sym_of(s))
}

/// The words of the maximal run of word symbols at the top of the stack, bottom first.
pub open spec fn word_run(st: Seq<Sym>) -> Seq<Seq<char>>
    decreases st.len(),
{
    if st.len() > 0 && st.last() is Word {
        word_run(st.drop_last()).push(st.last()->Word_0)
    } else {
        Seq::empty()
    }
}

/// Folds the finished command `c` into the pending operators below it, up to
/// the nearest open scope or the bottom of the stack.
pub open spec fn settle(rest: Seq<Sym>, c: Cmd) -> Result<(Seq<Sym>, Cmd), ParserError>
    decreases rest.len(),
{
    if rest.len() == 0 {
        Ok((rest, c))
    } else {
        match rest.last() {
            Sym::Open => Ok((rest, c)),
            Sym::Pending(l, op) => settle(rest.drop_last(), Cmd::Binary(op, Box::new(l), Box::new(c))),
            _ => Err(ParserError::AdjacentCommands),
        }
    }
}

/// Reduces everything above the nearest open scope (or the bottom) to one
/// command: the remaining stack and that command.
pub open spec fn reduce_spec(st: Seq<Sym>) -> Result<(Seq<Sym>, Cmd), ParserError> {
    if st.len() == 0 {
        Ok((st, Cmd::Nil))
    } else {
        match st.last() {
            Sym::Open => Ok((st, Cmd::Nil)),
            Sym::Word(_) => {
                let w = word_run(st);
                settle(st.take(st.len() - w.len()), Cmd::Single(w))
            },
            Sym::Done(c) => settle(st.drop_last(), c),
            Sym::Pending(l, op) => settle(
                st.drop_last(),
                Cmd::Binary(op, Box::new(l), Box::new(Cmd::Nil)),
            ),
        }
    }
}

/// The stack after one more token.
pub open spec fn shift(st: Seq<Sym>, t: Tok) -> Result<Seq<Sym>, ParserError> {
    match op_of(t) {
        Some(op) => match reduce_spec(st) {
            Ok((rest, c)) => Ok(rest.push(Sym::Pending(c, op))),
            Err(e) => Err(e),
        },
        None => match t {
            Tok::Word(w) => Ok(st.push(Sym::Word(w))),
            Tok::LParen => Ok(st.push(Sym::Open)),
            Tok::RParen => match reduce_spec(st) {
                Ok((rest, c)) => if rest.len() > 0 && rest.last() is Open {
                    Ok(rest.drop_last().push(Sym::Done(c)))
                } else {
                    Err(ParserError::ExtraRParen)
                },
                Err(e) => Err(e),
            },
            _ => Err(ParserError::UnexpectedToken),
        },
    }
}

/// The stack after all of `ts`, or the first error met.
pub open spec fn shift_all(ts: Seq<Tok>) -> Result<Seq<Sym>, ParserError>
    decreases ts.len(),
{
    if ts.len() == 0 {
        Ok(Seq::empty())
    } else {
        match shift_all(ts.drop_last()) {
            Ok(st) => shift(st, ts.last()),
            Err(e) => Err(e),
        }
    }
}

/// The command that `ts` parses to.
pub open spec fn parse_spec(ts: Seq<Tok>) -> Result<Cmd, ParserError> {
    match shift_all(ts) {
        Ok(st) => match reduce_spec(st) {
            Ok((rest, c)) => if rest.len() == 0 {
                Ok(c)
            } else {
                Err(ParserError::MissingRParen)
            },
            Err(e) => Err(e),
        },
        Err(e) => Err(e),
    }
}

/// The value of a parse result.
pub open spec fn parsed(r: Result<Command, ParserError>) -> Result<Cmd, ParserError> {
    match r {
        Ok(c) => Ok(c@),
        Err(e) => Err(e),
    }
}

proof fn lemma_word_run(st: Seq<Sym>)
    ensures
        word_run(st).len() <= st.len(),
        forall|i: int|
            0 <= i < word_run(st).len() ==> st[st.len() - word_run(st).len() + i]
                == Sym::Word(#[trigger] word_run(st)[i]),
        word_run(st).len() < st.len() ==> !(st[st.len() - word_run(st).len() - 1] is Word),
    decreases st.len(),
{
    if st.len() > 0 && st.last() is Word {
        lemma_word_run(st.drop_last());
    }
}

proof fn lemma_error_persists(ts: Seq<Tok>, i: int, e: ParserError)
    requires
        0 <= i <= ts.len(),
        shift_all(ts.take(i)) == Err::<Seq<Sym>, ParserError>(e),
    ensures
        shift_all(ts) == Err::<Seq<Sym>, ParserError>(e),
    decreases ts.len() - i,
{
    if i < ts.len() {
        assert(ts.take(i + 1).drop_last() =~= ts.take(i));
        lemma_error_persists(ts, i + 1, e);
    } else {
        assert(ts.take(i) =~= ts);
    }
}

/// Whether a stack symbol stands for something other than the empty command.
pub open spec fn substantial(s: Sym) -> bool {
    match s {
        Sym::Word(_) => true,
        Sym::Pending(_, _) => true,
        Sym::Done(c) => !(c is Nil),
        Sym::Open => false,
    }
}

proof fn lemma_settle(rest: Seq<Sym>, c: Cmd)
    ensures
        settle(rest, c) matches Ok((r2, c2)) ==> {
            &&& r2.len() <= rest.len()
            &&& r2 == rest.take(r2.len() as int)
            &&& (r2.len() == 0 || r2.last() is Open)
            &&& (!(c is Nil) || r2.len() < rest.len()) ==> !(c2 is Nil)
        },
    decreases rest.len(),
{
    if rest.len() == 0 {
        assert(rest.take(0) =~= rest);
    } else {
        match rest.last() {
            Sym::Open => {
                assert(rest.take(rest.len() as int) =~= rest);
            },
            Sym::Pending(l, op) => {
                let d = rest.drop_last();
                let b = Cmd::Binary(op, Box::new(l), Box::new(c));
                lemma_settle(d, b);
                if let Ok((r2, c2)) = settle(d, b) {
                    assert(r2 =~= rest.take(r2.len() as int));
                }
            },
            _ => {},
        }
    }
}

proof fn lemma_reduce(st: Seq<Sym>)
    ensures
        reduce_spec(st) matches Ok((rest, c)) ==> {
            &&& rest.len() <= st.len()
            &&& rest == st.take(rest.len() as int)
            &&& (rest.len() == 0 || rest.last() is Open)
            &&& (exists|i: int| rest.len() <= i < st.len() && substantial(#[trigger] st[i])) ==> !(c is Nil)
        },
{
    if st.len() == 0 {
        assert(st.take(0) =~= st);
    } else {
        match st.last() {
            Sym::Open => {
                assert(st.take(st.len() as int) =~= st);
            },
            Sym::Word(_) => {
                let w = word_run(st);
                lemma_word_run(st);
                let t = st.take(st.len() - w.len());
                lemma_settle(t, Cmd::Single(w));
                if let Ok((r2, c2)) = settle(t, Cmd::Single(w)) {
                    assert(r2 =~= st.take(r2.len() as int));
                }
            },
            Sym::Done(c0) => {
                let d = st.drop_last();
                lemma_settle(d, c0);
                if let Ok((r2, c2)) = settle(d, c0) {
                    assert(r2 =~= st.take(r2.len() as int));
                    if exists|i: int| r2.len() <= i < st.len() && substantial(#[trigger] st[i]) {
                        let i = choose|i: int| r2.len() <= i < st.len() && substantial(#[trigger] st[i]);
                        if i < d.len() {
                            assert(d[i] == st[i]);
                        }
                    }
                }
            },
            Sym::Pending(l, op) => {
                let d = st.drop_last();
                let b = Cmd::Binary(op, Box::new(l), Box::new(Cmd::Nil));
                lemma_settle(d, b);
                if let Ok((r2, c2)) = settle(d, b) {
                    assert(r2 =~= st.take(r2.len() as int));
                }
            },
        }
    }
}

proof fn lemma_words_leave_substance(ts: Seq<Tok>)
    ensures
        shift_all(ts) matches Ok(st) ==> (exists|i: int| 0 <= i < ts.len() && #[trigger] ts[i] is Word)
            ==> exists|j: int| 0 <= j < st.len() && substantial(#[trigger] st[j]),
    decreases ts.len(),
{
    if ts.len() > 0 {
        let p = ts.drop_last();
        let t = ts.last();
        lemma_words_leave_substance(p);
        if let Ok(st) = shift_all(ts) {
            if exists|i: int| 0 <= i < ts.len() && #[trigger] ts[i] is Word {
                let i = choose|i: int| 0 <= i < ts.len() && #[trigger] ts[i] is Word;
                let prev = shift_all(p)->Ok_0;
                if t is Word {
                    assert(substantial(st[st.len() - 1]));
                } else {
                    assert(p[i] == ts[i]);
                    let j = choose|j: int| 0 <= j < prev.len() && substantial(#[trigger] prev[j]);
                    if op_of(t) is Some {
                        assert(substantial(st[st.len() - 1]));
                    } else if t is LParen {
                        assert(st[j] == prev[j]);
                    } else {
                        lemma_reduce(prev);
                        let (rest, c) = reduce_spec(prev)->Ok_0;
                        if j < rest.len() - 1 {
                            assert(st[j] == rest[j]);
                            assert(rest[j] == prev[j]);
                        } else if j == rest.len() - 1 {
                            assert(rest[j] == prev[j]);
                        } else {
                            assert(substantial(st[st.len() - 1]));
                        }
                    }
                }
            }
        }
    }
}

/// A successful parse yields the empty command only when the tokens hold no word.
pub proof fn lemma_parse_nil_only_without_words(ts: Seq<Tok>)
    requires
        parse_spec(ts) == Ok::<Cmd, ParserError>(Cmd::Nil),
    ensures
        forall|i: int| 0 <= i < ts.len() ==> !(#[trigger] ts[i] is Word),
{
    lemma_words_leave_substance(ts);
    let st = shift_all(ts)->Ok_0;
    lemma_reduce(st);
    if exists|i: int| 0 <= i < ts.len() && #[trigger] ts[i] is Word {
        let j = choose|j: int| 0 <= j < st.len() && substantial(#[trigger] st[j]);
        assert(0 <= j < st.len() && substantial(st[j]));
    }
}

/// Every command held on the stack is well formed.
pub open spec fn stack_well_formed(st: Seq<Sym>) -> bool {
    forall|i: int|
        0 <= i < st.len() ==> match #[trigger] st[i] {
            Sym::Pending(c, _) => well_formed(c),
            Sym::Done(c) => well_formed(c),
            _ => true,
        }
}

proof fn lemma_settle_well_formed(rest: Seq<Sym>, c: Cmd)
    requires
        stack_well_formed(rest),
        well_formed(c),
    ensures
        settle(rest, c) matches Ok((r2, c2)) ==> stack_well_formed(r2) && well_formed(c2),
    decreases rest.len(),
{
    lemma_settle(rest, c);
    if rest.len() > 0 {
        if let Sym::Pending(l, op) = rest.last() {
            let d = rest.drop_last();
            assert(well_formed(l)) by {
                assert(rest[rest.len() - 1] == rest.last());
            }
            assert(stack_well_formed(d)) by {
                assert forall|i: int| 0 <= i < d.len() implies match #[trigger] d[i] {
                    Sym::Pending(c, _) => well_formed(c),
                    Sym::Done(c) => well_formed(c),
                    _ => true,
                } by {
                    assert(d[i] == rest[i]);
                }
            }
            lemma_settle_well_formed(d, Cmd::Binary(op, Box::new(l), Box::new(c)));
        }
    }
    if let Ok((r2, c2)) = settle(rest, c) {
        assert forall|i: int| 0 <= i < r2.len() implies match #[trigger] r2[i] {
            Sym::Pending(c, _) => well_formed(c),
            Sym::Done(c) => well_formed(c),
            _ => true,
        } by {
            assert(r2[i] == rest[i]);
        }
    }
}

proof fn lemma_reduce_well_formed(st: Seq<Sym>)
    requires
        stack_well_formed(st),
    ensures
        reduce_spec(st) matches Ok((rest, c)) ==> stack_well_formed(rest) && well_formed(c),
{
    lemma_reduce(st);
    if st.len() > 0 {
        assert(st[st.len() - 1] == st.last());
        let n = st.len();
        match st.last() {
            Sym::Open => {},
            Sym::Word(_) => {
                let w = word_run(st);
                lemma_word_run(st);
                let t = st.take(n - w.len());
                assert(stack_well_formed(t)) by {
                    assert forall|i: int| 0 <= i < t.len() implies match #[trigger] t[i] {
                        Sym::Pending(c, _) => well_formed(c),
                        Sym::Done(c) => well_formed(c),
                        _ => true,
                    } by {
                        assert(t[i] == st[i]);
                    }
                }
                assert(w.len() > 0) by {
                    assert(word_run(st) == word_run(st.drop_last()).push(st.last()->Word_0));
                }
                lemma_settle_well_formed(t, Cmd::Single(w));
            },
            Sym::Done(c0) => {
                let d = st.drop_last();
                assert(stack_well_formed(d)) by {
                    assert forall|i: int| 0 <= i < d.len() implies match #[trigger] d[i] {
                        Sym::Pending(c, _) => well_formed(c),
                        Sym::Done(c) => well_formed(c),
                        _ => true,
                    } by {
                        assert(d[i] == st[i]);
                    }
                }
                lemma_settle_well_formed(d, c0);
            },
            Sym::Pending(l, op) => {
                let d = st.drop_last();
                assert(stack_well_formed(d)) by {
                    assert forall|i: int| 0 <= i < d.len() implies match #[trigger] d[i] {
                        Sym::Pending(c, _) => well_formed(c),
                        Sym::Done(c) => well_formed(c),
                        _ => true,
                    } by {
                        assert(d[i] == st[i]);
                    }
                }
                let b = Cmd::Binary(op, Box::new(l), Box::new(Cmd::Nil));
                assert(well_formed(l)) by {
                    assert(st[n - 1] == st.last());
                }
                assert(well_formed(Cmd::Nil));
                assert(well_formed(b));
                lemma_settle_well_formed(d, b);
            },
        }
    }
}

proof fn lemma_shift_all_well_formed(ts: Seq<Tok>)
    ensures
        shift_all(ts) matches Ok(st) ==> stack_well_formed(st),
    decreases ts.len(),
{
    if ts.len() > 0 {
        let p = ts.drop_last();
        lemma_shift_all_well_formed(p);
        if let Ok(prev) = shift_all(p) {
            lemma_reduce_well_formed(prev);
            if let Ok(st) = shift_all(ts) {
                let t = ts.last();
                assert forall|i: int| 0 <= i < st.len() implies match #[trigger] st[i] {
                    Sym::Pending(c, _) => well_formed(c),
                    Sym::Done(c) => well_formed(c),
                    _ => true,
                } by {
                    if op_of(t) is None && !(t is RParen) {
                        if i < prev.len() {
                            assert(st[i] == prev[i]);
                        }
                    } else if op_of(t) is None {
                        let rest = reduce_spec(prev)->Ok_0.0;
                        if i < st.len() - 1 {
                            assert(st[i] == rest[i]);
                        }
                    } else {
                        let rest = reduce_spec(prev)->Ok_0.0;
                        if i < st.len() - 1 {
                            assert(st[i] == rest[i]);
                        }
                    }
                }
            }
        }
    }
}

/// Parsing never builds an invocation without a program: every command it
/// yields is well formed.
pub proof fn lemma_parse_well_formed(ts: Seq<Tok>)
    ensures
        parse_spec(ts) matches Ok(c) ==> well_formed(c),
{
    lemma_shift_all_well_formed(ts);
    if let Ok(st) = shift_all(ts) {
        lemma_reduce_well_formed(st);
    }
}

struct Parser<'a> {
    tokens: &'a [Token],
    stack: Vec<Symbol>,
}

impl<'a> Parser<'a> {
    fn new(tokens: &'a [Token]) -> (r: Parser<'a>)
        ensures
            r.tokens@ == tokens@,
            r.stack@.len() == 0,
    {
        Parser { tokens, stack: Vec::new() }
    }

    /// Pops the run of words at the top of the stack into one invocation,
    /// or `Nil` when there is none.
    fn reduce_single(&mut self) -> (r: Command)
        ensures
            ({
                let o = syms(old(self).stack@);
                let w = word_run(o);
                &&& syms(final(self).stack@) == o.take(o.len() - w.len())
                &&& r@ == if w.len() == 0 { Cmd::Nil } else { Cmd::Single(w) }
            }),
            final(self).tokens == old(self).tokens,
    {
        let ghost o = syms(self.stack@);
        let ghost w = word_run(o);
        let ghost n = o.len();
        proof {
            lemma_word_run(o);
        }
        let mut rev: Vec<String> = Vec::new();
        loop
            invariant
                o == syms(old(self).stack@),
                w == word_run(o),
                n == o.len(),
                self.tokens == old(self).tokens,
                rev@.len() <= w.len(),
                self.stack@.len() == n - rev@.len(),
                syms(self.stack@) == o.take(n - rev@.len()),
                forall|i: int| 0 <= i < rev@.len() ==> (#[trigger] rev@[i])@ == w[w.len() - 1 - i],
                w.len() <= n,
                forall|i: int| 0 <= i < w.len() ==> o[n - w.len() + i] == Sym::Word(#[trigger] w[i]),
                w.len() < n ==> !(o[n - w.len() - 1] is Word),
            ensures
                rev@.len() == w.len(),
                forall|i: int| 0 <= i < rev@.len() ==> (#[trigger] rev@[i])@ == w[w.len() - 1 - i],
                syms(self.stack@) == o.take(n - w.len()),
                self.tokens == old(self).tokens,
            decreases self.stack@.len(),
        {
            let is_text = match self.stack.last() {
                Some(Symbol::Text(_)) => true,
                _ => false,
            };
            if !is_text {
                proof {
                    if rev@.len() < w.len() {
                        let k = w.len() - 1 - rev@.len();
                        assert(o[n - w.len() + k] == Sym::Word(w[k]));
                        assert(syms(self.stack@)[self.stack@.len() - 1] == o[n - rev@.len() - 1]);
                    }
                }
                break;
            }
            proof {
                if rev@.len() == w.len() && w.len() < n {
                    assert(syms(self.stack@)[self.stack@.len() - 1] == o[n - w.len() - 1]);
                }
            }
            let ghost pre = self.stack@;
            proof {
                let k = w.len() - 1 - rev@.len();
                assert(syms(pre)[n - rev@.len() - 1] == o[n - w.len() + k]);
            }
            match self.stack.pop() {
                Some(Symbol::Text(s)) => {
                    rev.push(s);
                },
                _ => {},
            }
            assert(syms(self.stack@) =~= o.take(n - rev@.len()));
        }
        let mut args: Vec<String> = Vec::new();
        while rev.len() > 0
            invariant
                args@.len() + rev@.len() == w.len(),
                forall|i: int| 0 <= i < rev@.len() ==> (#[trigger] rev@[i])@ == w[w.len() - 1 - i],
                forall|i: int| 0 <= i < args@.len() ==> (#[trigger] args@[i])@ == w[i],
            decreases rev@.len(),
        {
            if let Some(s) = rev.pop() {
                args.push(s);
            }
        }
        if args.len() == 0 {
            Command::Nil
        } else {
            assert(crate::ast::strings(args@) =~= w);
            Command::Single(SingleCommand { args })
        }
    }

    /// Reduces everything above the nearest open scope (or the bottom of
    /// the stack) to one command and returns it.
    fn reduce(&mut self) -> (r: Result<Command, ParserError>)
        ensures
            reduce_spec(syms(old(self).stack@)) == match r {
                Ok(c) => Ok((syms(final(self).stack@), c@)),
                Err(e) => Err(e),
            },
            final(self).tokens == old(self).tokens,
    {
        let ghost o = syms(self.stack@);
        let top: u8 = match self.stack.last() {
            None => 0,
            Some(Symbol::LParen) => 0,
            Some(Symbol::Text(_)) => 1,
            Some(_) => 2,
        };
        if top == 0 {
            return Ok(Command::Nil);
        }
        let mut cmd = if top == 1 {
            self.reduce_single()
        } else {
            match self.stack.pop() {
                Some(Symbol::Command(c)) => c,
                Some(Symbol::BinaryOp(l, op)) => binary(op, l, Command::Nil),
                _ => Command::Nil,
            }
        };
        proof {
            if top == 2 {
                assert(syms(self.stack@) =~= o.drop_last());
            } else {
                lemma_word_run(o);
            }
        }
        loop
            invariant
                settle(syms(self.stack@), cmd@) == reduce_spec(o),
                o == syms(old(self).stack@),
                self.tokens == old(self).tokens,
            decreases self.stack@.len(),
        {
            let ghost pre = syms(self.stack@);
            match self.stack.pop() {
                None => {
                    proof {
                        assert(syms(self.stack@) =~= pre);
                        assert(pre.len() == 0);
                    }
                    return Ok(cmd);
                },
                Some(Symbol::LParen) => {
                    self.stack.push(Symbol::LParen);
                    proof {
                        assert(syms(self.stack@) =~= pre);
                        assert(pre.last() is Open);
                    }
                    return Ok(cmd);
                },
                Some(Symbol::BinaryOp(l, op)) => {
                    cmd = binary(op, l, cmd);
                    assert(syms(self.stack@) =~= pre.drop_last());
                },
                Some(_) => {
                    return Err(ParserError::AdjacentCommands);
                },
            }
        }
    }

    /// Shifts every token, then drains the stack into one command.
    fn parse(&mut self) -> (r: Result<Command, ParserError>)
        requires
            old(self).stack@.len() == 0,
        ensures
            parsed(r) == parse_spec(toks(old(self).tokens@)),
    {
        let ghost ts = toks(self.tokens@);
        let mut i: usize = 0;
        proof {
            assert(ts.take(0) =~= Seq::<Tok>::empty());
            assert(syms(self.stack@) =~= Seq::<Sym>::empty());
        }
        while i < self.tokens.len()
            invariant
                ts == toks(self.tokens@),
                ts == toks(old(self).tokens@),
                ts.len() == self.tokens@.len(),
                0 <= i <= ts.len(),
                shift_all(ts.take(i as int)) == Ok::<Seq<Sym>, ParserError>(syms(self.stack@)),
            decreases ts.len() - i,
        {
            proof {
                assert(ts.take(i + 1).drop_last() =~= ts.take(i as int));
                assert(ts.take(i + 1).last() == self.tokens@[i as int]@);
            }
            let token = &self.tokens[i];
            let ghost st0 = syms(self.stack@);
            let push = match BinaryOp::from(token) {
                Some(op) => {
                    match self.reduce() {
                        Ok(c) => Symbol::BinaryOp(c, op),
                        Err(e) => {
                            proof {
                                assert(reduce_spec(st0) == Err::<(Seq<Sym>, Cmd), ParserError>(e));
                                assert(shift(st0, ts[i as int]) == Err::<Seq<Sym>, ParserError>(e));
                                lemma_error_persists(ts, i + 1, e);
                            }
                            return Err(e);
                        },
                    }
                },
                None => match token {
                    Token::Text(s) => Symbol::Text(s.clone()),
                    Token::LParen => Symbol::LParen,
                    Token::RParen => {
                        match self.reduce() {
                            Ok(c) => {
                                let ghost rest = syms(self.stack@);
                                match self.stack.pop() {
                                    Some(Symbol::LParen) => {
                                        assert(syms(self.stack@) =~= rest.drop_last());
                                        Symbol::Command(c)
                                    },
                                    _ => {
                                        proof {
                                            lemma_error_persists(ts, i + 1, ParserError::ExtraRParen);
                                        }
                                        return Err(ParserError::ExtraRParen);
                                    },
                                }
                            },
                            Err(e) => {
                                proof {
                                    lemma_error_persists(ts, i + 1, e);
                                }
                                return Err(e);
                            },
                        }
                    },
                    _ => {
                        proof {
                            lemma_error_persists(ts, i + 1, ParserError::UnexpectedToken);
                        }
                        return Err(ParserError::UnexpectedToken);
                    },
                },
            };
            let ghost before = self.stack@;
            let ghost pushed = push;
            self.stack.push(push);
            i = i + 1;
            proof {
                assert(syms(self.stack@) =~= syms(before).push(sym_of(pushed)));
                assert(shift(st0, ts[i - 1]) == Ok::<Seq<Sym>, ParserError>(syms(self.stack@)));
            }
        }
        proof {
            assert(ts.take(i as int) =~= ts);
        }
        let c = self.reduce()?;
        if self.stack.len() > 0 {
            Err(ParserError::MissingRParen)
        } else {
            Ok(c)
        }
    }
}

/// Parses a token sequence into a command tree.
pub fn parse(tokens: &[Token]) -> (r: Result<Command, ParserError>)
    ensures
        parsed(r) == parse_spec(toks(tokens@)),
{
    let mut parser = Parser::new(tokens);
    parser.parse()
}

} // verus!
