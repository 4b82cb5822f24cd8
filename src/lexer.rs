use vstd::prelude::*;
use crate::tokens::{toks, Tok, Token};

verus! {

/// A lexical error in a command line.
#[derive(Debug, Clone, Eq, PartialEq)]
pub enum LexerError {
    /// The line ends with a backslash that escapes nothing.
    TrailingBackslash,
    /// A run of operator characters that names no operator; it holds the run.
    UnknownOperator(String),
    /// A character that can start no token.
    UnknownCharacter(char),
}

/// The mathematical value of a lexical error.
pub enum LexErr {
    TrailingBackslash,
    UnknownOperator(Seq<char>),
    UnknownCharacter(char),
}

impl View for LexerError {
    type V = LexErr;

    open spec fn view(&self) -> LexErr {
        match self {
            LexerError::TrailingBackslash => LexErr::TrailingBackslash,
            LexerError::UnknownOperator(s) => LexErr::UnknownOperator(s@),
            LexerError::UnknownCharacter(c) => LexErr::UnknownCharacter(*c),
        }
    }
}

impl LexerError {
    /// A description of the error for people.
    pub fn message(&self) -> (r: String)
        ensures
            self@ == LexErr::TrailingBackslash ==> r@ == "trailing backslash"@,
            self@ matches LexErr::UnknownOperator(op) ==> r@ == "unknown operator "@ + op,
            self@ matches LexErr::UnknownCharacter(c) ==> r@ == "unknown character "@ + seq![c],
    {
        match self {
            LexerError::TrailingBackslash => String::from_str("trailing backslash"),
            LexerError::UnknownOperator(op) => String::from_str("unknown operator ").concat(op.as_str()),
            LexerError::UnknownCharacter(c) => {
                let mut chars: Vec<char> = Vec::new();
                chars.push(*c);
                let shown = string_from_chars(chars);
                assert(shown@ =~= seq![*c]);
                String::from_str("unknown character ").concat(shown.as_str())
            },
        }
    }
}

/// Whether `char::is_alphanumeric` holds of `c` (Unicode Alphabetic or Numeric).
pub uninterp spec fn alphanumeric(c: char) -> bool;

/// Whether `char::is_whitespace` holds of `c` (Unicode White_Space).
pub uninterp spec fn whitespace(c: char) -> bool;

/// Relies on `char::is_alphanumeric`, which depends on the character alone.
#[verifier::external_body]
fn char_is_alphanumeric(c: char) -> (r: bool)
    ensures
        r == alphanumeric(c),
{
    c.is_alphanumeric()
}

/// Relies on `char::is_whitespace`, which depends on the character alone.
#[verifier::external_body]
fn char_is_whitespace(c: char) -> (r: bool)
    ensures
        r == whitespace(c),
{
    c.is_whitespace()
}

/// Relies on `String: FromIterator<char>`: the string holds the characters in order.
#[verifier::external_body]
fn string_from_chars(chars: Vec<char>) -> (r: String)
    ensures
        r@ == chars@,
{
    chars.into_iter().collect()
}

pub open spec fn operator_char(c: char) -> bool {
    c == '&' || c == '|' || c == '>' || c == '<' || c == ';'
}

pub open spec fn text_char(c: char) -> bool {
    alphanumeric(c) || c == '-' || c == '_' || c == '.' || c == '/'
}

/// The word that starts at `i`, with its escapes resolved, and the index just past it.
pub open spec fn word_at(s: Seq<char>, i: int) -> Result<(Seq<char>, int), LexErr>
    decreases s.len() - i,
{
    if i >= s.len() {
        Ok((Seq::empty(), i))
    } else if s[i] == '\\' {
        if i + 1 >= s.len() {
            Err(LexErr::TrailingBackslash)
        } else {
            match word_at(s, i + 2) {
                Ok((w, j)) => Ok((seq![s[i + 1]] + w, j)),
                Err(e) => Err(e),
            }
        }
    } else if text_char(s[i]) {
        match word_at(s, i + 1) {
            Ok((w, j)) => Ok((seq![s[i]] + w, j)),
            Err(e) => Err(e),
        }
    } else {
        Ok((Seq::empty(), i))
    }
}

/// The index just past the run of `c` that starts at `i`.
pub open spec fn run_end(s: Seq<char>, i: int, c: char) -> int
    decreases s.len() - i,
{
    if 0 <= i < s.len() && s[i] == c {
        run_end(s, i + 1, c)
    } else {
        i
    }
}

/// The index just past the whitespace that starts at `i`.
pub open spec fn space_end(s: Seq<char>, i: int) -> int
    decreases s.len() - i,
{
    if 0 <= i < s.len() && whitespace(s[i]) {
        space_end(s, i + 1)
    } else {
        i
    }
}

/// The operator token written as `n` copies of `c`, if there is one.
pub open spec fn op_token(c: char, n: int) -> Option<Tok> {
    if c == '&' && n == 1 {
        Some(Tok::Fork)
    } else if c == '&' && n == 2 {
        Some(Tok::LogAnd)
    } else if c == '|' && n == 1 {
        Some(Tok::Pipe)
    } else if c == '|' && n == 2 {
        Some(Tok::LogOr)
    } else if c == '>' && n == 1 {
        Some(Tok::WriteFile)
    } else if c == '>' && n == 2 {
        Some(Tok::AppendFile)
    } else if c == '<' && n == 1 {
        Some(Tok::ReadFile)
    } else if c == ';' && n == 1 {
        Some(Tok::Semicolon)
    } else {
        None
    }
}

pub open spec fn prepend(t: Tok, r: Result<Seq<Tok>, LexErr>) -> Result<Seq<Tok>, LexErr> {
    match r {
        Ok(ts) => Ok(seq![t] + ts),
        Err(e) => Err(e),
    }
}

/// The tokens of `s` from index `i` on: parentheses stand alone, whitespace
/// separates, a word runs over text characters and escapes, and a run of one
/// operator character is an operator.
pub open spec fn lex_at(s: Seq<char>, i: int) -> Result<Seq<Tok>, LexErr>
    decreases s.len() - i,
    when 0 <= i
    via lex_at_decreases
{
    if i >= s.len() {
        Ok(Seq::empty())
    } else {
        let c = s[i];
        if c == '(' {
            prepend(Tok::LParen, lex_at(s, i + 1))
        } else if c == ')' {
            prepend(Tok::RParen, lex_at(s, i + 1))
        } else if whitespace(c) {
            lex_at(s, space_end(s, i))
        } else if text_char(c) || c == '\\' {
            match word_at(s, i) {
                Ok((w, j)) => prepend(Tok::Word(w), lex_at(s, j)),
                Err(e) => Err(e),
            }
        } else if operator_char(c) {
            let j = run_end(s, i, c);
            match op_token(c, j - i) {
                Some(t) => prepend(t, lex_at(s, j)),
                None => Err(LexErr::UnknownOperator(Seq::new((j - i) as nat, |k: int| c))),
            }
        } else {
            Err(LexErr::UnknownCharacter(c))
        }
    }
}

proof fn lemma_word_end(s: Seq<char>, i: int)
    requires
        0 <= i <= s.len(),
    ensures
        word_at(s, i) matches Ok((_, j)) ==> i <= j <= s.len() && (i < s.len() && (
            text_char(s[i]) || s[i] == '\\') ==> i < j),
    decreases s.len() - i,
{
    if i < s.len() && s[i] == '\\' && i + 1 < s.len() {
        lemma_word_end(s, i + 2);
    } else if i < s.len() && text_char(s[i]) {
        lemma_word_end(s, i + 1);
    }
}

proof fn lemma_run_end(s: Seq<char>, i: int, c: char)
    requires
        0 <= i <= s.len(),
    ensures
        i <= run_end(s, i, c) <= s.len(),
        i < s.len() && s[i] == c ==> i < run_end(s, i, c),
    decreases s.len() - i,
{
    if i < s.len() && s[i] == c {
        lemma_run_end(s, i + 1, c);
    }
}

proof fn lemma_space_end(s: Seq<char>, i: int)
    requires
        0 <= i <= s.len(),
    ensures
        i <= space_end(s, i) <= s.len(),
        i < s.len() && whitespace(s[i]) ==> i < space_end(s, i),
    decreases s.len() - i,
{
    if i < s.len() && whitespace(s[i]) {
        lemma_space_end(s, i + 1);
    }
}

#[via_fn]
proof fn lex_at_decreases(s: Seq<char>, i: int) {
    if 0 <= i < s.len() {
        lemma_word_end(s, i);
        lemma_run_end(s, i, s[i]);
        lemma_space_end(s, i);
    }
}

/// The value of a word read: the index just past it and the word.
pub open spec fn read_view(r: Result<(usize, String), LexerError>) -> Result<(Seq<char>, int), LexErr> {
    match r {
        Ok((j, w)) => Ok((w@, j as int)),
        Err(e) => Err(e@),
    }
}

/// The value of a lexing result.
pub open spec fn lexed(r: Result<Vec<Token>, LexerError>) -> Result<Seq<Tok>, LexErr> {
    match r {
        Ok(ts) => Ok(toks(ts@)),
        Err(e) => Err(e@),
    }
}

spec fn extend(a: Seq<char>, r: Result<(Seq<char>, int), LexErr>) -> Result<(Seq<char>, int), LexErr> {
    match r {
        Ok((w, j)) => Ok((a + w, j)),
        Err(e) => Err(e),
    }
}

spec fn prepend_all(ts: Seq<Tok>, r: Result<Seq<Tok>, LexErr>) -> Result<Seq<Tok>, LexErr> {
    match r {
        Ok(rest) => Ok(ts + rest),
        Err(e) => Err(e),
    }
}

proof fn lemma_prepend_all(ts: Seq<Tok>, t: Tok, r: Result<Seq<Tok>, LexErr>)
    ensures
        prepend_all(ts, prepend(t, r)) == prepend_all(ts.push(t), r),
{
    if let Ok(rest) = r {
        assert(ts + (seq![t] + rest) =~= ts.push(t) + rest);
    }
}

fn is_operator(c: char) -> (r: bool)
    ensures
        r == operator_char(c),
{
    c == '&' || c == '|' || c == '>' || c == '<' || c == ';'
}

fn is_text(c: char) -> (r: bool)
    ensures
        r == text_char(c),
{
    char_is_alphanumeric(c) || c == '-' || c == '_' || c == '.' || c == '/'
}

/// Reads the word that starts at index `i` of `s`, which has `n` characters.
fn read_text(s: &str, n: usize, i: usize) -> (r: Result<(usize, String), LexerError>)
    requires
        n == s@.len(),
        i <= n,
    ensures
        read_view(r) == word_at(s@, i as int),
{
    let mut acc: Vec<char> = Vec::new();
    let mut pos: usize = i;
    while pos < n
        invariant
            n == s@.len(),
            i <= pos <= n,
            word_at(s@, i as int) == extend(acc@, word_at(s@, pos as int)),
        ensures
            i <= pos <= n,
            word_at(s@, i as int) == extend(acc@, word_at(s@, pos as int)),
            word_at(s@, pos as int) == Ok::<(Seq<char>, int), LexErr>((Seq::empty(), pos as int)),
        decreases n - pos,
    {
        let c = s.get_char(pos);
        if c == '\\' {
            if pos + 1 >= n {
                return Err(LexerError::TrailingBackslash);
            }
            let d = s.get_char(pos + 1);
            proof {
                if let Ok((w, j)) = word_at(s@, pos + 2) {
                    assert(acc@.push(d) + w =~= acc@ + (seq![d] + w));
                }
            }
            acc.push(d);
            pos = pos + 2;
        } else if !is_text(c) {
            break;
        } else {
            proof {
                if let Ok((w, j)) = word_at(s@, pos + 1) {
                    assert(acc@.push(c) + w =~= acc@ + (seq![c] + w));
                }
            }
            acc.push(c);
            pos = pos + 1;
        }
    }
    assert(acc@ + Seq::<char>::empty() =~= acc@);
    Ok((pos, string_from_chars(acc)))
}

/// The index just past the run of `op` that starts at index `i` of `s`.
fn read_operator(s: &str, n: usize, i: usize, op: char) -> (r: usize)
    requires
        n == s@.len(),
        i <= n,
    ensures
        r == run_end(s@, i as int, op),
{
    let mut pos: usize = i;
    while pos < n && s.get_char(pos) == op
        invariant
            n == s@.len(),
            i <= pos <= n,
            run_end(s@, i as int, op) == run_end(s@, pos as int, op),
        decreases n - pos,
    {
        pos = pos + 1;
    }
    pos
}

/// The index just past the whitespace that starts at index `i` of `s`.
fn skip_whitespace(s: &str, n: usize, i: usize) -> (r: usize)
    requires
        n == s@.len(),
        i <= n,
    ensures
        r == space_end(s@, i as int),
{
    let mut pos: usize = i;
    while pos < n && char_is_whitespace(s.get_char(pos))
        invariant
            n == s@.len(),
            i <= pos <= n,
            space_end(s@, i as int) == space_end(s@, pos as int),
        decreases n - pos,
    {
        pos = pos + 1;
    }
    pos
}

/// Splits a command line into tokens.
pub fn lex(input: &str) -> (r: Result<Vec<Token>, LexerError>)
    ensures
        lexed(r) == lex_at(input@, 0),
{
    let n = input.unicode_len();
    let mut tokens: Vec<Token> = Vec::new();
    let mut i: usize = 0;
    proof {
        if let Ok(all) = lex_at(input@, 0) {
            assert(toks(tokens@) + all =~= all);
        }
    }
    while i < n
        invariant
            n == input@.len(),
            i <= n,
            lex_at(input@, 0) == prepend_all(toks(tokens@), lex_at(input@, i as int)),
        decreases n - i,
    {
        let ghost s = input@;
        let ghost before = toks(tokens@);
        let c = input.get_char(i);
        if c == '(' {
            tokens.push(Token::LParen);
            i = i + 1;
            proof {
                assert(toks(tokens@) =~= before.push(Tok::LParen));
                lemma_prepend_all(before, Tok::LParen, lex_at(s, i as int));
            }
        } else if c == ')' {
            tokens.push(Token::RParen);
            i = i + 1;
            proof {
                assert(toks(tokens@) =~= before.push(Tok::RParen));
                lemma_prepend_all(before, Tok::RParen, lex_at(s, i as int));
            }
        } else if char_is_whitespace(c) {
            proof {
                lemma_space_end(s, i as int);
            }
            i = skip_whitespace(input, n, i);
        } else if is_text(c) || c == '\\' {
            proof {
                lemma_word_end(s, i as int);
            }
            match read_text(input, n, i) {
                Ok((j, text)) => {
                    let ghost w = text@;
                    tokens.push(Token::Text(text));
                    proof {
                        assert(toks(tokens@) =~= before.push(Tok::Word(w)));
                        lemma_prepend_all(before, Tok::Word(w), lex_at(s, j as int));
                    }
                    i = j;
                },
                Err(e) => {
                    return Err(e);
                },
            }
        } else if is_operator(c) {
            let j = read_operator(input, n, i, c);
            proof {
                lemma_run_end(s, i as int, c);
            }
            let count = j - i;
            let token = if c == '&' && count == 1 {
                Token::Fork
            } else if c == '&' && count == 2 {
                Token::LogAnd
            } else if c == '|' && count == 1 {
                Token::Pipe
            } else if c == '|' && count == 2 {
                Token::LogOr
            } else if c == '>' && count == 1 {
                Token::WriteFile
            } else if c == '>' && count == 2 {
                Token::AppendFile
            } else if c == '<' && count == 1 {
                Token::ReadFile
            } else if c == ';' && count == 1 {
                Token::Semicolon
            } else {
                let mut run: Vec<char> = Vec::new();
                while run.len() < count
                    invariant
                        run@.len() <= count,
                        forall|k: int| 0 <= k < run@.len() ==> run@[k] == c,
                    decreases count - run@.len(),
                {
                    run.push(c);
                }
                assert(run@ =~= Seq::new(count as nat, |k: int| c));
                return Err(LexerError::UnknownOperator(string_from_chars(run)));
            };
            let ghost t = token@;
            tokens.push(token);
            proof {
                assert(toks(tokens@) =~= before.push(t));
                lemma_prepend_all(before, t, lex_at(s, j as int));
            }
            i = j;
        } else {
            return Err(LexerError::UnknownCharacter(c));
        }
    }
    assert(toks(tokens@) + Seq::<Tok>::empty() =~= toks(tokens@));
    Ok(tokens)
}

} // verus!
