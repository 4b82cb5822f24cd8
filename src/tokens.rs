use vstd::prelude::*;

verus! {

/// A lexical unit of a command line.
#[derive(Debug, Clone, Eq, PartialEq)]
pub enum Token {
    Text(String),
    Glob,
    Space,
    LogAnd,
    LogOr,
    Pipe,
    WriteFile,
    AppendFile,
    ReadFile,
    Semicolon,
    Fork,
    LParen,
    RParen,
}

/// The mathematical value of a token: a word is its sequence of characters.
pub enum Tok {
    Word(Seq<char>),
    Glob,
    Space,
    LogAnd,
    LogOr,
    Pipe,
    WriteFile,
    AppendFile,
    ReadFile,
    Semicolon,
    Fork,
    LParen,
    RParen,
}

impl View for Token {
    type V = Tok;

    open spec fn view(&self) -> Tok {
        match self {
            Token::Text(s) => Tok::Word(s@),
            Token::Glob => Tok::Glob,
            Token::Space => Tok::Space,
            Token::LogAnd => Tok::LogAnd,
            Token::LogOr => Tok::LogOr,
            Token::Pipe => Tok::Pipe,
            Token::WriteFile => Tok::WriteFile,
            Token::AppendFile => Tok::AppendFile,
            Token::ReadFile => Tok::ReadFile,
            Token::Semicolon => Tok::Semicolon,
            Token::Fork => Tok::Fork,
            Token::LParen => Tok::LParen,
            Token::RParen => Tok::RParen,
        }
    }
}

/// The values of a sequence of tokens.
pub open spec fn toks(ts: Seq<Token>) -> Seq<Tok> {
    ts.map_values(|t: Token| t@)
}

impl Token {
    /// A word token holding a copy of `text`.
    pub fn text(text: &str) -> (r: Token)
        ensures
            r@ == Tok::Word(text@),
    {
        Token::Text(String::from_str(text))
    }
}

} // verus!
