use minishell::lexer::{lex, LexerError};
use minishell::tokens::Token;
use minishell::tokens::Token::{AppendFile, Fork, LParen, LogAnd, LogOr, RParen, ReadFile, Semicolon, WriteFile};

#[test]
fn lexes_empty() {
    let in_str = "";

    let output = lex(in_str).unwrap();

    assert_eq!(output, Vec::<Token>::new());
}

#[test]
fn lexes_whitespace() {
    let in_str = "\t";

    let output = lex(in_str).unwrap();

    assert_eq!(output, Vec::<Token>::new());
}

#[test]
fn lexes_fork_command() {
    let in_str = "echo this is a --test & cat ./foo.bar > carp";

    let output = lex(in_str).unwrap();

    assert_eq!(
        output,
        vec![
            Token::text("echo"),
            Token::text("this"),
            Token::text("is"),
            Token::text("a"),
            Token::text("--test"),
            Fork,
            Token::text("cat"),
            Token::text("./foo.bar"),
            WriteFile,
            Token::text("carp"),
        ]
    )
}

#[test]
fn escapes_chars() {
    let in_str = "echo this\\ is\\ one\\ token";

    let output = lex(in_str).unwrap();

    assert_eq!(
        output,
        vec![Token::text("echo"), Token::text("this is one token"),]
    )
}

#[test]
fn optional_whitespace() {
    let in_str = "echo;tok&&en&alpha||beta>>     \tend";

    let output = lex(in_str).unwrap();

    assert_eq!(
        output,
        vec![
            Token::text("echo"),
            Semicolon,
            Token::text("tok"),
            LogAnd,
            Token::text("en"),
            Fork,
            Token::text("alpha"),
            LogOr,
            Token::text("beta"),
            AppendFile,
            Token::text("end"),
        ]
    )
}

#[test]
fn lexes_parentheses() {
    let in_str = "(echo(   token(alpha)beta(";

    let output = lex(in_str).unwrap();

    assert_eq!(
        output,
        vec![
            LParen,
            Token::text("echo"),
            LParen,
            Token::text("token"),
            LParen,
            Token::text("alpha"),
            RParen,
            Token::text("beta"),
            LParen
        ]
    )
}

#[test]
fn errors_on_invalid_operators() {
    let in_str = "foo;;bar&alpha||beta";

    let output = lex(in_str);

    assert_eq!(output, Err(LexerError::UnknownOperator(";;".to_string())))
}

#[test]
fn lexes_read_redirection() {
    let output = lex("sort < names").unwrap();

    assert_eq!(output, vec![Token::text("sort"), ReadFile, Token::text("names")]);
}

#[test]
fn lexes_pipe() {
    let output = lex("ls|wc").unwrap();

    assert_eq!(output, vec![Token::text("ls"), Token::Pipe, Token::text("wc")]);
}

#[test]
fn errors_on_long_operator_run() {
    assert_eq!(lex("a &&& b"), Err(LexerError::UnknownOperator("&&&".to_string())));
    assert_eq!(lex("a >>> b"), Err(LexerError::UnknownOperator(">>>".to_string())));
    assert_eq!(lex("a << b"), Err(LexerError::UnknownOperator("<<".to_string())));
}

#[test]
fn errors_on_trailing_backslash() {
    assert_eq!(lex("echo foo\\"), Err(LexerError::TrailingBackslash));
}

#[test]
fn errors_on_unknown_character() {
    assert_eq!(lex("echo *"), Err(LexerError::UnknownCharacter('*')));
}

#[test]
fn word_may_start_with_escape() {
    assert_eq!(lex("echo \\(x").unwrap(), vec![Token::text("echo"), Token::text("(x")]);
}

#[test]
fn unicode_letters_make_words() {
    assert_eq!(lex("héllo wörld").unwrap(), vec![Token::text("héllo"), Token::text("wörld")]);
}

#[test]
fn unicode_whitespace_separates_words() {
    assert_eq!(lex("a\u{3000}b").unwrap(), vec![Token::text("a"), Token::text("b")]);
}

#[test]
fn lexer_errors_describe_themselves() {
    assert_eq!(LexerError::TrailingBackslash.message(), "trailing backslash");
    assert_eq!(LexerError::UnknownOperator(";;".to_string()).message(), "unknown operator ;;");
    assert_eq!(LexerError::UnknownCharacter('*').message(), "unknown character *");
}
