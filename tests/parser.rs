use minishell::ast::Command::Nil;
use minishell::ast::{binary, fork, log_and, log_or, pipe, sequential, single, BinaryOp, Command, SingleCommand};
use minishell::parser::{parse, ParserError};
use minishell::tokens::Token;

fn words(ws: &[&str]) -> Command {
    single(ws.iter().map(|w| w.to_string()).collect())
}

#[test]
fn parses_empty_tokens() {
    let tokens = vec![];
    let result = parse(tokens.as_slice()).unwrap();

    assert_eq!(result, Command::Nil);
}

#[test]
fn parses_single_command() {
    let tokens = vec![Token::text("echo"), Token::text("foo")];
    let result = parse(tokens.as_slice()).unwrap();

    assert_eq!(
        result,
        Command::Single(SingleCommand {
            args: vec!["echo".to_string(), "foo".to_string()]
        })
    );
}

#[test]
fn parses_chained_binary_command() {
    let tokens = vec![
        Token::text("echo"),
        Token::text("foo"),
        Token::Semicolon,
        Token::text("echo"),
        Token::text("bar"),
        Token::Semicolon,
        Token::text("echo"),
        Token::text("spam"),
    ];
    let result = parse(tokens.as_slice()).unwrap();

    assert_eq!(
        result,
        sequential(
            sequential(
                single(vec!["echo".to_string(), "foo".to_string()]),
                single(vec!["echo".to_string(), "bar".to_string()]),
            ),
            single(vec!["echo".to_string(), "spam".to_string()])
        )
    );
}

#[test]
fn reorders_binary_chain_with_paren() {
    let tokens = vec![
        Token::text("echo"),
        Token::text("foo"),
        Token::Semicolon,
        Token::LParen,
        Token::text("echo"),
        Token::text("bar"),
        Token::Semicolon,
        Token::text("echo"),
        Token::text("spam"),
        Token::RParen,
    ];
    let result = parse(tokens.as_slice()).unwrap();

    assert_eq!(
        result,
        sequential(
            single(vec!["echo".to_string(), "foo".to_string()]),
            sequential(
                single(vec!["echo".to_string(), "bar".to_string()]),
                single(vec!["echo".to_string(), "spam".to_string()])
            )
        )
    );
}

#[test]
fn parses_binary_command_with_trailing_op() {
    let tokens = vec![
        Token::text("echo"),
        Token::text("foo"),
        Token::Semicolon,
        Token::text("echo"),
        Token::Fork,
    ];
    let result = parse(tokens.as_slice()).unwrap();

    assert_eq!(
        result,
        fork(
            sequential(
                single(vec!["echo".to_string(), "foo".to_string()]),
                single(vec!["echo".to_string()]),
            ),
            Nil
        )
    );
}

#[test]
fn parses_happy_command_with_parentheses() {
    let tokens = vec![
        Token::LParen,
        Token::text("uptime"),
        Token::Semicolon,
        Token::text("echo"),
        Token::RParen,
    ];
    let result = parse(tokens.as_slice()).unwrap();

    assert_eq!(
        result,
        sequential(
            single(vec!["uptime".to_string()]),
            single(vec!["echo".to_string()]),
        )
    );
}

#[test]
fn parses_happy_command_with_nested_parentheses() {
    let tokens = vec![
        Token::text("uptime"),
        Token::Semicolon,
        Token::LParen,
        Token::LParen,
        Token::text("echo"),
        Token::Fork,
        Token::RParen,
        Token::LogAnd,
        Token::text("apt"),
        Token::RParen,
    ];
    let result = parse(tokens.as_slice()).unwrap();

    assert_eq!(
        result,
        sequential(
            single(vec!["uptime".to_string()]),
            log_and(
                fork(single(vec!["echo".to_string()]), Nil),
                single(vec!["apt".to_string()]),
            )
        )
    );
}

#[test]
fn two_words_make_one_invocation() {
    let tokens = vec![Token::text("a"), Token::text("b")];
    assert_eq!(parse(&tokens).unwrap(), words(&["a", "b"]));
}

#[test]
fn operators_accumulate_left() {
    let tokens = vec![
        Token::text("a"),
        Token::Semicolon,
        Token::text("b"),
        Token::Semicolon,
        Token::text("c"),
    ];
    assert_eq!(
        parse(&tokens).unwrap(),
        sequential(sequential(words(&["a"]), words(&["b"])), words(&["c"]))
    );
}

#[test]
fn parentheses_override_accumulation() {
    let tokens = vec![
        Token::text("a"),
        Token::Semicolon,
        Token::LParen,
        Token::text("b"),
        Token::Semicolon,
        Token::text("c"),
        Token::RParen,
    ];
    assert_eq!(
        parse(&tokens).unwrap(),
        sequential(words(&["a"]), sequential(words(&["b"]), words(&["c"])))
    );
}

#[test]
fn trailing_fork_folds_with_nil() {
    let tokens = vec![Token::text("a"), Token::Fork];
    assert_eq!(parse(&tokens).unwrap(), fork(words(&["a"]), Nil));
}

#[test]
fn mixed_operators_share_one_strength() {
    let tokens = vec![
        Token::text("a"),
        Token::Semicolon,
        Token::text("b"),
        Token::Fork,
        Token::text("c"),
        Token::Pipe,
        Token::text("d"),
        Token::LogOr,
        Token::text("e"),
    ];
    assert_eq!(
        parse(&tokens).unwrap(),
        log_or(
            pipe(fork(sequential(words(&["a"]), words(&["b"])), words(&["c"])), words(&["d"])),
            words(&["e"])
        )
    );
}

#[test]
fn leading_operator_folds_with_nil() {
    let tokens = vec![Token::Semicolon, Token::text("a")];
    assert_eq!(parse(&tokens).unwrap(), sequential(Nil, words(&["a"])));
}

#[test]
fn empty_parentheses_are_nil() {
    let tokens = vec![Token::LParen, Token::RParen];
    assert_eq!(parse(&tokens).unwrap(), Nil);
}

#[test]
fn group_with_words_is_not_nil() {
    let tokens = vec![Token::LParen, Token::LParen, Token::text("a"), Token::RParen, Token::RParen];
    assert_eq!(parse(&tokens).unwrap(), words(&["a"]));
}

#[test]
fn operator_before_close_folds_with_nil() {
    let tokens = vec![Token::LParen, Token::text("a"), Token::LogAnd, Token::RParen];
    assert_eq!(parse(&tokens).unwrap(), binary(BinaryOp::LogAnd, words(&["a"]), Nil));
}

#[test]
fn stray_right_paren_is_an_error() {
    let tokens = vec![Token::RParen, Token::text("a")];
    assert_eq!(parse(&tokens), Err(ParserError::ExtraRParen));
    let tokens = vec![Token::text("a"), Token::RParen];
    assert_eq!(parse(&tokens), Err(ParserError::ExtraRParen));
}

#[test]
fn unclosed_left_paren_is_an_error() {
    let tokens = vec![Token::LParen, Token::text("a")];
    assert_eq!(parse(&tokens), Err(ParserError::MissingRParen));
}

#[test]
fn redirection_tokens_are_rejected() {
    let tokens = vec![Token::text("a"), Token::WriteFile, Token::text("f")];
    assert_eq!(parse(&tokens), Err(ParserError::UnexpectedToken));
    let tokens = vec![Token::Glob];
    assert_eq!(parse(&tokens), Err(ParserError::UnexpectedToken));
}

#[test]
fn adjacent_groups_are_rejected() {
    let tokens = vec![
        Token::LParen,
        Token::text("a"),
        Token::RParen,
        Token::LParen,
        Token::text("b"),
        Token::RParen,
    ];
    assert_eq!(parse(&tokens), Err(ParserError::AdjacentCommands));
    let tokens = vec![Token::text("a"), Token::LParen, Token::text("b"), Token::RParen];
    assert_eq!(parse(&tokens), Err(ParserError::AdjacentCommands));
    let tokens = vec![Token::LParen, Token::text("a"), Token::RParen, Token::text("b")];
    assert_eq!(parse(&tokens), Err(ParserError::AdjacentCommands));
}

#[test]
fn operator_tokens_map_to_operators() {
    assert_eq!(BinaryOp::from(&Token::Semicolon), Some(BinaryOp::Sequence));
    assert_eq!(BinaryOp::from(&Token::Fork), Some(BinaryOp::Fork));
    assert_eq!(BinaryOp::from(&Token::Pipe), Some(BinaryOp::Pipe));
    assert_eq!(BinaryOp::from(&Token::LogAnd), Some(BinaryOp::LogAnd));
    assert_eq!(BinaryOp::from(&Token::LogOr), Some(BinaryOp::LogOr));
    assert_eq!(BinaryOp::from(&Token::text("x")), None);
    assert_eq!(BinaryOp::from(&Token::ReadFile), None);
    assert_eq!(BinaryOp::from(&Token::LParen), None);
}

#[test]
fn lexed_line_parses() {
    let tokens = minishell::lexer::lex("a && (b | c) ; d").unwrap();
    assert_eq!(
        parse(&tokens).unwrap(),
        sequential(log_and(words(&["a"]), pipe(words(&["b"]), words(&["c"]))), words(&["d"]))
    );
}

#[test]
fn parser_errors_describe_themselves() {
    assert_eq!(ParserError::ExtraRParen.message(), "there was an extra right parenthesis");
    assert_eq!(ParserError::MissingRParen.message(), "there was a missing right parenthesis");
}
