use codecrafters_shell::error::ShellError;
use codecrafters_shell::parser::lexer::Token;

fn word(s: &str) -> Token {
    Token::Word(s.to_string())
}

#[test]
fn test_backslash_escapes_spaces() {
    let input = r"echo world\ \ \ \ \ \ script";
    let tokens = Token::tokenize(input).unwrap();
    assert_eq!(tokens.len(), 2);
    assert_eq!(tokens[0], Token::Word("echo".to_string()));
    assert_eq!(tokens[1], Token::Word("world      script".to_string()));
}

#[test]
fn test_backslash_with_mixed_spaces() {
    let input = r"echo before\ after";
    let tokens = Token::tokenize(input).unwrap();
    assert_eq!(tokens.len(), 2);
    assert_eq!(tokens[0], Token::Word("echo".to_string()));
    assert_eq!(tokens[1], Token::Word("before after".to_string()));
}

#[test]
fn test_backslash_n_literal() {
    let input = r"echo test\nexample";
    let tokens = Token::tokenize(input).unwrap();
    assert_eq!(tokens.len(), 2);
    assert_eq!(tokens[0], Token::Word("echo".to_string()));
    assert_eq!(tokens[1], Token::Word("testnexample".to_string()));
}

#[test]
fn test_escaped_backslash() {
    let input = r"echo hello\\world";
    let tokens = Token::tokenize(input).unwrap();
    assert_eq!(tokens.len(), 2);
    assert_eq!(tokens[0], Token::Word("echo".to_string()));
    assert_eq!(tokens[1], Token::Word("hello\\world".to_string()));
}

#[test]
fn test_escaped_single_quotes() {
    let input = r"echo \'hello\'";
    let tokens = Token::tokenize(input).unwrap();
    assert_eq!(tokens.len(), 2);
    assert_eq!(tokens[0], Token::Word("echo".to_string()));
    assert_eq!(tokens[1], Token::Word("'hello'".to_string()));
}

#[test]
fn escaped_spaces_join_one_word() {
    let tokens = Token::tokenize(r"echo a\ \ b").unwrap();
    assert_eq!(tokens, vec![word("echo"), word("a  b")]);
}

#[test]
fn double_quotes_resolve_escapes() {
    let tokens = Token::tokenize(r#"echo "a\$b""#).unwrap();
    assert_eq!(tokens, vec![word("echo"), word("a$b")]);
    let tokens = Token::tokenize(r#"echo "q\"x\\y\`z""#).unwrap();
    assert_eq!(tokens, vec![word("echo"), word("q\"x\\y`z")]);
}

#[test]
fn double_quotes_keep_other_backslashes() {
    let tokens = Token::tokenize(r#"echo "a\nb""#).unwrap();
    assert_eq!(tokens, vec![word("echo"), word(r"a\nb")]);
}

#[test]
fn double_quotes_join_continued_lines() {
    let tokens = Token::tokenize("echo \"a\\\nb\"").unwrap();
    assert_eq!(tokens, vec![word("echo"), word("ab")]);
}

#[test]
fn single_quotes_are_literal() {
    let tokens = Token::tokenize(r"echo 'a\$b'").unwrap();
    assert_eq!(tokens, vec![word("echo"), word(r"a\$b")]);
    let tokens = Token::tokenize("echo 'a  | b'").unwrap();
    assert_eq!(tokens, vec![word("echo"), word("a  | b")]);
}

#[test]
fn quoted_parts_join_neighbours() {
    let tokens = Token::tokenize(r#"echo ab'c d'"e f"g"#).unwrap();
    assert_eq!(tokens, vec![word("echo"), word("abc de fg")]);
}

#[test]
fn empty_quotes_yield_no_token() {
    let tokens = Token::tokenize("echo '' \"\"").unwrap();
    assert_eq!(tokens, vec![word("echo")]);
}

#[test]
fn unclosed_single_quote_fails() {
    match Token::tokenize("echo 'abc") {
        Err(ShellError::ParseError(m)) => assert_eq!(m, "Unclosed single quote"),
        other => panic!("unexpected {:?}", other),
    }
}

#[test]
fn unclosed_double_quote_fails() {
    match Token::tokenize("echo \"abc") {
        Err(ShellError::ParseError(m)) => assert_eq!(m, "Unclosed double quote"),
        other => panic!("unexpected {:?}", other),
    }
    match Token::tokenize("echo \"abc\\") {
        Err(ShellError::ParseError(m)) => assert_eq!(m, "Unclosed double quote"),
        other => panic!("unexpected {:?}", other),
    }
}

#[test]
fn unclosed_quote_after_several_words_fails() {
    match Token::tokenize("a  b\tc 'x \"y") {
        Err(ShellError::ParseError(m)) => assert_eq!(m, "Unclosed single quote"),
        other => panic!("unexpected {:?}", other),
    }
}

#[test]
fn operators_stand_alone() {
    let tokens = Token::tokenize("a|b;c&d").unwrap();
    assert_eq!(
        tokens,
        vec![
            word("a"),
            Token::Pipe,
            word("b"),
            Token::Semicolon,
            word("c"),
            Token::Background,
            word("d"),
        ]
    );
}

#[test]
fn redirections_carry_descriptor_and_append() {
    let tokens = Token::tokenize("cmd >out 2>err >>log 2>>elog <in 3<x").unwrap();
    assert_eq!(
        tokens,
        vec![
            word("cmd"),
            Token::RedirectOut { fd: 1, append: false },
            word("out"),
            Token::RedirectOut { fd: 2, append: false },
            word("err"),
            Token::RedirectOut { fd: 1, append: true },
            word("log"),
            Token::RedirectOut { fd: 2, append: true },
            word("elog"),
            Token::RedirectIn { fd: 0 },
            word("in"),
            Token::RedirectIn { fd: 3 },
            word("x"),
        ]
    );
}

#[test]
fn digit_runs_name_descriptors() {
    let tokens = Token::tokenize("cmd 12>f").unwrap();
    assert_eq!(tokens, vec![word("cmd"), Token::RedirectOut { fd: 12, append: false }, word("f")]);
}

#[test]
fn digits_inside_a_word_are_not_a_descriptor() {
    let tokens = Token::tokenize("echo a2>f").unwrap();
    assert_eq!(tokens, vec![word("echo"), word("a2"), Token::RedirectOut { fd: 1, append: false }, word("f")]);
    let tokens = Token::tokenize("echo 42 x").unwrap();
    assert_eq!(tokens, vec![word("echo"), word("42"), word("x")]);
}

#[test]
fn oversized_descriptor_stays_a_word() {
    let tokens = Token::tokenize("echo 99999999999>f").unwrap();
    assert_eq!(
        tokens,
        vec![word("echo"), word("99999999999"), Token::RedirectOut { fd: 1, append: false }, word("f")]
    );
    let tokens = Token::tokenize("echo 4294967295>f").unwrap();
    assert_eq!(tokens, vec![word("echo"), Token::RedirectOut { fd: 4294967295, append: false }, word("f")]);
}

#[test]
fn any_whitespace_separates() {
    let tokens = Token::tokenize("  echo\ta \u{3000} b\n").unwrap();
    assert_eq!(tokens, vec![word("echo"), word("a"), word("b")]);
}

#[test]
fn empty_and_blank_lines_have_no_tokens() {
    assert!(Token::tokenize("").unwrap().is_empty());
    assert!(Token::tokenize("  \t ").unwrap().is_empty());
}

#[test]
fn trailing_backslash_is_dropped() {
    let tokens = Token::tokenize("echo ab\\").unwrap();
    assert_eq!(tokens, vec![word("echo"), word("ab")]);
}

#[test]
fn non_ascii_words_survive() {
    let tokens = Token::tokenize("echo héllo 'wörld'").unwrap();
    assert_eq!(tokens, vec![word("echo"), word("héllo"), word("wörld")]);
}
