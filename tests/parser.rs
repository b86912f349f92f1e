use codecrafters_shell::error::ShellError;
use codecrafters_shell::parser::ast::Pipeline;
use codecrafters_shell::parser::lexer::Token;
use codecrafters_shell::parser::parse_tokens;
use codecrafters_shell::shell::Shell;

fn parse(line: &str) -> Result<Vec<Pipeline>, ShellError> {
    let mut shell = Shell::new();
    shell.parse_input(line)
}

fn parse_error(line: &str) -> String {
    match parse(line) {
        Err(ShellError::ParseError(m)) => m,
        other => panic!("unexpected {:?}", other),
    }
}

#[test]
fn whitespace_runs_do_not_change_arguments() {
    for line in ["echo a b", "echo  a   b", "  echo\ta \t b  "] {
        let pipelines = parse(line).unwrap();
        assert_eq!(pipelines.len(), 1);
        assert_eq!(pipelines[0].commands.len(), 1);
        let command = &pipelines[0].commands[0];
        assert_eq!(command.program, "echo");
        assert_eq!(command.arguments, vec!["a".to_string(), "b".to_string()]);
        assert!(command.input.is_none());
        assert!(command.outputs.is_empty());
    }
}

#[test]
fn escaped_arguments_keep_their_values() {
    let pipelines = parse(r#"printf 'a b'   "c\"d"  e\ f"#).unwrap();
    let command = &pipelines[0].commands[0];
    assert_eq!(command.arguments, vec!["a b".to_string(), "c\"d".to_string(), "e f".to_string()]);
}

#[test]
fn pipes_join_commands() {
    let pipelines = parse("printf 'b\\na\\nc' | sort").unwrap();
    assert_eq!(pipelines.len(), 1);
    let commands = &pipelines[0].commands;
    assert_eq!(commands.len(), 2);
    assert_eq!(commands[0].program, "printf");
    assert_eq!(commands[0].arguments, vec!["b\\na\\nc".to_string()]);
    assert_eq!(commands[1].program, "sort");
    assert!(commands[1].arguments.is_empty());
}

#[test]
fn semicolons_separate_pipelines() {
    let pipelines = parse("echo a; echo b ;; ls | wc").unwrap();
    assert_eq!(pipelines.len(), 3);
    assert_eq!(pipelines[0].commands[0].arguments, vec!["a".to_string()]);
    assert_eq!(pipelines[1].commands[0].arguments, vec!["b".to_string()]);
    assert_eq!(pipelines[2].commands.len(), 2);
}

#[test]
fn background_is_read_and_ignored() {
    let pipelines = parse("sleep 1 & echo hi &").unwrap();
    assert_eq!(pipelines.len(), 2);
    assert_eq!(pipelines[0].commands[0].program, "sleep");
    assert_eq!(pipelines[1].commands[0].program, "echo");
}

#[test]
fn redirections_are_collected_in_order() {
    let pipelines = parse("cmd a > out b 2> err >> log < in c").unwrap();
    let command = &pipelines[0].commands[0];
    assert_eq!(command.arguments, vec!["a".to_string(), "b".to_string(), "c".to_string()]);
    assert_eq!(command.input.as_deref(), Some("in"));
    let outs: Vec<(String, u32, bool)> =
        command.outputs.iter().map(|r| (r.path.clone(), r.fd, r.append)).collect();
    assert_eq!(
        outs,
        vec![
            ("out".to_string(), 1, false),
            ("err".to_string(), 2, false),
            ("log".to_string(), 1, true),
        ]
    );
}

#[test]
fn append_redirection_is_flagged() {
    let pipelines = parse("echo hi >> /tmp/x").unwrap();
    let command = &pipelines[0].commands[0];
    assert_eq!(command.outputs.len(), 1);
    assert_eq!(command.outputs[0].path, "/tmp/x");
    assert_eq!(command.outputs[0].fd, 1);
    assert!(command.outputs[0].append);
}

#[test]
fn missing_output_file_fails() {
    assert_eq!(parse_error("echo hi >"), "Expected file name after '>'");
    assert_eq!(parse_error("echo hi > | cat"), "Expected file name after '>'");
}

#[test]
fn missing_input_file_fails() {
    assert_eq!(parse_error("cat <"), "Expected file name after '<'");
    assert_eq!(parse_error("cat < ; ls"), "Expected file name after '<'");
}

#[test]
fn command_position_without_word_fails() {
    assert_eq!(parse_error("| sort"), "Unexpected end of input");
    assert_eq!(parse_error("ls |"), "Unexpected end of input");
    assert_eq!(parse_error("> out"), "Unexpected end of input");
}

#[test]
fn lexing_errors_come_through_parse_input() {
    assert_eq!(parse_error("echo \"abc"), "Unclosed double quote");
}

#[test]
fn empty_token_list_parses_to_nothing() {
    assert!(parse_tokens(Vec::new()).unwrap().is_empty());
    assert!(parse("   ").unwrap().is_empty());
}

#[test]
fn parse_tokens_takes_tokens() {
    let tokens = vec![
        Token::Word("ls".to_string()),
        Token::RedirectOut { fd: 2, append: true },
        Token::Word("e".to_string()),
    ];
    let pipelines = parse_tokens(tokens).unwrap();
    let command = &pipelines[0].commands[0];
    assert_eq!(command.program, "ls");
    assert_eq!(command.outputs[0].fd, 2);
    assert!(command.outputs[0].append);
}

#[test]
fn new_shell_has_no_variables() {
    let shell = Shell::new();
    assert!(shell.environment_var.is_empty());
}
