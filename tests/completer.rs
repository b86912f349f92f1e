use codecrafters_shell::completer::command_completions;

fn names() -> Vec<String> {
    vec!["echo".to_string(), "exit".to_string(), "my tool".to_string(), "type".to_string()]
}

fn offers(before: &str) -> Vec<(String, String)> {
    command_completions(before, &names())
        .into_iter()
        .map(|c| (c.display, c.replacement))
        .collect()
}

#[test]
fn first_word_completes_to_commands() {
    assert_eq!(offers("e"), vec![
        ("echo".to_string(), "echo ".to_string()),
        ("exit".to_string(), "exit ".to_string()),
    ]);
    assert_eq!(offers("ty"), vec![("type".to_string(), "type ".to_string())]);
    assert_eq!(offers("echo"), vec![("echo".to_string(), "echo ".to_string())]);
}

#[test]
fn names_with_spaces_are_quoted() {
    assert_eq!(offers("my"), vec![("my tool".to_string(), "'my tool' ".to_string())]);
}

#[test]
fn later_words_and_empty_lines_get_no_command() {
    assert!(offers("").is_empty());
    assert!(offers("echo e").is_empty());
    assert!(offers("x").is_empty());
    assert!(offers("echoes").is_empty());
}
