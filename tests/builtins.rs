use codecrafters_shell::error::ShellError;
use codecrafters_shell::executor::builtins::{
    Builtin, BuiltinAction, CdTarget, execute_builtin, is_builtin, type_report,
};
use codecrafters_shell::parser::ast::Command;
use codecrafters_shell::shell::Shell;

fn command(program: &str, args: &[&str]) -> Command {
    Command {
        program: program.to_string(),
        arguments: args.iter().map(|a| a.to_string()).collect(),
        input: None,
        outputs: Vec::new(),
    }
}

fn run(program: &str, args: &[&str]) -> Result<BuiltinAction, ShellError> {
    let mut shell = Shell::new();
    execute_builtin(&mut shell, &command(program, args))
}

#[test]
fn builtin_names_are_known() {
    for name in ["exit", "echo", "type", "pwd", "cd"] {
        assert!(is_builtin(name), "{}", name);
    }
    for name in ["ls", "", "ech", "echo ", "Exit", "cd2"] {
        assert!(!is_builtin(name), "{}", name);
    }
    assert_eq!(Builtin::from_name("pwd"), Some(Builtin::Pwd));
    assert_eq!(Builtin::from_name("cd"), Some(Builtin::Cd));
    assert_eq!(Builtin::from_name("cat"), None);
}

#[test]
fn echo_joins_arguments() {
    match run("echo", &["hello", "big  world"]) {
        Ok(BuiltinAction::Write(t)) => assert_eq!(t, "hello big  world\n"),
        other => panic!("unexpected {:?}", other),
    }
    match run("echo", &[]) {
        Ok(BuiltinAction::Write(t)) => assert_eq!(t, "\n"),
        other => panic!("unexpected {:?}", other),
    }
    match run("echo", &["hi"]) {
        Ok(BuiltinAction::Write(t)) => assert_eq!(t, "hi\n"),
        other => panic!("unexpected {:?}", other),
    }
}

#[test]
fn exit_takes_its_status_from_the_first_argument() {
    assert!(matches!(run("exit", &["3"]), Ok(BuiltinAction::Exit(3))));
    assert!(matches!(run("exit", &["-5", "x"]), Ok(BuiltinAction::Exit(-5))));
    assert!(matches!(run("exit", &["+7"]), Ok(BuiltinAction::Exit(7))));
    assert!(matches!(run("exit", &[]), Ok(BuiltinAction::Exit(0))));
    assert!(matches!(run("exit", &["abc"]), Ok(BuiltinAction::Exit(0))));
    assert!(matches!(run("exit", &["99999999999"]), Ok(BuiltinAction::Exit(0))));
}

#[test]
fn pwd_asks_for_the_working_directory() {
    assert!(matches!(run("pwd", &[]), Ok(BuiltinAction::PrintWorkingDir)));
}

#[test]
fn type_reports_builtins() {
    match run("type", &["echo"]) {
        Ok(BuiltinAction::Write(t)) => assert_eq!(t, "echo is a shell builtin\n"),
        other => panic!("unexpected {:?}", other),
    }
    match run("type", &["ls"]) {
        Ok(BuiltinAction::LookUp(n)) => assert_eq!(n, "ls"),
        other => panic!("unexpected {:?}", other),
    }
    match run("type", &[]) {
        Err(ShellError::InternalError(m)) => assert_eq!(m, "need at least one argument"),
        other => panic!("unexpected {:?}", other),
    }
}

#[test]
fn type_report_uses_the_search_result() {
    assert_eq!(type_report("ls", Some("/bin/ls\n".to_string())).unwrap(), "ls is /bin/ls\n");
    assert!(matches!(type_report("nope", None), Err(ShellError::CommandNotFound(n)) if n == "nope"));
    assert!(matches!(type_report("nope", Some(String::new())), Err(ShellError::CommandNotFound(n)) if n == "nope"));
}

#[test]
fn cd_without_arguments_goes_home() {
    assert!(matches!(run("cd", &[]), Ok(BuiltinAction::ChangeDir(CdTarget::Home))));
    assert!(matches!(run("cd", &["~"]), Ok(BuiltinAction::ChangeDir(CdTarget::Home))));
}

#[test]
fn cd_resolves_paths_under_home() {
    match run("cd", &["~/src/x"]) {
        Ok(BuiltinAction::ChangeDir(CdTarget::UnderHome(p))) => assert_eq!(p, "src/x"),
        other => panic!("unexpected {:?}", other),
    }
    match run("cd", &["/tmp"]) {
        Ok(BuiltinAction::ChangeDir(CdTarget::Path(p))) => assert_eq!(p, "/tmp"),
        other => panic!("unexpected {:?}", other),
    }
    match run("cd", &["-"]) {
        Ok(BuiltinAction::ChangeDir(CdTarget::Path(p))) => assert_eq!(p, "-"),
        other => panic!("unexpected {:?}", other),
    }
    match run("cd", &["~x"]) {
        Ok(BuiltinAction::ChangeDir(CdTarget::Path(p))) => assert_eq!(p, "~x"),
        other => panic!("unexpected {:?}", other),
    }
}

#[test]
fn cd_refuses_several_arguments() {
    match run("cd", &["a", "b"]) {
        Err(ShellError::InternalError(m)) => assert_eq!(m, "cd: too many arguments"),
        other => panic!("unexpected {:?}", other),
    }
}

#[test]
fn unknown_builtin_is_not_found() {
    match run("doesnotexist123", &["arg"]) {
        Err(ShellError::CommandNotFound(n)) => assert_eq!(n, "doesnotexist123"),
        other => panic!("unexpected {:?}", other),
    }
}
