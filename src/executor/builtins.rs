//! The commands that run inside the shell, and what each one asks for.
use vstd::prelude::*;
use vstd::string::*;
use crate::error::ShellError;
use crate::parser::ast::{Command, strings_view};
use crate::shell::Shell;
use crate::text::{decimal_i32, parse_i32, same_text};

verus! {

/// The commands that the shell runs itself.
#[derive(Debug, Clone, Copy, PartialEq, Eq, Structural)]
pub enum Builtin {
    Exit,
    Echo,
    Type,
    Pwd,
    Cd,
}

/// The builtin that `name` calls, if any.
pub open spec fn builtin_named(name: Seq<char>) -> Option<Builtin> {
    if name == "exit"@ {
        Some(Builtin::Exit)
    } else if name == "echo"@ {
        Some(Builtin::Echo)
    } else if name == "type"@ {
        Some(Builtin::Type)
    } else if name == "pwd"@ {
        Some(Builtin::Pwd)
    } else if name == "cd"@ {
        Some(Builtin::Cd)
    } else {
        None
    }
}

impl Builtin {
    pub fn from_name(name: &str) -> (r: Option<Builtin>)
        ensures
            r == builtin_named(name@),
    {
        if same_text(name, "exit") {
            Some(Builtin::Exit)
        } else if same_text(name, "echo") {
            Some(Builtin::Echo)
        } else if same_text(name, "type") {
            Some(Builtin::Type)
        } else if same_text(name, "pwd") {
            Some(Builtin::Pwd)
        } else if same_text(name, "cd") {
            Some(Builtin::Cd)
        } else {
            None
        }
    }
}

/// Whether `program` names a builtin; dispatch uses the same names.
pub fn is_builtin(program: &str) -> (r: bool)
    ensures
        r == builtin_named(program@) is Some,
{
    Builtin::from_name(program).is_some()
}

/// Where `cd` goes.
#[derive(Debug, Clone)]
pub enum CdTarget {
    /// The home directory.
    Home,
    /// A path below the home directory (from `~/path`).
    UnderHome(String),
    /// A path as written.
    Path(String),
}

/// What a builtin asks the surrounding program to do.
#[derive(Debug, Clone)]
pub enum BuiltinAction {
    /// End the process with this status.
    Exit(i32),
    /// Write this text to the command's standard output.
    Write(String),
    /// Write the working directory and a line feed to standard output.
    PrintWorkingDir,
    /// Change the working directory.
    ChangeDir(CdTarget),
    /// Look `name` up on the search path and report it (see `type_report`).
    LookUp(String),
}

/// The status that `exit` ends the process with: its first argument as a
/// number, or 0 where there is none or it is not one.
pub open spec fn exit_status(args: Seq<Seq<char>>) -> i32 {
    if args.len() > 0 {
        match decimal_i32(args[0]) {
            Some(v) => v,
            None => 0,
        }
    } else {
        0
    }
}

/// The arguments joined by single spaces.
pub open spec fn joined(args: Seq<Seq<char>>) -> Seq<char>
    decreases args.len(),
{
    if args.len() == 0 {
        seq![]
    } else if args.len() == 1 {
        args[0]
    } else {
        joined(args.drop_last()) + seq![' '] + args.last()
    }
}

/// What `echo` prints: its arguments joined by spaces, and a line feed.
pub open spec fn echo_text(args: Seq<Seq<char>>) -> Seq<char> {
    joined(args) + seq!['\n']
}

pub open spec fn is_internal_error(e: ShellError, msg: Seq<char>) -> bool {
    match e {
        ShellError::InternalError(m) => m@ == msg,
        _ => false,
    }
}

pub open spec fn is_not_found(e: ShellError, name: Seq<char>) -> bool {
    match e {
        ShellError::CommandNotFound(m) => m@ == name,
        _ => false,
    }
}

/// What running builtin `b` with arguments `args` yields.
pub open spec fn builtin_outcome(b: Builtin, args: Seq<Seq<char>>, r: Result<BuiltinAction, ShellError>) -> bool {
    match b {
        Builtin::Exit => r matches Ok(BuiltinAction::Exit(code)) && code == exit_status(args),
        Builtin::Echo => r matches Ok(BuiltinAction::Write(t)) && t@ == echo_text(args),
        Builtin::Pwd => r matches Ok(BuiltinAction::PrintWorkingDir),
        Builtin::Type => if args.len() == 0 {
            r is Err && is_internal_error(r->Err_0, "need at least one argument"@)
        } else if builtin_named(args[0]) is Some {
            r matches Ok(BuiltinAction::Write(t)) && t@ == args[0] + " is a shell builtin\n"@
        } else {
            r matches Ok(BuiltinAction::LookUp(n)) && n@ == args[0]
        },
        Builtin::Cd => if args.len() > 1 {
            r is Err && is_internal_error(r->Err_0, "cd: too many arguments"@)
        } else if args.len() == 0 || args[0] == "~"@ {
            r matches Ok(BuiltinAction::ChangeDir(CdTarget::Home))
        } else if is_prefix_home(args[0]) {
            r matches Ok(BuiltinAction::ChangeDir(CdTarget::UnderHome(p))) && p@ == args[0].skip(2)
        } else {
            r matches Ok(BuiltinAction::ChangeDir(CdTarget::Path(p))) && p@ == args[0]
        },
    }
}

/// `p` starts with `~/`.
pub open spec fn is_prefix_home(p: Seq<char>) -> bool {
    p.len() >= 2 && p[0] == '~' && p[1] == '/'
}

fn echo_output(args: &Vec<String>) -> (r: String)
    ensures
        r@ == echo_text(strings_view(args@)),
{
    let ghost a = strings_view(args@);
    let mut out = String::new();
    let mut i: usize = 0;
    while i < args.len()
        invariant
            a == strings_view(args@),
            i <= args@.len(),
            out@ == joined(a.take(i as int)),
        decreases args@.len() - i,
    {
        assert(a.take(i + 1).drop_last() =~= a.take(i as int));
        if i > 0 {
            out.append(" ");
        }
        out.append(args[i].as_str());
        i = i + 1;
        proof {
            reveal_strlit(" ");
            if i == 1 {
                assert(out@ =~= a.take(1)[0]);
            } else {
                assert(out@ =~= joined(a.take(i as int)));
            }
        }
    }
    assert(a.take(args@.len() as int) =~= a);
    out.append("\n");
    proof { reveal_strlit("\n"); }
    out
}

fn cd_target(arg: &String) -> (r: CdTarget)
    ensures
        arg@ == "~"@ ==> r matches CdTarget::Home,
        arg@ != "~"@ && is_prefix_home(arg@) ==> (r matches CdTarget::UnderHome(p) && p@ == arg@.skip(2)),
        arg@ != "~"@ && !is_prefix_home(arg@) ==> (r matches CdTarget::Path(p) && p@ == arg@),
{
    let raw = arg.as_str();
    if same_text(raw, "~") {
        return CdTarget::Home;
    }
    let n = raw.unicode_len();
    if n >= 2 && raw.get_char(0) == '~' && raw.get_char(1) == '/' {
        CdTarget::UnderHome(String::from_str(raw.substring_char(2, n)))
    } else {
        CdTarget::Path(arg.clone())
    }
}

/// Decides what builtin `command` does; the caller carries it out. A name
/// that is no builtin fails as a command that is not found.
pub fn execute_builtin(shell: &mut Shell, command: &Command) -> (r: Result<BuiltinAction, ShellError>)
    ensures
        final(shell).environment_var@ == old(shell).environment_var@,
        match builtin_named(command.program@) {
            Some(b) => builtin_outcome(b, strings_view(command.arguments@), r),
            None => r is Err && is_not_found(r->Err_0, command.program@),
        },
{
    let args = &command.arguments;
    let ghost a = strings_view(args@);
    match Builtin::from_name(command.program.as_str()) {
        Some(Builtin::Exit) => {
            if args.len() > 0 {
                match parse_i32(args[0].as_str()) {
                    Some(v) => Ok(BuiltinAction::Exit(v)),
                    None => Ok(BuiltinAction::Exit(0)),
                }
            } else {
                Ok(BuiltinAction::Exit(0))
            }
        },
        Some(Builtin::Echo) => Ok(BuiltinAction::Write(echo_output(args))),
        Some(Builtin::Pwd) => Ok(BuiltinAction::PrintWorkingDir),
        Some(Builtin::Type) => {
            if args.len() == 0 {
                return Err(ShellError::InternalError(String::from_str("need at least one argument")));
            }
            let name = args[0].as_str();
            if is_builtin(name) {
                Ok(BuiltinAction::Write(String::from_str(name).concat(" is a shell builtin\n")))
            } else {
                Ok(BuiltinAction::LookUp(args[0].clone()))
            }
        },
        Some(Builtin::Cd) => {
            if args.len() > 1 {
                Err(ShellError::InternalError(String::from_str("cd: too many arguments")))
            } else if args.len() == 0 {
                Ok(BuiltinAction::ChangeDir(CdTarget::Home))
            } else {
                Ok(BuiltinAction::ChangeDir(cd_target(&args[0])))
            }
        },
        None => Err(ShellError::CommandNotFound(command.program.clone())),
    }
}

/// What `type` reports for a name that is no builtin, given the path that a
/// search found for it, if any: `name is path`, or not found where the search
/// found nothing.
pub fn type_report(name: &str, found: Option<String>) -> (r: Result<String, ShellError>)
    ensures
        match found {
            Some(p) if p@.len() > 0 => r is Ok && r->Ok_0@ == name@ + " is "@ + p@,
            _ => r is Err && is_not_found(r->Err_0, name@),
        },
{
    match found {
        Some(p) => {
            if p.unicode_len() > 0 {
                Ok(String::from_str(name).concat(" is ").concat(p.as_str()))
            } else {
                Err(ShellError::CommandNotFound(String::from_str(name)))
            }
        },
        None => Err(ShellError::CommandNotFound(String::from_str(name))),
    }
}

} // verus!
