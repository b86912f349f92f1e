//! Commands and pipelines, as the parser builds them and the executor runs them.
use vstd::prelude::*;

verus! {

/// A request to replace descriptor `fd` of a command with the file `path`,
/// opened for appending or truncated.
#[derive(Debug, Clone)]
pub struct Redirection {
    pub path: String,
    pub fd: u32,
    pub append: bool,
}

pub struct RedirectionView {
    pub path: Seq<char>,
    pub fd: u32,
    pub append: bool,
}

impl View for Redirection {
    type V = RedirectionView;

    open spec fn view(&self) -> RedirectionView {
        RedirectionView { path: self.path@, fd: self.fd, append: self.append }
    }
}

/// One program with its arguments and redirections.
#[derive(Debug, Clone)]
pub struct Command {
    pub program: String,
    pub arguments: Vec<String>,
    /// The file that descriptor 0 reads from, if redirected.
    pub input: Option<String>,
    /// Output redirections in the order written; for each descriptor the last one wins.
    pub outputs: Vec<Redirection>,
}

pub struct CommandView {
    pub program: Seq<char>,
    pub arguments: Seq<Seq<char>>,
    pub input: Option<Seq<char>>,
    pub outputs: Seq<RedirectionView>,
}

pub open spec fn strings_view(v: Seq<String>) -> Seq<Seq<char>> {
    v.map_values(|s: String| s@)
}

pub open spec fn option_view(o: Option<String>) -> Option<Seq<char>> {
    match o {
        Some(s) => Some(s@),
        None => None,
    }
}

pub open spec fn redirections_view(v: Seq<Redirection>) -> Seq<RedirectionView> {
    v.map_values(|r: Redirection| r@)
}

impl View for Command {
    type V = CommandView;

    open spec fn view(&self) -> CommandView {
        CommandView {
            program: self.program@,
            arguments: strings_view(self.arguments@),
            input: option_view(self.input),
            outputs: redirections_view(self.outputs@),
        }
    }
}

/// Commands that run side by side, each one's output feeding the next one's input.
#[derive(Debug, Clone)]
pub struct Pipeline {
    pub commands: Vec<Command>,
}

pub open spec fn commands_view(v: Seq<Command>) -> Seq<CommandView> {
    v.map_values(|c: Command| c@)
}

impl View for Pipeline {
    type V = Seq<CommandView>;

    open spec fn view(&self) -> Seq<CommandView> {
        commands_view(self.commands@)
    }
}

pub open spec fn pipelines_view(v: Seq<Pipeline>) -> Seq<Seq<CommandView>> {
    v.map_values(|p: Pipeline| p@)
}

} // verus!
