//! How a pipeline runs: in the shell, or as child processes wired together.
pub mod builtins;

use vstd::prelude::*;
use crate::executor::builtins::{Builtin, builtin_named};
use crate::parser::ast::{Command, CommandView, Pipeline, Redirection, RedirectionView, redirections_view};

verus! {

/// Where a command's standard input comes from.
#[derive(Debug, Clone, Copy, PartialEq, Eq, Structural)]
pub enum Source {
    /// The shell's own standard input.
    Inherit,
    /// The read end of the pipe that the command before it writes to.
    Previous,
    /// The command's input redirection.
    Redirect,
}

/// Where a command's standard output or standard error goes.
#[derive(Debug, Clone, Copy, PartialEq, Eq, Structural)]
pub enum Sink {
    /// The shell's own stream.
    Inherit,
    /// A pipe to the next command.
    Pipe,
    /// The file of the command's output redirection at this index.
    Redirect(usize),
}

/// The three streams of one command of a pipeline.
#[derive(Debug, Clone, Copy, PartialEq, Eq, Structural)]
pub struct Wiring {
    pub stdin: Source,
    pub stdout: Sink,
    pub stderr: Sink,
}

/// How a pipeline runs.
#[derive(Debug, Clone)]
pub enum PipelinePlan {
    /// Nothing to run: the pipeline has no command.
    Nothing,
    /// A single builtin, run inside the shell.
    RunBuiltin(Builtin),
    /// Child processes, one per command, wired as given.
    Spawn(Vec<Wiring>),
}

/// Index of the last redirection of descriptor `fd`: the one that takes effect.
pub open spec fn last_redirect(outs: Seq<RedirectionView>, fd: u32) -> Option<int>
    decreases outs.len(),
{
    if outs.len() == 0 {
        None
    } else if outs.last().fd == fd {
        Some(outs.len() - 1)
    } else {
        last_redirect(outs.drop_last(), fd)
    }
}

/// Where descriptor `fd` of a command with redirections `outs` goes; `piped`
/// when a pipe to the next command would take it.
pub open spec fn sink_spec(outs: Seq<RedirectionView>, fd: u32, piped: bool) -> Sink {
    match last_redirect(outs, fd) {
        Some(i) => Sink::Redirect(i as usize),
        None => if piped {
            Sink::Pipe
        } else {
            Sink::Inherit
        },
    }
}

/// The streams of command `i` of the pipeline `cmds`: a redirection wins over
/// a pipe, every command but the last writes to a pipe, and a command reads
/// from the pipe before it where there is one.
pub open spec fn wiring_spec(cmds: Seq<CommandView>, i: int) -> Wiring {
    let n = cmds.len();
    Wiring {
        stdin: if cmds[i].input is Some {
            Source::Redirect
        } else if i > 0 && sink_spec(cmds[i - 1].outputs, 1, true) == Sink::Pipe {
            Source::Previous
        } else {
            Source::Inherit
        },
        stdout: sink_spec(cmds[i].outputs, 1, i < n - 1),
        stderr: sink_spec(cmds[i].outputs, 2, false),
    }
}

/// The redirection of descriptor `fd` that takes effect among `outputs`, by index.
pub fn last_redirect_of(outputs: &Vec<Redirection>, fd: u32) -> (r: Option<usize>)
    ensures
        match last_redirect(redirections_view(outputs@), fd) {
            Some(i) => r == Some(i as usize),
            None => r is None,
        },
{
    let ghost outs = redirections_view(outputs@);
    let mut i: usize = outputs.len();
    assert(outs.take(i as int) =~= outs);
    while i > 0
        invariant
            outs == redirections_view(outputs@),
            i <= outputs@.len(),
            last_redirect(outs, fd) == last_redirect(outs.take(i as int), fd),
        decreases i,
    {
        let ghost t = outs.take(i as int);
        assert(t.drop_last() =~= outs.take(i - 1));
        if outputs[i - 1].fd == fd {
            return Some(i - 1);
        }
        i = i - 1;
    }
    assert(outs.take(0) =~= Seq::<RedirectionView>::empty());
    None
}

/// Where descriptor `fd` of `command` goes; `piped` when a pipe to the next
/// command would take it.
pub fn sink_for(command: &Command, fd: u32, piped: bool) -> (r: Sink)
    ensures
        r == sink_spec(command@.outputs, fd, piped),
{
    match last_redirect_of(&command.outputs, fd) {
        Some(i) => Sink::Redirect(i),
        None => if piped {
            Sink::Pipe
        } else {
            Sink::Inherit
        },
    }
}

/// Decides how `pipeline` runs: nothing for no command, in the shell for a
/// single builtin, else as child processes with each one's streams wired.
pub fn plan_pipeline(pipeline: &Pipeline) -> (r: PipelinePlan)
    ensures
        pipeline@.len() == 0 ==> r is Nothing,
        pipeline@.len() == 1 && builtin_named(pipeline@[0].program) is Some ==> r
            == PipelinePlan::RunBuiltin(builtin_named(pipeline@[0].program)->Some_0),
        pipeline@.len() > 1 || (pipeline@.len() == 1 && builtin_named(pipeline@[0].program) is None)
            ==> (r matches PipelinePlan::Spawn(ws) && ws@.len() == pipeline@.len()
            && forall|i: int| 0 <= i < ws@.len() ==> ws@[i] == wiring_spec(pipeline@, i)),
{
    let cmds = &pipeline.commands;
    let ghost cv = pipeline@;
    let n = cmds.len();
    if n == 0 {
        return PipelinePlan::Nothing;
    }
    if n == 1 {
        if let Some(b) = Builtin::from_name(cmds[0].program.as_str()) {
            return PipelinePlan::RunBuiltin(b);
        }
    }
    let mut wiring: Vec<Wiring> = Vec::new();
    let mut previous_piped = false;
    let mut i: usize = 0;
    while i < n
        invariant
            cv == pipeline@,
            n == cv.len(),
            n == cmds@.len(),
            cmds == &pipeline.commands,
            i <= n,
            wiring@.len() == i,
            forall|k: int| 0 <= k < i ==> wiring@[k] == wiring_spec(cv, k),
            i > 0 ==> previous_piped == (sink_spec(cv[i - 1].outputs, 1, true) == Sink::Pipe),
        decreases n - i,
    {
        let command = &cmds[i];
        assert(cv[i as int] == command@);
        let stdout = sink_for(command, 1, i + 1 < n);
        let stdin = if command.input.is_some() {
            Source::Redirect
        } else if i > 0 && previous_piped {
            Source::Previous
        } else {
            Source::Inherit
        };
        let stderr = sink_for(command, 2, false);
        wiring.push(Wiring { stdin, stdout, stderr });
        previous_piped = sink_for(command, 1, true) == Sink::Pipe;
        i = i + 1;
    }
    PipelinePlan::Spawn(wiring)
}

/// The status that a pipeline reports: its last command's. Earlier commands'
/// statuses are not reported; a pipeline with no command reports 0.
pub fn pipeline_status(statuses: &Vec<i32>) -> (r: i32)
    ensures
        statuses@.len() > 0 ==> r == statuses@.last(),
        statuses@.len() == 0 ==> r == 0,
{
    if statuses.len() > 0 {
        statuses[statuses.len() - 1]
    } else {
        0
    }
}

} // verus!
