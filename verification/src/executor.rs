//! Where each command of a pipeline reads from and writes to.
//!
//! Opening files, spawning processes and waiting for them is left to the
//! caller, which follows the plan made here.

use vstd::prelude::*;
use crate::parser::{opt_view, SimpleCommand, SpecSimpleCommand};

verus! {

/// Where a command reads its standard input from.
#[derive(Debug, PartialEq)]
pub enum StdinSource {
    /// The shell's own standard input.
    Inherit,
    /// The output of the command before it in the pipeline.
    PreviousStage,
    /// A file opened for reading.
    File(String),
}

/// Where a command writes its standard output to.
#[derive(Debug, PartialEq)]
pub enum StdoutTarget {
    /// The shell's own standard output.
    Inherit,
    /// A pipe to the command after it in the pipeline.
    NextStage,
    /// A file created (or truncated) for writing.
    Truncate(String),
    /// A file opened for appending, created if missing.
    Append(String),
}

/// The input and output of one command.
#[derive(Debug, PartialEq)]
pub struct StageIo {
    pub stdin: StdinSource,
    pub stdout: StdoutTarget,
    /// A `>` target that is created (truncating it) although a `>>` target of
    /// the same command takes the output.
    pub also_create: Option<String>,
}

pub enum SpecStdin {
    Inherit,
    PreviousStage,
    File(Seq<char>),
}

pub enum SpecStdout {
    Inherit,
    NextStage,
    Truncate(Seq<char>),
    Append(Seq<char>),
}

pub struct SpecStageIo {
    pub stdin: SpecStdin,
    pub stdout: SpecStdout,
    pub also_create: Option<Seq<char>>,
}

impl View for StageIo {
    type V = SpecStageIo;

    open spec fn view(&self) -> SpecStageIo {
        SpecStageIo {
            stdin: match &self.stdin {
                StdinSource::Inherit => SpecStdin::Inherit,
                StdinSource::PreviousStage => SpecStdin::PreviousStage,
                StdinSource::File(p) => SpecStdin::File(p@),
            },
            stdout: match &self.stdout {
                StdoutTarget::Inherit => SpecStdout::Inherit,
                StdoutTarget::NextStage => SpecStdout::NextStage,
                StdoutTarget::Truncate(p) => SpecStdout::Truncate(p@),
                StdoutTarget::Append(p) => SpecStdout::Append(p@),
            },
            also_create: opt_view(self.also_create),
        }
    }
}

/// The input and output of command `c`: a `<` file wins over the pipe from
/// the previous command (which there is only when `previous_pipes`); a `>>`
/// file wins over a `>` file, which wins over the pipe to the next command
/// (which there is unless `is_last`).
pub open spec fn spec_stage_io(c: SpecSimpleCommand, previous_pipes: bool, is_last: bool) -> SpecStageIo {
    SpecStageIo {
        stdin: match c.stdin_redirect {
            Some(p) => SpecStdin::File(p),
            None => if previous_pipes {
                SpecStdin::PreviousStage
            } else {
                SpecStdin::Inherit
            },
        },
        stdout: match c.append_redirect {
            Some(p) => SpecStdout::Append(p),
            None => match c.stdout_redirect {
                Some(p) => SpecStdout::Truncate(p),
                None => if is_last {
                    SpecStdout::Inherit
                } else {
                    SpecStdout::NextStage
                },
            },
        },
        also_create: if c.append_redirect is Some {
            c.stdout_redirect
        } else {
            None
        },
    }
}

fn clone_opt(o: &Option<String>) -> (r: Option<String>)
    ensures
        opt_view(r) == opt_view(*o),
{
    match o {
        Some(s) => Some(s.clone()),
        None => None,
    }
}

/// The input and output of one command; `previous_pipes` tells whether the
/// command before it sends its output down the pipe, `is_last` whether a
/// command follows it.
pub fn stage_io(command: &SimpleCommand, previous_pipes: bool, is_last: bool) -> (io: StageIo)
    ensures
        io@ == spec_stage_io(command@, previous_pipes, is_last),
{
    let stdin = match &command.stdin_redirect {
        Some(p) => StdinSource::File(p.clone()),
        None => if previous_pipes {
            StdinSource::PreviousStage
        } else {
            StdinSource::Inherit
        },
    };
    let stdout = match &command.append_redirect {
        Some(p) => StdoutTarget::Append(p.clone()),
        None => match &command.stdout_redirect {
            Some(p) => StdoutTarget::Truncate(p.clone()),
            None => if is_last {
                StdoutTarget::Inherit
            } else {
                StdoutTarget::NextStage
            },
        },
    };
    let also_create = if command.append_redirect.is_some() {
        clone_opt(&command.stdout_redirect)
    } else {
        None
    };
    StageIo { stdin, stdout, also_create }
}

/// The plan of a whole pipeline: each command after the first reads from the
/// pipe of the one before it unless that one's output went to a file.
pub fn plan_pipeline(commands: &[SimpleCommand]) -> (plan: Vec<StageIo>)
    ensures
        plan@.len() == commands@.len(),
        forall|i: int|
            0 <= i < plan@.len() ==> (#[trigger] plan@[i])@ == spec_stage_io(
                commands@[i]@,
                i > 0 && plan@[i - 1]@.stdout is NextStage,
                i == commands@.len() - 1,
            ),
{
    let n = commands.len();
    let mut plan: Vec<StageIo> = Vec::new();
    let mut i: usize = 0;
    while i < n
        invariant
            n == commands@.len(),
            i <= n,
            plan@.len() == i,
            forall|j: int|
                0 <= j < i ==> (#[trigger] plan@[j])@ == spec_stage_io(
                    commands@[j]@,
                    j > 0 && plan@[j - 1]@.stdout is NextStage,
                    j == n - 1,
                ),
        decreases n - i,
    {
        let previous_pipes = i > 0 && match plan[i - 1].stdout {
            StdoutTarget::NextStage => true,
            _ => false,
        };
        let io = stage_io(&commands[i], previous_pipes, i == n - 1);
        plan.push(io);
        i = i + 1;
    }
    plan
}

/// In a pipeline, every command but the last sends its output down the pipe
/// or to a file, and only the last one's output, when not redirected, goes to
/// the shell's output.
pub proof fn law_only_last_stage_inherits_stdout(c: SpecSimpleCommand, previous_pipes: bool, is_last: bool)
    ensures
        (spec_stage_io(c, previous_pipes, is_last).stdout is Inherit) <==> (is_last
            && c.append_redirect is None && c.stdout_redirect is None),
        (spec_stage_io(c, previous_pipes, is_last).stdout is NextStage) <==> (!is_last
            && c.append_redirect is None && c.stdout_redirect is None),
{
}


/// Redirections take the command's input and output: a `<` file is read, a
/// `>>` file is appended to (even when there is also a `>` target, which is
/// then only created), a `>` file alone is truncated and written.
pub proof fn law_redirections_take_the_streams(c: SpecSimpleCommand, previous_pipes: bool, is_last: bool)
    ensures
        c.stdin_redirect matches Some(p) ==> spec_stage_io(c, previous_pipes, is_last).stdin == SpecStdin::File(p),
        c.append_redirect matches Some(p) ==> spec_stage_io(c, previous_pipes, is_last).stdout == SpecStdout::Append(p),
        c.append_redirect matches Some(p) ==> spec_stage_io(c, previous_pipes, is_last).also_create == c.stdout_redirect,
        c.append_redirect is None ==> (c.stdout_redirect matches Some(p) ==> spec_stage_io(c, previous_pipes, is_last).stdout == SpecStdout::Truncate(p)),
        c.append_redirect is None ==> spec_stage_io(c, previous_pipes, is_last).also_create is None,
        c.stdin_redirect is None ==> (spec_stage_io(c, previous_pipes, is_last).stdin is PreviousStage <==> previous_pipes),
{
}

} // verus!
