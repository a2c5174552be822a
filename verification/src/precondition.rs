//! The project precondition: a command that must succeed before linting.
use vstd::prelude::*;
use crate::config::PreconditionConfig;
use crate::text::{push_str, trim, trimmed};

verus! {

/// A failed precondition: the files it skipped and what the command said.
#[derive(Clone, Debug)]
pub struct PreconditionFailure {
    pub files: Vec<String>,
    pub command: Vec<String>,
    /// The exit code; `None` when a signal ended the command.
    pub status: Option<i32>,
    pub output: String,
}

/// The configured precondition command.
pub struct CommandPrecondition {
    config: PreconditionConfig,
}

impl CommandPrecondition {
    /// The configuration that the precondition runs.
    pub closed spec fn spec_config(&self) -> PreconditionConfig {
        self.config
    }

    pub fn new(config: PreconditionConfig) -> (r: Self)
        ensures
            r.spec_config() == config,
    {
        CommandPrecondition { config }
    }

    /// The program and its arguments.
    pub fn program_and_args(&self) -> (r: (String, Vec<String>))
        requires
            self.spec_config().command@.len() > 0,
        ensures
            r.0@ == self.spec_config().command@[0]@,
            r.1@.len() == self.spec_config().command@.len() - 1,
            forall|i: int| 0 <= i < r.1@.len() ==> #[trigger] r.1@[i]@ == self.spec_config().command@[i + 1]@,
    {
        let command = &self.config.command;
        let program = command[0].clone();
        let mut args: Vec<String> = Vec::new();
        let mut i: usize = 1;
        while i < command.len()
            invariant
                1 <= i <= command@.len(),
                args@.len() == i - 1,
                forall|j: int| 0 <= j < args@.len() ==> #[trigger] args@[j]@ == command@[j + 1]@,
            decreases command@.len() - i,
        {
            args.push(command[i].clone());
            i += 1;
        }
        (program, args)
    }

    /// What the precondition reports once the command has finished: nothing
    /// when it succeeded; otherwise every selected file as skipped, the
    /// command, its exit code, and its standard output followed by its
    /// standard error, trimmed.
    pub fn outcome(&self, files: &Vec<String>, success: bool, status: Option<i32>, stdout: &str, stderr: &str) -> (r: Option<PreconditionFailure>)
        ensures
            r is None <==> success,
            r matches Some(f) ==> {
                &&& f.files@ == files@
                &&& f.command@ == self.spec_config().command@
                &&& f.status == status
                &&& f.output@ == trim(stdout@ + stderr@)
            },
    {
        if success {
            return None;
        }
        let mut both = String::new();
        push_str(&mut both, stdout);
        push_str(&mut both, stderr);
        Some(PreconditionFailure {
            files: crate::text::clone_strings(files),
            command: crate::text::clone_strings(&self.config.command),
            status,
            output: trimmed(both.as_str()),
        })
    }
}

} // verus!
