use vstd::prelude::*;
use vstd::string::*;

use crate::config::{TaskConfig, TaskKind};
use crate::status::Phase;

verus! {

/// How the process of a script task ended.
#[derive(Debug)]
pub enum RunOutcome {
    /// The process ran; `code` is its exit code, or `None` where a signal
    /// ended it. `stderr` is what it wrote there.
    Exited { code: Option<i32>, stderr: String },
    /// The process could not be started: the scratch file could not be
    /// written, or the spawn failed. `reason` says why.
    NotStarted { reason: String },
}

/// A script task and where its run stands.
#[derive(Debug)]
pub struct Task {
    pub name: String,
    pub script: String,
    pub executor: String,
    pub executor_args: Vec<String>,
    pub working_dir: String,
    pub status_phase: Phase,
    pub failed_reason: String,
}

/// The phase an outcome settles a task to: success only on exit code zero.
pub open spec fn outcome_phase(o: RunOutcome) -> Phase {
    match o {
        RunOutcome::Exited { code: Some(c), .. } if c == 0 => Phase::Succeeded,
        _ => Phase::Failed,
    }
}

/// The failure reason an outcome leaves: the captured stderr, or why the
/// process did not start; nothing on success.
pub open spec fn outcome_reason(o: RunOutcome) -> Seq<char> {
    match o {
        RunOutcome::Exited { code: Some(c), .. } if c == 0 => Seq::empty(),
        RunOutcome::Exited { stderr, .. } => stderr@,
        RunOutcome::NotStarted { reason } => reason@,
    }
}

/// The interpreter arguments, each after a space.
pub open spec fn args_text(args: Seq<String>) -> Seq<char>
    decreases args.len(),
{
    if args.len() == 0 {
        Seq::empty()
    } else {
        args_text(args.drop_last()) + seq![' '] + args.last()@
    }
}

/// The shell text that runs a script file: change to the working directory
/// and, only where that worked, run the interpreter with its arguments and
/// the file. A directory that cannot be entered fails the command.
pub open spec fn command_text(wd: Seq<char>, executor: Seq<char>, args: Seq<String>, path: Seq<char>) -> Seq<char> {
    seq!['c', 'd', ' '] + wd + seq![' ', '&', '&', ' '] + executor + args_text(args) + seq![' '] + path + seq!['\n']
}

fn clone_strings(v: &Vec<String>) -> (r: Vec<String>)
    ensures
        r.len() == v.len(),
        forall|i: int| 0 <= i < v.len() ==> #[trigger] r[i]@ == v[i]@,
{
    let mut r: Vec<String> = Vec::new();
    let mut i: usize = 0;
    while i < v.len()
        invariant
            0 <= i <= v.len(),
            r.len() == i,
            forall|m: int| 0 <= m < i ==> #[trigger] r[m]@ == v[m]@,
        decreases v.len() - i,
    {
        r.push(v[i].clone());
        i = i + 1;
    }
    r
}

impl Task {
    /// Every field but the phase and the failure reason is the same.
    pub open spec fn same_task(self, other: Task) -> bool {
        &&& self.name == other.name
        &&& self.script == other.script
        &&& self.executor == other.executor
        &&& self.executor_args == other.executor_args
        &&& self.working_dir == other.working_dir
    }

    /// The task that runs the script of `config`; `None` for a template
    /// reference. It starts pending, with no failure reason.
    pub fn from_config(config: &TaskConfig) -> (r: Option<Task>)
        ensures
            r is Some <==> config.kind is Script,
            r matches Some(t) ==> t.status_phase == Phase::Pending && t.failed_reason@.len() == 0 && t.name@ == config.name@
                && match config.kind {
                TaskKind::Script { script, executor, executor_args, working_dir } => t.script@ == script@ && t.executor@
                    == executor@ && t.working_dir@ == working_dir@ && t.executor_args.len() == executor_args.len() && forall|i: int|
                    0 <= i < executor_args.len() ==> #[trigger] t.executor_args[i]@ == executor_args[i]@,
                _ => false,
            },
    {
        match &config.kind {
            TaskKind::Script { script, executor, executor_args, working_dir } => Some(
                Task {
                    name: config.name.clone(),
                    script: script.clone(),
                    executor: executor.clone(),
                    executor_args: clone_strings(executor_args),
                    working_dir: working_dir.clone(),
                    status_phase: Phase::Pending,
                    failed_reason: String::new(),
                },
            ),
            TaskKind::Template { .. } => None,
        }
    }

    /// The task's process is starting: pending becomes running.
    pub fn start(&mut self)
        requires
            old(self).status_phase is Pending,
        ensures
            final(self).status_phase is Running,
            final(self).failed_reason == old(self).failed_reason,
            final(self).same_task(*old(self)),
    {
        self.status_phase = Phase::Running;
    }

    /// Settles the running task by how its process ended: exit code zero
    /// succeeds; any other code, a signal or a failed start fails, with the
    /// captured stderr or the start error as the reason.
    pub fn finish(&mut self, outcome: RunOutcome)
        requires
            old(self).status_phase is Running,
        ensures
            final(self).status_phase == outcome_phase(outcome),
            final(self).failed_reason@ == outcome_reason(outcome),
            old(self).status_phase.step(final(self).status_phase),
            final(self).same_task(*old(self)),
    {
        match outcome {
            RunOutcome::Exited { code, stderr } => {
                match code {
                    Some(c) => {
                        if c == 0 {
                            self.status_phase = Phase::Succeeded;
                            self.failed_reason = String::new();
                            return;
                        }
                    },
                    None => {},
                }
                self.status_phase = Phase::Failed;
                self.failed_reason = stderr;
            },
            RunOutcome::NotStarted { reason } => {
                self.status_phase = Phase::Failed;
                self.failed_reason = reason;
            },
        }
    }

    /// The command for `bash -c`: enter the working directory, then call the interpreter on `path`.
    pub fn command_line(&self, path: &str) -> (r: String)
        ensures
            r@ == command_text(self.working_dir@, self.executor@, self.executor_args@, path@),
    {
        proof {
            reveal_strlit("cd ");
            reveal_strlit(" && ");
            reveal_strlit("\n");
            reveal_strlit(" ");
        }
        let mut r = String::from_str("cd ");
        r.append(self.working_dir.as_str());
        r.append(" && ");
        r.append(self.executor.as_str());
        let ghost head = r@;
        let mut i: usize = 0;
        while i < self.executor_args.len()
            invariant
                0 <= i <= self.executor_args.len(),
                r@ == head + args_text(self.executor_args@.subrange(0, i as int)),
            decreases self.executor_args.len() - i,
        {
            proof {
                reveal_strlit(" ");
                let sub = self.executor_args@.subrange(0, i + 1);
                assert(sub.drop_last() =~= self.executor_args@.subrange(0, i as int));
            }
            r.append(" ");
            r.append(self.executor_args[i].as_str());
            proof {
                assert(r@ =~= head + args_text(self.executor_args@.subrange(0, i + 1)));
            }
            i = i + 1;
        }
        proof {
            assert(self.executor_args@.subrange(0, self.executor_args.len() as int) =~= self.executor_args@);
        }
        r.append(" ");
        r.append(path);
        r.append("\n");
        proof {
            assert(r@ =~= command_text(self.working_dir@, self.executor@, self.executor_args@, path@));
        }
        r
    }
}

/// The exit code of the whole job: zero only when it succeeded.
pub fn exit_code(phase: Phase) -> (r: i32)
    ensures
        r == 0 <==> phase is Succeeded,
        r == 0 || r == 1,
{
    match phase {
        Phase::Succeeded => 0,
        _ => 1,
    }
}

} // verus!
