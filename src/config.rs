use vstd::prelude::*;
use vstd::string::*;

verus! {

/// A configuration error found before anything runs.
#[derive(Debug, PartialEq)]
pub enum Error {
    /// No template carries the entrypoint's name.
    UnknownEntrypoint(String),
    /// A task refers to a template that does not exist.
    UnknownTemplate(String),
    /// Two templates carry the same name.
    DuplicateTemplate(String),
    /// Templates that refer to each other in a loop; the first name comes back at the end.
    Cycle(Vec<String>),
}

/// Names joined by arrows: `a -> b -> a`.
pub open spec fn arrow_join(names: Seq<String>) -> Seq<char>
    decreases names.len(),
{
    if names.len() == 0 {
        Seq::empty()
    } else if names.len() == 1 {
        names[0]@
    } else {
        arrow_join(names.drop_last()) + " -> "@ + names.last()@
    }
}

/// The text of an error.
pub open spec fn error_text(e: Error) -> Seq<char> {
    match e {
        Error::UnknownEntrypoint(n) => "invalid entrypoint, no template names '"@ + n@ + "'"@,
        Error::UnknownTemplate(n) => "invalid template, no template names '"@ + n@ + "'"@,
        Error::DuplicateTemplate(n) => "invalid templates, two templates named '"@ + n@ + "'"@,
        Error::Cycle(names) => "invalid templates, they refer to each other in a loop: "@ + arrow_join(names@),
    }
}

impl Error {
    /// What went wrong, for a person to read.
    pub fn message(&self) -> (r: String)
        ensures
            r@ == error_text(*self),
    {
        match self {
            Error::UnknownEntrypoint(n) => quoted("invalid entrypoint, no template names '", n),
            Error::UnknownTemplate(n) => quoted("invalid template, no template names '", n),
            Error::DuplicateTemplate(n) => quoted("invalid templates, two templates named '", n),
            Error::Cycle(names) => {
                let mut r = String::from_str("invalid templates, they refer to each other in a loop: ");
                let ghost head = r@;
                let mut i: usize = 0;
                while i < names.len()
                    invariant
                        0 <= i <= names.len(),
                        r@ == head + arrow_join(names@.subrange(0, i as int)),
                    decreases names.len() - i,
                {
                    proof {
                        reveal_strlit(" -> ");
                        let sub = names@.subrange(0, i + 1);
                        assert(sub.drop_last() =~= names@.subrange(0, i as int));
                        if i == 0 {
                            assert(names@.subrange(0, 0) =~= Seq::<String>::empty());
                        }
                    }
                    if i > 0 {
                        r.append(" -> ");
                    }
                    r.append(names[i].as_str());
                    proof {
                        assert(r@ =~= head + arrow_join(names@.subrange(0, i + 1)));
                    }
                    i = i + 1;
                }
                proof {
                    assert(names@.subrange(0, names.len() as int) =~= names@);
                }
                r
            },
        }
    }
}

fn quoted(prefix: &str, n: &String) -> (r: String)
    ensures
        r@ == prefix@ + n@ + "'"@,
{
    let mut r = String::from_str(prefix);
    r.append(n.as_str());
    r.append("'");
    r
}

/// A job: named templates and the one to start from.
#[derive(Debug)]
pub struct JobConfig {
    /// job name
    pub name: String,
    /// the template the job starts from
    pub entrypoint: String,
    /// the most leaf tasks that may run at one time in the whole job
    pub parallelism: Option<i32>,
    /// the templates, by name
    pub templates: Vec<(String, Template)>,
}

/// A named unit of work: stages that run one after the other, each a group of
/// tasks that run side by side.
#[derive(Debug)]
pub struct Template {
    /// the most direct children that may run at one time
    pub parallelism: Option<i32>,
    /// the stages, in order
    pub tasks: Vec<Vec<TaskConfig>>,
}

/// The tags of a task, used to select which tasks run.
#[derive(Debug, Default)]
pub struct TaskLabels(pub Vec<String>);

/// One task of a stage.
#[derive(Debug)]
pub struct TaskConfig {
    pub name: String,
    pub labels: TaskLabels,
    pub kind: TaskKind,
}

/// What a task does: run another template, or run a script.
#[derive(Debug)]
pub enum TaskKind {
    Template {
        /// template name
        template: String,
    },
    Script {
        /// script body
        script: String,
        /// the interpreter
        executor: String,
        /// arguments for the interpreter, before the script file
        executor_args: Vec<String>,
        /// the directory the script runs in
        working_dir: String,
    },
}

/// The directory a script runs in when none is given.
pub fn default_working_dir() -> (r: String)
    ensures
        r@ == seq!['.'],
{
    let r = String::from_str(".");
    proof {
        reveal_strlit(".");
    }
    r
}

/// The interpreter a script runs under when none is given.
pub fn default_executor() -> (r: String)
    ensures
        r@ == seq!['b', 'a', 's', 'h'],
{
    let r = String::from_str("bash");
    proof {
        reveal_strlit("bash");
    }
    r
}

pub open spec fn task_ref(t: TaskConfig) -> Option<Seq<char>> {
    match t.kind {
        TaskKind::Template { template } => Some(template@),
        _ => None,
    }
}

impl JobConfig {
    pub open spec fn name_of(self, i: int) -> Seq<char> {
        self.templates[i].0@
    }

    pub open spec fn has_template(self, name: Seq<char>) -> bool {
        exists|i: int| 0 <= i < self.templates.len() && self.name_of(i) == name
    }

    /// The task at stage `s`, place `k` of template `i`.
    pub open spec fn task(self, i: int, s: int, k: int) -> TaskConfig {
        self.templates[i].1.tasks[s][k]
    }

    pub open spec fn task_at(self, i: int, s: int, k: int) -> bool {
        &&& 0 <= i < self.templates.len()
        &&& 0 <= s < self.templates[i].1.tasks.len()
        &&& 0 <= k < self.templates[i].1.tasks[s].len()
    }

    /// Every template reference names an existing template.
    pub open spec fn refs_resolve(self) -> bool {
        forall|i: int, s: int, k: int|
            self.task_at(i, s, k) && task_ref(#[trigger] self.task(i, s, k)) is Some ==> self.has_template(
                task_ref(self.task(i, s, k))->0,
            )
    }

    /// No two templates carry the same name.
    pub open spec fn unique_names(self) -> bool {
        forall|i: int, j: int| 0 <= i < j < self.templates.len() ==> self.name_of(i) != self.name_of(j)
    }

    /// Template `i` has a task that refers to template `j`.
    pub open spec fn refers(self, i: int, j: int) -> bool {
        &&& 0 <= j < self.templates.len()
        &&& exists|s: int, k: int| self.task_at(i, s, k) && task_ref(#[trigger] self.task(i, s, k)) == Some(self.name_of(j))
    }

    pub open spec fn is_ref_cycle(self, path: Seq<usize>) -> bool {
        &&& path.len() >= 2
        &&& path[0] == path[path.len() - 1]
        &&& forall|k: int| 0 <= k < path.len() - 1 ==> self.refers(#[trigger] path[k] as int, path[k + 1] as int)
    }

    pub open spec fn refs_acyclic(self) -> bool {
        forall|path: Seq<usize>| !self.is_ref_cycle(path)
    }

    /// Everything that must hold before a job runs.
    pub open spec fn valid(self) -> bool {
        &&& self.unique_names()
        &&& self.has_template(self.entrypoint@)
        &&& self.refs_resolve()
        &&& self.refs_acyclic()
    }
}

} // verus!
