use vstd::prelude::*;

use crate::config::{Error, JobConfig, Template};
use crate::engine::{effective_cap, TemplateRun};
use crate::select::eligible;
use crate::status::Phase;

verus! {

/// Admission for one scope that may declare a cap: a task takes a token
/// before it starts and gives it back when it settles.
pub struct TokenPool {
    pub cap: Option<usize>,
    pub in_use: usize,
}

impl TokenPool {
    pub open spec fn wf(self) -> bool {
        self.cap matches Some(c) ==> self.in_use <= c
    }

    /// The most tokens that can be out at once.
    pub open spec fn limit(self) -> nat {
        match self.cap {
            Some(c) => c as nat,
            None => usize::MAX as nat,
        }
    }

    pub fn new(cap: Option<usize>) -> (r: TokenPool)
        ensures
            r.wf(),
            r.cap == cap,
            r.in_use == 0,
    {
        TokenPool { cap, in_use: 0 }
    }

    /// Takes a token where one is free.
    pub fn try_acquire(&mut self) -> (r: bool)
        requires
            old(self).wf(),
        ensures
            final(self).wf(),
            final(self).cap == old(self).cap,
            r == (old(self).in_use < old(self).limit()),
            r ==> final(self).in_use == old(self).in_use + 1,
            !r ==> final(self).in_use == old(self).in_use,
    {
        let limit = match self.cap {
            Some(c) => c,
            None => usize::MAX,
        };
        if self.in_use < limit {
            self.in_use = self.in_use + 1;
            true
        } else {
            false
        }
    }

    /// Gives a token back.
    pub fn release(&mut self)
        requires
            old(self).wf(),
            old(self).in_use > 0,
        ensures
            final(self).wf(),
            final(self).cap == old(self).cap,
            final(self).in_use == old(self).in_use - 1,
    {
        self.in_use = self.in_use - 1;
    }
}

/// A job specification and the decisions made over it.
pub struct Scheduler {
    job_config: JobConfig,
}

impl Scheduler {
    pub closed spec fn config_spec(&self) -> JobConfig {
        self.job_config
    }

    pub fn new(job_config: JobConfig) -> (r: Self)
        ensures
            r.config_spec() == job_config,
    {
        Scheduler { job_config }
    }

    pub fn config(&self) -> (r: &JobConfig)
        ensures
            *r == self.config_spec(),
    {
        &self.job_config
    }

    /// Checks the job before anything runs (see `JobConfig::validate`).
    pub fn check(&self) -> (r: Result<(), Error>)
        ensures
            r is Ok <==> self.config_spec().valid(),
    {
        self.job_config.validate()
    }

    /// The job-wide cap on running script tasks: none where `parallelism` is
    /// absent or below one.
    pub fn job_cap(&self) -> (r: Option<usize>)
        ensures
            r == effective_cap(self.config_spec().parallelism, None),
            r matches Some(c) ==> c >= 1,
    {
        match self.job_config.parallelism {
            Some(p) if p >= 1 => Some(p as usize),
            _ => None,
        }
    }

    /// The first template with the given name.
    pub fn template(&self, name: &String) -> (r: Option<&Template>)
        ensures
            r is None <==> !self.config_spec().has_template(name@),
            r matches Some(t) ==> exists|i: int|
                0 <= i < self.config_spec().templates.len() && self.config_spec().name_of(i) == name@ && *t
                    == self.config_spec().templates[i].1,
    {
        match self.job_config.find_template(name) {
            Some(i) => Some(&self.job_config.templates[i].1),
            None => None,
        }
    }

    /// Starts a run of the named template with the selection given and the
    /// cap it inherits; `None` where no template has that name.
    pub fn start_template(&self, name: &String, wanted: &Vec<String>, exclude: &Vec<String>, inherited: Option<usize>) -> (r:
        Option<TemplateRun>)
        ensures
            r is None <==> !self.config_spec().has_template(name@),
            r matches Some(run) ==> run.wf() && exists|i: int|
                0 <= i < self.config_spec().templates.len() && self.config_spec().name_of(i) == name@ && {
                    let t = self.config_spec().templates[i].1;
                    &&& run.cap == effective_cap(t.parallelism, inherited)
                    &&& run.num_stages() == t.tasks.len()
                    &&& forall|s: int| 0 <= s < run.num_stages() ==> (#[trigger] run.stage(s)).len() == t.tasks[s].len()
                    &&& forall|s: int, k: int| 0 <= s < run.num_stages() && 0 <= k < t.tasks[s].len() ==> #[trigger] run.stage(s)[k]
                        == if eligible(t.tasks[s][k].labels.0@, wanted@, exclude@) {
                        Phase::Pending
                    } else {
                        Phase::Skipped
                    }
                },
    {
        match self.job_config.find_template(name) {
            Some(i) => {
                let t = &self.job_config.templates[i].1;
                Some(TemplateRun::new(t, wanted, exclude, inherited))
            },
            None => None,
        }
    }
}

} // verus!
