use vstd::prelude::*;

use crate::config::{TaskConfig, Template};
use crate::select::{eligible, is_eligible};
use crate::status::{aggregate, aggregate_spec, all_terminal, has_phase, Phase};

verus! {

pub open spec fn count_running(s: Seq<Phase>) -> nat
    decreases s.len(),
{
    if s.len() == 0 {
        0
    } else {
        count_running(s.drop_last()) + if s.last() is Running { 1nat } else { 0nat }
    }
}

pub proof fn lemma_count_update(s: Seq<Phase>, i: int, p: Phase)
    requires
        0 <= i < s.len(),
    ensures
        count_running(s.update(i, p)) + (if s[i] is Running { 1nat } else { 0nat }) == count_running(s) + (if p is Running { 1nat } else { 0nat }),
    decreases s.len(),
{
    let t = s.update(i, p);
    if i == s.len() - 1 {
        assert(t.drop_last() =~= s.drop_last());
    } else {
        assert(t.drop_last() =~= s.drop_last().update(i, p));
        lemma_count_update(s.drop_last(), i, p);
    }
}

pub proof fn lemma_count_none(s: Seq<Phase>)
    requires
        forall|k: int| 0 <= k < s.len() ==> !(#[trigger] s[k] is Running),
    ensures
        count_running(s) == 0,
    decreases s.len(),
{
    if s.len() > 0 {
        lemma_count_none(s.drop_last());
    }
}

/// Two running slots count two.
pub proof fn lemma_count_two(s: Seq<Phase>, i: int, j: int)
    requires
        0 <= i < s.len(),
        0 <= j < s.len(),
        i != j,
        s[i] is Running,
        s[j] is Running,
    ensures
        count_running(s) >= 2,
{
    let t = s.update(i, Phase::Pending);
    lemma_count_update(s, i, Phase::Pending);
    lemma_count_update(t, j, Phase::Pending);
}

/// The run of one template instance: a phase for each task of each stage,
/// the stage now running, and the cap on its direct children.
pub struct TemplateRun {
    pub phases: Vec<Vec<Phase>>,
    pub current: usize,
    pub cap: Option<usize>,
    pub running: usize,
}

pub open spec fn pending_or_skipped(p: Phase) -> bool {
    p is Pending || p is Skipped
}

impl TemplateRun {
    pub open spec fn stage(self, s: int) -> Seq<Phase> {
        self.phases@[s]@
    }

    pub open spec fn num_stages(self) -> int {
        self.phases@.len() as int
    }

    pub open spec fn done(self) -> bool {
        self.current == self.num_stages()
    }

    /// All that holds of a run while its stages are worked through, but that
    /// the current stage may have settled already.
    pub open spec fn inv_settling(self) -> bool {
        &&& self.current <= self.num_stages()
        &&& forall|s: int| 0 <= s < self.current ==> all_terminal(#[trigger] self.stage(s))
        &&& forall|s: int, k: int|
            self.current < s < self.num_stages() && 0 <= k < self.stage(s).len() ==> pending_or_skipped(
                #[trigger] self.stage(s)[k],
            )
        &&& self.current < self.num_stages() ==> self.running == count_running(self.stage(self.current as int))
        &&& self.done() ==> self.running == 0
        &&& (self.cap matches Some(c) ==> c >= 1 && self.running <= c)
        &&& forall|s: int, t: int, k: int|
            0 <= s < self.current && s < t < self.num_stages() && has_phase(#[trigger] self.stage(s), Phase::Failed) && 0
                <= k < self.stage(t).len() ==> #[trigger] self.stage(t)[k] is Skipped
    }

    /// The run's invariant: also, a stage whose tasks have all settled is
    /// never the current one.
    pub open spec fn wf(self) -> bool {
        &&& self.inv_settling()
        &&& self.current < self.num_stages() ==> !all_terminal(self.stage(self.current as int))
    }

    /// The phase of the template: `Failed` if a task failed, else
    /// `Succeeded` if one succeeded, else `Skipped`.
    pub open spec fn outcome(self) -> Phase {
        aggregate_spec(Seq::new(self.phases@.len(), |s: int| aggregate_spec(self.stage(s))))
    }
}

/// `stage` with slot `k` set to `p`.
fn with_slot(stage: &Vec<Phase>, k: usize, p: Phase) -> (r: Vec<Phase>)
    requires
        k < stage.len(),
    ensures
        r@ == stage@.update(k as int, p),
{
    let mut r: Vec<Phase> = Vec::new();
    let mut i: usize = 0;
    while i < stage.len()
        invariant
            0 <= i <= stage.len(),
            k < stage.len(),
            r@ == stage@.update(k as int, p).subrange(0, i as int),
        decreases stage.len() - i,
    {
        if i == k {
            r.push(p);
        } else {
            r.push(stage[i]);
        }
        i = i + 1;
    }
    assert(stage@.update(k as int, p).subrange(0, stage.len() as int) =~= stage@.update(k as int, p));
    r
}

/// `phases` with every pending slot of the stages after `cur` skipped.
fn skip_after(phases: &Vec<Vec<Phase>>, cur: usize) -> (r: Vec<Vec<Phase>>)
    ensures
        r@.len() == phases@.len(),
        forall|s: int| 0 <= s < phases@.len() ==> (#[trigger] r@[s])@.len() == phases@[s]@.len(),
        forall|s: int, k: int| 0 <= s < phases@.len() && 0 <= k < phases@[s]@.len() ==>
            #[trigger] r@[s]@[k] == if cur < s { skipped_of(phases@[s]@[k]) } else { phases@[s]@[k] },
{
    let mut r: Vec<Vec<Phase>> = Vec::new();
    let mut s: usize = 0;
    while s < phases.len()
        invariant
            0 <= s <= phases.len(),
            r@.len() == s,
            forall|t: int| 0 <= t < s ==> (#[trigger] r@[t])@.len() == phases@[t]@.len(),
            forall|t: int, k: int| 0 <= t < s && 0 <= k < phases@[t]@.len() ==>
                #[trigger] r@[t]@[k] == if cur < t { skipped_of(phases@[t]@[k]) } else { phases@[t]@[k] },
        decreases phases.len() - s,
    {
        if cur < s {
            r.push(skip_pending(&phases[s]));
        } else {
            let stage = &phases[s];
            let mut c: Vec<Phase> = Vec::new();
            let mut k: usize = 0;
            while k < stage.len()
                invariant
                    0 <= k <= stage.len(),
                    c@ == stage@.subrange(0, k as int),
                decreases stage.len() - k,
            {
                c.push(stage[k]);
                k = k + 1;
            }
            assert(c@ =~= stage@);
            r.push(c);
        }
        s = s + 1;
    }
    r
}

/// `stage` with every pending slot skipped.
fn skip_pending(stage: &Vec<Phase>) -> (r: Vec<Phase>)
    ensures
        r.len() == stage.len(),
        forall|k: int| 0 <= k < stage.len() ==> #[trigger] r[k] == if stage[k] is Pending {
            Phase::Skipped
        } else {
            stage[k]
        },
{
    let mut r: Vec<Phase> = Vec::new();
    let mut i: usize = 0;
    while i < stage.len()
        invariant
            0 <= i <= stage.len(),
            r.len() == i,
            forall|k: int| 0 <= k < i ==> #[trigger] r[k] == if stage[k] is Pending {
                Phase::Skipped
            } else {
                stage[k]
            },
        decreases stage.len() - i,
    {
        match stage[i] {
            Phase::Pending => r.push(Phase::Skipped),
            p => r.push(p),
        }
        i = i + 1;
    }
    r
}

/// Whether every slot of `stage` has settled.
fn all_settled(stage: &Vec<Phase>) -> (r: bool)
    ensures
        r == all_terminal(stage@),
{
    let mut i: usize = 0;
    while i < stage.len()
        invariant
            0 <= i <= stage.len(),
            forall|k: int| 0 <= k < i ==> #[trigger] stage@[k].terminal(),
        decreases stage.len() - i,
    {
        if !stage[i].is_terminal() {
            return false;
        }
        i = i + 1;
    }
    true
}

/// The first pending slot of `stage`.
fn first_pending(stage: &Vec<Phase>) -> (r: Option<usize>)
    ensures
        r matches Some(k) ==> k < stage.len() && stage@[k as int] is Pending,
        r is None ==> forall|k: int| 0 <= k < stage.len() ==> !(#[trigger] stage@[k] is Pending),
{
    let mut i: usize = 0;
    while i < stage.len()
        invariant
            0 <= i <= stage.len(),
            forall|k: int| 0 <= k < i ==> !(#[trigger] stage@[k] is Pending),
        decreases stage.len() - i,
    {
        if matches!(stage[i], Phase::Pending) {
            return Some(i);
        }
        i = i + 1;
    }
    None
}

pub open spec fn skipped_of(p: Phase) -> Phase {
    if p is Pending {
        Phase::Skipped
    } else {
        p
    }
}

impl TemplateRun {
    /// The shape of the stages is the same, and a slot that differs went
    /// from pending to skipped in a stage after `from`.
    pub open spec fn skips_only(self, after: TemplateRun, from: int) -> bool {
        &&& after.num_stages() == self.num_stages()
        &&& forall|s: int| 0 <= s < self.num_stages() ==> (#[trigger] after.stage(s)).len() == self.stage(s).len()
        &&& forall|s: int, k: int|
            0 <= s < self.num_stages() && 0 <= k < self.stage(s).len() && #[trigger] after.stage(s)[k] != self.stage(s)[k] ==> {
                &&& from < s
                &&& self.stage(s)[k] is Pending
                &&& after.stage(s)[k] is Skipped
            }
    }

    pub open spec fn no_failure(self) -> bool {
        forall|s: int| 0 <= s < self.num_stages() ==> !has_phase(#[trigger] self.stage(s), Phase::Failed)
    }

    /// Moves past every stage whose tasks have all settled; after a stage
    /// with a failed task, skips every task of the later stages and ends.
    fn advance(&mut self)
        requires
            old(self).inv_settling(),
        ensures
            final(self).wf(),
            final(self).cap == old(self).cap,
            old(self).skips_only(*final(self), old(self).current as int),
            old(self).no_failure() ==> final(self).phases@ == old(self).phases@,
    {
        let ghost start = *self;
        while self.current < self.phases.len() && all_settled(&self.phases[self.current])
            invariant
                self.inv_settling(),
                self.cap == start.cap,
                self.current >= start.current,
                start.skips_only(*self, start.current as int),
                start.no_failure() ==> self.phases@ == start.phases@,
            decreases self.phases.len() - self.current,
        {
            let cur = self.current;
            if aggregate(&self.phases[cur]) == Phase::Failed {
                let ghost mid = *self;
                assert(!start.no_failure());
                self.phases = skip_after(&self.phases, cur);
                self.current = self.phases.len();
                self.running = 0;
                proof {
                    assert(mid.current == cur);
                    assert(all_terminal(mid.stage(cur as int)));
                    assert forall|s: int, k: int| 0 <= s < mid.num_stages() && 0 <= k < mid.stage(s).len() implies
                        #[trigger] self.stage(s)[k] == (if cur < s { Phase::Skipped } else { mid.stage(s)[k] }) by {
                        assert(self.phases@[s]@[k] == if cur < s { skipped_of(mid.phases@[s]@[k]) } else { mid.phases@[s]@[k] });
                        if cur < s {
                            assert(pending_or_skipped(mid.stage(s)[k]));
                        }
                    }
                    assert forall|s: int| 0 <= s < start.num_stages() implies (#[trigger] self.stage(s)).len() == start.stage(s).len() by {
                        assert(mid.stage(s).len() == start.stage(s).len());
                        assert(self.phases@[s]@.len() == mid.phases@[s]@.len());
                    }
                    assert forall|s: int, k: int|
                        0 <= s < start.num_stages() && 0 <= k < start.stage(s).len() && #[trigger] self.stage(s)[k] != start.stage(s)[k] implies {
                            &&& start.current < s
                            &&& start.stage(s)[k] is Pending
                            &&& self.stage(s)[k] is Skipped
                        } by {
                        assert(mid.stage(s).len() == start.stage(s).len());
                        assert(self.stage(s)[k] == (if cur < s { Phase::Skipped } else { mid.stage(s)[k] }));
                        if mid.stage(s)[k] != start.stage(s)[k] {
                            assert(start.current < s && start.stage(s)[k] is Pending && mid.stage(s)[k] is Skipped);
                        } else {
                            assert(cur < s);
                            assert(pending_or_skipped(mid.stage(s)[k]));
                        }
                    }
                    assert forall|s: int, t2: int, k: int|
                        0 <= s < self.current && s < t2 < self.num_stages() && has_phase(#[trigger] self.stage(s), Phase::Failed) && 0
                            <= k < self.stage(t2).len() implies #[trigger] self.stage(t2)[k] is Skipped by {
                        assert(self.stage(t2)[k] == (if cur < t2 { Phase::Skipped } else { mid.stage(t2)[k] }));
                        if t2 <= cur {
                            assert(self.stage(s) =~= mid.stage(s));
                        }
                    }
                    assert forall|s: int| 0 <= s < self.current implies all_terminal(#[trigger] self.stage(s)) by {
                        assert forall|k: int| 0 <= k < self.stage(s).len() implies #[trigger] self.stage(s)[k].terminal() by {
                            assert(self.stage(s)[k] == (if cur < s { Phase::Skipped } else { mid.stage(s)[k] }));
                            if s < cur {
                                assert(all_terminal(mid.stage(s)));
                            }
                        }
                    }
                    assert(self.inv_settling());
                }
            } else {
                let ghost prev = *self;
                self.current = cur + 1;
                self.running = 0;
                proof {
                    assert(self.phases@ == prev.phases@);
                    assert forall|s: int| #[trigger] self.stage(s) == prev.stage(s) by {}
                    assert forall|s: int, t2: int, k: int|
                        0 <= s < self.current && s < t2 < self.num_stages() && has_phase(#[trigger] self.stage(s), Phase::Failed) && 0
                            <= k < self.stage(t2).len() implies #[trigger] self.stage(t2)[k] is Skipped by {
                        assert(s < cur);
                        assert(has_phase(prev.stage(s), Phase::Failed));
                        assert(prev.stage(t2)[k] is Skipped);
                    }
                    assert forall|s: int, k: int|
                        self.current < s < self.num_stages() && 0 <= k < self.stage(s).len() implies pending_or_skipped(
                            #[trigger] self.stage(s)[k]) by {
                        assert(pending_or_skipped(prev.stage(s)[k]));
                    }
                    if self.current < self.num_stages() {
                        let c = self.current as int;
                        assert(self.stage(c) == prev.stage(c));
                        assert forall|k: int| 0 <= k < self.stage(c).len() implies !(#[trigger] self.stage(c)[k] is Running) by {
                            assert(pending_or_skipped(prev.stage(c)[k]));
                        }
                        lemma_count_none(self.stage(c));
                    }
                    assert(!has_phase(prev.stage(cur as int), Phase::Failed));
                    assert forall|s: int| 0 <= s < self.current implies all_terminal(#[trigger] self.stage(s)) by {
                        assert(self.stage(s) == prev.stage(s));
                    }
                    assert(self.inv_settling());
                }
            }
        }
    }
}

pub proof fn lemma_count_bound(s: Seq<Phase>)
    ensures
        count_running(s) <= s.len(),
    decreases s.len(),
{
    if s.len() > 0 {
        lemma_count_bound(s.drop_last());
    }
}

/// The cap of a template run: its own `parallelism` where given and at
/// least one, else the one it inherits. A `parallelism` below one, or an
/// inherited cap of zero, sets no cap, as if it were absent: a cap of zero
/// would never let a task start.
pub open spec fn effective_cap(own: Option<i32>, inherited: Option<usize>) -> Option<usize> {
    if own matches Some(p) && p >= 1 {
        Some(own->0 as usize)
    } else if inherited == Some(0usize) {
        None
    } else {
        inherited
    }
}

/// The phases a stage starts with: pending for the tasks that the selection
/// lets run, skipped for the others.
fn initial_stage(stage: &Vec<TaskConfig>, wanted: &Vec<String>, exclude: &Vec<String>) -> (r: Vec<Phase>)
    ensures
        r.len() == stage.len(),
        forall|k: int| 0 <= k < stage.len() ==> #[trigger] r[k] == if eligible(stage[k].labels.0@, wanted@, exclude@) {
            Phase::Pending
        } else {
            Phase::Skipped
        },
{
    let mut r: Vec<Phase> = Vec::new();
    let mut k: usize = 0;
    while k < stage.len()
        invariant
            0 <= k <= stage.len(),
            r.len() == k,
            forall|m: int| 0 <= m < k ==> #[trigger] r[m] == if eligible(stage[m].labels.0@, wanted@, exclude@) {
                Phase::Pending
            } else {
                Phase::Skipped
            },
        decreases stage.len() - k,
    {
        if is_eligible(&stage[k].labels, wanted, exclude) {
            r.push(Phase::Pending);
        } else {
            r.push(Phase::Skipped);
        }
        k = k + 1;
    }
    r
}

impl TemplateRun {
    /// Starts a run of `template`: tasks that the selection leaves out are
    /// skipped at once, and the run moves to the first stage with a task to
    /// run (or ends, where there is none).
    pub fn new(template: &Template, wanted: &Vec<String>, exclude: &Vec<String>, inherited: Option<usize>) -> (r: TemplateRun)
        requires
        ensures
            r.wf(),
            r.cap == effective_cap(template.parallelism, inherited),
            r.num_stages() == template.tasks.len(),
            forall|s: int| 0 <= s < r.num_stages() ==> (#[trigger] r.stage(s)).len() == template.tasks[s].len(),
            forall|s: int, k: int| 0 <= s < r.num_stages() && 0 <= k < template.tasks[s].len() ==> #[trigger] r.stage(s)[k]
                == if eligible(template.tasks[s][k].labels.0@, wanted@, exclude@) {
                Phase::Pending
            } else {
                Phase::Skipped
            },
    {
        let mut phases: Vec<Vec<Phase>> = Vec::new();
        let mut s: usize = 0;
        while s < template.tasks.len()
            invariant
                0 <= s <= template.tasks.len(),
                phases@.len() == s,
                forall|t: int| 0 <= t < s ==> (#[trigger] phases@[t])@.len() == template.tasks[t].len(),
                forall|t: int, k: int| 0 <= t < s && 0 <= k < template.tasks[t].len() ==> #[trigger] phases@[t]@[k]
                    == if eligible(template.tasks[t][k].labels.0@, wanted@, exclude@) {
                    Phase::Pending
                } else {
                    Phase::Skipped
                },
            decreases template.tasks.len() - s,
        {
            phases.push(initial_stage(&template.tasks[s], wanted, exclude));
            s = s + 1;
        }
        let cap = match template.parallelism {
            Some(p) if p >= 1 => Some(p as usize),
            _ => match inherited {
                Some(0) => None,
                c => c,
            },
        };
        let mut run = TemplateRun { phases, current: 0, cap, running: 0 };
        proof {
            assert forall|t: int, k: int| 0 <= t < run.num_stages() && 0 <= k < run.stage(t).len() implies pending_or_skipped(
                #[trigger] run.stage(t)[k]) by {
                assert(run.stage(t)[k] == phases@[t]@[k]);
            }
            assert forall|t: int| 0 <= t < run.num_stages() implies !has_phase(#[trigger] run.stage(t), Phase::Failed) by {
                if has_phase(run.stage(t), Phase::Failed) {
                    let k = choose|k: int| 0 <= k < run.stage(t).len() && run.stage(t)[k] == Phase::Failed;
                    assert(pending_or_skipped(run.stage(t)[k]));
                }
            }
            if run.num_stages() > 0 {
                assert forall|k: int| 0 <= k < run.stage(0).len() implies !(#[trigger] run.stage(0)[k] is Running) by {
                    assert(pending_or_skipped(run.stage(0)[k]));
                }
                lemma_count_none(run.stage(0));
            }
        }
        let ghost before = run;
        run.advance();
        proof {
            assert forall|t: int| #[trigger] run.stage(t) == before.stage(t) by {}
        }
        run
    }

    /// Whether every stage has been worked through.
    pub fn is_done(&self) -> (r: bool)
        ensures
            r == self.done(),
    {
        self.current == self.phases.len()
    }

    /// Picks a task of the current stage to start, where the cap leaves room:
    /// its slot goes from pending to running.
    pub fn dispatch(&mut self) -> (r: Option<usize>)
        requires
            old(self).wf(),
        ensures
            final(self).wf(),
            final(self).cap == old(self).cap,
            final(self).current == old(self).current,
            final(self).num_stages() == old(self).num_stages(),
            r matches Some(k) ==> {
                &&& !old(self).done()
                &&& k < old(self).stage(old(self).current as int).len()
                &&& old(self).stage(old(self).current as int)[k as int] is Pending
                &&& final(self).running == old(self).running + 1
                &&& forall|s: int| 0 <= s < old(self).num_stages() ==> #[trigger] final(self).stage(s) == if s == old(self).current {
                    old(self).stage(s).update(k as int, Phase::Running)
                } else {
                    old(self).stage(s)
                }
            },
            r is None ==> final(self).phases@ == old(self).phases@ && final(self).running == old(self).running && (old(self).done()
                || (old(self).cap matches Some(c) && old(self).running >= c) || forall|k: int|
                0 <= k < old(self).stage(old(self).current as int).len() ==> !(#[trigger] old(self).stage(
                old(self).current as int,
            )[k] is Pending)),
    {
        if self.current >= self.phases.len() {
            return None;
        }
        match self.cap {
            Some(c) => {
                if self.running >= c {
                    return None;
                }
            },
            None => {},
        }
        let cur = self.current;
        match first_pending(&self.phases[cur]) {
            Some(k) => {
                let ghost prev = *self;
                let st = with_slot(&self.phases[cur], k, Phase::Running);
                proof {
                    lemma_count_update(prev.stage(cur as int), k as int, Phase::Running);
                    lemma_count_bound(st@);
                }
                self.phases.set(cur, st);
                self.running = self.running + 1;
                proof {
                    assert forall|s: int| 0 <= s < prev.num_stages() implies #[trigger] self.stage(s) == if s == cur {
                        prev.stage(s).update(k as int, Phase::Running)
                    } else {
                        prev.stage(s)
                    } by {}
                    assert(self.stage(cur as int)[k as int] is Running);
                    assert(!self.stage(cur as int)[k as int].terminal());
                    assert forall|s: int, t2: int, j: int|
                        0 <= s < self.current && s < t2 < self.num_stages() && has_phase(#[trigger] self.stage(s), Phase::Failed) && 0
                            <= j < self.stage(t2).len() implies #[trigger] self.stage(t2)[j] is Skipped by {
                        assert(self.stage(s) == prev.stage(s));
                        assert(self.stage(t2) == prev.stage(t2));
                    }
                }
                Some(k)
            },
            None => None,
        }
    }

    /// Records how the running task in slot `k` of the current stage ended,
    /// then moves on past every stage that has settled.
    pub fn settle(&mut self, k: usize, outcome: Phase)
        requires
            old(self).wf(),
            !old(self).done(),
            k < old(self).stage(old(self).current as int).len(),
            old(self).stage(old(self).current as int)[k as int] is Running,
            outcome.terminal(),
        ensures
            final(self).wf(),
            final(self).cap == old(self).cap,
            final(self).num_stages() == old(self).num_stages(),
            final(self).stage(old(self).current as int)[k as int] == outcome,
            forall|s: int, j: int|
                0 <= s <= old(self).current && 0 <= j < old(self).stage(s).len() && (s != old(self).current || j != k)
                    ==> #[trigger] final(self).stage(s)[j] == old(self).stage(s)[j],
            forall|s: int| 0 <= s < old(self).num_stages() ==> (#[trigger] final(self).stage(s)).len() == old(self).stage(s).len(),
            forall|s: int, j: int|
                old(self).current < s < old(self).num_stages() && 0 <= j < old(self).stage(s).len() && #[trigger] final(self).stage(s)[j]
                    != old(self).stage(s)[j] ==> old(self).stage(s)[j] is Pending && final(self).stage(s)[j] is Skipped,
            (forall|s: int| 0 <= s <= old(self).current ==> !has_phase(#[trigger] final(self).stage(s), Phase::Failed)) ==> forall|s: int|
                old(self).current < s < old(self).num_stages() ==> #[trigger] final(self).stage(s) == old(self).stage(s),
    {
        let ghost prev = *self;
        let cur = self.current;
        let st = with_slot(&self.phases[cur], k, outcome);
        proof {
            lemma_count_update(prev.stage(cur as int), k as int, outcome);
        }
        self.phases.set(cur, st);
        self.running = self.running - 1;
        let ghost mid = *self;
        proof {
            assert forall|s: int| 0 <= s < prev.num_stages() implies #[trigger] self.stage(s) == if s == cur {
                prev.stage(s).update(k as int, outcome)
            } else {
                prev.stage(s)
            } by {}
            assert forall|s: int, t2: int, j: int|
                0 <= s < self.current && s < t2 < self.num_stages() && has_phase(#[trigger] self.stage(s), Phase::Failed) && 0
                    <= j < self.stage(t2).len() implies #[trigger] self.stage(t2)[j] is Skipped by {
                assert(self.stage(s) == prev.stage(s));
                assert(self.stage(t2) == prev.stage(t2));
            }
            assert forall|s: int| 0 <= s < self.current implies all_terminal(#[trigger] self.stage(s)) by {
                assert(self.stage(s) == prev.stage(s));
            }
            assert forall|s: int, j: int|
                self.current < s < self.num_stages() && 0 <= j < self.stage(s).len() implies pending_or_skipped(
                    #[trigger] self.stage(s)[j]) by {
                assert(self.stage(s) == prev.stage(s));
            }
        }
        self.advance();
        proof {
            assert(self.stage(cur as int)[k as int] == mid.stage(cur as int)[k as int]);
            if forall|s: int| 0 <= s <= cur ==> !has_phase(#[trigger] self.stage(s), Phase::Failed) {
                assert forall|s: int| 0 <= s < mid.num_stages() implies !has_phase(#[trigger] mid.stage(s), Phase::Failed) by {
                    if s <= cur {
                        assert(self.stage(s).len() == mid.stage(s).len());
                        assert forall|j: int| 0 <= j < mid.stage(s).len() implies #[trigger] self.stage(s)[j] == mid.stage(s)[j] by {}
                        assert(self.stage(s) =~= mid.stage(s));
                        assert(!has_phase(self.stage(s), Phase::Failed));
                    } else if has_phase(mid.stage(s), Phase::Failed) {
                        let j = choose|j: int| 0 <= j < mid.stage(s).len() && mid.stage(s)[j] == Phase::Failed;
                        assert(pending_or_skipped(mid.stage(s)[j]));
                    }
                }
                assert(mid.no_failure());
                assert forall|s: int| cur < s < prev.num_stages() implies #[trigger] self.stage(s) == prev.stage(s) by {
                    assert(self.stage(s) == mid.stage(s));
                }
            }
        }
    }

    /// The phase of the template run: running until every stage has been
    /// worked through, then its aggregated outcome.
    pub fn phase(&self) -> (r: Phase)
        ensures
            self.done() ==> r == self.outcome(),
            !self.done() ==> r is Running,
    {
        if self.current != self.phases.len() {
            return Phase::Running;
        }
        let mut per_stage: Vec<Phase> = Vec::new();
        let mut s: usize = 0;
        while s < self.phases.len()
            invariant
                0 <= s <= self.phases.len(),
                per_stage@ == Seq::new(s as nat, |t: int| aggregate_spec(self.stage(t))),
            decreases self.phases.len() - s,
        {
            let a = aggregate(&self.phases[s]);
            per_stage.push(a);
            proof {
                assert(per_stage@ =~= Seq::new((s + 1) as nat, |t: int| aggregate_spec(self.stage(t))));
            }
            s = s + 1;
        }
        aggregate(&per_stage)
    }
}

/// With a cap of one, no two tasks of a template run are running at once.
pub proof fn lemma_cap_one_serializes(run: TemplateRun, s1: int, k1: int, s2: int, k2: int)
    requires
        run.wf(),
        run.cap == Some(1usize),
        0 <= s1 < run.num_stages(),
        0 <= s2 < run.num_stages(),
        0 <= k1 < run.stage(s1).len(),
        0 <= k2 < run.stage(s2).len(),
        run.stage(s1)[k1] is Running,
        run.stage(s2)[k2] is Running,
    ensures
        s1 == s2 && k1 == k2,
{
    lemma_running_in_current(run, s1, k1);
    lemma_running_in_current(run, s2, k2);
    if k1 != k2 {
        lemma_count_two(run.stage(s1), k1, k2);
    }
}

/// Only tasks of the current stage run.
pub proof fn lemma_running_in_current(run: TemplateRun, s: int, k: int)
    requires
        run.wf(),
        0 <= s < run.num_stages(),
        0 <= k < run.stage(s).len(),
        run.stage(s)[k] is Running,
    ensures
        s == run.current,
        run.running >= 1,
{
    if s < run.current {
        assert(all_terminal(run.stage(s)));
        assert(run.stage(s)[k].terminal());
    } else if s > run.current {
        assert(pending_or_skipped(run.stage(s)[k]));
    } else {
        lemma_count_update(run.stage(s), k, Phase::Pending);
    }
}

/// Fail-fast: once a stage with a failed task has been passed, every task
/// of the later stages is skipped, and the template has failed.
pub proof fn lemma_fail_fast(run: TemplateRun, s: int)
    requires
        run.wf(),
        0 <= s < run.current,
        has_phase(run.stage(s), Phase::Failed),
    ensures
        forall|t: int, k: int| s < t < run.num_stages() && 0 <= k < run.stage(t).len() ==> #[trigger] run.stage(t)[k] is Skipped,
        run.outcome() == Phase::Failed,
{
    let per_stage = Seq::new(run.phases@.len(), |t: int| aggregate_spec(run.stage(t)));
    assert(per_stage[s] == Phase::Failed);
}

/// A run whose tasks were all skipped (or that has no task) ends skipped.
pub proof fn lemma_all_skipped_run(run: TemplateRun)
    requires
        forall|s: int, k: int| 0 <= s < run.num_stages() && 0 <= k < run.stage(s).len() ==> #[trigger] run.stage(s)[k] is Skipped,
    ensures
        run.outcome() == Phase::Skipped,
{
    let per_stage = Seq::new(run.phases@.len(), |t: int| aggregate_spec(run.stage(t)));
    assert forall|t: int| 0 <= t < per_stage.len() implies per_stage[t] == Phase::Skipped by {
        crate::status::lemma_all_skipped(run.stage(t));
    }
    crate::status::lemma_all_skipped(per_stage);
}

/// A run in which every task succeeded, with at least one task, succeeded.
pub proof fn lemma_all_succeeded_run(run: TemplateRun, s0: int)
    requires
        0 <= s0 < run.num_stages(),
        run.stage(s0).len() > 0,
        forall|s: int, k: int| 0 <= s < run.num_stages() && 0 <= k < run.stage(s).len() ==> #[trigger] run.stage(s)[k] is Succeeded,
    ensures
        run.outcome() == Phase::Succeeded,
{
    let per_stage = Seq::new(run.phases@.len(), |t: int| aggregate_spec(run.stage(t)));
    assert forall|t: int| 0 <= t < per_stage.len() implies per_stage[t] != Phase::Failed by {
        if has_phase(run.stage(t), Phase::Failed) {
            let k = choose|k: int| 0 <= k < run.stage(t).len() && run.stage(t)[k] == Phase::Failed;
            assert(run.stage(t)[k] is Succeeded);
        }
    }
    assert(run.stage(s0)[0] is Succeeded);
    assert(has_phase(run.stage(s0), Phase::Succeeded));
    assert(per_stage[s0] == Phase::Succeeded);
}

} // verus!

