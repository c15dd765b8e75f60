use vstd::prelude::*;

verus! {

/// The phase of a task, a stage or a template run.
#[derive(Clone, Copy, Debug, PartialEq, Eq, Structural)]
pub enum Phase {
    Pending,
    Running,
    Succeeded,
    Failed,
    Skipped,
}

impl Phase {
    pub open spec fn terminal(self) -> bool {
        self is Succeeded || self is Failed || self is Skipped
    }

    /// The transitions of the phase machine:
    /// `Pending -> Running -> {Succeeded, Failed}` and `Pending -> Skipped`.
    pub open spec fn step(self, next: Phase) -> bool {
        match self {
            Phase::Pending => next is Running || next is Skipped,
            Phase::Running => next is Succeeded || next is Failed,
            _ => false,
        }
    }

    /// Whether the phase is one that no transition leaves.
    pub fn is_terminal(&self) -> (r: bool)
        ensures
            r == self.terminal(),
    {
        match self {
            Phase::Succeeded | Phase::Failed | Phase::Skipped => true,
            _ => false,
        }
    }

    /// Whether `self -> next` is a transition of the phase machine.
    pub fn can_transition(&self, next: Phase) -> (r: bool)
        ensures
            r == self.step(next),
    {
        match self {
            Phase::Pending => matches!(next, Phase::Running | Phase::Skipped),
            Phase::Running => matches!(next, Phase::Succeeded | Phase::Failed),
            _ => false,
        }
    }
}

pub open spec fn has_phase(phases: Seq<Phase>, p: Phase) -> bool {
    exists|i: int| 0 <= i < phases.len() && phases[i] == p
}

/// The phase of a composite node over its children's phases: `Failed`
/// dominates, else `Succeeded` if one child succeeded, else `Skipped`
/// (also when there are no children).
pub open spec fn aggregate_spec(phases: Seq<Phase>) -> Phase {
    if has_phase(phases, Phase::Failed) {
        Phase::Failed
    } else if has_phase(phases, Phase::Succeeded) {
        Phase::Succeeded
    } else {
        Phase::Skipped
    }
}

pub open spec fn all_terminal(phases: Seq<Phase>) -> bool {
    forall|i: int| 0 <= i < phases.len() ==> #[trigger] phases[i].terminal()
}

/// Aggregates the phases of a composite node's children.
pub fn aggregate(phases: &Vec<Phase>) -> (r: Phase)
    ensures
        r == aggregate_spec(phases@),
{
    let mut failed = false;
    let mut succeeded = false;
    let mut i: usize = 0;
    while i < phases.len()
        invariant
            0 <= i <= phases.len(),
            failed == has_phase(phases@.subrange(0, i as int), Phase::Failed),
            succeeded == has_phase(phases@.subrange(0, i as int), Phase::Succeeded),
        decreases phases.len() - i,
    {
        let p = phases[i];
        proof {
            let before = phases@.subrange(0, i as int);
            let after = phases@.subrange(0, i + 1);
            assert forall|q: Phase| has_phase(after, q) == (has_phase(before, q) || p == q) by {
                if has_phase(after, q) {
                    let k = choose|k: int| 0 <= k < after.len() && after[k] == q;
                    if k < i {
                        assert(before[k] == q);
                    }
                }
                if has_phase(before, q) {
                    let k = choose|k: int| 0 <= k < before.len() && before[k] == q;
                    assert(after[k] == q);
                }
                if p == q {
                    assert(after[i as int] == q);
                }
            }
        }
        match p {
            Phase::Failed => { failed = true; },
            Phase::Succeeded => { succeeded = true; },
            _ => {},
        }
        i = i + 1;
    }
    assert(phases@.subrange(0, phases.len() as int) =~= phases@);
    if failed {
        Phase::Failed
    } else if succeeded {
        Phase::Succeeded
    } else {
        Phase::Skipped
    }
}

/// A composite node whose children all succeeded has succeeded, provided it
/// has at least one child.
pub proof fn lemma_all_succeeded(phases: Seq<Phase>)
    requires
        phases.len() > 0,
        forall|i: int| 0 <= i < phases.len() ==> phases[i] == Phase::Succeeded,
    ensures
        aggregate_spec(phases) == Phase::Succeeded,
{
    assert(phases[0] == Phase::Succeeded);
    assert(!has_phase(phases, Phase::Failed));
}

/// A composite node with one failed child has failed, whatever its other
/// children settled to.
pub proof fn lemma_failure_dominates(phases: Seq<Phase>, i: int)
    requires
        0 <= i < phases.len(),
        phases[i] == Phase::Failed,
    ensures
        aggregate_spec(phases) == Phase::Failed,
{
}

/// A composite node with no children, or whose children were all skipped, is
/// skipped: never succeeded and never failed.
pub proof fn lemma_all_skipped(phases: Seq<Phase>)
    requires
        forall|i: int| 0 <= i < phases.len() ==> phases[i] == Phase::Skipped,
    ensures
        aggregate_spec(phases) == Phase::Skipped,
{
}

/// The aggregated phase does not depend on the order in which children
/// reported: any reordering of the children gives the same phase.
pub proof fn lemma_aggregate_order_free(a: Seq<Phase>, b: Seq<Phase>)
    requires
        a.to_multiset() == b.to_multiset(),
    ensures
        aggregate_spec(a) == aggregate_spec(b),
{
    a.to_multiset_ensures();
    b.to_multiset_ensures();
    assert forall|p: Phase| has_phase(a, p) == has_phase(b, p) by {
        assert(has_phase(a, p) == a.contains(p));
        assert(has_phase(b, p) == b.contains(p));
        assert(a.to_multiset().count(p) == b.to_multiset().count(p));
        if a.contains(p) {
            assert(a.to_multiset().count(p) > 0);
            assert(b.contains(p));
        }
        if b.contains(p) {
            assert(b.to_multiset().count(p) > 0);
            assert(a.contains(p));
        }
    }
}

} // verus!
