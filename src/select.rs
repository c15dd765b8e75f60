use vstd::prelude::*;

use crate::config::TaskLabels;

verus! {

/// Some tag of `a` is also a tag of `b`.
pub open spec fn meets(a: Seq<String>, b: Seq<String>) -> bool {
    exists|i: int, j: int| 0 <= i < a.len() && 0 <= j < b.len() && #[trigger] a[i]@ == #[trigger] b[j]@
}

/// A task runs when none of its labels is excluded and, where a wanted set
/// is given, one of its labels is wanted. Exclusion wins.
pub open spec fn eligible(labels: Seq<String>, wanted: Seq<String>, exclude: Seq<String>) -> bool {
    !meets(labels, exclude) && (wanted.len() == 0 || meets(labels, wanted))
}

/// Whether the two lists share a tag.
pub fn shares_tag(a: &Vec<String>, b: &Vec<String>) -> (r: bool)
    ensures
        r == meets(a@, b@),
{
    let mut i: usize = 0;
    while i < a.len()
        invariant
            0 <= i <= a.len(),
            forall|x: int, y: int| 0 <= x < i && 0 <= y < b.len() ==> #[trigger] a@[x]@ != #[trigger] b@[y]@,
        decreases a.len() - i,
    {
        let mut j: usize = 0;
        while j < b.len()
            invariant
                0 <= j <= b.len(),
                0 <= i < a.len(),
                forall|x: int, y: int| 0 <= x < i && 0 <= y < b.len() ==> #[trigger] a@[x]@ != #[trigger] b@[y]@,
                forall|y: int| 0 <= y < j ==> a@[i as int]@ != #[trigger] b@[y]@,
            decreases b.len() - j,
        {
            if a[i] == b[j] {
                assert(a@[i as int]@ == b@[j as int]@);
                return true;
            }
            j = j + 1;
        }
        i = i + 1;
    }
    false
}

/// Whether a task with these labels runs under the given selection.
pub fn is_eligible(labels: &TaskLabels, wanted: &Vec<String>, exclude: &Vec<String>) -> (r: bool)
    ensures
        r == eligible(labels.0@, wanted@, exclude@),
{
    if shares_tag(&labels.0, exclude) {
        return false;
    }
    wanted.len() == 0 || shares_tag(&labels.0, wanted)
}

} // verus!
