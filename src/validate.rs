use vstd::prelude::*;

use crate::config::{task_ref, Error, JobConfig, TaskKind};
use crate::graph::{edge, graph_wf, is_cycle, lemma_ranking_acyclic, rank_graph, view_graph};

verus! {

impl JobConfig {
    /// The first template with the given name.
    pub fn find_template(&self, name: &String) -> (r: Option<usize>)
        ensures
            r matches Some(i) ==> i < self.templates.len() && self.name_of(i as int) == name@,
            r is None <==> !self.has_template(name@),
    {
        let mut i: usize = 0;
        while i < self.templates.len()
            invariant
                0 <= i <= self.templates.len(),
                forall|m: int| 0 <= m < i ==> self.name_of(m) != name@,
            decreases self.templates.len() - i,
        {
            if self.templates[i].0 == *name {
                assert(self.name_of(i as int) == name@);
                return Some(i);
            }
            i = i + 1;
        }
        None
    }

    /// A name in stage `s` of template `i` that no template carries.
    fn stage_unknown(&self, i: usize, s: usize) -> (r: Option<String>)
        requires
            i < self.templates.len(),
            s < self.templates[i as int].1.tasks.len(),
        ensures
            r is None ==> forall|k: int| self.task_at(i as int, s as int, k) && task_ref(#[trigger] self.task(i as int, s as int, k)) is Some
                ==> self.has_template(task_ref(self.task(i as int, s as int, k))->0),
            r matches Some(n) ==> !self.has_template(n@) && exists|k: int|
                self.task_at(i as int, s as int, k) && task_ref(#[trigger] self.task(i as int, s as int, k)) == Some(n@),
    {
        let stage = &self.templates[i].1.tasks[s];
        let mut k: usize = 0;
        while k < stage.len()
            invariant
                0 <= k <= stage.len(),
                i < self.templates.len(),
                s < self.templates[i as int].1.tasks.len(),
                stage == &self.templates[i as int].1.tasks[s as int],
                forall|m: int| 0 <= m < k && task_ref(#[trigger] self.task(i as int, s as int, m)) is Some
                    ==> self.has_template(task_ref(self.task(i as int, s as int, m))->0),
            decreases stage.len() - k,
        {
            match &stage[k].kind {
                TaskKind::Template { template } => {
                    if self.find_template(template).is_none() {
                        assert(task_ref(self.task(i as int, s as int, k as int)) == Some(template@));
                        return Some(template.clone());
                    }
                },
                _ => {},
            }
            k = k + 1;
        }
        None
    }

    /// A name that some task refers to and no template carries.
    pub fn unknown_reference(&self) -> (r: Option<String>)
        ensures
            r is None <==> self.refs_resolve(),
            r matches Some(n) ==> !self.has_template(n@) && exists|i: int, s: int, k: int|
                self.task_at(i, s, k) && task_ref(#[trigger] self.task(i, s, k)) == Some(n@),
    {
        let mut i: usize = 0;
        while i < self.templates.len()
            invariant
                0 <= i <= self.templates.len(),
                forall|a: int, s: int, k: int|
                    0 <= a < i && self.task_at(a, s, k) && task_ref(#[trigger] self.task(a, s, k)) is Some
                        ==> self.has_template(task_ref(self.task(a, s, k))->0),
            decreases self.templates.len() - i,
        {
            let mut s: usize = 0;
            while s < self.templates[i].1.tasks.len()
                invariant
                    0 <= s <= self.templates[i as int].1.tasks.len(),
                    i < self.templates.len(),
                    forall|a: int, t: int, k: int|
                        0 <= a < i && self.task_at(a, t, k) && task_ref(#[trigger] self.task(a, t, k)) is Some
                            ==> self.has_template(task_ref(self.task(a, t, k))->0),
                    forall|t: int, k: int|
                        0 <= t < s && self.task_at(i as int, t, k) && task_ref(#[trigger] self.task(i as int, t, k)) is Some
                            ==> self.has_template(task_ref(self.task(i as int, t, k))->0),
                decreases self.templates[i as int].1.tasks.len() - s,
            {
                match self.stage_unknown(i, s) {
                    Some(n) => {
                        return Some(n);
                    },
                    None => {},
                }
                s = s + 1;
            }
            i = i + 1;
        }
        None
    }

    /// Appends the index of every template named `name`.
    fn push_targets(&self, name: &String, out: &mut Vec<usize>)
        ensures
            forall|x: usize| #[trigger] final(out)@.contains(x) <==> (old(out)@.contains(x) || (x < self.templates.len()
                && self.name_of(x as int) == name@)),
            (forall|t: int| 0 <= t < old(out).len() ==> #[trigger] old(out)[t] < self.templates.len()) ==> (forall|t: int|
                0 <= t < final(out).len() ==> #[trigger] final(out)[t] < self.templates.len()),
    {
        let ghost start = out@;
        let mut j: usize = 0;
        while j < self.templates.len()
            invariant
                0 <= j <= self.templates.len(),
                forall|x: usize| #[trigger] out@.contains(x) <==> (start.contains(x) || (x < j && self.name_of(x as int) == name@)),
                (forall|t: int| 0 <= t < start.len() ==> #[trigger] start[t] < self.templates.len()) ==> (forall|t: int|
                    0 <= t < out.len() ==> #[trigger] out[t] < self.templates.len()),
            decreases self.templates.len() - j,
        {
            if self.templates[j].0 == *name {
                let ghost before = out@;
                out.push(j);
                proof {
                    assert forall|x: usize| #[trigger] out@.contains(x) <==> (before.contains(x) || x == j) by {
                        lemma_push_contains(before, j, x);
                    }
                }
            }
            j = j + 1;
        }
    }

    /// Appends the templates that stage `s` of template `i` refers to.
    fn push_stage_successors(&self, i: usize, s: usize, out: &mut Vec<usize>)
        requires
            i < self.templates.len(),
            s < self.templates[i as int].1.tasks.len(),
            forall|t: int| 0 <= t < old(out).len() ==> #[trigger] old(out)[t] < self.templates.len(),
        ensures
            forall|t: int| 0 <= t < final(out).len() ==> #[trigger] final(out)[t] < self.templates.len(),
            forall|x: usize| #[trigger] final(out)@.contains(x) <==> (old(out)@.contains(x) || (x < self.templates.len()
                && exists|k: int| self.task_at(i as int, s as int, k) && task_ref(#[trigger] self.task(i as int, s as int, k)) == Some(self.name_of(x as int)))),
    {
        let ghost start = out@;
        let stage = &self.templates[i].1.tasks[s];
        let mut k: usize = 0;
        while k < stage.len()
            invariant
                0 <= k <= stage.len(),
                i < self.templates.len(),
                s < self.templates[i as int].1.tasks.len(),
                stage == &self.templates[i as int].1.tasks[s as int],
                forall|t: int| 0 <= t < out.len() ==> #[trigger] out[t] < self.templates.len(),
                forall|x: usize| #[trigger] out@.contains(x) <==> (start.contains(x) || (x < self.templates.len()
                    && exists|m: int| 0 <= m < k && task_ref(#[trigger] self.task(i as int, s as int, m)) == Some(self.name_of(x as int)))),
            decreases stage.len() - k,
        {
            match &stage[k].kind {
                TaskKind::Template { template } => {
                    let ghost before = out@;
                    assert(forall|x: usize| #[trigger] before.contains(x) <==> (start.contains(x) || (x < self.templates.len()
                        && exists|m: int| 0 <= m < k && task_ref(#[trigger] self.task(i as int, s as int, m)) == Some(self.name_of(x as int)))));
                    self.push_targets(template, out);
                    proof {
                        assert(task_ref(self.task(i as int, s as int, k as int)) == Some(template@));
                        assert forall|x: usize| #[trigger] out@.contains(x) <==> (start.contains(x) || (x < self.templates.len()
                            && exists|m: int| 0 <= m < k + 1 && task_ref(#[trigger] self.task(i as int, s as int, m)) == Some(self.name_of(x as int)))) by {
                            if x < self.templates.len() && self.name_of(x as int) == template@ {
                                assert(task_ref(self.task(i as int, s as int, k as int)) == Some(self.name_of(x as int)));
                            }
                            if x < self.templates.len() && exists|m: int| 0 <= m < k + 1 && task_ref(#[trigger] self.task(i as int, s as int, m)) == Some(self.name_of(x as int)) {
                                let m = choose|m: int| 0 <= m < k + 1 && task_ref(#[trigger] self.task(i as int, s as int, m)) == Some(self.name_of(x as int));
                                if m < k {
                                    assert(before.contains(x));
                                }
                            }
                        }
                    }
                },
                _ => {
                    proof {
                        assert(task_ref(self.task(i as int, s as int, k as int)) is None);
                        assert forall|x: usize| #[trigger] out@.contains(x) <==> (start.contains(x) || (x < self.templates.len()
                            && exists|m: int| 0 <= m < k + 1 && task_ref(#[trigger] self.task(i as int, s as int, m)) == Some(self.name_of(x as int)))) by {
                            if exists|m: int| 0 <= m < k + 1 && task_ref(#[trigger] self.task(i as int, s as int, m)) == Some(self.name_of(x as int)) {
                                let m = choose|m: int| 0 <= m < k + 1 && task_ref(#[trigger] self.task(i as int, s as int, m)) == Some(self.name_of(x as int));
                                assert(m < k);
                            }
                        }
                    }
                },
            }
            k = k + 1;
        }
    }

    /// The templates that template `i` refers to.
    fn successors(&self, i: usize) -> (r: Vec<usize>)
        requires
            i < self.templates.len(),
        ensures
            forall|t: int| 0 <= t < r.len() ==> #[trigger] r[t] < self.templates.len(),
            forall|x: usize| #[trigger] r@.contains(x) <==> self.refers(i as int, x as int),
    {
        let mut out: Vec<usize> = Vec::new();
        let mut s: usize = 0;
        while s < self.templates[i].1.tasks.len()
            invariant
                0 <= s <= self.templates[i as int].1.tasks.len(),
                i < self.templates.len(),
                forall|t: int| 0 <= t < out.len() ==> #[trigger] out[t] < self.templates.len(),
                forall|x: usize| #[trigger] out@.contains(x) <==> (x < self.templates.len() && exists|a: int, k: int|
                    0 <= a < s && self.task_at(i as int, a, k) && task_ref(#[trigger] self.task(i as int, a, k)) == Some(self.name_of(x as int))),
            decreases self.templates[i as int].1.tasks.len() - s,
        {
            let ghost before = out@;
            self.push_stage_successors(i, s, &mut out);
            proof {
                assert forall|x: usize| #[trigger] out@.contains(x) <==> (x < self.templates.len() && exists|a: int, k: int|
                    0 <= a < s + 1 && self.task_at(i as int, a, k) && task_ref(#[trigger] self.task(i as int, a, k)) == Some(self.name_of(x as int))) by {
                    if x < self.templates.len() && exists|a: int, k: int|
                        0 <= a < s + 1 && self.task_at(i as int, a, k) && task_ref(#[trigger] self.task(i as int, a, k)) == Some(self.name_of(x as int)) {
                        let (a, k) = choose|a: int, k: int|
                            0 <= a < s + 1 && self.task_at(i as int, a, k) && task_ref(#[trigger] self.task(i as int, a, k)) == Some(self.name_of(x as int));
                        if a < s {
                            assert(before.contains(x));
                        }
                    }
                }
            }
            s = s + 1;
        }
        out
    }

    /// The template-reference graph: entry `i` lists the templates that
    /// template `i` refers to.
    pub fn reference_graph(&self) -> (g: Vec<Vec<usize>>)
        ensures
            g.len() == self.templates.len(),
            graph_wf(view_graph(&g)),
            forall|i: int, j: int| edge(view_graph(&g), i, j) <==> (0 <= i < self.templates.len() && self.refers(i, j)),
    {
        let mut g: Vec<Vec<usize>> = Vec::new();
        let mut i: usize = 0;
        while i < self.templates.len()
            invariant
                0 <= i <= self.templates.len(),
                g.len() == i,
                forall|a: int, t: int| 0 <= a < i && 0 <= t < g[a].len() ==> #[trigger] g[a][t] < self.templates.len(),
                forall|a: int, x: usize| 0 <= a < i ==> (#[trigger] g[a]@.contains(x) <==> self.refers(a, x as int)),
            decreases self.templates.len() - i,
        {
            let succ = self.successors(i);
            g.push(succ);
            i = i + 1;
        }
        proof {
            let gs = view_graph(&g);
            assert forall|i: int, j: int| edge(gs, i, j) <==> (0 <= i < self.templates.len() && self.refers(i, j)) by {
                if 0 <= i < self.templates.len() && 0 <= j < self.templates.len() {
                    assert(gs[i] == g[i]@);
                    assert(g[i]@.contains(j as usize) <==> self.refers(i, j));
                }
            }
        }
        g
    }

    /// The names of the templates along `path`.
    fn names_along(&self, path: &Vec<usize>) -> (r: Vec<String>)
        requires
            forall|k: int| 0 <= k < path.len() ==> #[trigger] path[k] < self.templates.len(),
        ensures
            r.len() == path.len(),
            forall|k: int| 0 <= k < path.len() ==> (#[trigger] r[k])@ == self.name_of(path[k] as int),
    {
        let mut r: Vec<String> = Vec::new();
        let mut k: usize = 0;
        while k < path.len()
            invariant
                0 <= k <= path.len(),
                r.len() == k,
                forall|m: int| 0 <= m < path.len() ==> #[trigger] path[m] < self.templates.len(),
                forall|m: int| 0 <= m < k ==> (#[trigger] r[m])@ == self.name_of(path[m] as int),
            decreases path.len() - k,
        {
            r.push(self.templates[path[k]].0.clone());
            k = k + 1;
        }
        r
    }

    /// A name that two templates carry.
    pub fn duplicate_name(&self) -> (r: Option<String>)
        ensures
            r is None <==> self.unique_names(),
            r matches Some(n) ==> exists|i: int, j: int|
                0 <= i < j < self.templates.len() && self.name_of(i) == n@ && self.name_of(j) == n@,
    {
        let mut j: usize = 0;
        while j < self.templates.len()
            invariant
                0 <= j <= self.templates.len(),
                forall|a: int, b: int| 0 <= a < b < j ==> self.name_of(a) != self.name_of(b),
            decreases self.templates.len() - j,
        {
            let mut i: usize = 0;
            while i < j
                invariant
                    0 <= i <= j < self.templates.len(),
                    forall|a: int, b: int| 0 <= a < b < j ==> self.name_of(a) != self.name_of(b),
                    forall|a: int| 0 <= a < i ==> self.name_of(a) != self.name_of(j as int),
                decreases j - i,
            {
                if self.templates[i].0 == self.templates[j].0 {
                    let n = self.templates[j].0.clone();
                    assert(self.name_of(i as int) == n@ && self.name_of(j as int) == n@);
                    assert(!self.unique_names());
                    return Some(n);
                }
                i = i + 1;
            }
            j = j + 1;
        }
        None
    }

    /// Checks a job before it runs: template names are unique, the
    /// entrypoint and every template reference name a template, and no
    /// template reaches itself through references. The checks are made in
    /// that order and the first that fails gives the error. A `parallelism`
    /// is not checked here: see `effective_cap` for how one below one is read.
    pub fn validate(&self) -> (r: Result<(), Error>)
        ensures
            r is Ok <==> self.valid(),
            (r matches Err(Error::DuplicateTemplate(_))) <==> !self.unique_names(),
            r matches Err(Error::DuplicateTemplate(n)) ==> exists|i: int, j: int|
                0 <= i < j < self.templates.len() && self.name_of(i) == n@ && self.name_of(j) == n@,
            (r matches Err(Error::UnknownEntrypoint(_))) <==> self.unique_names() && !self.has_template(self.entrypoint@),
            r matches Err(Error::UnknownEntrypoint(n)) ==> n@ == self.entrypoint@,
            (r matches Err(Error::UnknownTemplate(_))) <==> self.unique_names() && self.has_template(self.entrypoint@)
                && !self.refs_resolve(),
            r matches Err(Error::UnknownTemplate(n)) ==> !self.has_template(n@) && exists|i: int, s: int, k: int|
                self.task_at(i, s, k) && task_ref(#[trigger] self.task(i, s, k)) == Some(n@),
            (r matches Err(Error::Cycle(_))) <==> self.unique_names() && self.has_template(self.entrypoint@)
                && self.refs_resolve() && !self.refs_acyclic(),
            r matches Err(Error::Cycle(names)) ==> exists|path: Seq<usize>| self.is_ref_cycle(path) && names.len() == path.len()
                && forall|k: int| 0 <= k < path.len() ==> (#[trigger] names[k])@ == self.name_of(path[k] as int),
    {
        match self.duplicate_name() {
            Some(n) => {
                return Err(Error::DuplicateTemplate(n));
            },
            None => {},
        }
        if self.find_template(&self.entrypoint).is_none() {
            return Err(Error::UnknownEntrypoint(self.entrypoint.clone()));
        }
        match self.unknown_reference() {
            Some(n) => {
                return Err(Error::UnknownTemplate(n));
            },
            None => {},
        }
        let g = self.reference_graph();
        let ghost gs = view_graph(&g);
        proof {
            assert forall|path: Seq<usize>| is_cycle(gs, path) <==> self.is_ref_cycle(path) by {
                if path.len() >= 2 {
                    assert forall|k: int| 0 <= k < path.len() - 1 implies edge(gs, #[trigger] path[k] as int, path[k + 1] as int)
                        == self.refers(path[k] as int, path[k + 1] as int) by {
                        if self.refers(path[k] as int, path[k + 1] as int) {
                            let (s, t) = choose|s: int, t: int| self.task_at(path[k] as int, s, t)
                                && task_ref(#[trigger] self.task(path[k] as int, s, t)) == Some(self.name_of(path[k + 1] as int));
                        }
                    }
                }
            }
        }
        match rank_graph(&g) {
            Ok(rank) => {
                proof {
                    lemma_ranking_acyclic(gs, rank@);
                    assert forall|path: Seq<usize>| !self.is_ref_cycle(path) by {
                        assert(!is_cycle(gs, path));
                    }
                }
                Ok(())
            },
            Err(cycle) => {
                proof {
                    assert(self.is_ref_cycle(cycle@));
                    assert forall|k: int| 0 <= k < cycle.len() implies #[trigger] cycle[k] < self.templates.len() by {
                        if k < cycle.len() - 1 {
                            assert(self.refers(cycle[k] as int, cycle[k + 1] as int));
                        } else {
                            assert(self.refers(cycle[0] as int, cycle[1] as int));
                        }
                    }
                }
                let names = self.names_along(&cycle);
                Err(Error::Cycle(names))
            },
        }
    }
}

proof fn lemma_push_contains(s: Seq<usize>, v: usize, x: usize)
    ensures
        s.push(v).contains(x) <==> (s.contains(x) || x == v),
{
    if s.contains(x) {
        let k = choose|k: int| 0 <= k < s.len() && s[k] == x;
        assert(s.push(v)[k] == x);
    }
    if x == v {
        assert(s.push(v)[s.len() as int] == v);
    }
    if s.push(v).contains(x) {
        let k = choose|k: int| 0 <= k < s.len() + 1 && s.push(v)[k] == x;
        if k < s.len() {
            assert(s[k] == x);
        }
    }
}

} // verus!
