use vstd::prelude::*;

verus! {

/// A directed graph over `0..g.len()`: `g[i]` lists the successors of `i`.
pub open spec fn edge(g: Seq<Seq<usize>>, i: int, j: int) -> bool {
    0 <= i < g.len() && 0 <= j < g.len() && g[i].contains(j as usize)
}

pub open spec fn graph_wf(g: Seq<Seq<usize>>) -> bool {
    forall|i: int, k: int| 0 <= i < g.len() && 0 <= k < g[i].len() ==> #[trigger] g[i][k] < g.len()
}

/// `path` walks along edges and comes back to where it started.
pub open spec fn is_cycle(g: Seq<Seq<usize>>, path: Seq<usize>) -> bool {
    &&& path.len() >= 2
    &&& path[0] == path[path.len() - 1]
    &&& forall|k: int| 0 <= k < path.len() - 1 ==> edge(g, #[trigger] path[k] as int, path[k + 1] as int)
}

pub open spec fn acyclic(g: Seq<Seq<usize>>) -> bool {
    forall|path: Seq<usize>| !is_cycle(g, path)
}

/// Every edge leads to a strictly smaller rank.
pub open spec fn is_ranking(g: Seq<Seq<usize>>, rank: Seq<usize>) -> bool {
    &&& rank.len() == g.len()
    &&& forall|i: int, j: int| edge(g, i, j) ==> rank[i] > rank[j]
}

pub open spec fn count_some(s: Seq<Option<usize>>) -> nat
    decreases s.len(),
{
    if s.len() == 0 {
        0
    } else {
        count_some(s.drop_last()) + if s.last() is Some { 1nat } else { 0nat }
    }
}

proof fn lemma_count_some_bound(s: Seq<Option<usize>>)
    ensures
        count_some(s) <= s.len(),
    decreases s.len(),
{
    if s.len() > 0 {
        lemma_count_some_bound(s.drop_last());
    }
}

proof fn lemma_count_some_fill(s: Seq<Option<usize>>, i: int, v: usize)
    requires
        0 <= i < s.len(),
        s[i] is None,
    ensures
        count_some(s.update(i, Some(v))) == count_some(s) + 1,
    decreases s.len(),
{
    let t = s.update(i, Some(v));
    if i == s.len() - 1 {
        assert(t.drop_last() =~= s.drop_last());
    } else {
        assert(t.drop_last() =~= s.drop_last().update(i, Some(v)));
        lemma_count_some_fill(s.drop_last(), i, v);
    }
}

/// Ranks along a path strictly decrease, so a ranked graph has no cycle.
pub proof fn lemma_ranking_acyclic(g: Seq<Seq<usize>>, rank: Seq<usize>)
    requires
        is_ranking(g, rank),
    ensures
        acyclic(g),
{
    assert forall|path: Seq<usize>| !is_cycle(g, path) by {
        if is_cycle(g, path) {
            let last = path.len() - 1;
            lemma_rank_descends(g, rank, path, last);
            assert(rank[path[last] as int] <= rank[path[0] as int] - last);
        }
    }
}

proof fn lemma_rank_descends(g: Seq<Seq<usize>>, rank: Seq<usize>, path: Seq<usize>, k: int)
    requires
        is_ranking(g, rank),
        is_cycle(g, path),
        0 <= k < path.len(),
    ensures
        rank[path[k] as int] <= rank[path[0] as int] - k,
    decreases k,
{
    if k > 0 {
        lemma_rank_descends(g, rank, path, k - 1);
        assert(edge(g, path[k - 1] as int, path[k] as int));
    }
}

pub open spec fn view_graph(g: &Vec<Vec<usize>>) -> Seq<Seq<usize>> {
    g@.map_values(|v: Vec<usize>| v@)
}

spec fn ranked_below(ranks: Seq<Option<usize>>, j: usize, round: usize) -> bool {
    (j as int) < ranks.len() && ranks[j as int] is Some && ranks[j as int]->0 < round
}

spec fn ready(gs: Seq<Seq<usize>>, ranks: Seq<Option<usize>>, i: int, round: usize) -> bool {
    forall|k: int| 0 <= k < gs[i].len() ==> ranked_below(ranks, #[trigger] gs[i][k], round)
}

/// Ranks given so far decrease along every edge that leaves a ranked node.
spec fn ranks_consistent(gs: Seq<Seq<usize>>, ranks: Seq<Option<usize>>) -> bool {
    forall|i: int, j: int|
        #![trigger edge(gs, i, j), ranks[i]]
        edge(gs, i, j) && 0 <= i < ranks.len() && ranks[i] is Some ==> 0 <= j < ranks.len()
            && ranks[j] is Some && ranks[j]->0 < ranks[i]->0
}

/// Whether every successor of `i` was ranked before round `round`.
fn successors_ranked(g: &Vec<Vec<usize>>, ranks: &Vec<Option<usize>>, i: usize, round: usize) -> (r: bool)
    requires
        i < g.len(),
        ranks.len() == g.len(),
    ensures
        r == ready(view_graph(g), ranks@, i as int, round),
{
    let ghost gs = view_graph(g);
    let succ = &g[i];
    assert(gs[i as int] == succ@);
    let mut k: usize = 0;
    while k < succ.len()
        invariant
            0 <= k <= succ.len(),
            gs == view_graph(g),
            gs[i as int] == succ@,
            i < g.len(),
            ranks.len() == g.len(),
            forall|m: int| 0 <= m < k ==> ranked_below(ranks@, #[trigger] gs[i as int][m], round),
        decreases succ.len() - k,
    {
        let j = succ[k];
        if j >= ranks.len() {
            assert(!ranked_below(ranks@, gs[i as int][k as int], round));
            return false;
        }
        match ranks[j] {
            Some(r) => {
                if r >= round {
                    assert(!ranked_below(ranks@, gs[i as int][k as int], round));
                    return false;
                }
            },
            None => {
                assert(!ranked_below(ranks@, gs[i as int][k as int], round));
                return false;
            },
        }
        k = k + 1;
    }
    true
}

/// A successor of `x` that has no rank, where `x` has one.
fn unranked_successor(g: &Vec<Vec<usize>>, ranks: &Vec<Option<usize>>, x: usize) -> (r: usize)
    requires
        x < g.len(),
        ranks.len() == g.len(),
        graph_wf(view_graph(g)),
        stuck(view_graph(g), ranks@),
        ranks@[x as int] is None,
    ensures
        edge(view_graph(g), x as int, r as int),
        r < g.len(),
        ranks@[r as int] is None,
{
    let ghost gs = view_graph(g);
    let succ = &g[x];
    assert(gs[x as int] == succ@);
    let mut k: usize = 0;
    while k < succ.len()
        invariant
            0 <= k <= succ.len(),
            gs == view_graph(g),
            graph_wf(gs),
            gs[x as int] == succ@,
            x < g.len(),
            ranks.len() == g.len(),
            forall|m: int| 0 <= m < k ==> ranks@[#[trigger] gs[x as int][m] as int] is Some,
        decreases succ.len() - k,
    {
        let j = succ[k];
        assert(gs[x as int][k as int] == j);
        if ranks[j].is_none() {
            assert(gs[x as int].contains(j));
            return j;
        }
        k = k + 1;
    }
    proof {
        assert(ranks@[x as int] is None);
        let k = choose|k: int| 0 <= k < gs[x as int].len() && ranks@[#[trigger] gs[x as int][k] as int] is None;
        assert(ranks@[gs[x as int][k] as int] is Some);
    }
    0
}

spec fn ranks_below(ranks: Seq<Option<usize>>, round: usize) -> bool {
    forall|m: int| 0 <= m < ranks.len() && (#[trigger] ranks[m]) is Some ==> ranks[m]->0 < round
}

/// Every unranked node has an unranked successor.
spec fn stuck(gs: Seq<Seq<usize>>, ranks: Seq<Option<usize>>) -> bool {
    forall|x: int| 0 <= x < ranks.len() && (#[trigger] ranks[x]) is None ==> exists|k: int|
        0 <= k < gs[x].len() && ranks[#[trigger] gs[x][k] as int] is None
}

fn nones(n: usize) -> (r: Vec<Option<usize>>)
    ensures
        r.len() == n,
        count_some(r@) == 0,
        forall|k: int| 0 <= k < n ==> (#[trigger] r[k]) is None,
{
    let mut r: Vec<Option<usize>> = Vec::new();
    let mut m: usize = 0;
    while m < n
        invariant
            0 <= m <= n,
            r.len() == m,
            forall|k: int| 0 <= k < m ==> (#[trigger] r[k]) is None,
        decreases n - m,
    {
        r.push(None);
        m = m + 1;
    }
    proof {
        lemma_count_none_prefix(r@, n as int);
        assert(r@.subrange(0, n as int) =~= r@);
    }
    r
}

/// One round: ranks `round` to each unranked node whose successors all have
/// a smaller rank.
fn rank_pass(g: &Vec<Vec<usize>>, ranks: &mut Vec<Option<usize>>, round: usize) -> (progress: bool)
    requires
        old(ranks).len() == g.len(),
        graph_wf(view_graph(g)),
        ranks_consistent(view_graph(g), old(ranks)@),
        ranks_below(old(ranks)@, round),
    ensures
        final(ranks).len() == g.len(),
        ranks_consistent(view_graph(g), final(ranks)@),
        forall|m: int| 0 <= m < g.len() && (#[trigger] final(ranks)[m]) is Some ==> final(ranks)[m]->0 <= round,
        progress ==> count_some(final(ranks)@) > count_some(old(ranks)@),
        !progress ==> final(ranks)@ == old(ranks)@,
        !progress ==> forall|m: int| 0 <= m < g.len() && final(ranks)[m] is None ==> !ready(view_graph(g), final(ranks)@, m, round),
{
    let ghost gs = view_graph(g);
    let ghost start = ranks@;
    let n = g.len();
    let mut progress = false;
    let mut i: usize = 0;
    while i < n
        invariant
            0 <= i <= n,
            n == g.len(),
            gs == view_graph(g),
            graph_wf(gs),
            ranks.len() == n,
            start.len() == n,
            ranks_consistent(gs, ranks@),
            ranks_below(start, round),
            forall|m: int| 0 <= m < n && (#[trigger] ranks[m]) is Some ==> ranks[m]->0 <= round,
            forall|m: int| 0 <= m < n && (#[trigger] ranks[m]) is Some && start[m] is None ==> ranks[m]->0 == round,
            forall|m: int| 0 <= m < n && (#[trigger] start[m]) is Some ==> ranks[m] == start[m],
            progress ==> count_some(ranks@) > count_some(start),
            !progress ==> ranks@ == start,
            forall|m: int| 0 <= m < i && ranks[m] is None ==> !ready(gs, ranks@, m, round),
        decreases n - i,
    {
        if ranks[i].is_none() && successors_ranked(g, ranks, i, round) {
            let ghost before = ranks@;
            proof {
                lemma_count_some_fill(before, i as int, round);
            }
            ranks.set(i, Some(round));
            progress = true;
            proof {
                assert forall|m: int| 0 <= m < i && ranks[m] is None implies !ready(gs, ranks@, m, round) by {
                    assert(before[m] is None);
                    assert(!ready(gs, before, m, round));
                    let k = choose|k: int| 0 <= k < gs[m].len() && !ranked_below(before, #[trigger] gs[m][k], round);
                    assert(!ranked_below(ranks@, gs[m][k], round));
                }
                assert forall|a: int, b: int|
                    #![trigger edge(gs, a, b), ranks@[a]]
                    edge(gs, a, b) && 0 <= a < ranks.len() && ranks@[a] is Some implies 0 <= b < ranks.len()
                        && ranks@[b] is Some && ranks@[b]->0 < ranks@[a]->0 by {
                    if a == i {
                        let k = choose|k: int| 0 <= k < gs[a].len() && gs[a][k] == b as usize;
                        assert(ranked_below(before, gs[a][k], round));
                        assert(before[b] is Some);
                        assert(b != i);
                    } else {
                        assert(before[a] is Some);
                        assert(edge(gs, a, b));
                        assert(before[b] is Some && before[b]->0 < before[a]->0);
                        assert(b != i);
                    }
                }
            }
        }
        i = i + 1;
    }
    progress
}

/// Orders the nodes of a graph so that every edge goes down in rank, or
/// returns a cycle where no such order exists.
pub fn rank_graph(g: &Vec<Vec<usize>>) -> (r: Result<Vec<usize>, Vec<usize>>)
    requires
        graph_wf(view_graph(g)),
    ensures
        r is Ok ==> is_ranking(view_graph(g), r->Ok_0@),
        r is Err ==> is_cycle(view_graph(g), r->Err_0@),
{
    let ghost gs = view_graph(g);
    let n = g.len();
    let mut ranks = nones(n);
    let mut round: usize = 0;
    loop
        invariant
            n == g.len(),
            gs == view_graph(g),
            graph_wf(gs),
            ranks.len() == n,
            ranks_consistent(gs, ranks@),
            ranks_below(ranks@, round),
            round <= count_some(ranks@),
        decreases n - count_some(ranks@),
    {
        let ghost before = ranks@;
        let progress = rank_pass(g, &mut ranks, round);
        proof {
            lemma_count_some_bound(ranks@);
        }
        if !progress {
            proof {
                assert forall|x: int| 0 <= x < ranks.len() && (#[trigger] ranks@[x]) is None implies exists|k: int|
                    0 <= k < gs[x].len() && ranks@[#[trigger] gs[x][k] as int] is None by {
                    assert(!ready(gs, ranks@, x, round));
                    let k = choose|k: int| 0 <= k < gs[x].len() && !ranked_below(ranks@, #[trigger] gs[x][k], round);
                    let j = gs[x][k];
                    assert(j < n);
                    if ranks@[j as int] is Some {
                        assert(before[j as int] is Some);
                    }
                }
            }
            return finish(g, ranks);
        }
        round = round + 1;
    }
}

/// Ends the ranking: every node ranked gives the order, else an unranked
/// node starts a walk that must close a cycle.
fn finish(g: &Vec<Vec<usize>>, ranks: Vec<Option<usize>>) -> (r: Result<Vec<usize>, Vec<usize>>)
    requires
        ranks.len() == g.len(),
        graph_wf(view_graph(g)),
        ranks_consistent(view_graph(g), ranks@),
        stuck(view_graph(g), ranks@),
    ensures
        r is Ok ==> is_ranking(view_graph(g), r->Ok_0@),
        r is Err ==> is_cycle(view_graph(g), r->Err_0@),
{
    let ghost gs = view_graph(g);
    let n = g.len();
    let mut out: Vec<usize> = Vec::new();
    let mut m: usize = 0;
    while m < n
        invariant
            0 <= m <= n,
            n == g.len(),
            graph_wf(view_graph(g)),
            stuck(view_graph(g), ranks@),
            ranks.len() == n,
            out.len() == m,
            forall|k: int| 0 <= k < m ==> (#[trigger] ranks[k]) == Some(out[k]),
        decreases n - m,
    {
        match ranks[m] {
            Some(r) => out.push(r),
            None => {
                assert(ranks@[m as int] is None);
                return Err(walk_to_cycle(g, &ranks, m));
            },
        }
        m = m + 1;
    }
    proof {
        assert forall|a: int, b: int| edge(gs, a, b) implies out@[a] > out@[b] by {
            assert(ranks@[a] == Some(out@[a]));
        }
    }
    Ok(out)
}

/// What a walk along unranked nodes keeps: `path` follows edges, visits
/// each node at most once, and `pos` tells where each visited node stands.
#[verifier::opaque]
spec fn walk_inv(gs: Seq<Seq<usize>>, ranks: Seq<Option<usize>>, pos: Seq<Option<usize>>, path: Seq<usize>) -> bool {
    let n = gs.len();
    &&& ranks.len() == n
    &&& pos.len() == n
    &&& path.len() >= 1
    &&& count_some(pos) == path.len()
    &&& forall|k: int| 0 <= k < path.len() ==> (#[trigger] path[k]) < n && ranks[path[k] as int] is None
        && pos[path[k] as int] == Some(k as usize)
    &&& forall|x: int| 0 <= x < n && (#[trigger] pos[x]) is Some ==> pos[x]->0 < path.len()
        && path[pos[x]->0 as int] == x
    &&& forall|k: int| 0 <= k < path.len() - 1 ==> edge(gs, #[trigger] path[k] as int, path[k + 1] as int)
}

proof fn lemma_walk_facts(gs: Seq<Seq<usize>>, ranks: Seq<Option<usize>>, pos: Seq<Option<usize>>, path: Seq<usize>)
    requires
        walk_inv(gs, ranks, pos, path),
    ensures
        ranks.len() == gs.len(),
        pos.len() == gs.len(),
        path.len() >= 1,
        count_some(pos) == path.len(),
        path.last() < gs.len(),
        ranks[path.last() as int] is None,
        forall|x: int| 0 <= x < gs.len() && (#[trigger] pos[x]) is Some ==> pos[x]->0 < path.len()
            && path[pos[x]->0 as int] == x,
        forall|k: int| 0 <= k < path.len() - 1 ==> edge(gs, #[trigger] path[k] as int, path[k + 1] as int),
{
    reveal(walk_inv);
    assert(path[path.len() - 1] == path.last());
}

proof fn lemma_walk_start(gs: Seq<Seq<usize>>, ranks: Seq<Option<usize>>, pos: Seq<Option<usize>>, u: usize)
    requires
        ranks.len() == gs.len(),
        pos.len() == gs.len(),
        u < gs.len(),
        ranks[u as int] is None,
        count_some(pos) == 0,
        forall|k: int| 0 <= k < pos.len() ==> (#[trigger] pos[k]) is None,
    ensures
        walk_inv(gs, ranks, pos.update(u as int, Some(0)), seq![u]),
{
    reveal(walk_inv);
    lemma_count_some_fill(pos, u as int, 0);
    let p = pos.update(u as int, Some(0));
    assert forall|x: int| 0 <= x < gs.len() && (#[trigger] p[x]) is Some implies p[x]->0 < 1 && seq![u][p[x]->0 as int] == x by {
        if x != u {
            assert(pos[x] is None);
        }
    }
}

#[verifier::rlimit(100)]
proof fn lemma_walk_push(gs: Seq<Seq<usize>>, ranks: Seq<Option<usize>>, pos: Seq<Option<usize>>, path: Seq<usize>, j: usize)
    requires
        walk_inv(gs, ranks, pos, path),
        gs.len() <= usize::MAX,
        ranks.len() == gs.len(),
        pos.len() == gs.len(),
        j < gs.len(),
        edge(gs, path.last() as int, j as int),
        ranks[j as int] is None,
        pos[j as int] is None,
    ensures
        walk_inv(gs, ranks, pos.update(j as int, Some(path.len() as usize)), path.push(j)),
        path.len() < gs.len(),
{
    reveal(walk_inv);
    let len = path.len();
    lemma_count_some_fill(pos, j as int, len as usize);
    lemma_count_some_bound(pos.update(j as int, Some(len as usize)));
    assert(len < gs.len());
    assert(len as usize as int == len);
    let pos2 = pos.update(j as int, Some(len as usize));
    let path2 = path.push(j);
    assert(path2.len() == len + 1);
    assert(path2[len as int] == j);
    assert(pos[path.last() as int] == Some((len - 1) as usize));
    assert forall|k: int| 0 <= k < path2.len() implies (#[trigger] path2[k]) < gs.len() && ranks[path2[k] as int] is None
        && pos2[path2[k] as int] == Some(k as usize) by {
        if k < len {
            assert(path2[k] == path[k]);
            assert(pos[path[k] as int] == Some(k as usize));
        }
    }
    assert forall|x: int| 0 <= x < gs.len() && (#[trigger] pos2[x]) is Some implies pos2[x]->0 < path2.len()
        && path2[pos2[x]->0 as int] == x by {
        if x != j {
            assert(pos2[x] == pos[x]);
            assert(pos[x] is Some);
            assert(path2[pos[x]->0 as int] == path[pos[x]->0 as int]);
        } else {
            assert(path2[len as int] == j);
        }
    }
    assert forall|k: int| 0 <= k < path2.len() - 1 implies edge(gs, #[trigger] path2[k] as int, path2[k + 1] as int) by {
        if k < len - 1 {
            assert(path2[k] == path[k] && path2[k + 1] == path[k + 1]);
        } else {
            assert(path2[k] == path.last());
        }
    }
}

proof fn lemma_walk_closes(
    gs: Seq<Seq<usize>>,
    ranks: Seq<Option<usize>>,
    pos: Seq<Option<usize>>,
    path: Seq<usize>,
    j: usize,
    c: Seq<usize>,
)
    requires
        walk_inv(gs, ranks, pos, path),
        j < gs.len(),
        edge(gs, path.last() as int, j as int),
        pos[j as int] is Some,
        c.len() == path.len() - pos[j as int]->0 + 1,
        forall|t: int| 0 <= t < path.len() - pos[j as int]->0 ==> #[trigger] c[t] == path[t + pos[j as int]->0],
        c[path.len() - pos[j as int]->0] == j,
    ensures
        is_cycle(gs, c),
{
    lemma_walk_facts(gs, ranks, pos, path);
    let k = pos[j as int]->0 as int;
    assert(c[0] == path[k]);
    assert forall|t: int| 0 <= t < c.len() - 1 implies edge(gs, #[trigger] c[t] as int, c[t + 1] as int) by {
        if t < c.len() - 2 {
            assert(c[t] == path[t + k]);
            assert(c[t + 1] == path[t + 1 + k]);
            assert(edge(gs, path[t + k] as int, path[t + k + 1] as int));
        } else {
            assert(c[t] == path[path.len() - 1]);
        }
    }
}

/// Follows unranked successors from `u` until a node comes back.
fn walk_to_cycle(g: &Vec<Vec<usize>>, ranks: &Vec<Option<usize>>, u: usize) -> (cycle: Vec<usize>)
    requires
        ranks.len() == g.len(),
        u < g.len(),
        ranks@[u as int] is None,
        graph_wf(view_graph(g)),
        stuck(view_graph(g), ranks@),
    ensures
        is_cycle(view_graph(g), cycle@),
{
    let ghost gs = view_graph(g);
    let n = g.len();
    let mut path: Vec<usize> = Vec::new();
    path.push(u);
    let mut pos = nones(n);
    proof {
        lemma_walk_start(gs, ranks@, pos@, u);
        assert(path@ =~= seq![u]);
    }
    pos.set(u, Some(0));
    loop
        invariant
            n == g.len(),
            gs == view_graph(g),
            graph_wf(gs),
            ranks.len() == n,
            stuck(gs, ranks@),
            walk_inv(gs, ranks@, pos@, path@),
        decreases n - path.len(),
    {
        proof {
            lemma_walk_facts(gs, ranks@, pos@, path@);
        }
        let cur = path[path.len() - 1];
        assert(ranks@[cur as int] is None);
        let j = unranked_successor(g, ranks, cur);
        match pos[j] {
            Some(k) => {
                let cycle = close_cycle(&path, k, j);
                proof {
                    lemma_walk_closes(gs, ranks@, pos@, path@, j, cycle@);
                }
                return cycle;
            },
            None => {
                proof {
                    lemma_walk_push(gs, ranks@, pos@, path@, j);
                }
                pos.set(j, Some(path.len()));
                path.push(j);
            },
        }
    }
}

/// `path[k..]` followed by `j`.
fn close_cycle(path: &Vec<usize>, k: usize, j: usize) -> (cycle: Vec<usize>)
    requires
        k < path.len(),
    ensures
        cycle.len() == path.len() - k + 1,
        forall|t: int| 0 <= t < path.len() - k ==> #[trigger] cycle[t] == path[t + k],
        cycle[path.len() - k] == j,
{
    let mut cycle: Vec<usize> = Vec::new();
    let mut q: usize = k;
    while q < path.len()
        invariant
            k <= q <= path.len(),
            cycle.len() == q - k,
            forall|t: int| 0 <= t < cycle.len() ==> #[trigger] cycle[t] == path[t + k],
        decreases path.len() - q,
    {
        cycle.push(path[q]);
        q = q + 1;
    }
    cycle.push(j);
    cycle
}

proof fn lemma_count_none_prefix(s: Seq<Option<usize>>, m: int)
    requires
        0 <= m <= s.len(),
        forall|k: int| 0 <= k < s.len() ==> s[k] is None,
    ensures
        count_some(s.subrange(0, m)) == 0,
    decreases m,
{
    if m > 0 {
        assert(s.subrange(0, m).drop_last() =~= s.subrange(0, m - 1));
        lemma_count_none_prefix(s, m - 1);
    }
}

} // verus!
