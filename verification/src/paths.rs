//! Cheapest paths in a weighted directed graph, with every predecessor that
//! lies on a cheapest path.

use vstd::prelude::*;

verus! {

/// An arc of the graph: where it leads and what it costs.
#[derive(Clone, Copy, Debug)]
pub struct Arc {
    pub to: usize,
    pub cost: usize,
}

/// A graph as the list of arcs that leave each node.
pub type Graph = Seq<Seq<Arc>>;

/// The graph that lists of arcs stand for.
pub open spec fn graph_of(adj: Seq<Vec<Arc>>) -> Graph {
    adj.map_values(|arcs: Vec<Arc>| arcs@)
}

/// The predecessor lists as sequences.
pub open spec fn lists_of(prev: Seq<Vec<usize>>) -> Seq<Seq<usize>> {
    prev.map_values(|list: Vec<usize>| list@)
}

/// Whether `k` names an arc that leaves node `x`.
pub open spec fn arc_ok(g: Graph, x: int, k: int) -> bool {
    0 <= x < g.len() && 0 <= k < g[x].len()
}

/// Whether `i` names an entry of the list of node `v`.
pub open spec fn slot_ok(prev: Seq<Seq<usize>>, v: int, i: int) -> bool {
    0 <= v < prev.len() && 0 <= i < prev[v].len()
}

/// Whether every arc leads to a node of the graph.
pub open spec fn closed(g: Graph) -> bool {
    forall|x: int, k: int| #[trigger] arc_ok(g, x, k) ==> g[x][k].to < g.len()
}

/// Whether the arc `k` of `x` offers its target no cheaper way than the
/// target has: a known cost of `x` plus the arc's cost, where that sum is a
/// machine integer, is no less than the known cost of the target.
pub open spec fn relaxed(g: Graph, dist: Seq<Option<usize>>, x: int, k: int) -> bool {
    let a = g[x][k];
    dist[x] is Some && dist[x].unwrap() + a.cost <= usize::MAX ==> dist[a.to as int] is Some
        && dist[a.to as int].unwrap() <= dist[x].unwrap() + a.cost
}

/// Whether the arc `k` of `x` lies on a cheapest way to its target: the cost
/// of the target is the cost of `x` plus the arc's cost.
pub open spec fn tight(g: Graph, dist: Seq<Option<usize>>, x: int, k: int) -> bool {
    let a = g[x][k];
    dist[x] is Some && dist[a.to as int] is Some && dist[a.to as int].unwrap() == dist[x].unwrap()
        + a.cost
}

/// Whether `p` reaches `v` by a tight arc.
pub open spec fn tight_pred(g: Graph, dist: Seq<Option<usize>>, p: int, v: int) -> bool {
    exists|k: int| #[trigger] arc_ok(g, p, k) && g[p][k].to == v && tight(g, dist, p, k)
}

/// What a finished search has found. The source costs nothing. No arc
/// offers a cheaper way than the costs found. The predecessors of a node
/// are exactly the nodes that reach it by a tight arc, each listed once,
/// and every node with a cost other than the source has one.
pub open spec fn settled(
    g: Graph,
    src: int,
    dist: Seq<Option<usize>>,
    prev: Seq<Seq<usize>>,
) -> bool {
    &&& dist.len() == g.len()
    &&& prev.len() == g.len()
    &&& 0 <= src < g.len()
    &&& dist[src] == Some(0usize)
    &&& forall|x: int, k: int| #[trigger] arc_ok(g, x, k) ==> relaxed(g, dist, x, k)
    &&& forall|v: int, i: int| #[trigger]
        slot_ok(prev, v, i) ==> prev[v][i] < g.len() && tight_pred(g, dist, prev[v][i] as int, v)
    &&& forall|x: int, k: int| #[trigger]
        arc_ok(g, x, k) && tight(g, dist, x, k) ==> prev[g[x][k].to as int].contains(x as usize)
    &&& forall|v: int|
        0 <= v < g.len() && (#[trigger] dist[v]) is Some && v != src ==> prev[v].len() > 0
    &&& forall|v: int| 0 <= v < g.len() ==> (#[trigger] prev[v]).no_duplicates()
}

/// Whether the queue holds an entry for node `x`.
pub open spec fn queued(pq: Seq<Arc>, x: int) -> bool {
    exists|i: int| 0 <= i < pq.len() && (#[trigger] pq[i]).to == x
}

/// Whether the arc `k` of `x` still awaits relaxation: `x` is queued, or it
/// is the node in work and the arc is not yet done.
pub open spec fn pending(pq: Seq<Arc>, cur: int, done: int, x: int, k: int) -> bool {
    queued(pq, x) || (x == cur && k >= done)
}

/// Whether arc `k` justifies that `p` is listed before `v`.
pub open spec fn link_at(
    g: Graph,
    dist: Seq<Option<usize>>,
    pq: Seq<Arc>,
    cur: int,
    done: int,
    p: int,
    v: int,
    k: int,
) -> bool {
    &&& arc_ok(g, p, k)
    &&& g[p][k].to == v
    &&& dist[p] is Some
    &&& dist[v] is Some
    &&& dist[p].unwrap() + g[p][k].cost <= dist[v].unwrap()
    &&& dist[p].unwrap() + g[p][k].cost == dist[v].unwrap() || pending(pq, cur, done, p, k)
}

/// What holds while the search runs, with node `cur` in work and its first
/// `done` arcs relaxed.
pub open spec fn searching(
    g: Graph,
    src: int,
    dist: Seq<Option<usize>>,
    prev: Seq<Seq<usize>>,
    pq: Seq<Arc>,
    cur: int,
    done: int,
) -> bool {
    &&& dist.len() == g.len()
    &&& prev.len() == g.len()
    &&& 0 <= src < g.len()
    &&& dist[src] == Some(0usize)
    &&& forall|i: int| 0 <= i < pq.len() ==> (#[trigger] pq[i]).to < g.len() && dist[pq[i].to as int] is Some
    &&& forall|x: int, k: int| #[trigger]
        arc_ok(g, x, k) ==> relaxed(g, dist, x, k) || pending(pq, cur, done, x, k)
    &&& forall|v: int, i: int| #[trigger]
        slot_ok(prev, v, i) ==> prev[v][i] < g.len() && exists|k: int| #[trigger]
            link_at(g, dist, pq, cur, done, prev[v][i] as int, v, k)
    &&& forall|x: int, k: int| #[trigger]
        arc_ok(g, x, k) && tight(g, dist, x, k) ==> prev[g[x][k].to as int].contains(x as usize)
            || pending(pq, cur, done, x, k)
    &&& forall|v: int|
        0 <= v < g.len() && (#[trigger] dist[v]) is Some && v != src ==> prev[v].len() > 0
    &&& forall|v: int| 0 <= v < g.len() ==> (#[trigger] prev[v]).no_duplicates()
}

/// What a cost weighs in the measure of progress; an unknown cost weighs
/// more than any known one.
pub open spec fn weight(d: Option<usize>) -> int {
    match d {
        Some(x) => x as int,
        None => usize::MAX as int + 1,
    }
}

/// The weights of all costs, summed.
pub open spec fn potential(dist: Seq<Option<usize>>) -> int
    decreases dist.len(),
{
    if dist.len() == 0 {
        0
    } else {
        potential(dist.drop_last()) + weight(dist.last())
    }
}

/// Lowering one cost lowers the potential, which is never negative.
pub proof fn lemma_potential_update(dist: Seq<Option<usize>>, v: int, d: Option<usize>)
    requires
        0 <= v < dist.len(),
        weight(d) < weight(dist[v]),
    ensures
        0 <= potential(dist.update(v, d)) < potential(dist),
    decreases dist.len(),
{
    let after = dist.update(v, d);
    if v == dist.len() - 1 {
        assert(after.drop_last() =~= dist.drop_last());
        lemma_potential_nonnegative(dist.drop_last());
    } else {
        assert(after.drop_last() =~= dist.drop_last().update(v, d));
        lemma_potential_update(dist.drop_last(), v, d);
    }
}

/// The potential is never negative.
pub proof fn lemma_potential_nonnegative(dist: Seq<Option<usize>>)
    ensures
        0 <= potential(dist),
    decreases dist.len(),
{
    if dist.len() > 0 {
        lemma_potential_nonnegative(dist.drop_last());
    }
}

/// An entry stays queued when another entry leaves the queue.
pub proof fn lemma_queued_after_remove(pq: Seq<Arc>, i: int, x: int)
    requires
        0 <= i < pq.len(),
        queued(pq, x),
        pq[i].to != x,
    ensures
        queued(pq.remove(i), x),
{
    let j = choose|j: int| 0 <= j < pq.len() && (#[trigger] pq[j]).to == x;
    if j < i {
        assert(pq.remove(i)[j] == pq[j]);
    } else {
        assert(pq.remove(i)[j - 1] == pq[j]);
    }
}

/// An entry stays queued when another one joins, and the one that joins is queued.
pub proof fn lemma_queued_after_push(pq: Seq<Arc>, a: Arc, x: int)
    ensures
        queued(pq, x) ==> queued(pq.push(a), x),
        queued(pq.push(a), a.to as int),
{
    if queued(pq, x) {
        let j = choose|j: int| 0 <= j < pq.len() && (#[trigger] pq[j]).to == x;
        assert(pq.push(a)[j] == pq[j]);
    }
    assert(pq.push(a)[pq.len() as int] == a);
}

/// Whether `list` holds `x`.
pub fn holds(list: &Vec<usize>, x: usize) -> (found: bool)
    ensures
        found == list@.contains(x),
{
    let mut i: usize = 0;
    while i < list.len()
        invariant
            i <= list.len(),
            forall|k: int| 0 <= k < i ==> list[k] != x,
        decreases list.len() - i,
    {
        if list[i] == x {
            return true;
        }
        i += 1;
    }
    false
}

/// The place of the cheapest entry of a queue that is not empty.
pub fn cheapest(pq: &Vec<Arc>) -> (at: usize)
    requires
        pq.len() > 0,
    ensures
        at < pq.len(),
        forall|i: int| 0 <= i < pq.len() ==> pq[at as int].cost <= pq[i].cost,
{
    let mut at: usize = 0;
    let mut i: usize = 1;
    while i < pq.len()
        invariant
            at < i <= pq.len(),
            forall|k: int| 0 <= k < i ==> pq[at as int].cost <= pq[k].cost,
        decreases pq.len() - i,
    {
        if pq[i].cost < pq[at].cost {
            at = i;
        }
        i += 1;
    }
    at
}

/// Taking an entry from the queue puts its node in work.
pub proof fn lemma_start_work(
    g: Graph,
    src: int,
    dist: Seq<Option<usize>>,
    prev: Seq<Seq<usize>>,
    pq: Seq<Arc>,
    at: int,
)
    requires
        searching(g, src, dist, prev, pq, -1, 0),
        0 <= at < pq.len(),
    ensures
        searching(g, src, dist, prev, pq.remove(at), pq[at].to as int, 0),
{
    let rest = pq.remove(at);
    let u = pq[at].to as int;
    assert forall|x: int, k: int| arc_ok(g, x, k) && pending(pq, -1, 0, x, k) implies pending(
        rest,
        u,
        0,
        x,
        k,
    ) by {
        if x != u {
            lemma_queued_after_remove(pq, at, x);
        }
    }
    assert forall|i: int| 0 <= i < rest.len() implies (#[trigger] rest[i]).to < g.len()
        && dist[rest[i].to as int] is Some by {
        if i < at {
            assert(rest[i] == pq[i]);
        } else {
            assert(rest[i] == pq[i + 1]);
        }
    }
    assert forall|v: int, i: int| #[trigger] slot_ok(prev, v, i) implies prev[v][i] < g.len()
        && exists|k: int| #[trigger] link_at(g, dist, rest, u, 0, prev[v][i] as int, v, k) by {
        let p = prev[v][i] as int;
        let k = choose|k: int| #[trigger] link_at(g, dist, pq, -1, 0, p, v, k);
        assert(link_at(g, dist, rest, u, 0, p, v, k));
    }
    assert forall|x: int, k: int| #[trigger] arc_ok(g, x, k) implies relaxed(g, dist, x, k)
        || pending(rest, u, 0, x, k) by {}
    assert forall|x: int, k: int| #[trigger] arc_ok(g, x, k) && tight(g, dist, x, k) implies prev[g[x][k].to as int].contains(
        x as usize,
    ) || pending(rest, u, 0, x, k) by {}
}

/// When every arc of the node in work is done, no node is in work.
pub proof fn lemma_finish_work(
    g: Graph,
    src: int,
    dist: Seq<Option<usize>>,
    prev: Seq<Seq<usize>>,
    pq: Seq<Arc>,
    u: int,
)
    requires
        0 <= u < g.len(),
        searching(g, src, dist, prev, pq, u, g[u].len() as int),
    ensures
        searching(g, src, dist, prev, pq, -1, 0),
{
    let done = g[u].len() as int;
    assert forall|v: int, i: int| #[trigger] slot_ok(prev, v, i) implies prev[v][i] < g.len()
        && exists|k: int| #[trigger] link_at(g, dist, pq, -1, 0, prev[v][i] as int, v, k) by {
        let p = prev[v][i] as int;
        let k = choose|k: int| #[trigger] link_at(g, dist, pq, u, done, p, v, k);
        assert(link_at(g, dist, pq, -1, 0, p, v, k));
    }
}

/// With nothing queued and no node in work, the search has settled.
pub proof fn lemma_search_done(
    g: Graph,
    src: int,
    dist: Seq<Option<usize>>,
    prev: Seq<Seq<usize>>,
    pq: Seq<Arc>,
)
    requires
        searching(g, src, dist, prev, pq, -1, 0),
        pq.len() == 0,
    ensures
        settled(g, src, dist, prev),
{
    assert forall|v: int, i: int| #[trigger] slot_ok(prev, v, i) implies prev[v][i] < g.len()
        && tight_pred(g, dist, prev[v][i] as int, v) by {
        let p = prev[v][i] as int;
        let k = choose|k: int| #[trigger] link_at(g, dist, pq, -1, 0, p, v, k);
        assert(arc_ok(g, p, k) && g[p][k].to == v && tight(g, dist, p, k));
    }
}

/// An arc that offers nothing cheaper is done without a change.
pub proof fn lemma_arc_skipped(
    g: Graph,
    src: int,
    dist: Seq<Option<usize>>,
    prev: Seq<Seq<usize>>,
    pq: Seq<Arc>,
    u: int,
    j: int,
)
    requires
        searching(g, src, dist, prev, pq, u, j),
        arc_ok(g, u, j),
        closed(g),
        dist[u] is Some,
        dist[u].unwrap() + g[u][j].cost > usize::MAX || (dist[g[u][j].to as int] is Some
            && dist[g[u][j].to as int].unwrap() < dist[u].unwrap() + g[u][j].cost),
    ensures
        searching(g, src, dist, prev, pq, u, j + 1),
{
    assert forall|v: int, i: int| #[trigger] slot_ok(prev, v, i) implies prev[v][i] < g.len()
        && exists|k: int| #[trigger] link_at(g, dist, pq, u, j + 1, prev[v][i] as int, v, k) by {
        let p = prev[v][i] as int;
        let k = choose|k: int| #[trigger] link_at(g, dist, pq, u, j, p, v, k);
        assert(link_at(g, dist, pq, u, j + 1, p, v, k));
    }
    assert forall|x: int, k: int| #[trigger] arc_ok(g, x, k) implies relaxed(g, dist, x, k)
        || pending(pq, u, j + 1, x, k) by {}
    assert forall|x: int, k: int| #[trigger] arc_ok(g, x, k) && tight(g, dist, x, k) implies prev[g[x][k].to as int].contains(
        x as usize,
    ) || pending(pq, u, j + 1, x, k) by {}
}

/// The predecessor lists after `u` has joined the list of `v`, unless it was there.
pub open spec fn with_pred(prev: Seq<Seq<usize>>, v: int, u: usize) -> Seq<Seq<usize>> {
    if prev[v].contains(u) {
        prev
    } else {
        prev.update(v, prev[v].push(u))
    }
}

/// An arc that offers the cost its target has makes its node a predecessor.
pub proof fn lemma_arc_tied(
    g: Graph,
    src: int,
    dist: Seq<Option<usize>>,
    prev: Seq<Seq<usize>>,
    pq: Seq<Arc>,
    u: int,
    j: int,
)
    requires
        searching(g, src, dist, prev, pq, u, j),
        arc_ok(g, u, j),
        closed(g),
        dist[u] is Some,
        dist[u].unwrap() + g[u][j].cost <= usize::MAX,
        dist[g[u][j].to as int] == Some((dist[u].unwrap() + g[u][j].cost) as usize),
        u <= usize::MAX,
    ensures
        searching(g, src, dist, with_pred(prev, g[u][j].to as int, u as usize), pq, u, j + 1),
{
    let v = g[u][j].to as int;
    let after = with_pred(prev, v, u as usize);
    assert(tight(g, dist, u, j));
    assert forall|w: int, i: int| #[trigger] slot_ok(after, w, i) implies after[w][i] < g.len()
        && exists|k: int| #[trigger] link_at(g, dist, pq, u, j + 1, after[w][i] as int, w, k) by {
        if w == v && i == prev[v].len() {
            assert(after[w][i] == u);
            assert(link_at(g, dist, pq, u, j + 1, u, v, j));
        } else {
            assert(slot_ok(prev, w, i));
            assert(after[w][i] == prev[w][i]);
            let p = prev[w][i] as int;
            let k = choose|k: int| #[trigger] link_at(g, dist, pq, u, j, p, w, k);
            assert(link_at(g, dist, pq, u, j + 1, p, w, k));
        }
    }
    assert forall|x: int, k: int| #[trigger] arc_ok(g, x, k) implies relaxed(g, dist, x, k)
        || pending(pq, u, j + 1, x, k) by {}
    assert forall|x: int, k: int| #[trigger] arc_ok(g, x, k) && tight(g, dist, x, k) implies after[g[x][k].to as int].contains(
        x as usize,
    ) || pending(pq, u, j + 1, x, k) by {
        let t = g[x][k].to as int;
        if prev[t].contains(x as usize) {
            let i = choose|i: int| 0 <= i < prev[t].len() && prev[t][i] == x as usize;
            assert(after[t][i] == x as usize);
        } else if x == u && k == j {
            if prev[v].contains(u as usize) {
            } else {
                assert(after[v][prev[v].len() as int] == u as usize);
            }
        }
    }
    assert forall|w: int| 0 <= w < g.len() implies (#[trigger] after[w]).no_duplicates() by {
        assert(prev[w].no_duplicates());
    }
    assert forall|w: int| 0 <= w < g.len() && (#[trigger] dist[w]) is Some && w != src implies after[w].len()
        > 0 by {
        assert(prev[w].len() > 0);
    }
}

/// An arc that offers its target a cheaper way gives the target that cost,
/// makes its node the only predecessor, and queues the target.
pub proof fn lemma_arc_improved(
    g: Graph,
    src: int,
    dist: Seq<Option<usize>>,
    prev: Seq<Seq<usize>>,
    pq: Seq<Arc>,
    u: int,
    j: int,
)
    requires
        searching(g, src, dist, prev, pq, u, j),
        arc_ok(g, u, j),
        closed(g),
        dist[u] is Some,
        dist[u].unwrap() + g[u][j].cost <= usize::MAX,
        dist[u].unwrap() + g[u][j].cost < weight(dist[g[u][j].to as int]),
        u <= usize::MAX,
    ensures
        ({
            let v = g[u][j].to;
            let alt = (dist[u].unwrap() + g[u][j].cost) as usize;
            searching(
                g,
                src,
                dist.update(v as int, Some(alt)),
                prev.update(v as int, seq![u as usize]),
                pq.push(Arc { to: v, cost: alt }),
                u,
                j + 1,
            )
        }),
{
    let v = g[u][j].to as int;
    let alt = (dist[u].unwrap() + g[u][j].cost) as usize;
    let entry = Arc { to: v as usize, cost: alt };
    let dist2 = dist.update(v, Some(alt));
    let prev2 = prev.update(v, seq![u as usize]);
    let pq2 = pq.push(entry);
    assert(v != u);
    assert(v != src);
    lemma_queued_after_push(pq, entry, v);
    assert forall|i: int| 0 <= i < pq2.len() implies (#[trigger] pq2[i]).to < g.len()
        && dist2[pq2[i].to as int] is Some by {
        if i < pq.len() {
            assert(pq2[i] == pq[i]);
        }
    }
    assert forall|x: int, k: int| #[trigger] arc_ok(g, x, k) implies relaxed(g, dist2, x, k)
        || pending(pq2, u, j + 1, x, k) by {
        lemma_queued_after_push(pq, entry, x);
    }
    assert forall|w: int, i: int| #[trigger] slot_ok(prev2, w, i) implies prev2[w][i] < g.len()
        && exists|k: int| #[trigger] link_at(g, dist2, pq2, u, j + 1, prev2[w][i] as int, w, k) by {
        if w == v {
            assert(prev2[w][i] == u);
            assert(link_at(g, dist2, pq2, u, j + 1, u, v, j));
        } else {
            assert(slot_ok(prev, w, i));
            let p = prev[w][i] as int;
            let k = choose|k: int| #[trigger] link_at(g, dist, pq, u, j, p, w, k);
            lemma_queued_after_push(pq, entry, p);
            assert(link_at(g, dist2, pq2, u, j + 1, p, w, k));
        }
    }
    assert forall|x: int, k: int| #[trigger] arc_ok(g, x, k) && tight(g, dist2, x, k) implies prev2[g[x][k].to as int].contains(
        x as usize,
    ) || pending(pq2, u, j + 1, x, k) by {
        lemma_queued_after_push(pq, entry, x);
        let t = g[x][k].to as int;
        if x != v {
            if t == v {
                if x == u {
                    assert(prev2[v][0] == u as usize);
                } else {
                    assert(relaxed(g, dist, x, k) || pending(pq, u, j, x, k));
                }
            } else {
                assert(tight(g, dist, x, k));
            }
        }
    }
    assert forall|w: int| 0 <= w < g.len() implies (#[trigger] prev2[w]).no_duplicates() by {
        if w != v {
            assert(prev[w].no_duplicates());
        }
    }
    assert forall|w: int| 0 <= w < g.len() && (#[trigger] dist2[w]) is Some && w != src implies prev2[w].len()
        > 0 by {
        if w != v {
            assert(dist[w] is Some);
        }
    }
}

/// Finds the cheapest cost of reaching each node from `src`, and for each
/// node the predecessors on its cheapest paths. A cost that is no machine
/// integer counts as no way at all.
pub fn shortest_paths(adj: &Vec<Vec<Arc>>, src: usize) -> (res: (Vec<Option<usize>>, Vec<Vec<usize>>))
    requires
        closed(graph_of(adj@)),
        src < adj.len(),
    ensures
        settled(graph_of(adj@), src as int, res.0@, lists_of(res.1@)),
{
    let n = adj.len();
    let ghost g = graph_of(adj@);
    let mut dist: Vec<Option<usize>> = Vec::new();
    let mut prev: Vec<Vec<usize>> = Vec::new();
    let mut i: usize = 0;
    while i < n
        invariant
            i <= n,
            dist.len() == i,
            prev.len() == i,
            forall|k: int| 0 <= k < i ==> (#[trigger] dist[k]) is None,
            forall|k: int| 0 <= k < i ==> (#[trigger] prev[k]).len() == 0,
        decreases n - i,
    {
        dist.push(None);
        prev.push(Vec::new());
        i += 1;
    }
    dist[src] = Some(0);
    let mut pq: Vec<Arc> = Vec::new();
    pq.push(Arc { to: src, cost: 0 });
    proof {
        assert(pq@[0].to == src);
        assert(queued(pq@, src as int));
        let lists = lists_of(prev@);
        assert forall|x: int, k: int| #[trigger] arc_ok(g, x, k) implies relaxed(g, dist@, x, k)
            || pending(pq@, -1, 0, x, k) by {}
        assert forall|v: int| 0 <= v < g.len() implies (#[trigger] lists[v]).no_duplicates() by {
            assert(lists[v].len() == 0);
        }
    }
    while pq.len() > 0
        invariant
            n == adj.len(),
            g == graph_of(adj@),
            closed(g),
            src < n,
            dist.len() == n,
            prev.len() == n,
            searching(g, src as int, dist@, lists_of(prev@), pq@, -1, 0),
        decreases potential(dist@), pq.len(),
    {
        let at = cheapest(&pq);
        let ghost before = pq@;
        let top = pq.remove(at);
        let u = top.to;
        proof {
            lemma_start_work(g, src as int, dist@, lists_of(prev@), before, at as int);
            lemma_potential_nonnegative(dist@);
        }
        let du = dist[u].unwrap();
        let ghost pot0 = potential(dist@);
        let ghost len0 = pq.len();
        assert(g[u as int] == adj[u as int]@);
        let mut j: usize = 0;
        while j < adj[u].len()
            invariant
                n == adj.len(),
                g == graph_of(adj@),
                closed(g),
                src < n,
                u < n,
                dist.len() == n,
                prev.len() == n,
                g[u as int] == adj[u as int]@,
                j <= adj[u as int].len(),
                dist[u as int] == Some(du),
                searching(g, src as int, dist@, lists_of(prev@), pq@, u as int, j as int),
                0 <= potential(dist@) <= pot0,
                potential(dist@) == pot0 ==> pq.len() == len0,
            decreases adj[u as int].len() - j,
        {
            let a = adj[u][j];
            let v = a.to;
            assert(arc_ok(g, u as int, j as int));
            assert(g[u as int][j as int] == a);
            assert(v < n);
            let ghost lists = lists_of(prev@);
            match du.checked_add(a.cost) {
                None => {
                    proof {
                        lemma_arc_skipped(g, src as int, dist@, lists, pq@, u as int, j as int);
                    }
                },
                Some(alt) => {
                    let better = match dist[v] {
                        None => true,
                        Some(d) => alt < d,
                    };
                    if better {
                        proof {
                            lemma_arc_improved(g, src as int, dist@, lists, pq@, u as int, j as int);
                            lemma_potential_update(dist@, v as int, Some(alt));
                        }
                        dist[v] = Some(alt);
                        pq.push(Arc { to: v, cost: alt });
                        let mut only: Vec<usize> = Vec::new();
                        only.push(u);
                        prev[v] = only;
                        assert(lists_of(prev@) =~= lists.update(v as int, seq![u]));
                    } else if dist[v].unwrap() == alt {
                        proof {
                            lemma_arc_tied(g, src as int, dist@, lists, pq@, u as int, j as int);
                        }
                        if !holds(&prev[v], u) {
                            prev[v].push(u);
                        }
                        assert(lists_of(prev@) =~= with_pred(lists, v as int, u));
                    } else {
                        proof {
                            lemma_arc_skipped(g, src as int, dist@, lists, pq@, u as int, j as int);
                        }
                    }
                },
            }
            j += 1;
        }
        proof {
            lemma_finish_work(g, src as int, dist@, lists_of(prev@), pq@, u as int);
        }
    }
    proof {
        lemma_search_done(g, src as int, dist@, lists_of(prev@), pq@);
    }
    (dist, prev)
}

/// Whether every node that `prev` lists is a node of the lists.
pub open spec fn lists_closed(prev: Seq<Seq<usize>>) -> bool {
    forall|v: int, i: int| #[trigger] slot_ok(prev, v, i) ==> prev[v][i] < prev.len()
}

/// Whether node `i` of `c` is listed as a predecessor of the node after it.
pub open spec fn listed_before(prev: Seq<Seq<usize>>, c: Seq<int>, i: int) -> bool {
    exists|s: int| #[trigger] slot_ok(prev, c[i + 1], s) && prev[c[i + 1]][s] == c[i]
}

/// Whether `c` is a chain of predecessors: each node is listed before the next.
pub open spec fn chain_ok(prev: Seq<Seq<usize>>, c: Seq<int>) -> bool {
    &&& c.len() >= 1
    &&& forall|i: int| 0 <= i < c.len() ==> 0 <= #[trigger] c[i] < prev.len()
    &&& forall|i: int| 0 <= i < c.len() - 1 ==> #[trigger] listed_before(prev, c, i)
}

/// Whether a chain of predecessors leads from `x` to `t`.
pub open spec fn leads_back(prev: Seq<Seq<usize>>, x: int, t: int) -> bool {
    exists|c: Seq<int>| #[trigger] chain_ok(prev, c) && c[0] == x && c.last() == t
}

/// Whether a chain of predecessors leads from `x` to one of `targets`.
pub open spec fn leads_to_any(prev: Seq<Seq<usize>>, x: int, targets: Seq<usize>) -> bool {
    exists|i: int| 0 <= i < targets.len() && leads_back(prev, x, #[trigger] targets[i] as int)
}

/// How many marks are not set.
pub open spec fn unmarked(marks: Seq<bool>) -> int
    decreases marks.len(),
{
    if marks.len() == 0 {
        0
    } else {
        unmarked(marks.drop_last()) + if marks.last() {
            0int
        } else {
            1int
        }
    }
}

/// Setting a mark that was not set leaves one unmarked node fewer.
pub proof fn lemma_unmarked_update(marks: Seq<bool>, v: int)
    requires
        0 <= v < marks.len(),
        !marks[v],
    ensures
        0 <= unmarked(marks.update(v, true)) < unmarked(marks),
    decreases marks.len(),
{
    let after = marks.update(v, true);
    if v == marks.len() - 1 {
        assert(after.drop_last() =~= marks.drop_last());
        lemma_unmarked_nonnegative(marks.drop_last());
    } else {
        assert(after.drop_last() =~= marks.drop_last().update(v, true));
        lemma_unmarked_update(marks.drop_last(), v);
    }
}

/// There are never fewer than no unmarked nodes.
pub proof fn lemma_unmarked_nonnegative(marks: Seq<bool>)
    ensures
        0 <= unmarked(marks),
    decreases marks.len(),
{
    if marks.len() > 0 {
        lemma_unmarked_nonnegative(marks.drop_last());
    }
}

/// A node leads back to itself.
pub proof fn lemma_leads_back_self(prev: Seq<Seq<usize>>, t: int)
    requires
        0 <= t < prev.len(),
    ensures
        leads_back(prev, t, t),
{
    let c = seq![t];
    assert(chain_ok(prev, c));
    assert(c[0] == t && c.last() == t);
}

/// A predecessor of a node leads back wherever the node does.
pub proof fn lemma_leads_back_step(prev: Seq<Seq<usize>>, x: int, s: int, t: int)
    requires
        slot_ok(prev, x, s),
        prev[x][s] < prev.len(),
        leads_back(prev, x, t),
    ensures
        leads_back(prev, prev[x][s] as int, t),
{
    let c = choose|c: Seq<int>| #[trigger] chain_ok(prev, c) && c[0] == x && c.last() == t;
    let p = prev[x][s] as int;
    let d = seq![p] + c;
    assert forall|i: int| 0 <= i < d.len() - 1 implies #[trigger] listed_before(prev, d, i) by {
        if i == 0 {
            assert(d[1] == c[0]);
            assert(slot_ok(prev, d[i + 1], s) && prev[d[i + 1]][s] == d[i]);
        } else {
            assert(d[i] == c[i - 1] && d[i + 1] == c[i]);
            assert(listed_before(prev, c, i - 1));
            let s2 = choose|s2: int| #[trigger]
                slot_ok(prev, c[i - 1 + 1], s2) && prev[c[i - 1 + 1]][s2] == c[i - 1];
            assert(slot_ok(prev, d[i + 1], s2) && prev[d[i + 1]][s2] == d[i]);
        }
    }
    assert forall|i: int| 0 <= i < d.len() implies 0 <= #[trigger] d[i] < prev.len() by {
        if i > 0 {
            assert(d[i] == c[i - 1]);
        }
    }
    assert(chain_ok(prev, d));
    assert(d[0] == p && d.last() == c.last());
}

/// Marks that hold for the end of a chain and pass from every node to its
/// predecessors hold for the start of the chain.
pub proof fn lemma_marks_cover_chain(prev: Seq<Seq<usize>>, marks: Seq<bool>, c: Seq<int>)
    requires
        marks.len() == prev.len(),
        chain_ok(prev, c),
        marks[c.last()],
        forall|v: int, s: int| #[trigger] slot_ok(prev, v, s) && marks[v] ==> marks[prev[v][s] as int],
    ensures
        marks[c[0]],
    decreases c.len(),
{
    if c.len() > 1 {
        let rest = c.drop_first();
        assert forall|i: int| 0 <= i < rest.len() - 1 implies #[trigger] listed_before(
            prev,
            rest,
            i,
        ) by {
            assert(rest[i] == c[i + 1] && rest[i + 1] == c[i + 1 + 1]);
            assert(listed_before(prev, c, i + 1));
            let s = choose|s: int| #[trigger]
                slot_ok(prev, c[i + 1 + 1], s) && prev[c[i + 1 + 1]][s] == c[i + 1];
            assert(slot_ok(prev, rest[i + 1], s) && prev[rest[i + 1]][s] == rest[i]);
        }
        assert forall|i: int| 0 <= i < rest.len() implies 0 <= #[trigger] rest[i] < prev.len() by {
            assert(rest[i] == c[i + 1]);
        }
        assert(rest.last() == c.last());
        lemma_marks_cover_chain(prev, marks, rest);
        assert(rest[0] == c[1]);
        assert(listed_before(prev, c, 0));
        let s = choose|s: int| #[trigger] slot_ok(prev, c[0int + 1], s) && prev[c[0int + 1]][s] == c[0];
        assert(slot_ok(prev, c[1], s) && marks[c[1]]);
    }
}

/// Whether every marked node has passed its mark on to its predecessors,
/// but for the nodes that wait in `work` and for the entries from `done` on
/// of the node `cur` in work.
pub open spec fn passed_on(
    lists: Seq<Seq<usize>>,
    marks: Seq<bool>,
    work: Seq<usize>,
    cur: int,
    done: int,
) -> bool {
    forall|v: int, k: int| #[trigger]
        slot_ok(lists, v, k) && marks[v] ==> marks[lists[v][k] as int] || work.contains(v as usize)
            || (v == cur && k >= done)
}

/// Whether every marked node leads back to a target.
pub open spec fn marks_sound(lists: Seq<Seq<usize>>, marks: Seq<bool>, targets: Seq<usize>) -> bool {
    forall|x: int| 0 <= x < marks.len() && #[trigger] marks[x] ==> leads_to_any(lists, x, targets)
}

/// Whether every node that waits is a marked node.
pub open spec fn work_marked(marks: Seq<bool>, work: Seq<usize>) -> bool {
    forall|i: int| 0 <= i < work.len() ==> (#[trigger] work[i]) < marks.len() && marks[work[i] as int]
}

/// Taking the last waiting node puts it in work.
pub proof fn lemma_take_work(lists: Seq<Seq<usize>>, marks: Seq<bool>, work: Seq<usize>)
    requires
        lists.len() <= usize::MAX,
        work.len() > 0,
        passed_on(lists, marks, work, -1, 0),
        work_marked(marks, work),
    ensures
        passed_on(lists, marks, work.drop_last(), work.last() as int, 0),
        work_marked(marks, work.drop_last()),
{
    let rest = work.drop_last();
    assert forall|v: int, k: int| #[trigger] slot_ok(lists, v, k) && marks[v] implies marks[lists[v][k] as int]
        || rest.contains(v as usize) || (v == work.last() as int && k >= 0) by {
        if work.contains(v as usize) && v != work.last() as int {
            let i = choose|i: int| 0 <= i < work.len() && work[i] == v as usize;
            assert(rest[i] == v as usize);
        }
    }
    assert forall|i: int| 0 <= i < rest.len() implies (#[trigger] rest[i]) < marks.len()
        && marks[rest[i] as int] by {
        assert(rest[i] == work[i]);
    }
}

/// A predecessor that is marked already needs nothing done.
pub proof fn lemma_pred_marked(
    lists: Seq<Seq<usize>>,
    marks: Seq<bool>,
    work: Seq<usize>,
    x: int,
    s: int,
)
    requires
        passed_on(lists, marks, work, x, s),
        slot_ok(lists, x, s),
        marks[lists[x][s] as int],
    ensures
        passed_on(lists, marks, work, x, s + 1),
{
}

/// A predecessor that is not marked gets its mark and waits for its turn.
pub proof fn lemma_pred_joins(
    lists: Seq<Seq<usize>>,
    marks: Seq<bool>,
    work: Seq<usize>,
    targets: Seq<usize>,
    x: int,
    s: int,
)
    requires
        lists.len() <= usize::MAX,
        marks.len() == lists.len(),
        lists_closed(lists),
        passed_on(lists, marks, work, x, s),
        work_marked(marks, work),
        marks_sound(lists, marks, targets),
        slot_ok(lists, x, s),
        marks[x],
        !marks[lists[x][s] as int],
    ensures
        passed_on(lists, marks.update(lists[x][s] as int, true), work.push(lists[x][s]), x, s + 1),
        work_marked(marks.update(lists[x][s] as int, true), work.push(lists[x][s])),
        marks_sound(lists, marks.update(lists[x][s] as int, true), targets),
{
    let p = lists[x][s];
    let marks2 = marks.update(p as int, true);
    let work2 = work.push(p);
    assert forall|v: int, k: int| #[trigger] slot_ok(lists, v, k) && marks2[v] implies marks2[lists[v][k] as int]
        || work2.contains(v as usize) || (v == x && k >= s + 1) by {
        if v == p as int {
            assert(work2[work.len() as int] == p);
        } else if work.contains(v as usize) {
            let i = choose|i: int| 0 <= i < work.len() && work[i] == v as usize;
            assert(work2[i] == v as usize);
        }
    }
    assert forall|i: int| 0 <= i < work2.len() implies (#[trigger] work2[i]) < marks2.len()
        && marks2[work2[i] as int] by {
        if i < work.len() {
            assert(work2[i] == work[i]);
        }
    }
    assert forall|y: int| 0 <= y < marks2.len() && #[trigger] marks2[y] implies leads_to_any(
        lists,
        y,
        targets,
    ) by {
        if y == p as int {
            assert(leads_to_any(lists, x, targets));
            let i = choose|i: int|
                0 <= i < targets.len() && leads_back(lists, x, #[trigger] targets[i] as int);
            lemma_leads_back_step(lists, x, s, targets[i] as int);
        } else {
            assert(marks[y]);
        }
    }
}

/// Marks that were all passed on cover every node that leads back to a target.
pub proof fn lemma_marks_complete(
    lists: Seq<Seq<usize>>,
    marks: Seq<bool>,
    targets: Seq<usize>,
    x: int,
)
    requires
        lists.len() <= usize::MAX,
        marks.len() == lists.len(),
        passed_on(lists, marks, Seq::empty(), -1, 0),
        forall|i: int| 0 <= i < targets.len() ==> targets[i] < marks.len() && marks[targets[i] as int],
        leads_to_any(lists, x, targets),
    ensures
        marks[x],
{
    let i = choose|i: int|
        0 <= i < targets.len() && leads_back(lists, x, #[trigger] targets[i] as int);
    let c = choose|c: Seq<int>| #[trigger]
        chain_ok(lists, c) && c[0] == x && c.last() == targets[i] as int;
    assert forall|v: int, k: int| #[trigger] slot_ok(lists, v, k) && marks[v] implies marks[lists[v][k] as int] by {
        assert(!Seq::<usize>::empty().contains(v as usize));
    }
    lemma_marks_cover_chain(lists, marks, c);
}

/// Marks every node from which a chain of predecessors leads to one of `targets`.
pub fn back_closure(prev: &Vec<Vec<usize>>, targets: &Vec<usize>) -> (marks: Vec<bool>)
    requires
        lists_closed(lists_of(prev@)),
        forall|i: int| 0 <= i < targets.len() ==> targets[i] < prev.len(),
    ensures
        marks.len() == prev.len(),
        forall|x: int|
            0 <= x < prev.len() ==> (#[trigger] marks[x] <==> leads_to_any(
                lists_of(prev@),
                x,
                targets@,
            )),
{
    let n = prev.len();
    let ghost lists = lists_of(prev@);
    let mut marks: Vec<bool> = Vec::new();
    let mut i: usize = 0;
    while i < n
        invariant
            i <= n,
            marks.len() == i,
            forall|k: int| 0 <= k < i ==> !(#[trigger] marks[k]),
        decreases n - i,
    {
        marks.push(false);
        i += 1;
    }
    let mut work: Vec<usize> = Vec::new();
    let mut t: usize = 0;
    while t < targets.len()
        invariant
            t <= targets.len(),
            n == prev.len(),
            lists == lists_of(prev@),
            marks.len() == n,
            forall|i: int| 0 <= i < targets.len() ==> targets[i] < prev.len(),
            forall|i: int| 0 <= i < t ==> marks[targets[i] as int],
            marks_sound(lists, marks@, targets@),
            work_marked(marks@, work@),
            forall|x: int| 0 <= x < n && #[trigger] marks[x] ==> work@.contains(x as usize),
        decreases targets.len() - t,
    {
        let x = targets[t];
        if !marks[x] {
            proof {
                lemma_leads_back_self(lists, x as int);
            }
            let ghost before = work@;
            marks[x] = true;
            work.push(x);
            assert forall|y: int| 0 <= y < n && #[trigger] marks[y] implies work@.contains(y as usize) by {
                if y == x {
                    assert(work@[before.len() as int] == x);
                } else {
                    let k = choose|k: int| 0 <= k < before.len() && before[k] == y as usize;
                    assert(work@[k] == y as usize);
                }
            }
            assert forall|i: int| 0 <= i < work.len() implies (#[trigger] work[i]) < marks.len()
                && marks[work[i] as int] by {
                if i < before.len() {
                    assert(work[i] == before[i]);
                }
            }
        }
        t += 1;
    }
    while work.len() > 0
        invariant
            n == prev.len(),
            lists == lists_of(prev@),
            lists_closed(lists),
            marks.len() == n,
            forall|i: int| 0 <= i < targets.len() ==> targets[i] < prev.len() && marks[targets[i] as int],
            marks_sound(lists, marks@, targets@),
            work_marked(marks@, work@),
            passed_on(lists, marks@, work@, -1, 0),
        decreases unmarked(marks@), work.len(),
    {
        let ghost before = work@;
        let x = work.pop().unwrap();
        proof {
            assert(work@ =~= before.drop_last());
            lemma_take_work(lists, marks@, before);
            lemma_unmarked_nonnegative(marks@);
        }
        let ghost count0 = unmarked(marks@);
        let ghost len0 = work.len();
        assert(lists[x as int] == prev[x as int]@);
        let mut s: usize = 0;
        while s < prev[x].len()
            invariant
                n == prev.len(),
                x < n,
                lists == lists_of(prev@),
                lists_closed(lists),
                lists[x as int] == prev[x as int]@,
                marks.len() == n,
                s <= prev[x as int].len(),
                marks[x as int],
                forall|i: int|
                    0 <= i < targets.len() ==> targets[i] < prev.len() && marks[targets[i] as int],
                marks_sound(lists, marks@, targets@),
                work_marked(marks@, work@),
                passed_on(lists, marks@, work@, x as int, s as int),
                0 <= unmarked(marks@) <= count0,
                unmarked(marks@) == count0 ==> work.len() == len0,
            decreases prev[x as int].len() - s,
        {
            let p = prev[x][s];
            assert(slot_ok(lists, x as int, s as int));
            assert(lists[x as int][s as int] == p);
            if !marks[p] {
                proof {
                    lemma_unmarked_update(marks@, p as int);
                    lemma_pred_joins(lists, marks@, work@, targets@, x as int, s as int);
                }
                marks[p] = true;
                work.push(p);
            } else {
                proof {
                    lemma_pred_marked(lists, marks@, work@, x as int, s as int);
                }
            }
            s += 1;
        }
    }
    proof {
        assert(work@ =~= Seq::<usize>::empty());
        assert forall|x: int| 0 <= x < prev.len() && leads_to_any(lists, x, targets@) implies #[trigger] marks[x] by {
            lemma_marks_complete(lists, marks@, targets@, x);
        }
    }
    marks
}

/// Whether `nodes` and `picks` describe a walk through the graph: arc
/// `picks[i]` leads from `nodes[i]` to `nodes[i + 1]`.
pub open spec fn walk_ok(g: Graph, nodes: Seq<int>, picks: Seq<int>) -> bool {
    &&& nodes.len() == picks.len() + 1
    &&& 0 <= nodes[0] < g.len()
    &&& forall|i: int|
        0 <= i < picks.len() ==> #[trigger] arc_ok(g, nodes[i], picks[i]) && g[nodes[i]][picks[i]].to
            == nodes[i + 1]
}

/// What a walk costs: the costs of its arcs, summed.
pub open spec fn walk_cost(g: Graph, nodes: Seq<int>, picks: Seq<int>) -> int
    decreases picks.len(),
{
    if picks.len() == 0 {
        0
    } else {
        walk_cost(g, nodes.drop_last(), picks.drop_last()) + g[nodes[picks.len() - 1]][picks.last()].cost
    }
}

/// Whether every node of a walk is listed as a predecessor of the next.
pub open spec fn follows_prev(prev: Seq<Seq<usize>>, nodes: Seq<int>) -> bool {
    forall|i: int| 0 <= i < nodes.len() - 1 ==> #[trigger] follows_at(prev, nodes, i)
}

/// Whether node `i` of a walk is listed as a predecessor of the next node.
pub open spec fn follows_at(prev: Seq<Seq<usize>>, nodes: Seq<int>, i: int) -> bool {
    0 <= nodes[i] <= usize::MAX && prev[nodes[i + 1]].contains(nodes[i] as usize)
}

/// Whether every arc costs something.
pub open spec fn costly(g: Graph) -> bool {
    forall|x: int, k: int| #[trigger] arc_ok(g, x, k) ==> g[x][k].cost >= 1
}

/// A walk without its last arc is a walk, and costs no more.
pub proof fn lemma_walk_prefix(g: Graph, nodes: Seq<int>, picks: Seq<int>)
    requires
        walk_ok(g, nodes, picks),
        picks.len() > 0,
    ensures
        walk_ok(g, nodes.drop_last(), picks.drop_last()),
        0 <= walk_cost(g, nodes.drop_last(), picks.drop_last()) <= walk_cost(g, nodes, picks),
        nodes.drop_last().last() == nodes[picks.len() - 1],
        nodes.drop_last()[0] == nodes[0],
        arc_ok(g, nodes[picks.len() - 1], picks.last()),
        g[nodes[picks.len() - 1]][picks.last()].to == nodes.last(),
    decreases picks.len(),
{
    let front = nodes.drop_last();
    let fewer = picks.drop_last();
    assert forall|i: int| 0 <= i < fewer.len() implies #[trigger] arc_ok(g, front[i], fewer[i]) && g[front[i]][fewer[i]].to
        == front[i + 1] by {
        assert(front[i] == nodes[i] && fewer[i] == picks[i]);
        assert(arc_ok(g, nodes[i], picks[i]));
    }
    assert(arc_ok(g, nodes[picks.len() - 1], picks[picks.len() - 1]));
    if fewer.len() > 0 {
        lemma_walk_prefix(g, front, fewer);
    }
}

/// No walk from the source to a node costs less than the cost that the
/// search found for the node.
pub proof fn lemma_cost_is_lowest(
    g: Graph,
    src: int,
    dist: Seq<Option<usize>>,
    prev: Seq<Seq<usize>>,
    nodes: Seq<int>,
    picks: Seq<int>,
)
    requires
        closed(g),
        settled(g, src, dist, prev),
        walk_ok(g, nodes, picks),
        nodes[0] == src,
        walk_cost(g, nodes, picks) <= usize::MAX,
    ensures
        0 <= nodes.last() < g.len(),
        dist[nodes.last()] is Some,
        dist[nodes.last()].unwrap() <= walk_cost(g, nodes, picks),
    decreases picks.len(),
{
    if picks.len() > 0 {
        lemma_walk_prefix(g, nodes, picks);
        lemma_cost_is_lowest(g, src, dist, prev, nodes.drop_last(), picks.drop_last());
        let x = nodes[picks.len() - 1];
        assert(relaxed(g, dist, x, picks.last()));
    }
}

/// A cheapest walk follows the predecessor lists: each of its nodes is
/// listed before the next one.
pub proof fn lemma_cheapest_walk_follows_prev(
    g: Graph,
    src: int,
    dist: Seq<Option<usize>>,
    prev: Seq<Seq<usize>>,
    nodes: Seq<int>,
    picks: Seq<int>,
)
    requires
        closed(g),
        g.len() <= usize::MAX,
        settled(g, src, dist, prev),
        walk_ok(g, nodes, picks),
        nodes[0] == src,
        0 <= nodes.last() < g.len(),
        dist[nodes.last()] == Some(walk_cost(g, nodes, picks) as usize),
        walk_cost(g, nodes, picks) <= usize::MAX,
    ensures
        follows_prev(prev, nodes),
        forall|i: int| 0 <= i < nodes.len() ==> 0 <= #[trigger] nodes[i] < g.len(),
    decreases picks.len(),
{
    if picks.len() > 0 {
        lemma_walk_prefix(g, nodes, picks);
        let front = nodes.drop_last();
        let fewer = picks.drop_last();
        lemma_cost_is_lowest(g, src, dist, prev, front, fewer);
        let x = nodes[picks.len() - 1];
        assert(relaxed(g, dist, x, picks.last()));
        assert(tight(g, dist, x, picks.last()));
        lemma_cheapest_walk_follows_prev(g, src, dist, prev, front, fewer);
        assert forall|i: int| 0 <= i < nodes.len() - 1 implies #[trigger] follows_at(
            prev,
            nodes,
            i,
        ) by {
            if i < nodes.len() - 2 {
                assert(front[i] == nodes[i] && front[i + 1] == nodes[i + 1]);
                assert(follows_at(prev, front, i));
            }
        }
        assert forall|i: int| 0 <= i < nodes.len() implies 0 <= #[trigger] nodes[i] < g.len() by {
            if i < nodes.len() - 1 {
                assert(front[i] == nodes[i]);
            }
        }
    }
}

/// Every node with a cost is reached by a walk from the source that costs
/// exactly that and follows the predecessor lists, where every arc costs
/// something.
pub proof fn lemma_cheapest_walk_exists(
    g: Graph,
    src: int,
    dist: Seq<Option<usize>>,
    prev: Seq<Seq<usize>>,
    v: int,
) -> (walk: (Seq<int>, Seq<int>))
    requires
        closed(g),
        costly(g),
        settled(g, src, dist, prev),
        0 <= v < g.len(),
        dist[v] is Some,
    ensures
        walk_ok(g, walk.0, walk.1),
        walk.0[0] == src,
        walk.0.last() == v,
        walk_cost(g, walk.0, walk.1) == dist[v].unwrap(),
        follows_prev(prev, walk.0),
    decreases dist[v].unwrap(),
{
    if v == src {
        let nodes = seq![src];
        let picks = Seq::<int>::empty();
        assert(walk_ok(g, nodes, picks));
        assert(nodes.len() == 1);
        assert(follows_prev(prev, nodes));
        (nodes, picks)
    } else {
        assert(prev[v].len() > 0);
        assert(slot_ok(prev, v, 0));
        let p = prev[v][0] as int;
        let k = choose|k: int| #[trigger] arc_ok(g, p, k) && g[p][k].to == v && tight(g, dist, p, k);
        let before = lemma_cheapest_walk_exists(g, src, dist, prev, p);
        let nodes = before.0.push(v);
        let picks = before.1.push(k);
        assert(nodes.drop_last() =~= before.0);
        assert(picks.drop_last() =~= before.1);
        assert forall|i: int| 0 <= i < picks.len() implies #[trigger] arc_ok(g, nodes[i], picks[i])
            && g[nodes[i]][picks[i]].to == nodes[i + 1] by {
            if i < before.1.len() {
                assert(arc_ok(g, before.0[i], before.1[i]));
            }
        }
        assert forall|i: int| 0 <= i < nodes.len() - 1 implies #[trigger] follows_at(
            prev,
            nodes,
            i,
        ) by {
            if i < nodes.len() - 2 {
                assert(before.0[i] == nodes[i] && before.0[i + 1] == nodes[i + 1]);
                assert(follows_at(prev, before.0, i));
            } else {
                assert(nodes[i] == p && nodes[i + 1] == v);
                assert(prev[v][0] == p as usize);
            }
        }
        assert(nodes[0] == before.0[0]);
        assert(walk_ok(g, nodes, picks));
        assert(follows_prev(prev, nodes));
        (nodes, picks)
    }
}

/// Every node of a walk that follows the predecessor lists leads back to
/// the end of the walk.
pub proof fn lemma_walk_nodes_lead_back(prev: Seq<Seq<usize>>, nodes: Seq<int>, i: int)
    requires
        nodes.len() >= 1,
        0 <= i < nodes.len(),
        follows_prev(prev, nodes),
        forall|k: int| 0 <= k < nodes.len() ==> 0 <= #[trigger] nodes[k] < prev.len(),
    ensures
        leads_back(prev, nodes[i], nodes.last()),
{
    let c = nodes.skip(i);
    assert forall|k: int| 0 <= k < c.len() - 1 implies #[trigger] listed_before(prev, c, k) by {
        assert(c[k] == nodes[i + k] && c[k + 1] == nodes[i + k + 1]);
        let list = prev[nodes[i + k + 1]];
        assert(follows_at(prev, nodes, i + k));
        assert(list.contains(nodes[i + k] as usize));
        let s = choose|s: int| 0 <= s < list.len() && list[s] == nodes[i + k] as usize;
        assert(slot_ok(prev, c[k + 1], s) && prev[c[k + 1]][s] == c[k]);
    }
    assert forall|k: int| 0 <= k < c.len() implies 0 <= #[trigger] c[k] < prev.len() by {
        assert(c[k] == nodes[i + k]);
    }
    assert(chain_ok(prev, c));
    assert(c[0] == nodes[i] && c.last() == nodes.last());
}

/// Every node of a cheapest walk from the source to `nodes.last()` leads
/// back to the end of the walk along the predecessor lists: no cheapest
/// path is missed by one who follows the lists back from its end.
pub proof fn lemma_cheapest_walk_is_covered(
    g: Graph,
    src: int,
    dist: Seq<Option<usize>>,
    prev: Seq<Seq<usize>>,
    nodes: Seq<int>,
    picks: Seq<int>,
    i: int,
)
    requires
        closed(g),
        g.len() <= usize::MAX,
        settled(g, src, dist, prev),
        walk_ok(g, nodes, picks),
        nodes[0] == src,
        0 <= nodes.last() < g.len(),
        walk_cost(g, nodes, picks) <= usize::MAX,
        dist[nodes.last()] == Some(walk_cost(g, nodes, picks) as usize),
        0 <= i < nodes.len(),
    ensures
        0 <= nodes[i] < g.len(),
        leads_back(prev, nodes[i], nodes.last()),
{
    lemma_cheapest_walk_follows_prev(g, src, dist, prev, nodes, picks);
    lemma_walk_nodes_lead_back(prev, nodes, i);
}

/// Every node from which the predecessor lists lead to a node with a cost
/// lies on a cheapest walk from the source to that node, where every arc
/// costs something: one who follows the lists back from the end of the
/// cheapest paths meets no node that is on none of them. The walk comes
/// with the place of the first node of the chain in it.
pub proof fn lemma_chain_is_on_cheapest_walk(
    g: Graph,
    src: int,
    dist: Seq<Option<usize>>,
    prev: Seq<Seq<usize>>,
    c: Seq<int>,
) -> (found: (Seq<int>, Seq<int>, int))
    requires
        closed(g),
        costly(g),
        settled(g, src, dist, prev),
        chain_ok(prev, c),
        dist[c.last()] is Some,
    ensures
        walk_ok(g, found.0, found.1),
        found.0[0] == src,
        found.0.last() == c.last(),
        walk_cost(g, found.0, found.1) == dist[c.last()].unwrap(),
        0 <= found.2 < found.0.len(),
        found.0[found.2] == c[0],
    decreases c.len(),
{
    let t = c.last();
    assert(0 <= c[c.len() - 1] < prev.len());
    if c.len() == 1 {
        let walk = lemma_cheapest_walk_exists(g, src, dist, prev, t);
        (walk.0, walk.1, walk.0.len() - 1)
    } else {
        let shorter = c.drop_last();
        let p = shorter.last();
        assert(p == c[c.len() - 2]);
        assert(listed_before(prev, c, c.len() - 2));
        let s = choose|s: int| #[trigger] slot_ok(prev, c[c.len() - 2 + 1], s) && prev[c[c.len() - 2 + 1]][s] == c[c.len() - 2];
        assert(slot_ok(prev, t, s));
        assert(tight_pred(g, dist, p, t));
        let k = choose|k: int| #[trigger] arc_ok(g, p, k) && g[p][k].to == t && tight(g, dist, p, k);
        assert(chain_ok(prev, shorter)) by {
            assert forall|i: int| 0 <= i < shorter.len() implies 0 <= #[trigger] shorter[i] < prev.len() by {
                assert(shorter[i] == c[i]);
            }
            assert forall|i: int| 0 <= i < shorter.len() - 1 implies #[trigger] listed_before(prev, shorter, i) by {
                assert(listed_before(prev, c, i));
                let at = choose|at: int| #[trigger] slot_ok(prev, c[i + 1], at) && prev[c[i + 1]][at] == c[i];
                assert(shorter[i] == c[i] && shorter[i + 1] == c[i + 1]);
                assert(slot_ok(prev, shorter[i + 1], at));
            }
        }
        let before = lemma_chain_is_on_cheapest_walk(g, src, dist, prev, shorter);
        let nodes = before.0.push(t);
        let picks = before.1.push(k);
        assert(nodes.drop_last() =~= before.0);
        assert(picks.drop_last() =~= before.1);
        assert forall|i: int| 0 <= i < picks.len() implies #[trigger] arc_ok(g, nodes[i], picks[i])
            && g[nodes[i]][picks[i]].to == nodes[i + 1] by {
            if i < before.1.len() {
                assert(arc_ok(g, before.0[i], before.1[i]));
            }
        }
        assert(nodes[0] == before.0[0]);
        assert(walk_ok(g, nodes, picks));
        assert(nodes[before.2] == before.0[before.2]);
        assert(shorter[0] == c[0]);
        (nodes, picks, before.2)
    }
}

} // verus!
