//! Real-time shortest-path routing over the latency mesh.
//!
//! Dijkstra on the live latency matrix picks the fastest path to each
//! destination. Costs are RTTs in whole microseconds; a path whose cost
//! reaches `u64::MAX` counts as unreachable.
use super::latency_matrix::{
    duration_as_micros, duration_from_micros, duration_new, max_duration_micros, micros_of, LatencyMatrix,
};
use std::sync::Arc;
use std::time::Duration;
use vstd::prelude::*;

verus! {

/// The RTT matrix by node index, as `LatencyMatrix::weights` gives it.
pub type Graph = Seq<Seq<Option<u64>>>;

/// The identifiers that a list of strings holds.
pub open spec fn string_ids(v: Seq<String>) -> Seq<Seq<char>> {
    v.map_values(|s: String| s@)
}

/// Hop `k` of the name path `p` has a measured RTT.
pub open spec fn hop_ok(m: LatencyMatrix, p: Seq<Seq<char>>, k: int) -> bool {
    m.rtt_of(p[k], p[k + 1]) is Some
}

/// `p` is a route from `a` to `b`: a nonempty node sequence in which every
/// hop has a measured RTT.
pub open spec fn is_route(m: LatencyMatrix, p: Seq<Seq<char>>, a: Seq<char>, b: Seq<char>) -> bool {
    &&& p.len() >= 1
    &&& p[0] == a
    &&& p.last() == b
    &&& forall|k: int| 0 <= k < p.len() - 1 ==> #[trigger] hop_ok(m, p, k)
}

/// Sum of the measured RTTs of the hops of `p` (a hop without one adds 0).
pub open spec fn route_cost(m: LatencyMatrix, p: Seq<Seq<char>>) -> nat
    decreases p.len(),
{
    if p.len() <= 1 {
        0
    } else {
        route_cost(m, p.drop_last()) + match m.rtt_of(p[p.len() - 2], p.last()) {
            Some(w) => w as nat,
            None => 0nat,
        }
    }
}

/// Some route from `a` to `b`, entered with cost `c0` already spent, stays
/// below `u64::MAX` in total.
pub open spec fn reachable_from(m: LatencyMatrix, a: Seq<char>, b: Seq<char>, c0: nat) -> bool {
    exists|q: Seq<Seq<char>>| #[trigger] is_route(m, q, a, b) && c0 + route_cost(m, q) < u64::MAX
}

/// `p` is a route from `a` to `b` that no other route from `a` to `b` beats.
pub open spec fn is_shortest_route(
    m: LatencyMatrix,
    p: Seq<Seq<char>>,
    a: Seq<char>,
    b: Seq<char>,
) -> bool {
    &&& is_route(m, p, a, b)
    &&& forall|q: Seq<Seq<char>>| #[trigger] is_route(m, q, a, b) ==> route_cost(m, p) <= route_cost(
        m,
        q,
    )
}

/// `path` is the route that forcing the first hop through `via` gives: the
/// hop `local → via`, then (unless `via` is the destination itself) a
/// shortest route from `via` to `dest`; `total` is its RTT sum, which stays
/// below `u64::MAX` when `via` is not the destination.
pub open spec fn is_via_route(
    m: LatencyMatrix,
    local: Seq<char>,
    via: Seq<char>,
    dest: Seq<char>,
    path: Seq<Seq<char>>,
    total: nat,
) -> bool {
    &&& m.rtt_of(local, via) is Some
    &&& path.len() >= 2
    &&& path[0] == local
    &&& is_route(m, path.drop_first(), via, dest)
    &&& total == m.rtt_of(local, via)->0 + route_cost(m, path.drop_first())
    &&& via == dest ==> path.drop_first() == seq![via]
    &&& via != dest ==> total < u64::MAX && is_shortest_route(m, path.drop_first(), via, dest)
}

/// `via` is a neighbour of `local` through which `dest` can be reached.
pub open spec fn has_via_route(m: LatencyMatrix, local: Seq<char>, via: Seq<char>, dest: Seq<char>) -> bool {
    &&& m.rtt_of(local, via) is Some
    &&& (via == dest || reachable_from(m, via, dest, m.rtt_of(local, via)->0 as nat))
}

// ---------------------------------------------------------------------------
// Paths over node indices.
spec fn edge_w(g: Graph, u: usize, v: usize) -> nat {
    match g[u as int][v as int] {
        Some(w) => w as nat,
        None => 0nat,
    }
}

spec fn step_ok(g: Graph, p: Seq<usize>, k: int) -> bool {
    g[p[k] as int][p[k + 1] as int] is Some
}

spec fn is_ipath(g: Graph, p: Seq<usize>, s: usize, t: usize) -> bool {
    &&& p.len() >= 1
    &&& p[0] == s
    &&& p.last() == t
    &&& forall|k: int| 0 <= k < p.len() ==> #[trigger] p[k] < g.len()
    &&& forall|k: int| 0 <= k < p.len() - 1 ==> #[trigger] step_ok(g, p, k)
}

spec fn ipath_cost(g: Graph, p: Seq<usize>) -> nat
    decreases p.len(),
{
    if p.len() <= 1 {
        0
    } else {
        ipath_cost(g, p.drop_last()) + edge_w(g, p[p.len() - 2], p.last())
    }
}

/// No node occurs twice in `p`.
spec fn no_repeats(p: Seq<usize>) -> bool {
    forall|i: int, j: int| 0 <= i < j < p.len() ==> #[trigger] p[i] != #[trigger] p[j]
}

/// Every node of `p` but the last is settled.
spec fn settled_before_last(done: Seq<bool>, p: Seq<usize>) -> bool {
    forall|k: int| 0 <= k < p.len() - 1 ==> #[trigger] done[p[k] as int]
}

/// Every index path from `s` to `v`, entered with cost `c0`, costs at least `d`.
spec fn lower_bound(g: Graph, s: usize, c0: u64, v: usize, d: u64) -> bool {
    forall|p: Seq<usize>| #[trigger] is_ipath(g, p, s, v) ==> d <= c0 + ipath_cost(g, p)
}

spec fn frontier_ok(g: Graph, done: Seq<bool>, dist: Seq<u64>) -> bool {
    forall|u: usize, v: usize|
        u < g.len() && v < g.len() && done[u as int] && !done[v as int] && g[u as int][v as int] is Some
            ==> dist[v as int] <= dist[u as int] + #[trigger] edge_w(g, u, v)
}

spec fn count_open(done: Seq<bool>) -> nat
    decreases done.len(),
{
    if done.len() == 0 {
        0
    } else {
        count_open(done.drop_last()) + if done.last() {
            0nat
        } else {
            1nat
        }
    }
}

proof fn lemma_count_open_close(done: Seq<bool>, u: int)
    requires
        0 <= u < done.len(),
        !done[u],
    ensures
        count_open(done.update(u, true)) < count_open(done),
    decreases done.len(),
{
    let d2 = done.update(u, true);
    if u == done.len() - 1 {
        assert(d2.drop_last() =~= done.drop_last());
    } else {
        lemma_count_open_close(done.drop_last(), u);
        assert(d2.drop_last() =~= done.drop_last().update(u, true));
    }
}

proof fn lemma_extend(g: Graph, p: Seq<usize>, s: usize, u: usize, v: usize)
    requires
        is_ipath(g, p, s, u),
        v < g.len(),
        g[u as int][v as int] is Some,
    ensures
        is_ipath(g, p.push(v), s, v),
        ipath_cost(g, p.push(v)) == ipath_cost(g, p) + edge_w(g, u, v),
{
    let q = p.push(v);
    assert(q.drop_last() =~= p);
    assert forall|k: int| 0 <= k < q.len() implies #[trigger] q[k] < g.len() by {
        if k < p.len() {
            assert(q[k] == p[k]);
        }
    }
    assert forall|k: int| 0 <= k < q.len() - 1 implies #[trigger] step_ok(g, q, k) by {
        if k < p.len() - 1 {
            assert(step_ok(g, p, k));
        }
    }
}

proof fn lemma_prefix(g: Graph, p: Seq<usize>, s: usize, t: usize)
    requires
        is_ipath(g, p, s, t),
        p.len() >= 2,
    ensures
        is_ipath(g, p.drop_last(), s, p[p.len() - 2]),
        g[p[p.len() - 2] as int][t as int] is Some,
        ipath_cost(g, p) == ipath_cost(g, p.drop_last()) + edge_w(g, p[p.len() - 2], t),
{
    let q = p.drop_last();
    assert(step_ok(g, p, p.len() - 2));
    assert forall|k: int| 0 <= k < q.len() implies #[trigger] q[k] < g.len() by {
        assert(p[k] < g.len());
    }
    assert forall|k: int| 0 <= k < q.len() - 1 implies #[trigger] step_ok(g, q, k) by {
        assert(step_ok(g, p, k));
    }
}

/// On a path from a settled source to an unsettled node there is an unsettled
/// node whose tentative distance is at most the path's cost.
proof fn lemma_open_on_path(
    g: Graph,
    s: usize,
    c0: u64,
    dist: Seq<u64>,
    done: Seq<bool>,
    p: Seq<usize>,
    t: usize,
) -> (x: usize)
    requires
        is_ipath(g, p, s, t),
        done.len() == g.len(),
        dist.len() == g.len(),
        done[s as int],
        !done[t as int],
        forall|v: usize| v < g.len() && #[trigger] done[v as int] ==> lower_bound(g, s, c0, v, dist[v as int]),
        frontier_ok(g, done, dist),
    ensures
        x < g.len(),
        !done[x as int],
        dist[x as int] <= c0 + ipath_cost(g, p),
    decreases p.len(),
{
    if p.len() == 1 {
        assert(false);
        0
    } else {
        lemma_prefix(g, p, s, t);
        let q = p.drop_last();
        let y = p[p.len() - 2];
        assert(y < g.len()) by {
            assert(p[p.len() - 2] < g.len());
        }
        assert(t < g.len()) by {
            assert(p[p.len() - 1] < g.len());
        }
        if done[y as int] {
            assert(lower_bound(g, s, c0, y, dist[y as int]));
            assert(is_ipath(g, q, s, y));
            assert(dist[y as int] <= c0 + ipath_cost(g, q));
            assert(dist[t as int] <= dist[y as int] + edge_w(g, y, t));
            t
        } else {
            lemma_open_on_path(g, s, c0, dist, done, q, y)
        }
    }
}

/// The state that Dijkstra's loop keeps: tentative distances `dist`, settled
/// nodes `done`, predecessors `prev` and the witness paths `paths`.
spec fn search_inv(
    g: Graph,
    s: usize,
    c0: u64,
    t: usize,
    dist: Seq<u64>,
    prev: Seq<usize>,
    done: Seq<bool>,
    paths: Seq<Seq<usize>>,
) -> bool {
    let n = g.len();
    &&& dist.len() == n
    &&& prev.len() == n
    &&& done.len() == n
    &&& paths.len() == n
    &&& s < n
    &&& t < n
    &&& !done[t as int]
    &&& dist[s as int] == c0
    &&& paths[s as int] == seq![s]
    &&& forall|v: usize| v < n && v != s && #[trigger] dist[v as int] < u64::MAX ==> done[s as int]
    &&& forall|v: usize| v < n && #[trigger] done[v as int] ==> dist[v as int] < u64::MAX
    &&& forall|v: usize|
        v < n && #[trigger] dist[v as int] < u64::MAX ==> is_ipath(g, paths[v as int], s, v) && c0
            + ipath_cost(g, paths[v as int]) == dist[v as int]
    &&& forall|v: usize|
        v < n && v != s && #[trigger] dist[v as int] < u64::MAX ==> prev[v as int] < n
            && done[prev[v as int] as int] && paths[v as int] == paths[prev[v as int] as int].push(v)
    &&& forall|v: usize| v < n && #[trigger] done[v as int] ==> lower_bound(g, s, c0, v, dist[v as int])
    &&& frontier_ok(g, done, dist)
    &&& forall|v: usize|
        v < n && #[trigger] dist[v as int] < u64::MAX ==> no_repeats(paths[v as int])
            && settled_before_last(done, paths[v as int])
}

/// The node picked next (unsettled, least finite distance) has its final distance.
proof fn lemma_pick_is_final(
    g: Graph,
    s: usize,
    c0: u64,
    t: usize,
    dist: Seq<u64>,
    prev: Seq<usize>,
    done: Seq<bool>,
    paths: Seq<Seq<usize>>,
    u: usize,
)
    requires
        search_inv(g, s, c0, t, dist, prev, done, paths),
        u < g.len(),
        !done[u as int],
        dist[u as int] < u64::MAX,
        forall|k: int| 0 <= k < g.len() && !done[k] && dist[k] < u64::MAX ==> dist[u as int] <= dist[k],
    ensures
        lower_bound(g, s, c0, u, dist[u as int]),
{
    assert forall|p: Seq<usize>| #[trigger] is_ipath(g, p, s, u) implies dist[u as int] <= c0
        + ipath_cost(g, p) by {
        if !done[s as int] {
            if u != s {
                assert(dist[u as int] < u64::MAX);
            }
        } else {
            let x = lemma_open_on_path(g, s, c0, dist, done, p, u);
            assert(x < g.len());
        }
    }
}

/// Dijkstra from node `s`, entered with cost `c0`, to node `t` (`s != t`):
/// a cheapest index path from `s` to `t` and its total cost, or `None` when
/// every path costs `u64::MAX` or more.
fn shortest_path(m: &LatencyMatrix, s: usize, c0: u64, t: usize) -> (r: Option<(Vec<usize>, u64)>)
    requires
        m.wf(),
        s < m.ids().len(),
        t < m.ids().len(),
        s != t,
    ensures
        r is Some <==> exists|p: Seq<usize>|
            #[trigger] is_ipath(m.weights(), p, s, t) && c0 + ipath_cost(m.weights(), p) < u64::MAX,
        r matches Some((path, d)) ==> {
            &&& is_ipath(m.weights(), path@, s, t)
            &&& d == c0 + ipath_cost(m.weights(), path@)
            &&& d < u64::MAX
            &&& lower_bound(m.weights(), s, c0, t, d)
            &&& no_repeats(path@)
        },
{
    let ghost g = m.weights();
    let n = m.node_count();
    let mut dist: Vec<u64> = vec![u64::MAX; n];
    dist.set(s, c0);
    let mut prev: Vec<usize> = vec![n; n];
    let mut done: Vec<bool> = vec![false; n];
    let ghost mut paths: Seq<Seq<usize>> = Seq::new(n as nat, |i: int| seq![s]);
    proof {
        assert(is_ipath(g, seq![s], s, s)) by {
            assert forall|k: int| 0 <= k < 1 implies #[trigger] seq![s][k] < g.len() by {}
        }
        assert(frontier_ok(g, done@, dist@));
        assert forall|v: usize| v < n && #[trigger] done@[v as int] implies lower_bound(
            g,
            s,
            c0,
            v,
            dist@[v as int],
        ) by {}
    }
    loop
        invariant
            m.wf(),
            g == m.weights(),
            n == g.len(),
            n == m.ids().len(),
            search_inv(g, s, c0, t, dist@, prev@, done@, paths),
        decreases count_open(done@),
    {
        // Pick the unsettled node with the least finite tentative distance.
        let mut best: Option<usize> = None;
        let mut i: usize = 0;
        while i < n
            invariant
                n == dist@.len(),
                n == done@.len(),
                i <= n,
                match best {
                    Some(b) => b < i && !done@[b as int] && dist@[b as int] < u64::MAX && forall|k: int|
                        0 <= k < i && !done@[k] && dist@[k] < u64::MAX ==> dist@[b as int] <= dist@[k],
                    None => forall|k: int| 0 <= k < i ==> done@[k] || dist@[k] == u64::MAX,
                },
            decreases n - i,
        {
            if !done[i] && dist[i] < u64::MAX {
                match best {
                    None => {
                        best = Some(i);
                    },
                    Some(b) => {
                        if dist[i] < dist[b] {
                            best = Some(i);
                        }
                    },
                }
            }
            i = i + 1;
        }
        match best {
            None => {
                proof {
                    assert forall|p: Seq<usize>| #[trigger] is_ipath(g, p, s, t) implies c0
                        + ipath_cost(g, p) >= u64::MAX by {
                        if done@[s as int] {
                            let x = lemma_open_on_path(g, s, c0, dist@, done@, p, t);
                            assert(done@[x as int] || dist@[x as int] == u64::MAX);
                        } else {
                            assert(done@[s as int] || dist@[s as int] == u64::MAX);
                            assert(c0 == u64::MAX);
                        }
                    }
                }
                return None;
            },
            Some(u) => {
                proof {
                    lemma_pick_is_final(g, s, c0, t, dist@, prev@, done@, paths, u);
                }
                if u == t {
                    let path = trace_back(&dist, &prev, s, t, Ghost(g), Ghost(paths));
                    return Some((path, dist[t]));
                }
                proof {
                    lemma_count_open_close(done@, u as int);
                }
                let ghost done_before = done@;
                done.set(u, true);
                proof {
                    assert forall|w: usize|
                        w < n && #[trigger] dist@[w as int] < u64::MAX implies no_repeats(paths[w as int])
                            && settled_before_last(done@, paths[w as int]) by {
                        assert(settled_before_last(done_before, paths[w as int]));
                        assert forall|k: int| 0 <= k < paths[w as int].len() - 1 implies #[trigger] done@[paths[w as int][k] as int] by {
                            assert(done_before[paths[w as int][k] as int]);
                        }
                    }
                }
                let du = dist[u];
                let mut v: usize = 0;
                while v < n
                    invariant
                        m.wf(),
                        g == m.weights(),
                        n == g.len(),
                        n == m.ids().len(),
                        u < n,
                        u != t,
                        v <= n,
                        du == dist@[u as int],
                        du < u64::MAX,
                        done@[u as int],
                        done@ == done_before.update(u as int, true),
                        lower_bound(g, s, c0, u, du),
                        dist@.len() == n,
                        prev@.len() == n,
                        done@.len() == n,
                        paths.len() == n,
                        s < n,
                        t < n,
                        !done@[t as int],
                        dist@[s as int] == c0,
                        paths[s as int] == seq![s],
                        done@[s as int],
                        forall|w: usize| w < n && #[trigger] done@[w as int] ==> dist@[w as int]
                            < u64::MAX,
                        forall|w: usize|
                            w < n && #[trigger] dist@[w as int] < u64::MAX ==> is_ipath(
                                g,
                                paths[w as int],
                                s,
                                w,
                            ) && c0 + ipath_cost(g, paths[w as int]) == dist@[w as int],
                        forall|w: usize|
                            w < n && w != s && #[trigger] dist@[w as int] < u64::MAX ==> prev@[w as int]
                                < n && done@[prev@[w as int] as int] && paths[w as int]
                                == paths[prev@[w as int] as int].push(w),
                        forall|w: usize|
                            w < n && #[trigger] done@[w as int] ==> lower_bound(
                                g,
                                s,
                                c0,
                                w,
                                dist@[w as int],
                            ),
                        forall|a: usize, b: usize|
                            a < n && b < n && a != u && done@[a as int] && !done@[b as int] && g[a as int][b as int] is Some
                                ==> dist@[b as int] <= dist@[a as int] + #[trigger] edge_w(g, a, b),
                        forall|b: usize|
                            b < v && !done@[b as int] && g[u as int][b as int] is Some
                                ==> dist@[b as int] <= du + #[trigger] edge_w(g, u, b),
                        forall|w: usize|
                            w < n && #[trigger] dist@[w as int] < u64::MAX ==> no_repeats(paths[w as int])
                                && settled_before_last(done@, paths[w as int]),
                    decreases n - v,
                {
                    if !done[v] {
                        match m.weight(u, v) {
                            Some(w) => {
                                if w < u64::MAX - du {
                                    let nc = du + w;
                                    if nc < dist[v] {
                                        proof {
                                            lemma_extend(g, paths[u as int], s, u, v);
                                            let pu = paths[u as int];
                                            assert(is_ipath(g, pu, s, u));
                                            assert(no_repeats(pu) && settled_before_last(done@, pu));
                                            assert forall|k: int| 0 <= k < pu.len() implies #[trigger] done@[pu[k] as int] by {
                                                if k == pu.len() - 1 {
                                                    assert(pu[k] == u);
                                                }
                                            }
                                            let q = pu.push(v);
                                            assert(no_repeats(q)) by {
                                                assert forall|i: int, j: int| 0 <= i < j < q.len() implies #[trigger] q[i] != #[trigger] q[j] by {
                                                    assert(q[i] == pu[i]);
                                                    if j < pu.len() {
                                                        assert(q[j] == pu[j]);
                                                    } else {
                                                        assert(done@[pu[i] as int]);
                                                    }
                                                }
                                            }
                                            assert(settled_before_last(done@, q)) by {
                                                assert forall|k: int| 0 <= k < q.len() - 1 implies #[trigger] done@[q[k] as int] by {
                                                    assert(q[k] == pu[k]);
                                                }
                                            }
                                            paths = paths.update(v as int, q);
                                        }
                                        dist.set(v, nc);
                                        prev.set(v, u);
                                    }
                                }
                            },
                            None => {},
                        }
                    }
                    v = v + 1;
                }
                proof {
                    assert forall|a: usize, b: usize|
                        a < n && b < n && done@[a as int] && !done@[b as int] && g[a as int][b as int] is Some
                            implies dist@[b as int] <= dist@[a as int] + #[trigger] edge_w(g, a, b) by {
                        if a == u {
                            assert(b < v);
                        }
                    }
                }
            },
        }
    }
}

/// Follow the predecessor links from `t` back to `s`: the witness path of `t`.
fn trace_back(
    dist: &Vec<u64>,
    prev: &Vec<usize>,
    s: usize,
    t: usize,
    Ghost(g): Ghost<Graph>,
    Ghost(paths): Ghost<Seq<Seq<usize>>>,
) -> (r: Vec<usize>)
    requires
        dist@.len() == g.len(),
        prev@.len() == g.len(),
        paths.len() == g.len(),
        s < g.len(),
        t < g.len(),
        dist@[t as int] < u64::MAX,
        paths[s as int] == seq![s],
        forall|v: usize|
            v < g.len() && #[trigger] dist@[v as int] < u64::MAX ==> is_ipath(g, paths[v as int], s, v),
        forall|v: usize|
            v < g.len() && v != s && #[trigger] dist@[v as int] < u64::MAX ==> prev@[v as int] < g.len()
                && dist@[prev@[v as int] as int] < u64::MAX && paths[v as int] == paths[prev@[v as int] as int].push(v),
    ensures
        r@ == paths[t as int],
{
    let ghost full = paths[t as int];
    let mut rev: Vec<usize> = Vec::new();
    rev.push(t);
    let mut cur = t;
    assert(full.subrange(0, full.len() as int) =~= full);
    while cur != s
        invariant
            dist@.len() == g.len(),
            prev@.len() == g.len(),
            paths.len() == g.len(),
            s < g.len(),
            cur < g.len(),
            dist@[cur as int] < u64::MAX,
            paths[s as int] == seq![s],
            full == paths[t as int],
            is_ipath(g, full, s, t),
            forall|v: usize|
                v < g.len() && #[trigger] dist@[v as int] < u64::MAX ==> is_ipath(g, paths[v as int], s, v),
            forall|v: usize|
                v < g.len() && v != s && #[trigger] dist@[v as int] < u64::MAX ==> prev@[v as int] < g.len()
                    && dist@[prev@[v as int] as int] < u64::MAX && paths[v as int] == paths[prev@[v as int] as int].push(v),
            1 <= paths[cur as int].len() <= full.len(),
            paths[cur as int] == full.subrange(0, paths[cur as int].len() as int),
            rev@.len() == full.len() - paths[cur as int].len() + 1,
            forall|i: int| 0 <= i < rev@.len() ==> #[trigger] rev@[i] == full[full.len() - 1 - i],
        decreases paths[cur as int].len(),
    {
        let u = prev[cur];
        proof {
            let pc = paths[cur as int];
            assert(pc == paths[u as int].push(cur));
            assert(paths[u as int] =~= pc.drop_last());
            assert(paths[u as int] =~= full.subrange(0, paths[u as int].len() as int));
            assert(is_ipath(g, paths[u as int], s, u));
            assert(u == full[full.len() - 1 - rev@.len()]);
        }
        rev.push(u);
        cur = u;
    }
    proof {
        assert(paths[cur as int].len() == 1);
    }
    let len = rev.len();
    let mut r: Vec<usize> = Vec::new();
    let mut k: usize = len;
    while k > 0
        invariant
            k <= len,
            len == rev@.len(),
            len == full.len(),
            forall|i: int| 0 <= i < rev@.len() ==> #[trigger] rev@[i] == full[full.len() - 1 - i],
            r@.len() == len - k,
            forall|i: int| 0 <= i < r@.len() ==> #[trigger] r@[i] == full[i],
        decreases k,
    {
        k = k - 1;
        r.push(rev[k]);
    }
    assert(r@ =~= full);
    r
}


// ---------------------------------------------------------------------------
// From index paths to routes over node identifiers.
spec fn names_of(m: LatencyMatrix, p: Seq<usize>) -> Seq<Seq<char>> {
    p.map_values(|i: usize| m.ids()[i as int])
}

proof fn lemma_names_route(m: LatencyMatrix, p: Seq<usize>, s: usize, t: usize)
    requires
        m.wf(),
        is_ipath(m.weights(), p, s, t),
    ensures
        is_route(m, names_of(m, p), m.ids()[s as int], m.ids()[t as int]),
        route_cost(m, names_of(m, p)) == ipath_cost(m.weights(), p),
    decreases p.len(),
{
    let g = m.weights();
    let q = names_of(m, p);
    assert(p[0] < g.len());
    m.lemma_shape();
    assert forall|k: int| 0 <= k < q.len() - 1 implies #[trigger] hop_ok(m, q, k) by {
        assert(step_ok(g, p, k));
        assert(p[k] < g.len());
        assert(p[k + 1] < g.len());
        m.lemma_rtt_of_index(p[k] as int, p[k + 1] as int);
    }
    if p.len() >= 2 {
        lemma_prefix(g, p, s, t);
        let y = p[p.len() - 2];
        assert(y < g.len());
        assert(t < g.len()) by {
            assert(p[p.len() - 1] < g.len());
        }
        lemma_names_route(m, p.drop_last(), s, y);
        assert(names_of(m, p.drop_last()) =~= q.drop_last());
        m.lemma_rtt_of_index(y as int, t as int);
    }
}

/// The node identifiers of an index path that repeats no node are pairwise distinct.
proof fn lemma_names_distinct(m: LatencyMatrix, p: Seq<usize>)
    requires
        m.wf(),
        no_repeats(p),
        forall|k: int| 0 <= k < p.len() ==> #[trigger] p[k] < m.ids().len(),
    ensures
        forall|i: int, j: int|
            0 <= i < j < p.len() ==> #[trigger] names_of(m, p)[i] != #[trigger] names_of(m, p)[j],
{
    assert forall|i: int, j: int| 0 <= i < j < p.len() implies #[trigger] names_of(m, p)[i]
        != #[trigger] names_of(m, p)[j] by {
        if names_of(m, p)[i] == names_of(m, p)[j] {
            m.lemma_ids_distinct(p[i] as int, p[j] as int);
        }
    }
}

proof fn lemma_route_indices(m: LatencyMatrix, q: Seq<Seq<char>>, a: Seq<char>, b: Seq<char>, s: usize) -> (p: Seq<usize>)
    requires
        m.wf(),
        is_route(m, q, a, b),
        s < m.ids().len(),
        m.ids()[s as int] == a,
    ensures
        p.len() == q.len(),
        p.last() < m.ids().len(),
        m.ids()[p.last() as int] == b,
        is_ipath(m.weights(), p, s, p.last()),
        names_of(m, p) == q,
    decreases q.len(),
{
    let g = m.weights();
    m.lemma_shape();
    if q.len() == 1 {
        let p = seq![s];
        assert forall|k: int| 0 <= k < p.len() implies #[trigger] p[k] < g.len() by {}
        assert(names_of(m, p) =~= q);
        p
    } else {
        let q1 = q.drop_last();
        let y_id = q[q.len() - 2];
        assert forall|k: int| 0 <= k < q1.len() - 1 implies #[trigger] hop_ok(m, q1, k) by {
            assert(hop_ok(m, q, k));
        }
        let p1 = lemma_route_indices(m, q1, a, y_id, s);
        assert(hop_ok(m, q, q.len() - 2));
        m.lemma_rtt_of_listed(y_id, b);
        let j = choose|j: int| 0 <= j < m.ids().len() && m.ids()[j] == b;
        let y = p1.last();
        assert(q1.last() == y_id);
        assert(names_of(m, p1).last() == m.ids()[y as int]);
        m.lemma_rtt_of_index(y as int, j);
        assert(g[y as int][j] is Some);
        lemma_extend(g, p1, s, y, j as usize);
        let p = p1.push(j as usize);
        assert forall|k: int| 0 <= k < q.len() implies #[trigger] names_of(m, p)[k] == q[k] by {
            if k < q.len() - 1 {
                assert(p[k] == p1[k]);
                assert(names_of(m, p1)[k] == q1[k]);
            } else {
                assert(p[k] == j as usize);
            }
        }
        assert(names_of(m, p) =~= q);
        p
    }
}

proof fn lemma_route_cost_prefix(m: LatencyMatrix, p: Seq<Seq<char>>, j: int)
    requires
        1 <= j <= p.len(),
    ensures
        route_cost(m, p.subrange(0, j)) <= route_cost(m, p),
    decreases p.len() - j,
{
    if j == p.len() {
        assert(p.subrange(0, j) =~= p);
    } else {
        lemma_route_cost_prefix(m, p, j + 1);
        assert(p.subrange(0, j + 1).drop_last() =~= p.subrange(0, j));
    }
}

proof fn lemma_route_cost_step(m: LatencyMatrix, p: Seq<Seq<char>>, k: int)
    requires
        0 <= k,
        k + 2 <= p.len(),
    ensures
        route_cost(m, p.subrange(0, k + 2)) == route_cost(m, p.subrange(0, k + 1)) + match m.rtt_of(
            p[k],
            p[k + 1],
        ) {
            Some(w) => w as nat,
            None => 0nat,
        },
        route_cost(m, p.subrange(0, k + 2)) <= route_cost(m, p),
{
    let a = p.subrange(0, k + 2);
    assert(a.drop_last() =~= p.subrange(0, k + 1));
    assert(a[a.len() - 2] == p[k]);
    assert(a.last() == p[k + 1]);
    lemma_route_cost_prefix(m, p, k + 2);
}

proof fn lemma_route_cost_prepend(m: LatencyMatrix, a: Seq<char>, q: Seq<Seq<char>>)
    requires
        q.len() >= 1,
    ensures
        route_cost(m, seq![a] + q) == match m.rtt_of(a, q[0]) {
            Some(w) => w as nat,
            None => 0nat,
        } + route_cost(m, q),
    decreases q.len(),
{
    let aq = seq![a] + q;
    if q.len() == 1 {
        assert(aq.drop_last() =~= seq![a]);
        assert(aq[aq.len() - 2] == a);
        assert(aq.last() == q[0]);
        assert(route_cost(m, seq![a]) == 0);
        assert(route_cost(m, q) == 0);
    } else {
        lemma_route_cost_prepend(m, a, q.drop_last());
        assert(aq.drop_last() =~= seq![a] + q.drop_last());
        assert(aq[aq.len() - 2] == q[q.len() - 2]);
        assert(aq.last() == q.last());
        assert(q.drop_last()[0] == q[0]);
    }
}

proof fn lemma_prepend_route(m: LatencyMatrix, a: Seq<char>, q: Seq<Seq<char>>, b: Seq<char>, c: Seq<char>)
    requires
        is_route(m, q, b, c),
        m.rtt_of(a, b) is Some,
    ensures
        is_route(m, seq![a] + q, a, c),
        route_cost(m, seq![a] + q) == m.rtt_of(a, b)->0 + route_cost(m, q),
{
    let aq = seq![a] + q;
    assert forall|k: int| 0 <= k < aq.len() - 1 implies #[trigger] hop_ok(m, aq, k) by {
        if k > 0 {
            assert(hop_ok(m, q, k - 1));
            assert(aq[k] == q[k - 1]);
            assert(aq[k + 1] == q[k]);
        }
    }
    lemma_route_cost_prepend(m, a, q);
}

/// Forcing the first hop never beats a shortest route: a route reported for
/// any first hop costs at least as much as a shortest route.
pub proof fn lemma_via_route_not_cheaper(
    m: LatencyMatrix,
    local: Seq<char>,
    via: Seq<char>,
    dest: Seq<char>,
    via_path: Seq<Seq<char>>,
    total: nat,
    p: Seq<Seq<char>>,
)
    requires
        is_shortest_route(m, p, local, dest),
        is_via_route(m, local, via, dest, via_path, total),
    ensures
        route_cost(m, p) <= total,
{
    let q = via_path.drop_first();
    lemma_prepend_route(m, local, q, via, dest);
    assert(seq![local] + q =~= via_path);
}

/// The first hop of a shortest route is a neighbour whose forced route costs
/// no more than the shortest route.
pub proof fn lemma_shortest_first_hop(m: LatencyMatrix, p: Seq<Seq<char>>, local: Seq<char>, dest: Seq<char>)
    requires
        is_shortest_route(m, p, local, dest),
        route_cost(m, p) < u64::MAX,
        local != dest,
    ensures
        has_via_route(m, local, p[1], dest),
        forall|path: Seq<Seq<char>>, total: nat|
            #[trigger] is_via_route(m, local, p[1], dest, path, total) ==> total <= route_cost(m, p),
{
    let q = p.drop_first();
    assert(p.len() >= 2);
    assert(hop_ok(m, p, 0));
    assert(is_route(m, q, p[1], dest)) by {
        assert forall|k: int| 0 <= k < q.len() - 1 implies #[trigger] hop_ok(m, q, k) by {
            assert(hop_ok(m, p, k + 1));
        }
    }
    lemma_route_cost_prepend(m, local, q);
    assert(seq![local] + q =~= p);
    assert forall|path: Seq<Seq<char>>, total: nat|
        #[trigger] is_via_route(m, local, p[1], dest, path, total) implies total <= route_cost(m, p) by {
        if p[1] == dest {
            assert(path.drop_first() == seq![p[1]]);
        } else {
            assert(is_route(m, q, p[1], dest));
        }
    }
}

/// With room for at least one route, the first route that `top_paths` reports
/// (cheapest first) costs exactly as much as the shortest route that
/// `next_hop` finds. The sequences describe `top_paths`' result: first hops,
/// paths and totals, as its postcondition states them.
pub proof fn lemma_top_path_is_shortest(
    m: LatencyMatrix,
    local: Seq<char>,
    dest: Seq<char>,
    p: Seq<Seq<char>>,
    hops: Seq<Seq<char>>,
    paths: Seq<Seq<Seq<char>>>,
    totals: Seq<nat>,
    n: nat,
)
    requires
        is_shortest_route(m, p, local, dest),
        route_cost(m, p) < u64::MAX,
        local != dest,
        n >= 1,
        hops.len() == paths.len(),
        hops.len() == totals.len(),
        hops.len() <= n,
        forall|i: int| 0 <= i < hops.len() ==> is_via_route(m, local, #[trigger] hops[i], dest, paths[i], totals[i]),
        forall|i: int, j: int| 0 <= i <= j < totals.len() ==> #[trigger] totals[i] <= #[trigger] totals[j],
        forall|nb: Seq<char>|
            #[trigger] has_via_route(m, local, nb, dest) && (forall|i: int| 0 <= i < hops.len() ==> hops[i] != nb)
                ==> {
                &&& hops.len() == n
                &&& forall|i: int, q: Seq<Seq<char>>|
                    0 <= i < hops.len() && #[trigger] is_route(m, q, nb, dest) ==> #[trigger] totals[i]
                        <= m.rtt_of(local, nb)->0 + route_cost(m, q)
            },
    ensures
        hops.len() >= 1,
        totals[0] == route_cost(m, p),
{
    lemma_shortest_first_hop(m, p, local, dest);
    let nb = p[1];
    let q = p.drop_first();
    lemma_route_cost_prepend(m, local, q);
    assert(seq![local] + q =~= p);
    assert(is_route(m, q, nb, dest)) by {
        assert forall|k: int| 0 <= k < q.len() - 1 implies #[trigger] hop_ok(m, q, k) by {
            assert(hop_ok(m, p, k + 1));
        }
    }
    if exists|i: int| 0 <= i < hops.len() && hops[i] == nb {
        let i = choose|i: int| 0 <= i < hops.len() && hops[i] == nb;
        assert(is_via_route(m, local, hops[i], dest, paths[i], totals[i]));
        assert(totals[0] <= totals[i]);
        lemma_via_route_not_cheaper(m, local, hops[0], dest, paths[0], totals[0], p);
    } else {
        assert(has_via_route(m, local, nb, dest));
        assert(hops.len() == n);
        assert(totals[0] <= m.rtt_of(local, nb)->0 + route_cost(m, q));
        assert(is_via_route(m, local, hops[0], dest, paths[0], totals[0]));
        lemma_via_route_not_cheaper(m, local, hops[0], dest, paths[0], totals[0], p);
    }
}

/// What `next_hop` returns for destination `dest`, routing from `local`
/// over `m`: nothing for the local node itself; otherwise a route exactly
/// when one stays below `u64::MAX`, and then a shortest route that repeats no
/// node, its first hop after `local`, and its RTT sum.
pub open spec fn next_hop_result(m: LatencyMatrix, local: Seq<char>, dest: Seq<char>, r: Option<RouteEntry>) -> bool {
    &&& dest == local ==> r is None
    &&& dest != local ==> (r is Some <==> reachable_from(m, local, dest, 0))
    &&& (r matches Some(e) ==> {
        &&& is_shortest_route(m, string_ids(e.path@), local, dest)
        &&& route_cost(m, string_ids(e.path@)) < u64::MAX
        &&& e.path@.len() >= 2
        &&& e.next_hop@ == e.path@[1]@
        &&& micros_of(e.total_rtt) == route_cost(m, string_ids(e.path@))
        &&& forall|i: int, j: int|
            0 <= i < j < e.path@.len() ==> #[trigger] e.path@[i]@ != #[trigger] e.path@[j]@
    })
}

/// What `top_paths` returns for destination `dest` and count `n`, routing
/// from `local` over `m`: at most `n` routes, each forced through a
/// different neighbour of `local` (see `is_via_route`), cheapest first; a
/// neighbour through which `dest` is reachable is left out only when `n`
/// routes were kept, none dearer than any route through it.
pub open spec fn top_paths_result(
    m: LatencyMatrix,
    local: Seq<char>,
    dest: Seq<char>,
    n: usize,
    r: Seq<RouteEntry>,
) -> bool {
    &&& dest == local ==> r.len() == 0
    &&& r.len() <= n
    &&& forall|i: int|
        0 <= i < r.len() ==> is_via_route(
            m,
            local,
            #[trigger] r[i].next_hop@,
            dest,
            string_ids(r[i].path@),
            micros_of(r[i].total_rtt),
        )
    &&& forall|i: int, j: int| 0 <= i < j < r.len() ==> #[trigger] r[i].next_hop@ != #[trigger] r[j].next_hop@
    &&& forall|i: int, j: int|
        0 <= i <= j < r.len() ==> micros_of(#[trigger] r[i].total_rtt) <= micros_of(#[trigger] r[j].total_rtt)
    &&& dest != local ==> forall|nb: Seq<char>|
        #[trigger] has_via_route(m, local, nb, dest) && (forall|i: int| 0 <= i < r.len() ==> r[i].next_hop@ != nb)
            ==> {
            &&& r.len() == n
            &&& forall|i: int, q: Seq<Seq<char>>|
                0 <= i < r.len() && #[trigger] is_route(m, q, nb, dest) ==> micros_of(#[trigger] r[i].total_rtt)
                    <= m.rtt_of(local, nb)->0 + route_cost(m, q)
        }
}

/// `top_paths` and `next_hop` agree: over the same matrix, `top_paths` finds
/// nothing exactly when it has no room or `next_hop` finds no route, and its
/// first route costs as much as the route `next_hop` gives. (A direct RTT of
/// `u64::MAX` microseconds to the destination is left out: `top_paths` reports
/// that hop, while `next_hop` counts such a route as unreachable.)
pub proof fn lemma_top_paths_agree_with_next_hop(
    m: LatencyMatrix,
    local: Seq<char>,
    dest: Seq<char>,
    n: usize,
    hop: Option<RouteEntry>,
    routes: Seq<RouteEntry>,
)
    requires
        m.wf(),
        m.rtt_of(local, dest) is Some ==> m.rtt_of(local, dest)->0 < u64::MAX,
        next_hop_result(m, local, dest, hop),
        top_paths_result(m, local, dest, n, routes),
    ensures
        routes.len() == 0 <==> (n == 0 || hop is None),
        n >= 1 && hop is Some ==> micros_of(routes[0].total_rtt) == micros_of(hop->0.total_rtt),
{
    if local == dest {
        return;
    }
    let hops = Seq::new(routes.len(), |i: int| routes[i].next_hop@);
    let paths = Seq::new(routes.len(), |i: int| string_ids(routes[i].path@));
    let totals = Seq::new(routes.len(), |i: int| micros_of(routes[i].total_rtt));
    match hop {
        Some(e) => {
            if n >= 1 {
                assert forall|i: int| 0 <= i < hops.len() implies is_via_route(
                    m,
                    local,
                    #[trigger] hops[i],
                    dest,
                    paths[i],
                    totals[i],
                ) by {
                    assert(is_via_route(
                        m,
                        local,
                        routes[i].next_hop@,
                        dest,
                        string_ids(routes[i].path@),
                        micros_of(routes[i].total_rtt),
                    ));
                }
                assert forall|i: int, j: int| 0 <= i <= j < totals.len() implies #[trigger] totals[i]
                    <= #[trigger] totals[j] by {
                    assert(micros_of(routes[i].total_rtt) <= micros_of(routes[j].total_rtt));
                }
                assert forall|nb: Seq<char>|
                    #[trigger] has_via_route(m, local, nb, dest) && (forall|i: int|
                        0 <= i < hops.len() ==> hops[i] != nb) implies {
                    &&& hops.len() == n
                    &&& forall|i: int, q: Seq<Seq<char>>|
                        0 <= i < hops.len() && #[trigger] is_route(m, q, nb, dest) ==> #[trigger] totals[i]
                            <= m.rtt_of(local, nb)->0 + route_cost(m, q)
                } by {
                    assert forall|i: int| 0 <= i < routes.len() implies routes[i].next_hop@ != nb by {
                        assert(hops[i] != nb);
                    }
                    assert forall|i: int, q: Seq<Seq<char>>|
                        0 <= i < hops.len() && #[trigger] is_route(m, q, nb, dest) implies #[trigger] totals[i]
                            <= m.rtt_of(local, nb)->0 + route_cost(m, q) by {
                        assert(micros_of(routes[i].total_rtt) <= m.rtt_of(local, nb)->0 + route_cost(m, q));
                    }
                }
                lemma_top_path_is_shortest(
                    m,
                    local,
                    dest,
                    string_ids(e.path@),
                    hops,
                    paths,
                    totals,
                    n as nat,
                );
            }
        },
        None => {
            if routes.len() > 0 {
                let r0 = routes[0];
                let nb = r0.next_hop@;
                let path = string_ids(r0.path@);
                let total = micros_of(r0.total_rtt);
                assert(is_via_route(m, local, nb, dest, path, total));
                let q = path.drop_first();
                lemma_prepend_route(m, local, q, nb, dest);
                assert(seq![local] + q =~= path);
                if nb == dest {
                    assert(q == seq![nb]);
                    assert(route_cost(m, q) == 0);
                }
                assert(is_route(m, path, local, dest));
                assert(reachable_from(m, local, dest, 0));
            }
        },
    }
}

/// A computed route to a destination node.
#[derive(Debug)]
pub struct RouteEntry {
    pub next_hop: String,
    pub total_rtt: Duration,
    pub path: Vec<String>,
}

/// Routing over one latency matrix, seen from one node.
struct RouteQuery<'a> {
    local_node: &'a String,
    matrix: &'a LatencyMatrix,
}

/// Shortest-path mesh router using live latency data.
pub struct MeshRouter {
    local_node: String,
    matrix: Arc<LatencyMatrix>,
}

impl MeshRouter {
    /// This router's node identifier.
    pub closed spec fn local_id(&self) -> Seq<char> {
        self.local_node@
    }

    /// The latency matrix this router was created with.
    pub closed spec fn latencies(&self) -> LatencyMatrix {
        *self.matrix
    }

    /// Create a router for `local_node` over the given latency matrix.
    ///
    /// The router routes over `matrix` as it is: a `LatencyMatrix` changes
    /// only through `&mut`, so a matrix shared in an `Arc` keeps its
    /// contents, and `next_hop` / `top_paths` always see these latencies. To
    /// route over latencies that keep being measured, pass the current matrix
    /// (for instance `Prober::matrix()`) to `next_hop_in` / `top_paths_in`.
    pub fn new(local_node: String, matrix: Arc<LatencyMatrix>) -> (r: Self)
        ensures
            r.local_id() == local_node@,
            r.latencies() == *matrix,
    {
        MeshRouter { local_node, matrix }
    }

    /// This router's local node identifier.
    pub fn local_node(&self) -> (r: &str)
        ensures
            r@ == self.local_id(),
    {
        self.local_node.as_str()
    }

    /// Routing from this node over `matrix`.
    fn query<'b>(&'b self, matrix: &'b LatencyMatrix) -> (q: RouteQuery<'b>)
        ensures
            q.local_id() == self.local_id(),
            q.latencies() == *matrix,
    {
        RouteQuery { local_node: &self.local_node, matrix }
    }

    /// Find the next hop to reach `destination` via the shortest path in the
    /// matrix the router was created with.
    pub fn next_hop(&self, destination: &str) -> (r: Option<RouteEntry>)
        requires
            self.latencies().wf(),
        ensures
            next_hop_result(self.latencies(), self.local_id(), destination@, r),
    {
        self.query(&self.matrix).next_hop(destination)
    }

    /// Find the next hop to reach `destination` via the shortest path in
    /// `matrix` (for instance the one a `Prober` keeps up to date).
    pub fn next_hop_in(&self, matrix: &LatencyMatrix, destination: &str) -> (r: Option<RouteEntry>)
        requires
            matrix.wf(),
        ensures
            next_hop_result(*matrix, self.local_id(), destination@, r),
    {
        self.query(matrix).next_hop(destination)
    }

    /// Get the top-N diverse paths to a destination (for multi-path sending)
    /// in the matrix the router was created with: one route per neighbour of
    /// the local node, each forced through that neighbour, the `n` cheapest
    /// first.
    pub fn top_paths(&self, destination: &str, n: usize) -> (r: Vec<RouteEntry>)
        requires
            self.latencies().wf(),
        ensures
            top_paths_result(self.latencies(), self.local_id(), destination@, n, r@),
    {
        self.query(&self.matrix).top_paths(destination, n)
    }

    /// As `top_paths`, over `matrix` (for instance the one a `Prober` keeps
    /// up to date).
    pub fn top_paths_in(&self, matrix: &LatencyMatrix, destination: &str, n: usize) -> (r: Vec<RouteEntry>)
        requires
            matrix.wf(),
        ensures
            top_paths_result(*matrix, self.local_id(), destination@, n, r@),
    {
        self.query(matrix).top_paths(destination, n)
    }
}

impl<'a> RouteQuery<'a> {
    /// The node routes start from.
    spec fn local_id(&self) -> Seq<char> {
        self.local_node@
    }

    /// The latency matrix routes are computed over.
    spec fn latencies(&self) -> LatencyMatrix {
        *self.matrix
    }

    /// Sum of the RTTs between consecutive nodes of `path` (a pair without a
    /// measured RTT adds nothing); the sum must fit in a `Duration`.
    fn path_cost(&self, path: &[String]) -> (d: Duration)
        requires
            self.latencies().wf(),
            route_cost(self.latencies(), string_ids(path@)) <= max_duration_micros(),
        ensures
            micros_of(d) == route_cost(self.latencies(), string_ids(path@)),
    {
        let ghost m = self.latencies();
        let ghost ids = string_ids(path@);
        let len = path.len();
        let mut total: u128 = 0;
        if len >= 2 {
            let mut k: usize = 0;
            assert(ids.subrange(0, 1) =~= seq![ids[0]]);
            while k + 1 < len
                invariant
                    m == self.latencies(),
                    m.wf(),
                    len == path@.len(),
                    ids == string_ids(path@),
                    len >= 2,
                    k + 1 <= len,
                    route_cost(m, ids) <= max_duration_micros(),
                    total == route_cost(m, ids.subrange(0, k + 1)),
                decreases len - k,
            {
                let a = path[k].as_str();
                let b = path[k + 1].as_str();
                proof {
                    lemma_route_cost_step(m, ids, k as int);
                }
                match self.matrix.get_rtt(a, b) {
                    Some(d) => {
                        let us = duration_as_micros(&d);
                        total = total + us;
                    },
                    None => {},
                }
                k = k + 1;
            }
            assert(ids.subrange(0, len as int) =~= ids);
        }
        let secs: u128 = total / 1_000_000;
        let rem: u128 = total % 1_000_000;
        proof {
            assert(secs <= 0xffff_ffff_ffff_ffff && secs * 1_000_000 + rem == total) by (nonlinear_arith)
                requires
                    total <= 0xffff_ffff_ffff_ffff * 1_000_000 + 999_999,
                    secs == total / 1_000_000,
                    rem == total % 1_000_000,
            ;
        }
        let nanos: u32 = (rem * 1000) as u32;
        assert(nanos / 1000 == rem);
        duration_new(secs as u64, nanos)
    }

    /// A shortest route from the local node to `destination` (another node),
    /// as node identifiers: `None` when no route stays below `u64::MAX`.
    fn dijkstra(&self, destination: &str) -> (r: Option<Vec<String>>)
        requires
            self.latencies().wf(),
        ensures
            r is Some <==> (destination@ == self.local_id() || reachable_from(
                self.latencies(),
                self.local_id(),
                destination@,
                0,
            )),
            r matches Some(path) ==> {
                &&& is_shortest_route(self.latencies(), string_ids(path@), self.local_id(), destination@)
                &&& route_cost(self.latencies(), string_ids(path@)) < u64::MAX
                &&& destination@ == self.local_id() ==> string_ids(path@) == seq![self.local_id()]
                &&& destination@ != self.local_id() ==> path@.len() >= 2
                &&& forall|i: int, j: int|
                    0 <= i < j < path@.len() ==> #[trigger] path@[i]@ != #[trigger] path@[j]@
            },
    {
        let ghost m = self.latencies();
        let ghost local = self.local_id();
        let dest = destination.to_owned();
        if dest == *self.local_node {
            let mut path: Vec<String> = Vec::new();
            path.push(self.local_node.clone());
            proof {
                assert(string_ids(path@) =~= seq![local]);
                assert(is_route(m, seq![local], local, destination@));
            }
            return Some(path);
        }
        let s = match self.matrix.index_of(self.local_node.as_str()) {
            Some(s) => s,
            None => {
                proof {
                    assert forall|q: Seq<Seq<char>>| #[trigger] is_route(m, q, local, destination@)
                        implies false by {
                        assert(hop_ok(m, q, 0));
                        m.lemma_rtt_of_listed(q[0], q[1]);
                    }
                }
                return None;
            },
        };
        let t = match self.matrix.index_of(destination) {
            Some(t) => t,
            None => {
                proof {
                    assert forall|q: Seq<Seq<char>>| #[trigger] is_route(m, q, local, destination@)
                        implies false by {
                        assert(hop_ok(m, q, q.len() - 2));
                        m.lemma_rtt_of_listed(q[q.len() - 2], q.last());
                    }
                }
                return None;
            },
        };
        let found = shortest_path(self.matrix, s, 0, t);
        match found {
            None => {
                proof {
                    assert forall|q: Seq<Seq<char>>| #[trigger] is_route(m, q, local, destination@)
                        implies route_cost(m, q) >= u64::MAX by {
                        let p = lemma_route_indices(m, q, local, destination@, s);
                        m.lemma_ids_distinct(p.last() as int, t as int);
                        lemma_names_route(m, p, s, t);
                    }
                }
                None
            },
            Some((ip, _cost)) => {
                proof {
                    m.lemma_shape();
                    assert forall|k: int| 0 <= k < ip@.len() implies #[trigger] ip@[k] < m.ids().len() by {
                        assert(ip@[k] < m.weights().len());
                    }
                }
                let path = self.index_path_names(&ip);
                proof {
                    lemma_names_route(m, ip@, s, t);
                    assert(string_ids(path@) == names_of(m, ip@));
                    if ip@.len() == 1 {
                        assert(ip@[0] == t);
                    }
                    assert forall|q: Seq<Seq<char>>| #[trigger] is_route(m, q, local, destination@)
                        implies route_cost(m, string_ids(path@)) <= route_cost(m, q) by {
                        let p = lemma_route_indices(m, q, local, destination@, s);
                        m.lemma_ids_distinct(p.last() as int, t as int);
                        lemma_names_route(m, p, s, t);
                    }
                    lemma_names_distinct(m, ip@);
                    assert forall|i: int, j: int| 0 <= i < j < path@.len() implies #[trigger] path@[i]@
                        != #[trigger] path@[j]@ by {
                        assert(path@[i]@ == names_of(m, ip@)[i]);
                        assert(path@[j]@ == names_of(m, ip@)[j]);
                    }
                }
                Some(path)
            },
        }
    }

    /// Find the next hop to reach `destination` via the shortest path.
    fn next_hop(&self, destination: &str) -> (r: Option<RouteEntry>)
        requires
            self.latencies().wf(),
        ensures
            destination@ == self.local_id() ==> r is None,
            destination@ != self.local_id() ==> (r is Some <==> reachable_from(
                self.latencies(),
                self.local_id(),
                destination@,
                0,
            )),
            r matches Some(e) ==> {
                &&& is_shortest_route(self.latencies(), string_ids(e.path@), self.local_id(), destination@)
                &&& route_cost(self.latencies(), string_ids(e.path@)) < u64::MAX
                &&& e.path@.len() >= 2
                &&& e.next_hop@ == e.path@[1]@
                &&& micros_of(e.total_rtt) == route_cost(self.latencies(), string_ids(e.path@))
                &&& forall|i: int, j: int|
                    0 <= i < j < e.path@.len() ==> #[trigger] e.path@[i]@ != #[trigger] e.path@[j]@
            },
    {
        let dest = destination.to_owned();
        if dest == *self.local_node {
            return None;
        }
        let path = match self.dijkstra(destination) {
            Some(p) => p,
            None => return None,
        };
        proof {
            assert(path@[1]@ == string_ids(path@)[1]);
        }
        let total_rtt = self.path_cost(path.as_slice());
        let next_hop = path[1].clone();
        Some(RouteEntry { next_hop, total_rtt, path })
    }

    /// The route that starts with the hop from the local node (index `s`) to
    /// node `via` and continues on a shortest path to `destination`.
    fn dijkstra_via(&self, s: usize, via: usize, destination: &str) -> (r: Option<(RouteEntry, u64)>)
        requires
            self.latencies().wf(),
            (s as int) < self.latencies().ids().len(),
            (via as int) < self.latencies().ids().len(),
            self.latencies().ids()[s as int] == self.local_id(),
        ensures
            r is Some <==> has_via_route(
                self.latencies(),
                self.local_id(),
                self.latencies().ids()[via as int],
                destination@,
            ),
            r matches Some((e, tot)) ==> {
                &&& e.next_hop@ == self.latencies().ids()[via as int]
                &&& micros_of(e.total_rtt) == tot
                &&& is_via_route(
                    self.latencies(),
                    self.local_id(),
                    self.latencies().ids()[via as int],
                    destination@,
                    string_ids(e.path@),
                    tot as nat,
                )
            },
    {
        let ghost m = self.latencies();
        let ghost local = self.local_id();
        let ghost via_id = m.ids()[via as int];
        proof {
            m.lemma_rtt_of_index(s as int, via as int);
        }
        let c0 = match self.matrix.weight(s, via) {
            Some(w) => w,
            None => {
                return None;
            },
        };
        let via_name = self.matrix.node_name(via);
        let dest = destination.to_owned();
        if *via_name == dest {
            let mut path: Vec<String> = Vec::new();
            path.push(self.local_node.clone());
            path.push(via_name.clone());
            let total_rtt = duration_from_micros(c0);
            proof {
                assert(string_ids(path@).drop_first() =~= seq![via_id]);
                assert(is_route(m, seq![via_id], via_id, destination@));
            }
            return Some((RouteEntry { next_hop: via_name.clone(), total_rtt, path }, c0));
        }
        let t = match self.matrix.index_of(destination) {
            Some(t) => t,
            None => {
                proof {
                    assert forall|q: Seq<Seq<char>>| #[trigger] is_route(m, q, via_id, destination@)
                        implies false by {
                        assert(hop_ok(m, q, q.len() - 2));
                        m.lemma_rtt_of_listed(q[q.len() - 2], q.last());
                    }
                }
                return None;
            },
        };
        let found = shortest_path(self.matrix, via, c0, t);
        match found {
            None => {
                proof {
                    assert forall|q: Seq<Seq<char>>| #[trigger] is_route(m, q, via_id, destination@)
                        implies c0 + route_cost(m, q) >= u64::MAX by {
                        let p = lemma_route_indices(m, q, via_id, destination@, via);
                        m.lemma_ids_distinct(p.last() as int, t as int);
                        lemma_names_route(m, p, via, t);
                    }
                }
                None
            },
            Some((ip, d)) => {
                proof {
                    m.lemma_shape();
                    assert forall|k: int| 0 <= k < ip@.len() implies #[trigger] ip@[k] < m.ids().len() by {
                        assert(ip@[k] < m.weights().len());
                    }
                }
                let names = self.index_path_names(&ip);
                let mut path: Vec<String> = Vec::new();
                path.push(self.local_node.clone());
                let len = names.len();
                for k in 0..len
                    invariant
                        len == names@.len(),
                        path@.len() == k + 1,
                        path@[0]@ == local,
                        local == self.local_id(),
                        forall|j: int| 0 <= j < k ==> #[trigger] path@[j + 1]@ == names@[j]@,
                {
                    path.push(names[k].clone());
                }
                let total_rtt = duration_from_micros(d);
                proof {
                    lemma_names_route(m, ip@, via, t);
                    let q = string_ids(names@);
                    assert(string_ids(path@).drop_first() =~= q);
                    assert forall|q2: Seq<Seq<char>>| #[trigger] is_route(m, q2, via_id, destination@)
                        implies route_cost(m, q) <= route_cost(m, q2) by {
                        let p = lemma_route_indices(m, q2, via_id, destination@, via);
                        m.lemma_ids_distinct(p.last() as int, t as int);
                        lemma_names_route(m, p, via, t);
                    }
                    assert(string_ids(path@)[0] == local);
                }
                Some((RouteEntry { next_hop: via_name.clone(), total_rtt, path }, d))
            },
        }
    }

    /// Get the top-N diverse paths to a destination (for multi-path sending):
    /// one route per neighbour of the local node, each forced through that
    /// neighbour, the `n` cheapest first.
    #[verifier::spinoff_prover]
    #[verifier::rlimit(40)]
    fn top_paths(&self, destination: &str, n: usize) -> (r: Vec<RouteEntry>)
        requires
            self.latencies().wf(),
        ensures
            destination@ == self.local_id() ==> r@.len() == 0,
            r@.len() <= n,
            forall|i: int|
                0 <= i < r@.len() ==> is_via_route(
                    self.latencies(),
                    self.local_id(),
                    #[trigger] r@[i].next_hop@,
                    destination@,
                    string_ids(r@[i].path@),
                    micros_of(r@[i].total_rtt),
                ),
            forall|i: int, j: int|
                0 <= i < j < r@.len() ==> #[trigger] r@[i].next_hop@ != #[trigger] r@[j].next_hop@,
            forall|i: int, j: int|
                0 <= i <= j < r@.len() ==> micros_of(#[trigger] r@[i].total_rtt) <= micros_of(
                    #[trigger] r@[j].total_rtt,
                ),
            destination@ != self.local_id() ==> forall|nb: Seq<char>|
                #[trigger] has_via_route(self.latencies(), self.local_id(), nb, destination@) && (
                forall|i: int| 0 <= i < r@.len() ==> r@[i].next_hop@ != nb) ==> {
                    &&& r@.len() == n
                    &&& forall|i: int, q: Seq<Seq<char>>|
                        0 <= i < r@.len() && #[trigger] is_route(self.latencies(), q, nb, destination@)
                            ==> micros_of(#[trigger] r@[i].total_rtt) <= self.latencies().rtt_of(
                            self.local_id(),
                            nb,
                        )->0 + route_cost(self.latencies(), q)
                },
    {
        let ghost m = self.latencies();
        let ghost local = self.local_id();
        let dest = destination.to_owned();
        if dest == *self.local_node {
            return Vec::new();
        }
        let s = match self.matrix.index_of(self.local_node.as_str()) {
            Some(s) => s,
            None => {
                proof {
                    assert forall|nb: Seq<char>|
                        #[trigger] has_via_route(m, local, nb, destination@) implies false by {
                        m.lemma_rtt_of_listed(local, nb);
                    }
                }
                return Vec::new();
            },
        };
        let (mut rem_e, mut rem_t, Ghost(vias)) = self.via_candidates(s, destination);
        let ghost mut rem_v: Seq<usize> = vias;
        let ghost mut out_v: Seq<usize> = Seq::empty();
        let mut out: Vec<RouteEntry> = Vec::new();
        proof {
            m.lemma_shape();
        }
        while out.len() < n && rem_e.len() > 0
            invariant
                m == self.latencies(),
                local == self.local_id(),
                m.wf(),
                out@.len() <= n,
                rem_e@.len() == rem_t@.len(),
                rem_e@.len() == rem_v.len(),
                out@.len() == out_v.len(),
                forall|k: int| 0 <= k < rem_v.len() ==> #[trigger] rem_v[k] < m.ids().len(),
                forall|k: int| 0 <= k < out_v.len() ==> #[trigger] out_v[k] < m.ids().len(),
                forall|k: int|
                    0 <= k < rem_e@.len() ==> {
                        &&& rem_t@[k] == micros_of(#[trigger] rem_e@[k].total_rtt)
                        &&& rem_e@[k].next_hop@ == m.ids()[rem_v[k] as int]
                        &&& is_via_route(
                            m,
                            local,
                            m.ids()[rem_v[k] as int],
                            destination@,
                            string_ids(rem_e@[k].path@),
                            rem_t@[k] as nat,
                        )
                    },
                forall|k: int|
                    0 <= k < out@.len() ==> {
                        &&& #[trigger] out@[k].next_hop@ == m.ids()[out_v[k] as int]
                        &&& is_via_route(
                            m,
                            local,
                            m.ids()[out_v[k] as int],
                            destination@,
                            string_ids(out@[k].path@),
                            micros_of(out@[k].total_rtt),
                        )
                    },
                forall|i: int, j: int|
                    0 <= i < j < rem_v.len() ==> #[trigger] rem_v[i] != #[trigger] rem_v[j],
                forall|i: int, j: int|
                    0 <= i < j < out_v.len() ==> #[trigger] out_v[i] != #[trigger] out_v[j],
                forall|i: int, j: int|
                    0 <= i < out_v.len() && 0 <= j < rem_v.len() ==> #[trigger] out_v[i]
                        != #[trigger] rem_v[j],
                forall|x: usize| #[trigger] vias.contains(x) <==> (rem_v.contains(x) || out_v.contains(x)),
                forall|i: int, j: int|
                    0 <= i <= j < out@.len() ==> micros_of(#[trigger] out@[i].total_rtt) <= micros_of(
                        #[trigger] out@[j].total_rtt,
                    ),
                forall|i: int, k: int|
                    0 <= i < out@.len() && 0 <= k < rem_t@.len() ==> micros_of(
                        #[trigger] out@[i].total_rtt,
                    ) <= #[trigger] rem_t@[k],
            decreases rem_e@.len(),
        {
            let len = rem_t.len();
            let mut b: usize = 0;
            let mut k: usize = 1;
            while k < len
                invariant
                    len == rem_t@.len(),
                    b < len,
                    1 <= k <= len,
                    forall|j: int| 0 <= j < k ==> rem_t@[b as int] <= #[trigger] rem_t@[j],
                decreases len - k,
            {
                if rem_t[k] < rem_t[b] {
                    b = k;
                }
                k = k + 1;
            }
            let ghost old_rem_v = rem_v;
            let ghost old_rem_t = rem_t@;
            let ghost old_rem_e = rem_e@;
            let ghost old_out_v = out_v;
            let ghost old_out = out@;
            let e = rem_e.remove(b);
            let _tb = rem_t.remove(b);
            proof {
                out_v = out_v.push(old_rem_v[b as int]);
                rem_v = old_rem_v.remove(b as int);
            }
            out.push(e);
            proof {
                assert forall|x: usize| #[trigger] vias.contains(x) <==> (rem_v.contains(x)
                    || out_v.contains(x)) by {
                    if old_rem_v.contains(x) {
                        let k = choose|k: int| 0 <= k < old_rem_v.len() && old_rem_v[k] == x;
                        if k < b {
                            assert(rem_v[k] == x);
                        } else if k > b {
                            assert(rem_v[k - 1] == x);
                        } else {
                            assert(out_v[out_v.len() - 1] == x);
                        }
                    }
                    if old_out_v.contains(x) {
                        let k = choose|k: int| 0 <= k < old_out_v.len() && old_out_v[k] == x;
                        assert(out_v[k] == x);
                    }
                    if rem_v.contains(x) {
                        let k = choose|k: int| 0 <= k < rem_v.len() && rem_v[k] == x;
                        if k < b {
                            assert(old_rem_v[k] == x);
                        } else {
                            assert(old_rem_v[k + 1] == x);
                        }
                    }
                    if out_v.contains(x) {
                        let k = choose|k: int| 0 <= k < out_v.len() && out_v[k] == x;
                        if k < old_out_v.len() {
                            assert(old_out_v[k] == x);
                        } else {
                            assert(old_rem_v[b as int] == x);
                        }
                    }
                }
                assert forall|i: int, j: int|
                    0 <= i < out_v.len() && 0 <= j < rem_v.len() implies #[trigger] out_v[i]
                        != #[trigger] rem_v[j] by {
                    let jj = if j < b { j } else { j + 1 };
                    assert(rem_v[j] == old_rem_v[jj]);
                    if i < old_out_v.len() {
                        assert(out_v[i] == old_out_v[i]);
                    } else {
                        assert(out_v[i] == old_rem_v[b as int]);
                        assert(jj != b);
                    }
                }
                assert forall|i: int, j: int|
                    0 <= i < j < rem_v.len() implies #[trigger] rem_v[i] != #[trigger] rem_v[j] by {
                    let ii = if i < b { i } else { i + 1 };
                    let jj = if j < b { j } else { j + 1 };
                    assert(rem_v[i] == old_rem_v[ii]);
                    assert(rem_v[j] == old_rem_v[jj]);
                }
                assert forall|i: int, j: int|
                    0 <= i < j < out_v.len() implies #[trigger] out_v[i] != #[trigger] out_v[j] by {
                    if j == out_v.len() - 1 {
                        assert(out_v[i] == old_out_v[i]);
                        assert(old_out_v[i] != old_rem_v[b as int]);
                    }
                }
                assert forall|k: int| 0 <= k < rem_e@.len() implies rem_t@[k] == micros_of(
                    #[trigger] rem_e@[k].total_rtt,
                ) && rem_e@[k].next_hop@ == m.ids()[rem_v[k] as int] && is_via_route(
                    m,
                    local,
                    m.ids()[rem_v[k] as int],
                    destination@,
                    string_ids(rem_e@[k].path@),
                    rem_t@[k] as nat,
                ) by {
                    let kk = if k < b { k } else { k + 1 };
                    assert(old_rem_t[kk] == micros_of(old_rem_e[kk].total_rtt));
                    assert(rem_e@[k] == old_rem_e[kk]);
                    assert(rem_t@[k] == old_rem_t[kk]);
                    assert(rem_v[k] == old_rem_v[kk]);
                }
                assert forall|k: int| 0 <= k < rem_v.len() implies #[trigger] rem_v[k] < m.ids().len() by {
                    let kk = if k < b { k } else { k + 1 };
                    assert(rem_v[k] == old_rem_v[kk]);
                }
                assert forall|k: int|
                    0 <= k < out@.len() implies {
                        &&& #[trigger] out@[k].next_hop@ == m.ids()[out_v[k] as int]
                        &&& is_via_route(
                            m,
                            local,
                            m.ids()[out_v[k] as int],
                            destination@,
                            string_ids(out@[k].path@),
                            micros_of(out@[k].total_rtt),
                        )
                    } by {
                    if k < old_out.len() {
                        assert(old_out[k].next_hop@ == m.ids()[old_out_v[k] as int]);
                        assert(out@[k] == old_out[k]);
                        assert(out_v[k] == old_out_v[k]);
                    } else {
                        assert(old_rem_t[b as int] == micros_of(old_rem_e[b as int].total_rtt));
                        assert(out@[k] == old_rem_e[b as int]);
                        assert(out_v[k] == old_rem_v[b as int]);
                    }
                }
                assert forall|i: int, j: int|
                    0 <= i <= j < out@.len() implies micros_of(#[trigger] out@[i].total_rtt) <= micros_of(
                        #[trigger] out@[j].total_rtt,
                    ) by {
                    if j == out@.len() - 1 {
                        assert(out@[j] == old_rem_e[b as int]);
                        if i < old_out.len() {
                            assert(out@[i] == old_out[i]);
                            assert(micros_of(old_out[i].total_rtt) <= old_rem_t[b as int]);
                        }
                    } else {
                        assert(out@[i] == old_out[i]);
                        assert(out@[j] == old_out[j]);
                    }
                }
                assert forall|i: int, k: int|
                    0 <= i < out@.len() && 0 <= k < rem_t@.len() implies micros_of(
                        #[trigger] out@[i].total_rtt,
                    ) <= #[trigger] rem_t@[k] by {
                    let kk = if k < b { k } else { k + 1 };
                    assert(rem_t@[k] == old_rem_t[kk]);
                    if i < old_out.len() {
                        assert(out@[i] == old_out[i]);
                    } else {
                        assert(out@[i] == old_rem_e[b as int]);
                        assert(old_rem_t[b as int] <= old_rem_t[kk]);
                    }
                }
            }
        }
        proof {
            assert forall|i: int, j: int|
                0 <= i < j < out@.len() implies #[trigger] out@[i].next_hop@ != #[trigger] out@[j].next_hop@ by {
                if out@[i].next_hop@ == out@[j].next_hop@ {
                    m.lemma_ids_distinct(out_v[i] as int, out_v[j] as int);
                }
            }
            assert forall|nb: Seq<char>|
                #[trigger] has_via_route(m, local, nb, destination@) && (forall|i: int|
                    0 <= i < out@.len() ==> out@[i].next_hop@ != nb) implies {
                    &&& out@.len() == n
                    &&& forall|i: int, q: Seq<Seq<char>>|
                        0 <= i < out@.len() && #[trigger] is_route(m, q, nb, destination@)
                            ==> micros_of(#[trigger] out@[i].total_rtt) <= m.rtt_of(local, nb)->0
                            + route_cost(m, q)
                } by {
                m.lemma_rtt_of_listed(local, nb);
                let j = choose|j: int| 0 <= j < m.ids().len() && m.ids()[j] == nb;
                m.lemma_rtt_of_index(s as int, j);
                assert(vias.contains(j as usize));
                if out_v.contains(j as usize) {
                    let i = choose|i: int| 0 <= i < out_v.len() && out_v[i] == j as usize;
                    assert(out@[i].next_hop@ == nb);
                }
                let k = choose|k: int| 0 <= k < rem_v.len() && rem_v[k] == j as usize;
                assert(rem_e@.len() > 0);
                assert forall|i: int, q: Seq<Seq<char>>|
                    0 <= i < out@.len() && #[trigger] is_route(m, q, nb, destination@) implies micros_of(
                        #[trigger] out@[i].total_rtt,
                    ) <= m.rtt_of(local, nb)->0 + route_cost(m, q) by {
                    assert(micros_of(out@[i].total_rtt) <= rem_t@[k]);
                    assert(rem_t@[k] == micros_of(rem_e@[k].total_rtt));
                    assert(is_via_route(m, local, nb, destination@, string_ids(rem_e@[k].path@), rem_t@[k] as nat));
                }
            }
        }
        out
    }

    /// One route per neighbour of the local node (index `s`) through which
    /// `destination` can be reached, in node order, with its total RTT and
    /// the neighbour's index.
    fn via_candidates(&self, s: usize, destination: &str) -> (r: (Vec<RouteEntry>, Vec<u64>, Ghost<Seq<usize>>))
        requires
            self.latencies().wf(),
            (s as int) < self.latencies().ids().len(),
            self.latencies().ids()[s as int] == self.local_id(),
        ensures
            r.0@.len() == r.1@.len(),
            r.0@.len() == r.2@.len(),
            forall|k: int| 0 <= k < r.2@.len() ==> #[trigger] r.2@[k] < self.latencies().ids().len(),
            forall|i: int, j: int| 0 <= i < j < r.2@.len() ==> #[trigger] r.2@[i] != #[trigger] r.2@[j],
            forall|k: int|
                0 <= k < r.0@.len() ==> {
                    &&& r.1@[k] == micros_of(#[trigger] r.0@[k].total_rtt)
                    &&& r.0@[k].next_hop@ == self.latencies().ids()[r.2@[k] as int]
                    &&& is_via_route(
                        self.latencies(),
                        self.local_id(),
                        self.latencies().ids()[r.2@[k] as int],
                        destination@,
                        string_ids(r.0@[k].path@),
                        r.1@[k] as nat,
                    )
                },
            forall|j: usize|
                j < self.latencies().ids().len() && #[trigger] has_via_route(
                    self.latencies(),
                    self.local_id(),
                    self.latencies().ids()[j as int],
                    destination@,
                ) ==> r.2@.contains(j),
    {
        let ghost m = self.latencies();
        let nn = self.matrix.node_count();
        let mut es: Vec<RouteEntry> = Vec::new();
        let mut ts: Vec<u64> = Vec::new();
        let ghost mut vs: Seq<usize> = Seq::empty();
        for j in 0..nn
            invariant
                m == self.latencies(),
                m.wf(),
                nn == m.ids().len(),
                (s as int) < m.ids().len(),
                m.ids()[s as int] == self.local_id(),
                es@.len() == ts@.len(),
                es@.len() == vs.len(),
                forall|k: int| 0 <= k < vs.len() ==> #[trigger] vs[k] < j,
                forall|i: int, k: int| 0 <= i < k < vs.len() ==> #[trigger] vs[i] < #[trigger] vs[k],
                forall|k: int|
                    0 <= k < es@.len() ==> {
                        &&& ts@[k] == micros_of(#[trigger] es@[k].total_rtt)
                        &&& es@[k].next_hop@ == m.ids()[vs[k] as int]
                        &&& is_via_route(
                            m,
                            self.local_id(),
                            m.ids()[vs[k] as int],
                            destination@,
                            string_ids(es@[k].path@),
                            ts@[k] as nat,
                        )
                    },
                forall|x: usize|
                    x < j && #[trigger] has_via_route(m, self.local_id(), m.ids()[x as int], destination@)
                        ==> vs.contains(x),
        {
            proof {
                m.lemma_rtt_of_index(s as int, j as int);
            }
            let ghost old_vs = vs;
            let ghost old_es = es@;
            let ghost old_ts = ts@;
            if self.matrix.weight(s, j).is_some() {
                match self.dijkstra_via(s, j, destination) {
                    Some((e, tot)) => {
                        es.push(e);
                        ts.push(tot);
                        proof {
                            vs = vs.push(j);
                        }
                    },
                    None => {},
                }
            }
            proof {
                assert forall|k: int| 0 <= k < es@.len() implies ts@[k] == micros_of(
                    #[trigger] es@[k].total_rtt,
                ) && es@[k].next_hop@ == m.ids()[vs[k] as int] && is_via_route(
                    m,
                    self.local_id(),
                    m.ids()[vs[k] as int],
                    destination@,
                    string_ids(es@[k].path@),
                    ts@[k] as nat,
                ) by {
                    if k < old_es.len() {
                        assert(old_ts[k] == micros_of(old_es[k].total_rtt));
                        assert(es@[k] == old_es[k]);
                        assert(ts@[k] == old_ts[k]);
                        assert(vs[k] == old_vs[k]);
                    }
                }
                assert forall|x: usize|
                    x < j + 1 && #[trigger] has_via_route(m, self.local_id(), m.ids()[x as int], destination@)
                        implies vs.contains(x) by {
                    if x == j {
                        assert(vs[vs.len() - 1] == j);
                    } else {
                        assert(old_vs.contains(x));
                        let k = choose|k: int| 0 <= k < old_vs.len() && old_vs[k] == x;
                        assert(vs[k] == x);
                    }
                }
            }
        }
        proof {
            assert forall|k: int| 0 <= k < vs.len() implies #[trigger] vs[k] < m.ids().len() by {}
            assert forall|i: int, j: int| 0 <= i < j < vs.len() implies #[trigger] vs[i] != #[trigger] vs[j] by {
                assert(vs[i] < vs[j]);
            }
        }
        (es, ts, Ghost(vs))
    }

    /// The identifiers of the nodes of an index path.
    fn index_path_names(&self, ip: &Vec<usize>) -> (r: Vec<String>)
        requires
            self.latencies().wf(),
            forall|k: int| 0 <= k < ip@.len() ==> #[trigger] ip@[k] < self.latencies().ids().len(),
        ensures
            string_ids(r@) == names_of(self.latencies(), ip@),
    {
        let mut r: Vec<String> = Vec::new();
        let len = ip.len();
        for k in 0..len
            invariant
                self.latencies().wf(),
                len == ip@.len(),
                forall|j: int| 0 <= j < ip@.len() ==> #[trigger] ip@[j] < self.latencies().ids().len(),
                r@.len() == k,
                forall|j: int| 0 <= j < k ==> #[trigger] r@[j]@ == self.latencies().ids()[ip@[j] as int],
        {
            let name = self.matrix.node_name(ip[k]);
            r.push(name.clone());
        }
        assert(string_ids(r@) =~= names_of(self.latencies(), ip@));
        r
    }
}

} // verus!
