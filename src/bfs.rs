use vstd::prelude::*;
use vstd::set_lib::{lemma_int_range, lemma_len_subset, set_int_range};

use crate::graph::{built_from, targets_of, Graph};

verus! {

/// The adjacency list of `w` names `v`.
pub open spec fn has_edge(adj: Seq<Seq<usize>>, w: int, v: int) -> bool {
    exists|t: int| 0 <= t < adj[w].len() && adj[w][t] as int == v
}

/// Step `i` of the walk `p` follows an edge of the graph.
pub open spec fn step_ok(adj: Seq<Seq<usize>>, p: Seq<int>, i: int) -> bool {
    has_edge(adj, p[i], p[i + 1])
}

/// `p` is a walk: a non-empty sequence of nodes, each joined to the next by an edge.
pub open spec fn is_walk(adj: Seq<Seq<usize>>, p: Seq<int>) -> bool {
    &&& p.len() >= 1
    &&& forall|i: int| 0 <= i < p.len() ==> 0 <= #[trigger] p[i] < adj.len()
    &&& forall|i: int| 0 <= i < p.len() - 1 ==> #[trigger] step_ok(adj, p, i)
}

/// `v` is reached from `s` by a walk of at most `k` edges.
pub open spec fn reach(adj: Seq<Seq<usize>>, s: int, v: int, k: nat) -> bool {
    exists|p: Seq<int>| #[trigger] is_walk(adj, p) && p[0] == s && p.last() == v && p.len() <= k + 1
}

/// `d` is the least number of edges on a walk from `s` to `v`.
pub open spec fn is_distance(adj: Seq<Seq<usize>>, s: int, v: int, d: nat) -> bool {
    &&& reach(adj, s, v, d)
    &&& forall|k: nat| k < d ==> !#[trigger] reach(adj, s, v, k)
}

/// Slot `v` of `r` holds the distance from `s` to `v`, or nothing where no walk
/// from `s` reaches `v`.
pub open spec fn shortest_distances(adj: Seq<Seq<usize>>, s: int, r: Seq<Option<usize>>) -> bool {
    &&& r.len() == adj.len()
    &&& forall|v: int|
        0 <= v < adj.len() ==> match #[trigger] r[v] {
            Some(d) => is_distance(adj, s, v, d as nat),
            None => forall|k: nat| !#[trigger] reach(adj, s, v, k),
        }
}

/// The value held in slot `x`, read as an integer.
spec fn dval(r: Seq<Option<usize>>, x: int) -> int {
    r[x]->Some_0 as int
}

/// A sequence of distinct nodes below `n` has at most `n` entries.
proof fn lemma_distinct_nodes_bounded(q: Seq<usize>, n: usize)
    requires
        q.no_duplicates(),
        forall|i: int| 0 <= i < q.len() ==> q[i] < n,
    ensures
        q.len() <= n,
{
    let qi = q.map_values(|x: usize| x as int);
    assert(qi.no_duplicates()) by {
        assert forall|i: int, j: int| 0 <= i < qi.len() && 0 <= j < qi.len() && i != j implies qi[i]
            != qi[j] by {
            assert(q[i] != q[j]);
        }
    }
    qi.unique_seq_to_set();
    lemma_int_range(0, n as int);
    assert forall|x: int| qi.to_set().contains(x) implies set_int_range(0, n as int).contains(x) by {
        let i = choose|i: int| 0 <= i < qi.len() && qi[i] == x;
        assert(q[i] < n);
    }
    lemma_len_subset(qi.to_set(), set_int_range(0, n as int));
}

/// A walk of `j` edges from `s` to `w`, followed by the edge from `w` to `v`, is a
/// walk of `j + 1` edges to `v`.
proof fn lemma_extend(adj: Seq<Seq<usize>>, s: int, w: int, v: int, j: nat)
    requires
        reach(adj, s, w, j),
        has_edge(adj, w, v),
        0 <= v < adj.len(),
    ensures
        reach(adj, s, v, j + 1),
{
    let p = choose|p: Seq<int>| #[trigger] is_walk(adj, p) && p[0] == s && p.last() == w && p.len() <= j + 1;
    let q = p.push(v);
    assert forall|i: int| 0 <= i < q.len() - 1 implies #[trigger] step_ok(adj, q, i) by {
        if i < p.len() - 1 {
            assert(step_ok(adj, p, i));
        }
    }
    assert(is_walk(adj, q));
}

/// When every neighbour of every reached node is reached with at most one more
/// edge, node `i` of a walk from `s` holds a distance of at most `i`.
proof fn lemma_walk_covered(adj: Seq<Seq<usize>>, s: int, r: Seq<Option<usize>>, p: Seq<int>, i: int)
    requires
        r.len() == adj.len(),
        r[s] == Some(0usize),
        is_walk(adj, p),
        p[0] == s,
        0 <= i < p.len(),
        forall|x: int, t: int|
            0 <= x < adj.len() && r[x] is Some && 0 <= t < adj[x].len() ==> (r[
                #[trigger] adj[x][t] as int] is Some && dval(r, adj[x][t] as int) <= dval(r, x) + 1),
    ensures
        r[p[i]] is Some,
        dval(r, p[i]) <= i,
    decreases i,
{
    if i > 0 {
        lemma_walk_covered(adj, s, r, p, i - 1);
        assert(step_ok(adj, p, i - 1));
        let w = p[i - 1];
        assert(0 <= w < adj.len());
        let t = choose|t: int| 0 <= t < adj[w].len() && adj[w][t] as int == p[i];
        assert(adj[w][t] as int == p[i]);
    }
}

/// Under the same closure, every node that a walk of `k` edges reaches from `s`
/// holds a distance of at most `k`.
proof fn lemma_closed_covers(adj: Seq<Seq<usize>>, s: int, r: Seq<Option<usize>>, v: int, k: nat)
    requires
        r.len() == adj.len(),
        r[s] == Some(0usize),
        reach(adj, s, v, k),
        forall|x: int, t: int|
            0 <= x < adj.len() && r[x] is Some && 0 <= t < adj[x].len() ==> (r[
                #[trigger] adj[x][t] as int] is Some && dval(r, adj[x][t] as int) <= dval(r, x) + 1),
    ensures
        r[v] is Some,
        dval(r, v) <= k,
{
    let p = choose|p: Seq<int>| #[trigger] is_walk(adj, p) && p[0] == s && p.last() == v && p.len() <= k + 1;
    lemma_walk_covered(adj, s, r, p, p.len() - 1);
}

/// Breadth-first search from `start`: the number of edges on a shortest walk from
/// `start` to each node, or `None` for a node that no walk reaches.
pub fn bfs(graph: &Graph, start: usize) -> (distance: Vec<Option<usize>>)
    requires
        graph.wf(),
        start < graph.n,
    ensures
        shortest_distances(graph@, start as int, distance@),
        distance@[start as int] == Some(0usize),
{
    let ghost adj = graph@;
    let n = graph.n;
    let mut distance: Vec<Option<usize>> = Vec::new();
    let mut i: usize = 0;
    while i < n
        invariant
            i <= n,
            distance@.len() == i,
            forall|x: int| 0 <= x < i ==> (#[trigger] distance@[x]) is None,
        decreases n - i,
    {
        distance.push(None);
        i = i + 1;
    }
    distance.set(start, Some(0));
    let mut queue: Vec<usize> = Vec::new();
    queue.push(start);
    let mut head: usize = 0;
    assert forall|x: int| 0 <= x < n && (#[trigger] distance@[x]) is Some implies exists|i: int|
        0 <= i < queue@.len() && queue@[i] as int == x by {
        assert(queue@[0] as int == x);
    }
    assert(is_walk(adj, seq![start as int]));
    assert(reach(adj, start as int, start as int, 0));
    while head < queue.len()
        invariant
            n == graph.n,
            graph.wf(),
            adj == graph@,
            start < n,
            distance@.len() == n,
            queue@.len() >= 1,
            queue@[0] == start,
            head <= queue@.len(),
            distance@[start as int] == Some(0usize),
            queue@.no_duplicates(),
            forall|i: int| 0 <= i < queue@.len() ==> (#[trigger] queue@[i]) < n,
            forall|i: int| 0 <= i < queue@.len() ==> distance@[#[trigger] queue@[i] as int] is Some,
            forall|x: int|
                0 <= x < n && (#[trigger] distance@[x]) is Some ==> exists|i: int|
                    0 <= i < queue@.len() && queue@[i] as int == x,
            forall|i: int| 0 <= i < queue@.len() ==> dval(distance@, #[trigger] queue@[i] as int) <= i,
            forall|i: int, j: int|
                0 <= i <= j < queue@.len() ==> dval(distance@, #[trigger] queue@[i] as int) <= dval(
                    distance@,
                    #[trigger] queue@[j] as int,
                ),
            head < queue@.len() ==> dval(distance@, queue@.last() as int) <= dval(
                distance@,
                queue@[head as int] as int,
            ) + 1,
            forall|x: int|
                0 <= x < n && (#[trigger] distance@[x]) is Some ==> reach(
                    adj,
                    start as int,
                    x,
                    dval(distance@, x) as nat,
                ),
            forall|i: int, t: int|
                0 <= i < head && 0 <= t < adj[queue@[i] as int].len() ==> distance@[#[trigger] adj[
                    queue@[i] as int][t] as int] is Some && dval(distance@, adj[queue@[i] as int][t] as int)
                    <= dval(distance@, queue@[i] as int) + 1,
        decreases n - head,
    {
        proof {
            lemma_distinct_nodes_bounded(queue@, n);
        }
        let v = queue[head];
        let dv = distance[v].unwrap();
        assert(dv as int <= head);
        let row = &graph.outedges[v];
        assert(row@ == adj[v as int]);
        let mut j: usize = 0;
        while j < row.len()
            invariant
                n == graph.n,
                graph.wf(),
                adj == graph@,
                row@ == adj[v as int],
                v < n,
                v == queue@[head as int],
                head < queue@.len(),
                head < n,
                dv as int == dval(distance@, v as int),
                dv as int <= head,
                j <= row@.len(),
                start < n,
                distance@.len() == n,
                queue@.len() >= 1,
                queue@[0] == start,
                distance@[start as int] == Some(0usize),
                queue@.no_duplicates(),
                forall|i: int| 0 <= i < queue@.len() ==> (#[trigger] queue@[i]) < n,
                forall|i: int| 0 <= i < queue@.len() ==> distance@[#[trigger] queue@[i] as int] is Some,
                forall|x: int|
                    0 <= x < n && (#[trigger] distance@[x]) is Some ==> exists|i: int|
                        0 <= i < queue@.len() && queue@[i] as int == x,
                forall|i: int| 0 <= i < queue@.len() ==> dval(distance@, #[trigger] queue@[i] as int) <= i,
                forall|i: int, j: int|
                    0 <= i <= j < queue@.len() ==> dval(distance@, #[trigger] queue@[i] as int) <= dval(
                        distance@,
                        #[trigger] queue@[j] as int,
                    ),
                dval(distance@, queue@.last() as int) <= dv + 1,
                forall|x: int|
                    0 <= x < n && (#[trigger] distance@[x]) is Some ==> reach(
                        adj,
                        start as int,
                        x,
                        dval(distance@, x) as nat,
                    ),
                forall|i: int, t: int|
                    0 <= i < head && 0 <= t < adj[queue@[i] as int].len() ==> distance@[#[trigger] adj[
                        queue@[i] as int][t] as int] is Some && dval(distance@, adj[queue@[i] as int][t] as int)
                        <= dval(distance@, queue@[i] as int) + 1,
                forall|t: int|
                    0 <= t < j ==> distance@[#[trigger] adj[v as int][t] as int] is Some && dval(
                        distance@,
                        adj[v as int][t] as int,
                    ) <= dv + 1,
            decreases row@.len() - j,
        {
            let u = row[j];
            assert(u < n);
            if distance[u].is_none() {
                let ghost dold = distance@;
                let ghost qold = queue@;
                distance.set(u, Some(dv + 1));
                queue.push(u);
                proof {
                    assert(adj[v as int][j as int] == u);
                    assert(has_edge(adj, v as int, u as int));
                    assert(reach(adj, start as int, v as int, dv as nat));
                    lemma_extend(adj, start as int, v as int, u as int, dv as nat);
                    assert forall|x: int| 0 <= x < n && x != u as int implies distance@[x] == dold[x] by {}
                    assert(queue@.no_duplicates()) by {
                        assert forall|a: int, b: int|
                            0 <= a < queue@.len() && 0 <= b < queue@.len() && a != b implies queue@[a]
                            != queue@[b] by {
                            if a == qold.len() as int {
                                assert(dold[qold[b] as int] is Some);
                            } else if b == qold.len() as int {
                                assert(dold[qold[a] as int] is Some);
                            }
                        }
                    }
                    assert forall|x: int|
                        0 <= x < n && (#[trigger] distance@[x]) is Some implies exists|i: int|
                            0 <= i < queue@.len() && queue@[i] as int == x by {
                        if x == u as int {
                            assert(queue@[qold.len() as int] as int == x);
                        } else {
                            let i = choose|i: int| 0 <= i < qold.len() && qold[i] as int == x;
                            assert(queue@[i] as int == x);
                        }
                    }
                    assert forall|i: int| 0 <= i < queue@.len() implies dval(
                        distance@,
                        #[trigger] queue@[i] as int,
                    ) <= i by {
                        if i < qold.len() {
                            assert(queue@[i] == qold[i]);
                            assert(qold[i] != u);
                        }
                    }
                    assert forall|i: int, j: int|
                        0 <= i <= j < queue@.len() implies dval(distance@, #[trigger] queue@[i] as int)
                        <= dval(distance@, #[trigger] queue@[j] as int) by {
                        if j == qold.len() as int && i < j {
                            assert(qold[i] != u);
                            assert(dval(dold, qold[i] as int) <= dval(dold, qold.last() as int));
                        } else if j < qold.len() {
                            assert(qold[i] != u && qold[j] != u);
                        }
                    }
                }
            }
            j = j + 1;
        }
        head = head + 1;
        proof {
            if head < queue@.len() {
                assert(dval(distance@, queue@[head - 1] as int) <= dval(distance@, queue@[head as int] as int));
            }
        }
    }
    proof {
        let r = distance@;
        assert forall|x: int, t: int|
            0 <= x < adj.len() && r[x] is Some && 0 <= t < adj[x].len() implies (r[
                #[trigger] adj[x][t] as int] is Some && dval(r, adj[x][t] as int) <= dval(r, x) + 1) by {
            let i = choose|i: int| 0 <= i < queue@.len() && queue@[i] as int == x;
            assert(adj[queue@[i] as int][t] == adj[x][t]);
        }
        assert forall|v: int| 0 <= v < adj.len() implies match #[trigger] r[v] {
            Some(d) => is_distance(adj, start as int, v, d as nat),
            None => forall|k: nat| !#[trigger] reach(adj, start as int, v, k),
        } by {
            if r[v] is Some {
                assert forall|k: nat| k < dval(r, v) implies !#[trigger] reach(adj, start as int, v, k) by {
                    if reach(adj, start as int, v, k) {
                        lemma_closed_covers(adj, start as int, r, v, k);
                    }
                }
            } else {
                assert forall|k: nat| !#[trigger] reach(adj, start as int, v, k) by {
                    if reach(adj, start as int, v, k) {
                        lemma_closed_covers(adj, start as int, r, v, k);
                    }
                }
            }
        }
    }
    distance
}

/// `radj` is `adj` with every edge turned around.
pub open spec fn transposed(adj: Seq<Seq<usize>>, radj: Seq<Seq<usize>>) -> bool {
    &&& adj.len() == radj.len()
    &&& forall|a: int, b: int|
        0 <= a < adj.len() && 0 <= b < adj.len() ==> (#[trigger] has_edge(radj, a, b) <==> has_edge(
            adj,
            b,
            a,
        ))
}

/// A walk from `s` to `v` read backwards is a walk from `v` to `s` in the transpose.
proof fn lemma_reach_reversed(adj: Seq<Seq<usize>>, radj: Seq<Seq<usize>>, s: int, v: int, k: nat)
    requires
        transposed(adj, radj),
        reach(adj, s, v, k),
    ensures
        reach(radj, v, s, k),
{
    let p = choose|p: Seq<int>| #[trigger] is_walk(adj, p) && p[0] == s && p.last() == v && p.len() <= k + 1;
    let q = p.reverse();
    let l = p.len();
    assert forall|i: int| 0 <= i < q.len() - 1 implies #[trigger] step_ok(radj, q, i) by {
        assert(step_ok(adj, p, l - 2 - i));
        assert(q[i] == p[l - 1 - i] && q[i + 1] == p[l - 2 - i]);
        assert(0 <= p[l - 1 - i] < adj.len() && 0 <= p[l - 2 - i] < adj.len());
    }
    assert forall|i: int| 0 <= i < q.len() implies 0 <= #[trigger] q[i] < radj.len() by {
        assert(q[i] == p[l - 1 - i]);
    }
    assert(is_walk(radj, q));
}

/// The edges from `u` in an edge list are exactly the pairs that start at `u`.
proof fn lemma_targets_contains(edges: Seq<(usize, usize)>, u: usize, v: usize)
    ensures
        targets_of(edges, u).contains(v) <==> exists|k: int| 0 <= k < edges.len() && edges[k] == (u, v),
    decreases edges.len(),
{
    if edges.len() > 0 {
        let rest = edges.drop_last();
        lemma_targets_contains(rest, u, v);
        if targets_of(edges, u).contains(v) {
            if !targets_of(rest, u).contains(v) {
                assert(edges[edges.len() - 1] == (u, v));
            } else {
                let k = choose|k: int| 0 <= k < rest.len() && rest[k] == (u, v);
                assert(edges[k] == (u, v));
            }
        }
        if exists|k: int| 0 <= k < edges.len() && edges[k] == (u, v) {
            let k = choose|k: int| 0 <= k < edges.len() && edges[k] == (u, v);
            if k < edges.len() - 1 {
                assert(rest[k] == (u, v));
                let t = targets_of(rest, u);
                let j = choose|j: int| 0 <= j < t.len() && t[j] == v;
                if edges.last().0 == u {
                    assert(t.push(edges.last().1)[j] == v);
                }
            } else {
                assert(targets_of(edges, u) == targets_of(rest, u).push(v));
                assert(targets_of(edges, u)[targets_of(rest, u).len() as int] == v);
            }
        }
    }
}

/// In a graph built from an edge list, `u` has an edge to `v` exactly when the
/// list holds the pair `(u, v)`.
proof fn lemma_built_edge(adj: Seq<Seq<usize>>, n: usize, edges: Seq<(usize, usize)>, u: int, v: int)
    requires
        built_from(adj, n, edges),
        0 <= u < n,
        0 <= v < n,
    ensures
        has_edge(adj, u, v) <==> exists|k: int| 0 <= k < edges.len() && edges[k] == (u as usize, v as usize),
{
    broadcast use vstd::seq_lib::group_to_multiset_ensures;

    lemma_targets_contains(edges, u as usize, v as usize);
    let t = targets_of(edges, u as usize);
    assert(adj[u].to_multiset() == t.to_multiset());
    if has_edge(adj, u, v) {
        let i = choose|i: int| 0 <= i < adj[u].len() && adj[u][i] as int == v;
        assert(adj[u].contains(v as usize));
        assert(adj[u].to_multiset().count(v as usize) > 0);
        assert(t.contains(v as usize));
    }
    if t.contains(v as usize) {
        assert(t.to_multiset().count(v as usize) > 0);
        assert(adj[u].contains(v as usize));
        let i = choose|i: int| 0 <= i < adj[u].len() && adj[u][i] == v as usize;
        assert(adj[u][i] as int == v);
    }
}

/// Reversing every edge of a graph turns around every distance: the distance from
/// `u` to `v` in the graph built from the reversed edge list is the distance from
/// `v` to `u` in the graph built from the edge list, and each is missing exactly
/// when the other is.
pub proof fn lemma_reversal_duality(
    n: usize,
    edges: Seq<(usize, usize)>,
    reversed: Seq<(usize, usize)>,
    adj: Seq<Seq<usize>>,
    radj: Seq<Seq<usize>>,
    u: int,
    v: int,
    from_u_reversed: Seq<Option<usize>>,
    from_v: Seq<Option<usize>>,
)
    requires
        reversed.len() == edges.len(),
        forall|k: int| 0 <= k < edges.len() ==> #[trigger] reversed[k] == (edges[k].1, edges[k].0),
        built_from(adj, n, edges),
        built_from(radj, n, reversed),
        0 <= u < n,
        0 <= v < n,
        shortest_distances(radj, u, from_u_reversed),
        shortest_distances(adj, v, from_v),
    ensures
        from_u_reversed[v] == from_v[u],
{
    assert forall|a: int, b: int| 0 <= a < n && 0 <= b < n implies (#[trigger] has_edge(radj, a, b)
        <==> has_edge(adj, b, a)) by {
        lemma_built_edge(radj, n, reversed, a, b);
        lemma_built_edge(adj, n, edges, b, a);
        if has_edge(radj, a, b) {
            let k = choose|k: int| 0 <= k < reversed.len() && reversed[k] == (a as usize, b as usize);
            assert(edges[k] == (b as usize, a as usize));
        }
        if has_edge(adj, b, a) {
            let k = choose|k: int| 0 <= k < edges.len() && edges[k] == (b as usize, a as usize);
            assert(reversed[k] == (a as usize, b as usize));
        }
    }
    assert(transposed(adj, radj));
    assert(transposed(radj, adj));
    assert forall|k: nat| #[trigger] reach(radj, u, v, k) <==> reach(adj, v, u, k) by {
        if reach(radj, u, v, k) {
            lemma_reach_reversed(radj, adj, u, v, k);
        }
        if reach(adj, v, u, k) {
            lemma_reach_reversed(adj, radj, v, u, k);
        }
    }
    match (from_u_reversed[v], from_v[u]) {
        (Some(d1), Some(d2)) => {
            if d1 < d2 {
                assert(reach(radj, u, v, d1 as nat));
                assert(!reach(adj, v, u, d1 as nat));
            } else if d2 < d1 {
                assert(reach(adj, v, u, d2 as nat));
                assert(!reach(radj, u, v, d2 as nat));
            }
        },
        (Some(d1), None) => {
            assert(reach(radj, u, v, d1 as nat));
            assert(!reach(adj, v, u, d1 as nat));
        },
        (None, Some(d2)) => {
            assert(reach(adj, v, u, d2 as nat));
            assert(!reach(radj, u, v, d2 as nat));
        },
        (None, None) => {},
    }
}

/// Shortest distances are determined by the graph and the source: two results
/// that both meet the description are equal.
pub proof fn lemma_shortest_distances_unique(
    adj: Seq<Seq<usize>>,
    s: int,
    r1: Seq<Option<usize>>,
    r2: Seq<Option<usize>>,
)
    requires
        shortest_distances(adj, s, r1),
        shortest_distances(adj, s, r2),
    ensures
        r1 == r2,
{
    assert forall|v: int| 0 <= v < r1.len() implies r1[v] == r2[v] by {
        match (r1[v], r2[v]) {
            (Some(d1), Some(d2)) => {
                if d1 < d2 {
                    assert(reach(adj, s, v, d1 as nat));
                } else if d2 < d1 {
                    assert(reach(adj, s, v, d2 as nat));
                }
            },
            (Some(d1), None) => {
                assert(reach(adj, s, v, d1 as nat));
            },
            (None, Some(d2)) => {
                assert(reach(adj, s, v, d2 as nat));
            },
            (None, None) => {},
        }
    }
    assert(r1 =~= r2);
}

} // verus!
