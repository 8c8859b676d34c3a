use vstd::prelude::*;
use vstd::set_lib::{lemma_int_range, lemma_len_subset, set_int_range};

use crate::graph::Graph;

verus! {

/// The number of nodes whose adjacency list has exactly `d` entries.
pub open spec fn count_degree(adj: Seq<Seq<usize>>, d: int) -> nat
    decreases adj.len(),
{
    if adj.len() == 0 {
        0
    } else {
        count_degree(adj.drop_last(), d) + if adj.last().len() == d {
            1nat
        } else {
            0nat
        }
    }
}

/// The sum of the entries.
pub open spec fn seq_sum(s: Seq<usize>) -> int
    decreases s.len(),
{
    if s.len() == 0 {
        0
    } else {
        seq_sum(s.drop_last()) + s.last()
    }
}

/// `h[d]` is the number of nodes of degree `d`, for every degree up to the largest
/// one, and the histogram ends at the largest degree.
pub open spec fn is_degree_histogram(adj: Seq<Seq<usize>>, h: Seq<usize>) -> bool {
    &&& forall|v: int| 0 <= v < adj.len() ==> (#[trigger] adj[v]).len() < h.len()
    &&& forall|d: int| 0 <= d < h.len() ==> #[trigger] h[d] == count_degree(adj, d)
    &&& adj.len() == 0 ==> h.len() == 0
    &&& adj.len() > 0 ==> h.len() > 0 && h.last() > 0
}

proof fn lemma_count_degree_bounded(adj: Seq<Seq<usize>>, d: int)
    ensures
        count_degree(adj, d) <= adj.len(),
    decreases adj.len(),
{
    if adj.len() > 0 {
        lemma_count_degree_bounded(adj.drop_last(), d);
    }
}

proof fn lemma_count_degree_absent(adj: Seq<Seq<usize>>, d: int)
    requires
        forall|v: int| 0 <= v < adj.len() ==> (#[trigger] adj[v]).len() != d,
    ensures
        count_degree(adj, d) == 0,
    decreases adj.len(),
{
    if adj.len() > 0 {
        lemma_count_degree_absent(adj.drop_last(), d);
    }
}

proof fn lemma_sum_increment(s: Seq<usize>, k: int)
    requires
        0 <= k < s.len(),
        s[k] < usize::MAX,
    ensures
        seq_sum(s.update(k, (s[k] + 1) as usize)) == seq_sum(s) + 1,
    decreases s.len(),
{
    let t = s.update(k, (s[k] + 1) as usize);
    if k < s.len() - 1 {
        lemma_sum_increment(s.drop_last(), k);
        assert(t.drop_last() =~= s.drop_last().update(k, (s[k] + 1) as usize));
    } else {
        assert(t.drop_last() =~= s.drop_last());
    }
}

/// The degree histogram of a graph: entry `d` counts the nodes with `d` outgoing
/// edges. Every node is counted once, so the entries add up to the node count.
pub fn calculate_degree_distribution(graph: &Graph) -> (h: Vec<usize>)
    requires
        graph.wf(),
    ensures
        is_degree_histogram(graph@, h@),
        seq_sum(h@) == graph.n,
{
    let ghost adj = graph@;
    let mut h: Vec<usize> = Vec::new();
    let mut i: usize = 0;
    while i < graph.outedges.len()
        invariant
            graph.wf(),
            adj == graph@,
            i <= adj.len(),
            forall|v: int| 0 <= v < i ==> (#[trigger] adj[v]).len() < h@.len(),
            forall|d: int|
                0 <= d < h@.len() ==> #[trigger] h@[d] == count_degree(adj.subrange(0, i as int), d),
            forall|d: int| d >= h@.len() ==> count_degree(adj.subrange(0, i as int), d) == 0,
            i == 0 ==> h@.len() == 0,
            i > 0 ==> h@.len() > 0 && h@.last() > 0,
            seq_sum(h@) == i,
        decreases adj.len() - i,
    {
        let deg = graph.outedges[i].len();
        assert(deg == adj[i as int].len());
        let ghost pre = adj.subrange(0, i as int);
        let ghost post = adj.subrange(0, i + 1);
        assert(post.drop_last() =~= pre);
        let ghost old_len = h@.len();
        while h.len() <= deg
            invariant
                old_len <= h@.len(),
                h@.len() <= deg + 1 || h@.len() == old_len,
                forall|d: int| 0 <= d < old_len ==> #[trigger] h@[d] == count_degree(pre, d),
                forall|d: int| old_len <= d < h@.len() ==> #[trigger] h@[d] == 0,
                forall|d: int| d >= old_len ==> count_degree(pre, d) == 0,
                i > 0 ==> h@.len() > 0 && (h@.len() == old_len ==> h@.last() > 0),
                seq_sum(h@) == i,
            decreases deg + 1 - h@.len(),
        {
            let ghost hb = h@;
            h.push(0);
            assert(h@.drop_last() =~= hb);
        }
        proof {
            lemma_count_degree_bounded(pre, deg as int);
            lemma_sum_increment(h@, deg as int);
        }
        let c = h[deg];
        h.set(deg, c + 1);
        proof {
            assert forall|d: int| 0 <= d < h@.len() implies #[trigger] h@[d] == count_degree(post, d) by {
                if d >= old_len {
                    assert(count_degree(pre, d) == 0);
                }
            }
            assert forall|d: int| d >= h@.len() implies count_degree(post, d) == 0 by {
                assert(count_degree(pre, d) == 0);
            }
        }
        i = i + 1;
    }
    assert(adj.subrange(0, adj.len() as int) =~= adj);
    h
}

/// Node `a` ranks ahead of node `b`: it has more outgoing edges, or as many and a
/// larger id (the order of a stable ascending sort by degree, read backwards).
pub open spec fn ranks_ahead(adj: Seq<Seq<usize>>, a: int, b: int) -> bool {
    adj[a].len() > adj[b].len() || (adj[a].len() == adj[b].len() && a > b)
}

/// `v` stands among the first `i` entries of `r`.
pub open spec fn picked_before(r: Seq<usize>, i: int, v: int) -> bool {
    exists|j: int| 0 <= j < i && r[j] as int == v
}

/// Each entry of `r` is a node that ranks ahead of every node not listed before it.
pub open spec fn is_ranked_prefix(adj: Seq<Seq<usize>>, r: Seq<usize>) -> bool {
    &&& forall|i: int| 0 <= i < r.len() ==> (#[trigger] r[i]) < adj.len()
    &&& forall|i: int| 0 <= i < r.len() ==> !picked_before(r, i, #[trigger] r[i] as int)
    &&& forall|i: int, v: int|
        0 <= i < r.len() && 0 <= v < adj.len() && v != r[i] && !#[trigger] picked_before(r, i, v)
            ==> ranks_ahead(adj, r[i] as int, v)
}

/// `r` lists the `k` nodes with the most outgoing edges (all nodes where there are
/// fewer), most first, ties going to the larger id.
pub open spec fn is_top_ranking(adj: Seq<Seq<usize>>, r: Seq<usize>, k: int) -> bool {
    &&& r.len() == if k < adj.len() {
        k
    } else {
        adj.len() as int
    }
    &&& is_ranked_prefix(adj, r)
}

/// A sequence of distinct nodes below `n` that names every node below `n` has at
/// least `n` entries.
proof fn lemma_covering_nodes(r: Seq<usize>, n: int)
    requires
        0 <= n,
        forall|v: int| 0 <= v < n ==> #[trigger] picked_before(r, r.len() as int, v),
    ensures
        r.len() >= n,
{
    let ri = r.map_values(|x: usize| x as int);
    lemma_int_range(0, n);
    assert forall|v: int| set_int_range(0, n).contains(v) implies ri.to_set().contains(v) by {
        assert(picked_before(r, r.len() as int, v));
        let j = choose|j: int| 0 <= j < r.len() && r[j] as int == v;
        assert(ri[j] == v);
    }
    lemma_len_subset(set_int_range(0, n), ri.to_set());
    ri.lemma_cardinality_of_set();
}

/// The `top_n` nodes with the most outgoing edges, most first; ties go to the
/// larger id. All nodes where the graph has fewer than `top_n`.
pub fn top_nodes(graph: &Graph, top_n: usize) -> (r: Vec<usize>)
    requires
        graph.wf(),
    ensures
        is_top_ranking(graph@, r@, top_n as int),
{
    let ghost adj = graph@;
    let n = graph.n;
    let count = if top_n < n {
        top_n
    } else {
        n
    };
    let mut chosen: Vec<bool> = Vec::new();
    let mut k: usize = 0;
    while k < n
        invariant
            k <= n,
            chosen@.len() == k,
            forall|v: int| 0 <= v < k ==> !(#[trigger] chosen@[v]),
        decreases n - k,
    {
        chosen.push(false);
        k = k + 1;
    }
    let mut r: Vec<usize> = Vec::new();
    while r.len() < count
        invariant
            graph.wf(),
            adj == graph@,
            n == graph.n,
            count <= n,
            r@.len() <= count,
            chosen@.len() == n,
            is_ranked_prefix(adj, r@),
            forall|v: int| 0 <= v < n ==> (#[trigger] chosen@[v] <==> picked_before(r@, r@.len() as int, v)),
        decreases count - r@.len(),
    {
        let mut best: usize = n;
        let mut v: usize = 0;
        while v < n
            invariant
                graph.wf(),
                adj == graph@,
                n == graph.n,
                chosen@.len() == n,
                v <= n,
                best == n || (best < v && !chosen@[best as int]),
                best == n ==> forall|w: int| 0 <= w < v ==> #[trigger] chosen@[w],
                best < n ==> forall|w: int|
                    0 <= w < v && !(#[trigger] chosen@[w]) && w != best ==> ranks_ahead(adj, best as int, w),
            decreases n - v,
        {
            if !chosen[v] {
                if best == n || graph.outedges[v].len() >= graph.outedges[best].len() {
                    best = v;
                }
            }
            v = v + 1;
        }
        if best == n {
            proof {
                assert forall|w: int| 0 <= w < n implies #[trigger] picked_before(r@, r@.len() as int, w) by {
                    assert(chosen@[w]);
                }
                lemma_covering_nodes(r@, n as int);
            }
            return r;
        }
        let ghost rold = r@;
        let ghost cold = chosen@;
        chosen.set(best, true);
        r.push(best);
        proof {
            assert forall|i: int, w: int| 0 <= i <= rold.len() && 0 <= w < n implies picked_before(r@, i, w)
                == picked_before(rold, i, w) by {
                if picked_before(r@, i, w) {
                    let j = choose|j: int| 0 <= j < i && r@[j] as int == w;
                    assert(rold[j] == r@[j]);
                }
                if picked_before(rold, i, w) {
                    let j = choose|j: int| 0 <= j < i && rold[j] as int == w;
                    assert(rold[j] == r@[j]);
                }
            }
            assert forall|w: int| 0 <= w < n implies (#[trigger] chosen@[w] <==> picked_before(
                r@,
                r@.len() as int,
                w,
            )) by {
                if w == best as int {
                    assert(r@[rold.len() as int] == best);
                } else if picked_before(r@, r@.len() as int, w) {
                    let j = choose|j: int| 0 <= j < r@.len() && r@[j] as int == w;
                    assert(j < rold.len());
                    assert(picked_before(rold, rold.len() as int, w));
                }
            }
            assert forall|i: int| 0 <= i < r@.len() implies !picked_before(r@, i, #[trigger] r@[i] as int) by {
                if i < rold.len() {
                    assert(!picked_before(rold, i, rold[i] as int));
                } else {
                    assert(!chosen@.update(best as int, false)[best as int]);
                }
            }
            assert forall|i: int, w: int|
                0 <= i < r@.len() && 0 <= w < adj.len() && w != r@[i] && !#[trigger] picked_before(r@, i, w)
                    implies ranks_ahead(adj, r@[i] as int, w) by {
                if i < rold.len() {
                    assert(r@[i] == rold[i]);
                    assert(!picked_before(rold, i, w));
                } else {
                    assert(!picked_before(rold, rold.len() as int, w));
                    assert(!cold[w]);
                }
            }
        }
    }
    r
}

/// The numbers of outgoing edges of the `top_n` nodes that have the most of them,
/// most first.
pub fn top_degrees(graph: &Graph, top_n: usize) -> (r: Vec<usize>)
    requires
        graph.wf(),
    ensures
        exists|t: Seq<usize>|
            #[trigger] is_top_ranking(graph@, t, top_n as int) && r@.len() == t.len() && forall|i: int|
                0 <= i < t.len() ==> r@[i] == graph@[t[i] as int].len(),
{
    let nodes = top_nodes(graph, top_n);
    let mut r: Vec<usize> = Vec::new();
    let mut i: usize = 0;
    while i < nodes.len()
        invariant
            graph.wf(),
            is_top_ranking(graph@, nodes@, top_n as int),
            i <= nodes@.len(),
            r@.len() == i,
            forall|k: int| 0 <= k < i ==> r@[k] == graph@[#[trigger] nodes@[k] as int].len(),
        decreases nodes@.len() - i,
    {
        let node = nodes[i];
        r.push(graph.outedges[node].len());
        i = i + 1;
    }
    r
}

/// A node of degree `d` exists wherever some node is counted at degree `d`.
proof fn lemma_count_degree_witness(adj: Seq<Seq<usize>>, d: int) -> (v: int)
    requires
        count_degree(adj, d) > 0,
    ensures
        0 <= v < adj.len(),
        adj[v].len() == d,
{
    if forall|v: int| 0 <= v < adj.len() ==> (#[trigger] adj[v]).len() != d {
        lemma_count_degree_absent(adj, d);
    }
    choose|v: int| 0 <= v < adj.len() && (#[trigger] adj[v]).len() == d
}

/// The degree histogram is determined by the graph: two histograms that both meet
/// the description are equal.
pub proof fn lemma_degree_histogram_unique(adj: Seq<Seq<usize>>, h1: Seq<usize>, h2: Seq<usize>)
    requires
        is_degree_histogram(adj, h1),
        is_degree_histogram(adj, h2),
    ensures
        h1 == h2,
{
    if adj.len() > 0 {
        let v1 = lemma_count_degree_witness(adj, h1.len() - 1);
        let v2 = lemma_count_degree_witness(adj, h2.len() - 1);
        assert(adj[v1].len() < h2.len());
        assert(adj[v2].len() < h1.len());
    }
    assert(h1 =~= h2);
}

} // verus!
