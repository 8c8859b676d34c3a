use vstd::prelude::*;
use vstd::relations::{sorted_by, total_ordering};
use vstd::seq_lib::lemma_sorted_unique;

use crate::bfs::{bfs, is_distance, reach, shortest_distances};
use crate::degree::seq_sum;
use crate::graph::{is_sorted, sort_ascending, Graph};

verus! {

broadcast use vstd::seq_lib::group_to_multiset_ensures;

/// The distance from `s` to `v`, or `None` where no walk from `s` reaches `v`.
pub open spec fn distance_of(adj: Seq<Seq<usize>>, s: int, v: int) -> Option<nat> {
    if exists|d: nat| is_distance(adj, s, v, d) {
        Some(choose|d: nat| is_distance(adj, s, v, d))
    } else {
        None
    }
}

/// The distances from `i` to the targets `i + 1 .. j` that `i` reaches, by target.
pub open spec fn row_distances(adj: Seq<Seq<usize>>, i: int, j: int) -> Seq<nat>
    decreases j - i,
{
    if j <= i + 1 {
        Seq::empty()
    } else {
        let prev = row_distances(adj, i, j - 1);
        match distance_of(adj, i, j - 1) {
            Some(d) => prev.push(d),
            None => prev,
        }
    }
}

/// For the sources `0 .. i` in turn, the distances to the higher-numbered nodes
/// that each source reaches.
pub open spec fn pair_distances_upto(adj: Seq<Seq<usize>>, i: int) -> Seq<nat>
    decreases i,
{
    if i <= 0 {
        Seq::empty()
    } else {
        pair_distances_upto(adj, i - 1) + row_distances(adj, i - 1, adj.len() as int)
    }
}

/// The distance of every reachable pair `(i, j)` with `i < j`, measured from `i`,
/// ordered by `i` and then by `j`.
pub open spec fn pair_distances_spec(adj: Seq<Seq<usize>>) -> Seq<nat> {
    pair_distances_upto(adj, adj.len() as int)
}

pub open spec fn same_values(r: Seq<usize>, s: Seq<nat>) -> bool {
    r.len() == s.len() && forall|k: int| 0 <= k < r.len() ==> r[k] as nat == #[trigger] s[k]
}

/// The index of the median of `len` sorted values: the middle one, or the lower of
/// the two middle ones for an even count.
pub open spec fn median_index(len: int) -> int {
    if len % 2 == 0 {
        len / 2 - 1
    } else {
        len / 2
    }
}

pub open spec fn is_max_of(s: Seq<usize>, m: usize) -> bool {
    &&& s.contains(m)
    &&& forall|k: int| 0 <= k < s.len() ==> #[trigger] s[k] <= m
}

/// The integer statistics of a non-empty collection of distances.
#[derive(Clone, Copy, Debug, PartialEq, Eq, Structural)]
pub struct DistanceSummary {
    pub count: usize,
    pub sum: u128,
    pub median: usize,
    pub max: usize,
}

/// `summary` describes the collection `d`: its size, its sum, its largest value and
/// the median taken from `d` in ascending order.
pub open spec fn summarizes(d: Seq<usize>, summary: DistanceSummary) -> bool {
    &&& summary.count == d.len()
    &&& summary.sum == seq_sum(d)
    &&& is_max_of(d, summary.max)
    &&& exists|t: Seq<usize>|
        #[trigger] is_sorted(t) && t.to_multiset() == d.to_multiset() && summary.median == t[median_index(
            t.len() as int,
        )]
}

/// A BFS result agrees with `distance_of` slot by slot.
proof fn lemma_bfs_slot(adj: Seq<Seq<usize>>, s: int, r: Seq<Option<usize>>, v: int)
    requires
        shortest_distances(adj, s, r),
        0 <= v < adj.len(),
    ensures
        r[v] is Some ==> distance_of(adj, s, v) == Some(r[v]->Some_0 as nat),
        r[v] is None ==> distance_of(adj, s, v) is None,
{
    match r[v] {
        Some(d) => {
            assert(is_distance(adj, s, v, d as nat));
            let c = choose|c: nat| is_distance(adj, s, v, c);
            if c < d {
                assert(!reach(adj, s, v, c));
            } else if c > d {
                assert(!reach(adj, s, v, d as nat));
            }
        },
        None => {
            if exists|c: nat| is_distance(adj, s, v, c) {
                let c = choose|c: nat| is_distance(adj, s, v, c);
                assert(reach(adj, s, v, c));
            }
        },
    }
}

/// The distance of every reachable pair of nodes `(i, j)` with `i < j`, measured
/// from `i` to `j`, ordered by `i` and then by `j`.
pub fn pair_distances(graph: &Graph) -> (distances: Vec<usize>)
    requires
        graph.wf(),
    ensures
        same_values(distances@, pair_distances_spec(graph@)),
{
    let ghost adj = graph@;
    let n = graph.n;
    let mut distances: Vec<usize> = Vec::new();
    let mut i: usize = 0;
    while i < n
        invariant
            graph.wf(),
            adj == graph@,
            n == graph.n,
            i <= n,
            same_values(distances@, pair_distances_upto(adj, i as int)),
        decreases n - i,
    {
        let dist_from_i = bfs(graph, i);
        let ghost before = pair_distances_upto(adj, i as int);
        assert(before + row_distances(adj, i as int, i + 1) =~= before);
        let mut j: usize = i + 1;
        while j < n
            invariant
                graph.wf(),
                adj == graph@,
                n == graph.n,
                i < n,
                i + 1 <= j <= n,
                shortest_distances(adj, i as int, dist_from_i@),
                before == pair_distances_upto(adj, i as int),
                same_values(distances@, before + row_distances(adj, i as int, j as int)),
            decreases n - j,
        {
            proof {
                lemma_bfs_slot(adj, i as int, dist_from_i@, j as int);
            }
            if let Some(d) = dist_from_i[j] {
                let ghost pre = distances@;
                distances.push(d);
                assert(distances@.drop_last() == pre);
                assert(before + row_distances(adj, i as int, j + 1) =~= (before + row_distances(
                    adj,
                    i as int,
                    j as int,
                )).push(d as nat));
            } else {
                assert(before + row_distances(adj, i as int, j + 1) =~= before + row_distances(
                    adj,
                    i as int,
                    j as int,
                ));
            }
            j = j + 1;
        }
        assert(pair_distances_upto(adj, i + 1) == pair_distances_upto(adj, i as int) + row_distances(
            adj,
            i as int,
            adj.len() as int,
        ));
        i = i + 1;
    }
    distances
}

/// The median of values in ascending order: the middle one, or the lower of the
/// two middle ones for an even count.
pub fn median_of_sorted(sorted: &Vec<usize>) -> (m: usize)
    requires
        sorted@.len() > 0,
        is_sorted(sorted@),
    ensures
        m == sorted@[median_index(sorted@.len() as int)],
{
    let len = sorted.len();
    if len % 2 == 0 {
        sorted[len / 2 - 1]
    } else {
        sorted[len / 2]
    }
}

/// Summarizes a collection of distances: `None` for an empty one, which has no
/// median or maximum.
pub fn summarize_distances(distances: &Vec<usize>) -> (r: Option<DistanceSummary>)
    ensures
        r is None <==> distances@.len() == 0,
        r matches Some(summary) ==> summarizes(distances@, summary),
{
    let len = distances.len();
    if len == 0 {
        return None;
    }
    let mut sum: u128 = 0;
    let mut max: usize = distances[0];
    let mut k: usize = 0;
    while k < len
        invariant
            len == distances@.len(),
            len > 0,
            k <= len,
            sum == seq_sum(distances@.subrange(0, k as int)),
            sum <= k * 0xFFFF_FFFF_FFFF_FFFFu64,
            distances@.contains(max),
            forall|x: int| 0 <= x < k ==> #[trigger] distances@[x] <= max,
        decreases len - k,
    {
        let x = distances[k];
        assert(distances@.subrange(0, k + 1).drop_last() =~= distances@.subrange(0, k as int));
        sum = sum + x as u128;
        if x > max {
            max = x;
        }
        k = k + 1;
    }
    assert(distances@.subrange(0, len as int) =~= distances@);
    let mut sorted = distances.clone();
    assert(sorted@ == distances@);
    sort_ascending(&mut sorted);
    assert(sorted@.to_multiset().len() == distances@.to_multiset().len());
    let median = median_of_sorted(&sorted);
    let summary = DistanceSummary { count: len, sum, median, max };
    assert(is_sorted(sorted@) && sorted@.to_multiset() == distances@.to_multiset() && summary.median
        == sorted@[median_index(sorted@.len() as int)]);
    Some(summary)
}

/// The summary of the distances of all reachable pairs `(i, j)` with `i < j`, or
/// `None` where no such pair exists.
pub fn distance_distribution(graph: &Graph) -> (r: Option<DistanceSummary>)
    requires
        graph.wf(),
    ensures
        r is None <==> pair_distances_spec(graph@).len() == 0,
        r matches Some(summary) ==> exists|d: Seq<usize>|
            same_values(d, pair_distances_spec(graph@)) && #[trigger] summarizes(d, summary),
{
    let distances = pair_distances(graph);
    let r = summarize_distances(&distances);
    proof {
        if r is Some {
            assert(summarizes(distances@, r->Some_0));
        }
    }
    r
}

/// For an even count `2k` of sorted values the median is the lower middle value,
/// the one at index `k - 1`, not the mean of the two middle values.
pub proof fn lemma_median_even(t: Seq<usize>, k: int)
    requires
        is_sorted(t),
        k >= 1,
        t.len() == 2 * k,
    ensures
        t[median_index(t.len() as int)] == t[k - 1],
{
}

proof fn lemma_sorted_permutations_equal(t1: Seq<usize>, t2: Seq<usize>)
    requires
        is_sorted(t1),
        is_sorted(t2),
        t1.to_multiset() == t2.to_multiset(),
    ensures
        t1 == t2,
{
    let leq = |a: usize, b: usize| a <= b;
    assert(total_ordering(leq));
    assert(sorted_by(t1, leq));
    assert(sorted_by(t2, leq));
    lemma_sorted_unique(t1, t2, leq);
}

/// The summary is determined by the distances: two summaries of one collection
/// are equal.
pub proof fn lemma_summary_unique(d: Seq<usize>, s1: DistanceSummary, s2: DistanceSummary)
    requires
        summarizes(d, s1),
        summarizes(d, s2),
    ensures
        s1 == s2,
{
    let t1 = choose|t: Seq<usize>|
        #[trigger] is_sorted(t) && t.to_multiset() == d.to_multiset() && s1.median == t[median_index(
            t.len() as int,
        )];
    let t2 = choose|t: Seq<usize>|
        #[trigger] is_sorted(t) && t.to_multiset() == d.to_multiset() && s2.median == t[median_index(
            t.len() as int,
        )];
    lemma_sorted_permutations_equal(t1, t2);
    let i1 = choose|i: int| 0 <= i < d.len() && d[i] == s1.max;
    let i2 = choose|i: int| 0 <= i < d.len() && d[i] == s2.max;
    assert(d[i1] <= s2.max && d[i2] <= s1.max);
}

} // verus!
