use vstd::prelude::*;

verus! {

broadcast use vstd::seq_lib::group_to_multiset_ensures;

/// A directed graph over the nodes `0..n`, stored as one adjacency list per node.
#[derive(Debug)]
pub struct Graph {
    pub n: usize,
    pub outedges: Vec<Vec<usize>>,
}

/// Every node named by an adjacency list is a node of the graph.
pub open spec fn valid_adjacency(adj: Seq<Seq<usize>>) -> bool {
    forall|u: int, i: int|
        0 <= u < adj.len() && 0 <= i < adj[u].len() ==> (#[trigger] adj[u][i]) < adj.len()
}

/// Both ends of every edge are below `n`.
pub open spec fn edges_in_range(n: usize, edges: Seq<(usize, usize)>) -> bool {
    forall|k: int| 0 <= k < edges.len() ==> (#[trigger] edges[k]).0 < n && edges[k].1 < n
}

/// The targets of the edges that leave `u`, in the order the edge list gives them.
pub open spec fn targets_of(edges: Seq<(usize, usize)>, u: usize) -> Seq<usize>
    decreases edges.len(),
{
    if edges.len() == 0 {
        Seq::empty()
    } else {
        let rest = targets_of(edges.drop_last(), u);
        if edges.last().0 == u {
            rest.push(edges.last().1)
        } else {
            rest
        }
    }
}

pub open spec fn is_sorted(s: Seq<usize>) -> bool {
    forall|i: int, j: int| 0 <= i <= j < s.len() ==> s[i] <= s[j]
}

/// `adj` is the graph on `n` nodes built from `edges`: each list holds the targets
/// of the edges leaving its node, duplicates kept, in ascending order.
pub open spec fn built_from(adj: Seq<Seq<usize>>, n: usize, edges: Seq<(usize, usize)>) -> bool {
    &&& adj.len() == n
    &&& forall|u: int|
        0 <= u < n ==> is_sorted(#[trigger] adj[u]) && adj[u].to_multiset() == targets_of(
            edges,
            u as usize,
        ).to_multiset()
}

impl View for Graph {
    type V = Seq<Seq<usize>>;

    open spec fn view(&self) -> Seq<Seq<usize>> {
        self.outedges@.map_values(|l: Vec<usize>| l@)
    }
}

/// Relies on slice::sort: the elements end up in ascending order, the same
/// elements as before.
#[verifier::external_body]
pub(crate) fn sort_ascending(v: &mut Vec<usize>)
    ensures
        final(v)@.to_multiset() == old(v)@.to_multiset(),
        is_sorted(final(v)@),
{
    v.sort();
}

/// Reverses every directed edge of an edge list.
pub fn reverse_edges(list: &Vec<(usize, usize)>) -> (r: Vec<(usize, usize)>)
    ensures
        r@.len() == list@.len(),
        forall|i: int| 0 <= i < list@.len() ==> #[trigger] r@[i] == (list@[i].1, list@[i].0),
{
    let mut new_list: Vec<(usize, usize)> = Vec::new();
    let mut i: usize = 0;
    while i < list.len()
        invariant
            i <= list@.len(),
            new_list@.len() == i,
            forall|k: int| 0 <= k < i ==> #[trigger] new_list@[k] == (list@[k].1, list@[k].0),
        decreases list@.len() - i,
    {
        let (u, v) = list[i];
        new_list.push((v, u));
        i = i + 1;
    }
    new_list
}

impl Graph {
    /// The adjacency has one list per node and names only nodes of the graph.
    pub open spec fn wf(&self) -> bool {
        &&& self.outedges@.len() == self.n
        &&& valid_adjacency(self@)
    }

    /// Appends the target of each edge to the list of its source, in edge order.
    pub fn add_directed_edges(&mut self, edges: &Vec<(usize, usize)>)
        requires
            old(self).wf(),
            edges_in_range(old(self).n, edges@),
        ensures
            final(self).wf(),
            final(self).n == old(self).n,
            forall|u: int|
                0 <= u < old(self).n ==> #[trigger] final(self)@[u] == old(self)@[u] + targets_of(
                    edges@,
                    u as usize,
                ),
    {
        let mut i: usize = 0;
        while i < edges.len()
            invariant
                i <= edges@.len(),
                self.wf(),
                self.n == old(self).n,
                edges_in_range(self.n, edges@),
                forall|u: int|
                    0 <= u < self.n ==> #[trigger] self@[u] == old(self)@[u] + targets_of(
                        edges@.subrange(0, i as int),
                        u as usize,
                    ),
            decreases edges@.len() - i,
        {
            let (u, v) = edges[i];
            assert(edges@[i as int].0 < self.n);
            let mut row = self.outedges[u].clone();
            assert(row@ == self@[u as int]);
            row.push(v);
            let ghost before = self@;
            self.outedges.set(u, row);
            proof {
                let pre = edges@.subrange(0, i as int);
                let post = edges@.subrange(0, i + 1);
                assert(post.drop_last() =~= pre);
                assert forall|w: int| 0 <= w < self.n implies #[trigger] self@[w] == old(self)@[w]
                    + targets_of(post, w as usize) by {
                    if w == u as int {
                        assert(self@[w] == before[w].push(v));
                        assert(old(self)@[w] + targets_of(post, w as usize) =~= (old(self)@[w]
                            + targets_of(pre, w as usize)).push(v));
                    } else {
                        assert(self@[w] == before[w]);
                    }
                }
                assert forall|a: int, b: int|
                    0 <= a < self@.len() && 0 <= b < self@[a].len() implies (
                    #[trigger] self@[a][b]) < self@.len() by {
                    if a == u as int && b == self@[a].len() - 1 {
                    } else {
                        assert(self@[a][b] == before[a][b]);
                    }
                }
            }
            i = i + 1;
        }
        assert(edges@.subrange(0, edges@.len() as int) =~= edges@);
    }

    /// Sorts every adjacency list in ascending order.
    pub fn sort_graph_lists(&mut self)
        requires
            old(self).wf(),
        ensures
            final(self).wf(),
            final(self).n == old(self).n,
            forall|u: int|
                0 <= u < old(self).n ==> is_sorted(#[trigger] final(self)@[u]) && final(self)@[u].to_multiset()
                    == old(self)@[u].to_multiset(),
    {
        let mut i: usize = 0;
        while i < self.outedges.len()
            invariant
                i <= self.n,
                self.wf(),
                self.n == old(self).n,
                forall|u: int|
                    0 <= u < i ==> is_sorted(#[trigger] self@[u]) && self@[u].to_multiset()
                        == old(self)@[u].to_multiset(),
                forall|u: int| i <= u < self.n ==> #[trigger] self@[u] == old(self)@[u],
            decreases self.n - i,
        {
            let mut row = self.outedges[i].clone();
            assert(row@ == self@[i as int]);
            sort_ascending(&mut row);
            let ghost before = self@;
            self.outedges.set(i, row);
            proof {
                assert forall|a: int, b: int|
                    0 <= a < self@.len() && 0 <= b < self@[a].len() implies (
                    #[trigger] self@[a][b]) < self@.len() by {
                    if a == i as int {
                        let x = self@[a][b];
                        assert(self@[a].contains(x));
                        assert(before[a].to_multiset().count(x) > 0);
                        assert(before[a].contains(x));
                    } else {
                        assert(self@[a][b] == before[a][b]);
                    }
                }
                assert forall|u: int| i + 1 <= u < self.n implies #[trigger] self@[u] == old(self)@[u] by {
                    assert(self@[u] == before[u]);
                }
                assert forall|u: int| 0 <= u < i + 1 implies is_sorted(#[trigger] self@[u]) && self@[u].to_multiset()
                        == old(self)@[u].to_multiset() by {
                    if u < i {
                        assert(self@[u] == before[u]);
                    }
                }
            }
            i = i + 1;
        }
    }

    /// The graph on `n` nodes whose edges are `edges`, each adjacency list sorted.
    pub fn create_directed(n: usize, edges: &Vec<(usize, usize)>) -> (g: Graph)
        requires
            edges_in_range(n, edges@),
        ensures
            g.wf(),
            g.n == n,
            built_from(g@, n, edges@),
    {
        let mut outedges: Vec<Vec<usize>> = Vec::new();
        let mut i: usize = 0;
        while i < n
            invariant
                i <= n,
                outedges@.len() == i,
                forall|u: int| 0 <= u < i ==> (#[trigger] outedges@[u])@.len() == 0,
            decreases n - i,
        {
            outedges.push(Vec::new());
            i = i + 1;
        }
        let mut g = Graph { n, outedges };
        assert(g.wf());
        g.add_directed_edges(edges);
        let ghost added = g@;
        g.sort_graph_lists();
        assert forall|u: int| 0 <= u < n implies is_sorted(#[trigger] g@[u]) && g@[u].to_multiset()
            == targets_of(edges@, u as usize).to_multiset() by {
            assert(added[u] =~= targets_of(edges@, u as usize));
        }
        g
    }
}

fn same_list(a: &Vec<usize>, b: &Vec<usize>) -> (r: bool)
    ensures
        r == (a@ == b@),
{
    if a.len() != b.len() {
        return false;
    }
    let mut i: usize = 0;
    while i < a.len()
        invariant
            a@.len() == b@.len(),
            i <= a@.len(),
            forall|k: int| 0 <= k < i ==> a@[k] == b@[k],
        decreases a@.len() - i,
    {
        if a[i] != b[i] {
            return false;
        }
        i = i + 1;
    }
    assert(a@ =~= b@);
    true
}

impl PartialEq for Graph {
    /// Two graphs are equal when they have the same nodes and the same adjacency lists.
    fn eq(&self, other: &Graph) -> (r: bool)
        ensures
            r == (self.n == other.n && self@ == other@),
    {
        if self.n != other.n || self.outedges.len() != other.outedges.len() {
            proof {
                if self@ == other@ {
                    assert(self@.len() == other@.len());
                }
            }
            return false;
        }
        let mut i: usize = 0;
        while i < self.outedges.len()
            invariant
                self.outedges@.len() == other.outedges@.len(),
                self.n == other.n,
                i <= self.outedges@.len(),
                forall|k: int| 0 <= k < i ==> self@[k] == other@[k],
            decreases self.outedges@.len() - i,
        {
            if !same_list(&self.outedges[i], &other.outedges[i]) {
                proof {
                    assert(self@[i as int] != other@[i as int]);
                }
                return false;
            }
            i = i + 1;
        }
        assert(self@ =~= other@);
        true
    }
}

impl vstd::std_specs::cmp::PartialEqSpecImpl for Graph {
    open spec fn obeys_eq_spec() -> bool {
        true
    }

    open spec fn eq_spec(&self, other: &Graph) -> bool {
        self.n == other.n && self@ == other@
    }
}

} // verus!
