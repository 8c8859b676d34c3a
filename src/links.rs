use vstd::prelude::*;

use crate::graph::{built_from, reverse_edges, Graph};

verus! {

pub const TAB: u8 = 9;

pub const HASH: u8 = 35;

/// An ASCII whitespace byte: space, tab, line feed, vertical tab, form feed or
/// carriage return.
pub open spec fn is_space(b: u8) -> bool {
    b == 32 || (9 <= b && b <= 13)
}

/// The index of the first byte at or after `i` that is not whitespace.
pub open spec fn lead(s: Seq<u8>, i: int) -> int
    decreases s.len() - i,
{
    if 0 <= i < s.len() && is_space(s[i]) {
        lead(s, i + 1)
    } else {
        i
    }
}

/// The end of `s[lo..j]` once trailing whitespace is dropped.
pub open spec fn trail(s: Seq<u8>, lo: int, j: int) -> int
    decreases j - lo,
{
    if lo < j && j <= s.len() && is_space(s[j - 1]) {
        trail(s, lo, j - 1)
    } else {
        j
    }
}

/// `s` without leading and trailing whitespace.
pub open spec fn trimmed(s: Seq<u8>) -> Seq<u8> {
    s.subrange(lead(s, 0), trail(s, lead(s, 0), s.len() as int))
}

/// The index of the first tab of `t` at or after `i`, or the length of `t`.
pub open spec fn tab_from(t: Seq<u8>, i: int) -> int
    decreases t.len() - i,
{
    if i >= t.len() {
        t.len() as int
    } else if t[i] == TAB {
        i
    } else {
        tab_from(t, i + 1)
    }
}

/// A line that holds a link: not empty once trimmed, and not a `#` comment.
pub open spec fn is_link_line(line: Seq<u8>) -> bool {
    trimmed(line).len() > 0 && trimmed(line)[0] != HASH
}

/// A link line whose trimmed text has no tab, so names no target.
pub open spec fn lacks_target(line: Seq<u8>) -> bool {
    is_link_line(line) && tab_from(trimmed(line), 0) == trimmed(line).len()
}

/// The source and target names of a link line: the trimmed text up to its first
/// tab, and from there up to the next tab or the end.
pub open spec fn link_of(line: Seq<u8>) -> (Seq<u8>, Seq<u8>) {
    let t = trimmed(line);
    let a = tab_from(t, 0);
    (t.subrange(0, a), t.subrange(a + 1, tab_from(t, a + 1)))
}

proof fn lemma_lead_bounds(s: Seq<u8>, i: int)
    requires
        0 <= i <= s.len(),
    ensures
        i <= lead(s, i) <= s.len(),
        forall|k: int| i <= k < lead(s, i) ==> is_space(#[trigger] s[k]),
        lead(s, i) < s.len() ==> !is_space(s[lead(s, i)]),
    decreases s.len() - i,
{
    if i < s.len() && is_space(s[i]) {
        lemma_lead_bounds(s, i + 1);
    }
}

proof fn lemma_trail_bounds(s: Seq<u8>, lo: int, j: int)
    requires
        0 <= lo <= j <= s.len(),
    ensures
        lo <= trail(s, lo, j) <= j,
    decreases j - lo,
{
    if lo < j && is_space(s[j - 1]) {
        lemma_trail_bounds(s, lo, j - 1);
    }
}

proof fn lemma_tab_bounds(t: Seq<u8>, i: int)
    requires
        0 <= i <= t.len(),
    ensures
        i <= tab_from(t, i) <= t.len(),
    decreases t.len() - i,
{
    if i < t.len() && t[i] != TAB {
        lemma_tab_bounds(t, i + 1);
    }
}

/// The bounds of `line` once leading and trailing whitespace is dropped.
fn trim_bounds(line: &Vec<u8>) -> (r: (usize, usize))
    ensures
        r.0 == lead(line@, 0),
        r.1 == trail(line@, r.0 as int, line@.len() as int),
        r.0 <= r.1 <= line@.len(),
{
    let mut a: usize = 0;
    while a < line.len() && (line[a] == 32 || (9 <= line[a] && line[a] <= 13))
        invariant
            a <= line@.len(),
            lead(line@, a as int) == lead(line@, 0),
        decreases line@.len() - a,
    {
        a = a + 1;
    }
    let mut b: usize = line.len();
    while a < b && (line[b - 1] == 32 || (9 <= line[b - 1] && line[b - 1] <= 13))
        invariant
            a <= b <= line@.len(),
            trail(line@, a as int, b as int) == trail(line@, a as int, line@.len() as int),
        decreases b - a,
    {
        b = b - 1;
    }
    (a, b)
}

/// The first tab in `line[i..end]`, or `end`.
fn find_tab(line: &Vec<u8>, i: usize, end: usize) -> (r: usize)
    requires
        i <= end <= line@.len(),
    ensures
        i <= r <= end,
        r - i == tab_from(line@.subrange(i as int, end as int), 0),
{
    let ghost t = line@.subrange(i as int, end as int);
    let mut k: usize = i;
    while k < end && line[k] != TAB
        invariant
            i <= k <= end,
            end <= line@.len(),
            t == line@.subrange(i as int, end as int),
            tab_from(t, (k - i) as int) == tab_from(t, 0),
        decreases end - k,
    {
        assert(t[(k - i) as int] == line@[k as int]);
        k = k + 1;
    }
    k
}

fn copy_range(line: &Vec<u8>, a: usize, b: usize) -> (r: Vec<u8>)
    requires
        a <= b <= line@.len(),
    ensures
        r@ == line@.subrange(a as int, b as int),
{
    let mut r: Vec<u8> = Vec::new();
    let mut k: usize = a;
    while k < b
        invariant
            a <= k <= b,
            b <= line@.len(),
            r@ == line@.subrange(a as int, k as int),
        decreases b - k,
    {
        r.push(line[k]);
        k = k + 1;
        assert(r@ =~= line@.subrange(a as int, k as int));
    }
    r
}

proof fn lemma_tab_shift(t: Seq<u8>, i: int, k: int)
    requires
        0 <= i <= t.len(),
        0 <= k <= t.len() - i,
    ensures
        tab_from(t, i + k) - i == tab_from(t.subrange(i, t.len() as int), k),
    decreases t.len() - i - k,
{
    if i + k < t.len() && t[i + k] != TAB {
        lemma_tab_shift(t, i, k + 1);
    }
}

/// What one line of an edge list holds.
pub enum LineKind {
    /// A blank line or a `#` comment.
    Skip,
    /// A link from the first name to the second.
    Link(Vec<u8>, Vec<u8>),
    /// A link line with no tab, so no target.
    NoTarget,
}

/// Reads one line: blank lines and `#` comments are skipped; a link line gives
/// its source and target names.
pub fn parse_line(line: &Vec<u8>) -> (r: LineKind)
    ensures
        match r {
            LineKind::Skip => !is_link_line(line@),
            LineKind::NoTarget => lacks_target(line@),
            LineKind::Link(from, to) => is_link_line(line@) && !lacks_target(line@) && (from@, to@)
                == link_of(line@),
        },
{
    let (a, b) = trim_bounds(line);
    let ghost t = trimmed(line@);
    assert(t == line@.subrange(a as int, b as int));
    if a == b || line[a] == HASH {
        return LineKind::Skip;
    }
    let tab = find_tab(line, a, b);
    if tab == b {
        return LineKind::NoTarget;
    }
    let next = find_tab(line, tab + 1, b);
    proof {
        let x = (tab - a) as int;
        lemma_tab_bounds(t, 0);
        lemma_tab_shift(t, x + 1, 0);
        assert(t.subrange(x + 1, t.len() as int) =~= line@.subrange(tab + 1, b as int));
    }
    let from = copy_range(line, a, tab);
    let to = copy_range(line, tab + 1, next);
    proof {
        let x = (tab - a) as int;
        assert(from@ =~= t.subrange(0, x));
        assert(to@ =~= t.subrange(x + 1, tab_from(t, x + 1)));
    }
    LineKind::Link(from, to)
}

/// The byte strings that a list of buffers holds.
pub open spec fn views(v: Seq<Vec<u8>>) -> Seq<Seq<u8>> {
    v.map_values(|b: Vec<u8>| b@)
}

/// The links of the link lines, in line order.
pub open spec fn links_of(lines: Seq<Seq<u8>>) -> Seq<(Seq<u8>, Seq<u8>)>
    decreases lines.len(),
{
    if lines.len() == 0 {
        Seq::empty()
    } else {
        let rest = links_of(lines.drop_last());
        if is_link_line(lines.last()) {
            rest.push(link_of(lines.last()))
        } else {
            rest
        }
    }
}

/// `names` with `x` appended unless it is there already.
pub open spec fn add_name(names: Seq<Seq<u8>>, x: Seq<u8>) -> Seq<Seq<u8>> {
    if names.contains(x) {
        names
    } else {
        names.push(x)
    }
}

/// The names that the links use, in order of first appearance, each link giving
/// its source before its target.
pub open spec fn names_of(links: Seq<(Seq<u8>, Seq<u8>)>) -> Seq<Seq<u8>>
    decreases links.len(),
{
    if links.len() == 0 {
        Seq::empty()
    } else {
        add_name(add_name(names_of(links.drop_last()), links.last().0), links.last().1)
    }
}

/// A node list and the edges between its nodes, by index.
pub struct EdgeList {
    pub names: Vec<Vec<u8>>,
    pub edges: Vec<(usize, usize)>,
}

/// `e` numbers the names of `links` in order of first appearance and holds one edge
/// per link, in link order.
pub open spec fn numbers_links(e: EdgeList, links: Seq<(Seq<u8>, Seq<u8>)>) -> bool {
    &&& views(e.names@) == names_of(links)
    &&& e.edges@.len() == links.len()
    &&& forall|k: int|
        0 <= k < links.len() ==> {
            let (u, v) = #[trigger] e.edges@[k];
            &&& u < e.names@.len() && v < e.names@.len()
            &&& e.names@[u as int]@ == links[k].0
            &&& e.names@[v as int]@ == links[k].1
        }
}

fn same_bytes(a: &Vec<u8>, b: &Vec<u8>) -> (r: bool)
    ensures
        r == (a@ == b@),
{
    if a.len() != b.len() {
        return false;
    }
    let mut i: usize = 0;
    while i < a.len()
        invariant
            a@.len() == b@.len(),
            i <= a@.len(),
            forall|k: int| 0 <= k < i ==> a@[k] == b@[k],
        decreases a@.len() - i,
    {
        if a[i] != b[i] {
            return false;
        }
        i = i + 1;
    }
    assert(a@ =~= b@);
    true
}

/// The index of `x` in `names`, which gets it appended where it is new.
fn intern(names: &mut Vec<Vec<u8>>, x: Vec<u8>) -> (r: usize)
    ensures
        views(final(names)@) == add_name(views(old(names)@), x@),
        r < final(names)@.len(),
        final(names)@[r as int]@ == x@,
        old(names)@.len() <= final(names)@.len(),
        forall|k: int| 0 <= k < old(names)@.len() ==> (#[trigger] final(names)@[k])@ == old(names)@[k]@,
{
    let mut i: usize = 0;
    while i < names.len()
        invariant
            i <= names@.len(),
            names@ == old(names)@,
            forall|k: int| 0 <= k < i ==> names@[k]@ != x@,
        decreases names@.len() - i,
    {
        if same_bytes(&names[i], &x) {
            assert(views(names@)[i as int] == x@);
            return i;
        }
        i = i + 1;
    }
    assert(!views(names@).contains(x@)) by {
        if views(names@).contains(x@) {
            let k = choose|k: int| 0 <= k < views(names@).len() && views(names@)[k] == x@;
            assert(names@[k]@ == x@);
        }
    }
    let ghost before = names@;
    names.push(x);
    assert(views(names@) =~= views(before).push(x@));
    names.len() - 1
}

/// Reads an edge list, one link per line as `source<TAB>target`, skipping blank
/// lines and `#` comments; names are numbered in order of first appearance.
/// Fails with the index of the first link line that has no target.
pub fn parse_edge_list(lines: &Vec<Vec<u8>>) -> (r: Result<EdgeList, usize>)
    ensures
        match r {
            Ok(e) => (forall|i: int| 0 <= i < lines@.len() ==> !lacks_target(#[trigger] lines@[i]@))
                && numbers_links(e, links_of(views(lines@))),
            Err(i) => i < lines@.len() && lacks_target(lines@[i as int]@) && forall|j: int|
                0 <= j < i ==> !lacks_target(#[trigger] lines@[j]@),
        },
{
    let ghost ls = views(lines@);
    let mut e = EdgeList { names: Vec::new(), edges: Vec::new() };
    assert(views(e.names@) =~= Seq::empty());
    assert(ls.subrange(0, 0) =~= Seq::empty());
    let mut i: usize = 0;
    while i < lines.len()
        invariant
            i <= lines@.len(),
            ls == views(lines@),
            forall|j: int| 0 <= j < i ==> !lacks_target(#[trigger] lines@[j]@),
            numbers_links(e, links_of(ls.subrange(0, i as int))),
        decreases lines@.len() - i,
    {
        let ghost pre = ls.subrange(0, i as int);
        let ghost post = ls.subrange(0, i + 1);
        assert(post.drop_last() =~= pre);
        assert(post.last() == lines@[i as int]@);
        match parse_line(&lines[i]) {
            LineKind::Skip => {
                assert(links_of(post) == links_of(pre));
            },
            LineKind::NoTarget => {
                return Err(i);
            },
            LineKind::Link(from, to) => {
                let ghost links = links_of(pre);
                let ghost old_names = e.names@;
                let ghost fv = from@;
                let ghost tv = to@;
                let u = intern(&mut e.names, from);
                let ghost mid_names = e.names@;
                let v = intern(&mut e.names, to);
                e.edges.push((u, v));
                proof {
                    let nl = links_of(post);
                    assert(nl == links.push((fv, tv)));
                    assert(nl.drop_last() =~= links);
                    assert(views(e.names@) == names_of(nl));
                    assert(e.names@[u as int]@ == fv);
                    assert forall|k: int| 0 <= k < nl.len() implies {
                        let (a, b) = #[trigger] e.edges@[k];
                        &&& a < e.names@.len() && b < e.names@.len()
                        &&& e.names@[a as int]@ == nl[k].0
                        &&& e.names@[b as int]@ == nl[k].1
                    } by {
                        if k < links.len() {
                            let (a, b) = e.edges@[k];
                            assert(a < old_names.len() && b < old_names.len());
                            assert(views(old_names)[a as int] == old_names[a as int]@);
                            assert(views(e.names@).len() == e.names@.len());
                            assert(e.names@[a as int]@ == mid_names[a as int]@);
                            assert(e.names@[b as int]@ == mid_names[b as int]@);
                        }
                    }
                }
            },
        }
        i = i + 1;
    }
    assert(ls.subrange(0, lines@.len() as int) =~= ls);
    Ok(e)
}

/// Every pair of an edge list turned around.
pub open spec fn reversed_pairs(edges: Seq<(usize, usize)>) -> Seq<(usize, usize)> {
    edges.map_values(|p: (usize, usize)| (p.1, p.0))
}

/// Reads an edge list and builds its graph, over the numbered names, and the graph
/// with every edge turned around. Fails as `parse_edge_list` does.
pub fn load_graphs(lines: &Vec<Vec<u8>>) -> (r: Result<(EdgeList, Graph, Graph), usize>)
    ensures
        match r {
            Ok((e, g, rg)) => {
                &&& forall|i: int| 0 <= i < lines@.len() ==> !lacks_target(#[trigger] lines@[i]@)
                &&& numbers_links(e, links_of(views(lines@)))
                &&& g.wf() && rg.wf()
                &&& g.n == e.names@.len() && rg.n == e.names@.len()
                &&& built_from(g@, g.n, e.edges@)
                &&& built_from(rg@, rg.n, reversed_pairs(e.edges@))
            },
            Err(i) => i < lines@.len() && lacks_target(lines@[i as int]@) && forall|j: int|
                0 <= j < i ==> !lacks_target(#[trigger] lines@[j]@),
        },
{
    match parse_edge_list(lines) {
        Err(i) => Err(i),
        Ok(e) => {
            let n = e.names.len();
            let reversed = reverse_edges(&e.edges);
            assert(reversed@ =~= reversed_pairs(e.edges@));
            let g = Graph::create_directed(n, &e.edges);
            let rg = Graph::create_directed(n, &reversed);
            Ok((e, g, rg))
        },
    }
}

} // verus!
