use wikispeedia::bfs::bfs;
use wikispeedia::degree::{calculate_degree_distribution, top_degrees, top_nodes};
use wikispeedia::distance::{
    distance_distribution, median_of_sorted, pair_distances, summarize_distances, DistanceSummary,
};
use wikispeedia::graph::{reverse_edges, Graph};
use wikispeedia::links::load_graphs;

fn fixture_lines() -> Vec<Vec<u8>> {
    let text = "# links between entries\n\nAlpha\tBeta\nBeta\tGamma\nGamma\tAlpha\nDelta\tEpsilon\n\
                Epsilon\tZeta\nZeta\tDelta\nGamma\tDelta\nEta\tZeta\n";
    text.split('\n').map(|l| l.as_bytes().to_vec()).collect()
}

fn fixture_edges() -> Vec<(usize, usize)> {
    vec![(0, 1), (1, 2), (2, 0), (3, 4), (4, 5), (5, 3), (2, 3), (6, 5)]
}

fn fixture() -> (Graph, Graph) {
    let edges = fixture_edges();
    let graph = Graph::create_directed(7, &edges);
    let graph_reverse = Graph::create_directed(7, &reverse_edges(&edges));
    (graph, graph_reverse)
}

#[test]
fn test_reader() {
    let (edge_list, graph, graph_reverse) = load_graphs(&fixture_lines()).expect("Error loading file");
    assert!(edge_list.names.len() == 7);
    assert!(graph.n == 7);

    let correct_graph = Graph::create_directed(7, &vec![(0,1),(1,2),(2,0),(3,4),(4,5),(5,3),(2,3),(6,5)]);
    assert_eq!(graph, correct_graph);

    let correct_graph_reverse = Graph::create_directed(7, &vec![(1,0),(2,1),(0,2),(4,3),(5,4),(3,5),(3,2),(5,6)]);
    assert_eq!(graph_reverse, correct_graph_reverse);
}

#[test]
fn test_top_nodes_outedge() {
    let (graph, graph_reverse) = fixture();
    let result_out = top_degrees(&graph, 7);
    let result_in = top_degrees(&graph_reverse, 7);
    let correct_out: Vec<usize> = [2, 1, 1, 1, 1, 1, 1].to_vec();
    let correct_in: Vec<usize> = [2, 2, 1, 1, 1, 1, 0].to_vec();

    assert_eq!(correct_in, result_in);
    assert_eq!(correct_out, result_out);
}

#[test]
fn test_distance_distribution_and_plotting_distance_distribution() {
    let (graph, _graph_reverse) = fixture();
    let summary = distance_distribution(&graph).expect("no reachable pairs");
    let mean = summary.sum as f64 / summary.count as f64;
    let median = summary.median as f64;
    assert_eq!(summary.max, 5);
    assert_eq!(median, 2.0);
    assert!(mean - 2.333334 < 0.001);
}

#[test]
fn fixture_summary_exact() {
    let (graph, _) = fixture();
    let summary = distance_distribution(&graph).unwrap();
    assert_eq!(summary, DistanceSummary { count: 15, sum: 35, median: 2, max: 5 });
    let mean = summary.sum as f64 / summary.count as f64;
    assert!((mean - 2.333333).abs() < 0.001);
}

#[test]
fn fixture_pair_distances_in_order() {
    let (graph, _) = fixture();
    assert_eq!(pair_distances(&graph), vec![1, 2, 3, 4, 5, 1, 2, 3, 4, 1, 2, 3, 1, 2, 1]);
}

#[test]
fn create_directed_sorts_and_keeps_duplicates() {
    let g = Graph::create_directed(3, &vec![(0, 2), (0, 1), (0, 2), (2, 0)]);
    assert_eq!(g.n, 3);
    assert_eq!(g.outedges, vec![vec![1, 2, 2], vec![], vec![0]]);
}

#[test]
fn reverse_edges_swaps_each_pair() {
    assert_eq!(reverse_edges(&vec![(0, 1), (2, 3), (4, 4)]), vec![(1, 0), (3, 2), (4, 4)]);
    assert_eq!(reverse_edges(&vec![]), vec![]);
}

#[test]
fn add_and_sort_lists() {
    let mut g = Graph { n: 3, outedges: vec![vec![], vec![], vec![]] };
    g.add_directed_edges(&vec![(1, 2), (1, 0), (2, 2)]);
    assert_eq!(g.outedges, vec![vec![], vec![2, 0], vec![2]]);
    g.sort_graph_lists();
    assert_eq!(g.outedges, vec![vec![], vec![0, 2], vec![2]]);
}

#[test]
fn bfs_from_fixture_sources() {
    let (graph, _) = fixture();
    assert_eq!(bfs(&graph, 0), vec![Some(0), Some(1), Some(2), Some(3), Some(4), Some(5), None]);
    assert_eq!(bfs(&graph, 6), vec![None, None, None, Some(2), Some(3), Some(1), Some(0)]);
}

#[test]
fn bfs_source_is_zero_everywhere() {
    let (graph, graph_reverse) = fixture();
    for u in 0..7 {
        assert_eq!(bfs(&graph, u)[u], Some(0));
        assert_eq!(bfs(&graph_reverse, u)[u], Some(0));
    }
}

#[test]
fn bfs_takes_shortest_of_two_routes() {
    // 0 -> 1 -> 2 -> 3 and the shortcut 0 -> 3
    let g = Graph::create_directed(4, &vec![(0, 1), (1, 2), (2, 3), (0, 3)]);
    assert_eq!(bfs(&g, 0), vec![Some(0), Some(1), Some(2), Some(1)]);
    assert_eq!(bfs(&g, 3), vec![None, None, None, Some(0)]);
}

#[test]
fn reversal_duality_on_fixture() {
    let (graph, graph_reverse) = fixture();
    for u in 0..7 {
        let from_u_reversed = bfs(&graph_reverse, u);
        for v in 0..7 {
            assert_eq!(from_u_reversed[v], bfs(&graph, v)[u]);
        }
    }
}

#[test]
fn repeated_calls_agree() {
    let (graph, _) = fixture();
    assert_eq!(bfs(&graph, 2), bfs(&graph, 2));
    assert_eq!(calculate_degree_distribution(&graph), calculate_degree_distribution(&graph));
    assert_eq!(distance_distribution(&graph), distance_distribution(&graph));
}

#[test]
fn degree_histograms_of_fixture() {
    let (graph, graph_reverse) = fixture();
    let out = calculate_degree_distribution(&graph);
    let inn = calculate_degree_distribution(&graph_reverse);
    assert_eq!(out, vec![0, 6, 1]);
    assert_eq!(inn, vec![1, 4, 2]);
    assert_eq!(out.iter().sum::<usize>(), 7);
    assert_eq!(inn.iter().sum::<usize>(), 7);
}

#[test]
fn degree_histogram_of_empty_graph() {
    let g = Graph::create_directed(0, &vec![]);
    assert_eq!(calculate_degree_distribution(&g), Vec::<usize>::new());
}

#[test]
fn degree_histogram_counts_duplicate_edges() {
    let g = Graph::create_directed(3, &vec![(0, 1), (0, 1), (0, 1)]);
    assert_eq!(calculate_degree_distribution(&g), vec![2, 0, 0, 1]);
}

#[test]
fn top_nodes_break_ties_by_larger_id() {
    let (graph, graph_reverse) = fixture();
    assert_eq!(top_nodes(&graph, 7), vec![2, 6, 5, 4, 3, 1, 0]);
    assert_eq!(top_nodes(&graph_reverse, 3), vec![5, 3, 4]);
}

#[test]
fn top_nodes_more_than_there_are() {
    let (graph, _) = fixture();
    assert_eq!(top_degrees(&graph, 100).len(), 7);
    assert_eq!(top_degrees(&graph, 0), Vec::<usize>::new());
}

#[test]
fn median_takes_lower_middle_for_even_count() {
    assert_eq!(median_of_sorted(&vec![1, 2, 3, 4]), 2);
    assert_eq!(median_of_sorted(&vec![1, 2, 3, 4, 5]), 3);
    assert_eq!(median_of_sorted(&vec![7]), 7);
}

#[test]
fn summarize_sorts_before_taking_median() {
    let s = summarize_distances(&vec![4, 1, 3, 2]).unwrap();
    assert_eq!(s, DistanceSummary { count: 4, sum: 10, median: 2, max: 4 });
    let s = summarize_distances(&vec![9, 1, 5]).unwrap();
    assert_eq!(s.median, 5);
    assert_eq!(s.max, 9);
}

#[test]
fn summarize_empty_is_none() {
    assert_eq!(summarize_distances(&vec![]), None);
}

#[test]
fn no_reachable_pairs_gives_none() {
    let g = Graph::create_directed(3, &vec![(2, 1), (1, 0)]);
    assert_eq!(pair_distances(&g), Vec::<usize>::new());
    assert_eq!(distance_distribution(&g), None);
    let empty = Graph::create_directed(0, &vec![]);
    assert_eq!(distance_distribution(&empty), None);
}

#[test]
fn ring_distances_cover_every_pair() {
    let n: usize = 600;
    let edges: Vec<(usize, usize)> = (0..n).map(|i| (i, (i + 1) % n)).collect();
    let g = Graph::create_directed(n, &edges);
    let summary = distance_distribution(&g).unwrap();
    let expected_sum: u128 = (1..n).map(|d| (d * (n - d)) as u128).sum();
    assert_eq!(summary.count, n * (n - 1) / 2);
    assert_eq!(summary.sum, expected_sum);
    assert_eq!(summary.max, n - 1);
}
