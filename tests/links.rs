use wikispeedia::graph::Graph;
use wikispeedia::links::{load_graphs, parse_edge_list, parse_line, LineKind};

fn lines(text: &str) -> Vec<Vec<u8>> {
    text.split('\n').map(|l| l.as_bytes().to_vec()).collect()
}

fn names(list: &[Vec<u8>]) -> Vec<String> {
    list.iter().map(|n| String::from_utf8(n.clone()).unwrap()).collect()
}

#[test]
fn comments_and_blank_lines_are_skipped() {
    assert!(matches!(parse_line(&b"# a comment".to_vec()), LineKind::Skip));
    assert!(matches!(parse_line(&b"   # indented comment".to_vec()), LineKind::Skip));
    assert!(matches!(parse_line(&b"".to_vec()), LineKind::Skip));
    assert!(matches!(parse_line(&b" \t \r".to_vec()), LineKind::Skip));
}

#[test]
fn link_line_is_trimmed_and_split_at_tabs() {
    match parse_line(&b"  From_page\tTo_page\textra\r".to_vec()) {
        LineKind::Link(from, to) => {
            assert_eq!(from, b"From_page".to_vec());
            assert_eq!(to, b"To_page".to_vec());
        }
        _ => panic!("expected a link"),
    }
}

#[test]
fn line_without_tab_has_no_target() {
    assert!(matches!(parse_line(&b"Lonely_page".to_vec()), LineKind::NoTarget));
    // a trailing tab is trimmed away with the rest of the whitespace
    assert!(matches!(parse_line(&b"Lonely_page\t".to_vec()), LineKind::NoTarget));
}

#[test]
fn names_numbered_in_order_of_first_appearance() {
    let e = parse_edge_list(&lines("b\ta\na\tc\nc\tb\nb\ta\n")).unwrap();
    assert_eq!(names(&e.names), vec!["b", "a", "c"]);
    assert_eq!(e.edges, vec![(0, 1), (1, 2), (2, 0), (0, 1)]);
}

#[test]
fn first_line_without_target_is_reported() {
    assert_eq!(parse_edge_list(&lines("# header\na\tb\nc\nd\n")).err(), Some(2));
}

#[test]
fn empty_input_gives_empty_graphs() {
    let (e, g, rg) = load_graphs(&lines("")).unwrap();
    assert!(e.names.is_empty());
    assert_eq!(g.n, 0);
    assert_eq!(rg.n, 0);
}

#[test]
fn load_graphs_builds_graph_and_reverse() {
    let (e, g, rg) = load_graphs(&lines("x\ty\nx\tz\nz\ty\n")).unwrap();
    assert_eq!(names(&e.names), vec!["x", "y", "z"]);
    assert_eq!(g, Graph::create_directed(3, &vec![(0, 1), (0, 2), (2, 1)]));
    assert_eq!(rg.outedges, vec![vec![], vec![0, 2], vec![0]]);
}
