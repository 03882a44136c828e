use wikiracer::pathfinder::{find_shortest_path_bfs, find_shortest_path_bidirectional_bfs, path_lines, decimal};
use wikiracer::graph_search::bidirectional_search;
use wikiracer::url_graph::UrlGraph;
use wikiracer::web_url::WebUrl;

fn url(path: &str) -> WebUrl {
    WebUrl::parse(&format!("https://example.com{}", path)).unwrap()
}

fn setup_graph() -> UrlGraph {
    let a = url("/a");
    let b = url("/b");
    let c = url("/c");
    let d = url("/d");
    let e = url("/e");
    let mut graph = UrlGraph::new();
    graph.insert(&a, &vec![b.clone(), c.clone()]);
    graph.insert(&b, &vec![d.clone()]);
    graph.insert(&c, &vec![d.clone()]);
    graph.insert(&d, &vec![e.clone()]);
    graph.insert(&e, &vec![]);
    graph
}

fn make_graph(edges: &[(&str, &str)]) -> UrlGraph {
    let mut graph = UrlGraph::new();
    for (from, to) in edges {
        graph.add_edge(&url(from), &url(to));
    }
    graph
}

#[test]
fn test_path_exists() {
    let graph = setup_graph();
    let start = url("/a");
    let target = url("/e");
    let path = find_shortest_path_bfs(&start, &target, &graph).unwrap();
    assert_eq!(path.first().unwrap(), &start);
    assert_eq!(path.last().unwrap(), &target);
    assert!(path.len() >= 2);
}

#[test]
fn test_start_equals_target() {
    let graph = setup_graph();
    let start = url("/a");
    let path = find_shortest_path_bfs(&start, &start, &graph).unwrap();
    assert_eq!(path.len(), 1);
    assert_eq!(path[0], start);
}

#[test]
fn test_no_path() {
    let mut graph = setup_graph();
    graph.insert(&url("/a"), &vec![]);
    let result = find_shortest_path_bfs(&url("/a"), &url("/e"), &graph);
    assert!(result.is_none());
}

#[test]
fn test_missing_start() {
    let graph = setup_graph();
    let unknown = url("/missing");
    let result = find_shortest_path_bfs(&unknown, &url("/e"), &graph);
    assert!(result.is_none());
}

#[test]
fn test_cycle() {
    let a = url("/a");
    let b = url("/b");
    let mut graph = UrlGraph::new();
    graph.insert(&a, &vec![b.clone()]);
    graph.insert(&b, &vec![a.clone()]);
    let path = find_shortest_path_bfs(&a, &b, &graph).unwrap();
    assert_eq!(path, vec![a, b]);
}

#[test]
fn test_direct_path() {
    let graph = make_graph(&[("https://a", "https://b")]);
    let path = find_shortest_path_bidirectional_bfs(&url("https://a"), &url("https://b"), &graph);
    assert_eq!(path, Some(vec![url("https://a"), url("https://b")]));
}

#[test]
fn test_indirect_path() {
    let graph = make_graph(&[("https://a", "https://b"), ("https://b", "https://c")]);
    let path = find_shortest_path_bidirectional_bfs(&url("https://a"), &url("https://c"), &graph);
    assert_eq!(path, Some(vec![url("https://a"), url("https://b"), url("https://c")]));
}

#[test]
fn test_bidirectional_no_path() {
    let graph = make_graph(&[("https://a", "https://b"), ("https://c", "https://d")]);
    let path = find_shortest_path_bidirectional_bfs(&url("https://a"), &url("https://d"), &graph);
    assert_eq!(path, None);
}

#[test]
fn test_bidirectional_same_start_and_target() {
    let graph = make_graph(&[("https://a", "https://b")]);
    let path = find_shortest_path_bidirectional_bfs(&url("https://a"), &url("https://a"), &graph);
    assert_eq!(path, Some(vec![url("https://a")]));
}

#[test]
fn test_bidirectional_directionality() {
    let graph = make_graph(&[("https://b", "https://a")]);
    let path = find_shortest_path_bidirectional_bfs(&url("https://a"), &url("https://b"), &graph);
    assert_eq!(path, None);
}

#[test]
fn bfs_prefers_the_shorter_of_two_routes() {
    // a -> b -> c -> e and a -> d -> e: the shortest route has two links.
    let mut graph = UrlGraph::new();
    graph.insert(&url("/a"), &vec![url("/b"), url("/d")]);
    graph.insert(&url("/b"), &vec![url("/c")]);
    graph.insert(&url("/c"), &vec![url("/e")]);
    graph.insert(&url("/d"), &vec![url("/e")]);
    let path = find_shortest_path_bfs(&url("/a"), &url("/e"), &graph).unwrap();
    assert_eq!(path, vec![url("/a"), url("/d"), url("/e")]);
}

#[test]
fn bfs_reaches_a_target_without_entry() {
    let graph = make_graph(&[("/a", "/b"), ("/b", "/c")]);
    let path = find_shortest_path_bfs(&url("/a"), &url("/c"), &graph).unwrap();
    assert_eq!(path, vec![url("/a"), url("/b"), url("/c")]);
}

#[test]
fn both_searches_agree_on_a_longer_chain() {
    let graph = make_graph(&[("/1", "/2"), ("/2", "/3"), ("/3", "/4"), ("/4", "/5"), ("/2", "/1"), ("/5", "/9")]);
    let bfs = find_shortest_path_bfs(&url("/1"), &url("/9"), &graph).unwrap();
    let bidi = find_shortest_path_bidirectional_bfs(&url("/1"), &url("/9"), &graph).unwrap();
    assert_eq!(bfs.len(), 6);
    assert!(bfs.len() <= bidi.len());
    assert_eq!(bidi.first().unwrap(), &url("/1"));
    assert_eq!(bidi.last().unwrap(), &url("/9"));
    assert!(find_shortest_path_bfs(&url("/9"), &url("/1"), &graph).is_none());
    assert!(find_shortest_path_bidirectional_bfs(&url("/9"), &url("/1"), &graph).is_none());
}

#[test]
fn path_lines_show_each_step() {
    let path = vec![url("/a"), url("/b"), url("/c")];
    let lines = path_lines(&path);
    assert_eq!(lines, vec![
        "Shortest path (2 steps):".to_string(),
        "  START: https://example.com/a".to_string(),
        "  1:     https://example.com/b".to_string(),
        "  END:   https://example.com/c".to_string(),
    ]);
    let single = path_lines(&vec![url("/a")]);
    assert_eq!(single, vec!["Shortest path (0 steps):".to_string(), "  START: https://example.com/a".to_string()]);
}

#[test]
fn decimal_numerals() {
    assert_eq!(decimal(0), "0");
    assert_eq!(decimal(7), "7");
    assert_eq!(decimal(10), "10");
    assert_eq!(decimal(1234567), "1234567");
}

#[test]
fn bidirectional_search_returns_the_path_through_the_first_meeting() {
    let adj: Vec<Vec<usize>> = vec![vec![1, 2], vec![3], vec![3], vec![]];
    // The forward search marks 1 and 2 from 0; the backward search from 3
    // first looks at 1, which the forward search has seen.
    assert_eq!(bidirectional_search(&adj, 0, 3), Some(vec![0, 1, 3]));
}

#[test]
fn bidirectional_search_meets_in_the_middle_of_a_chain() {
    let adj: Vec<Vec<usize>> = vec![vec![1], vec![2], vec![3], vec![4], vec![]];
    assert_eq!(bidirectional_search(&adj, 0, 4), Some(vec![0, 1, 2, 3, 4]));
    assert_eq!(bidirectional_search(&adj, 4, 0), None);
}
