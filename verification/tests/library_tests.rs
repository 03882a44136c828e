use wikiracer::config::{Config, ConfigError, LogLevel};
use wikiracer::link_graph::LinkGraph;
use wikiracer::name_index::{fingerprint, NameIndex};
use wikiracer::url_graph::UrlGraph;
use wikiracer::web_url::{trim_trailing_slashes, UrlParseError, WebUrl};

fn config(max_urls: usize, max_depth: usize, thread_count: usize) -> Config {
    Config {
        start_url: "https://en.wikipedia.org/wiki/Matter".to_string(),
        target_url: "https://en.wikipedia.org/wiki/Chemistry".to_string(),
        max_urls,
        max_depth,
        thread_count,
        request_delay: 100,
        output_file: None,
        verbose: false,
        log_level: LogLevel::Info,
    }
}

#[test]
fn validate_accepts_positive_limits() {
    assert_eq!(config(10000, 5, 8).validate(), Ok(()));
}

#[test]
fn validate_names_the_first_zero_limit() {
    assert_eq!(config(0, 0, 0).validate(), Err(ConfigError::MaxUrlsZero));
    assert_eq!(config(1, 0, 0).validate(), Err(ConfigError::MaxDepthZero));
    assert_eq!(config(1, 1, 0).validate(), Err(ConfigError::ThreadCountZero));
    assert_eq!(ConfigError::MaxDepthZero.message(), "max_depth must be greater than 0");
}

#[test]
fn log_level_names() {
    assert_eq!(LogLevel::Trace.as_str(), "trace");
    assert_eq!(LogLevel::Debug.as_str(), "debug");
    assert_eq!(LogLevel::Info.as_str(), "info");
    assert_eq!(LogLevel::Warn.as_str(), "warn");
    assert_eq!(LogLevel::Error.as_str(), "error");
}

#[test]
fn trailing_slashes_are_trimmed() {
    assert_eq!(trim_trailing_slashes("/a/b//"), "/a/b");
    assert_eq!(trim_trailing_slashes("/"), "");
    assert_eq!(trim_trailing_slashes("/a/b"), "/a/b");
    assert_eq!(trim_trailing_slashes(""), "");
}

#[test]
fn url_parts_and_errors() {
    let u = WebUrl::parse("https://Example.com/a/b?x=1#frag").unwrap();
    assert_eq!(u.as_str(), "https://example.com/a/b?x=1#frag");
    assert_eq!(u.host_str(), Some("example.com"));
    assert_eq!(u.path(), "/a/b");
    assert_eq!(WebUrl::parse("no scheme").unwrap_err(), UrlParseError::RelativeUrlWithoutBase);
    assert_eq!(WebUrl::parse("http://").unwrap_err(), UrlParseError::EmptyHost);
    let data = WebUrl::parse("data:text/plain,Stuff").unwrap();
    assert_eq!(data.host_str(), None);
    assert!(!data.same_host(&data));
    assert!(u.same_host(&WebUrl::parse("http://example.com/other").unwrap()));
}

#[test]
fn name_index_finds_what_was_added() {
    let mut index = NameIndex::new();
    assert_eq!(index.insert("alpha".to_string()), 0);
    assert_eq!(index.insert("beta".to_string()), 1);
    assert_eq!(index.insert("alpha".to_string()), 0);
    assert_eq!(index.len(), 2);
    assert_eq!(index.lookup(&"beta".to_string()), Some(1));
    assert_eq!(index.lookup(&"gamma".to_string()), None);
    assert_eq!(index.name(1), "beta");
    let copy = index.duplicate();
    assert_eq!(copy.lookup(&"alpha".to_string()), Some(0));
}

#[test]
fn fingerprint_values() {
    assert_eq!(fingerprint(""), 0);
    assert_eq!(fingerprint("a"), 97);
    assert_eq!(fingerprint("ab"), 97 * 257 + 98);
}

#[test]
fn graph_entries_and_links() {
    let a = WebUrl::parse("https://example.com/a").unwrap();
    let b = WebUrl::parse("https://example.com/b").unwrap();
    let mut graph = UrlGraph::new();
    assert!(!graph.contains_key(&a));
    graph.add_edge(&a, &b);
    assert!(graph.contains_key(&a));
    assert!(!graph.contains_key(&b));
    assert_eq!(graph.get(&a), Some(vec![b.clone()]));
    assert_eq!(graph.get(&b), None);
    graph.insert(&a, &vec![]);
    assert_eq!(graph.get(&a), Some(vec![]));
    assert_eq!(graph.node_count(), 2);
}

#[test]
fn link_graph_records_both_directions() {
    let mut graph = LinkGraph::new();
    graph.add_link("https://example.com/a");
    graph.add_link("https://example.com/a");
    graph.add_parent("https://example.com/b", "https://example.com/a");
    assert_eq!(graph.page_count(), 2);
    let a = graph.page("https://example.com/a").unwrap();
    let b = graph.page("https://example.com/b").unwrap();
    assert_eq!(a.0, "https://example.com/a");
    assert_eq!(a.1, vec![graph.page_id("https://example.com/b")]);
    assert!(a.2.is_empty());
    assert_eq!(b.2, vec![graph.page_id("https://example.com/a")]);
    assert_eq!(graph.page_id("https://example.com/a").len(), 64);
}

#[test]
fn graph_keeps_the_first_url_met_for_a_page() {
    let a = WebUrl::parse("https://example.com/a").unwrap();
    let b = WebUrl::parse("https://example.com/b").unwrap();
    let mut graph = UrlGraph::new();
    graph.insert(&a, &vec![b.clone()]);
    graph.add_edge(&b, &a);
    let links = graph.get(&a).unwrap();
    assert_eq!(links.len(), 1);
    assert_eq!(links[0].host_str(), Some("example.com"));
    assert_eq!(links[0].path(), "/b");
}

#[test]
fn adding_a_link_twice_adds_one_page() {
    let mut graph = LinkGraph::new();
    graph.add_link("https://example.com/a");
    graph.add_link("https://example.com/a");
    assert_eq!(graph.page_count(), 1);
}
