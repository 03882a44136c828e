use wikiracer::crawler::{CrawlStep, CrawlerConfig, CrawlerState, build_graph_from_state, links_on_page, LINK_REQUEST_TIMEOUT_SEC};
use wikiracer::crawler::scrape::ScrapeError;
use wikiracer::web_url::WebUrl;

fn url(s: &str) -> WebUrl {
    WebUrl::parse(s).unwrap()
}

#[test]
fn config_defaults_and_builders() {
    let start = url("https://en.wikipedia.org/wiki/Matter");
    let config = CrawlerConfig::new(start.clone());
    assert_eq!(config.starting_url, start);
    assert!(!config.scraping_foreign_hosts);
    assert_eq!(config.max_urls, 10);
    assert_eq!(config.max_depth, 3);
    assert_eq!(config.thread_count, 2);
    assert_eq!(config.request_delay_ms, 100);
    assert_eq!(config.max_retries, 3);
    assert_eq!(config.request_timeout_sec, LINK_REQUEST_TIMEOUT_SEC);
    assert!(config.target_url.is_none());
    let target = url("https://en.wikipedia.org/wiki/Chemistry");
    let config = config
        .with_max_urls(300)
        .with_max_depth(2)
        .with_thread_count(4)
        .with_request_delay(0)
        .with_foreign_hosts(true)
        .with_target_url(target.clone());
    assert_eq!(config.max_urls, 300);
    assert_eq!(config.max_depth, 2);
    assert_eq!(config.thread_count, 4);
    assert_eq!(config.request_delay_ms, 0);
    assert!(config.scraping_foreign_hosts);
    assert_eq!(config.target_url, Some(target));
}

#[test]
fn scrape_keeps_links_of_the_same_host() {
    let page = url("http://127.0.0.1:4321/with-links");
    let config = CrawlerConfig::new(page.clone());
    let html = r#"
        <html>
            <body>
                <a href="/link1">Link 1</a>
                <a href="https://example.com/link2">Link 2</a>
                <a href="../link3">Link 3</a>
                <a href="/link1#again">Link 1 again</a>
                <a name="no-href">No link</a>
            </body>
        </html>
    "#;
    let mut found: Vec<String> = links_on_page(&page, 200, html, &config)
        .unwrap()
        .iter()
        .map(|u| u.as_str().to_string())
        .collect();
    found.sort();
    assert_eq!(found, vec!["http://127.0.0.1:4321/link1".to_string(), "http://127.0.0.1:4321/link3".to_string()]);
}

#[test]
fn scrape_follows_foreign_hosts_when_allowed() {
    let page = url("http://127.0.0.1:4321/page");
    let config = CrawlerConfig::new(page.clone()).with_foreign_hosts(true);
    let html = r#"<a href="https://google.com">Foreign</a><a href="/local">Local</a>"#;
    let mut found: Vec<String> = links_on_page(&page, 200, html, &config)
        .unwrap()
        .iter()
        .map(|u| u.as_str().to_string())
        .collect();
    found.sort();
    assert_eq!(found, vec!["http://127.0.0.1:4321/local".to_string(), "https://google.com/".to_string()]);
}

#[test]
fn scrape_empty_page_has_no_links() {
    let page = url("http://127.0.0.1:4321/empty");
    let config = CrawlerConfig::new(page.clone());
    assert!(links_on_page(&page, 200, "", &config).unwrap().is_empty());
}

#[test]
fn scrape_refuses_error_status() {
    let page = url("http://127.0.0.1:4321/not-found");
    let config = CrawlerConfig::new(page.clone());
    assert_eq!(links_on_page(&page, 404, "<a href=\"/x\">x</a>", &config).unwrap_err(), ScrapeError::HttpStatus(404));
    assert_eq!(links_on_page(&page, 301, "", &config).unwrap_err(), ScrapeError::HttpStatus(301));
    assert!(links_on_page(&page, 299, "", &config).is_ok());
}

#[test]
fn crawl_steps_respect_max_depth() {
    let root = url("http://127.0.0.1:4321/root");
    let child = url("http://127.0.0.1:4321/child1");
    let config = CrawlerConfig::new(root.clone()).with_max_depth(1).with_max_urls(10).with_thread_count(1).with_request_delay(0);
    let mut state = CrawlerState::new(root.clone());
    let step = state.claim_next(&config);
    let (page, depth) = match step {
        CrawlStep::Crawl(page, depth) => (page, depth),
        other => panic!("unexpected step {:?}", other),
    };
    assert_eq!(page, root);
    assert_eq!(depth, 0);
    assert_eq!(state.active_workers(), 1);
    let found = vec![child.clone()];
    assert!(state.check_record(&page, depth, &found, &config));
    state.record_page(&page, depth, &found, &config);
    assert_eq!(state.links_crawled_count(), 1);
    assert!(matches!(state.claim_next(&config), CrawlStep::TooDeep));
    assert!(state.has_visited(&root));
    assert!(!state.has_visited(&child));
    let graph = build_graph_from_state(&state);
    let children = graph.get(&root).unwrap();
    assert_eq!(children, vec![child]);
    assert!(matches!(state.claim_next(&config), CrawlStep::QueueEmpty));
    assert!(state.is_idle());
}

#[test]
fn crawl_steps_skip_visited_and_stop_at_max_urls() {
    let root = url("http://127.0.0.1:4321/root");
    let a = url("http://127.0.0.1:4321/a");
    let config = CrawlerConfig::new(root.clone()).with_max_urls(1).with_max_depth(5);
    let mut state = CrawlerState::new(root.clone());
    let (page, depth) = match state.claim_next(&config) {
        CrawlStep::Crawl(page, depth) => (page, depth),
        other => panic!("unexpected step {:?}", other),
    };
    let found = vec![root.clone(), a.clone()];
    state.record_page(&page, depth, &found, &config);
    assert!(matches!(state.claim_next(&config), CrawlStep::AlreadyVisited));
    assert!(matches!(state.claim_next(&config), CrawlStep::MaxUrlsReached));
    assert!(state.has_visited(&a));
    assert_eq!(state.links_crawled_count(), 1);
}

#[test]
fn crawl_steps_stop_once_the_target_is_linked() {
    let root = url("http://127.0.0.1:4321/root");
    let target = url("http://127.0.0.1:4321/target");
    let config = CrawlerConfig::new(root.clone()).with_target_url(target.clone());
    let mut state = CrawlerState::new(root.clone());
    let (page, depth) = match state.claim_next(&config) {
        CrawlStep::Crawl(page, depth) => (page, depth),
        other => panic!("unexpected step {:?}", other),
    };
    state.record_page(&page, depth, &vec![target.clone()], &config);
    assert!(state.target_found());
    assert!(matches!(state.claim_next(&config), CrawlStep::TargetFound));
}

#[test]
fn failed_fetch_records_no_links() {
    let root = url("http://127.0.0.1:4321/404");
    let config = CrawlerConfig::new(root.clone());
    let mut state = CrawlerState::new(root.clone());
    assert!(matches!(state.claim_next(&config), CrawlStep::Crawl(_, _)));
    state.record_failure();
    assert!(state.has_visited(&root));
    let graph = build_graph_from_state(&state);
    assert!(graph.get(&root).is_none());
    assert!(state.is_idle());
}

#[test]
fn pages_being_fetched_count_toward_max_urls() {
    let root = url("http://127.0.0.1:4321/root");
    let links: Vec<WebUrl> = (0..20).map(|i| url(&format!("http://127.0.0.1:4321/link{}", i))).collect();
    let config = CrawlerConfig::new(root.clone()).with_max_urls(5).with_max_depth(2).with_thread_count(2).with_request_delay(0);
    let mut state = CrawlerState::new(root.clone());
    let (page, depth) = match state.claim_next(&config) {
        CrawlStep::Crawl(page, depth) => (page, depth),
        other => panic!("unexpected step {:?}", other),
    };
    state.record_page(&page, depth, &links, &config);
    // Two workers take pages in turn and record them afterwards.
    let mut stopped = 0;
    while stopped < 2 {
        let first = state.claim_next(&config);
        let second = state.claim_next(&config);
        for step in [first, second] {
            match step {
                CrawlStep::Crawl(page, depth) => state.record_page(&page, depth, &Vec::new(), &config),
                CrawlStep::MaxUrlsReached => stopped += 1,
                other => panic!("unexpected step {:?}", other),
            }
        }
        assert!(state.links_crawled_count() <= 5);
    }
    assert_eq!(state.links_crawled_count(), 5);
}

#[test]
fn a_claim_is_refused_while_the_last_allowed_page_is_fetched() {
    let root = url("http://127.0.0.1:4321/root");
    let a = url("http://127.0.0.1:4321/a");
    let b = url("http://127.0.0.1:4321/b");
    let config = CrawlerConfig::new(root.clone()).with_max_urls(2).with_max_depth(5);
    let mut state = CrawlerState::new(root.clone());
    let (page, depth) = match state.claim_next(&config) {
        CrawlStep::Crawl(page, depth) => (page, depth),
        other => panic!("unexpected step {:?}", other),
    };
    state.record_page(&page, depth, &vec![a.clone(), b.clone()], &config);
    let (pa, da) = match state.claim_next(&config) {
        CrawlStep::Crawl(page, depth) => (page, depth),
        other => panic!("unexpected step {:?}", other),
    };
    assert_eq!(state.active_workers(), 1);
    assert!(matches!(state.claim_next(&config), CrawlStep::MaxUrlsReached));
    state.record_page(&pa, da, &Vec::new(), &config);
    assert_eq!(state.links_crawled_count(), 2);
    assert!(state.has_visited(&b));
}

#[test]
fn scraped_links_carry_the_host_and_path_of_the_page() {
    let page = url("https://en.wikipedia.org/wiki/Matter");
    let config = CrawlerConfig::new(page.clone());
    let html = r#"<a href="https://google.com/x">G</a><a href="/wiki/Atom/">A</a>"#;
    let found = links_on_page(&page, 200, html, &config).unwrap();
    assert_eq!(found.len(), 1);
    assert_eq!(found[0].host_str(), Some("en.wikipedia.org"));
    assert_eq!(found[0].path(), "/wiki/Atom");
    assert!(found.iter().all(|u| u.host_str() != Some("google.com")));
}

#[test]
fn construct_url_passes_on_the_join_error() {
    let root = url("mailto:x");
    assert_eq!(
        wikiracer::crawler::construct_url("a", &root),
        Err(wikiracer::web_url::UrlParseError::RelativeUrlWithCannotBeABaseBase)
    );
}

#[test]
fn a_page_with_an_entry_cannot_be_recorded_again() {
    let root = url("http://127.0.0.1:4321/root");
    let config = CrawlerConfig::new(root.clone());
    let mut state = CrawlerState::new(root.clone());
    let (page, depth) = match state.claim_next(&config) {
        CrawlStep::Crawl(page, depth) => (page, depth),
        other => panic!("unexpected step {:?}", other),
    };
    let found = vec![root.clone()];
    assert!(state.check_record(&page, depth, &found, &config));
    state.record_page(&page, depth, &found, &config);
    assert!(!state.check_record(&page, depth, &found, &config));
    assert_eq!(state.links_crawled_count(), 1);
    assert_eq!(build_graph_from_state(&state).get(&root).map(|l| l.len()), Some(1));
}
