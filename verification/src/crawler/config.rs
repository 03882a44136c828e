//! The crawler's settings.

use crate::web_url::WebUrl;
use vstd::prelude::*;

verus! {

/// Default timeout for link requests, in seconds.
pub const LINK_REQUEST_TIMEOUT_SEC: u64 = 2;

/// The settings of a crawl.
pub struct CrawlerConfig {
    /// The page the crawl starts from.
    pub starting_url: WebUrl,
    /// Whether links to other hosts than the page's own are followed.
    pub scraping_foreign_hosts: bool,
    /// The number of pages to fetch before stopping.
    pub max_urls: usize,
    /// The depth at which pages are no longer fetched: 1 fetches only the
    /// starting page, 2 also the pages it links to, and so on.
    pub max_depth: usize,
    /// The number of workers that fetch pages concurrently.
    pub thread_count: usize,
    /// The pause after each fetched page, in milliseconds.
    pub request_delay_ms: u64,
    /// The number of retries for a failed request.
    pub max_retries: usize,
    /// The timeout of each request, in seconds.
    pub request_timeout_sec: u64,
    /// The page being looked for; once a fetched page links to it, the crawl stops.
    pub target_url: Option<WebUrl>,
}

impl CrawlerConfig {
    /// The default settings for a crawl from `starting_url`.
    pub fn new(starting_url: WebUrl) -> (r: CrawlerConfig)
        ensures
            r.starting_url == starting_url,
            !r.scraping_foreign_hosts,
            r.max_urls == 10,
            r.max_depth == 3,
            r.thread_count == 2,
            r.request_delay_ms == 100,
            r.max_retries == 3,
            r.request_timeout_sec == LINK_REQUEST_TIMEOUT_SEC,
            r.target_url is None,
    {
        CrawlerConfig {
            starting_url,
            scraping_foreign_hosts: false,
            max_urls: 10,
            max_depth: 3,
            thread_count: 2,
            request_delay_ms: 100,
            max_retries: 3,
            request_timeout_sec: LINK_REQUEST_TIMEOUT_SEC,
            target_url: None,
        }
    }

    /// These settings with `max_urls` replaced.
    pub fn with_max_urls(self, max_urls: usize) -> (r: CrawlerConfig)
        ensures
            r == (CrawlerConfig { max_urls, ..self }),
    {
        let mut c = self;
        c.max_urls = max_urls;
        c
    }

    /// These settings with `max_depth` replaced.
    pub fn with_max_depth(self, max_depth: usize) -> (r: CrawlerConfig)
        ensures
            r == (CrawlerConfig { max_depth, ..self }),
    {
        let mut c = self;
        c.max_depth = max_depth;
        c
    }

    /// These settings with `thread_count` replaced.
    pub fn with_thread_count(self, thread_count: usize) -> (r: CrawlerConfig)
        ensures
            r == (CrawlerConfig { thread_count, ..self }),
    {
        let mut c = self;
        c.thread_count = thread_count;
        c
    }

    /// These settings with `scraping_foreign_hosts` replaced.
    pub fn with_foreign_hosts(self, allow: bool) -> (r: CrawlerConfig)
        ensures
            r == (CrawlerConfig { scraping_foreign_hosts: allow, ..self }),
    {
        let mut c = self;
        c.scraping_foreign_hosts = allow;
        c
    }

    /// These settings with `request_delay_ms` replaced.
    pub fn with_request_delay(self, delay_ms: u64) -> (r: CrawlerConfig)
        ensures
            r == (CrawlerConfig { request_delay_ms: delay_ms, ..self }),
    {
        let mut c = self;
        c.request_delay_ms = delay_ms;
        c
    }

    /// These settings with the target page set to `url`.
    pub fn with_target_url(self, url: WebUrl) -> (r: CrawlerConfig)
        ensures
            r == (CrawlerConfig { target_url: Some(url), ..self }),
    {
        let mut c = self;
        c.target_url = Some(url);
        c
    }
}

} // verus!
