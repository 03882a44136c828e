//! The crawler: its configuration, link extraction, and the bookkeeping
//! that its workers share.

pub mod config;
pub mod scrape;
pub mod state;

pub use config::{CrawlerConfig, LINK_REQUEST_TIMEOUT_SEC};
pub use scrape::{construct_url, links_on_page};
pub use state::{CrawlerState, CrawlStep, build_graph_from_state};
