//! Verified core of a link crawler that searches for a chain of hyperlinks
//! between two web pages.

pub mod config;
pub mod crawler;
pub mod graph_search;
pub mod link_graph;
pub mod name_index;
pub mod pathfinder;
pub mod url_graph;
pub mod web_url;
