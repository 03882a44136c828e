# wikiracer

A crawler that looks for the shortest chain of hyperlinks leading from one
web page to another. The crawl, the link extraction, the link graph and the
path searches are written in Verus and proved against their contracts; the
program around them (command line, HTTP requests, concurrent workers,
logging) is ordinary Rust.

Layout:

- `src/` — the verified library
  - `web_url.rs` — parsed URLs, with the calls into the `url` crate
  - `crawler/` — crawl settings, link extraction from a fetched page
    (`construct_url`, `links_on_page`, through `scraper`), and the shared
    crawl state with each step a worker takes on it
  - `name_index.rs`, `url_graph.rs` — an interning index of names and the
    link graph built on it
  - `graph_search.rs` — breadth-first and bidirectional search over an
    adjacency table, with the proofs that they find a path exactly when one
    exists and that breadth-first search finds a shortest one
  - `pathfinder.rs` — the same searches over URLs, and the printed form of a path
  - `link_graph.rs` — a graph keyed by BLAKE3 hashes of URLs, with parents
  - `config.rs` — the program's settings and their validation
- `app/` — the command-line program: argument parsing, fetching pages, the
  worker loop, output
- `tests/` — tests of the library
