//! The state that the crawler's workers share, and the decisions each
//! worker takes on it: which page to fetch next, and what to record once a
//! page has been fetched.
//!
//! The workers themselves (fetching pages, waiting, running concurrently)
//! are the application's; each call here is one step of a worker, made
//! while it holds the state.

use std::collections::VecDeque;
use crate::crawler::config::CrawlerConfig;
use crate::name_index::{NameIndex, position_of};
use crate::pathfinder::url_names;
use crate::url_graph::UrlGraph;
use crate::web_url::{WebUrl, UrlView};
use vstd::prelude::*;

verus! {

/// What a worker is to do next.
#[derive(Debug)]
pub enum CrawlStep {
    /// The target page has been found: the worker stops.
    TargetFound,
    /// No page is waiting: the worker waits, then stops if the crawl is idle.
    QueueEmpty,
    /// The next page was too deep and has been dropped.
    TooDeep,
    /// The next page had been seen already and has been dropped.
    AlreadyVisited,
    /// Enough pages have been fetched: the worker stops.
    MaxUrlsReached,
    /// The worker is to fetch this page, found at this depth.
    Crawl(WebUrl, usize),
}

/// The state of a crawl.
pub struct CrawlerState {
    links_crawled_count: usize,
    link_to_crawl_queue: VecDeque<(WebUrl, usize)>,
    visited_urls: NameIndex,
    url_relationships: UrlGraph,
    target_found: bool,
    active_workers: usize,
}

/// The queue as pairs of URL and depth.
pub open spec fn queue_view(q: Seq<(WebUrl, usize)>) -> Seq<(UrlView, usize)> {
    q.map_values(|e: (WebUrl, usize)| (e.0@, e.1))
}

impl CrawlerState {
    /// The number of pages fetched and recorded.
    pub closed spec fn count(&self) -> nat {
        self.links_crawled_count as nat
    }

    /// The pages waiting to be fetched, with the depth at which each was found.
    pub closed spec fn queue(&self) -> Seq<(UrlView, usize)> {
        queue_view(self.link_to_crawl_queue@)
    }

    /// The pages taken from the queue to be fetched, in that order.
    pub closed spec fn visited(&self) -> Seq<Seq<char>> {
        self.visited_urls@
    }

    /// The links recorded for each fetched page.
    pub closed spec fn relationships(&self) -> Map<Seq<char>, Set<Seq<char>>> {
        self.url_relationships@
    }

    /// Whether a fetched page has linked to the target.
    pub closed spec fn found(&self) -> bool {
        self.target_found
    }

    /// The number of pages being fetched.
    pub closed spec fn active(&self) -> nat {
        self.active_workers as nat
    }

    /// At most `max_urls` pages have been fetched or are being fetched.
    pub open spec fn within_max_urls(&self, max_urls: usize) -> bool {
        self.count() + self.active() <= max_urls
    }

    /// The number of pages the link graph holds, fetched or only linked to.
    pub closed spec fn graph_size(&self) -> nat {
        self.url_relationships.names().len()
    }

    pub closed spec fn wf(&self) -> bool {
        &&& self.visited_urls.wf()
        &&& self.url_relationships.wf()
        &&& self.links_crawled_count + self.active_workers <= self.visited_urls@.len()
        &&& forall|k: Seq<char>| #[trigger] self.url_relationships@.contains_key(k) ==> self.visited_urls@.contains(k)
        &&& self.url_relationships@.dom().finite()
        &&& self.url_relationships@.dom().len() == self.links_crawled_count
    }

    /// Whether the found flag tells exactly whether some recorded page links
    /// to `target` (and is down when there is no target).
    pub open spec fn found_matches(&self, target: Option<WebUrl>) -> bool {
        self.found() == (target matches Some(t) && exists|u: Seq<char>|
            self.relationships().contains_key(u) && #[trigger] self.relationships()[u].contains(t@.0))
    }

    /// In every state of a crawl the link graph holds exactly one entry per
    /// fetched page, and only pages that were taken have entries.
    pub proof fn lemma_one_entry_per_fetched_page(&self)
        requires
            self.wf(),
        ensures
            self.relationships().dom().finite(),
            self.relationships().dom().len() == self.count(),
            forall|k: Seq<char>| #[trigger] self.relationships().contains_key(k) ==> self.visited().contains(k),
    {
    }

    /// The state at the start of a crawl from `starting_url`: only that page waits, at depth 0.
    pub fn new(starting_url: WebUrl) -> (r: CrawlerState)
        ensures
            r.wf(),
            r.count() == 0,
            r.queue() == seq![(starting_url@, 0usize)],
            r.visited() == Seq::<Seq<char>>::empty(),
            r.relationships() == Map::<Seq<char>, Set<Seq<char>>>::empty(),
            !r.found(),
            r.active() == 0,
            r.graph_size() == 0,
            forall|max_urls: usize| r.within_max_urls(max_urls),
            forall|target: Option<WebUrl>| r.found_matches(target),
    {
        let mut queue: VecDeque<(WebUrl, usize)> = VecDeque::new();
        queue.push_back((starting_url, 0));
        let r = CrawlerState {
            links_crawled_count: 0,
            link_to_crawl_queue: queue,
            visited_urls: NameIndex::new(),
            url_relationships: UrlGraph::new(),
            target_found: false,
            active_workers: 0,
        };
        proof {
            assert(r.queue() =~= seq![(starting_url@, 0usize)]);
            assert(r.url_relationships@.dom() =~= Set::<Seq<char>>::empty());
        }
        r
    }

    /// The number of pages fetched and recorded.
    pub fn links_crawled_count(&self) -> (r: usize)
        ensures
            r == self.count(),
    {
        self.links_crawled_count
    }

    /// Whether a fetched page has linked to the target.
    pub fn target_found(&self) -> (r: bool)
        ensures
            r == self.found(),
    {
        self.target_found
    }

    /// The number of pages being fetched.
    pub fn active_workers(&self) -> (r: usize)
        ensures
            r == self.active(),
    {
        self.active_workers
    }

    /// The number of pages taken from the queue.
    pub fn visited_count(&self) -> (r: usize)
        requires
            self.wf(),
        ensures
            r == self.visited().len(),
    {
        self.visited_urls.len()
    }

    /// Whether `url` has been taken from the queue.
    pub fn has_visited(&self, url: &WebUrl) -> (r: bool)
        requires
            self.wf(),
        ensures
            r == self.visited().contains(url@.0),
    {
        let r = self.visited_urls.lookup(url.serialization_string()).is_some();
        proof {
            if self.visited().contains(url@.0) {
                let i = choose|i: int| 0 <= i < self.visited().len() && self.visited()[i] == url@.0;
                assert(position_of(self.visited_urls@, url@.0) is Some);
            }
        }
        r
    }

    /// Whether no page waits and no page is being fetched: the crawl is over.
    pub fn is_idle(&self) -> (r: bool)
        ensures
            r == (self.queue().len() == 0 && self.active() == 0),
    {
        self.link_to_crawl_queue.len() == 0 && self.active_workers == 0
    }

    /// Takes the next page from the queue and decides what to do with it.
    ///
    /// Nothing is taken once the target has been found. A page at
    /// `max_depth` or deeper is dropped, and so is a page taken before;
    /// otherwise the page is marked as taken, and it is handed out to be
    /// fetched unless the pages fetched and those being fetched already reach
    /// `max_urls`. So a crawl that starts within `max_urls` stays within it,
    /// and never fetches more than `max_urls` pages.
    pub fn claim_next(&mut self, config: &CrawlerConfig) -> (r: CrawlStep)
        requires
            old(self).wf(),
            old(self).visited().len() < usize::MAX,
        ensures
            final(self).wf(),
            final(self).relationships() == old(self).relationships(),
            final(self).count() == old(self).count(),
            final(self).found() == old(self).found(),
            final(self).graph_size() == old(self).graph_size(),
            old(self).within_max_urls(config.max_urls) ==> final(self).within_max_urls(config.max_urls),
            r is Crawl ==> final(self).within_max_urls(config.max_urls),
            old(self).found() ==> r is TargetFound && final(self).queue() == old(self).queue()
                && final(self).visited() == old(self).visited() && final(self).active() == old(self).active(),
            !old(self).found() && old(self).queue().len() == 0 ==> r is QueueEmpty && final(self).queue() == old(self).queue()
                && final(self).visited() == old(self).visited() && final(self).active() == old(self).active(),
            !old(self).found() && old(self).queue().len() > 0 ==> {
                let (u, d) = old(self).queue()[0];
                &&& final(self).queue() == old(self).queue().drop_first()
                &&& d >= config.max_depth ==> r is TooDeep && final(self).visited() == old(self).visited()
                    && final(self).active() == old(self).active()
                &&& d < config.max_depth && old(self).visited().contains(u.0) ==> r is AlreadyVisited
                    && final(self).visited() == old(self).visited() && final(self).active() == old(self).active()
                &&& d < config.max_depth && !old(self).visited().contains(u.0) ==> final(self).visited() == old(self).visited().push(u.0)
                &&& d < config.max_depth && !old(self).visited().contains(u.0)
                    && old(self).count() + old(self).active() >= config.max_urls
                    ==> r is MaxUrlsReached && final(self).active() == old(self).active()
                &&& d < config.max_depth && !old(self).visited().contains(u.0)
                    && old(self).count() + old(self).active() < config.max_urls
                    ==> (r matches CrawlStep::Crawl(url, depth) && url@ == u && depth == d) && final(self).active() == old(self).active() + 1
            },
    {
        if self.target_found {
            return CrawlStep::TargetFound;
        }
        let ghost q0 = self.link_to_crawl_queue@;
        let (url, depth) = match self.link_to_crawl_queue.pop_front() {
            Some(item) => item,
            None => {
                return CrawlStep::QueueEmpty;
            },
        };
        proof {
            assert(queue_view(self.link_to_crawl_queue@) =~= queue_view(q0).drop_first());
        }
        if depth >= config.max_depth {
            return CrawlStep::TooDeep;
        }
        if self.has_visited(&url) {
            return CrawlStep::AlreadyVisited;
        }
        proof {
            self.visited_urls.lemma_wf();
            assert(position_of(self.visited_urls@, url@.0) is None);
        }
        let ghost vis0 = self.visited_urls@;
        self.visited_urls.insert(url.serialization_string().clone());
        proof {
            self.visited_urls.lemma_wf();
            assert forall|k: Seq<char>| #[trigger] self.url_relationships@.contains_key(k) implies self.visited_urls@.contains(k) by {
                assert(vis0.contains(k));
                let i = choose|i: int| 0 <= i < vis0.len() && vis0[i] == k;
                assert(self.visited_urls@[i] == k);
            }
        }
        if self.links_crawled_count + self.active_workers >= config.max_urls {
            return CrawlStep::MaxUrlsReached;
        }
        self.active_workers = self.active_workers + 1;
        CrawlStep::Crawl(url, depth)
    }

    /// Whether `record_page` may be called with these arguments: the page
    /// was handed out by `claim_next` and is still being fetched, and the
    /// link graph has room for its links.
    pub open spec fn can_record(&self, url: UrlView, depth: usize, found_len: nat, config: &CrawlerConfig) -> bool {
        &&& self.active() > 0
        &&& self.visited().contains(url.0)
        &&& depth < config.max_depth
        &&& !self.relationships().contains_key(url.0)
        &&& self.graph_size() + found_len + 1 < usize::MAX
    }

    /// Checks `can_record`.
    pub fn check_record(&self, url: &WebUrl, depth: usize, found: &Vec<WebUrl>, config: &CrawlerConfig) -> (r: bool)
        requires
            self.wf(),
        ensures
            r == self.can_record(url@, depth, found@.len(), config),
    {
        self.active_workers > 0 && self.has_visited(url) && depth < config.max_depth
            && !self.url_relationships.contains_key(url)
            && self.url_relationships.room_for(found.len()) && found.len() < usize::MAX
            && self.url_relationships.room_for(found.len() + 1)
    }

    /// Records a fetched page: its links become its entry in the link graph
    /// and join the queue one level deeper; the target counts as found if
    /// one of them is the target; one more page counts as fetched, and one
    /// fewer as being fetched.
    pub fn record_page(&mut self, url: &WebUrl, depth: usize, found: &Vec<WebUrl>, config: &CrawlerConfig)
        requires
            old(self).wf(),
            old(self).can_record(url@, depth, found@.len(), config),
        ensures
            final(self).wf(),
            final(self).relationships() == old(self).relationships().insert(url@.0, url_names(found@).to_set()),
            final(self).found() == (old(self).found() || (config.target_url matches Some(t) && url_names(found@).contains(t@.0))),
            final(self).queue() == old(self).queue() + found@.map_values(|f: WebUrl| (f@, (depth + 1) as usize)),
            final(self).visited() == old(self).visited(),
            final(self).count() == old(self).count() + 1,
            final(self).active() + 1 == old(self).active(),
            final(self).graph_size() <= old(self).graph_size() + found@.len() + 1,
            forall|max_urls: usize| old(self).within_max_urls(max_urls) ==> final(self).within_max_urls(max_urls),
            old(self).found_matches(config.target_url) ==> final(self).found_matches(config.target_url),
    {
        proof {
            self.url_relationships.lemma_wf();
            self.visited_urls.lemma_wf();
        }
        let ghost rel0 = self.url_relationships@;
        self.url_relationships.insert(url, found);
        proof {
            assert(self.url_relationships@.dom() =~= rel0.dom().insert(url@.0));
            assert(!rel0.dom().contains(url@.0));
            assert forall|k: Seq<char>| #[trigger] self.url_relationships@.contains_key(k) implies self.visited_urls@.contains(k) by {
                if k != url@.0 {
                    assert(old(self).url_relationships@.contains_key(k));
                }
            }
        }
        if let Some(target) = &config.target_url {
            let mut i: usize = 0;
            let mut hit = false;
            while i < found.len()
                invariant
                    i <= found@.len(),
                    hit == exists|m: int| 0 <= m < i && #[trigger] found@[m]@.0 == target@.0,
                decreases found@.len() - i,
            {
                if found[i].same_as(target) {
                    hit = true;
                }
                i = i + 1;
            }
            proof {
                if hit {
                    let m = choose|m: int| 0 <= m < i && #[trigger] found@[m]@.0 == target@.0;
                    assert(url_names(found@)[m] == target@.0);
                }
                if url_names(found@).contains(target@.0) {
                    let m = choose|m: int| 0 <= m < url_names(found@).len() && url_names(found@)[m] == target@.0;
                    assert(found@[m]@.0 == target@.0);
                }
            }
            if hit {
                self.target_found = true;
            }
        }
        self.links_crawled_count = self.links_crawled_count + 1;
        self.active_workers = self.active_workers - 1;
        let ghost q0 = self.link_to_crawl_queue@;
        let mut j: usize = 0;
        while j < found.len()
            invariant
                j <= found@.len(),
                depth < usize::MAX,
                self.wf(),
                self.links_crawled_count == old(self).links_crawled_count + 1,
                self.active_workers + 1 == old(self).active_workers,
                self.visited_urls@ == old(self).visited_urls@,
                self.url_relationships@ == old(self).relationships().insert(url@.0, url_names(found@).to_set()),
                self.url_relationships.names().len() <= old(self).graph_size() + found@.len() + 1,
                self.target_found == (old(self).found() || (config.target_url matches Some(t) && url_names(found@).contains(t@.0))),
                queue_view(self.link_to_crawl_queue@) == queue_view(q0) + found@.subrange(0, j as int).map_values(|f: WebUrl| (f@, (depth + 1) as usize)),
            decreases found@.len() - j,
        {
            let ghost before = self.link_to_crawl_queue@;
            self.link_to_crawl_queue.push_back((found[j].duplicate(), depth + 1));
            proof {
                assert(queue_view(self.link_to_crawl_queue@) =~= queue_view(before).push((found@[j as int]@, (depth + 1) as usize)));
                assert(found@.subrange(0, j + 1).map_values(|f: WebUrl| (f@, (depth + 1) as usize)) =~=
                    found@.subrange(0, j as int).map_values(|f: WebUrl| (f@, (depth + 1) as usize)).push((found@[j as int]@, (depth + 1) as usize)));
            }
            j = j + 1;
        }
        proof {
            assert(found@.subrange(0, found@.len() as int) =~= found@);
            let rel1 = self.url_relationships@;
            let names = url_names(found@).to_set();
            assert(rel1 == rel0.insert(url@.0, names));
            if old(self).found_matches(config.target_url) {
                if let Some(t) = &config.target_url {
                    if self.target_found {
                        if old(self).found() {
                            let u0 = choose|u: Seq<char>| rel0.contains_key(u) && #[trigger] rel0[u].contains(t@.0);
                            assert(u0 != url@.0);
                            assert(rel1[u0].contains(t@.0));
                            assert(self.relationships().contains_key(u0) && self.relationships()[u0].contains(t@.0));
                        } else {
                            assert(names.contains(t@.0));
                            assert(rel1[url@.0].contains(t@.0));
                            assert(self.relationships().contains_key(url@.0) && self.relationships()[url@.0].contains(t@.0));
                        }
                    }
                    if exists|u: Seq<char>| self.relationships().contains_key(u) && #[trigger] self.relationships()[u].contains(t@.0) {
                        let u1 = choose|u: Seq<char>| self.relationships().contains_key(u) && #[trigger] self.relationships()[u].contains(t@.0);
                        if u1 == url@.0 {
                            assert(url_names(found@).contains(t@.0));
                        } else {
                            assert(rel0[u1].contains(t@.0));
                            assert(old(self).relationships()[u1].contains(t@.0));
                        }
                    }
                }
            }
        }
    }

    /// Records that fetching a handed-out page failed: one fewer page counts as being fetched.
    pub fn record_failure(&mut self)
        requires
            old(self).wf(),
            old(self).active() > 0,
        ensures
            final(self).wf(),
            final(self).relationships() == old(self).relationships(),
            final(self).found() == old(self).found(),
            final(self).queue() == old(self).queue(),
            final(self).visited() == old(self).visited(),
            final(self).count() == old(self).count(),
            final(self).active() + 1 == old(self).active(),
            final(self).graph_size() == old(self).graph_size(),
            forall|max_urls: usize| old(self).within_max_urls(max_urls) ==> final(self).within_max_urls(max_urls),
    {
        self.active_workers = self.active_workers - 1;
    }

    /// The link graph recorded so far.
    pub fn graph(&self) -> (r: &UrlGraph)
        requires
            self.wf(),
        ensures
            r.wf(),
            r@ == self.relationships(),
    {
        &self.url_relationships
    }
}

/// A copy of the link graph that a crawl has recorded, for path finding.
pub fn build_graph_from_state(state: &CrawlerState) -> (r: UrlGraph)
    requires
        state.wf(),
    ensures
        r.wf(),
        r@ == state.relationships(),
{
    state.graph().duplicate()
}


/// No page is handed out for fetching twice: every step keeps the pages
/// taken so far (`claim_next` may append one, the other steps leave them
/// alone), and `claim_next` hands out only a page not taken before; so a
/// page taken at one point of a crawl is still taken at every later point,
/// and is never handed out again.
pub proof fn law_taken_pages_stay_taken(earlier: CrawlerState, later: CrawlerState, page: Seq<char>)
    requires
        earlier.visited().is_prefix_of(later.visited()),
        earlier.visited().contains(page),
    ensures
        later.visited().contains(page),
{
    let i = choose|i: int| 0 <= i < earlier.visited().len() && earlier.visited()[i] == page;
    assert(later.visited()[i] == earlier.visited()[i]);
}

/// A crawl never fetches more than `max_urls` pages. Along the states of a
/// crawl, each step keeps `within_max_urls` (`new` starts within any limit,
/// and `claim_next`, `record_page` and `record_failure` each keep it); so if
/// the first state is within the limit and every step keeps it, every state
/// of the crawl has fetched at most `max_urls` pages.
pub proof fn law_fetched_pages_within_max_urls(states: Seq<CrawlerState>, max_urls: usize)
    requires
        states.len() > 0,
        states[0].within_max_urls(max_urls),
        forall|i: int| 0 <= i < states.len() - 1 && #[trigger] states[i].within_max_urls(max_urls)
            ==> states[i + 1].within_max_urls(max_urls),
    ensures
        forall|i: int| 0 <= i < states.len() ==> #[trigger] states[i].count() <= max_urls,
{
    assert forall|i: int| 0 <= i < states.len() implies #[trigger] states[i].count() <= max_urls by {
        lemma_within_up_to(states, max_urls, i);
    }
}

/// Induction on the position for `law_fetched_pages_within_max_urls`.
proof fn lemma_within_up_to(states: Seq<CrawlerState>, max_urls: usize, i: int)
    requires
        0 <= i < states.len(),
        states[0].within_max_urls(max_urls),
        forall|j: int| 0 <= j < states.len() - 1 && #[trigger] states[j].within_max_urls(max_urls)
            ==> states[j + 1].within_max_urls(max_urls),
    ensures
        states[i].within_max_urls(max_urls),
    decreases i,
{
    if i > 0 {
        lemma_within_up_to(states, max_urls, i - 1);
    }
}

/// Over a whole crawl, no page is handed out for fetching twice. `states`
/// are the states of a crawl and `handed[i]` the page, if any, that the step
/// from `states[i]` to `states[i + 1]` handed out. Each step keeps the pages
/// taken so far as a prefix (as the steps' contracts state), and a page is
/// handed out only when it was not taken before and is taken after; then
/// two different steps never hand out the same page.
pub proof fn law_each_page_handed_out_once(states: Seq<CrawlerState>, handed: Seq<Option<Seq<char>>>, i: int, j: int)
    requires
        handed.len() + 1 == states.len(),
        forall|k: int| 0 <= k < handed.len() ==> #[trigger] states[k].visited().is_prefix_of(states[k + 1].visited()),
        forall|k: int| 0 <= k < handed.len() && #[trigger] handed[k] is Some ==>
            !states[k].visited().contains(handed[k]->0) && states[k + 1].visited().contains(handed[k]->0),
        0 <= i < j < handed.len(),
        handed[i] is Some,
        handed[j] is Some,
    ensures
        handed[i] != handed[j],
{
    let page = handed[i]->0;
    assert(states[i + 1].visited().contains(page));
    lemma_prefix_along(states, handed.len() as int, i + 1, j);
    law_taken_pages_stay_taken(states[i + 1], states[j], page);
}

/// The pages taken at one state of a crawl are a prefix of those taken at any later state.
proof fn lemma_prefix_along(states: Seq<CrawlerState>, n: int, a: int, b: int)
    requires
        n + 1 == states.len(),
        forall|k: int| 0 <= k < n ==> #[trigger] states[k].visited().is_prefix_of(states[k + 1].visited()),
        0 <= a <= b <= n,
    ensures
        states[a].visited().is_prefix_of(states[b].visited()),
    decreases b - a,
{
    if a < b {
        lemma_prefix_along(states, n, a + 1, b);
        assert(states[a].visited().is_prefix_of(states[a + 1].visited()));
        let x = states[a].visited();
        let y = states[a + 1].visited();
        let z = states[b].visited();
        assert(x.len() <= z.len());
        assert forall|k: int| 0 <= k < x.len() implies x[k] == z[k] by {
            assert(x[k] == y[k]);
            assert(y[k] == z[k]);
        }
        assert(z.subrange(0, x.len() as int) =~= x);
    } else {
        assert(states[a].visited().subrange(0, states[a].visited().len() as int) =~= states[a].visited());
    }
}

/// Whether a fetched page can be recorded does not depend on how many links
/// it has, beyond room in the link graph: a page that can be recorded with
/// some links can be recorded with fewer, none included.
pub proof fn law_record_any_number_of_links(state: CrawlerState, url: UrlView, depth: usize, found_len: nat, fewer: nat, config: &CrawlerConfig)
    requires
        state.can_record(url, depth, found_len, config),
        fewer <= found_len,
    ensures
        state.can_record(url, depth, fewer, config),
        state.can_record(url, depth, 0, config),
{
}

/// A page handed out and still being fetched, without an entry yet, at a
/// depth below `max_depth` and with room in the graph for itself, can be
/// recorded without links.
pub proof fn law_page_without_links_can_be_recorded(state: CrawlerState, url: UrlView, depth: usize, config: &CrawlerConfig)
    requires
        state.active() > 0,
        state.visited().contains(url.0),
        depth < config.max_depth,
        !state.relationships().contains_key(url.0),
        state.graph_size() + 1 < usize::MAX,
    ensures
        state.can_record(url, depth, 0, config),
{
}

} // verus!
