//! The link graph: for each page that has an entry, the set of pages it
//! links to.
//!
//! Pages are identified by the serialisation of their URL. Internally each
//! page gets a node number, in the order in which the graph first met it;
//! the path searches work on those numbers.

use crate::name_index::{NameIndex, position_of, all_distinct};
use crate::web_url::{WebUrl, UrlView};
use vstd::prelude::*;

verus! {

/// The set of page names that an adjacency row points to.
pub open spec fn row_targets(names: Seq<Seq<char>>, row: Seq<usize>) -> Set<Seq<char>> {
    row.map_values(|v: usize| names[v as int]).to_set()
}

/// Whether the page named `k` has an entry.
pub open spec fn has_entry_named(names: Seq<Seq<char>>, entries: Seq<bool>, k: Seq<char>) -> bool {
    exists|i: int| 0 <= i < names.len() && names[i] == k && entries[i]
}

/// The graph as a map from each page with an entry to the set of pages it links to.
pub open spec fn graph_view(names: Seq<Seq<char>>, adj: Seq<Seq<usize>>, entries: Seq<bool>) -> Map<Seq<char>, Set<Seq<char>>> {
    Map::new(
        |k: Seq<char>| has_entry_named(names, entries, k),
        |k: Seq<char>| row_targets(names, adj[position_of(names, k)->0 as int]),
    )
}

/// For each name of `names`, the URL at its position in `urls`.
pub open spec fn urls_by_name(names: Seq<Seq<char>>, urls: Seq<UrlView>) -> Map<Seq<char>, UrlView> {
    Map::new(|n: Seq<char>| names.contains(n), |n: Seq<char>| urls[position_of(names, n)->0])
}

/// `m` with `u` kept for its page, unless a URL is kept for that page already.
pub open spec fn keep_first(m: Map<Seq<char>, UrlView>, u: UrlView) -> Map<Seq<char>, UrlView> {
    if m.contains_key(u.0) { m } else { m.insert(u.0, u) }
}

/// `m` with each of `us` kept in turn, the first URL met for a page winning.
pub open spec fn keep_first_all(m: Map<Seq<char>, UrlView>, us: Seq<UrlView>) -> Map<Seq<char>, UrlView>
    decreases us.len(),
{
    if us.len() == 0 { m } else { keep_first(keep_first_all(m, us.drop_last()), us.last()) }
}

/// A directed graph of pages, keyed by URL serialisation.
pub struct UrlGraph {
    index: NameIndex,
    urls: Vec<WebUrl>,
    has_entry: Vec<bool>,
    adj: Vec<Vec<usize>>,
}

impl View for UrlGraph {
    type V = Map<Seq<char>, Set<Seq<char>>>;

    open spec fn view(&self) -> Map<Seq<char>, Set<Seq<char>>> {
        graph_view(self.names(), self.adjacency(), self.entries())
    }
}

impl UrlGraph {
    /// The serialisation of each node's URL, by node number.
    pub closed spec fn names(&self) -> Seq<Seq<char>> {
        self.index@
    }

    /// The successors of each node, by node number.
    pub closed spec fn adjacency(&self) -> Seq<Seq<usize>> {
        self.adj@.map_values(|row: Vec<usize>| row@)
    }

    /// Whether each node has an entry of its own (and not only appears as a link target).
    pub closed spec fn entries(&self) -> Seq<bool> {
        self.has_entry@
    }

    /// The URL of each node.
    pub closed spec fn node_urls(&self) -> Seq<(Seq<char>, Option<Seq<char>>, Seq<char>)> {
        self.urls@.map_values(|u: WebUrl| u@)
    }

    /// The URL the graph keeps for the page named `name`: the one it met
    /// first under that name.
    pub open spec fn url_of(&self, name: Seq<char>) -> (Seq<char>, Option<Seq<char>>, Seq<char>) {
        self.node_urls()[position_of(self.names(), name)->0]
    }

    /// The URL the graph keeps for each page it has met.
    pub open spec fn url_map(&self) -> Map<Seq<char>, UrlView> {
        urls_by_name(self.names(), self.node_urls())
    }

    pub closed spec fn wf(&self) -> bool {
        &&& self.index.wf()
        &&& self.urls@.len() == self.index@.len()
        &&& self.has_entry@.len() == self.index@.len()
        &&& self.adj@.len() == self.index@.len()
        &&& forall|i: int| 0 <= i < self.urls@.len() ==> #[trigger] self.urls@[i]@.0 == self.index@[i]
        &&& forall|i: int, j: int| 0 <= i < self.adj@.len() && 0 <= j < self.adj@[i]@.len()
            ==> #[trigger] self.adj@[i]@[j] < self.index@.len()
        &&& forall|i: int| 0 <= i < self.adj@.len() && !(#[trigger] self.has_entry@[i]) ==> self.adj@[i]@.len() == 0
    }

    /// The facts about the node-level description that the path searches use.
    pub proof fn lemma_wf(&self)
        requires
            self.wf(),
        ensures
            self.names().len() == self.adjacency().len(),
            self.entries().len() == self.names().len(),
            self.node_urls().len() == self.names().len(),
            all_distinct(self.names()),
            self.names().len() <= usize::MAX,
            forall|i: int| 0 <= i < self.node_urls().len() ==> #[trigger] self.node_urls()[i].0 == self.names()[i],
            forall|i: int, j: int| 0 <= i < self.adjacency().len() && 0 <= j < self.adjacency()[i].len()
                ==> #[trigger] self.adjacency()[i][j] < self.names().len(),
            forall|i: int| 0 <= i < self.adjacency().len() && !(#[trigger] self.entries()[i]) ==> self.adjacency()[i].len() == 0,
    {
        self.index.lemma_wf();
        assert forall|i: int, j: int| 0 <= i < self.adjacency().len() && 0 <= j < self.adjacency()[i].len()
            implies #[trigger] self.adjacency()[i][j] < self.names().len() by {
            assert(self.adjacency()[i] == self.adj@[i]@);
            assert(self.adj@[i]@[j] < self.index@.len());
        }
        assert forall|i: int| 0 <= i < self.adjacency().len() && !(#[trigger] self.entries()[i]) implies self.adjacency()[i].len() == 0 by {
            assert(self.adjacency()[i] == self.adj@[i]@);
        }
        assert forall|i: int| 0 <= i < self.node_urls().len() implies #[trigger] self.node_urls()[i].0 == self.names()[i] by {
            assert(self.node_urls()[i] == self.urls@[i]@);
        }
    }

    /// An empty graph.
    pub fn new() -> (r: UrlGraph)
        ensures
            r.wf(),
            r@ == Map::<Seq<char>, Set<Seq<char>>>::empty(),
            r.names().len() == 0,
            r.url_map() == Map::<Seq<char>, UrlView>::empty(),
    {
        let r = UrlGraph { index: NameIndex::new(), urls: Vec::new(), has_entry: Vec::new(), adj: Vec::new() };
        assert(r@ =~= Map::<Seq<char>, Set<Seq<char>>>::empty());
        assert(r.url_map() =~= Map::<Seq<char>, UrlView>::empty());
        r
    }

    /// The number of nodes, pages with an entry and pages that only appear as link targets.
    pub fn node_count(&self) -> (r: usize)
        requires
            self.wf(),
        ensures
            r == self.names().len(),
    {
        self.index.len()
    }

    /// The node number of `url`, if the graph has met it.
    pub fn node_of(&self, url: &WebUrl) -> (r: Option<usize>)
        requires
            self.wf(),
        ensures
            r is None <==> position_of(self.names(), url@.0) is None,
            r matches Some(i) ==> position_of(self.names(), url@.0) == Some(i as int) && i < self.names().len() && self.names()[i as int] == url@.0,
    {
        self.index.lookup(url.serialization_string())
    }

    /// The URL of node `i`.
    pub fn url_at(&self, i: usize) -> (r: WebUrl)
        requires
            self.wf(),
            i < self.names().len(),
        ensures
            r@ == self.node_urls()[i as int],
            r@.0 == self.names()[i as int],
    {
        proof { self.lemma_wf(); }
        self.urls[i].duplicate()
    }

    /// The successors of node `i`.
    pub fn successors(&self, i: usize) -> (r: &Vec<usize>)
        requires
            self.wf(),
            i < self.names().len(),
        ensures
            r@ == self.adjacency()[i as int],
    {
        &self.adj[i]
    }

    /// The successor lists of all nodes.
    pub fn adjacency_table(&self) -> (r: &Vec<Vec<usize>>)
        requires
            self.wf(),
        ensures
            crate::graph_search::table_view(r@) == self.adjacency(),
            crate::graph_search::adj_wf(self.adjacency()),
            self.adjacency().len() == self.names().len(),
    {
        proof {
            self.lemma_wf();
            assert(crate::graph_search::table_view(self.adj@) =~= self.adjacency());
        }
        &self.adj
    }

    /// Whether node `i` has an entry of its own.
    pub fn has_entry_at(&self, i: usize) -> (r: bool)
        requires
            self.wf(),
            i < self.names().len(),
        ensures
            r == self.entries()[i as int],
    {
        self.has_entry[i]
    }

    /// A copy of this graph.
    pub fn duplicate(&self) -> (r: UrlGraph)
        requires
            self.wf(),
        ensures
            r.wf(),
            r@ == self@,
            r.names() == self.names(),
            r.adjacency() == self.adjacency(),
            r.entries() == self.entries(),
    {
        proof { self.lemma_wf(); }
        let index = self.index.duplicate();
        let n = self.urls.len();
        let mut urls: Vec<WebUrl> = Vec::new();
        let mut has_entry: Vec<bool> = Vec::new();
        let mut adj: Vec<Vec<usize>> = Vec::new();
        let mut i: usize = 0;
        while i < n
            invariant
                self.wf(),
                n == self.urls@.len(),
                n == self.adj@.len(),
                i <= n,
                urls@.len() == i,
                has_entry@ == self.has_entry@.subrange(0, i as int),
                adj@.len() == i,
                forall|k: int| 0 <= k < i ==> #[trigger] urls@[k]@ == self.urls@[k]@,
                forall|k: int| 0 <= k < i ==> (#[trigger] adj@[k])@ == self.adj@[k]@,
            decreases n - i,
        {
            urls.push(self.urls[i].duplicate());
            has_entry.push(self.has_entry[i]);
            let mut row: Vec<usize> = Vec::new();
            let mut j: usize = 0;
            while j < self.adj[i].len()
                invariant
                    self.wf(),
                    i < n,
                    n == self.adj@.len(),
                    j <= self.adj@[i as int]@.len(),
                    row@ == self.adj@[i as int]@.subrange(0, j as int),
                decreases self.adj@[i as int]@.len() - j,
            {
                row.push(self.adj[i][j]);
                proof { assert(row@ =~= self.adj@[i as int]@.subrange(0, j + 1)); }
                j = j + 1;
            }
            proof { assert(row@ =~= self.adj@[i as int]@); }
            adj.push(row);
            proof { assert(has_entry@ =~= self.has_entry@.subrange(0, i + 1)); }
            i = i + 1;
        }
        let r = UrlGraph { index, urls, has_entry, adj };
        proof {
            assert(has_entry@ =~= self.has_entry@);
            assert(r.adjacency() =~= self.adjacency());
            assert(r.entries() =~= self.entries());
            assert(r.node_urls() =~= self.node_urls());
            assert forall|k: int| 0 <= k < r.urls@.len() implies #[trigger] r.urls@[k]@.0 == r.index@[k] by {
                assert(r.urls@[k]@ == self.urls@[k]@);
            }
            assert forall|a: int, b: int| 0 <= a < r.adj@.len() && 0 <= b < r.adj@[a]@.len() implies #[trigger] r.adj@[a]@[b] < r.index@.len() by {
                assert(r.adj@[a]@ == self.adj@[a]@);
            }
        }
        r
    }

    /// Whether the graph can take `extra` more nodes.
    pub open spec fn has_room(&self, extra: nat) -> bool {
        self.names().len() + extra < usize::MAX
    }

    /// Checks `has_room`.
    pub fn room_for(&self, extra: usize) -> (r: bool)
        requires
            self.wf(),
        ensures
            r == self.has_room(extra as nat),
    {
        self.index.len() < usize::MAX - extra
    }

    /// Interning a URL leaves the map unchanged and gives it a node.
    fn intern(&mut self, url: &WebUrl) -> (r: usize)
        requires
            old(self).wf(),
            old(self).has_room(1),
        ensures
            final(self).wf(),
            final(self)@ == old(self)@,
            r < final(self).names().len(),
            final(self).names()[r as int] == url@.0,
            final(self).names().len() <= old(self).names().len() + 1,
            old(self).names().len() <= final(self).names().len(),
            forall|i: int| 0 <= i < old(self).names().len() ==> #[trigger] final(self).names()[i] == old(self).names()[i],
            final(self).adjacency().subrange(0, old(self).names().len() as int) == old(self).adjacency(),
            final(self).entries().subrange(0, old(self).names().len() as int) == old(self).entries(),
            forall|i: int| old(self).names().len() <= i < final(self).names().len() ==> !final(self).entries()[i]
                && final(self).adjacency()[i].len() == 0,
            final(self).url_map() == keep_first(old(self).url_map(), url@),
    {
        let ghost old_names = self.names();
        let ghost old_urls = self.node_urls();
        proof { self.lemma_wf(); }
        let ghost old_adj = self.adjacency();
        let ghost old_entries = self.entries();
        let n = self.index.len();
        let id = self.index.insert(url.serialization_string().clone());
        if id == n {
            self.urls.push(url.duplicate());
            self.has_entry.push(false);
            self.adj.push(Vec::new());
            proof {
                assert(self.adjacency() =~= old_adj.push(Seq::empty()));
                assert(self.entries() =~= old_entries.push(false));
                assert(self.names() =~= old_names.push(url@.0));
                assert forall|i: int| 0 <= i < self.urls@.len() implies #[trigger] self.urls@[i]@.0 == self.index@[i] by {
                    if i < n {
                        assert(self.urls@[i] == old(self).urls@[i]);
                    }
                }
                assert forall|i: int, j: int| 0 <= i < self.adj@.len() && 0 <= j < self.adj@[i]@.len()
                    implies #[trigger] self.adj@[i]@[j] < self.index@.len() by {
                    assert(i < n);
                    assert(self.adj@[i] == old(self).adj@[i]);
                }
                self.index.lemma_wf();
                lemma_extend_view(old_names, old_adj, old_entries, url@.0);
                assert(self.adjacency().subrange(0, n as int) =~= old_adj);
                assert(self.entries().subrange(0, n as int) =~= old_entries);
                assert(self.node_urls() =~= old_urls.push(url@));
                assert(!old_names.contains(url@.0));
                lemma_urls_by_name_push(old_names, old_urls, url@);
            }
        } else {
            proof {
                assert(self.adjacency().subrange(0, n as int) =~= old_adj);
                assert(self.entries().subrange(0, n as int) =~= old_entries);
                assert(self.node_urls() =~= old_urls);
                assert(old_names[id as int] == url@.0);
                assert(old_names.contains(url@.0));
            }
        }
        id
    }

    /// Sets the entry of `url` to the set of `links`, replacing any entry it had.
    pub fn insert(&mut self, url: &WebUrl, links: &Vec<WebUrl>)
        requires
            old(self).wf(),
            old(self).has_room(links@.len() + 1),
        ensures
            final(self).wf(),
            final(self)@ == old(self)@.insert(url@.0, links@.map_values(|l: WebUrl| l@.0).to_set()),
            final(self).names().len() <= old(self).names().len() + links@.len() + 1,
            final(self).url_map() == keep_first(keep_first_all(old(self).url_map(), links@.map_values(|l: WebUrl| l@)), url@),
    {
        let ghost start_names = self.names();
        let ghost views = links@.map_values(|l: WebUrl| l@);
        let mut row: Vec<usize> = Vec::new();
        let mut i: usize = 0;
        while i < links.len()
            invariant
                self.wf(),
                self@ == old(self)@,
                i <= links@.len(),
                self.names().len() <= start_names.len() + i,
                old(self).has_room(links@.len() + 1),
                start_names.len() == old(self).names().len(),
                row@.len() == i,
                forall|m: int| 0 <= m < i ==> #[trigger] row@[m] < self.names().len(),
                forall|m: int| 0 <= m < i ==> self.names()[row@[m] as int] == #[trigger] links@[m]@.0,
                views == links@.map_values(|l: WebUrl| l@),
                self.url_map() == keep_first_all(old(self).url_map(), views.subrange(0, i as int)),
            decreases links@.len() - i,
        {
            let ghost before = self.names();
            let ghost old_row = row@;
            let v = self.intern(&links[i]);
            row.push(v);
            proof {
                assert(views.subrange(0, i + 1).drop_last() =~= views.subrange(0, i as int));
                assert(views.subrange(0, i + 1).last() == links@[i as int]@);
                assert forall|m: int| 0 <= m < i + 1 implies #[trigger] row@[m] < self.names().len() by {
                    if m < i {
                        assert(old_row[m] < before.len());
                    }
                }
                assert forall|m: int| 0 <= m < i + 1 implies self.names()[row@[m] as int] == #[trigger] links@[m]@.0 by {
                    if m < i {
                        let x = links@[m]@.0;
                        assert(old_row[m] < before.len());
                        assert(before[old_row[m] as int] == x);
                        assert(self.names()[old_row[m] as int] == before[old_row[m] as int]);
                    }
                }
            }
            i = i + 1;
        }
        let ghost mid_names = self.names();
        let ghost mid_adj = self.adjacency();
        let ghost mid_entries = self.entries();
        proof { assert(views.subrange(0, links@.len() as int) =~= views); }
        let u = self.intern(url);
        let ghost mid_map = self.url_map();
        proof {
            assert forall|m: int| 0 <= m < row@.len() implies #[trigger] row@[m] < self.names().len() by {
                assert(row@[m] < mid_names.len());
            }
            assert forall|m: int| 0 <= m < row@.len() implies self.names()[row@[m] as int] == #[trigger] links@[m]@.0 by {
                let x = links@[m]@.0;
                assert(row@[m] < mid_names.len() && mid_names[row@[m] as int] == x);
                assert(self.names()[row@[m] as int] == mid_names[row@[m] as int]);
            }
        }
        proof { self.lemma_wf(); }
        let ghost pre_names = self.names();
        let ghost pre_adj = self.adjacency();
        let ghost pre_entries = self.entries();
        let ghost old_node_urls_at_u = self.node_urls();
        self.adj.set(u, row);
        self.has_entry.set(u, true);
        proof {
            assert(self.names() == pre_names);
            assert(self.adjacency() =~= pre_adj.update(u as int, row@));
            assert(self.entries() =~= pre_entries.update(u as int, true));
            assert forall|a: int, b: int| 0 <= a < self.adj@.len() && 0 <= b < self.adj@[a]@.len()
                implies #[trigger] self.adj@[a]@[b] < self.index@.len() by {
                assert(self.adj@[a]@ == self.adjacency()[a]);
                if a != u {
                    assert(self.adjacency()[a] == pre_adj[a]);
                    assert(pre_adj[a][b] < pre_names.len());
                } else {
                    assert(self.adjacency()[a] == row@);
                    let x = links@[b]@.0;
                    assert(row@[b] < self.names().len());
                }
            }
            assert forall|a: int| 0 <= a < self.adj@.len() && !(#[trigger] self.has_entry@[a]) implies self.adj@[a]@.len() == 0 by {
                assert(self.adj@[a]@ == self.adjacency()[a]);
                assert(self.has_entry@[a] == self.entries()[a]);
                assert(pre_adj[a].len() == 0 || pre_entries[a]);
            }
            let target_set = links@.map_values(|l: WebUrl| l@.0).to_set();
            assert(row@.map_values(|v: usize| pre_names[v as int]) =~= links@.map_values(|l: WebUrl| l@.0));
            lemma_set_row_view(pre_names, pre_adj, pre_entries, u as int, row@);
            assert(self@ == graph_view(pre_names, pre_adj, pre_entries).insert(url@.0, target_set));
            assert(self.node_urls() == old_node_urls_at_u);
            assert(self.url_map() == mid_map);
        }
    }

    /// Adds a link from `from` to `to`, giving `from` an entry if it had none.
    pub fn add_edge(&mut self, from: &WebUrl, to: &WebUrl)
        requires
            old(self).wf(),
            old(self).has_room(2),
        ensures
            final(self).wf(),
            final(self)@ == old(self)@.insert(
                from@.0,
                if old(self)@.contains_key(from@.0) { old(self)@[from@.0].insert(to@.0) } else { set![to@.0] },
            ),
            final(self).url_map() == keep_first(keep_first(old(self).url_map(), to@), from@),
    {
        let v = self.intern(to);
        let ghost mid_names = self.names();
        let u = self.intern(from);
        proof {
            assert(self.names()[v as int] == mid_names[v as int]);
        }
        let ghost pre_names = self.names();
        let ghost pre_adj = self.adjacency();
        let ghost pre_entries = self.entries();
        let ghost pre_map = self.url_map();
        let ghost pre_urls = self.node_urls();
        proof { self.lemma_wf(); }
        let mut row: Vec<usize> = Vec::new();
        let mut j: usize = 0;
        let len = self.adj[u].len();
        while j < len
            invariant
                self.wf(),
                u < self.names().len(),
                len == self.adjacency()[u as int].len(),
                j <= len,
                row@ == self.adjacency()[u as int].subrange(0, j as int),
            decreases len - j,
        {
            proof { assert(self.adjacency()[u as int] == self.adj@[u as int]@); }
            row.push(self.adj[u][j]);
            proof { assert(row@ =~= self.adjacency()[u as int].subrange(0, j + 1)); }
            j = j + 1;
        }
        proof { assert(row@ =~= pre_adj[u as int]); }
        row.push(v);
        self.adj.set(u, row);
        self.has_entry.set(u, true);
        proof {
            assert(self.adjacency() =~= pre_adj.update(u as int, pre_adj[u as int].push(v)));
            assert(self.entries() =~= pre_entries.update(u as int, true));
            assert forall|a: int, b: int| 0 <= a < self.adj@.len() && 0 <= b < self.adj@[a]@.len()
                implies #[trigger] self.adj@[a]@[b] < self.index@.len() by {
                assert(self.adj@[a]@ == self.adjacency()[a]);
                if a != u {
                    assert(pre_adj[a][b] < pre_names.len());
                } else if b < pre_adj[u as int].len() {
                    assert(self.adjacency()[a][b] == pre_adj[u as int][b]);
                    assert(pre_adj[u as int][b] < pre_names.len());
                }
            }
            assert forall|a: int| 0 <= a < self.adj@.len() && !(#[trigger] self.has_entry@[a]) implies self.adj@[a]@.len() == 0 by {
                assert(self.adj@[a]@ == self.adjacency()[a]);
                assert(self.has_entry@[a] == self.entries()[a]);
            }
            let new_row = pre_adj[u as int].push(v);
            lemma_set_row_view(pre_names, pre_adj, pre_entries, u as int, new_row);
            let new_targets = row_targets(pre_names, new_row);
            if pre_entries[u as int] {
                assert(has_entry_named(pre_names, pre_entries, from@.0));
                lemma_position_unique(pre_names, from@.0, u as int);
                assert(row_targets(pre_names, new_row) =~= row_targets(pre_names, pre_adj[u as int]).insert(to@.0)) by {
                    let old_seq = pre_adj[u as int].map_values(|x: usize| pre_names[x as int]);
                    assert(new_row.map_values(|x: usize| pre_names[x as int]) =~= old_seq.push(to@.0));
                    old_seq.lemma_push_to_set_commute(to@.0);
                }
            } else {
                assert(pre_adj[u as int].len() == 0);
                assert(!has_entry_named(pre_names, pre_entries, from@.0)) by {
                    if has_entry_named(pre_names, pre_entries, from@.0) {
                        let w = choose|w: int| 0 <= w < pre_names.len() && pre_names[w] == from@.0 && pre_entries[w];
                        assert(w == u as int);
                    }
                }
                let empty = Seq::<Seq<char>>::empty();
                assert(new_row.map_values(|x: usize| pre_names[x as int]) =~= empty.push(to@.0));
                empty.lemma_push_to_set_commute(to@.0);
                assert(empty.to_set() =~= Set::<Seq<char>>::empty());
                assert(row_targets(pre_names, new_row) =~= set![to@.0]);
            }
        }
    }

    /// Whether `url` has an entry.
    pub fn contains_key(&self, url: &WebUrl) -> (r: bool)
        requires
            self.wf(),
        ensures
            r == self@.contains_key(url@.0),
    {
        proof { self.lemma_wf(); }
        match self.node_of(url) {
            None => {
                proof {
                    if has_entry_named(self.names(), self.entries(), url@.0) {
                        let w = choose|w: int| 0 <= w < self.names().len() && self.names()[w] == url@.0 && self.entries()[w];
                        assert(exists|i: int| 0 <= i < self.names().len() && self.names()[i] == url@.0);
                    }
                }
                false
            },
            Some(i) => {
                proof {
                    if has_entry_named(self.names(), self.entries(), url@.0) {
                        let w = choose|w: int| 0 <= w < self.names().len() && self.names()[w] == url@.0 && self.entries()[w];
                        assert(w == i as int);
                    }
                }
                self.has_entry[i]
            },
        }
    }

    /// The pages that `url` links to, if it has an entry.
    pub fn get(&self, url: &WebUrl) -> (r: Option<Vec<WebUrl>>)
        requires
            self.wf(),
        ensures
            r is Some <==> self@.contains_key(url@.0),
            r matches Some(links) ==> links@.map_values(|l: WebUrl| l@.0).to_set() == self@[url@.0],
            r matches Some(links) ==> forall|m: int| 0 <= m < links@.len() ==> #[trigger] links@[m]@ == self.url_of(links@[m]@.0),
    {
        proof { self.lemma_wf(); }
        if !self.contains_key(url) {
            return None;
        }
        let i = self.node_of(url).unwrap();
        let mut out: Vec<WebUrl> = Vec::new();
        let mut j: usize = 0;
        let len = self.adj[i].len();
        while j < len
            invariant
                self.wf(),
                i < self.names().len(),
                len == self.adjacency()[i as int].len(),
                j <= len,
                out@.len() == j,
                forall|m: int| 0 <= m < j ==> #[trigger] out@[m]@.0 == self.names()[self.adjacency()[i as int][m] as int],
                forall|m: int| 0 <= m < j ==> #[trigger] out@[m]@ == self.url_of(out@[m]@.0),
            decreases len - j,
        {
            proof {
                self.lemma_wf();
                assert(self.adjacency()[i as int] == self.adj@[i as int]@);
            }
            let v = self.adj[i][j];
            let u = self.url_at(v);
            proof {
                assert(v < self.names().len());
                lemma_position_unique(self.names(), self.names()[v as int], v as int);
            }
            let ghost before = out@;
            out.push(u);
            proof {
                assert forall|m: int| 0 <= m < j + 1 implies #[trigger] out@[m]@ == self.url_of(out@[m]@.0) by {
                    if m < j {
                        assert(out@[m] == before[m]);
                    }
                }
            }
            j = j + 1;
        }
        proof {
            assert(out@.map_values(|l: WebUrl| l@.0) =~= self.adjacency()[i as int].map_values(|v: usize| self.names()[v as int]));
            assert(position_of(self.names(), url@.0) == Some(i as int));
        }
        Some(out)
    }
}

/// Meeting a new page adds its URL to the URLs kept by name.
proof fn lemma_urls_by_name_push(names: Seq<Seq<char>>, urls: Seq<UrlView>, u: UrlView)
    requires
        all_distinct(names.push(u.0)),
        urls.len() == names.len(),
    ensures
        urls_by_name(names.push(u.0), urls.push(u)) == urls_by_name(names, urls).insert(u.0, u),
{
    let n2 = names.push(u.0);
    let u2 = urls.push(u);
    assert(all_distinct(names)) by {
        assert forall|i: int, j: int| 0 <= i < j < names.len() implies names[i] != names[j] by {
            assert(n2[i] == names[i] && n2[j] == names[j]);
        }
    }
    assert forall|k: Seq<char>| #[trigger] n2.contains(k) <==> names.contains(k) || k == u.0 by {
        if n2.contains(k) && k != u.0 {
            let i = choose|i: int| 0 <= i < n2.len() && n2[i] == k;
            assert(names[i] == k);
        }
        if names.contains(k) {
            let i = choose|i: int| 0 <= i < names.len() && names[i] == k;
            assert(n2[i] == k);
        }
        if k == u.0 {
            assert(n2[names.len() as int] == k);
        }
    }
    assert forall|k: Seq<char>| n2.contains(k) implies
        #[trigger] urls_by_name(n2, u2)[k] == urls_by_name(names, urls).insert(u.0, u)[k] by {
        if k == u.0 {
            lemma_position_unique(n2, k, names.len() as int);
        } else {
            let i = choose|i: int| 0 <= i < names.len() && names[i] == k;
            lemma_position_unique(names, k, i);
            assert(n2[i] == k);
            lemma_position_unique(n2, k, i);
        }
    }
    assert(urls_by_name(n2, u2) =~= urls_by_name(names, urls).insert(u.0, u));
}

/// Appending a node without an entry leaves the map unchanged.
proof fn lemma_extend_view(names: Seq<Seq<char>>, adj: Seq<Seq<usize>>, entries: Seq<bool>, k: Seq<char>)
    requires
        names.len() == adj.len(),
        entries.len() == names.len(),
        all_distinct(names.push(k)),
        forall|i: int, j: int| 0 <= i < adj.len() && 0 <= j < adj[i].len() ==> #[trigger] adj[i][j] < names.len(),
    ensures
        graph_view(names.push(k), adj.push(Seq::empty()), entries.push(false)) == graph_view(names, adj, entries),
{
    let n2 = names.push(k);
    let a2 = adj.push(Seq::empty());
    let e2 = entries.push(false);
    let g1 = graph_view(names, adj, entries);
    let g2 = graph_view(n2, a2, e2);
    assert(all_distinct(names)) by {
        assert forall|i: int, j: int| 0 <= i < names.len() && 0 <= j < names.len() && i != j implies names[i] != names[j] by {
            assert(n2[i] == names[i] && n2[j] == names[j]);
        }
    }
    assert forall|key: Seq<char>| has_entry_named(n2, e2, key) == has_entry_named(names, entries, key) by {
        if has_entry_named(n2, e2, key) {
            let w = choose|w: int| 0 <= w < n2.len() && n2[w] == key && e2[w];
            assert(w < names.len());
            assert(names[w] == key && entries[w]);
        }
        if has_entry_named(names, entries, key) {
            let w = choose|w: int| 0 <= w < names.len() && names[w] == key && entries[w];
            assert(n2[w] == key && e2[w]);
        }
    }
    assert(g1.dom() =~= g2.dom());
    assert forall|key: Seq<char>| #[trigger] g1.dom().contains(key) implies g1[key] == g2[key] by {
        assert(has_entry_named(names, entries, key));
        let w = choose|w: int| 0 <= w < names.len() && names[w] == key && entries[w];
        assert(n2[w] == key && e2[w]);
        lemma_view_at(names, adj, entries, w);
        lemma_view_at(n2, a2, e2, w);
        assert(a2[w] == adj[w]);
        assert(adj[w].map_values(|v: usize| n2[v as int]) =~= adj[w].map_values(|v: usize| names[v as int]));
    }
    assert(g1 =~= g2);
}

/// Replacing the row of node `u` and giving it an entry inserts into the map.
proof fn lemma_set_row_view(names: Seq<Seq<char>>, adj: Seq<Seq<usize>>, entries: Seq<bool>, u: int, row: Seq<usize>)
    requires
        names.len() == adj.len(),
        entries.len() == names.len(),
        0 <= u < names.len(),
        all_distinct(names),
    ensures
        graph_view(names, adj.update(u, row), entries.update(u, true))
            == graph_view(names, adj, entries).insert(names[u], row_targets(names, row)),
{
    let a2 = adj.update(u, row);
    let e2 = entries.update(u, true);
    let g0 = graph_view(names, adj, entries);
    let g1 = g0.insert(names[u], row_targets(names, row));
    let g2 = graph_view(names, a2, e2);
    assert forall|key: Seq<char>| g2.dom().contains(key) <==> g1.dom().contains(key) by {
        if has_entry_named(names, e2, key) {
            let w = choose|w: int| 0 <= w < names.len() && names[w] == key && e2[w];
            if w != u {
                assert(names[w] == key && entries[w]);
                assert(has_entry_named(names, entries, key));
            }
        }
        if has_entry_named(names, entries, key) {
            let w = choose|w: int| 0 <= w < names.len() && names[w] == key && entries[w];
            assert(names[w] == key && e2[w]);
        }
        if key == names[u] {
            assert(names[u] == key && e2[u]);
        }
    }
    assert(g1.dom() =~= g2.dom());
    assert forall|key: Seq<char>| #[trigger] g1.dom().contains(key) implies g1[key] == g2[key] by {
        if key == names[u] {
            lemma_view_at(names, a2, e2, u);
            assert(a2[u] == row);
        } else {
            assert(g0.dom().contains(key));
            assert(has_entry_named(names, entries, key));
            let w = choose|w: int| 0 <= w < names.len() && names[w] == key && entries[w];
            assert(w != u);
            lemma_view_at(names, adj, entries, w);
            lemma_view_at(names, a2, e2, w);
            assert(a2[w] == adj[w]);
        }
    }
    assert(g1 =~= g2);
}

/// A node with an entry is a key of the map, and maps to the targets of its row.
pub proof fn lemma_view_at(names: Seq<Seq<char>>, adj: Seq<Seq<usize>>, entries: Seq<bool>, w: int)
    requires
        all_distinct(names),
        entries.len() == names.len(),
        0 <= w < names.len(),
        entries[w],
    ensures
        graph_view(names, adj, entries).contains_key(names[w]),
        graph_view(names, adj, entries)[names[w]] == row_targets(names, adj[w]),
{
    let fk = |k: Seq<char>| has_entry_named(names, entries, k);
    assert(has_entry_named(names, entries, names[w]));
    assert(Set::new(fk).contains(names[w]));
    lemma_position_unique(names, names[w], w);
    assert(position_of(names, names[w])->0 == w);
}

/// In a sequence without repeats, the position of an element is where it stands.
pub proof fn lemma_position_unique(names: Seq<Seq<char>>, k: Seq<char>, w: int)
    requires
        all_distinct(names),
        0 <= w < names.len(),
        names[w] == k,
    ensures
        position_of(names, k) == Some(w),
{
}


/// What `UrlGraph::get` reads back after `UrlGraph::insert` wrote: the set of
/// links written for that page; the entries of other pages are as before.
pub proof fn law_insert_then_get(before: Map<Seq<char>, Set<Seq<char>>>, page: Seq<char>, links: Set<Seq<char>>, other: Seq<char>)
    ensures
        before.insert(page, links).contains_key(page),
        before.insert(page, links)[page] == links,
        other != page ==> (before.insert(page, links).contains_key(other) == before.contains_key(other)),
        other != page && before.contains_key(other) ==> before.insert(page, links)[other] == before[other],
{
}

} // verus!
