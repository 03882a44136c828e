//! Paths between pages of the link graph: a breadth-first search that finds
//! a shortest path, and a search from both ends at once.

use crate::graph_search::{is_path, reachable, step_ok, is_edge, shortest_path_search, bidirectional_search, table_view};
use crate::name_index::{all_distinct, position_of};
use crate::url_graph::{UrlGraph, row_targets, graph_view, lemma_view_at, has_entry_named, lemma_position_unique};
use crate::web_url::WebUrl;
use vstd::prelude::*;
use vstd::string::*;

verus! {

/// The step from page `i` of `p` to page `i + 1` follows a link of `g`.
pub open spec fn link_step(g: Map<Seq<char>, Set<Seq<char>>>, p: Seq<Seq<char>>, i: int) -> bool {
    g.contains_key(p[i]) && g[p[i]].contains(p[i + 1])
}

/// `p` is a chain of links in `g` from page `s` to page `t`. A chain of one
/// page has no links.
pub open spec fn is_link_path(g: Map<Seq<char>, Set<Seq<char>>>, p: Seq<Seq<char>>, s: Seq<char>, t: Seq<char>) -> bool {
    &&& p.len() >= 1
    &&& p[0] == s
    &&& p.last() == t
    &&& forall|i: int| 0 <= i < p.len() - 1 ==> #[trigger] link_step(g, p, i)
}

/// Some chain of links in `g` leads from `s` to `t`.
pub open spec fn links_reachable(g: Map<Seq<char>, Set<Seq<char>>>, s: Seq<char>, t: Seq<char>) -> bool {
    exists|p: Seq<Seq<char>>| #[trigger] is_link_path(g, p, s, t)
}

/// The serialisations of a sequence of URLs.
pub open spec fn url_names(p: Seq<WebUrl>) -> Seq<Seq<char>> {
    p.map_values(|u: WebUrl| u@.0)
}

/// The page names along a path of node numbers.
pub open spec fn node_names(names: Seq<Seq<char>>, q: Seq<usize>) -> Seq<Seq<char>> {
    q.map_values(|v: usize| names[v as int])
}

/// An edge between nodes is a link between their pages.
proof fn lemma_edge_is_link(graph: &UrlGraph, u: usize, v: usize)
    requires
        graph.wf(),
        is_edge(graph.adjacency(), u, v),
    ensures
        v < graph.names().len(),
        graph@.contains_key(graph.names()[u as int]),
        graph@[graph.names()[u as int]].contains(graph.names()[v as int]),
{
    graph.lemma_wf();
    let names = graph.names();
    let row = graph.adjacency()[u as int];
    let k = choose|k: int| 0 <= k < row.len() && row[k] == v;
    assert(row.len() > 0);
    assert(graph.entries()[u as int]);
    lemma_view_at(names, graph.adjacency(), graph.entries(), u as int);
    assert(row.map_values(|x: usize| names[x as int])[k] == names[v as int]);
    assert(row_targets(names, row).contains(names[v as int]));
}

/// A link from the page of node `u` leads to the page of some node that `u` has an edge to.
proof fn lemma_link_is_edge(graph: &UrlGraph, u: usize, t: Seq<char>) -> (v: usize)
    requires
        graph.wf(),
        u < graph.names().len(),
        graph@.contains_key(graph.names()[u as int]),
        graph@[graph.names()[u as int]].contains(t),
    ensures
        v < graph.names().len(),
        graph.names()[v as int] == t,
        is_edge(graph.adjacency(), u, v),
{
    graph.lemma_wf();
    let names = graph.names();
    let adj = graph.adjacency();
    let entries = graph.entries();
    let key = names[u as int];
    assert(has_entry_named(names, entries, key));
    let w = choose|w: int| 0 <= w < names.len() && names[w] == key && entries[w];
    assert(w == u as int);
    lemma_view_at(names, adj, entries, u as int);
    let row = adj[u as int];
    let mapped = row.map_values(|x: usize| names[x as int]);
    assert(mapped.contains(t));
    let k = choose|k: int| 0 <= k < mapped.len() && mapped[k] == t;
    let v = row[k];
    assert(row.contains(v));
    v
}

/// A path of nodes is a chain of links between their pages.
proof fn lemma_node_path_is_link_path(graph: &UrlGraph, q: Seq<usize>, i: usize, j: usize)
    requires
        graph.wf(),
        i < graph.names().len(),
        is_path(graph.adjacency(), q, i, j),
    ensures
        is_link_path(graph@, node_names(graph.names(), q), graph.names()[i as int], graph.names()[j as int]),
{
    let names = graph.names();
    let p = node_names(names, q);
    assert forall|k: int| 0 <= k < p.len() - 1 implies #[trigger] link_step(graph@, p, k) by {
        assert(step_ok(graph.adjacency(), q, k));
        lemma_edge_is_link(graph, q[k], q[k + 1]);
    }
}

/// A chain of links from the page of node `i` is the image of a path of nodes of the same length.
proof fn lemma_link_path_to_nodes(graph: &UrlGraph, p: Seq<Seq<char>>, i: usize, t: Seq<char>) -> (q: Seq<usize>)
    requires
        graph.wf(),
        i < graph.names().len(),
        is_link_path(graph@, p, graph.names()[i as int], t),
    ensures
        q.len() == p.len(),
        q.last() < graph.names().len(),
        graph.names()[q.last() as int] == t,
        is_path(graph.adjacency(), q, i, q.last()),
    decreases p.len(),
{
    if p.len() == 1 {
        let q = seq![i];
        assert(is_path(graph.adjacency(), q, i, i)) by {
            assert(q.last() == i);
        }
        q
    } else {
        let p0 = p.drop_last();
        let u_name = p[p.len() - 2];
        assert forall|k: int| 0 <= k < p0.len() - 1 implies #[trigger] link_step(graph@, p0, k) by {
            assert(link_step(graph@, p, k));
        }
        let q0 = lemma_link_path_to_nodes(graph, p0, i, u_name);
        let u = q0.last();
        assert(link_step(graph@, p, p.len() - 2));
        let v = lemma_link_is_edge(graph, u, t);
        crate::graph_search::lemma_path_extend(graph.adjacency(), q0, i, u, v);
        q0.push(v)
    }
}

/// The URLs of the nodes along a path.
fn urls_of_path(graph: &UrlGraph, q: &Vec<usize>) -> (r: Vec<WebUrl>)
    requires
        graph.wf(),
        forall|k: int| 0 <= k < q@.len() ==> #[trigger] q@[k] < graph.names().len(),
    ensures
        url_names(r@) == node_names(graph.names(), q@),
        forall|k: int| 0 <= k < r@.len() ==> #[trigger] r@[k]@ == graph.url_of(r@[k]@.0),
{
    let mut r: Vec<WebUrl> = Vec::new();
    let mut k: usize = 0;
    while k < q.len()
        invariant
            graph.wf(),
            forall|m: int| 0 <= m < q@.len() ==> #[trigger] q@[m] < graph.names().len(),
            k <= q@.len(),
            url_names(r@) == node_names(graph.names(), q@.subrange(0, k as int)),
            forall|m: int| 0 <= m < r@.len() ==> #[trigger] r@[m]@ == graph.url_of(r@[m]@.0),
        decreases q@.len() - k,
    {
        let u = graph.url_at(q[k]);
        proof {
            graph.lemma_wf();
            lemma_position_unique(graph.names(), graph.names()[q@[k as int] as int], q@[k as int] as int);
        }
        let ghost before = r@;
        r.push(u);
        proof {
            assert forall|m: int| 0 <= m < r@.len() implies #[trigger] r@[m]@ == graph.url_of(r@[m]@.0) by {
                if m < before.len() {
                    assert(r@[m] == before[m]);
                }
            }
            assert(r@ == before.push(u));
            assert(url_names(r@) =~= url_names(before).push(u@.0));
            assert(node_names(graph.names(), q@.subrange(0, k + 1)) =~= node_names(graph.names(), q@.subrange(0, k as int)).push(graph.names()[q@[k as int] as int]));
        }
        k = k + 1;
    }
    assert(q@.subrange(0, q@.len() as int) =~= q@);
    r
}

/// Every node along a path is a node of the graph.
proof fn lemma_path_in_range(graph: &UrlGraph, q: Seq<usize>, i: usize, j: usize)
    requires
        graph.wf(),
        i < graph.names().len(),
        is_path(graph.adjacency(), q, i, j),
    ensures
        forall|k: int| 0 <= k < q.len() ==> #[trigger] q[k] < graph.names().len(),
{
    assert forall|k: int| 0 <= k < q.len() implies #[trigger] q[k] < graph.names().len() by {
        if k > 0 {
            assert(step_ok(graph.adjacency(), q, k - 1));
            lemma_edge_is_link(graph, q[k - 1], q[k]);
        }
    }
}

/// A chain of links from a page to another page starts at a page with an
/// entry and ends at a page that the graph has met.
proof fn lemma_link_path_ends(graph: &UrlGraph, p: Seq<Seq<char>>, s: Seq<char>, t: Seq<char>)
    requires
        graph.wf(),
        is_link_path(graph@, p, s, t),
        s != t,
    ensures
        graph@.contains_key(s),
        position_of(graph.names(), s) is Some,
        position_of(graph.names(), t) is Some,
{
    graph.lemma_wf();
    let names = graph.names();
    assert(p.len() >= 2);
    assert(link_step(graph@, p, 0));
    assert(has_entry_named(names, graph.entries(), s));
    let w = choose|w: int| 0 <= w < names.len() && names[w] == s && graph.entries()[w];
    lemma_position_unique(names, s, w);
    let q = lemma_link_path_to_nodes(graph, p, w as usize, t);
    lemma_position_unique(names, t, q.last() as int);
}

/// Whether a single page is a chain of links from itself to itself.
proof fn lemma_single_page(g: Map<Seq<char>, Set<Seq<char>>>, s: Seq<char>)
    ensures
        is_link_path(g, seq![s], s, s),
        links_reachable(g, s, s),
{
    assert(seq![s].last() == s);
    assert(is_link_path(g, seq![s], s, s));
}

/// Finds a shortest chain of links from `start` to `target` by breadth-first
/// search: `None` exactly when no chain leads there.
pub fn find_shortest_path_bfs(start: &WebUrl, target: &WebUrl, graph: &UrlGraph) -> (r: Option<Vec<WebUrl>>)
    requires
        graph.wf(),
    ensures
        r is Some <==> links_reachable(graph@, start@.0, target@.0),
        start@.0 == target@.0 ==> (r matches Some(p) && p@.len() == 1 && p@[0]@ == start@),
        r matches Some(p) ==> is_link_path(graph@, url_names(p@), start@.0, target@.0),
        start@.0 != target@.0 ==> (r matches Some(p) ==> forall|k: int| 0 <= k < p@.len() ==> #[trigger] p@[k]@ == graph.url_of(p@[k]@.0)),
        r matches Some(p) ==> forall|q: Seq<Seq<char>>| #[trigger] is_link_path(graph@, q, start@.0, target@.0) ==> p@.len() <= q.len(),
{
    if start.same_as(target) {
        proof { lemma_single_page(graph@, start@.0); }
        let mut path: Vec<WebUrl> = Vec::new();
        path.push(start.duplicate());
        proof {
            assert(url_names(path@) =~= seq![start@.0]);
            assert forall|q: Seq<Seq<char>>| #[trigger] is_link_path(graph@, q, start@.0, target@.0) implies path@.len() <= q.len() by {}
        }
        return Some(path);
    }
    if !graph.contains_key(start) {
        proof {
            if links_reachable(graph@, start@.0, target@.0) {
                let p = choose|p: Seq<Seq<char>>| #[trigger] is_link_path(graph@, p, start@.0, target@.0);
                lemma_link_path_ends(graph, p, start@.0, target@.0);
            }
        }
        return None;
    }
    let s = graph.node_of(start).unwrap();
    let t = match graph.node_of(target) {
        Some(t) => t,
        None => {
            proof {
                if links_reachable(graph@, start@.0, target@.0) {
                    let p = choose|p: Seq<Seq<char>>| #[trigger] is_link_path(graph@, p, start@.0, target@.0);
                    lemma_link_path_ends(graph, p, start@.0, target@.0);
                }
            }
            return None;
        },
    };
    let adj = graph.adjacency_table();
    proof { graph.lemma_wf(); }
    let found = shortest_path_search(adj, s, t);
    match found {
        None => {
            proof {
                if links_reachable(graph@, start@.0, target@.0) {
                    let p = choose|p: Seq<Seq<char>>| #[trigger] is_link_path(graph@, p, start@.0, target@.0);
                    let q = lemma_link_path_to_nodes(graph, p, s, target@.0);
                    lemma_position_unique(graph.names(), target@.0, q.last() as int);
                    assert(reachable(graph.adjacency(), s, t));
                }
            }
            None
        },
        Some(q) => {
            proof {
                lemma_path_in_range(graph, q@, s, t);
                lemma_node_path_is_link_path(graph, q@, s, t);
            }
            let path = urls_of_path(graph, &q);
            proof {
                assert forall|p: Seq<Seq<char>>| #[trigger] is_link_path(graph@, p, start@.0, target@.0) implies path@.len() <= p.len() by {
                    let q2 = lemma_link_path_to_nodes(graph, p, s, target@.0);
                    lemma_position_unique(graph.names(), target@.0, q2.last() as int);
                    assert(is_path(table_view(adj@), q2, s, t));
                    assert(url_names(path@).len() == path@.len());
                }
                assert(links_reachable(graph@, start@.0, target@.0)) by {
                    assert(is_link_path(graph@, url_names(path@), start@.0, target@.0));
                }
            }
            Some(path)
        },
    }
}

/// Finds a chain of links from `start` to `target` by searching forwards
/// from `start` and backwards from `target` in turn until the two searches
/// meet: `None` exactly when no chain leads there.
pub fn find_shortest_path_bidirectional_bfs(start: &WebUrl, target: &WebUrl, graph: &UrlGraph) -> (r: Option<Vec<WebUrl>>)
    requires
        graph.wf(),
    ensures
        r is Some <==> links_reachable(graph@, start@.0, target@.0),
        start@.0 == target@.0 ==> (r matches Some(p) && p@.len() == 1 && p@[0]@ == start@),
        r matches Some(p) ==> is_link_path(graph@, url_names(p@), start@.0, target@.0),
        start@.0 != target@.0 ==> (r matches Some(p) ==> forall|k: int| 0 <= k < p@.len() ==> #[trigger] p@[k]@ == graph.url_of(p@[k]@.0)),
{
    if start.same_as(target) {
        proof { lemma_single_page(graph@, start@.0); }
        let mut path: Vec<WebUrl> = Vec::new();
        path.push(start.duplicate());
        proof {
            assert(url_names(path@) =~= seq![start@.0]);
        }
        return Some(path);
    }
    if !graph.contains_key(start) {
        proof {
            if links_reachable(graph@, start@.0, target@.0) {
                let p = choose|p: Seq<Seq<char>>| #[trigger] is_link_path(graph@, p, start@.0, target@.0);
                lemma_link_path_ends(graph, p, start@.0, target@.0);
            }
        }
        return None;
    }
    let s = graph.node_of(start).unwrap();
    let t = match graph.node_of(target) {
        Some(t) => t,
        None => {
            proof {
                if links_reachable(graph@, start@.0, target@.0) {
                    let p = choose|p: Seq<Seq<char>>| #[trigger] is_link_path(graph@, p, start@.0, target@.0);
                    lemma_link_path_ends(graph, p, start@.0, target@.0);
                }
            }
            return None;
        },
    };
    let adj = graph.adjacency_table();
    proof { graph.lemma_wf(); }
    match bidirectional_search(adj, s, t) {
        None => {
            proof {
                if links_reachable(graph@, start@.0, target@.0) {
                    let p = choose|p: Seq<Seq<char>>| #[trigger] is_link_path(graph@, p, start@.0, target@.0);
                    let q = lemma_link_path_to_nodes(graph, p, s, target@.0);
                    lemma_position_unique(graph.names(), target@.0, q.last() as int);
                    assert(reachable(graph.adjacency(), s, t));
                }
            }
            None
        },
        Some(q) => {
            proof {
                lemma_path_in_range(graph, q@, s, t);
                lemma_node_path_is_link_path(graph, q@, s, t);
            }
            let path = urls_of_path(graph, &q);
            proof {
                assert(links_reachable(graph@, start@.0, target@.0)) by {
                    assert(is_link_path(graph@, url_names(path@), start@.0, target@.0));
                }
            }
            Some(path)
        },
    }
}


/// The decimal digit `d`.
pub open spec fn digit_char(d: nat) -> char {
    (d + 48) as char
}

/// The decimal numeral of `n`.
pub open spec fn spec_decimal(n: nat) -> Seq<char>
    decreases n,
{
    if n < 10 {
        seq![digit_char(n)]
    } else {
        spec_decimal(n / 10) + seq![digit_char(n % 10)]
    }
}

/// The numeral of the digit `d`.
fn digit_str(d: usize) -> (r: &'static str)
    requires
        d < 10,
    ensures
        r@ == seq![digit_char(d as nat)],
{
    proof {
        reveal_strlit("0");
        reveal_strlit("1");
        reveal_strlit("2");
        reveal_strlit("3");
        reveal_strlit("4");
        reveal_strlit("5");
        reveal_strlit("6");
        reveal_strlit("7");
        reveal_strlit("8");
        reveal_strlit("9");
    }
    let r = match d {
        0 => "0",
        1 => "1",
        2 => "2",
        3 => "3",
        4 => "4",
        5 => "5",
        6 => "6",
        7 => "7",
        8 => "8",
        _ => "9",
    };
    assert(r@ =~= seq![digit_char(d as nat)]);
    r
}

/// The decimal numeral of `n`.
pub fn decimal(n: usize) -> (r: String)
    ensures
        r@ == spec_decimal(n as nat),
    decreases n,
{
    if n < 10 {
        digit_str(n).to_string()
    } else {
        let mut r = decimal(n / 10);
        r.append(digit_str(n % 10));
        r
    }
}

/// The line that shows page `i` of a path of `len` pages whose URL is serialised as `url`.
pub open spec fn spec_path_line(i: nat, len: nat, url: Seq<char>) -> Seq<char> {
    if i == 0 {
        "  START: "@ + url
    } else if i == len - 1 {
        "  END:   "@ + url
    } else {
        "  "@ + spec_decimal(i) + ":     "@ + url
    }
}

/// The lines that show a path: a heading with its number of steps, then
/// each page, the first marked START and the last END.
pub fn path_lines(path: &Vec<WebUrl>) -> (r: Vec<String>)
    requires
        path@.len() >= 1,
    ensures
        r@.len() == path@.len() + 1,
        r@[0]@ == "Shortest path ("@ + spec_decimal((path@.len() - 1) as nat) + " steps):"@,
        forall|i: int| 0 <= i < path@.len() ==> (#[trigger] r@[i + 1])@ == spec_path_line(i as nat, path@.len(), path@[i]@.0),
        r@[1]@ == "  START: "@ + path@[0]@.0,
        path@.len() >= 2 ==> r@[path@.len() as int]@ == "  END:   "@ + path@[path@.len() - 1]@.0,
        forall|i: int| 0 < i < path@.len() - 1 ==> (#[trigger] r@[i + 1])@ == "  "@ + spec_decimal(i as nat) + ":     "@ + path@[i]@.0,
{
    let mut lines: Vec<String> = Vec::new();
    let mut head = "Shortest path (".to_string();
    head.append(decimal(path.len() - 1).as_str());
    head.append(" steps):");
    lines.push(head);
    let mut i: usize = 0;
    while i < path.len()
        invariant
            i <= path@.len(),
            path@.len() >= 1,
            lines@.len() == i + 1,
            lines@[0]@ == "Shortest path ("@ + spec_decimal((path@.len() - 1) as nat) + " steps):"@,
            forall|k: int| 0 <= k < i ==> (#[trigger] lines@[k + 1])@ == spec_path_line(k as nat, path@.len(), path@[k]@.0),
        decreases path@.len() - i,
    {
        let line = if i == 0 {
            let mut l = "  START: ".to_string();
            l.append(path[i].as_str());
            l
        } else if i == path.len() - 1 {
            let mut l = "  END:   ".to_string();
            l.append(path[i].as_str());
            l
        } else {
            let mut l = "  ".to_string();
            l.append(decimal(i).as_str());
            l.append(":     ");
            l.append(path[i].as_str());
            l
        };
        let ghost before = lines@;
        lines.push(line);
        proof {
            assert forall|k: int| 0 <= k < i + 1 implies (#[trigger] lines@[k + 1])@ == spec_path_line(k as nat, path@.len(), path@[k]@.0) by {
                if k < i {
                    assert(lines@[k + 1] == before[k + 1]);
                }
            }
        }
        i = i + 1;
    }
    proof {
        let last = path@.len() - 1;
        assert((lines@[last + 1])@ == spec_path_line(last as nat, path@.len(), path@[last]@.0));
    }
    lines
}


/// Chains of links compose: if the search finds a chain from `s` to `m`
/// and one from `m` to `t`, it finds one from `s` to `t`.
pub proof fn law_reachability_composes(g: Map<Seq<char>, Set<Seq<char>>>, s: Seq<char>, m: Seq<char>, t: Seq<char>)
    requires
        links_reachable(g, s, m),
        links_reachable(g, m, t),
    ensures
        links_reachable(g, s, t),
{
    let p = choose|p: Seq<Seq<char>>| #[trigger] is_link_path(g, p, s, m);
    let q = choose|q: Seq<Seq<char>>| #[trigger] is_link_path(g, q, m, t);
    let r = p + q.drop_first();
    assert forall|i: int| 0 <= i < r.len() - 1 implies #[trigger] link_step(g, r, i) by {
        if i < p.len() - 1 {
            assert(link_step(g, p, i));
            assert(r[i] == p[i] && r[i + 1] == p[i + 1]);
        } else {
            let k = i - (p.len() - 1);
            assert(link_step(g, q, k));
            if i == p.len() - 1 {
                assert(r[i] == p.last());
                assert(q[0] == m);
            } else {
                assert(r[i] == q[k]);
            }
            assert(r[i + 1] == q[k + 1]);
        }
    }
    if q.len() == 1 {
        assert(r =~= p);
    } else {
        assert(r.last() == q.last());
    }
    assert(is_link_path(g, r, s, t));
}

/// The breadth-first search finds a chain no longer than the one the search
/// from both ends finds: both find one for the same pairs of pages, and the
/// first finds a shortest one.
pub proof fn law_bfs_not_longer(g: Map<Seq<char>, Set<Seq<char>>>, s: Seq<char>, t: Seq<char>, bfs: Seq<Seq<char>>, both_ends: Seq<Seq<char>>)
    requires
        is_link_path(g, both_ends, s, t),
        forall|q: Seq<Seq<char>>| #[trigger] is_link_path(g, q, s, t) ==> bfs.len() <= q.len(),
    ensures
        bfs.len() <= both_ends.len(),
{
}

/// The lines of a path number its pages by position: the first is START,
/// the last END, and page `i` in between is shown as `i`, so the numbers on
/// the lines between increase 1, 2, ... along the path.
pub proof fn law_path_line_numbers(i: nat, len: nat, url: Seq<char>)
    requires
        i < len,
    ensures
        i == 0 ==> spec_path_line(i, len, url) == "  START: "@ + url,
        0 < i && i == len - 1 ==> spec_path_line(i, len, url) == "  END:   "@ + url,
        0 < i < len - 1 ==> spec_path_line(i, len, url) == "  "@ + spec_decimal(i) + ":     "@ + url,
{
}

/// The number that a string of decimal digits stands for.
pub open spec fn numeral_value(s: Seq<char>) -> int
    decreases s.len(),
{
    if s.len() == 0 { 0 } else { numeral_value(s.drop_last()) * 10 + (s.last() as int - 48) }
}

/// The decimal numeral of `n` is made of digits, stands for `n`, and has no
/// leading zero (but for `0` itself).
pub proof fn law_decimal_numeral(n: nat)
    ensures
        spec_decimal(n).len() >= 1,
        forall|k: int| 0 <= k < spec_decimal(n).len() ==> '0' <= #[trigger] spec_decimal(n)[k] <= '9',
        numeral_value(spec_decimal(n)) == n,
        n > 0 ==> spec_decimal(n)[0] != '0',
    decreases n,
{
    if n < 10 {
        assert(digit_char(n) as int == n + 48);
        assert(spec_decimal(n).drop_last() =~= Seq::<char>::empty());
        assert(numeral_value(Seq::<char>::empty()) == 0);
        assert(numeral_value(spec_decimal(n)) == numeral_value(spec_decimal(n).drop_last()) * 10 + (spec_decimal(n).last() as int - 48));
    } else {
        law_decimal_numeral(n / 10);
        let d = (n % 10) as nat;
        let s = spec_decimal(n);
        assert(s == spec_decimal(n / 10) + seq![digit_char(d)]);
        assert(digit_char(d) as int == d + 48);
        assert(s.drop_last() =~= spec_decimal(n / 10));
        assert(s.last() == digit_char(d));
        assert(n == (n / 10) * 10 + d) by (nonlinear_arith)
            requires d == n % 10, n >= 10;
        assert forall|k: int| 0 <= k < s.len() implies '0' <= #[trigger] s[k] <= '9' by {
            if k < s.len() - 1 {
                assert(s[k] == spec_decimal(n / 10)[k]);
            }
        }
        assert(s[0] == spec_decimal(n / 10)[0]);
        assert(numeral_value(s) == numeral_value(s.drop_last()) * 10 + (s.last() as int - 48));
    }
}

} // verus!
