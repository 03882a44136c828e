//! Searches on a graph given by adjacency lists of node numbers: the
//! notions of edge, path and reachability, and one step of a breadth-first
//! search that stops when it reaches a node that another search has seen.

use std::collections::VecDeque;
use vstd::prelude::*;

verus! {

/// The adjacency lists of a table of rows.
pub open spec fn table_view(t: Seq<Vec<usize>>) -> Seq<Seq<usize>> {
    t.map_values(|r: Vec<usize>| r@)
}

/// Every successor named in `adj` is a node of `adj`.
pub open spec fn adj_wf(adj: Seq<Seq<usize>>) -> bool {
    forall|u: int, j: int| 0 <= u < adj.len() && 0 <= j < adj[u].len() ==> #[trigger] adj[u][j] < adj.len()
}

/// There is an edge from `u` to `v`.
pub open spec fn is_edge(adj: Seq<Seq<usize>>, u: usize, v: usize) -> bool {
    u < adj.len() && adj[u as int].contains(v)
}

/// The step from position `i` of `p` to position `i + 1` is an edge.
pub open spec fn step_ok(adj: Seq<Seq<usize>>, p: Seq<usize>, i: int) -> bool {
    is_edge(adj, p[i], p[i + 1])
}

/// `p` is a path from `s` to `t`: it starts at `s`, ends at `t`, and each
/// step follows an edge. A path of one node has no steps.
pub open spec fn is_path(adj: Seq<Seq<usize>>, p: Seq<usize>, s: usize, t: usize) -> bool {
    &&& p.len() >= 1
    &&& p[0] == s
    &&& p.last() == t
    &&& forall|i: int| 0 <= i < p.len() - 1 ==> #[trigger] step_ok(adj, p, i)
}

/// Some path leads from `s` to `t`.
pub open spec fn reachable(adj: Seq<Seq<usize>>, s: usize, t: usize) -> bool {
    exists|p: Seq<usize>| #[trigger] is_path(adj, p, s, t)
}

/// `rev` has an edge from `v` to `u` exactly when `adj` has one from `u` to `v`.
pub open spec fn is_reverse(adj: Seq<Seq<usize>>, rev: Seq<Seq<usize>>) -> bool {
    &&& rev.len() == adj.len()
    &&& forall|u: usize, v: usize| u < adj.len() && v < adj.len() ==> (#[trigger] is_edge(rev, v, u) <==> #[trigger] is_edge(adj, u, v))
}

/// The number of `false` entries.
pub open spec fn count_unvisited(v: Seq<bool>) -> nat
    decreases v.len(),
{
    if v.len() == 0 {
        0
    } else {
        count_unvisited(v.drop_last()) + if v.last() { 0nat } else { 1nat }
    }
}

pub proof fn lemma_count_mark(v: Seq<bool>, i: int)
    requires
        0 <= i < v.len(),
        !v[i],
    ensures
        count_unvisited(v.update(i, true)) + 1 == count_unvisited(v),
    decreases v.len(),
{
    let w = v.update(i, true);
    if i == v.len() - 1 {
        assert(w.drop_last() =~= v.drop_last());
    } else {
        assert(w.drop_last() =~= v.drop_last().update(i, true));
        lemma_count_mark(v.drop_last(), i);
    }
}

/// Each node other than the root that a search has seen records the node it
/// was reached from; that node was seen, has an edge to it, and is one
/// step nearer the root.
pub open spec fn chain_link(adj: Seq<Seq<usize>>, parent: Seq<Option<usize>>, visited: Seq<bool>, dist: Seq<nat>, v: usize) -> bool {
    &&& parent[v as int] is Some
    &&& parent[v as int]->0 < adj.len()
    &&& visited[parent[v as int]->0 as int]
    &&& is_edge(adj, parent[v as int]->0, v)
    &&& dist[v as int] == dist[parent[v as int]->0 as int] + 1
}

/// The bookkeeping of a breadth-first search from `root`.
pub open spec fn search_ok(
    adj: Seq<Seq<usize>>,
    root: usize,
    visited: Seq<bool>,
    parent: Seq<Option<usize>>,
    queue: Seq<usize>,
    dist: Seq<nat>,
) -> bool {
    &&& visited.len() == adj.len()
    &&& parent.len() == adj.len()
    &&& dist.len() == adj.len()
    &&& root < adj.len()
    &&& visited[root as int]
    &&& parent[root as int] is None
    &&& dist[root as int] == 0
    &&& forall|v: usize| v < adj.len() && #[trigger] visited[v as int] && v != root ==> chain_link(adj, parent, visited, dist, v)
    &&& forall|i: int| 0 <= i < queue.len() ==> #[trigger] queue[i] < adj.len() && visited[queue[i] as int]
}

/// Every node that the search has seen and no longer holds in its queue has
/// had all its successors seen.
pub open spec fn expanded_closed(adj: Seq<Seq<usize>>, visited: Seq<bool>, queue: Seq<usize>) -> bool {
    forall|v: usize, w: usize| #![trigger is_edge(adj, v, w)]
        v < adj.len() && visited[v as int] && !queue.contains(v) && is_edge(adj, v, w) ==> visited[w as int]
}

/// No node has been seen by both searches.
pub open spec fn disjoint_seen(a: Seq<bool>, b: Seq<bool>) -> bool {
    forall|v: int| 0 <= v < a.len() ==> !(#[trigger] a[v] && b[v])
}

/// The measure that each step of a search decreases.
pub open spec fn search_measure(visited: Seq<bool>, queue: Seq<usize>) -> nat {
    2 * count_unvisited(visited) + queue.len()
}

pub proof fn lemma_path_extend(adj: Seq<Seq<usize>>, p: Seq<usize>, s: usize, u: usize, v: usize)
    requires
        is_path(adj, p, s, u),
        is_edge(adj, u, v),
    ensures
        is_path(adj, p.push(v), s, v),
{
    let q = p.push(v);
    assert forall|i: int| 0 <= i < q.len() - 1 implies #[trigger] step_ok(adj, q, i) by {
        if i < p.len() - 1 {
            assert(step_ok(adj, p, i));
        }
    }
}

pub proof fn lemma_path_prefix(adj: Seq<Seq<usize>>, p: Seq<usize>, s: usize, t: usize)
    requires
        is_path(adj, p, s, t),
        p.len() >= 2,
    ensures
        is_path(adj, p.drop_last(), s, p[p.len() - 2]),
        is_edge(adj, p[p.len() - 2], t),
{
    let q = p.drop_last();
    assert forall|i: int| 0 <= i < q.len() - 1 implies #[trigger] step_ok(adj, q, i) by {
        assert(step_ok(adj, p, i));
    }
    assert(step_ok(adj, p, p.len() - 2));
}

/// A set of nodes that holds `s` and is closed under edges holds every node
/// that `s` reaches.
pub proof fn lemma_closed_reaches(adj: Seq<Seq<usize>>, visited: Seq<bool>, p: Seq<usize>, s: usize, t: usize)
    requires
        adj_wf(adj),
        visited.len() == adj.len(),
        s < adj.len(),
        visited[s as int],
        expanded_closed(adj, visited, Seq::empty()),
        is_path(adj, p, s, t),
    ensures
        t < adj.len(),
        visited[t as int],
    decreases p.len(),
{
    if p.len() >= 2 {
        lemma_path_prefix(adj, p, s, t);
        let u = p[p.len() - 2];
        lemma_closed_reaches(adj, visited, p.drop_last(), s, u);
        assert(!Seq::<usize>::empty().contains(u));
        let j = choose|j: int| 0 <= j < adj[u as int].len() && adj[u as int][j] == t;
        assert(adj[u as int][j] < adj.len());
    }
}

/// A path read backwards is a path of the reverse graph.
pub proof fn lemma_reverse_path(adj: Seq<Seq<usize>>, rev: Seq<Seq<usize>>, p: Seq<usize>, s: usize, t: usize)
    requires
        adj_wf(adj),
        is_reverse(adj, rev),
        is_path(adj, p, s, t),
        s < adj.len(),
    ensures
        is_path(rev, p.reverse(), t, s),
{
    let q = p.reverse();
    assert forall|i: int| 0 <= i < p.len() implies #[trigger] p[i] < adj.len() by {
        if i > 0 {
            assert(step_ok(adj, p, i - 1));
            let a = p[i - 1];
            let j = choose|j: int| 0 <= j < adj[a as int].len() && adj[a as int][j] == p[i];
        }
    }
    assert forall|i: int| 0 <= i < q.len() - 1 implies #[trigger] step_ok(rev, q, i) by {
        let k = p.len() - 2 - i;
        assert(step_ok(adj, p, k));
        assert(q[i] == p[k + 1]);
        assert(q[i + 1] == p[k]);
        assert(p[k] < adj.len() && p[k + 1] < adj.len());
        assert(is_edge(adj, p[k], p[k + 1]));
    }
}

/// A vector of `n` copies of `false`.
pub fn all_false(n: usize) -> (r: Vec<bool>)
    ensures
        r@.len() == n,
        forall|i: int| 0 <= i < n ==> !r@[i],
{
    let mut r: Vec<bool> = Vec::new();
    let mut i: usize = 0;
    while i < n
        invariant
            i <= n,
            r@.len() == i,
            forall|j: int| 0 <= j < i ==> !r@[j],
        decreases n - i,
    {
        r.push(false);
        i = i + 1;
    }
    r
}

/// A vector of `n` copies of `None`.
pub fn all_none(n: usize) -> (r: Vec<Option<usize>>)
    ensures
        r@.len() == n,
        forall|i: int| 0 <= i < n ==> r@[i] is None,
{
    let mut r: Vec<Option<usize>> = Vec::new();
    let mut i: usize = 0;
    while i < n
        invariant
            i <= n,
            r@.len() == i,
            forall|j: int| 0 <= j < i ==> r@[j] is None,
        decreases n - i,
    {
        r.push(None);
        i = i + 1;
    }
    r
}

/// The outcome of looking at the successors in `row`, from position `j` on,
/// of the node `current` just taken from the queue: each successor not seen
/// yet is marked seen and recorded as reached from `current`; the first of
/// them that the other search has seen is the meeting point and ends the
/// step; the others join the end of the queue in the order of `row`.
/// The result is the meeting point, if any, and the new seen marks, parent
/// records and queue.
pub open spec fn expand_from(
    row: Seq<usize>,
    j: int,
    current: usize,
    other: Seq<bool>,
    visited: Seq<bool>,
    parent: Seq<Option<usize>>,
    queue: Seq<usize>,
) -> (Option<usize>, Seq<bool>, Seq<Option<usize>>, Seq<usize>)
    decreases row.len() - j,
{
    if j < 0 || j >= row.len() {
        (None, visited, parent, queue)
    } else {
        let v = row[j];
        if visited[v as int] {
            expand_from(row, j + 1, current, other, visited, parent, queue)
        } else {
            let seen = visited.update(v as int, true);
            let parents = parent.update(v as int, Some(current));
            if other[v as int] {
                (Some(v), seen, parents, queue)
            } else {
                expand_from(row, j + 1, current, other, seen, parents, queue.push(v))
            }
        }
    }
}

/// Node `v` stands in `row` at position `j` or later.
pub open spec fn in_row_from(row: Seq<usize>, j: int, v: int) -> bool {
    exists|k: int| j <= k < row.len() && #[trigger] row[k] as int == v
}

/// When looking at the successors finds no meeting point, the nodes seen
/// afterwards are those seen before and the successors looked at; each
/// successor not seen before records `current` as its parent, and every
/// other parent record stays.
pub proof fn lemma_expand_marks(
    row: Seq<usize>,
    j: int,
    current: usize,
    other: Seq<bool>,
    visited: Seq<bool>,
    parent: Seq<Option<usize>>,
    queue: Seq<usize>,
)
    requires
        0 <= j,
        parent.len() == visited.len(),
        forall|k: int| 0 <= k < row.len() ==> #[trigger] row[k] < visited.len(),
        expand_from(row, j, current, other, visited, parent, queue).0 is None,
    ensures
        ({
            let e = expand_from(row, j, current, other, visited, parent, queue);
            forall|v: int| 0 <= v < visited.len() ==> {
                &&& #[trigger] e.1[v] == (visited[v] || in_row_from(row, j, v))
                &&& e.2[v] == (if !visited[v] && in_row_from(row, j, v) { Some(current) } else { parent[v] })
            }
        }),
        expand_from(row, j, current, other, visited, parent, queue).1.len() == visited.len(),
        expand_from(row, j, current, other, visited, parent, queue).2.len() == visited.len(),
    decreases row.len() - j,
{
    if j >= row.len() {
        assert forall|v: int| 0 <= v < visited.len() implies !in_row_from(row, j, v) by {}
    } else {
        let v0 = row[j];
        assert forall|v: int| 0 <= v < visited.len() && v != v0 implies
            (in_row_from(row, j, v) <==> in_row_from(row, j + 1, v)) by {
            if in_row_from(row, j, v) {
                let k = choose|k: int| j <= k < row.len() && #[trigger] row[k] as int == v;
                assert(k != j);
            }
            if in_row_from(row, j + 1, v) {
                let k = choose|k: int| j + 1 <= k < row.len() && #[trigger] row[k] as int == v;
                assert(row[k] as int == v);
            }
        }
        assert(in_row_from(row, j, v0 as int)) by {
            assert(row[j] as int == v0 as int);
        }
        if visited[v0 as int] {
            lemma_expand_marks(row, j + 1, current, other, visited, parent, queue);
        } else {
            let seen = visited.update(v0 as int, true);
            let parents = parent.update(v0 as int, Some(current));
            assert(!other[v0 as int]);
            lemma_expand_marks(row, j + 1, current, other, seen, parents, queue.push(v0));
        }
    }
}

/// Induction for `law_breadth_first_step`, from position `j` of the row on:
/// the queue keeps `queue` in front, and what follows are nodes not seen
/// before, each once, in the order in which they stand in the row (the
/// positions `idx`), all seen afterwards; when no meeting point is found,
/// every newly seen node is among them.
proof fn lemma_expand_queue(
    row: Seq<usize>,
    j: int,
    current: usize,
    other: Seq<bool>,
    visited: Seq<bool>,
    parent: Seq<Option<usize>>,
    queue: Seq<usize>,
) -> (idx: Seq<int>)
    requires
        0 <= j,
        parent.len() == visited.len(),
        forall|k: int| 0 <= k < row.len() ==> #[trigger] row[k] < visited.len(),
    ensures
        ({
            let e = expand_from(row, j, current, other, visited, parent, queue);
            let t = e.3.skip(queue.len() as int);
            &&& e.1.len() == visited.len()
            &&& e.3.len() >= queue.len()
            &&& e.3.subrange(0, queue.len() as int) == queue
            &&& idx.len() == t.len()
            &&& forall|a: int| 0 <= a < t.len() ==> j <= #[trigger] idx[a] < row.len() && row[idx[a]] == t[a]
            &&& forall|a: int, b: int| 0 <= a < b < t.len() ==> #[trigger] idx[a] < #[trigger] idx[b]
            &&& forall|a: int| 0 <= a < t.len() ==> !visited[#[trigger] t[a] as int] && e.1[t[a] as int]
            &&& forall|a: int, b: int| 0 <= a < b < t.len() ==> #[trigger] t[a] != #[trigger] t[b]
            &&& forall|v: int| 0 <= v < visited.len() && visited[v] ==> #[trigger] e.1[v]
            &&& e.0 is None ==> forall|v: int| 0 <= v < visited.len() && !visited[v] && #[trigger] e.1[v] ==> t.contains(v as usize)
            &&& forall|a: int| 0 <= a < t.len() ==> !other[#[trigger] t[a] as int]
            &&& e.0 matches Some(m) ==> in_row_from(row, j, m as int) && m < visited.len() && !visited[m as int]
                && other[m as int] && e.1[m as int] && e.2[m as int] == Some(current)
        }),
    decreases row.len() - j,
{
    if j >= row.len() {
        let e = expand_from(row, j, current, other, visited, parent, queue);
        assert(e.3.skip(queue.len() as int).len() == 0);
        assert(e.3.subrange(0, queue.len() as int) =~= queue);
        Seq::empty()
    } else {
        let v0 = row[j];
        if visited[v0 as int] {
            let idx = lemma_expand_queue(row, j + 1, current, other, visited, parent, queue);
            idx
        } else {
            let seen = visited.update(v0 as int, true);
            let parents = parent.update(v0 as int, Some(current));
            if other[v0 as int] {
                let e = expand_from(row, j, current, other, visited, parent, queue);
                assert(e.3 == queue);
                assert(e.3.skip(queue.len() as int).len() == 0);
                assert(e.3.subrange(0, queue.len() as int) =~= queue);
                Seq::empty()
            } else {
                let q2 = queue.push(v0);
                let idx2 = lemma_expand_queue(row, j + 1, current, other, seen, parents, q2);
                let e = expand_from(row, j, current, other, visited, parent, queue);
                assert(e == expand_from(row, j + 1, current, other, seen, parents, q2));
                let t2 = e.3.skip(q2.len() as int);
                let t = e.3.skip(queue.len() as int);
                assert(e.3.subrange(0, q2.len() as int) == q2);
                assert(t =~= seq![v0] + t2) by {
                    assert(e.3[queue.len() as int] == q2[queue.len() as int]);
                }
                assert(e.3.subrange(0, queue.len() as int) =~= queue) by {
                    assert forall|i: int| 0 <= i < queue.len() implies e.3[i] == queue[i] by {
                        assert(e.3.subrange(0, q2.len() as int)[i] == q2[i]);
                    }
                }
                let idx = seq![j] + idx2;
                assert forall|a: int| 0 <= a < t.len() implies j <= #[trigger] idx[a] < row.len() && row[idx[a]] == t[a] by {
                    if a > 0 {
                        assert(idx[a] == idx2[a - 1] && t[a] == t2[a - 1]);
                    }
                }
                assert forall|a: int, b: int| 0 <= a < b < t.len() implies #[trigger] idx[a] < #[trigger] idx[b] by {
                    assert(idx[b] == idx2[b - 1]);
                    if a > 0 {
                        assert(idx[a] == idx2[a - 1]);
                    } else {
                        assert(j + 1 <= idx2[b - 1]);
                    }
                }
                assert forall|a: int| 0 <= a < t.len() implies !visited[#[trigger] t[a] as int] && e.1[t[a] as int] by {
                    if a > 0 {
                        assert(t[a] == t2[a - 1]);
                        assert(row[idx2[a - 1]] == t2[a - 1]);
                        assert(!seen[t2[a - 1] as int]);
                        assert(t2[a - 1] != v0);
                        assert(seen[t2[a - 1] as int] == visited[t2[a - 1] as int]);
                    } else {
                        assert(t[0] == v0);
                        assert(seen[v0 as int]);
                        assert(e.1[v0 as int]);
                    }
                }
                assert forall|a: int, b: int| 0 <= a < b < t.len() implies #[trigger] t[a] != #[trigger] t[b] by {
                    assert(t[b] == t2[b - 1]);
                    assert(row[idx2[b - 1]] == t2[b - 1]);
                    assert(!seen[t2[b - 1] as int]);
                    if a > 0 {
                        assert(t[a] == t2[a - 1]);
                    }
                }
                assert forall|v: int| 0 <= v < visited.len() && visited[v] implies #[trigger] e.1[v] by {
                    assert(seen[v]);
                }
                if e.0 is None {
                    assert forall|v: int| 0 <= v < visited.len() && !visited[v] && #[trigger] e.1[v] implies t.contains(v as usize) by {
                        if v == v0 as int {
                            assert(t[0] == v0);
                        } else {
                            assert(!seen[v]);
                            assert(t2.contains(v as usize));
                            let i = choose|i: int| 0 <= i < t2.len() && t2[i] == v as usize;
                            assert(t[i + 1] == v as usize);
                        }
                    }
                }
                idx
            }
        }
    }
}

/// Each side of the search is breadth-first. After looking at the
/// successors `row` of the node taken from the front of the queue, the queue
/// is the rest of the old queue `rest`, unchanged and in front, followed by
/// successors not seen before, each once and in the order in which they
/// stand in the row; when no meeting point is found, these are all the
/// successors not seen before. So new nodes join the back of the queue.
pub proof fn law_breadth_first_step(
    row: Seq<usize>,
    current: usize,
    other: Seq<bool>,
    visited: Seq<bool>,
    parent: Seq<Option<usize>>,
    rest: Seq<usize>,
)
    requires
        parent.len() == visited.len(),
        forall|k: int| 0 <= k < row.len() ==> #[trigger] row[k] < visited.len(),
    ensures
        ({
            let e = expand_from(row, 0, current, other, visited, parent, rest);
            let added = e.3.skip(rest.len() as int);
            &&& e.3.len() >= rest.len()
            &&& e.3.subrange(0, rest.len() as int) == rest
            &&& forall|a: int| 0 <= a < added.len() ==> !visited[#[trigger] added[a] as int] && row.contains(added[a])
            &&& forall|a: int, b: int| 0 <= a < b < added.len() ==> #[trigger] added[a] != #[trigger] added[b]
            &&& exists|idx: Seq<int>| idx.len() == added.len()
                && (forall|a: int| 0 <= a < added.len() ==> 0 <= #[trigger] idx[a] < row.len() && row[idx[a]] == added[a])
                && (forall|a: int, b: int| 0 <= a < b < added.len() ==> #[trigger] idx[a] < #[trigger] idx[b])
            &&& e.0 is None ==> forall|k: int| 0 <= k < row.len() && !visited[row[k] as int] ==> added.contains(#[trigger] row[k])
        }),
{
    let e = expand_from(row, 0, current, other, visited, parent, rest);
    let added = e.3.skip(rest.len() as int);
    let idx = lemma_expand_queue(row, 0, current, other, visited, parent, rest);
    assert forall|a: int| 0 <= a < added.len() implies !visited[#[trigger] added[a] as int] && row.contains(added[a]) by {
        assert(row[idx[a]] == added[a]);
    }
    if e.0 is None {
        lemma_expand_marks(row, 0, current, other, visited, parent, rest);
        assert forall|k: int| 0 <= k < row.len() && !visited[row[k] as int] implies added.contains(#[trigger] row[k]) by {
            assert(in_row_from(row, 0, row[k] as int));
            assert(e.1[row[k] as int]);
        }
    }
}

/// Takes the next node from the queue and looks at its successors. Each
/// successor not seen before is marked seen, recorded as reached from that
/// node, and, if the other search has already seen it, returned as the
/// meeting point; otherwise it joins the queue. With an empty queue nothing
/// changes and no meeting point is returned.
///
/// When the marks, parent records and queue are those of a breadth-first
/// search from `root` (with the distances `dist`), the step keeps them so,
/// with the new distances it returns.
pub fn bfs_step(
    queue: &mut VecDeque<usize>,
    visited: &mut Vec<bool>,
    parent: &mut Vec<Option<usize>>,
    adj: &Vec<Vec<usize>>,
    other_visited: &Vec<bool>,
    Ghost(root): Ghost<usize>,
    Ghost(dist): Ghost<Seq<nat>>,
) -> (r: (Option<usize>, Ghost<Seq<nat>>))
    requires
        adj_wf(table_view(adj@)),
        old(visited)@.len() == adj@.len(),
        old(parent)@.len() == adj@.len(),
        other_visited@.len() == adj@.len(),
        forall|i: int| 0 <= i < old(queue)@.len() ==> #[trigger] old(queue)@[i] < adj@.len(),
    ensures
        old(queue)@.len() == 0 ==> r.0 is None && final(visited)@ == old(visited)@ && final(parent)@ == old(parent)@
            && final(queue)@ == old(queue)@,
        old(queue)@.len() > 0 ==> ({
            let e = expand_from(table_view(adj@)[old(queue)@[0] as int], 0, old(queue)@[0], other_visited@,
                old(visited)@, old(parent)@, old(queue)@.drop_first());
            &&& r.0 == e.0
            &&& final(visited)@ == e.1
            &&& final(parent)@ == e.2
            &&& final(queue)@ == e.3
        }),
        old(queue)@.len() > 0 && r.0 is None ==> forall|v: int| 0 <= v < adj@.len() ==> {
            let row = table_view(adj@)[old(queue)@[0] as int];
            &&& #[trigger] final(visited)@[v] == (old(visited)@[v] || in_row_from(row, 0, v))
            &&& final(parent)@[v] == (if !old(visited)@[v] && in_row_from(row, 0, v) { Some(old(queue)@[0]) } else { old(parent)@[v] })
        },
        final(visited)@.len() == adj@.len(),
        final(parent)@.len() == adj@.len(),
        forall|i: int| 0 <= i < final(queue)@.len() ==> #[trigger] final(queue)@[i] < adj@.len(),
        forall|v: int| 0 <= v < adj@.len() && old(visited)@[v] ==> #[trigger] final(visited)@[v],
        r.0 matches Some(m) ==> m < adj@.len() && final(visited)@[m as int] && other_visited@[m as int],
        old(queue)@.len() > 0 ==> search_measure(final(visited)@, final(queue)@) < search_measure(old(visited)@, old(queue)@),
        search_ok(table_view(adj@), root, old(visited)@, old(parent)@, old(queue)@, dist)
            && expanded_closed(table_view(adj@), old(visited)@, old(queue)@)
            && disjoint_seen(old(visited)@, other_visited@) ==> {
            &&& search_ok(table_view(adj@), root, final(visited)@, final(parent)@, final(queue)@, r.1@)
            &&& r.0 is None ==> expanded_closed(table_view(adj@), final(visited)@, final(queue)@)
            &&& r.0 is None ==> disjoint_seen(final(visited)@, other_visited@)
        },
{
    let ghost a = table_view(adj@);
    let ghost ok = search_ok(a, root, old(visited)@, old(parent)@, old(queue)@, dist)
        && expanded_closed(a, old(visited)@, old(queue)@)
        && disjoint_seen(old(visited)@, other_visited@);
    let ghost mut d = dist;
    let current = match queue.pop_front() {
        Some(c) => c,
        None => {
            return (None, Ghost(d));
        },
    };
    let ghost q0 = old(queue)@;
    let ghost m0 = search_measure(old(visited)@, old(queue)@);
    let ghost goal = expand_from(table_view(adj@)[q0[0] as int], 0, q0[0], other_visited@, old(visited)@, old(parent)@, q0.drop_first());
    assert(queue@ =~= q0.drop_first());
    assert(q0[0] == current);
    assert(current < a.len());
    let row = &adj[current];
    assert(row@ == a[current as int]);
    proof {
        assert forall|v: usize| v != current && !queue@.contains(v) implies !q0.contains(v) by {
            if q0.contains(v) {
                let i = choose|i: int| 0 <= i < q0.len() && q0[i] == v;
                assert(i != 0);
                assert(queue@[i - 1] == v);
            }
        }
        if ok {
            assert(visited@[current as int]);
        }
    }
    let mut j: usize = 0;
    while j < row.len()
        invariant
            a == table_view(adj@),
            adj_wf(a),
            current < a.len(),
            q0.len() > 0,
            q0 == old(queue)@,
            row@ == a[current as int],
            j <= row@.len(),
            visited@.len() == a.len(),
            parent@.len() == a.len(),
            other_visited@.len() == a.len(),
            forall|i: int| 0 <= i < queue@.len() ==> #[trigger] queue@[i] < a.len(),
            ok == (search_ok(a, root, old(visited)@, old(parent)@, old(queue)@, dist)
                && expanded_closed(a, old(visited)@, old(queue)@)
                && disjoint_seen(old(visited)@, other_visited@)),
            ok ==> visited@[current as int],
            ok ==> search_ok(a, root, visited@, parent@, queue@, d),
            ok ==> disjoint_seen(visited@, other_visited@),
            ok ==> forall|v: usize, w: usize| #![trigger is_edge(a, v, w)]
                v < a.len() && visited@[v as int] && !queue@.contains(v) && v != current && is_edge(a, v, w) ==> visited@[w as int],
            forall|v: int| 0 <= v < a.len() && old(visited)@[v] ==> #[trigger] visited@[v],
            forall|k: int| 0 <= k < j ==> visited@[#[trigger] row@[k] as int],
            forall|i: int| 0 <= i < q0.len() - 1 ==> #[trigger] queue@[i] == q0[i + 1],
            queue@.len() >= q0.len() - 1,
            search_measure(visited@, queue@) + 1 <= m0,
            m0 == search_measure(old(visited)@, old(queue)@),
            q0[0] == current,
            goal == expand_from(row@, 0, current, other_visited@, old(visited)@, old(parent)@, q0.drop_first()),
            goal == expand_from(row@, j as int, current, other_visited@, visited@, parent@, queue@),
        decreases row@.len() - j,
    {
        let neighbor = row[j];
        assert(neighbor < a.len());
        assert(row@[j as int] == neighbor);
        if !visited[neighbor] {
            let ghost vis0 = visited@;
            let ghost par0 = parent@;
            let ghost que0 = queue@;
            visited.set(neighbor, true);
            parent.set(neighbor, Some(current));
            proof {
                let d0 = d;
                d = d.update(neighbor as int, d0[current as int] + 1);
                lemma_count_mark(vis0, neighbor as int);
                assert(visited@ == vis0.update(neighbor as int, true));
                assert(parent@ == par0.update(neighbor as int, Some(current)));
                if ok {
                    assert(is_edge(a, current, neighbor));
                    assert forall|v: usize| v < a.len() && #[trigger] visited@[v as int] && v != root implies chain_link(a, parent@, visited@, d, v) by {
                        if v != neighbor {
                            assert(vis0[v as int]);
                            assert(chain_link(a, par0, vis0, d0, v));
                            let p = par0[v as int]->0;
                            assert(p != neighbor);
                        } else {
                            assert(current != neighbor);
                        }
                    }
                }
            }
            if other_visited[neighbor] {
                return (Some(neighbor), Ghost(d));
            }
            queue.push_back(neighbor);
            proof {
                assert(goal == expand_from(row@, j + 1, current, other_visited@, visited@, parent@, queue@));
                assert(queue@ == que0.push(neighbor));
                assert(queue@.contains(neighbor)) by {
                    assert(queue@[que0.len() as int] == neighbor);
                }
                assert forall|v: usize| !queue@.contains(v) implies !que0.contains(v) by {
                    if que0.contains(v) {
                        let i = choose|i: int| 0 <= i < que0.len() && que0[i] == v;
                        assert(queue@[i] == v);
                    }
                }
            }
        }
        j = j + 1;
    }
    proof {
        assert forall|k: int| 0 <= k < row@.len() implies #[trigger] row@[k] < old(visited)@.len() by {
            assert(a[current as int][k] < a.len());
        }
        lemma_expand_marks(row@, 0, current, other_visited@, old(visited)@, old(parent)@, q0.drop_first());
    }
    (None, Ghost(d))
}


pub proof fn lemma_path_prepend(adj: Seq<Seq<usize>>, p: Seq<usize>, u: usize, s: usize, t: usize)
    requires
        is_path(adj, p, s, t),
        is_edge(adj, u, s),
    ensures
        is_path(adj, seq![u] + p, u, t),
{
    let q = seq![u] + p;
    assert forall|i: int| 0 <= i < q.len() - 1 implies #[trigger] step_ok(adj, q, i) by {
        if i > 0 {
            assert(step_ok(adj, p, i - 1));
            assert(q[i] == p[i - 1] && q[i + 1] == p[i]);
        }
    }
}

/// The reverse of `adj`: row `v` lists the nodes with an edge to `v`.
pub fn reverse_table(adj: &Vec<Vec<usize>>) -> (rev: Vec<Vec<usize>>)
    requires
        adj_wf(table_view(adj@)),
    ensures
        is_reverse(table_view(adj@), table_view(rev@)),
        adj_wf(table_view(rev@)),
{
    let ghost a = table_view(adj@);
    let n = adj.len();
    let mut rev: Vec<Vec<usize>> = Vec::new();
    let mut k: usize = 0;
    while k < n
        invariant
            k <= n,
            n == adj@.len(),
            rev@.len() == k,
            forall|v: int| 0 <= v < k ==> (#[trigger] rev@[v])@.len() == 0,
        decreases n - k,
    {
        rev.push(Vec::new());
        k = k + 1;
    }
    let mut u: usize = 0;
    while u < n
        invariant
            a == table_view(adj@),
            adj_wf(a),
            n == adj@.len(),
            u <= n,
            rev@.len() == n,
            forall|y: int, z: int| 0 <= y < n && 0 <= z < rev@[y]@.len() ==> #[trigger] rev@[y]@[z] < u,
            forall|x: usize, y: usize| #![trigger rev@[y as int]@.contains(x)] #![trigger a[x as int].contains(y)]
                x < n && y < n ==> (rev@[y as int]@.contains(x) <==> (x < u && a[x as int].contains(y))),
        decreases n - u,
    {
        let row = &adj[u];
        assert(row@ == a[u as int]);
        let mut j: usize = 0;
        while j < row.len()
            invariant
                a == table_view(adj@),
                adj_wf(a),
                n == adj@.len(),
                u < n,
                row@ == a[u as int],
                j <= row@.len(),
                rev@.len() == n,
                forall|y: int, z: int| 0 <= y < n && 0 <= z < rev@[y]@.len() ==> #[trigger] rev@[y]@[z] <= u,
                forall|x: usize, y: usize| #![trigger rev@[y as int]@.contains(x)] #![trigger a[x as int].contains(y)]
                    x < n && y < n ==> (rev@[y as int]@.contains(x) <==>
                    ((x < u && a[x as int].contains(y)) || (x == u && row@.subrange(0, j as int).contains(y)))),
            decreases row@.len() - j,
        {
            let v = row[j];
            assert(v < n);
            let ghost rev0 = rev@;
            let mut slot: Vec<usize> = Vec::new();
            rev.set_and_swap(v, &mut slot);
            slot.push(u);
            rev.set(v, slot);
            proof {
                let s0 = row@.subrange(0, j as int);
                let s1 = row@.subrange(0, j + 1);
                assert(rev@[v as int]@ == rev0[v as int]@.push(u));
                assert(s1 =~= s0.push(v));
                assert forall|y: int, z: int| 0 <= y < n && 0 <= z < rev@[y]@.len() implies #[trigger] rev@[y]@[z] <= u by {
                    if y != v as int {
                        assert(rev@[y] == rev0[y]);
                    } else if z < rev0[y]@.len() {
                        assert(rev@[y]@[z] == rev0[y]@[z]);
                    }
                }
                assert forall|x: usize, y: usize| #![trigger rev@[y as int]@.contains(x)] #![trigger a[x as int].contains(y)]
                    x < n && y < n implies (rev@[y as int]@.contains(x) <==>
                    ((x < u && a[x as int].contains(y)) || (x == u && s1.contains(y)))) by {
                    if y != v {
                        assert(rev@[y as int] == rev0[y as int]);
                        if x == u {
                            assert(s1.contains(y) ==> s0.contains(y)) by {
                                if s1.contains(y) {
                                    let i = choose|i: int| 0 <= i < s1.len() && #[trigger] s1[i] == y;
                                    assert(i != j);
                                    assert(s0[i] == y);
                                }
                            }
                            assert(s0.contains(y) ==> s1.contains(y)) by {
                                if s0.contains(y) {
                                    let i = choose|i: int| 0 <= i < s0.len() && #[trigger] s0[i] == y;
                                    assert(s1[i] == y);
                                }
                            }
                        }
                    } else {
                        let r0 = rev0[y as int]@;
                        let r1 = rev@[y as int]@;
                        if r1.contains(x) {
                            let i = choose|i: int| 0 <= i < r1.len() && #[trigger] r1[i] == x;
                            if i < r0.len() {
                                assert(r0[i] == x);
                                assert(r0.contains(x));
                                if x == u {
                                    let i2 = choose|i2: int| 0 <= i2 < s0.len() && #[trigger] s0[i2] == y;
                                    assert(s1[i2] == y);
                                }
                            } else {
                                assert(x == u);
                                assert(s1[j as int] == y);
                            }
                        }
                        if x < u && a[x as int].contains(y) {
                            assert(r0.contains(x));
                            let i = choose|i: int| 0 <= i < r0.len() && #[trigger] r0[i] == x;
                            assert(r1[i] == x);
                        }
                        if x == u && s1.contains(y) {
                            assert(r1[r0.len() as int] == x);
                        }
                        if x == u && s0.contains(y) {
                            assert(r1[r0.len() as int] == x);
                        }
                    }
                }
            }
            j = j + 1;
        }
        proof {
            assert(row@.subrange(0, row@.len() as int) =~= row@);
            assert forall|y: int, z: int| 0 <= y < n && 0 <= z < rev@[y]@.len() implies #[trigger] rev@[y]@[z] < u + 1 by {}
        }
        u = u + 1;
    }
    proof {
        let r = table_view(rev@);
        assert forall|x: usize, y: usize| x < a.len() && y < a.len() implies (#[trigger] is_edge(r, y, x) <==> #[trigger] is_edge(a, x, y)) by {
            assert(r[y as int] == rev@[y as int]@);
        }
        assert forall|y: int, z: int| 0 <= y < r.len() && 0 <= z < r[y].len() implies #[trigger] r[y][z] < r.len() by {
            assert(r[y] == rev@[y]@);
        }
    }
    rev
}

/// The chain of parent records from `v`: `v`, the node it was reached from,
/// that node's parent, and so on, for at most `steps` steps or until a node
/// that records none.
pub open spec fn parent_chain(parent: Seq<Option<usize>>, v: usize, steps: nat) -> Seq<usize>
    decreases steps,
{
    if steps == 0 {
        seq![v]
    } else {
        match parent[v as int] {
            None => seq![v],
            Some(p) => seq![v] + parent_chain(parent, p, (steps - 1) as nat),
        }
    }
}

/// Follows the parent records of a search from `node` back to the search's
/// root; returns the path so traced, from the root to `node`.
pub fn path_to(
    node: usize,
    parent: &Vec<Option<usize>>,
    Ghost(adj): Ghost<Seq<Seq<usize>>>,
    Ghost(root): Ghost<usize>,
    Ghost(visited): Ghost<Seq<bool>>,
    Ghost(dist): Ghost<Seq<nat>>,
) -> (path: Vec<usize>)
    requires
        search_ok(adj, root, visited, parent@, Seq::empty(), dist),
        node < adj.len(),
        visited[node as int],
    ensures
        is_path(adj, path@, root, node),
        path@.len() == dist[node as int] + 1,
        path@ == parent_chain(parent@, node, dist[node as int]).reverse(),
{
    let mut chain: Vec<usize> = Vec::new();
    let mut cur = node;
    proof {
        assert(is_path(adj, seq![node], node, node)) by {
            assert(seq![node].last() == node);
        }
        assert(chain@.push(cur).reverse() =~= seq![node]);
    }
    while parent[cur].is_some()
        invariant
            search_ok(adj, root, visited, parent@, Seq::empty(), dist),
            cur < adj.len(),
            visited[cur as int],
            is_path(adj, chain@.push(cur).reverse(), cur, node),
            chain@.len() + dist[cur as int] == dist[node as int],
            chain@ + parent_chain(parent@, cur, dist[cur as int]) == parent_chain(parent@, node, dist[node as int]),
        decreases dist[cur as int],
    {
        let prev = parent[cur].unwrap();
        proof {
            assert(cur != root);
            assert(chain_link(adj, parent@, visited, dist, cur));
            assert(parent_chain(parent@, cur, dist[cur as int]) == seq![cur] + parent_chain(parent@, prev, dist[prev as int]));
            assert(chain@.push(cur) + parent_chain(parent@, prev, dist[prev as int])
                =~= chain@ + (seq![cur] + parent_chain(parent@, prev, dist[prev as int])));
            let old_seq = chain@.push(cur);
            lemma_path_prepend(adj, old_seq.reverse(), prev, cur, node);
            assert(old_seq.push(prev).reverse() =~= seq![prev] + old_seq.reverse());
        }
        chain.push(cur);
        cur = prev;
    }
    let ghost before = chain@;
    chain.push(cur);
    proof {
        if cur != root {
            assert(chain_link(adj, parent@, visited, dist, cur));
        }
        assert(parent_chain(parent@, cur, dist[cur as int]) == seq![cur]);
        assert(chain@ =~= before + seq![cur]);
    }
    let mut path: Vec<usize> = Vec::new();
    let mut k = chain.len();
    while k > 0
        invariant
            k <= chain@.len(),
            path@ =~= chain@.subrange(k as int, chain@.len() as int).reverse(),
        decreases k,
    {
        k = k - 1;
        path.push(chain[k]);
        proof {
            assert(chain@.subrange(k as int, chain@.len() as int).reverse() =~= chain@.subrange(k + 1, chain@.len() as int).reverse().push(chain@[k as int]));
        }
    }
    assert(chain@.subrange(0, chain@.len() as int) =~= chain@);
    path
}

/// Rebuilds the path through `meeting`: the first half follows the parent
/// records of the forward search back to its root `start`, the second half
/// those of the backward search on to its root `target`.
pub fn construct_path(
    meeting: usize,
    front_parent: &Vec<Option<usize>>,
    back_parent: &Vec<Option<usize>>,
    Ghost(adj): Ghost<Seq<Seq<usize>>>,
    Ghost(rev): Ghost<Seq<Seq<usize>>>,
    Ghost(start): Ghost<usize>,
    Ghost(target): Ghost<usize>,
    Ghost(front_visited): Ghost<Seq<bool>>,
    Ghost(back_visited): Ghost<Seq<bool>>,
    Ghost(front_dist): Ghost<Seq<nat>>,
    Ghost(back_dist): Ghost<Seq<nat>>,
) -> (path: Vec<usize>)
    requires
        adj_wf(adj),
        is_reverse(adj, rev),
        search_ok(adj, start, front_visited, front_parent@, Seq::empty(), front_dist),
        search_ok(rev, target, back_visited, back_parent@, Seq::empty(), back_dist),
        meeting < adj.len(),
        front_visited[meeting as int],
        back_visited[meeting as int],
    ensures
        is_path(adj, path@, start, target),
        path@ == parent_chain(front_parent@, meeting, front_dist[meeting as int]).reverse()
            + parent_chain(back_parent@, meeting, back_dist[meeting as int]).drop_first(),
{
    let mut path = path_to(meeting, front_parent, Ghost(adj), Ghost(start), Ghost(front_visited), Ghost(front_dist));
    let ghost full = parent_chain(front_parent@, meeting, front_dist[meeting as int]).reverse()
        + parent_chain(back_parent@, meeting, back_dist[meeting as int]).drop_first();
    let mut node = meeting;
    while back_parent[node].is_some()
        invariant
            adj_wf(adj),
            is_reverse(adj, rev),
            search_ok(rev, target, back_visited, back_parent@, Seq::empty(), back_dist),
            node < adj.len(),
            back_visited[node as int],
            is_path(adj, path@, start, node),
            path@ + parent_chain(back_parent@, node, back_dist[node as int]).drop_first() == full,
        decreases back_dist[node as int],
    {
        let next = back_parent[node].unwrap();
        let ghost path0 = path@;
        proof {
            assert(node != target);
            assert(chain_link(rev, back_parent@, back_visited, back_dist, node));
            let rest = parent_chain(back_parent@, next, back_dist[next as int]);
            assert(parent_chain(back_parent@, node, back_dist[node as int]) == seq![node] + rest);
            assert((seq![node] + rest).drop_first() =~= rest);
            assert(rest[0] == next);
            assert(path0.push(next) + rest.drop_first() =~= path0 + rest);
            assert(is_edge(rev, next, node));
            assert(is_edge(adj, node, next));
            lemma_path_extend(adj, path@, start, node, next);
        }
        node = next;
        path.push(node);
    }
    proof {
        if node != target {
            assert(chain_link(rev, back_parent@, back_visited, back_dist, node));
        }
        assert(parent_chain(back_parent@, node, back_dist[node as int]) == seq![node]);
        assert(path@ + seq![node].drop_first() =~= path@);
    }
    path
}

/// Searches from `start` forwards and from `target` backwards, one node at a
/// time on each side, until the two searches meet; returns the path through
/// the meeting point, or `None` once either side has run out of nodes.
pub fn bidirectional_search(adj: &Vec<Vec<usize>>, start: usize, target: usize) -> (r: Option<Vec<usize>>)
    requires
        adj_wf(table_view(adj@)),
        start < adj@.len(),
        target < adj@.len(),
        start != target,
    ensures
        r is Some <==> reachable(table_view(adj@), start, target),
        r matches Some(p) ==> is_path(table_view(adj@), p@, start, target),
{
    let ghost a = table_view(adj@);
    let n = adj.len();
    let rev = reverse_table(adj);
    let ghost ra = table_view(rev@);
    let mut front_visited = all_false(n);
    let mut back_visited = all_false(n);
    let mut front_parent = all_none(n);
    let mut back_parent = all_none(n);
    let mut front_queue: VecDeque<usize> = VecDeque::new();
    let mut back_queue: VecDeque<usize> = VecDeque::new();
    front_queue.push_back(start);
    front_visited.set(start, true);
    back_queue.push_back(target);
    back_visited.set(target, true);
    let ghost mut front_dist: Seq<nat> = Seq::new(n as nat, |i: int| 0nat);
    let ghost mut back_dist: Seq<nat> = Seq::new(n as nat, |i: int| 0nat);
    proof {
        assert forall|v: usize, w: usize| #![trigger is_edge(a, v, w)]
            v < a.len() && front_visited@[v as int] && !front_queue@.contains(v) && is_edge(a, v, w) implies front_visited@[w as int] by {
            assert(v == start);
            assert(front_queue@[0] == start);
        }
        assert forall|v: usize, w: usize| #![trigger is_edge(ra, v, w)]
            v < ra.len() && back_visited@[v as int] && !back_queue@.contains(v) && is_edge(ra, v, w) implies back_visited@[w as int] by {
            assert(v == target);
            assert(back_queue@[0] == target);
        }
    }
    while front_queue.len() > 0 && back_queue.len() > 0
        invariant
            a == table_view(adj@),
            ra == table_view(rev@),
            adj_wf(a),
            adj_wf(ra),
            is_reverse(a, ra),
            n == adj@.len(),
            start < n,
            target < n,
            start != target,
            search_ok(a, start, front_visited@, front_parent@, front_queue@, front_dist),
            search_ok(ra, target, back_visited@, back_parent@, back_queue@, back_dist),
            expanded_closed(a, front_visited@, front_queue@),
            expanded_closed(ra, back_visited@, back_queue@),
            back_visited@.len() == n,
            disjoint_seen(front_visited@, back_visited@),
        decreases search_measure(front_visited@, front_queue@) + search_measure(back_visited@, back_queue@),
    {
        let (front_meet, fd) = bfs_step(&mut front_queue, &mut front_visited, &mut front_parent, adj, &back_visited, Ghost(start), Ghost(front_dist));
        proof { front_dist = fd@; }
        if let Some(meeting) = front_meet {
            return Some(construct_path(meeting, &front_parent, &back_parent, Ghost(a), Ghost(ra), Ghost(start), Ghost(target),
                Ghost(front_visited@), Ghost(back_visited@), Ghost(front_dist), Ghost(back_dist)));
        }
        proof {
            assert forall|v: int| 0 <= v < back_visited@.len() implies !(#[trigger] back_visited@[v] && front_visited@[v]) by {
                assert(!(front_visited@[v] && back_visited@[v]));
            }
        }
        let (back_meet, bd) = bfs_step(&mut back_queue, &mut back_visited, &mut back_parent, &rev, &front_visited, Ghost(target), Ghost(back_dist));
        proof { back_dist = bd@; }
        if let Some(meeting) = back_meet {
            return Some(construct_path(meeting, &front_parent, &back_parent, Ghost(a), Ghost(ra), Ghost(start), Ghost(target),
                Ghost(front_visited@), Ghost(back_visited@), Ghost(front_dist), Ghost(back_dist)));
        }
        proof {
            assert forall|v: int| 0 <= v < front_visited@.len() implies !(#[trigger] front_visited@[v] && back_visited@[v]) by {
                assert(!(back_visited@[v] && front_visited@[v]));
            }
        }
    }
    proof {
        if reachable(a, start, target) {
            let p = choose|p: Seq<usize>| #[trigger] is_path(a, p, start, target);
            if front_queue@.len() == 0 {
                lemma_closed_reaches(a, front_visited@, p, start, target);
            } else {
                lemma_reverse_path(a, ra, p, start, target);
                lemma_closed_reaches(ra, back_visited@, p.reverse(), target, start);
            }
        }
    }
    None
}


/// No path from `root` to `v` is shorter than `dist[v]` steps.
pub open spec fn dist_is_lower_bound(adj: Seq<Seq<usize>>, root: usize, visited: Seq<bool>, dist: Seq<nat>) -> bool {
    forall|v: usize, p: Seq<usize>| #![trigger is_path(adj, p, root, v)]
        v < adj.len() && visited[v as int] && is_path(adj, p, root, v) ==> dist[v as int] + 1 <= p.len()
}

/// Every node with a path from `root` of fewer than `level` steps has been
/// seen and has left the queue.
pub open spec fn near_nodes_done(adj: Seq<Seq<usize>>, root: usize, visited: Seq<bool>, queue: Seq<usize>, level: nat) -> bool {
    forall|u: usize, p: Seq<usize>| #![trigger is_path(adj, p, root, u)]
        is_path(adj, p, root, u) && p.len() <= level ==> u < adj.len() && visited[u as int] && !queue.contains(u)
}

/// The queue holds nodes in order of distance, all at `level` or `level + 1`.
pub open spec fn queue_layered(queue: Seq<usize>, dist: Seq<nat>, level: nat) -> bool {
    &&& forall|i: int, j: int| 0 <= i <= j < queue.len() ==> dist[#[trigger] queue[i] as int] <= dist[#[trigger] queue[j] as int]
    &&& forall|i: int| 0 <= i < queue.len() ==> level <= dist[#[trigger] queue[i] as int] <= level + 1
}

/// Breadth-first search from `start` that stops as soon as it reaches
/// `target`; returns a shortest path from `start` to `target`, or `None`
/// when `target` cannot be reached.
pub fn shortest_path_search(adj: &Vec<Vec<usize>>, start: usize, target: usize) -> (r: Option<Vec<usize>>)
    requires
        adj_wf(table_view(adj@)),
        start < adj@.len(),
        target < adj@.len(),
        start != target,
    ensures
        r is Some <==> reachable(table_view(adj@), start, target),
        r matches Some(p) ==> is_path(table_view(adj@), p@, start, target),
        r matches Some(p) ==> forall|q: Seq<usize>| #[trigger] is_path(table_view(adj@), q, start, target) ==> p@.len() <= q.len(),
{
    let ghost a = table_view(adj@);
    let n = adj.len();
    let mut visited = all_false(n);
    let mut parent = all_none(n);
    let mut queue: VecDeque<usize> = VecDeque::new();
    queue.push_back(start);
    visited.set(start, true);
    let ghost mut dist: Seq<nat> = Seq::new(n as nat, |i: int| 0nat);
    let ghost mut level: nat = 0;
    proof {
        assert forall|v: usize, w: usize| #![trigger is_edge(a, v, w)]
            v < a.len() && visited@[v as int] && !queue@.contains(v) && is_edge(a, v, w) implies visited@[w as int] by {
            assert(v == start);
            assert(queue@[0] == start);
        }
        assert forall|v: usize, p: Seq<usize>| #![trigger is_path(a, p, start, v)]
            v < a.len() && visited@[v as int] && is_path(a, p, start, v) implies dist[v as int] + 1 <= p.len() by {}
    }
    while queue.len() > 0
        invariant
            a == table_view(adj@),
            adj_wf(a),
            n == adj@.len(),
            start < n,
            target < n,
            start != target,
            search_ok(a, start, visited@, parent@, queue@, dist),
            expanded_closed(a, visited@, queue@),
            !visited@[target as int],
            dist_is_lower_bound(a, start, visited@, dist),
            near_nodes_done(a, start, visited@, queue@, level),
            queue_layered(queue@, dist, level),
        decreases search_measure(visited@, queue@),
    {
        let ghost q0 = queue@;
        let ghost vis_start = visited@;
        let current = queue.pop_front().unwrap();
        proof {
            assert(q0[0] == current);
            assert(level <= dist[current as int] <= level + 1);
            assert forall|i: int| 0 <= i < queue@.len() implies dist[current as int] <= dist[#[trigger] queue@[i] as int] <= dist[current as int] + 1 by {
                assert(queue@[i] == q0[i + 1]);
                assert(dist[q0[0] as int] <= dist[q0[i + 1] as int]);
            }
            assert forall|v: usize| v != current && !queue@.contains(v) implies !q0.contains(v) by {
                if q0.contains(v) {
                    let i = choose|i: int| 0 <= i < q0.len() && q0[i] == v;
                    assert(i != 0);
                    assert(queue@[i - 1] == v);
                }
            }
            // Every node with a path of fewer than dist[current] steps is done.
            let new_level = dist[current as int];
            assert forall|u: usize, p: Seq<usize>| #![trigger is_path(a, p, start, u)]
                is_path(a, p, start, u) && p.len() <= new_level implies u < a.len() && visited@[u as int] && !queue@.contains(u) by {
                if p.len() <= level {
                    assert(u < a.len() && visited@[u as int] && !q0.contains(u));
                    if queue@.contains(u) {
                        let i = choose|i: int| 0 <= i < queue@.len() && queue@[i] == u;
                        assert(queue@[i] == q0[i + 1]);
                    }
                } else {
                    // p has exactly level + 1 nodes, and new_level == level + 1.
                    if p.len() == 1 {
                        assert(u == start);
                    } else {
                        lemma_path_prefix(a, p, start, u);
                        let w = p[p.len() - 2];
                        assert(is_path(a, p.drop_last(), start, w));
                        assert(w < a.len() && visited@[w as int] && !q0.contains(w));
                        assert(is_edge(a, w, u));
                        assert(u < a.len()) by {
                            let j = choose|j: int| 0 <= j < a[w as int].len() && a[w as int][j] == u;
                        }
                    }
                    assert(visited@[u as int]);
                    assert(dist[u as int] + 1 <= p.len());
                    if queue@.contains(u) {
                        let i = choose|i: int| 0 <= i < queue@.len() && queue@[i] == u;
                        assert(dist[current as int] <= dist[queue@[i] as int]);
                    }
                }
            }
            level = new_level;
        }
        let row = &adj[current];
        assert(row@ == a[current as int]);
        let ghost m0 = search_measure(vis_start, q0);
        let mut j: usize = 0;
        while j < row.len()
            invariant
                a == table_view(adj@),
                adj_wf(a),
                n == adj@.len(),
                start < n,
                target < n,
                start != target,
                current < n,
                visited@[current as int],
                dist[current as int] == level,
                row@ == a[current as int],
                j <= row@.len(),
                search_ok(a, start, visited@, parent@, queue@, dist),
                !visited@[target as int],
                dist_is_lower_bound(a, start, visited@, dist),
                near_nodes_done(a, start, visited@, queue@, level),
                queue_layered(queue@, dist, level),
                forall|k: int| 0 <= k < j ==> visited@[#[trigger] row@[k] as int],
                forall|v: usize, w: usize| #![trigger is_edge(a, v, w)]
                    v < a.len() && visited@[v as int] && !queue@.contains(v) && v != current && is_edge(a, v, w) ==> visited@[w as int],
                search_measure(visited@, queue@) + 1 <= m0,
            decreases row@.len() - j,
        {
            let neighbor = row[j];
            assert(neighbor < n);
            if !visited[neighbor] {
                let ghost vis0 = visited@;
                let ghost par0 = parent@;
                let ghost que0 = queue@;
                let ghost d0 = dist;
                visited.set(neighbor, true);
                parent.set(neighbor, Some(current));
                queue.push_back(neighbor);
                proof {
                    dist = d0.update(neighbor as int, d0[current as int] + 1);
                    lemma_count_mark(vis0, neighbor as int);
                    assert(row@[j as int] == neighbor);
                    assert(is_edge(a, current, neighbor));
                    assert(current != neighbor);
                    assert(queue@ == que0.push(neighbor));
                    assert(queue@[que0.len() as int] == neighbor);
                    assert forall|v: usize| !queue@.contains(v) implies !que0.contains(v) by {
                        if que0.contains(v) {
                            let i = choose|i: int| 0 <= i < que0.len() && que0[i] == v;
                            assert(queue@[i] == v);
                        }
                    }
                    assert forall|v: usize| v < a.len() && #[trigger] visited@[v as int] && v != start implies chain_link(a, parent@, visited@, dist, v) by {
                        if v != neighbor {
                            assert(vis0[v as int]);
                            assert(chain_link(a, par0, vis0, d0, v));
                            assert(par0[v as int]->0 != neighbor);
                        }
                    }
                    // No path reaches the new node in fewer than dist[current] + 1 steps.
                    assert forall|v: usize, p: Seq<usize>| #![trigger is_path(a, p, start, v)]
                        v < a.len() && visited@[v as int] && is_path(a, p, start, v) implies dist[v as int] + 1 <= p.len() by {
                        if v != neighbor {
                            assert(vis0[v as int]);
                        } else {
                            if p.len() <= level + 1 {
                                if p.len() == 1 {
                                    assert(v == start);
                                } else {
                                    lemma_path_prefix(a, p, start, v);
                                    let w = p[p.len() - 2];
                                    assert(is_path(a, p.drop_last(), start, w));
                                    assert(w < a.len() && vis0[w as int] && !que0.contains(w));
                                    assert(dist[current as int] + 1 <= p.drop_last().len()) by {
                                        if w == current {
                                            assert(d0[current as int] + 1 <= p.drop_last().len());
                                        }
                                    }
                                    assert(w != current);
                                    assert(is_edge(a, w, neighbor));
                                    assert(vis0[neighbor as int]);
                                }
                            }
                        }
                    }
                    assert forall|u: usize, p: Seq<usize>| #![trigger is_path(a, p, start, u)]
                        is_path(a, p, start, u) && p.len() <= level implies u < a.len() && visited@[u as int] && !queue@.contains(u) by {
                        assert(u < a.len() && vis0[u as int] && !que0.contains(u));
                        assert(u != neighbor);
                        if queue@.contains(u) {
                            let i = choose|i: int| 0 <= i < queue@.len() && queue@[i] == u;
                            if i < que0.len() {
                                assert(que0[i] == u);
                            }
                        }
                    }
                    assert forall|i: int, k: int| 0 <= i <= k < queue@.len() implies dist[#[trigger] queue@[i] as int] <= dist[#[trigger] queue@[k] as int] by {
                        if k < que0.len() {
                            assert(queue@[i] == que0[i] && queue@[k] == que0[k]);
                            assert(que0[i] != neighbor && que0[k] != neighbor);
                        } else if i < que0.len() {
                            assert(queue@[i] == que0[i]);
                            assert(que0[i] != neighbor);
                        }
                    }
                    assert forall|i: int| 0 <= i < queue@.len() implies level <= dist[#[trigger] queue@[i] as int] <= level + 1 by {
                        if i < que0.len() {
                            assert(queue@[i] == que0[i]);
                            assert(que0[i] != neighbor);
                        }
                    }
                }
                if neighbor == target {
                    let path = path_to(target, &parent, Ghost(a), Ghost(start), Ghost(visited@), Ghost(dist));
                    return Some(path);
                }
            }
            j = j + 1;
        }
    }
    proof {
        if reachable(a, start, target) {
            let p = choose|p: Seq<usize>| #[trigger] is_path(a, p, start, target);
            lemma_closed_reaches(a, visited@, p, start, target);
        }
    }
    None
}

} // verus!
