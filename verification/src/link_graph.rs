//! A graph of links in which each page is known by a hash of its URL, and
//! records both the pages it links to and the pages that link to it.

use crate::name_index::{NameIndex, position_of};
use vstd::prelude::*;

verus! {

/// The BLAKE3 hash of the UTF-8 bytes of `url`, as 64 lower-case hex digits.
pub uninterp spec fn spec_url_hash(url: Seq<char>) -> Seq<char>;

/// Calls `blake3::hash` on the bytes of `url` and writes the hash with
/// `Hash::to_hex`; the result is named `spec_url_hash`.
#[verifier::external_body]
pub(crate) fn hash_url(url: &str) -> (r: String)
    ensures
        r@ == spec_url_hash(url@),
{
    blake3::hash(url.as_bytes()).to_hex().to_string()
}

/// A page of the graph: its URL, and the hashes of the pages it links to
/// and of the pages that link to it, in the order the links were added.
pub struct Link {
    url: String,
    children: Vec<String>,
    parents: Vec<String>,
}

/// The value of a page: URL, children, parents.
pub type LinkView = (Seq<char>, Seq<Seq<char>>, Seq<Seq<char>>);

pub open spec fn strings_view(v: Seq<String>) -> Seq<Seq<char>> {
    v.map_values(|s: String| s@)
}

impl View for Link {
    type V = LinkView;

    closed spec fn view(&self) -> LinkView {
        (self.url@, strings_view(self.children@), strings_view(self.parents@))
    }
}

/// A graph of pages keyed by the hash of their URL.
pub struct LinkGraph {
    ids: NameIndex,
    links: Vec<Link>,
}

/// The map with a fresh page for `url` under `id`, unless `id` is there already.
pub open spec fn with_page(m: Map<Seq<char>, LinkView>, id: Seq<char>, url: Seq<char>) -> Map<Seq<char>, LinkView> {
    if m.contains_key(id) { m } else { m.insert(id, (url, Seq::empty(), Seq::empty())) }
}

/// The map after recording a link from the page `parent_id` (URL `parent_url`)
/// to the page `child_id` (URL `child_url`): pages are added for both where
/// missing, the parent is appended to the child's parents, then the child to
/// the parent's children.
pub open spec fn with_parent(
    m: Map<Seq<char>, LinkView>,
    child_id: Seq<char>,
    child_url: Seq<char>,
    parent_id: Seq<char>,
    parent_url: Seq<char>,
) -> Map<Seq<char>, LinkView> {
    let m1 = with_page(with_page(m, child_id, child_url), parent_id, parent_url);
    let c = m1[child_id];
    let m2 = m1.insert(child_id, (c.0, c.1, c.2.push(parent_id)));
    let p = m2[parent_id];
    m2.insert(parent_id, (p.0, p.1.push(child_id), p.2))
}

/// Children and parents mirror each other: every child or parent named is a
/// page of the map, and `b` is a child of `a` exactly when `a` is a parent of `b`.
pub open spec fn links_mirror(m: Map<Seq<char>, LinkView>) -> bool {
    &&& forall|a: Seq<char>, b: Seq<char>| #![trigger m[a].1.contains(b)] #![trigger m[a].2.contains(b)]
        m.contains_key(a) && (m[a].1.contains(b) || m[a].2.contains(b)) ==> m.contains_key(b)
    &&& forall|a: Seq<char>, b: Seq<char>| #![trigger m[a].1.contains(b), m[b].2.contains(a)]
        m.contains_key(a) && m.contains_key(b) ==> (m[a].1.contains(b) <==> m[b].2.contains(a))
}

/// Every page is kept under the hash of its URL.
pub open spec fn keyed_by_hash(m: Map<Seq<char>, LinkView>) -> bool {
    forall|id: Seq<char>| #[trigger] m.contains_key(id) ==> spec_url_hash(m[id].0) == id
}

impl View for LinkGraph {
    type V = Map<Seq<char>, LinkView>;

    closed spec fn view(&self) -> Map<Seq<char>, LinkView> {
        Map::new(
            |id: Seq<char>| self.ids@.contains(id),
            |id: Seq<char>| self.links@[position_of(self.ids@, id)->0]@,
        )
    }
}

impl LinkGraph {
    pub closed spec fn wf(&self) -> bool {
        &&& self.ids.wf()
        &&& self.links@.len() == self.ids@.len()
    }

    /// The number of pages.
    pub closed spec fn size(&self) -> nat {
        self.ids@.len()
    }

    /// An empty graph.
    pub fn new() -> (r: LinkGraph)
        ensures
            r.wf(),
            r@ == Map::<Seq<char>, LinkView>::empty(),
            r.size() == 0,
    {
        let r = LinkGraph { ids: NameIndex::new(), links: Vec::new() };
        assert(r@ =~= Map::<Seq<char>, LinkView>::empty());
        r
    }

    /// The number of pages.
    pub fn page_count(&self) -> (r: usize)
        requires
            self.wf(),
        ensures
            r == self.size(),
    {
        self.ids.len()
    }

    /// The key under which the page of `url` is kept: the hash of its URL.
    pub fn page_id(&self, url: &str) -> (r: String)
        ensures
            r@ == spec_url_hash(url@),
    {
        hash_url(url)
    }

    /// The page of `url`, if the graph holds one: its URL, its children and its parents.
    pub fn page(&self, url: &str) -> (r: Option<(String, Vec<String>, Vec<String>)>)
        requires
            self.wf(),
        ensures
            r is Some <==> self@.contains_key(spec_url_hash(url@)),
            r matches Some(t) ==> (t.0@, strings_view(t.1@), strings_view(t.2@)) == self@[spec_url_hash(url@)],
    {
        let id = hash_url(url);
        match self.ids.lookup(&id) {
            None => {
                proof {
                    if self.ids@.contains(id@) {
                        let j = choose|j: int| 0 <= j < self.ids@.len() && self.ids@[j] == id@;
                        assert(position_of(self.ids@, id@) is Some);
                    }
                }
                None
            },
            Some(i) => {
                let page = &self.links[i];
                proof {
                    assert(self.ids@.contains(id@)) by { assert(self.ids@[i as int] == id@); }
                }
                Some((page.url.clone(), copy_strings(&page.children), copy_strings(&page.parents)))
            },
        }
    }

    /// The position of the page with hash `id`, adding a page for `url`
    /// under it if there is none.
    fn page_index(&mut self, id: &String, url: &str) -> (r: usize)
        requires
            old(self).wf(),
            old(self).size() < usize::MAX,
        ensures
            final(self).wf(),
            final(self)@ == with_page(old(self)@, id@, url@),
            r < final(self).size(),
            final(self).ids@[r as int] == id@,
            position_of(final(self).ids@, id@) == Some(r as int),
            final(self).size() <= old(self).size() + 1,
            final(self).size() >= old(self).size(),
            forall|j: int| 0 <= j < old(self).size() ==> #[trigger] final(self).ids@[j] == old(self).ids@[j],
    {
        proof { self.ids.lemma_wf(); }
        let ghost old_view = self@;
        let ghost old_ids = self.ids@;
        let ghost old_links = self.links@;
        let n = self.ids.len();
        let i = self.ids.insert(id.clone());
        proof { self.ids.lemma_wf(); }
        if i == n {
            self.links.push(Link { url: url.to_string(), children: Vec::new(), parents: Vec::new() });
            proof {
                assert(!old_ids.contains(id@)) by {
                    if old_ids.contains(id@) {
                        let j = choose|j: int| 0 <= j < old_ids.len() && old_ids[j] == id@;
                        assert(position_of(old_ids, id@) is Some);
                    }
                }
                assert(strings_view(Seq::<String>::empty()) =~= Seq::<Seq<char>>::empty());
                assert(self@ =~= old_view.insert(id@, (url@, Seq::empty(), Seq::empty()))) by {
                    assert forall|k: Seq<char>| self@.contains_key(k) implies self@[k] == old_view.insert(id@, (url@, Seq::empty(), Seq::empty()))[k] by {
                        let p = position_of(self.ids@, k)->0;
                        lemma_position_in(self.ids@, k);
                        if k != id@ {
                            assert(self.ids@[p] == k);
                            assert(p < n);
                            assert(old_ids[p] == k);
                            lemma_position_exact(old_ids, k, p);
                        } else {
                            lemma_position_exact(self.ids@, k, n as int);
                        }
                    }
                    assert forall|k: Seq<char>| self@.contains_key(k) <==> old_view.insert(id@, (url@, Seq::empty(), Seq::empty())).contains_key(k) by {
                        if self.ids@.contains(k) && k != id@ {
                            let j = choose|j: int| 0 <= j < self.ids@.len() && self.ids@[j] == k;
                            assert(j < n);
                            assert(old_ids[j] == k);
                        }
                        if old_ids.contains(k) {
                            let j = choose|j: int| 0 <= j < old_ids.len() && old_ids[j] == k;
                            assert(self.ids@[j] == k);
                        }
                        if k == id@ {
                            assert(self.ids@[n as int] == k);
                        }
                    }
                }
                lemma_position_exact(self.ids@, id@, n as int);
            }
        } else {
            proof {
                assert(old_ids.contains(id@)) by {
                    assert(old_ids[i as int] == id@);
                }
                assert(self@ =~= old_view);
                lemma_position_exact(self.ids@, id@, i as int);
            }
        }
        i
    }

    /// Adds a page for `url` unless a page with the same hash is there.
    pub fn add_link(&mut self, url: &str)
        requires
            old(self).wf(),
            old(self).size() < usize::MAX,
        ensures
            final(self).wf(),
            final(self)@ == with_page(old(self)@, spec_url_hash(url@), url@),
            final(self).size() <= old(self).size() + 1,
    {
        let id = hash_url(url);
        self.page_index(&id, url);
    }

    /// Records a link from `parent_url` to `child_url`, adding pages for
    /// either if needed: the parent's hash is appended to the child's
    /// parents, and the child's hash to the parent's children.
    pub fn add_parent(&mut self, child_url: &str, parent_url: &str)
        requires
            old(self).wf(),
            old(self).size() + 2 < usize::MAX,
        ensures
            final(self).wf(),
            final(self).size() <= old(self).size() + 2,
            final(self)@ == with_parent(old(self)@, spec_url_hash(child_url@), child_url@, spec_url_hash(parent_url@), parent_url@),
    {
        let child_id = hash_url(child_url);
        let parent_id = hash_url(parent_url);
        let ci0 = self.page_index(&child_id, child_url);
        let ghost m0 = self@;
        let pi = self.page_index(&parent_id, parent_url);
        let ghost m1 = self@;
        proof {
            self.ids.lemma_wf();
            assert(self.ids@[ci0 as int] == child_id@);
            lemma_position_exact(self.ids@, child_id@, ci0 as int);
        }
        let ci = ci0;
        let ghost c = m1[child_id@];
        self.append_parent(ci, parent_id.clone());
        let ghost m2 = self@;
        proof {
            assert(m2 == m1.insert(child_id@, (c.0, c.1, c.2.push(parent_id@))));
            lemma_position_exact(self.ids@, parent_id@, pi as int);
        }
        self.append_child(pi, child_id.clone());
    }

    /// Appends `id` to the parents of the page at position `i`.
    fn append_parent(&mut self, i: usize, id: String)
        requires
            old(self).wf(),
            i < old(self).size(),
        ensures
            final(self).wf(),
            final(self).ids@ == old(self).ids@,
            ({
                let key = old(self).ids@[i as int];
                let v = old(self)@[key];
                final(self)@ == old(self)@.insert(key, (v.0, v.1, v.2.push(id@)))
            }),
    {
        proof { self.ids.lemma_wf(); }
        let ghost key = self.ids@[i as int];
        let ghost old_view = self@;
        let mut page = Link { url: String::new(), children: Vec::new(), parents: Vec::new() };
        self.links.set_and_swap(i, &mut page);
        let ghost before = page@;
        page.parents.push(id);
        proof {
            assert(strings_view(page.parents@) =~= before.2.push(id@));
        }
        self.links.set(i, page);
        proof {
            lemma_position_exact(self.ids@, key, i as int);
            assert(old_view[key] == before);
            lemma_replace_view(self.ids@, old(self).links@, self.links@, i as int);
        }
    }

    /// Appends `id` to the children of the page at position `i`.
    fn append_child(&mut self, i: usize, id: String)
        requires
            old(self).wf(),
            i < old(self).size(),
        ensures
            final(self).wf(),
            final(self).ids@ == old(self).ids@,
            ({
                let key = old(self).ids@[i as int];
                let v = old(self)@[key];
                final(self)@ == old(self)@.insert(key, (v.0, v.1.push(id@), v.2))
            }),
    {
        proof { self.ids.lemma_wf(); }
        let ghost key = self.ids@[i as int];
        let ghost old_view = self@;
        let mut page = Link { url: String::new(), children: Vec::new(), parents: Vec::new() };
        self.links.set_and_swap(i, &mut page);
        let ghost before = page@;
        page.children.push(id);
        proof {
            assert(strings_view(page.children@) =~= before.1.push(id@));
        }
        self.links.set(i, page);
        proof {
            lemma_position_exact(self.ids@, key, i as int);
            assert(old_view[key] == before);
            lemma_replace_view(self.ids@, old(self).links@, self.links@, i as int);
        }
    }
}

/// A copy of a list of strings.
fn copy_strings(v: &Vec<String>) -> (r: Vec<String>)
    ensures
        strings_view(r@) == strings_view(v@),
{
    let mut r: Vec<String> = Vec::new();
    let mut i: usize = 0;
    while i < v.len()
        invariant
            i <= v@.len(),
            strings_view(r@) == strings_view(v@.subrange(0, i as int)),
        decreases v@.len() - i,
    {
        let ghost before = r@;
        r.push(v[i].clone());
        proof {
            assert(strings_view(r@) =~= strings_view(before).push(v@[i as int]@));
            assert(strings_view(v@.subrange(0, i + 1)) =~= strings_view(v@.subrange(0, i as int)).push(v@[i as int]@));
        }
        i = i + 1;
    }
    assert(v@.subrange(0, v@.len() as int) =~= v@);
    r
}

/// The position of a name that occurs is a position where it occurs.
proof fn lemma_position_in(names: Seq<Seq<char>>, k: Seq<char>)
    requires
        names.contains(k),
    ensures
        position_of(names, k) matches Some(p) && 0 <= p < names.len() && names[p] == k,
{
}

/// In a table without repeats, the position of a name is where it stands.
proof fn lemma_position_exact(names: Seq<Seq<char>>, k: Seq<char>, w: int)
    requires
        crate::name_index::all_distinct(names),
        0 <= w < names.len(),
        names[w] == k,
    ensures
        position_of(names, k) == Some(w),
{
}

/// Replacing the page at position `i` changes the map at that page's hash only.
proof fn lemma_replace_view(ids: Seq<Seq<char>>, old_links: Seq<Link>, new_links: Seq<Link>, i: int)
    requires
        crate::name_index::all_distinct(ids),
        old_links.len() == ids.len(),
        new_links.len() == ids.len(),
        0 <= i < ids.len(),
        forall|j: int| 0 <= j < ids.len() && j != i ==> new_links[j] == old_links[j],
    ensures
        Map::new(|id: Seq<char>| ids.contains(id), |id: Seq<char>| new_links[position_of(ids, id)->0]@)
            == Map::new(|id: Seq<char>| ids.contains(id), |id: Seq<char>| old_links[position_of(ids, id)->0]@).insert(ids[i], new_links[i]@),
{
    let m_new = Map::new(|id: Seq<char>| ids.contains(id), |id: Seq<char>| new_links[position_of(ids, id)->0]@);
    let m_old = Map::new(|id: Seq<char>| ids.contains(id), |id: Seq<char>| old_links[position_of(ids, id)->0]@);
    assert(ids.contains(ids[i]));
    assert forall|k: Seq<char>| m_new.contains_key(k) implies m_new[k] == m_old.insert(ids[i], new_links[i]@)[k] by {
        let p = position_of(ids, k)->0;
        lemma_position_in(ids, k);
        if k == ids[i] {
            lemma_position_exact(ids, k, i);
        } else {
            assert(p != i);
        }
    }
    assert(m_new =~= m_old.insert(ids[i], new_links[i]@));
}

/// Adding the page of a URL twice has the effect of adding it once: the
/// second `add_link` finds the page's hash already a key and leaves the graph
/// as it is.
pub proof fn law_add_link_twice(m: Map<Seq<char>, LinkView>, url: Seq<char>)
    ensures
        with_page(with_page(m, spec_url_hash(url), url), spec_url_hash(url), url)
            == with_page(m, spec_url_hash(url), url),
{
}

/// Adding a page keeps children and parents mirrored: the new page has
/// neither, and no page names it.
pub proof fn law_add_link_keeps_mirror(m: Map<Seq<char>, LinkView>, url: Seq<char>)
    requires
        links_mirror(m),
    ensures
        links_mirror(with_page(m, spec_url_hash(url), url)),
{
    lemma_with_page_mirror(m, spec_url_hash(url), url);
}

/// Recording a link keeps children and parents mirrored: the child gains the
/// parent among its parents exactly as the parent gains the child among its children.
pub proof fn law_add_parent_keeps_mirror(m: Map<Seq<char>, LinkView>, child_url: Seq<char>, parent_url: Seq<char>)
    requires
        links_mirror(m),
    ensures
        links_mirror(with_parent(m, spec_url_hash(child_url), child_url, spec_url_hash(parent_url), parent_url)),
{
    let c = spec_url_hash(child_url);
    let p = spec_url_hash(parent_url);
    lemma_with_page_mirror(m, c, child_url);
    let m0 = with_page(m, c, child_url);
    lemma_with_page_mirror(m0, p, parent_url);
    let m1 = with_page(m0, p, parent_url);
    let m3 = with_parent(m, c, child_url, p, parent_url);
    assert(m1.contains_key(c) && m1.contains_key(p));
    assert(m3.dom() =~= m1.dom());
    assert forall|a: Seq<char>, b: Seq<char>| #![trigger m3[a].1.contains(b)] #![trigger m3[a].2.contains(b)] m3.contains_key(a) implies
        (m3[a].1.contains(b) <==> (m1[a].1.contains(b) || (a == p && b == c)))
        && (m3[a].2.contains(b) <==> (m1[a].2.contains(b) || (a == c && b == p))) by {
        if a == p {
            assert(m3[a].1 =~= m1[p].1.push(c));
            lemma_push_contains(m1[p].1, c, b);
            if p == c {
                assert(m3[a].2 =~= m1[c].2.push(p));
                lemma_push_contains(m1[c].2, p, b);
            } else {
                assert(m3[a].2 =~= m1[p].2);
            }
        } else if a == c {
            assert(m3[a].1 =~= m1[c].1);
            assert(m3[a].2 =~= m1[c].2.push(p));
            lemma_push_contains(m1[c].2, p, b);
        } else {
            assert(m3[a] == m1[a]);
        }
    }
    assert forall|a: Seq<char>, b: Seq<char>| m3.contains_key(a) && (m3[a].1.contains(b) || m3[a].2.contains(b))
        implies m3.contains_key(b) by {
        if m1[a].1.contains(b) || m1[a].2.contains(b) {
            assert(m1.contains_key(b));
        }
    }
    assert forall|a: Seq<char>, b: Seq<char>| m3.contains_key(a) && m3.contains_key(b)
        implies (m3[a].1.contains(b) <==> m3[b].2.contains(a)) by {
        assert(links_mirror(m1));
        assert(m1.contains_key(a) && m1.contains_key(b));
        assert(m1[a].1.contains(b) <==> m1[b].2.contains(a));
    }
}

/// What a sequence with one more element contains.
proof fn lemma_push_contains(s: Seq<Seq<char>>, x: Seq<char>, y: Seq<char>)
    ensures
        s.push(x).contains(y) <==> (s.contains(y) || y == x),
{
    let t = s.push(x);
    if s.contains(y) {
        let i = choose|i: int| 0 <= i < s.len() && s[i] == y;
        assert(t[i] == y);
    }
    if y == x {
        assert(t[s.len() as int] == y);
    }
    if t.contains(y) {
        let i = choose|i: int| 0 <= i < t.len() && t[i] == y;
        if i < s.len() {
            assert(s[i] == y);
        }
    }
}

/// Adding a page, when its id is new, gives a page with no children or parents.
proof fn lemma_with_page_mirror(m: Map<Seq<char>, LinkView>, id: Seq<char>, url: Seq<char>)
    requires
        links_mirror(m),
    ensures
        links_mirror(with_page(m, id, url)),
        with_page(m, id, url).contains_key(id),
        forall|k: Seq<char>| m.contains_key(k) ==> #[trigger] with_page(m, id, url)[k] == m[k],
        with_page(m, id, url).dom() == m.dom().insert(id),
{
    let m1 = with_page(m, id, url);
    if !m.contains_key(id) {
        assert(m1.dom() =~= m.dom().insert(id));
        assert forall|a: Seq<char>, b: Seq<char>| m1.contains_key(a) && (m1[a].1.contains(b) || m1[a].2.contains(b))
            implies m1.contains_key(b) by {
            if a == id {
                assert(m1[a].1.len() == 0 && m1[a].2.len() == 0);
            } else {
                assert(m1[a] == m[a]);
            }
        }
        assert forall|a: Seq<char>, b: Seq<char>| m1.contains_key(a) && m1.contains_key(b)
            implies (m1[a].1.contains(b) <==> m1[b].2.contains(a)) by {
            if a == id {
                assert(m1[a].1.len() == 0);
                if b != id {
                    assert(m1[b] == m[b]);
                    assert(!m[b].2.contains(a));
                }
            } else if b == id {
                assert(m1[b].2.len() == 0);
                assert(m1[a] == m[a]);
                assert(!m[a].1.contains(b));
            } else {
                assert(m1[a] == m[a] && m1[b] == m[b]);
            }
        }
    } else {
        assert(m1.dom() =~= m.dom().insert(id));
    }
}

/// Adding a page keeps every page under the hash of its URL.
pub proof fn law_add_link_keeps_hash_keys(m: Map<Seq<char>, LinkView>, url: Seq<char>)
    requires
        keyed_by_hash(m),
    ensures
        keyed_by_hash(with_page(m, spec_url_hash(url), url)),
{
}

/// Recording a link keeps every page under the hash of its URL: the URLs of
/// the pages do not change.
pub proof fn law_add_parent_keeps_hash_keys(m: Map<Seq<char>, LinkView>, child_url: Seq<char>, parent_url: Seq<char>)
    requires
        keyed_by_hash(m),
    ensures
        keyed_by_hash(with_parent(m, spec_url_hash(child_url), child_url, spec_url_hash(parent_url), parent_url)),
{
    let c = spec_url_hash(child_url);
    let p = spec_url_hash(parent_url);
    let m1 = with_page(with_page(m, c, child_url), p, parent_url);
    assert(keyed_by_hash(with_page(m, c, child_url)));
    assert(keyed_by_hash(m1));
    let m3 = with_parent(m, c, child_url, p, parent_url);
    assert forall|id: Seq<char>| #[trigger] m3.contains_key(id) implies spec_url_hash(m3[id].0) == id by {
        assert(m1.contains_key(id));
        assert(m3[id].0 == m1[id].0);
    }
}

} // verus!
