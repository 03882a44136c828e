//! Link extraction: resolving the links found on a page to absolute URLs,
//! and collecting the links of a fetched page that the crawl follows.

use crate::crawler::config::CrawlerConfig;
use crate::name_index::{NameIndex, position_of};
use crate::pathfinder::url_names;
use crate::web_url::{WebUrl, UrlView, UrlParseError, url_result_view, opt_string_view, spec_url_parse, spec_url_join, spec_url_set_path, spec_url_clear_fragment, spec_trim_trailing_slashes, lemma_trim_is_prefix, trim_trailing_slashes, url_parse, url_join, url_set_path, url_clear_fragment};
use vstd::prelude::*;

verus! {

/// The URL that `construct_url(path, root)` yields, for a root URL serialised as `root`:
/// an absolute `path` that has a host is taken as it is, anything else is
/// resolved against the root; then trailing slashes are trimmed from the
/// path and the fragment is dropped. Setting the path and dropping the
/// fragment of a URL the `url` crate made do not fail.
pub open spec fn spec_construct_url(path: Seq<char>, root: Seq<char>) -> Result<UrlView, UrlParseError> {
    let base = if spec_url_parse(path) matches Ok(u) && u.1 is Some {
        spec_url_parse(path)
    } else {
        spec_url_join(root, path)
    };
    match base {
        Err(e) => Err(e),
        Ok(b) => {
            let trimmed = spec_trim_trailing_slashes(b.2);
            if b.0.len() + 3 > u32::MAX {
                Err(UrlParseError::Overflow)
            } else {
                Ok(spec_url_clear_fragment(spec_url_set_path(b.0, trimmed)->Ok_0.0)->Ok_0)
            }
        }
    }
}

/// Resolves a link found on the page at `root_url` to an absolute URL.
///
/// If `path` is itself an absolute URL with a host it is taken as it is;
/// otherwise it is resolved against `root_url`. Trailing slashes are then
/// removed from the path and the fragment is dropped, so that links that
/// differ only in those name the same page. A URL whose serialisation comes
/// within three characters of `u32::MAX` gives `Overflow`: the `url` crate
/// keeps 32-bit offsets, and setting the path there could exceed them.
pub fn construct_url(path: &str, root_url: &WebUrl) -> (r: Result<WebUrl, UrlParseError>)
    ensures
        url_result_view(r) == spec_construct_url(path@, root_url@.0),
{
    let parsed = url_parse(path);
    let use_parsed = match &parsed {
        Ok(u) => u.host_str().is_some(),
        Err(_) => false,
    };
    let base = if use_parsed {
        parsed
    } else {
        url_join(root_url, path)
    };
    let base = match base {
        Ok(b) => b,
        Err(e) => {
            return Err(e);
        },
    };
    let trimmed = trim_trailing_slashes(base.path());
    let url_len: usize = base.as_str().unicode_len();
    if url_len > (u32::MAX - 3) as usize {
        return Err(UrlParseError::Overflow);
    }
    proof { lemma_trim_is_prefix(base@.2); }
    let with_path = match url_set_path(&base, trimmed.as_str()) {
        Ok(u) => u,
        Err(e) => {
            return Err(e);
        },
    };
    url_clear_fragment(&with_path)
}

/// Why a fetched page yields no links.
#[derive(Debug, Clone, Copy, PartialEq, Eq, Structural)]
pub enum ScrapeError {
    /// The server answered with this status, which is not a success.
    HttpStatus(u16),
    /// The selector for links could not be parsed.
    InvalidSelector,
}

/// An HTTP status in the success class, 200 to 299.
pub open spec fn status_is_success(status: u16) -> bool {
    200 <= status && status < 300
}

/// Whether a link is followed: links to other hosts only when the settings
/// allow them, otherwise only links to the page's own host.
pub open spec fn link_included(page: UrlView, link: UrlView, foreign_hosts: bool) -> bool {
    foreign_hosts || (page.1 is Some && page.1 == link.1)
}

/// The name of the followed link that an anchor target yields on `page`, if any.
pub open spec fn href_link(page: UrlView, href: Option<Seq<char>>, foreign_hosts: bool) -> Option<Seq<char>> {
    match href {
        None => None,
        Some(h) => match spec_construct_url(h, page.0) {
            Err(_) => None,
            Ok(u) => if link_included(page, u, foreign_hosts) { Some(u.0) } else { None },
        },
    }
}

/// The `k`-th attribute value resolves, against `page`, to a followed link named `name`.
pub open spec fn href_yields(page: UrlView, hrefs: Seq<Option<Seq<char>>>, foreign_hosts: bool, k: int, name: Seq<char>) -> bool {
    0 <= k < hrefs.len() && href_link(page, hrefs[k], foreign_hosts) == Some(name)
}

/// The `k`-th anchor target resolves, against `page`, to the followed URL `url`.
pub open spec fn href_gives(page: UrlView, hrefs: Seq<Option<Seq<char>>>, foreign_hosts: bool, k: int, url: UrlView) -> bool {
    &&& 0 <= k < hrefs.len()
    &&& hrefs[k] matches Some(h)
    &&& spec_construct_url(h, page.0) == Ok::<UrlView, UrlParseError>(url)
    &&& link_included(page, url, foreign_hosts)
}

/// Each of `urls` is the followed URL that some anchor target of `hrefs` resolves to.
pub open spec fn all_from_hrefs(page: UrlView, hrefs: Seq<Option<Seq<char>>>, foreign_hosts: bool, urls: Seq<WebUrl>) -> bool {
    forall|m: int| 0 <= m < urls.len() ==> #[trigger] from_some_href(page, hrefs, foreign_hosts, urls[m]@)
}

/// Some anchor target of `hrefs` resolves to the followed URL `url`.
pub open spec fn from_some_href(page: UrlView, hrefs: Seq<Option<Seq<char>>>, foreign_hosts: bool, url: UrlView) -> bool {
    exists|k: int| #[trigger] href_gives(page, hrefs, foreign_hosts, k, url)
}

/// The names of the links that a page with the anchor targets `hrefs` yields.
pub open spec fn page_link_names(page: UrlView, hrefs: Seq<Option<Seq<char>>>, foreign_hosts: bool) -> Set<Seq<char>> {
    Set::new(|name: Seq<char>| exists|k: int| #[trigger] href_yields(page, hrefs, foreign_hosts, k, name))
}

/// What `scraper` finds in the document `html`: for each element that
/// `selector` matches, in the order `Html::select` yields them, the value of its attribute `attribute`;
/// `None` when `selector` does not parse.
pub uninterp spec fn spec_select_attribute(html: Seq<char>, selector: Seq<char>, attribute: Seq<char>) -> Option<Seq<Option<Seq<char>>>>;

pub open spec fn opt_strings_view(v: Seq<Option<String>>) -> Seq<Option<Seq<char>>> {
    v.map_values(|o: Option<String>| opt_string_view(o))
}

/// Parses `html` with `scraper::Html::parse_document`, parses `selector` with
/// `scraper::Selector::parse`, and reads attribute `attribute` of each
/// element that `Html::select` yields, with `ElementRef::value().attr`.
/// The result is named `spec_select_attribute`.
#[verifier::external_body]
fn select_attribute(html: &str, selector: &str, attribute: &str) -> (r: Option<Vec<Option<String>>>)
    ensures
        match r {
            Some(v) => spec_select_attribute(html@, selector@, attribute@) == Some(opt_strings_view(v@)),
            None => spec_select_attribute(html@, selector@, attribute@) is None,
        },
{
    let document = scraper::Html::parse_document(html);
    match scraper::Selector::parse(selector) {
        Ok(sel) => Some(document.select(&sel).map(|e| e.value().attr(attribute).map(|a| a.to_string())).collect()),
        Err(_) => None,
    }
}

/// The links that a fetched page yields: for a successful response, every
/// anchor target of `html` that resolves against `page` to a URL the
/// settings follow, each once.
pub fn links_on_page(page: &WebUrl, status: u16, html: &str, config: &CrawlerConfig) -> (r: Result<Vec<WebUrl>, ScrapeError>)
    ensures
        !status_is_success(status) ==> r == Err::<Vec<WebUrl>, ScrapeError>(ScrapeError::HttpStatus(status)),
        status_is_success(status) && spec_select_attribute(html@, "a"@, "href"@) is None
            ==> r == Err::<Vec<WebUrl>, ScrapeError>(ScrapeError::InvalidSelector),
        status_is_success(status) ==> (spec_select_attribute(html@, "a"@, "href"@) matches Some(hrefs) ==> {
            &&& r is Ok
            &&& crate::name_index::all_distinct(url_names(r->Ok_0@))
            &&& url_names(r->Ok_0@).to_set() == page_link_names(page@, hrefs, config.scraping_foreign_hosts)
            &&& all_from_hrefs(page@, hrefs, config.scraping_foreign_hosts, r->Ok_0@)
        }),
{
    if !(200 <= status && status < 300) {
        return Err(ScrapeError::HttpStatus(status));
    }
    let hrefs = match select_attribute(html, "a", "href") {
        Some(v) => v,
        None => {
            return Err(ScrapeError::InvalidSelector);
        },
    };
    let ghost hv = opt_strings_view(hrefs@);
    let foreign = config.scraping_foreign_hosts;
    let mut seen = NameIndex::new();
    let mut found: Vec<WebUrl> = Vec::new();
    let mut k: usize = 0;
    while k < hrefs.len()
        invariant
            hv == opt_strings_view(hrefs@),
            k <= hrefs@.len(),
            seen.wf(),
            seen@.len() <= k,
            url_names(found@) == seen@,
            url_names(found@).to_set() == page_link_names(page@, hv.subrange(0, k as int), foreign),
            all_from_hrefs(page@, hv, foreign, found@),
        decreases hrefs@.len() - k,
    {
        let ghost before = seen@;
        let ghost part = hv.subrange(0, k as int);
        let ghost next = hv.subrange(0, k + 1);
        proof {
            assert(next =~= part.push(hv[k as int]));
        }
        match &hrefs[k] {
            Some(href) => {
                match construct_url(href.as_str(), page) {
                    Ok(link) => {
                        if foreign || page.same_host(&link) {
                            let ghost found0 = found@;
                            match seen.lookup(link.serialization_string()) {
                                Some(_) => {
                                    proof {
                                        assert(url_names(found@).to_set().contains(link@.0));
                                        assert(page_link_names(page@, next, foreign) =~= page_link_names(page@, part, foreign).insert(link@.0)) by {
                                            assert(href_yields(page@, next, foreign, k as int, link@.0));
                                            lemma_names_step(page@, part, hv[k as int], foreign);
                                        }
                                        assert(url_names(found@).to_set().insert(link@.0) =~= url_names(found@).to_set());
                                    }
                                },
                                None => {
                                    seen.insert(link.serialization_string().clone());
                                    let ghost lv = link@;
                                    let ghost lw = link;
                                    found.push(link);
                                    proof {
                                        assert(hv[k as int] == Some(href@));
                                        assert(href_gives(page@, hv, foreign, k as int, lv));
                                        assert(found@ =~= found0.push(lw));
                                        lemma_push_from_hrefs(page@, hv, foreign, found0, lw, k as int);
                                        assert(all_from_hrefs(page@, hv, foreign, found@));
                                        assert(url_names(found@) =~= url_names(found0).push(found@.last()@.0));
                                        url_names(found0).lemma_push_to_set_commute(found@.last()@.0);
                                        lemma_names_step(page@, part, hv[k as int], foreign);
                                    }
                                },
                            }
                        } else {
                            proof { lemma_names_step(page@, part, hv[k as int], foreign); }
                        }
                    },
                    Err(_) => {
                        proof { lemma_names_step(page@, part, hv[k as int], foreign); }
                    },
                }
            },
            None => {
                proof { lemma_names_step(page@, part, hv[k as int], foreign); }
                    },
        }
        k = k + 1;
    }
    proof {
        assert(hv.subrange(0, hv.len() as int) =~= hv);
        seen.lemma_wf();
    }
    Ok(found)
}

/// A URL that an anchor target resolves to can join URLs that all come from anchor targets.
proof fn lemma_push_from_hrefs(page: UrlView, hrefs: Seq<Option<Seq<char>>>, foreign: bool, urls: Seq<WebUrl>, u: WebUrl, k: int)
    requires
        all_from_hrefs(page, hrefs, foreign, urls),
        href_gives(page, hrefs, foreign, k, u@),
    ensures
        all_from_hrefs(page, hrefs, foreign, urls.push(u)),
{
    let v = urls.push(u);
    assert forall|m: int| 0 <= m < v.len() implies #[trigger] from_some_href(page, hrefs, foreign, v[m]@) by {
        if m < urls.len() {
            assert(v[m] == urls[m]);
            assert(from_some_href(page, hrefs, foreign, urls[m]@));
        } else {
            assert(v[m] == u);
            assert(href_gives(page, hrefs, foreign, k, v[m]@));
        }
    }
}

/// Adding one more anchor target adds at most the link it yields.
proof fn lemma_names_step(page: UrlView, part: Seq<Option<Seq<char>>>, h: Option<Seq<char>>, foreign: bool)
    ensures
        page_link_names(page, part.push(h), foreign) == (
            match href_link(page, h, foreign) {
                Some(name) => page_link_names(page, part, foreign).insert(name),
                None => page_link_names(page, part, foreign),
            }),
{
    let next = part.push(h);
    let k = part.len() as int;
    let old_set = page_link_names(page, part, foreign);
    let new_set = page_link_names(page, next, foreign);
    assert forall|name: Seq<char>| old_set.contains(name) implies new_set.contains(name) by {
        let i = choose|i: int| #[trigger] href_yields(page, part, foreign, i, name);
        assert(next[i] == part[i]);
        assert(href_yields(page, next, foreign, i, name));
    }
    assert forall|name: Seq<char>| new_set.contains(name) && !old_set.contains(name)
        implies href_yields(page, next, foreign, k, name) by {
        let i = choose|i: int| #[trigger] href_yields(page, next, foreign, i, name);
        if i < k {
            assert(next[i] == part[i]);
            assert(href_yields(page, part, foreign, i, name));
        }
    }
    if let Some(name) = href_link(page, h, foreign) {
        assert(href_yields(page, next, foreign, k, name));
        assert(new_set =~= old_set.insert(name));
    } else {
        assert(new_set =~= old_set);
    }
}

/// The normal form of a URL: trailing slashes trimmed from its path (with
/// `url::Url::set_path`), then its fragment dropped (with `url::Url::set_fragment(None)`).
pub open spec fn normal_form(u: UrlView) -> UrlView {
    spec_url_clear_fragment(spec_url_set_path(u.0, spec_trim_trailing_slashes(u.2))->Ok_0.0)->Ok_0
}

/// Whether `path` parses as an absolute URL with a host.
pub open spec fn is_absolute_with_host(path: Seq<char>) -> bool {
    spec_url_parse(path) matches Ok(v) && v.1 is Some
}

/// Whatever the branch, a resolved link is normalised. An absolute link with
/// a host resolves to the normal form of the link itself, whatever the page;
/// any other link to the normal form of its join with the page, and to the
/// join's error when the join fails. Every URL that `construct_url` yields is
/// the normal form of the parsed or joined link.
pub proof fn law_construct_url_normalises(path: Seq<char>, root: Seq<char>, other_root: Seq<char>)
    ensures
        spec_construct_url(path, root) matches Ok(u) ==> exists|b: UrlView|
            #[trigger] normal_form(b) == u && (spec_url_parse(path) == Ok::<UrlView, UrlParseError>(b)
                || spec_url_join(root, path) == Ok::<UrlView, UrlParseError>(b)),
        spec_url_parse(path) matches Ok(v) && v.1 is Some
            ==> spec_construct_url(path, root) == spec_construct_url(path, other_root),
        spec_url_parse(path) matches Ok(v)
            ==> (v.1 is Some && v.0.len() + 3 <= u32::MAX ==> spec_construct_url(path, root) == Ok::<UrlView, UrlParseError>(normal_form(v))),
        spec_url_join(root, path) matches Err(e)
            ==> (!is_absolute_with_host(path) ==> spec_construct_url(path, root) == Err::<UrlView, UrlParseError>(e)),
        spec_url_join(root, path) matches Ok(j)
            ==> (!is_absolute_with_host(path) && j.0.len() + 3 <= u32::MAX
                ==> spec_construct_url(path, root) == Ok::<UrlView, UrlParseError>(normal_form(j))),
{
    match spec_construct_url(path, root) {
        Ok(u) => {
            if is_absolute_with_host(path) {
                let v = spec_url_parse(path)->Ok_0;
                assert(normal_form(v) == u);
            } else {
                let j = spec_url_join(root, path)->Ok_0;
                assert(normal_form(j) == u);
            }
        },
        Err(_) => {},
    }
}

/// Whether a resolved link is followed depends only on the setting and the
/// hosts: every anchor target that resolves to a URL is followed when links
/// to other hosts are, and otherwise whenever the URL has the page's host,
/// whatever its path (a link back to the page itself included). Conversely,
/// every followed link comes from such an anchor target.
pub proof fn law_followed_links(page: UrlView, hrefs: Seq<Option<Seq<char>>>, foreign_hosts: bool, k: int, url: UrlView)
    requires
        0 <= k < hrefs.len(),
        hrefs[k] matches Some(h) && spec_construct_url(h, page.0) == Ok::<UrlView, UrlParseError>(url),
        foreign_hosts || (page.1 is Some && url.1 == page.1),
    ensures
        page_link_names(page, hrefs, foreign_hosts).contains(url.0),
{
    assert(href_yields(page, hrefs, foreign_hosts, k, url.0));
}

/// Every followed link comes from an anchor target that resolves to it and
/// passes the host filter: with links to other hosts off, it has the page's host.
pub proof fn law_followed_links_have_the_page_host(page: UrlView, hrefs: Seq<Option<Seq<char>>>, name: Seq<char>)
    requires
        page_link_names(page, hrefs, false).contains(name),
    ensures
        exists|k: int| 0 <= k < hrefs.len() && (#[trigger] hrefs[k] matches Some(h)
            && spec_construct_url(h, page.0) matches Ok(u) && u.0 == name && page.1 is Some && u.1 == page.1),
{
    let k = choose|k: int| #[trigger] href_yields(page, hrefs, false, k, name);
    assert(hrefs[k] is Some);
}

} // verus!
