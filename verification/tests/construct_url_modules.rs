use wikiracer::crawler::construct_url;
use wikiracer::web_url::WebUrl;

#[test]
fn tests_test_get_url() {
    let root_url = WebUrl::parse("https://google.com").unwrap();
    let another_full_url = WebUrl::parse("https://anotherlink.com");
    let result_url = construct_url(another_full_url.clone().unwrap().as_str(), &root_url).unwrap();
    assert_eq!(result_url, another_full_url.unwrap());
}

#[test]
fn tests_test_get_url_with_relative_path() {
    let root_url = WebUrl::parse("https://groq.xyz").unwrap();
    let relative_path = "/some/relative/path";
    let result_url = construct_url(relative_path, &root_url).unwrap();
    let expected_url = WebUrl::parse("https://groq.xyz/some/relative/path").unwrap();
    assert_eq!(result_url, expected_url);
}

#[test]
fn tests_test_malformed_url() {
    let root_url = WebUrl::parse("https://valid.root.url").unwrap();
    let malformed_url = "this_is_a_malformed_url";
    let result_url = construct_url(malformed_url, &root_url);
    assert_eq!("https://valid.root.url/this_is_a_malformed_url", result_url.unwrap().as_str().to_string());
}

#[test]
fn tests_test_empty_path() {
    let root_url = WebUrl::parse("https://groq.xyz").unwrap();
    let result_url = construct_url("", &root_url).unwrap();
    let expected_url = WebUrl::parse("https://groq.xyz/").unwrap();
    assert_eq!(result_url, expected_url);
}

#[test]
fn tests_test_url_with_query() {
    let root_url = WebUrl::parse("https://groq.xyz").unwrap();
    let relative_path = "/some/relative/path?query=1";
    let result_url = construct_url(relative_path, &root_url).unwrap();
    let expected_url = WebUrl::parse("https://groq.xyz/some/relative/path?query=1").unwrap();
    assert_eq!(result_url, expected_url);
}

#[test]
fn tests_test_hash_fragment() {
    let root_url = WebUrl::parse("https://groq.xyz").unwrap();
    let relative_path = "/some/relative/path#section/";
    let result_url = construct_url(relative_path, &root_url).unwrap();
    let expected_url = WebUrl::parse("https://groq.xyz/some/relative/path").unwrap();
    assert_eq!(result_url, expected_url);
}

#[test]
fn tests_test_get_url_with_link_with_trailing_slash() {
    let root_url = WebUrl::parse("https://groq.xyz").unwrap();
    let relative_path_wo_trailing_slash = "/some/relative/path";
    let relative_path_w_trailing_slash = "/some/relative/path/";
    let result_wo_trailing_slash = construct_url(relative_path_wo_trailing_slash, &root_url).unwrap();
    let result_w_trailing_slash = construct_url(relative_path_w_trailing_slash, &root_url).unwrap();
    assert_eq!(result_wo_trailing_slash, result_w_trailing_slash);
}

#[test]
fn tests_test_url_normalization() {
    let base = WebUrl::parse("https://en.wikipedia.org/wiki/Matter").unwrap();
    let url1 = construct_url("/wiki/Grand_Unified_Theory#History", &base).unwrap();
    let url2 = construct_url("/wiki/Grand_Unified_Theory", &base).unwrap();
    assert_eq!(url1, url2, "URLs with and without fragments should be equal");
    let url3 = construct_url("/wiki/Grand_Unified_Theory/", &base).unwrap();
    assert_eq!(url2, url3, "URLs with and without trailing slash should be equal");
}
