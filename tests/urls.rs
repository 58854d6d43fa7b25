use crawl::{
    is_crawlable_content_type, link_from_href, link_from_resolved, link_target, CrawledUrl,
    CrawlerError, CrawlerRules, UrlFilter, UrlFilterRules, WebUrl,
};

fn url(s: &str) -> WebUrl {
    WebUrl::parse(s).unwrap()
}

fn root(s: &str) -> CrawledUrl {
    CrawledUrl::root(url(s))
}

#[test]
fn parse_reads_the_parts() {
    let u = url("https://a.example:8443/docs/x?q=1");
    assert_eq!(u.text, "https://a.example:8443/docs/x?q=1");
    assert_eq!(u.scheme, "https");
    assert_eq!(u.host.as_deref(), Some("a.example"));
    assert_eq!(u.port, Some(8443));
    assert_eq!(u.path, "/docs/x");
    let o = u.origin.unwrap();
    assert_eq!((o.scheme.as_str(), o.host.as_str(), o.port), ("https", "a.example", 8443));
}

#[test]
fn parse_normalizes_the_text() {
    let u = url("HTTPS://A.example:443");
    assert_eq!(u.text, "https://a.example/");
    assert_eq!(u.port, None);
    assert_eq!(u.origin.unwrap().port, 443);
}

#[test]
fn parse_rejects_invalid_text() {
    assert!(WebUrl::parse("not a url").is_none());
    assert!(WebUrl::parse("/relative/path").is_none());
}

#[test]
fn join_resolves_relative_references() {
    let base = url("https://a.example/docs/index.html");
    assert_eq!(base.join("x").unwrap().text, "https://a.example/docs/x");
    assert_eq!(base.join("/other").unwrap().text, "https://a.example/other");
    assert_eq!(base.join("https://b.example/").unwrap().text, "https://b.example/");
    assert!(base.join("http://[bad").is_none());
}

#[test]
fn same_origin_compares_sites() {
    let a = url("https://a.example/x");
    assert!(a.same_origin(&url("https://a.example:443/y")));
    assert!(!a.same_origin(&url("http://a.example/x")));
    assert!(!a.same_origin(&url("https://b.example/x")));
    let m = url("mailto:x@a.example");
    assert!(!m.same_origin(&m));
}

#[test]
fn push_new_counts_hops_and_site_changes() {
    let parent = CrawledUrl { url: url("https://a.example/"), depth: 3, origin_depth: 1 };
    let same = parent.push_new(url("https://a.example/next"));
    assert_eq!((same.depth, same.origin_depth), (4, 1));
    let other = parent.push_new(url("https://b.example/"));
    assert_eq!((other.depth, other.origin_depth), (4, 2));
    assert_eq!(other.url.text, "https://b.example/");
}

#[test]
fn same_site_child_at_largest_origin_depth() {
    let parent = CrawledUrl { url: url("https://a.example/"), depth: 0, origin_depth: u32::MAX };
    let child = parent.push_new(url("https://a.example/next"));
    assert_eq!((child.depth, child.origin_depth), (1, u32::MAX));
    let linked = link_from_href(&parent, "next").unwrap();
    assert_eq!(linked.origin_depth, u32::MAX);
    assert!(link_from_href(&parent, "https://b.example/").is_none());
}

#[test]
fn scope_filter_keeps_subdirectories_of_roots() {
    let filter = UrlFilter::new(UrlFilterRules { only_subdirs: true }, vec![url("https://a.example/docs/")]);
    assert!(filter.matches(&url("https://a.example/docs/x")));
    assert!(!filter.matches(&url("https://a.example/other")));
    assert!(!filter.matches(&url("https://b.example/docs/x")));
    assert!(!filter.matches(&url("http://a.example/docs/x")));
    assert!(!filter.matches(&url("https://a.example:8080/docs/x")));
}

#[test]
fn scope_filter_without_subdir_rule_keeps_everything() {
    let filter = UrlFilter::new(UrlFilterRules { only_subdirs: false }, vec![url("https://a.example/docs/")]);
    assert!(filter.matches(&url("https://b.example/other")));
    let no_roots = UrlFilter::new(UrlFilterRules { only_subdirs: true }, Vec::new());
    assert!(!no_roots.matches(&url("https://a.example/docs/")));
}

#[test]
fn crawler_rules_match_like_the_filter() {
    let rules = CrawlerRules { only_subdirs: true, roots: vec![url("https://a.example/docs/"), url("https://c.example/")] };
    assert!(rules.matches(&url("https://a.example/docs/x")));
    assert!(rules.matches(&url("https://c.example/anything")));
    assert!(!rules.matches(&url("https://a.example/other")));
    let open = CrawlerRules { only_subdirs: false, roots: Vec::new() };
    assert!(open.matches(&url("https://z.example/")));
}

#[test]
fn content_types_that_are_read() {
    assert!(is_crawlable_content_type(None));
    assert!(is_crawlable_content_type(Some("text/html; charset=utf-8")));
    assert!(is_crawlable_content_type(Some("application/html")));
    assert!(is_crawlable_content_type(Some("application/xml")));
    assert!(is_crawlable_content_type(Some("text/xml")));
    assert!(!is_crawlable_content_type(Some("image/png")));
    assert!(!is_crawlable_content_type(Some("application/json")));
    assert!(!is_crawlable_content_type(Some("")));
}

fn attrs(pairs: &[(&str, &str)]) -> Vec<(String, String)> {
    pairs.iter().map(|(a, b)| (a.to_string(), b.to_string())).collect()
}

#[test]
fn link_target_reads_href_of_link_tags() {
    let a = attrs(&[("class", "nav"), ("href", "/x"), ("href", "/y")]);
    assert_eq!(link_target(true, "a", &a), Some("/x".to_string()));
    assert_eq!(link_target(true, "atom:link", &a), Some("/x".to_string()));
    assert_eq!(link_target(false, "a", &a), None);
    assert_eq!(link_target(true, "div", &a), None);
    assert_eq!(link_target(true, "a", &attrs(&[("class", "nav")])), None);
}

#[test]
fn links_resolve_against_the_page() {
    let parent = root("https://a.example/docs/");
    let child = link_from_href(&parent, "x").unwrap();
    assert_eq!(child.url.text, "https://a.example/docs/x");
    assert_eq!((child.depth, child.origin_depth), (1, 0));
    let away = link_from_href(&parent, "http://b.example/").unwrap();
    assert_eq!(away.url.text, "http://b.example/");
    assert_eq!((away.depth, away.origin_depth), (1, 1));
}

#[test]
fn only_web_links_are_followed() {
    let parent = root("https://a.example/");
    assert!(link_from_href(&parent, "mailto:x@a.example").is_none());
    assert!(link_from_href(&parent, "ftp://a.example/file").is_none());
    assert!(link_from_href(&parent, "http://[bad").is_none());
    assert!(link_from_resolved(&parent, None).is_none());
    assert!(link_from_resolved(&parent, Some(url("javascript:void(0)"))).is_none());
    let kept = link_from_resolved(&parent, Some(url("https://a.example/z"))).unwrap();
    assert_eq!((kept.depth, kept.origin_depth), (1, 0));
}

#[test]
fn error_message_names_the_target() {
    let e = CrawlerError::CannotSendRequest { url: Some("https://a.example/".to_string()), cause: None };
    assert_eq!(e.message(), "Failed to send request to https://a.example/");
    let e = CrawlerError::CannotSendRequest { url: None, cause: Some("connection refused".to_string()) };
    assert_eq!(e.message(), "Failed to send request to [unknown] (connection refused)");
}
