use crawl::{CrawledUrl, CrawlerQueue, WebUrl};

fn url(s: &str) -> WebUrl {
    WebUrl::parse(s).unwrap()
}

fn entry(s: &str, depth: u32, origin_depth: u32) -> CrawledUrl {
    CrawledUrl {
        url: url(s),
        depth,
        origin_depth,
    }
}

#[test]
fn test_add_and_take_without_robots() {
    let mut queue = CrawlerQueue::new(false, None, None);

    let url = CrawledUrl {
        url: url("https://google.com/search"),
        depth: 0,
        origin_depth: 0,
    };

    queue.check_and_queue(url);
    assert!(queue.take().is_some())
}

#[test]
fn test_add_and_take_with_allowed_robots() {
    let mut queue = CrawlerQueue::new(true, None, None);
    queue.set_allowed_by_robots(url("https://google.com/search").origin.unwrap(), true);

    let url = CrawledUrl {
        url: url("https://google.com/search"),
        depth: 0,
        origin_depth: 0,
    };

    queue.check_and_queue(url);
    assert!(queue.take().is_some())
}

#[test]
fn test_add_take_set_allowed_robots_and_take_again() {
    let mut queue = CrawlerQueue::new(true, None, None);

    let url = CrawledUrl {
        url: url("https://google.com/search"),
        depth: 0,
        origin_depth: 0,
    };

    queue.check_and_queue(url);
    assert!(queue.take().is_none());
    assert!(queue.take().is_none());

    queue.set_allowed_by_robots(crate::url("https://google.com/search").origin.unwrap(), true);

    assert!(queue.take().is_some())
}

#[test]
fn test_add_take_set_disallowed_robots_and_take_again() {
    let mut queue = CrawlerQueue::new(true, None, None);

    let url = CrawledUrl {
        url: url("https://google.com/search"),
        depth: 0,
        origin_depth: 0,
    };

    queue.check_and_queue(url);
    assert!(queue.take().is_none());
    assert!(queue.take().is_none());

    queue.set_allowed_by_robots(crate::url("https://google.com/search").origin.unwrap(), false);

    assert!(queue.take().is_none())
}

#[test]
fn same_url_is_admitted_once() {
    let mut queue = CrawlerQueue::new(false, None, None);
    assert!(queue.check_and_queue(entry("https://a.example/page", 0, 0)));
    assert!(!queue.check_and_queue(entry("https://a.example/page", 1, 0)));
    let first = queue.take().unwrap();
    assert_eq!(first.url.text, "https://a.example/page");
    assert_eq!(first.depth, 0);
    assert!(queue.take().is_none());
    assert!(queue.is_empty());
}

#[test]
fn dedup_is_by_exact_text() {
    let mut queue = CrawlerQueue::new(false, None, None);
    assert!(queue.check_and_queue(entry("https://a.example/page", 0, 0)));
    assert!(queue.check_and_queue(entry("https://a.example/page/", 0, 0)));
    assert!(queue.take().is_some());
    assert!(queue.take().is_some());
    assert!(queue.take().is_none());
}

#[test]
fn taken_url_is_not_admitted_again() {
    let mut queue = CrawlerQueue::new(false, None, None);
    assert!(queue.check_and_queue(entry("https://a.example/", 0, 0)));
    assert!(queue.take().is_some());
    assert!(!queue.check_and_queue(entry("https://a.example/", 0, 0)));
    assert!(queue.is_empty());
}

#[test]
fn depth_bound_rejects_deeper_candidates() {
    let mut queue = CrawlerQueue::new(false, None, Some(1));
    assert!(queue.check_and_queue(entry("https://a.example/one", 1, 0)));
    assert!(!queue.check_and_queue(entry("https://a.example/two", 2, 0)));
    assert_eq!(queue.take().unwrap().url.text, "https://a.example/one");
    assert!(queue.take().is_none());
    // A rejected candidate was never recorded as seen.
    let mut unbounded = CrawlerQueue::new(false, None, Some(2));
    assert!(unbounded.check_and_queue(entry("https://a.example/two", 2, 0)));
}

#[test]
fn origin_depth_bound_rejects_candidates() {
    let mut queue = CrawlerQueue::new(false, Some(0), None);
    assert!(queue.check_and_queue(entry("https://a.example/", 5, 0)));
    assert!(!queue.check_and_queue(entry("https://b.example/", 1, 1)));
    assert!(queue.take().is_some());
    assert!(queue.take().is_none());
}

#[test]
fn pending_entries_come_out_in_order() {
    let mut queue = CrawlerQueue::new(false, None, None);
    queue.check_and_queue_iter(vec![
        entry("https://a.example/1", 0, 0),
        entry("https://a.example/2", 0, 0),
        entry("https://a.example/1", 0, 0),
        entry("https://a.example/3", 0, 0),
    ]);
    assert_eq!(queue.take().unwrap().url.text, "https://a.example/1");
    assert_eq!(queue.take().unwrap().url.text, "https://a.example/2");
    assert_eq!(queue.take().unwrap().url.text, "https://a.example/3");
    assert!(queue.take().is_none());
}

#[test]
fn empty_queue_takes_nothing() {
    let mut queue = CrawlerQueue::new(false, None, None);
    assert!(queue.is_empty());
    assert!(queue.take().is_none());
    let mut gated = CrawlerQueue::new(true, None, None);
    assert!(gated.is_empty());
    assert!(gated.take().is_none());
}

#[test]
fn unknown_site_does_not_block_other_sites() {
    let mut queue = CrawlerQueue::new(true, None, None);
    queue.check_and_queue(entry("https://slow.example/a", 0, 0));
    queue.check_and_queue(entry("https://fast.example/b", 0, 0));
    queue.set_allowed_by_robots(url("https://fast.example/").origin.unwrap(), true);
    assert!(!queue.is_empty());
    assert_eq!(queue.take().unwrap().url.text, "https://fast.example/b");
    assert!(queue.is_empty());
    assert!(queue.take().is_none());
    queue.set_allowed_by_robots(url("https://slow.example/").origin.unwrap(), true);
    assert_eq!(queue.take().unwrap().url.text, "https://slow.example/a");
}

#[test]
fn deferred_entry_is_taken_after_allowing() {
    let mut queue = CrawlerQueue::new(true, None, None);
    assert!(queue.check_and_queue(entry("https://a.example/x", 0, 0)));
    assert!(queue.is_empty());
    assert!(queue.take().is_none());
    assert!(queue.take().is_none());
    queue.set_allowed_by_robots(url("https://a.example/").origin.unwrap(), true);
    assert!(!queue.is_empty());
    assert_eq!(queue.take().unwrap().url.text, "https://a.example/x");
}

#[test]
fn disallowed_entry_never_reappears() {
    let mut queue = CrawlerQueue::new(true, None, None);
    assert!(queue.check_and_queue(entry("https://a.example/x", 0, 0)));
    assert!(queue.take().is_none());
    queue.set_allowed_by_robots(url("https://a.example/").origin.unwrap(), false);
    assert!(queue.take().is_none());
    queue.set_allowed_by_robots(url("https://b.example/").origin.unwrap(), true);
    assert!(queue.take().is_none());
    queue.set_allowed_by_robots(url("https://a.example/").origin.unwrap(), true);
    assert!(queue.take().is_none());
    assert!(queue.is_empty());
}

#[test]
fn verdict_for_a_site_can_change() {
    let mut queue = CrawlerQueue::new(true, None, None);
    queue.set_allowed_by_robots(url("https://a.example/").origin.unwrap(), false);
    queue.set_allowed_by_robots(url("https://a.example/").origin.unwrap(), true);
    queue.check_and_queue(entry("https://a.example/x", 0, 0));
    assert!(queue.take().is_some());
}

#[test]
fn opaque_origin_never_gets_a_verdict() {
    let mut queue = CrawlerQueue::new(true, None, None);
    queue.check_and_queue(entry("mailto:someone@a.example", 0, 0));
    queue.set_allowed_by_robots(url("https://a.example/").origin.unwrap(), true);
    assert!(queue.take().is_none());
    assert!(queue.is_empty());
}
