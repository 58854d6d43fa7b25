use crawl::{
    CrawledUrl, CrawlerError, CrawlerMessage, CrawlerQueue, Scheduler, Step, UrlFilter,
    UrlFilterRules, WebUrl, WorkerMessage,
};

fn url(s: &str) -> WebUrl {
    WebUrl::parse(s).unwrap()
}

fn scheduler(max_jobs: usize, only_subdirs: bool, roots: &[&str]) -> Scheduler {
    let filter = UrlFilter::new(
        UrlFilterRules { only_subdirs },
        roots.iter().map(|r| url(r)).collect(),
    );
    let mut s = Scheduler::new(CrawlerQueue::new(false, None, None), filter, max_jobs);
    s.start(roots.iter().map(|r| url(r)).collect());
    s
}

fn dispatched(step: Step) -> (usize, CrawledUrl) {
    match step {
        Step::Dispatch { worker, url } => (worker, url),
        _ => panic!("expected a dispatch"),
    }
}

#[test]
fn no_more_dispatches_than_workers() {
    let mut s = scheduler(
        2,
        false,
        &["https://a.example/1", "https://a.example/2", "https://a.example/3"],
    );
    let (w0, u0) = dispatched(s.next_step());
    let (w1, u1) = dispatched(s.next_step());
    assert_eq!((w0, w1), (0, 1));
    assert_eq!(u0.url.text, "https://a.example/1");
    assert_eq!(u1.url.text, "https://a.example/2");
    assert_eq!(s.active_workers(), 2);
    assert!(matches!(s.next_step(), Step::Wait));
    assert!(matches!(s.next_step(), Step::Wait));
    assert!(s.complete(1, WorkerMessage::Success(Vec::new())).is_none());
    assert_eq!(s.active_workers(), 1);
    let (w2, u2) = dispatched(s.next_step());
    assert_eq!(w2, 1);
    assert_eq!(u2.url.text, "https://a.example/3");
    assert!(matches!(s.next_step(), Step::Wait));
    s.complete(0, WorkerMessage::Success(Vec::new()));
    assert!(matches!(s.next_step(), Step::Wait));
    s.complete(1, WorkerMessage::Success(Vec::new()));
    assert_eq!(s.active_workers(), 0);
    assert!(matches!(s.next_step(), Step::Done));
}

#[test]
fn empty_crawl_is_done_at_once() {
    let mut s = scheduler(3, true, &[]);
    assert_eq!(s.max_jobs(), 3);
    assert!(matches!(s.next_step(), Step::Done));
}

#[test]
fn failure_is_reported_and_not_retried() {
    let mut s = scheduler(1, false, &["https://a.example/"]);
    let (w, u) = dispatched(s.next_step());
    let error = CrawlerError::CannotSendRequest { url: Some(u.url.text.clone()), cause: None };
    match s.complete(w, WorkerMessage::Failure(error)) {
        Some(CrawlerMessage::Error(failed, e)) => {
            assert_eq!(failed.text, "https://a.example/");
            assert_eq!(e.message(), "Failed to send request to https://a.example/")
        }
        _ => panic!("expected an error event"),
    }
    assert!(matches!(s.next_step(), Step::Done));
}

#[test]
fn error_event_names_the_url_of_that_worker() {
    let mut s = scheduler(2, false, &["https://a.example/1", "https://a.example/2"]);
    let (w0, _) = dispatched(s.next_step());
    let (w1, _) = dispatched(s.next_step());
    assert!(s.is_busy(w0) && s.is_busy(w1));
    let error = CrawlerError::CannotSendRequest { url: None, cause: None };
    match s.complete(w1, WorkerMessage::Failure(error)) {
        Some(CrawlerMessage::Error(failed, _)) => assert_eq!(failed.text, "https://a.example/2"),
        _ => panic!("expected an error event"),
    }
    assert!(!s.is_busy(w1));
    let error = CrawlerError::CannotSendRequest { url: None, cause: None };
    match s.complete(w0, WorkerMessage::Failure(error)) {
        Some(CrawlerMessage::Error(failed, _)) => assert_eq!(failed.text, "https://a.example/1"),
        _ => panic!("expected an error event"),
    }
    assert!(matches!(s.next_step(), Step::Done));
}

#[test]
fn out_of_scope_links_are_dropped() {
    let mut s = scheduler(1, true, &["https://a.example/docs/"]);
    let (w, parent) = dispatched(s.next_step());
    let links = vec![
        parent.push_new(url("https://a.example/docs/x")),
        parent.push_new(url("https://a.example/other")),
        parent.push_new(url("https://b.example/docs/x")),
    ];
    s.complete(w, WorkerMessage::Success(links));
    let (w, next) = dispatched(s.next_step());
    assert_eq!(next.url.text, "https://a.example/docs/x");
    assert_eq!(next.depth, 1);
    s.complete(w, WorkerMessage::Success(Vec::new()));
    assert!(matches!(s.next_step(), Step::Done));
}

/// Runs a crawl over a fixed link graph, completing the oldest fetch in
/// flight whenever the scheduler waits; returns the URLs in dispatch order.
fn run(graph: &[(&str, &[&str])], roots: &[&str], max_jobs: usize) -> Vec<String> {
    let mut s = scheduler(max_jobs, false, roots);
    let mut in_flight: Vec<(usize, CrawledUrl)> = Vec::new();
    let mut order = Vec::new();
    for _ in 0..1000 {
        match s.next_step() {
            Step::Dispatch { worker, url } => {
                order.push(url.url.text.clone());
                in_flight.push((worker, url));
            }
            Step::Wait => {
                let (worker, page) = in_flight.remove(0);
                let targets = graph
                    .iter()
                    .find(|(from, _)| *from == page.url.text)
                    .map(|(_, to)| *to)
                    .unwrap_or(&[]);
                let links = targets.iter().map(|t| page.push_new(url(t))).collect();
                s.complete(worker, WorkerMessage::Success(links));
            }
            Step::Done => return order,
        }
    }
    panic!("the crawl did not end");
}

#[test]
fn finite_graph_drains_without_duplicate_dispatch() {
    let root = "https://a.example/";
    let page_one = "https://a.example/page_one";
    let page_two = "https://a.example/page_two";
    let graph: &[(&str, &[&str])] = &[(root, &[page_one, page_two]), (page_one, &[]), (page_two, &[page_one])];
    let order = run(graph, &[root], 1);
    assert_eq!(order, vec![root.to_string(), page_one.to_string(), page_two.to_string()]);
    let order = run(graph, &[root], 4);
    assert_eq!(order.len(), 3);
    assert_eq!(order.iter().filter(|u| u.as_str() == page_one).count(), 1);
}

#[test]
fn cyclic_graph_ends() {
    let a = "https://a.example/a";
    let b = "https://a.example/b";
    let graph: &[(&str, &[&str])] = &[(a, &[b, a]), (b, &[a, b])];
    let order = run(graph, &[a, b, a], 2);
    assert_eq!(order, vec![a.to_string(), b.to_string()]);
}
