//! A concurrent web crawler's core: the crawl frontier, the scope filter and
//! the master scheduling state machine, with their contracts.

mod address;
mod error;
mod fetching;
mod filter;
mod queue;
mod rules;
mod scheduler;
mod text;

pub use address::{url_parse, Origin, WebUrl};
pub use error::CrawlerError;
pub use fetching::{
    crawlable_spec, first_href, is_crawlable_content_type, is_link_tag, link_from_href,
    link_from_resolved, link_target,
};
pub use filter::{host_text, in_scope, under_root, CrawledUrl, UrlFilter, UrlFilterRules};
pub use queue::{
    distinct_texts, lemma_depth_bound, lemma_enqueue_twice, lemma_robots_deferral,
    lemma_robots_rejection, within, CrawlerQueue, FrontierView,
};
pub use rules::CrawlerRules;
pub use scheduler::{
    busy_count, lemma_bounded_concurrency, lemma_dispatch_once, lemma_enqueue_all_grows,
    lemma_crawl_ends, lemma_progress, root_entries, scoped, CrawlerMessage, Scheduler, SchedulerView, Step,
    WorkerMessage,
};
pub use text::{has_prefix, same_text};
