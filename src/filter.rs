use vstd::prelude::*;

use crate::address::WebUrl;
use crate::text::{has_prefix, same_text};

verus! {

/// A discovered URL with where it was found: `depth` counts the hops from a
/// root (a root has depth 0), `origin_depth` the changes of site on that path.
#[derive(Clone, Debug)]
pub struct CrawledUrl {
    pub url: WebUrl,
    pub depth: u32,
    pub origin_depth: u32,
}

impl CrawledUrl {
    /// A root of the crawl.
    pub fn root(url: WebUrl) -> (r: CrawledUrl)
        ensures
            r.url == url,
            r.depth == 0,
            r.origin_depth == 0,
    {
        CrawledUrl { url, depth: 0, origin_depth: 0 }
    }

    /// The URL `new`, found in the page at this one: one hop deeper, and one
    /// more change of site where the two origins differ.
    pub open spec fn child(&self, new: WebUrl) -> CrawledUrl {
        CrawledUrl {
            url: new,
            depth: (self.depth + 1) as u32,
            origin_depth: if self.url.same_origin_spec(&new) {
                self.origin_depth
            } else {
                (self.origin_depth + 1) as u32
            },
        }
    }

    pub fn push_new(&self, new: WebUrl) -> (r: CrawledUrl)
        requires
            self.depth < u32::MAX,
            !self.url.same_origin_spec(&new) ==> self.origin_depth < u32::MAX,
        ensures
            r == self.child(new),
    {
        let is_other_origin = !self.url.same_origin(&new);
        CrawledUrl {
            url: new,
            depth: self.depth + 1,
            origin_depth: if is_other_origin {
                self.origin_depth + 1
            } else {
                self.origin_depth
            },
        }
    }
}

pub open spec fn host_text(u: &WebUrl) -> Option<Seq<char>> {
    match u.host {
        Some(h) => Some(h@),
        None => None,
    }
}

/// `url` lies under `root`: same scheme, port and host, and the root's path
/// is a prefix of the URL's.
pub open spec fn under_root(root: &WebUrl, url: &WebUrl) -> bool {
    &&& root.scheme@ == url.scheme@
    &&& root.port == url.port
    &&& host_text(root) == host_text(url)
    &&& root.path@.is_prefix_of(url.path@)
}

/// The scope rule: with `only_subdirs`, a URL is kept only where it lies
/// under one of the roots; otherwise every URL is kept.
pub open spec fn in_scope(only_subdirs: bool, roots: Seq<WebUrl>, url: &WebUrl) -> bool {
    only_subdirs ==> exists|i: int| 0 <= i < roots.len() && under_root(&roots[i], url)
}

fn same_host(a: &Option<String>, b: &Option<String>) -> (r: bool)
    ensures
        r == (match a {
            Some(h) => Some(h@),
            None => None::<Seq<char>>,
        } == match b {
            Some(h) => Some(h@),
            None => None::<Seq<char>>,
        }),
{
    match (a, b) {
        (Some(x), Some(y)) => same_text(x.as_str(), y.as_str()),
        (None, None) => true,
        _ => false,
    }
}

fn is_under_root(root: &WebUrl, url: &WebUrl) -> (r: bool)
    ensures
        r == under_root(root, url),
{
    same_text(root.scheme.as_str(), url.scheme.as_str()) && root.port == url.port && same_host(
        &root.host,
        &url.host,
    ) && has_prefix(url.path.as_str(), root.path.as_str())
}

/// Whether `url` lies under some root (the scope rule with `only_subdirs` set).
pub(crate) fn under_some_root(roots: &Vec<WebUrl>, url: &WebUrl) -> (r: bool)
    ensures
        r == exists|i: int| 0 <= i < roots@.len() && under_root(&roots@[i], url),
{
    let mut i: usize = 0;
    while i < roots.len()
        invariant
            i <= roots@.len(),
            forall|j: int| 0 <= j < i ==> !under_root(&roots@[j], url),
        decreases roots@.len() - i,
    {
        if is_under_root(&roots[i], url) {
            return true;
        }
        i = i + 1;
    }
    false
}

/// The options of the scope rule.
#[derive(Clone, Copy)]
pub struct UrlFilterRules {
    pub only_subdirs: bool,
}

/// The scope rule over the crawl's roots.
pub struct UrlFilter {
    rules: UrlFilterRules,
    roots: Vec<WebUrl>,
}

impl UrlFilter {
    pub closed spec fn only_subdirs(&self) -> bool {
        self.rules.only_subdirs
    }

    pub closed spec fn roots(&self) -> Seq<WebUrl> {
        self.roots@
    }

    pub fn new(rules: UrlFilterRules, roots: Vec<WebUrl>) -> (r: UrlFilter)
        ensures
            r.only_subdirs() == rules.only_subdirs,
            r.roots() == roots@,
    {
        UrlFilter { rules, roots }
    }

    /// Whether `url` stays in scope.
    pub fn matches(&self, url: &WebUrl) -> (r: bool)
        ensures
            r == in_scope(self.only_subdirs(), self.roots(), url),
    {
        if self.rules.only_subdirs {
            if !under_some_root(&self.roots, url) {
                return false;
            }
        }
        true
    }
}

} // verus!
