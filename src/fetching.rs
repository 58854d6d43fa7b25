use vstd::prelude::*;

use crate::address::{is_web_text, lemma_web_scheme, url_parse, WebUrl};
use crate::filter::CrawledUrl;
use crate::text::{has_prefix, same_text};

verus! {

/// The media types whose documents are read for links.
pub open spec fn crawlable_spec(content_type: Option<Seq<char>>) -> bool {
    match content_type {
        Some(t) => {
            ||| "text/html"@.is_prefix_of(t)
            ||| "application/html"@.is_prefix_of(t)
            ||| "application/xml"@.is_prefix_of(t)
            ||| "text/xml"@.is_prefix_of(t)
        },
        None => true,
    }
}

/// Whether a response is read for links, given its Content-Type header
/// (`None` where it has none). Any other type gives no links, and is no
/// error.
pub fn is_crawlable_content_type(content_type: Option<&str>) -> (r: bool)
    ensures
        r == crawlable_spec(
            match content_type {
                Some(t) => Some(t@),
                None => None,
            },
        ),
{
    proof {
        reveal_strlit("text/html");
        reveal_strlit("application/html");
        reveal_strlit("application/xml");
        reveal_strlit("text/xml");
    }
    match content_type {
        Some(t) => has_prefix(t, "text/html") || has_prefix(t, "application/html") || has_prefix(
            t,
            "application/xml",
        ) || has_prefix(t, "text/xml"),
        None => true,
    }
}

/// The tags whose `href` is a link to follow.
pub open spec fn is_link_tag(name: Seq<char>) -> bool {
    name == "a"@ || name == "atom:link"@
}

/// `i` is the position of the first attribute named `href`.
pub open spec fn first_href(attributes: Seq<(String, String)>, i: int) -> bool {
    &&& 0 <= i < attributes.len()
    &&& attributes[i].0@ == "href"@
    &&& forall|j: int| 0 <= j < i ==> attributes[j].0@ != "href"@
}

/// The link target of an HTML tag: the first `href` attribute of an `a` or
/// `atom:link` start tag. `attributes` holds (local name, value) pairs.
pub fn link_target(is_start_tag: bool, tag_name: &str, attributes: &Vec<(String, String)>) -> (r: Option<
    String,
>)
    ensures
        match r {
            Some(v) => is_start_tag && is_link_tag(tag_name@) && exists|i: int|
                first_href(attributes@, i) && v == attributes@[i].1,
            None => !is_start_tag || !is_link_tag(tag_name@) || forall|i: int|
                0 <= i < attributes@.len() ==> attributes@[i].0@ != "href"@,
        },
{
    proof {
        reveal_strlit("a");
        reveal_strlit("atom:link");
        reveal_strlit("href");
    }
    if !is_start_tag || !(same_text(tag_name, "a") || same_text(tag_name, "atom:link")) {
        return None;
    }
    assert(is_link_tag(tag_name@));
    let mut i: usize = 0;
    while i < attributes.len()
        invariant
            is_start_tag,
            is_link_tag(tag_name@),
            i <= attributes@.len(),
            forall|j: int| 0 <= j < i ==> attributes@[j].0@ != "href"@,
        decreases attributes@.len() - i,
    {
        if same_text(attributes[i].0.as_str(), "href") {
            let v = attributes[i].1.clone();
            assert(first_href(attributes@, i as int));
            assert(v == attributes@[i as int].1);
            return Some(v);
        }
        i = i + 1;
    }
    None
}

/// The link to follow from the page at `parent` to the URL that a reference
/// in it resolved to (`None` where it did not resolve): http and https
/// URLs are followed, others are not.
pub fn link_from_resolved(parent: &CrawledUrl, resolved: Option<WebUrl>) -> (r: Option<CrawledUrl>)
    requires
        parent.depth < u32::MAX,
        match resolved {
            Some(u) => u.is_web_spec() && !parent.url.same_origin_spec(&u) ==> parent.origin_depth
                < u32::MAX,
            None => true,
        },
    ensures
        r == match resolved {
            Some(u) => if u.is_web_spec() {
                Some(parent.child(u))
            } else {
                None
            },
            None => None,
        },
{
    match resolved {
        Some(u) => if u.is_web() {
            Some(parent.push_new(u))
        } else {
            None
        },
        None => None,
    }
}

/// The link to follow from the page at `parent` for the reference `href`
/// found in it, resolved against the page's URL: there is one exactly when
/// `href` resolves to an http or https URL, except where the link changes
/// site and the parent's origin depth is already the largest `u32`.
pub fn link_from_href(parent: &CrawledUrl, href: &str) -> (r: Option<CrawledUrl>)
    requires
        parent.depth < u32::MAX,
    ensures
        match r {
            Some(c) => {
                &&& url_parse(Some(parent.url.text@), href@) == Some(c.url.text@)
                &&& is_web_text(c.url.text@)
                &&& c == parent.child(c.url)
            },
            None => match url_parse(Some(parent.url.text@), href@) {
                Some(t) => is_web_text(t) ==> parent.origin_depth == u32::MAX,
                None => true,
            },
        },
        parent.origin_depth < u32::MAX ==> (r is Some <==> match url_parse(
            Some(parent.url.text@),
            href@,
        ) {
            Some(t) => is_web_text(t),
            None => false,
        }),
{
    match parent.url.join(href) {
        Some(u) => {
            proof {
                lemma_web_scheme(u.scheme@, u.text@);
            }
            if parent.origin_depth < u32::MAX || parent.url.same_origin(&u) {
                link_from_resolved(parent, Some(u))
            } else {
                None
            }
        },
        None => None,
    }
}

} // verus!
