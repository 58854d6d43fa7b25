use std::collections::VecDeque;
use vstd::prelude::*;

use crate::address::{Origin, WebUrl};
use crate::filter::CrawledUrl;
use crate::text::same_text;

verus! {

/// The frontier as mathematical values.
pub struct FrontierView {
    /// Admitted entries awaiting dispatch, in order of admission.
    pub pending: Seq<CrawledUrl>,
    /// The text of every URL ever admitted.
    pub visited: Set<Seq<char>>,
    /// The robots.txt verdict recorded for each origin key.
    pub robots: Map<(Seq<char>, Seq<char>, u16), bool>,
    pub require_robots: bool,
    pub max_depth: Option<u32>,
    pub max_origin_depth: Option<u32>,
}

pub open spec fn within(bound: Option<u32>, value: u32) -> bool {
    match bound {
        Some(m) => value <= m,
        None => true,
    }
}

impl FrontierView {
    /// The verdict known for the site of `u`; `None` while unknown. A URL
    /// with an opaque origin never has one.
    pub open spec fn status(self, u: WebUrl) -> Option<bool> {
        match u.origin {
            Some(o) => if self.robots.contains_key(o.key()) {
                Some(self.robots[o.key()])
            } else {
                None
            },
            None => None,
        }
    }

    /// An entry that `take` may hand out now.
    pub open spec fn takeable(self, c: CrawledUrl) -> bool {
        !self.require_robots || self.status(c.url) == Some(true)
    }

    /// An entry that will never be handed out: its site is disallowed.
    pub open spec fn dropped(self, c: CrawledUrl) -> bool {
        self.require_robots && self.status(c.url) == Some(false)
    }

    pub open spec fn has_takeable(self) -> bool {
        exists|i: int| 0 <= i < self.pending.len() && self.takeable(self.pending[i])
    }

    /// `k` is the position of the earliest takeable pending entry.
    pub open spec fn first_takeable(self, k: int) -> bool {
        &&& 0 <= k < self.pending.len()
        &&& self.takeable(self.pending[k])
        &&& forall|i: int| 0 <= i < k ==> !self.takeable(self.pending[i])
    }

    /// The entries of `s` that are not dropped, in order.
    pub open spec fn kept(self, s: Seq<CrawledUrl>) -> Seq<CrawledUrl>
        decreases s.len(),
    {
        if s.len() == 0 {
            s
        } else {
            let rest = self.kept(s.drop_last());
            if self.dropped(s.last()) {
                rest
            } else {
                rest.push(s.last())
            }
        }
    }

    /// The admission rule: a new URL within both bounds.
    pub open spec fn accepts(self, c: CrawledUrl) -> bool {
        &&& !self.visited.contains(c.url.text@)
        &&& within(self.max_depth, c.depth)
        &&& within(self.max_origin_depth, c.origin_depth)
    }

    pub open spec fn enqueue(self, c: CrawledUrl) -> FrontierView {
        if self.accepts(c) {
            FrontierView {
                pending: self.pending.push(c),
                visited: self.visited.insert(c.url.text@),
                ..self
            }
        } else {
            self
        }
    }

    /// `enqueue` applied to each candidate in turn.
    pub open spec fn enqueue_all(self, cs: Seq<CrawledUrl>) -> FrontierView
        decreases cs.len(),
    {
        if cs.len() == 0 {
            self
        } else {
            self.enqueue_all(cs.drop_last()).enqueue(cs.last())
        }
    }

    /// The frontier after `take` hands out the entry at `k`: the entries
    /// dropped before it are gone, and so is the entry itself.
    pub open spec fn taken_at(self, k: int) -> FrontierView {
        FrontierView {
            pending: self.kept(self.pending.take(k)) + self.pending.skip(k + 1),
            ..self
        }
    }

    /// What `take` may do: hand out the earliest takeable entry `e` and leave
    /// `after`, or find none and leave `after`.
    pub open spec fn take_result(self, r: Option<CrawledUrl>, after: FrontierView) -> bool {
        match r {
            Some(e) => exists|k: int|
                #![trigger self.pending[k]]
                self.first_takeable(k) && e == self.pending[k] && after == self.taken_at(k),
            None => !self.has_takeable() && after == self.swept(),
        }
    }

    /// The invariant of the frontier: pending entries were admitted, lie
    /// within the bounds, and no two have the same text.
    pub open spec fn inv(self) -> bool {
        &&& distinct_texts(self.pending)
        &&& forall|i: int| 0 <= i < self.pending.len() ==> #[trigger] self.visited.contains(self.pending[i].url.text@)
        &&& forall|i: int| 0 <= i < self.pending.len() ==> within(self.max_depth, #[trigger] self.pending[i].depth)
        &&& forall|i: int| 0 <= i < self.pending.len() ==> within(self.max_origin_depth, #[trigger] self.pending[i].origin_depth)
    }

    /// The frontier after a `take` that found nothing: every dropped entry
    /// is gone.
    pub open spec fn swept(self) -> FrontierView {
        FrontierView { pending: self.kept(self.pending), ..self }
    }
}

/// A kept sequence whose entries are none of them dropped is the sequence.
proof fn lemma_kept_unchanged(f: FrontierView, s: Seq<CrawledUrl>)
    requires
        forall|i: int| 0 <= i < s.len() ==> !f.dropped(s[i]),
    ensures
        f.kept(s) == s,
    decreases s.len(),
{
    if s.len() > 0 {
        lemma_kept_unchanged(f, s.drop_last());
        assert(f.kept(s.drop_last()).push(s.last()) =~= s);
    }
}

/// No two entries of `q` have the same text.
pub open spec fn distinct_texts(q: Seq<CrawledUrl>) -> bool {
    forall|i: int, j: int| 0 <= i < j < q.len() ==> q[i].url.text@ != q[j].url.text@
}

/// Removing an entry keeps the others, in order, and their texts distinct.
proof fn lemma_remove_keeps_order(q: Seq<CrawledUrl>, k: int, visited: Set<Seq<char>>)
    requires
        0 <= k < q.len(),
        distinct_texts(q),
        forall|i: int| 0 <= i < q.len() ==> visited.contains(#[trigger] q[i].url.text@),
    ensures
        q.remove(k).len() == q.len() - 1,
        forall|i: int| 0 <= i < k ==> q.remove(k)[i] == q[i],
        forall|i: int| k <= i < q.remove(k).len() ==> q.remove(k)[i] == q[i + 1],
        distinct_texts(q.remove(k)),
        forall|i: int| 0 <= i < q.remove(k).len() ==> visited.contains(#[trigger] q.remove(k)[i].url.text@),
{
    let r = q.remove(k);
    assert forall|i: int, j: int| 0 <= i < j < r.len() implies r[i].url.text@ != r[j].url.text@ by {
        let a = if i < k { i } else { i + 1 };
        let b = if j < k { j } else { j + 1 };
        assert(r[i] == q[a] && r[j] == q[b]);
    }
    assert forall|i: int| 0 <= i < r.len() implies visited.contains(#[trigger] r[i].url.text@) by {
        let a = if i < k { i } else { i + 1 };
        assert(r[i] == q[a]);
    }
}

/// Enqueueing one URL twice admits it at most once: the second time it is
/// refused and changes nothing, and a single pending entry has its text,
/// where the first time admitted it.
pub proof fn lemma_enqueue_twice(f: FrontierView, c: CrawledUrl)
    requires
        f.inv(),
    ensures
        !f.enqueue(c).accepts(c),
        f.enqueue(c).enqueue(c) == f.enqueue(c),
        f.accepts(c) ==> exists|i: int|
            #![trigger f.enqueue(c).pending[i]]
            0 <= i < f.enqueue(c).pending.len() && f.enqueue(c).pending[i] == c && forall|j: int|
                0 <= j < f.enqueue(c).pending.len() && f.enqueue(c).pending[j].url.text@ == c.url.text@
                    ==> j == i,
{
    let g = f.enqueue(c);
    if f.accepts(c) {
        let i = f.pending.len() as int;
        assert(g.pending[i] == c);
        assert forall|j: int|
            0 <= j < g.pending.len() && g.pending[j].url.text@ == c.url.text@ implies j == i by {
            if j < i {
                assert(f.visited.contains(f.pending[j].url.text@));
            }
        }
    }
}

/// A candidate deeper than the depth bound is never admitted, and `take`
/// hands out no entry deeper than the bound.
pub proof fn lemma_depth_bound(
    f: FrontierView,
    c: CrawledUrl,
    bound: u32,
    r: Option<CrawledUrl>,
    after: FrontierView,
)
    requires
        f.inv(),
        f.max_depth == Some(bound),
        c.depth > bound,
        f.take_result(r, after),
    ensures
        !f.accepts(c),
        f.enqueue(c) == f,
        match r {
            Some(e) => e.depth <= bound,
            None => true,
        },
{
    match r {
        Some(e) => {
            let k = choose|k: int| #![trigger f.pending[k]] f.first_takeable(k) && e == f.pending[k] && after == f.taken_at(k);
            assert(within(f.max_depth, f.pending[k].depth));
        },
        None => {},
    }
}

/// An entry whose site has no verdict yet is held back, and handed out once
/// the site is allowed: on a gated frontier holding only `c`, two calls of
/// `take` find nothing and change nothing; after `o` is allowed, the next
/// `take` hands out `c`.
pub proof fn lemma_robots_deferral(
    f: FrontierView,
    c: CrawledUrl,
    o: Origin,
    r1: Option<CrawledUrl>,
    g1: FrontierView,
    r2: Option<CrawledUrl>,
    g2: FrontierView,
    r3: Option<CrawledUrl>,
    g3: FrontierView,
)
    requires
        f.require_robots,
        f.pending == seq![c],
        c.url.origin == Some(o),
        !f.robots.contains_key(o.key()),
        f.take_result(r1, g1),
        g1.take_result(r2, g2),
        (FrontierView { robots: g2.robots.insert(o.key(), true), ..g2 }).take_result(r3, g3),
    ensures
        r1 is None,
        r2 is None,
        g2 == f,
        r3 == Some(c),
{
    assert(!f.takeable(f.pending[0]));
    assert(f.kept(f.pending.drop_last()) =~= Seq::<CrawledUrl>::empty());
    assert(f.kept(f.pending) =~= f.pending);
    if r1 is Some {
        let k = choose|k: int| #![trigger f.pending[k]] f.first_takeable(k);
    }
    assert(g1 == f);
    if r2 is Some {
        let k = choose|k: int| #![trigger g1.pending[k]] g1.first_takeable(k);
    }
    let h = FrontierView { robots: g2.robots.insert(o.key(), true), ..g2 };
    assert(h.takeable(h.pending[0]));
    assert(h.first_takeable(0));
    match r3 {
        Some(e) => {
            let k = choose|k: int| #![trigger h.pending[k]] h.first_takeable(k) && e == h.pending[k] && g3 == h.taken_at(k);
        },
        None => {},
    }
}

/// An entry whose site is disallowed is removed for good: on a gated
/// frontier holding only `c`, once `o` is disallowed `take` finds nothing
/// and leaves nothing pending, and after any later verdict it still finds
/// nothing.
pub proof fn lemma_robots_rejection(
    f: FrontierView,
    c: CrawledUrl,
    o: Origin,
    r1: Option<CrawledUrl>,
    g1: FrontierView,
    key: (Seq<char>, Seq<char>, u16),
    verdict: bool,
    r2: Option<CrawledUrl>,
    g2: FrontierView,
)
    requires
        f.require_robots,
        f.pending == seq![c],
        c.url.origin == Some(o),
        (FrontierView { robots: f.robots.insert(o.key(), false), ..f }).take_result(r1, g1),
        (FrontierView { robots: g1.robots.insert(key, verdict), ..g1 }).take_result(r2, g2),
    ensures
        r1 is None,
        g1.pending.len() == 0,
        r2 is None,
        g2.pending.len() == 0,
{
    let h = FrontierView { robots: f.robots.insert(o.key(), false), ..f };
    assert(h.dropped(h.pending[0]));
    assert(h.kept(h.pending.drop_last()) =~= Seq::<CrawledUrl>::empty());
    assert(h.kept(h.pending) =~= Seq::<CrawledUrl>::empty());
    if r1 is Some {
        let k = choose|k: int| #![trigger h.pending[k]] h.first_takeable(k);
    }
    let h2 = FrontierView { robots: g1.robots.insert(key, verdict), ..g1 };
    assert(h2.kept(h2.pending) =~= Seq::<CrawledUrl>::empty());
    if r2 is Some {
        let k = choose|k: int| #![trigger h2.pending[k]] h2.first_takeable(k);
    }
}

/// The frontier of a crawl: the URLs discovered and not yet dispatched, the
/// set of URLs ever admitted, and the robots.txt verdicts per site.
pub struct CrawlerQueue {
    queue: VecDeque<CrawledUrl>,
    crawled: Vec<String>,
    allowed_by_robots: Vec<(Origin, bool)>,
    robots: Ghost<Map<(Seq<char>, Seq<char>, u16), bool>>,
    require_robots: bool,
    robots_skip: usize,
    max_origin_depth: Option<u32>,
    max_depth: Option<u32>,
}

impl View for CrawlerQueue {
    type V = FrontierView;

    closed spec fn view(&self) -> FrontierView {
        FrontierView {
            pending: self.queue@,
            visited: Set::new(|t: Seq<char>| exists|i: int| 0 <= i < self.crawled@.len() && self.crawled@[i]@ == t),
            robots: self.robots@,
            require_robots: self.require_robots,
            max_depth: self.max_depth,
            max_origin_depth: self.max_origin_depth,
        }
    }
}

impl CrawlerQueue {
    /// The robots table holds one entry per site, and agrees with `robots`.
    closed spec fn robots_wf(&self) -> bool {
        &&& forall|i: int, j: int|
            0 <= i < j < self.allowed_by_robots@.len() ==> self.allowed_by_robots@[i].0.key()
                != self.allowed_by_robots@[j].0.key()
        &&& forall|i: int|
            0 <= i < self.allowed_by_robots@.len() ==> self.robots@.contains_key(
                #[trigger] self.allowed_by_robots@[i].0.key(),
            ) && self.robots@[self.allowed_by_robots@[i].0.key()] == self.allowed_by_robots@[i].1
        &&& forall|k: (Seq<char>, Seq<char>, u16)|
            #[trigger] self.robots@.contains_key(k) ==> exists|i: int|
                0 <= i < self.allowed_by_robots@.len() && self.allowed_by_robots@[i].0.key() == k
    }

    /// Pending entries are admitted URLs, no two with the same text.
    closed spec fn pending_wf(&self) -> bool {
        &&& self@.inv()
    }

    /// Every entry before the robots cursor waits on an unknown verdict.
    closed spec fn cursor_wf(&self) -> bool {
        &&& self.robots_skip <= self.queue@.len()
        &&& !self.require_robots ==> self.robots_skip == 0
        &&& forall|i: int| 0 <= i < self.robots_skip ==> self@.status(#[trigger] self.queue@[i].url) is None
    }

    pub closed spec fn wf(&self) -> bool {
        &&& self.robots_wf()
        &&& self.pending_wf()
        &&& self.cursor_wf()
    }

    /// What the frontier's well-formedness says of its view.
    pub proof fn lemma_view_inv(&self)
        requires
            self.wf(),
        ensures
            self@.inv(),
    {
    }

    pub fn new(require_robots: bool, max_origin_depth: Option<u32>, max_depth: Option<u32>) -> (r: Self)
        ensures
            r.wf(),
            r@.pending == Seq::<CrawledUrl>::empty(),
            r@.visited == Set::<Seq<char>>::empty(),
            r@.robots == Map::<(Seq<char>, Seq<char>, u16), bool>::empty(),
            r@.require_robots == require_robots,
            r@.max_depth == max_depth,
            r@.max_origin_depth == max_origin_depth,
    {
        let r = CrawlerQueue {
            queue: VecDeque::new(),
            crawled: Vec::new(),
            allowed_by_robots: Vec::new(),
            robots: Ghost(Map::empty()),
            require_robots,
            robots_skip: 0,
            max_origin_depth,
            max_depth,
        };
        assert(r@.visited =~= Set::<Seq<char>>::empty());
        r
    }

    fn was_crawled(&self, text: &String) -> (r: bool)
        ensures
            r == self@.visited.contains(text@),
    {
        let mut i: usize = 0;
        while i < self.crawled.len()
            invariant
                i <= self.crawled@.len(),
                forall|j: int| 0 <= j < i ==> self.crawled@[j]@ != text@,
            decreases self.crawled@.len() - i,
        {
            if same_text(self.crawled[i].as_str(), text.as_str()) {
                return true;
            }
            i = i + 1;
        }
        false
    }

    /// The index of the table entry for `origin`, if there is one.
    fn robots_entry(&self, origin: &Origin) -> (r: Option<usize>)
        requires
            self.robots_wf(),
        ensures
            match r {
                Some(i) => i < self.allowed_by_robots@.len() && self.allowed_by_robots@[i as int].0.key()
                    == origin.key(),
                None => !self.robots@.contains_key(origin.key()),
            },
    {
        let mut i: usize = 0;
        while i < self.allowed_by_robots.len()
            invariant
                i <= self.allowed_by_robots@.len(),
                forall|j: int| 0 <= j < i ==> self.allowed_by_robots@[j].0.key() != origin.key(),
            decreases self.allowed_by_robots@.len() - i,
        {
            if self.allowed_by_robots[i].0.same_as(origin) {
                return Some(i);
            }
            i = i + 1;
        }
        None
    }

    fn robots_status(&self, url: &WebUrl) -> (r: Option<bool>)
        requires
            self.robots_wf(),
        ensures
            r == self@.status(*url),
    {
        match &url.origin {
            Some(o) => match self.robots_entry(o) {
                Some(i) => Some(self.allowed_by_robots[i].1),
                None => None,
            },
            None => None,
        }
    }

    /// Enqueues `url` where it is new and within the depth bounds; returns
    /// whether it was admitted.
    pub fn check_and_queue(&mut self, url: CrawledUrl) -> (r: bool)
        requires
            old(self).wf(),
        ensures
            final(self).wf(),
            r == old(self)@.accepts(url),
            final(self)@ == old(self)@.enqueue(url),
    {
        if self.was_crawled(&url.url.text) {
            return false;
        }
        match self.max_depth {
            Some(m) => if url.depth > m {
                return false;
            },
            None => {},
        }
        match self.max_origin_depth {
            Some(m) => if url.origin_depth > m {
                return false;
            },
            None => {},
        }
        let ghost old_view = self@;
        let ghost old_table = self.allowed_by_robots@;
        let ghost old_robots = self.robots@;
        let ghost old_crawled = self.crawled@;
        let ghost text = url.url.text@;
        self.crawled.push(url.url.text.clone());
        self.queue.push_back(url);
        assert(self.crawled@ == old_crawled.push(self.crawled@.last()));
        assert(self@.visited =~= old_view.visited.insert(text)) by {
            assert(self.crawled@.last()@ == text);
            assert(self.crawled@[old_crawled.len() as int]@ == text);
            assert forall|t: Seq<char>| #[trigger] old_view.visited.contains(t) implies self@.visited.contains(t) by {
                let i = choose|i: int| 0 <= i < old_crawled.len() && old_crawled[i]@ == t;
                assert(self.crawled@[i]@ == t);
            }
        }
        assert(self@.pending =~= old_view.pending.push(url));
        assert(self.allowed_by_robots@ == old_table);
        assert(self.robots@ == old_robots);
        assert(self.robots_wf());
        assert(self.pending_wf()) by {
            assert forall|i: int, j: int| 0 <= i < j < self.queue@.len() implies self.queue@[i].url.text@
                != self.queue@[j].url.text@ by {
                if j == self.queue@.len() - 1 {
                    assert(old_view.visited.contains(old_view.pending[i].url.text@));
                }
            }
        }
        assert(self.cursor_wf()) by {
            assert forall|i: int| 0 <= i < self.robots_skip implies self@.status(#[trigger] self.queue@[i].url) is None by {
                assert(self.queue@[i] == old_view.pending[i]);
                assert(old_view.status(old_view.pending[i].url) is None);
            }
        }
        true
    }

    /// Enqueues each candidate in turn, as `check_and_queue` does.
    pub fn check_and_queue_iter(&mut self, urls: Vec<CrawledUrl>)
        requires
            old(self).wf(),
        ensures
            final(self).wf(),
            final(self)@ == old(self)@.enqueue_all(urls@),
    {
        let ghost start = self@;
        let ghost cs = urls@;
        for url in it: urls.into_iter()
            invariant
                self.wf(),
                it.seq() == cs,
                self@ == start.enqueue_all(cs.take(it.index() as int)),
        {
            proof {
                assert(cs.take(it.index() as int + 1).drop_last() =~= cs.take(it.index() as int));
            }
            self.check_and_queue(url);
        }
        proof {
            assert(cs.take(cs.len() as int) =~= cs);
        }
    }

    /// Records the robots.txt verdict for `origin`; the next `take` scans
    /// the pending entries from the start again.
    pub fn set_allowed_by_robots(&mut self, origin: Origin, allowed: bool)
        requires
            old(self).wf(),
        ensures
            final(self).wf(),
            final(self)@ == (FrontierView {
                robots: old(self)@.robots.insert(origin.key(), allowed),
                ..old(self)@
            }),
    {
        let ghost old_view = self@;
        let ghost key = origin.key();
        let ghost old_table = self.allowed_by_robots@;
        let ghost mut pos: int = old_table.len() as int;
        match self.robots_entry(&origin) {
            Some(i) => {
                self.allowed_by_robots.set(i, (origin, allowed));
                proof {
                    pos = i as int;
                }
                assert forall|j: int| 0 <= j < self.allowed_by_robots@.len() && j != i implies
                    self.allowed_by_robots@[j] == old_table[j] by {}
            },
            None => {
                self.allowed_by_robots.push((origin, allowed));
            },
        }
        self.robots = Ghost(self.robots@.insert(key, allowed));
        self.robots_skip = 0;
        assert(self.robots_wf()) by {
            assert forall|k: (Seq<char>, Seq<char>, u16)| #[trigger] self.robots@.contains_key(k) implies exists|j: int|
                0 <= j < self.allowed_by_robots@.len() && self.allowed_by_robots@[j].0.key() == k by {
                if k != key {
                    let j = choose|j: int| 0 <= j < old_table.len() && old_table[j].0.key() == k;
                    assert(self.allowed_by_robots@[j].0.key() == k);
                } else {
                    assert(self.allowed_by_robots@[pos].0.key() == key);
                }
            }
        }
        assert(self@.robots =~= old_view.robots.insert(key, allowed));
        assert(self@.visited =~= old_view.visited);
    }

    /// Whether no pending entry can be handed out now.
    pub fn is_empty(&self) -> (r: bool)
        requires
            self.wf(),
        ensures
            r == !self@.has_takeable(),
    {
        if !self.require_robots {
            if self.queue.len() > 0 {
                assert(self@.takeable(self@.pending[0]));
            }
            return self.queue.len() == 0;
        }
        let mut i: usize = self.robots_skip;
        while i < self.queue.len()
            invariant
                self.wf(),
                self.require_robots,
                i <= self.queue@.len(),
                forall|j: int| 0 <= j < i ==> !self@.takeable(#[trigger] self@.pending[j]),
            decreases self.queue@.len() - i,
        {
            if let Some(true) = self.robots_status(&self.queue[i].url) {
                assert(self@.takeable(self@.pending[i as int]));
                return false;
            }
            i = i + 1;
        }
        true
    }

    /// Hands out the earliest pending entry that can be dispatched now.
    ///
    /// Without robots gating that is the front entry. With it, entries whose
    /// site is disallowed are removed on the way, entries whose verdict is
    /// unknown are stepped over and stay, and the scan resumes after them on
    /// the next call.
    pub fn take(&mut self) -> (r: Option<CrawledUrl>)
        requires
            old(self).wf(),
        ensures
            final(self).wf(),
            old(self)@.take_result(r, final(self)@),
    {
        let ghost f = self@;
        let ghost p = self@.pending;
        let ghost table = self.allowed_by_robots@;
        let ghost robots = self.robots@;
        if !self.require_robots {
            let r = self.queue.pop_front();
            proof {
                assert(self.allowed_by_robots@ == table && self.robots@ == robots);
                assert(self.robots_wf());
                if p.len() > 0 {
                    assert(f.first_takeable(0));
                    assert(f.kept(p.take(0)) =~= Seq::<CrawledUrl>::empty());
                    assert(self@.pending =~= f.kept(p.take(0)) + p.skip(1));
                    assert(self@ == f.taken_at(0));
                } else {
                    assert(f.kept(p) =~= p);
                    assert(self@ == f.swept());
                }
                assert(self.pending_wf()) by {
                    assert forall|i: int| 0 <= i < self.queue@.len() implies self@.visited.contains(
                        #[trigger] self.queue@[i].url.text@) by {
                        assert(self.queue@[i] == p[i + 1]);
                    }
                    assert forall|i: int, k: int| 0 <= i < k < self.queue@.len() implies self.queue@[i].url.text@
                        != self.queue@[k].url.text@ by {
                        assert(self.queue@[i] == p[i + 1] && self.queue@[k] == p[k + 1]);
                    }
                }
            }
            return r;
        }
        let ghost mut j: int = self.robots_skip as int;
        proof {
            assert forall|i: int| 0 <= i < p.take(j).len() implies !f.dropped(p.take(j)[i]) by {
                assert(f.status(p[i].url) is None);
            }
            lemma_kept_unchanged(f, p.take(j));
            assert(self.queue@ =~= f.kept(p.take(j)) + p.skip(j));
        }
        while self.robots_skip < self.queue.len()
            invariant
                self.wf(),
                self.require_robots,
                f.require_robots,
                f.pending == p,
                old(self)@ == f,
                self.allowed_by_robots@ == table,
                self.robots@ == robots,
                self@.visited == f.visited,
                self@.robots == f.robots,
                self@.max_depth == f.max_depth,
                self@.max_origin_depth == f.max_origin_depth,
                0 <= j <= p.len(),
                self.queue@ == f.kept(p.take(j)) + p.skip(j),
                self.robots_skip == f.kept(p.take(j)).len(),
                forall|i: int| 0 <= i < j ==> !f.takeable(#[trigger] p[i]),
            decreases self.queue@.len() - self.robots_skip,
        {
            let skip = self.robots_skip;
            let ghost q = self.queue@;
            assert(p.skip(j).len() > 0);
            assert(q[skip as int] == p[j]);
            assert(p.take(j + 1).drop_last() =~= p.take(j));
            assert(p.take(j + 1).last() == p[j]);
            match self.robots_status(&self.queue[skip].url) {
                Some(true) => {
                    proof {
                        lemma_remove_keeps_order(q, skip as int, f.visited);
                        assert(self.robots_wf());
                    }
                    let r = self.queue.remove(skip);
                    proof {
                        assert(f.takeable(p[j]));
                        assert(0 <= j < p.len());
                        assert(forall|i: int| 0 <= i < j ==> !f.takeable(#[trigger] p[i]));
                        assert(f.first_takeable(j));
                        assert(self.queue@ =~= f.kept(p.take(j)) + p.skip(j + 1));
                        assert(self@.pending == f.taken_at(j).pending);
                        assert(self@ == f.taken_at(j));
                        assert(r == Some(p[j]));
                        assert(f.pending[j] == p[j]);
                        assert(old(self)@ == f);
                        assert(self.allowed_by_robots@ == table && self.robots@ == robots);
                        assert(self.robots_wf());
                        assert(self.pending_wf());
                        assert(self.cursor_wf());
                    }
                    return r;
                },
                Some(false) => {
                    proof {
                        lemma_remove_keeps_order(q, skip as int, f.visited);
                        assert(self.robots_wf());
                    }
                    self.queue.remove(skip);
                    proof {
                        assert(f.dropped(p[j]));
                        assert(self.queue@ =~= f.kept(p.take(j + 1)) + p.skip(j + 1));
                        assert(self.allowed_by_robots@ == table && self.robots@ == robots);
                        assert(self.robots_wf());
                        assert(self.pending_wf());
                        assert(self.cursor_wf());
                        j = j + 1;
                    }
                },
                None => {
                    self.robots_skip = skip + 1;
                    proof {
                        assert(!f.dropped(p[j]));
                        assert(self.queue@ =~= f.kept(p.take(j + 1)) + p.skip(j + 1));
                        assert(self.allowed_by_robots@ == table && self.robots@ == robots);
                        assert(self.robots_wf());
                        assert(self.pending_wf());
                        assert(self.cursor_wf());
                        j = j + 1;
                    }
                },
            }
        }
        proof {
            assert(j == p.len());
            assert(p.take(j) =~= p);
            assert(self.queue@ =~= f.kept(p));
            assert(self@ == f.swept());
        }
        None
    }
}

} // verus!
