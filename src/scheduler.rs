use vstd::prelude::*;

use crate::address::WebUrl;
use crate::error::CrawlerError;
use crate::filter::{in_scope, CrawledUrl, UrlFilter};
use crate::queue::{distinct_texts, CrawlerQueue, FrontierView};

verus! {

/// What the master loop does next.
pub enum Step {
    /// Report `url` found, then hand it to worker `worker`.
    Dispatch { worker: usize, url: CrawledUrl },
    /// Wait for the first completion among the busy workers.
    Wait,
    /// The crawl is over.
    Done,
}

/// A worker's report on the URL it was handed.
pub enum WorkerMessage {
    /// The links found in the page.
    Success(Vec<CrawledUrl>),
    Failure(CrawlerError),
}

/// An event for the crawl's observer.
pub enum CrawlerMessage {
    UrlFound(WebUrl),
    /// The fetch of the URL failed.
    Error(WebUrl, CrawlerError),
}

/// The number of busy workers.
pub open spec fn busy_count(s: Seq<bool>) -> nat
    decreases s.len(),
{
    if s.len() == 0 {
        0
    } else {
        busy_count(s.drop_last()) + if s.last() {
            1nat
        } else {
            0nat
        }
    }
}

proof fn lemma_busy_count_update(s: Seq<bool>, i: int, b: bool)
    requires
        0 <= i < s.len(),
        s[i] != b,
    ensures
        busy_count(s.update(i, b)) as int == if b {
            busy_count(s) as int + 1
        } else {
            busy_count(s) as int - 1
        },
    decreases s.len(),
{
    if i == s.len() - 1 {
        assert(s.update(i, b).drop_last() =~= s.drop_last());
    } else {
        lemma_busy_count_update(s.drop_last(), i, b);
        assert(s.update(i, b).drop_last() =~= s.drop_last().update(i, b));
    }
}

proof fn lemma_busy_count_bound(s: Seq<bool>)
    ensures
        busy_count(s) <= s.len(),
        (busy_count(s) == s.len()) == (forall|i: int| 0 <= i < s.len() ==> s[i]),
        (busy_count(s) == 0) == (forall|i: int| 0 <= i < s.len() ==> !s[i]),
    decreases s.len(),
{
    if s.len() > 0 {
        lemma_busy_count_bound(s.drop_last());
        assert(forall|i: int| 0 <= i < s.len() - 1 ==> s.drop_last()[i] == s[i]);
    }
}

/// The entries of `s` that the scope rule keeps, in order.
pub open spec fn scoped(only_subdirs: bool, roots: Seq<WebUrl>, s: Seq<CrawledUrl>) -> Seq<CrawledUrl>
    decreases s.len(),
{
    if s.len() == 0 {
        s
    } else {
        let rest = scoped(only_subdirs, roots, s.drop_last());
        if in_scope(only_subdirs, roots, &s.last().url) {
            rest.push(s.last())
        } else {
            rest
        }
    }
}

/// The roots of a crawl as frontier candidates.
pub open spec fn root_entries(roots: Seq<WebUrl>) -> Seq<CrawledUrl> {
    roots.map_values(|u: WebUrl| CrawledUrl { url: u, depth: 0, origin_depth: 0 })
}

/// The scheduler as mathematical values.
pub struct SchedulerView {
    pub frontier: FrontierView,
    /// One flag per worker: whether it has a URL in hand.
    pub busy: Seq<bool>,
    /// The URL each worker has in hand, for the busy ones.
    pub assigned: Seq<Option<WebUrl>>,
    /// An entry taken from the frontier and not yet dispatched.
    pub ready: Option<CrawledUrl>,
    /// The text of every URL dispatched so far.
    pub dispatched: Set<Seq<char>>,
    pub only_subdirs: bool,
    pub roots: Seq<WebUrl>,
}

impl SchedulerView {
    /// The number of fetches in flight.
    pub open spec fn active(self) -> nat {
        busy_count(self.busy)
    }

    /// The work that remains before the crawl is over, short of new links:
    /// each entry pending or in hand counts twice (its dispatch and its
    /// completion), each fetch in flight once.
    pub open spec fn work_left(self) -> nat {
        2 * (self.frontier.pending.len() + if self.ready is Some {
            1nat
        } else {
            0nat
        }) + self.active()
    }

    /// A measure of the crawl within `universe`, the URLs its links are
    /// drawn from: the texts not yet visited, each worth more than any
    /// amount of work left, and the work left.
    pub open spec fn rank(self, universe: Set<Seq<char>>) -> nat {
        (universe.len() - self.frontier.visited.len()) as nat * (2 * universe.len() + self.busy.len()
            + 1) + self.work_left()
    }

    /// `w` is the first idle worker.
    pub open spec fn first_idle(self, w: int) -> bool {
        &&& 0 <= w < self.busy.len()
        &&& !self.busy[w]
        &&& forall|i: int| 0 <= i < w ==> self.busy[i]
    }

    /// The scheduler's invariant: the entry in hand and the dispatched URLs
    /// were admitted, and none of them is pending or was dispatched before.
    pub open spec fn inv(self) -> bool {
        &&& self.frontier.inv()
        &&& self.busy.len() >= 1
        &&& self.assigned.len() == self.busy.len()
        &&& forall|i: int| 0 <= i < self.busy.len() ==> (#[trigger] self.assigned[i] is Some) == self.busy[i]
        &&& forall|t: Seq<char>| #[trigger] self.dispatched.contains(t) ==> self.frontier.visited.contains(t)
        &&& forall|i: int|
            0 <= i < self.frontier.pending.len() ==> !self.dispatched.contains(
                #[trigger] self.frontier.pending[i].url.text@,
            )
        &&& match self.ready {
            Some(c) => {
                &&& self.frontier.visited.contains(c.url.text@)
                &&& !self.dispatched.contains(c.url.text@)
                &&& forall|i: int|
                    0 <= i < self.frontier.pending.len() ==> #[trigger] self.frontier.pending[i].url.text@
                        != c.url.text@
            },
            None => true,
        }
    }

    /// `c` is the entry in hand for the next dispatch and `f` the frontier
    /// after finding it: the held entry where there is one, else what
    /// `take` gives.
    pub open spec fn refill(self, c: Option<CrawledUrl>, f: FrontierView) -> bool {
        match self.ready {
            Some(r) => c == Some(r) && f == self.frontier,
            None => self.frontier.take_result(c, f),
        }
    }

    /// One decision of the master loop, from `self` to `after`.
    ///
    /// With an entry in hand, it goes to the first idle worker; with no
    /// worker idle it is kept for the next step, and the loop waits. With no
    /// entry, the loop waits while a fetch is in flight, and is done when
    /// none is.
    pub open spec fn next_step_rel(self, s: Step, after: SchedulerView) -> bool {
        exists|c: Option<CrawledUrl>, f: FrontierView|
            #![trigger self.refill(c, f)]
            {
                &&& self.refill(c, f)
                &&& after.frontier == f
                &&& after.only_subdirs == self.only_subdirs
                &&& after.roots == self.roots
                &&& match s {
                    Step::Dispatch { worker, url } => {
                        &&& c == Some(url)
                        &&& self.first_idle(worker as int)
                        &&& after.busy == self.busy.update(worker as int, true)
                        &&& after.assigned == self.assigned.update(worker as int, Some(url.url))
                        &&& after.ready is None
                        &&& after.dispatched == self.dispatched.insert(url.url.text@)
                    },
                    Step::Wait => {
                        &&& after.busy == self.busy
                        &&& after.assigned == self.assigned
                        &&& after.ready == c
                        &&& after.dispatched == self.dispatched
                        &&& match c {
                            Some(_) => forall|i: int| 0 <= i < self.busy.len() ==> self.busy[i],
                            None => self.active() > 0,
                        }
                    },
                    Step::Done => {
                        &&& c is None
                        &&& self.active() == 0
                        &&& after.busy == self.busy
                        &&& after.assigned == self.assigned
                        &&& after.ready is None
                        &&& after.dispatched == self.dispatched
                    },
                }
            }
    }

    /// Worker `worker` reported `message`, from `self` to `after`: it is idle
    /// again; the links of a success that stay in scope are enqueued; a
    /// failure is reported to the observer with the URL the worker had.
    pub open spec fn complete_rel(
        self,
        worker: int,
        message: WorkerMessage,
        r: Option<CrawlerMessage>,
        after: SchedulerView,
    ) -> bool {
        &&& after.busy == self.busy.update(worker, false)
        &&& after.assigned == self.assigned.update(worker, None)
        &&& after.ready == self.ready
        &&& after.dispatched == self.dispatched
        &&& after.only_subdirs == self.only_subdirs
        &&& after.roots == self.roots
        &&& match message {
            WorkerMessage::Success(links) => {
                &&& after.frontier == self.frontier.enqueue_all(
                    scoped(self.only_subdirs, self.roots, links@),
                )
                &&& r is None
            },
            WorkerMessage::Failure(e) => {
                &&& after.frontier == self.frontier
                &&& r == Some(CrawlerMessage::Error(self.assigned[worker]->0, e))
            },
        }
    }
}

/// The entries that `kept` leaves are entries of the sequence.
proof fn lemma_kept_members(f: FrontierView, s: Seq<CrawledUrl>)
    ensures
        forall|i: int|
            0 <= i < f.kept(s).len() ==> exists|j: int| 0 <= j < s.len() && #[trigger] f.kept(s)[i] == s[j],
    decreases s.len(),
{
    if s.len() > 0 {
        lemma_kept_members(f, s.drop_last());
        let rest = f.kept(s.drop_last());
        assert forall|i: int| 0 <= i < f.kept(s).len() implies exists|j: int|
            0 <= j < s.len() && #[trigger] f.kept(s)[i] == s[j] by {
            if i < rest.len() {
                let j = choose|j: int| 0 <= j < s.drop_last().len() && rest[i] == s.drop_last()[j];
                assert(f.kept(s)[i] == s[j]);
            } else {
                assert(f.kept(s)[i] == s[s.len() - 1]);
            }
        }
    }
}

/// Every entry left pending by `take` was pending before, at another
/// position than the entry handed out.
proof fn lemma_take_members(f: FrontierView, r: Option<CrawledUrl>, g: FrontierView)
    requires
        f.take_result(r, g),
    ensures
        g.visited == f.visited,
        g.max_depth == f.max_depth,
        g.max_origin_depth == f.max_origin_depth,
        match r {
            Some(e) => exists|k: int|
                0 <= k < f.pending.len() && f.pending[k] == e && forall|i: int|
                    0 <= i < g.pending.len() ==> exists|j: int|
                        0 <= j < f.pending.len() && j != k && #[trigger] g.pending[i] == f.pending[j],
            None => forall|i: int|
                0 <= i < g.pending.len() ==> exists|j: int|
                    0 <= j < f.pending.len() && #[trigger] g.pending[i] == f.pending[j],
        },
{
    let p = f.pending;
    match r {
        Some(e) => {
            let k = choose|k: int| #![trigger p[k]] f.first_takeable(k) && e == p[k] && g == f.taken_at(k);
            lemma_kept_members(f, p.take(k));
            let head = f.kept(p.take(k));
            assert forall|i: int| 0 <= i < g.pending.len() implies exists|j: int|
                0 <= j < p.len() && j != k && #[trigger] g.pending[i] == p[j] by {
                if i < head.len() {
                    let j = choose|j: int| 0 <= j < p.take(k).len() && head[i] == p.take(k)[j];
                    assert(g.pending[i] == p[j]);
                } else {
                    assert(g.pending[i] == p[k + 1 + (i - head.len())]);
                }
            }
        },
        None => {
            lemma_kept_members(f, p);
        },
    }
}

/// Taking an entry into hand keeps the scheduler's invariant.
proof fn lemma_refill_inv(v: SchedulerView, r: Option<CrawledUrl>, g: FrontierView)
    requires
        v.inv(),
        v.ready is None,
        v.frontier.take_result(r, g),
        g.inv(),
    ensures
        (SchedulerView { frontier: g, ready: r, ..v }).inv(),
{
    let f = v.frontier;
    lemma_take_members(f, r, g);
    assert forall|i: int| 0 <= i < g.pending.len() implies !v.dispatched.contains(
        #[trigger] g.pending[i].url.text@,
    ) by {
        let j = choose|j: int| 0 <= j < f.pending.len() && #[trigger] g.pending[i] == f.pending[j];
        assert(!v.dispatched.contains(f.pending[j].url.text@));
    }
    match r {
        Some(e) => {
            let k = choose|k: int|
                0 <= k < f.pending.len() && f.pending[k] == e && forall|i: int|
                    0 <= i < g.pending.len() ==> exists|j: int|
                        0 <= j < f.pending.len() && j != k && #[trigger] g.pending[i] == f.pending[j];
            assert(f.visited.contains(f.pending[k].url.text@));
            assert(!v.dispatched.contains(f.pending[k].url.text@));
            assert forall|i: int| 0 <= i < g.pending.len() implies #[trigger] g.pending[i].url.text@
                != e.url.text@ by {
                let j = choose|j: int| 0 <= j < f.pending.len() && j != k && #[trigger] g.pending[i] == f.pending[j];
                if j < k {
                    assert(f.pending[j].url.text@ != f.pending[k].url.text@);
                } else {
                    assert(f.pending[k].url.text@ != f.pending[j].url.text@);
                }
            }
        },
        None => {},
    }
}

/// Releasing a worker keeps the scheduler's invariant.
proof fn lemma_release_inv(v: SchedulerView, w: int)
    requires
        v.inv(),
        0 <= w < v.busy.len(),
    ensures
        (SchedulerView { busy: v.busy.update(w, false), assigned: v.assigned.update(w, None), ..v }).inv(),
{
    let u = SchedulerView { busy: v.busy.update(w, false), assigned: v.assigned.update(w, None), ..v };
    assert forall|i: int| 0 <= i < u.busy.len() implies (#[trigger] u.assigned[i] is Some) == u.busy[i] by {
        if i != w {
            assert(v.assigned[i] is Some == v.busy[i]);
        }
    }
}

/// Enqueueing keeps the scheduler's invariant.
proof fn lemma_enqueue_inv(v: SchedulerView, c: CrawledUrl)
    requires
        v.inv(),
    ensures
        (SchedulerView { frontier: v.frontier.enqueue(c), ..v }).inv(),
{
    let f = v.frontier;
    let g = f.enqueue(c);
    if f.accepts(c) {
        assert forall|i: int, j: int| 0 <= i < j < g.pending.len() implies g.pending[i].url.text@
            != g.pending[j].url.text@ by {
            if j == f.pending.len() {
                assert(f.visited.contains(f.pending[i].url.text@));
            }
        }
        assert(distinct_texts(g.pending));
        assert forall|i: int| 0 <= i < g.pending.len() implies !v.dispatched.contains(
            #[trigger] g.pending[i].url.text@,
        ) by {
            if i == f.pending.len() {
                assert(g.pending[i] == c);
            }
        }
        assert forall|i: int| 0 <= i < g.pending.len() implies #[trigger] g.visited.contains(
            g.pending[i].url.text@,
        ) by {
            if i < f.pending.len() {
                assert(f.visited.contains(f.pending[i].url.text@));
            }
        }
        match v.ready {
            Some(r) => {
                assert forall|i: int| 0 <= i < g.pending.len() implies #[trigger] g.pending[i].url.text@
                    != r.url.text@ by {
                    if i == f.pending.len() {
                        assert(g.pending[i] == c);
                    }
                }
            },
            None => {},
        }
    }
}

/// Enqueueing a batch keeps the scheduler's invariant.
proof fn lemma_enqueue_all_inv(v: SchedulerView, cs: Seq<CrawledUrl>)
    requires
        v.inv(),
    ensures
        (SchedulerView { frontier: v.frontier.enqueue_all(cs), ..v }).inv(),
    decreases cs.len(),
{
    if cs.len() > 0 {
        lemma_enqueue_all_inv(v, cs.drop_last());
        let w = SchedulerView { frontier: v.frontier.enqueue_all(cs.drop_last()), ..v };
        lemma_enqueue_inv(w, cs.last());
    }
}

/// A dispatch goes to an idle worker: the fetches in flight never exceed
/// the number of workers, and with every worker busy the next step is no
/// dispatch.
pub proof fn lemma_bounded_concurrency(v: SchedulerView, s: Step, w: SchedulerView)
    requires
        v.inv(),
        v.next_step_rel(s, w),
    ensures
        w.busy.len() == v.busy.len(),
        v.active() <= v.busy.len(),
        w.active() <= w.busy.len(),
        v.active() == v.busy.len() ==> !(s is Dispatch),
        match s {
            Step::Dispatch { .. } => w.active() == v.active() + 1,
            _ => w.active() == v.active(),
        },
{
    lemma_busy_count_bound(v.busy);
    lemma_busy_count_bound(w.busy);
    match s {
        Step::Dispatch { worker, url } => {
            lemma_busy_count_update(v.busy, worker as int, true);
        },
        _ => {},
    }
}

/// No URL is dispatched twice: the URL of a dispatch was never dispatched
/// before, and is recorded as dispatched after.
pub proof fn lemma_dispatch_once(v: SchedulerView, s: Step, w: SchedulerView)
    requires
        v.inv(),
        v.next_step_rel(s, w),
    ensures
        match s {
            Step::Dispatch { worker, url } => {
                &&& !v.dispatched.contains(url.url.text@)
                &&& w.dispatched == v.dispatched.insert(url.url.text@)
            },
            _ => w.dispatched == v.dispatched,
        },
{
    let (c, f) = choose|c: Option<CrawledUrl>, f: FrontierView| #![trigger v.refill(c, f)] v.refill(c, f) && w.frontier == f && match s {
        Step::Dispatch { worker, url } => c == Some(url) && w.dispatched == v.dispatched.insert(url.url.text@),
        _ => w.dispatched == v.dispatched,
    };
    match s {
        Step::Dispatch { worker, url } => {
            if v.ready is None {
                let p = v.frontier.pending;
                let k = choose|k: int| #![trigger p[k]] v.frontier.first_takeable(k) && url == p[k] && f == v.frontier.taken_at(k);
                assert(!v.dispatched.contains(p[k].url.text@));
            }
        },
        _ => {},
    }
}

/// Enqueueing a batch only adds: the visited set grows, and where it stays
/// the same nothing was added; with candidates drawn from `universe`, so is
/// everything visited.
pub proof fn lemma_enqueue_all_grows(f: FrontierView, cs: Seq<CrawledUrl>, universe: Set<Seq<char>>)
    ensures
        f.visited.subset_of(f.enqueue_all(cs).visited),
        f.enqueue_all(cs).visited == f.visited ==> f.enqueue_all(cs) == f,
        f.visited.subset_of(universe) && (forall|i: int| 0 <= i < cs.len() ==> universe.contains(#[trigger] cs[i].url.text@))
            ==> f.enqueue_all(cs).visited.subset_of(universe),
    decreases cs.len(),
{
    if cs.len() > 0 {
        let rest = cs.drop_last();
        lemma_enqueue_all_grows(f, rest, universe);
        let h = f.enqueue_all(rest);
        let g = h.enqueue(cs.last());
        if g.visited == f.visited {
            assert(h.visited =~= f.visited);
            if h.accepts(cs.last()) {
                assert(g.visited.contains(cs.last().url.text@));
                assert(!f.visited.contains(cs.last().url.text@));
            }
        }
        if f.visited.subset_of(universe) && (forall|i: int| 0 <= i < cs.len() ==> universe.contains(#[trigger] cs[i].url.text@)) {
            assert(forall|i: int| 0 <= i < rest.len() ==> rest[i] == cs[i]);
            assert(universe.contains(cs[cs.len() - 1].url.text@));
        }
    }
}

/// Every step of the master loop makes progress. A decision leaves the
/// visited set as it is; a dispatch lowers the work left, a wait does not
/// raise it and comes only while a fetch is in flight, and the loop is done
/// only when nothing can be taken and no fetch is in flight. A completion
/// either adds to the visited set, within `universe` where the links are
/// drawn from it, or keeps the set and lowers the work left. As the visited
/// set can grow only so often within a finite `universe`, a crawl whose
/// links all lie in it ends.
pub proof fn lemma_progress(
    v: SchedulerView,
    s: Step,
    w: SchedulerView,
    worker: int,
    message: WorkerMessage,
    r: Option<CrawlerMessage>,
    u: SchedulerView,
    universe: Set<Seq<char>>,
)
    requires
        v.inv(),
        v.next_step_rel(s, w),
        0 <= worker < v.busy.len(),
        v.busy[worker],
        v.complete_rel(worker, message, r, u),
        v.frontier.visited.subset_of(universe),
        match message {
            WorkerMessage::Success(links) => forall|i: int|
                0 <= i < links@.len() ==> universe.contains(#[trigger] links@[i].url.text@),
            WorkerMessage::Failure(_) => true,
        },
    ensures
        w.frontier.visited == v.frontier.visited,
        match s {
            Step::Dispatch { .. } => w.work_left() < v.work_left(),
            Step::Wait => w.work_left() <= v.work_left() && v.active() > 0,
            Step::Done => v.ready is None && !v.frontier.has_takeable() && v.active() == 0,
        },
        v.frontier.visited.subset_of(u.frontier.visited),
        u.frontier.visited.subset_of(universe),
        u.frontier.visited == v.frontier.visited ==> u.work_left() < v.work_left(),
{
    let (c, f) = choose|c: Option<CrawledUrl>, f: FrontierView| #![trigger v.refill(c, f)] v.refill(c, f) && w.frontier == f && match s {
        Step::Dispatch { worker, url } => {
            &&& c == Some(url)
            &&& v.first_idle(worker as int)
            &&& w.busy == v.busy.update(worker as int, true)
            &&& w.ready is None
        },
        Step::Wait => w.busy == v.busy && w.ready == c && match c {
            Some(_) => forall|i: int| 0 <= i < v.busy.len() ==> v.busy[i],
            None => v.active() > 0,
        },
        Step::Done => c is None && v.active() == 0 && w.busy == v.busy && w.ready is None,
    };
    lemma_busy_count_bound(v.busy);
    if v.ready is None {
        let p = v.frontier.pending;
        lemma_kept_len(v.frontier, p);
        match c {
            Some(e) => {
                let k = choose|k: int| #![trigger p[k]] v.frontier.first_takeable(k) && e == p[k] && f == v.frontier.taken_at(k);
                lemma_kept_len(v.frontier, p.take(k));
                assert(f.pending.len() <= p.len() - 1);
            },
            None => {},
        }
    }
    match s {
        Step::Dispatch { worker: d, url } => {
            lemma_busy_count_update(v.busy, d as int, true);
        },
        _ => {},
    }
    lemma_busy_count_update(v.busy, worker, false);
    match message {
        WorkerMessage::Success(links) => {
            let cs = scoped(v.only_subdirs, v.roots, links@);
            lemma_scoped_members(v.only_subdirs, v.roots, links@);
            lemma_enqueue_all_grows(v.frontier, cs, universe);
        },
        WorkerMessage::Failure(_) => {},
    }
}

/// The work left is bounded by the visited set: pending entries and the
/// entry in hand have distinct visited texts.
proof fn lemma_work_bound(v: SchedulerView, universe: Set<Seq<char>>)
    requires
        v.inv(),
        universe.finite(),
        v.frontier.visited.subset_of(universe),
    ensures
        v.frontier.visited.finite(),
        v.frontier.visited.len() <= universe.len(),
        v.work_left() < 2 * universe.len() + v.busy.len() + 1,
{
    let f = v.frontier;
    vstd::set_lib::lemma_len_subset(f.visited, universe);
    let ps = f.pending.map_values(|c: CrawledUrl| c.url.text@);
    let ts = match v.ready {
        Some(c) => ps.push(c.url.text@),
        None => ps,
    };
    assert(ts.no_duplicates()) by {
        assert forall|i: int, j: int| 0 <= i < ts.len() && 0 <= j < ts.len() && i != j implies ts[i] != ts[j] by {
            if i < ps.len() && j < ps.len() {
                if i < j {
                    assert(f.pending[i].url.text@ != f.pending[j].url.text@);
                } else {
                    assert(f.pending[j].url.text@ != f.pending[i].url.text@);
                }
            } else if i < ps.len() {
                assert(f.pending[i].url.text@ != v.ready->0.url.text@);
            } else if j < ps.len() {
                assert(f.pending[j].url.text@ != v.ready->0.url.text@);
            }
        }
    }
    ts.unique_seq_to_set();
    assert(ts.to_set().subset_of(f.visited)) by {
        assert forall|t: Seq<char>| #[trigger] ts.to_set().contains(t) implies f.visited.contains(t) by {
            let i = choose|i: int| 0 <= i < ts.len() && ts[i] == t;
            if i < ps.len() {
                assert(f.visited.contains(f.pending[i].url.text@));
            }
        }
    }
    vstd::set_lib::lemma_len_subset(ts.to_set(), f.visited);
    lemma_busy_count_bound(v.busy);
}

/// A crawl whose links lie in a finite `universe` ends: the rank is a
/// natural number that every dispatch and every completion lowers, a wait
/// does not raise it and comes only while a fetch is in flight, and the
/// loop is done once nothing can be taken and no fetch is in flight.
pub proof fn lemma_crawl_ends(
    v: SchedulerView,
    s: Step,
    w: SchedulerView,
    worker: int,
    message: WorkerMessage,
    r: Option<CrawlerMessage>,
    u: SchedulerView,
    universe: Set<Seq<char>>,
)
    requires
        v.inv(),
        universe.finite(),
        v.frontier.visited.subset_of(universe),
        v.next_step_rel(s, w),
        0 <= worker < v.busy.len(),
        v.busy[worker],
        v.complete_rel(worker, message, r, u),
        match message {
            WorkerMessage::Success(links) => forall|i: int|
                0 <= i < links@.len() ==> universe.contains(#[trigger] links@[i].url.text@),
            WorkerMessage::Failure(_) => true,
        },
    ensures
        match s {
            Step::Dispatch { .. } => w.rank(universe) < v.rank(universe),
            Step::Wait => w.rank(universe) <= v.rank(universe) && v.active() > 0,
            Step::Done => v.ready is None && !v.frontier.has_takeable() && v.active() == 0,
        },
        u.rank(universe) < v.rank(universe),
{
    lemma_progress(v, s, w, worker, message, r, u, universe);
    lemma_work_bound(v, universe);
    let b = 2 * universe.len() + v.busy.len() + 1;
    let k = universe.len() - v.frontier.visited.len();
    assert(w.busy.len() == v.busy.len());
    assert(u.busy.len() == v.busy.len());
    if u.frontier.visited != v.frontier.visited {
        assert(exists|x: Seq<char>| u.frontier.visited.contains(x) && !v.frontier.visited.contains(x)) by {
            if !(exists|x: Seq<char>| u.frontier.visited.contains(x) && !v.frontier.visited.contains(x)) {
                assert(u.frontier.visited =~= v.frontier.visited);
            }
        }
        let x = choose|x: Seq<char>| u.frontier.visited.contains(x) && !v.frontier.visited.contains(x);
        vstd::set_lib::lemma_len_subset(u.frontier.visited, universe);
        assert(v.frontier.visited.insert(x).len() == v.frontier.visited.len() + 1);
        vstd::set_lib::lemma_len_subset(v.frontier.visited.insert(x), u.frontier.visited);
        lemma_release_inv_view(v, worker, message, r, u);
        lemma_work_bound(u, universe);
        let ku = universe.len() - u.frontier.visited.len();
        assert(ku + 1 <= k);
        assert(ku * b + u.work_left() < k * b + v.work_left()) by (nonlinear_arith)
            requires
                ku + 1 <= k,
                u.work_left() < b,
                ku >= 0,
        ;
    }
}

/// The state after a completion keeps the scheduler's invariant.
proof fn lemma_release_inv_view(
    v: SchedulerView,
    worker: int,
    message: WorkerMessage,
    r: Option<CrawlerMessage>,
    u: SchedulerView,
)
    requires
        v.inv(),
        0 <= worker < v.busy.len(),
        v.complete_rel(worker, message, r, u),
    ensures
        u.inv(),
{
    let mid = match message {
        WorkerMessage::Success(links) => SchedulerView {
            frontier: v.frontier.enqueue_all(scoped(v.only_subdirs, v.roots, links@)),
            ..v
        },
        WorkerMessage::Failure(_) => v,
    };
    match message {
        WorkerMessage::Success(links) => {
            lemma_enqueue_all_inv(v, scoped(v.only_subdirs, v.roots, links@));
        },
        WorkerMessage::Failure(_) => {},
    }
    lemma_release_inv(mid, worker);
    assert(u == (SchedulerView {
        busy: mid.busy.update(worker, false),
        assigned: mid.assigned.update(worker, None),
        ..mid
    }));
}

/// `kept` never lengthens a sequence.
proof fn lemma_kept_len(f: FrontierView, s: Seq<CrawledUrl>)
    ensures
        f.kept(s).len() <= s.len(),
    decreases s.len(),
{
    if s.len() > 0 {
        lemma_kept_len(f, s.drop_last());
    }
}

/// The entries that the scope rule keeps are entries of the sequence.
proof fn lemma_scoped_members(only_subdirs: bool, roots: Seq<WebUrl>, s: Seq<CrawledUrl>)
    ensures
        forall|i: int|
            0 <= i < scoped(only_subdirs, roots, s).len() ==> exists|j: int|
                0 <= j < s.len() && #[trigger] scoped(only_subdirs, roots, s)[i] == s[j],
    decreases s.len(),
{
    if s.len() > 0 {
        lemma_scoped_members(only_subdirs, roots, s.drop_last());
        let rest = scoped(only_subdirs, roots, s.drop_last());
        assert forall|i: int| 0 <= i < scoped(only_subdirs, roots, s).len() implies exists|j: int|
            0 <= j < s.len() && #[trigger] scoped(only_subdirs, roots, s)[i] == s[j] by {
            if i < rest.len() {
                let j = choose|j: int| 0 <= j < s.drop_last().len() && rest[i] == s.drop_last()[j];
                assert(scoped(only_subdirs, roots, s)[i] == s[j]);
            } else {
                assert(scoped(only_subdirs, roots, s)[i] == s[s.len() - 1]);
            }
        }
    }
}

/// The master side of a crawl: the frontier, the scope rule, and one flag
/// per worker saying whether it has a URL in hand.
pub struct Scheduler {
    queue: CrawlerQueue,
    filter: UrlFilter,
    workers: Vec<bool>,
    in_hand: Vec<Option<WebUrl>>,
    active_workers: usize,
    ready: Option<CrawledUrl>,
    dispatched: Ghost<Set<Seq<char>>>,
}

impl View for Scheduler {
    type V = SchedulerView;

    closed spec fn view(&self) -> SchedulerView {
        SchedulerView {
            frontier: self.queue@,
            busy: self.workers@,
            assigned: self.in_hand@,
            ready: self.ready,
            dispatched: self.dispatched@,
            only_subdirs: self.filter.only_subdirs(),
            roots: self.filter.roots(),
        }
    }
}

impl Scheduler {
    pub closed spec fn wf(&self) -> bool {
        &&& self.queue.wf()
        &&& self@.inv()
        &&& self.active_workers == busy_count(self.workers@)
    }

    /// What the scheduler's well-formedness says of its view.
    pub proof fn lemma_view_inv(&self)
        requires
            self.wf(),
        ensures
            self@.inv(),
    {
    }

    /// A scheduler over `queue` with `max_jobs` idle workers.
    pub fn new(queue: CrawlerQueue, filter: UrlFilter, max_jobs: usize) -> (r: Scheduler)
        requires
            queue.wf(),
            max_jobs >= 1,
        ensures
            r.wf(),
            r@.frontier == queue@,
            r@.busy == Seq::new(max_jobs as nat, |i: int| false),
            r@.assigned == Seq::new(max_jobs as nat, |i: int| None::<WebUrl>),
            r@.ready is None,
            r@.dispatched == Set::<Seq<char>>::empty(),
            r@.only_subdirs == filter.only_subdirs(),
            r@.roots == filter.roots(),
    {
        let mut workers: Vec<bool> = Vec::new();
        let mut in_hand: Vec<Option<WebUrl>> = Vec::new();
        let mut i: usize = 0;
        while i < max_jobs
            invariant
                i <= max_jobs,
                workers@ == Seq::new(i as nat, |j: int| false),
                in_hand@ == Seq::new(i as nat, |j: int| None::<WebUrl>),
            decreases max_jobs - i,
        {
            workers.push(false);
            in_hand.push(None);
            i = i + 1;
            assert(workers@ =~= Seq::new(i as nat, |j: int| false));
            assert(in_hand@ =~= Seq::new(i as nat, |j: int| None::<WebUrl>));
        }
        proof {
            queue.lemma_view_inv();
            lemma_busy_count_bound(workers@);
        }
        Scheduler {
            queue,
            filter,
            workers,
            in_hand,
            active_workers: 0,
            ready: None,
            dispatched: Ghost(Set::empty()),
        }
    }

    /// The number of workers.
    pub fn max_jobs(&self) -> (r: usize)
        ensures
            r == self@.busy.len(),
    {
        self.workers.len()
    }

    /// Whether worker `worker` has a URL in hand.
    pub fn is_busy(&self, worker: usize) -> (r: bool)
        requires
            worker < self@.busy.len(),
        ensures
            r == self@.busy[worker as int],
    {
        self.workers[worker]
    }

    /// The number of fetches in flight.
    pub fn active_workers(&self) -> (r: usize)
        requires
            self.wf(),
        ensures
            r == self@.active(),
    {
        self.active_workers
    }

    /// Enqueues the roots of the crawl, at depth 0.
    pub fn start(&mut self, roots: Vec<WebUrl>)
        requires
            old(self).wf(),
        ensures
            final(self).wf(),
            final(self)@ == (SchedulerView {
                frontier: old(self)@.frontier.enqueue_all(root_entries(roots@)),
                ..old(self)@
            }),
    {
        let ghost us = roots@;
        let mut entries: Vec<CrawledUrl> = Vec::new();
        for u in it: roots.into_iter()
            invariant
                it.seq() == us,
                entries@ == root_entries(us.take(it.index() as int)),
        {
            entries.push(CrawledUrl::root(u));
            proof {
                assert(entries@ =~= root_entries(us.take(it.index() as int + 1)));
            }
        }
        proof {
            assert(us.take(us.len() as int) =~= us);
            lemma_enqueue_all_inv(self@, entries@);
        }
        self.queue.check_and_queue_iter(entries);
    }

    /// The first idle worker, if any.
    fn first_idle_worker(&self) -> (r: Option<usize>)
        ensures
            match r {
                Some(w) => self@.first_idle(w as int),
                None => forall|i: int| 0 <= i < self@.busy.len() ==> self@.busy[i],
            },
    {
        let mut i: usize = 0;
        while i < self.workers.len()
            invariant
                i <= self.workers@.len(),
                forall|j: int| 0 <= j < i ==> self.workers@[j],
            decreases self.workers@.len() - i,
        {
            if !self.workers[i] {
                return Some(i);
            }
            i = i + 1;
        }
        None
    }

    /// Decides the master loop's next action.
    pub fn next_step(&mut self) -> (s: Step)
        requires
            old(self).wf(),
        ensures
            final(self).wf(),
            old(self)@.next_step_rel(s, final(self)@),
    {
        let ghost o = self@;
        if self.ready.is_none() {
            let r = self.queue.take();
            proof {
                self.queue.lemma_view_inv();
                lemma_refill_inv(o, r, self.queue@);
            }
            self.ready = r;
        }
        let ghost c = self.ready;
        let ghost f = self.queue@;
        assert(o.refill(c, f));
        assert(self@ == (SchedulerView { frontier: f, ready: c, ..o }));
        match self.ready.take() {
            Some(url) => match self.first_idle_worker() {
                Some(w) => {
                    let n = self.workers.len();
                    proof {
                        lemma_busy_count_bound(self.workers@);
                        assert(busy_count(self.workers@) < n);
                        lemma_busy_count_update(self.workers@, w as int, true);
                    }
                    self.workers.set(w, true);
                    self.in_hand.set(w, Some(url.url.duplicate()));
                    self.active_workers = self.active_workers + 1;
                    self.dispatched = Ghost(self.dispatched@.insert(url.url.text@));
                    assert(self@.inv()) by {
                        assert forall|i: int| 0 <= i < f.pending.len() implies !self@.dispatched.contains(
                            #[trigger] f.pending[i].url.text@,
                        ) by {
                            assert(f.pending[i].url.text@ != url.url.text@);
                        }
                    }
                    let ghost t = url.url.text@;
                    let step = Step::Dispatch { worker: w, url };
                    assert(self@.busy == o.busy.update(w as int, true));
                    assert(self@.assigned == o.assigned.update(w as int, Some(url.url)));
                    assert(self@.dispatched == o.dispatched.insert(t));
                    assert(self@.frontier == f);
                    assert(o.next_step_rel(step, self@));
                    step
                },
                None => {
                    self.ready = Some(url);
                    proof {
                        lemma_busy_count_bound(self.workers@);
                    }
                    assert(o.next_step_rel(Step::Wait, self@));
                    Step::Wait
                },
            },
            None => {
                proof {
                    lemma_busy_count_bound(self.workers@);
                }
                if self.active_workers > 0 {
                    assert(o.next_step_rel(Step::Wait, self@));
                    Step::Wait
                } else {
                    assert(o.next_step_rel(Step::Done, self@));
                    Step::Done
                }
            },
        }
    }

    /// Takes in worker `worker`'s report: the worker is idle again, the
    /// links of a success that stay in scope are enqueued, and a failure is
    /// handed back as the event to report.
    pub fn complete(&mut self, worker: usize, message: WorkerMessage) -> (r: Option<CrawlerMessage>)
        requires
            old(self).wf(),
            worker < old(self)@.busy.len(),
            old(self)@.busy[worker as int],
        ensures
            final(self).wf(),
            old(self)@.complete_rel(worker as int, message, r, final(self)@),
    {
        let ghost o = self@;
        proof {
            lemma_busy_count_update(self.workers@, worker as int, false);
        }
        let ghost was_failure = message is Failure;
        let r = match message {
            WorkerMessage::Success(links) => {
                let ghost ls = links@;
                let mut kept: Vec<CrawledUrl> = Vec::new();
                for link in it: links.into_iter()
                    invariant
                        it.seq() == ls,
                        kept@ == scoped(o.only_subdirs, o.roots, ls.take(it.index() as int)),
                        self.queue@ == o.frontier,
                        self.queue.wf(),
                        self.workers@ == o.busy,
                        self.in_hand@ == o.assigned,
                        self.ready == o.ready,
                        self.dispatched@ == o.dispatched,
                        self.filter.only_subdirs() == o.only_subdirs,
                        self.filter.roots() == o.roots,
                {
                    proof {
                        assert(ls.take(it.index() as int + 1).drop_last() =~= ls.take(it.index() as int));
                    }
                    if self.filter.matches(&link.url) {
                        kept.push(link);
                    }
                }
                proof {
                    assert(ls.take(ls.len() as int) =~= ls);
                    lemma_enqueue_all_inv(self@, kept@);
                }
                self.queue.check_and_queue_iter(kept);
                None
            },
            WorkerMessage::Failure(e) => match &self.in_hand[worker] {
                Some(u) => Some(CrawlerMessage::Error(u.duplicate(), e)),
                None => None,
            },
        };
        let ghost mid = self@;
        proof {
            if was_failure {
                assert(mid == o);
            }
            assert(mid.inv());
            lemma_release_inv(mid, worker as int);
        }
        self.workers.set(worker, false);
        self.in_hand.set(worker, None);
        self.active_workers = self.active_workers - 1;
        proof {
            assert(self@ == (SchedulerView {
                busy: mid.busy.update(worker as int, false),
                assigned: mid.assigned.update(worker as int, None),
                ..mid
            }));
            assert(self@.assigned == o.assigned.update(worker as int, None));
            assert(self@.busy == o.busy.update(worker as int, false));
            assert(o.assigned[worker as int] is Some);
        }
        r
    }
}

} // verus!
