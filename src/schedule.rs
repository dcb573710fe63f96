use crate::clock::{incremental_span, incremental_span_spec};
use crate::quote::Quote;
use std::collections::VecDeque;
use vstd::prelude::*;

verus! {

/// Requests above the concurrency limit that are kept for corrective full
/// re-fetches, so that those never wait behind the main queue.
pub const CONCURRENCY_BUFFER: usize = 10;

/// Years of daily history that a full request asks for.
pub const FULL_HISTORY_YEARS: u32 = 2;

/// How a ticker is brought up to date.
#[derive(Clone, Copy, Debug, PartialEq, Eq, Structural)]
pub enum Mode {
    /// All history of the last `FULL_HISTORY_YEARS` years.
    Full,
    /// Only the days since the last stored bar.
    Incremental,
}

/// Length of history a request asks for.
#[derive(Clone, Copy, Debug, PartialEq, Eq, Structural)]
pub enum Span {
    Years(u32),
    Days(i64),
}

/// A historical-data request to hand to the market-data session.
#[derive(Debug)]
pub struct Request {
    pub request_id: i32,
    pub ticker: String,
    pub mode: Mode,
    /// UTC seconds the history should end at.
    pub as_of: i64,
    pub span: Span,
}

/// Why a queued ticker was dropped without a request.
#[derive(Clone, Copy, Debug, PartialEq, Eq, Structural)]
pub enum Skip {
    /// The ticker already has a request outstanding.
    InFlight,
    /// No bar of the ticker is stored, so there is nothing to extend.
    NoHistory,
    /// The stored history already reaches the as-of day.
    UpToDate,
}

/// What became of one queued ticker.
#[derive(Debug)]
pub enum Dispatch {
    Sent(Request),
    Skipped(String, Skip),
}

impl Dispatch {
    /// The ticker this outcome is about.
    pub open spec fn ticker(&self) -> String {
        match self {
            Dispatch::Sent(r) => r.ticker,
            Dispatch::Skipped(t, _) => *t,
        }
    }
}

/// A request sent and not yet answered, with the bars received for it so far.
#[derive(Debug)]
pub struct PendingRequest {
    pub request_id: i32,
    pub ticker: String,
    pub mode: Mode,
    pub bars: Vec<Quote>,
}

/// The mathematical value of a `PendingRequest`.
pub struct PendingView {
    pub request_id: i32,
    pub ticker: Seq<char>,
    pub mode: Mode,
    pub bars: Seq<Quote>,
}

impl View for PendingRequest {
    type V = PendingView;

    open spec fn view(&self) -> PendingView {
        PendingView { request_id: self.request_id, ticker: self.ticker@, mode: self.mode, bars: self.bars@ }
    }
}

/// A request answered in full: its ticker, mode, and the bars in the order
/// they arrived.
#[derive(Debug)]
pub struct Completed {
    pub ticker: String,
    pub mode: Mode,
    pub bars: Vec<Quote>,
}

impl Completed {
    /// Time of the bar to compare with the stored history: the first bar of an
    /// incremental batch (bars arrive in time order); `None` for a full batch
    /// or an empty one, which need no comparison.
    pub fn check_time(&self) -> (r: Option<i64>)
        ensures
            r == (if self.mode == Mode::Incremental && self.bars@.len() > 0 {
                Some(self.bars@[0].timestamp)
            } else {
                None::<i64>
            }),
    {
        if self.mode == Mode::Incremental && self.bars.len() > 0 {
            Some(self.bars[0].timestamp)
        } else {
            None
        }
    }
}

/// What to do with the bars of a completed request.
#[derive(Clone, Copy, Debug, PartialEq, Eq, Structural)]
pub enum Decision {
    /// Store the bars.
    Commit,
    /// Store nothing: the batch cannot be checked against stored history.
    Discard,
    /// Store nothing: history was revised upstream, and the ticker was queued
    /// for a full re-fetch.
    Resync,
}

/// A session event that does not fit the scheduler's state.
#[derive(Clone, Copy, Debug, PartialEq, Eq, Structural)]
pub enum SyncError {
    /// No outstanding request has this id.
    UnknownRequest(i32),
    /// An event of a kind this scheduler does not handle.
    Unsupported,
}

/// An event of the market-data session, one variant per kind.
#[derive(Debug)]
pub enum Event {
    /// The session is ready; the next order id it will accept.
    SessionReady(i32),
    /// A bar for an outstanding request.
    Bar(i32, Quote),
    /// All bars of a request have arrived.
    EndOfHistory(i32),
    /// The session reports an error against a request.
    RequestError(i32),
    /// A notice that asks for nothing.
    Informational,
    /// Any other kind of event.
    Unsupported,
}

/// What handling an event gave.
#[derive(Debug)]
pub enum Handled {
    Nothing,
    /// A request completed; its batch awaits `settle`; more tickers were dispatched.
    Completed(Completed, Vec<Dispatch>),
    /// A request failed and its ticker was dropped, if the id was known; more
    /// tickers were dispatched.
    Dropped(Option<String>, Vec<Dispatch>),
}

/// Decision for a completed batch. A full batch is stored as it is. An
/// incremental batch is checked at its first bar (bars arrive in time order):
/// with no stored bar at that time it is dropped; where the stored close
/// differs, history was revised and the ticker needs a full re-fetch;
/// otherwise it is stored.
pub open spec fn decision_spec(mode: Mode, bars: Seq<Quote>, stored_close: Option<u64>) -> Decision {
    match mode {
        Mode::Full => Decision::Commit,
        Mode::Incremental => {
            if bars.len() == 0 {
                Decision::Discard
            } else {
                match stored_close {
                    None => Decision::Discard,
                    Some(c) => if c != bars[0].close {
                        Decision::Resync
                    } else {
                        Decision::Commit
                    },
                }
            }
        },
    }
}

/// What the scheduler does with the ticker at the front of its queues.
pub enum Plan {
    SendFull,
    SendDays(int),
    Drop(Skip),
}

/// Number of requests sent among the outcomes `ds`.
pub open spec fn sent_count(ds: Seq<Dispatch>) -> int
    decreases ds.len(),
{
    if ds.len() == 0 {
        0
    } else {
        sent_count(ds.drop_last()) + if ds.last() is Sent {
            1int
        } else {
            0int
        }
    }
}

/// Some outstanding request is for ticker `t`.
pub open spec fn has_ticker(p: Seq<PendingView>, t: Seq<char>) -> bool {
    exists|i: int| 0 <= i < p.len() && (#[trigger] p[i]).ticker == t
}

/// The request scheduler and response correlator of one market-data
/// session: two queues of tickers awaiting dispatch (full requests always go
/// first), the requests outstanding with the bars received for each, and the
/// last request id handed out.
pub struct Scheduler {
    /// Requests outstanding at most, but for corrective re-fetches.
    pub concurrency_limit: usize,
    /// Ask for the latest days even where the stored history is up to date.
    pub force: bool,
    pub full_ticker_queue: VecDeque<String>,
    /// Each ticker with the UTC time of its last stored bar, if any.
    pub incremental_ticker_queue: VecDeque<(String, Option<i64>)>,
    pub open_requests: Vec<PendingRequest>,
    /// The last request id handed out.
    pub req_id: i32,
    /// The next order id the session announced.
    pub next_order_id: i32,
}

/// One dispatch from `pre` to `post` with outcome `d` at as-of time `as_of`:
/// the front ticker leaves the queues; it is dropped for the reason `plan`
/// gives, with nothing else changed, or sent as the next request id and
/// recorded as outstanding with no bars yet.
pub open spec fn stepped(pre: Scheduler, post: Scheduler, as_of: i64, d: Dispatch) -> bool {
    &&& post.same_settings(&pre)
    &&& pre.queued().len() > 0
    &&& post.queued() == pre.queued().skip(1)
    &&& d.ticker()@ == pre.queued()[0].0
    &&& match d {
        Dispatch::Skipped(_, k) => {
            &&& pre.plan(as_of) == Plan::Drop(k)
            &&& post.pending() == pre.pending()
            &&& post.req_id == pre.req_id
        },
        Dispatch::Sent(q) => {
            &&& q.request_id == pre.req_id + 1
            &&& post.req_id == q.request_id
            &&& q.as_of == as_of
            &&& q.mode == pre.queued()[0].1
            &&& post.pending() == pre.pending().push(
                PendingView { request_id: q.request_id, ticker: q.ticker@, mode: q.mode, bars: Seq::empty() },
            )
            &&& match pre.plan(as_of) {
                Plan::SendFull => q.span == Span::Years(FULL_HISTORY_YEARS),
                Plan::SendDays(days) => q.span == Span::Days(days as i64) && days == q.span->Days_0,
                Plan::Drop(_) => false,
            }
        },
    }
}

/// `trace` runs from `pre` to `post` through one `stepped` dispatch per outcome in `ds`.
pub open spec fn traced(trace: Seq<Scheduler>, pre: Scheduler, post: Scheduler, as_of: i64, ds: Seq<Dispatch>) -> bool {
    &&& trace.len() == ds.len() + 1
    &&& trace[0] == pre
    &&& trace.last() == post
    &&& forall|j: int| 0 <= j < ds.len() ==> stepped(trace[j], trace[j + 1], as_of, #[trigger] ds[j])
}

/// The request at position `i` left `pre`, and then `ds` came of
/// dispatching one more ticker (drops, then at most one send) to reach
/// `post`: the queues lost exactly the tickers of `ds`, no more requests are
/// outstanding than before, and no more than `concurrency_limit` unless that
/// many were outstanding already.
pub open spec fn refilled(pre: Scheduler, post: Scheduler, i: int, as_of: i64, ds: Seq<Dispatch>) -> bool {
    &&& exists|mid: Scheduler, trace: Seq<Scheduler>|
        #[trigger] traced(trace, mid, post, as_of, ds) && mid.pending() == pre.pending().remove(i)
            && mid.full_ticker_queue@ == pre.full_ticker_queue@
            && mid.incremental_ticker_queue@ == pre.incremental_ticker_queue@ && mid.req_id == pre.req_id
            && mid.same_settings(&pre)
    &&& ds.len() <= pre.queued().len()
    &&& post.queued() == pre.queued().skip(ds.len() as int)
    &&& forall|j: int| 0 <= j < ds.len() - 1 ==> (#[trigger] ds[j]) is Skipped
    &&& post.idle(pre.concurrency_limit as int) || (ds.len() > 0 && ds.last() is Sent)
    &&& post.pending().len() <= pre.pending().len()
    &&& post.pending().len() < pre.pending().len() || post.pending().len() <= pre.concurrency_limit
    &&& post.pending().subrange(0, pre.pending().len() - 1) == pre.pending().remove(i)
    &&& forall|k: int|
        pre.pending().len() - 1 <= k < post.pending().len() ==> (#[trigger] post.pending()[k]).request_id > pre.req_id
    &&& forall|k: int|
        0 <= k < post.pending().len() ==> (#[trigger] post.pending()[k]).request_id != pre.pending()[i].request_id
}

/// Request `id` was outstanding in `pre` and completed with `c` (its ticker,
/// mode and buffered bars), and the scheduler refilled to `post` with `ds`.
pub open spec fn completion(pre: Scheduler, post: Scheduler, id: i32, as_of: i64, c: Completed, ds: Seq<Dispatch>) -> bool {
    exists|i: int|
        0 <= i < pre.pending().len() && (#[trigger] pre.pending()[i]).request_id == id && c.ticker@
            == pre.pending()[i].ticker && c.mode == pre.pending()[i].mode && c.bars@ == pre.pending()[i].bars
            && refilled(pre, post, i, as_of, ds)
}

/// Request `id` for ticker `t` was outstanding in `pre` and was dropped, and
/// the scheduler refilled to `post` with `ds`.
pub open spec fn dropped(pre: Scheduler, post: Scheduler, id: i32, as_of: i64, t: String, ds: Seq<Dispatch>) -> bool {
    exists|i: int|
        0 <= i < pre.pending().len() && (#[trigger] pre.pending()[i]).request_id == id && t@
            == pre.pending()[i].ticker && refilled(pre, post, i, as_of, ds)
}

/// Once request `i` is removed and only fresh ids are added, its id is gone.
proof fn lemma_removed_id_gone(pre: Scheduler, post: Scheduler, i: int)
    requires
        pre.wf(),
        0 <= i < pre.pending().len(),
        pre.pending().len() - 1 <= post.pending().len(),
        post.pending().subrange(0, pre.pending().len() - 1) == pre.pending().remove(i),
        forall|k: int|
            pre.pending().len() - 1 <= k < post.pending().len() ==> (#[trigger] post.pending()[k]).request_id
                > pre.req_id,
    ensures
        forall|k: int|
            0 <= k < post.pending().len() ==> (#[trigger] post.pending()[k]).request_id != pre.pending()[i].request_id,
{
    assert forall|k: int| 0 <= k < post.pending().len() implies (#[trigger] post.pending()[k]).request_id
        != pre.pending()[i].request_id by {
        assert(pre.pending()[i].request_id <= pre.req_id);
        if k < pre.pending().len() - 1 {
            assert(post.pending()[k] == post.pending().subrange(0, pre.pending().len() - 1)[k]);
            if k < i {
                assert(pre.pending().remove(i)[k] == pre.pending()[k]);
            } else {
                assert(pre.pending().remove(i)[k] == pre.pending()[k + 1]);
            }
        }
    }
}

proof fn lemma_all_skipped_send_nothing(ds: Seq<Dispatch>)
    requires
        forall|j: int| 0 <= j < ds.len() ==> (#[trigger] ds[j]) is Skipped,
    ensures
        sent_count(ds) == 0,
    decreases ds.len(),
{
    if ds.len() > 0 {
        assert forall|j: int| 0 <= j < ds.drop_last().len() implies (#[trigger] ds.drop_last()[j]) is Skipped by {
            assert(ds.drop_last()[j] == ds[j]);
        }
        lemma_all_skipped_send_nothing(ds.drop_last());
    }
}

/// Outcomes that are drops but for the last send at most one request.
proof fn lemma_sent_at_most_last(ds: Seq<Dispatch>)
    requires
        forall|j: int| 0 <= j < ds.len() - 1 ==> (#[trigger] ds[j]) is Skipped,
    ensures
        0 <= sent_count(ds) <= 1,
{
    if ds.len() > 0 {
        assert forall|j: int| 0 <= j < ds.drop_last().len() implies (#[trigger] ds.drop_last()[j]) is Skipped by {
            assert(ds.drop_last()[j] == ds[j]);
        }
        lemma_all_skipped_send_nothing(ds.drop_last());
    }
}

impl Scheduler {
    /// The outstanding requests.
    pub open spec fn pending(&self) -> Seq<PendingView> {
        self.open_requests@.map_values(|p: PendingRequest| p@)
    }

    /// The queued tickers in the order they will be dispatched.
    pub open spec fn queued(&self) -> Seq<(Seq<char>, Mode)> {
        self.full_ticker_queue@.map_values(|t: String| (t@, Mode::Full))
            + self.incremental_ticker_queue@.map_values(
            |e: (String, Option<i64>)| (e.0@, Mode::Incremental),
        )
    }

    /// At most `concurrency_limit + CONCURRENCY_BUFFER` requests are
    /// outstanding, with distinct ids no later than `req_id`, and no two for
    /// one ticker.
    pub open spec fn wf(&self) -> bool {
        &&& self.pending().len() <= self.concurrency_limit + CONCURRENCY_BUFFER
        &&& forall|i: int| 0 <= i < self.pending().len() ==> (#[trigger] self.pending()[i]).request_id <= self.req_id
        &&& forall|i: int, j: int|
            0 <= i < self.pending().len() && 0 <= j < self.pending().len() && i != j
                ==> (#[trigger] self.pending()[i]).request_id != (#[trigger] self.pending()[j]).request_id
                && self.pending()[i].ticker != self.pending()[j].ticker
    }

    /// No ticker can be dispatched while `cap` requests are outstanding, the
    /// ids are used up, or nothing is queued.
    pub open spec fn idle(&self, cap: int) -> bool {
        self.pending().len() >= cap || self.req_id == i32::MAX || self.queued().len() == 0
    }

    /// What happens to the ticker at the front of the queues with as-of time `as_of`.
    pub open spec fn plan(&self, as_of: i64) -> Plan {
        let front = self.queued()[0];
        if has_ticker(self.pending(), front.0) {
            Plan::Drop(Skip::InFlight)
        } else if self.full_ticker_queue@.len() > 0 {
            Plan::SendFull
        } else {
            match self.incremental_ticker_queue@[0].1 {
                None => Plan::Drop(Skip::NoHistory),
                Some(last) => match incremental_span_spec(as_of as int, last as int, self.force) {
                    None => Plan::Drop(Skip::UpToDate),
                    Some(d) => Plan::SendDays(d),
                },
            }
        }
    }

    /// Requests outstanding at most while a correction is dispatched:
    /// `concurrency_limit + CONCURRENCY_BUFFER`, as far as a `usize` reaches.
    pub open spec fn corrective_cap(&self) -> int {
        if self.concurrency_limit + CONCURRENCY_BUFFER <= usize::MAX {
            self.concurrency_limit + CONCURRENCY_BUFFER
        } else {
            usize::MAX as int
        }
    }

    /// The same limits and session facts.
    pub open spec fn same_settings(&self, other: &Scheduler) -> bool {
        &&& self.concurrency_limit == other.concurrency_limit
        &&& self.force == other.force
        &&& self.next_order_id == other.next_order_id
    }

    /// An empty scheduler that keeps at most `concurrency_limit` requests
    /// outstanding in normal operation.
    pub fn new(concurrency_limit: usize, force: bool) -> (r: Scheduler)
        ensures
            r.wf(),
            r.concurrency_limit == concurrency_limit,
            r.force == force,
            r.full_ticker_queue@.len() == 0,
            r.incremental_ticker_queue@.len() == 0,
            r.pending().len() == 0,
            r.req_id == 1,
            r.next_order_id == -1,
    {
        Scheduler {
            concurrency_limit,
            force,
            full_ticker_queue: VecDeque::new(),
            incremental_ticker_queue: VecDeque::new(),
            open_requests: Vec::new(),
            req_id: 1,
            next_order_id: -1,
        }
    }

    /// Queue a ticker for a full request.
    pub fn add_ticker_to_request_queue(&mut self, ticker: String)
        requires
            old(self).wf(),
        ensures
            final(self).wf(),
            final(self).same_settings(old(self)),
            final(self).full_ticker_queue@ == old(self).full_ticker_queue@.push(ticker),
            final(self).incremental_ticker_queue@ == old(self).incremental_ticker_queue@,
            final(self).open_requests@ == old(self).open_requests@,
            final(self).req_id == old(self).req_id,
    {
        self.full_ticker_queue.push_back(ticker);
    }

    /// Queue a ticker for an incremental request, with the UTC time of its
    /// last stored bar, if any.
    pub fn add_incremental_ticker(&mut self, ticker: String, last_cached: Option<i64>)
        requires
            old(self).wf(),
        ensures
            final(self).wf(),
            final(self).same_settings(old(self)),
            final(self).incremental_ticker_queue@ == old(self).incremental_ticker_queue@.push((ticker, last_cached)),
            final(self).full_ticker_queue@ == old(self).full_ticker_queue@,
            final(self).open_requests@ == old(self).open_requests@,
            final(self).req_id == old(self).req_id,
    {
        self.incremental_ticker_queue.push_back((ticker, last_cached));
    }

    /// Record the next order id that the session announced when it became ready.
    pub fn session_ready(&mut self, next_id: i32)
        requires
            old(self).wf(),
        ensures
            final(self).wf(),
            final(self).next_order_id == next_id,
            final(self).concurrency_limit == old(self).concurrency_limit,
            final(self).force == old(self).force,
            final(self).full_ticker_queue@ == old(self).full_ticker_queue@,
            final(self).incremental_ticker_queue@ == old(self).incremental_ticker_queue@,
            final(self).open_requests@ == old(self).open_requests@,
            final(self).req_id == old(self).req_id,
    {
        self.next_order_id = next_id;
    }

    /// Whether some outstanding request is for `ticker`.
    fn is_in_flight(&self, ticker: &String) -> (r: bool)
        ensures
            r == has_ticker(self.pending(), ticker@),
    {
        let mut i: usize = 0;
        while i < self.open_requests.len()
            invariant
                0 <= i <= self.open_requests@.len(),
                forall|j: int| 0 <= j < i ==> (#[trigger] self.pending()[j]).ticker != ticker@,
            decreases self.open_requests@.len() - i,
        {
            if self.open_requests[i].ticker == *ticker {
                assert(self.pending()[i as int].ticker == ticker@);
                return true;
            }
            assert(self.pending()[i as int] == self.open_requests@[i as int]@);
            i = i + 1;
        }
        false
    }

    /// Position of the outstanding request with `request_id`, if any.
    fn find_request(&self, request_id: i32) -> (r: Option<usize>)
        ensures
            r matches Some(i) ==> i < self.pending().len() && self.pending()[i as int].request_id == request_id,
            r is None ==> forall|i: int| 0 <= i < self.pending().len() ==> (#[trigger] self.pending()[i]).request_id != request_id,
    {
        let mut i: usize = 0;
        while i < self.open_requests.len()
            invariant
                0 <= i <= self.open_requests@.len(),
                forall|j: int| 0 <= j < i ==> (#[trigger] self.pending()[j]).request_id != request_id,
            decreases self.open_requests@.len() - i,
        {
            if self.open_requests[i].request_id == request_id {
                return Some(i);
            }
            i = i + 1;
        }
        None
    }

    /// Hand out the next request id and record the request as outstanding.
    fn register(&mut self, ticker: &String, mode: Mode) -> (id: i32)
        requires
            old(self).wf(),
            old(self).req_id < i32::MAX,
            old(self).pending().len() < old(self).concurrency_limit + CONCURRENCY_BUFFER,
            !has_ticker(old(self).pending(), ticker@),
        ensures
            final(self).wf(),
            final(self).same_settings(old(self)),
            id == old(self).req_id + 1,
            final(self).req_id == id,
            final(self).pending() == old(self).pending().push(
                PendingView { request_id: id, ticker: ticker@, mode, bars: Seq::empty() },
            ),
            final(self).full_ticker_queue@ == old(self).full_ticker_queue@,
            final(self).incremental_ticker_queue@ == old(self).incremental_ticker_queue@,
    {
        self.req_id = self.req_id + 1;
        let id = self.req_id;
        self.open_requests.push(PendingRequest { request_id: id, ticker: ticker.clone(), mode, bars: Vec::new() });
        let ghost v = PendingView { request_id: id, ticker: ticker@, mode, bars: Seq::empty() };
        assert(self.pending() =~= old(self).pending().push(v));
        id
    }

    /// Dispatch the ticker at the front of the queues, full ones first,
    /// unless `cap` requests are outstanding, ids are used up, or nothing is
    /// queued (then `None`, with nothing changed). The ticker leaves its queue
    /// and is either sent, as the next id with history up to `as_of`, or
    /// dropped for the reason `plan` gives.
    pub fn dispatch_step(&mut self, cap: usize, as_of: i64) -> (r: Option<Dispatch>)
        requires
            old(self).wf(),
            cap <= old(self).concurrency_limit + CONCURRENCY_BUFFER,
        ensures
            final(self).wf(),
            final(self).same_settings(old(self)),
            r is None <==> old(self).idle(cap as int),
            r is None ==> *final(self) == *old(self),
            r is Some ==> old(self).pending().len() < cap,
            r matches Some(d) ==> stepped(*old(self), *final(self), as_of, d),
    {
        if self.open_requests.len() >= cap || self.req_id == i32::MAX {
            return None;
        }
        let ghost q0 = self.queued();
        let ghost full0 = self.full_ticker_queue@;
        let ghost incr0 = self.incremental_ticker_queue@;
        if self.full_ticker_queue.len() > 0 {
            assert(q0[0] == (full0[0]@, Mode::Full));
            let ticker = match self.full_ticker_queue.pop_front() {
                Some(t) => t,
                None => { return None; },
            };
            proof {
                assert(self.queued() =~= q0.skip(1));
            }
            if self.is_in_flight(&ticker) {
                return Some(Dispatch::Skipped(ticker, Skip::InFlight));
            }
            let id = self.register(&ticker, Mode::Full);
            return Some(
                Dispatch::Sent(
                    Request {
                        request_id: id,
                        ticker,
                        mode: Mode::Full,
                        as_of,
                        span: Span::Years(FULL_HISTORY_YEARS),
                    },
                ),
            );
        }
        if self.incremental_ticker_queue.len() == 0 {
            assert(q0.len() == 0);
            return None;
        }
        assert(q0[0] == (incr0[0].0@, Mode::Incremental));
        let (ticker, last_cached) = match self.incremental_ticker_queue.pop_front() {
            Some(e) => e,
            None => { return None; },
        };
        proof {
            assert(self.queued() =~= q0.skip(1));
        }
        if self.is_in_flight(&ticker) {
            return Some(Dispatch::Skipped(ticker, Skip::InFlight));
        }
        let last = match last_cached {
            Some(t) => t,
            None => { return Some(Dispatch::Skipped(ticker, Skip::NoHistory)); },
        };
        let days = match incremental_span(as_of, last, self.force) {
            Some(d) => d,
            None => { return Some(Dispatch::Skipped(ticker, Skip::UpToDate)); },
        };
        let id = self.register(&ticker, Mode::Incremental);
        Some(
            Dispatch::Sent(
                Request { request_id: id, ticker, mode: Mode::Incremental, as_of, span: Span::Days(days) },
            ),
        )
    }

    /// Dispatch queued tickers one after another with at most `cap`
    /// outstanding; with `one` set, stop after the first request sent.
    /// The outcomes follow the queue order, and the tickers they are about
    /// leave the queues; outstanding requests are only added to.
    fn dispatch_run(&mut self, cap: usize, as_of: i64, one: bool) -> (r: Vec<Dispatch>)
        requires
            old(self).wf(),
            cap <= old(self).concurrency_limit + CONCURRENCY_BUFFER,
        ensures
            final(self).wf(),
            final(self).same_settings(old(self)),
            forall|k: int| old(self).pending().len() <= k < final(self).pending().len()
                ==> (#[trigger] final(self).pending()[k]).request_id > old(self).req_id,
            final(self).pending().len() <= old(self).pending().len() || final(self).pending().len() <= cap,
            exists|trace: Seq<Scheduler>| #[trigger] traced(trace, *old(self), *final(self), as_of, r@),
            r@.len() <= old(self).queued().len(),
            final(self).queued() == old(self).queued().skip(r@.len() as int),
            forall|j: int| 0 <= j < r@.len() ==> (#[trigger] r@[j]).ticker()@ == old(self).queued()[j].0,
            final(self).pending().len() == old(self).pending().len() + sent_count(r@),
            final(self).pending().subrange(0, old(self).pending().len() as int) == old(self).pending(),
            forall|j: int| 0 <= j < r@.len() ==> (#[trigger] r@[j] matches Dispatch::Sent(q)
                ==> old(self).req_id < q.request_id <= final(self).req_id && q.as_of == as_of),
            !one ==> final(self).idle(cap as int),
            one ==> forall|j: int| 0 <= j < r@.len() - 1 ==> (#[trigger] r@[j]) is Skipped,
            one ==> final(self).idle(cap as int) || (r@.len() > 0 && r@.last() is Sent),
    {
        let ghost s0 = *self;
        let ghost mut trace: Seq<Scheduler> = seq![*self];
        let mut out: Vec<Dispatch> = Vec::new();
        loop
            invariant_except_break
                one ==> forall|j: int| 0 <= j < out@.len() ==> (#[trigger] out@[j]) is Skipped,
            invariant
                self.wf(),
                self.same_settings(&s0),
                s0.wf(),
                cap <= s0.concurrency_limit + CONCURRENCY_BUFFER,
                out@.len() <= s0.queued().len(),
                self.queued() == s0.queued().skip(out@.len() as int),
                forall|j: int| 0 <= j < out@.len() ==> (#[trigger] out@[j]).ticker()@ == s0.queued()[j].0,
                s0.pending().len() <= self.pending().len(),
                self.pending().len() == s0.pending().len() + sent_count(out@),
                self.pending().subrange(0, s0.pending().len() as int) == s0.pending(),
                s0.req_id <= self.req_id,
                traced(trace, s0, *self, as_of, out@),
                self.pending().len() <= s0.pending().len() || self.pending().len() <= cap,
                forall|k: int| s0.pending().len() <= k < self.pending().len()
                    ==> (#[trigger] self.pending()[k]).request_id > s0.req_id,
                forall|j: int| 0 <= j < out@.len() ==> (#[trigger] out@[j] matches Dispatch::Sent(q)
                    ==> s0.req_id < q.request_id <= self.req_id && q.as_of == as_of),
            ensures
                self.wf(),
                self.same_settings(&s0),
                traced(trace, s0, *self, as_of, out@),
                self.pending().len() <= s0.pending().len() || self.pending().len() <= cap,
                forall|k: int| s0.pending().len() <= k < self.pending().len()
                    ==> (#[trigger] self.pending()[k]).request_id > s0.req_id,
                out@.len() <= s0.queued().len(),
                self.queued() == s0.queued().skip(out@.len() as int),
                forall|j: int| 0 <= j < out@.len() ==> (#[trigger] out@[j]).ticker()@ == s0.queued()[j].0,
                self.pending().len() == s0.pending().len() + sent_count(out@),
                self.pending().subrange(0, s0.pending().len() as int) == s0.pending(),
                forall|j: int| 0 <= j < out@.len() ==> (#[trigger] out@[j] matches Dispatch::Sent(q)
                    ==> s0.req_id < q.request_id <= self.req_id && q.as_of == as_of),
                !one ==> self.idle(cap as int),
                one ==> forall|j: int| 0 <= j < out@.len() - 1 ==> (#[trigger] out@[j]) is Skipped,
                one ==> self.idle(cap as int) || (out@.len() > 0 && out@.last() is Sent),
            decreases self.queued().len(),
        {
            let ghost before = *self;
            let ghost k: int = out@.len() as int;
            match self.dispatch_step(cap, as_of) {
                None => {
                    break;
                },
                Some(d) => {
                    let sent = matches!(d, Dispatch::Sent(_));
                    proof {
                        assert(s0.queued().skip(k).skip(1) =~= s0.queued().skip(k + 1));
                        assert(before.queued()[0] == s0.queued()[k]);
                        assert(self.pending().subrange(0, s0.pending().len() as int) =~= s0.pending());
                    }
                    let ghost out0 = out@;
                    let ghost trace0 = trace;
                    out.push(d);
                    proof {
                        assert(out@.drop_last() =~= out0);
                        trace = trace0.push(*self);
                        assert forall|j: int| 0 <= j < out@.len() implies stepped(trace[j], trace[j + 1], as_of, #[trigger] out@[j]) by {
                            if j < out0.len() {
                                assert(out@[j] == out0[j]);
                                assert(trace[j] == trace0[j] && trace[j + 1] == trace0[j + 1]);
                            } else {
                                assert(trace[j] == before);
                            }
                        }
                    }
                    if one && sent {
                        break;
                    }
                },
            }
        }
        out
    }

    /// Dispatch queued tickers, full ones first, until `concurrency_limit`
    /// requests are outstanding or nothing is left to dispatch. Each ticker
    /// taken from the queues gives one outcome, in queue order.
    pub fn fill(&mut self, as_of: i64) -> (r: Vec<Dispatch>)
        requires
            old(self).wf(),
        ensures
            final(self).wf(),
            final(self).same_settings(old(self)),
            forall|k: int| old(self).pending().len() <= k < final(self).pending().len()
                ==> (#[trigger] final(self).pending()[k]).request_id > old(self).req_id,
            final(self).pending().len() <= old(self).pending().len() || final(self).pending().len() <= old(self).concurrency_limit,
            exists|trace: Seq<Scheduler>| #[trigger] traced(trace, *old(self), *final(self), as_of, r@),
            final(self).idle(old(self).concurrency_limit as int),
            r@.len() <= old(self).queued().len(),
            final(self).queued() == old(self).queued().skip(r@.len() as int),
            forall|j: int| 0 <= j < r@.len() ==> (#[trigger] r@[j]).ticker()@ == old(self).queued()[j].0,
            final(self).pending().subrange(0, old(self).pending().len() as int) == old(self).pending(),
            final(self).pending().len() == old(self).pending().len() + sent_count(r@),
            forall|j: int| 0 <= j < r@.len() ==> (#[trigger] r@[j] matches Dispatch::Sent(q)
                ==> old(self).req_id < q.request_id <= final(self).req_id && q.as_of == as_of),
    {
        let cap = self.concurrency_limit;
        self.dispatch_run(cap, as_of, false)
    }

    /// Dispatch tickers until one request is sent, while fewer than `cap`
    /// requests are outstanding; the outcomes before it are drops.
    fn dispatch_one(&mut self, cap: usize, as_of: i64) -> (r: Vec<Dispatch>)
        requires
            old(self).wf(),
            cap <= old(self).concurrency_limit + CONCURRENCY_BUFFER,
        ensures
            final(self).wf(),
            final(self).same_settings(old(self)),
            forall|k: int| old(self).pending().len() <= k < final(self).pending().len()
                ==> (#[trigger] final(self).pending()[k]).request_id > old(self).req_id,
            final(self).pending().len() <= old(self).pending().len() || final(self).pending().len() <= cap,
            exists|trace: Seq<Scheduler>| #[trigger] traced(trace, *old(self), *final(self), as_of, r@),
            r@.len() <= old(self).queued().len(),
            final(self).queued() == old(self).queued().skip(r@.len() as int),
            forall|j: int| 0 <= j < r@.len() ==> (#[trigger] r@[j]).ticker()@ == old(self).queued()[j].0,
            final(self).pending().subrange(0, old(self).pending().len() as int) == old(self).pending(),
            final(self).pending().len() == old(self).pending().len() + sent_count(r@),
            forall|j: int| 0 <= j < r@.len() ==> (#[trigger] r@[j] matches Dispatch::Sent(q)
                ==> old(self).req_id < q.request_id <= final(self).req_id && q.as_of == as_of),
            forall|j: int| 0 <= j < r@.len() - 1 ==> (#[trigger] r@[j]) is Skipped,
            final(self).idle(cap as int) || (r@.len() > 0 && r@.last() is Sent),
    {
        self.dispatch_run(cap, as_of, true)
    }

    /// After a full re-fetch was queued: dispatch until one request is sent,
    /// using the buffer kept for corrections, so at most
    /// `concurrency_limit + CONCURRENCY_BUFFER` requests are outstanding.
    pub fn dispatch_corrective(&mut self, as_of: i64) -> (r: Vec<Dispatch>)
        requires
            old(self).wf(),
        ensures
            final(self).wf(),
            final(self).same_settings(old(self)),
            forall|k: int| old(self).pending().len() <= k < final(self).pending().len()
                ==> (#[trigger] final(self).pending()[k]).request_id > old(self).req_id,
            final(self).pending().len() <= old(self).pending().len() || final(self).pending().len() <= old(self).corrective_cap(),
            exists|trace: Seq<Scheduler>| #[trigger] traced(trace, *old(self), *final(self), as_of, r@),
            r@.len() <= old(self).queued().len(),
            final(self).queued() == old(self).queued().skip(r@.len() as int),
            forall|j: int| 0 <= j < r@.len() ==> (#[trigger] r@[j]).ticker()@ == old(self).queued()[j].0,
            final(self).pending().subrange(0, old(self).pending().len() as int) == old(self).pending(),
            final(self).pending().len() == old(self).pending().len() + sent_count(r@),
            forall|j: int| 0 <= j < r@.len() ==> (#[trigger] r@[j] matches Dispatch::Sent(q)
                ==> old(self).req_id < q.request_id <= final(self).req_id && q.as_of == as_of),
            forall|j: int| 0 <= j < r@.len() - 1 ==> (#[trigger] r@[j]) is Skipped,
            final(self).idle(old(self).corrective_cap()) || (r@.len() > 0 && r@.last() is Sent),
    {
        let cap = self.concurrency_limit.saturating_add(CONCURRENCY_BUFFER);
        self.dispatch_one(cap, as_of)
    }

    /// Buffer a bar received for the outstanding request `request_id`; an
    /// unknown id is an error and changes nothing.
    pub fn on_bar(&mut self, request_id: i32, bar: Quote) -> (r: Result<(), SyncError>)
        requires
            old(self).wf(),
        ensures
            final(self).wf(),
            final(self).same_settings(old(self)),
            final(self).full_ticker_queue@ == old(self).full_ticker_queue@,
            final(self).incremental_ticker_queue@ == old(self).incremental_ticker_queue@,
            final(self).req_id == old(self).req_id,
            r is Err <==> forall|i: int| 0 <= i < old(self).pending().len()
                ==> (#[trigger] old(self).pending()[i]).request_id != request_id,
            r == Err::<(), SyncError>(SyncError::UnknownRequest(request_id)) || r is Ok,
            r is Err ==> *final(self) == *old(self),
            r is Ok ==> exists|i: int| 0 <= i < old(self).pending().len()
                && (#[trigger] old(self).pending()[i]).request_id == request_id
                && final(self).pending() == old(self).pending().update(i, PendingView {
                    bars: old(self).pending()[i].bars.push(bar),
                    ..old(self).pending()[i]
                }),
    {
        let i = match self.find_request(request_id) {
            Some(i) => i,
            None => { return Err(SyncError::UnknownRequest(request_id)); },
        };
        let ghost p0 = self.pending();
        let mut p = self.open_requests.remove(i);
        p.bars.push(bar);
        self.open_requests.insert(i, p);
        proof {
            let v = PendingView { bars: p0[i as int].bars.push(bar), ..p0[i as int] };
            assert(self.pending() =~= p0.update(i as int, v));
            assert forall|a: int| 0 <= a < self.pending().len() implies (#[trigger] self.pending()[a]).request_id <= self.req_id by {
                assert(self.pending()[a].request_id == p0[a].request_id);
            }
            assert forall|a: int, b: int|
                0 <= a < self.pending().len() && 0 <= b < self.pending().len() && a != b
                implies (#[trigger] self.pending()[a]).request_id != (#[trigger] self.pending()[b]).request_id
                && self.pending()[a].ticker != self.pending()[b].ticker by {
                assert(self.pending()[a].request_id == p0[a].request_id && self.pending()[a].ticker == p0[a].ticker);
                assert(self.pending()[b].request_id == p0[b].request_id && self.pending()[b].ticker == p0[b].ticker);
            }
        }
        Ok(())
    }

    /// Remove the outstanding request `request_id` and hand back its ticker,
    /// mode and buffered bars; an unknown id is an error and changes nothing.
    pub fn complete_request(&mut self, request_id: i32) -> (r: Result<Completed, SyncError>)
        requires
            old(self).wf(),
        ensures
            final(self).wf(),
            final(self).same_settings(old(self)),
            final(self).full_ticker_queue@ == old(self).full_ticker_queue@,
            final(self).incremental_ticker_queue@ == old(self).incremental_ticker_queue@,
            final(self).req_id == old(self).req_id,
            r is Err <==> forall|i: int| 0 <= i < old(self).pending().len()
                ==> (#[trigger] old(self).pending()[i]).request_id != request_id,
            r == Err::<Completed, SyncError>(SyncError::UnknownRequest(request_id)) || r is Ok,
            r is Err ==> *final(self) == *old(self),
            r matches Ok(c) ==> exists|i: int| 0 <= i < old(self).pending().len()
                && (#[trigger] old(self).pending()[i]).request_id == request_id
                && c.ticker@ == old(self).pending()[i].ticker
                && c.mode == old(self).pending()[i].mode
                && c.bars@ == old(self).pending()[i].bars
                && final(self).pending() == old(self).pending().remove(i),
    {
        let i = match self.find_request(request_id) {
            Some(i) => i,
            None => { return Err(SyncError::UnknownRequest(request_id)); },
        };
        let ghost p0 = self.pending();
        let p = self.open_requests.remove(i);
        proof {
            assert(self.pending() =~= p0.remove(i as int));
            assert forall|a: int| 0 <= a < self.pending().len() implies (#[trigger] self.pending()[a]).request_id <= self.req_id by {
                if a < i { assert(self.pending()[a] == p0[a]); } else { assert(self.pending()[a] == p0[a + 1]); }
            }
            assert forall|a: int, b: int|
                0 <= a < self.pending().len() && 0 <= b < self.pending().len() && a != b
                implies (#[trigger] self.pending()[a]).request_id != (#[trigger] self.pending()[b]).request_id
                && self.pending()[a].ticker != self.pending()[b].ticker by {
                let a0 = if a < i { a } else { a + 1 };
                let b0 = if b < i { b } else { b + 1 };
                assert(self.pending()[a] == p0[a0]);
                assert(self.pending()[b] == p0[b0]);
            }
        }
        Ok(Completed { ticker: p.ticker, mode: p.mode, bars: p.bars })
    }

    /// The end of history for `request_id`: the request completes, and one
    /// more queued ticker is dispatched, so that `concurrency_limit`
    /// requests stay outstanding while tickers are queued.
    pub fn on_complete(&mut self, request_id: i32, as_of: i64) -> (r: Result<(Completed, Vec<Dispatch>), SyncError>)
        requires
            old(self).wf(),
        ensures
            final(self).wf(),
            final(self).same_settings(old(self)),
            r is Err <==> forall|i: int| 0 <= i < old(self).pending().len()
                ==> (#[trigger] old(self).pending()[i]).request_id != request_id,
            r is Err ==> *final(self) == *old(self)
                && r == Err::<(Completed, Vec<Dispatch>), SyncError>(SyncError::UnknownRequest(request_id)),
            r matches Ok((c, ds)) ==> completion(*old(self), *final(self), request_id, as_of, c, ds@),
    {
        let ghost pre = *self;
        let c = match self.complete_request(request_id) {
            Ok(c) => c,
            Err(e) => { return Err(e); },
        };
        let ghost i = choose|i: int|
            0 <= i < pre.pending().len() && (#[trigger] pre.pending()[i]).request_id == request_id && c.ticker@
                == pre.pending()[i].ticker && c.mode == pre.pending()[i].mode && c.bars@ == pre.pending()[i].bars
                && self.pending() == pre.pending().remove(i);
        let cap = self.concurrency_limit;
        let ds = self.dispatch_one(cap, as_of);
        proof {
            lemma_sent_at_most_last(ds@);
            lemma_removed_id_gone(pre, *self, i);
            assert(refilled(pre, *self, i, as_of, ds@));
        }
        Ok((c, ds))
    }

    /// A per-request error from the session: a known request is dropped, its
    /// ticker is not retried, and one more queued ticker is dispatched. An
    /// unknown id changes nothing. Gives the dropped ticker, if any.
    pub fn on_error(&mut self, request_id: i32, as_of: i64) -> (r: (Option<String>, Vec<Dispatch>))
        requires
            old(self).wf(),
        ensures
            final(self).wf(),
            final(self).same_settings(old(self)),
            r.0 is None <==> forall|i: int| 0 <= i < old(self).pending().len()
                ==> (#[trigger] old(self).pending()[i]).request_id != request_id,
            r.0 is None ==> *final(self) == *old(self) && r.1@.len() == 0,
            r.0 matches Some(t) ==> dropped(*old(self), *final(self), request_id, as_of, t, r.1@),
    {
        let ghost pre = *self;
        match self.complete_request(request_id) {
            Ok(c) => {
                let ghost i = choose|i: int|
                    0 <= i < pre.pending().len() && (#[trigger] pre.pending()[i]).request_id == request_id
                        && c.ticker@ == pre.pending()[i].ticker && self.pending() == pre.pending().remove(i);
                let cap = self.concurrency_limit;
                let ds = self.dispatch_one(cap, as_of);
                proof {
                    lemma_sent_at_most_last(ds@);
                    lemma_removed_id_gone(pre, *self, i);
                    assert(refilled(pre, *self, i, as_of, ds@));
                }
                (Some(c.ticker), ds)
            },
            Err(_) => (None, Vec::new()),
        }
    }

    /// Decide what becomes of a completed batch (see `decision_spec`), where
    /// `stored_close` is the stored close at the time of the batch's first
    /// bar. On a revision the ticker is queued for a full re-fetch, and
    /// nothing else changes.
    pub fn settle(&mut self, completed: &Completed, stored_close: Option<u64>) -> (r: Decision)
        requires
            old(self).wf(),
        ensures
            final(self).wf(),
            r == decision_spec(completed.mode, completed.bars@, stored_close),
            r == Decision::Resync ==> final(self).full_ticker_queue@ == old(self).full_ticker_queue@.push(
                completed.ticker,
            ) && final(self).same_settings(old(self)) && final(self).open_requests@ == old(self).open_requests@
                && final(self).incremental_ticker_queue@ == old(self).incremental_ticker_queue@
                && final(self).req_id == old(self).req_id,
            r != Decision::Resync ==> *final(self) == *old(self),
            (completed.mode == Mode::Incremental && completed.bars@.len() > 0 && (stored_close matches Some(c)
                && c != completed.bars@[0].close)) ==> r == Decision::Resync
                && final(self).full_ticker_queue@.last() == completed.ticker
                && final(self).full_ticker_queue@.drop_last() == old(self).full_ticker_queue@,
    {
        let d = reconcile(completed.mode, &completed.bars, stored_close);
        if d == Decision::Resync {
            self.add_ticker_to_request_queue(completed.ticker.clone());
            assert(self.full_ticker_queue@.drop_last() =~= old(self).full_ticker_queue@);
        }
        d
    }

    /// Handle one session event. A ready session records its order id; a
    /// bar is buffered for its request; the end of history completes the
    /// request and dispatches one more ticker; a request error drops the
    /// request and dispatches one more ticker; a notice changes nothing; any
    /// other kind is an error and changes nothing.
    pub fn process_event(&mut self, event: Event, as_of: i64) -> (r: Result<Handled, SyncError>)
        requires
            old(self).wf(),
        ensures
            final(self).wf(),
            final(self).concurrency_limit == old(self).concurrency_limit,
            final(self).force == old(self).force,
            match event {
                Event::SessionReady(id) => {
                    &&& r == Ok::<Handled, SyncError>(Handled::Nothing)
                    &&& final(self).next_order_id == id
                    &&& final(self).queued() == old(self).queued()
                    &&& final(self).pending() == old(self).pending()
                    &&& final(self).req_id == old(self).req_id
                },
                Event::Bar(id, bar) => {
                    &&& (r is Err <==> forall|i: int| 0 <= i < old(self).pending().len()
                        ==> (#[trigger] old(self).pending()[i]).request_id != id)
                    &&& (r is Err ==> r == Err::<Handled, SyncError>(SyncError::UnknownRequest(id)) && *final(self) == *old(self))
                    &&& (r is Ok ==> final(self).full_ticker_queue@ == old(self).full_ticker_queue@
                        && final(self).incremental_ticker_queue@ == old(self).incremental_ticker_queue@
                        && final(self).req_id == old(self).req_id
                        && final(self).next_order_id == old(self).next_order_id)
                    &&& (r is Ok ==> r == Ok::<Handled, SyncError>(Handled::Nothing) && exists|i: int|
                        0 <= i < old(self).pending().len() && (#[trigger] old(self).pending()[i]).request_id == id
                            && final(self).pending() == old(self).pending().update(i, PendingView {
                                bars: old(self).pending()[i].bars.push(bar),
                                ..old(self).pending()[i]
                            }))
                },
                Event::EndOfHistory(id) => {
                    &&& (r is Err <==> forall|i: int| 0 <= i < old(self).pending().len()
                        ==> (#[trigger] old(self).pending()[i]).request_id != id)
                    &&& (r is Err ==> r == Err::<Handled, SyncError>(SyncError::UnknownRequest(id)) && *final(self) == *old(self))
                    &&& (r is Ok ==> r->Ok_0 is Completed)
                    &&& (r matches Ok(Handled::Completed(c, ds)) ==> completion(*old(self), *final(self), id, as_of, c, ds@))
                },
                Event::RequestError(id) => {
                    &&& r is Ok
                    &&& r->Ok_0 is Dropped
                    &&& (r matches Ok(Handled::Dropped(t, ds)) ==> {
                        &&& (t is None <==> forall|i: int| 0 <= i < old(self).pending().len()
                            ==> (#[trigger] old(self).pending()[i]).request_id != id)
                        &&& (t is None ==> *final(self) == *old(self) && ds@.len() == 0)
                        &&& (t matches Some(tt) ==> dropped(*old(self), *final(self), id, as_of, tt, ds@))
                    })
                },
                Event::Informational => r == Ok::<Handled, SyncError>(Handled::Nothing) && *final(self) == *old(self),
                Event::Unsupported => r == Err::<Handled, SyncError>(SyncError::Unsupported) && *final(self) == *old(self),
            },
    {
        match event {
            Event::SessionReady(id) => {
                self.session_ready(id);
                assert(self.queued() == old(self).queued());
                assert(self.pending() == old(self).pending());
                assert(self.req_id == old(self).req_id);
                assert(self.next_order_id == id);
                Ok(Handled::Nothing)
            },
            Event::Bar(id, bar) => {
                match self.on_bar(id, bar) {
                    Ok(()) => Ok(Handled::Nothing),
                    Err(e) => Err(e),
                }
            },
            Event::EndOfHistory(id) => match self.on_complete(id, as_of) {
                Ok((c, ds)) => Ok(Handled::Completed(c, ds)),
                Err(e) => Err(e),
            },
            Event::RequestError(id) => {
                let (t, ds) = self.on_error(id, as_of);
                Ok(Handled::Dropped(t, ds))
            },
            Event::Informational => Ok(Handled::Nothing),
            Event::Unsupported => Err(SyncError::Unsupported),
        }
    }
}

/// Decision for a completed batch, given the stored close at the time of its
/// first bar (see `decision_spec`).
pub fn reconcile(mode: Mode, bars: &Vec<Quote>, stored_close: Option<u64>) -> (r: Decision)
    ensures
        r == decision_spec(mode, bars@, stored_close),
{
    match mode {
        Mode::Full => Decision::Commit,
        Mode::Incremental => {
            if bars.len() == 0 {
                return Decision::Discard;
            }
            match stored_close {
                None => Decision::Discard,
                Some(c) => if c != bars[0].close {
                    Decision::Resync
                } else {
                    Decision::Commit
                },
            }
        },
    }
}

/// Whatever events arrive, no more than `concurrency_limit + CONCURRENCY_BUFFER`
/// requests are outstanding: every operation keeps `wf`, which bounds them.
pub proof fn lemma_outstanding_bounded(s: Scheduler)
    requires
        s.wf(),
    ensures
        s.open_requests@.len() <= s.concurrency_limit + CONCURRENCY_BUFFER,
{
}
} // verus!
