use slurp::clock::{days_between, incremental_span, reference_time, reference_time_at};
use slurp::quote::{bar_timestamp, session_close_timestamp, Quote};
use slurp::schedule::{
    reconcile, Completed, Decision, Dispatch, Event, Handled, Mode, Scheduler, Skip, Span, SyncError,
    CONCURRENCY_BUFFER, FULL_HISTORY_YEARS,
};

const JUNE_22_CLOSE: i64 = 1_655_928_000;
const JUNE_23_CLOSE: i64 = 1_656_014_400;

fn quote(timestamp: i64, close: u64) -> Quote {
    Quote { timestamp, open: close, close, high: close, low: close, avg: -1, volume: 10, count: 1 }
}

fn sent(d: &Dispatch) -> (i32, String, Mode, Span) {
    match d {
        Dispatch::Sent(r) => (r.request_id, r.ticker.clone(), r.mode, r.span),
        Dispatch::Skipped(t, k) => panic!("{} skipped: {:?}", t, k),
    }
}

#[test]
fn bar_date_is_read_as_session_close() {
    assert_eq!(bar_timestamp("20220623"), Some(JUNE_23_CLOSE));
    assert_eq!(bar_timestamp("19700101"), Some(72_000));
    assert_eq!(bar_timestamp("20220231"), None);
    assert_eq!(bar_timestamp("June 23"), None);
    assert_eq!(session_close_timestamp(719_163), 72_000);
}

#[test]
fn reference_time_during_session_is_previous_close() {
    // 10:00 at UTC-4 on 2022-06-23
    assert_eq!(reference_time(1_655_992_800), JUNE_22_CLOSE);
    // 09:30 opens the session
    assert_eq!(reference_time(1_655_991_000), JUNE_22_CLOSE);
    // 09:29 is before it
    assert_eq!(reference_time(1_655_990_940), 1_655_990_940);
    // 15:59 is inside it
    assert_eq!(reference_time(1_656_014_340), JUNE_22_CLOSE);
    // 16:00 closes it
    assert_eq!(reference_time(1_656_014_400), 1_656_014_400);
    // 16:30
    assert_eq!(reference_time(1_656_016_200), 1_656_016_200);
    // 17:00
    assert_eq!(reference_time(1_656_018_000), 1_656_018_000);
}

#[test]
fn reference_time_follows_winter_time() {
    // 10:00 at UTC-5 on 2023-01-10 gives 16:00 at UTC-5 on 2023-01-09
    assert_eq!(reference_time(1_673_362_800), 1_673_298_000);
    // 09:29 and 09:30 at UTC-5
    assert_eq!(reference_time(1_673_360_940), 1_673_360_940);
    assert_eq!(reference_time(1_673_361_000), 1_673_298_000);
    // 16:00 at UTC-5
    assert_eq!(reference_time(1_673_384_400), 1_673_384_400);
}

#[test]
fn reference_time_at_a_fixed_offset() {
    assert_eq!(reference_time_at(1_655_992_800, -14_400), JUNE_22_CLOSE);
    // 14:00 at UTC itself is inside the session too: 16:00 UTC the day before
    assert_eq!(reference_time_at(1_655_992_800, 0), 1_655_913_600);
    assert_eq!(reference_time_at(1_656_018_000, 0), 1_656_018_000);
    assert_eq!(reference_time_at(1_673_362_800, -18_000), 1_673_298_000);
}

#[test]
fn incremental_span_counts_whole_days() {
    assert_eq!(days_between(JUNE_22_CLOSE, JUNE_23_CLOSE), 1);
    assert_eq!(days_between(JUNE_23_CLOSE, JUNE_22_CLOSE), -1);
    assert_eq!(days_between(JUNE_22_CLOSE, JUNE_23_CLOSE - 1), 0);
    assert_eq!(incremental_span(JUNE_23_CLOSE, JUNE_22_CLOSE, false), Some(3));
    assert_eq!(incremental_span(JUNE_23_CLOSE, JUNE_23_CLOSE, false), None);
    assert_eq!(incremental_span(JUNE_23_CLOSE, JUNE_23_CLOSE, true), Some(2));
    assert_eq!(incremental_span(JUNE_23_CLOSE + 10 * 86_400, JUNE_23_CLOSE, false), Some(12));
}

#[test]
fn three_tickers_with_limit_two_dispatch_two_then_one() {
    let mut s = Scheduler::new(2, false);
    for t in ["AAA", "BBB", "CCC"] {
        s.add_ticker_to_request_queue(t.to_string());
    }
    let first = s.fill(JUNE_23_CLOSE);
    assert_eq!(first.len(), 2);
    assert_eq!(sent(&first[0]), (2, "AAA".to_string(), Mode::Full, Span::Years(FULL_HISTORY_YEARS)));
    assert_eq!(sent(&first[1]), (3, "BBB".to_string(), Mode::Full, Span::Years(FULL_HISTORY_YEARS)));
    assert_eq!(s.open_requests.len(), 2);
    assert_eq!(s.full_ticker_queue.len(), 1);
    assert!(s.fill(JUNE_23_CLOSE).is_empty());

    let (done, next) = s.on_complete(3, JUNE_23_CLOSE).unwrap();
    assert_eq!(done.ticker, "BBB");
    assert_eq!(next.len(), 1);
    assert_eq!(sent(&next[0]), (4, "CCC".to_string(), Mode::Full, Span::Years(FULL_HISTORY_YEARS)));
    let outstanding: Vec<(i32, String)> =
        s.open_requests.iter().map(|p| (p.request_id, p.ticker.clone())).collect();
    assert_eq!(outstanding, vec![(2, "AAA".to_string()), (4, "CCC".to_string())]);
    assert!(s.full_ticker_queue.is_empty());
}

#[test]
fn third_ticker_dispatches_after_an_error() {
    let mut s = Scheduler::new(2, false);
    for t in ["AAA", "BBB", "CCC"] {
        s.add_ticker_to_request_queue(t.to_string());
    }
    assert_eq!(s.fill(JUNE_23_CLOSE).len(), 2);
    let (dropped, next) = s.on_error(2, JUNE_23_CLOSE);
    assert_eq!(dropped, Some("AAA".to_string()));
    assert_eq!(sent(&next[0]), (4, "CCC".to_string(), Mode::Full, Span::Years(FULL_HISTORY_YEARS)));
    let outstanding: Vec<(i32, String)> =
        s.open_requests.iter().map(|p| (p.request_id, p.ticker.clone())).collect();
    assert_eq!(outstanding, vec![(3, "BBB".to_string()), (4, "CCC".to_string())]);
    assert!(s.full_ticker_queue.is_empty());
    assert!(s.incremental_ticker_queue.is_empty());
    let (unknown, none) = s.on_error(99, JUNE_23_CLOSE);
    assert_eq!(unknown, None);
    assert!(none.is_empty());
}

#[test]
fn full_queue_goes_before_incremental() {
    let mut s = Scheduler::new(5, false);
    s.add_incremental_ticker("INC".to_string(), Some(JUNE_22_CLOSE));
    s.add_ticker_to_request_queue("FUL".to_string());
    let out = s.fill(JUNE_23_CLOSE);
    assert_eq!(sent(&out[0]), (2, "FUL".to_string(), Mode::Full, Span::Years(2)));
    assert_eq!(sent(&out[1]), (3, "INC".to_string(), Mode::Incremental, Span::Days(3)));
}

#[test]
fn up_to_date_and_unknown_tickers_are_skipped() {
    let mut s = Scheduler::new(1, false);
    s.add_incremental_ticker("NEW".to_string(), None);
    s.add_incremental_ticker("CUR".to_string(), Some(JUNE_23_CLOSE));
    s.add_incremental_ticker("OLD".to_string(), Some(JUNE_22_CLOSE));
    s.add_incremental_ticker("LAST".to_string(), Some(JUNE_22_CLOSE));
    let out = s.fill(JUNE_23_CLOSE);
    assert_eq!(out.len(), 3);
    assert!(matches!(&out[0], Dispatch::Skipped(t, Skip::NoHistory) if t == "NEW"));
    assert!(matches!(&out[1], Dispatch::Skipped(t, Skip::UpToDate) if t == "CUR"));
    assert_eq!(sent(&out[2]), (2, "OLD".to_string(), Mode::Incremental, Span::Days(3)));
    assert_eq!(s.incremental_ticker_queue.len(), 1);
}

#[test]
fn forced_refresh_asks_even_when_up_to_date() {
    let mut s = Scheduler::new(1, true);
    s.add_incremental_ticker("CUR".to_string(), Some(JUNE_23_CLOSE));
    let out = s.fill(JUNE_23_CLOSE);
    assert_eq!(sent(&out[0]), (2, "CUR".to_string(), Mode::Incremental, Span::Days(2)));
}

#[test]
fn ticker_already_in_flight_is_not_sent_twice() {
    let mut s = Scheduler::new(3, false);
    s.add_ticker_to_request_queue("DUP".to_string());
    s.add_ticker_to_request_queue("DUP".to_string());
    let out = s.fill(JUNE_23_CLOSE);
    assert_eq!(out.len(), 2);
    assert!(matches!(&out[1], Dispatch::Skipped(t, Skip::InFlight) if t == "DUP"));
    assert_eq!(s.open_requests.len(), 1);
}

#[test]
fn bars_are_buffered_per_request() {
    let mut s = Scheduler::new(2, false);
    s.add_ticker_to_request_queue("AAA".to_string());
    s.add_ticker_to_request_queue("BBB".to_string());
    s.fill(JUNE_23_CLOSE);
    s.on_bar(2, quote(JUNE_22_CLOSE, 100)).unwrap();
    s.on_bar(3, quote(JUNE_22_CLOSE, 200)).unwrap();
    s.on_bar(2, quote(JUNE_23_CLOSE, 110)).unwrap();
    assert_eq!(s.on_bar(7, quote(JUNE_23_CLOSE, 1)), Err(SyncError::UnknownRequest(7)));
    let (done, _) = s.on_complete(2, JUNE_23_CLOSE).unwrap();
    assert_eq!(done.ticker, "AAA");
    assert_eq!(done.mode, Mode::Full);
    assert_eq!(done.bars, vec![quote(JUNE_22_CLOSE, 100), quote(JUNE_23_CLOSE, 110)]);
    assert!(matches!(s.on_complete(2, JUNE_23_CLOSE), Err(SyncError::UnknownRequest(2))));
    let (other, _) = s.on_complete(3, JUNE_23_CLOSE).unwrap();
    assert_eq!(other.bars, vec![quote(JUNE_22_CLOSE, 200)]);
}

#[test]
fn session_ready_records_order_id() {
    let mut s = Scheduler::new(1, false);
    assert_eq!(s.next_order_id, -1);
    s.session_ready(42);
    assert_eq!(s.next_order_id, 42);
}

#[test]
fn revised_history_is_not_committed_and_resyncs() {
    let mut s = Scheduler::new(1, false);
    let done = Completed {
        ticker: "REV".to_string(),
        mode: Mode::Incremental,
        bars: vec![quote(JUNE_22_CLOSE, 100), quote(JUNE_23_CLOSE, 120)],
    };
    assert_eq!(s.settle(&done, Some(95)), Decision::Resync);
    assert_eq!(s.full_ticker_queue.iter().cloned().collect::<Vec<_>>(), vec!["REV".to_string()]);
    let out = s.dispatch_corrective(JUNE_23_CLOSE);
    assert_eq!(sent(&out[0]), (2, "REV".to_string(), Mode::Full, Span::Years(2)));
}

#[test]
fn matching_history_is_committed() {
    let mut s = Scheduler::new(1, false);
    let done = Completed {
        ticker: "OK".to_string(),
        mode: Mode::Incremental,
        bars: vec![quote(JUNE_22_CLOSE, 100), quote(JUNE_23_CLOSE, 120)],
    };
    assert_eq!(s.settle(&done, Some(100)), Decision::Commit);
    assert_eq!(s.settle(&done, None), Decision::Discard);
    assert!(s.full_ticker_queue.is_empty());
    let empty = Completed { ticker: "E".to_string(), mode: Mode::Incremental, bars: vec![] };
    assert_eq!(s.settle(&empty, Some(1)), Decision::Discard);
    let full = Completed { ticker: "F".to_string(), mode: Mode::Full, bars: vec![] };
    assert_eq!(s.settle(&full, Some(1)), Decision::Commit);
    assert_eq!(reconcile(Mode::Full, &vec![quote(0, 5)], Some(9)), Decision::Commit);
}

#[test]
fn outstanding_requests_stay_within_limit_and_buffer() {
    let limit = 3;
    let mut s = Scheduler::new(limit, false);
    for i in 0..40 {
        s.add_ticker_to_request_queue(format!("T{}", i));
    }
    s.fill(JUNE_23_CLOSE);
    let mut step = 0;
    while !s.open_requests.is_empty() {
        let id = s.open_requests[0].request_id;
        let ticker = s.open_requests[0].ticker.clone();
        if step % 3 == 0 {
            s.on_error(id, JUNE_23_CLOSE);
        } else {
            let (done, _) = s.on_complete(id, JUNE_23_CLOSE).unwrap();
            let revised = Completed {
                ticker: format!("{}R", ticker),
                mode: Mode::Incremental,
                bars: vec![quote(JUNE_22_CLOSE, 1)],
            };
            assert_eq!(done.ticker, ticker);
            if s.settle(&revised, Some(2)) == Decision::Resync {
                s.dispatch_corrective(JUNE_23_CLOSE);
            }
        }
        assert!(s.open_requests.len() <= limit + CONCURRENCY_BUFFER);
        step += 1;
        assert!(step < 1000);
    }
}

#[test]
fn events_drive_the_scheduler() {
    let mut s = Scheduler::new(1, false);
    s.add_incremental_ticker("AAA".to_string(), Some(JUNE_22_CLOSE));
    s.add_incremental_ticker("BBB".to_string(), Some(JUNE_22_CLOSE));
    s.fill(JUNE_23_CLOSE);
    assert!(matches!(s.process_event(Event::SessionReady(9), JUNE_23_CLOSE), Ok(Handled::Nothing)));
    assert_eq!(s.next_order_id, 9);
    assert!(matches!(s.process_event(Event::Informational, JUNE_23_CLOSE), Ok(Handled::Nothing)));
    assert!(matches!(s.process_event(Event::Unsupported, JUNE_23_CLOSE), Err(SyncError::Unsupported)));
    assert!(matches!(
        s.process_event(Event::Bar(5, quote(JUNE_22_CLOSE, 1)), JUNE_23_CLOSE),
        Err(SyncError::UnknownRequest(5))
    ));
    assert!(matches!(s.process_event(Event::Bar(2, quote(JUNE_22_CLOSE, 100)), JUNE_23_CLOSE), Ok(Handled::Nothing)));
    assert!(matches!(s.process_event(Event::Bar(2, quote(JUNE_23_CLOSE, 104)), JUNE_23_CLOSE), Ok(Handled::Nothing)));
    match s.process_event(Event::EndOfHistory(2), JUNE_23_CLOSE) {
        Ok(Handled::Completed(done, next)) => {
            assert_eq!(done.ticker, "AAA");
            assert_eq!(done.check_time(), Some(JUNE_22_CLOSE));
            assert_eq!(sent(&next[0]), (3, "BBB".to_string(), Mode::Incremental, Span::Days(3)));
        }
        other => panic!("{:?}", other),
    }
    match s.process_event(Event::RequestError(3), JUNE_23_CLOSE) {
        Ok(Handled::Dropped(t, next)) => {
            assert_eq!(t, Some("BBB".to_string()));
            assert!(next.is_empty());
        }
        other => panic!("{:?}", other),
    }
    assert!(matches!(s.process_event(Event::EndOfHistory(3), JUNE_23_CLOSE), Err(SyncError::UnknownRequest(3))));
}

#[test]
fn full_batches_need_no_check() {
    let full = Completed { ticker: "F".to_string(), mode: Mode::Full, bars: vec![quote(JUNE_22_CLOSE, 1)] };
    assert_eq!(full.check_time(), None);
    let empty = Completed { ticker: "E".to_string(), mode: Mode::Incremental, bars: vec![] };
    assert_eq!(empty.check_time(), None);
}

#[test]
fn completion_keeps_other_buffers_and_a_bar_leaves_queues_alone() {
    let mut s = Scheduler::new(2, false);
    for t in ["AAA", "BBB", "CCC"] {
        s.add_ticker_to_request_queue(t.to_string());
    }
    s.fill(JUNE_23_CLOSE);
    assert!(matches!(s.process_event(Event::Bar(3, quote(JUNE_22_CLOSE, 7)), JUNE_23_CLOSE), Ok(Handled::Nothing)));
    assert_eq!(s.full_ticker_queue.len(), 1);
    assert_eq!(s.req_id, 3);
    match s.process_event(Event::EndOfHistory(2), JUNE_23_CLOSE) {
        Ok(Handled::Completed(done, next)) => {
            assert_eq!(done.ticker, "AAA");
            assert!(done.bars.is_empty());
            assert_eq!(sent(&next[0]).0, 4);
        }
        other => panic!("{:?}", other),
    }
    assert_eq!(s.open_requests[0].request_id, 3);
    assert_eq!(s.open_requests[0].bars, vec![quote(JUNE_22_CLOSE, 7)]);
}
