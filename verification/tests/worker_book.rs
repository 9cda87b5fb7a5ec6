use deka_pm::pool_types::{RequestState, REQUEST_HISTORY_LIMIT};
use deka_pm::worker_book::{
    queue_timeout, response_status, ControlAction, ControlCommand, IsolateCache, RequestCounters, RequestHistory,
    RequestTrace, RunOutcome, TraceUpdate, WorkerBook,
};

fn s(v: &str) -> String {
    v.to_string()
}

fn keys(c: &IsolateCache) -> Vec<String> {
    c.lru.iter().map(|(k, _)| k.clone()).collect()
}

fn trace(id: &str, started_at_ms: u64, state: RequestState) -> RequestTrace<Vec<String>> {
    RequestTrace {
        id: s(id),
        handler_name: s("h"),
        isolate_id: s("isolate_1"),
        worker_id: 0,
        started_at_ms,
        state,
        op_timings: Vec::new(),
        queue_wait_ms: 0,
        warm_time_us: 0,
        total_time_us: 0,
        heap_before_bytes: 0,
        heap_after_bytes: 0,
        heap_delta_bytes: 0,
        response_status: None,
        response_body: None,
    }
}

fn done(ms: u64) -> RequestState {
    RequestState::Completed { duration_ms: ms }
}

#[test]
fn a_hit_marks_the_isolate_most_recently_used() {
    let mut c = IsolateCache::new(0);
    c.insert_created(s("a"), 1);
    c.insert_created(s("b"), 2);
    c.insert_created(s("c"), 3);
    let r = c.lookup(&s("a"), 1);
    assert!(r.hit && r.evicted.is_none());
    assert_eq!(keys(&c), vec![s("b"), s("c"), s("a")]);
}

#[test]
fn a_redeployed_handler_is_a_miss_that_drops_the_stale_isolate() {
    let mut c = IsolateCache::new(0);
    c.insert_created(s("a"), 1);
    c.insert_created(s("b"), 2);
    let r = c.lookup(&s("a"), 9);
    assert!(!r.hit && r.evicted.is_none());
    assert_eq!(keys(&c), vec![s("b")]);
    c.insert_created(s("a"), 9);
    assert_eq!(c.lru, vec![(s("b"), 2), (s("a"), 9)]);
}

#[test]
fn a_full_cache_evicts_the_least_recently_used() {
    let mut c = IsolateCache::new(2);
    c.insert_created(s("a"), 1);
    c.insert_created(s("b"), 2);
    assert!(c.lookup(&s("a"), 1).hit);
    let r = c.lookup(&s("c"), 3);
    assert!(!r.hit);
    assert_eq!(r.evicted, Some(s("b")));
    c.insert_created(s("c"), 3);
    assert_eq!(keys(&c), vec![s("a"), s("c")]);
    assert_eq!(c.evict_lru(), Some(s("a")));
    assert_eq!(keys(&c), vec![s("c")]);
}

#[test]
fn isolates_are_disposed_last_created_first() {
    let mut book: WorkerBook<Vec<String>> = WorkerBook::new(0);
    book.cache.insert_created(s("a"), 1);
    book.cache.insert_created(s("b"), 2);
    book.cache.insert_created(s("c"), 3);
    assert!(book.cache.lookup(&s("a"), 1).hit);
    match book.handle_control(ControlCommand::EvictAll) {
        ControlAction::EvictAll { dispose, count } => {
            assert_eq!(count, 3);
            assert_eq!(dispose, vec![s("c"), s("b"), s("a")]);
        }
        _ => panic!("expected EvictAll"),
    }
    assert!(book.cache.lru.is_empty());
    assert!(book.cache.creation_order.is_empty());
    book.cache.insert_created(s("d"), 4);
    match book.handle_control(ControlCommand::Shutdown) {
        ControlAction::Shutdown { dispose } => assert_eq!(dispose, vec![s("d")]),
        _ => panic!("expected Shutdown"),
    }
    assert!(book.cache.creation_order.is_empty());
}

#[test]
fn kill_and_prefix_eviction() {
    let mut book: WorkerBook<Vec<String>> = WorkerBook::new(0);
    for (k, h) in [("api/a", 1), ("api/b", 2), ("web/x", 3)] {
        book.cache.insert_created(s(k), h);
    }
    match book.handle_control(ControlCommand::KillIsolate { key: s("nope") }) {
        ControlAction::Kill { reply, .. } => assert_eq!(reply, Err(s("Isolate not found"))),
        _ => panic!("expected Kill"),
    }
    match book.handle_control(ControlCommand::KillIsolate { key: s("web/x") }) {
        ControlAction::Kill { key, reply } => {
            assert_eq!(key, "web/x");
            assert_eq!(reply, Ok(()));
        }
        _ => panic!("expected Kill"),
    }
    match book.handle_control(ControlCommand::EvictByPrefix { prefix: s("api/") }) {
        ControlAction::EvictByPrefix { removed } => assert_eq!(removed, vec![s("api/a"), s("api/b")]),
        _ => panic!("expected EvictByPrefix"),
    }
    assert!(book.cache.lru.is_empty());
    // Disposal order is kept for every isolate ever created; removed keys are
    // passed over when the worker disposes.
    assert_eq!(book.cache.creation_order, vec![s("api/a"), s("api/b"), s("web/x")]);
}

#[test]
fn history_keeps_the_latest_traces_up_to_its_limit() {
    let mut h: RequestHistory<Vec<String>> = RequestHistory::new();
    for i in 0..(REQUEST_HISTORY_LIMIT as u64 + 5) {
        h.record(trace(&format!("r{i}"), i, done(1)));
    }
    assert_eq!(h.traces.len(), REQUEST_HISTORY_LIMIT);
    assert_eq!(h.traces[0].id, "r5");
}

#[test]
fn drain_stops_at_the_cutoff_or_an_executing_request() {
    let mut book: WorkerBook<Vec<String>> = WorkerBook::new(0);
    book.history.record(trace("a", 10, done(1)));
    book.history.record(trace("b", 20, RequestState::Executing));
    book.history.record(trace("c", 30, done(1)));
    match book.handle_control(ControlCommand::DrainRequestHistory { cutoff_ms: 100 }) {
        ControlAction::Drained { traces } => {
            assert_eq!(traces.iter().map(|t| t.id.clone()).collect::<Vec<_>>(), vec![s("a")]);
        }
        _ => panic!("expected Drained"),
    }
    assert_eq!(book.history.traces.len(), 2);
    let drained = book.history.drain_before(5);
    assert!(drained.is_empty());
}

#[test]
fn update_fills_in_the_trace_of_the_request() {
    let mut h: RequestHistory<Vec<String>> = RequestHistory::new();
    h.record(trace("a", 1, RequestState::Executing));
    h.record(trace("b", 2, RequestState::Executing));
    h.update(
        "b",
        TraceUpdate {
            state: done(7),
            op_timings: vec![s("op_read")],
            warm_time_us: 11,
            total_time_us: 22,
            heap_before_bytes: 1000,
            heap_after_bytes: 400,
            response_status: Some(200),
            response_body: Some(s("ok")),
        },
    );
    let b = &h.traces[1];
    assert!(matches!(b.state, RequestState::Completed { duration_ms: 7 }));
    assert_eq!(b.heap_delta_bytes, -600);
    assert_eq!(b.response_status, Some(200));
    assert_eq!(b.op_timings, vec![s("op_read")]);
    assert!(matches!(h.traces[0].state, RequestState::Executing));
    h.update(
        "zzz",
        TraceUpdate {
            state: done(1),
            op_timings: Vec::new(),
            warm_time_us: 0,
            total_time_us: 0,
            heap_before_bytes: 0,
            heap_after_bytes: 0,
            response_status: None,
            response_body: None,
        },
    );
    assert!(matches!(h.traces[0].state, RequestState::Executing));
}

#[test]
fn queued_too_long_fails_without_running() {
    assert!(queue_timeout(0, 10_000).is_none());
    assert!(queue_timeout(500, 500).is_none());
    let (head, state) = queue_timeout(500, 501).expect("timed out");
    assert!(!head.success && !head.cache_hit);
    assert_eq!(head.error.as_deref(), Some("Request timed out in queue after 501ms"));
    assert_eq!((head.warm_time_us, head.total_time_us), (0, 501_000));
    assert!(matches!(state, RequestState::QueueTimeout { waited_ms: 501 }));
}

#[test]
fn result_status_defaults_to_200() {
    assert_eq!(response_status(None), 200);
    assert_eq!(response_status(Some(404)), 404);
    assert_eq!(response_status(Some(65536 + 201)), 201);
}

#[test]
fn settling_a_request_maps_its_outcome() {
    let mut book: WorkerBook<Vec<String>> = WorkerBook::new(0);
    book.cache.insert_created(s("h"), 1);
    let (head, state) = book.settle_request(&s("h"), RunOutcome::Completed, 5, 9, 3, true);
    assert!(head.success && head.error.is_none() && head.cache_hit);
    assert_eq!((head.warm_time_us, head.total_time_us), (5, 9));
    assert!(matches!(state, RequestState::Completed { duration_ms: 3 }));
    let (head, state) = book.settle_request(&s("h"), RunOutcome::Failed { error: s("boom") }, 5, 9, 3, false);
    assert_eq!(head.error.as_deref(), Some("boom"));
    assert!(matches!(state, RequestState::Failed { ref error, duration_ms: 3 } if error == "boom"));
    assert_eq!(book.cache.lru.len(), 1);
    let (head, state) = book.settle_request(&s("h"), RunOutcome::TimedOut, 5, 9, 3, false);
    assert_eq!(head.error.as_deref(), Some("Handler execution timed out"));
    assert!(matches!(state, RequestState::Failed { ref error, .. } if error == "timeout"));
    assert!(book.cache.lru.is_empty());
}

#[test]
fn requests_and_lookups_are_counted() {
    let mut c = RequestCounters::new();
    c.count_request();
    c.count_request();
    c.count_lookup(true);
    c.count_lookup(false);
    c.count_lookup(false);
    assert_eq!((c.total_requests, c.cache_hits, c.cache_misses), (2, 1, 2));
    c.total_requests = u64::MAX;
    c.count_request();
    assert_eq!(c.total_requests, 0);
}
