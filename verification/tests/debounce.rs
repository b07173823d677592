use boxen_gpio::scheduler::sleep_duration;
use boxen_gpio::IO;

/// Debounce 50: edges on line 5 at t=0, 10, 40 coalesce into exactly one
/// event, due at t=90 (last edge + 50) and not a tick earlier.
#[test]
fn coalescing_burst_single_event() {
    let mut io = IO::create(50);
    io.record_edge(5, 0);
    io.record_edge(5, 10);
    io.record_edge(5, 40);
    assert_eq!(io.deadline_of(5), Some(90));
    let early = io.collect_expired(89);
    assert!(early.is_empty());
    let due = io.collect_expired(90);
    assert_eq!(due, vec![5u8]);
    assert_eq!(io.deadline_of(5), None);
    let after = io.collect_expired(1000);
    assert!(after.is_empty());
}

/// Edges on line 5 at t=0 and line 7 at t=5 (debounce 50) give two
/// independent events, at t=50 and t=55.
#[test]
fn isolation_two_lines() {
    let mut io = IO::create(50);
    io.record_edge(5, 0);
    io.record_edge(7, 5);
    assert_eq!(io.deadline_of(5), Some(50));
    assert_eq!(io.deadline_of(7), Some(55));
    let first = io.collect_expired(50);
    assert_eq!(first, vec![5u8]);
    assert_eq!(io.deadline_of(7), Some(55));
    let second = io.collect_expired(55);
    assert_eq!(second, vec![7u8]);
    assert!(io.collect_expired(1000).is_empty());
}

/// A new edge on a line with a pending deadline overwrites it: the tracker
/// never holds two entries for one line, and one scan emits the line once.
#[test]
fn no_duplicate_deadlines() {
    let mut io = IO::create(50);
    io.record_edge(5, 0);
    io.record_edge(5, 200);
    io.record_edge(5, 100);
    assert_eq!(io.deadline_of(5), Some(150));
    let due = io.collect_expired(u64::MAX);
    assert_eq!(due, vec![5u8]);
}

/// An event is never emitted before last edge + debounce, and the computed
/// wake tick is exactly that bound, so the loop is back in time.
#[test]
fn minimal_latency_bound() {
    let mut io = IO::create(50);
    io.record_edge(5, 100);
    assert!(io.collect_expired(149).is_empty());
    assert_eq!(io.next_wake(120), 150);
    assert_eq!(io.collect_expired(150), vec![5u8]);
}

/// With no edges ever, every scan is empty and the wake tick advances in
/// bounded increments of one debounce duration: the idle floor.
#[test]
fn idle_floor_bounded_polling() {
    let mut io = IO::create(50);
    assert!(io.collect_expired(1000).is_empty());
    assert_eq!(io.next_wake(1000), 1050);
    assert_eq!(sleep_duration(1000, 1050), 50);
    assert!(io.collect_expired(2000).is_empty());
    assert_eq!(io.next_wake(2000), 2050);
}

/// The next wake is the earliest pending deadline when several lines wait.
#[test]
fn next_wake_is_earliest_deadline() {
    let mut io = IO::create(50);
    io.record_edge(5, 100);
    io.record_edge(7, 20);
    assert_eq!(io.next_wake(0), 70);
    assert_eq!(io.collect_expired(70), vec![7u8]);
    assert_eq!(io.next_wake(70), 150);
}

/// A deadline near the end of the tick range saturates instead of wrapping.
#[test]
fn deadline_saturates_at_max_tick() {
    let mut io = IO::create(50);
    io.record_edge(5, u64::MAX - 10);
    assert_eq!(io.deadline_of(5), Some(u64::MAX));
    assert_eq!(io.next_wake(u64::MAX - 20), u64::MAX);
}

/// The idle wake also saturates when now is near the end of the range.
#[test]
fn idle_wake_saturates_at_max_tick() {
    let io = IO::create(50);
    assert_eq!(io.next_wake(u64::MAX - 10), u64::MAX);
    assert_eq!(sleep_duration(u64::MAX, u64::MAX - 10), 0);
}

/// A wake already in the past sleeps for nothing.
#[test]
fn sleep_duration_never_negative() {
    assert_eq!(sleep_duration(60, 50), 0);
    assert_eq!(sleep_duration(50, 50), 0);
    assert_eq!(sleep_duration(0, 90), 90);
}

/// An edge sent through the raw-edge channel lands in the tracker when the
/// scheduler drains: the channel really carries the pair across.
#[test]
fn edge_channel_roundtrip() {
    let mut io = IO::create(50);
    let tx = io.edge_sender();
    tx.send((5u8, 10u64)).unwrap();
    tx.send((7u8, 20u64)).unwrap();
    io.absorb_pending();
    assert_eq!(io.deadline_of(5), Some(60));
    assert_eq!(io.deadline_of(7), Some(70));
}

/// Draining edges never cancels a deadline that was already pending.
#[test]
fn absorb_keeps_pending_deadlines() {
    let mut io = IO::create(50);
    io.record_edge(3, 0);
    let tx = io.edge_sender();
    tx.send((5u8, 10u64)).unwrap();
    io.absorb_pending();
    assert_eq!(io.deadline_of(3), Some(50));
    assert_eq!(io.deadline_of(5), Some(60));
}

/// Emitted events come out of the listener's receiver in order.
#[test]
fn event_channel_delivers_in_order() {
    let mut io = IO::create(50);
    let rx = io.open_events();
    let events = vec![(5u8, true), (7u8, false)];
    assert_eq!(io.emit_events(&events), 2);
    assert_eq!(rx.try_recv().unwrap(), (5u8, true));
    assert_eq!(rx.try_recv().unwrap(), (7u8, false));
    assert!(rx.try_recv().is_err());
}

/// A delivery fault — no receiver left — shows as a short count, the
/// loop's signal to stop.
#[test]
fn emit_without_receiver_fails() {
    let mut io = IO::create(50);
    let events = vec![(5u8, true)];
    assert_eq!(io.emit_events(&events), 0);
    let rx = io.open_events();
    drop(rx);
    assert_eq!(io.emit_events(&events), 0);
}
