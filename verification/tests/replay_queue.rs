use quant_engine::replay::{Replay, ReplayClock, ReplayError, ScheduledEvent};

#[test]
fn orders_by_time_priority_then_local_sequence() {
    let mut replay = Replay::default();
    replay.schedule(20, 1, 0, "late").unwrap();
    replay.schedule(10, 2, 0, "normal").unwrap();
    replay.schedule(10, 1, 0, "risk").unwrap();

    assert_eq!(replay.next_event().unwrap().payload, "risk");
    assert_eq!(replay.next_event().unwrap().payload, "normal");
    assert_eq!(replay.next_event().unwrap().payload, "late");
    assert_eq!(replay.clock().now_ns(), 20);
}

fn run(events: &[(u64, u8, u64, &'static str)]) -> Vec<&'static str> {
    let mut replay = Replay::default();
    for &(at_ns, priority, local_sequence, payload) in events {
        replay.schedule(at_ns, priority, local_sequence, payload).unwrap();
    }
    let mut out = Vec::new();
    while let Some(event) = replay.next_event() {
        out.push(event.payload);
    }
    out
}

#[test]
fn shuffled_insertion_has_the_same_order() {
    let events = [(10, 1, 2, "market-b"), (10, 1, 1, "market-a"), (10, 2, 0, "timer")];
    let shuffled = [events[2], events[0], events[1]];
    assert_eq!(run(&events), run(&shuffled));
    assert_eq!(run(&events), ["market-a", "market-b", "timer"]);
}

#[test]
fn rejects_duplicate_keys() {
    let mut replay = Replay::default();
    replay.schedule(10, 1, 7, "first").unwrap();
    assert_eq!(replay.next_event().unwrap().payload, "first");
    assert_eq!(
        replay.schedule(10, 1, 7, "duplicate"),
        Err(ReplayError::DuplicateKey { at_ns: 10, priority: 1, local_sequence: 7 })
    );
}

#[test]
fn rejects_events_behind_the_replay_clock() {
    let mut replay = Replay::default();
    replay.schedule(10, 1, 1, "first").unwrap();
    replay.next_event().unwrap();

    assert_eq!(replay.schedule(9, 1, 2, "past"), Err(ReplayError::EventInPast { at_ns: 9, now_ns: 10 }));
}

#[test]
fn every_permutation_replays_in_key_order() {
    let events = [(5, 0, 3, "c"), (5, 0, 1, "a"), (7, 0, 0, "d"), (5, 0, 2, "b")];
    let orders = [[0, 1, 2, 3], [3, 2, 1, 0], [2, 0, 3, 1], [1, 3, 0, 2]];
    for order in orders {
        let permuted: Vec<_> = order.iter().map(|&i| events[i]).collect();
        assert_eq!(run(&permuted), ["a", "b", "c", "d"]);
    }
}

#[test]
fn clock_moves_forward_only_and_empty_replay_yields_nothing() {
    let mut replay: Replay<u8> = Replay::default();
    assert_eq!(replay.clock().now_ns(), 0);
    assert!(replay.next_event().is_none());
    replay.schedule(3, 0, 0, 1).unwrap();
    replay.schedule(3, 0, 1, 2).unwrap();
    assert_eq!(replay.next_event().unwrap().payload, 1);
    assert_eq!(replay.clock().now_ns(), 3);
    // an event at the clock's own time is still accepted
    replay.schedule(3, 5, 0, 3).unwrap();
    assert_eq!(replay.next_event().unwrap().payload, 2);
    assert_eq!(replay.next_event().unwrap().payload, 3);
    assert!(replay.next_event().is_none());
    assert_eq!(replay.clock().now_ns(), 3);
}

#[test]
fn default_clock_starts_at_zero() {
    assert_eq!(ReplayClock::default().now_ns(), 0);
    assert_eq!(ReplayClock::new(), ReplayClock::default());
}

#[test]
fn events_compare_by_key_only() {
    let a = ScheduledEvent { at_ns: 1, priority: 2, local_sequence: 3, payload: "x" };
    let b = ScheduledEvent { at_ns: 1, priority: 2, local_sequence: 3, payload: "y" };
    let c = ScheduledEvent { at_ns: 1, priority: 3, local_sequence: 0, payload: "x" };
    assert!(a == b);
    assert!(a < c);
    assert_eq!(a.partial_cmp(&b), Some(std::cmp::Ordering::Equal));
    assert_eq!(c.partial_cmp(&a), Some(std::cmp::Ordering::Greater));
}

#[test]
fn replay_errors_have_messages() {
    assert_eq!(
        ReplayError::EventInPast { at_ns: 9, now_ns: 10 }.message(),
        "cannot schedule event at 9 behind replay clock 10"
    );
    assert_eq!(
        ReplayError::DuplicateKey { at_ns: 10, priority: 1, local_sequence: 7 }.message(),
        "duplicate replay key: time=10, priority=1, local_sequence=7"
    );
}
