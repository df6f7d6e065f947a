use bevy_ui::events::{
    batch_ranges, BatchingStrategy, EventBatch, EventCursor, EventIteratorWithId, EventParIter, Events,
};

fn three_events() -> Events<u32> {
    let mut events = Events::new();
    events.send(10);
    events.send(20);
    events.send(30);
    events
}

#[test]
fn send_numbers_events_in_order() {
    let mut events: Events<u32> = Events::new();
    assert_eq!(events.send(5).id, 0);
    assert_eq!(events.send(6).id, 1);
    assert_eq!(events.event_count, 2);
    assert_eq!(events.events_b.events.len(), 2);
    assert_eq!(events.events_b.events[1].event, 6);
}

#[test]
fn reader_sees_each_event_once_oldest_first() {
    let events = three_events();
    let mut reader = EventCursor::new();
    let mut iter = EventIteratorWithId::new(&mut reader, &events);
    assert_eq!(iter.len(), 3);
    assert_eq!(iter.size_hint(), (3, Some(3)));
    let (e, id) = iter.next().unwrap();
    assert_eq!((*e, id.id), (10, 0));
    let (e, id) = iter.next().unwrap();
    assert_eq!((*e, id.id), (20, 1));
    assert_eq!(iter.len(), 1);
    let (e, id) = iter.next().unwrap();
    assert_eq!((*e, id.id), (30, 2));
    assert!(iter.next().is_none());
    assert_eq!(reader.last_event_count, 3);
    let mut again = EventIteratorWithId::new(&mut reader, &events);
    assert!(again.next().is_none());
}

#[test]
fn events_survive_one_update_and_are_dropped_after_two() {
    let mut events = three_events();
    let mut late = EventCursor::new();
    events.update();
    events.send(40);
    // the older run and the newer one are both unread
    assert_eq!(EventIteratorWithId::new(&mut late, &events).count(), 4);
    let mut later = EventCursor::new();
    events.update();
    events.update();
    // both runs are gone: nothing is left to read
    assert_eq!(EventIteratorWithId::new(&mut later, &events).count(), 0);
    assert_eq!(later.last_event_count, 4);
}

#[test]
fn a_cursor_past_dropped_events_starts_at_the_oldest_kept_one() {
    let mut events = three_events();
    events.update();
    events.send(40);
    events.update();
    // the events 10, 20 and 30 are dropped; 40 is in the older run
    let mut reader = EventCursor::new();
    let mut iter = EventIteratorWithId::new(&mut reader, &events);
    let (e, id) = iter.next().unwrap();
    assert_eq!((*e, id.id), (40, 3));
    assert!(iter.next().is_none());
}

#[test]
fn count_last_and_nth() {
    let events = three_events();
    let mut reader = EventCursor::new();
    let (last, id) = EventIteratorWithId::new(&mut reader, &events).last().unwrap();
    assert_eq!((*last, id.id), (30, 2));
    assert_eq!(reader.last_event_count, 3);

    let mut reader = EventCursor::new();
    let mut iter = EventIteratorWithId::new(&mut reader, &events);
    let (e, id) = iter.nth(1).unwrap();
    assert_eq!((*e, id.id), (20, 1));
    assert!(iter.nth(1).is_none());
    assert_eq!(reader.last_event_count, 3);

    let mut reader = EventCursor::new();
    let mut plain = EventIteratorWithId::new(&mut reader, &events).without_id();
    assert_eq!(plain.len(), 3);
    assert_eq!(plain.next(), Some(&10));
    assert_eq!(plain.nth(0), Some(&20));
    assert_eq!(plain.size_hint(), (1, Some(1)));
    assert_eq!(plain.last(), Some(&30));
}

#[test]
fn reading_from_a_partially_read_cursor() {
    let events = three_events();
    let mut reader = EventCursor::new();
    reader.last_event_count = 2;
    let mut plain = EventIteratorWithId::new(&mut reader, &events).without_id();
    assert_eq!(plain.count(), 1);
}

#[test]
fn parallel_iterator_reads_everything() {
    let events = three_events();
    let mut reader = EventCursor::new();
    let iter = EventParIter::new(&mut reader, &events);
    assert_eq!(iter.len(), 3);
    assert!(!iter.is_empty());
    iter.batching_strategy(BatchingStrategy::fixed(2)).for_each(|e| assert!(*e % 10 == 0));
    assert_eq!(reader.last_event_count, 3);
    let iter = EventParIter::new(&mut reader, &events);
    assert!(iter.is_empty());
    assert_eq!(iter.len(), 0);
}

#[test]
fn parallel_iterator_hands_out_ids() {
    let events = three_events();
    let mut reader = EventCursor::new();
    EventParIter::new(&mut reader, &events).for_each_with_id(|e, id| assert_eq!(*e, (id.id as u32 + 1) * 10));
    assert_eq!(reader.last_event_count, 3);
    let mut reader = EventCursor::new();
    let mut seq = EventParIter::new(&mut reader, &events).into_iter();
    assert_eq!(seq.next().map(|(e, _)| *e), Some(10));
}

#[test]
fn batch_sizes() {
    let default = BatchingStrategy::default();
    assert_eq!(default.batch_size_limits, 1..usize::MAX);
    assert_eq!(default.batches_per_thread, 1);
    // 10 items over 4 threads: batches of 3, rounded up
    assert_eq!(default.calc_batch_size(10, 4), 3);
    assert_eq!(default.calc_batch_size(8, 4), 2);
    // never below the lower limit
    assert_eq!(default.calc_batch_size(0, 4), 1);
    // a fixed strategy always gives its size
    assert_eq!(BatchingStrategy::fixed(7).calc_batch_size(1000, 3), 7);
    let clamped = BatchingStrategy { batch_size_limits: 2..5, batches_per_thread: 2 };
    assert_eq!(clamped.calc_batch_size(100, 2), 5);
    assert_eq!(clamped.calc_batch_size(4, 2), 2);
    assert_eq!(BatchingStrategy::new().batches_per_thread, 1);
}

#[test]
fn batches_hold_whole_chunks_then_remainders() {
    let b = |run, start, end| EventBatch { run, start, end };
    assert_eq!(
        batch_ranges(5, 4, 2),
        vec![b(0, 0, 2), b(0, 2, 4), b(1, 0, 2), b(1, 2, 4), b(0, 4, 5), b(1, 4, 4)]
    );
    assert_eq!(batch_ranges(0, 0, 3), vec![b(0, 0, 0), b(1, 0, 0)]);
}

#[test]
fn parallel_batches_follow_the_strategy() {
    let mut events = three_events();
    events.update();
    events.send(40);
    let mut reader = EventCursor::new();
    let iter = EventParIter::new(&mut reader, &events);
    // 4 events over 2 threads: batches of 2; the older run holds 3 events, the newer 1
    assert_eq!(
        iter.batches(2),
        vec![
            EventBatch { run: 0, start: 0, end: 2 },
            EventBatch { run: 0, start: 2, end: 3 },
            EventBatch { run: 1, start: 0, end: 1 },
        ]
    );
}

#[test]
fn parallel_for_each_runs_once_on_each_unread_event() {
    let events = three_events();
    let mut reader = EventCursor::new();
    reader.last_event_count = 1;
    let seen = std::cell::RefCell::new(Vec::new());
    EventParIter::new(&mut reader, &events).for_each(|e| seen.borrow_mut().push(*e));
    assert_eq!(seen.into_inner(), vec![20, 30]);
    let mut reader = EventCursor::new();
    let seen = std::cell::RefCell::new(Vec::new());
    EventParIter::new(&mut reader, &events).for_each_with_id(|e, id| seen.borrow_mut().push((*e, id.id)));
    assert_eq!(seen.into_inner(), vec![(10, 0), (20, 1), (30, 2)]);
}
