use bevy_ui::accessibility::{calc_label, join_with_spaces};
use bevy_ui::layout::Entity;
use bevy_ui::query::QueryManyEnumeratedIter;
use bevy_ui::text_queue::{enqueue_text_entities, requeue_text_entities, TextOutcome};

fn strings(parts: &[&str]) -> Vec<String> {
    parts.iter().map(|s| s.to_string()).collect()
}

#[test]
fn labels_come_from_the_last_child_with_text() {
    assert_eq!(join_with_spaces(&strings(&["a", "bc", "d"])), "a bc d");
    assert_eq!(join_with_spaces(&strings(&[])), "");
    let children = vec![strings(&["first"]), strings(&["Hello", "world"]), strings(&[])];
    assert_eq!(calc_label(&children), Some("Hello world".to_string()));
    assert_eq!(calc_label(&vec![strings(&[]), strings(&[])]), None);
    assert_eq!(calc_label(&vec![]), None);
}

#[test]
fn changed_text_is_queued_once() {
    let mut queued = vec![Entity(1)];
    enqueue_text_entities(&mut queued, &[Entity(2), Entity(1), Entity(2), Entity(3)], &[Entity(9)], false);
    assert_eq!(queued, vec![Entity(1), Entity(2), Entity(3)]);
}

#[test]
fn a_new_scale_factor_queues_every_text() {
    let mut queued = vec![Entity(1)];
    enqueue_text_entities(&mut queued, &[Entity(2)], &[Entity(1), Entity(5)], true);
    assert_eq!(queued, vec![Entity(1), Entity(1), Entity(5)]);
}

#[test]
fn only_texts_waiting_for_fonts_stay_queued() {
    let outcomes = [
        (Entity(1), TextOutcome::Done),
        (Entity(2), TextOutcome::NoSuchFont),
        (Entity(3), TextOutcome::Gone),
        (Entity(4), TextOutcome::NoSuchFont),
    ];
    assert_eq!(requeue_text_entities(&outcomes), vec![Entity(2), Entity(4)]);
    assert!(requeue_text_entities(&[]).is_empty());
}

#[test]
fn enumerated_query_counts_skipped_entities() {
    let mut iter = QueryManyEnumeratedIter::new(vec![Entity(10), Entity(11), Entity(12), Entity(13)]);
    let even = |e: Entity| e.0 % 2 == 0;
    assert_eq!(iter.fetch_next(even), Some((0, Entity(10))));
    assert_eq!(iter.fetch_next(even), Some((2, Entity(12))));
    assert_eq!(iter.fetch_next(even), None);
    assert_eq!(iter.fetch_next(even), None);
}

#[test]
fn enumerated_query_size_hint_counts_what_is_left() {
    let mut iter = QueryManyEnumeratedIter::new(vec![Entity(1), Entity(2), Entity(3)]);
    assert_eq!(iter.size_hint(), (0, Some(3)));
    assert_eq!(iter.fetch_next(|e: Entity| e.0 == 2), Some((1, Entity(2))));
    assert_eq!(iter.size_hint(), (0, Some(1)));
}
