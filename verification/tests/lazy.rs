use permtrace::lazy_list::LazyList;

#[test]
fn fresh_list_knows_only_the_placeholder() {
    let list = LazyList::new();
    let rec = list.get(0).unwrap();
    assert_eq!(rec.stamp(), 0);
    assert!(rec.lines().is_empty());
    assert!(list.get(7).is_none());
}

#[test]
fn empty_recency_order_stays_on_placeholder() {
    let list = LazyList::new();
    assert_eq!(list.next(0), 0);
    assert_eq!(list.previous(0), 0);
}

#[test]
fn selection_walks_recency_order_with_wraparound() {
    let mut list = LazyList::new();
    list.update(2);
    list.update(3);
    list.update(4);
    // Recency, oldest first: 2, 3, 4.
    assert_eq!(list.next(4), 3);
    assert_eq!(list.next(3), 2);
    // Below the oldest the selection wraps to the most recent.
    assert_eq!(list.next(2), 4);
    assert_eq!(list.previous(2), 3);
    assert_eq!(list.previous(3), 4);
    // Above the newest the selection wraps to the least recent.
    assert_eq!(list.previous(4), 2);
}

#[test]
fn updating_a_known_recipient_bumps_it_to_newest() {
    let mut list = LazyList::new();
    list.update(2);
    list.update(3);
    list.update(2);
    // Recency, oldest first: 3, 2.
    assert_eq!(list.next(2), 3);
    assert_eq!(list.previous(2), 3);
    assert_eq!(list.next(3), 2);
}

#[test]
fn update_keeps_the_recorded_lines() {
    let mut list = LazyList::new();
    list.update(5);
    list.record_push(5, true, "from them".to_string());
    list.record_push(5, false, "from us".to_string());
    list.update(5);
    let rec = list.get(5).unwrap();
    assert_eq!(
        rec.lines().clone(),
        vec![
            (true, "from them".to_string()),
            (false, "from us".to_string())
        ]
    );
    assert_eq!(rec.stamp(), 2);
}

#[test]
fn records_are_per_recipient() {
    let mut list = LazyList::new();
    list.update(2);
    list.update(3);
    list.record_push(2, true, "for two".to_string());
    assert!(list.get(3).unwrap().lines().is_empty());
    assert_eq!(list.get(2).unwrap().lines().len(), 1);
}
