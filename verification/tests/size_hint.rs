use group_by::{Event, GroupBy, Step};

/// An engine with the open group `(1, [1])`.
fn with_open_group() -> GroupBy<u32, u32> {
    let mut engine: GroupBy<u32, u32> = GroupBy::new();
    assert_eq!(engine.poll_next(Event::Item(1)), Step::Continue);
    assert_eq!(engine.poll_next(Event::Key(1)), Step::Continue);
    engine
}

/// The number of groups that come out of `engine` while its source yields
/// `items`, which are their own keys, and then ends.
fn count_remaining(mut engine: GroupBy<u32, u32>, items: Vec<u32>) -> usize {
    let mut count: usize = 0;
    for item in items {
        assert_eq!(engine.poll_next(Event::Item(item)), Step::Continue);
        if let Step::Group(_, _) = engine.poll_next(Event::Key(item)) {
            count += 1;
        }
    }
    while let Step::Group(_, _) = engine.poll_next(Event::End) {
        count += 1;
    }
    count
}

#[test]
fn without_open_group_the_bounds_of_the_source_stand() {
    let engine: GroupBy<u32, u32> = GroupBy::new();
    assert_eq!(engine.size_hint((0, Some(0))), (0, Some(0)));
    assert_eq!(engine.size_hint((3, Some(5))), (3, Some(5)));
    assert_eq!(engine.size_hint((3, None)), (3, None));
    assert_eq!(
        engine.size_hint((usize::MAX, Some(usize::MAX))),
        (usize::MAX, Some(usize::MAX))
    );
}

#[test]
fn open_group_adds_one_to_both_bounds() {
    let engine = with_open_group();
    assert_eq!(engine.size_hint((0, Some(0))), (1, Some(1)));
    assert_eq!(engine.size_hint((3, Some(5))), (4, Some(6)));
    assert_eq!(engine.size_hint((41, Some(usize::MAX - 1))), (42, Some(usize::MAX)));
}

#[test]
fn unknown_upper_bound_stays_unknown() {
    let engine = with_open_group();
    assert_eq!(engine.size_hint((0, None)), (1, None));
    assert_eq!(engine.size_hint((7, None)), (8, None));
}

#[test]
fn bounds_stop_at_the_largest_number() {
    let engine = with_open_group();
    assert_eq!(
        engine.size_hint((usize::MAX, Some(usize::MAX))),
        (usize::MAX, Some(usize::MAX))
    );
    assert_eq!(engine.size_hint((usize::MAX, None)), (usize::MAX, None));
    assert_eq!(
        engine.size_hint((usize::MAX - 1, Some(usize::MAX))),
        (usize::MAX, Some(usize::MAX))
    );
}

#[test]
fn item_in_flight_is_not_counted() {
    let mut engine: GroupBy<u32, u32> = GroupBy::new();
    assert_eq!(engine.poll_next(Event::Item(1)), Step::Continue);
    assert_eq!(engine.size_hint((2, Some(2))), (2, Some(2)));
    assert_eq!(engine.poll_next(Event::Key(1)), Step::Continue);
    assert_eq!(engine.size_hint((2, Some(2))), (3, Some(3)));
    assert_eq!(engine.poll_next(Event::Item(2)), Step::Continue);
    assert_eq!(engine.size_hint((1, Some(1))), (2, Some(2)));
}

#[test]
fn handing_out_the_last_group_takes_the_one_back() {
    let mut engine = with_open_group();
    assert_eq!(engine.size_hint((0, Some(0))), (1, Some(1)));
    assert_eq!(engine.poll_next(Event::End), Step::Group(1, vec![1]));
    assert_eq!(engine.size_hint((0, Some(0))), (0, Some(0)));
}

#[test]
fn estimate_brackets_the_groups_to_come_when_every_item_begins_a_run() {
    let rest: Vec<u32> = vec![2, 3, 4];
    let (lower, upper) = with_open_group().size_hint((rest.len(), Some(rest.len())));
    let remaining = count_remaining(with_open_group(), rest);
    assert_eq!(remaining, 4);
    assert!(lower <= remaining);
    assert!(remaining <= upper.unwrap());
}

#[test]
fn upper_estimate_holds_when_items_share_keys() {
    let rest: Vec<u32> = vec![1, 1, 2, 2, 2];
    let (_, upper) = with_open_group().size_hint((0, Some(rest.len())));
    let remaining = count_remaining(with_open_group(), rest);
    assert_eq!(remaining, 2);
    assert_eq!(upper, Some(6));
    assert!(remaining <= upper.unwrap());
}

#[test]
fn lower_estimate_holds_when_the_source_promises_nothing() {
    let rest: Vec<u32> = vec![1, 1, 1];
    let (lower, _) = with_open_group().size_hint((0, Some(rest.len())));
    let remaining = count_remaining(with_open_group(), rest);
    assert_eq!(remaining, 1);
    assert_eq!(lower, 1);
}

#[test]
fn lower_estimate_counts_items_where_runs_come_out() {
    let rest: Vec<u32> = vec![1, 1, 1];
    let (lower, upper) = with_open_group().size_hint((rest.len(), Some(rest.len())));
    assert_eq!((lower, upper), (4, Some(4)));
    assert_eq!(count_remaining(with_open_group(), rest), 1);
}

#[test]
fn group_begun_by_the_item_in_flight_is_beyond_the_upper_estimate() {
    let mut engine: GroupBy<u32, u32> = GroupBy::new();
    assert_eq!(engine.poll_next(Event::Item(7)), Step::Continue);
    assert_eq!(engine.size_hint((0, Some(0))), (0, Some(0)));
    assert_eq!(engine.poll_next(Event::Key(7)), Step::Continue);
    assert_eq!(engine.size_hint((0, Some(0))), (1, Some(1)));
    assert_eq!(engine.poll_next(Event::End), Step::Group(7, vec![7]));
    assert_eq!(engine.poll_next(Event::End), Step::End);
}
