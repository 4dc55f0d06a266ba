use group_by::{Awaiting, Event, GroupBy, Step};

#[test]
fn new_engine_awaits_an_item() {
    let engine: GroupBy<u32, u32> = GroupBy::new();
    assert_eq!(engine.awaiting(), Awaiting::Item);
}

#[test]
fn an_item_makes_the_engine_await_its_key() {
    let mut engine: GroupBy<u32, u32> = GroupBy::new();
    assert_eq!(engine.poll_next(Event::Item(5)), Step::Continue);
    assert_eq!(engine.awaiting(), Awaiting::Key);
    assert_eq!(engine.poll_next(Event::Key(50)), Step::Continue);
    assert_eq!(engine.awaiting(), Awaiting::Item);
}

#[test]
fn first_key_opens_a_group_without_output() {
    let mut engine: GroupBy<u32, &str> = GroupBy::new();
    assert_eq!(engine.poll_next(Event::Item("a")), Step::Continue);
    assert_eq!(engine.poll_next(Event::Key(1)), Step::Continue);
    assert_eq!(engine.poll_next(Event::End), Step::Group(1, vec!["a"]));
}

#[test]
fn equal_key_extends_the_open_group() {
    let mut engine: GroupBy<u32, &str> = GroupBy::new();
    assert_eq!(engine.poll_next(Event::Item("a")), Step::Continue);
    assert_eq!(engine.poll_next(Event::Key(1)), Step::Continue);
    assert_eq!(engine.poll_next(Event::Item("b")), Step::Continue);
    assert_eq!(engine.poll_next(Event::Key(1)), Step::Continue);
    assert_eq!(engine.poll_next(Event::End), Step::Group(1, vec!["a", "b"]));
}

#[test]
fn different_key_hands_out_the_open_group_at_once() {
    let mut engine: GroupBy<u32, &str> = GroupBy::new();
    assert_eq!(engine.poll_next(Event::Item("a")), Step::Continue);
    assert_eq!(engine.poll_next(Event::Key(1)), Step::Continue);
    assert_eq!(engine.poll_next(Event::Item("b")), Step::Continue);
    assert_eq!(engine.poll_next(Event::Key(2)), Step::Group(1, vec!["a"]));
    assert_eq!(engine.awaiting(), Awaiting::Item);
    assert_eq!(engine.poll_next(Event::End), Step::Group(2, vec!["b"]));
}

#[test]
fn end_between_groups_hands_out_the_end() {
    let mut engine: GroupBy<u32, &str> = GroupBy::new();
    assert_eq!(engine.poll_next(Event::Item("a")), Step::Continue);
    assert_eq!(engine.poll_next(Event::Key(1)), Step::Continue);
    assert_eq!(engine.poll_next(Event::End), Step::Group(1, vec!["a"]));
    assert_eq!(engine.poll_next(Event::End), Step::End);
}

#[test]
fn end_is_handed_out_again_and_again() {
    let mut engine: GroupBy<u32, u32> = GroupBy::new();
    assert_eq!(engine.poll_next(Event::Item(1)), Step::Continue);
    assert_eq!(engine.poll_next(Event::Key(1)), Step::Continue);
    assert_eq!(engine.poll_next(Event::End), Step::Group(1, vec![1]));
    for _ in 0..5 {
        assert_eq!(engine.poll_next(Event::End), Step::End);
        assert_eq!(engine.awaiting(), Awaiting::Item);
    }
}

#[test]
fn not_ready_suspends_and_changes_nothing() {
    let mut engine: GroupBy<u32, u32> = GroupBy::new();
    assert_eq!(engine.poll_next(Event::NotReady), Step::Pending);
    assert_eq!(engine.awaiting(), Awaiting::Item);
    assert_eq!(engine.poll_next(Event::Item(1)), Step::Continue);
    assert_eq!(engine.poll_next(Event::NotReady), Step::Pending);
    assert_eq!(engine.poll_next(Event::NotReady), Step::Pending);
    assert_eq!(engine.awaiting(), Awaiting::Key);
    assert_eq!(engine.poll_next(Event::Key(1)), Step::Continue);
    assert_eq!(engine.poll_next(Event::NotReady), Step::Pending);
    assert_eq!(engine.poll_next(Event::Item(2)), Step::Continue);
    assert_eq!(engine.poll_next(Event::NotReady), Step::Pending);
    assert_eq!(engine.poll_next(Event::Key(1)), Step::Continue);
    assert_eq!(engine.poll_next(Event::NotReady), Step::Pending);
    assert_eq!(engine.poll_next(Event::End), Step::Group(1, vec![1, 2]));
    assert_eq!(engine.poll_next(Event::End), Step::End);
}

#[test]
fn open_group_keeps_its_first_key() {
    let mut engine: GroupBy<(u32, u32), u32> = GroupBy::new();
    assert_eq!(engine.poll_next(Event::Item(1)), Step::Continue);
    assert_eq!(engine.poll_next(Event::Key((7, 7))), Step::Continue);
    assert_eq!(engine.poll_next(Event::Item(2)), Step::Continue);
    assert_eq!(engine.poll_next(Event::Key((7, 7))), Step::Continue);
    assert_eq!(engine.poll_next(Event::Item(3)), Step::Continue);
    assert_eq!(engine.poll_next(Event::Key((7, 8))), Step::Group((7, 7), vec![1, 2]));
    assert_eq!(engine.poll_next(Event::End), Step::Group((7, 8), vec![3]));
}

#[test]
fn engine_starts_over_after_the_end() {
    let mut engine: GroupBy<u32, u32> = GroupBy::new();
    assert_eq!(engine.poll_next(Event::End), Step::End);
    assert_eq!(engine.poll_next(Event::Item(9)), Step::Continue);
    assert_eq!(engine.poll_next(Event::Key(9)), Step::Continue);
    assert_eq!(engine.poll_next(Event::End), Step::Group(9, vec![9]));
    assert_eq!(engine.poll_next(Event::End), Step::End);
}
