use rewind::input_history::InputHistory;
use rewind::input_queue::{InputQueue, InputTrait};
use std::collections::VecDeque;

#[derive(Clone, Default, PartialEq, Eq, Debug)]
pub struct A(pub u8);

impl InputTrait for A {
    fn repeats() -> bool {
        true
    }
}

#[derive(Clone, Default, PartialEq, Eq, Debug)]
pub struct NoRepeat(u8);

impl InputTrait for NoRepeat {
    fn repeats() -> bool {
        false
    }
}

fn hist<T>(first_tick: u32, list: impl IntoIterator<Item = T>) -> InputHistory<T> {
    let list: Vec<T> = list.into_iter().collect();
    let capacity = list.len();
    InputHistory::from_entries(first_tick, list, capacity)
}

#[test]
fn queue_skips_older_inputs() {
    let mut queue = InputQueue::<A>::new();

    // List starts empty
    assert_eq!(queue.queue().len(), 0);

    // If the entire history is from before the current tick, it is ignored
    queue.add(10, &hist(7, [A(79), A(80)]));
    assert_eq!(queue.queue().len(), 0);

    // When adding items to an empty queue, only the new items get added
    queue.add(10, &hist(9, [A(0), A(1), A(2)]));
    assert_eq!(queue.queue().len(), 2);

    // When adding items to a queue that has items, only newer items get added
    queue.add(10, &hist(10, [A(1), A(2), A(3)]));
    assert_eq!(queue.queue().len(), 3);

    // If for whatever reason there is a gap nothing should break
    queue.add(10, &hist(15, [A(6), A(7)]));
    assert_eq!(queue.queue().len(), 5);

    assert_eq!(
        &VecDeque::from([(10, A(1)), (11, A(2)), (12, A(3)), (15, A(6)), (16, A(7))]),
        queue.queue()
    );
}

#[test]
fn queue_doesnt_overflow() {
    let mut queue = InputQueue::<A>::new();

    queue.add(10, &hist(7, (0..100).map(A)));
    assert_eq!(queue.queue().len(), 30);
}

#[test]
fn queue_repeats_actions_when_none_available() {
    let mut queue = InputQueue::<A>::new();
    queue.add(10, &hist(10, [A(0)]));
    queue.add(10, &hist(17, [A(7)]));

    // We get the actual input
    assert_eq!(queue.next(10), Some(A(0)));
    // There is no input, but the last one should still repeat
    assert_eq!(queue.next(11), Some(A(0)));
    // Still repeating
    assert_eq!(queue.next(15), Some(A(0)));
    // Now it should no longer repeat
    assert_eq!(queue.next(16), None);
    // And now we should get the next input
    assert_eq!(queue.next(17), Some(A(7)));
}

#[test]
fn queue_repeat_is_optional() {
    let mut queue = InputQueue::<NoRepeat>::new();
    queue.add(10, &hist(10, [NoRepeat(0)]));
    queue.add(10, &hist(17, [NoRepeat(7)]));

    // We get the actual input
    assert_eq!(queue.next(10), Some(NoRepeat(0)));
    // There is no input, and we shouldn't repeat
    assert_eq!(queue.next(11), None);
    // Still no repeating
    assert_eq!(queue.next(15), None);
    // And now we should get the next input
    assert_eq!(queue.next(17), Some(NoRepeat(7)));
}

#[test]
fn queue_skips_old_values() {
    let mut queue = InputQueue::<A>::new();
    queue.add(9, &hist(9, [A(0), A(1), A(2)]));

    assert_eq!(queue.next(10), Some(A(1)));
}

#[test]
fn queue_tracks_past_inputs() {
    let mut queue = InputQueue::<A>::new();
    queue.add(9, &hist(9, [A(0), A(1), A(2)]));
    queue.add(9, &hist(13, [A(4)]));

    assert_eq!(queue.next(10), Some(A(1)));
    assert_eq!(queue.past().len(), 1);
    assert_eq!(queue.next(11), Some(A(2)));
    assert_eq!(queue.past().len(), 2);

    // Repeated inputs don't need to get written
    assert_eq!(queue.next(12), Some(A(2)));
    assert_eq!(queue.past().len(), 2);

    assert_eq!(queue.next(13), Some(A(4)));
    assert_eq!(queue.past().len(), 3);

    assert_eq!(
        &VecDeque::from([(10, A(1)), (11, A(2)), (13, A(4))]),
        queue.past()
    );
}

#[test]
fn missed_input_is_repeated_and_remembered() {
    let mut queue = InputQueue::<A>::new();
    queue.add(5, &hist(5, [A(1), A(2)]));
    // Tick 5 and 6 were never used; 6 is the newest skipped and repeats at 8
    assert_eq!(queue.next(8), Some(A(2)));
    assert_eq!(&VecDeque::from([(8, A(2))]), queue.past());
    assert_eq!(queue.queue().len(), 0);
    // Far past the limit nothing repeats
    assert_eq!(queue.next(20), None);
}
