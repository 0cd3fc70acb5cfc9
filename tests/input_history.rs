use rewind::input_history::InputHistory;

#[derive(Clone, Default, PartialEq, Eq, Debug)]
pub struct A(pub u8);

fn hist(first_tick: u32, list: impl IntoIterator<Item = A>, capacity: usize) -> InputHistory<A> {
    InputHistory::from_entries(first_tick, list.into_iter().collect(), capacity)
}

fn assert_history(expected_first: u32, expected: &[A], history: &InputHistory<A>) {
    assert_eq!(expected.len(), history.len());
    assert_eq!(expected_first, history.first_tick());
    assert_eq!(expected_first + expected.len() as u32 - 1, history.updated_at());
    for (i, a) in expected.iter().enumerate() {
        assert_eq!(Some(a), history.get(expected_first + i as u32));
    }
}

#[test]
fn history_get() {
    let history = hist(10, [A(1), A(2), A(3), A(4), A(5)], 5);

    for i in 0..5 {
        assert_eq!(Some(&A(1 + i)), history.get(10 + i as u32));
    }

    // All values outside of the history should return None
    assert_eq!(None, history.get(9));
    assert_eq!(None, history.get(0));
    assert_eq!(None, history.get(5));
    assert_eq!(None, history.get(15));
    assert_eq!(None, history.get(20));
    assert_eq!(None, history.get(598182));
}

#[test]
fn write() {
    let mut history = InputHistory::<A>::new();

    history.write(15, A(1));
    assert_eq!(1, history.len());
    assert_eq!(15, history.updated_at());

    history.write(16, A(2));
    assert_eq!(2, history.len());
    assert_eq!(16, history.updated_at());

    // Writes in the past get ignored
    history.write(14, A(0));
    assert_eq!(2, history.len());
    assert_eq!(16, history.updated_at());

    // When there's a gap, the history is patched up
    history.write(20, A(6));
    assert_eq!(6, history.len());
    assert_eq!(20, history.updated_at());

    assert_history(15, &[A(1), A(2), A(0), A(0), A(0), A(6)], &history);

    // When the gap is large enough, the old history is cleared
    history.write(31, A(10));
    assert_eq!(1, history.len());
}

#[test]
fn write_with_gaps_wrap() {
    let mut history = hist(10, (0..10).map(A), 10);
    assert_eq!(10, history.len());

    history.write(25, A(15));
    assert_eq!(10, history.len());
    let expected: Vec<A> = (6..10).map(A).chain((0..5).map(|_| A(0))).chain([A(15)]).collect();
    assert_history(16, &expected, &history);
}

#[test]
fn first_tick() {
    let mut history = InputHistory::<A>::new();

    assert_eq!(0, history.updated_at());
    assert_eq!(0, history.first_tick());

    history.write(15, A(1));
    assert_eq!(15, history.updated_at());
    assert_eq!(15, history.first_tick());

    history.write(16, A(1));
    assert_eq!(2, history.len());
    assert_eq!(15, history.first_tick());

    let history = hist(10, [A(0), A(1), A(2), A(3), A(4), A(5)], 6);
    assert_eq!(15, history.updated_at());
    assert_eq!(6, history.len());
    assert_eq!(10, history.first_tick());
}

#[test]
fn replace_section() {
    let base = || hist(10, [A(1), A(2), A(3), A(4)], 10);

    // We replace a section at the end
    let mut history = base();
    history.replace_section((0..=1).map(|i| (13 + i, A(10 + i as u8))).collect());
    assert_history(10, &[A(1), A(2), A(3), A(10), A(11)], &history);

    // We replace a section at the start
    let mut history = base();
    history.replace_section((0..=2).map(|i| (8 + i, A(10 + i as u8))).collect());
    assert_history(8, &[A(10), A(11), A(12), A(2), A(3), A(4)], &history);

    // We replace a section in the middle
    let mut history = base();
    history.replace_section((0..=1).map(|i| (11 + i, A(10 + i as u8))).collect());
    assert_history(10, &[A(1), A(10), A(11), A(4)], &history);

    // We replace the history with section much later
    let mut history = base();
    history.replace_section((0..=1).map(|i| (50 + i, A(10 + i as u8))).collect());
    assert_history(50, &[A(10), A(11)], &history);
}

#[test]
fn replace_skips_inputs_out_of_reach() {
    let mut history = hist(20, [A(1), A(2)], 4);
    // More than the reach before the newest tick
    history.replace_one(5, A(9));
    assert_history(20, &[A(1), A(2)], &history);
    // Would not fit in front
    history.replace_one(17, A(9));
    assert_history(20, &[A(1), A(2)], &history);
    history.replace_one(19, A(9));
    assert_history(19, &[A(9), A(1), A(2)], &history);

    history.reset();
    assert!(history.is_empty());
    assert_eq!(0, history.updated_at());
}
