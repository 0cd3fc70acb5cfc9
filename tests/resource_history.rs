use rewind::component_history::TickData::{self, Missing, Removed, Value};
use rewind::resource_history::ResourceHistory;

#[derive(Clone, PartialEq, Eq, Debug)]
pub struct A(pub u16);

fn a(v: u16) -> TickData<A> {
    Value(A(v))
}

#[test]
fn predicted_resource_get() {
    let history = ResourceHistory::from_entries(3, vec![a(5), a(6), Removed, a(8)]);
    assert_eq!(6, history.last_tick());

    // A valid tick within the history returns the value
    assert_eq!(Value(&A(5)), history.get(3));
    assert_eq!(Value(&A(6)), history.get(4));
    assert_eq!(Removed, history.get(5));
    assert_eq!(Value(&A(8)), history.get(6));

    // A tick before the history returns Missing
    assert_eq!(Missing, history.get(1));
    assert_eq!(Missing, history.get(2));

    // A tick after the history returns Missing
    assert_eq!(Missing, history.get(7));
    assert_eq!(Missing, history.get(2589));

    // If the oldest value is Removed, all ticks before it are considered Removed
    let history = ResourceHistory::from_entries(3, vec![Removed, a(6), Removed, a(8)]);
    assert_eq!(Removed, history.get(3));
    assert_eq!(Removed, history.get(1));
}

#[test]
fn predicted_resource_clean() {
    let base = || ResourceHistory::from_entries(3, vec![a(5), a(6), a(7)]);

    // A tick before the history clears everything
    for tick in [1, 2] {
        let mut history = base();
        history.clean(tick);
        assert_eq!(0, history.len());
        assert_eq!(tick, history.last_tick());
    }

    // A tick within the history cleans all values after it
    for tick in [3, 4, 5] {
        let mut history = base();
        history.clean(tick);
        assert_eq!(3 - (5 - tick as usize), history.len());
        assert_eq!(tick, history.last_tick());
    }

    // A tick after the history does nothing
    for tick in [6, 2589] {
        let mut history = base();
        history.clean(tick);
        assert_eq!(3, history.len());
        assert_eq!(5, history.last_tick());
    }
}

#[test]
fn keep_one() {
    let mut history = ResourceHistory::from_entries(3, vec![a(5), a(6), a(7)]);
    assert_eq!(3, history.len());
    assert_eq!(5, history.last_tick());

    history.keep_one();

    assert_eq!(1, history.len());
    assert_eq!(3, history.last_tick());

    // Calling it with one item should have no effect
    history.keep_one();

    assert_eq!(1, history.len());
    assert_eq!(3, history.last_tick());
}

#[test]
fn keep_one_empty() {
    let mut history = ResourceHistory::<A>::from_entries(5, vec![]);

    // This shouldn't panic or do anything weird
    history.keep_one();
    assert_eq!(0, history.len());
    assert_eq!(5, history.last_tick());
}

#[test]
fn resource_append_repeats_across_gaps_and_wraps() {
    let mut history = ResourceHistory::new();
    assert!(history.is_empty());
    history.append(10, Some(A(1)), 4);
    history.append(11, None, 4);
    history.append(13, Some(A(3)), 4);
    assert_eq!(13, history.last_tick());
    assert_eq!(4, history.len());
    assert_eq!(Value(&A(1)), history.get(10));
    assert_eq!(Removed, history.get(11));
    // The skipped tick repeats the entry before it
    assert_eq!(Removed, history.get(12));
    assert_eq!(Value(&A(3)), history.get(13));

    history.append(14, Some(A(4)), 4);
    assert_eq!(4, history.len());
    // Tick 10 left; the oldest entry now is a removal, which reaches back
    assert_eq!(Removed, history.get(10));
    assert_eq!(Value(&A(4)), history.get(14));

    // An old tick changes nothing
    history.append(12, Some(A(9)), 4);
    assert_eq!(Removed, history.get(12));
    assert_eq!(14, history.last_tick());

    // A smaller bound drops the oldest entries
    history.append(14, None, 2);
    assert_eq!(2, history.len());
    assert_eq!(Value(&A(3)), history.get(13));

    // A gap longer than the bound fills the window with repeats
    history.append(30, None, 3);
    assert_eq!(3, history.len());
    assert_eq!(Value(&A(4)), history.get(28));
    assert_eq!(Value(&A(4)), history.get(29));
    assert_eq!(Removed, history.get(30));
}

#[test]
fn save_initial_only_fills_an_empty_history() {
    let mut history = ResourceHistory::new();
    history.save_initial(7, A(1));
    assert_eq!(Value(&A(1)), history.get(7));
    assert_eq!(7, history.last_tick());
    history.save_initial(9, A(2));
    assert_eq!(1, history.len());
    assert_eq!(7, history.last_tick());
}
