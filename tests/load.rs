use rewind::component_history::ComponentHistory;
use rewind::component_history::TickData::{Missing, Removed, Value};
use rewind::load::{authoritative_action, confirm_range, load_action, LoadAction};

#[derive(Clone, PartialEq, Eq, Debug)]
pub struct A(pub u16);

#[test]
fn load_action_choices() {
    assert_eq!(LoadAction::Remove, load_action(Removed, Value(A(1))));
    assert_eq!(LoadAction::Remove, load_action(Removed::<A>, Missing));
    assert_eq!(LoadAction::Remove, load_action(Missing::<A>, Removed));
    assert_eq!(LoadAction::RemoveBeforeHistory, load_action(Missing::<A>, Missing));
    assert_eq!(
        LoadAction::Insert(Some(A(1)), Some(A(2))),
        load_action(Value(A(1)), Value(A(2)))
    );
    assert_eq!(LoadAction::Insert(Some(A(1)), None), load_action(Value(A(1)), Removed));
    assert_eq!(LoadAction::Insert(None, Some(A(2))), load_action(Missing, Value(A(2))));
}

#[test]
fn confirmation_reaches_the_next_fact() {
    let mut history = ComponentHistory::new(16);
    history.write(10, A(1));
    history.write(15, A(2));
    assert_eq!((11, 14), confirm_range(&history, 11));
    assert_eq!((10, 14), confirm_range(&history, 10));
    // At or after the newest tick nothing is known yet
    assert_eq!((15, 79), confirm_range(&history, 15));
    assert_eq!((u32::MAX - 1, u32::MAX), confirm_range(&history, u32::MAX - 1));
}

#[test]
fn authoritative_history_alone() {
    let mut history = ComponentHistory::new(8);
    history.write(3, A(1));
    history.mark_removed(6);
    assert_eq!(
        Some(LoadAction::Insert(Some(A(1)), Some(A(7)))),
        authoritative_action(&history, 5, Some(A(7)))
    );
    assert_eq!(Some(LoadAction::Remove), authoritative_action(&history, 6, None));
    assert_eq!(None, authoritative_action(&history, 2, None));
}

#[test]
fn loading_a_prediction_cleans_after_the_tick() {
    let mut history = ComponentHistory::new(8);
    history.write(0, A(1));
    history.write(4, A(2));
    let action = history.load_prediction(2, Missing);
    assert_eq!(LoadAction::Insert(None, Some(A(1))), action);
    assert_eq!(2, history.last_tick());
    assert_eq!(3, history.len());

    let action = history.load_prediction(1, Value(A(5)));
    assert_eq!(LoadAction::Insert(Some(A(5)), Some(A(1))), action);
    assert_eq!(1, history.last_tick());
}

#[test]
fn loading_before_the_prediction_keeps_its_first_fact() {
    let mut history = ComponentHistory::new(8);
    history.touch(2);
    history.write(3, A(1));
    history.write(5, A(2));
    let action = history.load_prediction(2, Missing);
    assert_eq!(LoadAction::RemoveBeforeHistory, action);
    assert_eq!(3, history.last_tick());
    assert_eq!(Value(&A(1)), history.get(3));
    assert_eq!(Missing, history.get(5));
}

#[test]
fn storing_skips_unchanged_values() {
    let mut history = ComponentHistory::new(8);
    assert!(history.store_value(10, A(1)));
    assert!(!history.store_value(11, A(1)));
    assert!(!history.store_value(12, A(1)));
    assert!(history.store_value(13, A(2)));
    assert_eq!(Value(&A(1)), history.get(10));
    assert_eq!(Missing, history.get(11));
    assert_eq!(Value(&A(2)), history.get(13));
    assert_eq!(Value(&A(1)), history.get_latest(12));
    assert_eq!(2, history.stored_items());
}

#[test]
fn storing_a_value_after_a_removal() {
    let mut history = ComponentHistory::new(8);
    assert!(history.store_value(10, A(1)));
    assert!(history.store_removed(11));
    assert!(history.store_value(12, A(1)));
    assert_eq!(Removed, history.get(11));
    assert_eq!(Value(&A(1)), history.get(12));
}

#[test]
fn removal_before_the_history_starts_is_skipped() {
    let mut history = ComponentHistory::new(8);
    history.write(12, A(1));
    assert!(!history.store_removed(12));
    assert!(!history.store_removed(11));
    assert_eq!(1, history.len());
    assert!(history.store_removed(13));
    assert_eq!(Removed, history.get(13));
}
