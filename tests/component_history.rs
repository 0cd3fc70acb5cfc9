use rewind::component_history::ComponentHistory;
use rewind::component_history::TickData::{Missing, Removed, Value};
use std::collections::HashSet;
use std::sync::{Arc, RwLock};

#[derive(Clone, PartialEq, Eq, Debug)]
pub struct A(pub u16);

#[test]
fn append() {
    let mut history = ComponentHistory::new(5);
    assert_eq!(0, history.len());

    history.write(0, A(1));
    assert_eq!(1, history.len());
    history.write(1, A(2));
    assert_eq!(2, history.len());
    history.write(2, A(3));
    assert_eq!(3, history.len());

    assert_eq!(Value(&A(1)), history.get(0));
    assert_eq!(Value(&A(2)), history.get(1));
    assert_eq!(Value(&A(3)), history.get(2));
    assert_eq!(Missing, history.get(3));
}

#[test]
fn get_latest() {
    let mut history = ComponentHistory::new(5);
    assert_eq!(0, history.len());

    history.write(0, A(1));
    history.write(4, A(2));
    assert_eq!(5, history.len());

    for i in 0..=3 {
        assert_eq!(Value(&A(1)), history.get_latest(i));
    }

    history.mark_removed(1);
    for i in 1..=3 {
        assert_eq!(Removed, history.get_latest(i));
    }
}

#[test]
fn start_non_zero_tick() {
    let mut history = ComponentHistory::new(5);
    assert_eq!(0, history.len());

    history.write(25, A(1));
    assert_eq!(1, history.len());
    assert_eq!(25, history.last_tick());

    assert_eq!(Missing, history.get(24));
    assert_eq!(Value(&A(1)), history.get(25));
    assert_eq!(Missing, history.get(26));
}

#[test]
fn repeated_tick() {
    let mut history = ComponentHistory::new(5);
    assert_eq!(0, history.len());

    // Write some initial data
    history.write(0, A(1));
    history.write(1, A(2));
    assert_eq!(2, history.len());

    // Write to ticks already written
    history.write(1, A(4));
    assert_eq!(2, history.len());
    history.write(0, A(3));
    assert_eq!(2, history.len());

    assert_eq!(Value(&A(3)), history.get(0));
    assert_eq!(Value(&A(4)), history.get(1));
    assert_eq!(Missing, history.get(2));
}

#[test]
fn gaps() {
    let mut history = ComponentHistory::new(5);
    assert_eq!(0, history.len());

    history.write(0, A(1));
    // Tick 1 is never written
    history.write(2, A(2));

    assert_eq!(3, history.len());
    assert_eq!(2, history.stored_items());

    assert_eq!(Value(&A(1)), history.get(0));
    assert_eq!(Missing, history.get(1));
    assert_eq!(Value(&A(2)), history.get(2));
    assert_eq!(Missing, history.get(3));
}

#[test]
fn wrap_retains_first_value() {
    let mut history = ComponentHistory::new(5);
    assert_eq!(0, history.len());

    history.write(0, A(1));
    // Tick 1-3 are never written
    history.write(4, A(2));
    // Tick 5 is never written
    history.write(6, A(3));

    assert_eq!(5, history.len());
    assert_eq!(3, history.stored_items());
    // The first item was moved to tick 2 to retain a valid value
    assert_eq!(Value(&A(1)), history.get(2));
    assert_eq!(Value(&A(2)), history.get(4));
    assert_eq!(Value(&A(3)), history.get(6));
    for i in [1, 3, 5] {
        assert_eq!(Missing, history.get(i));
    }
}

#[test]
fn wrap_with_removed() {
    let mut history = ComponentHistory::new(5);
    assert_eq!(0, history.len());

    history.mark_removed(0);
    // Tick 1-4 are never written
    history.write(5, A(1));

    assert_eq!(5, history.len());
    assert_eq!(1, history.stored_items());
    // The Removed was moved to tick 1 to retain a valid value
    assert_eq!(Removed, history.get(1));
    assert_eq!(Value(&A(1)), history.get(5));
    for i in [0, 2, 3, 4, 6] {
        assert_eq!(Missing, history.get(i));
    }
}

#[test]
fn wrap_more_than_capacity() {
    let mut history = ComponentHistory::new(20);
    assert_eq!(0, history.len());

    history.mark_removed(0);
    // Tick 1-80 are never written
    history.write(81, A(1));

    assert_eq!(20, history.len());
    assert_eq!(1, history.stored_items());
    // The Removed was moved to tick 62 to retain a valid value in the gap
    assert_eq!(Removed, history.get(62));
    assert_eq!(Value(&A(1)), history.get(81));

    // Tick 82-119 are never written
    history.mark_removed(120);
    // The value was moved to tick 101 to retain a valid value in the gap
    assert_eq!(Value(&A(1)), history.get(101));
    assert_eq!(Removed, history.get(120));
}

#[test]
fn out_of_order() {
    let mut history = ComponentHistory::new(5);
    assert_eq!(0, history.len());

    // Data is written out of order
    history.write(2, A(3));
    history.write(1, A(2));
    history.write(3, A(4));
    history.write(0, A(1));
    assert_eq!(4, history.len());

    assert_eq!(Value(&A(1)), history.get(0));
    assert_eq!(Value(&A(2)), history.get(1));
    assert_eq!(Value(&A(3)), history.get(2));
    assert_eq!(Value(&A(4)), history.get(3));
    assert_eq!(Missing, history.get(4));
}

#[test]
fn component_history_clean() {
    let mut history = ComponentHistory::new(5);

    history.write(0, A(1));
    history.mark_removed(2);
    history.write(3, A(2));
    assert_eq!(4, history.len());
    assert_eq!(2, history.stored_items());

    // Target the last tick, this shouldn't do anything
    history.clean(3);
    assert_eq!(4, history.len());
    assert_eq!(2, history.stored_items());

    // Target tick 2, which should only remove data for ticks after it
    history.clean(2);
    assert_eq!(3, history.len());
    assert_eq!(1, history.stored_items());

    assert_eq!(Value(&A(1)), history.get(0));
    assert_eq!(Missing, history.get(1));
    assert_eq!(Removed, history.get(2));
    assert_eq!(Missing, history.get(3));

    // Cleaning should also remove gaps and removed
    history.clean(0);
    assert_eq!(1, history.len());
    assert_eq!(1, history.stored_items());
    assert_eq!(0, history.removed_mask());

    assert_eq!(Value(&A(1)), history.get(0));
    for i in 1..=3 {
        assert_eq!(Missing, history.get(i));
    }

    for i in 5..=9 {
        history.write(i, A(i as u16));
    }
    assert_eq!(5, history.len());
    assert_eq!(5, history.stored_items());

    // Target a tick before all items
    history.clean(4);
    assert_eq!(0, history.len());
    assert_eq!(0, history.stored_items());
}

#[test]
fn keep_first_item() {
    let mut history = ComponentHistory::<A>::new(5);

    history.touch(0);
    assert_eq!(1, history.len());

    // Calling keep_first_item on a history with only Missing should do nothing
    history.keep_first_item();
    assert_eq!(1, history.len());

    history.mark_removed(1);
    assert_eq!(2, history.len());

    // The oldest fact is the newest entry: nothing to cut
    history.keep_first_item();
    assert_eq!(2, history.len());

    history.write(2, A(1));
    history.mark_removed(3);
    history.write(4, A(2));
    assert_eq!(5, history.len());

    // Everything after the oldest fact (the removal at tick 1) goes
    history.keep_first_item();
    assert_eq!(2, history.len());

    assert_eq!(Missing, history.get(0));
    assert_eq!(Removed, history.get(1));
    assert_eq!(Missing, history.get(2));
}

#[test]
fn keep_first_item_keeps_oldest_value() {
    let mut history = ComponentHistory::new(5);
    history.touch(0);
    history.write(1, A(1));
    history.mark_removed(2);
    history.write(3, A(2));

    history.keep_first_item();
    assert_eq!(2, history.len());
    assert_eq!(1, history.last_tick());
    assert_eq!(Value(&A(1)), history.get(1));
    assert_eq!(Missing, history.get(2));
    assert_eq!(1, history.stored_items());
}

#[test]
fn empty_after() {
    let mut history = ComponentHistory::new(64);
    assert_eq!(0, history.len());
    assert_eq!(0, history.empty_after(0));

    // Start with a Missing at index 0
    history.touch(0);
    // Ticks at or after the end are always considered to have an arbitrary number of trailing empties
    assert_eq!(64, history.empty_after(0));
    assert_eq!(64, history.empty_after(1));

    history.write(3, A(1));
    assert_eq!(2, history.empty_after(0));
    assert_eq!(1, history.empty_after(1));
    assert_eq!(0, history.empty_after(2));
    for i in 3..=4 {
        assert_eq!(64, history.empty_after(i));
    }

    history.write(20, A(2));
    assert_eq!(1, history.empty_after(1));
    assert_eq!(16, history.empty_after(3));
    assert_eq!(1, history.empty_after(18));
    assert_eq!(0, history.empty_after(19));
    for i in 20..=21 {
        assert_eq!(64, history.empty_after(i));
    }

    history.mark_removed(25);
    assert_eq!(3, history.empty_after(21));
    assert_eq!(1, history.empty_after(23));
    assert_eq!(0, history.empty_after(24));
    for i in 25..=26 {
        assert_eq!(64, history.empty_after(i));
    }

    history.write(64, A(3));
    assert_eq!(37, history.empty_after(26));
    assert_eq!(1, history.empty_after(62));
    assert_eq!(0, history.empty_after(63));
    for i in 64..=65 {
        assert_eq!(64, history.empty_after(i));
    }

    // Index 0 has wrapped, and should count from the start which is now tick 1
    assert_eq!(1, history.empty_after(0));
    assert_eq!(1, history.empty_after(1));
}

#[test]
fn first_tick_is_oldest_fact() {
    let mut history = ComponentHistory::new(8);
    history.touch(10);
    assert_eq!(10, history.first_tick());
    history.mark_removed(12);
    history.write(14, A(1));
    assert_eq!(12, history.first_tick());
    history.write(11, A(2));
    assert_eq!(11, history.first_tick());
}

#[test]
fn skipped_tick_reads_missing() {
    let mut history = ComponentHistory::new(5);
    history.write(0, A(1));
    history.write(1, A(2));
    history.write(3, A(3));
    assert_eq!(Value(&A(1)), history.get(0));
    assert_eq!(Value(&A(2)), history.get(1));
    assert_eq!(Missing, history.get(2));
    assert_eq!(Value(&A(3)), history.get(3));
    assert_eq!(Missing, history.get(4));
}

#[test]
fn removed_fact_relocates_into_window() {
    let mut history = ComponentHistory::new(5);
    history.mark_removed(0);
    history.write(5, A(1));
    assert_eq!(Removed, history.get(1));
    assert_eq!(Value(&A(1)), history.get(5));
    for i in [0, 2, 3, 4] {
        assert_eq!(Missing, history.get(i));
    }
}

#[test]
fn clean_truncates_after_tick() {
    let mut history = ComponentHistory::new(5);
    for i in 0..=3 {
        history.write(i, A(i as u16 + 10));
    }
    history.clean(2);
    assert_eq!(3, history.len());
    assert_eq!(2, history.last_tick());
    for i in 0..=2 {
        assert_eq!(Value(&A(i as u16 + 10)), history.get(i));
    }
    assert_eq!(Missing, history.get(3));
}

#[test]
fn round_trip_in_tick_order() {
    let mut history = ComponentHistory::new(8);
    let ticks = [3u32, 4, 6, 9, 10];
    for (i, t) in ticks.iter().enumerate() {
        history.write(*t, A(i as u16));
    }
    for (i, t) in ticks.iter().enumerate() {
        assert_eq!(Value(&A(i as u16)), history.get(*t));
    }
    for t in [5u32, 7, 8] {
        assert_eq!(Missing, history.get(t));
    }
}

#[test]
fn out_of_order_converges() {
    let pairs = [(7u32, 1u16), (3, 2), (5, 3), (9, 4), (4, 5)];
    let mut sorted = pairs;
    sorted.sort();
    let mut a = ComponentHistory::new(8);
    for (t, v) in pairs {
        a.write(t, A(v));
    }
    let mut b = ComponentHistory::new(8);
    for (t, v) in sorted {
        b.write(t, A(v));
    }
    assert_eq!(a.len(), b.len());
    assert_eq!(a.last_tick(), b.last_tick());
    assert_eq!(a.mask(), b.mask());
    for t in 0..12 {
        assert_eq!(a.get(t), b.get(t));
    }
}

#[test]
fn wraparound_keeps_newest_capacity() {
    let mut history = ComponentHistory::new(4);
    for t in 0..7u32 {
        history.write(t, A(t as u16));
    }
    assert_eq!(4, history.len());
    for t in 0..3u32 {
        assert_eq!(Missing, history.get(t));
    }
    for t in 3..7u32 {
        assert_eq!(Value(&A(t as u16)), history.get(t));
    }
}

#[test]
fn gap_longer_than_window_keeps_first_value() {
    let mut history = ComponentHistory::new(6);
    history.write(0, A(1));
    history.write(7, A(2));
    assert_eq!(Value(&A(1)), history.get_latest(2));
    assert_eq!(Value(&A(1)), history.get(2));
    assert_eq!(Value(&A(2)), history.get_latest(7));
}

#[test]
fn removed_is_not_missing() {
    let mut history = ComponentHistory::<A>::new(5);
    history.mark_removed(5);
    assert_eq!(Removed, history.get(5));
    assert_eq!(Missing, history.get(6));
}

#[test]
fn marking_removed_drops_the_value() {
    let mut history = ComponentHistory::new(5);
    history.write(1, A(1));
    history.write(2, A(2));
    history.mark_removed(1);
    assert_eq!(Removed, history.get(1));
    assert_eq!(1, history.stored_items());
    history.write(1, A(3));
    assert_eq!(Value(&A(3)), history.get(1));
    assert_eq!(0, history.removed_mask());
}

#[test]
fn too_old_write_is_ignored() {
    let mut history = ComponentHistory::new(3);
    history.write(10, A(1));
    history.write(7, A(2));
    assert_eq!(1, history.len());
    assert_eq!(Missing, history.get(7));
    history.write(8, A(3));
    assert_eq!(3, history.len());
    assert_eq!(Value(&A(3)), history.get(8));
}

#[derive(Clone, Debug, Default)]
pub struct Drops {
    pub present: HashSet<u16>,
    pub order: Vec<u16>,
}

#[derive(Clone, Debug, Default)]
pub struct DropList(Arc<RwLock<Drops>>);

#[derive(Debug)]
pub struct D(pub u16, DropList);

impl Drop for D {
    fn drop(&mut self) {
        let mut guard = self.1 .0.write().unwrap();
        if guard.present.contains(&self.0) {
            panic!("Detected double drop!");
        }
        guard.present.insert(self.0);
        guard.order.push(self.0);
    }
}

#[test]
fn every_value_dropped_exactly_once() {
    let drops = DropList::default();
    let mut history = ComponentHistory::new(4);
    let mut next: u16 = 0;
    let mut d = |drops: &DropList| {
        next += 1;
        D(next, drops.clone())
    };
    // Appends that wrap
    for t in 0..6u32 {
        history.write(t, d(&drops));
    }
    // Replacing a stored value
    history.write(4, d(&drops));
    // A removal over a stored value
    history.mark_removed(3);
    // A gap that clears the window
    history.write(20, d(&drops));
    // Truncation
    history.clean(19);
    let dropped = drops.0.read().unwrap().order.len();
    let kept = history.stored_items();
    assert_eq!(8, dropped + kept);
    drop(history);
    let guard = drops.0.read().unwrap();
    assert_eq!(8, guard.order.len());
    assert_eq!(8, guard.present.len());
}
