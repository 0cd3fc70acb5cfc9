use rewind::component_history::TickData;
use rewind::entity_history::EntityHistory;
use rewind::frames::RollbackFrames;
use rewind::layout::{array_layout, padding_needed_for, repeat_layout, ItemLayout};

#[derive(Clone, PartialEq, Eq, Debug)]
pub struct A(pub u16);

#[test]
fn histories_are_created_on_first_write() {
    let mut entity = EntityHistory::new();
    assert_eq!(0, entity.len());
    assert_eq!(TickData::Missing, entity.get(3, 0));

    entity.write(3, 10, A(1), 5);
    // No history to mark
    assert!(!entity.mark_removed(7, 11));
    assert_eq!(1, entity.len());
    entity.write(7, 9, A(2), 5);
    assert!(entity.mark_removed(7, 11));
    assert_eq!(2, entity.len());
    assert_eq!(TickData::Value(&A(1)), entity.get(3, 10));
    assert_eq!(TickData::Removed, entity.get(7, 11));
    assert_eq!(TickData::Missing, entity.get(7, 10));
    assert_eq!(TickData::Value(&A(2)), entity.get(7, 9));
    assert_eq!(5, entity.history(3).unwrap().capacity());
    assert!(entity.history(4).is_none());
}

#[test]
fn entity_history_latest_clean_and_keep() {
    let mut entity = EntityHistory::new();
    entity.write(1, 0, A(1), 6);
    entity.write(1, 3, A(2), 6);
    assert!(entity.mark_removed(1, 4));
    assert_eq!(TickData::Value(&A(1)), entity.get_latest(1, 2));
    assert_eq!(TickData::Removed, entity.get_latest(1, 9));

    entity.clean(1, 3);
    assert_eq!(TickData::Value(&A(2)), entity.get_latest(1, 9));

    entity.keep_first_item(1);
    assert_eq!(1, entity.history(1).unwrap().len());
    assert_eq!(TickData::Value(&A(1)), entity.get(1, 0));

    // Without a history nothing happens
    entity.clean(2, 0);
    entity.keep_first_item(2);
    assert_eq!(1, entity.len());
}

#[test]
fn rollback_frames_size_histories() {
    let frames = RollbackFrames::new(5);
    assert_eq!(5, frames.max_frames());
    assert_eq!(7, frames.history_size());
    assert_eq!(7, frames.history_capacity());

    let capped = RollbackFrames::new(200);
    assert_eq!(60, capped.max_frames());
    assert_eq!(62, capped.history_size());

    assert_eq!(15, RollbackFrames::default().max_frames());
}

#[test]
fn layout_padding() {
    let l = ItemLayout::of::<(u8, u32)>();
    assert_eq!(8, l.size());
    assert_eq!(4, l.align());
    assert_eq!(0, padding_needed_for(&l, 4));
    assert_eq!(0, padding_needed_for(&l, 8));
    assert_eq!(8, padding_needed_for(&l, 16));

    let b = ItemLayout::of::<[u8; 3]>();
    assert_eq!(1, padding_needed_for(&b, 4));
    assert_eq!(5, padding_needed_for(&b, 8));
}

#[test]
fn layout_arrays() {
    let l = ItemLayout::of::<u16>();
    let a = array_layout(&l, 5).unwrap();
    assert_eq!(10, a.size());
    assert_eq!(2, a.align());

    let (r, stride) = repeat_layout(&l, 3).unwrap();
    assert_eq!(6, r.size());
    assert_eq!(2, stride);

    let zero = array_layout(&l, 0).unwrap();
    assert_eq!(0, zero.size());

    assert!(array_layout(&l, usize::MAX).is_none());
    assert!(array_layout(&ItemLayout::of::<u64>(), usize::MAX / 8).is_none());
}
