use rewind::sparse_blob_deque::SparseBlobDeque;
use std::collections::HashSet;
use std::sync::{Arc, RwLock};

#[derive(Clone, PartialEq, Eq, Debug)]
pub struct A(pub u16);

#[derive(Clone, Debug, Default)]
pub struct Drops {
    pub present: HashSet<u16>,
    pub order: Vec<u16>,
}

#[derive(Clone, Debug, Default)]
pub struct DropList(Arc<RwLock<Drops>>);

pub fn assert_drops(drops: &DropList, order: impl Into<Vec<u16>>) {
    let order = order.into();
    let guard = drops.0.read().unwrap();
    assert_eq!(order, guard.order);
    assert_eq!(order.len(), guard.present.len());
}

#[derive(Debug)]
pub struct D(pub u16, DropList);

impl D {
    pub fn new(v: u16, list: &DropList) -> Self {
        Self(v, list.clone())
    }
}

impl Drop for D {
    fn drop(&mut self) {
        let mut guard = self.1 .0.write().unwrap();
        if guard.present.contains(&self.0) {
            panic!("Detected double drop!");
        }
        guard.present.insert(self.0);
        guard.order.push(self.0);
    }
}

#[test]
fn sparse_blob_deque_get() {
    let mut history = SparseBlobDeque::new(5);
    assert_eq!(None::<&A>, history.get(0));

    for i in 0..3 {
        if i % 2 == 0 {
            history.append(Some(A(i * 5)));
        } else {
            history.append(None);
        }
    }
    history.append(Some(A(3)));

    for (i, a) in [Some(&A(0)), None, Some(&A(10)), Some(&A(3)), None]
        .into_iter()
        .enumerate()
    {
        assert_eq!(a, history.get(i));
    }
}

#[test]
fn append_full() {
    let mut history = SparseBlobDeque::new(5);

    for i in 0..5 {
        history.append(Some(A(i + 1)));
    }

    assert_eq!(5, history.len());
    assert_eq!(5, history.stored_items());
    for i in 0..5 {
        assert_eq!(Some(&A(i as u16 + 1)), history.get(i));
    }

    history.append(Some(A(6)));
    assert_eq!(5, history.len());
    assert_eq!(5, history.stored_items());
    for i in 0..5 {
        assert_eq!(Some(&A(i as u16 + 2)), history.get(i));
    }
}

#[test]
fn dense_storage() {
    let mut history = SparseBlobDeque::new(10);
    assert_eq!(None::<&A>, history.get(0));
    assert_eq!(1, history.storage_capacity());

    for _ in 0..5 {
        history.append(None);
    }

    // None items shouldn't add capacity
    assert_eq!(5, history.len());
    assert_eq!(1, history.storage_capacity());

    history.append(Some(A(1)));
    // We shouldn't need to expand yet
    assert_eq!(1, history.stored_items());
    assert_eq!(1, history.storage_capacity());

    history.append(Some(A(2)));
    // Expand to fit just the new item
    assert_eq!(2, history.stored_items());
    assert_eq!(2, history.storage_capacity());

    for _ in 0..10 {
        history.append(None);
    }

    // We don't release memory if the items are wrapped out of history
    assert_eq!(0, history.stored_items());
    assert_eq!(2, history.storage_capacity());

    for i in 0..10 {
        history.append(Some(A(i)));
    }

    // We should never make it exceed our own capacity
    assert_eq!(10, history.stored_items());
    assert_eq!(10, history.storage_capacity());
}

#[test]
fn append_get_max_mask() {
    let mut history = SparseBlobDeque::new(64);
    assert_eq!(None::<&A>, history.get(0));

    for i in 0..(64 + 24) {
        if i % 2 == 0 {
            history.append(Some(A(i)));
        } else {
            history.append(None);
        }
    }

    assert_eq!(64, history.len());

    for i in 0..64 {
        let a = history.get(i);
        if i % 2 == 0 {
            assert_eq!(Some(&A(i as u16 + 24)), a);
        } else {
            assert_eq!(None, a);
        }
    }
}

#[test]
fn append_sparse_wrap_drops_items() {
    let mut history = SparseBlobDeque::new(5);
    let drops = DropList::default();

    for i in 0..6 {
        if i % 2 == 0 {
            history.append(Some(D::new(i, &drops)));
        } else {
            history.append(None);
        }
    }

    assert_eq!(5, history.len());
    assert_eq!(2, history.stored_items());
    assert_drops(&drops, [0]);

    for i in [0, 2, 4, 5] {
        assert!(history.get(i).is_none());
    }
    for i in [1, 3] {
        assert_eq!(Some(i as u16 + 1), history.get(i).map(|v| v.0));
    }

    drop(history);
    assert_drops(&drops, [0, 2, 4]);
}

#[test]
fn append_dense_wrap_drops_items_full() {
    let mut history = SparseBlobDeque::new(5);
    assert!(history.get(0).is_none());
    let drops = DropList::default();

    for i in 0..5 {
        history.append(Some(D::new(i + 1, &drops)));
    }

    assert_eq!(5, history.len());
    assert_eq!(5, history.stored_items());
    assert_drops(&drops, []);

    history.append(Some(D::new(6, &drops)));
    assert_eq!(5, history.len());
    assert_eq!(5, history.stored_items());
    assert_drops(&drops, [1]);

    drop(history);
    // The storage drops slot by slot: 6 took the slot that 1 left
    assert_drops(&drops, [1, 6, 2, 3, 4, 5]);
}

#[test]
fn extend_front() {
    let mut history = SparseBlobDeque::new(5);

    history.append(Some(A(1)));
    assert_eq!(1, history.len());
    assert_eq!(Some(&A(1)), history.get(0));

    history.extend_front(2);
    assert_eq!(3, history.len());
    for i in 0..2 {
        assert_eq!(None, history.get(i));
    }
    assert_eq!(Some(&A(1)), history.get(2));

    history.extend_front(7);
    assert_eq!(5, history.len());
    for i in 0..4 {
        assert_eq!(None, history.get(i));
    }
    assert_eq!(Some(&A(1)), history.get(4));
}

#[test]
fn extend_back() {
    let mut history = SparseBlobDeque::new(5);

    history.append(Some(A(1)));
    assert_eq!(1, history.len());

    // Extend the back without needing to remove anything
    history.extend_back(2);
    assert_eq!(3, history.len());
    assert_eq!(Some(&A(1)), history.get(0));
    for i in 1..4 {
        assert_eq!(None, history.get(i));
    }

    history.append(Some(A(2)));
    history.append(Some(A(3)));
    assert_eq!(5, history.len());
    assert_eq!(3, history.stored_items());

    // Wrap items out of history with empty items
    history.extend_back(4);
    assert_eq!(5, history.len());
    assert_eq!(1, history.stored_items());
    assert_eq!(Some(&A(3)), history.get(0));
    for i in 1..6 {
        assert_eq!(None, history.get(i));
    }

    // Wrap more than full capacity
    history.extend_back(7);
    assert_eq!(5, history.len());
    assert_eq!(0, history.stored_items());
    for i in 0..6 {
        assert_eq!(None, history.get(i));
    }
}

#[test]
fn trim_back() {
    let mut history = SparseBlobDeque::new(5);

    for i in 1..=5 {
        history.append(Some(A(i)));
    }
    assert_eq!(5, history.len());

    history.trim_back(1);
    assert_eq!(4, history.len());
    for (i, v) in (1..=4).enumerate() {
        assert_eq!(Some(&A(v)), history.get(i));
    }
    assert_eq!(None, history.get(4));

    history.trim_back(2);
    assert_eq!(2, history.len());
    for (i, v) in (1..=2).enumerate() {
        assert_eq!(Some(&A(v)), history.get(i));
    }
    assert_eq!(None, history.get(3));

    history.extend_back(2);
    assert_eq!(4, history.len());
    for (i, v) in (1..=2).enumerate() {
        assert_eq!(Some(&A(v)), history.get(i));
    }
    for i in 3..5 {
        assert_eq!(None, history.get(i));
    }

    history.trim_back(1);
    assert_eq!(3, history.len());
    for (i, v) in (1..=2).enumerate() {
        assert_eq!(Some(&A(v)), history.get(i));
    }

    history.trim_back(6);
    assert_eq!(0, history.len());
    for i in 0..6 {
        assert_eq!(None, history.get(i));
    }
}

#[test]
fn replace() {
    let mut history = SparseBlobDeque::new(5);

    for i in 1..=3 {
        history.append(Some(A(i)));
    }

    assert_eq!(3, history.len());
    assert_eq!(3, history.stored_items());

    history.replace(1, A(5));
    for (i, v) in [1, 5, 3].into_iter().enumerate() {
        assert_eq!(Some(&A(v)), history.get(i));
    }

    history.replace(2, A(6));
    for (i, v) in [1, 5, 6].into_iter().enumerate() {
        assert_eq!(Some(&A(v)), history.get(i));
    }

    history.replace(0, A(4));
    for (i, v) in (4..=6).enumerate() {
        assert_eq!(Some(&A(v)), history.get(i));
    }
}

#[test]
fn replace_empty() {
    let mut history = SparseBlobDeque::new(5);

    for _ in 0..3 {
        history.append(None);
    }

    assert_eq!(3, history.len());
    assert_eq!(0, history.stored_items());

    history.replace(1, A(2));
    assert_eq!(Some(&A(2)), history.get(1));
    assert_eq!(None, history.get(0));
    assert_eq!(None, history.get(2));

    history.replace(2, A(3));
    assert_eq!(Some(&A(3)), history.get(2));
    assert_eq!(None, history.get(0));

    history.replace(0, A(1));

    for i in 0..3 {
        assert_eq!(Some(&A(i as u16 + 1)), history.get(i));
    }
}

#[test]
fn replace_drops_the_displaced_item_once() {
    let drops = DropList::default();
    let mut history = SparseBlobDeque::new(4);
    history.append(Some(D::new(1, &drops)));
    history.append(None);
    history.replace(0, D::new(2, &drops));
    assert_drops(&drops, [1]);
    history.replace(1, D::new(3, &drops));
    assert_drops(&drops, [1]);
    assert_eq!(2, history.stored_items());
    drop(history);
    assert_drops(&drops, [1, 2, 3]);
}

#[test]
fn take_and_relocate() {
    let mut history = SparseBlobDeque::new(5);
    history.append(Some(A(1)));
    history.append(None);
    history.append(Some(A(3)));
    history.append(None);

    assert_eq!(0b1010, history.mask());
    assert_eq!(Some(A(3)), history.take(2));
    assert_eq!(None, history.take(2));
    assert_eq!(0b1000, history.mask());

    history.relocate(0, 2);
    assert_eq!(None, history.get(0));
    assert_eq!(Some(&A(1)), history.get(2));
    assert_eq!(0b0010, history.mask());
    assert_eq!(1, history.stored_items());

    history.clear();
    assert!(history.is_empty());
    assert_eq!(5, history.capacity());
}
