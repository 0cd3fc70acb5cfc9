//! A fixed-capacity ring buffer that owns its items.
use vstd::prelude::*;
use crate::layout::{array_layout, ItemLayout};

verus! {

/// A ring buffer of at most `capacity` items (1 to 255).
///
/// Logical index `i` lives in slot `(start + i) mod capacity`. Appending to a full
/// buffer evicts (and drops) the oldest item. Every item is owned by exactly one slot,
/// so each one is dropped exactly once: when it is evicted, removed, replaced, truncated
/// away, or when the buffer itself is dropped.
#[derive(Debug)]
pub struct BlobDeque<T> {
    slots: Vec<Option<T>>,
    capacity: u8,
    len: u8,
    start: u8,
}

impl<T> BlobDeque<T> {
    /// The slot that holds logical index `i`.
    pub closed spec fn phys(&self, i: int) -> int {
        if self.start as int + i < self.capacity as int {
            self.start as int + i
        } else {
            self.start as int + i - self.capacity as int
        }
    }

    pub closed spec fn wf(&self) -> bool {
        &&& self.capacity >= 1
        &&& self.slots@.len() == self.capacity as int
        &&& self.len <= self.capacity
        &&& self.start < self.capacity
        &&& forall|i: int| 0 <= i < self.len ==> (#[trigger] self.slots@[self.phys(i)]) is Some
        &&& forall|i: int|
            self.len <= i < self.capacity ==> (#[trigger] self.slots@[self.phys(i)]) is None
    }

    /// The items, oldest first.
    pub closed spec fn view(&self) -> Seq<T> {
        Seq::new(self.len as nat, |i: int| self.slots@[self.phys(i)]->Some_0)
    }

    pub closed spec fn spec_capacity(&self) -> nat {
        self.capacity as nat
    }

    pub closed spec fn spec_start(&self) -> nat {
        self.start as nat
    }

    proof fn lemma_phys(&self)
        requires
            self.capacity >= 1,
            self.start < self.capacity,
        ensures
            forall|i: int|
                0 <= i < self.capacity ==> 0 <= #[trigger] self.phys(i) < self.capacity,
            forall|i: int, j: int|
                0 <= i < self.capacity && 0 <= j < self.capacity && i != j ==> #[trigger] self.phys(
                    i,
                ) != #[trigger] self.phys(j),
    {
    }

    fn phys_index(&self, i: usize) -> (r: usize)
        requires
            self.capacity >= 1,
            self.start < self.capacity,
            i < self.capacity,
        ensures
            r as int == self.phys(i as int),
            r < self.capacity,
    {
        let p = self.start as usize + i;
        if p < self.capacity as usize {
            p
        } else {
            p - self.capacity as usize
        }
    }

    /// An empty buffer with room for `capacity` items.
    pub fn new(capacity: u8) -> (r: Self)
        requires
            capacity >= 1,
        ensures
            r.wf(),
            r@ == Seq::<T>::empty(),
            r.spec_capacity() == capacity,
            r.spec_start() == 0,
    {
        let mut slots: Vec<Option<T>> = Vec::new();
        let mut k: usize = 0;
        while k < capacity as usize
            invariant
                k <= capacity,
                slots@.len() == k,
                forall|j: int| 0 <= j < k ==> (#[trigger] slots@[j]) is None,
            decreases capacity - k,
        {
            slots.push(None);
            k += 1;
        }
        let r = BlobDeque { slots, capacity, len: 0, start: 0 };
        assert(r@ =~= Seq::<T>::empty());
        r
    }

    /// The number of items.
    pub fn len(&self) -> (r: usize)
        requires
            self.wf(),
        ensures
            r == self@.len(),
    {
        self.len as usize
    }

    /// Whether the buffer holds no items.
    pub fn is_empty(&self) -> (r: bool)
        requires
            self.wf(),
        ensures
            r == (self@.len() == 0),
    {
        self.len == 0
    }

    /// The most items the buffer can hold.
    pub fn capacity(&self) -> (r: usize)
        ensures
            r == self.spec_capacity(),
    {
        self.capacity as usize
    }

    /// The slot that holds the oldest item.
    pub fn start(&self) -> (r: usize)
        ensures
            r == self.spec_start(),
    {
        self.start as usize
    }

    /// The layout of the storage of all slots, items padded to their alignment.
    pub fn allocation_layout(&self) -> (r: Option<ItemLayout>)
        ensures
            ({
                let size = vstd::layout::size_of::<T>() as int;
                let align = vstd::layout::align_of::<T>() as int;
                let stride = size + crate::layout::padding_spec(size, align);
                &&& r is Some <==> stride * self.spec_capacity() <= crate::layout::max_size_for(
                    align as usize,
                )
                &&& r matches Some(l) ==> l.spec_size() == stride * self.spec_capacity()
            }),
    {
        array_layout(&ItemLayout::of::<T>(), self.capacity as usize)
    }

    /// Places the (empty) ring so that its first item will go into slot `start`.
    pub fn set_start(&mut self, start: u8)
        requires
            old(self).wf(),
            old(self)@.len() == 0,
            start < old(self).spec_capacity(),
        ensures
            final(self).wf(),
            final(self)@ == Seq::<T>::empty(),
            final(self).spec_capacity() == old(self).spec_capacity(),
            final(self).spec_start() == start,
    {
        proof {
            self.lemma_phys();
            assert forall|j: int| 0 <= j < self.capacity implies self.slots@[j] is None by {
                let i = if j >= self.start { j - self.start } else { j + self.capacity - self.start };
                assert(self.phys(i) == j);
            }
        }
        self.start = start;
        assert(self@ =~= Seq::<T>::empty());
    }

    /// The item at logical index `index`, if there is one.
    pub fn get(&self, index: usize) -> (r: Option<&T>)
        requires
            self.wf(),
        ensures
            index < self@.len() ==> r == Some(&self@[index as int]),
            index >= self@.len() ==> r is None,
    {
        if index >= self.len as usize {
            return None;
        }
        let p = self.phys_index(index);
        self.slots[p].as_ref()
    }

    /// The item at logical index `index`, to change in place. A zero-sized item has
    /// nothing to change: `None` for those too.
    pub fn get_mut(&mut self, index: usize) -> (r: Option<&mut T>)
        requires
            old(self).wf(),
        ensures
            final(self).wf(),
            final(self).spec_capacity() == old(self).spec_capacity(),
            final(self).spec_start() == old(self).spec_start(),
            (index >= old(self)@.len() || vstd::layout::size_of::<T>() == 0) ==> r is None
                && final(self)@ == old(self)@,
            (index < old(self)@.len() && vstd::layout::size_of::<T>() != 0) ==> r is Some && *r.unwrap()
                == old(self)@[index as int] && final(self)@ == old(self)@.update(
                index as int,
                *final(r.unwrap()),
            ),
    {
        if core::mem::size_of::<T>() == 0 || index >= self.len as usize {
            return None;
        }
        proof {
            self.lemma_phys();
        }
        let p = self.phys_index(index);
        proof {
            self.lemma_slot_update(index as int, p as int);
        }
        self.slots[p].as_mut()
    }

    /// Changing the item in the slot of `index` changes only that item.
    proof fn lemma_slot_update(&self, index: int, p: int)
        requires
            self.wf(),
            0 <= index < self.len,
            p == self.phys(index),
        ensures
            forall|b: Self|
                b.capacity == self.capacity && b.len == self.len && b.start == self.start && (
                #[trigger] b.slots@) == self.slots@.update(p, b.slots@[p]) && b.slots@[p] is Some
                    ==> b.wf() && b@ == self@.update(index, b.slots@[p]->Some_0),
    {
        self.lemma_phys();
        assert forall|b: Self|
            b.capacity == self.capacity && b.len == self.len && b.start == self.start && (
            #[trigger] b.slots@) == self.slots@.update(p, b.slots@[p]) && b.slots@[p] is Some
            implies b.wf() && b@ == self@.update(index, b.slots@[p]->Some_0) by {
            assert forall|i: int| 0 <= i < b.len implies (#[trigger] b.slots@[b.phys(i)]) is Some by {
                if i != index {
                    assert(self.phys(i) != p);
                }
            }
            assert forall|i: int| b.len <= i < b.capacity implies (#[trigger] b.slots@[b.phys(i)]) is None by {
                assert(self.phys(i) != p);
            }
            assert(b@ =~= self@.update(index, b.slots@[p]->Some_0)) by {
                assert forall|i: int| 0 <= i < b.len && i != index implies b@[i] == self@[i] by {
                    assert(self.phys(i) != p);
                }
            }
        }
    }

    /// Drops the oldest item; does nothing when empty.
    pub fn drop_front(&mut self)
        requires
            old(self).wf(),
        ensures
            final(self).wf(),
            final(self)@ == if old(self)@.len() == 0 {
                old(self)@
            } else {
                old(self)@.drop_first()
            },
            final(self).spec_capacity() == old(self).spec_capacity(),
    {
        if self.len == 0 {
            return;
        }
        self.take_front();
    }

    /// Removes the oldest item and hands it back.
    fn take_front(&mut self) -> (r: T)
        requires
            old(self).wf(),
            old(self)@.len() > 0,
        ensures
            final(self).wf(),
            final(self)@ == old(self)@.drop_first(),
            r == old(self)@[0],
            final(self).spec_capacity() == old(self).spec_capacity(),
    {
        let ghost old_self = *self;
        proof {
            self.lemma_phys();
        }
        let p = self.start as usize;
        assert(self.phys(0) == p);
        let item = self.slots[p].take();
        self.start = if self.start + 1 == self.capacity {
            0
        } else {
            self.start + 1
        };
        self.len = self.len - 1;
        proof {
            assert forall|i: int| 0 <= i < self.capacity implies self.phys(i) == if i + 1
                < self.capacity {
                old_self.phys(i + 1)
            } else {
                p as int
            } by {}
            assert forall|i: int| 0 <= i < self.len implies (#[trigger] self.slots@[self.phys(
                i,
            )]) is Some by {
                assert(old_self.slots@[old_self.phys(i + 1)] is Some);
            }
            assert forall|i: int|
                self.len <= i < self.capacity implies (#[trigger] self.slots@[self.phys(
                i,
            )]) is None by {
                if i + 1 < self.capacity {
                    assert(old_self.slots@[old_self.phys(i + 1)] is None);
                }
            }
            assert(self@ =~= old_self@.drop_first()) by {
                assert forall|i: int| 0 <= i < self.len implies self@[i] == old_self@.drop_first()[i] by {
                    assert(old_self.phys(i + 1) != p);
                }
            }
        }
        item.unwrap()
    }

    /// Drops the newest item; does nothing when empty.
    pub fn drop_back(&mut self)
        requires
            old(self).wf(),
        ensures
            final(self).wf(),
            final(self)@ == if old(self)@.len() == 0 {
                old(self)@
            } else {
                old(self)@.drop_last()
            },
            final(self).spec_capacity() == old(self).spec_capacity(),
    {
        if self.len == 0 {
            return;
        }
        let ghost old_self = *self;
        proof {
            self.lemma_phys();
        }
        let p = self.phys_index(self.len as usize - 1);
        self.slots[p] = None;
        self.len = self.len - 1;
        proof {
            assert forall|i: int| 0 <= i < self.len implies (#[trigger] self.slots@[self.phys(
                i,
            )]) is Some by {
                assert(old_self.phys(i) != p);
            }
            assert forall|i: int|
                self.len <= i < self.capacity implies (#[trigger] self.slots@[self.phys(
                i,
            )]) is None by {
                if i != self.len {
                    assert(old_self.phys(i) != p);
                }
            }
            assert(self@ =~= old_self@.drop_last()) by {
                assert forall|i: int| 0 <= i < self.len implies self@[i] == old_self@.drop_last()[i] by {
                    assert(old_self.phys(i) != p);
                }
            }
        }
    }

    /// Puts `value` after the newest item. A full buffer first drops its oldest item.
    pub fn append(&mut self, value: T)
        requires
            old(self).wf(),
        ensures
            final(self).wf(),
            final(self)@ == if old(self)@.len() == old(self).spec_capacity() {
                old(self)@.drop_first().push(value)
            } else {
                old(self)@.push(value)
            },
            final(self).spec_capacity() == old(self).spec_capacity(),
    {
        if self.len == self.capacity {
            self.drop_front();
        }
        self.push_back(value);
    }

    fn push_back(&mut self, value: T)
        requires
            old(self).wf(),
            old(self)@.len() < old(self).spec_capacity(),
        ensures
            final(self).wf(),
            final(self)@ == old(self)@.push(value),
            final(self).spec_capacity() == old(self).spec_capacity(),
            final(self).spec_start() == old(self).spec_start(),
    {
        let ghost old_self = *self;
        proof {
            self.lemma_phys();
        }
        let p = self.phys_index(self.len as usize);
        self.slots[p] = Some(value);
        self.len = self.len + 1;
        proof {
            assert forall|i: int| 0 <= i < self.len implies (#[trigger] self.slots@[self.phys(
                i,
            )]) is Some by {
                if i != old_self.len {
                    assert(old_self.phys(i) != p);
                }
            }
            assert forall|i: int|
                self.len <= i < self.capacity implies (#[trigger] self.slots@[self.phys(
                i,
            )]) is None by {
                assert(old_self.phys(i) != p);
            }
            assert(self@ =~= old_self@.push(value)) by {
                assert forall|i: int| 0 <= i < old_self.len implies self@[i] == old_self@[i] by {
                    assert(old_self.phys(i) != p);
                }
            }
        }
    }

    /// Inserts `value` at logical position `at`, shifting the newer items back by one.
    ///
    /// Fails, changing nothing, when the buffer is full or `at` is past the newest item.
    #[must_use]
    pub fn insert(&mut self, at: usize, value: T) -> (r: Option<()>)
        requires
            old(self).wf(),
        ensures
            final(self).wf(),
            final(self).spec_capacity() == old(self).spec_capacity(),
            r is None <==> (old(self)@.len() == old(self).spec_capacity() || at > old(
                self,
            )@.len()),
            r is None ==> final(self)@ == old(self)@,
            r is Some ==> final(self)@ == old(self)@.insert(at as int, value),
    {
        if self.len == self.capacity || at > self.len as usize {
            return None;
        }
        if at == 0 {
            self.push_front(value);
            assert(self@ =~= old(self)@.insert(0, value));
            return Some(());
        }
        let ghost old_view = self@;
        let n = self.len as usize;
        self.push_back(value);
        let mut k: usize = n;
        while k > at
            invariant
                self.wf(),
                self.spec_capacity() == old(self).spec_capacity(),
                self@.len() == n + 1,
                at <= k <= n,
                old_view.len() == n,
                self@ =~= old_view.subrange(0, k as int).push(value) + old_view.subrange(
                    k as int,
                    n as int,
                ),
            decreases k,
        {
            self.swap_items(k - 1, k);
            k -= 1;
            assert(self@ =~= old_view.subrange(0, k as int).push(value) + old_view.subrange(
                k as int,
                n as int,
            ));
        }
        assert(self@ =~= old_view.insert(at as int, value));
        Some(())
    }

    fn push_front(&mut self, value: T)
        requires
            old(self).wf(),
            old(self)@.len() < old(self).spec_capacity(),
        ensures
            final(self).wf(),
            final(self)@ == seq![value] + old(self)@,
            final(self).spec_capacity() == old(self).spec_capacity(),
    {
        let ghost old_self = *self;
        proof {
            self.lemma_phys();
        }
        self.start = if self.start == 0 {
            self.capacity - 1
        } else {
            self.start - 1
        };
        let p = self.start as usize;
        assert(self.phys(0) == p);
        self.slots[p] = Some(value);
        self.len = self.len + 1;
        proof {
            assert forall|i: int| 1 <= i < self.capacity implies self.phys(i) == old_self.phys(
                i - 1,
            ) by {}
            assert(old_self.phys(self.capacity - 1) == p);
            assert forall|i: int| 0 <= i < self.len implies (#[trigger] self.slots@[self.phys(
                i,
            )]) is Some by {
                if i > 0 {
                    assert(old_self.slots@[old_self.phys(i - 1)] is Some);
                }
            }
            assert forall|i: int|
                self.len <= i < self.capacity implies (#[trigger] self.slots@[self.phys(
                i,
            )]) is None by {
                assert(old_self.slots@[old_self.phys(i - 1)] is None);
                assert(old_self.phys(i - 1) != p);
            }
            assert(self@ =~= seq![value] + old_self@) by {
                assert forall|i: int| 1 <= i < self.len implies self@[i] == old_self@[i - 1] by {
                    assert(old_self.phys(i - 1) != p);
                }
            }
        }
    }

    /// Exchanges the items at logical indices `a` and `b`.
    fn swap_items(&mut self, a: usize, b: usize)
        requires
            old(self).wf(),
            a < b < old(self)@.len(),
        ensures
            final(self).wf(),
            final(self)@ == old(self)@.update(a as int, old(self)@[b as int]).update(
                b as int,
                old(self)@[a as int],
            ),
            final(self).spec_capacity() == old(self).spec_capacity(),
    {
        let ghost old_self = *self;
        proof {
            self.lemma_phys();
        }
        let pa = self.phys_index(a);
        let pb = self.phys_index(b);
        let x = self.slots[pa].take();
        let y = self.slots[pb].take();
        self.slots[pa] = y;
        self.slots[pb] = x;
        proof {
            assert forall|i: int| 0 <= i < self.len implies (#[trigger] self.slots@[self.phys(
                i,
            )]) is Some by {
                if i != a && i != b {
                    assert(old_self.phys(i) != pa && old_self.phys(i) != pb);
                }
            }
            assert forall|i: int|
                self.len <= i < self.capacity implies (#[trigger] self.slots@[self.phys(
                i,
            )]) is None by {
                assert(old_self.phys(i) != pa && old_self.phys(i) != pb);
            }
            assert(self@ =~= old_self@.update(a as int, old_self@[b as int]).update(
                b as int,
                old_self@[a as int],
            )) by {
                assert forall|i: int| 0 <= i < self.len && i != a && i != b implies self@[i]
                    == old_self@[i] by {
                    assert(old_self.phys(i) != pa && old_self.phys(i) != pb);
                }
            }
        }
    }

    /// Takes out the item at logical position `at`, shifting the newer items forward by one.
    pub fn remove(&mut self, at: usize) -> (r: Option<T>)
        requires
            old(self).wf(),
        ensures
            final(self).wf(),
            final(self).spec_capacity() == old(self).spec_capacity(),
            at >= old(self)@.len() ==> r is None && final(self)@ == old(self)@,
            at < old(self)@.len() ==> r == Some(old(self)@[at as int]) && final(self)@ == old(
                self,
            )@.remove(at as int),
    {
        if at >= self.len as usize {
            return None;
        }
        let ghost old_view = self@;
        let n = self.len as usize;
        let mut k: usize = at;
        while k + 1 < n
            invariant
                self.wf(),
                self.spec_capacity() == old(self).spec_capacity(),
                self@.len() == n,
                old_view.len() == n,
                at <= k < n,
                self@ =~= old_view.subrange(0, at as int) + old_view.subrange(
                    at as int + 1,
                    k as int + 1,
                ).push(old_view[at as int]) + old_view.subrange(k as int + 1, n as int),
            decreases n - k,
        {
            self.swap_items(k, k + 1);
            k += 1;
            assert(self@ =~= old_view.subrange(0, at as int) + old_view.subrange(
                at as int + 1,
                k as int + 1,
            ).push(old_view[at as int]) + old_view.subrange(k as int + 1, n as int));
        }
        let item = self.take_back();
        assert(self@ =~= old_view.remove(at as int));
        Some(item)
    }

    fn take_back(&mut self) -> (r: T)
        requires
            old(self).wf(),
            old(self)@.len() > 0,
        ensures
            final(self).wf(),
            final(self)@ == old(self)@.drop_last(),
            r == old(self)@.last(),
            final(self).spec_capacity() == old(self).spec_capacity(),
    {
        let ghost old_self = *self;
        proof {
            self.lemma_phys();
        }
        let p = self.phys_index(self.len as usize - 1);
        let item = self.slots[p].take();
        self.len = self.len - 1;
        proof {
            assert forall|i: int| 0 <= i < self.len implies (#[trigger] self.slots@[self.phys(
                i,
            )]) is Some by {
                assert(old_self.phys(i) != p);
            }
            assert forall|i: int|
                self.len <= i < self.capacity implies (#[trigger] self.slots@[self.phys(
                i,
            )]) is None by {
                if i != self.len {
                    assert(old_self.phys(i) != p);
                }
            }
            assert(self@ =~= old_self@.drop_last()) by {
                assert forall|i: int| 0 <= i < self.len implies self@[i] == old_self@.drop_last()[i] by {
                    assert(old_self.phys(i) != p);
                }
            }
        }
        item.unwrap()
    }

    /// Puts `value` at logical index `index` and hands back the item it displaces.
    /// Out of range, nothing changes and `value` is dropped.
    pub fn replace(&mut self, index: usize, value: T) -> (r: Option<T>)
        requires
            old(self).wf(),
        ensures
            final(self).wf(),
            final(self).spec_capacity() == old(self).spec_capacity(),
            index >= old(self)@.len() ==> r is None && final(self)@ == old(self)@,
            index < old(self)@.len() ==> r == Some(old(self)@[index as int]) && final(self)@
                == old(self)@.update(index as int, value),
    {
        if index >= self.len as usize {
            return None;
        }
        let ghost old_self = *self;
        proof {
            self.lemma_phys();
        }
        let p = self.phys_index(index);
        let item = self.slots[p].take();
        self.slots[p] = Some(value);
        proof {
            assert forall|i: int| 0 <= i < self.len implies (#[trigger] self.slots@[self.phys(
                i,
            )]) is Some by {
                if i != index {
                    assert(old_self.phys(i) != p);
                }
            }
            assert forall|i: int|
                self.len <= i < self.capacity implies (#[trigger] self.slots@[self.phys(
                i,
            )]) is None by {
                assert(old_self.phys(i) != p);
            }
            assert(self@ =~= old_self@.update(index as int, value)) by {
                assert forall|i: int| 0 <= i < self.len && i != index implies self@[i]
                    == old_self@[i] by {
                    assert(old_self.phys(i) != p);
                }
            }
        }
        item
    }

    /// Drops every item; the capacity stays.
    pub fn clear(&mut self)
        requires
            old(self).wf(),
        ensures
            final(self).wf(),
            final(self)@ == Seq::<T>::empty(),
            final(self).spec_capacity() == old(self).spec_capacity(),
            final(self).spec_start() == 0,
    {
        while self.len > 0
            invariant
                self.wf(),
                self.spec_capacity() == old(self).spec_capacity(),
            decreases self@.len(),
        {
            self.drop_back();
        }
        self.set_start(0);
    }

    /// Changes the capacity to `capacity`, keeping the newest items that fit and dropping
    /// the older ones. Afterwards the oldest item sits in slot 0.
    pub fn resize(&mut self, capacity: u8)
        requires
            old(self).wf(),
            capacity >= 1,
        ensures
            final(self).wf(),
            final(self).spec_capacity() == capacity,
            final(self)@ == if old(self)@.len() > capacity {
                old(self)@.subrange(old(self)@.len() - capacity, old(self)@.len() as int)
            } else {
                old(self)@
            },
            capacity != old(self).spec_capacity() ==> final(self).spec_start() == 0,
    {
        if capacity == self.capacity {
            return;
        }
        let ghost old_view = self@;
        let mut lost: u8 = if self.len > capacity {
            self.len - capacity
        } else {
            0
        };
        while lost > 0
            invariant
                self.wf(),
                self.spec_capacity() == old(self).spec_capacity(),
                self@.len() == lost + (if old_view.len() > capacity {
                    capacity as int
                } else {
                    old_view.len() as int
                }),
                self@.len() <= old_view.len(),
                self@ == old_view.subrange(old_view.len() - self@.len(), old_view.len() as int),
            decreases lost,
        {
            self.drop_front();
            lost -= 1;
            assert(self@ =~= old_view.subrange(old_view.len() - self@.len(), old_view.len() as int));
        }
        let ghost kept = self@;
        let mut fresh = BlobDeque::<T>::new(capacity);
        while self.len > 0
            invariant
                self.wf(),
                fresh.wf(),
                fresh.spec_capacity() == capacity,
                fresh.spec_start() == 0,
                self@.len() + fresh@.len() == kept.len(),
                kept.len() <= capacity,
                kept =~= fresh@ + self@,
            decreases self@.len(),
        {
            let item = self.take_front();
            fresh.push_back(item);
        }
        *self = fresh;
    }
}

} // verus!
