//! A window of slots of which only the occupied ones use ring storage.
use vstd::prelude::*;
use crate::bits::{
    bit, count_ones_from, lemma_bit_and, lemma_bit_not, lemma_bit_or, lemma_bit_shl, lemma_bit_shr,
    lemma_bit_single, lemma_bit_zero, lemma_ones_differ_at,
    lemma_ones_ext, lemma_ones_le, lemma_ones_range, lemma_test_bit, lemma_set_clear, lemma_ones_shift, ones_from,
};
use crate::blob_deque::BlobDeque;

verus! {

/// The slots described by a presence mask over `len` slots and the stored items, oldest
/// first. Bit `len - 1 - i` of the mask tells whether slot `i` is occupied; its item is
/// the one after all items of older occupied slots.
pub open spec fn slots_of<T>(mask: u64, len: int, items: Seq<T>) -> Seq<Option<T>> {
    Seq::new(
        len as nat,
        |i: int|
            if bit(mask, len - 1 - i) {
                Some(items[ones_from(mask, len - i) as int])
            } else {
                None
            },
    )
}

/// `n` empty slots.
pub open spec fn empties<T>(n: nat) -> Seq<Option<T>> {
    Seq::new(n, |i: int| None::<T>)
}

/// The number of occupied slots.
pub open spec fn occupied<T>(s: Seq<Option<T>>) -> nat
    decreases s.len(),
{
    if s.len() == 0 {
        0
    } else {
        occupied(s.drop_last()) + if s.last() is Some {
            1nat
        } else {
            0nat
        }
    }
}

/// The storage capacity after one more item arrives: one slot more when `stored` items fill
/// all `storage` slots and the window's `capacity` allows it.
pub open spec fn grown(stored: nat, storage: nat, capacity: nat) -> nat {
    if stored == storage && storage < capacity {
        storage + 1
    } else {
        storage
    }
}

/// The last `c` elements of `t` (all of `t` when it is shorter).
pub open spec fn window<A>(t: Seq<A>, c: nat) -> Seq<A> {
    if t.len() > c {
        t.subrange(t.len() - c, t.len() as int)
    } else {
        t
    }
}

/// A window of up to `capacity` (1 to 64) slots, each empty or holding an item.
///
/// Slot 0 is the oldest. A 64-bit mask marks the occupied slots (the least significant
/// bit is the newest slot) and only their items are stored, in a [`BlobDeque`] that grows
/// one slot at a time, as items arrive, up to `capacity`.
#[derive(Debug)]
pub struct SparseBlobDeque<T> {
    mask: u64,
    len: u8,
    capacity: u8,
    items: BlobDeque<T>,
}

impl<T> SparseBlobDeque<T> {
    pub closed spec fn wf(&self) -> bool {
        &&& 1 <= self.capacity <= 64
        &&& self.len <= self.capacity
        &&& self.items.wf()
        &&& 1 <= self.items.spec_capacity() <= self.capacity
        &&& forall|q: int| self.len <= q < 64 ==> !bit(self.mask, q)
        &&& self.items@.len() == ones_from(self.mask, 0)
    }

    /// The slots, oldest first.
    pub closed spec fn view(&self) -> Seq<Option<T>> {
        slots_of(self.mask, self.len as int, self.items@)
    }

    pub closed spec fn spec_capacity(&self) -> nat {
        self.capacity as nat
    }

    pub closed spec fn spec_mask(&self) -> u64 {
        self.mask
    }

    /// How many item slots the storage has allocated.
    pub closed spec fn spec_storage_capacity(&self) -> nat {
        self.items.spec_capacity()
    }

    /// The mask marks exactly the occupied slots.
    pub proof fn lemma_mask(&self)
        requires
            self.wf(),
        ensures
            1 <= self.spec_capacity() <= 64,
            self@.len() <= self.spec_capacity(),
            forall|i: int|
                0 <= i < self@.len() ==> (#[trigger] self@[i] is Some <==> bit(
                    self.spec_mask(),
                    self@.len() - 1 - i,
                )),
            forall|q: int| self@.len() <= q < 64 ==> !bit(self.spec_mask(), q),
    {
    }

    /// An empty window of `capacity` slots.
    pub fn new(capacity: u8) -> (r: Self)
        requires
            1 <= capacity <= 64,
        ensures
            r.wf(),
            r@ == Seq::<Option<T>>::empty(),
            r.spec_capacity() == capacity,
            r.spec_storage_capacity() == 1,
    {
        let r = SparseBlobDeque { mask: 0, len: 0, capacity, items: BlobDeque::new(1) };
        proof {
            assert forall|q: int| 0 <= q < 64 implies !bit(0u64, q) by {
                lemma_bit_zero(q);
            }
            lemma_ones_ext(0u64, 0u64, 0);
            assert(ones_from(0u64, 0) == 0) by {
                lemma_ones_range(0u64, 0, 64);
            }
        }
        assert(r@ =~= Seq::<Option<T>>::empty());
        r
    }

    /// The number of slots, empty ones included.
    pub fn len(&self) -> (r: usize)
        requires
            self.wf(),
        ensures
            r == self@.len(),
    {
        self.len as usize
    }

    /// Whether the window has no slots at all.
    pub fn is_empty(&self) -> (r: bool)
        requires
            self.wf(),
        ensures
            r == (self@.len() == 0),
    {
        self.len == 0
    }

    /// The most slots the window can hold.
    pub fn capacity(&self) -> (r: usize)
        ensures
            r == self.spec_capacity(),
    {
        self.capacity as usize
    }

    /// The presence mask: bit `k` is set when slot `len - 1 - k` holds an item.
    pub fn mask(&self) -> (r: u64)
        ensures
            r == self.spec_mask(),
    {
        self.mask
    }

    /// How many item slots the storage has allocated.
    pub fn storage_capacity(&self) -> (r: usize)
        ensures
            r == self.spec_storage_capacity(),
    {
        self.items.capacity()
    }

    /// The number of stored items (occupied slots).
    pub fn stored_items(&self) -> (r: usize)
        requires
            self.wf(),
        ensures
            r == self.items_view().len(),
            r == occupied(self@),
    {
        proof {
            self.lemma_items();
        }
        self.items.len()
    }

    /// The stored items, oldest first.
    pub closed spec fn items_view(&self) -> Seq<T> {
        self.items@
    }

    /// There are as many stored items as occupied slots.
    proof fn lemma_items(&self)
        requires
            self.wf(),
        ensures
            self.items_view().len() == occupied(self@),
    {
        self.lemma_occupied(self.len as int);
        assert(self@.subrange(0, self.len as int) =~= self@);
    }

    proof fn lemma_occupied(&self, k: int)
        requires
            self.wf(),
            0 <= k <= self.len,
        ensures
            occupied(self@.subrange(0, k)) + ones_from(self.mask, 0) == ones_from(
                self.mask,
                self.len - k,
            ) + ones_from(self.mask, 0),
            occupied(self@.subrange(0, k)) == ones_from(self.mask, self.len - k),
        decreases k,
    {
        let l = self.len as int;
        if k == 0 {
            assert forall|r: int| l <= r < 64 implies !bit(self.mask, r) by {}
            lemma_ones_range(self.mask, l, 64);
        } else {
            self.lemma_occupied(k - 1);
            assert(self@.subrange(0, k).drop_last() =~= self@.subrange(0, k - 1));
        }
    }

    /// The item in slot `index`, if the slot exists and is occupied.
    pub fn get(&self, index: usize) -> (r: Option<&T>)
        requires
            self.wf(),
        ensures
            index < self@.len() && self@[index as int] is Some ==> r == Some(
                &self@[index as int]->Some_0,
            ),
            !(index < self@.len() && self@[index as int] is Some) ==> r is None,
    {
        if index >= self.len as usize {
            return None;
        }
        let p = self.len as u64 - 1 - index as u64;
        if (self.mask >> p) & 1 != 1 {
            return None;
        }
        let ones = count_ones_from(self.mask, p as u32);
        proof {
            lemma_ones_range(self.mask, 0, p as int);
        }
        self.items.get(ones as usize - 1)
    }

    /// Removes the oldest slot.
    fn evict_oldest(&mut self)
        requires
            old(self).wf(),
            old(self)@.len() > 0,
        ensures
            final(self).wf(),
            final(self)@ == old(self)@.drop_first(),
            final(self).spec_capacity() == old(self).spec_capacity(),
            final(self).spec_storage_capacity() == old(self).spec_storage_capacity(),
            final(self).items_view().len() == old(self).items_view().len() - (if old(self)@[0] is Some {
                1int
            } else {
                0int
            }),
    {
        let ghost m = self.mask;
        let ghost items = self.items@;
        let ghost l = self.len as int;
        let k = (self.len - 1) as u64;
        let index_bit = 1u64 << k;
        proof {
            lemma_test_bit(m, k);
        }
        if self.mask & index_bit != 0 {
            self.items.drop_front();
        }
        self.mask = self.mask & !index_bit;
        self.len = self.len - 1;
        proof {
            let m2 = self.mask;
            assert forall|q: int| 0 <= q < 64 implies bit(m2, q) == (q != k && bit(m, q)) by {
                lemma_bit_and(m, !index_bit, q);
                lemma_bit_not(index_bit, q);
                lemma_bit_single(k, q);
            }
            assert forall|p: int|
                0 <= p <= 64 implies ones_from(m2, p) + (if p <= k && bit(m, k as int) {
                1nat
            } else {
                0nat
            }) == ones_from(m, p) by {
                lemma_ones_differ_at(m2, m, k as int, p);
            }
            assert(self@ =~= slots_of(m, l, items).drop_first()) by {
                assert forall|i: int| 0 <= i < self.len implies self@[i] == slots_of(
                    m,
                    l,
                    items,
                )[i + 1] by {
                    assert(ones_from(m2, l - 1 - i) + (if bit(m, k as int) {
                        1nat
                    } else {
                        0nat
                    }) == ones_from(m, l - 1 - i));
                    assert(l - 2 - i != k);
                    assert(bit(m2, l - 2 - i) == bit(m, l - 2 - i));
                    if bit(m, l - 2 - i) {
                        lemma_ones_range(m, 0, l - 2 - i);
                    }
                }
            }
        }
    }

    /// Adds an empty newest slot.
    fn shift_in_empty(&mut self)
        requires
            old(self).wf(),
            old(self)@.len() < old(self).spec_capacity(),
        ensures
            final(self).wf(),
            final(self)@ == old(self)@.push(None),
            final(self).spec_capacity() == old(self).spec_capacity(),
            final(self).spec_storage_capacity() == old(self).spec_storage_capacity(),
            final(self).items_view() == old(self).items_view(),
    {
        let ghost m = self.mask;
        let ghost l = self.len as int;
        self.mask = self.mask << 1;
        self.len = self.len + 1;
        proof {
            let m2 = self.mask;
            assert forall|q: int| 0 <= q < 64 implies bit(m2, q) == (q >= 1 && bit(m, q - 1)) by {
                lemma_bit_shl(m, 1, q);
            }
            assert forall|p: int| 0 <= p <= 64 implies ones_from(m2, p + 1) == ones_from(m, p) by {
                lemma_ones_shift(m2, m, p, 1);
            }
            assert(ones_from(m2, 0) == ones_from(m2, 1));
            assert(self@ =~= slots_of(m, l, self.items@).push(None)) by {
                assert forall|i: int| 0 <= i < l implies self@[i] == slots_of(
                    m,
                    l,
                    self.items@,
                )[i] by {
                    assert(ones_from(m2, l + 1 - i) == ones_from(m, l - i));
                }
            }
        }
    }

    /// Stores `value` in the newest slot, which is empty.
    fn fill_newest(&mut self, value: T)
        requires
            old(self).wf(),
            old(self)@.len() > 0,
            old(self)@.last() is None,
        ensures
            final(self).wf(),
            final(self)@ == old(self)@.update(old(self)@.len() - 1, Some(value)),
            final(self).spec_capacity() == old(self).spec_capacity(),
            final(self).spec_storage_capacity() == grown(
                old(self).items_view().len(),
                old(self).spec_storage_capacity(),
                old(self).spec_capacity(),
            ),
    {
        let ghost m = self.mask;
        let ghost l = self.len as int;
        let ghost items = self.items@;
        proof {
            assert(!bit(m, 0));
            lemma_ones_le(m, 1, l);
            assert forall|r: int| l <= r < 64 implies !bit(m, r) by {}
            lemma_ones_range(m, l, 64);
        }
        if self.items.len() == self.items.capacity() && self.items.capacity() < self.capacity as usize {
            let c = self.items.capacity() as u8 + 1;
            self.items.resize(c);
        }
        self.items.append(value);
        self.mask = self.mask | 1;
        proof {
            let m2 = self.mask;
            assert forall|q: int| 0 <= q < 64 implies bit(m2, q) == (q == 0 || bit(m, q)) by {
                lemma_bit_or(m, 1, q);
                lemma_bit_single(0, q);
                assert(1u64 << 0u64 == 1u64) by (bit_vector);
            }
            assert forall|p: int| 1 <= p <= 64 implies ones_from(m2, p) == ones_from(m, p) by {
                lemma_ones_ext(m2, m, p);
            }
            assert(self@ =~= slots_of(m, l, items).update(l - 1, Some(value))) by {
                assert forall|i: int| 0 <= i < l - 1 implies self@[i] == slots_of(
                    m,
                    l,
                    items,
                )[i] by {
                    if bit(m, l - 1 - i) {
                        lemma_ones_range(m, 0, l - 1 - i);
                    }
                }
            }
        }
    }

    /// Adds a newest slot holding `value` (or empty for `None`). A full window first drops its
    /// oldest slot, and that slot's item.
    pub fn append(&mut self, value: Option<T>)
        requires
            old(self).wf(),
        ensures
            final(self).wf(),
            final(self)@ == (if old(self)@.len() == old(self).spec_capacity() {
                old(self)@.drop_first()
            } else {
                old(self)@
            }).push(value),
            final(self).spec_capacity() == old(self).spec_capacity(),
            final(self).spec_storage_capacity() == if value is Some {
                grown(
                    (old(self).items_view().len() - (if old(self)@.len() == old(self).spec_capacity()
                        && old(self)@[0] is Some {
                        1int
                    } else {
                        0int
                    })) as nat,
                    old(self).spec_storage_capacity(),
                    old(self).spec_capacity(),
                )
            } else {
                old(self).spec_storage_capacity()
            },
    {
        if self.len == self.capacity {
            self.evict_oldest();
        }
        self.shift_in_empty();
        match value {
            Some(v) => {
                let ghost before = self@;
                self.fill_newest(v);
                assert(self@ =~= before.drop_last().push(Some(v)));
            },
            None => {},
        }
    }

    /// Adds up to `n` empty slots before the oldest one, as many as the capacity allows.
    pub fn extend_front(&mut self, n: usize)
        requires
            old(self).wf(),
        ensures
            final(self).wf(),
            final(self)@ == empties::<T>(
                if n <= old(self).spec_capacity() - old(self)@.len() {
                    n as nat
                } else {
                    (old(self).spec_capacity() - old(self)@.len()) as nat
                },
            ) + old(self)@,
            final(self).spec_capacity() == old(self).spec_capacity(),
            final(self).spec_storage_capacity() == old(self).spec_storage_capacity(),
    {
        let ghost old_view = self@;
        let room = self.capacity - self.len;
        let k: u8 = if n < room as usize {
            n as u8
        } else {
            room
        };
        self.len = self.len + k;
        assert(self@ =~= empties::<T>(k as nat) + old_view);
    }

    /// Adds `n` empty newest slots; the oldest slots, and their items, leave as the capacity
    /// requires.
    pub fn extend_back(&mut self, n: usize)
        requires
            old(self).wf(),
        ensures
            final(self).wf(),
            final(self)@ == window(old(self)@ + empties::<T>(n as nat), old(self).spec_capacity()),
            final(self).spec_capacity() == old(self).spec_capacity(),
            final(self).spec_storage_capacity() == old(self).spec_storage_capacity(),
    {
        let ghost old_view = self@;
        let ghost cap = self.spec_capacity();
        if n >= self.capacity as usize {
            self.items.clear();
            self.mask = 0;
            self.len = self.capacity;
            proof {
                assert forall|q: int| 0 <= q < 64 implies !bit(0u64, q) by {
                    lemma_bit_zero(q);
                }
                lemma_ones_range(0u64, 0, 64);
                let t = old_view + empties::<T>(n as nat);
                assert(self@ =~= window(t, cap));
            }
            return;
        }
        let mut j: usize = 0;
        while j < n
            invariant
                self.wf(),
                j <= n,
                n < cap,
                self.spec_capacity() == cap,
                self.spec_storage_capacity() == old(self).spec_storage_capacity(),
                self@ == window(old_view + empties::<T>(j as nat), cap),
            decreases n - j,
        {
            let ghost before = self@;
            if self.len == self.capacity {
                self.evict_oldest();
            }
            self.shift_in_empty();
            j += 1;
            proof {
                let t0 = old_view + empties::<T>((j - 1) as nat);
                let t1 = old_view + empties::<T>(j as nat);
                assert(t1 =~= t0.push(None));
                assert(self@ =~= window(t1, cap));
            }
        }
    }

    /// Removes the newest slot.
    fn drop_newest(&mut self)
        requires
            old(self).wf(),
            old(self)@.len() > 0,
        ensures
            final(self).wf(),
            final(self)@ == old(self)@.drop_last(),
            final(self).spec_capacity() == old(self).spec_capacity(),
            final(self).spec_storage_capacity() == old(self).spec_storage_capacity(),
    {
        let ghost m = self.mask;
        let ghost l = self.len as int;
        let ghost items = self.items@;
        proof {
            lemma_test_bit(m, 0);
            assert(1u64 << 0u64 == 1u64) by (bit_vector);
        }
        if self.mask & 1 != 0 {
            self.items.drop_back();
        }
        self.mask = self.mask >> 1;
        self.len = self.len - 1;
        proof {
            let m2 = self.mask;
            assert forall|q: int| 0 <= q < 64 implies bit(m2, q) == bit(m, q + 1) by {
                lemma_bit_shr(m, 1, q);
            }
            assert forall|p: int| 0 <= p <= 64 implies ones_from(m, p + 1) == ones_from(m2, p) by {
                lemma_ones_shift(m, m2, p, 1);
            }
            assert(self@ =~= slots_of(m, l, items).drop_last()) by {
                assert forall|i: int| 0 <= i < l - 1 implies self@[i] == slots_of(
                    m,
                    l,
                    items,
                )[i] by {
                    if bit(m, l - 1 - i) {
                        lemma_ones_range(m, 1, l - 1 - i);
                    }
                }
            }
        }
    }

    /// Removes the `n` newest slots and their items (all slots when `n` is at least the length).
    pub fn trim_back(&mut self, n: usize)
        requires
            old(self).wf(),
        ensures
            final(self).wf(),
            final(self)@ == if n >= old(self)@.len() {
                Seq::<Option<T>>::empty()
            } else {
                old(self)@.subrange(0, old(self)@.len() - n)
            },
            final(self).spec_capacity() == old(self).spec_capacity(),
    {
        if n >= self.len as usize {
            self.clear();
            return;
        }
        let ghost old_view = self@;
        let mut j: usize = 0;
        while j < n
            invariant
                self.wf(),
                j <= n,
                n < old_view.len(),
                self.spec_capacity() == old(self).spec_capacity(),
                self@ == old_view.subrange(0, old_view.len() - j),
            decreases n - j,
        {
            self.drop_newest();
            j += 1;
            assert(self@ =~= old_view.subrange(0, old_view.len() - j));
        }
    }

    /// Removes every slot and drops every item.
    pub fn clear(&mut self)
        requires
            old(self).wf(),
        ensures
            final(self).wf(),
            final(self)@ == Seq::<Option<T>>::empty(),
            final(self).spec_capacity() == old(self).spec_capacity(),
            final(self).spec_storage_capacity() == old(self).spec_storage_capacity(),
    {
        self.items.clear();
        self.mask = 0;
        self.len = 0;
        proof {
            assert forall|q: int| 0 <= q < 64 implies !bit(0u64, q) by {
                lemma_bit_zero(q);
            }
            lemma_ones_range(0u64, 0, 64);
        }
        assert(self@ =~= Seq::<Option<T>>::empty());
    }

    /// Stores `value` in slot `index`, dropping the item that was there. Out of range,
    /// nothing changes and `value` is dropped.
    pub fn replace(&mut self, index: usize, value: T)
        requires
            old(self).wf(),
        ensures
            final(self).wf(),
            final(self)@ == if index < old(self)@.len() {
                old(self)@.update(index as int, Some(value))
            } else {
                old(self)@
            },
            final(self).spec_capacity() == old(self).spec_capacity(),
            final(self).spec_storage_capacity() == if index < old(self)@.len() && old(
                self,
            )@[index as int] is None {
                grown(
                    old(self).items_view().len(),
                    old(self).spec_storage_capacity(),
                    old(self).spec_capacity(),
                )
            } else {
                old(self).spec_storage_capacity()
            },
    {
        if index >= self.len as usize {
            return;
        }
        let ghost m = self.mask;
        let ghost l = self.len as int;
        let ghost items = self.items@;
        let p = self.len as u64 - 1 - index as u64;
        let index_bit = 1u64 << p;
        let ones = count_ones_from(self.mask, p as u32);
        proof {
            lemma_test_bit(m, p);
            lemma_set_clear(m, p);
            lemma_ones_range(m, 0, p as int);
            assert forall|r: int| l <= r < 64 implies !bit(m, r) by {}
            lemma_ones_range(m, l, 64);
        }
        if self.mask & index_bit != 0 {
            let _displaced = self.items.replace(ones as usize - 1, value);
            proof {
                assert(self@ =~= slots_of(m, l, items).update(index as int, Some(value))) by {
                    assert forall|i: int| 0 <= i < l && i != index implies self@[i] == slots_of(
                        m,
                        l,
                        items,
                    )[i] by {
                        let q = l - 1 - i;
                        if bit(m, q) {
                            if q > p {
                                lemma_ones_range(m, p as int + 1, q);
                                lemma_ones_range(m, 0, q);
                            } else {
                                lemma_ones_range(m, q + 1, p as int);
                                lemma_ones_range(m, 0, q);
                            }
                        }
                    }
                }
            }
            return;
        }
        proof {
            lemma_ones_le(m, 0, p as int);
            lemma_ones_le(m, p as int + 1, l);
        }
        if self.items.len() == self.items.capacity() {
            let c = self.items.capacity() as u8 + 1;
            self.items.resize(c);
        }
        self.mask = self.mask | index_bit;
        let inserted = self.items.insert(ones as usize, value);
        proof {
            let m2 = self.mask;
            assert(!bit(m, p as int));
            assert forall|q: int| l <= q < 64 implies !bit(m2, q) by {
                assert(!bit(m, q));
                assert(bit(m | (1u64 << p), q) == (q == p || bit(m, q)));
                assert(bit(m & !(1u64 << p), q) == (q != p && bit(m, q)));
            }
            assert(self.items@.len() == ones_from(m2, 0));
            assert(self@ =~= slots_of(m, l, items).update(index as int, Some(value))) by {
                assert forall|i: int| 0 <= i < l && i != index implies self@[i] == slots_of(
                    m,
                    l,
                    items,
                )[i] by {
                    let q = l - 1 - i;
                    if bit(m, q) {
                        if q > p {
                            lemma_ones_range(m, p as int, q);
                        } else {
                            lemma_ones_range(m, q + 1, p as int);
                            lemma_ones_range(m, 0, q);
                        }
                    }
                }
            }
        }
    }

    /// Takes the item out of slot `index`, leaving the slot empty. `None`, changing nothing,
    /// when the slot does not exist or is already empty.
    pub fn take(&mut self, index: usize) -> (r: Option<T>)
        requires
            old(self).wf(),
        ensures
            final(self).wf(),
            index < old(self)@.len() ==> r == old(self)@[index as int],
            index >= old(self)@.len() ==> r is None,
            final(self)@ == if index < old(self)@.len() {
                old(self)@.update(index as int, None)
            } else {
                old(self)@
            },
            final(self).spec_capacity() == old(self).spec_capacity(),
            final(self).spec_storage_capacity() == old(self).spec_storage_capacity(),
    {
        if index >= self.len as usize {
            return None;
        }
        let ghost m = self.mask;
        let ghost l = self.len as int;
        let ghost items = self.items@;
        let p = self.len as u64 - 1 - index as u64;
        let index_bit = 1u64 << p;
        proof {
            lemma_test_bit(m, p);
            lemma_set_clear(m, p);
        }
        if self.mask & index_bit == 0 {
            assert(self@ =~= self@.update(index as int, None));
            return None;
        }
        let ones = count_ones_from(self.mask, p as u32);
        proof {
            lemma_ones_range(m, 0, p as int);
        }
        let r = self.items.remove(ones as usize - 1);
        self.mask = self.mask & !index_bit;
        proof {
            let m2 = self.mask;
            assert(bit(m, p as int));
            assert forall|q: int| l <= q < 64 implies !bit(m2, q) by {
                assert(!bit(m, q));
                assert(bit(m | (1u64 << p), q) == (q == p || bit(m, q)));
                assert(bit(m & !(1u64 << p), q) == (q != p && bit(m, q)));
            }
            assert(self.items@.len() == ones_from(m2, 0));
            assert(self@ =~= slots_of(m, l, items).update(index as int, None)) by {
                assert forall|i: int| 0 <= i < l && i != index implies self@[i] == slots_of(
                    m,
                    l,
                    items,
                )[i] by {
                    let q = l - 1 - i;
                    if bit(m, q) {
                        if q > p {
                            lemma_ones_range(m, p as int + 1, q);
                        } else {
                            lemma_ones_range(m, q + 1, p as int);
                            lemma_ones_range(m, 0, q);
                        }
                    }
                }
            }
        }
        r
    }

    /// Moves the item of slot `from` to the newer slot `to`, when every slot after `from` up
    /// to and including `to` is empty. The stored items keep their order.
    pub fn relocate(&mut self, from: usize, to: usize)
        requires
            old(self).wf(),
            from < to < old(self)@.len(),
            old(self)@[from as int] is Some,
            forall|j: int| from < j <= to ==> old(self)@[j] is None,
        ensures
            final(self).wf(),
            final(self)@ == old(self)@.update(to as int, old(self)@[from as int]).update(
                from as int,
                None,
            ),
            final(self).spec_capacity() == old(self).spec_capacity(),
            final(self).spec_storage_capacity() == old(self).spec_storage_capacity(),
    {
        let ghost m = self.mask;
        let ghost l = self.len as int;
        let ghost items = self.items@;
        let pf = self.len as u64 - 1 - from as u64;
        let pt = self.len as u64 - 1 - to as u64;
        self.mask = self.mask | (1u64 << pt);
        let ghost m1 = self.mask;
        self.mask = self.mask & !(1u64 << pf);
        proof {
            let m2 = self.mask;
            lemma_set_clear(m, pt);
            lemma_set_clear(m1, pf);
            assert(!bit(m, pt as int)) by {
                assert(old(self)@[to as int] is None);
            }
            assert(bit(m, pf as int)) by {
                assert(old(self)@[from as int] is Some);
            }
            assert(bit(m1, pf as int));
            assert forall|q: int| l <= q < 64 implies !bit(m2, q) by {
                assert(!bit(m, q));
                assert(bit(m | (1u64 << pt), q) == (q == pt || bit(m, q)));
                assert(bit(m1 & !(1u64 << pf), q) == (q != pf && bit(m1, q)));
            }
            assert(ones_from(m2, 0) == ones_from(m, 0));
            assert(forall|q: int| pt < q < pf ==> !bit(m, q)) by {
                assert forall|q: int| pt < q < pf implies !bit(m, q) by {
                    let j = l - 1 - q;
                    assert(old(self)@[j] is None);
                }
            }
            assert(ones_from(m, pt as int + 1) == ones_from(m, pf as int)) by {
                lemma_ones_range(m, pt as int + 1, pf as int);
            }
            assert(self@ =~= slots_of(m, l, items).update(to as int, slots_of(m, l, items)[from as int]).update(
                from as int,
                None,
            )) by {
                assert forall|i: int| 0 <= i < l && i != from && i != to implies self@[i]
                    == slots_of(m, l, items)[i] by {
                    let q = l - 1 - i;
                    if q > pf {
                    } else if q > pt {
                        assert(!bit(m, q));
                        assert(!bit(m2, q));
                    } else {
                        assert(ones_from(m2, q + 1) == ones_from(m, q + 1));
                    }
                }
            }
        }
    }
}

} // verus!
