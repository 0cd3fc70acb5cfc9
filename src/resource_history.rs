//! The prediction history of a single resource: one entry per tick, kept in a deque.
use vstd::prelude::*;
use std::collections::VecDeque;
use crate::component_history::{clone_entry, cloned_entry, entry_of, TickData};
use crate::sparse_blob_deque::window;

verus! {

/// What the entries `s`, whose newest tick is `last`, give for `previous_tick`. Before the
/// oldest entry the resource counts as removed if that entry is a removal, else unknown.
pub open spec fn resource_at<T>(s: Seq<TickData<T>>, last: int, previous_tick: int) -> TickData<T> {
    if previous_tick > last {
        TickData::Missing
    } else if last - previous_tick >= s.len() {
        if s.len() > 0 && s[0] is Removed {
            TickData::Removed
        } else {
            TickData::Missing
        }
    } else {
        s[s.len() - 1 - (last - previous_tick)]
    }
}

/// The history of a resource: an entry for each tick up to `last_tick`.
#[derive(Debug)]
pub struct ResourceHistory<T> {
    list: VecDeque<TickData<T>>,
    last_tick: u32,
}

impl<T> ResourceHistory<T> {
    /// The entries, oldest first.
    pub closed spec fn view(&self) -> Seq<TickData<T>> {
        self.list@
    }

    /// The tick of the newest entry.
    pub closed spec fn spec_last_tick(&self) -> int {
        self.last_tick as int
    }

    /// No entry lies before tick 0.
    pub open spec fn wf(&self) -> bool {
        self@.len() <= self.spec_last_tick() + 1
    }

    /// An empty history.
    pub fn new() -> (r: Self)
        ensures
            r.wf(),
            r@ == Seq::<TickData<T>>::empty(),
            r.spec_last_tick() == 0,
    {
        ResourceHistory { list: VecDeque::new(), last_tick: 0 }
    }

    /// A history holding `entries`, the first at `start_tick` (the newest tick stays at
    /// `start_tick` when there are none).
    pub fn from_entries(start_tick: u32, entries: Vec<TickData<T>>) -> (r: Self)
        requires
            start_tick + entries@.len() <= u32::MAX + 1,
        ensures
            r.wf(),
            r@ == entries@,
            r.spec_last_tick() == if entries@.len() == 0 {
                start_tick as int
            } else {
                start_tick + entries@.len() - 1
            },
    {
        let n = entries.len();
        let mut list: VecDeque<TickData<T>> = VecDeque::new();
        let mut entries = entries;
        let ghost all = entries@;
        let mut rest: Vec<TickData<T>> = Vec::new();
        while entries.len() > 0
            invariant
                all == entries@ + rest@.reverse(),
                n == all.len(),
                start_tick + n <= u32::MAX + 1,
            decreases entries@.len(),
        {
            let ghost before = rest@;
            let e = entries.pop().unwrap();
            rest.push(e);
            assert(all =~= entries@ + rest@.reverse()) by {
                assert(rest@.reverse() =~= seq![e] + before.reverse());
            }
        }
        while rest.len() > 0
            invariant
                all == list@ + rest@.reverse(),
                n == all.len(),
                start_tick + n <= u32::MAX + 1,
            decreases rest@.len(),
        {
            let ghost old_rest = rest@;
            let e = rest.pop().unwrap();
            list.push_back(e);
            assert(all =~= list@ + rest@.reverse()) by {
                assert(rest@.push(e).reverse() =~= seq![e] + rest@.reverse());
                assert(rest@.push(e) == old_rest);
            }
        }
        assert(list@ =~= all);
        let last_tick = if n == 0 {
            start_tick
        } else {
            (start_tick as u64 + n as u64 - 1) as u32
        };
        ResourceHistory { list, last_tick }
    }

    /// The number of entries.
    pub fn len(&self) -> (r: usize)
        ensures
            r == self@.len(),
    {
        self.list.len()
    }

    /// Whether there are no entries.
    pub fn is_empty(&self) -> (r: bool)
        ensures
            r == (self@.len() == 0),
    {
        self.list.len() == 0
    }

    /// The tick of the newest entry.
    pub fn last_tick(&self) -> (r: u32)
        ensures
            r == self.spec_last_tick(),
    {
        self.last_tick
    }

    /// The entry to load for `previous_tick`, the tick before the one being simulated: see
    /// [`resource_at`].
    pub fn get(&self, previous_tick: u32) -> (r: TickData<&T>)
        ensures
            r == match resource_at(self@, self.spec_last_tick(), previous_tick as int) {
                TickData::Value(v) => TickData::Value(&v),
                TickData::Removed => TickData::Removed,
                TickData::Missing => TickData::Missing,
            },
    {
        if previous_tick > self.last_tick {
            return TickData::Missing;
        }
        let ago = (self.last_tick - previous_tick) as usize;
        let len = self.list.len();
        if ago >= len {
            if len > 0 {
                if let TickData::Removed = self.list[0] {
                    return TickData::Removed;
                }
            }
            return TickData::Missing;
        }
        match &self.list[len - 1 - ago] {
            TickData::Value(v) => TickData::Value(v),
            TickData::Removed => TickData::Removed,
            TickData::Missing => TickData::Missing,
        }
    }

    /// Drops every entry after `previous_tick`, which becomes the newest tick if it was older.
    pub fn clean(&mut self, previous_tick: u32)
        requires
            old(self).wf(),
        ensures
            final(self).wf(),
            final(self)@ == if old(self).spec_last_tick() - previous_tick >= old(self)@.len() {
                Seq::<TickData<T>>::empty()
            } else if previous_tick >= old(self).spec_last_tick() {
                old(self)@
            } else {
                old(self)@.subrange(
                    0,
                    old(self)@.len() - (old(self).spec_last_tick() - previous_tick),
                )
            },
            final(self).spec_last_tick() == if previous_tick < old(self).spec_last_tick() {
                previous_tick as int
            } else {
                old(self).spec_last_tick()
            },
    {
        let ago = if self.last_tick > previous_tick {
            (self.last_tick - previous_tick) as usize
        } else {
            0
        };
        let len = self.list.len();
        let keep = if ago >= len {
            0
        } else {
            len - ago
        };
        self.list.truncate(keep);
        if previous_tick < self.last_tick {
            self.last_tick = previous_tick;
        }
        assert(self@ =~= if old(self).spec_last_tick() - previous_tick >= old(self)@.len() {
            Seq::<TickData<T>>::empty()
        } else if previous_tick >= old(self).spec_last_tick() {
            old(self)@
        } else {
            old(self)@.subrange(0, old(self)@.len() - (old(self).spec_last_tick() - previous_tick))
        });
    }

    /// Stores `value` at `tick` as the first entry of an empty history; a history that holds
    /// entries already keeps them.
    pub fn save_initial(&mut self, tick: u32, value: T)
        requires
            old(self).wf(),
        ensures
            final(self).wf(),
            old(self)@.len() == 0 ==> final(self)@ == seq![TickData::Value(value)]
                && final(self).spec_last_tick() == tick,
            old(self)@.len() > 0 ==> final(self)@ == old(self)@ && final(self).spec_last_tick()
                == old(self).spec_last_tick(),
    {
        if self.list.len() == 0 {
            self.last_tick = tick;
            self.list.push_back(TickData::Value(value));
            assert(self@ =~= seq![TickData::Value(value)]);
        }
    }

    /// Keeps only the oldest entry, moving the newest tick back to it.
    pub fn keep_one(&mut self)
        requires
            old(self).wf(),
        ensures
            final(self).wf(),
            final(self)@ == if old(self)@.len() > 1 {
                old(self)@.subrange(0, 1)
            } else {
                old(self)@
            },
            final(self).spec_last_tick() == if old(self)@.len() > 1 {
                old(self).spec_last_tick() - (old(self)@.len() - 1)
            } else {
                old(self).spec_last_tick()
            },
    {
        let len = self.list.len();
        self.list.truncate(1);
        if len > 1 {
            self.last_tick = self.last_tick - (len - 1) as u32;
        }
        assert(self@ =~= if old(self)@.len() > 1 {
            old(self)@.subrange(0, 1)
        } else {
            old(self)@
        });
    }
}

/// The gap entries `gap` continue `base`: each is a clone of the entry before it.
pub open spec fn clone_chain<T: Clone>(base: Seq<TickData<T>>, gap: Seq<TickData<T>>) -> bool {
    forall|i: int| 0 <= i < gap.len() ==> cloned_entry(#[trigger] (base + gap)[base.len() + i - 1], gap[i])
}

impl<T: Clone> ResourceHistory<T> {
    /// Stores the resource's state at `tick`: `Some` value or, for `None`, a removal. At most
    /// `max_ticks` entries are kept, the oldest leaving first. A tick at or before the newest
    /// one changes nothing but that bound; the ticks skipped before a later one repeat the
    /// newest entry.
    pub fn append(&mut self, tick: u32, value: Option<T>, max_ticks: usize)
        requires
            old(self).wf(),
            max_ticks >= 1,
        ensures
            final(self).wf(),
            ({
                let base = window(old(self)@, max_ticks as nat);
                let last = old(self).spec_last_tick();
                if base.len() > 0 && tick <= last {
                    final(self)@ == base && final(self).spec_last_tick() == last
                } else {
                    &&& final(self).spec_last_tick() == tick
                    &&& exists|gap: Seq<TickData<T>>|
                        {
                            &&& gap.len() == if base.len() > 0 && tick - 1 - last > 0 {
                                min_len(tick - 1 - last, max_ticks as int)
                            } else {
                                0
                            }
                            &&& clone_chain(base, gap)
                            &&& final(self)@ == window(
                                (base + gap).push(entry_of(value, true)),
                                max_ticks as nat,
                            )
                        }
                }
            }),
    {
        let ghost old_view = self@;
        assert(self@ =~= old_view.subrange(0, old_view.len() as int));
        while self.list.len() > max_ticks
            invariant
                max_ticks >= 1,
                self@.len() >= min_len(old_view.len() as int, max_ticks as int),
                self@ == old_view.subrange(old_view.len() - self@.len(), old_view.len() as int),
                self@.len() <= old_view.len(),
                self.last_tick == old(self).last_tick,
            decreases self@.len(),
        {
            self.list.pop_front();
            assert(self@ =~= old_view.subrange(old_view.len() - self@.len(), old_view.len() as int));
        }
        let ghost base = self@;
        assert(base =~= window(old_view, max_ticks as nat));
        let ghost mut gap: Seq<TickData<T>> = Seq::empty();
        if self.list.len() > 0 {
            if tick <= self.last_tick {
                return;
            }
            let gap_len = tick - 1 - self.last_tick;
            let fill: usize = if (gap_len as u64) < (max_ticks as u64) {
                gap_len as usize
            } else {
                max_ticks
            };
            let mut i: usize = 0;
            while i < fill
                invariant
                    max_ticks >= 1,
                    i <= fill,
                    base.len() > 0,
                    base.len() <= max_ticks,
                    gap.len() == i,
                    clone_chain(base, gap),
                    self@ == window(base + gap, max_ticks as nat),
                    self@.len() > 0,
                decreases fill - i,
            {
                let len = self.list.len();
                let c = clone_entry(&self.list[len - 1]);
                if len == max_ticks {
                    self.list.pop_front();
                }
                self.list.push_back(c);
                proof {
                    let full = base + gap;
                    assert(full.last() == window(full, max_ticks as nat).last());
                    let ng = gap.push(c);
                    assert((base + ng) =~= full.push(c));
                    assert(clone_chain(base, ng)) by {
                        assert forall|k: int| 0 <= k < ng.len() implies cloned_entry(
                            #[trigger] (base + ng)[base.len() + k - 1],
                            ng[k],
                        ) by {
                            if k < gap.len() {
                                assert((base + ng)[base.len() + k - 1] == full[base.len() + k - 1]);
                            }
                        }
                    }
                    assert(self@ =~= window(base + ng, max_ticks as nat));
                    gap = ng;
                }
                i += 1;
            }
            self.last_tick = tick - 1;
        }
        let ghost full = base + gap;
        if self.list.len() == max_ticks {
            self.list.pop_front();
        }
        let e = match value {
            Some(v) => TickData::Value(v),
            None => TickData::Removed,
        };
        self.list.push_back(e);
        self.last_tick = tick;
        proof {
            assert(self@ =~= window(full.push(e), max_ticks as nat));
        }
    }
}

/// The smaller of `a` and `b`.
pub open spec fn min_len(a: int, b: int) -> int {
    if a < b {
        a
    } else {
        b
    }
}

} // verus!
