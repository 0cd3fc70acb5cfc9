//! The histories of all tracked attributes of one entity.
use vstd::prelude::*;
use std::collections::HashMap;
use crate::component_history::{
    cleaned, data_at, first_fact_kept, latest_at, record, ComponentHistory, TickData,
};

verus! {

/// The rollback history of one entity: a history per attribute id, created on first use.
#[derive(Debug)]
pub struct EntityHistory<T> {
    components: HashMap<usize, ComponentHistory<T>>,
}

/// The entries, newest tick and capacity of the history `h`, or of a new history of
/// `capacity` ticks when there is none yet.
pub open spec fn state_or_new<T>(h: Option<ComponentHistory<T>>, capacity: nat) -> (
    Seq<TickData<T>>,
    int,
    nat,
) {
    match h {
        Some(h) => (h@, h.spec_last_tick(), h.spec_capacity()),
        None => (Seq::empty(), 0, capacity),
    }
}

impl<T> EntityHistory<T> {
    /// The history of each attribute id.
    pub closed spec fn spec_histories(&self) -> Map<usize, ComponentHistory<T>> {
        self.components@
    }

    pub open spec fn wf(&self) -> bool {
        forall|id: usize| #[trigger]
            self.spec_histories().contains_key(id) ==> self.spec_histories()[id].wf()
    }

    /// The history of `id`, if it has one.
    pub open spec fn spec_history(&self, id: usize) -> Option<ComponentHistory<T>> {
        if self.spec_histories().contains_key(id) {
            Some(self.spec_histories()[id])
        } else {
            None
        }
    }

    /// No attribute has a history yet.
    pub fn new() -> (r: Self)
        ensures
            r.wf(),
            r.spec_histories() == Map::<usize, ComponentHistory<T>>::empty(),
    {
        EntityHistory { components: HashMap::new() }
    }

    /// The history of attribute `id`, if it has one.
    pub fn history(&self, id: usize) -> (r: Option<&ComponentHistory<T>>)
        ensures
            r == match self.spec_history(id) {
                Some(h) => Some(&h),
                None => None,
            },
    {
        self.components.get(&id)
    }

    /// The number of attributes with a history.
    pub fn len(&self) -> (r: usize)
        ensures
            r == self.spec_histories().len(),
    {
        self.components.len()
    }

    /// Takes out the history of `id`, or makes a new one of `capacity` ticks.
    fn take_or_new(&mut self, id: usize, capacity: u8) -> (r: ComponentHistory<T>)
        requires
            old(self).wf(),
            1 <= capacity <= 64,
        ensures
            final(self).wf(),
            final(self).spec_histories() == old(self).spec_histories().remove(id),
            r.wf(),
            (r@, r.spec_last_tick(), r.spec_capacity()) == state_or_new(
                old(self).spec_history(id),
                capacity as nat,
            ),
    {
        match self.components.remove(&id) {
            Some(h) => h,
            None => ComponentHistory::new(capacity),
        }
    }

    /// Records `value` for attribute `id` at `tick`, as [`ComponentHistory::write`] does;
    /// an attribute without a history gets one of `capacity` ticks first.
    pub fn write(&mut self, id: usize, tick: u32, value: T, capacity: u8)
        requires
            old(self).wf(),
            1 <= capacity <= 64,
        ensures
            final(self).wf(),
            final(self).spec_histories().remove(id) == old(self).spec_histories().remove(id),
            final(self).spec_histories().contains_key(id),
            ({
                let (s, last, c) = state_or_new(old(self).spec_history(id), capacity as nat);
                let h = final(self).spec_histories()[id];
                &&& (h@, h.spec_last_tick()) == record(s, last, c, tick as int, TickData::Value(value))
                &&& h.spec_capacity() == c
            }),
    {
        let mut h = self.take_or_new(id, capacity);
        h.write(tick, value);
        self.components.insert(id, h);
        proof {
            assert(self.spec_histories().remove(id) =~= old(self).spec_histories().remove(id));
        }
    }

    /// Records a removal of attribute `id` at `tick`, as [`ComponentHistory::mark_removed`]
    /// does. An attribute without a history is skipped: `false`.
    pub fn mark_removed(&mut self, id: usize, tick: u32) -> (r: bool)
        requires
            old(self).wf(),
        ensures
            final(self).wf(),
            r == old(self).spec_histories().contains_key(id),
            final(self).spec_histories().dom() == old(self).spec_histories().dom(),
            final(self).spec_histories().remove(id) == old(self).spec_histories().remove(id),
            r ==> ({
                let o = old(self).spec_histories()[id];
                let h = final(self).spec_histories()[id];
                &&& (h@, h.spec_last_tick()) == record(
                    o@,
                    o.spec_last_tick(),
                    o.spec_capacity(),
                    tick as int,
                    TickData::Removed,
                )
                &&& h.spec_capacity() == o.spec_capacity()
            }),
    {
        match self.components.remove(&id) {
            Some(h) => {
                let mut h = h;
                proof {
                    assert(old(self).spec_histories().contains_key(id));
                }
                h.mark_removed(tick);
                self.components.insert(id, h);
                proof {
                    assert(self.spec_histories().remove(id) =~= old(self).spec_histories().remove(id));
                    assert(self.spec_histories().dom() =~= old(self).spec_histories().dom());
                    assert forall|k: usize| #[trigger]
                        self.spec_histories().contains_key(k) implies self.spec_histories()[k].wf() by {
                        if k != id {
                            assert(old(self).spec_histories().contains_key(k));
                        }
                    }
                }
                true
            },
            None => {
                proof {
                    assert(self.spec_histories() =~= old(self).spec_histories());
                }
                false
            },
        }
    }

    /// What is known of attribute `id` at `tick`; `Missing` without a history.
    pub fn get(&self, id: usize, tick: u32) -> (r: TickData<&T>)
        requires
            self.wf(),
        ensures
            r == match self.spec_history(id) {
                Some(h) => match data_at(h@, h.spec_last_tick(), tick as int) {
                    TickData::Value(v) => TickData::Value(&v),
                    TickData::Removed => TickData::Removed,
                    TickData::Missing => TickData::Missing,
                },
                None => TickData::Missing,
            },
    {
        match self.components.get(&id) {
            Some(h) => h.get(tick),
            None => TickData::Missing,
        }
    }

    /// The newest fact of attribute `id` at or before `tick`; `Missing` without a history.
    pub fn get_latest(&self, id: usize, tick: u32) -> (r: TickData<&T>)
        requires
            self.wf(),
        ensures
            r == match self.spec_history(id) {
                Some(h) => match latest_at(h@, h.spec_last_tick(), tick as int) {
                    TickData::Value(v) => TickData::Value(&v),
                    TickData::Removed => TickData::Removed,
                    TickData::Missing => TickData::Missing,
                },
                None => TickData::Missing,
            },
    {
        match self.components.get(&id) {
            Some(h) => h.get_latest(tick),
            None => TickData::Missing,
        }
    }

    /// Drops what attribute `id` recorded after `retain_until`, as
    /// [`ComponentHistory::clean`] does. Nothing happens without a history.
    pub fn clean(&mut self, id: usize, retain_until: u32)
        requires
            old(self).wf(),
        ensures
            final(self).wf(),
            final(self).spec_histories().dom() == old(self).spec_histories().dom(),
            final(self).spec_histories().remove(id) == old(self).spec_histories().remove(id),
            old(self).spec_histories().contains_key(id) ==> ({
                let o = old(self).spec_histories()[id];
                let h = final(self).spec_histories()[id];
                &&& (h@, h.spec_last_tick()) == cleaned(o@, o.spec_last_tick(), retain_until as int)
                &&& h.spec_capacity() == o.spec_capacity()
            }),
    {
        match self.components.remove(&id) {
            Some(h) => {
                let mut h = h;
                proof {
                    assert(old(self).spec_histories().contains_key(id));
                }
                h.clean(retain_until);
                self.components.insert(id, h);
                proof {
                    assert(self.spec_histories().remove(id) =~= old(self).spec_histories().remove(id));
                    assert(self.spec_histories().dom() =~= old(self).spec_histories().dom());
                    assert forall|k: usize| #[trigger]
                        self.spec_histories().contains_key(k) implies self.spec_histories()[k].wf() by {
                        if k != id {
                            assert(old(self).spec_histories().contains_key(k));
                        }
                    }
                }
            },
            None => {
                proof {
                    assert(self.spec_histories() =~= old(self).spec_histories());
                }
            },
        }
    }

    /// Cuts the history of attribute `id` back to its oldest fact, as
    /// [`ComponentHistory::keep_first_item`] does. Nothing happens without a history.
    pub fn keep_first_item(&mut self, id: usize)
        requires
            old(self).wf(),
        ensures
            final(self).wf(),
            final(self).spec_histories().dom() == old(self).spec_histories().dom(),
            final(self).spec_histories().remove(id) == old(self).spec_histories().remove(id),
            old(self).spec_histories().contains_key(id) ==> ({
                let o = old(self).spec_histories()[id];
                let h = final(self).spec_histories()[id];
                &&& (h@, h.spec_last_tick()) == first_fact_kept(o@, o.spec_last_tick())
                &&& h.spec_capacity() == o.spec_capacity()
            }),
    {
        match self.components.remove(&id) {
            Some(h) => {
                let mut h = h;
                proof {
                    assert(old(self).spec_histories().contains_key(id));
                }
                h.keep_first_item();
                self.components.insert(id, h);
                proof {
                    assert(self.spec_histories().remove(id) =~= old(self).spec_histories().remove(id));
                    assert(self.spec_histories().dom() =~= old(self).spec_histories().dom());
                    assert forall|k: usize| #[trigger]
                        self.spec_histories().contains_key(k) implies self.spec_histories()[k].wf() by {
                        if k != id {
                            assert(old(self).spec_histories().contains_key(k));
                        }
                    }
                }
            },
            None => {
                proof {
                    assert(self.spec_histories() =~= old(self).spec_histories());
                }
            },
        }
    }
}

} // verus!
