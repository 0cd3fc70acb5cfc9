//! Deciding what the store and load passes do with each attribute of a predicted entity.
use vstd::prelude::*;
use crate::component_history::{
    cleaned, cloned_entry, empty_after_at, first_fact_kept, first_tick_at, latest_at, record,
    ComponentHistory, TickData,
};

verus! {

/// What a load pass does with one attribute.
#[derive(Debug, PartialEq, Eq)]
pub enum LoadAction<T> {
    /// The attribute goes away.
    Remove,
    /// The attribute goes away: the tick lies before anything known of it, and its predicted
    /// history is cut back to its first fact.
    RemoveBeforeHistory,
    /// The attribute is inserted, reconciled from the authoritative and the predicted value.
    Insert(Option<T>, Option<T>),
}

/// The action for the newest confirmed authoritative fact `authoritative` (`Missing` when
/// there is none or it is not confirmed) and the newest predicted fact `predicted`.
pub open spec fn load_action_spec<T>(authoritative: TickData<T>, predicted: TickData<T>) -> LoadAction<T> {
    match (authoritative, predicted) {
        (TickData::Removed, _) => LoadAction::Remove,
        (TickData::Missing, TickData::Removed) => LoadAction::Remove,
        (TickData::Missing, TickData::Missing) => LoadAction::RemoveBeforeHistory,
        (a, p) => LoadAction::Insert(
            match a {
                TickData::Value(v) => Some(v),
                _ => None,
            },
            match p {
                TickData::Value(v) => Some(v),
                _ => None,
            },
        ),
    }
}

/// Chooses the action for an attribute from its authoritative and predicted facts: see
/// [`load_action_spec`].
pub fn load_action<T>(authoritative: TickData<T>, predicted: TickData<T>) -> (r: LoadAction<T>)
    ensures
        r == load_action_spec(authoritative, predicted),
{
    match (authoritative, predicted) {
        (TickData::Removed, _) => LoadAction::Remove,
        (TickData::Missing, TickData::Removed) => LoadAction::Remove,
        (TickData::Missing, TickData::Missing) => LoadAction::RemoveBeforeHistory,
        (a, p) => LoadAction::Insert(a.value(), p.value()),
    }
}

/// The ticks, from `previous_tick` on, in which a confirmation makes the authoritative
/// history trustworthy at `previous_tick`: up to the next fact it records (the end saturates
/// at the largest tick).
pub fn confirm_range<T>(history: &ComponentHistory<T>, previous_tick: u32) -> (r: (u32, u32))
    requires
        history.wf(),
    ensures
        r.0 == previous_tick,
        r.1 == if previous_tick + empty_after_at(history@, history.spec_last_tick(), previous_tick as int)
            > u32::MAX {
            u32::MAX as int
        } else {
            previous_tick + empty_after_at(history@, history.spec_last_tick(), previous_tick as int)
        },
{
    let range = history.empty_after(previous_tick);
    (previous_tick, previous_tick.saturating_add(range))
}

/// The action for a confirmed authoritative history alone: insert its newest value at or
/// before `previous_tick` (with `current` as the predicted candidate), remove on a removal,
/// nothing when it knows nothing.
pub fn authoritative_action<T: Clone>(
    history: &ComponentHistory<T>,
    previous_tick: u32,
    current: Option<T>,
) -> (r: Option<LoadAction<T>>)
    requires
        history.wf(),
    ensures
        match latest_at(history@, history.spec_last_tick(), previous_tick as int) {
            TickData::Value(v) => r matches Some(LoadAction::Insert(Some(c), p)) && vstd::pervasive::cloned(
                v,
                c,
            ) && p == current,
            TickData::Removed => r == Some(LoadAction::<T>::Remove),
            TickData::Missing => r is None,
        },
{
    match history.get_latest(previous_tick) {
        TickData::Value(v) => Some(LoadAction::Insert(Some(v.clone()), current)),
        TickData::Removed => Some(LoadAction::Remove),
        TickData::Missing => None,
    }
}

impl<T: Clone> ComponentHistory<T> {
    /// Loads the predicted history at `previous_tick`: decides the action from
    /// `authoritative` and the newest predicted fact at or before that tick (its value
    /// cloned), then cleans out the prediction after the tick, or, when neither knows
    /// anything, cuts the history back to its first fact.
    pub fn load_prediction(&mut self, previous_tick: u32, authoritative: TickData<T>) -> (r: LoadAction<T>)
        requires
            old(self).wf(),
        ensures
            final(self).wf(),
            final(self).spec_capacity() == old(self).spec_capacity(),
            exists|p: TickData<T>|
                {
                    &&& cloned_entry(latest_at(old(self)@, old(self).spec_last_tick(), previous_tick as int), p)
                    &&& r == load_action_spec(authoritative, p)
                },
            (final(self)@, final(self).spec_last_tick()) == if r is RemoveBeforeHistory {
                first_fact_kept(old(self)@, old(self).spec_last_tick())
            } else {
                cleaned(old(self)@, old(self).spec_last_tick(), previous_tick as int)
            },
    {
        let predicted = self.get_latest(previous_tick).cloned();
        let action = load_action(authoritative, predicted);
        match action {
            LoadAction::RemoveBeforeHistory => self.keep_first_item(),
            _ => self.clean(previous_tick),
        }
        action
    }
}

impl<T> ComponentHistory<T> {
    /// Records that the attribute is gone at `tick`, unless the history only starts at or
    /// after that tick (a removal before anything was stored says nothing). Returns whether
    /// the removal was recorded.
    pub fn store_removed(&mut self, tick: u32) -> (r: bool)
        requires
            old(self).wf(),
        ensures
            final(self).wf(),
            final(self).spec_capacity() == old(self).spec_capacity(),
            r == (first_tick_at(old(self)@, old(self).spec_last_tick()) < tick),
            r ==> (final(self)@, final(self).spec_last_tick()) == record(
                old(self)@,
                old(self).spec_last_tick(),
                old(self).spec_capacity(),
                tick as int,
                TickData::Removed,
            ),
            !r ==> final(self)@ == old(self)@ && final(self).spec_last_tick() == old(
                self,
            ).spec_last_tick(),
    {
        if self.first_tick() >= tick {
            return false;
        }
        self.mark_removed(tick);
        true
    }
}

impl<T: PartialEq> ComponentHistory<T> {
    /// Records `value` at `tick` unless it equals the newest value stored before `tick`.
    /// Returns whether it was recorded; it always is when no value precedes `tick`.
    pub fn store_value(&mut self, tick: u32, value: T) -> (r: bool)
        requires
            old(self).wf(),
        ensures
            final(self).wf(),
            final(self).spec_capacity() == old(self).spec_capacity(),
            !(latest_at(
                old(self)@,
                old(self).spec_last_tick(),
                if tick == 0 {
                    0
                } else {
                    tick - 1
                },
            ) is Value) ==> r,
            r ==> (final(self)@, final(self).spec_last_tick()) == record(
                old(self)@,
                old(self).spec_last_tick(),
                old(self).spec_capacity(),
                tick as int,
                TickData::Value(value),
            ),
            !r ==> final(self)@ == old(self)@ && final(self).spec_last_tick() == old(
                self,
            ).spec_last_tick(),
    {
        let unchanged = match self.get_latest(tick.saturating_sub(1)) {
            TickData::Value(prev) => *prev == value,
            _ => false,
        };
        if unchanged {
            return false;
        }
        self.write(tick, value);
        true
    }
}

} // verus!
