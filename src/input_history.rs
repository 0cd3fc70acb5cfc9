//! The recent inputs of one player, one per tick.
use vstd::prelude::*;
use std::collections::VecDeque;

verus! {

/// How many inputs a history keeps unless told otherwise.
pub const INPUT_HISTORY_CAPACITY: usize = 10;

/// How far before the newest tick a replaced input may lie.
pub const REPLACE_REACH: u32 = 10;

/// Whether `x` is a value that `T::default()` may return.
pub open spec fn is_default<T: Default>(x: T) -> bool {
    call_ensures(T::default, (), x)
}

/// Whether every element of `d` is a default value.
pub open spec fn all_default<T: Default>(d: Seq<T>) -> bool {
    forall|i: int| 0 <= i < d.len() ==> is_default(#[trigger] d[i])
}

/// A default value of `T`.
fn default_input<T: Default>() -> (r: T)
    ensures
        is_default(r),
{
    T::default()
}

/// The tick of the first of the inputs `s`, the newest of which is at `u`.
pub open spec fn first_tick_of<T>(s: Seq<T>, u: int) -> int {
    if s.len() == 0 {
        u
    } else {
        u - (s.len() - 1)
    }
}

/// How many default inputs fill the ticks skipped by writing at `tick`.
pub open spec fn gap_len<T>(s: Seq<T>, u: int, c: nat, tick: int) -> int {
    if s.len() > 0 && tick > u + 1 && tick - u <= c {
        tick - u - 1
    } else {
        0
    }
}

/// The inputs after writing `value` at `tick`, later than the newest tick `u`, with room for
/// `c`: the skipped ticks hold the inputs `gap`; a jump by more than `c` ticks starts over.
pub open spec fn input_written<T>(s: Seq<T>, u: int, c: nat, tick: int, value: T, gap: Seq<T>) -> Seq<T> {
    let s1 = if s.len() > 0 && tick > u + 1 {
        if tick - u > c {
            Seq::empty()
        } else {
            let f = first_tick_of(s, u);
            let k = if tick - f - c > 0 {
                tick - f - c
            } else {
                0
            };
            s.subrange(k, s.len() as int) + gap
        }
    } else {
        s
    };
    (if s1.len() == c {
        s1.drop_first()
    } else {
        s1
    }).push(value)
}

/// The inputs of one player for consecutive ticks up to `updated_at`, at most `capacity`.
#[derive(Debug)]
pub struct InputHistory<T> {
    list: VecDeque<T>,
    updated_at: u32,
    capacity: usize,
}

impl<T> InputHistory<T> {
    /// The inputs, oldest first.
    pub closed spec fn view(&self) -> Seq<T> {
        self.list@
    }

    /// The tick of the newest input.
    pub closed spec fn spec_updated_at(&self) -> int {
        self.updated_at as int
    }

    /// The most inputs kept.
    pub closed spec fn spec_capacity(&self) -> nat {
        self.capacity as nat
    }

    pub open spec fn wf(&self) -> bool {
        &&& 1 <= self.spec_capacity()
        &&& self@.len() <= self.spec_capacity()
        &&& self@.len() <= self.spec_updated_at() + 1
    }

    /// An empty history keeping up to `capacity` inputs.
    pub fn with_capacity(capacity: usize) -> (r: Self)
        requires
            capacity >= 1,
        ensures
            r.wf(),
            r@ == Seq::<T>::empty(),
            r.spec_updated_at() == 0,
            r.spec_capacity() == capacity,
    {
        InputHistory { list: VecDeque::new(), updated_at: 0, capacity }
    }

    /// An empty history keeping up to [`INPUT_HISTORY_CAPACITY`] inputs.
    pub fn new() -> (r: Self)
        ensures
            r.wf(),
            r@ == Seq::<T>::empty(),
            r.spec_updated_at() == 0,
            r.spec_capacity() == INPUT_HISTORY_CAPACITY,
    {
        Self::with_capacity(INPUT_HISTORY_CAPACITY)
    }

    /// A history of `entries`, the first at `first_tick`, keeping up to `capacity` inputs.
    pub fn from_entries(first_tick: u32, entries: Vec<T>, capacity: usize) -> (r: Self)
        requires
            1 <= entries@.len() <= capacity,
            first_tick + entries@.len() - 1 <= u32::MAX,
        ensures
            r.wf(),
            r@ == entries@,
            r.spec_updated_at() == first_tick + entries@.len() - 1,
            r.spec_capacity() == capacity,
    {
        let n = entries.len();
        let mut entries = entries;
        let ghost all = entries@;
        let mut list: VecDeque<T> = VecDeque::new();
        while entries.len() > 0
            invariant
                all == list@ + entries@,
            decreases entries@.len(),
        {
            let e = entries.remove(0);
            list.push_back(e);
            assert(all =~= list@ + entries@);
        }
        assert(list@ =~= all);
        InputHistory { list, updated_at: (first_tick as u64 + n as u64 - 1) as u32, capacity }
    }

    /// Whether there are no inputs.
    pub fn is_empty(&self) -> (r: bool)
        ensures
            r == (self@.len() == 0),
    {
        self.list.len() == 0
    }

    /// The number of inputs.
    pub fn len(&self) -> (r: usize)
        ensures
            r == self@.len(),
    {
        self.list.len()
    }

    /// The tick of the newest input.
    pub fn updated_at(&self) -> (r: u32)
        ensures
            r == self.spec_updated_at(),
    {
        self.updated_at
    }

    /// The tick of the first input.
    pub fn first_tick(&self) -> (r: u32)
        requires
            self.wf(),
        ensures
            r == first_tick_of(self@, self.spec_updated_at()),
    {
        let len = self.list.len();
        if len == 0 {
            self.updated_at
        } else {
            self.updated_at - (len - 1) as u32
        }
    }

    /// The input for `tick`, if the history holds it.
    pub fn get(&self, tick: u32) -> (r: Option<&T>)
        requires
            self.wf(),
        ensures
            ({
                let f = first_tick_of(self@, self.spec_updated_at());
                if f <= tick <= self.spec_updated_at() && tick - f < self@.len() {
                    r == Some(&self@[tick - f])
                } else {
                    r is None
                }
            }),
    {
        let first = self.first_tick();
        if tick > self.updated_at || tick < first {
            return None;
        }
        let index = (tick - first) as usize;
        if index >= self.list.len() {
            return None;
        }
        Some(&self.list[index])
    }

    /// Forgets every input.
    pub fn reset(&mut self)
        requires
            old(self).wf(),
        ensures
            final(self).wf(),
            final(self)@ == Seq::<T>::empty(),
            final(self).spec_updated_at() == 0,
            final(self).spec_capacity() == old(self).spec_capacity(),
    {
        self.updated_at = 0;
        self.list.clear();
    }
}

impl<T: Default> InputHistory<T> {
    /// Writes `value` at `tick`, which must be later than the newest tick (an older one changes
    /// nothing). Skipped ticks get default inputs; a jump by more than the capacity starts the
    /// history over.
    pub fn write(&mut self, tick: u32, value: T)
        requires
            old(self).wf(),
        ensures
            final(self).wf(),
            final(self).spec_capacity() == old(self).spec_capacity(),
            tick <= old(self).spec_updated_at() ==> final(self)@ == old(self)@
                && final(self).spec_updated_at() == old(self).spec_updated_at(),
            tick > old(self).spec_updated_at() ==> final(self).spec_updated_at() == tick && exists|
                gap: Seq<T>,
            |
                {
                    &&& gap.len() == gap_len(
                        old(self)@,
                        old(self).spec_updated_at(),
                        old(self).spec_capacity(),
                        tick as int,
                    )
                    &&& all_default(gap)
                    &&& final(self)@ == input_written(
                        old(self)@,
                        old(self).spec_updated_at(),
                        old(self).spec_capacity(),
                        tick as int,
                        value,
                        gap,
                    )
                },
    {
        if tick <= self.updated_at {
            return;
        }
        let ghost s = self@;
        let ghost u = self.updated_at as int;
        let ghost c = self.capacity as nat;
        let ghost mut gap: Seq<T> = Seq::empty();
        if self.list.len() > 0 && tick - self.updated_at > 1 {
            if (tick - self.updated_at) as u64 > self.capacity as u64 {
                self.list.clear();
            } else {
                let ghost f = first_tick_of(s, u);
                let ghost k = if tick - f - c > 0 {
                    tick - f - c
                } else {
                    0
                };
                while (tick - self.first_tick()) as u64 > self.capacity as u64
                    invariant
                        self.wf(),
                        self.updated_at == u,
                        self.capacity == c,
                        tick > u + 1,
                        tick - u <= c,
                        s.len() > 0,
                        f == first_tick_of(s, u),
                        k == (if tick - f - c > 0 {
                            tick - f - c
                        } else {
                            0
                        }),
                        0 < self@.len() <= s.len(),
                        s.len() - self@.len() <= k,
                        self@ == s.subrange(s.len() - self@.len(), s.len() as int),
                    decreases self@.len(),
                {
                    self.list.pop_front();
                    assert(self@ =~= s.subrange(s.len() - self@.len(), s.len() as int));
                }
                assert(self@ =~= s.subrange(k, s.len() as int));
                let mut t = self.updated_at + 1;
                while t < tick
                    invariant
                        self.wf_parts(),
                        self.capacity == c,
                        u + 1 <= t <= tick,
                        tick - u <= c,
                        gap.len() == t - u - 1,
                        all_default(gap),
                        self@ == s.subrange(k, s.len() as int) + gap,
                        self@.len() == tick - f - k - (tick - t),
                        f == first_tick_of(s, u),
                        s.len() > 0,
                        k == (if tick - f - c > 0 {
                            tick - f - c
                        } else {
                            0
                        }),
                    decreases tick - t,
                {
                    let d = default_input::<T>();
                    self.list.push_back(d);
                    proof {
                        gap = gap.push(d);
                    }
                    assert(self@ =~= s.subrange(k, s.len() as int) + gap);
                    t += 1;
                }
            }
        }
        if self.list.len() == self.capacity {
            self.list.pop_front();
        }
        self.updated_at = tick;
        self.list.push_back(value);
        proof {
            assert(self@ =~= input_written(s, u, c, tick as int, value, gap));
        }
    }
}

/// Whether the history may go from inputs `s` (newest at `u`) to `s2` (newest at `u2`) by
/// replacing the input at `tick` with `t`, with room for `c` inputs: ticks more than
/// [`REPLACE_REACH`] before the newest are left alone; later ticks are written; older ticks
/// are put in front, skipped ticks getting default inputs, when they fit; ticks inside are
/// overwritten.
pub open spec fn replaced<T: Default>(
    s: Seq<T>,
    u: int,
    c: nat,
    tick: int,
    t: T,
    s2: Seq<T>,
    u2: int,
) -> bool {
    let f = first_tick_of(s, u);
    if tick + REPLACE_REACH < u {
        s2 == s && u2 == u
    } else if tick > u {
        u2 == tick && exists|gap: Seq<T>|
            {
                &&& gap.len() == gap_len(s, u, c, tick)
                &&& all_default(gap)
                &&& s2 == input_written(s, u, c, tick, t, gap)
            }
    } else if s.len() == 0 {
        u2 == u && if tick == u {
            s2 == seq![t]
        } else if u - tick + 1 <= c {
            exists|front: Seq<T>|
                {
                    &&& front.len() == u - tick
                    &&& all_default(front)
                    &&& s2 == seq![t] + front
                }
        } else {
            s2 == s
        }
    } else if tick < f {
        u2 == u && if s.len() + (f - tick) <= c {
            exists|front: Seq<T>|
                {
                    &&& front.len() == f - tick - 1
                    &&& all_default(front)
                    &&& s2 == seq![t] + front + s
                }
        } else {
            s2 == s
        }
    } else {
        u2 == u && s2 == s.update(tick - f, t)
    }
}

impl<T: Default> InputHistory<T> {
    /// Replaces the input at `tick` with `t`: see [`replaced`].
    pub fn replace_one(&mut self, tick: u32, t: T)
        requires
            old(self).wf(),
        ensures
            final(self).wf(),
            final(self).spec_capacity() == old(self).spec_capacity(),
            replaced(
                old(self)@,
                old(self).spec_updated_at(),
                old(self).spec_capacity(),
                tick as int,
                t,
                final(self)@,
                final(self).spec_updated_at(),
            ),
    {
        if (tick as u64) + (REPLACE_REACH as u64) < self.updated_at as u64 {
            return;
        }
        if tick > self.updated_at {
            self.write(tick, t);
            return;
        }
        let ghost s = self@;
        let first = self.first_tick();
        let len = self.list.len();
        if tick < first || len == 0 {
            if tick == first {
                // An empty history at its own tick
                self.list.push_back(t);
                assert(self@ =~= seq![t]);
                return;
            }
            // Slots to add at the front: the input and the defaults up to the first tick held
            let needed = if len == 0 {
                (first - tick) as usize + 1
            } else {
                (first - tick) as usize
            };
            if needed > self.capacity - len {
                return;
            }
            let ghost mut front: Seq<T> = Seq::empty();
            let mut k: usize = 1;
            while k < needed
                invariant
                    1 <= k <= needed,
                    len == s.len(),
                    len + needed <= self.capacity,
                    front.len() == k - 1,
                    all_default(front),
                    self@ == front + s,
                    self.updated_at == old(self).updated_at,
                    self.capacity == old(self).capacity,
                decreases needed - k,
            {
                let d = default_input::<T>();
                self.list.push_front(d);
                proof {
                    front = seq![d] + front;
                }
                assert(self@ =~= front + s);
                k += 1;
            }
            self.list.push_front(t);
            assert(self@ =~= seq![t] + front + s);
            return;
        }
        let index = (tick - first) as usize;
        let _old = self.list.remove(index);
        self.list.insert(index, t);
        assert(self@ =~= s.update(index as int, t));
    }

    /// Replaces a section of inputs, one `(tick, input)` pair after the other, each as
    /// [`Self::replace_one`] does.
    pub fn replace_section(&mut self, section: Vec<(u32, T)>)
        requires
            old(self).wf(),
        ensures
            final(self).wf(),
            final(self).spec_capacity() == old(self).spec_capacity(),
            exists|states: Seq<(Seq<T>, int)>|
                {
                    &&& states.len() == section@.len() + 1
                    &&& states[0] == (old(self)@, old(self).spec_updated_at())
                    &&& states.last() == (final(self)@, final(self).spec_updated_at())
                    &&& forall|i: int|
                        0 <= i < section@.len() ==> replaced(
                            #[trigger] states[i].0,
                            states[i].1,
                            old(self).spec_capacity(),
                            section@[i].0 as int,
                            section@[i].1,
                            states[i + 1].0,
                            states[i + 1].1,
                        )
                },
    {
        let ghost all = section@;
        let mut section = section;
        let ghost mut states: Seq<(Seq<T>, int)> = seq![(self@, self.spec_updated_at())];
        let mut done: usize = 0;
        let n = section.len();
        while section.len() > 0
            invariant
                self.wf(),
                self.spec_capacity() == old(self).spec_capacity(),
                n == all.len(),
                done + section@.len() == n,
                section@ == all.subrange(done as int, n as int),
                states.len() == done + 1,
                states[0] == (old(self)@, old(self).spec_updated_at()),
                states.last() == (self@, self.spec_updated_at()),
                forall|i: int|
                    0 <= i < done ==> replaced(
                        #[trigger] states[i].0,
                        states[i].1,
                        old(self).spec_capacity(),
                        all[i].0 as int,
                        all[i].1,
                        states[i + 1].0,
                        states[i + 1].1,
                    ),
            decreases section@.len(),
        {
            let (tick, t) = section.remove(0);
            let ghost before = (self@, self.spec_updated_at());
            self.replace_one(tick, t);
            proof {
                assert(all[done as int] == (tick, t));
                let ns = states.push((self@, self.spec_updated_at()));
                assert forall|i: int|
                    0 <= i < done + 1 implies replaced(
                    #[trigger] ns[i].0,
                    ns[i].1,
                    old(self).spec_capacity(),
                    all[i].0 as int,
                    all[i].1,
                    ns[i + 1].0,
                    ns[i + 1].1,
                ) by {
                    if i < done {
                        assert(ns[i] == states[i] && ns[i + 1] == states[i + 1]);
                    }
                }
                states = ns;
            }
            done += 1;
            assert(section@ =~= all.subrange(done as int, n as int));
        }
    }
}

impl<T> InputHistory<T> {
    /// `wf` without the relation to the newest tick.
    pub open spec fn wf_parts(&self) -> bool {
        &&& 1 <= self.spec_capacity()
        &&& self@.len() <= self.spec_capacity()
    }
}

} // verus!
