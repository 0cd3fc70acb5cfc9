//! The queue of inputs a server has received for a player and not yet used.
use vstd::prelude::*;
use std::collections::VecDeque;
use crate::input_history::{first_tick_of, InputHistory};

verus! {

/// How many inputs wait in a queue at most.
pub const QUEUE_CAPACITY: usize = 30;

/// How many used inputs a queue remembers.
pub const PAST_CAPACITY: usize = 3;

/// For how many ticks an input may stand in for missing ones.
pub const REPEAT_LIMIT: u32 = 5;

/// An input of a player, as the application defines it.
pub trait InputTrait: Clone + Sized {
    /// Whether the input may stand in for the ticks after it when they bring none.
    fn repeats() -> bool;

    /// The input to use `since` ticks after this one, when those ticks brought none.
    fn repeated(&self, since: u32) -> (r: Option<Self>)
        default_ensures
            since > REPEAT_LIMIT ==> r is None,
            r matches Some(x) ==> vstd::pervasive::cloned(*self, x),
    {
        if !Self::repeats() || since > REPEAT_LIMIT {
            return None;
        }
        Some(self.clone())
    }
}

/// The number of leading entries of `q` whose tick is before `tick`.
pub open spec fn due_count<T>(q: Seq<(u32, T)>, tick: u32) -> nat
    decreases q.len(),
{
    if q.len() > 0 && q[0].0 < tick {
        1 + due_count(q.drop_first(), tick)
    } else {
        0
    }
}

/// `q` with `x` pushed at the back, dropping its oldest entry when it holds `cap` already.
pub open spec fn push_wrapping<A>(q: Seq<A>, x: A, cap: nat) -> Seq<A> {
    if q.len() >= cap {
        q.drop_first().push(x)
    } else {
        q.push(x)
    }
}

/// Whether `added` holds clones of the inputs of `h` (first at tick `first`) from index `offset`
/// on, each with its tick, as many as fit.
pub open spec fn queued_from<T: Clone>(h: Seq<T>, first: int, offset: int, room: int, added: Seq<(u32, T)>) -> bool {
    let n = if offset >= h.len() {
        0
    } else if h.len() - offset < room {
        h.len() - offset
    } else {
        room
    };
    &&& added.len() == n
    &&& forall|i: int|
        0 <= i < n ==> (#[trigger] added[i]).0 == first + offset + i && vstd::pervasive::cloned(
            h[offset + i],
            added[i].1,
        )
}

/// What [`InputQueue::take_due`] found for a tick.
#[derive(Debug, PartialEq, Eq)]
pub enum Due<T> {
    /// The input for the tick itself.
    Input(T),
    /// No input for the tick; the newest skipped one, if any, with its tick.
    Missed(Option<(u32, T)>),
}

/// The inputs waiting to be used, in tick order, and the last few used.
#[derive(Debug)]
pub struct InputQueue<T> {
    past: VecDeque<(u32, T)>,
    queue: VecDeque<(u32, T)>,
}

impl<T> InputQueue<T> {
    /// The waiting inputs, with their ticks.
    pub closed spec fn spec_queue(&self) -> Seq<(u32, T)> {
        self.queue@
    }

    /// The last inputs used, with their ticks.
    pub closed spec fn spec_past(&self) -> Seq<(u32, T)> {
        self.past@
    }

    pub open spec fn wf(&self) -> bool {
        &&& self.spec_queue().len() <= QUEUE_CAPACITY
        &&& self.spec_past().len() <= PAST_CAPACITY
    }

    /// An empty queue.
    pub fn new() -> (r: Self)
        ensures
            r.wf(),
            r.spec_queue() == Seq::<(u32, T)>::empty(),
            r.spec_past() == Seq::<(u32, T)>::empty(),
    {
        InputQueue { past: VecDeque::new(), queue: VecDeque::new() }
    }

    /// The last inputs used, oldest first.
    pub fn past(&self) -> (r: &VecDeque<(u32, T)>)
        ensures
            r@ == self.spec_past(),
    {
        &self.past
    }

    /// The waiting inputs, oldest first.
    pub fn queue(&self) -> (r: &VecDeque<(u32, T)>)
        ensures
            r@ == self.spec_queue(),
    {
        &self.queue
    }

    /// Drops the waiting inputs before `tick` and takes the one for `tick`, remembering it
    /// among the past inputs; without one, hands back the newest input dropped.
    pub fn take_due(&mut self, tick: u32) -> (r: Due<T>)
        where T: Clone
        requires
            old(self).wf(),
        ensures
            final(self).wf(),
            ({
                let q = old(self).spec_queue();
                let k = due_count(q, tick);
                let rest = q.subrange(k as int, q.len() as int);
                if rest.len() > 0 && rest[0].0 == tick {
                    &&& r == Due::Input(rest[0].1)
                    &&& final(self).spec_queue() == rest.drop_first()
                    &&& exists|c: T|
                        vstd::pervasive::cloned(rest[0].1, c) && final(self).spec_past()
                            == push_wrapping(old(self).spec_past(), (tick, c), PAST_CAPACITY as nat)
                } else {
                    &&& r == Due::Missed(if k > 0 {
                        Some(q[k - 1])
                    } else {
                        None
                    })
                    &&& final(self).spec_queue() == rest
                    &&& final(self).spec_past() == old(self).spec_past()
                }
            }),
    {
        let ghost q = self.queue@;
        let mut newest_miss: Option<(u32, T)> = None;
        let ghost mut k: nat = 0;
        while self.queue.len() > 0 && self.queue[0].0 < tick
            invariant
                k <= q.len(),
                self.queue@ == q.subrange(k as int, q.len() as int),
                due_count(q, tick) == k + due_count(self.queue@, tick),
                k > 0 ==> newest_miss == Some(q[k - 1]),
                k == 0 ==> newest_miss is None,
                self.past@ == old(self).past@,
            decreases self.queue@.len(),
        {
            let ghost before = self.queue@;
            newest_miss = self.queue.pop_front();
            proof {
                assert(before.drop_first() =~= self.queue@);
                k = k + 1;
            }
            assert(self.queue@ =~= q.subrange(k as int, q.len() as int));
        }
        proof {
            if self.queue@.len() > 0 {
                assert(!(self.queue@[0].0 < tick));
            }
            assert(due_count(self.queue@, tick) == 0);
        }
        if self.queue.len() == 0 || self.queue[0].0 != tick {
            return Due::Missed(newest_miss);
        }
        let ghost rest = self.queue@;
        let (t0, t) = self.queue.pop_front().unwrap();
        let c = t.clone();
        proof {
            assert(vstd::pervasive::cloned(t, c));
            assert(rest.drop_first() =~= self.queue@);
        }
        self.push_past(t0, c);
        Due::Input(t)
    }

    /// Remembers `input`, used at `tick`, forgetting the oldest past input when full.
    fn push_past(&mut self, tick: u32, input: T)
        requires
            old(self).wf(),
        ensures
            final(self).wf(),
            final(self).spec_queue() == old(self).spec_queue(),
            final(self).spec_past() == push_wrapping(
                old(self).spec_past(),
                (tick, input),
                PAST_CAPACITY as nat,
            ),
    {
        if self.past.len() >= PAST_CAPACITY {
            self.past.pop_front();
        }
        self.past.push_back((tick, input));
        assert(self.past@ =~= push_wrapping(old(self).spec_past(), (tick, input), PAST_CAPACITY as nat));
    }
}

impl<T: Clone> InputQueue<T> {
    /// Queues the inputs of `history` from `tick` on that are newer than the newest waiting
    /// one, as many as fit.
    pub fn add(&mut self, tick: u32, history: &InputHistory<T>)
        requires
            old(self).wf(),
            history.wf(),
        ensures
            final(self).wf(),
            final(self).spec_past() == old(self).spec_past(),
            ({
                let q = old(self).spec_queue();
                let newest_missing = if q.len() > 0 && q.last().0 + 1 > tick {
                    q.last().0 + 1
                } else {
                    tick as int
                };
                let first = first_tick_of(history@, history.spec_updated_at());
                let offset = if newest_missing > first {
                    newest_missing - first
                } else {
                    0
                };
                if history.spec_updated_at() < newest_missing {
                    final(self).spec_queue() == q
                } else {
                    exists|added: Seq<(u32, T)>|
                        queued_from(history@, first, offset, QUEUE_CAPACITY - q.len(), added)
                            && final(self).spec_queue() == q + added
                }
            }),
    {
        let len = self.queue.len();
        let newest_missing: u64 = if len > 0 && self.queue[len - 1].0 as u64 + 1 > tick as u64 {
            self.queue[len - 1].0 as u64 + 1
        } else {
            tick as u64
        };
        if (history.updated_at() as u64) < newest_missing {
            return;
        }
        let first = history.first_tick();
        let offset: usize = if newest_missing > first as u64 {
            (newest_missing - first as u64) as usize
        } else {
            0
        };
        let ghost q = self.queue@;
        let ghost h = history@;
        let room = QUEUE_CAPACITY - len;
        let hlen = history.len();
        let end = if offset >= hlen {
            offset
        } else if hlen - offset < room {
            hlen
        } else {
            offset + room
        };
        let u = history.updated_at();
        let ghost mut added: Seq<(u32, T)> = Seq::empty();
        let mut i = offset;
        while i < end
            invariant
                offset <= i <= end,
                end <= hlen || end == offset,
                hlen == h.len(),
                h == history@,
                first == first_tick_of(h, history.spec_updated_at()),
                history.wf(),
                end - offset <= room,
                room == QUEUE_CAPACITY - q.len(),
                added.len() == i - offset,
                forall|j: int|
                    0 <= j < i - offset ==> (#[trigger] added[j]).0 == first + offset + j
                        && vstd::pervasive::cloned(h[offset + j], added[j].1),
                self.queue@ == q + added,
                self.past@ == old(self).past@,
                hlen > 0 ==> first + hlen - 1 == history.spec_updated_at(),
                u == history.spec_updated_at(),
            decreases end - i,
        {
            assert(first + i <= u);
            let tk = first + i as u32;
            let t = history.get(tk).unwrap().clone();
            let entry = (tk, t);
            self.queue.push_back(entry);
            proof {
                added = added.push(entry);
            }
            assert(self.queue@ =~= q + added);
            i += 1;
        }
    }
}

impl<T: InputTrait> InputQueue<T> {
    /// The input to use at `tick`: the queued one for that tick, else a repeat of the newest
    /// input skipped (remembered among the past inputs), else a repeat of the newest past input.
    pub fn next(&mut self, tick: u32) -> (r: Option<T>)
        requires
            old(self).wf(),
        ensures
            final(self).wf(),
            ({
                let q = old(self).spec_queue();
                let k = due_count(q, tick);
                let rest = q.subrange(k as int, q.len() as int);
                &&& final(self).spec_queue() == if rest.len() > 0 && rest[0].0 == tick {
                    rest.drop_first()
                } else {
                    rest
                }
                &&& rest.len() > 0 && rest[0].0 == tick ==> r == Some(rest[0].1) && exists|c: T|
                    vstd::pervasive::cloned(rest[0].1, c) && final(self).spec_past()
                        == push_wrapping(old(self).spec_past(), (tick, c), PAST_CAPACITY as nat)
                &&& !(rest.len() > 0 && rest[0].0 == tick) ==> {
                    ||| final(self).spec_past() == old(self).spec_past()
                    ||| r is Some && exists|c: T|
                        vstd::pervasive::cloned(r->Some_0, c) && final(self).spec_past()
                            == push_wrapping(old(self).spec_past(), (tick, c), PAST_CAPACITY as nat)
                }
                &&& !(rest.len() > 0 && rest[0].0 == tick) && k == 0 && old(self).spec_past().len()
                    == 0 ==> r is None
            }),
    {
        match self.take_due(tick) {
            Due::Input(t) => Some(t),
            Due::Missed(missed) => {
                if let Some((from, t)) = missed {
                    if from > tick {
                        return None;
                    }
                    if let Some(input) = t.repeated(tick - from) {
                        let c = input.clone();
                        proof {
                            assert(vstd::pervasive::cloned(input, c));
                        }
                        self.push_past(tick, c);
                        return Some(input);
                    }
                }
                let len = self.past.len();
                if len == 0 {
                    return None;
                }
                let (from, t) = &self.past[len - 1];
                if *from > tick {
                    return None;
                }
                t.repeated(tick - *from)
            },
        }
    }
}

} // verus!
