//! The history of one attribute: what it was at each tick of a bounded window.
use vstd::prelude::*;
use crate::bits::{
    bit, lemma_bit_and, lemma_bit_not, lemma_bit_or, lemma_bit_shl, lemma_bit_shr, lemma_bit_low,
    lemma_bit_single, lemma_bit_zero, lemma_set_clear, lemma_test_bit,
};
use crate::sparse_blob_deque::{empties, occupied, window, SparseBlobDeque};

verus! {

/// What is known of an attribute at one tick.
#[derive(Debug, PartialEq, Eq)]
pub enum TickData<T> {
    /// It had this value.
    Value(T),
    /// It was removed at this tick.
    Removed,
    /// Nothing is known.
    Missing,
}

impl<T> TickData<T> {
    /// The value, if there is one.
    pub fn value(self) -> (r: Option<T>)
        ensures
            r == match self {
                TickData::Value(t) => Some(t),
                _ => None,
            },
    {
        match self {
            TickData::Value(t) => Some(t),
            _ => None,
        }
    }
}

impl<T> TickData<T> {
    /// The same entry with `f` applied to the value.
    pub fn map<O, F: Fn(&T) -> O>(&self, f: F) -> (r: TickData<O>)
        requires
            forall|t: &T| f.requires((t,)),
        ensures
            match *self {
                TickData::Value(t) => r matches TickData::Value(o) && f.ensures((&t,), o),
                TickData::Removed => r is Removed,
                TickData::Missing => r is Missing,
            },
    {
        match self {
            TickData::Value(t) => TickData::Value(f(t)),
            TickData::Removed => TickData::Removed,
            TickData::Missing => TickData::Missing,
        }
    }
}

impl<'a, T: Clone> TickData<&'a T> {
    /// The same entry, holding a clone of the value.
    pub fn cloned(&self) -> (r: TickData<T>)
        ensures
            match *self {
                TickData::Value(t) => r matches TickData::Value(c) && vstd::pervasive::cloned(*t, c),
                TickData::Removed => r is Removed,
                TickData::Missing => r is Missing,
            },
    {
        match *self {
            TickData::Value(t) => TickData::Value(t.clone()),
            TickData::Removed => TickData::Removed,
            TickData::Missing => TickData::Missing,
        }
    }
}

impl<'a, T: Copy> TickData<&'a T> {
    /// The same entry, holding a copy of the value.
    pub fn copied(&self) -> (r: TickData<T>)
        ensures
            r == match *self {
                TickData::Value(t) => TickData::Value(*t),
                TickData::Removed => TickData::Removed,
                TickData::Missing => TickData::Missing,
            },
    {
        match *self {
            TickData::Value(t) => TickData::Value(*t),
            TickData::Removed => TickData::Removed,
            TickData::Missing => TickData::Missing,
        }
    }
}

/// Whether `b` is a clone of the entry `a`.
pub open spec fn cloned_entry<T: Clone>(a: TickData<T>, b: TickData<T>) -> bool {
    match a {
        TickData::Value(x) => b matches TickData::Value(y) && vstd::pervasive::cloned(x, y),
        TickData::Removed => b is Removed,
        TickData::Missing => b is Missing,
    }
}

/// A copy of `d`, its value cloned.
pub fn clone_entry<T: Clone>(d: &TickData<T>) -> (r: TickData<T>)
    ensures
        cloned_entry(*d, r),
{
    match d {
        TickData::Value(x) => TickData::Value(x.clone()),
        TickData::Removed => TickData::Removed,
        TickData::Missing => TickData::Missing,
    }
}

/// Whether `d` records a fact (a value or a removal).
pub open spec fn is_fact<T>(d: TickData<T>) -> bool {
    !(d is Missing)
}

/// `n` ticks of which nothing is known.
pub open spec fn missings<T>(n: nat) -> Seq<TickData<T>> {
    Seq::new(n, |i: int| TickData::<T>::Missing)
}

/// The index of the newest fact among the first `k` entries of `t`, or -1 if there is none.
pub open spec fn newest_fact_before<T>(t: Seq<TickData<T>>, k: int) -> int
    decreases k,
{
    if k <= 0 {
        -1
    } else if is_fact(t[k - 1]) {
        k - 1
    } else {
        newest_fact_before(t, k - 1)
    }
}

/// The last `c` entries of `t`. When older entries leave and the oldest entry kept is
/// `Missing`, the newest fact among those that leave takes its place, so that a lookup at or
/// after that tick still finds it.
pub open spec fn keep_newest<T>(t: Seq<TickData<T>>, c: nat) -> Seq<TickData<T>> {
    if t.len() <= c {
        t
    } else {
        let k = t.len() - c;
        let rest = t.subrange(k, t.len() as int);
        let j = newest_fact_before(t, k);
        if rest[0] is Missing && j >= 0 {
            rest.update(0, t[j])
        } else {
            rest
        }
    }
}

/// The window (entries, oldest first, and the tick of the newest) after advancing the
/// newest tick from `last` to `tick - 1` with unknown ticks, when `tick` lies past `last + 1`.
pub open spec fn after_gap<T>(s: Seq<TickData<T>>, last: int, c: nat, tick: int) -> (
    Seq<TickData<T>>,
    int,
) {
    if s.len() > 0 && tick > last + 1 {
        (keep_newest(s + missings((tick - 1 - last) as nat), c), tick - 1)
    } else {
        (s, last)
    }
}

/// The window after recording `d` at `tick` in the window `s` whose newest tick is `last`,
/// with room for `c` ticks.
///
/// A tick inside the window (or older, but less than `c` ticks before `last`) is overwritten
/// in place, the window growing backwards to reach it; an older one is ignored. A newer tick
/// (or any tick, in an empty window) becomes the newest, the ticks in between unknown.
pub open spec fn record<T>(s: Seq<TickData<T>>, last: int, c: nat, tick: int, d: TickData<T>) -> (
    Seq<TickData<T>>,
    int,
) {
    if s.len() > 0 && tick <= last {
        let ago = last - tick;
        if ago >= c {
            (s, last)
        } else {
            let s1 = if ago >= s.len() {
                missings((ago + 1 - s.len()) as nat) + s
            } else {
                s
            };
            (s1.update(s1.len() - 1 - ago, d), last)
        }
    } else {
        let g = after_gap(s, last, c, tick);
        (keep_newest(g.0.push(d), c), tick)
    }
}

/// What the window `s`, whose newest tick is `last`, holds for `tick`.
pub open spec fn data_at<T>(s: Seq<TickData<T>>, last: int, tick: int) -> TickData<T> {
    if tick > last || last - tick >= s.len() {
        TickData::Missing
    } else {
        s[s.len() - 1 - (last - tick)]
    }
}

/// The newest fact at or before `tick` in the window `s`, whose newest tick is `last`.
pub open spec fn latest_at<T>(s: Seq<TickData<T>>, last: int, tick: int) -> TickData<T> {
    let ago = if tick >= last {
        0
    } else {
        last - tick
    };
    if ago >= s.len() {
        TickData::Missing
    } else {
        let j = newest_fact_before(s, s.len() - ago);
        if j >= 0 {
            s[j]
        } else {
            TickData::Missing
        }
    }
}

/// The number of unknown entries of `s` from index `from` on, stopping at the first fact
/// and after at most `n`.
pub open spec fn missing_run<T>(s: Seq<TickData<T>>, from: int, n: int) -> nat
    decreases n,
{
    if n <= 0 {
        0
    } else if s[from] is Missing {
        1 + missing_run(s, from + 1, n - 1)
    } else {
        0
    }
}

/// How many ticks right after `tick` are unknown, looking no further than the newest tick
/// `last`; 64 when `tick` is at or after `last`, 0 in an empty window. A `tick` older than
/// the window counts from the oldest entry.
pub open spec fn empty_after_at<T>(s: Seq<TickData<T>>, last: int, tick: int) -> int {
    if s.len() == 0 {
        0
    } else if tick >= last {
        64
    } else {
        let ago = if last - tick < s.len() - 1 {
            last - tick
        } else {
            s.len() - 1
        };
        missing_run(s, s.len() - ago, ago) as int
    }
}

/// The index of the oldest fact at index `i` or later, or `s.len()` if there is none.
pub open spec fn oldest_fact_from<T>(s: Seq<TickData<T>>, i: int) -> int
    decreases s.len() - i,
{
    if i >= s.len() {
        s.len() as int
    } else if is_fact(s[i]) {
        i
    } else {
        oldest_fact_from(s, i + 1)
    }
}

/// The tick of the oldest fact, or `last` when there is none.
pub open spec fn first_tick_at<T>(s: Seq<TickData<T>>, last: int) -> int {
    let j = oldest_fact_from(s, 0);
    if j < s.len() {
        last - (s.len() - 1 - j)
    } else {
        last
    }
}

/// The window after dropping every entry newer than `retain_until`.
pub open spec fn cleaned<T>(s: Seq<TickData<T>>, last: int, retain_until: int) -> (
    Seq<TickData<T>>,
    int,
) {
    if retain_until >= last {
        (s, last)
    } else if last - retain_until >= s.len() {
        (Seq::empty(), retain_until)
    } else {
        (s.subrange(0, s.len() - (last - retain_until)), retain_until)
    }
}

/// The window cut back to its oldest fact: everything newer is dropped. Unchanged when it
/// holds no fact.
pub open spec fn first_fact_kept<T>(s: Seq<TickData<T>>, last: int) -> (Seq<TickData<T>>, int) {
    let j = oldest_fact_from(s, 0);
    if j < s.len() {
        cleaned(s, last, last - (s.len() - 1 - j))
    } else {
        (s, last)
    }
}

/// The number of entries holding a value.
pub open spec fn value_count<T>(s: Seq<TickData<T>>) -> nat
    decreases s.len(),
{
    if s.len() == 0 {
        0
    } else {
        value_count(s.drop_last()) + if s.last() is Value {
            1nat
        } else {
            0nat
        }
    }
}

/// When no entry is both removed and stored, the values are the stored ones.
proof fn lemma_value_count<T>(f: Seq<bool>, l: Seq<Option<T>>)
    requires
        f.len() == l.len(),
        forall|i: int| 0 <= i < l.len() ==> !(f[i] && l[i] is Some),
    ensures
        value_count(combine(f, l)) == occupied(l),
    decreases l.len(),
{
    if l.len() > 0 {
        lemma_value_count(f.drop_last(), l.drop_last());
        assert(combine(f, l).drop_last() =~= combine(f.drop_last(), l.drop_last()));
    }
}

/// The flags of `len` slots read from a mask, oldest first (bit `len - 1 - i` for slot `i`).
pub open spec fn flags(m: u64, len: int) -> Seq<bool> {
    Seq::new(len as nat, |i: int| bit(m, len - 1 - i))
}

/// The entries described by removal flags and stored values.
pub open spec fn combine<T>(removed: Seq<bool>, values: Seq<Option<T>>) -> Seq<TickData<T>> {
    Seq::new(
        values.len(),
        |i: int|
            if removed[i] {
                TickData::Removed
            } else if values[i] is Some {
                TickData::Value(values[i]->Some_0)
            } else {
                TickData::Missing
            },
    )
}

/// What [`newest_fact_before`] finds.
pub proof fn lemma_newest_fact<T>(t: Seq<TickData<T>>, k: int)
    requires
        0 <= k <= t.len(),
    ensures
        -1 <= newest_fact_before(t, k) < k,
        newest_fact_before(t, k) >= 0 ==> is_fact(t[newest_fact_before(t, k)]),
        forall|x: int| newest_fact_before(t, k) < x < k ==> !is_fact(#[trigger] t[x]),
    decreases k,
{
    if k > 0 {
        lemma_newest_fact(t, k - 1);
    }
}

/// [`newest_fact_before`] looks only at the first `k` entries, and skips unknown ones.
pub proof fn lemma_newest_fact_same<T>(t: Seq<TickData<T>>, u: Seq<TickData<T>>, k: int, m: int)
    requires
        0 <= m <= k <= t.len(),
        m <= u.len(),
        forall|x: int| 0 <= x < m ==> t[x] == u[x],
        forall|x: int| m <= x < k ==> !is_fact(#[trigger] t[x]),
    ensures
        newest_fact_before(t, k) == newest_fact_before(u, m),
    decreases k,
{
    if k > m {
        lemma_newest_fact_same(t, u, k - 1, m);
    } else if k > 0 {
        lemma_newest_fact_same(t, u, k - 1, m - 1);
    }
}

/// The entry that records `value`; for `None`, a removal when `removed` holds, else nothing.
pub open spec fn entry_of<T>(value: Option<T>, removed: bool) -> TickData<T> {
    match value {
        Some(v) => TickData::Value(v),
        None => if removed {
            TickData::Removed
        } else {
            TickData::Missing
        },
    }
}

/// `n` cleared flags.
pub open spec fn falses(n: nat) -> Seq<bool> {
    Seq::new(n, |i: int| false)
}

/// Shifts `n` cleared flags in after the newest of the `len` flags of `r`, keeping at most
/// `cap` of them.
fn window_shift(r: u64, len: u8, n: u8, cap: u8) -> (out: u64)
    requires
        len <= cap <= 64,
        n < 64,
        forall|q: int| len <= q < 64 ==> !bit(r, q),
    ensures
        ({
            let newlen = if len + n < cap {
                (len + n) as int
            } else {
                cap as int
            };
            &&& flags(out, newlen) == window(flags(r, len as int) + falses(n as nat), cap as nat)
            &&& forall|q: int| newlen <= q < 64 ==> !bit(out, q)
        }),
{
    let newlen: u8 = if (len as u64 + n as u64) < cap as u64 {
        len + n
    } else {
        cap
    };
    let low: u64 = if newlen == 64 {
        u64::MAX
    } else {
        let nl = newlen as u64;
        assert(1u64 << nl >= 1) by (bit_vector)
            requires
                nl < 64,
        ;
        (1u64 << nl) - 1
    };
    let out = (r << n as u64) & low;
    proof {
        assert forall|q: int| 0 <= q < 64 implies bit(out, q) == (q < newlen && q >= n && bit(
            r,
            q - n,
        )) by {
            lemma_bit_and(r << n as u64, low, q);
            lemma_bit_shl(r, n as u64, q);
            if newlen == 64 {
                lemma_bit_not(0u64, q);
                lemma_bit_zero(q);
                assert(!0u64 == u64::MAX) by (bit_vector);
            } else {
                lemma_bit_low(newlen as u64, q);
            }
        }
        let t = flags(r, len as int) + falses(n as nat);
        assert(flags(out, newlen as int) =~= window(t, cap as nat)) by {
            assert forall|i: int| 0 <= i < newlen implies flags(out, newlen as int)[i] == window(
                t,
                cap as nat,
            )[i] by {
                let x = len + n - newlen + i;
                assert(window(t, cap as nat)[i] == t[x]);
            }
        }
    }
    out
}

/// The history of one attribute over a window of at most `capacity` consecutive ticks
/// ending at `last_tick`: for each tick a value, a removal, or nothing known.
///
/// Values live in a [`SparseBlobDeque`]; removals are bits of a second mask with the same
/// convention (the least significant bit is the newest tick). A tick is never both.
#[derive(Debug)]
pub struct ComponentHistory<T> {
    removed_mask: u64,
    list: SparseBlobDeque<T>,
    last_tick: u32,
}

impl<T> ComponentHistory<T> {
    pub closed spec fn wf(&self) -> bool {
        &&& self.list.wf()
        &&& forall|q: int| self.list@.len() <= q < 64 ==> !bit(self.removed_mask, q)
        &&& forall|i: int|
            0 <= i < self.list@.len() ==> !(bit(self.removed_mask, self.list@.len() - 1 - i)
                && self.list@[i] is Some)
        &&& self.last_tick + 1 >= self.list@.len()
    }

    /// `wf` without the relation between the length and the newest tick.
    closed spec fn wf_except_ticks(&self) -> bool {
        &&& self.list.wf()
        &&& forall|q: int| self.list@.len() <= q < 64 ==> !bit(self.removed_mask, q)
        &&& forall|i: int|
            0 <= i < self.list@.len() ==> !(bit(self.removed_mask, self.list@.len() - 1 - i)
                && self.list@[i] is Some)
    }

    /// The entries of the window, oldest first.
    pub closed spec fn view(&self) -> Seq<TickData<T>> {
        combine(flags(self.removed_mask, self.list@.len() as int), self.list@)
    }

    /// The tick of the newest entry.
    pub closed spec fn spec_last_tick(&self) -> int {
        self.last_tick as int
    }

    /// The most ticks the window holds.
    pub closed spec fn spec_capacity(&self) -> nat {
        self.list.spec_capacity()
    }

    proof fn lemma_wf(&self)
        requires
            self.wf_except_ticks(),
        ensures
            1 <= self.spec_capacity() <= 64,
            self@.len() <= self.spec_capacity(),
            self.wf() ==> self@.len() <= self.spec_last_tick() + 1,
            self@.len() == self.list@.len(),
            forall|i: int|
                0 <= i < self@.len() ==> (#[trigger] self@[i] is Removed <==> bit(
                    self.removed_mask,
                    self@.len() - 1 - i,
                )),
            forall|i: int|
                0 <= i < self@.len() ==> (#[trigger] self@[i] is Value <==> bit(
                    self.list.spec_mask(),
                    self@.len() - 1 - i,
                )),
            forall|i: int|
                0 <= i < self@.len() ==> (#[trigger] self@[i] is Missing <==> (!bit(
                    self.removed_mask,
                    self@.len() - 1 - i,
                ) && !bit(self.list.spec_mask(), self@.len() - 1 - i))),
            forall|q: int| self@.len() <= q < 64 ==> !bit(self.removed_mask, q),
            forall|q: int| self@.len() <= q < 64 ==> !bit(self.list.spec_mask(), q),
    {
        self.list.lemma_mask();
    }

    /// An empty history of `capacity` ticks (1 to 64).
    pub fn new(capacity: u8) -> (r: Self)
        requires
            1 <= capacity <= 64,
        ensures
            r.wf(),
            r@ == Seq::<TickData<T>>::empty(),
            r.spec_last_tick() == 0,
            r.spec_capacity() == capacity,
    {
        let r = ComponentHistory { removed_mask: 0, list: SparseBlobDeque::new(capacity), last_tick: 0 };
        proof {
            assert forall|q: int| 0 <= q < 64 implies !bit(0u64, q) by {
                lemma_bit_zero(q);
            }
        }
        assert(r@ =~= Seq::<TickData<T>>::empty());
        r
    }

    /// The number of ticks in the window.
    pub fn len(&self) -> (r: usize)
        requires
            self.wf(),
        ensures
            r == self@.len(),
    {
        self.list.len()
    }

    /// The number of stored values.
    pub fn stored_items(&self) -> (r: usize)
        requires
            self.wf(),
        ensures
            r == value_count(self@),
    {
        proof {
            lemma_value_count(flags(self.removed_mask, self.list@.len() as int), self.list@);
        }
        self.list.stored_items()
    }

    /// The tick of the newest entry.
    pub fn last_tick(&self) -> (r: u32)
        ensures
            r == self.spec_last_tick(),
    {
        self.last_tick
    }

    /// The removal mask: bit `k` is set when the tick `k` ticks before the newest was a
    /// removal.
    pub fn removed_mask(&self) -> (r: u64)
        requires
            self.wf(),
        ensures
            forall|i: int| 0 <= i < self@.len() ==> (bit(r, self@.len() - 1 - i) <==> #[trigger] self@[i] is Removed),
            forall|q: int| self@.len() <= q < 64 ==> !bit(r, q),
    {
        proof {
            self.lemma_wf();
        }
        self.removed_mask
    }

    /// What is known at `tick`.
    pub fn get(&self, tick: u32) -> (r: TickData<&T>)
        requires
            self.wf(),
        ensures
            r == match data_at(self@, self.spec_last_tick(), tick as int) {
                TickData::Value(v) => TickData::Value(&v),
                TickData::Removed => TickData::Removed,
                TickData::Missing => TickData::Missing,
            },
    {
        proof {
            self.lemma_wf();
        }
        if tick > self.last_tick {
            return TickData::Missing;
        }
        let ago = self.last_tick - tick;
        if ago as usize >= self.len() {
            return TickData::Missing;
        }
        let index = self.len() - 1 - ago as usize;
        proof {
            lemma_test_bit(self.removed_mask, ago as u64);
        }
        if (self.removed_mask >> ago as u64) & 1 == 1 {
            return TickData::Removed;
        }
        match self.list.get(index) {
            Some(v) => TickData::Value(v),
            None => TickData::Missing,
        }
    }

    /// Adds `n` unknown newest ticks without moving `last_tick`; the oldest entries leave
    /// as the capacity requires.
    fn extend(&mut self, n: u8)
        requires
            old(self).wf_except_ticks(),
            n < old(self).spec_capacity(),
        ensures
            final(self).wf_except_ticks(),
            final(self)@ == window(old(self)@ + missings(n as nat), old(self).spec_capacity()),
            final(self).spec_last_tick() == old(self).spec_last_tick(),
            final(self).spec_capacity() == old(self).spec_capacity(),
    {
        let ghost old_view = self@;
        let ghost f = flags(self.removed_mask, self.list@.len() as int);
        let ghost l = self.list@;
        let len = self.list.len() as u8;
        let cap = self.list.capacity() as u8;
        proof {
            self.list.lemma_mask();
        }
        self.list.extend_back(n as usize);
        self.removed_mask = window_shift(self.removed_mask, len, n, cap);
        proof {
            let c = cap as nat;
            let tf = f + falses(n as nat);
            let tl = l + empties::<T>(n as nat);
            let tv = old_view + missings::<T>(n as nat);
            let newlen = self.list@.len();
            assert(self.list@ == window(tl, c));
            assert(flags(self.removed_mask, newlen as int) == window(tf, c));
            assert forall|i: int| 0 <= i < newlen implies !(bit(self.removed_mask, newlen - 1 - i)
                && self.list@[i] is Some) by {
                assert(flags(self.removed_mask, newlen as int)[i] == window(tf, c)[i]);
                assert(self.list@[i] == window(tl, c)[i]);
                let x = len + n - newlen + i;
                assert(window(tf, c)[i] == tf[x]);
                assert(window(tl, c)[i] == tl[x]);
                if x < len {
                    assert(tf[x] == f[x]);
                    assert(tl[x] == l[x]);
                }
            }
            assert(self@ =~= window(tv, c)) by {
                assert forall|i: int| 0 <= i < newlen implies self@[i] == window(tv, c)[i] by {
                    assert(flags(self.removed_mask, newlen as int)[i] == window(tf, c)[i]);
                    assert(self.list@[i] == window(tl, c)[i]);
                    let x = len + n - newlen + i;
                    assert(window(tf, c)[i] == tf[x]);
                    assert(window(tl, c)[i] == tl[x]);
                    assert(window(tv, c)[i] == tv[x]);
                }
            }
        }
    }

    /// Whether entry `i` records a fact.
    fn is_fact_at(&self, i: usize) -> (r: bool)
        requires
            self.wf_except_ticks(),
            i < self@.len(),
        ensures
            r == is_fact(self@[i as int]),
    {
        proof {
            self.lemma_wf();
            lemma_bit_or(self.removed_mask, self.list.spec_mask(), self@.len() - 1 - i);
        }
        let p = (self.list.len() - 1 - i) as u64;
        proof {
            lemma_test_bit(self.removed_mask | self.list.spec_mask(), p);
        }
        (self.removed_mask | self.list.mask()) >> p & 1 == 1
    }

    /// The newest entry before index `k` that records a fact.
    fn newest_fact(&self, k: usize) -> (r: Option<usize>)
        requires
            self.wf_except_ticks(),
            k <= self@.len(),
        ensures
            newest_fact_before(self@, k as int) >= 0 ==> r == Some(
                newest_fact_before(self@, k as int) as usize,
            ),
            newest_fact_before(self@, k as int) < 0 ==> r is None,
    {
        let mut i = k;
        while i > 0
            invariant
                self.wf_except_ticks(),
                i <= k <= self@.len(),
                newest_fact_before(self@, k as int) == newest_fact_before(self@, i as int),
            decreases i,
        {
            if self.is_fact_at(i - 1) {
                return Some(i - 1);
            }
            i -= 1;
        }
        None
    }

    /// Moves the fact of entry `j` to entry `k`, when every entry after `j` up to and
    /// including `k` is unknown.
    fn move_fact(&mut self, j: usize, k: usize)
        requires
            old(self).wf_except_ticks(),
            j < k < old(self)@.len(),
            is_fact(old(self)@[j as int]),
            forall|x: int| j < x <= k ==> old(self)@[x] is Missing,
        ensures
            final(self).wf_except_ticks(),
            final(self)@ == old(self)@.update(k as int, old(self)@[j as int]).update(
                j as int,
                TickData::Missing,
            ),
            final(self).spec_last_tick() == old(self).spec_last_tick(),
            final(self).spec_capacity() == old(self).spec_capacity(),
    {
        proof {
            self.lemma_wf();
        }
        let ghost old_view = self@;
        let ghost l = self.list@;
        let ghost r = self.removed_mask;
        let len = self.list.len();
        let pj = (len - 1 - j) as u64;
        let pk = (len - 1 - k) as u64;
        proof {
            lemma_test_bit(self.removed_mask, pj);
        }
        if (self.removed_mask >> pj) & 1 == 1 {
            proof {
                lemma_set_clear(r, pj);
                lemma_set_clear(r & !(1u64 << pj), pk);
            }
            self.removed_mask = (self.removed_mask & !(1u64 << pj)) | (1u64 << pk);
            proof {
                let r1 = r & !(1u64 << pj);
                let r2 = self.removed_mask;
                assert forall|q: int| 0 <= q < 64 implies bit(r2, q) == (q == pk || (q != pj && bit(r, q))) by {
                    assert(bit(r1 | (1u64 << pk), q) == (q == pk || bit(r1, q)));
                    assert(bit(r & !(1u64 << pj), q) == (q != pj && bit(r, q)));
                }
                assert forall|i: int| 0 <= i < len implies !(bit(r2, len - 1 - i) && self.list@[i] is Some) by {
                    assert(old_view[i] is Removed <==> bit(r, len - 1 - i));
                    if i == k {
                        assert(old_view[k as int] is Missing);
                    }
                }
                assert(self@ =~= old_view.update(k as int, old_view[j as int]).update(
                    j as int,
                    TickData::Missing,
                )) by {
                    assert forall|i: int| 0 <= i < len implies self@[i] == old_view.update(
                        k as int,
                        old_view[j as int],
                    ).update(j as int, TickData::Missing)[i] by {
                        assert(old_view[i] is Removed <==> bit(r, len - 1 - i));
                    }
                }
            }
        } else {
            proof {
                assert(l[j as int] is Some);
                assert forall|x: int| j < x <= k implies l[x] is None by {
                    assert(old_view[x] is Missing);
                }
            }
            self.list.relocate(j, k);
            proof {
                assert forall|i: int| 0 <= i < len implies !(bit(r, len - 1 - i) && self.list@[i] is Some) by {
                    assert(old_view[i] is Removed <==> bit(r, len - 1 - i));
                    if i == k {
                        assert(old_view[k as int] is Missing);
                    }
                }
                assert forall|i: int| 0 <= i < len implies self@[i] == old_view.update(
                    k as int,
                    old_view[j as int],
                ).update(j as int, TickData::Missing)[i] by {
                    assert(old_view[i] is Removed <==> bit(r, len - 1 - i));
                    if i == k {
                        assert(old_view[k as int] is Missing);
                    }
                }
                assert(self@ =~= old_view.update(k as int, old_view[j as int]).update(
                    j as int,
                    TickData::Missing,
                ));
            }
        }
    }

    /// Appends `value` (a removal for `None`) as the newest entry, at `tick`; a full window
    /// first lets its oldest entry go, keeping its fact in the next entry when that one is
    /// unknown.
    fn push_entry(&mut self, tick: u32, value: Option<T>, removed: bool)
        requires
            old(self).wf_except_ticks(),
            old(self)@.len() <= tick,
        ensures
            final(self).wf(),
            final(self)@ == keep_newest(
                old(self)@.push(entry_of(value, removed)),
                old(self).spec_capacity(),
            ),
            final(self).spec_last_tick() == tick,
            final(self).spec_capacity() == old(self).spec_capacity(),
    {
        proof {
            self.lemma_wf();
        }
        let ghost d = entry_of(value, removed);
        let ghost c = self.spec_capacity();
        let ghost old_view = self@;
        let len = self.list.len();
        let cap = self.list.capacity();
        if len == cap && cap == 1 && value.is_none() && !removed && self.is_fact_at(0) {
            self.last_tick = tick;
            proof {
                lemma_newest_fact(old_view.push(d), 1);
                assert(self@ =~= keep_newest(old_view.push(d), c));
            }
            return;
        }
        if len == cap && cap >= 2 {
            if !self.is_fact_at(1) && self.is_fact_at(0) {
                self.move_fact(0, 1);
            }
        }
        let ghost mid = self@;
        let ghost f = flags(self.removed_mask, len as int);
        let ghost l = self.list@;
        proof {
            self.lemma_wf();
        }
        let is_removed = value.is_none() && removed;
        let shifted = window_shift(self.removed_mask, len as u8, 1, cap as u8);
        self.removed_mask = if is_removed {
            shifted | 1
        } else {
            shifted
        };
        self.list.append(value);
        self.last_tick = tick;
        proof {
            let newlen = self.list@.len();
            let tf = f + falses(1);
            let sh = shifted;
            assert(flags(sh, newlen as int) == window(tf, c));
            assert forall|q: int| 0 <= q < 64 implies bit(self.removed_mask, q) == (bit(sh, q) || (
            is_removed && q == 0)) by {
                if is_removed {
                    lemma_bit_or(sh, 1, q);
                    lemma_set_clear(0u64, 0);
                    assert(1u64 << 0u64 == 1u64) by (bit_vector);
                    lemma_bit_zero(q);
                    assert(0u64 | 1u64 == 1u64) by (bit_vector);
                }
            }
            let target = keep_newest(old_view.push(d), c);
            let base = if len == cap {
                mid.drop_first()
            } else {
                mid
            };
            assert(self.list@ == (if len == cap {
                l.drop_first()
            } else {
                l
            }).push(value));
            assert forall|i: int| 0 <= i < newlen implies flags(self.removed_mask, newlen as int)[i]
                == (if i == newlen - 1 {
                is_removed
            } else {
                f[if len == cap {
                    i + 1
                } else {
                    i
                }]
            }) by {
                assert(flags(sh, newlen as int)[i] == window(tf, c)[i]);
            }
            assert(self@ =~= base.push(d)) by {
                assert forall|i: int| 0 <= i < newlen - 1 implies self@[i] == base[i] by {
                    let x = if len == cap {
                        i + 1
                    } else {
                        i
                    };
                    assert(mid[x] == combine(f, l)[x]);
                }
            }
            if len == cap {
                if cap >= 2 {
                    lemma_newest_fact(old_view.push(d), 1);
                    assert(base.push(d) =~= target);
                } else {
                    lemma_newest_fact(old_view.push(d), 1);
                    assert(base.push(d) =~= target);
                }
            } else {
                assert(base.push(d) =~= target);
            }
            assert forall|q: int| newlen <= q < 64 implies !bit(self.removed_mask, q) by {
                assert(!bit(sh, q));
            }
            assert(self.last_tick + 1 >= newlen);
            assert forall|i: int| 0 <= i < newlen implies !(bit(self.removed_mask, newlen - 1 - i)
                && self.list@[i] is Some) by {
                assert(flags(self.removed_mask, newlen as int)[i] == bit(self.removed_mask, newlen - 1 - i));
                if i < newlen - 1 {
                    let x = if len == cap {
                        i + 1
                    } else {
                        i
                    };
                    assert(mid[x] == combine(f, l)[x]);
                    assert(flags(self.removed_mask, newlen as int)[i] == f[x]);
                } else {
                    assert(flags(self.removed_mask, newlen as int)[i] == is_removed);
                }
            }
        }
    }

    /// Moves the newest tick `gap` ticks on, the ticks in between unknown. Entries that no
    /// longer fit leave; if the oldest entry kept is unknown, the newest fact among those that
    /// leave moves into it.
    fn advance(&mut self, gap: u32)
        requires
            old(self).wf(),
            old(self)@.len() > 0,
            gap >= 1,
            old(self).spec_last_tick() + gap <= u32::MAX,
        ensures
            final(self).wf(),
            final(self)@ == keep_newest(old(self)@ + missings(gap as nat), old(self).spec_capacity()),
            final(self).spec_last_tick() == old(self).spec_last_tick() + gap,
            final(self).spec_capacity() == old(self).spec_capacity(),
    {
        proof {
            self.lemma_wf();
        }
        let ghost old_view = self@;
        let ghost c = self.spec_capacity();
        let ghost t = old_view + missings::<T>(gap as nat);
        self.last_tick = self.last_tick + gap;
        let len = self.list.len();
        let cap = self.list.capacity();
        if len as u64 + gap as u64 > cap as u64 {
            let k = len as u64 + gap as u64 - cap as u64;
            if k >= len as u64 {
                let newest = self.newest_fact(len);
                proof {
                    lemma_newest_fact(old_view, len as int);
                    lemma_newest_fact_same(t, old_view, k as int, len as int);
                }
                match newest {
                    Some(j) => {
                        if j < len - 1 {
                            self.move_fact(j, len - 1);
                        }
                    },
                    None => {},
                }
                let ghost moved = self@;
                self.extend((cap - 1) as u8);
                proof {
                    let w = moved + missings::<T>((c - 1) as nat);
                    assert(self@ == window(w, c));
                    assert(self@ =~= keep_newest(t, c)) by {
                        assert(window(w, c)[0] == moved[len - 1]);
                        assert forall|i: int| 1 <= i < c implies window(w, c)[i] is Missing by {
                            assert(window(w, c)[i] == w[len + i - 1]);
                        }
                        assert forall|i: int| 0 <= i < c implies keep_newest(t, c)[i] == window(w, c)[i] by {
                            assert(t.subrange(k as int, t.len() as int)[i] == t[k + i]);
                            if newest is None {
                                assert(!is_fact(old_view[len - 1]));
                            }
                        }
                    }
                }
                return;
            }
            if !self.is_fact_at(k as usize) {
                let newest = self.newest_fact(k as usize);
                proof {
                    lemma_newest_fact(old_view, k as int);
                    lemma_newest_fact_same(t, old_view, k as int, k as int);
                }
                match newest {
                    Some(j) => {
                        self.move_fact(j, k as usize);
                    },
                    None => {},
                }
            }
            let ghost moved = self@;
            self.extend(gap as u8);
            proof {
                let w = moved + missings::<T>(gap as nat);
                assert(self@ =~= keep_newest(t, c)) by {
                    assert forall|i: int| 0 <= i < c implies keep_newest(t, c)[i] == window(w, c)[i] by {
                        assert(window(w, c)[i] == w[k + i]);
                        assert(t.subrange(k as int, t.len() as int)[i] == t[k + i]);
                    }
                }
            }
            return;
        }
        self.extend(gap as u8);
        proof {
            assert(self@ =~= keep_newest(t, c));
        }
    }

    /// Records `value` (a removal for `None`) at `tick`.
    fn record_entry(&mut self, tick: u32, value: Option<T>)
        requires
            old(self).wf(),
        ensures
            final(self).wf(),
            (final(self)@, final(self).spec_last_tick()) == record(
                old(self)@,
                old(self).spec_last_tick(),
                old(self).spec_capacity(),
                tick as int,
                entry_of(value, true),
            ),
            final(self).spec_capacity() == old(self).spec_capacity(),
    {
        proof {
            self.lemma_wf();
        }
        let ghost old_view = self@;
        let ghost c = self.spec_capacity();
        let ghost d = entry_of(value, true);
        let len = self.list.len();
        if len > 0 && tick <= self.last_tick {
            let ago = self.last_tick - tick;
            if ago as usize >= self.list.capacity() {
                return;
            }
            let ghost r = self.removed_mask;
            if ago as usize >= len {
                self.list.extend_front(ago as usize - (len - 1));
                proof {
                    let s1 = missings::<T>((ago + 1 - len) as nat) + old_view;
                    let nl = self.list@.len() as int;
                    assert(nl == ago + 1);
                    assert(self@ =~= s1) by {
                        assert forall|i: int| 0 <= i < nl implies self@[i] == s1[i] by {
                            if i < nl - len {
                                assert(!bit(r, nl - 1 - i));
                            }
                        }
                    }
                }
            }
            let ghost s1 = self@;
            let len2 = self.list.len();
            let index = len2 - 1 - ago as usize;
            proof {
                self.lemma_wf();
                lemma_set_clear(self.removed_mask, ago as u64);
            }
            let ghost r0 = self.removed_mask;
            let ghost l0 = self.list@;
            let ghost is_value = value is Some;
            match value {
                Some(v) => {
                    self.list.replace(index, v);
                    self.removed_mask = self.removed_mask & !(1u64 << ago as u64);
                },
                None => {
                    let _dropped = self.list.take(index);
                    self.removed_mask = self.removed_mask | (1u64 << ago as u64);
                },
            }
            proof {
                let r2 = self.removed_mask;
                let a = ago as u64;
                assert forall|q: int| 0 <= q < 64 implies bit(r2, q) == (if q == ago {
                    !is_value
                } else {
                    bit(r0, q)
                }) by {
                    lemma_bit_or(r0, 1u64 << a, q);
                    lemma_bit_and(r0, !(1u64 << a), q);
                    lemma_bit_not(1u64 << a, q);
                    lemma_bit_single(a, q);
                }
                assert(len2 - 1 - index == ago);
                assert forall|q: int| len2 <= q < 64 implies !bit(r2, q) by {}
                assert forall|i: int| 0 <= i < len2 implies !(bit(r2, len2 - 1 - i) && self.list@[i] is Some) by {
                    assert(s1[i] is Removed <==> bit(r0, len2 - 1 - i));
                }
                assert forall|i: int| 0 <= i < len2 implies self@[i] == s1.update(index as int, d)[i] by {
                    assert(s1[i] is Removed <==> bit(r0, len2 - 1 - i));
                }
                assert(self@ =~= s1.update(index as int, d));
            }
            return;
        }
        if len > 0 && tick - 1 > self.last_tick {
            self.advance(tick - 1 - self.last_tick);
        }
        self.push_entry(tick, value, true);
    }

    /// Records `value` at `tick`. See [`record`] for where it lands.
    pub fn write(&mut self, tick: u32, value: T)
        requires
            old(self).wf(),
        ensures
            final(self).wf(),
            (final(self)@, final(self).spec_last_tick()) == record(
                old(self)@,
                old(self).spec_last_tick(),
                old(self).spec_capacity(),
                tick as int,
                TickData::Value(value),
            ),
            final(self).spec_capacity() == old(self).spec_capacity(),
    {
        self.record_entry(tick, Some(value));
    }

    /// Records that the attribute was removed at `tick`, dropping any value stored for that
    /// tick. See [`record`] for where it lands.
    pub fn mark_removed(&mut self, tick: u32)
        requires
            old(self).wf(),
        ensures
            final(self).wf(),
            (final(self)@, final(self).spec_last_tick()) == record(
                old(self)@,
                old(self).spec_last_tick(),
                old(self).spec_capacity(),
                tick as int,
                TickData::Removed,
            ),
            final(self).spec_capacity() == old(self).spec_capacity(),
    {
        self.record_entry(tick, None);
    }

    /// Whether the window is empty.
    pub fn is_empty(&self) -> (r: bool)
        requires
            self.wf(),
        ensures
            r == (self@.len() == 0),
    {
        self.list.is_empty()
    }

    /// The most ticks the window holds.
    pub fn capacity(&self) -> (r: usize)
        requires
            self.wf(),
        ensures
            r == self.spec_capacity(),
    {
        self.list.capacity()
    }

    /// The presence mask: bit `k` is set when the tick `k` ticks before the newest has a
    /// value.
    pub fn mask(&self) -> (r: u64)
        requires
            self.wf(),
        ensures
            forall|i: int|
                0 <= i < self@.len() ==> (bit(r, self@.len() - 1 - i) <==> #[trigger] self@[i] is Value),
            forall|q: int| self@.len() <= q < 64 ==> !bit(r, q),
    {
        proof {
            self.lemma_wf();
        }
        self.list.mask()
    }

    /// Moves the newest tick of the window to `last_tick`, keeping the entries.
    pub fn set_last_tick(&mut self, last_tick: u32)
        requires
            old(self).wf(),
            old(self)@.len() <= last_tick + 1,
        ensures
            final(self).wf(),
            final(self)@ == old(self)@,
            final(self).spec_last_tick() == last_tick,
            final(self).spec_capacity() == old(self).spec_capacity(),
    {
        self.last_tick = last_tick;
    }

    /// Extends the window to reach `tick` without recording anything for it: a tick newer
    /// than the window (or any tick, in an empty window) becomes the newest, unknown; an
    /// older tick changes nothing.
    pub fn touch(&mut self, tick: u32)
        requires
            old(self).wf(),
        ensures
            final(self).wf(),
            (final(self)@, final(self).spec_last_tick()) == if old(self)@.len() > 0 && tick
                <= old(self).spec_last_tick() {
                (old(self)@, old(self).spec_last_tick())
            } else {
                (
                    keep_newest(
                        after_gap(
                            old(self)@,
                            old(self).spec_last_tick(),
                            old(self).spec_capacity(),
                            tick as int,
                        ).0.push(TickData::Missing),
                        old(self).spec_capacity(),
                    ),
                    tick as int,
                )
            },
            final(self).spec_capacity() == old(self).spec_capacity(),
    {
        proof {
            self.lemma_wf();
        }
        let len = self.list.len();
        if len > 0 && tick <= self.last_tick {
            return;
        }
        if len > 0 && tick - 1 > self.last_tick {
            self.advance(tick - 1 - self.last_tick);
        }
        self.push_entry(tick, None, false);
    }

    /// The newest fact at or before `tick` (a tick after the window searches from its newest
    /// entry); `Missing` when there is none in the window.
    pub fn get_latest(&self, tick: u32) -> (r: TickData<&T>)
        requires
            self.wf(),
        ensures
            r == match latest_at(self@, self.spec_last_tick(), tick as int) {
                TickData::Value(v) => TickData::Value(&v),
                TickData::Removed => TickData::Removed,
                TickData::Missing => TickData::Missing,
            },
    {
        proof {
            self.lemma_wf();
        }
        let ago: u32 = if tick >= self.last_tick {
            0
        } else {
            self.last_tick - tick
        };
        let len = self.list.len();
        if ago as usize >= len {
            return TickData::Missing;
        }
        proof {
            lemma_newest_fact(self@, len - ago);
        }
        match self.newest_fact(len - ago as usize) {
            None => TickData::Missing,
            Some(j) => {
                let p = (len - 1 - j) as u64;
                proof {
                    lemma_test_bit(self.removed_mask, p);
                }
                if (self.removed_mask >> p) & 1 == 1 {
                    TickData::Removed
                } else {
                    match self.list.get(j) {
                        Some(v) => TickData::Value(v),
                        None => TickData::Missing,
                    }
                }
            },
        }
    }

    /// How many ticks right after `tick` are unknown, up to the newest tick: see
    /// [`empty_after_at`].
    pub fn empty_after(&self, tick: u32) -> (r: u32)
        requires
            self.wf(),
        ensures
            r == empty_after_at(self@, self.spec_last_tick(), tick as int),
    {
        proof {
            self.lemma_wf();
        }
        let len = self.list.len();
        if len == 0 {
            return 0;
        }
        if tick >= self.last_tick {
            return 64;
        }
        let ago: usize = if ((self.last_tick - tick) as usize) < len - 1 {
            (self.last_tick - tick) as usize
        } else {
            len - 1
        };
        let start = len - ago;
        let mut count: usize = 0;
        while count < ago && !self.is_fact_at(start + count)
            invariant
                self.wf(),
                len == self@.len(),
                start + ago == len,
                count <= ago,
                forall|x: int| start <= x < start + count ==> self@[x] is Missing,
            decreases ago - count,
        {
            count += 1;
        }
        proof {
            let s = self@;
            lemma_missing_run_prefix(s, start as int, count as int, ago as int, count as int);
            assert(missing_run(s, start + count, ago - count) == 0);
        }
        count as u32
    }

    /// The tick of the oldest fact in the window, or the newest tick when there is none.
    pub fn first_tick(&self) -> (r: u32)
        requires
            self.wf(),
        ensures
            r == first_tick_at(self@, self.spec_last_tick()),
    {
        proof {
            self.lemma_wf();
        }
        let len = self.list.len();
        let mut j: usize = 0;
        while j < len && !self.is_fact_at(j)
            invariant
                self.wf(),
                len == self@.len(),
                j <= len,
                oldest_fact_from(self@, 0) == oldest_fact_from(self@, j as int),
            decreases len - j,
        {
            j += 1;
        }
        if j < len {
            self.last_tick - (len - 1 - j) as u32
        } else {
            self.last_tick
        }
    }

    /// Drops every entry newer than `retain_until`; the window ends there afterwards. When
    /// that leaves nothing of the window, it is cleared.
    pub fn clean(&mut self, retain_until: u32)
        requires
            old(self).wf(),
        ensures
            final(self).wf(),
            (final(self)@, final(self).spec_last_tick()) == cleaned(
                old(self)@,
                old(self).spec_last_tick(),
                retain_until as int,
            ),
            final(self).spec_capacity() == old(self).spec_capacity(),
    {
        proof {
            self.lemma_wf();
        }
        if retain_until >= self.last_tick {
            return;
        }
        let ghost old_view = self@;
        let to_drop = self.last_tick - retain_until;
        let len = self.list.len();
        if to_drop as usize >= len {
            self.list.clear();
            self.removed_mask = 0;
            self.last_tick = retain_until;
            proof {
                assert forall|q: int| 0 <= q < 64 implies !bit(0u64, q) by {
                    lemma_bit_zero(q);
                }
                assert(self@ =~= Seq::<TickData<T>>::empty());
            }
            return;
        }
        let ghost r = self.removed_mask;
        self.removed_mask = self.removed_mask >> to_drop as u64;
        self.list.trim_back(to_drop as usize);
        self.last_tick = self.last_tick - to_drop;
        proof {
            let r2 = self.removed_mask;
            let nl = len - to_drop;
            assert forall|q: int| 0 <= q < 64 implies bit(r2, q) == (q + to_drop < 64 && bit(r, q + to_drop)) by {
                lemma_bit_shr(r, to_drop as u64, q);
            }
            assert forall|q: int| nl <= q < 64 implies !bit(r2, q) by {}
            assert forall|i: int| 0 <= i < nl implies !(bit(r2, nl - 1 - i) && self.list@[i] is Some) by {
                assert(old_view[i] is Removed <==> bit(r, len - 1 - i));
            }
            assert(self@ =~= old_view.subrange(0, nl as int)) by {
                assert forall|i: int| 0 <= i < nl implies self@[i] == old_view[i] by {
                    assert(old_view[i] is Removed <==> bit(r, len - 1 - i));
                }
            }
        }
    }

    /// Cuts the window back to its oldest fact (a value or a removal), dropping everything
    /// newer. Does nothing when the window holds no fact.
    pub fn keep_first_item(&mut self)
        requires
            old(self).wf(),
        ensures
            final(self).wf(),
            (final(self)@, final(self).spec_last_tick()) == first_fact_kept(
                old(self)@,
                old(self).spec_last_tick(),
            ),
            final(self).spec_capacity() == old(self).spec_capacity(),
    {
        proof {
            self.lemma_wf();
        }
        let len = self.list.len();
        let mut j: usize = 0;
        while j < len && !self.is_fact_at(j)
            invariant
                self.wf(),
                len == self@.len(),
                j <= len,
                oldest_fact_from(self@, 0) == oldest_fact_from(self@, j as int),
            decreases len - j,
        {
            j += 1;
        }
        if j < len {
            let ago = (len - 1 - j) as u32;
            self.clean(self.last_tick - ago);
        }
    }
}

/// Unknown entries in `from..from + count` add to the run counted from `from`.
proof fn lemma_missing_run_prefix<T>(s: Seq<TickData<T>>, from: int, count: int, n: int, m: int)
    requires
        0 <= m <= count <= n,
        forall|x: int| from <= x < from + count ==> s[x] is Missing,
    ensures
        missing_run(s, from + count - m, n - count + m) == m + missing_run(s, from + count, n - count),
    decreases m,
{
    if m > 0 {
        lemma_missing_run_prefix(s, from, count, n, m - 1);
    }
}

} // verus!
