//! Properties of recording and reading histories, stated over the model that the
//! contracts of [`ComponentHistory`](crate::component_history::ComponentHistory) use.
use vstd::prelude::*;
use crate::component_history::{
    after_gap, data_at, is_fact, keep_newest, latest_at, lemma_newest_fact, missings,
    newest_fact_before, record, TickData,
};

verus! {

/// A window that a history can be in: at most `c` entries, none before tick 0.
pub open spec fn valid_window<T>(s: Seq<TickData<T>>, last: int, c: nat) -> bool {
    &&& 1 <= c
    &&& s.len() <= c
    &&& s.len() <= last + 1
    &&& last <= u32::MAX
}

/// What was just recorded at `tick` is what a lookup at `tick` finds, unless the tick was
/// too old for the window to reach.
pub proof fn lemma_record_then_get<T>(s: Seq<TickData<T>>, last: int, c: nat, tick: int, d: TickData<T>)
    requires
        valid_window(s, last, c),
        0 <= tick <= u32::MAX,
        is_fact(d),
        s.len() == 0 || tick > last || last - tick < c,
    ensures
        data_at(record(s, last, c, tick, d).0, record(s, last, c, tick, d).1, tick) == d,
{
    let r = record(s, last, c, tick, d);
    if !(s.len() > 0 && tick <= last) {
        let g = after_gap(s, last, c, tick);
        let t = g.0.push(d);
        assert(g.0.len() <= c);
        if t.len() > c {
            let k = t.len() - c;
            assert(t.subrange(k, t.len() as int).last() == d);
        }
    }
}

/// A removal recorded at `tick` in a new history reads back as `Removed`, while the
/// untouched next tick reads as `Missing`: the two are never confused.
pub proof fn lemma_removed_is_not_missing<T>(c: nat, tick: int)
    requires
        1 <= c,
        0 <= tick < u32::MAX,
    ensures
        ({
            let r = record(Seq::<TickData<T>>::empty(), 0, c, tick, TickData::Removed);
            &&& data_at(r.0, r.1, tick) == TickData::<T>::Removed
            &&& data_at(r.0, r.1, tick + 1) == TickData::<T>::Missing
        }),
{
    lemma_record_then_get(Seq::<TickData<T>>::empty(), 0, c, tick, TickData::Removed);
}

/// After a value at tick 0 and the next at tick `c + 1`, a gap longer than the window, the
/// value of tick 0 is still what the newest-fact lookup finds at tick 2, the oldest tick of
/// the window (windows of at least two ticks).
pub proof fn lemma_gap_keeps_fact<T>(c: nat, v0: T, v1: T)
    requires
        2 <= c < u32::MAX,
    ensures
        ({
            let r0 = record(Seq::<TickData<T>>::empty(), 0, c, 0, TickData::Value(v0));
            let r1 = record(r0.0, r0.1, c, (c + 1) as int, TickData::Value(v1));
            &&& r1.1 == c + 1
            &&& r1.0.len() == c
            &&& latest_at(r1.0, r1.1, 2) == TickData::Value(v0)
        }),
{
    let e = Seq::<TickData<T>>::empty();
    let r0 = record(e, 0, c, 0, TickData::Value(v0));
    assert(r0.0 =~= seq![TickData::Value(v0)]);
    let t = r0.0 + missings::<T>(c);
    let g0 = keep_newest(t, c);
    lemma_newest_fact(t, 1);
    assert(newest_fact_before(t, 1) == 0);
    assert(g0 =~= missings::<T>(c).update(0, TickData::Value(v0)));
    let t1 = g0.push(TickData::Value(v1));
    let r1 = record(r0.0, r0.1, c, (c + 1) as int, TickData::Value(v1));
    assert(r1.0 == keep_newest(t1, c));
    lemma_newest_fact(t1, 1);
    assert(newest_fact_before(t1, 1) == 0);
    let w = t1.subrange(1, t1.len() as int).update(0, TickData::Value(v0));
    assert(r1.0 =~= w);
    let ago = c + 1 - 2;
    lemma_newest_fact(w, w.len() - ago);
    assert(w.len() - ago == 1);
    assert(newest_fact_before(w, 1) == 0);
}

/// The window after recording the values of `ops`, in order, each at its tick.
pub open spec fn record_values<T>(s: Seq<TickData<T>>, last: int, c: nat, ops: Seq<(u32, T)>) -> (
    Seq<TickData<T>>,
    int,
)
    decreases ops.len(),
{
    if ops.len() == 0 {
        (s, last)
    } else {
        let r = record_values(s, last, c, ops.drop_last());
        record(r.0, r.1, c, ops.last().0 as int, TickData::Value(ops.last().1))
    }
}

/// The smaller of `a` and `b`.
pub open spec fn min_nat(a: nat, b: nat) -> nat {
    if a < b {
        a
    } else {
        b
    }
}

/// The window after values written at the consecutive ticks `t0, t0 + 1, ...` of a new
/// history: the newest `c` of them, in order.
proof fn lemma_consecutive_window<T>(c: nat, t0: int, ops: Seq<(u32, T)>)
    requires
        1 <= c,
        ops.len() >= 1,
        0 <= t0,
        forall|i: int| 0 <= i < ops.len() ==> #[trigger] ops[i].0 == t0 + i,
    ensures
        ({
            let n = ops.len();
            let m = min_nat(n, c);
            let r = record_values(Seq::<TickData<T>>::empty(), 0, c, ops);
            &&& r.1 == t0 + n - 1
            &&& r.0 == Seq::new(m, |j: int| TickData::Value(ops[n - m + j].1))
        }),
    decreases ops.len(),
{
    let n = ops.len();
    let m = min_nat(n, c);
    let e = Seq::<TickData<T>>::empty();
    let r = record_values(e, 0, c, ops);
    let target = Seq::new(m, |j: int| TickData::Value(ops[n - m + j].1));
    if n == 1 {
        assert(ops.drop_last() =~= Seq::<(u32, T)>::empty());
        assert(record_values(e, 0, c, ops.drop_last()) == (e, 0int));
        let d = TickData::Value(ops.last().1);
        assert(after_gap(e, 0, c, ops.last().0 as int) == (e, 0int));
        assert(e.push(d) =~= seq![d]);
        assert(keep_newest(e.push(d), c) == e.push(d));
        assert(r.0 =~= target);
    } else {
        let prev = ops.drop_last();
        assert forall|i: int| 0 <= i < prev.len() implies #[trigger] prev[i].0 == t0 + i by {
            assert(prev[i] == ops[i]);
        }
        lemma_consecutive_window(c, t0, prev);
        let pm = min_nat((n - 1) as nat, c);
        let ps = record_values(e, 0, c, prev).0;
        assert(ps == Seq::new(pm, |j: int| TickData::Value(prev[(n - 1) - pm + j].1)));
        let t = ps.push(TickData::Value(ops.last().1));
        assert(ops.last().0 == t0 + n - 1);
        if n - 1 < c {
            assert(r.0 =~= target);
        } else {
            let k = t.len() - c;
            assert(k == 1);
            assert(t.subrange(k, t.len() as int)[0] is Value);
            assert(r.0 =~= target);
        }
    }
}

/// Writing values at consecutive ticks, past the capacity `c`, keeps exactly the newest `c`
/// of them: each reads back at its tick, while every older tick reads as `Missing`.
pub proof fn lemma_wraparound<T>(c: nat, t0: int, ops: Seq<(u32, T)>)
    requires
        1 <= c,
        ops.len() >= 1,
        0 <= t0,
        forall|i: int| 0 <= i < ops.len() ==> #[trigger] ops[i].0 == t0 + i,
    ensures
        ({
            let n = ops.len() as int;
            let r = record_values(Seq::<TickData<T>>::empty(), 0, c, ops);
            forall|i: int|
                0 <= i < n ==> data_at(r.0, r.1, t0 + i) == if i >= n - c {
                    TickData::Value(ops[i].1)
                } else {
                    TickData::Missing
                }
        }),
{
    lemma_consecutive_window(c, t0, ops);
}

/// No two entries of `ops` share a tick.
pub open spec fn distinct_ticks<T>(ops: Seq<(u32, T)>) -> bool {
    forall|i: int, j: int|
        0 <= i < ops.len() && 0 <= j < ops.len() && #[trigger] ops[i].0 == #[trigger] ops[j].0
            ==> i == j
}

/// The ticks of `ops` lie less than `c` apart.
pub open spec fn within_capacity<T>(ops: Seq<(u32, T)>, c: nat) -> bool {
    forall|i: int, j: int|
        0 <= i < ops.len() && 0 <= j < ops.len() ==> #[trigger] ops[i].0 - #[trigger] ops[j].0 < c
}

/// Whether some entry of `ops` is at `tick`.
pub open spec fn written_at<T>(ops: Seq<(u32, T)>, tick: int) -> bool {
    exists|i: int| 0 <= i < ops.len() && ops[i].0 == tick
}

/// The window `s`, newest tick `last`, spans exactly the ticks from the oldest to the newest
/// of `ops`; each written tick holds its value and every other tick is unknown.
pub open spec fn describes<T>(s: Seq<TickData<T>>, last: int, ops: Seq<(u32, T)>) -> bool {
    let first = last - s.len() + 1;
    &&& s.len() >= 1
    &&& written_at(ops, last)
    &&& written_at(ops, first)
    &&& forall|i: int| 0 <= i < ops.len() ==> first <= #[trigger] ops[i].0 <= last
    &&& forall|i: int|
        0 <= i < ops.len() ==> s[#[trigger] ops[i].0 - first] == TickData::Value(ops[i].1)
    &&& forall|j: int| 0 <= j < s.len() ==> #[trigger] s[j] is Missing || written_at(ops, first + j)
}

#[verifier::rlimit(60)]
proof fn lemma_describes_step<T>(c: nat, ops: Seq<(u32, T)>)
    requires
        1 <= c,
        ops.len() >= 2,
        distinct_ticks(ops),
        within_capacity(ops, c),
        ({
            let r = record_values(Seq::<TickData<T>>::empty(), 0, c, ops.drop_last());
            describes(r.0, r.1, ops.drop_last())
        }),
    ensures
        ({
            let r = record_values(Seq::<TickData<T>>::empty(), 0, c, ops);
            describes(r.0, r.1, ops)
        }),
{
    let e = Seq::<TickData<T>>::empty();
    let p = ops.drop_last();
    let pr = record_values(e, 0, c, p);
    let (s, last) = pr;
    let first = last - s.len() + 1;
    let n = ops.len() - 1;
    let (t, v) = ops[n];
    let t = t as int;
    let d = TickData::Value(v);
    let r = record_values(e, 0, c, ops);
    assert(r == record(s, last, c, t, d));
    assert forall|i: int| 0 <= i < p.len() implies #[trigger] p[i] == ops[i] by {}
    let il = choose|i: int| 0 <= i < p.len() && p[i].0 == last;
    let if0 = choose|i: int| 0 <= i < p.len() && p[i].0 == first;
    assert(ops[il].0 == last && ops[if0].0 == first);
    assert(t != last) by {
        assert(ops[il].0 != ops[n].0);
    }
    assert(t - first < c && last - t < c) by {
        assert(ops[n].0 - ops[if0].0 < c);
        assert(ops[il].0 - ops[n].0 < c);
    }
    assert(last - first < c) by {
        assert(ops[il].0 - ops[if0].0 < c);
    }
    assert forall|i: int| 0 <= i < p.len() implies #[trigger] p[i].0 != t by {
        assert(ops[i].0 != ops[n].0);
    }
    let (s2, last2) = r;
    if t > last {
        let g = after_gap(s, last, c, t);
        if t > last + 1 {
            let m = missings::<T>((t - 1 - last) as nat);
            assert((s + m).len() <= c);
            assert(g.0 == s + m);
        } else {
            assert(g.0 == s);
        }
        assert(g.0.len() == t - first);
        assert(s2 == g.0.push(d));
        assert(last2 == t);
        assert(s2.len() == t - first + 1);
        assert(written_at(ops, t)) by {
            assert(ops[n].0 == t);
        }
        assert(written_at(ops, first)) by {
            assert(ops[if0].0 == first);
        }
        assert forall|i: int| 0 <= i < ops.len() implies first <= #[trigger] ops[i].0 <= t by {
            if i < n {
                assert(p[i].0 == ops[i].0);
            }
        }
        assert forall|i: int| 0 <= i < ops.len() implies s2[#[trigger] ops[i].0 - first]
            == TickData::Value(ops[i].1) by {
            if i < n {
                assert(p[i] == ops[i]);
                assert(s[p[i].0 - first] == TickData::Value(p[i].1));
            }
        }
        assert forall|j: int| 0 <= j < s2.len() implies #[trigger] s2[j] is Missing || written_at(
            ops,
            first + j,
        ) by {
            if j < s.len() {
                assert(s2[j] == s[j]);
                if !(s[j] is Missing) {
                    let i = choose|i: int| 0 <= i < p.len() && p[i].0 == first + j;
                    assert(ops[i].0 == first + j);
                }
            } else if j == s2.len() - 1 {
                assert(ops[n].0 == first + j);
            }
        }
    } else if t < first {
        let ago = last - t;
        let s1 = missings::<T>((ago + 1 - s.len()) as nat) + s;
        assert(s2 == s1.update(0, d));
        assert(last2 == last);
        assert(written_at(ops, last)) by {
            assert(ops[il].0 == last);
        }
        assert(written_at(ops, t)) by {
            assert(ops[n].0 == t);
        }
        let k = first - t;
        assert forall|i: int| 0 <= i < ops.len() implies t <= #[trigger] ops[i].0 <= last by {
            if i < n {
                assert(p[i].0 == ops[i].0);
            }
        }
        assert forall|i: int| 0 <= i < ops.len() implies s2[#[trigger] ops[i].0 - t]
            == TickData::Value(ops[i].1) by {
            if i < n {
                assert(p[i] == ops[i]);
                assert(s[p[i].0 - first] == TickData::Value(p[i].1));
                assert(s2[ops[i].0 - t] == s[ops[i].0 - first]);
            }
        }
        assert forall|j: int| 0 <= j < s2.len() implies #[trigger] s2[j] is Missing || written_at(
            ops,
            t + j,
        ) by {
            if j == 0 {
                assert(ops[n].0 == t);
            } else if j >= k {
                assert(s2[j] == s[j - k]);
                if !(s[j - k] is Missing) {
                    let i = choose|i: int| 0 <= i < p.len() && p[i].0 == first + (j - k);
                    assert(ops[i].0 == t + j);
                }
            }
        }
    } else {
        let ago = last - t;
        let idx = s.len() - 1 - ago;
        assert(s2 == s.update(idx, d));
        assert(last2 == last);
        assert(written_at(ops, last)) by {
            assert(ops[il].0 == last);
        }
        assert(written_at(ops, first)) by {
            assert(ops[if0].0 == first);
        }
        assert forall|i: int| 0 <= i < ops.len() implies first <= #[trigger] ops[i].0 <= last by {
            if i < n {
                assert(p[i].0 == ops[i].0);
            }
        }
        assert forall|i: int| 0 <= i < ops.len() implies s2[#[trigger] ops[i].0 - first]
            == TickData::Value(ops[i].1) by {
            if i < n {
                assert(p[i] == ops[i]);
                assert(s[p[i].0 - first] == TickData::Value(p[i].1));
            }
        }
        assert forall|j: int| 0 <= j < s2.len() implies #[trigger] s2[j] is Missing || written_at(
            ops,
            first + j,
        ) by {
            if j == idx {
                assert(ops[n].0 == first + j);
            } else {
                if !(s[j] is Missing) {
                    let i = choose|i: int| 0 <= i < p.len() && p[i].0 == first + j;
                    assert(ops[i].0 == first + j);
                }
            }
        }
    }
}

/// Values written at distinct ticks less than `c` apart, in any order, into a new history
/// leave a window described by [`describes`].
pub proof fn lemma_writes_described<T>(c: nat, ops: Seq<(u32, T)>)
    requires
        1 <= c,
        ops.len() >= 1,
        distinct_ticks(ops),
        within_capacity(ops, c),
    ensures
        ({
            let r = record_values(Seq::<TickData<T>>::empty(), 0, c, ops);
            describes(r.0, r.1, ops)
        }),
    decreases ops.len(),
{
    let e = Seq::<TickData<T>>::empty();
    if ops.len() == 1 {
        assert(ops.drop_last() =~= Seq::<(u32, T)>::empty());
        assert(record_values(e, 0, c, ops.drop_last()) == (e, 0int));
        let d = TickData::Value(ops.last().1);
        assert(after_gap(e, 0, c, ops.last().0 as int) == (e, 0int));
        assert(e.push(d) =~= seq![d]);
        let r = record_values(e, 0, c, ops);
        assert(r.0 == seq![d]);
        assert(ops[0].0 == r.1);
    } else {
        let p = ops.drop_last();
        assert forall|i: int| 0 <= i < p.len() implies #[trigger] p[i] == ops[i] by {}
        assert(distinct_ticks(p)) by {
            assert forall|i: int, j: int|
                0 <= i < p.len() && 0 <= j < p.len() && #[trigger] p[i].0 == #[trigger] p[j].0
                implies i == j by {
                assert(ops[i].0 == ops[j].0);
            }
        }
        assert(within_capacity(p, c)) by {
            assert forall|i: int, j: int|
                0 <= i < p.len() && 0 <= j < p.len() implies #[trigger] p[i].0 - #[trigger] p[j].0
                < c by {
                assert(ops[i].0 - ops[j].0 < c);
            }
        }
        lemma_writes_described(c, p);
        lemma_describes_step(c, ops);
    }
}

/// Increasing ticks are distinct, and within the capacity when the first and last are.
proof fn lemma_increasing<T>(c: nat, ops: Seq<(u32, T)>)
    requires
        ops.len() >= 1,
        forall|i: int, j: int| 0 <= i < j < ops.len() ==> #[trigger] ops[i].0 < #[trigger] ops[j].0,
        ops.last().0 - ops[0].0 < c,
    ensures
        distinct_ticks(ops),
        within_capacity(ops, c),
{
    let n = ops.len() as int;
    assert forall|i: int, j: int|
        0 <= i < n && 0 <= j < n && #[trigger] ops[i].0 == #[trigger] ops[j].0 implies i == j by {
        if i < j {
            assert(ops[i].0 < ops[j].0);
        } else if j < i {
            assert(ops[j].0 < ops[i].0);
        }
    }
    assert forall|i: int, j: int| 0 <= i < n && 0 <= j < n implies #[trigger] ops[i].0
        - #[trigger] ops[j].0 < c by {
        if i < n - 1 {
            assert(ops[i].0 < ops[n - 1].0);
        }
        if 0 < j {
            assert(ops[0].0 < ops[j].0);
        }
    }
}

/// A described window reads back the written values, and `Missing` at the other ticks.
proof fn lemma_described_reads<T>(s: Seq<TickData<T>>, last: int, ops: Seq<(u32, T)>)
    requires
        describes(s, last, ops),
    ensures
        forall|i: int|
            0 <= i < ops.len() ==> data_at(s, last, #[trigger] ops[i].0 as int) == TickData::Value(
                ops[i].1,
            ),
        forall|t: int|
            last - s.len() < t <= last && !written_at(ops, t) ==> #[trigger] data_at(s, last, t)
                == TickData::<T>::Missing,
{
    let first = last - s.len() + 1;
    assert forall|i: int| 0 <= i < ops.len() implies data_at(s, last, #[trigger] ops[i].0 as int)
        == TickData::Value(ops[i].1) by {
        assert(first <= ops[i].0 <= last);
        assert(s[ops[i].0 - first] == TickData::Value(ops[i].1));
    }
    assert forall|t: int| last - s.len() < t <= last && !written_at(ops, t) implies #[trigger] data_at(
        s,
        last,
        t,
    ) == TickData::<T>::Missing by {
        let j = t - first;
        assert(s[j] is Missing || written_at(ops, first + j));
    }
}

/// Values written at increasing ticks that span less than the capacity read back at their
/// ticks, and every tick in between that was not written reads as `Missing`.
pub proof fn lemma_round_trip<T>(c: nat, ops: Seq<(u32, T)>)
    requires
        1 <= c,
        ops.len() >= 1,
        forall|i: int, j: int| 0 <= i < j < ops.len() ==> #[trigger] ops[i].0 < #[trigger] ops[j].0,
        ops.last().0 - ops[0].0 < c,
    ensures
        ({
            let r = record_values(Seq::<TickData<T>>::empty(), 0, c, ops);
            &&& forall|i: int|
                0 <= i < ops.len() ==> data_at(r.0, r.1, #[trigger] ops[i].0 as int)
                    == TickData::Value(ops[i].1)
            &&& forall|t: int|
                ops[0].0 <= t <= ops.last().0 && !written_at(ops, t) ==> #[trigger] data_at(
                    r.0,
                    r.1,
                    t,
                ) == TickData::<T>::Missing
        }),
{
    lemma_increasing(c, ops);
    lemma_writes_described(c, ops);
    let r = record_values(Seq::<TickData<T>>::empty(), 0, c, ops);
    lemma_described_reads(r.0, r.1, ops);
    let first = r.1 - r.0.len() + 1;
    assert(first <= ops[0].0);
    assert(ops[ops.len() - 1].0 <= r.1);
}

/// Two windows described by sequences with the same pairs are the same.
proof fn lemma_described_same<T>(
    s1: Seq<TickData<T>>,
    l1: int,
    ops1: Seq<(u32, T)>,
    s2: Seq<TickData<T>>,
    l2: int,
    ops2: Seq<(u32, T)>,
)
    requires
        describes(s1, l1, ops1),
        describes(s2, l2, ops2),
        forall|x: (u32, T)| ops1.contains(x) <==> ops2.contains(x),
    ensures
        s1 == s2,
        l1 == l2,
{
    let f1 = l1 - s1.len() + 1;
    let f2 = l2 - s2.len() + 1;
    assert forall|i: int| 0 <= i < ops1.len() implies f2 <= #[trigger] ops1[i].0 <= l2 && s2[ops1[i].0
        - f2] == TickData::Value(ops1[i].1) by {
        assert(ops1.contains(ops1[i]));
        let k = choose|k: int| 0 <= k < ops2.len() && ops2[k] == ops1[i];
        assert(s2[ops2[k].0 - f2] == TickData::Value(ops2[k].1));
    }
    assert forall|i: int| 0 <= i < ops2.len() implies f1 <= #[trigger] ops2[i].0 <= l1 && s1[ops2[i].0
        - f1] == TickData::Value(ops2[i].1) by {
        assert(ops2.contains(ops2[i]));
        let k = choose|k: int| 0 <= k < ops1.len() && ops1[k] == ops2[i];
        assert(s1[ops1[k].0 - f1] == TickData::Value(ops1[k].1));
    }
    let a1 = choose|i: int| 0 <= i < ops1.len() && ops1[i].0 == l1;
    let a2 = choose|i: int| 0 <= i < ops2.len() && ops2[i].0 == l2;
    let b1 = choose|i: int| 0 <= i < ops1.len() && ops1[i].0 == f1;
    let b2 = choose|i: int| 0 <= i < ops2.len() && ops2[i].0 == f2;
    assert(ops1[a1].0 <= l2);
    assert(ops2[a2].0 <= l1);
    assert(f2 <= ops1[b1].0);
    assert(f1 <= ops2[b2].0);
    assert(s1 =~= s2) by {
        assert forall|j: int| 0 <= j < s1.len() implies s1[j] == s2[j] by {
            if !(s1[j] is Missing) {
                let i = choose|i: int| 0 <= i < ops1.len() && ops1[i].0 == f1 + j;
                assert(s1[ops1[i].0 - f1] == TickData::Value(ops1[i].1));
            } else if !(s2[j] is Missing) {
                let i = choose|i: int| 0 <= i < ops2.len() && ops2[i].0 == f2 + j;
                assert(s2[ops2[i].0 - f2] == TickData::Value(ops2[i].1));
            }
        }
    }
}

/// Ticks within the capacity stay so in any sequence of the same pairs.
proof fn lemma_same_pairs_within<T>(c: nat, ops1: Seq<(u32, T)>, ops2: Seq<(u32, T)>)
    requires
        within_capacity(ops1, c),
        forall|x: (u32, T)| ops1.contains(x) <==> ops2.contains(x),
    ensures
        within_capacity(ops2, c),
{
    assert forall|i: int, j: int|
        0 <= i < ops2.len() && 0 <= j < ops2.len() implies #[trigger] ops2[i].0 - #[trigger] ops2[j].0
        < c by {
        assert(ops2.contains(ops2[i]));
        assert(ops2.contains(ops2[j]));
        let a = choose|a: int| 0 <= a < ops1.len() && ops1[a] == ops2[i];
        let b = choose|b: int| 0 <= b < ops1.len() && ops1[b] == ops2[j];
        assert(ops1[a].0 - ops1[b].0 < c);
    }
}

/// Writing the same pairs of tick and value, ticks distinct and less than the capacity apart,
/// in any two orders into new histories gives the same window.
pub proof fn lemma_out_of_order_convergence<T>(c: nat, ops1: Seq<(u32, T)>, ops2: Seq<(u32, T)>)
    requires
        1 <= c,
        ops1.len() >= 1,
        distinct_ticks(ops1),
        distinct_ticks(ops2),
        within_capacity(ops1, c),
        forall|x: (u32, T)| ops1.contains(x) <==> ops2.contains(x),
    ensures
        record_values(Seq::<TickData<T>>::empty(), 0, c, ops1) == record_values(
            Seq::<TickData<T>>::empty(),
            0,
            c,
            ops2,
        ),
{
    assert(ops1.contains(ops1[0]));
    assert(ops2.len() >= 1);
    lemma_same_pairs_within(c, ops1, ops2);
    lemma_writes_described(c, ops1);
    lemma_writes_described(c, ops2);
    let e = Seq::<TickData<T>>::empty();
    let r1 = record_values(e, 0, c, ops1);
    let r2 = record_values(e, 0, c, ops2);
    lemma_described_same(r1.0, r1.1, ops1, r2.0, r2.1, ops2);
}

} // verus!
