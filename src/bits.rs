//! Facts about single bits of a `u64` mask and about how many of them are set.
use vstd::prelude::*;

verus! {

/// Whether bit `p` of `m` is set (bits outside `0..64` never are).
pub open spec fn bit(m: u64, p: int) -> bool {
    0 <= p < 64 && (m >> (p as u64)) & 1u64 == 1u64
}

/// The number of set bits of `m` at positions `p` and above.
pub open spec fn ones_from(m: u64, p: int) -> nat
    decreases 64 - p,
{
    if p >= 64 {
        0
    } else if p < 0 {
        ones_from(m, 0)
    } else {
        (if bit(m, p) {
            1nat
        } else {
            0nat
        }) + ones_from(m, p + 1)
    }
}

pub proof fn lemma_bit_shl(m: u64, s: u64, q: int)
    requires
        s < 64,
        0 <= q < 64,
    ensures
        bit(m << s, q) == (q >= s && bit(m, q - s)),
{
    let qq = q as u64;
    assert((((m << s) >> qq) & 1u64 == 1u64) == (qq >= s && ((m >> ((qq - s) as u64)) & 1u64
        == 1u64))) by (bit_vector)
        requires
            s < 64,
            qq < 64,
    ;
}

pub proof fn lemma_bit_shr(m: u64, s: u64, q: int)
    requires
        s < 64,
        0 <= q < 64,
    ensures
        bit(m >> s, q) == (q + s < 64 && bit(m, q + s)),
{
    let qq = q as u64;
    assert((((m >> s) >> qq) & 1u64 == 1u64) == (qq + s < 64 && ((m >> ((qq + s) as u64))
        & 1u64 == 1u64))) by (bit_vector)
        requires
            s < 64,
            qq < 64,
    ;
}

pub proof fn lemma_bit_single(k: u64, q: int)
    requires
        k < 64,
        0 <= q < 64,
    ensures
        bit(1u64 << k, q) == (q == k),
{
    let qq = q as u64;
    assert((((1u64 << k) >> qq) & 1u64 == 1u64) == (qq == k)) by (bit_vector)
        requires
            k < 64,
            qq < 64,
    ;
}

pub proof fn lemma_bit_or(a: u64, b: u64, q: int)
    requires
        0 <= q < 64,
    ensures
        bit(a | b, q) == (bit(a, q) || bit(b, q)),
{
    let qq = q as u64;
    assert((((a | b) >> qq) & 1u64 == 1u64) == (((a >> qq) & 1u64 == 1u64) || ((b >> qq) & 1u64
        == 1u64))) by (bit_vector);
}

pub proof fn lemma_bit_and(a: u64, b: u64, q: int)
    requires
        0 <= q < 64,
    ensures
        bit(a & b, q) == (bit(a, q) && bit(b, q)),
{
    let qq = q as u64;
    assert((((a & b) >> qq) & 1u64 == 1u64) == (((a >> qq) & 1u64 == 1u64) && ((b >> qq) & 1u64
        == 1u64))) by (bit_vector);
}

pub proof fn lemma_bit_not(a: u64, q: int)
    requires
        0 <= q < 64,
    ensures
        bit(!a, q) == !bit(a, q),
{
    let qq = q as u64;
    assert((((!a) >> qq) & 1u64 == 1u64) == !((a >> qq) & 1u64 == 1u64)) by (bit_vector)
        requires
            qq < 64,
    ;
}

/// `(1 << n) - 1` has exactly the bits below `n`.
pub proof fn lemma_bit_low(n: u64, q: int)
    requires
        n < 64,
        0 <= q < 64,
    ensures
        bit(((1u64 << n) - 1) as u64, q) == (q < n),
{
    let qq = q as u64;
    assert(((((1u64 << n) - 1) as u64 >> qq) & 1u64 == 1u64) == (qq < n)) by (bit_vector)
        requires
            n < 64,
            qq < 64,
    ;
}

pub proof fn lemma_bit_zero(q: int)
    ensures
        !bit(0u64, q),
{
    if 0 <= q < 64 {
        let qq = q as u64;
        assert((0u64 >> qq) & 1u64 == 0u64) by (bit_vector);
    }
}

/// Masks that agree on the bits at `p` and above have as many of them set.
pub proof fn lemma_ones_ext(a: u64, b: u64, p: int)
    requires
        0 <= p <= 64,
        forall|q: int| p <= q < 64 ==> bit(a, q) == bit(b, q),
    ensures
        ones_from(a, p) == ones_from(b, p),
    decreases 64 - p,
{
    if p < 64 {
        lemma_ones_ext(a, b, p + 1);
    }
}

/// When the bits of `a` from `p + s` on are those of `b` from `p` on, moved up by `s`,
/// both count the same.
pub proof fn lemma_ones_shift(a: u64, b: u64, p: int, s: int)
    requires
        0 <= p <= 64,
        0 <= s,
        forall|q: int| p <= q < 64 ==> bit(a, q + s) == bit(b, q),
    ensures
        ones_from(a, p + s) == ones_from(b, p),
    decreases 64 - p,
{
    if p < 64 {
        lemma_ones_shift(a, b, p + 1, s);
        if p + s >= 64 {
            assert(!bit(a, p + s));
        }
    }
}

/// No bits set in `p..q` means the counts from `p` and from `q` agree; otherwise the
/// count from `p` is at least one larger.
pub proof fn lemma_ones_range(m: u64, p: int, q: int)
    requires
        0 <= p <= q <= 64,
    ensures
        ones_from(m, p) >= ones_from(m, q),
        (forall|r: int| p <= r < q ==> !bit(m, r)) ==> ones_from(m, p) == ones_from(m, q),
        (exists|r: int| p <= r < q && bit(m, r)) ==> ones_from(m, p) > ones_from(m, q),
    decreases q - p,
{
    if p < q {
        lemma_ones_range(m, p + 1, q);
        if exists|r: int| p <= r < q && bit(m, r) {
            let r = choose|r: int| p <= r < q && bit(m, r);
            if r != p {
                assert(exists|r: int| p + 1 <= r < q && bit(m, r));
            }
        }
    }
}

/// Masks that differ at most in bit `k` count the same, up to that bit, from any `p`.
pub proof fn lemma_ones_differ_at(a: u64, b: u64, k: int, p: int)
    requires
        0 <= p <= 64,
        0 <= k < 64,
        forall|q: int| 0 <= q < 64 && q != k ==> bit(a, q) == bit(b, q),
    ensures
        ones_from(a, p) + (if p <= k && bit(b, k) {
            1nat
        } else {
            0nat
        }) == ones_from(b, p) + (if p <= k && bit(a, k) {
            1nat
        } else {
            0nat
        }),
    decreases 64 - p,
{
    if p < 64 {
        lemma_ones_differ_at(a, b, k, p + 1);
    }
}

/// Testing against a single-bit mask reads that bit.
pub proof fn lemma_test_bit(m: u64, k: u64)
    requires
        k < 64,
    ensures
        ((m & (1u64 << k)) != 0) == bit(m, k as int),
        ((m >> k) & 1 == 1) == bit(m, k as int),
{
    assert(((m & (1u64 << k)) != 0) == ((m >> k) & 1u64 == 1u64)) by (bit_vector)
        requires
            k < 64,
    ;
}

/// At most one bit per position between `p` and `q`.
pub proof fn lemma_ones_le(m: u64, p: int, q: int)
    requires
        0 <= p <= q <= 64,
    ensures
        ones_from(m, p) <= (q - p) + ones_from(m, q),
    decreases q - p,
{
    if p < q {
        lemma_ones_le(m, p + 1, q);
    }
}

/// Facts about the masks `m | (1 << p)` and `m & !(1 << p)`.
pub proof fn lemma_set_clear(m: u64, p: u64)
    requires
        p < 64,
    ensures
        forall|q: int|
            0 <= q < 64 ==> bit(m | (1u64 << p), q) == (q == p || bit(m, q)) && bit(
                m & !(1u64 << p),
                q,
            ) == (q != p && bit(m, q)),
        forall|r: int|
            0 <= r <= 64 ==> ones_from(m | (1u64 << p), r) == ones_from(m, r) + (if r <= p
                && !bit(m, p as int) {
                1nat
            } else {
                0nat
            }),
        forall|r: int|
            0 <= r <= 64 ==> ones_from(m & !(1u64 << p), r) + (if r <= p && bit(
                m,
                p as int,
            ) {
                1nat
            } else {
                0nat
            }) == ones_from(m, r),
{
    let a = m | (1u64 << p);
    let b = m & !(1u64 << p);
    assert forall|q: int| 0 <= q < 64 implies bit(a, q) == (q == p || bit(m, q)) && bit(b, q)
        == (q != p && bit(m, q)) by {
        lemma_bit_or(m, 1u64 << p, q);
        lemma_bit_and(m, !(1u64 << p), q);
        lemma_bit_not(1u64 << p, q);
        lemma_bit_single(p, q);
    }
    assert forall|r: int| 0 <= r <= 64 implies ones_from(a, r) == ones_from(m, r) + (if r
        <= p && !bit(m, p as int) {
        1nat
    } else {
        0nat
    }) by {
        lemma_ones_differ_at(a, m, p as int, r);
    }
    assert forall|r: int| 0 <= r <= 64 implies ones_from(b, r) + (if r <= p && bit(
        m,
        p as int,
    ) {
        1nat
    } else {
        0nat
    }) == ones_from(m, r) by {
        lemma_ones_differ_at(b, m, p as int, r);
    }
}

/// Counts the set bits of `m` at positions `p` and above.
pub fn count_ones_from(m: u64, p: u32) -> (r: u32)
    requires
        p <= 64,
    ensures
        r == ones_from(m, p as int),
        r <= 64 - p,
{
    let mut q: u32 = 64;
    let mut c: u32 = 0;
    while q > p
        invariant
            p <= q <= 64,
            c == ones_from(m, q as int),
            c <= 64 - q,
        decreases q,
    {
        q -= 1;
        if (m >> q) & 1 == 1 {
            c += 1;
        }
    }
    c
}

} // verus!
