//! Size and alignment of items stored back to back.
use vstd::prelude::*;
use vstd::layout::{valid_layout, layout_for_type_is_valid, size_of, align_of};

verus! {

/// The size and alignment of one stored item.
///
/// Always satisfies the rules of `std::alloc::Layout`: the alignment is a power of two
/// and the size, rounded up to the alignment, fits in an `isize`.
#[derive(Clone, Copy, Debug, PartialEq, Eq)]
pub struct ItemLayout {
    size: usize,
    align: usize,
}

/// The largest size allowed for a layout with alignment `align`.
pub open spec fn max_size_for(align: usize) -> int {
    isize::MAX as int - (isize::MAX as int % align as int)
}

/// Padding that rounds `size` up to the next multiple of `align`.
pub open spec fn padding_spec(size: int, align: int) -> int {
    (align - size % align) % align
}

impl ItemLayout {
    pub closed spec fn spec_size(&self) -> usize {
        self.size
    }

    pub closed spec fn spec_align(&self) -> usize {
        self.align
    }

    /// The layout rules of `std::alloc::Layout`.
    pub open spec fn wf(&self) -> bool {
        valid_layout(self.spec_size(), self.spec_align())
    }

    /// The layout of values of type `T`.
    pub fn of<T>() -> (r: ItemLayout)
        ensures
            r.wf(),
            r.spec_size() as nat == size_of::<T>(),
            r.spec_align() as nat == align_of::<T>(),
    {
        layout_for_type_is_valid::<T>();
        ItemLayout { size: core::mem::size_of::<T>(), align: core::mem::align_of::<T>() }
    }

    /// The size of one item, in bytes.
    pub fn size(&self) -> (r: usize)
        ensures
            r == self.spec_size(),
    {
        self.size
    }

    /// The alignment of one item, in bytes.
    pub fn align(&self) -> (r: usize)
        ensures
            r == self.spec_align(),
    {
        self.align
    }
}

proof fn lemma_round_up_fits(size: int, align: int, limit: int)
    requires
        align > 0,
        0 <= size <= limit,
        limit % align == 0,
    ensures
        size + padding_spec(size, align) <= limit,
        (size + padding_spec(size, align)) % align == 0,
{
    let q = size / align;
    let r = size % align;
    vstd::arithmetic::div_mod::lemma_fundamental_div_mod(size, align);
    vstd::arithmetic::div_mod::lemma_fundamental_div_mod(limit, align);
    if r != 0 {
        assert(padding_spec(size, align) == align - r) by {
            vstd::arithmetic::div_mod::lemma_small_mod((align - r) as nat, align as nat);
        }
        let lq = limit / align;
        assert(q < lq) by {
            if q >= lq {
                assert(q * align >= lq * align) by (nonlinear_arith)
                    requires q >= lq, align > 0;
            }
        }
        assert((q + 1) * align <= lq * align) by (nonlinear_arith)
            requires q + 1 <= lq, align > 0;
        assert(size + (align - r) == (q + 1) * align) by (nonlinear_arith)
            requires size == align * q + r;
        vstd::arithmetic::div_mod::lemma_mod_multiples_basic(q + 1, align);
    } else {
        assert(padding_spec(size, align) == 0) by {
            vstd::arithmetic::div_mod::lemma_mod_self_0(align);
        }
    }
}

/// The number of padding bytes that round the size of `layout` up to a multiple of `align`.
pub fn padding_needed_for(layout: &ItemLayout, align: usize) -> (r: usize)
    requires
        align > 0,
    ensures
        r as int == padding_spec(layout.spec_size() as int, align as int),
        r < align,
{
    let rem = layout.size % align;
    if rem == 0 {
        proof {
            vstd::arithmetic::div_mod::lemma_mod_self_0(align as int);
        }
        0
    } else {
        proof {
            vstd::arithmetic::div_mod::lemma_small_mod((align - rem) as nat, align as nat);
        }
        align - rem
    }
}

/// The layout of `n` copies of `layout` placed back to back, each padded to its alignment,
/// together with the distance between the starts of two neighbouring items.
///
/// `None` when the total size would break the layout rules.
pub fn repeat_layout(layout: &ItemLayout, n: usize) -> (r: Option<(ItemLayout, usize)>)
    requires
        layout.wf(),
    ensures
        ({
            let stride = layout.spec_size() + padding_spec(
                layout.spec_size() as int,
                layout.spec_align() as int,
            );
            &&& r is Some <==> stride * n <= max_size_for(layout.spec_align())
            &&& r matches Some((l, s)) ==> {
                &&& l.wf()
                &&& s == stride
                &&& l.spec_size() == stride * n
                &&& l.spec_align() == layout.spec_align()
            }
        }),
{
    proof {
        vstd::arithmetic::power2::is_pow2_equiv(layout.align as int);
        reveal(vstd::arithmetic::power2::is_pow2);
        let a = layout.align as int;
        let m = isize::MAX as int;
        assert(a > 0);
        vstd::arithmetic::div_mod::lemma_fundamental_div_mod(m, a);
        vstd::arithmetic::div_mod::lemma_mod_multiples_basic(m / a, a);
        assert((m - m % a) % a == 0);
        lemma_round_up_fits(layout.size as int, a, m - m % a);
    }
    let padded_size = layout.size + padding_needed_for(layout, layout.align);
    let alloc_size = match padded_size.checked_mul(n) {
        Some(s) => s,
        None => {
            proof {
                assert(padded_size * n > usize::MAX);
            }
            return None;
        },
    };
    if alloc_size > isize::MAX as usize - (isize::MAX as usize % layout.align) {
        return None;
    }
    Some((ItemLayout { size: alloc_size, align: layout.align }, padded_size))
}

/// The layout of an array of `n` items of `layout`.
///
/// `None` when the total size would break the layout rules.
pub fn array_layout(layout: &ItemLayout, n: usize) -> (r: Option<ItemLayout>)
    requires
        layout.wf(),
    ensures
        ({
            let stride = layout.spec_size() + padding_spec(
                layout.spec_size() as int,
                layout.spec_align() as int,
            );
            &&& r is Some <==> stride * n <= max_size_for(layout.spec_align())
            &&& r matches Some(l) ==> {
                &&& l.wf()
                &&& l.spec_size() == stride * n
                &&& l.spec_align() == layout.spec_align()
            }
        }),
{
    match repeat_layout(layout, n) {
        Some((l, _)) => Some(l),
        None => None,
    }
}

} // verus!
