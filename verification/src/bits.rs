//! Alignment.

use vstd::prelude::*;

verus! {

/// The size of a page in bytes. All that is read or written is a multiple of it.
pub const PAGE: usize = 4096;

/// `v` rounded up to a multiple of `align`.
pub open spec fn aligned_up(align: int, v: int) -> int {
    if v % align == 0 {
        v
    } else {
        v + align - v % align
    }
}

/// Round `v` up to a multiple of `align`.
pub fn align_up(align: usize, v: usize) -> (aligned: usize)
    requires
        align > 0,
        aligned_up(align as int, v as int) <= usize::MAX,
    ensures
        aligned == aligned_up(align as int, v as int),
{
    let rest: usize = v % align;
    if rest == 0 {
        v
    } else {
        v + (align - rest)
    }
}

/// Rounding up gives the least multiple that is not below the value.
pub proof fn aligned_up_is_least(align: int, v: int)
    requires
        align > 0,
    ensures
        aligned_up(align, v) % align == 0,
        v <= aligned_up(align, v) < v + align,
        forall|w: int| v <= w && #[trigger] (w % align) == 0 ==> aligned_up(align, v) <= w,
{
    let q = v / align;
    let r = v % align;
    let a = aligned_up(align, v);
    vstd::arithmetic::div_mod::lemma_fundamental_div_mod(v, align);
    if r != 0 {
        assert(a == align * (q + 1)) by (nonlinear_arith)
            requires
                a == v + align - r,
                v == align * q + r,
        ;
        vstd::arithmetic::div_mod::lemma_mod_multiples_basic(q + 1, align);
        assert(align * (q + 1) == (q + 1) * align) by (nonlinear_arith);
    }
    assert forall|w: int| v <= w && #[trigger] (w % align) == 0 implies a <= w by {
        let p = w / align;
        vstd::arithmetic::div_mod::lemma_fundamental_div_mod(w, align);
        if r != 0 && w < a {
            assert(p > q) by (nonlinear_arith)
                requires
                    align > 0,
                    align * p >= align * q + r,
                    r > 0,
            ;
            assert(align * p >= align * (q + 1)) by (nonlinear_arith)
                requires
                    p >= q + 1,
                    align > 0,
            ;
            assert(align * (q + 1) == align * q + align) by (nonlinear_arith);
        }
    }
}

} // verus!
