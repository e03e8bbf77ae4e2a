//! Alignment of addresses.
use vstd::prelude::*;

verus! {

/// The smallest multiple of `g` that is not below `v`.
pub open spec fn up(v: int, g: int) -> int {
    (v + g - 1) / g * g
}

/// The greatest multiple of `g` that is not above `v`.
pub open spec fn down(v: int, g: int) -> int {
    v / g * g
}

/// Whether `g` is a power of two.
pub open spec fn is_pow2(g: u64) -> bool {
    g != 0 && g & ((g - 1) as u64) == 0
}

/// [`up`] gives a multiple, and the nearest one.
pub proof fn lemma_up(v: int, g: int)
    requires
        g > 0,
    ensures
        v <= up(v, g) < v + g,
        up(v, g) % g == 0,
        up(v, g) == v + g - 1 - (v + g - 1) % g,
        v % g == 0 ==> up(v, g) == v,
{
    let w = v + g - 1;
    vstd::arithmetic::div_mod::lemma_fundamental_div_mod(w, g);
    vstd::arithmetic::div_mod::lemma_mod_multiples_basic(w / g, g);
    assert(g * (w / g) == w / g * g) by (nonlinear_arith);
    if v % g == 0 {
        vstd::arithmetic::div_mod::lemma_fundamental_div_mod(v, g);
        let k = v / g;
        assert(w == g * k + (g - 1));
        vstd::arithmetic::div_mod::lemma_fundamental_div_mod_converse(w, g, k, g - 1);
        assert(k * g == g * k) by (nonlinear_arith);
    }
}

/// [`down`] gives a multiple, and the nearest one.
pub proof fn lemma_down(v: int, g: int)
    requires
        g > 0,
    ensures
        v - g < down(v, g) <= v,
        down(v, g) % g == 0,
        down(v, g) == v - v % g,
{
    vstd::arithmetic::div_mod::lemma_fundamental_div_mod(v, g);
    vstd::arithmetic::div_mod::lemma_mod_multiples_basic(v / g, g);
    assert(g * (v / g) == v / g * g) by (nonlinear_arith);
}

/// The smallest multiple of `g` that is not below `v`, where it can be reached
/// without overflow.
pub fn align_up(v: u64, g: u64) -> (r: Option<u64>)
    requires
        g > 0,
    ensures
        r == (if v + g - 1 <= u64::MAX {
            Some(up(v as int, g as int) as u64)
        } else {
            None
        }),
        v + g - 1 <= u64::MAX ==> up(v as int, g as int) <= u64::MAX,
{
    proof {
        lemma_up(v as int, g as int);
    }
    match v.checked_add(g - 1) {
        Some(w) => Some(w - w % g),
        None => None,
    }
}

/// The greatest multiple of `g` that is not above `v`.
pub fn align_down(v: u64, g: u64) -> (r: u64)
    requires
        g > 0,
    ensures
        r == down(v as int, g as int),
{
    proof {
        lemma_down(v as int, g as int);
    }
    v - v % g
}

} // verus!
