//! Sizing of the level-by-level minimum reduction.
use vstd::prelude::*;
use vstd::arithmetic::power::pow;
use crate::arith::{ilog_u32, lemma_log_bounds};

verus! {

/// Number of reduction levels for `len` numbers when each level reduces
/// `subgroup_size` values to one: `(len * subgroup_size - 1).ilog(subgroup_size)`.
/// That many levels suffice, and one fewer would not.
pub fn reduction_levels(len: u32, subgroup_size: u32) -> (r: u32)
    requires
        len >= 1,
        subgroup_size >= 2,
        len * subgroup_size <= u32::MAX,
    ensures
        r == vstd::arithmetic::logarithm::log(subgroup_size as int, len * subgroup_size - 1),
        pow(subgroup_size as int, r as nat) >= len,
        r > 0 ==> pow(subgroup_size as int, (r - 1) as nat) < len,
{
    assert(len * subgroup_size - 1 >= 1) by (nonlinear_arith)
        requires len >= 1, subgroup_size >= 2;
    let r = ilog_u32(len * subgroup_size - 1, subgroup_size);
    proof {
        let s = subgroup_size as int;
        let x = len * subgroup_size - 1;
        lemma_log_bounds(s, x);
        reveal(pow);
        let p = pow(s, r as nat);
        let p1 = pow(s, (r + 1) as nat);
        assert(p1 == s * p);
        assert(p >= len) by (nonlinear_arith)
            requires s * p > len * s - 1, s >= 2;
        if r > 0 {
            let pm = pow(s, (r - 1) as nat);
            assert(p == s * pm);
            assert(pm < len) by (nonlinear_arith)
                requires s * pm <= len * s - 1, s >= 2;
        }
    }
    r
}

} // verus!
