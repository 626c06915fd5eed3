//! Small arithmetic helpers shared by the coordinate logic: Euclidean
//! remainder for the toroidal wrap-around and floor division for slope
//! heights, both proved against the mathematical `%` and `/` on `int`
//! (which round toward negative infinity for a positive divisor).

use vstd::prelude::*;

verus! {

/// Euclidean remainder: the unique representative of `v` modulo `m` in `[0, m)`.
pub fn rem_euclid(v: isize, m: isize) -> (r: isize)
    requires
        1 <= m,
    ensures
        r as int == (v as int) % (m as int),
        0 <= r < m,
{
    if v >= 0 {
        v % m
    } else {
        let d: isize = -(v + 1) % m;
        proof {
            let vi = v as int;
            let mi = m as int;
            let w = -(vi + 1);
            vstd::arithmetic::div_mod::lemma_fundamental_div_mod(w, mi);
            vstd::arithmetic::div_mod::lemma_mod_bound(w, mi);
            let q = w / mi;
            assert(w == mi * q + w % mi);
            // v == -(w + 1) == -(m*q + w%m + 1), so v == (-1 - q)*m + (m - 1 - w%m)
            assert(vi == (-1 - q) * mi + (mi - 1 - w % mi)) by (nonlinear_arith)
                requires
                    vi == -(mi * q + w % mi) - 1,
            ;
            vstd::arithmetic::div_mod::lemma_fundamental_div_mod_converse_mod(
                vi,
                mi,
                -1 - q,
                mi - 1 - w % mi,
            );
        }
        m - 1 - d
    }
}

/// Halves a small signed value, rounding toward negative infinity.
pub fn half_floor(v: i32) -> (r: i32)
    requires
        -0x10000 <= v <= 0x10000,
    ensures
        r as int == (v as int) / 2,
{
    if v >= 0 {
        v / 2
    } else {
        let k: i32 = (-v + 1) / 2;
        proof {
            let vi = v as int;
            vstd::arithmetic::div_mod::lemma_fundamental_div_mod(vi, 2);
            assert((-vi + 1) / 2 == -(vi / 2)) by (nonlinear_arith)
                requires
                    vi == 2 * (vi / 2) + vi % 2 && 0 <= vi % 2 < 2,
            ;
        }
        -k
    }
}

} // verus!
