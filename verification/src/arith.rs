//! Integer helpers with their mathematical meaning stated as spec functions.
use vstd::prelude::*;

verus! {

/// Rounded-up quotient `ceil(a / b)` for a non-negative `a` and a positive `b`.
pub open spec fn div_ceil_spec(a: int, b: int) -> int {
    (a + b - 1) / b
}

/// The smaller of two integers.
pub open spec fn min_spec(a: int, b: int) -> int {
    if a <= b { a } else { b }
}

/// `b` times the rounded-up quotient covers `a`, and the quotient is the
/// smallest such count.
pub proof fn lemma_div_ceil_bounds(a: int, b: int)
    requires
        a >= 0,
        b > 0,
    ensures
        b * div_ceil_spec(a, b) >= a,
        b * div_ceil_spec(a, b) < a + b,
        div_ceil_spec(a, b) >= 0,
        a > 0 ==> div_ceil_spec(a, b) >= 1,
{
    let q = (a + b - 1) / b;
    let r = (a + b - 1) % b;
    assert(a + b - 1 == b * q + r && 0 <= r < b) by (nonlinear_arith)
        requires b > 0, q == (a + b - 1) / b, r == (a + b - 1) % b;
    assert(q >= 0) by (nonlinear_arith)
        requires b > 0, a >= 0, q == (a + b - 1) / b;
    assert(a > 0 ==> q >= 1) by (nonlinear_arith)
        requires b > 0, a + b - 1 == b * q + r, 0 <= r < b;
}

/// The rounded-up quotient is at most `c` exactly when `a <= b * c`.
pub proof fn lemma_div_ceil_le(a: int, b: int, c: int)
    requires
        a >= 0,
        b > 0,
        c >= 0,
    ensures
        div_ceil_spec(a, b) <= c <==> a <= b * c,
{
    lemma_div_ceil_bounds(a, b);
    let q = div_ceil_spec(a, b);
    if q <= c {
        assert(b * q <= b * c) by (nonlinear_arith)
            requires b > 0, q <= c;
    } else {
        assert(b * (q - 1) >= b * c) by (nonlinear_arith)
            requires b > 0, q - 1 >= c;
        assert(b * (q - 1) == b * q - b) by (nonlinear_arith);
    }
}

/// `a.div_ceil(b)` on `u32`.
pub fn div_ceil_u32(a: u32, b: u32) -> (r: u32)
    requires
        b > 0,
    ensures
        r == div_ceil_spec(a as int, b as int),
{
    let q = a / b;
    if a % b == 0 {
        assert(div_ceil_spec(a as int, b as int) == q) by (nonlinear_arith)
            requires b > 0, a % b == 0, q == a / b;
        q
    } else {
        assert(div_ceil_spec(a as int, b as int) == q + 1) by (nonlinear_arith)
            requires b > 0, a % b != 0, q == a / b;
        assert(q < u32::MAX) by (nonlinear_arith)
            requires b > 0, q == a / b, a % b != 0, a <= u32::MAX;
        q + 1
    }
}

/// `a.div_ceil(b)` on `u64`.
pub fn div_ceil_u64(a: u64, b: u64) -> (r: u64)
    requires
        b > 0,
    ensures
        r == div_ceil_spec(a as int, b as int),
{
    let q = a / b;
    if a % b == 0 {
        assert(div_ceil_spec(a as int, b as int) == q) by (nonlinear_arith)
            requires b > 0, a % b == 0, q == a / b;
        q
    } else {
        assert(div_ceil_spec(a as int, b as int) == q + 1) by (nonlinear_arith)
            requires b > 0, a % b != 0, q == a / b;
        assert(q < u64::MAX) by (nonlinear_arith)
            requires b > 0, q == a / b, a % b != 0, a <= u64::MAX;
        q + 1
    }
}

/// `a.min(b)` on `u32`.
pub fn min_u32(a: u32, b: u32) -> (r: u32)
    ensures
        r == min_spec(a as int, b as int),
{
    if a <= b { a } else { b }
}

/// The smallest multiple of `m` that is at least `x` (`x.next_multiple_of(m)`).
pub open spec fn next_multiple_spec(x: int, m: int) -> int {
    if x % m == 0 { x } else { x + (m - x % m) }
}

/// The next multiple is a multiple of `m`, at least `x` and less than `x + m`.
pub proof fn lemma_next_multiple(x: int, m: int)
    requires
        x >= 0,
        m > 0,
    ensures
        next_multiple_spec(x, m) % m == 0,
        x <= next_multiple_spec(x, m) < x + m,
{
    vstd::arithmetic::div_mod::lemma_fundamental_div_mod(x, m);
    let q = x / m;
    let r = x % m;
    assert(0 <= r < m);
    if r != 0 {
        assert(next_multiple_spec(x, m) == m * q + m);
        assert(m * q + m == (q + 1) * m) by (nonlinear_arith);
        vstd::arithmetic::div_mod::lemma_mod_multiples_basic(q + 1, m);
    }
}

/// `x.next_multiple_of(m)` on `u64`.
pub fn next_multiple_of_u64(x: u64, m: u64) -> (r: u64)
    requires
        m > 0,
        next_multiple_spec(x as int, m as int) <= u64::MAX,
    ensures
        r == next_multiple_spec(x as int, m as int),
{
    let rem = x % m;
    if rem == 0 {
        x
    } else {
        x + (m - rem)
    }
}

/// Rounding up to a multiple of `m` keeps the order of two numbers.
pub proof fn lemma_next_multiple_monotone(x: int, y: int, m: int)
    requires
        0 <= x <= y,
        m > 0,
    ensures
        next_multiple_spec(x, m) <= next_multiple_spec(y, m),
{
    lemma_next_multiple(x, m);
    lemma_next_multiple(y, m);
    let a = next_multiple_spec(x, m);
    let b = next_multiple_spec(y, m);
    vstd::arithmetic::div_mod::lemma_fundamental_div_mod(a, m);
    vstd::arithmetic::div_mod::lemma_fundamental_div_mod(b, m);
    let qa = a / m;
    let qb = b / m;
    if b < a {
        assert(qb < qa) by (nonlinear_arith)
            requires a == m * qa, b == m * qb, b < a, m > 0;
        assert(b <= a - m) by (nonlinear_arith)
            requires a == m * qa, b == m * qb, qb < qa, m > 0;
    }
}

/// Greatest common divisor by Euclid's recursion.
pub open spec fn gcd_spec(a: nat, b: nat) -> nat
    decreases b,
{
    if b == 0 { a } else { gcd_spec(b, a % b) }
}

/// Least common multiple, computed as `a * (b / gcd(a, b))`, and 0 when both
/// are 0.
pub open spec fn lcm_spec(a: nat, b: nat) -> nat {
    if a == 0 && b == 0 { 0 } else { a * (b / gcd_spec(a, b)) }
}

/// The greatest common divisor divides both numbers.
pub proof fn lemma_gcd_divides(a: nat, b: nat)
    requires
        a > 0,
    ensures
        gcd_spec(a, b) > 0,
        a % gcd_spec(a, b) == 0,
        b % gcd_spec(a, b) == 0,
    decreases b,
{
    if b == 0 {
        vstd::arithmetic::div_mod::lemma_mod_multiples_basic(1, a as int);
        vstd::arithmetic::div_mod::lemma_mod_multiples_basic(0, a as int);
    } else {
        lemma_gcd_divides(b, a % b);
        let g = gcd_spec(b, a % b);
        let r = (a % b) as nat;
        vstd::arithmetic::div_mod::lemma_fundamental_div_mod(b as int, g as int);
        vstd::arithmetic::div_mod::lemma_fundamental_div_mod(r as int, g as int);
        vstd::arithmetic::div_mod::lemma_fundamental_div_mod(a as int, b as int);
        let qb = b as int / g as int;
        let qr = r as int / g as int;
        let k = a as int / b as int;
        assert(b == g * qb);
        assert(r == g * qr);
        assert(a == b * k + r);
        assert(a == (qb * k + qr) * g) by (nonlinear_arith)
            requires b == g * qb, r == g * qr, a == b * k + r;
        vstd::arithmetic::div_mod::lemma_mod_multiples_basic(qb * k + qr, g as int);
    }
}

/// For positive numbers the least common multiple is a positive common
/// multiple.
pub proof fn lemma_lcm_common_multiple(a: nat, b: nat)
    requires
        a > 0,
        b > 0,
    ensures
        lcm_spec(a, b) > 0,
        lcm_spec(a, b) % a == 0,
        lcm_spec(a, b) % b == 0,
{
    lemma_gcd_divides(a, b);
    let g = gcd_spec(a, b) as int;
    vstd::arithmetic::div_mod::lemma_fundamental_div_mod(a as int, g);
    vstd::arithmetic::div_mod::lemma_fundamental_div_mod(b as int, g);
    let qa = a as int / g;
    let qb = b as int / g;
    assert(a == g * qa);
    assert(b == g * qb);
    assert(qb > 0) by (nonlinear_arith)
        requires b == g * qb, b > 0, g > 0;
    assert(lcm_spec(a, b) == a * qb);
    assert(a * qb > 0) by (nonlinear_arith)
        requires a > 0, qb > 0;
    assert(a * qb == qb * a) by (nonlinear_arith);
    vstd::arithmetic::div_mod::lemma_mod_multiples_basic(qb, a as int);
    assert(a * qb == qa * b) by (nonlinear_arith)
        requires a == g * qa, b == g * qb;
    vstd::arithmetic::div_mod::lemma_mod_multiples_basic(qa, b as int);
}

/// `p` is a power of two.
pub open spec fn is_power_of_two(p: int) -> bool {
    exists|e: nat| #[trigger] vstd::arithmetic::power2::pow2(e) == p
}

/// `r` is the smallest power of two that is at least `x` (1 when `x` is 0):
/// a power of two in `[x, 2x)`, or 1.
pub open spec fn is_next_power_of_two(r: int, x: int) -> bool {
    &&& is_power_of_two(r)
    &&& r >= x
    &&& r >= 1
    &&& x <= 1 ==> r == 1
    &&& x > 1 ==> r < 2 * x
}

/// `x.next_power_of_two()` on `u32`.
pub fn next_power_of_two_u32(x: u32) -> (r: u32)
    requires
        x <= 0x8000_0000,
    ensures
        is_next_power_of_two(r as int, x as int),
{
    let mut p: u32 = 1;
    let ghost mut e: nat = 0;
    proof {
        assert(vstd::arithmetic::power2::pow2(0) == 1) by {
            vstd::arithmetic::power::lemma_pow0(2);
        }
    }
    while p < x
        invariant
            x <= 0x8000_0000,
            1 <= p,
            vstd::arithmetic::power2::pow2(e) == p,
            p == 1 || p < 2 * x,
        decreases 0x1_0000_0000int - p,
    {
        proof {
            vstd::arithmetic::power2::lemma_pow2_unfold(e + 1);
        }
        p = p * 2;
        proof {
            e = e + 1;
        }
    }
    assert(is_power_of_two(p as int));
    p
}

/// `x.ilog(base)` on `u32`: how often `x` can be divided by `base` before it
/// drops below `base`.
pub fn ilog_u32(x: u32, base: u32) -> (r: u32)
    requires
        base >= 2,
        x >= 1,
    ensures
        r == vstd::arithmetic::logarithm::log(base as int, x as int),
{
    let mut v = x;
    let mut k: u32 = 0;
    proof {
        reveal(vstd::arithmetic::logarithm::log);
    }
    while v >= base
        invariant
            base >= 2,
            v >= 1,
            k + v <= x,
            vstd::arithmetic::logarithm::log(base as int, x as int) == k + vstd::arithmetic::logarithm::log(base as int, v as int),
        decreases v,
    {
        proof {
            reveal(vstd::arithmetic::logarithm::log);
            assert(v / base < v) by (nonlinear_arith)
                requires v >= 1, base >= 2;
            assert(v / base >= 1) by (nonlinear_arith)
                requires v >= base, base >= 2;
            assert(k + 1 + v / base <= k + v) by (nonlinear_arith)
                requires v >= base, base >= 2, v / base >= 1;
        }
        v = v / base;
        k = k + 1;
    }
    proof {
        reveal(vstd::arithmetic::logarithm::log);
    }
    k
}

/// The integer logarithm brackets `x` between consecutive powers.
pub proof fn lemma_log_bounds(b: int, x: int)
    requires
        b >= 2,
        x >= 1,
    ensures
        vstd::arithmetic::power::pow(b, vstd::arithmetic::logarithm::log(b, x) as nat) <= x,
        x < vstd::arithmetic::power::pow(b, (vstd::arithmetic::logarithm::log(b, x) + 1) as nat),
        vstd::arithmetic::logarithm::log(b, x) >= 0,
    decreases x,
{
    reveal(vstd::arithmetic::logarithm::log);
    reveal(vstd::arithmetic::power::pow);
    if x < b {
        assert(vstd::arithmetic::logarithm::log(b, x) == 0);
        assert(vstd::arithmetic::power::pow(b, 0) == 1);
        assert(vstd::arithmetic::power::pow(b, 1) == b * vstd::arithmetic::power::pow(b, 0));
    } else {
        let q = x / b;
        assert(q < x && q >= 1) by (nonlinear_arith)
            requires x >= b, b >= 2, q == x / b;
        lemma_log_bounds(b, q);
        let l = vstd::arithmetic::logarithm::log(b, q);
        assert(vstd::arithmetic::logarithm::log(b, x) == 1 + l);
        let p = vstd::arithmetic::power::pow(b, l as nat);
        let p1 = vstd::arithmetic::power::pow(b, (l + 1) as nat);
        let p2 = vstd::arithmetic::power::pow(b, (l + 2) as nat);
        assert(p1 == b * p);
        assert(p2 == b * p1);
        assert(b * q <= x && x < b * (q + 1)) by (nonlinear_arith)
            requires b >= 2, q == x / b;
        assert(b * p <= b * q) by (nonlinear_arith)
            requires p <= q, b >= 2;
        assert(b * (q + 1) <= b * p1) by (nonlinear_arith)
            requires q < p1, b >= 2;
    }
}

} // verus!
