//! Exact escalating-backoff arithmetic for the cooldown manager.
//!
//! A recoverable failure's cooldown grows geometrically: the trigger whose
//! escalation exponent is `k` applies `min(cap, floor(base * 1.5^k))`
//! seconds. The factor `1.5^k` is handled exactly as the rational
//! `3^k / 2^k`; no floating point is involved.

use vstd::prelude::*;

verus! {

use vstd::arithmetic::div_mod::{
    lemma_div_by_self,
    lemma_div_is_ordered,
    lemma_div_pos_is_pos,
    lemma_fundamental_div_mod,
    lemma_fundamental_div_mod_converse,
    lemma_remainder_lower,
    lemma_remainder_upper,
};
use vstd::arithmetic::mul::{
    lemma_mul_inequality,
    lemma_mul_nonnegative,
    lemma_mul_strict_inequality,
};

pub open spec fn pow2(k: nat) -> int
    decreases k,
{
    if k == 0 {
        1
    } else {
        2 * pow2((k - 1) as nat)
    }
}

pub open spec fn pow3(k: nat) -> int
    decreases k,
{
    if k == 0 {
        1
    } else {
        3 * pow3((k - 1) as nat)
    }
}

/// The duration, in whole seconds, applied on the trigger whose escalation
/// exponent is `k`: `min(cap, floor(base * 3^k / 2^k))`.
pub open spec fn backoff_duration(base: u64, k: nat, cap: u64) -> u64 {
    if base * pow3(k) >= cap * pow2(k) {
        cap
    } else {
        (base * pow3(k) / pow2(k)) as u64
    }
}

pub proof fn lemma_pow_positive(k: nat)
    ensures
        pow2(k) >= 1,
        pow3(k) >= pow2(k),
    decreases k,
{
    if k > 0 {
        lemma_pow_positive((k - 1) as nat);
    }
}

proof fn lemma_pow2_add(a: nat, b: nat)
    ensures
        pow2(a + b) == pow2(a) * pow2(b),
    decreases a,
{
    lemma_pow_positive(b);
    if a == 0 {
    } else {
        lemma_pow2_add((a - 1) as nat, b);
        assert(pow2((a + b - 1) as nat) == pow2((a - 1) as nat) * pow2(b));
        assert(2 * (pow2((a - 1) as nat) * pow2(b)) == (2 * pow2((a - 1) as nat)) * pow2(b))
            by (nonlinear_arith);
    }
}

proof fn lemma_pow3_add(a: nat, b: nat)
    ensures
        pow3(a + b) == pow3(a) * pow3(b),
    decreases a,
{
    if a == 0 {
    } else {
        lemma_pow3_add((a - 1) as nat, b);
        assert(3 * (pow3((a - 1) as nat) * pow3(b)) == (3 * pow3((a - 1) as nat)) * pow3(b))
            by (nonlinear_arith);
    }
}

/// `3^12 >= 2^19`, the seed fact behind the growth-rate bound.
proof fn lemma_pow3_12()
    ensures
        pow3(12) >= pow2(19),
{
    reveal_with_fuel(pow3, 13);
    reveal_with_fuel(pow2, 20);
    assert(pow3(12) == 531441);
    assert(pow2(19) == 524288);
}

/// `3^(12 j) >= 2^(19 j)`.
proof fn lemma_pow12_chain(j: nat)
    ensures
        pow3(12 * j) >= pow2(19 * j),
    decreases j,
{
    if j > 0 {
        lemma_pow12_chain((j - 1) as nat);
        lemma_pow3_12();
        lemma_pow_positive(12 * (j - 1) as nat);
        lemma_pow_positive(19 * (j - 1) as nat);
        lemma_pow_positive(19);
        lemma_pow2_add(19 * (j - 1) as nat, 19);
        lemma_pow3_add(12 * (j - 1) as nat, 12);
        let a3 = pow3(12 * (j - 1) as nat);
        let a2 = pow2(19 * (j - 1) as nat);
        assert(a3 * pow3(12) >= a2 * pow2(19)) by (nonlinear_arith)
            requires
                a3 >= a2 >= 1,
                pow3(12) >= pow2(19) >= 1,
        ;
        assert(12 * j == 12 * (j - 1) as nat + 12);
        assert(19 * j == 19 * (j - 1) as nat + 19);
    }
}

/// For exponents of 120 and beyond, `3^k / 2^k` exceeds `u64::MAX`, so the
/// capped duration always equals the cap.
proof fn lemma_big_ratio(k: nat)
    requires
        k >= 120,
    ensures
        pow3(k) >= pow2(k) * 0x1_0000_0000_0000_0000,
    decreases k,
{
    if k == 120 {
        lemma_pow12_chain(10);
        assert(pow3(120) >= pow2(190));
        lemma_pow2_add(120, 70);
        lemma_pow2_add(64, 6);
        reveal_with_fuel(pow2, 7);
        assert(pow2(70) == pow2(64) * 64);
        lemma_pow_positive(64);
        lemma_pow_positive(120);
        assert(pow2(64) >= 0x1_0000_0000_0000_0000) by {
            lemma_pow2_value_64();
        }
        assert(pow2(190) == pow2(120) * pow2(70));
        assert(pow2(120) * pow2(70) >= pow2(120) * 0x1_0000_0000_0000_0000) by (nonlinear_arith)
            requires
                pow2(70) >= 0x1_0000_0000_0000_0000,
                pow2(120) >= 1,
        ;
        assert(pow2(70) >= 0x1_0000_0000_0000_0000) by (nonlinear_arith)
            requires
                pow2(70) == pow2(64) * 64,
                pow2(64) >= 0x1_0000_0000_0000_0000,
        ;
    } else {
        lemma_big_ratio((k - 1) as nat);
        let p3 = pow3((k - 1) as nat);
        let p2 = pow2((k - 1) as nat);
        lemma_pow_positive((k - 1) as nat);
        assert(3 * p3 >= 2 * (p2 * 0x1_0000_0000_0000_0000)) by (nonlinear_arith)
            requires
                p3 >= p2 * 0x1_0000_0000_0000_0000,
                p2 >= 1,
        ;
        assert(2 * (p2 * 0x1_0000_0000_0000_0000) == (2 * p2) * 0x1_0000_0000_0000_0000)
            by (nonlinear_arith);
    }
}

proof fn lemma_pow2_value_64()
    ensures
        pow2(64) == 0x1_0000_0000_0000_0000,
{
    lemma_pow2_add(32, 32);
    reveal_with_fuel(pow2, 33);
    assert(pow2(32) == 0x1_0000_0000);
}

/// `2^i` is monotone in the exponent, numerically bounded for the loop.
proof fn lemma_pow2_le_119(i: nat)
    requires
        i <= 119,
    ensures
        pow2(i) <= 0x80_0000_0000_0000_0000_0000_0000_0000,
    decreases 119 - i,
{
    if i < 119 {
        lemma_pow2_le_119(i + 1);
        lemma_pow_positive(i);
        assert(pow2(i + 1) == 2 * pow2(i));
    } else {
        lemma_pow2_add(64, 55);
        lemma_pow2_value_64();
        reveal_with_fuel(pow2, 56);
        assert(pow2(55) == 0x80_0000_0000_0000);
    }
}

/// A floor strictly below the cap: `0 <= b / p < cap` when `b < cap * p`.
proof fn lemma_floor_below_cap(b: int, p: int, cap: int)
    requires
        0 <= b,
        1 <= p,
        b < cap * p,
    ensures
        0 <= b / p < cap,
{
    lemma_div_pos_is_pos(b, p);
    lemma_fundamental_div_mod(b, p);
    if b / p >= cap {
        lemma_mul_inequality(cap, b / p, p);
        assert((b / p) * p == p * (b / p)) by (nonlinear_arith);
    }
}

/// The applied duration never exceeds the cap.
pub proof fn lemma_backoff_le_cap(base: u64, k: nat, cap: u64)
    ensures
        backoff_duration(base, k, cap) <= cap,
{
    lemma_pow_positive(k);
    if base * pow3(k) < cap * pow2(k) {
        lemma_mul_nonnegative(base as int, pow3(k));
        lemma_floor_below_cap(base * pow3(k), pow2(k), cap as int);
    }
}

/// Once the undivided ratio reaches the cap it stays there for every later
/// exponent.
pub proof fn lemma_cap_persists(base: int, cap: int, i: nat, k: nat)
    requires
        0 <= base,
        0 <= cap,
        i <= k,
        base * pow3(i) >= cap * pow2(i),
    ensures
        base * pow3(k) >= cap * pow2(k),
    decreases k - i,
{
    if i < k {
        lemma_cap_persists(base, cap, i, (k - 1) as nat);
        let p3 = pow3((k - 1) as nat);
        let p2 = pow2((k - 1) as nat);
        lemma_pow_positive((k - 1) as nat);
        lemma_mul_nonnegative(cap, p2);
        assert(base * (3 * p3) == 3 * (base * p3)) by (nonlinear_arith);
        assert(cap * (2 * p2) == 2 * (cap * p2)) by (nonlinear_arith);
        assert(3 * (base * p3) >= 3 * (cap * p2));
        assert(3 * (cap * p2) >= 2 * (cap * p2));
    }
}

/// The ratio `3^k / 2^k` is nondecreasing in `k`: cross-multiplied,
/// `3^i * 2^j <= 3^j * 2^i` for `i <= j`.
pub proof fn lemma_ratio_monotone(i: nat, j: nat)
    requires
        i <= j,
    ensures
        pow3(i) * pow2(j) <= pow3(j) * pow2(i),
    decreases j - i,
{
    lemma_pow_positive(i);
    if i < j {
        lemma_ratio_monotone(i, (j - 1) as nat);
        let q3 = pow3((j - 1) as nat);
        let q2 = pow2((j - 1) as nat);
        lemma_pow_positive((j - 1) as nat);
        assert(pow3(i) * (2 * q2) == 2 * (pow3(i) * q2)) by (nonlinear_arith);
        assert(2 * (pow3(i) * q2) <= 2 * (q3 * pow2(i)));
        assert(2 * (q3 * pow2(i)) <= 3 * (q3 * pow2(i))) by {
            lemma_mul_nonnegative(q3, pow2(i));
        }
        assert(3 * (q3 * pow2(i)) == (3 * q3) * pow2(i)) by (nonlinear_arith);
    }
}

/// Monotonicity of the applied duration in the escalation exponent.
pub proof fn lemma_backoff_monotone(base: u64, k1: nat, k2: nat, cap: u64)
    requires
        k1 <= k2,
    ensures
        backoff_duration(base, k1, cap) <= backoff_duration(base, k2, cap),
{
    lemma_pow_positive(k1);
    lemma_pow_positive(k2);
    lemma_mul_nonnegative(base as int, pow3(k1));
    lemma_mul_nonnegative(base as int, pow3(k2));
    let b1 = base * pow3(k1);
    let b2 = base * pow3(k2);
    let p1 = pow2(k1);
    let p2 = pow2(k2);
    if b1 >= cap * p1 {
        lemma_cap_persists(base as int, cap as int, k1, k2);
    } else if b2 >= cap * p2 {
        lemma_floor_below_cap(b1, p1, cap as int);
    } else {
        lemma_floor_below_cap(b1, p1, cap as int);
        lemma_floor_below_cap(b2, p2, cap as int);
        let q1 = b1 / p1;
        let q2 = b2 / p2;
        if q1 > q2 {
            lemma_fundamental_div_mod(b1, p1);
            lemma_fundamental_div_mod(b2, p2);
            // b1 >= q1 * p1 >= (q2 + 1) * p1 and b2 < (q2 + 1) * p2,
            // so b1 * p2 > b2 * p1, contradicting ratio monotonicity.
            assert(b1 >= q1 * p1) by {
                lemma_remainder_lower(b1, p1);
                assert(p1 * q1 == q1 * p1) by (nonlinear_arith);
            }
            assert(q1 * p1 >= (q2 + 1) * p1) by {
                lemma_mul_inequality(q2 + 1, q1, p1);
            }
            assert(b2 < (q2 + 1) * p2) by {
                lemma_remainder_upper(b2, p2);
                assert(b2 - p2 < b2 / p2 * p2);
                assert((q2 + 1) * p2 == q2 * p2 + p2) by (nonlinear_arith);
            }
            assert(b1 * p2 >= ((q2 + 1) * p1) * p2) by {
                lemma_mul_inequality((q2 + 1) * p1, b1, p2);
            }
            assert(((q2 + 1) * p1) * p2 == ((q2 + 1) * p2) * p1) by (nonlinear_arith);
            assert(((q2 + 1) * p2) * p1 > b2 * p1) by {
                lemma_mul_strict_inequality(b2, (q2 + 1) * p2, p1);
            }
            assert(b1 * p2 <= b2 * p1) by {
                lemma_ratio_monotone(k1, k2);
                assert(base * pow3(k1) * pow2(k2) <= base * pow3(k2) * pow2(k1))
                    by (nonlinear_arith)
                    requires
                        pow3(k1) * pow2(k2) <= pow3(k2) * pow2(k1),
                        base >= 0,
                ;
            }
            assert(false);
        }
    }
}

/// When both the base and the cap are positive, so is the applied duration.
pub proof fn lemma_backoff_positive(base: u64, k: nat, cap: u64)
    requires
        base >= 1,
        cap >= 1,
    ensures
        backoff_duration(base, k, cap) >= 1,
{
    lemma_pow_positive(k);
    let b3 = base * pow3(k);
    let p2 = pow2(k);
    if b3 < cap * p2 {
        assert(b3 >= p2) by (nonlinear_arith)
            requires
                b3 == base * pow3(k),
                base >= 1,
                pow3(k) >= p2 >= 1,
        ;
        lemma_div_is_ordered(p2, b3, p2);
        lemma_div_by_self(p2);
        lemma_mul_nonnegative(base as int, pow3(k));
        lemma_floor_below_cap(b3, p2, cap as int);
    }
}

/// Computes `backoff_duration(base, k, cap)` exactly.
///
/// The loop keeps the exact value of `base * 3^i / 2^i` as a quotient `q`
/// and a remainder `rf` over the denominator `p = 2^i`, and exits as soon
/// as the quotient reaches the cap. While the quotient is below the cap
/// the exponent stays under 120, so the denominator fits comfortably in a
/// `u128`.
pub fn compute_backoff(base: u64, k: u32, cap: u64) -> (r: u64)
    requires
        base >= 1,
    ensures
        r == backoff_duration(base, k as nat, cap),
{
    if base >= cap {
        proof {
            lemma_pow_positive(k as nat);
            assert(base * pow3(k as nat) >= cap * pow2(k as nat)) by (nonlinear_arith)
                requires
                    base >= cap,
                    pow3(k as nat) >= pow2(k as nat) >= 1,
            ;
        }
        return cap;
    }
    let mut i: u32 = 0;
    let mut q: u64 = base;
    let mut rf: u128 = 0;
    let mut p: u128 = 1;
    while i < k
        invariant
            i <= k,
            1 <= base < cap,
            q < cap,
            p == pow2(i as nat),
            rf < p,
            base * pow3(i as nat) == q * p + rf,
        decreases k - i,
    {
        proof {
            lemma_pow_positive(i as nat);
            if i >= 120 {
                lemma_big_ratio(i as nat);
                assert(base * pow3(i as nat) >= pow3(i as nat)) by (nonlinear_arith)
                    requires
                        base >= 1,
                        pow3(i as nat) >= 0,
                ;
                assert((q + 1) * p <= 0x1_0000_0000_0000_0000 * p) by {
                    lemma_mul_inequality(q + 1, 0x1_0000_0000_0000_0000, p as int);
                }
                assert(pow2(i as nat) * 0x1_0000_0000_0000_0000 == 0x1_0000_0000_0000_0000 * p)
                    by (nonlinear_arith)
                    requires
                        p == pow2(i as nat),
                ;
                assert(base * pow3(i as nat) < (q + 1) * p) by (nonlinear_arith)
                    requires
                        base * pow3(i as nat) == q * p + rf,
                        rf < p,
                ;
                assert(false);
            }
            lemma_pow2_le_119(i as nat);
        }
        let tq: u128 = 3 * (q as u128);
        let v: u128 = tq / 2;
        let u: u128 = tq % 2;
        let t: u128 = 3 * rf;
        let p2: u128 = 2 * p;
        let w: u128 = t / p2;
        let s: u128 = t % p2;
        proof {
            assert(u <= 1);
            assert(s < p2);
            assert(u * p <= p) by (nonlinear_arith)
                requires
                    u <= 1,
                    p >= 0,
            ;
        }
        let z: u128 = u * p + s;
        let c: u128 = z / p2;
        let r2: u128 = z % p2;
        let q2: u128 = v + w + c;
        proof {
            let bi = base * pow3(i as nat);
            let bi1 = base * pow3((i + 1) as nat);
            assert(bi1 == 3 * bi) by (nonlinear_arith)
                requires
                    bi == base * pow3(i as nat),
                    bi1 == base * pow3((i + 1) as nat),
                    pow3((i + 1) as nat) == 3 * pow3(i as nat),
            ;
            lemma_fundamental_div_mod(t as int, p2 as int);
            lemma_fundamental_div_mod(z as int, p2 as int);
            assert(3 * bi == q2 * p2 + r2) by (nonlinear_arith)
                requires
                    bi == q * p + rf,
                    3 * (q as int) == 2 * v + u,
                    t == 3 * rf,
                    t == p2 * w + s,
                    z == u * p + s,
                    z == p2 * c + r2,
                    q2 == v + w + c,
                    p2 == 2 * p,
            ;
            assert(pow2((i + 1) as nat) == 2 * pow2(i as nat));
        }
        i = i + 1;
        p = 2 * p;
        rf = r2;
        if q2 >= cap as u128 {
            proof {
                assert(base * pow3(i as nat) >= cap * pow2(i as nat)) by (nonlinear_arith)
                    requires
                        base * pow3(i as nat) == q2 * p + rf,
                        rf >= 0,
                        q2 >= cap,
                        p == pow2(i as nat),
                        p >= 1,
                ;
                lemma_cap_persists(base as int, cap as int, i as nat, k as nat);
            }
            return cap;
        }
        q = q2 as u64;
    }
    proof {
        lemma_pow_positive(k as nat);
        lemma_fundamental_div_mod_converse(
            base * pow3(k as nat),
            pow2(k as nat),
            q as int,
            rf as int,
        );
        assert(base * pow3(k as nat) < cap * pow2(k as nat)) by (nonlinear_arith)
            requires
                base * pow3(k as nat) == q * pow2(k as nat) + rf,
                0 <= rf < pow2(k as nat),
                q < cap,
                pow2(k as nat) >= 1,
        ;
    }
    q
}

} // verus!
