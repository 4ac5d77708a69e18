//! Closed-form estimates for the value of the n-th prime, from the
//! `n ln n` family of asymptotics, computed in 16-bit fixed-point integer
//! arithmetic.  The estimates seed the n-th-prime search, which checks them
//! against the exact prime counter before relying on them.

use vstd::arithmetic::div_mod::{
    lemma_div_is_ordered, lemma_div_multiples_vanish, lemma_multiply_divide_lt,
};
use vstd::arithmetic::mul::lemma_mul_strict_inequality;
use vstd::prelude::*;

verus! {

/// The floor of the base-two logarithm.
pub open spec fn log2_floor_spec(x: int) -> int
    decreases x,
{
    if x < 2 {
        0
    } else {
        1 + log2_floor_spec(x / 2)
    }
}

/// Two to the power `e` (1 for non-positive `e`).
pub open spec fn two_pow(e: int) -> int
    decreases e,
{
    if e <= 0 {
        1
    } else {
        2 * two_pow(e - 1)
    }
}

/// The base-two logarithm is non-negative.
proof fn lemma_log2_nonneg(x: int)
    ensures
        0 <= log2_floor_spec(x),
    decreases x,
{
    if x >= 2 {
        lemma_log2_nonneg(x / 2);
    }
}

/// Powers of two are positive.
proof fn lemma_two_pow_pos(e: int)
    ensures
        1 <= two_pow(e),
    decreases e,
{
    if e > 0 {
        lemma_two_pow_pos(e - 1);
    }
}

/// Powers of two never decrease with the exponent.
proof fn lemma_two_pow_mono(a: int, b: int)
    requires
        a <= b,
    ensures
        1 <= two_pow(a) <= two_pow(b),
    decreases b - a,
{
    lemma_two_pow_pos(a);
    if a < b {
        lemma_two_pow_mono(a, b - 1);
        lemma_two_pow_pos(b - 1);
    }
}

/// Below 2^64 the base-two logarithm stays below 64.
proof fn lemma_log2_64(x: int, k: int)
    requires
        1 <= x < 0x1_0000_0000_0000_0000,
        k == log2_floor_spec(x),
        two_pow(k) <= x,
    ensures
        k <= 63,
{
    lemma_log2_nonneg(x);
    if k >= 64 {
        lemma_two_pow_mono(64, k);
        assert(two_pow(64) == 0x1_0000_0000_0000_0000) by {
            reveal_with_fuel(two_pow, 65);
        }
    }
}

/// The power of two at the floor of the logarithm brackets its argument.
fn norm(x: u64) -> (r: (u64, u128))
    requires
        1 <= x,
    ensures
        r.0 as int == log2_floor_spec(x as int),
        r.1 as int == two_pow(r.0 as int),
        r.1 as int <= x as int,
        (x as int) < 2 * (r.1 as int),
        r.0 <= 63,
    decreases x,
{
    if x < 2 {
        (0, 1)
    } else {
        let (k, p) = norm(x / 2);
        proof {
            lemma_log2_nonneg(x as int / 2);
            lemma_log2_64(x as int, 1 + log2_floor_spec(x as int / 2));
        }
        (k + 1, 2 * p)
    }
}

/// The natural logarithm scaled by 2^16: `ln x = log2(x) * ln 2`, with the
/// fractional part of the logarithm taken by linear interpolation between
/// neighbouring powers of two.
pub open spec fn ln_fp_spec(x: int) -> int {
    let k = log2_floor_spec(x);
    let p = two_pow(k);
    ((k * 65536 + ((x - p) * 65536) / p) * 45426) / 65536
}

/// The natural logarithm of `x`, scaled by 2^16.
fn ln_fp(x: u64) -> (r: u64)
    requires
        1 <= x,
    ensures
        r as int == ln_fp_spec(x as int),
        45426 * log2_floor_spec(x as int) <= r as int,
        (r as int) < 45426 * (log2_floor_spec(x as int) + 1),
{
    let (k, p) = norm(x);
    let t = (((x as u128) - p) * 65536) / p;
    proof {
        let xi = x as int;
        let ki = k as int;
        let pi = p as int;
        let ti = ((xi - pi) * 65536) / pi;
        assert(0 <= ti) by {
            vstd::arithmetic::mul::lemma_mul_nonnegative(xi - pi, 65536);
            lemma_div_is_ordered(0, (xi - pi) * 65536, pi);
        }
        assert(ti < 65536) by {
            assert((xi - pi) * 65536 < pi * 65536) by {
                lemma_mul_strict_inequality(xi - pi, pi, 65536);
            }
            lemma_multiply_divide_lt((xi - pi) * 65536, pi, 65536);
        }
        let num = (ki * 65536 + ti) * 45426;
        assert((ki * 65536 + ti) * 45426 == ki * 65536 * 45426 + ti * 45426) by (nonlinear_arith);
        assert(num / 65536 >= 45426 * ki) by {
            assert(65536 * (45426 * ki) <= num) by (nonlinear_arith)
                requires
                    num == ki * 65536 * 45426 + ti * 45426,
                    0 <= ti,
                    0 <= ki,
            ;
            lemma_div_is_ordered(65536 * (45426 * ki), num, 65536);
            lemma_div_multiples_vanish(45426 * ki, 65536);
        }
        assert(num / 65536 < 45426 * (ki + 1)) by {
            assert(num < 65536 * (45426 * (ki + 1))) by (nonlinear_arith)
                requires
                    num == ki * 65536 * 45426 + ti * 45426,
                    ti < 65536,
                    0 <= ki,
            ;
            lemma_multiply_divide_lt(num, 65536, 45426 * (ki + 1));
        }
    }
    let num = ((k as u128) * 65536 + t) * 45426;
    (num / 65536) as u64
}

/// `ln ln n` scaled by 2^16: the logarithm of the fixed-point logarithm,
/// shifted down by `16 ln 2` to undo the scale, floored at zero.
pub open spec fn lnln_fp_spec(n: int) -> int {
    let l = ln_fp_spec(n);
    if ln_fp_spec(l) >= 726816 {
        ln_fp_spec(l) - 726816
    } else {
        0
    }
}

/// An upper estimate for the n-th prime (1-indexed): the first five primes
/// directly, and `n (ln n + ln ln n)` beyond them, with an added margin of
/// an eighth of `n` and, from 7022 on, the usual tuned correction term.
/// Saturates at the machine word.
pub open spec fn nth_prime_upper_spec(n: int) -> int {
    if n == 1 {
        2
    } else if n == 2 {
        3
    } else if n == 3 {
        5
    } else if n == 4 {
        7
    } else if n == 5 {
        11
    } else {
        let sum = ln_fp_spec(n) + lnln_fp_spec(n) + 8192;
        let t = if n < 7022 {
            sum
        } else if sum >= 61513 {
            sum - 61513
        } else {
            0
        };
        let v = (n * t) / 65536;
        if v > usize::MAX as int {
            usize::MAX as int
        } else {
            v
        }
    }
}

/// A lower estimate for the n-th prime (1-indexed): the first five primes
/// directly, and `n (ln n + ln ln n - 1)` beyond them.  Saturates at the
/// machine word.
pub open spec fn nth_prime_lower_spec(n: int) -> int {
    if n == 1 {
        2
    } else if n == 2 {
        3
    } else if n == 3 {
        5
    } else if n == 4 {
        7
    } else if n == 5 {
        11
    } else {
        let sum = ln_fp_spec(n) + lnln_fp_spec(n);
        let t = if sum >= 65536 {
            sum - 65536
        } else {
            0
        };
        let v = (n * t) / 65536;
        if v > usize::MAX as int {
            usize::MAX as int
        } else {
            v
        }
    }
}

/// The shared tail of the two estimators: `ln n` and `ln ln n` in fixed
/// point, for `n >= 6`.
fn ln_terms(n: usize) -> (r: (u64, u64))
    requires
        6 <= n,
    ensures
        r.0 as int == ln_fp_spec(n as int),
        r.1 as int == lnln_fp_spec(n as int),
        r.0 < 45426 * 65,
        r.1 < 45426 * 65,
{
    let l = ln_fp(n as u64);
    proof {
        let ni = n as int;
        assert(log2_floor_spec(ni) >= 1) by {
            assert(log2_floor_spec(ni) == 1 + log2_floor_spec(ni / 2));
            lemma_log2_nonneg(ni / 2);
        }
        assert(log2_floor_spec(ni) <= 63) by {
            lemma_norm_brackets(ni);
            lemma_log2_64(ni, log2_floor_spec(ni));
        }
        assert(log2_floor_spec(l as int) <= 63) by {
            lemma_norm_brackets(l as int);
            lemma_log2_64(l as int, log2_floor_spec(l as int));
        }
    }
    let ll0 = ln_fp(l);
    let ll = if ll0 >= 726816 {
        ll0 - 726816
    } else {
        0
    };
    (l, ll)
}

/// The bracketing of `norm`, as a lemma about the specification alone.
proof fn lemma_norm_brackets(x: int)
    requires
        1 <= x,
    ensures
        1 <= two_pow(log2_floor_spec(x)) <= x,
        x < 2 * two_pow(log2_floor_spec(x)),
    decreases x,
{
    if x < 2 {
    } else {
        lemma_norm_brackets(x / 2);
        lemma_log2_nonneg(x / 2);
    }
}

/// An upper estimate for the value of the n-th prime: see
/// [`nth_prime_upper_spec`].
pub fn upper_bound_for_nth_prime(n: usize) -> (r: usize)
    requires
        1 <= n,
    ensures
        r as int == nth_prime_upper_spec(n as int),
{
    if n == 1 {
        2
    } else if n == 2 {
        3
    } else if n == 3 {
        5
    } else if n == 4 {
        7
    } else if n == 5 {
        11
    } else {
        let (l, ll) = ln_terms(n);
        let sum = (l as u128) + (ll as u128) + 8192;
        let t = if n < 7022 {
            sum
        } else if sum >= 61513 {
            sum - 61513
        } else {
            0
        };
        proof {
            assert((n as int) * (t as int) <= 0xFFFF_FFFF_FFFF_FFFF * 0x80_0000)
                by (nonlinear_arith)
                requires
                    0 <= n as int <= 0xFFFF_FFFF_FFFF_FFFF,
                    0 <= t as int <= 0x80_0000,
            ;
        }
        let v = ((n as u128) * t) / 65536;
        if v > usize::MAX as u128 {
            usize::MAX
        } else {
            v as usize
        }
    }
}

/// A lower estimate for the value of the n-th prime: see
/// [`nth_prime_lower_spec`].
pub fn lower_bound_for_nth_prime(n: usize) -> (r: usize)
    requires
        1 <= n,
    ensures
        r as int == nth_prime_lower_spec(n as int),
{
    if n == 1 {
        2
    } else if n == 2 {
        3
    } else if n == 3 {
        5
    } else if n == 4 {
        7
    } else if n == 5 {
        11
    } else {
        let (l, ll) = ln_terms(n);
        let sum = (l as u128) + (ll as u128);
        let t = if sum >= 65536 {
            sum - 65536
        } else {
            0
        };
        proof {
            assert((n as int) * (t as int) <= 0xFFFF_FFFF_FFFF_FFFF * 0x80_0000)
                by (nonlinear_arith)
                requires
                    0 <= n as int <= 0xFFFF_FFFF_FFFF_FFFF,
                    0 <= t as int <= 0x80_0000,
            ;
        }
        let v = ((n as u128) * t) / 65536;
        if v > usize::MAX as u128 {
            usize::MAX
        } else {
            v as usize
        }
    }
}

} // verus!
