//! Legendre's prime counter: answers "how many primes are at most `n`"
//! through the recursive inclusion-exclusion function phi, over a factor
//! base of all primes up to the square root of the query limit.

use crate::primality::{
    int_seq, is_prime, least_factor, lemma_composite_least_factor_sq, lemma_divides_trans,
    lemma_euclid, lemma_least_factor_props, lemma_multiple_mod_zero, lemma_one_rough,
    lemma_prime_count_bounds, lemma_prime_count_mono, lemma_prime_count_strict,
    lemma_prime_no_divisor, lemma_prime_not_divides_prime, lemma_prime_same_count,
    lemma_small_primes,
    lemma_range_primes_index, lemma_range_primes_len, prime_count, primes_upto, range_primes,
};
use crate::sieve::{block_sieve, isqrt};
use vstd::arithmetic::div_mod::{
    lemma_div_is_ordered, lemma_div_non_zero, lemma_div_nonincreasing, lemma_fundamental_div_mod,
    lemma_fundamental_div_mod_converse, lemma_mod_division_less_than_divisor,
};
use vstd::arithmetic::mul::{lemma_mul_inequality, lemma_mul_is_commutative};
use vstd::prelude::*;

verus! {

/// `v` has no factor among the first `a` primes.  A prime `p` is among the
/// first `a` primes exactly when `prime_count(p) <= a`.
pub open spec fn rough(v: int, a: int) -> bool {
    forall|p: int| is_prime(p) && prime_count(p) <= a ==> #[trigger] (v % p) != 0
}

/// Legendre's phi: how many integers in `[1, x]` have no factor among the
/// first `a` primes.
pub open spec fn phi_spec(x: int, a: int) -> int
    decreases x,
{
    if x < 1 {
        0
    } else {
        phi_spec(x - 1, a) + if rough(x, a) {
            1int
        } else {
            0int
        }
    }
}

/// A prime has a positive prime count.
proof fn lemma_prime_count_pos(p: int)
    requires
        is_prime(p),
    ensures
        prime_count(p) >= 1,
{
    lemma_prime_count_bounds(p - 1);
}

/// With no primes excluded, phi counts every integer in `[1, x]`.
proof fn lemma_phi_zero(x: int)
    requires
        0 <= x,
    ensures
        phi_spec(x, 0) == x,
    decreases x,
{
    if x >= 1 {
        lemma_phi_zero(x - 1);
        assert(rough(x, 0)) by {
            assert forall|p: int| is_prime(p) && prime_count(p) <= 0 implies #[trigger] (x % p)
                != 0 by {
                lemma_prime_count_pos(p);
            }
        }
    }
}

/// The one and only prime with prime count at most 1 is 2.
proof fn lemma_first_prime(p: int)
    requires
        is_prime(p),
        prime_count(p) <= 1,
    ensures
        p == 2,
{
    lemma_small_primes();
    if p >= 3 {
        lemma_prime_count_mono(3, p);
    }
}

/// Excluding only the prime 2 leaves the odd integers: `x - x / 2` of them.
proof fn lemma_phi_one(x: int)
    requires
        0 <= x,
    ensures
        phi_spec(x, 1) == x - x / 2,
    decreases x,
{
    if x >= 1 {
        lemma_phi_one(x - 1);
        lemma_small_primes();
        if x % 2 != 0 {
            assert(rough(x, 1)) by {
                assert forall|p: int| is_prime(p) && prime_count(p) <= 1 implies #[trigger] (x
                    % p) != 0 by {
                    lemma_first_prime(p);
                }
            }
        }
    }
}

/// phi is non-negative, bounded by `x`, and monotone in `x`.
proof fn lemma_phi_bounds(x: int, a: int)
    ensures
        0 <= phi_spec(x, a),
        phi_spec(x, a) <= (if x < 0 {
            0int
        } else {
            x
        }),
    decreases x,
{
    if x >= 1 {
        lemma_phi_bounds(x - 1, a);
    }
}

/// phi never decreases as its first argument grows.
proof fn lemma_phi_mono(y: int, x: int, a: int)
    requires
        y <= x,
    ensures
        phi_spec(y, a) <= phi_spec(x, a),
    decreases x - y,
{
    if y < x {
        lemma_phi_mono(y, x - 1, a);
    }
}

/// Whether a value is rough for `a` primes splits into roughness for
/// `a - 1` primes and indivisibility by the `a`-th prime.
proof fn lemma_rough_step(v: int, a: int, pa: int)
    requires
        1 <= a,
        is_prime(pa),
        prime_count(pa) == a,
    ensures
        rough(v, a) <==> (rough(v, a - 1) && v % pa != 0),
{
    if rough(v, a - 1) && v % pa != 0 {
        assert forall|p: int| is_prime(p) && prime_count(p) <= a implies #[trigger] (v % p)
            != 0 by {
            if prime_count(p) == a {
                lemma_prime_same_count(p, pa);
            }
        }
    }
}

/// Below the `a`-th prime, only the integer 1 is rough: every integer from
/// 2 up has a prime factor smaller than that prime.
proof fn lemma_phi_small(x: int, a: int, pa: int)
    requires
        1 <= x < pa,
        1 <= a,
        is_prime(pa),
        prime_count(pa) == a,
    ensures
        phi_spec(x, a) == 1,
    decreases x,
{
    if x == 1 {
        assert(rough(1, a)) by {
            assert forall|p: int| is_prime(p) && prime_count(p) <= a implies #[trigger] (1int
                % p) != 0 by {
                lemma_one_rough(p);
            }
        }
        assert(phi_spec(0, a) == 0);
        assert(phi_spec(1, a) == phi_spec(0, a) + 1);
    } else {
        lemma_phi_small(x - 1, a, pa);
        lemma_least_factor_props(x);
        let q = least_factor(x);
        assert(prime_count(q) <= a) by {
            lemma_prime_count_strict(q, pa);
        }
        assert(!rough(x, a));
    }
}

/// How integer division by `d` steps when the dividend steps by one.
proof fn lemma_div_step(x: int, d: int)
    requires
        1 <= x,
        1 <= d,
    ensures
        x % d == 0 ==> x / d == (x - 1) / d + 1,
        x % d != 0 ==> x / d == (x - 1) / d,
{
    lemma_fundamental_div_mod(x, d);
    lemma_mod_division_less_than_divisor(x, d);
    let q = x / d;
    if x % d == 0 {
        assert(x - 1 == (q - 1) * d + (d - 1)) by {
            assert(x == d * q);
            assert((q - 1) * d == d * q - d) by {
                lemma_mul_is_commutative(q - 1, d);
                lemma_mul_is_commutative(q, d);
                vstd::arithmetic::mul::lemma_mul_is_distributive_sub(d, q, 1);
            }
        }
        lemma_fundamental_div_mod_converse(x - 1, d, q - 1, d - 1);
    } else {
        assert(x - 1 == q * d + (x % d - 1)) by {
            lemma_mul_is_commutative(q, d);
        }
        lemma_fundamental_div_mod_converse(x - 1, d, q, x % d - 1);
    }
}

/// Legendre's identity: removing the `a`-th prime's multiples from the
/// `(a-1)`-rough integers in `[1, x]` leaves exactly the `a`-rough ones.
proof fn lemma_phi_identity(x: int, a: int, pa: int)
    requires
        0 <= x,
        1 <= a,
        is_prime(pa),
        prime_count(pa) == a,
    ensures
        phi_spec(x, a) == phi_spec(x, a - 1) - phi_spec(x / pa, a - 1),
    decreases x,
{
    if x == 0 {
        assert(0int / pa == 0) by {
            vstd::arithmetic::div_mod::lemma_div_of0(pa);
        }
    } else {
        lemma_phi_identity(x - 1, a, pa);
        lemma_rough_step(x, a, pa);
        lemma_div_step(x, pa);
        if x % pa == 0 {
            let m = x / pa;
            assert(x == pa * m) by {
                lemma_fundamental_div_mod(x, pa);
            }
            assert(m >= 1) by {
                if m <= 0 {
                    lemma_mul_inequality(m, 0, pa);
                    lemma_mul_is_commutative(m, pa);
                }
            }
            assert(!rough(x, a));
            // rough(x, a-1) and rough(m, a-1) agree: a prime factor of one
            // is a prime factor of the other, by Euclid's lemma.
            assert(rough(x, a - 1) <==> rough(m, a - 1)) by {
                if rough(x, a - 1) {
                    assert forall|p: int| is_prime(p) && prime_count(p) <= a - 1 implies #[trigger] (
                    m % p) != 0 by {
                        if m % p == 0 {
                            assert(x % m == 0) by {
                                lemma_multiple_mod_zero(m, pa);
                                lemma_mul_is_commutative(m, pa);
                            }
                            lemma_divides_trans(p, m, x);
                        }
                    }
                } else {
                    if rough(m, a - 1) {
                        let p = choose|p: int|
                            is_prime(p) && prime_count(p) <= a - 1 && #[trigger] (x % p) == 0;
                        assert((pa * m) % p == 0);
                        lemma_euclid(p, pa, m);
                        if pa % p == 0 {
                            assert(p == pa) by {
                                if p != pa {
                                    lemma_prime_not_divides_prime(p, pa);
                                }
                            }
                        }
                    }
                }
            }
        }
    }
}

/// For `v` in `[2, x]` with factor base index `a = prime_count(isqrt(x))`,
/// being rough means being a prime beyond the factor base: composites have
/// a prime factor within the square root of `x`.
proof fn lemma_rough_char(x: int, sq: int, a: int, v: int)
    requires
        2 <= v <= x,
        1 <= sq,
        sq * sq <= x,
        x < (sq + 1) * (sq + 1),
        a == prime_count(sq),
    ensures
        rough(v, a) <==> (is_prime(v) && prime_count(v) > a),
{
    if is_prime(v) {
        if prime_count(v) <= a {
            assert(v % v == 0) by {
                lemma_multiple_mod_zero(v, 1);
            }
            assert(!rough(v, a));
        } else {
            assert forall|p: int| is_prime(p) && prime_count(p) <= a implies #[trigger] (v % p)
                != 0 by {
                if p != v {
                    lemma_prime_not_divides_prime(p, v);
                }
            }
        }
    } else {
        lemma_composite_least_factor_sq(v);
        let f = least_factor(v);
        assert(f <= sq) by {
            if f > sq {
                assert((sq + 1) * (sq + 1) <= f * f) by (nonlinear_arith)
                    requires
                        sq + 1 <= f,
                        0 <= sq,
                ;
            }
        }
        assert(prime_count(f) <= a) by {
            lemma_prime_count_mono(f, sq);
        }
        assert(!rough(v, a));
    }
}

/// Summing the rough characterization over `[1, y]`: phi counts 1 plus the
/// primes beyond the factor base.
proof fn lemma_phi_counts_aux(x: int, sq: int, a: int, y: int)
    requires
        1 <= y <= x,
        1 <= sq,
        sq * sq <= x,
        x < (sq + 1) * (sq + 1),
        a == prime_count(sq),
    ensures
        phi_spec(y, a) == 1 + (if prime_count(y) >= a {
            prime_count(y) - a
        } else {
            0int
        }),
    decreases y,
{
    lemma_prime_count_bounds(sq);
    if y == 1 {
        assert(rough(1, a)) by {
            assert forall|p: int| is_prime(p) && prime_count(p) <= a implies #[trigger] (1int
                % p) != 0 by {
                lemma_one_rough(p);
            }
        }
        assert(phi_spec(0, a) == 0);
        assert(phi_spec(1, a) == phi_spec(0, a) + 1);
        lemma_prime_count_bounds(1);
    } else {
        lemma_phi_counts_aux(x, sq, a, y - 1);
        lemma_rough_char(x, sq, a, y);
        lemma_prime_count_bounds(y - 1);
        lemma_prime_count_mono(y - 1, y);
    }
}

/// Legendre's counting step: with `a = prime_count(isqrt(x))`,
/// `prime_count(x) == phi_spec(x, a) + a - 1`.
proof fn lemma_phi_prime_count(x: int, sq: int, a: int)
    requires
        2 <= x,
        1 <= sq,
        sq * sq <= x,
        x < (sq + 1) * (sq + 1),
        a == prime_count(sq),
    ensures
        phi_spec(x, a) == 1 + prime_count(x) - a,
{
    assert(sq <= x) by {
        lemma_mul_inequality(1, sq, sq);
    }
    lemma_prime_count_mono(sq, x);
    lemma_phi_counts_aux(x, sq, a, x);
}

/// A Legendre prime counter: holds the ascending factor base of all primes
/// up to the square root of the limit it was built for, and answers
/// prime-counting queries for any argument within that limit.
pub struct LegendrePrimeCounter {
    /// The factor base: all primes up to `sqrt_limit`, ascending.
    pub primes: Vec<usize>,
    /// The square-root bound the factor base was sieved up to.
    pub sqrt_limit: Ghost<int>,
}

impl LegendrePrimeCounter {
    /// The factor base holds exactly the ascending primes up to the
    /// square-root bound the counter was built with.
    pub open spec fn wf(self) -> bool {
        0 <= self.sqrt_limit@ && int_seq(self.primes@) == primes_upto(self.sqrt_limit@)
    }

    /// The factor base reaches far enough to answer a query at `x`.
    pub open spec fn covers(self, x: int) -> bool {
        x < (self.sqrt_limit@ + 1) * (self.sqrt_limit@ + 1)
    }

    /// Build a counter able to answer `count_primes(x)` for any `x` up to
    /// `limit`, with a factor base sieved up to `sqrt(limit)`.  Together
    /// with `covers`, the square bound pins the base to exactly the
    /// ascending primes up to the floor of the square root of `limit`.
    pub fn new(limit: usize) -> (r: Self)
        ensures
            r.wf(),
            r.covers(limit as int),
            r.sqrt_limit@ * r.sqrt_limit@ <= limit as int,
    {
        let s = isqrt(limit);
        let primes = block_sieve(s);
        LegendrePrimeCounter { primes, sqrt_limit: Ghost(s as int) }
    }

    /// The factor base: every prime up to the square root of the limit, in
    /// ascending order.
    pub fn prime_factors(&self) -> (r: &Vec<usize>)
        ensures
            r@ == self.primes@,
            self.wf() ==> int_seq(r@) == primes_upto(self.sqrt_limit@),
    {
        &self.primes
    }

    /// Legendre's phi over the factor base: counts the integers in `[1, x]`
    /// with no factor among the first `a` base primes.
    fn phi(&self, x: usize, a: usize) -> (r: usize)
        requires
            self.wf(),
            1 <= x,
            a <= self.primes@.len(),
        ensures
            r as int == phi_spec(x as int, a as int),
        decreases a,
    {
        if a == 0 {
            proof {
                lemma_phi_zero(x as int);
            }
            x
        } else if a == 1 {
            proof {
                lemma_phi_one(x as int);
            }
            x - x / 2
        } else {
            let pa = self.primes[a - 1];
            proof {
                lemma_range_primes_index(2, self.sqrt_limit@, a as int - 1);
                assert(int_seq(self.primes@)[a as int - 1] == pa as int);
                assert(prime_count(1) == 0);
            }
            if x < pa {
                proof {
                    lemma_phi_small(x as int, a as int, pa as int);
                }
                1
            } else {
                let r1 = self.phi(x, a - 1);
                proof {
                    lemma_div_non_zero(x as int, pa as int);
                }
                let r2 = self.phi(x / pa, a - 1);
                proof {
                    lemma_phi_identity(x as int, a as int, pa as int);
                    lemma_phi_mono(x as int / pa as int, x as int, a as int - 1);
                    lemma_div_is_ordered(0, x as int, pa as int);
                    assert(x as int / pa as int <= x as int) by {
                        lemma_div_nonincreasing(x as int, pa as int);
                    }
                }
                r1 - r2
            }
        }
    }

    /// The prime-counting function: how many primes are at most `n`.
    /// Computed by Legendre's formula without enumerating the primes.
    pub fn count_primes(&self, n: usize) -> (r: usize)
        requires
            self.wf(),
            self.covers(n as int),
        ensures
            r as int == prime_count(n as int),
        decreases n,
    {
        if n < 2 {
            0
        } else {
            let sq = isqrt(n);
            proof {
                assert(sq < n) by (nonlinear_arith)
                    requires
                        (sq as int) * (sq as int) <= n as int,
                        2 <= n as int,
                        0 <= sq as int,
                ;
                assert(sq as int >= 1) by (nonlinear_arith)
                    requires
                        (n as int) < ((sq as int) + 1) * ((sq as int) + 1),
                        2 <= n as int,
                        0 <= sq as int,
                ;
            }
            let a = self.count_primes(sq);
            proof {
                let s = self.sqrt_limit@;
                assert(sq as int <= s) by (nonlinear_arith)
                    requires
                        (sq as int) * (sq as int) <= n as int,
                        (n as int) < (s + 1) * (s + 1),
                        0 <= sq as int,
                        0 <= s,
                ;
                lemma_range_primes_len(2, s);
                assert(prime_count(1) == 0);
                lemma_prime_count_mono(sq as int, s);
                lemma_prime_count_bounds(s);
            }
            let ph = self.phi(n, a);
            proof {
                lemma_phi_prime_count(n as int, sq as int, a as int);
                lemma_prime_count_mono(sq as int, n as int);
                lemma_prime_count_bounds(n as int);
            }
            ph + a - 1
        }
    }
}

} // verus!
