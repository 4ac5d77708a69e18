//! The n-th-prime search: closed-form estimates bracket the answer, the
//! Legendre counter narrows the bracket by bisection, and one segment sieve
//! materialises the final window.

use crate::bounds::{
    lower_bound_for_nth_prime, nth_prime_lower_spec, nth_prime_upper_spec,
    upper_bound_for_nth_prime,
};
use crate::counting::LegendrePrimeCounter;
use crate::primality::{
    int_seq, is_prime, lemma_prime_count_mono, lemma_prime_same_count, lemma_range_primes_props,
    lemma_small_primes, prime_count, range_primes,
};
use crate::sieve::{seg_lo, sieve_segment};
use vstd::prelude::*;

verus! {

/// How many entries of `s` lie in `[lo, hi]`.
pub open spec fn count_in(s: Seq<int>, lo: int, hi: int) -> int
    decreases s.len(),
{
    if s.len() == 0 {
        0
    } else {
        count_in(s.drop_last(), lo, hi) + if lo <= s.last() <= hi {
            1int
        } else {
            0int
        }
    }
}

/// A sequence whose entries all lie below `lo` has no entry in `[lo, hi]`.
proof fn lemma_count_in_below(s: Seq<int>, lo: int, hi: int)
    requires
        forall|i: int| 0 <= i < s.len() ==> s[i] < lo,
    ensures
        count_in(s, lo, hi) == 0,
    decreases s.len(),
{
    if s.len() > 0 {
        lemma_count_in_below(s.drop_last(), lo, hi);
    }
}

/// Counting the primes of a range sequence that fall in `[lo, hi]` reduces
/// to the prime-counting function.
proof fn lemma_count_range_primes(ll: int, hh: int, lo: int, hi: int)
    requires
        2 <= ll <= lo,
        lo - 1 <= hi,
        lo - 1 <= hh,
    ensures
        count_in(range_primes(ll, hh), lo, hi) == prime_count(
            if hh <= hi {
                hh
            } else {
                hi
            },
        ) - prime_count(lo - 1),
    decreases hh,
{
    lemma_range_primes_props(ll, hh);
    if hh == lo - 1 {
        lemma_count_in_below(range_primes(ll, hh), lo, hi);
    } else {
        lemma_count_range_primes(ll, hh - 1, lo, hi);
        if hh >= 2 && is_prime(hh) {
            let s = range_primes(ll, hh);
            assert(s == range_primes(ll, hh - 1).push(hh));
            assert(s.drop_last() =~= range_primes(ll, hh - 1));
            assert(s.last() == hh);
        }
    }
}

/// A positive count yields a witness index.
proof fn lemma_count_in_witness(s: Seq<int>, lo: int, hi: int)
    requires
        count_in(s, lo, hi) >= 1,
    ensures
        exists|w: int| 0 <= w < s.len() && lo <= #[trigger] s[w] <= hi,
    decreases s.len(),
{
    if s.len() > 0 {
        if lo <= s.last() <= hi {
            assert(0 <= s.len() - 1 < s.len() && lo <= s[s.len() - 1] <= hi);
        } else {
            lemma_count_in_witness(s.drop_last(), lo, hi);
            let w = choose|w: int|
                0 <= w < s.drop_last().len() && lo <= #[trigger] s.drop_last()[w] <= hi;
            assert(lo <= s[w] <= hi);
        }
    }
}

/// How many entries of `primes` lie in `[lower_bound, upper_bound]`.
pub fn count_items_in_range(primes: &Vec<usize>, lower_bound: usize, upper_bound: usize) -> (r:
    usize)
    ensures
        r as int == count_in(int_seq(primes@), lower_bound as int, upper_bound as int),
{
    let mut c: usize = 0;
    let mut i: usize = 0;
    while i < primes.len()
        invariant
            i <= primes@.len(),
            c <= i,
            c as int == count_in(
                int_seq(primes@).take(i as int),
                lower_bound as int,
                upper_bound as int,
            ),
        decreases primes@.len() - i,
    {
        let v = primes[i];
        proof {
            let s = int_seq(primes@);
            assert(s.take(i as int + 1).drop_last() =~= s.take(i as int));
            assert(s.take(i as int + 1).last() == s[i as int]);
        }
        if v >= lower_bound && v <= upper_bound {
            c += 1;
        }
        i += 1;
    }
    proof {
        assert(int_seq(primes@).take(primes@.len() as int) =~= int_seq(primes@));
    }
    c
}

/// The prime with a given prime count is unique, so each query here has one
/// answer: every function of this crate is a function of its inputs alone.
pub proof fn lemma_nth_prime_unique(n: int, p: int, q: int)
    requires
        is_prime(p),
        prime_count(p) == n,
        is_prime(q),
        prime_count(q) == n,
    ensures
        p == q,
{
    lemma_prime_same_count(p, q);
}

/// Wherever the estimator window brackets the n-th prime (which the search
/// verifies at run time before trusting it), the n-th prime lies between
/// the lower and the upper estimate.
pub proof fn lemma_nth_prime_within_bounds(n: int, p: int)
    requires
        1 <= n,
        is_prime(p),
        prime_count(p) == n,
        n >= 6 ==> prime_count(nth_prime_lower_spec(n)) < n,
        n >= 6 ==> n <= prime_count(nth_prime_upper_spec(n)),
    ensures
        nth_prime_lower_spec(n) <= p <= nth_prime_upper_spec(n),
{
    lemma_small_primes();
    if n == 1 {
        lemma_prime_same_count(p, 2);
    } else if n == 2 {
        lemma_prime_same_count(p, 3);
    } else if n == 3 {
        lemma_prime_same_count(p, 5);
    } else if n == 4 {
        lemma_prime_same_count(p, 7);
    } else if n == 5 {
        lemma_prime_same_count(p, 11);
    } else {
        let lo = nth_prime_lower_spec(n);
        let hi = nth_prime_upper_spec(n);
        if lo > p {
            lemma_prime_count_mono(p, lo);
        }
        if p > hi {
            assert(prime_count(p) == prime_count(p - 1) + 1int);
            lemma_prime_count_mono(hi, p - 1);
        }
    }
}

/// The n-th prime, 1-indexed: `nth_prime(1)` is `Some(2)`.  The search
/// seeds a window from the closed-form estimates, verifies with the exact
/// Legendre counter that the window brackets the answer (returning `None`
/// exactly when an estimate fails that check), then bisects on the counter
/// and finishes from one sieved segment.
pub fn nth_prime(n: usize) -> (r: Option<usize>)
    requires
        1 <= n,
    ensures
        r.is_some() <==> (n < 6 || (prime_count(nth_prime_lower_spec(n as int)) < n as int
            && n as int <= prime_count(nth_prime_upper_spec(n as int)))),
        r.is_some() ==> is_prime(r.unwrap() as int) && prime_count(r.unwrap() as int) == n as int,
{
    proof {
        lemma_small_primes();
    }
    if n < 6 {
        let p: usize = if n == 1 {
            2
        } else if n == 2 {
            3
        } else if n == 3 {
            5
        } else if n == 4 {
            7
        } else {
            11
        };
        return Some(p);
    }
    let upper0 = upper_bound_for_nth_prime(n);
    let lower0 = lower_bound_for_nth_prime(n);
    let counter = LegendrePrimeCounter::new(upper0);
    let c_hi = counter.count_primes(upper0);
    if c_hi < n {
        return None;
    }
    // The window's top is now known to be beyond the 6th prime.
    proof {
        if upper0 <= 12 {
            lemma_prime_count_mono(upper0 as int, 12);
        }
    }
    let lower1 = if lower0 < 3 {
        3
    } else {
        lower0
    };
    let lower2 = if lower1 > upper0 {
        upper0
    } else {
        lower1
    };
    let c_lo = counter.count_primes(lower2);
    if c_lo >= n {
        proof {
            // A count at the clamped point at or above n means the
            // unclamped lower estimate fails the bracket check too.
            if lower0 < 3 {
                assert(prime_count(3) < n as int);
                assert(false);
            }
            if lower1 > upper0 {
                lemma_prime_count_mono(upper0 as int, lower0 as int);
            }
        }
        return None;
    }
    proof {
        if lower0 < 3 {
            lemma_prime_count_mono(lower0 as int, 2);
            lemma_prime_count_mono(2, lower2 as int);
        }
        assert(prime_count(nth_prime_lower_spec(n as int)) < n as int);
        assert(n as int <= prime_count(nth_prime_upper_spec(n as int)));
    }
    let mut lo = lower2;
    let mut hi = upper0;
    proof {
        if lo >= hi {
            lemma_prime_count_mono(hi as int, lo as int);
        }
    }
    // One bisection step before sieving halves the window to materialise.
    let middle = lo + (hi - lo) / 2;
    let c_mid = counter.count_primes(middle);
    if c_mid >= n {
        hi = middle;
    } else {
        lo = middle;
    }
    proof {
        if lo >= hi {
            lemma_prime_count_mono(hi as int, lo as int);
        }
        let s = counter.sqrt_limit@;
        lemma_range_primes_props(2, s);
        assert forall|w: int| 0 <= w < counter.primes@.len() implies (
        #[trigger] counter.primes@[w]) >= 2 by {
            assert(int_seq(counter.primes@)[w] == counter.primes@[w] as int);
        }
        assert forall|p: int| is_prime(p) && p * p <= hi as int implies int_seq(
            counter.primes@,
        ).contains(p) by {
            assert(p <= s) by {
                if p > s {
                    assert((s + 1) * (s + 1) <= p * p) by (nonlinear_arith)
                        requires
                            s + 1 <= p,
                            0 <= s,
                    ;
                }
            }
            crate::primality::lemma_range_primes_membership(2, s, p);
        }
    }
    let ghost seg_lo0 = lo as int;
    let ghost seg_hi0 = hi as int;
    let primes = sieve_segment(counter.prime_factors(), lo, hi);
    let mut cnt = count_items_in_range(&primes, lo, hi);
    while cnt > 1 && hi - lo >= 2
        invariant
            counter.wf(),
            3 <= seg_lo0 <= lo as int,
            lo < hi,
            hi as int <= seg_hi0,
            counter.covers(hi as int),
            int_seq(primes@) == range_primes(seg_lo0, seg_hi0),
            prime_count(lo as int) < n as int,
            n as int <= prime_count(hi as int),
            cnt as int == count_in(int_seq(primes@), lo as int, hi as int),
            6 <= n,
            prime_count(nth_prime_lower_spec(n as int)) < n as int,
            n as int <= prime_count(nth_prime_upper_spec(n as int)),
        decreases hi - lo,
    {
        let middle2 = lo + (hi - lo) / 2;
        let c2 = counter.count_primes(middle2);
        if c2 >= n {
            hi = middle2;
        } else {
            lo = middle2;
        }
        cnt = count_items_in_range(&primes, lo, hi);
    }
    if hi - lo < 2 {
        // The window is [lo, lo+1] with count(lo) < n <= count(lo+1): the
        // count steps by one exactly at a prime, so hi is the n-th prime.
        proof {
            lemma_prime_count_mono(lo as int, hi as int);
            assert(prime_count(hi as int) == prime_count(hi as int - 1) + if is_prime(
                hi as int,
            ) {
                1int
            } else {
                0int
            });
        }
        return Some(hi);
    }
    proof {
        lemma_count_range_primes(seg_lo0, seg_hi0, lo as int, hi as int);
        assert(cnt as int == prime_count(hi as int) - prime_count(lo as int - 1));
        lemma_prime_count_mono(lo as int, hi as int);
        assert(prime_count(lo as int) == prime_count(lo as int - 1) + if is_prime(lo as int) {
            1int
        } else {
            0int
        });
        assert(cnt >= 1);
        assert(cnt == 1);
        assert(!is_prime(lo as int));
        assert(prime_count(hi as int) == n as int);
        lemma_count_in_witness(int_seq(primes@), lo as int, hi as int);
        lemma_range_primes_props(seg_lo0, seg_hi0);
    }
    let mut idx: usize = 0;
    while idx < primes.len()
        invariant
            int_seq(primes@) == range_primes(seg_lo0, seg_hi0),
            3 <= seg_lo0 <= lo as int,
            lo < hi,
            prime_count(lo as int) == n as int - 1,
            prime_count(hi as int) == n as int,
            !is_prime(lo as int),
            idx <= primes@.len(),
            exists|w: int|
                idx as int <= w < primes@.len() && lo as int <= #[trigger] int_seq(primes@)[w]
                    <= hi as int,
            6 <= n,
            prime_count(nth_prime_lower_spec(n as int)) < n as int,
            n as int <= prime_count(nth_prime_upper_spec(n as int)),
        decreases primes@.len() - idx,
    {
        let v = primes[idx];
        if v >= lo && v <= hi {
            proof {
                lemma_range_primes_props(seg_lo0, seg_hi0);
                assert(int_seq(primes@)[idx as int] == v as int);
                assert(is_prime(v as int));
                assert(v > lo);
                lemma_prime_count_mono(lo as int, v as int - 1);
                lemma_prime_count_mono(v as int, hi as int);
                assert(prime_count(v as int) == prime_count(v as int - 1) + 1int);
            }
            return Some(v);
        }
        proof {
            let w = choose|w: int|
                idx as int <= w < primes@.len() && lo as int <= #[trigger] int_seq(primes@)[w]
                    <= hi as int;
            assert(w != idx);
        }
        idx += 1;
    }
    // Unreachable: the window holds a prime, so the scan above finds it.
    proof {
        let w = choose|w: int|
            idx as int <= w < primes@.len() && lo as int <= #[trigger] int_seq(primes@)[w]
                <= hi as int;
        assert(false);
    }
    None
}

} // verus!
