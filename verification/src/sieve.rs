//! Prime sieves: the classic odd-skipping sieve of Eratosthenes, a segment
//! sieve over an arbitrary window, and a block sieve that covers a large
//! range in fixed-size windows with bounded working memory.

use crate::primality::{
    int_seq, is_prime, least_factor, lemma_composite_least_factor_sq, lemma_prime_no_divisor,
    lemma_int_seq_add, lemma_multiple_mod_zero, lemma_range_primes_membership,
    lemma_range_primes_props, lemma_range_primes_split, lemma_sorted_primes_unique, primes_upto,
    range_primes,
};
use vstd::arithmetic::div_mod::{
    lemma_div_is_ordered, lemma_div_multiples_vanish, lemma_fundamental_div_mod,
    lemma_fundamental_div_mod_converse, lemma_mod_add_multiples_vanish,
    lemma_mod_division_less_than_divisor,
};
use vstd::arithmetic::mul::{lemma_mul_inequality, lemma_mul_is_commutative, lemma_mul_is_distributive_sub};
use vstd::prelude::*;

verus! {

/// An odd value `v` has been struck by the odd sieve once every prime below
/// `lim` has had its multiples from its square onward marked.
pub open spec fn odd_struck(v: int, lim: int) -> bool {
    exists|p: int| is_prime(p) && 3 <= p < lim && #[trigger] (v % p) == 0 && p * p <= v
}

/// A fresh flag vector with every entry set.
fn make_flags(len: usize) -> (r: Vec<bool>)
    ensures
        r@.len() == len,
        forall|i: int| 0 <= i < len ==> r@[i] == true,
{
    let mut v: Vec<bool> = Vec::new();
    let mut k: usize = 0;
    while k < len
        invariant
            v@.len() == k,
            k <= len,
            forall|i: int| 0 <= i < k ==> v@[i] == true,
        decreases len - k,
    {
        v.push(true);
        k += 1;
    }
    v
}

/// A number with a prime factor strictly below itself is not prime.
proof fn lemma_struck_not_prime(v: int, p: int)
    requires
        is_prime(p),
        v % p == 0,
        p * p <= v,
        3 <= v,
    ensures
        !is_prime(v),
{
    assert(2 * p <= p * p) by {
        lemma_mul_inequality(2, p, p);
    }
    assert(p < v);
    if is_prime(v) {
        lemma_prime_no_divisor(v, p);
    }
}

/// For odd `v` with every prime below `lim` processed and `lim * lim > v`,
/// surviving the sieve is exactly primality.
proof fn lemma_struck_char(v: int, lim: int)
    requires
        3 <= v,
        v % 2 == 1,
        v < lim * lim,
        0 <= lim,
    ensures
        !odd_struck(v, lim) <==> is_prime(v),
{
    if odd_struck(v, lim) {
        let p = choose|p: int|
            is_prime(p) && 3 <= p < lim && #[trigger] (v % p) == 0 && p * p <= v;
        lemma_struck_not_prime(v, p);
    } else {
        if !is_prime(v) {
            lemma_composite_least_factor_sq(v);
            let f = least_factor(v);
            assert(f != 2) by {
                if f == 2 {
                    lemma_fundamental_div_mod(v, 2);
                }
            }
            assert(f < lim) by {
                if f >= lim {
                    lemma_mul_inequality(lim, f, f);
                    lemma_mul_inequality(lim, f, lim);
                }
            }
            assert(odd_struck(v, lim));
        }
    }
}

/// Striking the multiples of one more odd number extends the struck set by
/// that number's multiples exactly when it is prime.
proof fn lemma_odd_struck_step(v: int, i: int)
    requires
        3 <= i,
        i % 2 == 1,
    ensures
        odd_struck(v, i + 2) <==> (odd_struck(v, i) || (is_prime(i) && v % i == 0 && i * i
            <= v)),
{
    if is_prime(i + 1) {
        lemma_prime_no_divisor(i + 1, 2);
    }
    if odd_struck(v, i + 2) {
        let p = choose|p: int|
            is_prime(p) && 3 <= p < i + 2 && #[trigger] (v % p) == 0 && p * p <= v;
        if p < i {
            assert(odd_struck(v, i));
        }
    }
    if odd_struck(v, i) {
        let p = choose|p: int|
            is_prime(p) && 3 <= p < i && #[trigger] (v % p) == 0 && p * p <= v;
        assert(odd_struck(v, i + 2));
    }
    if is_prime(i) && v % i == 0 && i * i <= v {
        assert(odd_struck(v, i + 2));
    }
}

/// Comparing a candidate with the quotient of the bound by it decides
/// whether its square is within the bound, without forming the square.
proof fn lemma_sq_le_div(i: int, n: int)
    requires
        1 <= i,
        0 <= n,
    ensures
        (i <= n / i) <==> (i * i <= n),
{
    lemma_fundamental_div_mod(n, i);
    lemma_mod_division_less_than_divisor(n, i);
    if i <= n / i {
        assert(i * i <= i * (n / i)) by {
            lemma_mul_inequality(i, n / i, i);
            lemma_mul_is_commutative(n / i, i);
        }
    }
    if i * i <= n {
        assert((i * i) / i <= n / i) by {
            lemma_div_is_ordered(i * i, n, i);
        }
        assert((i * i) / i == i) by {
            lemma_div_multiples_vanish(i, i);
        }
    }
}

/// An odd number struck by the sieve of Eratosthenes before its own turn is
/// composite, so only primes survive to strike their multiples.
proof fn lemma_unstruck_is_prime(i: int)
    requires
        3 <= i,
        i % 2 == 1,
        !odd_struck(i, i),
    ensures
        is_prime(i),
{
    if !is_prime(i) {
        lemma_composite_least_factor_sq(i);
        let f = least_factor(i);
        assert(f != 2) by {
            if f == 2 {
                lemma_fundamental_div_mod(i, 2);
            }
        }
        assert(2 * f <= f * f) by {
            lemma_mul_inequality(2, f, f);
        }
        assert(odd_struck(i, i));
    }
}

/// The sieve of Eratosthenes: all primes up to and including `bound`, in
/// ascending order.  Only odd candidates are stored; 2 is reported directly.
pub fn sieve_eratosthenes(bound: usize) -> (r: Vec<usize>)
    ensures
        int_seq(r@) == primes_upto(bound as int),
{
    let n = bound;
    let mut flags = make_flags(n / 2 + 1);
    flags[0] = false;
    let mut i: usize = 3;
    while i <= n / i
        invariant
            n == bound,
            flags@.len() == n / 2 + 1,
            3 <= i,
            i % 2 == 1,
            flags@[0] == false,
            forall|k: int|
                1 <= k < flags@.len() && 2 * k + 1 <= n ==> ((#[trigger] flags@[k]) <==> !odd_struck(
                    2 * k + 1,
                    i as int,
                )),
        decreases n - i,
    {
        proof {
            lemma_sq_le_div(i as int, n as int);
            assert(3 * i <= (i as int) * (i as int)) by {
                lemma_mul_inequality(3, i as int, i as int);
            }
        }
        let was_set = flags[i / 2];
        proof {
            assert(2 * ((i / 2) as int) + 1 == i);
        }
        if was_set {
            proof {
                lemma_unstruck_is_prime(i as int);
                lemma_multiple_mod_zero(i as int, i as int);
            }
            let mut j: u128 = (i as u128) * (i as u128);
            while j <= n as u128
                invariant
                    n == bound,
                    flags@.len() == n / 2 + 1,
                    3 <= i <= n,
                    i % 2 == 1,
                    is_prime(i as int),
                    flags@[0] == false,
                    (j as int) % (i as int) == 0,
                    (i as int) * (i as int) <= j as int,
                    j as int <= n as int + i as int,
                    forall|k: int|
                        1 <= k < flags@.len() && 2 * k + 1 <= n ==> ((#[trigger] flags@[k])
                            <==> !(odd_struck(2 * k + 1, i as int) || ((2 * k + 1) % (i as int)
                            == 0 && (i as int) * (i as int) <= 2 * k + 1 && 2 * k + 1 < j as int))),
                decreases n as int + i as int - j as int,
            {
                if j % 2 == 1 {
                    let idx = (j / 2) as usize;
                    assert(2 * (idx as int) + 1 == j as int);
                    flags[idx] = false;
                }
                proof {
                    assert((j as int + i as int) % (i as int) == 0) by {
                        lemma_mod_add_multiples_vanish(j as int, i as int);
                    }
                    let ji = j as int;
                    let ii = i as int;
                    assert forall|k: int|
                        1 <= k < flags@.len() && 2 * k + 1 <= n implies ((#[trigger] flags@[k])
                        <==> !(odd_struck(2 * k + 1, ii) || ((2 * k + 1) % ii == 0
                        && ii * ii <= 2 * k + 1 && 2 * k + 1 < ji + ii))) by {
                        let v = 2 * k + 1;
                        if v % ii == 0 && ji <= v < ji + ii {
                            // The only multiple of i in [j, j + i) is j itself.
                            lemma_fundamental_div_mod(ji, ii);
                            assert(ji == ii * (ji / ii));
                            assert(v == (ji / ii) * ii + (v - ji)) by {
                                lemma_mul_is_commutative(ii, ji / ii);
                            }
                            lemma_fundamental_div_mod_converse(v, ii, ji / ii, v - ji);
                            assert(v % ii == v - ji);
                            assert(v == ji);
                        }
                    }
                }
                j = j + i as u128;
            }
            proof {
                let ii = i as int;
                assert forall|k: int| 1 <= k < flags@.len() && 2 * k + 1 <= n implies ((
                #[trigger] flags@[k]) <==> !odd_struck(2 * k + 1, ii + 2)) by {
                    lemma_odd_struck_step(2 * k + 1, ii);
                }
            }
        } else {
            proof {
                let ii = i as int;
                assert(odd_struck(ii, ii));
                let p = choose|p: int|
                    is_prime(p) && 3 <= p < ii && #[trigger] (ii % p) == 0 && p * p <= ii;
                lemma_struck_not_prime(ii, p);
                assert forall|k: int| 1 <= k < flags@.len() && 2 * k + 1 <= n implies ((
                #[trigger] flags@[k]) <==> !odd_struck(2 * k + 1, ii + 2)) by {
                    lemma_odd_struck_step(2 * k + 1, ii);
                }
            }
        }
        i = i + 2;
    }
    proof {
        lemma_sq_le_div(i as int, n as int);
    }
    let ghost lim = i as int;
    let mut out: Vec<usize> = Vec::new();
    if n >= 2 {
        out.push(2);
        assert(out@[0] == 2usize);
    }
    assert(is_prime(2));
    assert(forall|v: int| 2 <= v <= n && is_prime(v) && v < 3 ==> v == 2);
    let mut k: usize = 1;
    while k < flags.len()
        invariant
            n == bound,
            flags@.len() == n / 2 + 1,
            3 <= lim,
            (n as int) < lim * lim,
            forall|kk: int|
                1 <= kk < flags@.len() && 2 * kk + 1 <= n ==> ((#[trigger] flags@[kk])
                    <==> !odd_struck(2 * kk + 1, lim)),
            1 <= k <= flags@.len(),
            forall|a: int, b: int| 0 <= a < b < out@.len() ==> out@[a] < out@[b],
            forall|a: int|
                0 <= a < out@.len() ==> is_prime(#[trigger] out@[a] as int) && 2 <= out@[a] <= n
                    && (out@[a] as int) < 2 * k + 1,
            forall|v: int|
                2 <= v <= n && is_prime(v) && v < 2 * k + 1 ==> exists|a: int|
                    0 <= a < out@.len() && #[trigger] (out@[a] as int) == v,
        decreases flags@.len() - k,
    {
        assert(2 * k <= n);
        let ghost pre = out@;
        let v = 2 * k + 1;
        if flags[k] && v <= n {
            proof {
                lemma_struck_char(v as int, lim);
            }
            out.push(v);
        }
        proof {
            let vv = 2 * (k as int) + 1;
            if vv <= n && is_prime(vv) {
                lemma_struck_char(vv, lim);
                assert(flags@[k as int]);
                assert((out@[out@.len() - 1] as int) == vv);
            }
            if is_prime(vv + 1) {
                lemma_prime_no_divisor(vv + 1, 2);
            }
            assert forall|v2: int| 2 <= v2 <= n && is_prime(v2) && v2 < 2 * (k as int + 1)
                + 1 implies exists|a: int|
                0 <= a < out@.len() && #[trigger] (out@[a] as int) == v2 by {
                if v2 < 2 * k + 1 {
                    let a = choose|a: int| 0 <= a < pre.len() && #[trigger] (pre[a] as int) == v2;
                    assert((out@[a] as int) == v2);
                } else {
                    assert(v2 == vv);
                    assert((out@[out@.len() - 1] as int) == v2);
                }
            }
        }
        k += 1;
    }
    proof {
        assert forall|v: int| 2 <= v <= n && is_prime(v) implies exists|a: int|
            0 <= a < out@.len() && #[trigger] (out@[a] as int) == v by {
            assert(v < 2 * (flags@.len() as int) + 1);
        }
        lemma_sorted_primes_unique(out@, 2, n as int);
    }
    out
}

/// The floor of the square root.
pub fn isqrt(x: usize) -> (r: usize)
    ensures
        (r as int) * (r as int) <= x as int,
        (x as int) < ((r as int) + 1) * ((r as int) + 1),
{
    let mut lo: usize = 0;
    let mut hi: usize = x;
    proof {
        assert((x as int) < ((x as int) + 1) * ((x as int) + 1)) by {
            lemma_mul_inequality(1, x as int + 1, x as int + 1);
        }
    }
    while lo < hi
        invariant
            lo <= hi <= x,
            (lo as int) * (lo as int) <= x as int,
            (x as int) < ((hi as int) + 1) * ((hi as int) + 1),
        decreases hi - lo,
    {
        let mid = lo + (hi - lo - 1) / 2 + 1;
        proof {
            assert((mid as int) * (mid as int) < 0x1_0000_0000_0000_0000_0000_0000_0000_0000)
                by (nonlinear_arith)
                requires
                    mid as int <= 0xFFFF_FFFF_FFFF_FFFF,
                    0 <= mid as int,
            ;
        }
        let m2 = (mid as u128) * (mid as u128);
        if m2 <= x as u128 {
            lo = mid;
        } else {
            hi = mid - 1;
        }
    }
    lo
}

/// The struck set of the segment sieve after the first `m` base entries
/// have had their multiples (from each entry's square onward) marked.
pub open spec fn seg_struck(v: int, base: Seq<usize>, m: int) -> bool {
    exists|t: int|
        0 <= t < m && #[trigger] (v % (base[t] as int)) == 0 && (base[t] as int) * (base[t] as int)
            <= v
}

/// Striking the multiples of one more base entry extends the struck set by
/// exactly that entry's multiples at or beyond its square.
proof fn lemma_seg_struck_step(v: int, base: Seq<usize>, t: int)
    requires
        0 <= t < base.len(),
    ensures
        seg_struck(v, base, t + 1) <==> (seg_struck(v, base, t) || (v % (base[t] as int) == 0 && (
        base[t] as int) * (base[t] as int) <= v)),
{
    if seg_struck(v, base, t + 1) {
        let w = choose|w: int|
            0 <= w < t + 1 && #[trigger] (v % (base[w] as int)) == 0 && (base[w] as int) * (
            base[w] as int) <= v;
        if w < t {
            assert(seg_struck(v, base, t));
        }
    }
    if seg_struck(v, base, t) {
        let w = choose|w: int|
            0 <= w < t && #[trigger] (v % (base[w] as int)) == 0 && (base[w] as int) * (
            base[w] as int) <= v;
        assert(seg_struck(v, base, t + 1));
    }
    if v % (base[t] as int) == 0 && (base[t] as int) * (base[t] as int) <= v {
        assert(seg_struck(v, base, t + 1));
    }
}

/// With a base that holds every prime whose square is within `hi`, an odd
/// value in `[3, hi]` survives the segment sieve exactly when it is prime.
proof fn lemma_seg_struck_char(v: int, base: Seq<usize>, hi: int)
    requires
        3 <= v <= hi,
        v % 2 == 1,
        forall|t: int| 0 <= t < base.len() ==> (#[trigger] base[t]) >= 2,
        forall|p: int| is_prime(p) && p * p <= hi ==> int_seq(base).contains(p),
    ensures
        !seg_struck(v, base, base.len() as int) <==> is_prime(v),
{
    if seg_struck(v, base, base.len() as int) {
        let t = choose|t: int|
            0 <= t < base.len() && #[trigger] (v % (base[t] as int)) == 0 && (base[t] as int) * (
            base[t] as int) <= v;
        let q = base[t] as int;
        assert(2 * q <= q * q) by {
            lemma_mul_inequality(2, q, q);
        }
        if is_prime(v) {
            lemma_prime_no_divisor(v, q);
        }
    } else {
        if !is_prime(v) {
            lemma_composite_least_factor_sq(v);
            let f = least_factor(v);
            assert(int_seq(base).contains(f));
            let t = choose|t: int| 0 <= t < int_seq(base).len() && int_seq(base)[t] == f;
            assert((base[t] as int) == f);
            assert(seg_struck(v, base, base.len() as int));
        }
    }
}

/// The first multiple of `q` at or above `lo` is `((lo + q - 1) / q) * q`.
proof fn lemma_first_multiple(q: int, lo: int)
    requires
        1 <= q,
        0 <= lo,
    ensures
        lo <= ((lo + q - 1) / q) * q <= lo + q - 1,
        (((lo + q - 1) / q) * q) % q == 0,
        forall|v: int| #[trigger] (v % q) == 0 && v >= lo ==> v >= ((lo + q - 1) / q) * q,
{
    let c = (lo + q - 1) / q;
    lemma_fundamental_div_mod(lo + q - 1, q);
    lemma_mod_division_less_than_divisor(lo + q - 1, q);
    assert(q * c == lo + q - 1 - ((lo + q - 1) % q));
    lemma_mul_is_commutative(q, c);
    lemma_multiple_mod_zero(q, c);
    assert forall|v: int| #[trigger] (v % q) == 0 && v >= lo implies v >= c * q by {
        lemma_fundamental_div_mod(v, q);
        let m = v / q;
        assert(v == q * m);
        if m <= c - 1 {
            assert(q * m <= q * (c - 1)) by {
                lemma_mul_inequality(m, c - 1, q);
                lemma_mul_is_commutative(m, q);
                lemma_mul_is_commutative(c - 1, q);
            }
            assert(q * (c - 1) == q * c - q) by {
                lemma_mul_is_distributive_sub(q, c, 1);
            }
            assert(false);
        }
        assert(q * c <= q * m) by {
            lemma_mul_inequality(c, m, q);
            lemma_mul_is_commutative(c, q);
            lemma_mul_is_commutative(m, q);
        }
        assert(c * q == q * c) by {
            lemma_mul_is_commutative(c, q);
        }
    }
}

/// The lower edge a segment is clamped to: values below 3 carry no odd
/// primes, and 2 is always reported by the callers directly.
pub open spec fn seg_lo(lo: int) -> int {
    if lo < 3 {
        3
    } else {
        lo
    }
}

/// Sieve the window `[lower, upper]` with a base of small primes: the result
/// lists, in ascending order, every prime `p` with `max(lower, 3) <= p <=
/// upper`.  The base must hold every prime whose square is within `upper`;
/// entries are processed from the first multiple inside the window onward,
/// so memory and time depend only on the window, not on its magnitude.
pub fn sieve_segment(base: &Vec<usize>, lower: usize, upper: usize) -> (r: Vec<usize>)
    requires
        forall|t: int| 0 <= t < base@.len() ==> (#[trigger] base@[t]) >= 2,
        forall|p: int| is_prime(p) && p * p <= upper as int ==> int_seq(base@).contains(p),
    ensures
        int_seq(r@) == range_primes(seg_lo(lower as int), upper as int),
{
    let lo3: usize = if lower < 3 {
        3
    } else {
        lower
    };
    if lo3 > upper || upper <= 2 {
        let out: Vec<usize> = Vec::new();
        proof {
            assert((upper as int) < lo3 as int);
            assert(int_seq(out@) =~= range_primes(lo3 as int, upper as int));
        }
        return out;
    }
    let lo2: usize = if lo3 % 2 == 0 {
        lo3 + 1
    } else {
        lo3
    };
    if lo2 > upper {
        // The window held a single even value, which cannot be an odd prime.
        let out: Vec<usize> = Vec::new();
        proof {
            assert(lo3 == upper && lo3 % 2 == 0);
            if is_prime(lo3 as int) {
                lemma_prime_no_divisor(lo3 as int, 2);
            }
            assert(range_primes(lo3 as int, upper as int - 1) =~= Seq::<int>::empty());
            assert(range_primes(lo3 as int, upper as int) == range_primes(
                lo3 as int,
                upper as int - 1,
            ));
            assert(int_seq(out@) =~= range_primes(lo3 as int, upper as int));
        }
        return out;
    }
    let len = (upper - lo2) / 2 + 1;
    let mut flags = make_flags(len);
    let mut t: usize = 0;
    while t < base.len()
        invariant
            flags@.len() == len,
            len == (upper - lo2) / 2 + 1,
            3 <= lo2 <= upper,
            lo2 % 2 == 1,
            forall|w: int| 0 <= w < base@.len() ==> (#[trigger] base@[w]) >= 2,
            t <= base@.len(),
            forall|k: int|
                0 <= k < flags@.len() ==> ((#[trigger] flags@[k]) <==> !seg_struck(
                    lo2 + 2 * k,
                    base@,
                    t as int,
                )),
        decreases base@.len() - t,
    {
        let q = base[t];
        let qq = q as u128;
        proof {
            assert((q as int) * (q as int) < 0x1_0000_0000_0000_0000_0000_0000_0000_0000)
                by (nonlinear_arith)
                requires
                    0 <= q as int <= 0xFFFF_FFFF_FFFF_FFFF,
            ;
        }
        let sq = qq * qq;
        let c = ((lo2 as u128) + qq - 1) / qq;
        proof {
            lemma_first_multiple(q as int, lo2 as int);
        }
        let cq = c * qq;
        let mut value: u128 = if sq > cq {
            sq
        } else {
            cq
        };
        proof {
            lemma_multiple_mod_zero(q as int, q as int);
        }
        while value <= upper as u128
            invariant
                flags@.len() == len,
                len == (upper - lo2) / 2 + 1,
                3 <= lo2 <= upper,
                lo2 % 2 == 1,
                t < base@.len(),
                q == base@[t as int],
                2 <= q,
                qq == q as u128,
                sq as int == (q as int) * (q as int),
                cq as int == ((lo2 as int + q as int - 1) / (q as int)) * (q as int),
                lo2 as int <= cq as int <= lo2 as int + q as int - 1,
                sq <= value,
                cq <= value,
                (value as int) % (q as int) == 0,
                forall|k: int|
                    0 <= k < flags@.len() ==> ((#[trigger] flags@[k]) <==> !(seg_struck(
                        lo2 + 2 * k,
                        base@,
                        t as int,
                    ) || ((lo2 + 2 * k) % (q as int) == 0 && sq as int <= lo2 + 2 * k && cq as int
                        <= lo2 + 2 * k && lo2 + 2 * k < value as int))),
            decreases upper as int + q as int - value as int,
        {
            if value % 2 == 1 {
                let idx = ((value - lo2 as u128) / 2) as usize;
                proof {
                    assert(lo2 + 2 * (idx as int) == value as int);
                }
                flags[idx] = false;
            }
            proof {
                assert((value as int + q as int) % (q as int) == 0) by {
                    lemma_mod_add_multiples_vanish(value as int, q as int);
                }
                let vi = value as int;
                let qi = q as int;
                assert forall|k: int|
                    0 <= k < flags@.len() implies ((#[trigger] flags@[k]) <==> !(seg_struck(
                    lo2 + 2 * k,
                    base@,
                    t as int,
                ) || ((lo2 + 2 * k) % qi == 0 && sq as int <= lo2 + 2 * k && cq as int <= lo2 + 2
                    * k && lo2 + 2 * k < vi + qi))) by {
                    let v = lo2 + 2 * k;
                    if v % qi == 0 && vi <= v < vi + qi {
                        // The only multiple of q in [value, value + q) is value.
                        lemma_fundamental_div_mod(vi, qi);
                        assert(vi == qi * (vi / qi));
                        assert(v == (vi / qi) * qi + (v - vi)) by {
                            lemma_mul_is_commutative(qi, vi / qi);
                        }
                        lemma_fundamental_div_mod_converse(v, qi, vi / qi, v - vi);
                        assert(v == vi);
                    }
                }
            }
            value = value + qq;
        }
        proof {
            let qi = q as int;
            assert forall|k: int|
                0 <= k < flags@.len() implies ((#[trigger] flags@[k]) <==> !seg_struck(
                lo2 + 2 * k,
                base@,
                t as int + 1,
            )) by {
                let v = lo2 + 2 * k;
                assert(v <= upper);
                if v % qi == 0 && qi * qi <= v {
                    lemma_first_multiple(qi, lo2 as int);
                    assert(v >= cq as int);
                }
                lemma_seg_struck_step(v, base@, t as int);
            }
        }
        t += 1;
    }
    let mut out: Vec<usize> = Vec::new();
    let mut k: usize = 0;
    while k < len
        invariant
            flags@.len() == len,
            len == (upper - lo2) / 2 + 1,
            3 <= lo2 <= upper,
            lo2 % 2 == 1,
            lo2 == lo3 || (lo2 == lo3 + 1 && lo3 % 2 == 0),
            3 <= lo3,
            forall|w: int| 0 <= w < base@.len() ==> (#[trigger] base@[w]) >= 2,
            forall|p: int| is_prime(p) && p * p <= upper as int ==> int_seq(base@).contains(p),
            forall|kk: int|
                0 <= kk < flags@.len() ==> ((#[trigger] flags@[kk]) <==> !seg_struck(
                    lo2 + 2 * kk,
                    base@,
                    base@.len() as int,
                )),
            k <= len,
            forall|a: int, b: int| 0 <= a < b < out@.len() ==> out@[a] < out@[b],
            forall|a: int|
                0 <= a < out@.len() ==> is_prime(#[trigger] out@[a] as int) && lo3 <= out@[a]
                    <= upper && (out@[a] as int) < lo2 + 2 * k,
            forall|v: int|
                lo3 <= v <= upper && is_prime(v) && v < lo2 + 2 * k ==> exists|a: int|
                    0 <= a < out@.len() && #[trigger] (out@[a] as int) == v,
        decreases len - k,
    {
        proof {
            assert(2 * (k as int) <= 2 * ((len - 1) as int));
            assert(lo2 + 2 * ((len - 1) as int) <= upper);
        }
        let ghost pre = out@;
        let v = lo2 + 2 * k;
        if flags[k] {
            proof {
                lemma_seg_struck_char(v as int, base@, upper as int);
            }
            out.push(v);
        }
        proof {
            let vv = lo2 + 2 * (k as int);
            lemma_seg_struck_char(vv, base@, upper as int);
            if is_prime(vv) {
                assert((out@[out@.len() - 1] as int) == vv);
            }
            if is_prime(vv + 1) {
                lemma_prime_no_divisor(vv + 1, 2);
            }
            assert forall|v2: int|
                lo3 <= v2 <= upper && is_prime(v2) && v2 < lo2 + 2 * (k as int + 1) implies exists|
                a: int|
                0 <= a < out@.len() && #[trigger] (out@[a] as int) == v2 by {
                if v2 < lo2 + 2 * k {
                    let a = choose|a: int| 0 <= a < pre.len() && #[trigger] (pre[a] as int) == v2;
                    assert((out@[a] as int) == v2);
                } else {
                    assert(v2 == vv);
                    assert((out@[out@.len() - 1] as int) == v2);
                }
            }
        }
        k += 1;
    }
    proof {
        if lo3 % 2 == 0 && is_prime(lo3 as int) {
            lemma_prime_no_divisor(lo3 as int, 2);
        }
        assert forall|v: int| lo3 <= v <= upper && is_prime(v) implies exists|a: int|
            0 <= a < out@.len() && #[trigger] (out@[a] as int) == v by {
            if v % 2 == 0 {
                lemma_prime_no_divisor(v, 2);
            }
            assert(v < lo2 + 2 * (len as int));
        }
        lemma_sorted_primes_unique(out@, lo3 as int, upper as int);
    }
    out
}

/// The window width the block sieve covers in one segment pass.
pub const BLOCK_SIZE: usize = 200_000;

/// Bounds within roughly ten percent of the window width go straight to the
/// plain sieve: at that size segmenting saves nothing.
pub const SMALL_SIEVE_LIMIT: usize = 222_222;

/// All primes up to and including `bound`, in ascending order, computed with
/// peak memory proportional to `sqrt(bound)` plus one window: the base
/// primes up to `sqrt(bound)` come from a recursive call, and the rest of
/// the range is covered window by window with the segment sieve.
pub fn block_sieve(bound: usize) -> (r: Vec<usize>)
    ensures
        int_seq(r@) == primes_upto(bound as int),
    decreases bound,
{
    if bound <= SMALL_SIEVE_LIMIT {
        return sieve_eratosthenes(bound);
    }
    let s = isqrt(bound);
    proof {
        if s < 2 {
            assert(((s as int) + 1) * ((s as int) + 1) <= 4) by (nonlinear_arith)
                requires
                    0 <= s as int <= 1,
            ;
        }
        assert(2 * (s as int) <= (s as int) * (s as int)) by {
            lemma_mul_inequality(2, s as int, s as int);
        }
    }
    let mut primes = if s <= BLOCK_SIZE {
        sieve_eratosthenes(s)
    } else {
        block_sieve(s)
    };
    let mut completed = s;
    while completed < bound
        invariant
            int_seq(primes@) == primes_upto(completed as int),
            2 <= s <= completed,
            completed <= bound,
            (s as int) * (s as int) <= bound as int,
            (bound as int) < ((s as int) + 1) * ((s as int) + 1),
        decreases bound - completed,
    {
        let upper = if bound - completed <= BLOCK_SIZE {
            bound
        } else {
            completed + BLOCK_SIZE
        };
        proof {
            lemma_range_primes_props(2, completed as int);
            assert forall|w: int| 0 <= w < primes@.len() implies (#[trigger] primes@[w]) >= 2 by {
                assert(int_seq(primes@)[w] == primes@[w] as int);
            }
            assert forall|p: int| is_prime(p) && p * p <= upper as int implies int_seq(
                primes@,
            ).contains(p) by {
                assert(p <= s) by {
                    if p > s {
                        assert(((s as int) + 1) * ((s as int) + 1) <= p * p) by (nonlinear_arith)
                            requires
                                (s as int) + 1 <= p,
                                0 <= s as int,
                        ;
                    }
                }
                lemma_range_primes_membership(2, completed as int, p);
            }
        }
        let mut seg = sieve_segment(&primes, completed + 1, upper);
        let ghost pre = primes@;
        let ghost seg_pre = seg@;
        primes.append(&mut seg);
        proof {
            lemma_int_seq_add(pre, seg_pre);
            lemma_range_primes_split(2, completed as int, upper as int);
        }
        completed = upper;
    }
    primes
}

/// The plain sieve and the block sieve agree on every bound: each returns
/// the one ascending sequence of all primes up to it, so two results for
/// the same bound are equal element for element.
pub proof fn lemma_sieve_agrees(bound: int, a: Seq<usize>, b: Seq<usize>)
    requires
        int_seq(a) == primes_upto(bound),
        int_seq(b) == primes_upto(bound),
    ensures
        a == b,
{
    assert(a.len() == int_seq(a).len());
    assert(b.len() == int_seq(b).len());
    assert forall|i: int| 0 <= i < a.len() implies a[i] == b[i] by {
        assert(int_seq(a)[i] == a[i] as int);
        assert(int_seq(b)[i] == b[i] as int);
    }
    assert(a =~= b);
}

/// Segment decomposition: the primes up to `bound` are the primes up to a
/// split point `s` followed by the segment sieve's output over
/// `[s + 1, bound]`.  The split must be at least the square root of the
/// bound — below that, the primes up to `s` are not a complete base for
/// the segment, and the segment sieve misreports composites as prime.
pub proof fn lemma_segment_decomposition(s: int, bound: int, head: Seq<usize>, tail: Seq<usize>)
    requires
        2 <= s <= bound,
        bound <= s * s,
        int_seq(head) == primes_upto(s),
        int_seq(tail) == range_primes(seg_lo(s + 1), bound),
    ensures
        int_seq(head + tail) == primes_upto(bound),
{
    assert(seg_lo(s + 1) == s + 1);
    lemma_int_seq_add(head, tail);
    lemma_range_primes_split(2, s, bound);
}

} // verus!
