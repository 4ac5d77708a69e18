//! The mathematical vocabulary shared by every contract in the crate:
//! primality, the prime-counting function, and the ascending sequence of
//! primes in a range.

use vstd::arithmetic::div_mod::{
    lemma_fundamental_div_mod, lemma_mod_division_less_than_divisor, lemma_mod_multiples_basic,
    lemma_mul_mod_noop_left, lemma_small_mod,
};
use vstd::arithmetic::mul::{
    lemma_mul_inequality, lemma_mul_is_associative, lemma_mul_is_commutative,
    lemma_mul_nonnegative,
};
use vstd::prelude::*;

verus! {

/// True when no integer in `[d, n)` divides `n`.
pub open spec fn no_factor_from(n: int, d: int) -> bool
    decreases n - d,
{
    if d >= n {
        true
    } else {
        n % d != 0 && no_factor_from(n, d + 1)
    }
}

/// `n` is prime: at least 2, and no smaller integer above 1 divides it.
pub open spec fn is_prime(n: int) -> bool {
    n >= 2 && no_factor_from(n, 2)
}

/// The prime-counting function: how many primes lie in `[2, n]`.
pub open spec fn prime_count(n: int) -> int
    decreases n,
{
    if n < 2 {
        0
    } else {
        prime_count(n - 1) + if is_prime(n) {
            1int
        } else {
            0int
        }
    }
}

/// The ascending sequence of all primes `p` with `lo <= p <= hi`.
pub open spec fn range_primes(lo: int, hi: int) -> Seq<int>
    decreases hi,
{
    if hi < lo || hi < 2 {
        Seq::empty()
    } else if is_prime(hi) {
        range_primes(lo, hi - 1).push(hi)
    } else {
        range_primes(lo, hi - 1)
    }
}

/// The ascending sequence of all primes up to and including `n`.
pub open spec fn primes_upto(n: int) -> Seq<int> {
    range_primes(2, n)
}

/// A sequence of machine integers read as mathematical integers.
pub open spec fn int_seq(s: Seq<usize>) -> Seq<int> {
    s.map_values(|x: usize| x as int)
}

/// `no_factor_from(n, d)` says exactly that no `e` in `[d, n)` divides `n`.
pub proof fn lemma_no_factor_from_equiv(n: int, d: int)
    requires
        1 <= d,
    ensures
        no_factor_from(n, d) <==> (forall|e: int| d <= e < n ==> #[trigger] (n % e) != 0),
    decreases n - d,
{
    if d >= n {
    } else {
        lemma_no_factor_from_equiv(n, d + 1);
    }
}

/// A prime has no divisor strictly between 1 and itself.
pub proof fn lemma_prime_no_divisor(p: int, d: int)
    requires
        is_prime(p),
        2 <= d < p,
    ensures
        p % d != 0,
{
    lemma_no_factor_from_equiv(p, 2);
}

/// A divisor of a divisor divides: if `a | b` and `b | c` then `a | c`.
pub proof fn lemma_divides_trans(a: int, b: int, c: int)
    requires
        1 <= a,
        1 <= b,
        b % a == 0,
        c % b == 0,
    ensures
        c % a == 0,
{
    lemma_fundamental_div_mod(c, b);
    lemma_fundamental_div_mod(b, a);
    let q1 = c / b;
    let q2 = b / a;
    assert(c == (a * q2) * q1);
    assert((a * q2) * q1 == a * (q2 * q1)) by {
        lemma_mul_is_associative(a, q2, q1);
    }
    assert((a * (q2 * q1)) % a == 0) by {
        lemma_mod_multiples_basic(q2 * q1, a);
        lemma_mul_is_commutative(a, q2 * q1);
    }
}

/// Every multiple `m * k` of `m` leaves remainder 0.
pub proof fn lemma_multiple_mod_zero(m: int, k: int)
    requires
        1 <= m,
    ensures
        (m * k) % m == 0,
{
    lemma_mod_multiples_basic(k, m);
    lemma_mul_is_commutative(m, k);
}

/// A positive divisor of a positive number is no larger than it.
pub proof fn lemma_divisor_le(d: int, n: int)
    requires
        1 <= d,
        1 <= n,
        n % d == 0,
    ensures
        d <= n,
{
    if d > n {
        lemma_small_mod(n as nat, d as nat);
    }
}

/// The smallest candidate divisor of `n` at or above `d`, or `n` itself.
pub open spec fn least_factor_from(n: int, d: int) -> int
    decreases n - d,
{
    if d >= n {
        n
    } else if n % d == 0 {
        d
    } else {
        least_factor_from(n, d + 1)
    }
}

/// The least divisor of `n` that is at least 2.
pub open spec fn least_factor(n: int) -> int {
    least_factor_from(n, 2)
}

proof fn lemma_least_factor_from_props(n: int, d: int)
    requires
        2 <= d <= n,
        n % n == 0,
    ensures
        d <= least_factor_from(n, d) <= n,
        n % least_factor_from(n, d) == 0,
        forall|e: int| d <= e < least_factor_from(n, d) ==> #[trigger] (n % e) != 0,
    decreases n - d,
{
    if d >= n {
    } else if n % d == 0 {
    } else {
        lemma_least_factor_from_props(n, d + 1);
    }
}

/// The least factor of any `n >= 2` divides `n`, is prime, and nothing
/// smaller above 1 divides `n`.
pub proof fn lemma_least_factor_props(n: int)
    requires
        n >= 2,
    ensures
        2 <= least_factor(n) <= n,
        n % least_factor(n) == 0,
        forall|e: int| 2 <= e < least_factor(n) ==> #[trigger] (n % e) != 0,
        is_prime(least_factor(n)),
{
    assert(n % n == 0) by {
        lemma_mod_multiples_basic(1, n);
        assert(n * 1 == n);
        lemma_mul_is_commutative(n, 1);
    }
    lemma_least_factor_from_props(n, 2);
    let f = least_factor(n);
    if !is_prime(f) {
        lemma_no_factor_from_equiv(f, 2);
        let e = choose|e: int| 2 <= e < f && #[trigger] (f % e) == 0;
        lemma_divides_trans(e, f, n);
    }
}

/// A composite number has a prime factor whose square does not exceed it.
pub proof fn lemma_composite_least_factor_sq(n: int)
    requires
        n >= 2,
        !is_prime(n),
    ensures
        is_prime(least_factor(n)),
        n % least_factor(n) == 0,
        least_factor(n) * least_factor(n) <= n,
{
    lemma_least_factor_props(n);
    let f = least_factor(n);
    lemma_no_factor_from_equiv(n, 2);
    let d = choose|d: int| 2 <= d < n && #[trigger] (n % d) == 0;
    assert(f <= d < n);
    lemma_fundamental_div_mod(n, f);
    let k = n / f;
    assert(n == f * k);
    assert(k >= 2) by {
        if k <= 1 {
            lemma_mul_inequality(k, 1, f);
            lemma_mul_is_commutative(f, k);
        }
    }
    assert(n % k == 0) by {
        lemma_mod_multiples_basic(f, k);
        lemma_mul_is_commutative(f, k);
    }
    assert(k < n) by {
        if k >= n {
            lemma_mul_inequality(2, f, k);
            lemma_mul_is_commutative(f, k);
        }
    }
    assert(k >= f);
    assert(f * f <= f * k) by {
        lemma_mul_inequality(f, k, f);
        lemma_mul_is_commutative(f, f);
        lemma_mul_is_commutative(k, f);
    }
}

/// Reading machine integers as mathematical ones distributes over
/// concatenation.
pub proof fn lemma_int_seq_add(a: Seq<usize>, b: Seq<usize>)
    ensures
        int_seq(a + b) == int_seq(a) + int_seq(b),
{
    assert(int_seq(a + b) =~= int_seq(a) + int_seq(b));
}

/// A prime `p` does not divide any prime other than itself.
pub proof fn lemma_prime_not_divides_prime(p: int, q: int)
    requires
        is_prime(p),
        is_prime(q),
        p != q,
    ensures
        q % p != 0,
{
    if q % p == 0 {
        lemma_divisor_le(p, q);
        lemma_prime_no_divisor(q, p);
    }
}

/// Nothing at least 2 divides 1.
pub proof fn lemma_one_rough(p: int)
    requires
        2 <= p,
    ensures
        1int % p == 1,
{
    lemma_small_mod(1nat, p as nat);
}

/// Every element of `range_primes(lo, hi)` is a prime in `[lo, hi]`, and the
/// sequence is strictly ascending.
pub proof fn lemma_range_primes_props(lo: int, hi: int)
    ensures
        forall|i: int|
            0 <= i < range_primes(lo, hi).len() ==> is_prime(#[trigger] range_primes(lo, hi)[i])
                && lo <= range_primes(lo, hi)[i] <= hi,
        forall|i: int, j: int|
            0 <= i < j < range_primes(lo, hi).len() ==> range_primes(lo, hi)[i] < range_primes(
                lo,
                hi,
            )[j],
    decreases hi,
{
    if hi < lo || hi < 2 {
    } else {
        lemma_range_primes_props(lo, hi - 1);
        let s = range_primes(lo, hi - 1);
        if is_prime(hi) {
            assert(range_primes(lo, hi) == s.push(hi));
            assert(forall|i: int| 0 <= i < s.len() ==> s.push(hi)[i] == #[trigger] s[i]);
            assert(s.push(hi)[s.len() as int] == hi);
        }
    }
}

/// `range_primes(lo, hi)` holds a value exactly when it is a prime in
/// `[lo, hi]`.
pub proof fn lemma_range_primes_membership(lo: int, hi: int, v: int)
    ensures
        range_primes(lo, hi).contains(v) <==> (lo <= v <= hi && is_prime(v)),
    decreases hi,
{
    lemma_range_primes_props(lo, hi);
    if hi < lo || hi < 2 {
    } else {
        lemma_range_primes_membership(lo, hi - 1, v);
        if is_prime(hi) {
            let s = range_primes(lo, hi - 1);
            assert(range_primes(lo, hi) == s.push(hi));
            if v == hi {
                assert(s.push(hi)[s.len() as int] == hi);
                assert(s.push(hi).contains(hi));
            }
            if s.contains(v) {
                let i = choose|i: int| 0 <= i < s.len() && s[i] == v;
                assert(s.push(hi)[i] == v);
            }
            if v != hi && s.push(hi).contains(v) {
                let i = choose|i: int| 0 <= i < s.push(hi).len() && s.push(hi)[i] == v;
                assert(s[i] == v);
            }
        }
    }
}

/// The length of `range_primes(lo, hi)` is the number of primes in
/// `[lo, hi]`, counted through the prime-counting function.
pub proof fn lemma_range_primes_len(lo: int, hi: int)
    requires
        2 <= lo,
        lo - 1 <= hi,
    ensures
        range_primes(lo, hi).len() == prime_count(hi) - prime_count(lo - 1),
    decreases hi,
{
    if hi <= lo - 1 {
    } else {
        lemma_range_primes_len(lo, hi - 1);
    }
}

/// The element at index `i` of `range_primes(lo, hi)` is the prime whose
/// prime count is `prime_count(lo - 1) + i + 1`.
pub proof fn lemma_range_primes_index(lo: int, hi: int, i: int)
    requires
        2 <= lo,
        0 <= i < range_primes(lo, hi).len(),
    ensures
        is_prime(range_primes(lo, hi)[i]),
        prime_count(range_primes(lo, hi)[i]) == prime_count(lo - 1) + i + 1,
    decreases hi,
{
    lemma_range_primes_props(lo, hi);
    if hi < lo || hi < 2 {
    } else {
        if is_prime(hi) && i == range_primes(lo, hi).len() - 1 {
            lemma_range_primes_len(lo, hi);
            assert(range_primes(lo, hi)[i] == hi);
        } else {
            lemma_range_primes_index(lo, hi - 1, i);
            assert(range_primes(lo, hi)[i] == range_primes(lo, hi - 1)[i]);
        }
    }
}

/// Splitting a range at `mid` splits its prime sequence.
pub proof fn lemma_range_primes_split(lo: int, mid: int, hi: int)
    requires
        lo <= mid + 1,
        mid <= hi,
    ensures
        range_primes(lo, hi) == range_primes(lo, mid) + range_primes(mid + 1, hi),
    decreases hi - mid,
{
    if hi == mid {
        assert(range_primes(mid + 1, hi) =~= Seq::empty());
        assert(range_primes(lo, hi) =~= range_primes(lo, mid) + range_primes(mid + 1, hi));
    } else {
        lemma_range_primes_split(lo, mid, hi - 1);
        if hi >= 2 && is_prime(hi) {
            assert(range_primes(lo, hi) =~= range_primes(lo, mid) + range_primes(mid + 1, hi));
        } else {
            assert(range_primes(lo, hi) =~= range_primes(lo, mid) + range_primes(mid + 1, hi));
        }
    }
}

/// A strictly ascending sequence of machine integers that holds exactly the
/// primes of `[lo, hi]` is `range_primes(lo, hi)`.
pub proof fn lemma_sorted_primes_unique(s: Seq<usize>, lo: int, hi: int)
    requires
        forall|i: int, j: int| 0 <= i < j < s.len() ==> s[i] < s[j],
        forall|i: int|
            0 <= i < s.len() ==> is_prime(#[trigger] s[i] as int) && lo <= s[i] <= hi,
        forall|v: int| lo <= v <= hi && is_prime(v) ==> exists|i: int|
            0 <= i < s.len() && #[trigger] s[i] == v,
    ensures
        int_seq(s) == range_primes(lo, hi),
    decreases hi,
{
    lemma_range_primes_props(lo, hi);
    if hi < lo || hi < 2 {
        if s.len() > 0 {
            assert(is_prime(s[0] as int) && lo <= s[0] <= hi);
        }
        assert(int_seq(s) =~= range_primes(lo, hi));
    } else if !is_prime(hi) {
        assert(forall|i: int| 0 <= i < s.len() ==> #[trigger] s[i] != hi);
        lemma_sorted_primes_unique(s, lo, hi - 1);
    } else {
        // `hi` is prime and is in `[lo, hi]`, so it appears in `s`; since the
        // sequence is ascending and bounded by `hi`, it is the last element.
        let iw = choose|i: int| 0 <= i < s.len() && #[trigger] s[i] == hi;
        assert(s.len() >= 1);
        let last = s.len() - 1;
        assert(s[last] == hi) by {
            if iw < last {
                assert(s[iw] < s[last]);
            }
        }
        let t = s.drop_last();
        assert(forall|i: int| 0 <= i < t.len() ==> #[trigger] t[i] == s[i]);
        assert(forall|i: int|
            0 <= i < t.len() ==> is_prime(#[trigger] t[i] as int) && lo <= t[i] <= hi - 1) by {
            assert(forall|i: int| 0 <= i < t.len() ==> #[trigger] s[i] < s[last]);
        }
        assert(forall|v: int| lo <= v <= hi - 1 && is_prime(v) ==> exists|i: int|
            0 <= i < t.len() && #[trigger] t[i] == v) by {
            assert forall|v: int| lo <= v <= hi - 1 && is_prime(v) implies exists|i: int|
                0 <= i < t.len() && #[trigger] t[i] == v by {
                let j = choose|j: int| 0 <= j < s.len() && #[trigger] s[j] == v;
                assert(j != last);
                assert(t[j] == v);
            }
        }
        lemma_sorted_primes_unique(t, lo, hi - 1);
        assert(int_seq(s) =~= range_primes(lo, hi - 1).push(hi));
    }
}

/// The first five primes, with their prime counts, by direct evaluation.
pub proof fn lemma_small_primes()
    ensures
        is_prime(2),
        is_prime(3),
        is_prime(5),
        is_prime(7),
        is_prime(11),
        prime_count(1) == 0,
        prime_count(2) == 1,
        prime_count(3) == 2,
        prime_count(5) == 3,
        prime_count(7) == 4,
        prime_count(11) == 5,
        prime_count(12) == 5,
{
    reveal_with_fuel(no_factor_from, 13);
    reveal_with_fuel(prime_count, 14);
}

proof fn lemma_euclid_aux(p: int, c: int, b: int)
    requires
        is_prime(p),
        1 <= c < p,
        0 <= b,
        (c * b) % p == 0,
    ensures
        b % p == 0,
    decreases c,
{
    if c == 1 {
        assert(1 * b == b);
    } else {
        lemma_prime_no_divisor(p, c);
        lemma_mod_division_less_than_divisor(p, c);
        lemma_fundamental_div_mod(p, c);
        let q = p / c;
        let r = p % c;
        lemma_fundamental_div_mod(c * b, p);
        let k = (c * b) / p;
        assert(r * b == p * (b - q * k)) by (nonlinear_arith)
            requires
                p == q * c + r,
                c * b == p * k,
        ;
        lemma_multiple_mod_zero(p, b - q * k);
        assert(r * b >= 0) by {
            lemma_mul_nonnegative(r, b);
        }
        lemma_euclid_aux(p, r, b);
    }
}

/// Euclid's lemma: a prime that divides a product divides one of the factors.
pub proof fn lemma_euclid(p: int, a: int, b: int)
    requires
        is_prime(p),
        0 <= a,
        0 <= b,
        (a * b) % p == 0,
    ensures
        a % p == 0 || b % p == 0,
{
    lemma_mod_division_less_than_divisor(a, p);
    let c = a % p;
    if c != 0 {
        lemma_mul_mod_noop_left(a, b, p);
        lemma_euclid_aux(p, c, b);
    }
}

/// The prime-counting function is non-negative and below its argument.
pub proof fn lemma_prime_count_bounds(n: int)
    ensures
        0 <= prime_count(n),
        n >= 2 ==> prime_count(n) <= n - 1,
    decreases n,
{
    if n >= 2 {
        lemma_prime_count_bounds(n - 1);
    }
}

/// The prime-counting function never decreases.
pub proof fn lemma_prime_count_mono(a: int, b: int)
    requires
        a <= b,
    ensures
        prime_count(a) <= prime_count(b),
    decreases b - a,
{
    if a < b {
        lemma_prime_count_mono(a, b - 1);
    }
}

/// Larger primes have strictly larger prime counts.
pub proof fn lemma_prime_count_strict(p: int, q: int)
    requires
        is_prime(p),
        is_prime(q),
        p < q,
    ensures
        prime_count(p) < prime_count(q),
{
    lemma_prime_count_mono(p, q - 1);
}

/// Two primes with the same prime count are the same prime.
pub proof fn lemma_prime_same_count(p: int, q: int)
    requires
        is_prime(p),
        is_prime(q),
        prime_count(p) == prime_count(q),
    ensures
        p == q,
{
    if p < q {
        lemma_prime_count_strict(p, q);
    }
    if q < p {
        lemma_prime_count_strict(q, p);
    }
}

} // verus!
