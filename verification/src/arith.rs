//! Number-theoretic vocabulary shared by the producers: divisibility,
//! primality, and the integer square root.

use vstd::arithmetic::div_mod::{lemma_fundamental_div_mod, lemma_mod_multiples_basic};
use vstd::prelude::*;

verus! {

/// `d` divides `n` without remainder.
pub open spec fn divides(d: nat, n: nat) -> bool {
    d != 0 && n % d == 0
}

/// `n` is prime: at least two, and no number strictly between one and `n` divides it.
pub open spec fn is_prime(n: nat) -> bool {
    n >= 2 && forall|d: nat| 2 <= d < n ==> !#[trigger] divides(d, n)
}

/// How many primes lie below `bound`. The prime `p` is the `k`-th prime,
/// counted from zero, where `primes_below(p)` is `k`.
pub open spec fn primes_below(bound: nat) -> nat
    decreases bound,
{
    if bound == 0 {
        0
    } else if is_prime((bound - 1) as nat) {
        primes_below((bound - 1) as nat) + 1
    } else {
        primes_below((bound - 1) as nat)
    }
}

/// A stretch without a prime adds nothing to the count of primes.
pub proof fn lemma_primes_below_gap(from: nat, to: nat)
    requires
        from <= to,
        forall|q: nat| from <= q < to ==> !#[trigger] is_prime(q),
    ensures
        primes_below(to) == primes_below(from),
    decreases to,
{
    if from < to {
        lemma_primes_below_gap(from, (to - 1) as nat);
        assert(!is_prime((to - 1) as nat));
    }
}

/// `r` is the integer square root of `n`: the largest number whose square does not exceed `n`.
pub open spec fn is_isqrt(n: nat, r: nat) -> bool {
    r * r <= n < (r + 1) * (r + 1)
}

/// The integer square root of `n`.
pub closed spec fn isqrt_of(n: nat) -> nat {
    choose|r: nat| is_isqrt(n, r)
}

/// Every number has an integer square root, and `isqrt_of` is it.
pub proof fn lemma_isqrt_exists(n: nat)
    ensures
        is_isqrt(n, isqrt_of(n)),
    decreases n,
{
    if n == 0 {
        assert(0nat * 0nat <= n < (0nat + 1) * (0nat + 1)) by (nonlinear_arith)
            requires
                n == 0,
        ;
        assert(is_isqrt(n, 0));
    } else {
        lemma_isqrt_exists((n - 1) as nat);
        let r = isqrt_of((n - 1) as nat);
        if n < (r + 1) * (r + 1) {
            assert(is_isqrt(n, r));
        } else {
            assert((r + 1) * (r + 1) < (r + 2) * (r + 2)) by (nonlinear_arith);
            assert(is_isqrt(n, r + 1));
        }
    }
}

/// At most one number is the integer square root of `n`.
pub proof fn lemma_isqrt_unique(n: nat, a: nat, b: nat)
    requires
        is_isqrt(n, a),
        is_isqrt(n, b),
    ensures
        a == b,
{
    if a < b {
        assert((a + 1) * (a + 1) <= b * b) by (nonlinear_arith)
            requires
                a + 1 <= b,
        ;
    }
    if b < a {
        assert((b + 1) * (b + 1) <= a * a) by (nonlinear_arith)
            requires
                b + 1 <= a,
        ;
    }
}

/// Whatever satisfies `is_isqrt` is the value of `isqrt_of`.
pub proof fn lemma_isqrt_of(n: nat, r: nat)
    requires
        is_isqrt(n, r),
    ensures
        isqrt_of(n) == r,
{
    lemma_isqrt_unique(n, r, isqrt_of(n));
}

/// Computes the integer square root of `n` by bisection.
pub fn isqrt(n: usize) -> (r: usize)
    ensures
        is_isqrt(n as nat, r as nat),
        r as nat == isqrt_of(n as nat),
{
    let target: u128 = n as u128;
    let mut lo: u128 = 0;
    let mut hi: u128 = 0x1_0000_0000;
    assert(target < hi * hi) by (nonlinear_arith)
        requires
            hi == 0x1_0000_0000,
            target <= 0xffff_ffff_ffff_ffff,
    ;
    while hi - lo > 1
        invariant
            lo < hi <= 0x1_0000_0000,
            lo * lo <= target,
            target < hi * hi,
        decreases hi - lo,
    {
        let mid: u128 = lo + (hi - lo) / 2;
        assert(mid * mid <= 0x1_0000_0000 * 0x1_0000_0000) by (nonlinear_arith)
            requires
                mid <= 0x1_0000_0000,
        ;
        if mid * mid <= target {
            lo = mid;
        } else {
            hi = mid;
        }
    }
    assert(lo <= target) by (nonlinear_arith)
        requires
            lo * lo <= target,
    ;
    let r: usize = lo as usize;
    proof {
        lemma_isqrt_of(n as nat, r as nat);
    }
    r
}

/// `b` to the power of `e`.
pub open spec fn power(b: nat, e: nat) -> nat
    decreases e,
{
    if e == 0 {
        1
    } else {
        b * power(b, (e - 1) as nat)
    }
}

/// A product is divisible by each of its factors.
pub proof fn lemma_factor_divides(d: nat, k: nat)
    requires
        d != 0,
    ensures
        divides(d, d * k),
{
    lemma_mod_multiples_basic(k as int, d as int);
    assert(k * d == d * k) by (nonlinear_arith);
}

/// What a number divides is that number times the quotient.
pub proof fn lemma_divides_quotient(d: nat, n: nat)
    requires
        divides(d, n),
    ensures
        n == d * (n / d),
{
    lemma_fundamental_div_mod(n as int, d as int);
}

/// Divisibility passes on: what divides a divisor of `c` divides `c`.
pub proof fn lemma_divides_transitive(a: nat, b: nat, c: nat)
    requires
        divides(a, b),
        divides(b, c),
    ensures
        divides(a, c),
{
    lemma_divides_quotient(a, b);
    lemma_divides_quotient(b, c);
    let k = (b / a) * (c / b);
    assert(c == a * k) by (nonlinear_arith)
        requires
            b == a * (b / a),
            c == b * (c / b),
            k == (b / a) * (c / b),
    ;
    lemma_factor_divides(a, k);
}

/// A divisor of a positive number is no larger than that number.
pub proof fn lemma_divisor_bound(d: nat, n: nat)
    requires
        divides(d, n),
        n >= 1,
    ensures
        d <= n,
{
    lemma_divides_quotient(d, n);
    assert(d <= n) by (nonlinear_arith)
        requires
            n == d * (n / d),
            n >= 1,
    ;
}

/// Every number from two on has a prime divisor.
pub proof fn lemma_prime_divisor(n: nat) -> (q: nat)
    requires
        n >= 2,
    ensures
        is_prime(q),
        divides(q, n),
        q <= n,
    decreases n,
{
    if is_prime(n) {
        assert(n % n == 0) by (nonlinear_arith)
            requires
                n >= 2,
        ;
        n
    } else {
        let d = choose|d: nat| 2 <= d < n && divides(d, n);
        let q = lemma_prime_divisor(d);
        lemma_divides_transitive(q, d, n);
        q
    }
}

/// A number from two on that is not prime has a prime divisor whose square
/// does not exceed it.
pub proof fn lemma_small_prime_divisor(n: nat) -> (q: nat)
    requires
        n >= 2,
        !is_prime(n),
    ensures
        is_prime(q),
        divides(q, n),
        q * q <= n,
{
    let d = choose|d: nat| 2 <= d < n && divides(d, n);
    let e = n / d;
    lemma_divides_quotient(d, n);
    assert(e >= 2 && n == e * d) by (nonlinear_arith)
        requires
            n == d * e,
            2 <= d < n,
    ;
    lemma_factor_divides(e, d);
    let small = if d <= e {
        d
    } else {
        e
    };
    assert(small * small <= n) by (nonlinear_arith)
        requires
            n == d * e,
            small == d || small == e,
            small <= d,
            small <= e,
    ;
    let q = lemma_prime_divisor(small);
    lemma_divides_transitive(q, small, n);
    assert(q * q <= small * small) by (nonlinear_arith)
        requires
            q <= small,
    ;
    q
}

/// A number from two on is prime if no prime whose square does not exceed it
/// divides it.
pub proof fn lemma_prime_by_trial(n: nat)
    requires
        n >= 2,
        forall|q: nat| is_prime(q) && q * q <= n ==> !#[trigger] divides(q, n),
    ensures
        is_prime(n),
{
    if !is_prime(n) {
        let q = lemma_small_prime_divisor(n);
        assert(divides(q, n));
    }
}

/// What divides a number divides its multiples.
pub proof fn lemma_divides_multiple(d: nat, x: nat, k: nat)
    requires
        divides(d, x),
    ensures
        divides(d, x * k),
{
    lemma_divides_quotient(d, x);
    let m = (x / d) * k;
    assert(x * k == d * m) by (nonlinear_arith)
        requires
            x == d * (x / d),
            m == (x / d) * k,
    ;
    lemma_factor_divides(d, m);
}

/// What divides two numbers divides their difference.
pub proof fn lemma_divides_difference(d: nat, x: nat, y: nat)
    requires
        divides(d, x),
        divides(d, y),
        y <= x,
    ensures
        divides(d, (x - y) as nat),
{
    lemma_divides_quotient(d, x);
    lemma_divides_quotient(d, y);
    let kx = x / d;
    let ky = y / d;
    assert(ky <= kx && x - y == d * (kx - ky)) by (nonlinear_arith)
        requires
            x == d * kx,
            y == d * ky,
            y <= x,
            d >= 1,
    ;
    lemma_factor_divides(d, (kx - ky) as nat);
}

/// A prime that divides `a * b`, with `a` positive and below the prime, divides `b`.
proof fn lemma_euclid_below(p: nat, a: nat, b: nat)
    requires
        is_prime(p),
        1 <= a < p,
        divides(p, a * b),
    ensures
        divides(p, b),
    decreases a,
{
    if a == 1 {
        assert(a * b == b) by (nonlinear_arith)
            requires
                a == 1,
        ;
    } else {
        let q = p / a;
        let r = p % a;
        lemma_fundamental_div_mod(p as int, a as int);
        assert(r != 0) by {
            if r == 0 {
                assert(divides(a, p));
            }
        }
        lemma_factor_divides(p, b);
        lemma_divides_multiple(p, a * b, q);
        assert((a * b) * q <= p * b && p * b - (a * b) * q == r * b) by (nonlinear_arith)
            requires
                p == a * q + r,
        ;
        lemma_divides_difference(p, p * b, (a * b) * q);
        lemma_euclid_below(p, r, b);
    }
}

/// A prime that divides a product divides one of its factors.
pub proof fn lemma_euclid(p: nat, a: nat, b: nat)
    requires
        is_prime(p),
        divides(p, a * b),
    ensures
        divides(p, a) || divides(p, b),
{
    if !divides(p, a) {
        let k = a / p;
        let r = a % p;
        lemma_fundamental_div_mod(a as int, p as int);
        lemma_factor_divides(p, k * b);
        assert(p * (k * b) <= a * b && a * b - p * (k * b) == r * b) by (nonlinear_arith)
            requires
                a == p * k + r,
        ;
        lemma_divides_difference(p, a * b, p * (k * b));
        lemma_euclid_below(p, r, b);
    }
}

/// Of two primes, one divides the other only where they are the same.
pub proof fn lemma_prime_divides_prime(q: nat, p: nat)
    requires
        is_prime(q),
        is_prime(p),
        divides(q, p),
    ensures
        q == p,
{
    lemma_divisor_bound(q, p);
}

/// A prime divides no power of another prime, nor any power of one.
pub proof fn lemma_prime_and_power(q: nat, p: nat, e: nat)
    requires
        is_prime(q),
        is_prime(p) || p == 1,
        q != p,
    ensures
        !divides(q, power(p, e)),
    decreases e,
{
    if e == 0 {
        if divides(q, power(p, e)) {
            lemma_divisor_bound(q, 1);
        }
    } else {
        lemma_prime_and_power(q, p, (e - 1) as nat);
        if divides(q, power(p, e)) {
            lemma_euclid(q, p, power(p, (e - 1) as nat));
            if p == 1 {
                lemma_divisor_bound(q, 1);
            } else {
                lemma_prime_divides_prime(q, p);
            }
        }
    }
}

/// The powers of a positive number are positive, and from the first power on
/// the number divides them.
pub proof fn lemma_power_positive(b: nat, e: nat)
    requires
        b >= 1,
    ensures
        power(b, e) >= 1,
        e >= 1 ==> divides(b, power(b, e)),
    decreases e,
{
    if e > 0 {
        lemma_power_positive(b, (e - 1) as nat);
        assert(b * power(b, (e - 1) as nat) >= 1) by (nonlinear_arith)
            requires
                b >= 1,
                power(b, (e - 1) as nat) >= 1,
        ;
        lemma_factor_divides(b, power(b, (e - 1) as nat));
    }
}

} // verus!
