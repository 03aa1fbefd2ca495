//! What the factorisation of a number is, in terms of the number: the
//! powers of the primes that divide it, in ascending order.

use crate::arith::{
    divides, is_prime, isqrt_of, lemma_divides_multiple, lemma_divides_quotient, lemma_divides_transitive,
    lemma_divisor_bound, lemma_euclid, lemma_factor_divides, lemma_isqrt_exists,
    lemma_power_positive, lemma_prime_and_power, lemma_prime_by_trial, lemma_prime_divides_prime,
    power,
};
use crate::factor::{
    factor_items, factor_step, factorization, finished, initial_state, large_residue,
    lemma_next_prime_in, lemma_quotient_smaller, lemma_step_progress, lemma_strip, multiplicity,
    next_prime_in, prime_powers_from, product_of, sieve_out, smooth_part, steps_left, strip,
    unit_pair,
    FactorState,
};
use vstd::prelude::*;

verus! {

/// What holds of a factorisation at every step: the residue is positive and
/// below the square of the first number beyond the limit, and no prime below
/// the cursor divides it.
pub open spec fn sifted(s: FactorState) -> bool {
    &&& s.residue >= 1
    &&& s.residue < (s.limit + 1) * (s.limit + 1)
    &&& forall|q: nat| is_prime(q) && q < s.cursor ==> !#[trigger] divides(q, s.residue)
}

/// The factorisation of a positive number starts sifted.
pub proof fn lemma_initial_sifted(n: nat)
    requires
        n >= 1,
    ensures
        sifted(initial_state(n)),
{
    lemma_isqrt_exists(n);
}

/// A step keeps a factorisation sifted.
pub proof fn lemma_step_sifted(s: FactorState)
    requires
        sifted(s),
    ensures
        sifted(factor_step(s).0),
{
    lemma_next_prime_in(s.cursor, s.limit);
    if !s.done {
        if let Some(p) = next_prime_in(s.cursor, s.limit) {
            if p * p <= s.residue {
                let next = factor_step(s).0;
                lemma_strip(s.residue, p);
                assert forall|q: nat| is_prime(q) && q < next.cursor implies !#[trigger] divides(
                    q,
                    next.residue,
                ) by {
                    if q < p {
                        assert(!is_prime(q) || q < s.cursor);
                        assert(!divides(q, s.residue));
                    }
                    if divides(q, next.residue) {
                        lemma_divides_transitive(q, next.residue, s.residue);
                    }
                }
            }
        }
    }
}

/// The product of the prime powers that are still to come is the residue.
pub proof fn lemma_product_is_residue(s: FactorState)
    requires
        s.residue >= 1,
        !s.done,
    ensures
        product_of(factor_items(s)) == s.residue,
    decreases steps_left(s),
{
    let (next, out) = factor_step(s);
    lemma_step_progress(s);
    assert(product_of(Seq::<(nat, nat)>::empty()) == 1);
    assert(factor_items(finished(s)) =~= Seq::<(nat, nat)>::empty());
    match out {
        None => {},
        Some(None) => {
            lemma_product_is_residue(next);
        },
        Some(Some(pair)) => {
            let rest = factor_items(next);
            let all = seq![pair] + rest;
            assert(all.first() == pair);
            assert(all.drop_first() =~= rest);
            assert(power(s.residue, 1) == s.residue) by {
                assert(power(s.residue, 0) == 1);
                assert(power(s.residue, 1) == s.residue * power(s.residue, 0));
            }
            if next.done {
                assert(product_of(all) == s.residue);
            } else {
                let p = next_prime_in(s.cursor, s.limit).unwrap();
                lemma_next_prime_in(s.cursor, s.limit);
                lemma_strip(s.residue, p);
                lemma_product_is_residue(next);
            }
        },
    }
}

/// The product of the prime powers in the factorisation of `n` is `n`.
pub proof fn lemma_factorization_product(n: nat)
    requires
        n >= 1,
    ensures
        product_of(factorization(n)) == n,
{
    lemma_product_is_residue(initial_state(n));
}

/// A residue above one is prime where no prime up to the limit divides it and
/// it lies below the square of the first number beyond the limit.
proof fn lemma_residue_is_prime(s: FactorState, bound: nat)
    requires
        sifted(s),
        s.residue >= 2,
        forall|q: nat| s.cursor <= q < bound ==> !#[trigger] is_prime(q),
        s.residue < bound * bound,
    ensures
        is_prime(s.residue),
        s.residue >= s.cursor,
{
    assert forall|q: nat| is_prime(q) && q * q <= s.residue implies !#[trigger] divides(
        q,
        s.residue,
    ) by {
        if q >= bound {
            assert(q * q >= bound * bound) by (nonlinear_arith)
                requires
                    q >= bound,
            ;
        }
        assert(q < s.cursor);
    }
    lemma_prime_by_trial(s.residue);
    assert(divides(s.residue, s.residue)) by {
        lemma_factor_divides(s.residue, 1);
        assert(s.residue * 1 == s.residue);
    }
}

/// What a sifted factorisation still emits are powers of primes from the
/// cursor on, in ascending order, closed by the unit pair at most.
pub proof fn lemma_items_are_prime_powers(s: FactorState)
    requires
        sifted(s),
        !s.done,
    ensures
        prime_powers_from(factor_items(s), s.cursor),
    decreases steps_left(s),
{
    let (next, out) = factor_step(s);
    lemma_step_progress(s);
    lemma_step_sifted(s);
    lemma_next_prime_in(s.cursor, s.limit);
    assert(factor_items(finished(s)) =~= Seq::<(nat, nat)>::empty());
    match out {
        None => {},
        Some(None) => {
            lemma_items_are_prime_powers(next);
        },
        Some(Some(pair)) => {
            let rest = factor_items(next);
            let all = seq![pair] + rest;
            if next.done {
                assert(all =~= seq![pair]);
                if s.residue >= 2 {
                    match next_prime_in(s.cursor, s.limit) {
                        None => {
                            lemma_residue_is_prime(s, s.limit + 1);
                        },
                        Some(p) => {
                            lemma_residue_is_prime(s, p);
                        },
                    }
                }
            } else {
                let p = next_prime_in(s.cursor, s.limit).unwrap();
                lemma_strip(s.residue, p);
                lemma_items_are_prime_powers(next);
                assert forall|i: int| 0 <= i < all.len() implies (#[trigger] all[i]).1 >= 1 by {
                    if i > 0 {
                        assert(all[i] == rest[i - 1]);
                    }
                }
                assert forall|i: int| 0 <= i < all.len() implies {
                    ||| is_prime((#[trigger] all[i]).0) && all[i].0 >= s.cursor
                    ||| i == all.len() - 1 && all[i] == unit_pair()
                } by {
                    if i > 0 {
                        assert(all[i] == rest[i - 1]);
                    }
                }
                assert forall|i: int, j: int| 0 <= i < j < all.len() implies {
                    ||| (#[trigger] all[i]).0 < (#[trigger] all[j]).0
                    ||| j == all.len() - 1 && all[j] == unit_pair()
                } by {
                    assert(all[j] == rest[j - 1]);
                    if i > 0 {
                        assert(all[i] == rest[i - 1]);
                    }
                }
            }
        },
    }
}

/// The factorisation of `n` is a sequence of powers of primes in ascending
/// order, each with a multiplicity of one or more, closed by the unit pair at
/// most.
pub proof fn lemma_factorization_prime_powers(n: nat)
    requires
        n >= 1,
    ensures
        prime_powers_from(factorization(n), 0),
{
    lemma_initial_sifted(n);
    lemma_items_are_prime_powers(initial_state(n));
}

/// A factor that a prime does not divide adds nothing to the prime's multiplicity.
pub proof fn lemma_multiplicity_skips(a: nat, r: nat, p: nat)
    requires
        is_prime(p),
        a >= 1,
        r >= 1,
        !divides(p, a),
    ensures
        multiplicity(a * r, p) == multiplicity(r, p),
    decreases r,
{
    assert(a * r >= 1) by (nonlinear_arith)
        requires
            a >= 1,
            r >= 1,
    ;
    if divides(p, a * r) {
        lemma_euclid(p, a, r);
        lemma_quotient_smaller(r, p);
        lemma_divides_quotient(p, r);
        lemma_divides_quotient(p, a * r);
        assert((a * r) / p == a * (r / p)) by (nonlinear_arith)
            requires
                r == p * (r / p),
                a * r == p * ((a * r) / p),
                p >= 2,
        ;
        lemma_multiplicity_skips(a, r / p, p);
    } else {
        if divides(p, r) {
            lemma_divides_multiple(p, r, a);
            assert(r * a == a * r) by (nonlinear_arith);
        }
    }
}

/// The multiplicity of `p` in its `e`-th power times a number that it does
/// not divide is `e`.
pub proof fn lemma_multiplicity_of_power(p: nat, e: nat, r: nat)
    requires
        p >= 2,
        r >= 1,
        !divides(p, r),
    ensures
        multiplicity(power(p, e) * r, p) == e,
    decreases e,
{
    if e == 0 {
        assert(power(p, 0) * r == r) by (nonlinear_arith)
            requires
                power(p, 0) == 1,
        ;
    } else {
        let lower = power(p, (e - 1) as nat) * r;
        lemma_multiplicity_of_power(p, (e - 1) as nat, r);
        lemma_power_positive(p, (e - 1) as nat);
        assert(power(p, e) * r == p * lower && lower >= 1) by (nonlinear_arith)
            requires
                power(p, e) == p * power(p, (e - 1) as nat),
                lower == power(p, (e - 1) as nat) * r,
                power(p, (e - 1) as nat) >= 1,
                r >= 1,
        ;
        lemma_factor_divides(p, lower);
        assert((p * lower) / p == lower) by (nonlinear_arith)
            requires
                p >= 2,
        ;
    }
}

/// Behind the first of a sequence of prime powers stand prime powers of
/// larger primes, and the product of such a sequence is positive.
pub proof fn lemma_prime_powers_rest(items: Seq<(nat, nat)>, from: nat)
    requires
        prime_powers_from(items, from),
    ensures
        items.len() > 0 ==> prime_powers_from(items.drop_first(), items.first().0 + 1),
        product_of(items) >= 1,
    decreases items.len(),
{
    if items.len() > 0 {
        let rest = items.drop_first();
        assert forall|i: int| 0 <= i < rest.len() implies {
            &&& (#[trigger] rest[i]).1 >= 1
            &&& {
                ||| is_prime(rest[i].0) && rest[i].0 >= items.first().0 + 1
                ||| i == rest.len() - 1 && rest[i] == unit_pair()
            }
        } by {
            assert(rest[i] == items[i + 1]);
            assert(items[0] == items.first());
        }
        assert forall|i: int, j: int| 0 <= i < j < rest.len() implies {
            ||| (#[trigger] rest[i]).0 < (#[trigger] rest[j]).0
            ||| j == rest.len() - 1 && rest[j] == unit_pair()
        } by {
            assert(rest[i] == items[i + 1]);
            assert(rest[j] == items[j + 1]);
        }
        lemma_prime_powers_rest(rest, items.first().0 + 1);
        assert(items[0] == items.first());
        lemma_power_positive(items.first().0, items.first().1);
        assert(power(items.first().0, items.first().1) * product_of(rest) >= 1)
            by (nonlinear_arith)
            requires
                power(items.first().0, items.first().1) >= 1,
                product_of(rest) >= 1,
        ;
    }
}

/// A prime that divides the product of a sequence of prime powers is the
/// prime of one of them.
pub proof fn lemma_prime_divisor_is_listed(items: Seq<(nat, nat)>, from: nat, q: nat) -> (k: int)
    requires
        prime_powers_from(items, from),
        is_prime(q),
        divides(q, product_of(items)),
    ensures
        0 <= k < items.len(),
        items[k].0 == q,
    decreases items.len(),
{
    if items.len() == 0 {
        lemma_divisor_bound(q, 1);
        0
    } else {
        let (p, e) = items.first();
        let rest = items.drop_first();
        assert(items[0] == items.first());
        lemma_prime_powers_rest(items, from);
        lemma_euclid(q, power(p, e), product_of(rest));
        if divides(q, power(p, e)) {
            if q != p {
                lemma_prime_and_power(q, p, e);
            }
            0
        } else {
            let at = lemma_prime_divisor_is_listed(rest, p + 1, q);
            assert(rest[at] == items[at + 1]);
            at + 1
        }
    }
}

/// In a sequence of prime powers, each prime stands with its multiplicity in
/// the product of the sequence.
pub proof fn lemma_listed_multiplicity(items: Seq<(nat, nat)>, from: nat, k: int)
    requires
        prime_powers_from(items, from),
        0 <= k < items.len(),
        is_prime(items[k].0),
    ensures
        multiplicity(product_of(items), items[k].0) == items[k].1,
        divides(items[k].0, product_of(items)),
    decreases items.len(),
{
    let (p, e) = items.first();
    let rest = items.drop_first();
    let q = items[k].0;
    assert(items[0] == items.first());
    lemma_prime_powers_rest(items, from);
    lemma_prime_powers_rest(rest, p + 1);
    lemma_power_positive(p, e);
    if k == 0 {
        if divides(p, product_of(rest)) {
            let at = lemma_prime_divisor_is_listed(rest, p + 1, p);
            assert(rest[at].0 >= p + 1 || rest[at] == unit_pair());
        }
        lemma_multiplicity_of_power(p, e, product_of(rest));
        lemma_divides_multiple(p, power(p, e), product_of(rest));
    } else {
        assert(rest[k - 1] == items[k]);
        assert(items[0].0 < items[k].0);
        lemma_listed_multiplicity(rest, p + 1, k - 1);
        lemma_prime_and_power(q, p, e);
        lemma_multiplicity_skips(power(p, e), product_of(rest), q);
        lemma_divides_multiple(q, product_of(rest), power(p, e));
        assert(product_of(rest) * power(p, e) == power(p, e) * product_of(rest))
            by (nonlinear_arith);
    }
}

/// The factorisation of `n` lists exactly the primes that divide `n`, each
/// with the number of times that it divides `n`.
pub proof fn lemma_factorization_exact(n: nat, p: nat)
    requires
        n >= 1,
        is_prime(p),
    ensures
        divides(p, n) <==> exists|k: int|
            0 <= k < factorization(n).len() && (#[trigger] factorization(n)[k]).0 == p,
        forall|k: int|
            0 <= k < factorization(n).len() && (#[trigger] factorization(n)[k]).0 == p
                ==> factorization(n)[k].1 == multiplicity(n, p),
{
    let items = factorization(n);
    lemma_factorization_product(n);
    lemma_factorization_prime_powers(n);
    if divides(p, n) {
        let k = lemma_prime_divisor_is_listed(items, 0, p);
        assert(items[k].0 == p);
    }
    assert forall|k: int| 0 <= k < items.len() && (#[trigger] items[k]).0 == p implies items[k].1
        == multiplicity(n, p) && divides(p, n) by {
        lemma_listed_multiplicity(items, 0, k);
    }
}

/// Dividing out the primes of a range can be done in two parts.
pub proof fn lemma_sieve_out_split(x: nat, from: nat, middle: nat, to: nat)
    requires
        from <= middle <= to,
    ensures
        sieve_out(x, from, to) == sieve_out(sieve_out(x, from, middle), middle, to),
    decreases to,
{
    if to > middle {
        lemma_sieve_out_split(x, from, middle, (to - 1) as nat);
    }
}

/// A range without a prime divides nothing out.
pub proof fn lemma_sieve_out_no_primes(x: nat, from: nat, to: nat)
    requires
        forall|q: nat| from <= q < to ==> !#[trigger] is_prime(q),
    ensures
        sieve_out(x, from, to) == x,
    decreases to,
{
    if to > from {
        lemma_sieve_out_no_primes(x, from, (to - 1) as nat);
        assert(!is_prime((to - 1) as nat));
    }
}

/// Nothing can be divided out of one.
pub proof fn lemma_sieve_out_of_one(from: nat, to: nat)
    ensures
        sieve_out(1, from, to) == 1,
    decreases to,
{
    if to > from {
        lemma_sieve_out_of_one(from, (to - 1) as nat);
        let q = (to - 1) as nat;
        if is_prime(q) {
            assert(1nat % q == 1) by (nonlinear_arith)
                requires
                    q >= 2,
            ;
        }
    }
}

/// The primes below a prime leave it whole.
pub proof fn lemma_sieve_out_below_prime(r: nat, from: nat, to: nat)
    requires
        is_prime(r),
        to <= r,
    ensures
        sieve_out(r, from, to) == r,
    decreases to,
{
    if to > from {
        lemma_sieve_out_below_prime(r, from, (to - 1) as nat);
        let q = (to - 1) as nat;
        if is_prime(q) && divides(q, r) {
            lemma_prime_divides_prime(q, r);
        }
    }
}

/// A range of primes that holds a prime leaves nothing of it but one.
pub proof fn lemma_sieve_out_own_prime(r: nat, from: nat, to: nat)
    requires
        is_prime(r),
        from <= r < to,
    ensures
        sieve_out(r, from, to) == 1,
{
    lemma_sieve_out_split(r, from, r, to);
    lemma_sieve_out_below_prime(r, from, r);
    lemma_sieve_out_split(r, r, r + 1, to);
    assert(sieve_out(r, r, r + 1) == 1) by {
        assert(sieve_out(r, r, r) == r);
        lemma_factor_divides(r, 1);
        assert(r * 1 == r);
        assert(r / r == 1) by (nonlinear_arith)
            requires
                r >= 2,
        ;
        assert(1nat % r == 1) by (nonlinear_arith)
            requires
                r >= 2,
        ;
        assert(strip(1, r) == 1);
        assert(strip(r, r) == strip(r / r, r));
    }
    lemma_sieve_out_of_one(r + 1, to);
}

/// Where the primes up to the limit leave more than one of `n`, and the
/// residue is what the primes below the cursor leave of `n`, the last pair
/// still to come is what the primes up to the limit leave, with multiplicity
/// one.
pub proof fn lemma_last_item(s: FactorState, n: nat)
    requires
        sifted(s),
        !s.done,
        s.cursor <= s.limit + 1,
        s.residue == sieve_out(n, 0, s.cursor),
        sieve_out(n, 0, s.limit + 1) > 1,
    ensures
        factor_items(s).len() > 0,
        factor_items(s).last() == (sieve_out(n, 0, s.limit + 1), 1nat),
    decreases steps_left(s),
{
    let (next, out) = factor_step(s);
    let left = sieve_out(n, 0, s.limit + 1);
    lemma_step_progress(s);
    lemma_step_sifted(s);
    lemma_next_prime_in(s.cursor, s.limit);
    lemma_sieve_out_split(n, 0, s.cursor, s.limit + 1);
    assert(factor_items(finished(s)) =~= Seq::<(nat, nat)>::empty());
    match next_prime_in(s.cursor, s.limit) {
        None => {
            lemma_sieve_out_no_primes(s.residue, s.cursor, s.limit + 1);
            assert(factor_items(s) =~= seq![(s.residue, 1nat)]);
        },
        Some(p) => {
            if p * p > s.residue {
                if s.residue == 1 {
                    lemma_sieve_out_of_one(s.cursor, s.limit + 1);
                } else {
                    lemma_residue_is_prime(s, p);
                    if s.residue <= s.limit {
                        lemma_sieve_out_own_prime(s.residue, s.cursor, s.limit + 1);
                    } else {
                        lemma_sieve_out_below_prime(s.residue, s.cursor, s.limit + 1);
                    }
                }
                assert(factor_items(s) =~= seq![(s.residue, 1nat)]);
            } else {
                lemma_sieve_out_split(n, 0, s.cursor, p + 1);
                lemma_sieve_out_no_primes(s.residue, s.cursor, p);
                assert(sieve_out(s.residue, s.cursor, p + 1) == strip(
                    sieve_out(s.residue, s.cursor, p),
                    p,
                ));
                assert(next.residue == strip(s.residue, p));
                lemma_last_item(next, n);
                let rest = factor_items(next);
                if let Some(Some(pair)) = out {
                    assert((seq![pair] + rest).last() == rest.last());
                }
            }
        },
    }
}

/// Where the primes up to the square root of `n` leave more than one of `n`,
/// the factorisation of `n` ends with what they leave, with multiplicity one,
/// and what they leave is prime.
pub proof fn lemma_last_factor(n: nat)
    requires
        n >= 1,
        large_residue(n) > 1,
    ensures
        factorization(n).len() > 0,
        factorization(n).last() == (large_residue(n), 1nat),
        is_prime(large_residue(n)),
{
    lemma_initial_sifted(n);
    lemma_last_item(initial_state(n), n);
    lemma_factorization_prime_powers(n);
    let items = factorization(n);
    assert(items[items.len() - 1] == items.last());
}

/// The product of the prime powers below `to` is positive, and no prime
/// from `to` on divides it.
pub proof fn lemma_smooth_part(n: nat, to: nat, q: nat)
    requires
        is_prime(q),
        q >= to,
    ensures
        smooth_part(n, to) >= 1,
        !divides(q, smooth_part(n, to)),
    decreases to,
{
    if to == 0 {
        if divides(q, 1) {
            lemma_divisor_bound(q, 1);
        }
    } else {
        let p = (to - 1) as nat;
        let below = smooth_part(n, p);
        lemma_smooth_part(n, p, q);
        if is_prime(p) {
            let e = multiplicity(n, p);
            lemma_power_positive(p, e);
            lemma_prime_and_power(q, p, e);
            assert(below * power(p, e) >= 1) by (nonlinear_arith)
                requires
                    below >= 1,
                    power(p, e) >= 1,
            ;
            if divides(q, below * power(p, e)) {
                lemma_euclid(q, below, power(p, e));
            }
        }
    }
}

/// Dividing out the primes below `to`, each as often as it divides what is
/// left, takes each out with its multiplicity in `n`: `n` is the product of
/// those prime powers and of what is left.
pub proof fn lemma_sieve_out_exact(n: nat, to: nat)
    requires
        n >= 1,
    ensures
        sieve_out(n, 0, to) >= 1,
        n == smooth_part(n, to) * sieve_out(n, 0, to),
    decreases to,
{
    if to == 0 {
        assert(1 * n == n);
    } else {
        let p = (to - 1) as nat;
        let below = smooth_part(n, p);
        let rest = sieve_out(n, 0, p);
        lemma_sieve_out_exact(n, p);
        if is_prime(p) {
            lemma_smooth_part(n, p, p);
            lemma_multiplicity_skips(below, rest, p);
            lemma_strip(rest, p);
            let e = multiplicity(n, p);
            assert(below * power(p, e) * strip(rest, p) == n) by (nonlinear_arith)
                requires
                    n == below * rest,
                    power(p, e) * strip(rest, p) == rest,
            ;
        }
    }
}

/// A number is the product of the powers of the primes up to its square
/// root, each with its multiplicity in the number, and of what those primes
/// leave of it.
pub proof fn lemma_large_residue(n: nat)
    requires
        n >= 1,
    ensures
        large_residue(n) >= 1,
        n == smooth_part(n, isqrt_of(n) + 1) * large_residue(n),
{
    lemma_sieve_out_exact(n, isqrt_of(n) + 1);
}

} // verus!
