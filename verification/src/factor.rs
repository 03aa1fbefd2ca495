//! Prime factorisation by trial division, as a producer that is pulled one
//! step at a time.
//!
//! A step either emits a pair of a prime and its multiplicity, or emits
//! nothing and only shows that the producer is still at work, or ends the
//! sequence. The candidates are the primes up to the square root of the
//! number to factor, taken in ascending order from a sieve.

use crate::arith::{divides, is_prime, isqrt, isqrt_of, lemma_divides_quotient, lemma_factor_divides, power};
use crate::factor_theory::{
    lemma_factorization_prime_powers, lemma_factorization_product, lemma_last_factor,
};
use crate::bridge::{plan_step, Action};
use crate::model::{
    drained, items_of, lemma_drained_receives_all, lemma_items_of_concat, lemma_items_of_single,
    run, start, Turn,
};
use crate::sieve::{is_least_prime_from, no_prime_in, sieve_new, sieve_next_prime, sieve_upper_bound};
use vstd::prelude::*;

verus! {

/// The least prime in `from ..= to`, if there is one.
pub open spec fn next_prime_in(from: nat, to: nat) -> Option<nat>
    decreases to + 1 - from,
{
    if from > to {
        None
    } else if is_prime(from) {
        Some(from)
    } else {
        next_prime_in(from + 1, to)
    }
}

/// How often `p` divides `n`.
pub open spec fn multiplicity(n: nat, p: nat) -> nat
    decreases n,
{
    if p >= 2 && n >= 1 && n % p == 0 {
        proof {
            lemma_quotient_smaller(n, p);
        }
        1 + multiplicity(n / p, p)
    } else {
        0
    }
}

/// What is left of `n` once every factor `p` is divided out.
pub open spec fn strip(n: nat, p: nat) -> nat
    decreases n,
{
    if p >= 2 && n >= 1 && n % p == 0 {
        proof {
            lemma_quotient_smaller(n, p);
        }
        strip(n / p, p)
    } else {
        n
    }
}

/// Dividing a positive number by two or more makes it smaller, and an exact
/// quotient stays positive.
pub proof fn lemma_quotient_smaller(n: nat, p: nat)
    requires
        n >= 1,
        p >= 2,
    ensures
        n / p < n,
        n % p == 0 ==> n / p >= 1,
{
    assert(n / p < n && (n % p == 0 ==> n / p >= 1)) by (nonlinear_arith)
        requires
            n >= 1,
            p >= 2,
    ;
}

/// The state of a factorisation between two steps.
pub struct FactorState {
    /// What is left to factor.
    pub residue: nat,
    /// The largest candidate to try: the square root of the number first given.
    pub limit: nat,
    /// Every candidate below the cursor has been tried.
    pub cursor: nat,
    /// The sequence has ended.
    pub done: bool,
}

/// What one step emits: `None` where the sequence has ended, `Some(None)`
/// where the step gives no item, `Some(Some((p, i)))` for the factor `p` with
/// multiplicity `i`.
pub type Emission = Option<Option<(nat, nat)>>;

/// The state in which the factorisation of `n` starts.
pub open spec fn initial_state(n: nat) -> FactorState {
    FactorState { residue: n, limit: isqrt_of(n), cursor: 0, done: false }
}

/// The state after the sequence has ended.
pub open spec fn finished(s: FactorState) -> FactorState {
    FactorState { done: true, ..s }
}

/// One step of the factorisation: the state after it, and what it emits.
///
/// Without a candidate left, the residue is emitted with multiplicity one if
/// it exceeds one, and the sequence ends. With the candidate `p`: if `p * p`
/// exceeds the residue, the residue is emitted with multiplicity one and the
/// sequence ends; if `p` divides the residue, it is divided out and emitted
/// with its multiplicity; otherwise the step emits nothing. In the last two
/// cases the cursor moves past `p`.
pub open spec fn factor_step(s: FactorState) -> (FactorState, Emission) {
    if s.done {
        (s, None)
    } else {
        match next_prime_in(s.cursor, s.limit) {
            None => if s.residue > 1 {
                (finished(s), Some(Some((s.residue, 1nat))))
            } else {
                (finished(s), None)
            },
            Some(p) => if p * p > s.residue {
                (finished(s), Some(Some((s.residue, 1nat))))
            } else if s.residue % p == 0 {
                (
                    FactorState { residue: strip(s.residue, p), cursor: p + 1, ..s },
                    Some(Some((p, multiplicity(s.residue, p)))),
                )
            } else {
                (FactorState { cursor: p + 1, ..s }, Some(None))
            },
        }
    }
}

/// A bound on the number of steps that a state can still take.
pub open spec fn steps_left(s: FactorState) -> nat {
    if s.done {
        0
    } else if s.cursor <= s.limit {
        (s.limit - s.cursor + 2) as nat
    } else {
        1
    }
}

/// What `next_prime_in` finds lies in the range that it was asked for, is
/// prime, and is the first prime there; where it finds nothing, there is none.
pub proof fn lemma_next_prime_in(from: nat, to: nat)
    ensures
        match next_prime_in(from, to) {
            Some(p) => p <= to && is_least_prime_from(from, p),
            None => no_prime_in(from, to),
        },
    decreases to + 1 - from,
{
    if from <= to && !is_prime(from) {
        lemma_next_prime_in(from + 1, to);
    }
}

/// The least prime at or above `from` is what `next_prime_in` finds, as far
/// as it lies within the range.
pub proof fn lemma_least_prime_is_next(from: nat, to: nat, p: nat)
    requires
        is_least_prime_from(from, p),
    ensures
        next_prime_in(from, to) == (if p <= to {
            Some(p)
        } else {
            None::<nat>
        }),
    decreases to + 1 - from,
{
    if from <= to && from != p {
        assert(!is_prime(from));
        lemma_least_prime_is_next(from + 1, to, p);
    }
}

/// Where a range holds no prime, `next_prime_in` finds none in any part of it.
pub proof fn lemma_no_prime_is_none(from: nat, to: nat, bound: nat)
    requires
        no_prime_in(from, bound),
        to <= bound,
    ensures
        next_prime_in(from, to) == None::<nat>,
    decreases to + 1 - from,
{
    if from <= to {
        assert(!is_prime(from));
        lemma_no_prime_is_none(from + 1, to, bound);
    }
}

/// Every step that does not end the sequence brings the end nearer: it moves
/// the cursor forward, and never lets the residue grow. Once the sequence has
/// ended, a step changes nothing and emits nothing.
pub proof fn lemma_step_progress(s: FactorState)
    ensures
        factor_step(s).1 is Some ==> steps_left(factor_step(s).0) < steps_left(s),
        factor_step(s).1 is None ==> factor_step(s).0.done,
        factor_step(s).0.done || factor_step(s).0.cursor > s.cursor,
        factor_step(s).0.limit == s.limit,
        s.residue >= 1 ==> 1 <= factor_step(s).0.residue <= s.residue,
        s.done ==> factor_step(s) == (s, None::<Option<(nat, nat)>>),
{
    lemma_next_prime_in(s.cursor, s.limit);
    if !s.done && s.residue >= 1 {
        if let Some(p) = next_prime_in(s.cursor, s.limit) {
            lemma_strip(s.residue, p);
        }
    }
}

/// The items that a state emits from here to the end of the sequence, in
/// order, without the steps that emit nothing.
pub open spec fn factor_items(s: FactorState) -> Seq<(nat, nat)>
    decreases steps_left(s),
{
    let (next, out) = factor_step(s);
    match out {
        None => Seq::empty(),
        Some(None) => {
            proof {
                lemma_step_progress(s);
            }
            factor_items(next)
        },
        Some(Some(pair)) => {
            proof {
                lemma_step_progress(s);
            }
            seq![pair] + factor_items(next)
        },
    }
}

/// The whole sequence that the factorisation of `n` emits.
pub open spec fn factorization(n: nat) -> Seq<(nat, nat)> {
    factor_items(initial_state(n))
}

/// An emission of the producer, read as an emission of the model.
pub open spec fn emitted(r: Option<Option<(usize, usize)>>) -> Emission {
    match r {
        None => None,
        Some(None) => Some(None),
        Some(Some((p, i))) => Some(Some((p as nat, i as nat))),
    }
}

/// A sequence of emitted pairs, read as pairs of the model.
pub open spec fn pairs_of(items: Seq<(usize, usize)>) -> Seq<(nat, nat)> {
    items.map_values(|pair: (usize, usize)| (pair.0 as nat, pair.1 as nat))
}

/// The factorisation of one number, pulled step by step with `next`.
///
/// The producer owns the sieve of its candidates and a cursor into it, and
/// looks the next candidate up from the cursor at every step.
pub struct PrimeFactor {
    n: usize,
    limit: usize,
    cursor: usize,
    done: bool,
    sieve: primal::Sieve,
}

impl View for PrimeFactor {
    type V = FactorState;

    closed spec fn view(&self) -> FactorState {
        FactorState {
            residue: self.n as nat,
            limit: self.limit as nat,
            cursor: self.cursor as nat,
            done: self.done,
        }
    }
}

impl PrimeFactor {
    #[verifier::type_invariant]
    spec fn well_formed(self) -> bool {
        &&& self.n >= 1
        &&& self.limit * self.limit <= usize::MAX
        &&& self.limit < sieve_upper_bound(self.sieve)
        &&& self.cursor <= self.limit + 1
    }

    /// Starts the factorisation of `n`: sieves the primes up to the square
    /// root of `n`, and puts the cursor before the first of them. The sieve is
    /// made for one number more than the square root, so that every lookup
    /// from the cursor stays strictly below the end of the sieve.
    pub fn new(n: usize) -> (producer: PrimeFactor)
        requires
            n >= 1,
        ensures
            producer@ == initial_state(n as nat),
    {
        let limit: usize = isqrt(n);
        assert(limit < usize::MAX && limit < 0x1_0000_0000) by (nonlinear_arith)
            requires
                limit * limit <= n,
                n <= usize::MAX,
                0xffff_ffff <= usize::MAX <= 0xffff_ffff_ffff_ffff,
        ;
        let sieve = sieve_new(limit + 1);
        PrimeFactor { n, limit, cursor: 0, done: false, sieve }
    }

    /// The next candidate: the least prime from the cursor up to the limit.
    fn candidate(&self) -> (r: Option<usize>)
        ensures
            match r {
                Some(p) => next_prime_in(self@.cursor, self@.limit) == Some(p as nat),
                None => next_prime_in(self@.cursor, self@.limit) == None::<nat>,
            },
            r matches Some(p) ==> self.cursor <= p <= self.limit && is_prime(p as nat),
    {
        proof {
            use_type_invariant(self);
        }
        if self.cursor > self.limit {
            return None;
        }
        match sieve_next_prime(&self.sieve, self.cursor) {
            Some(p) => {
                proof {
                    lemma_least_prime_is_next(self.cursor as nat, self.limit as nat, p as nat);
                }
                if p <= self.limit {
                    Some(p)
                } else {
                    None
                }
            },
            None => {
                proof {
                    lemma_no_prime_is_none(
                        self.cursor as nat,
                        self.limit as nat,
                        sieve_upper_bound(self.sieve),
                    );
                }
                None
            },
        }
    }

    /// Takes one step: `None` once the sequence has ended, `Some(None)` for a
    /// step that gives no item, `Some(Some((p, i)))` for the factor `p` with
    /// multiplicity `i`.
    pub fn next(&mut self) -> (r: Option<Option<(usize, usize)>>)
        ensures
            final(self)@ == factor_step(old(self)@).0,
            emitted(r) == factor_step(old(self)@).1,
    {
        proof {
            use_type_invariant(&*self);
        }
        if self.done {
            return None;
        }
        match self.candidate() {
            None => {
                self.done = true;
                if self.n > 1 {
                    Some(Some((self.n, 1)))
                } else {
                    None
                }
            },
            Some(p) => {
                assert(p * p <= usize::MAX && p >= 2 && p < usize::MAX) by (nonlinear_arith)
                    requires
                        p <= self.limit,
                        self.limit * self.limit <= usize::MAX,
                        is_prime(p as nat),
                ;
                if p * p > self.n {
                    self.done = true;
                    Some(Some((self.n, 1)))
                } else if self.n % p == 0 {
                    let mut rest: usize = self.n;
                    let mut i: usize = 0;
                    while rest % p == 0
                        invariant
                            p >= 2,
                            rest >= 1,
                            i + rest <= self.n,
                            i + multiplicity(rest as nat, p as nat) == multiplicity(
                                self.n as nat,
                                p as nat,
                            ),
                            strip(rest as nat, p as nat) == strip(self.n as nat, p as nat),
                        decreases rest,
                    {
                        proof {
                            lemma_quotient_smaller(rest as nat, p as nat);
                        }
                        i += 1;
                        rest /= p;
                    }
                    self.n = rest;
                    self.cursor = p + 1;
                    Some(Some((p, i)))
                } else {
                    self.cursor = p + 1;
                    Some(None)
                }
            },
        }
    }
}

/// The steps that a state takes from here to the end of the sequence, in
/// order: an item, or nothing for a step that emits none.
pub open spec fn factor_steps(s: FactorState) -> Seq<Option<(nat, nat)>>
    decreases steps_left(s),
{
    let (next, out) = factor_step(s);
    match out {
        None => Seq::empty(),
        Some(step) => {
            proof {
                lemma_step_progress(s);
            }
            seq![step] + factor_steps(next)
        },
    }
}

/// The items among the steps of a state are the items that it emits.
pub proof fn lemma_items_of_factor_steps(s: FactorState)
    ensures
        items_of(factor_steps(s)) == factor_items(s),
    decreases steps_left(s),
{
    let (next, out) = factor_step(s);
    match out {
        None => {},
        Some(step) => {
            lemma_step_progress(s);
            lemma_items_of_factor_steps(next);
            lemma_items_of_concat(seq![step], factor_steps(next));
            lemma_items_of_single(step);
            if step is None {
                assert(items_of(seq![step]) + factor_items(next) =~= factor_items(next));
            }
        },
    }
}

/// A consumer that drains a bridge over the factorisation of `n` receives the
/// factorisation of `n`: the pairs in the order in which they were found, and
/// no trace of the steps that found none.
pub proof fn lemma_bridged_factorization(n: nat, capacity: nat, schedule: Seq<Turn>)
    requires
        n >= 1,
        capacity >= 1,
        drained(run(start(factor_steps(initial_state(n)), capacity), schedule)),
    ensures
        run(start(factor_steps(initial_state(n)), capacity), schedule).received == factorization(n),
{
    lemma_drained_receives_all(factor_steps(initial_state(n)), capacity, schedule);
    lemma_items_of_factor_steps(initial_state(n));
}

/// Dividing every factor `p` out of `n` splits `n` into a power of `p` and a
/// rest that `p` does not divide.
pub proof fn lemma_strip(n: nat, p: nat)
    requires
        n >= 1,
        p >= 2,
    ensures
        power(p, multiplicity(n, p)) * strip(n, p) == n,
        1 <= strip(n, p) <= n,
        !divides(p, strip(n, p)),
        divides(strip(n, p), n),
        n % p == 0 ==> multiplicity(n, p) >= 1,
    decreases n,
{
    if n % p == 0 {
        lemma_quotient_smaller(n, p);
        lemma_strip(n / p, p);
        lemma_divides_quotient(p, n);
        let m = multiplicity(n / p, p);
        let rest = strip(n / p, p);
        assert(power(p, m + 1) == p * power(p, m));
        assert(p * power(p, m) * rest == n) by (nonlinear_arith)
            requires
                power(p, m) * rest == n / p,
                n == p * (n / p),
        ;
    } else {
        assert(power(p, 0) == 1);
        assert(1 * n == n);
    }
    lemma_factor_divides(strip(n, p), power(p, multiplicity(n, p)));
    assert(strip(n, p) * power(p, multiplicity(n, p)) == power(p, multiplicity(n, p)) * strip(
        n,
        p,
    )) by (nonlinear_arith);
    assert(strip(n, p) <= n) by (nonlinear_arith)
        requires
            power(p, multiplicity(n, p)) * strip(n, p) == n,
            n >= 1,
    ;
}

/// `x` with every prime in `from .. to` divided out as often as it divides,
/// the primes taken in ascending order.
pub open spec fn sieve_out(x: nat, from: nat, to: nat) -> nat
    decreases to,
{
    if to <= from {
        x
    } else {
        let rest = sieve_out(x, from, (to - 1) as nat);
        if is_prime((to - 1) as nat) {
            strip(rest, (to - 1) as nat)
        } else {
            rest
        }
    }
}

/// The product of the powers `p^i` over the primes `p` below `to`, with `i`
/// the multiplicity of `p` in `n`.
pub open spec fn smooth_part(n: nat, to: nat) -> nat
    decreases to,
{
    if to == 0 {
        1
    } else {
        let below = smooth_part(n, (to - 1) as nat);
        if is_prime((to - 1) as nat) {
            below * power((to - 1) as nat, multiplicity(n, (to - 1) as nat))
        } else {
            below
        }
    }
}

/// What the primes up to the square root of `n` leave of `n`.
pub open spec fn large_residue(n: nat) -> nat {
    sieve_out(n, 0, isqrt_of(n) + 1)
}

/// The product of the prime powers that a sequence of pairs stands for.
pub open spec fn product_of(items: Seq<(nat, nat)>) -> nat
    decreases items.len(),
{
    if items.len() == 0 {
        1
    } else {
        power(items.first().0, items.first().1) * product_of(items.drop_first())
    }
}

/// The pair that closes a factorisation whose residue has come down to one
/// while a candidate was left.
pub open spec fn unit_pair() -> (nat, nat) {
    (1nat, 1nat)
}

/// `items` are powers of primes from `from` on, each with a multiplicity of
/// one or more, the primes in strictly ascending order; the last pair alone
/// may be the unit pair instead.
pub open spec fn prime_powers_from(items: Seq<(nat, nat)>, from: nat) -> bool {
    &&& forall|i: int| 0 <= i < items.len() ==> (#[trigger] items[i]).1 >= 1
    &&& forall|i: int|
        0 <= i < items.len() ==> {
            ||| is_prime((#[trigger] items[i]).0) && items[i].0 >= from
            ||| i == items.len() - 1 && items[i] == unit_pair()
        }
    &&& forall|i: int, j: int|
        0 <= i < j < items.len() ==> {
            ||| (#[trigger] items[i]).0 < (#[trigger] items[j]).0
            ||| j == items.len() - 1 && items[j] == unit_pair()
        }
}

/// The factorisation of `n`, drained in place: every pair that the producer
/// emits, in order. A step that emits nothing leaves no mark.
///
/// The pairs are powers of primes in ascending order, their product is `n`,
/// and the unit pair closes them at most. Where the primes up to the square
/// root of `n` leave more than one of `n`, the last pair is what they leave,
/// with multiplicity one.
pub fn prime_factor(n: usize) -> (factors: Vec<(usize, usize)>)
    requires
        n >= 1,
    ensures
        pairs_of(factors@) == factorization(n as nat),
        product_of(pairs_of(factors@)) == n,
        prime_powers_from(pairs_of(factors@), 0),
        large_residue(n as nat) > 1 ==> factors@.len() > 0 && pairs_of(factors@).last() == (
            large_residue(n as nat),
            1nat,
        ),
{
    let mut producer = PrimeFactor::new(n);
    let mut factors: Vec<(usize, usize)> = Vec::new();
    assert(pairs_of(factors@) + factor_items(producer@) =~= factorization(n as nat));
    loop
        invariant
            pairs_of(factors@) + factor_items(producer@) == factorization(n as nat),
        ensures
            pairs_of(factors@) == factorization(n as nat),
        decreases steps_left(producer@),
    {
        let ghost before = producer@;
        let ghost found = factors@;
        let step = producer.next();
        proof {
            lemma_step_progress(before);
        }
        match plan_step(step) {
            Action::Finish => {
                assert(pairs_of(factors@) + factor_items(before) =~= pairs_of(factors@));
                break ;
            },
            Action::Probe => {},
            Action::Send(pair) => {
                factors.push(pair);
                assert(pairs_of(factors@) + factor_items(producer@) =~= pairs_of(found)
                    + factor_items(before)) by {
                    assert(pairs_of(factors@) =~= pairs_of(found).push(
                        (pair.0 as nat, pair.1 as nat),
                    ));
                }
            },
        }
    }
    proof {
        lemma_factorization_product(n as nat);
        lemma_factorization_prime_powers(n as nat);
        if large_residue(n as nat) > 1 {
            lemma_last_factor(n as nat);
        }
    }
    factors
}

} // verus!
