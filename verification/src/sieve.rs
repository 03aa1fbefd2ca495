//! The prime tables of the `primal` crate, as far as the producers use them.
//!
//! Nothing in this file is proved: each item states what `primal` documents,
//! or what its source shows, of one of its functions, and the rest of the
//! library reasons from that.

use crate::arith::is_prime;
use vstd::prelude::*;

verus! {

/// `primal::Sieve`: a table of the primes up to some bound.
#[verifier::external_type_specification]
#[verifier::external_body]
pub struct ExSieve(primal::Sieve);

/// `primal::Primes`: an iterator over all primes.
#[verifier::external_type_specification]
#[verifier::external_body]
pub struct ExPrimes(primal::Primes);

/// The largest number that a sieve knows about (`primal::Sieve::upper_bound`).
pub uninterp spec fn sieve_upper_bound(sieve: primal::Sieve) -> nat;

/// The number below which an iterator over all primes has yielded every prime.
pub uninterp spec fn primes_floor(primes: primal::Primes) -> nat;

/// `r` is the least prime at or above `from`.
pub open spec fn is_least_prime_from(from: nat, r: nat) -> bool {
    &&& from <= r
    &&& is_prime(r)
    &&& forall|q: nat| from <= q < r ==> !#[trigger] is_prime(q)
}

/// No number in `from ..= to` is prime.
pub open spec fn no_prime_in(from: nat, to: nat) -> bool {
    forall|q: nat| from <= q <= to ==> !#[trigger] is_prime(q)
}

/// `primal::Sieve::new`: a sieve that knows every prime up to `limit`, and
/// possibly some beyond it. The sieve takes memory in proportion to `limit`;
/// it is asked only for limits up to two to the power of 32.
#[verifier::external_body]
pub(crate) fn sieve_new(limit: usize) -> (sieve: primal::Sieve)
    requires
        limit <= 0x1_0000_0000,
    ensures
        sieve_upper_bound(sieve) >= limit,
{
    primal::Sieve::new(limit)
}

/// The first item of `primal::Sieve::primes_from`, which iterates in
/// ascending order over the primes from `from` (inclusive) to the end of the
/// sieve: the least prime at or above `from`, or nothing where the sieve
/// holds no such prime.
///
/// `primes_from` panics above the sieve's upper bound, and also at the upper
/// bound itself where the sieve ends with a full segment, so the lookup is
/// made strictly below the upper bound only.
#[verifier::external_body]
pub(crate) fn sieve_next_prime(sieve: &primal::Sieve, from: usize) -> (r: Option<usize>)
    requires
        from < sieve_upper_bound(*sieve),
    ensures
        match r {
            Some(p) => is_least_prime_from(from as nat, p as nat),
            None => no_prime_in(from as nat, sieve_upper_bound(*sieve)),
        },
{
    sieve.primes_from(from).next()
}

/// `primal::Primes::all`: the iterator over the sequence 2, 3, 5, 7, 11, ...
#[verifier::external_body]
pub(crate) fn primes_all() -> (primes: primal::Primes)
    ensures
        primes_floor(primes) == 0,
{
    primal::Primes::all()
}

/// `Iterator::next` of `primal::Primes`, which yields the primes in ascending
/// order, leaves none out, and goes on for as long as a prime fits the
/// machine's integers: an item is the least prime that the iterator has not
/// yet passed, and the iterator ends only where no such prime is left.
#[verifier::external_body]
pub(crate) fn primes_next(primes: &mut primal::Primes) -> (r: Option<usize>)
    ensures
        match r {
            Some(p) => is_least_prime_from(primes_floor(*old(primes)), p as nat) && primes_floor(
                *final(primes),
            ) == p + 1,
            None => no_prime_in(primes_floor(*old(primes)), usize::MAX as nat),
        },
{
    primes.next()
}

} // verus!
