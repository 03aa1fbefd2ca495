//! The primes in ascending order, as a producer without an end.

use crate::arith::{is_prime, lemma_primes_below_gap, primes_below};
use crate::sieve::{is_least_prime_from, no_prime_in, primes_all, primes_floor, primes_next};
use vstd::prelude::*;

verus! {

/// The sequence 2, 3, 5, 7, 11, ..., pulled one prime at a time with `next`.
pub struct UnboundedPrimes {
    inner: primal::Primes,
}

impl View for UnboundedPrimes {
    type V = nat;

    /// The number below which every prime has been produced. The primes
    /// below it are the primes produced so far.
    closed spec fn view(&self) -> nat {
        primes_floor(self.inner)
    }
}

impl UnboundedPrimes {
    /// The next prime: the least one that has not been produced yet, which is
    /// the `k`-th prime after `k` primes have been produced. The producer ends
    /// only where no prime is left within the machine's integers.
    pub fn next(&mut self) -> (r: Option<usize>)
        ensures
            match r {
                Some(p) => {
                    &&& is_least_prime_from(old(self)@, p as nat)
                    &&& final(self)@ == p + 1
                    &&& primes_below(p as nat) == primes_below(old(self)@)
                    &&& primes_below(final(self)@) == primes_below(old(self)@) + 1
                },
                None => no_prime_in(old(self)@, usize::MAX as nat),
            },
    {
        let ghost floor = self@;
        let r = primes_next(&mut self.inner);
        proof {
            if let Some(p) = r {
                lemma_primes_below_gap(floor, p as nat);
                assert(is_prime(p as nat));
            }
        }
        r
    }
}

/// The producer of all primes, before its first item.
pub fn primes_unbounded() -> (primes: UnboundedPrimes)
    ensures
        primes@ == 0,
        primes_below(primes@) == 0,
{
    UnboundedPrimes { inner: primes_all() }
}

} // verus!
