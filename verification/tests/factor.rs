use prime_stream::arith::isqrt;
use prime_stream::factor::{prime_factor, PrimeFactor};

fn steps_of(n: usize) -> Vec<Option<(usize, usize)>> {
    let mut producer = PrimeFactor::new(n);
    let mut steps = Vec::new();
    while let Some(step) = producer.next() {
        steps.push(step);
        assert!(steps.len() < 1_000_000);
    }
    assert_eq!(producer.next(), None);
    steps
}

#[test]
fn factorization_of_the_examples() {
    assert_eq!(prime_factor(98_736), vec![(2, 4), (3, 1), (11, 2), (17, 1)]);
    assert_eq!(
        prime_factor(5_706_079_200_624),
        vec![(2, 4), (3, 1), (11, 2), (982_451_653, 1)]
    );
}

#[test]
fn one_has_no_factor() {
    assert_eq!(prime_factor(1), vec![]);
    assert_eq!(steps_of(1), vec![]);
}

#[test]
fn small_primes_are_their_own_factor() {
    assert_eq!(prime_factor(2), vec![(2, 1)]);
    assert_eq!(prime_factor(3), vec![(3, 1)]);
    assert_eq!(prime_factor(7), vec![(7, 1)]);
    assert_eq!(prime_factor(982_451_653), vec![(982_451_653, 1)]);
}

#[test]
fn prime_squares_stay_within_the_cursor() {
    assert_eq!(prime_factor(4), vec![(2, 2)]);
    assert_eq!(prime_factor(9), vec![(3, 2)]);
    assert_eq!(prime_factor(49), vec![(7, 2)]);
}

#[test]
fn residue_is_emitted_when_the_candidate_overtakes_it() {
    // 12 = 2^2 * 3: the candidate 3 has 3 * 3 > 3.
    assert_eq!(steps_of(12), vec![Some((2, 2)), Some((3, 1))]);
    // 16 = 2^4: the candidate 3 finds the residue 1 below its square.
    assert_eq!(steps_of(16), vec![Some((2, 4)), Some((1, 1))]);
}

#[test]
fn residue_is_emitted_when_the_cursor_runs_out() {
    // The candidates of 7 end at 2, which does not divide it.
    assert_eq!(steps_of(7), vec![None, Some((7, 1))]);
    // 8 = 2^3 leaves the residue 1 and no candidate.
    assert_eq!(steps_of(8), vec![Some((2, 3))]);
}

#[test]
fn steps_without_an_item_stand_between_the_items() {
    // 415 = 5 * 83: the candidates 2, 3 and 7 divide nothing, and 11 * 11 > 83.
    assert_eq!(steps_of(415), vec![None, None, Some((5, 1)), None, Some((83, 1))]);
    assert_eq!(prime_factor(415), vec![(5, 1), (83, 1)]);
}

#[test]
fn drained_sequence_is_the_items_of_the_steps() {
    for n in 1..2000usize {
        let items: Vec<(usize, usize)> = steps_of(n).into_iter().flatten().collect();
        assert_eq!(prime_factor(n), items);
    }
}

#[test]
fn product_of_the_factors_is_the_number() {
    for n in 1..5000usize {
        let product: usize = prime_factor(n).iter().map(|&(p, i)| p.pow(i as u32)).product();
        assert_eq!(product, n);
    }
}

#[test]
fn integer_square_root() {
    assert_eq!(isqrt(0), 0);
    assert_eq!(isqrt(1), 1);
    assert_eq!(isqrt(3), 1);
    assert_eq!(isqrt(4), 2);
    assert_eq!(isqrt(98_736), 314);
    assert_eq!(isqrt(99_999_999), 9_999);
    assert_eq!(isqrt(100_000_000), 10_000);
    assert_eq!(isqrt(5_706_079_200_624), 2_388_740);
    assert_eq!(isqrt(usize::MAX), 4_294_967_295);
}

fn is_prime(n: usize) -> bool {
    n >= 2 && (2..n).take_while(|d| d * d <= n).all(|d| n % d != 0)
}

#[test]
fn factors_are_ascending_prime_powers() {
    for n in 1..5000usize {
        let factors = prime_factor(n);
        for (k, &(p, i)) in factors.iter().enumerate() {
            assert!(i >= 1);
            let closes = k + 1 == factors.len() && (p, i) == (1, 1);
            assert!(is_prime(p) || closes, "{} in the factors of {}", p, n);
            if k > 0 && !closes {
                assert!(factors[k - 1].0 < p);
            }
        }
    }
}

#[test]
fn factors_are_the_prime_divisors_with_their_multiplicity() {
    for n in 1..3000usize {
        let factors = prime_factor(n);
        for p in (2..=n).filter(|&p| is_prime(p)) {
            let mut rest = n;
            let mut times = 0;
            while rest % p == 0 {
                rest /= p;
                times += 1;
            }
            let listed: Vec<usize> =
                factors.iter().filter(|pair| pair.0 == p).map(|pair| pair.1).collect();
            if times == 0 {
                assert!(listed.is_empty());
            } else {
                assert_eq!(listed, vec![times]);
            }
        }
    }
}

#[test]
fn the_unit_pair_closes_where_a_candidate_is_left() {
    // 36 = 2^2 * 3^2 with candidates up to 6: the candidate 5 finds the residue 1.
    assert_eq!(prime_factor(36), vec![(2, 2), (3, 2), (1, 1)]);
    // 6 = 2 * 3 with the only candidate 2: the residue 3 is emitted at the end.
    assert_eq!(prime_factor(6), vec![(2, 1), (3, 1)]);
}

#[test]
fn a_finished_producer_stays_finished() {
    let mut producer = PrimeFactor::new(10);
    assert_eq!(producer.next(), Some(Some((2, 1))));
    assert_eq!(producer.next(), Some(Some((5, 1))));
    assert_eq!(producer.next(), None);
    assert_eq!(producer.next(), None);
    assert_eq!(producer.next(), None);
}

#[test]
fn a_cursor_at_the_end_of_a_sieve_segment_finds_no_candidate() {
    // The integer square root of this prime is 1966080 = 2 * 983040, where a
    // segment of the sieve ends, and 1966079 is the last candidate.
    assert_eq!(isqrt(3_865_470_566_411), 1_966_080);
    assert_eq!(prime_factor(3_865_470_566_411), vec![(3_865_470_566_411, 1)]);
    let mut producer = PrimeFactor::new(3_865_470_566_411);
    let mut empty_steps: usize = 0;
    let mut last = None;
    while let Some(step) = producer.next() {
        match step {
            None => empty_steps += 1,
            Some(pair) => last = Some(pair),
        }
    }
    assert_eq!(last, Some((3_865_470_566_411, 1)));
    // One step without an item for each of the 146 605 primes up to 1966080.
    assert_eq!(empty_steps, 146_605);
}

#[test]
fn a_limit_one_below_the_end_of_a_sieve_segment() {
    assert_eq!(isqrt(3_865_466_634_257), 1_966_079);
    assert_eq!(prime_factor(3_865_466_634_257), vec![(3_865_466_634_257, 1)]);
}

#[test]
fn the_last_pair_is_what_the_small_primes_leave() {
    for n in 2..5000usize {
        let mut left = n;
        for p in (2..=isqrt(n)).filter(|&p| is_prime(p)) {
            while left % p == 0 {
                left /= p;
            }
        }
        if left > 1 {
            assert_eq!(prime_factor(n).last(), Some(&(left, 1)), "last factor of {}", n);
            assert!(is_prime(left));
        }
    }
    // 2^4 * 3 * 11^2 leaves 982451653 of 5706079200624.
    assert_eq!(prime_factor(5_706_079_200_624).last(), Some(&(982_451_653, 1)));
}
