use prime_stream::primes::primes_unbounded;

#[test]
fn primes_begin_with_two_three_five_seven() {
    let mut primes = primes_unbounded();
    assert_eq!(primes.next(), Some(2));
    assert_eq!(primes.next(), Some(3));
    assert_eq!(primes.next(), Some(5));
    assert_eq!(primes.next(), Some(7));
}

#[test]
fn primes_ascend_without_a_gap() {
    let mut primes = primes_unbounded();
    let mut found = Vec::new();
    for _ in 0..25 {
        found.push(primes.next().unwrap());
    }
    assert_eq!(
        found,
        vec![
            2, 3, 5, 7, 11, 13, 17, 19, 23, 29, 31, 37, 41, 43, 47, 53, 59, 61, 67, 71, 73, 79,
            83, 89, 97
        ]
    );
}

#[test]
fn two_producers_are_independent() {
    let mut one = primes_unbounded();
    let mut other = primes_unbounded();
    assert_eq!(one.next(), Some(2));
    assert_eq!(one.next(), Some(3));
    assert_eq!(other.next(), Some(2));
    assert_eq!(one.next(), Some(5));
}

#[test]
fn the_kth_item_is_the_kth_prime() {
    let is_prime = |n: usize| n >= 2 && (2..n).take_while(|d| d * d <= n).all(|d| n % d != 0);
    let mut primes = primes_unbounded();
    for k in 0..300usize {
        let p = primes.next().unwrap();
        assert!(is_prime(p));
        assert_eq!((0..p).filter(|&q| is_prime(q)).count(), k);
    }
}
