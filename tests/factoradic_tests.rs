use lexical_permutations::factoradic::{self, Factoradic};

#[test]
fn test_incr() {
    let mut actual: Factoradic = Factoradic::new(3);

    let check = |expected: Vec<usize>, actual: &Factoradic| {
        let expected_fact: Factoradic = Factoradic::from_vec(expected).unwrap();
        assert_eq!(expected_fact, *actual);
    };

    check(vec![0, 0, 0], &actual);
    actual.incr();
    check(vec![0, 1, 0], &actual);
    actual.incr();
    check(vec![1, 0, 0], &actual);
    actual.incr();
    check(vec![1, 1, 0], &actual);
    actual.incr();
    check(vec![2, 0, 0], &actual);
    actual.incr();
    check(vec![2, 1, 0], &actual);
}

#[test]
fn test_to_u64() {
    let check = |expected: u64, digits: Vec<usize>| {
        assert_eq!(expected, Factoradic::from_vec(digits).unwrap().to_u64());
    };

    check(0, vec![0, 0, 0]);
    check(1, vec![0, 1, 0]);
    check(2, vec![1, 0, 0]);
    check(3, vec![1, 1, 0]);
    check(4, vec![2, 0, 0]);
    check(5, vec![2, 1, 0]);
}

#[test]
fn factoradic_test_from_vec() {
    assert_eq!(
        Some(Factoradic { digits: vec![5, 4, 3, 2, 1, 0], has_overflowed: false }),
        Factoradic::from_vec(vec![5, 4, 3, 2, 1, 0])
    );
    assert_eq!(None, Factoradic::from_vec(vec![1]));
    assert_eq!(None, Factoradic::from_vec(vec![2, 0]));
    assert_eq!(None, Factoradic::from_vec(vec![3, 0, 0]));
    assert_eq!(None, Factoradic::from_vec(vec![4, 0, 0, 0]));
    assert_eq!(None, Factoradic::from_vec(vec![5, 0, 0, 0, 0]));
}

#[test]
fn test_to_permutation() {
    let check = |expected: Vec<usize>, actual: Vec<usize>| {
        assert_eq!(expected, Factoradic::from_vec(actual).unwrap().to_permutation())
    };

    check(vec![0, 1, 2, 3], vec![0, 0, 0, 0]);

    check(vec![0, 1, 2], vec![0, 0, 0]);
    check(vec![0, 2, 1], vec![0, 1, 0]);
    check(vec![1, 0, 2], vec![1, 0, 0]);
    check(vec![1, 2, 0], vec![1, 1, 0]);
    check(vec![2, 0, 1], vec![2, 0, 0]);
    check(vec![2, 1, 0], vec![2, 1, 0]);
}

fn factorial(n: u64) -> u64 {
    (1..=n).product()
}

#[test]
fn increments_count_up_to_overflow() {
    for n in 0..6usize {
        let mut counter = factoradic::new(n);
        let total = factorial(n as u64);
        for k in 0..total {
            assert!(!counter.has_overflowed);
            assert_eq!(k, counter.to_u64());
            counter.incr();
        }
        assert!(counter.has_overflowed);
        assert_eq!(vec![0; n], counter.digits);
    }
}

#[test]
fn overflowed_counter_stays_put() {
    let mut counter = Factoradic::from_vec(vec![2, 1, 0]).unwrap();
    counter.incr();
    assert!(counter.has_overflowed);
    assert_eq!(vec![0, 0, 0], counter.digits);
    counter.incr();
    counter.incr();
    assert!(counter.has_overflowed);
    assert_eq!(vec![0, 0, 0], counter.digits);
}

#[test]
fn empty_counter_overflows_at_once() {
    let mut counter = Factoradic::new(0);
    assert_eq!(0, counter.to_u64());
    assert_eq!(Vec::<usize>::new(), counter.to_permutation());
    counter.incr();
    assert!(counter.has_overflowed);
}

#[test]
fn from_vec_accepts_exactly_the_bounded_digits() {
    assert!(Factoradic::from_vec(vec![]).is_some());
    assert!(Factoradic::from_vec(vec![0]).is_some());
    assert!(Factoradic::from_vec(vec![1, 0]).is_some());
    assert!(Factoradic::from_vec(vec![2, 0]).is_none());
    assert!(Factoradic::from_vec(vec![0, 1]).is_none());
    assert!(Factoradic::from_vec(vec![2, 2, 0]).is_none());
    assert!(Factoradic::from_vec(vec![2, 1, 0]).is_some());
    assert!(Factoradic::from_vec(vec![5, 0, 0, 0, 0]).is_none());
    assert!(Factoradic::from_vec(vec![4, 0, 0, 0, 0]).is_some());
}

#[test]
fn to_u64_scenarios() {
    assert_eq!(3, Factoradic::from_vec(vec![1, 1, 0]).unwrap().to_u64());
    assert_eq!(5, Factoradic::from_vec(vec![2, 1, 0]).unwrap().to_u64());
    assert_eq!(119, Factoradic::from_vec(vec![4, 3, 2, 1, 0]).unwrap().to_u64());
    assert_eq!(26, Factoradic::from_vec(vec![1, 0, 1, 0, 0]).unwrap().to_u64());
}

#[test]
fn to_u64_at_twenty_digits() {
    let digits: Vec<usize> = (0..20).rev().collect();
    let largest = Factoradic::from_vec(digits).unwrap().to_u64();
    assert_eq!(factorial(20) - 1, largest);
}

#[test]
fn every_digit_vector_decodes_to_a_permutation() {
    let n = 5usize;
    let mut counter = Factoradic::new(n);
    let mut seen = Vec::new();
    while !counter.has_overflowed {
        let perm = counter.to_permutation();
        let mut sorted = perm.clone();
        sorted.sort();
        assert_eq!((0..n).collect::<Vec<usize>>(), sorted);
        assert!(!seen.contains(&perm));
        seen.push(perm);
        counter.incr();
    }
    assert_eq!(120, seen.len());
}
