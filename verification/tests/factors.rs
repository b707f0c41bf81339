use std::collections::VecDeque;

use cs110l::factors::{factor_number, get_input_numbers, is_prime, take_number, write_equation};

fn strings(texts: &[&str]) -> Vec<String> {
    texts.iter().map(|s| s.to_string()).collect()
}

#[test]
fn primes_are_told_from_composites() {
    let primes: Vec<u32> = (0..60).filter(|n| is_prime(*n)).collect();
    assert_eq!(primes, vec![2, 3, 5, 7, 11, 13, 17, 19, 23, 29, 31, 37, 41, 43, 47, 53, 59]);
    assert!(!is_prime(65521 * 65519));
    assert!(!is_prime(65521 * 65521));
    assert!(is_prime(4294967291));
    assert!(!is_prime(u32::MAX));
}

#[test]
fn numbers_have_their_prime_factors() {
    assert_eq!(factor_number(0), Vec::<u32>::new());
    assert_eq!(factor_number(1), vec![1]);
    assert_eq!(factor_number(2), vec![2]);
    assert_eq!(factor_number(4), vec![2, 2]);
    assert_eq!(factor_number(6), vec![2, 3]);
    assert_eq!(factor_number(9), vec![3, 3]);
    assert_eq!(factor_number(360), vec![2, 2, 2, 3, 3, 5]);
    assert_eq!(factor_number(97), vec![97]);
    assert_eq!(factor_number(4294967291), vec![4294967291]);
}

#[test]
fn factors_are_primes_that_multiply_to_the_number() {
    for n in 2..3000 {
        let factors = factor_number(n);
        assert_eq!(factors.iter().product::<u32>(), n);
        assert!(factors.iter().all(|f| is_prime(*f)));
        assert!(factors.windows(2).all(|pair| pair[0] <= pair[1]));
    }
}

#[test]
fn factors_are_shown_as_a_product() {
    assert_eq!(write_equation(360, &factor_number(360)), "360 = 2 * 2 * 2 * 3 * 3 * 5");
    assert_eq!(write_equation(7, &factor_number(7)), "7 = 7");
    assert_eq!(write_equation(0, &factor_number(0)), "0 = ");
}

#[test]
fn arguments_are_read_as_numbers() {
    let numbers = get_input_numbers(&strings(&["1", "+2", "4294967295"])).unwrap();
    assert_eq!(numbers, VecDeque::from(vec![1, 2, 4294967295]));
    assert_eq!(get_input_numbers(&strings(&[])).unwrap(), VecDeque::new());
}

#[test]
fn the_first_bad_argument_is_named() {
    assert_eq!(
        get_input_numbers(&strings(&["1", "two", "three"])),
        Err("two is not a valid number\n".to_string())
    );
    assert_eq!(
        get_input_numbers(&strings(&["4294967296"])),
        Err("4294967296 is not a valid number\n".to_string())
    );
}

#[test]
fn numbers_are_taken_from_the_end() {
    let mut numbers = vec![1, 2];
    assert_eq!(take_number(&mut numbers), Some(2));
    assert_eq!(take_number(&mut numbers), Some(1));
    assert_eq!(take_number(&mut numbers), None);
    assert!(numbers.is_empty());
}
