use persistence_search::factor::factor_combinations;

/// Digit product of a value, computed independently of the library.
fn digit_product(mut v: u64) -> u64 {
    if v == 0 {
        return 0;
    }
    let mut p: u64 = 1;
    while v > 0 {
        p *= v % 10;
        v /= 10;
    }
    p
}

#[test]
fn zero_yields_nothing() {
    assert_eq!(factor_combinations(0), Vec::<u64>::new());
}

#[test]
fn one_yields_nothing_but_itself() {
    // The only digit sequence multiplying to 1 under the cap is "1", which
    // equals the input and is excluded.
    assert_eq!(factor_combinations(1), Vec::<u64>::new());
}

#[test]
fn prime_digit_seven() {
    // No two factors in 2..9 multiply to 7, so only the 1-padded "17" is
    // left once 7 itself is excluded; a trailing 1 is never generated.
    assert_eq!(factor_combinations(7), vec![17]);
}

#[test]
fn nine_enumerates_all_factorizations() {
    // 9 = 1*3*3 = 1*9 = 3*1*3 = 3*3 = 9; the one-factor reading equals the
    // input and is excluded, and sequences with a trailing 1 never arise.
    assert_eq!(factor_combinations(9), vec![133, 19, 313, 33]);
}

#[test]
fn eight_enumerates_all_factorizations() {
    assert_eq!(
        factor_combinations(8),
        vec![1222, 124, 142, 18, 2122, 214, 2212, 222, 24, 412, 42]
    );
}

#[test]
fn four_enumerates_all_factorizations() {
    assert_eq!(factor_combinations(4), vec![122, 14, 212, 22]);
}

#[test]
fn outputs_multiply_back_to_input() {
    for n in 1..200u64 {
        for v in factor_combinations(n) {
            assert_eq!(digit_product(v), n);
            assert_ne!(v, n);
        }
    }
}

#[test]
fn no_duplicates_in_one_call() {
    for n in 1..100u64 {
        let out = factor_combinations(n);
        for i in 0..out.len() {
            for j in 0..i {
                assert_ne!(out[i], out[j]);
            }
        }
    }
}

#[test]
fn readings_too_wide_for_the_integer_are_dropped() {
    // 5^20 factors only into twenty digits 5, optionally padded with 1s, so
    // every reading has more digits than the integer width holds.
    let n = 5u64.pow(20);
    assert_eq!(factor_combinations(n), Vec::<u64>::new());
}

#[test]
fn larger_input_uses_a_wider_ones_cap() {
    // 12 is past the first threshold of 10, so two 1s are allowed.
    let out = factor_combinations(12);
    assert!(out.contains(&1126));
    assert!(out.contains(&126));
    assert!(out.contains(&26));
    assert!(out.contains(&34));
    for v in &out {
        assert_eq!(digit_product(*v), 12);
    }
}
