use threatflux_string_analysis::wide::Wide;

fn same(a: &Wide, b: &Wide) -> bool {
    !a.exceeds(b) && !b.exceeds(a)
}

#[test]
fn small_products_and_sums_are_exact() {
    let fifteen = Wide::from_u64(3).times(5).unwrap();
    assert!(same(&fifteen, &Wide::from_u64(15)));
    assert!(Wide::from_u64(16).exceeds(&fifteen));
    assert!(fifteen.exceeds(&Wide::from_u64(14)));
    let sum = fifteen.plus(&Wide::from_u64(27)).unwrap();
    assert!(same(&sum, &Wide::from_u64(42)));
    assert!(Wide::from_u64(0).is_zero());
    assert!(!fifteen.is_zero());
    assert!(Wide::from_u64(7).times(0).unwrap().is_zero());
}

#[test]
fn products_carry_into_the_higher_digits() {
    let max = u64::MAX;
    // (2^64 - 1)^2 = 2^128 - 2^65 + 1, built in two ways.
    let square = Wide::from_u64(max).times(max).unwrap();
    let by_halves = Wide::from_u64(1 << 32)
        .times(1 << 32)
        .unwrap()
        .times(max - 1)
        .unwrap()
        .plus(&Wide::from_u64(1))
        .unwrap();
    assert!(same(&square, &by_halves));
    let in_turn = Wide::from_u64(6).times(max).unwrap().times(35).unwrap();
    let other_way = Wide::from_u64(35).times(6).unwrap().times(max).unwrap();
    assert!(same(&in_turn, &other_way));
    assert!(square.exceeds(&in_turn));
}

#[test]
fn results_beyond_four_digits_are_refused() {
    let max = u64::MAX;
    let fourth = Wide::from_u64(max).times(max).unwrap().times(max).unwrap().times(max).unwrap();
    assert!(fourth.times(1).is_some());
    assert!(fourth.times(2).is_none());
    assert!(fourth.times(max).is_none());
    assert!(fourth.plus(&fourth).is_none());
    assert!(fourth.plus(&Wide::from_u64(max)).is_some());
    let third = Wide::from_u64(max).times(max).unwrap().times(max).unwrap();
    assert!(fourth.exceeds(&third));
    assert!(!third.exceeds(&fourth));
}

#[test]
fn comparison_goes_by_the_highest_digit_that_differs() {
    let big = Wide::from_u64(1).times(u64::MAX).unwrap().plus(&Wide::from_u64(1)).unwrap();
    let bigger = big.plus(&Wide::from_u64(1)).unwrap();
    assert!(bigger.exceeds(&big));
    assert!(big.exceeds(&Wide::from_u64(u64::MAX)));
    assert!(!big.exceeds(&big));
    let high = big.times(5).unwrap();
    let low = big.times(4).unwrap().plus(&Wide::from_u64(u64::MAX)).unwrap();
    assert!(high.exceeds(&low));
}
