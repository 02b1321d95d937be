use pid_ga::gain::{
    crossover_digit, crossover_gain, decides_to_mutate, digit_of, exchange_digit, mutate_gain,
    mutate_gain_with, power_of_ten, random_gain, recombine, scale_unit, weight_of, GAIN_MAX, ONE,
};
use pid_ga::rng::{next_unit, unit_of};
use rand::rngs::StdRng;
use rand::{Rng, SeedableRng};

// 0.123124 and 0.567890 in units of 10^-10.
const FATHER: u64 = 1_231_240_000;
const MOTHER: u64 = 5_678_900_000;

#[test]
fn powers_of_ten() {
    assert_eq!(power_of_ten(0), 1);
    assert_eq!(power_of_ten(10), ONE);
    assert_eq!(power_of_ten(19), 10_000_000_000_000_000_000);
}

#[test]
fn weights_of_exponents() {
    assert_eq!(weight_of(-10), 1);
    assert_eq!(weight_of(0), ONE);
    assert_eq!(weight_of(-3), 10_000_000);
    assert_eq!(weight_of(8), 1_000_000_000_000_000_000);
    assert_eq!(weight_of(9), 0);
    assert_eq!(weight_of(-11), 0);
    assert_eq!(weight_of(i32::MIN), 0);
    assert_eq!(weight_of(i32::MAX), 0);
}

#[test]
fn digits_of_a_gain() {
    let expected = [(-1, 1), (-2, 2), (-3, 3), (-4, 1), (-5, 2), (-6, 4), (-7, 0), (0, 0)];
    for (exponent, digit) in expected {
        assert_eq!(digit_of(FATHER, exponent), digit, "exponent {}", exponent);
    }
    assert_eq!(digit_of(GAIN_MAX, 8), 9);
    assert_eq!(digit_of(GAIN_MAX, -10), 9);
    assert_eq!(digit_of(GAIN_MAX, 9), 0);
    assert_eq!(digit_of(GAIN_MAX, -11), 0);
    assert_eq!(digit_of(u64::MAX, 8), 8);
}

#[test]
fn exchange_of_one_digit() {
    // The third decimal: 3 for the father, 7 for the mother.
    assert_eq!(exchange_digit(FATHER, MOTHER, -3, true), (30_000_000, 70_000_000));
    assert_eq!(exchange_digit(FATHER, MOTHER, -3, false), (70_000_000, 30_000_000));
    assert_eq!(exchange_digit(FATHER, MOTHER, 20, true), (0, 0));
}

#[test]
fn drawn_exchange_is_one_of_the_two() {
    let mut rng = StdRng::seed_from_u64(3);
    let mut kept = 0;
    let mut handed = 0;
    for _ in 0..200 {
        let r = crossover_digit(FATHER, MOTHER, -3, &mut rng);
        if r == (30_000_000, 70_000_000) {
            kept += 1;
        } else {
            assert_eq!(r, (70_000_000, 30_000_000));
            handed += 1;
        }
    }
    assert!(kept > 0 && handed > 0);
}

#[test]
fn recombination_that_keeps_every_digit_gives_the_parents() {
    let keep = vec![true; 19];
    assert_eq!(recombine(FATHER, MOTHER, (-10, 8), &keep), (FATHER, MOTHER));
    assert_eq!(recombine(FATHER, MOTHER, (-6, -1), &vec![true; 6]), (FATHER, MOTHER));
    assert_eq!(recombine(FATHER, MOTHER, (-10, 3), &Vec::new()), (FATHER, MOTHER));
    assert_eq!(recombine(GAIN_MAX, 0, (-10, 8), &keep), (GAIN_MAX, 0));
    assert_eq!(recombine(FATHER, MOTHER, (i32::MIN, i32::MAX), &Vec::new()), (FATHER, MOTHER));
}

#[test]
fn recombination_that_hands_every_digit_over_exchanges_the_parents() {
    assert_eq!(recombine(FATHER, MOTHER, (-10, 8), &vec![false; 19]), (MOTHER, FATHER));
    assert_eq!(recombine(FATHER, MOTHER, (-6, -1), &vec![false; 6]), (MOTHER, FATHER));
}

#[test]
fn recombination_under_mixed_picks() {
    // Exponents -3, -2, -1 in this order: keep, hand over, keep.
    let picks = vec![true, false, true];
    assert_eq!(
        recombine(FATHER, MOTHER, (-3, -1), &picks),
        (1_630_000_000, 5_270_000_000)
    );
}

#[test]
fn recombination_loses_digits_outside_the_range() {
    assert_eq!(
        recombine(FATHER, MOTHER, (-3, -1), &vec![true; 3]),
        (1_230_000_000, 5_670_000_000)
    );
    assert_eq!(recombine(FATHER, MOTHER, (0, 3), &vec![true; 4]), (0, 0));
    assert_eq!(recombine(FATHER, MOTHER, (3, 0), &Vec::new()), (0, 0));
    assert_eq!(recombine(FATHER, MOTHER, (9, 20), &Vec::new()), (0, 0));
    assert_eq!(recombine(FATHER, MOTHER, (-20, -11), &Vec::new()), (0, 0));
    // Of a number that is no gain the highest digit is lost.
    assert_eq!(
        recombine(u64::MAX, 0, (-10, 8), &Vec::new()).0,
        u64::MAX - 10_000_000_000_000_000_000
    );
}

#[test]
fn drawn_recombination_takes_each_digit_from_one_parent() {
    let mut rng = StdRng::seed_from_u64(11);
    for _ in 0..50 {
        let (first, second) = crossover_gain(FATHER, MOTHER, (-6, -1), &mut rng);
        for exponent in -6..=-1 {
            let f = digit_of(FATHER, exponent);
            let m = digit_of(MOTHER, exponent);
            let a = digit_of(first, exponent);
            let b = digit_of(second, exponent);
            assert!((a, b) == (f, m) || (a, b) == (m, f));
        }
        assert_eq!(first + second, FATHER + MOTHER);
    }
}

#[test]
fn drawn_recombination_draws_once_for_each_exponent() {
    let mut rng = StdRng::seed_from_u64(5);
    let mut twin = rng.clone();
    crossover_gain(FATHER, MOTHER, (-12, 10), &mut rng);
    for _ in 0..23 {
        twin.random::<u32>();
    }
    assert_eq!(rng, twin);
}

#[test]
fn decision_to_mutate() {
    let half = ONE as i64 / 2;
    assert!(decides_to_mutate(half, 0));
    assert!(decides_to_mutate(half, (1 << 23) - 1));
    assert!(!decides_to_mutate(half, 1 << 23));
    assert!(!decides_to_mutate(0, 0));
    assert!(decides_to_mutate(ONE as i64, (1 << 24) - 1));
    assert!(!decides_to_mutate(-1, 0));
    assert!(!decides_to_mutate(i64::MIN, 0));
    assert!(decides_to_mutate(i64::MAX, u32::MAX));
    assert!(decides_to_mutate(1, 0));
    assert!(!decides_to_mutate(1, 1));
}

#[test]
fn mutation_of_one_gain() {
    let half = ONE as i64 / 2;
    // No mutation: the decision draw is not below the rate.
    assert_eq!(mutate_gain_with(ONE, half, ONE, 1 << 23, 0), ONE);
    // The lowest draw takes the whole step off.
    assert_eq!(mutate_gain_with(ONE, half, ONE, 0, 0), 0);
    // The draw in the middle leaves the gain.
    assert_eq!(mutate_gain_with(ONE, half, ONE, 0, 1 << 23), ONE);
    // The highest draw adds just less than the step.
    assert_eq!(mutate_gain_with(ONE, half, ONE, 0, (1 << 24) - 1), 19_999_998_807);
    assert_eq!(mutate_gain_with(ONE, half, ONE, 0, 1), 1_192);
    // A step of 0.1 and a quarter of the way up.
    assert_eq!(mutate_gain_with(ONE, half, ONE / 10, 0, 1 << 22), 9_500_000_000);
    assert_eq!(mutate_gain_with(ONE, half, ONE / 10, 0, 3 << 22), 10_500_000_000);
}

#[test]
fn mutation_is_brought_back_among_the_gains() {
    let always = ONE as i64;
    assert_eq!(mutate_gain_with(ONE / 2, always, ONE, 0, 0), 0);
    assert_eq!(mutate_gain_with(0, always, u64::MAX, 0, 0), 0);
    assert_eq!(mutate_gain_with(GAIN_MAX, always, ONE, 0, (1 << 24) - 1), GAIN_MAX);
    assert_eq!(mutate_gain_with(0, always, u64::MAX, 0, (1 << 24) - 1), GAIN_MAX);
    assert_eq!(mutate_gain_with(u64::MAX, 0, ONE, 0, 0), GAIN_MAX);
    assert_eq!(mutate_gain_with(u64::MAX, always, 1, 0, 0), GAIN_MAX);
}

#[test]
fn mutation_moves_a_gain_by_at_most_the_step() {
    let step = 3 * ONE / 10;
    let gain = 5 * ONE;
    let mut amount: u32 = 0;
    while amount < (1 << 24) {
        let after = mutate_gain_with(gain, ONE as i64, step, 0, amount);
        assert!(gain - step <= after && after <= gain + step, "amount {}", amount);
        amount += 4099;
    }
    let mut rng = StdRng::seed_from_u64(1);
    for _ in 0..1000 {
        let after = mutate_gain(gain, ONE as i64 / 4, step, &mut rng);
        assert!(gain - step <= after && after <= gain + step);
    }
}

#[test]
fn mutation_at_rate_zero_changes_nothing_and_draws_once() {
    let mut rng = StdRng::seed_from_u64(9);
    let mut twin = rng.clone();
    assert_eq!(mutate_gain(12_345, 0, ONE, &mut rng), 12_345);
    twin.random::<u32>();
    assert_eq!(rng, twin);
}

#[test]
fn mutation_at_rate_one_draws_twice() {
    let mut rng = StdRng::seed_from_u64(9);
    let mut twin = rng.clone();
    mutate_gain(12_345, ONE as i64, ONE, &mut rng);
    twin.random::<u32>();
    twin.random::<u32>();
    assert_eq!(rng, twin);
}

#[test]
fn share_of_a_maximum() {
    let hundred = 100 * ONE;
    assert_eq!(scale_unit(hundred, 0), 0);
    assert_eq!(scale_unit(hundred, 1 << 23), 50 * ONE);
    assert_eq!(scale_unit(hundred, 1), 59_604);
    assert_eq!(scale_unit(hundred, (1 << 24) - 1), 999_999_940_395);
    assert_eq!(scale_unit(u64::MAX, (1 << 24) - 1), u64::MAX - (1 << 40));
    assert_eq!(scale_unit(0, 12_345), 0);
}

#[test]
fn random_gain_stays_below_the_maximum() {
    let mut rng = StdRng::seed_from_u64(2);
    for _ in 0..1000 {
        assert!(random_gain(9 * ONE / 10, &mut rng) < 9 * ONE / 10);
    }
    assert_eq!(random_gain(0, &mut rng), 0);
}

#[test]
fn unit_draw_is_the_numerator_of_the_single_precision_draw() {
    let mut rng = StdRng::seed_from_u64(0x2268a378740265f9);
    let mut twin = rng.clone();
    for _ in 0..1000 {
        let unit = next_unit(&mut rng);
        assert!(unit < (1 << 24));
        let x: f32 = twin.random();
        assert_eq!(unit as f32 / 16_777_216.0, x);
    }
}

#[test]
fn unit_of_a_word_is_its_upper_bits() {
    assert_eq!(unit_of(0), 0);
    assert_eq!(unit_of(255), 0);
    assert_eq!(unit_of(256), 1);
    assert_eq!(unit_of(0x1234_5678), 0x12_3456);
    assert_eq!(unit_of(0x8000_0000), 1 << 23);
    assert_eq!(unit_of(u32::MAX), (1 << 24) - 1);
}

#[test]
fn unit_draw_is_the_unit_of_the_next_word() {
    let mut rng = StdRng::seed_from_u64(17);
    let mut twin = rng.clone();
    for _ in 0..100 {
        assert_eq!(next_unit(&mut rng), unit_of(twin.random::<u32>()));
    }
    assert_eq!(rng, twin);
}
