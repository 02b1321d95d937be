use pid_ga::gain::{digit_of, GAIN_MAX, ONE};
use pid_ga::individual::{Genome, Individual, Model, Recombination};
use rand::rngs::StdRng;
use rand::{Rng, SeedableRng};

fn father() -> Genome {
    Genome {
        kp: 1_231_240_000,
        ki: 77 * ONE,
        kd: 5,
        model: Model::Complex,
        dir: "father",
        seed: 11,
    }
}

fn mother() -> Genome {
    Genome {
        kp: 5_678_900_000,
        ki: 12 * ONE,
        kd: 9_999,
        model: Model::DCMotor,
        dir: "mother",
        seed: 22,
    }
}

#[test]
fn individual_holds_what_it_was_given() {
    let i = Individual::new(father(), 0.25f32.to_bits());
    assert_eq!(i.kp(), 1_231_240_000);
    assert_eq!(i.ki(), 77 * ONE);
    assert_eq!(i.kd(), 5);
    assert_eq!(i.fitness(), 0.25f32.to_bits());
    assert_eq!(i.genome().model, Model::Complex);
    assert_eq!(i.genome().dir, "father");
    assert_eq!(i.genome().seed, 11);
    assert!(i.is_viable());
    assert_eq!(i.rank_key(), 0.25f32.to_bits() as i64);
    assert!(!Individual::new(father(), f32::NAN.to_bits()).is_viable());
    assert!(!Individual::new(father(), f32::INFINITY.to_bits()).is_viable());
}

#[test]
fn default_model_is_the_motor() {
    assert_eq!(Model::default(), Model::DCMotor);
}

#[test]
fn crossover_has_two_children_costed_as_the_father() {
    let mut rng = StdRng::seed_from_u64(1);
    let a = Individual::new(father(), 1.0f32.to_bits());
    let b = Individual::new(mother(), 2.0f32.to_bits());
    let children = a.crossover(&b, (-10, 3), &mut rng);
    assert_eq!(children.len(), 2);
    for child in &children {
        assert_eq!(child.model, Model::Complex);
        assert_eq!(child.dir, "father");
        assert_eq!(child.seed, 11);
    }
    // Every digit of the parents is in one of the children.
    assert_eq!(children[0].kp + children[1].kp, father().kp + mother().kp);
    assert_eq!(children[0].ki + children[1].ki, father().ki + mother().ki);
    assert_eq!(children[0].kd + children[1].kd, father().kd + mother().kd);
    for exponent in -10..=3 {
        let f = digit_of(father().ki, exponent);
        let m = digit_of(mother().ki, exponent);
        let c = digit_of(children[0].ki, exponent);
        assert!(c == f || c == m);
    }
}

#[test]
fn crossover_draws_once_for_each_digit_of_each_gain() {
    let mut rng = StdRng::seed_from_u64(1);
    let mut twin = rng.clone();
    father().crossover(&mother(), (-1, 3), &mut rng);
    for _ in 0..15 {
        twin.random::<u32>();
    }
    assert_eq!(rng, twin);
}

#[test]
fn crossover_over_an_empty_range_gives_zero() {
    let mut rng = StdRng::seed_from_u64(1);
    let children = father().crossover(&mother(), (1, 0), &mut rng);
    assert_eq!((children[0].kp, children[0].ki, children[0].kd), (0, 0, 0));
    assert_eq!((children[1].kp, children[1].ki, children[1].kd), (0, 0, 0));
}

#[test]
fn mutation_under_given_draws() {
    let half = ONE as i64 / 2;
    let after = father().mutate_with(half, ONE, (0, 0), (1 << 23, 0), (0, (1 << 24) - 1));
    assert_eq!(after.kp, 0);
    assert_eq!(after.ki, 77 * ONE);
    assert_eq!(after.kd, 5 + 9_999_998_807);
    assert_eq!(after.model, Model::Complex);
    assert_eq!(after.dir, "father");
    assert_eq!(after.seed, 11);
}

#[test]
fn mutation_at_rate_zero_keeps_the_gains() {
    let mut rng = StdRng::seed_from_u64(4);
    let after = father().mutate(0, ONE, &mut rng);
    assert_eq!((after.kp, after.ki, after.kd), (father().kp, father().ki, father().kd));
    let i = Individual::new(father(), 0);
    let after = i.mutate(0, ONE, &mut rng);
    assert_eq!((after.kp, after.ki, after.kd), (father().kp, father().ki, father().kd));
}

#[test]
fn mutation_stays_within_the_step_and_among_the_gains() {
    let mut rng = StdRng::seed_from_u64(4);
    let step = ONE / 4;
    let mut moved = false;
    for _ in 0..500 {
        let after = father().mutate(ONE as i64, step, &mut rng);
        assert!(after.kp <= father().kp + step);
        assert!(after.ki >= father().ki - step && after.ki <= father().ki + step);
        assert!(after.kd <= father().kd + step);
        assert!(after.kp <= GAIN_MAX && after.ki <= GAIN_MAX && after.kd <= GAIN_MAX);
        moved = moved || after.ki != father().ki;
    }
    assert!(moved);
}

fn costing(cost: f32) -> Individual {
    Individual::new(father(), cost.to_bits())
}

#[test]
fn individuals_compare_as_their_costs() {
    let costs = [
        0.0f32,
        -0.0,
        1.0,
        -1.0,
        2.5,
        1.0e-40,
        f32::INFINITY,
        f32::NEG_INFINITY,
        f32::NAN,
    ];
    for a in costs {
        for b in costs {
            let x = costing(a);
            let y = Individual::new(mother(), b.to_bits());
            assert_eq!(x == y, a == b, "{} == {}", a, b);
            assert_eq!(x.partial_cmp(&y), a.partial_cmp(&b), "{} ? {}", a, b);
            assert_eq!(x < y, a < b);
            assert_eq!(x >= y, a >= b);
        }
    }
}

#[test]
fn whole_gene_recombination_keeps_the_parents() {
    let mut rng = StdRng::seed_from_u64(1);
    let mut twin = rng.clone();
    let children = father().crossover_by(&mother(), Recombination::WholeGene, &mut rng);
    assert_eq!(children.len(), 2);
    assert_eq!(
        (children[0].kp, children[0].ki, children[0].kd),
        (father().kp, father().ki, father().kd)
    );
    assert_eq!(
        (children[1].kp, children[1].ki, children[1].kd),
        (mother().kp, mother().ki, mother().kd)
    );
    assert_eq!(children[1].dir, "father");
    assert_eq!(children[1].seed, 11);
    for _ in 0..3 {
        twin.random::<u32>();
    }
    assert_eq!(rng, twin);
}

#[test]
fn digit_recombination_by_choice_is_crossover() {
    let mut rng = StdRng::seed_from_u64(8);
    let mut twin = rng.clone();
    let a = father().crossover_by(&mother(), Recombination::Digits(-10, 3), &mut rng);
    let b = father().crossover(&mother(), (-10, 3), &mut twin);
    assert_eq!((a[0].kp, a[0].ki, a[0].kd), (b[0].kp, b[0].ki, b[0].kd));
    assert_eq!((a[1].kp, a[1].ki, a[1].kd), (b[1].kp, b[1].ki, b[1].kd));
}
