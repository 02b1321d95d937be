use pid_ga::individual::{Genome, Individual, Model};
use pid_ga::population::{NewRandomPopulation, Population, CAPACITY};
use pid_ga::work::Work;

fn genome(tag: u64) -> Genome {
    Genome { kp: tag, ki: 0, kd: 0, model: Model::DCMotor, dir: "out", seed: 1 }
}

/// An individual that is told apart by `tag` and costs `cost`.
fn ind(tag: u64, cost: f32) -> Individual {
    Individual::new(genome(tag), cost.to_bits())
}

fn tags(population: &Population) -> Vec<u64> {
    let mut copy = population.clone();
    let mut tags = Vec::new();
    while copy.len() > 0 {
        tags.push(copy.pop_individual_at(0).kp());
    }
    tags
}

fn costs(population: &Population) -> Vec<f32> {
    let mut copy = population.clone();
    let mut costs = Vec::new();
    while copy.len() > 0 {
        costs.push(f32::from_bits(copy.pop_individual_at(0).fitness()));
    }
    costs
}

#[test]
fn population_is_sorted_by_cost() {
    let p = Population::from_individuals(
        vec![ind(0, 3.0), ind(1, -1.0), ind(2, 2.5), ind(3, 0.0), ind(4, 1.0e-3)],
        7,
    );
    assert_eq!(costs(&p), vec![-1.0, 0.0, 1.0e-3, 2.5, 3.0]);
    assert_eq!(tags(&p), vec![1, 3, 4, 2, 0]);
}

#[test]
fn population_drops_costs_that_are_not_finite() {
    let given = vec![
        ind(0, f32::NAN),
        ind(1, 2.0),
        ind(2, f32::INFINITY),
        ind(3, 1.0),
        ind(4, f32::NEG_INFINITY),
        Individual::new(genome(5), 0xffc0_0000),
    ];
    assert_eq!(Population::unviable(&given), 4);
    let p = Population::from_individuals(given, 7);
    assert_eq!(tags(&p), vec![3, 1]);
}

#[test]
fn population_of_nothing_viable_is_empty() {
    let p = Population::from_individuals(vec![ind(0, f32::NAN), ind(1, f32::INFINITY)], 7);
    assert_eq!(p.len(), 0);
    assert!(p.get_best().is_none());
    let q = Population::from_individuals(Vec::new(), 7);
    assert_eq!(q.len(), 0);
    assert!(q.get_best().is_none());
}

#[test]
fn equal_costs_keep_their_order() {
    let p = Population::from_individuals(
        vec![ind(0, 1.0), ind(1, 0.0), ind(2, 1.0), ind(3, -0.0), ind(4, 1.0), ind(5, 0.0)],
        7,
    );
    assert_eq!(tags(&p), vec![1, 3, 5, 0, 2, 4]);
}

#[test]
fn population_is_cut_at_capacity() {
    assert_eq!(CAPACITY, 1000);
    let mut given = Vec::new();
    for i in 0..2500u64 {
        given.push(ind(i, (2500 - i) as f32));
    }
    let p = Population::from_individuals(given, 7);
    assert_eq!(p.len(), 1000);
    let costs = costs(&p);
    for (i, cost) in costs.iter().enumerate() {
        assert_eq!(*cost, (i + 1) as f32);
    }
    assert_eq!(p.get_best().unwrap().kp(), 2499);
}

#[test]
fn sorted_is_what_a_population_keeps() {
    let kept = Population::sorted(vec![ind(0, 2.0), ind(1, f32::NAN), ind(2, 1.0)]);
    assert_eq!(kept.iter().map(|i| i.kp()).collect::<Vec<_>>(), vec![2, 0]);
}

#[test]
fn merge_sorts_both_together() {
    let a = Population::from_individuals(vec![ind(0, 1.0), ind(1, 3.0), ind(2, 5.0)], 7);
    let b = Population::from_individuals(vec![ind(3, 2.0), ind(4, 3.0), ind(5, 0.5)], 8);
    let m = a.merge(b);
    assert_eq!(tags(&m), vec![5, 0, 3, 1, 4, 2]);
}

#[test]
fn merge_is_cut_at_capacity() {
    let mut first = Vec::new();
    let mut second = Vec::new();
    for i in 0..800u64 {
        first.push(ind(i, (2 * i) as f32));
        second.push(ind(1000 + i, (2 * i + 1) as f32));
    }
    let m = Population::from_individuals(first, 7).merge(Population::from_individuals(second, 7));
    assert_eq!(m.len(), 1000);
    let costs = costs(&m);
    for (i, cost) in costs.iter().enumerate() {
        assert_eq!(*cost, i as f32);
    }
}

#[test]
fn nth_bests_are_the_first() {
    let p = Population::from_individuals(
        vec![ind(0, 3.0), ind(1, 1.0), ind(2, 2.0), ind(3, 4.0)],
        7,
    );
    assert_eq!(tags(&p.get_nth_bests(2)), vec![1, 2]);
    assert_eq!(tags(&p.get_nth_bests(0)), Vec::<u64>::new());
    assert_eq!(tags(&p.get_nth_bests(4)), vec![1, 2, 0, 3]);
    assert_eq!(tags(&p.get_nth_bests(100)), vec![1, 2, 0, 3]);
    assert_eq!(p.len(), 4);
}

#[test]
fn best_is_the_first() {
    let p = Population::from_individuals(vec![ind(0, 3.0), ind(1, 1.0), ind(2, 2.0)], 7);
    let best = p.get_best().unwrap();
    assert_eq!(best.kp(), 1);
    assert_eq!(best.fitness(), 1.0f32.to_bits());
}

#[test]
fn member_selected_by_a_word() {
    let mut p = Population::from_individuals(
        vec![ind(0, 0.0), ind(1, 1.0), ind(2, 2.0), ind(3, 3.0), ind(4, 4.0)],
        7,
    );
    assert_eq!(p.individual_at(0).kp(), 0);
    assert_eq!(p.individual_at(7).kp(), 2);
    assert_eq!(p.individual_at(u32::MAX).kp(), 0);
    assert_eq!(p.len(), 5);
    assert_eq!(p.pop_individual_at(13).kp(), 3);
    assert_eq!(tags(&p), vec![0, 1, 2, 4]);
    assert_eq!(p.pop_individual_at(13).kp(), 1);
    assert_eq!(tags(&p), vec![0, 2, 4]);
}

#[test]
fn random_member_is_kept_and_random_pop_is_not() {
    let mut p = Population::from_individuals(
        vec![ind(0, 0.0), ind(1, 1.0), ind(2, 2.0), ind(3, 3.0)],
        7,
    );
    let mut seen = [false; 4];
    for _ in 0..200 {
        seen[p.get_random_individual().kp() as usize] = true;
        assert_eq!(p.len(), 4);
    }
    assert_eq!(seen, [true; 4]);
    let mut popped = Vec::new();
    while p.len() > 0 {
        popped.push(p.pop_random_individual().kp());
    }
    popped.sort();
    assert_eq!(popped, vec![0, 1, 2, 3]);
}

#[test]
fn pairing_succeeds_half_as_often_as_there_are_members() {
    for m in 0..12u64 {
        let mut given = Vec::new();
        for i in 0..m {
            given.push(ind(i, i as f32));
        }
        let mut p = Population::from_individuals(given, 42);
        let mut returned = Vec::new();
        let mut successes = 0;
        while let Some((father, mother)) = p.pop_parents() {
            returned.push(father.kp());
            returned.push(mother.kp());
            successes += 1;
        }
        assert_eq!(successes, m / 2);
        assert!(p.pop_parents().is_none());
        assert_eq!(p.len() as u64, m % 2);
        returned.extend(tags(&p));
        returned.sort();
        assert_eq!(returned, (0..m).collect::<Vec<_>>());
    }
}

#[test]
fn all_parents_at_once() {
    let mut given = Vec::new();
    for i in 0..9u64 {
        given.push(ind(i, i as f32));
    }
    let mut p = Population::from_individuals(given, 42);
    let pairs = p.pop_all_parents();
    assert_eq!(pairs.len(), 4);
    assert_eq!(p.len(), 1);
    let mut all: Vec<u64> = pairs.iter().flat_map(|(f, m)| [f.kp(), m.kp()]).collect();
    all.extend(tags(&p));
    all.sort();
    assert_eq!(all, (0..9).collect::<Vec<_>>());
}

#[test]
fn pairing_from_one_seed_is_repeatable() {
    let given: Vec<Individual> = (0..20u64).map(|i| ind(i, i as f32)).collect();
    let mut a = Population::from_individuals(given.clone(), 42);
    let mut b = Population::from_individuals(given, 42);
    let x: Vec<(u64, u64)> = a.pop_all_parents().iter().map(|(f, m)| (f.kp(), m.kp())).collect();
    let y: Vec<(u64, u64)> = b.pop_all_parents().iter().map(|(f, m)| (f.kp(), m.kp())).collect();
    assert_eq!(x, y);
}

#[test]
fn random_genomes_stay_below_their_maxima() {
    let mut generator = NewRandomPopulation::new(Model::Complex, "dir", 900, 0, 7_000, 3);
    let genomes = generator.work(vec![(); 300]);
    assert_eq!(genomes.len(), 300);
    for g in &genomes {
        assert!(g.kp < 900 && g.ki == 0 && g.kd < 7_000);
        assert_eq!(g.model, Model::Complex);
        assert_eq!(g.dir, "dir");
        assert_eq!(g.seed, 3);
    }
    assert!(genomes.iter().any(|g| g.kp != genomes[0].kp));
}

#[test]
fn random_genomes_of_two_chunks_differ() {
    let generator = NewRandomPopulation::new(Model::DCMotor, "", u64::MAX, u64::MAX, u64::MAX, 3);
    let mut first = generator.clone();
    first.set_id(0);
    let mut again = generator.clone();
    again.set_id(0);
    let mut second = generator.clone();
    second.set_id(1);
    let a: Vec<u64> = first.work(vec![(); 8]).iter().map(|g| g.kp).collect();
    let b: Vec<u64> = again.work(vec![(); 8]).iter().map(|g| g.kp).collect();
    let c: Vec<u64> = second.work(vec![(); 8]).iter().map(|g| g.kp).collect();
    assert_eq!(a, b);
    assert_ne!(a, c);
}
