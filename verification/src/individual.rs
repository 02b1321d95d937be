//! Candidate solutions: a genome is the three gains of a controller together
//! with what the cost function needs to know; an individual is a genome whose
//! cost has been computed.

use crate::fitness::finite;
use crate::fitness::is_finite;
use crate::fitness::is_nan;
use crate::fitness::key;
use crate::fitness::nan;
use crate::fitness::order_key;
use crate::gain::crossover_gain;
use crate::gain::mutate_gain;
use crate::gain::mutate_gain_with;
use crate::gain::mutated;
use crate::gain::mutation_of;
use crate::gain::recombination_of;
use crate::gain::GAIN_MAX;
use crate::rng::next_unit;
use rand::rngs::StdRng;
use std::cmp::Ordering;
use vstd::prelude::*;
use vstd::std_specs::cmp::PartialEqSpecImpl;
use vstd::std_specs::cmp::PartialOrdSpecImpl;

verus! {

/// The plant that a controller is tuned for.
#[derive(Clone, Copy, Debug, PartialEq, Eq, Structural)]
pub enum Model {
    /// A motor: a plant of the first order.
    DCMotor,
    /// A plant of the second order with a zero in the right half plane.
    Complex,
}

impl Default for Model {
    /// The motor.
    fn default() -> (m: Model)
        ensures
            m == Model::DCMotor,
    {
        Model::DCMotor
    }
}

/// The three gains of a controller, with the plant, the output directory and
/// the seed that the cost function is to use for it.
#[derive(Clone, Copy, Debug)]
pub struct Genome {
    /// The proportional gain, in units of 10^-10.
    pub kp: u64,
    /// The integral gain, in units of 10^-10.
    pub ki: u64,
    /// The derivative gain, in units of 10^-10.
    pub kd: u64,
    /// The plant that the controller is tuned for.
    pub model: Model,
    /// Name of the directory that the cost function may write to.
    pub dir: &'static str,
    /// Seed of the random signal that the cost function may use.
    pub seed: u64,
}

/// How the gains of two parents are recombined.
#[derive(Clone, Copy, Debug)]
pub enum Recombination {
    /// Every gain goes whole to the child that tracks its parent: the first
    /// child has the gains of the first parent, the second those of the
    /// second. A pick is drawn for each gain, and whatever it is, the gain
    /// stays. This recombines nothing and is offered for compatibility;
    /// prefer `Digits`.
    WholeGene,
    /// The digits with decimal exponents from the first number to the second
    /// are exchanged, each under a pick of its own.
    Digits(i32, i32),
}

/// A genome with its cost. The cost is given once, when the individual is
/// made, and never changes: what changes the gains yields a genome.
#[derive(Clone, Copy, Debug)]
pub struct Individual {
    genome: Genome,
    fitness: u32,
}

/// `first` and `second` are children of the two parents: each gain comes from
/// the parents' gains by exchanging digits with exponents from `lo` to `hi`,
/// and both children are to be costed as the father was.
pub open spec fn offspring_of(
    father: Genome,
    mother: Genome,
    lo: int,
    hi: int,
    first: Genome,
    second: Genome,
) -> bool {
    &&& recombination_of(father.kp, mother.kp, lo, hi, first.kp, second.kp)
    &&& recombination_of(father.ki, mother.ki, lo, hi, first.ki, second.ki)
    &&& recombination_of(father.kd, mother.kd, lo, hi, first.kd, second.kd)
    &&& first.costed_as(father)
    &&& second.costed_as(father)
}

/// `after` is a mutation of `before`: each gain is what mutation makes of the
/// old gain under some pair of unit draws, and the rest is kept.
pub open spec fn mutant_of(before: Genome, rate: i64, step: u64, after: Genome) -> bool {
    &&& mutation_of(before.kp, rate, step, after.kp)
    &&& mutation_of(before.ki, rate, step, after.ki)
    &&& mutation_of(before.kd, rate, step, after.kd)
    &&& after.costed_as(before)
}

impl Genome {
    /// The cost function is told the same of both genomes.
    pub open spec fn costed_as(self, other: Genome) -> bool {
        self.model == other.model && self.dir == other.dir && self.seed == other.seed
    }

    /// All three gains are at most `GAIN_MAX`.
    pub open spec fn in_domain(self) -> bool {
        self.kp <= GAIN_MAX && self.ki <= GAIN_MAX && self.kd <= GAIN_MAX
    }

    /// The two children of `self` and `other`. For each gain in turn (kp, ki,
    /// kd) and each exponent of `digit_range`, a pick is drawn from `rng` and
    /// the parents' digits are exchanged under it.
    pub fn crossover(&self, other: &Genome, digit_range: (i32, i32), rng: &mut StdRng) -> (children:
        Vec<Genome>)
        ensures
            children.len() == 2,
            offspring_of(
                *self,
                *other,
                digit_range.0 as int,
                digit_range.1 as int,
                children[0],
                children[1],
            ),
            children[0].in_domain(),
            children[1].in_domain(),
    {
        let kp = crossover_gain(self.kp, other.kp, digit_range, rng);
        let ki = crossover_gain(self.ki, other.ki, digit_range, rng);
        let kd = crossover_gain(self.kd, other.kd, digit_range, rng);
        let first = Genome {
            kp: kp.0,
            ki: ki.0,
            kd: kd.0,
            model: self.model,
            dir: self.dir,
            seed: self.seed,
        };
        let second = Genome {
            kp: kp.1,
            ki: ki.1,
            kd: kd.1,
            model: self.model,
            dir: self.dir,
            seed: self.seed,
        };
        let mut children: Vec<Genome> = Vec::new();
        children.push(first);
        children.push(second);
        children
    }

    /// The two children of `self` and `other` under the given way of
    /// recombining.
    pub fn crossover_by(&self, other: &Genome, how: Recombination, rng: &mut StdRng) -> (children:
        Vec<Genome>)
        ensures
            children.len() == 2,
            match how {
                Recombination::WholeGene => {
                    &&& children[0] == *self
                    &&& children[1].kp == other.kp
                    &&& children[1].ki == other.ki
                    &&& children[1].kd == other.kd
                    &&& children[1].costed_as(*self)
                },
                Recombination::Digits(lo, hi) => offspring_of(
                    *self,
                    *other,
                    lo as int,
                    hi as int,
                    children[0],
                    children[1],
                ),
            },
    {
        match how {
            Recombination::WholeGene => {
                let _kp: u32 = next_unit(rng);
                let _ki: u32 = next_unit(rng);
                let _kd: u32 = next_unit(rng);
                let second = Genome {
                    kp: other.kp,
                    ki: other.ki,
                    kd: other.kd,
                    model: self.model,
                    dir: self.dir,
                    seed: self.seed,
                };
                let mut children: Vec<Genome> = Vec::new();
                children.push(*self);
                children.push(second);
                children
            },
            Recombination::Digits(lo, hi) => self.crossover(other, (lo, hi), rng),
        }
    }

    /// The genome after mutation under given unit draws: for each gain a pair
    /// `(decision, amount)`.
    pub fn mutate_with(
        self,
        mutation_rate: i64,
        mutation_step: u64,
        kp_draws: (u32, u32),
        ki_draws: (u32, u32),
        kd_draws: (u32, u32),
    ) -> (after: Genome)
        ensures
            after.kp == mutated(self.kp, mutation_rate, mutation_step, kp_draws.0, kp_draws.1),
            after.ki == mutated(self.ki, mutation_rate, mutation_step, ki_draws.0, ki_draws.1),
            after.kd == mutated(self.kd, mutation_rate, mutation_step, kd_draws.0, kd_draws.1),
            after.costed_as(self),
            after.in_domain(),
    {
        Genome {
            kp: mutate_gain_with(self.kp, mutation_rate, mutation_step, kp_draws.0, kp_draws.1),
            ki: mutate_gain_with(self.ki, mutation_rate, mutation_step, ki_draws.0, ki_draws.1),
            kd: mutate_gain_with(self.kd, mutation_rate, mutation_step, kd_draws.0, kd_draws.1),
            model: self.model,
            dir: self.dir,
            seed: self.seed,
        }
    }

    /// The genome after mutation with draws from `rng`. Each gain in turn
    /// (kp, ki, kd) is perturbed with probability `mutation_rate` by an
    /// amount drawn uniformly between minus and plus `mutation_step`, and
    /// then brought back among the gains.
    pub fn mutate(self, mutation_rate: i64, mutation_step: u64, rng: &mut StdRng) -> (after: Genome)
        ensures
            mutant_of(self, mutation_rate, mutation_step, after),
            after.in_domain(),
    {
        let kp = mutate_gain(self.kp, mutation_rate, mutation_step, rng);
        let ki = mutate_gain(self.ki, mutation_rate, mutation_step, rng);
        let kd = mutate_gain(self.kd, mutation_rate, mutation_step, rng);
        Genome { kp, ki, kd, model: self.model, dir: self.dir, seed: self.seed }
    }
}

impl Individual {
    /// The genome of the individual.
    pub closed spec fn genes(self) -> Genome {
        self.genome
    }

    /// The cost of the individual, as the bit pattern of a binary32 number.
    pub closed spec fn cost(self) -> u32 {
        self.fitness
    }

    /// The integer by which individuals are ordered: lower is fitter.
    pub open spec fn rank(self) -> int {
        order_key(self.cost())
    }

    /// The cost is a finite number.
    pub open spec fn viable(self) -> bool {
        is_finite(self.cost())
    }

    /// An individual with the given genome and the cost that the cost function
    /// gave for it.
    pub fn new(genome: Genome, fitness: u32) -> (individual: Individual)
        ensures
            individual.genes() == genome,
            individual.cost() == fitness,
    {
        Individual { genome, fitness }
    }

    /// The two children of `self` and `other`, not yet costed.
    pub fn crossover(&self, other: &Individual, digit_range: (i32, i32), rng: &mut StdRng) -> (children:
        Vec<Genome>)
        ensures
            children.len() == 2,
            offspring_of(
                self.genes(),
                other.genes(),
                digit_range.0 as int,
                digit_range.1 as int,
                children[0],
                children[1],
            ),
            children[0].in_domain(),
            children[1].in_domain(),
    {
        self.genome.crossover(&other.genome, digit_range, rng)
    }

    /// The genome of the individual after mutation, not yet costed.
    pub fn mutate(self, mutation_rate: i64, mutation_step: u64, rng: &mut StdRng) -> (after: Genome)
        ensures
            mutant_of(self.genes(), mutation_rate, mutation_step, after),
            after.in_domain(),
    {
        self.genome.mutate(mutation_rate, mutation_step, rng)
    }

    /// The genome of the individual.
    pub fn genome(&self) -> (genome: Genome)
        ensures
            genome == self.genes(),
    {
        self.genome
    }

    /// The proportional gain.
    pub fn kp(&self) -> (kp: u64)
        ensures
            kp == self.genes().kp,
    {
        self.genome.kp
    }

    /// The integral gain.
    pub fn ki(&self) -> (ki: u64)
        ensures
            ki == self.genes().ki,
    {
        self.genome.ki
    }

    /// The derivative gain.
    pub fn kd(&self) -> (kd: u64)
        ensures
            kd == self.genes().kd,
    {
        self.genome.kd
    }

    /// The cost, as the bit pattern of a binary32 number.
    pub fn fitness(&self) -> (fitness: u32)
        ensures
            fitness == self.cost(),
    {
        self.fitness
    }

    /// Whether the cost is a finite number.
    pub fn is_viable(&self) -> (r: bool)
        ensures
            r == self.viable(),
    {
        finite(self.fitness)
    }

    /// The integer by which individuals are ordered.
    pub fn rank_key(&self) -> (k: i64)
        ensures
            k == self.rank(),
    {
        key(self.fitness)
    }
}

impl PartialEq for Individual {
    /// Individuals are equal where their costs are equal numbers, whatever
    /// their genomes. A cost that is not a number equals none.
    fn eq(&self, other: &Individual) -> (r: bool) {
        !nan(self.fitness) && !nan(other.fitness) && key(self.fitness) == key(other.fitness)
    }
}

impl PartialEqSpecImpl for Individual {
    open spec fn obeys_eq_spec() -> bool {
        true
    }

    open spec fn eq_spec(&self, other: &Individual) -> bool {
        !is_nan(self.cost()) && !is_nan(other.cost()) && self.rank() == other.rank()
    }
}

impl PartialOrd for Individual {
    /// Individuals are ordered as their costs are: the lower the cost, the
    /// fitter. A cost that is not a number compares with none.
    fn partial_cmp(&self, other: &Individual) -> (r: Option<Ordering>) {
        if nan(self.fitness) || nan(other.fitness) {
            None
        } else if key(self.fitness) < key(other.fitness) {
            Some(Ordering::Less)
        } else if key(self.fitness) > key(other.fitness) {
            Some(Ordering::Greater)
        } else {
            Some(Ordering::Equal)
        }
    }
}

impl PartialOrdSpecImpl for Individual {
    open spec fn obeys_partial_cmp_spec() -> bool {
        true
    }

    open spec fn partial_cmp_spec(&self, other: &Individual) -> Option<Ordering> {
        if is_nan(self.cost()) || is_nan(other.cost()) {
            None
        } else if self.rank() < other.rank() {
            Some(Ordering::Less)
        } else if self.rank() > other.rank() {
            Some(Ordering::Greater)
        } else {
            Some(Ordering::Equal)
        }
    }
}

} // verus!
