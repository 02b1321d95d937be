//! The optimizer: a population that is taken from one generation to the next
//! by selection, reproduction, mutation and replacement.

use crate::gain::ONE;
use crate::individual::mutant_of;
use crate::individual::offspring_of;
use crate::individual::Genome;
use crate::individual::Individual;
use crate::individual::Model;
use crate::population::lemma_normalized;
use crate::population::lemma_ranked;
use crate::population::drawn_batch;
use crate::population::normalized;
use crate::population::ranked;
use crate::population::unviable_count;
use crate::population::well_formed;
use crate::population::Population;
use crate::population::CAPACITY;
use crate::rng::seeded;
use crate::work::may_pool;
use crate::work::Work;
use rand::rngs::StdRng;
use vstd::prelude::*;

verus! {

/// Why a generation was refused.
#[derive(Clone, Copy, Debug, PartialEq, Eq, Structural)]
pub enum RateError {
    /// The mutation rate is not between 0 and `ONE`.
    MutationRate,
    /// The replace rate is not between 0 and `ONE`.
    ReplaceRate,
}

/// Number of fighters in the tournaments of a generation.
pub const TOURNAMENT_SIZE: usize = 3;

/// A rate is a share between nothing and all: 0 to `ONE`.
pub open spec fn valid_rate(rate: i64) -> bool {
    0 <= rate <= ONE
}

/// The winner of a tournament: the fighter of the lowest cost, the last of
/// them where several have it.
pub open spec fn winner(fighters: Seq<Individual>) -> Individual
    decreases fighters.len(),
{
    if fighters.len() <= 1 {
        fighters[0]
    } else {
        let best = winner(fighters.drop_last());
        if best.rank() < fighters.last().rank() {
            best
        } else {
            fighters.last()
        }
    }
}

/// `champion` wins some tournament of `size` fighters, each of them a member
/// of `members`; a member may fight more than once.
pub open spec fn wins_tournament(members: Seq<Individual>, size: nat, champion: Individual) -> bool {
    exists|fighters: Seq<Individual>|
        fighters.len() == size && (forall|j: int|
            0 <= j < fighters.len() ==> members.contains(#[trigger] fighters[j])) && champion
            == #[trigger] winner(fighters)
}

/// Number of individuals that selection yields from `len` members with
/// tournaments of `size` fighters.
pub open spec fn pool_size(len: nat, size: nat) -> nat {
    if len < size {
        len
    } else {
        len / size
    }
}

/// Number of members that survive replacement at the given rate: the share
/// `1 - replace_rate` of them, rounded down.
pub open spec fn retained(len: nat, replace_rate: i64) -> nat {
    ((len * (ONE - replace_rate)) / (ONE as int)) as nat
}

/// The next generation: the `keep` fittest of `members` together with what
/// a population keeps of `children`.
pub open spec fn replaced(members: Seq<Individual>, keep: nat, children: Seq<Individual>) -> Seq<
    Individual,
> {
    normalized(
        members.take(
            if keep < members.len() {
                keep as int
            } else {
                members.len() as int
            },
        ) + normalized(children),
    )
}

/// `genome` is a child of two of `members`.
pub open spec fn child_of(members: Seq<Individual>, lo: int, hi: int, genome: Genome) -> bool {
    exists|father: Individual, mother: Individual, first: Genome, second: Genome|
        members.contains(father) && members.contains(mother) && #[trigger] offspring_of(
            father.genes(),
            mother.genes(),
            lo,
            hi,
            first,
            second,
        ) && (genome == first || genome == second)
}

/// `genome` is a mutant of a child of two of `members`.
pub open spec fn bred_from(
    members: Seq<Individual>,
    lo: int,
    hi: int,
    rate: i64,
    step: u64,
    genome: Genome,
) -> bool {
    exists|child: Genome| child_of(members, lo, hi, child) && #[trigger] mutant_of(
            child,
            rate,
            step,
            genome,
        )
}

/// `genomes` is what one round of selection, reproduction and mutation may
/// yield from `members`: two for each pair of selected parents, each of them a
/// mutant of a child of two members, with all its gains among the gains.
pub open spec fn bred_batch(
    members: Seq<Individual>,
    lo: int,
    hi: int,
    rate: i64,
    step: u64,
    genomes: Seq<Genome>,
) -> bool {
    genomes.len() == 2 * (pool_size(members.len(), TOURNAMENT_SIZE as nat) / 2) && forall|i: int|
        0 <= i < genomes.len() ==> (#[trigger] genomes[i]).in_domain() && bred_from(
            members,
            lo,
            hi,
            rate,
            step,
            genomes[i],
        )
}

/// The winner of a tournament is one of the fighters, none of them has a
/// lower cost, and none after it has the same.
pub proof fn lemma_winner(fighters: Seq<Individual>)
    requires
        fighters.len() > 0,
    ensures
        fighters.contains(winner(fighters)),
        forall|j: int|
            0 <= j < fighters.len() ==> winner(fighters).rank() <= (#[trigger] fighters[j]).rank(),
        exists|at: int|
            0 <= at < fighters.len() && #[trigger] fighters[at] == winner(fighters) && forall|j: int|
                at < j < fighters.len() ==> winner(fighters).rank() < (#[trigger] fighters[j]).rank(),
    decreases fighters.len(),
{
    if fighters.len() == 1 {
        assert(fighters[0] == winner(fighters));
    } else {
        let shorter = fighters.drop_last();
        lemma_winner(shorter);
        let best = winner(shorter);
        let at = choose|at: int|
            0 <= at < shorter.len() && #[trigger] shorter[at] == best && forall|j: int|
                at < j < shorter.len() ==> best.rank() < (#[trigger] shorter[j]).rank();
        assert forall|j: int| 0 <= j < fighters.len() implies winner(fighters).rank() <= (
        #[trigger] fighters[j]).rank() by {
            if j < shorter.len() {
                assert(shorter[j] == fighters[j]);
            }
        }
        if best.rank() < fighters.last().rank() {
            assert(fighters[at] == shorter[at]);
            assert forall|j: int| at < j < fighters.len() implies winner(fighters).rank() < (
            #[trigger] fighters[j]).rank() by {
                if j < shorter.len() {
                    assert(shorter[j] == fighters[j]);
                }
            }
        } else {
            assert(fighters[fighters.len() - 1] == winner(fighters));
        }
    }
}

/// The winner among `fighters`, if there is any fighter.
pub fn tournament_winner(fighters: &Vec<Individual>) -> (champion: Option<Individual>)
    ensures
        fighters@.len() == 0 ==> champion is None,
        fighters@.len() > 0 ==> champion == Some(winner(fighters@)),
{
    if fighters.len() == 0 {
        return None;
    }
    let mut best: Individual = fighters[0];
    let mut i: usize = 1;
    assert(fighters@.take(1).len() == 1);
    while i < fighters.len()
        invariant
            1 <= i <= fighters.len(),
            best == winner(fighters@.take(i as int)),
        decreases fighters.len() - i,
    {
        proof {
            assert(fighters@.take(i + 1).drop_last() =~= fighters@.take(i as int));
        }
        if !(best.rank_key() < fighters[i].rank_key()) {
            best = fighters[i];
        }
        i = i + 1;
    }
    assert(fighters@.take(i as int) =~= fighters@);
    Some(best)
}

/// Whether a rate is a share between nothing and all.
pub fn rate_is_valid(rate: i64) -> (valid: bool)
    ensures
        valid == valid_rate(rate),
{
    0 <= rate && rate <= 10_000_000_000
}

/// Number of members that survive replacement at the given rate.
pub fn retained_of(len: usize, replace_rate: i64) -> (keep: usize)
    requires
        valid_rate(replace_rate),
    ensures
        keep == retained(len as nat, replace_rate),
        keep <= len,
{
    let share: u64 = (ONE as i64 - replace_rate) as u64;
    assert(len * share <= 0x1_0000_0000_0000_0000 * 10_000_000_000) by (nonlinear_arith)
        requires
            len < 0x1_0000_0000_0000_0000,
            share <= 10_000_000_000,
    ;
    let product: u128 = (len as u128) * (share as u128);
    let keep: u128 = product / (ONE as u128);
    assert(keep <= len) by (nonlinear_arith)
        requires
            keep == product / 10_000_000_000,
            product == len * share,
            share <= 10_000_000_000,
            0 <= len,
    ;
    keep as usize
}

/// The settings of an optimizer. `default()` gives all of them as zero, an
/// empty directory name and the first model; each `with_` method sets one.
#[derive(Clone, Copy, Debug)]
pub struct GeneticAlgorithmBuilder {
    /// Number of genomes drawn for the first generation.
    pub population_size: usize,
    /// Number of workers that share the costing of the first generation; with
    /// 0 it is done in one batch.
    pub parallel_works: usize,
    /// The farthest that mutation moves a gain.
    pub mutation_step: u64,
    /// The plant that the controller is tuned for.
    pub model: Model,
    /// Lowest and highest decimal exponent of the digits that crossover
    /// exchanges.
    pub digit_range: (i32, i32),
    /// Name of the directory that the cost function may write to.
    pub dir: &'static str,
    /// Largest proportional gain of the first generation.
    pub max_kp: u64,
    /// Largest integral gain of the first generation.
    pub max_ki: u64,
    /// Largest derivative gain of the first generation.
    pub max_kd: u64,
    /// Seed of every generator of the run.
    pub seed: u64,
}

impl Default for GeneticAlgorithmBuilder {
    fn default() -> (builder: GeneticAlgorithmBuilder)
        ensures
            builder == (GeneticAlgorithmBuilder {
                population_size: 0,
                parallel_works: 0,
                mutation_step: 0,
                model: Model::DCMotor,
                digit_range: (0i32, 0i32),
                dir: "",
                max_kp: 0,
                max_ki: 0,
                max_kd: 0,
                seed: 0,
            }),
    {
        GeneticAlgorithmBuilder {
            population_size: 0,
            parallel_works: 0,
            mutation_step: 0,
            model: Model::DCMotor,
            digit_range: (0, 0),
            dir: "",
            max_kp: 0,
            max_ki: 0,
            max_kd: 0,
            seed: 0,
        }
    }
}

impl GeneticAlgorithmBuilder {
    /// Sets the number of genomes drawn for the first generation.
    pub fn with_population_size(self, size: usize) -> (builder: GeneticAlgorithmBuilder)
        ensures
            builder == (GeneticAlgorithmBuilder { population_size: size, ..self }),
    {
        GeneticAlgorithmBuilder { population_size: size, ..self }
    }

    /// Sets the number of workers that share the costing of the first generation.
    pub fn with_parallel_works(self, works: usize) -> (builder: GeneticAlgorithmBuilder)
        ensures
            builder == (GeneticAlgorithmBuilder { parallel_works: works, ..self }),
    {
        GeneticAlgorithmBuilder { parallel_works: works, ..self }
    }

    /// Sets the plant that the controller is tuned for.
    pub fn with_model(self, model: Model) -> (builder: GeneticAlgorithmBuilder)
        ensures
            builder == (GeneticAlgorithmBuilder { model, ..self }),
    {
        GeneticAlgorithmBuilder { model, ..self }
    }

    /// Sets the farthest that mutation moves a gain.
    pub fn with_mutation_step(self, step: u64) -> (builder: GeneticAlgorithmBuilder)
        ensures
            builder == (GeneticAlgorithmBuilder { mutation_step: step, ..self }),
    {
        GeneticAlgorithmBuilder { mutation_step: step, ..self }
    }

    /// Sets the lowest and highest decimal exponent of the digits that crossover
    /// exchanges.
    pub fn with_digit_range(self, range: (i32, i32)) -> (builder: GeneticAlgorithmBuilder)
        ensures
            builder == (GeneticAlgorithmBuilder { digit_range: range, ..self }),
    {
        GeneticAlgorithmBuilder { digit_range: range, ..self }
    }

    /// Sets the name of the directory that the cost function may write to.
    pub fn with_output_dir(self, dir: &'static str) -> (builder: GeneticAlgorithmBuilder)
        ensures
            builder == (GeneticAlgorithmBuilder { dir, ..self }),
    {
        GeneticAlgorithmBuilder { dir, ..self }
    }

    /// Sets the largest proportional gain of the first generation.
    pub fn with_max_kp(self, max_kp: u64) -> (builder: GeneticAlgorithmBuilder)
        ensures
            builder == (GeneticAlgorithmBuilder { max_kp, ..self }),
    {
        GeneticAlgorithmBuilder { max_kp, ..self }
    }

    /// Sets the largest integral gain of the first generation.
    pub fn with_max_ki(self, max_ki: u64) -> (builder: GeneticAlgorithmBuilder)
        ensures
            builder == (GeneticAlgorithmBuilder { max_ki, ..self }),
    {
        GeneticAlgorithmBuilder { max_ki, ..self }
    }

    /// Sets the largest derivative gain of the first generation.
    pub fn with_max_kd(self, max_kd: u64) -> (builder: GeneticAlgorithmBuilder)
        ensures
            builder == (GeneticAlgorithmBuilder { max_kd, ..self }),
    {
        GeneticAlgorithmBuilder { max_kd, ..self }
    }

    /// Sets the seed of every generator of the run.
    pub fn with_seed(self, seed: u64) -> (builder: GeneticAlgorithmBuilder)
        ensures
            builder == (GeneticAlgorithmBuilder { seed, ..self }),
    {
        GeneticAlgorithmBuilder { seed, ..self }
    }

    /// An optimizer with these settings, before its first generation. The
    /// first population is drawn at random and costed by `evaluator`: in one
    /// batch where `parallel_works` is 0, by a pool of that many copies of it
    /// otherwise.
    pub fn build<W>(self, evaluator: &mut W) -> (optimizer: GeneticAlgorithm) where
        W: Work<Input = Genome, Output = Individual> + Clone,

        ensures
            optimizer.wf(),
            optimizer.generations() == 0,
            optimizer.run_seed() == self.seed,
            optimizer.step() == self.mutation_step,
            optimizer.range() == self.digit_range,
            self.parallel_works == 0 ==> exists|genomes: Seq<Genome>, individuals: Seq<Individual>|
                #![trigger old(evaluator).may_return(genomes, individuals)]
                drawn_batch(
                    self.population_size,
                    self.model,
                    self.dir,
                    self.max_kp,
                    self.max_ki,
                    self.max_kd,
                    self.seed,
                    genomes,
                ) && old(evaluator).may_return(genomes, individuals) && optimizer.members()
                    == normalized(individuals),
            self.parallel_works != 0 ==> exists|
                genomes: Seq<Genome>,
                copy: W,
                individuals: Seq<Individual>,
            |
                #![trigger may_pool(self.parallel_works as nat, copy, genomes, individuals)]
                drawn_batch(
                    self.population_size,
                    self.model,
                    self.dir,
                    self.max_kp,
                    self.max_ki,
                    self.max_kd,
                    self.seed,
                    genomes,
                ) && cloned(*old(evaluator), copy) && may_pool(
                    self.parallel_works as nat,
                    copy,
                    genomes,
                    individuals,
                ) && optimizer.members() == normalized(individuals),
    {
        let population = if self.parallel_works == 0 {
            Population::new(
                self.population_size,
                self.model,
                self.dir,
                self.max_kp,
                self.max_ki,
                self.max_kd,
                self.seed,
                evaluator,
            )
        } else {
            Population::new_parallel(
                self.population_size,
                self.parallel_works,
                self.model,
                self.dir,
                self.max_kp,
                self.max_ki,
                self.max_kd,
                self.seed,
                evaluator,
            )
        };
        GeneticAlgorithm {
            population,
            generation: 0,
            mutation_step: self.mutation_step,
            digit_range: self.digit_range,
            seed: self.seed,
            rng: seeded(self.seed),
        }
    }
}

/// A population with the number of generations it has gone through, the
/// settings of reproduction, and the generator from which reproduction draws.
pub struct GeneticAlgorithm {
    population: Population,
    generation: usize,
    mutation_step: u64,
    digit_range: (i32, i32),
    seed: u64,
    rng: StdRng,
}

/// A sequence of viable individuals holds none that is not.
proof fn lemma_all_viable_count(s: Seq<Individual>)
    requires
        forall|i: int| 0 <= i < s.len() ==> (#[trigger] s[i]).viable(),
    ensures
        unviable_count(s) == 0,
    decreases s.len(),
{
    if s.len() > 0 {
        let shorter = s.drop_last();
        assert forall|i: int| 0 <= i < shorter.len() implies (#[trigger] shorter[i]).viable() by {
            assert(shorter[i] == s[i]);
        }
        lemma_all_viable_count(shorter);
        assert(s[s.len() - 1].viable());
    }
}

/// Whoever has a finite cost and is made into a population does not beat the
/// first member of it.
pub proof fn lemma_normalized_best(s: Seq<Individual>, x: Individual)
    requires
        s.contains(x),
        x.viable(),
    ensures
        normalized(s).len() > 0,
        normalized(s)[0].rank() <= x.rank(),
{
    broadcast use vstd::seq_lib::group_to_multiset_ensures;

    lemma_ranked(s);
    let r = ranked(s);
    assert(s.to_multiset().count(x) > 0);
    assert(r.to_multiset().count(x) > 0);
    assert(r.contains(x));
    let at = choose|at: int| 0 <= at < r.len() && r[at] == x;
    assert(r[0].rank() <= r[at].rank());
    if r.len() > CAPACITY {
        assert(normalized(s)[0] == r[0]);
    }
}

impl GeneticAlgorithm {
    /// The members of the population, fittest first.
    pub closed spec fn members(&self) -> Seq<Individual> {
        self.population@
    }

    /// Number of generations that the population has gone through.
    pub closed spec fn generations(&self) -> nat {
        self.generation as nat
    }

    /// The seed of the run.
    pub closed spec fn run_seed(&self) -> u64 {
        self.seed
    }

    /// The farthest that mutation moves a gain.
    pub closed spec fn step(&self) -> u64 {
        self.mutation_step
    }

    /// Lowest and highest decimal exponent of the digits that crossover
    /// exchanges.
    pub closed spec fn range(&self) -> (i32, i32) {
        self.digit_range
    }

    /// The population is well formed.
    pub open spec fn wf(&self) -> bool {
        well_formed(self.members())
    }

    /// Both optimizers reproduce with the same settings.
    pub open spec fn same_settings(&self, other: &GeneticAlgorithm) -> bool {
        self.run_seed() == other.run_seed() && self.step() == other.step() && self.range()
            == other.range()
    }

    /// The seed of the run.
    pub fn seed(&self) -> (seed: u64)
        ensures
            seed == self.run_seed(),
    {
        self.seed
    }

    /// Number of generations that the population has gone through.
    pub fn generation(&self) -> (generation: usize)
        ensures
            generation == self.generations(),
    {
        self.generation
    }

    /// Number of members of the population.
    pub fn len(&self) -> (len: usize)
        ensures
            len == self.members().len(),
    {
        self.population.len()
    }

    /// The population of the current generation.
    pub fn population(&self) -> (population: &Population)
        ensures
            population@ == self.members(),
    {
        &self.population
    }

    /// The fittest member of the population, if it has any member.
    pub fn best(&self) -> (best: Option<Individual>)
        ensures
            self.members().len() == 0 ==> best is None,
            self.members().len() > 0 ==> best == Some(self.members()[0]),
    {
        match self.population.get_best() {
            Some(individual) => Some(*individual),
            None => None,
        }
    }

    /// Selection by tournament. A population with fewer members than a
    /// tournament has fighters is returned whole. Otherwise as many
    /// tournaments are held as their size goes into the number of members;
    /// the fighters of each are members drawn uniformly at random, the same
    /// one perhaps more than once, and the winners are made into a
    /// population. The members stay as they are.
    pub fn tournament_section(&mut self, tournament_size: usize) -> (selected: Population)
        requires
            old(self).wf(),
            tournament_size > 0,
        ensures
            final(self).members() == old(self).members(),
            final(self).generations() == old(self).generations(),
            final(self).same_settings(old(self)),
            selected.wf(),
            selected@.len() == pool_size(old(self).members().len(), tournament_size as nat),
            old(self).members().len() < tournament_size ==> selected@ == old(self).members(),
            old(self).members().len() >= tournament_size ==> exists|winners: Seq<Individual>|
                winners.len() == old(self).members().len() / (tournament_size as nat) && (forall|
                    t: int,
                |
                    0 <= t < winners.len() ==> wins_tournament(
                        old(self).members(),
                        tournament_size as nat,
                        #[trigger] winners[t],
                    )) && selected@ == #[trigger] ranked(winners),
            old(self).members().len() >= tournament_size ==> forall|i: int|
                0 <= i < selected@.len() ==> wins_tournament(
                    old(self).members(),
                    tournament_size as nat,
                    #[trigger] selected@[i],
                ),
            forall|i: int|
                0 <= i < selected@.len() ==> old(self).members().contains(#[trigger] selected@[i]),
    {
        let ghost members = self.population@;
        let len: usize = self.population.len();
        if len < tournament_size {
            let whole = self.population.clone();
            assert forall|i: int| 0 <= i < whole@.len() implies members.contains(
                #[trigger] whole@[i],
            ) by {
                assert(members[i] == whole@[i]);
            }
            return whole;
        }
        let tournaments: usize = len / tournament_size;
        let mut winners: Vec<Individual> = Vec::new();
        let mut t: usize = 0;
        while t < tournaments
            invariant
                t <= tournaments,
                tournament_size > 0,
                members.len() >= tournament_size,
                self.population@ == members,
                well_formed(members),
                self.generations() == old(self).generations(),
                self.same_settings(old(self)),
                winners@.len() == t,
                forall|j: int|
                    0 <= j < winners@.len() ==> wins_tournament(
                        members,
                        tournament_size as nat,
                        #[trigger] winners@[j],
                    ),
                forall|j: int|
                    0 <= j < winners@.len() ==> members.contains(#[trigger] winners@[j]),
            decreases tournaments - t,
        {
            let mut fighters: Vec<Individual> = Vec::new();
            let mut f: usize = 0;
            while f < tournament_size
                invariant
                    f <= tournament_size,
                    members.len() > 0,
                    self.population@ == members,
                    self.generations() == old(self).generations(),
                    self.same_settings(old(self)),
                    fighters@.len() == f,
                    forall|j: int|
                        0 <= j < fighters@.len() ==> members.contains(#[trigger] fighters@[j]),
                decreases tournament_size - f,
            {
                let fighter = self.population.get_random_individual();
                fighters.push(fighter);
                f = f + 1;
            }
            let champion = tournament_winner(&fighters).unwrap();
            proof {
                lemma_winner(fighters@);
                let at = choose|at: int| 0 <= at < fighters@.len() && fighters@[at] == champion;
                assert(members.contains(fighters@[at]));
            }
            winners.push(champion);
            t = t + 1;
        }
        proof {
            assert forall|j: int| 0 <= j < winners@.len() implies (#[trigger] winners@[j]).viable() by {
                let at = choose|at: int| 0 <= at < members.len() && members[at] == winners@[j];
                assert(members[at].viable());
            }
            lemma_all_viable_count(winners@);
            lemma_ranked(winners@);
            lemma_normalized(winners@);
            lemma_quotient_bound(len as int, tournament_size as int);
        }
        let selected = Population::from_individuals(winners, self.seed);
        proof {
            assert(selected@ == ranked(winners@));
            assert forall|i: int| 0 <= i < selected@.len() implies wins_tournament(
                members,
                tournament_size as nat,
                #[trigger] selected@[i],
            ) && members.contains(selected@[i]) by {
                assert(winners@.contains(selected@[i]));
                let at = choose|at: int| 0 <= at < winners@.len() && winners@[at] == selected@[i];
                assert(wins_tournament(members, tournament_size as nat, winners@[at]));
            }
        }
        selected
    }

    /// Selection, reproduction and mutation. Parents are selected by
    /// tournaments of `TOURNAMENT_SIZE` fighters and paired at random; a
    /// parent left without a partner is dropped. Each pair has two children,
    /// and every child is mutated at the given rate. The mutants are returned
    /// in the order of their pairs, not yet costed, and the members stay as
    /// they are.
    pub fn breed(&mut self, mutation_rate: i64) -> (genomes: Vec<Genome>)
        requires
            old(self).wf(),
        ensures
            final(self).members() == old(self).members(),
            final(self).generations() == old(self).generations(),
            final(self).same_settings(old(self)),
            genomes@.len() == 2 * (pool_size(old(self).members().len(), TOURNAMENT_SIZE as nat) / 2),
            forall|i: int|
                0 <= i < genomes@.len() ==> (#[trigger] genomes@[i]).in_domain() && bred_from(
                    old(self).members(),
                    old(self).range().0 as int,
                    old(self).range().1 as int,
                    mutation_rate,
                    old(self).step(),
                    genomes@[i],
                ),
    {
        let ghost members = self.population@;
        let ghost lo = self.digit_range.0 as int;
        let ghost hi = self.digit_range.1 as int;
        let mut to_reproduce = self.tournament_section(TOURNAMENT_SIZE);
        let ghost pool = to_reproduce@;
        let pairs = to_reproduce.pop_all_parents();
        let mut children: Vec<Genome> = Vec::new();
        let mut p: usize = 0;
        while p < pairs.len()
            invariant
                p <= pairs.len(),
                2 * pairs@.len() <= pool.len() <= CAPACITY,
                self.population@ == members,
                self.generations() == old(self).generations(),
                self.same_settings(old(self)),
                lo == self.digit_range.0,
                hi == self.digit_range.1,
                children@.len() == 2 * p,
                forall|k: int|
                    0 <= k < pairs@.len() ==> members.contains((#[trigger] pairs@[k]).0)
                        && members.contains(pairs@[k].1),
                forall|c: int|
                    0 <= c < children@.len() ==> child_of(members, lo, hi, #[trigger] children@[c]),
            decreases pairs.len() - p,
        {
            let father: Individual = pairs[p].0;
            let mother: Individual = pairs[p].1;
            let two = father.crossover(&mother, self.digit_range, &mut self.rng);
            let first: Genome = two[0];
            let second: Genome = two[1];
            proof {
                assert(members.contains(pairs@[p as int].0));
                assert(offspring_of(father.genes(), mother.genes(), lo, hi, first, second));
                assert(child_of(members, lo, hi, first));
                assert(child_of(members, lo, hi, second));
            }
            children.push(first);
            children.push(second);
            p = p + 1;
        }
        let mut genomes: Vec<Genome> = Vec::new();
        let mut c: usize = 0;
        while c < children.len()
            invariant
                c <= children.len(),
                self.population@ == members,
                self.generations() == old(self).generations(),
                self.same_settings(old(self)),
                lo == self.digit_range.0,
                hi == self.digit_range.1,
                genomes@.len() == c,
                forall|k: int|
                    0 <= k < children@.len() ==> child_of(members, lo, hi, #[trigger] children@[k]),
                forall|i: int|
                    0 <= i < genomes@.len() ==> (#[trigger] genomes@[i]).in_domain() && bred_from(
                        members,
                        lo,
                        hi,
                        mutation_rate,
                        self.mutation_step,
                        genomes@[i],
                    ),
            decreases children.len() - c,
        {
            let child: Genome = children[c];
            let mutant = child.mutate(mutation_rate, self.mutation_step, &mut self.rng);
            proof {
                assert(child_of(members, lo, hi, children@[c as int]));
                assert(mutant_of(child, mutation_rate, self.mutation_step, mutant));
            }
            genomes.push(mutant);
            c = c + 1;
        }
        genomes
    }

    /// Replacement. The share `1 - replace_rate` of the members, the fittest
    /// of them, and what a population keeps of `children` are made into the
    /// next generation. Returns its fittest member, if it has any member.
    pub fn replace_with(&mut self, children: Vec<Individual>, replace_rate: i64) -> (best: Option<
        Individual,
    >)
        requires
            old(self).wf(),
            valid_rate(replace_rate),
            old(self).generations() < usize::MAX,
        ensures
            final(self).wf(),
            final(self).members() == replaced(
                old(self).members(),
                retained(old(self).members().len(), replace_rate),
                children@,
            ),
            final(self).generations() == old(self).generations() + 1,
            final(self).same_settings(old(self)),
            final(self).members().len() == 0 ==> best is None,
            final(self).members().len() > 0 ==> best == Some(final(self).members()[0]),
            old(self).members().len() > 0 && retained(old(self).members().len(), replace_rate) > 0
                ==> final(self).members().len() > 0 && final(self).members()[0].rank() <= old(
                self,
            ).members()[0].rank(),
    {
        let ghost members = self.population@;
        let all_children = Population::from_individuals(children, self.seed);
        let keep: usize = retained_of(self.population.len(), replace_rate);
        let best_parents = self.population.get_nth_bests(keep);
        proof {
            let elite = best_parents@;
            let joint = elite + all_children@;
            lemma_normalized(joint);
            if members.len() > 0 && keep > 0 {
                assert(elite[0] == members[0]);
                assert(joint[0] == members[0]);
                assert(members[0].viable());
                lemma_normalized_best(joint, members[0]);
            }
        }
        self.population = best_parents.merge(all_children);
        self.generation = self.generation + 1;
        self.best()
    }

    /// One generation: selection, reproduction and mutation as in
    /// [`GeneticAlgorithm::breed`], the costing of the mutants by `evaluator`
    /// in one batch, and replacement as in
    /// [`GeneticAlgorithm::replace_with`] by whatever `evaluator` returns.
    /// Returns the fittest member of the new generation; `None` says that the
    /// population is empty and the run is over.
    pub fn eval<W>(&mut self, mutation_rate: i64, replace_rate: i64, evaluator: &mut W) -> (best:
        Option<Individual>) where W: Work<Input = Genome, Output = Individual>
        requires
            old(self).wf(),
            valid_rate(mutation_rate),
            valid_rate(replace_rate),
            old(self).generations() < usize::MAX,
        ensures
            final(self).wf(),
            exists|genomes: Seq<Genome>, children: Seq<Individual>|
                #![trigger old(evaluator).may_return(genomes, children)]
                bred_batch(
                    old(self).members(),
                    old(self).range().0 as int,
                    old(self).range().1 as int,
                    mutation_rate,
                    old(self).step(),
                    genomes,
                ) && old(evaluator).may_return(genomes, children) && final(self).members()
                    == replaced(
                    old(self).members(),
                    retained(old(self).members().len(), replace_rate),
                    children,
                ),
            final(self).generations() == old(self).generations() + 1,
            final(self).same_settings(old(self)),
            final(self).members().len() == 0 ==> best is None,
            final(self).members().len() > 0 ==> best == Some(final(self).members()[0]),
            old(self).members().len() > 0 && retained(old(self).members().len(), replace_rate) > 0
                ==> final(self).members().len() > 0 && final(self).members()[0].rank() <= old(
                self,
            ).members()[0].rank(),
    {
        let genomes = self.breed(mutation_rate);
        let ghost bred = genomes@;
        let children = evaluator.work(genomes);
        let ghost costed = children@;
        assert(bred_batch(
            old(self).members(),
            old(self).range().0 as int,
            old(self).range().1 as int,
            mutation_rate,
            old(self).step(),
            bred,
        ));
        assert(old(evaluator).may_return(bred, costed));
        self.replace_with(children, replace_rate)
    }

    /// One generation as in [`GeneticAlgorithm::eval`], unless a rate is not
    /// between 0 and `ONE`: then nothing is drawn, costed or changed, and the
    /// error names the rate, the mutation rate where both are at fault.
    pub fn checked_eval<W>(
        &mut self,
        mutation_rate: i64,
        replace_rate: i64,
        evaluator: &mut W,
    ) -> (outcome: Result<Option<Individual>, RateError>) where
        W: Work<Input = Genome, Output = Individual>,

        requires
            old(self).wf(),
            old(self).generations() < usize::MAX,
        ensures
            !valid_rate(mutation_rate) ==> outcome == Err::<Option<Individual>, RateError>(
                RateError::MutationRate,
            ),
            valid_rate(mutation_rate) && !valid_rate(replace_rate) ==> outcome == Err::<
                Option<Individual>,
                RateError,
            >(RateError::ReplaceRate),
            outcome is Err ==> *final(self) == *old(self),
            valid_rate(mutation_rate) && valid_rate(replace_rate) ==> (outcome matches Ok(best) && {
                &&& final(self).wf()
                &&& exists|genomes: Seq<Genome>, children: Seq<Individual>|
                    #![trigger old(evaluator).may_return(genomes, children)]
                    bred_batch(
                        old(self).members(),
                        old(self).range().0 as int,
                        old(self).range().1 as int,
                        mutation_rate,
                        old(self).step(),
                        genomes,
                    ) && old(evaluator).may_return(genomes, children) && final(self).members()
                        == replaced(
                        old(self).members(),
                        retained(old(self).members().len(), replace_rate),
                        children,
                    )
                &&& final(self).generations() == old(self).generations() + 1
                &&& final(self).same_settings(old(self))
                &&& final(self).members().len() == 0 ==> best is None
                &&& final(self).members().len() > 0 ==> best == Some(final(self).members()[0])
            }),
    {
        if !rate_is_valid(mutation_rate) {
            return Err(RateError::MutationRate);
        }
        if !rate_is_valid(replace_rate) {
            return Err(RateError::ReplaceRate);
        }
        Ok(self.eval(mutation_rate, replace_rate, evaluator))
    }
}

/// A quotient by a positive number does not exceed what is divided.
proof fn lemma_quotient_bound(t: int, w: int)
    requires
        0 <= t,
        0 < w,
    ensures
        0 <= t / w <= t,
{
    vstd::arithmetic::div_mod::lemma_fundamental_div_mod(t, w);
    vstd::arithmetic::div_mod::lemma_mod_bound(t, w);
    assert(0 <= t / w <= t) by (nonlinear_arith)
        requires
            t == w * (t / w) + t % w,
            0 <= t % w < w,
            0 <= t,
            0 < w,
    ;
}

} // verus!
