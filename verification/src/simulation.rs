//! The simulation driver: it owns the population, advances it by one
//! generation per step, keeps the fittest individual seen so far, and
//! finishes when the generation limit is reached.
//!
//! Within a parent group the parents are paired in a cycle: the child at
//! place `t` of a group descends from the parents at the places `t` and
//! `t + 1`, the last parent being paired with the first.

use vstd::prelude::*;
use crate::crossover::{crossover, crossover_child};
use crate::mutation::{all_partnered, mutate, mutated, no_own_partner, partners_in_range};
use crate::population::{
    all_scored_by,
    best_index,
    fitness_values,
    is_first_best,
    members,
    random_population,
    scored_by,
    Individual,
    Scored,
};
use crate::ratio::Ratio;
use crate::reinsertion::{lemma_reinsertion_keeps_scores, reinsert, reinserted};
use crate::selection::{group_count, group_places, groups_of, select};
use crate::tsp::{ids_in_order, lemma_fitness_bounds, on_canvas, tour_cost, City, TSP};

verus! {

/// The width of the demonstration's canvas.
pub const WIDTH: u32 = 1000;

/// The height of the demonstration's canvas.
pub const HEIGHT: u32 = 1000;

/// The number of cities of the demonstration.
pub const N_CITIES: usize = 80;

/// The population size of the demonstration.
pub const N_POPULATION: usize = 40;

/// The size of the demonstration's parent groups.
pub const N_INDIVIDUALS_PER_PARENTS: usize = 3;

/// The generation limit of the demonstration.
pub const GENERATION_LIMIT: u64 = 10000;

/// What a simulation is run with.
#[derive(Debug, Clone, Copy)]
pub struct Config {
    pub city_count: usize,
    pub population_size: usize,
    pub group_size: usize,
    pub selection_ratio: Ratio,
    pub mutation_rate: Ratio,
    pub reinsertion_ratio: Ratio,
    pub elitist: bool,
    pub generation_limit: u64,
    pub canvas_width: u32,
    pub canvas_height: u32,
}

/// Why a configuration was refused.
#[derive(Debug, Clone, Copy, PartialEq, Eq)]
pub enum ConfigurationError {
    /// The population size is zero.
    EmptyPopulation,
    /// The group size is zero.
    EmptyGroup,
    /// There are fewer than two cities.
    TooFewCities,
    /// One of the ratios is not a fraction between zero and one.
    RatioOutOfRange,
}

/// What one step reports.
#[derive(Debug)]
pub enum StepResult {
    /// The simulation goes on.
    Intermediate { generation: u64, best_individual: Individual },
    /// The generation limit is reached.
    Final { generation: u64, best_individual: Individual },
}

/// The first fault of the configuration, if it has one.
pub open spec fn config_fault(config: Config) -> Option<ConfigurationError> {
    if config.population_size == 0 {
        Some(ConfigurationError::EmptyPopulation)
    } else if config.group_size == 0 {
        Some(ConfigurationError::EmptyGroup)
    } else if config.city_count < 2 {
        Some(ConfigurationError::TooFewCities)
    } else if !config.selection_ratio.valid() || !config.mutation_rate.valid()
        || !config.reinsertion_ratio.valid() {
        Some(ConfigurationError::RatioOutOfRange)
    } else {
        None
    }
}

/// The first place among `who` that holds the highest fitness.
pub open spec fn first_best(who: Seq<Scored>) -> int {
    choose|k: int| is_first_best(who, k)
}

/// The better of the best individual so far and the fittest of the new
/// population; where they are equally fit, the best so far is kept.
pub open spec fn best_so_far(previous: Scored, who: Seq<Scored>) -> Scored {
    if who.len() > 0 && who[first_best(who)].fitness > previous.fitness {
        who[first_best(who)]
    } else {
        previous
    }
}

/// Only one place is the first that holds the highest fitness.
pub proof fn lemma_first_best_is_unique(who: Seq<Scored>, k: int)
    requires
        is_first_best(who, k),
    ensures
        first_best(who) == k,
{
    let m = first_best(who);
    assert(is_first_best(who, m));
    if m < k {
        assert(who[m].fitness < who[k].fitness);
        assert(who[k].fitness <= who[m].fitness);
    } else if k < m {
        assert(who[k].fitness < who[m].fitness);
        assert(who[m].fitness <= who[k].fitness);
    }
}

impl Config {
    /// The configuration of the demonstration: 80 cities on a canvas of 1000
    /// by 1000, 40 individuals, parent groups of three, 70% selected, 5%
    /// mutated, 70% reinserted in their given order, and 10000 generations.
    pub fn standard() -> (config: Config)
        ensures
            config_fault(config) is None,
            config.city_count == 80,
            config.population_size == 40,
            config.group_size == 3,
            config.selection_ratio == (Ratio { numerator: 7, denominator: 10 }),
            config.mutation_rate == (Ratio { numerator: 5, denominator: 100 }),
            config.reinsertion_ratio == (Ratio { numerator: 7, denominator: 10 }),
            !config.elitist,
            config.generation_limit == 10000,
            config.canvas_width == 1000,
            config.canvas_height == 1000,
    {
        Config {
            city_count: N_CITIES,
            population_size: N_POPULATION,
            group_size: N_INDIVIDUALS_PER_PARENTS,
            selection_ratio: Ratio { numerator: 7, denominator: 10 },
            mutation_rate: Ratio { numerator: 5, denominator: 100 },
            reinsertion_ratio: Ratio { numerator: 7, denominator: 10 },
            elitist: false,
            generation_limit: GENERATION_LIMIT,
            canvas_width: WIDTH,
            canvas_height: HEIGHT,
        }
    }

    /// Checks the configuration: the population and the parent groups are
    /// not empty, there are two cities or more, and each ratio is a fraction
    /// between zero and one.
    pub fn validate(&self) -> (r: Result<(), ConfigurationError>)
        ensures
            match config_fault(*self) {
                Some(fault) => r == Err::<(), ConfigurationError>(fault),
                None => r is Ok,
            },
    {
        if self.population_size == 0 {
            Err(ConfigurationError::EmptyPopulation)
        } else if self.group_size == 0 {
            Err(ConfigurationError::EmptyGroup)
        } else if self.city_count < 2 {
            Err(ConfigurationError::TooFewCities)
        } else if !self.selection_ratio.is_valid() || !self.mutation_rate.is_valid()
            || !self.reinsertion_ratio.is_valid() {
            Err(ConfigurationError::RatioOutOfRange)
        } else {
            Ok(())
        }
    }
}

/// `child` is a crossover of `a` and `b` at some cut points, mutated at some
/// positions.
pub open spec fn descends_from(child: Seq<usize>, a: Seq<usize>, b: Seq<usize>) -> bool {
    exists|i: int, j: int, partners: Seq<Option<usize>>|
        {
            &&& 0 <= i <= j <= a.len()
            &&& partners_in_range(partners, a.len())
            &&& child == #[trigger] mutated(crossover_child(a, b, i, j), partners)
        }
}

/// The parents of the child at place `k` of the offspring: those that its
/// group names at the child's place in the group and at the next place, the
/// last place being followed by the first.
pub open spec fn parents_of(groups: Seq<Seq<usize>>, group_size: nat, k: int) -> (int, int) {
    let group = groups[k / group_size as int];
    let place = k % group_size as int;
    (group[place] as int, group[(place + 1) % group_size as int] as int)
}

/// `offspring` holds one child for each parent that the groups name, group
/// after group, and each child descends from its two parents.
pub open spec fn bred(
    population: Seq<Scored>,
    groups: Seq<Seq<usize>>,
    group_size: nat,
    offspring: Seq<Scored>,
) -> bool {
    &&& offspring.len() == groups.len() * group_size
    &&& forall|k: int|
        0 <= k < offspring.len() ==> descends_from(
            (#[trigger] offspring[k]).tour,
            population[parents_of(groups, group_size, k).0].tour,
            population[parents_of(groups, group_size, k).1].tour,
        )
}

/// The place `g * group_size + t` of the offspring belongs to the group `g`
/// and the place `t` in it, and `next` is the place that follows `t` in the
/// cycle.
proof fn lemma_place_of_child(g: int, t: int, next: int, group_size: int)
    requires
        0 <= g,
        0 <= t < group_size,
        next == if t + 1 < group_size {
            t + 1
        } else {
            0
        },
    ensures
        (g * group_size + t) / group_size == g,
        (g * group_size + t) % group_size == t,
        (t + 1) % group_size == next,
{
    vstd::arithmetic::div_mod::lemma_fundamental_div_mod_converse(
        g * group_size + t,
        group_size,
        g,
        t,
    );
    if t + 1 < group_size {
        vstd::arithmetic::div_mod::lemma_small_mod((t + 1) as nat, group_size as nat);
    } else {
        vstd::arithmetic::div_mod::lemma_mod_self_0(group_size);
    }
}

/// The children of the parent groups. Each group of parents has as many
/// children as parents: the child at place `t` is the crossover of the
/// parents at the places `t` and `t + 1`, the last parent being paired with
/// the first; each child is then mutated and scored.
pub fn breed(
    catalog: &TSP,
    population: &Vec<Individual>,
    groups: &Vec<Vec<usize>>,
    group_size: usize,
    mutation_rate: Ratio,
) -> (offspring: Vec<Individual>)
    requires
        mutation_rate.valid(),
        group_size > 0,
        all_scored_by(catalog.cities@, members(population@)),
        groups_of(group_places(groups@), groups@.len(), group_size as nat, population@.len()),
    ensures
        bred(members(population@), group_places(groups@), group_size as nat, members(offspring@)),
        all_scored_by(catalog.cities@, members(offspring@)),
{
    let ghost cities = catalog.cities@;
    let ghost who = members(population@);
    let ghost places = group_places(groups@);
    let mut offspring: Vec<Individual> = Vec::new();
    let mut g: usize = 0;
    while g < groups.len()
        invariant
            g <= groups@.len(),
            mutation_rate.valid(),
            group_size > 0,
            cities == catalog.cities@,
            who == members(population@),
            places == group_places(groups@),
            all_scored_by(cities, who),
            groups_of(places, groups@.len(), group_size as nat, population@.len()),
            offspring@.len() == g * group_size,
            all_scored_by(cities, members(offspring@)),
            forall|k: int|
                0 <= k < offspring@.len() ==> descends_from(
                    (#[trigger] members(offspring@)[k]).tour,
                    who[parents_of(places, group_size as nat, k).0].tour,
                    who[parents_of(places, group_size as nat, k).1].tour,
                ),
        decreases groups@.len() - g,
    {
        let group = &groups[g];
        let mut t: usize = 0;
        assert(g * group_size + group_size == (g + 1) * group_size) by (nonlinear_arith);
        assert(places[g as int] == group@);
        while t < group_size
            invariant
                t <= group_size,
                0 <= g < groups@.len(),
                group@ == places[g as int],
                group@.len() == group_size,
                mutation_rate.valid(),
                cities == catalog.cities@,
                who == members(population@),
                places == group_places(groups@),
                all_scored_by(cities, who),
                groups_of(places, groups@.len(), group_size as nat, population@.len()),
                offspring@.len() == g * group_size + t,
                all_scored_by(cities, members(offspring@)),
                forall|k: int|
                    0 <= k < offspring@.len() ==> descends_from(
                        (#[trigger] members(offspring@)[k]).tour,
                        who[parents_of(places, group_size as nat, k).0].tour,
                        who[parents_of(places, group_size as nat, k).1].tour,
                    ),
            decreases group_size - t,
        {
            let next = if t + 1 < group_size {
                t + 1
            } else {
                0
            };
            let first = group[t];
            let second = group[next];
            proof {
                assert(places[g as int][t as int] < population@.len());
                assert(places[g as int][next as int] < population@.len());
                assert(scored_by(cities, who[first as int]));
                assert(scored_by(cities, who[second as int]));
            }
            let ghost a = population@[first as int].genome@;
            let ghost b = population@[second as int].genome@;
            let mut child = crossover(&population[first].genome, &population[second].genome);
            let ghost crossed = child@;
            mutate(&mut child, mutation_rate);
            proof {
                let (i, j) = choose|i: int, j: int|
                    0 <= i <= j <= a.len() && (a.len() >= 2 ==> i < j < a.len()) && crossed
                        == crossover_child(a, b, i, j);
                let partners = choose|partners: Seq<Option<usize>>|
                    {
                        &&& partners_in_range(partners, crossed.len())
                        &&& no_own_partner(partners)
                        &&& mutation_rate.numerator == mutation_rate.denominator && crossed.len()
                            >= 2 ==> all_partnered(partners)
                        &&& child@ == mutated(crossed, partners)
                    };
                assert(child@ == mutated(crossover_child(a, b, i, j), partners));
                assert(descends_from(child@, a, b));
            }
            let scored = Individual::new(catalog, child);
            let ghost before = offspring@;
            offspring.push(scored);
            proof {
                let at = g * group_size + t;
                lemma_place_of_child(g as int, t as int, next as int, group_size as int);
                assert(parents_of(places, group_size as nat, at) == (first as int, second as int));
                assert forall|k: int| 0 <= k < members(offspring@).len() implies scored_by(
                    cities,
                    #[trigger] members(offspring@)[k],
                ) by {
                    if k < before.len() {
                        assert(members(offspring@)[k] == members(before)[k]);
                    }
                }
                assert forall|k: int| 0 <= k < offspring@.len() implies descends_from(
                    (#[trigger] members(offspring@)[k]).tour,
                    who[parents_of(places, group_size as nat, k).0].tour,
                    who[parents_of(places, group_size as nat, k).1].tour,
                ) by {
                    if k < before.len() {
                        assert(members(offspring@)[k] == members(before)[k]);
                    }
                }
            }
            t += 1;
        }
        g += 1;
    }
    offspring
}

/// A running or finished simulation.
pub struct Simulation {
    catalog: TSP,
    config: Config,
    population: Vec<Individual>,
    generation: u64,
    best_individual: Individual,
    finished: bool,
}

impl Simulation {
    /// The cities of the catalog.
    pub closed spec fn cities(&self) -> Seq<City> {
        self.catalog.cities@
    }

    /// The configuration that the simulation was made with.
    pub closed spec fn settings(&self) -> Config {
        self.config
    }

    /// The current population.
    pub closed spec fn individuals(&self) -> Seq<Scored> {
        members(self.population@)
    }

    /// The number of generations made so far.
    pub closed spec fn generation_count(&self) -> nat {
        self.generation as nat
    }

    /// The fittest individual seen so far.
    pub closed spec fn best(&self) -> Scored {
        self.best_individual@
    }

    /// Whether the simulation has finished.
    pub closed spec fn is_finished(&self) -> bool {
        self.finished
    }

    /// The state is consistent: the configuration has no fault, the catalog
    /// has the configured number of cities, the population has its
    /// configured size, every individual is a scored tour
    /// through the catalog, none is fitter than the best so far, and the
    /// simulation has finished exactly if a generation was made and the
    /// limit is reached.
    pub open spec fn well_formed(&self) -> bool {
        &&& config_fault(self.settings()) is None
        &&& self.cities().len() == self.settings().city_count
        &&& ids_in_order(self.cities())
        &&& self.individuals().len() == self.settings().population_size
        &&& all_scored_by(self.cities(), self.individuals())
        &&& scored_by(self.cities(), self.best())
        &&& forall|i: int|
            0 <= i < self.individuals().len() ==> (#[trigger] self.individuals()[i]).fitness
                <= self.best().fitness
        &&& self.is_finished() <==> (self.generation_count() >= 1 && self.generation_count()
            >= self.settings().generation_limit)
    }

    /// The catalog.
    pub fn catalog(&self) -> (catalog: &TSP)
        ensures
            catalog.cities@ == self.cities(),
    {
        &self.catalog
    }

    /// The configuration.
    pub fn config(&self) -> (config: Config)
        ensures
            config == self.settings(),
    {
        self.config
    }

    /// The current population.
    pub fn population(&self) -> (population: &Vec<Individual>)
        ensures
            members(population@) == self.individuals(),
    {
        &self.population
    }

    /// The number of generations made so far.
    pub fn generation(&self) -> (generation: u64)
        ensures
            generation == self.generation_count(),
    {
        self.generation
    }

    /// The fittest individual seen so far.
    pub fn best_individual(&self) -> (best: &Individual)
        ensures
            best@ == self.best(),
    {
        &self.best_individual
    }

    /// Whether the simulation has finished.
    pub fn finished(&self) -> (finished: bool)
        ensures
            finished == self.is_finished(),
    {
        self.finished
    }

    /// What a step reports of the state that it leaves.
    fn report(&self) -> (result: StepResult)
        ensures
            reports(result, *self),
    {
        let best_individual = self.best_individual.duplicate();
        if self.finished {
            StepResult::Final { generation: self.generation, best_individual }
        } else {
            StepResult::Intermediate { generation: self.generation, best_individual }
        }
    }

    /// Takes `next` as the population of the next generation: counts the
    /// generation, keeps the better of the best individual so far and the
    /// fittest of `next`, and finishes if the generation limit is reached.
    pub fn advance(&mut self, next: Vec<Individual>) -> (result: StepResult)
        requires
            old(self).well_formed(),
            !old(self).is_finished(),
            next@.len() == old(self).settings().population_size,
            all_scored_by(old(self).cities(), members(next@)),
        ensures
            final(self).well_formed(),
            final(self).cities() == old(self).cities(),
            final(self).settings() == old(self).settings(),
            final(self).individuals() == members(next@),
            final(self).generation_count() == old(self).generation_count() + 1,
            final(self).best() == best_so_far(old(self).best(), members(next@)),
            final(self).is_finished() == (final(self).generation_count() >= old(
                self,
            ).settings().generation_limit),
            reports(result, *final(self)),
    {
        let k = best_index(&next);
        proof {
            lemma_first_best_is_unique(members(next@), k as int);
            assert(scored_by(self.cities(), members(next@)[k as int]));
        }
        if next[k].fitness > self.best_individual.fitness {
            self.best_individual = next[k].duplicate();
        }
        self.population = next;
        self.generation = self.generation + 1;
        self.finished = self.generation >= self.config.generation_limit;
        self.report()
    }

    /// Makes one generation: selects the parent groups, breeds and mutates
    /// their children, scores them and reinserts them into the population.
    /// On a finished simulation it changes nothing and reports the final
    /// state again.
    pub fn step(&mut self) -> (result: StepResult)
        requires
            old(self).well_formed(),
        ensures
            final(self).well_formed(),
            steps_to(*old(self), *final(self)),
            reports(result, *final(self)),
    {
        if self.finished {
            return self.report();
        }
        proof {
            assert forall|i: int| 0 <= i < fitness_values(self.population@).len() implies 0
                <= #[trigger] fitness_values(self.population@)[i] by {
                assert(scored_by(self.cities(), self.individuals()[i]));
                lemma_fitness_bounds(tour_cost(self.cities(), self.population@[i].genome@));
            }
        }
        let groups = select(&self.population, self.config.selection_ratio, self.config.group_size);
        let offspring = breed(
            &self.catalog,
            &self.population,
            &groups,
            self.config.group_size,
            self.config.mutation_rate,
        );
        let next = reinsert(
            &self.population,
            &offspring,
            self.config.elitist,
            self.config.reinsertion_ratio,
        );
        proof {
            lemma_reinsertion_keeps_scores(
                self.cities(),
                self.individuals(),
                members(offspring@),
                self.config.elitist,
                self.config.reinsertion_ratio,
                members(next@),
            );
        }
        let ghost young = members(offspring@);
        let ghost places = group_places(groups@);
        let result = self.advance(next);
        proof {
            assert(generation_made(*old(self), places, young, *self));
        }
        result
    }
}

/// The result names the state's generation and its best individual, and it
/// is final exactly if the simulation has finished.
pub open spec fn reports(result: StepResult, sim: Simulation) -> bool {
    match result {
        StepResult::Intermediate { generation, best_individual } => {
            &&& !sim.is_finished()
            &&& generation == sim.generation_count()
            &&& best_individual@ == sim.best()
        },
        StepResult::Final { generation, best_individual } => {
            &&& sim.is_finished()
            &&& generation == sim.generation_count()
            &&& best_individual@ == sim.best()
        },
    }
}

/// `post` holds the population that one generation makes of that of `pre`:
/// `groups` are the parent groups that the configuration asks for,
/// `offspring` are their children, scored against the catalog, and the new
/// population is a reinsertion of them into the old one.
pub open spec fn generation_made(
    pre: Simulation,
    groups: Seq<Seq<usize>>,
    offspring: Seq<Scored>,
    post: Simulation,
) -> bool {
    let config = pre.settings();
    &&& groups_of(
        groups,
        group_count(pre.individuals().len(), config.selection_ratio, config.group_size as nat),
        config.group_size as nat,
        pre.individuals().len(),
    )
    &&& bred(pre.individuals(), groups, config.group_size as nat, offspring)
    &&& all_scored_by(pre.cities(), offspring)
    &&& reinserted(
        pre.individuals(),
        offspring,
        config.elitist,
        config.reinsertion_ratio,
        post.individuals(),
    )
}

/// One step leads from `pre` to `post`. A finished simulation stays as it
/// is. A running one counts one generation more, holds the population that
/// one generation makes of its old one, keeps the better of its best
/// individual and the fittest of the new population, and has finished if the
/// generation limit is reached.
pub open spec fn steps_to(pre: Simulation, post: Simulation) -> bool {
    &&& post.cities() == pre.cities()
    &&& post.settings() == pre.settings()
    &&& if pre.is_finished() {
        &&& post.is_finished()
        &&& post.individuals() == pre.individuals()
        &&& post.generation_count() == pre.generation_count()
        &&& post.best() == pre.best()
    } else {
        &&& post.generation_count() == pre.generation_count() + 1
        &&& exists|groups: Seq<Seq<usize>>, offspring: Seq<Scored>| #[trigger]
            generation_made(pre, groups, offspring, post)
        &&& post.best() == best_so_far(pre.best(), post.individuals())
        &&& post.is_finished() == (post.generation_count() >= pre.settings().generation_limit)
    }
}

/// A simulation over a random catalog on the canvas with a random
/// population, or the first fault of the configuration. The simulation starts at generation
/// zero, running, with the fittest of its population as the best individual.
pub fn new_simulation(config: Config) -> (r: Result<Simulation, ConfigurationError>)
    ensures
        match config_fault(config) {
            Some(fault) => r == Err::<Simulation, ConfigurationError>(fault),
            None => {
                &&& r is Ok
                &&& r.unwrap().well_formed()
                &&& r.unwrap().settings() == config
                &&& on_canvas(r.unwrap().cities(), config.canvas_width, config.canvas_height)
                &&& r.unwrap().generation_count() == 0
                &&& !r.unwrap().is_finished()
                &&& is_first_best(r.unwrap().individuals(), first_best(r.unwrap().individuals()))
                &&& r.unwrap().best() == r.unwrap().individuals()[first_best(
                    r.unwrap().individuals(),
                )]
            },
        },
{
    match config.validate() {
        Err(fault) => Err(fault),
        Ok(_) => {
            let catalog = TSP::new(config.city_count, config.canvas_width, config.canvas_height);
            let population = random_population(&catalog, config.population_size);
            let k = best_index(&population);
            proof {
                lemma_first_best_is_unique(members(population@), k as int);
            }
            let best_individual = population[k].duplicate();
            let sim = Simulation {
                catalog,
                config,
                population,
                generation: 0,
                best_individual,
                finished: false,
            };
            proof {
                assert(sim.individuals() == members(sim.population@));
                assert(sim.best() == sim.individuals()[k as int]);
                assert(scored_by(sim.cities(), sim.individuals()[k as int]));
                assert(sim.well_formed());
            }
            Ok(sim)
        },
    }
}

/// A step never lowers the fitness of the best individual, whatever the
/// configuration.
pub proof fn lemma_step_never_lowers_best(pre: Simulation, post: Simulation)
    requires
        steps_to(pre, post),
    ensures
        post.best().fitness >= pre.best().fitness,
{
}

/// A step keeps the size of the population.
pub proof fn lemma_step_keeps_population_size(pre: Simulation, post: Simulation)
    requires
        steps_to(pre, post),
    ensures
        post.individuals().len() == pre.individuals().len(),
{
    if !pre.is_finished() {
        let (groups, offspring) = choose|groups: Seq<Seq<usize>>, offspring: Seq<Scored>| #[trigger]
            generation_made(pre, groups, offspring, post);
        assert(generation_made(pre, groups, offspring, post));
    }
}

/// The states of a run: the first is a fresh simulation, and each leads to
/// the next by one step.
pub open spec fn is_run(trace: Seq<Simulation>) -> bool {
    &&& trace.len() > 0
    &&& trace[0].generation_count() == 0
    &&& !trace[0].is_finished()
    &&& forall|k: int| 0 <= k < trace.len() - 1 ==> #[trigger] steps_to(trace[k], trace[k + 1])
}

/// After `k` steps of a run the population has the size that it started
/// with, and the best individual is at least as fit as at the start.
pub proof fn lemma_run_keeps_population_size(trace: Seq<Simulation>, k: int)
    requires
        is_run(trace),
        0 <= k < trace.len(),
    ensures
        trace[k].individuals().len() == trace[0].individuals().len(),
        trace[k].best().fitness >= trace[0].best().fitness,
    decreases k,
{
    if k > 0 {
        lemma_run_keeps_population_size(trace, k - 1);
        assert(steps_to(trace[k - 1], trace[k - 1 + 1]));
        lemma_step_keeps_population_size(trace[k - 1], trace[k]);
        lemma_step_never_lowers_best(trace[k - 1], trace[k]);
    }
}

/// A run finishes with the step that reaches the generation limit, and not
/// before: after `k` steps the simulation has finished exactly if `k` is at
/// least the limit and at least one. Until then each step counts one
/// generation; from then on the count stays.
pub proof fn lemma_run_finishes_at_limit(trace: Seq<Simulation>, k: int)
    requires
        is_run(trace),
        0 <= k < trace.len(),
    ensures
        trace[k].settings() == trace[0].settings(),
        trace[k].is_finished() <==> (k >= 1 && k >= trace[0].settings().generation_limit),
        !trace[k].is_finished() ==> trace[k].generation_count() == k,
        trace[k].is_finished() ==> trace[k].generation_count() == if trace[0].settings().generation_limit
            >= 1 {
            trace[0].settings().generation_limit as nat
        } else {
            1
        },
    decreases k,
{
    if k > 0 {
        lemma_run_finishes_at_limit(trace, k - 1);
        assert(steps_to(trace[k - 1], trace[k - 1 + 1]));
    }
}

} // verus!
