//! Individuals, which pair a tour with its fitness, and populations of them.

use vstd::prelude::*;
use crate::genome::{copy_tour, is_permutation, RandomSequence, Sequence};
use crate::tsp::{tour_fitness, tour_in_range, City, TSP};

verus! {

/// A tour together with its fitness.
#[derive(Debug)]
pub struct Individual {
    pub genome: Vec<usize>,
    pub fitness: i64,
}

/// What an individual stands for: a tour and a fitness.
pub struct Scored {
    pub tour: Seq<usize>,
    pub fitness: int,
}

impl View for Individual {
    type V = Scored;

    open spec fn view(&self) -> Scored {
        Scored { tour: self.genome@, fitness: self.fitness as int }
    }
}

/// What the individuals of a population stand for, in their order.
pub open spec fn members(population: Seq<Individual>) -> Seq<Scored> {
    Seq::new(population.len(), |i: int| population[i]@)
}

/// The fitness values of a population, in the order of its individuals.
pub open spec fn fitness_values(population: Seq<Individual>) -> Seq<i64> {
    Seq::new(population.len(), |i: int| population[i].fitness)
}

/// The tour visits each city of the catalog once, and the fitness is the
/// tour's.
pub open spec fn scored_by(cities: Seq<City>, who: Scored) -> bool {
    &&& is_permutation(who.tour, cities.len())
    &&& who.fitness == tour_fitness(cities, who.tour)
}

/// Every member is a tour through the catalog with its own fitness.
pub open spec fn all_scored_by(cities: Seq<City>, who: Seq<Scored>) -> bool {
    forall|i: int| 0 <= i < who.len() ==> scored_by(cities, #[trigger] who[i])
}

/// `k` is the first place among `who` that holds the highest fitness.
pub open spec fn is_first_best(who: Seq<Scored>, k: int) -> bool {
    &&& 0 <= k < who.len()
    &&& forall|i: int| 0 <= i < who.len() ==> (#[trigger] who[i]).fitness <= who[k].fitness
    &&& forall|i: int| 0 <= i < k ==> (#[trigger] who[i]).fitness < who[k].fitness
}

impl Individual {
    /// The individual of the tour, scored against the catalog.
    pub fn new(catalog: &TSP, genome: Vec<usize>) -> (who: Individual)
        requires
            tour_in_range(genome@, catalog.spec_len()),
        ensures
            who@.tour == genome@,
            who@.fitness == tour_fitness(catalog.cities@, genome@),
            0 <= who.fitness,
    {
        let fitness = catalog.fitness_of(&genome);
        Individual { genome, fitness }
    }

    /// A random tour through the catalog, scored.
    pub fn random(catalog: &TSP) -> (who: Individual)
        ensures
            scored_by(catalog.cities@, who@),
    {
        let genome = Sequence::random(catalog.len());
        Individual::new(catalog, genome)
    }

    /// A copy of the individual.
    pub fn duplicate(&self) -> (copy: Individual)
        ensures
            copy@ == self@,
    {
        Individual { genome: copy_tour(&self.genome), fitness: self.fitness }
    }
}

/// `size` random individuals over the catalog.
pub fn random_population(catalog: &TSP, size: usize) -> (population: Vec<Individual>)
    ensures
        population@.len() == size,
        all_scored_by(catalog.cities@, members(population@)),
{
    let mut population: Vec<Individual> = Vec::new();
    let mut i: usize = 0;
    while i < size
        invariant
            i <= size,
            population@.len() == i,
            all_scored_by(catalog.cities@, members(population@)),
        decreases size - i,
    {
        let who = Individual::random(catalog);
        let ghost before = population@;
        population.push(who);
        proof {
            assert forall|k: int| 0 <= k < members(population@).len() implies scored_by(
                catalog.cities@,
                #[trigger] members(population@)[k],
            ) by {
                if k < i {
                    assert(members(population@)[k] == members(before)[k]);
                }
            }
        }
        i += 1;
    }
    population
}

/// The place of the fittest individual; of several equally fit ones, the
/// first.
pub fn best_index(population: &Vec<Individual>) -> (k: usize)
    requires
        population@.len() > 0,
    ensures
        is_first_best(members(population@), k as int),
{
    let mut k: usize = 0;
    let mut i: usize = 1;
    while i < population.len()
        invariant
            1 <= i <= population@.len(),
            k < i,
            forall|x: int| 0 <= x < i ==> population@[x].fitness <= population@[k as int].fitness,
            forall|x: int| 0 <= x < k ==> population@[x].fitness < population@[k as int].fitness,
        decreases population@.len() - i,
    {
        if population[i].fitness > population[k].fitness {
            k = i;
        }
        i += 1;
    }
    k
}

/// The fitness values of the population, in the order of its individuals.
pub fn collect_fitness(population: &Vec<Individual>) -> (values: Vec<i64>)
    ensures
        values@ == fitness_values(population@),
{
    let mut values: Vec<i64> = Vec::new();
    let mut i: usize = 0;
    while i < population.len()
        invariant
            i <= population@.len(),
            values@ == fitness_values(population@).take(i as int),
        decreases population@.len() - i,
    {
        values.push(population[i].fitness);
        i += 1;
        assert(values@ =~= fitness_values(population@).take(i as int));
    }
    assert(fitness_values(population@).take(population@.len() as int) =~= fitness_values(
        population@,
    ));
    values
}

} // verus!
