//! Reinsertion: the next population is made of the offspring that are
//! admitted and of the fittest individuals of the old population.

use vstd::prelude::*;
use crate::genome::{
    identity,
    identity_tour,
    is_permutation,
    lemma_distinct_cities,
    lemma_swap_keeps_permutation,
    swap_entries,
};
use crate::population::{all_scored_by, members, scored_by, Individual, Scored};
use crate::ratio::{lemma_portion_bounded, Ratio};
use crate::tsp::City;

verus! {

/// The fitness of the member that `order` names at place `x`.
pub open spec fn ranked_fitness(who: Seq<Scored>, order: Seq<usize>, x: int) -> int {
    who[order[x] as int].fitness
}

/// `order` names every member once, the fitter before the less fit.
pub open spec fn is_ranking(order: Seq<usize>, who: Seq<Scored>) -> bool {
    &&& is_permutation(order, who.len())
    &&& forall|x: int, y: int|
        0 <= x < y < order.len() ==> ranked_fitness(who, order, x) >= ranked_fitness(who, order, y)
}

/// The number of offspring that enter a population of `size` individuals:
/// the ratio's share of the population, or all the offspring if they are
/// fewer.
pub open spec fn admitted(size: nat, offspring: nat, ratio: Ratio) -> nat {
    if ratio.portion(size) <= offspring {
        ratio.portion(size)
    } else {
        offspring
    }
}

/// The population of `k` offspring, taken in the order `offspring_order`,
/// followed by old individuals, taken in the order `old_order`.
pub open spec fn assembled(
    old: Seq<Scored>,
    old_order: Seq<usize>,
    offspring: Seq<Scored>,
    offspring_order: Seq<usize>,
    k: int,
) -> Seq<Scored> {
    Seq::new(
        old.len(),
        |t: int|
            if t < k {
                offspring[offspring_order[t] as int]
            } else {
                old[old_order[t - k] as int]
            },
    )
}

/// `next` is a reinsertion of `offspring` into `old`: the admitted offspring
/// come first, the fittest first if `elitist` and in their given order if
/// not; the fittest old individuals fill the other places.
pub open spec fn reinserted(
    old: Seq<Scored>,
    offspring: Seq<Scored>,
    elitist: bool,
    ratio: Ratio,
    next: Seq<Scored>,
) -> bool {
    exists|old_order: Seq<usize>, offspring_order: Seq<usize>|
        {
            &&& is_ranking(old_order, old)
            &&& if elitist {
                is_ranking(offspring_order, offspring)
            } else {
                offspring_order == identity_tour(offspring.len())
            }
            &&& next == #[trigger] assembled(
                old,
                old_order,
                offspring,
                offspring_order,
                admitted(old.len(), offspring.len(), ratio) as int,
            )
        }
}

/// The places of the population's individuals, from the fittest to the
/// least fit.
pub fn rank_by_fitness(population: &Vec<Individual>) -> (order: Vec<usize>)
    ensures
        is_ranking(order@, members(population@)),
{
    let n = population.len();
    let ghost who = members(population@);
    let mut order = identity(n);
    let mut x: usize = 0;
    while x < n
        invariant
            x <= n,
            n == population@.len(),
            who == members(population@),
            is_permutation(order@, n as nat),
            forall|u: int, v: int|
                0 <= u < v < x ==> ranked_fitness(who, order@, u) >= ranked_fitness(who, order@, v),
            forall|u: int, v: int|
                0 <= u < x <= v < n ==> ranked_fitness(who, order@, u) >= ranked_fitness(
                    who,
                    order@,
                    v,
                ),
        decreases n - x,
    {
        let mut best: usize = x;
        let mut y: usize = x + 1;
        while y < n
            invariant
                x <= best < y <= n,
                n == population@.len(),
                who == members(population@),
                is_permutation(order@, n as nat),
                forall|v: int|
                    x <= v < y ==> ranked_fitness(who, order@, best as int) >= ranked_fitness(
                        who,
                        order@,
                        v,
                    ),
            decreases n - y,
        {
            if population[order[y]].fitness > population[order[best]].fitness {
                best = y;
            }
            y += 1;
        }
        let ghost before = order@;
        proof {
            lemma_swap_keeps_permutation(before, x as int, best as int, n as nat);
        }
        swap_entries(&mut order, x, best);
        proof {
            assert forall|u: int, v: int| 0 <= u < v < x + 1 implies ranked_fitness(who, order@, u)
                >= ranked_fitness(who, order@, v) by {
                assert(order@[u] == before[u]);
                if v < x {
                    assert(order@[v] == before[v]);
                    assert(ranked_fitness(who, before, u) >= ranked_fitness(who, before, v));
                } else {
                    assert(order@[v] == before[best as int]);
                    assert(ranked_fitness(who, before, u) >= ranked_fitness(
                        who,
                        before,
                        best as int,
                    ));
                }
            }
            assert forall|u: int, v: int| 0 <= u < x + 1 <= v < n implies ranked_fitness(
                who,
                order@,
                u,
            ) >= ranked_fitness(who, order@, v) by {
                let src = if v == best {
                    x as int
                } else {
                    v
                };
                assert(order@[v] == before[src]);
                if u < x {
                    assert(order@[u] == before[u]);
                    assert(ranked_fitness(who, before, u) >= ranked_fitness(who, before, src));
                } else {
                    assert(order@[u] == before[best as int]);
                    assert(ranked_fitness(who, before, best as int) >= ranked_fitness(
                        who,
                        before,
                        src,
                    ));
                }
            }
        }
        x += 1;
    }
    order
}

/// The next population: the admitted offspring, the fittest first if
/// `elitist`, then the fittest individuals of the old population. It has the
/// old population's size.
pub fn reinsert(
    old_population: &Vec<Individual>,
    offspring: &Vec<Individual>,
    elitist: bool,
    reinsertion_ratio: Ratio,
) -> (new_population: Vec<Individual>)
    requires
        reinsertion_ratio.valid(),
    ensures
        new_population@.len() == old_population@.len(),
        reinserted(
            members(old_population@),
            members(offspring@),
            elitist,
            reinsertion_ratio,
            members(new_population@),
        ),
{
    let size = old_population.len();
    let quota = reinsertion_ratio.portion_of(size);
    let k = if quota <= offspring.len() {
        quota
    } else {
        offspring.len()
    };
    let old_order = rank_by_fitness(old_population);
    let offspring_order = if elitist {
        rank_by_fitness(offspring)
    } else {
        identity(offspring.len())
    };
    let ghost old = members(old_population@);
    let ghost young = members(offspring@);
    let ghost target = assembled(old, old_order@, young, offspring_order@, k as int);
    let mut new_population: Vec<Individual> = Vec::new();
    let mut t: usize = 0;
    while t < size
        invariant
            t <= size,
            k <= size,
            k <= offspring@.len(),
            size == old_population@.len(),
            old == members(old_population@),
            young == members(offspring@),
            target == assembled(old, old_order@, young, offspring_order@, k as int),
            is_permutation(old_order@, size as nat),
            is_permutation(offspring_order@, offspring@.len()),
            new_population@.len() == t,
            forall|u: int| 0 <= u < t ==> (#[trigger] new_population@[u])@ == target[u],
        decreases size - t,
    {
        let who = if t < k {
            offspring[offspring_order[t]].duplicate()
        } else {
            old_population[old_order[t - k]].duplicate()
        };
        new_population.push(who);
        t += 1;
    }
    proof {
        assert(members(new_population@) =~= target);
        assert(k == admitted(old.len(), young.len(), reinsertion_ratio));
        assert(is_ranking(old_order@, old));
        assert(elitist ==> is_ranking(offspring_order@, young));
        assert(!elitist ==> offspring_order@ == identity_tour(young.len()));
    }
    new_population
}

/// Every individual of the next population is an offspring or an old
/// individual, so a reinsertion of scored tours holds scored tours.
pub proof fn lemma_reinsertion_keeps_scores(
    cities: Seq<City>,
    old: Seq<Scored>,
    offspring: Seq<Scored>,
    elitist: bool,
    ratio: Ratio,
    next: Seq<Scored>,
)
    requires
        ratio.valid(),
        reinserted(old, offspring, elitist, ratio, next),
        all_scored_by(cities, old),
        all_scored_by(cities, offspring),
    ensures
        next.len() == old.len(),
        all_scored_by(cities, next),
{
    let k = admitted(old.len(), offspring.len(), ratio) as int;
    lemma_portion_bounded(ratio, old.len());
    let (old_order, offspring_order) = choose|old_order: Seq<usize>, offspring_order: Seq<usize>|
        {
            &&& is_ranking(old_order, old)
            &&& if elitist {
                is_ranking(offspring_order, offspring)
            } else {
                offspring_order == identity_tour(offspring.len())
            }
            &&& next == #[trigger] assembled(old, old_order, offspring, offspring_order, k)
        };
    assert forall|t: int| 0 <= t < next.len() implies scored_by(cities, #[trigger] next[t]) by {
        if t < k {
            assert(offspring_order[t] < offspring.len());
            assert(scored_by(cities, offspring[offspring_order[t] as int]));
        } else {
            assert(old_order[t - k] < old.len());
            assert(scored_by(cities, old[old_order[t - k] as int]));
        }
    }
}

/// Where fewer offspring are admitted than the population has places, the
/// fittest old individual survives: the individual right after the admitted
/// offspring is at least as fit as every old one.
pub proof fn lemma_reinsertion_keeps_best(
    old: Seq<Scored>,
    offspring: Seq<Scored>,
    elitist: bool,
    ratio: Ratio,
    next: Seq<Scored>,
)
    requires
        reinserted(old, offspring, elitist, ratio, next),
        admitted(old.len(), offspring.len(), ratio) < old.len(),
    ensures
        forall|i: int|
            0 <= i < old.len() ==> next[admitted(old.len(), offspring.len(), ratio) as int].fitness
                >= (#[trigger] old[i]).fitness,
{
    let k = admitted(old.len(), offspring.len(), ratio) as int;
    let (old_order, offspring_order) = choose|old_order: Seq<usize>, offspring_order: Seq<usize>|
        {
            &&& is_ranking(old_order, old)
            &&& if elitist {
                is_ranking(offspring_order, offspring)
            } else {
                offspring_order == identity_tour(offspring.len())
            }
            &&& next == #[trigger] assembled(old, old_order, offspring, offspring_order, k)
        };
    assert(next[k] == old[old_order[0] as int]);
    assert(old_order.no_duplicates());
    lemma_distinct_cities(old_order, old.len());
    assert forall|i: int| 0 <= i < old.len() implies next[k].fitness >= (#[trigger] old[i]).fitness by {
        assert(old_order.contains(i as usize));
        let x = choose|x: int| 0 <= x < old_order.len() && old_order[x] == i as usize;
        if x > 0 {
            assert(ranked_fitness(old, old_order, 0) >= ranked_fitness(old, old_order, x));
        }
    }
}

/// With a reinsertion ratio of zero no offspring is admitted: the next
/// population holds the old individuals, each once, in some order.
pub proof fn lemma_reinsertion_of_none(
    old: Seq<Scored>,
    offspring: Seq<Scored>,
    elitist: bool,
    ratio: Ratio,
    next: Seq<Scored>,
)
    requires
        ratio.valid(),
        ratio.numerator == 0,
        reinserted(old, offspring, elitist, ratio, next),
    ensures
        next.len() == old.len(),
        exists|order: Seq<usize>|
            is_ranking(order, old) && forall|t: int|
                0 <= t < old.len() ==> #[trigger] next[t] == old[order[t] as int],
{
    lemma_portion_bounded(ratio, old.len());
    let k = admitted(old.len(), offspring.len(), ratio) as int;
    assert(k == 0);
    let (old_order, offspring_order) = choose|old_order: Seq<usize>, offspring_order: Seq<usize>|
        {
            &&& is_ranking(old_order, old)
            &&& if elitist {
                is_ranking(offspring_order, offspring)
            } else {
                offspring_order == identity_tour(offspring.len())
            }
            &&& next == #[trigger] assembled(old, old_order, offspring, offspring_order, k)
        };
    assert(is_ranking(old_order, old) && forall|t: int|
        0 <= t < old.len() ==> #[trigger] next[t] == old[old_order[t] as int]);
}

} // verus!
