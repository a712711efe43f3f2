//! Roulette-wheel selection: parents are drawn with a chance in proportion
//! to their fitness, with replacement.
//!
//! The wheel gives the individual at place `k` the tickets from the sum of
//! the fitness values before it up to, but not including, that sum plus its
//! own fitness.

use vstd::prelude::*;
use crate::population::{collect_fitness, fitness_values, Individual};
use crate::random::random_below;
use crate::ratio::{lemma_portion_bounded, Ratio};
use crate::tsp::sum_of;

verus! {

/// No value is negative.
pub open spec fn all_non_negative(fitness: Seq<i64>) -> bool {
    forall|i: int| 0 <= i < fitness.len() ==> 0 <= #[trigger] fitness[i]
}

/// The ticket is one of those of the individual at place `k`.
pub open spec fn lands_on(fitness: Seq<i64>, ticket: int, k: int) -> bool {
    &&& 0 <= k < fitness.len()
    &&& sum_of(fitness.take(k)) <= ticket < sum_of(fitness.take(k + 1))
}

/// The number of parent groups: `floor(size * ratio / group_size)`.
pub open spec fn group_count(size: nat, ratio: Ratio, group_size: nat) -> nat {
    (size * ratio.numerator as nat) / (ratio.denominator as nat * group_size)
}

/// The places that the groups name.
pub open spec fn group_places(groups: Seq<Vec<usize>>) -> Seq<Seq<usize>> {
    Seq::new(groups.len(), |g: int| groups[g]@)
}

/// There are `count` groups, each of `group_size` places of a population of
/// `size` individuals.
pub open spec fn groups_of(groups: Seq<Seq<usize>>, count: nat, group_size: nat, size: nat) -> bool {
    &&& groups.len() == count
    &&& forall|g: int| 0 <= g < groups.len() ==> (#[trigger] groups[g]).len() == group_size
    &&& forall|g: int, t: int|
        0 <= g < groups.len() && 0 <= t < group_size ==> (#[trigger] groups[g][t]) < size
}

/// The sums of the first `k` values grow with `k`, from zero, and each value
/// adds at most the largest fitness.
pub proof fn lemma_prefix_sums(fitness: Seq<i64>, a: int, b: int)
    requires
        all_non_negative(fitness),
        0 <= a <= b <= fitness.len(),
    ensures
        0 <= sum_of(fitness.take(a)) <= sum_of(fitness.take(b)),
        sum_of(fitness.take(b)) <= b * 0x7fff_ffff_ffff_ffff,
    decreases b,
{
    if b == 0 {
        assert(fitness.take(0) =~= Seq::<i64>::empty());
    } else {
        assert(fitness.take(b).drop_last() =~= fitness.take(b - 1));
        assert(fitness.take(b).last() == fitness[b - 1]);
        if a < b {
            lemma_prefix_sums(fitness, a, b - 1);
        } else {
            lemma_prefix_sums(fitness, a - 1, b - 1);
        }
    }
}

/// A ticket lands on one place only.
pub proof fn lemma_ticket_lands_once(fitness: Seq<i64>, ticket: int, k: int, m: int)
    requires
        all_non_negative(fitness),
        lands_on(fitness, ticket, k),
        lands_on(fitness, ticket, m),
    ensures
        k == m,
{
    if k < m {
        lemma_prefix_sums(fitness, k + 1, m);
    } else if m < k {
        lemma_prefix_sums(fitness, m + 1, k);
    }
}

/// The sum of the fitness values.
pub fn total_fitness(fitness: &Vec<i64>) -> (total: u128)
    requires
        all_non_negative(fitness@),
    ensures
        total == sum_of(fitness@),
{
    let mut total: u128 = 0;
    let mut k: usize = 0;
    proof {
        lemma_prefix_sums(fitness@, 0, 0);
    }
    while k < fitness.len()
        invariant
            k <= fitness@.len(),
            all_non_negative(fitness@),
            total == sum_of(fitness@.take(k as int)),
        decreases fitness@.len() - k,
    {
        proof {
            lemma_prefix_sums(fitness@, k as int, k + 1);
            assert(fitness@.take(k + 1).drop_last() =~= fitness@.take(k as int));
            assert((k + 1) * 0x7fff_ffff_ffff_ffff <= 0x1_0000_0000_0000_0000
                * 0x7fff_ffff_ffff_ffff) by (nonlinear_arith)
                requires
                    k + 1 <= 0x1_0000_0000_0000_0000,
            ;
        }
        total = total + (fitness[k] as u128);
        k += 1;
    }
    assert(fitness@.take(k as int) =~= fitness@);
    total
}

/// The place on which the ticket lands. The individual there has a positive
/// fitness.
pub fn roulette_pick(fitness: &Vec<i64>, ticket: u128) -> (k: usize)
    requires
        all_non_negative(fitness@),
        ticket < sum_of(fitness@),
    ensures
        lands_on(fitness@, ticket as int, k as int),
        fitness@[k as int] > 0,
{
    let n = fitness.len();
    let mut k: usize = 0;
    let mut below: u128 = 0;
    proof {
        lemma_prefix_sums(fitness@, 0, 0);
        assert(fitness@.take(n as int) =~= fitness@);
    }
    loop
        invariant
            k < n,
            n == fitness@.len(),
            all_non_negative(fitness@),
            ticket < sum_of(fitness@),
            below == sum_of(fitness@.take(k as int)),
            below <= ticket,
        decreases n - k,
    {
        proof {
            lemma_prefix_sums(fitness@, k + 1, n as int);
            assert(fitness@.take(n as int) =~= fitness@);
            assert(fitness@.take(k + 1).drop_last() =~= fitness@.take(k as int));
            assert(fitness@.take(k + 1).last() == fitness@[k as int]);
        }
        let upper: u128 = below + (fitness[k] as u128);
        if ticket < upper {
            return k;
        }
        below = upper;
        k += 1;
    }
}

/// One parent, drawn by the wheel; where no individual has any fitness,
/// each is as likely as any other.
pub fn draw_parent(fitness: &Vec<i64>, total: u128) -> (k: usize)
    requires
        fitness@.len() > 0,
        all_non_negative(fitness@),
        total == sum_of(fitness@),
    ensures
        k < fitness@.len(),
        total > 0 ==> fitness@[k as int] > 0,
{
    if total > 0 {
        let ticket = random_below(total);
        roulette_pick(fitness, ticket)
    } else {
        random_below(fitness.len() as u128) as usize
    }
}

/// The parent groups of one generation: `floor(size * ratio / group_size)`
/// groups of `group_size` places each, every place drawn by the wheel. The
/// population is only read, and a place may be drawn more than once.
pub fn select(population: &Vec<Individual>, selection_ratio: Ratio, group_size: usize) -> (groups:
    Vec<Vec<usize>>)
    requires
        selection_ratio.valid(),
        group_size > 0,
        all_non_negative(fitness_values(population@)),
    ensures
        groups_of(
            group_places(groups@),
            group_count(population@.len(), selection_ratio, group_size as nat),
            group_size as nat,
            population@.len(),
        ),
        sum_of(fitness_values(population@)) > 0 ==> forall|g: int, t: int|
            0 <= g < groups@.len() && 0 <= t < group_size ==> population@[(
            #[trigger] groups@[g]@[t]) as int].fitness > 0,
{
    let size = population.len();
    let count = selection_ratio.portion_of(size) / group_size;
    proof {
        vstd::arithmetic::div_mod::lemma_div_denominator(
            size as int * selection_ratio.numerator as int,
            selection_ratio.denominator as int,
            group_size as int,
        );
        assert(size as int * selection_ratio.numerator as int >= 0) by (nonlinear_arith)
            requires
                size >= 0,
                selection_ratio.numerator >= 0,
        ;
    }
    let mut groups: Vec<Vec<usize>> = Vec::new();
    if count == 0 {
        return groups;
    }
    proof {
        lemma_portion_bounded(selection_ratio, size as nat);
    }
    let fitness = collect_fitness(population);
    let total = total_fitness(&fitness);
    let mut g: usize = 0;
    while g < count
        invariant
            g <= count,
            size == population@.len(),
            size > 0,
            group_size > 0,
            fitness@ == fitness_values(population@),
            all_non_negative(fitness@),
            total == sum_of(fitness@),
            groups@.len() == g,
            forall|x: int| 0 <= x < g ==> (#[trigger] groups@[x])@.len() == group_size,
            forall|x: int, t: int|
                0 <= x < g && 0 <= t < group_size ==> (#[trigger] groups@[x]@[t]) < size,
            total > 0 ==> forall|x: int, t: int|
                0 <= x < g && 0 <= t < group_size ==> fitness@[(#[trigger] groups@[x]@[t]) as int]
                    > 0,
        decreases count - g,
    {
        let mut group: Vec<usize> = Vec::new();
        let mut t: usize = 0;
        while t < group_size
            invariant
                t <= group_size,
                size == fitness@.len(),
                size > 0,
                all_non_negative(fitness@),
                total == sum_of(fitness@),
                group@.len() == t,
                forall|y: int| 0 <= y < t ==> (#[trigger] group@[y]) < size,
                total > 0 ==> forall|y: int| 0 <= y < t ==> fitness@[(#[trigger] group@[y]) as int]
                    > 0,
            decreases group_size - t,
        {
            let k = draw_parent(&fitness, total);
            group.push(k);
            t += 1;
        }
        groups.push(group);
        g += 1;
    }
    groups
}

} // verus!
