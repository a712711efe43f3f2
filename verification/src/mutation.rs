//! Swap-order mutation: each position of a tour is, with the chance given
//! by the mutation rate, exchanged with another position.

use vstd::prelude::*;
use crate::genome::{is_permutation, lemma_swap_keeps_permutation, swap_entries, swapped};
use crate::random::random_below;
use crate::ratio::Ratio;

verus! {

/// There is one entry for each of the `n` positions, and each partner is a
/// position.
pub open spec fn partners_in_range(partners: Seq<Option<usize>>, n: nat) -> bool {
    &&& partners.len() == n
    &&& forall|p: int|
        0 <= p < partners.len() ==> ((#[trigger] partners[p]) matches Some(q) ==> q < n)
}

/// No position is its own partner.
pub open spec fn no_own_partner(partners: Seq<Option<usize>>) -> bool {
    forall|p: int| 0 <= p < partners.len() ==> (#[trigger] partners[p]) != Some(p as usize)
}

/// No position has a partner.
pub open spec fn no_partners(partners: Seq<Option<usize>>) -> bool {
    forall|p: int| 0 <= p < partners.len() ==> (#[trigger] partners[p]) is None
}

/// Every position has a partner.
pub open spec fn all_partnered(partners: Seq<Option<usize>>) -> bool {
    forall|p: int| 0 <= p < partners.len() ==> (#[trigger] partners[p]) is Some
}

/// The tour after the positions that have a partner were exchanged with it,
/// one after the other from the first position on.
pub open spec fn mutated(s: Seq<usize>, partners: Seq<Option<usize>>) -> Seq<usize>
    decreases partners.len(),
{
    if partners.len() == 0 {
        s
    } else {
        let before = mutated(s, partners.drop_last());
        match partners.last() {
            Some(q) => swapped(before, partners.len() - 1, q as int),
            None => before,
        }
    }
}

/// A mutation keeps the length of the tour, and a mutated permutation is a
/// permutation.
pub proof fn lemma_mutation_keeps_permutation(s: Seq<usize>, partners: Seq<Option<usize>>, n: nat)
    requires
        partners.len() <= s.len(),
        forall|p: int|
            0 <= p < partners.len() ==> ((#[trigger] partners[p]) matches Some(q) ==> q < s.len()),
    ensures
        mutated(s, partners).len() == s.len(),
        is_permutation(s, n) ==> is_permutation(mutated(s, partners), n),
    decreases partners.len(),
{
    if partners.len() > 0 {
        let front = partners.drop_last();
        assert forall|p: int| 0 <= p < front.len() implies ((#[trigger] front[p]) matches Some(q)
            ==> q < s.len()) by {
            assert(front[p] == partners[p]);
        }
        lemma_mutation_keeps_permutation(s, front, n);
        let before = mutated(s, front);
        match partners.last() {
            Some(q) => {
                assert(partners[partners.len() - 1] == Some(q));
                if is_permutation(s, n) {
                    lemma_swap_keeps_permutation(before, partners.len() - 1, q as int, n);
                }
            },
            None => {},
        }
    }
}

/// Where no position has a partner, the tour stays as it is.
pub proof fn lemma_mutation_without_partners(s: Seq<usize>, partners: Seq<Option<usize>>)
    requires
        no_partners(partners),
    ensures
        mutated(s, partners) == s,
    decreases partners.len(),
{
    if partners.len() > 0 {
        let front = partners.drop_last();
        assert forall|p: int| 0 <= p < front.len() implies (#[trigger] front[p]) is None by {
            assert(front[p] == partners[p]);
        }
        lemma_mutation_without_partners(s, front);
        assert(partners[partners.len() - 1] is None);
    }
}

/// Exchanges each position that has a partner with it, from the first
/// position on.
pub fn mutate_with(genome: &mut Vec<usize>, partners: &Vec<Option<usize>>)
    requires
        partners_in_range(partners@, old(genome)@.len()),
    ensures
        final(genome)@ == mutated(old(genome)@, partners@),
        final(genome)@.len() == old(genome)@.len(),
{
    let n = genome.len();
    let mut p: usize = 0;
    assert(partners@.take(0) =~= Seq::<Option<usize>>::empty());
    while p < n
        invariant
            p <= n,
            n == old(genome)@.len(),
            n == genome@.len(),
            partners_in_range(partners@, n as nat),
            genome@ == mutated(old(genome)@, partners@.take(p as int)),
        decreases n - p,
    {
        proof {
            assert(partners@.take(p + 1).drop_last() =~= partners@.take(p as int));
            assert(partners@.take(p + 1).last() == partners@[p as int]);
        }
        match partners[p] {
            Some(q) => {
                swap_entries(genome, p, q);
            },
            None => {},
        }
        p += 1;
    }
    assert(partners@.take(n as int) =~= partners@);
}

/// For each of `n` positions, with the chance `rate`, another position
/// drawn at random. A rate of zero gives no position a partner; a rate of
/// one gives every position a partner, where there are two positions or
/// more.
pub fn draw_partners(n: usize, rate: Ratio) -> (partners: Vec<Option<usize>>)
    requires
        rate.valid(),
    ensures
        partners_in_range(partners@, n as nat),
        no_own_partner(partners@),
        rate.numerator == 0 ==> no_partners(partners@),
        rate.numerator == rate.denominator && n >= 2 ==> all_partnered(partners@),
{
    let mut partners: Vec<Option<usize>> = Vec::new();
    let mut p: usize = 0;
    while p < n
        invariant
            p <= n,
            rate.valid(),
            partners@.len() == p,
            forall|x: int| 0 <= x < p ==> ((#[trigger] partners@[x]) matches Some(q) ==> q < n),
            forall|x: int| 0 <= x < p ==> (#[trigger] partners@[x]) != Some(x as usize),
            rate.numerator == 0 ==> no_partners(partners@),
            rate.numerator == rate.denominator && n >= 2 ==> all_partnered(partners@),
        decreases n - p,
    {
        let lot = random_below(rate.denominator as u128);
        let partner = if n >= 2 && lot < rate.numerator as u128 {
            let other = random_below((n - 1) as u128) as usize;
            if other >= p {
                Some(other + 1)
            } else {
                Some(other)
            }
        } else {
            None
        };
        partners.push(partner);
        p += 1;
    }
    partners
}

/// Mutates the tour in place: each position is, with the chance `rate`,
/// exchanged with another position drawn at random. The tour keeps its
/// cities; a rate of zero leaves it as it is, and with a rate of one every
/// position of a tour of two cities or more takes its turn.
pub fn mutate(genome: &mut Vec<usize>, rate: Ratio)
    requires
        rate.valid(),
    ensures
        final(genome)@.len() == old(genome)@.len(),
        forall|n: nat| is_permutation(old(genome)@, n) ==> is_permutation(final(genome)@, n),
        rate.numerator == 0 ==> final(genome)@ == old(genome)@,
        exists|partners: Seq<Option<usize>>|
            {
                &&& partners_in_range(partners, old(genome)@.len())
                &&& no_own_partner(partners)
                &&& rate.numerator == rate.denominator && old(genome)@.len() >= 2 ==> all_partnered(
                    partners,
                )
                &&& final(genome)@ == mutated(old(genome)@, partners)
            },
{
    let partners = draw_partners(genome.len(), rate);
    proof {
        assert forall|n: nat| is_permutation(genome@, n) implies is_permutation(
            mutated(genome@, partners@),
            n,
        ) by {
            lemma_mutation_keeps_permutation(genome@, partners@, n);
        }
        if rate.numerator == 0 {
            lemma_mutation_without_partners(genome@, partners@);
        }
    }
    mutate_with(genome, &partners);
}

} // verus!
