//! Genomes: tours encoded as permutations of the city indices.

use vstd::prelude::*;
use crate::random::shuffle_in_place;

verus! {

/// A tour, as the order in which the cities are visited.
pub type Sequence = Vec<usize>;

/// `s` visits each of the cities `0..n` once: it has `n` entries, each names
/// a city, and no city is named twice.
pub open spec fn is_permutation(s: Seq<usize>, n: nat) -> bool {
    &&& s.len() == n
    &&& forall|i: int| 0 <= i < s.len() ==> (#[trigger] s[i]) < n
    &&& forall|i: int, j: int| 0 <= i < j < s.len() ==> s[i] != s[j]
}

/// The tour that visits the cities in the order of their indices.
pub open spec fn identity_tour(n: nat) -> Seq<usize> {
    Seq::new(n, |i: int| i as usize)
}

/// The tour `0, 1, .., n - 1`.
pub fn identity(n: usize) -> (dna: Vec<usize>)
    ensures
        dna@ == identity_tour(n as nat),
        is_permutation(dna@, n as nat),
{
    let mut dna: Vec<usize> = Vec::new();
    let mut i: usize = 0;
    while i < n
        invariant
            i <= n,
            dna@ == identity_tour(i as nat),
        decreases n - i,
    {
        dna.push(i);
        i += 1;
        assert(dna@ =~= identity_tour(i as nat));
    }
    dna
}

/// A sequence with the same entries as a permutation, each as often, is a
/// permutation too.
pub proof fn lemma_rearranged_permutation(s: Seq<usize>, t: Seq<usize>, n: nat)
    requires
        is_permutation(s, n),
        t.to_multiset() == s.to_multiset(),
    ensures
        is_permutation(t, n),
{
    broadcast use vstd::seq_lib::to_multiset_contains;

    vstd::seq_lib::to_multiset_len(s);
    vstd::seq_lib::to_multiset_len(t);
    assert forall|i: int| 0 <= i < t.len() implies (#[trigger] t[i]) < n by {
        assert(t.contains(t[i]));
        assert(t.to_multiset().contains(t[i]));
        assert(s.to_multiset().contains(t[i]));
        assert(s.contains(t[i]));
        let k = choose|k: int| 0 <= k < s.len() && s[k] == t[i];
        assert(s[k] < n);
    }
    assert(s.no_duplicates());
    s.lemma_multiset_has_no_duplicates();
    t.lemma_multiset_has_no_duplicates_conv();
    assert(t.no_duplicates());
}

/// The cities `0..n`.
pub open spec fn city_set(n: nat) -> Set<usize> {
    Set::new(|v: usize| v < n)
}

/// There are `n` cities below `n`.
pub proof fn lemma_city_set_len(n: nat)
    requires
        n <= usize::MAX + 1,
    ensures
        city_set(n).finite(),
        city_set(n).len() == n,
    decreases n,
{
    broadcast use vstd::set::group_set_axioms;

    if n == 0 {
        assert(city_set(0) =~= Set::<usize>::empty());
    } else {
        let m = (n - 1) as nat;
        lemma_city_set_len(m);
        assert(city_set(m).insert(m as usize) =~= city_set(n));
    }
}

/// Distinct cities out of `0..n` are at most `n` many, and `n` of them are
/// all the cities.
pub proof fn lemma_distinct_cities(s: Seq<usize>, n: nat)
    requires
        s.no_duplicates(),
        forall|i: int| 0 <= i < s.len() ==> (#[trigger] s[i]) < n,
    ensures
        s.len() <= n,
        s.len() <= usize::MAX + 1,
        s.len() == n ==> forall|v: usize| v < n ==> s.contains(v),
{
    broadcast use vstd::seq_lib::seq_to_set_is_finite;

    let m: nat = if n <= usize::MAX + 1 {
        n
    } else {
        (usize::MAX + 1) as nat
    };
    lemma_city_set_len(m);
    s.unique_seq_to_set();
    assert(s.to_set().subset_of(city_set(m))) by {
        assert forall|v: usize| s.to_set().contains(v) implies city_set(m).contains(v) by {
            let k = choose|k: int| 0 <= k < s.len() && s[k] == v;
            assert(s[k] < n);
        }
    }
    vstd::set_lib::lemma_len_subset(s.to_set(), city_set(m));
    if s.len() == n {
        vstd::set_lib::lemma_subset_equality(s.to_set(), city_set(m));
        assert forall|v: usize| v < n implies s.contains(v) by {
            assert(city_set(m).contains(v));
            assert(s.to_set().contains(v));
        }
    }
}

/// Distinct cities among which every city of `0..n` occurs are at least
/// `n` many.
pub proof fn lemma_all_cities_covered(s: Seq<usize>, n: nat)
    requires
        s.no_duplicates(),
        n <= usize::MAX + 1,
        forall|v: usize| v < n ==> s.contains(v),
    ensures
        s.len() >= n,
{
    broadcast use vstd::seq_lib::seq_to_set_is_finite;

    lemma_city_set_len(n);
    s.unique_seq_to_set();
    assert(city_set(n).subset_of(s.to_set())) by {
        assert forall|v: usize| city_set(n).contains(v) implies s.to_set().contains(v) by {
            assert(s.contains(v));
        }
    }
    vstd::set_lib::lemma_len_subset(city_set(n), s.to_set());
}

/// A permutation of `0..n` holds every city below `n` exactly once.
pub proof fn lemma_permutation_visits_each_city_once(s: Seq<usize>, n: nat)
    requires
        is_permutation(s, n),
    ensures
        forall|v: usize| v < n ==> s.contains(v),
        forall|v: usize| v < n ==> s.to_multiset().count(v) == 1,
{
    broadcast use vstd::seq_lib::to_multiset_contains;

    assert(s.no_duplicates());
    lemma_distinct_cities(s, n);
    s.lemma_multiset_has_no_duplicates();
    assert forall|v: usize| v < n implies s.to_multiset().count(v) == 1 by {
        assert(s.contains(v));
        assert(s.to_multiset().count(v) > 0);
        assert(s.to_multiset().contains(v));
    }
}

/// `s` with the entries at `x` and `y` exchanged.
pub open spec fn swapped(s: Seq<usize>, x: int, y: int) -> Seq<usize> {
    s.update(x, s[y]).update(y, s[x])
}

/// Exchanging two entries of a permutation leaves a permutation.
pub proof fn lemma_swap_keeps_permutation(s: Seq<usize>, x: int, y: int, n: nat)
    requires
        is_permutation(s, n),
        0 <= x < s.len(),
        0 <= y < s.len(),
    ensures
        is_permutation(swapped(s, x, y), n),
{
    let t = swapped(s, x, y);
    assert forall|i: int| 0 <= i < t.len() implies (#[trigger] t[i]) < n by {
        let k = if i == x {
            y
        } else if i == y {
            x
        } else {
            i
        };
        assert(t[i] == s[k]);
    }
    assert forall|i: int, j: int| 0 <= i < j < t.len() implies t[i] != t[j] by {
        let ki = if i == x {
            y
        } else if i == y {
            x
        } else {
            i
        };
        let kj = if j == x {
            y
        } else if j == y {
            x
        } else {
            j
        };
        assert(t[i] == s[ki] && t[j] == s[kj]);
        assert(ki != kj);
        if ki < kj {
            assert(s[ki] != s[kj]);
        } else {
            assert(s[kj] != s[ki]);
        }
    }
}

/// Exchanges the entries at `x` and `y`.
pub fn swap_entries(tour: &mut Vec<usize>, x: usize, y: usize)
    requires
        x < old(tour)@.len(),
        y < old(tour)@.len(),
    ensures
        final(tour)@ == swapped(old(tour)@, x as int, y as int),
{
    let at_x = tour[x];
    let at_y = tour[y];
    tour.set(x, at_y);
    tour.set(y, at_x);
}

/// A copy of the tour.
pub fn copy_tour(tour: &Vec<usize>) -> (copy: Vec<usize>)
    ensures
        copy@ == tour@,
{
    let mut copy: Vec<usize> = Vec::new();
    let mut i: usize = 0;
    while i < tour.len()
        invariant
            i <= tour@.len(),
            copy@ == tour@.take(i as int),
        decreases tour@.len() - i,
    {
        copy.push(tour[i]);
        i += 1;
        assert(copy@ =~= tour@.take(i as int));
    }
    assert(tour@.take(tour@.len() as int) =~= tour@);
    copy
}

/// Uniformly random tours.
pub trait RandomSequence {
    /// A random tour of `n` cities.
    fn random(n: usize) -> (dna: Vec<usize>)
        ensures
            is_permutation(dna@, n as nat),
    ;
}

impl RandomSequence for Sequence {
    /// The identity tour, shuffled.
    fn random(n: usize) -> (dna: Vec<usize>) {
        let mut dna = identity(n);
        let ghost before = dna@;
        shuffle_in_place(&mut dna);
        proof {
            lemma_rearranged_permutation(before, dna@, n as nat);
        }
        dna
    }
}

} // verus!
