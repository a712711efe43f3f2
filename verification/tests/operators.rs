use tsp_genetic::crossover::{choose_cut_points, crossover, crossover_at};
use tsp_genetic::genome::{copy_tour, identity, swap_entries, RandomSequence, Sequence};
use tsp_genetic::mutation::{draw_partners, mutate, mutate_with};
use tsp_genetic::population::{best_index, collect_fitness, random_population, Individual};
use tsp_genetic::ratio::Ratio;
use tsp_genetic::reinsertion::{rank_by_fitness, reinsert};
use tsp_genetic::selection::{draw_parent, roulette_pick, select, total_fitness};
use tsp_genetic::tsp::TSP;

fn is_permutation(tour: &[usize]) -> bool {
    let mut seen = vec![false; tour.len()];
    for &city in tour {
        if city >= tour.len() || seen[city] {
            return false;
        }
        seen[city] = true;
    }
    true
}

fn ratio(numerator: u64, denominator: u64) -> Ratio {
    Ratio::new(numerator, denominator).unwrap()
}

fn with_fitness(values: &[i64]) -> Vec<Individual> {
    values
        .iter()
        .enumerate()
        .map(|(i, &fitness)| Individual { genome: vec![i, 0], fitness })
        .collect()
}

#[test]
fn identity_visits_the_cities_in_order() {
    assert_eq!(identity(0), Vec::<usize>::new());
    assert_eq!(identity(5), vec![0, 1, 2, 3, 4]);
}

#[test]
fn random_tours_are_permutations() {
    for n in 0..40 {
        let tour = Sequence::random(n);
        assert_eq!(tour.len(), n);
        assert!(is_permutation(&tour));
    }
}

#[test]
fn random_tours_are_shuffled() {
    let shuffled = (0..20).any(|_| Sequence::random(50) != identity(50));
    assert!(shuffled);
}

#[test]
fn swap_exchanges_two_entries() {
    let mut tour = vec![0, 1, 2, 3];
    swap_entries(&mut tour, 1, 3);
    assert_eq!(tour, vec![0, 3, 2, 1]);
    swap_entries(&mut tour, 2, 2);
    assert_eq!(tour, vec![0, 3, 2, 1]);
    assert_eq!(copy_tour(&tour), tour);
}

#[test]
fn crossover_keeps_the_slice_and_fills_from_the_second_parent() {
    let parent_a = vec![0, 1, 2, 3, 4];
    let parent_b = vec![4, 3, 2, 1, 0];
    let child = crossover_at(&parent_a, &parent_b, 1, 3);
    assert!(is_permutation(&child));
    assert_eq!(child[1], 1);
    assert_eq!(child[2], 2);
    assert_eq!(child, vec![3, 1, 2, 0, 4]);
}

#[test]
fn crossover_with_an_empty_slice_follows_the_second_parent() {
    let parent_a = vec![0, 1, 2, 3, 4];
    let parent_b = vec![4, 3, 2, 1, 0];
    for cut in 0..5 {
        assert_eq!(crossover_at(&parent_a, &parent_b, cut, cut), parent_b);
    }
    assert_eq!(crossover_at(&parent_a, &parent_b, 5, 5), parent_b);
}

#[test]
fn crossover_with_the_whole_tour_copies_the_first_parent() {
    let parent_a = vec![2, 0, 1, 4, 3];
    let parent_b = vec![4, 3, 2, 1, 0];
    assert_eq!(crossover_at(&parent_a, &parent_b, 0, 5), parent_a);
}

#[test]
fn crossover_of_nine_cities() {
    let first = vec![0, 1, 2, 3, 4, 5, 6, 7, 8];
    let second = vec![8, 2, 6, 7, 1, 5, 4, 0, 3];
    assert_eq!(crossover_at(&first, &second, 3, 7), vec![2, 7, 1, 3, 4, 5, 6, 0, 8]);
    assert_eq!(crossover_at(&second, &first, 3, 7), vec![2, 3, 6, 7, 1, 5, 4, 8, 0]);
    assert_eq!(crossover_at(&first, &second, 0, 1), vec![0, 2, 6, 7, 1, 5, 4, 3, 8]);
    assert_eq!(crossover_at(&second, &first, 0, 1), vec![8, 1, 2, 3, 4, 5, 6, 7, 0]);
    assert_eq!(crossover_at(&first, &second, 0, 9), first);
    assert_eq!(crossover_at(&first, &second, 1, 9), first);
    assert_eq!(crossover_at(&first, &second, 0, 8), first);
}

#[test]
fn crossover_at_every_cut_gives_a_permutation() {
    let parent_a = vec![3, 0, 5, 1, 4, 2];
    let parent_b = vec![1, 2, 3, 4, 5, 0];
    for i in 0..=6 {
        for j in i..=6 {
            let child = crossover_at(&parent_a, &parent_b, i, j);
            assert!(is_permutation(&child));
            assert_eq!(&child[i..j], &parent_a[i..j]);
        }
    }
}

#[test]
fn random_crossover_gives_a_permutation() {
    for n in 1..12 {
        for _ in 0..20 {
            let parent_a = Sequence::random(n);
            let parent_b = Sequence::random(n);
            let child = crossover(&parent_a, &parent_b);
            assert_eq!(child.len(), n);
            assert!(is_permutation(&child));
        }
    }
}

#[test]
fn cut_points_are_ordered_and_in_range() {
    assert_eq!(choose_cut_points(0), (0, 0));
    assert_eq!(choose_cut_points(1), (0, 1));
    assert_eq!(choose_cut_points(2), (0, 1));
    for n in 2..30 {
        for _ in 0..50 {
            let (i, j) = choose_cut_points(n);
            assert!(i < j);
            assert!(j < n);
        }
    }
}

#[test]
fn mutation_with_rate_zero_changes_nothing() {
    let tour = vec![4, 2, 0, 1, 3];
    for _ in 0..1000 {
        let mut mutated = tour.clone();
        mutate(&mut mutated, ratio(0, 1));
        assert_eq!(mutated, tour);
    }
}

#[test]
fn mutation_keeps_the_cities() {
    for n in 0..20 {
        for rate in [ratio(1, 1), ratio(1, 2), ratio(5, 100)] {
            let mut tour = Sequence::random(n);
            mutate(&mut tour, rate);
            assert_eq!(tour.len(), n);
            assert!(is_permutation(&tour));
        }
    }
}

#[test]
fn mutation_swaps_each_position_with_its_partner() {
    let mut tour = vec![0, 1, 2, 3];
    mutate_with(&mut tour, &vec![Some(2), None, Some(3), None]);
    assert_eq!(tour, vec![2, 1, 3, 0]);
    let mut tour = vec![0, 1, 2];
    mutate_with(&mut tour, &vec![Some(1), Some(0), None]);
    assert_eq!(tour, vec![0, 1, 2]);
    let mut tour = vec![0, 1, 2];
    mutate_with(&mut tour, &vec![None, None, None]);
    assert_eq!(tour, vec![0, 1, 2]);
}

#[test]
fn partners_follow_the_rate() {
    let none = draw_partners(10, ratio(0, 7));
    assert_eq!(none, vec![None; 10]);
    let all = draw_partners(10, ratio(3, 3));
    assert_eq!(all.len(), 10);
    for (p, partner) in all.iter().enumerate() {
        let q = partner.unwrap();
        assert!(q < 10);
        assert_ne!(q, p);
    }
    assert_eq!(draw_partners(1, ratio(1, 1)), vec![None]);
    for _ in 0..50 {
        for (p, partner) in draw_partners(6, ratio(1, 2)).iter().enumerate() {
            if let Some(q) = partner {
                assert!(*q < 6);
                assert_ne!(*q, p);
            }
        }
    }
}

#[test]
fn the_wheel_gives_each_individual_its_tickets() {
    let fitness = vec![1, 0, 3, 2];
    assert_eq!(total_fitness(&fitness), 6);
    assert_eq!(roulette_pick(&fitness, 0), 0);
    assert_eq!(roulette_pick(&fitness, 1), 2);
    assert_eq!(roulette_pick(&fitness, 2), 2);
    assert_eq!(roulette_pick(&fitness, 3), 2);
    assert_eq!(roulette_pick(&fitness, 4), 3);
    assert_eq!(roulette_pick(&fitness, 5), 3);
    assert_eq!(total_fitness(&Vec::new()), 0);
    let large = vec![i64::MAX, i64::MAX, i64::MAX];
    assert_eq!(total_fitness(&large), 3 * (i64::MAX as u128));
    assert_eq!(roulette_pick(&large, 2 * (i64::MAX as u128)), 2);
    assert_eq!(roulette_pick(&large, 2 * (i64::MAX as u128) - 1), 1);
}

#[test]
fn parents_without_fitness_are_never_drawn() {
    let fitness = vec![0, 5, 0, 7, 0];
    for _ in 0..200 {
        let k = draw_parent(&fitness, 12);
        assert!(k == 1 || k == 3);
    }
}

#[test]
fn parents_are_drawn_uniformly_where_no_one_has_fitness() {
    let fitness = vec![0, 0, 0];
    let mut seen = [false; 3];
    for _ in 0..200 {
        let k = draw_parent(&fitness, 0);
        assert!(k < 3);
        seen[k] = true;
    }
    assert_eq!(seen, [true, true, true]);
}

#[test]
fn selection_makes_the_groups_that_the_ratio_asks_for() {
    let population = with_fitness(&[3; 40]);
    let groups = select(&population, ratio(7, 10), 3);
    assert_eq!(groups.len(), 9);
    for group in &groups {
        assert_eq!(group.len(), 3);
        for &k in group {
            assert!(k < 40);
        }
    }
    assert_eq!(select(&population, ratio(7, 10), 80).len(), 0);
    assert_eq!(select(&population, ratio(0, 10), 1).len(), 0);
    assert_eq!(select(&population, ratio(1, 1), 1).len(), 40);
    assert_eq!(select(&population, ratio(1, 1), 40).len(), 1);
    assert_eq!(select(&Vec::new(), ratio(1, 1), 2).len(), 0);
    assert_eq!(population.len(), 40);
}

#[test]
fn selection_skips_individuals_without_fitness() {
    let population = with_fitness(&[0, 4, 0, 0, 9, 0]);
    let groups = select(&population, ratio(1, 1), 2);
    assert_eq!(groups.len(), 3);
    for group in &groups {
        for &k in group {
            assert!(k == 1 || k == 4);
        }
    }
}

#[test]
fn ranking_orders_by_fitness() {
    let population = with_fitness(&[5, 9, 1, 7]);
    assert_eq!(rank_by_fitness(&population), vec![1, 3, 0, 2]);
    assert_eq!(rank_by_fitness(&Vec::new()), Vec::<usize>::new());
    assert_eq!(best_index(&population), 1);
    assert_eq!(best_index(&with_fitness(&[2, 8, 8, 1])), 1);
    assert_eq!(collect_fitness(&population), vec![5, 9, 1, 7]);
}

#[test]
fn reinsertion_admits_the_offspring_and_keeps_the_fittest() {
    let old = with_fitness(&[5, 9, 1, 7]);
    let offspring = with_fitness(&[3, 8]);
    let elitist = reinsert(&old, &offspring, true, ratio(1, 2));
    assert_eq!(collect_fitness(&elitist), vec![8, 3, 9, 7]);
    let plain = reinsert(&old, &offspring, false, ratio(1, 2));
    assert_eq!(collect_fitness(&plain), vec![3, 8, 9, 7]);
    assert_eq!(plain[0].genome, offspring[0].genome);
    assert_eq!(plain[2].genome, old[1].genome);
    let one = reinsert(&old, &offspring, true, ratio(1, 4));
    assert_eq!(collect_fitness(&one), vec![8, 9, 7, 5]);
}

#[test]
fn reinsertion_pads_from_the_old_population() {
    let old = with_fitness(&[5, 9, 1, 7]);
    let offspring = with_fitness(&[3, 8]);
    let next = reinsert(&old, &offspring, false, ratio(1, 1));
    assert_eq!(collect_fitness(&next), vec![3, 8, 9, 7]);
    let none = reinsert(&old, &Vec::new(), true, ratio(1, 1));
    assert_eq!(collect_fitness(&none), vec![9, 7, 5, 1]);
}

#[test]
fn reinsertion_with_ratio_zero_keeps_the_old_population() {
    let old = with_fitness(&[5, 9, 1, 7, 9]);
    let offspring = with_fitness(&[30, 80, 20]);
    for elitist in [false, true] {
        let next = reinsert(&old, &offspring, elitist, ratio(0, 1));
        assert_eq!(next.len(), old.len());
        let mut kept: Vec<(i64, Vec<usize>)> =
            next.iter().map(|who| (who.fitness, who.genome.clone())).collect();
        let mut before: Vec<(i64, Vec<usize>)> =
            old.iter().map(|who| (who.fitness, who.genome.clone())).collect();
        kept.sort();
        before.sort();
        assert_eq!(kept, before);
    }
}

#[test]
fn reinsertion_keeps_the_best_fitness() {
    let old = with_fitness(&[5, 9, 1, 7]);
    let offspring = with_fitness(&[3, 2, 4, 1]);
    for k in 0..4 {
        let next = reinsert(&old, &offspring, true, ratio(k, 4));
        assert_eq!(next.len(), 4);
        assert_eq!(collect_fitness(&next).into_iter().max(), Some(9));
    }
}

#[test]
fn random_individuals_are_scored_tours() {
    let catalog = TSP::new(7, 50, 50);
    let population = random_population(&catalog, 12);
    assert_eq!(population.len(), 12);
    for who in &population {
        assert!(is_permutation(&who.genome));
        assert_eq!(who.genome.len(), 7);
        assert_eq!(who.fitness, catalog.fitness_of(&who.genome));
        let copy = who.duplicate();
        assert_eq!(copy.genome, who.genome);
        assert_eq!(copy.fitness, who.fitness);
    }
}
