use tsp_genetic::ratio::Ratio;
use tsp_genetic::tsp::{City, MAX_FITNESS, TSP};

fn square() -> TSP {
    TSP::from_points(&vec![(0, 0), (10, 0), (10, 10), (0, 10)])
}

#[test]
fn fitness_of_the_square() {
    let catalog = square();
    let tour = vec![0, 1, 2, 3];
    assert_eq!(catalog.capped_cost(&tour), 300);
    assert_eq!(catalog.fitness_of(&tour), 30744573456182586);
    assert_eq!(catalog.fitness_of(&tour), MAX_FITNESS / 300);
}

#[test]
fn the_tour_is_an_open_path() {
    let catalog = square();
    assert_eq!(catalog.capped_cost(&vec![0, 2, 1, 3]), 200 + 100 + 200);
    assert_eq!(catalog.capped_cost(&vec![3, 2, 1, 0]), 300);
    assert_eq!(catalog.capped_cost(&vec![0]), 0);
    assert_eq!(catalog.capped_cost(&Vec::new()), 0);
}

#[test]
fn a_tour_of_cost_zero_has_the_highest_fitness() {
    let catalog = TSP::from_points(&vec![(3, 3), (3, 3), (3, 3)]);
    assert_eq!(catalog.fitness_of(&vec![0, 1, 2]), MAX_FITNESS);
    assert_eq!(catalog.fitness_of(&vec![2]), MAX_FITNESS);
}

#[test]
fn fitness_is_rounded_to_the_nearest_integer() {
    let catalog = TSP::from_points(&vec![(0, 0), (1, 0), (1, 1), (0, 2)]);
    assert_eq!(catalog.fitness_of(&vec![0, 1]), MAX_FITNESS);
    assert_eq!(catalog.fitness_of(&vec![0, 1, 2]), 4611686018427387904);
    assert_eq!(catalog.fitness_of(&vec![0, 3]), 2305843009213693952);
    assert_eq!(catalog.fitness_of(&vec![0, 1, 2, 3]), 2305843009213693952);
}

#[test]
fn a_very_long_tour_has_no_fitness() {
    let far = u32::MAX;
    let catalog = TSP::from_points(&vec![(0, 0), (far, far), (0, 0), (far, far)]);
    let edge = 2 * (far as u128) * (far as u128);
    assert_eq!(catalog.cities[0].distance_squared(&catalog.cities[1]), edge);
    assert_eq!(catalog.fitness_of(&vec![0, 1]), 0);
    assert_eq!(catalog.fitness_of(&vec![0, 1, 2, 3]), 0);
    assert!(catalog.capped_cost(&vec![0, 1, 2, 3]) > 2 * (MAX_FITNESS as u128));
    let wide = TSP::from_points(&vec![(0, 0), (far, 0)]);
    assert_eq!(wide.fitness_of(&vec![0, 1]), 1);
}

#[test]
fn a_cheaper_tour_is_fitter() {
    let catalog = TSP::from_points(&vec![(0, 0), (5, 0), (9, 0), (20, 0), (21, 7)]);
    let tours = [
        vec![0, 1, 2, 3, 4],
        vec![4, 0, 3, 1, 2],
        vec![2, 4, 0, 1, 3],
        vec![1, 3, 0, 4, 2],
    ];
    for a in &tours {
        for b in &tours {
            let cost_a = catalog.capped_cost(a);
            let cost_b = catalog.capped_cost(b);
            if cost_a < cost_b {
                assert!(catalog.fitness_of(a) > catalog.fitness_of(b));
            }
            if cost_a == cost_b {
                assert_eq!(catalog.fitness_of(a), catalog.fitness_of(b));
            }
        }
    }
}

#[test]
fn the_catalog_measures_between_its_cities() {
    let catalog = square();
    assert_eq!(catalog.distance_squared(0, 1), 100);
    assert_eq!(catalog.distance_squared(0, 2), 200);
    assert_eq!(catalog.distance_squared(3, 3), 0);
}

#[test]
fn distance_is_squared_and_symmetric() {
    let a = City::new(0, 1, 2);
    let b = City::new(1, 4, 6);
    assert_eq!(a.distance_squared(&b), 25);
    assert_eq!(b.distance_squared(&a), 25);
    assert_eq!(a.distance_squared(&a), 0);
}

#[test]
fn average_is_truncated_toward_zero() {
    let catalog = square();
    assert_eq!(catalog.average(&[1, 2, 4]), 2);
    assert_eq!(catalog.average(&[-1, -2, -4]), -2);
    assert_eq!(catalog.average(&[7]), 7);
    assert_eq!(catalog.average(&[]), 0);
    assert_eq!(catalog.average(&[i64::MAX, i64::MAX]), i64::MAX);
    assert_eq!(catalog.average(&[i64::MIN, i64::MIN, i64::MIN]), i64::MIN);
    assert_eq!(catalog.average(&[i64::MAX, i64::MIN]), 0);
    assert_eq!(catalog.average(&[-3, 2]), 0);
}

#[test]
fn fitness_lies_between_its_bounds() {
    let catalog = square();
    assert_eq!(catalog.lowest_possible_fitness(), 0);
    assert_eq!(catalog.highest_possible_fitness(), i64::MAX);
    assert_eq!(catalog.fitness_bounds(), (0, MAX_FITNESS));
}

#[test]
fn a_random_catalog_lies_on_the_canvas() {
    let catalog = TSP::new(80, 1000, 500);
    assert_eq!(catalog.len(), 80);
    for (i, city) in catalog.cities.iter().enumerate() {
        assert_eq!(city.id, i);
        assert!(city.x < 1000);
        assert!(city.y < 500);
    }
    assert_eq!(TSP::new(0, 10, 10).len(), 0);
}

#[test]
fn a_random_city_lies_below_its_bounds() {
    for _ in 0..100 {
        let city = City::random(3, 1, 2);
        assert_eq!(city.id, 3);
        assert_eq!(city.x, 0);
        assert!(city.y < 2);
    }
    let pinned = City::random(0, 0, 0);
    assert_eq!((pinned.x, pinned.y), (0, 0));
}

#[test]
fn a_catalog_of_points_keeps_their_order() {
    let catalog = square();
    assert_eq!(catalog.len(), 4);
    assert_eq!((catalog.cities[2].id, catalog.cities[2].x, catalog.cities[2].y), (2, 10, 10));
}

#[test]
fn a_ratio_is_a_fraction_between_zero_and_one() {
    assert!(Ratio::new(0, 1).is_some());
    assert!(Ratio::new(1, 1).is_some());
    assert!(Ratio::new(7, 10).is_some());
    assert!(Ratio::new(2, 1).is_none());
    assert!(Ratio::new(0, 0).is_none());
    assert!(Ratio { numerator: 1, denominator: 2 }.is_valid());
    assert!(!Ratio { numerator: 3, denominator: 2 }.is_valid());
    assert!(Ratio { numerator: 0, denominator: 2 }.is_zero());
}

#[test]
fn a_ratio_takes_its_share_rounded_down() {
    let seven_tenths = Ratio::new(7, 10).unwrap();
    assert_eq!(seven_tenths.portion_of(40), 28);
    assert_eq!(seven_tenths.portion_of(9), 6);
    assert_eq!(seven_tenths.portion_of(0), 0);
    assert_eq!(Ratio::new(0, 5).unwrap().portion_of(40), 0);
    assert_eq!(Ratio::new(5, 5).unwrap().portion_of(40), 40);
    assert_eq!(Ratio::new(u64::MAX, u64::MAX).unwrap().portion_of(usize::MAX), usize::MAX);
}
