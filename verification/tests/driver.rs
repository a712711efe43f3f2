use tsp_genetic::population::Individual;
use tsp_genetic::ratio::Ratio;
use tsp_genetic::simulation::{
    breed, new_simulation, Config, ConfigurationError, StepResult, GENERATION_LIMIT, HEIGHT,
    N_CITIES, N_INDIVIDUALS_PER_PARENTS, N_POPULATION, WIDTH,
};
use tsp_genetic::tsp::TSP;

fn small(limit: u64, elitist: bool) -> Config {
    Config {
        city_count: 6,
        population_size: 8,
        group_size: 2,
        selection_ratio: Ratio { numerator: 7, denominator: 10 },
        mutation_rate: Ratio { numerator: 1, denominator: 10 },
        reinsertion_ratio: Ratio { numerator: 1, denominator: 2 },
        elitist,
        generation_limit: limit,
        canvas_width: 100,
        canvas_height: 100,
    }
}

fn is_permutation(tour: &[usize]) -> bool {
    let mut seen = vec![false; tour.len()];
    for &city in tour {
        if city >= tour.len() || seen[city] {
            return false;
        }
        seen[city] = true;
    }
    true
}

fn fault(config: Config) -> Option<ConfigurationError> {
    new_simulation(config).err()
}

#[test]
fn a_configuration_with_a_fault_is_refused() {
    let mut config = small(5, true);
    config.population_size = 0;
    assert_eq!(fault(config), Some(ConfigurationError::EmptyPopulation));
    assert_eq!(config.validate(), Err(ConfigurationError::EmptyPopulation));
    let mut config = small(5, true);
    config.group_size = 0;
    assert_eq!(fault(config), Some(ConfigurationError::EmptyGroup));
    let mut config = small(5, true);
    config.city_count = 1;
    assert_eq!(fault(config), Some(ConfigurationError::TooFewCities));
    let mut config = small(5, true);
    config.selection_ratio = Ratio { numerator: 3, denominator: 2 };
    assert_eq!(fault(config), Some(ConfigurationError::RatioOutOfRange));
    let mut config = small(5, true);
    config.mutation_rate = Ratio { numerator: 0, denominator: 0 };
    assert_eq!(fault(config), Some(ConfigurationError::RatioOutOfRange));
    let mut config = small(5, true);
    config.reinsertion_ratio = Ratio { numerator: 11, denominator: 10 };
    assert_eq!(fault(config), Some(ConfigurationError::RatioOutOfRange));
    let mut config = small(5, true);
    config.population_size = 0;
    config.city_count = 0;
    assert_eq!(fault(config), Some(ConfigurationError::EmptyPopulation));
    assert_eq!(small(5, true).validate(), Ok(()));
}

#[test]
fn the_standard_configuration_is_accepted() {
    let config = Config::standard();
    assert_eq!(config.validate(), Ok(()));
    assert_eq!(config.city_count, 80);
    assert_eq!(config.population_size, 40);
    assert_eq!(config.generation_limit, 10000);
    assert_eq!(config.group_size, 3);
    assert_eq!((config.canvas_width, config.canvas_height), (1000, 1000));
    assert_eq!((N_CITIES, N_POPULATION, N_INDIVIDUALS_PER_PARENTS), (80, 40, 3));
    assert_eq!((WIDTH, HEIGHT, GENERATION_LIMIT), (1000, 1000, 10000));
    assert_eq!(config.selection_ratio.portion_of(40), 28);
    assert_eq!(config.mutation_rate.portion_of(100), 5);
    assert!(!config.elitist);
    let sim = new_simulation(config).unwrap();
    assert_eq!(sim.population().len(), 40);
    assert_eq!(sim.catalog().len(), 80);
    for (i, city) in sim.catalog().cities.iter().enumerate() {
        assert_eq!(city.id, i);
        assert!(city.x < 1000 && city.y < 1000);
    }
}

#[test]
fn a_new_simulation_starts_at_generation_zero() {
    let sim = new_simulation(small(5, true)).unwrap();
    assert_eq!(sim.generation(), 0);
    assert!(!sim.finished());
    assert_eq!(sim.population().len(), 8);
    assert_eq!(sim.catalog().len(), 6);
    assert_eq!(sim.config().city_count, 6);
    let highest = sim.population().iter().map(|who| who.fitness).max().unwrap();
    assert_eq!(sim.best_individual().fitness, highest);
    for who in sim.population() {
        assert!(is_permutation(&who.genome));
        assert_eq!(who.genome.len(), 6);
        assert_eq!(who.fitness, sim.catalog().fitness_of(&who.genome));
    }
}

#[test]
fn the_simulation_finishes_with_the_step_that_reaches_the_limit() {
    for elitist in [false, true] {
        let mut sim = new_simulation(small(5, elitist)).unwrap();
        for made in 1..=5u64 {
            let result = sim.step();
            assert_eq!(sim.generation(), made);
            match result {
                StepResult::Intermediate { generation, best_individual } => {
                    assert!(made < 5);
                    assert!(!sim.finished());
                    assert_eq!(generation, made);
                    assert_eq!(best_individual.fitness, sim.best_individual().fitness);
                    assert_eq!(best_individual.genome, sim.best_individual().genome);
                }
                StepResult::Final { generation, best_individual } => {
                    assert_eq!(made, 5);
                    assert!(sim.finished());
                    assert_eq!(generation, 5);
                    assert_eq!(best_individual.fitness, sim.best_individual().fitness);
                }
            }
        }
    }
}

#[test]
fn a_step_keeps_the_population_size_and_the_best_fitness() {
    for elitist in [false, true] {
        let mut sim = new_simulation(small(30, elitist)).unwrap();
        let mut best = sim.best_individual().fitness;
        for _ in 0..30 {
            sim.step();
            assert_eq!(sim.population().len(), 8);
            assert!(sim.best_individual().fitness >= best);
            best = sim.best_individual().fitness;
            let highest = sim.population().iter().map(|who| who.fitness).max().unwrap();
            assert!(highest <= best);
            for who in sim.population() {
                assert!(is_permutation(&who.genome));
                assert_eq!(who.fitness, sim.catalog().fitness_of(&who.genome));
            }
            assert!(is_permutation(&sim.best_individual().genome));
        }
    }
}

#[test]
fn a_finished_simulation_stays_as_it_is() {
    let mut sim = new_simulation(small(2, true)).unwrap();
    sim.step();
    sim.step();
    assert!(sim.finished());
    let fitness: Vec<i64> = sim.population().iter().map(|who| who.fitness).collect();
    let best = sim.best_individual().fitness;
    for _ in 0..3 {
        match sim.step() {
            StepResult::Final { generation, best_individual } => {
                assert_eq!(generation, 2);
                assert_eq!(best_individual.fitness, best);
            }
            StepResult::Intermediate { .. } => panic!("a finished simulation went on"),
        }
        assert_eq!(sim.generation(), 2);
        assert!(sim.finished());
        let now: Vec<i64> = sim.population().iter().map(|who| who.fitness).collect();
        assert_eq!(now, fitness);
    }
}

#[test]
fn a_limit_of_zero_finishes_with_the_first_step() {
    let mut sim = new_simulation(small(0, true)).unwrap();
    assert!(!sim.finished());
    assert!(matches!(sim.step(), StepResult::Final { generation: 1, .. }));
    assert!(sim.finished());
}

#[test]
fn advancing_takes_the_population_and_keeps_the_better_best() {
    let mut sim = new_simulation(small(3, true)).unwrap();
    let best = sim.best_individual().fitness;
    let next: Vec<Individual> = sim.population().iter().map(|who| who.duplicate()).collect();
    let genomes: Vec<Vec<usize>> = next.iter().map(|who| who.genome.clone()).collect();
    let result = sim.advance(next);
    assert!(matches!(result, StepResult::Intermediate { generation: 1, .. }));
    assert_eq!(sim.generation(), 1);
    assert_eq!(sim.best_individual().fitness, best);
    let now: Vec<Vec<usize>> = sim.population().iter().map(|who| who.genome.clone()).collect();
    assert_eq!(now, genomes);
}

#[test]
fn each_parent_of_a_group_has_one_child() {
    let catalog = TSP::new(6, 100, 100);
    let population: Vec<Individual> = (0..5).map(|_| Individual::random(&catalog)).collect();
    let groups = vec![vec![0, 1, 2], vec![4, 4, 3]];
    let offspring = breed(&catalog, &population, &groups, 3, Ratio { numerator: 1, denominator: 4 });
    assert_eq!(offspring.len(), 6);
    for who in &offspring {
        assert!(is_permutation(&who.genome));
        assert_eq!(who.genome.len(), 6);
        assert_eq!(who.fitness, catalog.fitness_of(&who.genome));
    }
    let none = breed(&catalog, &population, &Vec::new(), 3, Ratio { numerator: 0, denominator: 1 });
    assert!(none.is_empty());
    let same = breed(&catalog, &population, &vec![vec![2]], 1, Ratio { numerator: 0, denominator: 1 });
    assert_eq!(same[0].genome, population[2].genome);
}
