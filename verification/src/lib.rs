//! A generational genetic algorithm for the travelling salesman problem,
//! advanced one generation at a time.
//!
//! Coordinates, fitness values and ratios are exact integers, so every
//! operator has a contract that pins down what it returns.

pub mod ratio;
pub mod random;
pub mod genome;
pub mod tsp;
pub mod crossover;
pub mod population;
pub mod reinsertion;
pub mod selection;
pub mod mutation;
pub mod simulation;
