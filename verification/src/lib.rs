//! A generic evolutionary-optimization engine: population-based generational
//! search with weighted selection, crossover and mutation, applied to two
//! combinatorial problems — a 0/1 knapsack over a subset (bit-vector) genome
//! and a travelling-salesman tour over a permutation genome.
//!
//! The engine's data structures and operators are verified: subset genomes
//! keep their length and 0/1 alphabet, permutation genomes stay permutations
//! through every crossover and mutation, fitness functions match their
//! mathematical definitions, and the generational loop conserves the
//! population size and reports a solution only when it meets the target.

pub mod genetic;
pub mod knapsack;
mod rng;
pub mod tour;
pub mod tsp;
mod util;
