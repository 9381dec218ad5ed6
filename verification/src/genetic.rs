//! The four pluggable capabilities of the evolutionary engine. Each problem
//! encoding implements them for its own genome and population types; the
//! generational loop is written against their contracts.
//!
//! Every trait carries a well-formedness spec member: the implementing type
//! says what a valid value looks like, the operations require it of their
//! input and the mutating ones guarantee it of their output. Mutation
//! probabilities are exact rationals `num / den`, so the contract that the
//! probability is positive (`1 <= num`) is machine-checked at every call
//! site.

use vstd::prelude::*;

verus! {

/// Number of consecutive stagnant generations that triggers the elitist
/// reset of a population.
pub const STAGNATION_LIMIT: usize = 50;

/// Weighted parent sampling: draw `size` genomes from the population, with
/// replacement, each draw favouring fitter genomes.
pub trait Selection: Sized {
    /// What the population must satisfy before it can be sampled.
    spec fn select_wf(&self) -> bool;

    fn selection(&self, size: usize) -> Self
        requires
            self.select_wf(),
    ;
}

/// Fitness evaluation: a pure function of the genome's encoding and the
/// shared problem instance.
pub trait Fitness<T> {
    /// What the genome must satisfy before it can be scored.
    spec fn fitness_wf(&self) -> bool;

    fn fitness(&self) -> T
        requires
            self.fitness_wf(),
    ;
}

/// Random perturbation: attempt up to `n` encoding-preserving perturbations,
/// each accepted with probability `num / den`; only accepted perturbations
/// count.
pub trait Mutate {
    /// The encoding invariant that every perturbation preserves.
    spec fn mutate_wf(&self) -> bool;

    fn mutate(&mut self, n: usize, num: u32, den: u32)
        requires
            old(self).mutate_wf(),
            1 <= num,
            num <= den,
        ensures
            final(self).mutate_wf(),
    ;
}

/// Recombination of two parents into two children, in place: after the call
/// the two genome slots hold the children.
pub trait Crossover {
    /// The encoding invariant that both children keep.
    spec fn crossover_wf(&self) -> bool;

    fn crossover(&mut self)
        requires
            old(self).crossover_wf(),
        ensures
            final(self).crossover_wf(),
    ;
}

} // verus!
