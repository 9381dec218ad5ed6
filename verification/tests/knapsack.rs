use evolve::genetic::{Crossover, Fitness, Mutate, Selection};
use evolve::knapsack::{run_evolution, Genome, Pair, Population, Thing};

fn packing_things() -> Vec<Thing> {
    vec![
        Thing::new(500, 2200),
        Thing::new(150, 160),
        Thing::new(60, 350),
        Thing::new(40, 333),
        Thing::new(30, 192),
        Thing::new(5, 25),
        Thing::new(10, 38),
        Thing::new(15, 80),
        Thing::new(500, 200),
        Thing::new(100, 70),
    ]
}

fn genome_with(bits: Vec<u32>, things: Vec<Thing>, limit: u32) -> Genome {
    Genome {
        data: bits,
        things,
        limit,
    }
}

#[test]
fn fitness_counts_packed_value() {
    let g = genome_with(vec![0, 1, 1, 1, 1, 1, 1, 1, 1, 1], packing_things(), 3000);
    // weights 160+350+333+192+25+38+80+200+70 = 1448 <= 3000: everything fits
    assert_eq!(g.fitness(), 150 + 60 + 40 + 30 + 5 + 10 + 15 + 500 + 100);
}

#[test]
fn fitness_truncates_at_first_overflow() {
    // laptop (2200) + headphones (160) + mug (350) fit; the notepad (333)
    // would overflow 3000 and stops the scan there
    let g = genome_with(vec![1; 10], packing_things(), 3000);
    assert_eq!(g.fitness(), 500 + 150 + 60);
}

#[test]
fn items_after_overflow_contribute_nothing() {
    // the scan stops at the notepad (index 3); flags strictly after it do
    // not change the fitness, even for items that would fit on their own
    let with_tail = genome_with(vec![1, 1, 1, 1, 1, 1, 1, 1, 1, 1], packing_things(), 3000);
    let without_tail = genome_with(vec![1, 1, 1, 1, 0, 0, 0, 0, 0, 0], packing_things(), 3000);
    assert_eq!(with_tail.fitness(), without_tail.fitness());
}

#[test]
fn fitness_monotone_when_addition_fits() {
    // adding the baseball cap (70) to a light subset keeps every item
    // within the limit, so the fitness may only grow
    let smaller = genome_with(vec![0, 1, 0, 0, 0, 0, 0, 0, 1, 0], packing_things(), 3000);
    let larger = genome_with(vec![0, 1, 0, 0, 0, 0, 0, 0, 1, 1], packing_things(), 3000);
    assert!(smaller.fitness() <= larger.fitness());
    assert_eq!(smaller.fitness(), 650);
    assert_eq!(larger.fitness(), 750);
}

#[test]
fn zero_capacity_packs_nothing() {
    let g = genome_with(vec![1; 10], packing_things(), 0);
    assert_eq!(g.fitness(), 0);
}

#[test]
fn random_genome_is_valid() {
    let things = packing_things();
    let g = Genome::new(&things, 3000);
    assert_eq!(g.data.len(), things.len());
    assert!(g.data.iter().all(|&b| b == 0 || b == 1));
}

#[test]
fn mutate_with_certain_probability_flips_exactly_one_flag() {
    let mut g = genome_with(vec![0; 10], packing_things(), 3000);
    let before = g.data.clone();
    g.mutate(1, 1, 1);
    let differing = before
        .iter()
        .zip(g.data.iter())
        .filter(|(a, b)| a != b)
        .count();
    assert_eq!(differing, 1);
    assert!(g.data.iter().all(|&b| b == 0 || b == 1));
}

#[test]
fn mutate_keeps_encoding_valid() {
    let mut g = genome_with(vec![1, 0, 1, 0, 1, 0, 1, 0, 1, 0], packing_things(), 3000);
    g.mutate(5, 1, 2);
    assert_eq!(g.data.len(), 10);
    assert!(g.data.iter().all(|&b| b == 0 || b == 1));
}

#[test]
fn crossover_swaps_suffixes_at_one_cut() {
    // with complementary parents, the children stay complementary at every
    // position no matter where the shared cut point fell
    let a = genome_with(vec![0; 10], packing_things(), 3000);
    let b = genome_with(vec![1; 10], packing_things(), 3000);
    let mut pair = Pair { a, b };
    pair.crossover();
    assert_eq!(pair.a.data.len(), 10);
    assert_eq!(pair.b.data.len(), 10);
    for i in 0..10 {
        assert_eq!(pair.a.data[i] + pair.b.data[i], 1);
    }
    // child A starts with parent A's prefix: once it switches to parent
    // B's ones it never switches back
    let first_one = pair.a.data.iter().position(|&x| x == 1).unwrap_or(10);
    assert!(pair.a.data[first_one..].iter().all(|&x| x == 1));
}

#[test]
fn selection_draws_only_positive_fitness_genomes() {
    let things = vec![Thing::new(10, 5)];
    let zero = genome_with(vec![0], things.clone(), 5);
    let hit = genome_with(vec![1], things.clone(), 5);
    let population = Population {
        data: vec![zero, hit],
        best: 0,
        generation_since_improvement: 0,
    };
    let drawn = population.selection(6);
    assert_eq!(drawn.data.len(), 6);
    for g in &drawn.data {
        assert_eq!(g.data, vec![1]);
    }
}

#[test]
fn selection_with_no_positive_fitness_returns_nothing() {
    let things = vec![Thing::new(10, 5)];
    let zero_a = genome_with(vec![0], things.clone(), 5);
    let zero_b = genome_with(vec![0], things.clone(), 5);
    let population = Population {
        data: vec![zero_a, zero_b],
        best: 0,
        generation_since_improvement: 0,
    };
    let drawn = population.selection(4);
    assert_eq!(drawn.data.len(), 0);
}

#[test]
fn population_of_requested_size() {
    let things = packing_things();
    let population = Population::new(12, &things, 3000);
    assert_eq!(population.data.len(), 12);
    for g in &population.data {
        assert_eq!(g.data.len(), things.len());
        assert_eq!(g.limit, 3000);
    }
}

#[test]
fn knapsack_stagnation_counter_tracks_improvement() {
    let things = packing_things();
    let mut population = Population::new(3, &things, 3000);
    assert_eq!(population.best, 0);
    population.note_best(400);
    assert_eq!(population.best, 400);
    assert_eq!(population.generation_since_improvement, 0);
    population.note_best(400);
    assert_eq!(population.generation_since_improvement, 1);
    population.note_best(300);
    assert_eq!(population.best, 400);
    assert_eq!(population.generation_since_improvement, 2);
    population.note_best(500);
    assert_eq!(population.best, 500);
    assert_eq!(population.generation_since_improvement, 0);
}

#[test]
fn knapsack_reset_keeps_best_genome_and_size() {
    let things = packing_things();
    let mut population = Population::new(5, &things, 3000);
    let elite = genome_with(vec![1, 1, 0, 0, 1, 1, 1, 1, 1, 1], packing_things(), 3000);
    assert_eq!(elite.fitness(), 1310);
    population.data[0] = elite;
    population.generation_since_improvement = 51;
    population.reset_with_best();
    assert_eq!(population.data.len(), 5);
    assert_eq!(population.generation_since_improvement, 0);
    assert!(population.data[0].fitness() >= 1310);
    assert!(population
        .data
        .iter()
        .any(|g| g.data == vec![1, 1, 0, 0, 1, 1, 1, 1, 1, 1]));
}

#[test]
fn evolution_returns_genome_meeting_target() {
    // the packing scenario: capacity 3000, target 1310, generation budget
    // 1000 — the engine must find a subset worth at least 1310
    let things = packing_things();
    let mut population = Population::new(10, &things, 3000);
    let solution = run_evolution(&mut population, 1310, 1000);
    let (best, generation) = solution.expect("no solution found");
    assert!(best.fitness() >= 1310);
    assert!(generation < 1000);
    assert_eq!(population.data.len(), 10);
}

#[test]
fn evolution_detects_existing_solution_immediately() {
    let things = packing_things();
    let ready = genome_with(vec![1, 1, 0, 0, 1, 1, 1, 1, 1, 1], packing_things(), 3000);
    assert_eq!(ready.fitness(), 1310);
    let mut population = Population::new(4, &things, 3000);
    population.data[0] = ready;
    let solution = run_evolution(&mut population, 1310, 50);
    let (best, generation) = solution.expect("no solution found");
    assert_eq!(generation, 0);
    assert!(best.fitness() >= 1310);
}

#[test]
fn knapsack_reports_no_solution_for_impossible_target() {
    // total item value is 1410, so 2000 is out of reach
    let things = packing_things();
    let mut population = Population::new(6, &things, 3000);
    assert!(run_evolution(&mut population, 2000, 5).is_none());
    assert_eq!(population.data.len(), 6);
}
