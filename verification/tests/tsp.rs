use evolve::genetic::{Crossover, Fitness, Mutate, Selection};
use evolve::tour::DistanceTable;
use evolve::tsp::{run_evolution, Genome, Pair, Population};

/// Distances between 2-D points, scaled to integers (three decimal places).
fn table_from_points(points: &[(f64, f64)]) -> DistanceTable {
    let n = points.len();
    let mut d = vec![0u32; n * n];
    for i in 0..n {
        for j in 0..n {
            let dx = points[i].0 - points[j].0;
            let dy = points[i].1 - points[j].1;
            let dist = (dx * dx + dy * dy).sqrt();
            d[i * n + j] = (dist * 1000.0).round() as u32;
        }
    }
    DistanceTable::new(n, d).expect("distance table rejected")
}

/// A unit square: sides are 10 long, diagonals sqrt(200).
fn square_points() -> Vec<(f64, f64)> {
    vec![(0.0, 0.0), (0.0, 10.0), (10.0, 10.0), (10.0, 0.0)]
}

fn is_permutation(data: &[usize]) -> bool {
    let mut seen = vec![false; data.len()];
    for &x in data {
        if x >= data.len() || seen[x] {
            return false;
        }
        seen[x] = true;
    }
    true
}

#[test]
fn table_accepts_symmetric_square_matrix() {
    let t = DistanceTable::new(2, vec![0, 5, 5, 0]).expect("valid table rejected");
    assert_eq!(t.dist(0, 1), 5);
    assert_eq!(t.dist(1, 0), 5);
    assert_eq!(t.dist(0, 0), 0);
}

#[test]
fn table_rejects_wrong_size() {
    assert!(DistanceTable::new(2, vec![0, 5, 5]).is_none());
}

#[test]
fn table_rejects_asymmetry() {
    assert!(DistanceTable::new(2, vec![0, 5, 6, 0]).is_none());
}

#[test]
fn table_rejects_oversized_entry() {
    assert!(DistanceTable::new(1, vec![0x8000_0000]).is_none());
}

#[test]
fn table_rejects_too_many_stops() {
    assert!(DistanceTable::new(10001, Vec::new()).is_none());
}

#[test]
fn square_perimeter_tour_length() {
    let table = table_from_points(&square_points());
    let g = Genome {
        data: vec![0, 1, 2, 3],
        table,
    };
    // four sides of 10.000 each, scaled by 1000
    assert_eq!(g.fitness(), 40000);
}

#[test]
fn crossing_the_square_is_longer() {
    let table = table_from_points(&square_points());
    let g = Genome {
        data: vec![0, 2, 1, 3],
        table,
    };
    // two diagonals (14142 each) and two sides
    assert_eq!(g.fitness(), 14142 + 10000 + 14142 + 10000);
}

#[test]
fn tour_length_invariant_under_rotation() {
    let table = table_from_points(&square_points());
    let tour = Genome {
        data: vec![2, 0, 3, 1],
        table: table_from_points(&square_points()),
    };
    let rotated = Genome {
        data: vec![3, 1, 2, 0],
        table,
    };
    assert_eq!(tour.fitness(), rotated.fitness());
}

#[test]
fn tour_length_invariant_under_reversal() {
    let table = table_from_points(&square_points());
    let tour = Genome {
        data: vec![1, 3, 0, 2],
        table: table_from_points(&square_points()),
    };
    let reversed = Genome {
        data: vec![2, 0, 3, 1],
        table,
    };
    assert_eq!(tour.fitness(), reversed.fitness());
}

#[test]
fn random_genome_is_a_permutation() {
    let table = table_from_points(&square_points());
    for _ in 0..20 {
        let g = Genome::new(&table);
        assert_eq!(g.data.len(), 4);
        assert!(is_permutation(&g.data));
    }
}

#[test]
fn mutate_swaps_two_positions() {
    let table = table_from_points(&square_points());
    let mut g = Genome {
        data: vec![0, 1, 2, 3],
        table,
    };
    let before = g.data.clone();
    g.mutate(1, 1, 1);
    assert!(is_permutation(&g.data));
    let differing = before
        .iter()
        .zip(g.data.iter())
        .filter(|(a, b)| a != b)
        .count();
    assert_eq!(differing, 2);
}

#[test]
fn crossover_children_remain_permutations() {
    let points = vec![
        (0.0, 0.0),
        (3.0, 1.0),
        (7.0, 2.0),
        (4.0, 8.0),
        (1.0, 5.0),
        (9.0, 9.0),
        (6.0, 4.0),
    ];
    for _ in 0..50 {
        let a = Genome::new(&table_from_points(&points));
        let b = Genome::new(&table_from_points(&points));
        let mut pair = Pair { a, b };
        pair.crossover();
        assert!(is_permutation(&pair.a.data));
        assert!(is_permutation(&pair.b.data));
        pair.mutate(2, 1, 2);
        assert!(is_permutation(&pair.a.data));
        assert!(is_permutation(&pair.b.data));
    }
}

#[test]
fn selection_weights_invert_the_objective() {
    let table = table_from_points(&square_points());
    let short = Genome {
        data: vec![0, 1, 2, 3],
        table: table_from_points(&square_points()),
    };
    let long = Genome {
        data: vec![0, 2, 1, 3],
        table,
    };
    let population = Population {
        data: vec![short, long],
        best: u64::MAX,
        generation_since_improvement: 0,
    };
    let weights = population.selection_weights();
    // worst = 48284: the shorter tour gets the strictly larger weight and
    // the worst tour keeps the floor weight of one
    assert_eq!(weights, vec![48284 - 40000 + 1, 1]);
    assert!(weights[0] > weights[1]);
}

#[test]
fn selection_returns_requested_number_of_tours() {
    let table = table_from_points(&square_points());
    let population = Population::new(5, &table);
    let drawn = population.selection(9);
    assert_eq!(drawn.data.len(), 9);
    for g in &drawn.data {
        assert!(is_permutation(&g.data));
    }
}

#[test]
fn stagnation_counter_tracks_improvement() {
    let table = table_from_points(&square_points());
    let mut population = Population::new(3, &table);
    assert_eq!(population.generation_since_improvement, 0);
    population.note_best(90);
    assert_eq!(population.best, 90);
    assert_eq!(population.generation_since_improvement, 0);
    population.note_best(90);
    assert_eq!(population.generation_since_improvement, 1);
    population.note_best(95);
    assert_eq!(population.best, 90);
    assert_eq!(population.generation_since_improvement, 2);
    population.note_best(80);
    assert_eq!(population.best, 80);
    assert_eq!(population.generation_since_improvement, 0);
}

#[test]
fn reset_keeps_best_genome_and_size() {
    let table = table_from_points(&square_points());
    let mut population = Population::new(6, &table);
    population.data[0] = Genome {
        data: vec![0, 1, 2, 3],
        table: table_from_points(&square_points()),
    };
    population.generation_since_improvement = 51;
    let best_before = population.data[0].fitness();
    population.reset_with_best();
    assert_eq!(population.data.len(), 6);
    assert_eq!(population.generation_since_improvement, 0);
    assert!(population.data[0].fitness() <= best_before);
    assert!(population
        .data
        .iter()
        .any(|g| g.data == vec![0, 1, 2, 3]));
    for g in &population.data {
        assert!(is_permutation(&g.data));
    }
}

#[test]
fn evolution_finds_square_perimeter() {
    // the four corners of a square: the optimal closed tour is its
    // perimeter, 40.000 when scaled by 1000
    let table = table_from_points(&square_points());
    let mut population = Population::new(30, &table);
    let solution = run_evolution(&mut population, 40000, 1000);
    let (best, generation) = solution.expect("no solution found");
    assert_eq!(best.fitness(), 40000);
    assert!(is_permutation(&best.data));
    assert!(generation < 1000);
}

#[test]
fn tsp_reports_no_solution_for_impossible_target() {
    let table = table_from_points(&square_points());
    let mut population = Population::new(4, &table);
    // no closed tour of the square is shorter than its perimeter
    assert!(run_evolution(&mut population, 100, 5).is_none());
    assert_eq!(population.data.len(), 4);
}
