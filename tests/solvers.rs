use tsp::brute_force::{calculate_distance, TSPSolver};
use tsp::city::{City, COORD_SCALE};
use tsp::optimized::OptimizedTSPSolver;
use tsp::parallel::{parallel_chunks, search_chunk};
use tsp::rng::generate_random_cities;
use tsp::tour::NO_TOUR;

fn city(id: usize, x: f64, y: f64) -> City {
    let scale = COORD_SCALE as f64;
    City::new(id, (x * scale).round() as i32, (y * scale).round() as i32)
}

fn units(d: u128) -> f64 {
    d as f64 / COORD_SCALE as f64
}

fn square() -> Vec<City> {
    vec![city(0, 0.0, 0.0), city(1, 1.0, 0.0), city(2, 1.0, 1.0), city(3, 0.0, 1.0)]
}

fn square_with_center() -> Vec<City> {
    let mut cities = square();
    cities.push(city(4, 0.5, 0.5));
    cities
}

/// Runs the chunked search the way the threaded driver does, one chunk after another.
fn solve_parallel(solver: &mut TSPSolver, num_threads: usize) {
    let chunks = parallel_chunks(solver.cities.len(), num_threads);
    if chunks.is_empty() {
        solver.solve_all_permutations();
        return;
    }
    let results: Vec<(Vec<usize>, u128)> =
        chunks.iter().map(|chunk| search_chunk(&solver.cities, chunk)).collect();
    solver.merge_chunk_results(&chunks, &results);
}

fn is_permutation(path: &[usize], n: usize) -> bool {
    let mut seen = vec![false; n];
    if path.len() != n {
        return false;
    }
    for &c in path {
        if c >= n || seen[c] {
            return false;
        }
        seen[c] = true;
    }
    true
}

/// Distance and tour of each of the four solvers.
fn all_solvers(cities: &[City]) -> Vec<(u128, Vec<usize>)> {
    let mut single = TSPSolver::new(cities.to_vec());
    single.solve_all_permutations();
    let mut parallel = TSPSolver::new(cities.to_vec());
    solve_parallel(&mut parallel, 4);
    let mut bound = OptimizedTSPSolver::new(cities.to_vec());
    bound.solve_branch_and_bound();
    let mut dp = OptimizedTSPSolver::new(cities.to_vec());
    dp.solve_with_bitmask();
    vec![
        (single.best_distance, single.best_path),
        (parallel.best_distance, parallel.best_path),
        (bound.best_distance, bound.best_path),
        (dp.best_distance, dp.best_path),
    ]
}

#[test]
fn test_distance_calculation() {
    let city1 = city(0, 0.0, 0.0);
    let city2 = city(1, 3.0, 4.0);
    assert_eq!(city1.distance_to(&city2) as f64 / COORD_SCALE as f64, 5.0);
}

#[test]
fn test_simple_tsp() {
    let mut solver = TSPSolver::new(square());
    solver.solve_all_permutations();
    assert_eq!(units(solver.best_distance), 4.0);
}

#[test]
fn test_optimized_tsp() {
    let mut solver = OptimizedTSPSolver::new(square());
    solver.solve_optimized();
    assert_eq!(units(solver.best_distance), 4.0);
}

#[test]
fn test_two_cities() {
    let cities = vec![city(0, 0.0, 0.0), city(1, 1.0, 0.0)];
    let mut solver = TSPSolver::new(cities);
    solver.solve_all_permutations();
    assert_eq!(units(solver.best_distance), 2.0);
}

#[test]
fn test_parallel_correctness() {
    let cities = square_with_center();
    let mut solver_single = TSPSolver::new(cities.clone());
    solver_single.solve_all_permutations();
    let mut solver_parallel = TSPSolver::new(cities.clone());
    solve_parallel(&mut solver_parallel, 4);
    let mut solver_optimized = OptimizedTSPSolver::new(cities);
    solver_optimized.solve_optimized();
    assert!((units(solver_single.best_distance) - units(solver_parallel.best_distance)).abs() < 0.001);
    assert!((units(solver_single.best_distance) - units(solver_optimized.best_distance)).abs() < 0.001);
}

#[test]
fn distance_is_symmetric_and_zero_on_itself() {
    let pairs = [
        (city(0, 0.0, 0.0), city(1, 3.0, 4.0)),
        (city(0, -7.25, 2.5), city(1, 11.0, -3.0)),
        (city(0, 99.9, 0.1), city(1, 0.2, 99.7)),
    ];
    for (a, b) in pairs.iter() {
        assert_eq!(a.distance_to(b), b.distance_to(a));
        assert_eq!(a.distance_to(a), 0);
        assert_eq!(b.distance_to(b), 0);
    }
}

#[test]
fn distance_rounds_down_to_grid_steps() {
    let a = City::new(0, 0, 0);
    let b = City::new(1, 1_000_000, 1_000_000);
    assert_eq!(a.distance_to(&b), 1_414_213);
    let c = City::new(2, 500_000, 500_000);
    assert_eq!(a.distance_to(&c), 707_106);
    let far = City::new(3, i32::MIN, i32::MIN);
    let near = City::new(4, i32::MAX, i32::MAX);
    assert_eq!(far.distance_to(&near), 6_074_000_998);
}

#[test]
fn all_solvers_agree_on_random_instances() {
    for seed in [1u64, 42, 2024] {
        let cities = generate_random_cities(7, seed);
        let results = all_solvers(&cities);
        for (d, path) in results.iter() {
            assert_eq!(*d, results[0].0);
            assert!(is_permutation(path, 7));
            assert_eq!(path[0], 0);
            assert_eq!(calculate_distance(&cities, path), *d);
        }
    }
}

#[test]
fn small_instances_are_trivial() {
    for n in 0..2usize {
        let cities: Vec<City> = (0..n).map(|i| city(i, 3.0, 4.0)).collect();
        for (d, path) in all_solvers(&cities) {
            assert_eq!(d, 0);
            assert_eq!(path, (0..n).collect::<Vec<usize>>());
        }
        let mut opt = OptimizedTSPSolver::new(cities.clone());
        opt.solve_optimized();
        assert_eq!(opt.best_distance, 0);
    }
}

#[test]
fn two_cities_go_there_and_back() {
    let cities = vec![city(0, 1.0, 2.0), city(1, 4.0, 6.0)];
    let edge = cities[0].distance_to(&cities[1]) as u128;
    for (d, path) in all_solvers(&cities) {
        assert_eq!(d, 2 * edge);
        assert_eq!(path, vec![0, 1]);
    }
}

#[test]
fn unit_square_has_length_four_for_every_solver() {
    for (d, path) in all_solvers(&square()) {
        assert_eq!(units(d), 4.0);
        assert!(is_permutation(&path, 4));
    }
    let mut opt = OptimizedTSPSolver::new(square());
    opt.solve_optimized();
    assert_eq!(units(opt.best_distance), 4.0);
}

#[test]
fn two_unit_apart_cities_give_two() {
    let cities = vec![city(0, 0.0, 0.0), city(1, 1.0, 0.0)];
    for (d, _) in all_solvers(&cities) {
        assert_eq!(units(d), 2.0);
    }
}

#[test]
fn square_with_center_agrees_everywhere() {
    let results = all_solvers(&square_with_center());
    for (d, path) in results.iter() {
        assert_eq!(*d, results[0].0);
        assert!(is_permutation(path, 5));
    }
    assert!((units(results[0].0) - (3.0 + 2.0 * 0.5f64.sqrt())).abs() < 0.001);
}

#[test]
fn bitmask_tour_length_matches_the_distance_table() {
    for seed in [3u64, 99] {
        let cities = generate_random_cities(9, seed);
        let mut dp = OptimizedTSPSolver::new(cities.clone());
        dp.solve_with_bitmask();
        assert!(is_permutation(&dp.best_path, 9));
        assert_eq!(dp.calculate_total_distance(&dp.best_path), dp.best_distance);
        assert_eq!(calculate_distance(&cities, &dp.best_path), dp.best_distance);
        let mut bound = OptimizedTSPSolver::new(cities);
        bound.solve_branch_and_bound();
        assert_eq!(bound.best_distance, dp.best_distance);
    }
}

#[test]
fn distance_table_is_symmetric() {
    let cities = generate_random_cities(6, 5);
    let solver = OptimizedTSPSolver::new(cities.clone());
    for i in 0..6 {
        assert_eq!(solver.distance_matrix[i][i], 0);
        for j in 0..6 {
            assert_eq!(solver.distance_matrix[i][j], solver.distance_matrix[j][i]);
            assert_eq!(solver.distance_matrix[i][j], cities[i].distance_to(&cities[j]));
        }
    }
}

#[test]
fn new_solvers_start_without_a_tour() {
    let solver = TSPSolver::new(square());
    assert_eq!(solver.best_distance, NO_TOUR);
    assert_eq!(solver.best_path, vec![0, 1, 2, 3]);
    let opt = OptimizedTSPSolver::new(square());
    assert_eq!(opt.best_distance, NO_TOUR);
    assert_eq!(opt.best_path, vec![0, 1, 2, 3]);
}

#[test]
fn tour_length_of_a_fixed_order() {
    let cities = square();
    let solver = TSPSolver::new(cities.clone());
    assert_eq!(solver.calculate_total_distance(&vec![0, 2, 1, 3]), 2 * 1_414_213 + 2_000_000);
    assert_eq!(calculate_distance(&cities, &vec![]), 0);
    assert_eq!(calculate_distance(&cities, &vec![2]), 0);
}

#[test]
fn inclusive_range_search_matches_the_other_searches() {
    let mut on_square = TSPSolver::new(square());
    on_square.solve();
    assert_eq!(units(on_square.best_distance), 4.0);
    for seed in [5u64, 77] {
        let cities = generate_random_cities(7, seed);
        let mut a = TSPSolver::new(cities.clone());
        a.solve();
        let mut b = TSPSolver::new(cities.clone());
        b.solve_all_permutations();
        assert_eq!(a.best_distance, b.best_distance);
        assert!(is_permutation(&a.best_path, 7));
        assert_eq!(calculate_distance(&cities, &a.best_path), a.best_distance);
    }
    let two = vec![city(0, 0.0, 0.0), city(1, 1.0, 0.0)];
    let mut t = TSPSolver::new(two);
    t.solve();
    assert_eq!(units(t.best_distance), 2.0);
    assert_eq!(t.best_path, vec![0, 1]);
    let mut empty = TSPSolver::new(vec![]);
    empty.solve();
    assert_eq!(empty.best_distance, 0);
    assert!(empty.best_path.is_empty());
}
