use tsp::brute_force::TSPSolver;
use tsp::optimized::OptimizedTSPSolver;
use tsp::city::City;
use tsp::parallel::{parallel_chunks, permute_and_check, search_chunk};
use tsp::path_pool::PathPool;
use tsp::rng::{generate_random_cities, SimpleRng};
use tsp::tour::NO_TOUR;

#[test]
fn rng_follows_the_recurrence() {
    let mut rng = SimpleRng::new(1);
    assert_eq!(rng.next(), 1_015_568_748);
    let mut zero = SimpleRng::new(0);
    assert_eq!(zero.state, 12345);
    assert_eq!(zero.next(), 21_562_465_348);
    let mut a = SimpleRng::new(u64::MAX);
    let expected = u64::MAX.wrapping_mul(1664525).wrapping_add(1013904223);
    assert_eq!(a.next(), expected);
}

#[test]
fn generation_is_deterministic() {
    let first = generate_random_cities(12, 42);
    let second = generate_random_cities(12, 42);
    assert_eq!(first.len(), 12);
    for (a, b) in first.iter().zip(second.iter()) {
        assert_eq!((a.id, a.x, a.y), (b.id, b.x, b.y));
    }
    let other = generate_random_cities(12, 43);
    assert!(first.iter().zip(other.iter()).any(|(a, b)| a.x != b.x || a.y != b.y));
}

#[test]
fn generation_scales_draws_onto_the_grid() {
    let cities = generate_random_cities(2, 7);
    assert_eq!((cities[0].id, cities[0].x, cities[0].y), (0, 0, 9254));
    assert_eq!((cities[1].id, cities[1].x, cities[1].y), (1, 3_539_150, 4_179_120));
    let many = generate_random_cities(200, 2024);
    for (i, c) in many.iter().enumerate() {
        assert_eq!(c.id, i);
        assert!(0 <= c.x && c.x < 100_000_000);
        assert!(0 <= c.y && c.y < 100_000_000);
    }
    assert!(generate_random_cities(0, 1).is_empty());
}

#[test]
fn chunks_split_the_second_cities() {
    assert!(parallel_chunks(4, 2).is_empty());
    assert!(parallel_chunks(0, 3).is_empty());
    assert_eq!(parallel_chunks(10, 4), vec![vec![1, 2, 3], vec![4, 5, 6], vec![7, 8, 9]]);
    assert_eq!(parallel_chunks(7, 4), vec![vec![1, 2], vec![3, 4], vec![5, 6]]);
    assert_eq!(parallel_chunks(6, 10), vec![vec![1], vec![2], vec![3], vec![4], vec![5]]);
    assert_eq!(parallel_chunks(5, 1), vec![vec![1, 2, 3, 4]]);
}

#[test]
fn empty_chunk_reports_no_tour() {
    let cities = generate_random_cities(5, 1);
    let (path, d) = search_chunk(&cities, &vec![]);
    assert_eq!(d, NO_TOUR);
    assert!(path.is_empty());
}

#[test]
fn chunk_search_fixes_the_second_city() {
    let cities = generate_random_cities(6, 11);
    let (path, d) = search_chunk(&cities, &vec![3]);
    assert_eq!(path[0], 0);
    assert_eq!(path[1], 3);
    let solver = TSPSolver::new(cities.clone());
    assert_eq!(solver.calculate_total_distance(&path), d);
}

#[test]
fn permute_and_check_restores_its_buffer() {
    let cities = generate_random_cities(5, 8);
    let prefix = vec![0, 2];
    let mut remaining = vec![1, 3, 4];
    let mut best = NO_TOUR;
    let mut best_path = Vec::new();
    permute_and_check(&cities, &prefix, &mut remaining, 0, &mut best, &mut best_path);
    assert_eq!(remaining, vec![1, 3, 4]);
    assert_eq!(&best_path[..2], &[0, 2]);
    assert!(best < NO_TOUR);
}

#[test]
fn merge_takes_the_shortest_and_earliest() {
    let cities: Vec<City> = generate_random_cities(6, 4);
    let mut solver = TSPSolver::new(cities);
    let chunks = vec![vec![1, 2], vec![3, 4], vec![5]];
    let results = vec![(vec![0, 1, 2, 3, 4, 5], 30), (vec![0, 3, 2, 1, 4, 5], 20), (vec![0, 5, 2, 3, 4, 1], 20)];
    solver.merge_chunk_results(&chunks, &results);
    assert_eq!(solver.best_distance, 20);
    assert_eq!(solver.best_path, vec![0, 3, 2, 1, 4, 5]);
    solver.merge_chunk_results(&chunks, &vec![]);
    assert_eq!(solver.best_distance, NO_TOUR);
    assert!(solver.best_path.is_empty());
}

#[test]
fn path_pool_hands_out_and_takes_back() {
    let mut pool = PathPool::new(2, 3);
    assert_eq!(pool.pool.len(), 2);
    let first = pool.get().unwrap();
    assert_eq!(first, vec![0, 0, 0]);
    pool.return_path(vec![7, 8]);
    assert_eq!(pool.pool.len(), 2);
    assert!(pool.pool[1].is_empty());
    pool.return_path(vec![9]);
    assert_eq!(pool.pool.len(), 2);
    assert_eq!(pool.get().unwrap(), vec![0, 0, 0]);
    assert_eq!(pool.get().unwrap(), Vec::<usize>::new());
    assert!(pool.get().is_none());
}

#[test]
fn equal_tours_do_not_replace_the_recorded_one() {
    let cities = generate_random_cities(6, 21);
    let mut solver = TSPSolver::new(cities);
    solver.solve_all_permutations();
    let (path, d) = (solver.best_path.clone(), solver.best_distance);
    let mut rest: Vec<usize> = (1..6).collect();
    solver.check_all_permutations(&mut rest, 0);
    assert_eq!(rest, (1..6).collect::<Vec<usize>>());
    assert_eq!((solver.best_path.clone(), solver.best_distance), (path.clone(), d));
    let mut rest2: Vec<usize> = (1..6).collect();
    solver.permute(&mut rest2, 0, 4);
    assert_eq!((solver.best_path, solver.best_distance), (path, d));
}

#[test]
fn a_better_bound_leaves_the_search_state_alone() {
    let cities = generate_random_cities(5, 9);
    let prefix = vec![0, 4];
    let mut remaining = vec![1, 2, 3];
    let mut best = 0u128;
    let mut best_path = vec![9, 9];
    permute_and_check(&cities, &prefix, &mut remaining, 0, &mut best, &mut best_path);
    assert_eq!(best, 0);
    assert_eq!(best_path, vec![9, 9]);
    assert_eq!(remaining, vec![1, 2, 3]);
}

#[test]
fn pruned_branch_and_bound_keeps_its_tour() {
    let cities = generate_random_cities(6, 13);
    let mut solver = OptimizedTSPSolver::new(cities);
    solver.solve_branch_and_bound();
    let (path, d) = (solver.best_path.clone(), solver.best_distance);
    let mut full: Vec<usize> = (0..6).collect();
    solver.permute_with_bound(&mut full, 1, 0);
    assert_eq!(full, (0..6).collect::<Vec<usize>>());
    assert_eq!((solver.best_path, solver.best_distance), (path, d));
}
