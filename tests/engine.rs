use std::cell::Cell;

use tsp_engine::annealing::MULT_ONE;
use tsp_engine::brute_force::factorial;
use tsp_engine::moves::invert;
use tsp_engine::perm::next_permutation;
use tsp_engine::tour::{distance, orient_tour, DistanceMatrix};
use tsp_engine::{dist_sqr, run, shift_left, swap, Annealing, BruteForce, City, Params, TspAlgorithm};

fn city(x: i32, y: i32) -> City {
    City { x, y }
}

fn square(side: i32) -> Vec<City> {
    vec![city(0, 0), city(side, 0), city(side, side), city(0, side)]
}

fn scattered() -> Vec<City> {
    vec![city(3, 7), city(-12, 4), city(8, -9), city(0, 0), city(15, 15), city(-6, -11)]
}

fn is_permutation(p: &[usize], n: usize) -> bool {
    let mut seen = vec![false; n];
    if p.len() != n {
        return false;
    }
    for &c in p {
        if c >= n || seen[c] {
            return false;
        }
        seen[c] = true;
    }
    true
}

fn all_permutations(n: usize) -> Vec<Vec<usize>> {
    if n == 0 {
        return vec![vec![]];
    }
    let mut out = Vec::new();
    for p in all_permutations(n - 1) {
        for at in 0..=p.len() {
            let mut q = p.clone();
            q.insert(at, n - 1);
            out.push(q);
        }
    }
    out
}

#[test]
fn next_permutation_walks_three_in_order() {
    let mut p = vec![0, 1, 2];
    let expected = [[0, 2, 1], [1, 0, 2], [1, 2, 0], [2, 0, 1], [2, 1, 0]];
    for e in expected.iter() {
        assert!(next_permutation(&mut p));
        assert_eq!(p, e.to_vec());
    }
    assert!(!next_permutation(&mut p));
    assert_eq!(p, vec![2, 1, 0]);
}

#[test]
fn next_permutation_on_short_input() {
    let mut one = vec![0];
    assert!(!next_permutation(&mut one));
    let mut empty: Vec<usize> = vec![];
    assert!(!next_permutation(&mut empty));
}

#[test]
fn brute_force_visits_factorial_many_tours() {
    for n in 1..=6usize {
        let cities: Vec<City> = (0..n as i32).map(|i| city(i * 3, (i * i) % 5)).collect();
        let mut bf = BruteForce::new(cities);
        assert_eq!(bf.visited(), 1);
        let mut visited: u128 = 1;
        while !bf.step() {
            visited += 1;
            assert_eq!(bf.visited(), visited);
        }
        assert_eq!(Some(visited), factorial(n as u128));
        assert_eq!(bf.visited(), visited);
    }
}

#[test]
fn brute_force_finds_the_shortest_tour() {
    let cities = scattered();
    let dist = DistanceMatrix::new(&cities);
    let best = all_permutations(cities.len()).iter().map(|p| dist.tour_length(p)).min().unwrap();
    let state = run(BruteForce::new(cities));
    assert_eq!(state.length, best);
    assert_eq!(dist.tour_length(&state.path), best);
    assert!(is_permutation(&state.path, 6));
}

#[test]
fn brute_force_starts_from_identity() {
    let bf = BruteForce::new(square(10));
    let s = bf.state();
    assert_eq!(s.path, vec![0, 1, 2, 3]);
    assert_eq!(s.sample, vec![0, 1, 2, 3]);
    assert_eq!(s.length, 40);
    assert_eq!(s.status, "P: 0 0%");
}

#[test]
fn square_of_side_ten_has_length_forty() {
    let state = run(BruteForce::new(square(10)));
    assert_eq!(state.length, 40);
    assert!(is_permutation(&state.path, 4));
    // consecutive corners of the tour are neighbours on the square
    for i in 0..4 {
        let a = state.path[i];
        let b = state.path[(i + 1) % 4];
        assert!(a.abs_diff(b) == 1 || a.abs_diff(b) == 3);
    }
}

#[test]
fn square_in_thousandths_has_length_forty_units() {
    let state = run(BruteForce::new(square(10_000)));
    assert_eq!(state.length, 40_000);
}

#[test]
fn tour_length_ignores_start_and_direction() {
    let dist = DistanceMatrix::new(&scattered());
    let p = vec![2, 0, 5, 1, 4, 3];
    let len = dist.tour_length(&p);
    let mut rotated = p.clone();
    for _ in 0..6 {
        rotated = shift_left(&rotated);
        assert_eq!(dist.tour_length(&rotated), len);
    }
    let mut reversed = p.clone();
    reversed.reverse();
    assert_eq!(dist.tour_length(&reversed), len);
}

#[test]
fn two_cities_give_twice_their_distance() {
    let cities = vec![city(1, 1), city(4, 5)];
    let state = run(BruteForce::new(cities.clone()));
    assert_eq!(state.length, 10);
    let never = |_d: u128, _t: u64| false;
    let state = run(Annealing::new(cities.clone(), Params::default(), 7, never));
    assert_eq!(state.length, 10);
    let always = |_d: u128, _t: u64| true;
    let params = Params::new(5, 500_000, 3, 4, 1).unwrap();
    let state = run(Annealing::new(cities, params, 99, always));
    assert_eq!(state.length, 10);
}

#[test]
fn annealing_asks_only_about_longer_candidates() {
    let asked = Cell::new(0usize);
    let oracle = |d: u128, _t: u64| {
        assert!(d > 0);
        asked.set(asked.get() + 1);
        false
    };
    let params = Params::new(10_000, 900_000, 20, 50, 5).unwrap();
    let mut a = Annealing::new(scattered(), params, 1234, oracle);
    let dist = DistanceMatrix::new(&scattered());
    let mut previous = a.state().length;
    loop {
        let before = a.state();
        let done = a.step();
        let after = a.state();
        if done {
            break;
        }
        if after.sample != before.sample || after.path != before.path {
            let cand = dist.tour_length(&after.sample);
            if cand <= before.length {
                assert_eq!(after.path, after.sample);
                assert_eq!(after.length, cand);
            } else {
                // the test refuses every longer candidate
                assert_eq!(after.path, before.path);
            }
        }
        assert!(after.length <= previous);
        previous = after.length;
    }
    assert!(asked.get() > 0);
}

#[test]
fn annealing_cools_once_per_batch() {
    let params = Params::new(1_000_000, 900_000, 4, 3, 100).unwrap();
    let mut a = Annealing::new(scattered(), params, 5, |_d: u128, _t: u64| true);
    assert_eq!(a.current_temperature(), 1_000_000);
    // three candidates leave the temperature alone
    for _ in 0..3 {
        assert!(!a.step());
        assert_eq!(a.current_temperature(), 1_000_000);
    }
    // the fourth step closes the batch and cools
    assert!(!a.step());
    assert_eq!(a.current_temperature(), 900_000);
    assert_eq!(a.batches_done(), 1);
    for _ in 0..4 {
        assert!(!a.step());
    }
    assert_eq!(a.current_temperature(), 810_000);
    assert_eq!(a.batches_done(), 2);
}

#[test]
fn annealing_stops_after_its_batch_limit() {
    let params = Params::new(1_000, 500_000, 2, 3, 100).unwrap();
    let mut a = Annealing::new(scattered(), params, 11, |_d: u128, _t: u64| true);
    let mut steps = 0;
    while !a.step() {
        steps += 1;
        let t = a.current_temperature();
        assert!(t <= 1_000);
    }
    // three batches of three candidates, each closed by a cooling step, then the stop
    assert_eq!(steps, 3 * 4 + 3);
    assert_eq!(a.batches_done(), 3);
    assert_eq!(a.current_temperature(), 125);
}

#[test]
fn annealing_starts_from_a_permutation() {
    for seed in 0..20u64 {
        let a = Annealing::new(scattered(), Params::default(), seed, |_d: u128, _t: u64| false);
        let s = a.state();
        assert!(is_permutation(&s.path, 6));
        assert_eq!(s.path, s.sample);
        assert_eq!(s.status, "S=0   C=0    T=30.000");
    }
}

#[test]
fn annealing_run_ends_with_a_valid_tour() {
    let dist = DistanceMatrix::new(&scattered());
    let best = all_permutations(6).iter().map(|p| dist.tour_length(p)).min().unwrap();
    let state = run(Annealing::new(scattered(), Params::default(), 42, |_d: u128, _t: u64| false));
    assert!(is_permutation(&state.path, 6));
    assert!(is_permutation(&state.sample, 6));
    assert_eq!(state.length, dist.tour_length(&state.path));
    assert!(state.length >= best);
}

#[test]
fn swap_twice_restores() {
    let start = [4, 0, 3, 1, 2];
    let mut arr = start;
    swap(&mut arr, 0, 3);
    assert_eq!(arr, [1, 0, 3, 4, 2]);
    swap(&mut arr, 0, 3);
    assert_eq!(arr, start);
}

#[test]
fn invert_twice_restores() {
    let start = vec![4, 0, 3, 1, 2];
    let once = invert(&start, 1, 3);
    assert_eq!(once, vec![4, 1, 3, 0, 2]);
    assert_eq!(invert(&once, 1, 3), start);
}

#[test]
fn distances_round_down() {
    assert_eq!(dist_sqr(&city(0, 0), &city(3, 4)), 25);
    assert_eq!(distance(&city(0, 0), &city(3, 4)), 5);
    assert_eq!(distance(&city(0, 0), &city(1, 1)), 1);
    assert_eq!(distance(&city(-2, 0), &city(2, 3)), 5);
    let far = distance(&city(i32::MIN, i32::MIN), &city(i32::MAX, i32::MAX));
    assert_eq!(far, 6_074_000_998);
    let m = DistanceMatrix::new(&square(10));
    assert_eq!(m.size(), 4);
    assert_eq!(m.get(0, 2), 14);
    assert_eq!(m.get(2, 0), 14);
    assert_eq!(m.get(1, 1), 0);
}

#[test]
fn factorial_values() {
    assert_eq!(factorial(0), Some(1));
    assert_eq!(factorial(3), Some(6));
    assert_eq!(factorial(10), Some(3_628_800));
    assert!(factorial(34).is_some());
    assert_eq!(factorial(35), None);
}

#[test]
fn params_are_checked() {
    assert!(Params::new(30_000, 950_000, 200, 200, 50).is_some());
    assert!(Params::new(0, 950_000, 200, 200, 50).is_none());
    assert!(Params::new(30_000, MULT_ONE, 200, 200, 50).is_none());
    assert!(Params::new(30_000, 0, 200, 200, 50).is_none());
    assert!(Params::new(30_000, 950_000, 0, 200, 50).is_none());
    assert!(Params::new(30_000, 950_000, usize::MAX, 200, 50).is_none());
    assert!(Params::new(30_000, 950_000, 200, 0, 50).is_none());
    assert!(Params::new(30_000, 950_000, 200, 200, 0).is_none());
    let d = Params::default();
    assert_eq!((d.start_temp, d.temp_mult, d.candidates, d.max_steps, d.max_nodecrease), (30_000, 950_000, 200, 200, 50));
}

#[test]
fn orient_tour_starts_at_zero() {
    assert_eq!(orient_tour(&vec![2, 3, 0, 1]), vec![0, 1, 2, 3]);
    assert_eq!(orient_tour(&vec![1, 0, 3, 2]), vec![0, 1, 2, 3]);
    assert_eq!(orient_tour(&vec![3, 1, 0, 2]), vec![0, 1, 3, 2]);
    assert_eq!(orient_tour(&vec![1, 0]), vec![0, 1]);
    let dist = DistanceMatrix::new(&scattered());
    let p = vec![4, 2, 5, 0, 3, 1];
    let o = orient_tour(&p);
    assert_eq!(o, vec![0, 3, 1, 4, 2, 5]);
    assert_eq!(dist.tour_length(&o), dist.tour_length(&p));
}

#[test]
fn brute_force_run_returns_shortest() {
    let (length, path) = BruteForce::new(square(10)).run();
    assert_eq!(length, 40);
    assert!(is_permutation(&path, 4));
    let dist = DistanceMatrix::new(&scattered());
    let best = all_permutations(6).iter().map(|p| dist.tour_length(p)).min().unwrap();
    let (length, path) = BruteForce::new(scattered()).run();
    assert_eq!(length, best);
    assert_eq!(dist.tour_length(&path), best);
}

#[test]
fn insert_tour_places_each_city_in_turn() {
    assert_eq!(tsp_engine::perm::insert_tour(&vec![0, 0, 1, 0]), vec![3, 1, 2, 0]);
    assert_eq!(tsp_engine::perm::insert_tour(&vec![0, 1, 2, 3]), vec![0, 1, 2, 3]);
    assert_eq!(tsp_engine::perm::insert_tour(&vec![0, 0, 0]), vec![2, 1, 0]);
    assert_eq!(tsp_engine::perm::insert_tour(&vec![]), Vec::<usize>::new());
}

#[test]
fn brute_force_status_counts_progress() {
    let mut bf = BruteForce::new(square(10));
    for _ in 0..6 {
        assert!(!bf.step());
    }
    // six of the twenty-four tours after the first
    assert_eq!(bf.state().status, "P: 6 25%");
    let mut again = BruteForce::new(square(10));
    for _ in 0..6 {
        assert!(!again.step());
    }
    assert_eq!(again.state().status, bf.state().status);
}
