use std::cell::Cell;
use tsp_two_opt::search::{optimize, two_opt, MAX_PASSES};
use tsp_two_opt::shuffle::shuffle_by_draws;

fn point_distance(a: (f64, f64), b: (f64, f64)) -> f64 {
    ((a.0 - b.0).powi(2) + (a.1 - b.1).powi(2)).sqrt()
}

fn tour_length(points: &[(f64, f64)], route: &[usize]) -> f64 {
    let mut dist = 0.0;
    for i in 0..route.len() {
        dist += point_distance(points[route[i]], points[route[(i + 1) % route.len()]]);
    }
    dist
}

fn sorted(route: &[usize]) -> Vec<usize> {
    let mut copy = route.to_vec();
    copy.sort();
    copy
}

fn steps_on_a_line(route: &Vec<usize>) -> u64 {
    let mut total: u64 = 0;
    for k in 0..route.len() {
        let a = route[k];
        let b = route[(k + 1) % route.len()];
        total += if a > b { (a - b) as u64 } else { (b - a) as u64 };
    }
    total
}

fn square() -> Vec<(f64, f64)> {
    vec![(0.0, 0.0), (0.0, 1.0), (1.0, 1.0), (1.0, 0.0)]
}

fn scattered() -> Vec<(f64, f64)> {
    vec![
        (0.0, 0.0),
        (3.0, 1.0),
        (1.0, 4.0),
        (5.0, 5.0),
        (2.0, 2.0),
        (6.0, 0.0),
        (4.0, 3.0),
        (1.0, 1.0),
    ]
}

#[test]
fn pass_cap_is_a_thousand() {
    assert_eq!(MAX_PASSES, 1000);
}

#[test]
fn route_is_a_permutation_for_every_size() {
    for n in 0..12usize {
        let points: Vec<(f64, f64)> =
            (0..n).map(|k| (((k * 7) % 5) as f64, ((k * 3) % 4) as f64)).collect();
        let res = two_opt(n, |r: &Vec<usize>| tour_length(&points, r).to_bits());
        assert_eq!(sorted(&res.route), (0..n).collect::<Vec<usize>>());
        assert!(res.passes >= 1 && res.passes <= MAX_PASSES);
    }
}

#[test]
fn distance_is_the_length_of_the_route() {
    let points = scattered();
    for _ in 0..10 {
        let res = two_opt(points.len(), |r: &Vec<usize>| tour_length(&points, r).to_bits());
        assert_eq!(f64::from_bits(res.distance), tour_length(&points, &res.route));
    }
}

#[test]
fn no_point_gives_the_empty_route() {
    let points: Vec<(f64, f64)> = Vec::new();
    let res = two_opt(0, |r: &Vec<usize>| tour_length(&points, r).to_bits());
    assert_eq!(res.route, Vec::<usize>::new());
    assert_eq!(f64::from_bits(res.distance), 0.0);
    assert_eq!(res.passes, 1);
}

#[test]
fn one_point_gives_the_route_to_it() {
    let points = vec![(2.5, -1.0)];
    let res = two_opt(1, |r: &Vec<usize>| tour_length(&points, r).to_bits());
    assert_eq!(res.route, vec![0]);
    assert_eq!(f64::from_bits(res.distance), 0.0);
    assert_eq!(res.passes, 1);
}

#[test]
fn two_and_three_points_are_searched_in_one_pass() {
    for n in 2..4usize {
        let points: Vec<(f64, f64)> = (0..n).map(|k| (k as f64, 0.0)).collect();
        let res = two_opt(n, |r: &Vec<usize>| tour_length(&points, r).to_bits());
        assert_eq!(sorted(&res.route), (0..n).collect::<Vec<usize>>());
        assert_eq!(f64::from_bits(res.distance), tour_length(&points, &res.route));
        assert_eq!(res.passes, 1);
    }
}

#[test]
fn coincident_points_have_distance_zero() {
    for n in 0..9usize {
        let points = vec![(1.5, -2.0); n];
        let res = two_opt(n, |r: &Vec<usize>| tour_length(&points, r).to_bits());
        assert_eq!(f64::from_bits(res.distance), 0.0);
        assert_eq!(res.passes, 1);
    }
}

#[test]
fn square_keeps_the_perimeter() {
    let points = square();
    let res = optimize(vec![0, 1, 2, 3], |r: &Vec<usize>| tour_length(&points, r).to_bits());
    assert_eq!(res.route, vec![0, 1, 2, 3]);
    assert_eq!(f64::from_bits(res.distance), 4.0);
    assert_eq!(res.passes, 1);
}

#[test]
fn square_leaves_the_diagonals() {
    let points = square();
    let crossing = vec![0, 2, 1, 3];
    assert!((tour_length(&points, &crossing) - (2.0 + 2.0 * 2.0f64.sqrt())).abs() < 1e-12);
    let res = optimize(crossing, |r: &Vec<usize>| tour_length(&points, r).to_bits());
    assert_eq!(res.route, vec![0, 1, 2, 3]);
    assert_eq!(f64::from_bits(res.distance), 4.0);
    assert_eq!(res.passes, 2);
}

#[test]
fn first_shorter_candidate_is_taken_at_once() {
    let res = optimize(vec![0, 3, 1, 4, 2, 5], steps_on_a_line);
    assert_eq!(res.route, vec![0, 1, 2, 3, 4, 5]);
    assert_eq!(res.distance, 10);
    assert_eq!(res.passes, 2);
    let res = optimize(vec![0, 4, 2, 5, 1, 3, 6], steps_on_a_line);
    assert_eq!(res.route, vec![0, 1, 2, 3, 4, 5, 6]);
    assert_eq!(res.distance, 12);
    assert_eq!(res.passes, 2);
}

#[test]
fn hexagon_is_untangled() {
    let points = vec![(2.0, 0.0), (1.0, 2.0), (-1.0, 2.0), (-2.0, 0.0), (-1.0, -2.0), (1.0, -2.0)];
    let res = optimize(vec![0, 3, 1, 4, 2, 5], |r: &Vec<usize>| tour_length(&points, r).to_bits());
    assert_eq!(res.route, vec![0, 1, 2, 3, 4, 5]);
    assert_eq!(f64::from_bits(res.distance), tour_length(&points, &[0, 1, 2, 3, 4, 5]));
    assert!((f64::from_bits(res.distance) - 12.94427190999916).abs() < 1e-9);
    assert_eq!(res.passes, 3);
}

#[test]
fn search_from_given_draws() {
    let points = scattered();
    let start = shuffle_by_draws(8, &vec![3, 7, 1, 0, 5, 5, 2, 6]);
    let res = optimize(start, |r: &Vec<usize>| tour_length(&points, r).to_bits());
    assert_eq!(res.route, vec![0, 1, 5, 6, 3, 2, 4, 7]);
    assert!((f64::from_bits(res.distance) - 21.35377530116418).abs() < 1e-9);
    assert_eq!(res.passes, 2);
}

#[test]
fn first_and_last_position_stay() {
    let points = scattered();
    let start = vec![5, 2, 7, 0, 3, 6, 1, 4];
    let res = optimize(start, |r: &Vec<usize>| tour_length(&points, r).to_bits());
    assert_eq!(res.route[0], 5);
    assert_eq!(res.route[7], 4);
    assert_eq!(sorted(&res.route), vec![0, 1, 2, 3, 4, 5, 6, 7]);
}

#[test]
fn distance_never_grows() {
    let points = scattered();
    let start = vec![5, 2, 7, 0, 3, 6, 1, 4];
    let before = tour_length(&points, &start);
    let res = optimize(start, |r: &Vec<usize>| tour_length(&points, r).to_bits());
    assert!(f64::from_bits(res.distance) <= before);
}

#[test]
fn local_optimum_is_left_unchanged() {
    let points = scattered();
    let first = optimize(vec![0, 2, 6, 3, 5, 4, 1, 7], |r: &Vec<usize>| {
        tour_length(&points, r).to_bits()
    });
    assert!(first.passes < MAX_PASSES);
    let route = first.route.clone();
    let again = optimize(first.route, |r: &Vec<usize>| tour_length(&points, r).to_bits());
    assert_eq!(again.route, route);
    assert_eq!(again.distance, first.distance);
    assert_eq!(again.passes, 1);
}

#[test]
fn result_of_a_random_search_is_left_unchanged() {
    let points = scattered();
    for _ in 0..10 {
        let first = two_opt(8, |r: &Vec<usize>| tour_length(&points, r).to_bits());
        let route = first.route.clone();
        let again = optimize(first.route, |r: &Vec<usize>| tour_length(&points, r).to_bits());
        assert_eq!(again.route, route);
        assert_eq!(again.distance, first.distance);
        assert_eq!(again.passes, 1);
    }
}

#[test]
fn search_that_never_settles_stops_at_the_cap() {
    let next = Cell::new(u64::MAX);
    let calls = Cell::new(0usize);
    let res = optimize(vec![0, 1, 2, 3, 4], |_r: &Vec<usize>| {
        next.set(next.get() - 1);
        calls.set(calls.get() + 1);
        next.get()
    });
    assert_eq!(res.passes, 1000);
    assert_eq!(calls.get(), 1 + 3 * 1000);
    assert_eq!(res.distance, u64::MAX - (1 + 3 * 1000));
    assert_eq!(sorted(&res.route), vec![0, 1, 2, 3, 4]);
}

#[test]
fn search_that_never_settles_returns_the_last_tour_taken() {
    let next = Cell::new(u64::MAX);
    let last = Cell::new(Vec::new());
    let res = optimize(vec![0, 1, 2, 3], |r: &Vec<usize>| {
        next.set(next.get() - 1);
        last.set(r.clone());
        next.get()
    });
    assert_eq!(res.passes, 1000);
    assert_eq!(res.route, last.take());
    assert_eq!(res.route, vec![0, 1, 2, 3]);
}

#[test]
fn every_candidate_is_measured_whole_and_in_order() {
    let seen = Cell::new(Vec::new());
    let res = optimize(vec![0, 1, 2, 3, 4], |r: &Vec<usize>| {
        let mut all: Vec<Vec<usize>> = seen.take();
        all.push(r.clone());
        seen.set(all);
        7
    });
    assert_eq!(res.route, vec![0, 1, 2, 3, 4]);
    assert_eq!(res.distance, 7);
    assert_eq!(res.passes, 1);
    assert_eq!(
        seen.take(),
        vec![
            vec![0, 1, 2, 3, 4],
            vec![0, 2, 1, 3, 4],
            vec![0, 3, 2, 1, 4],
            vec![0, 1, 3, 2, 4],
        ]
    );
}
