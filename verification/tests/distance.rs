use tsp::city::City;
use tsp::common::{distance, total_distance, tour_length};
use tsp::two_opt::improve_two_opt;

fn cities_of(coords: &[(i64, i64)]) -> Vec<City> {
    let mut v: Vec<City> = Vec::new();
    for &(x, y) in coords.iter() {
        v.push(City::new(x, y));
    }
    v
}

#[test]
fn distance_exact_values() {
    assert_eq!(distance(City::new(0, 0), City::new(3, 4)), 5);
    assert_eq!(distance(City::new(0, 0), City::new(0, 10)), 10);
    assert_eq!(distance(City::new(2, 3), City::new(2, 3)), 0);
    assert_eq!(distance(City::new(-3, -4), City::new(0, 0)), 5);
}

#[test]
fn distance_truncates_toward_zero() {
    // sqrt(2) = 1.41..., truncated to 1
    assert_eq!(distance(City::new(0, 0), City::new(1, 1)), 1);
    // sqrt(13) = 3.60..., truncated to 3
    assert_eq!(distance(City::new(0, 0), City::new(2, 3)), 3);
    // sqrt(74) = 8.60... and sqrt(97) = 9.84..., never rounded up
    assert_eq!(distance(City::new(0, 0), City::new(7, 5)), 8);
    assert_eq!(distance(City::new(0, 0), City::new(9, 4)), 9);
}

#[test]
fn distance_is_symmetric() {
    let p = City::new(12, -7);
    let q = City::new(-3, 44);
    assert_eq!(distance(p, q), distance(q, p));
}

#[test]
fn total_distance_sums_consecutive_edges() {
    let v = cities_of(&[(0, 0), (3, 4), (3, 0)]);
    // 5 + 4; the open path does not include an edge back to the start
    assert_eq!(total_distance(&v), 9);
    let single = cities_of(&[(5, 5)]);
    assert_eq!(total_distance(&single), 0);
}

#[test]
fn tour_length_is_deterministic() {
    // the same closed tour always yields the same integer
    let v = cities_of(&[(0, 0), (0, 10), (10, 10), (10, 0), (0, 0)]);
    let first = tour_length(&v);
    let second = tour_length(&v);
    assert_eq!(first, second);
    assert_eq!(first, 40);
}

#[test]
fn two_opt_uncrosses_square() {
    // the square visited in crossing order; 2-opt must settle on the
    // perimeter
    let mut visit = cities_of(&[(0, 0), (10, 10), (0, 10), (10, 0)]);
    let mut idx: Vec<usize> = vec![0, 2, 1, 3];
    let mut closed = visit.clone();
    closed.push(closed[0]);
    assert_eq!(tour_length(&closed), 48);
    improve_two_opt(&mut visit, &mut idx, 100_000);
    let mut improved = visit.clone();
    improved.push(improved[0]);
    assert_eq!(tour_length(&improved), 40);
    // the index sequence is reversed in lock-step
    for k in 0..4 {
        let orig = [(0i64, 0i64), (0, 10), (10, 10), (10, 0)];
        assert_eq!(visit[k], City::new(orig[idx[k]].0, orig[idx[k]].1));
    }
}

#[test]
fn two_opt_solver_closes_tour() {
    let mut visit = cities_of(&[(0, 0), (10, 10), (0, 10), (10, 0)]);
    let mut idx: Vec<usize> = vec![0, 2, 1, 3];
    let (v, i) = tsp::two_opt::solver(&mut visit, &mut idx);
    assert_eq!(v.len(), 5);
    assert_eq!(i.len(), 4);
    assert_eq!(v[0], v[4]);
    assert_eq!(tour_length(&v), 40);
}

#[test]
fn two_opt_keeps_an_optimal_tour() {
    // the perimeter admits no strictly improving reversal under the
    // truncated metric, so the sequences come back exactly unchanged
    let mut visit = cities_of(&[(0, 0), (0, 10), (10, 10), (10, 0)]);
    let mut idx: Vec<usize> = vec![0, 1, 2, 3];
    improve_two_opt(&mut visit, &mut idx, 50_000);
    assert_eq!(visit, cities_of(&[(0, 0), (0, 10), (10, 10), (10, 0)]));
    assert_eq!(idx, vec![0, 1, 2, 3]);
    let mut closed = visit.clone();
    closed.push(closed[0]);
    assert_eq!(tour_length(&closed), 40);
}
