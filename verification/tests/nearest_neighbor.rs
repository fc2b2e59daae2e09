use tsp::city::City;
use tsp::common::tour_length;
use tsp::nearest_neighbor;

fn cities_of(coords: &[(i64, i64)]) -> Vec<City> {
    let mut v: Vec<City> = Vec::new();
    for &(x, y) in coords.iter() {
        v.push(City::new(x, y));
    }
    v
}

fn square() -> Vec<City> {
    cities_of(&[(0, 0), (0, 10), (10, 10), (10, 0)])
}

fn town_a() -> Vec<City> {
    cities_of(&[(565, 575), (25, 185), (345, 750), (945, 685), (845, 655), (880, 660)])
}

fn town_b() -> Vec<City> {
    cities_of(&[(0, 0), (100, 0), (200, 50), (150, 200), (50, 220), (-60, 150), (-80, 40), (30, 90)])
}

fn town_c() -> Vec<City> {
    cities_of(&[
        (3, 7),
        (90, 12),
        (44, 60),
        (12, 88),
        (71, 35),
        (55, 95),
        (20, 30),
        (80, 80),
        (5, 55),
        (60, 5),
    ])
}

fn assert_valid_tour(cities: &Vec<City>, visit: &Vec<City>, idx: &Vec<usize>) {
    let n = cities.len();
    assert_eq!(visit.len(), n + 1);
    assert_eq!(idx.len(), n);
    assert_eq!(visit[0], visit[n]);
    let mut seen = vec![false; n];
    for k in 0..n {
        let i = idx[k];
        assert!(i < n);
        assert!(!seen[i]);
        seen[i] = true;
        assert_eq!(visit[k], cities[i]);
    }
}

#[test]
fn gif() {
    for cities in [town_a(), town_b(), town_c()] {
        let (visit, idx) = nearest_neighbor::solver(&cities).unwrap();
        assert_valid_tour(&cities, &visit, &idx);
    }
}

#[test]
fn nearest_neighbor_all() {
    for cities in [town_a(), town_b(), town_c()] {
        let (visit, idx) = nearest_neighbor::solver(&cities).unwrap();
        assert_valid_tour(&cities, &visit, &idx);
        assert!(idx[0] == 0);
        assert!(tour_length(&visit) > 0);
    }
}

#[test]
fn berlin() {
    // from the start city the scan always extends to the nearest
    // unvisited city, so the square is traversed along its perimeter
    let cities = square();
    let (visit, idx) = nearest_neighbor::solver(&cities).unwrap();
    assert_valid_tour(&cities, &visit, &idx);
    assert_eq!(idx, vec![0, 1, 2, 3]);
    assert_eq!(tour_length(&visit), 40);
}

#[test]
fn nearest_neighbor_twoopt_berlin() {
    let cities = square();
    let (visit, idx) = nearest_neighbor::two_opt(&cities).unwrap();
    assert_valid_tour(&cities, &visit, &idx);
    // the constructed perimeter is a 2-opt fixed point: it comes back
    // exactly unchanged, at its optimal length
    assert_eq!(idx, vec![0, 1, 2, 3]);
    assert_eq!(tour_length(&visit), 40);
}

#[test]
fn nearest_neighbor_twoopt_kroc() {
    let cities = town_b();
    let (plain_visit, _) = nearest_neighbor::solver(&cities).unwrap();
    let (visit, idx) = nearest_neighbor::two_opt(&cities).unwrap();
    assert_valid_tour(&cities, &visit, &idx);
    assert!(tour_length(&visit) <= tour_length(&plain_visit));
}

#[test]
fn nearest_neighbor_twoopt_ts() {
    let cities = town_c();
    let (plain_visit, _) = nearest_neighbor::solver(&cities).unwrap();
    let (visit, idx) = nearest_neighbor::two_opt(&cities).unwrap();
    assert_valid_tour(&cities, &visit, &idx);
    assert!(tour_length(&visit) <= tour_length(&plain_visit));
}

#[test]
fn nearest_neighbor_twoopt_all() {
    for cities in [town_a(), town_b()] {
        let (visit, idx) = nearest_neighbor::two_opt(&cities).unwrap();
        assert_valid_tour(&cities, &visit, &idx);
    }
}

#[test]
fn nearest_neighbor_twoopt_gif_all() {
    let cities = town_a();
    let (visit, idx) = nearest_neighbor::two_opt(&cities).unwrap();
    assert_valid_tour(&cities, &visit, &idx);
}

#[test]
fn nearest_neighbor_rejects_small_input() {
    assert_eq!(
        nearest_neighbor::solver(&Vec::new()),
        Err(tsp::tour::TourError::TooFewCities)
    );
    let one = cities_of(&[(1, 2)]);
    assert_eq!(nearest_neighbor::solver(&one), Err(tsp::tour::TourError::TooFewCities));
}

#[test]
fn nearest_neighbor_first_seen_wins_ties() {
    // two cities at the same distance from the start: the earlier one in
    // the input is visited first
    let cities = cities_of(&[(0, 0), (5, 0), (-5, 0), (6, 0)]);
    let (_, idx) = nearest_neighbor::solver(&cities).unwrap();
    assert_eq!(idx, vec![0, 1, 3, 2]);
}
