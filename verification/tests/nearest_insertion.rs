use tsp::city::City;
use tsp::common::tour_length;
use tsp::nearest_insertion;

fn cities_of(coords: &[(i64, i64)]) -> Vec<City> {
    let mut v: Vec<City> = Vec::new();
    for &(x, y) in coords.iter() {
        v.push(City::new(x, y));
    }
    v
}

fn town_a() -> Vec<City> {
    cities_of(&[(565, 575), (25, 185), (345, 750), (945, 685), (845, 655), (880, 660)])
}

fn town_b() -> Vec<City> {
    cities_of(&[(0, 0), (100, 0), (200, 50), (150, 200), (50, 220), (-60, 150), (-80, 40), (30, 90)])
}

fn town_c() -> Vec<City> {
    cities_of(&[
        (3, 7),
        (90, 12),
        (44, 60),
        (12, 88),
        (71, 35),
        (55, 95),
        (20, 30),
        (80, 80),
        (5, 55),
        (60, 5),
    ])
}

fn assert_valid_tour(cities: &Vec<City>, visit: &Vec<City>, idx: &Vec<usize>) {
    let n = cities.len();
    assert_eq!(visit.len(), n + 1);
    assert_eq!(idx.len(), n);
    assert_eq!(visit[0], visit[n]);
    let mut seen = vec![false; n];
    for k in 0..n {
        let i = idx[k];
        assert!(i < n);
        assert!(!seen[i]);
        seen[i] = true;
        assert_eq!(visit[k], cities[i]);
    }
}

#[test]
fn nearest_insertion_all() {
    for cities in [town_a(), town_b(), town_c()] {
        let (visit, idx) = nearest_insertion::solver(&cities).unwrap();
        assert_valid_tour(&cities, &visit, &idx);
        assert!(tour_length(&visit) > 0);
    }
}

#[test]
fn nearest_insertion_plot() {
    let cities = town_b();
    let (visit, idx) = nearest_insertion::solver(&cities).unwrap();
    assert_valid_tour(&cities, &visit, &idx);
}

#[test]
fn nearest_insertion_twoopt_berlin() {
    let cities = town_a();
    let (plain_visit, _) = nearest_insertion::solver(&cities).unwrap();
    let (visit, idx) = nearest_insertion::two_opt(&cities).unwrap();
    assert_valid_tour(&cities, &visit, &idx);
    assert!(tour_length(&visit) <= tour_length(&plain_visit));
}

#[test]
fn nearest_insertion_twoopt_kroc() {
    let cities = town_b();
    let (plain_visit, _) = nearest_insertion::solver(&cities).unwrap();
    let (visit, idx) = nearest_insertion::two_opt(&cities).unwrap();
    assert_valid_tour(&cities, &visit, &idx);
    assert!(tour_length(&visit) <= tour_length(&plain_visit));
}

#[test]
fn nearest_insertion_twoopt_ts() {
    let cities = town_c();
    let (plain_visit, _) = nearest_insertion::solver(&cities).unwrap();
    let (visit, idx) = nearest_insertion::two_opt(&cities).unwrap();
    assert_valid_tour(&cities, &visit, &idx);
    assert!(tour_length(&visit) <= tour_length(&plain_visit));
}

#[test]
fn nearest_insertion_twoopt_all() {
    for cities in [town_a(), town_b()] {
        let (visit, idx) = nearest_insertion::two_opt(&cities).unwrap();
        assert_valid_tour(&cities, &visit, &idx);
    }
}

#[test]
fn nearest_insertion_twoopt_gif_all() {
    let cities = town_c();
    let (visit, idx) = nearest_insertion::two_opt(&cities).unwrap();
    assert_valid_tour(&cities, &visit, &idx);
}

#[test]
fn nearest_insertion_triangle_seed() {
    // three cities: the seed already closes the full tour and the
    // insertion loop never runs; the length is the triangle's perimeter
    let cities = cities_of(&[(0, 0), (3, 0), (0, 4)]);
    let (visit, idx) = nearest_insertion::solver(&cities).unwrap();
    assert_valid_tour(&cities, &visit, &idx);
    assert_eq!(idx, vec![0, 1, 2]);
    assert_eq!(visit[0], City::new(0, 0));
    assert_eq!(visit[3], City::new(0, 0));
    // 3 + 5 + 4: each side once around
    assert_eq!(tour_length(&visit), 12);
}

#[test]
fn nearest_insertion_rejects_small_input() {
    let two = cities_of(&[(0, 0), (1, 1)]);
    assert_eq!(nearest_insertion::solver(&two), Err(tsp::tour::TourError::TooFewCities));
    assert_eq!(nearest_insertion::two_opt(&two), Err(tsp::tour::TourError::TooFewCities));
}

#[test]
fn nearest_insertion_inserts_after_match() {
    // the fourth city sits right next to city 1, so it is inserted
    // immediately after position 1 of the seed loop
    let cities = cities_of(&[(0, 0), (100, 0), (50, 90), (101, 1)]);
    let (visit, idx) = nearest_insertion::solver(&cities).unwrap();
    assert_valid_tour(&cities, &visit, &idx);
    assert_eq!(idx, vec![0, 1, 3, 2]);
}
