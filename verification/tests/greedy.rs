use tsp::city::City;
use tsp::common::tour_length;
use tsp::greedy;

fn cities_of(coords: &[(i64, i64)]) -> Vec<City> {
    let mut v: Vec<City> = Vec::new();
    for &(x, y) in coords.iter() {
        v.push(City::new(x, y));
    }
    v
}

fn square() -> Vec<City> {
    cities_of(&[(0, 0), (0, 10), (10, 10), (10, 0)])
}

fn town_a() -> Vec<City> {
    cities_of(&[(565, 575), (25, 185), (345, 750), (945, 685), (845, 655), (880, 660)])
}

fn town_b() -> Vec<City> {
    cities_of(&[(0, 0), (100, 0), (200, 50), (150, 200), (50, 220), (-60, 150), (-80, 40), (30, 90)])
}

fn town_c() -> Vec<City> {
    cities_of(&[
        (3, 7),
        (90, 12),
        (44, 60),
        (12, 88),
        (71, 35),
        (55, 95),
        (20, 30),
        (80, 80),
        (5, 55),
        (60, 5),
    ])
}

fn assert_valid_tour(cities: &Vec<City>, visit: &Vec<City>, idx: &Vec<usize>) {
    let n = cities.len();
    assert_eq!(visit.len(), n + 1);
    assert_eq!(idx.len(), n);
    assert_eq!(visit[0], visit[n]);
    let mut seen = vec![false; n];
    for k in 0..n {
        let i = idx[k];
        assert!(i < n);
        assert!(!seen[i]);
        seen[i] = true;
        assert_eq!(visit[k], cities[i]);
    }
}

#[test]
fn greedy_all() {
    for cities in [town_a(), town_b(), town_c()] {
        let (visit, idx) = greedy::solver(&cities).unwrap();
        assert_valid_tour(&cities, &visit, &idx);
        assert!(tour_length(&visit) > 0);
    }
}

#[test]
fn greedy_plot() {
    let cities = square();
    let (visit, idx) = greedy::solver(&cities).unwrap();
    assert_valid_tour(&cities, &visit, &idx);
    // the perimeter cycle: four edges of length 10
    assert_eq!(idx, vec![0, 1, 2, 3]);
    assert_eq!(tour_length(&visit), 40);
}

#[test]
fn twoopt_plot() {
    let cities = square();
    let (visit, idx) = greedy::two_opt(&cities).unwrap();
    assert_valid_tour(&cities, &visit, &idx);
    // the greedy tour is already optimal, so no reversal is accepted
    assert_eq!(tour_length(&visit), 40);
}

#[test]
fn twoopt_plot_all() {
    for cities in [town_a(), town_b(), town_c()] {
        let (greedy_visit, _) = greedy::solver(&cities).unwrap();
        let (visit, idx) = greedy::two_opt(&cities).unwrap();
        assert_valid_tour(&cities, &visit, &idx);
        assert!(tour_length(&visit) <= tour_length(&greedy_visit));
    }
}

#[test]
fn twoopt_plot_gif_all() {
    for cities in [town_a(), town_b(), town_c()] {
        let (visit, idx) = greedy::two_opt(&cities).unwrap();
        assert_valid_tour(&cities, &visit, &idx);
    }
}

#[test]
fn greedy_rejects_single_city() {
    let cities = cities_of(&[(5, 5)]);
    assert_eq!(greedy::solver(&cities), Err(tsp::tour::TourError::TooFewCities));
    assert_eq!(greedy::two_opt(&cities), Err(tsp::tour::TourError::TooFewCities));
}

#[test]
fn greedy_two_cities() {
    let cities = cities_of(&[(0, 0), (7, 0)]);
    let (visit, idx) = greedy::solver(&cities).unwrap();
    assert_valid_tour(&cities, &visit, &idx);
    // out and back along the only edge
    assert_eq!(tour_length(&visit), 14);
}
