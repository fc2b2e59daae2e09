//! Nearest-neighbor construction: repeatedly extend the tour to the
//! unvisited city closest to the tour's last city, first-seen wins ties.

use vstd::prelude::*;
use vstd::multiset::Multiset;
use crate::city::{City, all_in_bounds};
use crate::common::{dist, distance};
use crate::tour::{TourError, index_perm, follows_indices, lemma_index_perm_range};

verus! {

/// Distance from `tail` to the city with index `i`.
pub open spec fn dist_to(cities: Seq<City>, tail: City, i: usize) -> int {
    dist(tail, cities[i as int])
}

/// Smallest distance from `tail` to any of the remaining cities.
pub open spec fn min_dist(cities: Seq<City>, tail: City, rem: Seq<usize>) -> int
    recommends
        rem.len() > 0,
    decreases rem.len(),
{
    if rem.len() <= 1 {
        dist_to(cities, tail, rem[0])
    } else {
        let rest = min_dist(cities, tail, rem.drop_first());
        if dist_to(cities, tail, rem[0]) <= rest {
            dist_to(cities, tail, rem[0])
        } else {
            rest
        }
    }
}

/// Position in `rem` of the first remaining city at minimal distance from
/// `tail`: the selection rule of nearest-neighbor construction.
pub open spec fn nn_pick(cities: Seq<City>, tail: City, rem: Seq<usize>) -> int
    recommends
        rem.len() > 0,
    decreases rem.len(),
{
    if rem.len() <= 1 {
        0
    } else if dist_to(cities, tail, rem[0]) <= min_dist(cities, tail, rem.drop_first()) {
        0
    } else {
        1 + nn_pick(cities, tail, rem.drop_first())
    }
}

pub proof fn lemma_nn_pick_range(cities: Seq<City>, tail: City, rem: Seq<usize>)
    requires
        rem.len() > 0,
    ensures
        0 <= nn_pick(cities, tail, rem) < rem.len(),
    decreases rem.len(),
{
    if rem.len() > 1 && !(dist_to(cities, tail, rem[0]) <= min_dist(
        cities,
        tail,
        rem.drop_first(),
    )) {
        lemma_nn_pick_range(cities, tail, rem.drop_first());
    }
}

/// `min_dist` is a lower bound attained by some remaining city.
pub proof fn lemma_min_dist_props(cities: Seq<City>, tail: City, rem: Seq<usize>)
    requires
        rem.len() > 0,
    ensures
        forall|k: int|
            0 <= k < rem.len() ==> min_dist(cities, tail, rem) <= dist_to(
                cities,
                tail,
                #[trigger] rem[k],
            ),
        exists|k: int|
            0 <= k < rem.len() && min_dist(cities, tail, rem) == dist_to(
                cities,
                tail,
                #[trigger] rem[k],
            ),
    decreases rem.len(),
{
    if rem.len() <= 1 {
        assert(min_dist(cities, tail, rem) == dist_to(cities, tail, rem[0]));
    } else {
        let rest = rem.drop_first();
        lemma_min_dist_props(cities, tail, rest);
        assert forall|k: int|
            0 <= k < rem.len() implies min_dist(cities, tail, rem) <= dist_to(
            cities,
            tail,
            #[trigger] rem[k],
        ) by {
            if k > 0 {
                assert(rem[k] == rest[k - 1]);
            }
        }
        if dist_to(cities, tail, rem[0]) <= min_dist(cities, tail, rest) {
            assert(min_dist(cities, tail, rem) == dist_to(cities, tail, rem[0]));
        } else {
            let k = choose|k: int|
                0 <= k < rest.len() && min_dist(cities, tail, rest) == dist_to(
                    cities,
                    tail,
                    #[trigger] rest[k],
                );
            assert(rem[k + 1] == rest[k]);
            assert(min_dist(cities, tail, rem) == dist_to(cities, tail, rem[k + 1]));
        }
    }
}

/// The position of the leftmost minimum is exactly `nn_pick`.
pub proof fn lemma_first_min_is_pick(cities: Seq<City>, tail: City, rem: Seq<usize>, p: int)
    requires
        0 <= p < rem.len(),
        forall|k: int|
            0 <= k < rem.len() ==> dist_to(cities, tail, rem[p]) <= dist_to(
                cities,
                tail,
                #[trigger] rem[k],
            ),
        forall|k: int|
            0 <= k < p ==> dist_to(cities, tail, rem[p]) < dist_to(
                cities,
                tail,
                #[trigger] rem[k],
            ),
    ensures
        p == nn_pick(cities, tail, rem),
    decreases rem.len(),
{
    lemma_min_dist_props(cities, tail, rem);
    if rem.len() <= 1 {
    } else {
        let rest = rem.drop_first();
        lemma_min_dist_props(cities, tail, rest);
        if p == 0 {
            let k = choose|k: int|
                0 <= k < rest.len() && min_dist(cities, tail, rest) == dist_to(
                    cities,
                    tail,
                    #[trigger] rest[k],
                );
            assert(rest[k] == rem[k + 1]);
            assert(dist_to(cities, tail, rem[0]) <= min_dist(cities, tail, rest));
        } else {
            assert(rest[p - 1] == rem[p]);
            assert(min_dist(cities, tail, rest) <= dist_to(cities, tail, rest[p - 1]));
            assert(!(dist_to(cities, tail, rem[0]) <= min_dist(cities, tail, rest)));
            assert forall|k: int|
                0 <= k < rest.len() implies dist_to(cities, tail, rest[p - 1]) <= dist_to(
                cities,
                tail,
                #[trigger] rest[k],
            ) by {
                assert(rest[k] == rem[k + 1]);
            }
            assert forall|k: int|
                0 <= k < p - 1 implies dist_to(cities, tail, rest[p - 1]) < dist_to(
                cities,
                tail,
                #[trigger] rest[k],
            ) by {
                assert(rest[k] == rem[k + 1]);
            }
            lemma_first_min_is_pick(cities, tail, rest, p - 1);
        }
    }
}

/// The order in which nearest-neighbor construction visits the remaining
/// cities, starting from `tail`.
pub open spec fn nn_order(cities: Seq<City>, tail: City, rem: Seq<usize>) -> Seq<usize>
    decreases rem.len(),
    via nn_order_decreases
{
    if rem.len() == 0 {
        Seq::empty()
    } else {
        let k = nn_pick(cities, tail, rem);
        seq![rem[k]] + nn_order(cities, cities[rem[k] as int], rem.remove(k))
    }
}

#[via_fn]
proof fn nn_order_decreases(cities: Seq<City>, tail: City, rem: Seq<usize>) {
    if rem.len() > 0 {
        lemma_nn_pick_range(cities, tail, rem);
    }
}

/// The whole nearest-neighbor tour: city 0 first, then the remaining
/// cities in nearest-neighbor order.
pub open spec fn nn_tour(cities: Seq<City>) -> Seq<usize>
    recommends cities.len() >= 1,
{
    seq![0usize] + nn_order(
        cities,
        cities[0],
        Seq::new((cities.len() - 1) as nat, |i: int| (i + 1) as usize),
    )
}

/// Nearest-neighbor order visits exactly the remaining cities.
proof fn lemma_nn_order_multiset(cities: Seq<City>, tail: City, rem: Seq<usize>)
    ensures
        nn_order(cities, tail, rem).to_multiset() == rem.to_multiset(),
    decreases rem.len(),
{
    broadcast use vstd::seq_lib::group_to_multiset_ensures;

    if rem.len() > 0 {
        lemma_nn_pick_range(cities, tail, rem);
        let k = nn_pick(cities, tail, rem);
        let rest = rem.remove(k);
        lemma_nn_order_multiset(cities, cities[rem[k] as int], rest);
        vstd::seq_lib::lemma_multiset_commutative(seq![rem[k]], nn_order(
            cities,
            cities[rem[k] as int],
            rest,
        ));
        assert(seq![rem[k]].to_multiset() =~= Multiset::empty().insert(rem[k]));
        assert(rest.to_multiset() == rem.to_multiset().remove(rem[k]));
        assert(rem.contains(rem[k]));
        assert(rem.to_multiset().count(rem[k]) > 0);
        assert(nn_order(cities, tail, rem).to_multiset() =~= rem.to_multiset());
    }
}

/// The nearest-neighbor tour is a permutation of all city indices.
pub proof fn lemma_nn_tour_perm(cities: Seq<City>)
    requires
        cities.len() >= 1,
    ensures
        index_perm(nn_tour(cities), cities.len()),
        nn_tour(cities).len() == cities.len(),
    decreases cities.len(),
{
    broadcast use vstd::seq_lib::group_to_multiset_ensures;

    let n = cities.len();
    let rem0 = Seq::new((n - 1) as nat, |i: int| (i + 1) as usize);
    let order = nn_order(cities, cities[0], rem0);
    lemma_nn_order_multiset(cities, cities[0], rem0);
    vstd::seq_lib::lemma_multiset_commutative(seq![0usize], order);
    let full = Seq::new(n, |i: int| i as usize);
    assert(full.drop_first() =~= rem0);
    assert(full.to_multiset() =~= seq![0usize].to_multiset().add(rem0.to_multiset())) by {
        assert(full == seq![full[0]] + full.drop_first());
        vstd::seq_lib::lemma_multiset_commutative(seq![full[0]], full.drop_first());
        assert(seq![full[0]] =~= seq![0usize]);
    }
    assert(nn_tour(cities).to_multiset() =~= full.to_multiset());
    assert(nn_tour(cities).len() == 1 + order.len());
    assert(nn_tour(cities).to_multiset().len() == full.to_multiset().len());
}

/// One nearest-neighbor selection: the position in `rem` of the first
/// remaining city at minimal truncated distance from `tail`.
fn select_nearest(cities: &Vec<City>, tail: City, rem: &Vec<usize>) -> (p: usize)
    requires
        all_in_bounds(cities@),
        tail.in_bounds(),
        rem@.len() > 0,
        forall|k: int| 0 <= k < rem@.len() ==> (#[trigger] rem@[k]) < cities@.len(),
    ensures
        p == nn_pick(cities@, tail, rem@),
        p < rem@.len(),
{
    let mut best: usize = 0;
    let mut best_d: i64 = distance(tail, cities[rem[0]]);
    let mut m: usize = 1;
    while m < rem.len()
        invariant
            all_in_bounds(cities@),
            tail.in_bounds(),
            forall|k: int| 0 <= k < rem@.len() ==> (#[trigger] rem@[k]) < cities@.len(),
            1 <= m <= rem@.len(),
            best < m,
            best_d == dist_to(cities@, tail, rem@[best as int]),
            forall|k: int| 0 <= k < m ==> best_d <= dist_to(cities@, tail, #[trigger] rem@[k]),
            forall|k: int| 0 <= k < best ==> best_d < dist_to(cities@, tail, #[trigger] rem@[k]),
        decreases rem@.len() - m,
    {
        let d = distance(tail, cities[rem[m]]);
        if d < best_d {
            best = m;
            best_d = d;
        }
        m = m + 1;
    }
    proof {
        lemma_first_min_is_pick(cities@, tail, rem@, best as int);
    }
    best
}

/// Builds the nearest-neighbor tour: the closed visiting sequence and the
/// open sequence of underlying city indices.
fn nearest_neighbor_internal(cities: &Vec<City>) -> (r: (Vec<City>, Vec<usize>))
    requires
        all_in_bounds(cities@),
        cities@.len() >= 1,
    ensures
        r.1@ == nn_tour(cities@),
        index_perm(r.1@, cities@.len()),
        follows_indices(r.0@.drop_last(), r.1@, cities@),
        r.0@.len() == cities@.len() + 1,
        r.0@.last() == r.0@[0],
{
    let ghost n = cities@.len();
    let mut cities_idx: Vec<usize> = Vec::new();
    let mut visit_cities: Vec<City> = Vec::new();

    let mut rem: Vec<usize> = Vec::new();
    let mut i: usize = 1;
    while i < cities.len()
        invariant
            1 <= i <= cities@.len(),
            rem@.len() == i - 1,
            forall|k: int| 0 <= k < rem@.len() ==> #[trigger] rem@[k] == (k + 1) as usize,
        decreases cities@.len() - i,
    {
        rem.push(i);
        i = i + 1;
    }
    proof {
        assert(rem@ =~= Seq::new((n - 1) as nat, |k: int| (k + 1) as usize));
    }

    let start_city = cities[0];
    cities_idx.push(0);
    visit_cities.push(start_city);
    let mut current_city = start_city;

    while rem.len() > 0
        invariant
            all_in_bounds(cities@),
            n == cities@.len() >= 1,
            cities_idx@.len() == visit_cities@.len(),
            cities_idx@.len() >= 1,
            forall|k: int| 0 <= k < rem@.len() ==> (#[trigger] rem@[k]) < n,
            forall|k: int| 0 <= k < cities_idx@.len() ==> (#[trigger] cities_idx@[k]) < n,
            forall|k: int|
                0 <= k < cities_idx@.len() ==> #[trigger] visit_cities@[k] == cities@[cities_idx@[k] as int],
            current_city == visit_cities@.last(),
            nn_tour(cities@) == cities_idx@ + nn_order(cities@, current_city, rem@),
        decreases rem@.len(),
    {
        let ghost idx0 = cities_idx@;
        let ghost rem0 = rem@;
        let p = select_nearest(cities, current_city, &rem);
        let city_idx = rem[p];
        proof {
            assert(nn_order(cities@, current_city, rem0) == seq![rem0[p as int]] + nn_order(
                cities@,
                cities@[rem0[p as int] as int],
                rem0.remove(p as int),
            ));
        }
        rem.remove(p);
        cities_idx.push(city_idx);
        let c = cities[city_idx];
        visit_cities.push(c);
        current_city = c;
        proof {
            assert(cities_idx@ =~= idx0.push(rem0[p as int]));
            assert(cities_idx@ + nn_order(cities@, current_city, rem@) =~= idx0 + (seq![
                rem0[p as int],
            ] + nn_order(cities@, current_city, rem@)));
        }
    }

    proof {
        assert(cities_idx@ + nn_order(cities@, current_city, rem@) =~= cities_idx@);
        lemma_nn_tour_perm(cities@);
        lemma_index_perm_range(nn_tour(cities@), n);
    }
    // connect start and end city to make a cycle
    visit_cities.push(start_city);
    proof {
        assert(visit_cities@.drop_last() =~= visit_cities@.subrange(0, visit_cities@.len() - 1));
        assert forall|k: int| 0 <= k < cities_idx@.len() implies #[trigger] visit_cities@.drop_last()[k]
            == cities@[cities_idx@[k] as int] by {
            assert(visit_cities@.drop_last()[k] == visit_cities@[k]);
        }
    }
    (visit_cities, cities_idx)
}

/// Nearest-neighbor construction from the first city.  Returns the closed
/// visiting sequence (the start city repeated at the end) and the open
/// sequence of visited city indices, or rejects inputs on which no cycle
/// can be built.
pub fn solver(cities: &Vec<City>) -> (r: Result<(Vec<City>, Vec<usize>), TourError>)
    requires
        all_in_bounds(cities@),
    ensures
        cities@.len() < 2 <==> r == Result::<(Vec<City>, Vec<usize>), TourError>::Err(
            TourError::TooFewCities,
        ),
        cities@.len() >= 2 ==> r matches Ok(_),
        r matches Ok(t) ==> {
            &&& t.1@ == nn_tour(cities@)
            &&& index_perm(t.1@, cities@.len())
            &&& follows_indices(t.0@.drop_last(), t.1@, cities@)
            &&& t.0@.len() == cities@.len() + 1
            &&& t.0@.last() == t.0@[0]
        },
{
    if cities.len() < 2 {
        return Err(TourError::TooFewCities);
    }
    Ok(nearest_neighbor_internal(cities))
}

/// Nearest-neighbor construction followed by the stand-alone randomized
/// 2-opt improvement pass over the open tour.
pub fn two_opt(cities: &Vec<City>) -> (r: Result<(Vec<City>, Vec<usize>), TourError>)
    requires
        all_in_bounds(cities@),
        cities@.len() <= crate::common::MAX_CITIES,
    ensures
        cities@.len() < 2 <==> r == Result::<(Vec<City>, Vec<usize>), TourError>::Err(
            TourError::TooFewCities,
        ),
        cities@.len() >= 2 ==> r matches Ok(_),
        r matches Ok(t) ==> {
            &&& index_perm(t.1@, cities@.len())
            &&& follows_indices(t.0@.drop_last(), t.1@, cities@)
            &&& t.0@.len() == cities@.len() + 1
            &&& t.0@.last() == t.0@[0]
            &&& crate::two_opt::loop_len(t.0@.drop_last()) <= crate::two_opt::loop_len(
                Seq::new(cities@.len(), |k: int| cities@[nn_tour(cities@)[k] as int]),
            )
            &&& (crate::two_opt::stationary(
                Seq::new(cities@.len(), |k: int| cities@[nn_tour(cities@)[k] as int]),
            ) ==> t.1@ == nn_tour(cities@) && t.0@.drop_last() == Seq::new(
                cities@.len(),
                |k: int| cities@[nn_tour(cities@)[k] as int],
            ))
        },
{
    match solver(cities) {
        Err(e) => Err(e),
        Ok(pair) => {
            let mut visit = pair.0;
            let mut idx = pair.1;
            let ghost closed0 = visit@;
            // the constructor pushed the start city at the tail to close
            // the cycle, so remove it before improving
            visit.pop();
            proof {
                assert(visit@ == closed0.drop_last());
                lemma_index_perm_range(idx@, cities@.len());
                assert forall|p: int| 0 <= p < visit@.len() implies (
                #[trigger] visit@[p]).in_bounds() by {
                    assert(visit@[p] == cities@[idx@[p] as int]);
                }
                assert(visit@ =~= Seq::new(
                    cities@.len(),
                    |k: int| cities@[nn_tour(cities@)[k] as int],
                ));
            }
            let improved = crate::two_opt::solver(&mut visit, &mut idx);
            proof {
                assert(follows_indices(visit@.drop_last(), idx@, cities@));
            }
            Ok(improved)
        },
    }
}

} // verus!
