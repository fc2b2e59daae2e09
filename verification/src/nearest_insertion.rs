//! Nearest-insertion construction: seed the tour with the first three
//! cities, then repeatedly find the remaining city closest to any city of
//! the partial tour and insert it right after the matched tour position.
//!
//! The selection scans tour positions in order and, for each, the
//! remaining cities in order; the first pair attaining the minimal
//! truncated distance wins.  The selection minimizes the distance to an
//! existing tour city, not the added tour length.

use vstd::prelude::*;
use vstd::multiset::Multiset;
use crate::city::{City, all_in_bounds};
use crate::common::distance;
use crate::nearest_neighbor::{dist_to, min_dist, nn_pick, lemma_min_dist_props,
    lemma_nn_pick_range, lemma_first_min_is_pick};
use crate::tour::{TourError, index_perm, follows_indices, lemma_index_perm_range};

verus! {

/// Smallest distance from tour position `i` to any remaining city.
pub open spec fn row_min(visit: Seq<City>, cities: Seq<City>, rem: Seq<usize>, i: int) -> int {
    min_dist(cities, visit[i], rem)
}

/// Smallest distance from any tour position to any remaining city.
pub open spec fn rows_min(visit: Seq<City>, cities: Seq<City>, rem: Seq<usize>) -> int
    recommends
        visit.len() > 0,
        rem.len() > 0,
    decreases visit.len(),
{
    if visit.len() <= 1 {
        row_min(visit, cities, rem, 0)
    } else {
        let rest = rows_min(visit.drop_first(), cities, rem);
        if row_min(visit, cities, rem, 0) <= rest {
            row_min(visit, cities, rem, 0)
        } else {
            rest
        }
    }
}

/// First tour position whose nearest remaining city is at the overall
/// minimal distance: the insertion row that the scan selects.
pub open spec fn ni_row_pick(visit: Seq<City>, cities: Seq<City>, rem: Seq<usize>) -> int
    recommends
        visit.len() > 0,
        rem.len() > 0,
    decreases visit.len(),
{
    if visit.len() <= 1 {
        0
    } else if row_min(visit, cities, rem, 0) <= rows_min(visit.drop_first(), cities, rem) {
        0
    } else {
        1 + ni_row_pick(visit.drop_first(), cities, rem)
    }
}

/// `rows_min` is a lower bound attained by some tour position.
proof fn lemma_rows_min(visit: Seq<City>, cities: Seq<City>, rem: Seq<usize>)
    requires
        visit.len() > 0,
    ensures
        forall|i: int|
            0 <= i < visit.len() ==> rows_min(visit, cities, rem) <= #[trigger] row_min(
                visit,
                cities,
                rem,
                i,
            ),
        exists|i: int|
            0 <= i < visit.len() && rows_min(visit, cities, rem) == #[trigger] row_min(
                visit,
                cities,
                rem,
                i,
            ),
    decreases visit.len(),
{
    if visit.len() <= 1 {
        assert(rows_min(visit, cities, rem) == row_min(visit, cities, rem, 0));
    } else {
        let rest = visit.drop_first();
        lemma_rows_min(rest, cities, rem);
        assert forall|i: int|
            0 <= i < visit.len() implies rows_min(visit, cities, rem) <= #[trigger] row_min(
            visit,
            cities,
            rem,
            i,
        ) by {
            if i > 0 {
                assert(row_min(rest, cities, rem, i - 1) == row_min(visit, cities, rem, i));
            }
        }
        if row_min(visit, cities, rem, 0) <= rows_min(rest, cities, rem) {
            assert(rows_min(visit, cities, rem) == row_min(visit, cities, rem, 0));
        } else {
            let i = choose|i: int|
                0 <= i < rest.len() && rows_min(rest, cities, rem) == #[trigger] row_min(
                    rest,
                    cities,
                    rem,
                    i,
                );
            assert(row_min(rest, cities, rem, i) == row_min(visit, cities, rem, i + 1));
            assert(rows_min(visit, cities, rem) == row_min(visit, cities, rem, i + 1));
        }
    }
}

/// The first row attaining the overall minimum is exactly `ni_row_pick`.
proof fn lemma_first_row_is_pick(visit: Seq<City>, cities: Seq<City>, rem: Seq<usize>, p: int)
    requires
        0 <= p < visit.len(),
        forall|i: int|
            0 <= i < visit.len() ==> row_min(visit, cities, rem, p) <= #[trigger] row_min(
                visit,
                cities,
                rem,
                i,
            ),
        forall|i: int|
            0 <= i < p ==> row_min(visit, cities, rem, p) < #[trigger] row_min(
                visit,
                cities,
                rem,
                i,
            ),
    ensures
        p == ni_row_pick(visit, cities, rem),
    decreases visit.len(),
{
    lemma_rows_min(visit, cities, rem);
    if visit.len() <= 1 {
    } else {
        let rest = visit.drop_first();
        lemma_rows_min(rest, cities, rem);
        if p == 0 {
            let i = choose|i: int|
                0 <= i < rest.len() && rows_min(rest, cities, rem) == #[trigger] row_min(
                    rest,
                    cities,
                    rem,
                    i,
                );
            assert(row_min(rest, cities, rem, i) == row_min(visit, cities, rem, i + 1));
            assert(row_min(visit, cities, rem, 0) <= rows_min(rest, cities, rem));
        } else {
            assert(row_min(rest, cities, rem, p - 1) == row_min(visit, cities, rem, p));
            assert(rows_min(rest, cities, rem) <= row_min(rest, cities, rem, p - 1));
            assert(!(row_min(visit, cities, rem, 0) <= rows_min(rest, cities, rem)));
            assert forall|i: int|
                0 <= i < rest.len() implies row_min(rest, cities, rem, p - 1)
                <= #[trigger] row_min(rest, cities, rem, i) by {
                assert(row_min(rest, cities, rem, i) == row_min(visit, cities, rem, i + 1));
            }
            assert forall|i: int|
                0 <= i < p - 1 implies row_min(rest, cities, rem, p - 1) < #[trigger] row_min(
                rest,
                cities,
                rem,
                i,
            ) by {
                assert(row_min(rest, cities, rem, i) == row_min(visit, cities, rem, i + 1));
            }
            lemma_first_row_is_pick(rest, cities, rem, p - 1);
        }
    }
}

/// One insertion: the selected remaining city enters the tour right after
/// the selected tour position.
pub open spec fn ni_insert(visit: Seq<City>, cities: Seq<City>, rem: Seq<usize>) -> Seq<City>
    recommends
        visit.len() > 0,
        rem.len() > 0,
{
    let i = ni_row_pick(visit, cities, rem);
    let j = nn_pick(cities, visit[i], rem);
    visit.insert(i + 1, cities[rem[j] as int])
}

/// The insertion loop: repeatedly insert the selected remaining city
/// until none remain.
pub open spec fn ni_loop(visit: Seq<City>, cities: Seq<City>, rem: Seq<usize>) -> Seq<City>
    recommends
        visit.len() > 0,
    decreases rem.len(),
    via ni_loop_decreases
{
    if rem.len() == 0 {
        visit
    } else {
        let i = ni_row_pick(visit, cities, rem);
        let j = nn_pick(cities, visit[i], rem);
        ni_loop(ni_insert(visit, cities, rem), cities, rem.remove(j))
    }
}

#[via_fn]
proof fn ni_loop_decreases(visit: Seq<City>, cities: Seq<City>, rem: Seq<usize>) {
    if rem.len() > 0 {
        let i = ni_row_pick(visit, cities, rem);
        lemma_nn_pick_range(cities, visit[i], rem);
    }
}

/// The whole nearest-insertion tour: the first three cities closed into a
/// loop, then every remaining city inserted in selection order.  The
/// closing duplicate of the start city stays last throughout.
pub open spec fn ni_tour(cities: Seq<City>) -> Seq<City>
    recommends
        cities.len() >= 3,
{
    let seed = seq![cities[0], cities[1], cities[2], cities[0]];
    ni_loop(seed, cities, Seq::new((cities.len() - 3) as nat, |i: int| (i + 3) as usize))
}

/// Builds the nearest-insertion tour: the closed visiting sequence and
/// the open sequence of underlying city indices.
fn nearest_insertion_internal(cities: &Vec<City>) -> (r: (Vec<City>, Vec<usize>))
    requires
        all_in_bounds(cities@),
        cities@.len() >= 3,
    ensures
        r.0@ == ni_tour(cities@),
        index_perm(r.1@, cities@.len()),
        follows_indices(r.0@.drop_last(), r.1@, cities@),
        r.0@.len() == cities@.len() + 1,
        r.0@.last() == r.0@[0],
{
    let ghost n = cities@.len();
    broadcast use vstd::seq_lib::group_to_multiset_ensures;

    let mut visit_cities: Vec<City> = Vec::new();
    let mut cities_idx: Vec<usize> = Vec::new();
    visit_cities.push(cities[0]);
    visit_cities.push(cities[1]);
    visit_cities.push(cities[2]);
    // add the start city to make a cycle
    visit_cities.push(cities[0]);
    cities_idx.push(0);
    cities_idx.push(1);
    cities_idx.push(2);

    let mut rem: Vec<usize> = Vec::new();
    let mut i: usize = 3;
    while i < cities.len()
        invariant
            3 <= i <= cities@.len(),
            rem@.len() == i - 3,
            forall|k: int| 0 <= k < rem@.len() ==> #[trigger] rem@[k] == (k + 3) as usize,
        decreases cities@.len() - i,
    {
        rem.push(i);
        i = i + 1;
    }
    let ghost full = Seq::new(n, |k: int| k as usize);
    proof {
        assert(rem@ =~= Seq::new((n - 3) as nat, |k: int| (k + 3) as usize));
        assert(visit_cities@ =~= seq![cities@[0], cities@[1], cities@[2], cities@[0]]);
        assert(cities_idx@ =~= seq![0usize, 1usize, 2usize]);
        assert(cities_idx@ + rem@ =~= full);
        vstd::seq_lib::lemma_multiset_commutative(cities_idx@, rem@);
    }

    while rem.len() > 0
        invariant
            all_in_bounds(cities@),
            n == cities@.len() >= 3,
            visit_cities@.len() == cities_idx@.len() + 1,
            cities_idx@.len() >= 3,
            visit_cities@.last() == cities@[0],
            cities_idx@[0] == 0usize,
            visit_cities@[0] == cities@[0],
            forall|k: int| 0 <= k < rem@.len() ==> (#[trigger] rem@[k]) < n,
            forall|k: int| 0 <= k < cities_idx@.len() ==> (#[trigger] cities_idx@[k]) < n,
            forall|k: int|
                0 <= k < cities_idx@.len() ==> #[trigger] visit_cities@[k] == cities@[cities_idx@[k] as int],
            cities_idx@.to_multiset().add(rem@.to_multiset()) == full.to_multiset(),
            ni_loop(visit_cities@, cities@, rem@) == ni_tour(cities@),
        decreases rem@.len(),
    {
        let (row, col) = select_insertion(&visit_cities, cities, &rem);
        let ghost v0 = visit_cities@;
        let ghost idx0 = cities_idx@;
        let ghost rem0 = rem@;
        proof {
            // the closing duplicate never wins the scan: position 0 ties it
            assert(v0[v0.len() - 1] == v0[0]);
            assert(row_min(v0, cities@, rem0, v0.len() - 1) == row_min(v0, cities@, rem0, 0));
            if row as int == v0.len() - 1 {
                assert(row_min(v0, cities@, rem0, row as int) < row_min(v0, cities@, rem0, 0));
                assert(false);
            }
            assert(ni_loop(v0, cities@, rem0) == ni_loop(
                ni_insert(v0, cities@, rem0),
                cities@,
                rem0.remove(col as int),
            ));
        }
        let city_idx = rem[col];
        let c = cities[city_idx];
        let vl = visit_cities.len();
        proof {
            assert(row < vl);
        }
        visit_cities.insert(row + 1, c);
        cities_idx.insert(row + 1, city_idx);
        rem.remove(col);
        proof {
            broadcast use vstd::seq_lib::group_to_multiset_ensures;

            assert(visit_cities@ == ni_insert(v0, cities@, rem0));
            assert(visit_cities@.last() == v0.last());
            let x = rem0[col as int];
            assert(cities_idx@[row as int + 1] == x);
            assert(cities_idx@.remove(row as int + 1) =~= idx0);
            assert(cities_idx@.remove(row as int + 1).to_multiset()
                =~= cities_idx@.to_multiset().remove(x));
            assert(cities_idx@.to_multiset().count(x) > 0) by {
                assert(cities_idx@.contains(x));
            }
            assert(cities_idx@.to_multiset() =~= idx0.to_multiset().insert(x));
            assert(rem@.to_multiset() =~= rem0.to_multiset().remove(x));
            assert(rem0.to_multiset().count(x) > 0) by {
                assert(rem0.contains(x));
            }
            assert(cities_idx@.to_multiset().add(rem@.to_multiset()) =~= full.to_multiset());
            assert forall|k: int| 0 <= k < cities_idx@.len() implies (#[trigger] cities_idx@[k])
                < n && visit_cities@[k] == cities@[cities_idx@[k] as int] by {
                if k < row as int + 1 {
                    assert(cities_idx@[k] == idx0[k]);
                    assert(visit_cities@[k] == v0[k]);
                } else if k > row as int + 1 {
                    assert(cities_idx@[k] == idx0[k - 1]);
                    assert(visit_cities@[k] == v0[k - 1]);
                }
            }
        }
    }
    proof {
        assert(ni_loop(visit_cities@, cities@, rem@) == visit_cities@);
        assert(rem@.to_multiset() =~= Multiset::empty()) by {
            assert(rem@ =~= Seq::<usize>::empty());
        }
        assert(cities_idx@.to_multiset() =~= full.to_multiset());
        assert(cities_idx@.len() == cities_idx@.to_multiset().len());
        assert(full.len() == full.to_multiset().len());
        assert forall|k: int| 0 <= k < cities_idx@.len() implies #[trigger] visit_cities@.drop_last()[k]
            == cities@[cities_idx@[k] as int] by {
            assert(visit_cities@.drop_last()[k] == visit_cities@[k]);
        }
        assert(visit_cities@.last() == visit_cities@[0]);
    }
    (visit_cities, cities_idx)
}

/// One selection: scans tour positions in order and remaining cities in
/// order, returning the first pair at minimal truncated distance.
fn select_insertion(visit: &Vec<City>, cities: &Vec<City>, rem: &Vec<usize>) -> (p: (usize, usize))
    requires
        all_in_bounds(cities@),
        visit.len() > 0,
        rem@.len() > 0,
        forall|k: int| 0 <= k < rem@.len() ==> (#[trigger] rem@[k]) < cities@.len(),
        forall|k: int| 0 <= k < visit@.len() ==> (#[trigger] visit@[k]).in_bounds(),
    ensures
        p.0 as int == ni_row_pick(visit@, cities@, rem@),
        p.1 as int == nn_pick(cities@, visit@[p.0 as int], rem@),
        p.0 < visit@.len(),
        p.1 < rem@.len(),
        forall|a: int|
            0 <= a < visit@.len() ==> row_min(visit@, cities@, rem@, p.0 as int)
                <= #[trigger] row_min(visit@, cities@, rem@, a),
        forall|a: int|
            0 <= a < p.0 as int ==> row_min(visit@, cities@, rem@, p.0 as int)
                < #[trigger] row_min(visit@, cities@, rem@, a),
{
    let mut bd: i64 = distance(visit[0], cities[rem[0]]);
    let mut bi: usize = 0;
    let mut bj: usize = 0;
    let mut i: usize = 0;
    while i < visit.len()
        invariant
            all_in_bounds(cities@),
            rem@.len() > 0,
            forall|k: int| 0 <= k < rem@.len() ==> (#[trigger] rem@[k]) < cities@.len(),
            forall|k: int| 0 <= k < visit@.len() ==> (#[trigger] visit@[k]).in_bounds(),
            i <= visit@.len(),
            bj < rem@.len(),
            bi < visit@.len(),
            i > 0 ==> bi < i,
            i == 0 ==> bi == 0 && bj == 0,
            bd == dist_to(cities@, visit@[bi as int], rem@[bj as int]),
            forall|a: int, b: int|
                #![trigger visit@[a], rem@[b]]
                0 <= a < i && 0 <= b < rem@.len() ==> bd <= dist_to(
                    cities@,
                    visit@[a],
                    rem@[b],
                ) || (a == 0 && b == 0),
            bd <= dist_to(cities@, visit@[0], rem@[0]),
            forall|a: int, b: int|
                #![trigger visit@[a], rem@[b]]
                0 <= a < i && 0 <= b < rem@.len() && (a < bi as int || (a == bi as int && b
                    < bj as int)) ==> bd < dist_to(cities@, visit@[a], rem@[b]),
        decreases visit@.len() - i,
    {
        let tail = visit[i];
        let mut j: usize = 0;
        while j < rem.len()
            invariant
                all_in_bounds(cities@),
                rem@.len() > 0,
                forall|k: int| 0 <= k < rem@.len() ==> (#[trigger] rem@[k]) < cities@.len(),
                forall|k: int| 0 <= k < visit@.len() ==> (#[trigger] visit@[k]).in_bounds(),
                i < visit@.len(),
                tail == visit@[i as int],
                j <= rem@.len(),
                bj < rem@.len(),
                bi < visit@.len(),
                bi <= i,
                bi == i ==> bj < j || (i == 0 && bj == 0),
                bd == dist_to(cities@, visit@[bi as int], rem@[bj as int]),
                forall|a: int, b: int|
                    #![trigger visit@[a], rem@[b]]
                    0 <= a < i && 0 <= b < rem@.len() ==> bd <= dist_to(
                        cities@,
                        visit@[a],
                        rem@[b],
                    ) || (a == 0 && b == 0),
                bd <= dist_to(cities@, visit@[0], rem@[0]),
                forall|b: int| 0 <= b < j ==> bd <= dist_to(cities@, visit@[i as int], #[trigger] rem@[b]),
                forall|a: int, b: int|
                    #![trigger visit@[a], rem@[b]]
                    0 <= a < i && 0 <= b < rem@.len() && (a < bi as int || (a == bi as int && b
                        < bj as int)) ==> bd < dist_to(cities@, visit@[a], rem@[b]),
                forall|b: int|
                    0 <= b < j && (i < bi as int || (i == bi as int && b < bj as int)) ==> bd
                        < dist_to(cities@, visit@[i as int], #[trigger] rem@[b]),
            decreases rem@.len() - j,
        {
            let d = distance(tail, cities[rem[j]]);
            if d < bd {
                bd = d;
                bi = i;
                bj = j;
            }
            j = j + 1;
        }
        i = i + 1;
    }
    proof {
        let v = visit@;
        let cs = cities@;
        let r = rem@;
        let l = v.len() as int;
        // the best distance bounds every row minimum, and is attained in
        // its own row at its own column first
        assert forall|a: int| 0 <= a < l implies row_min(v, cs, r, bi as int) <= #[trigger] row_min(
            v,
            cs,
            r,
            a,
        ) by {
            lemma_min_dist_props(cs, v[a], r);
            let w = choose|k: int|
                0 <= k < r.len() && min_dist(cs, v[a], r) == dist_to(cs, v[a], #[trigger] r[k]);
            assert(bd <= dist_to(cs, v[a], r[w]) || (a == 0 && w == 0));
            lemma_min_dist_props(cs, v[bi as int], r);
            assert(min_dist(cs, v[bi as int], r) <= dist_to(cs, v[bi as int], r[bj as int]));
            assert(bd <= min_dist(cs, v[a], r));
            assert(row_min(v, cs, r, bi as int) <= bd);
        }
        assert forall|a: int| 0 <= a < bi as int implies row_min(v, cs, r, bi as int)
            < #[trigger] row_min(v, cs, r, a) by {
            lemma_min_dist_props(cs, v[a], r);
            let w = choose|k: int|
                0 <= k < r.len() && min_dist(cs, v[a], r) == dist_to(cs, v[a], #[trigger] r[k]);
            assert(bd < dist_to(cs, v[a], r[w]));
            lemma_min_dist_props(cs, v[bi as int], r);
            assert(min_dist(cs, v[bi as int], r) <= dist_to(cs, v[bi as int], r[bj as int]));
            assert(row_min(v, cs, r, bi as int) <= bd);
        }
        lemma_first_row_is_pick(v, cs, r, bi as int);
        lemma_min_dist_props(cs, v[bi as int], r);
        assert forall|b: int| 0 <= b < r.len() implies dist_to(cs, v[bi as int], r[bj as int])
            <= dist_to(cs, v[bi as int], #[trigger] r[b]) by {
            assert(bd <= dist_to(cs, v[bi as int], r[b]) || (bi == 0 && b == 0));
        }
        assert forall|b: int| 0 <= b < bj as int implies dist_to(cs, v[bi as int], r[bj as int])
            < dist_to(cs, v[bi as int], #[trigger] r[b]) by {
            assert(bd < dist_to(cs, v[bi as int], r[b]));
        }
        lemma_first_min_is_pick(cs, v[bi as int], r, bj as int);
    }
    (bi, bj)
}

/// Nearest-insertion construction.  Returns the closed visiting sequence
/// (the start city repeated at the end) and the open sequence of visited
/// city indices, or rejects inputs too small for the three-city seed.
pub fn solver(cities: &Vec<City>) -> (r: Result<(Vec<City>, Vec<usize>), TourError>)
    requires
        all_in_bounds(cities@),
    ensures
        cities@.len() < 3 <==> r == Result::<(Vec<City>, Vec<usize>), TourError>::Err(
            TourError::TooFewCities,
        ),
        cities@.len() >= 3 ==> r matches Ok(_),
        r matches Ok(t) ==> {
            &&& t.0@ == ni_tour(cities@)
            &&& index_perm(t.1@, cities@.len())
            &&& follows_indices(t.0@.drop_last(), t.1@, cities@)
            &&& t.0@.len() == cities@.len() + 1
            &&& t.0@.last() == t.0@[0]
        },
{
    if cities.len() < 3 {
        return Err(TourError::TooFewCities);
    }
    Ok(nearest_insertion_internal(cities))
}

/// Nearest-insertion construction followed by the stand-alone randomized
/// 2-opt improvement pass over the open tour.
pub fn two_opt(cities: &Vec<City>) -> (r: Result<(Vec<City>, Vec<usize>), TourError>)
    requires
        all_in_bounds(cities@),
        cities@.len() <= crate::common::MAX_CITIES,
    ensures
        cities@.len() < 3 <==> r == Result::<(Vec<City>, Vec<usize>), TourError>::Err(
            TourError::TooFewCities,
        ),
        cities@.len() >= 3 ==> r matches Ok(_),
        r matches Ok(t) ==> {
            &&& index_perm(t.1@, cities@.len())
            &&& follows_indices(t.0@.drop_last(), t.1@, cities@)
            &&& t.0@.len() == cities@.len() + 1
            &&& t.0@.last() == t.0@[0]
            &&& crate::two_opt::loop_len(t.0@.drop_last()) <= crate::two_opt::loop_len(
                ni_tour(cities@).drop_last(),
            )
            &&& (crate::two_opt::stationary(ni_tour(cities@).drop_last()) ==> t.0@.drop_last()
                == ni_tour(cities@).drop_last())
        },
{
    match solver(cities) {
        Err(e) => Err(e),
        Ok(pair) => {
            let mut visit = pair.0;
            let mut idx = pair.1;
            let ghost closed0 = visit@;
            // the constructor pushed the start city at the tail to close
            // the cycle, so remove it before improving
            visit.pop();
            proof {
                assert(visit@ == closed0.drop_last());
                lemma_index_perm_range(idx@, cities@.len());
                assert forall|p: int| 0 <= p < visit@.len() implies (
                #[trigger] visit@[p]).in_bounds() by {
                    assert(visit@[p] == cities@[idx@[p] as int]);
                }
            }
            let improved = crate::two_opt::solver(&mut visit, &mut idx);
            proof {
                assert(follows_indices(visit@.drop_last(), idx@, cities@));
            }
            Ok(improved)
        },
    }
}

} // verus!
