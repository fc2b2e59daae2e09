//! Randomized 2-opt local search: repeatedly pick a random segment of the
//! open visiting sequence and reverse it if that shortens the cycle.

use vstd::prelude::*;
use rand::Rng;
use rand::SeedableRng;
use crate::city::{City, all_in_bounds};
use crate::common::{
    dist, distance, path_len, lemma_dist_self, lemma_path_len_concat, lemma_path_len_reverse,
    MAX_CITIES,
};
use crate::tour::follows_indices;

verus! {

/// Length of the cycle that an open visiting sequence describes: the sum
/// over consecutive pairs plus the closing edge back to the start.
pub open spec fn loop_len(s: Seq<City>) -> int {
    path_len(s) + if s.len() >= 2 {
        dist(s.last(), s[0])
    } else {
        0
    }
}

/// Appending the closing duplicate turns the cycle length into the plain
/// path length of the closed sequence.
pub proof fn lemma_loop_len_closed(s: Seq<City>)
    requires
        s.len() >= 1,
    ensures
        path_len(s.push(s[0])) == loop_len(s),
{
    assert(s.push(s[0]) =~= s + seq![s[0]]);
    lemma_path_len_concat(s, seq![s[0]]);
    if s.len() == 1 {
        lemma_dist_self(s[0]);
    }
}

/// The sequence with the segment `i..=j` reversed in place.
pub open spec fn reversed_at<T>(s: Seq<T>, i: int, j: int) -> Seq<T>
    recommends
        0 <= i <= j < s.len(),
{
    s.subrange(0, i) + s.subrange(i, j + 1).reverse() + s.subrange(j + 1, s.len() as int)
}

/// Pointwise description of the reversal.
pub proof fn lemma_reversed_at_index<T>(s: Seq<T>, i: int, j: int)
    requires
        0 <= i <= j < s.len(),
    ensures
        reversed_at(s, i, j).len() == s.len(),
        forall|k: int|
            0 <= k < s.len() ==> #[trigger] reversed_at(s, i, j)[k] == (if i <= k <= j {
                s[i + j - k]
            } else {
                s[k]
            }),
{
}

/// A reversal visits the same cities.
pub proof fn lemma_reversed_at_multiset<T>(s: Seq<T>, i: int, j: int)
    requires
        0 <= i <= j < s.len(),
    ensures
        reversed_at(s, i, j).to_multiset() == s.to_multiset(),
{
    let a = s.subrange(0, i);
    let m = s.subrange(i, j + 1);
    let c = s.subrange(j + 1, s.len() as int);
    assert(s =~= a + m + c);
    m.lemma_reverse_to_multiset();
    vstd::seq_lib::lemma_multiset_commutative(a, m.reverse());
    vstd::seq_lib::lemma_multiset_commutative(a + m.reverse(), c);
    vstd::seq_lib::lemma_multiset_commutative(a, m);
    vstd::seq_lib::lemma_multiset_commutative(a + m, c);
    assert(reversed_at(s, i, j) =~= (a + m.reverse()) + c);
    assert((a + m) + c =~= s);
    assert(reversed_at(s, i, j).to_multiset() =~= s.to_multiset());
}

/// The 2-opt exchange: reversing `i..=j` replaces the two edges around
/// the segment by the two reconnecting edges and keeps every other edge,
/// so the cycle length changes by exactly the local difference.
pub proof fn lemma_two_opt_delta(s: Seq<City>, i: int, j: int)
    requires
        0 <= i <= j < s.len(),
        !(i == 0 && j == s.len() - 1),
    ensures
        ({
            let l = s.len() as int;
            let x = if i == 0 {
                l - 1
            } else {
                i - 1
            };
            let y = if j == l - 1 {
                0int
            } else {
                j + 1
            };
            loop_len(reversed_at(s, i, j)) == loop_len(s) - dist(s[x], s[i]) - dist(s[j], s[y])
                + dist(s[x], s[j]) + dist(s[i], s[y])
        }),
{
    let l = s.len() as int;
    let a = s.subrange(0, i);
    let m = s.subrange(i, j + 1);
    let c = s.subrange(j + 1, l);
    let r = m.reverse();
    let t = reversed_at(s, i, j);
    assert(s =~= (a + m) + c);
    assert(t =~= (a + r) + c);
    lemma_path_len_reverse(m);
    lemma_path_len_concat(a, m);
    lemma_path_len_concat(a + m, c);
    lemma_path_len_concat(a, r);
    lemma_path_len_concat(a + r, c);
    assert(m[0] == s[i] && m.last() == s[j]);
    assert(r[0] == s[j] && r.last() == s[i]);
    assert(r.len() == m.len());
    if i > 0 {
        assert(a.last() == s[i - 1]);
        assert((a + m)[0] == s[0] && (a + r)[0] == s[0]);
        assert((a + m).last() == s[j] && (a + r).last() == s[i]);
        if j < l - 1 {
            assert(c[0] == s[j + 1] && c.last() == s[l - 1]);
            assert(s.last() == s[l - 1] && s[0] == s[0]);
            assert(t.last() == s[l - 1] && t[0] == s[0]);
            assert(t.len() == l);
        } else {
            assert(c.len() == 0);
            assert(t.len() == l);
            assert(t.last() == s[i]);
            assert(t[0] == s[0]);
            assert(s.last() == s[j]);
        }
    } else {
        assert(a.len() == 0);
        assert(a + m =~= m && a + r =~= r);
        if j < l - 1 {
            assert(c[0] == s[j + 1] && c.last() == s[l - 1]);
            assert(t.last() == s[l - 1]);
            assert(t[0] == s[j]);
            assert(t.len() == l);
            assert(s.last() == s[l - 1]);
        } else {
            assert(false);
        }
    }
}

/// Relies on `rand::Rng::sample_iter` with a freshly seeded
/// `rand::rngs::SmallRng` and `rand::distributions::Uniform` over
/// `0..n`: `count` pseudo-random samples, each in the given range.  The
/// range is non-empty, so building the distribution returns and every
/// sample is below `n`.
#[verifier::external_body]
fn rand_below_many(n: usize, count: usize) -> (r: Vec<usize>)
    requires
        n >= 1,
    ensures
        r@.len() == count,
        forall|i: int| 0 <= i < r@.len() ==> (#[trigger] r@[i]) < n,
{
    let rng = rand::rngs::SmallRng::from_entropy();
    let dist = rand::distributions::Uniform::from(0..n);
    rng.sample_iter(dist).take(count).collect()
}

/// Reverses `visit[i..=j]` in place, and the index sequence in lock-step.
fn reverse_segment(visit: &mut Vec<City>, cities_idx: &mut Vec<usize>, i: usize, j: usize)
    requires
        i <= j < old(visit)@.len(),
        old(cities_idx)@.len() == old(visit)@.len(),
    ensures
        final(visit)@ == reversed_at(old(visit)@, i as int, j as int),
        final(cities_idx)@ == reversed_at(old(cities_idx)@, i as int, j as int),
{
    let ghost v0 = old(visit)@;
    let ghost c0 = old(cities_idx)@;
    let ghost n = v0.len() as int;
    let mut l = i;
    let mut r = j;
    while l < r
        invariant
            i as int <= l as int,
            r as int <= j as int,
            l as int <= r as int + 1,
            l + r == i + j,
            visit@.len() == n,
            cities_idx@.len() == n,
            j < n,
            forall|k: int|
                0 <= k < n ==> #[trigger] visit@[k] == (if (i as int <= k < l as int) || ((
                r as int) < k <= j as int) {
                    v0[i + j - k]
                } else {
                    v0[k]
                }),
            forall|k: int|
                0 <= k < n ==> #[trigger] cities_idx@[k] == (if (i as int <= k < l as int) || ((
                r as int) < k <= j as int) {
                    c0[i + j - k]
                } else {
                    c0[k]
                }),
        decreases j - l,
    {
        let a = visit[l];
        let b = visit[r];
        visit.set(l, b);
        visit.set(r, a);
        let ai = cities_idx[l];
        let bi = cities_idx[r];
        cities_idx.set(l, bi);
        cities_idx.set(r, ai);
        l = l + 1;
        r = r - 1;
    }
    proof {
        lemma_reversed_at_index(v0, i as int, j as int);
        lemma_reversed_at_index(c0, i as int, j as int);
        assert forall|k: int| 0 <= k < n implies visit@[k] == reversed_at(
            v0,
            i as int,
            j as int,
        )[k] && cities_idx@[k] == reversed_at(c0, i as int, j as int)[k] by {
            let ii = i as int;
            let jj = j as int;
            let ll = l as int;
            let rr = r as int;
            assert(visit@[k] == (if (ii <= k < ll) || (rr < k <= jj) {
                v0[ii + jj - k]
            } else {
                v0[k]
            }));
            assert(cities_idx@[k] == (if (ii <= k < ll) || (rr < k <= jj) {
                c0[ii + jj - k]
            } else {
                c0[k]
            }));
            assert(reversed_at(v0, ii, jj)[k] == (if ii <= k <= jj {
                v0[ii + jj - k]
            } else {
                v0[k]
            }));
            assert(reversed_at(c0, ii, jj)[k] == (if ii <= k <= jj {
                c0[ii + jj - k]
            } else {
                c0[k]
            }));
            if ii <= k <= jj && ll <= k && k <= rr {
                assert(ll == rr && k == ll);
                assert(k == ii + jj - k);
            }
        }
        assert(visit@ =~= reversed_at(v0, i as int, j as int));
        assert(cities_idx@ =~= reversed_at(c0, i as int, j as int));
    }
}

/// Reversing `i..=j` would strictly shorten the cycle: the two
/// reconnecting edges cost less than the two current edges, and the
/// segment is not the whole tour.
pub open spec fn improves(s: Seq<City>, i: int, j: int) -> bool
    recommends
        0 <= i <= j < s.len(),
{
    let l = s.len() as int;
    let x = if i == 0 {
        l - 1
    } else {
        i - 1
    };
    let y = if j == l - 1 {
        0int
    } else {
        j + 1
    };
    x != j && y != i && dist(s[x], s[j]) + dist(s[i], s[y]) < dist(s[x], s[i]) + dist(s[j], s[y])
}

/// No segment reversal strictly shortens the cycle: the tour is a 2-opt
/// fixed point.
pub open spec fn stationary(s: Seq<City>) -> bool {
    forall|i: int, j: int| 0 <= i <= j < s.len() ==> !(#[trigger] improves(s, i, j))
}

/// One 2-opt trial on the segment `i..=j`: the reversal is applied
/// exactly when it strictly shortens the cycle and the segment is not the
/// whole tour.  When applied, the cycle length strictly decreases; when
/// not applied, the sequences are unchanged.
pub fn two_opt_step(visit: &mut Vec<City>, cities_idx: &mut Vec<usize>, i: usize, j: usize) -> (applied:
    bool)
    requires
        all_in_bounds(old(visit)@),
        old(cities_idx)@.len() == old(visit)@.len(),
        i <= j < old(visit)@.len(),
    ensures
        ({
            let s = old(visit)@;
            &&& applied == improves(s, i as int, j as int)
            &&& applied ==> {
                &&& final(visit)@ == reversed_at(s, i as int, j as int)
                &&& final(cities_idx)@ == reversed_at(old(cities_idx)@, i as int, j as int)
                &&& loop_len(final(visit)@) < loop_len(s)
            }
            &&& !applied ==> {
                &&& final(visit)@ == s
                &&& final(cities_idx)@ == old(cities_idx)@
            }
        }),
{
    let city_len = visit.len();
    // cyclic predecessor of i and successor of j
    let x = if i == 0 {
        city_len - 1
    } else {
        i - 1
    };
    let y = if j == city_len - 1 {
        0
    } else {
        j + 1
    };
    // current cost of the two edges around the segment
    let d1 = distance(visit[x], visit[i]) + distance(visit[j], visit[y]);
    // cost of the two edges after the reversal
    let d2 = distance(visit[x], visit[j]) + distance(visit[i], visit[y]);
    if d1 > d2 && x != j && y != i {
        proof {
            assert(!(i == 0 && j as int == old(visit)@.len() - 1));
            lemma_two_opt_delta(old(visit)@, i as int, j as int);
        }
        reverse_segment(visit, cities_idx, i, j);
        true
    } else {
        false
    }
}

/// Runs the given number of random 2-opt trials on the open visiting
/// sequence, reversing the index sequence in lock-step.  The cycle length
/// never increases, and the sequences stay rearrangements of the input
/// that keep cities paired with their indices.
pub fn improve_two_opt(visit: &mut Vec<City>, cities_idx: &mut Vec<usize>, iterations: u64)
    requires
        all_in_bounds(old(visit)@),
        1 <= old(visit)@.len() <= MAX_CITIES,
        old(cities_idx)@.len() == old(visit)@.len(),
    ensures
        final(visit)@.len() == old(visit)@.len(),
        final(cities_idx)@.len() == old(cities_idx)@.len(),
        all_in_bounds(final(visit)@),
        loop_len(final(visit)@) <= loop_len(old(visit)@),
        final(visit)@.to_multiset() == old(visit)@.to_multiset(),
        final(cities_idx)@.to_multiset() == old(cities_idx)@.to_multiset(),
        stationary(old(visit)@) ==> final(visit)@ == old(visit)@ && final(cities_idx)@ == old(
            cities_idx,
        )@,
        forall|cs: Seq<City>|
            follows_indices(old(visit)@, old(cities_idx)@, cs) ==> #[trigger] follows_indices(
                final(visit)@,
                final(cities_idx)@,
                cs,
            ),
{
    let ghost v0 = old(visit)@;
    let ghost c0 = old(cities_idx)@;
    let city_len = visit.len();
    let mut samples: Vec<usize> = Vec::new();
    let mut n: u64 = iterations;
    while n > 0
        invariant
            all_in_bounds(visit@),
            city_len == visit@.len(),
            visit@.len() == v0.len(),
            cities_idx@.len() == c0.len(),
            c0.len() == v0.len(),
            1 <= v0.len() <= MAX_CITIES,
            loop_len(visit@) <= loop_len(v0),
            visit@.to_multiset() == v0.to_multiset(),
            cities_idx@.to_multiset() == c0.to_multiset(),
            stationary(v0) ==> visit@ == v0 && cities_idx@ == c0,
            forall|k: int| 0 <= k < samples@.len() ==> (#[trigger] samples@[k]) < city_len,
            forall|cs: Seq<City>|
                follows_indices(v0, c0, cs) ==> #[trigger] follows_indices(
                    visit@,
                    cities_idx@,
                    cs,
                ),
        decreases n,
    {
        if samples.len() < 2 {
            samples = rand_below_many(city_len, 4096);
        }
        let ghost samples0 = samples@;
        let oi = samples.pop();
        let oj = samples.pop();
        let mut i = match oi {
            Some(v) => v,
            None => 0,
        };
        let mut j = match oj {
            Some(v) => v,
            None => 0,
        };
        proof {
            assert(samples0[samples0.len() - 1] < city_len);
            assert(samples0.drop_last()[samples0.len() - 2] < city_len);
            assert forall|k: int| 0 <= k < samples@.len() implies (#[trigger] samples@[k])
                < city_len by {
                assert(samples@[k] == samples0[k]);
            }
        }
        if i > j {
            let tmp = i;
            i = j;
            j = tmp;
        }
        let ghost v_before = visit@;
        let ghost c_before = cities_idx@;
        let applied = two_opt_step(visit, cities_idx, i, j);
        proof {
            if stationary(v0) {
                assert(!improves(v0, i as int, j as int));
                assert(!applied);
            }
            if applied {
                lemma_reversed_at_index(v_before, i as int, j as int);
                lemma_reversed_at_index(c_before, i as int, j as int);
                lemma_reversed_at_multiset(v_before, i as int, j as int);
                lemma_reversed_at_multiset(c_before, i as int, j as int);
                assert forall|k: int| 0 <= k < visit@.len() implies #[trigger] visit@[k].in_bounds() by {
                    if i as int <= k <= j as int {
                        assert(visit@[k] == v_before[i + j - k]);
                    } else {
                        assert(visit@[k] == v_before[k]);
                    }
                }
                assert forall|cs: Seq<City>|
                    follows_indices(v0, c0, cs) implies #[trigger] follows_indices(
                    visit@,
                    cities_idx@,
                    cs,
                ) by {
                    assert(follows_indices(v_before, c_before, cs));
                    assert forall|k: int| 0 <= k < cities_idx@.len() implies (#[trigger] cities_idx@[k])
                        < cs.len() && visit@[k] == cs[cities_idx@[k] as int] by {
                        if i as int <= k <= j as int {
                            assert(cities_idx@[k] == c_before[i + j - k]);
                            assert(visit@[k] == v_before[i + j - k]);
                        } else {
                            assert(cities_idx@[k] == c_before[k]);
                            assert(visit@[k] == v_before[k]);
                        }
                    }
                }
            }
        }
        n = n - 1;
    }
}

/// Stand-alone 2-opt improvement with the full iteration budget: improves
/// the open tour in place, then appends the closing duplicate of the
/// start city and returns both sequences.
pub fn solver(visit_cities: &mut Vec<City>, cities_idx: &mut Vec<usize>) -> (r: (
    Vec<City>,
    Vec<usize>,
))
    requires
        all_in_bounds(old(visit_cities)@),
        1 <= old(visit_cities)@.len() <= MAX_CITIES,
        old(cities_idx)@.len() == old(visit_cities)@.len(),
    ensures
        ({
            let t = final(visit_cities)@.drop_last();
            &&& final(visit_cities)@.len() == old(visit_cities)@.len() + 1
            &&& final(cities_idx)@.len() == old(cities_idx)@.len()
            &&& final(visit_cities)@.last() == t[0]
            &&& all_in_bounds(final(visit_cities)@)
            &&& loop_len(t) <= loop_len(old(visit_cities)@)
            &&& t.to_multiset() == old(visit_cities)@.to_multiset()
            &&& final(cities_idx)@.to_multiset() == old(cities_idx)@.to_multiset()
            &&& forall|cs: Seq<City>|
                follows_indices(old(visit_cities)@, old(cities_idx)@, cs)
                    ==> #[trigger] follows_indices(t, final(cities_idx)@, cs)
            &&& (stationary(old(visit_cities)@) ==> final(visit_cities)@ == old(
                visit_cities,
            )@.push(old(visit_cities)@[0]) && final(cities_idx)@ == old(cities_idx)@)
            &&& r.0@ == final(visit_cities)@
            &&& r.1@ == final(cities_idx)@
        }),
{
    improve_two_opt(visit_cities, cities_idx, 10_000_000);
    let ghost improved = visit_cities@;
    // connect start and end city to make a cycle
    let first = visit_cities[0];
    visit_cities.push(first);
    proof {
        assert(visit_cities@.drop_last() =~= improved);
    }
    let rv = visit_cities.clone();
    let ri = cities_idx.clone();
    (rv, ri)
}

} // verus!
