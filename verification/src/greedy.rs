//! Greedy-edge construction: accept city pairs in ascending distance
//! order, refusing any edge that would close a premature sub-cycle or
//! give an endpoint more than two incident edges, then stitch the
//! accepted edges into a closed visiting sequence.

use vstd::prelude::*;
use vstd::multiset::Multiset;
use crate::city::{City, all_in_bounds};
use crate::common::{dist, distance, lemma_dist_symmetric, MAX_CITIES};
use crate::tour::{TourError, index_perm, follows_indices, lemma_index_perm_range, check_closed_tour};
use crate::unionfind::{UnionFind, joined};

verus! {

/// Candidate edges are ordered by distance, ties broken by enumeration
/// order, which lists the pairs in lexicographic index order.
pub open spec fn edge_le(a: (i64, usize, usize), b: (i64, usize, usize)) -> bool {
    a.0 < b.0 || (a.0 == b.0 && (a.1 < b.1 || (a.1 == b.1 && a.2 <= b.2)))
}

pub open spec fn sorted_edges(s: Seq<(i64, usize, usize)>) -> bool {
    forall|p: int, q: int| 0 <= p < q < s.len() ==> edge_le(#[trigger] s[p], #[trigger] s[q])
}

/// A well-formed candidate: two distinct city indices in ascending order
/// and their truncated distance.
pub open spec fn edge_ok(e: (i64, usize, usize), cities: Seq<City>) -> bool {
    &&& (e.1 as int) < cities.len()
    &&& (e.2 as int) < cities.len()
    &&& e.1 < e.2
    &&& e.0 == dist(cities[e.1 as int], cities[e.2 as int])
}

/// The candidate list holds the pair `(a, b)` somewhere.
pub open spec fn has_pair(edges: Seq<(i64, usize, usize)>, a: int, b: int) -> bool {
    exists|k: int| 0 <= k < edges.len() && (#[trigger] edges[k]).1 == a && edges[k].2 == b
}

/// Number of accepted edges incident to city `c`.
pub open spec fn degree(edges: Seq<(usize, usize)>, c: usize) -> nat
    decreases edges.len(),
{
    if edges.len() == 0 {
        0
    } else {
        degree(edges.drop_last(), c) + (if edges.last().0 == c {
            1nat
        } else {
            0nat
        }) + (if edges.last().1 == c {
            1nat
        } else {
            0nat
        })
    }
}

/// The candidate the enumeration produces for the pair `(i, j)`.
pub open spec fn candidate_of(cities: Seq<City>, i: int, j: int) -> (i64, usize, usize) {
    (dist(cities[i], cities[j]) as i64, i as usize, j as usize)
}

/// The candidates of row `i` from column `j` on.
pub open spec fn row_from(cities: Seq<City>, i: int, j: int) -> Seq<(i64, usize, usize)> {
    Seq::new((cities.len() - j) as nat, |t: int| candidate_of(cities, i, j + t))
}

/// The candidates from row `i` on, in enumeration order.
pub open spec fn rows_from(cities: Seq<City>, i: int) -> Seq<(i64, usize, usize)>
    decreases cities.len() - i,
{
    if i < 0 || i >= cities.len() {
        Seq::empty()
    } else {
        row_from(cities, i, i + 1) + rows_from(cities, i + 1)
    }
}

/// Every unordered city pair with its truncated distance, in
/// enumeration order.
pub open spec fn candidate_edges(cities: Seq<City>) -> Seq<(i64, usize, usize)> {
    rows_from(cities, 0)
}

/// The candidate order as a relation.
pub open spec fn edge_leq() -> spec_fn((i64, usize, usize), (i64, usize, usize)) -> bool {
    |a: (i64, usize, usize), b: (i64, usize, usize)| edge_le(a, b)
}

/// The candidate order is a total order.
pub proof fn lemma_edge_le_total()
    ensures
        vstd::relations::total_ordering(edge_leq()),
{
    let r = edge_leq();
    assert forall|a: (i64, usize, usize)| #[trigger] r(a, a) by {}
    assert forall|a: (i64, usize, usize), b: (i64, usize, usize)| #[trigger]
        r(a, b) && #[trigger] r(b, a) implies a == b by {}
    assert forall|a: (i64, usize, usize), b: (i64, usize, usize), c: (i64, usize, usize)| #[trigger]
        r(a, b) && #[trigger] r(b, c) implies r(a, c) by {}
    assert forall|a: (i64, usize, usize), b: (i64, usize, usize)| #[trigger]
        r(a, b) || #[trigger] r(b, a) by {}
}

/// The greedy sweep over a candidate list: each candidate in turn is
/// accepted exactly when its endpoints are in different components of
/// the accepted edges so far and neither endpoint has two incident
/// accepted edges.
pub open spec fn sweep_from(
    acc: Seq<(usize, usize)>,
    edges: Seq<(i64, usize, usize)>,
) -> Seq<(usize, usize)>
    decreases edges.len(),
{
    if edges.len() == 0 {
        acc
    } else {
        let e = edges[0];
        let rest = edges.drop_first();
        if !joined(acc, e.1 as int, e.2 as int) && degree(acc, e.1) < 2 && degree(acc, e.2) < 2 {
            sweep_from(acc.push((e.1, e.2)), rest)
        } else {
            sweep_from(acc, rest)
        }
    }
}

/// The edges greedy construction accepts before the closing edge: the
/// sweep over all candidates in ascending order.
pub open spec fn greedy_accepted(cities: Seq<City>) -> Seq<(usize, usize)> {
    sweep_from(Seq::empty(), candidate_edges(cities).sort_by(edge_leq()))
}

/// The cities with exactly one accepted edge, in ascending order, among
/// the first `c` city indices.
pub open spec fn ends_upto(cities: Seq<City>, c: int) -> Seq<usize>
    recommends
        0 <= c,
{
    Seq::new(c as nat, |i: int| i as usize).filter(
        |x: usize| degree(greedy_accepted(cities), x) == 1,
    )
}

/// The cities left with exactly one accepted edge after the sweep: the
/// free ends of the remaining path.
pub open spec fn loose_ends(cities: Seq<City>) -> Seq<usize> {
    ends_upto(cities, cities.len() as int)
}

/// The full greedy edge set: the accepted edges plus the closing edge
/// between the two remaining path ends, if any remain.
pub open spec fn greedy_closed_edges(cities: Seq<City>) -> Seq<(usize, usize)> {
    let acc = greedy_accepted(cities);
    let ends = loose_ends(cities);
    if ends.len() == 0 {
        acc
    } else {
        acc.push((ends[0], ends[1]))
    }
}

proof fn lemma_ends_upto_step(cities: Seq<City>, c: int)
    requires
        0 <= c,
    ensures
        ends_upto(cities, c + 1) == (if degree(greedy_accepted(cities), c as usize) == 1 {
            ends_upto(cities, c).push(c as usize)
        } else {
            ends_upto(cities, c)
        }),
{
    reveal(Seq::filter);
    let big = Seq::new((c + 1) as nat, |i: int| i as usize);
    assert(big.drop_last() =~= Seq::new(c as nat, |i: int| i as usize));
    assert(big.last() == c as usize);
}

/// Overwriting one element exchanges it in the multiset.
proof fn lemma_update_multiset<T>(s: Seq<T>, i: int, x: T)
    requires
        0 <= i < s.len(),
    ensures
        s.update(i, x).to_multiset() == s.to_multiset().remove(s[i]).insert(x),
{
    broadcast use vstd::seq_lib::group_to_multiset_ensures;
    broadcast use vstd::multiset::group_multiset_axioms;

    let s2 = s.update(i, x);
    assert(s2.remove(i) =~= s.remove(i));
    assert(s.remove(i).to_multiset() =~= s.to_multiset().remove(s[i]));
    assert(s2.remove(i).to_multiset() =~= s2.to_multiset().remove(s2[i]));
    assert(s2[i] == x);
    assert(s2.contains(x));
    assert(s2.to_multiset().count(x) > 0);
    assert(s.contains(s[i]));
    assert(s.to_multiset().count(s[i]) > 0);
    assert(s2.to_multiset() =~= s.to_multiset().remove(s[i]).insert(x));
}

/// Swapping two elements keeps the multiset.
proof fn lemma_swap_multiset<T>(s: Seq<T>, a: int, b: int)
    requires
        0 <= a < b < s.len(),
    ensures
        s.update(a, s[b]).update(b, s[a]).to_multiset() == s.to_multiset(),
{
    broadcast use vstd::seq_lib::group_to_multiset_ensures;
    broadcast use vstd::multiset::group_multiset_axioms;

    lemma_update_multiset(s, a, s[b]);
    let m1 = s.update(a, s[b]);
    assert(m1[b] == s[b]);
    lemma_update_multiset(m1, b, s[a]);
    assert(s.contains(s[a]));
    assert(s.to_multiset().count(s[a]) > 0);
    assert(m1.update(b, s[a]).to_multiset() =~= s.to_multiset());
}

/// Two candidate lists sorted by the same total order and holding the
/// same candidates are the same list.
proof fn lemma_sorted_edges_unique(s: Seq<(i64, usize, usize)>, t: Seq<(i64, usize, usize)>)
    requires
        sorted_edges(s),
        sorted_edges(t),
        s.to_multiset() == t.to_multiset(),
    ensures
        s == t,
    decreases s.len(),
{
    broadcast use vstd::seq_lib::group_to_multiset_ensures;
    broadcast use vstd::multiset::group_multiset_axioms;

    assert(s.len() == s.to_multiset().len());
    assert(t.len() == t.to_multiset().len());
    if s.len() == 0 {
        assert(s =~= t);
    } else {
        assert(s.contains(s[0]));
        assert(t.to_multiset().count(s[0]) > 0);
        assert(t.contains(s[0]));
        let w = choose|w: int| 0 <= w < t.len() && t[w] == s[0];
        assert(w == 0 || edge_le(t[0], t[w]));
        assert(t.contains(t[0]));
        assert(s.to_multiset().count(t[0]) > 0);
        assert(s.contains(t[0]));
        let v = choose|v: int| 0 <= v < s.len() && s[v] == t[0];
        assert(v == 0 || edge_le(s[0], s[v]));
        assert(s[0] == t[0]);
        let s1 = s.drop_first();
        let t1 = t.drop_first();
        assert(s.remove(0) =~= s1);
        assert(t.remove(0) =~= t1);
        assert(s.remove(0).to_multiset() =~= s.to_multiset().remove(s[0]));
        assert(t.remove(0).to_multiset() =~= t.to_multiset().remove(t[0]));
        assert(s1.to_multiset() == t1.to_multiset());
        assert forall|p: int, q: int| 0 <= p < q < s1.len() implies edge_le(
            #[trigger] s1[p],
            #[trigger] s1[q],
        ) by {
            assert(s1[p] == s[p + 1] && s1[q] == s[q + 1]);
        }
        assert forall|p: int, q: int| 0 <= p < q < t1.len() implies edge_le(
            #[trigger] t1[p],
            #[trigger] t1[q],
        ) by {
            assert(t1[p] == t[p + 1] && t1[q] == t[q + 1]);
        }
        lemma_sorted_edges_unique(s1, t1);
        assert forall|k: int| 0 <= k < s.len() implies s[k] == t[k] by {
            if k > 0 {
                assert(s[k] == s1[k - 1] && t[k] == t1[k - 1]);
            }
        }
        assert(s =~= t);
    }
}

/// Swapping two elements keeps exactly the same elements present.
proof fn lemma_swap_contains<T>(s: Seq<T>, a: int, b: int)
    requires
        0 <= a < s.len(),
        0 <= b < s.len(),
    ensures
        forall|x: T|
            #[trigger] s.update(a, s[b]).update(b, s[a]).contains(x) <==> s.contains(x),
{
    let s2 = s.update(a, s[b]).update(b, s[a]);
    assert forall|x: T| #[trigger] s2.contains(x) <==> s.contains(x) by {
        if s.contains(x) {
            let w = choose|w: int| 0 <= w < s.len() && s[w] == x;
            if w == a {
                assert(s2[b] == x);
            } else if w == b {
                assert(s2[a] == x);
            } else {
                assert(s2[w] == x);
            }
            assert(s2.contains(x));
        }
        if s2.contains(x) {
            let w = choose|w: int| 0 <= w < s2.len() && s2[w] == x;
            if w == b {
                assert(s[a] == x);
            } else if w == a {
                assert(s[b] == x);
            } else {
                assert(s[w] == x);
            }
            assert(s.contains(x));
        }
    }
}

fn edge_less(a: (i64, usize, usize), b: (i64, usize, usize)) -> (r: bool)
    ensures
        r == !edge_le(b, a),
{
    a.0 < b.0 || (a.0 == b.0 && (a.1 < b.1 || (a.1 == b.1 && a.2 < b.2)))
}

/// Sorts the candidates ascending by distance, ties by enumeration
/// order.  All keys are distinct, so the sorted order is unique and the
/// stable tie-break of the enumeration order is preserved by construction.
fn sort_edges(v: &mut Vec<(i64, usize, usize)>)
    ensures
        final(v)@.len() == old(v)@.len(),
        sorted_edges(final(v)@),
        final(v)@.to_multiset() == old(v)@.to_multiset(),
        forall|x: (i64, usize, usize)| #[trigger] final(v)@.contains(x) <==> old(v)@.contains(x),
{
    let n = v.len();
    if n < 2 {
        return;
    }
    let ghost v0 = old(v)@;
    let mut i: usize = 1;
    while i < n
        invariant
            1 <= i <= n,
            n == v@.len(),
            sorted_edges(v@.take(i as int)),
            v@.to_multiset() == v0.to_multiset(),
            forall|x: (i64, usize, usize)| #[trigger] v@.contains(x) <==> v0.contains(x),
        decreases n - i,
    {
        proof {
            assert forall|p: int, q: int|
                0 <= p < q <= i as int && q != i as int implies edge_le(
                #[trigger] v@[p],
                #[trigger] v@[q],
            ) by {
                assert(v@.take(i as int)[p] == v@[p] && v@.take(i as int)[q] == v@[q]);
            }
        }
        let mut k = i;
        while k > 0 && edge_less(v[k], v[k - 1])
            invariant
                k <= i < n,
                n == v@.len(),
                forall|p: int, q: int|
                    0 <= p < q <= i as int && q != k as int ==> edge_le(
                        #[trigger] v@[p],
                        #[trigger] v@[q],
                    ),
                v@.to_multiset() == v0.to_multiset(),
                forall|x: (i64, usize, usize)| #[trigger] v@.contains(x) <==> v0.contains(x),
            decreases k,
        {
            let ghost before = v@;
            let x = v[k];
            let y = v[k - 1];
            proof {
                lemma_swap_contains(before, k - 1, k as int);
                lemma_swap_multiset(before, k - 1, k as int);
            }
            v.set(k - 1, x);
            v.set(k, y);
            proof {
                assert(v@ =~= before.update(k - 1, before[k as int]).update(
                    k as int,
                    before[k - 1],
                ));
            }
            k = k - 1;
        }
        proof {
            assert forall|p: int, q: int|
                0 <= p < q <= i as int implies edge_le(#[trigger] v@[p], #[trigger] v@[q]) by {
                if q == k as int {
                    assert(k > 0);
                    assert(edge_le(v@[k - 1], v@[k as int]));
                    if p < k - 1 {
                        assert(edge_le(v@[p], v@[k - 1]));
                    }
                }
            }
            assert forall|p: int, q: int|
                0 <= p < q < i + 1 implies edge_le(
                #[trigger] v@.take(i + 1)[p],
                #[trigger] v@.take(i + 1)[q],
            ) by {
                assert(v@.take(i + 1)[p] == v@[p] && v@.take(i + 1)[q] == v@[q]);
            }
        }
        i = i + 1;
    }
    proof {
        assert(v@.take(n as int) =~= v@);
    }
}

/// Lists every unordered city pair with its truncated distance, in
/// lexicographic index order.
fn enumerate_edges(cities: &Vec<City>) -> (edges: Vec<(i64, usize, usize)>)
    requires
        all_in_bounds(cities@),
        cities@.len() <= MAX_CITIES,
    ensures
        edges@ == candidate_edges(cities@),
        forall|k: int| 0 <= k < edges@.len() ==> edge_ok(#[trigger] edges@[k], cities@),
        forall|a: int, b: int|
            0 <= a < b < cities@.len() ==> #[trigger] has_pair(edges@, a, b),
{
    let n = cities.len();
    let mut edges: Vec<(i64, usize, usize)> = Vec::new();
    let mut i: usize = 0;
    while i < n
        invariant
            i <= n,
            n == cities@.len() <= MAX_CITIES,
            all_in_bounds(cities@),
            edges@ + rows_from(cities@, i as int) == candidate_edges(cities@),
            forall|k: int| 0 <= k < edges@.len() ==> edge_ok(#[trigger] edges@[k], cities@),
            forall|a: int, b: int|
                0 <= a < b < n && a < i as int ==> #[trigger] has_pair(edges@, a, b),
        decreases n - i,
    {
        let mut j: usize = i + 1;
        proof {
            assert(rows_from(cities@, i as int) == row_from(cities@, i as int, i + 1) + rows_from(
                cities@,
                i + 1,
            ));
            assert(edges@ + rows_from(cities@, i as int) =~= edges@ + row_from(
                cities@,
                i as int,
                i + 1,
            ) + rows_from(cities@, i + 1));
        }
        while j < n
            invariant
                i < j <= n,
                i < n,
                n == cities@.len() <= MAX_CITIES,
                all_in_bounds(cities@),
                edges@ + row_from(cities@, i as int, j as int) + rows_from(cities@, i + 1)
                    == candidate_edges(cities@),
                forall|k: int| 0 <= k < edges@.len() ==> edge_ok(#[trigger] edges@[k], cities@),
                forall|a: int, b: int|
                    0 <= a < b < n && a < i as int ==> #[trigger] has_pair(edges@, a, b),
                forall|b: int| (i as int) < b < j as int ==> #[trigger] has_pair(edges@, i as int, b),
            decreases n - j,
        {
            let ghost before = edges@;
            let d = distance(cities[i], cities[j]);
            edges.push((d, i, j));
            proof {
                assert(row_from(cities@, i as int, j as int) =~= seq![
                    candidate_of(cities@, i as int, j as int),
                ] + row_from(cities@, i as int, j + 1));
                assert((d, i, j) == candidate_of(cities@, i as int, j as int));
                assert(edges@ + row_from(cities@, i as int, j + 1) + rows_from(cities@, i + 1)
                    =~= before + row_from(cities@, i as int, j as int) + rows_from(
                    cities@,
                    i + 1,
                ));
            }
            proof {
                assert(edges@[before.len() as int] == (d, i, j));
                assert forall|a: int, b: int|
                    0 <= a < b < n && (a < i as int || (a == i as int && b <= j as int)) implies #[trigger] has_pair(
                    edges@,
                    a,
                    b,
                ) by {
                    if a < i as int || b < j as int {
                        assert(has_pair(before, a, b));
                        let w = choose|k: int|
                            0 <= k < before.len() && (#[trigger] before[k]).1 == a && before[k].2
                                == b;
                        assert(edges@[w] == before[w]);
                        assert(has_pair(edges@, a, b));
                    } else {
                        assert(a == i as int && b == j as int);
                        assert(has_pair(edges@, a, b));
                    }
                }
            }
            j = j + 1;
        }
        proof {
            assert(row_from(cities@, i as int, n as int).len() == 0);
            assert(edges@ + rows_from(cities@, i + 1) =~= edges@ + row_from(
                cities@,
                i as int,
                n as int,
            ) + rows_from(cities@, i + 1));
        }
        i = i + 1;
    }
    proof {
        assert(rows_from(cities@, n as int).len() == 0);
        assert(edges@ =~= edges@ + rows_from(cities@, n as int));
    }
    edges
}

/// An accepted edge: two distinct city indices below `n`.
pub open spec fn pair_ok(p: (usize, usize), n: int) -> bool {
    (p.0 as int) < n && (p.1 as int) < n && p.0 != p.1
}

/// Connectivity relates every index to itself.
proof fn lemma_joined_refl(h: Seq<(usize, usize)>, x: int)
    ensures
        joined(h, x, x),
    decreases h.len(),
{
    if h.len() > 0 {
        lemma_joined_refl(h.drop_last(), x);
    }
}

/// Connectivity only grows as edges are accepted.
proof fn lemma_joined_push(h: Seq<(usize, usize)>, p: (usize, usize), x: int, y: int)
    requires
        joined(h, x, y),
    ensures
        joined(h.push(p), x, y),
{
    assert(h.push(p).drop_last() =~= h);
    assert(h.push(p).last() == p);
}

/// Degrees only grow during the sweep, so a degree bound on the final
/// edge set bounds the degree at every point of the construction.
pub proof fn lemma_degree_prefix_le(edges: Seq<(usize, usize)>, k: int, c: usize)
    requires
        0 <= k <= edges.len(),
    ensures
        degree(edges.take(k), c) <= degree(edges, c),
    decreases edges.len(),
{
    if k == edges.len() {
        assert(edges.take(k) =~= edges);
    } else {
        assert(edges.take(k) =~= edges.drop_last().take(k));
        lemma_degree_prefix_le(edges.drop_last(), k, c);
    }
}

/// Accepting an edge raises the degree of its endpoints by one.
proof fn lemma_degree_push(edges: Seq<(usize, usize)>, e: (usize, usize), c: usize)
    ensures
        degree(edges.push(e), c) == degree(edges, c) + (if e.0 == c {
            1nat
        } else {
            0nat
        }) + (if e.1 == c {
            1nat
        } else {
            0nat
        }),
{
    assert(edges.push(e).drop_last() =~= edges);
    assert(edges.push(e).last() == e);
}

/// Accepting the edge `(a, b)` updates exactly the two endpoint
/// degrees, which stay within the bound.
proof fn lemma_accept_degrees(
    con0: Seq<(usize, usize)>,
    cnt0: Seq<usize>,
    count2: Seq<usize>,
    a: usize,
    b: usize,
    n: int,
    c: int,
)
    requires
        n <= usize::MAX,
        a != b,
        (a as int) < n,
        (b as int) < n,
        cnt0.len() == n,
        cnt0[a as int] < 2,
        cnt0[b as int] < 2,
        count2 == cnt0.update(a as int, (cnt0[a as int] + 1) as usize).update(
            b as int,
            (cnt0[b as int] + 1) as usize,
        ),
        0 <= c < n,
        forall|p: int|
            0 <= p < n ==> #[trigger] cnt0[p] == degree(con0, p as usize) && degree(
                con0,
                p as usize,
            ) <= 2,
    ensures
        count2[c] == degree(con0.push((a, b)), c as usize),
        degree(con0.push((a, b)), c as usize) <= 2,
{
    lemma_degree_push(con0, (a, b), c as usize);
    assert(cnt0[c] == degree(con0, c as usize));
    if c == a as int {
        assert(count2[c] == cnt0[a as int] + 1);
        assert(b != c as usize);
    } else if c == b as int {
        assert(count2[c] == cnt0[b as int] + 1);
        assert(a != c as usize);
    } else {
        assert(count2[c] == cnt0[c]);
        assert(a != c as usize && b != c as usize);
    }
}

/// The greedy sweep: scans all city pairs in ascending distance order
/// and accepts an edge only if its endpoints are in different components
/// and neither endpoint already has two incident edges.  Returns the
/// accepted edges and the final per-city degrees.
///
/// The result is exactly `greedy_accepted`: the sweep over all
/// candidates in ascending order.  The contract also carries the
/// acceptance invariants: no city's degree ever exceeds two, no accepted
/// edge connects two already-connected cities, and the sweep is maximal:
/// any pair left unconnected has a saturated endpoint.
#[verifier::rlimit(60)]
pub fn greedy_sweep(cities: &Vec<City>) -> (r: (Vec<(usize, usize)>, Vec<usize>))
    requires
        all_in_bounds(cities@),
        cities@.len() <= MAX_CITIES,
    ensures
        r.0@ == greedy_accepted(cities@),
        r.1@.len() == cities@.len(),
        forall|c: int|
            0 <= c < cities@.len() ==> #[trigger] r.1@[c] == degree(r.0@, c as usize) && degree(
                r.0@,
                c as usize,
            ) <= 2,
        forall|k: int| 0 <= k < r.0@.len() ==> pair_ok(#[trigger] r.0@[k], cities@.len() as int),
        forall|k: int|
            0 <= k < r.0@.len() ==> !joined(
                r.0@.take(k),
                (#[trigger] r.0@[k]).0 as int,
                r.0@[k].1 as int,
            ),
        forall|a: int, b: int|
            0 <= a < b < cities@.len() ==> #[trigger] joined(r.0@, a, b) || degree(
                r.0@,
                a as usize,
            ) == 2 || degree(r.0@, b as usize) == 2,
{
    let ghost n = cities@.len() as int;
    let n_usize = cities.len();
    proof {
        assert(n == n_usize as int);
    }
    let mut edges = enumerate_edges(cities);
    let ghost enumerated = edges@;
    sort_edges(&mut edges);
    proof {
        lemma_edge_le_total();
        candidate_edges(cities@).lemma_sort_by_ensures(edge_leq());
        let ss = candidate_edges(cities@).sort_by(edge_leq());
        assert forall|p: int, q: int| 0 <= p < q < ss.len() implies edge_le(
            #[trigger] ss[p],
            #[trigger] ss[q],
        ) by {
            assert(edge_leq()(ss[p], ss[q]));
        }
        lemma_sorted_edges_unique(edges@, ss);
        assert(edges@ == ss);
    }
    proof {
        assert forall|k: int| 0 <= k < edges@.len() implies edge_ok(
            #[trigger] edges@[k],
            cities@,
        ) by {
            assert(edges@.contains(edges@[k]));
            assert(enumerated.contains(edges@[k]));
            let w = choose|w: int| 0 <= w < enumerated.len() && enumerated[w] == edges@[k];
            assert(edge_ok(enumerated[w], cities@));
        }
        assert forall|a: int, b: int| 0 <= a < b < n implies #[trigger] has_pair(
            edges@,
            a,
            b,
        ) by {
            assert(has_pair(enumerated, a, b));
            let w = choose|w: int|
                0 <= w < enumerated.len() && (#[trigger] enumerated[w]).1 == a && enumerated[w].2
                    == b;
            assert(enumerated.contains(enumerated[w]));
            assert(edges@.contains(enumerated[w]));
            let w2 = choose|w2: int| 0 <= w2 < edges@.len() && edges@[w2] == enumerated[w];
            assert((edges@[w2]).1 == a && edges@[w2].2 == b);
        }
    }

    let mut connected: Vec<(usize, usize)> = Vec::new();
    let mut count: Vec<usize> = Vec::new();
    let mut c0: usize = 0;
    while c0 < cities.len()
        invariant
            c0 <= cities@.len(),
            count@.len() == c0,
            forall|c: int| 0 <= c < c0 ==> #[trigger] count@[c] == 0,
        decreases cities@.len() - c0,
    {
        count.push(0);
        c0 = c0 + 1;
    }
    let mut uf = UnionFind::new(cities.len());
    let mut e: usize = 0;
    proof {
        assert(edges@.skip(0) =~= edges@);
    }
    while e < edges.len()
        invariant
            n == cities@.len(),
            n <= usize::MAX as int,
            sweep_from(connected@, edges@.skip(e as int)) == greedy_accepted(cities@),
            uf.wf(),
            uf.len() == n,
            uf.history() == connected@,
            count@.len() == n,
            forall|k: int| 0 <= k < edges@.len() ==> edge_ok(#[trigger] edges@[k], cities@),
            e <= edges@.len(),
            forall|c: int| 0 <= c < n ==> #[trigger] count@[c] == degree(connected@, c as usize),
            forall|c: int| 0 <= c < n ==> #[trigger] degree(connected@, c as usize) <= 2,
            forall|k: int|
                0 <= k < connected@.len() ==> pair_ok(#[trigger] connected@[k], n),
            forall|k: int|
                0 <= k < connected@.len() ==> !joined(
                    connected@.take(k),
                    (#[trigger] connected@[k]).0 as int,
                    connected@[k].1 as int,
                ),
            forall|k: int|
                0 <= k < e ==> joined(
                    connected@,
                    (#[trigger] edges@[k]).1 as int,
                    edges@[k].2 as int,
                ) || degree(connected@, edges@[k].1) == 2 || degree(connected@, edges@[k].2)
                    == 2,
        decreases edges@.len() - e,
    {
        let ed = edges[e];
        let a = ed.1;
        let b = ed.2;
        proof {
            assert(edge_ok(edges@[e as int], cities@));
            assert(a < b);
        }
        let sm = uf.same(a, b);
        proof {
            uf.lemma_same_iff_history(a as int, b as int);
        }
        if !sm && count[a] < 2 && count[b] < 2 {
            let ghost con0 = connected@;
            let ghost cnt0 = count@;
            connected.push((a, b));
            let ca = count[a];
            let cb = count[b];
            count.set(a, ca + 1);
            count.set(b, cb + 1);
            uf.unite(a, b);
            proof {
                assert(connected@ =~= con0.push((a, b)));
                assert(connected@.take(con0.len() as int) =~= con0);
                assert(count@ =~= cnt0.update(a as int, (ca + 1) as usize).update(
                    b as int,
                    (cb + 1) as usize,
                ));
                assert forall|c: int|
                    0 <= c < n implies #[trigger] count@[c] == degree(connected@, c as usize) by {
                    lemma_accept_degrees(con0, cnt0, count@, a, b, n, c);
                }
                assert forall|c: int|
                    0 <= c < n implies #[trigger] degree(connected@, c as usize) <= 2 by {
                    lemma_accept_degrees(con0, cnt0, count@, a, b, n, c);
                }
                assert forall|k: int|
                    0 <= k < connected@.len() implies !joined(
                    connected@.take(k),
                    (#[trigger] connected@[k]).0 as int,
                    connected@[k].1 as int,
                ) by {
                    if k < con0.len() {
                        assert(connected@.take(k) =~= con0.take(k));
                        assert(connected@[k] == con0[k]);
                    }
                }
                assert forall|k: int|
                    0 <= k <= e as int implies joined(
                    connected@,
                    (#[trigger] edges@[k]).1 as int,
                    edges@[k].2 as int,
                ) || degree(connected@, edges@[k].1) == 2 || degree(connected@, edges@[k].2)
                    == 2 by {
                    if k < e as int {
                        let x = edges@[k].1;
                        let y = edges@[k].2;
                        lemma_degree_push(con0, (a, b), x);
                        lemma_degree_push(con0, (a, b), y);
                        if joined(con0, x as int, y as int) {
                            lemma_joined_push(con0, (a, b), x as int, y as int);
                        }
                    } else {
                        lemma_joined_refl(con0, a as int);
                        lemma_joined_refl(con0, b as int);
                        assert(connected@.drop_last() =~= con0);
                        assert(connected@.last() == (a, b));
                        assert(joined(connected@, a as int, b as int));
                    }
                }
                assert(edges@.skip(e as int).drop_first() =~= edges@.skip(e as int + 1));
                assert(edges@.skip(e as int)[0] == edges@[e as int]);
                assert(!joined(con0, a as int, b as int) && degree(con0, a) < 2 && degree(
                    con0,
                    b,
                ) < 2);
                assert(sweep_from(con0, edges@.skip(e as int)) == sweep_from(
                    connected@,
                    edges@.skip(e as int + 1),
                ));
            }
        } else {
            proof {
                assert(joined(connected@, a as int, b as int) || degree(connected@, a) == 2
                    || degree(connected@, b) == 2);
                assert(edges@.skip(e as int).drop_first() =~= edges@.skip(e as int + 1));
                assert(edges@.skip(e as int)[0] == edges@[e as int]);
                assert(!(!joined(connected@, a as int, b as int) && degree(connected@, a) < 2
                    && degree(connected@, b) < 2));
                assert(sweep_from(connected@, edges@.skip(e as int)) == sweep_from(
                    connected@,
                    edges@.skip(e as int + 1),
                ));
            }
        }
        e = e + 1;
    }
    proof {
        assert(edges@.skip(edges@.len() as int) =~= Seq::<(i64, usize, usize)>::empty());
        assert(sweep_from(connected@, edges@.skip(edges@.len() as int)) == connected@);
        assert forall|a: int, b: int| 0 <= a < b < n implies #[trigger] joined(connected@, a, b)
            || degree(connected@, a as usize) == 2 || degree(connected@, b as usize) == 2 by {
            assert(has_pair(edges@, a, b));
            let k = choose|k: int|
                0 <= k < edges@.len() && (#[trigger] edges@[k]).1 == a && edges@[k].2 == b;
            assert(joined(connected@, edges@[k].1 as int, edges@[k].2 as int) || degree(
                connected@,
                edges@[k].1,
            ) == 2 || degree(connected@, edges@[k].2) == 2);
        }
    }
    (connected, count)
}

/// An unordered pair of city indices, smaller index first.
pub open spec fn norm_pair(p: (usize, usize)) -> (usize, usize) {
    if p.0 <= p.1 {
        p
    } else {
        (p.1, p.0)
    }
}

/// The edges of a visiting sequence: its consecutive pairs, each as an
/// unordered pair.
pub open spec fn path_pairs(t: Seq<usize>) -> Seq<(usize, usize)>
    recommends
        t.len() >= 1,
{
    Seq::new((t.len() - 1) as nat, |k: int| norm_pair((t[k], t[k + 1])))
}

/// All edges of the list as unordered pairs.
pub open spec fn norm_all(s: Seq<(usize, usize)>) -> Seq<(usize, usize)> {
    s.map_values(|p: (usize, usize)| norm_pair(p))
}

/// The edge is incident to the city.
pub open spec fn touches(e: (usize, usize), c: usize) -> bool {
    e.0 == c || e.1 == c
}

/// Number of unconsumed edges incident to the city.
pub open spec fn incident_count(rem: Seq<(usize, usize)>, c: usize) -> nat
    decreases rem.len(),
{
    if rem.len() == 0 {
        0
    } else {
        incident_count(rem.drop_last(), c) + if touches(rem.last(), c) {
            1nat
        } else {
            0nat
        }
    }
}

/// Position of the first unconsumed edge incident to the city.
pub open spec fn first_incident(rem: Seq<(usize, usize)>, c: usize) -> int
    decreases rem.len(),
{
    if rem.len() == 0 {
        0
    } else if touches(rem[0], c) {
        0
    } else {
        1 + first_incident(rem.drop_first(), c)
    }
}

/// `incident_count` can also be peeled from the front.
proof fn lemma_incident_count_first(rem: Seq<(usize, usize)>, c: usize)
    requires
        rem.len() >= 1,
    ensures
        incident_count(rem, c) == incident_count(rem.drop_first(), c) + if touches(rem[0], c) {
            1nat
        } else {
            0nat
        },
    decreases rem.len(),
{
    if rem.len() == 1 {
        assert(incident_count(rem.drop_first(), c) == 0);
        assert(incident_count(rem.drop_last(), c) == 0);
        assert(rem.last() == rem[0]);
    } else {
        lemma_incident_count_first(rem.drop_last(), c);
        assert(rem.drop_last().drop_first() =~= rem.drop_first().drop_last());
        assert(rem.drop_last()[0] == rem[0]);
        assert(rem.drop_first().last() == rem.last());
        assert(incident_count(rem.drop_first(), c) == incident_count(
            rem.drop_first().drop_last(),
            c,
        ) + (if touches(rem.drop_first().last(), c) {
            1nat
        } else {
            0nat
        }));
    }
}

proof fn lemma_first_incident_range(rem: Seq<(usize, usize)>, c: usize)
    requires
        incident_count(rem, c) > 0,
    ensures
        0 <= first_incident(rem, c) < rem.len(),
        touches(rem[first_incident(rem, c)], c),
    decreases rem.len(),
{
    lemma_incident_count_first(rem, c);
    if !touches(rem[0], c) {
        lemma_first_incident_range(rem.drop_first(), c);
        assert(rem.drop_first()[first_incident(rem.drop_first(), c)] == rem[1 + first_incident(
            rem.drop_first(),
            c,
        )]);
    }
}

/// The first incident position is exactly `first_incident`.
proof fn lemma_first_match_is_first_incident(rem: Seq<(usize, usize)>, c: usize, p: int)
    requires
        0 <= p < rem.len(),
        touches(rem[p], c),
        forall|q: int| 0 <= q < p ==> !touches(#[trigger] rem[q], c),
    ensures
        p == first_incident(rem, c),
    decreases rem.len(),
{
    if p == 0 {
    } else {
        assert(!touches(rem[0], c));
        assert(rem.drop_first()[p - 1] == rem[p]);
        assert forall|q: int| 0 <= q < p - 1 implies !touches(
            #[trigger] rem.drop_first()[q],
            c,
        ) by {
            assert(rem.drop_first()[q] == rem[q + 1]);
        }
        lemma_first_match_is_first_incident(rem.drop_first(), c, p - 1);
    }
}

/// The stitching procedure as a function of the partial sequence and the
/// unconsumed edges: append the other endpoint of the one incident edge,
/// or fail when there is not exactly one.
pub open spec fn stitch_go(visit: Seq<usize>, rem: Seq<(usize, usize)>) -> Option<Seq<usize>>
    recommends
        visit.len() >= 1,
    decreases rem.len(),
    via stitch_go_decreases
{
    if rem.len() == 0 {
        Some(visit)
    } else {
        let last = visit.last();
        if incident_count(rem, last) != 1 {
            None
        } else {
            let p = first_incident(rem, last);
            let other = if rem[p].0 == last {
                rem[p].1
            } else {
                rem[p].0
            };
            stitch_go(visit.push(other), rem.remove(p))
        }
    }
}

#[via_fn]
proof fn stitch_go_decreases(visit: Seq<usize>, rem: Seq<(usize, usize)>) {
    if rem.len() > 0 && incident_count(rem, visit.last()) == 1 {
        lemma_first_incident_range(rem, visit.last());
    }
}

/// What stitching an edge list yields: the first edge's endpoints, then
/// one endpoint per consumed edge.
pub open spec fn stitch_spec(edges: Seq<(usize, usize)>) -> Option<Seq<usize>>
    recommends
        edges.len() >= 1,
{
    stitch_go(seq![edges[0].0, edges[0].1], edges.drop_first())
}

/// The stitched sequence is a closed tour over `n` cities.
pub open spec fn stitch_ok(edges: Seq<(usize, usize)>, n: nat) -> bool {
    match stitch_spec(edges) {
        Some(t) => t.len() == n + 1 && n >= 1 && t.last() == t[0] && index_perm(t.drop_last(), n),
        None => false,
    }
}

/// Stitches an edge set into a visiting sequence: starting from the
/// first edge's endpoints, repeatedly finds the one unconsumed edge
/// incident to the sequence's last city and appends its other endpoint.
/// Finding zero or more than one matching edge means the edge set is
/// malformed.  The result is exactly what `stitch_spec` yields on the
/// edge list: success and the stitched sequence are both determined,
/// and a stitched sequence traverses exactly the given edges.
pub fn stitch_tour(edges: &Vec<(usize, usize)>, n: usize) -> (r: Result<Vec<usize>, TourError>)
    requires
        edges@.len() >= 1,
        forall|k: int|
            0 <= k < edges@.len() ==> ((#[trigger] edges@[k]).0 as int) < n as int && (
            edges@[k].1 as int) < n as int,
    ensures
        r matches Ok(t) ==> {
            &&& t@.len() == edges@.len() + 1
            &&& forall|p: int| 0 <= p < t@.len() ==> (#[trigger] t@[p]) < n
            &&& path_pairs(t@).to_multiset() == norm_all(edges@).to_multiset()
            &&& stitch_spec(edges@) == Some(t@)
        },
        r matches Err(e) ==> e == TourError::MalformedEdgeSet && stitch_spec(edges@) is None,
{
    broadcast use vstd::seq_lib::group_to_multiset_ensures;

    let ghost edges0 = edges@;
    let mut rem: Vec<(usize, usize)> = Vec::new();
    let mut ci: usize = 0;
    while ci < edges.len()
        invariant
            ci <= edges@.len(),
            rem@ == edges@.take(ci as int),
        decreases edges@.len() - ci,
    {
        rem.push(edges[ci]);
        proof {
            assert(rem@ =~= edges@.take(ci as int + 1));
        }
        ci = ci + 1;
    }
    proof {
        assert(rem@ =~= edges@);
    }
    let mut visit: Vec<usize> = Vec::new();
    let first = rem[0];
    visit.push(first.0);
    visit.push(first.1);
    rem.remove(0);
    proof {
        assert(path_pairs(visit@) =~= seq![norm_pair(edges0[0])]);
        assert(norm_all(rem@) =~= norm_all(edges0).remove(0));
        assert(norm_all(edges0)[0] == norm_pair(edges0[0]));
        assert(norm_all(edges0).contains(norm_all(edges0)[0]));
        assert(norm_all(edges0).to_multiset().count(norm_pair(edges0[0])) > 0);
        assert(path_pairs(visit@) =~= Seq::<(usize, usize)>::empty().push(norm_pair(edges0[0])));
        assert(Seq::<(usize, usize)>::empty().to_multiset() =~= vstd::multiset::Multiset::empty());
        assert(path_pairs(visit@).to_multiset() =~= vstd::multiset::Multiset::empty().insert(
            norm_pair(edges0[0]),
        ));
        assert(path_pairs(visit@).to_multiset().add(norm_all(rem@).to_multiset())
            =~= norm_all(edges0).to_multiset());
        assert(rem@ =~= edges0.drop_first());
        assert(visit@ =~= seq![edges0[0].0, edges0[0].1]);
        assert(stitch_go(visit@, rem@) == stitch_spec(edges0));
    }
    while rem.len() > 0
        invariant
            edges0 == edges@,
            stitch_go(visit@, rem@) == stitch_spec(edges0),
            visit@.len() >= 2,
            visit@.len() == edges0.len() - rem@.len() + 1,
            forall|k: int|
                0 <= k < rem@.len() ==> ((#[trigger] rem@[k]).0 as int) < n as int && (
                rem@[k].1 as int) < n as int,
            forall|p: int| 0 <= p < visit@.len() ==> (#[trigger] visit@[p]) < n,
            path_pairs(visit@).to_multiset().add(norm_all(rem@).to_multiset()) == norm_all(
                edges0,
            ).to_multiset(),
        decreases rem@.len(),
    {
        let last_city = visit[visit.len() - 1];
        let mut found: usize = 0;
        let mut pos: usize = 0;
        let mut other: usize = 0;
        let mut m: usize = 0;
        while m < rem.len()
            invariant
                m <= rem@.len(),
                found <= m,
                found as nat == incident_count(rem@.take(m as int), last_city),
                forall|k: int|
                    0 <= k < rem@.len() ==> ((#[trigger] rem@[k]).0 as int) < n as int && (
                    rem@[k].1 as int) < n as int,
                found >= 1 ==> pos < m && (other as int) < n as int && ((rem@[pos as int].0
                    == last_city && other == rem@[pos as int].1) || (rem@[pos as int].1
                    == last_city && other == rem@[pos as int].0)),
                found >= 1 ==> forall|q: int|
                    0 <= q < pos as int ==> !touches(#[trigger] rem@[q], last_city),
                found == 0 ==> forall|q: int|
                    0 <= q < m as int ==> !touches(#[trigger] rem@[q], last_city),
            decreases rem@.len() - m,
        {
            proof {
                assert(rem@.take(m as int + 1).drop_last() =~= rem@.take(m as int));
                assert(rem@.take(m as int + 1).last() == rem@[m as int]);
            }
            let ed = rem[m];
            if ed.0 == last_city || ed.1 == last_city {
                if found == 0 {
                    pos = m;
                    other = if ed.0 == last_city {
                        ed.1
                    } else {
                        ed.0
                    };
                }
                found = found + 1;
            }
            m = m + 1;
        }
        proof {
            assert(rem@.take(rem@.len() as int) =~= rem@);
            assert(found as nat == incident_count(rem@, last_city));
            assert(last_city == visit@.last());
        }
        // exactly one unconsumed edge must touch the current tail
        if found != 1 {
            proof {
                assert(stitch_go(visit@, rem@) is None);
            }
            return Err(TourError::MalformedEdgeSet);
        }
        let ghost rem0 = rem@;
        let ghost v0 = visit@;
        rem.remove(pos);
        visit.push(other);
        proof {
            broadcast use vstd::seq_lib::group_to_multiset_ensures;

            let np = norm_pair(rem0[pos as int]);
            assert(norm_pair((last_city, other)) == np);
            lemma_first_match_is_first_incident(rem0, last_city, pos as int);
            assert(other == (if rem0[pos as int].0 == last_city {
                rem0[pos as int].1
            } else {
                rem0[pos as int].0
            }));
            assert(visit@ =~= v0.push(other));
            assert(rem@ =~= rem0.remove(pos as int));
            assert(stitch_go(v0, rem0) == stitch_go(visit@, rem@));
            assert(path_pairs(visit@) =~= path_pairs(v0).push(np)) by {
                assert forall|k: int| 0 <= k < path_pairs(visit@).len() implies path_pairs(
                    visit@,
                )[k] == path_pairs(v0).push(np)[k] by {
                    if k < v0.len() - 1 {
                        assert(visit@[k] == v0[k] && visit@[k + 1] == v0[k + 1]);
                    } else {
                        assert(visit@[k] == v0[v0.len() - 1] && visit@[k + 1] == other);
                    }
                }
            }
            assert(norm_all(rem@) =~= norm_all(rem0).remove(pos as int));
            assert(norm_all(rem0)[pos as int] == np);
            assert(norm_all(rem0).remove(pos as int).to_multiset() =~= norm_all(
                rem0,
            ).to_multiset().remove(np));
            assert(norm_all(rem0).contains(np));
            assert(norm_all(rem0).to_multiset().count(np) > 0);
            assert(path_pairs(visit@).to_multiset() =~= path_pairs(v0).to_multiset().insert(np));
            assert(path_pairs(visit@).to_multiset().add(norm_all(rem@).to_multiset())
                =~= norm_all(edges0).to_multiset());
            assert forall|k: int| 0 <= k < rem@.len() implies ((#[trigger] rem@[k]).0 as int)
                < n as int && (rem@[k].1 as int) < n as int by {
                if k < pos as int {
                    assert(rem@[k] == rem0[k]);
                } else {
                    assert(rem@[k] == rem0[k + 1]);
                }
            }
        }
    }
    proof {
        assert(norm_all(rem@) =~= Seq::<(usize, usize)>::empty());
        assert(norm_all(rem@).to_multiset() =~= vstd::multiset::Multiset::empty());
        assert(path_pairs(visit@).to_multiset() =~= norm_all(edges0).to_multiset());
        assert(rem@.len() == 0);
        assert(stitch_go(visit@, rem@) == Some(visit@));
    }
    Ok(visit)
}

/// Total truncated length of an edge list.
pub open spec fn pairs_len(cities: Seq<City>, ps: Seq<(usize, usize)>) -> int
    decreases ps.len(),
{
    if ps.len() == 0 {
        0
    } else {
        pairs_len(cities, ps.drop_last()) + dist(
            cities[ps.last().0 as int],
            cities[ps.last().1 as int],
        )
    }
}

/// Flipping edges to unordered form keeps their total length.
proof fn lemma_pairs_len_norm(cities: Seq<City>, ps: Seq<(usize, usize)>)
    ensures
        pairs_len(cities, norm_all(ps)) == pairs_len(cities, ps),
    decreases ps.len(),
{
    if ps.len() > 0 {
        assert(norm_all(ps).drop_last() =~= norm_all(ps.drop_last()));
        assert(norm_all(ps).last() == norm_pair(ps.last()));
        lemma_pairs_len_norm(cities, ps.drop_last());
        lemma_dist_symmetric(cities[ps.last().0 as int], cities[ps.last().1 as int]);
    }
}

/// Removing one edge removes exactly its length.
proof fn lemma_pairs_len_remove(cities: Seq<City>, ps: Seq<(usize, usize)>, w: int)
    requires
        0 <= w < ps.len(),
    ensures
        pairs_len(cities, ps) == pairs_len(cities, ps.remove(w)) + dist(
            cities[ps[w].0 as int],
            cities[ps[w].1 as int],
        ),
    decreases ps.len(),
{
    if w == ps.len() - 1 {
        assert(ps.remove(w) =~= ps.drop_last());
    } else {
        assert(ps.remove(w).drop_last() =~= ps.drop_last().remove(w));
        assert(ps.remove(w).last() == ps.last());
        lemma_pairs_len_remove(cities, ps.drop_last(), w);
        assert(ps.drop_last()[w] == ps[w]);
    }
}

/// The total length of an edge list depends only on which edges it
/// holds, not on their order.
proof fn lemma_pairs_len_multiset(cities: Seq<City>, s: Seq<(usize, usize)>, t: Seq<(usize, usize)>)
    requires
        s.to_multiset() == t.to_multiset(),
    ensures
        pairs_len(cities, s) == pairs_len(cities, t),
    decreases s.len(),
{
    broadcast use vstd::seq_lib::group_to_multiset_ensures;

    assert(s.len() == s.to_multiset().len());
    assert(t.len() == t.to_multiset().len());
    if s.len() > 0 {
        let x = s.last();
        assert(s.contains(x));
        assert(t.to_multiset().count(x) > 0);
        assert(t.contains(x));
        let w = choose|w: int| 0 <= w < t.len() && t[w] == x;
        lemma_pairs_len_remove(cities, t, w);
        assert(s.remove(s.len() - 1) =~= s.drop_last());
        assert(s.drop_last().to_multiset() =~= s.to_multiset().remove(x));
        assert(t.remove(w).to_multiset() =~= t.to_multiset().remove(x));
        lemma_pairs_len_multiset(cities, s.drop_last(), t.remove(w));
    }
}

/// A visiting sequence that spells out an index tour has the path length
/// of that tour's edges.
proof fn lemma_follows_path_len(v: Seq<City>, t: Seq<usize>, cities: Seq<City>)
    requires
        follows_indices(v, t, cities),
        v.len() >= 1,
    ensures
        crate::common::path_len(v) == pairs_len(cities, path_pairs(t)),
    decreases v.len(),
{
    if v.len() == 1 {
        assert(path_pairs(t).len() == 0);
    } else {
        let l = v.len() as int;
        assert(follows_indices(v.drop_last(), t.drop_last(), cities)) by {
            assert forall|k: int| 0 <= k < t.drop_last().len() implies (#[trigger] t.drop_last()[k])
                < cities.len() && v.drop_last()[k] == cities[t.drop_last()[k] as int] by {
                assert(t.drop_last()[k] == t[k] && v.drop_last()[k] == v[k]);
            }
        }
        lemma_follows_path_len(v.drop_last(), t.drop_last(), cities);
        assert(path_pairs(t).drop_last() =~= path_pairs(t.drop_last()));
        assert(path_pairs(t).last() == norm_pair((t[l - 2], t[l - 1])));
        lemma_dist_symmetric(cities[t[l - 2] as int], cities[t[l - 1] as int]);
        assert(v[l - 2] == cities[t[l - 2] as int] && v[l - 1] == cities[t[l - 1] as int]);
    }
}

/// Number of times `c` occurs in the sequence.
pub open spec fn occ_of(s: Seq<usize>, c: usize) -> nat
    decreases s.len(),
{
    if s.len() == 0 {
        0
    } else {
        occ_of(s.drop_last(), c) + if s.last() == c {
            1nat
        } else {
            0nat
        }
    }
}

proof fn lemma_occ_multiset(s: Seq<usize>, c: usize)
    ensures
        occ_of(s, c) == s.to_multiset().count(c),
    decreases s.len(),
{
    broadcast use vstd::seq_lib::group_to_multiset_ensures;
    broadcast use vstd::multiset::group_multiset_axioms;

    if s.len() > 0 {
        lemma_occ_multiset(s.drop_last(), c);
        assert(s.drop_last().push(s.last()) =~= s);
        assert(s.drop_last().push(s.last()).to_multiset() =~= s.drop_last().to_multiset().insert(
            s.last(),
        ));
    }
}

/// Flipping edges to unordered form keeps every degree.
proof fn lemma_degree_norm(s: Seq<(usize, usize)>, c: usize)
    ensures
        degree(norm_all(s), c) == degree(s, c),
    decreases s.len(),
{
    if s.len() > 0 {
        assert(norm_all(s).drop_last() =~= norm_all(s.drop_last()));
        assert(norm_all(s).last() == norm_pair(s.last()));
        lemma_degree_norm(s.drop_last(), c);
    }
}

/// Removing one edge removes exactly its contribution to the degree.
proof fn lemma_degree_remove(s: Seq<(usize, usize)>, w: int, c: usize)
    requires
        0 <= w < s.len(),
    ensures
        degree(s, c) == degree(s.remove(w), c) + (if s[w].0 == c {
            1nat
        } else {
            0nat
        }) + (if s[w].1 == c {
            1nat
        } else {
            0nat
        }),
    decreases s.len(),
{
    if w == s.len() - 1 {
        assert(s.remove(w) =~= s.drop_last());
    } else {
        assert(s.remove(w).drop_last() =~= s.drop_last().remove(w));
        assert(s.remove(w).last() == s.last());
        lemma_degree_remove(s.drop_last(), w, c);
        assert(s.drop_last()[w] == s[w]);
    }
}

/// A degree depends only on which edges the list holds.
proof fn lemma_degree_multiset(s: Seq<(usize, usize)>, t: Seq<(usize, usize)>, c: usize)
    requires
        s.to_multiset() == t.to_multiset(),
    ensures
        degree(s, c) == degree(t, c),
    decreases s.len(),
{
    broadcast use vstd::seq_lib::group_to_multiset_ensures;

    assert(s.len() == s.to_multiset().len());
    assert(t.len() == t.to_multiset().len());
    if s.len() > 0 {
        let x = s.last();
        assert(s.contains(x));
        assert(t.to_multiset().count(x) > 0);
        assert(t.contains(x));
        let w = choose|w: int| 0 <= w < t.len() && t[w] == x;
        lemma_degree_remove(t, w, c);
        assert(s.remove(s.len() - 1) =~= s.drop_last());
        assert(s.drop_last().to_multiset() =~= s.to_multiset().remove(x));
        assert(t.remove(w).to_multiset() =~= t.to_multiset().remove(x));
        lemma_degree_multiset(s.drop_last(), t.remove(w), c);
    }
}

/// In the edge list of a visiting sequence, a city's degree counts its
/// occurrences among the sources and among the targets of the edges.
proof fn lemma_degree_path_pairs(t: Seq<usize>, c: usize)
    requires
        t.len() >= 1,
    ensures
        degree(path_pairs(t), c) == occ_of(t.drop_last(), c) + occ_of(t.drop_first(), c),
    decreases t.len(),
{
    if t.len() == 1 {
        assert(path_pairs(t).len() == 0);
        assert(t.drop_last().len() == 0 && t.drop_first().len() == 0);
    } else {
        let l = t.len() as int;
        lemma_degree_path_pairs(t.drop_last(), c);
        assert(path_pairs(t).drop_last() =~= path_pairs(t.drop_last()));
        assert(path_pairs(t).last() == norm_pair((t[l - 2], t[l - 1])));
        assert(t.drop_last().drop_last() =~= t.drop_last().drop_last());
        assert(t.drop_first().drop_last() =~= t.drop_last().drop_first());
        assert(occ_of(t.drop_last(), c) == occ_of(t.drop_last().drop_last(), c) + (if t[l - 2]
            == c {
            1nat
        } else {
            0nat
        }));
        assert(occ_of(t.drop_first(), c) == occ_of(t.drop_first().drop_last(), c) + (if t[l - 1]
            == c {
            1nat
        } else {
            0nat
        }));
    }
}

/// Every city of a closed tour over all cities has exactly two incident
/// tour edges.
proof fn lemma_closed_tour_degrees(t: Seq<usize>, n: nat, c: usize)
    requires
        n <= usize::MAX,
        t.len() == n + 1,
        t.last() == t[0],
        index_perm(t.drop_last(), n),
        (c as int) < n,
    ensures
        degree(path_pairs(t), c) == 2,
{
    broadcast use vstd::seq_lib::group_to_multiset_ensures;
    broadcast use vstd::multiset::group_multiset_axioms;

    let opened = t.drop_last();
    let full = Seq::new(n, |i: int| i as usize);
    lemma_degree_path_pairs(t, c);
    lemma_occ_multiset(opened, c);
    lemma_occ_multiset(t.drop_first(), c);
    assert(full.no_duplicates());
    full.lemma_multiset_has_no_duplicates();
    assert(full[c as int] == c);
    assert(full.contains(c));
    assert(full.to_multiset().count(c) == 1);
    assert(opened.to_multiset().count(c) == 1);
    // dropping the first city and appending the closing duplicate keeps
    // the multiset of visited cities
    assert(t.drop_first() =~= opened.drop_first().push(t[n as int]));
    assert(t[n as int] == opened[0]);
    assert(opened =~= Seq::empty().push(opened[0]) + opened.drop_first());
    vstd::seq_lib::lemma_multiset_commutative(Seq::empty().push(opened[0]), opened.drop_first());
    assert(Seq::<usize>::empty().push(opened[0]).to_multiset() =~= Multiset::empty().insert(
        opened[0],
    )) by {
        assert(Seq::<usize>::empty().to_multiset().len() == 0);
        assert forall|x: usize| Seq::<usize>::empty().to_multiset().count(x) == 0 by {
            assert(!Seq::<usize>::empty().contains(x));
        }
        assert(Seq::<usize>::empty().to_multiset() =~= Multiset::<usize>::empty());
    }
    assert(t.drop_first().to_multiset() =~= opened.drop_first().to_multiset().insert(opened[0]));
    assert(opened.to_multiset() =~= opened.drop_first().to_multiset().insert(opened[0]));
    assert(t.drop_first().to_multiset().count(c) == 1);
}

/// Builds the closed greedy tour of city indices: sweeps the candidates,
/// connects the two remaining degree-1 cities to close the cycle, and
/// stitches the edge set into a visiting sequence by repeatedly taking
/// the one unconsumed edge incident to the sequence's last city.
/// Finding zero or more than one such edge, or a stitched sequence that
/// does not visit every city exactly once, is a fatal
/// internal-consistency failure reported as a malformed edge set.
fn greedy_internal(cities: &Vec<City>) -> (r: Result<Vec<usize>, TourError>)
    requires
        all_in_bounds(cities@),
        2 <= cities@.len() <= MAX_CITIES,
    ensures
        r matches Ok(t) ==> {
            &&& t@.len() == cities@.len() + 1
            &&& t@.last() == t@[0]
            &&& index_perm(t@.drop_last(), cities@.len())
            &&& stitch_spec(greedy_closed_edges(cities@)) == Some(t@)
            &&& path_pairs(t@).to_multiset() == norm_all(
                greedy_closed_edges(cities@),
            ).to_multiset()
            &&& forall|c: int|
                0 <= c < cities@.len() ==> #[trigger] degree(
                    greedy_closed_edges(cities@),
                    c as usize,
                ) == 2
        },
        r matches Ok(_) <==> ((loose_ends(cities@).len() == 0 || loose_ends(cities@).len() == 2)
            && stitch_ok(greedy_closed_edges(cities@), cities@.len())),
{
    let n = cities.len();
    let swept = greedy_sweep(cities);
    let mut connected_edges = swept.0;
    let count = swept.1;

    // connect the two remaining degree-1 cities to close the cycle
    let mut ones: Vec<usize> = Vec::new();
    let mut c: usize = 0;
    proof {
        assert(ones@ =~= ends_upto(cities@, 0)) by {
            reveal(Seq::filter);
            assert(Seq::new(0nat, |i: int| i as usize).len() == 0);
        }
    }
    while c < n
        invariant
            c <= n,
            n == cities@.len(),
            count@.len() == n,
            connected_edges@ == greedy_accepted(cities@),
            forall|p: int|
                0 <= p < n ==> #[trigger] count@[p] == degree(greedy_accepted(cities@), p as usize),
            ones@ == ends_upto(cities@, c as int),
            forall|p: int| 0 <= p < ones@.len() ==> (#[trigger] ones@[p]) < n,
        decreases n - c,
    {
        proof {
            lemma_ends_upto_step(cities@, c as int);
        }
        if count[c] == 1 {
            ones.push(c);
        }
        c = c + 1;
    }
    proof {
        assert(ones@ == loose_ends(cities@));
    }
    let ghost con0 = connected_edges@;
    if ones.len() != 0 {
        if ones.len() != 2 {
            return Err(TourError::MalformedEdgeSet);
        }
        connected_edges.push((ones[0], ones[1]));
        proof {
            assert(connected_edges@ == greedy_closed_edges(cities@));
            assert forall|k: int| 0 <= k < connected_edges@.len() implies ((
            #[trigger] connected_edges@[k]).0 as int) < n as int && (connected_edges@[k].1 as int)
                < n as int by {
                if k < con0.len() {
                    assert(connected_edges@[k] == con0[k]);
                    assert(pair_ok(con0[k], n as int));
                }
            }
        }
    }
    proof {
        assert(connected_edges@ == greedy_closed_edges(cities@));
        // for at least two cities the sweep accepts at least one edge:
        // an empty edge set would leave the pair (0, 1) unconnected and
        // unsaturated
        if connected_edges@.len() == 0 {
            assert(con0.len() == 0);
            assert(degree(con0, 0usize) == 0);
            assert(degree(con0, 1usize) == 0);
            assert(joined(con0, 0int, 1int) == false);
            assert(joined(con0, 0int, 1int) || degree(con0, 0usize) == 2 || degree(con0, 1usize)
                == 2);
            assert(false);
        }
    }

    match stitch_tour(&connected_edges, n) {
        Err(e) => Err(e),
        Ok(visit) => {
            if !check_closed_tour(&visit, n) {
                return Err(TourError::MalformedEdgeSet);
            }
            proof {
                // a closed tour over all cities gives every city exactly
                // two incident edges, and the tour's edges are exactly
                // the greedy edge set
                let ge = greedy_closed_edges(cities@);
                assert forall|c: int| 0 <= c < n implies #[trigger] degree(ge, c as usize) == 2 by {
                    lemma_closed_tour_degrees(visit@, n as nat, c as usize);
                    lemma_degree_multiset(path_pairs(visit@), norm_all(ge), c as usize);
                    lemma_degree_norm(ge, c as usize);
                }
            }
            Ok(visit)
        },
    }
}

/// Greedy-edge construction.  Returns the closed visiting sequence (the
/// start of the stitched cycle repeated at the end) and the open
/// sequence of visited city indices: exactly the stitching of the
/// greedy edge set `greedy_closed_edges`, whose total length the tour
/// attains and in which every city has exactly two incident edges.
/// Inputs with fewer than two cities are rejected; construction
/// succeeds exactly when two or no path ends remain after the sweep and
/// the stitching closes a cycle over all cities, and anything else is
/// reported as a malformed edge set rather than returned corrupted.
pub fn solver(cities: &Vec<City>) -> (r: Result<(Vec<City>, Vec<usize>), TourError>)
    requires
        all_in_bounds(cities@),
        cities@.len() <= MAX_CITIES,
    ensures
        cities@.len() < 2 ==> r == Result::<(Vec<City>, Vec<usize>), TourError>::Err(
            TourError::TooFewCities,
        ),
        r == Result::<(Vec<City>, Vec<usize>), TourError>::Err(TourError::TooFewCities)
            ==> cities@.len() < 2,
        r matches Ok(t) ==> {
            &&& index_perm(t.1@, cities@.len())
            &&& follows_indices(t.0@.drop_last(), t.1@, cities@)
            &&& t.0@.len() == cities@.len() + 1
            &&& t.0@.last() == t.0@[0]
            &&& stitch_spec(greedy_closed_edges(cities@)) == Some(t.1@.push(t.1@[0]))
            &&& path_pairs(t.1@.push(t.1@[0])).to_multiset() == norm_all(
                greedy_closed_edges(cities@),
            ).to_multiset()
            &&& crate::two_opt::loop_len(t.0@.drop_last()) == pairs_len(
                cities@,
                greedy_closed_edges(cities@),
            )
            &&& forall|c: int|
                0 <= c < cities@.len() ==> #[trigger] degree(
                    greedy_closed_edges(cities@),
                    c as usize,
                ) == 2
        },
        cities@.len() >= 2 ==> (r matches Ok(_) <==> ((loose_ends(cities@).len() == 0
            || loose_ends(cities@).len() == 2) && stitch_ok(
            greedy_closed_edges(cities@),
            cities@.len(),
        ))),
{
    if cities.len() < 2 {
        return Err(TourError::TooFewCities);
    }
    let n = cities.len();
    match greedy_internal(cities) {
        Err(e) => Err(TourError::MalformedEdgeSet),
        Ok(idx_closed) => {
            proof {
                lemma_index_perm_range(idx_closed@.drop_last(), cities@.len());
                assert(idx_closed@[0] == idx_closed@.drop_last()[0]);
            }
            let mut visit: Vec<City> = Vec::new();
            let mut open_idx: Vec<usize> = Vec::new();
            let mut k: usize = 0;
            while k < n
                invariant
                    k <= n,
                    n == cities@.len(),
                    idx_closed@.len() == n + 1,
                    forall|p: int|
                        0 <= p < n ==> (#[trigger] idx_closed@.drop_last()[p]) < n,
                    visit@.len() == k,
                    open_idx@.len() == k,
                    forall|p: int| 0 <= p < k ==> #[trigger] open_idx@[p] == idx_closed@[p],
                    forall|p: int|
                        0 <= p < k ==> #[trigger] visit@[p] == cities@[idx_closed@[p] as int],
                decreases n - k,
            {
                proof {
                    assert(idx_closed@.drop_last()[k as int] == idx_closed@[k as int]);
                }
                let ci = idx_closed[k];
                open_idx.push(ci);
                visit.push(cities[ci]);
                k = k + 1;
            }
            proof {
                assert(idx_closed@.drop_last()[0] == idx_closed@[0]);
            }
            let first = visit[0];
            visit.push(first);
            proof {
                assert(open_idx@ =~= idx_closed@.drop_last());
                assert(idx_closed@ =~= open_idx@.push(open_idx@[0]));
                assert(visit@.drop_last() =~= visit@.subrange(0, n as int));
                assert forall|p: int| 0 <= p < n implies #[trigger] visit@.drop_last()[p]
                    == cities@[open_idx@[p] as int] by {
                    assert(visit@.drop_last()[p] == visit@[p]);
                }
                // the open tour's cycle length is the greedy edge set's
                // total length
                let ge = greedy_closed_edges(cities@);
                let opened = visit@.drop_last();
                assert(follows_indices(visit@, idx_closed@, cities@)) by {
                    assert forall|p: int| 0 <= p < idx_closed@.len() implies (
                    #[trigger] idx_closed@[p]) < cities@.len() && visit@[p]
                        == cities@[idx_closed@[p] as int] by {
                        if p < n {
                            assert(idx_closed@[p] == open_idx@[p]);
                            assert(visit@[p] == visit@.drop_last()[p]);
                        } else {
                            assert(idx_closed@[p] == open_idx@[0]);
                            assert(visit@[p] == first);
                        }
                    }
                }
                lemma_follows_path_len(visit@, idx_closed@, cities@);
                assert(visit@ =~= opened.push(opened[0]));
                crate::two_opt::lemma_loop_len_closed(opened);
                lemma_pairs_len_multiset(cities@, path_pairs(idx_closed@), norm_all(ge));
                lemma_pairs_len_norm(cities@, ge);
            }
            Ok((visit, open_idx))
        },
    }
}

/// Greedy construction followed by a lighter randomized 2-opt pass over
/// the open tour, closed again afterwards.
pub fn two_opt(cities: &Vec<City>) -> (r: Result<(Vec<City>, Vec<usize>), TourError>)
    requires
        all_in_bounds(cities@),
        cities@.len() <= MAX_CITIES,
    ensures
        cities@.len() < 2 ==> r == Result::<(Vec<City>, Vec<usize>), TourError>::Err(
            TourError::TooFewCities,
        ),
        r == Result::<(Vec<City>, Vec<usize>), TourError>::Err(TourError::TooFewCities)
            ==> cities@.len() < 2,
        r matches Ok(t) ==> {
            &&& index_perm(t.1@, cities@.len())
            &&& follows_indices(t.0@.drop_last(), t.1@, cities@)
            &&& t.0@.len() == cities@.len() + 1
            &&& t.0@.last() == t.0@[0]
            &&& crate::two_opt::loop_len(t.0@.drop_last()) <= pairs_len(
                cities@,
                greedy_closed_edges(cities@),
            )
            &&& forall|c: int|
                0 <= c < cities@.len() ==> #[trigger] degree(
                    greedy_closed_edges(cities@),
                    c as usize,
                ) == 2
            &&& (stitch_spec(greedy_closed_edges(cities@)) matches Some(st)
                ==> (crate::two_opt::stationary(
                Seq::new(cities@.len(), |k: int| cities@[st.drop_last()[k] as int]),
            ) ==> t.1@ == st.drop_last() && t.0@.drop_last() == Seq::new(
                cities@.len(),
                |k: int| cities@[st.drop_last()[k] as int],
            )))
        },
        cities@.len() >= 2 ==> (r matches Ok(_) <==> ((loose_ends(cities@).len() == 0
            || loose_ends(cities@).len() == 2) && stitch_ok(
            greedy_closed_edges(cities@),
            cities@.len(),
        ))),
{
    match solver(cities) {
        Err(e) => Err(e),
        Ok(pair) => {
            let mut visit = pair.0;
            let mut idx = pair.1;
            let ghost closed0 = visit@;
            visit.pop();
            let ghost idx0 = idx@;
            proof {
                assert(visit@ == closed0.drop_last());
                lemma_index_perm_range(idx@, cities@.len());
                assert forall|p: int| 0 <= p < visit@.len() implies (
                #[trigger] visit@[p]).in_bounds() by {
                    assert(visit@[p] == cities@[idx@[p] as int]);
                }
                assert(idx0.push(idx0[0]).drop_last() =~= idx0);
                assert(visit@ =~= Seq::new(
                    cities@.len(),
                    |k: int| cities@[idx0[k] as int],
                ));
            }
            crate::two_opt::improve_two_opt(&mut visit, &mut idx, 100_000);
            let ghost improved = visit@;
            proof {
                assert(follows_indices(visit@, idx@, cities@));
            }
            let first = visit[0];
            visit.push(first);
            proof {
                assert(visit@.drop_last() =~= improved);
            }
            Ok((visit, idx))
        },
    }
}

} // verus!
