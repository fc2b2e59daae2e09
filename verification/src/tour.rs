//! Visiting sequences and their validity.
//!
//! A constructor returns an ordered visiting sequence of cities together
//! with the underlying city indices.  For a closed tour the first city is
//! repeated at the end; the open form lists each city exactly once.

use vstd::prelude::*;
use crate::city::City;

verus! {

/// Why a constructor rejected its input.
#[derive(Clone, Copy, PartialEq, Eq, Structural, Debug)]
pub enum TourError {
    /// Fewer cities than the constructor needs to build a cycle.
    TooFewCities,
    /// The accepted edge set could not be stitched into a single cycle:
    /// an internal-consistency failure of greedy construction.
    MalformedEdgeSet,
}

/// The index sequence lists every city index below `n` exactly once: it
/// is a permutation of `0..n`.
pub open spec fn index_perm(idx: Seq<usize>, n: nat) -> bool {
    idx.to_multiset() == Seq::new(n, |i: int| i as usize).to_multiset()
}

/// `visit` spells out the cities that `idx` selects from `cities`.
pub open spec fn follows_indices(visit: Seq<City>, idx: Seq<usize>, cities: Seq<City>) -> bool {
    &&& visit.len() == idx.len()
    &&& forall|k: int| 0 <= k < idx.len() ==> (#[trigger] idx[k]) < cities.len()
    &&& forall|k: int| 0 <= k < idx.len() ==> #[trigger] visit[k] == cities[idx[k] as int]
}

/// An index permutation only holds indices below `n`.
pub proof fn lemma_index_perm_range(idx: Seq<usize>, n: nat)
    requires
        index_perm(idx, n),
    ensures
        idx.len() == n,
        forall|k: int| 0 <= k < idx.len() ==> (#[trigger] idx[k]) < n,
{
    broadcast use vstd::seq_lib::group_to_multiset_ensures;

    let full = Seq::new(n, |i: int| i as usize);
    assert(idx.len() == idx.to_multiset().len());
    assert(full.len() == full.to_multiset().len());
    assert forall|k: int| 0 <= k < idx.len() implies (#[trigger] idx[k]) < n by {
        assert(idx.contains(idx[k]));
        assert(idx.to_multiset().count(idx[k]) > 0);
        assert(full.contains(idx[k]));
        let j = choose|j: int| 0 <= j < full.len() && full[j] == idx[k];
        assert(idx[k] == j as usize);
    }
}

/// A sequence of `n` distinct indices below `n` is a permutation of
/// `0..n`.
pub proof fn lemma_perm_from_distinct(idx: Seq<usize>, n: nat)
    requires
        n <= usize::MAX,
        idx.len() == n,
        forall|k: int| 0 <= k < idx.len() ==> (#[trigger] idx[k]) < n,
        idx.no_duplicates(),
    ensures
        index_perm(idx, n),
{
    broadcast use vstd::seq_lib::group_to_multiset_ensures;
    broadcast use vstd::seq_lib::seq_to_set_is_finite;

    let full = Seq::new(n, |i: int| i as usize);
    assert(full.no_duplicates());
    idx.lemma_multiset_has_no_duplicates();
    full.lemma_multiset_has_no_duplicates();
    idx.unique_seq_to_set();
    full.unique_seq_to_set();
    assert(idx.to_set().subset_of(full.to_set())) by {
        assert forall|x: usize| idx.to_set().contains(x) implies full.to_set().contains(
            x,
        ) by {
            assert(idx.contains(x));
            let w = choose|w: int| 0 <= w < idx.len() && idx[w] == x;
            assert(full[x as int] == x);
            assert(full.contains(x));
        }
    }
    vstd::set_lib::lemma_subset_equality(idx.to_set(), full.to_set());
    assert forall|x: usize| #[trigger] idx.to_multiset().count(x) == full.to_multiset().count(
        x,
    ) by {
        if idx.to_set().contains(x) {
            assert(idx.contains(x) && full.contains(x));
            assert(idx.to_multiset().contains(x) && full.to_multiset().contains(x));
        } else {
            assert(!idx.contains(x) && !full.contains(x));
            assert(idx.to_multiset().count(x) == 0 && full.to_multiset().count(x) == 0);
        }
    }
    assert(idx.to_multiset() =~= full.to_multiset());
}

/// An index permutation never repeats an index.
pub proof fn lemma_index_perm_distinct(idx: Seq<usize>, n: nat)
    requires
        n <= usize::MAX,
        index_perm(idx, n),
    ensures
        idx.no_duplicates(),
{
    broadcast use vstd::seq_lib::group_to_multiset_ensures;

    let full = Seq::new(n, |i: int| i as usize);
    assert(full.no_duplicates());
    full.lemma_multiset_has_no_duplicates();
    assert forall|x: usize| idx.to_multiset().contains(x) implies idx.to_multiset().count(x)
        == 1 by {
        assert(full.to_multiset().contains(x));
    }
    idx.lemma_multiset_has_no_duplicates_conv();
}

/// Decides whether the sequence is a closed tour over `n` cities: `n + 1`
/// entries, the last repeating the first, and the first `n` entries a
/// permutation of all city indices.
pub fn check_closed_tour(t: &Vec<usize>, n: usize) -> (ok: bool)
    ensures
        ok == (t@.len() == n + 1 && n >= 1 && t@.last() == t@[0] && index_perm(
            t@.drop_last(),
            n as nat,
        )),
{
    let m = t.len();
    if m < 2 || m - 1 != n {
        return false;
    }
    if t[0] != t[m - 1] {
        return false;
    }
    let mut seen: Vec<bool> = Vec::new();
    let mut c: usize = 0;
    while c < n
        invariant
            c <= n,
            seen@.len() == c,
            forall|p: int| 0 <= p < c ==> !(#[trigger] seen@[p]),
        decreases n - c,
    {
        seen.push(false);
        c = c + 1;
    }
    let mut k: usize = 0;
    while k < n
        invariant
            k <= n,
            n == t@.len() - 1,
            seen@.len() == n,
            forall|p: int| 0 <= p < k ==> (#[trigger] t@[p]) < n,
            forall|p: int, q: int|
                #![trigger t@[p], t@[q]]
                0 <= p < q < k as int ==> t@[p] != t@[q],
            forall|x: int|
                0 <= x < n ==> ((#[trigger] seen@[x]) <==> exists|p: int|
                    0 <= p < k as int && (#[trigger] t@[p]) == x as usize),
        decreases n - k,
    {
        let x = t[k];
        if x >= n {
            proof {
                if index_perm(t@.drop_last(), n as nat) {
                    lemma_index_perm_range(t@.drop_last(), n as nat);
                    assert(t@.drop_last()[k as int] == t@[k as int]);
                }
            }
            return false;
        }
        if seen[x] {
            proof {
                let p = choose|p: int| 0 <= p < k as int && (#[trigger] t@[p]) == x as usize;
                if index_perm(t@.drop_last(), n as nat) {
                    lemma_index_perm_distinct(t@.drop_last(), n as nat);
                    assert(t@.drop_last()[p] == t@[p]);
                    assert(t@.drop_last()[k as int] == t@[k as int]);
                    assert(t@.drop_last()[p] != t@.drop_last()[k as int]);
                }
            }
            return false;
        }
        let ghost seen0 = seen@;
        seen.set(x, true);
        proof {
            assert forall|y: int|
                0 <= y < n implies ((#[trigger] seen@[y]) <==> exists|p: int|
                    0 <= p < k as int + 1 && (#[trigger] t@[p]) == y as usize) by {
                if y == x as int {
                    assert(t@[k as int] == y as usize);
                } else {
                    assert(seen@[y] == seen0[y]);
                    if seen0[y] {
                        let p = choose|p: int| 0 <= p < k as int && (#[trigger] t@[p]) == y as usize;
                        assert(t@[p] == y as usize);
                    }
                    if exists|p: int| 0 <= p < k as int + 1 && (#[trigger] t@[p]) == y as usize {
                        let p = choose|p: int|
                            0 <= p < k as int + 1 && (#[trigger] t@[p]) == y as usize;
                        assert(p < k as int);
                    }
                }
            }
            assert forall|p: int| 0 <= p < k as int implies t@[p] != t@[k as int] by {
                if t@[p] == t@[k as int] {
                    assert(seen0[x as int]);
                }
            }
        }
        k = k + 1;
    }
    proof {
        let open = t@.drop_last();
        assert(open.len() == n);
        assert forall|p: int| 0 <= p < open.len() implies (#[trigger] open[p]) < n by {
            assert(open[p] == t@[p]);
        }
        assert(open.no_duplicates()) by {
            assert forall|p: int, q: int|
                0 <= p < open.len() && 0 <= q < open.len() && p != q implies open[p] != open[q] by {
                assert(open[p] == t@[p] && open[q] == t@[q]);
            }
        }
        lemma_perm_from_distinct(open, n as nat);
    }
    true
}

} // verus!
