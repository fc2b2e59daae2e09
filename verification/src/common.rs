//! The distance metric: Euclidean distance truncated to an integer, and
//! total length of a visiting sequence.
//!
//! Every cost comparison made by the constructors and the improver uses
//! this truncated metric, so the whole crate is consistent about which
//! edges compare as shorter.

use vstd::prelude::*;
use crate::city::{City, all_in_bounds, MAX_COORD};

verus! {

/// Largest value `distance` can return for cities within the coordinate
/// bounds: the integer part of the square root of `8 * MAX_COORD^2`.
pub const MAX_EDGE_LEN: i64 = 2_828_427;

/// Largest number of cities the length computations accept; keeps every
/// tour length below `i64::MAX`.
pub const MAX_CITIES: usize = 1_000_000;

/// Squared Euclidean distance between two cities.
pub open spec fn euclid_sq(p: City, q: City) -> int {
    (p.x - q.x) * (p.x - q.x) + (p.y - q.y) * (p.y - q.y)
}

/// `r` is the integer part of the square root of `s`.
pub open spec fn is_sqrt_floor(s: int, r: int) -> bool {
    0 <= r && r * r <= s && s < (r + 1) * (r + 1)
}

spec fn sqrt_search(s: int, r: nat) -> nat
    decreases r,
{
    if r * r <= s {
        r
    } else if r == 0 {
        0
    } else {
        sqrt_search(s, (r - 1) as nat)
    }
}

/// The integer part of the square root of `s` (0 for negative `s`).
pub closed spec fn sqrt_floor(s: int) -> int {
    if s < 0 {
        0
    } else {
        sqrt_search(s, s as nat) as int
    }
}

proof fn lemma_sqrt_search(s: int, r: nat)
    requires
        0 <= s,
        s < (r + 1) * (r + 1),
    ensures
        is_sqrt_floor(s, sqrt_search(s, r) as int),
    decreases r,
{
    if r * r <= s {
    } else {
        assert(r >= 1) by (nonlinear_arith)
            requires 0 <= s, r * r > s;
        lemma_sqrt_search(s, (r - 1) as nat);
    }
}

/// `sqrt_floor` satisfies its defining property for non-negative inputs.
pub proof fn lemma_sqrt_floor(s: int)
    requires
        0 <= s,
    ensures
        is_sqrt_floor(s, sqrt_floor(s)),
{
    assert(s < (s + 1) * (s + 1)) by (nonlinear_arith)
        requires 0 <= s;
    lemma_sqrt_search(s, s as nat);
}

/// Only one integer satisfies the square-root-floor property.
pub proof fn lemma_sqrt_floor_unique(s: int, r: int)
    requires
        0 <= s,
        is_sqrt_floor(s, r),
    ensures
        r == sqrt_floor(s),
{
    lemma_sqrt_floor(s);
    let q = sqrt_floor(s);
    assert(r == q) by (nonlinear_arith)
        requires
            0 <= r && r * r <= s && s < (r + 1) * (r + 1),
            0 <= q && q * q <= s && s < (q + 1) * (q + 1);
}

/// The truncated Euclidean distance between two cities.
pub open spec fn dist(p: City, q: City) -> int {
    sqrt_floor(euclid_sq(p, q))
}

/// The distance metric is symmetric.
pub proof fn lemma_dist_symmetric(p: City, q: City)
    ensures
        dist(p, q) == dist(q, p),
{
    assert(euclid_sq(p, q) == euclid_sq(q, p)) by (nonlinear_arith);
}

/// A city is at distance 0 from itself.
pub proof fn lemma_dist_self(p: City)
    ensures
        dist(p, p) == 0,
{
    lemma_sqrt_floor_unique(0, 0);
}

/// Bounds on the metric for cities within the coordinate bounds.
pub proof fn lemma_dist_bounds(p: City, q: City)
    requires
        p.in_bounds(),
        q.in_bounds(),
    ensures
        0 <= euclid_sq(p, q) <= 8_000_000_000_000,
        0 <= dist(p, q) <= MAX_EDGE_LEN,
{
    assert(0 <= euclid_sq(p, q) <= 8_000_000_000_000) by (nonlinear_arith)
        requires
            -MAX_COORD <= p.x <= MAX_COORD && -MAX_COORD <= p.y <= MAX_COORD,
            -MAX_COORD <= q.x <= MAX_COORD && -MAX_COORD <= q.y <= MAX_COORD;
    lemma_sqrt_floor(euclid_sq(p, q));
    let r = sqrt_floor(euclid_sq(p, q));
    assert(r <= MAX_EDGE_LEN) by (nonlinear_arith)
        requires
            0 <= r,
            r * r <= 8_000_000_000_000int;
}

/// Integer part of the square root, by binary search.
fn isqrt(s: i64) -> (r: i64)
    requires
        0 <= s <= 8_000_000_000_000,
    ensures
        r == sqrt_floor(s as int),
        0 <= r <= MAX_EDGE_LEN,
{
    let mut lo: i64 = 0;
    let mut hi: i64 = MAX_EDGE_LEN + 1;
    proof {
        assert((MAX_EDGE_LEN + 1) * (MAX_EDGE_LEN + 1) > 8_000_000_000_000) by (nonlinear_arith);
    }
    while lo + 1 < hi
        invariant
            0 <= lo < hi <= MAX_EDGE_LEN + 1,
            lo * lo <= s,
            s < hi * hi,
        decreases hi - lo,
    {
        let mid = lo + (hi - lo) / 2;
        proof {
            assert(0 <= mid * mid <= 8_000_004_951_184) by (nonlinear_arith)
                requires 0 <= mid <= 2_828_428;
        }
        if mid * mid <= s {
            lo = mid;
        } else {
            hi = mid;
        }
    }
    proof {
        lemma_sqrt_floor_unique(s as int, lo as int);
    }
    lo
}

/// The truncated Euclidean distance between two cities.
pub fn distance(v1: City, v2: City) -> (r: i64)
    requires
        v1.in_bounds(),
        v2.in_bounds(),
    ensures
        r == dist(v1, v2),
        0 <= r <= MAX_EDGE_LEN,
{
    let dx = v1.x - v2.x;
    let dy = v1.y - v2.y;
    proof {
        lemma_dist_bounds(v1, v2);
        assert(0 <= dx * dx <= 4_000_000_000_000 && 0 <= dy * dy <= 4_000_000_000_000)
            by (nonlinear_arith)
            requires -2_000_000 <= dx <= 2_000_000 && -2_000_000 <= dy <= 2_000_000;
    }
    isqrt(dx * dx + dy * dy)
}

/// Sum of the truncated distances over consecutive pairs of the sequence.
pub open spec fn path_len(s: Seq<City>) -> int
    decreases s.len(),
{
    if s.len() < 2 {
        0
    } else {
        path_len(s.drop_last()) + dist(s[s.len() - 2], s[s.len() - 1])
    }
}

/// `path_len` is non-negative and at most one longest edge per step.
pub proof fn lemma_path_len_bounds(s: Seq<City>)
    requires
        all_in_bounds(s),
        s.len() >= 1,
    ensures
        0 <= path_len(s) <= (s.len() - 1) * MAX_EDGE_LEN,
    decreases s.len(),
{
    if s.len() >= 2 {
        lemma_path_len_bounds(s.drop_last());
        lemma_dist_bounds(s[s.len() - 2], s[s.len() - 1]);
        assert((s.len() - 2) * MAX_EDGE_LEN + MAX_EDGE_LEN == (s.len() - 1) * MAX_EDGE_LEN)
            by (nonlinear_arith);
    }
}

/// `path_len` can also be peeled from the front.
pub proof fn lemma_path_len_first(s: Seq<City>)
    requires
        s.len() >= 2,
    ensures
        path_len(s) == dist(s[0], s[1]) + path_len(s.drop_first()),
    decreases s.len(),
{
    if s.len() == 2 {
        assert(path_len(s.drop_last()) == 0);
        assert(path_len(s.drop_first()) == 0);
        assert(path_len(s) == path_len(s.drop_last()) + dist(s[0], s[1]));
    } else {
        let a = s.drop_last();
        lemma_path_len_first(a);
        assert(a[0] == s[0] && a[1] == s[1]);
        assert(path_len(s) == path_len(a) + dist(s[s.len() - 2], s[s.len() - 1]));
        assert(a.drop_first() =~= s.drop_first().drop_last());
        let d = s.drop_first();
        assert(d.len() == s.len() - 1 >= 2);
        assert(path_len(d) == path_len(d.drop_last()) + dist(d[d.len() - 2], d[d.len() - 1]));
        assert(d[d.len() - 2] == s[s.len() - 2] && d[d.len() - 1] == s[s.len() - 1]);
    }
}

/// `path_len` of a concatenation: the two parts plus the bridging edge.
pub proof fn lemma_path_len_concat(a: Seq<City>, b: Seq<City>)
    ensures
        path_len(a + b) == path_len(a) + path_len(b) + if a.len() > 0 && b.len() > 0 {
            dist(a.last(), b[0])
        } else {
            0
        },
    decreases b.len(),
{
    if b.len() == 0 {
        assert(a + b =~= a);
    } else if b.len() == 1 {
        if a.len() == 0 {
            assert(a + b =~= b);
        } else {
            assert((a + b).drop_last() =~= a);
            assert((a + b)[a.len() + b.len() - 2] == a.last());
            assert((a + b)[a.len() + b.len() - 1] == b[0]);
        }
    } else {
        lemma_path_len_concat(a, b.drop_last());
        assert((a + b).drop_last() =~= a + b.drop_last());
        assert(b.drop_last()[0] == b[0]);
        assert((a + b)[a.len() + b.len() - 2] == b[b.len() - 2]);
        assert((a + b)[a.len() + b.len() - 1] == b[b.len() - 1]);
    }
}

/// Reversing a sequence leaves its path length unchanged, since the
/// metric is symmetric.
pub proof fn lemma_path_len_reverse(s: Seq<City>)
    ensures
        path_len(s.reverse()) == path_len(s),
    decreases s.len(),
{
    if s.len() < 2 {
    } else {
        let r = s.reverse();
        assert(r.len() == s.len());
        lemma_path_len_first(r);
        assert(r.drop_first() =~= s.drop_last().reverse());
        lemma_path_len_reverse(s.drop_last());
        lemma_dist_symmetric(s[s.len() - 1], s[s.len() - 2]);
        assert(r[0] == s[s.len() - 1] && r[1] == s[s.len() - 2]);
    }
}

/// Total length of a visiting sequence: the sum of the truncated distances
/// over consecutive pairs.  For a closed tour the caller has appended the
/// closing duplicate, so the final edge back to the start is included.
pub fn total_distance(cities: &Vec<City>) -> (r: i64)
    requires
        all_in_bounds(cities@),
        1 <= cities@.len() <= MAX_CITIES,
    ensures
        r == path_len(cities@),
        0 <= r <= (cities@.len() - 1) * MAX_EDGE_LEN,
{
    let mut sum: i64 = 0;
    let mut i: usize = 1;
    proof {
        assert(cities@.take(1).len() < 2);
    }
    while i < cities.len()
        invariant
            1 <= i <= cities@.len() <= MAX_CITIES,
            all_in_bounds(cities@),
            sum == path_len(cities@.take(i as int)),
            0 <= sum <= (i - 1) * MAX_EDGE_LEN,
        decreases cities@.len() - i,
    {
        proof {
            lemma_dist_bounds(cities@[i - 1], cities@[i as int]);
            assert((i - 1) * MAX_EDGE_LEN + MAX_EDGE_LEN == i * MAX_EDGE_LEN) by (nonlinear_arith);
            assert(i * MAX_EDGE_LEN <= (MAX_CITIES - 1) * MAX_EDGE_LEN) by (nonlinear_arith)
                requires i < cities@.len() <= MAX_CITIES as int;
            let t = cities@.take(i + 1);
            assert(t.drop_last() =~= cities@.take(i as int));
            assert(path_len(t) == path_len(cities@.take(i as int)) + dist(cities@[i - 1], cities@[i as int]));
        }
        sum = sum + distance(cities[i - 1], cities[i]);
        i = i + 1;
    }
    proof {
        assert(cities@.take(cities@.len() as int) =~= cities@);
    }
    sum
}

/// Total length of a closed tour (the closing duplicate already appended).
/// Two calls on the same tour return the same integer, since the result
/// equals `path_len` of the sequence.
pub fn tour_length(closed_tour: &Vec<City>) -> (r: i64)
    requires
        all_in_bounds(closed_tour@),
        1 <= closed_tour@.len() <= MAX_CITIES,
    ensures
        r == path_len(closed_tour@),
{
    total_distance(closed_tour)
}

} // verus!
