//! Disjoint-set (union-find) over city indices, with path compression and
//! union by size.
//!
//! The structure tracks which cities have been connected by accepted edges
//! during greedy construction.  Its abstract state is the sequence of
//! representatives `reps()`: two indices are in the same component exactly
//! when their representatives are equal, and that in turn holds exactly
//! when the history of `unite` calls connects them (`joined`).

use vstd::prelude::*;

verus! {

/// `x` and `y` are connected through the pairs united so far: either they
/// are the same index, or some united pair bridges two already-connected
/// indices.
pub open spec fn joined(pairs: Seq<(usize, usize)>, x: int, y: int) -> bool
    decreases pairs.len(),
{
    if pairs.len() == 0 {
        x == y
    } else {
        let a = pairs.last().0 as int;
        let b = pairs.last().1 as int;
        let rest = pairs.drop_last();
        joined(rest, x, y) || (joined(rest, x, a) && joined(rest, b, y)) || (joined(rest, x, b)
            && joined(rest, a, y))
    }
}

/// Number of indices whose representative is `r`.
pub open spec fn comp_size(reps: Seq<usize>, r: usize) -> nat
    decreases reps.len(),
{
    if reps.len() == 0 {
        0
    } else {
        comp_size(reps.drop_last(), r) + if reps.last() == r {
            1nat
        } else {
            0nat
        }
    }
}

proof fn lemma_comp_size_le_len(reps: Seq<usize>, r: usize)
    ensures
        comp_size(reps, r) <= reps.len(),
    decreases reps.len(),
{
    if reps.len() > 0 {
        lemma_comp_size_le_len(reps.drop_last(), r);
    }
}

/// An index's own component counts it, and no component outgrows the
/// index range.
pub proof fn lemma_comp_size_member(reps: Seq<usize>, i: int)
    requires
        0 <= i < reps.len(),
    ensures
        1 <= comp_size(reps, reps[i]) <= reps.len(),
    decreases reps.len(),
{
    lemma_comp_size_le_len(reps, reps[i]);
    if i == reps.len() - 1 {
        lemma_comp_size_le_len(reps.drop_last(), reps[i]);
    } else {
        assert(reps.drop_last()[i] == reps[i]);
        lemma_comp_size_member(reps.drop_last(), i);
    }
}

/// Two distinct representatives never account for more than the whole
/// index range together.
proof fn lemma_comp_size_pair(reps: Seq<usize>, r1: usize, r2: usize)
    requires
        r1 != r2,
    ensures
        comp_size(reps, r1) + comp_size(reps, r2) <= reps.len(),
    decreases reps.len(),
{
    if reps.len() > 0 {
        lemma_comp_size_pair(reps.drop_last(), r1, r2);
    }
}

/// Identity representatives: every value below the length occurs once.
proof fn lemma_comp_size_identity(reps: Seq<usize>, r: usize)
    requires
        reps.len() <= usize::MAX,
        forall|i: int| 0 <= i < reps.len() ==> #[trigger] reps[i] == i as usize,
    ensures
        comp_size(reps, r) == if (r as int) < reps.len() {
            1nat
        } else {
            0nat
        },
    decreases reps.len(),
{
    if reps.len() > 0 {
        assert(reps.last() == (reps.len() - 1) as usize);
        lemma_comp_size_identity(reps.drop_last(), r);
    }
}

/// Merging the class of `child` into the class of `root2` moves exactly
/// `comp_size(child)` indices to `root2` and leaves other classes alone.
proof fn lemma_comp_size_merge(reps: Seq<usize>, reps2: Seq<usize>, child: usize, root2: usize)
    requires
        child != root2,
        reps2.len() == reps.len(),
        forall|i: int| 0 <= i < reps.len() ==> #[trigger] reps2[i] == (if reps[i] == child {
            root2
        } else {
            reps[i]
        }),
    ensures
        comp_size(reps2, root2) == comp_size(reps, child) + comp_size(reps, root2),
        comp_size(reps2, child) == 0,
        forall|c: usize| c != child && c != root2 ==> comp_size(reps2, c) == comp_size(reps, c),
    decreases reps.len(),
{
    if reps.len() > 0 {
        let r1 = reps.drop_last();
        let r2 = reps2.drop_last();
        assert forall|i: int| 0 <= i < r1.len() implies #[trigger] r2[i] == (if r1[i] == child {
            root2
        } else {
            r1[i]
        }) by {
            assert(reps2[i] == (if reps[i] == child {
                root2
            } else {
                reps[i]
            }));
        }
        lemma_comp_size_merge(r1, r2, child, root2);
        assert(reps2.last() == (if reps.last() == child {
            root2
        } else {
            reps.last()
        }));
        assert forall|c: usize| c != child && c != root2 implies comp_size(reps2, c) == comp_size(
            reps,
            c,
        ) by {
            assert(comp_size(r2, c) == comp_size(r1, c));
        }
    }
}

/// Path-compressing union-find with union by size.
pub struct UnionFind {
    parent: Vec<usize>,
    size: Vec<usize>,
    rep: Ghost<Seq<usize>>,
    level: Ghost<Seq<nat>>,
    hist: Ghost<Seq<(usize, usize)>>,
}

impl UnionFind {
    /// Number of indices tracked.
    pub closed spec fn len(&self) -> nat {
        self.parent@.len()
    }

    /// The representative of each index's component.
    pub closed spec fn reps(&self) -> Seq<usize> {
        self.rep@
    }

    /// The pairs handed to `unite` so far, in order.
    pub closed spec fn history(&self) -> Seq<(usize, usize)> {
        self.hist@
    }

    /// Internal consistency: parent pointers stay in range and lead, with
    /// strictly decreasing levels, to the fixed point that the ghost
    /// representative sequence records; sizes at roots count their
    /// components; representative equality coincides with connectivity
    /// through the recorded history.
    pub closed spec fn wf(&self) -> bool {
        let n = self.parent@.len() as int;
        &&& self.size@.len() == n
        &&& self.rep@.len() == n
        &&& self.level@.len() == n
        &&& forall|i: int| 0 <= i < n ==> (#[trigger] self.parent@[i]) < n
        &&& forall|i: int| 0 <= i < n ==> (#[trigger] self.rep@[i]) < n
        &&& forall|i: int|
            0 <= i < n ==> self.rep@[(#[trigger] self.rep@[i]) as int] == self.rep@[i]
        &&& forall|i: int|
            0 <= i < n ==> ((#[trigger] self.parent@[i]) == i <==> self.rep@[i] == i as usize)
        &&& forall|i: int|
            0 <= i < n ==> self.rep@[(#[trigger] self.parent@[i]) as int] == self.rep@[i]
        &&& forall|i: int|
            0 <= i < n && (#[trigger] self.parent@[i]) != i ==> self.level@[self.parent@[i] as int]
                < self.level@[i]
        &&& forall|i: int|
            0 <= i < n && (#[trigger] self.parent@[i]) != i ==> self.level@[self.rep@[i] as int]
                < self.level@[i]
        &&& forall|r: int|
            0 <= r < n && (#[trigger] self.rep@[r]) == r as usize ==> self.size@[r] == comp_size(
                self.rep@,
                r as usize,
            )
        &&& forall|k: int|
            0 <= k < self.hist@.len() ==> ((#[trigger] self.hist@[k]).0 as int) < n && (
            self.hist@[k].1 as int) < n
        &&& forall|x: int, y: int|
            0 <= x < n && 0 <= y < n ==> (self.rep@[x] == self.rep@[y] <==> #[trigger] joined(
                self.hist@,
                x,
                y,
            ))
    }

    /// Creates `n` singleton components, indices `0..n`, with an empty
    /// union history.
    pub fn new(n: usize) -> (uf: UnionFind)
        ensures
            uf.wf(),
            uf.len() == n,
            uf.reps().len() == n,
            uf.history() == Seq::<(usize, usize)>::empty(),
            forall|i: int| 0 <= i < n ==> #[trigger] uf.reps()[i] == i as usize,
    {
        let mut parent: Vec<usize> = Vec::new();
        let mut i: usize = 0;
        while i < n
            invariant
                i <= n,
                parent@.len() == i,
                forall|j: int| 0 <= j < i ==> #[trigger] parent@[j] == j as usize,
            decreases n - i,
        {
            parent.push(i);
            i = i + 1;
        }
        let mut size: Vec<usize> = Vec::new();
        let mut k: usize = 0;
        while k < n
            invariant
                k <= n,
                size@.len() == k,
                forall|j: int| 0 <= j < k ==> #[trigger] size@[j] == 1,
            decreases n - k,
        {
            size.push(1);
            k = k + 1;
        }
        let uf = UnionFind {
            parent,
            size,
            rep: Ghost(Seq::new(n as nat, |i: int| i as usize)),
            level: Ghost(Seq::new(n as nat, |i: int| 0nat)),
            hist: Ghost(Seq::empty()),
        };
        proof {
            assert forall|r: int| 0 <= r < n && (#[trigger] uf.rep@[r]) == r as usize implies
                uf.size@[r] == comp_size(uf.rep@, r as usize) by {
                lemma_comp_size_identity(uf.rep@, r as usize);
            }
        }
        uf
    }

    /// Finds the representative and rewrites the parent of each visited
    /// node to it.  The abstract state does not change.
    fn find_root(&mut self, i: usize) -> (r: usize)
        requires
            old(self).wf(),
            i < old(self).len(),
        ensures
            final(self).wf(),
            final(self).parent@.len() == old(self).parent@.len(),
            final(self).size@ == old(self).size@,
            final(self).rep@ == old(self).rep@,
            final(self).level@ == old(self).level@,
            final(self).hist@ == old(self).hist@,
            r == old(self).rep@[i as int],
        decreases old(self).level@[i as int],
    {
        let p = self.parent[i];
        if p == i {
            return i;
        }
        let r = self.find_root(p);
        let ghost before = self.parent@;
        self.parent.set(i, r);
        proof {
            assert(self.parent@ =~= before.update(i as int, r));
            assert(self.rep@[i as int] != i as usize);
        }
        r
    }

    /// The representative of `i`'s component.
    pub fn root(&mut self, i: usize) -> (r: usize)
        requires
            old(self).wf(),
            i < old(self).len(),
        ensures
            final(self).wf(),
            final(self).len() == old(self).len(),
            final(self).reps() == old(self).reps(),
            final(self).history() == old(self).history(),
            r == old(self).reps()[i as int],
            r < old(self).len(),
            old(self).reps()[r as int] == r,
    {
        let r = self.find_root(i);
        proof {
            assert(self.rep@[self.rep@[i as int] as int] == self.rep@[i as int]);
        }
        r
    }

    /// True iff `a` and `b` are in the same component.
    pub fn same(&mut self, a: usize, b: usize) -> (r: bool)
        requires
            old(self).wf(),
            a < old(self).len(),
            b < old(self).len(),
        ensures
            final(self).wf(),
            final(self).len() == old(self).len(),
            final(self).reps() == old(self).reps(),
            final(self).history() == old(self).history(),
            r == (old(self).reps()[a as int] == old(self).reps()[b as int]),
    {
        let ra = self.find_root(a);
        let rb = self.find_root(b);
        ra == rb
    }

    /// Size of `i`'s component: the number of indices sharing `i`'s
    /// representative.
    pub fn size(&mut self, i: usize) -> (s: usize)
        requires
            old(self).wf(),
            i < old(self).len(),
        ensures
            final(self).wf(),
            final(self).len() == old(self).len(),
            final(self).reps() == old(self).reps(),
            final(self).history() == old(self).history(),
            s == comp_size(old(self).reps(), old(self).reps()[i as int]),
            1 <= s <= old(self).len(),
    {
        let r = self.find_root(i);
        proof {
            lemma_comp_size_member(self.rep@, i as int);
        }
        self.size[r]
    }

    /// Records the pair in the history without changing the partition;
    /// used when a united pair is already connected.
    fn note_pair(&mut self, a: usize, b: usize)
        requires
            old(self).wf(),
            a < old(self).len(),
            b < old(self).len(),
            old(self).rep@[a as int] == old(self).rep@[b as int],
        ensures
            final(self).wf(),
            final(self).parent@.len() == old(self).parent@.len(),
            final(self).rep@ == old(self).rep@,
            final(self).hist@ == old(self).hist@.push((a, b)),
    {
        proof {
            let n = self.parent@.len() as int;
            let h2 = self.hist@.push((a, b));
            assert(h2.drop_last() =~= self.hist@);
            assert forall|x: int, y: int| 0 <= x < n && 0 <= y < n implies (self.rep@[x]
                == self.rep@[y] <==> #[trigger] joined(h2, x, y)) by {
                assert(joined(self.hist@, x, y) <==> self.rep@[x] == self.rep@[y]);
                assert(joined(self.hist@, x, a as int) <==> self.rep@[x] == self.rep@[a as int]);
                assert(joined(self.hist@, b as int, y) <==> self.rep@[b as int] == self.rep@[y]);
                assert(joined(self.hist@, x, b as int) <==> self.rep@[x] == self.rep@[b as int]);
                assert(joined(self.hist@, a as int, y) <==> self.rep@[a as int] == self.rep@[y]);
            }
        }
        self.hist = Ghost(self.hist@.push((a, b)));
    }

    /// Attaches the root `child` under the root `root2`, merging the two
    /// components, and records the pair `(a, b)` that caused the merge.
    fn link(&mut self, child: usize, root2: usize, a: usize, b: usize)
        requires
            old(self).wf(),
            a < old(self).len(),
            b < old(self).len(),
            child < old(self).len(),
            root2 < old(self).len(),
            old(self).rep@[child as int] == child,
            old(self).rep@[root2 as int] == root2,
            child != root2,
            (old(self).rep@[a as int] == child && old(self).rep@[b as int] == root2) || (old(
                self,
            ).rep@[a as int] == root2 && old(self).rep@[b as int] == child),
        ensures
            final(self).wf(),
            final(self).parent@.len() == old(self).parent@.len(),
            final(self).hist@ == old(self).hist@.push((a, b)),
            final(self).rep@ == Seq::new(
                old(self).rep@.len(),
                |i: int|
                    if old(self).rep@[i] == child {
                        root2
                    } else {
                        old(self).rep@[i]
                    },
            ),
    {
        let ghost n = self.parent@.len() as int;
        let ghost parent0 = self.parent@;
        let ghost size0 = self.size@;
        let ghost rep0 = self.rep@;
        let ghost level0 = self.level@;
        let ghost hist0 = self.hist@;
        let n_usize = self.parent.len();
        let sc = self.size[child];
        let sr = self.size[root2];
        proof {
            lemma_comp_size_pair(rep0, child, root2);
            assert(n_usize as int == n);
            assert(rep0[child as int] == child && size0[child as int] == comp_size(rep0, child));
            assert(rep0[root2 as int] == root2 && size0[root2 as int] == comp_size(rep0, root2));
            assert(sc + sr <= n);
        }
        self.parent.set(child, root2);
        self.size.set(root2, sc + sr);
        let ghost rep2 = Seq::new(
            rep0.len(),
            |i: int|
                if rep0[i] == child {
                    root2
                } else {
                    rep0[i]
                },
        );
        let ghost level2 = Seq::new(
            level0.len(),
            |i: int|
                if rep0[i] == child {
                    (level0[i] + level0[root2 as int] + 1) as nat
                } else {
                    level0[i]
                },
        );
        self.rep = Ghost(rep2);
        self.level = Ghost(level2);
        self.hist = Ghost(hist0.push((a, b)));
        proof {
            lemma_comp_size_merge(rep0, rep2, child, root2);
            let parent1 = self.parent@;
            let size1 = self.size@;
            let h2 = self.hist@;
            assert(h2.drop_last() =~= hist0);
            // representatives stay in range and idempotent
            assert forall|i: int| 0 <= i < n implies (#[trigger] rep2[i]) < n && rep2[rep2[i] as int]
                == rep2[i] by {
                assert(rep0[i] < n);
                assert(rep0[rep0[i] as int] == rep0[i]);
            }
            // parent pointers stay in the component, one level down
            assert forall|i: int| 0 <= i < n implies {
                &&& (#[trigger] parent1[i]) < n
                &&& (parent1[i] == i <==> rep2[i] == i as usize)
                &&& rep2[parent1[i] as int] == rep2[i]
                &&& (parent1[i] != i ==> level2[parent1[i] as int] < level2[i])
                &&& (parent1[i] != i ==> level2[rep2[i] as int] < level2[i])
            } by {
                assert(rep0[i] < n);
                assert(rep0[rep0[i] as int] == rep0[i]);
                if i != child as int {
                    let p = parent0[i] as int;
                    assert(parent0[i] < n);
                    assert(rep0[p] == rep0[i]);
                    assert(rep0[rep0[p] as int] == rep0[p]);
                    assert(parent0[i] == i <==> rep0[i] == i as usize);
                    if parent0[i] != i {
                        assert(level0[p] < level0[i]);
                        assert(level0[rep0[i] as int] < level0[i]);
                    }
                }
            }
            // sizes at roots count their components
            assert forall|r: int| 0 <= r < n && (#[trigger] rep2[r]) == r as usize implies size1[r]
                == comp_size(rep2, r as usize) by {
                assert(rep0[r] < n);
                if r != root2 as int {
                    assert(rep2[r] == r as usize);
                    assert(rep0[r] != child);
                    assert(rep0[r] == r as usize);
                    assert(rep2[child as int] == root2);
                    assert(r as usize != child);
                    assert(size0[r] == comp_size(rep0, r as usize));
                    assert(size1[r] == size0[r]);
                    assert(comp_size(rep2, r as usize) == comp_size(rep0, r as usize));
                } else {
                    assert(size1[r] == sc + sr);
                    assert(comp_size(rep2, root2) == comp_size(rep0, child) + comp_size(
                        rep0,
                        root2,
                    ));
                }
            }
            // history entries stay in range
            assert forall|k: int| 0 <= k < h2.len() implies ((#[trigger] h2[k]).0 as int) < n && (
            h2[k].1 as int) < n by {
                if k < hist0.len() {
                    assert(h2[k] == hist0[k]);
                } else {
                    assert(h2[k] == (a, b));
                }
            }
            // representative equality tracks the extended history
            assert forall|x: int, y: int| 0 <= x < n && 0 <= y < n implies (rep2[x] == rep2[y]
                <==> #[trigger] joined(h2, x, y)) by {
                assert(joined(hist0, x, y) <==> rep0[x] == rep0[y]);
                assert(joined(hist0, x, a as int) <==> rep0[x] == rep0[a as int]);
                assert(joined(hist0, b as int, y) <==> rep0[b as int] == rep0[y]);
                assert(joined(hist0, x, b as int) <==> rep0[x] == rep0[b as int]);
                assert(joined(hist0, a as int, y) <==> rep0[a as int] == rep0[y]);
            }
            assert(self.wf());
        }
    }

    /// Merges the components containing `a` and `b`: the root of the
    /// smaller component is attached under the root of the larger
    /// (union by size).  A pair already in one component only extends the
    /// history.
    pub fn unite(&mut self, a: usize, b: usize)
        requires
            old(self).wf(),
            a < old(self).len(),
            b < old(self).len(),
        ensures
            final(self).wf(),
            final(self).len() == old(self).len(),
            final(self).history() == old(self).history().push((a, b)),
            ({
                let ra = old(self).reps()[a as int];
                let rb = old(self).reps()[b as int];
                if ra == rb {
                    final(self).reps() == old(self).reps()
                } else {
                    ({
                        let m = if comp_size(old(self).reps(), ra) < comp_size(
                            old(self).reps(),
                            rb,
                        ) {
                            rb
                        } else {
                            ra
                        };
                        final(self).reps() == Seq::new(
                            old(self).reps().len(),
                            |i: int|
                                if old(self).reps()[i] == ra || old(self).reps()[i] == rb {
                                    m
                                } else {
                                    old(self).reps()[i]
                                },
                        )
                    })
                }
            }),
    {
        let ra = self.find_root(a);
        let rb = self.find_root(b);
        if ra == rb {
            self.note_pair(a, b);
            return;
        }
        let ghost rep0 = self.rep@;
        let ghost h0 = self.hist@;
        let sa = self.size[ra];
        let sb = self.size[rb];
        if sa < sb {
            self.link(ra, rb, a, b);
            proof {
                assert(self.rep@ =~= Seq::new(
                    rep0.len(),
                    |i: int|
                        if rep0[i] == ra || rep0[i] == rb {
                            rb
                        } else {
                            rep0[i]
                        },
                ));
            }
        } else {
            self.link(rb, ra, b, a);
            // linking records (b, a); rewrite the entry in the call's
            // argument order, which joins the same two components
            self.hist = Ghost(h0.push((a, b)));
            proof {
                assert(h0.push((b, a)).drop_last() =~= h0);
                assert(h0.push((a, b)).drop_last() =~= h0);
                let n = self.parent@.len() as int;
                assert forall|x: int, y: int| 0 <= x < n && 0 <= y < n implies (self.rep@[x]
                    == self.rep@[y] <==> #[trigger] joined(self.hist@, x, y)) by {
                    assert(self.rep@[x] == self.rep@[y] <==> joined(h0.push((b, a)), x, y));
                }
                assert(self.wf());
                assert(self.rep@ =~= Seq::new(
                    rep0.len(),
                    |i: int|
                        if rep0[i] == ra || rep0[i] == rb {
                            ra
                        } else {
                            rep0[i]
                        },
                ));
            }
        }
    }

    /// Merges the component of `a` into the component of `b`: the root of
    /// `a`'s component is attached under the root of `b`'s component,
    /// whatever the component sizes.
    pub fn add(&mut self, a: usize, b: usize)
        requires
            old(self).wf(),
            a < old(self).len(),
            b < old(self).len(),
        ensures
            final(self).wf(),
            final(self).len() == old(self).len(),
            final(self).history() == old(self).history().push((a, b)),
            ({
                let ra = old(self).reps()[a as int];
                let rb = old(self).reps()[b as int];
                final(self).reps() == Seq::new(
                    old(self).reps().len(),
                    |i: int|
                        if old(self).reps()[i] == ra {
                            rb
                        } else {
                            old(self).reps()[i]
                        },
                )
            }),
    {
        let ra = self.find_root(a);
        let rb = self.find_root(b);
        if ra == rb {
            self.note_pair(a, b);
            proof {
                assert(self.rep@ =~= Seq::new(
                    self.rep@.len(),
                    |i: int|
                        if self.rep@[i] == ra {
                            rb
                        } else {
                            self.rep@[i]
                        },
                ));
            }
            return;
        }
        self.link(ra, rb, a, b);
    }

    /// Representative equality is exactly connectivity through the
    /// history of united pairs.
    pub proof fn lemma_same_iff_history(&self, x: int, y: int)
        requires
            self.wf(),
            0 <= x < self.len(),
            0 <= y < self.len(),
        ensures
            self.reps()[x] == self.reps()[y] <==> joined(self.history(), x, y),
    {
    }
}

} // verus!
