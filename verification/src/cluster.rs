//! Union-find forest over body indices, used to merge bodies that touch into one cluster.
//!
//! Each body points to a parent body; a body that points to itself is the root of its cluster.
//! `find` compresses paths as it goes. The abstract view maps every body to the root of its
//! cluster.

use crate::spatial_hash::{adjacent, candidates, inner_cell, lemma_candidates_exact, Cell};
use vstd::prelude::*;

verus! {

pub struct ClusterForest {
    parent: Vec<usize>,
    /// Root of the cluster of each body.
    rep: Ghost<Seq<usize>>,
    /// A rank that strictly grows from a body to its parent.
    rank: Ghost<Seq<nat>>,
    /// Strict upper bound on every rank.
    bound: Ghost<nat>,
}

impl View for ClusterForest {
    type V = Seq<usize>;

    /// The root of the cluster of each body.
    closed spec fn view(&self) -> Seq<usize> {
        self.rep@
    }
}

/// The view of a forest where every body is alone in its own cluster.
pub open spec fn singletons(n: nat) -> Seq<usize> {
    Seq::new(n, |i: int| i as usize)
}

/// The view after the cluster rooted at `from` is joined to the cluster rooted at `to`.
pub open spec fn joined(roots: Seq<usize>, from: usize, to: usize) -> Seq<usize> {
    roots.map_values(|r: usize| if r == from { to } else { r })
}

/// The view after the clusters of `a` and `b` are merged: of their two roots, the one of
/// greater weight stays root, that of `a` on a tie.
pub open spec fn merge_step(roots: Seq<usize>, a: usize, b: usize, weight: Seq<usize>) -> Seq<
    usize,
> {
    let ra = roots[a as int];
    let rb = roots[b as int];
    if ra == rb {
        roots
    } else if weight[ra as int] >= weight[rb as int] {
        joined(roots, rb, ra)
    } else {
        joined(roots, ra, rb)
    }
}

/// The view after merging, from `start`, the pairs of `edges` in order.
pub open spec fn merged(start: Seq<usize>, edges: Seq<(usize, usize)>, weight: Seq<usize>) -> Seq<
    usize,
>
    decreases edges.len(),
{
    if edges.len() == 0 {
        start
    } else {
        let (a, b) = edges.last();
        merge_step(merged(start, edges.drop_last(), weight), a, b, weight)
    }
}

/// Bodies `x` and `y` are joined by a path of edges of `edges`. Adding an edge `(a, b)` joins
/// the pairs whose path goes through it: one end joined to `a` and the other to `b`.
pub open spec fn connected(edges: Seq<(usize, usize)>, x: usize, y: usize) -> bool
    decreases edges.len(),
{
    if edges.len() == 0 {
        x == y
    } else {
        let rest = edges.drop_last();
        let (a, b) = edges.last();
        ||| connected(rest, x, y)
        ||| (connected(rest, x, a) && connected(rest, b, y))
        ||| (connected(rest, x, b) && connected(rest, a, y))
    }
}

/// The touching pairs of body `i` among its first `k` candidates: `(i, found[j])` for every
/// `j < k` whose flag `touching[j]` is set, in candidate order.
pub open spec fn body_edges(i: usize, found: Seq<usize>, touching: Seq<bool>, k: int) -> Seq<
    (usize, usize),
>
    decreases k,
{
    if k <= 0 {
        seq![]
    } else {
        body_edges(i, found, touching, k - 1) + (if touching[k - 1] {
            seq![(i, found[k - 1])]
        } else {
            seq![]
        })
    }
}

/// The touching pairs of the first `i` bodies, body by body.
pub open spec fn touch_edges(found: Seq<Vec<usize>>, touching: Seq<Vec<bool>>, i: int) -> Seq<
    (usize, usize),
>
    decreases i,
{
    if i <= 0 {
        seq![]
    } else {
        touch_edges(found, touching, i - 1) + body_edges(
            (i - 1) as usize,
            found[i - 1]@,
            touching[i - 1]@,
            found[i - 1]@.len() as int,
        )
    }
}

impl ClusterForest {
    /// Two bodies share a root exactly when `edges` connects them.
    pub open spec fn clusters_are(&self, edges: Seq<(usize, usize)>) -> bool {
        forall|x: usize, y: usize|
            x < self@.len() && y < self@.len() ==> (self@[x as int] == self@[y as int] <==> #[trigger] connected(
                edges,
                x,
                y,
            ))
    }

    /// Invariant of the forest: ranks grow along parent links, so following parents ends in a
    /// root, and that root is the recorded representative.
    pub closed spec fn wf(&self) -> bool {
        let n = self.parent@.len();
        &&& n <= usize::MAX
        &&& self.rep@.len() == n
        &&& self.rank@.len() == n
        &&& forall|i: int| 0 <= i < n ==> #[trigger] self.body_ok(i)
    }

    closed spec fn body_ok(&self, i: int) -> bool {
        let p = self.parent@[i] as int;
        let r = self.rep@[i] as int;
        let n = self.parent@.len();
        &&& p < n
        &&& r < n
        &&& self.parent@[r] == r
        &&& self.rep@[p] == r
        &&& (p == i ==> r == i)
        &&& (p != i ==> self.rank@[p] > self.rank@[i])
        &&& self.rank@[i] <= self.rank@[r]
        &&& self.rank@[i] < self.bound@
    }

    /// How far the rank of body `i` is below the bound: shrinks at every step towards a root.
    pub closed spec fn height_left(&self, i: int) -> int {
        self.bound@ - self.rank@[i]
    }

    /// The ghost ranks and their bound, which path compression leaves alone.
    pub closed spec fn ranks(&self) -> (Seq<nat>, nat) {
        (self.rank@, self.bound@)
    }

    /// Number of bodies in the forest.
    pub closed spec fn len(&self) -> nat {
        self.parent@.len()
    }

    /// A forest over no bodies.
    pub fn new() -> (forest: ClusterForest)
        ensures
            forest.wf(),
            forest.len() == 0,
            forest@ == Seq::<usize>::empty(),
    {
        ClusterForest {
            parent: Vec::new(),
            rep: Ghost(Seq::empty()),
            rank: Ghost(Seq::empty()),
            bound: Ghost(1),
        }
    }

    /// Makes every one of `n` bodies a cluster of its own.
    pub fn reset(&mut self, n: usize)
        ensures
            final(self).wf(),
            final(self).len() == n,
            final(self)@ == singletons(n as nat),
    {
        self.parent.clear();
        let mut i: usize = 0;
        while i < n
            invariant
                i <= n,
                self.parent@ == singletons(i as nat),
            decreases n - i,
        {
            self.parent.push(i);
            i = i + 1;
        }
        self.rep = Ghost(singletons(n as nat));
        self.rank = Ghost(Seq::new(n as nat, |i: int| 0nat));
        self.bound = Ghost(1);
        assert forall|j: int| 0 <= j < n implies #[trigger] self.body_ok(j) by {}
    }

    /// The root of the cluster of body `i`. Every body on the way to the root is linked to the
    /// root directly afterwards; the clusters do not change.
    pub fn find(&mut self, i: usize) -> (root: usize)
        requires
            old(self).wf(),
            i < old(self).len(),
        ensures
            final(self).wf(),
            final(self).len() == old(self).len(),
            final(self)@ == old(self)@,
            final(self).ranks() == old(self).ranks(),
            root == old(self)@[i as int],
        decreases old(self).height_left(i as int),
    {
        proof {
            assert(self.body_ok(i as int));
        }
        let p = self.parent[i];
        if p == i {
            i
        } else {
            proof {
                assert(self.body_ok(p as int));
            }
            let root = self.find(p);
            let ghost mid = *self;
            proof {
                assert(old(self).body_ok(p as int));
                assert(mid.body_ok(i as int));
                assert(mid.body_ok(root as int));
                assert(root != i);
            }
            self.parent.set(i, root);
            proof {
                assert forall|j: int| 0 <= j < self.len() implies #[trigger] self.body_ok(j) by {
                    assert(mid.body_ok(j));
                }
            }
            root
        }
    }

    /// Joins the cluster rooted at `from` to the cluster rooted at `to`: every body of the
    /// first cluster now has `to` as its root.
    pub fn link(&mut self, from: usize, to: usize)
        requires
            old(self).wf(),
            from < old(self).len(),
            to < old(self).len(),
            from != to,
            old(self)@[from as int] == from,
            old(self)@[to as int] == to,
        ensures
            final(self).wf(),
            final(self).len() == old(self).len(),
            final(self)@ == joined(old(self)@, from, to),
    {
        let ghost old_forest = *self;
        proof {
            assert(self.body_ok(from as int));
            assert(self.body_ok(to as int));
        }
        self.parent.set(from, to);
        let ghost new_rank: nat = if self.rank@[to as int] > self.rank@[from as int] + 1 {
            self.rank@[to as int]
        } else {
            self.rank@[from as int] + 1
        };
        self.rank = Ghost(self.rank@.update(to as int, new_rank));
        self.rep = Ghost(joined(self.rep@, from, to));
        self.bound = Ghost(
            if old_forest.bound@ > new_rank + 1 {
                old_forest.bound@
            } else {
                new_rank + 1
            },
        );
        proof {
            assert forall|j: int| 0 <= j < self.len() implies #[trigger] self.body_ok(j) by {
                assert(old_forest.body_ok(j));
                let p = old_forest.parent@[j] as int;
                assert(old_forest.body_ok(p));
            }
        }
    }

    /// Every body weighs no more than the root of its cluster.
    pub open spec fn roots_heaviest(&self, weight: Seq<usize>) -> bool {
        forall|i: int| 0 <= i < self@.len() ==> weight[#[trigger] self@[i] as int] >= weight[i]
    }

    /// Merges the clusters of bodies `i` and `j`: of their two roots, the one of greater weight
    /// stays root, that of `i` on a tie. `weight` orders the bodies as their masses do.
    pub fn merge(&mut self, i: usize, j: usize, weight: &Vec<usize>)
        requires
            old(self).wf(),
            i < old(self).len(),
            j < old(self).len(),
            weight@.len() == old(self).len(),
        ensures
            final(self).wf(),
            final(self).len() == old(self).len(),
            final(self)@ == merge_step(old(self)@, i, j, weight@),
            old(self).roots_heaviest(weight@) ==> final(self).roots_heaviest(weight@),
    {
        let ghost before = self@;
        proof {
            lemma_roots_are_fixed(self, i as int);
            lemma_roots_are_fixed(self, j as int);
        }
        let root_i = self.find(i);
        let root_j = self.find(j);
        if root_i != root_j {
            if weight[root_i] >= weight[root_j] {
                self.link(root_j, root_i);
            } else {
                self.link(root_i, root_j);
            }
        }
        proof {
            if forall|x: int| 0 <= x < before.len() ==> weight@[#[trigger] before[x] as int] >= weight@[x] {
                assert forall|x: int| 0 <= x < self@.len() implies weight@[#[trigger] self@[x] as int]
                    >= weight@[x] by {
                    assert(weight@[before[x] as int] >= weight@[x]);
                }
            }
        }
    }

    /// Merges the clusters of every touching pair, from a fresh forest of `n` bodies.
    /// `found[i]` lists the candidates of body `i` (the bodies it may touch) and `touching[i]`
    /// flags those it does touch; pairs are merged body by body, in candidate order, each by the
    /// rule of `merge`. The clusters are then exactly the connected groups of touching bodies,
    /// and the root of each is a heaviest body of its cluster.
    pub fn merge_touching(
        &mut self,
        n: usize,
        found: &Vec<Vec<usize>>,
        touching: &Vec<Vec<bool>>,
        weight: &Vec<usize>,
    )
        requires
            found@.len() == n,
            touching@.len() == n,
            weight@.len() == n,
            forall|i: int| 0 <= i < n ==> (#[trigger] touching@[i])@.len() == found@[i]@.len(),
            forall|i: int, k: int|
                0 <= i < n && 0 <= k < found@[i]@.len() ==> (#[trigger] found@[i]@[k]) < n,
        ensures
            final(self).wf(),
            final(self).len() == n,
            final(self)@.len() == n,
            final(self)@ == merged(singletons(n as nat), touch_edges(found@, touching@, n as int), weight@),
            final(self).clusters_are(touch_edges(found@, touching@, n as int)),
            final(self).roots_heaviest(weight@),
    {
        self.reset(n);
        assert(self@ == merged(singletons(n as nat), touch_edges(found@, touching@, 0), weight@)) by {
            assert(touch_edges(found@, touching@, 0) =~= Seq::<(usize, usize)>::empty());
        }
        proof {
            lemma_singletons_roots_heaviest(self, weight@);
            assert(self@.len() == n) by {
                lemma_view_len(self);
            }
            assert forall|x: usize, y: usize| x < self@.len() && y < self@.len() implies (self@[x as int]
                == self@[y as int] <==> #[trigger] connected(touch_edges(found@, touching@, 0), x, y)) by {
                assert(touch_edges(found@, touching@, 0) =~= Seq::<(usize, usize)>::empty());
            }
        }
        let mut i: usize = 0;
        while i < n
            invariant
                i <= n,
                found@.len() == n,
                touching@.len() == n,
                weight@.len() == n,
                forall|i: int| 0 <= i < n ==> (#[trigger] touching@[i])@.len() == found@[i]@.len(),
                forall|i: int, k: int|
                    0 <= i < n && 0 <= k < found@[i]@.len() ==> (#[trigger] found@[i]@[k]) < n,
                self.wf(),
                self.len() == n,
                self@.len() == n,
                self.clusters_are(touch_edges(found@, touching@, i as int)),
                self@ == merged(singletons(n as nat), touch_edges(found@, touching@, i as int), weight@),
                self.roots_heaviest(weight@),
            decreases n - i,
        {
            let cands = &found[i];
            let flags = &touching[i];
            let m = cands.len();
            let ghost before = touch_edges(found@, touching@, i as int);
            let mut k: usize = 0;
            proof {
                assert(before + body_edges(i, cands@, flags@, 0) =~= before);
            }
            while k < m
                invariant
                    i < n,
                    k <= m,
                    m == cands@.len(),
                    flags@.len() == m,
                    weight@.len() == n,
                    forall|q: int| 0 <= q < m ==> (#[trigger] cands@[q]) < n,
                    self.wf(),
                    self.len() == n,
                    self@.len() == n,
                    self.clusters_are(before + body_edges(i, cands@, flags@, k as int)),
                    self@ == merged(singletons(n as nat), before + body_edges(i, cands@, flags@, k as int), weight@),
                    self.roots_heaviest(weight@),
                decreases m - k,
            {
                let ghost edges = before + body_edges(i, cands@, flags@, k as int);
                if flags[k] {
                    let j = cands[k];
                    let ghost old_view = self@;
                    self.merge(i, j, weight);
                    proof {
                        lemma_merge_adds_edge(old_view, self@, edges, i, j, weight@);
                        assert(before + body_edges(i, cands@, flags@, k + 1) =~= edges.push((i, j)));
                        assert(edges.push((i, j)).drop_last() =~= edges);
                    }
                } else {
                    proof {
                        assert(before + body_edges(i, cands@, flags@, k + 1) =~= edges);
                    }
                }
                k = k + 1;
            }
            proof {
                assert(touch_edges(found@, touching@, i + 1) =~= before + body_edges(
                    i,
                    cands@,
                    flags@,
                    m as int,
                ));
            }
            i = i + 1;
        }
    }

    /// Whether body `i` is the root of its cluster, read without changing the forest.
    pub fn is_root(&self, i: usize) -> (root: bool)
        requires
            self.wf(),
            i < self.len(),
        ensures
            root == (self@[i as int] == i),
    {
        proof {
            assert(self.body_ok(i as int));
        }
        self.parent[i] == i
    }
}

/// The root of a cluster is its own root, and the view holds a root for every body.
pub proof fn lemma_roots_are_fixed(forest: &ClusterForest, i: int)
    requires
        forest.wf(),
        0 <= i < forest.len(),
    ensures
        forest@.len() == forest.len(),
        forest@[i] < forest.len(),
        forest@[forest@[i] as int] == forest@[i],
{
    assert(forest.body_ok(i));
    assert(forest.body_ok(forest.rep@[i] as int));
}

proof fn lemma_view_len(forest: &ClusterForest)
    requires
        forest.wf(),
    ensures
        forest@.len() == forest.len(),
{
}

/// Merging the clusters of `a` and `b` adds the edge `(a, b)` to the edges the clusters follow.
proof fn lemma_merge_adds_edge(
    before: Seq<usize>,
    after: Seq<usize>,
    edges: Seq<(usize, usize)>,
    a: usize,
    b: usize,
    weight: Seq<usize>,
)
    requires
        a < before.len(),
        b < before.len(),
        forall|x: usize, y: usize|
            x < before.len() && y < before.len() ==> (before[x as int] == before[y as int] <==> #[trigger] connected(
                edges,
                x,
                y,
            )),
        after == merge_step(before, a, b, weight),
    ensures
        after.len() == before.len(),
        forall|x: usize, y: usize|
            x < after.len() && y < after.len() ==> (after[x as int] == after[y as int] <==> #[trigger] connected(
                edges.push((a, b)),
                x,
                y,
            )),
{
    let ra = before[a as int];
    let rb = before[b as int];
    assert forall|x: usize, y: usize| x < after.len() && y < after.len() implies (after[x as int]
        == after[y as int] <==> #[trigger] connected(edges.push((a, b)), x, y)) by {
        let e = edges.push((a, b));
        assert(e.drop_last() =~= edges);
        assert(e.last() == (a, b));
        assert(connected(edges, x, y) == (before[x as int] == before[y as int]));
        assert(connected(edges, x, a) == (before[x as int] == ra));
        assert(connected(edges, b, y) == (rb == before[y as int]));
        assert(connected(edges, x, b) == (before[x as int] == rb));
        assert(connected(edges, a, y) == (ra == before[y as int]));
        if ra != rb {
            if weight[ra as int] >= weight[rb as int] {
                lemma_joined_merges_two(before, rb, ra, x as int, y as int);
            } else {
                lemma_joined_merges_two(before, ra, rb, x as int, y as int);
            }
        }
    }
}

/// A forest of singletons has every body as the root of its own cluster, so every root is a
/// heaviest body of its cluster whatever the weights; `merge` keeps it so.
pub proof fn lemma_singletons_roots_heaviest(forest: &ClusterForest, weight: Seq<usize>)
    requires
        forest.wf(),
        forest@ == singletons(forest@.len()),
        weight.len() == forest@.len(),
    ensures
        forest.roots_heaviest(weight),
{
    assert forall|i: int| 0 <= i < forest@.len() implies weight[#[trigger] forest@[i] as int] >= weight[i] by {
        assert(forest@.len() == forest.len());
        assert(forest@[i] == i as usize);
    }
}

/// Joining two clusters merges exactly those two: afterwards two bodies share a root iff they
/// shared one before, or one was in the cluster of `from` and the other in that of `to`.
pub proof fn lemma_joined_merges_two(roots: Seq<usize>, from: usize, to: usize, x: int, y: int)
    requires
        0 <= x < roots.len(),
        0 <= y < roots.len(),
    ensures
        (joined(roots, from, to)[x] == joined(roots, from, to)[y]) <==> (roots[x] == roots[y] || (
        roots[x] == from && roots[y] == to) || (roots[x] == to && roots[y] == from)),
{
}

proof fn lemma_body_edges_contain(
    i: usize,
    found: Seq<usize>,
    touching: Seq<bool>,
    k: int,
    a: usize,
    b: usize,
)
    requires
        0 <= k <= found.len(),
        touching.len() == found.len(),
    ensures
        body_edges(i, found, touching, k).contains((a, b)) <==> a == i && exists|q: int|
            0 <= q < k && touching[q] && found[q] == b,
    decreases k,
{
    if k > 0 {
        lemma_body_edges_contain(i, found, touching, k - 1, a, b);
        let rest = body_edges(i, found, touching, k - 1);
        let top: Seq<(usize, usize)> = if touching[k - 1] {
            seq![(i, found[k - 1])]
        } else {
            seq![]
        };
        let all = body_edges(i, found, touching, k);
        assert(all == rest + top);
        if all.contains((a, b)) {
            let p = choose|p: int| 0 <= p < all.len() && all[p] == (a, b);
            if p < rest.len() {
                assert(rest[p] == (a, b));
                assert(rest.contains((a, b)));
            } else {
                assert(top[p - rest.len()] == (a, b));
            }
        }
        if a == i && exists|q: int| 0 <= q < k && touching[q] && found[q] == b {
            let q = choose|q: int| 0 <= q < k && touching[q] && found[q] == b;
            if q < k - 1 {
                assert(rest.contains((a, b)));
                let p = choose|p: int| 0 <= p < rest.len() && rest[p] == (a, b);
                assert(all[p] == (a, b));
            } else {
                assert(all[rest.len() as int] == (a, b));
            }
        }
    }
}

proof fn lemma_touch_edges_contain(
    found: Seq<Vec<usize>>,
    touching: Seq<Vec<bool>>,
    upto: int,
    a: usize,
    b: usize,
)
    requires
        0 <= upto <= found.len(),
        touching.len() == found.len(),
        forall|i: int| 0 <= i < found.len() ==> (#[trigger] touching[i])@.len() == found[i]@.len(),
        upto <= usize::MAX + 1,
    ensures
        touch_edges(found, touching, upto).contains((a, b)) <==> a < upto && exists|q: int|
            0 <= q < found[a as int]@.len() && touching[a as int]@[q] && found[a as int]@[q] == b,
    decreases upto,
{
    if upto > 0 {
        let i = upto - 1;
        lemma_touch_edges_contain(found, touching, i, a, b);
        assert(touching[i]@.len() == found[i]@.len());
        lemma_body_edges_contain(i as usize, found[i]@, touching[i]@, found[i]@.len() as int, a, b);
        let rest = touch_edges(found, touching, i);
        let mine = body_edges(i as usize, found[i]@, touching[i]@, found[i]@.len() as int);
        let all = touch_edges(found, touching, upto);
        assert(all == rest + mine);
        if all.contains((a, b)) {
            let p = choose|p: int| 0 <= p < all.len() && all[p] == (a, b);
            if p < rest.len() {
                assert(rest[p] == (a, b));
                assert(rest.contains((a, b)));
            } else {
                assert(mine[p - rest.len()] == (a, b));
                assert(mine.contains((a, b)));
            }
        }
        if rest.contains((a, b)) {
            let p = choose|p: int| 0 <= p < rest.len() && rest[p] == (a, b);
            assert(all[p] == (a, b));
        }
        if mine.contains((a, b)) {
            let p = choose|p: int| 0 <= p < mine.len() && mine[p] == (a, b);
            assert(all[p + rest.len()] == (a, b));
        }
    }
}

/// When `found[i]` holds the candidates of the sweep around body `i`, the pairs that
/// `merge_touching` follows are exactly the pairs `(i, j)` with `i < j` whose cells are
/// adjacent and whose candidate flag is set: every touching pair of neighbouring bodies, once.
pub proof fn lemma_touch_edges_are_touching_neighbors(
    cells: Seq<Cell>,
    found: Seq<Vec<usize>>,
    touching: Seq<Vec<bool>>,
    i: usize,
    j: usize,
)
    requires
        found.len() == cells.len(),
        touching.len() == cells.len(),
        cells.len() <= usize::MAX,
        forall|b: int| 0 <= b < cells.len() ==> inner_cell(#[trigger] cells[b]),
        forall|b: int| 0 <= b < cells.len() ==> (#[trigger] found[b])@ == candidates(cells, b, 27),
        forall|b: int| 0 <= b < cells.len() ==> (#[trigger] touching[b])@.len() == found[b]@.len(),
    ensures
        touch_edges(found, touching, cells.len() as int).contains((i, j)) <==> {
            &&& i < j < cells.len()
            &&& adjacent(cells[i as int], cells[j as int])
            &&& exists|q: int|
                0 <= q < found[i as int]@.len() && touching[i as int]@[q] && found[i as int]@[q] == j
        },
{
    lemma_touch_edges_contain(found, touching, cells.len() as int, i, j);
    if i < cells.len() {
        lemma_candidates_exact(cells, i as int);
        if exists|q: int|
            0 <= q < found[i as int]@.len() && touching[i as int]@[q] && found[i as int]@[q] == j {
            let q = choose|q: int|
                0 <= q < found[i as int]@.len() && touching[i as int]@[q] && found[i as int]@[q] == j;
            assert(found[i as int]@[q] < cells.len());
            assert(candidates(cells, i as int, 27).contains(j));
        }
    }
}

} // verus!
