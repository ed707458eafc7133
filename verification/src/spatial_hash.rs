//! Spatial hash of the grid cells that bodies fall into, used to find the pairs of bodies that
//! may touch without testing every pair.
//!
//! Bodies are chained per hash bucket: `head[b]` is the last body (highest index) in bucket `b`
//! and `next[i]` the body before `i` in the same bucket, `usize::MAX` ending a chain.

use vstd::prelude::*;

verus! {

/// Number of hash buckets; a power of two, so a bucket is the low bits of the hash.
pub const HASH_SIZE: usize = 131072;

/// Marks the end of a bucket chain.
pub const NONE: usize = usize::MAX;

/// Integer coordinates of a grid cell.
pub type Cell = (i32, i32, i32);

/// Hash of a cell: each coordinate, read as a 32-bit unsigned number, times a large prime,
/// wrapping, combined by exclusive or.
pub open spec fn hash_spec(cell: Cell) -> u32 {
    (cell.0 as u32).wrapping_mul(73856093u32) ^ (cell.1 as u32).wrapping_mul(19349663u32) ^ (
    cell.2 as u32).wrapping_mul(83492791u32)
}

/// The bucket of a cell: the low bits of its hash.
pub open spec fn bucket_spec(cell: Cell) -> int {
    ((hash_spec(cell) as usize) & ((HASH_SIZE - 1) as usize)) as int
}

pub fn hash_cell(cell: Cell) -> (hash: usize)
    ensures
        hash == hash_spec(cell) as usize,
{
    let x = cell.0 as u32;
    let y = cell.1 as u32;
    let z = cell.2 as u32;
    (x.wrapping_mul(73856093) ^ y.wrapping_mul(19349663) ^ z.wrapping_mul(83492791)) as usize
}

pub fn bucket_of(cell: Cell) -> (bucket: usize)
    ensures
        bucket == bucket_spec(cell),
        bucket < HASH_SIZE,
{
    let h = hash_cell(cell);
    let b = h & (HASH_SIZE - 1);
    assert(h & 131071usize < 131072usize) by (bit_vector);
    b
}

/// The highest index below `hi` whose cell lies in bucket `b`, or `NONE`.
pub open spec fn latest(cells: Seq<Cell>, b: int, hi: int) -> usize
    decreases hi,
{
    if hi <= 0 {
        NONE
    } else if bucket_spec(cells[hi - 1]) == b {
        (hi - 1) as usize
    } else {
        latest(cells, b, hi - 1)
    }
}

/// The indices in `lo..hi` whose cell is `target`, highest first.
pub open spec fn members_desc(cells: Seq<Cell>, target: Cell, lo: int, hi: int) -> Seq<usize>
    decreases hi - lo,
{
    if hi <= lo {
        seq![]
    } else {
        (if cells[hi - 1] == target {
            seq![(hi - 1) as usize]
        } else {
            seq![]
        }) + members_desc(cells, target, lo, hi - 1)
    }
}

/// The cell at offset `(t / 9 - 1, t / 3 % 3 - 1, t % 3 - 1)` from `cell`: the `t`-th of the 27
/// cells around and including `cell`, x offset varying slowest.
pub open spec fn around(cell: Cell, t: int) -> Cell {
    (
        (cell.0 + (t / 9 - 1)) as i32,
        (cell.1 + ((t / 3) % 3 - 1)) as i32,
        (cell.2 + (t % 3 - 1)) as i32,
    )
}

/// The bodies after body `i` found in the first `t` cells around the cell of `i`, in the
/// order the sweep meets them.
pub open spec fn candidates(cells: Seq<Cell>, i: int, t: int) -> Seq<usize>
    decreases t,
{
    if t <= 0 {
        seq![]
    } else {
        candidates(cells, i, t - 1) + members_desc(cells, around(cells[i], t - 1), i + 1, cells.len() as int)
    }
}

/// The coordinates of a cell are not at the limits of `i32`, so its neighbours have
/// coordinates too.
pub open spec fn inner_cell(cell: Cell) -> bool {
    &&& i32::MIN < cell.0 < i32::MAX
    &&& i32::MIN < cell.1 < i32::MAX
    &&& i32::MIN < cell.2 < i32::MAX
}

proof fn lemma_latest(cells: Seq<Cell>, b: int, hi: int)
    requires
        0 <= hi <= cells.len(),
        hi < NONE,
    ensures
        latest(cells, b, hi) == NONE ==> forall|k: int|
            0 <= k < hi ==> bucket_spec(#[trigger] cells[k]) != b,
        latest(cells, b, hi) != NONE ==> {
            let l = latest(cells, b, hi) as int;
            &&& 0 <= l < hi
            &&& bucket_spec(cells[l]) == b
            &&& forall|k: int| l < k < hi ==> bucket_spec(#[trigger] cells[k]) != b
        },
    decreases hi,
{
    if hi > 0 {
        lemma_latest(cells, b, hi - 1);
    }
}

proof fn lemma_members_split(cells: Seq<Cell>, target: Cell, lo: int, m: int, hi: int)
    requires
        lo <= m <= hi,
    ensures
        members_desc(cells, target, lo, hi) == members_desc(cells, target, m, hi) + members_desc(
            cells,
            target,
            lo,
            m,
        ),
    decreases hi - m,
{
    if m < hi {
        lemma_members_split(cells, target, lo, m, hi - 1);
        assert(members_desc(cells, target, lo, hi) == members_desc(cells, target, m, hi) + members_desc(
            cells,
            target,
            lo,
            m,
        ));
    } else {
        assert(members_desc(cells, target, m, hi) == Seq::<usize>::empty());
        assert(members_desc(cells, target, lo, hi) =~= members_desc(cells, target, m, hi) + members_desc(
            cells,
            target,
            lo,
            m,
        ));
    }
}

proof fn lemma_members_none(cells: Seq<Cell>, target: Cell, lo: int, hi: int)
    requires
        forall|k: int| lo <= k < hi ==> #[trigger] cells[k] != target,
    ensures
        members_desc(cells, target, lo, hi) == Seq::<usize>::empty(),
    decreases hi - lo,
{
    if hi > lo {
        lemma_members_none(cells, target, lo, hi - 1);
        assert(cells[hi - 1] != target);
        assert(members_desc(cells, target, lo, hi) =~= Seq::<usize>::empty());
    }
}

/// Each coordinate of cell `b` is within one of that of cell `a`.
pub open spec fn adjacent(a: Cell, b: Cell) -> bool {
    &&& -1 <= b.0 - a.0 <= 1
    &&& -1 <= b.1 - a.1 <= 1
    &&& -1 <= b.2 - a.2 <= 1
}

proof fn lemma_members_elems(cells: Seq<Cell>, target: Cell, lo: int, hi: int)
    requires
        0 <= lo,
        hi <= cells.len(),
        cells.len() <= usize::MAX,
    ensures
        forall|k: int|
            0 <= k < members_desc(cells, target, lo, hi).len() ==> {
                let e = #[trigger] members_desc(cells, target, lo, hi)[k] as int;
                lo <= e < hi && cells[e] == target
            },
        forall|e: usize|
            lo <= e < hi && cells[e as int] == target ==> #[trigger] members_desc(
                cells,
                target,
                lo,
                hi,
            ).contains(e),
        members_desc(cells, target, lo, hi).no_duplicates(),
    decreases hi - lo,
{
    if hi > lo {
        lemma_members_elems(cells, target, lo, hi - 1);
        let rest = members_desc(cells, target, lo, hi - 1);
        let top: Seq<usize> = if cells[hi - 1] == target {
            seq![(hi - 1) as usize]
        } else {
            seq![]
        };
        let all = members_desc(cells, target, lo, hi);
        assert(all == top + rest);
        assert forall|k: int| 0 <= k < all.len() implies {
            let e = #[trigger] all[k] as int;
            lo <= e < hi && cells[e] == target
        } by {
            if k >= top.len() {
                assert(all[k] == rest[k - top.len()]);
            }
        }
        assert forall|e: usize| lo <= e < hi && cells[e as int] == target implies #[trigger] all.contains(
            e,
        ) by {
            if e == hi - 1 {
                assert(all[0] == e);
            } else {
                assert(rest.contains(e));
                let k = choose|k: int| 0 <= k < rest.len() && rest[k] == e;
                assert(all[k + top.len()] == e);
            }
        }
        assert forall|a: int, b: int| 0 <= a < all.len() && 0 <= b < all.len() && a != b implies all[a]
            != all[b] by {
            if a >= top.len() && b >= top.len() {
                assert(all[a] == rest[a - top.len()]);
                assert(all[b] == rest[b - top.len()]);
            } else if a < top.len() {
                assert(all[b] == rest[b - top.len()]);
                assert(rest[b - top.len()] < hi - 1);
            } else {
                assert(all[a] == rest[a - top.len()]);
                assert(rest[a - top.len()] < hi - 1);
            }
        }
    }
}

proof fn lemma_around(cell: Cell, t: int)
    requires
        inner_cell(cell),
        0 <= t < 27,
    ensures
        adjacent(cell, around(cell, t)),
        around(cell, t).0 == cell.0 + (t / 9 - 1),
        around(cell, t).1 == cell.1 + ((t / 3) % 3 - 1),
        around(cell, t).2 == cell.2 + (t % 3 - 1),
{
}

proof fn lemma_around_onto(cell: Cell, other: Cell)
    requires
        inner_cell(cell),
        adjacent(cell, other),
    ensures
        ({
            let t = (other.0 - cell.0 + 1) * 9 + (other.1 - cell.1 + 1) * 3 + (other.2 - cell.2 + 1);
            0 <= t < 27 && around(cell, t) == other
        }),
{
    let a = other.0 - cell.0 + 1;
    let b = other.1 - cell.1 + 1;
    let c = other.2 - cell.2 + 1;
    let t = a * 9 + b * 3 + c;
    assert(t / 9 == a && (t / 3) % 3 == b && t % 3 == c) by (nonlinear_arith)
        requires
            0 <= a < 3,
            0 <= b < 3,
            0 <= c < 3,
            t == a * 9 + b * 3 + c,
    ;
}

/// The first `t` offsets of the sweep: `j` is found iff it comes after `i` and its cell is one
/// of the first `t` cells around that of `i`; nobody is found twice.
proof fn lemma_candidates_upto(cells: Seq<Cell>, i: int, t: int)
    requires
        0 <= i < cells.len(),
        cells.len() <= usize::MAX,
        inner_cell(cells[i]),
        0 <= t <= 27,
    ensures
        forall|j: usize|
            #[trigger] candidates(cells, i, t).contains(j) <==> i < j < cells.len() && exists|s: int|
                0 <= s < t && cells[j as int] == #[trigger] around(cells[i], s),
        forall|k: int|
            0 <= k < candidates(cells, i, t).len() ==> (#[trigger] candidates(cells, i, t)[k]) < cells.len(),
        candidates(cells, i, t).no_duplicates(),
    decreases t,
{
    let n = cells.len() as int;
    if t > 0 {
        lemma_candidates_upto(cells, i, t - 1);
        let before = candidates(cells, i, t - 1);
        let target = around(cells[i], t - 1);
        lemma_members_elems(cells, target, i + 1, n);
        let more = members_desc(cells, target, i + 1, n);
        let all = candidates(cells, i, t);
        assert(all == before + more);
        assert forall|j: usize| #[trigger] all.contains(j) <==> i < j < n && exists|s: int|
            0 <= s < t && cells[j as int] == #[trigger] around(cells[i], s) by {
            if all.contains(j) {
                let k = choose|k: int| 0 <= k < all.len() && all[k] == j;
                if k < before.len() {
                    assert(before[k] == j);
                    assert(before.contains(j));
                    let s = choose|s: int| 0 <= s < t - 1 && cells[j as int] == around(cells[i], s);
                    assert(0 <= s < t && cells[j as int] == around(cells[i], s));
                } else {
                    assert(more[k - before.len()] == j);
                    assert(cells[j as int] == around(cells[i], t - 1));
                }
            }
            if i < j < n && exists|s: int| 0 <= s < t && cells[j as int] == #[trigger] around(cells[i], s) {
                let s = choose|s: int| 0 <= s < t && cells[j as int] == around(cells[i], s);
                if s < t - 1 {
                    assert(before.contains(j));
                    let k = choose|k: int| 0 <= k < before.len() && before[k] == j;
                    assert(all[k] == j);
                } else {
                    assert(more.contains(j));
                    let k = choose|k: int| 0 <= k < more.len() && more[k] == j;
                    assert(all[k + before.len()] == j);
                }
            }
        }
        assert forall|k: int| 0 <= k < all.len() implies (#[trigger] all[k]) < n by {
            if k < before.len() {
                assert(all[k] == before[k]);
            } else {
                assert(all[k] == more[k - before.len()]);
            }
        }
        assert forall|a: int, b: int| 0 <= a < all.len() && 0 <= b < all.len() && a != b implies all[a]
            != all[b] by {
            if a < before.len() && b < before.len() {
            } else if a >= before.len() && b >= before.len() {
                assert(all[a] == more[a - before.len()]);
                assert(all[b] == more[b - before.len()]);
            } else {
                let (x, y) = if a < before.len() { (a, b) } else { (b, a) };
                let e = all[x] as int;
                assert(all[y] == more[y - before.len()]);
                if all[x] == all[y] {
                    assert(cells[e] == target);
                    assert(all[x] == before[x]);
                    assert(before.contains(all[x]));
                    let s = choose|s: int| 0 <= s < t - 1 && cells[e] == around(cells[i], s);
                    lemma_around(cells[i], s);
                    lemma_around(cells[i], t - 1);
                    assert(around(cells[i], s) == around(cells[i], t - 1));
                    assert(s / 9 == (t - 1) / 9 && (s / 3) % 3 == ((t - 1) / 3) % 3 && s % 3 == (t - 1) % 3);
                    assert(s == t - 1) by (nonlinear_arith)
                        requires
                            0 <= s < 27,
                            0 <= t - 1 < 27,
                            s / 9 == (t - 1) / 9,
                            (s / 3) % 3 == ((t - 1) / 3) % 3,
                            s % 3 == (t - 1) % 3,
                    ;
                }
            }
        }
    }
}

/// The sweep around body `i` finds exactly the bodies after `i` whose cell is adjacent to the
/// cell of `i`, each once: every pair of bodies in adjacent cells is tested exactly once, from
/// its lower index.
pub proof fn lemma_candidates_exact(cells: Seq<Cell>, i: int)
    requires
        0 <= i < cells.len(),
        cells.len() <= usize::MAX,
        inner_cell(cells[i]),
    ensures
        forall|j: usize|
            j < cells.len() ==> (#[trigger] candidates(cells, i, 27).contains(j) <==> i < j
                && adjacent(cells[i], cells[j as int])),
        forall|k: int|
            0 <= k < candidates(cells, i, 27).len() ==> (#[trigger] candidates(cells, i, 27)[k])
                < cells.len(),
        candidates(cells, i, 27).no_duplicates(),
{
    lemma_candidates_upto(cells, i, 27);
    assert forall|j: usize| j < cells.len() implies (#[trigger] candidates(cells, i, 27).contains(j)
        <==> i < j && adjacent(cells[i], cells[j as int])) by {
        if candidates(cells, i, 27).contains(j) {
            let s = choose|s: int| 0 <= s < 27 && cells[j as int] == around(cells[i], s);
            lemma_around(cells[i], s);
        }
        if i < j && adjacent(cells[i], cells[j as int]) {
            lemma_around_onto(cells[i], cells[j as int]);
        }
    }
}

/// Bucket chains of the cells of a list of bodies.
pub struct CellGrid {
    head: Vec<usize>,
    next: Vec<usize>,
}

impl CellGrid {
    /// The last body of every bucket, or `NONE`.
    pub closed spec fn head_seq(&self) -> Seq<usize> {
        self.head@
    }

    /// The body before every body in its bucket, or `NONE`.
    pub closed spec fn next_seq(&self) -> Seq<usize> {
        self.next@
    }

    /// The last body of bucket `bucket`, or `NONE`.
    pub fn head_of(&self, bucket: usize) -> (body: usize)
        requires
            bucket < self.head_seq().len(),
        ensures
            body == self.head_seq()[bucket as int],
    {
        self.head[bucket]
    }

    /// The body before body `i` in its bucket, or `NONE`.
    pub fn next_of(&self, i: usize) -> (body: usize)
        requires
            i < self.next_seq().len(),
        ensures
            body == self.next_seq()[i as int],
    {
        self.next[i]
    }

    /// The chains index exactly the bodies with cells `cells`: `head[b]` is the last body in
    /// bucket `b`, and `next[i]` the last body before `i` in the bucket of body `i`.
    pub open spec fn indexes(&self, cells: Seq<Cell>) -> bool {
        &&& self.head_seq().len() == HASH_SIZE
        &&& self.next_seq().len() == cells.len()
        &&& cells.len() < NONE
        &&& forall|b: int|
            0 <= b < HASH_SIZE ==> #[trigger] self.head_seq()[b] == latest(cells, b, cells.len() as int)
        &&& forall|i: int|
            0 <= i < cells.len() ==> #[trigger] self.next_seq()[i] == latest(
                cells,
                bucket_spec(cells[i]),
                i,
            )
    }

    /// Empty chains: indexes no body.
    pub fn new() -> (grid: CellGrid)
        ensures
            grid.indexes(Seq::<Cell>::empty()),
    {
        CellGrid { head: vec![NONE; HASH_SIZE], next: Vec::new() }
    }

    /// Rebuilds the chains for the bodies with cells `cells`, the last body first in each chain.
    pub fn rebuild(&mut self, cells: &Vec<Cell>)
        requires
            old(self).head_seq().len() == HASH_SIZE,
            cells@.len() < NONE,
        ensures
            final(self).indexes(cells@),
    {
        let mut b: usize = 0;
        while b < HASH_SIZE
            invariant
                self.head_seq().len() == HASH_SIZE,
                b <= HASH_SIZE,
                forall|c: int| 0 <= c < b ==> #[trigger] self.head_seq()[c] == NONE,
            decreases HASH_SIZE - b,
        {
            self.head.set(b, NONE);
            b = b + 1;
        }
        self.next.clear();
        let n = cells.len();
        let mut i: usize = 0;
        while i < n
            invariant
                n == cells@.len(),
                n < NONE,
                i <= n,
                self.head_seq().len() == HASH_SIZE,
                self.next_seq().len() == i,
                forall|c: int| 0 <= c < HASH_SIZE ==> #[trigger] self.head_seq()[c] == latest(cells@, c, i as int),
                forall|k: int|
                    0 <= k < i ==> #[trigger] self.next_seq()[k] == latest(cells@, bucket_spec(cells@[k]), k),
            decreases n - i,
        {
            let bucket = bucket_of(cells[i]);
            let before = self.head[bucket];
            self.next.push(before);
            self.head.set(bucket, i);
            i = i + 1;
        }
    }

    /// The bodies after body `i` whose cell is one of the 27 cells around and including the
    /// cell of body `i`, in the order of the sweep: x offset slowest, z offset fastest, and the
    /// bodies of one cell from the highest index down.
    pub fn neighbors(&self, cells: &Vec<Cell>, i: usize) -> (found: Vec<usize>)
        requires
            self.indexes(cells@),
            i < cells@.len(),
            inner_cell(cells@[i as int]),
        ensures
            found@ == candidates(cells@, i as int, 27),
    {
        let n = cells.len();
        let cell = cells[i];
        let mut found: Vec<usize> = Vec::new();
        let mut t: usize = 0;
        while t < 27
            invariant
                n == cells@.len(),
                i < n,
                cell == cells@[i as int],
                inner_cell(cell),
                self.indexes(cells@),
                t <= 27,
                found@ == candidates(cells@, i as int, t as int),
            decreases 27 - t,
        {
            let dx: i32 = (t / 9) as i32 - 1;
            let dy: i32 = ((t / 3) % 3) as i32 - 1;
            let dz: i32 = (t % 3) as i32 - 1;
            let target: Cell = (cell.0 + dx, cell.1 + dy, cell.2 + dz);
            assert(target == around(cell, t as int));
            let bucket = bucket_of(target);
            let mut j = self.head[bucket];
            let ghost lo: int = i + 1;
            let ghost mut hi: int = n as int;
            let ghost base = found@;
            while j != NONE
                invariant
                    n == cells@.len(),
                    n < NONE,
                    i < n,
                    lo == i + 1,
                    self.indexes(cells@),
                    bucket < HASH_SIZE,
                    bucket == bucket_spec(target),
                    0 <= hi <= n,
                    j == latest(cells@, bucket as int, hi),
                    found@ == base + members_desc(cells@, target, if lo < hi { hi } else { lo }, n as int),
                decreases hi,
            {
                proof {
                    lemma_latest(cells@, bucket as int, hi);
                }
                if i < j {
                    let other = cells[j];
                    if other.0 == target.0 && other.1 == target.1 && other.2 == target.2 {
                        found.push(j);
                    }
                }
                proof {
                    let top = if lo < hi { hi } else { lo };
                    let bottom = if lo < j { j as int } else { lo };
                    assert forall|k: int| j < k < hi implies #[trigger] cells@[k] != target by {
                        if cells@[k] == target {
                            assert(bucket_spec(cells@[k]) == bucket_spec(target));
                        }
                    }
                    if j < lo {
                        lemma_members_none(cells@, target, lo, top);
                        lemma_members_split(cells@, target, lo, top, n as int);
                    } else {
                        lemma_members_none(cells@, target, j + 1, hi);
                        lemma_members_split(cells@, target, j + 1, hi, n as int);
                        lemma_members_split(cells@, target, j as int, j + 1, n as int);
                        assert(members_desc(cells@, target, j as int, j as int) =~= Seq::<usize>::empty());
                        assert(members_desc(cells@, target, j as int, j + 1) =~= (if cells@[j as int]
                            == target {
                            seq![j]
                        } else {
                            seq![]
                        }));
                    }
                    assert(self.next_seq()[j as int] == latest(cells@, bucket as int, j as int));
                    hi = j as int;
                }
                j = self.next[j];
            }
            proof {
                lemma_latest(cells@, bucket as int, hi);
                let top = if lo < hi { hi } else { lo };
                assert forall|k: int| lo <= k < top implies #[trigger] cells@[k] != target by {
                    if cells@[k] == target {
                        assert(bucket_spec(cells@[k]) == bucket_spec(target));
                    }
                }
                lemma_members_none(cells@, target, lo, top);
                lemma_members_split(cells@, target, lo, top, n as int);
                assert(found@ =~= candidates(cells@, i as int, t + 1));
            }
            t = t + 1;
        }
        found
    }
}

} // verus!
