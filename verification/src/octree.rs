//! Index structure of the Barnes-Hut octree.
//!
//! Nodes live in one arena. A branch owns eight consecutive children; `next` is the node that
//! follows the whole subtree in pre-order (0 when none follows), so a traversal can skip a
//! subtree in one step. `parents` lists the branches in the order they were split. Positions,
//! masses and boxes of the nodes are kept by the caller in an arena with the same indices.

use vstd::prelude::*;

verus! {

/// Links of one octree node.
#[derive(Clone, Copy, Debug)]
pub struct Node {
    /// Index of the first of the eight children, or 0 for a leaf.
    pub children: usize,
    /// Node that follows this subtree in pre-order, or 0 when none does.
    pub next: usize,
}

impl Node {
    /// A leaf followed by `next`.
    pub fn new(next: usize) -> (node: Node)
        ensures
            node.children == 0,
            node.next == next,
    {
        Node { children: 0, next }
    }

    pub fn is_leaf(&self) -> (leaf: bool)
        ensures
            leaf == (self.children == 0),
    {
        self.children == 0
    }

    pub fn is_branch(&self) -> (branch: bool)
        ensures
            branch == (self.children != 0),
    {
        self.children != 0
    }
}

/// The arena of octree nodes and the list of branches in the order they were split.
pub struct Octree {
    nodes: Vec<Node>,
    parents: Vec<usize>,
    /// Position of every node in the pre-order of the tree.
    order: Ghost<Seq<int>>,
    /// The node at every position of the pre-order.
    by_order: Ghost<Seq<usize>>,
}

/// Index of the first child of the `k`-th branch that was split.
pub open spec fn block_start(k: int) -> int {
    1 + 8 * k
}

/// Where position `r` of the pre-order goes when the leaf at position `rl` is split: the eight
/// new children take the positions just after the leaf, and later positions move up by eight.
pub open spec fn shifted(r: int, rl: int) -> int {
    if r <= rl {
        r
    } else {
        r + 8
    }
}

impl Octree {
    pub const ROOT: usize = 0;

    /// The nodes of the arena.
    pub closed spec fn node_seq(&self) -> Seq<Node> {
        self.nodes@
    }

    /// The branches in the order they were split.
    pub closed spec fn parent_seq(&self) -> Seq<usize> {
        self.parents@
    }

    /// Position of every node in the pre-order of the tree.
    pub closed spec fn order_seq(&self) -> Seq<int> {
        self.order@
    }

    /// The node at every position of the pre-order.
    pub closed spec fn by_order_seq(&self) -> Seq<usize> {
        self.by_order@
    }

    /// Number of nodes.
    pub fn len(&self) -> (n: usize)
        ensures
            n == self.node_seq().len(),
    {
        self.nodes.len()
    }

    /// The links of node `i`.
    pub fn node(&self, i: usize) -> (node: Node)
        requires
            i < self.node_seq().len(),
        ensures
            node == self.node_seq()[i as int],
    {
        self.nodes[i]
    }

    /// The branches in the order they were split.
    pub fn parents(&self) -> (parents: &Vec<usize>)
        ensures
            parents@ == self.parent_seq(),
    {
        &self.parents
    }

    /// The children of the `k`-th split branch are linked in order, the last one to the node
    /// that follows their parent.
    pub open spec fn block_links_ok(&self, k: int) -> bool {
        let p = self.parent_seq()[k] as int;
        &&& p < block_start(k)
        &&& self.node_seq()[p].children == block_start(k)
        &&& forall|o: int|
            0 <= o < 8 ==> #[trigger] self.node_seq()[block_start(k) + o].next == (if o < 7 {
                block_start(k) + o + 1
            } else {
                self.node_seq()[p].next as int
            })
    }

    /// The links: the root, then eight children for every split branch, linked as above.
    pub open spec fn links_ok(&self) -> bool {
        let n = self.node_seq().len();
        &&& n == 1 + 8 * self.parent_seq().len()
        &&& self.node_seq()[0].next == 0
        &&& forall|k: int| 0 <= k < self.parent_seq().len() ==> #[trigger] self.block_links_ok(k)
        &&& forall|i: int| 0 <= i < n ==> #[trigger] self.node_links_ok(i)
    }

    /// Well-formedness: the links, and the pre-order that they encode.
    pub open spec fn wf(&self) -> bool {
        &&& self.links_ok()
        &&& self.preorder_ok()
    }

    /// The node a traversal that goes down wherever it can visits after node `i`: the first
    /// child of a branch, the `next` node of a leaf (0 when the traversal is over).
    pub open spec fn succ(&self, i: int) -> int {
        let node = self.node_seq()[i];
        if node.children != 0 {
            node.children as int
        } else {
            node.next as int
        }
    }

    /// Position in the pre-order just past the subtree of node `i`: that of its `next` node, or
    /// the number of nodes.
    pub open spec fn end(&self, i: int) -> int {
        let x = self.node_seq()[i].next;
        if x != 0 {
            self.order_seq()[x as int]
        } else {
            self.node_seq().len() as int
        }
    }

    /// The branch that node `c` is a child of.
    pub open spec fn parent_of(&self, c: int) -> int {
        self.parent_seq()[(c - 1) / 8] as int
    }

    /// Node `m` lies in the subtree of node `n`, below it.
    pub open spec fn is_desc(&self, m: int, n: int) -> bool
        decreases m,
    {
        if 0 < m < self.node_seq().len() {
            let p = self.parent_of(m);
            p == n || (0 <= p < m && self.is_desc(p, n))
        } else {
            false
        }
    }

    /// Node `i` has a position, and the traversal that goes down wherever it can moves from
    /// it to the next position; its `next` node comes later.
    pub open spec fn step_ok(&self, i: int) -> bool {
        let n = self.node_seq().len() as int;
        let r = self.order_seq()[i];
        let s = self.succ(i);
        let x = self.node_seq()[i].next as int;
        &&& 0 <= r < n
        &&& self.by_order_seq()[r] == i
        &&& (s != 0 ==> self.order_seq()[s] == r + 1)
        &&& (s == 0 ==> r == n - 1)
        &&& (x != 0 ==> self.order_seq()[x] > r)
    }

    /// Position `r` holds a node, and that node has position `r`.
    pub open spec fn position_ok(&self, r: int) -> bool {
        let b = self.by_order_seq()[r];
        &&& b < self.node_seq().len()
        &&& self.order_seq()[b as int] == r
    }

    /// `order` and `by_order` number the nodes in pre-order: the root first, every node
    /// followed by its first child or else by its `next` node, and the subtree of every node
    /// filling the positions between it and its `next` node.
    pub open spec fn preorder_ok(&self) -> bool {
        let n = self.node_seq().len() as int;
        &&& self.order_seq().len() == n
        &&& self.by_order_seq().len() == n
        &&& self.order_seq()[0] == 0
        &&& forall|i: int| 0 <= i < n ==> #[trigger] self.step_ok(i)
        &&& forall|r: int| 0 <= r < n ==> #[trigger] self.position_ok(r)
        &&& forall|a: int, m: int|
            #![trigger self.is_desc(m, a)]
            0 <= a < n && 0 <= m < n ==> (self.order_seq()[a] < self.order_seq()[m] < self.end(a)
                <==> self.is_desc(m, a))
    }

    /// Node `i` links inside the arena, and a branch owns the child block that was created
    /// when it was split.
    pub open spec fn node_links_ok(&self, i: int) -> bool {
        let n = self.node_seq().len();
        let c = self.node_seq()[i].children as int;
        &&& self.node_seq()[i].next < n
        &&& c != 0 ==> (c - 1) % 8 == 0 && c < n && self.parent_seq()[(c - 1) / 8] == i
    }

    /// `child` is one of the eight children of branch `parent`.
    pub open spec fn is_child_of(&self, child: int, parent: int) -> bool {
        let c = self.node_seq()[parent].children as int;
        c != 0 && c <= child < c + 8
    }

    /// An octree with no nodes; `clear` gives it a root.
    pub fn new() -> (tree: Octree)
        ensures
            tree.node_seq().len() == 0,
            tree.parent_seq().len() == 0,
    {
        Octree {
            nodes: Vec::new(),
            parents: Vec::new(),
            order: Ghost(Seq::empty()),
            by_order: Ghost(Seq::empty()),
        }
    }

    /// Resets the tree to a single leaf root.
    pub fn clear(&mut self)
        ensures
            final(self).wf(),
            final(self).node_seq() == seq![Node { children: 0, next: 0 }],
            final(self).parent_seq().len() == 0,
    {
        self.nodes.clear();
        self.parents.clear();
        self.nodes.push(Node::new(0));
        self.order = Ghost(Seq::empty().push(0int));
        self.by_order = Ghost(Seq::empty().push(0usize));
        assert(self.step_ok(0));
        assert(self.position_ok(0));
        assert forall|a: int, m: int|
            #![trigger self.is_desc(m, a)]
            0 <= a < 1 && 0 <= m < 1 implies (self.order_seq()[a] < self.order_seq()[m] < self.end(a)
            <==> self.is_desc(m, a)) by {}
        assert(self.links_ok());
    }

    /// Splits leaf `node`: appends its eight children, links them, records `node` as a branch,
    /// and returns the index of the first child.
    pub fn subdivide(&mut self, node: usize) -> (children: usize)
        requires
            old(self).wf(),
            node < old(self).node_seq().len(),
            old(self).node_seq()[node as int].children == 0,
            old(self).node_seq().len() + 8 <= usize::MAX,
        ensures
            final(self).wf(),
            children == old(self).node_seq().len(),
            final(self).node_seq().len() == old(self).node_seq().len() + 8,
            final(self).parent_seq() == old(self).parent_seq().push(node),
            final(self).node_seq()[node as int] == (Node {
                children,
                next: old(self).node_seq()[node as int].next,
            }),
            forall|i: int|
                0 <= i < old(self).node_seq().len() && i != node ==> #[trigger] final(self).node_seq()[i]
                    == old(self).node_seq()[i],
            forall|o: int|
                0 <= o < 8 ==> #[trigger] final(self).node_seq()[children + o] == (Node {
                    children: 0,
                    next: if o < 7 {
                        (children + o + 1) as usize
                    } else {
                        old(self).node_seq()[node as int].next
                    },
                }),
    {
        let ghost old_tree = *self;
        let k = self.parents.len();
        self.parents.push(node);
        let children = self.nodes.len();
        let after = self.nodes[node].next;
        self.nodes.set(node, Node { children, next: after });
        assert(children == block_start(k as int));
        let mut o: usize = 0;
        while o < 8
            invariant
                0 <= o <= 8,
                children == old_tree.node_seq().len(),
                children + 8 <= usize::MAX,
                self.node_seq().len() == children + o,
                self.parent_seq() == old_tree.parent_seq().push(node),
                self.node_seq()[node as int] == (Node { children, next: after }),
                after == old_tree.node_seq()[node as int].next,
                node < children,
                forall|i: int|
                    0 <= i < children && i != node ==> #[trigger] self.node_seq()[i]
                        == old_tree.node_seq()[i],
                forall|q: int|
                    0 <= q < o ==> #[trigger] self.node_seq()[children + q] == (Node {
                        children: 0,
                        next: if q < 7 {
                            (children + q + 1) as usize
                        } else {
                            after
                        },
                    }),
            decreases 8 - o,
        {
            let next = if o < 7 {
                children + o + 1
            } else {
                after
            };
            self.nodes.push(Node::new(next));
            o = o + 1;
        }
        let ghost rl = old_tree.order_seq()[node as int];
        self.order = Ghost(
            Seq::new(
                (children + 8) as nat,
                |i: int|
                    if i < children {
                        shifted(old_tree.order_seq()[i], rl)
                    } else {
                        rl + 1 + (i - children)
                    },
            ),
        );
        self.by_order = Ghost(
            Seq::new(
                (children + 8) as nat,
                |r: int|
                    if r <= rl {
                        old_tree.by_order_seq()[r]
                    } else if r <= rl + 8 {
                        (children + r - rl - 1) as usize
                    } else {
                        old_tree.by_order_seq()[r - 8]
                    },
            ),
        );
        proof {
            let n = self.node_seq().len();
            let np = self.parent_seq().len();
            assert(old_tree.node_links_ok(node as int));
            assert(n == 1 + 8 * np);
            assert forall|j: int| 0 <= j < np implies #[trigger] self.block_links_ok(j) by {
                if j < k {
                    assert(old_tree.block_links_ok(j));
                    let p = old_tree.parent_seq()[j] as int;
                    assert(self.parent_seq()[j] == old_tree.parent_seq()[j]);
                    assert(p != node) by {
                        assert(old_tree.node_seq()[p].children == block_start(j));
                    }
                    assert forall|q: int| 0 <= q < 8 implies #[trigger] self.node_seq()[block_start(
                        j,
                    ) + q].next == (if q < 7 {
                        block_start(j) + q + 1
                    } else {
                        self.node_seq()[p].next as int
                    }) by {
                        assert(old_tree.node_seq()[block_start(j) + q].next == (if q < 7 {
                            block_start(j) + q + 1
                        } else {
                            old_tree.node_seq()[p].next as int
                        }));
                        if block_start(j) + q == node {
                            assert(self.node_seq()[node as int].next == old_tree.node_seq()[node as int].next);
                        }
                    }
                } else {
                    assert(j == k);
                    assert forall|q: int| 0 <= q < 8 implies #[trigger] self.node_seq()[block_start(
                        j,
                    ) + q].next == (if q < 7 {
                        block_start(j) + q + 1
                    } else {
                        self.node_seq()[node as int].next as int
                    }) by {
                        assert(self.node_seq()[children + q].next == (if q < 7 {
                            (children + q + 1) as usize
                        } else {
                            after
                        }));
                    }
                }
            }
            assert forall|i: int| 0 <= i < n implies #[trigger] self.node_links_ok(i) by {
                if i < children {
                    assert(old_tree.node_links_ok(i));
                    if i != node {
                        assert(self.node_seq()[i] == old_tree.node_seq()[i]);
                        let c = old_tree.node_seq()[i].children as int;
                        if c != 0 {
                            assert((c - 1) / 8 < k);
                            assert(self.parent_seq()[(c - 1) / 8] == old_tree.parent_seq()[(c - 1) / 8]);
                        }
                    } else {
                        assert((children - 1) / 8 == k);
                        assert((children - 1) % 8 == 0);
                        assert(self.parent_seq()[k as int] == node);
                        assert(self.node_seq()[i].next == after);
                    }
                } else {
                    let q = i - children;
                    assert(self.node_seq()[children + q].children == 0);
                    assert(self.node_seq()[children + q].next < n);
                }
            }
            assert(self.node_seq()[0].next == 0) by {
                if node != 0 {
                    assert(self.node_seq()[0] == old_tree.node_seq()[0]);
                }
            }
            assert(self.links_ok());
            lemma_split_keeps_preorder(&old_tree, self, node as int);
            assert(self.wf());
        }
        children
    }

    /// The child of branch `node` in octant `octant`: one step of the descent that finds the
    /// leaf a new body falls into.
    pub fn descend(&self, node: usize, octant: usize) -> (child: usize)
        requires
            self.wf(),
            node < self.node_seq().len(),
            self.node_seq()[node as int].children != 0,
            octant < 8,
        ensures
            child == self.node_seq()[node as int].children + octant,
            child < self.node_seq().len(),
            node < child,
            self.is_child_of(child as int, node as int),
    {
        proof {
            assert(self.node_links_ok(node as int));
            let c = self.node_seq()[node as int].children as int;
            let j = (c - 1) / 8;
            assert(c == block_start(j));
            assert(j < self.parent_seq().len());
            assert(c + 8 <= self.node_seq().len());
            assert(self.block_links_ok(j));
        }
        let len = self.nodes.len();
        let first = self.nodes[node].children;
        assert(first + octant < len);
        first + octant
    }

    /// The node a traversal visits after `node`: its first child when it goes down into a
    /// branch, otherwise the node after its subtree; `None` when the traversal is over.
    pub fn next_visit(&self, node: usize, go_down: bool) -> (next: Option<usize>)
        requires
            self.wf(),
            node < self.node_seq().len(),
        ensures
            next == (if go_down && self.node_seq()[node as int].children != 0 {
                Some(self.node_seq()[node as int].children)
            } else if self.node_seq()[node as int].next == 0 {
                None::<usize>
            } else {
                Some(self.node_seq()[node as int].next)
            }),
            next matches Some(m) ==> m < self.node_seq().len(),
            next matches Some(m) ==> self.order_seq()[m as int] > self.order_seq()[node as int],
    {
        proof {
            assert(self.node_links_ok(node as int));
            assert(self.step_ok(node as int));
        }
        let n = self.nodes[node];
        if go_down && n.children != 0 {
            Some(n.children)
        } else if n.next == 0 {
            None
        } else {
            Some(n.next)
        }
    }
}

/// The first branch ever split is the root.
pub proof fn lemma_root_split_first(tree: &Octree)
    requires
        tree.wf(),
        tree.parent_seq().len() > 0,
    ensures
        tree.parent_seq()[0] == Octree::ROOT,
{
    assert(tree.block_links_ok(0));
}

/// A branch is split before any of its sub-branches: walking `parents` backwards reaches every
/// branch after all the branches below it, which is the order in which masses are propagated.
pub proof fn lemma_split_before_sub_branches(tree: &Octree, k1: int, k2: int)
    requires
        tree.wf(),
        0 <= k1 < tree.parent_seq().len(),
        0 <= k2 < tree.parent_seq().len(),
        tree.is_child_of(tree.parent_seq()[k2] as int, tree.parent_seq()[k1] as int),
    ensures
        k1 < k2,
{
    assert(tree.block_links_ok(k1));
    assert(tree.block_links_ok(k2));
}

/// Every node but the root is a child of exactly one branch: the arena holds a tree.
pub proof fn lemma_unique_parent(tree: &Octree, c: int, p1: int, p2: int)
    requires
        tree.wf(),
        0 <= p1 < tree.node_seq().len(),
        0 <= p2 < tree.node_seq().len(),
        tree.is_child_of(c, p1),
        tree.is_child_of(c, p2),
    ensures
        p1 == p2,
        c != Octree::ROOT,
{
    assert(tree.node_links_ok(p1));
    assert(tree.node_links_ok(p2));
    let c1 = tree.node_seq()[p1].children as int;
    let c2 = tree.node_seq()[p2].children as int;
    assert((c1 - 1) / 8 == (c - 1) / 8);
    assert((c2 - 1) / 8 == (c - 1) / 8);
}

/// Every node but the root has a parent branch: the one whose split created its block.
pub proof fn lemma_has_parent(tree: &Octree, c: int)
    requires
        tree.wf(),
        0 < c < tree.node_seq().len(),
    ensures
        0 <= (c - 1) / 8 < tree.parent_seq().len(),
        tree.is_child_of(c, tree.parent_seq()[(c - 1) / 8] as int),
        tree.parent_seq()[(c - 1) / 8] < c,
{
    let k = (c - 1) / 8;
    assert(tree.block_links_ok(k));
}

/// An ancestor of a node has a smaller index.
proof fn lemma_ancestor_smaller(tree: &Octree, m: int, a: int)
    requires
        tree.links_ok(),
        tree.is_desc(m, a),
    ensures
        0 <= a < m < tree.node_seq().len(),
    decreases m,
{
    let k = (m - 1) / 8;
    assert(tree.block_links_ok(k));
    let p = tree.parent_of(m);
    if p != a {
        lemma_ancestor_smaller(tree, p, a);
    }
}

/// Splitting a leaf changes no ancestry among the nodes that were already there.
proof fn lemma_split_keeps_ancestry(old_tree: &Octree, new_tree: &Octree, m: int, a: int)
    requires
        old_tree.links_ok(),
        new_tree.parent_seq().len() == old_tree.parent_seq().len() + 1,
        forall|k: int| 0 <= k < old_tree.parent_seq().len() ==> new_tree.parent_seq()[k] == old_tree.parent_seq()[k],
        new_tree.node_seq().len() == old_tree.node_seq().len() + 8,
        0 <= m < old_tree.node_seq().len(),
    ensures
        new_tree.is_desc(m, a) == old_tree.is_desc(m, a),
    decreases m,
{
    if 0 < m {
        let k = (m - 1) / 8;
        assert(old_tree.block_links_ok(k));
        assert(new_tree.parent_of(m) == old_tree.parent_of(m));
        let p = old_tree.parent_of(m);
        if 0 <= p < m {
            lemma_split_keeps_ancestry(old_tree, new_tree, p, a);
        }
    }
}

/// After a split the pre-order still holds: the eight new children follow their parent and
/// the nodes that came after it move up by eight places.
proof fn lemma_split_keeps_preorder(old_tree: &Octree, new_tree: &Octree, leaf: int)
    requires
        old_tree.wf(),
        new_tree.links_ok(),
        old_tree.node_seq().len() + 8 <= usize::MAX,
        0 <= leaf < old_tree.node_seq().len(),
        old_tree.node_seq()[leaf].children == 0,
        new_tree.node_seq().len() == old_tree.node_seq().len() + 8,
        new_tree.parent_seq() == old_tree.parent_seq().push(leaf as usize),
        new_tree.node_seq()[leaf] == (Node {
            children: old_tree.node_seq().len() as usize,
            next: old_tree.node_seq()[leaf].next,
        }),
        forall|i: int|
            0 <= i < old_tree.node_seq().len() && i != leaf ==> #[trigger] new_tree.node_seq()[i]
                == old_tree.node_seq()[i],
        forall|o: int|
            0 <= o < 8 ==> #[trigger] new_tree.node_seq()[old_tree.node_seq().len() + o] == (Node {
                children: 0,
                next: if o < 7 {
                    (old_tree.node_seq().len() + o + 1) as usize
                } else {
                    old_tree.node_seq()[leaf].next
                },
            }),
        new_tree.order_seq() == Seq::new(
            (old_tree.node_seq().len() + 8) as nat,
            |i: int|
                if i < old_tree.node_seq().len() {
                    shifted(old_tree.order_seq()[i], old_tree.order_seq()[leaf])
                } else {
                    old_tree.order_seq()[leaf] + 1 + (i - old_tree.node_seq().len())
                },
        ),
        new_tree.by_order_seq() == Seq::new(
            (old_tree.node_seq().len() + 8) as nat,
            |r: int|
                if r <= old_tree.order_seq()[leaf] {
                    old_tree.by_order_seq()[r]
                } else if r <= old_tree.order_seq()[leaf] + 8 {
                    (old_tree.node_seq().len() + r - old_tree.order_seq()[leaf] - 1) as usize
                } else {
                    old_tree.by_order_seq()[r - 8]
                },
        ),
    ensures
        new_tree.preorder_ok(),
{
    let n0 = old_tree.node_seq().len() as int;
    let n1 = n0 + 8;
    let rl = old_tree.order_seq()[leaf];
    let ord = old_tree.order_seq();
    let nord = new_tree.order_seq();
    assert(old_tree.step_ok(leaf));
    assert(old_tree.node_links_ok(leaf));
    let after = old_tree.node_seq()[leaf].next as int;
    // The leaf is followed by its `next` node, at the next position.
    assert(old_tree.end(leaf) == rl + 1);
    // Positions of the old nodes only move up past the leaf, keeping their order.
    assert forall|i: int| 0 <= i < n0 && i != leaf implies ord[i] != rl by {
        assert(old_tree.step_ok(i));
    }
    assert forall|i: int| 0 <= i < n1 implies #[trigger] new_tree.step_ok(i) by {
        if i < n0 {
            assert(old_tree.step_ok(i));
            assert(nord[i] == shifted(ord[i], rl));
            if i == leaf {
                assert(new_tree.succ(i) == n0);
                assert(nord[n0] == rl + 1);
                if after != 0 {
                    assert(nord[after] == shifted(ord[after], rl));
                }
            } else {
                assert(new_tree.node_seq()[i] == old_tree.node_seq()[i]);
                let s = old_tree.succ(i);
                assert(new_tree.succ(i) == s);
                if s != 0 {
                    assert(old_tree.node_links_ok(i));
                    assert(nord[s] == shifted(ord[s], rl));
                }
                let x = old_tree.node_seq()[i].next as int;
                if x != 0 {
                    assert(old_tree.node_links_ok(i));
                    assert(nord[x] == shifted(ord[x], rl));
                }
            }
        } else {
            let q = i - n0;
            assert(new_tree.node_seq()[n0 + q].children == 0);
            assert(nord[i] == rl + 1 + q);
            if q < 7 {
                assert(new_tree.node_seq()[n0 + q].next == i + 1);
                assert(nord[i + 1] == rl + 2 + q);
            } else {
                assert(new_tree.node_seq()[n0 + q].next == after);
                if after != 0 {
                    assert(nord[after] == shifted(ord[after], rl));
                }
            }
        }
    }
    assert forall|r: int| 0 <= r < n1 implies #[trigger] new_tree.position_ok(r) by {
        if r <= rl {
            assert(old_tree.position_ok(r));
        } else if r <= rl + 8 {
        } else {
            assert(old_tree.position_ok(r - 8));
        }
    }
    // The end of every old node moves the same way as the positions.
    assert forall|a: int| 0 <= a < n0 implies new_tree.end(a) == shifted(#[trigger] old_tree.end(a), rl)
        by {
        assert(old_tree.step_ok(a));
        assert(old_tree.node_links_ok(a));
        let x = old_tree.node_seq()[a].next as int;
        assert(new_tree.node_seq()[a].next == x);
        if x != 0 {
            assert(nord[x] == shifted(ord[x], rl));
        }
    }
    assert forall|a: int, m: int|
        #![trigger new_tree.is_desc(m, a)]
        0 <= a < n1 && 0 <= m < n1 implies (nord[a] < nord[m] < new_tree.end(a) <==> new_tree.is_desc(
            m,
            a,
        )) by {
        if m < n0 {
            lemma_split_keeps_ancestry(old_tree, new_tree, m, a);
            if a < n0 {
                assert(ord[a] < ord[m] < old_tree.end(a) <==> old_tree.is_desc(m, a));
                assert(new_tree.end(a) == shifted(old_tree.end(a), rl));
            } else {
                if old_tree.is_desc(m, a) {
                    lemma_ancestor_smaller(old_tree, m, a);
                }
                let q = a - n0;
                assert(new_tree.node_seq()[n0 + q].next == (if q < 7 {
                    (n0 + q + 1) as usize
                } else {
                    after as usize
                }));
                if q == 7 {
                    assert(new_tree.end(a) == shifted(old_tree.end(leaf), rl));
                }
            }
        } else {
            // A new child hangs below the leaf, and so below the leaf's ancestors.
            assert(new_tree.parent_of(m) == leaf);
            lemma_split_keeps_ancestry(old_tree, new_tree, leaf, a);
            assert(new_tree.is_desc(m, a) == (a == leaf || old_tree.is_desc(leaf, a)));
            if a < n0 {
                assert(new_tree.end(a) == shifted(old_tree.end(a), rl));
                if a != leaf {
                    assert(ord[a] < ord[leaf] < old_tree.end(a) <==> old_tree.is_desc(leaf, a));
                }
            } else {
                if old_tree.is_desc(leaf, a) {
                    lemma_ancestor_smaller(old_tree, leaf, a);
                }
                let q = a - n0;
                assert(new_tree.node_seq()[n0 + q].next == (if q < 7 {
                    (n0 + q + 1) as usize
                } else {
                    after as usize
                }));
                if q == 7 {
                    assert(new_tree.end(a) == shifted(old_tree.end(leaf), rl));
                }
            }
        }
    }
}

/// Going down wherever it can, a traversal from the root meets every node once, in pre-order:
/// the node at position `r` is followed by the node at position `r + 1`, and the last one ends
/// the traversal.
pub proof fn lemma_full_traversal_in_preorder(tree: &Octree, r: int)
    requires
        tree.wf(),
        0 <= r < tree.node_seq().len(),
    ensures
        tree.by_order_seq()[r] < tree.node_seq().len(),
        tree.order_seq()[tree.by_order_seq()[r] as int] == r,
        r == 0 ==> tree.by_order_seq()[r] == Octree::ROOT,
        r + 1 < tree.node_seq().len() ==> tree.succ(tree.by_order_seq()[r] as int) == tree.by_order_seq()[r + 1],
        r + 1 == tree.node_seq().len() ==> tree.succ(tree.by_order_seq()[r] as int) == 0,
{
    assert(tree.position_ok(r));
    let b = tree.by_order_seq()[r] as int;
    assert(tree.step_ok(b));
    assert(tree.step_ok(0));
    assert(tree.position_ok(0));
    let s = tree.succ(b);
    if s != 0 {
        assert(tree.node_links_ok(b));
        assert(tree.step_ok(s));
        if r + 1 < tree.node_seq().len() {
            assert(tree.position_ok(r + 1));
        }
    }
}

/// Skipping from node `a` to its `next` node passes over exactly the subtree of `a`: the
/// nodes strictly between the two in pre-order are the descendants of `a`.
pub proof fn lemma_skip_passes_subtree(tree: &Octree, a: int, m: int)
    requires
        tree.wf(),
        0 <= a < tree.node_seq().len(),
        0 <= m < tree.node_seq().len(),
    ensures
        tree.order_seq()[a] < tree.order_seq()[m] < tree.end(a) <==> tree.is_desc(m, a),
        tree.order_seq()[a] < tree.end(a),
{
    assert(tree.step_ok(a));
    assert(tree.node_links_ok(a));
}

} // verus!
