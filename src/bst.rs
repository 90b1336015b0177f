use vstd::prelude::*;

verus! {

/// The interval of keys open to a root.
pub open spec fn full_range() -> (int, int) {
    (i32::MIN as int, i32::MAX as int + 1)
}

/// The nodes after `u` is replaced by `v` under the parent of `u`: the
/// parent's slot that held `u` holds `v`, and `v` names that parent. A root
/// `u` leaves everything as it was.
pub open spec fn transplanted(nodes: Seq<BstNode>, u: int, v: Option<BstNodeLink>) -> Seq<
    BstNode,
> {
    match nodes[u].parent {
        None => nodes,
        Some(p) => {
            let pn = nodes[p as int];
            let s1 = if pn.left == Some(u as usize) {
                nodes.update(p as int, BstNode { left: v, ..pn })
            } else {
                nodes.update(p as int, BstNode { right: v, ..pn })
            };
            match v {
                Some(w) => s1.update(w as int, BstNode { parent: Some(p), ..s1[w as int] }),
                None => s1,
            }
        },
    }
}

/// The node that takes the place of `z` when it is deleted.
pub open spec fn replacement(a: BstArena, z: int) -> Option<BstNodeLink> {
    let n = a.node(z);
    if n.left is None {
        n.right
    } else if n.right is None {
        n.left
    } else {
        Some(a.min_of(n.right->0 as int) as usize)
    }
}

/// Node `i` once `z` is deleted: `z` loses all links, the node that takes
/// its place hangs from the parent of `z`, and in the two-children case the
/// leftmost node `y` of the right subtree hands its right child to its old
/// parent and takes over both children of `z`.
pub open spec fn after_delete(a: BstArena, z: int, i: int) -> BstNode {
    let n = a.node(z);
    let zp = n.parent;
    let m = a.node(i);
    if i == z {
        BstNode { left: None, right: None, parent: None, ..n }
    } else if n.left is None || n.right is None {
        let c = if n.left is None {
            n.right
        } else {
            n.left
        };
        if c == Some(i as usize) {
            BstNode { parent: zp, ..m }
        } else if zp == Some(i as usize) {
            if m.left == Some(z as usize) {
                BstNode { left: c, ..m }
            } else {
                BstNode { right: c, ..m }
            }
        } else {
            m
        }
    } else {
        let r = n.right->0;
        let zl = n.left->0;
        let y = a.min_of(r as int);
        let q = a.node(y).parent->0;
        let x = a.node(y).right;
        if i == y {
            BstNode {
                left: Some(zl),
                right: if y == r as int {
                    m.right
                } else {
                    Some(r)
                },
                parent: zp,
                ..m
            }
        } else if zp == Some(i as usize) {
            if m.left == Some(z as usize) {
                BstNode { left: Some(y as usize), ..m }
            } else {
                BstNode { right: Some(y as usize), ..m }
            }
        } else if i == zl as int {
            BstNode { parent: Some(y as usize), ..m }
        } else if y == r as int {
            m
        } else if i == r as int && q == r {
            BstNode { left: x, parent: Some(y as usize), ..m }
        } else if i == r as int {
            BstNode { parent: Some(y as usize), ..m }
        } else if i == q as int {
            BstNode { left: x, ..m }
        } else if x == Some(i as usize) {
            BstNode { parent: Some(q), ..m }
        } else {
            m
        }
    }
}

/// The ranks once `z` is deleted: the node that takes the place of `z` in
/// the two-children case takes its rank too.
pub open spec fn ranks_after_delete(a: BstArena, z: int) -> Seq<nat> {
    let n = a.node(z);
    if n.left is None || n.right is None {
        a.rank@
    } else {
        a.rank@.update(a.min_of(n.right->0 as int), a.rk(z))
    }
}

/// The key intervals once `z` is deleted: `z`, and a node that becomes a
/// root in its place, allow every key; in the two-children case the node
/// that takes the place of `z` takes its interval, and the intervals below
/// the right child of `z` start no lower than that node's key.
pub open spec fn bounds_after_delete(a: BstArena, z: int) -> Seq<(int, int)> {
    let n = a.node(z);
    Seq::new(
        a.bounds@.len(),
        |i: int|
            if i == z {
                full_range()
            } else if n.left is None || n.right is None {
                let c = if n.left is None {
                    n.right
                } else {
                    n.left
                };
                if n.parent is None && c == Some(i as usize) {
                    full_range()
                } else {
                    a.bounds@[i]
                }
            } else {
                let r = n.right->0 as int;
                let y = a.min_of(r);
                if i == y {
                    if n.parent is None {
                        full_range()
                    } else {
                        a.bounds@[z]
                    }
                } else if a.is_anc(r, i) {
                    (if a.lo(i) < a.node(y).key {
                        a.node(y).key as int
                    } else {
                        a.lo(i)
                    }, a.hi(i))
                } else {
                    a.bounds@[i]
                }
            },
    )
}

/// Handle of a node: its index in the arena.
pub type BstNodeLink = usize;

/// One node of the tree: a key, two child slots and a back reference to
/// the parent (`None` for a root).
#[derive(Clone, Copy, Debug, PartialEq, Eq)]
pub struct BstNode {
    pub key: i32,
    pub left: Option<BstNodeLink>,
    pub right: Option<BstNodeLink>,
    pub parent: Option<BstNodeLink>,
}

/// Storage for the nodes of one or more trees.
///
/// `rank` is a ghost numbering that grows strictly along every child link
/// and stays below the number of nodes, so that walks up and down the
/// links always end.
///
/// `bounds` gives each node a ghost interval `[lo, hi)` of the keys that
/// its position in the tree allows; it is what the ordering rests on.
pub struct BstArena {
    pub nodes: Vec<BstNode>,
    pub rank: Ghost<Seq<nat>>,
    pub bounds: Ghost<Seq<(int, int)>>,
}

impl BstArena {
    pub open spec fn len(self) -> int {
        self.nodes@.len() as int
    }

    pub open spec fn node(self, i: int) -> BstNode {
        self.nodes@[i]
    }

    pub open spec fn rk(self, i: int) -> nat {
        self.rank@[i]
    }

    pub open spec fn valid(self, i: int) -> bool {
        0 <= i < self.len()
    }

    pub open spec fn valid_link(self, l: Option<BstNodeLink>) -> bool {
        match l {
            Some(c) => self.valid(c as int),
            None => true,
        }
    }

    /// Child slot `c` of node `i` is consistent with the child's back reference.
    pub open spec fn child_ok(self, i: int, c: Option<BstNodeLink>) -> bool {
        match c {
            Some(c) => self.valid(c as int) && self.node(c as int).parent == Some(i as usize)
                && self.rk(i) < self.rk(c as int),
            None => true,
        }
    }

    pub open spec fn node_ok(self, i: int) -> bool {
        let n = self.node(i);
        &&& self.rk(i) < self.len()
        &&& self.child_ok(i, n.left)
        &&& self.child_ok(i, n.right)
        &&& (n.left is Some && n.right is Some ==> n.left != n.right)
        &&& match n.parent {
            Some(p) => self.valid(p as int) && self.rk(p as int) < self.rk(i) && (self.node(
                p as int,
            ).left == Some(i as usize) || self.node(p as int).right == Some(i as usize)),
            None => true,
        }
    }

    /// Every link is in bounds, child and parent references agree, and the
    /// links form a forest.
    pub open spec fn wf(self) -> bool {
        &&& self.rank@.len() == self.nodes@.len()
        &&& self.nodes@.len() <= usize::MAX
        &&& forall|i: int| 0 <= i < self.len() ==> #[trigger] self.node_ok(i)
    }

    pub open spec fn lo(self, i: int) -> int {
        self.bounds@[i].0
    }

    pub open spec fn hi(self, i: int) -> int {
        self.bounds@[i].1
    }

    pub open spec fn node_ordered(self, i: int) -> bool {
        let n = self.node(i);
        &&& self.lo(i) <= n.key < self.hi(i)
        &&& (n.parent is None ==> self.bounds@[i] == full_range())
        &&& match n.left {
            Some(c) => self.lo(i) <= self.lo(c as int) && self.hi(c as int) <= n.key,
            None => true,
        }
        &&& match n.right {
            Some(c) => n.key <= self.lo(c as int) && self.hi(c as int) <= self.hi(i),
            None => true,
        }
    }

    /// Binary search tree ordering: each node's key lies in its interval; a
    /// child's interval lies within its parent's, a left child's ends at or
    /// before its parent's key, a right child's starts at or after it, and a
    /// root allows every key.
    pub open spec fn ordered(self) -> bool {
        &&& self.bounds@.len() == self.nodes@.len()
        &&& forall|i: int| 0 <= i < self.len() ==> #[trigger] self.node_ordered(i)
    }

    /// `a` is `i` or lies on the parent chain above `i`.
    pub open spec fn is_anc(self, a: int, i: int) -> bool
        decreases self.rk(i),
    {
        i == a || match self.node(i).parent {
            Some(p) => self.rk(p as int) < self.rk(i) && self.is_anc(a, p as int),
            None => false,
        }
    }

    /// Node `i` belongs to the tree whose root slot holds `root`.
    pub open spec fn in_tree(self, root: Option<BstNodeLink>, i: int) -> bool {
        &&& self.valid(i)
        &&& root == Some(self.root_of(i) as usize)
    }

    /// The node reached from `i` by following parent references to the end.
    pub open spec fn root_of(self, i: int) -> int
        decreases self.rk(i),
    {
        match self.node(i).parent {
            Some(p) => if self.rk(p as int) < self.rk(i) {
                self.root_of(p as int)
            } else {
                i
            },
            None => i,
        }
    }

    /// Number of parent references followed from `i` to its root.
    pub open spec fn depth_of(self, i: int) -> nat
        decreases self.rk(i),
    {
        match self.node(i).parent {
            Some(p) => if self.rk(p as int) < self.rk(i) {
                self.depth_of(p as int) + 1
            } else {
                0
            },
            None => 0,
        }
    }

    /// The first node above `i` that holds the subtree of `i` on its left.
    pub open spec fn up_succ(self, i: int) -> Option<BstNodeLink>
        decreases self.rk(i),
    {
        match self.node(i).parent {
            Some(p) => if self.rk(p as int) < self.rk(i) {
                if self.node(p as int).left == Some(i as usize) {
                    Some(p)
                } else {
                    self.up_succ(p as int)
                }
            } else {
                None
            },
            None => None,
        }
    }

    /// The in-order successor of `i`: the leftmost node of its right
    /// subtree, or else the first node above it that holds it on its left.
    pub open spec fn succ_of(self, i: int) -> Option<BstNodeLink> {
        match self.node(i).right {
            Some(c) => Some(self.min_of(c as int) as usize),
            None => self.up_succ(i),
        }
    }

    /// The node reached from `i` by following left children to the end.
    pub open spec fn min_of(self, i: int) -> int
        decreases self.len() - self.rk(i),
    {
        match self.node(i).left {
            Some(c) => if self.rk(i) < self.rk(c as int) < self.len() {
                self.min_of(c as int)
            } else {
                i
            },
            None => i,
        }
    }

    /// The node reached from `i` by following right children to the end.
    pub open spec fn max_of(self, i: int) -> int
        decreases self.len() - self.rk(i),
    {
        match self.node(i).right {
            Some(c) => if self.rk(i) < self.rk(c as int) < self.len() {
                self.max_of(c as int)
            } else {
                i
            },
            None => i,
        }
    }

    /// Sets the left slot of node `i`; the ghost numbering is untouched.
    fn set_left(&mut self, i: BstNodeLink, c: Option<BstNodeLink>)
        requires
            old(self).valid(i as int),
        ensures
            final(self).nodes@ == old(self).nodes@.update(
                i as int,
                (BstNode { left: c, ..old(self).node(i as int) }),
            ),
            final(self).rank == old(self).rank,
            final(self).bounds == old(self).bounds,
    {
        let mut n = self.nodes[i];
        n.left = c;
        self.nodes.set(i, n);
    }

    /// Sets the right slot of node `i`; the ghost numbering is untouched.
    fn set_right(&mut self, i: BstNodeLink, c: Option<BstNodeLink>)
        requires
            old(self).valid(i as int),
        ensures
            final(self).nodes@ == old(self).nodes@.update(
                i as int,
                (BstNode { right: c, ..old(self).node(i as int) }),
            ),
            final(self).rank == old(self).rank,
            final(self).bounds == old(self).bounds,
    {
        let mut n = self.nodes[i];
        n.right = c;
        self.nodes.set(i, n);
    }

    /// Sets the parent reference of node `i`; the ghost numbering is untouched.
    fn set_parent(&mut self, i: BstNodeLink, p: Option<BstNodeLink>)
        requires
            old(self).valid(i as int),
        ensures
            final(self).nodes@ == old(self).nodes@.update(
                i as int,
                (BstNode { parent: p, ..old(self).node(i as int) }),
            ),
            final(self).rank == old(self).rank,
            final(self).bounds == old(self).bounds,
    {
        let mut n = self.nodes[i];
        n.parent = p;
        self.nodes.set(i, n);
    }

    /// An arena with no nodes.
    pub fn new() -> (r: BstArena)
        ensures
            r.wf(),
            r.ordered(),
            r.len() == 0,
    {
        BstArena { nodes: Vec::new(), rank: Ghost(Seq::empty()), bounds: Ghost(Seq::empty()) }
    }

    /// The key held by node `n`.
    pub fn key(&self, n: BstNodeLink) -> (r: i32)
        requires
            self.valid(n as int),
        ensures
            r == self.node(n as int).key,
    {
        self.nodes[n].key
    }

    /// The left child of node `n`.
    pub fn left(&self, n: BstNodeLink) -> (r: Option<BstNodeLink>)
        requires
            self.valid(n as int),
        ensures
            r == self.node(n as int).left,
    {
        self.nodes[n].left
    }

    /// The right child of node `n`.
    pub fn right(&self, n: BstNodeLink) -> (r: Option<BstNodeLink>)
        requires
            self.valid(n as int),
        ensures
            r == self.node(n as int).right,
    {
        self.nodes[n].right
    }

    /// The parent of node `n`.
    pub fn parent(&self, n: BstNodeLink) -> (r: Option<BstNodeLink>)
        requires
            self.valid(n as int),
        ensures
            r == self.node(n as int).parent,
    {
        self.nodes[n].parent
    }

    /// Number of nodes ever created in the arena.
    pub fn size(&self) -> (r: usize)
        ensures
            r == self.len(),
    {
        self.nodes.len()
    }
}

/// Following parent references from `i` ends at a root above `i`.
pub proof fn lemma_root_is_anc(a: BstArena, i: int)
    requires
        a.wf(),
        a.valid(i),
    ensures
        a.valid(a.root_of(i)),
        a.node(a.root_of(i)).parent is None,
        a.is_anc(a.root_of(i), i),
    decreases a.rk(i),
{
    assert(a.node_ok(i));
    if let Some(p) = a.node(i).parent {
        lemma_root_is_anc(a, p as int);
    }
}

/// The interval of a node lies within the interval of each node above it.
pub proof fn lemma_nested(a: BstArena, x: int, i: int)
    requires
        a.wf(),
        a.ordered(),
        a.valid(i),
        a.is_anc(x, i),
    ensures
        a.lo(x) <= a.lo(i),
        a.hi(i) <= a.hi(x),
    decreases a.rk(i),
{
    if i != x {
        assert(a.node_ok(i));
        let p = a.node(i).parent->0 as int;
        lemma_nested(a, x, p);
        assert(a.node_ordered(p));
    }
}

/// A node strictly below `x` lies below one of the children of `x`.
pub proof fn lemma_below_child(a: BstArena, x: int, i: int)
    requires
        a.wf(),
        a.valid(i),
        a.is_anc(x, i),
        i != x,
    ensures
        (a.node(x).left is Some && a.is_anc(a.node(x).left->0 as int, i)) || (a.node(
            x,
        ).right is Some && a.is_anc(a.node(x).right->0 as int, i)),
    decreases a.rk(i),
{
    assert(a.node_ok(i));
    let p = a.node(i).parent->0 as int;
    if p != x {
        lemma_below_child(a, x, p);
        if a.node(x).left is Some && a.is_anc(a.node(x).left->0 as int, p) {
            assert(a.is_anc(a.node(x).left->0 as int, i));
        } else {
            assert(a.is_anc(a.node(x).right->0 as int, i));
        }
    }
}

/// In an ordered tree, every key below the left child of `x` is smaller
/// than the key of `x`, and every key below its right child is at least
/// as large: an in-order walk meets the keys in non-decreasing order.
pub proof fn lemma_ordered_subtrees(a: BstArena, x: int, d: int)
    requires
        a.wf(),
        a.ordered(),
        a.valid(x),
        a.valid(d),
    ensures
        a.node(x).left is Some && a.is_anc(a.node(x).left->0 as int, d) ==> a.node(d).key < a.node(
            x,
        ).key,
        a.node(x).right is Some && a.is_anc(a.node(x).right->0 as int, d) ==> a.node(d).key
            >= a.node(x).key,
{
    assert(a.node_ordered(x));
    assert(a.node_ordered(d));
    if a.node(x).left is Some && a.is_anc(a.node(x).left->0 as int, d) {
        lemma_nested(a, a.node(x).left->0 as int, d);
    }
    if a.node(x).right is Some && a.is_anc(a.node(x).right->0 as int, d) {
        lemma_nested(a, a.node(x).right->0 as int, d);
    }
}

/// Going one step down from a node below `a` stays below `a`.
pub proof fn lemma_anc_trans(a: BstArena, top: int, c: int, d: int)
    requires
        a.wf(),
        a.valid(c),
        a.valid(d),
        a.is_anc(top, c),
        a.node(d).parent == Some(c as usize),
    ensures
        a.is_anc(top, d),
{
    assert(a.node_ok(d));
}

/// Where the old nodes keep their parents and ranks, they keep the nodes
/// above them.
pub proof fn lemma_anc_frame(a: BstArena, b: BstArena, top: int, i: int)
    requires
        a.wf(),
        a.valid(i),
        forall|j: int|
            #![trigger b.node(j)]
            a.valid(j) ==> b.node(j).parent == a.node(j).parent && b.rk(j) == a.rk(j),
    ensures
        a.is_anc(top, i) == b.is_anc(top, i),
    decreases a.rk(i),
{
    assert(a.node_ok(i));
    assert(b.node(i).parent == a.node(i).parent);
    if let Some(p) = a.node(i).parent {
        assert(b.node(p as int).parent == a.node(p as int).parent);
        lemma_anc_frame(a, b, top, p as int);
    }
}

/// A node above `i` has a smaller rank, unless it is `i`.
pub proof fn lemma_anc_rank(a: BstArena, x: int, i: int)
    requires
        a.wf(),
        a.valid(i),
        a.is_anc(x, i),
    ensures
        a.rk(x) <= a.rk(i),
        x != i ==> a.rk(x) < a.rk(i),
        a.valid(x),
    decreases a.rk(i),
{
    if x != i {
        assert(a.node_ok(i));
        lemma_anc_rank(a, x, a.node(i).parent->0 as int);
    }
}

/// The leftmost node of the subtree at `r` lies below `r`.
pub proof fn lemma_min_below(a: BstArena, r: int)
    requires
        a.wf(),
        a.valid(r),
    ensures
        a.valid(a.min_of(r)),
        a.is_anc(r, a.min_of(r)),
        a.node(a.min_of(r)).left is None,
        a.min_of(r) != r ==> a.node(a.min_of(r)).parent is Some && a.node(
            a.node(a.min_of(r)).parent->0 as int,
        ).left == Some(a.min_of(r) as usize),
    decreases a.len() - a.rk(r),
{
    assert(a.node_ok(r));
    if let Some(c) = a.node(r).left {
        assert(a.node_ok(c as int));
        lemma_min_below(a, c as int);
        lemma_anc_chain(a, r, c as int, a.min_of(c as int));
    }
}

/// A node below a child of `r` is below `r`.
pub proof fn lemma_anc_chain(a: BstArena, r: int, c: int, d: int)
    requires
        a.wf(),
        a.valid(d),
        a.valid(c),
        a.valid(r),
        a.node(c).parent == Some(r as usize),
        a.is_anc(c, d),
    ensures
        a.is_anc(r, d),
    decreases a.rk(d),
{
    assert(a.node_ok(c));
    assert(a.is_anc(r, r));
    if d != c {
        assert(a.node_ok(d));
        let p = a.node(d).parent->0 as int;
        lemma_anc_chain(a, r, c, p);
    }
}

/// Deleting a node with at most one child keeps the links consistent.
pub proof fn lemma_delete_one_wf(a: BstArena, b: BstArena, z: int)
    requires
        a.wf(),
        a.valid(z),
        a.node(z).left is None || a.node(z).right is None,
        b.len() == a.len(),
        b.rank@ == ranks_after_delete(a, z),
        forall|i: int| 0 <= i < b.len() ==> #[trigger] b.node(i) == after_delete(a, z, i),
    ensures
        b.wf(),
{
    let n = a.node(z);
    assert(a.node_ok(z));
    assert forall|i: int| 0 <= i < b.len() implies #[trigger] b.node_ok(i) by {
        assert(a.node_ok(i));
        assert(b.node(i) == after_delete(a, z, i));
        if let Some(p) = a.node(i).parent {
            assert(a.node_ok(p as int));
            assert(b.node(p as int) == after_delete(a, z, p as int));
        }
        if let Some(c) = b.node(i).left {
            assert(b.node(c as int) == after_delete(a, z, c as int));
            assert(a.node_ok(c as int));
        }
        if let Some(c) = b.node(i).right {
            assert(b.node(c as int) == after_delete(a, z, c as int));
            assert(a.node_ok(c as int));
        }
    }
}

/// Deleting a node with two children keeps the links consistent.
#[verifier::rlimit(100)]
pub proof fn lemma_delete_two_wf(a: BstArena, b: BstArena, z: int)
    requires
        a.wf(),
        a.valid(z),
        a.node(z).left is Some && a.node(z).right is Some,
        b.len() == a.len(),
        b.rank@ == ranks_after_delete(a, z),
        forall|i: int| 0 <= i < b.len() ==> #[trigger] b.node(i) == after_delete(a, z, i),
    ensures
        b.wf(),
{
    let n = a.node(z);
    assert(a.node_ok(z));
    if let Some(p) = n.parent {
        assert(a.node_ok(p as int));
    }
    let r = n.right->0 as int;
    let zl = n.left->0 as int;
    assert(a.node_ok(r));
    assert(a.node_ok(zl));
    lemma_min_below(a, r);
    let y = a.min_of(r);
    assert(a.node_ok(y));
    lemma_anc_rank(a, r, y);
    if y != r {
        let q = a.node(y).parent->0 as int;
        assert(a.node_ok(q));
        assert(a.is_anc(r, q));
        lemma_anc_rank(a, r, q);
        if q == zl {
            assert(a.is_anc(r, z));
            lemma_anc_rank(a, r, z);
        }
        if let Some(x) = a.node(y).right {
            assert(a.node_ok(x as int));
        }
    } else if let Some(x) = a.node(y).right {
        assert(a.node_ok(x as int));
    }
    assert forall|i: int| 0 <= i < b.len() implies #[trigger] b.node_ok(i) by {
        assert(a.node_ok(i));
        assert(b.node(i) == after_delete(a, z, i));
        if let Some(p) = b.node(i).parent {
            assert(b.node(p as int) == after_delete(a, z, p as int));
        }
        if let Some(p) = a.node(i).parent {
            assert(a.node_ok(p as int));
        }
        if let Some(c) = b.node(i).left {
            assert(b.node(c as int) == after_delete(a, z, c as int));
            assert(a.node_ok(c as int));
        }
        if let Some(c) = b.node(i).right {
            assert(b.node(c as int) == after_delete(a, z, c as int));
            assert(a.node_ok(c as int));
        }
    }
}

/// The rightmost node of the subtree at `r` lies below `r`.
pub proof fn lemma_max_below(a: BstArena, r: int)
    requires
        a.wf(),
        a.valid(r),
    ensures
        a.valid(a.max_of(r)),
        a.is_anc(r, a.max_of(r)),
        a.node(a.max_of(r)).right is None,
    decreases a.len() - a.rk(r),
{
    assert(a.node_ok(r));
    if let Some(c) = a.node(r).right {
        assert(a.node_ok(c as int));
        lemma_max_below(a, c as int);
        lemma_anc_chain(a, r, c as int, a.max_of(c as int));
    }
}

/// In an ordered tree, the leftmost node of a subtree holds its smallest
/// key and the rightmost node its largest.
pub proof fn lemma_min_max_bounds(a: BstArena, x: int, d: int)
    requires
        a.wf(),
        a.ordered(),
        a.valid(x),
        a.valid(d),
        a.is_anc(x, d),
    ensures
        a.node(a.min_of(x)).key <= a.node(d).key <= a.node(a.max_of(x)).key,
    decreases a.len() - a.rk(x),
{
    assert(a.node_ok(x));
    lemma_ordered_subtrees(a, x, d);
    if d != x {
        lemma_below_child(a, x, d);
    }
    if let Some(c) = a.node(x).left {
        assert(a.node_ok(c as int));
        lemma_min_below(a, c as int);
        lemma_ordered_subtrees(a, x, a.min_of(c as int));
        if d != x && a.is_anc(c as int, d) {
            lemma_min_max_bounds(a, c as int, d);
        }
    }
    if let Some(c) = a.node(x).right {
        assert(a.node_ok(c as int));
        lemma_max_below(a, c as int);
        lemma_ordered_subtrees(a, x, a.max_of(c as int));
        if d != x && a.is_anc(c as int, d) {
            lemma_min_max_bounds(a, c as int, d);
        }
    }
}

/// Where the walk up from `i` stops at a node `p`, `i` lies below the left
/// child of `p`.
pub proof fn lemma_up_succ_left(a: BstArena, i: int)
    requires
        a.wf(),
        a.valid(i),
        a.up_succ(i) is Some,
    ensures
        a.valid(a.up_succ(i)->0 as int),
        a.node(a.up_succ(i)->0 as int).left is Some,
        a.is_anc(a.node(a.up_succ(i)->0 as int).left->0 as int, i),
    decreases a.rk(i),
{
    assert(a.node_ok(i));
    let p = a.node(i).parent->0 as int;
    assert(a.node_ok(p));
    if a.node(p).left != Some(i as usize) {
        lemma_up_succ_left(a, p);
        let c = a.node(a.up_succ(i)->0 as int).left->0 as int;
        lemma_anc_rank(a, c, p);
        lemma_anc_trans(a, c, p, i);
    }
}

/// In an ordered tree the successor of a node holds a key at least as
/// large as the node's own.
pub proof fn lemma_successor_not_smaller(a: BstArena, n: int)
    requires
        a.wf(),
        a.ordered(),
        a.valid(n),
        a.succ_of(n) is Some,
    ensures
        a.valid(a.succ_of(n)->0 as int),
        a.node(a.succ_of(n)->0 as int).key >= a.node(n).key,
{
    assert(a.node_ok(n));
    if let Some(c) = a.node(n).right {
        assert(a.node_ok(c as int));
        lemma_min_below(a, c as int);
        lemma_ordered_subtrees(a, n, a.min_of(c as int));
    } else {
        lemma_up_succ_left(a, n);
        lemma_ordered_subtrees(a, a.up_succ(n)->0 as int, n);
    }
}

/// Nodes below `x` share the root of `x`.
pub proof fn lemma_anc_same_root(a: BstArena, x: int, i: int)
    requires
        a.wf(),
        a.valid(i),
        a.is_anc(x, i),
    ensures
        a.root_of(i) == a.root_of(x),
    decreases a.rk(i),
{
    if i != x {
        assert(a.node_ok(i));
        lemma_anc_same_root(a, x, a.node(i).parent->0 as int);
    }
}

/// The root reached from `i` after a change that hangs each node but `z`
/// from a node of its old tree, where only the node `nr` that replaces a
/// root `z` lost its parent.
pub proof fn lemma_roots_moved(a: BstArena, b: BstArena, z: int, nr: int, i: int)
    requires
        a.wf(),
        b.wf(),
        b.len() == a.len(),
        a.valid(i),
        i != z,
        forall|j: int|
            #![trigger b.node(j)]
            a.valid(j) && j != z ==> match b.node(j).parent {
                Some(fp) => fp != z && a.root_of(fp as int) == a.root_of(j),
                None => if a.root_of(j) == z {
                    nr == j
                } else {
                    a.root_of(j) == j
                },
            },
    ensures
        b.root_of(i) == if a.root_of(i) == z {
            nr
        } else {
            a.root_of(i)
        },
    decreases b.rk(i),
{
    assert(b.node_ok(i));
    if let Some(fp) = b.node(i).parent {
        lemma_roots_moved(a, b, z, nr, fp as int);
    }
}

/// After a deletion every other node keeps its root, but for the nodes
/// of a deleted root, whose root becomes the node that took its place.
#[verifier::rlimit(50)]
pub proof fn lemma_delete_roots(a: BstArena, b: BstArena, z: int, i: int)
    requires
        a.wf(),
        b.wf(),
        a.valid(z),
        a.valid(i),
        i != z,
        b.len() == a.len(),
        forall|j: int| 0 <= j < b.len() ==> #[trigger] b.node(j) == after_delete(a, z, j),
    ensures
        b.root_of(i) == if a.root_of(i) == z {
            replacement(a, z)->0 as int
        } else {
            a.root_of(i)
        },
{
    let n = a.node(z);
    let nr = replacement(a, z)->0 as int;
    assert(a.node_ok(z));
    if let Some(p) = n.parent {
        assert(a.node_ok(p as int));
        assert(a.root_of(z) == a.root_of(p as int));
    }
    if let Some(c) = n.left {
        assert(a.node_ok(c as int));
        assert(a.root_of(c as int) == a.root_of(z));
    }
    if let Some(c) = n.right {
        assert(a.node_ok(c as int));
        assert(a.root_of(c as int) == a.root_of(z));
    }
    if n.left is Some && n.right is Some {
        let r = n.right->0 as int;
        lemma_min_below(a, r);
        let y = a.min_of(r);
        lemma_anc_same_root(a, r, y);
        assert(a.node_ok(r));
        assert(a.node_ok(y));
        lemma_anc_rank(a, r, y);
        if y != r {
            let q = a.node(y).parent->0 as int;
            assert(a.node_ok(q));
            assert(a.root_of(y) == a.root_of(q));
            if let Some(x) = a.node(y).right {
                assert(a.node_ok(x as int));
                assert(a.root_of(x as int) == a.root_of(y));
            }
        }
    }
    assert forall|j: int|
        #![trigger b.node(j)]
        a.valid(j) && j != z implies match b.node(j).parent {
            Some(fp) => fp != z && a.root_of(fp as int) == a.root_of(j),
            None => if a.root_of(j) == z {
                nr == j
            } else {
                a.root_of(j) == j
            },
        } by {
        assert(b.node(j) == after_delete(a, z, j));
        assert(a.node_ok(j));
        if let Some(fp) = a.node(j).parent {
            assert(a.node_ok(fp as int));
            assert(a.root_of(j) == a.root_of(fp as int));
        } else {
            assert(a.root_of(j) == j);
        }
        if let Some(c) = a.node(j).right {
            assert(a.node_ok(c as int));
        }
        if let Some(fp) = b.node(j).parent {
            assert(b.node_ok(j));
        }
    }
    lemma_roots_moved(a, b, z, nr, i);
}

/// Deleting a node with at most one child keeps the tree ordered.
pub proof fn lemma_delete_one_ordered(a: BstArena, b: BstArena, z: int)
    requires
        a.wf(),
        a.ordered(),
        b.wf(),
        a.valid(z),
        a.node(z).left is None || a.node(z).right is None,
        b.len() == a.len(),
        b.bounds@ == bounds_after_delete(a, z),
        forall|i: int| 0 <= i < b.len() ==> #[trigger] b.node(i) == after_delete(a, z, i),
    ensures
        b.ordered(),
{
    let n = a.node(z);
    assert(a.node_ok(z));
    assert(a.node_ordered(z));
    if let Some(p) = n.parent {
        assert(a.node_ordered(p as int));
    }
    if let Some(c) = n.left {
        assert(a.node_ordered(c as int));
    }
    if let Some(c) = n.right {
        assert(a.node_ordered(c as int));
    }
    assert forall|i: int| 0 <= i < b.len() implies #[trigger] b.node_ordered(i) by {
        assert(a.node_ok(i));
        assert(a.node_ordered(i));
        assert(b.node(i) == after_delete(a, z, i));
        if let Some(c) = b.node(i).left {
            assert(b.node(c as int) == after_delete(a, z, c as int));
            assert(a.node_ordered(c as int));
        }
        if let Some(c) = b.node(i).right {
            assert(b.node(c as int) == after_delete(a, z, c as int));
            assert(a.node_ordered(c as int));
        }
    }
}

/// Deleting a node with two children keeps the tree ordered.
#[verifier::rlimit(100)]
pub proof fn lemma_delete_two_ordered(a: BstArena, b: BstArena, z: int)
    requires
        a.wf(),
        a.ordered(),
        b.wf(),
        a.valid(z),
        a.node(z).left is Some && a.node(z).right is Some,
        b.len() == a.len(),
        b.bounds@ == bounds_after_delete(a, z),
        forall|i: int| 0 <= i < b.len() ==> #[trigger] b.node(i) == after_delete(a, z, i),
    ensures
        b.ordered(),
{
    let n = a.node(z);
    assert(a.node_ok(z));
    assert(a.node_ordered(z));
    if let Some(p) = n.parent {
        assert(a.node_ordered(p as int));
        assert(a.node_ok(p as int));
    }
    let r = n.right->0 as int;
    let zl = n.left->0 as int;
    assert(a.node_ok(r));
    assert(a.node_ok(zl));
    assert(a.node_ordered(r));
    assert(a.node_ordered(zl));
    lemma_min_below(a, r);
    let y = a.min_of(r);
    let ky = a.node(y).key;
    assert(a.node_ok(y));
    assert(a.node_ordered(y));
    lemma_anc_rank(a, r, y);
    lemma_nested(a, r, y);
    if y != r {
        let q = a.node(y).parent->0 as int;
        assert(a.node_ok(q));
        assert(a.node_ordered(q));
        assert(a.is_anc(r, q));
        lemma_anc_rank(a, r, q);
        if q == zl {
            assert(a.is_anc(r, z));
            lemma_anc_rank(a, r, z);
        }
        if let Some(x) = a.node(y).right {
            assert(a.node_ok(x as int));
            assert(a.node_ordered(x as int));
            lemma_anc_trans(a, r, y, x as int);
        }
    } else if let Some(x) = a.node(y).right {
        assert(a.node_ok(x as int));
        assert(a.node_ordered(x as int));
        lemma_anc_trans(a, r, y, x as int);
    }
    assert(!a.is_anc(r, z)) by {
        if a.is_anc(r, z) {
            lemma_anc_rank(a, r, z);
        }
    }
    assert forall|i: int| 0 <= i < b.len() implies #[trigger] b.node_ordered(i) by {
        assert(a.node_ok(i));
        assert(a.node_ordered(i));
        assert(b.node(i) == after_delete(a, z, i));
        if a.is_anc(r, i) {
            lemma_min_max_bounds(a, r, i);
        }
        if let Some(p) = a.node(i).parent {
            assert(a.node_ok(p as int));
        }
        if let Some(c) = a.node(i).left {
            assert(a.node_ok(c as int));
            if a.is_anc(r, i) {
                lemma_anc_trans(a, r, i, c as int);
            }
        }
        if let Some(c) = a.node(i).right {
            assert(a.node_ok(c as int));
            if a.is_anc(r, i) {
                lemma_anc_trans(a, r, i, c as int);
            }
        }
        if let Some(c) = b.node(i).left {
            assert(b.node(c as int) == after_delete(a, z, c as int));
            assert(a.node_ordered(c as int));
            assert(a.node_ok(c as int));
        }
        if let Some(c) = b.node(i).right {
            assert(b.node(c as int) == after_delete(a, z, c as int));
            assert(a.node_ordered(c as int));
            assert(a.node_ok(c as int));
        }
    }
}

/// Below a root lie exactly the nodes whose parent references lead to it.
pub proof fn lemma_below_root(a: BstArena, rt: int, i: int)
    requires
        a.wf(),
        a.valid(rt),
        a.node(rt).parent is None,
        a.valid(i),
    ensures
        a.is_anc(rt, i) <==> a.root_of(i) == rt,
{
    lemma_root_is_anc(a, i);
    if a.is_anc(rt, i) {
        lemma_anc_same_root(a, rt, i);
    }
}

/// Being below is transitive.
pub proof fn lemma_anc_trans_full(a: BstArena, x: int, y: int, z: int)
    requires
        a.wf(),
        a.valid(z),
        a.is_anc(x, y),
        a.is_anc(y, z),
    ensures
        a.is_anc(x, z),
    decreases a.rk(z),
{
    if z != y {
        assert(a.node_ok(z));
        let p = a.node(z).parent->0 as int;
        lemma_anc_trans_full(a, x, y, p);
        lemma_anc_trans(a, x, p, z);
    }
}

/// Where the walk up from `cur` stops at `p`, the rightmost node of the left
/// subtree of `p` is the rightmost node below `cur`.
pub proof fn lemma_up_succ_max(a: BstArena, cur: int)
    requires
        a.wf(),
        a.valid(cur),
        a.up_succ(cur) is Some,
    ensures
        a.max_of(a.node(a.up_succ(cur)->0 as int).left->0 as int) == a.max_of(cur),
    decreases a.rk(cur),
{
    assert(a.node_ok(cur));
    let p = a.node(cur).parent->0 as int;
    assert(a.node_ok(p));
    if a.node(p).left != Some(cur as usize) {
        lemma_up_succ_max(a, p);
    }
}

/// Seen from above a subtree `t` that holds both `n` and `s`, no node
/// outside `t` has a key strictly between theirs.
pub proof fn lemma_outside_not_between(a: BstArena, b: int, t: int, n: int, s: int, d: int)
    requires
        a.wf(),
        a.ordered(),
        a.valid(t),
        a.valid(n),
        a.valid(s),
        a.valid(d),
        a.is_anc(b, t),
        a.is_anc(t, n),
        a.is_anc(t, s),
        a.is_anc(b, d),
        !a.is_anc(t, d),
    ensures
        a.node(d).key <= a.node(n).key || a.node(d).key >= a.node(s).key,
    decreases a.len() - a.rk(b),
{
    lemma_anc_rank(a, b, t);
    lemma_anc_rank(a, b, d);
    lemma_below_child(a, b, t);
    let l = a.node(b).left;
    let r = a.node(b).right;
    assert(a.node_ok(b));
    let ct = if l is Some && a.is_anc(l->0 as int, t) {
        l->0 as int
    } else {
        r->0 as int
    };
    assert(a.node_ok(ct));
    lemma_anc_trans_full(a, ct, t, n);
    lemma_anc_trans_full(a, ct, t, s);
    lemma_ordered_subtrees(a, b, n);
    lemma_ordered_subtrees(a, b, s);
    lemma_ordered_subtrees(a, b, d);
    if d != b {
        lemma_below_child(a, b, d);
        if a.is_anc(ct, d) {
            assert(a.node_ok(ct));
            lemma_anc_rank(a, ct, t);
            lemma_outside_not_between(a, ct, t, n, s, d);
        }
    }
}

/// In an ordered tree no node of the tree has a key strictly between the
/// key of a node and the key of its successor.
pub proof fn lemma_successor_adjacent(a: BstArena, rt: int, n: int, d: int)
    requires
        a.wf(),
        a.ordered(),
        a.valid(rt),
        a.node(rt).parent is None,
        a.valid(n),
        a.valid(d),
        a.is_anc(rt, n),
        a.is_anc(rt, d),
        a.succ_of(n) is Some,
    ensures
        !(a.node(n).key < a.node(d).key < a.node(a.succ_of(n)->0 as int).key),
{
    assert(a.node_ok(n));
    let s = a.succ_of(n)->0 as int;
    if let Some(c) = a.node(n).right {
        assert(a.node_ok(c as int));
        lemma_min_below(a, c as int);
        lemma_anc_trans(a, n, n, c as int);
        lemma_anc_trans_full(a, n, c as int, s);
        if a.is_anc(n, d) {
            lemma_ordered_subtrees(a, n, d);
            if d != n {
                lemma_below_child(a, n, d);
                if a.is_anc(c as int, d) {
                    lemma_min_max_bounds(a, c as int, d);
                }
            }
        } else {
            lemma_outside_not_between(a, rt, n, n, s, d);
        }
    } else {
        lemma_up_succ_left(a, n);
        lemma_up_succ_max(a, n);
        let c = a.node(s).left->0 as int;
        assert(a.max_of(n) == n);
        assert(a.node_ok(s));
        assert(a.node_ok(c));
        lemma_anc_trans(a, s, s, c);
        lemma_anc_trans_full(a, s, c, n);
        lemma_anc_same_root(a, s, n);
        lemma_below_root(a, rt, n);
        lemma_below_root(a, rt, s);
        if a.is_anc(s, d) {
            lemma_ordered_subtrees(a, s, d);
            if d != s {
                lemma_below_child(a, s, d);
                if a.is_anc(c, d) {
                    lemma_min_max_bounds(a, c, d);
                }
            }
        } else {
            assert(a.is_anc(s, s));
            lemma_outside_not_between(a, rt, s, n, s, d);
        }
    }
}

impl BstNode {
    /// Creates a detached leaf holding `value` and returns its handle.
    pub fn new_bst_nodelink(arena: &mut BstArena, value: i32) -> (r: BstNodeLink)
        requires
            old(arena).wf(),
            old(arena).len() < usize::MAX,
        ensures
            final(arena).wf(),
            old(arena).ordered() ==> final(arena).ordered(),
            r == old(arena).len(),
            final(arena).nodes@ == old(arena).nodes@.push(
                (BstNode { key: value, left: None, right: None, parent: None }),
            ),
    {
        let r = arena.nodes.len();
        let ghost k = arena.len();
        arena.nodes.push(BstNode { key: value, left: None, right: None, parent: None });
        arena.rank = Ghost(arena.rank@.push(0));
        arena.bounds = Ghost(arena.bounds@.push(full_range()));
        proof {
            if old(arena).ordered() {
                assert forall|i: int| 0 <= i < arena.len() implies #[trigger] arena.node_ordered(
                    i,
                ) by {
                    if i < k {
                        assert(old(arena).node_ordered(i));
                        assert(old(arena).node_ok(i));
                    }
                }
            }
        }
        assert forall|i: int| 0 <= i < arena.len() implies #[trigger] arena.node_ok(i) by {
            if i < k {
                assert(old(arena).node_ok(i));
            }
        }
        r
    }

    /// The leftmost node of the subtree at `node`: the node with the
    /// smallest key there.
    pub fn minimum(arena: &BstArena, node: BstNodeLink) -> (r: BstNodeLink)
        requires
            arena.wf(),
            arena.valid(node as int),
        ensures
            r as int == arena.min_of(node as int),
            arena.valid(r as int),
            arena.node(r as int).left is None,
            arena.rk(r as int) >= arena.rk(node as int),
    {
        let mut current = node;
        loop
            invariant
                arena.wf(),
                arena.valid(current as int),
                arena.min_of(current as int) == arena.min_of(node as int),
                arena.rk(current as int) >= arena.rk(node as int),
            decreases arena.len() - arena.rk(current as int),
        {
            assert(arena.node_ok(current as int));
            match arena.nodes[current].left {
                Some(c) => {
                    assert(arena.node_ok(c as int));
                    current = c;
                },
                None => {
                    return current;
                },
            }
        }
    }

    /// The rightmost node of the subtree at `node`: the node with the
    /// largest key there.
    pub fn maximum(arena: &BstArena, node: BstNodeLink) -> (r: BstNodeLink)
        requires
            arena.wf(),
            arena.valid(node as int),
        ensures
            r as int == arena.max_of(node as int),
            arena.valid(r as int),
            arena.node(r as int).right is None,
            arena.rk(r as int) >= arena.rk(node as int),
    {
        let mut current = node;
        loop
            invariant
                arena.wf(),
                arena.valid(current as int),
                arena.max_of(current as int) == arena.max_of(node as int),
                arena.rk(current as int) >= arena.rk(node as int),
            decreases arena.len() - arena.rk(current as int),
        {
            assert(arena.node_ok(current as int));
            match arena.nodes[current].right {
                Some(c) => {
                    assert(arena.node_ok(c as int));
                    current = c;
                },
                None => {
                    return current;
                },
            }
        }
    }

    /// The root of the tree that holds `node`, found by following parent
    /// references.
    pub fn get_root(arena: &BstArena, node: BstNodeLink) -> (r: BstNodeLink)
        requires
            arena.wf(),
            arena.valid(node as int),
        ensures
            r as int == arena.root_of(node as int),
            arena.valid(r as int),
            arena.node(r as int).parent is None,
    {
        let mut current = node;
        loop
            invariant
                arena.wf(),
                arena.valid(current as int),
                arena.root_of(current as int) == arena.root_of(node as int),
            decreases arena.rk(current as int),
        {
            assert(arena.node_ok(current as int));
            match arena.nodes[current].parent {
                Some(p) => {
                    current = p;
                },
                None => {
                    return current;
                },
            }
        }
    }

    /// Number of parent references between `node` and its root.
    pub fn depth(arena: &BstArena, node: BstNodeLink) -> (r: usize)
        requires
            arena.wf(),
            arena.valid(node as int),
        ensures
            r == arena.depth_of(node as int),
    {
        let mut depth: usize = 0;
        let mut current = node;
        assert(arena.node_ok(node as int));
        let n = arena.nodes.len();
        loop
            invariant
                arena.wf(),
                arena.valid(current as int),
                depth + arena.depth_of(current as int) == arena.depth_of(node as int),
                depth + arena.rk(current as int) <= arena.rk(node as int),
                arena.rk(node as int) < arena.len(),
                arena.len() == n,
            decreases arena.rk(current as int),
        {
            assert(arena.node_ok(current as int));
            match arena.nodes[current].parent {
                Some(p) => {
                    current = p;
                    depth = depth + 1;
                },
                None => {
                    return depth;
                },
            }
        }
    }

    /// Looks for `key` in the tree at `node`, walking down from it.
    pub fn tree_search(arena: &BstArena, node: Option<BstNodeLink>, key: i32) -> (r: Option<
        BstNodeLink,
    >)
        requires
            arena.wf(),
            arena.ordered(),
            arena.valid_link(node),
        ensures
            match r {
                Some(i) => arena.valid(i as int) && arena.node(i as int).key == key
                    && arena.is_anc(node->0 as int, i as int) && forall|j: int|
                    #![trigger arena.is_anc(j, i as int)]
                    arena.is_anc(node->0 as int, j) && arena.is_anc(j, i as int) && j != i
                        ==> arena.node(j).key != key,
                None => forall|i: int|
                    #![trigger arena.node(i)]
                    arena.valid(i) && node is Some && arena.is_anc(node->0 as int, i)
                        ==> arena.node(i).key != key,
            },
            r is Some <==> exists|i: int|
                #![trigger arena.node(i)]
                arena.valid(i) && node is Some && arena.is_anc(node->0 as int, i) && arena.node(
                    i,
                ).key == key,
    {
        let mut current = node;
        proof {
            if let Some(nd) = node {
                assert forall|j: int|
                    #![trigger arena.is_anc(j, nd as int)]
                    arena.is_anc(nd as int, j) && arena.is_anc(j, nd as int) && j
                        != nd implies arena.node(j).key != key by {
                    lemma_anc_rank(*arena, j, nd as int);
                    lemma_anc_rank(*arena, nd as int, j);
                }
            }
        }
        while current.is_some()
            invariant
                arena.wf(),
                arena.ordered(),
                arena.valid_link(node),
                arena.valid_link(current),
                current is Some ==> node is Some && arena.is_anc(node->0 as int, current->0 as int),
                current is Some ==> forall|j: int|
                    #![trigger arena.is_anc(j, current->0 as int)]
                    arena.is_anc(node->0 as int, j) && arena.is_anc(j, current->0 as int) && j
                        != current->0 ==> arena.node(j).key != key,
                forall|i: int|
                    #![trigger arena.node(i)]
                    arena.valid(i) && node is Some && arena.is_anc(node->0 as int, i)
                        && arena.node(i).key == key ==> current is Some && arena.is_anc(
                        current->0 as int,
                        i,
                    ),
            decreases
                match current {
                    Some(c) => arena.len() - arena.rk(c as int),
                    None => 0,
                },
        {
            let c = current.unwrap();
            let n = arena.nodes[c];
            if key == n.key {
                assert(arena.valid(c as int) && node is Some && arena.is_anc(node->0 as int, c as int)
                    && arena.node(c as int).key == key);
                return Some(c);
            }
            proof {
                assert(arena.node_ok(c as int));
                assert forall|i: int|
                    arena.valid(i) && node is Some && arena.is_anc(node->0 as int, i)
                        && #[trigger] arena.node(i).key == key implies (if key < n.key {
                    n.left
                } else {
                    n.right
                }) is Some && arena.is_anc(
                    (if key < n.key {
                        n.left
                    } else {
                        n.right
                    })->0 as int,
                    i,
                ) by {
                    lemma_below_child(*arena, c as int, i);
                    lemma_ordered_subtrees(*arena, c as int, i);
                }
                if n.left is Some {
                    let l = n.left->0 as int;
                    assert(arena.node_ok(l));
                    lemma_anc_trans(*arena, node->0 as int, c as int, l);
                    assert forall|j: int|
                        #![trigger arena.is_anc(j, l)]
                        arena.is_anc(node->0 as int, j) && arena.is_anc(j, l) && j != l implies arena.node(j).key
                            != key by {
                        assert(arena.is_anc(j, c as int));
                    }
                }
                if n.right is Some {
                    let r = n.right->0 as int;
                    assert(arena.node_ok(r));
                    lemma_anc_trans(*arena, node->0 as int, c as int, r);
                    assert forall|j: int|
                        #![trigger arena.is_anc(j, r)]
                        arena.is_anc(node->0 as int, j) && arena.is_anc(j, r) && j != r implies arena.node(j).key
                            != key by {
                        assert(arena.is_anc(j, c as int));
                    }
                }
            }
            if key < n.key {
                current = n.left;
            } else {
                current = n.right;
            }
        }
        None
    }

    /// The node under which `value` is to hang: the last node met on the way
    /// down from `root`, turning left where `value` is smaller than the key
    /// and right otherwise. `None` when the tree is empty.
    fn insert_point(arena: &mut BstArena, root: Option<BstNodeLink>, value: i32) -> (r: Option<
        BstNodeLink,
    >)
        requires
            old(arena).wf(),
            old(arena).ordered(),
            old(arena).valid_link(root),
            root is Some ==> old(arena).node(root->0 as int).parent is None,
        ensures
            final(arena).nodes@ == old(arena).nodes@,
            final(arena).rank == old(arena).rank,
            final(arena).wf(),
            final(arena).ordered(),
            r is None <==> root is None,
            match r {
                Some(p) => {
                    &&& final(arena).valid(p as int)
                    &&& old(arena).is_anc(root->0 as int, p as int)
                    &&& final(arena).lo(p as int) <= value < final(arena).hi(p as int)
                    &&& if value < final(arena).node(p as int).key {
                        final(arena).node(p as int).left is None
                    } else {
                        final(arena).node(p as int).right is None
                    }
                },
                None => true,
            },
    {
        let ghost a0 = *arena;
        let mut y: Option<BstNodeLink> = None;
        let mut x = root;
        let ghost mut elo: int = full_range().0;
        let ghost mut ehi: int = full_range().1;
        if let Some(rt) = root {
            assert(arena.node_ordered(rt as int));
        }
        while x.is_some()
            invariant
                arena.wf(),
                arena.ordered(),
                arena.nodes@ == a0.nodes@,
                arena.rank == a0.rank,
                a0.wf(),
                a0.valid_link(root),
                arena.valid_link(x),
                root is None ==> x is None && y is None,
                match x {
                    Some(c) => {
                        &&& a0.is_anc(root->0 as int, c as int)
                        &&& elo <= value < ehi
                        &&& elo <= arena.lo(c as int)
                        &&& arena.hi(c as int) <= ehi
                        &&& match arena.node(c as int).parent {
                            Some(p) => if arena.node(p as int).left == Some(c) {
                                arena.lo(p as int) <= elo && ehi <= arena.node(p as int).key
                            } else {
                                arena.node(p as int).key <= elo && ehi <= arena.hi(p as int)
                            },
                            None => (elo, ehi) == full_range(),
                        }
                    },
                    None => true,
                },
                match y {
                    Some(p) => {
                        &&& arena.valid(p as int)
                        &&& a0.is_anc(root->0 as int, p as int)
                        &&& arena.lo(p as int) <= value < arena.hi(p as int)
                        &&& x == if value < arena.node(p as int).key {
                            arena.node(p as int).left
                        } else {
                            arena.node(p as int).right
                        }
                    },
                    None => x == root,
                },
            decreases
                match x {
                    Some(c) => arena.len() - arena.rk(c as int),
                    None => 0,
                },
        {
            let c = x.unwrap();
            let n = arena.nodes[c];
            let ghost a1 = *arena;
            proof {
                assert(a1.node_ok(c as int));
                assert(a1.node_ordered(c as int));
                if let Some(p) = n.parent {
                    assert(a1.node_ok(p as int));
                    assert(a1.node_ordered(p as int));
                }
                if let Some(l) = n.left {
                    assert(a1.node_ok(l as int));
                    assert(a1.node_ordered(l as int));
                    lemma_anc_trans(a0, root->0 as int, c as int, l as int);
                }
                if let Some(r) = n.right {
                    assert(a1.node_ok(r as int));
                    assert(a1.node_ordered(r as int));
                    lemma_anc_trans(a0, root->0 as int, c as int, r as int);
                }
            }
            arena.bounds = Ghost(arena.bounds@.update(c as int, (elo, ehi)));
            proof {
                assert forall|i: int| 0 <= i < arena.len() implies #[trigger] arena.node_ordered(
                    i,
                ) by {
                    assert(a1.node_ordered(i));
                    assert(a1.node_ok(i));
                }
                assert forall|i: int| 0 <= i < arena.len() implies #[trigger] arena.node_ok(i) by {
                    assert(a1.node_ok(i));
                }
            }
            y = x;
            if value < n.key {
                x = n.left;
                proof {
                    ehi = n.key as int;
                }
            } else {
                x = n.right;
                proof {
                    elo = n.key as int;
                }
            }
        }
        y
    }

    /// Inserts `value` as a new leaf: smaller keys go left, equal or larger
    /// keys go right. An empty tree gets the new node as its root.
    pub fn tree_insert(arena: &mut BstArena, root: &mut Option<BstNodeLink>, value: i32)
        requires
            old(arena).wf(),
            old(arena).ordered(),
            old(arena).len() < usize::MAX,
            old(arena).valid_link(*old(root)),
            *old(root) is Some ==> old(arena).node(old(root)->0 as int).parent is None,
        ensures
            final(arena).wf(),
            final(arena).ordered(),
            final(arena).len() == old(arena).len() + 1,
            final(arena).node(old(arena).len()).key == value,
            final(arena).node(old(arena).len()).left is None,
            final(arena).node(old(arena).len()).right is None,
            final(root)->0 == old(root)->0 || *old(root) is None,
            *final(root) is Some,
            final(arena).node(final(root)->0 as int).parent is None,
            final(arena).is_anc(final(root)->0 as int, old(arena).len()),
            forall|i: int|
                #![trigger final(arena).node(i)]
                old(arena).valid(i) ==> final(arena).node(i).key == old(arena).node(i).key
                    && final(arena).node(i).parent == old(arena).node(i).parent
                    && (*old(root) is Some ==> (old(arena).is_anc(old(root)->0 as int, i)
                    <==> final(arena).is_anc(
                    final(root)->0 as int,
                    i,
                ))),
            match final(arena).node(old(arena).len()).parent {
                None => *old(root) is None && *final(root) == Some(old(arena).len() as usize),
                Some(p) => {
                    &&& *final(root) == *old(root)
                    &&& old(arena).is_anc(old(root)->0 as int, p as int)
                    &&& if value < old(arena).node(p as int).key {
                        &&& old(arena).node(p as int).left is None
                        &&& final(arena).node(p as int) == (BstNode {
                            left: Some(old(arena).len() as usize),
                            ..old(arena).node(p as int)
                        })
                    } else {
                        &&& old(arena).node(p as int).right is None
                        &&& final(arena).node(p as int) == (BstNode {
                            right: Some(old(arena).len() as usize),
                            ..old(arena).node(p as int)
                        })
                    }
                    &&& forall|i: int|
                        #![trigger final(arena).node(i)]
                        old(arena).valid(i) && i != p ==> final(arena).node(i) == old(
                            arena,
                        ).node(i)
                },
            },
    {
        let y = Self::insert_point(arena, *root, value);
        let z = arena.nodes.len();
        let ghost a0 = *arena;
        arena.nodes.push(BstNode { key: value, left: None, right: None, parent: y });
        arena.rank = Ghost(
            match y {
                Some(p) => a0.rank@.push(a0.rk(p as int) + 1),
                None => a0.rank@.push(0),
            },
        );
        arena.bounds = Ghost(
            match y {
                Some(p) => if value < a0.node(p as int).key {
                    a0.bounds@.push((a0.lo(p as int), a0.node(p as int).key as int))
                } else {
                    a0.bounds@.push((a0.node(p as int).key as int, a0.hi(p as int)))
                },
                None => a0.bounds@.push(full_range()),
            },
        );
        match y {
            Some(p) => {
                let mut pn = arena.nodes[p];
                if value < pn.key {
                    pn.left = Some(z);
                } else {
                    pn.right = Some(z);
                }
                arena.nodes.set(p, pn);
            },
            None => {
                *root = Some(z);
            },
        }
        proof {
            assert forall|i: int| 0 <= i < arena.len() implies #[trigger] arena.node_ok(i) by {
                if i < z {
                    assert(a0.node_ok(i));
                }
                if let Some(p) = y {
                    assert(a0.node_ok(p as int));
                }
            }
            assert forall|i: int| 0 <= i < arena.len() implies #[trigger] arena.node_ordered(
                i,
            ) by {
                if i < z {
                    assert(a0.node_ordered(i));
                    assert(a0.node_ok(i));
                }
            }
            assert forall|i: int|
                #![trigger arena.node(i)]
                old(arena).valid(i) implies arena.node(i).parent == old(arena).node(i).parent
                    && arena.rk(i) == old(arena).rk(i) by {}
            assert forall|i: int|
                #![trigger arena.node(i)]
                old(arena).valid(i) && *old(root) is Some implies (old(arena).is_anc(
                    old(root)->0 as int,
                    i,
                ) <==> arena.is_anc(old(root)->0 as int, i)) by {
                lemma_anc_frame(*old(arena), *arena, old(root)->0 as int, i);
            }
            if let Some(p) = y {
                lemma_anc_frame(*old(arena), *arena, old(root)->0 as int, p as int);
                lemma_anc_trans(*arena, old(root)->0 as int, p as int, z as int);
            }
        }
    }

    /// The in-order successor of `node`, or `None` where `node` holds the
    /// largest position of its tree.
    pub fn tree_successor(arena: &BstArena, node: BstNodeLink) -> (r: Option<BstNodeLink>)
        requires
            arena.wf(),
            arena.valid(node as int),
        ensures
            r == arena.succ_of(node as int),
            arena.valid_link(r),
    {
        if let Some(right) = arena.nodes[node].right {
            proof {
                assert(arena.node_ok(node as int));
            }
            return Some(Self::minimum(arena, right));
        }
        let mut current = node;
        loop
            invariant
                arena.wf(),
                arena.valid(current as int),
                arena.up_succ(current as int) == arena.up_succ(node as int),
                arena.node(node as int).right is None,
            decreases arena.rk(current as int),
        {
            assert(arena.node_ok(current as int));
            match arena.nodes[current].parent {
                Some(p) => {
                    let is_left = match arena.nodes[p].left {
                        Some(l) => l == current,
                        None => false,
                    };
                    if is_left {
                        return Some(p);
                    }
                    current = p;
                },
                None => {
                    return None;
                },
            }
        }
    }

    /// Puts the subtree at `v` (or nothing) in the place of `u` under the
    /// parent of `u`. The children of `v` and the links of `u` itself are
    /// left as they are; where `u` is a root, nothing changes and the caller
    /// keeps its root handle up to date.
    pub fn transplant(arena: &mut BstArena, u: BstNodeLink, v: Option<BstNodeLink>)
        requires
            old(arena).valid(u as int),
            old(arena).valid_link(v),
            old(arena).valid_link(old(arena).node(u as int).parent),
        ensures
            final(arena).nodes@ == transplanted(old(arena).nodes@, u as int, v),
            final(arena).rank == old(arena).rank,
            final(arena).bounds == old(arena).bounds,
    {
        if let Some(p) = arena.nodes[u].parent {
            let is_left = match arena.nodes[p].left {
                Some(l) => l == u,
                None => false,
            };
            if is_left {
                arena.set_left(p, v);
            } else {
                arena.set_right(p, v);
            }
            if let Some(w) = v {
                arena.set_parent(w, Some(p));
            }
        }
    }

    /// Removes node `z` from the tree whose root slot is `root`. A node with
    /// at most one child is replaced by that child; otherwise the leftmost
    /// node of its right subtree takes its place and its two subtrees. `z`
    /// is left detached, with no links; where `z` was the root, the root
    /// slot gets the node that took its place.
    #[verifier::rlimit(50)]
    pub fn tree_delete(arena: &mut BstArena, root: &mut Option<BstNodeLink>, z: BstNodeLink)
        requires
            old(arena).wf(),
            old(arena).valid(z as int),
            *old(root) == Some(old(arena).root_of(z as int) as usize),
        ensures
            final(arena).wf(),
            old(arena).ordered() ==> final(arena).ordered(),
            final(arena).len() == old(arena).len(),
            forall|i: int|
                #![trigger final(arena).node(i)]
                old(arena).valid(i) ==> final(arena).node(i).key == old(arena).node(i).key,
            final(arena).node(z as int) == (BstNode {
                left: None,
                right: None,
                parent: None,
                ..old(arena).node(z as int)
            }),
            old(arena).node(z as int).parent is Some ==> *final(root) == *old(root),
            old(arena).node(z as int).parent is None ==> *final(root) == replacement(
                *old(arena),
                z as int,
            ),
            forall|i: int|
                #![trigger final(arena).root_of(i)]
                old(arena).valid(i) && i != z ==> final(arena).root_of(i) == if old(
                    arena,
                ).root_of(i) == z {
                    replacement(*old(arena), z as int)->0 as int
                } else {
                    old(arena).root_of(i)
                },
            old(arena).node(z as int).parent is Some ==> forall|i: int|
                #![trigger final(arena).root_of(i)]
                old(arena).valid(i) && i != z ==> final(arena).root_of(i) == old(arena).root_of(
                    i,
                ),
            forall|i: int|
                #![trigger final(arena).in_tree(*final(root), i)]
                old(arena).in_tree(*old(root), i) && i != z ==> final(arena).in_tree(
                    *final(root),
                    i,
                ),
            !final(arena).in_tree(*final(root), z as int),
            forall|i: int|
                #![trigger final(arena).in_tree(*final(root), i)]
                final(arena).in_tree(*final(root), i) ==> old(arena).in_tree(*old(root), i),
    {
        let ghost a0 = *arena;
        let zn = arena.nodes[z];
        proof {
            assert(a0.node_ok(z as int));
            if let Some(p) = zn.parent {
                assert(a0.node_ok(p as int));
            }
        }
        if zn.left.is_none() || zn.right.is_none() {
            let c = if zn.left.is_none() {
                zn.right
            } else {
                zn.left
            };
            proof {
                if let Some(c) = c {
                    assert(a0.node_ok(c as int));
                }
            }
            Self::transplant(arena, z, c);
            Self::finish_delete(arena, root, z, zn, c);
            proof {
                assert forall|i: int| 0 <= i < arena.len() implies #[trigger] arena.node(i)
                    == after_delete(a0, z as int, i) by {}
            }
        } else {
            let y = Self::replace_with_successor(arena, root, z, zn);
            let ghost a1 = *arena;
            arena.rank = Ghost(arena.rank@.update(y as int, a0.rk(z as int)));
            assert forall|i: int| 0 <= i < arena.len() implies #[trigger] arena.node(i)
                == after_delete(a0, z as int, i) by {
                assert(a1.node(i) == after_delete(a0, z as int, i));
            }
        }
        let ghost a3 = *arena;
        assert(forall|i: int| 0 <= i < a3.len() ==> #[trigger] a3.node(i) == after_delete(a0, z as int, i));
        arena.bounds = Ghost(bounds_after_delete(a0, z as int));
        proof {
            assert forall|i: int| 0 <= i < arena.len() implies #[trigger] arena.node(i)
                == after_delete(a0, z as int, i) by {
                assert(a3.node(i) == after_delete(a0, z as int, i));
            }
            assert(arena.rank@ == ranks_after_delete(a0, z as int));
            assert forall|i: int|
                #![trigger arena.node(i)]
                a0.valid(i) implies arena.node(i).key == a0.node(i).key by {
                assert(arena.node(i) == after_delete(a0, z as int, i));
            }
            if zn.left is None || zn.right is None {
                lemma_delete_one_wf(a0, *arena, z as int);
            } else {
                lemma_delete_two_wf(a0, *arena, z as int);
            }
            if a0.ordered() {
                if zn.left is None || zn.right is None {
                    lemma_delete_one_ordered(a0, *arena, z as int);
                } else {
                    lemma_delete_two_ordered(a0, *arena, z as int);
                }
            }
            assert forall|i: int|
                #![trigger arena.root_of(i)]
                a0.valid(i) && i != z implies arena.root_of(i) == if a0.root_of(i) == z {
                    replacement(a0, z as int)->0 as int
                } else {
                    a0.root_of(i)
                } by {
                lemma_delete_roots(a0, *arena, z as int, i);
                lemma_root_is_anc(a0, i);
            }
            assert forall|i: int|
                #![trigger arena.in_tree(*root, i)]
                a0.in_tree(*old(root), i) && i != z implies arena.in_tree(*root, i) by {
                lemma_delete_roots(a0, *arena, z as int, i);
                lemma_root_is_anc(a0, i);
                lemma_root_is_anc(a0, z as int);
                if a0.root_of(i) == z {
                    lemma_below_child(a0, z as int, i);
                }
            }
            lemma_root_is_anc(a0, z as int);
            if let Some(c) = zn.left {
                assert(a0.node_ok(c as int));
            }
            if let Some(c) = zn.right {
                assert(a0.node_ok(c as int));
                lemma_min_below(a0, c as int);
                lemma_anc_rank(a0, c as int, a0.min_of(c as int));
            }
            assert(arena.root_of(z as int) == z);
            assert forall|i: int|
                #![trigger arena.in_tree(*root, i)]
                arena.in_tree(*root, i) implies a0.in_tree(*old(root), i) by {
                if i != z {
                    lemma_delete_roots(a0, *arena, z as int, i);
                    lemma_root_is_anc(a0, i);
                    if let Some(c) = zn.left {
                        assert(a0.node_ok(c as int));
                        assert(a0.root_of(c as int) == a0.root_of(z as int));
                    }
                    if let Some(c) = zn.right {
                        assert(a0.node_ok(c as int));
                        assert(a0.root_of(c as int) == a0.root_of(z as int));
                        lemma_anc_same_root(a0, c as int, a0.min_of(c as int));
                    }
                    if let Some(p) = zn.parent {
                        assert(a0.node_ok(p as int));
                        assert(a0.root_of(p as int) == a0.root_of(z as int));
                    }
                }
            }
            if zn.parent is Some {
                assert forall|i: int|
                    #![trigger arena.root_of(i)]
                    a0.valid(i) && i != z implies arena.root_of(i) == a0.root_of(i) by {
                    lemma_delete_roots(a0, *arena, z as int, i);
                    lemma_root_is_anc(a0, i);
                }
            }
        }
    }

    /// The two-children case of deletion: the leftmost node `y` of the right
    /// subtree of `z` leaves its place to its right child and takes the
    /// place and both subtrees of `z`. Returns `y`.
    #[verifier::rlimit(50)]
    fn replace_with_successor(
        arena: &mut BstArena,
        root: &mut Option<BstNodeLink>,
        z: BstNodeLink,
        zn: BstNode,
    ) -> (y: BstNodeLink)
        requires
            old(arena).wf(),
            old(arena).valid(z as int),
            zn == old(arena).node(z as int),
            zn.left is Some && zn.right is Some,
        ensures
            y as int == old(arena).min_of(zn.right->0 as int),
            final(arena).len() == old(arena).len(),
            forall|i: int|
                0 <= i < final(arena).len() ==> #[trigger] final(arena).node(i) == after_delete(
                    *old(arena),
                    z as int,
                    i,
                ),
            final(arena).rank == old(arena).rank,
            final(arena).bounds == old(arena).bounds,
            zn.parent is None ==> *final(root) == Some(y),
            zn.parent is Some ==> *final(root) == *old(root),
    {
        let ghost a0 = *arena;
        proof {
            assert(a0.node_ok(z as int));
            if let Some(p) = zn.parent {
                assert(a0.node_ok(p as int));
            }
        }
        let r = zn.right.unwrap();
        let zl = zn.left.unwrap();
        let y = Self::minimum(arena, r);
        proof {
            assert(a0.node_ok(r as int));
            assert(a0.node_ok(zl as int));
            assert(a0.node_ok(y as int));
            lemma_min_below(a0, r as int);
            lemma_anc_rank(a0, r as int, y as int);
        }
        if y != r {
            let yn = arena.nodes[y];
            let ghost q = yn.parent->0 as int;
            proof {
                assert(a0.node_ok(q));
                assert(a0.is_anc(r as int, q));
                lemma_anc_rank(a0, r as int, q);
                if q == zl as int {
                    assert(a0.is_anc(r as int, z as int));
                    lemma_anc_rank(a0, r as int, z as int);
                }
                if let Some(x) = yn.right {
                    assert(a0.node_ok(x as int));
                }
            }
            Self::transplant(arena, y, yn.right);
            arena.set_right(y, Some(r));
            arena.set_parent(r, Some(y));
            Self::transplant(arena, z, Some(y));
            arena.set_left(y, Some(zl));
            arena.set_parent(zl, Some(y));
            Self::finish_delete(arena, root, z, zn, Some(y));
            proof {
                assert forall|i: int| 0 <= i < arena.len() implies #[trigger] arena.node(i)
                    == after_delete(a0, z as int, i) by {}
            }
        } else {
            Self::transplant(arena, z, Some(y));
            arena.set_left(y, Some(zl));
            arena.set_parent(zl, Some(y));
            Self::finish_delete(arena, root, z, zn, Some(y));
            proof {
                assert forall|i: int| 0 <= i < arena.len() implies #[trigger] arena.node(i)
                    == after_delete(a0, z as int, i) by {}
            }
        }
        y
    }

    /// Where `z` was a root, the node `repl` that took its place becomes
    /// the root and goes into the root slot; then `z` loses all its links.
    fn finish_delete(
        arena: &mut BstArena,
        root: &mut Option<BstNodeLink>,
        z: BstNodeLink,
        zn: BstNode,
        repl: Option<BstNodeLink>,
    )
        requires
            old(arena).valid(z as int),
            old(arena).valid_link(repl),
        ensures
            final(arena).nodes@ == (if zn.parent is None && repl is Some {
                old(arena).nodes@.update(
                    repl->0 as int,
                    (BstNode { parent: None, ..old(arena).node(repl->0 as int) }),
                )
            } else {
                old(arena).nodes@
            }).update(z as int, (BstNode { key: zn.key, left: None, right: None, parent: None })),
            final(arena).rank == old(arena).rank,
            final(arena).bounds == old(arena).bounds,
            zn.parent is None ==> *final(root) == repl,
            zn.parent is Some ==> *final(root) == *old(root),
    {
        if zn.parent.is_none() {
            if let Some(w) = repl {
                arena.set_parent(w, None);
            }
            *root = repl;
        }
        arena.nodes.set(z, BstNode { key: zn.key, left: None, right: None, parent: None });
    }
}

} // verus!
