//! The shape of a binary space partition: inner nodes that split space in two,
//! leaves that are solid or empty, and the descent of a point to its leaf.
//!
//! Plane geometry is real-valued and lives with the caller.  An inner node is
//! known here by its index; the caller keeps the plane of node `i` at index `i`
//! of a table of its own and tells the tree on which side of it a point lies.
use vstd::prelude::*;

pub mod cast;
pub mod plane;

verus! {

/// A reference to a subtree.  A non-negative value is the index of an inner
/// node; a negative value `k` names the leaf with index `-k - 1`.
pub type NodeIndex = i32;

/// A terminal region of the partition, either solid or empty.
#[derive(Debug, Clone, Copy)]
pub struct Leaf {
    pub solid: bool,
}

impl Leaf {
    /// Whether this region is filled with matter.
    pub fn is_solid(&self) -> (r: bool)
        ensures
            r == self.solid,
    {
        self.solid
    }
}

/// A splitting node.  `pos` is the subtree on the side its plane's normal
/// points to, `neg` the subtree on the other side.
#[derive(Debug, Clone, Copy)]
pub struct InnerNode {
    pub pos: NodeIndex,
    pub neg: NodeIndex,
}

impl InnerNode {
    /// The subtree on the given side of the plane.
    pub open spec fn side(&self, positive: bool) -> NodeIndex {
        if positive {
            self.pos
        } else {
            self.neg
        }
    }
}

/// The leaf index that a negative subtree reference stands for.
pub open spec fn leaf_slot(idx: NodeIndex) -> int {
    -(idx as int) - 1
}

/// Why a tree was turned down at construction.
#[derive(Debug, Clone, Copy, PartialEq, Eq, Structural)]
pub enum TreeError {
    /// There is no inner node at all.
    NoNodes,
    /// There is no leaf at all.
    NoLeaves,
    /// The root is not the index of an inner node.
    RootOutOfRange,
    /// `node` is the first inner node with a child that refers to nothing.
    ChildOutOfRange { node: usize },
    /// Some inner node can be reached from itself.
    Cycle,
}

/// A binary space partition.
#[derive(Debug)]
pub struct Tree {
    pub inodes: Vec<InnerNode>,
    pub leaves: Vec<Leaf>,
    pub root: NodeIndex,
}

/// Whether `c` refers to an existing inner node or leaf.
pub open spec fn refers(c: NodeIndex, n_inner: int, n_leaves: int) -> bool {
    if c < 0 {
        leaf_slot(c) < n_leaves
    } else {
        (c as int) < n_inner
    }
}

/// Both children of every inner node among the first `upto` refer to something.
pub open spec fn children_refer(inodes: Seq<InnerNode>, n_leaves: int, upto: int) -> bool {
    forall|i: int|
        0 <= i < upto ==> refers((#[trigger] inodes[i]).pos, inodes.len() as int, n_leaves)
            && refers(inodes[i].neg, inodes.len() as int, n_leaves)
}

/// Every child that names an inner node names an existing one.
pub open spec fn inner_refer(inodes: Seq<InnerNode>) -> bool {
    forall|i: int, positive: bool|
        0 <= i < inodes.len() && (#[trigger] inodes[i].side(positive)) >= 0 ==> (inodes[i].side(
            positive,
        ) as int) < inodes.len()
}

/// `rank` gives every inner node a number above those of its inner children.
pub open spec fn ranked_by(inodes: Seq<InnerNode>, rank: Seq<nat>) -> bool {
    rank.len() == inodes.len() && forall|i: int, positive: bool|
        0 <= i < inodes.len() && (#[trigger] inodes[i].side(positive)) >= 0 ==> {
            let c = inodes[i].side(positive) as int;
            c < rank.len() && rank[c] < rank[i]
        }
}

/// No inner node can be reached from itself: the inner nodes can be numbered
/// so that every inner child has a number below its parent's.
pub open spec fn acyclic(inodes: Seq<InnerNode>) -> bool {
    exists|rank: Seq<nat>| ranked_by(inodes, rank)
}

/// The structural invariant of a partition, stated of its three parts.
pub open spec fn well_formed(inodes: Seq<InnerNode>, leaves: Seq<Leaf>, root: NodeIndex) -> bool {
    &&& inodes.len() > 0
    &&& leaves.len() > 0
    &&& 0 <= root < inodes.len()
    &&& children_refer(inodes, leaves.len() as int, inodes.len() as int)
    &&& acyclic(inodes)
}

/// The verdict that construction owes on three parts: the first defect in the
/// order emptiness, root, children, cycles, or none.
pub open spec fn defect(inodes: Seq<InnerNode>, leaves: Seq<Leaf>, root: NodeIndex) -> Option<
    TreeError,
> {
    if inodes.len() == 0 {
        Some(TreeError::NoNodes)
    } else if leaves.len() == 0 {
        Some(TreeError::NoLeaves)
    } else if !(0 <= root < inodes.len()) {
        Some(TreeError::RootOutOfRange)
    } else if !children_refer(inodes, leaves.len() as int, inodes.len() as int) {
        Some(
            TreeError::ChildOutOfRange {
                node: first_dangling(inodes, leaves.len() as int, 0) as usize,
            },
        )
    } else if !acyclic(inodes) {
        Some(TreeError::Cycle)
    } else {
        None
    }
}

/// The least index at or after `from` of an inner node with a child that
/// refers to nothing, or the number of inner nodes if there is none.
pub open spec fn first_dangling(inodes: Seq<InnerNode>, n_leaves: int, from: int) -> int
    decreases inodes.len() - from,
{
    if from < 0 || from >= inodes.len() {
        inodes.len() as int
    } else if !(refers(inodes[from].pos, inodes.len() as int, n_leaves) && refers(
        inodes[from].neg,
        inodes.len() as int,
        n_leaves,
    )) {
        from
    } else {
        first_dangling(inodes, n_leaves, from + 1)
    }
}

/// Inner nodes not yet ranked.
spec fn pending(done: Seq<bool>) -> nat
    decreases done.len(),
{
    if done.len() == 0 {
        0
    } else {
        pending(done.drop_last()) + if done.last() {
            0nat
        } else {
            1nat
        }
    }
}

/// Ranking one more node leaves one fewer to rank.
proof fn lemma_pending_mark(done: Seq<bool>, k: int)
    requires
        0 <= k < done.len(),
        !done[k],
    ensures
        pending(done.update(k, true)) + 1 == pending(done),
    decreases done.len(),
{
    let after = done.update(k, true);
    if k == done.len() - 1 {
        assert(after.drop_last() =~= done.drop_last());
    } else {
        lemma_pending_mark(done.drop_last(), k);
        assert(after.drop_last() =~= done.drop_last().update(k, true));
    }
}

/// Every unranked node waits for an unranked inner child.
spec fn blocked(inodes: Seq<InnerNode>, done: Seq<bool>, from: int) -> bool {
    forall|i: int|
        from <= i < inodes.len() && !(#[trigger] done[i]) ==> exists|positive: bool|
            (#[trigger] inodes[i].side(positive)) >= 0 && !done[inodes[i].side(positive) as int]
}

/// Where every unranked node waits for an unranked inner child, a ranking of
/// all the nodes leaves none unranked: the node of least rank among them
/// would have nothing to wait for.
proof fn lemma_blocked_stays(inodes: Seq<InnerNode>, done: Seq<bool>, rank: Seq<nat>, u: int)
    requires
        done.len() == inodes.len(),
        inner_refer(inodes),
        ranked_by(inodes, rank),
        blocked(inodes, done, 0),
        0 <= u < inodes.len(),
    ensures
        done[u],
    decreases rank[u],
{
    if !done[u] {
        let positive = choose|positive: bool|
            (#[trigger] inodes[u].side(positive)) >= 0 && !done[inodes[u].side(positive) as int];
        let c = inodes[u].side(positive) as int;
        lemma_blocked_stays(inodes, done, rank, c);
    }
}

/// Every node that has its rank has it above those of its inner children,
/// which have theirs.
spec fn ranked_where_done(inodes: Seq<InnerNode>, done: Seq<bool>, rank: Seq<nat>) -> bool {
    forall|i: int, positive: bool|
        0 <= i < inodes.len() && done[i] && (#[trigger] inodes[i].side(positive)) >= 0 ==> {
            let c = inodes[i].side(positive) as int;
            done[c] && rank[c] < rank[i]
        }
}

/// A child that is a leaf, or an inner node that has its rank.
spec fn settled_spec(done: Seq<bool>, c: NodeIndex) -> bool {
    c < 0 || done[c as int]
}

/// Whether a child may be taken as ranked.
fn settled(done: &Vec<bool>, c: NodeIndex) -> (r: bool)
    requires
        c >= 0 ==> (c as int) < done.len(),
    ensures
        r == settled_spec(done@, c),
{
    if c < 0 {
        true
    } else {
        done[c as usize]
    }
}

/// Whether no inner node can be reached from itself.
///
/// Nodes are ranked in sweeps from the last to the first; a node gets its rank
/// once both children have theirs.  A sweep that ranks nothing new while some
/// node is left unranked has found a cycle.
pub fn is_acyclic(inodes: &Vec<InnerNode>) -> (ok: bool)
    requires
        inner_refer(inodes@),
    ensures
        ok == acyclic(inodes@),
{
    let n = inodes.len();
    let mut done: Vec<bool> = Vec::new();
    while done.len() < n
        invariant
            done.len() <= n,
            forall|j: int| 0 <= j < done.len() ==> !done[j],
        decreases n - done.len(),
    {
        done.push(false);
    }
    let ghost mut rank: Seq<nat> = Seq::new(n as nat, |j: int| 0nat);
    loop
        invariant
            n == inodes.len(),
            done.len() == n,
            rank.len() == n,
            inner_refer(inodes@),
            ranked_where_done(inodes@, done@, rank),
        decreases pending(done@),
    {
        let ghost before = done@;
        let mut progress = false;
        let mut complete = true;
        let ghost mut left: int = 0;
        let mut i: usize = n;
        while i > 0
            invariant
                n == inodes.len(),
                done.len() == n,
                rank.len() == n,
                i <= n,
                inner_refer(inodes@),
                ranked_where_done(inodes@, done@, rank),
                complete ==> forall|k: int| i <= k < n ==> done[k],
                !complete ==> i <= left < n && !done[left],
                !progress ==> done@ == before && blocked(inodes@, done@, i as int),
                progress ==> pending(done@) < pending(before),
                pending(done@) <= pending(before),
            decreases i,
        {
            i = i - 1;
            if !done[i] {
                let node = inodes[i];
                assert(node.pos == inodes[i as int].side(true));
                assert(node.neg == inodes[i as int].side(false));
                if settled(&done, node.pos) && settled(&done, node.neg) {
                    proof {
                        lemma_pending_mark(done@, i as int);
                        let rp: nat = if node.pos >= 0 {
                            rank[node.pos as int]
                        } else {
                            0
                        };
                        let rn: nat = if node.neg >= 0 {
                            rank[node.neg as int]
                        } else {
                            0
                        };
                        rank = rank.update(
                            i as int,
                            if rp >= rn {
                                rp + 1
                            } else {
                                rn + 1
                            },
                        );
                    }
                    done.set(i, true);
                    progress = true;
                } else {
                    complete = false;
                    proof {
                        left = i as int;
                        if !progress {
                            let positive = !settled_spec(done@, node.pos);
                            assert(inodes[i as int].side(positive) >= 0);
                        }
                    }
                }
            }
        }
        if complete {
            proof {
                assert(ranked_by(inodes@, rank));
            }
            return true;
        }
        if !progress {
            proof {
                assert forall|r: Seq<nat>| !ranked_by(inodes@, r) by {
                    if ranked_by(inodes@, r) {
                        lemma_blocked_stays(inodes@, done@, r, left);
                    }
                }
            }
            return false;
        }
    }
}

/// Children that refer to something refer, where they name an inner node,
/// to an inner node.
proof fn lemma_children_refer_inner(inodes: Seq<InnerNode>, n_leaves: int)
    requires
        children_refer(inodes, n_leaves, inodes.len() as int),
    ensures
        inner_refer(inodes),
{
    assert forall|i: int, positive: bool|
        0 <= i < inodes.len() && (#[trigger] inodes[i].side(positive)) >= 0 implies (inodes[i].side(
            positive,
        ) as int) < inodes.len() by {
        assert(refers(inodes[i].pos, inodes.len() as int, n_leaves));
    }
}

/// `positive` lists what `side` answers: whatever `side` may return on a
/// node is the entry of `positive` there.
pub open spec fn tabulates<F: Fn(usize) -> bool>(side: F, positive: Seq<bool>) -> bool {
    forall|node: usize, b: bool|
        node < positive.len() && call_ensures(side, (node,), b) ==> b == positive[node as int]
}

impl Tree {
    /// The structural invariant: both arrays are non-empty, the root and
    /// every child refer to something, and no node can be reached from itself.
    pub open spec fn wf(&self) -> bool {
        well_formed(self.inodes@, self.leaves@, self.root)
    }

    /// A ranking of the inner nodes that every child lies below its parent in.
    pub open spec fn rank(&self) -> Seq<nat> {
        choose|rank: Seq<nat>| ranked_by(self.inodes@, rank)
    }

    /// In a well-formed tree every inner child ranks below its parent.
    pub proof fn lemma_rank(&self)
        requires
            self.wf(),
        ensures
            ranked_by(self.inodes@, self.rank()),
    {
    }

    /// The leaf that a descent from inner node `node` ends in, where
    /// `positive[i]` says whether the point lies strictly on the positive
    /// side of the plane of node `i`.  A point on a plane goes to the
    /// negative side.
    pub open spec fn leaf_reached(&self, positive: Seq<bool>, node: int) -> int
        decreases self.rank()[node],
        when self.wf() && 0 <= node < self.inodes.len()
    {
        let next = self.inodes[node].side(positive[node]);
        if next < 0 {
            leaf_slot(next)
        } else {
            self.leaf_reached(positive, next as int)
        }
    }

    /// Every descent ends in a leaf that the tree has.
    pub proof fn lemma_leaf_reached(&self, positive: Seq<bool>, node: int)
        requires
            self.wf(),
            0 <= node < self.inodes.len(),
        ensures
            0 <= self.leaf_reached(positive, node) < self.leaves.len(),
        decreases self.rank()[node],
    {
        let inner = self.inodes[node];
        let next = inner.side(positive[node]);
        assert(refers(inner.pos, self.inodes.len() as int, self.leaves.len() as int));
        assert(refers(inner.neg, self.inodes.len() as int, self.leaves.len() as int));
        if next >= 0 {
            self.lemma_leaf_reached(positive, next as int);
        }
    }

    /// Whether a point is inside solid matter, given its side of every plane.
    pub open spec fn solid_at(&self, positive: Seq<bool>) -> bool {
        self.leaves[self.leaf_reached(positive, self.root as int)].solid
    }

    /// Checks the three parts and makes a tree of them, or names the first defect.
    pub fn new(inodes: Vec<InnerNode>, leaves: Vec<Leaf>, root: NodeIndex) -> (r: Result<
        Tree,
        TreeError,
    >)
        ensures
            match r {
                Ok(t) => defect(inodes@, leaves@, root).is_none() && t.inodes == inodes && t.leaves
                    == leaves && t.root == root && t.wf(),
                Err(e) => defect(inodes@, leaves@, root) == Some(e),
            },
    {
        let n = inodes.len();
        if n == 0 {
            return Err(TreeError::NoNodes);
        }
        if leaves.len() == 0 {
            return Err(TreeError::NoLeaves);
        }
        if root < 0 || root as usize >= n {
            return Err(TreeError::RootOutOfRange);
        }
        let mut i: usize = 0;
        while i < n
            invariant
                n == inodes.len(),
                n > 0,
                leaves.len() > 0,
                0 <= root < n,
                i <= n,
                children_refer(inodes@, leaves.len() as int, i as int),
                first_dangling(inodes@, leaves.len() as int, 0) == first_dangling(
                    inodes@,
                    leaves.len() as int,
                    i as int,
                ),
            decreases n - i,
        {
            let node = inodes[i];
            assert(node == inodes@[i as int]);
            if !(refers_to(node.pos, n, leaves.len()) && refers_to(node.neg, n, leaves.len())) {
                assert(!refers(inodes@[i as int].pos, n as int, leaves.len() as int) || !refers(
                    inodes@[i as int].neg,
                    n as int,
                    leaves.len() as int,
                ));
                return Err(TreeError::ChildOutOfRange { node: i });
            }
            i = i + 1;
        }
        proof {
            lemma_children_refer_inner(inodes@, leaves.len() as int);
        }
        if !is_acyclic(&inodes) {
            return Err(TreeError::Cycle);
        }
        Ok(Tree { inodes, leaves, root })
    }

    /// Whether the structural invariant holds of this tree as it stands.
    pub fn is_well_formed(&self) -> (ok: bool)
        ensures
            ok == self.wf(),
    {
        let n = self.inodes.len();
        if n == 0 || self.leaves.len() == 0 || self.root < 0 || self.root as usize >= n {
            return false;
        }
        let mut i: usize = 0;
        while i < n
            invariant
                n == self.inodes.len(),
                i <= n,
                children_refer(self.inodes@, self.leaves.len() as int, i as int),
            decreases n - i,
        {
            let node = self.inodes[i];
            assert(node == self.inodes@[i as int]);
            if !(refers_to(node.pos, n, self.leaves.len()) && refers_to(
                node.neg,
                n,
                self.leaves.len(),
            )) {
                assert(!refers(self.inodes@[i as int].pos, n as int, self.leaves.len() as int)
                    || !refers(self.inodes@[i as int].neg, n as int, self.leaves.len() as int));
                return false;
            }
            i = i + 1;
        }
        proof {
            lemma_children_refer_inner(self.inodes@, self.leaves.len() as int);
        }
        is_acyclic(&self.inodes)
    }

    /// Looks up a leaf by its negative reference.
    pub fn get_leaf(&self, nodeidx: NodeIndex) -> (leaf: &Leaf)
        requires
            nodeidx < 0,
            leaf_slot(nodeidx) < self.leaves.len(),
        ensures
            *leaf == self.leaves[leaf_slot(nodeidx)],
    {
        let slot: usize = (-(nodeidx + 1)) as usize;
        &self.leaves[slot]
    }

    /// One step of a descent: the subtree of inner node `node` on the given
    /// side of its plane.  The descent goes on from there, and it ends:
    /// an inner child ranks strictly below its parent.
    pub fn child(&self, node: usize, positive: bool) -> (next: NodeIndex)
        requires
            self.wf(),
            node < self.inodes.len(),
        ensures
            next == self.inodes[node as int].side(positive),
            refers(next, self.inodes.len() as int, self.leaves.len() as int),
            next >= 0 ==> self.rank()[next as int] < self.rank()[node as int],
    {
        proof {
            self.lemma_rank();
            let inner = self.inodes[node as int];
            assert(refers(inner.pos, self.inodes.len() as int, self.leaves.len() as int));
            assert(inner.side(positive) >= 0 ==> self.rank()[inner.side(positive) as int]
                < self.rank()[node as int]);
        }
        let inner = &self.inodes[node];
        if positive {
            inner.pos
        } else {
            inner.neg
        }
    }

    /// Is this point solid?  `positive[i]` says whether the point lies
    /// strictly on the positive side of the plane of inner node `i`.
    pub fn contains_point(&self, positive: &Vec<bool>) -> (solid: bool)
        requires
            self.wf(),
            positive.len() == self.inodes.len(),
        ensures
            solid == self.solid_at(positive@),
    {
        self.contains_point_recursive(positive, self.root)
    }

    /// Is this point solid?  `side` says for an inner node whether the point
    /// lies strictly on the positive side of its plane, and is asked only
    /// about the nodes on the way down.  Where its answers are those of a
    /// table of sides, the result is the one for that table.
    pub fn contains_point_with<F: Fn(usize) -> bool>(&self, side: F) -> (solid: bool)
        requires
            self.wf(),
            forall|node: usize| node < self.inodes.len() ==> call_requires(side, (node,)),
        ensures
            forall|positive: Seq<bool>| #[trigger]
                tabulates(side, positive) && positive.len() == self.inodes.len() ==> solid
                    == self.solid_at(positive),
    {
        let mut node: usize = self.root as usize;
        loop
            invariant
                self.wf(),
                node < self.inodes.len(),
                forall|node: usize| node < self.inodes.len() ==> call_requires(side, (node,)),
                forall|positive: Seq<bool>| #[trigger]
                    tabulates(side, positive) && positive.len() == self.inodes.len()
                        ==> self.leaf_reached(positive, node as int) == self.leaf_reached(
                        positive,
                        self.root as int,
                    ),
            decreases self.rank()[node as int],
        {
            let here = side(node);
            let next = self.child(node, here);
            assert forall|positive: Seq<bool>| #[trigger]
                tabulates(side, positive) && positive.len()
                    == self.inodes.len() implies self.leaf_reached(positive, node as int) == (
            if next < 0 {
                leaf_slot(next)
            } else {
                self.leaf_reached(positive, next as int)
            }) by {
                assert(positive[node as int] == here);
            }
            if next < 0 {
                return self.get_leaf(next).is_solid();
            }
            node = next as usize;
        }
    }

    /// The descent of `contains_point`, begun at inner node `nodeidx`.
    pub fn contains_point_recursive(&self, positive: &Vec<bool>, nodeidx: NodeIndex) -> (solid:
        bool)
        requires
            self.wf(),
            positive.len() == self.inodes.len(),
            0 <= nodeidx < self.inodes.len(),
        ensures
            solid == self.leaves[self.leaf_reached(positive@, nodeidx as int)].solid,
        decreases self.rank()[nodeidx as int],
    {
        let node = nodeidx as usize;
        let next = self.child(node, positive[node]);
        if next < 0 {
            self.get_leaf(next).is_solid()
        } else {
            self.contains_point_recursive(positive, next)
        }
    }
}

/// Whether `c` refers to one of `n_inner` inner nodes or `n_leaves` leaves.
fn refers_to(c: NodeIndex, n_inner: usize, n_leaves: usize) -> (r: bool)
    ensures
        r == refers(c, n_inner as int, n_leaves as int),
{
    if c < 0 {
        ((-(c + 1)) as usize) < n_leaves
    } else {
        (c as usize) < n_inner
    }
}

} // verus!
