use std::collections::VecDeque;
use vstd::prelude::*;
use crate::node_set::NodeSet;
use crate::quadtree::{QuadTree, ZNodeIndex, node_depth, position_of, pow4, lemma_depth_is_log4, lemma_pow4_mod3};
use vstd::set_lib::{set_int_range, lemma_int_range, lemma_len_subset};

verus! {

/// Address of a rendered tile: its node's position in the tree of one cube face.
#[derive(Debug, Hash, PartialEq, Eq, Clone, Copy, Structural)]
pub struct TileId {
    pub address: usize,
    pub face: usize,
}

/// A tile of the level-of-detail tree: where it sits and on which face.
#[derive(Debug, Clone, Copy, PartialEq, Eq, Structural)]
pub struct Node {
    pub id: usize,
    pub index: ZNodeIndex,
    pub depth: usize,
    pub face: usize,
}

/// `usize`'s `Hash::hash` from std feeds the number to the hasher; nothing is
/// claimed of the hasher's state afterwards.
pub assume_specification<H: core::hash::Hasher>[ <usize as core::hash::Hash>::hash::<H> ](
    data: &usize,
    state: &mut H,
);

/// A tile hashes by its position alone.
impl core::hash::Hash for Node {
    fn hash<H: core::hash::Hasher>(&self, state: &mut H) {
        self.id.hash(state);
    }
}

pub type QT = QuadTree<Option<Node>>;

/// `n` is the node that belongs at position `pos` of the tree of `face`.
pub open spec fn placed(n: Node, pos: nat, face: usize) -> bool {
    &&& n.id == pos
    &&& n.depth == node_depth(pos)
    &&& n.index == position_of(pos)
    &&& n.face == face
}

impl Node {
    /// Child number `k` (1 to 4) of this node.
    pub open spec fn child(self, k: nat) -> Node {
        Node {
            id: (self.id * 4 + k) as usize,
            index: ZNodeIndex::spec_from_local(k),
            depth: (self.depth + 1) as usize,
            face: self.face,
        }
    }

    /// The children of this node, among the first `k`, that are not in `seen`,
    /// in the order of their positions.
    pub open spec fn unseen_children(self, seen: Set<Node>, k: nat) -> Seq<Node>
        decreases k,
    {
        if k == 0 {
            Seq::empty()
        } else {
            let prev = self.unseen_children(seen, (k - 1) as nat);
            if seen.contains(self.child(k)) {
                prev
            } else {
                prev.push(self.child(k))
            }
        }
    }

    /// The first `k` children of this node.
    pub open spec fn children(self, k: nat) -> Set<Node>
        decreases k,
    {
        if k == 0 {
            Set::empty()
        } else {
            self.children((k - 1) as nat).insert(self.child(k))
        }
    }
}

/// A child of a node that is as deep as its position, on `face`, sits at its own position.
pub proof fn lemma_child_placed(v: Node, k: nat, face: usize)
    requires
        v.depth == node_depth(v.id as nat),
        v.face == face,
        1 <= k <= 4,
        v.id * 4 + 4 <= usize::MAX,
        v.depth < usize::MAX,
    ensures
        placed(v.child(k), (v.id * 4 + k) as nat, face),
{
    let p = (v.id * 4 + k) as nat;
    assert((p - 1) / 4 == v.id);
    assert((p - 1) % 4 + 1 == k);
}

/// The queued children of a node are some of its four children, each once, in
/// order, and none of them was seen before.
pub proof fn lemma_unseen_children(v: Node, seen: Set<Node>, k: nat)
    requires
        k <= 4,
        v.id * 4 + 4 <= usize::MAX,
    ensures
        ({
            let kids = v.unseen_children(seen, k);
            &&& kids.len() <= k
            &&& forall|j: int|
                0 <= j < kids.len() ==> exists|c: nat|
                    1 <= c <= k && #[trigger] kids[j] == v.child(c) && !seen.contains(v.child(c))
            &&& forall|j: int, l: int|
                0 <= j < l < kids.len() ==> (#[trigger] kids[j]).id < (#[trigger] kids[l]).id
        }),
    decreases k,
{
    if k > 0 {
        lemma_unseen_children(v, seen, (k - 1) as nat);
        let prev = v.unseen_children(seen, (k - 1) as nat);
        let kids = v.unseen_children(seen, k);
        assert forall|j: int| 0 <= j < kids.len() implies exists|c: nat|
            1 <= c <= k && #[trigger] kids[j] == v.child(c) && !seen.contains(v.child(c)) by {
            if j < prev.len() {
                assert(kids[j] == prev[j]);
                let c = choose|c: nat|
                    1 <= c <= k - 1 && #[trigger] prev[j] == v.child(c) && !seen.contains(
                        v.child(c),
                    );
                assert(1 <= c <= k && kids[j] == v.child(c));
            } else {
                assert(kids[j] == v.child(k));
            }
        }
        assert forall|j: int, l: int| 0 <= j < l < kids.len() implies (#[trigger] kids[j]).id < (
        #[trigger] kids[l]).id by {
            if l >= prev.len() {
                assert(kids[j] == prev[j]);
                let c = choose|c: nat|
                    1 <= c <= k - 1 && #[trigger] prev[j] == v.child(c) && !seen.contains(
                        v.child(c),
                    );
            } else {
                assert(kids[j] == prev[j]);
                assert(kids[l] == prev[l]);
            }
        }
    }
}

/// The first `k` children of a node are exactly its children numbered 1 to `k`.
pub proof fn lemma_children(v: Node, k: nat)
    ensures
        forall|n: Node| #[trigger] v.children(k).contains(n) <==> exists|c: nat| 1 <= c <= k && n == v.child(c),
    decreases k,
{
    if k > 0 {
        lemma_children(v, (k - 1) as nat);
        assert forall|n: Node| #[trigger] v.children(k).contains(n) <==> exists|c: nat| 1 <= c <= k && n == v.child(c) by {
            if v.children(k).contains(n) && n != v.child(k) {
                assert(v.children((k - 1) as nat).contains(n));
                let c = choose|c: nat| 1 <= c <= k - 1 && n == v.child(c);
                assert(1 <= c <= k && n == v.child(c));
            }
            if exists|c: nat| 1 <= c <= k && n == v.child(c) {
                let c = choose|c: nat| 1 <= c <= k && n == v.child(c);
                if c < k {
                    assert(v.children((k - 1) as nat).contains(n));
                }
            }
        }
    }
}

/// Child `k` of a tile sits at position `4 * id + k`, one level deeper, on the
/// same face, and carries the place numbered `k` among its siblings.
pub proof fn lemma_child_place(v: Node, k: nat)
    requires
        1 <= k <= 4,
        v.id * 4 + 4 <= usize::MAX,
        v.depth < usize::MAX,
    ensures
        v.child(k).id == v.id * 4 + k,
        v.child(k).index.spec_local() == k,
        v.child(k).depth == v.depth + 1,
        v.child(k).face == v.face,
{
}

/// When a tile is split, every tile the step queues, discovers or makes a leaf
/// is one of its children: it sits at `4 * id + k` for a place `k` from 1 to 4,
/// carries place `k`, is one level deeper and on the same face.
pub proof fn lemma_split_adds_placed_children(
    old: SearchTree,
    queue: Seq<Node>,
    new: SearchTree,
    v: Node,
)
    requires
        SearchTree::visited(old, queue, new, v, true),
        v.id * 4 + 4 <= usize::MAX,
        v.depth < usize::MAX,
    ensures
        forall|j: int|
            queue.len() <= j < new.stack@.len() ==> {
                let n = #[trigger] new.stack@[j];
                &&& v.id * 4 + 1 <= n.id <= v.id * 4 + 4
                &&& n.index.spec_local() == n.id - v.id * 4
                &&& n.depth == v.depth + 1
                &&& n.face == v.face
            },
        forall|n: Node|
            #[trigger] new.discovered@.contains(n) && !old.discovered@.contains(n) ==> {
                &&& v.id * 4 + 1 <= n.id <= v.id * 4 + 4
                &&& n.index.spec_local() == n.id - v.id * 4
                &&& n.depth == v.depth + 1
                &&& n.face == v.face
            },
        forall|n: Node|
            #[trigger] new.leafs@.contains(n) && !old.leafs@.contains(n) ==> {
                &&& v.id * 4 + 1 <= n.id <= v.id * 4 + 4
                &&& n.index.spec_local() == n.id - v.id * 4
                &&& n.depth == v.depth + 1
                &&& n.face == v.face
            },
{
    lemma_unseen_children(v, old.discovered@, 4);
    lemma_children(v, 4);
    let kids = v.unseen_children(old.discovered@, 4);
    assert forall|j: int| queue.len() <= j < new.stack@.len() implies {
        let n = #[trigger] new.stack@[j];
        &&& v.id * 4 + 1 <= n.id <= v.id * 4 + 4
        &&& n.index.spec_local() == n.id - v.id * 4
        &&& n.depth == v.depth + 1
        &&& n.face == v.face
    } by {
        assert(new.stack@[j] == kids[j - queue.len()]);
        let c = choose|c: nat|
            1 <= c <= 4 && #[trigger] kids[j - queue.len()] == v.child(c) && !old.discovered@.contains(v.child(c));
        lemma_child_place(v, c);
    }
    assert forall|n: Node| #[trigger] new.discovered@.contains(n) && !old.discovered@.contains(n) implies {
        &&& v.id * 4 + 1 <= n.id <= v.id * 4 + 4
        &&& n.index.spec_local() == n.id - v.id * 4
        &&& n.depth == v.depth + 1
        &&& n.face == v.face
    } by {
        assert(v.children(4).contains(n));
        let c = choose|c: nat| 1 <= c <= 4 && n == v.child(c);
        lemma_child_place(v, c);
    }
    assert forall|n: Node| #[trigger] new.leafs@.contains(n) && !old.leafs@.contains(n) implies {
        &&& v.id * 4 + 1 <= n.id <= v.id * 4 + 4
        &&& n.index.spec_local() == n.id - v.id * 4
        &&& n.depth == v.depth + 1
        &&& n.face == v.face
    } by {
        assert(v.children(4).contains(n));
        let c = choose|c: nat| 1 <= c <= 4 && n == v.child(c);
        lemma_child_place(v, c);
    }
}

/// Depths along the queue never go down from front to back, and the back is at
/// most one level below the front: the queue is in breadth-first order.
pub open spec fn breadth_first(q: Seq<Node>) -> bool {
    &&& forall|j: int, l: int| 0 <= j <= l < q.len() ==> (#[trigger] q[j]).depth <= (#[trigger] q[l]).depth
    &&& q.len() > 0 ==> q.last().depth <= q[0].depth + 1
}

/// Taking the front node out of a breadth-first queue and appending some of its
/// children keeps the queue breadth-first.
pub proof fn lemma_breadth_first_step(v: Node, queue: Seq<Node>, seen: Set<Node>)
    requires
        breadth_first(seq![v] + queue),
        v.id * 4 + 4 <= usize::MAX,
        v.depth < usize::MAX,
    ensures
        breadth_first(queue),
        breadth_first(queue + v.unseen_children(seen, 4)),
{
    let old_q = seq![v] + queue;
    assert forall|j: int| 0 <= j < queue.len() implies #[trigger] queue[j] == old_q[j + 1] by {}
    assert forall|j: int| 0 <= j < queue.len() implies v.depth <= (#[trigger] queue[j]).depth
        <= v.depth + 1 by {
        assert(old_q[0] == v);
        assert(old_q[0].depth <= old_q[j + 1].depth);
        assert(old_q[j + 1].depth <= old_q[old_q.len() - 1].depth);
    }
    let kids = v.unseen_children(seen, 4);
    lemma_unseen_children(v, seen, 4);
    let nq = queue + kids;
    assert forall|j: int| 0 <= j < kids.len() implies (#[trigger] kids[j]).depth == v.depth + 1 by {
        let c = choose|c: nat| 1 <= c <= 4 && #[trigger] kids[j] == v.child(c) && !seen.contains(v.child(c));
    }
    assert forall|j: int, l: int| 0 <= j <= l < nq.len() implies (#[trigger] nq[j]).depth <= (
    #[trigger] nq[l]).depth by {
        if j < queue.len() {
            assert(nq[j] == queue[j]);
        } else {
            assert(nq[j] == kids[j - queue.len()]);
        }
        if l < queue.len() {
            assert(nq[l] == queue[l]);
            assert(queue[j] == old_q[j + 1] && queue[l] == old_q[l + 1]);
        } else {
            assert(nq[l] == kids[l - queue.len()]);
        }
    }
    if nq.len() > 0 {
        if queue.len() > 0 {
            assert(nq[0] == queue[0]);
        } else {
            assert(nq[0] == kids[0]);
        }
        if kids.len() > 0 {
            assert(nq.last() == kids[kids.len() - 1]);
        } else {
            assert(nq.last() == queue.last());
            assert(queue.last() == old_q[old_q.len() - 1]);
        }
    }
}

/// The node that belongs at position `p` of the tree of `face`.
pub open spec fn placed_node(p: int, face: usize) -> Node {
    Node { id: p as usize, index: position_of(p as nat), depth: node_depth(p as nat) as usize, face }
}

/// Positions other than the root, at most `limit` deep, whose node of `face`
/// is not in `seen`.
pub open spec fn undiscovered(seen: Set<Node>, limit: nat, face: usize) -> Set<int> {
    Set::new(|p: int| 0 < p && node_depth(p as nat) <= limit && !seen.contains(placed_node(p, face)))
}

/// Number of positions at most `limit` deep: `(4^(limit + 1) - 1) / 3`.
pub open spec fn positions_up_to(limit: nat) -> int {
    (pow4(limit + 1) - 1) / 3
}

/// Four to a power grows with the power.
pub proof fn lemma_pow4_grows(a: nat, b: nat)
    requires
        a <= b,
    ensures
        pow4(a) <= pow4(b),
    decreases b,
{
    if a < b {
        lemma_pow4_grows(a, (b - 1) as nat);
        assert(pow4(b) == 4 * pow4((b - 1) as nat));
    }
}

/// Positions at most `limit` deep are the ones below `positions_up_to(limit)`.
pub proof fn lemma_shallow_positions(p: int, limit: nat)
    requires
        0 <= p,
        node_depth(p as nat) <= limit,
    ensures
        p < positions_up_to(limit),
{
    lemma_depth_is_log4(p as nat);
    lemma_pow4_grows(node_depth(p as nat) + 1, limit + 1);
    lemma_pow4_mod3(limit + 1);
    let x = pow4(limit + 1);
    assert(x == 3 * (x / 3) + 1);
}

/// Four to a power exceeds the power.
pub proof fn lemma_pow4_exceeds(k: nat)
    ensures
        pow4(k) > k,
    decreases k,
{
    if k > 0 {
        lemma_pow4_exceeds((k - 1) as nat);
    }
}

/// The undiscovered positions up to `limit` form a finite set of at most
/// `positions_up_to(limit) - 1` positions.
pub proof fn lemma_undiscovered_finite(seen: Set<Node>, limit: nat, face: usize)
    ensures
        undiscovered(seen, limit, face).finite(),
        undiscovered(seen, limit, face).len() <= positions_up_to(limit) - 1,
        positions_up_to(limit) >= 1,
{
    let u = undiscovered(seen, limit, face);
    let m = positions_up_to(limit);
    lemma_shallow_positions(0, limit);
    lemma_int_range(1, m);
    assert forall|p: int| u.contains(p) implies set_int_range(1, m).contains(p) by {
        lemma_shallow_positions(p, limit);
    }
    lemma_len_subset(u, set_int_range(1, m));
}

/// Discovering the children of `v` one by one takes from the undiscovered
/// positions exactly the children that get queued.
proof fn lemma_discovering_children(v: Node, seen: Set<Node>, k: nat, limit: nat, face: usize)
    requires
        k <= 4,
        v.depth == node_depth(v.id as nat),
        v.face == face,
        v.depth < limit,
        pow4(limit + 1) <= usize::MAX,
    ensures
        undiscovered(seen.union(v.children(k)), limit, face).len() + v.unseen_children(seen, k).len()
            == undiscovered(seen, limit, face).len(),
    decreases k,
{
    lemma_shallow_positions(v.id as int, (limit - 1) as nat);
    lemma_pow4_grows(limit, limit + 1);
    lemma_pow4_exceeds(limit + 1);
    assert(v.id * 4 + 4 <= usize::MAX) by {
        assert(pow4(limit + 1) == 4 * pow4(limit));
    }
    if k == 0 {
        assert(seen.union(v.children(0)) =~= seen);
    } else {
        let k1 = (k - 1) as nat;
        lemma_discovering_children(v, seen, k1, limit, face);
        let before = seen.union(v.children(k1));
        let after = seen.union(v.children(k));
        assert(after =~= before.insert(v.child(k)));
        let c = v.child(k);
        let pk = (v.id * 4 + k) as int;
        lemma_child_placed(v, k, face);
        assert(c == placed_node(pk, face));
        lemma_undiscovered_finite(before, limit, face);
        lemma_children(v, k1);
        if seen.contains(c) {
            assert(after =~= before);
        } else {
            assert(!v.children(k1).contains(c)) by {
                if v.children(k1).contains(c) {
                    let j = choose|j: nat| 1 <= j <= k1 && c == v.child(j);
                    assert(v.child(j).id != c.id);
                }
            }
            assert(undiscovered(before, limit, face).contains(pk));
            assert forall|p: int| #[trigger] undiscovered(after, limit, face).contains(p)
                == undiscovered(before, limit, face).remove(pk).contains(p) by {
                if 0 < p && node_depth(p as nat) <= limit && p != pk {
                    lemma_shallow_positions(p, limit);
                    assert(placed_node(p, face).id != c.id);
                }
            }
            assert(undiscovered(after, limit, face) =~= undiscovered(before, limit, face).remove(pk));
        }
    }
}

/// A node stored at its own position stays stored there when the children of a
/// stored node are added: a child position can only have held that very child.
proof fn lemma_stored_survives(list: Seq<Option<Node>>, v: Node, n: Node, face: usize)
    requires
        forall|i: int|
            0 <= i < list.len() && (#[trigger] list[i]) is Some ==> placed(list[i].unwrap(), i as nat, face),
        v.id < list.len(),
        list[v.id as int] == Some(v),
        v.id * 4 + 4 <= usize::MAX,
        v.depth < usize::MAX,
        n.id < list.len(),
        list[n.id as int] == Some(n),
    ensures
        n.id < subdivided(list, v).len(),
        subdivided(list, v)[n.id as int] == Some(n),
{
    let first = v.id * 4 + 1;
    let p = n.id as int;
    if first <= p < first + 4 {
        let k = (p - first + 1) as nat;
        assert(placed(list[v.id as int].unwrap(), v.id as nat, face));
        lemma_child_placed(v, k, face);
        assert(placed(list[p].unwrap(), p as nat, face));
    }
}

/// The array `list` after the four children of `v` have been stored in it,
/// grown with empty slots as far as needed.
pub open spec fn subdivided(list: Seq<Option<Node>>, v: Node) -> Seq<Option<Node>> {
    let first = v.id * 4 + 1;
    let len = if list.len() < first + 4 { first + 4 } else { list.len() as int };
    Seq::new(
        len as nat,
        |j: int|
            if first <= j < first + 4 {
                Some(v.child((j - first + 1) as nat))
            } else if j < list.len() {
                list[j]
            } else {
                None
            },
    )
}

/// Breadth-first walk over a quadtree of tiles that splits the tiles a caller
/// asks to split, one tile per step, and keeps the set of current leaf tiles.
pub struct SearchTree {
    pub tree: QT,
    pub running: bool,
    pub stack: VecDeque<Node>,
    pub discovered: NodeSet,
    pub leafs: NodeSet,
    pub leafs_prev: NodeSet,
}

impl SearchTree {
    /// The root node, stored at position 0.
    pub open spec fn root(self) -> Node {
        self.tree.nodes_list@[0].unwrap()
    }

    /// Every stored node sits at its own position of the root's face; the queue
    /// holds stored nodes, each at most once and each discovered unless it is
    /// the root; discovered and leaf tiles are stored nodes.
    pub open spec fn wf(self) -> bool {
        let list = self.tree.nodes_list@;
        let q = self.stack@;
        &&& list.len() > 0
        &&& list[0] is Some
        &&& forall|i: int|
            0 <= i < list.len() && (#[trigger] list[i]) is Some ==> placed(
                list[i].unwrap(),
                i as nat,
                list[0].unwrap().face,
            )
        &&& forall|j: int|
            0 <= j < q.len() ==> (#[trigger] q[j]).id < list.len() && list[q[j].id as int] == Some(
                q[j],
            )
        &&& forall|j: int, l: int| 0 <= j < l < q.len() ==> (#[trigger] q[j]).id != (#[trigger] q[l]).id
        &&& forall|j: int|
            0 <= j < q.len() ==> (#[trigger] q[j]).id == 0 || self.discovered@.contains(q[j])
        &&& forall|n: Node|
            #[trigger] self.discovered@.contains(n) ==> n.id < list.len() && list[n.id as int]
                == Some(n)
        &&& forall|n: Node|
            #[trigger] self.leafs@.contains(n) ==> n.id < list.len() && list[n.id as int] == Some(n)
    }

    /// `new` is `old` after a walk was finished: the walk stops, the queue holds
    /// only the root and nothing is discovered.
    pub open spec fn restarted(old: SearchTree, new: SearchTree) -> bool {
        &&& new.running == false
        &&& new.tree.nodes_list@ == old.tree.nodes_list@
        &&& new.stack@ == seq![old.root()]
        &&& new.discovered@ == Set::<Node>::empty()
        &&& new.leafs@ == old.leafs@
        &&& new.leafs_prev@ == old.leafs_prev@
    }

    /// `new` is `old` after the node `v`, taken from the queue, which then held
    /// `queue`, was visited:
    /// when it is split, its four children are stored, the undiscovered ones
    /// are discovered and queued, and the children replace `v` among the leaves.
    pub open spec fn visited(
        old: SearchTree,
        queue: Seq<Node>,
        new: SearchTree,
        v: Node,
        split: bool,
    ) -> bool {
        &&& new.running == old.running
        &&& new.leafs_prev@ == old.leafs_prev@
        &&& if split {
            &&& new.tree.nodes_list@ == subdivided(old.tree.nodes_list@, v)
            &&& new.stack@ == queue + v.unseen_children(old.discovered@, 4)
            &&& new.discovered@ == old.discovered@.union(v.children(4))
            &&& new.leafs@ == old.leafs@.union(v.children(4)).remove(v)
        } else {
            &&& new.tree.nodes_list@ == old.tree.nodes_list@
            &&& new.stack@ == queue
            &&& new.discovered@ == old.discovered@
            &&& new.leafs@ == old.leafs@
        }
    }

    /// Visiting a stored node, split or not, keeps a well-formed search tree
    /// well formed.
    pub proof fn lemma_visit_keeps_wf(old: SearchTree, new: SearchTree, v: Node, split: bool)
        requires
            old.wf(),
            v.id < old.tree.nodes_list@.len(),
            old.tree.nodes_list@[v.id as int] == Some(v),
            v.id * 4 + 4 <= usize::MAX,
            split ==> v.depth < usize::MAX,
            Self::visited(old, old.stack@, new, v, split),
        ensures
            new.wf(),
    {
        if split {
            let list = old.tree.nodes_list@;
            let nlist = new.tree.nodes_list@;
            let face = list[0].unwrap().face;
            let first = v.id * 4 + 1;
            assert(placed(v, v.id as nat, face));
            assert forall|k: nat| 1 <= k <= 4 implies placed(
                #[trigger] v.child(k),
                (v.id * 4 + k) as nat,
                face,
            ) by {
                lemma_child_placed(v, k, face);
            }
            assert(nlist[0] == list[0]);
            assert forall|i: int| 0 <= i < nlist.len() && (#[trigger] nlist[i]) is Some implies placed(
                nlist[i].unwrap(),
                i as nat,
                face,
            ) by {
                if first <= i < first + 4 {
                    assert(v.child((i - first + 1) as nat).id == i);
                } else {
                    assert(i < list.len());
                }
            }
            let q = old.stack@;
            let kids = v.unseen_children(old.discovered@, 4);
            lemma_unseen_children(v, old.discovered@, 4);
            lemma_children(v, 4);
            let nq = new.stack@;
            assert forall|j: int| 0 <= j < nq.len() implies (#[trigger] nq[j]).id < nlist.len()
                && nlist[nq[j].id as int] == Some(nq[j]) by {
                if j < q.len() {
                    assert(nq[j] == q[j]);
                    let p = q[j].id as int;
                    if first <= p < first + 4 {
                        let k = (p - first + 1) as nat;
                        assert(placed(list[p].unwrap(), p as nat, face));
                        assert(placed(v.child(k), p as nat, face));
                        assert(q[j] == v.child(k));
                    }
                } else {
                    assert(nq[j] == kids[j - q.len()]);
                }
            }
            assert forall|j: int, l: int| 0 <= j < l < nq.len() implies (#[trigger] nq[j]).id != (
            #[trigger] nq[l]).id by {
                if l >= q.len() {
                    assert(nq[l] == kids[l - q.len()]);
                    if j >= q.len() {
                        assert(nq[j] == kids[j - q.len()]);
                    } else {
                        assert(nq[j] == q[j]);
                    }
                }
            }
            assert forall|j: int| 0 <= j < nq.len() implies (#[trigger] nq[j]).id == 0
                || new.discovered@.contains(nq[j]) by {
                if j >= q.len() {
                    assert(nq[j] == kids[j - q.len()]);
                } else {
                    assert(nq[j] == q[j]);
                }
            }
            assert forall|n: Node| #[trigger] new.discovered@.contains(n) implies n.id < nlist.len()
                && nlist[n.id as int] == Some(n) by {
                if !old.discovered@.contains(n) {
                    assert(v.children(4).contains(n));
                } else {
                    lemma_stored_survives(list, v, n, face);
                }
            }
            assert forall|n: Node| #[trigger] new.leafs@.contains(n) implies n.id < nlist.len()
                && nlist[n.id as int] == Some(n) by {
                if !old.leafs@.contains(n) {
                    assert(v.children(4).contains(n));
                } else {
                    lemma_stored_survives(list, v, n, face);
                }
            }
        }
    }

    /// Ending a walk keeps a well-formed search tree well formed.
    pub proof fn lemma_restart_keeps_wf(old: SearchTree, new: SearchTree)
        requires
            old.wf(),
            Self::restarted(old, new),
        ensures
            new.wf(),
    {
        let list = new.tree.nodes_list@;
        assert(placed(list[0].unwrap(), 0, list[0].unwrap().face));
        assert(new.stack@[0] == old.root());
    }

    /// Tiles this walk may still visit, up to depth `limit`: the queued ones and
    /// the positions not yet discovered.
    pub open spec fn pending(self, limit: nat) -> nat {
        self.stack@.len() + undiscovered(self.discovered@, limit, self.root().face).len()
    }

    /// A walk that starts with at most one queued tile has at most
    /// `positions_up_to(limit)` tiles pending.
    pub proof fn lemma_walk_start_bound(st: SearchTree, limit: nat)
        requires
            st.stack@.len() <= 1,
        ensures
            st.pending(limit) <= positions_up_to(limit),
    {
        lemma_undiscovered_finite(st.discovered@, limit, st.root().face);
    }

    /// The queue invariant of a walk that splits tiles less than `limit` deep:
    /// a root of depth 0 is stored at position 0, and every queued tile is at
    /// most `limit` deep, as deep as its position, and on the root's face.
    pub open spec fn walk_ok(self, limit: nat) -> bool {
        let q = self.stack@;
        &&& self.tree.nodes_list@.len() > 0
        &&& self.tree.nodes_list@[0] is Some
        &&& self.root().id == 0
        &&& self.root().depth == 0
        &&& forall|j: int|
            0 <= j < q.len() ==> {
                &&& (#[trigger] q[j]).depth == node_depth(q[j].id as nat)
                &&& q[j].depth <= limit
                &&& q[j].face == self.root().face
            }
    }

    /// Under the walk invariant, with `4^(limit + 2)` within `usize`, the front
    /// tile of the queue meets what `dfs` asks of it, whatever the caller decides.
    pub proof fn lemma_walk_ok_meets_dfs(st: SearchTree, limit: nat)
        requires
            st.walk_ok(limit),
            pow4(limit + 2) <= usize::MAX,
            st.stack@.len() > 0,
        ensures
            st.stack@[0].id * 4 + 5 <= usize::MAX,
            st.stack@[0].depth < usize::MAX,
    {
        let v = st.stack@[0];
        lemma_shallow_positions(v.id as int, limit);
        lemma_pow4_exceeds(limit + 2);
        assert(pow4(limit + 2) == 4 * pow4(limit + 1));
    }

    /// Ending a walk keeps the walk invariant and leaves at most
    /// `positions_up_to(limit)` tiles pending.
    pub proof fn lemma_walk_restart(old: SearchTree, new: SearchTree, limit: nat)
        requires
            old.walk_ok(limit),
            Self::restarted(old, new),
        ensures
            new.walk_ok(limit),
            new.pending(limit) <= positions_up_to(limit),
    {
        assert(new.stack@[0] == old.root());
        Self::lemma_walk_start_bound(new, limit);
    }

    /// Each step that takes a tile from the queue, and splits it only when it is
    /// less than `limit` deep, keeps the walk invariant and leaves one tile fewer
    /// pending.
    pub proof fn lemma_walk_step_spends_one(old: SearchTree, new: SearchTree, split: bool, limit: nat)
        requires
            old.walk_ok(limit),
            old.stack@.len() > 0,
            Self::visited(old, old.stack@.subrange(1, old.stack@.len() as int), new, old.stack@[0], split),
            split ==> old.stack@[0].depth < limit,
            pow4(limit + 2) <= usize::MAX,
        ensures
            new.root() == old.root(),
            new.walk_ok(limit),
            new.pending(limit) + 1 == old.pending(limit),
    {
        let v = old.stack@[0];
        let face = old.root().face;
        let q = old.stack@;
        let queue = q.subrange(1, q.len() as int);
        assert(q[0] == v);
        Self::lemma_walk_ok_meets_dfs(old, limit);
        lemma_pow4_grows(limit + 1, limit + 2);
        assert forall|j: int| 0 <= j < queue.len() implies #[trigger] queue[j] == q[j + 1] by {}
        if split {
            lemma_discovering_children(v, old.discovered@, 4, limit, face);
            assert(new.tree.nodes_list@[0] == old.tree.nodes_list@[0]);
            let kids = v.unseen_children(old.discovered@, 4);
            lemma_unseen_children(v, old.discovered@, 4);
            let nq = new.stack@;
            assert forall|j: int| 0 <= j < nq.len() implies {
                &&& (#[trigger] nq[j]).depth == node_depth(nq[j].id as nat)
                &&& nq[j].depth <= limit
                &&& nq[j].face == new.root().face
            } by {
                if j < queue.len() {
                    assert(nq[j] == queue[j]);
                } else {
                    assert(nq[j] == kids[j - queue.len()]);
                    let c = choose|c: nat|
                        1 <= c <= 4 && #[trigger] kids[j - queue.len()] == v.child(c)
                            && !old.discovered@.contains(v.child(c));
                    lemma_child_placed(v, c, face);
                }
            }
        } else {
            let nq = new.stack@;
            assert forall|j: int| 0 <= j < nq.len() implies {
                &&& (#[trigger] nq[j]).depth == node_depth(nq[j].id as nat)
                &&& nq[j].depth <= limit
                &&& nq[j].face == new.root().face
            } by {
                assert(nq[j] == queue[j]);
            }
        }
    }

    /// A walk that splits only tiles less than `limit` deep, starting with at
    /// most one tile queued, takes at most `positions_up_to(limit)` tiles from
    /// the queue before the queue is empty; as `dfs` answers `true` exactly on
    /// an empty queue, the walk ends within `positions_up_to(limit) + 1` calls.
    /// `trace` holds the states between the steps and `splits` the decisions.
    pub proof fn lemma_walk_ends(trace: Seq<SearchTree>, splits: Seq<bool>, limit: nat)
        requires
            trace.len() == splits.len() + 1,
            trace[0].walk_ok(limit),
            trace[0].stack@.len() <= 1,
            pow4(limit + 2) <= usize::MAX,
            forall|i: int|
                0 <= i < splits.len() ==> {
                    &&& (#[trigger] trace[i]).stack@.len() > 0
                    &&& Self::visited(
                        trace[i],
                        trace[i].stack@.subrange(1, trace[i].stack@.len() as int),
                        trace[i + 1],
                        trace[i].stack@[0],
                        splits[i],
                    )
                    &&& splits[i] ==> trace[i].stack@[0].depth < limit
                },
        ensures
            splits.len() <= positions_up_to(limit),
    {
        Self::lemma_walk_start_bound(trace[0], limit);
        Self::lemma_walk_trace(trace, splits, limit, splits.len());
        if splits.len() > 0 {
            let n = splits.len() - 1;
            assert(trace[n].stack@.len() > 0);
        }
    }

    proof fn lemma_walk_trace(trace: Seq<SearchTree>, splits: Seq<bool>, limit: nat, n: nat)
        requires
            trace.len() == splits.len() + 1,
            n <= splits.len(),
            trace[0].walk_ok(limit),
            pow4(limit + 2) <= usize::MAX,
            forall|i: int|
                0 <= i < splits.len() ==> {
                    &&& (#[trigger] trace[i]).stack@.len() > 0
                    &&& Self::visited(
                        trace[i],
                        trace[i].stack@.subrange(1, trace[i].stack@.len() as int),
                        trace[i + 1],
                        trace[i].stack@[0],
                        splits[i],
                    )
                    &&& splits[i] ==> trace[i].stack@[0].depth < limit
                },
        ensures
            trace[n as int].walk_ok(limit),
            trace[n as int].pending(limit) + n == trace[0].pending(limit),
        decreases n,
    {
        if n > 0 {
            let m = (n - 1) as int;
            Self::lemma_walk_trace(trace, splits, limit, (n - 1) as nat);
            assert(trace[m].stack@.len() > 0);
            Self::lemma_walk_step_spends_one(trace[m], trace[m + 1], splits[m], limit);
        }
    }

    /// Visits the node `v`, just taken from the queue, and splits it when
    /// `dosubdiv` holds: its four children are stored in the tree, each child
    /// not yet discovered is discovered and queued, and the children become
    /// leaves in place of `v`.
    pub fn visit(&mut self, v: Node, dosubdiv: bool)
        requires
            v.id * 4 + 4 <= usize::MAX,
            dosubdiv ==> v.id * 4 + 5 <= usize::MAX && v.depth < usize::MAX,
        ensures
            Self::visited(*old(self), old(self).stack@, *final(self), v, dosubdiv),
            old(self).wf() && v.id < old(self).tree.nodes_list@.len()
                && old(self).tree.nodes_list@[v.id as int] == Some(v) ==> final(self).wf(),
            dosubdiv ==> forall|k: int|
                1 <= k <= 4 ==> {
                    let n = #[trigger] final(self).tree.nodes_list@[v.id * 4 + k];
                    &&& v.id * 4 + k < final(self).tree.nodes_list@.len()
                    &&& n is Some
                    &&& n.unwrap().id == v.id * 4 + k
                    &&& n.unwrap().index.spec_local() == k
                    &&& n.unwrap().depth == v.depth + 1
                    &&& n.unwrap().face == v.face
                },
    {
        if dosubdiv {
            let depth: usize = v.depth + 1;
            let index = ZNodeIndex::NorthWest;
            let node = Node { id: QT::index(v.id, index), index, depth, face: v.face };
            self.tree.set(v.id, index, Some(node));

            let index = ZNodeIndex::NorthEast;
            let node = Node { id: QT::index(v.id, index), index, depth, face: v.face };
            self.tree.set(v.id, index, Some(node));

            let index = ZNodeIndex::SouthEast;
            let node = Node { id: QT::index(v.id, index), index, depth, face: v.face };
            self.tree.set(v.id, index, Some(node));

            let index = ZNodeIndex::SouthWest;
            let node = Node { id: QT::index(v.id, index), index, depth, face: v.face };
            self.tree.set(v.id, index, Some(node));

            assert(self.tree.nodes_list@ =~= subdivided(old(self).tree.nodes_list@, v));

            let mut k: usize = 1;
            while k <= 4
                invariant
                    1 <= k <= 5,
                    v.id * 4 + 4 <= usize::MAX,
                    self.tree.nodes_list@ == subdivided(old(self).tree.nodes_list@, v),
                    self.stack@ == old(self).stack@ + v.unseen_children(
                        old(self).discovered@,
                        (k - 1) as nat,
                    ),
                    self.discovered@ == old(self).discovered@.union(v.children((k - 1) as nat)),
                    k == 1 ==> self.leafs@ == old(self).leafs@,
                    k > 1 ==> self.leafs@ == old(self).leafs@.union(
                        v.children((k - 1) as nat),
                    ).remove(v),
                    self.running == old(self).running,
                    self.leafs_prev@ == old(self).leafs_prev@,
                decreases 5 - k,
            {
                let u: usize = QT::index(v.id, ZNodeIndex::from_local(k));
                let unode = self.tree.nodes_list[u].unwrap();
                assert(unode == v.child(k as nat));
                proof {
                    lemma_children(v, (k - 1) as nat);
                    if v.children((k - 1) as nat).contains(v.child(k as nat)) {
                        let c = choose|c: nat| 1 <= c <= k - 1 && v.child(k as nat) == v.child(c);
                        assert(v.child(c).id != v.child(k as nat).id);
                    }
                }
                if !self.discovered.contains(&unode) {
                    self.discovered.insert(unode);
                    self.stack.push_back(unode);
                }
                self.leafs.insert(unode);
                self.leafs.remove(&v);
                proof {
                    assert(v.child(k as nat) != v);
                    assert(self.discovered@ =~= old(self).discovered@.union(v.children(k as nat)));
                    assert(self.leafs@ =~= old(self).leafs@.union(v.children(k as nat)).remove(v));
                }
                k = k + 1;
            }
        }
        proof {
            if old(self).wf() && v.id < old(self).tree.nodes_list@.len()
                && old(self).tree.nodes_list@[v.id as int] == Some(v) {
                Self::lemma_visit_keeps_wf(*old(self), *self, v, dosubdiv);
            }
        }
    }

    /// One step of the walk. When the queue is empty, the walk has ended: it is
    /// marked stopped, the root is queued again, nothing stays discovered, and
    /// `true` is returned. Otherwise the node at the front of the queue is taken
    /// out and visited, split as `subdiv_fn` decides, and `false` is returned.
    pub fn dfs(&mut self, subdiv_fn: impl Fn(&Node) -> bool) -> (r: bool)
        requires
            old(self).stack@.len() == 0 ==> old(self).tree.nodes_list@.len() > 0
                && old(self).tree.nodes_list@[0] is Some,
            old(self).stack@.len() > 0 ==> old(self).stack@[0].id * 4 + 4 <= usize::MAX,
            old(self).stack@.len() > 0 ==> forall|d: bool|
                call_ensures(subdiv_fn, (&old(self).stack@[0],), d) && d ==> old(self).stack@[0].id
                    * 4 + 5 <= usize::MAX && old(self).stack@[0].depth < usize::MAX,
            old(self).stack@.len() > 0 ==> call_requires(subdiv_fn, (&old(self).stack@[0],)),
        ensures
            r == (old(self).stack@.len() == 0),
            old(self).stack@.len() == 0 ==> Self::restarted(*old(self), *final(self)),
            old(self).stack@.len() > 0 ==> ({
                let v = old(self).stack@[0];
                let queue = old(self).stack@.subrange(1, old(self).stack@.len() as int);
                ||| call_ensures(subdiv_fn, (&v,), true) && Self::visited(
                    *old(self),
                    queue,
                    *final(self),
                    v,
                    true,
                )
                ||| call_ensures(subdiv_fn, (&v,), false) && Self::visited(
                    *old(self),
                    queue,
                    *final(self),
                    v,
                    false,
                )
            }),
            old(self).wf() ==> final(self).wf(),
            breadth_first(old(self).stack@) ==> breadth_first(final(self).stack@),
    {
        if self.stack.len() == 0 {
            self.running = false;
            let root = self.tree.nodes_list[0].unwrap();
            self.stack.push_back(root);
            self.discovered.clear();
            assert(self.stack@ =~= seq![old(self).root()]);
            proof {
                if old(self).wf() {
                    Self::lemma_restart_keeps_wf(*old(self), *self);
                }
            }
            return true;
        }
        let v = self.stack.pop_front().unwrap();
        proof {
            if old(self).wf() {
                let q = self.stack@;
                let oq = old(self).stack@;
                assert forall|j: int| 0 <= j < q.len() implies #[trigger] q[j] == oq[j + 1] by {}
                assert forall|j: int, l: int| 0 <= j < l < q.len() implies (#[trigger] q[j]).id != (
                #[trigger] q[l]).id by {
                    assert(q[j] == oq[j + 1] && q[l] == oq[l + 1]);
                }
                assert(self.wf());
            }
        }
        let dosubdiv = subdiv_fn(&v);
        let ghost queue = self.stack@;
        let ghost seen = self.discovered@;
        self.visit(v, dosubdiv);
        proof {
            if breadth_first(old(self).stack@) {
                assert(old(self).stack@ =~= seq![v] + queue);
                if dosubdiv {
                    lemma_breadth_first_step(v, queue, seen);
                } else if old(self).stack@[0].depth < usize::MAX {
                    lemma_breadth_first_step(v, queue, seen);
                } else {
                    let oq = old(self).stack@;
                    assert forall|j: int, l: int| 0 <= j <= l < queue.len() implies (#[trigger] queue[j]).depth
                        <= (#[trigger] queue[l]).depth by {
                        assert(queue[j] == oq[j + 1] && queue[l] == oq[l + 1]);
                    }
                    if queue.len() > 0 {
                        assert(queue[0] == oq[1] && queue.last() == oq.last());
                        assert(oq[0].depth <= oq[1].depth);
                    }
                }
            }
        }
        false
    }
}

} // verus!
