use vstd::prelude::*;

verus! {

/// Position of a node among its four siblings; `Root` is the position of the
/// tree's root, which has no siblings.
#[derive(Debug, Clone, Copy, PartialEq, Eq, Structural)]
pub enum ZNodeIndex {
    Root,
    NorthWest,
    NorthEast,
    SouthWest,
    SouthEast,
}

impl ZNodeIndex {
    /// The number of the position: 0 for the root, 1 to 4 for the four quadrants.
    pub open spec fn spec_local(self) -> nat {
        match self {
            ZNodeIndex::Root => 0,
            ZNodeIndex::NorthWest => 1,
            ZNodeIndex::NorthEast => 2,
            ZNodeIndex::SouthWest => 3,
            ZNodeIndex::SouthEast => 4,
        }
    }

    /// The position whose number is `local` (meaningful for `local <= 4`).
    pub open spec fn spec_from_local(local: nat) -> ZNodeIndex {
        if local == 0 {
            ZNodeIndex::Root
        } else if local == 1 {
            ZNodeIndex::NorthWest
        } else if local == 2 {
            ZNodeIndex::NorthEast
        } else if local == 3 {
            ZNodeIndex::SouthWest
        } else {
            ZNodeIndex::SouthEast
        }
    }

    /// The number of this position.
    pub fn local(self) -> (r: usize)
        ensures
            r == self.spec_local(),
    {
        match self {
            ZNodeIndex::Root => 0,
            ZNodeIndex::NorthWest => 1,
            ZNodeIndex::NorthEast => 2,
            ZNodeIndex::SouthWest => 3,
            ZNodeIndex::SouthEast => 4,
        }
    }

    /// The position with number `local`; numbers above 4 name no position.
    pub fn from_local(local: usize) -> (r: ZNodeIndex)
        requires
            local <= 4,
        ensures
            r == Self::spec_from_local(local as nat),
            r.spec_local() == local,
    {
        match local {
            0 => ZNodeIndex::Root,
            1 => ZNodeIndex::NorthWest,
            2 => ZNodeIndex::NorthEast,
            3 => ZNodeIndex::SouthWest,
            _ => ZNodeIndex::SouthEast,
        }
    }
}

impl From<ZNodeIndex> for usize {
    fn from(value: ZNodeIndex) -> (r: usize) {
        value.local()
    }
}

impl vstd::std_specs::convert::FromSpecImpl<ZNodeIndex> for usize {
    open spec fn obeys_from_spec() -> bool {
        true
    }

    open spec fn from_spec(v: ZNodeIndex) -> usize {
        v.spec_local() as usize
    }
}

/// Numbering the places and reading a number back are inverse to each other.
pub proof fn lemma_from_local_of_local(number: ZNodeIndex)
    ensures
        ZNodeIndex::spec_from_local(number.spec_local()) == number,
        number.spec_local() <= 4,
{
}

/// Global array position of child `number` of the node at `root`.
pub open spec fn spec_index(root: nat, number: ZNodeIndex) -> nat {
    root * 4 + number.spec_local()
}

/// The largest value of `i64`, as an index.
pub open spec fn signed_limit() -> nat {
    0x7fff_ffff_ffff_ffff
}

/// What `inverse_index` gives back: the parent's position and the node's place
/// among its siblings. Positions past the largest `i64` are read through a
/// signed number, which sends every such position to a `SouthEast` slot.
pub open spec fn spec_inverse_index(g: nat) -> (nat, ZNodeIndex) {
    if g == 0 {
        (0, ZNodeIndex::Root)
    } else if g > signed_limit() {
        (((g - 4) / 4) as nat, ZNodeIndex::SouthEast)
    } else {
        (((g - 1) / 4) as nat, ZNodeIndex::spec_from_local((((g - 1) % 4) + 1) as nat))
    }
}

/// The parent position of a node, if it is not the root.
pub open spec fn spec_parent_index(g: nat) -> Option<nat> {
    if g == 0 {
        None
    } else {
        Some(((g - 1) / 4) as nat)
    }
}

/// Reading back a child's position gives its parent and its place, wherever
/// the position can be read without passing through a negative number.
pub proof fn lemma_inverse_of_index(root: nat, number: ZNodeIndex)
    requires
        number != ZNodeIndex::Root,
        spec_index(root, number) <= signed_limit(),
    ensures
        spec_inverse_index(spec_index(root, number)) == (root, number),
{
    let g = spec_index(root, number);
    assert((g - 1) / 4 == root);
    assert((g - 1) % 4 + 1 == number.spec_local());
}

/// Splitting a position and joining the parts again gives the position back,
/// for every position up to the largest `i64`.
pub proof fn lemma_index_of_inverse(g: nat)
    requires
        g <= signed_limit(),
    ensures
        spec_index(spec_inverse_index(g).0, spec_inverse_index(g).1) == g,
{
    if g > 0 {
        assert(((g - 1) / 4) * 4 + (g - 1) % 4 == g - 1);
    }
}

/// The parent of a child's position is the node it was made from.
pub proof fn lemma_parent_of_index(root: nat, number: ZNodeIndex)
    requires
        number != ZNodeIndex::Root,
    ensures
        spec_parent_index(spec_index(root, number)) == Some(root),
{
    assert((spec_index(root, number) - 1) / 4 == root);
}

/// The parent position agrees with the first part of the split position,
/// for every position but the root up to the largest `i64`.
pub proof fn lemma_parent_matches_inverse(g: nat)
    requires
        0 < g <= signed_limit(),
    ensures
        spec_parent_index(g) == Some(spec_inverse_index(g).0),
{
}

/// `new` has grown from `old` to at least `min_len` elements, keeping the old
/// ones and filling the new slots with default values.
pub open spec fn grown_with_defaults<T: Default>(old: Seq<T>, new: Seq<T>, min_len: nat) -> bool {
    &&& new.len() == (if old.len() < min_len { min_len } else { old.len() })
    &&& forall|j: int| 0 <= j < old.len() ==> #[trigger] new[j] == old[j]
    &&& forall|j: int| old.len() <= j < new.len() ==> call_ensures(T::default, (), #[trigger] new[j])
}

/// Depth in the tree of the node stored at position `pos`.
pub open spec fn node_depth(pos: nat) -> nat
    decreases pos,
{
    if pos == 0 {
        0
    } else {
        1 + node_depth(((pos - 1) / 4) as nat)
    }
}

/// Place among its siblings of the node stored at position `pos`.
pub open spec fn position_of(pos: nat) -> ZNodeIndex {
    if pos == 0 {
        ZNodeIndex::Root
    } else {
        ZNodeIndex::spec_from_local((((pos - 1) % 4) + 1) as nat)
    }
}

/// The place a position stands for is the number the position arithmetic
/// gives: 0 for the root, `(p - 1) % 4 + 1` otherwise, which is also the place
/// `inverse_index` reads back wherever it reads without a signed detour.
pub proof fn lemma_position_of_place(p: nat)
    ensures
        p == 0 ==> position_of(p) == ZNodeIndex::Root,
        p > 0 ==> position_of(p).spec_local() == (p - 1) % 4 + 1,
        0 < p <= signed_limit() ==> position_of(p) == spec_inverse_index(p).1,
{
}

/// Four to the power `k`.
pub open spec fn pow4(k: nat) -> nat
    decreases k,
{
    if k == 0 {
        1
    } else {
        4 * pow4((k - 1) as nat)
    }
}

/// The position reached from the root by following `path`, one child place
/// per step.
pub open spec fn descend(path: Seq<ZNodeIndex>) -> nat
    decreases path.len(),
{
    if path.len() == 0 {
        0
    } else {
        spec_index(descend(path.drop_last()), path.last())
    }
}

/// Every position but the root has its parent below it, one level up; so
/// following parents from `g` reaches the root after `node_depth(g)` steps,
/// and `parent_index` answers `None` on the next one.
pub proof fn lemma_parent_one_level_up(g: nat)
    requires
        g > 0,
    ensures
        spec_parent_index(g) matches Some(p) && p < g && node_depth(g) == node_depth(p) + 1,
{
}

pub proof fn lemma_pow4_mod3(k: nat)
    ensures
        pow4(k) % 3 == 1,
        pow4(k) >= 1,
    decreases k,
{
    if k > 0 {
        lemma_pow4_mod3((k - 1) as nat);
        let x = pow4((k - 1) as nat);
        assert((4 * x) % 3 == 1) by (nonlinear_arith)
            requires
                x % 3 == 1,
        ;
    }
}

/// The number of parent steps from `g` to the root is the floor of the base-4
/// logarithm of `3g + 1`: `4^d <= 3g + 1 < 4^(d + 1)` for `d = node_depth(g)`.
pub proof fn lemma_depth_is_log4(g: nat)
    ensures
        pow4(node_depth(g)) <= 3 * g + 1 < pow4(node_depth(g) + 1),
    decreases g,
{
    if g > 0 {
        let p = ((g - 1) / 4) as nat;
        lemma_depth_is_log4(p);
        let dp = node_depth(p);
        assert(node_depth(g) == dp + 1);
        let y = pow4(dp + 1);
        lemma_pow4_mod3(dp + 1);
        assert(pow4(dp + 2) == 4 * y);
        assert(pow4(dp + 1) == 4 * pow4(dp));
        let q = y / 3;
        assert(y == 3 * q + 1);
        assert(3 * p + 1 <= y - 3);
        assert(g == 4 * p + (g - 1) % 4 + 1);
    }
}

/// The places along the way from the root to position `id`, root side first.
pub fn path_from_root(id: usize) -> (r: Vec<ZNodeIndex>)
    ensures
        descend(r@) == id,
        r@.len() == node_depth(id as nat),
        forall|j: int| 0 <= j < r@.len() ==> #[trigger] r@[j] != ZNodeIndex::Root,
    decreases id,
{
    if id == 0 {
        Vec::new()
    } else {
        let mut path = path_from_root((id - 1) / 4);
        let place = ZNodeIndex::from_local((id - 1) % 4 + 1);
        let ghost before = path@;
        path.push(place);
        assert(path@.drop_last() =~= before);
        path
    }
}

/// `new` is `old` with `value` stored at position `i`, after growing with
/// default values to hold that position.
pub open spec fn stored_at<T: Default>(old: Seq<T>, i: nat, value: T, new: Seq<T>) -> bool {
    &&& new.len() == (if old.len() <= i { i + 1 } else { old.len() as nat })
    &&& new[i as int] == value
    &&& forall|j: int| 0 <= j < old.len() && j != i ==> #[trigger] new[j] == old[j]
    &&& forall|j: int|
        old.len() <= j < new.len() && j != i ==> call_ensures(T::default, (), #[trigger] new[j])
}

/// `T::default()` can give only one value.
pub open spec fn default_is_unique<T: Default>() -> bool {
    forall|a: T, b: T|
        call_ensures(T::default, (), a) && call_ensures(T::default, (), b) ==> a == b
}

/// The default of an `Option` is always `None`, so it is unique.
pub proof fn lemma_option_default_is_unique<X>()
    ensures
        default_is_unique::<Option<X>>(),
        forall|a: Option<X>| call_ensures(Option::<X>::default, (), a) ==> a is None,
{
}

/// What is stored is read back at its position.
pub proof fn lemma_read_after_store<T: Default>(old: Seq<T>, root: nat, number: ZNodeIndex, value: T, new: Seq<T>)
    requires
        stored_at(old, spec_index(root, number), value, new),
    ensures
        spec_index(root, number) < new.len(),
        new[spec_index(root, number) as int] == value,
{
}

/// Storing twice at one position leaves what storing the second value alone
/// leaves: the last write wins.
pub proof fn lemma_last_store_wins<T: Default>(s0: Seq<T>, i: nat, a: T, b: T, s1: Seq<T>, s2: Seq<T>, s3: Seq<T>)
    requires
        default_is_unique::<T>(),
        stored_at(s0, i, a, s1),
        stored_at(s1, i, b, s2),
        stored_at(s0, i, b, s3),
    ensures
        s2 == s3,
{
    assert forall|j: int| 0 <= j < s2.len() implies #[trigger] s2[j] == s3[j] by {
        if j != i && j >= s0.len() {
            assert(call_ensures(T::default, (), s2[j]));
            assert(call_ensures(T::default, (), s3[j]));
        }
    }
    assert(s2 =~= s3);
}

/// Stores at two different positions can be made in either order.
pub proof fn lemma_stores_commute<T: Default>(
    s0: Seq<T>,
    i: nat,
    a: T,
    j: nat,
    b: T,
    s1: Seq<T>,
    s2: Seq<T>,
    t1: Seq<T>,
    t2: Seq<T>,
)
    requires
        default_is_unique::<T>(),
        i != j,
        stored_at(s0, i, a, s1),
        stored_at(s1, j, b, s2),
        stored_at(s0, j, b, t1),
        stored_at(t1, i, a, t2),
    ensures
        s2 == t2,
{
    assert forall|k: int| 0 <= k < s2.len() implies #[trigger] s2[k] == t2[k] by {
        if k != i && k != j && k >= s0.len() {
            assert(call_ensures(T::default, (), s2[k]));
            assert(call_ensures(T::default, (), t2[k]));
        }
    }
    assert(s2 =~= t2);
}

/// Growing to `a` and then to `b` leaves what growing once to the larger of
/// the two leaves; in particular growing twice to one length is growing once.
pub proof fn lemma_grow_twice<T: Default>(s0: Seq<T>, a: nat, b: nat, s1: Seq<T>, s2: Seq<T>, s3: Seq<T>)
    requires
        default_is_unique::<T>(),
        grown_with_defaults(s0, s1, a),
        grown_with_defaults(s1, s2, b),
        grown_with_defaults(s0, s3, if a < b { b } else { a }),
    ensures
        s2 == s3,
{
    assert forall|k: int| 0 <= k < s2.len() implies #[trigger] s2[k] == s3[k] by {
        if k >= s0.len() {
            if k < s1.len() {
                assert(call_ensures(T::default, (), s1[k]));
            } else {
                assert(call_ensures(T::default, (), s2[k]));
            }
            assert(call_ensures(T::default, (), s3[k]));
        }
    }
    assert(s2 =~= s3);
}

/// A complete quadtree stored breadth-first in one array: the root sits at
/// position 0 and the children of the node at `p` sit at `4p + 1` to `4p + 4`.
pub struct QuadTree<T> {
    pub nodes_list: Vec<T>,
}

impl<T> QuadTree<T> {
    /// An empty tree.
    pub fn new() -> (r: Self)
        ensures
            r.nodes_list@ == Seq::<T>::empty(),
    {
        Self { nodes_list: Vec::new() }
    }

    /// Global position of child `number` of the node at `root`.
    pub fn index(root: usize, number: ZNodeIndex) -> (r: usize)
        requires
            spec_index(root as nat, number) <= usize::MAX,
        ensures
            r == spec_index(root as nat, number),
    {
        let local_index: usize = number.into();
        return (root * 4) + local_index;
    }

    /// Splits a global position into the parent's position and the place among
    /// the siblings.
    pub fn inverse_index(global_index: usize) -> (r: (usize, ZNodeIndex))
        ensures
            r.0 == spec_inverse_index(global_index as nat).0,
            r.1 == spec_inverse_index(global_index as nat).1,
    {
        let local_index: usize = if global_index == 0 {
            0
        } else if global_index > Self::signed_max() {
            4
        } else {
            (global_index - 1) % 4 + 1
        };
        let root_index: usize = (global_index - local_index) / 4;
        let local_index: ZNodeIndex = ZNodeIndex::from_local(local_index);
        (root_index, local_index)
    }

    /// The largest value of `i64` when it fits in a `usize`, else `usize::MAX`.
    fn signed_max() -> (r: usize)
        ensures
            r == (if signed_limit() <= usize::MAX { signed_limit() } else { usize::MAX as nat }),
    {
        if usize::BITS >= 64 {
            usize::MAX / 2
        } else {
            usize::MAX
        }
    }

    /// The half-open range `4 * root + 1 .. 4 * root + 4`.
    pub fn children_indices_byroot(root: usize) -> (r: core::ops::Range<usize>)
        requires
            root * 4 + 4 <= usize::MAX,
        ensures
            r.start == root * 4 + 1,
            r.end == root * 4 + 4,
    {
        let start: usize = (root * 4) + 1;
        let end: usize = (root * 4) + (3 + 1);
        core::ops::Range { start, end }
    }

    /// The half-open range of the four positions after `globa_index`.
    pub fn children_indices(globa_index: usize) -> (r: core::ops::Range<usize>)
        requires
            globa_index + 5 <= usize::MAX,
        ensures
            r.start == globa_index + 1,
            r.end == globa_index + 5,
    {
        let start: usize = globa_index + 1;
        let end: usize = start + 4;
        core::ops::Range { start, end }
    }

    /// Global position of child `inode` of the node at `root`.
    pub fn index_by_node(root: usize, inode: ZNodeIndex) -> (r: usize)
        requires
            spec_index(root as nat, inode) <= usize::MAX,
        ensures
            r == spec_index(root as nat, inode),
    {
        let local_number: usize = inode.into();
        return (root * 4) + local_number;
    }

    /// The parent position of the node at `index`, or `None` for the root.
    pub fn parent_index(index: usize) -> (r: Option<usize>)
        ensures
            r == (match spec_parent_index(index as nat) {
                Some(p) => Some(p as usize),
                None => None,
            }),
    {
        if index == 0 {
            None
        } else {
            Some((index - 1) / 4)
        }
    }

    /// Stores `value` as child `inode` of the node at `root`, growing the array
    /// with default values as far as needed.
    pub fn set(&mut self, root: usize, inode: ZNodeIndex, value: T)
        where T: Default
        requires
            spec_index(root as nat, inode) < usize::MAX,
        ensures
            stored_at(
                old(self).nodes_list@,
                spec_index(root as nat, inode),
                value,
                final(self).nodes_list@,
            ),
    {
        let i: usize = QuadTree::<T>::index(root, inode);
        self.ensure_capacity(i + 1);
        self.nodes_list.set(i, value);
    }

    /// Stores `value` at the root position 0.
    pub fn set_root(&mut self, value: T)
        where T: Default
        ensures
            final(self).nodes_list@ == (if old(self).nodes_list@.len() == 0 {
                seq![value]
            } else {
                old(self).nodes_list@.update(0, value)
            }),
    {
        let i: usize = 0;
        self.ensure_capacity(i + 1);
        self.nodes_list.set(i, value);
        proof {
            if old(self).nodes_list@.len() == 0 {
                assert(self.nodes_list@ =~= seq![value]);
            } else {
                assert(self.nodes_list@ =~= old(self).nodes_list@.update(0, value));
            }
        }
    }

    /// A copy of the element at `root * 4 + local_index` (`local_index` taken as 0
    /// when absent).
    pub fn get_by_root2(&self, root: usize, local_index: Option<usize>) -> (r: T)
        where T: Clone
        requires
            root * 4 + (match local_index {
                Some(l) => l as int,
                None => 0,
            }) < self.nodes_list@.len(),
        ensures
            cloned(
                self.nodes_list@[root * 4 + (match local_index {
                    Some(l) => l as int,
                    None => 0,
                })],
                r,
            ),
    {
        proof {
            assert(self.nodes_list@.len() == self.nodes_list.len());
        }
        let i: usize = (root * 4) + if local_index.is_none() {
            0
        } else {
            local_index.unwrap()
        };
        self.nodes_list[i].clone()
    }

    /// Grows the array with default values to at least `minlength` elements.
    pub fn ensure_capacity(&mut self, minlength: usize)
        where T: Default
        ensures
            grown_with_defaults(old(self).nodes_list@, final(self).nodes_list@, minlength as nat),
    {
        if minlength > self.nodes_list.len() {
            while self.nodes_list.len() < minlength
                invariant
                    old(self).nodes_list@.len() <= self.nodes_list@.len() <= minlength,
                    forall|j: int|
                        0 <= j < old(self).nodes_list@.len() ==> #[trigger] self.nodes_list@[j]
                            == old(self).nodes_list@[j],
                    forall|j: int|
                        old(self).nodes_list@.len() <= j < self.nodes_list@.len() ==> call_ensures(
                            T::default,
                            (),
                            #[trigger] self.nodes_list@[j],
                        ),
                decreases minlength - self.nodes_list@.len(),
            {
                let d = T::default();
                self.nodes_list.push(d);
            }
        }
    }

    /// Number of stored positions.
    pub fn len(&self) -> (r: usize)
        ensures
            r == self.nodes_list@.len(),
    {
        self.nodes_list.len()
    }
}

} // verus!
