use vstd::prelude::*;
use crate::ardh::Node;

verus! {

/// A finite set of tiles, compared field by field; each tile is held once.
pub struct NodeSet {
    nodes: Vec<Node>,
}

impl View for NodeSet {
    type V = Set<Node>;

    closed spec fn view(&self) -> Set<Node> {
        self.nodes@.to_set()
    }
}

impl NodeSet {
    #[verifier::type_invariant]
    spec fn held_once(self) -> bool {
        self.nodes@.no_duplicates()
    }

    /// The empty set.
    pub fn new() -> (r: Self)
        ensures
            r@ == Set::<Node>::empty(),
    {
        let r = NodeSet { nodes: Vec::new() };
        assert(r@ =~= Set::<Node>::empty());
        r
    }

    /// Where `n` is held, if it is.
    fn position(&self, n: &Node) -> (r: Option<usize>)
        ensures
            match r {
                Some(i) => i < self.nodes@.len() && self.nodes@[i as int] == *n,
                None => !self.nodes@.contains(*n),
            },
    {
        let mut i: usize = 0;
        while i < self.nodes.len()
            invariant
                i <= self.nodes@.len(),
                forall|j: int| 0 <= j < i ==> self.nodes@[j] != *n,
            decreases self.nodes@.len() - i,
        {
            if self.nodes[i] == *n {
                return Some(i);
            }
            i = i + 1;
        }
        None
    }

    /// Whether `n` is in the set.
    pub fn contains(&self, n: &Node) -> (r: bool)
        ensures
            r == self@.contains(*n),
    {
        self.position(n).is_some()
    }

    /// Adds `n`; tells whether it was new.
    pub fn insert(&mut self, n: Node) -> (r: bool)
        ensures
            final(self)@ == old(self)@.insert(n),
            r == !old(self)@.contains(n),
    {
        proof {
            use_type_invariant(&*self);
        }
        if self.position(&n).is_some() {
            assert(old(self)@ =~= old(self)@.insert(n));
            false
        } else {
            let mut nodes = Vec::new();
            std::mem::swap(&mut nodes, &mut self.nodes);
            nodes.push(n);
            assert(nodes@.no_duplicates()) by {
                assert forall|a: int, b: int|
                    0 <= a < nodes@.len() && 0 <= b < nodes@.len() && a != b implies nodes@[a]
                    != nodes@[b] by {
                    if a == nodes@.len() - 1 {
                        assert(old(self).nodes@.contains(nodes@[b]) || b == a);
                    } else if b == nodes@.len() - 1 {
                        assert(old(self).nodes@.contains(nodes@[a]));
                    }
                }
            }
            self.nodes = nodes;
            assert(self@ =~= old(self)@.insert(n)) by {
                assert(self.nodes@[self.nodes@.len() - 1] == n);
                assert forall|m: Node| old(self)@.contains(m) implies self@.contains(m) by {
                    let j = choose|j: int| 0 <= j < old(self).nodes@.len() && old(self).nodes@[j] == m;
                    assert(self.nodes@[j] == m);
                }
            }
            true
        }
    }

    /// Takes `n` out; tells whether it was there.
    pub fn remove(&mut self, n: &Node) -> (r: bool)
        ensures
            final(self)@ == old(self)@.remove(*n),
            r == old(self)@.contains(*n),
    {
        proof {
            use_type_invariant(&*self);
        }
        match self.position(n) {
            None => {
                assert(old(self)@ =~= old(self)@.remove(*n));
                false
            },
            Some(i) => {
                let mut nodes = Vec::new();
                std::mem::swap(&mut nodes, &mut self.nodes);
                let ghost before = nodes@;
                nodes.remove(i);
                assert(nodes@.no_duplicates()) by {
                    assert forall|a: int, b: int|
                        0 <= a < nodes@.len() && 0 <= b < nodes@.len() && a != b implies nodes@[a]
                        != nodes@[b] by {
                        let a2 = if a < i { a } else { a + 1 };
                        let b2 = if b < i { b } else { b + 1 };
                        assert(nodes@[a] == before[a2] && nodes@[b] == before[b2]);
                    }
                }
                self.nodes = nodes;
                assert(self@ =~= old(self)@.remove(*n)) by {
                    assert forall|m: Node| #[trigger] old(self)@.remove(*n).contains(m) implies self@.contains(m) by {
                        let j = choose|j: int| 0 <= j < before.len() && before[j] == m;
                        assert(j != i);
                        if j < i {
                            assert(self.nodes@[j] == m);
                        } else {
                            assert(self.nodes@[j - 1] == m);
                        }
                    }
                    assert forall|m: Node| #[trigger] self@.contains(m) implies old(self)@.remove(*n).contains(m) by {
                        let j = choose|j: int| 0 <= j < self.nodes@.len() && self.nodes@[j] == m;
                        let j2 = if j < i { j } else { j + 1 };
                        assert(before[j2] == m);
                        assert(j2 != i);
                    }
                }
                true
            },
        }
    }

    /// Empties the set.
    pub fn clear(&mut self)
        ensures
            final(self)@ == Set::<Node>::empty(),
    {
        self.nodes = Vec::new();
        assert(self@ =~= Set::<Node>::empty());
    }

    /// Number of tiles in the set.
    pub fn len(&self) -> (r: usize)
        ensures
            r == self@.len(),
    {
        proof {
            use_type_invariant(self);
            self.nodes@.unique_seq_to_set();
        }
        self.nodes.len()
    }

    /// Whether the set is empty.
    pub fn is_empty(&self) -> (r: bool)
        ensures
            r == (self@.len() == 0),
    {
        self.len() == 0
    }

    /// The tiles of the set, each once, in no particular order.
    pub fn to_vec(&self) -> (r: Vec<Node>)
        ensures
            r@.to_set() == self@,
            r@.no_duplicates(),
    {
        proof {
            use_type_invariant(self);
        }
        let mut r: Vec<Node> = Vec::new();
        let mut i: usize = 0;
        while i < self.nodes.len()
            invariant
                i <= self.nodes@.len(),
                r@ == self.nodes@.subrange(0, i as int),
            decreases self.nodes@.len() - i,
        {
            r.push(self.nodes[i]);
            i = i + 1;
            assert(r@ =~= self.nodes@.subrange(0, i as int));
        }
        assert(r@ =~= self.nodes@);
        r
    }
}

impl Clone for NodeSet {
    fn clone(&self) -> (r: Self)
        ensures
            r@ == self@,
    {
        proof {
            use_type_invariant(self);
        }
        let nodes = self.to_vec();
        NodeSet { nodes }
    }
}

} // verus!
