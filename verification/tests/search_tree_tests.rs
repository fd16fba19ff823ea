use ardh::ardh::{Node, SearchTree, TileId, QT};
use ardh::node_set::NodeSet;
use ardh::quadtree::ZNodeIndex;
use std::collections::hash_map::DefaultHasher;
use std::collections::{HashSet, VecDeque};
use std::hash::{Hash, Hasher};

fn root(face: usize) -> Node {
    Node { id: 0, index: ZNodeIndex::Root, depth: 0, face }
}

fn fresh(face: usize) -> SearchTree {
    let mut tree = QT::new();
    tree.set_root(Some(root(face)));
    let mut stack = VecDeque::new();
    stack.push_back(root(face));
    let mut discovered = NodeSet::new();
    discovered.insert(root(face));
    SearchTree {
        tree,
        running: true,
        stack,
        discovered,
        leafs: NodeSet::new(),
        leafs_prev: NodeSet::new(),
    }
}

fn ids(st: &SearchTree) -> Vec<usize> {
    st.stack.iter().map(|n| n.id).collect()
}

fn set(v: &[usize]) -> HashSet<usize> {
    v.iter().copied().collect()
}

fn id_set(s: &NodeSet) -> HashSet<usize> {
    s.to_vec().iter().map(|n| n.id).collect()
}

fn hash_of(n: &Node) -> u64 {
    let mut h = DefaultHasher::new();
    n.hash(&mut h);
    h.finish()
}

#[test]
fn splitting_the_root_stores_and_queues_its_children() {
    let mut st = fresh(2);
    assert!(!st.dfs(|_| true));
    assert_eq!(st.tree.len(), 5);
    assert_eq!(st.tree.nodes_list[0], Some(root(2)));
    assert_eq!(
        st.tree.nodes_list[1],
        Some(Node { id: 1, index: ZNodeIndex::NorthWest, depth: 1, face: 2 })
    );
    assert_eq!(
        st.tree.nodes_list[3],
        Some(Node { id: 3, index: ZNodeIndex::SouthWest, depth: 1, face: 2 })
    );
    assert_eq!(
        st.tree.nodes_list[4],
        Some(Node { id: 4, index: ZNodeIndex::SouthEast, depth: 1, face: 2 })
    );
    assert_eq!(ids(&st), vec![1, 2, 3, 4]);
    assert_eq!(id_set(&st.discovered), set(&[0, 1, 2, 3, 4]));
    assert_eq!(id_set(&st.leafs), set(&[1, 2, 3, 4]));
    assert!(st.running);
}

#[test]
fn a_node_that_is_not_split_is_only_dequeued() {
    let mut st = fresh(0);
    st.dfs(|_| true);
    let before_tree = st.tree.nodes_list.clone();
    assert!(!st.dfs(|n| n.depth < 1));
    assert_eq!(ids(&st), vec![2, 3, 4]);
    assert_eq!(st.tree.nodes_list, before_tree);
    assert_eq!(id_set(&st.discovered), set(&[0, 1, 2, 3, 4]));
    assert_eq!(id_set(&st.leafs), set(&[1, 2, 3, 4]));
}

#[test]
fn splitting_a_child_grows_the_tree_with_empty_slots() {
    let mut st = fresh(1);
    st.dfs(|_| true);
    st.dfs(|_| false);
    assert!(!st.dfs(|n| n.id == 2));
    assert_eq!(st.tree.len(), 13);
    for j in 5..9 {
        assert_eq!(st.tree.nodes_list[j], None);
    }
    assert_eq!(
        st.tree.nodes_list[9],
        Some(Node { id: 9, index: ZNodeIndex::NorthWest, depth: 2, face: 1 })
    );
    assert_eq!(
        st.tree.nodes_list[12],
        Some(Node { id: 12, index: ZNodeIndex::SouthEast, depth: 2, face: 1 })
    );
    assert_eq!(ids(&st), vec![3, 4, 9, 10, 11, 12]);
    assert_eq!(id_set(&st.leafs), set(&[1, 3, 4, 9, 10, 11, 12]));
}

#[test]
fn an_empty_queue_ends_the_walk_and_requeues_the_root() {
    let mut st = fresh(3);
    st.dfs(|_| true);
    let mut steps = 0;
    while !st.dfs(|n| n.depth < 1) {
        steps += 1;
    }
    assert_eq!(steps, 4);
    assert!(!st.running);
    assert_eq!(ids(&st), vec![0]);
    assert!(st.discovered.is_empty());
    assert_eq!(st.discovered.len(), 0);
    assert_eq!(id_set(&st.leafs), set(&[1, 2, 3, 4]));
    assert_eq!(st.tree.len(), 5);
}

#[test]
fn discovered_children_are_not_queued_again() {
    let mut st = fresh(0);
    st.dfs(|_| true);
    // split the root again while its children are still discovered
    st.stack.push_front(root(0));
    assert!(!st.dfs(|_| true));
    assert_eq!(ids(&st), vec![1, 2, 3, 4]);
    assert_eq!(id_set(&st.discovered), set(&[0, 1, 2, 3, 4]));
}

#[test]
fn a_new_walk_rediscovers_the_children() {
    let mut st = fresh(0);
    st.dfs(|_| true);
    while !st.dfs(|_| false) {}
    assert!(!st.dfs(|_| true));
    assert_eq!(ids(&st), vec![1, 2, 3, 4]);
    assert_eq!(id_set(&st.discovered), set(&[1, 2, 3, 4]));
    assert_eq!(id_set(&st.leafs), set(&[1, 2, 3, 4]));
}

#[test]
fn visit_with_a_given_decision() {
    let mut st = fresh(5);
    let v = st.stack.pop_front().unwrap();
    st.visit(v, false);
    assert!(st.stack.is_empty());
    assert_eq!(st.tree.len(), 1);
    st.visit(v, true);
    assert_eq!(ids(&st), vec![1, 2, 3, 4]);
    assert_eq!(id_set(&st.leafs), set(&[1, 2, 3, 4]));
}

#[test]
fn tile_ids_compare_by_address_and_face() {
    let a = TileId { address: 3, face: 1 };
    assert_eq!(a, TileId { address: 3, face: 1 });
    assert_ne!(a, TileId { address: 3, face: 2 });
    let s: HashSet<TileId> = [a, a.clone()].into_iter().collect();
    assert_eq!(s.len(), 1);
}

#[test]
fn sets_hold_whole_tiles() {
    let mut s = NodeSet::new();
    let a = Node { id: 5, index: ZNodeIndex::NorthWest, depth: 2, face: 0 };
    let b = Node { id: 5, index: ZNodeIndex::NorthWest, depth: 2, face: 1 };
    assert!(s.insert(a));
    assert!(!s.insert(a));
    assert!(s.contains(&a));
    assert!(!s.contains(&b));
    assert!(s.insert(b));
    assert_eq!(s.len(), 2);
    let c = s.clone();
    assert!(s.remove(&a));
    assert!(!s.remove(&a));
    assert_eq!(s.to_vec(), vec![b]);
    assert_eq!(c.len(), 2);
    s.clear();
    assert!(s.is_empty());
}

#[test]
fn a_queued_tile_unlike_the_stored_one_is_compared_whole() {
    let mut st = fresh(0);
    st.dfs(|_| true);
    // a leaf with the same position as node 1 but another face is not node 1
    let stranger = Node { id: 1, index: ZNodeIndex::NorthWest, depth: 1, face: 9 };
    st.leafs.insert(stranger);
    st.stack.push_front(stranger);
    st.dfs(|_| false);
    assert!(st.leafs.contains(&stranger));
    st.stack.push_front(stranger);
    st.dfs(|_| true);
    assert!(!st.leafs.contains(&stranger));
    assert!(st.leafs.contains(&Node { id: 1, index: ZNodeIndex::NorthWest, depth: 1, face: 0 }));
}

#[test]
fn tiles_hash_by_position_alone() {
    let a = Node { id: 7, index: ZNodeIndex::SouthWest, depth: 2, face: 0 };
    let b = Node { id: 7, index: ZNodeIndex::SouthEast, depth: 5, face: 3 };
    assert_eq!(hash_of(&a), hash_of(&b));
    assert_ne!(a, b);
}

#[test]
fn the_queue_stays_breadth_first() {
    let mut st = fresh(0);
    let mut seen_depths = Vec::new();
    loop {
        let depths: Vec<usize> = st.stack.iter().map(|n| n.depth).collect();
        assert!(depths.windows(2).all(|w| w[0] <= w[1]));
        if let (Some(f), Some(b)) = (depths.first(), depths.last()) {
            assert!(*b <= *f + 1);
        }
        if let Some(f) = st.stack.front() {
            seen_depths.push(f.depth);
        }
        if st.dfs(|n| n.depth < 3) {
            break;
        }
    }
    assert!(seen_depths.windows(2).all(|w| w[0] <= w[1]));
    // 1 + 4 + 16 + 64 tiles were visited, then the walk ended
    assert_eq!(seen_depths.len(), 85);
}

#[test]
fn a_walk_from_the_root_ends_within_the_bound() {
    // state outside the queue need not be well formed
    let mut st = fresh(0);
    let odd = Node { id: 7, index: ZNodeIndex::NorthEast, depth: 9, face: 4 };
    st.tree.set(1, ZNodeIndex::SouthWest, Some(odd));
    st.discovered.insert(odd);
    st.leafs.insert(odd);
    // splitting only tiles less than 2 deep: at most (4^3 - 1) / 3 = 21 steps
    let mut false_calls = 0;
    while !st.dfs(|n| n.depth < 2) {
        false_calls += 1;
        assert!(false_calls <= 21);
    }
    assert_eq!(false_calls, 21);
    assert_eq!(ids(&st), vec![0]);
}
