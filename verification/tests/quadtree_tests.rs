use ardh::quadtree::{path_from_root, QuadTree, ZNodeIndex};

type Q = QuadTree<Option<i32>>;

#[test]
fn local_numbers_of_positions() {
    assert_eq!(ZNodeIndex::Root.local(), 0);
    assert_eq!(ZNodeIndex::NorthWest.local(), 1);
    assert_eq!(ZNodeIndex::NorthEast.local(), 2);
    assert_eq!(ZNodeIndex::SouthWest.local(), 3);
    assert_eq!(ZNodeIndex::SouthEast.local(), 4);
    assert_eq!(usize::from(ZNodeIndex::SouthWest), 3);
    let n: usize = ZNodeIndex::NorthEast.into();
    assert_eq!(n, 2);
}

#[test]
fn from_local_inverts_local() {
    for k in 0..=4usize {
        assert_eq!(ZNodeIndex::from_local(k).local(), k);
    }
    assert_eq!(ZNodeIndex::from_local(0), ZNodeIndex::Root);
    assert_eq!(ZNodeIndex::from_local(4), ZNodeIndex::SouthEast);
}

#[test]
fn index_of_children() {
    assert_eq!(Q::index(0, ZNodeIndex::Root), 0);
    assert_eq!(Q::index(0, ZNodeIndex::NorthWest), 1);
    assert_eq!(Q::index(0, ZNodeIndex::SouthEast), 4);
    assert_eq!(Q::index(2, ZNodeIndex::NorthWest), 9);
    assert_eq!(Q::index(2, ZNodeIndex::SouthWest), 11);
    assert_eq!(Q::index_by_node(5, ZNodeIndex::NorthEast), 22);
    assert_eq!(Q::index_by_node(3, ZNodeIndex::Root), 12);
}

#[test]
fn inverse_index_of_root_and_children() {
    assert_eq!(Q::inverse_index(0), (0, ZNodeIndex::Root));
    assert_eq!(Q::inverse_index(1), (0, ZNodeIndex::NorthWest));
    assert_eq!(Q::inverse_index(2), (0, ZNodeIndex::NorthEast));
    assert_eq!(Q::inverse_index(3), (0, ZNodeIndex::SouthWest));
    assert_eq!(Q::inverse_index(4), (0, ZNodeIndex::SouthEast));
    assert_eq!(Q::inverse_index(5), (1, ZNodeIndex::NorthWest));
    assert_eq!(Q::inverse_index(12), (2, ZNodeIndex::SouthEast));
    assert_eq!(Q::inverse_index(22), (5, ZNodeIndex::NorthEast));
}

#[test]
fn inverse_index_past_signed_range() {
    if usize::BITS == 64 {
        let g: usize = usize::MAX;
        assert_eq!(Q::inverse_index(g), ((g - 4) / 4, ZNodeIndex::SouthEast));
        let h: usize = (i64::MAX as usize) + 2;
        assert_eq!(Q::inverse_index(h), ((h - 4) / 4, ZNodeIndex::SouthEast));
        let m: usize = i64::MAX as usize;
        assert_eq!(Q::inverse_index(m), ((m - 1) / 4, ZNodeIndex::SouthWest));
    }
}

#[test]
fn index_and_inverse_index_round_trip() {
    for root in [0usize, 1, 7, 1000, 123_456] {
        for k in 1..=4usize {
            let number = ZNodeIndex::from_local(k);
            let g = Q::index(root, number);
            assert_eq!(Q::inverse_index(g), (root, number));
            assert_eq!(Q::parent_index(g), Some(root));
        }
    }
    for g in 0..200usize {
        let (root, number) = Q::inverse_index(g);
        assert_eq!(Q::index(root, number), g);
        if g > 0 {
            assert_eq!(Q::parent_index(g), Some(root));
        }
    }
}

#[test]
fn parent_index_of_root_is_none() {
    assert_eq!(Q::parent_index(0), None);
    assert_eq!(Q::parent_index(1), Some(0));
    assert_eq!(Q::parent_index(4), Some(0));
    assert_eq!(Q::parent_index(5), Some(1));
    assert_eq!(Q::parent_index(20), Some(4));
}

#[test]
fn children_ranges() {
    let r = Q::children_indices_byroot(0);
    assert_eq!((r.start, r.end), (1, 4));
    let r = Q::children_indices_byroot(3);
    assert_eq!((r.start, r.end), (13, 16));
    let r = Q::children_indices(0);
    assert_eq!((r.start, r.end), (1, 5));
    let r = Q::children_indices(7);
    assert_eq!((r.start, r.end), (8, 12));
}

#[test]
fn new_tree_is_empty() {
    let t = Q::new();
    assert_eq!(t.len(), 0);
    assert!(t.nodes_list.is_empty());
}

#[test]
fn set_root_on_empty_and_full_tree() {
    let mut t = Q::new();
    t.set_root(Some(7));
    assert_eq!(t.nodes_list, vec![Some(7)]);
    t.set(0, ZNodeIndex::NorthEast, Some(3));
    t.set_root(Some(8));
    assert_eq!(t.nodes_list, vec![Some(8), None, Some(3)]);
}

#[test]
fn set_grows_with_defaults_and_reads_back() {
    let mut t = Q::new();
    t.set(1, ZNodeIndex::SouthWest, Some(42));
    assert_eq!(t.len(), 8);
    assert_eq!(t.nodes_list[7], Some(42));
    for j in 0..7 {
        assert_eq!(t.nodes_list[j], None);
    }
    t.set(0, ZNodeIndex::NorthWest, Some(5));
    assert_eq!(t.len(), 8);
    assert_eq!(t.nodes_list[1], Some(5));
    assert_eq!(t.nodes_list[7], Some(42));
    assert_eq!(t.get_by_root2(1, Some(3)), Some(42));
    assert_eq!(t.get_by_root2(0, Some(1)), Some(5));
    assert_eq!(t.get_by_root2(1, None), None);
    assert_eq!(t.get_by_root2(0, Some(1)), t.nodes_list[1]);
}

#[test]
fn ensure_capacity_never_shrinks() {
    let mut t: QuadTree<u32> = QuadTree::new();
    t.ensure_capacity(3);
    assert_eq!(t.nodes_list, vec![0, 0, 0]);
    t.nodes_list[1] = 9;
    t.ensure_capacity(2);
    assert_eq!(t.nodes_list, vec![0, 9, 0]);
    t.ensure_capacity(5);
    assert_eq!(t.nodes_list, vec![0, 9, 0, 0, 0]);
}

#[test]
fn path_from_root_descends_to_the_position() {
    assert!(path_from_root(0).is_empty());
    assert_eq!(path_from_root(3), vec![ZNodeIndex::SouthWest]);
    assert_eq!(path_from_root(22), vec![ZNodeIndex::NorthWest, ZNodeIndex::NorthWest, ZNodeIndex::NorthEast]);
    for id in 0..500usize {
        let mut at = 0usize;
        for k in path_from_root(id) {
            at = Q::index(at, k);
        }
        assert_eq!(at, id);
    }
}

#[test]
fn parent_steps_to_the_root_follow_log4() {
    for g in [1usize, 4, 5, 20, 21, 84, 85, 1000, 123_456] {
        let mut steps = 0u32;
        let mut at = g;
        while let Some(p) = Q::parent_index(at) {
            assert!(p < at);
            at = p;
            steps += 1;
        }
        assert_eq!(at, 0);
        // 4^steps <= 3g + 1 < 4^(steps + 1)
        assert!(4u64.pow(steps) <= 3 * g as u64 + 1);
        assert!(3 * (g as u64) + 1 < 4u64.pow(steps + 1));
        assert_eq!(steps as usize, path_from_root(g).len());
    }
}

#[test]
fn stores_commute_and_the_last_wins() {
    let mut a = Q::new();
    a.set(0, ZNodeIndex::NorthWest, Some(1));
    a.set(1, ZNodeIndex::SouthEast, Some(2));
    let mut b = Q::new();
    b.set(1, ZNodeIndex::SouthEast, Some(2));
    b.set(0, ZNodeIndex::NorthWest, Some(1));
    assert_eq!(a.nodes_list, b.nodes_list);
    let mut c = Q::new();
    c.set(2, ZNodeIndex::NorthEast, Some(3));
    c.set(2, ZNodeIndex::NorthEast, Some(4));
    let mut d = Q::new();
    d.set(2, ZNodeIndex::NorthEast, Some(4));
    assert_eq!(c.nodes_list, d.nodes_list);
    assert_eq!(c.get_by_root2(2, Some(ZNodeIndex::NorthEast.local())), Some(4));
}

#[test]
fn growing_twice_is_growing_to_the_larger() {
    let mut a: Q = Q::new();
    a.ensure_capacity(6);
    a.ensure_capacity(3);
    let mut b: Q = Q::new();
    b.ensure_capacity(6);
    assert_eq!(a.nodes_list, b.nodes_list);
    a.ensure_capacity(6);
    assert_eq!(a.nodes_list, b.nodes_list);
}
