use quadtree::rect::{Point, Quadrant, Rect};
use quadtree::tree::node::{
    EntityHandle, Member, NodeState, QuadTreeConfig, QuadTreeNode, BOTTOM_LEFT, BOTTOM_RIGHT,
    TOP_LEFT, TOP_RIGHT,
};
use quadtree::tree::QuadTree;

fn rect(x: i32, y: i32, width: u32, height: u32) -> Rect {
    Rect::new(Point::new(x, y), width, height)
}

fn config(max_depth: u8, max_entities: u8) -> QuadTreeConfig {
    QuadTreeConfig { rect: rect(0, 0, 800, 800), max_depth, max_entities }
}

fn handle(id: u64) -> EntityHandle {
    EntityHandle { id }
}

fn ids(node: &QuadTreeNode) -> Vec<u64> {
    node.get_all_entities().iter().map(|e| e.id).collect()
}

fn sorted_set(mut ids: Vec<u64>) -> Vec<u64> {
    ids.sort();
    ids.dedup();
    ids
}

fn leaf_ids(node: &QuadTreeNode) -> Vec<u64> {
    match &node.state {
        NodeState::Leaf(members) => members.iter().map(|m| m.entity.id).collect(),
        NodeState::Branch(_) => panic!("expected a leaf"),
    }
}

fn children(node: &QuadTreeNode) -> [&QuadTreeNode; 4] {
    match &node.state {
        NodeState::Branch(c) => [&*c.top_right, &*c.top_left, &*c.bottom_left, &*c.bottom_right],
        NodeState::Leaf(_) => panic!("expected a branch"),
    }
}

/// Every leaf under `node` with more members than `max`, given as its depth.
fn overfull_leaves(node: &QuadTreeNode, max: usize, found: &mut Vec<u8>) {
    match &node.state {
        NodeState::Leaf(members) => {
            if members.len() > max {
                found.push(node.depth);
            }
        }
        NodeState::Branch(_) => {
            for child in children(node) {
                overfull_leaves(child, max, found);
            }
        }
    }
}

/// Whether every child lies one level below its parent over its quadrant.
fn is_regular(node: &QuadTreeNode) -> bool {
    match &node.state {
        NodeState::Leaf(_) => true,
        NodeState::Branch(_) => {
            let quadrants = [
                Quadrant::TopRight,
                Quadrant::TopLeft,
                Quadrant::BottomLeft,
                Quadrant::BottomRight,
            ];
            children(node).iter().zip(quadrants).all(|(child, q)| {
                child.depth == node.depth + 1
                    && child.bound == node.bound.quadrant(q)
                    && is_regular(child)
            })
        }
    }
}

#[test]
fn new_tree_has_an_empty_root_leaf() {
    let tree = QuadTree::new(config(4, 4));
    assert!(tree.root.is_leaf());
    assert_eq!(tree.root.depth, 0);
    assert_eq!(tree.root.bound, rect(0, 0, 800, 800));
    assert_eq!(tree.root.get_all_entities(), vec![]);
    assert_eq!(tree.config.max_depth, 4);
    assert_eq!(tree.config.max_entities, 4);
    assert_eq!(tree.root, QuadTreeNode::root(rect(0, 0, 800, 800)));
}

#[test]
fn index_names_the_quadrant_of_a_small_rectangle() {
    let root = QuadTreeNode::root(rect(0, 0, 800, 800));
    assert_eq!(root.get_index(&rect(300, 300, 1, 1)), TOP_RIGHT);
    assert_eq!(root.get_index(&rect(-300, 300, 1, 1)), TOP_LEFT);
    assert_eq!(root.get_index(&rect(-300, -300, 1, 1)), BOTTOM_LEFT);
    assert_eq!(root.get_index(&rect(300, -300, 1, 1)), BOTTOM_RIGHT);
    assert_eq!((TOP_RIGHT, TOP_LEFT, BOTTOM_LEFT, BOTTOM_RIGHT), (1, 2, 4, 8));
}

#[test]
fn index_of_a_rectangle_over_the_center_is_all_four() {
    let root = QuadTreeNode::root(rect(0, 0, 800, 800));
    assert_eq!(root.get_index(&rect(0, 0, 10, 10)), 15);
    assert_eq!(root.get_index(&rect(0, 0, 800, 800)), 15);
    assert_eq!(root.get_index(&rect(0, 0, 0, 0)), 15);
}

#[test]
fn index_counts_a_touched_center_line_for_both_sides() {
    let root = QuadTreeNode::root(rect(0, 0, 800, 800));
    assert_eq!(root.get_index(&rect(0, 300, 10, 10)), TOP_RIGHT | TOP_LEFT);
    assert_eq!(root.get_index(&rect(5, 300, 10, 10)), TOP_RIGHT | TOP_LEFT);
    assert_eq!(root.get_index(&rect(6, 300, 10, 10)), TOP_RIGHT);
    assert_eq!(root.get_index(&rect(-300, -5, 10, 10)), TOP_LEFT | BOTTOM_LEFT);
    assert_eq!(root.get_index(&rect(-300, -6, 10, 10)), BOTTOM_LEFT);
    assert_eq!(root.get_index(&rect(300, 0, 2, 2)), TOP_RIGHT | BOTTOM_RIGHT);
}

#[test]
fn index_of_a_rectangle_outside_the_bound_is_zero() {
    let root = QuadTreeNode::root(rect(0, 0, 800, 800));
    assert_eq!(root.get_index(&rect(1000, 1000, 10, 10)), 0);
    assert_eq!(root.get_index(&rect(-406, 0, 10, 10)), 0);
    assert_eq!(root.get_index(&rect(-405, 0, 10, 10)), TOP_LEFT | BOTTOM_LEFT);
}

#[test]
fn leaf_takes_members_up_to_its_capacity() {
    let cfg = config(4, 4);
    let mut root = QuadTreeNode::root(cfg.rect);
    for id in 1..=4 {
        root.insert(&handle(id), &rect(-300, -300, 1, 1), &cfg);
    }
    assert!(root.is_leaf());
    assert_eq!(leaf_ids(&root), vec![1, 2, 3, 4]);
    match &root.state {
        NodeState::Leaf(members) => {
            assert_eq!(members[0], Member { entity: handle(1), rect: rect(-300, -300, 1, 1) });
        }
        NodeState::Branch(_) => panic!("expected a leaf"),
    }
}

#[test]
fn fifth_insert_splits_and_members_go_to_their_quadrants() {
    let cfg = config(4, 4);
    let mut root = QuadTreeNode::root(cfg.rect);
    for id in 1..=4 {
        root.insert(&handle(id), &rect(-300, -300, 1, 1), &cfg);
    }
    root.insert(&handle(5), &rect(300, 300, 1, 1), &cfg);
    assert!(!root.is_leaf());
    let [tr, tl, bl, br] = children(&root);
    assert_eq!(leaf_ids(tr), vec![5]);
    assert_eq!(leaf_ids(tl), Vec::<u64>::new());
    assert_eq!(leaf_ids(bl), vec![4, 3, 2, 1]);
    assert_eq!(leaf_ids(br), Vec::<u64>::new());
    assert_eq!(ids(&root), vec![5, 4, 3, 2, 1]);
    assert_eq!(tr.bound, rect(200, 200, 400, 400));
    assert_eq!(bl.bound, rect(-200, -200, 400, 400));
    assert_eq!(bl.depth, 1);
    assert!(is_regular(&root));
}

#[test]
fn fifth_insert_at_the_same_place_keeps_all_five() {
    let cfg = config(4, 4);
    let mut root = QuadTreeNode::root(cfg.rect);
    for id in 1..=5 {
        root.insert(&handle(id), &rect(-300, -300, 1, 1), &cfg);
    }
    assert!(!root.is_leaf());
    let [tr, tl, bl, br] = children(&root);
    assert_eq!(ids(tr), Vec::<u64>::new());
    assert_eq!(ids(tl), Vec::<u64>::new());
    assert_eq!(ids(br), Vec::<u64>::new());
    assert_eq!(sorted_set(ids(bl)), vec![1, 2, 3, 4, 5]);
    assert_eq!(sorted_set(ids(&root)), vec![1, 2, 3, 4, 5]);
    // The five sit on the center of the node at depth 2, so that all four of
    // its children hold them, each in one leaf at the greatest depth.
    assert_eq!(ids(&root).len(), 20);
    let mut overfull = vec![];
    overfull_leaves(&root, 4, &mut overfull);
    assert_eq!(overfull, vec![4, 4, 4, 4]);
    assert!(is_regular(&root));
}

#[test]
fn spanning_member_goes_to_all_four_children() {
    let cfg = config(4, 4);
    let mut root = QuadTreeNode::root(cfg.rect);
    root.insert(&handle(100), &rect(0, 0, 800, 800), &cfg);
    for id in 1..=4 {
        root.insert(&handle(id), &rect(300, 300, 1, 1), &cfg);
    }
    assert!(!root.is_leaf());
    for child in children(&root) {
        assert!(ids(child).contains(&100));
    }
    let [tr, tl, bl, br] = children(&root);
    assert_eq!(leaf_ids(tl), vec![100]);
    assert_eq!(leaf_ids(bl), vec![100]);
    assert_eq!(leaf_ids(br), vec![100]);
    assert_eq!(sorted_set(ids(tr)), vec![1, 2, 3, 4, 100]);
    assert_eq!(sorted_set(ids(&root)), vec![1, 2, 3, 4, 100]);
}

#[test]
fn straddling_member_is_listed_once_for_each_leaf() {
    let cfg = config(4, 1);
    let mut root = QuadTreeNode::root(cfg.rect);
    root.insert(&handle(1), &rect(0, 300, 10, 10), &cfg);
    root.insert(&handle(2), &rect(-300, -300, 10, 10), &cfg);
    let [tr, tl, bl, br] = children(&root);
    assert_eq!(leaf_ids(tr), vec![1]);
    assert_eq!(leaf_ids(tl), vec![1]);
    assert_eq!(leaf_ids(bl), vec![2]);
    assert_eq!(leaf_ids(br), Vec::<u64>::new());
    assert_eq!(ids(&root), vec![1, 1, 2]);
}

#[test]
fn leaf_at_the_greatest_depth_overflows() {
    let cfg = config(0, 2);
    let mut root = QuadTreeNode::root(cfg.rect);
    for id in 1..=5 {
        root.insert(&handle(id), &rect(10, 10, 2, 2), &cfg);
    }
    assert!(root.is_leaf());
    assert_eq!(leaf_ids(&root), vec![1, 2, 3, 4, 5]);
}

#[test]
fn leaves_above_the_greatest_depth_never_exceed_their_capacity() {
    let cfg = config(2, 3);
    let mut root = QuadTreeNode::root(cfg.rect);
    let mut id = 0;
    for x in [-350, -250, -150, -50, 50, 150, 250, 350] {
        for y in [-350, -150, 150, 350] {
            id += 1;
            root.insert(&handle(id), &rect(x, y, 20, 20), &cfg);
        }
    }
    let mut overfull = vec![];
    overfull_leaves(&root, 3, &mut overfull);
    assert!(overfull.iter().all(|depth| *depth == 2));
    assert_eq!(sorted_set(ids(&root)), (1..=32).collect::<Vec<u64>>());
    assert!(is_regular(&root));
}

#[test]
fn capacity_zero_splits_an_empty_leaf() {
    let cfg = config(1, 0);
    let mut root = QuadTreeNode::root(cfg.rect);
    root.insert(&handle(7), &rect(300, 300, 1, 1), &cfg);
    assert!(!root.is_leaf());
    let [tr, tl, bl, br] = children(&root);
    assert_eq!(leaf_ids(tr), vec![7]);
    assert_eq!(leaf_ids(tl), Vec::<u64>::new());
    assert_eq!(leaf_ids(bl), Vec::<u64>::new());
    assert_eq!(leaf_ids(br), Vec::<u64>::new());
}

#[test]
fn branch_does_not_index_a_rectangle_outside_its_bound() {
    let cfg = config(4, 1);
    let mut root = QuadTreeNode::root(cfg.rect);
    root.insert(&handle(1), &rect(300, 300, 1, 1), &cfg);
    root.insert(&handle(2), &rect(-300, 300, 1, 1), &cfg);
    assert!(!root.is_leaf());
    root.insert(&handle(3), &rect(1000, 1000, 10, 10), &cfg);
    assert_eq!(ids(&root), vec![1, 2]);
}

#[test]
fn root_leaf_holds_an_outside_rectangle_until_it_is_split() {
    let cfg = config(4, 4);
    let mut root = QuadTreeNode::root(cfg.rect);
    root.insert(&handle(9), &rect(1000, 1000, 10, 10), &cfg);
    assert_eq!(ids(&root), vec![9]);
    for id in 1..=4 {
        root.insert(&handle(id), &rect(100 * id as i32, 100, 10, 10), &cfg);
    }
    assert!(!root.is_leaf());
    assert_eq!(sorted_set(ids(&root)), vec![1, 2, 3, 4]);
}

#[test]
fn split_hands_members_on_last_first_and_then_the_new_one() {
    let cfg = config(4, 4);
    let mut root = QuadTreeNode::root(cfg.rect);
    root.insert(&handle(1), &rect(300, 300, 1, 1), &cfg);
    root.insert(&handle(2), &rect(300, 200, 1, 1), &cfg);
    root.insert(&handle(3), &rect(-300, 200, 1, 1), &cfg);
    root.split(&handle(4), &rect(200, 300, 1, 1), &cfg);
    let [tr, tl, bl, br] = children(&root);
    assert_eq!(leaf_ids(tr), vec![2, 1, 4]);
    assert_eq!(leaf_ids(tl), vec![3]);
    assert_eq!(leaf_ids(bl), Vec::<u64>::new());
    assert_eq!(leaf_ids(br), Vec::<u64>::new());
    for child in children(&root) {
        assert_eq!(child.depth, 1);
    }
}

#[test]
fn split_of_a_branch_starts_from_four_empty_leaves() {
    let cfg = config(4, 1);
    let mut root = QuadTreeNode::root(cfg.rect);
    root.insert(&handle(1), &rect(300, 300, 1, 1), &cfg);
    root.insert(&handle(2), &rect(-300, 300, 1, 1), &cfg);
    assert!(!root.is_leaf());
    root.split(&handle(3), &rect(-300, -300, 1, 1), &cfg);
    assert_eq!(ids(&root), vec![3]);
}

#[test]
fn around_takes_whole_leaves_of_the_quadrants_touched() {
    let cfg = config(4, 4);
    let mut root = QuadTreeNode::root(cfg.rect);
    for id in 1..=4 {
        root.insert(&handle(id), &rect(-300, -300 + id as i32, 1, 1), &cfg);
    }
    root.insert(&handle(5), &rect(300, 300, 1, 1), &cfg);
    let around = |r: Rect| -> Vec<u64> {
        root.get_around_entity(&r).iter().map(|e| e.id).collect()
    };
    assert_eq!(around(rect(300, 300, 2, 2)), vec![5]);
    assert_eq!(around(rect(10, 10, 2, 2)), vec![5]);
    assert_eq!(around(rect(-10, -10, 2, 2)), vec![4, 3, 2, 1]);
    assert_eq!(around(rect(-300, 300, 2, 2)), Vec::<u64>::new());
    assert_eq!(around(rect(0, 0, 10, 10)), vec![5, 4, 3, 2, 1]);
    assert_eq!(around(rect(1000, 0, 10, 10)), Vec::<u64>::new());
}

#[test]
fn around_a_leaf_is_the_whole_leaf() {
    let cfg = config(4, 4);
    let mut root = QuadTreeNode::root(cfg.rect);
    root.insert(&handle(1), &rect(300, 300, 1, 1), &cfg);
    root.insert(&handle(2), &rect(-300, -300, 1, 1), &cfg);
    let found: Vec<u64> =
        root.get_around_entity(&rect(5000, 5000, 1, 1)).iter().map(|e| e.id).collect();
    assert_eq!(found, vec![1, 2]);
}

#[test]
fn clear_makes_a_branch_an_empty_leaf() {
    let cfg = config(4, 1);
    let mut root = QuadTreeNode::root(cfg.rect);
    root.insert(&handle(1), &rect(300, 300, 1, 1), &cfg);
    root.insert(&handle(2), &rect(-300, 300, 1, 1), &cfg);
    assert!(!root.is_leaf());
    root.clear();
    assert!(root.is_leaf());
    assert_eq!(ids(&root), Vec::<u64>::new());
    assert_eq!(root.bound, cfg.rect);
    assert_eq!(root.depth, 0);
}

#[test]
fn clear_leaves_a_leaf_as_it_is() {
    let cfg = config(4, 4);
    let mut root = QuadTreeNode::root(cfg.rect);
    root.insert(&handle(1), &rect(300, 300, 1, 1), &cfg);
    root.clear();
    assert_eq!(leaf_ids(&root), vec![1]);
}

#[test]
fn clone_is_equal_and_independent() {
    let cfg = config(4, 1);
    let mut root = QuadTreeNode::root(cfg.rect);
    root.insert(&handle(1), &rect(300, 300, 1, 1), &cfg);
    root.insert(&handle(2), &rect(-300, 300, 1, 1), &cfg);
    let copy = root.clone();
    assert_eq!(copy, root);
    root.insert(&handle(3), &rect(-300, -300, 1, 1), &cfg);
    assert_ne!(copy, root);
    assert_eq!(ids(&copy), vec![1, 2]);
}

#[test]
fn insertion_order_does_not_change_who_is_in_the_tree() {
    let cfg = config(3, 2);
    let spots = [(-300, -300), (-310, -290), (300, 300), (0, 0), (120, -80), (-5, 200)];
    let mut forward = QuadTreeNode::root(cfg.rect);
    let mut backward = QuadTreeNode::root(cfg.rect);
    for (i, (x, y)) in spots.iter().enumerate() {
        forward.insert(&handle(i as u64), &rect(*x, *y, 12, 12), &cfg);
    }
    for (i, (x, y)) in spots.iter().enumerate().rev() {
        backward.insert(&handle(i as u64), &rect(*x, *y, 12, 12), &cfg);
    }
    assert_eq!(sorted_set(ids(&forward)), vec![0, 1, 2, 3, 4, 5]);
    assert_eq!(sorted_set(ids(&backward)), vec![0, 1, 2, 3, 4, 5]);
}

#[test]
fn a_member_is_found_around_its_own_rectangle() {
    let cfg = config(3, 2);
    let mut root = QuadTreeNode::root(cfg.rect);
    let spots = [(-300, -300), (-310, -290), (300, 300), (0, 0), (120, -80), (-5, 200), (399, 1)];
    for (i, (x, y)) in spots.iter().enumerate() {
        root.insert(&handle(i as u64), &rect(*x, *y, 12, 12), &cfg);
    }
    for (i, (x, y)) in spots.iter().enumerate() {
        let found = root.get_around_entity(&rect(*x, *y, 12, 12));
        assert!(found.contains(&handle(i as u64)));
        for e in &found {
            assert!(root.get_all_entities().contains(e));
        }
    }
}

#[test]
fn split_above_the_greatest_depth_stays_within_capacity() {
    let cfg = config(2, 2);
    let mut root = QuadTreeNode::root(cfg.rect);
    root.insert(&handle(1), &rect(300, 300, 2, 2), &cfg);
    root.insert(&handle(2), &rect(310, 310, 2, 2), &cfg);
    root.split(&handle(3), &rect(320, 320, 2, 2), &cfg);
    let mut overfull = vec![];
    overfull_leaves(&root, 2, &mut overfull);
    assert_eq!(overfull, vec![2]);
    assert_eq!(sorted_set(ids(&root)), vec![1, 2, 3]);
    assert!(is_regular(&root));
}
