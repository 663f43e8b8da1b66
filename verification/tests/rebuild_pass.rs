use quadtree::rect::{Point, Rect};
use quadtree::system::{
    check_collision_with_root, draw_node, draw_quadtree_nodes, merge_nodes, note, release,
    sweep_leaf, update_node, update_quadtree, Bounce, EntityStore, Heading,
};
use quadtree::tree::node::{EntityHandle, Member, NodeState, QuadTreeConfig, QuadTreeNode};
use quadtree::tree::QuadTree;

fn rect(x: i32, y: i32, width: u32, height: u32) -> Rect {
    Rect::new(Point::new(x, y), width, height)
}

fn config(max_depth: u8, max_entities: u8) -> QuadTreeConfig {
    QuadTreeConfig { rect: rect(0, 0, 800, 800), max_depth, max_entities }
}

fn handle(id: u64) -> EntityHandle {
    EntityHandle { id }
}

fn member(id: u64, r: Rect) -> Member {
    Member { entity: handle(id), rect: r }
}

fn ids(node: &QuadTreeNode) -> Vec<u64> {
    node.get_all_entities().iter().map(|e| e.id).collect()
}

fn sorted_set(mut ids: Vec<u64>) -> Vec<u64> {
    ids.sort();
    ids.dedup();
    ids
}

fn leaf_ids(node: &QuadTreeNode) -> Vec<u64> {
    match &node.state {
        NodeState::Leaf(members) => members.iter().map(|m| m.entity.id).collect(),
        NodeState::Branch(_) => panic!("expected a leaf"),
    }
}

fn children(node: &QuadTreeNode) -> [&QuadTreeNode; 4] {
    match &node.state {
        NodeState::Branch(c) => [&*c.top_right, &*c.top_left, &*c.bottom_left, &*c.bottom_right],
        NodeState::Leaf(_) => panic!("expected a branch"),
    }
}

/// Objects 1 to 4 in the bottom left quarter and object 5 in the top right
/// one, in a tree that the fifth insertion has split, and their store.
fn five() -> (QuadTree, EntityStore) {
    let mut tree = QuadTree::new(config(4, 4));
    let mut store = EntityStore::new();
    let spots = [(1, -300, -300), (2, -100, -300), (3, -300, -100), (4, -100, -100), (5, 300, 300)];
    for (id, x, y) in spots {
        let r = rect(x, y, 10, 10);
        store.insert(handle(id), r);
        let cfg = tree.config;
        tree.root.insert(&handle(id), &r, &cfg);
    }
    (tree, store)
}

#[test]
fn store_answers_with_the_last_rectangle_or_nothing() {
    let mut store = EntityStore::new();
    assert_eq!(store.get(&handle(1)), None);
    store.insert(handle(1), rect(1, 2, 3, 4));
    store.insert(handle(2), rect(5, 6, 7, 8));
    assert_eq!(store.get(&handle(1)), Some(rect(1, 2, 3, 4)));
    store.insert(handle(1), rect(9, 9, 9, 9));
    assert_eq!(store.get(&handle(1)), Some(rect(9, 9, 9, 9)));
    store.remove(&handle(1));
    assert_eq!(store.get(&handle(1)), None);
    assert_eq!(store.get(&handle(2)), Some(rect(5, 6, 7, 8)));
    store.remove(&handle(3));
    assert_eq!(store.get(&handle(2)), Some(rect(5, 6, 7, 8)));
}

#[test]
fn the_five_are_split_as_expected() {
    let (tree, _) = five();
    let [tr, tl, bl, br] = children(&tree.root);
    assert_eq!(leaf_ids(tr), vec![5]);
    assert_eq!(leaf_ids(tl), Vec::<u64>::new());
    assert_eq!(leaf_ids(bl), vec![4, 3, 2, 1]);
    assert_eq!(leaf_ids(br), Vec::<u64>::new());
}

#[test]
fn note_appends_a_new_handle_only() {
    let mut displaced = vec![];
    note(&mut displaced, member(1, rect(0, 0, 1, 1)));
    note(&mut displaced, member(2, rect(5, 5, 1, 1)));
    note(&mut displaced, member(1, rect(9, 9, 1, 1)));
    assert_eq!(displaced, vec![member(1, rect(0, 0, 1, 1)), member(2, rect(5, 5, 1, 1))]);
}

#[test]
fn sweep_drops_the_destroyed_and_notes_those_that_left() {
    let bound = rect(0, 0, 100, 100);
    let mut members = vec![
        member(1, rect(0, 0, 10, 10)),
        member(2, rect(10, 10, 10, 10)),
        member(3, rect(20, 20, 10, 10)),
        member(4, rect(30, 30, 10, 10)),
    ];
    let mut store = EntityStore::new();
    store.insert(handle(1), rect(1, 1, 10, 10));
    store.insert(handle(2), rect(200, 10, 10, 10));
    store.insert(handle(4), rect(46, 30, 10, 10));
    let mut displaced = vec![];
    sweep_leaf(&bound, &mut members, &store, &mut displaced);
    assert_eq!(members, vec![member(1, rect(1, 1, 10, 10))]);
    assert_eq!(
        displaced,
        vec![member(2, rect(200, 10, 10, 10)), member(4, rect(46, 30, 10, 10))]
    );
}

#[test]
fn sweep_keeps_a_member_that_touches_the_edge_from_inside() {
    let bound = rect(0, 0, 100, 100);
    let mut members = vec![member(1, rect(0, 0, 10, 10))];
    let mut store = EntityStore::new();
    store.insert(handle(1), rect(45, -45, 10, 10));
    let mut displaced = vec![];
    sweep_leaf(&bound, &mut members, &store, &mut displaced);
    assert_eq!(members, vec![member(1, rect(45, -45, 10, 10))]);
    assert_eq!(displaced, vec![]);
}

#[test]
fn release_notes_the_living_in_their_order() {
    let mut store = EntityStore::new();
    store.insert(handle(1), rect(1, 1, 1, 1));
    store.insert(handle(3), rect(3, 3, 3, 3));
    let mut displaced = vec![member(3, rect(3, 3, 3, 3))];
    release(&vec![handle(1), handle(2), handle(3), handle(1)], &store, &mut displaced);
    assert_eq!(displaced, vec![member(3, rect(3, 3, 3, 3)), member(1, rect(1, 1, 1, 1))]);
}

#[test]
fn destroyed_object_is_in_no_leaf_after_the_rebuild() {
    let (mut tree, mut store) = five();
    store.remove(&handle(3));
    update_quadtree(&mut tree, &store);
    assert!(!ids(&tree.root).contains(&3));
    assert_eq!(sorted_set(ids(&tree.root)), vec![1, 2, 4, 5]);
}

#[test]
fn removal_traversal_leaves_the_branches_standing() {
    let (mut tree, mut store) = five();
    store.remove(&handle(1));
    store.insert(handle(5), rect(300, -300, 10, 10));
    let cfg = tree.config;
    let mut displaced = vec![];
    update_node(&mut tree.root, &store, &mut displaced);
    let [tr, tl, bl, br] = children(&tree.root);
    assert_eq!(leaf_ids(tr), Vec::<u64>::new());
    assert_eq!(leaf_ids(tl), Vec::<u64>::new());
    assert_eq!(leaf_ids(bl), vec![4, 3, 2]);
    assert_eq!(leaf_ids(br), Vec::<u64>::new());
    assert_eq!(displaced, vec![member(5, rect(300, -300, 10, 10))]);
}

#[test]
fn merge_collapses_a_branch_that_holds_no_more_than_a_leaf_may() {
    let (mut tree, mut store) = five();
    store.remove(&handle(1));
    store.remove(&handle(2));
    let cfg = tree.config;
    let mut displaced = vec![];
    update_node(&mut tree.root, &store, &mut displaced);
    assert_eq!(displaced, vec![]);
    merge_nodes(&mut tree.root, &cfg, &store, &mut displaced);
    assert!(tree.root.is_leaf());
    assert_eq!(leaf_ids(&tree.root), Vec::<u64>::new());
    let noted: Vec<u64> = displaced.iter().map(|m| m.entity.id).collect();
    assert_eq!(noted, vec![5, 4, 3]);
}

#[test]
fn merge_leaves_a_branch_that_holds_more() {
    let (mut tree, store) = five();
    let before = tree.root.clone();
    let cfg = tree.config;
    let mut displaced = vec![];
    merge_nodes(&mut tree.root, &cfg, &store, &mut displaced);
    assert_eq!(tree.root, before);
    assert_eq!(displaced, vec![]);
}

#[test]
fn merge_counts_a_handle_once_for_each_leaf_that_holds_it() {
    // Three objects over the center line: six entries under the root, which
    // is more than the four that a leaf may hold, so the branch stays.
    let cfg = config(4, 4);
    let mut tree = QuadTree::new(cfg);
    let mut store = EntityStore::new();
    for id in 1..=3 {
        let r = rect(0, 100 * id as i32, 20, 20);
        store.insert(handle(id), r);
        tree.root.insert(&handle(id), &r, &cfg);
    }
    tree.root.split(&handle(4), &rect(-300, -300, 10, 10), &cfg);
    store.remove(&handle(4));
    assert_eq!(ids(&tree.root).len(), 7);
    let mut displaced = vec![];
    merge_nodes(&mut tree.root, &cfg, &store, &mut displaced);
    assert!(!tree.root.is_leaf());
    assert_eq!(displaced, vec![]);
}

#[test]
fn merge_does_not_note_a_destroyed_object() {
    let (mut tree, mut store) = five();
    store.remove(&handle(1));
    let cfg = tree.config;
    let mut displaced = vec![];
    update_node(&mut tree.root, &store, &mut displaced);
    store.remove(&handle(2));
    merge_nodes(&mut tree.root, &cfg, &store, &mut displaced);
    assert!(tree.root.is_leaf());
    let noted: Vec<u64> = displaced.iter().map(|m| m.entity.id).collect();
    assert_eq!(noted, vec![5, 4, 3]);
}

#[test]
fn rebuild_collapses_and_inserts_again_last_first() {
    let (mut tree, mut store) = five();
    store.remove(&handle(1));
    store.remove(&handle(2));
    update_quadtree(&mut tree, &store);
    assert!(tree.root.is_leaf());
    assert_eq!(leaf_ids(&tree.root), vec![3, 4, 5]);
}

#[test]
fn rebuild_moves_an_object_that_left_its_leaf() {
    let (mut tree, mut store) = five();
    store.insert(handle(5), rect(300, -300, 10, 10));
    update_quadtree(&mut tree, &store);
    let [tr, tl, bl, br] = children(&tree.root);
    assert_eq!(leaf_ids(tr), Vec::<u64>::new());
    assert_eq!(leaf_ids(tl), Vec::<u64>::new());
    assert_eq!(leaf_ids(bl), vec![4, 3, 2, 1]);
    assert_eq!(leaf_ids(br), vec![5]);
    assert_eq!(tree.config.max_entities, 4);
}

#[test]
fn rebuild_gives_a_kept_member_its_rectangle_of_this_tick() {
    let (mut tree, mut store) = five();
    store.insert(handle(5), rect(310, 290, 10, 10));
    update_quadtree(&mut tree, &store);
    let [tr, _, _, _] = children(&tree.root);
    match &tr.state {
        NodeState::Leaf(members) => assert_eq!(members, &vec![member(5, rect(310, 290, 10, 10))]),
        NodeState::Branch(_) => panic!("expected a leaf"),
    }
}

#[test]
fn rebuild_loses_no_living_object_inside_the_root() {
    let cfg = config(3, 2);
    let mut tree = QuadTree::new(cfg);
    let mut store = EntityStore::new();
    for id in 0..40u64 {
        let r = rect(-390 + 19 * id as i32, 380 - 17 * id as i32, 16, 12);
        store.insert(handle(id), r);
        tree.root.insert(&handle(id), &r, &cfg);
    }
    for tick in 1..6 {
        for id in 0..40u64 {
            let x = -380 + ((37 * id as i32 + 91 * tick) % 760);
            let y = -380 + ((53 * id as i32 + 29 * tick) % 760);
            store.insert(handle(id), rect(x, y, 16, 12));
        }
        update_quadtree(&mut tree, &store);
        assert_eq!(sorted_set(ids(&tree.root)), (0..40).collect::<Vec<u64>>());
    }
    for id in 0..20u64 {
        store.remove(&handle(2 * id));
    }
    update_quadtree(&mut tree, &store);
    assert_eq!(sorted_set(ids(&tree.root)), (0..20).map(|i| 2 * i + 1).collect::<Vec<u64>>());
}

#[test]
fn rebuild_of_a_tree_at_rest_changes_nothing() {
    let (mut tree, store) = five();
    update_quadtree(&mut tree, &store);
    let once = tree.root.clone();
    update_quadtree(&mut tree, &store);
    assert_eq!(tree.root, once);
    let [tr, _, bl, _] = children(&tree.root);
    assert_eq!(leaf_ids(tr), vec![5]);
    assert_eq!(leaf_ids(bl), vec![4, 3, 2, 1]);
}

#[test]
fn rebuild_drops_an_object_that_left_the_root_of_a_branch() {
    let (mut tree, mut store) = five();
    store.insert(handle(6), rect(100, 100, 10, 10));
    let cfg = tree.config;
    tree.root.insert(&handle(6), &rect(100, 100, 10, 10), &cfg);
    store.insert(handle(5), rect(2000, 2000, 10, 10));
    update_quadtree(&mut tree, &store);
    assert!(!tree.root.is_leaf());
    assert_eq!(sorted_set(ids(&tree.root)), vec![1, 2, 3, 4, 6]);
    assert_eq!(store.get(&handle(5)), Some(rect(2000, 2000, 10, 10)));
}

#[test]
fn heading_turns_an_object_back_into_the_root() {
    let root = rect(0, 0, 800, 800);
    let keep = Bounce { x: Heading::Keep, y: Heading::Keep };
    assert_eq!(check_collision_with_root(&rect(0, 0, 10, 10), &root), keep);
    assert_eq!(check_collision_with_root(&rect(395, -395, 10, 10), &root), keep);
    assert_eq!(
        check_collision_with_root(&rect(396, 0, 10, 10), &root),
        Bounce { x: Heading::Backward, y: Heading::Keep }
    );
    assert_eq!(
        check_collision_with_root(&rect(-396, 0, 10, 10), &root),
        Bounce { x: Heading::Forward, y: Heading::Keep }
    );
    assert_eq!(
        check_collision_with_root(&rect(0, 396, 10, 10), &root),
        Bounce { x: Heading::Keep, y: Heading::Backward }
    );
    assert_eq!(
        check_collision_with_root(&rect(-500, -500, 10, 10), &root),
        Bounce { x: Heading::Forward, y: Heading::Forward }
    );
}

#[test]
fn heading_is_forward_for_an_object_wider_than_the_root() {
    let root = rect(0, 0, 100, 100);
    assert_eq!(
        check_collision_with_root(&rect(0, 0, 300, 10), &root),
        Bounce { x: Heading::Forward, y: Heading::Keep }
    );
}

#[test]
fn drawing_visits_each_parent_before_its_children() {
    let (tree, _) = five();
    assert_eq!(
        draw_quadtree_nodes(&tree),
        vec![
            rect(0, 0, 800, 800),
            rect(200, 200, 400, 400),
            rect(-200, 200, 400, 400),
            rect(-200, -200, 400, 400),
            rect(200, -200, 400, 400),
        ]
    );
    let fresh = QuadTree::new(config(4, 4));
    assert_eq!(draw_quadtree_nodes(&fresh), vec![rect(0, 0, 800, 800)]);
}

#[test]
fn draw_node_adds_to_what_is_there() {
    let (tree, _) = five();
    let mut bounds = vec![rect(1, 1, 1, 1)];
    let [tr, _, _, _] = children(&tree.root);
    draw_node(tr, &mut bounds);
    assert_eq!(bounds, vec![rect(1, 1, 1, 1), rect(200, 200, 400, 400)]);
}
