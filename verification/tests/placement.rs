use quadtree::rect::{Point, Rect};
use quadtree::setup::random_rect;

fn rect(x: i32, y: i32, width: u32, height: u32) -> Rect {
    Rect::new(Point::new(x, y), width, height)
}

#[test]
fn random_rect_lies_where_it_was_asked_for() {
    let root = rect(100, -50, 800, 400);
    for _ in 0..500 {
        let r = random_rect(&root, 5, 10);
        assert!(-300 <= r.center.x && r.center.x <= 500);
        assert!(-250 <= r.center.y && r.center.y <= 150);
        assert!(5 <= r.width && r.width <= 10);
        assert!(5 <= r.height && r.height <= 10);
        assert!(root.intersects(&r));
    }
}

#[test]
fn random_rect_takes_the_only_value_of_a_range_of_one() {
    let root = rect(7, -9, 1, 0);
    let r = random_rect(&root, 3, 3);
    assert_eq!(r, rect(7, -9, 3, 3));
}

#[test]
fn random_rect_does_not_repeat_one_value() {
    let root = rect(0, 0, 800, 800);
    let first = random_rect(&root, 5, 10);
    let mut other_center = false;
    let mut other_extent = false;
    for _ in 0..500 {
        let r = random_rect(&root, 5, 10);
        other_center = other_center || r.center != first.center;
        other_extent = other_extent || r.width != first.width || r.height != first.height;
    }
    assert!(other_center);
    assert!(other_extent);
}

#[test]
fn random_rect_stays_in_the_coordinates_of_a_root_out_of_range() {
    let root = rect(i32::MAX, i32::MAX, 1000, 1000);
    for _ in 0..100 {
        let r = random_rect(&root, 0, 0);
        assert!(r.center.x >= i32::MAX - 500);
        assert!(r.center.y >= i32::MAX - 500);
        assert_eq!((r.width, r.height), (0, 0));
    }
}
