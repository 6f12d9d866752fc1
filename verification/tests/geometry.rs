use sierpinski::geometry::{check_fits, place_child, Point, Size};

#[test]
fn new_size_is_square() {
    let s = Size::new(100);
    assert_eq!(s.width, 100);
    assert_eq!(s.height, 100);
}

#[test]
fn halved_is_half_of_each_side() {
    let s = Size { width: 800, height: 600 }.halved();
    assert_eq!(s, Size { width: 400, height: 300 });
}

#[test]
fn halved_rounds_odd_sides_down() {
    let s = Size { width: 5, height: 7 }.halved();
    assert_eq!(s, Size { width: 2, height: 3 });
    assert_eq!(Size::new(1).halved(), Size::new(0));
    assert_eq!(Size::new(0).halved(), Size::new(0));
}

#[test]
fn children_stand_at_the_three_corners() {
    let origin = Point { x: 100, y: 850 };
    let inner = Size::new(400);
    assert_eq!(place_child(&origin, &inner, 0), Point { x: 100, y: 850 });
    assert_eq!(place_child(&origin, &inner, 1), Point { x: 500, y: 850 });
    assert_eq!(place_child(&origin, &inner, 2), Point { x: 300, y: 450 });
}

#[test]
fn any_later_slot_is_the_top_child() {
    let origin = Point { x: -10, y: -20 };
    let inner = Size { width: 8, height: 6 };
    assert_eq!(place_child(&origin, &inner, 7), Point { x: -6, y: -26 });
    assert_eq!(place_child(&origin, &inner, 255), place_child(&origin, &inner, 2));
}

#[test]
fn fits_accepts_boxes_on_the_grid() {
    assert!(check_fits(&Point { x: 100, y: 850 }, &Size::new(800)));
    assert!(check_fits(&Point { x: 0, y: 0 }, &Size::new(0)));
    assert!(check_fits(&Point { x: i64::MAX - 5, y: i64::MIN + 5 }, &Size::new(5)));
    assert!(check_fits(&Point { x: i64::MIN, y: i64::MAX }, &Size::new(i64::MAX)));
}

#[test]
fn fits_rejects_negative_sides() {
    assert!(!check_fits(&Point { x: 0, y: 0 }, &Size { width: -1, height: 4 }));
    assert!(!check_fits(&Point { x: 0, y: 0 }, &Size { width: 4, height: -1 }));
}

#[test]
fn fits_rejects_boxes_past_the_edge_of_the_grid() {
    assert!(!check_fits(&Point { x: i64::MAX, y: 0 }, &Size { width: 1, height: 0 }));
    assert!(!check_fits(&Point { x: 0, y: i64::MIN }, &Size { width: 0, height: 1 }));
    assert!(!check_fits(&Point { x: i64::MAX - 5, y: 0 }, &Size::new(6)));
}
