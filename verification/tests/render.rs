use sierpinski::color::Color;
use sierpinski::geometry::{Point, Size};
use sierpinski::render::{draw_sierpinski_triangle, draw_triangle};
use sierpinski::surface::{PathOp, Surface};

fn fills(surface: &Surface) -> usize {
    surface.ops.iter().filter(|op| **op == PathOp::Fill).count()
}

fn rendered(levels: u8) -> Surface {
    let mut surface = Surface::new();
    let origin = Point { x: 100, y: 850 };
    let extent = Size::new(800);
    draw_sierpinski_triangle(&mut surface, &origin, &extent, Color::new(0, 0, 0), levels);
    surface
}

fn fill_of(surface: &Surface, triangle: usize) -> Color {
    match surface.ops[8 * triangle + 6] {
        PathOp::SetFillStyle(c) => c,
        _ => panic!("no fill style at that place"),
    }
}

#[test]
fn new_surface_is_empty() {
    assert!(Surface::new().ops.is_empty());
}

#[test]
fn issue_appends_in_order() {
    let mut surface = Surface::new();
    surface.issue(PathOp::BeginPath);
    surface.issue(PathOp::Fill);
    assert_eq!(surface.ops, vec![PathOp::BeginPath, PathOp::Fill]);
}

#[test]
fn triangle_is_outlined_stroked_then_filled() {
    let mut surface = Surface::new();
    let color = Color::new(1, 2, 3);
    draw_triangle(&mut surface, &Point { x: 300, y: 300 }, &Size::new(300), color);
    assert_eq!(
        surface.ops,
        vec![
            PathOp::BeginPath,
            PathOp::MoveTo(Point { x: 300, y: 300 }),
            PathOp::LineTo(Point { x: 600, y: 300 }),
            PathOp::LineTo(Point { x: 450, y: 0 }),
            PathOp::ClosePath,
            PathOp::Stroke,
            PathOp::SetFillStyle(color),
            PathOp::Fill,
        ]
    );
}

#[test]
fn triangle_keeps_what_was_drawn_before() {
    let mut surface = Surface::new();
    surface.issue(PathOp::Stroke);
    draw_triangle(&mut surface, &Point { x: 0, y: 0 }, &Size { width: 4, height: 6 }, Color::new(9, 9, 9));
    assert_eq!(surface.ops.len(), 9);
    assert_eq!(surface.ops[0], PathOp::Stroke);
    assert_eq!(surface.ops[4], PathOp::LineTo(Point { x: 2, y: -6 }));
}

#[test]
fn depth_zero_draws_one_triangle() {
    let surface = rendered(0);
    assert_eq!(fills(&surface), 1);
    let mut alone = Surface::new();
    draw_triangle(&mut alone, &Point { x: 100, y: 850 }, &Size::new(800), Color::new(0, 0, 0));
    assert_eq!(surface.ops, alone.ops);
}

#[test]
fn depth_one_draws_four_triangles() {
    assert_eq!(fills(&rendered(1)), 4);
}

#[test]
fn depth_two_draws_thirteen_triangles() {
    assert_eq!(fills(&rendered(2)), 13);
}

#[test]
fn triangle_count_follows_the_closed_form() {
    let mut depth: u8 = 0;
    let mut power: usize = 3;
    while depth <= 7 {
        let surface = rendered(depth);
        assert_eq!(fills(&surface), (power - 1) / 2);
        assert_eq!(surface.ops.len(), 8 * fills(&surface));
        power *= 3;
        depth += 1;
    }
}

#[test]
fn end_to_end_depth_two() {
    let surface = rendered(2);
    assert_eq!(fills(&surface), 13);
    assert_eq!(surface.ops.len(), 104);
    assert_eq!(surface.ops[0], PathOp::BeginPath);
    assert_eq!(surface.ops[1], PathOp::MoveTo(Point { x: 100, y: 850 }));
    assert_eq!(surface.ops[2], PathOp::LineTo(Point { x: 900, y: 850 }));
    assert_eq!(surface.ops[3], PathOp::LineTo(Point { x: 500, y: 50 }));
    assert_eq!(fill_of(&surface, 0), Color::new(0, 0, 0));
    assert_eq!(fill_of(&surface, 0).to_hex(), "#000000");
    let mut triangle: usize = 0;
    while triangle < 13 {
        let at = 8 * triangle;
        assert_eq!(surface.ops[at], PathOp::BeginPath);
        assert!(matches!(surface.ops[at + 1], PathOp::MoveTo(_)));
        assert!(matches!(surface.ops[at + 2], PathOp::LineTo(_)));
        assert!(matches!(surface.ops[at + 3], PathOp::LineTo(_)));
        assert_eq!(surface.ops[at + 4], PathOp::ClosePath);
        assert_eq!(surface.ops[at + 5], PathOp::Stroke);
        assert!(matches!(surface.ops[at + 6], PathOp::SetFillStyle(_)));
        assert_eq!(surface.ops[at + 7], PathOp::Fill);
        triangle += 1;
    }
}

#[test]
fn children_are_half_size_at_the_three_corners() {
    let surface = rendered(1);
    // bottom left
    assert_eq!(surface.ops[9], PathOp::MoveTo(Point { x: 100, y: 850 }));
    assert_eq!(surface.ops[10], PathOp::LineTo(Point { x: 500, y: 850 }));
    assert_eq!(surface.ops[11], PathOp::LineTo(Point { x: 300, y: 450 }));
    // bottom right
    assert_eq!(surface.ops[17], PathOp::MoveTo(Point { x: 500, y: 850 }));
    assert_eq!(surface.ops[18], PathOp::LineTo(Point { x: 900, y: 850 }));
    assert_eq!(surface.ops[19], PathOp::LineTo(Point { x: 700, y: 450 }));
    // top
    assert_eq!(surface.ops[25], PathOp::MoveTo(Point { x: 300, y: 450 }));
    assert_eq!(surface.ops[26], PathOp::LineTo(Point { x: 700, y: 450 }));
    assert_eq!(surface.ops[27], PathOp::LineTo(Point { x: 500, y: 50 }));
}

#[test]
fn grandchildren_follow_their_parent_in_slot_order() {
    let surface = rendered(2);
    // triangle 1 is the bottom-left child, triangles 2 to 4 its children
    assert_eq!(surface.ops[8 + 1], PathOp::MoveTo(Point { x: 100, y: 850 }));
    assert_eq!(surface.ops[16 + 1], PathOp::MoveTo(Point { x: 100, y: 850 }));
    assert_eq!(surface.ops[16 + 2], PathOp::LineTo(Point { x: 300, y: 850 }));
    assert_eq!(surface.ops[24 + 1], PathOp::MoveTo(Point { x: 300, y: 850 }));
    assert_eq!(surface.ops[32 + 1], PathOp::MoveTo(Point { x: 200, y: 650 }));
    assert_eq!(surface.ops[32 + 3], PathOp::LineTo(Point { x: 300, y: 450 }));
    // triangle 5 is the bottom-right child, triangle 9 the top child
    assert_eq!(surface.ops[40 + 1], PathOp::MoveTo(Point { x: 500, y: 850 }));
    assert_eq!(surface.ops[72 + 1], PathOp::MoveTo(Point { x: 300, y: 450 }));
}

#[test]
fn siblings_share_one_sampled_color() {
    let surface = rendered(2);
    let level_one = fill_of(&surface, 1);
    assert_eq!(fill_of(&surface, 5), level_one);
    assert_eq!(fill_of(&surface, 9), level_one);
    for parent in [1usize, 5, 9] {
        let shade = fill_of(&surface, parent + 1);
        assert_eq!(fill_of(&surface, parent + 2), shade);
        assert_eq!(fill_of(&surface, parent + 3), shade);
        assert!(shade.red < 255 && shade.green < 255 && shade.blue < 255);
    }
}

#[test]
fn rendering_appends_to_what_was_drawn() {
    let mut surface = Surface::new();
    surface.issue(PathOp::ClosePath);
    draw_sierpinski_triangle(&mut surface, &Point { x: 0, y: 0 }, &Size::new(16), Color::new(5, 6, 7), 1);
    assert_eq!(surface.ops.len(), 1 + 32);
    assert_eq!(surface.ops[0], PathOp::ClosePath);
    assert_eq!(surface.ops[1], PathOp::BeginPath);
    assert_eq!(fills(&surface), 4);
}

#[test]
fn odd_sides_round_down_at_each_level() {
    let mut surface = Surface::new();
    draw_sierpinski_triangle(&mut surface, &Point { x: 0, y: 0 }, &Size::new(5), Color::new(0, 0, 0), 1);
    assert_eq!(surface.ops[3], PathOp::LineTo(Point { x: 2, y: -5 }));
    assert_eq!(surface.ops[16 + 1], PathOp::MoveTo(Point { x: 2, y: 0 }));
    assert_eq!(surface.ops[16 + 2], PathOp::LineTo(Point { x: 4, y: 0 }));
    assert_eq!(surface.ops[24 + 1], PathOp::MoveTo(Point { x: 1, y: -2 }));
}

#[test]
fn deepest_level_terminates() {
    let mut surface = Surface::new();
    draw_sierpinski_triangle(&mut surface, &Point { x: 0, y: 0 }, &Size::new(1 << 20), Color::new(0, 0, 0), 9);
    assert_eq!(fills(&surface), 29524);
}
