//! The recursive subdivision: one triangle, then three half-size children.

use crate::color::{generate_color, Color};
use crate::geometry::{child_origin, fits, half, lemma_child_fits, place_child, vertices, Point, Size};
use crate::surface::{PathOp, Surface};
use vstd::arithmetic::power::{lemma_pow1, pow};
use vstd::prelude::*;

verus! {

/// The operations that draw one triangle: outline the three corners,
/// stroke, then fill with `color`.
pub open spec fn triangle_path(origin: Point, extent: Size, color: Color) -> Seq<PathOp> {
    let (left, right, apex) = vertices(origin, extent);
    seq![
        PathOp::BeginPath,
        PathOp::MoveTo(left),
        PathOp::LineTo(right),
        PathOp::LineTo(apex),
        PathOp::ClosePath,
        PathOp::Stroke,
        PathOp::SetFillStyle(color),
        PathOp::Fill,
    ]
}

/// How many triangles a rendering of `depth` draws: the root, and three
/// renderings one level shallower.
pub open spec fn triangle_count(depth: nat) -> nat
    decreases depth,
{
    if depth == 0 {
        1
    } else {
        1 + 3 * triangle_count((depth - 1) as nat)
    }
}

/// How many operations a rendering of `depth` holds: eight for each triangle.
pub open spec fn rendering_len(depth: nat) -> int {
    8 * (triangle_count(depth) as int)
}

/// `ops` is a rendering of `depth` levels below the triangle at `origin`:
/// that triangle's path, then, where `depth` is not zero, the renderings of
/// its three children in slot order. The children have half the extent, and
/// one sampled colour between them.
pub open spec fn is_rendering(
    ops: Seq<PathOp>,
    origin: Point,
    extent: Size,
    color: Color,
    depth: nat,
) -> bool
    decreases depth,
{
    if depth == 0 {
        ops == triangle_path(origin, extent, color)
    } else {
        let n = rendering_len((depth - 1) as nat);
        let inner = half(extent);
        &&& ops.len() == 8 + 3 * n
        &&& ops.subrange(0, 8) == triangle_path(origin, extent, color)
        &&& exists|shade: Color|
            {
                &&& #[trigger] shade.is_sampled()
                &&& is_rendering(
                    ops.subrange(8, 8 + n),
                    child_origin(origin, inner, 0),
                    inner,
                    shade,
                    (depth - 1) as nat,
                )
                &&& is_rendering(
                    ops.subrange(8 + n, 8 + 2 * n),
                    child_origin(origin, inner, 1),
                    inner,
                    shade,
                    (depth - 1) as nat,
                )
                &&& is_rendering(
                    ops.subrange(8 + 2 * n, 8 + 3 * n),
                    child_origin(origin, inner, 2),
                    inner,
                    shade,
                    (depth - 1) as nat,
                )
            }
    }
}

/// The operations below the root triangle that belong to the child in
/// `slot`.
pub open spec fn child_ops(ops: Seq<PathOp>, depth: nat, slot: int) -> Seq<PathOp> {
    let n = rendering_len((depth - 1) as nat);
    ops.subrange(8 + slot * n, 8 + (slot + 1) * n)
}

/// How many fills `ops` holds. Each triangle is filled once, so this is the
/// number of triangles drawn.
pub open spec fn fill_count(ops: Seq<PathOp>) -> nat
    decreases ops.len(),
{
    if ops.len() == 0 {
        0
    } else {
        fill_count(ops.drop_last()) + if ops.last() == PathOp::Fill {
            1nat
        } else {
            0nat
        }
    }
}

proof fn lemma_fill_count_push(ops: Seq<PathOp>, op: PathOp)
    ensures
        fill_count(ops.push(op)) == fill_count(ops) + if op == PathOp::Fill {
            1nat
        } else {
            0nat
        },
{
    assert(ops.push(op).drop_last() =~= ops);
}

/// Fills add up over concatenation.
pub proof fn lemma_fill_count_add(a: Seq<PathOp>, b: Seq<PathOp>)
    ensures
        fill_count(a + b) == fill_count(a) + fill_count(b),
    decreases b.len(),
{
    if b.len() == 0 {
        assert(a + b =~= a);
    } else {
        lemma_fill_count_add(a, b.drop_last());
        assert((a + b).drop_last() =~= a + b.drop_last());
    }
}

/// One triangle's path holds one fill.
pub proof fn lemma_triangle_path_fills(origin: Point, extent: Size, color: Color)
    ensures
        fill_count(triangle_path(origin, extent, color)) == 1,
{
    let path = triangle_path(origin, extent, color);
    let p0 = Seq::<PathOp>::empty();
    let p1 = p0.push(path[0]);
    let p2 = p1.push(path[1]);
    let p3 = p2.push(path[2]);
    let p4 = p3.push(path[3]);
    let p5 = p4.push(path[4]);
    let p6 = p5.push(path[5]);
    let p7 = p6.push(path[6]);
    let p8 = p7.push(path[7]);
    lemma_fill_count_push(p0, path[0]);
    lemma_fill_count_push(p1, path[1]);
    lemma_fill_count_push(p2, path[2]);
    lemma_fill_count_push(p3, path[3]);
    lemma_fill_count_push(p4, path[4]);
    lemma_fill_count_push(p5, path[5]);
    lemma_fill_count_push(p6, path[6]);
    lemma_fill_count_push(p7, path[7]);
    assert(p8 =~= path);
}

/// The closed form of [`triangle_count`]: `(3^(depth + 1) - 1) / 2`.
pub proof fn lemma_triangle_count_closed_form(depth: nat)
    ensures
        2 * triangle_count(depth) + 1 == pow(3, depth + 1),
        triangle_count(depth) == (pow(3, depth + 1) - 1) / 2,
    decreases depth,
{
    reveal(pow);
    if depth == 0 {
        lemma_pow1(3);
    } else {
        lemma_triangle_count_closed_form((depth - 1) as nat);
        assert(pow(3, depth + 1) == 3 * pow(3, depth));
    }
}

/// A rendering of `depth` draws `(3^(depth + 1) - 1) / 2` triangles.
pub proof fn lemma_rendering_draws(
    ops: Seq<PathOp>,
    origin: Point,
    extent: Size,
    color: Color,
    depth: nat,
)
    requires
        is_rendering(ops, origin, extent, color, depth),
    ensures
        fill_count(ops) == triangle_count(depth),
        fill_count(ops) == (pow(3, depth + 1) - 1) / 2,
        ops.len() == 8 * fill_count(ops),
    decreases depth,
{
    lemma_triangle_count_closed_form(depth);
    lemma_rendering_len(ops, origin, extent, color, depth);
    lemma_triangle_path_fills(origin, extent, color);
    if depth > 0 {
        let below = (depth - 1) as nat;
        let n = rendering_len(below);
        let inner = half(extent);
        let own = ops.subrange(0, 8);
        let r0 = ops.subrange(8, 8 + n);
        let r1 = ops.subrange(8 + n, 8 + 2 * n);
        let r2 = ops.subrange(8 + 2 * n, 8 + 3 * n);
        let shade = choose|shade: Color|
            {
                &&& #[trigger] shade.is_sampled()
                &&& is_rendering(r0, child_origin(origin, inner, 0), inner, shade, below)
                &&& is_rendering(r1, child_origin(origin, inner, 1), inner, shade, below)
                &&& is_rendering(r2, child_origin(origin, inner, 2), inner, shade, below)
            };
        lemma_rendering_draws(r0, child_origin(origin, inner, 0), inner, shade, below);
        lemma_rendering_draws(r1, child_origin(origin, inner, 1), inner, shade, below);
        lemma_rendering_draws(r2, child_origin(origin, inner, 2), inner, shade, below);
        assert(ops =~= own + r0 + r1 + r2);
        lemma_fill_count_add(own, r0);
        lemma_fill_count_add(own + r0, r1);
        lemma_fill_count_add(own + r0 + r1, r2);
    }
}

/// Below a triangle that is not terminal stand three renderings, one for
/// each slot and one level shallower. Each has exactly the halved extent and
/// its slot's origin, and the three are drawn in one sampled colour.
pub proof fn lemma_rendering_children(
    ops: Seq<PathOp>,
    origin: Point,
    extent: Size,
    color: Color,
    depth: nat,
)
    requires
        is_rendering(ops, origin, extent, color, depth),
        depth > 0,
    ensures
        ops.subrange(0, 8) == triangle_path(origin, extent, color),
        exists|shade: Color|
            {
                &&& #[trigger] shade.is_sampled()
                &&& forall|slot: int|
                    0 <= slot < 3 ==> is_rendering(
                        #[trigger] child_ops(ops, depth, slot),
                        child_origin(origin, half(extent), slot),
                        half(extent),
                        shade,
                        (depth - 1) as nat,
                    )
            },
{
    let below = (depth - 1) as nat;
    let n = rendering_len(below);
    let inner = half(extent);
    let shade = choose|shade: Color|
        {
            &&& #[trigger] shade.is_sampled()
            &&& is_rendering(ops.subrange(8, 8 + n), child_origin(origin, inner, 0), inner, shade, below)
            &&& is_rendering(
                ops.subrange(8 + n, 8 + 2 * n),
                child_origin(origin, inner, 1),
                inner,
                shade,
                below,
            )
            &&& is_rendering(
                ops.subrange(8 + 2 * n, 8 + 3 * n),
                child_origin(origin, inner, 2),
                inner,
                shade,
                below,
            )
        };
    assert(child_ops(ops, depth, 0) == ops.subrange(8, 8 + n));
    assert(child_ops(ops, depth, 1) == ops.subrange(8 + n, 8 + 2 * n));
    assert(child_ops(ops, depth, 2) == ops.subrange(8 + 2 * n, 8 + 3 * n));
    assert(shade.is_sampled());
}

/// A rendering holds eight operations for each of its triangles.
pub proof fn lemma_rendering_len(
    ops: Seq<PathOp>,
    origin: Point,
    extent: Size,
    color: Color,
    depth: nat,
)
    requires
        is_rendering(ops, origin, extent, color, depth),
    ensures
        ops.len() == rendering_len(depth),
    decreases depth,
{
}

/// Draws the triangle in the box of `extent` at `origin`: base along
/// `origin.y`, apex above its middle. The outline is stroked, then filled
/// with `color`.
pub fn draw_triangle(surface: &mut Surface, origin: &Point, extent: &Size, color: Color)
    requires
        fits(*origin, *extent),
    ensures
        final(surface)@ == old(surface)@ + triangle_path(*origin, *extent, color),
{
    surface.issue(PathOp::BeginPath);
    surface.issue(PathOp::MoveTo(*origin));
    surface.issue(PathOp::LineTo(Point { x: origin.x + extent.width, y: origin.y }));
    surface.issue(
        PathOp::LineTo(Point { x: origin.x + extent.width / 2, y: origin.y - extent.height }),
    );
    surface.issue(PathOp::ClosePath);
    surface.issue(PathOp::Stroke);
    surface.issue(PathOp::SetFillStyle(color));
    surface.issue(PathOp::Fill);
    assert(surface@ =~= old(surface)@ + triangle_path(*origin, *extent, color));
}

/// Draws the triangle at `origin`, then, while `levels` remain, three
/// half-size children: bottom left, bottom right, top. The children of one
/// triangle share a freshly sampled colour.
pub fn draw_sierpinski_triangle(
    surface: &mut Surface,
    origin: &Point,
    extent: &Size,
    color: Color,
    levels: u8,
)
    requires
        fits(*origin, *extent),
    ensures
        old(surface)@.is_prefix_of(final(surface)@),
        is_rendering(
            final(surface)@.skip(old(surface)@.len() as int),
            *origin,
            *extent,
            color,
            levels as nat,
        ),
        levels == 0 ==> final(surface)@ == old(surface)@ + triangle_path(*origin, *extent, color),
        fill_count(final(surface)@) == fill_count(old(surface)@) + triangle_count(levels as nat),
    decreases levels,
{
    draw_triangle(surface, origin, extent, color);
    let ghost own = triangle_path(*origin, *extent, color);
    let ghost before = old(surface)@;
    assert((before + own).skip(before.len() as int) =~= own);
    proof {
        lemma_fill_count_add(before, own);
        lemma_triangle_path_fills(*origin, *extent, color);
    }
    if levels > 0 {
        let inner = extent.halved();
        let shade = generate_color();
        proof {
            lemma_child_fits(*origin, *extent, 0);
            lemma_child_fits(*origin, *extent, 1);
            lemma_child_fits(*origin, *extent, 2);
        }
        let ghost s0 = surface@;
        let first = place_child(origin, &inner, 0);
        draw_sierpinski_triangle(surface, &first, &inner, shade, levels - 1);
        let ghost s1 = surface@;
        let second = place_child(origin, &inner, 1);
        draw_sierpinski_triangle(surface, &second, &inner, shade, levels - 1);
        let ghost s2 = surface@;
        let third = place_child(origin, &inner, 2);
        draw_sierpinski_triangle(surface, &third, &inner, shade, levels - 1);
        proof {
            let s3 = surface@;
            let below = (levels - 1) as nat;
            let n = rendering_len(below);
            let r0 = s1.skip(s0.len() as int);
            let r1 = s2.skip(s1.len() as int);
            let r2 = s3.skip(s2.len() as int);
            lemma_rendering_len(r0, first, inner, shade, below);
            lemma_rendering_len(r1, second, inner, shade, below);
            lemma_rendering_len(r2, third, inner, shade, below);
            let drawn = s3.skip(before.len() as int);
            assert(s0.len() == before.len() + 8);
            assert(s1.len() == s0.len() + n);
            assert(s2.len() == s1.len() + n);
            assert(s3.len() == s2.len() + n);
            assert(drawn.subrange(0, 8) =~= own);
            assert(drawn.subrange(8, 8 + n) =~= r0);
            assert(drawn.subrange(8 + n, 8 + 2 * n) =~= r1);
            assert(drawn.subrange(8 + 2 * n, 8 + 3 * n) =~= r2);
            assert(before.is_prefix_of(s0));
            assert(before.is_prefix_of(s1));
            assert(before.is_prefix_of(s2));
            assert(before.is_prefix_of(s3));
        }
    }
}

} // verus!
