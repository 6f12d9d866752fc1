//! The same subdivision, one triangle at a time: a stack of triangles still
//! to be drawn, for hosts that draw each triangle as it is handed out.

use crate::color::{generate_color, Color};
use crate::geometry::{child_origin, fits, half, lemma_child_fits, place_child, Point, Size};
use crate::render::{
    is_rendering, lemma_rendering_len, rendering_len, triangle_count, triangle_path,
};
use crate::render::draw_triangle;
use crate::surface::{PathOp, Surface};
use vstd::prelude::*;

verus! {

/// A triangle still to be drawn, and the levels to draw below it.
#[derive(Clone, Copy, Debug, PartialEq, Eq, Structural)]
pub struct Frame {
    pub origin: Point,
    pub extent: Size,
    pub color: Color,
    pub levels: u8,
}

/// The child of `parent` in `slot`, drawn in `shade`.
pub open spec fn child_frame(parent: Frame, shade: Color, slot: int) -> Frame {
    Frame {
        origin: child_origin(parent.origin, half(parent.extent), slot),
        extent: half(parent.extent),
        color: shade,
        levels: (parent.levels - 1) as u8,
    }
}

/// The stack after its top has been drawn: the top is gone, and where it
/// had levels left its three children stand in its place, slot 0 on top.
pub open spec fn after_top(pending: Seq<Frame>, shade: Color) -> Seq<Frame> {
    let top = pending.last();
    let rest = pending.drop_last();
    if top.levels == 0 {
        rest
    } else {
        rest.push(child_frame(top, shade, 2)).push(child_frame(top, shade, 1)).push(
            child_frame(top, shade, 0),
        )
    }
}

/// How many triangles are still to be drawn for the frames of `pending`.
pub open spec fn remaining(pending: Seq<Frame>) -> nat
    decreases pending.len(),
{
    if pending.len() == 0 {
        0
    } else {
        remaining(pending.drop_last()) + triangle_count(pending.last().levels as nat)
    }
}

/// Pushing a frame adds the triangles at and below it.
pub proof fn lemma_remaining_push(pending: Seq<Frame>, frame: Frame)
    ensures
        remaining(pending.push(frame)) == remaining(pending) + triangle_count(frame.levels as nat),
{
    assert(pending.push(frame).drop_last() =~= pending);
}

/// Drawing the top of a stack leaves exactly one triangle fewer to draw,
/// whatever colour its children get.
pub proof fn lemma_remaining_after_top(pending: Seq<Frame>, shade: Color)
    requires
        pending.len() > 0,
    ensures
        remaining(after_top(pending, shade)) + 1 == remaining(pending),
{
    let top = pending.last();
    let rest = pending.drop_last();
    if top.levels > 0 {
        let c2 = child_frame(top, shade, 2);
        let c1 = child_frame(top, shade, 1);
        let c0 = child_frame(top, shade, 0);
        lemma_remaining_push(rest, c2);
        lemma_remaining_push(rest.push(c2), c1);
        lemma_remaining_push(rest.push(c2).push(c1), c0);
    }
}

/// `ops` draws the frames of `pending`, the last of them first: a rendering
/// of each frame with the levels below it, one after the other.
pub open spec fn draws_pending(ops: Seq<PathOp>, pending: Seq<Frame>) -> bool
    decreases pending.len(),
{
    if pending.len() == 0 {
        ops.len() == 0
    } else {
        let top = pending.last();
        let k = rendering_len(top.levels as nat);
        &&& k <= ops.len()
        &&& is_rendering(ops.subrange(0, k), top.origin, top.extent, top.color, top.levels as nat)
        &&& draws_pending(ops.skip(k), pending.drop_last())
    }
}

/// To draw a stack of one frame is to render that frame.
pub proof fn lemma_draws_root(ops: Seq<PathOp>, root: Frame)
    ensures
        draws_pending(ops, seq![root]) <==> is_rendering(
            ops,
            root.origin,
            root.extent,
            root.color,
            root.levels as nat,
        ),
{
    let pending = seq![root];
    let k = rendering_len(root.levels as nat);
    assert(pending.last() == root);
    assert(pending.drop_last().len() == 0);
    if draws_pending(ops, pending) {
        assert(draws_pending(ops.skip(k), pending.drop_last()));
        assert(ops.skip(k).len() == 0);
        assert(ops.subrange(0, k) =~= ops);
    }
    if is_rendering(ops, root.origin, root.extent, root.color, root.levels as nat) {
        lemma_rendering_len(ops, root.origin, root.extent, root.color, root.levels as nat);
        assert(ops.subrange(0, k) =~= ops);
        assert(draws_pending(ops.skip(k), pending.drop_last()));
    }
}

/// One step of the walk is one step of the recursion: the path of the
/// triangle on top, followed by operations that draw the stack left after
/// it, draws the stack as it was.
pub proof fn lemma_step_draws(pending: Seq<Frame>, shade: Color, ops: Seq<PathOp>)
    requires
        pending.len() > 0,
        shade.is_sampled(),
        draws_pending(ops, after_top(pending, shade)),
    ensures
        draws_pending(
            triangle_path(pending.last().origin, pending.last().extent, pending.last().color) + ops,
            pending,
        ),
{
    let top = pending.last();
    let rest = pending.drop_last();
    let path = triangle_path(top.origin, top.extent, top.color);
    let all = path + ops;
    let k = rendering_len(top.levels as nat);
    if top.levels == 0 {
        assert(all.subrange(0, k) =~= path);
        assert(all.skip(k) =~= ops);
    } else {
        let below = (top.levels - 1) as nat;
        let n = rendering_len(below);
        let c2 = child_frame(top, shade, 2);
        let c1 = child_frame(top, shade, 1);
        let c0 = child_frame(top, shade, 0);
        let after = after_top(pending, shade);
        let after1 = rest.push(c2).push(c1);
        let after2 = rest.push(c2);
        assert(after.last() == c0 && after.drop_last() =~= after1);
        assert(after1.last() == c1 && after1.drop_last() =~= after2);
        assert(after2.last() == c2 && after2.drop_last() =~= rest);
        let ops1 = ops.skip(n);
        let ops2 = ops1.skip(n);
        let ops3 = ops2.skip(n);
        assert(draws_pending(ops1, after1));
        assert(draws_pending(ops2, after2));
        assert(draws_pending(ops3, rest));
        let own = all.subrange(0, k);
        assert(k == 8 + 3 * n);
        assert(own.subrange(0, 8) =~= path);
        assert(own.subrange(8, 8 + n) =~= ops.subrange(0, n));
        assert(own.subrange(8 + n, 8 + 2 * n) =~= ops1.subrange(0, n));
        assert(own.subrange(8 + 2 * n, 8 + 3 * n) =~= ops2.subrange(0, n));
        assert(all.skip(k) =~= ops3);
        assert(is_rendering(own, top.origin, top.extent, top.color, top.levels as nat));
    }
}

/// The triangles still to be drawn, the next one last.
pub struct Walk {
    pub pending: Vec<Frame>,
}

impl Walk {
    /// Every pending frame fits the grid.
    pub open spec fn wf(&self) -> bool {
        forall|i: int|
            0 <= i < self.pending@.len() ==> fits(
                (#[trigger] self.pending@[i]).origin,
                self.pending@[i].extent,
            )
    }

    /// A walk that draws the triangle at `origin` and `levels` levels below
    /// it.
    pub fn new(origin: Point, extent: Size, color: Color, levels: u8) -> (w: Walk)
        requires
            fits(origin, extent),
        ensures
            w.wf(),
            w.pending@ == seq![(Frame { origin, extent, color, levels })],
            remaining(w.pending@) == triangle_count(levels as nat),
    {
        let mut pending = Vec::new();
        pending.push(Frame { origin, extent, color, levels });
        proof {
            assert(pending@ =~= seq![(Frame { origin, extent, color, levels })]);
            lemma_remaining_push(Seq::empty(), Frame { origin, extent, color, levels });
            assert(pending@ =~= Seq::<Frame>::empty().push(Frame { origin, extent, color, levels }));
        }
        Walk { pending }
    }

    /// Whether every triangle has been handed out.
    pub fn is_done(&self) -> (done: bool)
        ensures
            done == (self.pending@.len() == 0),
    {
        self.pending.len() == 0
    }

    /// Whether the next triangle has levels below it, so that handing it
    /// out queues children.
    pub fn next_has_children(&self) -> (yes: bool)
        ensures
            yes == (self.pending@.len() > 0 && self.pending@.last().levels > 0),
    {
        let n = self.pending.len();
        n > 0 && self.pending[n - 1].levels > 0
    }

    /// Hands out the next triangle to draw, or `None` when all are drawn.
    /// Where the triangle has levels left, its three children are queued
    /// behind it in the colour `shade`, the child in slot 0 next; where it
    /// has none, `shade` is not used.
    pub fn advance_with(&mut self, shade: Color) -> (next: Option<Frame>)
        requires
            old(self).wf(),
        ensures
            final(self).wf(),
            old(self).pending@.len() == 0 ==> next.is_none() && final(self).pending@ == old(
                self,
            ).pending@,
            old(self).pending@.len() > 0 ==> {
                &&& next == Some(old(self).pending@.last())
                &&& final(self).pending@ == after_top(old(self).pending@, shade)
                &&& remaining(final(self).pending@) + 1 == remaining(old(self).pending@)
            },
    {
        match self.pending.pop() {
            None => None,
            Some(top) => {
                if top.levels > 0 {
                    let inner = top.extent.halved();
                    proof {
                        lemma_child_fits(top.origin, top.extent, 0);
                        lemma_child_fits(top.origin, top.extent, 1);
                        lemma_child_fits(top.origin, top.extent, 2);
                    }
                    let below = top.levels - 1;
                    let third = place_child(&top.origin, &inner, 2);
                    let second = place_child(&top.origin, &inner, 1);
                    let first = place_child(&top.origin, &inner, 0);
                    self.pending.push(
                        Frame { origin: third, extent: inner, color: shade, levels: below },
                    );
                    self.pending.push(
                        Frame { origin: second, extent: inner, color: shade, levels: below },
                    );
                    self.pending.push(
                        Frame { origin: first, extent: inner, color: shade, levels: below },
                    );
                }
                proof {
                    assert(self.pending@ =~= after_top(old(self).pending@, shade));
                    lemma_remaining_after_top(old(self).pending@, shade);
                }
                Some(top)
            },
        }
    }

    /// Hands out the next triangle to draw, or `None` when all are drawn.
    /// Where the triangle has levels left, a colour is sampled for its
    /// three children, which are queued as by [`Walk::advance_with`].
    pub fn advance(&mut self) -> (next: Option<Frame>)
        requires
            old(self).wf(),
        ensures
            final(self).wf(),
            old(self).pending@.len() == 0 ==> next.is_none() && final(self).pending@ == old(
                self,
            ).pending@,
            old(self).pending@.len() > 0 ==> {
                &&& next == Some(old(self).pending@.last())
                &&& exists|shade: Color|
                    #[trigger] shade.is_sampled() && final(self).pending@ == after_top(
                        old(self).pending@,
                        shade,
                    )
                &&& remaining(final(self).pending@) + 1 == remaining(old(self).pending@)
            },
    {
        let shade = if self.next_has_children() {
            generate_color()
        } else {
            Color::new(0, 0, 0)
        };
        assert(shade.is_sampled());
        self.advance_with(shade)
    }
}

/// Draws what [`crate::render::draw_sierpinski_triangle`] draws, in the
/// same order, by a walk in place of the recursion.
pub fn draw_by_walk(
    surface: &mut Surface,
    origin: &Point,
    extent: &Size,
    color: Color,
    levels: u8,
)
    requires
        fits(*origin, *extent),
    ensures
        old(surface)@.is_prefix_of(final(surface)@),
        is_rendering(
            final(surface)@.skip(old(surface)@.len() as int),
            *origin,
            *extent,
            color,
            levels as nat,
        ),
{
    let mut walk = Walk::new(*origin, *extent, color, levels);
    let ghost before = surface@;
    let ghost root = Frame { origin: *origin, extent: *extent, color, levels };
    proof {
        assert(surface@.skip(before.len() as int) =~= Seq::<PathOp>::empty());
        assert forall|rest: Seq<PathOp>| #[trigger]
            draws_pending(rest, walk.pending@) implies draws_pending(
            surface@.skip(before.len() as int) + rest,
            seq![root],
        ) by {
            assert(surface@.skip(before.len() as int) + rest =~= rest);
        }
    }
    while !walk.is_done()
        invariant
            walk.wf(),
            before.is_prefix_of(surface@),
            forall|rest: Seq<PathOp>| #[trigger]
                draws_pending(rest, walk.pending@) ==> draws_pending(
                    surface@.skip(before.len() as int) + rest,
                    seq![root],
                ),
        decreases remaining(walk.pending@),
    {
        let ghost pending = walk.pending@;
        let ghost drawn = surface@.skip(before.len() as int);
        let next = walk.advance();
        if let Some(frame) = next {
            assert(frame == pending[pending.len() - 1]);
            draw_triangle(surface, &frame.origin, &frame.extent, frame.color);
            proof {
                let shade = choose|shade: Color| #[trigger]
                    shade.is_sampled() && walk.pending@ == after_top(pending, shade);
                let path = triangle_path(frame.origin, frame.extent, frame.color);
                assert forall|rest: Seq<PathOp>| #[trigger]
                    draws_pending(rest, walk.pending@) implies draws_pending(
                    surface@.skip(before.len() as int) + rest,
                    seq![root],
                ) by {
                    lemma_step_draws(pending, shade, rest);
                    assert(surface@.skip(before.len() as int) + rest =~= drawn + (path + rest));
                }
            }
        }
    }
    proof {
        let drawn = surface@.skip(before.len() as int);
        assert(draws_pending(Seq::<PathOp>::empty(), walk.pending@));
        assert(drawn + Seq::<PathOp>::empty() =~= drawn);
        lemma_draws_root(drawn, root);
    }
}

} // verus!
