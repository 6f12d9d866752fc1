//! A drawing surface that records the path operations issued to it.

use crate::color::Color;
use crate::geometry::Point;
use vstd::prelude::*;

verus! {

/// One operation of a 2D path-drawing context.
#[derive(Clone, Copy, Debug, PartialEq, Eq, Structural)]
pub enum PathOp {
    BeginPath,
    MoveTo(Point),
    LineTo(Point),
    ClosePath,
    Stroke,
    SetFillStyle(Color),
    Fill,
}

/// The operations issued so far, oldest first.
pub struct Surface {
    pub ops: Vec<PathOp>,
}

impl View for Surface {
    type V = Seq<PathOp>;

    open spec fn view(&self) -> Seq<PathOp> {
        self.ops@
    }
}

impl Surface {
    /// A surface on which nothing has been drawn.
    pub fn new() -> (s: Surface)
        ensures
            s@ == Seq::<PathOp>::empty(),
    {
        Surface { ops: Vec::new() }
    }

    /// Issues one operation.
    pub fn issue(&mut self, op: PathOp)
        ensures
            final(self)@ == old(self)@.push(op),
    {
        self.ops.push(op);
    }
}

} // verus!
