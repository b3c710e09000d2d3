//! Axis-aligned rectangles and the test for their overlap.
use crate::single::model::Val;
use crate::single::repr::Single;
use vstd::prelude::*;

verus! {

/// An axis-aligned rectangle: its top-left corner and its size. Static
/// geometry and the actor's box are both of this type.
#[derive(Copy, Clone, Debug)]
pub struct Rect {
    pub x: Single,
    pub y: Single,
    pub w: Single,
    pub h: Single,
}

/// A rectangle as four numbers of the model.
pub struct RectV {
    pub x: Val,
    pub y: Val,
    pub w: Val,
    pub h: Val,
}

impl View for Rect {
    type V = RectV;

    open spec fn view(&self) -> RectV {
        RectV { x: self.x@, y: self.y@, w: self.w@, h: self.h@ }
    }
}

impl Rect {
    /// The box `from` after it was moved: of the same size, bit for bit, and
    /// at a place whose bit patterns are canonical if those of `from` are.
    pub open spec fn carries(self, from: Rect) -> bool {
        &&& self.w == from.w && self.h == from.h
        &&& from.x.canonical() ==> self.x.canonical()
        &&& from.y.canonical() ==> self.y.canonical()
    }
}

impl DeepView for Rect {
    type V = RectV;

    open spec fn deep_view(&self) -> RectV {
        self@
    }
}

impl Default for Rect {
    fn default() -> (r: Rect)
        ensures
            r@ == (RectV { x: Val::zero(), y: Val::zero(), w: Val::zero(), h: Val::zero() }),
    {
        Rect {
            x: Single::zero(false),
            y: Single::zero(false),
            w: Single::zero(false),
            h: Single::zero(false),
        }
    }
}

/// On both axes each of `a` and `b` begins before the other ends, strictly.
/// Rectangles that only touch do not overlap. There is no special case for a
/// rectangle without area: it overlaps neither itself nor what it touches,
/// and it does overlap a rectangle that it lies strictly inside.
pub open spec fn overlaps(a: RectV, b: RectV) -> bool {
    &&& a.x.lt(b.x.add(b.w))
    &&& a.x.add(a.w).gt(b.x)
    &&& a.y.lt(b.y.add(b.h))
    &&& a.y.add(a.h).gt(b.y)
}

/// Whether the interiors of `a` and `b` meet.
pub fn rects_intersect(a: &Rect, b: &Rect) -> (r: bool)
    ensures
        r == overlaps(a@, b@),
{
    a.x.lt(b.x.add(b.w)) && a.x.add(a.w).gt(b.x) && a.y.lt(b.y.add(b.h)) && a.y.add(a.h).gt(b.y)
}

} // verus!
