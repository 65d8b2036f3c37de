use vstd::prelude::*;

verus! {

/// An axis-aligned rectangle `[min_x, max_x] × [min_y, max_y]` in world units.
#[derive(Debug, Clone, Copy, PartialEq, Eq, Structural)]
pub struct Rect {
    pub min_x: i64,
    pub min_y: i64,
    pub max_x: i64,
    pub max_y: i64,
}

/// The open interiors of `a` and `b` meet on both axes.
pub open spec fn overlaps(a: Rect, b: Rect) -> bool {
    a.min_x < b.max_x && b.min_x < a.max_x && a.min_y < b.max_y && b.min_y < a.max_y
}

/// `inner` lies within `outer`, edges included.
pub open spec fn encloses(outer: Rect, inner: Rect) -> bool {
    outer.min_x <= inner.min_x && inner.max_x <= outer.max_x && outer.min_y <= inner.min_y
        && inner.max_y <= outer.max_y
}

/// A rectangle stored inside a region that misses `q` misses `q` too.
pub proof fn lemma_enclosed_misses(outer: Rect, inner: Rect, q: Rect)
    requires
        encloses(outer, inner),
        !overlaps(outer, q),
    ensures
        !overlaps(inner, q),
{
}

impl Rect {
    pub fn new(min_x: i64, min_y: i64, max_x: i64, max_y: i64) -> (r: Rect)
        ensures
            r == (Rect { min_x, min_y, max_x, max_y }),
    {
        Rect { min_x, min_y, max_x, max_y }
    }

    pub fn overlaps(&self, other: &Rect) -> (r: bool)
        ensures
            r == overlaps(*self, *other),
    {
        self.min_x < other.max_x && other.min_x < self.max_x && self.min_y < other.max_y
            && other.min_y < self.max_y
    }

    pub fn encloses(&self, inner: &Rect) -> (r: bool)
        ensures
            r == encloses(*self, *inner),
    {
        self.min_x <= inner.min_x && inner.max_x <= self.max_x && self.min_y <= inner.min_y
            && inner.max_y <= self.max_y
    }
}

} // verus!
