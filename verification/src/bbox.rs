use vstd::prelude::*;
use crate::vec2::Vec2;

verus! {

/// An axis-aligned box given by its corner pair. The box is half-open: it
/// holds the points `p` with `min.x <= p.x < max.x` and `min.y <= p.y < max.y`,
/// so two boxes that only share an edge do not intersect.
#[derive(Clone, Copy, PartialEq, Eq, Structural, Debug)]
pub struct Box2d {
    pub min: Vec2,
    pub max: Vec2,
}

impl Box2d {
    /// The corner pair is ordered; this is the non-negative half-extent
    /// invariant of the corner representation.
    pub open spec fn wf(self) -> bool {
        &&& self.min.x <= self.max.x
        &&& self.min.y <= self.max.y
    }

    /// Both corners lie within `k` in magnitude.
    pub open spec fn within(self, k: int) -> bool {
        &&& self.min.within(k)
        &&& self.max.within(k)
    }

    /// The point `(px, py)` lies in the box.
    pub open spec fn contains_spec(self, px: int, py: int) -> bool {
        &&& self.min.x <= px < self.max.x
        &&& self.min.y <= py < self.max.y
    }

    /// The two boxes share at least one point.
    pub open spec fn intersects_spec(self, o: Box2d) -> bool {
        &&& self.min.x < o.max.x
        &&& o.min.x < self.max.x
        &&& self.min.y < o.max.y
        &&& o.min.y < self.max.y
    }

    /// Build a box from a center and a non-negative half-extent.
    pub fn new(center: Vec2, half: Vec2) -> (r: Box2d)
        requires
            half.x >= 0,
            half.y >= 0,
            i64::MIN <= center.x - half.x,
            center.x + half.x <= i64::MAX,
            i64::MIN <= center.y - half.y,
            center.y + half.y <= i64::MAX,
        ensures
            r.min.x == center.x - half.x,
            r.min.y == center.y - half.y,
            r.max.x == center.x + half.x,
            r.max.y == center.y + half.y,
            r.wf(),
    {
        Box2d {
            min: Vec2 { x: center.x - half.x, y: center.y - half.y },
            max: Vec2 { x: center.x + half.x, y: center.y + half.y },
        }
    }

    /// Point membership test.
    pub fn contains(&self, p: Vec2) -> (r: bool)
        ensures
            r == self.contains_spec(p.x as int, p.y as int),
    {
        self.min.x <= p.x && p.x < self.max.x && self.min.y <= p.y && p.y < self.max.y
    }

    /// Box overlap test.
    pub fn intersects(&self, o: &Box2d) -> (r: bool)
        ensures
            r == self.intersects_spec(*o),
    {
        self.min.x < o.max.x && o.min.x < self.max.x && self.min.y < o.max.y && o.min.y < self.max.y
    }
}

/// Two boxes holding a common point intersect.
pub proof fn lemma_common_point_intersects(a: Box2d, b: Box2d, px: int, py: int)
    requires
        a.contains_spec(px, py),
        b.contains_spec(px, py),
    ensures
        a.intersects_spec(b),
{
}

} // verus!
