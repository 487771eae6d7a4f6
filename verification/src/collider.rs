use vstd::prelude::*;
use crate::sat::{
    has_sep_axis, mtv_valid, pts_within, sat_mtv, world_pts, world_vec, Mtv,
};
use crate::vec2::{div_trunc, tdiv, Vec2, INDEX_LIMIT, SHAPE_LIMIT};
use crate::world::Transform;

verus! {

/// A sequence holds no element twice.
pub open spec fn no_dup(s: Seq<usize>) -> bool {
    forall|i: int, j: int| 0 <= i < j < s.len() ==> s[i] != s[j]
}

/// A convex polygon shape with its collision metadata.
///
/// `points` are the local-space vertices, wound consistently so that
/// `points[i] -> points[(i + 1) % n]` are the edges. `layers` are the
/// category tags the shape belongs to; `ignore` the tags it never collides
/// with even when the layers match. A ghost shape records overlaps but is
/// never pushed apart. `boundary` is the half-extent of the broad-phase
/// query box built around the shape's position. `collisions` lists the other
/// entities this shape overlapped with during the current physics tick.
#[derive(Clone, Debug)]
pub struct Collider {
    pub points: Vec<Vec2>,
    pub collisions: Vec<usize>,
    pub active: bool,
    pub layers: Vec<u32>,
    pub ignore: Vec<u32>,
    pub is_ghost: bool,
    pub boundary: i64,
}

/// The metadata of the two colliders agrees; only the recorded collisions
/// may differ.
pub open spec fn meta_eq(a: Collider, b: Collider) -> bool {
    &&& a.points@ == b.points@
    &&& a.layers@ == b.layers@
    &&& a.ignore@ == b.ignore@
    &&& a.is_ghost == b.is_ghost
    &&& a.boundary == b.boundary
    &&& a.active == b.active
}

impl Collider {
    /// At least three vertices, all within the shape coordinate range, a
    /// non-negative bounded broad-phase radius, and no duplicate recorded
    /// collision.
    pub open spec fn wf(self) -> bool {
        &&& self.points@.len() >= 3
        &&& pts_within(self.points@, SHAPE_LIMIT as int)
        &&& 0 <= self.boundary <= SHAPE_LIMIT
        &&& no_dup(self.collisions@)
    }

    /// Build a collider from its polygon and metadata. A polygon needs at
    /// least three vertices; fewer is a caller contract violation, refused
    /// here rather than letting the separating-axis test answer nonsense.
    pub fn new(
        points: Vec<Vec2>,
        layers: Vec<u32>,
        ignore: Vec<u32>,
        is_ghost: bool,
        boundary: i64,
        active: bool,
    ) -> (c: Collider)
        requires
            points@.len() >= 3,
            pts_within(points@, SHAPE_LIMIT as int),
            0 <= boundary <= SHAPE_LIMIT,
        ensures
            c.points@ == points@,
            c.layers@ == layers@,
            c.ignore@ == ignore@,
            c.is_ghost == is_ghost,
            c.boundary == boundary,
            c.active == active,
            c.collisions@ == Seq::<usize>::empty(),
            c.wf(),
    {
        let c = Collider {
            points,
            collisions: Vec::new(),
            active,
            layers,
            ignore,
            is_ghost,
            boundary,
        };
        proof {
            assert(c.collisions@ =~= Seq::<usize>::empty());
        }
        c
    }

    /// An axis-aligned rectangle of the given dimensions centered on the
    /// local origin, solid, on the default tag 0 layer, with a broad-phase
    /// radius of twice the larger half-extent (so two rectangles of the same
    /// size always see each other as candidates).
    pub fn rect(dims: Vec2, active: bool) -> (c: Collider)
        requires
            0 <= dims.x <= SHAPE_LIMIT,
            0 <= dims.y <= SHAPE_LIMIT,
        ensures
            c.wf(),
            c.active == active,
            c.is_ghost == false,
            c.layers@ == seq![0u32],
            c.ignore@ == Seq::<u32>::empty(),
            c.collisions@ == Seq::<usize>::empty(),
            c.points@.len() == 4,
            c.points@[0] == (Vec2 {
                x: (-tdiv(dims.x as int, 2)) as i64,
                y: (-tdiv(dims.y as int, 2)) as i64,
            }),
            c.points@[1] == (Vec2 {
                x: (-tdiv(dims.x as int, 2)) as i64,
                y: tdiv(dims.y as int, 2) as i64,
            }),
            c.points@[2] == (Vec2 {
                x: tdiv(dims.x as int, 2) as i64,
                y: tdiv(dims.y as int, 2) as i64,
            }),
            c.points@[3] == (Vec2 {
                x: tdiv(dims.x as int, 2) as i64,
                y: (-tdiv(dims.y as int, 2)) as i64,
            }),
            c.boundary == 2 * max_half(dims),
    {
        let hx = div_trunc(dims.x, 2);
        let hy = div_trunc(dims.y, 2);
        let mut points: Vec<Vec2> = Vec::new();
        points.push(Vec2 { x: -hx, y: -hy });
        points.push(Vec2 { x: -hx, y: hy });
        points.push(Vec2 { x: hx, y: hy });
        points.push(Vec2 { x: hx, y: -hy });
        let mut layers: Vec<u32> = Vec::new();
        layers.push(0);
        let boundary = if hx >= hy {
            2 * hx
        } else {
            2 * hy
        };
        proof {
            assert(layers@ =~= seq![0u32]);
        }
        Collider::new(points, layers, Vec::new(), false, boundary, active)
    }

    /// A copy of the shape and its metadata, with an empty collision list:
    /// what a detection pass snapshots per entity before it starts moving
    /// things.
    pub fn snapshot(&self) -> (r: Collider)
        ensures
            meta_eq(*self, r),
            r.collisions@ == Seq::<usize>::empty(),
            self.wf() ==> r.wf(),
    {
        let r = Collider {
            points: copy_points(&self.points),
            collisions: Vec::new(),
            active: self.active,
            layers: copy_tags(&self.layers),
            ignore: copy_tags(&self.ignore),
            is_ghost: self.is_ghost,
            boundary: self.boundary,
        };
        proof {
            assert(r.collisions@ =~= Seq::<usize>::empty());
        }
        r
    }

    /// Separating-axis narrow phase against another collider, both carried
    /// to world space by their translation-only poses. Returns `None`
    /// exactly when an edge normal of either polygon separates the two
    /// shapes (exact touching counts as separated); otherwise the
    /// minimum-translation data for the overlapping pair.
    pub fn intersecting(
        &self,
        transform: &Transform,
        b: &Collider,
        b_transform: &Transform,
    ) -> (r: Option<Mtv>)
        requires
            self.wf(),
            b.wf(),
            transform.position.within(INDEX_LIMIT as int),
            b_transform.position.within(INDEX_LIMIT as int),
        ensures
            r.is_some() <==> !has_sep_axis(
                world_pts(self.points@, transform.position),
                world_pts(b.points@, b_transform.position),
            ),
            r.is_some() ==> mtv_valid(
                r.unwrap(),
                world_pts(self.points@, transform.position),
                world_pts(b.points@, b_transform.position),
            ) && r.unwrap().bounded(),
    {
        let wa = world_vec(&self.points, transform.position);
        let wb = world_vec(&b.points, b_transform.position);
        sat_mtv(&wa, &wb)
    }
}

/// Element-wise copy of a point list.
fn copy_points(v: &Vec<Vec2>) -> (r: Vec<Vec2>)
    ensures
        r@ == v@,
{
    let mut r: Vec<Vec2> = Vec::new();
    for i in 0..v.len()
        invariant
            r@.len() == i,
            forall|k: int| 0 <= k < i ==> r@[k] == v@[k],
    {
        r.push(v[i]);
    }
    proof {
        assert(r@ =~= v@);
    }
    r
}

/// Element-wise copy of a tag list.
fn copy_tags(v: &Vec<u32>) -> (r: Vec<u32>)
    ensures
        r@ == v@,
{
    let mut r: Vec<u32> = Vec::new();
    for i in 0..v.len()
        invariant
            r@.len() == i,
            forall|k: int| 0 <= k < i ==> r@[k] == v@[k],
    {
        r.push(v[i]);
    }
    proof {
        assert(r@ =~= v@);
    }
    r
}

/// The larger of the two half-extents of a rectangle's dimension vector.
pub open spec fn max_half(dims: Vec2) -> int {
    if tdiv(dims.x as int, 2) >= tdiv(dims.y as int, 2) {
        tdiv(dims.x as int, 2)
    } else {
        tdiv(dims.y as int, 2)
    }
}

} // verus!
