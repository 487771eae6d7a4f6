use vstd::prelude::*;
use crate::bbox::Box2d;
use crate::collider::{meta_eq, Collider};
use crate::quadtree::QuadTree;
use crate::sat::{has_sep_axis, mtv_valid, world_pts, Mtv};
use crate::vec2::{clamp_pos, Vec2, INDEX_LIMIT};
use crate::world::{Physical, Transform, World};

verus! {

/// Elapsed frame time is capped here (in microseconds, one thousand
/// seconds), so that a force integration cannot overflow even after a long
/// stall.
pub const DELTA_CAP: u64 = 1000000000;

/// Microseconds per second: forces are position units per second.
pub const MICROS: i64 = 1000000;

/// What the narrow phase hands resolution for one overlapping pair: whether
/// either shape is a ghost, and the translation each side receives (absent
/// for a side with no physical component, which stays an immovable anchor).
pub type Collision = (bool, (Option<Vec2>, Option<Vec2>));

/// Some tag of `xs` also occurs in `ys`.
pub open spec fn shares(xs: Seq<u32>, ys: Seq<u32>) -> bool {
    exists|i: int| 0 <= i < xs.len() && ys.contains(xs[i])
}

/// The collision eligibility filter: the two shapes share a layer, and
/// neither lists a tag of the other's layers in its ignore set.
pub open spec fn eligible(a: Collider, b: Collider) -> bool {
    &&& shares(a.layers@, b.layers@)
    &&& !shares(a.ignore@, b.layers@)
    &&& !shares(b.ignore@, a.layers@)
}

/// The recorded collision list after noting `other`: unchanged if already
/// present (duplicate suppression), else appended.
pub open spec fn updated_collisions(s: Seq<usize>, other: usize) -> Seq<usize> {
    if s.contains(other) {
        s
    } else {
        s.push(other)
    }
}

/// The translation pair of a collision result matches the minimum
/// translation `m`: each present side carries half of `m`'s displacement,
/// the first side negated, and both stay small enough for a clamped
/// position update.
pub open spec fn push_pair_ok(
    p: (Option<Vec2>, Option<Vec2>),
    m: Mtv,
    ahas: bool,
    bhas: bool,
) -> bool {
    &&& p.0.is_some() == ahas
    &&& p.1.is_some() == bhas
    &&& (ahas ==> p.0.unwrap().x == -m.push_x(2 * m.nn) && p.0.unwrap().y == -m.push_y(2 * m.nn))
    &&& (bhas ==> p.1.unwrap().x == m.push_x(2 * m.nn) && p.1.unwrap().y == m.push_y(2 * m.nn))
    &&& (ahas ==> p.0.unwrap().within(576460752303423488))
    &&& (bhas ==> p.1.unwrap().within(576460752303423488))
}

/// How resolution rewrites one entity: the other entity is recorded once in
/// the collision list, and a non-ghost pair's translation is applied to the
/// position, saturated into the world range; everything else is kept.
pub open spec fn resolve_effect(
    oe: crate::world::Entity,
    ne: crate::world::Entity,
    ghost_pair: bool,
    other_e: usize,
    tr: Option<Vec2>,
) -> bool {
    &&& ne.physical == oe.physical
    &&& ne.collider.is_some() == oe.collider.is_some()
    &&& (oe.collider.is_some() ==> meta_eq(oe.collider.unwrap(), ne.collider.unwrap())
        && ne.collider.unwrap().collisions@ == updated_collisions(
        oe.collider.unwrap().collisions@,
        other_e,
    ))
    &&& ne.transform.is_some() == oe.transform.is_some()
    &&& (oe.transform.is_some() ==> {
        let ot = oe.transform.unwrap();
        let nt = ne.transform.unwrap();
        &&& nt.active == ot.active
        &&& (if !ghost_pair && tr.is_some() {
            nt.position.x == clamp_pos(ot.position.x + tr.unwrap().x) && nt.position.y
                == clamp_pos(ot.position.y + tr.unwrap().y)
        } else {
            nt == ot
        })
    })
}

/// Linear membership scan.
fn contains_usize(v: &Vec<usize>, x: usize) -> (r: bool)
    ensures
        r == v@.contains(x),
{
    for i in 0..v.len()
        invariant
            forall|k: int| 0 <= k < i ==> v@[k] != x,
    {
        if v[i] == x {
            proof {
                assert(v@[i as int] == x);
            }
            return true;
        }
    }
    false
}

/// Linear membership scan.
fn contains_u32(v: &Vec<u32>, x: u32) -> (r: bool)
    ensures
        r == v@.contains(x),
{
    for i in 0..v.len()
        invariant
            forall|k: int| 0 <= k < i ==> v@[k] != x,
    {
        if v[i] == x {
            proof {
                assert(v@[i as int] == x);
            }
            return true;
        }
    }
    false
}

/// Does any tag of `xs` occur in `ys`?
fn shares_any(xs: &Vec<u32>, ys: &Vec<u32>) -> (r: bool)
    ensures
        r == shares(xs@, ys@),
{
    for i in 0..xs.len()
        invariant
            forall|k: int| 0 <= k < i ==> !ys@.contains(xs@[k]),
    {
        if contains_u32(ys, xs[i]) {
            proof {
                assert(ys@.contains(xs@[i as int]));
            }
            return true;
        }
    }
    false
}

/// The fixed-step physics scheduler: frame timing, force integration, and
/// the broad- plus narrow-phase detection and resolution passes.
pub struct PhysicsManager {
    /// Frames per physics tick.
    pub rate: u32,
    /// Sub-steps per physics tick.
    pub step_amount: u32,
    /// Optional clamp on per-frame elapsed microseconds.
    pub max_delta: Option<u64>,
    /// World boundary and bucket capacity for the spatial index.
    pub bounds: (Box2d, usize),
    /// Frames counted since the last physics tick.
    pub count: u32,
}

impl PhysicsManager {
    /// A usable configuration: at least one frame per tick, at least one
    /// sub-step, and an index boundary inside the range the narrow phase
    /// accepts.
    pub open spec fn wf(self) -> bool {
        &&& self.bounds.0.wf()
        &&& self.bounds.0.within(INDEX_LIMIT as int)
        &&& self.step_amount >= 1
        &&& self.rate >= 1
    }

    pub fn new(rate: u32, step_amount: u32, max_delta: Option<u64>, bounds: (Box2d, usize)) -> (m:
        PhysicsManager)
        requires
            rate >= 1,
            step_amount >= 1,
            bounds.0.wf(),
            bounds.0.within(INDEX_LIMIT as int),
        ensures
            m.rate == rate,
            m.step_amount == step_amount,
            m.max_delta == max_delta,
            m.bounds == bounds,
            m.count == 0,
            m.wf(),
    {
        PhysicsManager { rate, step_amount, max_delta, bounds, count: 0 }
    }

    /// Narrow-phase check of one candidate pair: the eligibility filter
    /// short-circuits before any geometry runs, then the separating-axis
    /// test decides. `None` exactly when the layers filter rejects the pair
    /// or the shapes do not overlap; otherwise the ghost flag of the pair
    /// and the halved translation for each side that has a physical
    /// component.
    pub fn detect(
        a: (&Collider, &Transform, &Option<Physical>),
        b: (&Collider, &Transform, &Option<Physical>),
    ) -> (r: Option<Collision>)
        requires
            a.0.wf(),
            b.0.wf(),
            a.1.position.within(INDEX_LIMIT as int),
            b.1.position.within(INDEX_LIMIT as int),
        ensures
            r.is_some() <==> (eligible(*a.0, *b.0) && !has_sep_axis(
                world_pts(a.0.points@, a.1.position),
                world_pts(b.0.points@, b.1.position),
            )),
            r.is_some() ==> r.unwrap().0 == (a.0.is_ghost || b.0.is_ghost),
            r.is_some() ==> exists|m: Mtv|
                mtv_valid(
                    m,
                    world_pts(a.0.points@, a.1.position),
                    world_pts(b.0.points@, b.1.position),
                ) && #[trigger] push_pair_ok(r.unwrap().1, m, a.2.is_some(), b.2.is_some()),
    {
        let (ac, at, ap) = a;
        let (bc, bt, bp) = b;
        if shares_any(&ac.layers, &bc.layers) && !shares_any(&ac.ignore, &bc.layers)
            && !shares_any(&bc.ignore, &ac.layers) {
            match ac.intersecting(at, bc, bt) {
                Some(m) => {
                    let hp = m.half_translation();
                    let atr = if ap.is_some() {
                        Some(hp.neg())
                    } else {
                        None
                    };
                    let btr = if bp.is_some() {
                        Some(hp)
                    } else {
                        None
                    };
                    let r = (ac.is_ghost || bc.is_ghost, (atr, btr));
                    proof {
                        assert(push_pair_ok(r.1, m, ap.is_some(), bp.is_some()));
                    }
                    Some(r)
                },
                None => None,
            }
        } else {
            None
        }
    }

    /// Apply one side of a detected collision to entity `e`: record
    /// `other_e` in the collision list unless already present, and, for a
    /// non-ghost pair, move the entity by its translation. A missing
    /// component skips that part of the work; an unknown entity id changes
    /// nothing.
    pub fn resolve(
        ghost_pair: bool,
        other_e: usize,
        e: usize,
        tr: Option<Vec2>,
        world: &mut World,
    )
        requires
            old(world).wf(),
            tr.is_some() ==> tr.unwrap().within(576460752303423488),
        ensures
            final(world).wf(),
            final(world).entities@.len() == old(world).entities@.len(),
            forall|j: int|
                0 <= j < old(world).entities@.len() && j != e ==> final(world).entities@[j] == old(
                    world,
                ).entities@[j],
            (e as int) < old(world).entities@.len() ==> resolve_effect(
                old(world).entities@[e as int],
                final(world).entities@[e as int],
                ghost_pair,
                other_e,
                tr,
            ),
            (e as int) >= old(world).entities@.len() ==> final(world).entities@ == old(
                world,
            ).entities@,
            ghost_pair ==> forall|j: int|
                0 <= j < old(world).entities@.len()
                    ==> (#[trigger] final(world).entities@[j]).transform
                    == old(world).entities@[j].transform,
    {
        if e >= world.entities.len() {
            return;
        }
        let mut ent = world.entities.remove(e);
        match &mut ent.collider {
            Some(c) => {
                if !contains_usize(&c.collisions, other_e) {
                    c.collisions.push(other_e);
                }
            },
            None => {},
        }
        if !ghost_pair {
            if let Some(t) = tr {
                match &mut ent.transform {
                    Some(tt) => {
                        tt.position = tt.position.add_clamped(t);
                    },
                    None => {},
                }
            }
        }
        let ghost gent = ent;
        world.entities.insert(e, ent);
        proof {
            assert(world.entities@ =~= old(world).entities@.update(e as int, gent));
            assert(gent.wf()) by {
                assert(old(world).entities@[e as int].wf());
            }
        }
    }

    /// Drop every active collider's recorded collisions; run once at the
    /// start of each physics tick so that the tick's passes rebuild the
    /// lists from scratch.
    pub fn clear_collisions(&self, world: &mut World)
        requires
            old(world).wf(),
        ensures
            final(world).wf(),
            final(world).entities@.len() == old(world).entities@.len(),
            forall|j: int|
                0 <= j < old(world).entities@.len() ==> {
                    let oe = old(world).entities@[j];
                    let ne = #[trigger] final(world).entities@[j];
                    &&& ne.transform == oe.transform
                    &&& ne.physical == oe.physical
                    &&& ne.collider.is_some() == oe.collider.is_some()
                    &&& (oe.collider.is_some() ==> meta_eq(
                        oe.collider.unwrap(),
                        ne.collider.unwrap(),
                    ))
                    &&& (oe.collider.is_some() && oe.collider.unwrap().active
                        ==> ne.collider.unwrap().collisions@ == Seq::<usize>::empty())
                    &&& (oe.collider.is_some() && !oe.collider.unwrap().active ==> ne.collider
                        == oe.collider)
                },
            cleared_step(*old(world), *final(world)),
    {
        let n = world.entities.len();
        for i in 0..n
            invariant
                n == world.entities@.len(),
                world.entities@.len() == old(world).entities@.len(),
                world.wf(),
                forall|j: int| i <= j < n ==> world.entities@[j] == old(world).entities@[j],
                forall|j: int|
                    0 <= j < i ==> {
                        let oe = old(world).entities@[j];
                        let ne = #[trigger] world.entities@[j];
                        &&& ne.transform == oe.transform
                        &&& ne.physical == oe.physical
                        &&& ne.collider.is_some() == oe.collider.is_some()
                        &&& (oe.collider.is_some() ==> meta_eq(
                            oe.collider.unwrap(),
                            ne.collider.unwrap(),
                        ))
                        &&& (oe.collider.is_some() && oe.collider.unwrap().active
                            ==> ne.collider.unwrap().collisions@ == Seq::<usize>::empty())
                        &&& (oe.collider.is_some() && !oe.collider.unwrap().active ==> ne.collider
                            == oe.collider)
                    },
        {
            let ghost ws = world.entities@;
            let mut ent = world.entities.remove(i);
            let ghost pre = ent;
            match &mut ent.collider {
                Some(c) => {
                    if c.active {
                        c.collisions = Vec::new();
                        proof {
                            assert(c.collisions@ =~= Seq::<usize>::empty());
                        }
                    }
                },
                None => {},
            }
            let ghost gent = ent;
            world.entities.insert(i, ent);
            proof {
                assert(world.entities@ =~= ws.update(i as int, gent));
                assert(ws[i as int] == old(world).entities@[i as int]);
                assert(gent.wf()) by {
                    assert(pre.wf());
                }
            }
        }
    }
}

/// Both entities carry an active collider and an active transform, the
/// eligibility filter passes, and the shapes overlap — judged over the
/// world state at the start of a detection pass.
pub open spec fn pair_hit(w: World, e1: int, e2: int) -> bool {
    &&& 0 <= e1 < w.entities@.len()
    &&& 0 <= e2 < w.entities@.len()
    &&& e1 != e2
    &&& w.entities@[e1].collider.is_some() && w.entities@[e1].collider.unwrap().active
    &&& w.entities@[e2].collider.is_some() && w.entities@[e2].collider.unwrap().active
    &&& w.entities@[e1].transform.is_some() && w.entities@[e1].transform.unwrap().active
    &&& w.entities@[e2].transform.is_some() && w.entities@[e2].transform.unwrap().active
    &&& eligible(w.entities@[e1].collider.unwrap(), w.entities@[e2].collider.unwrap())
    &&& !has_sep_axis(
        world_pts(
            w.entities@[e1].collider.unwrap().points@,
            w.entities@[e1].transform.unwrap().position,
        ),
        world_pts(
            w.entities@[e2].collider.unwrap().points@,
            w.entities@[e2].transform.unwrap().position,
        ),
    )
}

/// A pass keeps the component structure: which components exist, the
/// collider metadata, the physical state, and transform presence and
/// activity.
pub open spec fn pass_frame(w0: World, w1: World) -> bool {
    &&& w1.entities@.len() == w0.entities@.len()
    &&& forall|j: int|
        0 <= j < w0.entities@.len() ==> {
            let oe = w0.entities@[j];
            let ne = #[trigger] w1.entities@[j];
            &&& ne.physical == oe.physical
            &&& ne.collider.is_some() == oe.collider.is_some()
            &&& (oe.collider.is_some() ==> meta_eq(oe.collider.unwrap(), ne.collider.unwrap()))
            &&& ne.transform.is_some() == oe.transform.is_some()
            &&& (oe.transform.is_some() ==> ne.transform.unwrap().active
                == oe.transform.unwrap().active)
        }
}

/// During a pass collision lists only grow, and every id appended names an
/// entity that was eligibly overlapping this one at the start of the pass,
/// with both entities indexed by the broad phase (active, posed, inside the
/// root boundary). In particular, colliders with disjoint layers, ones
/// whose ignore sets veto the pair, and entities outside the index are
/// never recorded.
pub open spec fn pass_collisions_sound(root: Box2d, w0: World, w1: World) -> bool {
    forall|j: int|
        0 <= j < w0.entities@.len() && (#[trigger] w0.entities@[j]).collider.is_some() ==> {
            let os = w0.entities@[j].collider.unwrap().collisions@;
            let ns = w1.entities@[j].collider.unwrap().collisions@;
            &&& os.len() <= ns.len()
            &&& (forall|k: int| 0 <= k < os.len() ==> ns[k] == os[k])
            &&& (forall|k: int|
                os.len() <= k < ns.len() ==> pair_hit(w0, j, #[trigger] ns[k] as int) && indexed(
                    w0,
                    root,
                    j,
                ) && indexed(w0, root, ns[k] as int))
        }
}

/// A position moved during a pass only for a solid overlap: some eligible
/// overlapping partner existed, neither shape was a ghost, and the moved
/// entity had a physical component. Ghost overlaps and anchors never move.
pub open spec fn pass_positions_sound(w0: World, w1: World) -> bool {
    forall|j: int|
        0 <= j < w0.entities@.len() && (#[trigger] w0.entities@[j]).transform.is_some()
            && w1.entities@[j].transform.unwrap().position
            != w0.entities@[j].transform.unwrap().position ==> {
            &&& w0.entities@[j].physical.is_some()
            &&& !w0.entities@[j].collider.unwrap().is_ghost
            &&& exists|j2: int|
                pair_hit(w0, j, j2) && !(#[trigger] w0.entities@[j2]).collider.unwrap().is_ghost
        }
}

/// The entity takes part in the broad phase: an active collider, an active
/// pose, and a position inside the index root boundary.
pub open spec fn indexed(w: World, root: Box2d, e: int) -> bool {
    &&& 0 <= e < w.entities@.len()
    &&& w.entities@[e].collider.is_some() && w.entities@[e].collider.unwrap().active
    &&& w.entities@[e].transform.is_some() && w.entities@[e].transform.unwrap().active
    &&& root.contains_spec(
        w.entities@[e].transform.unwrap().position.x as int,
        w.entities@[e].transform.unwrap().position.y as int,
    )
}

/// `j`'s position lies inside `i`'s broad-phase query box, the half-open
/// square of half-extent `boundary` around `i`'s position.
pub open spec fn in_query_box(w: World, i: int, j: int) -> bool {
    let ci = w.entities@[i].collider.unwrap();
    let pi = w.entities@[i].transform.unwrap().position;
    let pj = w.entities@[j].transform.unwrap().position;
    &&& pi.x - ci.boundary <= pj.x < pi.x + ci.boundary
    &&& pi.y - ci.boundary <= pj.y < pi.y + ci.boundary
}

/// Entity `e`'s collision list holds the id `o`.
pub open spec fn records(w: World, e: int, o: usize) -> bool {
    w.entities@[e].collider.unwrap().collisions@.contains(o)
}

/// The unordered pair was evaluated.
pub open spec fn pair_checked(cs: Seq<(usize, usize)>, a: usize, b: usize) -> bool {
    cs.contains((a, b)) || cs.contains((b, a))
}

/// The unordered pair sits in the detected list.
pub open spec fn in_found(
    fs: Seq<(usize, usize, bool, Option<Vec2>, Option<Vec2>)>,
    a: usize,
    b: usize,
) -> bool {
    exists|k: int|
        0 <= k < fs.len() && ((fs[k].0 == a && fs[k].1 == b) || (fs[k].0 == b && fs[k].1 == a))
}

/// One detected pair as resolution consumes it: the two entity ids, the
/// ghost flag, and the translation for each side.
pub type Detected = (usize, usize, bool, Option<Vec2>, Option<Vec2>);

/// What one `resolve` call does to the world: entity `e` rewritten by
/// `resolve_effect`, everything else untouched.
pub open spec fn resolved_once(
    ghost_pair: bool,
    other_e: usize,
    e: usize,
    tr: Option<Vec2>,
    w0: World,
    w1: World,
) -> bool {
    &&& w1.entities@.len() == w0.entities@.len()
    &&& forall|j: int| 0 <= j < w0.entities@.len() && j != e ==> w1.entities@[j] == w0.entities@[j]
    &&& ((e as int) < w0.entities@.len() ==> resolve_effect(
        w0.entities@[e as int],
        w1.entities@[e as int],
        ghost_pair,
        other_e,
        tr,
    ))
    &&& ((e as int) >= w0.entities@.len() ==> w1.entities@ == w0.entities@)
}

/// One detected pair applied to the world: first the pair's second entity
/// is recorded on the first and the first side's translation applied, then
/// the other way around.
pub open spec fn pair_applied(f: Detected, w0: World, w1: World) -> bool {
    exists|mid: World|
        #[trigger] resolved_once(f.2, f.1, f.0, f.3, w0, mid) && resolved_once(
            f.2,
            f.0,
            f.1,
            f.4,
            mid,
            w1,
        )
}

/// The first `k` detected pairs applied in order.
pub open spec fn resolved_chain(fs: Seq<Detected>, k: int, w0: World, w1: World) -> bool
    decreases k,
{
    if k <= 0 {
        w1 == w0
    } else {
        exists|mid: World|
            resolved_chain(fs, k - 1, w0, mid) && #[trigger] pair_applied(fs[k - 1], mid, w1)
    }
}

/// No false negatives at the pass level: every eligible overlapping pair of
/// indexed entities with one inside the other's query box is recorded in
/// both collision lists.
pub open spec fn pass_complete(root: Box2d, w0: World, w1: World) -> bool {
    forall|i: int, j: int|
        pair_hit(w0, i, j) && indexed(w0, root, i) && indexed(w0, root, j)
            && #[trigger] in_query_box(w0, i, j) ==> records(w1, i, j as usize) && records(
            w1,
            j,
            i as usize,
        )
}

/// The pass' effect is exactly some list of detected pairs applied in
/// order: each a justified eligible overlap of indexed entities carrying
/// the halved displacements of a valid minimum translation, and every
/// covered overlapping pair among them. This is what forces a solid pair
/// apart: for such a pair the chain applies `resolve_effect` with the
/// translation of each physical side.
pub open spec fn pass_resolved(root: Box2d, w0: World, w1: World) -> bool {
    exists|fs: Seq<Detected>|
        {
            &&& #[trigger] resolved_chain(fs, fs.len() as int, w0, w1)
            &&& (forall|k: int| 0 <= k < fs.len() ==> found_entry_ok(root, w0, #[trigger] fs[k]))
            &&& (forall|i: int, j: int|
                pair_hit(w0, i, j) && indexed(w0, root, i) && indexed(w0, root, j)
                    && #[trigger] in_query_box(w0, i, j) ==> in_found(fs, i as usize, j as usize))
        }
}

/// Everything one detection and resolution pass guarantees, bundled.
pub open spec fn pass_result(root: Box2d, w0: World, w1: World) -> bool {
    &&& w1.wf()
    &&& pass_frame(w0, w1)
    &&& pass_collisions_sound(root, w0, w1)
    &&& pass_positions_sound(w0, w1)
    &&& pass_complete(root, w0, w1)
    &&& pass_resolved(root, w0, w1)
}

/// What `integrate` does: every active physical body with a pose advances
/// by `force * delta / (MICROS * divisor)` saturated at the world limits;
/// everything else is untouched.
pub open spec fn integrated_step(w0: World, w1: World, delta: int, divisor: int) -> bool {
    &&& w1.entities@.len() == w0.entities@.len()
    &&& forall|j: int|
        0 <= j < w0.entities@.len() ==> {
            let oe = w0.entities@[j];
            let ne = #[trigger] w1.entities@[j];
            &&& ne.collider == oe.collider
            &&& ne.physical == oe.physical
            &&& ne.transform.is_some() == oe.transform.is_some()
            &&& (if oe.physical.is_some() && oe.physical.unwrap().active
                && oe.transform.is_some() {
                let ot = oe.transform.unwrap();
                let nt = ne.transform.unwrap();
                &&& nt.active == ot.active
                &&& nt.position.x == integrated_x(
                    ot.position.x as int,
                    oe.physical.unwrap().force.x as int,
                    delta,
                    divisor,
                )
                &&& nt.position.y == integrated_x(
                    ot.position.y as int,
                    oe.physical.unwrap().force.y as int,
                    delta,
                    divisor,
                )
            } else {
                ne.transform == oe.transform
            })
        }
}

/// What `settle_velocities` does: every active physical body with a pose
/// has its velocity re-derived from the realized displacement since the
/// last recorded position and the current position recorded; everything
/// else is untouched.
pub open spec fn settled_step(w0: World, w1: World, delta: int) -> bool {
    &&& w1.entities@.len() == w0.entities@.len()
    &&& forall|j: int|
        0 <= j < w0.entities@.len() ==> {
            let oe = w0.entities@[j];
            let ne = #[trigger] w1.entities@[j];
            &&& ne.collider == oe.collider
            &&& ne.transform == oe.transform
            &&& ne.physical.is_some() == oe.physical.is_some()
            &&& (if oe.physical.is_some() && oe.physical.unwrap().active
                && oe.transform.is_some() {
                let op = oe.physical.unwrap();
                let np = ne.physical.unwrap();
                let pos = oe.transform.unwrap().position;
                &&& np.force == op.force
                &&& np.active == op.active
                &&& np.last_position == Some(pos)
                &&& (if op.last_position.is_some() {
                    np.velocity.x == observed_x(
                        pos.x as int,
                        op.last_position.unwrap().x as int,
                        delta,
                    ) && np.velocity.y == observed_x(
                        pos.y as int,
                        op.last_position.unwrap().y as int,
                        delta,
                    )
                } else {
                    np.velocity == op.velocity
                })
            } else {
                ne.physical == oe.physical
            })
        }
}

/// What `clear_collisions` does: every active collider's recorded
/// collisions emptied, everything else untouched.
pub open spec fn cleared_step(w0: World, w1: World) -> bool {
    &&& w1.entities@.len() == w0.entities@.len()
    &&& forall|j: int|
        0 <= j < w0.entities@.len() ==> {
            let oe = w0.entities@[j];
            let ne = #[trigger] w1.entities@[j];
            &&& ne.transform == oe.transform
            &&& ne.physical == oe.physical
            &&& ne.collider.is_some() == oe.collider.is_some()
            &&& (oe.collider.is_some() ==> meta_eq(oe.collider.unwrap(), ne.collider.unwrap()))
            &&& (oe.collider.is_some() && oe.collider.unwrap().active
                ==> ne.collider.unwrap().collisions@ == Seq::<usize>::empty())
            &&& (oe.collider.is_some() && !oe.collider.unwrap().active ==> ne.collider
                == oe.collider)
        }
}

/// One sub-step of a physics tick, staged: integrate by `delta / n`, run
/// one full detection and resolution pass, settle the observed velocities.
pub open spec fn staged_substep(
    w0: World,
    w1: World,
    w2: World,
    w3: World,
    root: Box2d,
    delta: int,
    n: int,
) -> bool {
    &&& integrated_step(w0, w1, delta, n)
    &&& pass_result(root, w1, w2)
    &&& settled_step(w2, w3, delta)
}

/// Some staging of one sub-step leads from `w0` to `w3`.
pub open spec fn substep(root: Box2d, delta: int, n: int, w0: World, w3: World) -> bool {
    exists|mid: (World, World)| #[trigger] staged_substep(w0, mid.0, mid.1, w3, root, delta, n)
}

/// `k` sub-steps of a physics tick, run in order.
pub open spec fn ticked_substeps(
    root: Box2d,
    delta: int,
    n: int,
    k: int,
    w0: World,
    w1: World,
) -> bool
    decreases k,
{
    if k <= 0 {
        w1 == w0
    } else {
        exists|mid: World|
            ticked_substeps(root, delta, n, k - 1, w0, mid) && #[trigger] substep(
                root,
                delta,
                n,
                mid,
                w1,
            )
    }
}

/// Pushing keeps every element a sequence already holds.
proof fn lemma_push_contains_all<A>(s: Seq<A>, x: A)
    ensures
        forall|y: A| s.contains(y) ==> #[trigger] s.push(x).contains(y),
{
    assert forall|y: A| s.contains(y) implies #[trigger] s.push(x).contains(y) by {
        let i = choose|i: int| 0 <= i < s.len() && s[i] == y;
        assert(s.push(x)[i] == y);
    }
}

/// Growing the detected list keeps every pair it already holds.
proof fn lemma_found_grow(
    fs: Seq<(usize, usize, bool, Option<Vec2>, Option<Vec2>)>,
    f: (usize, usize, bool, Option<Vec2>, Option<Vec2>),
)
    ensures
        forall|a: usize, b: usize| in_found(fs, a, b) ==> #[trigger] in_found(fs.push(f), a, b),
{
    assert forall|a: usize, b: usize| in_found(fs, a, b) implies #[trigger] in_found(
        fs.push(f),
        a,
        b,
    ) by {
        let k = choose|k: int|
            0 <= k < fs.len() && ((fs[k].0 == a && fs[k].1 == b) || (fs[k].0 == b && fs[k].1
                == a));
        assert(fs.push(f)[k] == fs[k]);
    }
}

/// Recording an id keeps every id already recorded.
proof fn lemma_updated_keeps(s: Seq<usize>, x: usize, o: usize)
    requires
        s.contains(o),
    ensures
        updated_collisions(s, x).contains(o),
{
    if !s.contains(x) {
        let idx = choose|idx: int| 0 <= idx < s.len() && s[idx] == o;
        assert(s.push(x)[idx] == o);
    }
}

/// Recording an id makes the list hold it.
proof fn lemma_updated_adds(s: Seq<usize>, x: usize)
    ensures
        updated_collisions(s, x).contains(x),
{
    if !s.contains(x) {
        assert(s.push(x)[s.len() as int] == x);
    }
}

/// Sharing a tag is symmetric: some common element exists either way.
pub proof fn lemma_shares_sym(xs: Seq<u32>, ys: Seq<u32>)
    ensures
        shares(xs, ys) == shares(ys, xs),
{
    if shares(xs, ys) {
        let i = choose|i: int| 0 <= i < xs.len() && ys.contains(xs[i]);
        let j = choose|j: int| 0 <= j < ys.len() && ys[j] == xs[i];
        assert(xs.contains(ys[j]));
    }
    if shares(ys, xs) {
        let i = choose|i: int| 0 <= i < ys.len() && xs.contains(ys[i]);
        let j = choose|j: int| 0 <= j < xs.len() && xs[j] == ys[i];
        assert(ys.contains(xs[j]));
    }
}

/// The separating-axis verdict does not depend on the order of the two
/// shapes.
pub proof fn lemma_has_sep_sym(a: Seq<Vec2>, b: Seq<Vec2>)
    ensures
        has_sep_axis(a, b) == has_sep_axis(b, a),
{
    if has_sep_axis(a, b) {
        if exists|i: int|
            0 <= i < a.len() && crate::sat::sep_axis(a, b, crate::sat::axis_of(a, i)) {
            let i = choose|i: int|
                0 <= i < a.len() && crate::sat::sep_axis(a, b, crate::sat::axis_of(a, i));
            assert(crate::sat::sep_axis(b, a, crate::sat::axis_of(a, i)));
        } else {
            let i = choose|i: int|
                0 <= i < b.len() && crate::sat::sep_axis(a, b, crate::sat::axis_of(b, i));
            assert(crate::sat::sep_axis(b, a, crate::sat::axis_of(b, i)));
        }
    }
    if has_sep_axis(b, a) {
        if exists|i: int|
            0 <= i < b.len() && crate::sat::sep_axis(b, a, crate::sat::axis_of(b, i)) {
            let i = choose|i: int|
                0 <= i < b.len() && crate::sat::sep_axis(b, a, crate::sat::axis_of(b, i));
            assert(crate::sat::sep_axis(a, b, crate::sat::axis_of(b, i)));
        } else {
            let i = choose|i: int|
                0 <= i < a.len() && crate::sat::sep_axis(b, a, crate::sat::axis_of(a, i));
            assert(crate::sat::sep_axis(a, b, crate::sat::axis_of(a, i)));
        }
    }
}

/// An eligible overlap is a property of the unordered pair.
pub proof fn lemma_pair_hit_sym(w: World, e1: int, e2: int)
    requires
        pair_hit(w, e1, e2),
    ensures
        pair_hit(w, e2, e1),
{
    let c1 = w.entities@[e1].collider.unwrap();
    let c2 = w.entities@[e2].collider.unwrap();
    lemma_shares_sym(c1.layers@, c2.layers@);
    lemma_has_sep_sym(
        world_pts(c1.points@, w.entities@[e1].transform.unwrap().position),
        world_pts(c2.points@, w.entities@[e2].transform.unwrap().position),
    );
}

/// One snapshot row agrees with the entity it was taken from: an active
/// collider copy, the active transform, and the physical component.
pub open spec fn snap_ok(
    root: Box2d,
    w: World,
    s: (usize, Collider, Transform, Option<Physical>),
) -> bool {
    &&& (s.0 as int) < w.entities@.len()
    &&& w.entities@[s.0 as int].collider.is_some()
    &&& meta_eq(w.entities@[s.0 as int].collider.unwrap(), s.1)
    &&& s.1.active
    &&& s.1.wf()
    &&& w.entities@[s.0 as int].transform == Some(s.2)
    &&& s.2.active
    &&& s.2.position.within(INDEX_LIMIT as int)
    &&& root.contains_spec(s.2.position.x as int, s.2.position.y as int)
    &&& w.entities@[s.0 as int].physical == s.3
}

/// One detected pair held for resolution: a genuine eligible overlap of
/// indexed entities of the pass' start state, its ghost flag, and the
/// halved displacements of a valid minimum translation for the pair, one
/// per side that carries a physical component.
pub open spec fn found_entry_ok(root: Box2d, w: World, f: Detected) -> bool {
    &&& pair_hit(w, f.0 as int, f.1 as int)
    &&& indexed(w, root, f.0 as int)
    &&& indexed(w, root, f.1 as int)
    &&& f.2 == (w.entities@[f.0 as int].collider.unwrap().is_ghost || w.entities@[
        f.1 as int
    ].collider.unwrap().is_ghost)
    &&& exists|m: Mtv|
        mtv_valid(
            m,
            world_pts(
                w.entities@[f.0 as int].collider.unwrap().points@,
                w.entities@[f.0 as int].transform.unwrap().position,
            ),
            world_pts(
                w.entities@[f.1 as int].collider.unwrap().points@,
                w.entities@[f.1 as int].transform.unwrap().position,
            ),
        ) && #[trigger] push_pair_ok(
            (f.3, f.4),
            m,
            w.entities@[f.0 as int].physical.is_some(),
            w.entities@[f.1 as int].physical.is_some(),
        )
}

/// Find the snapshot row of an entity id handed back by the spatial index.
fn find_snap(
    snapshot: &Vec<(usize, Collider, Transform, Option<Physical>)>,
    id: u64,
) -> (r: Option<usize>)
    ensures
        r.is_some() ==> r.unwrap() < snapshot@.len() && (snapshot@[r.unwrap() as int].0 as u64)
            == id,
        r.is_none() ==> forall|k: int|
            0 <= k < snapshot@.len() ==> ((#[trigger] snapshot@[k]).0 as u64) != id,
{
    for i in 0..snapshot.len()
        invariant
            forall|k: int| 0 <= k < i ==> ((#[trigger] snapshot@[k]).0 as u64) != id,
    {
        if (snapshot[i].0 as u64) == id {
            return Some(i);
        }
    }
    None
}

/// Has this unordered pair been evaluated already?
fn contains_pair(v: &Vec<(usize, usize)>, a: usize, b: usize) -> (r: bool)
    ensures
        r == (v@.contains((a, b)) || v@.contains((b, a))),
{
    for i in 0..v.len()
        invariant
            forall|k: int| 0 <= k < i ==> v@[k] != (a, b) && v@[k] != (b, a),
    {
        let p = v[i];
        if (p.0 == a && p.1 == b) || (p.0 == b && p.1 == a) {
            proof {
                assert(v@[i as int] == (a, b) || v@[i as int] == (b, a));
            }
            return true;
        }
    }
    false
}

impl PhysicsManager {
    /// One full detection and resolution pass.
    ///
    /// The spatial index is rebuilt from every active collider's current
    /// position (an entity outside the index boundary drops out of the
    /// broad phase for this pass), each collider queries its broad-phase
    /// box for candidates, every unordered candidate pair is evaluated by
    /// the narrow phase at most once, and each overlapping pair is resolved
    /// on both sides: the partner is recorded once in each collision list,
    /// and a non-ghost pair's halved minimum-translation pushes the two
    /// bodies apart. Detection works on a snapshot of the entry state, so
    /// every recorded event and every push is justified by the positions
    /// this pass started from; conversely, every eligible overlapping pair
    /// that the index covers and that one side's query box reaches is
    /// recorded in both collision lists.
    #[verifier::rlimit(80)]
    pub fn check_collisions(&self, world: &mut World)
        requires
            self.wf(),
            old(world).wf(),
        ensures
            final(world).wf(),
            pass_result(self.bounds.0, *old(world), *final(world)),
    {
        let boundary = self.bounds.0;
        let cap = self.bounds.1;
        let mut tree = QuadTree::new(boundary, cap);
        let n = world.entities.len();
        let mut snapshot: Vec<(usize, Collider, Transform, Option<Physical>)> = Vec::new();
        for e in 0..n
            invariant
                n == world.entities@.len(),
                world.entities@ == old(world).entities@,
                world.wf(),
                self.wf(),
                tree.wf(),
                tree.boundary == self.bounds.0,
                forall|k: int| 0 <= k < snapshot@.len() ==> snap_ok(self.bounds.0, *world, #[trigger] snapshot@[k]),
                forall|k: int, l: int|
                    0 <= k < l < snapshot@.len() ==> (#[trigger] snapshot@[k]).0 < (
                    #[trigger] snapshot@[l]).0,
                forall|k: int| 0 <= k < snapshot@.len() ==> (#[trigger] snapshot@[k]).0 < e,
                forall|k: int|
                    0 <= k < snapshot@.len() ==> tree.entries().contains(
                        ((#[trigger] snapshot@[k]).2.position, snapshot@[k].0 as u64),
                    ),
                forall|e2: int|
                    0 <= e2 < e && #[trigger] indexed(*world, self.bounds.0, e2) ==> exists|k: int|
                        0 <= k < snapshot@.len() && (#[trigger] snapshot@[k]).0 == e2,
        {
            broadcast use vstd::seq_lib::group_to_multiset_ensures;
            broadcast use vstd::multiset::group_multiset_axioms;

            let ghost tree0 = tree;
            let ghost snap0 = snapshot@;
            let ent = &world.entities[e];
            let mut inserted = false;
            let ghost mut pos = Vec2 { x: 0, y: 0 };
            match (&ent.collider, &ent.transform) {
                (Some(c), Some(t)) => {
                    if c.active && t.active {
                        if tree.insert(t.position, e as u64) {
                            inserted = true;
                            proof {
                                pos = t.position;
                                assert(self.bounds.0.contains_spec(pos.x as int, pos.y as int));
                            }
                            let t2 = Transform { position: t.position, active: t.active };
                            snapshot.push((e, c.snapshot(), t2, ent.physical));
                        }
                    }
                },
                _ => {},
            }
            proof {
                if inserted {
                    assert(snapshot@[snap0.len() as int].0 == e);
                    assert forall|k: int| 0 <= k < snapshot@.len() implies tree.entries().contains(
                        ((#[trigger] snapshot@[k]).2.position, snapshot@[k].0 as u64),
                    ) by {
                        let en = (snapshot@[k].2.position, snapshot@[k].0 as u64);
                        if k < snap0.len() {
                            assert(tree0.entries().contains(en));
                            assert(tree0.entries().to_multiset().count(en) > 0);
                            assert(tree.entries().to_multiset().count(en) > 0);
                        } else {
                            assert(en == (pos, e as u64));
                            assert(tree.entries().to_multiset().count(en) > 0);
                        }
                    }
                    assert forall|e2: int|
                        0 <= e2 < e + 1 && #[trigger] indexed(*world, self.bounds.0, e2)
                            implies exists|k: int|
                        0 <= k < snapshot@.len() && (#[trigger] snapshot@[k]).0 == e2 by {
                        if e2 == e {
                            assert(snapshot@[snap0.len() as int].0 == e2);
                        } else {
                            let k0 = choose|k: int| 0 <= k < snap0.len() && snap0[k].0 == e2;
                            assert(snapshot@[k0].0 == e2);
                        }
                    }
                } else {
                    assert(!indexed(*world, self.bounds.0, e as int));
                    assert forall|e2: int|
                        0 <= e2 < e + 1 && #[trigger] indexed(*world, self.bounds.0, e2)
                            implies exists|k: int|
                        0 <= k < snapshot@.len() && (#[trigger] snapshot@[k]).0 == e2 by {
                        let k0 = choose|k: int| 0 <= k < snap0.len() && snap0[k].0 == e2;
                        assert(snapshot@[k0].0 == e2);
                    }
                }
            }
        }
        let mut checked: Vec<(usize, usize)> = Vec::new();
        let mut found: Vec<(usize, usize, bool, Option<Vec2>, Option<Vec2>)> = Vec::new();
        let sn = snapshot.len();
        for ai in 0..sn
            invariant
                sn == snapshot@.len(),
                world.entities@ == old(world).entities@,
                world.wf(),
                self.wf(),
                tree.wf(),
                tree.boundary == self.bounds.0,
                forall|k: int| 0 <= k < snapshot@.len() ==> snap_ok(self.bounds.0, *world, #[trigger] snapshot@[k]),
                forall|k: int, l: int|
                    0 <= k < l < snapshot@.len() ==> (#[trigger] snapshot@[k]).0 < (
                    #[trigger] snapshot@[l]).0,
                forall|k: int|
                    0 <= k < snapshot@.len() ==> tree.entries().contains(
                        ((#[trigger] snapshot@[k]).2.position, snapshot@[k].0 as u64),
                    ),
                forall|e2: int|
                    #[trigger] indexed(*world, self.bounds.0, e2) ==> exists|k: int|
                        0 <= k < snapshot@.len() && (#[trigger] snapshot@[k]).0 == e2,
                forall|k: int|
                    0 <= k < found@.len() ==> found_entry_ok(
                        self.bounds.0,
                        *world,
                        #[trigger] found@[k],
                    ),
                forall|k: int|
                    0 <= k < checked@.len() ==> (pair_hit(
                        *world,
                        (#[trigger] checked@[k]).0 as int,
                        checked@[k].1 as int,
                    ) ==> in_found(found@, checked@[k].0, checked@[k].1)),
                forall|i2: int, j: int|
                    (exists|k: int| 0 <= k < ai && (#[trigger] snapshot@[k]).0 == i2) && 0 <= j
                        < world.entities@.len() && indexed(*world, self.bounds.0, j)
                        && #[trigger] in_query_box(*world, i2, j) && j != i2 ==> pair_checked(
                        checked@,
                        i2 as usize,
                        j as usize,
                    ),
        {
            let aid = snapshot[ai].0;
            let qbox = Box2d::new(
                snapshot[ai].2.position,
                Vec2 { x: snapshot[ai].1.boundary, y: snapshot[ai].1.boundary },
            );
            let cands = tree.query(&qbox);
            for ci in 0..cands.len()
                invariant
                    sn == snapshot@.len(),
                    ai < sn,
                    aid == snapshot@[ai as int].0,
                    world.entities@ == old(world).entities@,
                    world.wf(),
                    self.wf(),
                    tree.wf(),
                    tree.boundary == self.bounds.0,
                    cands@ == tree.query_spec(qbox),
                    forall|k: int|
                        0 <= k < snapshot@.len() ==> snap_ok(self.bounds.0, *world, #[trigger] snapshot@[k]),
                    forall|k: int, l: int|
                        0 <= k < l < snapshot@.len() ==> (#[trigger] snapshot@[k]).0 < (
                        #[trigger] snapshot@[l]).0,
                    forall|k: int|
                        0 <= k < snapshot@.len() ==> tree.entries().contains(
                            ((#[trigger] snapshot@[k]).2.position, snapshot@[k].0 as u64),
                        ),
                    forall|e2: int|
                        #[trigger] indexed(*world, self.bounds.0, e2) ==> exists|k: int|
                            0 <= k < snapshot@.len() && (#[trigger] snapshot@[k]).0 == e2,
                    forall|k: int|
                    0 <= k < found@.len() ==> found_entry_ok(
                        self.bounds.0,
                        *world,
                        #[trigger] found@[k],
                    ),
                    forall|k: int|
                        0 <= k < checked@.len() ==> (pair_hit(
                            *world,
                            (#[trigger] checked@[k]).0 as int,
                            checked@[k].1 as int,
                        ) ==> in_found(found@, checked@[k].0, checked@[k].1)),
                    forall|i2: int, j: int|
                        (exists|k: int| 0 <= k < ai && (#[trigger] snapshot@[k]).0 == i2) && 0 <= j
                            < world.entities@.len() && indexed(*world, self.bounds.0, j)
                            && #[trigger] in_query_box(*world, i2, j) && j != i2 ==> pair_checked(
                            checked@,
                            i2 as usize,
                            j as usize,
                        ),
                    forall|c: int|
                        0 <= c < ci ==> forall|k2: int|
                            0 <= k2 < snapshot@.len() && ((#[trigger] snapshot@[k2]).0 as u64)
                                == #[trigger] cands@[c] && snapshot@[k2].0 != aid ==> pair_checked(
                                checked@,
                                aid,
                                snapshot@[k2].0,
                            ),
            {
                let bid64 = cands[ci];
                match find_snap(&snapshot, bid64) {
                    Some(bi) => {
                        let bid = snapshot[bi].0;
                        proof {
                            assert forall|k2: int|
                                0 <= k2 < snapshot@.len() && ((#[trigger] snapshot@[k2]).0 as u64)
                                    == bid64 implies snapshot@[k2].0 == bid by {
                                if k2 < bi as int {
                                    assert(snapshot@[k2].0 < snapshot@[bi as int].0);
                                } else if k2 > bi as int {
                                    assert(snapshot@[bi as int].0 < snapshot@[k2].0);
                                }
                            }
                        }
                        if bid != aid {
                            if !contains_pair(&checked, aid, bid) {
                                let ghost ck0 = checked@;
                                checked.push((aid, bid));
                                proof {
                                    lemma_push_contains_all(ck0, (aid, bid));
                                }
                                let r = PhysicsManager::detect(
                                    (&snapshot[ai].1, &snapshot[ai].2, &snapshot[ai].3),
                                    (&snapshot[bi].1, &snapshot[bi].2, &snapshot[bi].3),
                                );
                                proof {
                                    assert(eligible(
                                        world.entities@[aid as int].collider.unwrap(),
                                        world.entities@[bid as int].collider.unwrap(),
                                    ) == eligible(snapshot@[ai as int].1, snapshot@[bi as int].1));
                                    assert(checked@[ck0.len() as int] == (aid, bid));
                                }
                                match r {
                                    Some(col) => {
                                        let f = (aid, bid, col.0, col.1.0, col.1.1);
                                        proof {
                                            assert(indexed(*world, self.bounds.0, aid as int));
                                            assert(indexed(*world, self.bounds.0, bid as int));
                                            let m = choose|m: Mtv|
                                                mtv_valid(
                                                    m,
                                                    world_pts(
                                                        snapshot@[ai as int].1.points@,
                                                        snapshot@[ai as int].2.position,
                                                    ),
                                                    world_pts(
                                                        snapshot@[bi as int].1.points@,
                                                        snapshot@[bi as int].2.position,
                                                    ),
                                                ) && push_pair_ok(
                                                    col.1,
                                                    m,
                                                    snapshot@[ai as int].3.is_some(),
                                                    snapshot@[bi as int].3.is_some(),
                                                );
                                            assert(push_pair_ok(
                                                (f.3, f.4),
                                                m,
                                                world.entities@[aid as int].physical.is_some(),
                                                world.entities@[bid as int].physical.is_some(),
                                            ));
                                            assert(found_entry_ok(self.bounds.0, *world, f));
                                        }
                                        let ghost fd0 = found@;
                                        found.push(f);
                                        proof {
                                            lemma_found_grow(fd0, f);
                                            assert(found@[fd0.len() as int] == f);
                                            assert(in_found(found@, aid, bid));
                                        }
                                    },
                                    None => {
                                        proof {
                                            assert(!pair_hit(*world, aid as int, bid as int));
                                        }
                                    },
                                }
                            }
                        }
                    },
                    None => {},
                }
            }
            proof {
                assert forall|j: int|
                    0 <= j < world.entities@.len() && indexed(*world, self.bounds.0, j)
                        && in_query_box(*world, aid as int, j) && j != aid as int
                        implies pair_checked(checked@, aid, j as usize) by {
                    let kj = choose|k: int| 0 <= k < snapshot@.len() && snapshot@[k].0 == j;
                    let en = (snapshot@[kj].2.position, snapshot@[kj].0 as u64);
                    assert(tree.entries().contains(en));
                    assert(qbox.contains_spec(en.0.x as int, en.0.y as int));
                    crate::quadtree::lemma_query_complete(tree, qbox, en);
                    assert(cands@.contains(en.1));
                    let c = choose|c: int| 0 <= c < cands@.len() && cands@[c] == en.1;
                    assert(snapshot@[kj].0 != aid);
                    assert(pair_checked(checked@, aid, snapshot@[kj].0));
                    assert(snapshot@[kj].0 == j as usize);
                }
                assert forall|i2: int, j: int|
                    (exists|k: int| 0 <= k < ai + 1 && (#[trigger] snapshot@[k]).0 == i2) && 0 <= j
                        < world.entities@.len() && indexed(*world, self.bounds.0, j)
                        && #[trigger] in_query_box(*world, i2, j) && j != i2 implies pair_checked(
                    checked@,
                    i2 as usize,
                    j as usize,
                ) by {
                    let k = choose|k: int| 0 <= k < ai + 1 && snapshot@[k].0 == i2;
                    if k == ai as int {
                        assert(i2 == aid as int);
                        assert(pair_checked(checked@, aid, j as usize));
                    }
                }
            }
        }
        proof {
            assert forall|i: int, j: int|
                pair_hit(*old(world), i, j) && indexed(*old(world), self.bounds.0, i) && indexed(
                    *old(world),
                    self.bounds.0,
                    j,
                ) && #[trigger] in_query_box(*old(world), i, j) implies in_found(
                found@,
                i as usize,
                j as usize,
            ) by {
                assert(pair_hit(*world, i, j));
                assert(indexed(*world, self.bounds.0, i));
                assert(indexed(*world, self.bounds.0, j));
                assert(in_query_box(*world, i, j));
                let ki = choose|k: int| 0 <= k < snapshot@.len() && snapshot@[k].0 == i;
                assert(pair_checked(checked@, i as usize, j as usize));
                if checked@.contains(((i as usize), (j as usize))) {
                    let k = choose|k: int|
                        0 <= k < checked@.len() && checked@[k] == ((i as usize), (j as usize));
                    assert(pair_hit(*world, checked@[k].0 as int, checked@[k].1 as int));
                    assert(in_found(found@, (i as usize), (j as usize)));
                } else {
                    let k = choose|k: int|
                        0 <= k < checked@.len() && checked@[k] == ((j as usize), (i as usize));
                    lemma_pair_hit_sym(*world, i, j);
                    assert(pair_hit(*world, checked@[k].0 as int, checked@[k].1 as int));
                    assert(in_found(found@, (j as usize), (i as usize)));
                }
            }
        }
        let fn_ = found.len();
        for fi in 0..fn_
            invariant
                fn_ == found@.len(),
                world.wf(),
                forall|k: int|
                    0 <= k < found@.len() ==> found_entry_ok(
                        self.bounds.0,
                        *old(world),
                        #[trigger] found@[k],
                    ),
                pass_frame(*old(world), *world),
                pass_collisions_sound(self.bounds.0, *old(world), *world),
                pass_positions_sound(*old(world), *world),
                resolved_chain(found@, fi as int, *old(world), *world),
                forall|i: int, j: int|
                    pair_hit(*old(world), i, j) && indexed(*old(world), self.bounds.0, i)
                        && indexed(*old(world), self.bounds.0, j) && #[trigger] in_query_box(
                        *old(world),
                        i,
                        j,
                    ) ==> in_found(found@, i as usize, j as usize),
                forall|k: int|
                    0 <= k < fi ==> records(*world, (#[trigger] found@[k]).0 as int, found@[k].1)
                        && records(*world, found@[k].1 as int, found@[k].0),
        {
            let ghost w_pre = *world;
            let f0 = found[fi].0;
            let f1 = found[fi].1;
            let fg = found[fi].2;
            let f3 = found[fi].3;
            let f4 = found[fi].4;
            PhysicsManager::resolve(fg, f1, f0, f3, world);
            let ghost w_mid = *world;
            PhysicsManager::resolve(fg, f0, f1, f4, world);
            proof {
                let w0 = *old(world);
                let f = found@[fi as int];
                lemma_pair_hit_sym(w0, f.0 as int, f.1 as int);
                assert(pass_frame(w0, *world));
                assert forall|j: int|
                    0 <= j < w0.entities@.len() && (#[trigger] w0.entities@[j]).collider.is_some()
                        implies {
                    let os = w0.entities@[j].collider.unwrap().collisions@;
                    let ns = world.entities@[j].collider.unwrap().collisions@;
                    &&& os.len() <= ns.len()
                    &&& (forall|k: int| 0 <= k < os.len() ==> ns[k] == os[k])
                    &&& (forall|k: int|
                        os.len() <= k < ns.len() ==> pair_hit(w0, j, #[trigger] ns[k] as int)
                            && indexed(w0, self.bounds.0, j) && indexed(
                            w0,
                            self.bounds.0,
                            ns[k] as int,
                        ))
                } by {
                    let os = w0.entities@[j].collider.unwrap().collisions@;
                    let ps = w_pre.entities@[j].collider.unwrap().collisions@;
                    let ms = w_mid.entities@[j].collider.unwrap().collisions@;
                    let ns = world.entities@[j].collider.unwrap().collisions@;
                    assert(os.len() <= ps.len() && forall|k: int| 0 <= k < os.len() ==> ps[k]
                        == os[k]);
                    if j == f.0 as int {
                        assert(ms == updated_collisions(ps, f.1));
                    }
                    if j == f.1 as int {
                        assert(ns == updated_collisions(ms, f.0));
                    }
                }
                assert(pass_collisions_sound(self.bounds.0, w0, *world));
                assert forall|j: int|
                    0 <= j < w0.entities@.len() && (#[trigger] w0.entities@[j]).transform.is_some()
                        && world.entities@[j].transform.unwrap().position
                        != w0.entities@[j].transform.unwrap().position implies {
                    &&& w0.entities@[j].physical.is_some()
                    &&& !w0.entities@[j].collider.unwrap().is_ghost
                    &&& exists|j2: int|
                        pair_hit(w0, j, j2) && !(#[trigger] w0.entities@[j2]).collider.unwrap()
                            .is_ghost
                } by {
                    if w_pre.entities@[j].transform.unwrap().position != w0.entities@[
                        j
                    ].transform.unwrap().position {
                    } else {
                        assert(!fg);
                        if j == f.0 as int {
                            assert(pair_hit(w0, j, f.1 as int));
                            assert(!(w0.entities@[f.1 as int]).collider.unwrap().is_ghost);
                        } else {
                            assert(j == f.1 as int);
                            assert(pair_hit(w0, j, f.0 as int));
                            assert(!(w0.entities@[f.0 as int]).collider.unwrap().is_ghost);
                        }
                    }
                }
                assert(pass_positions_sound(w0, *world));
                assert(resolved_once(f.2, f.1, f.0, f.3, w_pre, w_mid));
                assert(resolved_once(f.2, f.0, f.1, f.4, w_mid, *world));
                assert(pair_applied(f, w_pre, *world));
                assert(resolved_chain(found@, fi as int, w0, w_pre));
                assert(resolved_chain(found@, fi + 1, w0, *world)) by {
                    let kk = fi as int + 1;
                    assert(kk - 1 == fi as int);
                    assert(resolved_chain(found@, kk - 1, w0, w_pre));
                    assert(found@[kk - 1] == f);
                    assert(pair_applied(found@[kk - 1], w_pre, *world));
                }
                assert forall|k: int|
                    0 <= k < fi + 1 implies records(
                    *world,
                    (#[trigger] found@[k]).0 as int,
                    found@[k].1,
                ) && records(*world, found@[k].1 as int, found@[k].0) by {
                    let g = found@[k];
                    let g0 = g.0 as int;
                    let g1 = g.1 as int;
                    if k < fi as int {
                        if g0 == f.0 as int {
                            lemma_updated_keeps(
                                w_pre.entities@[g0].collider.unwrap().collisions@,
                                f.1,
                                g.1,
                            );
                        }
                        if g0 == f.1 as int {
                            lemma_updated_keeps(
                                w_mid.entities@[g0].collider.unwrap().collisions@,
                                f.0,
                                g.1,
                            );
                        }
                        if g1 == f.0 as int {
                            lemma_updated_keeps(
                                w_pre.entities@[g1].collider.unwrap().collisions@,
                                f.1,
                                g.0,
                            );
                        }
                        if g1 == f.1 as int {
                            lemma_updated_keeps(
                                w_mid.entities@[g1].collider.unwrap().collisions@,
                                f.0,
                                g.0,
                            );
                        }
                    } else {
                        lemma_updated_adds(
                            w_pre.entities@[f.0 as int].collider.unwrap().collisions@,
                            f.1,
                        );
                        if f.0 as int == f.1 as int {
                        } else {
                            lemma_updated_keeps(
                                w_mid.entities@[f.0 as int].collider.unwrap().collisions@,
                                f.0,
                                f.1,
                            );
                            lemma_updated_adds(
                                w_mid.entities@[f.1 as int].collider.unwrap().collisions@,
                                f.0,
                            );
                        }
                    }
                }
            }
        }
        proof {
            assert forall|i: int, j: int|
                pair_hit(*old(world), i, j) && indexed(*old(world), self.bounds.0, i) && indexed(
                    *old(world),
                    self.bounds.0,
                    j,
                ) && #[trigger] in_query_box(*old(world), i, j) implies records(
                *world,
                i,
                j as usize,
            ) && records(*world, j, i as usize) by {
                assert(in_found(found@, i as usize, j as usize));
                let k = choose|k: int|
                    0 <= k < found@.len() && ((found@[k].0 == i as usize && found@[k].1 == j
                        as usize) || (found@[k].0 == j as usize && found@[k].1 == i as usize));
                assert(records(*world, found@[k].0 as int, found@[k].1));
                assert(records(*world, found@[k].1 as int, found@[k].0));
            }
            assert(pass_complete(self.bounds.0, *old(world), *world));
            assert(resolved_chain(found@, found@.len() as int, *old(world), *world));
            assert(pass_resolved(self.bounds.0, *old(world), *world));
            assert(pass_result(self.bounds.0, *old(world), *world));
        }
    }
}


/// One integrated coordinate: the position advanced by
/// `force * delta / (MICROS * divisor)` (microseconds cancel into seconds),
/// saturated into the world range.
pub open spec fn integrated_x(p: int, f: int, delta: int, divisor: int) -> int {
    clamp_pos(p + crate::vec2::tdiv(f * delta, (MICROS as int) * divisor))
}

/// One observed velocity coordinate: realized displacement over elapsed
/// seconds, in position units per second.
pub open spec fn observed_x(pos: int, last: int, delta: int) -> int {
    crate::vec2::tdiv((pos - last) * (MICROS as int), delta)
}

/// A force times a capped frame delta stays inside `i64`.
pub proof fn lemma_force_delta_range(f: int, delta: int)
    by (nonlinear_arith)
    requires
        -65536 <= f <= 65536,
        0 <= delta <= 1000000000,
    ensures
        -65536000000000 <= f * delta <= 65536000000000,
{
}

/// The integration divisor `MICROS * divisor` stays inside `i64` and
/// positive.
pub proof fn lemma_micros_divisor_range(d: int)
    by (nonlinear_arith)
    requires
        1 <= d <= 4294967295,
    ensures
        1000000 <= 1000000 * d <= 4294967295000000,
{
}

/// A displacement within the doubled world range times a second of
/// microseconds stays inside `i64`.
pub proof fn lemma_velocity_range(d: int)
    by (nonlinear_arith)
    requires
        -2199023255552 <= d <= 2199023255552,
    ensures
        -2199023255552000000 <= d * 1000000 <= 2199023255552000000,
{
}

impl PhysicsManager {
    /// Advance every active physical body's position by
    /// `force * delta / (MICROS * divisor)`, saturated at the world limits.
    /// Everything else — colliders, physical state, transform activity — is
    /// untouched.
    pub fn integrate(&self, divisor: u32, delta: u64, world: &mut World)
        requires
            old(world).wf(),
            divisor >= 1,
            1 <= delta <= DELTA_CAP,
        ensures
            final(world).wf(),
            final(world).entities@.len() == old(world).entities@.len(),
            forall|j: int|
                0 <= j < old(world).entities@.len() ==> {
                    let oe = old(world).entities@[j];
                    let ne = #[trigger] final(world).entities@[j];
                    &&& ne.collider == oe.collider
                    &&& ne.physical == oe.physical
                    &&& ne.transform.is_some() == oe.transform.is_some()
                    &&& (if oe.physical.is_some() && oe.physical.unwrap().active
                        && oe.transform.is_some() {
                        let ot = oe.transform.unwrap();
                        let nt = ne.transform.unwrap();
                        &&& nt.active == ot.active
                        &&& nt.position.x == integrated_x(
                            ot.position.x as int,
                            oe.physical.unwrap().force.x as int,
                            delta as int,
                            divisor as int,
                        )
                        &&& nt.position.y == integrated_x(
                            ot.position.y as int,
                            oe.physical.unwrap().force.y as int,
                            delta as int,
                            divisor as int,
                        )
                    } else {
                        ne.transform == oe.transform
                    })
                },
            integrated_step(*old(world), *final(world), delta as int, divisor as int),
    {
        let n = world.entities.len();
        let den: i64 = MICROS * (divisor as i64);
        proof {
            lemma_micros_divisor_range(divisor as int);
        }
        for i in 0..n
            invariant
                n == world.entities@.len(),
                world.entities@.len() == old(world).entities@.len(),
                world.wf(),
                1 <= delta <= DELTA_CAP,
                divisor >= 1,
                den == (MICROS as int) * (divisor as int),
                1000000 <= den <= 4294967295000000,
                forall|j: int| i <= j < n ==> world.entities@[j] == old(world).entities@[j],
                forall|j: int|
                    0 <= j < i ==> {
                        let oe = old(world).entities@[j];
                        let ne = #[trigger] world.entities@[j];
                        &&& ne.collider == oe.collider
                        &&& ne.physical == oe.physical
                        &&& ne.transform.is_some() == oe.transform.is_some()
                        &&& (if oe.physical.is_some() && oe.physical.unwrap().active
                            && oe.transform.is_some() {
                            let ot = oe.transform.unwrap();
                            let nt = ne.transform.unwrap();
                            &&& nt.active == ot.active
                            &&& nt.position.x == integrated_x(
                                ot.position.x as int,
                                oe.physical.unwrap().force.x as int,
                                delta as int,
                                divisor as int,
                            )
                            &&& nt.position.y == integrated_x(
                                ot.position.y as int,
                                oe.physical.unwrap().force.y as int,
                                delta as int,
                                divisor as int,
                            )
                        } else {
                            ne.transform == oe.transform
                        })
                    },
        {
            let ghost ws = world.entities@;
            let mut ent = world.entities.remove(i);
            let ghost pre = ent;
            let mut active_force: Option<Vec2> = None;
            match &ent.physical {
                Some(p) => {
                    if p.active {
                        active_force = Some(p.force);
                    }
                },
                None => {},
            }
            match (active_force, &mut ent.transform) {
                (Some(fv), Some(tt)) => {
                    proof {
                        assert(pre.wf());
                        lemma_force_delta_range(fv.x as int, delta as int);
                        lemma_force_delta_range(fv.y as int, delta as int);
                    }
                    let dx = crate::vec2::div_trunc(fv.x * (delta as i64), den);
                    let dy = crate::vec2::div_trunc(fv.y * (delta as i64), den);
                    tt.position = tt.position.add_clamped(Vec2 { x: dx, y: dy });
                },
                _ => {},
            }
            let ghost gent = ent;
            world.entities.insert(i, ent);
            proof {
                assert(world.entities@ =~= ws.update(i as int, gent));
                assert(ws[i as int] == old(world).entities@[i as int]);
                assert(gent.wf()) by {
                    assert(pre.wf());
                }
            }
        }
    }

    /// Recompute every active physical body's velocity from the realized
    /// displacement since the last recorded position, then record the
    /// current position: velocity is an observed quantity, so it reflects
    /// whatever actually happened this step, collision corrections
    /// included.
    pub fn settle_velocities(&self, delta: u64, world: &mut World)
        requires
            old(world).wf(),
            1 <= delta <= DELTA_CAP,
        ensures
            final(world).wf(),
            final(world).entities@.len() == old(world).entities@.len(),
            forall|j: int|
                0 <= j < old(world).entities@.len() ==> {
                    let oe = old(world).entities@[j];
                    let ne = #[trigger] final(world).entities@[j];
                    &&& ne.collider == oe.collider
                    &&& ne.transform == oe.transform
                    &&& ne.physical.is_some() == oe.physical.is_some()
                    &&& (if oe.physical.is_some() && oe.physical.unwrap().active
                        && oe.transform.is_some() {
                        let op = oe.physical.unwrap();
                        let np = ne.physical.unwrap();
                        let pos = oe.transform.unwrap().position;
                        &&& np.force == op.force
                        &&& np.active == op.active
                        &&& np.last_position == Some(pos)
                        &&& (if op.last_position.is_some() {
                            np.velocity.x == observed_x(
                                pos.x as int,
                                op.last_position.unwrap().x as int,
                                delta as int,
                            ) && np.velocity.y == observed_x(
                                pos.y as int,
                                op.last_position.unwrap().y as int,
                                delta as int,
                            )
                        } else {
                            np.velocity == op.velocity
                        })
                    } else {
                        ne.physical == oe.physical
                    })
                },
            settled_step(*old(world), *final(world), delta as int),
    {
        let n = world.entities.len();
        for i in 0..n
            invariant
                n == world.entities@.len(),
                world.entities@.len() == old(world).entities@.len(),
                world.wf(),
                1 <= delta <= DELTA_CAP,
                forall|j: int| i <= j < n ==> world.entities@[j] == old(world).entities@[j],
                forall|j: int|
                    0 <= j < i ==> {
                        let oe = old(world).entities@[j];
                        let ne = #[trigger] world.entities@[j];
                        &&& ne.collider == oe.collider
                        &&& ne.transform == oe.transform
                        &&& ne.physical.is_some() == oe.physical.is_some()
                        &&& (if oe.physical.is_some() && oe.physical.unwrap().active
                            && oe.transform.is_some() {
                            let op = oe.physical.unwrap();
                            let np = ne.physical.unwrap();
                            let pos = oe.transform.unwrap().position;
                            &&& np.force == op.force
                            &&& np.active == op.active
                            &&& np.last_position == Some(pos)
                            &&& (if op.last_position.is_some() {
                                np.velocity.x == observed_x(
                                    pos.x as int,
                                    op.last_position.unwrap().x as int,
                                    delta as int,
                                ) && np.velocity.y == observed_x(
                                    pos.y as int,
                                    op.last_position.unwrap().y as int,
                                    delta as int,
                                )
                            } else {
                                np.velocity == op.velocity
                            })
                        } else {
                            ne.physical == oe.physical
                        })
                    },
        {
            let ghost ws = world.entities@;
            let mut ent = world.entities.remove(i);
            let ghost pre = ent;
            let mut tpos: Option<Vec2> = None;
            match &ent.transform {
                Some(t) => {
                    tpos = Some(t.position);
                },
                None => {},
            }
            match (tpos, &mut ent.physical) {
                (Some(pos), Some(p)) => {
                    if p.active {
                        proof {
                            assert(pre.wf());
                        }
                        match p.last_position {
                            Some(lp) => {
                                proof {
                                    lemma_velocity_range((pos.x - lp.x) as int);
                                    lemma_velocity_range((pos.y - lp.y) as int);
                                }
                                let vx = crate::vec2::div_trunc(
                                    (pos.x - lp.x) * MICROS,
                                    delta as i64,
                                );
                                let vy = crate::vec2::div_trunc(
                                    (pos.y - lp.y) * MICROS,
                                    delta as i64,
                                );
                                p.velocity = Vec2 { x: vx, y: vy };
                            },
                            None => {},
                        }
                        p.last_position = Some(pos);
                    }
                },
                _ => {},
            }
            let ghost gent = ent;
            world.entities.insert(i, ent);
            proof {
                assert(world.entities@ =~= ws.update(i as int, gent));
                assert(ws[i as int] == old(world).entities@[i as int]);
                assert(gent.wf()) by {
                    assert(pre.wf());
                }
            }
        }
    }
}


/// What any scheduler step preserves of the world: which components exist,
/// the collider metadata, transform activity, and each physical component's
/// force and activity (velocity and bookkeeping may change).
pub open spec fn step_frame(w0: World, w1: World) -> bool {
    &&& w1.entities@.len() == w0.entities@.len()
    &&& forall|j: int|
        0 <= j < w0.entities@.len() ==> {
            let oe = w0.entities@[j];
            let ne = #[trigger] w1.entities@[j];
            &&& ne.collider.is_some() == oe.collider.is_some()
            &&& (oe.collider.is_some() ==> meta_eq(oe.collider.unwrap(), ne.collider.unwrap()))
            &&& ne.transform.is_some() == oe.transform.is_some()
            &&& (oe.transform.is_some() ==> ne.transform.unwrap().active
                == oe.transform.unwrap().active)
            &&& ne.physical.is_some() == oe.physical.is_some()
            &&& (oe.physical.is_some() ==> ne.physical.unwrap().force
                == oe.physical.unwrap().force && ne.physical.unwrap().active
                == oe.physical.unwrap().active)
        }
}

/// One integration step with no detection pass: every active physical body
/// with a pose advances by the full delta and has its velocity bookkeeping
/// settled; every other entity, and every collider, is untouched.
pub open spec fn plain_step(w0: World, w1: World, delta: int) -> bool {
    &&& w1.entities@.len() == w0.entities@.len()
    &&& forall|j: int|
        0 <= j < w0.entities@.len() ==> {
            let oe = w0.entities@[j];
            let ne = #[trigger] w1.entities@[j];
            &&& ne.collider == oe.collider
            &&& (if oe.physical.is_some() && oe.physical.unwrap().active
                && oe.transform.is_some() {
                let op = oe.physical.unwrap();
                let ot = oe.transform.unwrap();
                &&& ne.transform.is_some()
                &&& ne.physical.is_some()
                &&& {
                    let np = ne.physical.unwrap();
                    let nt = ne.transform.unwrap();
                    &&& nt.active == ot.active
                    &&& nt.position.x == integrated_x(
                        ot.position.x as int,
                        op.force.x as int,
                        delta,
                        1,
                    )
                    &&& nt.position.y == integrated_x(
                        ot.position.y as int,
                        op.force.y as int,
                        delta,
                        1,
                    )
                    &&& np.force == op.force
                    &&& np.active == op.active
                    &&& np.last_position == Some(nt.position)
                    &&& (if op.last_position.is_some() {
                        np.velocity.x == observed_x(
                            nt.position.x as int,
                            op.last_position.unwrap().x as int,
                            delta,
                        ) && np.velocity.y == observed_x(
                            nt.position.y as int,
                            op.last_position.unwrap().y as int,
                            delta,
                        )
                    } else {
                        np.velocity == op.velocity
                    })
                }
            } else {
                ne == oe
            })
        }
}

/// The frame delta the scheduler actually integrates with: the caller's
/// elapsed time, cut down by `max_delta` when one is set, and forced into
/// `[1, DELTA_CAP]`.
pub open spec fn effective_delta(delta: int, max_delta: Option<u64>) -> int {
    let d1 = if max_delta.is_some() && (max_delta.unwrap() as int) < delta {
        max_delta.unwrap() as int
    } else {
        delta
    };
    let d2 = if d1 < 1 {
        1int
    } else {
        d1
    };
    if d2 > DELTA_CAP as int {
        DELTA_CAP as int
    } else {
        d2
    }
}

impl PhysicsManager {
    /// One sub-step of the scheduler: integrate every active body, then —
    /// when `step_amount` is given, that is, when a physics tick is due —
    /// run one full detection and resolution pass, and finally settle the
    /// observed velocities from the realized displacement. With
    /// `step_amount` of `None` the full delta is integrated and detection
    /// is skipped entirely.
    pub fn update_positions(&self, step_amount: Option<u32>, delta: u64, world: &mut World)
        requires
            self.wf(),
            old(world).wf(),
            1 <= delta <= DELTA_CAP,
            step_amount.is_some() ==> step_amount.unwrap() >= 1,
        ensures
            final(world).wf(),
            step_frame(*old(world), *final(world)),
            forall|j: int|
                0 <= j < old(world).entities@.len() && (#[trigger] old(
                    world,
                ).entities@[j]).collider.is_some() ==> {
                    let os = old(world).entities@[j].collider.unwrap().collisions@;
                    let ns = final(world).entities@[j].collider.unwrap().collisions@;
                    os.len() <= ns.len() && (forall|k: int| 0 <= k < os.len() ==> ns[k] == os[k])
                },
            step_amount.is_none() ==> plain_step(*old(world), *final(world), delta as int),
            step_amount.is_some() ==> substep(
                self.bounds.0,
                delta as int,
                step_amount.unwrap() as int,
                *old(world),
                *final(world),
            ),
    {
        let divisor = match step_amount {
            Some(k) => k,
            None => 1,
        };
        let ghost w0 = *old(world);
        self.integrate(divisor, delta, world);
        let ghost w1 = *world;
        if step_amount.is_some() {
            self.check_collisions(world);
        }
        let ghost w2 = *world;
        self.settle_velocities(delta, world);
        proof {
            if step_amount.is_some() {
                let mid = (w1, w2);
                assert(staged_substep(
                    w0,
                    mid.0,
                    mid.1,
                    *world,
                    self.bounds.0,
                    delta as int,
                    divisor as int,
                ));
                assert(substep(self.bounds.0, delta as int, divisor as int, w0, *world));
            }
            assert(step_frame(w0, *world));
            assert forall|j: int|
                0 <= j < w0.entities@.len() && (#[trigger] w0.entities@[j]).collider.is_some()
                    implies {
                let os = w0.entities@[j].collider.unwrap().collisions@;
                let ns = world.entities@[j].collider.unwrap().collisions@;
                os.len() <= ns.len() && (forall|k: int| 0 <= k < os.len() ==> ns[k] == os[k])
            } by {
                assert(w1.entities@[j].collider == w0.entities@[j].collider);
                assert(world.entities@[j].collider == w2.entities@[j].collider);
            }
            if step_amount.is_none() {
                assert(w2 == w1);
                assert(plain_step(w0, *world, delta as int));
            }
        }
    }

    /// The per-frame entry point, driven once per outside "frame advanced"
    /// signal with the elapsed time since the previous call. The elapsed
    /// time is clamped by `max_delta` and the engine cap. When the frame
    /// counter has reached `rate` a physics tick runs: every active
    /// collider's recorded collisions are cleared, then `step_amount`
    /// sub-steps each integrate at `delta / step_amount` and run one
    /// detection and resolution pass. Otherwise the frame only integrates
    /// the full delta, with no detection.
    pub fn update(&mut self, delta_us: u64, world: &mut World)
        requires
            old(self).wf(),
            old(world).wf(),
            delta_us >= 1,
        ensures
            final(self).wf(),
            final(self).rate == old(self).rate,
            final(self).step_amount == old(self).step_amount,
            final(self).max_delta == old(self).max_delta,
            final(self).bounds == old(self).bounds,
            old(self).count >= old(self).rate ==> final(self).count == 1,
            old(self).count < old(self).rate ==> final(self).count == old(self).count + 1,
            final(world).wf(),
            step_frame(*old(world), *final(world)),
            old(self).count < old(self).rate ==> plain_step(
                *old(world),
                *final(world),
                effective_delta(delta_us as int, old(self).max_delta),
            ),
            old(self).count >= old(self).rate ==> exists|wc: World|
                #[trigger] cleared_step(*old(world), wc) && ticked_substeps(
                    old(self).bounds.0,
                    effective_delta(delta_us as int, old(self).max_delta),
                    old(self).step_amount as int,
                    old(self).step_amount as int,
                    wc,
                    *final(world),
                ),
    {
        let d0 = match self.max_delta {
            Some(md) => if delta_us < md {
                delta_us
            } else {
                md
            },
            None => delta_us,
        };
        let d1 = if d0 < 1 {
            1
        } else {
            d0
        };
        let deff = if d1 > DELTA_CAP {
            DELTA_CAP
        } else {
            d1
        };
        proof {
            assert(deff as int == effective_delta(delta_us as int, self.max_delta));
        }
        if self.count >= self.rate {
            self.count = 0;
            self.clear_collisions(world);
            let ghost wc = *world;
            proof {
                assert(step_frame(*old(world), *world));
                assert(ticked_substeps(
                    self.bounds.0,
                    deff as int,
                    self.step_amount as int,
                    0,
                    wc,
                    *world,
                ));
            }
            let steps = self.step_amount;
            let mut s: u32 = 0;
            while s < steps
                invariant
                    s <= steps,
                    steps == self.step_amount,
                    self.wf(),
                    world.wf(),
                    1 <= deff <= DELTA_CAP,
                    step_frame(*old(world), *world),
                    cleared_step(*old(world), wc),
                    ticked_substeps(
                        self.bounds.0,
                        deff as int,
                        steps as int,
                        s as int,
                        wc,
                        *world,
                    ),
                decreases steps - s,
            {
                let ghost wp = *world;
                self.update_positions(Some(steps), deff, world);
                proof {
                    lemma_step_frame_trans(*old(world), wp, *world);
                    assert(substep(self.bounds.0, deff as int, steps as int, wp, *world));
                    assert(ticked_substeps(
                        self.bounds.0,
                        deff as int,
                        steps as int,
                        s as int + 1,
                        wc,
                        *world,
                    )) by {
                        let kk = s as int + 1;
                        assert(kk - 1 == s as int);
                        assert(ticked_substeps(
                            self.bounds.0,
                            deff as int,
                            steps as int,
                            kk - 1,
                            wc,
                            wp,
                        ));
                        assert(substep(self.bounds.0, deff as int, steps as int, wp, *world));
                    }
                }
                s = s + 1;
            }
            proof {
                assert(cleared_step(*old(world), wc));
            }
        } else {
            self.update_positions(None, deff, world);
        }
        self.count = self.count + 1;
    }
}

/// On a scene a pass left unmoved, an eligible overlap holds at the end of
/// the pass exactly where it held at the start: the pass touches only
/// collision lists, which no part of the overlap judgement reads.
proof fn lemma_static_hit_eq(w0: World, w1: World, i: int, j: int)
    requires
        pass_frame(w0, w1),
        forall|e: int|
            0 <= e < w0.entities@.len() && (#[trigger] w0.entities@[e]).transform.is_some()
                ==> w1.entities@[e].transform.unwrap().position
                == w0.entities@[e].transform.unwrap().position,
    ensures
        pair_hit(w1, i, j) == pair_hit(w0, i, j),
{
    if 0 <= i < w0.entities@.len() && 0 <= j < w0.entities@.len() {
        if w0.entities@[i].collider.is_some() && w0.entities@[j].collider.is_some()
            && w0.entities@[i].transform.is_some() && w0.entities@[j].transform.is_some() {
            let c0i = w0.entities@[i].collider.unwrap();
            let c0j = w0.entities@[j].collider.unwrap();
            let c1i = w1.entities@[i].collider.unwrap();
            let c1j = w1.entities@[j].collider.unwrap();
            assert(meta_eq(c0i, c1i) && meta_eq(c0j, c1j));
            assert(eligible(c1i, c1j) == eligible(c0i, c0j));
            assert(w1.entities@[i].transform.unwrap().position == w0.entities@[
                i
            ].transform.unwrap().position);
            assert(w1.entities@[j].transform.unwrap().position == w0.entities@[
                j
            ].transform.unwrap().position);
        }
    }
}

/// Idempotent pair evaluation: running detection twice on an unchanged
/// static scene produces the same collision membership both times.
///
/// `w1` is the world one detection pass left from `w0`, and `w2` the world
/// a second pass left from `w1`; the first two premises are what the pass
/// guarantees of each run. The scene is static — the first pass moved
/// nothing — and the broad phase covers every eligible overlapping pair
/// (each side indexed, and one side's query box reaching the other; a pair
/// the broad phase cannot see is skipped by both runs alike and is left
/// out here). Then the second pass changes no list's membership. That no
/// list holds an id twice within the tick is the colliders' own invariant.
pub proof fn lemma_detection_idempotent(
    w0: World,
    w1: World,
    w2: World,
    root: Box2d,
    i: int,
    o: usize,
)
    requires
        pass_result(root, w0, w1),
        pass_result(root, w1, w2),
        forall|e: int|
            0 <= e < w0.entities@.len() && (#[trigger] w0.entities@[e]).transform.is_some()
                ==> w1.entities@[e].transform.unwrap().position
                == w0.entities@[e].transform.unwrap().position,
        forall|a: int, b: int|
            #[trigger] pair_hit(w0, a, b) ==> indexed(w0, root, a) && indexed(w0, root, b) && (
            in_query_box(w0, a, b) || in_query_box(w0, b, a)),
        0 <= i < w0.entities@.len(),
        w0.entities@[i].collider.is_some(),
    ensures
        records(w2, i, o) == records(w1, i, o),
{
    let s1 = w1.entities@[i].collider.unwrap().collisions@;
    let s2 = w2.entities@[i].collider.unwrap().collisions@;
    assert(s1.len() <= s2.len() && forall|k: int| 0 <= k < s1.len() ==> s2[k] == s1[k]);
    if records(w1, i, o) {
        let k = choose|k: int| 0 <= k < s1.len() && s1[k] == o;
        assert(s2[k] == o);
        assert(records(w2, i, o));
    }
    if records(w2, i, o) {
        let k = choose|k: int| 0 <= k < s2.len() && s2[k] == o;
        if k < s1.len() {
            assert(s1[k] == o);
            assert(records(w1, i, o));
        } else {
            assert(pair_hit(w1, i, s2[k] as int));
            let j = o as int;
            lemma_static_hit_eq(w0, w1, i, j);
            assert(pair_hit(w0, i, j));
            if in_query_box(w0, i, j) {
                assert(records(w1, i, j as usize));
            } else {
                lemma_pair_hit_sym(w0, i, j);
                assert(in_query_box(w0, j, i));
                assert(records(w1, i, j as usize));
            }
            assert(j as usize == o);
            assert(records(w1, i, o));
        }
    }
}

/// Keeping the step frame is transitive.
pub proof fn lemma_step_frame_trans(w0: World, w1: World, w2: World)
    requires
        step_frame(w0, w1),
        step_frame(w1, w2),
    ensures
        step_frame(w0, w2),
{
    assert forall|j: int| 0 <= j < w0.entities@.len() implies {
        let oe = w0.entities@[j];
        let ne = #[trigger] w2.entities@[j];
        &&& ne.collider.is_some() == oe.collider.is_some()
        &&& (oe.collider.is_some() ==> meta_eq(oe.collider.unwrap(), ne.collider.unwrap()))
        &&& ne.transform.is_some() == oe.transform.is_some()
        &&& (oe.transform.is_some() ==> ne.transform.unwrap().active
            == oe.transform.unwrap().active)
        &&& ne.physical.is_some() == oe.physical.is_some()
        &&& (oe.physical.is_some() ==> ne.physical.unwrap().force == oe.physical.unwrap().force
            && ne.physical.unwrap().active == oe.physical.unwrap().active)
    } by {
        assert(w1.entities@.len() == w0.entities@.len());
        let me = w1.entities@[j];
        assert(me == w1.entities@[j]);
    }
}

/// An integer multiple; named so a trajectory bound can quantify over the
/// step index.
pub open spec fn scaled(i: int, d: int) -> int {
    i * d
}

/// The position of a body after `k` equal sub-steps of constant-force
/// integration.
pub open spec fn iter_positions(p: int, f: int, delta: int, divisor: int, k: nat) -> int
    decreases k,
{
    if k == 0 {
        p
    } else {
        integrated_x(iter_positions(p, f, delta, divisor, (k - 1) as nat), f, delta, divisor)
    }
}

/// Fixed-step determinism: integrating a body with constant force for `k`
/// sub-steps lands on a closed form of the inputs alone — the same final
/// position on every run and every machine, however the detection work is
/// scheduled; no thread count appears in it. Holds whenever the whole
/// trajectory stays inside the world coordinate range, where the
/// saturation never engages.
pub proof fn lemma_fixed_step_determinism(p: int, f: int, delta: int, divisor: int, k: nat)
    requires
        divisor >= 1,
        delta >= 1,
        forall|i: int|
            0 <= i <= k ==> -(crate::vec2::POS_LIMIT as int) <= p + #[trigger] scaled(
                i,
                crate::vec2::tdiv(f * delta, (MICROS as int) * divisor),
            ) <= crate::vec2::POS_LIMIT as int,
    ensures
        iter_positions(p, f, delta, divisor, k) == p + scaled(
            k as int,
            crate::vec2::tdiv(f * delta, (MICROS as int) * divisor),
        ),
    decreases k,
{
    let d = crate::vec2::tdiv(f * delta, (MICROS as int) * divisor);
    if k == 0 {
        assert(scaled(0, d) == 0) by (nonlinear_arith);
    } else {
        lemma_fixed_step_determinism(p, f, delta, divisor, (k - 1) as nat);
        assert(scaled((k - 1) as int, d) + d == scaled(k as int, d)) by (nonlinear_arith);
        assert(-(crate::vec2::POS_LIMIT as int) <= p + scaled(k as int, d)
            <= crate::vec2::POS_LIMIT as int);
        assert(iter_positions(p, f, delta, divisor, k) == integrated_x(
            p + scaled((k - 1) as int, d),
            f,
            delta,
            divisor,
        ));
    }
}

} // verus!
