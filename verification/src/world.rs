use vstd::prelude::*;
use crate::collider::Collider;
use crate::vec2::{Vec2, FORCE_LIMIT, POS_LIMIT};

verus! {

/// The pose of a body: a world position, here translation-only, and an
/// activity flag that gates participation in detection.
#[derive(Clone, Copy, PartialEq, Eq, Structural, Debug)]
pub struct Transform {
    pub position: Vec2,
    pub active: bool,
}

impl Transform {
    pub fn new(position: Vec2, active: bool) -> (t: Transform)
        ensures
            t.position == position,
            t.active == active,
    {
        Transform { position, active }
    }
}

/// The dynamic state of a body: the constant force set by outside gameplay
/// code, the observed velocity, the last recorded position the velocity was
/// derived from, and an activity flag gating integration.
#[derive(Clone, Copy, PartialEq, Debug)]
pub struct Physical {
    pub force: Vec2,
    pub velocity: Vec2,
    pub last_position: Option<Vec2>,
    pub active: bool,
}

impl Physical {
    /// Forces stay small enough that an integration step cannot overflow,
    /// and the recorded position stays inside the world coordinate range.
    pub open spec fn wf(self) -> bool {
        &&& self.force.within(FORCE_LIMIT as int)
        &&& self.last_position.is_some() ==> self.last_position.unwrap().within(POS_LIMIT as int)
    }

    pub fn new(force: Vec2, active: bool) -> (p: Physical)
        requires
            force.within(FORCE_LIMIT as int),
        ensures
            p.force == force,
            p.active == active,
            p.velocity == (Vec2 { x: 0i64, y: 0i64 }),
            p.last_position.is_none(),
            p.wf(),
    {
        Physical { force, velocity: Vec2 { x: 0, y: 0 }, last_position: None, active }
    }
}

/// One entity of the component store: each component is optional, and an
/// operation that needs a missing component silently skips the entity.
#[derive(Clone, Debug)]
pub struct Entity {
    pub transform: Option<Transform>,
    pub collider: Option<Collider>,
    pub physical: Option<Physical>,
}

impl Entity {
    pub open spec fn wf(self) -> bool {
        &&& self.collider.is_some() ==> self.collider.unwrap().wf()
        &&& self.transform.is_some() ==> self.transform.unwrap().position.within(POS_LIMIT as int)
        &&& self.physical.is_some() ==> self.physical.unwrap().wf()
    }

    pub fn new(
        transform: Option<Transform>,
        collider: Option<Collider>,
        physical: Option<Physical>,
    ) -> (e: Entity)
        requires
            collider.is_some() ==> collider.unwrap().wf(),
            transform.is_some() ==> transform.unwrap().position.within(POS_LIMIT as int),
            physical.is_some() ==> physical.unwrap().wf(),
        ensures
            e.transform == transform,
            e.collider == collider,
            e.physical == physical,
            e.wf(),
    {
        Entity { transform, collider, physical }
    }
}

/// The live entity set, keyed by index: the keyed store interface the
/// engine core consumes, with optional per-entity component access.
pub struct World {
    pub entities: Vec<Entity>,
}

impl World {
    pub open spec fn wf(self) -> bool {
        forall|e: int| 0 <= e < self.entities@.len() ==> (#[trigger] self.entities@[e]).wf()
    }

    pub fn new() -> (w: World)
        ensures
            w.entities@.len() == 0,
            w.wf(),
    {
        World { entities: Vec::new() }
    }

    /// Number of live entities.
    pub fn len(&self) -> (n: usize)
        ensures
            n == self.entities@.len(),
    {
        self.entities.len()
    }

    /// Add an entity; its id is its index.
    pub fn push(&mut self, e: Entity)
        requires
            e.wf(),
        ensures
            final(self).entities@ == old(self).entities@.push(e),
            old(self).wf() ==> final(self).wf(),
    {
        self.entities.push(e);
    }
}

} // verus!
