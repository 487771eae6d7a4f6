use planar_collision::bbox::Box2d;
use planar_collision::collider::Collider;
use planar_collision::manager::PhysicsManager;
use planar_collision::quadtree::QuadTree;
use planar_collision::vec2::{div_trunc, Vec2};
use planar_collision::world::{Entity, Physical, Transform, World};

fn square(side: i64) -> Vec<Vec2> {
    let h = side / 2;
    vec![
        Vec2::new(-h, -h),
        Vec2::new(-h, h),
        Vec2::new(h, h),
        Vec2::new(h, -h),
    ]
}

fn solid_square(side: i64) -> Collider {
    Collider::new(square(side), vec![0], vec![], false, 2 * side, true)
}

fn manager() -> PhysicsManager {
    let bounds = Box2d::new(Vec2::new(0, 0), Vec2::new(100000, 100000));
    PhysicsManager::new(1, 2, None, (bounds, 4))
}

fn pose(x: i64, y: i64) -> Transform {
    Transform::new(Vec2::new(x, y), true)
}

// Coordinates are fixed-point with 100 units per 1.0 of the classic
// unit-square fixtures.

#[test]
fn sat_overlapping_squares_mtv() {
    let a = solid_square(100);
    let b = solid_square(100);
    let m = a
        .intersecting(&pose(0, 0), &b, &pose(50, 0))
        .expect("squares at 0 and 0.5 overlap");
    // the minimum translation has x-magnitude 0.5 (50 units) and y 0,
    // oriented from the first shape toward the second
    assert_eq!(m.translation(), Vec2::new(50, 0));
    assert_eq!(m.ny, 0);
}

#[test]
fn sat_separated_squares() {
    let a = solid_square(100);
    let b = solid_square(100);
    assert!(a.intersecting(&pose(0, 0), &b, &pose(200, 0)).is_none());
}

#[test]
fn sat_touching_squares_do_not_intersect() {
    let a = solid_square(100);
    let b = solid_square(100);
    // edges exactly coincident: strict overlap test reports no intersection
    assert!(a.intersecting(&pose(0, 0), &b, &pose(100, 0)).is_none());
}

#[test]
fn sat_mtv_orientation_flips_with_order() {
    let a = solid_square(100);
    let b = solid_square(100);
    let m = a
        .intersecting(&pose(50, 0), &b, &pose(0, 0))
        .expect("overlap");
    // first shape sits to the right, so the push on the second goes left
    assert_eq!(m.translation(), Vec2::new(-50, 0));
}

#[test]
fn detect_layer_filtering() {
    let a = Collider::new(square(100), vec![1], vec![], false, 200, true);
    let b = Collider::new(square(100), vec![2], vec![], false, 200, true);
    // geometrically overlapping but on disjoint layers: never a collision
    let r = PhysicsManager::detect((&a, &pose(0, 0), &None), (&b, &pose(50, 0), &None));
    assert!(r.is_none());
}

#[test]
fn detect_ignore_override() {
    let a = Collider::new(square(100), vec![7], vec![7], false, 200, true);
    let b = Collider::new(square(100), vec![7], vec![], false, 200, true);
    let r = PhysicsManager::detect((&a, &pose(0, 0), &None), (&b, &pose(50, 0), &None));
    assert!(r.is_none());
    // and symmetrically when the other side ignores
    let c = Collider::new(square(100), vec![7], vec![], false, 200, true);
    let d = Collider::new(square(100), vec![7], vec![7], false, 200, true);
    let r2 = PhysicsManager::detect((&c, &pose(0, 0), &None), (&d, &pose(50, 0), &None));
    assert!(r2.is_none());
}

#[test]
fn detect_eligible_overlap_with_physicals() {
    let a = solid_square(100);
    let b = solid_square(100);
    let p = Physical::new(Vec2::new(0, 0), true);
    let r = PhysicsManager::detect((&a, &pose(0, 0), &Some(p)), (&b, &pose(50, 0), &Some(p)))
        .expect("eligible overlap");
    assert!(!r.0);
    // each physical body receives half the correction
    assert_eq!(r.1 .0, Some(Vec2::new(-25, 0)));
    assert_eq!(r.1 .1, Some(Vec2::new(25, 0)));
}

fn two_square_world(ghost_a: bool, ghost_b: bool) -> World {
    let mut w = World::new();
    let ca = Collider::new(square(100), vec![0], vec![], ghost_a, 200, true);
    let cb = Collider::new(square(100), vec![0], vec![], ghost_b, 200, true);
    let p = Physical::new(Vec2::new(0, 0), true);
    w.push(Entity::new(Some(pose(0, 0)), Some(ca), Some(p)));
    w.push(Entity::new(Some(pose(50, 0)), Some(cb), Some(p)));
    w
}

#[test]
fn ghost_pair_records_but_never_pushes() {
    let mgr = manager();
    let mut w = two_square_world(true, false);
    mgr.check_collisions(&mut w);
    let c0 = w.entities[0].collider.as_ref().unwrap();
    let c1 = w.entities[1].collider.as_ref().unwrap();
    assert_eq!(c0.collisions, vec![1]);
    assert_eq!(c1.collisions, vec![0]);
    assert_eq!(w.entities[0].transform.unwrap().position, Vec2::new(0, 0));
    assert_eq!(w.entities[1].transform.unwrap().position, Vec2::new(50, 0));
}

#[test]
fn solid_pair_is_pushed_apart_and_recorded() {
    let mgr = manager();
    let mut w = two_square_world(false, false);
    mgr.check_collisions(&mut w);
    let c0 = w.entities[0].collider.as_ref().unwrap();
    let c1 = w.entities[1].collider.as_ref().unwrap();
    assert_eq!(c0.collisions, vec![1]);
    assert_eq!(c1.collisions, vec![0]);
    assert_eq!(w.entities[0].transform.unwrap().position, Vec2::new(-25, 0));
    assert_eq!(w.entities[1].transform.unwrap().position, Vec2::new(75, 0));
}

#[test]
fn disjoint_layers_produce_no_events_in_a_pass() {
    let mgr = manager();
    let mut w = World::new();
    let ca = Collider::new(square(100), vec![1], vec![], false, 200, true);
    let cb = Collider::new(square(100), vec![2], vec![], false, 200, true);
    w.push(Entity::new(Some(pose(0, 0)), Some(ca), None));
    w.push(Entity::new(Some(pose(50, 0)), Some(cb), None));
    mgr.check_collisions(&mut w);
    assert!(w.entities[0].collider.as_ref().unwrap().collisions.is_empty());
    assert!(w.entities[1].collider.as_ref().unwrap().collisions.is_empty());
    assert_eq!(w.entities[0].transform.unwrap().position, Vec2::new(0, 0));
    assert_eq!(w.entities[1].transform.unwrap().position, Vec2::new(50, 0));
}

#[test]
fn detection_twice_on_static_scene_is_idempotent() {
    let mgr = manager();
    // both ghosts: nothing moves, so the scene stays static
    let mut w = two_square_world(true, true);
    mgr.check_collisions(&mut w);
    let first0 = w.entities[0].collider.as_ref().unwrap().collisions.clone();
    let first1 = w.entities[1].collider.as_ref().unwrap().collisions.clone();
    mgr.check_collisions(&mut w);
    let c0 = w.entities[0].collider.as_ref().unwrap();
    let c1 = w.entities[1].collider.as_ref().unwrap();
    // same membership both times, and no duplicate entries
    assert_eq!(c0.collisions, first0);
    assert_eq!(c1.collisions, first1);
    assert_eq!(c0.collisions, vec![1]);
    assert_eq!(c1.collisions, vec![0]);
}

fn one_body_world(force_x: i64) -> World {
    let mut w = World::new();
    let p = Physical::new(Vec2::new(force_x, 0), true);
    w.push(Entity::new(Some(pose(0, 0)), None, Some(p)));
    w
}

#[test]
fn fixed_step_integration_exact_and_deterministic() {
    // force 60000 units/s, one second of elapsed time, two sub-steps
    let mut m1 = manager();
    let mut w1 = one_body_world(60000);
    m1.update(1_000_000, &mut w1); // frame 1: no tick due, full integration
    assert_eq!(w1.entities[0].transform.unwrap().position, Vec2::new(60000, 0));
    m1.update(1_000_000, &mut w1); // frame 2: tick, two sub-steps of 30000
    assert_eq!(
        w1.entities[0].transform.unwrap().position,
        Vec2::new(120000, 0)
    );

    // a second, identical run lands on exactly the same positions
    let mut m2 = manager();
    let mut w2 = one_body_world(60000);
    m2.update(1_000_000, &mut w2);
    m2.update(1_000_000, &mut w2);
    assert_eq!(
        w1.entities[0].transform.unwrap().position,
        w2.entities[0].transform.unwrap().position
    );
}

#[test]
fn observed_velocity_follows_realized_displacement() {
    let mgr = manager();
    let mut w = one_body_world(60000);
    mgr.update_positions(None, 1_000_000, &mut w);
    let p = w.entities[0].physical.unwrap();
    // first step only records the position; no previous one to diff against
    assert_eq!(p.last_position, Some(Vec2::new(60000, 0)));
    assert_eq!(p.velocity, Vec2::new(0, 0));
    mgr.update_positions(None, 1_000_000, &mut w);
    let p2 = w.entities[0].physical.unwrap();
    assert_eq!(p2.last_position, Some(Vec2::new(120000, 0)));
    assert_eq!(p2.velocity, Vec2::new(60000, 0));
}

#[test]
fn update_counts_frames_and_clears_on_tick() {
    let bounds = Box2d::new(Vec2::new(0, 0), Vec2::new(100000, 100000));
    let mut mgr = PhysicsManager::new(2, 1, None, (bounds, 4));
    let mut w = two_square_world(true, true);
    mgr.update(1000, &mut w); // count 0 -> 1, no tick: no detection ran
    assert!(w.entities[0].collider.as_ref().unwrap().collisions.is_empty());
    mgr.update(1000, &mut w); // count 1 -> 2, still no tick
    assert!(w.entities[0].collider.as_ref().unwrap().collisions.is_empty());
    mgr.update(1000, &mut w); // count reached rate: tick clears and detects
    assert_eq!(w.entities[0].collider.as_ref().unwrap().collisions, vec![1]);
    assert_eq!(w.entities[1].collider.as_ref().unwrap().collisions, vec![0]);
}

#[test]
fn max_delta_clamps_elapsed_time() {
    let bounds = Box2d::new(Vec2::new(0, 0), Vec2::new(100000, 100000));
    let mut mgr = PhysicsManager::new(2, 1, Some(500_000), (bounds, 4));
    let mut w = one_body_world(60000);
    // a two-second stall is clamped to half a second
    mgr.update(2_000_000, &mut w);
    assert_eq!(w.entities[0].transform.unwrap().position, Vec2::new(30000, 0));
}

#[test]
fn quadtree_root_query_returns_everything() {
    let boundary = Box2d::new(Vec2::new(0, 0), Vec2::new(16, 16));
    let mut t = QuadTree::new(boundary, 1);
    let pts = [(-10i64, -10i64), (5, 5), (-3, 7), (0, 0), (10, -2)];
    for (k, (x, y)) in pts.iter().enumerate() {
        assert!(t.insert(Vec2::new(*x, *y), k as u64));
    }
    let mut got = t.query(&boundary);
    got.sort();
    assert_eq!(got, vec![0, 1, 2, 3, 4]);
}

#[test]
fn quadtree_rejects_out_of_bounds_insertion() {
    let boundary = Box2d::new(Vec2::new(0, 0), Vec2::new(16, 16));
    let mut t = QuadTree::new(boundary, 2);
    assert!(!t.insert(Vec2::new(20, 0), 9));
    assert!(!t.insert(Vec2::new(16, 0), 9)); // half-open: the max edge is out
    assert!(t.insert(Vec2::new(-16, 0), 9)); // the min edge is in
    assert_eq!(t.query(&boundary), vec![9]);
}

#[test]
fn quadtree_range_query_finds_local_point() {
    let boundary = Box2d::new(Vec2::new(0, 0), Vec2::new(1000, 1000));
    let mut t = QuadTree::new(boundary, 1);
    for k in 0..20i64 {
        assert!(t.insert(Vec2::new(40 * k - 400, 13 * k - 130), k as u64));
    }
    let near = t.query(&Box2d::new(Vec2::new(0, 0), Vec2::new(5, 5)));
    // payload 10 sits at the origin; the broad phase may over-approximate
    // but must never miss it
    assert!(near.contains(&10));
}

#[test]
fn rect_builder_corners_and_boundary() {
    let c = Collider::rect(Vec2::new(100, 60), true);
    assert_eq!(c.points, square_rect(100, 60));
    assert_eq!(c.boundary, 100);
    assert_eq!(c.layers, vec![0]);
    assert!(c.ignore.is_empty());
    assert!(!c.is_ghost);
    assert!(c.collisions.is_empty());
}

fn square_rect(w: i64, h: i64) -> Vec<Vec2> {
    let (hx, hy) = (w / 2, h / 2);
    vec![
        Vec2::new(-hx, -hy),
        Vec2::new(-hx, hy),
        Vec2::new(hx, hy),
        Vec2::new(hx, -hy),
    ]
}

#[test]
fn clear_collisions_clears_only_active_colliders() {
    let mgr = manager();
    let mut w = World::new();
    let mut active = solid_square(100);
    active.collisions.push(5);
    let mut idle = Collider::new(square(100), vec![0], vec![], false, 200, false);
    idle.collisions.push(6);
    w.push(Entity::new(Some(pose(0, 0)), Some(active), None));
    w.push(Entity::new(Some(pose(500, 0)), Some(idle), None));
    mgr.clear_collisions(&mut w);
    assert!(w.entities[0].collider.as_ref().unwrap().collisions.is_empty());
    assert_eq!(w.entities[1].collider.as_ref().unwrap().collisions, vec![6]);
}

#[test]
fn division_truncates_toward_zero() {
    assert_eq!(div_trunc(7, 2), 3);
    assert_eq!(div_trunc(-7, 2), -3);
    assert_eq!(div_trunc(0, 5), 0);
    assert_eq!(div_trunc(-1, 5), 0);
}

#[test]
fn positions_saturate_at_world_limit() {
    let limit = planar_collision::vec2::POS_LIMIT;
    let near = Vec2::new(limit - 5, 0);
    let shifted = near.add_clamped(Vec2::new(100, -50));
    assert_eq!(shifted, Vec2::new(limit, -50));
}

#[test]
fn inactive_colliders_are_excluded_from_detection() {
    let mgr = manager();
    let mut w = World::new();
    let ca = Collider::new(square(100), vec![0], vec![], false, 200, false);
    let cb = solid_square(100);
    w.push(Entity::new(Some(pose(0, 0)), Some(ca), None));
    w.push(Entity::new(Some(pose(50, 0)), Some(cb), None));
    mgr.check_collisions(&mut w);
    assert!(w.entities[0].collider.as_ref().unwrap().collisions.is_empty());
    assert!(w.entities[1].collider.as_ref().unwrap().collisions.is_empty());
}


fn right_triangle() -> Vec<Vec2> {
    vec![Vec2::new(0, 0), Vec2::new(100, 0), Vec2::new(0, 100)]
}

#[test]
fn sat_tests_axes_of_both_shapes() {
    // the square's own axes all overlap the triangle's projections; only
    // the triangle's hypotenuse normal separates the pair, so a test that
    // skipped the second shape's edges would report a false positive
    let square40 = Collider::new(square(40), vec![0], vec![], false, 80, true);
    let tri = Collider::new(right_triangle(), vec![0], vec![], false, 200, true);
    assert!(square40
        .intersecting(&pose(90, 90), &tri, &pose(0, 0))
        .is_none());
    // moved onto the hypotenuse, the same pair overlaps
    assert!(square40
        .intersecting(&pose(60, 60), &tri, &pose(0, 0))
        .is_some());
}
