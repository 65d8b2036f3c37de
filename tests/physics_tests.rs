use my_library::physics::{GRAVITY, TERMINAL_SPEED, UNIT};
use my_library::{Bodies, Body, EntityId, Impulse, Vec2};

fn v(x: i64, y: i64) -> Vec2 {
    Vec2 { x, y }
}

fn body(px: i64, py: i64, vx: i64, vy: i64, gravity: bool) -> Body {
    Body { position: v(px, py), velocity: v(vx, vy), gravity }
}

fn push(target: EntityId, x: i64, y: i64) -> Impulse {
    Impulse { target, amount: v(x, y), absolute: false, source: 1 }
}

fn set(target: EntityId, x: i64, y: i64) -> Impulse {
    Impulse { target, amount: v(x, y), absolute: true, source: 2 }
}

#[test]
fn additive_impulses_sum_in_any_order() {
    let mut a = Bodies::new();
    let ida = a.spawn(body(0, 0, 10, -10, false));
    let mut b = Bodies::new();
    let idb = b.spawn(body(0, 0, 10, -10, false));
    let forward = vec![push(ida, 100, 0), push(ida, -30, 250), push(ida, 7, -7)];
    let backward = vec![push(idb, 7, -7), push(idb, -30, 250), push(idb, 100, 0)];
    a.sum_impulses(&forward);
    b.sum_impulses(&backward);
    assert_eq!(a.get(ida).unwrap().velocity, v(87, 233));
    assert_eq!(b.get(idb).unwrap().velocity, v(87, 233));
}

#[test]
fn absolute_impulse_overrides_additive_ones() {
    let mut bodies = Bodies::new();
    let id = bodies.spawn(body(0, 0, 400, 400, false));
    let impulses = vec![push(id, 100, 100), set(id, -5, 9), push(id, 1000, 1000)];
    bodies.sum_impulses(&impulses);
    assert_eq!(bodies.get(id).unwrap().velocity, v(-5, 9));
}

#[test]
fn last_absolute_impulse_wins() {
    let mut bodies = Bodies::new();
    let id = bodies.spawn(body(0, 0, 0, 0, false));
    bodies.sum_impulses(&vec![set(id, 1, 1), set(id, 2, 3)]);
    assert_eq!(bodies.get(id).unwrap().velocity, v(2, 3));
}

#[test]
fn impulses_reach_only_their_target() {
    let mut bodies = Bodies::new();
    let a = bodies.spawn(body(0, 0, 0, 0, false));
    let b = bodies.spawn(body(0, 0, 0, 0, false));
    bodies.sum_impulses(&vec![push(a, 5, 0), set(b, 0, 9)]);
    assert_eq!(bodies.get(a).unwrap().velocity, v(5, 0));
    assert_eq!(bodies.get(b).unwrap().velocity, v(0, 9));
}

#[test]
fn impulses_for_missing_bodies_are_dropped() {
    let mut bodies = Bodies::new();
    let a = bodies.spawn(body(0, 0, 1, 1, false));
    let b = bodies.spawn(body(0, 0, 2, 2, false));
    bodies.despawn(b);
    bodies.sum_impulses(&vec![push(b, 50, 50), push(EntityId(99), 7, 7), push(a, 1, 0)]);
    assert_eq!(bodies.get(a).unwrap().velocity, v(2, 1));
    assert_eq!(bodies.get(b), None);
    assert_eq!(bodies.get(EntityId(99)), None);
    assert_eq!(bodies.slots.len(), 2);
}

#[test]
fn velocity_sums_saturate() {
    let mut bodies = Bodies::new();
    let id = bodies.spawn(body(0, 0, i64::MAX - 1, i64::MIN + 1, false));
    bodies.sum_impulses(&vec![push(id, 10, -10), push(id, 10, -10)]);
    assert_eq!(bodies.get(id).unwrap().velocity, v(i64::MAX, i64::MIN));
}

#[test]
fn gravity_only_for_bodies_under_it() {
    let mut bodies = Bodies::new();
    let falls = bodies.spawn(body(0, 0, 3, 4, true));
    let floats = bodies.spawn(body(0, 0, 3, 4, false));
    bodies.apply_gravity();
    assert_eq!(bodies.get(falls).unwrap().velocity, v(3, 4 - GRAVITY));
    assert_eq!(bodies.get(floats).unwrap().velocity, v(3, 4));
}

#[test]
fn integration_moves_by_velocity() {
    let mut bodies = Bodies::new();
    let id = bodies.spawn(body(1000, -2000, 250, -750, false));
    bodies.apply_velocity();
    let b = bodies.get(id).unwrap();
    assert_eq!(b.position, v(1250, -2750));
    assert_eq!(b.velocity, v(250, -750));
}

#[test]
fn clamp_scales_fast_velocities_to_terminal_speed() {
    let mut bodies = Bodies::new();
    let fast = bodies.spawn(body(0, 0, 6000, 8000, false));
    let diagonal = bodies.spawn(body(0, 0, -30000, 40000, false));
    let slow = bodies.spawn(body(0, 0, 3000, -4000, false));
    bodies.terminal_velocity();
    // length 10000 -> 5000, direction kept
    assert_eq!(bodies.get(fast).unwrap().velocity, v(3000, 4000));
    assert_eq!(bodies.get(diagonal).unwrap().velocity, v(-3000, 4000));
    // exactly at the cap: untouched
    assert_eq!(bodies.get(slow).unwrap().velocity, v(3000, -4000));
}

#[test]
fn clamp_never_exceeds_terminal_speed() {
    let mut bodies = Bodies::new();
    let samples = [(5001, 0), (5000, 1), (-7001, 12345), (i64::MIN, i64::MIN), (i64::MAX, 3), (1, -999999)];
    let ids: Vec<EntityId> = samples.iter().map(|&(x, y)| bodies.spawn(body(0, 0, x, y, false))).collect();
    bodies.terminal_velocity();
    for (id, &(x, y)) in ids.iter().zip(samples.iter()) {
        let c = bodies.get(*id).unwrap().velocity;
        let sq = (c.x as i128) * (c.x as i128) + (c.y as i128) * (c.y as i128);
        assert!(sq <= (TERMINAL_SPEED as i128) * (TERMINAL_SPEED as i128));
        // within a few steps of the cap
        assert!(sq >= ((TERMINAL_SPEED - 3) as i128) * ((TERMINAL_SPEED - 3) as i128), "{x} {y} -> {c:?}");
        assert!(c.x.signum() * x.signum() >= 0 && c.y.signum() * y.signum() >= 0);
    }
    assert_eq!(bodies.get(ids[0]).unwrap().velocity, v(5000, 0));
}

#[test]
fn free_fall_drops_every_tick_until_terminal_speed() {
    let mut bodies = Bodies::new();
    let id = bodies.spawn(body(0, 0, 0, 0, true));
    let mut last = bodies.get(id).unwrap();
    for _ in 0..100 {
        bodies.tick(&Vec::new());
        let now = bodies.get(id).unwrap();
        assert!(now.position.y < last.position.y);
        assert_eq!(now.position.x, 0);
        assert_eq!(now.velocity.x, 0);
        assert_eq!(now.velocity.y, (last.velocity.y - GRAVITY).max(-TERMINAL_SPEED));
        last = now;
    }
    assert_eq!(last.velocity.y, -TERMINAL_SPEED);
}

#[test]
fn first_ticks_of_free_fall() {
    let mut bodies = Bodies::new();
    let id = bodies.spawn(body(0, 10 * UNIT, 0, 0, true));
    bodies.tick(&Vec::new());
    assert_eq!(bodies.get(id).unwrap(), body(0, 10 * UNIT - 100, 0, -100, true));
    bodies.tick(&Vec::new());
    assert_eq!(bodies.get(id).unwrap(), body(0, 10 * UNIT - 300, 0, -200, true));
}

#[test]
fn tick_runs_steps_in_order() {
    let mut bodies = Bodies::new();
    let id = bodies.spawn(body(0, 0, 0, 0, true));
    // absolute impulse, then gravity, then the move, then the clamp
    bodies.tick(&vec![push(id, 999, 999), set(id, 0, 5000)]);
    let b = bodies.get(id).unwrap();
    assert_eq!(b.position, v(0, 5000 - GRAVITY));
    assert_eq!(b.velocity, v(0, 5000 - GRAVITY));
    // a fast push: the body moves at the full speed, then is clamped
    bodies.tick(&vec![push(id, 8000, 0)]);
    let c = bodies.get(id).unwrap();
    assert_eq!(c.position, v(8000, 5000 - GRAVITY + 5000 - 2 * GRAVITY));
    let sq = (c.velocity.x as i128).pow(2) + (c.velocity.y as i128).pow(2);
    assert!(sq <= 5000 * 5000);
}

#[test]
fn spawn_get_despawn() {
    let mut bodies = Bodies::new();
    let a = bodies.spawn(body(1, 2, 3, 4, false));
    let b = bodies.spawn(body(5, 6, 7, 8, true));
    assert_eq!(a, EntityId(0));
    assert_eq!(b, EntityId(1));
    assert_eq!(bodies.get(b), Some(body(5, 6, 7, 8, true)));
    bodies.despawn(a);
    assert_eq!(bodies.get(a), None);
    bodies.despawn(EntityId(17));
    assert_eq!(bodies.get(b), Some(body(5, 6, 7, 8, true)));
    bodies.tick(&Vec::new());
    assert_eq!(bodies.get(a), None);
}
