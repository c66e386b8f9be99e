use game_physics::registry::{GamePhysics, Target};
use game_physics::geom::SCALE;

// Spawn draws that land the target at (3.0, 1.0, 0.0) with size 0.5:
// azimuth 0 (cosine SCALE, sine 0) and zero distance/height draws.
fn spawn_known(g: &mut GamePhysics, id: u64) -> Target {
    g.generate_target(id, SCALE, 0, 0, 0, 400000)
}

#[test]
fn spawn_returns_the_appended_target() {
    let mut g = GamePhysics::new();
    assert_eq!(g.target_count(), 0);
    let t = spawn_known(&mut g, 1);
    assert_eq!(t.id, 1);
    assert_eq!(t.x, 3 * SCALE);
    assert_eq!(t.y, SCALE);
    assert_eq!(t.z, 0);
    assert_eq!(t.size, 500000);
    assert_eq!(g.target_count(), 1);
    assert_eq!(g.get_targets(), vec![t]);
}

#[test]
fn collision_at_known_position() {
    let mut g = GamePhysics::new();
    let t = spawn_known(&mut g, 1);
    // dead centre hits
    assert!(g.check_collision(t.x, t.y, t.z, 1));
    // the boundary counts as a hit: distance == size
    assert!(g.check_collision(t.x + t.size, t.y, t.z, 1));
    // one fixed-point unit past the radius misses
    assert!(!g.check_collision(t.x + t.size + 1, t.y, t.z, 1));
    // an absent id never hits, wherever the probe is
    assert!(!g.check_collision(t.x, t.y, t.z, 2));
}

#[test]
fn removal_decrements_count_and_clears_id() {
    let mut g = GamePhysics::new();
    let t1 = spawn_known(&mut g, 1);
    let _t2 = g.generate_target(2, 0, SCALE, 500000, 250000, 0);
    let _t3 = g.generate_target(3, -SCALE, 0, 999999, 999999, 999999);
    assert_eq!(g.target_count(), 3);

    assert!(g.remove_target(1));
    assert_eq!(g.target_count(), 2);
    assert!(!g.check_collision(t1.x, t1.y, t1.z, 1));

    // removing an absent id reports false and changes nothing
    assert!(!g.remove_target(99));
    assert_eq!(g.target_count(), 2);

    // the rest keep their insertion order
    let left: Vec<u64> = g.get_targets().iter().map(|t| t.id).collect();
    assert_eq!(left, vec![2, 3]);
}

#[test]
fn duplicate_ids_resolve_to_first_match() {
    let mut g = GamePhysics::new();
    let first = spawn_known(&mut g, 7);
    // a second target under the same id, on the opposite side of the band
    let second = g.generate_target(7, -SCALE, 0, 0, 0, 400000);
    assert_ne!(first.x, second.x);

    // lookups see the first target only
    assert!(g.check_collision(first.x, first.y, first.z, 7));
    assert!(!g.check_collision(second.x, second.y, second.z, 7));

    // removal takes the first; the second then becomes visible
    assert!(g.remove_target(7));
    assert_eq!(g.target_count(), 1);
    assert!(g.check_collision(second.x, second.y, second.z, 7));
}

#[test]
fn update_applies_the_same_drift_to_every_target() {
    let mut g = GamePhysics::new();
    let _ = spawn_known(&mut g, 1);
    let _ = g.generate_target(2, 0, SCALE, 500000, 250000, 0);
    let before: Vec<Target> = g.get_targets();

    let dx: i64 = 5000;
    let dz: i64 = -3000;
    g.update_targets(dx, dz);
    let after: Vec<Target> = g.get_targets();
    for (b, a) in before.iter().zip(after.iter()) {
        assert_eq!(a.x - b.x, dx);
        assert_eq!(a.z - b.z, dz);
        assert_eq!(a.y, b.y);
        assert_eq!(a.id, b.id);
        assert_eq!(a.size, b.size);
    }
}

#[test]
fn update_twice_with_the_same_clock_repeats_the_delta() {
    let mut g = GamePhysics::new();
    let _ = spawn_known(&mut g, 1);
    let _ = g.generate_target(2, 0, -SCALE, 123456, 654321, 777777);
    // a fixed injected clock reading always yields the same drift pair
    let dx: i64 = 9877;
    let dz: i64 = -1563;

    let p0: Vec<Target> = g.get_targets();
    g.update_targets(dx, dz);
    let p1: Vec<Target> = g.get_targets();
    g.update_targets(dx, dz);
    let p2: Vec<Target> = g.get_targets();

    for i in 0..p0.len() {
        let d1: (i64, i64) = (p1[i].x - p0[i].x, p1[i].z - p0[i].z);
        let d2: (i64, i64) = (p2[i].x - p1[i].x, p2[i].z - p1[i].z);
        assert_eq!(d1, d2);
    }
}

#[test]
fn update_on_empty_registry_is_a_no_op() {
    let mut g = GamePhysics::new();
    g.update_targets(10000, 10000);
    assert_eq!(g.target_count(), 0);
}
