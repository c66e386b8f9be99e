use game_physics::geom::{fast_distance, fast_normalize, COORD_LIMIT, SCALE};

#[test]
fn distance_symmetry() {
    let pts: [(i64, i64, i64); 4] = [
        (0, 0, 0),
        (3000000, 4000000, 0),
        (-7250000, 1000000, 2500000),
        (COORD_LIMIT, -COORD_LIMIT, 123456789),
    ];
    for &(x1, y1, z1) in pts.iter() {
        for &(x2, y2, z2) in pts.iter() {
            assert_eq!(
                fast_distance(x1, y1, z1, x2, y2, z2),
                fast_distance(x2, y2, z2, x1, y1, z1)
            );
        }
        assert_eq!(fast_distance(x1, y1, z1, x1, y1, z1), 0);
    }
}

#[test]
fn distance_exact_values() {
    // a 3-4-5 triangle in world units
    assert_eq!(fast_distance(0, 0, 0, 3000000, 4000000, 0), 5000000);
    assert_eq!(fast_distance(1000000, 0, 0, 1000000, 0, 2000000), 2000000);
    // a non-square length truncates downward: sqrt(2) in raw units
    assert_eq!(fast_distance(0, 0, 0, 1, 1, 0), 1);
}

#[test]
fn normalize_zero_vector_stays_zero() {
    let r: Vec<i64> = fast_normalize(0, 0, 0);
    assert_eq!(r, vec![0, 0, 0]);
}

#[test]
fn normalize_exact_unit() {
    // (3, 4, 0) world units normalizes to (0.6, 0.8, 0) exactly
    let r: Vec<i64> = fast_normalize(3000000, 4000000, 0);
    assert_eq!(r, vec![600000, 800000, 0]);
    let sum_sq: i128 = r.iter().map(|&c| (c as i128) * (c as i128)).sum();
    assert_eq!(sum_sq, (SCALE as i128) * (SCALE as i128));
}

#[test]
fn normalize_unit_length_within_tolerance() {
    let vs: [(i64, i64, i64); 4] = [
        (1000000, 1000000, 1000000),
        (-5000000, 2000000, 9000000),
        (1000000, 0, 0),
        (123456789, -98765432, 13579246),
    ];
    let s2: i128 = (SCALE as i128) * (SCALE as i128);
    for &(x, y, z) in vs.iter() {
        let r: Vec<i64> = fast_normalize(x, y, z);
        let sum_sq: i128 = r.iter().map(|&c| (c as i128) * (c as i128)).sum();
        assert!(sum_sq >= s2 - 6 * (SCALE as i128), "{:?} too short: {}", (x, y, z), sum_sq);
        assert!(sum_sq <= s2 + 3 * (SCALE as i128), "{:?} too long: {}", (x, y, z), sum_sq);
    }
}

#[test]
fn normalize_negative_components_mirror_positive() {
    let r: Vec<i64> = fast_normalize(-3000000, -4000000, 0);
    assert_eq!(r, vec![-600000, -800000, 0]);
}
