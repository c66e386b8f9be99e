use game_physics::registry::{GamePhysics, Target};
use game_physics::geom::SCALE;

// A fixed-seed linear congruential generator standing in for the host's
// uniform random source.
struct Lcg {
    state: u64,
}

impl Lcg {
    fn new(seed: u64) -> Lcg {
        Lcg { state: seed }
    }

    // a uniform draw from [0, SCALE)
    fn draw(&mut self) -> i64 {
        self.state = self
            .state
            .wrapping_mul(6364136223846793005)
            .wrapping_add(1442695040888963407);
        ((self.state >> 33) % (SCALE as u64)) as i64
    }
}

#[test]
fn ten_thousand_spawns_stay_on_the_band() {
    let mut rng = Lcg::new(0x5eed5eed);
    let mut g = GamePhysics::new();
    let s = SCALE as i128;
    let tau: f64 = 2.0 * std::f64::consts::PI;

    for id in 0u64..10000 {
        let angle: f64 = (rng.draw() as f64 / SCALE as f64) * tau;
        // truncation toward zero keeps the pair inside the unit circle
        let cos_a: i64 = (angle.cos() * SCALE as f64) as i64;
        let sin_a: i64 = (angle.sin() * SCALE as f64) as i64;
        let cs: i128 = (cos_a as i128) * (cos_a as i128) + (sin_a as i128) * (sin_a as i128);
        assert!(cs <= s * s);
        assert!(cs >= s * s - 3 * s);

        let t: Target = g.generate_target(id, cos_a, sin_a, rng.draw(), rng.draw(), rng.draw());

        // horizontal radius within the band: [3, 11) world units, up to
        // seven fixed-point units of truncation below the inner edge
        let r_sq: i128 = (t.x as i128) * (t.x as i128) + (t.z as i128) * (t.z as i128);
        assert!(r_sq >= (3 * s - 7) * (3 * s - 7), "id {} radius_sq {}", id, r_sq);
        assert!(r_sq < (11 * s) * (11 * s), "id {} radius_sq {}", id, r_sq);

        // height in [1, 5) world units
        assert!(t.y >= SCALE && t.y < 5 * SCALE, "id {} height {}", id, t.y);

        // size in [0.3, 0.8) world units
        assert!(t.size >= 300000 && t.size < 800000, "id {} size {}", id, t.size);
    }
    assert_eq!(g.target_count(), 10000);
}
