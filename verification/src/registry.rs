//! The registry of live targets: spawning on the annular band, first-match
//! lookup by id, point-in-sphere collision tests, order-preserving removal,
//! and the per-frame drift step.

use vstd::prelude::*;
use crate::geom::{
    COORD_LIMIT, SCALE, dist_sq_u128, div_trunc, scale_mul, spec_dist_sq, sq,
};
use crate::color::{hsl_string, spec_hsl_seq, spec_hue_degrees};

verus! {

/// A spawned collidable sphere: a centre, a caller-assigned id and a
/// collision radius, all in fixed-point units.
#[derive(Clone, Copy, PartialEq, Eq, Structural, Debug)]
pub struct Target {
    pub x: i64,
    pub y: i64,
    pub z: i64,
    pub id: u64,
    pub size: i64,
}

/// A target the registry can hold: coordinates within the fixed-point range
/// and a strictly positive radius.
pub open spec fn wf_target(t: Target) -> bool {
    &&& -COORD_LIMIT <= t.x <= COORD_LIMIT
    &&& -COORD_LIMIT <= t.y <= COORD_LIMIT
    &&& -COORD_LIMIT <= t.z <= COORD_LIMIT
    &&& 0 < t.size
}

impl Target {
    /// Builds a target from its five fields.
    pub fn new(x: i64, y: i64, z: i64, id: u64, size: i64) -> (t: Target)
        ensures
            t == (Target { x, y, z, id, size }),
    {
        Target { x, y, z, id, size }
    }

    /// The target's display color: an HSL triple whose hue is derived from
    /// the id alone, at fixed saturation and lightness.
    pub fn get_color(&self) -> (c: String)
        ensures
            c@ == spec_hsl_seq(spec_hue_degrees(self.id as int)),
    {
        hsl_string(self.id)
    }
}

/// The index of the first target in `s` carrying `id`, or `-1` when no
/// target does.
pub open spec fn spec_find_idx(s: Seq<Target>, id: u64) -> int
    decreases s.len(),
{
    if s.len() == 0 {
        -1
    } else if s[0].id == id {
        0
    } else {
        let k = spec_find_idx(s.skip(1), id);
        if k < 0 {
            -1
        } else {
            k + 1
        }
    }
}

/// `spec_find_idx` returns `-1` exactly when no target carries the id, and
/// otherwise the first index that does.
pub proof fn lemma_find_idx(s: Seq<Target>, id: u64)
    ensures
        spec_find_idx(s, id) == -1 <==> (forall|i: int|
            0 <= i < s.len() ==> (#[trigger] s[i]).id != id),
        spec_find_idx(s, id) != -1 ==> 0 <= spec_find_idx(s, id) < s.len() && s[spec_find_idx(
            s,
            id,
        )].id == id && (forall|j: int| 0 <= j < spec_find_idx(s, id) ==> (#[trigger] s[j]).id != id),
    decreases s.len(),
{
    if s.len() == 0 {
    } else if s[0].id == id {
    } else {
        let tail = s.skip(1);
        lemma_find_idx(tail, id);
        assert forall|i: int| 1 <= i < s.len() implies #[trigger] s[i] == tail[i - 1] by {
            assert(tail[i - 1] == s[i]);
        }
        let kt = spec_find_idx(tail, id);
        if kt == -1 {
            assert forall|i: int| 0 <= i < s.len() implies (#[trigger] s[i]).id != id by {
                if i >= 1 {
                    assert(tail[i - 1].id != id);
                }
            }
        } else {
            assert(spec_find_idx(s, id) == kt + 1);
            assert(s[kt + 1] == tail[kt]);
            assert forall|j: int| 0 <= j < kt + 1 implies (#[trigger] s[j]).id != id by {
                if j >= 1 {
                    assert(tail[j - 1].id != id);
                }
            }
        }
    }
}

/// The drift offset keeps the target's coordinates within the fixed-point
/// range.
pub open spec fn drift_in_range(t: Target, dx: int, dz: int) -> bool {
    &&& -COORD_LIMIT <= t.x + dx <= COORD_LIMIT
    &&& -COORD_LIMIT <= t.z + dz <= COORD_LIMIT
}

/// One target moved by a frame's drift offset.
pub open spec fn spec_drift(t: Target, dx: i64, dz: i64) -> Target
    recommends
        drift_in_range(t, dx as int, dz as int),
{
    Target { x: (t.x + dx) as i64, y: t.y, z: (t.z + dz) as i64, id: t.id, size: t.size }
}

/// A whole sequence of targets moved by one frame's drift offset.
pub open spec fn spec_drift_all(s: Seq<Target>, dx: i64, dz: i64) -> Seq<Target> {
    Seq::new(s.len(), |i: int| spec_drift(s[i], dx, dz))
}

/// Drift is deterministic in its inputs: two update steps driven by the
/// same clock reading move every target by the same offset each time, so
/// the second step repeats the first step's delta exactly.
pub proof fn lemma_update_deterministic(s: Seq<Target>, dx: i64, dz: i64)
    requires
        forall|i: int| 0 <= i < s.len() ==> drift_in_range(#[trigger] s[i], dx as int, dz as int),
        forall|i: int| 0 <= i < s.len() ==> drift_in_range(
            #[trigger] spec_drift_all(s, dx, dz)[i],
            dx as int,
            dz as int,
        ),
    ensures
        ({
            let once = spec_drift_all(s, dx, dz);
            let twice = spec_drift_all(once, dx, dz);
            forall|i: int| 0 <= i < s.len() ==> (#[trigger] once[i]).x - s[i].x == twice[i].x
                - once[i].x && once[i].z - s[i].z == twice[i].z - once[i].z
        }),
{
    let once = spec_drift_all(s, dx, dz);
    let twice = spec_drift_all(once, dx, dz);
    assert forall|i: int| 0 <= i < s.len() implies (#[trigger] once[i]).x - s[i].x == twice[i].x
        - once[i].x && once[i].z - s[i].z == twice[i].z - once[i].z by {
        assert(drift_in_range(s[i], dx as int, dz as int));
        assert(drift_in_range(once[i], dx as int, dz as int));
    }
}

/// Removing the sole carrier of an id leaves the registry one target
/// shorter and without that id, so a later collision test on it misses.
pub proof fn lemma_remove_clears_id(s: Seq<Target>, id: u64)
    requires
        spec_find_idx(s, id) >= 0,
        forall|i: int, j: int|
            0 <= i < j < s.len() && (#[trigger] s[i]).id == id ==> (#[trigger] s[j]).id != id,
    ensures
        s.remove(spec_find_idx(s, id)).len() == s.len() - 1,
        spec_find_idx(s.remove(spec_find_idx(s, id)), id) == -1,
{
    let k = spec_find_idx(s, id);
    lemma_find_idx(s, id);
    let r = s.remove(k);
    assert forall|i: int| 0 <= i < r.len() implies (#[trigger] r[i]).id != id by {
        if i < k {
            assert(r[i] == s[i]);
        } else {
            assert(r[i] == s[i + 1]);
            assert(s[i + 1].id != id);
        }
    }
    lemma_find_idx(r, id);
}

/// The registry: the ordered sequence of live targets, in insertion order.
pub struct GamePhysics {
    targets: Vec<Target>,
}

impl View for GamePhysics {
    type V = Seq<Target>;

    closed spec fn view(&self) -> Seq<Target> {
        self.targets@
    }
}

impl GamePhysics {
    /// Every target the registry holds is well formed.
    pub open spec fn wf(&self) -> bool {
        forall|i: int| 0 <= i < self@.len() ==> wf_target(#[trigger] self@[i])
    }

    /// An empty registry.
    pub fn new() -> (r: GamePhysics)
        ensures
            r@ == Seq::<Target>::empty(),
            r.wf(),
    {
        let r = GamePhysics { targets: Vec::new() };
        proof {
            assert(r@ =~= Seq::<Target>::empty());
        }
        r
    }

    /// Spawns a target on the annular band and appends it.
    ///
    /// The host hands in its uniform draws already in fixed point: `cos_a`
    /// and `sin_a` are the cosine and sine of the random azimuth (scaled by
    /// `SCALE`, truncated toward zero, so their squares sum to at most
    /// `SCALE * SCALE`), and `rd`, `ry`, `rs` are uniform draws from
    /// `[0, SCALE)` for the radial distance, the height and the size.
    pub fn generate_target(&mut self, id: u64, cos_a: i64, sin_a: i64, rd: i64, ry: i64, rs: i64) -> (t: Target)
        requires
            old(self).wf(),
            -SCALE <= cos_a <= SCALE,
            -SCALE <= sin_a <= SCALE,
            SCALE * SCALE - 3 * SCALE <= cos_a * cos_a + sin_a * sin_a,
            cos_a * cos_a + sin_a * sin_a <= SCALE * SCALE,
            0 <= rd < SCALE,
            0 <= ry < SCALE,
            0 <= rs < SCALE,
        ensures
            final(self)@ == old(self)@.push(t),
            final(self).wf(),
            t == (Target {
                x: div_trunc(cos_a as int * (3 * SCALE + 8 * rd) as int, SCALE as int) as i64,
                y: (SCALE + 4 * ry) as i64,
                z: div_trunc(sin_a as int * (3 * SCALE + 8 * rd) as int, SCALE as int) as i64,
                id: id,
                size: (rs as int / 2 + 300000) as i64,
            }),
            wf_target(t),
            SCALE <= t.y < 5 * SCALE,
            300000 <= t.size < 800000,
            sq(t.x as int) + sq(t.z as int) < sq(11 * (SCALE as int)),
            sq(t.x as int) + sq(t.z as int) >= sq(3 * (SCALE as int) - 7),
    {
        let d: i64 = 3 * SCALE + 8 * rd;
        let x: i64 = scale_mul(cos_a, d);
        let z: i64 = scale_mul(sin_a, d);
        let y: i64 = SCALE + 4 * ry;
        let size: i64 = ((rs as u64) / 2) as i64 + 300000;
        let t = Target { x, y, z, id, size };
        proof {
            crate::geom::lemma_spawn_band(
                cos_a as int,
                sin_a as int,
                d as int,
                x as int,
                z as int,
            );
        }
        self.targets.push(t);
        proof {
            assert(wf_target(t));
            assert forall|i: int| 0 <= i < self@.len() implies wf_target(#[trigger] self@[i]) by {
                if i < old(self)@.len() {
                    assert(wf_target(old(self)@[i]));
                }
            }
        }
        t
    }

    /// Whether the probe point lies inside the sphere of the first target
    /// carrying `target_id`; `false` when no target does.
    pub fn check_collision(&self, ray_x: i64, ray_y: i64, ray_z: i64, target_id: u64) -> (hit: bool)
        requires
            self.wf(),
            -COORD_LIMIT <= ray_x <= COORD_LIMIT,
            -COORD_LIMIT <= ray_y <= COORD_LIMIT,
            -COORD_LIMIT <= ray_z <= COORD_LIMIT,
        ensures
            ({
                let k = spec_find_idx(self@, target_id);
                &&& k == -1 ==> hit == false
                &&& k >= 0 ==> hit == (spec_dist_sq(
                    ray_x as int,
                    ray_y as int,
                    ray_z as int,
                    self@[k].x as int,
                    self@[k].y as int,
                    self@[k].z as int,
                ) <= sq(self@[k].size as int))
            }),
    {
        proof {
            lemma_find_idx(self@, target_id);
        }
        let n: usize = self.targets.len();
        let mut i: usize = 0;
        while i < n
            invariant
                self.wf(),
                -COORD_LIMIT <= ray_x <= COORD_LIMIT,
                -COORD_LIMIT <= ray_y <= COORD_LIMIT,
                -COORD_LIMIT <= ray_z <= COORD_LIMIT,
                n == self@.len(),
                0 <= i <= n,
                forall|j: int| 0 <= j < i ==> (#[trigger] self@[j]).id != target_id,
            decreases n - i,
        {
            let t: Target = self.targets[i];
            proof {
                assert(wf_target(self@[i as int]));
            }
            if t.id == target_id {
                proof {
                    lemma_find_idx(self@, target_id);
                    assert(spec_find_idx(self@, target_id) == i);
                }
                let dsq: u128 = dist_sq_u128(ray_x, ray_y, ray_z, t.x, t.y, t.z);
                proof {
                    assert((t.size as u128) * (t.size as u128) <= u128::MAX && (
                    t.size as u128) * (t.size as u128) == sq(t.size as int)) by (nonlinear_arith)
                        requires
                            0 < t.size,
                            t.size as u128 == t.size as int,
                            (t.size as u128) < 0x8000000000000000u128,
                    ;
                }
                let ssq: u128 = (t.size as u128) * (t.size as u128);
                return dsq <= ssq;
            }
            i = i + 1;
        }
        proof {
            lemma_find_idx(self@, target_id);
        }
        false
    }

    /// Removes the first target carrying `target_id`, keeping the order of
    /// the rest; reports whether a removal happened.
    pub fn remove_target(&mut self, target_id: u64) -> (removed: bool)
        requires
            old(self).wf(),
        ensures
            ({
                let k = spec_find_idx(old(self)@, target_id);
                &&& k == -1 ==> (removed == false && final(self)@ == old(self)@)
                &&& k >= 0 ==> (removed == true && final(self)@ == old(self)@.remove(k))
            }),
            final(self).wf(),
    {
        proof {
            lemma_find_idx(old(self)@, target_id);
        }
        let n: usize = self.targets.len();
        let mut i: usize = 0;
        while i < n
            invariant
                self == old(self),
                old(self).wf(),
                n == self@.len(),
                0 <= i <= n,
                forall|j: int| 0 <= j < i ==> (#[trigger] self@[j]).id != target_id,
            decreases n - i,
        {
            if self.targets[i].id == target_id {
                proof {
                    lemma_find_idx(self@, target_id);
                    assert(spec_find_idx(self@, target_id) == i);
                }
                self.targets.remove(i);
                proof {
                    assert forall|j: int| 0 <= j < self@.len() implies wf_target(
                        #[trigger] self@[j],
                    ) by {
                        if j < i {
                            assert(self@[j] == old(self)@[j]);
                        } else {
                            assert(self@[j] == old(self)@[j + 1]);
                        }
                        assert(old(self).wf());
                    }
                }
                return true;
            }
            i = i + 1;
        }
        proof {
            lemma_find_idx(self@, target_id);
        }
        false
    }

    /// Advances every target by the frame's drift offset: `dx` on the x
    /// axis and `dz` on the z axis, both in fixed-point units. The host
    /// derives the pair from the wall clock once per call, so every target
    /// moves by the same offset.
    pub fn update_targets(&mut self, dx: i64, dz: i64)
        requires
            old(self).wf(),
            forall|i: int| 0 <= i < old(self)@.len() ==> drift_in_range(
                #[trigger] old(self)@[i],
                dx as int,
                dz as int,
            ),
        ensures
            final(self)@ == spec_drift_all(old(self)@, dx, dz),
            final(self).wf(),
    {
        let n: usize = self.targets.len();
        let mut i: usize = 0;
        while i < n
            invariant
                old(self).wf(),
                forall|k: int| 0 <= k < old(self)@.len() ==> drift_in_range(
                    #[trigger] old(self)@[k],
                    dx as int,
                    dz as int,
                ),
                n == self@.len(),
                self@.len() == old(self)@.len(),
                0 <= i <= n,
                forall|k: int| 0 <= k < i ==> #[trigger] self@[k] == spec_drift(
                    old(self)@[k],
                    dx,
                    dz,
                ),
                forall|k: int| i <= k < n ==> #[trigger] self@[k] == old(self)@[k],
            decreases n - i,
        {
            proof {
                assert(drift_in_range(old(self)@[i as int], dx as int, dz as int));
                assert(wf_target(old(self)@[i as int]));
            }
            let t: Target = self.targets[i];
            let moved = Target { x: t.x + dx, y: t.y, z: t.z + dz, id: t.id, size: t.size };
            self.targets.set(i, moved);
            i = i + 1;
        }
        proof {
            assert(self@ =~= spec_drift_all(old(self)@, dx, dz));
            assert forall|k: int| 0 <= k < self@.len() implies wf_target(#[trigger] self@[k]) by {
                assert(drift_in_range(old(self)@[k], dx as int, dz as int));
                assert(wf_target(old(self)@[k]));
            }
        }
    }

    /// The number of live targets.
    pub fn target_count(&self) -> (n: usize)
        ensures
            n == self@.len(),
    {
        self.targets.len()
    }

    /// A copy of every live target, in insertion order.
    pub fn get_targets(&self) -> (r: Vec<Target>)
        ensures
            r@ == self@,
    {
        let n: usize = self.targets.len();
        let mut r: Vec<Target> = Vec::new();
        let mut i: usize = 0;
        while i < n
            invariant
                n == self@.len(),
                0 <= i <= n,
                r@ =~= self@.subrange(0, i as int),
            decreases n - i,
        {
            r.push(self.targets[i]);
            i = i + 1;
        }
        proof {
            assert(r@ =~= self@);
        }
        r
    }
}

} // verus!
