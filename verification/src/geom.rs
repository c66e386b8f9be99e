//! Fixed-point 3-D geometry: exact squared distances, an integer square
//! root, Euclidean distance and vector normalization.
//!
//! Coordinates are `i64` values in fixed point, `SCALE` units per world unit,
//! and are kept within `COORD_LIMIT` so that every intermediate product fits
//! the machine integers.

use vstd::prelude::*;

verus! {

/// Fixed-point scale: this many integer units make one world unit.
pub const SCALE: i64 = 1000000;

/// Largest coordinate magnitude the geometry accepts (a billion world units);
/// keeps sums of squared differences inside `u128`.
pub const COORD_LIMIT: i64 = 1000000000000000;

/// The square of an integer.
pub open spec fn sq(a: int) -> int {
    a * a
}

/// Exact squared Euclidean distance between two points.
pub open spec fn spec_dist_sq(x1: int, y1: int, z1: int, x2: int, y2: int, z2: int) -> int {
    sq(x2 - x1) + sq(y2 - y1) + sq(z2 - z1)
}

/// `r` is the integer square root of `n`: the largest integer whose square
/// does not exceed `n`.
pub open spec fn is_isqrt(n: int, r: int) -> bool {
    0 <= r && r * r <= n && n < (r + 1) * (r + 1)
}

/// The integer square root of a non-negative integer.
pub open spec fn spec_isqrt(n: int) -> int
    recommends
        n >= 0,
{
    choose|r: int| is_isqrt(n, r)
}

/// Two integer square roots of the same number are equal.
pub proof fn lemma_isqrt_unique(n: int, r1: int, r2: int)
    requires
        is_isqrt(n, r1),
        is_isqrt(n, r2),
    ensures
        r1 == r2,
{
    assert(r1 == r2) by (nonlinear_arith)
        requires
            0 <= r1,
            0 <= r2,
            r1 * r1 <= n,
            n < (r1 + 1) * (r1 + 1),
            r2 * r2 <= n,
            n < (r2 + 1) * (r2 + 1),
    ;
}

/// A witness pins `spec_isqrt` down.
pub proof fn lemma_isqrt_is(n: int, r: int)
    requires
        is_isqrt(n, r),
    ensures
        spec_isqrt(n) == r,
{
    assert(is_isqrt(n, spec_isqrt(n)));
    lemma_isqrt_unique(n, spec_isqrt(n), r);
}

/// Every non-negative integer has an integer square root.
pub proof fn lemma_isqrt_exists(n: int)
    requires
        n >= 0,
    ensures
        is_isqrt(n, spec_isqrt(n)),
    decreases n,
{
    if n == 0 {
        assert(is_isqrt(0, 0));
        lemma_isqrt_is(0, 0);
    } else {
        lemma_isqrt_exists(n - 1);
        let r = spec_isqrt(n - 1);
        if n < (r + 1) * (r + 1) {
            assert(is_isqrt(n, r));
            lemma_isqrt_is(n, r);
        } else {
            assert((r + 1) * (r + 1) < (r + 2) * (r + 2)) by (nonlinear_arith)
                requires
                    r >= 0,
            ;
            assert(is_isqrt(n, r + 1));
            lemma_isqrt_is(n, r + 1);
        }
    }
}

/// A square root is smaller than any `k` whose square exceeds `n`.
proof fn lemma_sqrt_below(n: int, r: int, k: int)
    requires
        0 <= r,
        0 < k,
        r * r <= n,
        n < k * k,
    ensures
        r < k,
{
    assert(r < k) by (nonlinear_arith)
        requires
            0 <= r,
            0 < k,
            r * r <= n,
            n < k * k,
    ;
}

/// Integer square root by bisection: the largest `r` with `r * r <= n`.
pub fn isqrt_u128(n: u128) -> (r: u128)
    ensures
        is_isqrt(n as int, r as int),
{
    let mut lo: u128 = 0;
    let mut hi: u128 = 0x10000000000000000;
    assert(n < hi * hi) by (nonlinear_arith)
        requires
            n <= u128::MAX,
            hi == 0x10000000000000000u128,
    ;
    while lo + 1 < hi
        invariant
            lo < hi,
            hi <= 0x10000000000000000,
            lo * lo <= n,
            n < hi * hi,
        decreases hi - lo,
    {
        let mid: u128 = lo + (hi - lo) / 2;
        assert(lo < mid < hi);
        assert(mid * mid <= u128::MAX) by (nonlinear_arith)
            requires
                0 < mid < 0x10000000000000000u128,
        ;
        if mid * mid <= n {
            lo = mid;
        } else {
            hi = mid;
        }
    }
    lo
}

/// The six coordinates of two points all lie within `COORD_LIMIT`.
pub open spec fn coords_in_range(x1: int, y1: int, z1: int, x2: int, y2: int, z2: int) -> bool {
    &&& -COORD_LIMIT <= x1 <= COORD_LIMIT
    &&& -COORD_LIMIT <= y1 <= COORD_LIMIT
    &&& -COORD_LIMIT <= z1 <= COORD_LIMIT
    &&& -COORD_LIMIT <= x2 <= COORD_LIMIT
    &&& -COORD_LIMIT <= y2 <= COORD_LIMIT
    &&& -COORD_LIMIT <= z2 <= COORD_LIMIT
}

/// A squared coordinate difference stays within `4e30`.
proof fn lemma_sq_diff_bound(a: int, b: int)
    requires
        -COORD_LIMIT <= a <= COORD_LIMIT,
        -COORD_LIMIT <= b <= COORD_LIMIT,
    ensures
        0 <= sq(b - a) <= 4000000000000000000000000000000,
{
    assert(0 <= (b - a) * (b - a) <= 4000000000000000000000000000000) by (nonlinear_arith)
        requires
            -2000000000000000 <= b - a <= 2000000000000000,
    ;
}

/// Exact squared distance between two fixed-point points.
pub fn dist_sq_u128(x1: i64, y1: i64, z1: i64, x2: i64, y2: i64, z2: i64) -> (s: u128)
    requires
        coords_in_range(x1 as int, y1 as int, z1 as int, x2 as int, y2 as int, z2 as int),
    ensures
        s == spec_dist_sq(x1 as int, y1 as int, z1 as int, x2 as int, y2 as int, z2 as int),
        s <= 12000000000000000000000000000000,
{
    let dx: i128 = x2 as i128 - x1 as i128;
    let dy: i128 = y2 as i128 - y1 as i128;
    let dz: i128 = z2 as i128 - z1 as i128;
    proof {
        lemma_sq_diff_bound(x1 as int, x2 as int);
        lemma_sq_diff_bound(y1 as int, y2 as int);
        lemma_sq_diff_bound(z1 as int, z2 as int);
    }
    let sx: u128 = (dx * dx) as u128;
    let sy: u128 = (dy * dy) as u128;
    let sz: u128 = (dz * dz) as u128;
    sx + sy + sz
}

/// Euclidean distance between two fixed-point points, itself in fixed-point
/// units: the integer square root of the exact squared distance.
pub fn fast_distance(x1: i64, y1: i64, z1: i64, x2: i64, y2: i64, z2: i64) -> (r: u64)
    requires
        coords_in_range(x1 as int, y1 as int, z1 as int, x2 as int, y2 as int, z2 as int),
    ensures
        r == spec_isqrt(spec_dist_sq(x1 as int, y1 as int, z1 as int, x2 as int, y2 as int, z2 as int)),
        is_isqrt(spec_dist_sq(x1 as int, y1 as int, z1 as int, x2 as int, y2 as int, z2 as int), r as int),
{
    let s: u128 = dist_sq_u128(x1, y1, z1, x2, y2, z2);
    let root: u128 = isqrt_u128(s);
    proof {
        lemma_sqrt_below(s as int, root as int, 4000000000000000000 as int);
        lemma_isqrt_is(s as int, root as int);
    }
    root as u64
}

/// Division that truncates toward zero, the rounding the fixed-point
/// quotients use; `a / b` on `int` rounds toward negative infinity instead.
pub open spec fn div_trunc(a: int, b: int) -> int
    recommends
        b > 0,
{
    if a >= 0 {
        a / b
    } else {
        -((-a) / b)
    }
}

/// A squared distance vanishes exactly on coinciding points.
pub proof fn lemma_dist_sq_zero(x1: int, y1: int, z1: int, x2: int, y2: int, z2: int)
    ensures
        spec_dist_sq(x1, y1, z1, x2, y2, z2) == 0 <==> (x1 == x2 && y1 == y2 && z1 == z2),
{
    assert((x2 - x1) * (x2 - x1) + (y2 - y1) * (y2 - y1) + (z2 - z1) * (z2 - z1) == 0 <==> (
    x1 == x2 && y1 == y2 && z1 == z2)) by (nonlinear_arith);
}

/// Distance is symmetric in its two points, and zero from a point to itself.
pub proof fn lemma_distance_symmetry(x1: int, y1: int, z1: int, x2: int, y2: int, z2: int)
    ensures
        spec_dist_sq(x1, y1, z1, x2, y2, z2) == spec_dist_sq(x2, y2, z2, x1, y1, z1),
        spec_isqrt(spec_dist_sq(x1, y1, z1, x2, y2, z2)) == spec_isqrt(
            spec_dist_sq(x2, y2, z2, x1, y1, z1),
        ),
        spec_dist_sq(x1, y1, z1, x1, y1, z1) == 0,
        spec_isqrt(spec_dist_sq(x1, y1, z1, x1, y1, z1)) == 0,
{
    assert(sq(x2 - x1) == sq(x1 - x2) && sq(y2 - y1) == sq(y1 - y2) && sq(z2 - z1) == sq(
    z1 - z2)) by (nonlinear_arith);
    assert(spec_dist_sq(x1, y1, z1, x1, y1, z1) == 0);
    assert(is_isqrt(0, 0));
    lemma_isqrt_is(0, 0);
}

/// Scales one coordinate of a unit vector: `c * SCALE / len`, truncating
/// toward zero.
fn scale_component(c: i64, len: u128) -> (q: i64)
    requires
        0 < len,
        -COORD_LIMIT <= c <= COORD_LIMIT,
        c * c < (len + 1) * (len + 1),
    ensures
        q == div_trunc(c as int * SCALE as int, len as int),
        -SCALE <= q <= SCALE,
{
    let ac: u128 = if c < 0 {
        (-c) as u128
    } else {
        c as u128
    };
    assert(ac as int * ac as int == c as int * c as int) by (nonlinear_arith)
        requires
            ac as int == if c as int >= 0 {
                c as int
            } else {
                -(c as int)
            },
    ;
    assert(ac <= len) by (nonlinear_arith)
        requires
            0 <= ac,
            0 < len,
            (ac as int) * (ac as int) < (len + 1) * (len + 1),
    ;
    let scaled: u128 = ac * 1000000;
    assert(scaled <= len * 1000000);
    let qq: u128 = scaled / len;
    proof {
        vstd::arithmetic::div_mod::lemma_div_is_ordered(
            scaled as int,
            (len * 1000000) as int,
            len as int,
        );
        vstd::arithmetic::div_mod::lemma_div_multiples_vanish(
            1000000 as int,
            len as int,
        );
        assert(qq <= 1000000);
    }
    if c < 0 {
        assert(-(c as int * SCALE as int) == ac as int * 1000000);
        -(qq as i64)
    } else {
        qq as i64
    }
}

/// `a * d / SCALE`, truncating toward zero: scales a unit-circle coordinate
/// (in `SCALE` units) by a fixed-point length.
pub fn scale_mul(a: i64, d: i64) -> (q: i64)
    requires
        -SCALE <= a <= SCALE,
        0 <= d <= 11 * SCALE,
    ensures
        q == div_trunc(a as int * d as int, SCALE as int),
        -d <= q <= d,
{
    let ua: u64 = if a < 0 {
        (-a) as u64
    } else {
        a as u64
    };
    assert(ua * (d as u64) <= 11000000000000) by (nonlinear_arith)
        requires
            ua <= 1000000,
            d as u64 <= 11000000,
    ;
    let prod: u64 = ua * (d as u64);
    let uq: u64 = prod / 1000000;
    proof {
        assert(prod as int <= 1000000 * (d as int)) by (nonlinear_arith)
            requires
                ua as int <= 1000000,
                0 <= d as int,
                prod as int == (ua as int) * (d as int),
        ;
        vstd::arithmetic::div_mod::lemma_div_is_ordered(
            prod as int,
            1000000 * (d as int),
            1000000,
        );
        vstd::arithmetic::div_mod::lemma_div_multiples_vanish(d as int, 1000000);
        assert(uq as int <= d as int);
        assert((ua as int) * (d as int) == if a as int >= 0 {
            (a as int) * (d as int)
        } else {
            -((a as int) * (d as int))
        }) by (nonlinear_arith)
            requires
                0 <= d as int,
                ua as int == if a as int >= 0 {
                    a as int
                } else {
                    -(a as int)
                },
        ;
    }
    if a < 0 {
        -(uq as i64)
    } else {
        uq as i64
    }
}

/// The quotient `q` of `a * d / b`, truncated toward zero, pins `|a| * d`
/// between `b * |q|` and `b * |q| + b - 1`, and takes the sign of `a`.
proof fn lemma_div_trunc_bounds(a: int, d: int, b: int, q: int)
    requires
        0 < b,
        0 <= d,
        q == div_trunc(a * d, b),
    ensures
        b * vstd::math::abs(q) <= vstd::math::abs(a) * d,
        vstd::math::abs(a) * d <= b * vstd::math::abs(q) + b - 1,
        a >= 0 ==> q >= 0,
        a <= 0 ==> q <= 0,
{
    let p = a * d;
    if a >= 0 {
        assert(p >= 0) by (nonlinear_arith)
            requires
                a >= 0,
                d >= 0,
                p == a * d,
        ;
        vstd::arithmetic::div_mod::lemma_fundamental_div_mod(p, b);
        vstd::arithmetic::div_mod::lemma_mod_bound(p, b);
        vstd::arithmetic::div_mod::lemma_div_pos_is_pos(p, b);
        assert(q == p / b);
        assert(vstd::math::abs(a) * d == p);
    } else {
        let m = -p;
        assert(m == (-a) * d && m >= 0) by (nonlinear_arith)
            requires
                a < 0,
                d >= 0,
                p == a * d,
                m == -p,
        ;
        vstd::arithmetic::div_mod::lemma_fundamental_div_mod(m, b);
        vstd::arithmetic::div_mod::lemma_mod_bound(m, b);
        vstd::arithmetic::div_mod::lemma_div_pos_is_pos(m, b);
        assert(q == -(m / b));
        assert(vstd::math::abs(a) * d == m);
    }
}

/// Spawned positions land on the annular band: with a truncated unit-circle
/// direction and a radial length `d` drawn from `[3 * SCALE, 11 * SCALE)`,
/// the horizontal radius stays below `11 * SCALE` and within seven
/// fixed-point units of `3 * SCALE` from below.
pub proof fn lemma_spawn_band(cos_a: int, sin_a: int, d: int, x: int, z: int)
    requires
        (SCALE as int) * (SCALE as int) - 3 * (SCALE as int) <= cos_a * cos_a + sin_a * sin_a,
        cos_a * cos_a + sin_a * sin_a <= (SCALE as int) * (SCALE as int),
        3 * (SCALE as int) <= d < 11 * (SCALE as int),
        x == div_trunc(cos_a * d, SCALE as int),
        z == div_trunc(sin_a * d, SCALE as int),
    ensures
        x * x + z * z < (11 * (SCALE as int)) * (11 * (SCALE as int)),
        x * x + z * z >= (3 * (SCALE as int) - 7) * (3 * (SCALE as int) - 7),
{
    let sc = SCALE as int;
    lemma_div_trunc_bounds(cos_a, d, sc, x);
    lemma_div_trunc_bounds(sin_a, d, sc, z);
    let ac = vstd::math::abs(cos_a);
    let bc = vstd::math::abs(sin_a);
    let ax = vstd::math::abs(x);
    let az = vstd::math::abs(z);
    assert(ac * ac == cos_a * cos_a && bc * bc == sin_a * sin_a && ax * ax == x * x && az * az == z
        * z && ac >= 0 && bc >= 0 && ax >= 0 && az >= 0) by (nonlinear_arith)
        requires
            ac == vstd::math::abs(cos_a),
            bc == vstd::math::abs(sin_a),
            ax == vstd::math::abs(x),
            az == vstd::math::abs(z),
    ;
    assert(ac <= sc && bc <= sc) by (nonlinear_arith)
        requires
            ac >= 0,
            bc >= 0,
            sc > 0,
            ac * ac + bc * bc <= sc * sc,
    ;
    // Upper bound: truncation only shrinks, so the radius stays under d.
    assert((sc * ax) * (sc * ax) + (sc * az) * (sc * az) <= (ac * ac + bc * bc) * (d * d))
        by (nonlinear_arith)
        requires
            0 <= sc * ax <= ac * d,
            0 <= sc * az <= bc * d,
            0 <= d,
    ;
    assert((ac * ac + bc * bc) * (d * d) <= (sc * sc) * (d * d)) by (nonlinear_arith)
        requires
            ac * ac + bc * bc <= sc * sc,
    ;
    assert(ax * ax + az * az <= d * d) by (nonlinear_arith)
        requires
            (sc * ax) * (sc * ax) + (sc * az) * (sc * az) <= (sc * sc) * (d * d),
            sc > 0,
    ;
    assert(d * d < (11 * sc) * (11 * sc)) by (nonlinear_arith)
        requires
            0 <= d < 11 * sc,
    ;
    // Lower bound: truncation loses less than one fixed-point unit per axis.
    assert((sc * ax) * (sc * ax) >= (ac * d) * (ac * d) - 2 * sc * (ac * d)) by (nonlinear_arith)
        requires
            sc * ax >= 0,
            ac * d >= 0,
            sc > 0,
            sc * ax >= ac * d - sc,
    ;
    assert((sc * az) * (sc * az) >= (bc * d) * (bc * d) - 2 * sc * (bc * d)) by (nonlinear_arith)
        requires
            sc * az >= 0,
            bc * d >= 0,
            sc > 0,
            sc * az >= bc * d - sc,
    ;
    assert((ac * d) * (ac * d) + (bc * d) * (bc * d) == (ac * ac + bc * bc) * (d * d))
        by (nonlinear_arith);
    assert(2 * sc * (ac * d) + 2 * sc * (bc * d) <= 4 * (sc * sc) * d) by (nonlinear_arith)
        requires
            ac <= sc,
            bc <= sc,
            d >= 0,
            sc > 0,
    ;
    assert((ac * ac + bc * bc) * (d * d) >= (sc * sc - 3 * sc) * (d * d)) by (nonlinear_arith)
        requires
            ac * ac + bc * bc >= sc * sc - 3 * sc,
    ;
    assert((sc * sc - 3 * sc) * (d * d) - 4 * (sc * sc) * d >= (sc * sc) * ((3 * sc - 7) * (3 * sc
        - 7))) by (nonlinear_arith)
        requires
            sc == 1000000,
            3 * sc <= d < 11 * sc,
    ;
    assert((sc * ax) * (sc * ax) + (sc * az) * (sc * az) == (sc * sc) * (ax * ax + az * az))
        by (nonlinear_arith);
    assert(ax * ax + az * az >= (3 * sc - 7) * (3 * sc - 7)) by (nonlinear_arith)
        requires
            (sc * sc) * (ax * ax + az * az) >= (sc * sc) * ((3 * sc - 7) * (3 * sc - 7)),
            sc > 0,
    ;
}

/// Normalization lands within fixed-point tolerance of unit world length:
/// for a vector at least one world unit long, the squared length of the
/// normalized vector stays within a few thousandths of `SCALE * SCALE`.
pub proof fn lemma_normalize_unit_length(x: int, y: int, z: int, nx: int, ny: int, nz: int)
    requires
        spec_dist_sq(0, 0, 0, x, y, z) >= (SCALE as int) * (SCALE as int),
        nx == div_trunc(x * (SCALE as int), spec_isqrt(spec_dist_sq(0, 0, 0, x, y, z))),
        ny == div_trunc(y * (SCALE as int), spec_isqrt(spec_dist_sq(0, 0, 0, x, y, z))),
        nz == div_trunc(z * (SCALE as int), spec_isqrt(spec_dist_sq(0, 0, 0, x, y, z))),
    ensures
        (SCALE as int) * (SCALE as int) - 6 * (SCALE as int) <= nx * nx + ny * ny + nz * nz,
        nx * nx + ny * ny + nz * nz <= (SCALE as int) * (SCALE as int) + 3 * (SCALE as int),
{
    let sc = SCALE as int;
    let s = spec_dist_sq(0, 0, 0, x, y, z);
    lemma_isqrt_exists(s);
    let len = spec_isqrt(s);
    assert(len >= sc) by (nonlinear_arith)
        requires
            0 <= len,
            0 < sc,
            s < (len + 1) * (len + 1),
            sc * sc <= s,
    ;
    let ax = vstd::math::abs(x);
    let ay = vstd::math::abs(y);
    let az = vstd::math::abs(z);
    let anx = vstd::math::abs(nx);
    let any = vstd::math::abs(ny);
    let anz = vstd::math::abs(nz);
    assert(ax * ax == x * x && ay * ay == y * y && az * az == z * z && anx * anx == nx * nx && any
        * any == ny * ny && anz * anz == nz * nz) by (nonlinear_arith)
        requires
            ax == vstd::math::abs(x),
            ay == vstd::math::abs(y),
            az == vstd::math::abs(z),
            anx == vstd::math::abs(nx),
            any == vstd::math::abs(ny),
            anz == vstd::math::abs(nz),
    ;
    assert(ax * ax + ay * ay + az * az == s);
    assert(ax <= len && ay <= len && az <= len) by (nonlinear_arith)
        requires
            0 <= ax,
            0 <= ay,
            0 <= az,
            0 <= len,
            ax * ax <= s,
            ay * ay <= s,
            az * az <= s,
            s < (len + 1) * (len + 1),
    ;
    lemma_div_trunc_bounds(x, sc, len, nx);
    lemma_div_trunc_bounds(y, sc, len, ny);
    lemma_div_trunc_bounds(z, sc, len, nz);
    let t = anx * anx + any * any + anz * anz;
    // Upper bound: truncation only shrinks each scaled component.
    assert((len * anx) * (len * anx) <= (ax * sc) * (ax * sc)) by (nonlinear_arith)
        requires
            0 <= len * anx <= ax * sc,
    ;
    assert((len * any) * (len * any) <= (ay * sc) * (ay * sc)) by (nonlinear_arith)
        requires
            0 <= len * any <= ay * sc,
    ;
    assert((len * anz) * (len * anz) <= (az * sc) * (az * sc)) by (nonlinear_arith)
        requires
            0 <= len * anz <= az * sc,
    ;
    assert((ax * sc) * (ax * sc) + (ay * sc) * (ay * sc) + (az * sc) * (az * sc) == s * (sc * sc))
        by (nonlinear_arith)
        requires
            ax * ax + ay * ay + az * az == s,
    ;
    assert((len * anx) * (len * anx) + (len * any) * (len * any) + (len * anz) * (len * anz) <= s
        * (sc * sc));
    assert((len * anx) * (len * anx) + (len * any) * (len * any) + (len * anz) * (len * anz) == (
    len * len) * t) by (nonlinear_arith)
        requires
            t == anx * anx + any * any + anz * anz,
    ;
    assert((len * len) * t < ((len + 1) * (len + 1)) * (sc * sc)) by (nonlinear_arith)
        requires
            (len * len) * t <= s * (sc * sc),
            s < (len + 1) * (len + 1),
            0 < sc,
    ;
    assert((len * len) * (sc * sc + 3 * sc + 1) >= ((len + 1) * (len + 1)) * (sc * sc))
        by (nonlinear_arith)
        requires
            len >= sc,
            sc == 1000000,
    ;
    assert(t <= sc * sc + 3 * sc) by (nonlinear_arith)
        requires
            (len * len) * t < ((len + 1) * (len + 1)) * (sc * sc),
            (len * len) * (sc * sc + 3 * sc + 1) >= ((len + 1) * (len + 1)) * (sc * sc),
            0 < len,
    ;
    // Lower bound: truncation loses less than one unit per component.
    assert((len * anx) * (len * anx) >= (ax * sc) * (ax * sc) - 2 * len * (ax * sc))
        by (nonlinear_arith)
        requires
            len * anx >= 0,
            ax * sc >= 0,
            len > 0,
            len * anx >= ax * sc - len,
    ;
    assert((len * any) * (len * any) >= (ay * sc) * (ay * sc) - 2 * len * (ay * sc))
        by (nonlinear_arith)
        requires
            len * any >= 0,
            ay * sc >= 0,
            len > 0,
            len * any >= ay * sc - len,
    ;
    assert((len * anz) * (len * anz) >= (az * sc) * (az * sc) - 2 * len * (az * sc))
        by (nonlinear_arith)
        requires
            len * anz >= 0,
            az * sc >= 0,
            len > 0,
            len * anz >= az * sc - len,
    ;
    assert((ax * sc) * (ax * sc) + (ay * sc) * (ay * sc) + (az * sc) * (az * sc) == s * (sc * sc))
        by (nonlinear_arith)
        requires
            ax * ax + ay * ay + az * az == s,
    ;
    assert(2 * len * (ax * sc) + 2 * len * (ay * sc) + 2 * len * (az * sc) <= 6 * sc * (len * len))
        by (nonlinear_arith)
        requires
            ax <= len,
            ay <= len,
            az <= len,
            len > 0,
            sc > 0,
    ;
    assert(s * (sc * sc) >= (len * len) * (sc * sc)) by (nonlinear_arith)
        requires
            s >= len * len,
            sc > 0,
    ;
    assert((len * len) * t >= (len * len) * (sc * sc) - 6 * sc * (len * len));
    assert(t >= sc * sc - 6 * sc) by (nonlinear_arith)
        requires
            (len * len) * t >= (len * len) * (sc * sc) - 6 * sc * (len * len),
            len > 0,
    ;
}

/// Normalizes a fixed-point vector to unit world length (`SCALE` units):
/// each component becomes `c * SCALE / |v|`, truncated toward zero; the zero
/// vector stays the zero vector.
pub fn fast_normalize(x: i64, y: i64, z: i64) -> (r: Vec<i64>)
    requires
        -COORD_LIMIT <= x <= COORD_LIMIT,
        -COORD_LIMIT <= y <= COORD_LIMIT,
        -COORD_LIMIT <= z <= COORD_LIMIT,
    ensures
        r@.len() == 3,
        (x == 0 && y == 0 && z == 0) ==> r@ == seq![0i64, 0i64, 0i64],
        !(x == 0 && y == 0 && z == 0) ==> ({
            let len = spec_isqrt(spec_dist_sq(0, 0, 0, x as int, y as int, z as int));
            &&& len > 0
            &&& r@[0] == div_trunc(x as int * SCALE as int, len)
            &&& r@[1] == div_trunc(y as int * SCALE as int, len)
            &&& r@[2] == div_trunc(z as int * SCALE as int, len)
        }),
{
    let len: u64 = fast_distance(0, 0, 0, x, y, z);
    let mut r: Vec<i64> = Vec::new();
    if len == 0 {
        proof {
            let s = spec_dist_sq(0, 0, 0, x as int, y as int, z as int);
            assert(is_isqrt(s, 0));
            assert(0 * 0 == 0 && 1 * 1 == 1) by (nonlinear_arith);
            assert(s == 0);
            lemma_dist_sq_zero(0, 0, 0, x as int, y as int, z as int);
            assert(x == 0 && y == 0 && z == 0);
        }
        r.push(0);
        r.push(0);
        r.push(0);
        assert(r@ =~= seq![0i64, 0i64, 0i64]);
    } else {
        assert(spec_isqrt(spec_dist_sq(0, 0, 0, x as int, y as int, z as int)) == len as int);
        assert(len as int > 0);
        proof {
            let xi = x as int;
            let yi = y as int;
            let zi = z as int;
            assert(xi * xi <= xi * xi + yi * yi + zi * zi && yi * yi <= xi * xi + yi * yi + zi * zi
                && zi * zi <= xi * xi + yi * yi + zi * zi) by (nonlinear_arith);
            assert(spec_dist_sq(0, 0, 0, xi, yi, zi) == xi * xi + yi * yi + zi * zi);
            assert(spec_dist_sq(0, 0, 0, xi, yi, zi) < (len + 1) * (len + 1));
        }
        let qx: i64 = scale_component(x, len as u128);
        let qy: i64 = scale_component(y, len as u128);
        let qz: i64 = scale_component(z, len as u128);
        r.push(qx);
        r.push(qy);
        r.push(qz);
        assert(r@ =~= seq![qx, qy, qz]);
    }
    r
}

} // verus!
