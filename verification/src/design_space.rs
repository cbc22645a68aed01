//! Points and affine transforms in design space.
//!
//! Design space is the coordinate system of the glyph being edited.
//! Coordinates are integer font units.

use vstd::prelude::*;

verus! {

/// Largest coordinate magnitude for which the tangent-handle arithmetic in
/// this crate is proved free of overflow.
pub const COORD_LIMIT: i64 = 0x800_0000_0000;

/// Largest magnitude of a coordinate or transform coefficient for which an
/// affine application is proved free of overflow; results are then bounded
/// by `COORD_LIMIT`.
pub const TRANSFORM_LIMIT: i64 = 0x10_0000;

/// A point in design space.
#[derive(Clone, Copy, Debug, PartialEq, Eq, Structural)]
pub struct DPoint {
    pub x: i64,
    pub y: i64,
}

impl DPoint {
    pub fn new(x: i64, y: i64) -> (r: DPoint)
        ensures
            r == (DPoint { x, y }),
    {
        DPoint { x, y }
    }

    /// Whether both coordinates have magnitude at most `b`.
    pub open spec fn bounded(self, b: int) -> bool {
        -b <= self.x <= b && -b <= self.y <= b
    }

    /// The point constrained to the horizontal or vertical axis through
    /// `other`, whichever is nearer in direction: if the horizontal distance
    /// dominates, the y coordinate snaps to `other.y`, otherwise the x
    /// coordinate snaps to `other.x`.
    pub open spec fn spec_axis_locked_to(self, other: DPoint) -> DPoint {
        if abs_int(self.x - other.x) > abs_int(self.y - other.y) {
            DPoint { x: self.x, y: other.y }
        } else {
            DPoint { x: other.x, y: self.y }
        }
    }

    /// Whether both coordinates are within the range the tangent-handle
    /// arithmetic supports.
    pub fn in_coord_limit(&self) -> (r: bool)
        ensures
            r == self.bounded(COORD_LIMIT as int),
    {
        -COORD_LIMIT <= self.x && self.x <= COORD_LIMIT && -COORD_LIMIT <= self.y && self.y
            <= COORD_LIMIT
    }

    pub fn axis_locked_to(self, other: DPoint) -> (r: DPoint)
        ensures
            r == self.spec_axis_locked_to(other),
    {
        let dx = abs_diff(self.x, other.x);
        let dy = abs_diff(self.y, other.y);
        if dx > dy {
            DPoint { x: self.x, y: other.y }
        } else {
            DPoint { x: other.x, y: self.y }
        }
    }
}

/// The absolute value of an integer.
pub open spec fn abs_int(v: int) -> int {
    if v < 0 {
        -v
    } else {
        v
    }
}

/// `|a - b|` without intermediate overflow.
pub fn abs_diff(a: i64, b: i64) -> (r: u64)
    ensures
        r == abs_int(a - b),
{
    if a >= b {
        let d: i128 = a as i128 - b as i128;
        d as u64
    } else {
        let d: i128 = b as i128 - a as i128;
        d as u64
    }
}

/// Whether `r` is the integer square root (rounded down) of `n`.
pub open spec fn is_sqrt(r: int, n: int) -> bool {
    0 <= r && r * r <= n && n < (r + 1) * (r + 1)
}

/// The integer square root, rounded down.
pub open spec fn sqrt_floor(n: int) -> int {
    choose|r: int| is_sqrt(r, n)
}

/// Squares are monotone, so a number has at most one integer square root.
pub proof fn lemma_sqrt_unique(a: int, b: int, n: int)
    by (nonlinear_arith)
    requires
        is_sqrt(a, n),
        is_sqrt(b, n),
    ensures
        a == b,
{
}

/// Every non-negative integer has an integer square root, so `sqrt_floor`
/// picks the witness.
pub proof fn lemma_sqrt_floor_is_sqrt(n: int)
    requires
        0 <= n,
    ensures
        is_sqrt(sqrt_floor(n), n),
    decreases n,
{
    if n == 0 {
        assert(is_sqrt(0, 0)) by (nonlinear_arith);
    } else {
        lemma_sqrt_floor_is_sqrt(n - 1);
        let r = sqrt_floor(n - 1);
        if (r + 1) * (r + 1) <= n {
            assert(is_sqrt(r + 1, n)) by (nonlinear_arith)
                requires
                    is_sqrt(r, n - 1),
                    (r + 1) * (r + 1) <= n,
            ;
        } else {
            assert(is_sqrt(r, n));
        }
    }
    let w = choose|r: int| is_sqrt(r, n);
    lemma_sqrt_unique(w, sqrt_floor(n), n);
}

/// The integer square root of `n`, rounded down.
pub fn isqrt(n: u128) -> (r: u64)
    ensures
        is_sqrt(r as int, n as int),
        r == sqrt_floor(n as int),
{
    let mut lo: u128 = 0;
    let mut hi: u128 = 0x1_0000_0000_0000_0000;
    proof {
        assert((hi as int) * (hi as int) > n as int) by (nonlinear_arith)
            requires
                hi == 0x1_0000_0000_0000_0000u128,
                n <= u128::MAX,
        ;
    }
    while hi - lo > 1
        invariant
            lo < hi,
            hi <= 0x1_0000_0000_0000_0000,
            (lo as int) * (lo as int) <= n as int,
            (n as int) < (hi as int) * (hi as int),
        decreases hi - lo,
    {
        let mid = lo + (hi - lo) / 2;
        proof {
            assert((mid as int) * (mid as int) <= (0xffff_ffff_ffff_ffffu128 as int) * (
            0xffff_ffff_ffff_ffffu128 as int)) by (nonlinear_arith)
                requires
                    0 <= mid < 0x1_0000_0000_0000_0000u128,
            ;
        }
        if mid * mid <= n {
            lo = mid;
        } else {
            hi = mid;
        }
    }
    proof {
        lemma_sqrt_floor_is_sqrt(n as int);
        lemma_sqrt_unique(lo as int, sqrt_floor(n as int), n as int);
    }
    lo as u64
}

/// `|a * b| <= la * lb` when `|a| <= la` and `|b| <= lb`.
pub proof fn lemma_abs_mul(a: int, b: int, la: int, lb: int)
    by (nonlinear_arith)
    requires
        -la <= a <= la,
        -lb <= b <= lb,
        0 <= la,
        0 <= lb,
    ensures
        -(la * lb) <= a * b <= la * lb,
{
}

/// The squared distance between two points.
pub open spec fn dist_sq(a: DPoint, b: DPoint) -> int {
    (a.x - b.x) * (a.x - b.x) + (a.y - b.y) * (a.y - b.y)
}

/// The distance between two points, rounded down to an integer.
pub open spec fn dist_floor(a: DPoint, b: DPoint) -> int {
    sqrt_floor(dist_sq(a, b))
}

/// The greatest common divisor, by Euclid's algorithm.
pub open spec fn spec_gcd(a: nat, b: nat) -> nat
    decreases b,
{
    if b == 0 {
        a
    } else {
        spec_gcd(b, a % b)
    }
}

/// The greatest common divisor divides both arguments, and is positive
/// whenever either argument is.
pub proof fn lemma_gcd_divides(a: nat, b: nat)
    ensures
        a != 0 || b != 0 ==> spec_gcd(a, b) >= 1 && a % spec_gcd(a, b) == 0 && b % spec_gcd(
            a,
            b,
        ) == 0,
    decreases b,
{
    if b == 0 {
        if a != 0 {
            vstd::arithmetic::div_mod::lemma_mod_self_0(a as int);
            vstd::arithmetic::div_mod::lemma_small_mod(0, a);
        }
    } else {
        lemma_gcd_divides(b, a % b);
        let g = spec_gcd(b, a % b);
        assert(g >= 1 && b % g == 0 && (a % b) % g == 0);
        vstd::arithmetic::div_mod::lemma_fundamental_div_mod(a as int, b as int);
        vstd::arithmetic::div_mod::lemma_fundamental_div_mod(b as int, g as int);
        vstd::arithmetic::div_mod::lemma_fundamental_div_mod((a % b) as int, g as int);
        let k = (b as int / g as int) * (a as int / b as int) + ((a % b) as int / g as int);
        assert(a as int == g as int * k) by (nonlinear_arith)
            requires
                a as int == b as int * (a as int / b as int) + (a % b) as int,
                b as int == g as int * (b as int / g as int),
                (a % b) as int == g as int * ((a % b) as int / g as int),
                k == (b as int / g as int) * (a as int / b as int) + ((a % b) as int / g
                    as int),
        ;
        vstd::arithmetic::div_mod::lemma_mod_multiples_basic(k, g as int);
        assert(a as int * 1 == k * (g as int)) by (nonlinear_arith)
            requires
                a as int == g as int * k,
        ;
    }
}

/// The greatest common divisor of two numbers.
pub fn gcd(a: u64, b: u64) -> (r: u64)
    ensures
        r == spec_gcd(a as nat, b as nat),
{
    let mut x = a;
    let mut y = b;
    while y != 0
        invariant
            spec_gcd(x as nat, y as nat) == spec_gcd(a as nat, b as nat),
        decreases y,
    {
        let t = x % y;
        x = y;
        y = t;
    }
    x
}

/// Whether `p` lies on the ray out of `center` exactly opposite to `moved`:
/// collinear (zero cross product) and on the other side (non-positive dot
/// product). This is the tangent-continuity condition the handle
/// maintenance enforces.
pub open spec fn opposite_ray(moved: DPoint, center: DPoint, p: DPoint) -> bool {
    let dx = moved.x - center.x;
    let dy = moved.y - center.y;
    let px = p.x - center.x;
    let py = p.y - center.y;
    px * dy == py * dx && px * dx + py * dy <= 0
}

/// One magnitude component of the mirrored offset: the reduced direction
/// component `a / g` times the number of whole primitive direction vectors
/// `(l2 * g) / l1` that fit in the partner's prior distance `l2`. The
/// result lies exactly on the direction's lattice ray.
pub open spec fn mirror_mag(a: int, g: int, l2: int, l1: int) -> int {
    (a / g) * ((l2 * g) / l1)
}

/// The mirrored offset component is non-negative and never exceeds the
/// prior distance.
pub proof fn lemma_mirror_mag_bound(a: int, g: int, l2: int, l1: int)
    requires
        0 <= a <= l1,
        1 <= g,
        1 <= l1,
        0 <= l2,
        a % g == 0,
    ensures
        0 <= mirror_mag(a, g, l2, l1) <= l2,
        0 <= (l2 * g) / l1,
{
    vstd::arithmetic::div_mod::lemma_fundamental_div_mod(a, g);
    vstd::arithmetic::div_mod::lemma_fundamental_div_mod(l2 * g, l1);
    vstd::arithmetic::div_mod::lemma_mod_bound(l2 * g, l1);
    let u = a / g;
    let m = (l2 * g) / l1;
    assert(0 <= m && 0 <= u && u * m <= l2) by (nonlinear_arith)
        requires
            a == g * u + a % g,
            a % g == 0,
            l2 * g == l1 * m + (l2 * g) % l1,
            0 <= (l2 * g) % l1 < l1,
            0 <= a <= l1,
            1 <= g,
            1 <= l1,
            0 <= l2,
    ;
}

/// A mirrored offset built from the reduced direction `(u, v)` scaled by
/// `m` is exactly anti-parallel to the direction `(dx, dy)`.
proof fn lemma_mirror_opposite(
    dx: int,
    dy: int,
    u: int,
    v: int,
    g: int,
    m: int,
    offx: int,
    offy: int,
)
    requires
        0 <= u,
        0 <= v,
        1 <= g,
        0 <= m,
        dx >= 0 ==> dx == g * u && offx == -(u * m),
        dx < 0 ==> dx == -(g * u) && offx == u * m,
        dy >= 0 ==> dy == g * v && offy == -(v * m),
        dy < 0 ==> dy == -(g * v) && offy == v * m,
    ensures
        offx * dy == offy * dx,
        offx * dx + offy * dy <= 0,
{
    if dx >= 0 {
        if dy >= 0 {
            assert(offx * dy == offy * dx && offx * dx + offy * dy <= 0) by (nonlinear_arith)
                requires
                    dx == g * u,
                    dy == g * v,
                    offx == -(u * m),
                    offy == -(v * m),
                    0 <= u && 0 <= v && 0 <= m && 1 <= g,
            ;
        } else {
            assert(offx * dy == offy * dx && offx * dx + offy * dy <= 0) by (nonlinear_arith)
                requires
                    dx == g * u,
                    dy == -(g * v),
                    offx == -(u * m),
                    offy == v * m,
                    0 <= u && 0 <= v && 0 <= m && 1 <= g,
            ;
        }
    } else {
        if dy >= 0 {
            assert(offx * dy == offy * dx && offx * dx + offy * dy <= 0) by (nonlinear_arith)
                requires
                    dx == -(g * u),
                    dy == g * v,
                    offx == u * m,
                    offy == -(v * m),
                    0 <= u && 0 <= v && 0 <= m && 1 <= g,
            ;
        } else {
            assert(offx * dy == offy * dx && offx * dx + offy * dy <= 0) by (nonlinear_arith)
                requires
                    dx == -(g * u),
                    dy == -(g * v),
                    offx == u * m,
                    offy == v * m,
                    0 <= u && 0 <= v && 0 <= m && 1 <= g,
            ;
        }
    }
}

/// The position a tangent partner handle moves to when its sibling handle
/// `moved` moves: on the lattice ray out of `center` (the shared smooth
/// on-curve point) exactly opposite to `moved`, as close to the partner's
/// own prior distance as the ray's lattice points allow. A partner that
/// already lies on that opposite ray is left exactly where it is, so the
/// adjustment is idempotent. `None` when `moved` coincides with `center`,
/// where no direction is defined.
pub open spec fn spec_tangent_mirror(moved: DPoint, center: DPoint, partner: DPoint) -> Option<
    DPoint,
> {
    if moved == center {
        None
    } else if opposite_ray(moved, center, partner) {
        Some(partner)
    } else {
        let dx = moved.x - center.x;
        let dy = moved.y - center.y;
        let ax = abs_int(dx);
        let ay = abs_int(dy);
        let g = spec_gcd(ax as nat, ay as nat) as int;
        let l1 = dist_floor(moved, center);
        let l2 = dist_floor(partner, center);
        let mx = mirror_mag(ax, g, l2, l1);
        let my = mirror_mag(ay, g, l2, l1);
        Some(
            DPoint {
                x: (center.x + if dx >= 0 {
                    -mx
                } else {
                    mx
                }) as i64,
                y: (center.y + if dy >= 0 {
                    -my
                } else {
                    my
                }) as i64,
            },
        )
    }
}

/// Compute the mirrored position for a tangent partner handle.
pub fn tangent_mirror(moved: DPoint, center: DPoint, partner: DPoint) -> (r: Option<DPoint>)
    requires
        moved.bounded(COORD_LIMIT as int),
        center.bounded(COORD_LIMIT as int),
        partner.bounded(COORD_LIMIT as int),
    ensures
        r == spec_tangent_mirror(moved, center, partner),
{
    let ax = abs_diff(moved.x, center.x);
    let ay = abs_diff(moved.y, center.y);
    if ax == 0 && ay == 0 {
        return None;
    }
    let dx: i128 = moved.x as i128 - center.x as i128;
    let dy: i128 = moved.y as i128 - center.y as i128;
    let qx: i128 = partner.x as i128 - center.x as i128;
    let qy: i128 = partner.y as i128 - center.y as i128;
    proof {
        lemma_abs_mul(qx as int, dy as int, 2 * COORD_LIMIT as int, 2 * COORD_LIMIT as int);
        lemma_abs_mul(qy as int, dx as int, 2 * COORD_LIMIT as int, 2 * COORD_LIMIT as int);
        lemma_abs_mul(qx as int, dx as int, 2 * COORD_LIMIT as int, 2 * COORD_LIMIT as int);
        lemma_abs_mul(qy as int, dy as int, 2 * COORD_LIMIT as int, 2 * COORD_LIMIT as int);
    }
    if qx * dy == qy * dx && qx * dx + qy * dy <= 0 {
        // the partner already lies on the opposite ray: leave it in place
        return Some(partner);
    }
    let g = gcd(ax, ay);
    proof {
        lemma_gcd_divides(ax as nat, ay as nat);
        lemma_abs_mul(ax as int, ax as int, COORD_LIMIT as int * 2, COORD_LIMIT as int * 2);
        lemma_abs_mul(ay as int, ay as int, COORD_LIMIT as int * 2, COORD_LIMIT as int * 2);
    }
    let u = ax / g;
    let v = ay / g;
    let l1 = isqrt(ax as u128 * ax as u128 + ay as u128 * ay as u128);
    let px = abs_diff(partner.x, center.x);
    let py = abs_diff(partner.y, center.y);
    proof {
        lemma_abs_mul(px as int, px as int, COORD_LIMIT as int * 2, COORD_LIMIT as int * 2);
        lemma_abs_mul(py as int, py as int, COORD_LIMIT as int * 2, COORD_LIMIT as int * 2);
    }
    let l2 = isqrt(px as u128 * px as u128 + py as u128 * py as u128);
    proof {
        // the component of an offset never exceeds the distance
        assert(ax <= l1 && ay <= l1) by (nonlinear_arith)
            requires
                is_sqrt(l1 as int, (ax as int) * (ax as int) + (ay as int) * (ay as int)),
                ax >= 0,
                ay >= 0,
        ;
        // the direction is defined, so the moved handle is at a positive distance
        assert(l1 >= 1) by (nonlinear_arith)
            requires
                is_sqrt(l1 as int, (ax as int) * (ax as int) + (ay as int) * (ay as int)),
                ax > 0 || ay > 0,
        ;
        // the partner's distance, and with it the offset, stays small
        assert(l2 < 0x2000_0000_0000u64) by (nonlinear_arith)
            requires
                is_sqrt(l2 as int, (px as int) * (px as int) + (py as int) * (py as int)),
                px <= 2 * COORD_LIMIT as u64,
                py <= 2 * COORD_LIMIT as u64,
                COORD_LIMIT == 0x800_0000_0000i64,
        ;
        assert(ax as int % g as int == 0 && u as int == ax as int / g as int);
        assert(ay as int % g as int == 0 && v as int == ay as int / g as int);
        lemma_mirror_mag_bound(ax as int, g as int, l2 as int, l1 as int);
        lemma_mirror_mag_bound(ay as int, g as int, l2 as int, l1 as int);
        // the divisor of a positive component is no larger than it
        if g > ax && g > ay {
            if ax > 0 {
                vstd::arithmetic::div_mod::lemma_small_mod(ax as nat, g as nat);
            } else {
                vstd::arithmetic::div_mod::lemma_small_mod(ay as nat, g as nat);
            }
        }
        assert(g <= ax || g <= ay);
        lemma_abs_mul(l2 as int, g as int, 0x2000_0000_0000, 2 * COORD_LIMIT as int);
    }
    let m = (l2 as u128 * g as u128) / (l1 as u128);
    proof {
        assert(m as int == (l2 as int * g as int) / (l1 as int));
        assert(u as int * m as int == mirror_mag(ax as int, g as int, l2 as int, l1 as int));
        assert(v as int * m as int == mirror_mag(ay as int, g as int, l2 as int, l1 as int));
    }
    let mx = u as u128 * m;
    let my = v as u128 * m;
    let offx: i64 = if moved.x >= center.x {
        -(mx as i64)
    } else {
        mx as i64
    };
    let offy: i64 = if moved.y >= center.y {
        -(my as i64)
    } else {
        my as i64
    };
    proof {
        let dmx = moved.x - center.x;
        let dmy = moved.y - center.y;
        let dpx = partner.x - center.x;
        let dpy = partner.y - center.y;
        assert((ax as int) * (ax as int) == dmx * dmx && (ay as int) * (ay as int) == dmy * dmy
            && (px as int) * (px as int) == dpx * dpx && (py as int) * (py as int) == dpy * dpy)
            by (nonlinear_arith)
            requires
                ax as int == abs_int(moved.x - center.x),
                ay as int == abs_int(moved.y - center.y),
                px as int == abs_int(partner.x - center.x),
                py as int == abs_int(partner.y - center.y),
                dmx == moved.x - center.x,
                dmy == moved.y - center.y,
                dpx == partner.x - center.x,
                dpy == partner.y - center.y,
        ;
        assert(l1 as int == dist_floor(moved, center));
        assert(l2 as int == dist_floor(partner, center));
        assert(moved != center);
        assert(!opposite_ray(moved, center, partner));
    }
    Some(DPoint { x: center.x + offx, y: center.y + offy })
}

/// The tangent adjustment is idempotent: the point it produces lies on the
/// exact opposite ray, so applying the mirror again with nothing moved
/// leaves it in place.
pub proof fn lemma_tangent_mirror_idempotent(moved: DPoint, center: DPoint, partner: DPoint)
    requires
        moved.bounded(COORD_LIMIT as int),
        center.bounded(COORD_LIMIT as int),
        partner.bounded(COORD_LIMIT as int),
    ensures
        spec_tangent_mirror(moved, center, partner) matches Some(q) ==> spec_tangent_mirror(
            moved,
            center,
            q,
        ) == Some(q),
{
    if moved != center && !opposite_ray(moved, center, partner) {
        let dx = moved.x - center.x;
        let dy = moved.y - center.y;
        let ax = abs_int(dx);
        let ay = abs_int(dy);
        let g = spec_gcd(ax as nat, ay as nat) as int;
        let l1 = dist_floor(moved, center);
        let l2 = dist_floor(partner, center);
        lemma_gcd_divides(ax as nat, ay as nat);
        assert(dist_sq(moved, center) >= 0 && dist_sq(partner, center) >= 0) by (nonlinear_arith);
        lemma_sqrt_floor_is_sqrt(dist_sq(moved, center));
        lemma_sqrt_floor_is_sqrt(dist_sq(partner, center));
        assert(ax * ax <= dist_sq(moved, center) && ay * ay <= dist_sq(moved, center) && l2 >= 0
            && ax <= l1 && ay <= l1 && l1 >= 1) by (nonlinear_arith)
            requires
                ax == abs_int(dx),
                ay == abs_int(dy),
                dx == moved.x - center.x,
                dy == moved.y - center.y,
                dx != 0 || dy != 0,
                dist_sq(moved, center) == dx * dx + dy * dy,
                is_sqrt(l1, dist_sq(moved, center)),
                is_sqrt(l2, dist_sq(partner, center)),
        ;
        lemma_mirror_mag_bound(ax, g, l2, l1);
        lemma_mirror_mag_bound(ay, g, l2, l1);
        let m = (l2 * g) / l1;
        let u = ax / g;
        let v = ay / g;
        let mx = mirror_mag(ax, g, l2, l1);
        let my = mirror_mag(ay, g, l2, l1);
        let offx = if dx >= 0 {
            -mx
        } else {
            mx
        };
        let offy = if dy >= 0 {
            -my
        } else {
            my
        };
        // the floored distance keeps the offset, and with it the result,
        // within machine range, so the stored coordinates are exact
        assert(l2 * l2 <= dist_sq(partner, center) && l2 < 0x2000_0000_0000) by (nonlinear_arith)
            requires
                is_sqrt(l2, dist_sq(partner, center)),
                dist_sq(partner, center) == (partner.x - center.x) * (partner.x - center.x) + (
                partner.y - center.y) * (partner.y - center.y),
                -COORD_LIMIT <= partner.x <= COORD_LIMIT,
                -COORD_LIMIT <= partner.y <= COORD_LIMIT,
                -COORD_LIMIT <= center.x <= COORD_LIMIT,
                -COORD_LIMIT <= center.y <= COORD_LIMIT,
                COORD_LIMIT == 0x800_0000_0000i64,
        ;
        let q = spec_tangent_mirror(moved, center, partner)->Some_0;
        assert(q.x == center.x + offx && q.y == center.y + offy);
        vstd::arithmetic::div_mod::lemma_fundamental_div_mod(ax, g);
        vstd::arithmetic::div_mod::lemma_fundamental_div_mod(ay, g);
        lemma_mirror_opposite(dx, dy, u, v, g, m, offx, offy);
        assert((q.x - center.x) * dy == (q.y - center.y) * dx && (q.x - center.x) * dx + (q.y
            - center.y) * dy <= 0);
        assert(opposite_ray(moved, center, q));
    }
}

/// An affine transform with integer coefficients: the image of `(x, y)` is
/// `(xx * x + xy * y + dx, yx * x + yy * y + dy)`.
#[derive(Clone, Copy, Debug, PartialEq, Eq, Structural)]
pub struct Transform {
    pub xx: i64,
    pub xy: i64,
    pub yx: i64,
    pub yy: i64,
    pub dx: i64,
    pub dy: i64,
}

impl Transform {
    /// The identity transform.
    pub fn identity() -> (r: Transform)
        ensures
            r == (Transform { xx: 1, xy: 0, yx: 0, yy: 1, dx: 0, dy: 0 }),
    {
        Transform { xx: 1, xy: 0, yx: 0, yy: 1, dx: 0, dy: 0 }
    }

    /// Whether every coefficient has magnitude at most `b`.
    pub open spec fn bounded(self, b: int) -> bool {
        &&& -b <= self.xx <= b
        &&& -b <= self.xy <= b
        &&& -b <= self.yx <= b
        &&& -b <= self.yy <= b
        &&& -b <= self.dx <= b
        &&& -b <= self.dy <= b
    }

    /// The x coordinate of the image of `p` under this transform applied
    /// relative to `anchor`: `anchor` is treated as the origin.
    pub open spec fn spec_apply_x(self, anchor: DPoint, p: DPoint) -> int {
        anchor.x + self.xx * (p.x - anchor.x) + self.xy * (p.y - anchor.y) + self.dx
    }

    /// The y coordinate of the image of `p` under this transform applied
    /// relative to `anchor`.
    pub open spec fn spec_apply_y(self, anchor: DPoint, p: DPoint) -> int {
        anchor.y + self.yx * (p.x - anchor.x) + self.yy * (p.y - anchor.y) + self.dy
    }

    /// The image of `p` under this transform applied relative to `anchor`.
    pub open spec fn spec_apply(self, anchor: DPoint, p: DPoint) -> DPoint {
        DPoint { x: self.spec_apply_x(anchor, p) as i64, y: self.spec_apply_y(anchor, p) as i64 }
    }

    /// Apply this transform to `p`, treating `anchor` as the origin.
    pub fn apply(self, anchor: DPoint, p: DPoint) -> (r: DPoint)
        requires
            self.bounded(TRANSFORM_LIMIT as int),
            anchor.bounded(TRANSFORM_LIMIT as int),
            p.bounded(TRANSFORM_LIMIT as int),
        ensures
            r == self.spec_apply(anchor, p),
            r.x == self.spec_apply_x(anchor, p),
            r.y == self.spec_apply_y(anchor, p),
            r.bounded(COORD_LIMIT as int),
    {
        let vx: i128 = p.x as i128 - anchor.x as i128;
        let vy: i128 = p.y as i128 - anchor.y as i128;
        proof {
            lemma_abs_mul(self.xx as int, vx as int, TRANSFORM_LIMIT as int, 2 * TRANSFORM_LIMIT as int);
            lemma_abs_mul(self.xy as int, vy as int, TRANSFORM_LIMIT as int, 2 * TRANSFORM_LIMIT as int);
            lemma_abs_mul(self.yx as int, vx as int, TRANSFORM_LIMIT as int, 2 * TRANSFORM_LIMIT as int);
            lemma_abs_mul(self.yy as int, vy as int, TRANSFORM_LIMIT as int, 2 * TRANSFORM_LIMIT as int);
        }
        let rx: i128 = anchor.x as i128 + self.xx as i128 * vx + self.xy as i128 * vy
            + self.dx as i128;
        let ry: i128 = anchor.y as i128 + self.yx as i128 * vx + self.yy as i128 * vy
            + self.dy as i128;
        DPoint { x: rx as i64, y: ry as i64 }
    }
}

} // verus!
