//! Euclidean lengths on the lattice in fine units: integer square roots
//! rounded down and up, and the triangle inequality that links the two
//! roundings.

use vstd::prelude::*;

use crate::vector::Point;

verus! {

/// `r` is the square root of `n` rounded down.
pub open spec fn is_floor_sqrt(n: nat, r: nat) -> bool {
    r * r <= n && n < (r + 1) * (r + 1)
}

/// The square root of `n` rounded down.
pub open spec fn floor_sqrt(n: nat) -> nat {
    choose|r: nat| is_floor_sqrt(n, r)
}

/// The square root of `n` rounded up.
pub open spec fn ceil_sqrt(n: nat) -> nat {
    let r = floor_sqrt(n);
    if r * r == n {
        r
    } else {
        r + 1
    }
}

/// At most one number is the rounded-down root of `n`.
pub proof fn lemma_floor_sqrt_unique(n: nat, r: nat, s: nat)
    requires
        is_floor_sqrt(n, r),
        is_floor_sqrt(n, s),
    ensures
        r == s,
{
    if r < s {
        assert((r + 1) * (r + 1) <= s * s) by (nonlinear_arith)
            requires
                r + 1 <= s,
        ;
    }
    if s < r {
        assert((s + 1) * (s + 1) <= r * r) by (nonlinear_arith)
            requires
                s + 1 <= r,
        ;
    }
}

/// Every number has a rounded-down root, and `floor_sqrt` is it.
pub proof fn lemma_floor_sqrt_exists(n: nat)
    ensures
        is_floor_sqrt(n, floor_sqrt(n)),
    decreases n,
{
    if n == 0 {
        assert(0nat * 0nat == 0 && (0nat + 1) * (0nat + 1) == 1) by (nonlinear_arith);
        assert(is_floor_sqrt(0, 0));
    } else {
        lemma_floor_sqrt_exists((n - 1) as nat);
        let r = floor_sqrt((n - 1) as nat);
        if n < (r + 1) * (r + 1) {
            assert(is_floor_sqrt(n, r));
        } else {
            assert(n == (r + 1) * (r + 1));
            assert((r + 1) * (r + 1) < (r + 1 + 1) * (r + 1 + 1)) by (nonlinear_arith);
            assert(is_floor_sqrt(n, r + 1));
        }
    }
}

/// A number with the defining property is the rounded-down root.
pub proof fn lemma_floor_sqrt_is(n: nat, r: nat)
    requires
        is_floor_sqrt(n, r),
    ensures
        floor_sqrt(n) == r,
{
    lemma_floor_sqrt_exists(n);
    lemma_floor_sqrt_unique(n, r, floor_sqrt(n));
}

/// The rounded-up root reaches `n` when squared and is at most one above the
/// rounded-down root.
pub proof fn lemma_ceil_sqrt_bounds(n: nat)
    ensures
        n <= ceil_sqrt(n) * ceil_sqrt(n),
        floor_sqrt(n) <= ceil_sqrt(n) <= floor_sqrt(n) + 1,
{
    lemma_floor_sqrt_exists(n);
}

/// The rounded-up root is the least number whose square reaches `n`.
pub proof fn lemma_ceil_sqrt_least(n: nat, m: nat)
    requires
        n <= m * m,
    ensures
        ceil_sqrt(n) <= m,
{
    lemma_floor_sqrt_exists(n);
    let r = floor_sqrt(n);
    if m < ceil_sqrt(n) {
        if r * r == n {
            assert(m * m < r * r) by (nonlinear_arith)
                requires
                    m < r,
            ;
        } else {
            assert(m * m <= r * r) by (nonlinear_arith)
                requires
                    m <= r,
            ;
        }
    }
}

/// The root of zero is zero.
pub proof fn lemma_floor_sqrt_zero()
    ensures
        floor_sqrt(0) == 0,
        ceil_sqrt(0) == 0,
{
    assert(0nat * 0nat == 0 && (0nat + 1) * (0nat + 1) == 1) by (nonlinear_arith);
    assert(is_floor_sqrt(0, 0));
    lemma_floor_sqrt_is(0, 0);
}

/// Squared length of the displacement `(dx, dy)`.
pub open spec fn norm_sq(dx: int, dy: int) -> nat {
    (dx * dx + dy * dy) as nat
}

/// Fine units in a whole length unit.
pub const FINE: i64 = 1000;

/// Squared Euclidean distance between two lattice points, in whole units.
pub open spec fn span_sq(p: Point, q: Point) -> nat {
    norm_sq(p.x - q.x, p.y - q.y)
}

/// Squared Euclidean distance between two lattice points, in fine units.
pub open spec fn fine_sq(p: Point, q: Point) -> nat {
    norm_sq(FINE * (p.x - q.x), FINE * (p.y - q.y))
}

/// Euclidean distance between two lattice points in fine units, rounded
/// down.
pub open spec fn span_down(p: Point, q: Point) -> nat {
    floor_sqrt(fine_sq(p, q))
}

/// Euclidean distance between two lattice points in fine units, rounded up.
pub open spec fn span_up(p: Point, q: Point) -> nat {
    ceil_sqrt(fine_sq(p, q))
}

/// No rounded-up distance between two lattice points exceeds this.
pub open spec fn max_span() -> nat {
    0x800_0000_0000
}

/// The rounded-up distance is less than one fine unit above the distance:
/// its square reaches the squared distance, and the square of the number
/// before it does not.
pub proof fn lemma_span_up_tight(p: Point, q: Point)
    ensures
        fine_sq(p, q) <= span_up(p, q) * span_up(p, q),
        span_up(p, q) > 0 ==> (span_up(p, q) - 1) * (span_up(p, q) - 1) < fine_sq(p, q),
{
    let n = fine_sq(p, q);
    lemma_floor_sqrt_exists(n);
    lemma_ceil_sqrt_bounds(n);
    let r = floor_sqrt(n);
    if r * r != n && r > 0 {
        assert((r - 1) * (r - 1) < r * r) by (nonlinear_arith)
            requires
                r > 0,
        ;
    }
    if r * r == n && r > 0 {
        assert((r - 1) * (r - 1) < r * r) by (nonlinear_arith)
            requires
                r > 0,
        ;
    }
}

/// The Cauchy-Schwarz inequality in the plane: the square of a dot product
/// is at most the product of the squared lengths.
pub proof fn lemma_dot_bound(px: int, py: int, qx: int, qy: int)
    ensures
        (px * qx + py * qy) * (px * qx + py * qy) <= (px * px + py * py) * (qx * qx + qy * qy),
{
    let xx = px * qx;
    let xy = px * qy;
    let yx = py * qx;
    let yy = py * qy;
    let sq_px = px * px;
    let sq_py = py * py;
    let sq_qx = qx * qx;
    let sq_qy = qy * qy;
    assert(sq_px * sq_qx == xx * xx) by (nonlinear_arith)
        requires
            sq_px == px * px,
            sq_qx == qx * qx,
            xx == px * qx,
    ;
    assert(sq_px * sq_qy == xy * xy) by (nonlinear_arith)
        requires
            sq_px == px * px,
            sq_qy == qy * qy,
            xy == px * qy,
    ;
    assert(sq_py * sq_qx == yx * yx) by (nonlinear_arith)
        requires
            sq_py == py * py,
            sq_qx == qx * qx,
            yx == py * qx,
    ;
    assert(sq_py * sq_qy == yy * yy) by (nonlinear_arith)
        requires
            sq_py == py * py,
            sq_qy == qy * qy,
            yy == py * qy,
    ;
    assert(xx * yy == xy * yx) by (nonlinear_arith)
        requires
            xx == px * qx,
            yy == py * qy,
            xy == px * qy,
            yx == py * qx,
    ;
    assert((sq_px + sq_py) * (sq_qx + sq_qy) == sq_px * sq_qx + sq_px * sq_qy + sq_py * sq_qx + sq_py * sq_qy) by (nonlinear_arith);
    assert((xx + yy) * (xx + yy) == xx * xx + 2 * (xx * yy) + yy * yy) by (nonlinear_arith);
    assert((xy - yx) * (xy - yx) == xy * xy - 2 * (xy * yx) + yx * yx) by (nonlinear_arith);
    assert((xy - yx) * (xy - yx) >= 0) by (nonlinear_arith);
}

/// The triangle inequality across the two roundings: a length rounded down
/// is at most one leg rounded up plus the other leg rounded down.
pub proof fn lemma_triangle(px: int, py: int, qx: int, qy: int)
    ensures
        floor_sqrt(norm_sq(px + qx, py + qy)) <= ceil_sqrt(norm_sq(px, py)) + floor_sqrt(
            norm_sq(qx, qy),
        ),
{
    let aa = norm_sq(px, py);
    let bb = norm_sq(qx, qy);
    let cc = norm_sq(px + qx, py + qy);
    let d = px * qx + py * qy;
    let a = ceil_sqrt(aa);
    let b = floor_sqrt(bb);
    let c = floor_sqrt(cc);
    lemma_ceil_sqrt_bounds(aa);
    lemma_floor_sqrt_exists(bb);
    lemma_floor_sqrt_exists(cc);
    assert(px * px + py * py >= 0 && qx * qx + qy * qy >= 0) by (nonlinear_arith);
    assert((px + qx) * (px + qx) + (py + qy) * (py + qy) >= 0) by (nonlinear_arith);
    assert((px + qx) * (px + qx) + (py + qy) * (py + qy) == (px * px + py * py) + (qx * qx + qy
        * qy) + 2 * (px * qx + py * qy)) by (nonlinear_arith);
    assert(cc == aa + bb + 2 * d);
    lemma_dot_bound(px, py, qx, qy);
    assert(d * d <= aa * bb);
    let e = a * (b + 1);
    assert(aa * bb <= e * e) by (nonlinear_arith)
        requires
            aa <= a * a,
            bb <= (b + 1) * (b + 1),
            e == a * (b + 1),
    ;
    assert(d <= e) by (nonlinear_arith)
        requires
            d * d <= e * e,
            e >= 0,
    ;
    assert((a + b + 1) * (a + b + 1) == a * a + (b + 1) * (b + 1) + 2 * e) by (nonlinear_arith)
        requires
            e == a * (b + 1),
    ;
    assert(cc < (a + b + 1) * (a + b + 1));
    if c >= a + b + 1 {
        assert(c * c >= (a + b + 1) * (a + b + 1)) by (nonlinear_arith)
            requires
                c >= a + b + 1,
        ;
    }
}

/// The square root of `n`, rounded down.
pub fn isqrt(n: u128) -> (r: u64)
    ensures
        r == floor_sqrt(n as nat),
{
    let mut lo: u128 = 0;
    let mut hi: u128 = 0x1_0000_0000_0000_0000;
    assert(n < hi * hi) by (nonlinear_arith)
        requires
            n <= 0xffff_ffff_ffff_ffff_ffff_ffff_ffff_ffff,
            hi == 0x1_0000_0000_0000_0000,
    ;
    while hi - lo > 1
        invariant
            lo < hi <= 0x1_0000_0000_0000_0000,
            lo * lo <= n,
            n < hi * hi,
        decreases hi - lo,
    {
        let mid: u128 = lo + (hi - lo) / 2;
        assert(mid * mid <= 0xffff_ffff_ffff_ffff * 0xffff_ffff_ffff_ffff) by (nonlinear_arith)
            requires
                0 <= mid <= 0xffff_ffff_ffff_ffff,
        ;
        if mid * mid <= n {
            lo = mid;
        } else {
            hi = mid;
        }
    }
    proof {
        assert(hi == lo + 1);
        assert(is_floor_sqrt(n as nat, lo as nat));
        lemma_floor_sqrt_is(n as nat, lo as nat);
    }
    lo as u64
}

/// Squared length of the displacement `(dx, dy)`.
pub fn length_sq(dx: i64, dy: i64) -> (r: u128)
    ensures
        r == norm_sq(dx as int, dy as int),
{
    let ax: u128 = if dx < 0 {
        (-(dx as i128)) as u128
    } else {
        dx as u128
    };
    let ay: u128 = if dy < 0 {
        (-(dy as i128)) as u128
    } else {
        dy as u128
    };
    assert(ax * ax == dx * dx && ax * ax <= 0x4000_0000_0000_0000_0000_0000_0000_0000)
        by (nonlinear_arith)
        requires
            ax == dx || ax == -dx,
            0 <= ax <= 0x8000_0000_0000_0000,
    ;
    assert(ay * ay == dy * dy && ay * ay <= 0x4000_0000_0000_0000_0000_0000_0000_0000)
        by (nonlinear_arith)
        requires
            ay == dy || ay == -dy,
            0 <= ay <= 0x8000_0000_0000_0000,
    ;
    ax * ax + ay * ay
}

/// Squared distance between two lattice points, in fine units.
fn fine_sq_of(p: Point, q: Point) -> (r: u128)
    ensures
        r == fine_sq(p, q),
        r <= max_span() * max_span(),
{
    let dx: i64 = FINE * (p.x as i64 - q.x as i64);
    let dy: i64 = FINE * (p.y as i64 - q.y as i64);
    assert(0 <= dx * dx <= 0x10_0000_0000_0000_0000_0000 && 0 <= dy * dy
        <= 0x10_0000_0000_0000_0000_0000)
        by (nonlinear_arith)
        requires
            -0x400_0000_0000 <= dx <= 0x400_0000_0000,
            -0x400_0000_0000 <= dy <= 0x400_0000_0000,
    ;
    assert(max_span() * max_span() == 0x40_0000_0000_0000_0000_0000) by (nonlinear_arith)
        requires
            max_span() == 0x800_0000_0000,
    ;
    length_sq(dx, dy)
}

/// Euclidean distance between two lattice points in fine units, rounded
/// down.
pub fn distance_down(p: Point, q: Point) -> (r: u64)
    ensures
        r == span_down(p, q),
        r <= max_span(),
{
    let n = fine_sq_of(p, q);
    let r = isqrt(n);
    proof {
        lemma_ceil_sqrt_bounds(n as nat);
        lemma_ceil_sqrt_least(n as nat, max_span());
    }
    r
}

/// Euclidean distance between two lattice points in fine units, rounded up.
pub fn distance_up(p: Point, q: Point) -> (r: u64)
    ensures
        r == span_up(p, q),
        r <= max_span(),
{
    let n = fine_sq_of(p, q);
    let r = isqrt(n);
    proof {
        lemma_floor_sqrt_exists(n as nat);
        lemma_ceil_sqrt_bounds(n as nat);
        lemma_ceil_sqrt_least(n as nat, max_span());
        assert((r as u128) * (r as u128) <= n);
    }
    if (r as u128) * (r as u128) == n {
        r
    } else {
        r + 1
    }
}

} // verus!
