use vstd::prelude::*;

verus! {

/// Number of fixed-point steps in one unit of simulation space: a coordinate
/// in `[-1.0, 1.0]` is held as an integer in `[-SCALE, SCALE]`.
pub const SCALE: i64 = 65536;

/// Largest magnitude a velocity component can reach before it is clamped:
/// a stored velocity component is at most `SCALE` and the acceleration added
/// in one frame is at most `3 * SCALE`.
pub const VEL_LIMIT: i64 = 4 * SCALE;

/// A 2-D vector in fixed-point representation.
#[derive(Clone, Copy, PartialEq, Eq, Structural, Debug)]
pub struct Vec2 {
    pub x: i64,
    pub y: i64,
}

/// A point lies in the simulation domain `[-1, 1]^2`.
pub open spec fn in_domain(v: Vec2) -> bool {
    -SCALE <= v.x <= SCALE && -SCALE <= v.y <= SCALE
}

/// Squared Euclidean distance between two points.
pub open spec fn dist_sq_spec(a: Vec2, b: Vec2) -> int {
    (a.x - b.x) * (a.x - b.x) + (a.y - b.y) * (a.y - b.y)
}

/// Squared Euclidean norm of a vector.
pub open spec fn norm_sq(v: Vec2) -> int {
    v.x * v.x + v.y * v.y
}

/// Division that truncates toward zero (the machine semantics of `/` on
/// signed integers), defined for positive divisors by splitting on sign.
pub open spec fn sdiv(a: int, b: int) -> int {
    if a >= 0 {
        a / b
    } else {
        -((-a) / b)
    }
}

/// Clamp a value into the symmetric interval `[-lim, lim]`.
pub open spec fn clamp_box_spec(a: int, lim: int) -> int {
    if a > lim {
        lim
    } else if a < -lim {
        -lim
    } else {
        a
    }
}

/// Toroidal wrap of one coordinate into the domain `[-SCALE, SCALE]`,
/// assuming it overshot by at most one domain width.
pub open spec fn wrap_spec(p: int) -> int {
    if p > SCALE {
        p - 2 * SCALE
    } else if p < -SCALE {
        p + 2 * SCALE
    } else {
        p
    }
}

/// `r` is the integer square root of `n` rounded down.
pub open spec fn is_sqrt_floor(n: int, r: int) -> bool {
    0 <= r && r * r <= n && n < (r + 1) * (r + 1)
}

/// The integer square root of `n` rounded down (meaningful for `n >= 0`).
pub open spec fn sqrt_floor(n: int) -> int {
    choose|r: int| is_sqrt_floor(n, r)
}

/// A velocity with squared norm above `m * m` is rescaled so that its norm is
/// at most `m`; dividing by `sqrt_floor + 1` guarantees the bound is strict.
pub open spec fn clamp_speed_spec(x: int, y: int, m: int) -> (int, int) {
    let n = x * x + y * y;
    if n <= m * m {
        (x, y)
    } else {
        let t = sqrt_floor(n) + 1;
        (sdiv(x * m, t), sdiv(y * m, t))
    }
}

/// The integer square root rounded down is unique.
pub proof fn lemma_sqrt_floor_unique(n: int, r1: int, r2: int)
    requires
        is_sqrt_floor(n, r1),
        is_sqrt_floor(n, r2),
    ensures
        r1 == r2,
{
    if r1 < r2 {
        assert((r1 + 1) * (r1 + 1) <= r2 * r2) by (nonlinear_arith)
            requires 0 <= r1, 0 <= r2, r1 + 1 <= r2;
        assert(false);
    }
    if r2 < r1 {
        assert((r2 + 1) * (r2 + 1) <= r1 * r1) by (nonlinear_arith)
            requires 0 <= r1, 0 <= r2, r2 + 1 <= r1;
        assert(false);
    }
}

/// Truncating division by a positive divisor never grows the magnitude.
pub proof fn lemma_sdiv_le(a: int, b: int, c: int)
    requires
        1 <= b,
        0 <= c,
        -c <= a <= c,
    ensures
        -c <= sdiv(a, b) <= c,
{
    if a >= 0 {
        vstd::arithmetic::div_mod::lemma_div_pos_is_pos(a, b);
        vstd::arithmetic::div_mod::lemma_div_nonincreasing(a, b);
    } else {
        vstd::arithmetic::div_mod::lemma_div_pos_is_pos(-a, b);
        vstd::arithmetic::div_mod::lemma_div_nonincreasing(-a, b);
    }
}

/// Truncating division by `b` of a value of magnitude at most `c * b` gives
/// a quotient of magnitude at most `c`.
pub proof fn lemma_sdiv_quot(a: int, b: int, c: int)
    requires
        1 <= b,
        0 <= c,
        -(c * b) <= a <= c * b,
    ensures
        -c <= sdiv(a, b) <= c,
{
    assert(b * c == c * b) by (nonlinear_arith);
    vstd::arithmetic::div_mod::lemma_div_multiples_vanish(c, b);
    assert((c * b) / b == c);
    if a >= 0 {
        vstd::arithmetic::div_mod::lemma_div_pos_is_pos(a, b);
        vstd::arithmetic::div_mod::lemma_div_is_ordered(a, c * b, b);
    } else {
        vstd::arithmetic::div_mod::lemma_div_pos_is_pos(-a, b);
        vstd::arithmetic::div_mod::lemma_div_is_ordered(-a, c * b, b);
    }
}

/// Squared Euclidean distance between two points.
pub fn dist_sq(a: Vec2, b: Vec2) -> (r: i64)
    requires
        -2 * SCALE <= a.x <= 2 * SCALE,
        -2 * SCALE <= a.y <= 2 * SCALE,
        -2 * SCALE <= b.x <= 2 * SCALE,
        -2 * SCALE <= b.y <= 2 * SCALE,
    ensures
        r == dist_sq_spec(a, b),
        0 <= r,
{
    let dx: i64 = a.x - b.x;
    let dy: i64 = a.y - b.y;
    proof {
        assert(0 <= dx * dx <= 68719476736) by (nonlinear_arith)
            requires -262144 <= dx <= 262144;
        assert(0 <= dy * dy <= 68719476736) by (nonlinear_arith)
            requires -262144 <= dy <= 262144;
    }
    dx * dx + dy * dy
}

/// Integer square root rounded down, by bisection.
pub fn isqrt(n: u64) -> (r: u64)
    requires
        n < 0x4000000000000000u64,
    ensures
        is_sqrt_floor(n as int, r as int),
        r as int == sqrt_floor(n as int),
        r <= 0x80000000u64,
{
    let mut lo: u64 = 0;
    let mut hi: u64 = 0x80000000u64;
    proof {
        assert(hi * hi > n) by (nonlinear_arith)
            requires hi == 0x80000000u64, n < 0x4000000000000000u64;
    }
    while lo + 1 < hi
        invariant
            lo < hi <= 0x80000000u64,
            lo * lo <= n,
            n < hi * hi,
        decreases hi - lo,
    {
        let mid: u64 = lo + (hi - lo) / 2;
        proof {
            assert(mid * mid <= 0x80000000u64 * 0x80000000u64) by (nonlinear_arith)
                requires mid <= 0x80000000u64;
        }
        if mid * mid <= n {
            lo = mid;
        } else {
            hi = mid;
        }
    }
    proof {
        assert(is_sqrt_floor(n as int, lo as int));
        assert(exists|r: int| is_sqrt_floor(n as int, r)) by {
            assert(is_sqrt_floor(n as int, lo as int));
        }
        lemma_sqrt_floor_unique(n as int, lo as int, sqrt_floor(n as int));
    }
    lo
}

/// Division truncating toward zero, for a positive divisor.
pub fn sdiv64(a: i64, b: i64) -> (r: i64)
    requires
        b > 0,
        -0x4000000000000000i64 <= a <= 0x4000000000000000i64,
    ensures
        r == sdiv(a as int, b as int),
{
    if a >= 0 {
        a / b
    } else {
        -((-a) / b)
    }
}

/// Clamp a value into the symmetric interval `[-lim, lim]`.
pub fn clamp_box(a: i64, lim: i64) -> (r: i64)
    requires
        0 <= lim,
    ensures
        r == clamp_box_spec(a as int, lim as int),
{
    if a > lim {
        lim
    } else if a < -lim {
        -lim
    } else {
        a
    }
}

/// Toroidal wrap of one coordinate into `[-SCALE, SCALE]`.
pub fn wrap_coord(p: i64) -> (r: i64)
    requires
        -2 * SCALE <= p <= 2 * SCALE,
    ensures
        r == wrap_spec(p as int),
        -SCALE <= r <= SCALE,
{
    if p > SCALE {
        p - 2 * SCALE
    } else if p < -SCALE {
        p + 2 * SCALE
    } else {
        p
    }
}

/// After rescaling by `m / t` with `t` exceeding the vector's norm, the
/// squared norm is bounded by `m * m`, and so is each component's magnitude.
proof fn lemma_scaled_norm(ax: int, ay: int, m: int, t: int, dx: int, dy: int)
    requires
        0 <= ax,
        0 <= ay,
        0 <= m,
        1 <= t,
        ax * ax + ay * ay < t * t,
        dx == ax * m / t,
        dy == ay * m / t,
    ensures
        dx * dx + dy * dy <= m * m,
        0 <= dx <= m,
        0 <= dy <= m,
{
    vstd::arithmetic::div_mod::lemma_fundamental_div_mod(ax * m, t);
    vstd::arithmetic::div_mod::lemma_fundamental_div_mod(ay * m, t);
    assert(0 <= ax * m) by (nonlinear_arith)
        requires 0 <= ax, 0 <= m;
    assert(0 <= ay * m) by (nonlinear_arith)
        requires 0 <= ay, 0 <= m;
    assert(0 <= dx) by (nonlinear_arith)
        requires 0 <= ax * m, 1 <= t, dx == ax * m / t;
    assert(0 <= dy) by (nonlinear_arith)
        requires 0 <= ay * m, 1 <= t, dy == ay * m / t;
    assert(dx * t <= ax * m) by (nonlinear_arith)
        requires 1 <= t, ax * m == t * (ax * m / t) + (ax * m) % t, 0 <= (ax * m) % t, dx == ax * m / t;
    assert(dy * t <= ay * m) by (nonlinear_arith)
        requires 1 <= t, ay * m == t * (ay * m / t) + (ay * m) % t, 0 <= (ay * m) % t, dy == ay * m / t;
    assert((dx * dx) * (t * t) <= (ax * ax) * (m * m)) by (nonlinear_arith)
        requires 0 <= dx, 0 <= t, dx * t <= ax * m, 0 <= ax * m;
    assert((dy * dy) * (t * t) <= (ay * ay) * (m * m)) by (nonlinear_arith)
        requires 0 <= dy, 0 <= t, dy * t <= ay * m, 0 <= ay * m;
    assert(dx * dx + dy * dy <= m * m) by (nonlinear_arith)
        requires
            1 <= t,
            (dx * dx) * (t * t) <= (ax * ax) * (m * m),
            (dy * dy) * (t * t) <= (ay * ay) * (m * m),
            ax * ax + ay * ay < t * t,
            0 <= m;
    assert(dx <= m) by (nonlinear_arith)
        requires 0 <= dx, 0 <= m, dx * dx + dy * dy <= m * m, 0 <= dy * dy;
    assert(dy <= m) by (nonlinear_arith)
        requires 0 <= dy, 0 <= m, dx * dx + dy * dy <= m * m, 0 <= dx * dx;
}

/// Clamp a velocity so its Euclidean norm does not exceed `m`.
pub fn clamp_speed(v: Vec2, m: i64) -> (r: Vec2)
    requires
        -VEL_LIMIT <= v.x <= VEL_LIMIT,
        -VEL_LIMIT <= v.y <= VEL_LIMIT,
        0 <= m <= SCALE,
    ensures
        (r.x as int, r.y as int) == clamp_speed_spec(v.x as int, v.y as int, m as int),
        norm_sq(r) <= m * m,
        -m <= r.x <= m,
        -m <= r.y <= m,
{
    proof {
        assert(0 <= v.x * v.x <= 68719476736) by (nonlinear_arith)
            requires -262144 <= v.x <= 262144;
        assert(0 <= v.y * v.y <= 68719476736) by (nonlinear_arith)
            requires -262144 <= v.y <= 262144;
        assert(0 <= m * m <= 4294967296) by (nonlinear_arith)
            requires 0 <= m <= 65536;
    }
    let n: i64 = v.x * v.x + v.y * v.y;
    if n <= m * m {
        proof {
            assert(-m <= v.x <= m && -m <= v.y <= m) by (nonlinear_arith)
                requires v.x * v.x + v.y * v.y <= m * m, 0 <= m;
        }
        v
    } else {
        let t: u64 = isqrt(n as u64) + 1;
        proof {
            assert((n as int) < (t as int) * (t as int));
            assert(t as int <= 0x80000001) by (nonlinear_arith)
                requires
                    (t - 1) * (t - 1) <= n as int,
                    n < 0x4000000000000000,
                    1 <= t;
        }
        let ti: i64 = t as i64;
        let ax: i64 = if v.x >= 0 { v.x } else { -v.x };
        let ay: i64 = if v.y >= 0 { v.y } else { -v.y };
        proof {
            assert(0 <= ax * m <= 17179869184) by (nonlinear_arith)
                requires 0 <= ax <= 262144, 0 <= m <= 65536;
            assert(0 <= ay * m <= 17179869184) by (nonlinear_arith)
                requires 0 <= ay <= 262144, 0 <= m <= 65536;
        }
        let dx: i64 = (ax * m) / ti;
        let dy: i64 = (ay * m) / ti;
        proof {
            assert(ax * ax == v.x * v.x && ay * ay == v.y * v.y) by (nonlinear_arith)
                requires ax == v.x || ax == -v.x, ay == v.y || ay == -v.y;
            lemma_scaled_norm(ax as int, ay as int, m as int, ti as int, dx as int, dy as int);
            assert(sdiv(v.x * m, ti as int) == if v.x >= 0 { dx as int } else { -(dx as int) }) by {
                if v.x < 0 {
                    assert(-(v.x * m) == ax * m) by (nonlinear_arith)
                        requires ax == -v.x;
                    assert(v.x * m < 0 || v.x * m == 0) by (nonlinear_arith)
                        requires v.x < 0, m >= 0;
                    if v.x * m == 0 {
                        assert(ax * m == 0);
                    }
                } else {
                    assert(v.x * m == ax * m);
                    assert(v.x * m >= 0) by (nonlinear_arith)
                        requires v.x >= 0, m >= 0;
                }
            }
            assert(sdiv(v.y * m, ti as int) == if v.y >= 0 { dy as int } else { -(dy as int) }) by {
                if v.y < 0 {
                    assert(-(v.y * m) == ay * m) by (nonlinear_arith)
                        requires ay == -v.y;
                    assert(v.y * m < 0 || v.y * m == 0) by (nonlinear_arith)
                        requires v.y < 0, m >= 0;
                    if v.y * m == 0 {
                        assert(ay * m == 0);
                    }
                } else {
                    assert(v.y * m == ay * m);
                    assert(v.y * m >= 0) by (nonlinear_arith)
                        requires v.y >= 0, m >= 0;
                }
            }
        }
        let rx: i64 = if v.x >= 0 { dx } else { -dx };
        let ry: i64 = if v.y >= 0 { dy } else { -dy };
        proof {
            assert(rx * rx == dx * dx && ry * ry == dy * dy) by (nonlinear_arith)
                requires rx == dx || rx == -dx, ry == dy || ry == -dy;
        }
        Vec2 { x: rx, y: ry }
    }
}

} // verus!
