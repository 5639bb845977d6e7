//! Plane geometry on fixed-point integer coordinates: distances, circle
//! overlap, normalisation and where a line or a ray meets a circle.

use vstd::prelude::*;

verus! {

/// Coordinate units per world unit.
pub const UNIT: i64 = 1000;

/// Largest magnitude of a coordinate that the geometry accepts.
pub const MAX_COORD: i64 = 1_000_000_000;

#[derive(Clone, Copy, Debug, PartialEq, Eq, Structural)]
pub struct Point {
    pub x: i64,
    pub y: i64,
}

#[derive(Clone, Copy, Debug, PartialEq, Eq, Structural)]
pub struct Vector {
    pub x: i64,
    pub y: i64,
}

impl Point {
    pub fn new(x: i64, y: i64) -> (r: Point)
        ensures
            r.x == x,
            r.y == y,
    {
        Point { x, y }
    }
}

impl Vector {
    pub fn new(x: i64, y: i64) -> (r: Vector)
        ensures
            r.x == x,
            r.y == y,
    {
        Vector { x, y }
    }
}

pub open spec fn coord_ok(v: int) -> bool {
    -MAX_COORD <= v <= MAX_COORD
}

pub open spec fn point_ok(p: Point) -> bool {
    coord_ok(p.x as int) && coord_ok(p.y as int)
}

pub open spec fn dist_sq(a: Point, b: Point) -> int {
    (a.x - b.x) * (a.x - b.x) + (a.y - b.y) * (a.y - b.y)
}

/// Two circles whose centres are `a` and `b` overlap when their centres are
/// strictly closer than `d`, the sum of their radii.
pub open spec fn circles_overlap(a: Point, b: Point, d: int) -> bool {
    dist_sq(a, b) < d * d
}

proof fn lemma_square_bound(v: int)
    requires
        -2 * MAX_COORD <= v <= 2 * MAX_COORD,
    ensures
        0 <= v * v <= 4_000_000_000_000_000_000,
{
    assert(0 <= v * v <= 4_000_000_000_000_000_000) by (nonlinear_arith)
        requires
            -2_000_000_000 <= v <= 2_000_000_000,
    ;
}

/// Squared euclidean distance between two points.
pub fn distance_squared(a: &Point, b: &Point) -> (r: i64)
    requires
        point_ok(*a),
        point_ok(*b),
    ensures
        r == dist_sq(*a, *b),
{
    let dx = a.x - b.x;
    let dy = a.y - b.y;
    proof {
        lemma_square_bound(dx as int);
        lemma_square_bound(dy as int);
    }
    dx * dx + dy * dy
}

/// True iff the centres `a` and `b` are strictly closer than `minimum_distance`.
pub fn has_circles_collision(a: &Point, b: &Point, minimum_distance: i64) -> (r: bool)
    requires
        point_ok(*a),
        point_ok(*b),
        0 <= minimum_distance <= 2 * MAX_COORD,
    ensures
        r == circles_overlap(*a, *b, minimum_distance as int),
{
    let distance = distance_squared(a, b);
    proof {
        lemma_square_bound(minimum_distance as int);
    }
    distance < minimum_distance * minimum_distance
}

/// Overlap does not depend on which circle is named first.
pub proof fn lemma_circles_overlap_symmetric(a: Point, b: Point, d: int)
    ensures
        circles_overlap(a, b, d) == circles_overlap(b, a, d),
{
    assert(dist_sq(a, b) == dist_sq(b, a)) by (nonlinear_arith);
}

/// The integer square root: the largest `r` with `r * r <= n`.
pub open spec fn isqrt(n: nat) -> nat
    decreases n,
{
    if n == 0 {
        0
    } else {
        let r = isqrt((n - 1) as nat);
        if (r + 1) * (r + 1) <= n {
            r + 1
        } else {
            r
        }
    }
}

pub proof fn lemma_isqrt_bounds(n: nat)
    ensures
        isqrt(n) * isqrt(n) <= n,
        n < (isqrt(n) + 1) * (isqrt(n) + 1),
    decreases n,
{
    if n > 0 {
        lemma_isqrt_bounds((n - 1) as nat);
        let r = isqrt((n - 1) as nat);
        assert((r + 2) * (r + 2) == (r + 1) * (r + 1) + 2 * r + 3) by (nonlinear_arith);
        assert(r * r <= (r + 1) * (r + 1)) by (nonlinear_arith);
        let q = (r + 1) * (r + 1);
        let t = isqrt(n);
        if q <= n {
            assert(t == r + 1);
            assert(t * t <= n);
            assert(n < (t + 1) * (t + 1));
        } else {
            assert(t == r);
            assert(t * t <= n);
            assert(n < (t + 1) * (t + 1));
        }
    } else {
        assert(isqrt(n) == 0);
        assert(0 * 0 == 0 && 1 * 1 == 1) by (nonlinear_arith);
    }
}

pub proof fn lemma_isqrt_unique(n: nat, s: nat)
    requires
        s * s <= n,
        n < (s + 1) * (s + 1),
    ensures
        isqrt(n) == s,
{
    lemma_isqrt_bounds(n);
    let t = isqrt(n);
    if s < t {
        assert((s + 1) * (s + 1) <= t * t) by (nonlinear_arith)
            requires
                s + 1 <= t,
        ;
    } else if t < s {
        assert((t + 1) * (t + 1) <= s * s) by (nonlinear_arith)
            requires
                t + 1 <= s,
        ;
    }
}

/// Floor of the square root, by bisection.
pub fn integer_sqrt(n: u128) -> (r: u64)
    ensures
        r == isqrt(n as nat),
{
    let mut lo: u128 = 0;
    let mut hi: u128 = 0x1_0000_0000_0000_0000;
    assert(n < hi * hi) by (nonlinear_arith)
        requires
            hi == 0x1_0000_0000_0000_0000u128,
            n <= u128::MAX,
    ;
    while lo + 1 < hi
        invariant
            lo < hi <= 0x1_0000_0000_0000_0000u128,
            lo * lo <= n,
            n < hi * hi,
        decreases hi - lo,
    {
        let mid = lo + (hi - lo) / 2;
        assert(mid * mid <= 0xffff_ffff_ffff_ffff * 0xffff_ffff_ffff_ffffu128) by (nonlinear_arith)
            requires
                mid < 0x1_0000_0000_0000_0000u128,
        ;
        if mid * mid <= n {
            lo = mid;
        } else {
            hi = mid;
        }
    }
    proof {
        lemma_isqrt_unique(n as nat, lo as nat);
    }
    lo as u64
}


/// Integer division that rounds toward zero, as Rust's `/` does.
pub open spec fn div_tz(a: int, n: int) -> int {
    if a >= 0 {
        a / n
    } else {
        -((-a) / n)
    }
}

/// The smallest `n` with `v <= n * n`.
pub open spec fn ceil_root(v: nat) -> nat {
    if isqrt(v) * isqrt(v) == v {
        isqrt(v)
    } else {
        isqrt(v) + 1
    }
}

pub open spec fn norm_sq(v: Vector) -> int {
    v.x * v.x + v.y * v.y
}

/// A vector whose components each stay within `bound` in magnitude.
pub open spec fn vector_within(v: Vector, bound: int) -> bool {
    -bound <= v.x <= bound && -bound <= v.y <= bound
}

/// `v` scaled to length `UNIT`: each component is multiplied by `UNIT` and
/// divided by the norm rounded up, rounding toward zero.
pub open spec fn unit_direction(v: Vector) -> Vector {
    let n = ceil_root(norm_sq(v) as nat) as int;
    Vector { x: div_tz(v.x * UNIT, n) as i64, y: div_tz(v.y * UNIT, n) as i64 }
}

proof fn lemma_sq_le(x: int, y: int)
    requires
        0 <= x,
        0 <= y,
        x * x <= y * y,
    ensures
        x <= y,
{
    if x > y {
        assert(x * x > y * y) by (nonlinear_arith)
            requires
                x > y,
                y >= 0,
        ;
    }
}

proof fn lemma_mul_bound(x: int, y: int, bx: int, by: int)
    requires
        -bx <= x <= bx,
        -by <= y <= by,
    ensures
        -(bx * by) <= x * y <= bx * by,
{
    assert(-(bx * by) <= x * y <= bx * by) by (nonlinear_arith)
        requires
            -bx <= x <= bx,
            -by <= y <= by,
    ;
}

proof fn lemma_ceil_root(v: nat)
    requires
        v > 0,
    ensures
        ceil_root(v) >= 1,
        v <= ceil_root(v) * ceil_root(v),
        ceil_root(v) * ceil_root(v) < v + 2 * ceil_root(v),
{
    lemma_isqrt_bounds(v);
    let s = isqrt(v);
    assert((s + 1) * (s + 1) == s * s + 2 * s + 1) by (nonlinear_arith);
    if s == 0 {
        assert(s * s == 0);
    }
}

/// Magnitude of `a` divided by `n`, rounding toward zero, with the sign of `a`.
fn div_toward_zero(a: i128, n: i128) -> (q: i128)
    requires
        n > 0,
        -100_000_000_000_000_000_000_000_000_000 <= a <= 100_000_000_000_000_000_000_000_000_000,
    ensures
        q == div_tz(a as int, n as int),
{
    if a >= 0 {
        a / n
    } else {
        let m: i128 = -a;
        -(m / n)
    }
}

pub(crate) proof fn lemma_div_tz_bound(a: int, n: int, k: int)
    requires
        n > 0,
        k >= 0,
        -(k * n) <= a <= k * n,
    ensures
        -k <= div_tz(a, n) <= k,
        (div_tz(a, n) >= 0) == (a >= 0 || div_tz(a, n) == 0),
        a >= 0 ==> div_tz(a, n) >= 0,
        a <= 0 ==> div_tz(a, n) <= 0,
{
    let m = if a >= 0 { a } else { -a };
    assert(m / n <= k) by (nonlinear_arith)
        requires
            n > 0,
            0 <= m <= k * n,
    ;
    assert(m / n >= 0) by (nonlinear_arith)
        requires
            n > 0,
            0 <= m,
    ;
}

/// `v` scaled to length `UNIT`, or `None` when its norm is at most `min_norm`.
pub open spec fn normalized_or_none(v: Vector, min_norm: int) -> Option<Vector> {
    if norm_sq(v) <= min_norm * min_norm {
        None
    } else {
        Some(unit_direction(v))
    }
}

/// `v` scaled to length `UNIT`, or `None` when its norm is at most `min_norm`.
pub fn try_normalize(v: &Vector, min_norm: i64) -> (r: Option<Vector>)
    requires
        vector_within(*v, 2 * MAX_COORD),
        0 <= min_norm <= 2 * MAX_COORD,
    ensures
        r == normalized_or_none(*v, min_norm as int),
        r is None <==> norm_sq(*v) <= min_norm * min_norm,
        r matches Some(w) ==> w == unit_direction(*v),
        r matches Some(w) ==> norm_sq(w) <= UNIT * UNIT,
        r matches Some(w) ==> w.x * v.x >= 0 && w.y * v.y >= 0,
        r matches Some(w) ==> vector_within(w, UNIT as int),
{
    let vx = v.x as i128;
    let vy = v.y as i128;
    proof {
        lemma_square_bound(vx as int);
        lemma_square_bound(vy as int);
        lemma_square_bound(min_norm as int);
    }
    let n2: i128 = vx * vx + vy * vy;
    let m = min_norm as i128;
    if n2 <= m * m {
        return None;
    }
    let root = integer_sqrt(n2 as u128) as i128;
    proof {
        lemma_isqrt_bounds(n2 as nat);
        assert(3_000_000_000 * 3_000_000_000 == 9_000_000_000_000_000_000);
        lemma_sq_le(root as int, 3_000_000_000);
    }
    let n: i128 = if root * root == n2 {
        root
    } else {
        root + 1
    };
    proof {
        lemma_ceil_root(n2 as nat);
        assert(n == ceil_root(n2 as nat));
        lemma_mul_bound(vx as int, UNIT as int, 2 * MAX_COORD, UNIT as int);
        lemma_mul_bound(vy as int, UNIT as int, 2 * MAX_COORD, UNIT as int);
    }
    let wx = div_toward_zero(vx * 1000, n);
    let wy = div_toward_zero(vy * 1000, n);
    proof {
        lemma_unit_direction_bounds(vx as int, vy as int, n as int, wx as int, wy as int);
    }
    Some(Vector { x: wx as i64, y: wy as i64 })
}

proof fn lemma_unit_direction_bounds(vx: int, vy: int, n: int, wx: int, wy: int)
    requires
        n >= 1,
        vx * vx + vy * vy <= n * n,
        wx == div_tz(vx * UNIT, n),
        wy == div_tz(vy * UNIT, n),
    ensures
        wx * wx + wy * wy <= UNIT * UNIT,
        wx * vx >= 0,
        wy * vy >= 0,
        -UNIT <= wx <= UNIT,
        -UNIT <= wy <= UNIT,
{
    lemma_scaled_component(vx, n, wx);
    lemma_scaled_component(vy, n, wy);
    let ax = if wx >= 0 { wx } else { -wx };
    let ay = if wy >= 0 { wy } else { -wy };
    let bx = if vx >= 0 { vx } else { -vx };
    let by = if vy >= 0 { vy } else { -vy };
    assert(ax * n <= bx * 1000);
    assert(ay * n <= by * 1000);
    assert((ax * n) * (ax * n) <= (bx * 1000) * (bx * 1000)) by (nonlinear_arith)
        requires
            0 <= ax * n <= bx * 1000,
    ;
    assert((ay * n) * (ay * n) <= (by * 1000) * (by * 1000)) by (nonlinear_arith)
        requires
            0 <= ay * n <= by * 1000,
    ;
    assert(bx * bx + by * by == vx * vx + vy * vy) by (nonlinear_arith)
        requires
            bx == vx || bx == -vx,
            by == vy || by == -vy,
    ;
    assert(ax * ax + ay * ay == wx * wx + wy * wy) by (nonlinear_arith)
        requires
            ax == wx || ax == -wx,
            ay == wy || ay == -wy,
    ;
    assert((ax * n) * (ax * n) == (ax * ax) * (n * n)) by (nonlinear_arith);
    assert((ay * n) * (ay * n) == (ay * ay) * (n * n)) by (nonlinear_arith);
    assert((bx * 1000) * (bx * 1000) == 1000000 * (bx * bx)) by (nonlinear_arith);
    assert((by * 1000) * (by * 1000) == 1000000 * (by * by)) by (nonlinear_arith);
    assert((ax * ax + ay * ay) * (n * n) == (ax * ax) * (n * n) + (ay * ay) * (n * n))
        by (nonlinear_arith);
    assert((1000 * 1000) * (n * n) == 1000000 * (n * n)) by (nonlinear_arith);
    assert((ax * ax + ay * ay) * (n * n) <= (1000 * 1000) * (n * n));
    assert(ax * ax + ay * ay <= 1000 * 1000) by (nonlinear_arith)
        requires
            (ax * ax + ay * ay) * (n * n) <= (1000 * 1000) * (n * n),
            n >= 1,
    ;
    assert(ax <= 1000) by (nonlinear_arith)
        requires
            ax * ax + ay * ay <= 1000 * 1000,
            ax >= 0,
    ;
    assert(ay <= 1000) by (nonlinear_arith)
        requires
            ax * ax + ay * ay <= 1000 * 1000,
            ay >= 0,
    ;
}

/// One component scaled by `UNIT / n`: its sign follows `v`, and its magnitude
/// times `n` does not exceed that of `v * UNIT`.
proof fn lemma_scaled_component(v: int, n: int, w: int)
    requires
        n >= 1,
        w == div_tz(v * UNIT, n),
    ensures
        w * v >= 0,
        v >= 0 ==> 0 <= w && w * n <= v * 1000 && v * 1000 < w * n + n,
        v < 0 ==> w <= 0 && (-w) * n <= (-v) * 1000 && (-v) * 1000 < (-w) * n + n,
{
    if v >= 0 {
        let m = v * 1000;
        assert(m / n >= 0 && (m / n) * n <= m && m < (m / n) * n + n) by (nonlinear_arith)
            requires
                n >= 1,
                m >= 0,
        ;
        assert(w * v >= 0) by (nonlinear_arith)
            requires
                w >= 0,
                v >= 0,
        ;
    } else {
        let m = (-v) * 1000;
        assert(-(v * 1000) == m);
        assert(m / n >= 0 && (m / n) * n <= m && m < (m / n) * n + n) by (nonlinear_arith)
            requires
                n >= 1,
                m >= 0,
        ;
        assert(w * v >= 0) by (nonlinear_arith)
            requires
                w <= 0,
                v < 0,
        ;
    }
}


/// Coefficients of the line through `f` and `t`, written `a*x + b*y + c == 0`.
pub open spec fn line_a(f: Point, t: Point) -> int {
    f.y - t.y
}

pub open spec fn line_b(f: Point, t: Point) -> int {
    t.x - f.x
}

pub open spec fn line_c(f: Point, t: Point) -> int {
    f.x * t.y - t.x * f.y
}

pub open spec fn line_len(f: Point, t: Point) -> int {
    line_a(f, t) * line_a(f, t) + line_b(f, t) * line_b(f, t)
}

/// Sign of the discriminant of the line against the circle of radius `r`
/// centred at the origin, scaled by `line_len` so that it stays an integer.
pub open spec fn discriminant(r: int, f: Point, t: Point) -> int {
    r * r * line_len(f, t) - line_c(f, t) * line_c(f, t)
}

pub open spec fn mk_point(x: int, y: int) -> Point {
    Point { x: x as i64, y: y as i64 }
}

/// Where the line through `f` and `t` meets the circle of radius `r` centred at
/// the origin: nothing when `f == t` or the line misses by more than the
/// tolerance; the foot of the perpendicular when the discriminant lies within
/// the tolerance of zero; otherwise the two crossings, or one when rounding
/// brings them onto the same point. The tolerance is one square coordinate
/// unit on `r * r - c * c / len`, that is `|d| < len` on the scaled
/// discriminant `d`.
pub open spec fn cross_points(r: int, f: Point, t: Point) -> Seq<Point> {
    let a = line_a(f, t);
    let b = line_b(f, t);
    let c = line_c(f, t);
    let len = line_len(f, t);
    let d = discriminant(r, f, t);
    if len == 0 || d <= -len {
        Seq::empty()
    } else if d < len {
        seq![mk_point(div_tz(-a * c, len), div_tz(-b * c, len))]
    } else {
        let s = isqrt(d as nat) as int;
        let p1 = mk_point(div_tz(-a * c + b * s, len), div_tz(-b * c - a * s, len));
        let p2 = mk_point(div_tz(-a * c - b * s, len), div_tz(-b * c + a * s, len));
        if p1 == p2 {
            seq![p1]
        } else {
            seq![p1, p2]
        }
    }
}

pub open spec fn translated(p: Point, dx: int, dy: int) -> Point {
    mk_point(p.x + dx, p.y + dy)
}

/// `p` lies ahead of `from` in the direction of `to`.
pub open spec fn is_forward(p: Point, from: Point, to: Point) -> bool {
    (p.x - from.x) * (to.x - from.x) + (p.y - from.y) * (to.y - from.y) >= 0
}

/// The points of `s`, moved by `center`, that lie ahead of `from` toward `to`,
/// in their order in `s`.
pub open spec fn forward_translated(s: Seq<Point>, center: Point, from: Point, to: Point) -> Seq<
    Point,
>
    decreases s.len(),
{
    if s.len() == 0 {
        Seq::empty()
    } else {
        let rest = forward_translated(s.drop_last(), center, from, to);
        let p = translated(s.last(), center.x as int, center.y as int);
        if is_forward(p, from, to) {
            rest.push(p)
        } else {
            rest
        }
    }
}

/// The points where the ray from `from` through `to` meets the circle.
pub open spec fn sphere_cross_points(center: Point, radius: int, from: Point, to: Point) -> Seq<
    Point,
> {
    let f = translated(from, -center.x, -center.y);
    let t = translated(to, -center.x, -center.y);
    forward_translated(cross_points(radius, f, t), center, from, to)
}

/// A point no farther than `bound` from `c` on either axis.
pub open spec fn near(p: Point, c: Point, bound: int) -> bool {
    c.x - bound <= p.x <= c.x + bound && c.y - bound <= p.y <= c.y + bound
}

pub open spec fn local_ok(p: Point) -> bool {
    -2 * MAX_COORD <= p.x <= 2 * MAX_COORD && -2 * MAX_COORD <= p.y <= 2 * MAX_COORD
}

/// The numerators of the crossing points stay within `2 * r * len`.
proof fn lemma_cross_numerators(a: int, b: int, c: int, r: int, len: int, s: int)
    requires
        r > 0,
        len == a * a + b * b,
        len > 0,
        s >= 0,
        s * s + c * c <= r * r * len,
    ensures
        -(2 * r * len) <= -a * c + b * s <= 2 * r * len,
        -(2 * r * len) <= -a * c - b * s <= 2 * r * len,
        -(2 * r * len) <= -b * c - a * s <= 2 * r * len,
        -(2 * r * len) <= -b * c + a * s <= 2 * r * len,
{
    assert(a * a >= 0 && b * b >= 0 && s * s >= 0 && c * c >= 0) by (nonlinear_arith);
    assert((-a) * c == -(a * c) && (-b) * c == -(b * c)) by (nonlinear_arith);
    assert(2 * r * len == r * len + r * len) by (nonlinear_arith);
    lemma_product_within(a, c, r, len, b * b, s * s);
    lemma_product_within(b, s, r, len, a * a, c * c);
    lemma_product_within(b, c, r, len, a * a, s * s);
    lemma_product_within(a, s, r, len, b * b, c * c);
}

/// `|x * y| <= r * len` when `x * x <= len` and `y * y <= r * r * len`.
proof fn lemma_product_within(x: int, y: int, r: int, len: int, ox: int, oy: int)
    requires
        r > 0,
        len > 0,
        ox >= 0,
        oy >= 0,
        x * x + ox == len,
        y * y + oy <= r * r * len,
    ensures
        -(r * len) <= x * y <= r * len,
{
    let ax = if x >= 0 { x } else { -x };
    let ay = if y >= 0 { y } else { -y };
    assert(ax * ax == x * x && ay * ay == y * y) by (nonlinear_arith)
        requires
            ax == x || ax == -x,
            ay == y || ay == -y,
    ;
    assert((ax * ay) * (ax * ay) <= (r * len) * (r * len)) by (nonlinear_arith)
        requires
            0 <= ax * ax <= len,
            0 <= ay * ay <= r * r * len,
    ;
    assert(ax * ay >= 0) by (nonlinear_arith)
        requires
            ax >= 0,
            ay >= 0,
    ;
    assert(r * len > 0) by (nonlinear_arith)
        requires
            r > 0,
            len > 0,
    ;
    lemma_sq_le(ax * ay, r * len);
    assert(-(ax * ay) <= x * y <= ax * ay) by (nonlinear_arith)
        requires
            ax == x || ax == -x,
            ay == y || ay == -y,
            ax >= 0,
            ay >= 0,
    ;
}

/// Where the line through `from` and `to` meets the circle of radius `radius`
/// centred at the origin.
fn get_cross_points(radius: i64, from: &Point, to: &Point) -> (r: Vec<Point>)
    requires
        0 < radius <= MAX_COORD,
        local_ok(*from),
        local_ok(*to),
    ensures
        r@ == cross_points(radius as int, *from, *to),
        forall|i: int| 0 <= i < r@.len() ==> near(#[trigger] r@[i], Point { x: 0, y: 0 }, 2 * radius + 2),
        r@.len() <= 2,
        r@.len() == 2 ==> r@[0] != r@[1],
{
    let fx = from.x as i128;
    let fy = from.y as i128;
    let tx = to.x as i128;
    let ty = to.y as i128;
    let a: i128 = fy - ty;
    let b: i128 = tx - fx;
    proof {
        lemma_mul_bound(fx as int, ty as int, 2_000_000_000, 2_000_000_000);
        lemma_mul_bound(tx as int, fy as int, 2_000_000_000, 2_000_000_000);
        lemma_mul_bound(a as int, a as int, 4_000_000_000, 4_000_000_000);
        lemma_mul_bound(b as int, b as int, 4_000_000_000, 4_000_000_000);
    }
    let c: i128 = fx * ty - tx * fy;
    let len: i128 = a * a + b * b;
    proof {
        lemma_mul_bound(radius as int, radius as int, 1_000_000_000, 1_000_000_000);
    }
    let rr: i128 = radius as i128 * radius as i128;
    proof {
        lemma_mul_bound(rr as int, len as int, 1_000_000_000_000_000_000, 32_000_000_000_000_000_000);
        lemma_mul_bound(c as int, c as int, 8_000_000_000_000_000_000, 8_000_000_000_000_000_000);
        lemma_mul_bound(-a, c as int, 4_000_000_000, 8_000_000_000_000_000_000);
        lemma_mul_bound(-b, c as int, 4_000_000_000, 8_000_000_000_000_000_000);
    }
    let d: i128 = rr * len - c * c;
    if len == 0 || d <= -len {
        return Vec::new();
    }
    proof {
        assert(a * a >= 0 && b * b >= 0) by (nonlinear_arith);
        assert(radius * radius * len + len <= (radius + 1) * (radius + 1) * len) by (nonlinear_arith)
            requires
                len >= 0,
                radius >= 0,
        ;
    }
    if d < len {
        proof {
            assert(0 * 0 == 0);
            lemma_cross_numerators(a as int, b as int, c as int, radius + 1, len as int, 0);
            lemma_div_tz_bound(-a * c, len as int, 2 * (radius + 1));
            lemma_div_tz_bound(-b * c, len as int, 2 * (radius + 1));
        }
        let x = div_toward_zero((-a) * c, len);
        let y = div_toward_zero((-b) * c, len);
        let p = Point { x: x as i64, y: y as i64 };
        let mut v: Vec<Point> = Vec::new();
        v.push(p);
        proof {
            assert(v@ =~= cross_points(radius as int, *from, *to));
        }
        return v;
    }
    let root = integer_sqrt(d as u128);
    proof {
        lemma_isqrt_bounds(d as nat);
        assert(radius * radius * len <= (radius + 1) * (radius + 1) * len) by (nonlinear_arith)
            requires
                len >= 0,
                radius >= 0,
        ;
        lemma_cross_numerators(a as int, b as int, c as int, radius + 1, len as int, root as int);
        assert(1_000_000_000_000_000_000 * 32_000_000_000_000_000_000
            == 32_000_000_000_000_000_000_000_000_000_000_000_000);
        assert(c * c >= 0) by (nonlinear_arith);
        assert(root * root <= 32_000_000_000_000_000_000_000_000_000_000_000_000);
        assert(6_000_000_000_000_000_000 * 6_000_000_000_000_000_000
            == 36_000_000_000_000_000_000_000_000_000_000_000_000);
        lemma_sq_le(root as int, 6_000_000_000_000_000_000);
    }
    let s = root as i128;
    proof {
        lemma_mul_bound(a as int, s as int, 4_000_000_000, 6_000_000_000_000_000_000);
        lemma_mul_bound(b as int, s as int, 4_000_000_000, 6_000_000_000_000_000_000);
        lemma_div_tz_bound(-a * c + b * s, len as int, 2 * (radius + 1));
        lemma_div_tz_bound(-a * c - b * s, len as int, 2 * (radius + 1));
        lemma_div_tz_bound(-b * c - a * s, len as int, 2 * (radius + 1));
        lemma_div_tz_bound(-b * c + a * s, len as int, 2 * (radius + 1));
    }
    let x1 = div_toward_zero((-a) * c + b * s, len);
    let y1 = div_toward_zero((-b) * c - a * s, len);
    let x2 = div_toward_zero((-a) * c - b * s, len);
    let y2 = div_toward_zero((-b) * c + a * s, len);
    let p1 = Point { x: x1 as i64, y: y1 as i64 };
    let p2 = Point { x: x2 as i64, y: y2 as i64 };
    let mut v: Vec<Point> = Vec::new();
    v.push(p1);
    if p1 != p2 {
        v.push(p2);
    }
    proof {
        assert(v@ =~= cross_points(radius as int, *from, *to));
    }
    v
}

proof fn lemma_forward_translated_near(s: Seq<Point>, center: Point, from: Point, to: Point, bound: int)
    requires
        forall|i: int| 0 <= i < s.len() ==> near(#[trigger] s[i], Point { x: 0, y: 0 }, bound),
        point_ok(center),
        0 <= bound <= 2 * MAX_COORD + 2,
    ensures
        forall|i: int|
            0 <= i < forward_translated(s, center, from, to).len() ==> near(
                #[trigger] forward_translated(s, center, from, to)[i],
                center,
                bound,
            ),
    decreases s.len(),
{
    if s.len() > 0 {
        let d = s.drop_last();
        assert forall|i: int| 0 <= i < d.len() implies near(#[trigger] d[i], Point { x: 0, y: 0 }, bound) by {
            assert(d[i] == s[i]);
        }
        lemma_forward_translated_near(d, center, from, to, bound);
        assert(near(s[s.len() - 1], Point { x: 0, y: 0 }, bound));
        let rest = forward_translated(d, center, from, to);
        let p = translated(s.last(), center.x as int, center.y as int);
        assert(near(p, center, bound));
        let all = forward_translated(s, center, from, to);
        assert forall|i: int| 0 <= i < all.len() implies near(#[trigger] all[i], center, bound) by {
            if i < rest.len() {
                assert(all[i] == rest[i]);
            }
        }
    }
}

/// The points where the ray that starts at `from` and passes through `to`
/// meets the circle of radius `radius` around `center`. A point counts when it
/// lies ahead of `from` or on it; a segment of length zero meets nothing.
/// At most two points of distinct candidates near the origin stay distinct
/// once moved and filtered.
proof fn lemma_forward_translated_distinct(s: Seq<Point>, center: Point, from: Point, to: Point, bound: int)
    requires
        s.len() <= 2,
        s.len() == 2 ==> s[0] != s[1],
        forall|i: int| 0 <= i < s.len() ==> near(#[trigger] s[i], Point { x: 0, y: 0 }, bound),
        point_ok(center),
        0 <= bound <= 2 * MAX_COORD + 2,
    ensures
        forward_translated(s, center, from, to).len() <= 2,
        forward_translated(s, center, from, to).len() == 2 ==> forward_translated(s, center, from, to)[0]
            != forward_translated(s, center, from, to)[1],
{
    reveal_with_fuel(forward_translated, 3);
    if s.len() == 2 {
        let d = s.drop_last();
        assert(d.drop_last().len() == 0);
        assert(d.last() == s[0]);
        assert(near(s[0], Point { x: 0, y: 0 }, bound));
        assert(near(s[1], Point { x: 0, y: 0 }, bound));
        let t0 = translated(s[0], center.x as int, center.y as int);
        let t1 = translated(s[1], center.x as int, center.y as int);
        assert(t0 != t1);
    } else if s.len() == 1 {
        assert(s.drop_last().len() == 0);
    }
}

pub fn get_cross_points_with_sphere(center: &Point, radius: i64, from: &Point, to: &Point) -> (r:
    Vec<Point>)
    requires
        point_ok(*center),
        0 < radius <= MAX_COORD,
        point_ok(*from),
        point_ok(*to),
    ensures
        r@ == sphere_cross_points(*center, radius as int, *from, *to),
        forall|i: int| 0 <= i < r@.len() ==> near(#[trigger] r@[i], *center, 2 * radius + 2),
        forall|i: int| 0 <= i < r@.len() ==> is_forward(#[trigger] r@[i], *from, *to),
        r@.len() <= 2,
        r@.len() == 2 ==> r@[0] != r@[1],
{
    let origin_from = Point { x: from.x - center.x, y: from.y - center.y };
    let origin_to = Point { x: to.x - center.x, y: to.y - center.y };
    let cands = get_cross_points(radius, &origin_from, &origin_to);
    let mut out: Vec<Point> = Vec::new();
    let mut i: usize = 0;
    while i < cands.len()
        invariant
            i <= cands@.len(),
            cands@ == cross_points(radius as int, origin_from, origin_to),
            forall|k: int| 0 <= k < cands@.len() ==> near(#[trigger] cands@[k], Point { x: 0, y: 0 }, 2 * radius + 2),
            out@ == forward_translated(cands@.take(i as int), *center, *from, *to),
            forall|k: int| 0 <= k < out@.len() ==> is_forward(#[trigger] out@[k], *from, *to),
            point_ok(*center),
            point_ok(*from),
            point_ok(*to),
            0 < radius <= MAX_COORD,
        decreases cands@.len() - i,
    {
        let c = cands[i];
        assert(near(cands@[i as int], Point { x: 0, y: 0 }, 2 * radius + 2));
        let p = Point { x: c.x + center.x, y: c.y + center.y };
        let dx = p.x as i128 - from.x as i128;
        let dy = p.y as i128 - from.y as i128;
        let rx = to.x as i128 - from.x as i128;
        let ry = to.y as i128 - from.y as i128;
        proof {
            lemma_mul_bound(dx as int, rx as int, 5_000_000_000, 2_000_000_000);
            lemma_mul_bound(dy as int, ry as int, 5_000_000_000, 2_000_000_000);
            assert(cands@.take(i as int + 1).drop_last() =~= cands@.take(i as int));
        }
        if dx * rx + dy * ry >= 0 {
            out.push(p);
        }
        i += 1;
    }
    proof {
        assert(cands@.take(cands@.len() as int) =~= cands@);
        lemma_forward_translated_near(cands@, *center, *from, *to, 2 * radius + 2);
        lemma_forward_translated_distinct(cands@, *center, *from, *to, 2 * radius + 2);
    }
    out
}

/// Index of the first point of `s` nearest to `from`.
pub open spec fn nearest_idx(s: Seq<Point>, from: Point) -> int
    decreases s.len(),
{
    if s.len() <= 1 {
        0
    } else {
        let k = nearest_idx(s.drop_last(), from);
        if dist_sq(s.last(), from) < dist_sq(s[k], from) {
            s.len() - 1
        } else {
            k
        }
    }
}

pub(crate) proof fn lemma_nearest_idx_range(s: Seq<Point>, from: Point)
    requires
        s.len() > 0,
    ensures
        0 <= nearest_idx(s, from) < s.len(),
    decreases s.len(),
{
    if s.len() > 1 {
        lemma_nearest_idx_range(s.drop_last(), from);
    }
}

/// The first of `points` nearest to `from`, or `None` when there is none.
pub fn nearest_point(points: &Vec<Point>, from: &Point) -> (r: Option<Point>)
    requires
        forall|i: int| 0 <= i < points@.len() ==> near(#[trigger] points@[i], *from, 5 * MAX_COORD),
    ensures
        r == (if points@.len() > 0 {
            Some(points@[nearest_idx(points@, *from)])
        } else {
            None::<Point>
        }),
{
    if points.len() == 0 {
        return None;
    }
    let mut best: usize = 0;
    let mut best_d: i128 = sq_distance_wide(&points[0], from);
    let mut i: usize = 1;
    proof {
        assert(points@.take(1).len() == 1);
    }
    while i < points.len()
        invariant
            1 <= i <= points@.len(),
            best < i,
            best as int == nearest_idx(points@.take(i as int), *from),
            best_d == dist_sq(points@[best as int], *from),
            forall|k: int| 0 <= k < points@.len() ==> near(#[trigger] points@[k], *from, 5 * MAX_COORD),
        decreases points@.len() - i,
    {
        let d = sq_distance_wide(&points[i], from);
        proof {
            let t = points@.take(i as int + 1);
            assert(t.drop_last() =~= points@.take(i as int));
            assert(t.last() == points@[i as int]);
            assert(t[best as int] == points@[best as int]);
        }
        if d < best_d {
            best = i;
            best_d = d;
        }
        i += 1;
    }
    proof {
        assert(points@.take(points@.len() as int) =~= points@);
    }
    Some(points[best])
}

/// Squared distance between two points up to `5 * MAX_COORD` apart.
pub(crate) fn sq_distance_wide(a: &Point, b: &Point) -> (r: i128)
    requires
        near(*a, *b, 5 * MAX_COORD),
    ensures
        r == dist_sq(*a, *b),
{
    let dx = a.x as i128 - b.x as i128;
    let dy = a.y as i128 - b.y as i128;
    proof {
        lemma_mul_bound(dx as int, dx as int, 5_000_000_000, 5_000_000_000);
        lemma_mul_bound(dy as int, dy as int, 5_000_000_000, 5_000_000_000);
    }
    dx * dx + dy * dy
}


/// `a / n`, rounding toward zero.
pub fn div_i64(a: i64, n: i64) -> (q: i64)
    requires
        n > 0,
        a > i64::MIN,
    ensures
        q == div_tz(a as int, n as int),
{
    if a >= 0 {
        a / n
    } else {
        -((-a) / n)
    }
}

/// `v` held to the range of coordinates.
pub open spec fn saturate(v: int) -> int {
    if v > MAX_COORD {
        MAX_COORD as int
    } else if v < -MAX_COORD {
        -MAX_COORD
    } else {
        v
    }
}

/// `p` moved by `v`, held to the range of coordinates.
pub open spec fn bounded_add(p: Point, v: Vector) -> Point {
    Point { x: saturate(p.x + v.x) as i64, y: saturate(p.y + v.y) as i64 }
}

pub fn translate_bounded(p: &Point, v: &Vector) -> (r: Point)
    requires
        point_ok(*p),
        vector_within(*v, MAX_COORD as int),
    ensures
        r == bounded_add(*p, *v),
        point_ok(r),
{
    let x = p.x + v.x;
    let y = p.y + v.y;
    Point { x: saturate_coord(x), y: saturate_coord(y) }
}

fn saturate_coord(v: i64) -> (r: i64)
    ensures
        r == saturate(v as int),
{
    if v > MAX_COORD {
        MAX_COORD
    } else if v < -MAX_COORD {
        -MAX_COORD
    } else {
        v
    }
}


pub open spec fn abs(v: int) -> int {
    if v >= 0 {
        v
    } else {
        -v
    }
}

/// `e * v` stays within `n * |v|` when `|e| < n`, strictly when `v != 0`.
proof fn lemma_error_product(e: int, v: int, n: int)
    requires
        n >= 1,
        -n < e < n,
    ensures
        -(n * abs(v)) <= e * v <= n * abs(v),
        v != 0 ==> -(n * abs(v)) < e * v < n * abs(v),
{
    if v >= 0 {
        assert(-(n * v) <= e * v <= n * v) by (nonlinear_arith)
            requires
                -n < e < n,
                v >= 0,
        ;
        if v != 0 {
            assert(-(n * v) < e * v < n * v) by (nonlinear_arith)
                requires
                    -n < e < n,
                    v > 0,
            ;
        }
    } else {
        assert(-(n * (-v)) < e * v < n * (-v)) by (nonlinear_arith)
            requires
                -n < e < n,
                v < 0,
        ;
    }
}

/// A component of `unit_direction(v)` is zero only when that component of `v`
/// is small against the other one.
proof fn lemma_major_component_survives(a: int, b: int, n: int, w: int)
    requires
        n >= 1,
        w == div_tz(a * UNIT, n),
        abs(a) >= abs(b),
        a * a + b * b >= 1,
        a * a + b * b <= n * n,
        n * n < a * a + b * b + 2 * n,
    ensures
        w * a > 0,
{
    lemma_scaled_component(a, n, w);
    let nn = a * a + b * b;
    assert(n <= nn + 1) by (nonlinear_arith)
        requires
            n * n < nn + 2 * n,
            n >= 1,
            nn >= 0,
    ;
    let aa = abs(a);
    assert(aa * aa == a * a && abs(b) * abs(b) == b * b) by (nonlinear_arith)
        requires
            aa == a || aa == -a,
            abs(b) == b || abs(b) == -b,
    ;
    assert(aa * aa >= abs(b) * abs(b)) by (nonlinear_arith)
        requires
            aa >= abs(b),
            abs(b) >= 0,
    ;
    if w == 0 {
        assert(0 * n == 0 && (-w) * n == 0) by (nonlinear_arith)
            requires
                w == 0,
        ;
        assert(aa * 1000 < n);
        assert((aa * 1000) * (aa * 1000) < n * n) by (nonlinear_arith)
            requires
                0 <= aa * 1000 < n,
        ;
        assert((aa * 1000) * (aa * 1000) == 1000000 * (aa * aa)) by (nonlinear_arith);
        assert(false);
    }
    if a > 0 {
        assert(w * a > 0) by (nonlinear_arith)
            requires
                w > 0,
                a > 0,
        ;
    } else {
        assert(a != 0);
        assert(w * a > 0) by (nonlinear_arith)
            requires
                w < 0,
                a < 0,
        ;
    }
}

/// `unit_direction(v)` points the way `v` does: the two have a positive dot
/// product, and their cross product, which would be zero without rounding,
/// stays below `|v.x| + |v.y|`.
pub proof fn lemma_unit_direction_orientation(v: Vector)
    requires
        norm_sq(v) > 0,
        vector_within(v, 2 * MAX_COORD),
    ensures
        norm_sq(unit_direction(v)) <= UNIT * UNIT,
        unit_direction(v).x * v.x + unit_direction(v).y * v.y > 0,
        -(abs(v.x as int) + abs(v.y as int)) < unit_direction(v).x * v.y - unit_direction(v).y * v.x
            < abs(v.x as int) + abs(v.y as int),
{
    let vx = v.x as int;
    let vy = v.y as int;
    let nn = norm_sq(v);
    lemma_ceil_root(nn as nat);
    let n = ceil_root(nn as nat) as int;
    let wx = div_tz(vx * UNIT, n);
    let wy = div_tz(vy * UNIT, n);
    lemma_unit_direction_bounds(vx, vy, n, wx, wy);
    assert(unit_direction(v).x == wx && unit_direction(v).y == wy);
    lemma_scaled_component(vx, n, wx);
    lemma_scaled_component(vy, n, wy);
    // Dot product: both terms are non-negative and the larger component's is positive.
    if abs(vx) >= abs(vy) {
        lemma_major_component_survives(vx, vy, n, wx);
    } else {
        assert(vy * vy + vx * vx == nn);
        lemma_major_component_survives(vy, vx, n, wy);
    }
    // Cross product: times n it is made of the rounding errors alone.
    let ex = wx * n - vx * 1000;
    let ey = wy * n - vy * 1000;
    assert((-wx) * n == -(wx * n) && (-wy) * n == -(wy * n)) by (nonlinear_arith);
    assert(-n < ex < n && -n < ey < n);
    assert(n * (wx * vy - wy * vx) == ex * vy - ey * vx) by (nonlinear_arith)
        requires
            ex == wx * n - vx * 1000,
            ey == wy * n - vy * 1000,
    ;
    lemma_error_product(ex, vy, n);
    lemma_error_product(ey, vx, n);
    let b = abs(vx) + abs(vy);
    assert(vx != 0 || vy != 0) by (nonlinear_arith)
        requires
            vx * vx + vy * vy > 0,
    ;
    assert(-(n * b) < n * (wx * vy - wy * vx) < n * b) by (nonlinear_arith)
        requires
            n * (wx * vy - wy * vx) == ex * vy - ey * vx,
            -(n * abs(vy)) <= ex * vy <= n * abs(vy),
            -(n * abs(vx)) <= ey * vx <= n * abs(vx),
            vy != 0 ==> -(n * abs(vy)) < ex * vy < n * abs(vy),
            vx != 0 ==> -(n * abs(vx)) < ey * vx < n * abs(vx),
            vx != 0 || vy != 0,
            b == abs(vx) + abs(vy),
    ;
    assert(-b < wx * vy - wy * vx < b) by (nonlinear_arith)
        requires
            -(n * b) < n * (wx * vy - wy * vx) < n * b,
            n >= 1,
    ;
}


/// A ray whose line passes the circle by more than the tangency tolerance
/// meets nothing, whatever its direction.
pub proof fn lemma_missing_line_meets_nothing(center: Point, radius: int, from: Point, to: Point)
    requires
        ({
            let f = translated(from, -center.x, -center.y);
            let t = translated(to, -center.x, -center.y);
            discriminant(radius, f, t) <= -line_len(f, t)
        }),
    ensures
        sphere_cross_points(center, radius, from, to).len() == 0,
{
    let f = translated(from, -center.x, -center.y);
    let t = translated(to, -center.x, -center.y);
    assert(cross_points(radius, f, t).len() == 0);
}

} // verus!
