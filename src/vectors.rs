use vstd::prelude::*;
use vstd::math::{max, min};

verus! {

/// A two-component value type; the verified operations work on fixed-point
/// `i64` components, where `UNIT` stands for one whole unit.
#[derive(Clone, Copy, Debug, PartialEq, Eq, Structural)]
pub struct Vector<T: Copy> {
    pub x: T,
    pub y: T,
}

/// Types with a neutral element for addition.
pub trait Identity: Sized {
    fn identity() -> Self;
}

/// The fixed-point representation of `1`.
pub const UNIT: i64 = 1_000_000;

/// Truncating division (rounds toward zero), as Rust's `/` does.
pub open spec fn tdiv(a: int, b: int) -> int {
    if a >= 0 { a / b } else { -((-a) / b) }
}

/// Largest `r` with `r * r <= s`.
pub open spec fn floor_sqrt(s: nat) -> nat
    decreases s,
{
    if s == 0 {
        0
    } else {
        let r = floor_sqrt((s - 1) as nat);
        if (r + 1) * (r + 1) <= s { r + 1 } else { r }
    }
}

pub proof fn lemma_floor_sqrt(s: nat)
    ensures
        floor_sqrt(s) * floor_sqrt(s) <= s < (floor_sqrt(s) + 1) * (floor_sqrt(s) + 1),
    decreases s,
{
    if s > 0 {
        lemma_floor_sqrt((s - 1) as nat);
        let r = floor_sqrt((s - 1) as nat);
        assert((r + 1) * (r + 1) < (r + 2) * (r + 2)) by (nonlinear_arith);
        let q = floor_sqrt(s);
        if (r + 1) * (r + 1) <= s {
            assert(q == r + 1);
            assert(q * q <= s);
            assert(s < (q + 1) * (q + 1));
        } else {
            assert(q == r);
            assert(q * q <= s);
            assert(s < (q + 1) * (q + 1));
        }
    } else {
        assert(floor_sqrt(s) == 0);
        assert((floor_sqrt(s) + 1) * (floor_sqrt(s) + 1) == 1) by (nonlinear_arith)
            requires floor_sqrt(s) == 0;
    }
}

proof fn lemma_square_le(a: int, b: int)
    requires
        0 <= a <= b,
    ensures
        a * a <= b * b,
{
    assert(a * a <= b * b) by (nonlinear_arith)
        requires 0 <= a <= b;
}

proof fn lemma_sqrt_unique(r: int, s: nat)
    requires
        0 <= r,
        r * r <= s < (r + 1) * (r + 1),
    ensures
        r == floor_sqrt(s),
{
    lemma_floor_sqrt(s);
    let q: int = floor_sqrt(s) as int;
    assert(r <= q) by (nonlinear_arith)
        requires 0 <= q, 0 <= r, r * r <= s, s < (q + 1) * (q + 1);
    assert(q <= r) by (nonlinear_arith)
        requires 0 <= q, 0 <= r, q * q <= s, s < (r + 1) * (r + 1);
}

proof fn lemma_product_bound(a: int, b: int)
    requires
        -MAX_LEN <= a <= MAX_LEN,
        -MAX_LEN <= b <= MAX_LEN,
    ensures
        -0x4_0000_0000_0000_0000_0000 <= a * b <= 0x4_0000_0000_0000_0000_0000,
{
    assert(-0x4_0000_0000_0000_0000_0000 <= a * b <= 0x4_0000_0000_0000_0000_0000)
        by (nonlinear_arith)
        requires -0x200_0000_0000 <= a <= 0x200_0000_0000, -0x200_0000_0000 <= b <= 0x200_0000_0000;
}

proof fn lemma_mul_within(a: int, b: int, ka: int, kb: int)
    requires
        -ka <= a <= ka,
        -kb <= b <= kb,
    ensures
        -(ka * kb) <= a * b <= ka * kb,
{
    assert(-(ka * kb) <= a * b <= ka * kb) by (nonlinear_arith)
        requires -ka <= a <= ka, -kb <= b <= kb;
}

proof fn lemma_square_bound(a: int, b: int)
    requires
        -b <= a <= b,
    ensures
        0 <= a * a <= b * b,
{
    assert(0 <= a * a <= b * b) by (nonlinear_arith)
        requires -b <= a <= b;
}

/// Relies on num::integer::sqrt: for a non-negative integer it returns the
/// truncated square root `r`, with `r * r <= s < (r + 1) * (r + 1)`.
#[verifier::external_body]
fn int_sqrt(s: u128) -> (r: u128)
    ensures
        r * r <= s < (r + 1) * (r + 1),
{
    num::integer::sqrt(s)
}

/// Squared length of `(x, y)`.
pub open spec fn norm_sq(x: int, y: int) -> nat {
    (x * x + y * y) as nat
}

/// Length of `(x, y)`, rounded down.
pub open spec fn norm(x: int, y: int) -> int {
    floor_sqrt(norm_sq(x, y)) as int
}

/// Largest component size accepted by the length-based operations. This and
/// the other `MAX_` bounds only keep the fixed-point arithmetic from
/// overflowing; they lie far beyond what the animation uses.
pub const MAX_LEN: i64 = 0x200_0000_0000;

/// Largest coordinate of a point handed to `distance`, `move_towards` and
/// `lerp`; the difference of two such points stays within `MAX_LEN`.
pub const MAX_POS: i64 = 0x100_0000_0000;

/// Clamps `v` into the closed interval spanned by `a` and `b`, whichever
/// of the two is larger.
pub open spec fn clamp_between(v: int, a: int, b: int) -> int {
    if a < b {
        if v > b { b } else if v < a { a } else { v }
    } else {
        if v < b { b } else if v > a { a } else { v }
    }
}

/// Largest magnitude accepted by `with_magnitude`.
pub const MAX_MAG: i64 = 0x4000_0000_0000_0000;

/// The factor `k` (a power of two times `k0`) by which a squared length `s`
/// is widened before its square root is taken: doubled until `s * k * k`
/// passes `2^124`, which leaves the rounded root at least `2^62`.
pub open spec fn widening(s: int, k: int) -> int
    decreases 0x1_0000_0000_0000_0000 - k,
{
    if s < 1 || k < 1 || k >= 0x8000_0000_0000_0000 || s * k * k > 0x1000_0000_0000_0000_0000_0000_0000_0000 {
        k
    } else {
        widening(s, 2 * k)
    }
}

/// Component `c` of a vector of squared length `s`, rescaled to length `m`
/// and rounded toward zero: `c * m / sqrt(s)`, with the square root taken of
/// the widened `s * k * k`. A vector of length zero is left as it is.
pub open spec fn rescale(c: int, m: int, s: int) -> int {
    if s == 0 {
        c
    } else {
        let k = widening(s, 1);
        tdiv(c * k * m, floor_sqrt((s * k * k) as nat) as int)
    }
}

pub open spec fn abs(a: int) -> int {
    if a < 0 { -a } else { a }
}

proof fn lemma_clamp_between(v: int, a: int, b: int)
    ensures
        (a <= b ==> a <= clamp_between(v, a, b) <= b),
        (b <= a ==> b <= clamp_between(v, a, b) <= a),
        clamp_between(clamp_between(v, a, b), a, b) == clamp_between(v, a, b),
{
}

proof fn lemma_component_le_norm(c: int, e: int)
    ensures
        abs(c) <= norm(c, e),
        abs(e) <= norm(c, e),
{
    let s = norm_sq(c, e);
    assert(c * c >= 0 && e * e >= 0) by (nonlinear_arith);
    lemma_floor_sqrt(s);
    let q = floor_sqrt(s) as int;
    assert(abs(c) <= q) by (nonlinear_arith)
        requires c * c <= s, s < (q + 1) * (q + 1), q >= 0, abs(c) == if c < 0 { -c } else { c };
    assert(abs(e) <= q) by (nonlinear_arith)
        requires e * e <= s, s < (q + 1) * (q + 1), q >= 0, abs(e) == if e < 0 { -e } else { e };
}

proof fn lemma_tdiv_scaled_bound(c: int, m: int, len: int)
    requires
        abs(c) <= len,
        0 < len,
    ensures
        abs(tdiv(c * m, len)) <= abs(m),
{
    let a = abs(c * m);
    assert(a <= len * abs(m)) by (nonlinear_arith)
        requires abs(c) <= len, a == abs(c * m), abs(m) == if m < 0 { -m } else { m },
            abs(c) == if c < 0 { -c } else { c }, 0 < len;
    assert(a / len <= abs(m)) by (nonlinear_arith)
        requires 0 <= a <= len * abs(m), 0 < len;
}

proof fn lemma_widening(s: int, k: int)
    requires
        1 <= s,
        1 <= k,
        s * k * k <= 0x4000_0000_0000_0000_0000_0000_0000_0000,
    ensures
        1 <= widening(s, k),
        0x1000_0000_0000_0000_0000_0000_0000_0000 < s * widening(s, k) * widening(s, k)
            <= 0x4000_0000_0000_0000_0000_0000_0000_0000,
    decreases 0x1_0000_0000_0000_0000 - k,
{
    if k >= 0x8000_0000_0000_0000 {
        assert(s * k * k >= 0x4000_0000_0000_0000_0000_0000_0000_0000) by (nonlinear_arith)
            requires 1 <= s, k >= 0x8000_0000_0000_0000;
    } else if s * k * k <= 0x1000_0000_0000_0000_0000_0000_0000_0000 {
        assert(s * (2 * k) * (2 * k) == 4 * (s * k * k)) by (nonlinear_arith);
        lemma_widening(s, 2 * k);
    }
}

/// What the widened square root of a nonzero squared length `x^2 + y^2`
/// satisfies: with `k` the widening and `len` the root, each component times
/// `k` stays within `len`, and `len` lies in `[2^62, 2^63]`.
proof fn lemma_wide_root(x: int, y: int)
    requires
        norm_sq(x, y) >= 1,
        -MAX_LEN <= x <= MAX_LEN,
        -MAX_LEN <= y <= MAX_LEN,
    ensures
        ({
            let s = norm_sq(x, y) as int;
            let k = widening(s, 1);
            let len = floor_sqrt((s * k * k) as nat) as int;
            &&& 1 <= k
            &&& 0x4000_0000_0000_0000 <= len <= 0x8000_0000_0000_0000
            &&& abs(x * k) <= len
            &&& abs(y * k) <= len
            &&& len * len <= s * k * k < (len + 1) * (len + 1)
            &&& (x * k) * (x * k) + (y * k) * (y * k) == s * k * k
        }),
{
    let s = norm_sq(x, y) as int;
    lemma_square_bound(x, MAX_LEN as int);
    lemma_square_bound(y, MAX_LEN as int);
    assert(s == x * x + y * y);
    lemma_widening(s, 1);
    let k = widening(s, 1);
    let w = s * k * k;
    assert(w >= 0) by (nonlinear_arith)
        requires s >= 1, k >= 1, w == s * k * k;
    lemma_floor_sqrt(w as nat);
    let len = floor_sqrt(w as nat) as int;
    assert((x * k) * (x * k) + (y * k) * (y * k) == w) by (nonlinear_arith)
        requires w == s * k * k, s == x * x + y * y;
    assert((x * k) * (x * k) >= 0 && (y * k) * (y * k) >= 0) by (nonlinear_arith);
    assert(abs(x * k) <= len) by (nonlinear_arith)
        requires (x * k) * (x * k) <= w, w < (len + 1) * (len + 1), len >= 0,
            abs(x * k) == if x * k < 0 { -(x * k) } else { x * k };
    assert(abs(y * k) <= len) by (nonlinear_arith)
        requires (y * k) * (y * k) <= w, w < (len + 1) * (len + 1), len >= 0,
            abs(y * k) == if y * k < 0 { -(y * k) } else { y * k };
    if len > 0x8000_0000_0000_0000 {
        lemma_square_le(0x8000_0000_0000_0001, len);
    }
    if len < 0x4000_0000_0000_0000 {
        lemma_square_le(len + 1, 0x4000_0000_0000_0000);
    }
}

/// Number of Newton steps the root-finder takes at most.
pub const NEWTON_STEPS: u32 = 5000;

/// The root-finder keeps its iterate within `[-WINDOW, WINDOW]`, which damps
/// the large steps taken where the curve is nearly flat.
pub const WINDOW: i64 = 4 * UNIT;

/// Largest speed factor accepted by `lerp`.
pub const MAX_SPEED: i64 = 100 * UNIT;

/// The easing curve `2.25t - 1.5t^2 + 0.25t^3` in fixed point, flat at `1`
/// beyond `t = 1`.
pub open spec fn ease(t: int) -> int {
    if t > UNIT {
        UNIT as int
    } else {
        tdiv(9 * t * UNIT * UNIT - 6 * t * t * UNIT + t * t * t, 4 * UNIT * UNIT)
    }
}

/// The slope `2.25 - 3t + 0.75t^2` of the easing curve in fixed point,
/// zero beyond `t = 1`.
pub open spec fn ease_slope(t: int) -> int {
    if t > UNIT {
        0
    } else {
        tdiv(9 * UNIT * UNIT - 12 * t * UNIT + 3 * t * t, 4 * UNIT)
    }
}

/// `fuel` Newton steps toward `ease(t) == x` from `t`: stops on an exact
/// hit, jumps to `1` where the slope vanishes, and keeps the iterate within
/// the window.
pub open spec fn newton(x: int, t: int, fuel: nat) -> int
    decreases fuel,
{
    if fuel == 0 || ease(t) == x {
        t
    } else if ease_slope(t) == 0 {
        UNIT as int
    } else {
        newton(
            x,
            clamp_between(t - tdiv((ease(t) - x) * UNIT, ease_slope(t)), -WINDOW, WINDOW as int),
            (fuel - 1) as nat,
        )
    }
}

/// The scaled position of the projection of `p` on the line through `a`
/// and `b`: `0` at `a` and `UNIT` at `b`.
pub open spec fn projection(p: Vector<i64>, a: Vector<i64>, b: Vector<i64>) -> int {
    tdiv(
        ((p.x - a.x) * (b.x - a.x) + (p.y - a.y) * (b.y - a.y)) * UNIT,
        norm_sq(b.x - a.x, b.y - a.y) as int,
    )
}

/// The curve parameter pushed on by a hundredth of `speed`, backward when it
/// lies past the end of the curve.
pub open spec fn nudged(t: int, speed: int) -> int {
    if t > UNIT { t - tdiv(speed, 100) } else { t + tdiv(speed, 100) }
}

/// The point that `lerp` returns.
pub open spec fn eased_point(p: Vector<i64>, a: Vector<i64>, b: Vector<i64>, speed: int) -> Vector<i64> {
    if a == b {
        b
    } else {
        let t = nudged(newton(projection(p, a, b), UNIT / 2, NEWTON_STEPS as nat), speed);
        if UNIT - t <= UNIT / 100 && t < UNIT {
            b
        } else {
            Vector {
                x: (a.x + tdiv((b.x - a.x) * ease(t), UNIT as int)) as i64,
                y: (a.y + tdiv((b.y - a.y) * ease(t), UNIT as int)) as i64,
            }
        }
    }
}

proof fn lemma_ease_bounds(t: int)
    requires
        -8 * UNIT <= t,
    ensures
        -250 * UNIT <= ease(t) <= 250 * UNIT,
        0 <= ease_slope(t) <= 250 * UNIT,
{
    if t <= UNIT {
        let n = 9 * t * UNIT * UNIT - 6 * t * t * UNIT + t * t * t;
        assert(-1000 * 1_000_000 * 1_000_000 * 1_000_000 <= n <= 1000 * 1_000_000 * 1_000_000 * 1_000_000)
            by (nonlinear_arith)
            requires -8_000_000 <= t <= 1_000_000, n == 9 * t * 1_000_000 * 1_000_000 - 6 * t * t * 1_000_000 + t * t * t;
        let m = 9 * UNIT * UNIT - 12 * t * UNIT + 3 * t * t;
        assert(0 <= m <= 1000 * 1_000_000 * 1_000_000) by (nonlinear_arith)
            requires -8_000_000 <= t <= 1_000_000, m == 9 * 1_000_000 * 1_000_000 - 12 * t * 1_000_000 + 3 * t * t;
    }
}

proof fn lemma_projection_bound(px: int, py: int, dx: int, dy: int)
    requires
        -MAX_LEN <= px <= MAX_LEN,
        -MAX_LEN <= py <= MAX_LEN,
        dx != 0 || dy != 0,
    ensures
        -0x2000_0000_0000_0000 <= tdiv((px * dx + py * dy) * UNIT, norm_sq(dx, dy) as int)
            <= 0x2000_0000_0000_0000,
{
    let k = MAX_LEN as int;
    let len2 = dx * dx + dy * dy;
    assert(abs(px * dx) <= k * abs(dx)) by (nonlinear_arith)
        requires -k <= px <= k, abs(px * dx) == if px * dx < 0 { -(px * dx) } else { px * dx },
            abs(dx) == if dx < 0 { -dx } else { dx };
    assert(abs(py * dy) <= k * abs(dy)) by (nonlinear_arith)
        requires -k <= py <= k, abs(py * dy) == if py * dy < 0 { -(py * dy) } else { py * dy },
            abs(dy) == if dy < 0 { -dy } else { dy };
    assert(abs(dx) <= dx * dx) by (nonlinear_arith)
        requires abs(dx) == if dx < 0 { -dx } else { dx };
    assert(abs(dy) <= dy * dy) by (nonlinear_arith)
        requires abs(dy) == if dy < 0 { -dy } else { dy };
    assert(len2 > 0) by (nonlinear_arith)
        requires dx != 0 || dy != 0, len2 == dx * dx + dy * dy;
    let a = abs((px * dx + py * dy) * UNIT);
    assert(a <= k * UNIT * len2) by (nonlinear_arith)
        requires a == abs((px * dx + py * dy) * UNIT), abs(px * dx) <= k * abs(dx),
            abs(py * dy) <= k * abs(dy), abs(dx) + abs(dy) <= len2, k > 0,
            abs(dx) >= 0, abs(dy) >= 0,
            a == if (px * dx + py * dy) * UNIT < 0 { -((px * dx + py * dy) * UNIT) } else { (px * dx + py * dy) * UNIT };
    assert(a / len2 <= k * UNIT) by (nonlinear_arith)
        requires 0 <= a <= k * UNIT * len2, 0 < len2, k * UNIT > 0;
}

/// The point reached by `move_towards`: a step that covers the rounded
/// distance arrives, one of no length stays, and any other goes `delta`
/// straight toward the target, clamped into the box spanned by the two.
pub open spec fn moved(p: Vector<i64>, t: Vector<i64>, delta: int) -> Vector<i64> {
    let dx = t.x - p.x;
    let dy = t.y - p.y;
    if delta <= 0 {
        p
    } else if delta >= norm(p.x - t.x, p.y - t.y) {
        t
    } else {
        Vector {
            x: clamp_between(p.x + rescale(dx, delta, norm_sq(dx, dy) as int), p.x as int, t.x as int) as i64,
            y: clamp_between(p.y + rescale(dy, delta, norm_sq(dx, dy) as int), p.y as int, t.y as int) as i64,
        }
    }
}

/// `clamp_between` on a wide value whose bounds fit in `i64`.
fn clamp_wide(v: i128, a: i64, b: i64) -> (r: i64)
    ensures
        r == clamp_between(v as int, a as int, b as int),
{
    if a < b {
        if v > b as i128 {
            b
        } else if v < a as i128 {
            a
        } else {
            v as i64
        }
    } else {
        if v < b as i128 {
            b
        } else if v > a as i128 {
            a
        } else {
            v as i64
        }
    }
}

/// Division that rounds toward zero.
fn div_toward_zero(a: i128, b: i128) -> (r: i128)
    requires
        b > 0,
        a > i128::MIN,
    ensures
        r == tdiv(a as int, b as int),
{
    if a >= 0 {
        a / b
    } else {
        -((-a) / b)
    }
}

/// The quadrant order: one vector is below another only when both of its
/// components are, and two vectors whose components disagree are unordered.
pub open spec fn quadrant_cmp(a: Vector<i64>, b: Vector<i64>) -> Option<std::cmp::Ordering> {
    if a.x > b.x && a.y > b.y {
        Some(std::cmp::Ordering::Greater)
    } else if a.x < b.x && a.y < b.y {
        Some(std::cmp::Ordering::Less)
    } else if a.x == b.x && a.y == b.y {
        Some(std::cmp::Ordering::Equal)
    } else {
        None
    }
}

impl PartialOrd for Vector<i64> {
    fn partial_cmp(&self, other: &Self) -> (r: Option<std::cmp::Ordering>) {
        if self.x > other.x && self.y > other.y {
            Some(std::cmp::Ordering::Greater)
        } else if self.x < other.x && self.y < other.y {
            Some(std::cmp::Ordering::Less)
        } else if self.x == other.x && self.y == other.y {
            Some(std::cmp::Ordering::Equal)
        } else {
            None
        }
    }
}

impl vstd::std_specs::cmp::PartialOrdSpecImpl for Vector<i64> {
    open spec fn obeys_partial_cmp_spec() -> bool {
        true
    }

    open spec fn partial_cmp_spec(&self, other: &Self) -> Option<std::cmp::Ordering> {
        quadrant_cmp(*self, *other)
    }
}

impl Identity for Vector<i64> {
    fn identity() -> (r: Self)
        ensures
            r.x == 0 && r.y == 0,
    {
        Vector { x: 0, y: 0 }
    }
}

impl Vector<i64> {
    pub open spec fn within(self, bound: int) -> bool {
        -bound <= self.x <= bound && -bound <= self.y <= bound
    }

    /// The vector `(1, 1)` in fixed point.
    pub fn multiplicative_identity() -> (r: Self)
        ensures
            r.x == UNIT && r.y == UNIT,
    {
        Vector { x: UNIT, y: UNIT }
    }

    /// The zero vector.
    pub fn identity() -> (r: Self)
        ensures
            r.x == 0 && r.y == 0,
    {
        Vector { x: 0, y: 0 }
    }

    /// The zero vector, as a constant-style constructor.
    pub fn const_identity() -> (r: Self)
        ensures
            r.x == 0 && r.y == 0,
    {
        Vector { x: 0, y: 0 }
    }

    pub fn add(self, rhs: Self) -> (r: Self)
        requires
            i64::MIN <= self.x + rhs.x <= i64::MAX,
            i64::MIN <= self.y + rhs.y <= i64::MAX,
        ensures
            r.x == self.x + rhs.x && r.y == self.y + rhs.y,
    {
        Vector { x: self.x + rhs.x, y: self.y + rhs.y }
    }

    pub fn sub(self, rhs: Self) -> (r: Self)
        requires
            i64::MIN <= self.x - rhs.x <= i64::MAX,
            i64::MIN <= self.y - rhs.y <= i64::MAX,
        ensures
            r.x == self.x - rhs.x && r.y == self.y - rhs.y,
    {
        Vector { x: self.x - rhs.x, y: self.y - rhs.y }
    }

    pub fn neg(self) -> (r: Self)
        requires
            self.x > i64::MIN && self.y > i64::MIN,
        ensures
            r.x == -self.x && r.y == -self.y,
    {
        Vector { x: -self.x, y: -self.y }
    }

    pub fn add_assign(&mut self, rhs: Self)
        requires
            i64::MIN <= old(self).x + rhs.x <= i64::MAX,
            i64::MIN <= old(self).y + rhs.y <= i64::MAX,
        ensures
            final(self).x == old(self).x + rhs.x,
            final(self).y == old(self).y + rhs.y,
    {
        self.x = self.x + rhs.x;
        self.y = self.y + rhs.y;
    }

    pub fn sub_assign(&mut self, rhs: Self)
        requires
            i64::MIN <= old(self).x - rhs.x <= i64::MAX,
            i64::MIN <= old(self).y - rhs.y <= i64::MAX,
        ensures
            final(self).x == old(self).x - rhs.x,
            final(self).y == old(self).y - rhs.y,
    {
        self.x = self.x - rhs.x;
        self.y = self.y - rhs.y;
    }

    /// The dot product `x1 * x2 + y1 * y2` of the raw components, so at scale
    /// `UNIT * UNIT`: the dot product of `(1, 0)` with itself is `UNIT^2`.
    pub fn dot(self, rhs: Self) -> (r: i128)
        requires
            self.within(MAX_LEN as int),
            rhs.within(MAX_LEN as int),
        ensures
            r == self.x * rhs.x + self.y * rhs.y,
    {
        proof {
            lemma_product_bound(self.x as int, rhs.x as int);
            lemma_product_bound(self.y as int, rhs.y as int);
        }
        self.x as i128 * rhs.x as i128 + self.y as i128 * rhs.y as i128
    }

    /// Each component multiplied by the raw factor `k`.
    pub fn scale(self, k: i64) -> (r: Self)
        requires
            i64::MIN <= self.x * k <= i64::MAX,
            i64::MIN <= self.y * k <= i64::MAX,
        ensures
            r.x == self.x * k && r.y == self.y * k,
    {
        Vector { x: self.x * k, y: self.y * k }
    }

    /// Each component multiplied by the fixed-point factor `k` (where `UNIT`
    /// is `1`), rounded toward zero.
    pub fn scale_fixed(self, k: i64) -> (r: Self)
        requires
            self.within(MAX_LEN as int),
            i64::MIN <= tdiv(self.x * k, UNIT as int) <= i64::MAX,
            i64::MIN <= tdiv(self.y * k, UNIT as int) <= i64::MAX,
        ensures
            r.x == tdiv(self.x * k, UNIT as int),
            r.y == tdiv(self.y * k, UNIT as int),
    {
        proof {
            lemma_mul_within(self.x as int, k as int, MAX_LEN as int, 0x8000_0000_0000_0000);
            lemma_mul_within(self.y as int, k as int, MAX_LEN as int, 0x8000_0000_0000_0000);
        }
        let x = div_toward_zero(self.x as i128 * k as i128, UNIT as i128);
        let y = div_toward_zero(self.y as i128 * k as i128, UNIT as i128);
        Vector { x: x as i64, y: y as i64 }
    }

    /// Clamps each component into the interval spanned by the matching
    /// components of `min` and `max`, whichever of the two is larger.
    pub fn clamp(&self, min: Self, max: Self) -> (r: Self)
        ensures
            r.x == clamp_between(self.x as int, min.x as int, max.x as int),
            r.y == clamp_between(self.y as int, min.y as int, max.y as int),
    {
        let mut output = *self;
        if min.x < max.x {
            if output.x > max.x {
                output.x = max.x;
            }
            if output.x < min.x {
                output.x = min.x;
            }
        } else {
            if output.x < max.x {
                output.x = max.x;
            }
            if output.x > min.x {
                output.x = min.x;
            }
        }
        if min.y < max.y {
            if output.y > max.y {
                output.y = max.y;
            }
            if output.y < min.y {
                output.y = min.y;
            }
        } else {
            if output.y < max.y {
                output.y = max.y;
            }
            if output.y > min.y {
                output.y = min.y;
            }
        }
        output
    }

    /// The rounded-down Euclidean length.
    pub fn magnitude(&self) -> (r: i64)
        requires
            self.within(MAX_LEN as int),
        ensures
            r == norm(self.x as int, self.y as int),
            0 <= r <= 2 * MAX_LEN,
    {
        let x = self.x as i128;
        let y = self.y as i128;
        proof {
            lemma_square_bound(x as int, MAX_LEN as int);
            lemma_square_bound(y as int, MAX_LEN as int);
        }
        let s = (x * x + y * y) as u128;
        assert(s == norm_sq(self.x as int, self.y as int));
        let r = int_sqrt(s);
        proof {
            lemma_sqrt_unique(r as int, s as nat);
            if r > 2 * MAX_LEN {
                lemma_square_le(2 * MAX_LEN, r as int);
            }
        }
        r as i64
    }

    /// Rescales to length `magnitude`, keeping the direction (a negative
    /// length reverses it); the zero vector is returned unchanged. The
    /// result's rounded-down length lies within four raw units below
    /// `abs(magnitude)`; see `lemma_with_magnitude_length`.
    pub fn with_magnitude(&self, magnitude: i64) -> (r: Self)
        requires
            self.within(MAX_LEN as int),
            -MAX_MAG <= magnitude <= MAX_MAG,
        ensures
            r.x == rescale(self.x as int, magnitude as int, norm_sq(self.x as int, self.y as int) as int),
            r.y == rescale(self.y as int, magnitude as int, norm_sq(self.x as int, self.y as int) as int),
            r.within(abs(magnitude as int)) || (self.x == 0 && self.y == 0 && r == *self),
    {
        let x = self.x as i128;
        let y = self.y as i128;
        proof {
            lemma_square_bound(x as int, MAX_LEN as int);
            lemma_square_bound(y as int, MAX_LEN as int);
        }
        let s = (x * x + y * y) as u128;
        assert(s == norm_sq(self.x as int, self.y as int));
        if s == 0 {
            assert(self.x * self.x == 0 && self.y * self.y == 0);
            assert(self.x == 0 && self.y == 0) by (nonlinear_arith)
                requires self.x * self.x == 0, self.y * self.y == 0;
            return *self;
        }
        let mut k: u128 = 1;
        while k < 0x8000_0000_0000_0000 && s * k * k <= 0x1000_0000_0000_0000_0000_0000_0000_0000
            invariant
                1 <= k < 0x1_0000_0000_0000_0000,
                1 <= s <= 0x8_0000_0000_0000_0000_0000,
                s * k <= s * k * k <= 0x4000_0000_0000_0000_0000_0000_0000_0000,
                widening(s as int, k as int) == widening(s as int, 1),
            decreases 0x1_0000_0000_0000_0000 - k,
        {
            assert(s * (2 * k) * (2 * k) == 4 * (s * k * k)) by (nonlinear_arith);
            assert(s * (2 * k) <= s * (2 * k) * (2 * k)) by (nonlinear_arith)
                requires s >= 1, k >= 1;
            k = 2 * k;
        }
        assert(widening(s as int, k as int) == k);
        let len = int_sqrt(s * k * k);
        proof {
            lemma_wide_root(self.x as int, self.y as int);
            lemma_sqrt_unique(len as int, (s * k * k) as nat);
            lemma_tdiv_scaled_bound(self.x * k, magnitude as int, len as int);
            lemma_tdiv_scaled_bound(self.y * k, magnitude as int, len as int);
            lemma_mul_within(self.x * k, magnitude as int, 0x8000_0000_0000_0000, MAX_MAG as int);
            lemma_mul_within(self.y * k, magnitude as int, 0x8000_0000_0000_0000, MAX_MAG as int);
        }
        let rx = div_toward_zero(x * (k as i128) * (magnitude as i128), len as i128);
        let ry = div_toward_zero(y * (k as i128) * (magnitude as i128), len as i128);
        Vector { x: rx as i64, y: ry as i64 }
    }

    /// The vector rescaled to length `UNIT`; the zero vector, which has no
    /// direction, is returned unchanged.
    pub fn normalise(&self) -> (r: Self)
        requires
            self.within(MAX_LEN as int),
        ensures
            r.x == rescale(self.x as int, UNIT as int, norm_sq(self.x as int, self.y as int) as int),
            r.y == rescale(self.y as int, UNIT as int, norm_sq(self.x as int, self.y as int) as int),
    {
        self.with_magnitude(UNIT)
    }

    /// The vector itself when its length is at most `magnitude`, otherwise
    /// the vector rescaled to that length.
    pub fn clamp_magnitude(&self, magnitude: i64) -> (r: Self)
        requires
            self.within(MAX_LEN as int),
            -MAX_MAG <= magnitude,
        ensures
            norm(self.x as int, self.y as int) > magnitude ==> r.x == rescale(
                self.x as int,
                magnitude as int,
                norm_sq(self.x as int, self.y as int) as int,
            ) && r.y == rescale(self.y as int, magnitude as int, norm_sq(self.x as int, self.y as int) as int),
            norm(self.x as int, self.y as int) <= magnitude ==> r == *self,
    {
        if self.magnitude() > magnitude {
            self.with_magnitude(magnitude)
        } else {
            *self
        }
    }

    /// The rounded-down distance between two points.
    pub fn distance(self, other: Self) -> (r: i64)
        requires
            self.within(MAX_POS as int),
            other.within(MAX_POS as int),
        ensures
            r == norm(self.x - other.x, self.y - other.y),
            0 <= r <= 2 * MAX_LEN,
    {
        self.sub(other).magnitude()
    }

    /// Steps `delta` from `self` straight toward `target` and clamps the
    /// result into the box spanned by `self` and `target`, so that it never
    /// passes the target. A step at least as long as the rounded distance
    /// arrives; a step of no length, or standing on the target already,
    /// stays.
    pub fn move_towards(&self, target: Self, delta: i64) -> (r: Self)
        requires
            self.within(MAX_POS as int),
            target.within(MAX_POS as int),
        ensures
            r == moved(*self, target, delta as int),
            min(self.x as int, target.x as int) <= r.x <= max(self.x as int, target.x as int),
            min(self.y as int, target.y as int) <= r.y <= max(self.y as int, target.y as int),
    {
        if delta <= 0 {
            return *self;
        }
        if delta >= self.distance(target) {
            return target;
        }
        let direction = target.sub(*self);
        let step = direction.with_magnitude(delta);
        proof {
            lemma_clamp_between(self.x + step.x, self.x as int, target.x as int);
            lemma_clamp_between(self.y + step.y, self.y as int, target.y as int);
        }
        let moved = Vector { x: self.x as i128 + step.x as i128, y: self.y as i128 + step.y as i128 };
        let mut output = *self;
        output.x = clamp_wide(moved.x, self.x, target.x);
        output.y = clamp_wide(moved.y, self.y, target.y);
        output
    }

    /// Eases a point along the segment from `start` to `end`: the position
    /// of `self` projected on the segment is mapped back through the easing
    /// curve, pushed on by a hundredth of `speed`, and mapped forward again.
    /// Close to the end of the curve the result snaps to `end`, and a
    /// segment of length zero gives `end`.
    pub fn lerp(&self, start: Self, end: Self, speed: i64) -> (r: Self)
        requires
            self.within(MAX_POS as int),
            start.within(MAX_POS as int),
            end.within(MAX_POS as int),
            -MAX_SPEED <= speed <= MAX_SPEED,
        ensures
            r == eased_point(*self, start, end, speed as int),
    {
        if start == end {
            return end;
        }
        let d = end.sub(start);
        let p = self.sub(start);
        let along = p.dot(d);
        let len2 = d.dot(d);
        proof {
            lemma_projection_bound(p.x as int, p.y as int, d.x as int, d.y as int);
            lemma_product_bound(p.x as int, d.x as int);
            lemma_product_bound(p.y as int, d.y as int);
            assert(len2 > 0) by (nonlinear_arith)
                requires d.x != 0 || d.y != 0, len2 == d.x * d.x + d.y * d.y;
        }
        let x = div_toward_zero(along * UNIT as i128, len2) as i64;
        let t = Self::find_t_from_x(x);
        let nudge = div_toward_zero(speed as i128, 100) as i64;
        let t = if t > UNIT { t - nudge } else { t + nudge };
        if UNIT - t <= UNIT / 100 && t < UNIT {
            return end;
        }
        let progress = Self::lerp_value(t);
        proof {
            lemma_mul_within(d.x as int, progress as int, MAX_LEN as int, 250 * UNIT);
            lemma_mul_within(d.y as int, progress as int, MAX_LEN as int, 250 * UNIT);
            assert(-0x200_0000_0000 * 250_000_000 <= tdiv(d.x * progress, UNIT as int) <= 0x200_0000_0000 * 250_000_000);
            assert(-0x200_0000_0000 * 250_000_000 <= tdiv(d.y * progress, UNIT as int) <= 0x200_0000_0000 * 250_000_000);
        }
        let ox = start.x as i128 + div_toward_zero(d.x as i128 * progress as i128, UNIT as i128);
        let oy = start.y as i128 + div_toward_zero(d.y as i128 * progress as i128, UNIT as i128);
        Vector { x: ox as i64, y: oy as i64 }
    }

    /// The easing curve at `t`.
    pub fn lerp_value(t: i64) -> (r: i64)
        requires
            t >= -8 * UNIT,
        ensures
            r == ease(t as int),
            -250 * UNIT <= r <= 250 * UNIT,
    {
        proof {
            lemma_ease_bounds(t as int);
        }
        if t > UNIT {
            return UNIT;
        }
        let w = t as i128;
        let u = UNIT as i128;
        assert(-0x40_0000_0000_0000_0000 <= w * w * w <= 0x40_0000_0000_0000_0000) by (nonlinear_arith)
            requires -8_000_000 <= w <= 1_000_000;
        assert(0 <= w * w <= 0x40_0000_0000_0000) by (nonlinear_arith)
            requires -8_000_000 <= w <= 1_000_000;
        let n = 9 * w * u * u - 6 * w * w * u + w * w * w;
        div_toward_zero(n, 4 * u * u) as i64
    }

    /// The slope of the easing curve at `t`.
    pub fn lerp_value_derivative(t: i64) -> (r: i64)
        requires
            t >= -8 * UNIT,
        ensures
            r == ease_slope(t as int),
            0 <= r <= 250 * UNIT,
    {
        proof {
            lemma_ease_bounds(t as int);
        }
        if t > UNIT {
            return 0;
        }
        let w = t as i128;
        let u = UNIT as i128;
        assert(0 <= w * w <= 0x40_0000_0000_0000) by (nonlinear_arith)
            requires -8_000_000 <= w <= 1_000_000;
        div_toward_zero(9 * u * u - 12 * w * u + 3 * w * w, 4 * u) as i64
    }

    /// Inverts the easing curve by Newton's method from `t = 1/2`: the
    /// parameter `t` with `ease(t)` equal to `x`, as far as `NEWTON_STEPS`
    /// steps find it.
    pub fn find_t_from_x(x: i64) -> (r: i64)
        ensures
            r == newton(x as int, UNIT / 2, NEWTON_STEPS as nat),
            -WINDOW <= r <= WINDOW,
    {
        let mut t: i64 = UNIT / 2;
        let mut fuel: u32 = NEWTON_STEPS;
        while fuel > 0
            invariant
                -WINDOW <= t <= WINDOW,
                newton(x as int, t as int, fuel as nat) == newton(x as int, UNIT / 2, NEWTON_STEPS as nat),
            decreases fuel,
        {
            let value = Self::lerp_value(t) as i128 - x as i128;
            if value == 0 {
                fuel = 0;
            } else {
                let slope = Self::lerp_value_derivative(t);
                if slope == 0 {
                    t = UNIT;
                    fuel = 0;
                } else {
                    let step = div_toward_zero(value * UNIT as i128, slope as i128);
                    t = clamp_wide(t as i128 - step, -WINDOW, WINDOW);
                    fuel = fuel - 1;
                }
            }
        }
        t
    }
}

/// Adding a vector's negation, or subtracting it from itself, gives the
/// zero vector.
pub proof fn lemma_add_neg_is_zero(v: Vector<i64>)
    requires
        v.x > i64::MIN && v.y > i64::MIN,
    ensures
        v.x + (-v.x) == 0 && v.y + (-v.y) == 0,
        v.x - v.x == 0 && v.y - v.y == 0,
{
}

/// Rescaling the zero vector to any length leaves it the zero vector.
pub proof fn lemma_zero_with_magnitude(m: int)
    ensures
        rescale(0, m, norm_sq(0, 0) as int) == 0,
{
}

/// Clamping is idempotent, and its result lies between the two corners on
/// each axis.
pub proof fn lemma_clamp_idempotent(v: Vector<i64>, a: Vector<i64>, b: Vector<i64>)
    ensures
        clamp_between(clamp_between(v.x as int, a.x as int, b.x as int), a.x as int, b.x as int)
            == clamp_between(v.x as int, a.x as int, b.x as int),
        clamp_between(clamp_between(v.y as int, a.y as int, b.y as int), a.y as int, b.y as int)
            == clamp_between(v.y as int, a.y as int, b.y as int),
        min(a.x as int, b.x as int) <= clamp_between(v.x as int, a.x as int, b.x as int) <= max(a.x as int, b.x as int),
        min(a.y as int, b.y as int) <= clamp_between(v.y as int, a.y as int, b.y as int) <= max(a.y as int, b.y as int),
{
    lemma_clamp_between(v.x as int, a.x as int, b.x as int);
    lemma_clamp_between(v.y as int, a.y as int, b.y as int);
}

/// A point moved toward itself, by any amount, stays where it is.
pub proof fn lemma_move_towards_self(p: Vector<i64>, delta: int)
    ensures
        moved(p, p, delta) == p,
{
    assert(norm_sq(0, 0) == 0);
    assert(floor_sqrt(0) == 0);
}

/// Moving a point toward a target by exactly their distance lands on the
/// target.
pub proof fn lemma_move_towards_full_distance(p: Vector<i64>, t: Vector<i64>)
    ensures
        moved(p, t, norm(p.x - t.x, p.y - t.y)) == t,
{
    if norm(p.x - t.x, p.y - t.y) == 0 {
        lemma_component_le_norm(p.x - t.x, p.y - t.y);
    }
}

proof fn lemma_tdiv_abs(a: int, len: int)
    requires
        len > 0,
    ensures
        0 <= abs(a) - len * abs(tdiv(a, len)) < len,
{
    let u = abs(a);
    assert(abs(tdiv(a, len)) == u / len);
    assert(0 <= u - len * (u / len) < len) by (nonlinear_arith)
        requires u >= 0, len > 0;
}

/// One rescaled component against the unrounded one: with `t` the rounded
/// size `abs(tdiv(c * m, len))`, `(len * t)^2` lies between
/// `(c * m)^2 - 2 * abs(c) * abs(m) * len` and `(c * m)^2`.
proof fn lemma_rescaled_square(c: int, m: int, len: int)
    requires
        len > 0,
    ensures
        abs(tdiv(c * m, len)) * abs(tdiv(c * m, len)) * (len * len) <= (c * c) * (m * m),
        abs(tdiv(c * m, len)) * abs(tdiv(c * m, len)) * (len * len)
            >= (c * c) * (m * m) - 2 * abs(c) * abs(m) * len,
{
    lemma_tdiv_abs(c * m, len);
    let t = abs(tdiv(c * m, len));
    let u = abs(c) * abs(m);
    assert(abs(c * m) == u) by (nonlinear_arith)
        requires abs(c) == if c < 0 { -c } else { c }, abs(m) == if m < 0 { -m } else { m },
            abs(c * m) == if c * m < 0 { -(c * m) } else { c * m }, u == abs(c) * abs(m);
    assert(u * u == (c * c) * (m * m)) by (nonlinear_arith)
        requires u == abs(c) * abs(m), abs(c) == if c < 0 { -c } else { c },
            abs(m) == if m < 0 { -m } else { m };
    assert(u >= 0) by (nonlinear_arith)
        requires u == abs(c) * abs(m), abs(c) >= 0, abs(m) >= 0;
    assert(t * t * (len * len) <= u * u) by (nonlinear_arith)
        requires 0 <= len * t <= u, t >= 0, len > 0;
    assert(t * t * (len * len) >= u * u - 2 * u * len) by (nonlinear_arith)
        requires len * t > u - len, t >= 0, len > 0, u >= 0;
    assert(2 * u * len == 2 * abs(c) * abs(m) * len) by (nonlinear_arith)
        requires u == abs(c) * abs(m);
}

/// Rescaling a nonzero vector to length `m` gives a vector whose
/// rounded-down length lies between `abs(m) - 4` and `abs(m)`.
pub proof fn lemma_with_magnitude_length(x: int, y: int, m: int)
    requires
        norm_sq(x, y) > 0,
        -MAX_LEN <= x <= MAX_LEN,
        -MAX_LEN <= y <= MAX_LEN,
        -MAX_MAG <= m <= MAX_MAG,
    ensures
        abs(m) - 4 <= norm(rescale(x, m, norm_sq(x, y) as int), rescale(y, m, norm_sq(x, y) as int)) <= abs(m),
{
    lemma_wide_root(x, y);
    let s = norm_sq(x, y) as int;
    let k = widening(s, 1);
    let w = s * k * k;
    let len = floor_sqrt(w as nat) as int;
    let cx = x * k;
    let cy = y * k;
    assert(x * k * m == cx * m && y * k * m == cy * m);
    lemma_rescaled_square(cx, m, len);
    lemma_rescaled_square(cy, m, len);
    let rx = rescale(x, m, s);
    let ry = rescale(y, m, s);
    let tx = abs(rx);
    let ty = abs(ry);
    assert(tx * tx == rx * rx && ty * ty == ry * ry) by (nonlinear_arith)
        requires tx == if rx < 0 { -rx } else { rx }, ty == if ry < 0 { -ry } else { ry };
    assert(rx * rx >= 0 && ry * ry >= 0) by (nonlinear_arith);
    let sr = norm_sq(rx, ry) as int;
    assert(sr == tx * tx + ty * ty);
    lemma_floor_sqrt(sr as nat);
    let q = norm(rx, ry);
    let l2 = len * len;
    let m2 = m * m;
    let am = abs(m);
    assert(am * am == m2) by (nonlinear_arith)
        requires am == if m < 0 { -m } else { m }, m2 == m * m;
    assert(sr * l2 == tx * tx * l2 + ty * ty * l2) by (nonlinear_arith)
        requires sr == tx * tx + ty * ty;
    assert(w * m2 == (cx * cx) * m2 + (cy * cy) * m2) by (nonlinear_arith)
        requires w == cx * cx + cy * cy;
    // Upper bound.
    assert(sr * l2 <= w * m2);
    if am == 0 {
        assert(m2 == 0) by (nonlinear_arith)
            requires am * am == m2, am == 0;
        assert(w * m2 == 0) by (nonlinear_arith)
            requires m2 == 0;
        assert(l2 > 0) by (nonlinear_arith)
            requires l2 == len * len, len > 0;
        assert(sr == 0) by (nonlinear_arith)
            requires sr * l2 <= 0, sr >= 0, l2 > 0;
        assert(q * q <= 0);
        assert(q == 0) by (nonlinear_arith)
            requires q * q <= 0;
    } else {
        let qq = q * len;
        let aa = am * (len + 1);
        assert(qq * qq == q * q * l2) by (nonlinear_arith)
            requires qq == q * len, l2 == len * len;
        assert(q * q * l2 <= sr * l2) by (nonlinear_arith)
            requires q * q <= sr, l2 >= 0;
        assert(l2 >= 0) by (nonlinear_arith)
            requires l2 == len * len;
        assert(m2 > 0) by (nonlinear_arith)
            requires m2 == am * am, am > 0;
        assert(w * m2 < (len + 1) * (len + 1) * m2) by (nonlinear_arith)
            requires w < (len + 1) * (len + 1), m2 > 0;
        assert(aa * aa == (len + 1) * (len + 1) * m2) by (nonlinear_arith)
            requires aa == am * (len + 1), m2 == am * am;
        assert(qq * qq < aa * aa);
        assert(qq >= 0 && aa >= 0) by (nonlinear_arith)
            requires qq == q * len, aa == am * (len + 1), q >= 0, len > 0, am > 0;
        if qq >= aa {
            lemma_square_le(aa, qq);
        }
        assert(q <= am) by (nonlinear_arith)
            requires q * len < am * (len + 1), am <= len, len > 0, q >= 0;
    }
    // Lower bound.
    assert(2 * am * len * (abs(cx) + abs(cy)) == 2 * abs(cx) * am * len + 2 * abs(cy) * am * len)
        by (nonlinear_arith);
    assert(sr * l2 >= w * m2 - 2 * am * len * (abs(cx) + abs(cy)));
    assert(sr >= m2 - 4 * am) by (nonlinear_arith)
        requires sr * l2 >= w * m2 - 2 * am * len * (abs(cx) + abs(cy)), w >= l2, l2 == len * len,
            abs(cx) <= len, abs(cy) <= len, 0 <= abs(cx), 0 <= abs(cy), len > 0, am >= 0, m2 >= 0;
    assert(q >= am - 4) by (nonlinear_arith)
        requires sr < (q + 1) * (q + 1), sr >= m2 - 4 * am, m2 == am * am, q >= 0, am >= 0;
}

/// `normalise` gives a vector whose rounded-down length lies within four
/// raw units below `UNIT`, for every nonzero vector.
pub proof fn lemma_normalise_length(x: int, y: int)
    requires
        norm_sq(x, y) > 0,
        -MAX_LEN <= x <= MAX_LEN,
        -MAX_LEN <= y <= MAX_LEN,
    ensures
        UNIT - 4 <= norm(rescale(x, UNIT as int, norm_sq(x, y) as int), rescale(y, UNIT as int, norm_sq(x, y) as int))
            <= UNIT,
{
    lemma_with_magnitude_length(x, y, UNIT as int);
}

} // verus!
