//! Two-dimensional integer vectors and the few operations that the flocking
//! rules need: truncating division, integer square root, clamping a vector's
//! length and moving a vector towards a target.

use vstd::prelude::*;

verus! {

/// Largest magnitude of a component that the vector operations accept.
pub const COMPONENT_BOUND: i64 = 0x1000_0000;

/// A vector (or point) with integer components, in fixed-point units.
#[derive(Clone, Copy, Debug, PartialEq, Eq, Structural)]
pub struct Vec2 {
    pub x: i64,
    pub y: i64,
}

impl View for Vec2 {
    type V = (int, int);

    open spec fn view(&self) -> (int, int) {
        (self.x as int, self.y as int)
    }
}

/// Component-wise sum.
pub open spec fn vadd(a: (int, int), b: (int, int)) -> (int, int) {
    (a.0 + b.0, a.1 + b.1)
}

/// Component-wise difference `a - b`.
pub open spec fn vsub(a: (int, int), b: (int, int)) -> (int, int) {
    (a.0 - b.0, a.1 - b.1)
}

/// Squared Euclidean length.
pub open spec fn norm_sq(a: (int, int)) -> int {
    a.0 * a.0 + a.1 * a.1
}

/// Dot product.
pub open spec fn dot(a: (int, int), b: (int, int)) -> int {
    a.0 * b.0 + a.1 * b.1
}

/// Integer division rounding towards zero, as Rust's `/` does.
pub open spec fn tdiv(a: int, b: int) -> int {
    if a >= 0 {
        a / b
    } else {
        -((-a) / b)
    }
}

/// Each component multiplied by `num` and divided by `den`, rounding towards zero.
pub open spec fn vscale(a: (int, int), num: int, den: int) -> (int, int) {
    (tdiv(a.0 * num, den), tdiv(a.1 * num, den))
}

/// `r` is the integer square root of `n`: the largest `r` with `r * r <= n`.
pub open spec fn is_isqrt(n: int, r: int) -> bool {
    0 <= r && r * r <= n && n < (r + 1) * (r + 1)
}

/// The integer square root of a non-negative `n`.
pub open spec fn isqrt_spec(n: int) -> int {
    choose|r: int| is_isqrt(n, r)
}

/// Integer length of a vector: the square root of its squared length, rounded down.
pub open spec fn length(a: (int, int)) -> int {
    isqrt_spec(norm_sq(a))
}

/// Both components lie within `bound` of zero.
pub open spec fn bounded(a: (int, int), bound: int) -> bool {
    -bound <= a.0 <= bound && -bound <= a.1 <= bound
}

/// The integer square root is unique.
pub proof fn lemma_isqrt_unique(n: int, r1: int, r2: int)
    requires
        is_isqrt(n, r1),
        is_isqrt(n, r2),
    ensures
        r1 == r2,
{
    if r1 < r2 {
        assert((r1 + 1) * (r1 + 1) <= r2 * r2) by (nonlinear_arith)
            requires
                0 <= r1 + 1 <= r2,
        ;
    } else if r2 < r1 {
        assert((r2 + 1) * (r2 + 1) <= r1 * r1) by (nonlinear_arith)
            requires
                0 <= r2 + 1 <= r1,
        ;
    }
}

/// Any value shown to be the integer square root is the one `isqrt_spec` names.
pub proof fn lemma_isqrt_spec(n: int, r: int)
    requires
        is_isqrt(n, r),
    ensures
        isqrt_spec(n) == r,
{
    assert(is_isqrt(n, isqrt_spec(n)));
    lemma_isqrt_unique(n, r, isqrt_spec(n));
}

/// Integer division rounding towards zero, for a positive divisor.
pub fn div_trunc(a: i64, b: i64) -> (r: i64)
    requires
        b > 0,
        a > i64::MIN,
    ensures
        r == tdiv(a as int, b as int),
{
    if a >= 0 {
        a / b
    } else {
        let q: i64 = (-a) / b;
        -q
    }
}

/// The integer square root of `n`, found by bisection.
pub fn isqrt(n: u64) -> (r: u64)
    requires
        n < 0x4000_0000_0000_0000,
    ensures
        is_isqrt(n as int, r as int),
        r == isqrt_spec(n as int),
        r < 0x8000_0000,
{
    let mut lo: u64 = 0;
    let mut hi: u64 = 0x8000_0000;
    assert(hi * hi == 0x4000_0000_0000_0000) by (nonlinear_arith)
        requires
            hi == 0x8000_0000,
    ;
    while hi - lo > 1
        invariant
            lo < hi <= 0x8000_0000,
            lo * lo <= n,
            n < hi * hi,
        decreases hi - lo,
    {
        let mid: u64 = lo + (hi - lo) / 2;
        assert(mid * mid <= 0x4000_0000_0000_0000) by (nonlinear_arith)
            requires
                mid <= 0x8000_0000,
        ;
        if mid * mid <= n {
            lo = mid;
        } else {
            hi = mid;
        }
    }
    assert(hi == lo + 1);
    proof {
        lemma_isqrt_spec(n as int, lo as int);
    }
    lo
}

/// Squared length of a vector whose components are bounded.
pub fn length_sqr(v: Vec2) -> (r: u64)
    requires
        bounded(v@, 2 * COMPONENT_BOUND),
    ensures
        r == norm_sq(v@),
        r <= 0x800_0000_0000_0000,
{
    assert(v.x * v.x <= 0x400_0000_0000_0000 && v.y * v.y <= 0x400_0000_0000_0000) by (nonlinear_arith)
        requires
            bounded(v@, 0x2000_0000),
    ;
    assert(v.x * v.x >= 0 && v.y * v.y >= 0) by (nonlinear_arith);
    let xx: i64 = v.x * v.x;
    let yy: i64 = v.y * v.y;
    (xx + yy) as u64
}


/// Where `move_vec_towards` puts `v`: the target itself when it lies no further
/// than `step` away (or is `v` itself), else `v` moved `step` units along the
/// line to the target.
pub open spec fn move_towards_spec(v: (int, int), t: (int, int), step: int) -> (int, int) {
    let d = vsub(t, v);
    if norm_sq(d) == 0 || (step >= 0 && norm_sq(d) <= step * step) {
        t
    } else {
        vadd(v, vscale(d, step, length(d)))
    }
}

/// Integer length of a vector rounded up: the least `c` with `c * c >= |a|^2`.
pub open spec fn ceil_length(a: (int, int)) -> int {
    if length(a) * length(a) == norm_sq(a) {
        length(a)
    } else {
        length(a) + 1
    }
}

/// What `clamp_vector_magnitude` makes of `v`. A zero vector stays. One
/// shorter than `lo` is stretched by `lo / length`, from the length rounded
/// down and with components rounded away from zero, so that it reaches `lo`.
/// One longer than `hi` is shrunk by `hi / length`, from the length rounded up
/// and with components rounded towards zero, so that it does not exceed `hi`.
/// Any other is kept. The direction is kept up to rounding.
pub open spec fn clamp_spec(v: (int, int), lo: int, hi: int) -> (int, int) {
    if norm_sq(v) == 0 {
        v
    } else if norm_sq(v) < lo * lo {
        (cdiv_away(v.0 * lo, length(v)), cdiv_away(v.1 * lo, length(v)))
    } else if norm_sq(v) > hi * hi {
        vscale(v, hi, ceil_length(v))
    } else {
        v
    }
}

/// A positive squared length has a positive integer length.
pub proof fn lemma_length_pos(a: (int, int))
    requires
        norm_sq(a) > 0,
        is_isqrt(norm_sq(a), length(a)),
    ensures
        length(a) > 0,
{
    if length(a) == 0 {
        assert((length(a) + 1) * (length(a) + 1) == 1);
    }
}

/// Integer length of a vector with bounded components, with the facts the
/// callers need about it.
pub fn vec_length(v: Vec2) -> (r: i64)
    requires
        bounded(v@, 2 * COMPONENT_BOUND),
    ensures
        r == length(v@),
        is_isqrt(norm_sq(v@), r as int),
        norm_sq(v@) > 0 ==> r > 0,
        0 <= r < 0x8000_0000,
{
    let n = length_sqr(v);
    let r = isqrt(n);
    proof {
        if norm_sq(v@) > 0 {
            lemma_length_pos(v@);
        }
    }
    r as i64
}

/// Integer length of a vector with bounded components, rounded up.
pub fn vec_ceil_length(v: Vec2) -> (r: i64)
    requires
        bounded(v@, 2 * COMPONENT_BOUND),
    ensures
        r == ceil_length(v@),
        r * r >= norm_sq(v@),
        norm_sq(v@) > 0 ==> r > 0,
        0 <= r <= 0x8000_0000,
{
    let n = length_sqr(v);
    let len = vec_length(v);
    if (len * len) as u64 == n {
        len
    } else {
        assert((len + 1) * (len + 1) > norm_sq(v@));
        len + 1
    }
}

/// Moves `vec` towards `target` by at most `step`: when the target is within
/// `step` (or equal to `vec`) the result is the target itself, never beyond it.
pub fn move_vec_towards(vec: Vec2, target: Vec2, step: i64) -> (r: Vec2)
    requires
        bounded(vec@, COMPONENT_BOUND as int),
        bounded(target@, COMPONENT_BOUND as int),
        -COMPONENT_BOUND <= step <= COMPONENT_BOUND,
    ensures
        r@ == move_towards_spec(vec@, target@, step as int),
{
    let diff = Vec2 { x: target.x - vec.x, y: target.y - vec.y };
    let dist_sq = length_sqr(diff);
    assert(0 <= step * step <= 0x100_0000_0000_0000) by (nonlinear_arith)
        requires
            -0x1000_0000 <= step <= 0x1000_0000,
    ;
    if dist_sq == 0 || (step >= 0 && dist_sq <= (step * step) as u64) {
        target
    } else {
        let dist = vec_length(diff);
        assert(-0x200_0000_0000_0000 <= diff.x * step <= 0x200_0000_0000_0000) by (nonlinear_arith)
            requires
                bounded(diff@, 0x2000_0000),
                -0x1000_0000 <= step <= 0x1000_0000,
        ;
        assert(-0x200_0000_0000_0000 <= diff.y * step <= 0x200_0000_0000_0000) by (nonlinear_arith)
            requires
                bounded(diff@, 0x2000_0000),
                -0x1000_0000 <= step <= 0x1000_0000,
        ;
        let dx = div_trunc(diff.x * step, dist);
        let dy = div_trunc(diff.y * step, dist);
        proof {
            lemma_tdiv_bound(diff.x * step, dist as int);
            lemma_tdiv_bound(diff.y * step, dist as int);
        }
        Vec2 { x: vec.x + dx, y: vec.y + dy }
    }
}

/// Truncating division by a positive number never grows a magnitude.
pub proof fn lemma_tdiv_bound(a: int, b: int)
    requires
        b > 0,
    ensures
        a >= 0 ==> 0 <= tdiv(a, b) <= a,
        a < 0 ==> a <= tdiv(a, b) <= 0,
{
    if a >= 0 {
        assert(0 <= a / b <= a) by (nonlinear_arith)
            requires
                a >= 0,
                b > 0,
        ;
    } else {
        assert(0 <= (-a) / b <= -a) by (nonlinear_arith)
            requires
                -a > 0,
                b > 0,
        ;
    }
}

/// Rescales a non-zero `v` towards the length range `range`: a vector
/// shorter than `range.start` is stretched to at least that length, one
/// longer than `range.end` is shrunk to at most that length, both along the
/// same direction up to rounding. Any other vector, and the zero vector, is
/// returned as it is.
pub fn clamp_vector_magnitude(v: Vec2, range: std::ops::Range<i64>) -> (r: Vec2)
    requires
        bounded(v@, COMPONENT_BOUND as int),
        0 <= range.start <= COMPONENT_BOUND,
        0 <= range.end <= COMPONENT_BOUND,
    ensures
        r@ == clamp_spec(v@, range.start as int, range.end as int),
        0 < norm_sq(v@) < range.start * range.start ==> norm_sq(r@) >= range.start * range.start
            && bounded(r@, range.start as int),
        range.start <= range.end && norm_sq(v@) > range.end * range.end ==> norm_sq(r@) <= range.end * range.end && bounded(
            r@,
            range.end as int,
        ),
        bounded(r@, COMPONENT_BOUND as int),
        forall|b: int|
            bounded(v@, b) && range.start <= b && range.end <= b ==> #[trigger] bounded(r@, b),
{
    let length_sq = length_sqr(v);
    if length_sq == 0 {
        return v;
    }
    let lo = range.start;
    let hi = range.end;
    assert(0 <= lo * lo <= 0x100_0000_0000_0000 && 0 <= hi * hi <= 0x100_0000_0000_0000) by (nonlinear_arith)
        requires
            0 <= lo <= 0x1000_0000,
            0 <= hi <= 0x1000_0000,
    ;
    assert(-0x100_0000_0000_0000 <= v.x * lo <= 0x100_0000_0000_0000 && -0x100_0000_0000_0000 <= v.y
        * lo <= 0x100_0000_0000_0000 && -0x100_0000_0000_0000 <= v.x * hi <= 0x100_0000_0000_0000
        && -0x100_0000_0000_0000 <= v.y * hi <= 0x100_0000_0000_0000) by (nonlinear_arith)
        requires
            bounded(v@, 0x1000_0000),
            0 <= lo <= 0x1000_0000,
            0 <= hi <= 0x1000_0000,
    ;
    assert(lo <= hi ==> lo * lo <= hi * hi) by (nonlinear_arith)
        requires
            0 <= lo,
    ;
    proof {
        lemma_length(v@);
        lemma_length_pos(v@);
        assert(v.x * v.x <= norm_sq(v@) && v.y * v.y <= norm_sq(v@)) by (nonlinear_arith)
            requires
                norm_sq(v@) == v.x * v.x + v.y * v.y,
        ;
        lemma_component_le_len(v.x as int, norm_sq(v@), length(v@));
        lemma_component_le_len(v.y as int, norm_sq(v@), length(v@));
    }
    if length_sq < (lo * lo) as u64 {
        let len = vec_length(v);
        let r = Vec2 { x: div_away(v.x * lo, len), y: div_away(v.y * lo, len) };
        proof {
            lemma_away_component(v.x as int, lo as int, len as int);
            lemma_away_component(v.y as int, lo as int, len as int);
            lemma_away_lower(v.x as int, lo as int, len as int);
            lemma_away_lower(v.y as int, lo as int, len as int);
            assert(norm_sq(r@) * (len * len) >= norm_sq(v@) * (lo * lo)) by (nonlinear_arith)
                requires
                    r.x * r.x * (len * len) >= (v.x * v.x) * (lo * lo),
                    r.y * r.y * (len * len) >= (v.y * v.y) * (lo * lo),
                    norm_sq(r@) == r.x * r.x + r.y * r.y,
                    norm_sq(v@) == v.x * v.x + v.y * v.y,
            ;
            assert(norm_sq(r@) >= lo * lo) by (nonlinear_arith)
                requires
                    norm_sq(r@) * (len * len) >= norm_sq(v@) * (lo * lo),
                    norm_sq(v@) >= len * len,
                    len > 0,
            ;
        }
        r
    } else if length_sq > (hi * hi) as u64 {
        let len = vec_length(v);
        let c: i64 = if len * len == length_sq as i64 { len } else { len + 1 };
        let r = Vec2 { x: div_trunc(v.x * hi, c), y: div_trunc(v.y * hi, c) };
        proof {
            assert(c * c >= norm_sq(v@)) by (nonlinear_arith)
                requires
                    c == len || c == len + 1,
                    c == len ==> len * len == norm_sq(v@),
                    norm_sq(v@) < (len + 1) * (len + 1),
            ;
            lemma_trunc_upper(v.x as int, hi as int, c as int);
            lemma_trunc_upper(v.y as int, hi as int, c as int);
            assert(norm_sq(r@) * (c * c) <= norm_sq(v@) * (hi * hi)) by (nonlinear_arith)
                requires
                    r.x * r.x * (c * c) <= (v.x * v.x) * (hi * hi),
                    r.y * r.y * (c * c) <= (v.y * v.y) * (hi * hi),
                    norm_sq(r@) == r.x * r.x + r.y * r.y,
                    norm_sq(v@) == v.x * v.x + v.y * v.y,
            ;
            assert(norm_sq(r@) <= hi * hi) by (nonlinear_arith)
                requires
                    norm_sq(r@) * (c * c) <= norm_sq(v@) * (hi * hi),
                    norm_sq(v@) <= c * c,
                    c > 0,
            ;
            lemma_scaled_component(v.x as int, hi as int, c as int, hi as int);
            lemma_scaled_component(v.y as int, hi as int, c as int, hi as int);
        }
        r
    } else {
        v
    }
}

/// A component rescaled by `m / f` with rounding away from zero stays within
/// `m` of zero when the component is within `f`.
pub proof fn lemma_away_component(a: int, m: int, f: int)
    requires
        0 <= m,
        0 < f,
        -f <= a <= f,
    ensures
        -m <= cdiv_away(a * m, f) <= m,
{
    if a * m >= 0 {
        assert(a * m <= f * m) by (nonlinear_arith)
            requires
                -f <= a <= f,
                m >= 0,
        ;
        assert(0 <= (a * m + f - 1) / f <= m) by (nonlinear_arith)
            requires
                0 <= a * m <= f * m,
                f > 0,
        ;
    } else {
        assert(-(a * m) <= f * m) by (nonlinear_arith)
            requires
                -f <= a <= f,
                m >= 0,
        ;
        assert(0 <= (-(a * m) + f - 1) / f <= m) by (nonlinear_arith)
            requires
                0 <= -(a * m) <= f * m,
                f > 0,
        ;
    }
}

/// A component rescaled with rounding away from zero is at least as long as
/// the exact rescaling: `|t| * f >= |a| * m`.
pub proof fn lemma_away_lower(a: int, m: int, f: int)
    requires
        0 <= m,
        0 < f,
    ensures
        cdiv_away(a * m, f) * cdiv_away(a * m, f) * (f * f) >= (a * a) * (m * m),
{
    let t = cdiv_away(a * m, f);
    let w = if a * m >= 0 { a * m } else { -(a * m) };
    let q = (w + f - 1) / f;
    assert(q * f >= w) by (nonlinear_arith)
        requires
            q == (w + f - 1) / f,
            f > 0,
    ;
    assert(q * q * (f * f) >= w * w) by (nonlinear_arith)
        requires
            q * f >= w >= 0,
    ;
    assert(t * t == q * q) by (nonlinear_arith)
        requires
            t == q || t == -q,
    ;
    assert(w * w == (a * a) * (m * m)) by (nonlinear_arith)
        requires
            w == a * m || w == -(a * m),
    ;
}

/// A component rescaled with rounding towards zero is at most as long as the
/// exact rescaling: `|t| * c <= |a| * m`.
pub proof fn lemma_trunc_upper(a: int, m: int, c: int)
    requires
        0 <= m,
        0 < c,
    ensures
        tdiv(a * m, c) * tdiv(a * m, c) * (c * c) <= (a * a) * (m * m),
{
    let t = tdiv(a * m, c);
    let w = if a * m >= 0 { a * m } else { -(a * m) };
    let q = w / c;
    assert(0 <= q * c <= w) by (nonlinear_arith)
        requires
            q == w / c,
            c > 0,
            w >= 0,
    ;
    assert(q * q * (c * c) <= w * w) by (nonlinear_arith)
        requires
            0 <= q * c <= w,
    ;
    assert(t * t == q * q) by (nonlinear_arith)
        requires
            t == q || t == -q,
    ;
    assert(w * w == (a * a) * (m * m)) by (nonlinear_arith)
        requires
            w == a * m || w == -(a * m),
    ;
}

/// Clamping keeps a vector whose length already lies in the range; so it
/// leaves its own result alone whenever that result lies in the range.
pub proof fn lemma_clamp_idempotent(v: (int, int), lo: int, hi: int)
    requires
        0 <= lo <= hi,
        norm_sq(clamp_spec(v, lo, hi)) == 0 || lo * lo <= norm_sq(clamp_spec(v, lo, hi)) <= hi
            * hi,
    ensures
        clamp_spec(clamp_spec(v, lo, hi), lo, hi) == clamp_spec(v, lo, hi),
{
}

/// A component whose square is at most `n` is at most the integer root of `n`.
pub proof fn lemma_component_le_len(c: int, n: int, len: int)
    requires
        c * c <= n,
        is_isqrt(n, len),
    ensures
        -len <= c <= len,
{
    if c > len {
        assert((len + 1) * (len + 1) <= c * c) by (nonlinear_arith)
            requires
                c >= len + 1,
                len >= 0,
        ;
    } else if -c > len {
        assert((len + 1) * (len + 1) <= c * c) by (nonlinear_arith)
            requires
                -c >= len + 1,
                len >= 0,
        ;
    }
}

/// `c * target / len`, rounded towards zero, stays within `target` when `|c| <= len`.
pub proof fn lemma_scaled_component(c: int, target: int, len: int, bound: int)
    requires
        -len <= c <= len,
        len > 0,
        0 <= target <= bound,
    ensures
        -bound <= tdiv(c * target, len) <= bound,
{
    if c >= 0 {
        assert(c * target <= len * target) by (nonlinear_arith)
            requires
                0 <= c <= len,
                target >= 0,
        ;
        assert((c * target) / len <= target) by (nonlinear_arith)
            requires
                0 <= c * target <= len * target,
                len > 0,
        ;
        assert(c * target >= 0) by (nonlinear_arith)
            requires
                c >= 0,
                target >= 0,
        ;
        assert((c * target) / len >= 0) by (nonlinear_arith)
            requires
                c * target >= 0,
                len > 0,
        ;
    } else {
        assert((-c) * target <= len * target) by (nonlinear_arith)
            requires
                0 <= -c <= len,
                target >= 0,
        ;
        assert(-(c * target) == (-c) * target) by (nonlinear_arith);
        assert((-(c * target)) / len <= target) by (nonlinear_arith)
            requires
                0 <= -(c * target) <= len * target,
                len > 0,
        ;
        assert((-(c * target)) / len >= 0) by (nonlinear_arith)
            requires
                -(c * target) >= 0,
                len > 0,
        ;
    }
}

/// Integer division rounding away from zero, for a positive divisor.
pub open spec fn cdiv_away(a: int, b: int) -> int {
    if a >= 0 {
        (a + b - 1) / b
    } else {
        -((-a + b - 1) / b)
    }
}

/// Integer division rounding away from zero, for a positive divisor.
pub fn div_away(a: i64, b: i64) -> (r: i64)
    requires
        b > 0,
        -0x1000_0000_0000_0000 <= a <= 0x1000_0000_0000_0000,
        b <= 0x1000_0000_0000_0000,
    ensures
        r == cdiv_away(a as int, b as int),
{
    if a >= 0 {
        (a + b - 1) / b
    } else {
        let q: i64 = (-a + b - 1) / b;
        -q
    }
}

/// Every non-negative integer has an integer square root.
pub proof fn lemma_isqrt_exists(n: int)
    requires
        n >= 0,
    ensures
        is_isqrt(n, isqrt_spec(n)),
    decreases n,
{
    if n == 0 {
        assert(is_isqrt(0, 0));
        lemma_isqrt_spec(0, 0);
    } else {
        lemma_isqrt_exists(n - 1);
        let r = isqrt_spec(n - 1);
        if (r + 1) * (r + 1) <= n {
            assert((r + 2) * (r + 2) > (r + 1) * (r + 1)) by (nonlinear_arith)
                requires
                    r >= 0,
            ;
            assert(is_isqrt(n, r + 1));
            lemma_isqrt_spec(n, r + 1);
        } else {
            assert(is_isqrt(n, r));
            lemma_isqrt_spec(n, r);
        }
    }
}

/// A squared length is never negative, and its integer length is its root.
pub proof fn lemma_length(a: (int, int))
    ensures
        norm_sq(a) >= 0,
        is_isqrt(norm_sq(a), length(a)),
{
    assert(norm_sq(a) >= 0) by (nonlinear_arith)
        requires
            norm_sq(a) == a.0 * a.0 + a.1 * a.1,
    ;
    lemma_isqrt_exists(norm_sq(a));
}

} // verus!
