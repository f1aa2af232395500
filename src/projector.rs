//! The column projector: from a hit to the vertical screen strip that shows it.
//!
//! With `q = t_num^2 * (dx^2 + dy^2)`, the distance from the origin to the hit
//! is `sqrt(q) / t_den`. Strip height and shade are the exact floors of the
//! real formulas `tile * screen_height / distance` and
//! `SHADE_ONE * (1 - distance / visibility)`, clamped at zero.
use crate::caster::{Hit, HitRecord, Side};
use crate::grid::{Direction, MAX_STEP, MAX_TILE};
use vstd::prelude::*;

verus! {

/// Full brightness of a strip.
pub const SHADE_ONE: u64 = 256;

/// Largest screen height, in pixels.
pub const MAX_SCREEN: u64 = 65536;

/// Largest visibility range, in world units.
pub const MAX_VISIBILITY: u64 = 0x1_0000_0000;

/// One screen column's strip: rows `top .. bottom` show texture column
/// `offset_num / offset_den` of the tile, scaled by `shade / SHADE_ONE`.
#[derive(Clone, Copy, Debug, PartialEq, Eq, Structural)]
pub struct Strip {
    pub column: u64,
    pub top: i64,
    pub bottom: i64,
    pub height: u64,
    pub offset_num: u64,
    pub offset_den: u64,
    pub shade: u64,
    pub side: Side,
}

/// Squared distance to the hit, times `t_den^2`.
pub open spec fn dist_sq_num(h: Hit, d: Direction) -> int {
    h.t_num * h.t_num * (d.dx * d.dx + d.dy * d.dy)
}

/// `r` is the floor of the square root of `x`.
pub open spec fn is_isqrt(r: int, x: int) -> bool {
    0 <= r && r * r <= x < (r + 1) * (r + 1)
}

/// `h` is the floor of `c / sqrt(q)`: the largest `h` with `h * sqrt(q) <= c`.
pub open spec fn is_floor_div_sqrt(h: int, c: int, q: int) -> bool {
    0 <= h && h * h * q <= c * c < (h + 1) * (h + 1) * q
}

/// `r` is the floor of `sqrt(q) / den`.
pub open spec fn is_floor_sqrt_div(r: int, q: int, den: int) -> bool {
    0 <= r && r * r * (den * den) <= q < (r + 1) * (r + 1) * (den * den)
}

/// Strip height for a hit at distance `sqrt(q) / den`: the floor of
/// `th / distance`, where `th = tile * screen_height`, for distances of at
/// least one world unit; nearer walls show as at one unit, height `th`.
pub open spec fn is_strip_height(h: int, th: int, q: int, den: int) -> bool {
    if q < den * den {
        h == th
    } else {
        is_floor_div_sqrt(h, th * den, q)
    }
}

/// Shade `s` does not exceed `SHADE_ONE * (1 - distance / visibility)`, where
/// the distance is `sqrt(q) / den`.
pub open spec fn shade_within(s: int, q: int, den: int, vis: int) -> bool {
    s <= SHADE_ONE && (SHADE_ONE - s) * (SHADE_ONE - s) * (vis * vis * (den * den)) >= SHADE_ONE
        * SHADE_ONE * q
}

/// Shade of a strip: zero at or beyond the visibility range, else the largest
/// shade within the linear fog formula.
pub open spec fn is_shade(s: int, q: int, den: int, vis: int) -> bool {
    if q >= vis * vis * (den * den) {
        s == 0
    } else {
        shade_within(s, q, den, vis) && !shade_within(s + 1, q, den, vis)
    }
}

/// What the projector returns for `hit`, cast along `d` on tiles of side
/// `tile`, shown in screen `column` of a screen `screen_height` pixels high.
pub open spec fn is_projection(
    tile: int,
    hit: Hit,
    d: Direction,
    column: int,
    screen_height: int,
    vis: int,
    s: Strip,
) -> bool {
    let q = dist_sq_num(hit, d);
    &&& s.column == column
    &&& s.side == hit.side
    &&& s.offset_num == hit.offset_num
    &&& s.offset_den == hit.t_den
    &&& is_strip_height(s.height as int, tile * screen_height, q, hit.t_den)
    &&& s.top == (screen_height - s.height) / 2
    &&& s.bottom == s.top + s.height
    &&& is_shade(s.shade as int, q, hit.t_den, vis)
}

/// Floor of the square root.
pub fn isqrt(x: u128) -> (r: u128)
    ensures
        is_isqrt(r as int, x as int),
{
    let mut lo: u128 = 0;
    let mut hi: u128 = 0x1_0000_0000_0000_0000;
    assert(x < hi * hi) by (nonlinear_arith)
        requires
            hi == 0x1_0000_0000_0000_0000u128,
            x <= u128::MAX,
    ;
    while hi - lo > 1
        invariant
            lo < hi <= 0x1_0000_0000_0000_0000,
            lo * lo <= x < hi * hi,
        decreases hi - lo,
    {
        let mid = lo + (hi - lo) / 2;
        assert(mid * mid < 0x1_0000_0000_0000_0000 * 0x1_0000_0000_0000_0000) by (nonlinear_arith)
            requires
                mid < 0x1_0000_0000_0000_0000,
        ;
        if mid * mid <= x {
            lo = mid;
        } else {
            hi = mid;
        }
    }
    lo
}

/// Projects a hit, cast along `dir` on tiles of side `tile`, into the strip
/// of screen `column`.
pub fn project(
    tile: u64,
    hit: &HitRecord,
    dir: Direction,
    column: u64,
    screen_height: u64,
    visibility: u64,
) -> (r: Strip)
    requires
        1 <= tile <= MAX_TILE,
        0 <= hit.t_num < 0x8000_0000,
        0 < hit.t_den <= MAX_STEP,
        dir.valid(),
        1 <= screen_height <= MAX_SCREEN,
        1 <= visibility <= MAX_VISIBILITY,
    ensures
        is_projection(
            tile as int,
            hit@,
            dir,
            column as int,
            screen_height as int,
            visibility as int,
            r,
        ),
{
    let ghost hv = hit@;
    let dx = dir.dx as i128;
    let dy = dir.dy as i128;
    let tn = hit.t_num as u128;
    let den = hit.t_den as u128;
    assert(0 < dx * dx + dy * dy <= 2 * MAX_STEP * MAX_STEP) by (nonlinear_arith)
        requires
            -MAX_STEP <= dx <= MAX_STEP,
            -MAX_STEP <= dy <= MAX_STEP,
            dx != 0 || dy != 0,
    ;
    assert(0 <= dx * dx <= MAX_STEP * MAX_STEP && 0 <= dy * dy <= MAX_STEP * MAX_STEP)
        by (nonlinear_arith)
        requires
            -MAX_STEP <= dx <= MAX_STEP,
            -MAX_STEP <= dy <= MAX_STEP,
    ;
    let len_sq = (dx * dx + dy * dy) as u128;
    assert(0 <= tn * tn * len_sq <= 0x1_0000_0000_0000_0000_0000_0000) by (nonlinear_arith)
        requires
            0 <= tn < 0x8000_0000,
            0 < len_sq <= 0x2_0000_0000,
    ;
    assert(0 <= tn * tn < 0x8000_0000 * 0x8000_0000) by (nonlinear_arith)
        requires
            0 <= tn < 0x8000_0000,
    ;
    let tn2: u128 = tn * tn;
    assert(tn2 * len_sq <= 0x1_0000_0000_0000_0000_0000_0000);
    let q: u128 = tn2 * len_sq;
    assert(q == dist_sq_num(hv, dir)) by (nonlinear_arith)
        requires
            q == tn * tn * len_sq,
            len_sq == dir.dx * dir.dx + dir.dy * dir.dy,
            tn == hv.t_num,
    ;
    assert(0 < den * den <= 0x1_0000_0000) by (nonlinear_arith)
        requires
            0 < den <= 0x1_0000,
    ;
    let dd: u128 = den * den;
    // strip height
    assert(0 < tile * screen_height * den <= MAX_TILE * MAX_SCREEN * MAX_STEP)
        by (nonlinear_arith)
        requires
            1 <= tile <= MAX_TILE,
            1 <= screen_height <= MAX_SCREEN,
            0 < den <= MAX_STEP,
    ;
    let tile128 = tile as u128;
    let sh128 = screen_height as u128;
    assert(tile128 * sh128 <= MAX_TILE * MAX_SCREEN) by (nonlinear_arith)
        requires
            1 <= tile128 <= MAX_TILE,
            1 <= sh128 <= MAX_SCREEN,
    ;
    let ts: u128 = tile128 * sh128;
    assert(ts * den == tile * screen_height * den);
    let c: u128 = ts * den;
    assert(c * c <= (MAX_TILE * MAX_SCREEN * MAX_STEP) * (MAX_TILE * MAX_SCREEN * MAX_STEP))
        by (nonlinear_arith)
        requires
            0 < c <= MAX_TILE * MAX_SCREEN * MAX_STEP,
    ;
    let height: u64 = if q < dd {
        ts as u64
    } else {
        let cc = c * c;
        let x = cc / q;
        let h = isqrt(x);
        proof {
            lemma_floor_div_sqrt(h as int, x as int, c as int, q as int);
        }
        assert(h <= c) by (nonlinear_arith)
            requires
                h * h * q <= c * c,
                q >= 1,
                h >= 0,
                c >= 0,
        ;
        h as u64
    };
    let hs = screen_height as i64;
    let top = crate::arith::floor_div(hs - height as i64, 2);
    // shade
    let vis128 = visibility as u128;
    assert(0 < vis128 * vis128 <= 0x1_0000_0000_0000_0000) by (nonlinear_arith)
        requires
            1 <= vis128 <= 0x1_0000_0000,
    ;
    let vv: u128 = vis128 * vis128;
    assert(0 < vv * dd <= 0x1_0000_0000_0000_0000_0000_0000) by (nonlinear_arith)
        requires
            0 < vv <= 0x1_0000_0000_0000_0000,
            0 < dd <= 0x1_0000_0000,
    ;
    let b: u128 = vv * dd;
    let shade: u64 = if q >= b {
        0
    } else {
        let a: u128 = 65536 * q;
        let mut n: u128 = 0;
        while (n * n) * b < a
            invariant
                n * n <= 65536,
                n * n * b <= 65536 * b,
                0 <= n <= 256,
                a == 65536 * q,
                q < b <= 0x1_0000_0000_0000_0000_0000_0000,
                forall|m: int| 0 <= m < n ==> #[trigger] (m * m) * b < a,
            decreases 257 - n,
        {
            assert(n * n * b <= 65536 * b) by (nonlinear_arith)
                requires
                    n <= 256,
                    b > 0,
            ;
            assert(n < 256) by (nonlinear_arith)
                requires
                    n * n * b < a,
                    a == 65536 * q,
                    q < b,
                    n >= 0,
            ;
            assert((n + 1) * (n + 1) * b <= 65536 * b) by (nonlinear_arith)
                requires
                    n < 256,
                    b > 0,
            ;
            n = n + 1;
            assert(n * n <= 65536 && n * n * b <= 65536 * b) by (nonlinear_arith)
                requires
                    n <= 256,
                    b > 0,
            ;
        }
        proof {
            lemma_shade(n as int, q as int, den as int, visibility as int, b as int);
        }
        (256 - n) as u64
    };
    Strip {
        column,
        top,
        bottom: top + height as i64,
        height,
        offset_num: hit.offset_num,
        offset_den: hit.t_den,
        shade,
        side: hit.side,
    }
}

/// The floor of the distance from the origin to the hit of a ray cast along
/// `dir`: the largest `r` with `r <= sqrt(q) / t_den`.
pub fn distance_floor(hit: &HitRecord, dir: Direction) -> (r: u64)
    requires
        0 <= hit.t_num < 0x8000_0000,
        0 < hit.t_den <= MAX_STEP,
        dir.valid(),
    ensures
        is_floor_sqrt_div(r as int, dist_sq_num(hit@, dir), hit.t_den as int),
{
    let ghost hv = hit@;
    let dx = dir.dx as i128;
    let dy = dir.dy as i128;
    let tn = hit.t_num as u128;
    let den = hit.t_den as u128;
    assert(0 <= dx * dx <= MAX_STEP * MAX_STEP && 0 <= dy * dy <= MAX_STEP * MAX_STEP)
        by (nonlinear_arith)
        requires
            -MAX_STEP <= dx <= MAX_STEP,
            -MAX_STEP <= dy <= MAX_STEP,
    ;
    let len_sq = (dx * dx + dy * dy) as u128;
    assert(0 <= tn * tn < 0x8000_0000 * 0x8000_0000) by (nonlinear_arith)
        requires
            0 <= tn < 0x8000_0000,
    ;
    let tn2: u128 = tn * tn;
    assert(tn2 * len_sq <= 0x1_0000_0000_0000_0000_0000_0000) by (nonlinear_arith)
        requires
            tn2 < 0x8000_0000 * 0x8000_0000,
            len_sq <= 0x2_0000_0000,
    ;
    let q: u128 = tn2 * len_sq;
    assert(q == dist_sq_num(hv, dir)) by (nonlinear_arith)
        requires
            q == tn2 * len_sq,
            tn2 == tn * tn,
            len_sq == dir.dx * dir.dx + dir.dy * dir.dy,
            tn == hv.t_num,
    ;
    assert(0 < den * den <= 0x1_0000_0000) by (nonlinear_arith)
        requires
            0 < den <= 0x1_0000,
    ;
    let dd: u128 = den * den;
    let x = q / dd;
    let r = isqrt(x);
    proof {
        vstd::arithmetic::div_mod::lemma_fundamental_div_mod(q as int, dd as int);
        let m = (q as int) % (dd as int);
        assert(r * r * dd <= q) by (nonlinear_arith)
            requires
                r * r <= x,
                q == dd * x + m,
                0 <= m,
                dd > 0,
        ;
        assert(q < (r + 1) * (r + 1) * dd) by (nonlinear_arith)
            requires
                x + 1 <= (r + 1) * (r + 1),
                q == dd * x + m,
                m < dd,
                dd > 0,
        ;
        assert(r * r <= 0x1_0000_0000_0000_0000_0000_0000) by (nonlinear_arith)
            requires
                r * r * dd <= q,
                q <= 0x1_0000_0000_0000_0000_0000_0000,
                dd >= 1,
                r >= 0,
        ;
        if r >= 0x1_0000_0000_0000_0000 {
            assert(r * r >= 0x1_0000_0000_0000_0000 * r) by (nonlinear_arith)
                requires
                    r >= 0x1_0000_0000_0000_0000,
            ;
        }
    }
    r as u64
}

proof fn lemma_floor_div_sqrt(h: int, x: int, c: int, q: int)
    requires
        q > 0,
        c >= 0,
        x == (c * c) / q,
        is_isqrt(h, x),
    ensures
        is_floor_div_sqrt(h, c, q),
{
    vstd::arithmetic::div_mod::lemma_fundamental_div_mod(c * c, q);
    let r = (c * c) % q;
    assert(h * h * q <= c * c) by (nonlinear_arith)
        requires
            h * h <= x,
            c * c == q * x + r,
            0 <= r,
            q > 0,
    ;
    assert(c * c < (h + 1) * (h + 1) * q) by (nonlinear_arith)
        requires
            x + 1 <= (h + 1) * (h + 1),
            c * c == q * x + r,
            r < q,
            q > 0,
    ;
}

proof fn lemma_shade(n: int, q: int, den: int, vis: int, b: int)
    requires
        q >= 0,
        0 <= n <= 256,
        b == vis * vis * (den * den),
        q < b,
        n * n * b >= 65536 * q,
        forall|m: int| 0 <= m < n ==> #[trigger] (m * m) * b < 65536 * q,
    ensures
        is_shade(256 - n, q, den, vis),
{
    assert(SHADE_ONE - (256 - n) == n);
    if n > 0 {
        assert(((n - 1) * (n - 1)) * b < 65536 * q);
    } else {
        assert(n * n * b == 0) by (nonlinear_arith)
            requires
                n == 0,
        ;
    }
}

} // verus!
