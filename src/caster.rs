//! The grid ray caster.
//!
//! A ray `origin + t * dir` (`t >= 0`) is followed through the grid by two
//! families of crossings: those of vertical grid lines `x = i * tile` and those
//! of horizontal grid lines `y = j * tile`. A line through the origin counts
//! as crossed at `t = 0`, so a wall the origin touches is not skipped. Both
//! families are handled by one stepping routine, parameterised by which axis
//! it steps along. At each
//! crossing the ray enters a new cell; the first crossing whose entered cell
//! is a wall, or lies outside the grid, is that family's candidate. The nearer
//! candidate is the hit, the vertical family winning ties.
//!
//! Distances along a family are kept as exact integers: the `k`-th crossing
//! of the family stepping along `x` lies at `t = a / |dx|`, where `a` is the
//! distance in `x` from the origin to that grid line.
use crate::arith::{floor_div, floor_mod};
use crate::grid::{Direction, Grid, GridMap, Point, MAX_CELLS, MAX_COORD, MAX_STEP, MAX_TILE};
use vstd::prelude::*;

verus! {

/// Which family of grid lines the ray struck.
#[derive(Clone, Copy, Debug, PartialEq, Eq, Structural)]
pub enum Side {
    /// A line `x = i * tile`.
    Vertical,
    /// A line `y = j * tile`.
    Horizontal,
}

/// The result of one cast. The hit point is `(x_num / t_den, y_num / t_den)`,
/// reached at ray parameter `t = t_num / t_den`; the texture offset, the
/// position of the hit along the struck tile edge, is `offset_num / t_den`.
#[derive(Clone, Copy, Debug, PartialEq, Eq, Structural)]
pub struct HitRecord {
    pub side: Side,
    pub t_num: u64,
    pub t_den: u64,
    pub x_num: i64,
    pub y_num: i64,
    pub offset_num: u64,
}

/// The mathematical content of a [`HitRecord`].
pub struct Hit {
    pub side: Side,
    pub t_num: int,
    pub t_den: int,
    pub x_num: int,
    pub y_num: int,
    pub offset_num: int,
}

impl View for HitRecord {
    type V = Hit;

    open spec fn view(&self) -> Hit {
        Hit {
            side: self.side,
            t_num: self.t_num as int,
            t_den: self.t_den as int,
            x_num: self.x_num as int,
            y_num: self.y_num as int,
            offset_num: self.offset_num as int,
        }
    }
}

pub open spec fn abs(v: int) -> int {
    if v < 0 {
        -v
    } else {
        v
    }
}

/// The origin's coordinate along the family's stepping axis.
pub open spec fn along(o: Point, vertical: bool) -> int {
    if vertical {
        o.x as int
    } else {
        o.y as int
    }
}

/// The origin's coordinate across the family's stepping axis.
pub open spec fn across(o: Point, vertical: bool) -> int {
    if vertical {
        o.y as int
    } else {
        o.x as int
    }
}

/// The direction's component along the family's stepping axis.
pub open spec fn along_step(d: Direction, vertical: bool) -> int {
    if vertical {
        d.dx as int
    } else {
        d.dy as int
    }
}

/// The direction's component across the family's stepping axis.
pub open spec fn across_step(d: Direction, vertical: bool) -> int {
    if vertical {
        d.dy as int
    } else {
        d.dx as int
    }
}

/// Number of cells along the family's stepping axis.
pub open spec fn along_cells(g: Grid, vertical: bool) -> int {
    if vertical {
        g.columns
    } else {
        g.rows
    }
}

/// Index of the `k`-th grid line at or ahead of coordinate `p` when moving
/// with sign `s`. A line through `p` itself is crossed first, at distance 0:
/// the ray leaves the origin into the cell beyond it.
pub open spec fn line_index(p: int, s: int, t: int, k: int) -> int {
    if s > 0 {
        (p + t - 1) / t + k
    } else {
        p / t - k
    }
}

/// Distance along the axis from `p` to the `k`-th line ahead.
pub open spec fn line_dist(p: int, s: int, t: int, k: int) -> int {
    if s > 0 {
        line_index(p, s, t, k) * t - p
    } else {
        p - line_index(p, s, t, k) * t
    }
}

/// Index of the cell entered on crossing the `k`-th line ahead.
pub open spec fn entered(p: int, s: int, t: int, k: int) -> int {
    if s > 0 {
        line_index(p, s, t, k)
    } else {
        line_index(p, s, t, k) - 1
    }
}

/// Cell index of the rational coordinate `num / den` for a ray moving with
/// sign `s` on that axis: the cell the ray is in just after that coordinate.
/// A ray that does not move on the axis takes the cell below-or-at.
pub open spec fn cell_of(num: int, den: int, s: int, t: int) -> int {
    if s < 0 {
        (num - 1) / (t * den)
    } else {
        num / (t * den)
    }
}

/// Numerator, over `|along_step|`, of the across coordinate at the `k`-th
/// crossing of the family.
pub open spec fn cross_num(g: Grid, o: Point, d: Direction, vertical: bool, k: int) -> int {
    across(o, vertical) * abs(along_step(d, vertical)) + across_step(d, vertical) * line_dist(
        along(o, vertical),
        along_step(d, vertical),
        g.tile,
        k,
    )
}

/// Index across the stepping axis of the cell entered at the `k`-th crossing.
pub open spec fn cross_cell(g: Grid, o: Point, d: Direction, vertical: bool, k: int) -> int {
    cell_of(
        cross_num(g, o, d, vertical, k),
        abs(along_step(d, vertical)),
        across_step(d, vertical),
        g.tile,
    )
}

/// Index along the stepping axis of the cell entered at the `k`-th crossing.
pub open spec fn along_cell(g: Grid, o: Point, d: Direction, vertical: bool, k: int) -> int {
    entered(along(o, vertical), along_step(d, vertical), g.tile, k)
}

/// Whether the cell entered at the `k`-th crossing of the family stops the ray.
pub open spec fn crossing_blocks(g: Grid, o: Point, d: Direction, vertical: bool, k: int) -> bool {
    if vertical {
        g.blocks(cross_cell(g, o, d, vertical, k), along_cell(g, o, d, vertical, k))
    } else {
        g.blocks(along_cell(g, o, d, vertical, k), cross_cell(g, o, d, vertical, k))
    }
}

/// How many more crossings at most precede leaving the grid along the axis.
pub open spec fn remaining(g: Grid, o: Point, d: Direction, vertical: bool, k: int) -> int {
    if along_step(d, vertical) > 0 {
        along_cells(g, vertical) - along_cell(g, o, d, vertical, k)
    } else {
        along_cell(g, o, d, vertical, k) + 1
    }
}

/// Index of the first blocking crossing of the family at or after `k`.
pub open spec fn first_blocking(g: Grid, o: Point, d: Direction, vertical: bool, k: int) -> int
    decreases remaining(g, o, d, vertical, k as int),
{
    if k < 0 || along_step(d, vertical) == 0 || crossing_blocks(g, o, d, vertical, k)
        || remaining(g, o, d, vertical, k) <= 0 {
        k
    } else {
        first_blocking(g, o, d, vertical, k + 1)
    }
}

/// The family's candidate: distance along the axis to its first blocking
/// crossing (its ray parameter is this over `|along_step|`).
pub open spec fn candidate(g: Grid, o: Point, d: Direction, vertical: bool) -> int {
    line_dist(along(o, vertical), along_step(d, vertical), g.tile, first_blocking(g, o, d, vertical, 0))
}

/// Whether the vertical family's candidate is the hit: it exists, and the
/// horizontal one does not or is not strictly nearer.
pub open spec fn vertical_wins(g: Grid, o: Point, d: Direction) -> bool {
    d.dx != 0 && (d.dy == 0 || candidate(g, o, d, true) * abs(d.dy as int) <= candidate(g, o, d, false)
        * abs(d.dx as int))
}

/// What a cast returns.
pub open spec fn cast_model(g: Grid, o: Point, d: Direction) -> Hit {
    let v = vertical_wins(g, o, d);
    let a = candidate(g, o, d, v);
    let den = abs(along_step(d, v));
    let xn = o.x * den + d.dx * a;
    let yn = o.y * den + d.dy * a;
    Hit {
        side: if v {
            Side::Vertical
        } else {
            Side::Horizontal
        },
        t_num: a,
        t_den: den,
        x_num: xn,
        y_num: yn,
        offset_num: if v {
            yn % (g.tile * den)
        } else {
            xn % (g.tile * den)
        },
    }
}

/// Facts on the lines ahead of `p`: none lies behind, they are one tile
/// apart, and the first is less than one tile ahead.
pub proof fn lemma_lines(p: int, s: int, t: int, k: int)
    requires
        t > 0,
        s != 0,
        k >= 0,
    ensures
        0 <= line_dist(p, s, t, 0) < t,
        line_dist(p, s, t, k) == line_dist(p, s, t, 0) + k * t,
        line_dist(p, s, t, k) >= 0,
{
    if s > 0 {
        vstd::arithmetic::div_mod::lemma_fundamental_div_mod(p + t - 1, t);
        let q = (p + t - 1) / t;
        assert(0 <= q * t - p < t) by (nonlinear_arith)
            requires
                p + t - 1 == t * q + (p + t - 1) % t,
                0 <= (p + t - 1) % t < t,
        ;
        assert((q + k) * t - p == q * t - p + k * t) by (nonlinear_arith);
    } else {
        vstd::arithmetic::div_mod::lemma_fundamental_div_mod(p, t);
        let q = p / t;
        assert(0 <= p - q * t < t) by (nonlinear_arith)
            requires
                p == t * q + p % t,
                0 <= p % t < t,
        ;
        assert(p - (q - k) * t == p - q * t + k * t) by (nonlinear_arith);
    }
    assert(k * t >= 0) by (nonlinear_arith)
        requires
            k >= 0,
            t > 0,
    ;
}

proof fn lemma_div_bounds(p: int, t: int)
    requires
        t >= 1,
        -MAX_COORD <= p <= MAX_COORD + MAX_TILE,
    ensures
        -MAX_COORD <= p / t <= MAX_COORD + MAX_TILE,
{
    assert(-MAX_COORD <= p / t <= MAX_COORD + MAX_TILE) by (nonlinear_arith)
        requires
            t >= 1,
            -MAX_COORD <= p <= MAX_COORD + MAX_TILE,
    ;
}

/// The first blocking crossing at or after `k` is not before `k`.
pub proof fn lemma_first_blocking_ahead(g: Grid, o: Point, d: Direction, vertical: bool, k: int)
    requires
        k >= 0,
    ensures
        first_blocking(g, o, d, vertical, k) >= k,
    decreases remaining(g, o, d, vertical, k),
{
    if !(along_step(d, vertical) == 0 || crossing_blocks(g, o, d, vertical, k) || remaining(
        g,
        o,
        d,
        vertical,
        k,
    ) <= 0) {
        lemma_first_blocking_ahead(g, o, d, vertical, k + 1);
    }
}

/// Steps one family of crossings to its first blocking one and returns the
/// candidate distance along the stepping axis.
fn family_candidate(map: &GridMap, o: Point, d: Direction, vertical: bool) -> (r: i64)
    requires
        map@.wf(),
        o.bounded(),
        d.valid(),
        along_step(d, vertical) != 0,
    ensures
        r == candidate(map@, o, d, vertical),
        0 <= r < 0x8000_0000,
{
    let ghost g = map@;
    let t = map.tile() as i64;
    let (p, s, q, c) = if vertical {
        (o.x, d.dx, o.y, d.dy)
    } else {
        (o.y, d.dy, o.x, d.dx)
    };
    let n: i64 = if vertical {
        map.columns() as i64
    } else {
        map.rows() as i64
    };
    let den: i64 = if s < 0 {
        -s
    } else {
        s
    };
    proof {
        lemma_div_bounds(p as int, t as int);
        lemma_div_bounds(p + t - 1, t as int);
        lemma_first_blocking_ahead(g, o, d, vertical, 0);
    }
    let first: i64 = if s > 0 {
        floor_div(p + t - 1, t)
    } else {
        floor_div(p, t)
    };
    proof {
        lemma_lines(p as int, s as int, t as int, 0);
        assert(first == line_index(p as int, s as int, t as int, 0));
    }
    let mut k: i64 = 0;
    loop
        invariant
            g == map@,
            g.wf(),
            o.bounded(),
            d.valid(),
            t == g.tile,
            n == along_cells(g, vertical),
            p == along(o, vertical),
            s == along_step(d, vertical),
            q == across(o, vertical),
            c == across_step(d, vertical),
            den == abs(s as int),
            s != 0,
            first == line_index(p as int, s as int, t as int, 0),
            -MAX_COORD <= first <= MAX_COORD + MAX_TILE,
            0 <= k <= first_blocking(g, o, d, vertical, 0),
            first_blocking(g, o, d, vertical, 0) == first_blocking(g, o, d, vertical, k as int),
            k > 0 ==> 0 <= along_cell(g, o, d, vertical, k - 1) < n,
        decreases remaining(g, o, d, vertical, k as int),
    {
        let line: i64 = if s > 0 {
            first + k
        } else {
            first - k
        };
        proof {
            lemma_lines(p as int, s as int, t as int, k as int);
            if k > 0 {
                assert(0 <= line <= n + 1);
            }
            assert(-MAX_COORD <= line <= MAX_COORD + MAX_TILE);
            assert(-(MAX_COORD + MAX_TILE) * MAX_TILE <= line * t <= (MAX_COORD + MAX_TILE)
                * MAX_TILE) by (nonlinear_arith)
                requires
                    -MAX_COORD <= line <= MAX_COORD + MAX_TILE,
                    1 <= t <= MAX_TILE,
            ;
            if k > 0 {
                assert(0 <= line * t <= (MAX_CELLS + 1) * MAX_TILE) by (nonlinear_arith)
                    requires
                        0 <= line <= n + 1,
                        n <= MAX_CELLS,
                        1 <= t <= MAX_TILE,
                ;
            }
        }
        let dist: i64 = if s > 0 {
            line * t - p
        } else {
            p - line * t
        };
        assert(dist == line_dist(p as int, s as int, t as int, k as int));
        assert(0 <= dist < 0x8000_0000);
        let e: i64 = if s > 0 {
            line
        } else {
            line - 1
        };
        proof {
            assert(-MAX_STEP * 0x8000_0000 <= c * dist <= MAX_STEP * 0x8000_0000)
                by (nonlinear_arith)
                requires
                    -MAX_STEP <= c <= MAX_STEP,
                    0 <= dist < 0x8000_0000,
            ;
            assert(-MAX_COORD * MAX_STEP <= q * den <= MAX_COORD * MAX_STEP) by (nonlinear_arith)
                requires
                    -MAX_COORD <= q <= MAX_COORD,
                    0 < den <= MAX_STEP,
            ;
            assert(0 < t * den <= MAX_TILE * MAX_STEP) by (nonlinear_arith)
                requires
                    1 <= t <= MAX_TILE,
                    0 < den <= MAX_STEP,
            ;
        }
        let cn: i64 = q * den + c * dist;
        let ci: i64 = if c < 0 {
            floor_div(cn - 1, t * den)
        } else {
            floor_div(cn, t * den)
        };
        assert(cn == cross_num(g, o, d, vertical, k as int));
        assert(ci == cross_cell(g, o, d, vertical, k as int));
        assert(e == along_cell(g, o, d, vertical, k as int));
        let blocked = if vertical {
            map.blocks(ci, e)
        } else {
            map.blocks(e, ci)
        };
        if blocked {
            return dist;
        }
        assert(0 <= e < n);
        proof {
            lemma_first_blocking_ahead(g, o, d, vertical, k + 1);
        }
        k = k + 1;
    }
}

/// Casts one ray from `origin` along `dir` and returns its first wall hit,
/// the boundary of the grid counting as a wall.
pub fn cast_ray(map: &GridMap, origin: Point, dir: Direction) -> (r: HitRecord)
    requires
        map@.wf(),
        origin.bounded(),
        dir.valid(),
    ensures
        r@ == cast_model(map@, origin, dir),
        0 <= r.t_num < 0x8000_0000,
        0 < r.t_den <= MAX_STEP,
        r.offset_num < map@.tile * r.t_den,
{
    let ghost g = map@;
    let av: i64 = if dir.dx != 0 {
        family_candidate(map, origin, dir, true)
    } else {
        0
    };
    let ah: i64 = if dir.dy != 0 {
        family_candidate(map, origin, dir, false)
    } else {
        0
    };
    let adx: i64 = if dir.dx < 0 {
        -dir.dx
    } else {
        dir.dx
    };
    let ady: i64 = if dir.dy < 0 {
        -dir.dy
    } else {
        dir.dy
    };
    proof {
        assert(0 <= av * ady <= 0x8000_0000 * MAX_STEP) by (nonlinear_arith)
            requires
                0 <= av < 0x8000_0000,
                0 <= ady <= MAX_STEP,
        ;
        assert(0 <= ah * adx <= 0x8000_0000 * MAX_STEP) by (nonlinear_arith)
            requires
                0 <= ah < 0x8000_0000,
                0 <= adx <= MAX_STEP,
        ;
    }
    let v = dir.dx != 0 && (dir.dy == 0 || av * ady <= ah * adx);
    assert(v == vertical_wins(g, origin, dir));
    let (a, den) = if v {
        (av, adx)
    } else {
        (ah, ady)
    };
    proof {
        assert(-MAX_COORD * MAX_STEP <= origin.x * den <= MAX_COORD * MAX_STEP)
            by (nonlinear_arith)
            requires
                -MAX_COORD <= origin.x <= MAX_COORD,
                0 < den <= MAX_STEP,
        ;
        assert(-MAX_COORD * MAX_STEP <= origin.y * den <= MAX_COORD * MAX_STEP)
            by (nonlinear_arith)
            requires
                -MAX_COORD <= origin.y <= MAX_COORD,
                0 < den <= MAX_STEP,
        ;
        assert(-MAX_STEP * 0x8000_0000 <= dir.dx * a <= MAX_STEP * 0x8000_0000)
            by (nonlinear_arith)
            requires
                -MAX_STEP <= dir.dx <= MAX_STEP,
                0 <= a < 0x8000_0000,
        ;
        assert(-MAX_STEP * 0x8000_0000 <= dir.dy * a <= MAX_STEP * 0x8000_0000)
            by (nonlinear_arith)
            requires
                -MAX_STEP <= dir.dy <= MAX_STEP,
                0 <= a < 0x8000_0000,
        ;
        assert(0 < g.tile * den <= MAX_TILE * MAX_STEP) by (nonlinear_arith)
            requires
                1 <= g.tile <= MAX_TILE,
                0 < den <= MAX_STEP,
        ;
    }
    let xn: i64 = origin.x * den + dir.dx * a;
    let yn: i64 = origin.y * den + dir.dy * a;
    let m: i64 = map.tile() as i64 * den;
    let off: i64 = if v {
        floor_mod(yn, m)
    } else {
        floor_mod(xn, m)
    };
    HitRecord {
        side: if v {
            Side::Vertical
        } else {
            Side::Horizontal
        },
        t_num: a as u64,
        t_den: den as u64,
        x_num: xn,
        y_num: yn,
        offset_num: off as u64,
    }
}

} // verus!
