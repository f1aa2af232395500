//! Properties of the caster, proved over its model.
use crate::caster::{
    across, across_step, along, along_cells, along_step, candidate, cast_model, cell_of,
    cross_cell, cross_num, crossing_blocks, first_blocking, lemma_first_blocking_ahead,
    lemma_lines, line_dist, line_index, remaining, vertical_wins, HitRecord, Side, along_cell,
};
use crate::grid::{Direction, Grid, Point};
use crate::caster::abs;
use crate::projector::dist_sq_num;
use vstd::prelude::*;

verus! {

/// Casting is a function of its inputs: two results of casting the same ray
/// on the same map are identical.
pub proof fn lemma_cast_deterministic(g: Grid, o: Point, d: Direction, r1: HitRecord, r2: HitRecord)
    requires
        r1@ == cast_model(g, o, d),
        r2@ == cast_model(g, o, d),
    ensures
        r1 == r2,
{
}

/// The first blocking crossing of a family blocks.
pub proof fn lemma_first_blocking_blocks(g: Grid, o: Point, d: Direction, vertical: bool, k: int)
    requires
        g.wf(),
        along_step(d, vertical) != 0,
        k >= 0,
    ensures
        crossing_blocks(g, o, d, vertical, first_blocking(g, o, d, vertical, k)),
    decreases remaining(g, o, d, vertical, k),
{
    if !(crossing_blocks(g, o, d, vertical, k) || remaining(g, o, d, vertical, k) <= 0) {
        lemma_first_blocking_blocks(g, o, d, vertical, k + 1);
    }
}

/// The first blocking crossing at or after `k` comes no later than any
/// blocking crossing `j >= k`.
pub proof fn lemma_first_blocking_min(g: Grid, o: Point, d: Direction, vertical: bool, k: int, j: int)
    requires
        g.wf(),
        along_step(d, vertical) != 0,
        0 <= k <= j,
        crossing_blocks(g, o, d, vertical, j),
    ensures
        first_blocking(g, o, d, vertical, k) <= j,
    decreases j - k,
{
    if k < j && !(crossing_blocks(g, o, d, vertical, k) || remaining(g, o, d, vertical, k) <= 0) {
        lemma_first_blocking_min(g, o, d, vertical, k + 1, j);
    }
}

/// A family's candidate is a distance, never negative.
pub proof fn lemma_candidate_nonneg(g: Grid, o: Point, d: Direction, vertical: bool)
    requires
        g.wf(),
        along_step(d, vertical) != 0,
    ensures
        candidate(g, o, d, vertical) >= 0,
{
    lemma_first_blocking_ahead(g, o, d, vertical, 0);
    lemma_lines(
        along(o, vertical),
        along_step(d, vertical),
        g.tile,
        first_blocking(g, o, d, vertical, 0),
    );
}

/// The ray is stopped where it starts: the origin lies on a grid line of the
/// family, and the cell the ray enters across that line stops it.
pub open spec fn stopped_at_origin(g: Grid, o: Point, d: Direction, vertical: bool) -> bool {
    &&& along_step(d, vertical) != 0
    &&& line_dist(along(o, vertical), along_step(d, vertical), g.tile, 0) == 0
    &&& crossing_blocks(g, o, d, vertical, 0)
}

/// The hit lies at a positive distance from the origin, unless the origin
/// touches a cell that stops the ray as it leaves.
pub proof fn lemma_hit_distance_positive(g: Grid, o: Point, d: Direction)
    requires
        g.wf(),
        d.valid(),
        !stopped_at_origin(g, o, d, true),
        !stopped_at_origin(g, o, d, false),
    ensures
        cast_model(g, o, d).t_num > 0,
        cast_model(g, o, d).t_den > 0,
        dist_sq_num(cast_model(g, o, d), d) > 0,
{
    let v = vertical_wins(g, o, d);
    let k = first_blocking(g, o, d, v, 0);
    lemma_first_blocking_ahead(g, o, d, v, 0);
    lemma_first_blocking_blocks(g, o, d, v, 0);
    lemma_lines(along(o, v), along_step(d, v), g.tile, k);
    if k > 0 {
        assert(k * g.tile > 0) by (nonlinear_arith)
            requires
                k > 0,
                g.tile > 0,
        ;
    }
    let h = cast_model(g, o, d);
    assert(d.dx * d.dx + d.dy * d.dy > 0) by (nonlinear_arith)
        requires
            d.dx != 0 || d.dy != 0,
    ;
    assert(h.t_num * h.t_num * (d.dx * d.dx + d.dy * d.dy) > 0) by (nonlinear_arith)
        requires
            h.t_num > 0,
            d.dx * d.dx + d.dy * d.dy > 0,
    ;
}

/// A ray cast along the positive x axis keeps the origin's y coordinate.
pub proof fn lemma_no_vertical_drift(g: Grid, o: Point, d: Direction)
    requires
        g.wf(),
        d.valid(),
        d.dx > 0,
        d.dy == 0,
    ensures
        cast_model(g, o, d).side == Side::Vertical,
        cast_model(g, o, d).y_num == o.y * cast_model(g, o, d).t_den,
{
}

/// A family's candidate is no farther along its axis than the field's edge,
/// whose crossing always blocks.
pub proof fn lemma_candidate_within_edge(g: Grid, o: Point, d: Direction, vertical: bool)
    requires
        g.wf(),
        along_step(d, vertical) != 0,
        0 <= along(o, vertical) <= along_cells(g, vertical) * g.tile,
    ensures
        along_step(d, vertical) > 0 ==> candidate(g, o, d, vertical) <= along_cells(g, vertical)
            * g.tile - along(o, vertical),
        along_step(d, vertical) < 0 ==> candidate(g, o, d, vertical) <= along(o, vertical),
        candidate(g, o, d, vertical) >= 0,
        first_blocking(g, o, d, vertical, 0) <= along_cells(g, vertical),
{
    let p = along(o, vertical);
    let s = along_step(d, vertical);
    let t = g.tile;
    let n = along_cells(g, vertical);
    let fb = first_blocking(g, o, d, vertical, 0);
    lemma_first_blocking_ahead(g, o, d, vertical, 0);
    lemma_candidate_nonneg(g, o, d, vertical);
    let j0 = if s > 0 {
        n - (p + t - 1) / t
    } else {
        p / t
    };
    assert(0 <= p / t && (p + t - 1) / t <= n) by (nonlinear_arith)
        requires
            0 <= p <= n * t,
            t > 0,
    ;
    assert(line_index(p, s, t, j0) == if s > 0 {
        n
    } else {
        0
    });
    assert(crossing_blocks(g, o, d, vertical, j0));
    lemma_first_blocking_min(g, o, d, vertical, 0, j0);
    lemma_lines(p, s, t, fb);
    lemma_lines(p, s, t, j0);
    assert(fb * t <= j0 * t) by (nonlinear_arith)
        requires
            fb <= j0,
            t > 0,
    ;
    if s > 0 {
        assert(line_dist(p, s, t, j0) == n * t - p);
    } else {
        assert(line_dist(p, s, t, j0) == p);
    }
}

/// The hit lies on a grid line of its side's family, where the ray enters a
/// cell that stops it, and its texture offset lies within the tile edge.
pub proof fn lemma_hit_on_blocking_edge(g: Grid, o: Point, d: Direction)
    requires
        g.wf(),
        d.valid(),
    ensures
        ({
            let v = vertical_wins(g, o, d);
            let h = cast_model(g, o, d);
            let k = first_blocking(g, o, d, v, 0);
            &&& h.side == (if v {
                Side::Vertical
            } else {
                Side::Horizontal
            })
            &&& crossing_blocks(g, o, d, v, k)
            &&& (if v {
                h.x_num
            } else {
                h.y_num
            }) == line_index(along(o, v), along_step(d, v), g.tile, k) * g.tile * h.t_den
            &&& 0 <= h.offset_num < g.tile * h.t_den
        }),
{
    let v = vertical_wins(g, o, d);
    let h = cast_model(g, o, d);
    let k = first_blocking(g, o, d, v, 0);
    lemma_first_blocking_ahead(g, o, d, v, 0);
    lemma_first_blocking_blocks(g, o, d, v, 0);
    let p = along(o, v);
    let s = along_step(d, v);
    let t = g.tile;
    let l = line_index(p, s, t, k);
    let a = h.t_num;
    let den = h.t_den;
    let an = if v {
        h.x_num
    } else {
        h.y_num
    };
    assert(an == p * den + s * a);
    if s > 0 {
        assert(an == l * t * den) by (nonlinear_arith)
            requires
                an == p * den + s * a,
                a == l * t - p,
                s == den,
        ;
    } else {
        assert(an == l * t * den) by (nonlinear_arith)
            requires
                an == p * den + s * a,
                a == p - l * t,
                s == -den,
        ;
    }
    assert(t * den > 0) by (nonlinear_arith)
        requires
            t > 0,
            den > 0,
    ;
}

/// From an origin in the closed field, each family stops by its crossing of
/// index `columns` (vertical lines) or `rows` (horizontal lines): the ray
/// steps over at most one more line than there are cells along the axis,
/// the extra one being the line through an origin on the field's edge.
pub proof fn lemma_steps_bounded(g: Grid, o: Point, d: Direction)
    requires
        g.wf(),
        g.contains(o.x as int, o.y as int),
    ensures
        d.dx != 0 ==> first_blocking(g, o, d, true, 0) <= g.columns,
        d.dy != 0 ==> first_blocking(g, o, d, false, 0) <= g.rows,
{
    if d.dx != 0 {
        lemma_candidate_within_edge(g, o, d, true);
    }
    if d.dy != 0 {
        lemma_candidate_within_edge(g, o, d, false);
    }
}

/// Hit coordinates of a family's candidate, when it is not beaten by the
/// other family, lie in the field: along its axis, and across it.
proof fn lemma_family_hit_in_field(g: Grid, o: Point, d: Direction, vertical: bool)
    requires
        g.wf(),
        d.valid(),
        g.contains(o.x as int, o.y as int),
        along_step(d, vertical) != 0,
        across_step(d, vertical) == 0 || candidate(g, o, d, vertical) * abs(across_step(d, vertical))
            <= candidate(g, o, d, !vertical) * abs(along_step(d, vertical)),
    ensures
        ({
            let den = abs(along_step(d, vertical));
            let a = candidate(g, o, d, vertical);
            &&& 0 <= along(o, vertical) * den + along_step(d, vertical) * a <= along_cells(
                g,
                vertical,
            ) * g.tile * den
            &&& 0 <= across(o, vertical) * den + across_step(d, vertical) * a <= along_cells(
                g,
                !vertical,
            ) * g.tile * den
        }),
{
    let p = along(o, vertical);
    let s = along_step(d, vertical);
    let q = across(o, vertical);
    let c = across_step(d, vertical);
    let den = abs(s);
    let a = candidate(g, o, d, vertical);
    let ea = along_cells(g, vertical) * g.tile;
    let ec = along_cells(g, !vertical) * g.tile;
    lemma_candidate_within_edge(g, o, d, vertical);
    if s > 0 {
        assert(0 <= p * den + s * a <= ea * den) by (nonlinear_arith)
            requires
                s == den,
                0 <= a <= ea - p,
                0 <= p,
                den > 0,
        ;
    } else {
        assert(0 <= p * den + s * a <= ea * den) by (nonlinear_arith)
            requires
                s == -den,
                0 <= a <= p,
                p <= ea,
                den > 0,
        ;
    }
    assert(0 <= p * den + s * a <= ea * den);
    if c == 0 {
        assert(0 <= q * den + c * a <= ec * den) by (nonlinear_arith)
            requires
                0 <= q <= ec,
                den > 0,
                c == 0,
        ;
    } else {
        let b = candidate(g, o, d, !vertical);
        lemma_candidate_within_edge(g, o, d, !vertical);
        if c > 0 {
            assert(0 <= q * den + c * a <= ec * den) by (nonlinear_arith)
                requires
                    a * c <= b * den,
                    b <= ec - q,
                    0 <= q,
                    c > 0,
                    a >= 0,
                    den > 0,
            ;
        } else {
            assert(0 <= q * den + c * a <= ec * den) by (nonlinear_arith)
                requires
                    a * (-c) <= b * den,
                    b <= q,
                    q <= ec,
                    c < 0,
                    a >= 0,
                    den > 0,
            ;
        }
    }
    assert(0 <= q * den + c * a <= ec * den);
}

/// From an origin in the closed field, the hit lies in the closed field.
pub proof fn lemma_hit_in_field(g: Grid, o: Point, d: Direction)
    requires
        g.wf(),
        d.valid(),
        g.contains(o.x as int, o.y as int),
    ensures
        ({
            let h = cast_model(g, o, d);
            &&& 0 <= h.x_num <= g.width() * h.t_den
            &&& 0 <= h.y_num <= g.height() * h.t_den
        }),
{
    let v = vertical_wins(g, o, d);
    if !v {
        assert(d.dy != 0);
        if d.dx != 0 {
            assert(candidate(g, o, d, false) * abs(d.dx as int) <= candidate(g, o, d, true) * abs(
                d.dy as int,
            ));
        }
    }
    lemma_family_hit_in_field(g, o, d, v);
}

/// Where the ray enters a cell outside the grid at a coordinate `num / den`
/// within `[0, m * t]`, that coordinate is an edge: `0` or `m * t`.
proof fn lemma_cell_out_at_edge(num: int, den: int, c: int, t: int, m: int)
    requires
        den > 0,
        t > 0,
        m >= 1,
        0 <= num <= m * t * den,
        !(0 <= cell_of(num, den, c, t) < m),
    ensures
        num == 0 || num == m * t * den,
{
    let w = t * den;
    assert(w > 0) by (nonlinear_arith)
        requires
            w == t * den,
            t > 0,
            den > 0,
    ;
    assert(m * t * den == m * w) by (nonlinear_arith)
        requires
            w == t * den,
    ;
    if c < 0 {
        if num >= 1 {
            assert(0 <= (num - 1) / w < m) by (nonlinear_arith)
                requires
                    0 <= num - 1 < m * w,
                    w > 0,
            ;
        }
    } else {
        if num < m * w {
            assert(0 <= num / w < m) by (nonlinear_arith)
                requires
                    0 <= num < m * w,
                    w > 0,
            ;
        }
    }
}

/// On a map with no walls, from an origin in the closed field, the hit lies
/// on the field's boundary.
pub proof fn lemma_empty_map_hits_boundary(g: Grid, o: Point, d: Direction)
    requires
        g.wf(),
        d.valid(),
        g.contains(o.x as int, o.y as int),
        forall|r: int, c: int| g.in_grid(r, c) ==> !g.occupied(r, c),
    ensures
        ({
            let h = cast_model(g, o, d);
            &&& 0 <= h.x_num <= g.width() * h.t_den
            &&& 0 <= h.y_num <= g.height() * h.t_den
            &&& h.x_num == 0 || h.x_num == g.width() * h.t_den || h.y_num == 0 || h.y_num
                == g.height() * h.t_den
        }),
{
    lemma_hit_in_field(g, o, d);
    let v = vertical_wins(g, o, d);
    if !v {
        assert(d.dy != 0);
    }
    lemma_family_hit_in_field_edge(g, o, d, v);
}

/// The blocking crossing of a winning family on an empty map lies on an edge.
proof fn lemma_family_hit_in_field_edge(g: Grid, o: Point, d: Direction, vertical: bool)
    requires
        g.wf(),
        d.valid(),
        g.contains(o.x as int, o.y as int),
        along_step(d, vertical) != 0,
        forall|r: int, c: int| g.in_grid(r, c) ==> !g.occupied(r, c),
        ({
            let den = abs(along_step(d, vertical));
            let a = candidate(g, o, d, vertical);
            &&& 0 <= along(o, vertical) * den + along_step(d, vertical) * a <= along_cells(
                g,
                vertical,
            ) * g.tile * den
            &&& 0 <= across(o, vertical) * den + across_step(d, vertical) * a <= along_cells(
                g,
                !vertical,
            ) * g.tile * den
        }),
    ensures
        ({
            let den = abs(along_step(d, vertical));
            let a = candidate(g, o, d, vertical);
            let an = along(o, vertical) * den + along_step(d, vertical) * a;
            let cn = across(o, vertical) * den + across_step(d, vertical) * a;
            an == 0 || an == along_cells(g, vertical) * g.tile * den || cn == 0 || cn
                == along_cells(g, !vertical) * g.tile * den
        }),
{
    let p = along(o, vertical);
    let s = along_step(d, vertical);
    let t = g.tile;
    let n = along_cells(g, vertical);
    let m = along_cells(g, !vertical);
    let den = abs(s);
    let k = first_blocking(g, o, d, vertical, 0);
    let a = candidate(g, o, d, vertical);
    let an = p * den + s * a;
    let cn = across(o, vertical) * den + across_step(d, vertical) * a;
    lemma_first_blocking_ahead(g, o, d, vertical, 0);
    lemma_first_blocking_blocks(g, o, d, vertical, 0);
    assert(cn == cross_num(g, o, d, vertical, k));
    let e = along_cell(g, o, d, vertical, k);
    let ci = cross_cell(g, o, d, vertical, k);
    if 0 <= e < n && 0 <= ci < m {
        if vertical {
            assert(g.in_grid(ci, e));
        } else {
            assert(g.in_grid(e, ci));
        }
        assert(false);
    }
    let l = line_index(p, s, t, k);
    if !(0 <= e < n) {
        if s > 0 {
            assert(an == l * t * den) by (nonlinear_arith)
                requires
                    an == p * den + s * a,
                    a == l * t - p,
                    s == den,
            ;
            assert(l * t * den <= n * t * den);
            assert(l <= n) by (nonlinear_arith)
                requires
                    l * t * den <= n * t * den,
                    t > 0,
                    den > 0,
            ;
            assert(l >= 0) by (nonlinear_arith)
                requires
                    l * t * den >= 0,
                    t > 0,
                    den > 0,
            ;
        } else {
            assert(an == l * t * den) by (nonlinear_arith)
                requires
                    an == p * den + s * a,
                    a == p - l * t,
                    s == -den,
            ;
            assert(l <= n) by (nonlinear_arith)
                requires
                    l * t * den <= n * t * den,
                    t > 0,
                    den > 0,
            ;
            assert(l >= 0) by (nonlinear_arith)
                requires
                    l * t * den >= 0,
                    t > 0,
                    den > 0,
            ;
            if l == 0 {
                assert(an == 0) by (nonlinear_arith)
                    requires
                        an == l * t * den,
                        l == 0,
                ;
            }
        }
    } else {
        assert(m * t * den == m * t * den);
        lemma_cell_out_at_edge(cn, den, across_step(d, vertical), t, m);
    }
}

/// The grid is symmetric about its middle line across one axis: its columns
/// mirror each other when `flip_x`, else its rows.
pub open spec fn symmetric_about(g: Grid, flip_x: bool) -> bool {
    forall|r: int, c: int|
        g.in_grid(r, c) ==> #[trigger] g.occupied(r, c) == if flip_x {
            g.occupied(r, g.columns - 1 - c)
        } else {
            g.occupied(g.rows - 1 - r, c)
        }
}

/// The direction mirrored across an axis: with `flip_x`, across a vertical
/// axis (`dx` negated, angle `a` becomes `pi - a`); else across a horizontal
/// axis (`dy` negated, angle `a` becomes `2 * pi - a`).
pub open spec fn mirror_dir(d: Direction, flip_x: bool) -> Direction {
    if flip_x {
        Direction { dx: (-d.dx) as i64, dy: d.dy }
    } else {
        Direction { dx: d.dx, dy: (-d.dy) as i64 }
    }
}

proof fn lemma_blocks_mirrored(g: Grid, flip_x: bool, r: int, c: int)
    requires
        g.wf(),
        symmetric_about(g, flip_x),
    ensures
        flip_x ==> g.blocks(r, c) == g.blocks(r, g.columns - 1 - c),
        !flip_x ==> g.blocks(r, c) == g.blocks(g.rows - 1 - r, c),
{
    if g.in_grid(r, c) {
        assert(g.occupied(r, c) == if flip_x {
            g.occupied(r, g.columns - 1 - c)
        } else {
            g.occupied(g.rows - 1 - r, c)
        });
    }
}

proof fn lemma_div_reflect(z: int, w: int, n: int)
    requires
        w > 0,
    ensures
        (n * w - z - 1) / w == n - 1 - z / w,
{
    vstd::arithmetic::div_mod::lemma_fundamental_div_mod(z, w);
    let f = z / w;
    let r = z % w;
    assert(n * w - z - 1 == (n - 1 - f) * w + (w - 1 - r)) by (nonlinear_arith)
        requires
            z == w * f + r,
    ;
    vstd::arithmetic::div_mod::lemma_fundamental_div_mod_converse(
        n * w - z - 1,
        w,
        n - 1 - f,
        w - 1 - r,
    );
}

/// With the origin on the middle line, the lines below and above it pair up.
proof fn lemma_middle_lines(p: int, t: int, rows: int)
    requires
        t > 0,
        2 * p == rows * t,
    ensures
        (p + t - 1) / t + p / t == rows,
{
    vstd::arithmetic::div_mod::lemma_fundamental_div_mod(p, t);
    let f = p / t;
    let r = p % t;
    assert(2 * r == (rows - 2 * f) * t) by (nonlinear_arith)
        requires
            p == t * f + r,
            2 * p == rows * t,
    ;
    assert(rows - 2 * f == 0 || rows - 2 * f == 1) by (nonlinear_arith)
        requires
            2 * r == (rows - 2 * f) * t,
            0 <= r < t,
            t > 0,
    ;
    if rows - 2 * f == 0 {
        assert(r == 0);
        assert(p + t - 1 == f * t + (t - 1)) by (nonlinear_arith)
            requires
                p == t * f + r,
                r == 0,
        ;
        vstd::arithmetic::div_mod::lemma_fundamental_div_mod_converse(p + t - 1, t, f, t - 1);
    } else {
        assert(2 * r == t);
        assert(p + t - 1 == (f + 1) * t + (r - 1)) by (nonlinear_arith)
            requires
                p == t * f + r,
        ;
        vstd::arithmetic::div_mod::lemma_fundamental_div_mod_converse(p + t - 1, t, f + 1, r - 1);
    }
}

/// Each crossing of the mirrored ray lies at the same distance as the
/// original's and enters the mirrored cell, which blocks alike.
proof fn lemma_crossing_mirrored(
    g: Grid,
    o: Point,
    d: Direction,
    flip_x: bool,
    vertical: bool,
    k: int,
)
    requires
        g.wf(),
        d.valid(),
        along_step(d, flip_x) != 0,
        symmetric_about(g, flip_x),
        2 * along(o, flip_x) == along_cells(g, flip_x) * g.tile,
        along_step(d, vertical) != 0,
    ensures
        line_dist(along(o, vertical), along_step(mirror_dir(d, flip_x), vertical), g.tile, k)
            == line_dist(along(o, vertical), along_step(d, vertical), g.tile, k),
        crossing_blocks(g, o, mirror_dir(d, flip_x), vertical, k) == crossing_blocks(
            g,
            o,
            d,
            vertical,
            k,
        ),
        remaining(g, o, mirror_dir(d, flip_x), vertical, k) == remaining(g, o, d, vertical, k),
{
    let e = mirror_dir(d, flip_x);
    let t = g.tile;
    let n = along_cells(g, flip_x);
    if vertical != flip_x {
        let den = abs(along_step(d, vertical));
        let w = t * den;
        assert(w > 0) by (nonlinear_arith)
            requires
                w == t * den,
                t > 0,
                den > 0,
        ;
        let q = across(o, vertical);
        let c = across_step(d, vertical);
        let y = cross_num(g, o, d, vertical, k);
        let a = line_dist(along(o, vertical), along_step(d, vertical), t, k);
        assert(q == along(o, flip_x));
        assert(across_step(e, vertical) == -c);
        assert(cross_num(g, o, e, vertical, k) == n * w - y) by (nonlinear_arith)
            requires
                y == q * den + c * a,
                cross_num(g, o, e, vertical, k) == q * den + (-c) * a,
                2 * q == n * t,
                w == t * den,
        ;
        if c > 0 {
            lemma_div_reflect(y, w, n);
        } else {
            lemma_div_reflect(y - 1, w, n);
        }
        assert(cross_cell(g, o, e, vertical, k) == n - 1 - cross_cell(g, o, d, vertical, k));
        if vertical {
            lemma_blocks_mirrored(
                g,
                flip_x,
                cross_cell(g, o, d, vertical, k),
                along_cell(g, o, d, vertical, k),
            );
        } else {
            lemma_blocks_mirrored(
                g,
                flip_x,
                along_cell(g, o, d, vertical, k),
                cross_cell(g, o, d, vertical, k),
            );
        }
    } else {
        let p = along(o, vertical);
        lemma_middle_lines(p, t, n);
        let l = line_index(p, along_step(d, vertical), t, k);
        assert(along_step(e, vertical) == -along_step(d, vertical));
        assert(line_index(p, along_step(e, vertical), t, k) == n - l);
        assert((n - l) * t == 2 * p - l * t) by (nonlinear_arith)
            requires
                n * t == 2 * p,
        ;
        assert(along_cell(g, o, e, vertical, k) == n - 1 - along_cell(g, o, d, vertical, k));
        assert(cross_cell(g, o, e, vertical, k) == cross_cell(g, o, d, vertical, k));
        if vertical {
            lemma_blocks_mirrored(
                g,
                flip_x,
                cross_cell(g, o, d, vertical, k),
                along_cell(g, o, d, vertical, k),
            );
        } else {
            lemma_blocks_mirrored(
                g,
                flip_x,
                along_cell(g, o, d, vertical, k),
                cross_cell(g, o, d, vertical, k),
            );
        }
    }
}

proof fn lemma_first_blocking_mirrored(
    g: Grid,
    o: Point,
    d: Direction,
    flip_x: bool,
    vertical: bool,
    k: int,
)
    requires
        g.wf(),
        d.valid(),
        along_step(d, flip_x) != 0,
        symmetric_about(g, flip_x),
        2 * along(o, flip_x) == along_cells(g, flip_x) * g.tile,
        along_step(d, vertical) != 0,
        k >= 0,
    ensures
        first_blocking(g, o, mirror_dir(d, flip_x), vertical, k) == first_blocking(
            g,
            o,
            d,
            vertical,
            k,
        ),
    decreases remaining(g, o, d, vertical, k),
{
    lemma_crossing_mirrored(g, o, d, flip_x, vertical, k);
    if !(crossing_blocks(g, o, d, vertical, k) || remaining(g, o, d, vertical, k) <= 0) {
        lemma_first_blocking_mirrored(g, o, d, flip_x, vertical, k + 1);
    }
}

proof fn lemma_mirror(g: Grid, o: Point, d: Direction, flip_x: bool)
    requires
        g.wf(),
        d.valid(),
        symmetric_about(g, flip_x),
        2 * along(o, flip_x) == along_cells(g, flip_x) * g.tile,
    ensures
        ({
            let h1 = cast_model(g, o, d);
            let h2 = cast_model(g, o, mirror_dir(d, flip_x));
            &&& h2.side == h1.side
            &&& h2.t_num == h1.t_num
            &&& h2.t_den == h1.t_den
            &&& flip_x ==> h2.y_num == h1.y_num && h2.x_num == 2 * o.x * h1.t_den - h1.x_num
            &&& !flip_x ==> h2.x_num == h1.x_num && h2.y_num == 2 * o.y * h1.t_den - h1.y_num
        }),
{
    let e = mirror_dir(d, flip_x);
    let h1 = cast_model(g, o, d);
    if along_step(d, flip_x) == 0 {
        assert(e == d);
        if flip_x {
            assert(h1.x_num == 2 * o.x * h1.t_den - h1.x_num) by (nonlinear_arith)
                requires
                    h1.x_num == o.x * h1.t_den + d.dx * h1.t_num,
                    d.dx == 0,
            ;
        } else {
            assert(h1.y_num == 2 * o.y * h1.t_den - h1.y_num) by (nonlinear_arith)
                requires
                    h1.y_num == o.y * h1.t_den + d.dy * h1.t_num,
                    d.dy == 0,
            ;
        }
    } else {
        if d.dx != 0 {
            lemma_first_blocking_mirrored(g, o, d, flip_x, true, 0);
            lemma_crossing_mirrored(g, o, d, flip_x, true, first_blocking(g, o, d, true, 0));
            assert(candidate(g, o, e, true) == candidate(g, o, d, true));
        }
        if d.dy != 0 {
            lemma_first_blocking_mirrored(g, o, d, flip_x, false, 0);
            lemma_crossing_mirrored(g, o, d, flip_x, false, first_blocking(g, o, d, false, 0));
            assert(candidate(g, o, e, false) == candidate(g, o, d, false));
        }
        assert(vertical_wins(g, o, e) == vertical_wins(g, o, d));
        let h2 = cast_model(g, o, e);
        assert(h2.side == h1.side);
        assert(h2.t_num == h1.t_num);
        assert(h2.t_den == h1.t_den);
        if flip_x {
            assert(h1.x_num + h2.x_num == 2 * o.x * h1.t_den) by (nonlinear_arith)
                requires
                    h1.x_num == o.x * h1.t_den + d.dx * h1.t_num,
                    h2.x_num == o.x * h1.t_den + (-d.dx) * h1.t_num,
            ;
        } else {
            assert(h1.y_num + h2.y_num == 2 * o.y * h1.t_den) by (nonlinear_arith)
                requires
                    h1.y_num == o.y * h1.t_den + d.dy * h1.t_num,
                    h2.y_num == o.y * h1.t_den + (-d.dy) * h1.t_num,
            ;
        }
    }
}

/// On a map whose rows are symmetric about the horizontal line through the
/// origin, casting at angles `a` and `2 * pi - a` gives hits that mirror each
/// other across that line, on the same side and at the same distance.
pub proof fn lemma_mirror_symmetry(g: Grid, o: Point, d: Direction)
    requires
        g.wf(),
        d.valid(),
        symmetric_about(g, false),
        2 * o.y == g.height(),
    ensures
        ({
            let h1 = cast_model(g, o, d);
            let h2 = cast_model(g, o, mirror_dir(d, false));
            &&& h2.side == h1.side
            &&& h2.t_num == h1.t_num
            &&& h2.t_den == h1.t_den
            &&& h2.x_num == h1.x_num
            &&& h2.y_num == 2 * o.y * h1.t_den - h1.y_num
        }),
{
    lemma_mirror(g, o, d, false);
}

/// On a map whose columns are symmetric about the vertical line through the
/// origin, casting at angles `a` and `pi - a` gives hits that mirror each
/// other across that line, on the same side and at the same distance.
pub proof fn lemma_mirror_symmetry_vertical_axis(g: Grid, o: Point, d: Direction)
    requires
        g.wf(),
        d.valid(),
        symmetric_about(g, true),
        2 * o.x == g.width(),
    ensures
        ({
            let h1 = cast_model(g, o, d);
            let h2 = cast_model(g, o, mirror_dir(d, true));
            &&& h2.side == h1.side
            &&& h2.t_num == h1.t_num
            &&& h2.t_den == h1.t_den
            &&& h2.y_num == h1.y_num
            &&& h2.x_num == 2 * o.x * h1.t_den - h1.x_num
        }),
{
    lemma_mirror(g, o, d, true);
}

} // verus!
