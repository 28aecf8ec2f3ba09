//! Ray/grid intersection: a digital differential analyzer ("DDA") that walks
//! a ray from grid boundary to grid boundary and reports the first solid
//! cell it enters.
//!
//! All arithmetic is exact. A ray is `origin + t * direction` with an integer
//! origin and an integer direction vector; the crossing of the next cell
//! boundary on an axis happens at parameter `t = num / den`, where `den` is
//! that axis component's absolute value and `num` grows by the tile size at
//! every crossing. The reported hit distance is the parameter `t` at the
//! crossing that entered the solid cell, as the exact rational
//! `dist_num / dist_den`; for a unit-length axis-aligned direction it is the
//! world distance itself, and in general the world distance is `t` times the
//! direction vector's length. The walk gives up with a miss once the next
//! crossing's parameter would pass the `max_t` cutoff, or when the direction
//! is zero.
//!
//! An origin lying exactly on a cell boundary belongs to the cell in the
//! direction of travel on that axis; when both axes cross at the same
//! parameter (a corner), the vertical boundary is crossed first.

use vstd::prelude::*;

verus! {

use crate::grid::{Cell, TileMap, MAX_COORD, MAX_TILE_SIZE};
use vstd::arithmetic::div_mod::{
    lemma_div_plus_one,
    lemma_div_pos_is_pos,
    lemma_fundamental_div_mod,
    lemma_fundamental_div_mod_converse,
    lemma_mod_division_less_than_divisor,
};
use vstd::arithmetic::mul::{
    lemma_mul_is_distributive_sub,
    lemma_mul_is_distributive_sub_other_way,
    lemma_mul_nonnegative,
};

/// Largest direction-vector component (either sign) accepted for a ray.
pub const MAX_DIR: i64 = 1_000_000;

/// Largest accepted ray-parameter cutoff.
pub const MAX_RAY_PARAM: i64 = 1_000_000_000;

/// Which kind of grid boundary a ray crossed when it entered its hit cell:
/// `Vertical` is a boundary between two columns (an east/west cell face),
/// `Horizontal` one between two rows. Downstream shading keys off this.
#[derive(Clone, Copy, Debug, PartialEq, Eq, Structural)]
pub enum Axis {
    Vertical,
    Horizontal,
}

/// One solid-cell hit: the ray parameter at the crossing that entered the
/// solid cell, as the exact rational `dist_num / dist_den`, the kind of
/// boundary crossed, and the grid cell struck.
#[derive(Clone, Copy, Debug, PartialEq, Eq, Structural)]
pub struct RayHit {
    pub dist_num: i64,
    pub dist_den: i64,
    pub axis: Axis,
    pub row: i64,
    pub col: i64,
}

/// A hit as the ideal walk describes it; `prev_row`/`prev_col` name the cell
/// the ray was in when it crossed into the solid cell.
pub struct HitInfo {
    pub num: int,
    pub den: int,
    pub axis: Axis,
    pub row: int,
    pub col: int,
    pub prev_row: int,
    pub prev_col: int,
}

/// Outcome of the ideal walk: a hit, or a miss (cutoff passed, or a
/// direction that never crosses a boundary).
pub enum CastResult {
    Hit(HitInfo),
    Miss,
}

/// Absolute value.
pub open spec fn iabs(x: int) -> int {
    if x < 0 {
        -x
    } else {
        x
    }
}

/// Sign, in `{-1, 0, 1}`.
pub open spec fn isign(x: int) -> int {
    if x > 0 {
        1int
    } else if x < 0 {
        -1int
    } else {
        0int
    }
}

/// The grid coordinate of the cell the walk starts in along one axis: the
/// floor of `o / ts`, except that an origin exactly on a boundary belongs to
/// the cell in the direction of travel.
pub open spec fn start_coord(o: int, ts: int, d: int) -> int {
    if d < 0 && o % ts == 0 {
        o / ts - 1
    } else {
        o / ts
    }
}

/// Numerator of the ray parameter at the first boundary crossing along one
/// axis (denominator `iabs(d)`): the world-unit gap from the origin to the
/// first boundary in the direction of travel, in `(0, ts]`; `0` for an axis
/// that never crosses.
pub open spec fn start_num(o: int, ts: int, d: int) -> int {
    if d == 0 {
        0int
    } else if d > 0 {
        ts - o % ts
    } else if o % ts == 0 {
        ts
    } else {
        o % ts
    }
}

/// Whether the walk's next crossing is a vertical boundary: the x-axis
/// crossing parameter `num_x / den_x` is no later than the y-axis one
/// (`den == 0` stands for "never crosses"); a tie picks the vertical
/// boundary.
pub open spec fn x_turn(num_x: int, den_x: int, num_y: int, den_y: int) -> bool {
    den_x != 0 && (den_y == 0 || num_x * den_y <= num_y * den_x)
}

/// How many crossings an axis can still make before its parameter numerator
/// passes `bound`; drives termination of the walk.
pub open spec fn axis_budget(ts: int, bound: int, num: int) -> int {
    if ts >= 1 && bound + ts - num >= 0 {
        (bound + ts - num) / ts
    } else {
        0int
    }
}

/// After one crossing on an axis, that axis's budget drops by exactly one.
pub(crate) proof fn lemma_axis_budget_step(ts: int, bound: int, num: int)
    requires
        ts >= 1,
        num <= bound,
    ensures
        axis_budget(ts, bound, num + ts) == axis_budget(ts, bound, num) - 1,
        axis_budget(ts, bound, num) >= 1,
{
    let x = bound - num;
    lemma_div_plus_one(x, ts);
    lemma_div_pos_is_pos(x, ts);
}

/// The ideal boundary-to-boundary walk, the normative model of the
/// intersector. State: the numerators `num_x`, `num_y` of the next
/// crossing's parameter on each axis (denominators `den_x`, `den_y` fixed
/// for the whole ray), and the current cell `(row, col)`. Each step crosses
/// the boundary with the smaller parameter, steps the cell coordinate by the
/// direction's sign (`sx`, `sy`), and stops with a hit when the entered cell
/// is solid; it stops with a miss when the next crossing's numerator passes
/// that axis's `bound`, or when neither axis ever crosses.
pub open spec fn dda_walk(
    m: TileMap,
    ts: int,
    sx: int,
    sy: int,
    den_x: int,
    den_y: int,
    bound_x: int,
    bound_y: int,
    num_x: int,
    num_y: int,
    row: int,
    col: int,
) -> CastResult
    decreases axis_budget(ts, bound_x, num_x) + axis_budget(ts, bound_y, num_y),
    via dda_walk_decreases
{
    if ts < 1 {
        CastResult::Miss
    } else if x_turn(num_x, den_x, num_y, den_y) {
        if num_x > bound_x {
            CastResult::Miss
        } else if m.cell(row, col + sx) == Cell::Solid {
            CastResult::Hit(
                HitInfo {
                    num: num_x,
                    den: den_x,
                    axis: Axis::Vertical,
                    row: row,
                    col: col + sx,
                    prev_row: row,
                    prev_col: col,
                },
            )
        } else {
            dda_walk(
                m,
                ts,
                sx,
                sy,
                den_x,
                den_y,
                bound_x,
                bound_y,
                num_x + ts,
                num_y,
                row,
                col + sx,
            )
        }
    } else if den_y != 0 {
        if num_y > bound_y {
            CastResult::Miss
        } else if m.cell(row + sy, col) == Cell::Solid {
            CastResult::Hit(
                HitInfo {
                    num: num_y,
                    den: den_y,
                    axis: Axis::Horizontal,
                    row: row + sy,
                    col: col,
                    prev_row: row,
                    prev_col: col,
                },
            )
        } else {
            dda_walk(
                m,
                ts,
                sx,
                sy,
                den_x,
                den_y,
                bound_x,
                bound_y,
                num_x,
                num_y + ts,
                row + sy,
                col,
            )
        }
    } else {
        CastResult::Miss
    }
}

#[via_fn]
proof fn dda_walk_decreases(
    m: TileMap,
    ts: int,
    sx: int,
    sy: int,
    den_x: int,
    den_y: int,
    bound_x: int,
    bound_y: int,
    num_x: int,
    num_y: int,
    row: int,
    col: int,
) {
    if ts >= 1 {
        if x_turn(num_x, den_x, num_y, den_y) {
            if num_x <= bound_x && m.cell(row, col + sx) != Cell::Solid {
                lemma_axis_budget_step(ts, bound_x, num_x);
            }
        } else if den_y != 0 {
            if num_y <= bound_y && m.cell(row + sy, col) != Cell::Solid {
                lemma_axis_budget_step(ts, bound_y, num_y);
            }
        }
    }
}

/// The full intersection of one ray with the map: the walk started at the
/// origin's cell with each axis's first-crossing numerator, cut off once the
/// parameter exceeds `max_t`.
pub open spec fn spec_cast_ray(
    m: TileMap,
    ox: int,
    oy: int,
    dx: int,
    dy: int,
    max_t: int,
) -> CastResult {
    let ts = m.spec_tile_size();
    dda_walk(
        m,
        ts,
        isign(dx),
        isign(dy),
        iabs(dx),
        iabs(dy),
        max_t * iabs(dx),
        max_t * iabs(dy),
        start_num(ox, ts, dx),
        start_num(oy, ts, dy),
        start_coord(oy, ts, dy),
        start_coord(ox, ts, dx),
    )
}

/// Whether an executable result reports exactly what the ideal walk says:
/// a miss for `Miss`, and for a hit the same distance rational, boundary
/// kind, and cell.
pub open spec fn cast_matches(r: Option<RayHit>, s: CastResult) -> bool {
    match s {
        CastResult::Hit(h) => {
            &&& r matches Some(x)
            &&& x.dist_num == h.num
            &&& x.dist_den == h.den
            &&& x.axis == h.axis
            &&& x.row == h.row
            &&& x.col == h.col
        },
        CastResult::Miss => r is None,
    }
}

/// A nonnegative factor at least one does not shrink a nonnegative value.
proof fn lemma_le_times(a: int, ts: int)
    requires
        a >= 0,
        ts >= 1,
    ensures
        a <= a * ts,
{
    assert(a <= a * ts) by (nonlinear_arith)
        requires
            a >= 0,
            ts >= 1,
    ;
}

/// A product is bounded by the product of bounds on the factors' sizes.
pub(crate) proof fn lemma_abs_mul_bound(a: int, b: int, abound: int, bbound: int)
    requires
        -abound <= a <= abound,
        -bbound <= b <= bbound,
    ensures
        -(abound * bbound) <= a * b <= abound * bbound,
{
    assert(-(abound * bbound) <= a * b <= abound * bbound) by (nonlinear_arith)
        requires
            -abound <= a <= abound,
            -bbound <= b <= bbound,
    ;
}

/// Euclidean quotient and remainder of a world coordinate by the tile size.
fn floor_div_rem(a: i64, ts: i64) -> (r: (i64, i64))
    requires
        1 <= ts <= MAX_TILE_SIZE,
        -MAX_COORD <= a <= MAX_COORD,
    ensures
        r.0 == a as int / ts as int,
        r.1 == a as int % ts as int,
        a as int == r.0 * ts + r.1,
        0 <= r.1 < ts,
        -MAX_COORD - 1 <= r.0 <= MAX_COORD,
{
    let tsu: u64 = ts as u64;
    if a >= 0 {
        let q: i64 = ((a as u64) / tsu) as i64;
        let rem: i64 = ((a as u64) % tsu) as i64;
        proof {
            lemma_fundamental_div_mod(a as int, ts as int);
            lemma_mod_division_less_than_divisor(a as int, ts as int);
            lemma_div_pos_is_pos(a as int, ts as int);
            assert((q as int) * (ts as int) == (ts as int) * (q as int)) by (nonlinear_arith);
            lemma_le_times(q as int, ts as int);
        }
        (q, rem)
    } else {
        let na: u64 = (-a) as u64;
        let q0: i64 = (na / tsu) as i64;
        let r0: i64 = (na % tsu) as i64;
        proof {
            lemma_fundamental_div_mod(na as int, ts as int);
            lemma_mod_division_less_than_divisor(na as int, ts as int);
            lemma_div_pos_is_pos(na as int, ts as int);
            lemma_le_times(q0 as int, ts as int);
            assert((q0 as int) * (ts as int) == (ts as int) * (q0 as int)) by (nonlinear_arith);
        }
        if r0 == 0 {
            proof {
                assert((-(q0 as int)) * (ts as int) == -((ts as int) * (q0 as int)))
                    by (nonlinear_arith);
                lemma_fundamental_div_mod_converse(a as int, ts as int, -(q0 as int), 0);
            }
            (-q0, 0)
        } else {
            proof {
                assert((-(q0 as int) - 1) * (ts as int) + ((ts as int) - (r0 as int)) == -((
                ts as int) * (q0 as int) + (r0 as int))) by (nonlinear_arith);
                lemma_fundamental_div_mod_converse(
                    a as int,
                    ts as int,
                    -(q0 as int) - 1,
                    ts as int - r0 as int,
                );
            }
            (-q0 - 1, ts - r0)
        }
    }
}

/// First solid cell struck along the ray from `(ox, oy)` in direction
/// `(dx, dy)`: the executable DDA. Returns `None` when the next crossing's
/// parameter would exceed `max_t` before any solid cell is entered, and for
/// the zero direction; otherwise the hit's exact distance rational, boundary
/// kind, and cell, as the ideal walk describes them.
#[verifier::loop_isolation(false)]
#[verifier::rlimit(60)]
pub fn cast_ray(m: &TileMap, ox: i64, oy: i64, dx: i64, dy: i64, max_t: i64) -> (r: Option<
    RayHit,
>)
    requires
        m.wf(),
        -MAX_COORD <= ox <= MAX_COORD,
        -MAX_COORD <= oy <= MAX_COORD,
        -MAX_DIR <= dx <= MAX_DIR,
        -MAX_DIR <= dy <= MAX_DIR,
        1 <= max_t <= MAX_RAY_PARAM,
    ensures
        cast_matches(
            r,
            spec_cast_ray(*m, ox as int, oy as int, dx as int, dy as int, max_t as int),
        ),
        (match r {
            Some(h) => {
                &&& m.cell(h.row as int, h.col as int) == Cell::Solid
                &&& 1 <= h.dist_den <= MAX_DIR
                &&& 0 <= h.dist_num <= max_t * h.dist_den
            },
            None => true,
        }),
{
    let ts: i64 = m.tile_size();
    proof {
        m.lemma_wf_bounds();
    }
    let sx: i64 = if dx > 0 {
        1
    } else if dx < 0 {
        -1
    } else {
        0
    };
    let sy: i64 = if dy > 0 {
        1
    } else if dy < 0 {
        -1
    } else {
        0
    };
    let den_x: i64 = if dx < 0 {
        -dx
    } else {
        dx
    };
    let den_y: i64 = if dy < 0 {
        -dy
    } else {
        dy
    };
    proof {
        lemma_abs_mul_bound(max_t as int, den_x as int, MAX_RAY_PARAM as int, MAX_DIR as int);
        lemma_abs_mul_bound(max_t as int, den_y as int, MAX_RAY_PARAM as int, MAX_DIR as int);
        lemma_mul_nonnegative(max_t as int, den_x as int);
        lemma_mul_nonnegative(max_t as int, den_y as int);
    }
    let bound_x: i64 = max_t * den_x;
    let bound_y: i64 = max_t * den_y;
    let fx = floor_div_rem(ox, ts);
    let fy = floor_div_rem(oy, ts);
    let mut col: i64 = if dx < 0 && fx.1 == 0 {
        fx.0 - 1
    } else {
        fx.0
    };
    let mut row: i64 = if dy < 0 && fy.1 == 0 {
        fy.0 - 1
    } else {
        fy.0
    };
    let mut num_x: i64 = if dx == 0 {
        0
    } else if dx > 0 {
        ts - fx.1
    } else if fx.1 == 0 {
        ts
    } else {
        fx.1
    };
    let mut num_y: i64 = if dy == 0 {
        0
    } else if dy > 0 {
        ts - fy.1
    } else if fy.1 == 0 {
        ts
    } else {
        fy.1
    };
    let ghost col0: int = col as int;
    let ghost row0: int = row as int;
    let ghost num_x0: int = num_x as int;
    let ghost num_y0: int = num_y as int;
    let ghost mut steps: int = 0int;
    proof {
        assert(col0 == start_coord(ox as int, ts as int, dx as int));
        assert(row0 == start_coord(oy as int, ts as int, dy as int));
        assert(num_x0 == start_num(ox as int, ts as int, dx as int));
        assert(num_y0 == start_num(oy as int, ts as int, dy as int));
    }
    loop
        invariant
            dda_walk(
                *m,
                ts as int,
                sx as int,
                sy as int,
                den_x as int,
                den_y as int,
                bound_x as int,
                bound_y as int,
                num_x as int,
                num_y as int,
                row as int,
                col as int,
            ) == spec_cast_ray(*m, ox as int, oy as int, dx as int, dy as int, max_t as int),
            0 <= num_x <= bound_x + ts,
            0 <= num_y <= bound_y + ts,
            den_x == 0 ==> num_x == 0,
            den_y == 0 ==> num_y == 0,
            steps >= 0,
            steps * (ts as int) == (num_x - num_x0) + (num_y - num_y0),
            iabs(col as int - col0) + iabs(row as int - row0) <= steps,
        decreases axis_budget(ts as int, bound_x as int, num_x as int) + axis_budget(
            ts as int,
            bound_y as int,
            num_y as int,
        ),
    {
        proof {
            lemma_le_times(steps, ts as int);
            lemma_abs_mul_bound(num_x as int, den_y as int, 0x7fff_ffff_ffff_ffff,
                0x7fff_ffff_ffff_ffff);
            lemma_abs_mul_bound(num_y as int, den_x as int, 0x7fff_ffff_ffff_ffff,
                0x7fff_ffff_ffff_ffff);
        }
        let turn_x: bool = den_x != 0 && (den_y == 0 || (num_x as i128) * (den_y as i128) <= (
        num_y as i128) * (den_x as i128));
        proof {
            assert(turn_x == x_turn(num_x as int, den_x as int, num_y as int, den_y as int));
        }
        if turn_x {
            if num_x > bound_x {
                return None;
            }
            col = col + sx;
            if m.is_solid(row, col) {
                return Some(
                    RayHit {
                        dist_num: num_x,
                        dist_den: den_x,
                        axis: Axis::Vertical,
                        row: row,
                        col: col,
                    },
                );
            }
            num_x = num_x + ts;
            proof {
                assert((steps + 1) * (ts as int) == steps * (ts as int) + (ts as int))
                    by (nonlinear_arith);
                steps = steps + 1;
                lemma_axis_budget_step(ts as int, bound_x as int, num_x as int - ts as int);
            }
        } else if den_y != 0 {
            if num_y > bound_y {
                return None;
            }
            row = row + sy;
            if m.is_solid(row, col) {
                return Some(
                    RayHit {
                        dist_num: num_y,
                        dist_den: den_y,
                        axis: Axis::Horizontal,
                        row: row,
                        col: col,
                    },
                );
            }
            num_y = num_y + ts;
            proof {
                assert((steps + 1) * (ts as int) == steps * (ts as int) + (ts as int))
                    by (nonlinear_arith);
                steps = steps + 1;
                lemma_axis_budget_step(ts as int, bound_y as int, num_y as int - ts as int);
            }
        } else {
            return None;
        }
    }
}

/// Law (no ghost hits): a hit reported by the ideal walk always lies in a
/// solid cell, and the cell the ray was in when it crossed into it is open,
/// provided the walk starts in an open cell.
pub proof fn lemma_walk_no_ghost_hit(
    m: TileMap,
    ts: int,
    sx: int,
    sy: int,
    den_x: int,
    den_y: int,
    bound_x: int,
    bound_y: int,
    num_x: int,
    num_y: int,
    row: int,
    col: int,
)
    requires
        m.cell(row, col) == Cell::Open,
    ensures
        (match dda_walk(m, ts, sx, sy, den_x, den_y, bound_x, bound_y, num_x, num_y, row, col) {
            CastResult::Hit(h) => m.cell(h.row, h.col) == Cell::Solid && m.cell(
                h.prev_row,
                h.prev_col,
            ) == Cell::Open,
            CastResult::Miss => true,
        }),
    decreases axis_budget(ts, bound_x, num_x) + axis_budget(ts, bound_y, num_y),
{
    if ts < 1 {
    } else if x_turn(num_x, den_x, num_y, den_y) {
        if num_x > bound_x {
        } else if m.cell(row, col + sx) == Cell::Solid {
        } else {
            lemma_axis_budget_step(ts, bound_x, num_x);
            lemma_walk_no_ghost_hit(
                m,
                ts,
                sx,
                sy,
                den_x,
                den_y,
                bound_x,
                bound_y,
                num_x + ts,
                num_y,
                row,
                col + sx,
            );
        }
    } else if den_y != 0 {
        if num_y > bound_y {
        } else if m.cell(row + sy, col) == Cell::Solid {
        } else {
            lemma_axis_budget_step(ts, bound_y, num_y);
            lemma_walk_no_ghost_hit(
                m,
                ts,
                sx,
                sy,
                den_x,
                den_y,
                bound_x,
                bound_y,
                num_x,
                num_y + ts,
                row + sy,
                col,
            );
        }
    } else {
    }
}

/// Law (no ghost hits), stated for a full ray cast: started in an open cell,
/// a reported hit cell is solid and the cell just before it along the ray is
/// open.
pub proof fn lemma_cast_no_ghost_hit(m: TileMap, ox: int, oy: int, dx: int, dy: int, max_t: int)
    requires
        m.cell(
            start_coord(oy, m.spec_tile_size(), dy),
            start_coord(ox, m.spec_tile_size(), dx),
        ) == Cell::Open,
    ensures
        (match spec_cast_ray(m, ox, oy, dx, dy, max_t) {
            CastResult::Hit(h) => m.cell(h.row, h.col) == Cell::Solid && m.cell(
                h.prev_row,
                h.prev_col,
            ) == Cell::Open,
            CastResult::Miss => true,
        }),
{
    let ts = m.spec_tile_size();
    lemma_walk_no_ghost_hit(
        m,
        ts,
        isign(dx),
        isign(dy),
        iabs(dx),
        iabs(dy),
        max_t * iabs(dx),
        max_t * iabs(dy),
        start_num(ox, ts, dx),
        start_num(oy, ts, dy),
        start_coord(oy, ts, dy),
        start_coord(ox, ts, dx),
    );
}

/// Whether the `k - 1` cells after `(row, col)` in direction `s` along the
/// row are all open.
pub open spec fn open_run_x(m: TileMap, row: int, col: int, s: int, k: int) -> bool
    decreases k,
{
    if k <= 1 {
        true
    } else {
        m.cell(row, col + s) == Cell::Open && open_run_x(m, row, col + s, s, k - 1)
    }
}

/// Whether the `k - 1` cells after `(row, col)` in direction `s` down the
/// column are all open.
pub open spec fn open_run_y(m: TileMap, row: int, col: int, s: int, k: int) -> bool
    decreases k,
{
    if k <= 1 {
        true
    } else {
        m.cell(row + s, col) == Cell::Open && open_run_y(m, row + s, col, s, k - 1)
    }
}

/// A walk that only ever crosses vertical boundaries marches straight along
/// its row: with the `k - 1` next cells open and the `k`-th solid, it hits
/// the `k`-th cell after exactly `k` crossings, one tile of parameter each.
proof fn lemma_axis_walk_x(
    m: TileMap,
    ts: int,
    s: int,
    bound_x: int,
    num_x: int,
    row: int,
    col: int,
    k: int,
)
    requires
        ts >= 1,
        s == 1 || s == -1,
        k >= 1,
        open_run_x(m, row, col, s, k),
        m.cell(row, col + s * k) == Cell::Solid,
        num_x + (k - 1) * ts <= bound_x,
    ensures
        dda_walk(m, ts, s, 0, 1, 0, bound_x, 0, num_x, 0, row, col) == CastResult::Hit(
            HitInfo {
                num: num_x + (k - 1) * ts,
                den: 1,
                axis: Axis::Vertical,
                row: row,
                col: col + s * k,
                prev_row: row,
                prev_col: col + s * (k - 1),
            },
        ),
    decreases k,
{
    lemma_mul_nonnegative(k - 1, ts);
    assert(x_turn(num_x, 1, 0, 0));
    if k == 1 {
        assert((k - 1) * ts == 0) by (nonlinear_arith)
            requires
                k == 1,
        ;
        assert(col + s * 1 == col + s);
        assert(col + s * 0 == col);
    } else {
        lemma_mul_is_distributive_sub(s, k, 1);
        assert((col + s) + s * (k - 1) == col + s * k);
        lemma_mul_is_distributive_sub_other_way(ts, k - 1, 1);
        lemma_axis_walk_x(m, ts, s, bound_x, num_x + ts, row, col + s, k - 1);
        lemma_mul_is_distributive_sub(s, k - 1, 1);
        assert((col + s) + s * (k - 2) == col + s * (k - 1));
    }
}

/// The same straight march for a walk that only ever crosses horizontal
/// boundaries, down or up its column.
proof fn lemma_axis_walk_y(
    m: TileMap,
    ts: int,
    s: int,
    bound_y: int,
    num_y: int,
    row: int,
    col: int,
    k: int,
)
    requires
        ts >= 1,
        s == 1 || s == -1,
        k >= 1,
        open_run_y(m, row, col, s, k),
        m.cell(row + s * k, col) == Cell::Solid,
        num_y + (k - 1) * ts <= bound_y,
    ensures
        dda_walk(m, ts, 0, s, 0, 1, 0, bound_y, 0, num_y, row, col) == CastResult::Hit(
            HitInfo {
                num: num_y + (k - 1) * ts,
                den: 1,
                axis: Axis::Horizontal,
                row: row + s * k,
                col: col,
                prev_row: row + s * (k - 1),
                prev_col: col,
            },
        ),
    decreases k,
{
    lemma_mul_nonnegative(k - 1, ts);
    assert(!x_turn(0, 0, num_y, 1));
    if k == 1 {
        assert((k - 1) * ts == 0) by (nonlinear_arith)
            requires
                k == 1,
        ;
        assert(row + s * 1 == row + s);
        assert(row + s * 0 == row);
    } else {
        lemma_mul_is_distributive_sub(s, k, 1);
        assert((row + s) + s * (k - 1) == row + s * k);
        lemma_mul_is_distributive_sub_other_way(ts, k - 1, 1);
        lemma_axis_walk_y(m, ts, s, bound_y, num_y + ts, row + s, col, k - 1);
        lemma_mul_is_distributive_sub(s, k - 1, 1);
        assert((row + s) + s * (k - 2) == row + s * (k - 1));
    }
}

/// Law (axis-aligned distance), east/west rays: a unit ray along the x axis
/// whose next `k - 1` cells are open and whose `k`-th cell is solid hits
/// that cell through a vertical face, at exactly the world gap from the
/// origin to the face: `start_num(ox, ts, dx) + (k - 1) * ts`. Fired from
/// the center of its cell, twice that distance is `(2k - 1)` tiles.
pub proof fn lemma_axis_ray_horizontal(
    m: TileMap,
    ox: int,
    oy: int,
    dx: int,
    max_t: int,
    k: int,
)
    requires
        m.spec_tile_size() >= 1,
        iabs(dx) == 1,
        k >= 1,
        open_run_x(
            m,
            start_coord(oy, m.spec_tile_size(), 0),
            start_coord(ox, m.spec_tile_size(), dx),
            isign(dx),
            k,
        ),
        m.cell(
            start_coord(oy, m.spec_tile_size(), 0),
            start_coord(ox, m.spec_tile_size(), dx) + isign(dx) * k,
        ) == Cell::Solid,
        start_num(ox, m.spec_tile_size(), dx) + (k - 1) * m.spec_tile_size() <= max_t,
    ensures
        spec_cast_ray(m, ox, oy, dx, 0, max_t) == CastResult::Hit(
            HitInfo {
                num: start_num(ox, m.spec_tile_size(), dx) + (k - 1) * m.spec_tile_size(),
                den: 1,
                axis: Axis::Vertical,
                row: start_coord(oy, m.spec_tile_size(), 0),
                col: start_coord(ox, m.spec_tile_size(), dx) + isign(dx) * k,
                prev_row: start_coord(oy, m.spec_tile_size(), 0),
                prev_col: start_coord(ox, m.spec_tile_size(), dx) + isign(dx) * (k - 1),
            },
        ),
        2 * (ox % m.spec_tile_size()) == m.spec_tile_size() ==> 2 * (start_num(
            ox,
            m.spec_tile_size(),
            dx,
        ) + (k - 1) * m.spec_tile_size()) == (2 * k - 1) * m.spec_tile_size(),
{
    let ts = m.spec_tile_size();
    assert(max_t * 0 == 0) by (nonlinear_arith);
    assert(max_t * 1 == max_t) by (nonlinear_arith);
    lemma_axis_walk_x(
        m,
        ts,
        isign(dx),
        max_t,
        start_num(ox, ts, dx),
        start_coord(oy, ts, 0),
        start_coord(ox, ts, dx),
        k,
    );
    if 2 * (ox % ts) == ts {
        let sn = start_num(ox, ts, dx);
        assert(2 * sn == ts);
        assert(2 * (sn + (k - 1) * ts) == (2 * k - 1) * ts) by (nonlinear_arith)
            requires
                2 * sn == ts,
        ;
    }
}

/// Law (axis-aligned distance), north/south rays: the same exact-gap law for
/// a unit ray along the y axis, hitting through a horizontal face; from the
/// center of its cell, twice the distance is `(2k - 1)` tiles.
pub proof fn lemma_axis_ray_vertical(m: TileMap, ox: int, oy: int, dy: int, max_t: int, k: int)
    requires
        m.spec_tile_size() >= 1,
        iabs(dy) == 1,
        k >= 1,
        open_run_y(
            m,
            start_coord(oy, m.spec_tile_size(), dy),
            start_coord(ox, m.spec_tile_size(), 0),
            isign(dy),
            k,
        ),
        m.cell(
            start_coord(oy, m.spec_tile_size(), dy) + isign(dy) * k,
            start_coord(ox, m.spec_tile_size(), 0),
        ) == Cell::Solid,
        start_num(oy, m.spec_tile_size(), dy) + (k - 1) * m.spec_tile_size() <= max_t,
    ensures
        spec_cast_ray(m, ox, oy, 0, dy, max_t) == CastResult::Hit(
            HitInfo {
                num: start_num(oy, m.spec_tile_size(), dy) + (k - 1) * m.spec_tile_size(),
                den: 1,
                axis: Axis::Horizontal,
                row: start_coord(oy, m.spec_tile_size(), dy) + isign(dy) * k,
                col: start_coord(ox, m.spec_tile_size(), 0),
                prev_row: start_coord(oy, m.spec_tile_size(), dy) + isign(dy) * (k - 1),
                prev_col: start_coord(ox, m.spec_tile_size(), 0),
            },
        ),
        2 * (oy % m.spec_tile_size()) == m.spec_tile_size() ==> 2 * (start_num(
            oy,
            m.spec_tile_size(),
            dy,
        ) + (k - 1) * m.spec_tile_size()) == (2 * k - 1) * m.spec_tile_size(),
{
    let ts = m.spec_tile_size();
    assert(max_t * 0 == 0) by (nonlinear_arith);
    assert(max_t * 1 == max_t) by (nonlinear_arith);
    lemma_axis_walk_y(
        m,
        ts,
        isign(dy),
        max_t,
        start_num(oy, ts, dy),
        start_coord(oy, ts, dy),
        start_coord(ox, ts, 0),
        k,
    );
    if 2 * (oy % ts) == ts {
        let sn = start_num(oy, ts, dy);
        assert(2 * sn == ts);
        assert(2 * (sn + (k - 1) * ts) == (2 * k - 1) * ts) by (nonlinear_arith)
            requires
                2 * sn == ts,
        ;
    }
}

} // verus!
