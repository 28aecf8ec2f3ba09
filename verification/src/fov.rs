//! Field-of-view sampling: one ray per screen column, fanned across a
//! camera plane, assembled into an ordered depth buffer.
//!
//! The fan uses the camera-plane framing: the plane vector is the facing
//! direction turned a quarter turn — `(-fy, fx)` for facing `(fx, fy)` —
//! scaled by the ratio `plane_num / plane_den` relative to the facing
//! vector (the ratio is the tangent of half the field of view). Column `i`
//! of `n` gets the evenly spaced coefficient `c_i = (2i - (n - 1)) / (n - 1)`
//! in `[-1, 1]` and the direction `facing + plane * c_i`; to stay in
//! integers, every column's direction is scaled by the common positive
//! factor `plane_den * (n - 1)`, which moves every ray's parameter by the
//! same factor and so keeps the buffer's entries comparable across columns.
//!
//! Ordering is a public guarantee: entry `0` is the `facing - plane` end of
//! the fan, entry `n - 1` the `facing + plane` end, and the coefficient is
//! strictly increasing in between. The buffer is rebuilt from scratch on
//! every call; nothing is cached across frames.

use vstd::prelude::*;

verus! {

use crate::grid::{Cell, TileMap, MAX_COORD};
use crate::ray::{
    axis_budget,
    cast_matches,
    cast_ray,
    dda_walk,
    iabs,
    isign,
    lemma_abs_mul_bound,
    lemma_axis_budget_step,
    spec_cast_ray,
    start_coord,
    start_num,
    x_turn,
    CastResult,
    HitInfo,
    RayHit,
    MAX_DIR,
    MAX_RAY_PARAM,
};

/// Largest accepted number of rays in one fan.
pub const MAX_RAY_COUNT: usize = 1_000_000;

/// The x component of column `i`'s (scaled) ray direction.
pub open spec fn ray_dir_x(fx: int, fy: int, pn: int, pd: int, n: int, i: int) -> int {
    if n == 1 {
        fx
    } else {
        fx * (pd * (n - 1)) - fy * (pn * (2 * i - (n - 1)))
    }
}

/// The y component of column `i`'s (scaled) ray direction.
pub open spec fn ray_dir_y(fx: int, fy: int, pn: int, pd: int, n: int, i: int) -> int {
    if n == 1 {
        fy
    } else {
        fy * (pd * (n - 1)) + fx * (pn * (2 * i - (n - 1)))
    }
}

/// The ideal depth buffer: the cast of column `i`'s ray, for each of the `n`
/// columns in fan order.
pub open spec fn spec_sample(
    m: TileMap,
    ox: int,
    oy: int,
    fx: int,
    fy: int,
    pn: int,
    pd: int,
    n: int,
    max_t: int,
) -> Seq<CastResult> {
    Seq::new(
        n as nat,
        |i: int|
            spec_cast_ray(
                m,
                ox,
                oy,
                ray_dir_x(fx, fy, pn, pd, n, i),
                ray_dir_y(fx, fy, pn, pd, n, i),
                max_t,
            ),
    )
}

/// Both components of a fan direction stay within the aggregate bound of
/// the sampler's precondition.
#[verifier::rlimit(100)]
proof fn lemma_dir_bound(fx: int, fy: int, pn: int, pd: int, n: int, i: int, cap: int)
    requires
        1 <= pd,
        0 <= pn,
        2 <= n,
        0 <= i < n,
        (iabs(fx) + iabs(fy)) * ((pd + pn) * (n - 1)) <= cap,
        0 <= cap,
    ensures
        iabs(ray_dir_x(fx, fy, pn, pd, n, i)) <= cap,
        iabs(ray_dir_y(fx, fy, pn, pd, n, i)) <= cap,
{
    let w = 2 * i - (n - 1);
    assert(iabs(fx * (pd * (n - 1)) - fy * (pn * w)) <= (iabs(fx) + iabs(fy)) * ((pd + pn) * (n
        - 1))) by (nonlinear_arith)
        requires
            1 <= pd,
            0 <= pn,
            2 <= n,
            -(n - 1) <= w <= n - 1,
    ;
    assert(iabs(fy * (pd * (n - 1)) + fx * (pn * w)) <= (iabs(fx) + iabs(fy)) * ((pd + pn) * (n
        - 1))) by (nonlinear_arith)
        requires
            1 <= pd,
            0 <= pn,
            2 <= n,
            -(n - 1) <= w <= n - 1,
    ;
}

/// The per-frame field-of-view pass: casts one ray per column, left end of
/// the fan first, and returns the depth buffer. Entry `i` reports exactly
/// what the ideal buffer holds for column `i`; the aggregate precondition
/// keeps every scaled direction component within the intersector's range.
#[verifier::loop_isolation(false)]
pub fn sample_fov(
    m: &TileMap,
    ox: i64,
    oy: i64,
    fx: i64,
    fy: i64,
    plane_num: i64,
    plane_den: i64,
    ray_count: usize,
    max_t: i64,
) -> (r: Vec<Option<RayHit>>)
    requires
        m.wf(),
        -MAX_COORD <= ox <= MAX_COORD,
        -MAX_COORD <= oy <= MAX_COORD,
        -MAX_DIR <= fx <= MAX_DIR,
        -MAX_DIR <= fy <= MAX_DIR,
        1 <= plane_den <= MAX_DIR,
        0 <= plane_num <= MAX_DIR,
        1 <= ray_count <= MAX_RAY_COUNT,
        1 <= max_t <= MAX_RAY_PARAM,
        (iabs(fx as int) + iabs(fy as int)) * ((plane_den + plane_num) * (ray_count - 1))
            <= MAX_DIR,
    ensures
        r@.len() == ray_count,
        forall|i: int|
            0 <= i < ray_count ==> cast_matches(
                #[trigger] r@[i],
                spec_sample(
                    *m,
                    ox as int,
                    oy as int,
                    fx as int,
                    fy as int,
                    plane_num as int,
                    plane_den as int,
                    ray_count as int,
                    max_t as int,
                )[i],
            ),
{
    let mut out: Vec<Option<RayHit>> = Vec::new();
    let mut i: usize = 0;
    while i < ray_count
        invariant
            i <= ray_count,
            out@.len() == i,
            forall|j: int|
                0 <= j < i ==> cast_matches(
                    #[trigger] out@[j],
                    spec_sample(
                        *m,
                        ox as int,
                        oy as int,
                        fx as int,
                        fy as int,
                        plane_num as int,
                        plane_den as int,
                        ray_count as int,
                        max_t as int,
                    )[j],
                ),
        decreases ray_count - i,
    {
        let dx: i64;
        let dy: i64;
        if ray_count == 1 {
            dx = fx;
            dy = fy;
        } else {
            let w: i64 = 2 * (i as i64) - (ray_count as i64 - 1);
            proof {
                lemma_abs_mul_bound(plane_den as int, ray_count as int - 1, MAX_DIR as int,
                    MAX_RAY_COUNT as int);
                lemma_abs_mul_bound(plane_num as int, w as int, MAX_DIR as int,
                    MAX_RAY_COUNT as int);
            }
            let scale: i128 = (plane_den as i128) * ((ray_count as i128) - 1);
            let swing: i128 = (plane_num as i128) * (w as i128);
            proof {
                lemma_abs_mul_bound(fx as int, scale as int, MAX_DIR as int,
                    1_000_000_000_000int);
                lemma_abs_mul_bound(fy as int, scale as int, MAX_DIR as int,
                    1_000_000_000_000int);
                lemma_abs_mul_bound(fx as int, swing as int, MAX_DIR as int,
                    1_000_000_000_000int);
                lemma_abs_mul_bound(fy as int, swing as int, MAX_DIR as int,
                    1_000_000_000_000int);
            }
            let dxw: i128 = (fx as i128) * scale - (fy as i128) * swing;
            let dyw: i128 = (fy as i128) * scale + (fx as i128) * swing;
            proof {
                lemma_dir_bound(
                    fx as int,
                    fy as int,
                    plane_num as int,
                    plane_den as int,
                    ray_count as int,
                    i as int,
                    MAX_DIR as int,
                );
            }
            dx = dxw as i64;
            dy = dyw as i64;
        }
        let hit = cast_ray(m, ox, oy, dx, dy, max_t);
        out.push(hit);
        i = i + 1;
    }
    out
}

/// Law (idempotence): the sampler is a pure function of its inputs — two
/// depth buffers taken with an unchanged pose, map and parameters hold
/// identical contents, entry for entry.
pub proof fn lemma_sample_idempotent(
    b1: Seq<Option<RayHit>>,
    b2: Seq<Option<RayHit>>,
    m: TileMap,
    ox: int,
    oy: int,
    fx: int,
    fy: int,
    pn: int,
    pd: int,
    n: int,
    max_t: int,
)
    requires
        b1.len() == n,
        b2.len() == n,
        forall|i: int|
            0 <= i < n ==> cast_matches(
                #[trigger] b1[i],
                spec_sample(m, ox, oy, fx, fy, pn, pd, n, max_t)[i],
            ),
        forall|i: int|
            0 <= i < n ==> cast_matches(
                #[trigger] b2[i],
                spec_sample(m, ox, oy, fx, fy, pn, pd, n, max_t)[i],
            ),
    ensures
        b1 == b2,
{
    assert forall|i: int| 0 <= i < n implies b1[i] == b2[i] by {
        match spec_sample(m, ox, oy, fx, fy, pn, pd, n, max_t)[i] {
            CastResult::Hit(h) => {
                let x1 = b1[i]->Some_0;
                let x2 = b2[i]->Some_0;
                assert(x1 == x2);
            },
            CastResult::Miss => {
            },
        }
    }
    assert(b1 =~= b2);
}

/// Whether the map reads the same under the column reflection
/// `c ↦ refl - c`; cells off the map take part too, reading solid on both
/// sides.
pub open spec fn col_mirror_symmetric(m: TileMap, refl: int) -> bool {
    forall|r: int, c: int| #[trigger] m.cell(r, c) == m.cell(r, refl - c)
}

/// The same cast outcome with every column coordinate reflected; distances
/// and boundary kinds are untouched.
pub open spec fn mirror_cast(s: CastResult, refl: int) -> CastResult {
    match s {
        CastResult::Hit(h) => CastResult::Hit(
            HitInfo {
                num: h.num,
                den: h.den,
                axis: h.axis,
                row: h.row,
                col: refl - h.col,
                prev_row: h.prev_row,
                prev_col: refl - h.prev_col,
            },
        ),
        CastResult::Miss => CastResult::Miss,
    }
}

/// Over a column-symmetric map, the walk with its x direction flipped and
/// its column reflected mirrors the original walk step for step.
proof fn lemma_walk_mirror(
    m: TileMap,
    ts: int,
    sx: int,
    sy: int,
    den_x: int,
    den_y: int,
    bound_x: int,
    bound_y: int,
    num_x: int,
    num_y: int,
    row: int,
    col: int,
    refl: int,
)
    requires
        col_mirror_symmetric(m, refl),
    ensures
        dda_walk(m, ts, -sx, sy, den_x, den_y, bound_x, bound_y, num_x, num_y, row, refl - col)
            == mirror_cast(
            dda_walk(m, ts, sx, sy, den_x, den_y, bound_x, bound_y, num_x, num_y, row, col),
            refl,
        ),
    decreases axis_budget(ts, bound_x, num_x) + axis_budget(ts, bound_y, num_y),
{
    if ts < 1 {
    } else if x_turn(num_x, den_x, num_y, den_y) {
        if num_x > bound_x {
        } else {
            assert(m.cell(row, col + sx) == m.cell(row, refl - (col + sx)));
            assert((refl - col) + (-sx) == refl - (col + sx));
            if m.cell(row, col + sx) == Cell::Solid {
            } else {
                lemma_axis_budget_step(ts, bound_x, num_x);
                lemma_walk_mirror(
                    m,
                    ts,
                    sx,
                    sy,
                    den_x,
                    den_y,
                    bound_x,
                    bound_y,
                    num_x + ts,
                    num_y,
                    row,
                    col + sx,
                    refl,
                );
            }
        }
    } else if den_y != 0 {
        if num_y > bound_y {
        } else {
            assert(m.cell(row + sy, col) == m.cell(row + sy, refl - col));
            if m.cell(row + sy, col) == Cell::Solid {
            } else {
                lemma_axis_budget_step(ts, bound_y, num_y);
                lemma_walk_mirror(
                    m,
                    ts,
                    sx,
                    sy,
                    den_x,
                    den_y,
                    bound_x,
                    bound_y,
                    num_x,
                    num_y + ts,
                    row + sy,
                    col,
                    refl,
                );
            }
        }
    } else {
    }
}

/// From an x coordinate on a cell center, the first crossing gap is the
/// same toward either side, and the start cell is its own reflection about
/// that center's column.
proof fn lemma_start_mirror(o: int, ts: int, d: int)
    requires
        ts >= 1,
        2 * (o % ts) == ts,
    ensures
        start_num(o, ts, -d) == start_num(o, ts, d),
        start_coord(o, ts, -d) == 2 * (o / ts) - start_coord(o, ts, d),
{
}

/// Law (cast mirror): from an x coordinate on a cell center, over a map
/// symmetric about that column line, flipping a ray's x direction mirrors
/// its outcome: the same distance rational and boundary kind, with the hit
/// columns reflected.
pub proof fn lemma_cast_mirror(m: TileMap, ox: int, oy: int, dx: int, dy: int, max_t: int)
    requires
        m.spec_tile_size() >= 1,
        2 * (ox % m.spec_tile_size()) == m.spec_tile_size(),
        col_mirror_symmetric(m, 2 * (ox / m.spec_tile_size())),
    ensures
        spec_cast_ray(m, ox, oy, -dx, dy, max_t) == mirror_cast(
            spec_cast_ray(m, ox, oy, dx, dy, max_t),
            2 * (ox / m.spec_tile_size()),
        ),
{
    let ts = m.spec_tile_size();
    let refl = 2 * (ox / ts);
    lemma_start_mirror(ox, ts, dx);
    lemma_walk_mirror(
        m,
        ts,
        isign(dx),
        isign(dy),
        iabs(dx),
        iabs(dy),
        max_t * iabs(dx),
        max_t * iabs(dy),
        start_num(ox, ts, dx),
        start_num(oy, ts, dy),
        start_coord(oy, ts, dy),
        start_coord(ox, ts, dx),
        refl,
    );
}

/// Law (fan symmetry): facing straight along the y axis from an x
/// coordinate on a cell center, over a map symmetric about that column
/// line, the depth fan mirrors about its center: columns `i` and
/// `n - 1 - i` report the same distance rational and the same boundary
/// kind, with their hit columns reflected into each other.
pub proof fn lemma_fov_symmetric(
    m: TileMap,
    ox: int,
    oy: int,
    fy: int,
    pn: int,
    pd: int,
    n: int,
    max_t: int,
    i: int,
)
    requires
        m.spec_tile_size() >= 1,
        2 * (ox % m.spec_tile_size()) == m.spec_tile_size(),
        col_mirror_symmetric(m, 2 * (ox / m.spec_tile_size())),
        0 <= i < n,
    ensures
        spec_sample(m, ox, oy, 0, fy, pn, pd, n, max_t)[n - 1 - i] == mirror_cast(
            spec_sample(m, ox, oy, 0, fy, pn, pd, n, max_t)[i],
            2 * (ox / m.spec_tile_size()),
        ),
{
    let dxi = ray_dir_x(0, fy, pn, pd, n, i);
    let dyi = ray_dir_y(0, fy, pn, pd, n, i);
    if n == 1 {
        assert(dxi == 0);
        lemma_cast_mirror(m, ox, oy, dxi, dyi, max_t);
    } else {
        let w = 2 * i - (n - 1);
        let wm = 2 * (n - 1 - i) - (n - 1);
        assert(wm == -w);
        assert(0int * (pd * (n - 1)) == 0 && 0int * (pn * w) == 0 && 0int * (pn * wm) == 0)
            by (nonlinear_arith);
        assert(fy * (pn * wm) == -(fy * (pn * w))) by (nonlinear_arith)
            requires
                wm == -w,
        ;
        assert(ray_dir_x(0, fy, pn, pd, n, n - 1 - i) == -dxi);
        assert(ray_dir_y(0, fy, pn, pd, n, n - 1 - i) == dyi);
        lemma_cast_mirror(m, ox, oy, dxi, dyi, max_t);
    }
}

} // verus!
