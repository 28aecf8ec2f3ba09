//! Player motion: facing-angle rotation with wrap-around, movement intents,
//! and the discrete movement/collision gate.
//!
//! The movement guard is all-or-nothing: a proposed displacement is applied in full
//! when the resulting world point lies in an open cell, and rejected in full
//! otherwise — a diagonal move into a solid cell is not slid along the legal
//! axis. Rotation is independent of the movement guard and always succeeds; it only
//! renormalizes the angle into `[0, 360)` degrees.

use vstd::prelude::*;

verus! {

use crate::grid::{lemma_open_point_in_map, TileMap, MAX_COORD};
use vstd::arithmetic::div_mod::{
    lemma_fundamental_div_mod,
    lemma_fundamental_div_mod_converse_mod,
    lemma_mod_division_less_than_divisor,
};

/// Degrees in a full turn.
pub const FULL_TURN: u32 = 360;

/// Rotates a facing angle by `step` degrees toward larger angles, wrapping
/// past `360` back into `[0, 360)`.
pub fn rotate_by(angle: u32, step: u32) -> (r: u32)
    requires
        angle < FULL_TURN,
    ensures
        r == (angle + step) % (FULL_TURN as int),
        r < FULL_TURN,
{
    (((angle as u64) + (step as u64)) % (FULL_TURN as u64)) as u32
}

/// Rotates a facing angle by `step` degrees toward smaller angles, wrapping
/// past `0` back up into `[0, 360)`: one degree down from `0` is `359`. The
/// result is the mathematical (Euclidean) `(angle - step) mod 360`.
pub fn rotate_back_by(angle: u32, step: u32) -> (r: u32)
    requires
        angle < FULL_TURN,
    ensures
        r == (angle - step) % (FULL_TURN as int),
        r < FULL_TURN,
{
    let s: u32 = step % FULL_TURN;
    proof {
        lemma_fundamental_div_mod(step as int, FULL_TURN as int);
        lemma_mod_division_less_than_divisor(step as int, FULL_TURN as int);
        let q = step as int / FULL_TURN as int;
        if s <= angle {
            lemma_fundamental_div_mod_converse_mod(
                angle - step,
                FULL_TURN as int,
                -q,
                angle - s,
            );
        } else {
            lemma_fundamental_div_mod_converse_mod(
                angle - step,
                FULL_TURN as int,
                -q - 1,
                angle + FULL_TURN - s,
            );
        }
    }
    if s <= angle {
        angle - s
    } else {
        angle + FULL_TURN - s
    }
}

/// Net movement intent from the four direction keys, one unit per axis:
/// positive `x` is rightward (increasing column), positive `y` is downward
/// (increasing row). Opposed keys cancel. Scaling by speed and frame time,
/// and diagonal normalization, are the caller's concern.
pub fn intent_direction(up: bool, down: bool, left: bool, right: bool) -> (r: (i64, i64))
    ensures
        r.0 == (if right {
            1int
        } else {
            0int
        }) - (if left {
            1int
        } else {
            0int
        }),
        r.1 == (if down {
            1int
        } else {
            0int
        }) - (if up {
            1int
        } else {
            0int
        }),
{
    let mut dx: i64 = 0;
    let mut dy: i64 = 0;
    if right {
        dx = dx + 1;
    }
    if left {
        dx = dx - 1;
    }
    if down {
        dy = dy + 1;
    }
    if up {
        dy = dy - 1;
    }
    (dx, dy)
}

/// A player pose: a continuous world position and a facing angle in whole
/// degrees, kept in `[0, 360)`. The derived direction vector is not stored
/// beside the angle: the presentation layer recomputes it whenever the
/// angle changes, so the two can never diverge.
#[derive(Clone, Copy, Debug, PartialEq, Eq, Structural)]
pub struct Pose {
    pub x: i64,
    pub y: i64,
    pub angle: u32,
}

impl Pose {
    /// In-range coordinates and a normalized angle.
    pub open spec fn wf(&self) -> bool {
        &&& -MAX_COORD <= self.x <= MAX_COORD
        &&& -MAX_COORD <= self.y <= MAX_COORD
        &&& self.angle < FULL_TURN
    }

    /// A pose at the given position and angle.
    pub fn new(x: i64, y: i64, angle: u32) -> (r: Pose)
        requires
            -MAX_COORD <= x <= MAX_COORD,
            -MAX_COORD <= y <= MAX_COORD,
            angle < FULL_TURN,
        ensures
            r.x == x,
            r.y == y,
            r.angle == angle,
            r.wf(),
    {
        Pose { x, y, angle }
    }

    /// Turns toward larger angles, wrapping past `360`; the position does
    /// not move.
    pub fn rotate(&mut self, step: u32)
        requires
            old(self).wf(),
        ensures
            final(self).angle == (old(self).angle + step) % (FULL_TURN as int),
            final(self).x == old(self).x,
            final(self).y == old(self).y,
            final(self).wf(),
    {
        self.angle = rotate_by(self.angle, step);
    }

    /// Turns toward smaller angles, wrapping past `0` up to `359`; the
    /// position does not move.
    pub fn rotate_back(&mut self, step: u32)
        requires
            old(self).wf(),
        ensures
            final(self).angle == (old(self).angle - step) % (FULL_TURN as int),
            final(self).x == old(self).x,
            final(self).y == old(self).y,
            final(self).wf(),
    {
        self.angle = rotate_back_by(self.angle, step);
    }

    /// Attempts a move through the movement guard: the position changes by the full
    /// displacement exactly when the candidate point's cell is open, and
    /// otherwise stays; the angle never changes here.
    pub fn step(&mut self, m: &TileMap, dx: i64, dy: i64)
        requires
            old(self).wf(),
            m.wf(),
            -MAX_COORD <= dx <= MAX_COORD,
            -MAX_COORD <= dy <= MAX_COORD,
        ensures
            final(self).x == move_target(
                *m,
                old(self).x as int,
                old(self).y as int,
                dx as int,
                dy as int,
            ).0,
            final(self).y == move_target(
                *m,
                old(self).x as int,
                old(self).y as int,
                dx as int,
                dy as int,
            ).1,
            final(self).angle == old(self).angle,
            final(self).wf(),
    {
        let next = try_move(m, self.x, self.y, dx, dy);
        proof {
            if !m.solid_at_point(self.x as int + dx as int, self.y as int + dy as int) {
                lemma_open_point_in_map(*m, self.x as int + dx, self.y as int + dy);
                crate::grid::lemma_extent_bound(*m);
            }
        }
        self.x = next.0;
        self.y = next.1;
    }
}

/// Where a proposed move ends: the candidate point when its cell is open,
/// the current point unchanged when the candidate's cell is solid or off
/// the map.
pub open spec fn move_target(m: TileMap, x: int, y: int, dx: int, dy: int) -> (int, int) {
    if m.solid_at_point(x + dx, y + dy) {
        (x, y)
    } else {
        (x + dx, y + dy)
    }
}

/// The discrete movement gate: moves from `(x, y)` by the full displacement
/// `(dx, dy)` exactly when the candidate point's cell is open, and otherwise
/// not at all.
pub fn try_move(m: &TileMap, x: i64, y: i64, dx: i64, dy: i64) -> (r: (i64, i64))
    requires
        m.wf(),
        -MAX_COORD <= x <= MAX_COORD,
        -MAX_COORD <= y <= MAX_COORD,
        -MAX_COORD <= dx <= MAX_COORD,
        -MAX_COORD <= dy <= MAX_COORD,
    ensures
        r.0 == move_target(*m, x as int, y as int, dx as int, dy as int).0,
        r.1 == move_target(*m, x as int, y as int, dx as int, dy as int).1,
{
    let cx: i64 = x + dx;
    let cy: i64 = y + dy;
    if m.solid_at_world(cx, cy) {
        (x, y)
    } else {
        (cx, cy)
    }
}

/// Law: a guarded move never ends in a solid cell when it starts
/// in an open one — either the candidate cell is open and becomes the new
/// position, or the old, open position is kept.
pub proof fn lemma_gate_keeps_open(m: TileMap, x: int, y: int, dx: int, dy: int)
    requires
        !m.solid_at_point(x, y),
    ensures
        !m.solid_at_point(move_target(m, x, y, dx, dy).0, move_target(m, x, y, dx, dy).1),
{
}

/// The point reached after a whole sequence of proposed moves, each run
/// through the movement guard in order, first move first.
pub open spec fn moves_target(m: TileMap, x: int, y: int, moves: Seq<(int, int)>) -> (int, int)
    decreases moves.len(),
{
    if moves.len() == 0 {
        (x, y)
    } else {
        let p = move_target(m, x, y, moves[0].0, moves[0].1);
        moves_target(m, p.0, p.1, moves.drop_first())
    }
}

/// Law: over any sequence of proposed moves, the movement guard keeps a player who
/// starts in an open cell out of solid cells — an invariant of the whole
/// simulation, not only of one step.
pub proof fn lemma_moves_keep_open(m: TileMap, x: int, y: int, moves: Seq<(int, int)>)
    requires
        !m.solid_at_point(x, y),
    ensures
        !m.solid_at_point(
            moves_target(m, x, y, moves).0,
            moves_target(m, x, y, moves).1,
        ),
    decreases moves.len(),
{
    if moves.len() == 0 {
    } else {
        let p = move_target(m, x, y, moves[0].0, moves[0].1);
        lemma_gate_keeps_open(m, x, y, moves[0].0, moves[0].1);
        lemma_moves_keep_open(m, p.0, p.1, moves.drop_first());
    }
}

/// Runs a whole sequence of proposed moves through the movement guard, in order, and
/// returns the final position.
#[verifier::loop_isolation(false)]
pub fn apply_moves(m: &TileMap, x: i64, y: i64, moves: &Vec<(i64, i64)>) -> (r: (i64, i64))
    requires
        m.wf(),
        -MAX_COORD <= x <= MAX_COORD,
        -MAX_COORD <= y <= MAX_COORD,
        forall|i: int|
            0 <= i < moves@.len() ==> -MAX_COORD <= (#[trigger] moves@[i]).0 <= MAX_COORD
                && -MAX_COORD <= moves@[i].1 <= MAX_COORD,
    ensures
        ({
            let ideal = moves_target(
                *m,
                x as int,
                y as int,
                moves@.map_values(|p: (i64, i64)| (p.0 as int, p.1 as int)),
            );
            r.0 == ideal.0 && r.1 == ideal.1
        }),
{
    let ghost all: Seq<(int, int)> = moves@.map_values(|p: (i64, i64)| (p.0 as int, p.1 as int));
    let mut px: i64 = x;
    let mut py: i64 = y;
    let mut i: usize = 0;
    proof {
        assert(all.skip(0) =~= all);
    }
    while i < moves.len()
        invariant
            i <= moves@.len(),
            -MAX_COORD <= px <= MAX_COORD,
            -MAX_COORD <= py <= MAX_COORD,
            moves_target(*m, x as int, y as int, all) == moves_target(
                *m,
                px as int,
                py as int,
                all.skip(i as int),
            ),
        decreases moves@.len() - i,
    {
        let step = moves[i];
        let next = try_move(m, px, py, step.0, step.1);
        proof {
            assert(all.skip(i as int)[0] == (step.0 as int, step.1 as int));
            assert(all.skip(i as int).drop_first() =~= all.skip(i as int + 1));
            if !m.solid_at_point(px as int + step.0 as int, py as int + step.1 as int) {
                lemma_open_point_in_map(*m, px as int + step.0, py as int + step.1);
                m.lemma_wf_bounds();
                crate::grid::lemma_extent_bound(*m);
            }
        }
        px = next.0;
        py = next.1;
        i = i + 1;
    }
    (px, py)
}

} // verus!
