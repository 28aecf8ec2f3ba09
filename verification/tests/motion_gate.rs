use gridcast::grid::{Cell, TileMap};
use gridcast::motion::{
    apply_moves, intent_direction, rotate_back_by, rotate_by, try_move, Pose,
};

fn rows(desc: &[&str]) -> Vec<Vec<Cell>> {
    desc.iter()
        .map(|line| {
            line.chars()
                .map(|ch| if ch == '#' { Cell::Solid } else { Cell::Open })
                .collect()
        })
        .collect()
}

fn demo_map() -> TileMap {
    let desc = rows(&[
        "########",
        "#.....##",
        "#......#",
        "#......#",
        "#...#.##",
        "##.#.###",
        "#......#",
        "########",
    ]);
    TileMap::new(&desc, 50).unwrap()
}

#[test]
fn rotation_wraps_past_360() {
    assert_eq!(rotate_by(359, 1), 0);
    assert_eq!(rotate_by(359, 2), 1);
    assert_eq!(rotate_by(0, 360), 0);
    assert_eq!(rotate_by(10, 725), 15);
}

#[test]
fn rotation_wraps_past_zero_to_359() {
    assert_eq!(rotate_back_by(0, 1), 359);
    assert_eq!(rotate_back_by(1, 2), 359);
    assert_eq!(rotate_back_by(5, 370), 355);
    assert_eq!(rotate_back_by(0, 720), 0);
}

#[test]
fn long_rotation_runs_stay_normalized() {
    let mut a: u32 = 0;
    for _ in 0..720 {
        a = rotate_by(a, 1);
        assert!(a < 360);
    }
    assert_eq!(a, 0);
    for _ in 0..721 {
        a = rotate_back_by(a, 1);
        assert!(a < 360);
    }
    assert_eq!(a, 359);
    let mut b: u32 = 17;
    for step in 0..100 {
        b = rotate_by(b, 7 * step);
        assert!(b < 360);
        b = rotate_back_by(b, 11 * step);
        assert!(b < 360);
    }
}

#[test]
fn intents_combine_and_cancel() {
    assert_eq!(intent_direction(false, false, false, false), (0, 0));
    assert_eq!(intent_direction(true, false, false, false), (0, -1));
    assert_eq!(intent_direction(false, true, false, false), (0, 1));
    assert_eq!(intent_direction(false, false, true, false), (-1, 0));
    assert_eq!(intent_direction(false, false, false, true), (1, 0));
    assert_eq!(intent_direction(true, true, true, true), (0, 0));
    assert_eq!(intent_direction(true, false, false, true), (1, -1));
}

#[test]
fn gate_commits_moves_into_open_cells() {
    let m = demo_map();
    assert_eq!(try_move(&m, 75, 75, 50, 0), (125, 75));
    assert_eq!(try_move(&m, 75, 75, 37, 12), (112, 87));
}

#[test]
fn gate_rejects_moves_into_walls_and_off_the_map() {
    let m = demo_map();
    // North of (1, 1) is the border row.
    assert_eq!(try_move(&m, 75, 75, 0, -50), (75, 75));
    // Interior wall at cell (4, 4).
    assert_eq!(try_move(&m, 175, 225, 50, 0), (175, 225));
    // Far out of the map, and sums near the coordinate limits.
    assert_eq!(try_move(&m, 75, 75, 1_000_000, 0), (75, 75));
    assert_eq!(
        try_move(&m, 75, 75, 1_000_000_000_000, 1_000_000_000_000),
        (75, 75)
    );
    assert_eq!(
        try_move(&m, -1_000_000_000_000, 75, -1_000_000_000_000, 0),
        (-1_000_000_000_000, 75)
    );
}

#[test]
fn diagonal_into_a_wall_is_blocked_entirely() {
    let m = demo_map();
    // From (1, 1), moving right alone is legal, up alone is not; the
    // diagonal is rejected as a whole rather than slid along x.
    assert_eq!(try_move(&m, 75, 75, 50, -50), (75, 75));
    assert_eq!(try_move(&m, 75, 75, 50, 0), (125, 75));
}

#[test]
fn random_walk_never_enters_solid_cells() {
    let m = demo_map();
    let (mut x, mut y) = (75i64, 75i64);
    let mut seed: u64 = 0x2545_f491_4f6c_dd1d;
    for _ in 0..2000 {
        seed = seed
            .wrapping_mul(6364136223846793005)
            .wrapping_add(1442695040888963407);
        let dx = ((seed >> 16) % 121) as i64 - 60;
        let dy = ((seed >> 40) % 121) as i64 - 60;
        let (nx, ny) = try_move(&m, x, y, dx, dy);
        let (row, col) = m.world_to_cell(nx, ny).expect("gate kept us on the map");
        assert!(!m.is_solid(row as i64, col as i64));
        x = nx;
        y = ny;
    }
}

#[test]
fn apply_moves_matches_stepwise_gating() {
    let m = demo_map();
    let moves: Vec<(i64, i64)> = vec![
        (50, 0),
        (0, 50),
        (-25, 25),
        (60, -60),
        (7, 3),
        (-200, 0),
        (0, 175),
    ];
    let folded = moves
        .iter()
        .fold((75i64, 75i64), |(px, py), &(dx, dy)| try_move(&m, px, py, dx, dy));
    assert_eq!(apply_moves(&m, 75, 75, &moves), folded);
}

#[test]
fn pose_tracks_angle_and_position() {
    let m = demo_map();
    let mut pose = Pose::new(75, 75, 350);
    pose.rotate(20);
    assert_eq!(pose.angle, 10);
    pose.rotate_back(30);
    assert_eq!(pose.angle, 340);
    pose.step(&m, 50, 50);
    assert_eq!((pose.x, pose.y), (125, 125));
    pose.step(&m, -100, 0);
    assert_eq!((pose.x, pose.y), (125, 125));
    assert_eq!(pose.angle, 340);
}
