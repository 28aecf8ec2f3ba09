use gridcast::grid::{Cell, TileMap};
use gridcast::ray::{cast_ray, Axis, RayHit};

fn rows(desc: &[&str]) -> Vec<Vec<Cell>> {
    desc.iter()
        .map(|line| {
            line.chars()
                .map(|ch| if ch == '#' { Cell::Solid } else { Cell::Open })
                .collect()
        })
        .collect()
}

/// 8x8, solid perimeter, all-open 6x6 interior, tile size 50.
fn open_room() -> TileMap {
    let desc = rows(&[
        "########",
        "#......#",
        "#......#",
        "#......#",
        "#......#",
        "#......#",
        "#......#",
        "########",
    ]);
    TileMap::new(&desc, 50).unwrap()
}

/// The demo layout with interior walls.
fn demo_map() -> TileMap {
    let desc = rows(&[
        "########",
        "#.....##",
        "#......#",
        "#......#",
        "#...#.##",
        "##.#.###",
        "#......#",
        "########",
    ]);
    TileMap::new(&desc, 50).unwrap()
}

#[test]
fn forward_ray_hits_east_wall_at_125() {
    // Player at the center of cell (4, 4), facing +x: two and a half tiles
    // to the east interior wall face.
    let m = open_room();
    let hit = cast_ray(&m, 225, 225, 1, 0, 1_000_000).unwrap();
    assert_eq!(
        hit,
        RayHit {
            dist_num: 125,
            dist_den: 1,
            axis: Axis::Vertical,
            row: 4,
            col: 7,
        }
    );
}

#[test]
fn axis_rays_report_exact_gaps() {
    let m = open_room();
    // West from (225, 225): gap to the face of column 0 at x = 50.
    let west = cast_ray(&m, 225, 225, -1, 0, 1_000_000).unwrap();
    assert_eq!(west.dist_num, 175);
    assert_eq!(west.dist_den, 1);
    assert_eq!(west.axis, Axis::Vertical);
    assert_eq!((west.row, west.col), (4, 0));
    // North (decreasing y) from (225, 225): face of row 0 at y = 50.
    let north = cast_ray(&m, 225, 225, 0, -1, 1_000_000).unwrap();
    assert_eq!(north.dist_num, 175);
    assert_eq!(north.dist_den, 1);
    assert_eq!(north.axis, Axis::Horizontal);
    assert_eq!((north.row, north.col), (0, 4));
    // South (increasing y) from (225, 225): face of row 7 at y = 350.
    let south = cast_ray(&m, 225, 225, 0, 1, 1_000_000).unwrap();
    assert_eq!(south.dist_num, 125);
    assert_eq!(south.dist_den, 1);
    assert_eq!(south.axis, Axis::Horizontal);
    assert_eq!((south.row, south.col), (7, 4));
}

#[test]
fn interior_walls_stop_rays() {
    let m = demo_map();
    // From the center of open cell (4, 2), east: cell (4, 3) is open,
    // cell (4, 4) is an interior wall.
    let hit = cast_ray(&m, 125, 225, 1, 0, 1_000_000).unwrap();
    assert_eq!(hit.dist_num, 75);
    assert_eq!(hit.dist_den, 1);
    assert_eq!((hit.row, hit.col), (4, 4));
}

#[test]
fn hit_cell_is_solid_and_previous_cell_open() {
    let m = demo_map();
    let dirs = [
        (1, 0),
        (-1, 0),
        (0, 1),
        (0, -1),
        (1, 1),
        (2, -3),
        (-5, 2),
        (-1, -1),
    ];
    for &(dx, dy) in dirs.iter() {
        let hit = cast_ray(&m, 125, 225, dx, dy, 1_000_000).unwrap();
        assert!(m.is_solid(hit.row, hit.col));
        // The cell the ray was in when it crossed lies one step back on
        // the axis of the crossing.
        let (pr, pc) = match hit.axis {
            Axis::Vertical => (hit.row, hit.col - dx.signum()),
            Axis::Horizontal => (hit.row - dy.signum(), hit.col),
        };
        assert!(!m.is_solid(pr, pc), "ghost hit for dir ({dx}, {dy})");
    }
}

#[test]
fn diagonal_ray_reports_exact_rational() {
    let m = open_room();
    // From (225, 225) toward (1, 1): vertical crossings at parameters 25,
    // 75, 125; horizontal at 25, 75; the corner tie steps the column
    // first, so the ray enters solid cell (6, 7) at parameter 125.
    let hit = cast_ray(&m, 225, 225, 1, 1, 1_000_000).unwrap();
    assert_eq!(hit.dist_num, 125);
    assert_eq!(hit.dist_den, 1);
    assert_eq!(hit.axis, Axis::Vertical);
    assert_eq!((hit.row, hit.col), (6, 7));
}

#[test]
fn scaling_the_direction_scales_only_the_denominator() {
    let m = open_room();
    let unit = cast_ray(&m, 225, 225, 1, 1, 1_000_000).unwrap();
    let scaled = cast_ray(&m, 225, 225, 4, 4, 1_000_000).unwrap();
    assert_eq!(scaled.dist_num, unit.dist_num);
    assert_eq!(scaled.dist_den, 4 * unit.dist_den);
    assert_eq!(scaled.axis, unit.axis);
    assert_eq!((scaled.row, scaled.col), (unit.row, unit.col));
}

#[test]
fn zero_direction_never_hits() {
    let m = open_room();
    assert_eq!(cast_ray(&m, 225, 225, 0, 0, 1_000_000), None);
}

#[test]
fn cutoff_returns_no_hit() {
    let m = open_room();
    // The first solid cell sits 125 world units out; a tighter cutoff
    // gives up first.
    assert_eq!(cast_ray(&m, 225, 225, 1, 0, 100), None);
    // The cutoff compares the crossing parameter, so a crossing exactly at
    // the bound still counts.
    assert!(cast_ray(&m, 225, 225, 1, 0, 125).is_some());
}

#[test]
fn boundary_origin_belongs_to_the_cell_ahead() {
    let m = open_room();
    // x = 200 lies on the boundary between columns 3 and 4.
    let east = cast_ray(&m, 200, 225, 1, 0, 1_000_000).unwrap();
    assert_eq!(east.dist_num, 150);
    assert_eq!((east.row, east.col), (4, 7));
    let west = cast_ray(&m, 200, 225, -1, 0, 1_000_000).unwrap();
    assert_eq!(west.dist_num, 150);
    assert_eq!((west.row, west.col), (4, 0));
}

#[test]
fn ray_from_inside_a_wall_hits_a_neighbor() {
    let m = demo_map();
    // Cell (4, 4) is solid; the first cell the walk enters eastward is
    // (4, 5), which is open, then (4, 6) which is solid.
    let hit = cast_ray(&m, 225, 225, 1, 0, 1_000_000).unwrap();
    assert_eq!((hit.row, hit.col), (4, 6));
    assert_eq!(hit.dist_num, 75);
}
