use gridcast::grid::{Cell, TileMap};
use gridcast::ray::{cast_ray, Axis};
use gridcast::fov::sample_fov;

fn rows(desc: &[&str]) -> Vec<Vec<Cell>> {
    desc.iter()
        .map(|line| {
            line.chars()
                .map(|ch| if ch == '#' { Cell::Solid } else { Cell::Open })
                .collect()
        })
        .collect()
}

fn open_room() -> TileMap {
    let desc = rows(&[
        "########",
        "#......#",
        "#......#",
        "#......#",
        "#......#",
        "#......#",
        "#......#",
        "########",
    ]);
    TileMap::new(&desc, 50).unwrap()
}

#[test]
fn buffer_has_one_entry_per_column() {
    let m = open_room();
    let buf = sample_fov(&m, 225, 225, 1, 0, 2, 3, 64, 1_000_000);
    assert_eq!(buf.len(), 64);
    for hit in buf.iter() {
        assert!(hit.is_some());
    }
}

#[test]
fn sampling_twice_gives_identical_buffers() {
    let m = open_room();
    let first = sample_fov(&m, 225, 175, 3, 2, 2, 3, 33, 1_000_000);
    let second = sample_fov(&m, 225, 175, 3, 2, 2, 3, 33, 1_000_000);
    assert_eq!(first, second);
}

#[test]
fn single_ray_fan_is_the_facing_ray() {
    let m = open_room();
    let buf = sample_fov(&m, 225, 225, 1, 0, 2, 3, 1, 1_000_000);
    assert_eq!(buf.len(), 1);
    assert_eq!(buf[0], cast_ray(&m, 225, 225, 1, 0, 1_000_000));
}

#[test]
fn middle_column_of_odd_fan_is_the_scaled_facing_ray() {
    let m = open_room();
    // With 5 columns the middle coefficient is 0, so the middle direction
    // is the facing vector scaled by plane_den * (n - 1).
    let buf = sample_fov(&m, 225, 225, 1, 0, 1, 2, 5, 1_000_000);
    assert_eq!(buf[2], cast_ray(&m, 225, 225, 8, 0, 1_000_000));
}

#[test]
fn symmetric_room_gives_mirrored_distances() {
    let m = open_room();
    // Facing +y from a cell center; the room is symmetric about the
    // player's column line.
    let n = 7;
    let buf = sample_fov(&m, 225, 225, 0, 1, 1, 2, n, 1_000_000);
    for i in 0..n {
        let a = buf[i].expect("perimeter stops every ray");
        let b = buf[n - 1 - i].expect("perimeter stops every ray");
        assert_eq!(a.dist_num, b.dist_num, "distance mirror at {i}");
        assert_eq!(a.dist_den, b.dist_den, "denominator mirror at {i}");
        assert_eq!(a.axis, b.axis, "axis mirror at {i}");
        assert_eq!(a.row, b.row, "row mirror at {i}");
        // The player's x = 225 is the center of column 4, so hit columns
        // reflect about column 4.
        assert_eq!(a.col + b.col, 8, "column mirror at {i}");
    }
}

#[test]
fn symmetric_pillars_mirror_even_fans_too() {
    // Columns reflect about the player's column line x = 225 (cell column
    // 4, so c pairs with 8 - c, the outermost with the solid outside); the
    // pillar pattern respects that reflection.
    let desc = rows(&[
        "########",
        "##..#..#",
        "##.....#",
        "###...##",
        "##.....#",
        "##.#.#.#",
        "##.....#",
        "########",
    ]);
    let m = TileMap::new(&desc, 50).unwrap();
    let n = 6;
    let buf = sample_fov(&m, 225, 225, 0, 1, 2, 3, n, 1_000_000);
    let mut distances = Vec::new();
    for i in 0..n {
        let a = buf[i].expect("bounded room");
        let b = buf[n - 1 - i].expect("bounded room");
        assert_eq!(a.dist_num, b.dist_num);
        assert_eq!(a.dist_den, b.dist_den);
        assert_eq!(a.axis, b.axis);
        assert_eq!(a.row, b.row);
        assert_eq!(a.col + b.col, 8);
        distances.push((a.dist_num, a.dist_den));
    }
    // The pillars make the fan uneven, so the mirror check is not vacuous.
    assert!(distances.windows(2).any(|p| p[0] != p[1]));
}

#[test]
fn fan_ends_lean_left_and_right() {
    let m = open_room();
    // Facing +x with a plane three times the facing length: the first
    // column's steep ray reaches the -y wall, the last the +y wall.
    let buf = sample_fov(&m, 225, 225, 1, 0, 3, 1, 3, 1_000_000);
    let first = buf[0].unwrap();
    let last = buf[2].unwrap();
    assert_eq!(first.axis, Axis::Horizontal);
    assert_eq!(first.row, 0);
    assert_eq!(last.axis, Axis::Horizontal);
    assert_eq!(last.row, 7);
}

#[test]
fn tight_cutoff_yields_misses() {
    let m = open_room();
    let buf = sample_fov(&m, 225, 225, 1, 0, 1, 2, 5, 3);
    assert_eq!(buf.len(), 5);
    for hit in buf.iter() {
        assert!(hit.is_none());
    }
}
