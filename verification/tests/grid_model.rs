use gridcast::grid::{Cell, MapError, TileMap};

/// Rows of '#' (solid) and '.' (open) as a map description.
fn rows(desc: &[&str]) -> Vec<Vec<Cell>> {
    desc.iter()
        .map(|line| {
            line.chars()
                .map(|ch| if ch == '#' { Cell::Solid } else { Cell::Open })
                .collect()
        })
        .collect()
}

/// The demo layout: an 8x8 map with a solid perimeter and a few interior
/// walls.
fn demo_rows() -> Vec<Vec<Cell>> {
    rows(&[
        "########",
        "#.....##",
        "#......#",
        "#......#",
        "#...#.##",
        "##.#.###",
        "#......#",
        "########",
    ])
}

#[test]
fn builds_demo_map() {
    let m = TileMap::new(&demo_rows(), 50).unwrap();
    assert_eq!(m.rows(), 8);
    assert_eq!(m.cols(), 8);
    assert_eq!(m.tile_size(), 50);
    assert!(m.is_solid(0, 0));
    assert!(!m.is_solid(1, 1));
    assert!(m.is_solid(4, 4));
    assert!(m.is_solid(5, 3));
    assert!(!m.is_solid(5, 2));
}

#[test]
fn out_of_range_cells_read_solid() {
    let m = TileMap::new(&demo_rows(), 50).unwrap();
    assert!(m.is_solid(-1, 3));
    assert!(m.is_solid(3, -1));
    assert!(m.is_solid(8, 3));
    assert!(m.is_solid(3, 8));
    assert!(m.is_solid(i64::MIN, i64::MAX));
}

#[test]
fn world_to_cell_converts_and_fails_closed() {
    let m = TileMap::new(&demo_rows(), 50).unwrap();
    assert_eq!(m.world_to_cell(225, 225), Some((4, 4)));
    assert_eq!(m.world_to_cell(0, 0), Some((0, 0)));
    assert_eq!(m.world_to_cell(49, 399), Some((7, 0)));
    assert_eq!(m.world_to_cell(50, 100), Some((2, 1)));
    assert_eq!(m.world_to_cell(-1, 10), None);
    assert_eq!(m.world_to_cell(10, -1), None);
    assert_eq!(m.world_to_cell(400, 10), None);
    assert_eq!(m.world_to_cell(10, 400), None);
}

#[test]
fn solid_at_world_matches_cells() {
    let m = TileMap::new(&demo_rows(), 50).unwrap();
    assert!(!m.solid_at_world(125, 125));
    assert!(m.solid_at_world(225, 225));
    assert!(m.solid_at_world(225, 25));
    assert!(m.solid_at_world(-5, 125));
    assert!(m.solid_at_world(125, 100000));
}

#[test]
fn rejects_bad_tile_size() {
    assert!(matches!(TileMap::new(&demo_rows(), 0), Err(MapError::BadTileSize)));
    assert!(matches!(TileMap::new(&demo_rows(), -7), Err(MapError::BadTileSize)));
    assert!(matches!(TileMap::new(&demo_rows(), 1_000_001), Err(MapError::BadTileSize)));
}

#[test]
fn rejects_empty_maps() {
    assert!(matches!(TileMap::new(&Vec::new(), 50), Err(MapError::Empty)));
    assert!(matches!(TileMap::new(&vec![Vec::new(), Vec::new()], 50), Err(MapError::Empty)));
}

#[test]
fn rejects_ragged_rows() {
    let desc = rows(&["####", "#.#", "####"]);
    assert!(matches!(TileMap::new(&desc, 50), Err(MapError::NonRectangular)));
}

#[test]
fn rejects_oversized_maps() {
    let desc = vec![vec![Cell::Solid; 3]; 4097];
    assert!(matches!(TileMap::new(&desc, 50), Err(MapError::TooLarge)));
    let desc = vec![vec![Cell::Solid; 4097]; 3];
    assert!(matches!(TileMap::new(&desc, 50), Err(MapError::TooLarge)));
}

#[test]
fn rejects_open_perimeter() {
    let desc = rows(&["###", "#.#", "#.#"]);
    assert!(matches!(TileMap::new(&desc, 50), Err(MapError::OpenPerimeter)));
    let desc = rows(&[".##", "#.#", "###"]);
    assert!(matches!(TileMap::new(&desc, 50), Err(MapError::OpenPerimeter)));
}

#[test]
fn accepts_minimal_all_border_map() {
    let m = TileMap::new(&rows(&["##", "##"]), 1).unwrap();
    assert_eq!(m.rows(), 2);
    assert_eq!(m.cols(), 2);
    assert!(m.is_solid(0, 1));
}
