use unholy_force::floor_data::{EditableFloorData, FloorGraphicsTileGroup, FloorTiles, WallGraphicsTileGroup};
use unholy_force::floor_generator::{connect_islands, FloorGeneratorResult};
use unholy_force::grid_math::get_island_mapping;

fn open_cells(floor: &mut FloorGeneratorResult, cells: &[[usize; 2]]) {
    for [row, col] in cells.iter().copied() {
        floor.set_wall_data([col, row], WallGraphicsTileGroup::NoWall);
        floor.set_floor_data([col, row], FloorGraphicsTileGroup::Tile);
    }
}

#[test]
fn should_connect_islands() {
    let mut floor = FloorGeneratorResult::Size15x15(FloorTiles::new(15));
    open_cells(&mut floor, &[
        [1, 12],
        [2, 11], [2, 12], [2, 13],
        [3, 11], [3, 12], [3, 13],
        [4, 12],
        [5, 7],
        [6, 5], [6, 6], [6, 7], [6, 8], [6, 9],
        [7, 8],
        [8, 6], [8, 7], [8, 8],
        [9, 6],
        [10, 1], [10, 6],
        [11, 1], [11, 2], [11, 3], [11, 4], [11, 5], [11, 6], [11, 7], [11, 8],
        [12, 1], [12, 2], [12, 3], [12, 4], [12, 5], [12, 6], [12, 7], [12, 8],
        [13, 1], [13, 2], [13, 3], [13, 4], [13, 5], [13, 6], [13, 7], [13, 8],
    ]);
    let (num_islands, _) = get_island_mapping(&floor);
    assert_eq!(num_islands, 2);

    connect_islands(&mut floor);
    let (num_islands, _) = get_island_mapping(&floor);
    assert_eq!(num_islands, 1);
}

#[test]
fn island_mapping_of_closed_floor_is_empty() {
    let floor = FloorGeneratorResult::Size20x20(FloorTiles::new(20));
    let (num_islands, mapping) = get_island_mapping(&floor);
    assert_eq!(num_islands, 0);
    assert_eq!(mapping.len(), 400);
    assert!(mapping.iter().all(|c| c.is_none()));
}

#[test]
fn island_mapping_colors_open_cells() {
    let mut floor = FloorGeneratorResult::Size15x15(FloorTiles::new(15));
    open_cells(&mut floor, &[[1, 1], [1, 2], [5, 5]]);
    let (num_islands, mapping) = get_island_mapping(&floor);
    assert_eq!(num_islands, 2);
    let a = mapping[1 * 15 + 1];
    let b = mapping[1 * 15 + 2];
    let c = mapping[5 * 15 + 5];
    assert!(a.is_some());
    assert_eq!(a, b);
    assert!(c.is_some());
    assert_ne!(a, c);
    assert_eq!(mapping.iter().filter(|m| m.is_some()).count(), 3);
}

#[test]
fn island_mapping_joins_vertical_neighbours() {
    let mut floor = FloorGeneratorResult::Size15x15(FloorTiles::new(15));
    open_cells(&mut floor, &[[3, 4], [4, 4], [5, 4]]);
    let (num_islands, mapping) = get_island_mapping(&floor);
    assert_eq!(num_islands, 1);
    assert_eq!(mapping[3 * 15 + 4], mapping[5 * 15 + 4]);
}

#[test]
fn connect_islands_only_carves_walls() {
    let mut floor = FloorGeneratorResult::Size15x15(FloorTiles::new(15));
    open_cells(&mut floor, &[[2, 2], [2, 6]]);
    connect_islands(&mut floor);
    let (num_islands, _) = get_island_mapping(&floor);
    assert_eq!(num_islands, 1);
    assert_eq!(floor.get_wall_data([2, 2]), WallGraphicsTileGroup::NoWall);
    assert_eq!(floor.get_wall_data([6, 2]), WallGraphicsTileGroup::NoWall);
    for y in 0..15 {
        for x in 0..15 {
            if floor.get_wall_data([x, y]) == WallGraphicsTileGroup::NoWall {
                assert_eq!(floor.get_floor_data([x, y]), FloorGraphicsTileGroup::Tile);
            }
        }
    }
}

#[test]
fn floor_sizes_match_variants() {
    let floor = FloorGeneratorResult::Size80x80(FloorTiles::new(80));
    assert_eq!(floor.width(), 80);
    assert_eq!(floor.height(), 80);
    let floor = FloorGeneratorResult::Size25x25(FloorTiles::new(25));
    assert_eq!(floor.width(), 25);
}


#[test]
fn island_reached_from_several_roots_gets_one_color() {
    // Rows `....#....` and `.#.....#.`: the lower runs at both ends and in the middle all
    // lead up into one island, whichever order the roots are walked in.
    for _ in 0..20 {
        let mut floor = FloorGeneratorResult::Size15x15(FloorTiles::new(15));
        let mut cells = Vec::new();
        for col in [0, 1, 2, 3, 5, 6, 7, 8] {
            cells.push([0, col]);
        }
        for col in [0, 2, 3, 4, 5, 6, 8] {
            cells.push([1, col]);
        }
        open_cells(&mut floor, &cells);
        let (num_islands, map) = get_island_mapping(&floor);
        assert_eq!(num_islands, 1);
        let first = map[0];
        assert!(first.is_some());
        for [row, col] in cells {
            assert_eq!(map[row * 15 + col], first);
        }
    }
}
