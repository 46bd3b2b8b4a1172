use unholy_force::assets::{AssetDb, AssetKind};
use unholy_force::effect_mechanics::ConfigId;
use unholy_force::floor_configs::{
    AuthoredFloor, FloorConfig, FloorPartAdjacencyConfig, FloorPartConfig, FloorVariant, GeneratedFloor,
};
use unholy_force::floor_data::{
    EditableFloorData, FloorCellExtra, FloorGraphicsTileGroup, FloorTiles, WallGraphicsTileGroup,
};
use unholy_force::floor_generator::{generate, FloorGeneratorResult};
use unholy_force::grid_math::get_island_mapping;

const FLOOR: u128 = 100;
const ADJ: u128 = 200;
const PART: u128 = 1;

fn room_part() -> FloorPartConfig {
    let mut part = FloorPartConfig {
        floor_data: [[FloorGraphicsTileGroup::Dirt; 5]; 5],
        wall_data: [[WallGraphicsTileGroup::Sandstone; 5]; 5],
        extra_data: [[FloorCellExtra::NoExtra; 5]; 5],
    };
    part.wall_data[2][2] = WallGraphicsTileGroup::NoWall;
    part.floor_data[2][2] = FloorGraphicsTileGroup::Tile;
    part
}

fn db_with(ids: &[(AssetKind, u128)]) -> AssetDb {
    let mut db = AssetDb::new();
    for (kind, id) in ids.iter().copied() {
        db.insert_loaded_asset(kind, id, "x".to_string(), vec![]);
    }
    db
}

fn self_adjacent(part: u128) -> FloorPartAdjacencyConfig {
    FloorPartAdjacencyConfig {
        part: ConfigId::new(part),
        north_adjacent_parts: vec![ConfigId::new(part)],
        south_adjacent_parts: vec![ConfigId::new(part)],
        west_adjacent_parts: vec![ConfigId::new(part)],
        east_adjacent_parts: vec![ConfigId::new(part)],
    }
}

#[test]
fn generated_floor_is_tiled_with_parts_and_connected() {
    let db = db_with(&[
        (AssetKind::FloorConfig, FLOOR),
        (AssetKind::FloorPartAdjacencyConfig, ADJ),
        (AssetKind::FloorPartConfig, PART),
    ]);
    let config = FloorConfig {
        floor_variant: FloorVariant::Generated(GeneratedFloor::Size15x15),
        available_parts: vec![ConfigId::new(ADJ)],
    };
    let adjacency = vec![Some(self_adjacent(PART))];
    let parts = vec![(ConfigId::new(PART), room_part())];
    let floor = generate(&db, ConfigId::new(FLOOR), config, &adjacency, &parts).unwrap();
    assert_eq!(floor.width(), 15);
    for by in 0..3 {
        for bx in 0..3 {
            assert_eq!(floor.get_wall_data([bx * 5 + 2, by * 5 + 2]), WallGraphicsTileGroup::NoWall);
            assert_eq!(floor.get_floor_data([bx * 5 + 2, by * 5 + 2]), FloorGraphicsTileGroup::Tile);
        }
    }
    for y in 0..15 {
        for x in 0..15 {
            let open = floor.get_wall_data([x, y]) == WallGraphicsTileGroup::NoWall;
            if open {
                assert_eq!(floor.get_floor_data([x, y]), FloorGraphicsTileGroup::Tile);
            } else {
                assert_eq!(floor.get_wall_data([x, y]), WallGraphicsTileGroup::Sandstone);
                assert_eq!(floor.get_floor_data([x, y]), FloorGraphicsTileGroup::Dirt);
            }
        }
    }
    let (islands, _) = get_island_mapping(&floor);
    assert_eq!(islands, 1);
}

#[test]
fn part_without_edge_walls_is_not_placed_on_the_border() {
    let db = db_with(&[
        (AssetKind::FloorConfig, FLOOR),
        (AssetKind::FloorPartAdjacencyConfig, ADJ),
        (AssetKind::FloorPartConfig, PART),
    ]);
    let mut open_part = room_part();
    for c in 0..5 {
        open_part.wall_data[0][c] = WallGraphicsTileGroup::NoWall;
        open_part.floor_data[0][c] = FloorGraphicsTileGroup::Water;
    }
    let config = FloorConfig {
        floor_variant: FloorVariant::Generated(GeneratedFloor::Size15x15),
        available_parts: vec![ConfigId::new(ADJ)],
    };
    let adjacency = vec![Some(self_adjacent(PART))];
    let parts = vec![(ConfigId::new(PART), open_part)];
    let floor = generate(&db, ConfigId::new(FLOOR), config, &adjacency, &parts).unwrap();
    // The top row of blocks stays empty: its cells keep their sandstone over dirt, or were
    // carved; no water comes from the part.
    for y in 0..5 {
        for x in 0..15 {
            assert_ne!(floor.get_floor_data([x, y]), FloorGraphicsTileGroup::Water);
        }
    }
    // The middle blocks below, with no side along the west or east of the floor, take the
    // part.
    let mut water = 0;
    for y in 5..15 {
        for x in 0..15 {
            if floor.get_floor_data([x, y]) == FloorGraphicsTileGroup::Water {
                assert!(x >= 5 && x < 10);
                water += 1;
            }
        }
    }
    assert!(water > 0);
}

#[test]
fn missing_floor_config_gives_none() {
    let db = db_with(&[(AssetKind::FloorPartAdjacencyConfig, ADJ), (AssetKind::FloorPartConfig, PART)]);
    let config = FloorConfig {
        floor_variant: FloorVariant::Generated(GeneratedFloor::Size20x20),
        available_parts: vec![ConfigId::new(ADJ)],
    };
    let adjacency = vec![Some(self_adjacent(PART))];
    let parts = vec![(ConfigId::new(PART), room_part())];
    assert!(generate(&db, ConfigId::new(FLOOR), config, &adjacency, &parts).is_none());
}

#[test]
fn no_usable_adjacency_gives_none() {
    // The adjacency configuration is there, but the part it is about is not.
    let db = db_with(&[(AssetKind::FloorConfig, FLOOR), (AssetKind::FloorPartAdjacencyConfig, ADJ)]);
    let config = FloorConfig {
        floor_variant: FloorVariant::Generated(GeneratedFloor::Size20x20),
        available_parts: vec![ConfigId::new(ADJ)],
    };
    let adjacency = vec![Some(self_adjacent(PART))];
    let parts: Vec<(ConfigId, FloorPartConfig)> = vec![];
    assert!(generate(&db, ConfigId::new(FLOOR), config, &adjacency, &parts).is_none());
}

#[test]
fn authored_floor_is_returned_as_drawn() {
    let db = db_with(&[(AssetKind::FloorConfig, FLOOR)]);
    let mut tiles = FloorTiles::new(20);
    tiles.floor_data[21] = FloorGraphicsTileGroup::Lava;
    let config = FloorConfig {
        floor_variant: FloorVariant::Authored(AuthoredFloor::Size20x20(tiles)),
        available_parts: vec![],
    };
    let floor = generate(&db, ConfigId::new(FLOOR), config, &vec![], &vec![]).unwrap();
    assert!(matches!(floor, FloorGeneratorResult::Size20x20(_)));
    assert_eq!(floor.get_floor_data([1, 1]), FloorGraphicsTileGroup::Lava);
}

#[test]
fn generated_sizes() {
    let db = db_with(&[
        (AssetKind::FloorConfig, FLOOR),
        (AssetKind::FloorPartAdjacencyConfig, ADJ),
        (AssetKind::FloorPartConfig, PART),
    ]);
    for (size, side) in [(GeneratedFloor::Size40x40, 40), (GeneratedFloor::Size80x80, 80)] {
        let config = FloorConfig { floor_variant: FloorVariant::Generated(size), available_parts: vec![ConfigId::new(ADJ)] };
        let floor = generate(&db, ConfigId::new(FLOOR), config, &vec![Some(self_adjacent(PART))], &vec![(ConfigId::new(PART), room_part())]).unwrap();
        assert_eq!(floor.width(), side);
        assert_eq!(floor.get_wall_data([side - 3, side - 3]), WallGraphicsTileGroup::NoWall);
    }
}

#[test]
fn generated_floor_carries_no_extras_from_its_parts() {
    let db = db_with(&[
        (AssetKind::FloorConfig, FLOOR),
        (AssetKind::FloorPartAdjacencyConfig, ADJ),
        (AssetKind::FloorPartConfig, PART),
    ]);
    let mut part = room_part();
    part.extra_data[2][2] = FloorCellExtra::PlayerStartHint;
    part.extra_data[1][1] = FloorCellExtra::SpawnLoot(ConfigId::new(9));
    let config = FloorConfig {
        floor_variant: FloorVariant::Generated(GeneratedFloor::Size15x15),
        available_parts: vec![ConfigId::new(ADJ)],
    };
    let adjacency = vec![Some(self_adjacent(PART))];
    let parts = vec![(ConfigId::new(PART), part)];
    let floor = generate(&db, ConfigId::new(FLOOR), config, &adjacency, &parts).unwrap();
    for y in 0..15 {
        for x in 0..15 {
            assert_eq!(floor.get_cell_extra_data([x, y]), FloorCellExtra::NoExtra);
        }
    }
}
