use unholy_force::assets::{AssetDb, AssetKind};
use unholy_force::editor::{square_side, FloorPartEditorTool, FloorPartToolsSubSection, NeighbourData};
use unholy_force::effect_mechanics::ConfigId;
use unholy_force::floor_configs::{AuthoredFloor, FloorPartConfig};
use unholy_force::floor_data::{
    EditableFloorData, FloorCellExtra, FloorGraphicsTileGroup, FloorTiles, WallGraphicsTileGroup,
};
use unholy_force::tile_corners::{floor_corners, CornerMatch};

#[test]
fn square_sides() {
    assert_eq!(square_side(0), 0);
    assert_eq!(square_side(1), 1);
    assert_eq!(square_side(2), 2);
    assert_eq!(square_side(4), 2);
    assert_eq!(square_side(5), 3);
    assert_eq!(square_side(9), 3);
    assert_eq!(square_side(10), 4);
}

#[test]
fn neighbour_counts_only_present_parts() {
    let mut db = AssetDb::new();
    db.insert_loaded_asset(AssetKind::FloorPartConfig, 1, "a".to_string(), vec![]);
    db.insert_loaded_asset(AssetKind::FloorPartConfig, 2, "b".to_string(), vec![]);
    db.insert_loaded_asset(AssetKind::ItemConfig, 3, "c".to_string(), vec![]);
    let ids = [ConfigId::new(1), ConfigId::new(2), ConfigId::new(3), ConfigId::new(1)];
    assert_eq!(NeighbourData::Multiple(&ids).present_count(&db), 3);
    assert_eq!(NeighbourData::SingleFocus(ConfigId::new(2)).present_count(&db), 1);
    assert_eq!(NeighbourData::SingleFocus(ConfigId::new(3)).present_count(&db), 0);
    assert_eq!(NeighbourData::Multiple(&[]).present_count(&db), 0);
}

#[test]
fn tool_defaults() {
    assert_eq!(FloorPartEditorTool::default(), FloorPartEditorTool::PlaceFloor);
    let tools = FloorPartToolsSubSection::default();
    assert_eq!(tools.current_tool, FloorPartEditorTool::PlaceFloor);
    assert_eq!(tools.floor_tile_group, FloorGraphicsTileGroup::Dirt);
    assert_eq!(tools.wall_tile_group, WallGraphicsTileGroup::NoWall);
}

#[test]
fn tools_paint_one_cell_of_a_part() {
    let mut part = FloorPartConfig {
        floor_data: [[FloorGraphicsTileGroup::Dirt; 5]; 5],
        wall_data: [[WallGraphicsTileGroup::NoWall; 5]; 5],
        extra_data: [[FloorCellExtra::NoExtra; 5]; 5],
    };
    let mut tools = FloorPartToolsSubSection {
        current_tool: FloorPartEditorTool::PlaceFloor,
        floor_tile_group: FloorGraphicsTileGroup::Lava,
        wall_tile_group: WallGraphicsTileGroup::Bricks,
        extra: FloorCellExtra::LadderDownHint,
    };
    tools.apply_to(&mut part, 3, 1);
    assert_eq!(part.floor_data[1][3], FloorGraphicsTileGroup::Lava);
    assert_eq!(part.get_floor_data([3, 1]), FloorGraphicsTileGroup::Lava);
    assert_eq!(part.get_floor_data([1, 3]), FloorGraphicsTileGroup::Dirt);
    assert_eq!(part.get_wall_data([3, 1]), WallGraphicsTileGroup::NoWall);

    tools.current_tool = FloorPartEditorTool::PlaceWall;
    tools.apply_to(&mut part, 0, 4);
    assert_eq!(part.wall_data[4][0], WallGraphicsTileGroup::Bricks);
    assert_eq!(part.get_floor_data([0, 4]), FloorGraphicsTileGroup::Dirt);

    tools.current_tool = FloorPartEditorTool::PlaceExtra;
    let before = part;
    tools.apply_to(&mut part, 2, 2);
    assert_eq!(part.floor_data, before.floor_data);
    assert_eq!(part.wall_data, before.wall_data);
    assert_eq!(part.extra_data[2][2], FloorCellExtra::LadderDownHint);
    assert_eq!(part.get_cell_extra_data([2, 2]), FloorCellExtra::LadderDownHint);
    assert_eq!(part.get_cell_extra_data([2, 3]), FloorCellExtra::NoExtra);
    assert_eq!(part.get_cell_extra_data([3, 1]), FloorCellExtra::NoExtra);

    assert_eq!((part.width(), part.height()), (5, 5));
    assert_eq!(
        floor_corners(&part, 2, 0, FloorGraphicsTileGroup::Lava),
        CornerMatch { north_west: false, north_east: false, south_west: false, south_east: true }
    );
}

#[test]
fn tools_paint_authored_floors() {
    let mut floor = AuthoredFloor::Size20x20(FloorTiles::new(20));
    assert_eq!((floor.width(), floor.height()), (20, 20));
    let tools = FloorPartToolsSubSection {
        current_tool: FloorPartEditorTool::PlaceWall,
        floor_tile_group: FloorGraphicsTileGroup::Water,
        wall_tile_group: WallGraphicsTileGroup::NoWall,
        extra: FloorCellExtra::NoExtra,
    };
    assert_eq!(floor.get_wall_data([19, 7]), WallGraphicsTileGroup::Sandstone);
    tools.apply_to(&mut floor, 19, 7);
    assert_eq!(floor.get_wall_data([19, 7]), WallGraphicsTileGroup::NoWall);
    assert_eq!(floor.get_wall_data([7, 19]), WallGraphicsTileGroup::Sandstone);
    assert_eq!(floor.get_floor_data([19, 7]), FloorGraphicsTileGroup::Dirt);
    let mut tiles = FloorTiles::new(3);
    floor.set_floor_data([0, 0], FloorGraphicsTileGroup::Lava);
    assert_eq!(floor.get_floor_data([0, 0]), FloorGraphicsTileGroup::Lava);
    tiles.set_wall_data([2, 1], WallGraphicsTileGroup::Rocks);
    assert_eq!(tiles.wall_data[5], WallGraphicsTileGroup::Rocks);
}

#[test]
fn extra_layer_is_kept_apart_from_floor_and_wall() {
    let mut tiles = FloorTiles::new(4);
    assert_eq!(tiles.get_cell_extra_data([3, 3]), FloorCellExtra::NoExtra);
    tiles.set_cell_extra_data([1, 2], FloorCellExtra::SpawnUnit(ConfigId::new(7)));
    assert_eq!(tiles.get_cell_extra_data([1, 2]), FloorCellExtra::SpawnUnit(ConfigId::new(7)));
    assert_eq!(tiles.extra_data[9], FloorCellExtra::SpawnUnit(ConfigId::new(7)));
    assert_eq!(tiles.get_cell_extra_data([2, 1]), FloorCellExtra::NoExtra);
    assert_eq!(tiles.get_floor_data([1, 2]), FloorGraphicsTileGroup::Dirt);
    tiles.set_floor_data([1, 2], FloorGraphicsTileGroup::Water);
    assert_eq!(tiles.get_cell_extra_data([1, 2]), FloorCellExtra::SpawnUnit(ConfigId::new(7)));

    let mut floor = AuthoredFloor::Size20x20(FloorTiles::new(20));
    let tools = FloorPartToolsSubSection {
        current_tool: FloorPartEditorTool::PlaceExtra,
        floor_tile_group: FloorGraphicsTileGroup::Lava,
        wall_tile_group: WallGraphicsTileGroup::Bricks,
        extra: FloorCellExtra::SpawnLootHint(2),
    };
    tools.apply_to(&mut floor, 4, 5);
    assert_eq!(floor.get_cell_extra_data([4, 5]), FloorCellExtra::SpawnLootHint(2));
    assert_eq!(floor.get_floor_data([4, 5]), FloorGraphicsTileGroup::Dirt);
    assert_eq!(floor.get_cell_extra_data([5, 4]), FloorCellExtra::NoExtra);
    assert_eq!(FloorCellExtra::default(), FloorCellExtra::NoExtra);
    assert_eq!(FloorPartToolsSubSection::default().extra, FloorCellExtra::NoExtra);
}
