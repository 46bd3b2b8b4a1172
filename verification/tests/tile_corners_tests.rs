use unholy_force::floor_data::{EditableFloorData, FloorGraphicsTileGroup, FloorTiles, WallGraphicsTileGroup};
use unholy_force::floor_generator::FloorGeneratorResult;
use unholy_force::tile_corners::{border_pieces, dirt_corners, dirt_shade, floor_corners, wall_corners, CornerMatch};

#[test]
fn dirt_pattern_repeats_every_five_cells() {
    assert!(dirt_shade(0, 0));
    assert!(!dirt_shade(1, 0));
    assert!(dirt_shade(1, 1));
    assert!(!dirt_shade(0, 2));
    assert!(dirt_shade(4, 4));
    assert_eq!(dirt_shade(7, 13), dirt_shade(2, 3));
    assert_eq!(
        dirt_corners(0, 0),
        CornerMatch { north_west: true, north_east: false, south_west: true, south_east: true }
    );
    assert_eq!(
        dirt_corners(4, 2),
        CornerMatch { north_west: false, north_east: false, south_west: true, south_east: true }
    );
}

#[test]
fn corners_follow_the_four_cells() {
    let mut floor = FloorGeneratorResult::Size15x15(FloorTiles::new(15));
    floor.set_floor_data([3, 4], FloorGraphicsTileGroup::Water);
    floor.set_floor_data([4, 5], FloorGraphicsTileGroup::Water);
    floor.set_wall_data([4, 4], WallGraphicsTileGroup::NoWall);
    assert_eq!(
        floor_corners(&floor, 3, 4, FloorGraphicsTileGroup::Water),
        CornerMatch { north_west: true, north_east: false, south_west: false, south_east: true }
    );
    assert_eq!(
        floor_corners(&floor, 3, 4, FloorGraphicsTileGroup::Dirt),
        CornerMatch { north_west: false, north_east: true, south_west: true, south_east: false }
    );
    assert_eq!(
        wall_corners(&floor, 3, 4, WallGraphicsTileGroup::Sandstone),
        CornerMatch { north_west: true, north_east: false, south_west: true, south_east: true }
    );
}

#[test]
fn border_pieces_on_the_edges() {
    let corner = border_pieces(15, 10, 0, 0);
    assert!(corner.north && corner.north_west && corner.west);
    assert!(!corner.north_east && !corner.south && !corner.east);
    let far = border_pieces(15, 10, 13, 8);
    assert!(far.south && far.south_east && far.east);
    assert!(!far.north && !far.west && !far.south_west);
    let inner = border_pieces(15, 10, 5, 5);
    assert!(!inner.north && !inner.south && !inner.west && !inner.east);
}

#[test]
fn offset_coords_add_up() {
    assert_eq!(unholy_force::tile_corners::offset_coords([3, 4], [2, 1]), [5, 5]);
    assert_eq!(unholy_force::tile_corners::offset_coords([0, 250], [0, 5]), [0, 255]);
}
