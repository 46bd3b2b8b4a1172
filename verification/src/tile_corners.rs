use vstd::prelude::*;
use crate::floor_data::{EditableFloorData, FloorGraphicsTileGroup, WallGraphicsTileGroup};

verus! {

/// Which of the four cells under a drawn tile belong to a tile group. A tile is drawn
/// between the centres of four cells: the one at `[i, j]` is its north-west corner.
#[derive(Clone, Copy, Debug, PartialEq, Eq, Structural)]
pub struct CornerMatch {
    pub north_west: bool,
    pub north_east: bool,
    pub south_west: bool,
    pub south_east: bool,
}

/// The extra border pieces drawn around a tile that lies on the edge of the floor.
#[derive(Clone, Copy, Debug, PartialEq, Eq, Structural)]
pub struct BorderPieces {
    pub north: bool,
    pub north_west: bool,
    pub north_east: bool,
    pub south: bool,
    pub south_west: bool,
    pub south_east: bool,
    pub west: bool,
    pub east: bool,
}

/// The pattern of dirt shades: a five-by-five block, by row and then column, repeated
/// over the whole floor.
pub open spec fn dirt_pattern() -> Seq<Seq<bool>> {
    seq![
        seq![true, false, true, false, true],
        seq![true, true, false, false, true],
        seq![false, true, true, true, false],
        seq![true, false, false, true, true],
        seq![false, false, true, true, true],
    ]
}

/// Whether the cell in column `x`, row `y` has the dark dirt shade.
pub open spec fn dirt_shade_at(x: int, y: int) -> bool {
    dirt_pattern()[y % 5][x % 5]
}

/// The dirt shade of the cell in column `x`, row `y`.
pub fn dirt_shade(x: usize, y: usize) -> (res: bool)
    ensures
        res == dirt_shade_at(x as int, y as int),
{
    let pattern: [[bool; 5]; 5] = [
        [true, false, true, false, true],
        [true, true, false, false, true],
        [false, true, true, true, false],
        [true, false, false, true, true],
        [false, false, true, true, true],
    ];
    let row = y % 5;
    let col = x % 5;
    proof {
        assert(pattern@.map_values(|r: [bool; 5]| r@) =~= dirt_pattern());
        assert(pattern@[row as int]@ == dirt_pattern()[row as int]);
    }
    pattern[row][col]
}

/// The dirt corners of the tile whose north-west cell is `[i, j]`.
pub fn dirt_corners(i: usize, j: usize) -> (res: CornerMatch)
    requires
        i < usize::MAX,
        j < usize::MAX,
    ensures
        res.north_west == dirt_shade_at(i as int, j as int),
        res.north_east == dirt_shade_at(i + 1, j as int),
        res.south_west == dirt_shade_at(i as int, j + 1),
        res.south_east == dirt_shade_at(i + 1, j + 1),
{
    CornerMatch {
        north_west: dirt_shade(i, j),
        north_east: dirt_shade(i + 1, j),
        south_west: dirt_shade(i, j + 1),
        south_east: dirt_shade(i + 1, j + 1),
    }
}

/// Which corners of the tile whose north-west cell is `[i, j]` have the floor `group`.
pub fn floor_corners<D: EditableFloorData>(
    data: &D,
    i: usize,
    j: usize,
    group: FloorGraphicsTileGroup,
) -> (res: CornerMatch)
    requires
        data.floor_ok(),
        i + 1 < data.floor_width(),
        j + 1 < data.floor_height(),
    ensures
        res.north_west == (data.floor_at(i as int, j as int) == group),
        res.north_east == (data.floor_at(i + 1, j as int) == group),
        res.south_west == (data.floor_at(i as int, j + 1) == group),
        res.south_east == (data.floor_at(i + 1, j + 1) == group),
{
    let width = data.width();
    let height = data.height();
    proof {
        assert(i + 1 < width && j + 1 < height);
    }
    CornerMatch {
        north_west: data.get_floor_data([i, j]) == group,
        north_east: data.get_floor_data([i + 1, j]) == group,
        south_west: data.get_floor_data([i, j + 1]) == group,
        south_east: data.get_floor_data([i + 1, j + 1]) == group,
    }
}

/// Which corners of the tile whose north-west cell is `[i, j]` have the wall `group`.
pub fn wall_corners<D: EditableFloorData>(
    data: &D,
    i: usize,
    j: usize,
    group: WallGraphicsTileGroup,
) -> (res: CornerMatch)
    requires
        data.floor_ok(),
        i + 1 < data.floor_width(),
        j + 1 < data.floor_height(),
    ensures
        res.north_west == (data.wall_at(i as int, j as int) == group),
        res.north_east == (data.wall_at(i + 1, j as int) == group),
        res.south_west == (data.wall_at(i as int, j + 1) == group),
        res.south_east == (data.wall_at(i + 1, j + 1) == group),
{
    let width = data.width();
    let height = data.height();
    proof {
        assert(i + 1 < width && j + 1 < height);
    }
    CornerMatch {
        north_west: data.get_wall_data([i, j]) == group,
        north_east: data.get_wall_data([i + 1, j]) == group,
        south_west: data.get_wall_data([i, j + 1]) == group,
        south_east: data.get_wall_data([i + 1, j + 1]) == group,
    }
}

/// The border pieces of the tile whose north-west cell is `[i, j]`, on a floor of
/// `width × height` cells, whose tiles are those with `i < width - 1` and `j < height - 1`.
pub fn border_pieces(width: usize, height: usize, i: usize, j: usize) -> (res: BorderPieces)
    requires
        i + 1 < width,
        j + 1 < height,
    ensures
        res.north == (j == 0),
        res.north_west == (j == 0 && i == 0),
        res.north_east == (j == 0 && i == width - 2),
        res.south == (j == height - 2),
        res.south_west == (j == height - 2 && i == 0),
        res.south_east == (j == height - 2 && i == width - 2),
        res.west == (i == 0),
        res.east == (i == width - 2),
{
    let north = j == 0;
    let south = j == height - 2;
    let west = i == 0;
    let east = i == width - 2;
    BorderPieces {
        north,
        north_west: north && west,
        north_east: north && east,
        south,
        south_west: south && west,
        south_east: south && east,
        west,
        east,
    }
}

/// The atlas cell `offset` away from the cell `base`, in tiles.
pub fn offset_coords(base: [u8; 2], offset: [u8; 2]) -> (res: [u8; 2])
    requires
        base[0] + offset[0] <= u8::MAX,
        base[1] + offset[1] <= u8::MAX,
    ensures
        res[0] == base[0] + offset[0],
        res[1] == base[1] + offset[1],
{
    [base[0] + offset[0], base[1] + offset[1]]
}

} // verus!
