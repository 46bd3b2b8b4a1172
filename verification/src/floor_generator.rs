use vstd::prelude::*;
use crate::floor_data::{
    is_open, EditableFloorData, FloorCellExtra, FloorGraphicsTileGroup, FloorTiles, WallGraphicsTileGroup,
};
use crate::grid_math::{
    all_connected, connected, get_island_mapping, in_grid, inward_order, island_colors,
    lemma_inward_visits_every_cell_once, open_cell, traverse_area_inward,
};
use crate::effect_mechanics::ConfigId;
use crate::floor_configs::{
    build_module_order, build_modules, edge_masks, fill_modules, fill_ok, find_part, lookup_part,
    module_order, select_adjacency, selected, slot, AuthoredFloor, FloorConfig,
    FloorPartAdjacencyConfig, FloorPartConfig, FloorVariant, GeneratedFloor,
};
use crate::assets::{AssetDb, AssetKind};
use vstd::arithmetic::div_mod::lemma_fundamental_div_mod_converse;

verus! {

/// A generated floor of one of the supported sizes.
pub enum FloorGeneratorResult {
    Size15x15(FloorTiles),
    Size20x20(FloorTiles),
    Size25x25(FloorTiles),
    Size30x30(FloorTiles),
    Size40x40(FloorTiles),
    Size60x60(FloorTiles),
    Size80x80(FloorTiles),
}

/// `y * side + x` addresses distinct cells for distinct coordinates.
pub proof fn lemma_cell_index(side: int, x: int, y: int, x2: int, y2: int)
    requires
        0 <= x < side,
        0 <= y < side,
        0 <= x2 < side,
        0 <= y2 < side,
    ensures
        0 <= y * side + x < side * side,
        (y * side + x == y2 * side + x2) <==> (x == x2 && y == y2),
{
    assert(0 <= y * side + x < side * side) by (nonlinear_arith)
        requires
            0 <= x < side,
            0 <= y < side,
    ;
    assert((y * side + x == y2 * side + x2) ==> (x == x2 && y == y2)) by (nonlinear_arith)
        requires
            0 <= x < side,
            0 <= x2 < side,
            0 <= y,
            0 <= y2,
    ;
}

/// A cell of a `w × h` grid has its index inside the grid.
pub proof fn lemma_cell_index_bound(w: int, h: int, x: int, y: int)
    requires
        0 <= x < w,
        0 <= y < h,
    ensures
        0 <= y * w + x < w * h,
{
    assert(0 <= y * w + x < w * h) by (nonlinear_arith)
        requires
            0 <= x < w,
            0 <= y < h,
    ;
}

impl FloorGeneratorResult {
    /// The cells of the floor.
    pub open spec fn tiles(&self) -> FloorTiles {
        match self {
            FloorGeneratorResult::Size15x15(d) => *d,
            FloorGeneratorResult::Size20x20(d) => *d,
            FloorGeneratorResult::Size25x25(d) => *d,
            FloorGeneratorResult::Size30x30(d) => *d,
            FloorGeneratorResult::Size40x40(d) => *d,
            FloorGeneratorResult::Size60x60(d) => *d,
            FloorGeneratorResult::Size80x80(d) => *d,
        }
    }

    /// The side length that the variant stands for.
    pub open spec fn side(&self) -> nat {
        match self {
            FloorGeneratorResult::Size15x15(_) => 15,
            FloorGeneratorResult::Size20x20(_) => 20,
            FloorGeneratorResult::Size25x25(_) => 25,
            FloorGeneratorResult::Size30x30(_) => 30,
            FloorGeneratorResult::Size40x40(_) => 40,
            FloorGeneratorResult::Size60x60(_) => 60,
            FloorGeneratorResult::Size80x80(_) => 80,
        }
    }

    fn tiles_ref(&self) -> (t: &FloorTiles)
        ensures
            *t == self.tiles(),
    {
        match self {
            FloorGeneratorResult::Size15x15(d) => d,
            FloorGeneratorResult::Size20x20(d) => d,
            FloorGeneratorResult::Size25x25(d) => d,
            FloorGeneratorResult::Size30x30(d) => d,
            FloorGeneratorResult::Size40x40(d) => d,
            FloorGeneratorResult::Size60x60(d) => d,
            FloorGeneratorResult::Size80x80(d) => d,
        }
    }

    fn tiles_mut(&mut self) -> (t: &mut FloorTiles)
        ensures
            *t == old(self).tiles(),
            final(self).tiles() == *final(t),
            final(self).side() == old(self).side(),
    {
        match self {
            FloorGeneratorResult::Size15x15(d) => d,
            FloorGeneratorResult::Size20x20(d) => d,
            FloorGeneratorResult::Size25x25(d) => d,
            FloorGeneratorResult::Size30x30(d) => d,
            FloorGeneratorResult::Size40x40(d) => d,
            FloorGeneratorResult::Size60x60(d) => d,
            FloorGeneratorResult::Size80x80(d) => d,
        }
    }

    /// The cell layers match the variant's size.
    pub open spec fn layers_ok(&self) -> bool {
        &&& self.tiles().side == self.side()
        &&& self.tiles().tiles_ok()
    }

    /// Wall layer of the floor, row after row.
    pub open spec fn walls(&self) -> Seq<WallGraphicsTileGroup> {
        self.tiles().wall_data@
    }

    /// Floor layer of the floor, row after row.
    pub open spec fn floors(&self) -> Seq<FloorGraphicsTileGroup> {
        self.tiles().floor_data@
    }
}

impl EditableFloorData for FloorGeneratorResult {
    open spec fn floor_width(&self) -> nat {
        self.side()
    }

    open spec fn floor_height(&self) -> nat {
        self.side()
    }

    open spec fn floor_ok(&self) -> bool {
        self.layers_ok()
    }

    open spec fn wall_at(&self, x: int, y: int) -> WallGraphicsTileGroup {
        if 0 <= x < self.side() && 0 <= y < self.side() {
            self.walls()[y * self.side() + x]
        } else {
            WallGraphicsTileGroup::Sandstone
        }
    }

    open spec fn floor_at(&self, x: int, y: int) -> FloorGraphicsTileGroup {
        if 0 <= x < self.side() && 0 <= y < self.side() {
            self.floors()[y * self.side() + x]
        } else {
            FloorGraphicsTileGroup::Dirt
        }
    }

    open spec fn extra_at(&self, x: int, y: int) -> FloorCellExtra {
        if 0 <= x < self.side() && 0 <= y < self.side() {
            self.tiles().extra_data@[y * self.side() + x]
        } else {
            FloorCellExtra::NoExtra
        }
    }

    fn width(&self) -> (w: usize) {
        match self {
            FloorGeneratorResult::Size15x15(_) => 15,
            FloorGeneratorResult::Size20x20(_) => 20,
            FloorGeneratorResult::Size25x25(_) => 25,
            FloorGeneratorResult::Size30x30(_) => 30,
            FloorGeneratorResult::Size40x40(_) => 40,
            FloorGeneratorResult::Size60x60(_) => 60,
            FloorGeneratorResult::Size80x80(_) => 80,
        }
    }

    fn height(&self) -> (h: usize) {
        match self {
            FloorGeneratorResult::Size15x15(_) => 15,
            FloorGeneratorResult::Size20x20(_) => 20,
            FloorGeneratorResult::Size25x25(_) => 25,
            FloorGeneratorResult::Size30x30(_) => 30,
            FloorGeneratorResult::Size40x40(_) => 40,
            FloorGeneratorResult::Size60x60(_) => 60,
            FloorGeneratorResult::Size80x80(_) => 80,
        }
    }

    fn get_floor_data(&self, coords: [usize; 2]) -> (t: FloorGraphicsTileGroup) {
        let d = self.tiles_ref();
        proof {
            lemma_cell_index(d.side as int, coords[0] as int, coords[1] as int, 0, 0);
        }
        d.floor_data[coords[1] * d.side + coords[0]]
    }

    fn set_floor_data(&mut self, coords: [usize; 2], t: FloorGraphicsTileGroup) {
        let ghost before = *self;
        let side = self.width();
        let d = self.tiles_mut();
        proof {
            lemma_cell_index(side as int, coords[0] as int, coords[1] as int, 0, 0);
        }
        d.floor_data.set(coords[1] * side + coords[0], t);
        proof {
            assert forall|x: int, y: int|
                #![trigger self.floor_at(x, y)]
                self.floor_at(x, y) == if x == coords[0] && y == coords[1] {
                    t
                } else {
                    before.floor_at(x, y)
                } by {
                if 0 <= x < side && 0 <= y < side {
                    lemma_cell_index(side as int, x, y, coords[0] as int, coords[1] as int);
                }
            }
        }
    }

    fn get_wall_data(&self, coords: [usize; 2]) -> (t: WallGraphicsTileGroup) {
        let d = self.tiles_ref();
        proof {
            lemma_cell_index(d.side as int, coords[0] as int, coords[1] as int, 0, 0);
        }
        d.wall_data[coords[1] * d.side + coords[0]]
    }

    fn set_wall_data(&mut self, coords: [usize; 2], t: WallGraphicsTileGroup) {
        let ghost before = *self;
        let side = self.width();
        let d = self.tiles_mut();
        proof {
            lemma_cell_index(side as int, coords[0] as int, coords[1] as int, 0, 0);
        }
        d.wall_data.set(coords[1] * side + coords[0], t);
        proof {
            assert forall|x: int, y: int|
                #![trigger self.wall_at(x, y)]
                self.wall_at(x, y) == if x == coords[0] && y == coords[1] {
                    t
                } else {
                    before.wall_at(x, y)
                } by {
                if 0 <= x < side && 0 <= y < side {
                    lemma_cell_index(side as int, x, y, coords[0] as int, coords[1] as int);
                }
            }
        }
    }

    fn get_cell_extra_data(&self, coords: [usize; 2]) -> (t: FloorCellExtra) {
        let d = self.tiles_ref();
        proof {
            lemma_cell_index(d.side as int, coords[0] as int, coords[1] as int, 0, 0);
        }
        d.extra_data[coords[1] * d.side + coords[0]]
    }

    fn set_cell_extra_data(&mut self, coords: [usize; 2], t: FloorCellExtra) {
        let ghost before = *self;
        let side = self.width();
        let d = self.tiles_mut();
        proof {
            lemma_cell_index(side as int, coords[0] as int, coords[1] as int, 0, 0);
        }
        d.extra_data.set(coords[1] * side + coords[0], t);
        proof {
            assert forall|x: int, y: int|
                #![trigger self.extra_at(x, y)]
                self.extra_at(x, y) == if x == coords[0] && y == coords[1] {
                    t
                } else {
                    before.extra_at(x, y)
                } by {
                if 0 <= x < side && 0 <= y < side {
                    lemma_cell_index(side as int, x, y, coords[0] as int, coords[1] as int);
                }
            }
        }
    }
}


// ---------------------------------------------------------------------------
// Connecting islands.
// ---------------------------------------------------------------------------

/// Number of cells that hold a wall.
pub open spec fn wall_count(walls: Seq<WallGraphicsTileGroup>) -> nat
    decreases walls.len(),
{
    if walls.len() == 0 {
        0
    } else {
        wall_count(walls.drop_last()) + if walls.last() is NoWall {
            0nat
        } else {
            1nat
        }
    }
}

proof fn lemma_wall_count_clear(walls: Seq<WallGraphicsTileGroup>, k: int)
    requires
        0 <= k < walls.len(),
    ensures
        wall_count(walls.update(k, WallGraphicsTileGroup::NoWall)) + (if walls[k] is NoWall {
            0nat
        } else {
            1nat
        }) == wall_count(walls),
    decreases walls.len(),
{
    let t = walls.update(k, WallGraphicsTileGroup::NoWall);
    if k == walls.len() - 1 {
        assert(t.drop_last() =~= walls.drop_last());
    } else {
        assert(t.drop_last() =~= walls.drop_last().update(k, WallGraphicsTileGroup::NoWall));
        lemma_wall_count_clear(walls.drop_last(), k);
    }
}

/// The four directions on a floor's grid; north is towards row 0, west towards column 0.
#[derive(Clone, Copy, Debug, PartialEq, Eq, Structural)]
pub enum WayDirection {
    North,
    South,
    West,
    East,
}

/// How far a way in direction `dir` can reach from `(x, y)` inside a `side × side` floor.
pub open spec fn way_limit(side: int, x: int, y: int, dir: WayDirection) -> int {
    match dir {
        WayDirection::North => y,
        WayDirection::South => side - 1 - y,
        WayDirection::West => x,
        WayDirection::East => side - 1 - x,
    }
}

/// The cell at distance `k` from `(x, y)` in direction `dir`.
pub open spec fn way_cell(x: int, y: int, dir: WayDirection, k: int) -> (int, int) {
    match dir {
        WayDirection::North => (x, y - k),
        WayDirection::South => (x, y + k),
        WayDirection::West => (x - k, y),
        WayDirection::East => (x + k, y),
    }
}

/// Index of a cell in a row-major map of a `side × side` floor.
pub open spec fn cell_index(side: int, p: (int, int)) -> int {
    p.1 * side + p.0
}

/// Looks from `(x, y)` in direction `dir` for the nearest cell that belongs to an island,
/// and returns its distance and color.
pub fn find_way(mapping: &Vec<Option<usize>>, side: usize, x: usize, y: usize, dir: WayDirection) -> (res:
    Option<(u8, usize)>)
    requires
        side <= 255,
        x < side,
        y < side,
        mapping@.len() == side * side,
    ensures
        match res {
            Some((n, c)) => {
                &&& 1 <= n <= way_limit(side as int, x as int, y as int, dir)
                &&& mapping@[cell_index(side as int, way_cell(x as int, y as int, dir, n as int))]
                    == Some(c)
                &&& forall|k: int|
                    1 <= k < n ==> (#[trigger] mapping@[cell_index(
                        side as int,
                        way_cell(x as int, y as int, dir, k),
                    )]) is None
            },
            None => forall|k: int|
                1 <= k <= way_limit(side as int, x as int, y as int, dir) ==> (#[trigger] mapping@[cell_index(
                    side as int,
                    way_cell(x as int, y as int, dir, k),
                )]) is None,
        },
{
    let limit = match dir {
        WayDirection::North => y,
        WayDirection::South => side - 1 - y,
        WayDirection::West => x,
        WayDirection::East => side - 1 - x,
    };
    let mut k: usize = 1;
    while k <= limit
        invariant
            side <= 255,
            x < side,
            y < side,
            mapping@.len() == side * side,
            limit == way_limit(side as int, x as int, y as int, dir),
            1 <= k <= limit + 1,
            forall|kk: int|
                1 <= kk < k ==> (#[trigger] mapping@[cell_index(
                    side as int,
                    way_cell(x as int, y as int, dir, kk),
                )]) is None,
        decreases limit + 1 - k,
    {
        let (cx, cy) = match dir {
            WayDirection::North => (x, y - k),
            WayDirection::South => (x, y + k),
            WayDirection::West => (x - k, y),
            WayDirection::East => (x + k, y),
        };
        proof {
            lemma_cell_index_bound(side as int, side as int, cx as int, cy as int);
            assert(side * side <= 255 * 255) by (nonlinear_arith)
                requires
                    side <= 255,
            ;
            assert(cy * side <= cy * side + cx);
        }
        if let Some(color) = mapping[cy * side + cx] {
            return Some((k as u8, color));
        }
        k += 1;
    }
    None
}

/// A closed cell from which ways lead to up to four islands.
pub struct CrossRoadCorner {
    pub x: usize,
    pub y: usize,
    pub north_way: Option<(u8, usize)>,
    pub south_way: Option<(u8, usize)>,
    pub west_way: Option<(u8, usize)>,
    pub east_way: Option<(u8, usize)>,
}

/// The colors of the ways that exist, in the order north, south, west, east.
pub open spec fn way_colors(c: CrossRoadCorner) -> Seq<usize> {
    let n = match c.north_way {
        Some((_, col)) => seq![col],
        None => seq![],
    };
    let s = match c.south_way {
        Some((_, col)) => seq![col],
        None => seq![],
    };
    let w = match c.west_way {
        Some((_, col)) => seq![col],
        None => seq![],
    };
    let e = match c.east_way {
        Some((_, col)) => seq![col],
        None => seq![],
    };
    n + s + w + e
}

/// Length of a way, zero when there is none.
pub open spec fn way_length(way: Option<(u8, usize)>) -> int {
    match way {
        Some((n, _)) => n as int,
        None => 0,
    }
}

/// Number of distinct values in a sequence.
pub open spec fn distinct_count(s: Seq<usize>) -> nat
    decreases s.len(),
{
    if s.len() == 0 {
        0
    } else {
        distinct_count(s.drop_last()) + if s.drop_last().contains(s.last()) {
            0nat
        } else {
            1nat
        }
    }
}

fn way_length_of(way: Option<(u8, usize)>) -> (r: u8)
    ensures
        r == way_length(way),
{
    match way {
        Some((n, _)) => n,
        None => 0,
    }
}

fn max_u8(a: u8, b: u8) -> (r: u8)
    ensures
        r == if a >= b {
            a
        } else {
            b
        },
{
    if a >= b {
        a
    } else {
        b
    }
}

impl CrossRoadCorner {
    /// Number of distinct islands that the ways reach.
    pub fn unique_way_count(&self) -> (r: u8)
        ensures
            r == distinct_count(way_colors(*self)),
    {
        let mut color_buffer: Vec<usize> = Vec::new();
        let ghost mut seen: Seq<usize> = seq![];
        let ways = [self.north_way, self.south_way, self.west_way, self.east_way];
        let mut k: usize = 0;
        while k < 4
            invariant
                0 <= k <= 4,
                ways@ == seq![self.north_way, self.south_way, self.west_way, self.east_way],
                color_buffer@.len() <= k,
                seen == way_colors_prefix(ways@, k as int),
                color_buffer@.len() == distinct_count(seen),
                forall|c: usize| color_buffer@.contains(c) <==> seen.contains(c),
            decreases 4 - k,
        {
            if let Some((_, color)) = ways[k] {
                let known = vec_contains_usize(&color_buffer, color);
                let ghost seen_before = seen;
                proof {
                    assert(way_colors_prefix(ways@, k + 1) =~= seen.push(color));
                    assert(seen.push(color).drop_last() =~= seen);
                    seen = seen.push(color);
                }
                let ghost buf_before = color_buffer@;
                if !known {
                    color_buffer.push(color);
                }
                proof {
                    assert forall|c: usize| color_buffer@.contains(c) <==> seen.contains(c) by {
                        if color_buffer@.contains(c) && c != color {
                            let j = choose|j: int| 0 <= j < color_buffer@.len() && color_buffer@[j] == c;
                            assert(buf_before[j] == c);
                            assert(buf_before.contains(c));
                            assert(seen_before.contains(c));
                            let j2 = choose|j: int| 0 <= j < seen_before.len() && seen_before[j] == c;
                            assert(seen[j2] == c);
                        }
                        if seen.contains(c) && c != color {
                            let j = choose|j: int| 0 <= j < seen.len() && seen[j] == c;
                            assert(seen_before[j] == c);
                            assert(seen_before.contains(c));
                            assert(buf_before.contains(c));
                            let j2 = choose|j: int| 0 <= j < buf_before.len() && buf_before[j] == c;
                            assert(color_buffer@[j2] == c);
                        }
                        if c == color && !known {
                            assert(color_buffer@[color_buffer@.len() - 1] == c);
                        }
                        if c == color {
                            assert(seen[seen.len() - 1] == c);
                        }
                    }
                }
            } else {
                proof {
                    assert(way_colors_prefix(ways@, k + 1) =~= seen);
                }
            }
            k += 1;
        }
        proof {
            lemma_way_colors_prefix(*self);
        }
        color_buffer.len() as u8
    }

    /// Length of the longest way.
    pub fn max_way_length(&self) -> (r: u8)
        ensures
            r >= way_length(self.north_way),
            r >= way_length(self.south_way),
            r >= way_length(self.west_way),
            r >= way_length(self.east_way),
            r == way_length(self.north_way) || r == way_length(self.south_way) || r == way_length(
                self.west_way,
            ) || r == way_length(self.east_way),
    {
        max_u8(
            max_u8(
                max_u8(way_length_of(self.north_way), way_length_of(self.south_way)),
                way_length_of(self.west_way),
            ),
            way_length_of(self.east_way),
        )
    }

    /// `self` reaches fewer islands than `other`, or needs a longer way.
    pub fn is_worse_than(&self, other: &Self) -> (r: bool)
        ensures
            r == (distinct_count(way_colors(*self)) < distinct_count(way_colors(*other))
                || max_way_len(*self) > max_way_len(*other)),
    {
        self.unique_way_count() < other.unique_way_count() || self.max_way_length()
            > other.max_way_length()
    }
}

/// Length of the longest way of a corner.
pub open spec fn max_way_len(c: CrossRoadCorner) -> int {
    let a = way_length(c.north_way);
    let b = way_length(c.south_way);
    let d = way_length(c.west_way);
    let e = way_length(c.east_way);
    let ab = if a >= b {
        a
    } else {
        b
    };
    let abd = if ab >= d {
        ab
    } else {
        d
    };
    if abd >= e {
        abd
    } else {
        e
    }
}

/// The colors of the first `k` of the given ways that exist.
spec fn way_colors_prefix(ways: Seq<Option<(u8, usize)>>, k: int) -> Seq<usize>
    decreases k,
{
    if k <= 0 {
        seq![]
    } else {
        way_colors_prefix(ways, k - 1) + match ways[k - 1] {
            Some((_, col)) => seq![col],
            None => seq![],
        }
    }
}

proof fn lemma_way_colors_prefix(c: CrossRoadCorner)
    ensures
        way_colors_prefix(seq![c.north_way, c.south_way, c.west_way, c.east_way], 4)
            =~= way_colors(c),
{
    let ways = seq![c.north_way, c.south_way, c.west_way, c.east_way];
    assert(way_colors_prefix(ways, 0) =~= seq![]);
    reveal_with_fuel(way_colors_prefix, 5);
}

fn vec_contains_usize(v: &Vec<usize>, x: usize) -> (r: bool)
    ensures
        r == v@.contains(x),
{
    let mut k: usize = 0;
    while k < v.len()
        invariant
            k <= v.len(),
            forall|j: int| 0 <= j < k ==> v@[j] != x,
        decreases v.len() - k,
    {
        if v[k] == x {
            assert(v@[k as int] == x);
            return true;
        }
        k += 1;
    }
    false
}

/// A closed cell with its ways, all inside a `side × side` floor.
pub open spec fn corner_ok(c: CrossRoadCorner, side: int, mapping: Seq<Option<usize>>) -> bool {
    &&& c.x < side
    &&& c.y < side
    &&& mapping[cell_index(side, (c.x as int, c.y as int))] is None
    &&& way_ok(c.north_way, side, c.x as int, c.y as int, WayDirection::North)
    &&& way_ok(c.south_way, side, c.x as int, c.y as int, WayDirection::South)
    &&& way_ok(c.west_way, side, c.x as int, c.y as int, WayDirection::West)
    &&& way_ok(c.east_way, side, c.x as int, c.y as int, WayDirection::East)
}

/// A way, if any, stays inside the floor.
pub open spec fn way_ok(way: Option<(u8, usize)>, side: int, x: int, y: int, dir: WayDirection) -> bool {
    match way {
        Some((n, _)) => 1 <= n <= way_limit(side, x, y, dir),
        None => true,
    }
}

/// The cell at distance `k` from `(x, y)` in direction `dir` is the first cell of an
/// island met on the way.
pub open spec fn first_seen(mapping: Seq<Option<usize>>, side: int, x: int, y: int, dir: WayDirection, k: int) -> bool {
    &&& 1 <= k <= way_limit(side, x, y, dir)
    &&& mapping[cell_index(side, way_cell(x, y, dir, k))] is Some
    &&& forall|k2: int|
        1 <= k2 < k ==> (#[trigger] mapping[cell_index(side, way_cell(x, y, dir, k2))]) is None
}

/// All the islands that `(x, y)` sees first along its four ways have the same color.
pub open spec fn sees_one_color(mapping: Seq<Option<usize>>, side: int, x: int, y: int) -> bool {
    forall|d1: WayDirection, k1: int, d2: WayDirection, k2: int|
        #![trigger first_seen(mapping, side, x, y, d1, k1), first_seen(mapping, side, x, y, d2, k2)]
        first_seen(mapping, side, x, y, d1, k1) && first_seen(mapping, side, x, y, d2, k2)
            ==> mapping[cell_index(side, way_cell(x, y, d1, k1))] == mapping[cell_index(
            side,
            way_cell(x, y, d2, k2),
        )]
}

proof fn lemma_first_seen_unique(
    mapping: Seq<Option<usize>>,
    side: int,
    x: int,
    y: int,
    dir: WayDirection,
    found: Option<(u8, usize)>,
    k: int,
)
    requires
        match found {
            Some((n, c)) => {
                &&& 1 <= n <= way_limit(side, x, y, dir)
                &&& mapping[cell_index(side, way_cell(x, y, dir, n as int))] == Some(c)
                &&& forall|k: int|
                    1 <= k < n ==> (#[trigger] mapping[cell_index(side, way_cell(x, y, dir, k))]) is None
            },
            None => forall|k: int|
                1 <= k <= way_limit(side, x, y, dir) ==> (#[trigger] mapping[cell_index(
                    side,
                    way_cell(x, y, dir, k),
                )]) is None,
        },
        first_seen(mapping, side, x, y, dir, k),
    ensures
        found matches Some((n, c)) && n == k && mapping[cell_index(side, way_cell(x, y, dir, k))] == Some(c),
{
    match found {
        Some((n, c)) => {
            if (n as int) < k {
                assert(mapping[cell_index(side, way_cell(x, y, dir, n as int))] is None);
            } else if k < n {
                assert(mapping[cell_index(side, way_cell(x, y, dir, k))] is None);
            }
        },
        None => {
            assert(mapping[cell_index(side, way_cell(x, y, dir, k))] is None);
        },
    }
}

/// The nearest island on the way from `(x, y)` in direction `dir`: its distance and color.
pub open spec fn way_found(
    mapping: Seq<Option<usize>>,
    side: int,
    x: int,
    y: int,
    dir: WayDirection,
) -> Option<(u8, usize)> {
    if exists|k: int| first_seen(mapping, side, x, y, dir, k) {
        let k = choose|k: int| first_seen(mapping, side, x, y, dir, k);
        Some((k as u8, mapping[cell_index(side, way_cell(x, y, dir, k))].unwrap()))
    } else {
        None
    }
}

/// What [`find_way`] returns is the nearest island on the way.
proof fn lemma_way_found(
    mapping: Seq<Option<usize>>,
    side: int,
    x: int,
    y: int,
    dir: WayDirection,
    found: Option<(u8, usize)>,
)
    requires
        match found {
            Some((n, c)) => {
                &&& 1 <= n <= way_limit(side, x, y, dir)
                &&& mapping[cell_index(side, way_cell(x, y, dir, n as int))] == Some(c)
                &&& forall|k: int|
                    1 <= k < n ==> (#[trigger] mapping[cell_index(side, way_cell(x, y, dir, k))]) is None
            },
            None => forall|k: int|
                1 <= k <= way_limit(side, x, y, dir) ==> (#[trigger] mapping[cell_index(
                    side,
                    way_cell(x, y, dir, k),
                )]) is None,
        },
    ensures
        found == way_found(mapping, side, x, y, dir),
{
    match found {
        Some((n, c)) => {
            assert(first_seen(mapping, side, x, y, dir, n as int));
            let k = choose|k: int| first_seen(mapping, side, x, y, dir, k);
            lemma_first_seen_unique(mapping, side, x, y, dir, found, k);
        },
        None => {
            if exists|k: int| first_seen(mapping, side, x, y, dir, k) {
                let k = choose|k: int| first_seen(mapping, side, x, y, dir, k);
                lemma_first_seen_unique(mapping, side, x, y, dir, found, k);
            }
        },
    }
}

/// The corner `c` after the way `found` in direction `dir` is taken, where its island is
/// not among the `known` ones.
pub open spec fn with_way(
    c: CrossRoadCorner,
    known: Seq<usize>,
    found: Option<(u8, usize)>,
    dir: WayDirection,
) -> CrossRoadCorner {
    match found {
        Some((n, col)) => if known.contains(col) {
            c
        } else {
            match dir {
                WayDirection::North => CrossRoadCorner { north_way: Some((n, col)), ..c },
                WayDirection::South => CrossRoadCorner { south_way: Some((n, col)), ..c },
                WayDirection::West => CrossRoadCorner { west_way: Some((n, col)), ..c },
                WayDirection::East => CrossRoadCorner { east_way: Some((n, col)), ..c },
            }
        },
        None => c,
    }
}

/// The islands known after the way `found` is looked at.
pub open spec fn with_known(known: Seq<usize>, found: Option<(u8, usize)>) -> Seq<usize> {
    match found {
        Some((_, col)) => if known.contains(col) {
            known
        } else {
            known.push(col)
        },
        None => known,
    }
}

/// The corner that the closed cell `(x, y)` makes: the nearest island along each way, in
/// the order north, south, west, east, each island taken once.
pub open spec fn corner_at(mapping: Seq<Option<usize>>, side: int, x: int, y: int) -> CrossRoadCorner {
    let c0 = CrossRoadCorner {
        x: x as usize,
        y: y as usize,
        north_way: None,
        south_way: None,
        west_way: None,
        east_way: None,
    };
    let k0 = Seq::<usize>::empty();
    let f1 = way_found(mapping, side, x, y, WayDirection::North);
    let c1 = with_way(c0, k0, f1, WayDirection::North);
    let k1 = with_known(k0, f1);
    let f2 = way_found(mapping, side, x, y, WayDirection::South);
    let c2 = with_way(c1, k1, f2, WayDirection::South);
    let k2 = with_known(k1, f2);
    let f3 = way_found(mapping, side, x, y, WayDirection::West);
    let c3 = with_way(c2, k2, f3, WayDirection::West);
    let k3 = with_known(k2, f3);
    let f4 = way_found(mapping, side, x, y, WayDirection::East);
    with_way(c3, k3, f4, WayDirection::East)
}

/// Corner `a` reaches fewer islands than `b`, or needs a longer way.
pub open spec fn corner_worse(a: CrossRoadCorner, b: CrossRoadCorner) -> bool {
    distinct_count(way_colors(a)) < distinct_count(way_colors(b)) || max_way_len(a) > max_way_len(b)
}

/// The choice after looking at cell `(x, y)`: a closed cell whose ways reach at least two
/// islands replaces the choice so far when there is none yet or the current one is worse.
pub open spec fn consider(
    best: Option<CrossRoadCorner>,
    mapping: Seq<Option<usize>>,
    side: int,
    x: int,
    y: int,
) -> Option<CrossRoadCorner> {
    if mapping[cell_index(side, (x, y))] is Some {
        best
    } else {
        let c = corner_at(mapping, side, x, y);
        if distinct_count(way_colors(c)) < 2 {
            best
        } else {
            match best {
                None => Some(c),
                Some(b) => if corner_worse(b, c) {
                    Some(c)
                } else {
                    best
                },
            }
        }
    }
}

/// The choice after the rows above row `j` and the first `i` cells of row `j`.
pub open spec fn best_at(mapping: Seq<Option<usize>>, side: int, j: int, i: int) -> Option<CrossRoadCorner>
    decreases j, i,
{
    if i > 0 {
        consider(best_at(mapping, side, j, i - 1), mapping, side, i - 1, j)
    } else if j > 0 {
        best_at(mapping, side, j - 1, side)
    } else {
        None
    }
}

/// The closed cell that best joins islands, with its ways: scanned row by row, the first
/// cell whose ways reach at least two islands, replaced by each later one that the current
/// choice is worse than.
pub open spec fn best_corner(mapping: Seq<Option<usize>>, side: int) -> Option<CrossRoadCorner> {
    best_at(mapping, side, side, 0)
}

/// The closed cell `(x, y)` has ways that reach at least two islands.
pub open spec fn is_candidate(mapping: Seq<Option<usize>>, side: int, x: int, y: int) -> bool {
    &&& 0 <= x < side
    &&& 0 <= y < side
    &&& mapping[cell_index(side, (x, y))] is None
    &&& distinct_count(way_colors(corner_at(mapping, side, x, y))) >= 2
}

/// Cell `(x, y)` is among the rows above row `j` and the first `i` cells of row `j`.
spec fn scanned(side: int, j: int, i: int, x: int, y: int) -> bool {
    0 <= x < side && 0 <= y && (y < j || (y == j && x < i))
}

/// Cell `(x, y)` comes after cell `(a, b)` in row-by-row order.
pub open spec fn scanned_after(a: int, b: int, x: int, y: int) -> bool {
    y > b || (y == b && x > a)
}

proof fn lemma_best_at(mapping: Seq<Option<usize>>, side: int, j: int, i: int)
    requires
        0 < side <= 255,
        0 <= j,
        0 <= i <= side,
        j < side || (j == side && i == 0),
    ensures
        best_at(mapping, side, j, i) is None ==> forall|x: int, y: int|
            scanned(side, j, i, x, y) ==> !#[trigger] is_candidate(mapping, side, x, y),
        best_at(mapping, side, j, i) matches Some(c) ==> {
            &&& scanned(side, j, i, c.x as int, c.y as int)
            &&& is_candidate(mapping, side, c.x as int, c.y as int)
            &&& c == corner_at(mapping, side, c.x as int, c.y as int)
            &&& forall|x: int, y: int|
                scanned(side, j, i, x, y) && scanned_after(c.x as int, c.y as int, x, y)
                    && #[trigger] is_candidate(mapping, side, x, y) ==> !corner_worse(
                    c,
                    corner_at(mapping, side, x, y),
                )
        },
    decreases j, i,
{
    if i > 0 {
        lemma_best_at(mapping, side, j, i - 1);
        let prev = best_at(mapping, side, j, i - 1);
        let x0 = i - 1;
        let y0 = j;
        assert forall|x: int, y: int| scanned(side, j, i, x, y) implies scanned(side, j, i - 1, x, y) || (x
            == x0 && y == y0) by {}
        let c = corner_at(mapping, side, x0, y0);
        assert(c.x as int == x0 && c.y as int == y0);
    } else if j > 0 {
        lemma_best_at(mapping, side, j - 1, side);
        assert forall|x: int, y: int| scanned(side, j, 0, x, y) implies scanned(side, j - 1, side, x, y) by {}
    }
}

/// Law: the cross-road corner chosen to join islands is a closed cell whose ways reach at
/// least two islands, and no such cell scanned after it, row by row, reaches more islands
/// or gets by with a shorter longest way; where no closed cell's ways reach two islands,
/// none is chosen.
pub proof fn lemma_best_corner_is_not_beaten_later(mapping: Seq<Option<usize>>, side: int)
    requires
        0 < side <= 255,
    ensures
        best_corner(mapping, side) is None ==> forall|x: int, y: int|
            !#[trigger] is_candidate(mapping, side, x, y),
        best_corner(mapping, side) matches Some(c) ==> {
            &&& is_candidate(mapping, side, c.x as int, c.y as int)
            &&& c == corner_at(mapping, side, c.x as int, c.y as int)
            &&& forall|x: int, y: int|
                scanned_after(c.x as int, c.y as int, x, y) && #[trigger] is_candidate(mapping, side, x, y)
                    ==> distinct_count(way_colors(c)) >= distinct_count(
                    way_colors(corner_at(mapping, side, x, y)),
                ) && max_way_len(c) <= max_way_len(corner_at(mapping, side, x, y))
        },
{
    lemma_best_at(mapping, side, side, 0);
    assert forall|x: int, y: int| is_candidate(mapping, side, x, y) implies scanned(side, side, 0, x, y) by {}
}

proof fn lemma_distinct_count_no_duplicates(s: Seq<usize>)
    requires
        s.no_duplicates(),
    ensures
        distinct_count(s) == s.len(),
    decreases s.len(),
{
    if s.len() > 0 {
        assert(s.drop_last().no_duplicates());
        lemma_distinct_count_no_duplicates(s.drop_last());
        if s.drop_last().contains(s.last()) {
            let j = choose|j: int| 0 <= j < s.drop_last().len() && s.drop_last()[j] == s.last();
            assert(s[j] == s[s.len() - 1]);
        }
    }
}

/// Adds the way that `find_way` found in direction `dir` to `corner`, where its island is
/// not among the `known` ones yet.
fn add_way(
    corner: &mut CrossRoadCorner,
    known: &mut Vec<usize>,
    found: Option<(u8, usize)>,
    dir: WayDirection,
)
    requires
        old(known)@.no_duplicates(),
        way_colors(*old(corner)) == old(known)@,
        match dir {
            WayDirection::North => old(corner).north_way is None && old(corner).south_way is None
                && old(corner).west_way is None && old(corner).east_way is None,
            WayDirection::South => old(corner).south_way is None && old(corner).west_way is None
                && old(corner).east_way is None,
            WayDirection::West => old(corner).west_way is None && old(corner).east_way is None,
            WayDirection::East => old(corner).east_way is None,
        },
    ensures
        final(known)@.no_duplicates(),
        way_colors(*final(corner)) == final(known)@,
        *final(corner) == with_way(*old(corner), old(known)@, found, dir),
        final(known)@ == with_known(old(known)@, found),
        forall|c: usize| #[trigger] old(known)@.contains(c) ==> final(known)@.contains(c),
        found matches Some((_, c)) ==> final(known)@.contains(c),
        final(corner).x == old(corner).x,
        final(corner).y == old(corner).y,
        dir != WayDirection::North ==> final(corner).north_way == old(corner).north_way,
        dir != WayDirection::South ==> final(corner).south_way == old(corner).south_way,
        dir != WayDirection::West ==> final(corner).west_way == old(corner).west_way,
        dir != WayDirection::East ==> final(corner).east_way == old(corner).east_way,
        dir == WayDirection::North ==> final(corner).north_way is None || final(corner).north_way == found,
        dir == WayDirection::South ==> final(corner).south_way is None || final(corner).south_way == found,
        dir == WayDirection::West ==> final(corner).west_way is None || final(corner).west_way == found,
        dir == WayDirection::East ==> final(corner).east_way is None || final(corner).east_way == found,
        match dir {
            WayDirection::North => final(corner).south_way is None && final(corner).west_way is None
                && final(corner).east_way is None,
            WayDirection::South => final(corner).west_way is None && final(corner).east_way is None,
            WayDirection::West => final(corner).east_way is None,
            WayDirection::East => true,
        },
{
    if let Some((length, color)) = found {
        if !vec_contains_usize(known, color) {
            known.push(color);
            match dir {
                WayDirection::North => corner.north_way = Some((length, color)),
                WayDirection::South => corner.south_way = Some((length, color)),
                WayDirection::West => corner.west_way = Some((length, color)),
                WayDirection::East => corner.east_way = Some((length, color)),
            }
            proof {
                assert(way_colors(*corner) =~= old(known)@.push(color));
                assert(known@[known@.len() - 1] == color);
                assert forall|c: usize| #[trigger] old(known)@.contains(c) implies known@.contains(c) by {
                    let q = choose|q: int| 0 <= q < old(known)@.len() && old(known)@[q] == c;
                    assert(known@[q] == c);
                }
            }
        }
    }
}

/// Looks from the closed cell `(i, j)` along its four ways for islands, keeping each island
/// once, in the order north, south, west, east. Where fewer than two islands are kept, all
/// that the cell sees first have the same color.
fn scan_corner(
    mapping: &Vec<Option<usize>>,
    side: usize,
    i: usize,
    j: usize,
    known_islands: &mut Vec<usize>,
) -> (corner: CrossRoadCorner)
    requires
        side <= 255,
        i < side,
        j < side,
        mapping@.len() == side * side,
    ensures
        corner.x == i,
        corner.y == j,
        way_ok(corner.north_way, side as int, i as int, j as int, WayDirection::North),
        way_ok(corner.south_way, side as int, i as int, j as int, WayDirection::South),
        way_ok(corner.west_way, side as int, i as int, j as int, WayDirection::West),
        way_ok(corner.east_way, side as int, i as int, j as int, WayDirection::East),
        distinct_count(way_colors(corner)) < 2 ==> sees_one_color(mapping@, side as int, i as int, j as int),
        corner == corner_at(mapping@, side as int, i as int, j as int),
{
    known_islands.clear();
    let mut corner = CrossRoadCorner {
        x: i,
        y: j,
        north_way: None,
        south_way: None,
        west_way: None,
        east_way: None,
    };
    proof {
        assert(way_colors(corner) =~= known_islands@);
    }
    let n = find_way(mapping, side, i, j, WayDirection::North);
    add_way(&mut corner, known_islands, n, WayDirection::North);
    let s = find_way(mapping, side, i, j, WayDirection::South);
    add_way(&mut corner, known_islands, s, WayDirection::South);
    let w = find_way(mapping, side, i, j, WayDirection::West);
    add_way(&mut corner, known_islands, w, WayDirection::West);
    let e = find_way(mapping, side, i, j, WayDirection::East);
    add_way(&mut corner, known_islands, e, WayDirection::East);
    proof {
        lemma_way_found(mapping@, side as int, i as int, j as int, WayDirection::North, n);
        lemma_way_found(mapping@, side as int, i as int, j as int, WayDirection::South, s);
        lemma_way_found(mapping@, side as int, i as int, j as int, WayDirection::West, w);
        lemma_way_found(mapping@, side as int, i as int, j as int, WayDirection::East, e);
    }
    proof {
        let m = mapping@;
        let sd = side as int;
        let x = i as int;
        let y = j as int;
        if distinct_count(way_colors(corner)) < 2 {
            lemma_distinct_count_no_duplicates(known_islands@);
            assert forall|d1: WayDirection, k1: int, d2: WayDirection, k2: int|
                #![trigger first_seen(m, sd, x, y, d1, k1), first_seen(m, sd, x, y, d2, k2)]
                first_seen(m, sd, x, y, d1, k1) && first_seen(m, sd, x, y, d2, k2) implies m[cell_index(
                    sd,
                    way_cell(x, y, d1, k1),
                )] == m[cell_index(sd, way_cell(x, y, d2, k2))] by {
                let f1 = match d1 {
                    WayDirection::North => n,
                    WayDirection::South => s,
                    WayDirection::West => w,
                    WayDirection::East => e,
                };
                let f2 = match d2 {
                    WayDirection::North => n,
                    WayDirection::South => s,
                    WayDirection::West => w,
                    WayDirection::East => e,
                };
                lemma_first_seen_unique(m, sd, x, y, d1, f1, k1);
                lemma_first_seen_unique(m, sd, x, y, d2, f2, k2);
                let c1 = f1.unwrap().1;
                let c2 = f2.unwrap().1;
                assert(known_islands@.contains(c1));
                assert(known_islands@.contains(c2));
                let q1 = choose|q: int| 0 <= q < known_islands@.len() && known_islands@[q] == c1;
                let q2 = choose|q: int| 0 <= q < known_islands@.len() && known_islands@[q] == c2;
            }
        }
    }
    corner
}

/// Finds the closed cell that best joins islands: among the closed cells whose ways reach
/// at least two distinct islands, scanned row by row, a later cell replaces the current
/// choice when the current one reaches fewer islands or needs a longer way.
fn find_better_corner(mapping: &Vec<Option<usize>>, side: usize) -> (res: Option<CrossRoadCorner>)
    requires
        side <= 255,
        mapping@.len() == side * side,
    ensures
        res matches Some(c) ==> corner_ok(c, side as int, mapping@),
        res matches Some(c) ==> distinct_count(way_colors(c)) >= 2,
        res is None ==> forall|x: int, y: int|
            0 <= x < side && 0 <= y < side && mapping@[cell_index(side as int, (x, y))] is None
                ==> #[trigger] sees_one_color(mapping@, side as int, x, y),
        res == best_corner(mapping@, side as int),
{
    let mut better_corner: Option<CrossRoadCorner> = None;
    let mut known_islands: Vec<usize> = Vec::new();
    let mut j: usize = 0;
    while j < side
        invariant
            side <= 255,
            mapping@.len() == side * side,
            j <= side,
            better_corner matches Some(c) ==> corner_ok(c, side as int, mapping@),
            better_corner matches Some(c) ==> distinct_count(way_colors(c)) >= 2,
            better_corner is None ==> forall|x: int, y: int|
                0 <= x < side && 0 <= y < j && mapping@[cell_index(side as int, (x, y))] is None
                    ==> #[trigger] sees_one_color(mapping@, side as int, x, y),
            better_corner == best_at(mapping@, side as int, j as int, 0),
        decreases side - j,
    {
        let mut i: usize = 0;
        while i < side
            invariant
                side <= 255,
                mapping@.len() == side * side,
                j < side,
                i <= side,
                better_corner matches Some(c) ==> corner_ok(c, side as int, mapping@),
                better_corner matches Some(c) ==> distinct_count(way_colors(c)) >= 2,
                better_corner is None ==> forall|x: int, y: int|
                    0 <= x < side && 0 <= y < j && mapping@[cell_index(side as int, (x, y))] is None
                        ==> #[trigger] sees_one_color(mapping@, side as int, x, y),
                better_corner is None ==> forall|x: int|
                    0 <= x < i && mapping@[cell_index(side as int, (x, j as int))] is None
                        ==> #[trigger] sees_one_color(mapping@, side as int, x, j as int),
                better_corner == best_at(mapping@, side as int, j as int, i as int),
            decreases side - i,
        {
            proof {
                lemma_cell_index_bound(side as int, side as int, i as int, j as int);
                assert(side * side <= 255 * 255) by (nonlinear_arith)
                    requires
                        side <= 255,
                ;
                assert(j * side <= j * side + i);
            }
            let idx = j * side + i;
            proof {
                assert(best_at(mapping@, side as int, j as int, i + 1) == consider(
                    best_at(mapping@, side as int, j as int, i as int),
                    mapping@,
                    side as int,
                    i as int,
                    j as int,
                ));
            }
            if mapping[idx].is_some() {
                i += 1;
                continue;
            }
            let corner = scan_corner(mapping, side, i, j, &mut known_islands);
            if corner.unique_way_count() < 2 {
                i += 1;
                continue;
            }
            let replace = match &better_corner {
                None => true,
                Some(best) => best.is_worse_than(&corner),
            };
            if replace {
                better_corner = Some(corner);
            }
            i += 1;
        }
        proof {
            assert(best_at(mapping@, side as int, j + 1, 0) == best_at(mapping@, side as int, j as int, side as int));
        }
        j += 1;
    }
    better_corner
}

/// Every cell of `now` is either as in `before`, or was opened: no wall and a floor tile.
pub open spec fn only_carved(before: FloorGeneratorResult, now: FloorGeneratorResult) -> bool {
    forall|x: int, y: int|
        #![trigger now.wall_at(x, y)]
        #![trigger now.floor_at(x, y)]
        (now.wall_at(x, y) == before.wall_at(x, y) && now.floor_at(x, y) == before.floor_at(x, y))
            || (now.wall_at(x, y) is NoWall && now.floor_at(x, y) == FloorGraphicsTileGroup::Tile)
}

/// Opens the cell `(x, y)`: removes its wall and lays a floor tile.
fn carve(floor: &mut FloorGeneratorResult, x: usize, y: usize)
    requires
        old(floor).layers_ok(),
        x < old(floor).side(),
        y < old(floor).side(),
    ensures
        final(floor).layers_ok(),
        final(floor).side() == old(floor).side(),
        final(floor).wall_at(x as int, y as int) is NoWall,
        final(floor).floor_at(x as int, y as int) == FloorGraphicsTileGroup::Tile,
        forall|a: int, b: int|
            #![trigger final(floor).wall_at(a, b)]
            #![trigger final(floor).floor_at(a, b)]
            !(a == x && b == y) ==> final(floor).wall_at(a, b) == old(floor).wall_at(a, b)
                && final(floor).floor_at(a, b) == old(floor).floor_at(a, b),
        forall|a: int, b: int| #[trigger] final(floor).extra_at(a, b) == old(floor).extra_at(a, b),
        wall_count(final(floor).walls()) + (if old(floor).wall_at(x as int, y as int) is NoWall {
            0nat
        } else {
            1nat
        }) == wall_count(old(floor).walls()),
{
    let ghost before = *floor;
    let side = floor.width();
    proof {
        lemma_cell_index(side as int, x as int, y as int, 0, 0);
    }
    let idx = y * side + x;
    let d = floor.tiles_mut();
    d.wall_data.set(idx, WallGraphicsTileGroup::NoWall);
    d.floor_data.set(idx, FloorGraphicsTileGroup::Tile);
    proof {
        lemma_wall_count_clear(before.walls(), idx as int);
        assert forall|a: int, b: int| !(a == x && b == y) implies #[trigger] floor.wall_at(a, b)
            == before.wall_at(a, b) && floor.floor_at(a, b) == before.floor_at(a, b) by {
            if 0 <= a < side && 0 <= b < side {
                lemma_cell_index(side as int, a, b, x as int, y as int);
            }
        }
    }
}

/// Cell `(a, b)` is one of the `n` cells of the way from `(x, y)` in direction `dir`.
pub open spec fn on_way(x: int, y: int, dir: WayDirection, n: int, a: int, b: int) -> bool {
    exists|k: int| 1 <= k <= n && #[trigger] way_cell(x, y, dir, k) == (a, b)
}

/// `after` is `before` with the `n` cells of the way from `(x, y)` in direction `dir`
/// opened, and nothing else changed.
pub open spec fn way_carved(
    before: FloorGeneratorResult,
    after: FloorGeneratorResult,
    x: int,
    y: int,
    dir: WayDirection,
    n: int,
) -> bool {
    forall|a: int, b: int|
        #![trigger after.wall_at(a, b)]
        #![trigger after.floor_at(a, b)]
        if on_way(x, y, dir, n, a, b) {
            after.wall_at(a, b) is NoWall && after.floor_at(a, b) == FloorGraphicsTileGroup::Tile
        } else {
            after.wall_at(a, b) == before.wall_at(a, b) && after.floor_at(a, b) == before.floor_at(a, b)
        } && after.extra_at(a, b) == before.extra_at(a, b)
}

proof fn lemma_on_way_step(x: int, y: int, dir: WayDirection, k: int, a: int, b: int)
    requires
        k >= 1,
    ensures
        on_way(x, y, dir, k, a, b) <==> (on_way(x, y, dir, k - 1, a, b) || way_cell(x, y, dir, k) == (a, b)),
{
    if on_way(x, y, dir, k, a, b) {
        let kk = choose|kk: int| 1 <= kk <= k && #[trigger] way_cell(x, y, dir, kk) == (a, b);
        if kk < k {
            assert(on_way(x, y, dir, k - 1, a, b));
        }
    }
    if on_way(x, y, dir, k - 1, a, b) {
        let kk = choose|kk: int| 1 <= kk <= k - 1 && #[trigger] way_cell(x, y, dir, kk) == (a, b);
        assert(on_way(x, y, dir, k, a, b));
    }
    if way_cell(x, y, dir, k) == (a, b) {
        assert(on_way(x, y, dir, k, a, b));
    }
}

/// Opens the `n` cells of a way, starting next to `(x, y)`.
fn carve_way(floor: &mut FloorGeneratorResult, x: usize, y: usize, dir: WayDirection, n: u8)
    requires
        old(floor).layers_ok(),
        x < old(floor).side(),
        y < old(floor).side(),
        n <= way_limit(old(floor).side() as int, x as int, y as int, dir),
    ensures
        final(floor).layers_ok(),
        final(floor).side() == old(floor).side(),
        only_carved(*old(floor), *final(floor)),
        wall_count(final(floor).walls()) <= wall_count(old(floor).walls()),
        forall|k: int|
            1 <= k <= n ==> #[trigger] final(floor).wall_at(
                way_cell(x as int, y as int, dir, k).0,
                way_cell(x as int, y as int, dir, k).1,
            ) is NoWall,
        way_carved(*old(floor), *final(floor), x as int, y as int, dir, n as int),
{
    let ghost start = *floor;
    assert(start.side() <= 80);
    let mut k: u8 = 1;
    while k <= n
        invariant
            floor.layers_ok(),
            floor.side() == start.side(),
            x < start.side(),
            y < start.side(),
            n <= way_limit(start.side() as int, x as int, y as int, dir),
            start.side() <= 80,
            1 <= k <= n as int + 1,
            only_carved(start, *floor),
            wall_count(floor.walls()) <= wall_count(start.walls()),
            forall|kk: int|
                1 <= kk < k ==> #[trigger] floor.wall_at(
                    way_cell(x as int, y as int, dir, kk).0,
                    way_cell(x as int, y as int, dir, kk).1,
                ) is NoWall,
            way_carved(start, *floor, x as int, y as int, dir, k - 1),
        decreases n + 1 - k,
    {
        let step = k as usize;
        let (cx, cy) = match dir {
            WayDirection::North => (x, y - step),
            WayDirection::South => (x, y + step),
            WayDirection::West => (x - step, y),
            WayDirection::East => (x + step, y),
        };
        let ghost prev = *floor;
        carve(floor, cx, cy);
        proof {
            assert forall|a: int, b: int|
                #![trigger floor.wall_at(a, b)]
                #![trigger floor.floor_at(a, b)]
                (floor.wall_at(a, b) == start.wall_at(a, b) && floor.floor_at(a, b) == start.floor_at(
                    a,
                    b,
                )) || (floor.wall_at(a, b) is NoWall && floor.floor_at(a, b)
                    == FloorGraphicsTileGroup::Tile) by {
                assert(prev.wall_at(a, b) == prev.wall_at(a, b));
                assert(prev.floor_at(a, b) == prev.floor_at(a, b));
            }
            assert forall|a: int, b: int|
                #![trigger floor.wall_at(a, b)]
                #![trigger floor.floor_at(a, b)]
                if on_way(x as int, y as int, dir, k as int, a, b) {
                    floor.wall_at(a, b) is NoWall && floor.floor_at(a, b) == FloorGraphicsTileGroup::Tile
                } else {
                    floor.wall_at(a, b) == start.wall_at(a, b) && floor.floor_at(a, b) == start.floor_at(a, b)
                } && floor.extra_at(a, b) == start.extra_at(a, b) by {
                lemma_on_way_step(x as int, y as int, dir, k as int, a, b);
                assert(prev.wall_at(a, b) == prev.wall_at(a, b));
            }
        }
        k += 1;
    }
}

/// Cell `(a, b)` is opened when the corner `c` is carved: the corner's own cell and the
/// cells of its ways.
pub open spec fn in_carving(c: CrossRoadCorner, a: int, b: int) -> bool {
    ||| (a == c.x && b == c.y)
    ||| on_way(c.x as int, c.y as int, WayDirection::North, way_length(c.north_way), a, b)
    ||| on_way(c.x as int, c.y as int, WayDirection::South, way_length(c.south_way), a, b)
    ||| on_way(c.x as int, c.y as int, WayDirection::West, way_length(c.west_way), a, b)
    ||| on_way(c.x as int, c.y as int, WayDirection::East, way_length(c.east_way), a, b)
}

/// `after` is `before` with the corner `c` and its ways opened, and nothing else changed.
pub open spec fn carved_with(before: FloorGeneratorResult, after: FloorGeneratorResult, c: CrossRoadCorner) -> bool {
    &&& after.layers_ok()
    &&& after.side() == before.side()
    &&& forall|a: int, b: int|
        #![trigger after.wall_at(a, b)]
        #![trigger after.floor_at(a, b)]
        if in_carving(c, a, b) {
            after.wall_at(a, b) is NoWall && after.floor_at(a, b) == FloorGraphicsTileGroup::Tile
        } else {
            after.wall_at(a, b) == before.wall_at(a, b) && after.floor_at(a, b) == before.floor_at(a, b)
        } && after.extra_at(a, b) == before.extra_at(a, b)
}

/// `map` is an island map of `floor`: the open cells have entries, and two open cells
/// have the same entry exactly when a walk over open cells joins them.
pub open spec fn exact_island_map(floor: FloorGeneratorResult, map: Seq<Option<usize>>) -> bool {
    let side = floor.side() as int;
    &&& map.len() == side * side
    &&& forall|x: int, y: int|
        0 <= x < side && 0 <= y < side ==> (#[trigger] map[y * side + x] is Some <==> is_open(
            floor.wall_at(x, y),
        ))
    &&& forall|x1: int, y1: int, x2: int, y2: int|
        #![trigger map[y1 * side + x1], map[y2 * side + x2]]
        0 <= x1 < side && 0 <= y1 < side && 0 <= x2 < side && 0 <= y2 < side && map[y1 * side + x1] is Some
            ==> (map[y1 * side + x1] == map[y2 * side + x2] <==> connected(floor, (x1, y1), (x2, y2)))
}

/// One round of joining islands: with an island map of `before` that shows more than one
/// island, the best corner is carved with its ways, giving `after`.
pub open spec fn joining_round(before: FloorGeneratorResult, after: FloorGeneratorResult) -> bool {
    exists|map: Seq<Option<usize>>|
        #![trigger exact_island_map(before, map)]
        exact_island_map(before, map) && island_colors(map).len() > 1 && (best_corner(
            map,
            before.side() as int,
        ) matches Some(c) && carved_with(before, after, c))
}

/// `rounds` leads from its first floor to its last one by rounds of joining islands.
pub open spec fn joined_by_rounds(rounds: Seq<FloorGeneratorResult>) -> bool {
    &&& rounds.len() >= 1
    &&& forall|k: int| 0 <= k < rounds.len() - 1 ==> joining_round(#[trigger] rounds[k], rounds[k + 1])
}

/// The corner's own cell, then its four ways, carved in turn, carve the corner.
proof fn lemma_carving_steps(
    s0: FloorGeneratorResult,
    s1: FloorGeneratorResult,
    s2: FloorGeneratorResult,
    s3: FloorGeneratorResult,
    s4: FloorGeneratorResult,
    s5: FloorGeneratorResult,
    c: CrossRoadCorner,
)
    requires
        s5.layers_ok(),
        s5.side() == s0.side(),
        s1.wall_at(c.x as int, c.y as int) is NoWall,
        s1.floor_at(c.x as int, c.y as int) == FloorGraphicsTileGroup::Tile,
        forall|a: int, b: int|
            #![trigger s1.wall_at(a, b)]
            #![trigger s1.floor_at(a, b)]
            !(a == c.x && b == c.y) ==> s1.wall_at(a, b) == s0.wall_at(a, b) && s1.floor_at(a, b)
                == s0.floor_at(a, b),
        forall|a: int, b: int| #[trigger] s1.extra_at(a, b) == s0.extra_at(a, b),
        way_carved(s1, s2, c.x as int, c.y as int, WayDirection::North, way_length(c.north_way)),
        way_carved(s2, s3, c.x as int, c.y as int, WayDirection::South, way_length(c.south_way)),
        way_carved(s3, s4, c.x as int, c.y as int, WayDirection::West, way_length(c.west_way)),
        way_carved(s4, s5, c.x as int, c.y as int, WayDirection::East, way_length(c.east_way)),
    ensures
        carved_with(s0, s5, c),
{
    assert forall|a: int, b: int|
        #![trigger s5.wall_at(a, b)]
        #![trigger s5.floor_at(a, b)]
        if in_carving(c, a, b) {
            s5.wall_at(a, b) is NoWall && s5.floor_at(a, b) == FloorGraphicsTileGroup::Tile
        } else {
            s5.wall_at(a, b) == s0.wall_at(a, b) && s5.floor_at(a, b) == s0.floor_at(a, b)
        } && s5.extra_at(a, b) == s0.extra_at(a, b) by {
        assert(s1.extra_at(a, b) == s0.extra_at(a, b));
        assert(s2.wall_at(a, b) == s2.wall_at(a, b));
        assert(s3.wall_at(a, b) == s3.wall_at(a, b));
        assert(s4.wall_at(a, b) == s4.wall_at(a, b));
        assert(s1.wall_at(a, b) == s1.wall_at(a, b));
    }
}

/// A way that is not there carves nothing.
proof fn lemma_no_way_carved(f: FloorGeneratorResult, x: int, y: int, dir: WayDirection)
    ensures
        way_carved(f, f, x, y, dir, 0),
{
}

/// Repeatedly joins islands of open cells by carving the best cross-road corner and its
/// ways, until the island map reports a single island, and every open cell can then reach
/// every other, or no closed cell sees two islands along its ways.
pub fn connect_islands(result_floor: &mut FloorGeneratorResult)
    requires
        old(result_floor).layers_ok(),
    ensures
        final(result_floor).layers_ok(),
        final(result_floor).side() == old(result_floor).side(),
        only_carved(*old(result_floor), *final(result_floor)),
        all_connected(*final(result_floor)) || no_joining_cell(*final(result_floor)),
        exists|rounds: Seq<FloorGeneratorResult>|
            #![trigger joined_by_rounds(rounds)]
            joined_by_rounds(rounds) && rounds[0] == *old(result_floor) && rounds.last()
                == *final(result_floor),
        all_connected(*final(result_floor)) || exists|map: Seq<Option<usize>>|
            #![trigger exact_island_map(*final(result_floor), map)]
            exact_island_map(*final(result_floor), map) && best_corner(
                map,
                final(result_floor).side() as int,
            ) is None,
        forall|a: int, b: int| #[trigger] final(result_floor).extra_at(a, b) == old(result_floor).extra_at(a, b),
{
    let ghost start = *result_floor;
    let side = result_floor.width();
    let (mut num_islands, mut islands_mapping) = get_island_mapping(result_floor);
    let ghost mut rounds: Seq<FloorGeneratorResult> = seq![start];
    proof {
        assert(exact_island_map(*result_floor, islands_mapping@));
        assert(joined_by_rounds(rounds));
    }
    while num_islands > 1
        invariant
            result_floor.layers_ok(),
            result_floor.side() == start.side(),
            side == start.side(),
            only_carved(start, *result_floor),
            mapping_of(*result_floor, num_islands, islands_mapping@),
            exact_island_map(*result_floor, islands_mapping@),
            joined_by_rounds(rounds),
            rounds[0] == start,
            rounds.last() == *result_floor,
            forall|a: int, b: int| #[trigger] result_floor.extra_at(a, b) == start.extra_at(a, b),
        ensures
            result_floor.layers_ok(),
            result_floor.side() == start.side(),
            forall|a: int, b: int| #[trigger] result_floor.extra_at(a, b) == start.extra_at(a, b),
            only_carved(start, *result_floor),
            mapping_of(*result_floor, num_islands, islands_mapping@),
            num_islands <= 1 || forall|x: int, y: int|
                0 <= x < side && 0 <= y < side && islands_mapping@[cell_index(side as int, (x, y))] is None
                    ==> #[trigger] sees_one_color(islands_mapping@, side as int, x, y),
            exact_island_map(*result_floor, islands_mapping@),
            joined_by_rounds(rounds),
            rounds[0] == start,
            rounds.last() == *result_floor,
            num_islands <= 1 || best_corner(islands_mapping@, side as int) is None,
        decreases wall_count(result_floor.walls()),
    {
        let ghost count_before = wall_count(result_floor.walls());
        let better_corner = find_better_corner(&islands_mapping, side);
        let Some(better_corner) = better_corner else {
            break;
        };
        let ghost prev = *result_floor;
        let ghost map_before = islands_mapping@;
        carve(result_floor, better_corner.x, better_corner.y);
        proof {
            assert(islands_mapping@[better_corner.y * side + better_corner.x] is None);
        }
        let ghost s1 = *result_floor;
        if let Some((num_tiles, _)) = better_corner.north_way {
            carve_way(result_floor, better_corner.x, better_corner.y, WayDirection::North, num_tiles);
        } else {
            proof {
                lemma_no_way_carved(s1, better_corner.x as int, better_corner.y as int, WayDirection::North);
            }
        }
        let ghost s2 = *result_floor;
        if let Some((num_tiles, _)) = better_corner.south_way {
            carve_way(result_floor, better_corner.x, better_corner.y, WayDirection::South, num_tiles);
        } else {
            proof {
                lemma_no_way_carved(s2, better_corner.x as int, better_corner.y as int, WayDirection::South);
            }
        }
        let ghost s3 = *result_floor;
        if let Some((num_tiles, _)) = better_corner.west_way {
            carve_way(result_floor, better_corner.x, better_corner.y, WayDirection::West, num_tiles);
        } else {
            proof {
                lemma_no_way_carved(s3, better_corner.x as int, better_corner.y as int, WayDirection::West);
            }
        }
        let ghost s4 = *result_floor;
        if let Some((num_tiles, _)) = better_corner.east_way {
            carve_way(result_floor, better_corner.x, better_corner.y, WayDirection::East, num_tiles);
        } else {
            proof {
                lemma_no_way_carved(s4, better_corner.x as int, better_corner.y as int, WayDirection::East);
            }
        }
        proof {
            lemma_carving_steps(prev, s1, s2, s3, s4, *result_floor, better_corner);
            let cur = *result_floor;
            assert(carved_with(prev, cur, better_corner));
            assert forall|a: int, b: int| #[trigger] cur.extra_at(a, b) == start.extra_at(a, b) by {
                if in_carving(better_corner, a, b) {
                    assert(cur.wall_at(a, b) is NoWall);
                } else {
                    assert(cur.wall_at(a, b) == prev.wall_at(a, b));
                }
                assert(cur.extra_at(a, b) == prev.extra_at(a, b));
                assert(prev.extra_at(a, b) == start.extra_at(a, b));
            }
            assert(exact_island_map(prev, map_before));
            assert(joining_round(prev, *result_floor));
            let old_rounds = rounds;
            rounds = rounds.push(*result_floor);
            assert forall|k: int| 0 <= k < rounds.len() - 1 implies joining_round(#[trigger] rounds[k], rounds[k + 1]) by {
                if k < old_rounds.len() - 1 {
                    assert(rounds[k] == old_rounds[k]);
                    assert(rounds[k + 1] == old_rounds[k + 1]);
                } else {
                    assert(rounds[k] == prev);
                }
            }
        }
        let (n, m) = get_island_mapping(result_floor);
        num_islands = n;
        islands_mapping = m;
        proof {
            assert(exact_island_map(*result_floor, islands_mapping@));
        }
    }
    proof {
        let f = *result_floor;
        let sd = side as int;
        assert(joined_by_rounds(rounds));
        if num_islands > 1 {
            assert(exact_island_map(f, islands_mapping@));
        }
        if num_islands <= 1 {
            assert forall|a: (int, int), b: (int, int)|
                open_cell(f, a) && open_cell(f, b) implies #[trigger] connected(f, a, b) by {
                let ka = cell_index(sd, a);
                let kb = cell_index(sd, b);
                assert(islands_mapping@[a.1 * sd + a.0] is Some);
                assert(islands_mapping@[b.1 * sd + b.0] is Some);
                let ca = islands_mapping@[ka].unwrap();
                let cb = islands_mapping@[kb].unwrap();
                lemma_cell_index_bound(sd, sd, a.0, a.1);
                lemma_cell_index_bound(sd, sd, b.0, b.1);
                assert(island_colors(islands_mapping@).contains(ca));
                assert(island_colors(islands_mapping@).contains(cb));
                lemma_set_at_most_one(island_colors(islands_mapping@), ca, cb);
            }
        } else {
            assert forall|x: int, y: int, d1: WayDirection, k1: int, d2: WayDirection, k2: int|
                #![trigger seen_open(f, x, y, d1, k1), seen_open(f, x, y, d2, k2)]
                0 <= x < sd && 0 <= y < sd && !open_cell(f, (x, y)) && seen_open(f, x, y, d1, k1)
                    && seen_open(f, x, y, d2, k2) implies connected(
                    f,
                    way_cell(x, y, d1, k1),
                    way_cell(x, y, d2, k2),
                ) by {
                lemma_seen_open_first_seen(f, islands_mapping@, x, y, d1, k1);
                lemma_seen_open_first_seen(f, islands_mapping@, x, y, d2, k2);
                assert(islands_mapping@[cell_index(sd, (x, y))] is None) by {
                    assert(islands_mapping@[y * sd + x] is Some <==> is_open(f.wall_at(x, y)));
                }
                assert(sees_one_color(islands_mapping@, sd, x, y));
                let p1 = way_cell(x, y, d1, k1);
                let p2 = way_cell(x, y, d2, k2);
                assert(islands_mapping@[p1.1 * sd + p1.0] == islands_mapping@[p2.1 * sd + p2.0]);
            }
        }
    }
}

/// The facts about `map`, an island map of `floor` that reports `n` islands, that
/// [`connect_islands`] relies on.
pub open spec fn mapping_of(floor: FloorGeneratorResult, n: usize, map: Seq<Option<usize>>) -> bool {
    let side = floor.side() as int;
    &&& map.len() == side * side
    &&& forall|x: int, y: int|
        0 <= x < side && 0 <= y < side ==> (#[trigger] map[y * side + x] is Some <==> is_open(
            floor.wall_at(x, y),
        ))
    &&& island_colors(map).finite()
    &&& n == island_colors(map).len()
    &&& forall|x1: int, y1: int, x2: int, y2: int|
        #![trigger map[y1 * side + x1], map[y2 * side + x2]]
        0 <= x1 < side && 0 <= y1 < side && 0 <= x2 < side && 0 <= y2 < side && map[y1 * side + x1] is Some
            && map[y1 * side + x1] == map[y2 * side + x2] ==> connected(floor, (x1, y1), (x2, y2))
}

/// The cell at distance `k` from `(x, y)` in direction `dir` is the first open cell on
/// the way.
pub open spec fn seen_open(floor: FloorGeneratorResult, x: int, y: int, dir: WayDirection, k: int) -> bool {
    &&& 1 <= k <= way_limit(floor.side() as int, x, y, dir)
    &&& open_cell(floor, way_cell(x, y, dir, k))
    &&& forall|k2: int| 1 <= k2 < k ==> !open_cell(floor, #[trigger] way_cell(x, y, dir, k2))
}

/// No closed cell sees, first along two of its four ways, open cells that cannot reach
/// each other: opening such a cell and its ways would join no islands.
pub open spec fn no_joining_cell(floor: FloorGeneratorResult) -> bool {
    forall|x: int, y: int, d1: WayDirection, k1: int, d2: WayDirection, k2: int|
        #![trigger seen_open(floor, x, y, d1, k1), seen_open(floor, x, y, d2, k2)]
        0 <= x < floor.side() && 0 <= y < floor.side() && !open_cell(floor, (x, y)) && seen_open(
            floor,
            x,
            y,
            d1,
            k1,
        ) && seen_open(floor, x, y, d2, k2) ==> connected(floor, way_cell(x, y, d1, k1), way_cell(x, y, d2, k2))
}

proof fn lemma_set_at_most_one(s: Set<usize>, a: usize, b: usize)
    requires
        s.finite(),
        s.len() <= 1,
        s.contains(a),
        s.contains(b),
    ensures
        a == b,
{
    if a != b {
        let t = s.remove(a);
        assert(t.len() == s.len() - 1);
        assert(t.contains(b));
        assert(t.len() > 0) by {
            if t.len() == 0 {
                assert(t =~= Set::<usize>::empty());
            }
        }
    }
}

proof fn lemma_seen_open_first_seen(
    floor: FloorGeneratorResult,
    map: Seq<Option<usize>>,
    x: int,
    y: int,
    dir: WayDirection,
    k: int,
)
    requires
        0 <= x < floor.side(),
        0 <= y < floor.side(),
        map.len() == floor.side() * floor.side(),
        forall|xx: int, yy: int|
            0 <= xx < floor.side() && 0 <= yy < floor.side() ==> (#[trigger] map[yy * floor.side() + xx] is Some
                <==> is_open(floor.wall_at(xx, yy))),
        seen_open(floor, x, y, dir, k),
    ensures
        first_seen(map, floor.side() as int, x, y, dir, k),
{
    let sd = floor.side() as int;
    let p = way_cell(x, y, dir, k);
    assert(map[p.1 * sd + p.0] is Some);
    assert forall|k2: int| 1 <= k2 < k implies (#[trigger] map[cell_index(sd, way_cell(x, y, dir, k2))]) is None by {
        let q = way_cell(x, y, dir, k2);
        assert(!open_cell(floor, q));
        assert(map[q.1 * sd + q.0] is Some <==> is_open(floor.wall_at(q.0, q.1)));
    }
}

// ---------------------------------------------------------------------------
// Laying floor parts out.
// ---------------------------------------------------------------------------

/// The floor group that a placement `r` of modules on a `w × w` grid of parts gives cell
/// `(x, y)`: that of the part placed on its block of 5 × 5 cells, dirt where none is.
pub open spec fn placed_floor_at(
    parts: Seq<(ConfigId, FloorPartConfig)>,
    order: Seq<ConfigId>,
    w: int,
    r: Seq<Option<usize>>,
    x: int,
    y: int,
) -> FloorGraphicsTileGroup {
    match r[slot(w, (x / 5, y / 5))] {
        Some(m) => find_part(parts, order[m as int]).unwrap().floor_data[y % 5][x % 5],
        None => FloorGraphicsTileGroup::Dirt,
    }
}

/// The wall group that a placement gives cell `(x, y)`: that of the part placed on its
/// block, sandstone where none is.
pub open spec fn placed_wall_at(
    parts: Seq<(ConfigId, FloorPartConfig)>,
    order: Seq<ConfigId>,
    w: int,
    r: Seq<Option<usize>>,
    x: int,
    y: int,
) -> WallGraphicsTileGroup {
    match r[slot(w, (x / 5, y / 5))] {
        Some(m) => find_part(parts, order[m as int]).unwrap().wall_data[y % 5][x % 5],
        None => WallGraphicsTileGroup::Sandstone,
    }
}

/// Copies a part's cells onto the block of 5 × 5 cells at column `i`, row `j` of blocks.
fn write_block(floor: &mut FloorGeneratorResult, part: &FloorPartConfig, i: usize, j: usize)
    requires
        old(floor).layers_ok(),
        i * 5 + 5 <= old(floor).side(),
        j * 5 + 5 <= old(floor).side(),
    ensures
        final(floor).layers_ok(),
        final(floor).side() == old(floor).side(),
        forall|x: int, y: int|
            #![trigger final(floor).floor_at(x, y)]
            #![trigger final(floor).wall_at(x, y)]
            if i * 5 <= x < i * 5 + 5 && j * 5 <= y < j * 5 + 5 {
                final(floor).floor_at(x, y) == part.floor_data[y - j * 5][x - i * 5]
                    && final(floor).wall_at(x, y) == part.wall_data[y - j * 5][x - i * 5]
            } else {
                final(floor).floor_at(x, y) == old(floor).floor_at(x, y) && final(floor).wall_at(x, y)
                    == old(floor).wall_at(x, y)
            },
        forall|x: int, y: int| #[trigger] final(floor).extra_at(x, y) == old(floor).extra_at(x, y),
{
    let ghost f0 = *floor;
    let mut jj: usize = 0;
    while jj < 5
        invariant
            floor.layers_ok(),
            floor.side() == f0.side(),
            i * 5 + 5 <= f0.side(),
            j * 5 + 5 <= f0.side(),
            jj <= 5,
            forall|x: int, y: int|
                #![trigger floor.floor_at(x, y)]
                #![trigger floor.wall_at(x, y)]
                if i * 5 <= x < i * 5 + 5 && j * 5 <= y < j * 5 + jj {
                    floor.floor_at(x, y) == part.floor_data[y - j * 5][x - i * 5]
                        && floor.wall_at(x, y) == part.wall_data[y - j * 5][x - i * 5]
                } else {
                    floor.floor_at(x, y) == f0.floor_at(x, y) && floor.wall_at(x, y) == f0.wall_at(x, y)
                },
            forall|x: int, y: int| #[trigger] floor.extra_at(x, y) == f0.extra_at(x, y),
        decreases 5 - jj,
    {
        let mut ii: usize = 0;
        while ii < 5
            invariant
                floor.layers_ok(),
                floor.side() == f0.side(),
                i * 5 + 5 <= f0.side(),
                j * 5 + 5 <= f0.side(),
                jj < 5,
                ii <= 5,
                forall|x: int, y: int|
                    #![trigger floor.floor_at(x, y)]
                    #![trigger floor.wall_at(x, y)]
                    if i * 5 <= x < i * 5 + 5 && j * 5 <= y < j * 5 + jj || i * 5 <= x < i * 5 + ii && y
                        == j * 5 + jj {
                        floor.floor_at(x, y) == part.floor_data[y - j * 5][x - i * 5]
                            && floor.wall_at(x, y) == part.wall_data[y - j * 5][x - i * 5]
                    } else {
                        floor.floor_at(x, y) == f0.floor_at(x, y) && floor.wall_at(x, y) == f0.wall_at(
                            x,
                            y,
                        )
                    },
                forall|x: int, y: int| #[trigger] floor.extra_at(x, y) == f0.extra_at(x, y),
            decreases 5 - ii,
        {
            let x = i * 5 + ii;
            let y = j * 5 + jj;
            floor.set_floor_data([x, y], part.floor_data[jj][ii]);
            floor.set_wall_data([x, y], part.wall_data[jj][ii]);
            ii += 1;
        }
        jj += 1;
    }
}

proof fn lemma_block_of(x: int, i: int)
    requires
        i * 5 <= x < i * 5 + 5,
        0 <= i,
    ensures
        x / 5 == i,
        x % 5 == x - i * 5,
{
    lemma_fundamental_div_mod_converse(x, 5, i, x - i * 5);
}

/// Whether block `b` is among the first `t` blocks of the inward walk.
pub open spec fn block_done(w: nat, t: int, b: (int, int)) -> bool {
    exists|s: int| 0 <= s < t && #[trigger] inward_order(w)[s] == b
}

/// Lays the parts of a placement of modules out on a floor of sandstone walls over dirt,
/// block after block in the order of the inward walk.
fn lay_out_parts(
    floor: &mut FloorGeneratorResult,
    results: &Vec<Option<usize>>,
    order: &Vec<ConfigId>,
    parts: &Vec<(ConfigId, FloorPartConfig)>,
    w: usize,
)
    requires
        old(floor).layers_ok(),
        1 <= w <= 16,
        old(floor).side() == 5 * w,
        forall|x: int, y: int|
            0 <= x < 5 * w && 0 <= y < 5 * w ==> #[trigger] old(floor).wall_at(x, y)
                == WallGraphicsTileGroup::Sandstone && old(floor).floor_at(x, y)
                == FloorGraphicsTileGroup::Dirt,
        results@.len() == w * w,
        forall|k: int|
            0 <= k < results@.len() && (#[trigger] results@[k]) is Some ==> results@[k].unwrap()
                < order@.len(),
        forall|k: int| 0 <= k < order@.len() ==> find_part(parts@, #[trigger] order@[k]) is Some,
    ensures
        final(floor).layers_ok(),
        final(floor).side() == old(floor).side(),
        forall|x: int, y: int|
            0 <= x < 5 * w && 0 <= y < 5 * w ==> #[trigger] final(floor).floor_at(x, y)
                == placed_floor_at(parts@, order@, w as int, results@, x, y) && final(floor).wall_at(
                x,
                y,
            ) == placed_wall_at(parts@, order@, w as int, results@, x, y),
        forall|x: int, y: int| #[trigger] final(floor).extra_at(x, y) == old(floor).extra_at(x, y),
{
    let ghost wn = w as nat;
    let ghost f0 = *floor;
    proof {
        lemma_inward_visits_every_cell_once(wn);
        assert(w * w <= 256) by (nonlinear_arith)
            requires
                w <= 16,
        ;
    }
    let mut it = traverse_area_inward(w);
    let ghost mut t: int = 0;
    proof {
        assert(inward_order(wn).skip(0) =~= inward_order(wn));
    }
    loop
        invariant
            1 <= w <= 16,
            wn == w,
            floor.layers_ok(),
            floor.side() == 5 * w,
            f0.side() == 5 * w,
            inward_order(wn).len() == w * w,
            w * w <= 256,
            inward_order(wn).no_duplicates(),
            forall|p: (int, int)| inward_order(wn).contains(p) <==> in_grid(wn, p),
            it.wf(),
            0 <= t <= w * w,
            it@ == inward_order(wn).skip(t),
            results@.len() == w * w,
            forall|k: int|
                0 <= k < results@.len() && (#[trigger] results@[k]) is Some ==> results@[k].unwrap()
                    < order@.len(),
            forall|k: int| 0 <= k < order@.len() ==> find_part(parts@, #[trigger] order@[k]) is Some,
            forall|x: int, y: int|
                0 <= x < 5 * w && 0 <= y < 5 * w ==> #[trigger] f0.wall_at(x, y)
                    == WallGraphicsTileGroup::Sandstone && f0.floor_at(x, y)
                    == FloorGraphicsTileGroup::Dirt,
            forall|x: int, y: int|
                0 <= x < 5 * w && 0 <= y < 5 * w ==> #[trigger] floor.floor_at(x, y) == (if block_done(
                    wn,
                    t,
                    (x / 5, y / 5),
                ) {
                    placed_floor_at(parts@, order@, w as int, results@, x, y)
                } else {
                    FloorGraphicsTileGroup::Dirt
                }) && floor.wall_at(x, y) == (if block_done(wn, t, (x / 5, y / 5)) {
                    placed_wall_at(parts@, order@, w as int, results@, x, y)
                } else {
                    WallGraphicsTileGroup::Sandstone
                }),
            forall|x: int, y: int| #[trigger] floor.extra_at(x, y) == f0.extra_at(x, y),
        ensures
            floor.layers_ok(),
            floor.side() == 5 * w,
            forall|x: int, y: int| #[trigger] floor.extra_at(x, y) == f0.extra_at(x, y),
            forall|x: int, y: int|
                0 <= x < 5 * w && 0 <= y < 5 * w ==> #[trigger] floor.floor_at(x, y)
                    == placed_floor_at(parts@, order@, w as int, results@, x, y) && floor.wall_at(
                    x,
                    y,
                ) == placed_wall_at(parts@, order@, w as int, results@, x, y),
        decreases w * w - t,
    {
        let ghost before_it = it@;
        match it.next() {
            None => {
                proof {
                    assert forall|x: int, y: int|
                        0 <= x < 5 * w && 0 <= y < 5 * w implies #[trigger] floor.floor_at(x, y)
                            == placed_floor_at(parts@, order@, w as int, results@, x, y)
                            && floor.wall_at(x, y) == placed_wall_at(
                            parts@,
                            order@,
                            w as int,
                            results@,
                            x,
                            y,
                        ) by {
                        let b = (x / 5, y / 5);
                        assert(in_grid(wn, b));
                        assert(inward_order(wn).contains(b));
                        let s = choose|s: int| 0 <= s < inward_order(wn).len() && inward_order(wn)[s] == b;
                        assert(block_done(wn, t, b));
                    }
                }
                break;
            },
            Some(c) => {
                let i = c[0];
                let j = c[1];
                let ghost ct = inward_order(wn)[t];
                proof {
                    assert(before_it[0] == ct);
                    assert(inward_order(wn).contains(ct));
                    assert(in_grid(wn, ct));
                    assert(i == ct.0 && j == ct.1);
                    assert(j * w + i < w * w && i * 5 + 5 <= 5 * w && j * 5 + 5 <= 5 * w) by (nonlinear_arith)
                        requires
                            i < w,
                            j < w,
                    ;
                }
                let ghost fl = *floor;
                match results[j * w + i] {
                    Some(id) => {
                        proof {
                            assert(find_part(parts@, order@[id as int]) is Some);
                        }
                        let part = lookup_part(parts, order[id]).unwrap();
                        write_block(floor, &part, i, j);
                        proof {
                            assert forall|x: int, y: int|
                                0 <= x < 5 * w && 0 <= y < 5 * w implies #[trigger] floor.floor_at(x, y) == (
                                if block_done(wn, t + 1, (x / 5, y / 5)) {
                                    placed_floor_at(parts@, order@, w as int, results@, x, y)
                                } else {
                                    FloorGraphicsTileGroup::Dirt
                                }) && floor.wall_at(x, y) == (if block_done(wn, t + 1, (x / 5, y / 5)) {
                                    placed_wall_at(parts@, order@, w as int, results@, x, y)
                                } else {
                                    WallGraphicsTileGroup::Sandstone
                                }) by {
                                assert(fl.floor_at(x, y) == fl.floor_at(x, y));
                                block_step(wn, t, x, y, i as int, j as int);
                                if i * 5 <= x < i * 5 + 5 && j * 5 <= y < j * 5 + 5 {
                                    lemma_block_of(x, i as int);
                                    lemma_block_of(y, j as int);
                                }
                            }
                        }
                    },
                    None => {
                        proof {
                            assert forall|x: int, y: int|
                                0 <= x < 5 * w && 0 <= y < 5 * w implies #[trigger] floor.floor_at(x, y) == (
                                if block_done(wn, t + 1, (x / 5, y / 5)) {
                                    placed_floor_at(parts@, order@, w as int, results@, x, y)
                                } else {
                                    FloorGraphicsTileGroup::Dirt
                                }) && floor.wall_at(x, y) == (if block_done(wn, t + 1, (x / 5, y / 5)) {
                                    placed_wall_at(parts@, order@, w as int, results@, x, y)
                                } else {
                                    WallGraphicsTileGroup::Sandstone
                                }) by {
                                block_step(wn, t, x, y, i as int, j as int);
                            }
                        }
                    },
                }
                proof {
                    t = t + 1;
                }
            },
        }
    }
}

/// Block `(x / 5, y / 5)` is done after step `t` of the walk exactly where it was done
/// before, or it is the block of step `t`.
proof fn block_step(w: nat, t: int, x: int, y: int, i: int, j: int)
    requires
        0 <= t < inward_order(w).len(),
        inward_order(w)[t] == (i, j),
        0 <= x,
        0 <= y,
        0 <= i,
        0 <= j,
    ensures
        block_done(w, t + 1, (x / 5, y / 5)) == (block_done(w, t, (x / 5, y / 5)) || (i * 5 <= x
            < i * 5 + 5 && j * 5 <= y < j * 5 + 5)),
{
    let b = (x / 5, y / 5);
    if i * 5 <= x < i * 5 + 5 && j * 5 <= y < j * 5 + 5 {
        lemma_block_of(x, i);
        lemma_block_of(y, j);
        assert(inward_order(w)[t] == b);
    } else {
        if b == (i, j) {
            assert(i * 5 <= x < i * 5 + 5) by (nonlinear_arith)
                requires
                    x / 5 == i,
                    0 <= x,
            ;
            assert(j * 5 <= y < j * 5 + 5) by (nonlinear_arith)
                requires
                    y / 5 == j,
                    0 <= y,
            ;
        }
        if block_done(w, t + 1, b) {
            let s = choose|s: int| 0 <= s < t + 1 && #[trigger] inward_order(w)[s] == b;
            assert(s != t);
        }
    }
    if block_done(w, t, b) {
        let s = choose|s: int| 0 <= s < t && #[trigger] inward_order(w)[s] == b;
        assert(0 <= s < t + 1);
    }
}


// ---------------------------------------------------------------------------
// Generating a floor.
// ---------------------------------------------------------------------------

/// Each cell of `f` holds the floor and wall that the placement `r` of modules lays out
/// there, and no extra: the parts' extras are not carried over.
pub open spec fn placed_exactly(
    parts: Seq<(ConfigId, FloorPartConfig)>,
    order: Seq<ConfigId>,
    w: int,
    r: Seq<Option<usize>>,
    f: FloorGeneratorResult,
) -> bool {
    forall|x: int, y: int|
        0 <= x < 5 * w && 0 <= y < 5 * w ==> #[trigger] f.wall_at(x, y) == placed_wall_at(
            parts,
            order,
            w,
            r,
            x,
            y,
        ) && f.floor_at(x, y) == placed_floor_at(parts, order, w, r, x, y) && f.extra_at(x, y)
            == FloorCellExtra::NoExtra
}

/// `f` comes from the floor that the placement `r` of modules lays out by rounds of
/// joining islands.
pub open spec fn laid_out_from(
    parts: Seq<(ConfigId, FloorPartConfig)>,
    order: Seq<ConfigId>,
    w: int,
    r: Seq<Option<usize>>,
    f: FloorGeneratorResult,
) -> bool {
    exists|rounds: Seq<FloorGeneratorResult>|
        #![trigger joined_by_rounds(rounds)]
        joined_by_rounds(rounds) && placed_exactly(parts, order, w, r, rounds[0]) && rounds.last() == f
}

/// The floor that a hand-drawn floor stands for.
pub open spec fn authored_result(a: AuthoredFloor) -> FloorGeneratorResult {
    match a {
        AuthoredFloor::Size15x15(d) => FloorGeneratorResult::Size15x15(d),
        AuthoredFloor::Size20x20(d) => FloorGeneratorResult::Size20x20(d),
        AuthoredFloor::Size25x25(d) => FloorGeneratorResult::Size25x25(d),
        AuthoredFloor::Size30x30(d) => FloorGeneratorResult::Size30x30(d),
    }
}

/// The number of parts along each side of a generated floor.
pub open spec fn blocks_per_side(g: GeneratedFloor) -> nat {
    match g {
        GeneratedFloor::Size15x15 => 3,
        GeneratedFloor::Size20x20 => 4,
        GeneratedFloor::Size25x25 => 5,
        GeneratedFloor::Size30x30 => 6,
        GeneratedFloor::Size40x40 => 8,
        GeneratedFloor::Size60x60 => 12,
        GeneratedFloor::Size80x80 => 16,
    }
}

/// The adjacency configurations of a floor configuration that take part in generation.
pub open spec fn generation_configs(
    db: AssetDb,
    config: FloorConfig,
    adjacency: Seq<Option<FloorPartAdjacencyConfig>>,
) -> Seq<FloorPartAdjacencyConfig> {
    selected(db, config.available_parts@, adjacency, adjacency.len() as int)
}

fn empty_floor(g: GeneratedFloor) -> (res: (usize, FloorGeneratorResult))
    ensures
        res.0 == blocks_per_side(g),
        res.1.layers_ok(),
        res.1.side() == 5 * res.0,
        forall|x: int, y: int|
            0 <= x < res.1.side() && 0 <= y < res.1.side() ==> #[trigger] res.1.wall_at(x, y)
                == WallGraphicsTileGroup::Sandstone && res.1.floor_at(x, y)
                == FloorGraphicsTileGroup::Dirt,
        forall|x: int, y: int| #[trigger] res.1.extra_at(x, y) == FloorCellExtra::NoExtra,
{
    let res = match g {
        GeneratedFloor::Size15x15 => (3, FloorGeneratorResult::Size15x15(FloorTiles::new(15))),
        GeneratedFloor::Size20x20 => (4, FloorGeneratorResult::Size20x20(FloorTiles::new(20))),
        GeneratedFloor::Size25x25 => (5, FloorGeneratorResult::Size25x25(FloorTiles::new(25))),
        GeneratedFloor::Size30x30 => (6, FloorGeneratorResult::Size30x30(FloorTiles::new(30))),
        GeneratedFloor::Size40x40 => (8, FloorGeneratorResult::Size40x40(FloorTiles::new(40))),
        GeneratedFloor::Size60x60 => (12, FloorGeneratorResult::Size60x60(FloorTiles::new(60))),
        GeneratedFloor::Size80x80 => (16, FloorGeneratorResult::Size80x80(FloorTiles::new(80))),
    };
    proof {
        let f = res.1;
        let side = f.side() as int;
        assert forall|x: int, y: int|
            0 <= x < side && 0 <= y < side implies #[trigger] f.wall_at(x, y)
                == WallGraphicsTileGroup::Sandstone && f.floor_at(x, y)
                == FloorGraphicsTileGroup::Dirt by {
            lemma_cell_index(side, x, y, 0, 0);
        }
        assert forall|x: int, y: int| #[trigger] f.extra_at(x, y) == FloorCellExtra::NoExtra by {
            if 0 <= x < side && 0 <= y < side {
                lemma_cell_index(side, x, y, 0, 0);
            }
        }
    }
    res
}

/// Builds the floor that the configuration `config` of the floor `floor_config` describes.
/// A hand-drawn floor is returned as it is. A generated floor is put together from the
/// parts of the adjacency configurations that the database holds, `adjacency[k]` being the
/// `k`-th of `config.available_parts` as read from the database and `part_configs` the
/// configurations of the parts: a grid of parts is filled cell after cell in the order of
/// the inward walk, each cell with a part drawn at random among those that fit, the parts'
/// floors and walls are laid out (their extras are not carried over), and the islands of the result are connected. `None` where the database
/// holds no such floor, or no adjacency configuration takes part.
pub fn generate(
    asset_db: &AssetDb,
    floor_config: ConfigId,
    config: FloorConfig,
    adjacency: &Vec<Option<FloorPartAdjacencyConfig>>,
    part_configs: &Vec<(ConfigId, FloorPartConfig)>,
) -> (res: Option<FloorGeneratorResult>)
    requires
        asset_db.wf(),
        adjacency@.len() == config.available_parts@.len(),
        forall|k: int|
            0 <= k < adjacency@.len() && asset_db.asset(
                AssetKind::FloorPartAdjacencyConfig,
                config.available_parts@[k].uuid,
            ) is Some ==> (#[trigger] adjacency@[k]) is Some,
        config.floor_variant is Generated ==> module_order(
            *asset_db,
            generation_configs(*asset_db, config, adjacency@),
        ).len() <= 256,
        config.floor_variant is Generated ==> forall|k: int|
            0 <= k < module_order(*asset_db, generation_configs(*asset_db, config, adjacency@)).len()
                ==> find_part(
                part_configs@,
                #[trigger] module_order(*asset_db, generation_configs(*asset_db, config, adjacency@))[k],
            ) is Some,
    ensures
        asset_db.asset(AssetKind::FloorConfig, floor_config.uuid) is None ==> res is None,
        asset_db.asset(AssetKind::FloorConfig, floor_config.uuid) is Some ==> match config.floor_variant {
            FloorVariant::Authored(a) => res == Some(authored_result(a)),
            FloorVariant::Generated(g) => {
                let cfgs = generation_configs(*asset_db, config, adjacency@);
                let order = module_order(*asset_db, cfgs);
                let w = blocks_per_side(g) as int;
                &&& cfgs.len() == 0 ==> res is None
                &&& cfgs.len() > 0 ==> (res matches Some(f) && f.layers_ok() && f.side() == 5 * w
                    && (forall|x: int, y: int| #[trigger] f.extra_at(x, y) == FloorCellExtra::NoExtra)
                    && (all_connected(f) || no_joining_cell(f)) && (all_connected(f) || exists|
                    map: Seq<Option<usize>>,
                |
                    #![trigger exact_island_map(f, map)]
                    exact_island_map(f, map) && best_corner(map, f.side() as int) is None)
                    && exists|r: Seq<Option<usize>>|
                    fill_ok(*asset_db, cfgs, order, part_configs@, w as nat, r) && laid_out_from(
                        part_configs@,
                        order,
                        w,
                        r,
                        f,
                    ))
            },
        },
{
    if !asset_db.has_asset(AssetKind::FloorConfig, floor_config.uuid) {
        return None;
    }
    let ghost cfgs = generation_configs(*asset_db, config, adjacency@);
    match config.floor_variant {
        FloorVariant::Authored(AuthoredFloor::Size15x15(data)) => Some(FloorGeneratorResult::Size15x15(data)),
        FloorVariant::Authored(AuthoredFloor::Size20x20(data)) => Some(FloorGeneratorResult::Size20x20(data)),
        FloorVariant::Authored(AuthoredFloor::Size25x25(data)) => Some(FloorGeneratorResult::Size25x25(data)),
        FloorVariant::Authored(AuthoredFloor::Size30x30(data)) => Some(FloorGeneratorResult::Size30x30(data)),
        FloorVariant::Generated(floor_var) => {
            let sel = select_adjacency(asset_db, &config.available_parts, adjacency);
            if sel.len() == 0 {
                return None;
            }
            let (order, index) = build_module_order(asset_db, adjacency, &sel, Ghost(cfgs));
            let modules = build_modules(asset_db, adjacency, &sel, &order, &index, Ghost(cfgs));
            let masks = edge_masks(part_configs, &order);
            let (w, mut result_floor) = empty_floor(floor_var);
            let results = fill_modules(
                &modules,
                &masks,
                order.len(),
                w,
                Ghost(*asset_db),
                Ghost(cfgs),
                Ghost(order@),
                Ghost(part_configs@),
            );
            lay_out_parts(&mut result_floor, &results, &order, part_configs, w);
            let ghost laid = result_floor;
            connect_islands(&mut result_floor);
            proof {
                let f = result_floor;
                let wi = w as int;
                assert(placed_exactly(part_configs@, order@, wi, results@, laid));
                assert forall|x: int, y: int| #[trigger] f.extra_at(x, y) == FloorCellExtra::NoExtra by {
                    assert(laid.extra_at(x, y) == FloorCellExtra::NoExtra);
                }
                let rounds = choose|rounds: Seq<FloorGeneratorResult>|
                    #![trigger joined_by_rounds(rounds)]
                    joined_by_rounds(rounds) && rounds[0] == laid && rounds.last() == f;
                assert(laid_out_from(part_configs@, order@, wi, results@, f));
                assert(fill_ok(*asset_db, cfgs, order@, part_configs@, w as nat, results@));
            }
            Some(result_floor)
        },
    }
}

} // verus!
