use vstd::prelude::*;
use crate::floor_generator::lemma_cell_index;
use crate::effect_mechanics::ConfigId;

verus! {

/// Graphics group of a cell's floor.
#[derive(Clone, Copy, Debug, PartialEq, Eq, Structural)]
pub enum FloorGraphicsTileGroup {
    Dirt,
    Tile,
    Water,
    Lava,
}

/// Graphics group of a cell's wall; `NoWall` marks a cell without a wall.
#[derive(Clone, Copy, Debug, PartialEq, Eq, Structural)]
pub enum WallGraphicsTileGroup {
    /// No wall: the cell can be walked on.
    NoWall,
    Sandstone,
    Rocks,
    Bricks,
}

impl Default for FloorGraphicsTileGroup {
    fn default() -> (res: Self)
        ensures
            res == FloorGraphicsTileGroup::Dirt,
    {
        FloorGraphicsTileGroup::Dirt
    }
}

impl Default for WallGraphicsTileGroup {
    fn default() -> (res: Self)
        ensures
            res == WallGraphicsTileGroup::NoWall,
    {
        WallGraphicsTileGroup::NoWall
    }
}

/// What a cell holds besides its floor and wall: a hint or an order for what appears
/// there in the game. The ranks of a danger or a rarity are numbered as the game's
/// configuration numbers them.
#[derive(Clone, Copy, Debug, PartialEq, Eq, Structural)]
pub enum FloorCellExtra {
    /// Nothing.
    NoExtra,
    /// A unit of the given danger rank appears here.
    SpawnUnitHint(u8),
    /// Loot of the given rarity rank appears here.
    SpawnLootHint(u8),
    /// The given unit appears here.
    SpawnUnit(ConfigId),
    /// The given item appears here.
    SpawnLoot(ConfigId),
    LadderDownHint,
    LadderUpHint,
    PlayerStartHint,
    /// The given effect is triggered here.
    TriggerEffect(ConfigId),
}

impl Default for FloorCellExtra {
    fn default() -> (res: Self)
        ensures
            res == FloorCellExtra::NoExtra,
    {
        FloorCellExtra::NoExtra
    }
}

/// A cell without a wall.
pub open spec fn is_open(t: WallGraphicsTileGroup) -> bool {
    t is NoWall
}

/// A rectangular floor whose cells are addressed as `[x, y]`.
pub trait EditableFloorData {
    /// Number of columns.
    spec fn floor_width(&self) -> nat;

    /// Number of rows.
    spec fn floor_height(&self) -> nat;

    /// The cell storage matches the dimensions.
    spec fn floor_ok(&self) -> bool;

    /// Wall group of the cell in column `x`, row `y`.
    spec fn wall_at(&self, x: int, y: int) -> WallGraphicsTileGroup;

    /// Floor group of the cell in column `x`, row `y`.
    spec fn floor_at(&self, x: int, y: int) -> FloorGraphicsTileGroup;

    /// What the cell in column `x`, row `y` holds besides its floor and wall.
    spec fn extra_at(&self, x: int, y: int) -> FloorCellExtra;

    fn width(&self) -> (w: usize)
        requires
            self.floor_ok(),
        ensures
            w == self.floor_width(),
    ;

    fn height(&self) -> (h: usize)
        requires
            self.floor_ok(),
        ensures
            h == self.floor_height(),
    ;

    fn get_floor_data(&self, coords: [usize; 2]) -> (t: FloorGraphicsTileGroup)
        requires
            self.floor_ok(),
            coords[0] < self.floor_width(),
            coords[1] < self.floor_height(),
        ensures
            t == self.floor_at(coords[0] as int, coords[1] as int),
    ;

    fn set_floor_data(&mut self, coords: [usize; 2], t: FloorGraphicsTileGroup)
        requires
            old(self).floor_ok(),
            coords[0] < old(self).floor_width(),
            coords[1] < old(self).floor_height(),
        ensures
            final(self).floor_ok(),
            final(self).floor_width() == old(self).floor_width(),
            final(self).floor_height() == old(self).floor_height(),
            forall|x: int, y: int|
                #![trigger final(self).floor_at(x, y)]
                final(self).floor_at(x, y) == if x == coords[0] && y == coords[1] {
                    t
                } else {
                    old(self).floor_at(x, y)
                },
            forall|x: int, y: int| #[trigger]
                final(self).wall_at(x, y) == old(self).wall_at(x, y),
            forall|x: int, y: int| #[trigger]
                final(self).extra_at(x, y) == old(self).extra_at(x, y),
    ;

    fn get_wall_data(&self, coords: [usize; 2]) -> (t: WallGraphicsTileGroup)
        requires
            self.floor_ok(),
            coords[0] < self.floor_width(),
            coords[1] < self.floor_height(),
        ensures
            t == self.wall_at(coords[0] as int, coords[1] as int),
    ;

    fn set_wall_data(&mut self, coords: [usize; 2], t: WallGraphicsTileGroup)
        requires
            old(self).floor_ok(),
            coords[0] < old(self).floor_width(),
            coords[1] < old(self).floor_height(),
        ensures
            final(self).floor_ok(),
            final(self).floor_width() == old(self).floor_width(),
            final(self).floor_height() == old(self).floor_height(),
            forall|x: int, y: int|
                #![trigger final(self).wall_at(x, y)]
                final(self).wall_at(x, y) == if x == coords[0] && y == coords[1] {
                    t
                } else {
                    old(self).wall_at(x, y)
                },
            forall|x: int, y: int| #[trigger]
                final(self).floor_at(x, y) == old(self).floor_at(x, y),
            forall|x: int, y: int| #[trigger]
                final(self).extra_at(x, y) == old(self).extra_at(x, y),
    ;

    fn get_cell_extra_data(&self, coords: [usize; 2]) -> (t: FloorCellExtra)
        requires
            self.floor_ok(),
            coords[0] < self.floor_width(),
            coords[1] < self.floor_height(),
        ensures
            t == self.extra_at(coords[0] as int, coords[1] as int),
    ;

    fn set_cell_extra_data(&mut self, coords: [usize; 2], t: FloorCellExtra)
        requires
            old(self).floor_ok(),
            coords[0] < old(self).floor_width(),
            coords[1] < old(self).floor_height(),
        ensures
            final(self).floor_ok(),
            final(self).floor_width() == old(self).floor_width(),
            final(self).floor_height() == old(self).floor_height(),
            forall|x: int, y: int|
                #![trigger final(self).extra_at(x, y)]
                final(self).extra_at(x, y) == if x == coords[0] && y == coords[1] {
                    t
                } else {
                    old(self).extra_at(x, y)
                },
            forall|x: int, y: int| #[trigger]
                final(self).floor_at(x, y) == old(self).floor_at(x, y),
            forall|x: int, y: int| #[trigger]
                final(self).wall_at(x, y) == old(self).wall_at(x, y),
    ;
}

/// The cells of a square floor, stored row after row.
pub struct FloorTiles {
    pub side: usize,
    pub floor_data: Vec<FloorGraphicsTileGroup>,
    pub wall_data: Vec<WallGraphicsTileGroup>,
    pub extra_data: Vec<FloorCellExtra>,
}

impl FloorTiles {
    /// The three layers hold exactly `side * side` cells.
    pub open spec fn tiles_ok(&self) -> bool {
        &&& self.floor_data.len() == self.side * self.side
        &&& self.wall_data.len() == self.side * self.side
        &&& self.extra_data.len() == self.side * self.side
    }

    /// A `side × side` floor of sandstone walls over dirt, with nothing else in its cells.
    pub fn new(side: usize) -> (res: Self)
        requires
            side * side <= usize::MAX,
        ensures
            res.side == side,
            res.tiles_ok(),
            forall|i: int| 0 <= i < side * side ==> res.wall_data@[i] == WallGraphicsTileGroup::Sandstone,
            forall|i: int| 0 <= i < side * side ==> res.floor_data@[i] == FloorGraphicsTileGroup::Dirt,
            forall|i: int| 0 <= i < side * side ==> res.extra_data@[i] == FloorCellExtra::NoExtra,
    {
        let n = side * side;
        FloorTiles {
            side,
            floor_data: vec![FloorGraphicsTileGroup::Dirt; n],
            wall_data: vec![WallGraphicsTileGroup::Sandstone; n],
            extra_data: vec![FloorCellExtra::NoExtra; n],
        }
    }
}

impl EditableFloorData for FloorTiles {
    open spec fn floor_width(&self) -> nat {
        self.side as nat
    }

    open spec fn floor_height(&self) -> nat {
        self.side as nat
    }

    open spec fn floor_ok(&self) -> bool {
        self.tiles_ok()
    }

    open spec fn wall_at(&self, x: int, y: int) -> WallGraphicsTileGroup {
        if 0 <= x < self.side && 0 <= y < self.side {
            self.wall_data@[y * self.side + x]
        } else {
            WallGraphicsTileGroup::Sandstone
        }
    }

    open spec fn floor_at(&self, x: int, y: int) -> FloorGraphicsTileGroup {
        if 0 <= x < self.side && 0 <= y < self.side {
            self.floor_data@[y * self.side + x]
        } else {
            FloorGraphicsTileGroup::Dirt
        }
    }

    open spec fn extra_at(&self, x: int, y: int) -> FloorCellExtra {
        if 0 <= x < self.side && 0 <= y < self.side {
            self.extra_data@[y * self.side + x]
        } else {
            FloorCellExtra::NoExtra
        }
    }

    fn width(&self) -> (w: usize) {
        self.side
    }

    fn height(&self) -> (h: usize) {
        self.side
    }

    fn get_floor_data(&self, coords: [usize; 2]) -> (t: FloorGraphicsTileGroup) {
        proof {
            lemma_cell_index(self.side as int, coords[0] as int, coords[1] as int, 0, 0);
        }
        self.floor_data[coords[1] * self.side + coords[0]]
    }

    fn set_floor_data(&mut self, coords: [usize; 2], t: FloorGraphicsTileGroup) {
        let ghost before = *self;
        let side = self.side;
        proof {
            lemma_cell_index(side as int, coords[0] as int, coords[1] as int, 0, 0);
        }
        self.floor_data.set(coords[1] * side + coords[0], t);
        proof {
            assert forall|x: int, y: int|
                #![trigger self.floor_at(x, y)]
                self.floor_at(x, y) == if x == coords[0] && y == coords[1] {
                    t
                } else {
                    before.floor_at(x, y)
                } by {
                if 0 <= x < side && 0 <= y < side {
                    lemma_cell_index(side as int, x, y, coords[0] as int, coords[1] as int);
                }
            }
        }
    }

    fn get_wall_data(&self, coords: [usize; 2]) -> (t: WallGraphicsTileGroup) {
        proof {
            lemma_cell_index(self.side as int, coords[0] as int, coords[1] as int, 0, 0);
        }
        self.wall_data[coords[1] * self.side + coords[0]]
    }

    fn set_wall_data(&mut self, coords: [usize; 2], t: WallGraphicsTileGroup) {
        let ghost before = *self;
        let side = self.side;
        proof {
            lemma_cell_index(side as int, coords[0] as int, coords[1] as int, 0, 0);
        }
        self.wall_data.set(coords[1] * side + coords[0], t);
        proof {
            assert forall|x: int, y: int|
                #![trigger self.wall_at(x, y)]
                self.wall_at(x, y) == if x == coords[0] && y == coords[1] {
                    t
                } else {
                    before.wall_at(x, y)
                } by {
                if 0 <= x < side && 0 <= y < side {
                    lemma_cell_index(side as int, x, y, coords[0] as int, coords[1] as int);
                }
            }
        }
    }
    fn get_cell_extra_data(&self, coords: [usize; 2]) -> (t: FloorCellExtra) {
        proof {
            lemma_cell_index(self.side as int, coords[0] as int, coords[1] as int, 0, 0);
        }
        self.extra_data[coords[1] * self.side + coords[0]]
    }

    fn set_cell_extra_data(&mut self, coords: [usize; 2], t: FloorCellExtra) {
        let ghost before = *self;
        let side = self.side;
        proof {
            lemma_cell_index(side as int, coords[0] as int, coords[1] as int, 0, 0);
        }
        self.extra_data.set(coords[1] * side + coords[0], t);
        proof {
            assert forall|x: int, y: int|
                #![trigger self.extra_at(x, y)]
                self.extra_at(x, y) == if x == coords[0] && y == coords[1] {
                    t
                } else {
                    before.extra_at(x, y)
                } by {
                if 0 <= x < side && 0 <= y < side {
                    lemma_cell_index(side as int, x, y, coords[0] as int, coords[1] as int);
                }
            }
        }
    }
}


} // verus!
