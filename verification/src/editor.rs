use vstd::prelude::*;
use crate::assets::{AssetDb, AssetKind};
use crate::effect_mechanics::ConfigId;
use crate::floor_data::{EditableFloorData, FloorCellExtra, FloorGraphicsTileGroup, WallGraphicsTileGroup};

verus! {

/// What the editor asks of the application when it is done.
#[derive(Clone, Copy, Debug, PartialEq, Eq, Structural)]
pub enum EditorCommand {
    BackToMainMenu,
}

/// The tool that a click on a floor part's cell applies.
#[derive(Clone, Copy, Debug, PartialEq, Eq, Structural)]
pub enum FloorPartEditorTool {
    PlaceFloor,
    PlaceWall,
    PlaceExtra,
}

impl Default for FloorPartEditorTool {
    fn default() -> (res: Self)
        ensures
            res == FloorPartEditorTool::PlaceFloor,
    {
        FloorPartEditorTool::PlaceFloor
    }
}

/// The tool settings of the floor part editor.
#[derive(Clone, Copy, Debug, PartialEq, Eq, Structural)]
pub struct FloorPartToolsSubSection {
    pub current_tool: FloorPartEditorTool,
    pub floor_tile_group: FloorGraphicsTileGroup,
    pub wall_tile_group: WallGraphicsTileGroup,
    pub extra: FloorCellExtra,
}

impl Default for FloorPartToolsSubSection {
    fn default() -> (res: Self)
        ensures
            res.current_tool == FloorPartEditorTool::PlaceFloor,
            res.floor_tile_group == FloorGraphicsTileGroup::Dirt,
            res.wall_tile_group == WallGraphicsTileGroup::NoWall,
            res.extra == FloorCellExtra::NoExtra,
    {
        FloorPartToolsSubSection {
            current_tool: FloorPartEditorTool::default(),
            floor_tile_group: FloorGraphicsTileGroup::default(),
            wall_tile_group: WallGraphicsTileGroup::default(),
            extra: FloorCellExtra::default(),
        }
    }
}

impl FloorPartToolsSubSection {
    /// Applies the current tool to the cell in column `x`, row `y` of a floor part or an
    /// authored floor: the floor tool paints the chosen floor group, the wall tool the
    /// chosen wall group, the extra tool puts the chosen extra into the cell.
    pub fn apply_to<D: EditableFloorData>(&self, data: &mut D, x: usize, y: usize)
        requires
            old(data).floor_ok(),
            x < old(data).floor_width(),
            y < old(data).floor_height(),
        ensures
            final(data).floor_ok(),
            final(data).floor_width() == old(data).floor_width(),
            final(data).floor_height() == old(data).floor_height(),
            forall|i: int, j: int| #[trigger]
                final(data).floor_at(i, j) == if self.current_tool is PlaceFloor && i == x && j
                    == y {
                    self.floor_tile_group
                } else {
                    old(data).floor_at(i, j)
                },
            forall|i: int, j: int| #[trigger]
                final(data).wall_at(i, j) == if self.current_tool is PlaceWall && i == x && j
                    == y {
                    self.wall_tile_group
                } else {
                    old(data).wall_at(i, j)
                },
            forall|i: int, j: int| #[trigger]
                final(data).extra_at(i, j) == if self.current_tool is PlaceExtra && i == x && j
                    == y {
                    self.extra
                } else {
                    old(data).extra_at(i, j)
                },
    {
        match self.current_tool {
            FloorPartEditorTool::PlaceFloor => {
                data.set_floor_data([x, y], self.floor_tile_group);
            },
            FloorPartEditorTool::PlaceWall => {
                data.set_wall_data([x, y], self.wall_tile_group);
            },
            FloorPartEditorTool::PlaceExtra => {
                data.set_cell_extra_data([x, y], self.extra);
            },
        }
    }
}

/// Something drawn with a sprite of the atlas, around a pivot in pixels.
pub trait SpriteHolder {
    fn sprite_name(&self) -> &str;

    fn sprite_pivot(&self) -> &[u8; 2];

    fn sprite_pivot_mut(&mut self) -> &mut [u8; 2];
}

/// The floor parts shown on one side of a part: a single one in focus, or a list.
#[derive(Clone, Copy, Debug)]
pub enum NeighbourData<'a> {
    SingleFocus(ConfigId),
    Multiple(&'a [ConfigId]),
}

/// Number of the floor parts among `ids` that the database holds.
pub open spec fn present_count(db: AssetDb, ids: Seq<ConfigId>) -> nat
    decreases ids.len(),
{
    if ids.len() == 0 {
        0
    } else {
        present_count(db, ids.drop_last()) + if db.asset(
            AssetKind::FloorPartConfig,
            ids.last().uuid,
        ) is Some {
            1nat
        } else {
            0nat
        }
    }
}

proof fn lemma_present_count_bound(db: AssetDb, ids: Seq<ConfigId>)
    ensures
        present_count(db, ids) <= ids.len(),
    decreases ids.len(),
{
    if ids.len() > 0 {
        lemma_present_count_bound(db, ids.drop_last());
    }
}

impl<'a> NeighbourData<'a> {
    /// The floor parts that this side shows.
    pub open spec fn parts(&self) -> Seq<ConfigId> {
        match self {
            NeighbourData::SingleFocus(id) => seq![*id],
            NeighbourData::Multiple(ids) => ids@,
        }
    }

    /// How many of the floor parts of this side the database holds.
    pub fn present_count(&self, asset_db: &AssetDb) -> (res: usize)
        requires
            asset_db.wf(),
        ensures
            res == present_count(*asset_db, self.parts()),
    {
        match self {
            NeighbourData::SingleFocus(id) => {
                proof {
                    reveal_with_fuel(present_count, 2);
                    assert(seq![*id].drop_last() =~= Seq::<ConfigId>::empty());
                    assert(seq![*id].last() == *id);
                }
                if asset_db.has_asset(AssetKind::FloorPartConfig, id.uuid) {
                    1
                } else {
                    0
                }
            },
            NeighbourData::Multiple(ids) => {
                let mut count: usize = 0;
                let mut i: usize = 0;
                while i < ids.len()
                    invariant
                        asset_db.wf(),
                        i <= ids@.len(),
                        count == present_count(*asset_db, ids@.take(i as int)),
                    decreases ids@.len() - i,
                {
                    proof {
                        assert(ids@.take(i + 1).drop_last() =~= ids@.take(i as int));
                        lemma_present_count_bound(*asset_db, ids@.take(i as int));
                    }
                    if asset_db.has_asset(AssetKind::FloorPartConfig, ids[i].uuid) {
                        count += 1;
                    }
                    i += 1;
                }
                proof {
                    assert(ids@.take(ids@.len() as int) =~= ids@);
                }
                count
            },
        }
    }
}

/// The side of the smallest square grid with room for `count` cells.
pub fn square_side(count: usize) -> (side: usize)
    requires
        exists|s: nat| count <= #[trigger] (s * s) <= usize::MAX,
    ensures
        count <= side * side,
        side == 0 || (side - 1) * (side - 1) < count,
{
    if count == 0 {
        return 0;
    }
    let ghost bound = choose|s: nat| count <= #[trigger] (s * s) <= usize::MAX;
    assert(1 <= bound <= bound * bound) by (nonlinear_arith)
        requires
            1 <= count <= bound * bound,
    ;
    let mut side: usize = 1;
    while side * side < count
        invariant
            1 <= side <= bound <= bound * bound,
            count <= bound * bound <= usize::MAX,
            side * side <= usize::MAX,
            (side - 1) * (side - 1) < count,
        decreases bound - side,
    {
        assert(side + 1 <= bound && (side + 1) * (side + 1) <= bound * bound) by (nonlinear_arith)
            requires
                side * side < count,
                count <= bound * bound,
                1 <= side <= bound,
        ;
        side += 1;
    }
    side
}

} // verus!
