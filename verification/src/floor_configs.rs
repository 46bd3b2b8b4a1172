use vstd::prelude::*;
use std::collections::HashMap;
use crate::assets::{AssetDb, AssetKind};
use crate::effect_mechanics::ConfigId;
use crate::floor_data::{EditableFloorData, FloorCellExtra, FloorGraphicsTileGroup, FloorTiles, WallGraphicsTileGroup};
use crate::floor_generator::WayDirection;
use crate::bitset::{empty_set, first_bits, has_bit, intersection, set_bit, set_bits, test_bit, unset_bit};
use crate::grid_math::{
    in_grid, inward_order, lemma_inward_visits_every_cell_once, traverse_area_inward,
};
use crate::floor_generator::lemma_cell_index;
use rand::RngExt;

verus! {

broadcast use vstd::std_specs::hash::group_hash_axioms;

/// A floor drawn by hand, of one of the sizes that can be drawn.
pub enum AuthoredFloor {
    Size15x15(FloorTiles),
    Size20x20(FloorTiles),
    Size25x25(FloorTiles),
    Size30x30(FloorTiles),
}

impl AuthoredFloor {
    /// The cells of the floor.
    pub open spec fn tiles(&self) -> FloorTiles {
        match self {
            AuthoredFloor::Size15x15(d) => *d,
            AuthoredFloor::Size20x20(d) => *d,
            AuthoredFloor::Size25x25(d) => *d,
            AuthoredFloor::Size30x30(d) => *d,
        }
    }

    /// The side length that the variant stands for.
    pub open spec fn side(&self) -> nat {
        match self {
            AuthoredFloor::Size15x15(_) => 15,
            AuthoredFloor::Size20x20(_) => 20,
            AuthoredFloor::Size25x25(_) => 25,
            AuthoredFloor::Size30x30(_) => 30,
        }
    }

    fn tiles_ref(&self) -> (t: &FloorTiles)
        ensures
            *t == self.tiles(),
    {
        match self {
            AuthoredFloor::Size15x15(d) => d,
            AuthoredFloor::Size20x20(d) => d,
            AuthoredFloor::Size25x25(d) => d,
            AuthoredFloor::Size30x30(d) => d,
        }
    }

    fn tiles_mut(&mut self) -> (t: &mut FloorTiles)
        ensures
            *t == old(self).tiles(),
            final(self).tiles() == *final(t),
            final(self).side() == old(self).side(),
    {
        match self {
            AuthoredFloor::Size15x15(d) => d,
            AuthoredFloor::Size20x20(d) => d,
            AuthoredFloor::Size25x25(d) => d,
            AuthoredFloor::Size30x30(d) => d,
        }
    }
}

impl EditableFloorData for AuthoredFloor {
    open spec fn floor_width(&self) -> nat {
        self.side()
    }

    open spec fn floor_height(&self) -> nat {
        self.side()
    }

    open spec fn floor_ok(&self) -> bool {
        &&& self.tiles().side == self.side()
        &&& self.tiles().tiles_ok()
    }

    open spec fn wall_at(&self, x: int, y: int) -> WallGraphicsTileGroup {
        self.tiles().wall_at(x, y)
    }

    open spec fn floor_at(&self, x: int, y: int) -> FloorGraphicsTileGroup {
        self.tiles().floor_at(x, y)
    }

    open spec fn extra_at(&self, x: int, y: int) -> FloorCellExtra {
        self.tiles().extra_at(x, y)
    }

    fn width(&self) -> (w: usize) {
        self.tiles_ref().width()
    }

    fn height(&self) -> (h: usize) {
        self.tiles_ref().height()
    }

    fn get_floor_data(&self, coords: [usize; 2]) -> (t: FloorGraphicsTileGroup) {
        self.tiles_ref().get_floor_data(coords)
    }

    fn set_floor_data(&mut self, coords: [usize; 2], t: FloorGraphicsTileGroup) {
        self.tiles_mut().set_floor_data(coords, t);
    }

    fn get_wall_data(&self, coords: [usize; 2]) -> (t: WallGraphicsTileGroup) {
        self.tiles_ref().get_wall_data(coords)
    }

    fn set_wall_data(&mut self, coords: [usize; 2], t: WallGraphicsTileGroup) {
        self.tiles_mut().set_wall_data(coords, t);
    }

    fn get_cell_extra_data(&self, coords: [usize; 2]) -> (t: FloorCellExtra) {
        self.tiles_ref().get_cell_extra_data(coords)
    }

    fn set_cell_extra_data(&mut self, coords: [usize; 2], t: FloorCellExtra) {
        self.tiles_mut().set_cell_extra_data(coords, t);
    }
}

/// The size of a floor put together from floor parts of 5 × 5 cells.
#[derive(Clone, Copy, Debug, PartialEq, Eq, Structural)]
pub enum GeneratedFloor {
    Size15x15,
    Size20x20,
    Size25x25,
    Size30x30,
    Size40x40,
    Size60x60,
    Size80x80,
}

/// How a floor comes about: drawn by hand, or put together from parts.
pub enum FloorVariant {
    Authored(AuthoredFloor),
    Generated(GeneratedFloor),
}

/// A floor's configuration: how it comes about, and the adjacency configurations of the
/// parts it may be put together from.
pub struct FloorConfig {
    pub floor_variant: FloorVariant,
    pub available_parts: Vec<ConfigId>,
}

/// A floor part and the parts that may stand next to it on each side.
pub struct FloorPartAdjacencyConfig {
    pub part: ConfigId,
    pub north_adjacent_parts: Vec<ConfigId>,
    pub south_adjacent_parts: Vec<ConfigId>,
    pub west_adjacent_parts: Vec<ConfigId>,
    pub east_adjacent_parts: Vec<ConfigId>,
}

/// The cells of a floor part, `[row][column]`.
#[derive(Clone, Copy)]
pub struct FloorPartConfig {
    pub floor_data: [[FloorGraphicsTileGroup; 5]; 5],
    pub wall_data: [[WallGraphicsTileGroup; 5]; 5],
    pub extra_data: [[FloorCellExtra; 5]; 5],
}

impl EditableFloorData for FloorPartConfig {
    open spec fn floor_width(&self) -> nat {
        5
    }

    open spec fn floor_height(&self) -> nat {
        5
    }

    open spec fn floor_ok(&self) -> bool {
        true
    }

    open spec fn wall_at(&self, x: int, y: int) -> WallGraphicsTileGroup {
        if 0 <= x < 5 && 0 <= y < 5 {
            self.wall_data@[y]@[x]
        } else {
            WallGraphicsTileGroup::Sandstone
        }
    }

    open spec fn floor_at(&self, x: int, y: int) -> FloorGraphicsTileGroup {
        if 0 <= x < 5 && 0 <= y < 5 {
            self.floor_data@[y]@[x]
        } else {
            FloorGraphicsTileGroup::Dirt
        }
    }

    open spec fn extra_at(&self, x: int, y: int) -> FloorCellExtra {
        if 0 <= x < 5 && 0 <= y < 5 {
            self.extra_data@[y]@[x]
        } else {
            FloorCellExtra::NoExtra
        }
    }

    fn width(&self) -> (w: usize) {
        5
    }

    fn height(&self) -> (h: usize) {
        5
    }

    fn get_floor_data(&self, coords: [usize; 2]) -> (t: FloorGraphicsTileGroup) {
        self.floor_data[coords[1]][coords[0]]
    }

    fn set_floor_data(&mut self, coords: [usize; 2], t: FloorGraphicsTileGroup) {
        let mut row = self.floor_data[coords[1]];
        row[coords[0]] = t;
        self.floor_data[coords[1]] = row;
    }

    fn get_wall_data(&self, coords: [usize; 2]) -> (t: WallGraphicsTileGroup) {
        self.wall_data[coords[1]][coords[0]]
    }

    fn set_wall_data(&mut self, coords: [usize; 2], t: WallGraphicsTileGroup) {
        let mut row = self.wall_data[coords[1]];
        row[coords[0]] = t;
        self.wall_data[coords[1]] = row;
    }

    fn get_cell_extra_data(&self, coords: [usize; 2]) -> (t: FloorCellExtra) {
        self.extra_data[coords[1]][coords[0]]
    }

    fn set_cell_extra_data(&mut self, coords: [usize; 2], t: FloorCellExtra) {
        let mut row = self.extra_data[coords[1]];
        row[coords[0]] = t;
        self.extra_data[coords[1]] = row;
    }
}

/// The database holds a floor part configuration with this identifier.
pub open spec fn part_present(db: AssetDb, id: ConfigId) -> bool {
    db.asset(AssetKind::FloorPartConfig, id.uuid) is Some
}

/// The `k`-th available adjacency configuration takes part in generation: the database
/// holds it, and holds the part it is about.
pub open spec fn usable(
    db: AssetDb,
    avail: Seq<ConfigId>,
    adj: Seq<Option<FloorPartAdjacencyConfig>>,
    k: int,
) -> bool {
    &&& db.asset(AssetKind::FloorPartAdjacencyConfig, avail[k].uuid) is Some
    &&& adj[k] is Some
    &&& part_present(db, adj[k].unwrap().part)
}

/// The adjacency configurations among the first `n` available ones that take part in
/// generation, in order.
pub open spec fn selected(
    db: AssetDb,
    avail: Seq<ConfigId>,
    adj: Seq<Option<FloorPartAdjacencyConfig>>,
    n: int,
) -> Seq<FloorPartAdjacencyConfig>
    decreases n,
{
    if n <= 0 {
        Seq::empty()
    } else if usable(db, avail, adj, n - 1) {
        selected(db, avail, adj, n - 1).push(adj[n - 1].unwrap())
    } else {
        selected(db, avail, adj, n - 1)
    }
}

/// `id` added at the end of `order`, unless `order` holds it already.
pub open spec fn add_id(order: Seq<ConfigId>, id: ConfigId) -> Seq<ConfigId> {
    if order.contains(id) {
        order
    } else {
        order.push(id)
    }
}

/// The parts of `ids` that the database holds, added to `order` in turn.
pub open spec fn add_present(db: AssetDb, order: Seq<ConfigId>, ids: Seq<ConfigId>) -> Seq<
    ConfigId,
>
    decreases ids.len(),
{
    if ids.len() == 0 {
        order
    } else {
        let prev = add_present(db, order, ids.drop_last());
        if part_present(db, ids.last()) {
            add_id(prev, ids.last())
        } else {
            prev
        }
    }
}

/// `order` after the parts that an adjacency configuration names: its own part, then the
/// present parts of its north, south, west and east lists.
pub open spec fn scan_config(db: AssetDb, order: Seq<ConfigId>, c: FloorPartAdjacencyConfig) -> Seq<
    ConfigId,
> {
    add_present(
        db,
        add_present(
            db,
            add_present(
                db,
                add_present(db, add_id(order, c.part), c.north_adjacent_parts@),
                c.south_adjacent_parts@,
            ),
            c.west_adjacent_parts@,
        ),
        c.east_adjacent_parts@,
    )
}

/// The parts that generation uses, each once, in the order in which the configurations
/// name them: the position of a part is the index of its module.
pub open spec fn module_order(db: AssetDb, cfgs: Seq<FloorPartAdjacencyConfig>) -> Seq<ConfigId>
    decreases cfgs.len(),
{
    if cfgs.len() == 0 {
        Seq::empty()
    } else {
        scan_config(db, module_order(db, cfgs.drop_last()), cfgs.last())
    }
}

/// `index` gives the position in `order` of every identifier there, and of no other.
pub open spec fn index_ok(order: Seq<ConfigId>, index: Map<u128, usize>) -> bool {
    &&& forall|k: int|
        0 <= k < order.len() ==> #[trigger] index.contains_key(order[k].uuid) && index[order[k].uuid]
            == k
    &&& forall|u: u128|
        #[trigger] index.contains_key(u) ==> index[u] < order.len() && order[index[u] as int].uuid
            == u
}

fn add_module(order: &mut Vec<ConfigId>, index: &mut HashMap<u128, usize>, id: ConfigId)
    requires
        index_ok(old(order)@, old(index)@),
        old(order)@.len() < usize::MAX,
    ensures
        index_ok(final(order)@, final(index)@),
        final(order)@ == add_id(old(order)@, id),
{
    if !index.contains_key(&id.uuid) {
        proof {
            if old(order)@.contains(id) {
                let k = choose|k: int| 0 <= k < old(order)@.len() && old(order)@[k] == id;
                assert(old(index)@.contains_key(old(order)@[k].uuid));
            }
        }
        index.insert(id.uuid, order.len());
        order.push(id);
        proof {
            assert forall|u: u128| #[trigger] index@.contains_key(u) implies index@[u] < order@.len()
                && order@[index@[u] as int].uuid == u by {
                if u != id.uuid {
                    assert(old(index)@.contains_key(u));
                }
            }
        }
    } else {
        proof {
            let k = old(index)@[id.uuid] as int;
            assert(old(order)@[k].uuid == id.uuid);
            assert(old(order)@[k] == id);
        }
    }
}

/// `r` starts with `o`.
pub open spec fn extends(r: Seq<ConfigId>, o: Seq<ConfigId>) -> bool {
    o.len() <= r.len() && forall|k: int| 0 <= k < o.len() ==> r[k] == o[k]
}

proof fn lemma_add_present_extends(db: AssetDb, o: Seq<ConfigId>, ids: Seq<ConfigId>, j: int)
    requires
        0 <= j <= ids.len(),
    ensures
        extends(add_present(db, o, ids), add_present(db, o, ids.take(j))),
        extends(add_present(db, o, ids), o),
    decreases ids.len(),
{
    if ids.len() == 0 {
        assert(ids.take(j) =~= ids);
    } else if j == ids.len() {
        assert(ids.take(j) =~= ids);
        lemma_add_present_extends(db, o, ids.drop_last(), 0);
        assert(ids.drop_last().take(0) =~= Seq::<ConfigId>::empty());
    } else {
        lemma_add_present_extends(db, o, ids.drop_last(), j);
        assert(ids.drop_last().take(j) =~= ids.take(j));
    }
}

proof fn lemma_scan_extends(db: AssetDb, o: Seq<ConfigId>, c: FloorPartAdjacencyConfig)
    ensures
        extends(scan_config(db, o, c), o),
{
    let o1 = add_id(o, c.part);
    let o2 = add_present(db, o1, c.north_adjacent_parts@);
    let o3 = add_present(db, o2, c.south_adjacent_parts@);
    let o4 = add_present(db, o3, c.west_adjacent_parts@);
    lemma_add_present_extends(db, o1, c.north_adjacent_parts@, 0);
    lemma_add_present_extends(db, o2, c.south_adjacent_parts@, 0);
    lemma_add_present_extends(db, o3, c.west_adjacent_parts@, 0);
    lemma_add_present_extends(db, o4, c.east_adjacent_parts@, 0);
}

proof fn lemma_module_order_extends(db: AssetDb, cfgs: Seq<FloorPartAdjacencyConfig>, i: int)
    requires
        0 <= i <= cfgs.len(),
    ensures
        extends(module_order(db, cfgs), module_order(db, cfgs.take(i))),
    decreases cfgs.len(),
{
    if i == cfgs.len() {
        assert(cfgs.take(i) =~= cfgs);
    } else {
        lemma_module_order_extends(db, cfgs.drop_last(), i);
        assert(cfgs.drop_last().take(i) =~= cfgs.take(i));
        lemma_scan_extends(db, module_order(db, cfgs.drop_last()), cfgs.last());
    }
}

fn add_present_modules(
    db: &AssetDb,
    order: &mut Vec<ConfigId>,
    index: &mut HashMap<u128, usize>,
    ids: &Vec<ConfigId>,
    Ghost(target): Ghost<Seq<ConfigId>>,
)
    requires
        db.wf(),
        index_ok(old(order)@, old(index)@),
        extends(target, add_present(*db, old(order)@, ids@)),
        target.len() <= 256,
    ensures
        index_ok(final(order)@, final(index)@),
        final(order)@ == add_present(*db, old(order)@, ids@),
{
    let ghost o0 = order@;
    let mut j: usize = 0;
    while j < ids.len()
        invariant
            db.wf(),
            index_ok(order@, index@),
            j <= ids@.len(),
            order@ == add_present(*db, o0, ids@.take(j as int)),
            extends(target, add_present(*db, o0, ids@)),
            target.len() <= 256,
        decreases ids@.len() - j,
    {
        proof {
            lemma_add_present_extends(*db, o0, ids@, j as int);
            assert(ids@.take(j + 1).drop_last() =~= ids@.take(j as int));
            assert(ids@.take(j + 1).last() == ids@[j as int]);
        }
        if db.has_asset(AssetKind::FloorPartConfig, ids[j].uuid) {
            add_module(order, index, ids[j]);
        }
        j += 1;
    }
    proof {
        assert(ids@.take(ids@.len() as int) =~= ids@);
    }
}

/// Lists the parts that generation uses, each once, in the order in which the selected
/// adjacency configurations name them, with the position of each.
pub(crate) fn build_module_order(
    db: &AssetDb,
    adjacency: &Vec<Option<FloorPartAdjacencyConfig>>,
    sel: &Vec<usize>,
    Ghost(cfgs): Ghost<Seq<FloorPartAdjacencyConfig>>,
) -> (res: (Vec<ConfigId>, HashMap<u128, usize>))
    requires
        db.wf(),
        sel@.len() == cfgs.len(),
        forall|q: int|
            0 <= q < sel@.len() ==> #[trigger] sel@[q] < adjacency@.len() && adjacency@[sel@[
                q] as int] == Some(cfgs[q]),
        module_order(*db, cfgs).len() <= 256,
    ensures
        res.0@ == module_order(*db, cfgs),
        index_ok(res.0@, res.1@),
{
    let mut order: Vec<ConfigId> = Vec::new();
    let mut index: HashMap<u128, usize> = HashMap::new();
    let ghost target = module_order(*db, cfgs);
    let mut i: usize = 0;
    while i < sel.len()
        invariant
            db.wf(),
            sel@.len() == cfgs.len(),
            forall|q: int|
                0 <= q < sel@.len() ==> #[trigger] sel@[q] < adjacency@.len() && adjacency@[sel@[
                    q] as int] == Some(cfgs[q]),
            target == module_order(*db, cfgs),
            target.len() <= 256,
            i <= sel@.len(),
            index_ok(order@, index@),
            order@ == module_order(*db, cfgs.take(i as int)),
        decreases sel@.len() - i,
    {
        let config = match &adjacency[sel[i]] {
            Some(c) => c,
            None => {
                proof {
                    assert(adjacency@[sel@[i as int] as int] == Some(cfgs[i as int]));
                }
                return (order, index);
            },
        };
        proof {
            assert(cfgs.take(i + 1).drop_last() =~= cfgs.take(i as int));
            assert(cfgs.take(i + 1).last() == *config);
            lemma_module_order_extends(*db, cfgs, i + 1);
        }
        let ghost o = order@;
        let ghost o1 = add_id(o, config.part);
        let ghost o2 = add_present(*db, o1, config.north_adjacent_parts@);
        let ghost o3 = add_present(*db, o2, config.south_adjacent_parts@);
        let ghost o4 = add_present(*db, o3, config.west_adjacent_parts@);
        proof {
            lemma_add_present_extends(*db, o1, config.north_adjacent_parts@, 0);
            lemma_add_present_extends(*db, o2, config.south_adjacent_parts@, 0);
            lemma_add_present_extends(*db, o3, config.west_adjacent_parts@, 0);
            lemma_add_present_extends(*db, o4, config.east_adjacent_parts@, 0);
        }
        add_module(&mut order, &mut index, config.part);
        add_present_modules(db, &mut order, &mut index, &config.north_adjacent_parts, Ghost(target));
        add_present_modules(db, &mut order, &mut index, &config.south_adjacent_parts, Ghost(target));
        add_present_modules(db, &mut order, &mut index, &config.west_adjacent_parts, Ghost(target));
        add_present_modules(db, &mut order, &mut index, &config.east_adjacent_parts, Ghost(target));
        i += 1;
    }
    proof {
        assert(cfgs.take(sel@.len() as int) =~= cfgs);
    }
    (order, index)
}

/// The parts that an adjacency configuration lists on side `dir` of its part.
pub open spec fn side_list(c: FloorPartAdjacencyConfig, dir: WayDirection) -> Seq<ConfigId> {
    match dir {
        WayDirection::North => c.north_adjacent_parts@,
        WayDirection::South => c.south_adjacent_parts@,
        WayDirection::West => c.west_adjacent_parts@,
        WayDirection::East => c.east_adjacent_parts@,
    }
}

/// The direction facing `dir`.
pub open spec fn opposite(dir: WayDirection) -> WayDirection {
    match dir {
        WayDirection::North => WayDirection::South,
        WayDirection::South => WayDirection::North,
        WayDirection::West => WayDirection::East,
        WayDirection::East => WayDirection::West,
    }
}

/// The configuration `c` lists the present part `b` on side `dir` of its part `a`.
pub open spec fn lists(db: AssetDb, c: FloorPartAdjacencyConfig, a: ConfigId, dir: WayDirection, b: ConfigId) -> bool {
    c.part == a && side_list(c, dir).contains(b) && part_present(db, b)
}

/// Part `b` may stand on side `dir` of part `a`: a configuration lists `b` on that side of
/// `a`, or lists `a` on the facing side of `b`.
pub open spec fn allows(db: AssetDb, cfgs: Seq<FloorPartAdjacencyConfig>, a: ConfigId, dir: WayDirection, b: ConfigId) -> bool {
    exists|i: int|
        0 <= i < cfgs.len() && (lists(db, #[trigger] cfgs[i], a, dir, b) || lists(
            db,
            cfgs[i],
            b,
            opposite(dir),
            a,
        ))
}

/// The modules that may stand on each side of a module.
#[derive(Clone, Copy)]
pub struct ModuleNeighbours {
    pub north: [u8; 32],
    pub south: [u8; 32],
    pub west: [u8; 32],
    pub east: [u8; 32],
}

impl ModuleNeighbours {
    /// The set of modules on side `dir`.
    pub open spec fn side(&self, dir: WayDirection) -> [u8; 32] {
        match dir {
            WayDirection::North => self.north,
            WayDirection::South => self.south,
            WayDirection::West => self.west,
            WayDirection::East => self.east,
        }
    }

    /// A module with no neighbours yet.
    pub fn new() -> (res: Self)
        ensures
            forall|d: WayDirection, k: int| !has_bit(res.side(d), k),
    {
        ModuleNeighbours {
            north: empty_set(),
            south: empty_set(),
            west: empty_set(),
            east: empty_set(),
        }
    }

    /// Adds module `idx` on side `dir`.
    pub fn add_neighbour(&mut self, dir: WayDirection, idx: usize)
        requires
            idx < 256,
        ensures
            forall|d: WayDirection, k: int|
                #[trigger] has_bit(final(self).side(d), k) == ((d == dir && k == idx) || has_bit(
                    old(self).side(d),
                    k,
                )),
    {
        match dir {
            WayDirection::North => set_bit(&mut self.north, idx),
            WayDirection::South => set_bit(&mut self.south, idx),
            WayDirection::West => set_bit(&mut self.west, idx),
            WayDirection::East => set_bit(&mut self.east, idx),
        }
    }
}

fn opposite_of(dir: WayDirection) -> (res: WayDirection)
    ensures
        res == opposite(dir),
{
    match dir {
        WayDirection::North => WayDirection::South,
        WayDirection::South => WayDirection::North,
        WayDirection::West => WayDirection::East,
        WayDirection::East => WayDirection::West,
    }
}

/// Links module `a` with each present part of `list` on side `dir` of `a`, and `a` with
/// each of them on the facing side.
fn link_side(
    db: &AssetDb,
    modules: &mut Vec<ModuleNeighbours>,
    index: &HashMap<u128, usize>,
    a: usize,
    list: &Vec<ConfigId>,
    dir: WayDirection,
    Ghost(order): Ghost<Seq<ConfigId>>,
)
    requires
        db.wf(),
        index_ok(order, index@),
        old(modules)@.len() == order.len(),
        order.len() <= 256,
        a < order.len(),
        forall|j: int|
            0 <= j < list@.len() && part_present(*db, #[trigger] list@[j]) ==> order.contains(
                list@[j],
            ),
    ensures
        final(modules)@.len() == order.len(),
        forall|x: int, d: WayDirection, y: int|
            0 <= x < order.len() ==> #[trigger] has_bit(final(modules)@[x].side(d), y) == (has_bit(
                old(modules)@[x].side(d),
                y,
            ) || (0 <= y < order.len() && (
                (x == a && d == dir && list@.contains(order[y]) && part_present(*db, order[y]))
                || (y == a && d == opposite(dir) && list@.contains(order[x]) && part_present(*db, order[x]))))),
{
    let ghost m0 = modules@;
    let opp = opposite_of(dir);
    let mut j: usize = 0;
    while j < list.len()
        invariant
            db.wf(),
            index_ok(order, index@),
            modules@.len() == order.len(),
            order.len() <= 256,
            a < order.len(),
            opp == opposite(dir),
            forall|j: int|
                0 <= j < list@.len() && part_present(*db, #[trigger] list@[j]) ==> order.contains(
                    list@[j],
                ),
            j <= list@.len(),
            forall|x: int, d: WayDirection, y: int|
                0 <= x < order.len() ==> #[trigger] has_bit(modules@[x].side(d), y) == (has_bit(
                    m0[x].side(d),
                    y,
                ) || (0 <= y < order.len() && (
                    (x == a && d == dir && list@.take(j as int).contains(order[y]) && part_present(*db, order[y]))
                    || (y == a && d == opp && list@.take(j as int).contains(order[x]) && part_present(*db, order[x]))))),
        decreases list@.len() - j,
    {
        let p = list[j];
        proof {
            assert(list@.take(j + 1) =~= list@.take(j as int).push(p));
        }
        if db.has_asset(AssetKind::FloorPartConfig, p.uuid) {
            proof {
                assert(order.contains(list@[j as int]));
                let k = choose|k: int| 0 <= k < order.len() && order[k] == p;
                assert(index@.contains_key(order[k].uuid));
            }
            let b = *index.get(&p.uuid).unwrap();
            proof {
                assert(order[b as int].uuid == p.uuid);
                assert(order[b as int] == p);
            }
            let mut ma = modules[a];
            ma.add_neighbour(dir, b);
            modules.set(a, ma);
            let mut mb = modules[b];
            mb.add_neighbour(opp, a);
            modules.set(b, mb);
            proof {
                assert forall|x: int, d: WayDirection, y: int|
                    0 <= x < order.len() implies #[trigger] has_bit(modules@[x].side(d), y) == (has_bit(
                        m0[x].side(d),
                        y,
                    ) || (0 <= y < order.len() && (
                        (x == a && d == dir && list@.take(j + 1).contains(order[y]) && part_present(*db, order[y]))
                        || (y == a && d == opp && list@.take(j + 1).contains(order[x]) && part_present(*db, order[x]))))) by {
                    if 0 <= y < order.len() && list@.take(j + 1).contains(order[y]) && !list@.take(
                        j as int,
                    ).contains(order[y]) {
                        assert(order[y] == p);
                        assert(y == b as int) by {
                            assert(index@[order[y].uuid] == y);
                        }
                    }
                    if list@.take(j + 1).contains(order[x]) && !list@.take(j as int).contains(order[x]) {
                        assert(order[x] == p);
                        assert(x == b as int) by {
                            assert(index@[order[x].uuid] == x);
                        }
                    }
                    if y == b && 0 <= y {
                        assert(list@.take(j + 1).contains(order[y])) by {
                            assert(list@.take(j + 1)[j as int] == p);
                        }
                    }
                    if x == b {
                        assert(list@.take(j + 1).contains(order[x])) by {
                            assert(list@.take(j + 1)[j as int] == p);
                        }
                    }
                }
            }
        } else {
            proof {
                assert forall|x: int, d: WayDirection, y: int|
                    0 <= x < order.len() implies #[trigger] has_bit(modules@[x].side(d), y) == (has_bit(
                        m0[x].side(d),
                        y,
                    ) || (0 <= y < order.len() && (
                        (x == a && d == dir && list@.take(j + 1).contains(order[y]) && part_present(*db, order[y]))
                        || (y == a && d == opp && list@.take(j + 1).contains(order[x]) && part_present(*db, order[x]))))) by {
                    if list@.take(j + 1).contains(order[y]) && !list@.take(j as int).contains(order[y]) {
                        assert(order[y] == p);
                    }
                    if list@.take(j + 1).contains(order[x]) && !list@.take(j as int).contains(order[x]) {
                        assert(order[x] == p);
                    }
                }
            }
        }
        j += 1;
    }
    proof {
        assert(list@.take(list@.len() as int) =~= list@);
    }
}

proof fn lemma_extends_contains(r: Seq<ConfigId>, o: Seq<ConfigId>, v: ConfigId)
    requires
        extends(r, o),
        o.contains(v),
    ensures
        r.contains(v),
{
    let k = choose|k: int| 0 <= k < o.len() && o[k] == v;
    assert(r[k] == v);
}

proof fn lemma_add_present_contains(db: AssetDb, o: Seq<ConfigId>, ids: Seq<ConfigId>, k: int)
    requires
        0 <= k < ids.len(),
        part_present(db, ids[k]),
    ensures
        add_present(db, o, ids).contains(ids[k]),
    decreases ids.len(),
{
    let prev = add_present(db, o, ids.drop_last());
    if k == ids.len() - 1 {
        if !prev.contains(ids[k]) {
            assert(prev.push(ids[k])[prev.len() as int] == ids[k]);
        }
    } else {
        lemma_add_present_contains(db, o, ids.drop_last(), k);
        if part_present(db, ids.last()) && !prev.contains(ids.last()) {
            lemma_extends_contains(prev.push(ids.last()), prev, ids[k]);
        }
    }
}

/// Every part that a selected configuration names, and that the database holds, has a
/// module.
proof fn lemma_module_order_covers(db: AssetDb, cfgs: Seq<FloorPartAdjacencyConfig>, i: int)
    requires
        0 <= i < cfgs.len(),
    ensures
        module_order(db, cfgs).contains(cfgs[i].part),
        forall|d: WayDirection, j: int|
            0 <= j < side_list(cfgs[i], d).len() && part_present(db, #[trigger] side_list(cfgs[i], d)[j])
                ==> module_order(db, cfgs).contains(side_list(cfgs[i], d)[j]),
{
    let c = cfgs[i];
    let o = module_order(db, cfgs.take(i));
    assert(cfgs.take(i + 1).drop_last() =~= cfgs.take(i));
    assert(cfgs.take(i + 1).last() == c);
    lemma_module_order_extends(db, cfgs, i + 1);
    let r = module_order(db, cfgs);
    let o1 = add_id(o, c.part);
    let o2 = add_present(db, o1, c.north_adjacent_parts@);
    let o3 = add_present(db, o2, c.south_adjacent_parts@);
    let o4 = add_present(db, o3, c.west_adjacent_parts@);
    let o5 = add_present(db, o4, c.east_adjacent_parts@);
    assert(o5 == module_order(db, cfgs.take(i + 1)));
    lemma_add_present_extends(db, o1, c.north_adjacent_parts@, 0);
    lemma_add_present_extends(db, o2, c.south_adjacent_parts@, 0);
    lemma_add_present_extends(db, o3, c.west_adjacent_parts@, 0);
    lemma_add_present_extends(db, o4, c.east_adjacent_parts@, 0);
    assert(o1.contains(c.part)) by {
        if !o.contains(c.part) {
            assert(o1[o.len() as int] == c.part);
        }
    }
    lemma_extends_contains(o2, o1, c.part);
    lemma_extends_contains(o3, o2, c.part);
    lemma_extends_contains(o4, o3, c.part);
    lemma_extends_contains(o5, o4, c.part);
    lemma_extends_contains(r, o5, c.part);
    assert forall|d: WayDirection, j: int|
        0 <= j < side_list(c, d).len() && part_present(db, #[trigger] side_list(c, d)[j])
            implies r.contains(side_list(c, d)[j]) by {
        let v = side_list(c, d)[j];
        match d {
            WayDirection::North => {
                lemma_add_present_contains(db, o1, c.north_adjacent_parts@, j);
                lemma_extends_contains(o3, o2, v);
                lemma_extends_contains(o4, o3, v);
                lemma_extends_contains(o5, o4, v);
            },
            WayDirection::South => {
                lemma_add_present_contains(db, o2, c.south_adjacent_parts@, j);
                lemma_extends_contains(o4, o3, v);
                lemma_extends_contains(o5, o4, v);
            },
            WayDirection::West => {
                lemma_add_present_contains(db, o3, c.west_adjacent_parts@, j);
                lemma_extends_contains(o5, o4, v);
            },
            WayDirection::East => {
                lemma_add_present_contains(db, o4, c.east_adjacent_parts@, j);
            },
        }
        lemma_extends_contains(r, o5, v);
    }
}

/// The neighbour sets of the modules: module `y` stands on side `d` of module `x` where
/// the configurations allow the part of `y` there.
pub(crate) fn build_modules(
    db: &AssetDb,
    adjacency: &Vec<Option<FloorPartAdjacencyConfig>>,
    sel: &Vec<usize>,
    order: &Vec<ConfigId>,
    index: &HashMap<u128, usize>,
    Ghost(cfgs): Ghost<Seq<FloorPartAdjacencyConfig>>,
) -> (res: Vec<ModuleNeighbours>)
    requires
        db.wf(),
        sel@.len() == cfgs.len(),
        forall|q: int|
            0 <= q < sel@.len() ==> #[trigger] sel@[q] < adjacency@.len() && adjacency@[sel@[
                q] as int] == Some(cfgs[q]),
        order@ == module_order(*db, cfgs),
        order@.len() <= 256,
        index_ok(order@, index@),
    ensures
        res@.len() == order@.len(),
        forall|x: int, d: WayDirection, y: int|
            0 <= x < order@.len() ==> #[trigger] has_bit(res@[x].side(d), y) == (0 <= y
                < order@.len() && allows(*db, cfgs, order@[x], d, order@[y])),
{
    let mut modules: Vec<ModuleNeighbours> = Vec::new();
    while modules.len() < order.len()
        invariant
            modules@.len() <= order@.len(),
            forall|x: int, d: WayDirection, y: int|
                0 <= x < modules@.len() ==> !#[trigger] has_bit(modules@[x].side(d), y),
        decreases order@.len() - modules@.len(),
    {
        modules.push(ModuleNeighbours::new());
    }
    let mut i: usize = 0;
    while i < sel.len()
        invariant
            db.wf(),
            sel@.len() == cfgs.len(),
            forall|q: int|
                0 <= q < sel@.len() ==> #[trigger] sel@[q] < adjacency@.len() && adjacency@[sel@[
                    q] as int] == Some(cfgs[q]),
            order@ == module_order(*db, cfgs),
            order@.len() <= 256,
            index_ok(order@, index@),
            i <= sel@.len(),
            modules@.len() == order@.len(),
            forall|x: int, d: WayDirection, y: int|
                0 <= x < order@.len() ==> #[trigger] has_bit(modules@[x].side(d), y) == (0 <= y
                    < order@.len() && allows(*db, cfgs.take(i as int), order@[x], d, order@[y])),
        decreases sel@.len() - i,
    {
        let config = match &adjacency[sel[i]] {
            Some(c) => c,
            None => {
                proof {
                    assert(adjacency@[sel@[i as int] as int] == Some(cfgs[i as int]));
                }
                return modules;
            },
        };
        let ghost c = *config;
        proof {
            assert(c == cfgs[i as int]);
            lemma_module_order_covers(*db, cfgs, i as int);
            let k = choose|k: int| 0 <= k < order@.len() && order@[k] == c.part;
            assert(index@.contains_key(order@[k].uuid));
            assert forall|d: WayDirection, j: int|
                0 <= j < side_list(c, d).len() && part_present(*db, #[trigger] side_list(c, d)[j])
                    implies order@.contains(side_list(c, d)[j]) by {
                assert(part_present(*db, side_list(cfgs[i as int], d)[j]));
            }
        }
        let a = *index.get(&config.part.uuid).unwrap();
        proof {
            assert(order@[a as int].uuid == c.part.uuid);
            assert(order@[a as int] == c.part);
            assert forall|j: int|
                0 <= j < c.north_adjacent_parts@.len() && part_present(*db, #[trigger] c.north_adjacent_parts@[j])
                    implies order@.contains(c.north_adjacent_parts@[j]) by {
                assert(side_list(c, WayDirection::North)[j] == c.north_adjacent_parts@[j]);
            }
            assert forall|j: int|
                0 <= j < c.south_adjacent_parts@.len() && part_present(*db, #[trigger] c.south_adjacent_parts@[j])
                    implies order@.contains(c.south_adjacent_parts@[j]) by {
                assert(side_list(c, WayDirection::South)[j] == c.south_adjacent_parts@[j]);
            }
            assert forall|j: int|
                0 <= j < c.west_adjacent_parts@.len() && part_present(*db, #[trigger] c.west_adjacent_parts@[j])
                    implies order@.contains(c.west_adjacent_parts@[j]) by {
                assert(side_list(c, WayDirection::West)[j] == c.west_adjacent_parts@[j]);
            }
            assert forall|j: int|
                0 <= j < c.east_adjacent_parts@.len() && part_present(*db, #[trigger] c.east_adjacent_parts@[j])
                    implies order@.contains(c.east_adjacent_parts@[j]) by {
                assert(side_list(c, WayDirection::East)[j] == c.east_adjacent_parts@[j]);
            }
        }
        let ghost m0 = modules@;
        link_side(db, &mut modules, index, a, &config.north_adjacent_parts, WayDirection::North, Ghost(order@));
        let ghost m1 = modules@;
        link_side(db, &mut modules, index, a, &config.south_adjacent_parts, WayDirection::South, Ghost(order@));
        let ghost m2 = modules@;
        link_side(db, &mut modules, index, a, &config.west_adjacent_parts, WayDirection::West, Ghost(order@));
        let ghost m3 = modules@;
        link_side(db, &mut modules, index, a, &config.east_adjacent_parts, WayDirection::East, Ghost(order@));
        proof {
            let n = order@.len();
            assert(cfgs.take(i + 1).drop_last() =~= cfgs.take(i as int));
            assert(cfgs.take(i + 1)[i as int] == c);
            assert forall|x: int, d: WayDirection, y: int|
                0 <= x < n implies #[trigger] has_bit(modules@[x].side(d), y) == (0 <= y < n
                    && allows(*db, cfgs.take(i + 1), order@[x], d, order@[y])) by {
                let A = order@[x];
                let B = order@[y];
                assert(has_bit(m1[x].side(d), y) == has_bit(m1[x].side(d), y));
                assert(has_bit(m2[x].side(d), y) == has_bit(m2[x].side(d), y));
                assert(has_bit(m3[x].side(d), y) == has_bit(m3[x].side(d), y));
                assert(has_bit(m0[x].side(d), y) == has_bit(m0[x].side(d), y));
                if 0 <= y < n {
                    assert((A == c.part) == (x == a)) by {
                        assert(index@.contains_key(order@[x].uuid));
                        assert(index@.contains_key(order@[a as int].uuid));
                    }
                    assert((B == c.part) == (y == a)) by {
                        assert(index@.contains_key(order@[y].uuid));
                        assert(index@.contains_key(order@[a as int].uuid));
                    }
                    let new_link = lists(*db, c, A, d, B) || lists(*db, c, B, opposite(d), A);
                    if allows(*db, cfgs.take(i + 1), A, d, B) {
                        let q = choose|q: int|
                            0 <= q < cfgs.take(i + 1).len() && (lists(
                                *db,
                                #[trigger] cfgs.take(i + 1)[q],
                                A,
                                d,
                                B,
                            ) || lists(*db, cfgs.take(i + 1)[q], B, opposite(d), A));
                        if q < i {
                            assert(cfgs.take(i as int)[q] == cfgs.take(i + 1)[q]);
                        }
                    }
                    if allows(*db, cfgs.take(i as int), A, d, B) {
                        let q = choose|q: int|
                            0 <= q < cfgs.take(i as int).len() && (lists(
                                *db,
                                #[trigger] cfgs.take(i as int)[q],
                                A,
                                d,
                                B,
                            ) || lists(*db, cfgs.take(i as int)[q], B, opposite(d), A));
                        assert(cfgs.take(i + 1)[q] == cfgs.take(i as int)[q]);
                    }
                    if new_link {
                        assert(lists(*db, cfgs.take(i + 1)[i as int], A, d, B) || lists(
                            *db,
                            cfgs.take(i + 1)[i as int],
                            B,
                            opposite(d),
                            A,
                        ));
                    }
                }
            }
        }
        i += 1;
    }
    proof {
        assert(cfgs.take(sel@.len() as int) =~= cfgs);
    }
    modules
}

/// The configuration of part `id` among the given ones: the first with that identifier.
pub open spec fn find_part(parts: Seq<(ConfigId, FloorPartConfig)>, id: ConfigId) -> Option<
    FloorPartConfig,
>
    decreases parts.len(),
{
    if parts.len() == 0 {
        None
    } else if parts[0].0 == id {
        Some(parts[0].1)
    } else {
        find_part(parts.skip(1), id)
    }
}

/// Finds the configuration of part `id`.
pub fn lookup_part(parts: &Vec<(ConfigId, FloorPartConfig)>, id: ConfigId) -> (res: Option<
    FloorPartConfig,
>)
    ensures
        res == find_part(parts@, id),
{
    let mut k: usize = 0;
    proof {
        assert(parts@.skip(0) =~= parts@);
    }
    while k < parts.len()
        invariant
            k <= parts@.len(),
            find_part(parts@, id) == find_part(parts@.skip(k as int), id),
        decreases parts@.len() - k,
    {
        proof {
            assert(parts@.skip(k as int)[0] == parts@[k as int]);
            assert(parts@.skip(k as int).skip(1) =~= parts@.skip(k + 1));
        }
        if parts[k].0 == id {
            return Some(parts[k].1);
        }
        k += 1;
    }
    proof {
        assert(parts@.skip(k as int).len() == 0);
    }
    None
}

/// The top row of the part has walls only: it can lie along the north side of a floor.
pub open spec fn north_edge(p: FloorPartConfig) -> bool {
    forall|c: int| 0 <= c < 5 ==> !(#[trigger] p.wall_data[0][c] is NoWall)
}

/// The bottom row of the part has walls only.
pub open spec fn south_edge(p: FloorPartConfig) -> bool {
    forall|c: int| 0 <= c < 5 ==> !(#[trigger] p.wall_data[4][c] is NoWall)
}

/// The left column of the part has walls only.
pub open spec fn west_edge(p: FloorPartConfig) -> bool {
    forall|r: int| 0 <= r < 5 ==> !(#[trigger] p.wall_data[r][0] is NoWall)
}

/// The right column of the part has walls only.
pub open spec fn east_edge(p: FloorPartConfig) -> bool {
    forall|r: int| 0 <= r < 5 ==> !(#[trigger] p.wall_data[r][4] is NoWall)
}

/// The four edges of a part, in the order north, south, west, east: whether each has walls
/// only.
fn part_edges(p: &FloorPartConfig) -> (res: (bool, bool, bool, bool))
    ensures
        res.0 == north_edge(*p),
        res.1 == south_edge(*p),
        res.2 == west_edge(*p),
        res.3 == east_edge(*p),
{
    let mut north = true;
    let mut south = true;
    let mut west = true;
    let mut east = true;
    let mut k: usize = 0;
    while k < 5
        invariant
            k <= 5,
            north == forall|c: int| 0 <= c < k ==> !(#[trigger] p.wall_data[0][c] is NoWall),
            south == forall|c: int| 0 <= c < k ==> !(#[trigger] p.wall_data[4][c] is NoWall),
            west == forall|r: int| 0 <= r < k ==> !(#[trigger] p.wall_data[r][0] is NoWall),
            east == forall|r: int| 0 <= r < k ==> !(#[trigger] p.wall_data[r][4] is NoWall),
        decreases 5 - k,
    {
        if p.wall_data[0][k] == WallGraphicsTileGroup::NoWall {
            north = false;
        }
        if p.wall_data[4][k] == WallGraphicsTileGroup::NoWall {
            south = false;
        }
        if p.wall_data[k][0] == WallGraphicsTileGroup::NoWall {
            west = false;
        }
        if p.wall_data[k][4] == WallGraphicsTileGroup::NoWall {
            east = false;
        }
        k += 1;
    }
    (north, south, west, east)
}

/// The modules whose parts can lie along each side of a floor: north, south, west, east.
pub(crate) fn edge_masks(parts: &Vec<(ConfigId, FloorPartConfig)>, order: &Vec<ConfigId>) -> (res: (
    [u8; 32],
    [u8; 32],
    [u8; 32],
    [u8; 32],
))
    requires
        order@.len() <= 256,
        forall|k: int| 0 <= k < order@.len() ==> find_part(parts@, #[trigger] order@[k]) is Some,
    ensures
        forall|m: int|
            #[trigger] has_bit(res.0, m) == (0 <= m < order@.len() && north_edge(
                find_part(parts@, order@[m]).unwrap(),
            )),
        forall|m: int|
            #[trigger] has_bit(res.1, m) == (0 <= m < order@.len() && south_edge(
                find_part(parts@, order@[m]).unwrap(),
            )),
        forall|m: int|
            #[trigger] has_bit(res.2, m) == (0 <= m < order@.len() && west_edge(
                find_part(parts@, order@[m]).unwrap(),
            )),
        forall|m: int|
            #[trigger] has_bit(res.3, m) == (0 <= m < order@.len() && east_edge(
                find_part(parts@, order@[m]).unwrap(),
            )),
{
    let mut north = empty_set();
    let mut south = empty_set();
    let mut west = empty_set();
    let mut east = empty_set();
    let mut id: usize = 0;
    while id < order.len()
        invariant
            id <= order@.len() <= 256,
            forall|k: int| 0 <= k < order@.len() ==> find_part(parts@, #[trigger] order@[k]) is Some,
            forall|m: int|
                #[trigger] has_bit(north, m) == (0 <= m < id && north_edge(
                    find_part(parts@, order@[m]).unwrap(),
                )),
            forall|m: int|
                #[trigger] has_bit(south, m) == (0 <= m < id && south_edge(
                    find_part(parts@, order@[m]).unwrap(),
                )),
            forall|m: int|
                #[trigger] has_bit(west, m) == (0 <= m < id && west_edge(
                    find_part(parts@, order@[m]).unwrap(),
                )),
            forall|m: int|
                #[trigger] has_bit(east, m) == (0 <= m < id && east_edge(
                    find_part(parts@, order@[m]).unwrap(),
                )),
        decreases order@.len() - id,
    {
        proof {
            assert(find_part(parts@, order@[id as int]) is Some);
        }
        let part = lookup_part(parts, order[id]).unwrap();
        let (n, s, w, e) = part_edges(&part);
        if n {
            set_bit(&mut north, id);
        }
        if s {
            set_bit(&mut south, id);
        }
        if w {
            set_bit(&mut west, id);
        }
        if e {
            set_bit(&mut east, id);
        }
        id += 1;
    }
    (north, south, west, east)
}

/// Index of cell `c = (column, row)` of a row-major grid `w` cells wide.
pub open spec fn slot(w: int, c: (int, int)) -> int {
    c.1 * w + c.0
}

/// The part of module `m` has walls along each side of a `w × w` grid of parts that
/// column `i`, row `j` lies on (north before south, west before east).
pub open spec fn edges_fit(
    parts: Seq<(ConfigId, FloorPartConfig)>,
    order: Seq<ConfigId>,
    w: int,
    i: int,
    j: int,
    m: int,
) -> bool {
    let p = find_part(parts, order[m]).unwrap();
    &&& 0 <= m < order.len()
    &&& (j == 0 ==> north_edge(p))
    &&& (j != 0 && j == w - 1 ==> south_edge(p))
    &&& (i == 0 ==> west_edge(p))
    &&& (i != 0 && i == w - 1 ==> east_edge(p))
}

/// The part of each module placed next to column `i`, row `j` may stand on that side of
/// the part of module `m`.
pub open spec fn neighbours_fit(
    db: AssetDb,
    cfgs: Seq<FloorPartAdjacencyConfig>,
    order: Seq<ConfigId>,
    w: int,
    cur: Seq<Option<usize>>,
    i: int,
    j: int,
    m: int,
) -> bool {
    &&& (j > 0 && cur[slot(w, (i, j - 1))] is Some ==> allows(
        db,
        cfgs,
        order[m],
        WayDirection::North,
        order[cur[slot(w, (i, j - 1))].unwrap() as int],
    ))
    &&& (j < w - 1 && cur[slot(w, (i, j + 1))] is Some ==> allows(
        db,
        cfgs,
        order[m],
        WayDirection::South,
        order[cur[slot(w, (i, j + 1))].unwrap() as int],
    ))
    &&& (i > 0 && cur[slot(w, (i - 1, j))] is Some ==> allows(
        db,
        cfgs,
        order[m],
        WayDirection::West,
        order[cur[slot(w, (i - 1, j))].unwrap() as int],
    ))
    &&& (i < w - 1 && cur[slot(w, (i + 1, j))] is Some ==> allows(
        db,
        cfgs,
        order[m],
        WayDirection::East,
        order[cur[slot(w, (i + 1, j))].unwrap() as int],
    ))
}

/// Module `m` may be placed at column `i`, row `j` of a `w × w` grid of parts, given the
/// modules `cur` placed so far.
pub open spec fn fits(
    db: AssetDb,
    cfgs: Seq<FloorPartAdjacencyConfig>,
    order: Seq<ConfigId>,
    parts: Seq<(ConfigId, FloorPartConfig)>,
    w: int,
    cur: Seq<Option<usize>>,
    i: int,
    j: int,
    m: int,
) -> bool {
    edges_fit(parts, order, w, i, j, m) && neighbours_fit(db, cfgs, order, w, cur, i, j, m)
}

/// The modules' neighbour sets match what the configurations allow.
pub open spec fn modules_match(
    db: AssetDb,
    cfgs: Seq<FloorPartAdjacencyConfig>,
    order: Seq<ConfigId>,
    modules: Seq<ModuleNeighbours>,
) -> bool {
    &&& modules.len() == order.len()
    &&& forall|x: int, d: WayDirection, y: int|
        0 <= x < order.len() ==> #[trigger] has_bit(modules[x].side(d), y) == (0 <= y < order.len()
            && allows(db, cfgs, order[x], d, order[y]))
}

/// The edge masks match the modules' parts.
pub open spec fn masks_match(
    parts: Seq<(ConfigId, FloorPartConfig)>,
    order: Seq<ConfigId>,
    masks: ([u8; 32], [u8; 32], [u8; 32], [u8; 32]),
) -> bool {
    &&& forall|m: int|
        #[trigger] has_bit(masks.0, m) == (0 <= m < order.len() && north_edge(
            find_part(parts, order[m]).unwrap(),
        ))
    &&& forall|m: int|
        #[trigger] has_bit(masks.1, m) == (0 <= m < order.len() && south_edge(
            find_part(parts, order[m]).unwrap(),
        ))
    &&& forall|m: int|
        #[trigger] has_bit(masks.2, m) == (0 <= m < order.len() && west_edge(
            find_part(parts, order[m]).unwrap(),
        ))
    &&& forall|m: int|
        #[trigger] has_bit(masks.3, m) == (0 <= m < order.len() && east_edge(
            find_part(parts, order[m]).unwrap(),
        ))
}

/// Whether module `b` fits the modules placed next to column `i`, row `j`.
fn neighbours_fit_module(
    modules: &Vec<ModuleNeighbours>,
    n: usize,
    w: usize,
    results: &Vec<Option<usize>>,
    i: usize,
    j: usize,
    b: usize,
    Ghost(db): Ghost<AssetDb>,
    Ghost(cfgs): Ghost<Seq<FloorPartAdjacencyConfig>>,
    Ghost(order): Ghost<Seq<ConfigId>>,
) -> (r: bool)
    requires
        1 <= w <= 16,
        i < w,
        j < w,
        b < n,
        n == order.len() <= 256,
        modules_match(db, cfgs, order, modules@),
        results@.len() == w * w,
        forall|k: int| 0 <= k < results@.len() && (#[trigger] results@[k]) is Some ==> results@[k].unwrap() < n,
    ensures
        r == neighbours_fit(db, cfgs, order, w as int, results@, i as int, j as int, b as int),
{
    proof {
        assert(j * w + i < w * w <= 256) by (nonlinear_arith)
            requires
                i < w,
                j < w,
                w <= 16,
        ;
        assert((j + 1) * w == j * w + w) by (nonlinear_arith);
        assert((j - 1) * w == j * w - w) by (nonlinear_arith);
        if j + 1 < w {
            assert((j + 1) * w + i < w * w) by (nonlinear_arith)
                requires
                    i < w,
                    j + 1 < w,
            ;
        }
    }
    let idx = j * w + i;
    let module = modules[b];
    let mut ok = true;
    if j > 0 {
        if let Some(id) = results[idx - w] {
            if !test_bit(&module.north, id) {
                ok = false;
            }
        }
    }
    if j + 1 < w {
        if let Some(id) = results[idx + w] {
            if !test_bit(&module.south, id) {
                ok = false;
            }
        }
    }
    if i > 0 {
        if let Some(id) = results[idx - 1] {
            if !test_bit(&module.west, id) {
                ok = false;
            }
        }
    }
    if i + 1 < w {
        if let Some(id) = results[idx + 1] {
            if !test_bit(&module.east, id) {
                ok = false;
            }
        }
    }
    proof {
        let cur = results@;
        if j > 0 && cur[slot(w as int, (i as int, j - 1))] is Some {
            let id = cur[slot(w as int, (i as int, j - 1))].unwrap();
            assert(has_bit(modules@[b as int].side(WayDirection::North), id as int) == (0 <= id
                < order.len() && allows(db, cfgs, order[b as int], WayDirection::North, order[id as int])));
        }
        if j + 1 < w && cur[slot(w as int, (i as int, j + 1))] is Some {
            let id = cur[slot(w as int, (i as int, j + 1))].unwrap();
            assert(has_bit(modules@[b as int].side(WayDirection::South), id as int) == (0 <= id
                < order.len() && allows(db, cfgs, order[b as int], WayDirection::South, order[id as int])));
        }
        if i > 0 && cur[slot(w as int, (i - 1, j as int))] is Some {
            let id = cur[slot(w as int, (i - 1, j as int))].unwrap();
            assert(has_bit(modules@[b as int].side(WayDirection::West), id as int) == (0 <= id
                < order.len() && allows(db, cfgs, order[b as int], WayDirection::West, order[id as int])));
        }
        if i + 1 < w && cur[slot(w as int, (i + 1, j as int))] is Some {
            let id = cur[slot(w as int, (i + 1, j as int))].unwrap();
            assert(has_bit(modules@[b as int].side(WayDirection::East), id as int) == (0 <= id
                < order.len() && allows(db, cfgs, order[b as int], WayDirection::East, order[id as int])));
        }
    }
    ok
}

/// The modules that may be placed at column `i`, row `j`, given those placed so far.
fn candidates(
    modules: &Vec<ModuleNeighbours>,
    masks: &([u8; 32], [u8; 32], [u8; 32], [u8; 32]),
    n: usize,
    w: usize,
    results: &Vec<Option<usize>>,
    i: usize,
    j: usize,
    Ghost(db): Ghost<AssetDb>,
    Ghost(cfgs): Ghost<Seq<FloorPartAdjacencyConfig>>,
    Ghost(order): Ghost<Seq<ConfigId>>,
    Ghost(parts): Ghost<Seq<(ConfigId, FloorPartConfig)>>,
) -> (res: [u8; 32])
    requires
        1 <= w <= 16,
        i < w,
        j < w,
        n == order.len() <= 256,
        modules_match(db, cfgs, order, modules@),
        masks_match(parts, order, *masks),
        results@.len() == w * w,
        forall|k: int| 0 <= k < results@.len() && (#[trigger] results@[k]) is Some ==> results@[k].unwrap() < n,
    ensures
        forall|m: int|
            #[trigger] has_bit(res, m) == fits(db, cfgs, order, parts, w as int, results@, i as int, j as int, m),
{
    let mut prob = first_bits(n);
    if j == 0 {
        prob = intersection(&prob, &masks.0);
    } else if j == w - 1 {
        prob = intersection(&prob, &masks.1);
    }
    if i == 0 {
        prob = intersection(&prob, &masks.2);
    } else if i == w - 1 {
        prob = intersection(&prob, &masks.3);
    }
    let ghost prob0 = prob;
    proof {
        assert forall|m: int| #[trigger] has_bit(prob0, m) == edges_fit(parts, order, w as int, i as int, j as int, m) by {
            assert(has_bit(masks.0, m) == has_bit(masks.0, m));
            assert(has_bit(masks.1, m) == has_bit(masks.1, m));
            assert(has_bit(masks.2, m) == has_bit(masks.2, m));
            assert(has_bit(masks.3, m) == has_bit(masks.3, m));
        }
    }
    let bits = set_bits(&prob);
    let mut q: usize = 0;
    while q < bits.len()
        invariant
            1 <= w <= 16,
            i < w,
            j < w,
            n == order.len() <= 256,
            modules_match(db, cfgs, order, modules@),
            results@.len() == w * w,
            forall|k: int| 0 <= k < results@.len() && (#[trigger] results@[k]) is Some ==> results@[k].unwrap() < n,
            q <= bits@.len(),
            forall|a: int| 0 <= a < bits@.len() ==> has_bit(prob0, #[trigger] bits@[a] as int),
            forall|m: int| #[trigger] has_bit(prob0, m) == edges_fit(parts, order, w as int, i as int, j as int, m),
            forall|m: int|
                #[trigger] has_bit(prob, m) == (has_bit(prob0, m) && ((exists|a: int| 0 <= a < q && bits@[a] == m)
                    ==> neighbours_fit(db, cfgs, order, w as int, results@, i as int, j as int, m))),
        decreases bits@.len() - q,
    {
        let b = bits[q];
        proof {
            assert(has_bit(prob0, bits@[q as int] as int));
            assert(edges_fit(parts, order, w as int, i as int, j as int, b as int));
        }
        let ok = neighbours_fit_module(modules, n, w, results, i, j, b, Ghost(db), Ghost(cfgs), Ghost(order));
        let ghost before = prob;
        if !ok {
            unset_bit(&mut prob, b);
        }
        proof {
            assert forall|m: int|
                #[trigger] has_bit(prob, m) == (has_bit(prob0, m) && ((exists|a: int| 0 <= a < q + 1 && bits@[a] == m)
                    ==> neighbours_fit(db, cfgs, order, w as int, results@, i as int, j as int, m))) by {
                assert(has_bit(before, m) == has_bit(before, m));
                if m != b {
                    if exists|a: int| 0 <= a < q + 1 && bits@[a] == m {
                        let a = choose|a: int| 0 <= a < q + 1 && bits@[a] == m;
                        assert(a < q);
                    }
                } else {
                    assert(bits@[q as int] == m);
                }
            }
        }
        q += 1;
    }
    proof {
        assert forall|m: int|
            #[trigger] has_bit(prob, m) == fits(db, cfgs, order, parts, w as int, results@, i as int, j as int, m) by {
            if has_bit(prob0, m) {
                let a = choose|a: int| 0 <= a < bits@.len() && bits@[a] == m;
                assert(exists|a: int| 0 <= a < bits@.len() && bits@[a] == m);
            }
        }
    }
    prob
}

/// The modules placed during the first `t` steps of the inward walk over a `w × w` grid;
/// the other cells are empty.
pub open spec fn placed_before(w: nat, r: Seq<Option<usize>>, t: int) -> Seq<Option<usize>> {
    Seq::new(
        r.len(),
        |k: int|
            if exists|s: int| 0 <= s < t && slot(w as int, #[trigger] inward_order(w)[s]) == k {
                r[k]
            } else {
                None
            },
    )
}

/// Step `t` of the inward walk placed a module that fits the modules placed before, or
/// none where none fits.
pub open spec fn step_ok(
    db: AssetDb,
    cfgs: Seq<FloorPartAdjacencyConfig>,
    order: Seq<ConfigId>,
    parts: Seq<(ConfigId, FloorPartConfig)>,
    w: nat,
    r: Seq<Option<usize>>,
    t: int,
) -> bool {
    let c = inward_order(w)[t];
    let cur = placed_before(w, r, t);
    match r[slot(w as int, c)] {
        Some(m) => fits(db, cfgs, order, parts, w as int, cur, c.0, c.1, m as int),
        None => forall|m: int| !fits(db, cfgs, order, parts, w as int, cur, c.0, c.1, m),
    }
}

/// `r` is a placement of modules on a `w × w` grid of parts that the inward walk can
/// produce: each step placed one of the modules that fit, at random, or none where none
/// fits.
pub open spec fn fill_ok(
    db: AssetDb,
    cfgs: Seq<FloorPartAdjacencyConfig>,
    order: Seq<ConfigId>,
    parts: Seq<(ConfigId, FloorPartConfig)>,
    w: nat,
    r: Seq<Option<usize>>,
) -> bool {
    &&& r.len() == w * w
    &&& forall|k: int| 0 <= k < r.len() && (#[trigger] r[k]) is Some ==> r[k].unwrap() < order.len()
    &&& forall|t: int| 0 <= t < w * w ==> #[trigger] step_ok(db, cfgs, order, parts, w, r, t)
}

/// Law: in a placement that the inward walk can produce on a grid of at least two parts a
/// side, the part of each module placed along a side of the grid has walls all along that
/// side of its own: its top row on the north side, its bottom row on the south side, its
/// left column on the west side and its right column on the east side.
pub proof fn lemma_placed_parts_close_the_floor_sides(
    db: AssetDb,
    cfgs: Seq<FloorPartAdjacencyConfig>,
    order: Seq<ConfigId>,
    parts: Seq<(ConfigId, FloorPartConfig)>,
    w: nat,
    r: Seq<Option<usize>>,
    i: int,
    j: int,
)
    requires
        fill_ok(db, cfgs, order, parts, w, r),
        w >= 2,
        0 <= i < w,
        0 <= j < w,
        r[slot(w as int, (i, j))] is Some,
    ensures
        ({
            let p = find_part(parts, order[r[slot(w as int, (i, j))].unwrap() as int]).unwrap();
            &&& j == 0 ==> forall|c: int| 0 <= c < 5 ==> !(#[trigger] p.wall_data[0][c] is NoWall)
            &&& j == w - 1 ==> forall|c: int| 0 <= c < 5 ==> !(#[trigger] p.wall_data[4][c] is NoWall)
            &&& i == 0 ==> forall|row: int| 0 <= row < 5 ==> !(#[trigger] p.wall_data[row][0] is NoWall)
            &&& i == w - 1 ==> forall|row: int| 0 <= row < 5 ==> !(#[trigger] p.wall_data[row][4] is NoWall)
        }),
{
    lemma_inward_visits_every_cell_once(w);
    assert(in_grid(w, (i, j)));
    assert(inward_order(w).contains((i, j)));
    let t = choose|t: int| 0 <= t < inward_order(w).len() && inward_order(w)[t] == (i, j);
    assert(step_ok(db, cfgs, order, parts, w, r, t));
}

/// Law: a module is in an edge mask exactly when its part has walls all along that side:
/// the top row for the north mask, the bottom row for the south mask, the left column for
/// the west mask and the right column for the east mask.
pub proof fn lemma_edge_masks_are_the_walled_sides(
    parts: Seq<(ConfigId, FloorPartConfig)>,
    order: Seq<ConfigId>,
    masks: ([u8; 32], [u8; 32], [u8; 32], [u8; 32]),
    m: int,
)
    requires
        masks_match(parts, order, masks),
    ensures
        has_bit(masks.0, m) <==> 0 <= m < order.len() && forall|c: int|
            0 <= c < 5 ==> !(#[trigger] find_part(parts, order[m]).unwrap().wall_data[0][c] is NoWall),
        has_bit(masks.1, m) <==> 0 <= m < order.len() && forall|c: int|
            0 <= c < 5 ==> !(#[trigger] find_part(parts, order[m]).unwrap().wall_data[4][c] is NoWall),
        has_bit(masks.2, m) <==> 0 <= m < order.len() && forall|row: int|
            0 <= row < 5 ==> !(#[trigger] find_part(parts, order[m]).unwrap().wall_data[row][0] is NoWall),
        has_bit(masks.3, m) <==> 0 <= m < order.len() && forall|row: int|
            0 <= row < 5 ==> !(#[trigger] find_part(parts, order[m]).unwrap().wall_data[row][4] is NoWall),
{
}

/// `rand::rng().random_range(0..len)`: a number below `len`, drawn by the thread's random
/// generator; the range must not be empty. Which number comes out is not stated.
#[verifier::external_body]
fn random_index(len: usize) -> (res: usize)
    requires
        len > 0,
    ensures
        res < len,
{
    rand::rng().random_range(0..len)
}

proof fn lemma_slot_bound(w: nat, t: int)
    requires
        0 <= t < w * w,
    ensures
        0 <= slot(w as int, inward_order(w)[t]) < w * w,
        in_grid(w, inward_order(w)[t]),
{
    lemma_inward_visits_every_cell_once(w);
    let b = inward_order(w)[t];
    assert(inward_order(w).contains(b));
    assert(in_grid(w, b));
    lemma_cell_index(w as int, b.0, b.1, b.0, b.1);
}

/// One step of the inward walk keeps the placement consistent.
proof fn lemma_fill_step(
    db: AssetDb,
    cfgs: Seq<FloorPartAdjacencyConfig>,
    order: Seq<ConfigId>,
    parts: Seq<(ConfigId, FloorPartConfig)>,
    w: nat,
    r: Seq<Option<usize>>,
    t: int,
    choice: Option<usize>,
)
    requires
        r.len() == w * w,
        0 <= t < w * w,
        r == placed_before(w, r, t),
        forall|s: int| 0 <= s < t ==> #[trigger] step_ok(db, cfgs, order, parts, w, r, s),
        choice matches Some(m) ==> fits(
            db,
            cfgs,
            order,
            parts,
            w as int,
            r,
            inward_order(w)[t].0,
            inward_order(w)[t].1,
            m as int,
        ),
        choice is None ==> forall|m: int|
            !fits(db, cfgs, order, parts, w as int, r, inward_order(w)[t].0, inward_order(w)[t].1, m),
    ensures
        ({
            let r2 = r.update(slot(w as int, inward_order(w)[t]), choice);
            &&& r2 == placed_before(w, r2, t + 1)
            &&& forall|s: int| 0 <= s < t + 1 ==> #[trigger] step_ok(db, cfgs, order, parts, w, r2, s)
        }),
{
    lemma_slot_bound(w, t);
    let r2 = r.update(slot(w as int, inward_order(w)[t]), choice);
    lemma_placed_before_step(w, r, t, choice);
    assert forall|s: int| 0 <= s < t + 1 implies #[trigger] step_ok(db, cfgs, order, parts, w, r2, s) by {
        lemma_placed_before_update(w, r, t, choice, s);
        if s < t {
            lemma_slot_injective(w, s, t);
            lemma_slot_bound(w, s);
            assert(step_ok(db, cfgs, order, parts, w, r, s));
            let c = inward_order(w)[s];
            assert(r2[slot(w as int, c)] == r[slot(w as int, c)]);
            assert(placed_before(w, r2, s) == placed_before(w, r, s));
            match r[slot(w as int, c)] {
                Some(m) => {
                    assert(fits(db, cfgs, order, parts, w as int, placed_before(w, r, s), c.0, c.1, m as int));
                },
                None => {
                    assert(forall|m: int| !fits(db, cfgs, order, parts, w as int, placed_before(w, r, s), c.0, c.1, m));
                },
            }
            assert(step_ok(db, cfgs, order, parts, w, r2, s));
        } else {
            assert(placed_before(w, r2, t) == r);
            assert(r2[slot(w as int, inward_order(w)[t])] == choice);
            let c = inward_order(w)[t];
            match choice {
                Some(m) => {
                    assert(fits(db, cfgs, order, parts, w as int, r, c.0, c.1, m as int));
                    assert(fits(db, cfgs, order, parts, w as int, placed_before(w, r2, t), c.0, c.1, m as int));
                },
                None => {
                    assert(forall|m: int| !fits(db, cfgs, order, parts, w as int, placed_before(w, r2, t), c.0, c.1, m));
                },
            }
            assert(step_ok(db, cfgs, order, parts, w, r2, t));
        }
    }
}

proof fn lemma_slot_injective(w: nat, s: int, t: int)
    requires
        0 <= s < w * w,
        0 <= t < w * w,
        s != t,
    ensures
        0 <= slot(w as int, inward_order(w)[t]) < w * w,
        slot(w as int, inward_order(w)[s]) != slot(w as int, inward_order(w)[t]),
{
    lemma_inward_visits_every_cell_once(w);
    let a = inward_order(w)[s];
    let b = inward_order(w)[t];
    assert(inward_order(w).contains(a));
    assert(inward_order(w).contains(b));
    assert(in_grid(w, a) && in_grid(w, b));
    lemma_cell_index(w as int, a.0, a.1, b.0, b.1);
    lemma_cell_index(w as int, b.0, b.1, b.0, b.1);
}

proof fn lemma_placed_before_update(w: nat, r: Seq<Option<usize>>, t: int, v: Option<usize>, s: int)
    requires
        r.len() == w * w,
        0 <= s <= t < w * w,
    ensures
        placed_before(w, r.update(slot(w as int, inward_order(w)[t]), v), s) == placed_before(w, r, s),
{
    let k_t = slot(w as int, inward_order(w)[t]);
    lemma_slot_bound(w, t);
    let r2 = r.update(k_t, v);
    assert forall|k: int| 0 <= k < r.len() implies #[trigger] placed_before(w, r2, s)[k] == placed_before(w, r, s)[k] by {
        if exists|q: int| 0 <= q < s && slot(w as int, #[trigger] inward_order(w)[q]) == k {
            let q = choose|q: int| 0 <= q < s && slot(w as int, #[trigger] inward_order(w)[q]) == k;
            lemma_slot_injective(w, q, t);
        }
    }
    assert(placed_before(w, r2, s) =~= placed_before(w, r, s));
}

proof fn lemma_placed_before_step(w: nat, r: Seq<Option<usize>>, t: int, v: Option<usize>)
    requires
        r.len() == w * w,
        0 <= t < w * w,
        r == placed_before(w, r, t),
    ensures
        r.update(slot(w as int, inward_order(w)[t]), v) == placed_before(
            w,
            r.update(slot(w as int, inward_order(w)[t]), v),
            t + 1,
        ),
{
    let k_t = slot(w as int, inward_order(w)[t]);
    lemma_slot_bound(w, t);
    let r2 = r.update(k_t, v);
    assert forall|k: int| 0 <= k < r.len() implies #[trigger] placed_before(w, r2, t + 1)[k] == r2[k] by {
        if k == k_t {
            assert(slot(w as int, inward_order(w)[t]) == k);
        } else {
            assert(r[k] == placed_before(w, r, t)[k]);
            if exists|q: int| 0 <= q < t + 1 && slot(w as int, #[trigger] inward_order(w)[q]) == k {
                let q = choose|q: int| 0 <= q < t + 1 && slot(w as int, #[trigger] inward_order(w)[q]) == k;
                assert(q != t);
                assert(exists|q: int| 0 <= q < t && slot(w as int, #[trigger] inward_order(w)[q]) == k);
            } else {
                assert(!exists|q: int| 0 <= q < t && slot(w as int, #[trigger] inward_order(w)[q]) == k) by {
                    if exists|q: int| 0 <= q < t && slot(w as int, #[trigger] inward_order(w)[q]) == k {
                        let q = choose|q: int| 0 <= q < t && slot(w as int, #[trigger] inward_order(w)[q]) == k;
                        assert(0 <= q < t + 1);
                    }
                }
            }
        }
    }
    assert(placed_before(w, r2, t + 1) =~= r2);
}

/// Places modules on a `w × w` grid of parts, cell after cell in the order of the inward
/// walk: at each cell, one of the modules that fit, drawn at random, or none where none
/// fits.
pub(crate) fn fill_modules(
    modules: &Vec<ModuleNeighbours>,
    masks: &([u8; 32], [u8; 32], [u8; 32], [u8; 32]),
    n: usize,
    w: usize,
    Ghost(db): Ghost<AssetDb>,
    Ghost(cfgs): Ghost<Seq<FloorPartAdjacencyConfig>>,
    Ghost(order): Ghost<Seq<ConfigId>>,
    Ghost(parts): Ghost<Seq<(ConfigId, FloorPartConfig)>>,
) -> (res: Vec<Option<usize>>)
    requires
        1 <= w <= 16,
        n == order.len() <= 256,
        modules_match(db, cfgs, order, modules@),
        masks_match(parts, order, *masks),
    ensures
        fill_ok(db, cfgs, order, parts, w as nat, res@),
{
    let ghost wn = w as nat;
    proof {
        lemma_inward_visits_every_cell_once(wn);
        assert(w * w <= 256) by (nonlinear_arith)
            requires
                w <= 16,
        ;
    }
    let mut results: Vec<Option<usize>> = vec![None; w * w];
    let mut it = traverse_area_inward(w);
    let ghost mut t: int = 0;
    proof {
        assert(inward_order(wn).skip(0) =~= inward_order(wn));
        assert(results@ =~= placed_before(wn, results@, 0));
    }
    loop
        invariant
            1 <= w <= 16,
            wn == w,
            n == order.len() <= 256,
            modules_match(db, cfgs, order, modules@),
            masks_match(parts, order, *masks),
            inward_order(wn).len() == w * w,
            forall|p: (int, int)| inward_order(wn).contains(p) <==> in_grid(wn, p),
            it.wf(),
            0 <= t <= w * w,
            it@ == inward_order(wn).skip(t),
            results@.len() == w * w,
            forall|k: int|
                0 <= k < results@.len() && (#[trigger] results@[k]) is Some ==> results@[k].unwrap() < n,
            results@ == placed_before(wn, results@, t),
            forall|s: int| 0 <= s < t ==> #[trigger] step_ok(db, cfgs, order, parts, wn, results@, s),
        ensures
            fill_ok(db, cfgs, order, parts, wn, results@),
        decreases w * w - t,
    {
        let ghost before_it = it@;
        match it.next() {
            None => {
                proof {
                    assert(t == w * w);
                }
                break;
            },
            Some(c) => {
                let i = c[0];
                let j = c[1];
                let ghost ct = inward_order(wn)[t];
                proof {
                    assert(before_it[0] == ct);
                    assert(inward_order(wn).contains(ct));
                    assert(i == ct.0 && j == ct.1);
                    lemma_slot_bound(wn, t);
                    assert(j * w + i < w * w <= 256) by (nonlinear_arith)
                        requires
                            i < w,
                            j < w,
                            w <= 16,
                    ;
                }
                let prob = candidates(
                    modules,
                    masks,
                    n,
                    w,
                    &results,
                    i,
                    j,
                    Ghost(db),
                    Ghost(cfgs),
                    Ghost(order),
                    Ghost(parts),
                );
                let list = set_bits(&prob);
                let idx = j * w + i;
                let ghost old_results = results@;
                let choice = if list.len() > 0 {
                    let r = random_index(list.len());
                    Some(list[r])
                } else {
                    None
                };
                results.set(idx, choice);
                proof {
                    assert(slot(w as int, ct) == idx);
                    assert(results@ == old_results.update(slot(w as int, inward_order(wn)[t]), choice));
                    if choice is None {
                        assert forall|m: int|
                            !fits(db, cfgs, order, parts, w as int, old_results, ct.0, ct.1, m) by {
                            if fits(db, cfgs, order, parts, w as int, old_results, ct.0, ct.1, m) {
                                assert(has_bit(prob, m));
                            }
                        }
                    } else {
                        assert(has_bit(prob, choice.unwrap() as int));
                    }
                    lemma_fill_step(db, cfgs, order, parts, wn, old_results, t, choice);
                    assert forall|k: int|
                        0 <= k < results@.len() && (#[trigger] results@[k]) is Some implies results@[k].unwrap() < n by {
                        if k == idx {
                            assert(has_bit(prob, results@[k].unwrap() as int));
                        }
                    }
                }
                proof {
                    t = t + 1;
                }
            },
        }
    }
    results
}

/// Picks the adjacency configurations that take part in generation, by their positions.
pub fn select_adjacency(
    db: &AssetDb,
    available_parts: &Vec<ConfigId>,
    adjacency: &Vec<Option<FloorPartAdjacencyConfig>>,
) -> (res: Vec<usize>)
    requires
        db.wf(),
        adjacency@.len() == available_parts@.len(),
    ensures
        res@.len() == selected(*db, available_parts@, adjacency@, adjacency@.len() as int).len(),
        forall|q: int|
            0 <= q < res@.len() ==> res@[q] < adjacency@.len() && adjacency@[res@[q] as int]
                == Some(
                selected(*db, available_parts@, adjacency@, adjacency@.len() as int)[q],
            ),
{
    let mut res: Vec<usize> = Vec::new();
    let mut k: usize = 0;
    while k < adjacency.len()
        invariant
            db.wf(),
            adjacency@.len() == available_parts@.len(),
            k <= adjacency@.len(),
            res@.len() == selected(*db, available_parts@, adjacency@, k as int).len(),
            forall|q: int|
                0 <= q < res@.len() ==> res@[q] < adjacency@.len() && adjacency@[res@[q] as int]
                    == Some(selected(*db, available_parts@, adjacency@, k as int)[q]),
        decreases adjacency@.len() - k,
    {
        if db.has_asset(AssetKind::FloorPartAdjacencyConfig, available_parts[k].uuid) {
            match &adjacency[k] {
                Some(config) => {
                    if db.has_asset(AssetKind::FloorPartConfig, config.part.uuid) {
                        res.push(k);
                    }
                },
                None => {},
            }
        }
        k += 1;
    }
    res
}

} // verus!
