use vstd::prelude::*;
use vstd::arithmetic::div_mod::lemma_fundamental_div_mod_converse;
use std::collections::HashSet;
use crate::floor_data::{is_open, EditableFloorData, WallGraphicsTileGroup};

verus! {

// ---------------------------------------------------------------------------
// The traversal order of a square area, as a mathematical sequence.
//
// A square of width `w` whose top-left cell is `(o, o)` is visited ring by ring,
// from the outside in. Each ring is visited in this order:
//   1. its four corners,
//   2. pairs of edge cells, walking from both ends of every edge towards its middle,
//   3. when the edge length (without corners) is odd, the four edge centers.
// Then the inner square of width `w - 2` follows.
// ---------------------------------------------------------------------------

/// The coordinates `(x, y)` that a traversal yields as `[x, y]`.
pub open spec fn coords(p: [usize; 2]) -> (int, int) {
    (p[0] as int, p[1] as int)
}

/// Number of edge cells on one side of a ring of width `w`, corners excluded.
pub open spec fn edge_len(w: int) -> int {
    w - 2
}

/// Number of edge cells of one side visited in pairs, from both ends.
pub open spec fn edge_pair_count(w: int) -> int {
    edge_len(w) / 2
}

/// The four corners of the ring of width `w` at offset `o`.
pub open spec fn corner_points(w: int, o: int) -> Seq<(int, int)> {
    seq![(o, o), (o + w - 1, o), (o, o + w - 1), (o + w - 1, o + w - 1)]
}

/// The `e`-th of the eight edge cells visited at step `i` (counting from the corners).
pub open spec fn edge_point(w: int, o: int, i: int, e: int) -> (int, int) {
    let ew = edge_len(w);
    if e == 0 {
        (o + 1 + i, o)
    } else if e == 1 {
        (o + ew - i, o)
    } else if e == 2 {
        (o + 1 + i, o + w - 1)
    } else if e == 3 {
        (o + ew - i, o + w - 1)
    } else if e == 4 {
        (o, o + 1 + i)
    } else if e == 5 {
        (o, o + ew - i)
    } else if e == 6 {
        (o + w - 1, o + 1 + i)
    } else {
        (o + w - 1, o + ew - i)
    }
}

/// The edge cells of a ring, eight per step, steps going from the corners inwards.
pub open spec fn edge_points(w: int, o: int) -> Seq<(int, int)> {
    Seq::new((8 * edge_pair_count(w)) as nat, |k: int| edge_point(w, o, k / 8, k % 8))
}

/// The middle cell of each edge, present when the edge length is odd.
pub open spec fn center_points(w: int, o: int) -> Seq<(int, int)> {
    let h = edge_pair_count(w);
    if edge_len(w) % 2 == 1 {
        seq![(o + h + 1, o), (o + h + 1, o + w - 1), (o, o + h + 1), (o + w - 1, o + h + 1)]
    } else {
        seq![]
    }
}

/// All cells of the outer ring of a square of width `w >= 2`, in visiting order.
pub open spec fn ring_points(w: int, o: int) -> Seq<(int, int)> {
    corner_points(w, o) + edge_points(w, o) + center_points(w, o)
}

/// Number of cells of the outer ring of a square of width `w >= 2`.
pub open spec fn ring_len(w: int) -> int {
    4 + 8 * edge_pair_count(w) + (if edge_len(w) % 2 == 1 { 4int } else { 0int })
}

/// The inward traversal of the square of width `w` whose top-left cell is `(o, o)`.
pub open spec fn inward_square(w: int, o: int) -> Seq<(int, int)>
    decreases w,
{
    if w <= 0 {
        seq![]
    } else if w == 1 {
        seq![(o, o)]
    } else {
        ring_points(w, o) + inward_square(w - 2, o + 1)
    }
}

/// The order in which `traverse_area_inward(width)` yields the cells of `[0, width)²`.
pub open spec fn inward_order(width: nat) -> Seq<(int, int)> {
    inward_square(width as int, 0)
}

/// The order in which `traverse_area_outward(width)` yields the cells of `[0, width)²`.
pub open spec fn outward_order(width: nat) -> Seq<(int, int)> {
    inward_order(width).reverse()
}

/// The cells of the square `[0, width)²`.
pub open spec fn in_grid(width: nat, p: (int, int)) -> bool {
    0 <= p.0 < width && 0 <= p.1 < width
}

// ---------------------------------------------------------------------------
// Basic facts about the sequences above.
// ---------------------------------------------------------------------------

proof fn lemma_ring_len(w: int, o: int)
    requires
        w >= 2,
    ensures
        ring_points(w, o).len() == ring_len(w),
        ring_len(w) == 4 * w - 4,
{
}

proof fn lemma_square_len(w: int, o: int)
    requires
        w >= 0,
    ensures
        inward_square(w, o).len() == w * w,
    decreases w,
{
    if w == 0 {
        assert(w * w == 0);
    } else if w == 1 {
        assert(inward_square(w, o).len() == 1);
        assert(w * w == 1);
    } else {
        lemma_ring_len(w, o);
        lemma_square_len(w - 2, o + 1);
        assert(inward_square(w, o) == ring_points(w, o) + inward_square(w - 2, o + 1));
        assert(w * w == (4 * w - 4) + (w - 2) * (w - 2)) by (nonlinear_arith);
    }
}

/// The `k`-th cell of a ring.
proof fn lemma_ring_index(w: int, o: int, k: int)
    requires
        w >= 2,
        0 <= k < ring_len(w),
    ensures
        k < 4 ==> ring_points(w, o)[k] == corner_points(w, o)[k],
        4 <= k < 4 + 8 * edge_pair_count(w) ==> ring_points(w, o)[k] == edge_point(
            w,
            o,
            (k - 4) / 8,
            (k - 4) % 8,
        ),
        4 + 8 * edge_pair_count(w) <= k ==> ring_points(w, o)[k] == center_points(w, o)[k - 4
            - 8 * edge_pair_count(w)],
{
    lemma_ring_len(w, o);
}

/// The edge cell at step `i`, position `e` of a ring.
proof fn lemma_ring_edge(w: int, o: int, i: int, e: int)
    requires
        w >= 2,
        0 <= i < edge_pair_count(w),
        0 <= e < 8,
    ensures
        4 + 8 * i + e < ring_len(w),
        ring_points(w, o)[4 + 8 * i + e] == edge_point(w, o, i, e),
{
    lemma_fundamental_div_mod_converse(8 * i + e, 8, i, e);
    lemma_ring_index(w, o, 4 + 8 * i + e);
}

/// What is left of a square once `k` of its cells were visited.
proof fn lemma_square_skip(w: int, o: int, k: int)
    requires
        w >= 2,
        0 <= k,
    ensures
        k < ring_len(w) ==> inward_square(w, o).skip(k)[0] == ring_points(w, o)[k],
        k < ring_len(w) ==> inward_square(w, o).skip(k).len() > 0,
        k < ring_len(w) ==> inward_square(w, o).skip(k).drop_first() =~= inward_square(
            w,
            o,
        ).skip(k + 1),
        ring_len(w) <= k <= inward_square(w, o).len() ==> inward_square(w, o).skip(k)
            =~= inward_square(w - 2, o + 1).skip(k - ring_len(w)),
{
    lemma_ring_len(w, o);
}

/// One step through a sequence.
proof fn lemma_skip_step<A>(s: Seq<A>, k: int)
    requires
        0 <= k < s.len(),
    ensures
        s.skip(k).len() > 0,
        s.skip(k)[0] == s[k],
        s.skip(k).drop_first() =~= s.skip(k + 1),
        k + 1 == s.len() ==> s.skip(k + 1) =~= Seq::<A>::empty(),
{
}

proof fn lemma_square_two(o: int)
    ensures
        inward_square(2, o) =~= seq![(o, o), (o + 1, o), (o, o + 1), (o + 1, o + 1)],
{
    assert(inward_square(0, o + 1) =~= seq![]);
    assert(edge_points(2, o) =~= seq![]);
}

proof fn lemma_square_three(o: int)
    ensures
        inward_square(3, o) =~= seq![
            (o, o),
            (o + 2, o),
            (o, o + 2),
            (o + 2, o + 2),
            (o + 1, o),
            (o + 1, o + 2),
            (o, o + 1),
            (o + 2, o + 1),
            (o + 1, o + 1),
        ],
{
    assert(inward_square(1, o + 1) =~= seq![(o + 1, o + 1)]);
    assert(edge_points(3, o) =~= seq![]);
}

/// `p` is the first cell of `before`, and `after` is what follows it.
pub open spec fn yields_first(before: Seq<(int, int)>, after: Seq<(int, int)>, p: [usize; 2]) -> bool {
    &&& before.len() > 0
    &&& coords(p) == before[0]
    &&& after == before.drop_first()
}

// ---------------------------------------------------------------------------
// The inward iterator.
// ---------------------------------------------------------------------------

#[derive(Clone, Copy)]
enum TraverseAreaIteratorState {
    Done,
    YieldOne,
    Yield2x2 { index: usize },
    Yield3x3 { index: usize },
    YieldCorners { corner_index: usize },
    YieldEdges { edge_width: usize, half_width: usize, edge_index: usize, i: usize },
    YieldEdgeCenters { edge_width: usize, half_width: usize, edge_index: usize },
}

/// Lazily yields the cells of a square area: first the corners of the outer ring,
/// then its edges from the corners towards the edge centers, then the same for
/// every nested square.
pub struct TraverseAreaInwardIterator {
    base_offset_x: usize,
    base_offset_y: usize,
    width: usize,
    state: TraverseAreaIteratorState,
}

/// Position, inside the current square, of the next cell that a state yields.
spec fn inward_position(state: TraverseAreaIteratorState) -> int {
    match state {
        TraverseAreaIteratorState::Done => 0,
        TraverseAreaIteratorState::YieldOne => 0,
        TraverseAreaIteratorState::Yield2x2 { index } => index as int,
        TraverseAreaIteratorState::Yield3x3 { index } => index as int,
        TraverseAreaIteratorState::YieldCorners { corner_index } => corner_index as int,
        TraverseAreaIteratorState::YieldEdges { edge_index, i, .. } => 4 + 8 * i + edge_index,
        TraverseAreaIteratorState::YieldEdgeCenters { half_width, edge_index, .. } => 4 + 8
            * half_width + edge_index,
    }
}

/// The state in which the traversal of a square of width `w` starts.
spec fn inward_start_ok(state: TraverseAreaIteratorState, w: int) -> bool {
    match state {
        TraverseAreaIteratorState::Done => w == 0,
        TraverseAreaIteratorState::YieldOne => w == 1,
        TraverseAreaIteratorState::Yield2x2 { index } => w == 2 && index == 0,
        TraverseAreaIteratorState::Yield3x3 { index } => w == 3 && index == 0,
        TraverseAreaIteratorState::YieldCorners { corner_index } => w >= 4 && corner_index == 0,
        _ => false,
    }
}

fn inward_start_state(w: usize) -> (state: TraverseAreaIteratorState)
    ensures
        inward_start_ok(state, w as int),
{
    match w {
        0 => TraverseAreaIteratorState::Done,
        1 => TraverseAreaIteratorState::YieldOne,
        2 => TraverseAreaIteratorState::Yield2x2 { index: 0 },
        3 => TraverseAreaIteratorState::Yield3x3 { index: 0 },
        _ => TraverseAreaIteratorState::YieldCorners { corner_index: 0 },
    }
}

impl TraverseAreaInwardIterator {
    /// The iterator's fields are consistent with each other.
    pub closed spec fn wf(&self) -> bool {
        let w = self.width as int;
        &&& self.base_offset_x == self.base_offset_y
        &&& self.base_offset_x + self.width <= usize::MAX
        &&& match self.state {
            TraverseAreaIteratorState::Done => true,
            TraverseAreaIteratorState::YieldOne => w == 1,
            TraverseAreaIteratorState::Yield2x2 { index } => w == 2 && index < 4,
            TraverseAreaIteratorState::Yield3x3 { index } => w == 3 && index < 9,
            TraverseAreaIteratorState::YieldCorners { corner_index } => w >= 4 && corner_index
                < 4,
            TraverseAreaIteratorState::YieldEdges { edge_width, half_width, edge_index, i } => {
                &&& w >= 4
                &&& edge_width == w - 2
                &&& half_width == edge_width / 2
                &&& edge_index < 8
                &&& i < half_width
            },
            TraverseAreaIteratorState::YieldEdgeCenters { edge_width, half_width, edge_index } => {
                &&& w >= 4
                &&& edge_width == w - 2
                &&& half_width == edge_width / 2
                &&& edge_width % 2 == 1
                &&& edge_index < 4
            },
        }
    }
}

impl View for TraverseAreaInwardIterator {
    type V = Seq<(int, int)>;

    /// The cells that the iterator has still to yield, in order.
    closed spec fn view(&self) -> Seq<(int, int)> {
        match self.state {
            TraverseAreaIteratorState::Done => seq![],
            _ => inward_square(self.width as int, self.base_offset_x as int).skip(
                inward_position(self.state),
            ),
        }
    }
}

/// Traverses the square area `[0, width)²` from the outer corners towards the edge
/// centers, ring after ring, ending in the middle.
pub fn traverse_area_inward(width: usize) -> (res: TraverseAreaInwardIterator)
    ensures
        res.wf(),
        res@ == inward_order(width as nat),
{
    let res = TraverseAreaInwardIterator {
        base_offset_x: 0,
        base_offset_y: 0,
        width,
        state: inward_start_state(width),
    };
    assert(res@ =~= inward_order(width as nat));
    res
}

impl TraverseAreaInwardIterator {
    /// Moves on to the square nested in the current one.
    fn enter_inner_square(&mut self, edge_width: usize)
        requires
            old(self).wf(),
            old(self).width >= 2,
            edge_width == old(self).width - 2,
        ensures
            final(self).wf(),
            final(self)@ == inward_square(
                old(self).width - 2,
                old(self).base_offset_x + 1,
            ),
    {
        let state = inward_start_state(edge_width);
        *self = TraverseAreaInwardIterator {
            base_offset_x: self.base_offset_x + 1,
            base_offset_y: self.base_offset_y + 1,
            width: edge_width,
            state,
        };
        assert(self@ =~= inward_square(edge_width as int, self.base_offset_x as int));
    }

    /// Yields the next cell, or `None` once every cell was yielded.
    pub fn next(&mut self) -> (res: Option<[usize; 2]>)
        requires
            old(self).wf(),
        ensures
            final(self).wf(),
            old(self)@.len() == 0 ==> res is None && final(self)@ == old(self)@,
            old(self)@.len() > 0 ==> res is Some && yields_first(
                old(self)@,
                final(self)@,
                res.unwrap(),
            ),
    {
        match self.state {
            TraverseAreaIteratorState::Done => None,
            TraverseAreaIteratorState::YieldOne => {
                proof {
                    assert(inward_square(1, self.base_offset_x as int) =~= seq![
                        (self.base_offset_x as int, self.base_offset_x as int),
                    ]);
                }
                let ghost before = self@;
                self.state = TraverseAreaIteratorState::Done;
                assert(self@ =~= before.drop_first());
                Some([self.base_offset_x, self.base_offset_y])
            },
            TraverseAreaIteratorState::Yield2x2 { index } => Some(self.next_in_2x2(index)),
            TraverseAreaIteratorState::Yield3x3 { index } => Some(self.next_in_3x3(index)),
            TraverseAreaIteratorState::YieldCorners { corner_index } => Some(
                self.next_corner(corner_index),
            ),
            TraverseAreaIteratorState::YieldEdges { edge_width, half_width, edge_index, i } => Some(
                self.next_edge(edge_width, half_width, edge_index, i),
            ),
            TraverseAreaIteratorState::YieldEdgeCenters { edge_width, half_width, edge_index } => Some(
                self.next_edge_center(edge_width, half_width, edge_index),
            ),
        }
    }

    fn next_in_2x2(&mut self, index: usize) -> (p: [usize; 2])
        requires
            old(self).wf(),
            old(self).state == (TraverseAreaIteratorState::Yield2x2 { index }),
        ensures
            final(self).wf(),
            yields_first(old(self)@, final(self)@, p),
    {
        let ghost w = self.width as int;
        let ghost o = self.base_offset_x as int;
        let ghost before = self@;
        proof {
            lemma_square_two(o);
            lemma_skip_step(inward_square(2, o), index as int);
        }
        let p = match index {
            0 => {
                self.state = TraverseAreaIteratorState::Yield2x2 { index: index + 1 };
                [self.base_offset_x, self.base_offset_y]
            },
            1 => {
                self.state = TraverseAreaIteratorState::Yield2x2 { index: index + 1 };
                [self.base_offset_x + 1, self.base_offset_y]
            },
            2 => {
                self.state = TraverseAreaIteratorState::Yield2x2 { index: index + 1 };
                [self.base_offset_x, self.base_offset_y + 1]
            },
            _ => {
                self.state = TraverseAreaIteratorState::Done;
                [self.base_offset_x + 1, self.base_offset_y + 1]
            },
        };
        assert(self@ =~= before.drop_first());
        p
    }

    fn next_in_3x3(&mut self, index: usize) -> (p: [usize; 2])
        requires
            old(self).wf(),
            old(self).state == (TraverseAreaIteratorState::Yield3x3 { index }),
        ensures
            final(self).wf(),
            yields_first(old(self)@, final(self)@, p),
    {
        let ghost w = self.width as int;
        let ghost o = self.base_offset_x as int;
        let ghost before = self@;
        proof {
            lemma_square_three(o);
            lemma_skip_step(inward_square(3, o), index as int);
        }
        let p = match index {
            0 => {
                self.state = TraverseAreaIteratorState::Yield3x3 { index: index + 1 };
                [self.base_offset_x, self.base_offset_y]
            },
            1 => {
                self.state = TraverseAreaIteratorState::Yield3x3 { index: index + 1 };
                [self.base_offset_x + 2, self.base_offset_y]
            },
            2 => {
                self.state = TraverseAreaIteratorState::Yield3x3 { index: index + 1 };
                [self.base_offset_x, self.base_offset_y + 2]
            },
            3 => {
                self.state = TraverseAreaIteratorState::Yield3x3 { index: index + 1 };
                [self.base_offset_x + 2, self.base_offset_y + 2]
            },
            4 => {
                self.state = TraverseAreaIteratorState::Yield3x3 { index: index + 1 };
                [self.base_offset_x + 1, self.base_offset_y]
            },
            5 => {
                self.state = TraverseAreaIteratorState::Yield3x3 { index: index + 1 };
                [self.base_offset_x + 1, self.base_offset_y + 2]
            },
            6 => {
                self.state = TraverseAreaIteratorState::Yield3x3 { index: index + 1 };
                [self.base_offset_x, self.base_offset_y + 1]
            },
            7 => {
                self.state = TraverseAreaIteratorState::Yield3x3 { index: index + 1 };
                [self.base_offset_x + 2, self.base_offset_y + 1]
            },
            _ => {
                self.state = TraverseAreaIteratorState::Done;
                [self.base_offset_x + 1, self.base_offset_y + 1]
            },
        };
        assert(self@ =~= before.drop_first());
        p
    }

    fn next_corner(&mut self, corner_index: usize) -> (p: [usize; 2])
        requires
            old(self).wf(),
            old(self).state == (TraverseAreaIteratorState::YieldCorners { corner_index }),
        ensures
            final(self).wf(),
            yields_first(old(self)@, final(self)@, p),
    {
        let ghost w = self.width as int;
        let ghost o = self.base_offset_x as int;
        let ghost before = self@;
        proof {
            lemma_square_skip(w, o, corner_index as int);
            lemma_ring_index(w, o, corner_index as int);
        }
        let p = match corner_index {
            0 => {
                self.state = TraverseAreaIteratorState::YieldCorners {
                    corner_index: corner_index + 1,
                };
                [self.base_offset_x, self.base_offset_y]
            },
            1 => {
                self.state = TraverseAreaIteratorState::YieldCorners {
                    corner_index: corner_index + 1,
                };
                [self.base_offset_x + self.width - 1, self.base_offset_y]
            },
            2 => {
                self.state = TraverseAreaIteratorState::YieldCorners {
                    corner_index: corner_index + 1,
                };
                [self.base_offset_x, self.base_offset_y + self.width - 1]
            },
            _ => {
                let edge_width = self.width - 2;
                let half_width = edge_width / 2;
                self.state = TraverseAreaIteratorState::YieldEdges {
                    edge_width,
                    half_width,
                    edge_index: 0,
                    i: 0,
                };
                [self.base_offset_x + self.width - 1, self.base_offset_y + self.width - 1]
            },
        };
        assert(self@ =~= before.drop_first());
        p
    }

    fn next_edge(&mut self, edge_width: usize, half_width: usize, edge_index: usize, i: usize) -> (p: [usize; 2])
        requires
            old(self).wf(),
            old(self).state == (TraverseAreaIteratorState::YieldEdges { edge_width, half_width, edge_index, i }),
        ensures
            final(self).wf(),
            yields_first(old(self)@, final(self)@, p),
    {
        let ghost w = self.width as int;
        let ghost o = self.base_offset_x as int;
        let ghost before = self@;
        proof {
            lemma_square_skip(w, o, 4 + 8 * i + edge_index);
            lemma_ring_edge(w, o, i as int, edge_index as int);
        }
        let p = match edge_index {
            0 => {
                self.state = TraverseAreaIteratorState::YieldEdges {
                    edge_width,
                    half_width,
                    edge_index: edge_index + 1,
                    i,
                };
                [self.base_offset_x + 1 + i, self.base_offset_y]
            },
            1 => {
                self.state = TraverseAreaIteratorState::YieldEdges {
                    edge_width,
                    half_width,
                    edge_index: edge_index + 1,
                    i,
                };
                [self.base_offset_x + edge_width - i, self.base_offset_y]
            },
            2 => {
                self.state = TraverseAreaIteratorState::YieldEdges {
                    edge_width,
                    half_width,
                    edge_index: edge_index + 1,
                    i,
                };
                [self.base_offset_x + 1 + i, self.base_offset_y + self.width - 1]
            },
            3 => {
                self.state = TraverseAreaIteratorState::YieldEdges {
                    edge_width,
                    half_width,
                    edge_index: edge_index + 1,
                    i,
                };
                [self.base_offset_x + edge_width - i, self.base_offset_y + self.width - 1]
            },
            4 => {
                self.state = TraverseAreaIteratorState::YieldEdges {
                    edge_width,
                    half_width,
                    edge_index: edge_index + 1,
                    i,
                };
                [self.base_offset_x, self.base_offset_y + 1 + i]
            },
            5 => {
                self.state = TraverseAreaIteratorState::YieldEdges {
                    edge_width,
                    half_width,
                    edge_index: edge_index + 1,
                    i,
                };
                [self.base_offset_x, self.base_offset_y + edge_width - i]
            },
            6 => {
                self.state = TraverseAreaIteratorState::YieldEdges {
                    edge_width,
                    half_width,
                    edge_index: edge_index + 1,
                    i,
                };
                [self.base_offset_x + self.width - 1, self.base_offset_y + 1 + i]
            },
            _ => {
                let p = [
                    self.base_offset_x + self.width - 1,
                    self.base_offset_y + edge_width - i,
                ];
                let steps = if half_width > 1 { half_width } else { 1 };
                if i < steps - 1 {
                    self.state = TraverseAreaIteratorState::YieldEdges {
                        edge_width,
                        half_width,
                        edge_index: 0,
                        i: i + 1,
                    };
                } else if edge_width % 2 != 0 {
                    self.state = TraverseAreaIteratorState::YieldEdgeCenters {
                        edge_width,
                        half_width,
                        edge_index: 0,
                    };
                } else {
                    proof {
                        lemma_square_skip(w, o, 4 + 8 * i + edge_index + 1);
                    }
                    self.enter_inner_square(edge_width);
                }
                p
            },
        };
        assert(self@ =~= before.drop_first());
        p
    }

    fn next_edge_center(&mut self, edge_width: usize, half_width: usize, edge_index: usize) -> (p: [usize; 2])
        requires
            old(self).wf(),
            old(self).state == (TraverseAreaIteratorState::YieldEdgeCenters { edge_width, half_width, edge_index }),
        ensures
            final(self).wf(),
            yields_first(old(self)@, final(self)@, p),
    {
        let ghost w = self.width as int;
        let ghost o = self.base_offset_x as int;
        let ghost before = self@;
        proof {
            lemma_square_skip(w, o, 4 + 8 * half_width + edge_index);
            lemma_square_skip(w, o, 4 + 8 * half_width + edge_index + 1);
            lemma_ring_index(w, o, 4 + 8 * half_width + edge_index);
        }
        let p = match edge_index {
            0 => {
                self.state = TraverseAreaIteratorState::YieldEdgeCenters {
                    edge_width,
                    half_width,
                    edge_index: edge_index + 1,
                };
                [self.base_offset_x + half_width + 1, self.base_offset_y]
            },
            1 => {
                self.state = TraverseAreaIteratorState::YieldEdgeCenters {
                    edge_width,
                    half_width,
                    edge_index: edge_index + 1,
                };
                [self.base_offset_x + half_width + 1, self.base_offset_y + self.width - 1]
            },
            2 => {
                self.state = TraverseAreaIteratorState::YieldEdgeCenters {
                    edge_width,
                    half_width,
                    edge_index: edge_index + 1,
                };
                [self.base_offset_x, self.base_offset_y + half_width + 1]
            },
            _ => {
                let p = [self.base_offset_x + self.width - 1, self.base_offset_y + half_width
                    + 1];
                self.enter_inner_square(edge_width);
                p
            },
        };
        assert(self@ =~= before.drop_first());
        p
    }
}


// ---------------------------------------------------------------------------
// The outward iterator.
// ---------------------------------------------------------------------------

/// The inward traversal of a square is the traversal of its outer part followed by
/// the traversal of any nested square of the same parity.
proof fn lemma_square_split(big: int, o: int, small: int)
    requires
        0 <= small <= big,
        (big - small) % 2 == 0,
    ensures
        big * big - small * small <= inward_square(big, o).len(),
        inward_square(big, o) =~= inward_square(big, o).take(big * big - small * small)
            + inward_square(small, o + (big - small) / 2),
    decreases big - small,
{
    lemma_square_len(big, o);
    lemma_square_len(small, o + (big - small) / 2);
    if big == small {
        assert(big * big - small * small == 0);
    } else {
        lemma_square_split(big - 2, o + 1, small);
        lemma_ring_len(big, o);
        lemma_square_len(big - 2, o + 1);
        assert(big * big == (4 * big - 4) + (big - 2) * (big - 2)) by (nonlinear_arith);
        assert(small * small <= (big - 2) * (big - 2)) by (nonlinear_arith)
            requires
                0 <= small <= big - 2,
        ;
        assert(o + 1 + (big - 2 - small) / 2 == o + (big - small) / 2);
        let inner = inward_square(big - 2, o + 1);
        assert(inward_square(big, o) == ring_points(big, o) + inner);
        assert(inward_square(big, o).take(big * big - small * small) =~= ring_points(big, o)
            + inner.take((big - 2) * (big - 2) - small * small));
    }
}

/// The cell at position `q` of a nested square, read in the traversal of the whole.
proof fn lemma_square_nested_index(big: int, small: int, q: int)
    requires
        0 <= small <= big,
        (big - small) % 2 == 0,
        0 <= q < small * small,
    ensures
        0 <= big * big - small * small + q < inward_square(big, 0).len(),
        inward_square(big, 0)[big * big - small * small + q] == inward_square(
            small,
            (big - small) / 2,
        )[q],
{
    lemma_square_split(big, 0, small);
    lemma_square_len(big, 0);
    lemma_square_len(small, (big - small) / 2);
}

/// The cell at position `q < ring_len(w)` of a square is the one of its outer ring.
proof fn lemma_square_ring_index(w: int, o: int, q: int)
    requires
        w >= 2,
        0 <= q < ring_len(w),
    ensures
        inward_square(w, o)[q] == ring_points(w, o)[q],
{
    lemma_ring_len(w, o);
}

proof fn lemma_small_squares(w: int)
    ensures
        w == 0 ==> w * w == 0,
        w == 1 ==> w * w == 1,
        w == 2 ==> w * w == 4,
        w == 3 ==> w * w == 9,
{
    assert(w == 0 ==> w * w == 0) by (nonlinear_arith);
    assert(w == 1 ==> w * w == 1) by (nonlinear_arith);
    assert(w == 2 ==> w * w == 4) by (nonlinear_arith);
    assert(w == 3 ==> w * w == 9) by (nonlinear_arith);
}

/// One step backwards through a prefix.
proof fn lemma_reverse_take_step<A>(s: Seq<A>, r: int)
    requires
        0 < r <= s.len(),
    ensures
        s.take(r).reverse().len() > 0,
        s.take(r).reverse()[0] == s[r - 1],
        s.take(r).reverse().drop_first() =~= s.take(r - 1).reverse(),
{
}

#[derive(Clone, Copy)]
enum TraverseAreaOutwardIteratorState {
    Done,
    YieldOne,
    Yield2x2 { index: usize },
    Yield3x3 { index: usize },
    YieldRingEdgeCenters { edge_width: usize, half_width: usize, edge_index: usize },
    YieldRingEdges { edge_width: usize, half_width: usize, edge_index: usize, i: usize },
    YieldRingCorners { corner_index: usize },
}

/// Lazily yields the cells of a square area in exactly the reverse order of
/// [`TraverseAreaInwardIterator`]: from the middle outwards, ring after ring.
pub struct TraverseAreaOutwardIterator {
    base_offset_x: usize,
    base_offset_y: usize,
    width: usize,
    max_width: usize,
    state: TraverseAreaOutwardIteratorState,
}

/// Position, inside the current square's inward order, of the next cell that a state yields.
spec fn outward_position(state: TraverseAreaOutwardIteratorState) -> int {
    match state {
        TraverseAreaOutwardIteratorState::Done => 0,
        TraverseAreaOutwardIteratorState::YieldOne => 0,
        TraverseAreaOutwardIteratorState::Yield2x2 { index } => 3 - index,
        TraverseAreaOutwardIteratorState::Yield3x3 { index } => 8 - index,
        TraverseAreaOutwardIteratorState::YieldRingEdgeCenters { half_width, edge_index, .. } => 4
            + 8 * half_width + 3 - edge_index,
        TraverseAreaOutwardIteratorState::YieldRingEdges { edge_index, i, .. } => 4 + 8 * i + 7
            - edge_index,
        TraverseAreaOutwardIteratorState::YieldRingCorners { corner_index } => 3 - corner_index,
    }
}

/// Number of cells that are still to come when the current square is `w` wide
/// and the next cell is at position `q` of its inward order.
spec fn outward_remaining(max_width: int, w: int, q: int) -> int {
    max_width * max_width - w * w + q + 1
}

impl TraverseAreaOutwardIterator {
    /// The current square, possibly empty, lies in the middle of the whole area.
    closed spec fn centered(&self) -> bool {
        let w = self.width as int;
        let big = self.max_width as int;
        &&& w <= big
        &&& (big - w) % 2 == 0
        &&& self.base_offset_x == (big - w) / 2
        &&& self.base_offset_y == self.base_offset_x
    }

    /// The current square is nested in the whole area, centered.
    closed spec fn square_ok(&self) -> bool {
        let w = self.width as int;
        let big = self.max_width as int;
        &&& self.base_offset_x == self.base_offset_y
        &&& 1 <= w <= big
        &&& (big - w) % 2 == 0
        &&& self.base_offset_x == (big - w) / 2
        &&& (w == 1 ==> big == 1)
    }

    /// The iterator's fields are consistent with each other.
    pub closed spec fn wf(&self) -> bool {
        let w = self.width as int;
        match self.state {
            TraverseAreaOutwardIteratorState::Done => true,
            TraverseAreaOutwardIteratorState::YieldOne => self.square_ok() && w == 1,
            TraverseAreaOutwardIteratorState::Yield2x2 { index } => self.square_ok() && w == 2
                && index < 4,
            TraverseAreaOutwardIteratorState::Yield3x3 { index } => self.square_ok() && w == 3
                && index < 9,
            TraverseAreaOutwardIteratorState::YieldRingEdgeCenters {
                edge_width,
                half_width,
                edge_index,
            } => {
                &&& self.square_ok()
                &&& w >= 4
                &&& edge_width == w - 2
                &&& half_width == edge_width / 2
                &&& edge_width % 2 == 1
                &&& edge_index < 4
            },
            TraverseAreaOutwardIteratorState::YieldRingEdges {
                edge_width,
                half_width,
                edge_index,
                i,
            } => {
                &&& self.square_ok()
                &&& w >= 4
                &&& edge_width == w - 2
                &&& half_width == edge_width / 2
                &&& edge_index < 8
                &&& i < half_width
            },
            TraverseAreaOutwardIteratorState::YieldRingCorners { corner_index } => {
                &&& self.square_ok()
                &&& w >= 4
                &&& corner_index < 4
            },
        }
    }
}

impl View for TraverseAreaOutwardIterator {
    type V = Seq<(int, int)>;

    /// The cells that the iterator has still to yield, in order.
    closed spec fn view(&self) -> Seq<(int, int)> {
        match self.state {
            TraverseAreaOutwardIteratorState::Done => seq![],
            _ => inward_order(self.max_width as nat).take(
                outward_remaining(
                    self.max_width as int,
                    self.width as int,
                    outward_position(self.state),
                ),
            ).reverse(),
        }
    }
}

/// Traverses the square area `[0, width)²` in exactly the reverse order of
/// [`traverse_area_inward`]: it starts with the central cells and widens ring by ring.
pub fn traverse_area_outward(width: usize) -> (res: TraverseAreaOutwardIterator)
    ensures
        res.wf(),
        res@ == outward_order(width as nat),
{
    let (base_offset, current_width, state) = if width == 0 {
        (0, 0, TraverseAreaOutwardIteratorState::Done)
    } else if width == 1 {
        (0, 1, TraverseAreaOutwardIteratorState::YieldOne)
    } else if width % 2 == 0 {
        let current_width: usize = 2;
        (
            (width - current_width) / 2,
            current_width,
            TraverseAreaOutwardIteratorState::Yield2x2 { index: 0 },
        )
    } else {
        let current_width: usize = 3;
        (
            (width - current_width) / 2,
            current_width,
            TraverseAreaOutwardIteratorState::Yield3x3 { index: 0 },
        )
    };
    let res = TraverseAreaOutwardIterator {
        base_offset_x: base_offset,
        base_offset_y: base_offset,
        width: current_width,
        max_width: width,
        state,
    };
    proof {
        let big = width as int;
        let w = current_width as int;
        lemma_square_len(big, 0);
        lemma_small_squares(w);
        if width > 0 {
            assert(outward_remaining(big, w, outward_position(state)) == big * big);
            assert(inward_order(width as nat).take(big * big) =~= inward_order(width as nat));
        }
    }
    res
}

impl TraverseAreaOutwardIterator {
    /// Moves on to the ring around the current square, or stops after the outermost one.
    fn move_to_next_outer_ring(&mut self)
        requires
            old(self).centered(),
        ensures
            old(self).square_ok() ==> final(self).wf(),
            old(self).square_ok() ==> final(self)@ == inward_order(old(self).max_width as nat).take(
                old(self).max_width * old(self).max_width - old(self).width * old(self).width,
            ).reverse(),
            final(self).centered(),
            final(self).max_width == old(self).max_width,
            old(self).width == old(self).max_width ==> {
                &&& final(self).state is Done
                &&& final(self)@ == Seq::<(int, int)>::empty()
                &&& final(self).width == old(self).width
                &&& final(self).base_offset_x == old(self).base_offset_x
                &&& final(self).base_offset_y == old(self).base_offset_y
            },
            old(self).width < old(self).max_width ==> {
                &&& final(self).square_ok()
                &&& final(self).width == old(self).width + 2
                &&& final(self).base_offset_x == old(self).base_offset_x - 1
                &&& final(self).base_offset_y == old(self).base_offset_y - 1
            },
    {
        let ghost big = self.max_width as int;
        let ghost w = self.width as int;
        if self.width >= self.max_width {
            self.state = TraverseAreaOutwardIteratorState::Done;
            assert(big * big - w * w == 0);
            assert(self@ =~= inward_order(big as nat).take(0).reverse());
            assert(self@ =~= Seq::<(int, int)>::empty());
            return;
        }
        let new_width = self.width + 2;
        let edge_width = new_width - 2;
        let half_width = edge_width / 2;
        let state = if edge_width % 2 != 0 {
            TraverseAreaOutwardIteratorState::YieldRingEdgeCenters {
                edge_width,
                half_width,
                edge_index: 0,
            }
        } else {
            let steps = if half_width > 1 { half_width } else { 1 };
            TraverseAreaOutwardIteratorState::YieldRingEdges {
                edge_width,
                half_width,
                edge_index: 0,
                i: steps - 1,
            }
        };
        *self = TraverseAreaOutwardIterator {
            base_offset_x: self.base_offset_x - 1,
            base_offset_y: self.base_offset_y - 1,
            width: new_width,
            max_width: self.max_width,
            state,
        };
        proof {
            if w >= 1 {
                lemma_ring_len(w + 2, 0);
                assert((w + 2) * (w + 2) == w * w + 4 * w + 4) by (nonlinear_arith);
                assert(outward_remaining(big, w + 2, outward_position(state)) == big * big - w * w);
            }
        }
    }

    /// Yields the next cell, or `None` once every cell was yielded.
    pub fn next(&mut self) -> (res: Option<[usize; 2]>)
        requires
            old(self).wf(),
        ensures
            final(self).wf(),
            old(self)@.len() == 0 ==> res is None && final(self)@ == old(self)@,
            old(self)@.len() > 0 ==> res is Some && yields_first(
                old(self)@,
                final(self)@,
                res.unwrap(),
            ),
    {
        match self.state {
            TraverseAreaOutwardIteratorState::Done => None,
            TraverseAreaOutwardIteratorState::YieldOne => Some(self.next_in_one()),
            TraverseAreaOutwardIteratorState::Yield2x2 { index } => Some(self.next_in_2x2(index)),
            TraverseAreaOutwardIteratorState::Yield3x3 { index } => Some(self.next_in_3x3(index)),
            TraverseAreaOutwardIteratorState::YieldRingEdgeCenters {
                edge_width,
                half_width,
                edge_index,
            } => Some(self.next_edge_center(edge_width, half_width, edge_index)),
            TraverseAreaOutwardIteratorState::YieldRingEdges {
                edge_width,
                half_width,
                edge_index,
                i,
            } => Some(self.next_edge(edge_width, half_width, edge_index, i)),
            TraverseAreaOutwardIteratorState::YieldRingCorners { corner_index } => Some(
                self.next_corner(corner_index),
            ),
        }
    }

    /// The facts shared by every step: which cell comes next, and what is left after it.
    proof fn lemma_step(&self)
        requires
            self.wf(),
            !(self.state is Done),
        ensures
            ({
                let big = self.max_width as int;
                let w = self.width as int;
                let q = outward_position(self.state);
                let r = outward_remaining(big, w, q);
                &&& 0 <= q < w * w
                &&& self@.len() > 0
                &&& self@[0] == inward_square(w, self.base_offset_x as int)[q]
                &&& self@.drop_first() =~= inward_order(big as nat).take(r - 1).reverse()
            }),
    {
        let big = self.max_width as int;
        let w = self.width as int;
        let q = outward_position(self.state);
        lemma_square_len(w, 0);
        if w >= 2 {
            lemma_ring_len(w, 0);
        }
        assert(w >= 4 ==> 4 * w - 4 <= w * w) by (nonlinear_arith);
        lemma_small_squares(w);
        lemma_square_nested_index(big, w, q);
        lemma_reverse_take_step(inward_order(big as nat), outward_remaining(big, w, q));
    }

    fn next_in_one(&mut self) -> (p: [usize; 2])
        requires
            old(self).wf(),
            old(self).state is YieldOne,
        ensures
            final(self).wf(),
            yields_first(old(self)@, final(self)@, p),
    {
        proof {
            self.lemma_step();
            assert(inward_square(1, self.base_offset_x as int) =~= seq![
                (self.base_offset_x as int, self.base_offset_x as int),
            ]);
            lemma_small_squares(self.width as int);
        }
        let p = [self.base_offset_x, self.base_offset_y];
        self.move_to_next_outer_ring();
        p
    }

    fn next_in_2x2(&mut self, index: usize) -> (p: [usize; 2])
        requires
            old(self).wf(),
            old(self).state == (TraverseAreaOutwardIteratorState::Yield2x2 { index }),
        ensures
            final(self).wf(),
            yields_first(old(self)@, final(self)@, p),
    {
        proof {
            self.lemma_step();
            lemma_square_two(self.base_offset_x as int);
            lemma_small_squares(self.width as int);
        }
        match index {
            0 => {
                self.state = TraverseAreaOutwardIteratorState::Yield2x2 { index: index + 1 };
                [self.base_offset_x + 1, self.base_offset_y + 1]
            },
            1 => {
                self.state = TraverseAreaOutwardIteratorState::Yield2x2 { index: index + 1 };
                [self.base_offset_x, self.base_offset_y + 1]
            },
            2 => {
                self.state = TraverseAreaOutwardIteratorState::Yield2x2 { index: index + 1 };
                [self.base_offset_x + 1, self.base_offset_y]
            },
            _ => {
                let p = [self.base_offset_x, self.base_offset_y];
                self.move_to_next_outer_ring();
                p
            },
        }
    }

    fn next_in_3x3(&mut self, index: usize) -> (p: [usize; 2])
        requires
            old(self).wf(),
            old(self).state == (TraverseAreaOutwardIteratorState::Yield3x3 { index }),
        ensures
            final(self).wf(),
            yields_first(old(self)@, final(self)@, p),
    {
        proof {
            self.lemma_step();
            lemma_square_three(self.base_offset_x as int);
            lemma_small_squares(self.width as int);
        }
        match index {
            0 => {
                self.state = TraverseAreaOutwardIteratorState::Yield3x3 { index: index + 1 };
                [self.base_offset_x + 1, self.base_offset_y + 1]
            },
            1 => {
                self.state = TraverseAreaOutwardIteratorState::Yield3x3 { index: index + 1 };
                [self.base_offset_x + 2, self.base_offset_y + 1]
            },
            2 => {
                self.state = TraverseAreaOutwardIteratorState::Yield3x3 { index: index + 1 };
                [self.base_offset_x, self.base_offset_y + 1]
            },
            3 => {
                self.state = TraverseAreaOutwardIteratorState::Yield3x3 { index: index + 1 };
                [self.base_offset_x + 1, self.base_offset_y + 2]
            },
            4 => {
                self.state = TraverseAreaOutwardIteratorState::Yield3x3 { index: index + 1 };
                [self.base_offset_x + 1, self.base_offset_y]
            },
            5 => {
                self.state = TraverseAreaOutwardIteratorState::Yield3x3 { index: index + 1 };
                [self.base_offset_x + 2, self.base_offset_y + 2]
            },
            6 => {
                self.state = TraverseAreaOutwardIteratorState::Yield3x3 { index: index + 1 };
                [self.base_offset_x, self.base_offset_y + 2]
            },
            7 => {
                self.state = TraverseAreaOutwardIteratorState::Yield3x3 { index: index + 1 };
                [self.base_offset_x + 2, self.base_offset_y]
            },
            _ => {
                let p = [self.base_offset_x, self.base_offset_y];
                self.move_to_next_outer_ring();
                p
            },
        }
    }

    fn next_edge_center(&mut self, edge_width: usize, half_width: usize, edge_index: usize) -> (p:
        [usize; 2])
        requires
            old(self).wf(),
            old(self).state == (TraverseAreaOutwardIteratorState::YieldRingEdgeCenters {
                edge_width,
                half_width,
                edge_index,
            }),
        ensures
            final(self).wf(),
            yields_first(old(self)@, final(self)@, p),
    {
        proof {
            self.lemma_step();
            let w = self.width as int;
            let o = self.base_offset_x as int;
            let q = outward_position(self.state);
            lemma_square_ring_index(w, o, q);
            lemma_ring_index(w, o, q);
        }
        match edge_index {
            0 => {
                self.state = TraverseAreaOutwardIteratorState::YieldRingEdgeCenters {
                    edge_width,
                    half_width,
                    edge_index: edge_index + 1,
                };
                [self.base_offset_x + self.width - 1, self.base_offset_y + half_width + 1]
            },
            1 => {
                self.state = TraverseAreaOutwardIteratorState::YieldRingEdgeCenters {
                    edge_width,
                    half_width,
                    edge_index: edge_index + 1,
                };
                [self.base_offset_x, self.base_offset_y + half_width + 1]
            },
            2 => {
                self.state = TraverseAreaOutwardIteratorState::YieldRingEdgeCenters {
                    edge_width,
                    half_width,
                    edge_index: edge_index + 1,
                };
                [self.base_offset_x + half_width + 1, self.base_offset_y + self.width - 1]
            },
            _ => {
                let steps = if half_width > 1 { half_width } else { 1 };
                self.state = TraverseAreaOutwardIteratorState::YieldRingEdges {
                    edge_width,
                    half_width,
                    edge_index: 0,
                    i: steps - 1,
                };
                [self.base_offset_x + half_width + 1, self.base_offset_y]
            },
        }
    }

    fn next_edge(&mut self, edge_width: usize, half_width: usize, edge_index: usize, i: usize) -> (p:
        [usize; 2])
        requires
            old(self).wf(),
            old(self).state == (TraverseAreaOutwardIteratorState::YieldRingEdges {
                edge_width,
                half_width,
                edge_index,
                i,
            }),
        ensures
            final(self).wf(),
            yields_first(old(self)@, final(self)@, p),
    {
        proof {
            self.lemma_step();
            let w = self.width as int;
            let o = self.base_offset_x as int;
            let q = outward_position(self.state);
            lemma_square_ring_index(w, o, q);
            lemma_ring_edge(w, o, i as int, 7 - edge_index);
        }
        match edge_index {
            0 => {
                self.state = TraverseAreaOutwardIteratorState::YieldRingEdges {
                    edge_width,
                    half_width,
                    edge_index: edge_index + 1,
                    i,
                };
                [self.base_offset_x + self.width - 1, self.base_offset_y + edge_width - i]
            },
            1 => {
                self.state = TraverseAreaOutwardIteratorState::YieldRingEdges {
                    edge_width,
                    half_width,
                    edge_index: edge_index + 1,
                    i,
                };
                [self.base_offset_x + self.width - 1, self.base_offset_y + 1 + i]
            },
            2 => {
                self.state = TraverseAreaOutwardIteratorState::YieldRingEdges {
                    edge_width,
                    half_width,
                    edge_index: edge_index + 1,
                    i,
                };
                [self.base_offset_x, self.base_offset_y + edge_width - i]
            },
            3 => {
                self.state = TraverseAreaOutwardIteratorState::YieldRingEdges {
                    edge_width,
                    half_width,
                    edge_index: edge_index + 1,
                    i,
                };
                [self.base_offset_x, self.base_offset_y + 1 + i]
            },
            4 => {
                self.state = TraverseAreaOutwardIteratorState::YieldRingEdges {
                    edge_width,
                    half_width,
                    edge_index: edge_index + 1,
                    i,
                };
                [self.base_offset_x + edge_width - i, self.base_offset_y + self.width - 1]
            },
            5 => {
                self.state = TraverseAreaOutwardIteratorState::YieldRingEdges {
                    edge_width,
                    half_width,
                    edge_index: edge_index + 1,
                    i,
                };
                [self.base_offset_x + 1 + i, self.base_offset_y + self.width - 1]
            },
            6 => {
                self.state = TraverseAreaOutwardIteratorState::YieldRingEdges {
                    edge_width,
                    half_width,
                    edge_index: edge_index + 1,
                    i,
                };
                [self.base_offset_x + edge_width - i, self.base_offset_y]
            },
            _ => {
                let p = [self.base_offset_x + 1 + i, self.base_offset_y];
                if i > 0 {
                    self.state = TraverseAreaOutwardIteratorState::YieldRingEdges {
                        edge_width,
                        half_width,
                        edge_index: 0,
                        i: i - 1,
                    };
                } else {
                    self.state = TraverseAreaOutwardIteratorState::YieldRingCorners {
                        corner_index: 0,
                    };
                }
                p
            },
        }
    }

    fn next_corner(&mut self, corner_index: usize) -> (p: [usize; 2])
        requires
            old(self).wf(),
            old(self).state == (TraverseAreaOutwardIteratorState::YieldRingCorners { corner_index }),
        ensures
            final(self).wf(),
            yields_first(old(self)@, final(self)@, p),
    {
        proof {
            self.lemma_step();
            let w = self.width as int;
            let o = self.base_offset_x as int;
            let q = outward_position(self.state);
            lemma_square_ring_index(w, o, q);
            lemma_ring_index(w, o, q);
        }
        match corner_index {
            0 => {
                self.state = TraverseAreaOutwardIteratorState::YieldRingCorners {
                    corner_index: corner_index + 1,
                };
                [self.base_offset_x + self.width - 1, self.base_offset_y + self.width - 1]
            },
            1 => {
                self.state = TraverseAreaOutwardIteratorState::YieldRingCorners {
                    corner_index: corner_index + 1,
                };
                [self.base_offset_x, self.base_offset_y + self.width - 1]
            },
            2 => {
                self.state = TraverseAreaOutwardIteratorState::YieldRingCorners {
                    corner_index: corner_index + 1,
                };
                [self.base_offset_x + self.width - 1, self.base_offset_y]
            },
            _ => {
                let p = [self.base_offset_x, self.base_offset_y];
                self.move_to_next_outer_ring();
                p
            },
        }
    }
}


// ---------------------------------------------------------------------------
// Every cell of the area is visited exactly once.
// ---------------------------------------------------------------------------

/// `p` lies in the square of width `w` whose top-left cell is `(o, o)`.
pub open spec fn in_square(w: int, o: int, p: (int, int)) -> bool {
    o <= p.0 < o + w && o <= p.1 < o + w
}

/// `p` lies on the outer ring of that square.
pub open spec fn on_ring(w: int, o: int, p: (int, int)) -> bool {
    &&& in_square(w, o, p)
    &&& (p.0 == o || p.0 == o + w - 1 || p.1 == o || p.1 == o + w - 1)
}

/// Where a cell of an edge (corners excluded) comes in its ring: `d` is its distance
/// from the edge's first cell, `side` says which of the eight per-step slots and which
/// of the four centers belong to the edge.
spec fn edge_slot(w: int, d: int, side: int) -> int {
    let ew = edge_len(w);
    let h = edge_pair_count(w);
    if d < h {
        4 + 8 * d + 2 * side
    } else if ew % 2 == 1 && d == h {
        4 + 8 * h + side
    } else {
        4 + 8 * (ew - 1 - d) + 2 * side + 1
    }
}

/// The position of a ring cell in the ring's visiting order.
spec fn ring_index_of(w: int, o: int, p: (int, int)) -> int {
    let a = p.0 - o;
    let b = p.1 - o;
    let n = w - 1;
    if a == 0 && b == 0 {
        0
    } else if a == n && b == 0 {
        1
    } else if a == 0 && b == n {
        2
    } else if a == n && b == n {
        3
    } else if b == 0 {
        edge_slot(w, a - 1, 0)
    } else if b == n {
        edge_slot(w, a - 1, 1)
    } else if a == 0 {
        edge_slot(w, b - 1, 2)
    } else {
        edge_slot(w, b - 1, 3)
    }
}

proof fn lemma_edge_decompose(j: int, h: int)
    requires
        0 <= j < 8 * h,
    ensures
        j == 8 * (j / 8) + j % 8,
        0 <= j % 8 < 8,
        0 <= j / 8 < h,
{
    vstd::arithmetic::div_mod::lemma_fundamental_div_mod(j, 8);
    vstd::arithmetic::div_mod::lemma_mod_bound(j, 8);
}

/// Each cell of a ring lies on the ring, and is found back at its own position.
proof fn lemma_ring_point(w: int, o: int, k: int)
    requires
        w >= 2,
        0 <= k < ring_len(w),
    ensures
        on_ring(w, o, ring_points(w, o)[k]),
        ring_index_of(w, o, ring_points(w, o)[k]) == k,
{
    lemma_ring_index(w, o, k);
    let h = edge_pair_count(w);
    if 4 <= k < 4 + 8 * h {
        lemma_edge_decompose(k - 4, h);
    }
}

/// Each cell on a ring is visited by the ring.
proof fn lemma_ring_index_of(w: int, o: int, p: (int, int))
    requires
        w >= 2,
        on_ring(w, o, p),
    ensures
        0 <= ring_index_of(w, o, p) < ring_len(w),
        ring_points(w, o)[ring_index_of(w, o, p)] == p,
{
    let k = ring_index_of(w, o, p);
    let h = edge_pair_count(w);
    assert(0 <= k < ring_len(w));
    lemma_ring_index(w, o, k);
    if 4 <= k < 4 + 8 * h {
        lemma_edge_decompose(k - 4, h);
        let i = (k - 4) / 8;
        let e = (k - 4) % 8;
        lemma_fundamental_div_mod_converse(k - 4, 8, i, e);
    }
}

/// A ring visits exactly its own cells, each once.
proof fn lemma_ring_cells(w: int, o: int)
    requires
        w >= 2,
    ensures
        ring_points(w, o).no_duplicates(),
        forall|p: (int, int)| ring_points(w, o).contains(p) <==> on_ring(w, o, p),
{
    lemma_ring_len(w, o);
    let ring = ring_points(w, o);
    assert forall|i: int, j: int| 0 <= i < ring.len() && 0 <= j < ring.len() && i != j implies ring[i]
        != ring[j] by {
        lemma_ring_point(w, o, i);
        lemma_ring_point(w, o, j);
    }
    assert forall|p: (int, int)| ring.contains(p) <==> on_ring(w, o, p) by {
        if ring.contains(p) {
            let k = choose|k: int| 0 <= k < ring.len() && ring[k] == p;
            lemma_ring_point(w, o, k);
        }
        if on_ring(w, o, p) {
            lemma_ring_index_of(w, o, p);
            assert(ring[ring_index_of(w, o, p)] == p);
        }
    }
}

/// A square traversal visits exactly the square's cells, each once.
proof fn lemma_square_cells(w: int, o: int)
    requires
        w >= 0,
    ensures
        inward_square(w, o).no_duplicates(),
        forall|p: (int, int)| inward_square(w, o).contains(p) <==> in_square(w, o, p),
    decreases w,
{
    broadcast use vstd::seq_lib::lemma_seq_concat_contains_all_elements;

    if w == 0 {
        assert(inward_square(w, o) =~= seq![]);
    } else if w == 1 {
        assert(inward_square(w, o) =~= seq![(o, o)]);
        assert forall|p: (int, int)| inward_square(w, o).contains(p) <==> in_square(w, o, p) by {
            if in_square(w, o, p) {
                assert(inward_square(w, o)[0] == p);
            }
        }
    } else {
        let ring = ring_points(w, o);
        let inner = inward_square(w - 2, o + 1);
        lemma_ring_cells(w, o);
        lemma_square_cells(w - 2, o + 1);
        assert(inward_square(w, o) == ring + inner);
        assert forall|i: int, j: int| 0 <= i < ring.len() && 0 <= j < inner.len() implies ring[i]
            != inner[j] by {
            let a = ring[i];
            let b = inner[j];
            assert(ring.contains(a));
            assert(on_ring(w, o, a));
            assert(inner.contains(b));
            assert(in_square(w - 2, o + 1, b));
        }
        vstd::seq_lib::lemma_no_dup_in_concat(ring, inner);
        assert forall|p: (int, int)| inward_square(w, o).contains(p) <==> in_square(w, o, p) by {
            assert((ring + inner).contains(p) <==> ring.contains(p) || inner.contains(p));
            assert(ring.contains(p) <==> on_ring(w, o, p));
            assert(inner.contains(p) <==> in_square(w - 2, o + 1, p));
        }
    }
}

/// Law: `traverse_area_inward(width)` yields every cell of `[0, width)²`, each exactly once.
pub proof fn lemma_inward_visits_every_cell_once(width: nat)
    ensures
        inward_order(width).len() == width * width,
        inward_order(width).no_duplicates(),
        forall|p: (int, int)| inward_order(width).contains(p) <==> in_grid(width, p),
{
    lemma_square_len(width as int, 0);
    lemma_square_cells(width as int, 0);
    assert forall|p: (int, int)| inward_order(width).contains(p) <==> in_grid(width, p) by {
        assert(inward_square(width as int, 0).contains(p) <==> in_square(width as int, 0, p));
    }
}

/// Law: `traverse_area_outward(width)` yields every cell of `[0, width)²`, each exactly once.
pub proof fn lemma_outward_visits_every_cell_once(width: nat)
    ensures
        outward_order(width).len() == width * width,
        outward_order(width).no_duplicates(),
        forall|p: (int, int)| outward_order(width).contains(p) <==> in_grid(width, p),
{
    lemma_inward_visits_every_cell_once(width);
    let s = inward_order(width);
    let r = outward_order(width);
    assert forall|i: int, j: int| 0 <= i < r.len() && 0 <= j < r.len() && i != j implies r[i]
        != r[j] by {
        assert(r[i] == s[s.len() - 1 - i]);
        assert(r[j] == s[s.len() - 1 - j]);
    }
    assert forall|p: (int, int)| r.contains(p) <==> in_grid(width, p) by {
        if r.contains(p) {
            let k = choose|k: int| 0 <= k < r.len() && r[k] == p;
            assert(s[s.len() - 1 - k] == p);
        }
        if s.contains(p) {
            let k = choose|k: int| 0 <= k < s.len() && s[k] == p;
            assert(r[s.len() - 1 - k] == p);
        }
    }
}

/// Law: the outward traversal yields the cells of the inward one in exactly the reverse order.
pub proof fn lemma_outward_is_inward_reversed(width: nat)
    ensures
        outward_order(width) =~= inward_order(width).reverse(),
        outward_order(width).reverse() =~= inward_order(width),
{
}


/// The ring of `[0, width)²` that `p` lies on: its distance to the nearest border.
pub open spec fn ring_of(width: int, p: (int, int)) -> int {
    let a = if p.0 <= p.1 { p.0 } else { p.1 };
    let b = if width - 1 - p.0 <= width - 1 - p.1 { width - 1 - p.0 } else { width - 1 - p.1 };
    if a <= b { a } else { b }
}

/// How far `p` lies from the nearest corner of its own ring, along the ring's edge: 0 for
/// a corner, 1 for a cell next to a corner, and most for the middle of an edge.
pub open spec fn corner_distance(width: int, p: (int, int)) -> int {
    let r = ring_of(width, p);
    let m = width - 2 * r;
    let t = if p.1 == r || p.1 == r + m - 1 { p.0 - r } else { p.1 - r };
    if t <= m - 1 - t { t } else { m - 1 - t }
}

/// The step of a ring's visiting order that its `k`-th cell belongs to: the corners,
/// then the pairs of edge cells going inwards, then the edge centers.
spec fn ring_step(w: int, k: int) -> int {
    let h = edge_pair_count(w);
    if k < 4 {
        0
    } else if k < 4 + 8 * h {
        (k - 4) / 8 + 1
    } else {
        h + 1
    }
}

/// A cell of the ring at offset `o` of `[0, width)²` lies on ring `o`, as far from its
/// corners as the step that visits it.
proof fn lemma_ring_point_rank(width: int, w: int, o: int, k: int)
    requires
        w >= 2,
        o >= 0,
        width == w + 2 * o,
        0 <= k < ring_len(w),
    ensures
        ring_of(width, ring_points(w, o)[k]) == o,
        corner_distance(width, ring_points(w, o)[k]) == ring_step(w, k),
{
    lemma_ring_index(w, o, k);
    let h = edge_pair_count(w);
    let p = ring_points(w, o)[k];
    if k < 4 {
        assert(p == corner_points(w, o)[k]);
        if k == 0 {
            assert(p == (o, o));
        } else if k == 1 {
            assert(p == (o + w - 1, o));
        } else if k == 2 {
            assert(p == (o, o + w - 1));
        } else {
            assert(p == (o + w - 1, o + w - 1));
        }
    } else if k < 4 + 8 * h {
        lemma_edge_decompose(k - 4, h);
        let i = (k - 4) / 8;
        let e = (k - 4) % 8;
        assert(p == edge_point(w, o, i, e));
        assert(2 * i + 2 <= w - 2);
    } else {
        let c = k - 4 - 8 * h;
        assert(edge_len(w) % 2 == 1);
        assert(p == center_points(w, o)[c]);
        assert(2 * h + 1 == w - 2);
        if c == 0 {
            assert(p == (o + h + 1, o));
        } else if c == 1 {
            assert(p == (o + h + 1, o + w - 1));
        } else if c == 2 {
            assert(p == (o, o + h + 1));
        } else {
            assert(p == (o + w - 1, o + h + 1));
        }
    }
}

proof fn lemma_ring_step_monotone(w: int, i: int, j: int)
    requires
        w >= 2,
        0 <= i <= j < ring_len(w),
    ensures
        ring_step(w, i) <= ring_step(w, j),
{
    let h = edge_pair_count(w);
    if 4 <= i < 4 + 8 * h {
        lemma_edge_decompose(i - 4, h);
        if j < 4 + 8 * h {
            vstd::arithmetic::div_mod::lemma_div_is_ordered(i - 4, j - 4, 8);
        }
    }
}

/// `a` comes no later than `b` by ring, and within one ring by distance from the corners.
pub open spec fn ring_rank_le(width: int, a: (int, int), b: (int, int)) -> bool {
    ||| ring_of(width, a) < ring_of(width, b)
    ||| ring_of(width, a) == ring_of(width, b) && corner_distance(width, a) <= corner_distance(width, b)
}

/// The traversal of the square at offset `o` of `[0, width)²` goes ring by ring, and
/// within a ring from the corners towards the edge centers.
proof fn lemma_square_rank(width: int, w: int, o: int)
    requires
        w >= 0,
        o >= 0,
        width == w + 2 * o,
    ensures
        forall|k: int| 0 <= k < inward_square(w, o).len() ==> ring_of(width, #[trigger] inward_square(w, o)[k]) >= o,
        forall|i: int, j: int|
            0 <= i <= j < inward_square(w, o).len() ==> ring_rank_le(
                width,
                #[trigger] inward_square(w, o)[i],
                #[trigger] inward_square(w, o)[j],
            ),
    decreases w,
{
    let s = inward_square(w, o);
    if w == 0 {
        assert(s =~= seq![]);
    } else if w == 1 {
        assert(s =~= seq![(o, o)]);
    } else {
        let ring = ring_points(w, o);
        let inner = inward_square(w - 2, o + 1);
        lemma_ring_len(w, o);
        lemma_square_rank(width, w - 2, o + 1);
        assert(s == ring + inner);
        let n = ring.len() as int;
        assert forall|k: int| 0 <= k < s.len() implies ring_of(width, #[trigger] s[k]) >= o by {
            if k < n {
                lemma_ring_point_rank(width, w, o, k);
            } else {
                assert(s[k] == inner[k - n]);
            }
        }
        assert forall|i: int, j: int| 0 <= i <= j < s.len() implies ring_rank_le(
            width,
            #[trigger] s[i],
            #[trigger] s[j],
        ) by {
            if j < n {
                lemma_ring_point_rank(width, w, o, i);
                lemma_ring_point_rank(width, w, o, j);
                lemma_ring_step_monotone(w, i, j);
            } else if i < n {
                lemma_ring_point_rank(width, w, o, i);
                assert(s[j] == inner[j - n]);
            } else {
                assert(s[i] == inner[i - n]);
                assert(s[j] == inner[j - n]);
            }
        }
    }
}

/// Law: the inward traversal fills `[0, width)²` ring by ring from the border inwards,
/// and each ring from its four corners, then along each edge from both corners towards
/// the edge's middle.
pub proof fn lemma_inward_goes_ring_by_ring_from_the_corners(width: nat)
    ensures
        forall|i: int, j: int|
            0 <= i <= j < inward_order(width).len() ==> ring_of(width as int, #[trigger] inward_order(width)[i])
                <= ring_of(width as int, #[trigger] inward_order(width)[j]),
        forall|i: int, j: int|
            0 <= i <= j < inward_order(width).len() && ring_of(width as int, inward_order(width)[i])
                == ring_of(width as int, inward_order(width)[j]) ==> corner_distance(
                width as int,
                #[trigger] inward_order(width)[i],
            ) <= corner_distance(width as int, #[trigger] inward_order(width)[j]),
{
    lemma_square_rank(width as int, width as int, 0);
}

/// After its `d` outer rings, the traversal of a square goes on with the square `d`
/// cells further in; the cells of those rings lie on rings before `o + d`.
proof fn lemma_square_prefix(width: int, w: int, o: int, d: int)
    requires
        o >= 0,
        d >= 0,
        w >= 2 * d,
        width == w + 2 * o,
    ensures
        w * w - (w - 2 * d) * (w - 2 * d) <= inward_square(w, o).len(),
        inward_square(w, o).skip(w * w - (w - 2 * d) * (w - 2 * d)) =~= inward_square(w - 2 * d, o + d),
        forall|k: int|
            0 <= k < w * w - (w - 2 * d) * (w - 2 * d) ==> ring_of(width, #[trigger] inward_square(w, o)[k])
                < o + d,
    decreases d,
{
    lemma_square_len(w, o);
    if d == 0 {
        assert(w * w - (w - 2 * d) * (w - 2 * d) == 0);
        assert(inward_square(w, o).skip(0) =~= inward_square(w, o));
    } else {
        let s = inward_square(w, o);
        let ring = ring_points(w, o);
        let inner = inward_square(w - 2, o + 1);
        lemma_ring_len(w, o);
        lemma_square_prefix(width, w - 2, o + 1, d - 1);
        assert(s == ring + inner);
        let n = ring.len() as int;
        let q = w * w - (w - 2 * d) * (w - 2 * d);
        let q1 = (w - 2) * (w - 2) - (w - 2 - 2 * (d - 1)) * (w - 2 - 2 * (d - 1));
        assert(q == n + q1) by (nonlinear_arith)
            requires
                n == 4 * w - 4,
                q == w * w - (w - 2 * d) * (w - 2 * d),
                q1 == (w - 2) * (w - 2) - (w - 2 - 2 * (d - 1)) * (w - 2 - 2 * (d - 1)),
        ;
        assert(q1 >= 0) by (nonlinear_arith)
            requires
                d >= 1,
                w >= 2 * d,
                q1 == (w - 2) * (w - 2) - (w - 2 - 2 * (d - 1)) * (w - 2 - 2 * (d - 1)),
        ;
        assert(s.skip(q) =~= inner.skip(q1));
        assert forall|k: int| 0 <= k < q implies ring_of(width, #[trigger] s[k]) < o + d by {
            if k < n {
                lemma_ring_point_rank(width, w, o, k);
            } else {
                assert(s[k] == inner[k - n]);
            }
        }
    }
}

/// Law: ring `r` of `[0, width)²`, when it has at least two cells a side, is entered
/// once every cell of the rings before it was visited, at its four corners: top-left,
/// top-right, bottom-left, bottom-right; all cells after them lie on ring `r` or further in.
pub proof fn lemma_inward_ring_starts_at_its_corners(width: nat, r: nat)
    requires
        width >= 2 * r + 2,
    ensures
        ({
            let s = inward_order(width);
            let m = width - 2 * r;
            let q = width * width - m * m;
            &&& 0 <= q
            &&& q + 4 <= s.len()
            &&& s[q] == (r as int, r as int)
            &&& s[q + 1] == (r + m - 1, r as int)
            &&& s[q + 2] == (r as int, r + m - 1)
            &&& s[q + 3] == (r + m - 1, r + m - 1)
            &&& forall|k: int| 0 <= k < q ==> ring_of(width as int, #[trigger] s[k]) < r
            &&& forall|k: int| q <= k < s.len() ==> ring_of(width as int, #[trigger] s[k]) >= r
        }),
{
    let w = width as int;
    let s = inward_order(width);
    let m = w - 2 * r;
    let q = w * w - m * m;
    lemma_square_prefix(w, w, 0, r as int);
    lemma_square_len(w, 0);
    lemma_square_len(m, r as int);
    lemma_square_rank(w, m, r as int);
    let rest = inward_square(m, r as int);
    assert(q == w * w - (w - 2 * (r as int)) * (w - 2 * (r as int)));
    assert(s.skip(q) =~= rest);
    assert(s.len() == w * w);
    assert(rest.len() == m * m);
    assert(0 <= q) by (nonlinear_arith)
        requires
            q == w * w - m * m,
            0 <= m <= w,
    ;
    lemma_ring_len(m, r as int);
    assert(m * m >= 4) by (nonlinear_arith)
        requires
            m >= 2,
    ;
    assert forall|k: int| q <= k < s.len() implies ring_of(w, #[trigger] s[k]) >= r by {
        assert(s.skip(q)[k - q] == s[k]);
    }
    assert(inward_square(m, r as int) == ring_points(m, r as int) + inward_square(m - 2, (r + 1) as int));
    assert(s.skip(q)[0] == s[q]);
    assert(s.skip(q)[1] == s[q + 1]);
    assert(s.skip(q)[2] == s[q + 2]);
    assert(s.skip(q)[3] == s[q + 3]);
}

// ---------------------------------------------------------------------------
// Islands of walkable cells.
// ---------------------------------------------------------------------------

/// A run of consecutive open cells of one row, linked to the runs right above it.
struct IslandNode {
    color: usize,
    neighbors: Vec<usize>,
    propagated: bool,
}

/// The colors that occur in an island map.
pub open spec fn island_colors(map: Seq<Option<usize>>) -> Set<usize> {
    Set::new(|c: usize| exists|i: int| 0 <= i < map.len() && map[i] == Some(c))
}

/// Cells `a` and `b` share a side.
pub open spec fn adjacent(a: (int, int), b: (int, int)) -> bool {
    ||| a.0 == b.0 && (a.1 == b.1 + 1 || b.1 == a.1 + 1)
    ||| a.1 == b.1 && (a.0 == b.0 + 1 || b.0 == a.0 + 1)
}

/// Cell `c` lies on the floor and has no wall.
pub open spec fn open_cell<D: EditableFloorData>(data: D, c: (int, int)) -> bool {
    0 <= c.0 < data.floor_width() && 0 <= c.1 < data.floor_height() && is_open(data.wall_at(c.0, c.1))
}

/// A walk over open cells, each next to the one before.
pub open spec fn open_path<D: EditableFloorData>(data: D, p: Seq<(int, int)>) -> bool {
    &&& p.len() > 0
    &&& forall|k: int| 0 <= k < p.len() ==> open_cell(data, #[trigger] p[k])
    &&& forall|k: int| 0 <= k < p.len() - 1 ==> adjacent(#[trigger] p[k], p[k + 1])
}

/// One can walk from cell `a` to cell `b` over open cells.
pub open spec fn connected<D: EditableFloorData>(data: D, a: (int, int), b: (int, int)) -> bool {
    exists|p: Seq<(int, int)>| #[trigger] open_path(data, p) && p[0] == a && p[p.len() - 1] == b
}

/// Every open cell of the floor can be reached from every other.
pub open spec fn all_connected<D: EditableFloorData>(data: D) -> bool {
    forall|a: (int, int), b: (int, int)|
        open_cell(data, a) && open_cell(data, b) ==> #[trigger] connected(data, a, b)
}

proof fn lemma_connected_refl<D: EditableFloorData>(data: D, a: (int, int))
    requires
        open_cell(data, a),
    ensures
        connected(data, a, a),
{
    let p = seq![a];
    assert(open_path(data, p));
}

proof fn lemma_connected_step<D: EditableFloorData>(data: D, a: (int, int), b: (int, int), c: (int, int))
    requires
        connected(data, a, b),
        adjacent(b, c),
        open_cell(data, c),
    ensures
        connected(data, a, c),
{
    let p = choose|p: Seq<(int, int)>| #[trigger] open_path(data, p) && p[0] == a && p[p.len() - 1] == b;
    let q = p.push(c);
    assert forall|k: int| 0 <= k < q.len() implies open_cell(data, #[trigger] q[k]) by {
        if k < p.len() {
            assert(q[k] == p[k]);
        }
    }
    assert forall|k: int| 0 <= k < q.len() - 1 implies adjacent(#[trigger] q[k], q[k + 1]) by {
        if k < p.len() - 1 {
            assert(q[k] == p[k] && q[k + 1] == p[k + 1]);
        }
    }
    assert(open_path(data, q));
}

proof fn lemma_connected_symm<D: EditableFloorData>(data: D, a: (int, int), b: (int, int))
    requires
        connected(data, a, b),
    ensures
        connected(data, b, a),
{
    let p = choose|p: Seq<(int, int)>| #[trigger] open_path(data, p) && p[0] == a && p[p.len() - 1] == b;
    let q = p.reverse();
    assert forall|k: int| 0 <= k < q.len() implies open_cell(data, #[trigger] q[k]) by {
        assert(q[k] == p[p.len() - 1 - k]);
    }
    assert forall|k: int| 0 <= k < q.len() - 1 implies adjacent(#[trigger] q[k], q[k + 1]) by {
        let j = p.len() - 2 - k;
        assert(q[k] == p[j + 1]);
        assert(q[k + 1] == p[j]);
        assert(adjacent(p[j], p[j + 1]));
    }
    assert(open_path(data, q));
}

proof fn lemma_connected_trans<D: EditableFloorData>(data: D, a: (int, int), b: (int, int), c: (int, int))
    requires
        connected(data, a, b),
        connected(data, b, c),
    ensures
        connected(data, a, c),
{
    let p = choose|p: Seq<(int, int)>| #[trigger] open_path(data, p) && p[0] == a && p[p.len() - 1] == b;
    let r = choose|r: Seq<(int, int)>| #[trigger] open_path(data, r) && r[0] == b && r[r.len() - 1] == c;
    let q = p + r.skip(1);
    assert forall|k: int| 0 <= k < q.len() implies open_cell(data, #[trigger] q[k]) by {
        if k < p.len() {
            assert(q[k] == p[k]);
        } else {
            assert(q[k] == r[k - p.len() + 1]);
        }
    }
    assert forall|k: int| 0 <= k < q.len() - 1 implies adjacent(#[trigger] q[k], q[k + 1]) by {
        if k < p.len() - 1 {
            assert(q[k] == p[k] && q[k + 1] == p[k + 1]);
        } else if k == p.len() - 1 {
            assert(q[k] == b);
            assert(q[k + 1] == r[1]);
            assert(r[0] == b);
            assert(adjacent(r[0], r[1]));
        } else {
            assert(q[k] == r[k - p.len() + 1]);
            assert(q[k + 1] == r[k - p.len() + 2]);
            assert(adjacent(r[k - p.len() + 1], r[k - p.len() + 1 + 1]));
        }
    }
    if r.len() == 1 {
        assert(q =~= p);
    } else {
        assert(q[q.len() - 1] == r[r.len() - 1]);
    }
    assert(open_path(data, q));
}

/// Number of `true` entries.
spec fn count_true(s: Seq<bool>) -> nat
    decreases s.len(),
{
    if s.len() == 0 {
        0
    } else {
        count_true(s.drop_last()) + if s.last() {
            1nat
        } else {
            0nat
        }
    }
}

proof fn lemma_count_true_zero(s: Seq<bool>)
    requires
        forall|k: int| 0 <= k < s.len() ==> !s[k],
    ensures
        count_true(s) == 0,
    decreases s.len(),
{
    if s.len() > 0 {
        lemma_count_true_zero(s.drop_last());
    }
}

proof fn lemma_count_true_bound(s: Seq<bool>)
    ensures
        count_true(s) <= s.len(),
    decreases s.len(),
{
    if s.len() > 0 {
        lemma_count_true_bound(s.drop_last());
    }
}

proof fn lemma_count_true_set(s: Seq<bool>, k: int)
    requires
        0 <= k < s.len(),
        !s[k],
    ensures
        count_true(s.update(k, true)) == count_true(s) + 1,
    decreases s.len(),
{
    let t = s.update(k, true);
    if k == s.len() - 1 {
        assert(t.drop_last() =~= s.drop_last());
    } else {
        assert(t.drop_last() =~= s.drop_last().update(k, true));
        lemma_count_true_set(s.drop_last(), k);
    }
}

fn vec_contains(v: &Vec<usize>, x: usize) -> (r: bool)
    ensures
        r == v@.contains(x),
{
    let mut k: usize = 0;
    while k < v.len()
        invariant
            k <= v.len(),
            forall|j: int| 0 <= j < k ==> v@[j] != x,
        decreases v.len() - k,
    {
        if v[k] == x {
            assert(v@[k as int] == x);
            return true;
        }
        k += 1;
    }
    false
}

proof fn lemma_row_step(y: int, w: int)
    ensures
        (y + 1) * w == y * w + w,
{
    assert((y + 1) * w == y * w + w) by (nonlinear_arith);
}

proof fn lemma_row_major_injective(w: int, x: int, y: int, x2: int, y2: int)
    requires
        0 <= x < w,
        0 <= x2 < w,
        0 <= y,
        0 <= y2,
    ensures
        (y * w + x == y2 * w + x2) ==> (x == x2 && y == y2),
{
    assert((y * w + x == y2 * w + x2) ==> (x == x2 && y == y2)) by (nonlinear_arith)
        requires
            0 <= x < w,
            0 <= x2 < w,
            0 <= y,
            0 <= y2,
    ;
}

/// Every colored cell of `map` can reach the representative cell of its run.
#[verifier::opaque]
spec fn runs_connected<D: EditableFloorData>(
    data: D,
    w: int,
    h: int,
    map: Seq<Option<usize>>,
    reps: Seq<(int, int)>,
) -> bool {
    forall|xx: int, yy: int|
        0 <= xx < w && 0 <= yy < h && (#[trigger] map[yy * w + xx]) is Some ==> connected(
            data,
            (xx, yy),
            reps[map[yy * w + xx].unwrap() as int],
        )
}

/// The representative cells of linked runs can reach each other.
#[verifier::opaque]
spec fn links_connected<D: EditableFloorData>(data: D, nodes: Seq<IslandNode>, reps: Seq<(int, int)>) -> bool {
    forall|n: int, k: int|
        0 <= n < nodes.len() && 0 <= k < nodes[n].neighbors@.len() ==> connected(
            data,
            reps[n],
            reps[#[trigger] nodes[n].neighbors@[k] as int],
        )
}

proof fn lemma_runs_use<D: EditableFloorData>(
    data: D,
    w: int,
    h: int,
    map: Seq<Option<usize>>,
    reps: Seq<(int, int)>,
    xx: int,
    yy: int,
)
    requires
        runs_connected(data, w, h, map, reps),
        0 <= xx < w,
        0 <= yy < h,
        map[yy * w + xx] is Some,
    ensures
        connected(data, (xx, yy), reps[map[yy * w + xx].unwrap() as int]),
{
    reveal(runs_connected);
}

proof fn lemma_runs_start<D: EditableFloorData>(data: D, w: int, h: int, map: Seq<Option<usize>>)
    requires
        forall|xx: int, yy: int| 0 <= xx < w && 0 <= yy < h ==> (#[trigger] map[yy * w + xx]) is None,
    ensures
        runs_connected(data, w, h, map, Seq::empty()),
{
    reveal(runs_connected);
}

proof fn lemma_runs_step<D: EditableFloorData>(
    data: D,
    w: int,
    h: int,
    map: Seq<Option<usize>>,
    reps: Seq<(int, int)>,
    reps2: Seq<(int, int)>,
    x: int,
    y: int,
    c: usize,
)
    requires
        runs_connected(data, w, h, map, reps),
        map.len() == w * h,
        0 <= x < w,
        0 <= y < h,
        reps.len() <= reps2.len(),
        forall|n: int| 0 <= n < reps.len() ==> #[trigger] reps2[n] == reps[n],
        forall|i: int| 0 <= i < map.len() && (#[trigger] map[i]) is Some ==> map[i].unwrap() < reps.len(),
        connected(data, (x, y), reps2[c as int]),
    ensures
        runs_connected(data, w, h, map.update(y * w + x, Some(c)), reps2),
{
    reveal(runs_connected);
    let map2 = map.update(y * w + x, Some(c));
    assert forall|xx: int, yy: int|
        0 <= xx < w && 0 <= yy < h && (#[trigger] map2[yy * w + xx]) is Some implies connected(
            data,
            (xx, yy),
            reps2[map2[yy * w + xx].unwrap() as int],
        ) by {
        crate::floor_generator::lemma_cell_index_bound(w, h, xx, yy);
        crate::floor_generator::lemma_cell_index_bound(w, h, x, y);
        if xx == x && yy == y {
        } else {
            lemma_row_major_injective(w, xx, yy, x, y);
            assert(map2[yy * w + xx] == map[yy * w + xx]);
            assert(map[yy * w + xx] is Some);
        }
    }
}

proof fn lemma_links_new_node<D: EditableFloorData>(
    data: D,
    nodes: Seq<IslandNode>,
    reps: Seq<(int, int)>,
    node: IslandNode,
    rep: (int, int),
)
    requires
        links_connected(data, nodes, reps),
        nodes.len() == reps.len(),
        node.neighbors@.len() == 0,
        forall|n: int, k: int|
            0 <= n < nodes.len() && 0 <= k < nodes[n].neighbors@.len() ==> #[trigger] nodes[n].neighbors@[k]
                < nodes.len(),
    ensures
        links_connected(data, nodes.push(node), reps.push(rep)),
{
    reveal(links_connected);
    let nodes2 = nodes.push(node);
    let reps2 = reps.push(rep);
    assert forall|n: int, k: int|
        0 <= n < nodes2.len() && 0 <= k < nodes2[n].neighbors@.len() implies connected(
            data,
            reps2[n],
            reps2[#[trigger] nodes2[n].neighbors@[k] as int],
        ) by {
        assert(n < nodes.len());
        assert(nodes2[n] == nodes[n]);
        assert(nodes[n].neighbors@[k] < nodes.len());
    }
}

proof fn lemma_links_push<D: EditableFloorData>(
    data: D,
    nodes: Seq<IslandNode>,
    nodes2: Seq<IslandNode>,
    reps: Seq<(int, int)>,
    c: int,
    id: usize,
)
    requires
        links_connected(data, nodes, reps),
        0 <= c < nodes.len(),
        nodes2.len() == nodes.len(),
        forall|m: int| 0 <= m < nodes.len() && m != c ==> (#[trigger] nodes2[m]).neighbors@ == nodes[m].neighbors@,
        nodes2[c].neighbors@ == nodes[c].neighbors@.push(id),
        connected(data, reps[c], reps[id as int]),
    ensures
        links_connected(data, nodes2, reps),
{
    reveal(links_connected);
    assert forall|n: int, k: int|
        0 <= n < nodes2.len() && 0 <= k < nodes2[n].neighbors@.len() implies connected(
            data,
            reps[n],
            reps[#[trigger] nodes2[n].neighbors@[k] as int],
        ) by {
        if n != c {
            assert(nodes2[n].neighbors@[k] == nodes[n].neighbors@[k]);
        } else if k < nodes[c].neighbors@.len() {
            assert(nodes2[n].neighbors@[k] == nodes[n].neighbors@[k]);
        }
    }
}

proof fn lemma_links_same<D: EditableFloorData>(
    data: D,
    nodes: Seq<IslandNode>,
    nodes2: Seq<IslandNode>,
    reps: Seq<(int, int)>,
)
    requires
        links_connected(data, nodes, reps),
        nodes2.len() == nodes.len(),
        forall|m: int| 0 <= m < nodes.len() ==> (#[trigger] nodes2[m]).neighbors@ == nodes[m].neighbors@,
    ensures
        links_connected(data, nodes2, reps),
{
    reveal(links_connected);
    assert forall|n: int, k: int|
        0 <= n < nodes2.len() && 0 <= k < nodes2[n].neighbors@.len() implies connected(
            data,
            reps[n],
            reps[#[trigger] nodes2[n].neighbors@[k] as int],
        ) by {
        assert(nodes2[n].neighbors@ == nodes[n].neighbors@);
    }
}

/// The representative cell of every run can reach that of the run whose color it has.
#[verifier::opaque]
spec fn colors_connected<D: EditableFloorData>(data: D, nodes: Seq<IslandNode>, reps: Seq<(int, int)>) -> bool {
    forall|n: int|
        0 <= n < nodes.len() ==> connected(data, reps[n], reps[(#[trigger] nodes[n]).color as int])
}

proof fn lemma_colors_use<D: EditableFloorData>(data: D, nodes: Seq<IslandNode>, reps: Seq<(int, int)>, n: int)
    requires
        colors_connected(data, nodes, reps),
        0 <= n < nodes.len(),
    ensures
        connected(data, reps[n], reps[nodes[n].color as int]),
{
    reveal(colors_connected);
}

proof fn lemma_colors_start<D: EditableFloorData>(data: D, nodes: Seq<IslandNode>, reps: Seq<(int, int)>)
    requires
        reps.len() == nodes.len(),
        forall|n: int| 0 <= n < nodes.len() ==> (#[trigger] nodes[n]).color == n,
        forall|n: int| 0 <= n < reps.len() ==> open_cell(data, #[trigger] reps[n]),
    ensures
        colors_connected(data, nodes, reps),
{
    reveal(colors_connected);
    assert forall|n: int| 0 <= n < nodes.len() implies connected(
        data,
        reps[n],
        reps[(#[trigger] nodes[n]).color as int],
    ) by {
        lemma_connected_refl(data, reps[n]);
    }
}

proof fn lemma_colors_update<D: EditableFloorData>(
    data: D,
    nodes: Seq<IslandNode>,
    nodes2: Seq<IslandNode>,
    reps: Seq<(int, int)>,
    m: int,
)
    requires
        colors_connected(data, nodes, reps),
        nodes2.len() == nodes.len(),
        forall|k: int| 0 <= k < nodes.len() && k != m ==> (#[trigger] nodes2[k]).color == nodes[k].color,
        0 <= m < nodes.len() ==> connected(data, reps[m], reps[nodes2[m].color as int]),
    ensures
        colors_connected(data, nodes2, reps),
{
    reveal(colors_connected);
    assert forall|n: int| 0 <= n < nodes2.len() implies connected(
        data,
        reps[n],
        reps[(#[trigger] nodes2[n]).color as int],
    ) by {
        if n != m {
            assert(nodes2[n].color == nodes[n].color);
        }
    }
}

proof fn lemma_links_use<D: EditableFloorData>(
    data: D,
    nodes: Seq<IslandNode>,
    reps: Seq<(int, int)>,
    n: int,
    k: int,
)
    requires
        links_connected(data, nodes, reps),
        0 <= n < nodes.len(),
        0 <= k < nodes[n].neighbors@.len(),
    ensures
        connected(data, reps[n], reps[nodes[n].neighbors@[k] as int]),
{
    reveal(links_connected);
}

/// The links of `a` are kept, in order, at the front of the links of `b`.
spec fn links_prefix(a: Seq<IslandNode>, b: Seq<IslandNode>) -> bool {
    &&& a.len() <= b.len()
    &&& forall|n: int| 0 <= n < a.len() ==> a[n].neighbors@.len() <= (#[trigger] b[n]).neighbors@.len()
    &&& forall|n: int, k: int|
        #![trigger a[n].neighbors@[k]]
        0 <= n < a.len() && 0 <= k < a[n].neighbors@.len() ==> b[n].neighbors@[k] == a[n].neighbors@[k]
}

/// Where the cell in column `xx`, row `yy` and the cell above it both belong to runs, the
/// lower run links to the upper one.
spec fn linked_below(nodes: Seq<IslandNode>, map: Seq<Option<usize>>, w: int, xx: int, yy: int) -> bool {
    map[yy * w + xx] is Some && map[(yy - 1) * w + xx] is Some ==> nodes[map[yy * w
        + xx].unwrap() as int].neighbors@.contains(map[(yy - 1) * w + xx].unwrap())
}

/// Run `m` is a root, or a later run links to it.
spec fn covered(nodes: Seq<IslandNode>, roots: Set<usize>, m: int) -> bool {
    roots.contains(m as usize) || exists|n: int, k: int|
        m < n < nodes.len() && 0 <= k < nodes[n].neighbors@.len() && #[trigger] nodes[n].neighbors@[k]
            == m
}

proof fn lemma_prefix_refl(a: Seq<IslandNode>)
    ensures
        links_prefix(a, a),
{
}

proof fn lemma_prefix_trans(a: Seq<IslandNode>, b: Seq<IslandNode>, c: Seq<IslandNode>)
    requires
        links_prefix(a, b),
        links_prefix(b, c),
    ensures
        links_prefix(a, c),
{
    assert forall|n: int, k: int|
        #![trigger a[n].neighbors@[k]]
        0 <= n < a.len() && 0 <= k < a[n].neighbors@.len() implies c[n].neighbors@[k]
            == a[n].neighbors@[k] by {
        assert(b[n].neighbors@[k] == a[n].neighbors@[k]);
        assert(a[n].neighbors@.len() <= b[n].neighbors@.len());
    }
    assert forall|n: int| 0 <= n < a.len() implies a[n].neighbors@.len() <= (#[trigger] c[n]).neighbors@.len() by {
        assert(a[n].neighbors@.len() <= b[n].neighbors@.len());
        assert(b[n].neighbors@.len() <= c[n].neighbors@.len());
    }
}

proof fn lemma_prefix_push_link(a: Seq<IslandNode>, b: Seq<IslandNode>, c: int, id: usize)
    requires
        0 <= c < a.len(),
        b.len() == a.len(),
        forall|m: int| 0 <= m < a.len() && m != c ==> (#[trigger] b[m]).neighbors@ == a[m].neighbors@,
        b[c].neighbors@ == a[c].neighbors@.push(id),
    ensures
        links_prefix(a, b),
{
    assert forall|n: int, k: int|
        #![trigger a[n].neighbors@[k]]
        0 <= n < a.len() && 0 <= k < a[n].neighbors@.len() implies b[n].neighbors@[k]
            == a[n].neighbors@[k] by {
        if n != c {
            assert(b[n].neighbors@ == a[n].neighbors@);
        }
    }
    assert forall|n: int| 0 <= n < a.len() implies a[n].neighbors@.len() <= (#[trigger] b[n]).neighbors@.len() by {
        if n != c {
            assert(b[n].neighbors@ == a[n].neighbors@);
        }
    }
}

/// Processing the cell in column `x`, row `y`, which changes the map only there and
/// only adds links, keeps the links between the runs of the cells before it.
proof fn lemma_linked_cells(
    nb: Seq<IslandNode>,
    na: Seq<IslandNode>,
    mb: Seq<Option<usize>>,
    ma: Seq<Option<usize>>,
    w: int,
    h: int,
    x: int,
    y: int,
)
    requires
        0 <= x < w,
        0 <= y < h,
        mb.len() == w * h,
        ma.len() == w * h,
        links_prefix(nb, na),
        forall|j: int| 0 <= j < w * h && j != y * w + x ==> ma[j] == mb[j],
        forall|j: int| 0 <= j < w * h && (#[trigger] mb[j]) is Some ==> mb[j].unwrap() < nb.len(),
        forall|xx: int, yy: int|
            0 <= xx < w && 1 <= yy < y ==> #[trigger] linked_below(nb, mb, w, xx, yy),
        forall|xx: int| 0 <= xx < x && 1 <= y ==> #[trigger] linked_below(nb, mb, w, xx, y),
        1 <= y ==> linked_below(na, ma, w, x, y),
    ensures
        forall|xx: int, yy: int|
            0 <= xx < w && 1 <= yy < y ==> #[trigger] linked_below(na, ma, w, xx, yy),
        forall|xx: int| 0 <= xx < x + 1 && 1 <= y ==> #[trigger] linked_below(na, ma, w, xx, y),
{
    assert forall|xx: int, yy: int| 0 <= xx < w && 1 <= yy < y implies #[trigger] linked_below(na, ma, w, xx, yy) by {
        assert(0 <= (yy - 1) * w + xx < yy * w + xx < y * w) by (nonlinear_arith)
            requires
                0 <= xx < w,
                1 <= yy < y,
        ;
        assert(y * w + x < w * h) by (nonlinear_arith)
            requires
                0 <= x < w,
                0 <= y < h,
        ;
        lemma_linked_keep(nb, na, mb, ma, w, xx, yy);
    }
    assert forall|xx: int| 0 <= xx < x + 1 && 1 <= y implies #[trigger] linked_below(na, ma, w, xx, y) by {
        if xx < x {
            assert(0 <= (y - 1) * w + xx < y * w + xx < y * w + x < w * h) by (nonlinear_arith)
                requires
                    0 <= xx < x < w,
                    1 <= y < h,
            ;
            lemma_linked_keep(nb, na, mb, ma, w, xx, y);
        }
    }
}

proof fn lemma_linked_keep(
    nb: Seq<IslandNode>,
    na: Seq<IslandNode>,
    mb: Seq<Option<usize>>,
    ma: Seq<Option<usize>>,
    w: int,
    xx: int,
    yy: int,
)
    requires
        linked_below(nb, mb, w, xx, yy),
        links_prefix(nb, na),
        ma[yy * w + xx] == mb[yy * w + xx],
        ma[(yy - 1) * w + xx] == mb[(yy - 1) * w + xx],
        mb[yy * w + xx] is Some ==> mb[yy * w + xx].unwrap() < nb.len(),
    ensures
        linked_below(na, ma, w, xx, yy),
{
    if mb[yy * w + xx] is Some && mb[(yy - 1) * w + xx] is Some {
        let a = mb[yy * w + xx].unwrap() as int;
        let v = mb[(yy - 1) * w + xx].unwrap();
        let k = choose|k: int| 0 <= k < nb[a].neighbors@.len() && nb[a].neighbors@[k] == v;
        assert(na[a].neighbors@[k] == v);
    }
}

proof fn lemma_covered_keep(nb: Seq<IslandNode>, na: Seq<IslandNode>, rb: Set<usize>, ra: Set<usize>, m: int)
    requires
        covered(nb, rb, m),
        links_prefix(nb, na),
        rb.contains(m as usize) ==> ra.contains(m as usize),
    ensures
        covered(na, ra, m),
{
    if !rb.contains(m as usize) {
        let (n, k) = choose|n: int, k: int|
            m < n < nb.len() && 0 <= k < nb[n].neighbors@.len() && #[trigger] nb[n].neighbors@[k] == m;
        assert(na[n].neighbors@[k] == m);
    }
}

/// The first step of [`get_island_mapping`]: one node per run of open cells of a row,
/// linked to the runs right above it, and the runs that no run below links to.
#[verifier::rlimit(60)]
fn collect_runs<D: EditableFloorData>(data: &D) -> (res: (
    Vec<IslandNode>,
    Vec<Option<usize>>,
    HashSet<usize>,
    Ghost<Seq<(int, int)>>,
))
    requires
        data.floor_ok(),
        data.floor_width() * data.floor_height() <= usize::MAX,
        data.floor_width() > 0 || data.floor_height() == 0,
    ensures
        ({
            let (nodes, map, roots, reps) = res;
            let w = data.floor_width() as int;
            let h = data.floor_height() as int;
            &&& map@.len() == w * h
            &&& forall|r: usize| #[trigger] roots@.contains(r) ==> r < nodes@.len()
            &&& forall|i: int|
                0 <= i < w * h && (#[trigger] map@[i]) is Some ==> map@[i].unwrap()
                    < nodes@.len()
            &&& forall|n: int, k: int|
                0 <= n < nodes@.len() && 0 <= k < nodes@[n].neighbors@.len()
                    ==> #[trigger] nodes@[n].neighbors@[k] < nodes@.len()
            &&& forall|n: int| 0 <= n < nodes@.len() ==> (#[trigger] nodes@[n]).color < nodes@.len()
            &&& forall|xx: int, yy: int|
                0 <= xx < w && 0 <= yy < h ==> (#[trigger] map@[yy * w + xx] is Some <==> is_open(
                    data.wall_at(xx, yy),
                ))
            &&& forall|xx: int, yy: int|
                0 <= xx && xx + 1 < w && 0 <= yy < h && is_open(data.wall_at(xx, yy)) && is_open(
                    data.wall_at(xx + 1, yy),
                ) ==> #[trigger] map@[yy * w + xx] == map@[yy * w + xx + 1]
            &&& reps@.len() == nodes@.len()
            &&& forall|n: int| 0 <= n < reps@.len() ==> open_cell(*data, #[trigger] reps@[n])
            &&& forall|n: int| 0 <= n < nodes@.len() ==> (#[trigger] nodes@[n]).color == n
            &&& forall|n: int| 0 <= n < nodes@.len() ==> !(#[trigger] nodes@[n]).propagated
            &&& runs_connected(*data, w, h, map@, reps@)
            &&& links_connected(*data, nodes@, reps@)
            &&& forall|xx: int, yy: int|
                0 <= xx < w && 1 <= yy < h ==> #[trigger] linked_below(nodes@, map@, w, xx, yy)
            &&& forall|m: int| 0 <= m < nodes@.len() ==> #[trigger] covered(nodes@, roots@, m)
        }),
{
    let width = data.width();
    let height = data.height();
    let ghost w = width as int;
    let ghost h = height as int;

    let mut island_nodes: Vec<IslandNode> = Vec::new();
    let mut island_map: Vec<Option<usize>> = vec![None; width * height];
    let mut roots: HashSet<usize> = HashSet::new();
    let ghost mut reps: Seq<(int, int)> = Seq::empty();
    proof {
        assert forall|xx: int, yy: int|
            0 <= xx < w && 0 <= yy < h implies (#[trigger] island_map@[yy * w + xx]) is None by {
            crate::floor_generator::lemma_cell_index_bound(w, h, xx, yy);
        }
        lemma_runs_start(*data, w, h, island_map@);
        reveal(links_connected);
    }

    let mut y: usize = 0;
    let mut idx: usize = 0;
    while y < height
        invariant
            data.floor_ok(),
            w == data.floor_width(),
            h == data.floor_height(),
            width == w,
            height == h,
            w * h <= usize::MAX,
            w > 0 || h == 0,
            y <= h,
            idx == y * w,
            island_map@.len() == w * h,
            forall|r: usize| #[trigger] roots@.contains(r) ==> r < island_nodes@.len(),
            forall|i: int|
                0 <= i < w * h && (#[trigger] island_map@[i]) is Some ==> island_map@[i].unwrap()
                    < island_nodes@.len(),
            forall|i: int| idx <= i < w * h ==> (#[trigger] island_map@[i]) is None,
            forall|n: int, k: int|
                0 <= n < island_nodes@.len() && 0 <= k < island_nodes@[n].neighbors@.len()
                    ==> #[trigger] island_nodes@[n].neighbors@[k] < island_nodes@.len(),
            forall|n: int|
                0 <= n < island_nodes@.len() ==> (#[trigger] island_nodes@[n]).color
                    < island_nodes@.len(),
            island_nodes@.len() <= idx,
            forall|xx: int, yy: int|
                0 <= xx < w && 0 <= yy < y ==> (#[trigger] island_map@[yy * w + xx] is Some
                    <==> is_open(data.wall_at(xx, yy))),
            forall|xx: int, yy: int|
                0 <= xx && xx + 1 < w && 0 <= yy < y && is_open(data.wall_at(xx, yy)) && is_open(
                    data.wall_at(xx + 1, yy),
                ) ==> #[trigger] island_map@[yy * w + xx] == island_map@[yy * w + xx + 1],
            reps.len() == island_nodes@.len(),
            forall|n: int| 0 <= n < reps.len() ==> open_cell(*data, #[trigger] reps[n]),
            forall|n: int| 0 <= n < island_nodes@.len() ==> (#[trigger] island_nodes@[n]).color == n,
            forall|n: int| 0 <= n < island_nodes@.len() ==> !(#[trigger] island_nodes@[n]).propagated,
            runs_connected(*data, w, h, island_map@, reps),
            links_connected(*data, island_nodes@, reps),
            forall|xx: int, yy: int|
                0 <= xx < w && 1 <= yy < y ==> #[trigger] linked_below(island_nodes@, island_map@, w, xx, yy),
            forall|m: int| 0 <= m < island_nodes@.len() ==> #[trigger] covered(island_nodes@, roots@, m),
        decreases h - y,
    {
        let ghost row_start = island_nodes@.len() as int;
        proof {
            assert forall|i: int| 0 <= i < y * w && (#[trigger] island_map@[i]) is Some implies island_map@[i].unwrap() < row_start by {
                assert(y * w <= w * h) by (nonlinear_arith)
                    requires
                        y <= h,
                        0 <= w,
                ;
            }
        }
        let mut x: usize = 0;
        while x < width
            invariant
                data.floor_ok(),
                w == data.floor_width(),
                h == data.floor_height(),
                width == w,
                height == h,
                w * h <= usize::MAX,
                y < h,
                x <= w,
                idx == y * w + x,
                island_map@.len() == w * h,
                forall|r: usize| #[trigger] roots@.contains(r) ==> r < island_nodes@.len(),
                forall|i: int|
                    0 <= i < w * h && (#[trigger] island_map@[i]) is Some
                        ==> island_map@[i].unwrap() < island_nodes@.len(),
                forall|i: int| idx <= i < w * h ==> (#[trigger] island_map@[i]) is None,
                forall|n: int, k: int|
                    0 <= n < island_nodes@.len() && 0 <= k < island_nodes@[n].neighbors@.len()
                        ==> #[trigger] island_nodes@[n].neighbors@[k] < island_nodes@.len(),
                forall|n: int|
                    0 <= n < island_nodes@.len() ==> (#[trigger] island_nodes@[n]).color
                        < island_nodes@.len(),
                island_nodes@.len() <= idx,
                forall|xx: int, yy: int|
                    0 <= xx < w && 0 <= yy < y ==> (#[trigger] island_map@[yy * w + xx] is Some
                        <==> is_open(data.wall_at(xx, yy))),
                forall|xx: int|
                    0 <= xx < x ==> (#[trigger] island_map@[y * w + xx] is Some <==> is_open(
                        data.wall_at(xx, y as int),
                    )),
                forall|xx: int, yy: int|
                    0 <= xx && xx + 1 < w && 0 <= yy < y && is_open(data.wall_at(xx, yy))
                        && is_open(data.wall_at(xx + 1, yy)) ==> #[trigger] island_map@[yy * w
                        + xx] == island_map@[yy * w + xx + 1],
                forall|xx: int|
                    0 <= xx && xx + 1 < x && is_open(data.wall_at(xx, y as int)) && is_open(
                        data.wall_at(xx + 1, y as int),
                    ) ==> #[trigger] island_map@[y * w + xx] == island_map@[y * w + xx + 1],
                reps.len() == island_nodes@.len(),
                forall|n: int| 0 <= n < reps.len() ==> open_cell(*data, #[trigger] reps[n]),
                forall|n: int| 0 <= n < island_nodes@.len() ==> (#[trigger] island_nodes@[n]).color == n,
            forall|n: int| 0 <= n < island_nodes@.len() ==> !(#[trigger] island_nodes@[n]).propagated,
                runs_connected(*data, w, h, island_map@, reps),
                links_connected(*data, island_nodes@, reps),
                row_start <= island_nodes@.len(),
                forall|i: int|
                    0 <= i < y * w && (#[trigger] island_map@[i]) is Some ==> island_map@[i].unwrap() < row_start,
                forall|xx: int|
                    0 <= xx < x && (#[trigger] island_map@[y * w + xx]) is Some ==> island_map@[y * w
                        + xx].unwrap() >= row_start,
                forall|xx: int, yy: int|
                    0 <= xx < w && 1 <= yy < y ==> #[trigger] linked_below(island_nodes@, island_map@, w, xx, yy),
                forall|xx: int|
                    0 <= xx < x && 1 <= y ==> #[trigger] linked_below(island_nodes@, island_map@, w, xx, y as int),
                forall|m: int| 0 <= m < island_nodes@.len() ==> #[trigger] covered(island_nodes@, roots@, m),
            decreases w - x,
        {
            assert(idx < w * h) by (nonlinear_arith)
                requires
                    idx == y * w + x,
                    x < w,
                    y < h,
            ;
            let open = match data.get_wall_data([x, y]) {
                WallGraphicsTileGroup::NoWall => true,
                _ => false,
            };
            let ghost map_before = island_map@;
            let ghost nodes_before = island_nodes@;
            let ghost reps_before = reps;
            let ghost roots_before = roots@;
            proof {
                lemma_prefix_refl(nodes_before);
            }
            if open {
                let left = if x > 0 {
                    island_map[idx - 1]
                } else {
                    None
                };
                let color = match left {
                    Some(c) => c,
                    None => {
                        let c = island_nodes.len();
                        island_nodes.push(
                            IslandNode {
                                color: c,
                                neighbors: Vec::with_capacity(16),
                                propagated: false,
                            },
                        );
                        roots.insert(c);
                        proof {
                            assert(links_prefix(nodes_before, island_nodes@));
                            assert forall|m: int| 0 <= m < island_nodes@.len() implies #[trigger] covered(island_nodes@, roots@, m) by {
                                if m < nodes_before.len() {
                                    lemma_covered_keep(nodes_before, island_nodes@, roots_before, roots@, m);
                                } else {
                                    assert(roots@.contains(c));
                                }
                            }
                            lemma_links_new_node(*data, nodes_before, reps, island_nodes@[c as int], (x as int, y as int));
                            reps = reps.push((x as int, y as int));
                        }
                        c
                    },
                };
                proof {
                    if x > 0 {
                        assert(idx - 1 == y * w + (x - 1));
                    }
                    assert(row_start <= color);
                    assert(links_prefix(nodes_before, island_nodes@));
                    assert(open_cell(*data, (x as int, y as int)));
                    match left {
                        Some(c) => {
                            assert(idx - 1 == y * w + (x - 1));
                            lemma_runs_use(*data, w, h, map_before, reps_before, x - 1, y as int);
                            lemma_connected_symm(*data, (x - 1, y as int), reps[c as int]);
                            lemma_connected_step(*data, reps[c as int], (x - 1, y as int), (x as int, y as int));
                            lemma_connected_symm(*data, reps[c as int], (x as int, y as int));
                        },
                        None => {
                            lemma_connected_refl(*data, (x as int, y as int));
                        },
                    }
                    lemma_runs_step(*data, w, h, map_before, reps_before, reps, x as int, y as int, color);
                }
                island_map.set(idx, Some(color));
                if y > 0 {
                    assert(idx - w == (y - 1) * w + x) by (nonlinear_arith)
                        requires
                            idx == y * w + x,
                    ;
                    if let Some(id) = island_map[idx - width] {
                        proof {
                            assert(id < row_start) by {
                                assert(0 <= (y - 1) * w + x < y * w) by (nonlinear_arith)
                                    requires
                                        0 <= x < w,
                                        1 <= y,
                                ;
                                assert(island_map@[(y - 1) * w + x] == map_before[(y - 1) * w + x]);
                            }
                        }
                        if !vec_contains(&island_nodes[color].neighbors, id) {
                            let ghost nodes_mid = island_nodes@;
                            let ghost roots_mid = roots@;
                            proof {
                                assert(map_before[(y - 1) * w + x] == Some(id));
                                lemma_runs_use(*data, w, h, map_before, reps_before, x as int, y - 1);
                                assert(open_cell(*data, (x as int, y - 1)));
                                lemma_connected_symm(*data, (x as int, y as int), reps[color as int]);
                                lemma_connected_step(*data, reps[color as int], (x as int, y as int), (x as int, y - 1));
                                lemma_connected_trans(*data, reps[color as int], (x as int, y - 1), reps[id as int]);
                            }
                            island_nodes[color].neighbors.push(id);
                            roots.remove(&id);
                            proof {
                                lemma_links_push(*data, nodes_mid, island_nodes@, reps, color as int, id);
                                lemma_prefix_push_link(nodes_mid, island_nodes@, color as int, id);
                                lemma_prefix_trans(nodes_before, nodes_mid, island_nodes@);
                                assert(island_nodes@[color as int].neighbors@[nodes_mid[color as int].neighbors@.len() as int] == id);
                                assert forall|m: int| 0 <= m < island_nodes@.len() implies #[trigger] covered(island_nodes@, roots@, m) by {
                                    if m == id {
                                        assert(island_nodes@[color as int].neighbors@[nodes_mid[color as int].neighbors@.len() as int] == m);
                                    } else {
                                        assert(covered(nodes_mid, roots_mid, m));
                                        lemma_covered_keep(nodes_mid, island_nodes@, roots_mid, roots@, m);
                                    }
                                }
                            }
                        }
                        proof {
                            assert(island_nodes@[color as int].neighbors@.contains(id));
                            assert(island_map@[idx as int] == Some(color));
                            assert(linked_below(island_nodes@, island_map@, w, x as int, y as int));
                        }
                    }
                }
            }
            proof {
                assert forall|xx: int, yy: int| 0 <= xx < w && 0 <= yy < y implies #[trigger] island_map@[yy
                    * w + xx] == map_before[yy * w + xx] by {
                    assert(0 <= yy * w + xx < y * w) by (nonlinear_arith)
                        requires
                            0 <= xx < w,
                            0 <= yy < y,
                    ;
                }
                assert forall|xx: int, yy: int|
                    0 <= xx && xx + 1 < w && 0 <= yy < y && is_open(data.wall_at(xx, yy))
                        && is_open(data.wall_at(xx + 1, yy)) implies #[trigger] island_map@[yy * w
                        + xx] == island_map@[yy * w + xx + 1] by {
                    assert(island_map@[yy * w + xx] == map_before[yy * w + xx]);
                    assert(island_map@[yy * w + (xx + 1)] == map_before[yy * w + (xx + 1)]);
                    assert(map_before[yy * w + xx] == map_before[yy * w + xx + 1]);
                }
                assert(idx < w * h);
                assert forall|j: int| 0 <= j < w * h && j != y * w + x implies island_map@[j] == map_before[j] by {
                }
                if 1 <= y && !open {
                    assert(island_map@[idx as int] is None);
                }
                lemma_linked_cells(nodes_before, island_nodes@, map_before, island_map@, w, h, x as int, y as int);
                assert forall|i: int| 0 <= i < y * w && (#[trigger] island_map@[i]) is Some implies island_map@[i].unwrap() < row_start by {
                    assert(island_map@[i] == map_before[i]);
                }
                assert forall|xx: int| 0 <= xx < x + 1 && (#[trigger] island_map@[y * w + xx]) is Some implies island_map@[y * w
                        + xx].unwrap() >= row_start by {
                    if xx < x {
                        assert(y * w + xx < idx);
                        assert(island_map@[y * w + xx] == map_before[y * w + xx]);
                    }
                }
            }
            x += 1;
            idx += 1;
        }
        proof {
            lemma_row_step(y as int, w);
        }
        y += 1;
    }
    (island_nodes, island_map, roots, Ghost(reps))
}

/// Every link from a visited run leads to a visited run of the same color.
spec fn links_agree(nodes: Seq<IslandNode>) -> bool {
    forall|n: int, k: int|
        0 <= n < nodes.len() && 0 <= k < nodes[n].neighbors@.len() && nodes[n].propagated ==> {
            let m = #[trigger] nodes[n].neighbors@[k] as int;
            nodes[m].propagated && nodes[m].color == nodes[n].color
        }
}

/// Every link from a visited run leads to a visited run of the same color, or starts at
/// a run of the current `color` and waits in `queue` at a place from `i` on.
spec fn links_pending(nodes: Seq<IslandNode>, queue: Seq<usize>, i: int, color: usize) -> bool {
    forall|n: int, k: int|
        0 <= n < nodes.len() && 0 <= k < nodes[n].neighbors@.len() && nodes[n].propagated ==> {
            let m = #[trigger] nodes[n].neighbors@[k];
            ||| nodes[m as int].propagated && nodes[m as int].color == nodes[n].color
            ||| nodes[n].color == color && exists|j: int| i <= j < queue.len() && queue[j] == m
        }
}

/// The links of the runs stay below `n`.
spec fn links_below(nodes: Seq<IslandNode>, n: int) -> bool {
    forall|a: int, k: int|
        0 <= a < nodes.len() && 0 <= k < nodes[a].neighbors@.len() ==> #[trigger] nodes[a].neighbors@[k] < n
}

proof fn lemma_pending_start(nodes: Seq<IslandNode>, queue: Seq<usize>, color: usize)
    requires
        links_agree(nodes),
    ensures
        links_pending(nodes, queue, 0, color),
{
}

proof fn lemma_pending_end(nodes: Seq<IslandNode>, queue: Seq<usize>, color: usize)
    requires
        links_pending(nodes, queue, queue.len() as int, color),
    ensures
        links_agree(nodes),
{
}

/// Passing over a queued run that is visited already with the current color keeps the
/// pending links.
proof fn lemma_pending_skip(nodes: Seq<IslandNode>, queue: Seq<usize>, i: int, color: usize)
    requires
        links_pending(nodes, queue, i, color),
        0 <= i < queue.len(),
        queue[i] < nodes.len(),
        nodes[queue[i] as int].propagated,
        nodes[queue[i] as int].color == color,
    ensures
        links_pending(nodes, queue, i + 1, color),
{
    assert forall|n: int, k: int|
        0 <= n < nodes.len() && 0 <= k < nodes[n].neighbors@.len() && nodes[n].propagated implies {
            let m = #[trigger] nodes[n].neighbors@[k];
            ||| nodes[m as int].propagated && nodes[m as int].color == nodes[n].color
            ||| nodes[n].color == color && exists|j: int| i + 1 <= j < queue.len() && queue[j] == m
        } by {
        let m = nodes[n].neighbors@[k];
        if !(nodes[m as int].propagated && nodes[m as int].color == nodes[n].color) {
            let j = choose|j: int| i <= j < queue.len() && queue[j] == m;
            assert(j != i);
        }
    }
}

/// Giving every run of color `c` the color `c2` keeps the pending links, with `c2` as the
/// current color.
proof fn lemma_pending_relabel(
    a: Seq<IslandNode>,
    b: Seq<IslandNode>,
    queue: Seq<usize>,
    i: int,
    c: usize,
    c2: usize,
)
    requires
        links_pending(a, queue, i, c),
        links_below(a, a.len() as int),
        a.len() == b.len(),
        forall|n: int|
            0 <= n < a.len() ==> (#[trigger] b[n]).propagated == a[n].propagated && b[n].neighbors@
                == a[n].neighbors@ && b[n].color == (if a[n].color == c {
                c2
            } else {
                a[n].color
            }),
    ensures
        links_pending(b, queue, i, c2),
{
    assert forall|n: int, k: int|
        0 <= n < b.len() && 0 <= k < b[n].neighbors@.len() && b[n].propagated implies {
            let m = #[trigger] b[n].neighbors@[k];
            ||| b[m as int].propagated && b[m as int].color == b[n].color
            ||| b[n].color == c2 && exists|j: int| i <= j < queue.len() && queue[j] == m
        } by {
        assert(a[n].neighbors@[k] == b[n].neighbors@[k]);
        let m = a[n].neighbors@[k];
        assert(m < a.len());
        assert(b[m as int].propagated == a[m as int].propagated);
    }
}

/// Visiting the queued run `queue[i]` with the current color and queueing its links keeps
/// the pending links.
proof fn lemma_pending_visit(
    before: Seq<IslandNode>,
    after: Seq<IslandNode>,
    q0: Seq<usize>,
    queue: Seq<usize>,
    i: int,
    color: usize,
)
    requires
        links_pending(before, q0, i, color),
        links_below(before, before.len() as int),
        0 <= i < q0.len(),
        q0[i] < before.len(),
        before[q0[i] as int].propagated ==> before[q0[i] as int].color == color,
        after.len() == before.len(),
        after[q0[i] as int].propagated,
        after[q0[i] as int].color == color,
        after[q0[i] as int].neighbors@ == before[q0[i] as int].neighbors@,
        forall|n: int| 0 <= n < before.len() && n != q0[i] ==> #[trigger] after[n] == before[n],
        queue.len() == q0.len() + before[q0[i] as int].neighbors@.len(),
        forall|j: int| 0 <= j < q0.len() ==> #[trigger] queue[j] == q0[j],
        forall|kk: int|
            0 <= kk < before[q0[i] as int].neighbors@.len() ==> queue[q0.len() + kk]
                == #[trigger] before[q0[i] as int].neighbors@[kk],
    ensures
        links_pending(after, queue, i + 1, color),
{
    let v = q0[i] as int;
    assert forall|n: int, k: int|
        0 <= n < after.len() && 0 <= k < after[n].neighbors@.len() && after[n].propagated implies {
            let m = #[trigger] after[n].neighbors@[k];
            ||| after[m as int].propagated && after[m as int].color == after[n].color
            ||| after[n].color == color && exists|j: int| i + 1 <= j < queue.len() && queue[j] == m
        } by {
        let m = after[n].neighbors@[k];
        if n == v {
            assert(before[v].neighbors@[k] == m);
            assert(queue[q0.len() + k] == m);
        } else {
            assert(after[n] == before[n]);
            assert(before[n].neighbors@[k] == m);
            assert(m < before.len());
            if m as int != v {
                assert(after[m as int] == before[m as int]);
                if !(before[m as int].propagated && before[m as int].color == before[n].color) {
                    let j = choose|j: int| i <= j < q0.len() && q0[j] == m;
                    assert(j != i);
                    assert(queue[j] == m);
                }
            }
        }
    }
}

/// Once the roots are visited and every link from a visited run leads to a visited run,
/// every run is visited, since every run is a root or linked to from a later run.
proof fn lemma_all_visited(nodes: Seq<IslandNode>, roots: Set<usize>, m: int)
    requires
        links_agree(nodes),
        0 <= m < nodes.len(),
        nodes.len() <= usize::MAX,
        forall|r: int| 0 <= r < nodes.len() ==> #[trigger] covered(nodes, roots, r),
        forall|r: usize| #[trigger] roots.contains(r) && r < nodes.len() ==> nodes[r as int].propagated,
    ensures
        nodes[m].propagated,
    decreases nodes.len() - m,
{
    assert(covered(nodes, roots, m));
    if roots.contains(m as usize) {
        assert((m as usize) as int == m);
        assert((m as usize) < nodes.len());
    } else {
        let (n, k) = choose|n: int, k: int|
            m < n < nodes.len() && 0 <= k < nodes[n].neighbors@.len() && #[trigger] nodes[n].neighbors@[k]
                == m;
        lemma_all_visited(nodes, roots, n);
        assert(nodes[n].neighbors@[k] == m);
    }
}

/// The second step of [`get_island_mapping`]: starting from every root, in the order in
/// which the set of roots is walked, pushes its color up along the links; where a run
/// already colored from another root is met, its color is handed on to every run of the
/// color pushed so far. In the end every run is visited and every link joins runs of one
/// color.
fn propagate_colors<D: EditableFloorData>(
    island_nodes: &mut Vec<IslandNode>,
    roots: &HashSet<usize>,
    Ghost(data): Ghost<D>,
    Ghost(reps): Ghost<Seq<(int, int)>>,
)
    requires
        reps.len() == old(island_nodes)@.len(),
        forall|n: int| 0 <= n < reps.len() ==> open_cell(data, #[trigger] reps[n]),
        links_connected(data, old(island_nodes)@, reps),
        colors_connected(data, old(island_nodes)@, reps),
        forall|r: usize| #[trigger] roots@.contains(r) ==> r < old(island_nodes)@.len(),
        forall|n: int, k: int|
            0 <= n < old(island_nodes)@.len() && 0 <= k < old(island_nodes)@[n].neighbors@.len()
                ==> #[trigger] old(island_nodes)@[n].neighbors@[k] < old(island_nodes)@.len(),
        forall|n: int|
            0 <= n < old(island_nodes)@.len() ==> (#[trigger] old(island_nodes)@[n]).color < old(
                island_nodes,
            )@.len(),
        forall|n: int| 0 <= n < old(island_nodes)@.len() ==> !(#[trigger] old(island_nodes)@[n]).propagated,
        forall|m: int| 0 <= m < old(island_nodes)@.len() ==> #[trigger] covered(old(island_nodes)@, roots@, m),
    ensures
        final(island_nodes)@.len() == old(island_nodes)@.len(),
        forall|n: int|
            0 <= n < final(island_nodes)@.len() ==> (#[trigger] final(island_nodes)@[n]).neighbors@
                == old(island_nodes)@[n].neighbors@,
        forall|n: int| 0 <= n < final(island_nodes)@.len() ==> (#[trigger] final(island_nodes)@[n]).propagated,
        links_agree(final(island_nodes)@),
        forall|n: int|
            0 <= n < final(island_nodes)@.len() ==> (#[trigger] final(island_nodes)@[n]).color
                < final(island_nodes)@.len(),
        colors_connected(data, final(island_nodes)@, reps),
{
    let n_nodes = island_nodes.len();
    let mut queue: Vec<usize> = Vec::new();
    let ghost start = island_nodes@;
    let ghost mut done: int = 0;
    let ghost s = vstd::std_specs::iter::IteratorSpec::remaining(
        &vstd::std_specs::hash::spec_hash_keys_iter(roots),
    );
    proof {
        assert forall|k: int| 0 <= k < s.len() implies *(#[trigger] s[k]) < n_nodes by {
            assert(s.unref()[k] == *s[k]);
            assert(s.unref().to_set().contains(s.unref()[k]));
        }
        assert(links_agree(start));
    }
    for root_ref in it: roots.iter()
        invariant
            island_nodes@.len() == n_nodes,
            forall|k: int| 0 <= k < it.seq().len() ==> *(#[trigger] it.seq()[k]) < n_nodes,
            forall|n: int, k: int|
                0 <= n < n_nodes && 0 <= k < island_nodes@[n].neighbors@.len()
                    ==> #[trigger] island_nodes@[n].neighbors@[k] < n_nodes,
            forall|n: int| 0 <= n < n_nodes ==> (#[trigger] island_nodes@[n]).color < n_nodes,
            reps.len() == n_nodes,
            forall|n: int| 0 <= n < reps.len() ==> open_cell(data, #[trigger] reps[n]),
            links_connected(data, island_nodes@, reps),
            colors_connected(data, island_nodes@, reps),
            start.len() == n_nodes,
            forall|n: int|
                0 <= n < n_nodes ==> (#[trigger] island_nodes@[n]).neighbors@ == start[n].neighbors@,
            links_agree(island_nodes@),
            it.seq() == s,
            done == it.index(),
            0 <= done <= s.len(),
            forall|kk: int|
                0 <= kk < done ==> island_nodes@[*(#[trigger] s[kk]) as int].propagated,
    {
        let root = *root_ref;
        {
            queue.clear();
            let mut color = island_nodes[root].color;
            queue.push(root);
            let ghost pre = island_nodes@;
            proof {
                lemma_pending_start(island_nodes@, queue@, color);
                lemma_colors_use(data, island_nodes@, reps, root as int);
                lemma_connected_refl(data, reps[root as int]);
            }
            let ghost mut seen: Seq<bool> = Seq::new(n_nodes as nat, |k: int| false);
            proof {
                lemma_count_true_zero(seen);
            }
            let mut i: usize = 0;
            while i < queue.len()
                invariant
                    island_nodes@.len() == n_nodes,
                    forall|n: int, k: int|
                        0 <= n < n_nodes && 0 <= k < island_nodes@[n].neighbors@.len()
                            ==> #[trigger] island_nodes@[n].neighbors@[k] < n_nodes,
                    forall|n: int|
                        0 <= n < n_nodes ==> (#[trigger] island_nodes@[n]).color < n_nodes,
                    color < n_nodes,
                    i <= queue@.len(),
                    forall|j: int| 0 <= j < queue@.len() ==> #[trigger] queue@[j] < n_nodes,
                    seen.len() == n_nodes,
                    count_true(seen) <= n_nodes,
                    forall|j: int|
                        0 <= j < i ==> (#[trigger] island_nodes@[queue@[j] as int]).propagated
                            && island_nodes@[queue@[j] as int].color == color,
                    forall|n: int|
                        0 <= n < n_nodes && #[trigger] seen[n] ==> exists|j: int|
                            0 <= j < i && queue@[j] == n,
                    root < n_nodes,
                    reps.len() == n_nodes,
                    forall|n: int| 0 <= n < reps.len() ==> open_cell(data, #[trigger] reps[n]),
                    links_connected(data, island_nodes@, reps),
                    colors_connected(data, island_nodes@, reps),
                    connected(data, reps[root as int], reps[color as int]),
                    forall|j: int| 0 <= j < queue@.len() ==> connected(data, reps[#[trigger] queue@[j] as int], reps[root as int]),
                    start.len() == n_nodes,
                    pre.len() == n_nodes,
                    forall|n: int|
                        0 <= n < n_nodes ==> (#[trigger] island_nodes@[n]).neighbors@ == start[n].neighbors@,
                    forall|n: int|
                        0 <= n < n_nodes && pre[n].propagated ==> (#[trigger] island_nodes@[n]).propagated,
                    links_pending(island_nodes@, queue@, i as int, color),
                    queue@.len() >= 1,
                    queue@[0] == root,
                decreases n_nodes - count_true(seen), queue@.len() - i,
            {
                let neighbor = queue[i];
                if island_nodes[neighbor].propagated {
                    if island_nodes[neighbor].color != color {
                        // An island reached from several roots keeps the color met
                        // first: every run of the current color takes it.
                        proof {
                            lemma_colors_use(data, island_nodes@, reps, neighbor as int);
                            lemma_connected_symm(data, reps[neighbor as int], reps[root as int]);
                            lemma_connected_trans(data, reps[root as int], reps[neighbor as int], reps[island_nodes@[neighbor as int].color as int]);
                        }
                        let old_color = color;
                        color = island_nodes[neighbor].color;
                        proof {
                            lemma_connected_symm(data, reps[root as int], reps[old_color as int]);
                            lemma_connected_trans(data, reps[old_color as int], reps[root as int], reps[color as int]);
                        }
                        let ghost rc0 = island_nodes@;
                        let mut r: usize = 0;
                        while r < n_nodes
                            invariant
                                island_nodes@.len() == n_nodes,
                                rc0.len() == n_nodes,
                                r <= n_nodes,
                                old_color < n_nodes,
                                color < n_nodes,
                                reps.len() == n_nodes,
                                forall|n: int, k: int|
                                    0 <= n < n_nodes && 0 <= k < rc0[n].neighbors@.len()
                                        ==> #[trigger] rc0[n].neighbors@[k] < n_nodes,
                                forall|n: int| 0 <= n < n_nodes ==> (#[trigger] rc0[n]).color < n_nodes,
                                forall|m: int|
                                    0 <= m < n_nodes ==> (#[trigger] island_nodes@[m]).propagated
                                        == rc0[m].propagated && island_nodes@[m].neighbors@
                                        == rc0[m].neighbors@,
                                forall|m: int|
                                    0 <= m < r ==> (#[trigger] island_nodes@[m]).color == (if rc0[m].color
                                        == old_color {
                                        color
                                    } else {
                                        rc0[m].color
                                    }),
                                forall|m: int| r <= m < n_nodes ==> (#[trigger] island_nodes@[m]).color == rc0[m].color,
                                links_connected(data, island_nodes@, reps),
                                colors_connected(data, island_nodes@, reps),
                                connected(data, reps[old_color as int], reps[color as int]),
                            decreases n_nodes - r,
                        {
                            if island_nodes[r].color == old_color {
                                let ghost before = island_nodes@;
                                island_nodes[r].color = color;
                                proof {
                                    lemma_colors_use(data, before, reps, r as int);
                                    lemma_connected_trans(data, reps[r as int], reps[old_color as int], reps[color as int]);
                                    lemma_colors_update(data, before, island_nodes@, reps, r as int);
                                    assert forall|m: int| 0 <= m < before.len() implies (#[trigger] island_nodes@[m]).neighbors@ == before[m].neighbors@ by {
                                        if m != r {
                                            assert(island_nodes@[m] == before[m]);
                                        }
                                    }
                                    lemma_links_same(data, before, island_nodes@, reps);
                                }
                            }
                            r += 1;
                        }
                        proof {
                            assert(links_below(rc0, rc0.len() as int));
                            lemma_pending_relabel(rc0, island_nodes@, queue@, i as int, old_color, color);
                            assert forall|n: int, k: int|
                                0 <= n < n_nodes && 0 <= k < island_nodes@[n].neighbors@.len()
                                    implies #[trigger] island_nodes@[n].neighbors@[k] < n_nodes by {
                                assert(island_nodes@[n].neighbors@ == rc0[n].neighbors@);
                            }
                            assert forall|q: int| 0 <= q < i implies (#[trigger] island_nodes@[queue@[q] as int]).propagated
                                && island_nodes@[queue@[q] as int].color == color by {
                                assert(rc0[queue@[q] as int].color == old_color);
                            }
                            assert(island_nodes@[neighbor as int].color == color);
                        }
                    } else {
                        proof {
                            lemma_pending_skip(island_nodes@, queue@, i as int, color);
                        }
                        i += 1;
                        continue;
                    }
                }
                proof {
                    if seen[neighbor as int] {
                        let j = choose|j: int| 0 <= j < i && queue@[j] == neighbor;
                        assert(island_nodes@[queue@[j] as int].color == color);
                    }
                    lemma_count_true_set(seen, neighbor as int);
                    seen = seen.update(neighbor as int, true);
                    lemma_count_true_bound(seen);
                }
                proof {
                    assert(island_nodes@[neighbor as int].propagated ==> island_nodes@[neighbor as int].color == color);
                }
                let ghost before = island_nodes@;
                island_nodes[neighbor].propagated = true;
                island_nodes[neighbor].color = color;
                proof {
                    assert(connected(data, reps[queue@[i as int] as int], reps[root as int]));
                    lemma_connected_trans(data, reps[neighbor as int], reps[root as int], reps[color as int]);
                    lemma_colors_update(data, before, island_nodes@, reps, neighbor as int);
                    assert forall|m: int| 0 <= m < before.len() implies (#[trigger] island_nodes@[m]).neighbors@ == before[m].neighbors@ by {
                        if m != neighbor {
                            assert(island_nodes@[m] == before[m]);
                        }
                    }
                    lemma_links_same(data, before, island_nodes@, reps);
                }
                let ghost q0 = queue@;
                let mut k: usize = 0;
                while k < island_nodes[neighbor].neighbors.len()
                    invariant
                        island_nodes@.len() == n_nodes,
                        neighbor < n_nodes,
                        k <= island_nodes@[neighbor as int].neighbors@.len(),
                        forall|n: int, kk: int|
                            0 <= n < n_nodes && 0 <= kk < island_nodes@[n].neighbors@.len()
                                ==> #[trigger] island_nodes@[n].neighbors@[kk] < n_nodes,
                        forall|j: int| 0 <= j < queue@.len() ==> #[trigger] queue@[j] < n_nodes,
                        queue@.len() == q0.len() + k,
                        forall|j: int| 0 <= j < q0.len() ==> #[trigger] queue@[j] == q0[j],
                        root < n_nodes,
                        reps.len() == n_nodes,
                        links_connected(data, island_nodes@, reps),
                        connected(data, reps[neighbor as int], reps[root as int]),
                        forall|j: int| 0 <= j < queue@.len() ==> connected(data, reps[#[trigger] queue@[j] as int], reps[root as int]),
                        forall|kk: int|
                            0 <= kk < k ==> queue@[q0.len() + kk]
                                == #[trigger] island_nodes@[neighbor as int].neighbors@[kk],
                    decreases island_nodes@[neighbor as int].neighbors@.len() - k,
                {
                    let next = island_nodes[neighbor].neighbors[k];
                    proof {
                        lemma_links_use(data, island_nodes@, reps, neighbor as int, k as int);
                        lemma_connected_symm(data, reps[neighbor as int], reps[next as int]);
                        lemma_connected_trans(data, reps[next as int], reps[neighbor as int], reps[root as int]);
                    }
                    let ghost qb = queue@;
                    queue.push(next);
                    proof {
                        assert forall|j: int| 0 <= j < queue@.len() implies connected(data, reps[#[trigger] queue@[j] as int], reps[root as int]) by {
                            if j < qb.len() {
                                assert(queue@[j] == qb[j]);
                            }
                        }
                    }
                    k += 1;
                }
                proof {
                    assert forall|n: int|
                        0 <= n < n_nodes && #[trigger] seen[n] implies exists|j: int|
                            0 <= j < i + 1 && queue@[j] == n by {
                        if n == neighbor {
                            assert(queue@[i as int] == n);
                        } else {
                            let j = choose|j: int| 0 <= j < i && q0[j] == n;
                            assert(queue@[j] == n);
                        }
                    }
                    assert forall|m: int| 0 <= m < n_nodes && m != q0[i as int] implies #[trigger] island_nodes@[m] == before[m] by {
                        assert(island_nodes@[m] == before[m]);
                    }
                    lemma_pending_visit(before, island_nodes@, q0, queue@, i as int, color);
                }
                i += 1;
            }
            proof {
                lemma_pending_end(island_nodes@, queue@, color);
                assert(island_nodes@[queue@[0] as int].propagated);
            }
        }
        proof {
            done = done + 1;
        }
    }
    proof {
        assert forall|r: usize| #[trigger] roots@.contains(r) && r < island_nodes@.len() implies island_nodes@[r as int].propagated by {
            assert(s.unref().to_set().contains(r));
            let kk = choose|kk: int| 0 <= kk < s.unref().len() && s.unref()[kk] == r;
            assert(s.unref()[kk] == *s[kk]);
            assert(island_nodes@[*s[kk] as int].propagated);
        }
        assert forall|m: int| 0 <= m < island_nodes@.len() implies #[trigger] covered(island_nodes@, roots@, m) by {
            assert(covered(start, roots@, m));
            if !roots@.contains(m as usize) {
                let (n, k) = choose|n: int, k: int|
                    m < n < start.len() && 0 <= k < start[n].neighbors@.len() && #[trigger] start[n].neighbors@[k] == m;
                assert(island_nodes@[n].neighbors@ == start[n].neighbors@);
                assert(island_nodes@[n].neighbors@[k] == m);
            }
        }
        assert forall|m: int| 0 <= m < island_nodes@.len() implies (#[trigger] island_nodes@[m]).propagated by {
            lemma_all_visited(island_nodes@, roots@, m);
        }
    }
}

/// The third step of [`get_island_mapping`]: reads every cell's final color and counts
/// the distinct colors.
fn final_colors(island_nodes: &Vec<IslandNode>, island_map: &Vec<Option<usize>>) -> (res: (
    usize,
    Vec<Option<usize>>,
))
    requires
        forall|n: int|
            0 <= n < island_nodes@.len() ==> (#[trigger] island_nodes@[n]).color
                < island_nodes@.len(),
        forall|j: int|
            0 <= j < island_map@.len() && (#[trigger] island_map@[j]) is Some
                ==> island_map@[j].unwrap() < island_nodes@.len(),
    ensures
        res.1@.len() == island_map@.len(),
        forall|j: int|
            0 <= j < island_map@.len() ==> (#[trigger] res.1@[j] is Some <==> island_map@[j] is Some),
        forall|j: int|
            0 <= j < island_map@.len() && (#[trigger] island_map@[j]) is Some ==> res.1@[j]
                == Some(island_nodes@[island_map@[j].unwrap() as int].color),
        island_colors(res.1@).finite(),
        res.0 == island_colors(res.1@).len(),
{
    let n_nodes = island_nodes.len();
    let mut seen_color: Vec<bool> = vec![false; n_nodes];
    let mut num_colors: usize = 0;
    let mut result_map: Vec<Option<usize>> = Vec::new();
    let ghost mut colors: Set<usize> = Set::empty();
    let mut i: usize = 0;
    while i < island_map.len()
        invariant
            island_nodes@.len() == n_nodes,
            seen_color@.len() == n_nodes,
            forall|n: int| 0 <= n < n_nodes ==> (#[trigger] island_nodes@[n]).color < n_nodes,
            forall|j: int|
                0 <= j < island_map@.len() && (#[trigger] island_map@[j]) is Some
                    ==> island_map@[j].unwrap() < n_nodes,
            i <= island_map@.len(),
            result_map@.len() == i,
            forall|j: int|
                0 <= j < i ==> (#[trigger] result_map@[j] is Some <==> island_map@[j] is Some),
            forall|j: int|
                0 <= j < i && (#[trigger] island_map@[j]) is Some ==> result_map@[j] == Some(
                    island_nodes@[island_map@[j].unwrap() as int].color,
                ),
            forall|j: int|
                0 <= j < i && (#[trigger] result_map@[j]) is Some ==> result_map@[j].unwrap()
                    < n_nodes,
            colors.finite(),
            colors =~= island_colors(result_map@),
            forall|c: int| 0 <= c < n_nodes ==> (seen_color@[c] <==> colors.contains(c as usize)),
            num_colors == colors.len(),
            num_colors <= i,
        decreases island_map@.len() - i,
    {
        let ghost before = result_map@;
        match island_map[i] {
            None => {
                result_map.push(None);
                proof {
                    assert forall|c: usize| island_colors(result_map@).contains(c) <==> colors.contains(c) by {
                        if island_colors(result_map@).contains(c) {
                            let j = choose|j: int| 0 <= j < result_map@.len() && result_map@[j] == Some(c);
                            assert(before[j] == Some(c));
                        }
                        if colors.contains(c) {
                            let j = choose|j: int| 0 <= j < before.len() && before[j] == Some(c);
                            assert(result_map@[j] == Some(c));
                        }
                    }
                }
            },
            Some(node) => {
                let color = island_nodes[node].color;
                result_map.push(Some(color));
                let ghost old_colors = colors;
                if !seen_color[color] {
                    seen_color.set(color, true);
                    num_colors += 1;
                    proof {
                        colors = colors.insert(color);
                    }
                }
                proof {
                    assert(colors =~= old_colors.insert(color));
                    assert forall|c: usize| island_colors(result_map@).contains(c) <==> colors.contains(c) by {
                        if island_colors(result_map@).contains(c) {
                            let j = choose|j: int| 0 <= j < result_map@.len() && result_map@[j] == Some(c);
                            if j < i {
                                assert(before[j] == Some(c));
                            }
                        }
                        if old_colors.contains(c) {
                            let j = choose|j: int| 0 <= j < before.len() && before[j] == Some(c);
                            assert(result_map@[j] == Some(c));
                        }
                        if c == color {
                            assert(result_map@[i as int] == Some(c));
                        }
                    }
                }
            },
        }
        i += 1;
    }
    (num_colors, result_map)
}

/// An index of a `w × h` grid, read back as a column and a row.
proof fn lemma_cell_of_index(w: int, h: int, i: int)
    requires
        0 < w,
        0 <= i < w * h,
    ensures
        0 <= i % w < w,
        0 <= i / w < h,
        i == (i / w) * w + i % w,
{
    vstd::arithmetic::div_mod::lemma_fundamental_div_mod(i, w);
    assert(i == (i / w) * w + i % w) by (nonlinear_arith)
        requires
            i == w * (i / w) + i % w,
    ;
    assert(0 <= i % w < w) by (nonlinear_arith)
        requires
            0 < w,
    ;
    assert(0 <= i / w < h) by (nonlinear_arith)
        requires
            0 < w,
            0 <= i < w * h,
            i == w * (i / w) + i % w,
            0 <= i % w < w,
    ;
}

/// A finite set whose elements are all equal has at most one element.
proof fn lemma_set_of_one<A>(st: Set<A>)
    requires
        st.finite(),
        forall|a: A, b: A| st.contains(a) && st.contains(b) ==> a == b,
    ensures
        st.len() <= 1,
{
    if st.len() > 1 {
        let a = st.choose();
        assert(st.contains(a));
        assert(st.remove(a).len() > 0);
        let b = st.remove(a).choose();
        assert(st.remove(a).contains(b));
    }
}

/// In a map where open cells next to each other hold the same entry, the cells at the
/// two ends of a walk over open cells hold the same entry.
proof fn lemma_walk_same_entry<D: EditableFloorData>(data: D, m: Seq<Option<usize>>, p: Seq<(int, int)>, k: int)
    requires
        open_path(data, p),
        0 <= k < p.len(),
        forall|x: int, y: int|
            0 <= x && x + 1 < data.floor_width() && 0 <= y < data.floor_height() && is_open(
                data.wall_at(x, y),
            ) && is_open(data.wall_at(x + 1, y)) ==> #[trigger] m[y * data.floor_width() + x]
                == m[y * data.floor_width() + x + 1],
        forall|x: int, y: int|
            0 <= x < data.floor_width() && 0 <= y && y + 1 < data.floor_height() && is_open(
                data.wall_at(x, y),
            ) && is_open(data.wall_at(x, y + 1)) ==> #[trigger] m[y * data.floor_width() + x]
                == m[(y + 1) * data.floor_width() + x],
    ensures
        m[p[0].1 * data.floor_width() + p[0].0] == m[p[k].1 * data.floor_width() + p[k].0],
    decreases k,
{
    if k > 0 {
        lemma_walk_same_entry(data, m, p, k - 1);
        let a = p[k - 1];
        let b = p[k];
        assert(open_cell(data, a));
        assert(open_cell(data, b));
        assert(adjacent(a, b));
        let w = data.floor_width() as int;
        if a.0 == b.0 && a.1 == b.1 + 1 {
            assert(m[b.1 * w + b.0] == m[(b.1 + 1) * w + b.0]);
        } else if a.0 == b.0 && b.1 == a.1 + 1 {
            assert(m[a.1 * w + a.0] == m[(a.1 + 1) * w + a.0]);
        } else if a.1 == b.1 && a.0 == b.0 + 1 {
            assert(m[b.1 * w + b.0] == m[b.1 * w + b.0 + 1]);
        } else {
            assert(m[a.1 * w + a.0] == m[a.1 * w + a.0 + 1]);
        }
    }
}

/// Colors the open cells (those without a wall) of `data`, stored at `y * width + x`,
/// and returns the number of colors used together with the map: two open cells share a
/// color exactly when a walk over open cells joins them, so the count is the number of
/// islands. Runs of a row that touch runs of the row above are merged by propagating
/// colors upwards from the runs that no run below touches, taken in the order in which
/// the hash set that holds them is walked; where an island is reached from several roots,
/// the color met first is handed on to every run of the other color.
pub fn get_island_mapping<D: EditableFloorData>(data: &D) -> (res: (usize, Vec<Option<usize>>))
    requires
        data.floor_ok(),
        data.floor_width() * data.floor_height() <= usize::MAX,
        data.floor_width() > 0 || data.floor_height() == 0,
    ensures
        res.1@.len() == data.floor_width() * data.floor_height(),
        forall|x: int, y: int|
            0 <= x < data.floor_width() && 0 <= y < data.floor_height() ==> (#[trigger] res.1@[y
                * data.floor_width() + x] is Some <==> is_open(data.wall_at(x, y))),
        forall|x: int, y: int|
            0 <= x && x + 1 < data.floor_width() && 0 <= y < data.floor_height() && is_open(
                data.wall_at(x, y),
            ) && is_open(data.wall_at(x + 1, y)) ==> #[trigger] res.1@[y * data.floor_width()
                + x] == res.1@[y * data.floor_width() + x + 1],
        island_colors(res.1@).finite(),
        res.0 == island_colors(res.1@).len(),
        forall|x1: int, y1: int, x2: int, y2: int|
            #![trigger res.1@[y1 * data.floor_width() + x1], res.1@[y2 * data.floor_width() + x2]]
            0 <= x1 < data.floor_width() && 0 <= y1 < data.floor_height() && 0 <= x2
                < data.floor_width() && 0 <= y2 < data.floor_height() && res.1@[y1
                * data.floor_width() + x1] is Some && res.1@[y1 * data.floor_width() + x1]
                == res.1@[y2 * data.floor_width() + x2] ==> connected(*data, (x1, y1), (x2, y2)),
        forall|x: int, y: int|
            0 <= x < data.floor_width() && 0 <= y && y + 1 < data.floor_height() && is_open(
                data.wall_at(x, y),
            ) && is_open(data.wall_at(x, y + 1)) ==> #[trigger] res.1@[y * data.floor_width() + x]
                == res.1@[(y + 1) * data.floor_width() + x],
        forall|x1: int, y1: int, x2: int, y2: int|
            #![trigger res.1@[y1 * data.floor_width() + x1], res.1@[y2 * data.floor_width() + x2]]
            connected(*data, (x1, y1), (x2, y2)) ==> res.1@[y1 * data.floor_width() + x1]
                == res.1@[y2 * data.floor_width() + x2],
        all_connected(*data) ==> res.0 <= 1,
{
    let (mut island_nodes, island_map, roots, Ghost(reps)) = collect_runs::<D>(data);
    let ghost start_nodes = island_nodes@;
    proof {
        lemma_colors_start(*data, island_nodes@, reps);
    }
    propagate_colors::<D>(&mut island_nodes, &roots, Ghost(*data), Ghost(reps));
    let res = final_colors(&island_nodes, &island_map);
    proof {
        let w = data.floor_width() as int;
        let h = data.floor_height() as int;
        assert forall|x: int, y: int|
            0 <= x < w && 0 <= y < h implies (#[trigger] res.1@[y * w + x] is Some <==> is_open(
                data.wall_at(x, y),
            )) by {
            crate::floor_generator::lemma_cell_index_bound(w, h, x, y);
            assert(island_map@[y * w + x] is Some <==> is_open(data.wall_at(x, y)));
        }
        assert forall|x: int, y: int|
            0 <= x && x + 1 < w && 0 <= y < h && is_open(data.wall_at(x, y)) && is_open(
                data.wall_at(x + 1, y),
            ) implies #[trigger] res.1@[y * w + x] == res.1@[y * w + x + 1] by {
            crate::floor_generator::lemma_cell_index_bound(w, h, x, y);
            crate::floor_generator::lemma_cell_index_bound(w, h, x + 1, y);
            assert(island_map@[y * w + x] is Some);
            assert(island_map@[y * w + x] == island_map@[y * w + x + 1]);
        }
        assert forall|x1: int, y1: int, x2: int, y2: int|
            #![trigger res.1@[y1 * w + x1], res.1@[y2 * w + x2]]
            0 <= x1 < w && 0 <= y1 < h && 0 <= x2 < w && 0 <= y2 < h && res.1@[y1 * w + x1] is Some
                && res.1@[y1 * w + x1] == res.1@[y2 * w + x2] implies connected(
                *data,
                (x1, y1),
                (x2, y2),
            ) by {
            crate::floor_generator::lemma_cell_index_bound(w, h, x1, y1);
            crate::floor_generator::lemma_cell_index_bound(w, h, x2, y2);
            let na = island_map@[y1 * w + x1].unwrap() as int;
            let nb = island_map@[y2 * w + x2].unwrap() as int;
            let k = island_nodes@[na].color as int;
            assert(island_nodes@[nb].color as int == k);
            lemma_runs_use(*data, w, h, island_map@, reps, x1, y1);
            lemma_runs_use(*data, w, h, island_map@, reps, x2, y2);
            lemma_colors_use(*data, island_nodes@, reps, na);
            lemma_colors_use(*data, island_nodes@, reps, nb);
            lemma_connected_trans(*data, (x1, y1), reps[na], reps[k]);
            lemma_connected_trans(*data, (x2, y2), reps[nb], reps[k]);
            lemma_connected_symm(*data, (x2, y2), reps[k]);
            lemma_connected_trans(*data, (x1, y1), reps[k], (x2, y2));
        }
        assert forall|x: int, y: int|
            0 <= x < w && 0 <= y && y + 1 < h && is_open(data.wall_at(x, y)) && is_open(
                data.wall_at(x, y + 1),
            ) implies #[trigger] res.1@[y * w + x] == res.1@[(y + 1) * w + x] by {
            crate::floor_generator::lemma_cell_index_bound(w, h, x, y);
            crate::floor_generator::lemma_cell_index_bound(w, h, x, y + 1);
            assert(linked_below(start_nodes, island_map@, w, x, y + 1));
            assert(island_map@[(y + 1 - 1) * w + x] == island_map@[y * w + x]);
            let a = island_map@[(y + 1) * w + x].unwrap() as int;
            let b = island_map@[y * w + x].unwrap();
            assert(start_nodes[a].neighbors@.contains(b));
            let k = choose|k: int| 0 <= k < start_nodes[a].neighbors@.len() && start_nodes[a].neighbors@[k] == b;
            assert(island_nodes@[a].neighbors@ == start_nodes[a].neighbors@);
            assert(island_nodes@[a].neighbors@[k] == b);
            assert(island_nodes@[a].propagated);
        }
        assert forall|x1: int, y1: int, x2: int, y2: int|
            #![trigger res.1@[y1 * w + x1], res.1@[y2 * w + x2]]
            connected(*data, (x1, y1), (x2, y2)) implies res.1@[y1 * w + x1] == res.1@[y2 * w + x2] by {
            let p = choose|p: Seq<(int, int)>| #[trigger] open_path(*data, p) && p[0] == (x1, y1) && p[p.len() - 1] == (x2, y2);
            lemma_walk_same_entry(*data, res.1@, p, p.len() - 1);
        }
        if all_connected(*data) {
            let cs = island_colors(res.1@);
            assert forall|c1: usize, c2: usize| cs.contains(c1) && cs.contains(c2) implies c1 == c2 by {
                let i1 = choose|i: int| 0 <= i < res.1@.len() && res.1@[i] == Some(c1);
                let i2 = choose|i: int| 0 <= i < res.1@.len() && res.1@[i] == Some(c2);
                assert(w > 0) by (nonlinear_arith)
                    requires
                        0 <= i1 < w * h,
                        0 <= w,
                        0 <= h,
                ;
                lemma_cell_of_index(w, h, i1);
                lemma_cell_of_index(w, h, i2);
                let (x1, y1) = (i1 % w, i1 / w);
                let (x2, y2) = (i2 % w, i2 / w);
                assert(res.1@[y1 * w + x1] is Some);
                assert(res.1@[y2 * w + x2] is Some);
                assert(open_cell(*data, (x1, y1)));
                assert(open_cell(*data, (x2, y2)));
                assert(connected(*data, (x1, y1), (x2, y2)));
                assert(res.1@[y1 * w + x1] == res.1@[y2 * w + x2]);
            }
            lemma_set_of_one(cs);
            assert(res.0 <= 1);
        }
    }
    res
}

} // verus!
