use crate::constraint::{X_LENGTH, Y_STORE};
use vstd::prelude::*;

verus! {

/// Absolute board coordinates of one cell: `x` counts columns from the left,
/// `y` counts rows from the bottom.
#[derive(Clone, Copy, Debug, PartialEq, Eq, Structural)]
pub struct Position {
    pub x: i32,
    pub y: i32,
}

/// Offset of a cell from its piece's rotation anchor.
#[derive(Clone, Copy, Debug, PartialEq, Eq, Structural)]
pub struct RelativePosition {
    pub x: i32,
    pub y: i32,
}

/// Whether a cell still belongs to the controllable piece (`Free`) or has
/// been locked into the board (`Fix`).
#[derive(Clone, Copy, Debug, PartialEq, Eq, Structural)]
pub enum Tag {
    Free,
    Fix,
}

/// One live cell of the game: four of them form the active piece; locked
/// cells stay around individually until a line clear removes them.
#[derive(Clone, Copy, Debug, PartialEq, Eq, Structural)]
pub struct Cell {
    pub position: Position,
    pub relative_position: RelativePosition,
    pub tag: Tag,
    /// Cosmetic color index for rendering; it plays no part in the rules.
    pub color_index: usize,
}

/// Every live cell keeps its column on the board and its row within the
/// stored range, and its anchor offset stays within two cells, which the
/// shape catalog guarantees at spawn and rotation preserves.
pub open spec fn cell_wf(c: Cell) -> bool {
    &&& 0 <= c.position.x as int && (c.position.x as int) < (X_LENGTH as int)
    &&& 0 <= c.position.y as int && (c.position.y as int) < (Y_STORE as int)
    &&& -2 <= c.relative_position.x as int && (c.relative_position.x as int) <= 2
    &&& -2 <= c.relative_position.y as int && (c.relative_position.y as int) <= 2
}

/// Number of tetromino shapes in the catalog.
pub const BLOCK_PATTERN_COUNT: usize = 7;

/// The fixed shape catalog: each shape is four `(dx, dy)` offsets from the
/// anchor, and the first offset, `(0, 0)`, is the anchor itself.
pub open spec fn block_pattern(k: int) -> Seq<(i32, i32)> {
    if k == 0 {
        seq![(0i32, 0i32), (0i32, -1i32), (0i32, 1i32), (0i32, 2i32)] // I
    } else if k == 1 {
        seq![(0i32, 0i32), (0i32, -1i32), (0i32, 1i32), (-1i32, 1i32)] // L
    } else if k == 2 {
        seq![(0i32, 0i32), (0i32, -1i32), (0i32, 1i32), (1i32, 1i32)] // J
    } else if k == 3 {
        seq![(0i32, 0i32), (0i32, -1i32), (1i32, 0i32), (1i32, 1i32)] // Z
    } else if k == 4 {
        seq![(0i32, 0i32), (1i32, 0i32), (0i32, 1i32), (1i32, -1i32)] // S
    } else if k == 5 {
        seq![(0i32, 0i32), (0i32, 1i32), (1i32, 0i32), (1i32, 1i32)] // square
    } else {
        seq![(0i32, 0i32), (-1i32, 0i32), (1i32, 0i32), (0i32, 1i32)] // T
    }
}

/// Builds the offset list of shape `k` of the catalog.
pub fn block_offsets(k: usize) -> (v: Vec<(i32, i32)>)
    requires
        k < BLOCK_PATTERN_COUNT,
    ensures
        v@ == block_pattern(k as int),
{
    let mut v: Vec<(i32, i32)> = Vec::new();
    if k == 0 {
        v.push((0, 0));
        v.push((0, -1));
        v.push((0, 1));
        v.push((0, 2));
    } else if k == 1 {
        v.push((0, 0));
        v.push((0, -1));
        v.push((0, 1));
        v.push((-1, 1));
    } else if k == 2 {
        v.push((0, 0));
        v.push((0, -1));
        v.push((0, 1));
        v.push((1, 1));
    } else if k == 3 {
        v.push((0, 0));
        v.push((0, -1));
        v.push((1, 0));
        v.push((1, 1));
    } else if k == 4 {
        v.push((0, 0));
        v.push((1, 0));
        v.push((0, 1));
        v.push((1, -1));
    } else if k == 5 {
        v.push((0, 0));
        v.push((0, 1));
        v.push((1, 0));
        v.push((1, 1));
    } else {
        v.push((0, 0));
        v.push((-1, 0));
        v.push((1, 0));
        v.push((0, 1));
    }
    proof {
        assert(v@ =~= block_pattern(k as int));
    }
    v
}

/// Every catalog shape has four offsets, each within one column and within
/// the rows one below to two above the anchor.
pub proof fn lemma_pattern_bounds(k: int)
    requires
        0 <= k < BLOCK_PATTERN_COUNT,
    ensures
        block_pattern(k).len() == 4,
        forall|m: int| 0 <= m < 4 ==> -1 <= (#[trigger] block_pattern(k)[m]).0 <= 1,
        forall|m: int| 0 <= m < 4 ==> -1 <= (#[trigger] block_pattern(k)[m]).1 <= 2,
{
}

/// Picks the offset list of the next piece: one of the seven catalog
/// shapes, chosen uniformly at random.
pub fn next_block() -> (v: Vec<(i32, i32)>)
    ensures
        exists|k: int| 0 <= k < BLOCK_PATTERN_COUNT as int && v@ == block_pattern(k),
{
    let k: usize = crate::rng::random_below(BLOCK_PATTERN_COUNT);
    let v = block_offsets(k);
    proof {
        assert(v@ == block_pattern(k as int));
    }
    v
}

/// One quarter turn of a cell state `(px, py, rx, ry)`: the offset turns by
/// the matrix `[[0, 1], [-1, 0]]` and the absolute position moves with it
/// around the anchor `(px - rx, py - ry)`, which stays fixed.
pub open spec fn rotate_state(s: (int, int, int, int)) -> (int, int, int, int) {
    (s.0 - s.2 + s.3, s.1 - s.3 - s.2, s.3, -s.2)
}

/// Rotation is a group of order four about the anchor: four quarter turns
/// return a cell's position and relative position to their original values.
pub proof fn lemma_rotation_order_four(s: (int, int, int, int))
    ensures
        rotate_state(rotate_state(rotate_state(rotate_state(s)))) == s,
{
}

/// A quarter turn never moves the anchor a cell turns about.
pub proof fn lemma_rotation_keeps_anchor(s: (int, int, int, int))
    ensures
        rotate_state(s).0 - rotate_state(s).2 == s.0 - s.2,
        rotate_state(s).1 - rotate_state(s).3 == s.1 - s.3,
{
}

} // verus!
