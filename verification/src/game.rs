use crate::board::Board;
use crate::constraint::{COLOR_COUNT, X_LENGTH, Y_LENGTH, Y_STORE};
use crate::piece::{
    block_offsets, block_pattern, cell_wf, lemma_pattern_bounds, rotate_state, Cell, Position,
    RelativePosition, Tag, BLOCK_PATTERN_COUNT,
};
use crate::rng::random_below;
use vstd::prelude::*;

verus! {

/// Some cell among the first `n` is fixed and sits at `(x, y)`.
pub open spec fn fixed_at_upto(cells: Seq<Cell>, n: int, x: int, y: int) -> bool {
    exists|i: int|
        0 <= i < n && i < cells.len() && (#[trigger] cells[i]).tag is Fix
            && cells[i].position.x as int == x && cells[i].position.y as int == y
}

/// Some fixed cell sits at `(x, y)`.
pub open spec fn fixed_at(cells: Seq<Cell>, x: int, y: int) -> bool {
    fixed_at_upto(cells, cells.len() as int, x, y)
}

/// Some cell among the first `n` is free and sits at `(x, y)`.
pub open spec fn free_at_upto(cells: Seq<Cell>, n: int, x: int, y: int) -> bool {
    exists|i: int|
        0 <= i < n && i < cells.len() && (#[trigger] cells[i]).tag is Free
            && cells[i].position.x as int == x && cells[i].position.y as int == y
}

/// Some free cell sits at `(x, y)`.
pub open spec fn free_at(cells: Seq<Cell>, x: int, y: int) -> bool {
    free_at_upto(cells, cells.len() as int, x, y)
}

/// Some cell of the list is free: a controllable piece is on the board.
pub open spec fn has_free(cells: Seq<Cell>) -> bool {
    exists|i: int| 0 <= i < cells.len() && (#[trigger] cells[i]).tag is Free
}

/// The board records exactly the positions of the fixed cells: occupancy is
/// set on lock and cleared when a line clear removes or moves a cell.
pub open spec fn board_matches(b: Board, cells: Seq<Cell>) -> bool {
    forall|x: int, y: int|
        #![trigger b.occupied(x, y)]
        #![trigger fixed_at(cells, x, y)]
        0 <= x < X_LENGTH as int && 0 <= y < Y_STORE as int ==> (b.occupied(x, y) <==> fixed_at(
            cells,
            x,
            y,
        ))
}

/// All free cells turn about one shared anchor `position - relative_position`:
/// the active piece is a rigid body.
pub open spec fn rigid(cells: Seq<Cell>) -> bool {
    forall|i: int, j: int|
        0 <= i < cells.len() && 0 <= j < cells.len() && (#[trigger] cells[i]).tag is Free && (
        #[trigger] cells[j]).tag is Free ==> {
            &&& cells[i].position.x - cells[i].relative_position.x == cells[j].position.x
                - cells[j].relative_position.x
            &&& cells[i].position.y - cells[i].relative_position.y == cells[j].position.y
                - cells[j].relative_position.y
        }
}

/// `d` is `c` shifted by `(dx, dy)` when `c` is free, and `c` itself when it
/// is fixed: movement only ever touches the active piece.
pub open spec fn moved_cell(c: Cell, d: Cell, dx: int, dy: int) -> bool {
    if c.tag is Free {
        &&& d.position.x as int == c.position.x as int + dx
        &&& d.position.y as int == c.position.y as int + dy
        &&& d.relative_position == c.relative_position
        &&& d.tag == c.tag
        &&& d.color_index == c.color_index
    } else {
        d == c
    }
}

/// The numeric state `(px, py, rx, ry)` of a cell, for the rotation map.
pub open spec fn cell_state(c: Cell) -> (int, int, int, int) {
    (c.position.x as int, c.position.y as int, c.relative_position.x as int,
    c.relative_position.y as int)
}

/// One free cell may shift by `dx` columns: it stays inside the columns and,
/// within the visible rows, lands on an unoccupied board cell; above them
/// only the board edge constrains it.
pub open spec fn cell_can_shift(b: Board, c: Cell, dx: int) -> bool {
    &&& 0 <= c.position.x as int + dx < X_LENGTH as int
    &&& ((c.position.y as int) >= (Y_LENGTH as int) || !b.occupied(
        c.position.x as int + dx,
        c.position.y as int,
    ))
}

/// A free cell is grounded when, inside the visible rows, it sits on the
/// floor or directly above an occupied board cell.
pub open spec fn cell_grounded(b: Board, c: Cell) -> bool {
    &&& (c.position.y as int) < (Y_LENGTH as int)
    &&& (c.position.y as int == 0 || b.occupied(c.position.x as int, c.position.y as int - 1))
}

/// The four cells at indices `base .. base + 4` of `cells` are the freshly
/// spawned free cells of catalog shape `k`, sharing `color`, each placed at
/// the spawn anchor `(X_LENGTH / 2, Y_LENGTH - 1)` plus its shape offset.
pub open spec fn spawned_shape(cells: Seq<Cell>, base: int, k: int, color: int) -> bool {
    forall|m: int|
        0 <= m < 4 ==> {
            let c = #[trigger] cells[base + m];
            &&& c.tag is Free
            &&& c.color_index as int == color
            &&& c.relative_position.x as int == block_pattern(k)[m].0 as int
            &&& c.relative_position.y as int == block_pattern(k)[m].1 as int
            &&& c.position.x as int == X_LENGTH as int / 2 + block_pattern(k)[m].0 as int
            &&& c.position.y as int == Y_LENGTH as int - 1 + block_pattern(k)[m].1 as int
        }
}

/// `d` is `c` after a quarter turn when `c` is free, and `c` itself when it
/// is fixed.
pub open spec fn rotated_cell(c: Cell, d: Cell) -> bool {
    if c.tag is Free {
        &&& cell_state(d) == rotate_state(cell_state(c))
        &&& d.tag == c.tag
        &&& d.color_index == c.color_index
    } else {
        d == c
    }
}

/// `c` with its tag flipped to fixed; a fixed cell is left as it is.
pub open spec fn locked_cell(c: Cell) -> Cell {
    Cell {
        position: c.position,
        relative_position: c.relative_position,
        tag: Tag::Fix,
        color_index: c.color_index,
    }
}

/// Two cell lists of one length whose fixed cells are identical, index by
/// index, have the same fixed positions.
pub proof fn lemma_same_fixed(a: Seq<Cell>, b: Seq<Cell>)
    requires
        a.len() == b.len(),
        forall|i: int|
            0 <= i < a.len() ==> ((#[trigger] a[i]).tag is Fix <==> (#[trigger] b[i]).tag is Fix),
        forall|i: int| 0 <= i < a.len() && (#[trigger] a[i]).tag is Fix ==> b[i] == a[i],
    ensures
        forall|x: int, y: int| #[trigger] fixed_at(b, x, y) <==> #[trigger] fixed_at(a, x, y),
{
    assert forall|x: int, y: int| #[trigger] fixed_at(b, x, y) <==> #[trigger] fixed_at(a, x, y) by {
        if fixed_at(a, x, y) {
            let i = choose|i: int|
                0 <= i < a.len() && i < a.len() && (#[trigger] a[i]).tag is Fix
                    && a[i].position.x as int == x && a[i].position.y as int == y;
            assert(b[i].tag is Fix && b[i].position.x as int == x && b[i].position.y as int == y);
            assert(fixed_at(b, x, y));
        }
        if fixed_at(b, x, y) {
            let i = choose|i: int|
                0 <= i < b.len() && i < b.len() && (#[trigger] b[i]).tag is Fix
                    && b[i].position.x as int == x && b[i].position.y as int == y;
            assert(a[i].tag is Fix && a[i].position.x as int == x && a[i].position.y as int == y);
            assert(fixed_at(a, x, y));
        }
    }
}

/// Appending a free cell leaves the fixed positions unchanged.
pub proof fn lemma_push_free_fixed(a: Seq<Cell>, c: Cell)
    requires
        c.tag is Free,
    ensures
        forall|x: int, y: int| #[trigger] fixed_at(a.push(c), x, y) <==> fixed_at(a, x, y),
{
    assert forall|x: int, y: int| #[trigger] fixed_at(a.push(c), x, y) <==> fixed_at(a, x, y) by {
        if fixed_at(a.push(c), x, y) {
            let i = choose|i: int|
                0 <= i < a.push(c).len() && i < a.push(c).len() && (#[trigger] a.push(
                    c,
                )[i]).tag is Fix && a.push(c)[i].position.x as int == x && a.push(
                    c,
                )[i].position.y as int == y;
            assert(i < a.len());
            assert(a[i].tag is Fix && a[i].position.x as int == x && a[i].position.y as int == y);
            assert(fixed_at(a, x, y));
        }
        if fixed_at(a, x, y) {
            let i = choose|i: int|
                0 <= i < a.len() && i < a.len() && (#[trigger] a[i]).tag is Fix
                    && a[i].position.x as int == x && a[i].position.y as int == y;
            assert(a.push(c)[i].tag is Fix);
            assert(fixed_at(a.push(c), x, y));
        }
    }
}

/// The whole game-rules state: the settled-cell board, the arena of live
/// cells, and the two one-shot events that steps of a tick hand to later
/// steps of the same tick.
pub struct Game {
    pub board: Board,
    pub cells: Vec<Cell>,
    /// Pending request to spawn the next piece; raised at game start, on
    /// lock, and on reset, and consumed by the tick that spawns.
    pub spawn_requested: bool,
    /// Pending game-over event, raised by the line-clearing step and consumed
    /// by the reset handler.
    pub game_over: bool,
}

impl Game {
    /// The state invariant: the board grid is well formed, every live cell is
    /// in range, the board records exactly the fixed cells, the free cells
    /// form a rigid body, and no piece is falling while a spawn is pending.
    pub open spec fn wf(self) -> bool {
        &&& self.board.wf()
        &&& forall|i: int| 0 <= i < self.cells@.len() ==> cell_wf(#[trigger] self.cells@[i])
        &&& board_matches(self.board, self.cells@)
        &&& rigid(self.cells@)
        &&& (self.spawn_requested ==> !has_free(self.cells@))
    }

    /// A fresh game: empty board, no cells, and the first spawn already
    /// requested, so that the first tick creates a piece.
    pub fn new() -> (g: Game)
        ensures
            g.wf(),
            g.cells@.len() == 0,
            forall|x: int, y: int| !g.board.occupied(x, y),
            g.spawn_requested,
            !g.game_over,
    {
        let g = Game {
            board: Board::new(),
            cells: Vec::new(),
            spawn_requested: true,
            game_over: false,
        };
        g
    }

    /// Handles a game-over event: reinitializes the board to fully
    /// unoccupied, destroys every cell, consumes the event and requests a
    /// fresh spawn. A full hard reset; nothing persists across it.
    pub fn gameover(&mut self)
        ensures
            final(self).wf(),
            final(self).cells@.len() == 0,
            forall|x: int, y: int| !final(self).board.occupied(x, y),
            final(self).spawn_requested,
            !final(self).game_over,
    {
        self.board.reset();
        self.cells = Vec::new();
        self.spawn_requested = true;
        self.game_over = false;
    }

    /// Adds one free cell of a spawning piece. Every free cell already
    /// present must turn about the same anchor as the new one, so the piece
    /// stays rigid.
    pub fn spawn_block_element(
        &mut self,
        color_index: usize,
        position: Position,
        relative_position: RelativePosition,
    )
        requires
            old(self).wf(),
            !old(self).spawn_requested,
            0 <= position.x as int && (position.x as int) < (X_LENGTH as int),
            0 <= position.y as int && (position.y as int) < (Y_STORE as int),
            -2 <= relative_position.x as int && (relative_position.x as int) <= 2,
            -2 <= relative_position.y as int && (relative_position.y as int) <= 2,
            forall|i: int|
                0 <= i < old(self).cells@.len() && (#[trigger] old(self).cells@[i]).tag is Free ==> {
                    &&& old(self).cells@[i].position.x - old(self).cells@[i].relative_position.x
                        == position.x - relative_position.x
                    &&& old(self).cells@[i].position.y - old(self).cells@[i].relative_position.y
                        == position.y - relative_position.y
                },
        ensures
            final(self).wf(),
            final(self).cells@ == old(self).cells@.push(
                Cell { position, relative_position, tag: Tag::Free, color_index },
            ),
            final(self).board == old(self).board,
            final(self).spawn_requested == old(self).spawn_requested,
            final(self).game_over == old(self).game_over,
    {
        let c = Cell { position, relative_position, tag: Tag::Free, color_index };
        self.cells.push(c);
        proof {
            lemma_push_free_fixed(old(self).cells@, c);
            assert(board_matches(self.board, self.cells@));
            assert(rigid(self.cells@)) by {
                assert forall|i: int, j: int|
                    0 <= i < self.cells@.len() && 0 <= j < self.cells@.len() && (
                    #[trigger] self.cells@[i]).tag is Free && (
                    #[trigger] self.cells@[j]).tag is Free implies {
                    &&& self.cells@[i].position.x - self.cells@[i].relative_position.x
                        == self.cells@[j].position.x - self.cells@[j].relative_position.x
                    &&& self.cells@[i].position.y - self.cells@[i].relative_position.y
                        == self.cells@[j].position.y - self.cells@[j].relative_position.y
                } by {
                    if i < old(self).cells@.len() {
                        assert(self.cells@[i] == old(self).cells@[i]);
                    }
                    if j < old(self).cells@.len() {
                        assert(self.cells@[j] == old(self).cells@[j]);
                    }
                }
            }
        }
    }

    /// Spawns the four cells of catalog shape `k`, all free and sharing one
    /// color, anchored at the spawn point in the hidden rows above the field.
    pub fn spawn_block_from(&mut self, k: usize, color_index: usize)
        requires
            old(self).wf(),
            k < BLOCK_PATTERN_COUNT,
            color_index < COLOR_COUNT,
            !has_free(old(self).cells@),
            !old(self).spawn_requested,
        ensures
            final(self).wf(),
            final(self).board == old(self).board,
            final(self).spawn_requested == old(self).spawn_requested,
            final(self).game_over == old(self).game_over,
            final(self).cells@.len() == old(self).cells@.len() + 4,
            forall|i: int|
                0 <= i < old(self).cells@.len() ==> #[trigger] final(self).cells@[i] == old(self).cells@[i],
            spawned_shape(
                final(self).cells@,
                old(self).cells@.len() as int,
                k as int,
                color_index as int,
            ),
    {
        proof {
            lemma_pattern_bounds(k as int);
        }
        let offsets = block_offsets(k);
        let initial_x: i32 = (X_LENGTH / 2) as i32;
        let initial_y: i32 = (Y_LENGTH - 1) as i32;
        let ghost base = self.cells@.len() as int;
        let mut m: usize = 0;
        while m < 4
            invariant
                self.wf(),
                m <= 4,
                k < BLOCK_PATTERN_COUNT,
                offsets@ == block_pattern(k as int),
                initial_x as int == X_LENGTH as int / 2,
                initial_y as int == Y_LENGTH as int - 1,
                base == old(self).cells@.len() as int,
                self.board == old(self).board,
                self.spawn_requested == old(self).spawn_requested,
                !self.spawn_requested,
                self.game_over == old(self).game_over,
                self.cells@.len() == base + m as int,
                forall|i: int| 0 <= i < base ==> #[trigger] self.cells@[i] == old(self).cells@[i],
                forall|i: int| 0 <= i < base ==> !((#[trigger] self.cells@[i]).tag is Free),
                forall|j: int|
                    0 <= j < m as int ==> {
                        let c = #[trigger] self.cells@[base + j];
                        &&& c.tag is Free
                        &&& c.color_index == color_index
                        &&& c.relative_position.x as int == block_pattern(k as int)[j].0 as int
                        &&& c.relative_position.y as int == block_pattern(k as int)[j].1 as int
                        &&& c.position.x as int == X_LENGTH as int / 2 + block_pattern(
                            k as int,
                        )[j].0 as int
                        &&& c.position.y as int == Y_LENGTH as int - 1 + block_pattern(
                            k as int,
                        )[j].1 as int
                    },
            decreases 4 - m,
        {
            proof {
                lemma_pattern_bounds(k as int);
            }
            let off = offsets[m];
            let dx: i32 = off.0;
            let dy: i32 = off.1;
            proof {
                assert forall|i: int|
                    0 <= i < self.cells@.len() && (#[trigger] self.cells@[i]).tag is Free implies {
                    &&& self.cells@[i].position.x - self.cells@[i].relative_position.x == (
                    initial_x + dx) - dx
                    &&& self.cells@[i].position.y - self.cells@[i].relative_position.y == (
                    initial_y + dy) - dy
                } by {
                    if i >= base {
                        let j = i - base;
                        assert(self.cells@[base + j].tag is Free);
                    }
                }
            }
            self.spawn_block_element(
                color_index,
                Position { x: initial_x + dx, y: initial_y + dy },
                RelativePosition { x: dx, y: dy },
            );
            m += 1;
        }
    }

    /// Spawns the next piece: one of the seven catalog shapes, chosen
    /// uniformly at random, with a random cosmetic color.
    pub fn spawn_block(&mut self)
        requires
            old(self).wf(),
            !has_free(old(self).cells@),
            !old(self).spawn_requested,
        ensures
            final(self).wf(),
            final(self).board == old(self).board,
            final(self).spawn_requested == old(self).spawn_requested,
            final(self).game_over == old(self).game_over,
            final(self).cells@.len() == old(self).cells@.len() + 4,
            forall|i: int|
                0 <= i < old(self).cells@.len() ==> #[trigger] final(self).cells@[i] == old(self).cells@[i],
            exists|k: int, color: int|
                0 <= k < BLOCK_PATTERN_COUNT as int && 0 <= color < COLOR_COUNT as int
                    && spawned_shape(
                    final(self).cells@,
                    old(self).cells@.len() as int,
                    k,
                    color,
                ),
    {
        let k: usize = random_below(BLOCK_PATTERN_COUNT);
        let color_index: usize = random_below(COLOR_COUNT);
        self.spawn_block_from(k, color_index);
    }

    /// The whole active piece may shift one column by `dx`: every free cell
    /// can, simultaneously.
    pub open spec fn can_shift(self, dx: int) -> bool {
        forall|i: int|
            0 <= i < self.cells@.len() && (#[trigger] self.cells@[i]).tag is Free
                ==> cell_can_shift(self.board, self.cells@[i], dx)
    }

    /// The piece may move one column left.
    pub open spec fn can_move_left(self) -> bool {
        self.can_shift(-1)
    }

    /// The piece may move one column right.
    pub open spec fn can_move_right(self) -> bool {
        self.can_shift(1)
    }

    /// Decides whether every free cell can shift by `dx` columns.
    fn shift_allowed(&self, dx: i32) -> (r: bool)
        requires
            self.wf(),
            dx == -1 || dx == 1,
        ensures
            r == self.can_shift(dx as int),
    {
        let n: usize = self.cells.len();
        let mut i: usize = 0;
        while i < n
            invariant
                self.wf(),
                dx == -1 || dx == 1,
                n == self.cells@.len(),
                i <= n,
                forall|j: int|
                    0 <= j < i as int && (#[trigger] self.cells@[j]).tag is Free
                        ==> cell_can_shift(self.board, self.cells@[j], dx as int),
            decreases n - i,
        {
            let c = self.cells[i];
            if c.tag == Tag::Free {
                let nx: i32 = c.position.x + dx;
                if nx < 0 || nx >= X_LENGTH as i32 {
                    return false;
                }
                if c.position.y < Y_LENGTH as i32 {
                    if self.board.is_occupied(nx, c.position.y) {
                        return false;
                    }
                }
            }
            i += 1;
        }
        true
    }

    /// Moves every free cell by `(dx, dy)`, leaving fixed cells, the board
    /// and the pending events untouched.
    fn apply_shift(&mut self, dx: i32, dy: i32)
        requires
            old(self).wf(),
            forall|i: int|
                0 <= i < old(self).cells@.len() && (#[trigger] old(self).cells@[i]).tag is Free ==> {
                    &&& 0 <= old(self).cells@[i].position.x as int + dx as int
                    &&& (old(self).cells@[i].position.x as int + dx as int) < (X_LENGTH as int)
                    &&& 0 <= old(self).cells@[i].position.y as int + dy as int
                    &&& (old(self).cells@[i].position.y as int + dy as int) < (Y_STORE as int)
                },
        ensures
            final(self).wf(),
            final(self).board == old(self).board,
            final(self).spawn_requested == old(self).spawn_requested,
            final(self).game_over == old(self).game_over,
            final(self).cells@.len() == old(self).cells@.len(),
            forall|i: int|
                0 <= i < old(self).cells@.len() ==> moved_cell(
                    #[trigger] old(self).cells@[i],
                    final(self).cells@[i],
                    dx as int,
                    dy as int,
                ),
    {
        let n: usize = self.cells.len();
        let mut out: Vec<Cell> = Vec::new();
        let mut i: usize = 0;
        while i < n
            invariant
                old(self).wf(),
                forall|t: int|
                    0 <= t < old(self).cells@.len() && (#[trigger] old(self).cells@[t]).tag is Free ==> {
                        &&& 0 <= old(self).cells@[t].position.x as int + dx as int
                        &&& (old(self).cells@[t].position.x as int + dx as int) < (X_LENGTH as int)
                        &&& 0 <= old(self).cells@[t].position.y as int + dy as int
                        &&& (old(self).cells@[t].position.y as int + dy as int) < (Y_STORE as int)
                    },
                self == old(self),
                n == self.cells@.len(),
                i <= n,
                out@.len() == i as int,
                forall|j: int|
                    0 <= j < i as int ==> moved_cell(
                        #[trigger] self.cells@[j],
                        out@[j],
                        dx as int,
                        dy as int,
                    ),
            decreases n - i,
        {
            let c = self.cells[i];
            if c.tag == Tag::Free {
                out.push(
                    Cell {
                        position: Position { x: c.position.x + dx, y: c.position.y + dy },
                        relative_position: c.relative_position,
                        tag: c.tag,
                        color_index: c.color_index,
                    },
                );
            } else {
                out.push(c);
            }
            i += 1;
        }
        self.cells = out;
        proof {
            let pre = old(self).cells@;
            let post = self.cells@;
            assert forall|t: int| 0 <= t < pre.len() implies ((#[trigger] pre[t]).tag is Fix
                <==> (#[trigger] post[t]).tag is Fix) by {
                assert(moved_cell(pre[t], post[t], dx as int, dy as int));
            }
            lemma_same_fixed(pre, post);
            assert forall|x: int, y: int|
                0 <= x < X_LENGTH as int && 0 <= y < Y_STORE as int implies (self.board.occupied(
                x,
                y,
            ) <==> fixed_at(post, x, y)) by {
                assert(self.board.occupied(x, y) <==> fixed_at(pre, x, y));
                assert(fixed_at(post, x, y) <==> fixed_at(pre, x, y));
            }
            assert(board_matches(self.board, post));
            assert forall|t: int| 0 <= t < post.len() implies cell_wf(#[trigger] post[t]) by {
                assert(moved_cell(pre[t], post[t], dx as int, dy as int));
                assert(cell_wf(pre[t]));
            }
            assert(rigid(post)) by {
                assert forall|a: int, b: int|
                    0 <= a < post.len() && 0 <= b < post.len() && (#[trigger] post[a]).tag is Free
                        && (#[trigger] post[b]).tag is Free implies {
                    &&& post[a].position.x - post[a].relative_position.x == post[b].position.x
                        - post[b].relative_position.x
                    &&& post[a].position.y - post[a].relative_position.y == post[b].position.y
                        - post[b].relative_position.y
                } by {
                    assert(moved_cell(pre[a], post[a], dx as int, dy as int));
                    assert(moved_cell(pre[b], post[b], dx as int, dy as int));
                    assert(pre[a].tag is Free && pre[b].tag is Free);
                }
            }
            if self.spawn_requested {
                assert(!has_free(pre));
                if has_free(post) {
                    let w = choose|w: int|
                        0 <= w < post.len() && (#[trigger] post[w]).tag is Free;
                    assert(moved_cell(pre[w], post[w], dx as int, dy as int));
                    assert(pre[w].tag is Free);
                    assert(false);
                }
            }
        }
    }

    /// Shifts the whole piece one column left when every free cell can move.
    /// The move is all or nothing: a rejected move changes no cell.
    pub fn move_left(&mut self) -> (applied: bool)
        requires
            old(self).wf(),
        ensures
            final(self).wf(),
            applied == old(self).can_move_left(),
            final(self).board == old(self).board,
            final(self).spawn_requested == old(self).spawn_requested,
            final(self).game_over == old(self).game_over,
            final(self).cells@.len() == old(self).cells@.len(),
            !applied ==> final(self).cells@ == old(self).cells@,
            applied ==> forall|i: int|
                0 <= i < old(self).cells@.len() ==> moved_cell(
                    #[trigger] old(self).cells@[i],
                    final(self).cells@[i],
                    -1,
                    0,
                ),
    {
        if self.shift_allowed(-1) {
            self.apply_shift(-1, 0);
            true
        } else {
            false
        }
    }

    /// Shifts the whole piece one column right when every free cell can move.
    /// The move is all or nothing: a rejected move changes no cell.
    pub fn move_right(&mut self) -> (applied: bool)
        requires
            old(self).wf(),
        ensures
            final(self).wf(),
            applied == old(self).can_move_right(),
            final(self).board == old(self).board,
            final(self).spawn_requested == old(self).spawn_requested,
            final(self).game_over == old(self).game_over,
            final(self).cells@.len() == old(self).cells@.len(),
            !applied ==> final(self).cells@ == old(self).cells@,
            applied ==> forall|i: int|
                0 <= i < old(self).cells@.len() ==> moved_cell(
                    #[trigger] old(self).cells@[i],
                    final(self).cells@[i],
                    1,
                    0,
                ),
    {
        if self.shift_allowed(1) {
            self.apply_shift(1, 0);
            true
        } else {
            false
        }
    }

    /// The piece may turn a quarter turn: every free cell's target lies
    /// inside the visible field on an unoccupied board cell.
    pub open spec fn can_rotate(self) -> bool {
        forall|i: int|
            0 <= i < self.cells@.len() && (#[trigger] self.cells@[i]).tag is Free ==> {
                let t = rotate_state(cell_state(self.cells@[i]));
                &&& 0 <= t.0 < X_LENGTH as int
                &&& 0 <= t.1 < Y_LENGTH as int
                &&& !self.board.occupied(t.0, t.1)
            }
    }

    /// Turns the whole piece a quarter turn about its anchor when every free
    /// cell's target is in range and unoccupied. The turn is all or nothing:
    /// a rejected turn changes no cell.
    pub fn rotate(&mut self) -> (applied: bool)
        requires
            old(self).wf(),
        ensures
            final(self).wf(),
            applied == old(self).can_rotate(),
            final(self).board == old(self).board,
            final(self).spawn_requested == old(self).spawn_requested,
            final(self).game_over == old(self).game_over,
            final(self).cells@.len() == old(self).cells@.len(),
            !applied ==> final(self).cells@ == old(self).cells@,
            applied ==> forall|i: int|
                0 <= i < old(self).cells@.len() ==> rotated_cell(
                    #[trigger] old(self).cells@[i],
                    final(self).cells@[i],
                ),
    {
        let n: usize = self.cells.len();
        let mut i: usize = 0;
        while i < n
            invariant
                self.wf(),
                n == self.cells@.len(),
                i <= n,
                forall|j: int|
                    0 <= j < i as int && (#[trigger] self.cells@[j]).tag is Free ==> {
                        let t = rotate_state(cell_state(self.cells@[j]));
                        &&& 0 <= t.0 < X_LENGTH as int
                        &&& 0 <= t.1 < Y_LENGTH as int
                        &&& !self.board.occupied(t.0, t.1)
                    },
            decreases n - i,
        {
            let c = self.cells[i];
            if c.tag == Tag::Free {
                let nx: i32 = c.position.x - c.relative_position.x + c.relative_position.y;
                let ny: i32 = c.position.y - c.relative_position.y - c.relative_position.x;
                if nx < 0 || nx >= X_LENGTH as i32 || ny < 0 || ny >= Y_LENGTH as i32 {
                    return false;
                }
                if self.board.is_occupied(nx, ny) {
                    return false;
                }
            }
            i += 1;
        }
        let mut out: Vec<Cell> = Vec::new();
        let mut j: usize = 0;
        while j < n
            invariant
                self.wf(),
                self.can_rotate(),
                n == self.cells@.len(),
                j <= n,
                out@.len() == j as int,
                forall|t: int|
                    0 <= t < j as int ==> rotated_cell(#[trigger] self.cells@[t], out@[t]),
            decreases n - j,
        {
            let c = self.cells[j];
            if c.tag == Tag::Free {
                let nrx: i32 = c.relative_position.y;
                let nry: i32 = -c.relative_position.x;
                let nx: i32 = c.position.x - c.relative_position.x + nrx;
                let ny: i32 = c.position.y - c.relative_position.y + nry;
                out.push(
                    Cell {
                        position: Position { x: nx, y: ny },
                        relative_position: RelativePosition { x: nrx, y: nry },
                        tag: c.tag,
                        color_index: c.color_index,
                    },
                );
            } else {
                out.push(c);
            }
            j += 1;
        }
        self.cells = out;
        proof {
            let pre = old(self).cells@;
            let post = self.cells@;
            assert forall|t: int| 0 <= t < pre.len() implies ((#[trigger] pre[t]).tag is Fix
                <==> (#[trigger] post[t]).tag is Fix) by {
                assert(rotated_cell(pre[t], post[t]));
            }
            lemma_same_fixed(pre, post);
            assert forall|x: int, y: int|
                0 <= x < X_LENGTH as int && 0 <= y < Y_STORE as int implies (self.board.occupied(
                x,
                y,
            ) <==> fixed_at(post, x, y)) by {
                assert(self.board.occupied(x, y) <==> fixed_at(pre, x, y));
                assert(fixed_at(post, x, y) <==> fixed_at(pre, x, y));
            }
            assert(board_matches(self.board, post));
            assert forall|t: int| 0 <= t < post.len() implies cell_wf(#[trigger] post[t]) by {
                assert(rotated_cell(pre[t], post[t]));
                assert(cell_wf(pre[t]));
                if pre[t].tag is Free {
                    assert(old(self).can_rotate());
                }
            }
            assert(rigid(post)) by {
                assert forall|a: int, b: int|
                    0 <= a < post.len() && 0 <= b < post.len() && (#[trigger] post[a]).tag is Free
                        && (#[trigger] post[b]).tag is Free implies {
                    &&& post[a].position.x - post[a].relative_position.x == post[b].position.x
                        - post[b].relative_position.x
                    &&& post[a].position.y - post[a].relative_position.y == post[b].position.y
                        - post[b].relative_position.y
                } by {
                    assert(rotated_cell(pre[a], post[a]));
                    assert(rotated_cell(pre[b], post[b]));
                    assert(pre[a].tag is Free && pre[b].tag is Free);
                }
            }
            if self.spawn_requested {
                assert(!has_free(pre));
                if has_free(post) {
                    let w = choose|w: int|
                        0 <= w < post.len() && (#[trigger] post[w]).tag is Free;
                    assert(rotated_cell(pre[w], post[w]));
                    assert(pre[w].tag is Free);
                    assert(false);
                }
            }
        }
        true
    }

    /// Decides whether a controllable piece is on the board.
    pub fn has_free_cell(&self) -> (r: bool)
        ensures
            r == has_free(self.cells@),
    {
        let n: usize = self.cells.len();
        let mut i: usize = 0;
        while i < n
            invariant
                n == self.cells@.len(),
                i <= n,
                forall|j: int| 0 <= j < i as int ==> !((#[trigger] self.cells@[j]).tag is Free),
            decreases n - i,
        {
            let c = self.cells[i];
            if c.tag == Tag::Free {
                return true;
            }
            i += 1;
        }
        false
    }

    /// Distance `d` is a clear uniform fall: every free cell stays at or
    /// above the floor and lands on an unoccupied board cell.
    pub open spec fn drop_clear(self, d: int) -> bool {
        forall|i: int|
            0 <= i < self.cells@.len() && (#[trigger] self.cells@[i]).tag is Free ==> {
                let c = self.cells@[i];
                &&& c.position.y as int - d >= 0
                &&& !self.board.occupied(c.position.x as int, c.position.y as int - d)
            }
    }

    /// Decides whether the piece can fall `k` rows without obstruction.
    fn drop_clear_exec(&self, k: i32) -> (r: bool)
        requires
            self.wf(),
            1 <= k as int,
            (k as int) <= (Y_STORE as int),
        ensures
            r == self.drop_clear(k as int),
    {
        let n: usize = self.cells.len();
        let mut i: usize = 0;
        while i < n
            invariant
                self.wf(),
                1 <= k as int,
                (k as int) <= (Y_STORE as int),
                n == self.cells@.len(),
                i <= n,
                forall|j: int|
                    0 <= j < i as int && (#[trigger] self.cells@[j]).tag is Free ==> {
                        let c = self.cells@[j];
                        &&& c.position.y as int - k as int >= 0
                        &&& !self.board.occupied(
                            c.position.x as int,
                            c.position.y as int - k as int,
                        )
                    },
            decreases n - i,
        {
            let c = self.cells[i];
            if c.tag == Tag::Free {
                if c.position.y < k {
                    return false;
                }
                if self.board.is_occupied(c.position.x, c.position.y - k) {
                    return false;
                }
            }
            i += 1;
        }
        true
    }

    /// A hard drop: slams the piece down by the largest unobstructed uniform
    /// distance, found by growing a candidate distance until some cell would
    /// collide and backing off by one. The piece is left resting just above
    /// the collision; the next gravity step locks it there.
    pub fn hard_drop(&mut self) -> (d: i32)
        requires
            old(self).wf(),
        ensures
            final(self).wf(),
            final(self).board == old(self).board,
            final(self).spawn_requested == old(self).spawn_requested,
            final(self).game_over == old(self).game_over,
            final(self).cells@.len() == old(self).cells@.len(),
            0 <= d as int,
            (d as int) <= (Y_STORE as int),
            forall|k: int| 1 <= k <= d as int ==> old(self).drop_clear(k),
            has_free(old(self).cells@) ==> !old(self).drop_clear(d as int + 1),
            !has_free(old(self).cells@) ==> d == 0,
            forall|i: int|
                0 <= i < old(self).cells@.len() ==> moved_cell(
                    #[trigger] old(self).cells@[i],
                    final(self).cells@[i],
                    0,
                    -(d as int),
                ),
    {
        if !self.has_free_cell() {
            proof {
                assert forall|i: int| 0 <= i < self.cells@.len() implies moved_cell(
                    #[trigger] self.cells@[i],
                    self.cells@[i],
                    0,
                    0,
                ) by {}
            }
            return 0;
        }
        let mut d: i32 = 0;
        let mut collide: bool = !self.drop_clear_exec(1);
        while !collide
            invariant
                self.wf(),
                has_free(self.cells@),
                0 <= d as int,
                (d as int) < (Y_STORE as int),
                forall|k: int| 1 <= k <= d as int ==> self.drop_clear(k),
                collide == !self.drop_clear(d as int + 1),
            decreases Y_STORE as int - d as int,
        {
            d += 1;
            proof {
                let w = choose|w: int|
                    0 <= w < self.cells@.len() && (#[trigger] self.cells@[w]).tag is Free;
                assert(self.drop_clear(d as int));
                assert(self.cells@[w].position.y as int - d as int >= 0);
                assert(cell_wf(self.cells@[w]));
            }
            collide = !self.drop_clear_exec(d + 1);
        }
        proof {
            assert forall|i: int|
                0 <= i < self.cells@.len() && (#[trigger] self.cells@[i]).tag is Free implies {
                &&& 0 <= self.cells@[i].position.y as int + (-d) as int
                &&& (self.cells@[i].position.y as int + (-d) as int) < (Y_STORE as int)
            } by {
                assert(cell_wf(self.cells@[i]));
                if d as int >= 1 {
                    assert(self.drop_clear(d as int));
                }
            }
        }
        self.apply_shift(0, -d);
        d
    }

    /// Some free cell of the piece is grounded, so the next gravity step
    /// locks the piece.
    pub open spec fn any_grounded(self) -> bool {
        exists|i: int|
            0 <= i < self.cells@.len() && (#[trigger] self.cells@[i]).tag is Free
                && cell_grounded(self.board, self.cells@[i])
    }

    /// Decides whether any free cell is grounded.
    fn is_any_grounded(&self) -> (r: bool)
        requires
            self.wf(),
        ensures
            r == self.any_grounded(),
    {
        let n: usize = self.cells.len();
        let mut i: usize = 0;
        while i < n
            invariant
                self.wf(),
                n == self.cells@.len(),
                i <= n,
                forall|j: int|
                    0 <= j < i as int ==> !((#[trigger] self.cells@[j]).tag is Free
                        && cell_grounded(self.board, self.cells@[j])),
            decreases n - i,
        {
            let c = self.cells[i];
            if c.tag == Tag::Free && c.position.y < Y_LENGTH as i32 {
                if c.position.y == 0 {
                    return true;
                }
                if self.board.is_occupied(c.position.x, c.position.y - 1) {
                    return true;
                }
            }
            i += 1;
        }
        false
    }

    /// One gravity step. If any free cell is grounded, the whole piece locks:
    /// every free cell turns fixed, its position is written into the board,
    /// and the next spawn is requested. Otherwise the whole piece falls one
    /// row.
    pub fn fall(&mut self)
        requires
            old(self).wf(),
        ensures
            final(self).wf(),
            final(self).game_over == old(self).game_over,
            final(self).cells@.len() == old(self).cells@.len(),
            old(self).any_grounded() ==> {
                &&& final(self).spawn_requested
                &&& !has_free(final(self).cells@)
                &&& forall|i: int|
                    0 <= i < old(self).cells@.len() ==> #[trigger] final(self).cells@[i]
                        == locked_cell(old(self).cells@[i])
                &&& forall|x: int, y: int|
                    0 <= x < X_LENGTH as int && 0 <= y < Y_STORE as int ==> (
                    #[trigger] final(self).board.occupied(x, y) <==> (old(self).board.occupied(
                        x,
                        y,
                    ) || free_at(old(self).cells@, x, y)))
            },
            !old(self).any_grounded() ==> {
                &&& final(self).board == old(self).board
                &&& final(self).spawn_requested == old(self).spawn_requested
                &&& forall|i: int|
                    0 <= i < old(self).cells@.len() ==> moved_cell(
                        #[trigger] old(self).cells@[i],
                        final(self).cells@[i],
                        0,
                        -1,
                    )
            },
    {
        if self.is_any_grounded() {
            let ghost pre = self.cells@;
            let n: usize = self.cells.len();
            let mut out: Vec<Cell> = Vec::new();
            let mut i: usize = 0;
            while i < n
                invariant
                    old(self).wf(),
                    pre == old(self).cells@,
                    self.cells@ == pre,
                    self.spawn_requested == old(self).spawn_requested,
                    self.game_over == old(self).game_over,
                    n == pre.len(),
                    i <= n,
                    out@.len() == i as int,
                    forall|j: int|
                        0 <= j < i as int ==> #[trigger] out@[j] == locked_cell(pre[j]),
                    self.board.wf(),
                    forall|x: int, y: int|
                        0 <= x < X_LENGTH as int && 0 <= y < Y_STORE as int ==> (
                        #[trigger] self.board.occupied(x, y) <==> (old(self).board.occupied(x, y)
                            || free_at_upto(pre, i as int, x, y))),
                decreases n - i,
            {
                let c = self.cells[i];
                if c.tag == Tag::Free {
                    self.board.set(c.position.x, c.position.y, true);
                    out.push(
                        Cell {
                            position: c.position,
                            relative_position: c.relative_position,
                            tag: Tag::Fix,
                            color_index: c.color_index,
                        },
                    );
                } else {
                    out.push(c);
                }
                proof {
                    let ii = i as int;
                    assert forall|x: int, y: int|
                        0 <= x < X_LENGTH as int && 0 <= y < Y_STORE as int implies (
                    self.board.occupied(x, y) <==> (old(self).board.occupied(x, y)
                        || free_at_upto(pre, ii + 1, x, y))) by {
                        if free_at_upto(pre, ii + 1, x, y) {
                            let j = choose|j: int|
                                0 <= j < ii + 1 && j < pre.len() && (#[trigger] pre[j]).tag is Free
                                    && pre[j].position.x as int == x && pre[j].position.y as int
                                    == y;
                            if j < ii {
                                assert(free_at_upto(pre, ii, x, y));
                            }
                        }
                        if free_at_upto(pre, ii, x, y) {
                            let j = choose|j: int|
                                0 <= j < ii && j < pre.len() && (#[trigger] pre[j]).tag is Free
                                    && pre[j].position.x as int == x && pre[j].position.y as int
                                    == y;
                            assert(free_at_upto(pre, ii + 1, x, y));
                        }
                        if pre[ii].tag is Free && pre[ii].position.x as int == x
                            && pre[ii].position.y as int == y {
                            assert(free_at_upto(pre, ii + 1, x, y));
                        }
                    }
                }
                i += 1;
            }
            self.cells = out;
            self.spawn_requested = true;
            proof {
                let post = self.cells@;
                assert forall|t: int| 0 <= t < post.len() implies ((#[trigger] post[t]).tag is Fix
                    && post[t] == locked_cell(pre[t])) by {}
                assert(!has_free(post)) by {
                    if has_free(post) {
                        let w = choose|w: int|
                            0 <= w < post.len() && (#[trigger] post[w]).tag is Free;
                        assert(post[w].tag is Fix);
                        assert(false);
                    }
                }
                assert forall|x: int, y: int|
                    0 <= x < X_LENGTH as int && 0 <= y < Y_STORE as int implies (
                self.board.occupied(x, y) <==> fixed_at(post, x, y)) by {
                    assert(self.board.occupied(x, y) <==> (old(self).board.occupied(x, y)
                        || free_at_upto(pre, pre.len() as int, x, y)));
                    assert(old(self).board.occupied(x, y) <==> fixed_at(pre, x, y));
                    if fixed_at(pre, x, y) {
                        let j = choose|j: int|
                            0 <= j < pre.len() && j < pre.len() && (#[trigger] pre[j]).tag is Fix
                                && pre[j].position.x as int == x && pre[j].position.y as int == y;
                        assert(post[j] == locked_cell(pre[j]));
                        assert(fixed_at_upto(post, post.len() as int, x, y));
                    }
                    if free_at_upto(pre, pre.len() as int, x, y) {
                        let j = choose|j: int|
                            0 <= j < pre.len() && j < pre.len() && (#[trigger] pre[j]).tag is Free
                                && pre[j].position.x as int == x && pre[j].position.y as int == y;
                        assert(post[j] == locked_cell(pre[j]));
                        assert(fixed_at_upto(post, post.len() as int, x, y));
                    }
                    if fixed_at(post, x, y) {
                        let j = choose|j: int|
                            0 <= j < post.len() && j < post.len() && (
                            #[trigger] post[j]).tag is Fix && post[j].position.x as int == x
                                && post[j].position.y as int == y;
                        assert(post[j] == locked_cell(pre[j]));
                        if pre[j].tag is Free {
                            assert(free_at_upto(pre, pre.len() as int, x, y));
                        } else {
                            assert(fixed_at_upto(pre, pre.len() as int, x, y));
                        }
                    }
                }
                assert(board_matches(self.board, post));
                assert forall|t: int| 0 <= t < post.len() implies cell_wf(#[trigger] post[t]) by {
                    assert(cell_wf(pre[t]));
                }
            }
        } else {
            proof {
                assert forall|i: int|
                    0 <= i < self.cells@.len() && (#[trigger] self.cells@[i]).tag is Free implies {
                    &&& 0 <= self.cells@[i].position.y as int - 1
                    &&& self.cells@[i].position.y as int - 1 < Y_STORE as int
                } by {
                    assert(!(self.cells@[i].tag is Free && cell_grounded(
                        self.board,
                        self.cells@[i],
                    )));
                    assert(cell_wf(self.cells@[i]));
                }
            }
            self.apply_shift(0, -1);
        }
    }
}

} // verus!
