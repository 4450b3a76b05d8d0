use crate::board::Board;
use crate::constraint::{COLOR_COUNT, X_LENGTH, Y_LENGTH, Y_STORE};
use crate::game::{
    board_matches, cell_grounded, fixed_at, fixed_at_upto, free_at, has_free, locked_cell,
    moved_cell, rigid, spawned_shape, Game,
};
use crate::piece::{cell_wf, Cell, Position, Tag, BLOCK_PATTERN_COUNT};
use vstd::prelude::*;

verus! {

/// Number of full rows strictly below row `y`: the distance a surviving row
/// at `y` drops during compaction.
pub open spec fn down_count(b: Board, y: int) -> int
    decreases y,
{
    if y <= 0 {
        0
    } else {
        down_count(b, y - 1) + if b.row_full(y - 1) {
            1int
        } else {
            0int
        }
    }
}

/// Between two rows, the count of full rows below grows by at least zero and
/// at most the distance.
proof fn lemma_down_diff(b: Board, y1: int, y2: int)
    requires
        0 <= y1 <= y2,
    ensures
        0 <= down_count(b, y2) - down_count(b, y1) <= y2 - y1,
    decreases y2 - y1,
{
    if y1 < y2 {
        lemma_down_diff(b, y1, y2 - 1);
    }
}

/// The count of full rows below `y` lies between 0 and `y`.
pub proof fn lemma_down_bounds(b: Board, y: int)
    requires
        0 <= y,
    ensures
        0 <= down_count(b, y) <= y,
{
    lemma_down_diff(b, 0, y);
}

/// Row compaction preserves relative vertical order: a surviving row
/// strictly below another row lands strictly below where that row lands.
pub proof fn lemma_compaction_preserves_order(b: Board, y1: int, y2: int)
    requires
        0 <= y1 < y2,
        !b.row_full(y1),
    ensures
        y1 - down_count(b, y1) < y2 - down_count(b, y2),
{
    lemma_down_diff(b, y1 + 1, y2);
    assert(down_count(b, y1 + 1) == down_count(b, y1));
}

/// A cell survives the clearing step unless it is fixed in a full row.
pub open spec fn survives(b: Board, c: Cell) -> bool {
    !(c.tag is Fix && b.row_full(c.position.y as int))
}

/// Of two fixed cells that both survive a clear, the one strictly below the
/// other lands strictly below it: the interior vertical order of the
/// surviving cells is never disturbed, only shifted.
pub proof fn lemma_surviving_cells_keep_order(b: Board, c1: Cell, c2: Cell)
    requires
        c1.tag is Fix,
        c2.tag is Fix,
        survives(b, c1),
        survives(b, c2),
        0 <= c1.position.y as int,
        (c1.position.y as int) < (c2.position.y as int),
    ensures
        (compact_cell(b, c1).position.y as int) < (compact_cell(b, c2).position.y as int),
{
    let y1 = c1.position.y as int;
    let y2 = c2.position.y as int;
    lemma_down_bounds(b, y1);
    lemma_down_bounds(b, y2);
    lemma_compaction_preserves_order(b, y1, y2);
}

/// A surviving cell after compaction: a fixed cell drops by the number of
/// full rows below it; a free cell is untouched.
pub open spec fn compact_cell(b: Board, c: Cell) -> Cell {
    if c.tag is Fix {
        Cell {
            position: Position {
                x: c.position.x,
                y: (c.position.y as int - down_count(b, c.position.y as int)) as i32,
            },
            relative_position: c.relative_position,
            tag: c.tag,
            color_index: c.color_index,
        }
    } else {
        c
    }
}

/// The cell list after the clearing step: cleared cells are dropped and the
/// survivors, kept in order, are compacted.
pub open spec fn cleared_cells(b: Board, cells: Seq<Cell>) -> Seq<Cell>
    decreases cells.len(),
{
    if cells.len() == 0 {
        Seq::empty()
    } else if survives(b, cells.last()) {
        cleared_cells(b, cells.drop_last()).push(compact_cell(b, cells.last()))
    } else {
        cleared_cells(b, cells.drop_last())
    }
}

/// `d` is the compacted form of some survivor of `cells`.
pub open spec fn is_compacted_survivor(b: Board, cells: Seq<Cell>, d: Cell) -> bool {
    exists|i: int|
        0 <= i < cells.len() && survives(b, #[trigger] cells[i]) && d == compact_cell(b, cells[i])
}

/// The compacted form of `c` appears in `post`.
pub open spec fn kept(b: Board, post: Seq<Cell>, c: Cell) -> bool {
    exists|j: int| 0 <= j < post.len() && #[trigger] post[j] == compact_cell(b, c)
}

/// Every cell after clearing is a compacted survivor of the list before, and
/// every survivor of the list before is kept.
pub proof fn lemma_cleared_cells_spec(b: Board, cells: Seq<Cell>)
    ensures
        cleared_cells(b, cells).len() <= cells.len(),
        forall|j: int|
            0 <= j < cleared_cells(b, cells).len() ==> is_compacted_survivor(
                b,
                cells,
                #[trigger] cleared_cells(b, cells)[j],
            ),
        forall|i: int|
            0 <= i < cells.len() && survives(b, #[trigger] cells[i]) ==> kept(
                b,
                cleared_cells(b, cells),
                cells[i],
            ),
    decreases cells.len(),
{
    if cells.len() > 0 {
        let pre = cells.drop_last();
        lemma_cleared_cells_spec(b, pre);
        let cc = cleared_cells(b, cells);
        let cp = cleared_cells(b, pre);
        assert(cells.last() == cells[cells.len() - 1]);
        assert(forall|i: int| 0 <= i < pre.len() ==> #[trigger] pre[i] == cells[i]);
        assert forall|j: int| 0 <= j < cc.len() implies is_compacted_survivor(
            b,
            cells,
            #[trigger] cc[j],
        ) by {
            if survives(b, cells.last()) && j == cc.len() - 1 {
                assert(cc[j] == compact_cell(b, cells[cells.len() - 1]));
                assert(survives(b, cells[cells.len() - 1]));
            } else {
                assert(cc[j] == cp[j]);
                assert(is_compacted_survivor(b, pre, cp[j]));
                let i0 = choose|i0: int|
                    0 <= i0 < pre.len() && survives(b, #[trigger] pre[i0]) && cp[j]
                        == compact_cell(b, pre[i0]);
                assert(cells[i0] == pre[i0]);
                assert(survives(b, cells[i0]) && cc[j] == compact_cell(b, cells[i0]));
            }
        }
        assert forall|i: int| 0 <= i < cells.len() && survives(b, #[trigger] cells[i]) implies kept(
            b,
            cc,
            cells[i],
        ) by {
            if i < cells.len() - 1 {
                assert(pre[i] == cells[i]);
                assert(survives(b, pre[i]));
                assert(kept(b, cp, pre[i]));
                let j0 = choose|j0: int|
                    0 <= j0 < cp.len() && #[trigger] cp[j0] == compact_cell(b, pre[i]);
                assert(cc[j0] == cp[j0]);
                assert(cc[j0] == compact_cell(b, cells[i]));
            } else {
                assert(cc[cc.len() - 1] == compact_cell(b, cells[i]));
            }
        }
    }
}

/// Some fixed cell lies at or above the visible rows: the game is over.
pub open spec fn over_top(cells: Seq<Cell>) -> bool {
    exists|i: int|
        0 <= i < cells.len() && (#[trigger] cells[i]).tag is Fix && cells[i].position.y as int
            >= Y_LENGTH as int
}

/// `c` one row lower when free, unchanged when fixed: the image of one cell
/// under a non-locking gravity step.
pub open spec fn dropped_cell(c: Cell) -> Cell {
    if c.tag is Free {
        Cell {
            position: Position { x: c.position.x, y: (c.position.y as int - 1) as i32 },
            relative_position: c.relative_position,
            tag: c.tag,
            color_index: c.color_index,
        }
    } else {
        c
    }
}

/// The whole cell list one row lower: what a tick's gravity step leaves
/// when no free cell is grounded.
pub open spec fn fallen_cells(cells: Seq<Cell>) -> Seq<Cell> {
    Seq::new(cells.len(), |i: int| dropped_cell(cells[i]))
}

/// The whole cell list locked: what a tick's gravity step leaves when some
/// free cell is grounded.
pub open spec fn locked_cells(cells: Seq<Cell>) -> Seq<Cell> {
    Seq::new(cells.len(), |i: int| locked_cell(cells[i]))
}

/// Occupancy right after a tick's gravity step locks the piece: the board
/// of `g` plus every free cell of `g`.
pub open spec fn lock_occ(g: Game, x: int, y: int) -> bool {
    g.board.occupied(x, y) || free_at(g.cells@, x, y)
}

/// Row `y` is full in the post-lock occupancy of `g`.
pub open spec fn lock_row_full(g: Game, y: int) -> bool {
    forall|x: int| 0 <= x < X_LENGTH as int ==> lock_occ(g, x, y)
}

/// Number of full post-lock rows strictly below `y`.
pub open spec fn lock_down_count(g: Game, y: int) -> int
    decreases y,
{
    if y <= 0 {
        0
    } else {
        lock_down_count(g, y - 1) + if lock_row_full(g, y - 1) {
            1int
        } else {
            0int
        }
    }
}

/// A locked cell survives the clear that follows the lock of a tick.
pub open spec fn lock_survives(g: Game, c: Cell) -> bool {
    !(c.tag is Fix && lock_row_full(g, c.position.y as int))
}

/// The post-clear form of a locked cell: dropped by the number of full
/// post-lock rows below it.
pub open spec fn lock_compact_cell(g: Game, c: Cell) -> Cell {
    if c.tag is Fix {
        Cell {
            position: Position {
                x: c.position.x,
                y: (c.position.y as int - lock_down_count(g, c.position.y as int)) as i32,
            },
            relative_position: c.relative_position,
            tag: c.tag,
            color_index: c.color_index,
        }
    } else {
        c
    }
}

/// The clearing step applied against the post-lock occupancy of `g`:
/// `cleared_cells`, restated over `lock_occ` because the board that carries
/// that occupancy exists only in the middle of a tick.
pub open spec fn lock_cleared_cells(g: Game, cells: Seq<Cell>) -> Seq<Cell>
    decreases cells.len(),
{
    if cells.len() == 0 {
        Seq::empty()
    } else if lock_survives(g, cells.last()) {
        lock_cleared_cells(g, cells.drop_last()).push(lock_compact_cell(g, cells.last()))
    } else {
        lock_cleared_cells(g, cells.drop_last())
    }
}

/// The tick starting from `g` ends the game: a game-over event was already
/// pending, or the gravity step leaves a fixed cell at or above the visible
/// rows.
pub open spec fn tick_ends_game(g: Game) -> bool {
    g.game_over || (if g.any_grounded() {
        over_top(locked_cells(g.cells@))
    } else {
        over_top(fallen_cells(g.cells@))
    })
}

/// The cells a tick's gravity and clearing steps leave behind, before any
/// spawn: the piece locks or falls one row, and the cells of full rows go
/// while the survivors compact.
pub open spec fn tick_settled_cells(g: Game) -> Seq<Cell> {
    if g.any_grounded() {
        lock_cleared_cells(g, locked_cells(g.cells@))
    } else {
        cleared_cells(g.board, fallen_cells(g.cells@))
    }
}

/// A board that carries exactly the post-lock occupancy of `g` has the same
/// full rows.
proof fn lemma_lock_row_full_eq(g: Game, b: Board, y: int)
    requires
        forall|x: int, yy: int|
            0 <= x < X_LENGTH as int && 0 <= yy < Y_STORE as int ==> (#[trigger] b.occupied(x, yy)
                <==> lock_occ(g, x, yy)),
        0 <= y < Y_STORE as int,
    ensures
        b.row_full(y) == lock_row_full(g, y),
{
    if b.row_full(y) {
        assert forall|x: int| 0 <= x < X_LENGTH as int implies lock_occ(g, x, y) by {
            assert(b.occupied(x, y));
        }
    }
    if lock_row_full(g, y) {
        assert forall|x: int| 0 <= x < X_LENGTH as int implies b.occupied(x, y) by {
            assert(lock_occ(g, x, y));
        }
    }
}

/// A board that carries exactly the post-lock occupancy of `g` counts the
/// same full rows below any row.
proof fn lemma_lock_down_eq(g: Game, b: Board, y: int)
    requires
        forall|x: int, yy: int|
            0 <= x < X_LENGTH as int && 0 <= yy < Y_STORE as int ==> (#[trigger] b.occupied(x, yy)
                <==> lock_occ(g, x, yy)),
        0 <= y <= Y_STORE as int,
    ensures
        down_count(b, y) == lock_down_count(g, y),
    decreases y,
{
    if y > 0 {
        lemma_lock_down_eq(g, b, y - 1);
        lemma_lock_row_full_eq(g, b, y - 1);
    }
}

/// A board that carries exactly the post-lock occupancy of `g` clears a
/// cell list exactly as the post-lock occupancy does.
proof fn lemma_lock_cleared_eq(g: Game, b: Board, cells: Seq<Cell>)
    requires
        forall|x: int, yy: int|
            0 <= x < X_LENGTH as int && 0 <= yy < Y_STORE as int ==> (#[trigger] b.occupied(x, yy)
                <==> lock_occ(g, x, yy)),
        forall|i: int| 0 <= i < cells.len() ==> cell_wf(#[trigger] cells[i]),
    ensures
        cleared_cells(b, cells) == lock_cleared_cells(g, cells),
    decreases cells.len(),
{
    if cells.len() > 0 {
        let pre = cells.drop_last();
        assert forall|i: int| 0 <= i < pre.len() implies cell_wf(#[trigger] pre[i]) by {
            assert(pre[i] == cells[i]);
        }
        lemma_lock_cleared_eq(g, b, pre);
        let c = cells.last();
        assert(c == cells[cells.len() - 1]);
        assert(cell_wf(c));
        lemma_lock_row_full_eq(g, b, c.position.y as int);
        if c.tag is Fix {
            lemma_lock_down_eq(g, b, c.position.y as int);
        }
        assert(survives(b, c) == lock_survives(g, c));
        assert(compact_cell(b, c) == lock_compact_cell(g, c));
    }
}

impl Game {
    /// Decides whether some fixed cell lies at or above the visible rows.
    fn check_over_top(&self) -> (r: bool)
        ensures
            r == over_top(self.cells@),
    {
        let n: usize = self.cells.len();
        let mut i: usize = 0;
        while i < n
            invariant
                n == self.cells@.len(),
                i <= n,
                forall|j: int|
                    0 <= j < i as int ==> !((#[trigger] self.cells@[j]).tag is Fix
                        && self.cells@[j].position.y as int >= Y_LENGTH as int),
            decreases n - i,
        {
            let c = self.cells[i];
            if c.tag == Tag::Fix && c.position.y >= Y_LENGTH as i32 {
                return true;
            }
            i += 1;
        }
        false
    }

    /// The line-clearing step. The game-over test comes first: a fixed cell
    /// at or above the visible rows raises the game-over event and the step
    /// stops with board and cells untouched. Otherwise every full visible
    /// row is cleared: its fixed cells are destroyed, each surviving fixed
    /// cell drops by the number of full rows below it, and the board is
    /// rewritten to record exactly the surviving fixed cells. After a
    /// completed clear no full row remains, so running the step again at
    /// once clears nothing.
    pub fn delete_line(&mut self)
        requires
            old(self).wf(),
        ensures
            final(self).wf(),
            final(self).spawn_requested == old(self).spawn_requested,
            final(self).game_over == (old(self).game_over || over_top(old(self).cells@)),
            over_top(old(self).cells@) ==> final(self).board == old(self).board && final(self).cells@ == old(self).cells@,
            !over_top(old(self).cells@) ==> {
                &&& final(self).cells@ == cleared_cells(old(self).board, old(self).cells@)
                &&& forall|y: int| 0 <= y < Y_LENGTH as int ==> !final(self).board.row_full(y)
                &&& forall|i: int|
                    0 <= i < final(self).cells@.len() && (#[trigger] final(self).cells@[i]).tag is Fix ==> (final(self).cells@[i].position.y as int) < (
                    Y_LENGTH as int)
            },
            has_free(final(self).cells@) == has_free(old(self).cells@),
    {
        if self.check_over_top() {
            self.game_over = true;
            return;
        }
        let ghost pre_board = self.board;
        let ghost pre_cells = self.cells@;

        // Which visible rows are full, before anything is touched.
        let mut full: Vec<bool> = Vec::new();
        let mut fy: i32 = 0;
        while fy < Y_LENGTH as i32
            invariant
                self.wf(),
                0 <= fy as int,
                (fy as int) <= (Y_LENGTH as int),
                full@.len() == fy as int,
                forall|r: int| 0 <= r < fy as int ==> full@[r] == self.board.row_full(r),
            decreases Y_LENGTH as int - fy as int,
        {
            full.push(self.board.row_is_full(fy));
            fy += 1;
        }

        // How far each row drops: the number of full rows below it.
        let mut downs: Vec<i32> = Vec::new();
        let mut acc: i32 = 0;
        let mut dy: i32 = 0;
        while dy < Y_LENGTH as i32
            invariant
                self.wf(),
                0 <= dy as int,
                (dy as int) <= (Y_LENGTH as int),
                full@.len() == Y_LENGTH as int,
                forall|r: int| 0 <= r < Y_LENGTH as int ==> full@[r] == self.board.row_full(r),
                downs@.len() == dy as int,
                acc as int == down_count(self.board, dy as int),
                0 <= acc as int <= dy as int,
                forall|r: int|
                    0 <= r < dy as int ==> #[trigger] downs@[r] as int == down_count(
                        self.board,
                        r,
                    ),
            decreases Y_LENGTH as int - dy as int,
        {
            downs.push(acc);
            if full[dy as usize] {
                acc += 1;
            }
            dy += 1;
        }

        // Drop the cells of full rows; compact the survivors.
        let n: usize = self.cells.len();
        let mut out: Vec<Cell> = Vec::new();
        let mut i: usize = 0;
        while i < n
            invariant
                self.wf(),
                !over_top(self.cells@),
                pre_board == self.board,
                pre_cells == self.cells@,
                n == self.cells@.len(),
                i <= n,
                full@.len() == Y_LENGTH as int,
                forall|r: int| 0 <= r < Y_LENGTH as int ==> full@[r] == self.board.row_full(r),
                downs@.len() == Y_LENGTH as int,
                forall|r: int|
                    0 <= r < Y_LENGTH as int ==> #[trigger] downs@[r] as int == down_count(
                        self.board,
                        r,
                    ),
                out@ == cleared_cells(self.board, self.cells@.subrange(0, i as int)),
            decreases n - i,
        {
            let c = self.cells[i];
            proof {
                let sub1 = self.cells@.subrange(0, i as int + 1);
                assert(sub1.drop_last() =~= self.cells@.subrange(0, i as int));
                assert(sub1.last() == self.cells@[i as int]);
                assert(!(self.cells@[i as int].tag is Fix && self.cells@[i as int].position.y as int
                    >= Y_LENGTH as int));
                assert(cell_wf(self.cells@[i as int]));
            }
            if c.tag == Tag::Fix {
                let yy: usize = c.position.y as usize;
                if full[yy] {
                    proof {
                        assert(!survives(self.board, self.cells@[i as int]));
                    }
                } else {
                    proof {
                        lemma_down_bounds(self.board, yy as int);
                    }
                    let ny: i32 = c.position.y - downs[yy];
                    out.push(
                        Cell {
                            position: Position { x: c.position.x, y: ny },
                            relative_position: c.relative_position,
                            tag: c.tag,
                            color_index: c.color_index,
                        },
                    );
                    proof {
                        lemma_down_bounds(self.board, yy as int);
                        assert(survives(self.board, self.cells@[i as int]));
                        assert(out@.last() == compact_cell(self.board, self.cells@[i as int]));
                    }
                }
            } else {
                out.push(c);
                proof {
                    assert(survives(self.board, self.cells@[i as int]));
                    assert(compact_cell(self.board, self.cells@[i as int]) == self.cells@[i as int]);
                }
            }
            i += 1;
        }
        proof {
            assert(self.cells@.subrange(0, n as int) =~= self.cells@);
        }
        self.cells = out;

        proof {
            lemma_cleared_cells_spec(pre_board, pre_cells);
            assert forall|j: int| 0 <= j < self.cells@.len() implies cell_wf(
                #[trigger] self.cells@[j],
            ) by {
                assert(is_compacted_survivor(pre_board, pre_cells, self.cells@[j]));
                let i0 = choose|i0: int|
                    0 <= i0 < pre_cells.len() && survives(pre_board, #[trigger] pre_cells[i0])
                        && self.cells@[j] == compact_cell(pre_board, pre_cells[i0]);
                assert(cell_wf(pre_cells[i0]));
                if pre_cells[i0].tag is Fix {
                    lemma_down_bounds(pre_board, pre_cells[i0].position.y as int);
                }
            }
        }

        // Rewrite the board so that it records exactly the surviving fixed
        // cells.
        self.board.reset();
        let m: usize = self.cells.len();
        let mut t: usize = 0;
        while t < m
            invariant
                pre_cells == old(self).cells@,
                pre_board == old(self).board,
                self.spawn_requested == old(self).spawn_requested,
                self.game_over == old(self).game_over,
                m == self.cells@.len(),
                t <= m,
                self.cells@ == cleared_cells(pre_board, pre_cells),
                forall|j: int| 0 <= j < self.cells@.len() ==> cell_wf(#[trigger] self.cells@[j]),
                self.board.wf(),
                forall|x: int, y: int|
                    0 <= x < X_LENGTH as int && 0 <= y < Y_STORE as int ==> (
                    #[trigger] self.board.occupied(x, y) <==> fixed_at_upto(
                        self.cells@,
                        t as int,
                        x,
                        y,
                    )),
            decreases m - t,
        {
            let c = self.cells[t];
            if c.tag == Tag::Fix {
                self.board.set(c.position.x, c.position.y, true);
            }
            proof {
                let tt = t as int;
                let post = self.cells@;
                assert forall|x: int, y: int|
                    0 <= x < X_LENGTH as int && 0 <= y < Y_STORE as int implies (
                self.board.occupied(x, y) <==> fixed_at_upto(post, tt + 1, x, y)) by {
                    if fixed_at_upto(post, tt + 1, x, y) {
                        let j = choose|j: int|
                            0 <= j < tt + 1 && j < post.len() && (#[trigger] post[j]).tag is Fix
                                && post[j].position.x as int == x && post[j].position.y as int
                                == y;
                        if j < tt {
                            assert(fixed_at_upto(post, tt, x, y));
                        }
                    }
                    if fixed_at_upto(post, tt, x, y) {
                        let j = choose|j: int|
                            0 <= j < tt && j < post.len() && (#[trigger] post[j]).tag is Fix
                                && post[j].position.x as int == x && post[j].position.y as int
                                == y;
                        assert(fixed_at_upto(post, tt + 1, x, y));
                    }
                    if post[tt].tag is Fix && post[tt].position.x as int == x
                        && post[tt].position.y as int == y {
                        assert(fixed_at_upto(post, tt + 1, x, y));
                    }
                }
            }
            t += 1;
        }

        proof {
            let post = self.cells@;
            lemma_cleared_cells_spec(pre_board, pre_cells);
            assert(board_matches(self.board, post));

            // The piece, if any, is untouched: free cells pass through the
            // clearing step unchanged.
            assert forall|w: int|
                0 <= w < post.len() && (#[trigger] post[w]).tag is Free implies has_free(
                pre_cells,
            ) by {
                assert(is_compacted_survivor(pre_board, pre_cells, post[w]));
                let i0 = choose|i0: int|
                    0 <= i0 < pre_cells.len() && survives(pre_board, #[trigger] pre_cells[i0])
                        && post[w] == compact_cell(pre_board, pre_cells[i0]);
                assert(pre_cells[i0].tag is Free);
            }
            if has_free(pre_cells) {
                let w = choose|w: int|
                    0 <= w < pre_cells.len() && (#[trigger] pre_cells[w]).tag is Free;
                assert(survives(pre_board, pre_cells[w]));
                assert(kept(pre_board, post, pre_cells[w]));
                let j0 = choose|j0: int|
                    0 <= j0 < post.len() && #[trigger] post[j0] == compact_cell(
                        pre_board,
                        pre_cells[w],
                    );
                assert(post[j0].tag is Free);
                assert(has_free(post));
            }
            if has_free(post) {
                let w = choose|w: int| 0 <= w < post.len() && (#[trigger] post[w]).tag is Free;
                assert(has_free(pre_cells));
            }

            // Rigidity: every free cell kept its exact old value.
            assert(rigid(post)) by {
                assert forall|a: int, b: int|
                    0 <= a < post.len() && 0 <= b < post.len() && (#[trigger] post[a]).tag is Free
                        && (#[trigger] post[b]).tag is Free implies {
                    &&& post[a].position.x - post[a].relative_position.x == post[b].position.x
                        - post[b].relative_position.x
                    &&& post[a].position.y - post[a].relative_position.y == post[b].position.y
                        - post[b].relative_position.y
                } by {
                    let ia = choose|i0: int|
                        0 <= i0 < pre_cells.len() && survives(pre_board, #[trigger] pre_cells[i0])
                            && post[a] == compact_cell(pre_board, pre_cells[i0]);
                    let ib = choose|i0: int|
                        0 <= i0 < pre_cells.len() && survives(pre_board, #[trigger] pre_cells[i0])
                            && post[b] == compact_cell(pre_board, pre_cells[i0]);
                    assert(post[a] == pre_cells[ia]);
                    assert(post[b] == pre_cells[ib]);
                }
            }

            // Every surviving fixed cell stays below the visible ceiling.
            assert forall|j: int|
                0 <= j < post.len() && (#[trigger] post[j]).tag is Fix implies (
            post[j].position.y as int) < (Y_LENGTH as int) by {
                let i0 = choose|i0: int|
                    0 <= i0 < pre_cells.len() && survives(pre_board, #[trigger] pre_cells[i0])
                        && post[j] == compact_cell(pre_board, pre_cells[i0]);
                assert(pre_cells[i0].tag is Fix);
                assert(!(pre_cells[i0].tag is Fix && pre_cells[i0].position.y as int
                    >= Y_LENGTH as int));
                lemma_down_bounds(pre_board, pre_cells[i0].position.y as int);
            }

            // No full row remains: a full row after compaction would need a
            // whole full row of survivors, and those came from one old row
            // that was itself not full.
            assert forall|r: int| 0 <= r < Y_LENGTH as int implies !self.board.row_full(r) by {
                if self.board.row_full(r) {
                    assert(self.board.occupied(0, r));
                    assert(fixed_at(post, 0, r));
                    let j0 = choose|j: int|
                        0 <= j < post.len() && j < post.len() && (#[trigger] post[j]).tag is Fix
                            && post[j].position.x as int == 0 && post[j].position.y as int == r;
                    let i0 = choose|i0: int|
                        0 <= i0 < pre_cells.len() && survives(pre_board, #[trigger] pre_cells[i0])
                            && post[j0] == compact_cell(pre_board, pre_cells[i0]);
                    assert(pre_cells[i0].tag is Fix);
                    let y0 = pre_cells[i0].position.y as int;
                    assert(!pre_board.row_full(y0));
                    lemma_down_bounds(pre_board, y0);
                    assert(r == y0 - down_count(pre_board, y0));
                    assert(0 <= y0 < Y_STORE as int);
                    assert forall|x: int| 0 <= x < X_LENGTH as int implies pre_board.occupied(
                        x,
                        y0,
                    ) by {
                        assert(self.board.occupied(x, r));
                        assert(fixed_at(post, x, r));
                        let jx = choose|j: int|
                            0 <= j < post.len() && j < post.len() && (#[trigger] post[j]).tag is Fix
                                && post[j].position.x as int == x && post[j].position.y as int
                                == r;
                        let ix = choose|i0: int|
                            0 <= i0 < pre_cells.len() && survives(
                                pre_board,
                                #[trigger] pre_cells[i0],
                            ) && post[jx] == compact_cell(pre_board, pre_cells[i0]);
                        assert(pre_cells[ix].tag is Fix);
                        let yx = pre_cells[ix].position.y as int;
                        assert(!pre_board.row_full(yx));
                        lemma_down_bounds(pre_board, yx);
                        assert(r == yx - down_count(pre_board, yx));
                        if yx < y0 {
                            lemma_compaction_preserves_order(pre_board, yx, y0);
                            assert(false);
                        }
                        if y0 < yx {
                            lemma_compaction_preserves_order(pre_board, y0, yx);
                            assert(false);
                        }
                        assert(pre_cells[ix].position.x as int == x);
                        assert(fixed_at_upto(pre_cells, pre_cells.len() as int, x, y0));
                        assert(pre_board.occupied(x, y0));
                    }
                    assert(pre_board.row_full(y0));
                    assert(false);
                }
            }
        }
    }

    /// Advances the simulation one frame: the gravity/lock step, then line
    /// clearing, then game-over handling, then any pending spawn, in that
    /// fixed order. An event raised by one step is consumed by a later step
    /// of the same call, so after a tick no event is left pending, every
    /// fixed cell lies inside the visible rows, and no visible row is full.
    ///
    /// The contract gives the whole transition: on a game-over the state is
    /// wiped and only a fresh piece remains; otherwise the piece locks or
    /// falls and the full rows clear (`tick_settled_cells`), and exactly
    /// when the tick locked the piece or a spawn request was pending, four
    /// fresh cells are appended — so without a pending event and with the
    /// piece in mid-air, a tick spawns nothing, wipes nothing, and only
    /// moves the piece one row down.
    pub fn tick(&mut self)
        requires
            old(self).wf(),
        ensures
            final(self).wf(),
            !final(self).spawn_requested,
            !final(self).game_over,
            forall|i: int|
                0 <= i < final(self).cells@.len() && (#[trigger] final(self).cells@[i]).tag is Fix ==> (final(self).cells@[i].position.y as int) < (
                Y_LENGTH as int),
            forall|y: int| 0 <= y < Y_LENGTH as int ==> !final(self).board.row_full(y),
            tick_ends_game(*old(self)) ==> {
                &&& forall|x: int, y: int| !final(self).board.occupied(x, y)
                &&& final(self).cells@.len() == 4
                &&& exists|k: int, color: int|
                    0 <= k < BLOCK_PATTERN_COUNT as int && 0 <= color < COLOR_COUNT as int
                        && spawned_shape(final(self).cells@, 0, k, color)
            },
            !tick_ends_game(*old(self)) && !old(self).any_grounded() && !old(
                self,
            ).spawn_requested ==> final(self).cells@ == tick_settled_cells(*old(self)),
            !tick_ends_game(*old(self)) && (old(self).any_grounded() || old(
                self,
            ).spawn_requested) ==> {
                &&& final(self).cells@.len() == tick_settled_cells(*old(self)).len() + 4
                &&& final(self).cells@.subrange(0, tick_settled_cells(*old(self)).len() as int)
                    == tick_settled_cells(*old(self))
                &&& exists|k: int, color: int|
                    0 <= k < BLOCK_PATTERN_COUNT as int && 0 <= color < COLOR_COUNT as int
                        && spawned_shape(
                        final(self).cells@,
                        tick_settled_cells(*old(self)).len() as int,
                        k,
                        color,
                    )
            },
    {
        let ghost g0 = *old(self);
        self.fall();
        proof {
            if g0.any_grounded() {
                assert forall|i: int| 0 <= i < self.cells@.len() implies self.cells@[i]
                    == locked_cells(g0.cells@)[i] by {
                    assert(self.cells@[i] == locked_cell(g0.cells@[i]));
                }
                assert(self.cells@ =~= locked_cells(g0.cells@));
            } else {
                assert forall|i: int| 0 <= i < self.cells@.len() implies self.cells@[i]
                    == fallen_cells(g0.cells@)[i] by {
                    assert(moved_cell(g0.cells@[i], self.cells@[i], 0, -1));
                    if g0.cells@[i].tag is Free {
                        assert(!(g0.cells@[i].tag is Free && cell_grounded(
                            g0.board,
                            g0.cells@[i],
                        )));
                        assert(cell_wf(g0.cells@[i]));
                    }
                }
                assert(self.cells@ =~= fallen_cells(g0.cells@));
            }
        }
        let ghost mid1 = *self;
        self.delete_line();
        proof {
            assert(self.game_over == tick_ends_game(g0));
            if !tick_ends_game(g0) {
                if g0.any_grounded() {
                    assert forall|i: int|
                        0 <= i < locked_cells(g0.cells@).len() implies cell_wf(
                        #[trigger] locked_cells(g0.cells@)[i],
                    ) by {
                        assert(locked_cells(g0.cells@)[i] == locked_cell(g0.cells@[i]));
                        assert(cell_wf(g0.cells@[i]));
                    }
                    assert forall|x: int, yy: int|
                        0 <= x < X_LENGTH as int && 0 <= yy < Y_STORE as int implies (
                    mid1.board.occupied(x, yy) <==> lock_occ(g0, x, yy)) by {}
                    lemma_lock_cleared_eq(g0, mid1.board, locked_cells(g0.cells@));
                }
                assert(self.cells@ == tick_settled_cells(g0));
            }
        }
        if self.game_over {
            self.gameover();
            proof {
                assert forall|y: int| 0 <= y < Y_LENGTH as int implies !self.board.row_full(
                    y,
                ) by {
                    assert(!self.board.occupied(0, y));
                }
            }
        }
        let ghost mid = *self;
        proof {
            assert forall|i: int|
                0 <= i < mid.cells@.len() && (#[trigger] mid.cells@[i]).tag is Fix implies (
            mid.cells@[i].position.y as int) < (Y_LENGTH as int) by {}
            assert forall|y: int| 0 <= y < Y_LENGTH as int implies !mid.board.row_full(y) by {}
        }
        if self.spawn_requested {
            self.spawn_requested = false;
            self.spawn_block();
            proof {
                let base = mid.cells@.len() as int;
                assert(self.cells@.subrange(0, base) =~= mid.cells@);
                assert forall|i: int|
                    0 <= i < self.cells@.len() && (#[trigger] self.cells@[i]).tag is Fix implies (
                self.cells@[i].position.y as int) < (Y_LENGTH as int) by {
                    if i >= base {
                        let mm = i - base;
                        assert(self.cells@[base + mm].tag is Free);
                    }
                }
            }
        }
    }
}

} // verus!
