use tetris_core::constraint::{X_LENGTH, Y_LENGTH};
use tetris_core::game::Game;
use tetris_core::piece::{Cell, Position, RelativePosition, Tag};

fn free_cell(x: i32, y: i32, rx: i32, ry: i32) -> Cell {
    Cell {
        position: Position { x, y },
        relative_position: RelativePosition { x: rx, y: ry },
        tag: Tag::Free,
        color_index: 0,
    }
}

fn put_fixed(g: &mut Game, x: i32, y: i32) {
    g.board.set(x, y, true);
    g.cells.push(Cell {
        position: Position { x, y },
        relative_position: RelativePosition { x: 0, y: 0 },
        tag: Tag::Fix,
        color_index: 0,
    });
}

fn fresh() -> Game {
    let mut g = Game::new();
    g.spawn_requested = false;
    g
}

#[test]
fn move_left_rejected_at_wall() {
    let mut g = fresh();
    g.cells.push(free_cell(0, 5, 0, 0));
    g.cells.push(free_cell(0, 6, 0, 1));
    let applied = g.move_left();
    assert!(!applied);
    assert_eq!(g.cells[0].position, Position { x: 0, y: 5 });
    assert_eq!(g.cells[1].position, Position { x: 0, y: 6 });
}

#[test]
fn move_right_rejected_at_wall() {
    let mut g = fresh();
    g.cells.push(free_cell(X_LENGTH as i32 - 1, 5, 0, 0));
    assert!(!g.move_right());
    assert_eq!(g.cells[0].position, Position { x: 9, y: 5 });
    let mut g2 = fresh();
    g2.cells.push(free_cell(X_LENGTH as i32 - 2, 5, 0, 0));
    assert!(g2.move_right());
    assert_eq!(g2.cells[0].position, Position { x: 9, y: 5 });
}

#[test]
fn horizontal_move_blocked_by_occupancy_is_atomic() {
    let mut g = fresh();
    put_fixed(&mut g, 4, 5);
    g.cells.push(free_cell(5, 5, 0, 0));
    g.cells.push(free_cell(5, 6, 0, 1));
    assert!(!g.move_left());
    assert_eq!(g.cells[1].position, Position { x: 5, y: 5 });
    assert_eq!(g.cells[2].position, Position { x: 5, y: 6 });
    assert!(g.move_right());
    assert_eq!(g.cells[1].position, Position { x: 6, y: 5 });
    assert_eq!(g.cells[2].position, Position { x: 6, y: 6 });
}

#[test]
fn fall_moves_the_piece_one_row_down() {
    let mut g = fresh();
    g.cells.push(free_cell(3, 5, 0, 0));
    g.cells.push(free_cell(3, 6, 0, 1));
    g.fall();
    assert_eq!(g.cells[0].position, Position { x: 3, y: 4 });
    assert_eq!(g.cells[1].position, Position { x: 3, y: 5 });
    assert_eq!(g.cells[0].tag, Tag::Free);
    assert!(!g.spawn_requested);
}

#[test]
fn fall_locks_a_grounded_piece() {
    let mut g = fresh();
    g.cells.push(free_cell(3, 0, 0, 0));
    g.cells.push(free_cell(3, 1, 0, 1));
    g.fall();
    assert_eq!(g.cells[0].tag, Tag::Fix);
    assert_eq!(g.cells[1].tag, Tag::Fix);
    assert_eq!(g.cells[0].position, Position { x: 3, y: 0 });
    assert_eq!(g.cells[1].position, Position { x: 3, y: 1 });
    assert!(g.board.is_occupied(3, 0));
    assert!(g.board.is_occupied(3, 1));
    assert!(g.spawn_requested);
}

#[test]
fn fall_locks_on_top_of_a_fixed_cell() {
    let mut g = fresh();
    put_fixed(&mut g, 5, 3);
    g.cells.push(free_cell(5, 4, 0, 0));
    g.fall();
    assert_eq!(g.cells[1].tag, Tag::Fix);
    assert_eq!(g.cells[1].position, Position { x: 5, y: 4 });
    assert!(g.board.is_occupied(5, 4));
}

#[test]
fn hard_drop_slams_to_the_floor() {
    let mut g = fresh();
    g.spawn_block_from(0, 0);
    let d = g.hard_drop();
    assert_eq!(d, 16);
    let want = vec![(5, 1), (5, 0), (5, 2), (5, 3)];
    for (m, c) in g.cells.iter().enumerate() {
        assert_eq!((c.position.x, c.position.y), want[m]);
        assert_eq!(c.tag, Tag::Free);
    }
    g.fall();
    for c in g.cells.iter() {
        assert_eq!(c.tag, Tag::Fix);
    }
    assert!(g.board.is_occupied(5, 0));
    assert!(g.board.is_occupied(5, 3));
}

#[test]
fn hard_drop_rests_on_a_stack() {
    let mut g = fresh();
    put_fixed(&mut g, 5, 3);
    g.spawn_block_from(0, 0);
    let d = g.hard_drop();
    assert_eq!(d, 12);
    assert_eq!(g.cells[1].position, Position { x: 5, y: 5 });
    assert_eq!(g.cells[2].position, Position { x: 5, y: 4 });
    assert_eq!(g.cells[3].position, Position { x: 5, y: 6 });
    assert_eq!(g.cells[4].position, Position { x: 5, y: 7 });
}

#[test]
fn rotation_four_times_is_identity() {
    let mut g = fresh();
    g.spawn_block_from(0, 0);
    for _ in 0..5 {
        g.fall();
    }
    let before: Vec<Cell> = g.cells.clone();
    for _ in 0..4 {
        assert!(g.rotate());
    }
    assert_eq!(g.cells, before);
}

#[test]
fn rotation_rejected_is_atomic() {
    let mut g = fresh();
    // A vertical bar hugging the left wall: its quarter turn would reach
    // x = -1, so the whole turn must be refused.
    g.cells.push(free_cell(0, 5, 0, 0));
    g.cells.push(free_cell(0, 6, 0, 1));
    g.cells.push(free_cell(0, 4, 0, -1));
    let before: Vec<Cell> = g.cells.clone();
    assert!(!g.rotate());
    assert_eq!(g.cells, before);
}

#[test]
fn full_bottom_row_clears_and_cell_above_drops() {
    let mut g = fresh();
    for x in 0..X_LENGTH as i32 {
        put_fixed(&mut g, x, 0);
    }
    put_fixed(&mut g, 3, 5);
    g.delete_line();
    assert!(!g.game_over);
    assert_eq!(g.cells.len(), 1);
    assert_eq!(g.cells[0].position, Position { x: 3, y: 4 });
    assert!(g.board.is_occupied(3, 4));
    assert!(!g.board.is_occupied(3, 5));
    for x in 0..X_LENGTH as i32 {
        assert!(!g.board.is_occupied(x, 0));
    }
}

#[test]
fn clearing_twice_changes_nothing_more() {
    let mut g = fresh();
    for x in 0..X_LENGTH as i32 {
        put_fixed(&mut g, x, 0);
    }
    put_fixed(&mut g, 3, 5);
    put_fixed(&mut g, 7, 2);
    g.delete_line();
    for y in 0..Y_LENGTH as i32 {
        assert!(!g.board.row_is_full(y));
    }
    let after_once: Vec<Cell> = g.cells.clone();
    g.delete_line();
    assert_eq!(g.cells, after_once);
}

#[test]
fn compaction_preserves_vertical_order() {
    let mut g = fresh();
    for x in 0..X_LENGTH as i32 {
        put_fixed(&mut g, x, 0);
        put_fixed(&mut g, x, 2);
    }
    put_fixed(&mut g, 0, 1);
    put_fixed(&mut g, 1, 3);
    g.delete_line();
    assert_eq!(g.cells.len(), 2);
    assert_eq!(g.cells[0].position, Position { x: 0, y: 0 });
    assert_eq!(g.cells[1].position, Position { x: 1, y: 1 });
    assert!(g.board.is_occupied(0, 0));
    assert!(g.board.is_occupied(1, 1));
}

#[test]
fn fixed_cell_above_ceiling_ends_and_resets_the_game() {
    let mut g = fresh();
    put_fixed(&mut g, 4, Y_LENGTH as i32);
    put_fixed(&mut g, 4, 10);
    g.tick();
    assert!(!g.game_over);
    assert!(!g.spawn_requested);
    for x in 0..X_LENGTH as i32 {
        for y in 0..25 {
            assert!(!g.board.is_occupied(x, y));
        }
    }
    // the reset immediately spawned a fresh piece
    assert_eq!(g.cells.len(), 4);
    for c in g.cells.iter() {
        assert_eq!(c.tag, Tag::Free);
    }
}

#[test]
fn tick_with_piece_in_mid_air_only_moves_it_down() {
    let mut g = fresh();
    g.spawn_block_from(0, 0);
    g.tick();
    // no event was pending and nothing was grounded: no spawn, no reset,
    // just one row of descent
    assert_eq!(g.cells.len(), 4);
    let want = vec![(5, 16), (5, 15), (5, 17), (5, 18)];
    for (m, c) in g.cells.iter().enumerate() {
        assert_eq!((c.position.x, c.position.y), want[m]);
        assert_eq!(c.tag, Tag::Free);
    }
    assert!(!g.spawn_requested);
    assert!(!g.game_over);
}

#[test]
fn tick_that_locks_spawns_the_next_piece() {
    let mut g = fresh();
    g.cells.push(free_cell(3, 0, 0, 0));
    g.tick();
    assert_eq!(g.cells.len(), 5);
    assert_eq!(g.cells[0].tag, Tag::Fix);
    assert_eq!(g.cells[0].position, Position { x: 3, y: 0 });
    assert!(g.board.is_occupied(3, 0));
    for c in g.cells.iter().skip(1) {
        assert_eq!(c.tag, Tag::Free);
    }
    assert!(!g.spawn_requested);
}

#[test]
fn first_tick_spawns_the_first_piece() {
    let mut g = Game::new();
    g.tick();
    assert_eq!(g.cells.len(), 4);
    for c in g.cells.iter() {
        assert_eq!(c.tag, Tag::Free);
    }
    assert!(!g.spawn_requested);
    assert!(!g.game_over);
}

#[test]
fn board_matches_fixed_cells_after_every_tick() {
    let mut g = Game::new();
    for _ in 0..40 {
        g.tick();
        for x in 0..X_LENGTH as i32 {
            for y in 0..25 {
                let fixed_here = g.cells.iter().any(|c| {
                    c.tag == Tag::Fix && c.position.x == x && c.position.y == y
                });
                assert_eq!(g.board.is_occupied(x, y), fixed_here);
            }
        }
    }
}

#[test]
fn gameover_handler_wipes_the_state() {
    let mut g = fresh();
    put_fixed(&mut g, 2, 2);
    g.game_over = true;
    g.gameover();
    assert_eq!(g.cells.len(), 0);
    assert!(!g.game_over);
    assert!(g.spawn_requested);
    assert!(!g.board.is_occupied(2, 2));
}
