use tetris_core::board::Board;
use tetris_core::constraint::{COLOR_COUNT, X_LENGTH, Y_LENGTH, Y_STORE};
use tetris_core::game::Game;
use tetris_core::piece::{block_offsets, next_block, Position, RelativePosition, Tag};
use tetris_core::rng::random_below;

fn catalog() -> Vec<Vec<(i32, i32)>> {
    vec![
        vec![(0, 0), (0, -1), (0, 1), (0, 2)],
        vec![(0, 0), (0, -1), (0, 1), (-1, 1)],
        vec![(0, 0), (0, -1), (0, 1), (1, 1)],
        vec![(0, 0), (0, -1), (1, 0), (1, 1)],
        vec![(0, 0), (1, 0), (0, 1), (1, -1)],
        vec![(0, 0), (0, 1), (1, 0), (1, 1)],
        vec![(0, 0), (-1, 0), (1, 0), (0, 1)],
    ]
}

#[test]
fn constants_match_the_field() {
    assert_eq!(X_LENGTH, 10);
    assert_eq!(Y_LENGTH, 18);
    assert!(Y_STORE > Y_LENGTH);
    assert_eq!(COLOR_COUNT, 6);
}

#[test]
fn board_set_and_read_back() {
    let mut b = Board::new();
    for x in 0..X_LENGTH as i32 {
        for y in 0..Y_STORE as i32 {
            assert!(!b.is_occupied(x, y));
        }
    }
    b.set(3, 5, true);
    assert!(b.is_occupied(3, 5));
    assert!(!b.is_occupied(5, 3));
    assert!(!b.is_occupied(2, 5));
    b.set(3, 5, false);
    assert!(!b.is_occupied(3, 5));
}

#[test]
fn board_reset_clears_everything() {
    let mut b = Board::new();
    b.set(0, 0, true);
    b.set(9, 17, true);
    b.reset();
    for x in 0..X_LENGTH as i32 {
        for y in 0..Y_STORE as i32 {
            assert!(!b.is_occupied(x, y));
        }
    }
}

#[test]
fn row_is_full_exact() {
    let mut b = Board::new();
    for x in 0..X_LENGTH as i32 {
        b.set(x, 0, true);
    }
    assert!(b.row_is_full(0));
    assert!(!b.row_is_full(1));
    b.set(4, 0, false);
    assert!(!b.row_is_full(0));
}

#[test]
fn block_offsets_match_catalog() {
    let expected = catalog();
    for k in 0..7 {
        assert_eq!(block_offsets(k), expected[k]);
    }
}

#[test]
fn next_block_draws_a_catalog_shape() {
    let expected = catalog();
    for _ in 0..100 {
        let v = next_block();
        assert_eq!(v.len(), 4);
        assert_eq!(v[0], (0, 0));
        assert!(expected.iter().any(|p| *p == v));
    }
}

#[test]
fn random_below_stays_below() {
    for _ in 0..200 {
        assert!(random_below(7) < 7);
        assert!(random_below(1) == 0);
    }
}

#[test]
fn spawn_i_shape_default_offsets() {
    let mut g = Game::new();
    g.spawn_requested = false;
    g.spawn_block_from(0, 2);
    assert_eq!(g.cells.len(), 4);
    let want = vec![(5, 17), (5, 16), (5, 18), (5, 19)];
    for (m, c) in g.cells.iter().enumerate() {
        assert_eq!((c.position.x, c.position.y), want[m]);
        assert_eq!(c.tag, Tag::Free);
        assert_eq!(c.color_index, 2);
    }
    assert_eq!(
        (g.cells[0].relative_position.x, g.cells[0].relative_position.y),
        (0, 0)
    );
}

#[test]
fn spawn_block_random_shape_is_anchored() {
    let mut g = Game::new();
    g.spawn_requested = false;
    g.spawn_block();
    assert_eq!(g.cells.len(), 4);
    let color = g.cells[0].color_index;
    assert!(color < COLOR_COUNT);
    for c in g.cells.iter() {
        assert_eq!(c.tag, Tag::Free);
        assert_eq!(c.color_index, color);
        assert_eq!(c.position.x - c.relative_position.x, 5);
        assert_eq!(c.position.y - c.relative_position.y, 17);
    }
}

#[test]
fn spawn_block_element_appends_one_free_cell() {
    let mut g = Game::new();
    g.spawn_requested = false;
    g.spawn_block_element(
        1,
        Position { x: 4, y: 10 },
        RelativePosition { x: 0, y: 0 },
    );
    assert_eq!(g.cells.len(), 1);
    assert_eq!(g.cells[0].position, Position { x: 4, y: 10 });
    assert_eq!(g.cells[0].tag, Tag::Free);
}
