use snake_sim::game::{
    pos_index, Cell, Dir, GameState, Key, Pos, GRID_H, GRID_W, TICK_PERIOD_MICROS,
};

fn pos(x: usize, y: usize) -> Pos {
    Pos { x, y }
}

fn cell_at(s: &GameState, x: usize, y: usize) -> Option<Cell> {
    s.board[pos_index(pos(x, y))]
}

fn count_kind(s: &GameState, c: Cell) -> usize {
    s.board.iter().filter(|cell| **cell == Some(c)).count()
}

fn assert_grid_invariant(s: &GameState) {
    assert_eq!(count_kind(s, Cell::Head), 1);
    assert_eq!(count_kind(s, Cell::Apple), 1);
    assert_eq!(count_kind(s, Cell::Tail), s.tail.len());
}

#[test]
fn simple_move() {
    let mut s = GameState::from_parts(pos(10, 10), pos(5, 5), vec![]).unwrap();
    assert!(s.input(Key::Right));
    let score = s.update(TICK_PERIOD_MICROS + 1);
    assert_eq!(score, None);
    assert_eq!(s.snake_pos, pos(11, 10));
    assert_eq!(cell_at(&s, 10, 10), None);
    assert_eq!(cell_at(&s, 11, 10), Some(Cell::Head));
    assert_eq!(s.dir, Dir { dx: 1, dy: 0 });
    assert!(s.tail.is_empty());
    assert_grid_invariant(&s);
}

#[test]
fn apple_growth() {
    let mut s = GameState::from_parts(pos(4, 5), pos(5, 5), vec![]).unwrap();
    assert!(s.input(Key::Right));
    let score = s.update(TICK_PERIOD_MICROS + 1);
    assert_eq!(score, None);
    assert_eq!(s.snake_pos, pos(5, 5));
    assert_eq!(s.tail, vec![pos(4, 5)]);
    assert!(s.apple_pos.x < GRID_W && s.apple_pos.y < GRID_H);
    assert_ne!(s.apple_pos, pos(5, 5));
    assert_ne!(s.apple_pos, pos(4, 5));
    assert_eq!(cell_at(&s, 5, 5), Some(Cell::Head));
    assert_eq!(cell_at(&s, 4, 5), Some(Cell::Tail));
    assert_grid_invariant(&s);
}

#[test]
fn out_of_bounds_reset() {
    let mut s = GameState::from_parts(pos(19, 10), pos(5, 5), vec![pos(18, 10), pos(17, 10)])
        .unwrap();
    assert!(s.input(Key::Right));
    let score = s.update(TICK_PERIOD_MICROS + 1);
    assert_eq!(score, Some(2));
    assert!(s.tail.is_empty());
    assert_eq!(s.dir, Dir { dx: 0, dy: 0 });
    assert_grid_invariant(&s);
}

#[test]
fn self_collision_reset() {
    let tail = vec![pos(10, 9), pos(11, 9), pos(11, 10)];
    let mut s = GameState::from_parts(pos(10, 10), pos(5, 5), tail).unwrap();
    assert!(s.input(Key::Right));
    let score = s.update(TICK_PERIOD_MICROS + 1);
    assert_eq!(score, Some(3));
    assert!(s.tail.is_empty());
    assert_eq!(s.dir, Dir { dx: 0, dy: 0 });
    assert_grid_invariant(&s);
}

#[test]
fn tail_shift_register() {
    let tail = vec![pos(9, 10), pos(8, 10)];
    let mut s = GameState::from_parts(pos(10, 10), pos(5, 5), tail).unwrap();
    assert!(s.input(Key::Right));
    let score = s.update(TICK_PERIOD_MICROS + 1);
    assert_eq!(score, None);
    assert_eq!(s.snake_pos, pos(11, 10));
    assert_eq!(s.tail, vec![pos(10, 10), pos(9, 10)]);
    assert_eq!(cell_at(&s, 8, 10), None);
    assert_grid_invariant(&s);
}

#[test]
fn reversal_guard() {
    let mut s = GameState::from_parts(pos(10, 10), pos(5, 5), vec![]).unwrap();
    // Before the game starts the committed heading is zero, so any key is
    // accepted, including one that a later reversal guard would refuse.
    assert!(s.input(Key::Left));
    assert_eq!(s.input_dir, Dir { dx: -1, dy: 0 });
    assert!(s.input(Key::Right));
    assert_eq!(s.input_dir, Dir { dx: 1, dy: 0 });
    s.update(TICK_PERIOD_MICROS + 1);
    assert_eq!(s.dir, Dir { dx: 1, dy: 0 });
    // Now the committed heading is (1,0): its exact opposite is ignored.
    assert!(s.input(Key::Left));
    assert_eq!(s.input_dir, Dir { dx: 1, dy: 0 });
    // A perpendicular change is accepted.
    assert!(s.input(Key::Up));
    assert_eq!(s.input_dir, Dir { dx: 0, dy: 1 });
}

#[test]
fn no_move_before_first_input() {
    let mut s = GameState::from_parts(pos(10, 10), pos(5, 5), vec![]).unwrap();
    let score = s.update(TICK_PERIOD_MICROS + 1);
    assert_eq!(score, None);
    assert_eq!(s.snake_pos, pos(10, 10));
    // The tick period was still consumed; only the surplus carries forward.
    assert_eq!(s.tick, 1);
}

#[test]
fn tick_accumulator_carries_surplus() {
    let mut s = GameState::from_parts(pos(10, 10), pos(5, 5), vec![]).unwrap();
    assert!(s.input(Key::Right));
    s.update(40_000);
    assert_eq!(s.snake_pos, pos(10, 10));
    assert_eq!(s.tick, 40_000);
    s.update(40_000);
    assert_eq!(s.snake_pos, pos(11, 10));
    assert_eq!(s.tick, 80_000 - TICK_PERIOD_MICROS);
}

#[test]
fn tick_accumulator_saturates() {
    let mut s = GameState::from_parts(pos(10, 10), pos(5, 5), vec![]).unwrap();
    s.update(u64::MAX);
    assert_eq!(s.tick, u64::MAX - TICK_PERIOD_MICROS);
    s.update(u64::MAX);
    assert_eq!(s.tick, u64::MAX - TICK_PERIOD_MICROS);
    assert_eq!(s.snake_pos, pos(10, 10));
}

#[test]
fn new_game_is_valid() {
    for _ in 0..50 {
        let s = GameState::new();
        assert!(s.snake_pos.x < GRID_W && s.snake_pos.y < GRID_H);
        assert!(s.apple_pos.x < GRID_W && s.apple_pos.y < GRID_H);
        assert_ne!(s.snake_pos, s.apple_pos);
        assert!(s.tail.is_empty());
        assert_eq!(s.dir, Dir { dx: 0, dy: 0 });
        assert_eq!(s.input_dir, Dir { dx: 0, dy: 0 });
        assert_eq!(s.tick, 0);
        assert_eq!(s.board.len(), GRID_W * GRID_H);
        assert_grid_invariant(&s);
    }
}

#[test]
fn growth_apples_stay_fresh() {
    // Eat several apples in a row by steering toward each fresh apple; after
    // every growth the new apple must avoid every snake cell.
    let mut s = GameState::from_parts(pos(4, 5), pos(5, 5), vec![]).unwrap();
    assert!(s.input(Key::Right));
    for _ in 0..5 {
        let target = s.apple_pos;
        // Walk to the apple's column, then to its row, one tick at a time.
        let mut guard = 0;
        while s.snake_pos != target {
            let head = s.snake_pos;
            let key = if head.x < target.x && s.dir.dx != -1 {
                Key::Right
            } else if head.x > target.x && s.dir.dx != 1 {
                Key::Left
            } else if head.y < target.y && s.dir.dy != -1 {
                Key::Up
            } else {
                Key::Down
            };
            s.input(key);
            let score = s.update(TICK_PERIOD_MICROS + 1);
            if score.is_some() {
                // The greedy walk ran into the tail and the game reset;
                // freshness of later apples is still being checked.
                break;
            }
            guard += 1;
            assert!(guard < 200, "walk did not terminate");
        }
        assert_ne!(s.apple_pos, s.snake_pos);
        assert!(!s.tail.contains(&s.apple_pos));
        assert_grid_invariant(&s);
    }
}

#[test]
fn from_parts_rejects_bad_layouts() {
    // Head out of bounds.
    assert!(GameState::from_parts(pos(GRID_W, 0), pos(5, 5), vec![]).is_none());
    // Apple out of bounds.
    assert!(GameState::from_parts(pos(0, 0), pos(0, GRID_H), vec![]).is_none());
    // Apple on the head.
    assert!(GameState::from_parts(pos(3, 3), pos(3, 3), vec![]).is_none());
    // Tail segment on the head.
    assert!(GameState::from_parts(pos(3, 3), pos(5, 5), vec![pos(3, 3)]).is_none());
    // Tail segment on the apple.
    assert!(GameState::from_parts(pos(3, 3), pos(5, 5), vec![pos(5, 5)]).is_none());
    // Duplicate tail segments.
    assert!(
        GameState::from_parts(pos(3, 3), pos(5, 5), vec![pos(4, 4), pos(4, 4)]).is_none()
    );
    // A valid layout is accepted.
    assert!(GameState::from_parts(pos(3, 3), pos(5, 5), vec![pos(4, 4)]).is_some());
}
