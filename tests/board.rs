use gravity_grid::block::{Block, BlockState, ROW_HEIGHT, SETTLE_THRESHOLD_MS};
use gravity_grid::board::Board;
use gravity_grid::resolution::BlockMove;
use gravity_grid::timer::BoardTimer;

fn find(board: &Board, id: u64) -> Option<Block> {
    board.all_blocks().iter().copied().find(|b| b.id == id)
}

fn at(board: &Board, x: i32, y: i32) -> Vec<Block> {
    board.all_blocks().iter().copied().filter(|b| b.x == x && b.y == y && b.state != BlockState::Removed).collect()
}

#[test]
fn grid_has_one_block_per_cell() {
    let board = Board::initialize_grid(5, 10);
    assert_eq!(board.len(), 50);
    for y in 0..5 {
        for x in 0..10 {
            let here = at(&board, x, y);
            assert_eq!(here.len(), 1);
            assert_eq!(here[0].state, BlockState::Normal);
            assert_eq!(here[0].id, (y * 10 + x) as u64);
        }
    }
    for b in board.all_blocks() {
        assert!(0 <= b.x && b.x < 10 && 0 <= b.y && b.y < 5);
    }
}

#[test]
fn grid_without_rows_or_columns_is_empty() {
    assert_eq!(Board::initialize_grid(0, 10).len(), 0);
    assert_eq!(Board::initialize_grid(4, 0).len(), 0);
    assert_eq!(Board::initialize_grid(-3, 2).len(), 0);
    assert_eq!(Board::initialize_grid(1, 1).len(), 1);
}

#[test]
fn remove_signal_marks_first_normal_block_only() {
    let mut board = Board::initialize_grid(2, 3);
    assert_eq!(board.on_remove_signal(), Some(0));
    let removed: Vec<u64> = board.all_blocks().iter().filter(|b| b.state == BlockState::Removed).map(|b| b.id).collect();
    assert_eq!(removed, vec![0]);
    assert_eq!(board.on_remove_signal(), Some(1));
    let removed_count = board.all_blocks().iter().filter(|b| b.state == BlockState::Removed).count();
    assert_eq!(removed_count, 2);
}

#[test]
fn remove_signal_without_eligible_block_changes_nothing() {
    let mut empty = Board::initialize_grid(0, 0);
    assert_eq!(empty.on_remove_signal(), None);
    assert_eq!(empty.len(), 0);

    let mut board = Board::initialize_grid(1, 2);
    assert_eq!(board.on_remove_signal(), Some(0));
    assert_eq!(board.on_remove_signal(), Some(1));
    let before: Vec<Block> = board.all_blocks().clone();
    assert_eq!(board.on_remove_signal(), None);
    assert_eq!(board.all_blocks(), &before);
}

#[test]
fn remove_signal_skips_falling_blocks() {
    let mut board = Board::initialize_grid(3, 1);
    assert_eq!(board.remove_at(0, 0), Some(0));
    board.tick_propagation();
    board.reap();
    // Both remaining blocks fall now: nothing is eligible.
    assert_eq!(board.on_remove_signal(), None);
}

#[test]
fn remove_at_targets_the_cell() {
    let mut board = Board::initialize_grid(5, 10);
    assert_eq!(board.remove_at(3, 2), Some(23));
    assert_eq!(find(&board, 23).unwrap().state, BlockState::Removed);
    assert_eq!(board.remove_at(3, 2), None);
    assert_eq!(board.remove_at(10, 0), None);
    assert_eq!(board.remove_at(-1, -1), None);
}

#[test]
fn propagation_marks_blocks_above_in_column_only() {
    let mut board = Board::initialize_grid(4, 3);
    board.remove_at(1, 1);
    board.tick_propagation();
    for b in board.all_blocks() {
        let expected = if b.x == 1 && b.y == 1 {
            BlockState::Removed
        } else if b.x == 1 && b.y > 1 {
            BlockState::Falling { settle_timer: 0 }
        } else {
            BlockState::Normal
        };
        assert_eq!(b.state, expected, "block at ({}, {})", b.x, b.y);
    }
}

#[test]
fn propagation_keeps_timer_of_falling_block() {
    let mut board = Board::initialize_grid(3, 1);
    board.remove_at(0, 0);
    board.tick_propagation();
    board.tick_resolution(100);
    assert_eq!(find(&board, 2).unwrap().state, BlockState::Falling { settle_timer: 100 });
    board.tick_propagation();
    assert_eq!(find(&board, 2).unwrap().state, BlockState::Falling { settle_timer: 100 });
}

#[test]
fn settling_block_accumulates_time_without_moving() {
    let mut board = Board::initialize_grid(2, 1);
    board.remove_at(0, 0);
    board.tick_propagation();
    board.reap();
    let moves = board.tick_resolution(SETTLE_THRESHOLD_MS);
    assert!(moves.is_empty());
    let b = find(&board, 1).unwrap();
    assert_eq!((b.x, b.y), (0, 1));
    // Exactly at the threshold the block still waits.
    assert_eq!(b.state, BlockState::Falling { settle_timer: 300 });
    let moves = board.tick_resolution(5);
    assert!(moves.is_empty());
    assert_eq!(find(&board, 1).unwrap().state, BlockState::Falling { settle_timer: 305 });
}

#[test]
fn unblocked_block_steps_down_one_row() {
    let mut board = Board::initialize_grid(2, 1);
    board.remove_at(0, 0);
    board.tick_propagation();
    board.reap();
    board.tick_resolution(310);
    let moves = board.tick_resolution(16);
    assert_eq!(moves, vec![BlockMove { id: 1, x: 0, y: 0, dy: -32 }]);
    assert_eq!(moves[0].dy, -ROW_HEIGHT);
    let b = find(&board, 1).unwrap();
    assert_eq!((b.x, b.y), (0, 0));
    assert_eq!(b.state, BlockState::Falling { settle_timer: 0 });
}

#[test]
fn grounded_block_stops_falling() {
    let mut board = Board::initialize_grid(2, 1);
    board.remove_at(0, 0);
    board.tick_propagation();
    board.reap();
    board.tick_resolution(310);
    board.tick_resolution(16);
    board.tick_resolution(310);
    let moves = board.tick_resolution(16);
    assert!(moves.is_empty());
    let b = find(&board, 1).unwrap();
    assert_eq!((b.x, b.y), (0, 0));
    assert_eq!(b.state, BlockState::Normal);
}

#[test]
fn blocked_block_stays_and_keeps_falling() {
    let mut board = Board::initialize_grid(3, 1);
    board.remove_at(0, 1);
    board.tick_propagation();
    board.reap();
    board.tick_resolution(310);
    // Nothing below: steps from row 2 to row 1.
    assert_eq!(board.tick_resolution(16).len(), 1);
    board.tick_resolution(310);
    // The block on row 0 holds it.
    let moves = board.tick_resolution(16);
    assert!(moves.is_empty());
    let b = find(&board, 2).unwrap();
    assert_eq!((b.x, b.y), (0, 1));
    assert_eq!(b.state, BlockState::Falling { settle_timer: 310 });
    let moves = board.tick_resolution(16);
    assert!(moves.is_empty());
    assert_eq!(find(&board, 2).unwrap().state, BlockState::Falling { settle_timer: 310 });
}

#[test]
fn removed_block_does_not_block() {
    let mut board = Board::initialize_grid(2, 1);
    board.remove_at(0, 0);
    board.tick_propagation();
    // Not reaped yet, but removed blocks do not occupy their cell.
    assert!(!board.is_occupied(0, 0));
    board.tick_resolution(310);
    let moves = board.tick_resolution(1);
    assert_eq!(moves.len(), 1);
    assert_eq!(find(&board, 1).unwrap().y, 0);
}

#[test]
fn reap_destroys_removed_blocks_after_propagation() {
    let mut board = Board::initialize_grid(3, 2);
    let report = board.tick(true, 10);
    assert_eq!(report.removed, Some(0));
    assert_eq!(report.reaped, vec![0]);
    assert!(report.moves.is_empty());
    assert_eq!(board.len(), 5);
    assert!(find(&board, 0).is_none());
    assert_eq!(find(&board, 2).unwrap().state, BlockState::Falling { settle_timer: 10 });
    assert_eq!(find(&board, 4).unwrap().state, BlockState::Falling { settle_timer: 10 });
    assert_eq!(find(&board, 1).unwrap().state, BlockState::Normal);
    let report = board.tick(false, 10);
    assert!(report.reaped.is_empty());
    assert_eq!(report.removed, None);
}

#[test]
fn reap_returns_handles_in_storage_order() {
    let mut board = Board::initialize_grid(2, 2);
    board.remove_at(1, 1);
    board.remove_at(0, 0);
    assert_eq!(board.reap(), vec![0, 3]);
    let ids: Vec<u64> = board.all_blocks().iter().map(|b| b.id).collect();
    assert_eq!(ids, vec![1, 2]);
    assert!(board.reap().is_empty());
}

#[test]
fn occupancy_lists_rows_of_column() {
    let mut board = Board::initialize_grid(3, 2);
    assert_eq!(board.occupancy_in_column(1), vec![0, 1, 2]);
    board.remove_at(1, 1);
    assert_eq!(board.occupancy_in_column(1), vec![0, 2]);
    assert_eq!(board.occupancy_in_column(7), Vec::<i32>::new());
    assert_eq!(board.occupancy_in_column(-1), Vec::<i32>::new());
    assert!(board.is_occupied(0, 2));
    assert!(!board.is_occupied(1, 1));
    assert!(!board.is_occupied(0, 3));
}

#[test]
fn falling_timer_saturates() {
    let mut board = Board::initialize_grid(2, 1);
    board.remove_at(0, 0);
    board.tick_propagation();
    board.reap();
    board.tick_resolution(u64::MAX);
    assert_eq!(find(&board, 1).unwrap().state, BlockState::Falling { settle_timer: u64::MAX });
}

#[test]
fn board_timer_accumulates() {
    let mut timer = BoardTimer::new();
    assert_eq!(timer.time_since_tick, 0);
    timer.update(16);
    timer.update(17);
    assert_eq!(timer.time_since_tick, 33);
    timer.update(u64::MAX);
    assert_eq!(timer.time_since_tick, u64::MAX);
    assert_eq!(BoardTimer::default().time_since_tick, 0);
}

#[test]
fn end_to_end_column_collapse() {
    let mut board = Board::initialize_grid(5, 10);
    assert_eq!(board.remove_at(3, 2), Some(23));
    let report = board.tick(false, 310);
    assert_eq!(report.reaped, vec![23]);
    assert!(report.moves.is_empty());
    assert_eq!(find(&board, 33).unwrap().state, BlockState::Falling { settle_timer: 310 });
    assert_eq!(find(&board, 43).unwrap().state, BlockState::Falling { settle_timer: 310 });
    let falling = board.all_blocks().iter().filter(|b| matches!(b.state, BlockState::Falling { .. })).count();
    assert_eq!(falling, 2);

    // Each falling block is judged against the board as the tick found it:
    // the lower one steps down, the upper one still sees it below.
    let report = board.tick(false, 310);
    assert_eq!(report.moves, vec![BlockMove { id: 33, x: 3, y: 2, dy: -32 }]);
    assert_eq!(find(&board, 43).unwrap().y, 4);

    let report = board.tick(false, 310);
    assert_eq!(report.moves, vec![BlockMove { id: 43, x: 3, y: 3, dy: -32 }]);
    assert_eq!(board.occupancy_in_column(3), vec![0, 1, 2, 3]);

    // The lower block rests on row 1 and the upper one on the lower one.
    board.tick(false, 310);
    for _ in 0..3 {
        let report = board.tick(false, 310);
        assert!(report.moves.is_empty());
    }
    let low = find(&board, 33).unwrap();
    let high = find(&board, 43).unwrap();
    assert_eq!((low.x, low.y), (3, 2));
    assert_eq!((high.x, high.y), (3, 3));
    assert!(matches!(high.state, BlockState::Falling { .. }));
    assert!(matches!(low.state, BlockState::Falling { .. }));
    assert_eq!(board.len(), 49);
}
