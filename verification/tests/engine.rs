use b2048::moving::{Direction, MoveTracker};
use b2048::tiling::Board;

fn run(board: Board, cells: Vec<u32>, direction: Direction) -> (Vec<u32>, Vec<u32>, bool) {
    let mut tracker = MoveTracker::new(board, cells);
    tracker.start_tracking();
    let merges = tracker.apply(direction);
    let changed = tracker.has_changed();
    let powers: Vec<u32> = merges.iter().map(|m| m.exponent()).collect();
    (tracker.into_tiles(), powers, changed)
}

#[test]
fn left_merge_on_one_row() {
    // compaction is a no-op, the leading pair merges, compaction closes the gap
    let board = Board { rows: 1, columns: 4 };
    let (grid, merges, changed) = run(board, vec![1, 1, 2, 0], Direction::Left);
    assert_eq!(grid, vec![2, 2, 0, 0]);
    assert_eq!(merges, vec![1]);
    assert!(changed);
}

#[test]
fn right_on_settled_row_reports_unchanged() {
    // the tile already sits at the trailing edge and nothing can merge
    let board = Board { rows: 1, columns: 4 };
    let (grid, merges, changed) = run(board, vec![0, 0, 0, 1], Direction::Right);
    assert_eq!(grid, vec![0, 0, 0, 1]);
    assert!(merges.is_empty());
    assert!(!changed);
}

#[test]
fn four_equal_tiles_merge_pairwise() {
    // a run of four equal tiles gives two double tiles, never one quadruple
    let board = Board { rows: 1, columns: 4 };
    let (grid, merges, changed) = run(board, vec![3, 3, 3, 3], Direction::Left);
    assert_eq!(grid, vec![4, 4, 0, 0]);
    assert_eq!(merges, vec![3, 3]);
    assert!(changed);
}

#[test]
fn no_op_move_keeps_grid_bit_for_bit() {
    let board = Board { rows: 1, columns: 4 };
    let (grid, merges, changed) = run(board, vec![1, 2, 1, 2], Direction::Left);
    assert_eq!(grid, vec![1, 2, 1, 2]);
    assert!(merges.is_empty());
    assert!(!changed);
}

#[test]
fn all_four_directions_on_a_square_board() {
    let board = Board { rows: 2, columns: 2 };
    let start = vec![1, 1, 1, 1];
    let (grid, merges, changed) = run(board.clone(), start.clone(), Direction::Left);
    assert_eq!(grid, vec![2, 0, 2, 0]);
    assert_eq!(merges, vec![1, 1]);
    assert!(changed);
    let (grid, _, _) = run(board.clone(), start.clone(), Direction::Right);
    assert_eq!(grid, vec![0, 2, 0, 2]);
    let (grid, _, _) = run(board.clone(), start.clone(), Direction::Up);
    assert_eq!(grid, vec![2, 2, 0, 0]);
    let (grid, _, _) = run(board, start, Direction::Down);
    assert_eq!(grid, vec![0, 0, 2, 2]);
}

#[test]
fn up_move_on_a_full_column() {
    // one column of a 4x4 board: merge the top pair and the bottom pair
    let board = Board { rows: 4, columns: 4 };
    let cells = vec![
        5, 0, 0, 0, //
        5, 0, 0, 0, //
        7, 0, 0, 0, //
        7, 0, 0, 0,
    ];
    let (grid, merges, changed) = run(board, cells, Direction::Up);
    assert_eq!(
        grid,
        vec![
            6, 0, 0, 0, //
            8, 0, 0, 0, //
            0, 0, 0, 0, //
            0, 0, 0, 0,
        ]
    );
    assert_eq!(merges, vec![5, 7]);
    assert!(changed);
}

#[test]
fn merge_does_not_cascade_within_one_move() {
    // [2, 2, 3, 0]: the pair becomes a 3, but it must not merge with the
    // old 3 in the same move
    let board = Board { rows: 1, columns: 4 };
    let (grid, merges, changed) = run(board, vec![2, 2, 3, 0], Direction::Left);
    assert_eq!(grid, vec![3, 3, 0, 0]);
    assert_eq!(merges, vec![2]);
    assert!(changed);
}

#[test]
fn right_move_merges_the_pair_nearest_its_edge() {
    // three equal tiles pushed right: the two nearest the right edge
    // merge, the third slides in behind them
    let board = Board { rows: 1, columns: 4 };
    let (grid, merges, changed) = run(board, vec![2, 2, 2, 0], Direction::Right);
    assert_eq!(grid, vec![0, 0, 2, 3]);
    assert_eq!(merges, vec![2]);
    assert!(changed);
}

#[test]
fn moves_on_a_wide_board() {
    // two rows of three columns: row stacks have three slots, column
    // stacks two, and the leading edge flips for Down
    let board = Board { rows: 2, columns: 3 };
    let cells = vec![
        1, 0, 1, //
        0, 2, 2,
    ];
    let (grid, merges, changed) = run(board.clone(), cells.clone(), Direction::Left);
    assert_eq!(grid, vec![2, 0, 0, 3, 0, 0]);
    assert_eq!(merges, vec![1, 2]);
    assert!(changed);
    let (grid, merges, changed) = run(board.clone(), cells.clone(), Direction::Up);
    assert_eq!(grid, vec![1, 2, 1, 0, 0, 2]);
    assert!(merges.is_empty());
    assert!(changed);
    let (grid, merges, changed) = run(board, cells, Direction::Down);
    assert_eq!(grid, vec![0, 0, 1, 1, 2, 2]);
    assert!(merges.is_empty());
    assert!(changed);
}

#[test]
fn conservation_of_tile_powers() {
    // every tile of the input shows up in the output, except that each
    // merged pair {p, p} became one {p + 1}
    let board = Board { rows: 4, columns: 4 };
    let cells = vec![
        1, 1, 2, 3, //
        0, 2, 0, 2, //
        4, 0, 4, 4, //
        0, 0, 0, 1,
    ];
    let (grid, merges, _) = run(board, cells.clone(), Direction::Left);
    let mut before: Vec<u32> = cells.into_iter().filter(|&v| v != 0).collect();
    let mut after: Vec<u32> = grid.into_iter().filter(|&v| v != 0).collect();
    for &p in &merges {
        // undo the merge: replace the produced p + 1 by the two sources
        let at = after.iter().position(|&v| v == p + 1).expect("merge result present");
        after.remove(at);
        after.push(p);
        after.push(p);
    }
    before.sort();
    after.sort();
    assert_eq!(before, after);
}

#[test]
fn no_gaps_remain_after_a_move() {
    let board = Board { rows: 4, columns: 4 };
    let cells = vec![
        0, 1, 0, 1, //
        2, 0, 2, 0, //
        0, 0, 3, 3, //
        4, 0, 0, 4,
    ];
    let (grid, _, _) = run(board, cells, Direction::Left);
    for row in 0..4 {
        let stack: Vec<u32> = (0..4).map(|col| grid[row * 4 + col]).collect();
        let mut seen_zero = false;
        for &v in &stack {
            if v == 0 {
                seen_zero = true;
            } else {
                assert!(!seen_zero, "tile behind a gap in row {row}: {stack:?}");
            }
        }
    }
}

#[test]
fn change_flag_accumulates_until_tracking_restarts() {
    let board = Board { rows: 1, columns: 4 };
    let mut tracker = MoveTracker::new(board, vec![1, 0, 0, 0]);
    tracker.start_tracking();
    let _ = tracker.apply(Direction::Right);
    assert!(tracker.has_changed());
    // the tile now rests at the right edge; the flag stays raised until reset
    let _ = tracker.apply(Direction::Right);
    assert!(tracker.has_changed());
    tracker.start_tracking();
    let _ = tracker.apply(Direction::Right);
    assert!(!tracker.has_changed());
}

#[test]
fn tiles_lists_occupied_cells_in_order() {
    let board = Board { rows: 2, columns: 2 };
    let tracker = MoveTracker::new(board, vec![0, 5, 0, 9]);
    let tiles = tracker.tiles();
    assert_eq!(tiles.len(), 2);
    assert_eq!(tiles[0].0.index(), 1);
    assert_eq!(tiles[0].1.power(), 5);
    assert_eq!(tiles[1].0.index(), 3);
    assert_eq!(tiles[1].1.power(), 9);
}
