use b2048::game::{Game, MoveOutcome};
use b2048::moving::{Direction, Merged};
use b2048::tiling::{Board, Position, SpawnOutcome, SpawnTile, TileKind};
use b2048::Congratulation;

fn explicit(cell: usize, power: u32) -> SpawnTile {
    SpawnTile {
        position: Some(Position::from(cell)),
        kind: Some(TileKind::from_power(power)),
    }
}

#[test]
fn setup_places_exactly_two_starter_tiles() {
    let mut game = Game::new(Board::default());
    let outcome = game.setup();
    assert!(matches!(outcome, SpawnOutcome::Placed(_)));
    assert_eq!(game.score(), 0);
    assert_eq!(game.congrats(), Congratulation::NotYet);
    let grid = game.grid();
    let tiles: Vec<u32> = grid.iter().copied().filter(|&v| v != 0).collect();
    assert_eq!(tiles.len(), 2);
    assert!(tiles.iter().all(|&v| v == 1 || v == 2));
}

#[test]
fn a_move_commits_the_grid_and_spawns_one_tile() {
    let board = Board { rows: 1, columns: 4 };
    let mut game = Game::new(board);
    let requests = vec![explicit(0, 1), explicit(1, 1), explicit(2, 2)];
    assert!(matches!(game.spawn_tiles(&requests), SpawnOutcome::Placed(_)));
    assert_eq!(game.grid(), &vec![1, 1, 2, 0]);

    let outcome: MoveOutcome = game.apply_move(Direction::Left);
    assert!(outcome.changed);
    assert!(!outcome.lost);
    let powers: Vec<u32> = outcome.merges.iter().map(|m| m.exponent()).collect();
    assert_eq!(powers, vec![1]);
    // the move settles to [2, 2, 0, 0]; one fresh tile lands on a cell
    // that was free afterwards
    let grid = game.grid();
    assert_eq!(grid[0], 2);
    assert_eq!(grid[1], 2);
    let spawned = outcome.spawned.expect("a changed move spawns one tile");
    assert!(spawned.0.index() >= 2);
    let tail: Vec<u32> = grid[2..].iter().copied().filter(|&v| v != 0).collect();
    assert_eq!(tail.len(), 1);
    assert!(tail[0] == 1 || tail[0] == 2);
}

#[test]
fn an_impossible_move_spawns_nothing() {
    let board = Board { rows: 1, columns: 4 };
    let mut game = Game::new(board);
    let requests = vec![explicit(0, 1), explicit(1, 2)];
    assert!(matches!(game.spawn_tiles(&requests), SpawnOutcome::Placed(_)));

    let outcome = game.apply_move(Direction::Left);
    assert!(!outcome.changed);
    assert!(outcome.merges.is_empty());
    assert!(outcome.spawned.is_none());
    assert!(!outcome.lost);
    assert_eq!(game.grid(), &vec![1, 2, 0, 0]);
}

#[test]
fn win_signal_fires_once_per_session() {
    let mut game = Game::new(Board::default());
    let first = vec![Merged::from_power(11)];
    let won = game.record_merges(&first);
    assert!(won, "the first merge at the winning power raises the signal");
    assert_eq!(game.score(), 2048);

    // the application shows the congratulations screen, then returns to
    // the game, acknowledging the signal
    game.acknowledge_win();
    assert_eq!(game.congrats(), Congratulation::Congratulated);

    let second = vec![Merged::from_power(11)];
    let won_again = game.record_merges(&second);
    assert!(!won_again, "the signal must not fire a second time");
    assert_eq!(game.score(), 4096);
}

#[test]
fn reset_clears_board_score_and_flag() {
    let mut game = Game::new(Board::default());
    let _ = game.setup();
    let _ = game.record_merges(&vec![Merged::from_power(11)]);
    game.acknowledge_win();
    game.reset();
    assert!(game.grid().iter().all(|&v| v == 0));
    assert_eq!(game.score(), 0);
    assert_eq!(game.congrats(), Congratulation::NotYet);
}

#[test]
fn spawning_into_a_session_respects_capacity() {
    // a 1x2 board with one tile: one random spawn fits, two do not
    let board = Board { rows: 1, columns: 2 };
    let mut game = Game::new(board);
    assert!(matches!(game.spawn_tiles(&vec![explicit(0, 3)]), SpawnOutcome::Placed(_)));
    let two = vec![SpawnTile::default(), SpawnTile::default()];
    assert!(matches!(game.spawn_tiles(&two), SpawnOutcome::Lost));
    assert_eq!(game.grid(), &vec![3, 0]);
    let one = vec![SpawnTile::default()];
    assert!(matches!(game.spawn_tiles(&one), SpawnOutcome::Placed(_)));
    assert!(game.grid()[1] == 1 || game.grid()[1] == 2);
}
