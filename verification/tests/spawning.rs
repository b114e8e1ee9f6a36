use b2048::tiling::{spawn_tile, Board, Position, SpawnOutcome, SpawnTile, TileKind};

fn random_request() -> SpawnTile {
    SpawnTile::default()
}

fn explicit_request(cell: usize, power: Option<u32>) -> SpawnTile {
    SpawnTile { position: Some(Position::from(cell)), kind: power.map(TileKind::from_power) }
}

#[test]
fn two_random_spawns_on_one_free_cell_lose() {
    // fifteen occupied cells: two random requests cannot fit, and the
    // grid must stay exactly as it was
    let board = Board { rows: 4, columns: 4 };
    let mut grid: Vec<u32> = vec![1; 16];
    grid[9] = 0;
    let before = grid.clone();
    let requests = vec![random_request(), random_request()];
    let outcome = spawn_tile(&mut grid, &board, &requests);
    assert!(matches!(outcome, SpawnOutcome::Lost));
    assert_eq!(grid, before);
}

#[test]
fn one_random_spawn_on_one_free_cell_succeeds() {
    let board = Board { rows: 4, columns: 4 };
    let mut grid: Vec<u32> = vec![1; 16];
    grid[9] = 0;
    let requests = vec![random_request()];
    let outcome = spawn_tile(&mut grid, &board, &requests);
    match outcome {
        SpawnOutcome::Placed(ps) => {
            assert_eq!(ps.len(), 1);
            assert_eq!(ps[0].0.index(), 9);
            assert!(grid[9] == 1 || grid[9] == 2);
        }
        SpawnOutcome::Lost => panic!("one request must fit the one free cell"),
    }
}

#[test]
fn random_spawns_fill_exactly_the_free_cells() {
    // with two free cells and two random requests, both must be filled:
    // the drawn cells are distinct and free
    let board = Board { rows: 4, columns: 4 };
    let mut grid: Vec<u32> = vec![3; 16];
    grid[2] = 0;
    grid[11] = 0;
    let requests = vec![random_request(), random_request()];
    let outcome = spawn_tile(&mut grid, &board, &requests);
    assert!(matches!(outcome, SpawnOutcome::Placed(_)));
    assert!(grid[2] == 1 || grid[2] == 2);
    assert!(grid[11] == 1 || grid[11] == 2);
    assert!(grid.iter().all(|&v| v != 0));
}

#[test]
fn explicit_position_and_value_are_honored_verbatim() {
    let board = Board { rows: 4, columns: 4 };
    let mut grid: Vec<u32> = vec![0; 16];
    let requests = vec![explicit_request(5, Some(7))];
    let outcome = spawn_tile(&mut grid, &board, &requests);
    match outcome {
        SpawnOutcome::Placed(ps) => {
            assert_eq!(ps[0].0.index(), 5);
            assert_eq!(ps[0].1.power(), 7);
        }
        SpawnOutcome::Lost => panic!("an explicit request needs no free cell"),
    }
    assert_eq!(grid[5], 7);
    assert_eq!(grid.iter().filter(|&&v| v != 0).count(), 1);
}

#[test]
fn explicit_request_on_a_full_board_is_not_a_loss() {
    // the capacity check counts only the requests that need a random cell
    let board = Board { rows: 2, columns: 2 };
    let mut grid: Vec<u32> = vec![4, 4, 4, 4];
    let requests = vec![explicit_request(3, Some(9))];
    let outcome = spawn_tile(&mut grid, &board, &requests);
    assert!(matches!(outcome, SpawnOutcome::Placed(_)));
    assert_eq!(grid, vec![4, 4, 4, 9]);
}

#[test]
fn explicitly_claimed_cells_are_not_drawn() {
    // one explicit request claims a cell of an empty board; the random
    // requests must land on the three remaining cells
    let board = Board { rows: 2, columns: 2 };
    let mut grid: Vec<u32> = vec![0; 4];
    let requests = vec![
        explicit_request(0, Some(5)),
        random_request(),
        random_request(),
        random_request(),
    ];
    let outcome = spawn_tile(&mut grid, &board, &requests);
    assert!(matches!(outcome, SpawnOutcome::Placed(_)));
    assert_eq!(grid[0], 5);
    assert!(grid.iter().all(|&v| v != 0));
}

#[test]
fn a_claimed_cell_reduces_the_capacity() {
    // with one cell claimed explicitly, only three cells remain for
    // random placement, so four random requests must fail
    let board = Board { rows: 2, columns: 2 };
    let mut grid: Vec<u32> = vec![0; 4];
    let requests = vec![
        explicit_request(0, Some(5)),
        random_request(),
        random_request(),
        random_request(),
        random_request(),
    ];
    let outcome = spawn_tile(&mut grid, &board, &requests);
    assert!(matches!(outcome, SpawnOutcome::Lost));
    assert_eq!(grid, vec![0; 4]);
}

#[test]
fn later_explicit_requests_overwrite_earlier_ones() {
    // two explicit requests for the same cell: both are honored in
    // order, so the later value remains
    let board = Board { rows: 2, columns: 2 };
    let mut grid: Vec<u32> = vec![0; 4];
    let requests = vec![explicit_request(2, Some(3)), explicit_request(2, Some(8))];
    let outcome = spawn_tile(&mut grid, &board, &requests);
    assert!(matches!(outcome, SpawnOutcome::Placed(_)));
    assert_eq!(grid, vec![0, 0, 8, 0]);
}

#[test]
fn random_value_comes_from_the_spawn_distribution() {
    // a fixed position with a random value: the drawn power is 1 or 2,
    // never anything else
    let board = Board { rows: 2, columns: 2 };
    for _ in 0..32 {
        let mut grid: Vec<u32> = vec![0; 4];
        let requests = vec![SpawnTile { position: Some(Position::from(0)), kind: None }];
        let outcome = spawn_tile(&mut grid, &board, &requests);
        assert!(matches!(outcome, SpawnOutcome::Placed(_)));
        assert!(grid[0] == 1 || grid[0] == 2, "spawned power {}", grid[0]);
    }
}

#[test]
fn new_tile_value_is_two_or_four() {
    for _ in 0..32 {
        let k = TileKind::new_tile_value();
        assert!(k.power() == 1 || k.power() == 2);
    }
}

#[test]
fn tile_kind_conversions() {
    assert_eq!(TileKind::from_power(11).power(), 11);
    assert_eq!(TileKind::from_value(2048).power(), 11);
    assert_eq!(TileKind::from_value(1).power(), 0);
    assert_eq!(TileKind::from_value(3).power(), 1);
    assert_eq!(TileKind::from_value(4).power(), 2);
}

#[test]
fn position_round_trip() {
    let p = Position::from(13usize);
    assert_eq!(p.index(), 13);
    assert_eq!(Position::from(13usize), p);
}
