use minesweeper::placement::{place_mines, scatter, take_cell};
use minesweeper::{BoardError, Minesweeper, Position};
use random::Source;

fn placed_cells(width: usize, height: usize, mine_count: usize, draws: &[u64]) -> Vec<Position> {
    let mines = place_mines(width, height, mine_count, &draws.to_vec());
    let mut cells = Vec::new();
    for y in 0..height {
        for x in 0..width {
            if mines.contains((x, y)) {
                cells.push((x, y));
            }
        }
    }
    cells
}

fn mined_cells(game: &Minesweeper) -> Vec<Position> {
    let mut cells = Vec::new();
    for y in 0..game.height() {
        for x in 0..game.width() {
            if game.is_mine((x, y)) {
                cells.push((x, y));
            }
        }
    }
    cells
}

fn untouched(game: &Minesweeper) -> bool {
    let mut clean = !game.is_lost();
    for y in 0..game.height() {
        for x in 0..game.width() {
            clean = clean && !game.is_open((x, y)) && !game.is_flagged((x, y));
        }
    }
    clean
}

#[test]
fn new_places_the_wanted_number_of_mines() {
    let game = Minesweeper::new(10, 10, 5);
    assert_eq!(game.width(), 10);
    assert_eq!(game.height(), 10);
    assert_eq!(mined_cells(&game).len(), 5);
    assert!(untouched(&game));
}

#[test]
fn new_can_leave_the_grid_empty_or_fill_it() {
    assert_eq!(mined_cells(&Minesweeper::new(4, 3, 0)).len(), 0);
    assert_eq!(mined_cells(&Minesweeper::new(4, 3, 12)).len(), 12);
    assert_eq!(mined_cells(&Minesweeper::new(1, 1, 1)), vec![(0, 0)]);
}

#[test]
fn every_seed_places_the_wanted_number_of_mines() {
    for seed in 0..200u64 {
        let game = Minesweeper::with_seed(7, 5, 9, seed);
        assert_eq!(mined_cells(&game).len(), 9);
        assert!(untouched(&game));
    }
    let game = Minesweeper::with_seed(7, 5, 9, u64::MAX);
    assert_eq!(mined_cells(&game).len(), 9);
}

#[test]
fn the_same_seed_gives_the_same_mines() {
    let one = Minesweeper::with_seed(9, 9, 10, 42);
    let two = Minesweeper::with_seed(9, 9, 10, 42);
    assert_eq!(mined_cells(&one), mined_cells(&two));
}

#[test]
fn seeds_give_different_mines() {
    let first = mined_cells(&Minesweeper::with_seed(16, 16, 40, 0));
    let differs = (1..20u64).any(|seed| mined_cells(&Minesweeper::with_seed(16, 16, 40, seed)) != first);
    assert!(differs);
}

#[test]
fn try_new_reports_what_is_wrong() {
    assert_eq!(Minesweeper::try_new(0, 5, 0).err(), Some(BoardError::EmptyGrid));
    assert_eq!(Minesweeper::try_new(5, 0, 0).err(), Some(BoardError::EmptyGrid));
    assert_eq!(Minesweeper::try_new(0, 0, 3).err(), Some(BoardError::EmptyGrid));
    assert_eq!(
        Minesweeper::try_new(usize::MAX, 2, 0).err(),
        Some(BoardError::GridTooLarge)
    );
    assert_eq!(Minesweeper::try_new(3, 3, 10).err(), Some(BoardError::TooManyMines));
    let game = Minesweeper::try_new(3, 3, 9).unwrap();
    assert_eq!(mined_cells(&game).len(), 9);
    let game = Minesweeper::try_new(10, 10, 5).unwrap();
    assert_eq!(mined_cells(&game).len(), 5);
}

#[test]
fn with_mines_places_the_given_mines() {
    let game = Minesweeper::with_mines(3, 2, &vec![(2, 1), (0, 0), (2, 1)]).unwrap();
    assert_eq!(game.width(), 3);
    assert_eq!(game.height(), 2);
    assert_eq!(mined_cells(&game), vec![(0, 0), (2, 1)]);
    assert!(untouched(&game));
}

#[test]
fn with_mines_reports_what_is_wrong() {
    assert_eq!(
        Minesweeper::with_mines(0, 2, &vec![]).err(),
        Some(BoardError::EmptyGrid)
    );
    assert_eq!(
        Minesweeper::with_mines(2, 0, &vec![(0, 0)]).err(),
        Some(BoardError::EmptyGrid)
    );
    assert_eq!(
        Minesweeper::with_mines(3, 2, &vec![(0, 0), (3, 0)]).err(),
        Some(BoardError::OutOfBounds)
    );
    assert_eq!(
        Minesweeper::with_mines(3, 2, &vec![(0, 2)]).err(),
        Some(BoardError::OutOfBounds)
    );
}

#[test]
fn take_cell_compares_the_reduced_draw() {
    // 10 cells left, 3 mines left: the cell is taken when draw % 10 < 3.
    assert!(take_cell(10, 3, 0));
    assert!(take_cell(10, 3, 2));
    assert!(!take_cell(10, 3, 3));
    assert!(!take_cell(10, 3, 9));
    assert!(take_cell(10, 3, 12));
    assert!(!take_cell(10, 3, 13));
    assert!(take_cell(10, 3, 1_000_000_000_001));
    assert!(!take_cell(7, 0, 0));
    assert!(take_cell(7, 7, u64::MAX));
    assert!(take_cell(1, 1, 5));
    assert!(!take_cell(1, 0, 5));
}

#[test]
fn place_mines_takes_the_first_cells_on_low_draws() {
    assert_eq!(placed_cells(4, 2, 3, &[0; 8]), vec![(0, 0), (1, 0), (2, 0)]);
    assert_eq!(placed_cells(4, 2, 0, &[0; 8]), vec![]);
    assert_eq!(placed_cells(2, 2, 4, &[9, 9, 9, 9]), vec![(0, 0), (1, 0), (0, 1), (1, 1)]);
}

#[test]
fn place_mines_takes_the_last_cells_when_it_must() {
    // Each draw is one less than the number of cells left, so a cell is only
    // taken when every cell that is left is needed.
    assert_eq!(placed_cells(3, 3, 1, &[8, 7, 6, 5, 4, 3, 2, 1, 0]), vec![(2, 2)]);
    assert_eq!(
        placed_cells(4, 2, 3, &[7, 6, 5, 4, 3, 2, 1, 0]),
        vec![(1, 1), (2, 1), (3, 1)]
    );
}

#[test]
fn place_mines_follows_the_draws() {
    // 5 % 4 = 1 < 2: taken. 1 % 3 = 1, not below 1. 7 % 2 = 1, not below 1.
    // 3 % 1 = 0 < 1: taken.
    assert_eq!(placed_cells(2, 2, 2, &[5, 1, 7, 3]), vec![(0, 0), (1, 1)]);
    // 4 % 6 = 4, 9 % 5 = 4, 2 % 4 = 2, each not below 2. 10 % 3 = 1 < 2:
    // taken. 1 % 2 = 1, not below 1. Then the last cell must be taken.
    assert_eq!(placed_cells(3, 2, 2, &[4, 9, 2, 10, 1, 77]), vec![(0, 1), (2, 1)]);
}

#[test]
fn with_seed_places_the_mines_that_the_seed_gives() {
    assert_eq!(
        mined_cells(&Minesweeper::with_seed(5, 4, 3, 42)),
        vec![(2, 1), (4, 2), (1, 3)]
    );
    // The generator made from seed 0 starts with 8388546 and 25165633:
    // 8388546 % 9 = 6 is not below 2, and 25165633 % 8 = 1 is.
    assert_eq!(mined_cells(&Minesweeper::with_seed(3, 3, 2, 0)), vec![(1, 0), (0, 1)]);
    assert_eq!(
        mined_cells(&Minesweeper::with_seed(8, 1, 4, u64::MAX)),
        vec![(0, 0), (1, 0), (3, 0), (4, 0)]
    );
}

#[test]
fn with_seed_walks_the_numbers_of_the_generator() {
    for seed in [0u64, 1, 42, 1 << 40, u64::MAX] {
        let draws: Vec<u64> = random::default(seed).iter().take(63).collect();
        assert_eq!(
            mined_cells(&Minesweeper::with_seed(9, 7, 10, seed)),
            placed_cells(9, 7, 10, &draws)
        );
    }
}

#[test]
fn scatter_gives_the_mines_of_with_seed() {
    let mines = scatter(5, 4, 3, 42);
    let game = Minesweeper::with_seed(5, 4, 3, 42);
    for y in 0..4 {
        for x in 0..5 {
            assert_eq!(mines.contains((x, y)), game.is_mine((x, y)));
        }
    }
}
