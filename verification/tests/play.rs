use minesweeper::{BoardError, CellState, Minesweeper, OpenResult, Position};

fn board(width: usize, height: usize, mines: &[Position]) -> Minesweeper {
    Minesweeper::with_mines(width, height, &mines.to_vec()).unwrap()
}

fn opened_cells(game: &Minesweeper) -> Vec<Position> {
    let mut cells = Vec::new();
    for y in 0..game.height() {
        for x in 0..game.width() {
            if game.is_open((x, y)) {
                cells.push((x, y));
            }
        }
    }
    cells
}

fn flagged_cells(game: &Minesweeper) -> Vec<Position> {
    let mut cells = Vec::new();
    for y in 0..game.height() {
        for x in 0..game.width() {
            if game.is_flagged((x, y)) {
                cells.push((x, y));
            }
        }
    }
    cells
}

fn no_cell_flagged_and_opened(game: &Minesweeper) -> bool {
    flagged_cells(game).iter().all(|&p| !game.is_open(p))
}

#[test]
fn test() {
    let mut ms = Minesweeper::new(10, 10, 5);
    ms.open((5, 5));
    ms.toggle_flag((6, 6));
    ms.open((6, 6));
    println!("{:?}", ms);
    println!("{}", ms.render());
}

#[test]
fn cascade_opens_everything_but_the_corner_mine() {
    let mut game = board(3, 3, &[(2, 2)]);
    assert_eq!(game.open((0, 0)), Some(OpenResult::NoMine(0)));
    assert_eq!(
        opened_cells(&game),
        vec![(0, 0), (1, 0), (2, 0), (0, 1), (1, 1), (2, 1), (0, 2), (1, 2)]
    );
    assert!(!game.is_open((2, 2)));
    assert!(!game.is_lost());
    assert_eq!(game.neighbouring_mines((0, 0)), 0);
    assert_eq!(game.neighbouring_mines((1, 0)), 0);
    assert_eq!(game.neighbouring_mines((0, 1)), 0);
    assert_eq!(game.neighbouring_mines((1, 1)), 1);
    assert_eq!(game.neighbouring_mines((2, 1)), 1);
    assert_eq!(game.neighbouring_mines((1, 2)), 1);
    assert_eq!(game.cell_state((1, 1)), CellState::Number(1));
    assert_eq!(game.cell_state((0, 0)), CellState::Empty);
    assert_eq!(game.cell_state((2, 2)), CellState::Hidden);
}

#[test]
fn cascade_stops_at_the_numbered_ring() {
    // One mine in the middle of the left edge of a 5 by 3 grid: the two
    // columns next to it are numbered or mined, the rest is empty.
    let mut game = board(5, 3, &[(0, 1)]);
    assert_eq!(game.open((4, 1)), Some(OpenResult::NoMine(0)));
    assert_eq!(
        opened_cells(&game),
        vec![
            (1, 0),
            (2, 0),
            (3, 0),
            (4, 0),
            (1, 1),
            (2, 1),
            (3, 1),
            (4, 1),
            (1, 2),
            (2, 2),
            (3, 2),
            (4, 2)
        ]
    );
    assert!(!game.is_open((0, 0)));
    assert!(!game.is_open((0, 2)));
}

#[test]
fn opening_a_numbered_cell_opens_it_alone() {
    let mut game = board(3, 3, &[(2, 2)]);
    assert_eq!(game.open((1, 1)), Some(OpenResult::NoMine(0)));
    assert_eq!(opened_cells(&game), vec![(1, 1)]);
}

#[test]
fn cascade_leaves_flagged_cells_and_does_not_pass_them() {
    // A row of five cells without a mine: a flag in the middle cuts it.
    let mut game = board(5, 1, &[]);
    game.toggle_flag((2, 0));
    assert_eq!(game.open((0, 0)), Some(OpenResult::NoMine(0)));
    assert_eq!(opened_cells(&game), vec![(0, 0), (1, 0)]);
    assert_eq!(flagged_cells(&game), vec![(2, 0)]);
}

#[test]
fn chord_opens_the_rest_around_a_flagged_mine() {
    let mut game = board(5, 5, &[(2, 2)]);
    let ring: [Position; 8] =
        [(1, 1), (1, 2), (1, 3), (2, 1), (2, 3), (3, 1), (3, 2), (3, 3)];
    for &cell in ring.iter() {
        assert_eq!(game.open(cell), Some(OpenResult::NoMine(0)));
        assert_eq!(game.neighbouring_mines(cell), 1);
    }
    assert_eq!(opened_cells(&game).len(), 8);
    game.toggle_flag((2, 2));
    assert_eq!(game.neighbouring_flags((1, 1)), 1);
    assert_eq!(game.open((1, 1)), None);
    assert!(!game.is_open((2, 2)));
    assert!(game.is_flagged((2, 2)));
    assert!(!game.is_lost());
    assert_eq!(opened_cells(&game).len(), 24);
}

#[test]
fn chord_on_any_neighbour_of_the_flagged_mine_opens_the_rest() {
    let ring: [Position; 8] =
        [(1, 1), (1, 2), (1, 3), (2, 1), (2, 3), (3, 1), (3, 2), (3, 3)];
    for &start in ring.iter() {
        let mut game = board(5, 5, &[(2, 2)]);
        for &cell in ring.iter() {
            game.open(cell);
        }
        game.toggle_flag((2, 2));
        assert_eq!(game.open(start), None);
        assert!(!game.is_open((2, 2)));
        assert!(!game.is_lost());
        assert_eq!(opened_cells(&game).len(), 24);
    }
}

#[test]
fn cascade_covers_a_large_empty_grid() {
    let mut game = board(300, 200, &[]);
    assert_eq!(game.open((150, 100)), Some(OpenResult::NoMine(0)));
    assert_eq!(opened_cells(&game).len(), 60_000);
}

#[test]
fn cascade_does_not_cross_a_wall_of_mines() {
    // A column of mines cuts the grid in two; the numbered column before it
    // is opened, the mines and what lies behind them are not.
    let mut game = board(7, 3, &[(4, 0), (4, 1), (4, 2)]);
    assert_eq!(game.open((0, 1)), Some(OpenResult::NoMine(0)));
    let mut expected = Vec::new();
    for y in 0..3 {
        for x in 0..4 {
            expected.push((x, y));
        }
    }
    assert_eq!(opened_cells(&game), expected);
    assert_eq!(game.neighbouring_mines((3, 1)), 3);
    assert_eq!(game.neighbouring_mines((3, 0)), 2);
}

#[test]
fn chord_does_nothing_when_the_counts_differ() {
    let mut game = board(5, 5, &[(2, 2)]);
    game.open((1, 1));
    assert_eq!(game.open((1, 1)), None);
    assert_eq!(opened_cells(&game), vec![(1, 1)]);
    // Two flags around a cell with one mine around it.
    game.toggle_flag((2, 2));
    game.toggle_flag((0, 0));
    assert_eq!(game.open((1, 1)), None);
    assert_eq!(opened_cells(&game), vec![(1, 1)]);
}

#[test]
fn chord_with_a_wrong_flag_opens_the_mine() {
    let mut game = board(3, 3, &[(2, 2)]);
    game.open((1, 1));
    game.toggle_flag((0, 0));
    assert_eq!(game.open((1, 1)), None);
    assert!(game.is_lost());
    assert!(game.is_open((2, 2)));
    assert!(!game.is_open((0, 0)));
    // The neighbours that come before the mine, by x and then y, were opened.
    assert_eq!(
        opened_cells(&game),
        vec![(1, 0), (2, 0), (0, 1), (1, 1), (2, 1), (0, 2), (1, 2), (2, 2)]
    );
    assert_eq!(game.cell_state((2, 2)), CellState::Exploded);
}

#[test]
fn chord_stops_opening_once_a_mine_is_hit() {
    // Mines left and right of the middle of a row; the flag is on neither.
    let mut game = board(3, 3, &[(0, 1), (2, 1)]);
    game.open((1, 1));
    assert_eq!(game.neighbouring_mines((1, 1)), 2);
    game.toggle_flag((1, 0));
    game.toggle_flag((1, 2));
    assert_eq!(game.open((1, 1)), None);
    assert!(game.is_lost());
    // (0, 0) comes first and is opened, then the mine at (0, 1) ends the game.
    assert_eq!(opened_cells(&game), vec![(0, 0), (0, 1), (1, 1)]);
}

#[test]
fn opening_twice_reports_nothing_the_second_time() {
    let mut game = board(4, 4, &[(3, 3)]);
    assert_eq!(game.open((0, 0)), Some(OpenResult::NoMine(0)));
    let opened = opened_cells(&game);
    assert_eq!(game.open((0, 0)), None);
    assert!(!game.is_lost());
    assert!(game.is_open((0, 0)));
    assert_eq!(opened_cells(&game), opened);
}

#[test]
fn toggling_a_flag_twice_restores_the_flags() {
    let mut game = board(3, 3, &[(2, 2)]);
    game.toggle_flag((1, 2));
    let flags = flagged_cells(&game);
    game.toggle_flag((0, 1));
    assert_eq!(flagged_cells(&game), vec![(0, 1), (1, 2)]);
    game.toggle_flag((0, 1));
    assert_eq!(flagged_cells(&game), flags);
}

#[test]
fn a_flag_blocks_opening() {
    let mut game = board(3, 3, &[(2, 2)]);
    game.toggle_flag((0, 0));
    assert_eq!(game.open((0, 0)), None);
    assert!(!game.is_open((0, 0)));
    assert!(opened_cells(&game).is_empty());
    game.toggle_flag((2, 2));
    assert_eq!(game.open((2, 2)), None);
    assert!(!game.is_lost());
}

#[test]
fn an_opened_cell_cannot_be_flagged() {
    let mut game = board(3, 3, &[(2, 2)]);
    game.open((1, 1));
    game.toggle_flag((1, 1));
    assert!(!game.is_flagged((1, 1)));
    assert!(flagged_cells(&game).is_empty());
}

#[test]
fn opening_a_mine_loses_and_ends_play() {
    let mut game = board(3, 3, &[(2, 2)]);
    game.toggle_flag((0, 2));
    assert_eq!(game.open((2, 2)), Some(OpenResult::Mine));
    assert!(game.is_lost());
    assert!(game.is_open((2, 2)));
    assert!(game.is_mine((2, 2)));
    let opened = opened_cells(&game);
    let flags = flagged_cells(&game);
    assert_eq!(opened, vec![(2, 2)]);
    for y in 0..3 {
        for x in 0..3 {
            assert_eq!(game.open((x, y)), None);
            game.toggle_flag((x, y));
            assert!(game.is_lost());
            assert_eq!(opened_cells(&game), opened);
            assert_eq!(flagged_cells(&game), flags);
        }
    }
}

#[test]
fn no_cell_is_both_flagged_and_opened_during_play() {
    let mut game = board(6, 5, &[(1, 1), (4, 3), (5, 0)]);
    let moves: [(bool, Position); 12] = [
        (false, (1, 1)),
        (true, (0, 4)),
        (false, (0, 4)),
        (true, (0, 4)),
        (false, (3, 1)),
        (true, (3, 1)),
        (false, (4, 3)),
        (true, (3, 2)),
        (true, (3, 2)),
        (false, (2, 2)),
        (true, (5, 0)),
        (true, (1, 1)),
    ];
    for &(open, cell) in moves.iter() {
        if open {
            game.open(cell);
        } else {
            game.toggle_flag(cell);
        }
        assert!(no_cell_flagged_and_opened(&game));
    }
    assert!(game.is_lost());
}

#[test]
fn moves_off_the_grid_are_reported() {
    let mut game = board(3, 2, &[(0, 0)]);
    assert_eq!(game.try_open((3, 0)), Err(BoardError::OutOfBounds));
    assert_eq!(game.try_open((0, 2)), Err(BoardError::OutOfBounds));
    assert_eq!(game.try_toggle_flag((7, 7)), Err(BoardError::OutOfBounds));
    assert!(opened_cells(&game).is_empty());
    assert!(flagged_cells(&game).is_empty());
    assert_eq!(game.try_toggle_flag((2, 1)), Ok(()));
    assert_eq!(flagged_cells(&game), vec![(2, 1)]);
    assert_eq!(game.try_open((2, 1)), Ok(None));
    assert_eq!(game.try_open((1, 1)), Ok(Some(OpenResult::NoMine(0))));
    assert_eq!(game.try_open((0, 0)), Ok(Some(OpenResult::Mine)));
    assert!(!game.in_bounds((3, 0)));
    assert!(game.in_bounds((2, 1)));
}
