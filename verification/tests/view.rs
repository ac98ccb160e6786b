use minesweeper::{CellState, Minesweeper, Position};

fn board(width: usize, height: usize, mines: &[Position]) -> Minesweeper {
    Minesweeper::with_mines(width, height, &mines.to_vec()).unwrap()
}

#[test]
fn a_corner_has_three_neighbours() {
    let game = board(4, 3, &[]);
    assert_eq!(game.iter_neighbours((0, 0)), vec![(0, 1), (1, 0), (1, 1)]);
    assert_eq!(game.iter_neighbours((3, 0)), vec![(2, 0), (2, 1), (3, 1)]);
    assert_eq!(game.iter_neighbours((0, 2)), vec![(0, 1), (1, 1), (1, 2)]);
    assert_eq!(game.iter_neighbours((3, 2)), vec![(2, 1), (2, 2), (3, 1)]);
}

#[test]
fn an_edge_cell_has_five_neighbours() {
    let game = board(4, 3, &[]);
    assert_eq!(
        game.iter_neighbours((1, 0)),
        vec![(0, 0), (0, 1), (1, 1), (2, 0), (2, 1)]
    );
    assert_eq!(
        game.iter_neighbours((0, 1)),
        vec![(0, 0), (0, 2), (1, 0), (1, 1), (1, 2)]
    );
    assert_eq!(game.iter_neighbours((3, 1)).len(), 5);
    assert_eq!(game.iter_neighbours((2, 2)).len(), 5);
}

#[test]
fn an_inner_cell_has_eight_neighbours_by_x_then_y() {
    let game = board(4, 3, &[]);
    assert_eq!(
        game.iter_neighbours((1, 1)),
        vec![(0, 0), (0, 1), (0, 2), (1, 0), (1, 2), (2, 0), (2, 1), (2, 2)]
    );
}

#[test]
fn narrow_grids_have_few_neighbours() {
    assert!(board(1, 1, &[]).iter_neighbours((0, 0)).is_empty());
    let row = board(3, 1, &[]);
    assert_eq!(row.iter_neighbours((0, 0)), vec![(1, 0)]);
    assert_eq!(row.iter_neighbours((1, 0)), vec![(0, 0), (2, 0)]);
    let column = board(1, 3, &[]);
    assert_eq!(column.iter_neighbours((0, 1)), vec![(0, 0), (0, 2)]);
}

#[test]
fn a_position_off_the_grid_has_the_cells_that_touch_it() {
    let game = board(3, 3, &[]);
    assert_eq!(game.iter_neighbours((3, 1)), vec![(2, 0), (2, 1), (2, 2)]);
    assert_eq!(game.iter_neighbours((3, 3)), vec![(2, 2)]);
    assert!(game.iter_neighbours((4, 1)).is_empty());
    assert!(game.iter_neighbours((usize::MAX, usize::MAX)).is_empty());
}

#[test]
fn neighbouring_mines_counts_the_mines_around() {
    let game = board(4, 4, &[(0, 0), (1, 0), (2, 0), (0, 1), (2, 1), (0, 2), (1, 2), (2, 2)]);
    assert_eq!(game.neighbouring_mines((1, 1)), 8);
    assert_eq!(game.neighbouring_mines((0, 0)), 2);
    assert_eq!(game.neighbouring_mines((3, 0)), 2);
    assert_eq!(game.neighbouring_mines((3, 1)), 3);
    assert_eq!(game.neighbouring_mines((3, 3)), 1);
    assert_eq!(game.neighbouring_mines((0, 3)), 2);
    assert_eq!(game.neighbouring_mines((1, 0)), 4);
}

#[test]
fn a_mine_does_not_count_itself() {
    let game = board(3, 3, &[(1, 1)]);
    assert_eq!(game.neighbouring_mines((1, 1)), 0);
    assert_eq!(game.neighbouring_mines((0, 0)), 1);
}

#[test]
fn neighbouring_flags_counts_the_flags_around() {
    let mut game = board(3, 3, &[(2, 2)]);
    assert_eq!(game.neighbouring_flags((1, 1)), 0);
    game.toggle_flag((0, 0));
    game.toggle_flag((2, 2));
    game.toggle_flag((1, 1));
    assert_eq!(game.neighbouring_flags((1, 1)), 2);
    assert_eq!(game.neighbouring_flags((0, 0)), 1);
    game.toggle_flag((0, 0));
    assert_eq!(game.neighbouring_flags((1, 1)), 1);
}

#[test]
fn every_state_of_a_cell_shows() {
    let mut game = board(4, 1, &[(0, 0), (3, 0)]);
    assert_eq!(game.cell_state((1, 0)), CellState::Hidden);
    game.toggle_flag((1, 0));
    assert_eq!(game.cell_state((1, 0)), CellState::Flagged);
    game.open((2, 0));
    assert_eq!(game.cell_state((2, 0)), CellState::Number(1));
    assert_eq!(game.cell_state((0, 0)), CellState::Hidden);
    game.toggle_flag((3, 0));
    game.open((0, 0));
    assert_eq!(game.cell_state((0, 0)), CellState::Exploded);
    // A hidden mine shows once the game is lost, even under a flag.
    assert_eq!(game.cell_state((3, 0)), CellState::Mine);
    assert_eq!(game.cell_state((1, 0)), CellState::Flagged);
    let mut calm = board(3, 1, &[]);
    calm.open((0, 0));
    assert_eq!(calm.cell_state((2, 0)), CellState::Empty);
}

#[test]
fn glyphs_are_one_character_each() {
    assert_eq!(CellState::Hidden.glyph(), '🟪');
    assert_eq!(CellState::Flagged.glyph(), '🚩');
    assert_eq!(CellState::Mine.glyph(), '💣');
    assert_eq!(CellState::Exploded.glyph(), '💣');
    assert_eq!(CellState::Empty.glyph(), '⬜');
    assert_eq!(CellState::Number(1).glyph(), '1');
    assert_eq!(CellState::Number(8).glyph(), '8');
}

#[test]
fn a_fresh_grid_renders_hidden() {
    let game = board(2, 2, &[(0, 0)]);
    assert_eq!(game.render(), "🟪 🟪 \n🟪 🟪 \n");
}

#[test]
fn an_opened_grid_renders_counts_and_blanks() {
    let mut game = board(3, 3, &[(2, 2)]);
    game.open((0, 0));
    assert_eq!(game.render(), "⬜ ⬜ ⬜ \n⬜ 1 1 \n⬜ 1 🟪 \n");
    game.toggle_flag((2, 2));
    assert_eq!(game.render(), "⬜ ⬜ ⬜ \n⬜ 1 1 \n⬜ 1 🚩 \n");
}

#[test]
fn a_lost_grid_renders_its_mines() {
    let mut game = board(3, 2, &[(0, 0), (2, 1)]);
    game.toggle_flag((1, 1));
    game.toggle_flag((2, 1));
    game.open((1, 0));
    game.open((0, 0));
    assert!(game.is_lost());
    assert_eq!(game.render(), "💣 2 🟪 \n🟪 🚩 💣 \n");
}
