//! Where the mines go: a random choice of cells, without repetition.
//!
//! A number is drawn for each cell, and the grid is walked once, cell by
//! cell. With `c` cells still to visit and `m` mines still to place, the next
//! cell is taken when its number, reduced modulo `c`, is below `m`. This is
//! selection sampling: whatever the numbers are, exactly the wanted number of
//! cells is taken.
//!
//! [`place_mines`] is the walk, as a function of the numbers. The numbers
//! come from the generator of the `random` crate.

use vstd::prelude::*;
use std::collections::hash_map::RandomState;
use std::hash::BuildHasher;
use random::Source;
use crate::board::{in_grid, Position};
use crate::cells::CellSet;

verus! {

/// The first `count` numbers that the generator of the `random` crate yields
/// when it is made from `seed`.
pub uninterp spec fn seeded_draws(seed: u64, count: nat) -> Seq<u64>;

/// Makes the generator of the `random` crate from `seed`, with
/// `random::default`, and reads `count` numbers from it through
/// `random::Source::iter`.
///
/// The generator computes its numbers from the seed alone, so the same seed
/// and count give the same numbers. Its iterator never ends, so exactly
/// `count` numbers come back.
#[verifier::external_body]
fn draw_numbers(seed: u64, count: usize) -> (draws: Vec<u64>)
    ensures
        draws@ == seeded_draws(seed, count as nat),
        draws@.len() == count,
{
    random::default(seed).iter().take(count).collect()
}

/// Calls `RandomState::new`, which makes hashing keys that differ from one
/// call to the next. Nothing is claimed of them.
#[verifier::external_body]
fn new_hash_state() -> (state: RandomState) {
    RandomState::new()
}

/// Calls `BuildHasher::hash_one` with the given keys. Nothing is claimed of
/// the hash.
#[verifier::external_body]
fn hash_with(state: &RandomState, value: u64) -> (hash: u64) {
    state.hash_one(value)
}

/// A seed for a new game, hashed with keys made at random: any value may come back.
pub(crate) fn fresh_seed() -> (seed: u64) {
    let state = new_hash_state();
    hash_with(&state, 0)
}

/// Whether the walk takes its next cell as a mine, given the number drawn for
/// that cell.
pub open spec fn takes_cell(cells_left: usize, mines_left: usize, draw: u64) -> bool {
    (draw as int) % (cells_left as int) < mines_left
}

/// Decides whether the walk takes its next cell as a mine, with `cells_left`
/// cells still to visit, this one included, and `mines_left` mines still to
/// place.
pub fn take_cell(cells_left: usize, mines_left: usize, draw: u64) -> (taken: bool)
    requires
        cells_left > 0,
    ensures
        taken == takes_cell(cells_left, mines_left, draw),
        mines_left == 0 ==> !taken,
        mines_left >= cells_left ==> taken,
{
    draw % (cells_left as u64) < (mines_left as u64)
}

/// How many mines the walk has placed on the first `k` cells, where the grid
/// has `cells` cells, `mine_count` mines are wanted and `draws[i]` is the
/// number drawn for cell number `i`.
pub open spec fn placed(cells: nat, mine_count: nat, draws: Seq<u64>, k: nat) -> nat
    decreases k,
{
    if k == 0 {
        0
    } else {
        let before = placed(cells, mine_count, draws, (k - 1) as nat);
        if takes_cell(
            (cells - (k - 1)) as usize,
            (mine_count - before) as usize,
            draws[k - 1],
        ) {
            before + 1
        } else {
            before
        }
    }
}

/// Whether the walk takes cell number `k` as a mine.
pub open spec fn takes(cells: nat, mine_count: nat, draws: Seq<u64>, k: nat) -> bool {
    placed(cells, mine_count, draws, k + 1) > placed(cells, mine_count, draws, k)
}

/// The cells that the walk mines. The cells are numbered row by row, and
/// within a row from the left.
pub open spec fn placement(width: usize, height: usize, mine_count: usize, draws: Seq<u64>) -> Set<
    Position,
> {
    Set::new(
        |p: Position|
            in_grid(width, height, p) && takes(
                (width * height) as nat,
                mine_count as nat,
                draws,
                (p.1 * width + p.0) as nat,
            ),
    )
}

proof fn lemma_cell_number(width: int, height: int, x: int, y: int)
    requires
        0 <= x < width,
        0 <= y < height,
    ensures
        0 <= y * width + x < height * width,
        height * width == width * height,
        y * width + width == (y + 1) * width,
{
    assert(0 <= y * width) by (nonlinear_arith)
        requires
            0 <= y,
            0 <= width,
    ;
    assert((y + 1) * width <= height * width) by (nonlinear_arith)
        requires
            y + 1 <= height,
            0 <= width,
    ;
    assert(y * width + width == (y + 1) * width) by (nonlinear_arith);
    assert(height * width == width * height) by (nonlinear_arith);
}

/// Walks the grid and mines exactly `mine_count` of its cells, chosen by the
/// numbers in `draws`, one for each cell.
pub fn place_mines(width: usize, height: usize, mine_count: usize, draws: &Vec<u64>) -> (mines:
    CellSet)
    requires
        width * height <= usize::MAX,
        mine_count <= width * height,
        draws@.len() == width * height,
    ensures
        mines.wf(),
        mines.width() == width,
        mines.height() == height,
        mines@ == placement(width, height, mine_count, draws@),
        mines@.finite(),
        mines@.len() == mine_count,
{
    let total: usize = width * height;
    let ghost cells = total as nat;
    let ghost wanted = mine_count as nat;
    let mut mines = CellSet::empty(width, height);
    let mut mines_left: usize = mine_count;
    let mut k: usize = 0;
    let mut y: usize = 0;
    assert(0 * width == 0) by (nonlinear_arith);
    while y < height
        invariant
            y <= height,
            cells == total == width * height,
            wanted == mine_count,
            draws@.len() == cells,
            mines.wf(),
            mines.width() == width,
            mines.height() == height,
            k == y * width,
            k <= cells,
            mines_left + placed(cells, wanted, draws@, k as nat) == mine_count,
            mines_left <= cells - k,
            mines@.finite(),
            mines@.len() == placed(cells, wanted, draws@, k as nat),
            forall|p: Position|
                mines@.contains(p) <==> in_grid(width, height, p) && p.1 < y && takes(
                    cells,
                    wanted,
                    draws@,
                    (p.1 * width + p.0) as nat,
                ),
        decreases height - y,
    {
        let mut x: usize = 0;
        while x < width
            invariant
                x <= width,
                y < height,
                cells == total == width * height,
                wanted == mine_count,
                draws@.len() == cells,
                mines.wf(),
                mines.width() == width,
                mines.height() == height,
                k == y * width + x,
                k <= cells,
                mines_left + placed(cells, wanted, draws@, k as nat) == mine_count,
                mines_left <= cells - k,
                mines@.finite(),
                mines@.len() == placed(cells, wanted, draws@, k as nat),
                forall|p: Position|
                    mines@.contains(p) <==> in_grid(width, height, p) && (p.1 < y || (p.1 == y
                        && p.0 < x)) && takes(cells, wanted, draws@, (p.1 * width + p.0) as nat),
            decreases width - x,
        {
            proof {
                lemma_cell_number(width as int, height as int, x as int, y as int);
            }
            let ghost before = placed(cells, wanted, draws@, k as nat);
            let taken = take_cell(total - k, mines_left, draws[k]);
            proof {
                assert(placed(cells, wanted, draws@, (k + 1) as nat) == if taken {
                    before + 1
                } else {
                    before
                });
                assert(takes(cells, wanted, draws@, k as nat) == taken);
            }
            if taken {
                mines.insert((x, y));
                mines_left -= 1;
            }
            k += 1;
            x += 1;
        }
        proof {
            if width > 0 {
                lemma_cell_number(width as int, height as int, 0, y as int);
            } else {
                assert(y * width + width == (y + 1) * width) by (nonlinear_arith);
            }
        }
        y += 1;
    }
    proof {
        assert(height * width == width * height) by (nonlinear_arith);
        assert(mines@ =~= placement(width, height, mine_count, draws@));
    }
    mines
}

/// The cells that are mined when the numbers for the walk come from the
/// generator made from `seed`.
pub open spec fn seeded_mines(width: usize, height: usize, mine_count: usize, seed: u64) -> Set<
    Position,
> {
    placement(width, height, mine_count, seeded_draws(seed, (width * height) as nat))
}

/// Chooses `mine_count` cells of the grid by the numbers that the generator
/// made from `seed` yields.
pub fn scatter(width: usize, height: usize, mine_count: usize, seed: u64) -> (mines: CellSet)
    requires
        width * height <= usize::MAX,
        mine_count <= width * height,
    ensures
        mines.wf(),
        mines.width() == width,
        mines.height() == height,
        mines@ == seeded_mines(width, height, mine_count, seed),
        mines@.finite(),
        mines@.len() == mine_count,
{
    let draws = draw_numbers(seed, width * height);
    place_mines(width, height, mine_count, &draws)
}

} // verus!
