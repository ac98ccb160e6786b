//! The mathematical model of a game: a grid, three sets of cells and the
//! `lost` flag, with every rule of play as a function on that value.
//!
//! Nothing here is executable. The executable board refines this model, and
//! the theorems about play are stated and proved over it.

use vstd::prelude::*;

verus! {

/// A cell of the grid, as `(x, y)` with `x` the column and `y` the row, both
/// counted from zero.
pub type Position = (usize, usize);

/// What opening a hidden cell revealed.
#[derive(Clone, Copy, Debug, PartialEq, Eq, Structural)]
pub enum OpenResult {
    /// The cell held a mine; the game is lost.
    Mine,
    /// The cell held no mine. The payload is reserved and is always zero: the
    /// number of mines around a cell is read with `neighbouring_mines`.
    NoMine(u8),
}

/// Two distinct cells that touch, by an edge or by a corner.
pub open spec fn adjacent(p: Position, q: Position) -> bool {
    &&& p != q
    &&& p.0 - 1 <= q.0 <= p.0 + 1
    &&& p.1 - 1 <= q.1 <= p.1 + 1
}

/// The `k`-th cell of the three-by-three window centred on `p`. The window is
/// read in row-major order as a matrix indexed by `(x, y)`: by `x`, and by
/// `y` among cells of equal `x`. A cell of it may lie off the grid, so its
/// coordinates are mathematical integers. Cell number 4 is `p` itself.
pub open spec fn window_cell(p: Position, k: int) -> (int, int) {
    (p.0 - 1 + k / 3, p.1 - 1 + k % 3)
}

/// `p` is a cell of the grid with the given numbers of columns and rows.
pub open spec fn in_grid(width: usize, height: usize, p: Position) -> bool {
    p.0 < width && p.1 < height
}

/// The neighbours of `p` on the grid: the cells of the grid that touch it.
pub open spec fn grid_neighbours(width: usize, height: usize, p: Position) -> Set<Position> {
    Set::new(|q: Position| in_grid(width, height, q) && adjacent(p, q))
}

/// The neighbours of `p` among the first `k` cells of its window, in the
/// window's order.
pub open spec fn window_prefix(width: usize, height: usize, p: Position, k: nat) -> Seq<
    Position,
>
    decreases k,
{
    if k == 0 {
        Seq::empty()
    } else {
        let rest = window_prefix(width, height, p, (k - 1) as nat);
        let c = window_cell(p, k - 1);
        if k - 1 != 4 && 0 <= c.0 < width && 0 <= c.1 < height {
            rest.push((c.0 as usize, c.1 as usize))
        } else {
            rest
        }
    }
}

/// The state of a game.
pub struct Board {
    /// Number of columns.
    pub width: usize,
    /// Number of rows.
    pub height: usize,
    /// The mined cells. Play never changes them.
    pub mines: Set<Position>,
    /// The cells that have been revealed.
    pub opened: Set<Position>,
    /// The cells that the player has marked as suspected mines.
    pub flagged: Set<Position>,
    /// Whether a mine has been opened.
    pub lost: bool,
}

impl Board {
    /// `p` is a cell of the grid.
    pub open spec fn in_bounds(self, p: Position) -> bool {
        in_grid(self.width, self.height, p)
    }

    /// All cells of the grid.
    pub open spec fn cells(self) -> Set<Position> {
        Set::new(|p: Position| in_grid(self.width, self.height, p))
    }

    /// The cells that are not opened yet.
    pub open spec fn hidden(self) -> Set<Position> {
        self.cells().difference(self.opened)
    }

    /// What holds of every board that play can reach:
    /// the grid is not empty, the three sets lie on the grid, no cell is both
    /// flagged and opened, and an opened mine exists exactly when the game is
    /// lost, in which case it is the only one.
    pub open spec fn valid(self) -> bool {
        &&& self.width > 0
        &&& self.height > 0
        &&& self.mines.subset_of(self.cells())
        &&& self.opened.subset_of(self.cells())
        &&& self.flagged.subset_of(self.cells())
        &&& self.flagged.disjoint(self.opened)
        &&& self.lost <==> exists|p: Position| self.is_opened_mine(p)
        &&& forall|p: Position, q: Position|
            self.is_opened_mine(p) && self.is_opened_mine(q) ==> p == q
    }

    /// `p` is a mine that was opened: the losing cell.
    pub open spec fn is_opened_mine(self, p: Position) -> bool {
        self.opened.contains(p) && self.mines.contains(p)
    }

    /// The board before the first move: the given mines, nothing opened,
    /// nothing flagged.
    pub open spec fn fresh(width: usize, height: usize, mines: Set<Position>) -> Board {
        Board {
            width,
            height,
            mines,
            opened: Set::empty(),
            flagged: Set::empty(),
            lost: false,
        }
    }

    /// The neighbours of `p`: the cells of the grid that touch it.
    pub open spec fn neighbours(self, p: Position) -> Set<Position> {
        grid_neighbours(self.width, self.height, p)
    }

    /// The neighbours of `p` in the order in which play visits them, which
    /// is that of the window: by `x`, and by `y` among cells of equal `x`.
    pub open spec fn neighbour_seq(self, p: Position) -> Seq<Position> {
        window_prefix(self.width, self.height, p, 9)
    }

    /// The number of neighbours of `p` that are mined.
    pub open spec fn mine_count(self, p: Position) -> nat {
        self.neighbours(p).intersect(self.mines).len()
    }

    /// The number of neighbours of `p` that are flagged.
    pub open spec fn flag_count(self, p: Position) -> nat {
        self.neighbours(p).intersect(self.flagged).len()
    }

    /// A reveal that reached `from` goes on to `to`: `from` has no mine
    /// around it, and `to` is a neighbour of it that is neither opened nor
    /// flagged.
    pub open spec fn spreads(self, from: Position, to: Position) -> bool {
        &&& self.mine_count(from) == 0
        &&& self.in_bounds(to)
        &&& adjacent(from, to)
        &&& !self.opened.contains(to)
        &&& !self.flagged.contains(to)
    }

    /// The reveal spreads from `path[i]` to the cell after it.
    pub open spec fn spreads_at(self, path: Seq<Position>, i: int) -> bool {
        self.spreads(path[i], path[i + 1])
    }

    /// `path` is a way along which a reveal that starts at `start` spreads.
    pub open spec fn is_path(self, start: Position, path: Seq<Position>) -> bool {
        &&& path.len() > 0
        &&& path[0] == start
        &&& forall|i: int| 0 <= i < path.len() - 1 ==> #[trigger] self.spreads_at(path, i)
    }

    /// A reveal that starts at `start` reaches `cell`.
    pub open spec fn reaches(self, start: Position, cell: Position) -> bool {
        exists|path: Seq<Position>| #[trigger] self.is_path(start, path) && path.last() == cell
    }

    /// Every cell that a reveal starting at `start` opens: `start`, and
    /// whatever the reveal spreads to from cells without a mine around them.
    /// It stops at cells with a mine around them, which it opens, and at
    /// flagged cells, which it leaves.
    pub open spec fn cascade(self, start: Position) -> Set<Position> {
        Set::new(|c: Position| self.reaches(start, c))
    }

    /// The board after revealing the hidden, unflagged cell `p` of a game
    /// that is not lost.
    pub open spec fn uncover(self, p: Position) -> Board {
        if self.mines.contains(p) {
            Board { opened: self.opened.insert(p), lost: true, ..self }
        } else {
            Board { opened: self.opened.union(self.cascade(p)), ..self }
        }
    }

    /// The board after an attempt to reveal `p`: nothing happens if `p` is
    /// opened or flagged or the game is lost.
    pub open spec fn open_hidden(self, p: Position) -> Board {
        if self.opened.contains(p) || self.lost || self.flagged.contains(p) {
            self
        } else {
            self.uncover(p)
        }
    }

    /// The board after attempting to reveal each of `cells` in turn.
    pub open spec fn open_each(self, cells: Seq<Position>) -> Board
        decreases cells.len(),
    {
        if cells.len() == 0 {
            self
        } else {
            self.open_each(cells.drop_last()).open_hidden(cells.last())
        }
    }

    /// The opened cell `p` has as many flags around it as mines, which is
    /// what lets the player open the rest of its neighbours in one move.
    pub open spec fn chord_ready(self, p: Position) -> bool {
        self.mine_count(p) == self.flag_count(p)
    }

    /// The board after the move `open(p)`.
    ///
    /// On an opened cell the move is a chord: if the cell is ready for it,
    /// every neighbour is tried in turn. On any other cell it is an attempt to
    /// reveal that cell.
    pub open spec fn open(self, p: Position) -> Board {
        if self.opened.contains(p) {
            if self.chord_ready(p) {
                self.open_each(self.neighbour_seq(p))
            } else {
                self
            }
        } else {
            self.open_hidden(p)
        }
    }

    /// What the move `open(p)` reports: an outcome when it revealed `p`
    /// itself, nothing otherwise.
    pub open spec fn open_result(self, p: Position) -> Option<OpenResult> {
        if self.opened.contains(p) || self.lost || self.flagged.contains(p) {
            None
        } else if self.mines.contains(p) {
            Some(OpenResult::Mine)
        } else {
            Some(OpenResult::NoMine(0))
        }
    }

    /// The board after the move `toggle_flag(p)`: on a hidden cell of a game
    /// that is not lost the flag is flipped, otherwise nothing happens.
    pub open spec fn toggle_flag(self, p: Position) -> Board {
        if self.lost || self.opened.contains(p) {
            self
        } else if self.flagged.contains(p) {
            Board { flagged: self.flagged.remove(p), ..self }
        } else {
            Board { flagged: self.flagged.insert(p), ..self }
        }
    }
}

} // verus!
