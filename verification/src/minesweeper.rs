//! The executable board.

use vstd::prelude::*;
use crate::board::{adjacent, in_grid, window_prefix, Board, OpenResult, Position};
use crate::cascade::{lemma_cascade_least, lemma_cascade_start, lemma_cascade_step};
use crate::cells::CellSet;
use crate::geometry::{count_in, lemma_cells_finite, lemma_counts, lemma_neighbour_seq};
use crate::laws::{
    extends, lemma_fresh_valid, lemma_open_valid, lemma_toggle_flag_valid, lemma_uncover_valid,
};
use crate::placement::{fresh_seed, scatter, seeded_mines};

verus! {

/// Why a board cannot be made, or a move cannot be played.
#[derive(Clone, Copy, Debug, PartialEq, Eq, Structural)]
pub enum BoardError {
    /// The grid has no column or no row.
    EmptyGrid,
    /// The grid has more cells than a `usize` can count.
    GridTooLarge,
    /// More mines are asked for than the grid has cells.
    TooManyMines,
    /// The position is not a cell of the grid.
    OutOfBounds,
}

/// What is wrong with a grid of `width` by `height` cells that is to hold
/// `mine_count` mines, if anything is.
pub open spec fn layout_error(width: usize, height: usize, mine_count: usize) -> Option<
    BoardError,
> {
    if width == 0 || height == 0 {
        Some(BoardError::EmptyGrid)
    } else if width * height > usize::MAX {
        Some(BoardError::GridTooLarge)
    } else if mine_count > width * height {
        Some(BoardError::TooManyMines)
    } else {
        None
    }
}

/// What is wrong with a grid of `width` by `height` cells that is to hold
/// the given mines, if anything is.
pub open spec fn mines_error(width: usize, height: usize, mines: Seq<Position>) -> Option<
    BoardError,
> {
    if width == 0 || height == 0 {
        Some(BoardError::EmptyGrid)
    } else if exists|i: int| 0 <= i < mines.len() && !in_grid(width, height, #[trigger] mines[i]) {
        Some(BoardError::OutOfBounds)
    } else {
        None
    }
}

/// A game in progress.
///
/// Its value is the [`Board`] that `@` gives; every method says what it does
/// to that value.
#[derive(Debug)]
pub struct Minesweeper {
    width: usize,
    height: usize,
    open_fields: CellSet,
    mine_fields: CellSet,
    flagged_fields: CellSet,
    lost: bool,
}

impl View for Minesweeper {
    type V = Board;

    closed spec fn view(&self) -> Board {
        Board {
            width: self.width,
            height: self.height,
            mines: self.mine_fields@,
            opened: self.open_fields@,
            flagged: self.flagged_fields@,
            lost: self.lost,
        }
    }
}

/// One coordinate of a cell of a window: `v - 1 + d`, where that is a
/// coordinate at all.
fn shifted(v: usize, d: usize) -> (r: Option<usize>)
    requires
        d < 3,
    ensures
        match r {
            Some(c) => c == v - 1 + d,
            None => v - 1 + d < 0 || v - 1 + d > usize::MAX,
        },
{
    if d == 0 {
        if v == 0 {
            None
        } else {
            Some(v - 1)
        }
    } else if d == 1 {
        Some(v)
    } else if v == usize::MAX {
        None
    } else {
        Some(v + 1)
    }
}

/// How many of `cells` are members of `set`.
fn count_members(cells: &Vec<Position>, set: &CellSet) -> (count: u8)
    requires
        set.wf(),
        cells@.len() <= 8,
    ensures
        count == count_in(cells@, set@),
{
    let mut count: u8 = 0;
    let mut i: usize = 0;
    while i < cells.len()
        invariant
            set.wf(),
            i <= cells@.len() <= 8,
            count <= i,
            count == count_in(cells@.subrange(0, i as int), set@),
        decreases cells.len() - i,
    {
        assert(cells@.subrange(0, i + 1).drop_last() =~= cells@.subrange(0, i as int));
        if set.contains(cells[i]) {
            count += 1;
        }
        i += 1;
    }
    assert(cells@.subrange(0, i as int) =~= cells@);
    count
}

impl Minesweeper {
    /// The three sets are kept for the grid of this game.
    pub closed spec fn shaped(&self) -> bool {
        &&& self.open_fields.wf()
        &&& self.mine_fields.wf()
        &&& self.flagged_fields.wf()
        &&& self.open_fields.width() == self.width
        &&& self.mine_fields.width() == self.width
        &&& self.flagged_fields.width() == self.width
        &&& self.open_fields.height() == self.height
        &&& self.mine_fields.height() == self.height
        &&& self.flagged_fields.height() == self.height
    }

    /// The representation is sound and the board is one that play can reach.
    pub open spec fn wf(&self) -> bool {
        self.shaped() && self@.valid()
    }

    /// A new game on a grid of `width` by `height` cells, with `mine_count`
    /// mines on cells chosen at random: the game that `with_seed` makes from
    /// a seed that differs from one call to the next.
    pub fn new(width: usize, height: usize, mine_count: usize) -> (game: Minesweeper)
        requires
            layout_error(width, height, mine_count) is None,
        ensures
            game.wf(),
            game@.mines.len() == mine_count,
            exists|seed: u64|
                game@ == Board::fresh(
                    width,
                    height,
                    #[trigger] seeded_mines(width, height, mine_count, seed),
                ),
    {
        Minesweeper::with_seed(width, height, mine_count, fresh_seed())
    }

    /// A new game as `new` makes it, or the reason why there is no such
    /// game.
    pub fn try_new(width: usize, height: usize, mine_count: usize) -> (result: Result<
        Minesweeper,
        BoardError,
    >)
        ensures
            match layout_error(width, height, mine_count) {
                Some(error) => result == Err::<Minesweeper, BoardError>(error),
                None => result matches Ok(game) && game.wf() && game@.mines.len() == mine_count
                    && exists|seed: u64|
                    game@ == Board::fresh(
                        width,
                        height,
                        #[trigger] seeded_mines(width, height, mine_count, seed),
                    ),
            },
    {
        if width == 0 || height == 0 {
            return Err(BoardError::EmptyGrid);
        }
        match width.checked_mul(height) {
            None => Err(BoardError::GridTooLarge),
            Some(cells) => {
                if mine_count > cells {
                    Err(BoardError::TooManyMines)
                } else {
                    Ok(Minesweeper::new(width, height, mine_count))
                }
            },
        }
    }

    /// A new game whose mines are chosen by the random numbers that follow
    /// from `seed`: the same seed gives the same game.
    pub fn with_seed(width: usize, height: usize, mine_count: usize, seed: u64) -> (game:
        Minesweeper)
        requires
            layout_error(width, height, mine_count) is None,
        ensures
            game.wf(),
            game@ == Board::fresh(width, height, seeded_mines(width, height, mine_count, seed)),
            game@.mines.len() == mine_count,
    {
        let mine_fields = scatter(width, height, mine_count, seed);
        let game = Minesweeper {
            width,
            height,
            open_fields: CellSet::empty(width, height),
            mine_fields,
            flagged_fields: CellSet::empty(width, height),
            lost: false,
        };
        proof {
            game.mine_fields.lemma_members_covered();
            assert(game.mine_fields.width() == width);
            assert(game.mine_fields.height() == height);
            assert forall|p: Position| game@.mines.contains(p) implies p.0 < width && p.1
                < height by {
                assert(game.mine_fields.covers(p));
            }
            lemma_fresh_valid(width, height, game@.mines);
        }
        game
    }

    /// A new game with a mine on each of the given cells, or the reason why
    /// there is no such game. A cell that is given twice holds one mine.
    pub fn with_mines(width: usize, height: usize, mines: &Vec<Position>) -> (result: Result<
        Minesweeper,
        BoardError,
    >)
        ensures
            match mines_error(width, height, mines@) {
                Some(error) => result == Err::<Minesweeper, BoardError>(error),
                None => result matches Ok(game) && game.wf() && game@ == Board::fresh(
                    width,
                    height,
                    mines@.to_set(),
                ),
            },
    {
        if width == 0 || height == 0 {
            return Err(BoardError::EmptyGrid);
        }
        let mut mine_fields = CellSet::empty(width, height);
        let mut i: usize = 0;
        while i < mines.len()
            invariant
                width > 0,
                height > 0,
                i <= mines@.len(),
                mine_fields.wf(),
                mine_fields.width() == width,
                mine_fields.height() == height,
                mine_fields@ == mines@.subrange(0, i as int).to_set(),
                forall|j: int| 0 <= j < i ==> in_grid(width, height, #[trigger] mines@[j]),
            decreases mines.len() - i,
        {
            let mine = mines[i];
            if mine.0 >= width || mine.1 >= height {
                assert(!in_grid(width, height, mines@[i as int]));
                return Err(BoardError::OutOfBounds);
            }
            mine_fields.insert(mine);
            proof {
                let taken = mines@.subrange(0, i as int);
                assert(mines@.subrange(0, i + 1) =~= taken.push(mine));
                taken.lemma_push_to_set_commute(mine);
            }
            i += 1;
        }
        assert(mines@.subrange(0, i as int) =~= mines@);
        let game = Minesweeper {
            width,
            height,
            open_fields: CellSet::empty(width, height),
            mine_fields,
            flagged_fields: CellSet::empty(width, height),
            lost: false,
        };
        proof {
            game.mine_fields.lemma_members_covered();
            lemma_fresh_valid(width, height, game@.mines);
        }
        Ok(game)
    }

    /// Number of columns.
    pub fn width(&self) -> (width: usize)
        ensures
            width == self@.width,
    {
        self.width
    }

    /// Number of rows.
    pub fn height(&self) -> (height: usize)
        ensures
            height == self@.height,
    {
        self.height
    }

    /// Whether a mine has been opened.
    pub fn is_lost(&self) -> (lost: bool)
        ensures
            lost == self@.lost,
    {
        self.lost
    }

    /// Whether `pos` is a cell of the grid.
    pub fn in_bounds(&self, pos: Position) -> (inside: bool)
        ensures
            inside == self@.in_bounds(pos),
    {
        pos.0 < self.width && pos.1 < self.height
    }

    /// Whether the cell at `pos` has been opened.
    pub fn is_open(&self, pos: Position) -> (open: bool)
        requires
            self.wf(),
        ensures
            open == self@.opened.contains(pos),
    {
        self.open_fields.contains(pos)
    }

    /// Whether the cell at `pos` holds a mine.
    pub fn is_mine(&self, pos: Position) -> (mine: bool)
        requires
            self.wf(),
        ensures
            mine == self@.mines.contains(pos),
    {
        self.mine_fields.contains(pos)
    }

    /// Whether the cell at `pos` carries a flag.
    pub fn is_flagged(&self, pos: Position) -> (flagged: bool)
        requires
            self.wf(),
        ensures
            flagged == self@.flagged.contains(pos),
    {
        self.flagged_fields.contains(pos)
    }

    /// The neighbours of `position`: the cells of the grid that touch it, in
    /// the order of its window, by `x` and by `y` among cells of equal `x`.
    /// A position off the grid has the cells of the grid that touch it.
    pub fn iter_neighbours(&self, position: Position) -> (result: Vec<Position>)
        ensures
            result@ == self@.neighbour_seq(position),
            result@.len() <= 8,
            result@.no_duplicates(),
            forall|q: Position|
                result@.contains(q) <==> self@.in_bounds(q) && adjacent(position, q),
            forall|i: int|
                0 <= i < result@.len() ==> self@.in_bounds(#[trigger] result@[i]) && adjacent(
                    position,
                    result@[i],
                ),
    {
        let mut result: Vec<Position> = Vec::new();
        let mut k: usize = 0;
        while k < 9
            invariant
                k <= 9,
                result@ == window_prefix(self.width, self.height, position, k as nat),
            decreases 9 - k,
        {
            if k != 4 {
                match (shifted(position.0, k / 3), shifted(position.1, k % 3)) {
                    (Some(x), Some(y)) => {
                        if x < self.width && y < self.height {
                            result.push((x, y));
                        }
                    },
                    _ => {},
                }
            }
            k += 1;
        }
        proof {
            lemma_neighbour_seq(self@, position);
        }
        result
    }

    /// The number of mines around `pos`.
    pub fn neighbouring_mines(&self, pos: Position) -> (count: u8)
        requires
            self.wf(),
        ensures
            count == self@.mine_count(pos),
    {
        self.mines_around(pos)
    }

    /// The number of mines around `pos`, while a reveal is under way.
    fn mines_around(&self, pos: Position) -> (count: u8)
        requires
            self.shaped(),
        ensures
            count == self@.mine_count(pos),
    {
        let around = self.iter_neighbours(pos);
        proof {
            lemma_counts(self@, pos);
        }
        count_members(&around, &self.mine_fields)
    }

    /// The number of flags around `pos`.
    pub fn neighbouring_flags(&self, pos: Position) -> (count: u8)
        requires
            self.wf(),
        ensures
            count == self@.flag_count(pos),
    {
        let around = self.iter_neighbours(pos);
        proof {
            lemma_counts(self@, pos);
        }
        count_members(&around, &self.flagged_fields)
    }

    /// Reveals the hidden, unflagged cell `p` of a game that is not lost:
    /// a mine loses the game, any other cell starts a cascade.
    ///
    /// The cascade is a flood fill with a list of cells whose neighbours are
    /// still to be opened. A cell enters the list when it is opened and has
    /// no mine around it, so each cell enters it once at most.
    #[verifier::loop_isolation(false)]
    fn uncover(&mut self, p: Position) -> (result: OpenResult)
        requires
            old(self).wf(),
            old(self)@.in_bounds(p),
            !old(self)@.opened.contains(p),
            !old(self)@.flagged.contains(p),
            !old(self)@.lost,
        ensures
            final(self).wf(),
            final(self)@ == old(self)@.uncover(p),
            result == if old(self)@.mines.contains(p) {
                OpenResult::Mine
            } else {
                OpenResult::NoMine(0)
            },
    {
        let ghost before = self@;
        self.open_fields.insert(p);
        if self.mine_fields.contains(p) {
            self.lost = true;
            proof {
                assert(self@ == before.uncover(p));
                lemma_uncover_valid(before, p);
            }
            return OpenResult::Mine;
        }
        let mut pending: Vec<Position> = Vec::new();
        if self.mines_around(p) == 0 {
            pending.push(p);
        }
        proof {
            lemma_cascade_start(before, p);
            assert(self@.opened =~= before.opened.insert(p));
            assert(before.mine_count(p) == 0 ==> pending@[0] == p);
        }
        while pending.len() > 0
            invariant
                self.shaped(),
                self@.width == before.width,
                self@.height == before.height,
                self@.mines == before.mines,
                self@.flagged == before.flagged,
                self@.lost == before.lost,
                before.opened.insert(p).subset_of(self@.opened),
                self@.opened.subset_of(before.opened.union(before.cascade(p))),
                forall|c: Position, n: Position|
                    self@.opened.contains(c) && !before.opened.contains(c)
                        && #[trigger] before.spreads(c, n) ==> pending@.contains(c)
                        || self@.opened.contains(n),
                forall|i: int|
                    0 <= i < pending@.len() ==> {
                        &&& before.in_bounds(#[trigger] pending@[i])
                        &&& self@.opened.contains(pending@[i])
                        &&& !before.opened.contains(pending@[i])
                        &&& before.mine_count(pending@[i]) == 0
                    },
            decreases self@.hidden().len(), pending@.len(),
        {
            let ghost hidden_before = self@.hidden().len();
            let ghost pending_before = pending@;
            let from = pending.pop().unwrap();
            let around = self.iter_neighbours(from);
            proof {
                lemma_neighbour_seq(before, from);
                assert(around@ == before.neighbour_seq(from));
                assert(pending_before[pending_before.len() - 1] == from);
                assert forall|c: Position| pending_before.contains(c) implies c == from
                    || pending@.contains(c) by {
                    let i = choose|i: int| 0 <= i < pending_before.len() && pending_before[i] == c;
                    if i < pending@.len() {
                        assert(pending@[i] == c);
                    }
                }
            }
            let mut i: usize = 0;
            while i < around.len()
                invariant
                    self.shaped(),
                    self@.width == before.width,
                    self@.height == before.height,
                    self@.mines == before.mines,
                    self@.flagged == before.flagged,
                    self@.lost == before.lost,
                    before.opened.insert(p).subset_of(self@.opened),
                    self@.opened.subset_of(before.opened.union(before.cascade(p))),
                    forall|c: Position, n: Position|
                        self@.opened.contains(c) && !before.opened.contains(c)
                            && #[trigger] before.spreads(c, n) ==> pending@.contains(c) || c
                            == from || self@.opened.contains(n),
                    forall|i: int|
                        0 <= i < pending@.len() ==> {
                            &&& before.in_bounds(#[trigger] pending@[i])
                            &&& self@.opened.contains(pending@[i])
                            &&& !before.opened.contains(pending@[i])
                            &&& before.mine_count(pending@[i]) == 0
                        },
                    i <= around@.len(),
                    self@.opened.contains(from),
                    forall|j: int|
                        0 <= j < i && before.spreads(from, #[trigger] around@[j])
                            ==> self@.opened.contains(around@[j]),
                    self@.hidden().len() <= hidden_before,
                    self@.hidden().len() == hidden_before ==> pending@.len() + 1
                        == pending_before.len(),
                decreases around.len() - i,
            {
                let to = around[i];
                proof {
                    lemma_neighbour_seq(before, from);
                    assert(around@.contains(to));
                }
                if !self.open_fields.contains(to) && !self.flagged_fields.contains(to) {
                    let ghost now = self@;
                    let ghost pending_now = pending@;
                    self.open_fields.insert(to);
                    proof {
                        assert(before.spreads(from, to));
                        assert(before.cascade(p).contains(from));
                        lemma_cascade_step(before, p, from, to);
                        lemma_cells_finite(now);
                        assert(now.hidden().contains(to));
                        assert(self@.hidden() =~= now.hidden().remove(to));
                    }
                    if self.mines_around(to) == 0 {
                        pending.push(to);
                        proof {
                            assert(pending@[pending_now.len() as int] == to);
                            assert forall|c: Position| pending_now.contains(c) implies pending@
                                .contains(c) by {
                                let k = choose|k: int|
                                    0 <= k < pending_now.len() && pending_now[k] == c;
                                assert(pending@[k] == c);
                            }
                        }
                    }
                }
                i += 1;
            }
            proof {
                assert forall|c: Position, n: Position|
                    self@.opened.contains(c) && !before.opened.contains(c)
                        && #[trigger] before.spreads(c, n) implies pending@.contains(c)
                    || self@.opened.contains(n) by {
                    if c == from {
                        assert(around@.contains(n));
                        let j = choose|j: int| 0 <= j < around@.len() && around@[j] == n;
                        assert(before.spreads(from, around@[j]));
                    }
                }
            }
        }
        proof {
            let grown = self@.opened.difference(before.opened);
            assert(grown.contains(p));
            assert forall|c: Position, n: Position|
                grown.contains(c) && #[trigger] before.spreads(c, n) implies grown.contains(n) by {
                assert(!pending@.contains(c));
            }
            lemma_cascade_least(before, p, grown);
            assert(self@.opened =~= before.opened.union(before.cascade(p)));
            assert(self@ == before.uncover(p));
            lemma_uncover_valid(before, p);
        }
        OpenResult::NoMine(0)
    }

    /// Tries to reveal `p`: nothing happens if `p` is opened or flagged or
    /// the game is lost.
    fn open_hidden(&mut self, p: Position) -> (result: Option<OpenResult>)
        requires
            old(self).wf(),
            old(self)@.in_bounds(p),
        ensures
            final(self).wf(),
            final(self)@ == old(self)@.open_hidden(p),
            result == old(self)@.open_result(p),
    {
        if self.open_fields.contains(p) || self.lost || self.flagged_fields.contains(p) {
            None
        } else {
            Some(self.uncover(p))
        }
    }

    /// Opens the cell at `position`.
    ///
    /// On a hidden cell this reveals it, unless it is flagged or the game is
    /// lost: a mine loses the game, and a cell with no mine around it opens
    /// its neighbours in turn. The result is then the outcome for `position`.
    ///
    /// On an opened cell that has as many flags around it as mines, every
    /// neighbour that is neither flagged nor opened is revealed in turn. The
    /// result is then `None`.
    pub fn open(&mut self, position: Position) -> (result: Option<OpenResult>)
        requires
            old(self).wf(),
            old(self)@.in_bounds(position),
        ensures
            final(self).wf(),
            final(self)@ == old(self)@.open(position),
            result == old(self)@.open_result(position),
            extends(old(self)@, final(self)@),
            result is Some ==> final(self)@.opened.contains(position),
    {
        proof {
            lemma_open_valid(old(self)@, position);
            if !old(self)@.opened.contains(position) && !old(self)@.lost
                && !old(self)@.flagged.contains(position) {
                lemma_uncover_valid(old(self)@, position);
            }
        }
        if self.open_fields.contains(position) {
            let mine_count = self.neighbouring_mines(position);
            let flag_count = self.neighbouring_flags(position);
            if mine_count == flag_count {
                let ghost before = self@;
                let around = self.iter_neighbours(position);
                let mut i: usize = 0;
                while i < around.len()
                    invariant
                        self.wf(),
                        i <= around@.len(),
                        self@.width == before.width,
                        self@.height == before.height,
                        forall|j: int|
                            0 <= j < around@.len() ==> before.in_bounds(#[trigger] around@[j]),
                        self@ == before.open_each(around@.subrange(0, i as int)),
                    decreases around.len() - i,
                {
                    assert(around@.subrange(0, i + 1).drop_last() =~= around@.subrange(
                        0,
                        i as int,
                    ));
                    self.open_hidden(around[i]);
                    i += 1;
                }
                assert(around@.subrange(0, i as int) =~= around@);
            }
            None
        } else {
            self.open_hidden(position)
        }
    }

    /// Sets or clears the flag on the cell at `pos`. Nothing happens if the
    /// cell is opened or the game is lost.
    pub fn toggle_flag(&mut self, pos: Position)
        requires
            old(self).wf(),
            old(self)@.in_bounds(pos),
        ensures
            final(self).wf(),
            final(self)@ == old(self)@.toggle_flag(pos),
            final(self)@.width == old(self)@.width,
            final(self)@.height == old(self)@.height,
            final(self)@.mines == old(self)@.mines,
            final(self)@.opened == old(self)@.opened,
            final(self)@.lost == old(self)@.lost,
    {
        if self.lost || self.open_fields.contains(pos) {
            return ;
        }
        if self.flagged_fields.contains(pos) {
            self.flagged_fields.remove(pos);
        } else {
            self.flagged_fields.insert(pos);
        }
        proof {
            assert(self@ == old(self)@.toggle_flag(pos));
            lemma_toggle_flag_valid(old(self)@, pos);
        }
    }

    /// Opens the cell at `position` as `open` does, or reports that there is
    /// no such cell, in which case nothing changes.
    pub fn try_open(&mut self, position: Position) -> (result: Result<
        Option<OpenResult>,
        BoardError,
    >)
        requires
            old(self).wf(),
        ensures
            final(self).wf(),
            old(self)@.in_bounds(position) ==> final(self)@ == old(self)@.open(position) && result
                == Ok::<Option<OpenResult>, BoardError>(old(self)@.open_result(position)),
            !old(self)@.in_bounds(position) ==> final(self)@ == old(self)@ && result == Err::<
                Option<OpenResult>,
                BoardError,
            >(BoardError::OutOfBounds),
    {
        if self.in_bounds(position) {
            Ok(self.open(position))
        } else {
            Err(BoardError::OutOfBounds)
        }
    }

    /// Toggles the flag on the cell at `pos` as `toggle_flag` does, or
    /// reports that there is no such cell, in which case nothing changes.
    pub fn try_toggle_flag(&mut self, pos: Position) -> (result: Result<(), BoardError>)
        requires
            old(self).wf(),
        ensures
            final(self).wf(),
            old(self)@.in_bounds(pos) ==> final(self)@ == old(self)@.toggle_flag(pos)
                && result is Ok,
            !old(self)@.in_bounds(pos) ==> final(self)@ == old(self)@ && result == Err::<
                (),
                BoardError,
            >(BoardError::OutOfBounds),
    {
        if self.in_bounds(pos) {
            self.toggle_flag(pos);
            Ok(())
        } else {
            Err(BoardError::OutOfBounds)
        }
    }
}

} // verus!
