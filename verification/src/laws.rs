//! Theorems about play, proved over the model.
//!
//! Each holds of every board and every move that its `requires` admits, and
//! so of every game that the executable board can play.

use vstd::prelude::*;
use crate::board::{adjacent, Board, OpenResult, Position};
use crate::cascade::{
    lemma_cascade_cells, lemma_cascade_least, lemma_cascade_origin, lemma_cascade_start,
    lemma_cascade_step, lemma_cascade_within,
};
use crate::geometry::lemma_neighbour_seq;

verus! {

/// A board before the first move is valid, if its grid is not empty and its
/// mines lie on it.
pub proof fn lemma_fresh_valid(width: usize, height: usize, mines: Set<Position>)
    requires
        width > 0,
        height > 0,
        forall|p: Position| mines.contains(p) ==> p.0 < width && p.1 < height,
    ensures
        Board::fresh(width, height, mines).valid(),
{
}

/// Revealing a hidden, unflagged cell of a game that is not lost gives a
/// valid board. It changes neither the grid nor the mines nor the flags, and
/// it closes no cell.
pub proof fn lemma_uncover_valid(b: Board, p: Position)
    requires
        b.valid(),
        b.in_bounds(p),
        !b.opened.contains(p),
        !b.flagged.contains(p),
        !b.lost,
    ensures
        b.uncover(p).valid(),
        b.uncover(p).opened.contains(p),
        b.uncover(p).lost == b.mines.contains(p),
{
    let after = b.uncover(p);
    lemma_cascade_start(b, p);
    if b.mines.contains(p) {
        assert(after.is_opened_mine(p));
        assert forall|q: Position| after.is_opened_mine(q) implies q == p by {
            if q != p {
                assert(b.is_opened_mine(q));
            }
        }
    } else {
        lemma_cascade_cells(b, p);
        assert forall|q: Position| !after.is_opened_mine(q) by {
            if after.is_opened_mine(q) {
                assert(b.cascade(p).contains(q) || b.is_opened_mine(q));
            }
        }
        assert forall|q: Position| after.opened.contains(q) implies after.cells().contains(q) by {
            assert(b.cascade(p).contains(q) || b.opened.contains(q));
        }
        assert forall|q: Position| after.flagged.contains(q) implies !after.opened.contains(q) by {
            assert(b.cascade(p).contains(q) ==> q == p || !b.flagged.contains(q));
        }
    }
}

/// What no move of `open` touches: the grid, the mines and the flags stay,
/// what was opened stays opened, and a lost game stays lost.
pub open spec fn extends(before: Board, after: Board) -> bool {
    &&& after.width == before.width
    &&& after.height == before.height
    &&& after.mines == before.mines
    &&& after.flagged == before.flagged
    &&& before.opened.subset_of(after.opened)
    &&& before.lost ==> after.lost
}

/// An attempt to reveal a cell of the grid keeps the board valid, and only
/// opens cells.
pub proof fn lemma_open_hidden_valid(b: Board, p: Position)
    requires
        b.valid(),
        b.in_bounds(p),
    ensures
        b.open_hidden(p).valid(),
        extends(b, b.open_hidden(p)),
{
    if !(b.opened.contains(p) || b.lost || b.flagged.contains(p)) {
        lemma_uncover_valid(b, p);
    }
}

/// Attempts to reveal cells of the grid, one after the other, keep the board
/// valid, and only open cells.
pub proof fn lemma_open_each_valid(b: Board, cells: Seq<Position>)
    requires
        b.valid(),
        forall|i: int| 0 <= i < cells.len() ==> b.in_bounds(#[trigger] cells[i]),
    ensures
        b.open_each(cells).valid(),
        extends(b, b.open_each(cells)),
    decreases cells.len(),
{
    if cells.len() > 0 {
        let rest = cells.drop_last();
        assert forall|i: int| 0 <= i < rest.len() implies b.in_bounds(#[trigger] rest[i]) by {
            assert(rest[i] == cells[i]);
        }
        lemma_open_each_valid(b, rest);
        assert(b.in_bounds(cells[cells.len() - 1]));
        lemma_open_hidden_valid(b.open_each(rest), cells.last());
    }
}

/// After any `open` the board is valid: in particular no cell is both
/// flagged and opened. The move changes neither the grid nor the mines nor
/// the flags, it closes no cell, and it does not undo a loss.
pub proof fn lemma_open_valid(b: Board, p: Position)
    requires
        b.valid(),
        b.in_bounds(p),
    ensures
        b.open(p).valid(),
        b.open(p).flagged.disjoint(b.open(p).opened),
        extends(b, b.open(p)),
{
    if b.opened.contains(p) {
        if b.chord_ready(p) {
            lemma_neighbour_seq(b, p);
            lemma_open_each_valid(b, b.neighbour_seq(p));
        }
    } else {
        lemma_open_hidden_valid(b, p);
    }
}

/// After any `toggle_flag` the board is valid: in particular no cell is both
/// flagged and opened. The move changes nothing but the flag on its cell.
pub proof fn lemma_toggle_flag_valid(b: Board, p: Position)
    requires
        b.valid(),
        b.in_bounds(p),
    ensures
        b.toggle_flag(p).valid(),
        b.toggle_flag(p).flagged.disjoint(b.toggle_flag(p).opened),
        b.toggle_flag(p).width == b.width,
        b.toggle_flag(p).height == b.height,
        b.toggle_flag(p).mines == b.mines,
        b.toggle_flag(p).opened == b.opened,
        b.toggle_flag(p).lost == b.lost,
        forall|q: Position|
            q != p ==> (b.toggle_flag(p).flagged.contains(q) <==> b.flagged.contains(q)),
{
    let after = b.toggle_flag(p);
    assert forall|q: Position| after.is_opened_mine(q) == b.is_opened_mine(q) by {}
    if b.lost {
        let q = choose|q: Position| b.is_opened_mine(q);
        assert(after.is_opened_mine(q));
    }
}

/// Toggling the flag of a cell twice gives back the board as it was.
pub proof fn lemma_toggle_flag_twice(b: Board, p: Position)
    ensures
        b.toggle_flag(p).toggle_flag(p) == b,
{
    let once = b.toggle_flag(p);
    let twice = once.toggle_flag(p);
    assert(twice.flagged =~= b.flagged);
}

/// Attempts to reveal cells change nothing once the game is lost.
pub proof fn lemma_open_each_lost(b: Board, cells: Seq<Position>)
    requires
        b.lost,
    ensures
        b.open_each(cells) == b,
    decreases cells.len(),
{
    if cells.len() > 0 {
        lemma_open_each_lost(b, cells.drop_last());
    }
}

/// Once the game is lost no move changes the board, and `open` reports
/// nothing.
pub proof fn lemma_lost_is_final(b: Board, p: Position)
    requires
        b.lost,
    ensures
        b.open(p) == b,
        b.open_result(p) is None,
        b.toggle_flag(p) == b,
{
    lemma_open_each_lost(b, b.neighbour_seq(p));
}

/// Opening a hidden, unflagged mine loses the game: the move reports the
/// mine, and the cell is then both opened and mined.
pub proof fn lemma_open_mine(b: Board, p: Position)
    requires
        !b.lost,
        !b.opened.contains(p),
        !b.flagged.contains(p),
        b.mines.contains(p),
    ensures
        b.open(p).lost,
        b.open(p).opened.contains(p),
        b.open(p).mines.contains(p),
        b.open(p).opened == b.opened.insert(p),
        b.open_result(p) == Some(OpenResult::Mine),
{
}

/// What one reveal opens, said without paths.
///
/// Opening a hidden, unflagged cell without a mine, in a game that is not
/// lost, opens that cell; from every cell it opened that has no mine around
/// it, it opens each neighbour that was neither opened nor flagged; and it
/// opens nothing else: every other cell it opened was reached in that way
/// from a cell it opened. The move reports that there was no mine.
pub proof fn lemma_open_floods(b: Board, p: Position)
    requires
        !b.lost,
        !b.opened.contains(p),
        !b.flagged.contains(p),
        !b.mines.contains(p),
    ensures
        b.open_result(p) == Some(OpenResult::NoMine(0)),
        b.open(p).opened == b.opened.union(b.cascade(p)),
        b.open(p).opened.contains(p),
        !b.open(p).lost,
        forall|c: Position, n: Position|
            b.open(p).opened.contains(c) && !b.opened.contains(c) && #[trigger] b.spreads(c, n)
                ==> b.open(p).opened.contains(n),
        forall|c: Position|
            b.open(p).opened.contains(c) && !b.opened.contains(c) && c != p ==> exists|
                from: Position,
            |
                b.open(p).opened.contains(from) && !b.opened.contains(from) && #[trigger] b.spreads(
                    from,
                    c,
                ),
{
    let after = b.open(p);
    lemma_cascade_start(b, p);
    lemma_cascade_cells(b, p);
    assert forall|c: Position, n: Position|
        after.opened.contains(c) && !b.opened.contains(c) && #[trigger] b.spreads(
            c,
            n,
        ) implies after.opened.contains(n) by {
        lemma_cascade_step(b, p, c, n);
    }
    assert forall|c: Position|
        after.opened.contains(c) && !b.opened.contains(c) && c != p implies exists|
        from: Position,
    |
        after.opened.contains(from) && !b.opened.contains(from) && #[trigger] b.spreads(
            from,
            c,
        ) by {
        lemma_cascade_origin(b, p, c);
        let from = choose|from: Position|
            b.cascade(p).contains(from) && #[trigger] b.spreads(from, c);
        assert(b.cascade(p).contains(from) && from != p ==> !b.opened.contains(from));
        assert(after.opened.contains(from) && !b.opened.contains(from) && b.spreads(from, c));
    }
}

/// Every mine among `cells` carries a flag.
pub open spec fn mines_flagged(b: Board, cells: Seq<Position>) -> bool {
    forall|i: int|
        0 <= i < cells.len() && b.mines.contains(#[trigger] cells[i]) ==> b.flagged.contains(
            cells[i],
        )
}

/// Attempts to reveal cells whose mines are all flagged do not lose the game.
pub proof fn lemma_open_each_safe(b: Board, cells: Seq<Position>)
    requires
        mines_flagged(b, cells),
    ensures
        b.open_each(cells).lost == b.lost,
        b.open_each(cells).flagged == b.flagged,
        b.open_each(cells).mines == b.mines,
        b.opened.subset_of(b.open_each(cells).opened),
    decreases cells.len(),
{
    if cells.len() > 0 {
        let rest = cells.drop_last();
        assert forall|i: int|
            0 <= i < rest.len() && b.mines.contains(#[trigger] rest[i]) implies b.flagged.contains(
            rest[i],
        ) by {
            assert(rest[i] == cells[i]);
        }
        lemma_open_each_safe(b, rest);
        assert(b.mines.contains(cells[cells.len() - 1]) ==> b.flagged.contains(cells.last()));
    }
}

/// Attempts to reveal cells that are all opened change nothing.
pub proof fn lemma_open_each_opened(b: Board, cells: Seq<Position>)
    requires
        forall|i: int| 0 <= i < cells.len() ==> b.opened.contains(#[trigger] cells[i]),
    ensures
        b.open_each(cells) == b,
    decreases cells.len(),
{
    if cells.len() > 0 {
        let rest = cells.drop_last();
        assert forall|i: int| 0 <= i < rest.len() implies b.opened.contains(#[trigger] rest[i]) by {
            assert(rest[i] == cells[i]);
        }
        lemma_open_each_opened(b, rest);
        assert(b.opened.contains(cells[cells.len() - 1]));
    }
}

/// A mine without a flag stands among the neighbours of `p`.
pub open spec fn unflagged_mine_around(b: Board, p: Position) -> bool {
    exists|q: Position|
        b.in_bounds(q) && adjacent(p, q) && #[trigger] b.mines.contains(q) && !b.flagged.contains(
            q,
        )
}

/// Attempts to reveal cells, one of which is a mine without a flag, lose the
/// game.
pub proof fn lemma_open_each_hits(b: Board, cells: Seq<Position>, i: int)
    requires
        b.valid(),
        forall|j: int| 0 <= j < cells.len() ==> b.in_bounds(#[trigger] cells[j]),
        0 <= i < cells.len(),
        b.mines.contains(cells[i]),
        !b.flagged.contains(cells[i]),
    ensures
        b.open_each(cells).lost,
    decreases cells.len(),
{
    let rest = cells.drop_last();
    assert forall|j: int| 0 <= j < rest.len() implies b.in_bounds(#[trigger] rest[j]) by {
        assert(rest[j] == cells[j]);
    }
    lemma_open_each_valid(b, rest);
    let so_far = b.open_each(rest);
    if i < cells.len() - 1 {
        assert(rest[i] == cells[i]);
        lemma_open_each_hits(b, rest, i);
    } else if !so_far.lost {
        assert(!so_far.is_opened_mine(cells.last()));
    }
}

/// Every cell that a reveal opens when it starts at one of `cells` that is
/// neither opened nor flagged.
pub open spec fn cascade_of_each(b: Board, cells: Seq<Position>) -> Set<Position> {
    Set::new(
        |c: Position|
            exists|i: int|
                0 <= i < cells.len() && !b.opened.contains(cells[i]) && !b.flagged.contains(
                    cells[i],
                ) && #[trigger] b.cascade(cells[i]).contains(c),
    )
}

/// Attempts to reveal cells whose mines are all flagged open what a reveal
/// from each of them opens on the board as it was, whatever their order.
pub proof fn lemma_open_each_floods(b: Board, cells: Seq<Position>)
    requires
        b.valid(),
        !b.lost,
        forall|i: int| 0 <= i < cells.len() ==> b.in_bounds(#[trigger] cells[i]),
        mines_flagged(b, cells),
    ensures
        b.open_each(cells).opened == b.opened.union(cascade_of_each(b, cells)),
        b.open_each(cells) == (Board { opened: b.open_each(cells).opened, ..b }),
    decreases cells.len(),
{
    let after = b.open_each(cells);
    if cells.len() == 0 {
        assert(after.opened =~= b.opened.union(cascade_of_each(b, cells)));
    } else {
        let rest = cells.drop_last();
        let last = cells.last();
        assert forall|i: int| 0 <= i < rest.len() implies b.in_bounds(#[trigger] rest[i]) by {
            assert(rest[i] == cells[i]);
        }
        assert(mines_flagged(b, rest)) by {
            assert forall|i: int|
                0 <= i < rest.len() && b.mines.contains(#[trigger] rest[i]) implies b.flagged.contains(
                rest[i],
            ) by {
                assert(rest[i] == cells[i]);
            }
        }
        lemma_open_each_floods(b, rest);
        lemma_open_each_valid(b, rest);
        lemma_open_each_safe(b, rest);
        lemma_open_each_safe(b, cells);
        let so_far = b.open_each(rest);
        let earlier = cascade_of_each(b, rest);
        let all = cascade_of_each(b, cells);
        assert(last == cells[cells.len() - 1]);
        assert(b.in_bounds(last));
        assert(b.mines.contains(last) ==> b.flagged.contains(last));
        assert forall|c: Position| earlier.contains(c) implies all.contains(c) by {
            let i = choose|i: int|
                0 <= i < rest.len() && !b.opened.contains(rest[i]) && !b.flagged.contains(rest[i])
                    && #[trigger] b.cascade(rest[i]).contains(c);
            assert(cells[i] == rest[i]);
        }
        assert forall|c: Position| all.contains(c) implies earlier.contains(c) || (
        !b.opened.contains(last) && !b.flagged.contains(last) && b.cascade(last).contains(c)) by {
            let i = choose|i: int|
                0 <= i < cells.len() && !b.opened.contains(cells[i]) && !b.flagged.contains(
                    cells[i],
                ) && #[trigger] b.cascade(cells[i]).contains(c);
            if i < rest.len() {
                assert(rest[i] == cells[i]);
            }
        }
        if b.opened.contains(last) || b.flagged.contains(last) {
            // Nothing starts at `last`, on the board as it was or as it is.
            assert(after == so_far);
            assert(after.opened =~= b.opened.union(all));
        } else if so_far.opened.contains(last) {
            // An earlier reveal reached `last`, and with it all that a
            // reveal from `last` opens.
            assert(after == so_far);
            assert(earlier.contains(last));
            let i = choose|i: int|
                0 <= i < rest.len() && !b.opened.contains(rest[i]) && !b.flagged.contains(rest[i])
                    && #[trigger] b.cascade(rest[i]).contains(last);
            lemma_cascade_within(b, rest[i], last);
            assert forall|c: Position| b.cascade(last).contains(c) implies earlier.contains(c) by {
                assert(b.cascade(rest[i]).contains(c));
            }
            assert(after.opened =~= b.opened.union(all));
        } else {
            // A reveal starts at `last`. Every way along which it spreads now
            // was a way before, and every way before either is one now or
            // runs into what an earlier reveal opened.
            assert(after == so_far.uncover(last));
            assert(!so_far.mines.contains(last));
            let now = so_far.cascade(last);
            let then = b.cascade(last);
            lemma_cascade_start(b, last);
            lemma_cascade_start(so_far, last);
            assert forall|c: Position, n: Position|
                then.contains(c) && #[trigger] so_far.spreads(c, n) implies then.contains(n) by {
                assert(b.spreads(c, n));
                lemma_cascade_step(b, last, c, n);
            }
            lemma_cascade_least(so_far, last, then);
            let closed = earlier.union(now);
            assert forall|c: Position, n: Position|
                closed.contains(c) && #[trigger] b.spreads(c, n) implies closed.contains(n) by {
                if earlier.contains(c) {
                    let i = choose|i: int|
                        0 <= i < rest.len() && !b.opened.contains(rest[i]) && !b.flagged.contains(
                            rest[i],
                        ) && #[trigger] b.cascade(rest[i]).contains(c);
                    lemma_cascade_step(b, rest[i], c, n);
                    assert(earlier.contains(n));
                } else if so_far.opened.contains(n) {
                    assert(earlier.contains(n));
                } else {
                    assert(so_far.spreads(c, n));
                    lemma_cascade_step(so_far, last, c, n);
                }
            }
            lemma_cascade_least(b, last, closed);
            assert(after.opened =~= b.opened.union(all));
        }
    }
}

/// The cells that a chord on `p` opens, unless it runs into a mine: what a
/// reveal opens from each neighbour of `p` that is neither opened nor
/// flagged.
pub open spec fn chord_cells(b: Board, p: Position) -> Set<Position> {
    Set::new(
        |c: Position|
            exists|n: Position|
                b.in_bounds(n) && adjacent(p, n) && !b.opened.contains(n) && !b.flagged.contains(
                    n,
                ) && #[trigger] b.cascade(n).contains(c),
    )
}

/// A chord that meets no mine does not depend on the order of the
/// neighbours: on an opened cell with as many flags around it as mines, all
/// of those mines flagged, `open` opens what a reveal from each hidden,
/// unflagged neighbour opens, and changes nothing else.
pub proof fn lemma_chord_floods(b: Board, p: Position)
    requires
        b.valid(),
        b.in_bounds(p),
        b.opened.contains(p),
        !b.lost,
        b.chord_ready(p),
        !unflagged_mine_around(b, p),
    ensures
        b.open(p).opened == b.opened.union(chord_cells(b, p)),
        b.open(p) == (Board { opened: b.open(p).opened, ..b }),
{
    let around = b.neighbour_seq(p);
    lemma_neighbour_seq(b, p);
    assert(mines_flagged(b, around)) by {
        assert forall|i: int|
            0 <= i < around.len() && b.mines.contains(#[trigger] around[i]) implies b.flagged.contains(
            around[i],
        ) by {
            assert(b.in_bounds(around[i]) && adjacent(p, around[i]));
        }
    }
    lemma_open_each_floods(b, around);
    let by_list = cascade_of_each(b, around);
    let by_set = chord_cells(b, p);
    assert forall|c: Position| by_list.contains(c) implies by_set.contains(c) by {
        let i = choose|i: int|
            0 <= i < around.len() && !b.opened.contains(around[i]) && !b.flagged.contains(
                around[i],
            ) && #[trigger] b.cascade(around[i]).contains(c);
        assert(b.in_bounds(around[i]) && adjacent(p, around[i]));
    }
    assert forall|c: Position| by_set.contains(c) implies by_list.contains(c) by {
        let n = choose|n: Position|
            b.in_bounds(n) && adjacent(p, n) && !b.opened.contains(n) && !b.flagged.contains(n)
                && #[trigger] b.cascade(n).contains(c);
        assert(around.contains(n));
        let i = choose|i: int| 0 <= i < around.len() && around[i] == n;
        assert(b.cascade(around[i]).contains(c));
    }
    assert(by_list =~= by_set);
}

/// What a chord does: `open` on an opened cell.
///
/// It reports nothing and only opens cells. It changes nothing unless the
/// cell has as many flags around it as mines. It loses the game exactly when
/// it does open, and a mine around the cell carries no flag.
pub proof fn lemma_chord(b: Board, p: Position)
    requires
        b.valid(),
        b.in_bounds(p),
        b.opened.contains(p),
    ensures
        b.open_result(p) is None,
        b.open(p).valid(),
        extends(b, b.open(p)),
        !b.chord_ready(p) ==> b.open(p) == b,
        b.open(p).lost <==> b.lost || (b.chord_ready(p) && unflagged_mine_around(b, p)),
{
    let around = b.neighbour_seq(p);
    lemma_open_valid(b, p);
    lemma_neighbour_seq(b, p);
    if b.chord_ready(p) {
        if unflagged_mine_around(b, p) {
            let q = choose|q: Position|
                b.in_bounds(q) && adjacent(p, q) && #[trigger] b.mines.contains(q)
                    && !b.flagged.contains(q);
            assert(around.contains(q));
            let i = choose|i: int| 0 <= i < around.len() && around[i] == q;
            lemma_open_each_hits(b, around, i);
        } else {
            assert(mines_flagged(b, around)) by {
                assert forall|i: int|
                    0 <= i < around.len() && b.mines.contains(
                        #[trigger] around[i],
                    ) implies b.flagged.contains(around[i]) by {
                    assert(b.in_bounds(around[i]) && adjacent(p, around[i]));
                }
            }
            lemma_open_each_safe(b, around);
        }
    }
}

/// Opening a cell again, right after it was revealed without a mine.
///
/// The second move finds the cell opened, so it is a chord: it reports
/// nothing, the cell stays opened and no cell is closed. A chord can open a
/// mine that the player left without a flag, so the second move loses the
/// game exactly when the cell has as many flags around it as mines and one
/// of those mines carries no flag. Where no flag stands around the cell at
/// all, the second move changes nothing.
pub proof fn lemma_open_again(b: Board, p: Position)
    requires
        b.valid(),
        b.in_bounds(p),
        !b.lost,
        !b.opened.contains(p),
        !b.flagged.contains(p),
        !b.mines.contains(p),
    ensures
        b.open(p).open_result(p) is None,
        b.open(p).open(p).opened.contains(p),
        extends(b.open(p), b.open(p).open(p)),
        b.open(p).open(p).lost <==> b.chord_ready(p) && unflagged_mine_around(b, p),
        (forall|q: Position| b.in_bounds(q) && adjacent(p, q) ==> !b.flagged.contains(q))
            ==> b.open(p).open(p) == b.open(p),
{
    let once = b.open(p);
    let around = once.neighbour_seq(p);
    lemma_open_floods(b, p);
    lemma_open_valid(b, p);
    lemma_chord(once, p);
    lemma_neighbour_seq(once, p);
    assert(once.chord_ready(p) == b.chord_ready(p));
    assert(unflagged_mine_around(once, p) == unflagged_mine_around(b, p));
    if forall|q: Position| b.in_bounds(q) && adjacent(p, q) ==> !b.flagged.contains(q) {
        if once.chord_ready(p) {
            let flagged_around = once.neighbours(p).intersect(once.flagged);
            assert(flagged_around =~= Set::empty());
            assert(b.mine_count(p) == 0);
            assert forall|i: int| 0 <= i < around.len() implies once.opened.contains(
                #[trigger] around[i],
            ) by {
                let n = around[i];
                assert(b.in_bounds(n) && adjacent(p, n));
                if !b.opened.contains(n) {
                    assert(b.spreads(p, n));
                }
            }
            lemma_open_each_opened(once, around);
        }
    }
}

/// A move of the game.
pub enum Action {
    /// `open` on the cell.
    Open(Position),
    /// `toggle_flag` on the cell.
    ToggleFlag(Position),
}

impl Board {
    /// The board after one move.
    pub open spec fn act(self, action: Action) -> Board {
        match action {
            Action::Open(p) => self.open(p),
            Action::ToggleFlag(p) => self.toggle_flag(p),
        }
    }

    /// The board after the given moves, played in turn.
    pub open spec fn play(self, actions: Seq<Action>) -> Board
        decreases actions.len(),
    {
        if actions.len() == 0 {
            self
        } else {
            self.play(actions.drop_last()).act(actions.last())
        }
    }
}

/// The move is played on a cell of the grid.
pub open spec fn on_grid(b: Board, action: Action) -> bool {
    match action {
        Action::Open(p) => b.in_bounds(p),
        Action::ToggleFlag(p) => b.in_bounds(p),
    }
}

/// Whatever moves are played on the grid, in whatever order, the board stays
/// valid: no cell is ever both flagged and opened, the mines and the grid
/// never change, and a lost game stays lost.
pub proof fn lemma_play_valid(b: Board, actions: Seq<Action>)
    requires
        b.valid(),
        forall|i: int| 0 <= i < actions.len() ==> on_grid(b, #[trigger] actions[i]),
    ensures
        b.play(actions).valid(),
        b.play(actions).flagged.disjoint(b.play(actions).opened),
        b.play(actions).width == b.width,
        b.play(actions).height == b.height,
        b.play(actions).mines == b.mines,
        b.lost ==> b.play(actions) == b,
    decreases actions.len(),
{
    if actions.len() > 0 {
        let rest = actions.drop_last();
        assert forall|i: int| 0 <= i < rest.len() implies on_grid(b, #[trigger] rest[i]) by {
            assert(rest[i] == actions[i]);
        }
        lemma_play_valid(b, rest);
        let so_far = b.play(rest);
        assert(on_grid(b, actions[actions.len() - 1]));
        match actions.last() {
            Action::Open(p) => {
                lemma_open_valid(so_far, p);
                if b.lost {
                    lemma_lost_is_final(so_far, p);
                }
            },
            Action::ToggleFlag(p) => {
                lemma_toggle_flag_valid(so_far, p);
            },
        }
    }
}

} // verus!
