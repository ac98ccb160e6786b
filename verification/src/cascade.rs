//! Facts about the cascade: the set of cells that one reveal opens.
//!
//! The cascade of a cell is the least set that holds the cell and is closed
//! under spreading. The three lemmas that say so are what the flood fill is
//! proved against.

use vstd::prelude::*;
use crate::board::{adjacent, Board, Position};
use crate::geometry::lemma_mine_count_zero;

verus! {

/// A reveal opens the cell it starts at.
pub proof fn lemma_cascade_start(b: Board, start: Position)
    ensures
        b.cascade(start).contains(start),
{
    let path = seq![start];
    assert(b.is_path(start, path));
    assert(path.last() == start);
}

/// A reveal that reached `from` also reaches what it spreads to from there.
pub proof fn lemma_cascade_step(b: Board, start: Position, from: Position, to: Position)
    requires
        b.cascade(start).contains(from),
        b.spreads(from, to),
    ensures
        b.cascade(start).contains(to),
{
    let path = choose|path: Seq<Position>| #[trigger]
        b.is_path(start, path) && path.last() == from;
    let longer = path.push(to);
    assert forall|i: int| 0 <= i < longer.len() - 1 implies #[trigger] b.spreads_at(
        longer,
        i,
    ) by {
        if i < path.len() - 1 {
            assert(b.spreads_at(path, i));
        }
    }
    assert(b.is_path(start, longer));
    assert(longer.last() == to);
}

proof fn lemma_path_inside(
    b: Board,
    start: Position,
    closed: Set<Position>,
    path: Seq<Position>,
    i: int,
)
    requires
        b.is_path(start, path),
        0 <= i < path.len(),
        closed.contains(start),
        forall|c: Position, n: Position|
            closed.contains(c) && #[trigger] b.spreads(c, n) ==> closed.contains(n),
    ensures
        closed.contains(path[i]),
    decreases i,
{
    if i > 0 {
        lemma_path_inside(b, start, closed, path, i - 1);
        assert(b.spreads_at(path, i - 1));
    }
}

/// A reveal opens nothing more than it must: every set that holds the start
/// and is closed under spreading holds the whole cascade.
pub proof fn lemma_cascade_least(b: Board, start: Position, closed: Set<Position>)
    requires
        closed.contains(start),
        forall|c: Position, n: Position|
            closed.contains(c) && #[trigger] b.spreads(c, n) ==> closed.contains(n),
    ensures
        b.cascade(start).subset_of(closed),
{
    assert forall|c: Position| b.cascade(start).contains(c) implies closed.contains(c) by {
        let path = choose|path: Seq<Position>| #[trigger]
            b.is_path(start, path) && path.last() == c;
        lemma_path_inside(b, start, closed, path, path.len() - 1);
    }
}

/// A reveal that reached a cell opens whatever a reveal starting at that cell
/// opens.
pub proof fn lemma_cascade_within(b: Board, start: Position, from: Position)
    requires
        b.cascade(start).contains(from),
    ensures
        b.cascade(from).subset_of(b.cascade(start)),
{
    let closed = b.cascade(start);
    assert forall|c: Position, n: Position|
        closed.contains(c) && #[trigger] b.spreads(c, n) implies closed.contains(n) by {
        lemma_cascade_step(b, start, c, n);
    }
    lemma_cascade_least(b, from, closed);
}

/// Every cell of a cascade but the start was spread to from another cell of
/// the cascade.
pub proof fn lemma_cascade_origin(b: Board, start: Position, cell: Position)
    requires
        b.cascade(start).contains(cell),
        cell != start,
    ensures
        exists|from: Position| b.cascade(start).contains(from) && #[trigger] b.spreads(from, cell),
{
    let path = choose|path: Seq<Position>| #[trigger]
        b.is_path(start, path) && path.last() == cell;
    let n = path.len() as int;
    assert(n >= 2);
    let shorter = path.drop_last();
    assert forall|i: int| 0 <= i < shorter.len() - 1 implies #[trigger] b.spreads_at(
        shorter,
        i,
    ) by {
        assert(b.spreads_at(path, i));
    }
    assert(b.is_path(start, shorter));
    let from = path[n - 2];
    assert(shorter.last() == from);
    assert(b.reaches(start, from));
    assert(b.spreads_at(path, n - 2));
    assert(b.spreads(from, cell));
}

/// What a cascade is made of, besides its start: hidden, unflagged cells of
/// the grid that hold no mine.
pub proof fn lemma_cascade_cells(b: Board, start: Position)
    ensures
        forall|c: Position| #[trigger]
            b.cascade(start).contains(c) && c != start ==> {
                &&& b.in_bounds(c)
                &&& !b.opened.contains(c)
                &&& !b.flagged.contains(c)
                &&& !b.mines.contains(c)
            },
{
    assert forall|c: Position| #[trigger] b.cascade(start).contains(c) && c != start implies {
        &&& b.in_bounds(c)
        &&& !b.opened.contains(c)
        &&& !b.flagged.contains(c)
        &&& !b.mines.contains(c)
    } by {
        lemma_cascade_origin(b, start, c);
        let from = choose|from: Position|
            b.cascade(start).contains(from) && #[trigger] b.spreads(from, c);
        lemma_mine_count_zero(b, from);
        assert(adjacent(from, c));
    }
}

/// A reveal that starts at a cell with a mine around it opens that cell
/// alone.
pub proof fn lemma_cascade_stops(b: Board, start: Position)
    requires
        b.mine_count(start) != 0,
    ensures
        b.cascade(start) == set![start],
{
    let single = set![start];
    lemma_cascade_start(b, start);
    lemma_cascade_least(b, start, single);
    assert(b.cascade(start) =~= single);
}

} // verus!
