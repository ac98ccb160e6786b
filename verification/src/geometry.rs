//! Facts about the grid: that it is finite, what the neighbours of a cell are,
//! and how counting along the list of neighbours relates to the size of a set.

use vstd::prelude::*;
use crate::board::{adjacent, window_cell, window_prefix, Board, Position};

verus! {

/// The cells of row `y` in the first `w` columns.
spec fn row_cells(w: nat, y: usize) -> Set<Position> {
    Set::new(|p: Position| p.0 < w && p.1 == y)
}

/// The cells of the first `h` rows in the first `w` columns.
spec fn block_cells(w: nat, h: nat) -> Set<Position> {
    Set::new(|p: Position| p.0 < w && p.1 < h)
}

proof fn lemma_row_finite(w: nat, y: usize)
    ensures
        row_cells(w, y).finite(),
    decreases w,
{
    if w == 0 {
        assert(row_cells(w, y) =~= Set::empty());
    } else {
        let before = (w - 1) as nat;
        lemma_row_finite(before, y);
        if before <= usize::MAX {
            assert(row_cells(w, y) =~= row_cells(before, y).insert((before as usize, y)));
        } else {
            assert(row_cells(w, y) =~= row_cells(before, y));
        }
    }
}

proof fn lemma_block_finite(w: nat, h: nat)
    ensures
        block_cells(w, h).finite(),
    decreases h,
{
    if h == 0 {
        assert(block_cells(w, h) =~= Set::empty());
    } else {
        let before = (h - 1) as nat;
        lemma_block_finite(w, before);
        if before <= usize::MAX {
            lemma_row_finite(w, before as usize);
            assert(block_cells(w, h) =~= block_cells(w, before).union(
                row_cells(w, before as usize),
            ));
        } else {
            assert(block_cells(w, h) =~= block_cells(w, before));
        }
    }
}

/// A grid has finitely many cells, and so has every part of it.
pub proof fn lemma_cells_finite(b: Board)
    ensures
        b.cells().finite(),
        b.hidden().finite(),
        b.opened.subset_of(b.cells()) ==> b.opened.finite(),
        b.mines.subset_of(b.cells()) ==> b.mines.finite(),
        b.flagged.subset_of(b.cells()) ==> b.flagged.finite(),
{
    lemma_block_finite(b.width as nat, b.height as nat);
    assert(b.cells() =~= block_cells(b.width as nat, b.height as nat));
    if b.opened.subset_of(b.cells()) {
        vstd::set_lib::lemma_set_subset_finite(b.cells(), b.opened);
    }
    if b.mines.subset_of(b.cells()) {
        vstd::set_lib::lemma_set_subset_finite(b.cells(), b.mines);
    }
    if b.flagged.subset_of(b.cells()) {
        vstd::set_lib::lemma_set_subset_finite(b.cells(), b.flagged);
    }
}

/// `q` is the cell of the grid that stands at place `k` of the window of `p`,
/// and is not `p` itself.
spec fn at_window(b: Board, p: Position, k: int, q: Position) -> bool {
    &&& k != 4
    &&& b.in_bounds(q)
    &&& window_cell(p, k) == (q.0 as int, q.1 as int)
}

/// `p` comes before `q` where cells are put in order by `x`, and by `y`
/// among cells of equal `x`.
pub open spec fn comes_before(p: Position, q: Position) -> bool {
    p.0 < q.0 || (p.0 == q.0 && p.1 < q.1)
}

/// The listed cells are in order, without a gap in the list.
spec fn in_order(cells: Seq<Position>) -> bool {
    forall|i: int, j: int| 0 <= i < j < cells.len() ==> comes_before(cells[i], cells[j])
}

proof fn lemma_window_prefix(b: Board, p: Position, k: nat)
    requires
        k <= 9,
    ensures
        window_prefix(b.width, b.height, p, k).len() <= k,
        window_prefix(b.width, b.height, p, k).no_duplicates(),
        in_order(window_prefix(b.width, b.height, p, k)),
        forall|q: Position|
            window_prefix(b.width, b.height, p, k).contains(q) <==> exists|j: int|
                0 <= j < k && #[trigger] at_window(b, p, j, q),
    decreases k,
{
    let s = window_prefix(b.width, b.height, p, k);
    if k == 0 {
    } else {
        let rest = window_prefix(b.width, b.height, p, (k - 1) as nat);
        lemma_window_prefix(b, p, (k - 1) as nat);
        let c = window_cell(p, k - 1);
        if k - 1 != 4 && 0 <= c.0 < b.width && 0 <= c.1 < b.height {
            let cell = (c.0 as usize, c.1 as usize);
            assert(s == rest.push(cell));
            assert(at_window(b, p, k - 1, cell));
            assert(!rest.contains(cell)) by {
                if rest.contains(cell) {
                    let j = choose|j: int| 0 <= j < k - 1 && #[trigger] at_window(b, p, j, cell);
                    assert(window_cell(p, j) == window_cell(p, k - 1));
                }
            }
            assert forall|i: int| 0 <= i < rest.len() implies comes_before(rest[i], cell) by {
                assert(rest.contains(rest[i]));
                let j = choose|j: int| 0 <= j < k - 1 && #[trigger] at_window(b, p, j, rest[i]);
                assert(j / 3 < (k - 1) / 3 || (j / 3 == (k - 1) / 3 && j % 3 < (k - 1) % 3));
            }
            assert(in_order(s)) by {
                assert forall|i: int, j: int| 0 <= i < j < s.len() implies comes_before(
                    s[i],
                    s[j],
                ) by {
                    if j < rest.len() {
                        assert(s[i] == rest[i] && s[j] == rest[j]);
                    } else {
                        assert(s[i] == rest[i] && s[j] == cell);
                    }
                }
            }
            assert forall|q: Position| s.contains(q) implies exists|j: int|
                0 <= j < k && #[trigger] at_window(b, p, j, q) by {
                let i = choose|i: int| 0 <= i < s.len() && s[i] == q;
                if i < rest.len() {
                    assert(rest[i] == q);
                    assert(rest.contains(q));
                    let j = choose|j: int| 0 <= j < k - 1 && #[trigger] at_window(b, p, j, q);
                    assert(0 <= j < k && at_window(b, p, j, q));
                } else {
                    assert(q == cell);
                }
            }
            assert forall|q: Position|
                (exists|j: int| 0 <= j < k && #[trigger] at_window(b, p, j, q)) implies s.contains(
                q,
            ) by {
                let j = choose|j: int| 0 <= j < k && #[trigger] at_window(b, p, j, q);
                if j < k - 1 {
                    assert(rest.contains(q));
                    let i = choose|i: int| 0 <= i < rest.len() && rest[i] == q;
                    assert(s[i] == q);
                } else {
                    assert(q == cell);
                    assert(s[rest.len() as int] == q);
                }
            }
        } else {
            assert(s == rest);
            assert forall|q: Position|
                (exists|j: int| 0 <= j < k && #[trigger] at_window(b, p, j, q)) implies s.contains(
                q,
            ) by {
                let j = choose|j: int| 0 <= j < k && #[trigger] at_window(b, p, j, q);
                assert(j < k - 1);
            }
        }
    }
}

/// The centre of the window is skipped, so at most eight cells are listed.
proof fn lemma_window_prefix_short(b: Board, p: Position)
    ensures
        window_prefix(b.width, b.height, p, 9).len() <= 8,
{
    lemma_window_prefix(b, p, 4);
    reveal_with_fuel(window_prefix, 5);
    let upto_centre = window_prefix(b.width, b.height, p, 5);
    assert(upto_centre == window_prefix(b.width, b.height, p, 4));
    assert(window_prefix(b.width, b.height, p, 9).len() <= upto_centre.len() + 4);
}

/// The list of neighbours holds each neighbour once and nothing else, by
/// `x` and by `y` among cells of equal `x`, and it has at most eight entries.
pub proof fn lemma_neighbour_seq(b: Board, p: Position)
    ensures
        b.neighbour_seq(p).no_duplicates(),
        b.neighbour_seq(p).len() <= 8,
        forall|i: int, j: int|
            0 <= i < j < b.neighbour_seq(p).len() ==> comes_before(
                #[trigger] b.neighbour_seq(p)[i],
                #[trigger] b.neighbour_seq(p)[j],
            ),
        b.neighbour_seq(p).to_set() == b.neighbours(p),
        b.neighbours(p).finite(),
        forall|q: Position|
            b.neighbour_seq(p).contains(q) <==> b.in_bounds(q) && adjacent(p, q),
        forall|i: int|
            0 <= i < b.neighbour_seq(p).len() ==> b.in_bounds(#[trigger] b.neighbour_seq(p)[i])
                && adjacent(p, b.neighbour_seq(p)[i]),
{
    broadcast use vstd::seq_lib::seq_to_set_is_finite;

    let s = b.neighbour_seq(p);
    lemma_window_prefix(b, p, 9);
    lemma_window_prefix_short(b, p);
    assert forall|q: Position| s.contains(q) <==> b.in_bounds(q) && adjacent(p, q) by {
        if s.contains(q) {
            let j = choose|j: int| 0 <= j < 9 && #[trigger] at_window(b, p, j, q);
            assert(adjacent(p, q));
        }
        if b.in_bounds(q) && adjacent(p, q) {
            let j = (q.0 - p.0 + 1) * 3 + (q.1 - p.1 + 1);
            assert(at_window(b, p, j, q));
        }
    }
    assert(s.to_set() =~= b.neighbours(p));
    assert forall|i: int| 0 <= i < s.len() implies b.in_bounds(#[trigger] s[i]) && adjacent(
        p,
        s[i],
    ) by {
        assert(s.contains(s[i]));
    }
}

/// How many of the three places `v - 1`, `v`, `v + 1` are coordinates below
/// `limit`.
pub open spec fn span(v: usize, limit: usize) -> nat {
    1 + if v > 0 {
        1nat
    } else {
        0nat
    } + if v + 1 < limit {
        1nat
    } else {
        0nat
    }
}

/// A cell of the grid has one neighbour for each cell of its window that lies
/// on the grid, itself excepted: eight inside the grid, five on an edge and
/// three in a corner, where the grid is wide and high enough for them.
pub proof fn lemma_neighbour_number(b: Board, p: Position)
    requires
        b.in_bounds(p),
    ensures
        b.neighbour_seq(p).len() == span(p.0, b.width) * span(p.1, b.height) - 1,
{
    reveal_with_fuel(window_prefix, 10);
    let columns = span(p.0, b.width);
    let rows = span(p.1, b.height);
    assert(1 <= columns <= 3 && 1 <= rows <= 3);
    assert(columns * rows == if columns == 1 {
        rows
    } else if columns == 2 {
        2 * rows
    } else {
        3 * rows
    }) by (nonlinear_arith)
        requires
            1 <= columns <= 3,
    ;
}

/// How many entries of `cells` belong to `set`.
pub open spec fn count_in(cells: Seq<Position>, set: Set<Position>) -> nat
    decreases cells.len(),
{
    if cells.len() == 0 {
        0
    } else {
        count_in(cells.drop_last(), set) + if set.contains(cells.last()) {
            1nat
        } else {
            0nat
        }
    }
}

/// Counting along a list without repetitions gives the size of the part of
/// `set` that the list holds.
pub proof fn lemma_count_in(cells: Seq<Position>, set: Set<Position>)
    requires
        cells.no_duplicates(),
    ensures
        count_in(cells, set) == cells.to_set().intersect(set).len(),
        count_in(cells, set) <= cells.len(),
    decreases cells.len(),
{
    broadcast use vstd::seq_lib::seq_to_set_is_finite;

    if cells.len() == 0 {
        assert(cells.to_set().intersect(set) =~= Set::empty());
    } else {
        let rest = cells.drop_last();
        let last = cells.last();
        lemma_count_in(rest, set);
        assert(!rest.contains(last)) by {
            if rest.contains(last) {
                let i = choose|i: int| 0 <= i < rest.len() && rest[i] == last;
                assert(cells[i] == cells[cells.len() - 1]);
            }
        }
        assert(cells =~= rest.push(last));
        assert(cells.to_set() =~= rest.to_set().insert(last)) by {
            rest.lemma_push_to_set_commute(last);
        }
        let part = rest.to_set().intersect(set);
        assert(part.finite());
        if set.contains(last) {
            assert(cells.to_set().intersect(set) =~= part.insert(last));
        } else {
            assert(cells.to_set().intersect(set) =~= part);
        }
    }
}

/// The two counts of a cell are what counting along its list of neighbours
/// gives, and neither exceeds eight.
pub proof fn lemma_counts(b: Board, p: Position)
    ensures
        b.mine_count(p) == count_in(b.neighbour_seq(p), b.mines),
        b.flag_count(p) == count_in(b.neighbour_seq(p), b.flagged),
        b.mine_count(p) <= 8,
        b.flag_count(p) <= 8,
{
    lemma_neighbour_seq(b, p);
    lemma_count_in(b.neighbour_seq(p), b.mines);
    lemma_count_in(b.neighbour_seq(p), b.flagged);
}

/// A cell with a count of zero has no mine among its neighbours, and a cell
/// with no mine among its neighbours has a count of zero.
pub proof fn lemma_mine_count_zero(b: Board, p: Position)
    ensures
        b.mine_count(p) == 0 <==> forall|q: Position|
            b.in_bounds(q) && adjacent(p, q) ==> !b.mines.contains(q),
{
    lemma_neighbour_seq(b, p);
    let part = b.neighbours(p).intersect(b.mines);
    assert(part.finite());
    if b.mine_count(p) == 0 {
        part.lemma_len0_is_empty();
        assert forall|q: Position| b.in_bounds(q) && adjacent(p, q) implies !b.mines.contains(
            q,
        ) by {
            if b.mines.contains(q) {
                assert(b.neighbours(p).contains(q));
                assert(part.contains(q));
            }
        }
    }
    if forall|q: Position| b.in_bounds(q) && adjacent(p, q) ==> !b.mines.contains(q) {
        assert(part =~= Set::empty());
    }
}

} // verus!
