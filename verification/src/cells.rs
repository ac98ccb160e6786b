//! A set of cells of a grid, kept as one flag for each cell.

use vstd::prelude::*;
use crate::board::Position;

verus! {

/// A set of cells of a grid of fixed size.
#[derive(Debug)]
pub struct CellSet {
    width: usize,
    rows: Vec<Vec<bool>>,
}

impl View for CellSet {
    type V = Set<Position>;

    closed spec fn view(&self) -> Set<Position> {
        Set::new(|p: Position| self.covers(p) && self.rows@[p.1 as int]@[p.0 as int])
    }
}

impl CellSet {
    /// Number of columns of the grid.
    pub closed spec fn width(&self) -> usize {
        self.width
    }

    /// Number of rows of the grid.
    pub closed spec fn height(&self) -> nat {
        self.rows@.len()
    }

    /// `p` is a cell of the grid.
    pub open spec fn covers(&self, p: Position) -> bool {
        p.0 < self.width() && p.1 < self.height()
    }

    /// Every row has one flag for each column.
    pub closed spec fn wf(&self) -> bool {
        forall|y: int| 0 <= y < self.rows@.len() ==> (#[trigger] self.rows@[y])@.len() == self.width
    }

    /// Only cells of the grid are members.
    pub proof fn lemma_members_covered(&self)
        ensures
            forall|p: Position| self@.contains(p) ==> self.covers(p),
    {
    }

    /// The empty set on a grid of the given size.
    pub fn empty(width: usize, height: usize) -> (set: CellSet)
        ensures
            set.wf(),
            set.width() == width,
            set.height() == height,
            set@ == Set::<Position>::empty(),
    {
        let mut rows: Vec<Vec<bool>> = Vec::new();
        let mut y: usize = 0;
        while y < height
            invariant
                y <= height,
                rows@.len() == y,
                forall|j: int|
                    0 <= j < y ==> (#[trigger] rows@[j])@.len() == width && forall|i: int|
                        0 <= i < width ==> !rows@[j]@[i],
            decreases height - y,
        {
            let mut row: Vec<bool> = Vec::new();
            let mut x: usize = 0;
            while x < width
                invariant
                    x <= width,
                    row@.len() == x,
                    forall|i: int| 0 <= i < x ==> !row@[i],
                decreases width - x,
            {
                row.push(false);
                x += 1;
            }
            rows.push(row);
            y += 1;
        }
        let set = CellSet { width, rows };
        assert(set@ =~= Set::<Position>::empty());
        set
    }

    /// Whether `p` is a member. A position off the grid never is.
    pub fn contains(&self, p: Position) -> (found: bool)
        requires
            self.wf(),
        ensures
            found == self@.contains(p),
    {
        p.1 < self.rows.len() && p.0 < self.width && self.rows[p.1][p.0]
    }

    /// Makes the cell `p` a member.
    pub fn insert(&mut self, p: Position)
        requires
            old(self).wf(),
            old(self).covers(p),
        ensures
            final(self).wf(),
            final(self).width() == old(self).width(),
            final(self).height() == old(self).height(),
            final(self)@ == old(self)@.insert(p),
    {
        self.rows[p.1][p.0] = true;
        assert(self@ =~= old(self)@.insert(p));
    }

    /// Takes the cell `p` out of the set.
    pub fn remove(&mut self, p: Position)
        requires
            old(self).wf(),
            old(self).covers(p),
        ensures
            final(self).wf(),
            final(self).width() == old(self).width(),
            final(self).height() == old(self).height(),
            final(self)@ == old(self)@.remove(p),
    {
        self.rows[p.1][p.0] = false;
        assert(self@ =~= old(self)@.remove(p));
    }
}

} // verus!
