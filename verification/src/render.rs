//! What a game shows: the state of each cell as the player sees it, and the
//! whole grid as text.

use vstd::prelude::*;
use crate::board::{Board, Position};
use crate::minesweeper::Minesweeper;

verus! {

/// How a cell shows to the player.
#[derive(Clone, Copy, Debug, PartialEq, Eq, Structural)]
pub enum CellState {
    /// Not opened and not flagged.
    Hidden,
    /// Not opened, and flagged.
    Flagged,
    /// A mine that was never opened, shown because the game is lost.
    Mine,
    /// The mine that was opened.
    Exploded,
    /// Opened, with this many mines around it, at least one.
    Number(u8),
    /// Opened, with no mine around it.
    Empty,
}

impl Board {
    /// How the cell `p` shows. Once the game is lost a hidden mine shows as
    /// a mine, flagged or not.
    pub open spec fn cell_state(self, p: Position) -> CellState {
        if !self.opened.contains(p) {
            if self.lost && self.mines.contains(p) {
                CellState::Mine
            } else if self.flagged.contains(p) {
                CellState::Flagged
            } else {
                CellState::Hidden
            }
        } else if self.mines.contains(p) {
            CellState::Exploded
        } else if self.mine_count(p) > 0 {
            CellState::Number(self.mine_count(p) as u8)
        } else {
            CellState::Empty
        }
    }

    /// The grid as text: a line for each row, and on it the glyph of each
    /// cell followed by a space.
    pub open spec fn text(self) -> Seq<char> {
        rows_text(self, self.height as nat)
    }
}

/// The character that stands for a cell. A count shows as its digit.
pub open spec fn glyph_of(state: CellState) -> char {
    match state {
        CellState::Hidden => '\u{1F7EA}',
        CellState::Flagged => '\u{1F6A9}',
        CellState::Mine => '\u{1F4A3}',
        CellState::Exploded => '\u{1F4A3}',
        CellState::Number(n) => (48 + n) as char,
        CellState::Empty => '\u{2B1C}',
    }
}

/// The text of the first `upto` cells of row `y`.
pub open spec fn row_text(b: Board, y: usize, upto: nat) -> Seq<char>
    decreases upto,
{
    if upto == 0 {
        Seq::empty()
    } else {
        row_text(b, y, (upto - 1) as nat).push(
            glyph_of(b.cell_state(((upto - 1) as usize, y))),
        ).push(' ')
    }
}

/// The text of the first `upto` rows.
pub open spec fn rows_text(b: Board, upto: nat) -> Seq<char>
    decreases upto,
{
    if upto == 0 {
        Seq::empty()
    } else {
        (rows_text(b, (upto - 1) as nat) + row_text(b, (upto - 1) as usize, b.width as nat)).push(
            '\n',
        )
    }
}

/// Calls `String::push`, which appends one character to the string.
#[verifier::external_body]
fn push_char(text: &mut String, c: char)
    ensures
        final(text)@ == old(text)@.push(c),
{
    text.push(c)
}

impl CellState {
    /// The character that stands for the cell.
    pub fn glyph(self) -> (c: char)
        requires
            self matches CellState::Number(n) ==> n <= 9,
        ensures
            c == glyph_of(self),
    {
        match self {
            CellState::Hidden => '\u{1F7EA}',
            CellState::Flagged => '\u{1F6A9}',
            CellState::Mine => '\u{1F4A3}',
            CellState::Exploded => '\u{1F4A3}',
            CellState::Number(n) => (48 + n) as char,
            CellState::Empty => '\u{2B1C}',
        }
    }
}

impl Minesweeper {
    /// How the cell at `pos` shows to the player.
    pub fn cell_state(&self, pos: Position) -> (state: CellState)
        requires
            self.wf(),
        ensures
            state == self@.cell_state(pos),
            state matches CellState::Number(n) ==> 1 <= n <= 8,
    {
        if !self.is_open(pos) {
            if self.is_lost() && self.is_mine(pos) {
                CellState::Mine
            } else if self.is_flagged(pos) {
                CellState::Flagged
            } else {
                CellState::Hidden
            }
        } else if self.is_mine(pos) {
            CellState::Exploded
        } else {
            let count = self.neighbouring_mines(pos);
            proof {
                crate::geometry::lemma_counts(self@, pos);
            }
            if count > 0 {
                CellState::Number(count)
            } else {
                CellState::Empty
            }
        }
    }

    /// The grid as text, as the player sees it.
    pub fn render(&self) -> (text: String)
        requires
            self.wf(),
        ensures
            text@ == self@.text(),
    {
        let mut text = String::new();
        let mut y: usize = 0;
        while y < self.height()
            invariant
                self.wf(),
                y <= self@.height,
                text@ == rows_text(self@, y as nat),
            decreases self@.height - y,
        {
            let ghost above = text@;
            let mut x: usize = 0;
            while x < self.width()
                invariant
                    self.wf(),
                    x <= self@.width,
                    text@ == above + row_text(self@, y, x as nat),
                decreases self@.width - x,
            {
                let state = self.cell_state((x, y));
                push_char(&mut text, state.glyph());
                push_char(&mut text, ' ');
                x += 1;
                assert(text@ =~= above + row_text(self@, y, x as nat));
            }
            push_char(&mut text, '\n');
            y += 1;
        }
        text
    }
}

} // verus!
