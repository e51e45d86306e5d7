//! The cell: what it holds, how the player has marked it, and how it is drawn.
use vstd::prelude::*;

verus! {

/// Glyph of a revealed mine (black circle).
pub const MINE: char = '\u{25CF}';

/// Glyph of a revealed cell with no adjacent mine.
pub const REVEALED: char = '0';

/// Glyph of a cell that has not been revealed (white square).
pub const HIDDEN: char = '\u{25A1}';

/// Glyph of a cell marked with a question mark.
pub const QUESTION: char = '?';

/// Glyph of a flagged cell (black flag).
pub const FLAG: char = '\u{2691}';

/// The mark a player can put on a cell that is not revealed.
#[derive(Clone, Copy, Debug, PartialEq, Eq, Structural)]
pub enum CellMarker {
    Flagged,
    Questioned,
}

/// What the player currently sees of a cell. Exactly one holds at any time.
#[derive(Clone, Copy, Debug, PartialEq, Eq, Structural)]
pub enum CellState {
    Revealed,
    Marked(CellMarker),
    Hidden,
}

/// Whether a cell holds a mine.
#[derive(Clone, Copy, Debug, PartialEq, Eq, Structural)]
pub enum CellKind {
    Mine,
    Empty,
}

/// One cell of a board: its visibility, its kind and the number of mines
/// among its grid neighbours.
#[derive(Clone, Copy, Debug, PartialEq, Eq, Structural)]
pub struct Cell {
    pub state: CellState,
    pub kind: CellKind,
    pub adj_mine_count: u8,
}

/// The ASCII digit for `n`, for `n` at most 9.
pub open spec fn digit_glyph(n: u8) -> char {
    ((n + 48) as u8) as char
}

impl Cell {
    /// An empty cell with no adjacent mine: the lone cell.
    pub open spec fn is_lone(self) -> bool {
        self.kind == CellKind::Empty && self.adj_mine_count == 0
    }

    /// The glyph a player sees for this cell.
    pub open spec fn view_glyph(self) -> char {
        match self.state {
            CellState::Revealed => match self.kind {
                CellKind::Mine => MINE,
                CellKind::Empty => if self.adj_mine_count > 0 {
                    digit_glyph(self.adj_mine_count)
                } else {
                    REVEALED
                },
            },
            CellState::Marked(CellMarker::Flagged) => FLAG,
            CellState::Marked(CellMarker::Questioned) => QUESTION,
            CellState::Hidden => HIDDEN,
        }
    }

    /// The glyph of the diagnostic view: the kind and count, whatever is visible.
    pub open spec fn view_debug_glyph(self) -> char {
        match self.kind {
            CellKind::Mine => MINE,
            CellKind::Empty => digit_glyph(self.adj_mine_count),
        }
    }

    /// A hidden cell of the given kind with no adjacent mine counted yet.
    pub open spec fn new_spec(kind: CellKind) -> Cell {
        Cell { state: CellState::Hidden, kind, adj_mine_count: 0 }
    }

    /// A hidden cell of the given kind with no adjacent mine counted yet.
    pub fn new(kind: CellKind) -> (r: Cell)
        ensures
            r == Cell::new_spec(kind),
    {
        Cell { state: CellState::Hidden, kind, adj_mine_count: 0 }
    }

    /// The cell's marker, or `None` where it is not marked.
    pub fn marker(&self) -> (r: Option<CellMarker>)
        ensures
            r == (match self.state {
                CellState::Marked(m) => Some(m),
                _ => None,
            }),
    {
        match self.state {
            CellState::Marked(m) => Some(m),
            _ => None,
        }
    }

    /// Marks the cell with `marker`.
    pub fn set_marker(&mut self, marker: CellMarker)
        ensures
            *final(self) == (Cell { state: CellState::Marked(marker), ..*old(self) }),
    {
        self.state = CellState::Marked(marker);
    }

    /// Whether the cell carries a flag.
    pub fn is_flagged(&self) -> (r: bool)
        ensures
            r == (self.state == CellState::Marked(CellMarker::Flagged)),
    {
        self.state == CellState::Marked(CellMarker::Flagged)
    }

    /// Sets the cell's kind.
    pub fn set_kind(&mut self, kind: CellKind)
        ensures
            *final(self) == (Cell { kind, ..*old(self) }),
    {
        self.kind = kind;
    }

    /// The cell's kind.
    pub fn kind(&self) -> (r: &CellKind)
        ensures
            *r == self.kind,
    {
        &self.kind
    }

    /// Sets the cell's visibility.
    pub fn set_state(&mut self, state: CellState)
        ensures
            *final(self) == (Cell { state, ..*old(self) }),
    {
        self.state = state;
    }

    /// The cell's visibility.
    pub fn state(&self) -> (r: &CellState)
        ensures
            *r == self.state,
    {
        &self.state
    }

    /// The number of mines among the cell's neighbours.
    pub fn adj_mine_count(&self) -> (r: u8)
        ensures
            r == self.adj_mine_count,
    {
        self.adj_mine_count
    }

    /// Sets the number of mines among the cell's neighbours.
    pub fn set_adj_mine_count(&mut self, count: u8)
        ensures
            *final(self) == (Cell { adj_mine_count: count, ..*old(self) }),
    {
        self.adj_mine_count = count;
    }

    /// Whether the cell is empty and has no adjacent mine.
    pub fn is_lone_cell(&self) -> (r: bool)
        ensures
            r == self.is_lone(),
    {
        self.kind == CellKind::Empty && self.adj_mine_count == 0
    }

    /// The glyph a player sees for this cell.
    pub fn glyph(&self) -> (r: char)
        requires
            self.adj_mine_count <= 8,
        ensures
            r == self.view_glyph(),
    {
        match self.state {
            CellState::Revealed => match self.kind {
                CellKind::Mine => MINE,
                CellKind::Empty => if self.adj_mine_count > 0 {
                    ((self.adj_mine_count + 48) as u8) as char
                } else {
                    REVEALED
                },
            },
            CellState::Marked(CellMarker::Flagged) => FLAG,
            CellState::Marked(CellMarker::Questioned) => QUESTION,
            CellState::Hidden => HIDDEN,
        }
    }

    /// The glyph of the diagnostic view, which shows the kind and count of
    /// every cell whether or not it is revealed.
    pub fn debug_glyph(&self) -> (r: char)
        requires
            self.adj_mine_count <= 8,
        ensures
            r == self.view_debug_glyph(),
    {
        match self.kind {
            CellKind::Mine => MINE,
            CellKind::Empty => ((self.adj_mine_count + 48) as u8) as char,
        }
    }
}

/// The cell type under the name the game board uses.
pub type GameCell = Cell;

/// The cell type under the name the grid uses.
pub type GridCell = Cell;

} // verus!
