use vstd::prelude::*;

verus! {

/// Player annotation on a covered square, cycled by the toggle-mark action.
#[derive(Clone, Copy, Debug, PartialEq, Eq, Structural)]
pub enum Marking {
    Unmarked,
    Flag,
    QuestionMark,
}

/// The marking that follows `m` in the fixed cycle
/// none -> flag -> question mark -> none.
pub open spec fn next_marking(m: Marking) -> Marking {
    match m {
        Marking::Unmarked => Marking::Flag,
        Marking::Flag => Marking::QuestionMark,
        Marking::QuestionMark => Marking::Unmarked,
    }
}

impl Marking {
    /// Advance this marking one step along the cycle.
    pub fn next(self) -> (m: Marking)
        ensures
            m == next_marking(self),
    {
        match self {
            Marking::Unmarked => Marking::Flag,
            Marking::Flag => Marking::QuestionMark,
            Marking::QuestionMark => Marking::Unmarked,
        }
    }
}

impl Default for Marking {
    fn default() -> (m: Marking)
        ensures
            m == Marking::Unmarked,
    {
        Marking::Unmarked
    }
}

/// Toggling a marking three times returns it to where it started.
pub proof fn lemma_marking_cycle(m: Marking)
    ensures
        next_marking(next_marking(next_marking(m))) == m,
{
}

/// What a grid square holds: a mine, or the number of mines among its
/// up-to-eight neighbours.
#[derive(Clone, Copy, Debug, PartialEq, Eq, Structural)]
pub enum CellType {
    Mine,
    NonMine { neighbours: usize },
}

/// The full state of one grid square.
#[derive(Clone, Copy, Debug, PartialEq, Eq, Structural)]
pub struct Cell {
    pub is_revealed: bool,
    pub marking: Marking,
    pub cell_type: CellType,
}

/// The state every square starts in: covered, unmarked, no mine, count zero.
pub open spec fn default_cell() -> Cell {
    Cell { is_revealed: false, marking: Marking::Unmarked, cell_type: CellType::NonMine { neighbours: 0 } }
}

/// A fresh mine square: covered, unmarked.
pub open spec fn mine_cell() -> Cell {
    Cell { is_revealed: false, marking: Marking::Unmarked, cell_type: CellType::Mine }
}

impl Default for Cell {
    fn default() -> (c: Cell)
        ensures
            c == default_cell(),
    {
        Cell { is_revealed: false, marking: Marking::Unmarked, cell_type: CellType::NonMine { neighbours: 0 } }
    }
}

impl Cell {
    /// A fresh, covered, unmarked mine square.
    pub fn mine() -> (c: Cell)
        ensures
            c == mine_cell(),
    {
        Cell { is_revealed: false, marking: Marking::Unmarked, cell_type: CellType::Mine }
    }
}

/// What a renderer may see of one square: a covered square exposes only its
/// marking, a revealed square exposes its content.
#[derive(Clone, Copy, Debug, PartialEq, Eq, Structural)]
pub enum CellView {
    Covered { marking: Marking },
    Open { cell_type: CellType },
}

} // verus!
