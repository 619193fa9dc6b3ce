use vstd::prelude::*;

verus! {

/// A grid coordinate. Values outside the board are legal; they simply name no
/// cell, and every lookup treats them as a miss.
#[derive(Clone, Copy, Debug, Eq, PartialEq, Hash, Structural)]
pub struct Position {
    pub row: i32,
    pub column: i32,
}

/// The Moore neighbourhood relation on coordinates: distinct, and within one
/// step in both the row and the column.
pub open spec fn adjacent(r1: int, c1: int, r2: int, c2: int) -> bool {
    &&& !(r1 == r2 && c1 == c2)
    &&& -1 <= r1 - r2 <= 1
    &&& -1 <= c1 - c2 <= 1
}

/// The position with the given coordinates, which are meant to fit in the
/// coordinate type.
pub open spec fn pos_of(r: int, c: int) -> Position {
    Position { row: r as i32, column: c as i32 }
}

/// The eight neighbours of `p`, nearest column first.
pub open spec fn neighbour_seq(p: Position) -> Seq<Position> {
    seq![
        pos_of(p.row - 1, p.column - 1),
        pos_of(p.row as int, p.column - 1),
        pos_of(p.row + 1, p.column - 1),
        pos_of(p.row - 1, p.column as int),
        pos_of(p.row + 1, p.column as int),
        pos_of(p.row - 1, p.column + 1),
        pos_of(p.row as int, p.column + 1),
        pos_of(p.row + 1, p.column + 1),
    ]
}

impl Position {
    /// Build a position from unsigned coordinates.
    pub fn new(row: usize, column: usize) -> (p: Position)
        requires
            row <= i32::MAX,
            column <= i32::MAX,
        ensures
            p.row == row,
            p.column == column,
    {
        Position { row: row as i32, column: column as i32 }
    }

    /// All eight surrounding positions, excluding this one.
    pub fn neighbours(&self) -> (ns: Vec<Position>)
        requires
            i32::MIN < self.row < i32::MAX,
            i32::MIN < self.column < i32::MAX,
        ensures
            ns@ == neighbour_seq(*self),
    {
        let mut ns: Vec<Position> = Vec::new();
        ns.push(Position { row: self.row - 1, column: self.column - 1 });
        ns.push(Position { row: self.row, column: self.column - 1 });
        ns.push(Position { row: self.row + 1, column: self.column - 1 });
        ns.push(Position { row: self.row - 1, column: self.column });
        ns.push(Position { row: self.row + 1, column: self.column });
        ns.push(Position { row: self.row - 1, column: self.column + 1 });
        ns.push(Position { row: self.row, column: self.column + 1 });
        ns.push(Position { row: self.row + 1, column: self.column + 1 });
        proof {
            assert(ns@ =~= neighbour_seq(*self));
        }
        ns
    }
}

/// `neighbour_seq(p)` holds exactly the positions adjacent to `p`.
pub proof fn lemma_neighbour_seq_complete(p: Position, q: Position)
    requires
        i32::MIN < p.row < i32::MAX,
        i32::MIN < p.column < i32::MAX,
    ensures
        neighbour_seq(p).contains(q) <==> adjacent(
            p.row as int,
            p.column as int,
            q.row as int,
            q.column as int,
        ),
{
    let s = neighbour_seq(p);
    let pr = p.row as int;
    let pc = p.column as int;
    let qr = q.row as int;
    let qc = q.column as int;
    if adjacent(pr, pc, qr, qc) {
        if qr == pr - 1 && qc == pc - 1 {
            assert(s[0] == q);
        } else if qr == pr && qc == pc - 1 {
            assert(s[1] == q);
        } else if qr == pr + 1 && qc == pc - 1 {
            assert(s[2] == q);
        } else if qr == pr - 1 && qc == pc {
            assert(s[3] == q);
        } else if qr == pr + 1 && qc == pc {
            assert(s[4] == q);
        } else if qr == pr - 1 && qc == pc + 1 {
            assert(s[5] == q);
        } else if qr == pr && qc == pc + 1 {
            assert(s[6] == q);
        } else {
            assert(s[7] == q);
        }
        assert(s.contains(q));
    }
    if s.contains(q) {
        let i = choose|i: int| 0 <= i < s.len() && s[i] == q;
        assert(adjacent(pr, pc, qr, qc));
    }
}

} // verus!
