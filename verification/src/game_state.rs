use vstd::arithmetic::div_mod::lemma_fundamental_div_mod_converse;
use vstd::prelude::*;

use crate::cell::{default_cell, next_marking, Cell, CellType, CellView, Marking};
use crate::counts::{
    count_where, covered_pred, lemma_count_where_bounds, lemma_count_where_update,
    lemma_count_where_zero, mine_pred,
};
use crate::position::{adjacent, lemma_neighbour_seq_complete, neighbour_seq, pos_of, Position};
use crate::sample::sample_indices;

verus! {

/// Turns a truth value into its contribution to a count.
pub open spec fn b2i(b: bool) -> int {
    if b {
        1
    } else {
        0
    }
}

/// The board engine: a dense grid of cells covering rows `0..=height` and
/// columns `0..=width`, the cell of `(r, c)` stored at index
/// `r * (width + 1) + c`, plus the settings the board was built with and the
/// flag that records whether mines have been placed yet.
#[derive(Clone, Debug)]
pub struct GameState {
    pub cells: Vec<Cell>,
    pub width: usize,
    pub height: usize,
    pub mines: usize,
    pub has_revealed_any: bool,
}

/// The three player actions the engine accepts.
#[derive(Clone, Copy, Debug)]
pub enum Message {
    Reveal(Position),
    ToggleMark(Position),
    RevealSurrounding(Position),
}

impl GameState {
    /// Structural well-formedness: the cell vector covers the whole inclusive
    /// grid, and the grid bounds leave every in-grid coordinate, and its
    /// immediate neighbours, representable in the coordinate type.
    pub open spec fn wf(self) -> bool {
        &&& self.cells@.len() == (self.width + 1) * (self.height + 1)
        &&& self.width < i32::MAX
        &&& self.height < i32::MAX
    }

    pub open spec fn in_grid(self, r: int, c: int) -> bool {
        0 <= r <= self.height && 0 <= c <= self.width
    }

    pub open spec fn idx(self, r: int, c: int) -> int {
        r * (self.width + 1) + c
    }

    /// The cell at coordinates `(r, c)`, meaningful when `in_grid(r, c)`.
    pub open spec fn cell(self, r: int, c: int) -> Cell {
        self.cells@[self.idx(r, c)]
    }

    pub open spec fn mine_at(self, r: int, c: int) -> bool {
        self.in_grid(r, c) && self.cell(r, c).cell_type is Mine
    }

    /// A covered, flag-marked in-grid cell: what the chord action counts.
    pub open spec fn flag_cov_at(self, r: int, c: int) -> bool {
        self.in_grid(r, c) && !self.cell(r, c).is_revealed && self.cell(r, c).marking is Flag
    }

    /// The number of mines among the up-to-eight in-grid neighbours of
    /// `(r, c)`.
    pub open spec fn adj_mines(self, r: int, c: int) -> int {
        b2i(self.mine_at(r - 1, c - 1)) + b2i(self.mine_at(r, c - 1)) + b2i(
            self.mine_at(r + 1, c - 1),
        ) + b2i(self.mine_at(r - 1, c)) + b2i(self.mine_at(r + 1, c)) + b2i(
            self.mine_at(r - 1, c + 1),
        ) + b2i(self.mine_at(r, c + 1)) + b2i(self.mine_at(r + 1, c + 1))
    }

    /// The number of covered, flag-marked cells among the neighbours of
    /// `(r, c)`.
    pub open spec fn adj_flags(self, r: int, c: int) -> int {
        b2i(self.flag_cov_at(r - 1, c - 1)) + b2i(self.flag_cov_at(r, c - 1)) + b2i(
            self.flag_cov_at(r + 1, c - 1),
        ) + b2i(self.flag_cov_at(r - 1, c)) + b2i(self.flag_cov_at(r + 1, c)) + b2i(
            self.flag_cov_at(r - 1, c + 1),
        ) + b2i(self.flag_cov_at(r, c + 1)) + b2i(self.flag_cov_at(r + 1, c + 1))
    }

    /// A non-mine cell's stored count agrees with the mines actually around
    /// it.
    pub open spec fn count_ok_at(self, r: int, c: int) -> bool {
        self.cell(r, c).cell_type matches CellType::NonMine { neighbours } ==> neighbours
            == self.adj_mines(r, c)
    }

    pub open spec fn counts_consistent(self) -> bool {
        forall|r: int, c: int| self.in_grid(r, c) ==> #[trigger] self.count_ok_at(r, c)
    }

    /// A board on which no mine has been placed yet: every cell covered, no
    /// mine, every count zero. Markings are free: marking may happen before
    /// the first reveal.
    pub open spec fn pristine(self) -> bool {
        forall|r: int, c: int|
            self.in_grid(r, c) ==> (#[trigger] self.cell(r, c)).is_revealed == false && self.cell(
                r,
                c,
            ).cell_type == (CellType::NonMine { neighbours: 0usize })
    }

    /// The invariant every public operation preserves: well-formed, counts
    /// consistent with the mines, and mine-free until the first reveal seeds
    /// the board.
    pub open spec fn inv(self) -> bool {
        &&& self.wf()
        &&& self.counts_consistent()
        &&& !self.has_revealed_any ==> self.pristine()
    }
}

/// The two boards have the same bounds, mine target and cell count.
pub open spec fn same_scalars(pre: GameState, post: GameState) -> bool {
    &&& post.width == pre.width
    &&& post.height == pre.height
    &&& post.mines == pre.mines
    &&& post.cells@.len() == pre.cells@.len()
}

/// How toggle-mark changes a board: the named cell's marking advances one
/// step along its cycle, and nothing else changes. A position naming no cell
/// changes nothing.
pub open spec fn toggle_rel(pre: GameState, p: Position, post: GameState) -> bool {
    &&& same_scalars(pre, post)
    &&& post.has_revealed_any == pre.has_revealed_any
    &&& forall|r: int, c: int|
        #![trigger pre.cell(r, c)]
        #![trigger post.cell(r, c)]
        pre.in_grid(r, c) ==> {
            let before = pre.cell(r, c);
            let after = post.cell(r, c);
            &&& after.cell_type == before.cell_type
            &&& after.is_revealed == before.is_revealed
            &&& after.marking == (if r == p.row && c == p.column {
                next_marking(before.marking)
            } else {
                before.marking
            })
        }
}

/// An in-grid coordinate pair names a cell index inside the vector.
pub proof fn lemma_idx_bounds(s: GameState, r: int, c: int)
    requires
        s.wf(),
        s.in_grid(r, c),
    ensures
        0 <= s.idx(r, c) < s.cells@.len(),
{
    assert(0 <= r * (s.width + 1) + c < (s.width + 1) * (s.height + 1)) by (nonlinear_arith)
        requires
            0 <= r <= s.height,
            0 <= c <= s.width,
    ;
}

/// Distinct in-grid coordinate pairs name distinct cell indices.
pub proof fn lemma_idx_injective(s: GameState, r1: int, c1: int, r2: int, c2: int)
    requires
        s.in_grid(r1, c1),
        s.in_grid(r2, c2),
        s.idx(r1, c1) == s.idx(r2, c2),
    ensures
        r1 == r2,
        c1 == c2,
{
    lemma_fundamental_div_mod_converse(s.idx(r1, c1), s.width + 1, r1, c1);
    lemma_fundamental_div_mod_converse(s.idx(r2, c2), s.width + 1, r2, c2);
}

/// An index built from in-grid coordinates decomposes back into them.
pub proof fn lemma_idx_roundtrip(s: GameState, r: int, c: int)
    requires
        s.in_grid(r, c),
    ensures
        s.idx(r, c) / (s.width + 1) == r,
        s.idx(r, c) % (s.width + 1) == c,
{
    lemma_fundamental_div_mod_converse(s.idx(r, c), s.width + 1, r, c);
}

impl GameState {
    /// Build a board of `(width + 1) * (height + 1)` cells, every one covered,
    /// unmarked, mine-free with count zero. No mines exist until the first
    /// reveal places them.
    pub fn new(width: usize, height: usize, mines: usize) -> (board: GameState)
        requires
            width < i32::MAX,
            height < i32::MAX,
            (width + 1) * (height + 1) <= usize::MAX,
        ensures
            board.inv(),
            board.wf(),
            board.width == width,
            board.height == height,
            board.mines == mines,
            !board.has_revealed_any,
            board.cells@.len() == (width + 1) * (height + 1),
            forall|r: int, c: int|
                board.in_grid(r, c) ==> #[trigger] board.cell(r, c) == default_cell(),
    {
        let total: usize = (width + 1) * (height + 1);
        let mut cells: Vec<Cell> = Vec::new();
        let mut i: usize = 0;
        while i < total
            invariant
                i <= total,
                cells@.len() == i,
                forall|k: int| 0 <= k < i ==> #[trigger] cells@[k] == default_cell(),
            decreases total - i,
        {
            cells.push(Cell::default());
            i = i + 1;
        }
        let board = GameState { cells, width, height, mines, has_revealed_any: false };
        proof {
            assert forall|r: int, c: int| board.in_grid(r, c) implies #[trigger] board.cell(r, c)
                == default_cell() by {
                lemma_idx_bounds(board, r, c);
            }
            assert forall|r: int, c: int| board.in_grid(r, c) implies #[trigger] board.count_ok_at(
                r,
                c,
            ) by {
                lemma_idx_bounds(board, r, c);
            }
        }
        board
    }

    /// Whether `(r, c)` names a cell of this board.
    fn grid_contains(&self, r: i64, c: i64) -> (b: bool)
        requires
            self.wf(),
        ensures
            b == self.in_grid(r as int, c as int),
    {
        r >= 0 && c >= 0 && r <= (self.height as i64) && c <= (self.width as i64)
    }

    /// The vector index of the cell at in-grid coordinates `(r, c)`.
    fn index_of(&self, r: i64, c: i64) -> (i: usize)
        requires
            self.wf(),
            self.in_grid(r as int, c as int),
        ensures
            i == self.idx(r as int, c as int),
            i < self.cells@.len(),
    {
        proof {
            lemma_idx_bounds(*self, r as int, c as int);
            assert((r as int) * ((self.width + 1) as int) <= (i32::MAX - 1) * (i32::MAX as int))
                by (nonlinear_arith)
                requires
                    0 <= r as int <= i32::MAX - 1,
                    0 < (self.width + 1) as int <= i32::MAX,
            ;
        }
        let n = self.cells.len();
        let w1: i64 = self.width as i64 + 1;
        let v: i64 = r * w1 + c;
        v as usize
    }

    /// The cell named by `position`, or nothing when the position lies
    /// outside the grid.
    pub fn cell_at(&self, position: &Position) -> (result: Option<Cell>)
        requires
            self.wf(),
        ensures
            match result {
                Option::Some(cl) => self.in_grid(position.row as int, position.column as int)
                    && cl == self.cell(position.row as int, position.column as int),
                Option::None => !self.in_grid(position.row as int, position.column as int),
            },
    {
        let r = position.row as i64;
        let c = position.column as i64;
        if self.grid_contains(r, c) {
            let i = self.index_of(r, c);
            Some(self.cells[i])
        } else {
            None
        }
    }

    /// What a renderer may learn of the cell named by `position`: a covered
    /// cell shows only its marking, a revealed cell shows its content.
    pub fn view_at(&self, position: &Position) -> (result: Option<CellView>)
        requires
            self.wf(),
        ensures
            match result {
                Option::Some(view) => {
                    let cl = self.cell(position.row as int, position.column as int);
                    &&& self.in_grid(position.row as int, position.column as int)
                    &&& view == (if cl.is_revealed {
                        CellView::Open { cell_type: cl.cell_type }
                    } else {
                        CellView::Covered { marking: cl.marking }
                    })
                },
                Option::None => !self.in_grid(position.row as int, position.column as int),
            },
    {
        match self.cell_at(position) {
            Some(cl) => if cl.is_revealed {
                Some(CellView::Open { cell_type: cl.cell_type })
            } else {
                Some(CellView::Covered { marking: cl.marking })
            },
            None => None,
        }
    }

    /// Advance the marking of the named cell one step along the cycle
    /// none -> flag -> question mark -> none; a position naming no cell is
    /// silently ignored.
    pub fn toggle_mark(&mut self, position: &Position)
        requires
            old(self).wf(),
        ensures
            final(self).wf(),
            toggle_rel(*old(self), *position, *final(self)),
    {
        let r = position.row as i64;
        let c = position.column as i64;
        if self.grid_contains(r, c) {
            let i = self.index_of(r, c);
            let cl = self.cells[i];
            self.cells[i] = Cell { marking: cl.marking.next(), ..cl };
            proof {
                let pre = *old(self);
                assert forall|rr: int, cc: int|
                    #![trigger pre.cell(rr, cc)]
                    #![trigger self.cell(rr, cc)]
                    pre.in_grid(rr, cc) implies {
                    let before = pre.cell(rr, cc);
                    let after = self.cell(rr, cc);
                    &&& after.cell_type == before.cell_type
                    &&& after.is_revealed == before.is_revealed
                    &&& after.marking == (if rr == position.row && cc == position.column {
                        next_marking(before.marking)
                    } else {
                        before.marking
                    })
                } by {
                    lemma_idx_bounds(pre, rr, cc);
                    if pre.idx(rr, cc) == i {
                        lemma_idx_injective(
                            pre,
                            rr,
                            cc,
                            position.row as int,
                            position.column as int,
                        );
                    }
                }
            }
        }
    }
}

impl GameState {
    /// A cell the reveal action would uncover: in the grid, still covered,
    /// and not protected by a marking.
    pub open spec fn revealable(self, r: int, c: int) -> bool {
        &&& self.in_grid(r, c)
        &&& !self.cell(r, c).is_revealed
        &&& self.cell(r, c).marking is Unmarked
    }

    /// A cell with no mine and no mine among its neighbours: the cascade
    /// spreads through such cells.
    pub open spec fn zero_at(self, r: int, c: int) -> bool {
        self.cell(r, c).cell_type == (CellType::NonMine { neighbours: 0usize })
    }

    /// Step `i` of a cascade chain is sound: the cell there is revealable,
    /// and, unless it is the last, it has count zero and touches the next.
    pub open spec fn path_ok_at(self, path: Seq<(int, int)>, i: int) -> bool {
        &&& self.revealable(path[i].0, path[i].1)
        &&& i < path.len() - 1 ==> self.zero_at(path[i].0, path[i].1) && adjacent(
            path[i].0,
            path[i].1,
            path[i + 1].0,
            path[i + 1].1,
        )
    }

    /// A chain of cells the reveal cascade walks: it starts at `(sr, sc)`,
    /// ends at `(r, c)`, every cell on it is revealable, and every cell but
    /// the last has count zero and is adjacent to the next.
    pub open spec fn is_open_path(
        self,
        sr: int,
        sc: int,
        path: Seq<(int, int)>,
        r: int,
        c: int,
    ) -> bool {
        &&& path.len() >= 1
        &&& path[0] == (sr, sc)
        &&& path.last() == (r, c)
        &&& forall|i: int| 0 <= i < path.len() ==> #[trigger] self.path_ok_at(path, i)
    }

    /// Revealing at `(sr, sc)` uncovers the cell at `(r, c)`: the two are
    /// joined by a cascade chain. In particular a revealable cell is opened
    /// by revealing it directly.
    pub open spec fn opens(self, sr: int, sc: int, r: int, c: int) -> bool {
        exists|path: Seq<(int, int)>| #[trigger] self.is_open_path(sr, sc, path, r, c)
    }
}

/// Some seed position opens the cell at `(r, c)`.
pub open spec fn reach(pre: GameState, seeds: Seq<Position>, r: int, c: int) -> bool {
    exists|j: int|
        0 <= j < seeds.len() && pre.opens(
            (#[trigger] seeds[j]).row as int,
            seeds[j].column as int,
            r,
            c,
        )
}

/// How a flood started at `seeds` changes a board: contents and markings
/// stay, and a cell ends revealed exactly when it started revealed or some
/// seed opens it.
pub open spec fn flood_rel(pre: GameState, seeds: Seq<Position>, post: GameState) -> bool {
    &&& same_scalars(pre, post)
    &&& post.has_revealed_any == pre.has_revealed_any
    &&& forall|r: int, c: int|
        #![trigger pre.cell(r, c)]
        #![trigger post.cell(r, c)]
        pre.in_grid(r, c) ==> {
            let before = pre.cell(r, c);
            let after = post.cell(r, c);
            &&& after.cell_type == before.cell_type
            &&& after.marking == before.marking
            &&& after.is_revealed == (before.is_revealed || reach(pre, seeds, r, c))
        }
}

/// How revealing at `p` changes a board: contents and markings stay, and a
/// cell ends revealed exactly when it started revealed or `p` opens it.
pub open spec fn reveal_rel(pre: GameState, p: Position, post: GameState) -> bool {
    &&& same_scalars(pre, post)
    &&& post.has_revealed_any == pre.has_revealed_any
    &&& forall|r: int, c: int|
        #![trigger pre.cell(r, c)]
        #![trigger post.cell(r, c)]
        pre.in_grid(r, c) ==> {
            let before = pre.cell(r, c);
            let after = post.cell(r, c);
            &&& after.cell_type == before.cell_type
            &&& after.marking == before.marking
            &&& after.is_revealed == (before.is_revealed || pre.opens(
                p.row as int,
                p.column as int,
                r,
                c,
            ))
        }
}

/// A visit the flood still owes is on its stack: if `(r, c)` is in the grid,
/// unmarked in `s` and still covered in `t`, then its position is pending.
pub open spec fn covered_or_pending(
    s: GameState,
    t: GameState,
    stack: Seq<Position>,
    r: int,
    c: int,
) -> bool {
    (s.in_grid(r, c) && s.cell(r, c).marking is Unmarked && !t.cell(r, c).is_revealed)
        ==> stack.contains(pos_of(r, c))
}

/// Around every zero-count cell the flood has newly revealed, each neighbour
/// is revealed or pending.
pub open spec fn zero_frontier_ok(
    s: GameState,
    t: GameState,
    stack: Seq<Position>,
    r: int,
    c: int,
) -> bool {
    (t.cell(r, c).is_revealed && !s.cell(r, c).is_revealed && s.zero_at(r, c)) ==> {
        &&& covered_or_pending(s, t, stack, r - 1, c - 1)
        &&& covered_or_pending(s, t, stack, r, c - 1)
        &&& covered_or_pending(s, t, stack, r + 1, c - 1)
        &&& covered_or_pending(s, t, stack, r - 1, c)
        &&& covered_or_pending(s, t, stack, r + 1, c)
        &&& covered_or_pending(s, t, stack, r - 1, c + 1)
        &&& covered_or_pending(s, t, stack, r, c + 1)
        &&& covered_or_pending(s, t, stack, r + 1, c + 1)
    }
}

/// A flood stack entry is a seed, or touches a zero-count cell that some
/// seed opens.
pub open spec fn stack_entry_ok(s: GameState, seeds: Seq<Position>, q: Position) -> bool {
    ||| seeds.contains(q)
    ||| exists|ar: int, ac: int|
        {
            &&& #[trigger] reach(s, seeds, ar, ac)
            &&& s.zero_at(ar, ac)
            &&& s.revealable(ar, ac)
            &&& adjacent(ar, ac, q.row as int, q.column as int)
        }
}

/// A revealable cell is opened by revealing it directly.
pub proof fn lemma_opens_here(s: GameState, r: int, c: int)
    requires
        s.revealable(r, c),
    ensures
        s.opens(r, c, r, c),
{
    let path: Seq<(int, int)> = seq![(r, c)];
    assert(s.path_ok_at(path, 0));
    assert(s.is_open_path(r, c, path, r, c));
}

/// The cascade spreads across zero-count cells: when revealing at
/// `(sr, sc)` opens a zero-count cell, it also opens every revealable
/// neighbour of that cell.
pub proof fn lemma_opens_step(s: GameState, sr: int, sc: int, ar: int, ac: int, r: int, c: int)
    requires
        s.opens(sr, sc, ar, ac),
        s.zero_at(ar, ac),
        adjacent(ar, ac, r, c),
        s.revealable(r, c),
    ensures
        s.opens(sr, sc, r, c),
{
    let path = choose|path: Seq<(int, int)>| s.is_open_path(sr, sc, path, ar, ac);
    let path2 = path.push((r, c));
    assert forall|i: int| 0 <= i < path2.len() implies #[trigger] s.path_ok_at(path2, i) by {
        if i < path.len() {
            assert(s.path_ok_at(path, i));
            assert(path2[i] == path[i]);
            if i < path.len() - 1 {
                assert(path2[i + 1] == path[i + 1]);
            } else {
                assert(path2[i + 1] == (r, c));
                assert(path.last() == (ar, ac));
            }
        } else {
            assert(path2[i] == (r, c));
        }
    }
    assert(path2[0] == (sr, sc));
    assert(path2.last() == (r, c));
    assert(s.is_open_path(sr, sc, path2, r, c));
}

/// The flood has finished: contents and markings agree with the start state,
/// nothing was covered back up, and no newly revealed zero-count cell has an
/// unvisited neighbour left.
pub open spec fn flood_done(s: GameState, t: GameState) -> bool {
    &&& t.width == s.width
    &&& t.height == s.height
    &&& t.cells@.len() == s.cells@.len()
    &&& forall|r: int, c: int|
        #![trigger s.cell(r, c)]
        #![trigger t.cell(r, c)]
        s.in_grid(r, c) ==> {
            &&& t.cell(r, c).marking == s.cell(r, c).marking
            &&& t.cell(r, c).cell_type == s.cell(r, c).cell_type
            &&& (s.cell(r, c).is_revealed ==> t.cell(r, c).is_revealed)
        }
    &&& forall|r: int, c: int|
        s.in_grid(r, c) ==> #[trigger] zero_frontier_ok(s, t, Seq::<Position>::empty(), r, c)
}

proof fn lemma_path_revealed(
    s: GameState,
    t: GameState,
    sr: int,
    sc: int,
    path: Seq<(int, int)>,
    r: int,
    c: int,
)
    requires
        flood_done(s, t),
        s.is_open_path(sr, sc, path, r, c),
        t.cell(sr, sc).is_revealed,
    ensures
        t.cell(r, c).is_revealed,
    decreases path.len(),
{
    assert(s.path_ok_at(path, 0));
    if path.len() == 1 {
        assert(path.last() == path[0]);
    } else {
        let prefix = path.drop_last();
        let prev = path[path.len() - 2];
        let ar = prev.0;
        let ac = prev.1;
        assert(s.path_ok_at(path, path.len() - 2));
        assert(s.path_ok_at(path, path.len() - 1));
        assert forall|i: int| 0 <= i < prefix.len() implies #[trigger] s.path_ok_at(prefix, i) by {
            assert(s.path_ok_at(path, i));
            assert(prefix[i] == path[i]);
            if i < prefix.len() - 1 {
                assert(prefix[i + 1] == path[i + 1]);
            }
        }
        assert(s.is_open_path(sr, sc, prefix, ar, ac));
        lemma_path_revealed(s, t, sr, sc, prefix, ar, ac);
        assert(zero_frontier_ok(s, t, Seq::<Position>::empty(), ar, ac));
        assert(!Seq::<Position>::empty().contains(pos_of(r, c)));
        assert(s.revealable(r, c));
        if r == ar - 1 && c == ac - 1 {
            assert(covered_or_pending(s, t, Seq::<Position>::empty(), r, c));
        } else if r == ar && c == ac - 1 {
            assert(covered_or_pending(s, t, Seq::<Position>::empty(), r, c));
        } else if r == ar + 1 && c == ac - 1 {
            assert(covered_or_pending(s, t, Seq::<Position>::empty(), r, c));
        } else if r == ar - 1 && c == ac {
            assert(covered_or_pending(s, t, Seq::<Position>::empty(), r, c));
        } else if r == ar + 1 && c == ac {
            assert(covered_or_pending(s, t, Seq::<Position>::empty(), r, c));
        } else if r == ar - 1 && c == ac + 1 {
            assert(covered_or_pending(s, t, Seq::<Position>::empty(), r, c));
        } else if r == ar && c == ac + 1 {
            assert(covered_or_pending(s, t, Seq::<Position>::empty(), r, c));
        } else {
            assert(r == ar + 1 && c == ac + 1);
            assert(covered_or_pending(s, t, Seq::<Position>::empty(), r, c));
        }
    }
}

/// Once the flood is done and every seed has been visited, everything the
/// cascade can reach from the seeds is revealed.
proof fn lemma_flood_complete(s: GameState, t: GameState, seeds: Seq<Position>)
    requires
        flood_done(s, t),
        forall|j: int|
            0 <= j < seeds.len() ==> covered_or_pending(
                s,
                t,
                Seq::<Position>::empty(),
                (#[trigger] seeds[j]).row as int,
                seeds[j].column as int,
            ),
    ensures
        forall|r: int, c: int| #[trigger] reach(s, seeds, r, c) ==> t.cell(r, c).is_revealed,
{
    assert forall|r: int, c: int| #[trigger] reach(s, seeds, r, c) implies t.cell(
        r,
        c,
    ).is_revealed by {
        let j = choose|j: int|
            0 <= j < seeds.len() && s.opens(seeds[j].row as int, seeds[j].column as int, r, c);
        let sr = seeds[j].row as int;
        let sc = seeds[j].column as int;
        let path = choose|path: Seq<(int, int)>| s.is_open_path(sr, sc, path, r, c);
        assert(s.path_ok_at(path, 0));
        assert(s.revealable(sr, sc));
        assert(covered_or_pending(s, t, Seq::<Position>::empty(), sr, sc));
        assert(!Seq::<Position>::empty().contains(pos_of(sr, sc)));
        assert(t.cell(sr, sc).is_revealed);
        lemma_path_revealed(s, t, sr, sc, path, r, c);
    }
}

/// A sequence still contains every element other than the popped last one.
proof fn lemma_contains_drop_last<T>(s: Seq<T>, x: T)
    requires
        s.len() > 0,
        s.contains(x),
        x != s.last(),
    ensures
        s.drop_last().contains(x),
{
    let k = choose|k: int| 0 <= k < s.len() && s[k] == x;
    assert(k != s.len() - 1);
    assert(s.drop_last()[k] == x);
}

/// Appending on the right keeps every element.
proof fn lemma_contains_concat_left<T>(s1: Seq<T>, s2: Seq<T>, x: T)
    requires
        s1.contains(x),
    ensures
        (s1 + s2).contains(x),
{
    let k = choose|k: int| 0 <= k < s1.len() && s1[k] == x;
    assert((s1 + s2)[k] == x);
}

/// After replacing the cell at `(r0, c0)`, every coordinate pair reads the
/// new value there and the old value elsewhere.
proof fn lemma_cell_update(pre: GameState, post: GameState, r0: int, c0: int, v: Cell)
    requires
        pre.wf(),
        pre.in_grid(r0, c0),
        post.cells@ == pre.cells@.update(pre.idx(r0, c0), v),
        post.width == pre.width,
        post.height == pre.height,
    ensures
        forall|r: int, c: int|
            pre.in_grid(r, c) ==> #[trigger] post.cell(r, c) == (if r == r0 && c == c0 {
                v
            } else {
                pre.cell(r, c)
            }),
{
    assert forall|r: int, c: int| pre.in_grid(r, c) implies #[trigger] post.cell(r, c) == (if r
        == r0 && c == c0 {
        v
    } else {
        pre.cell(r, c)
    }) by {
        lemma_idx_bounds(pre, r, c);
        lemma_idx_bounds(pre, r0, c0);
        if pre.idx(r, c) == pre.idx(r0, c0) {
            lemma_idx_injective(pre, r, c, r0, c0);
        }
    }
}

/// The pending-visit parts of the flood loop invariant: every seed, and every
/// neighbour of a newly revealed zero-count cell, is revealed or on the stack.
spec fn flood_inv_pending(
    orig: GameState,
    cur: GameState,
    seeds: Seq<Position>,
    stack: Seq<Position>,
) -> bool {
    &&& forall|j: int|
        0 <= j < seeds.len() ==> covered_or_pending(
            orig,
            cur,
            stack,
            (#[trigger] seeds[j]).row as int,
            seeds[j].column as int,
        )
    &&& forall|r: int, c: int|
        orig.in_grid(r, c) ==> #[trigger] zero_frontier_ok(orig, cur, stack, r, c)
}

/// The popped position owes no further visit: it lies off the grid, is
/// marked, or stands revealed now.
spec fn discharged(orig: GameState, cur: GameState, q: Position) -> bool {
    !(orig.in_grid(q.row as int, q.column as int) && orig.cell(
        q.row as int,
        q.column as int,
    ).marking is Unmarked && !cur.cell(q.row as int, q.column as int).is_revealed)
}

/// One owed visit stays owed after popping `q`: its witness either was not
/// `q`, or `q`'s own visit has been discharged.
proof fn lemma_cop_step(
    orig: GameState,
    prev: GameState,
    cur: GameState,
    prev_stack: Seq<Position>,
    new_stack: Seq<Position>,
    q: Position,
    r: int,
    c: int,
)
    requires
        orig.wf(),
        covered_or_pending(orig, prev, prev_stack, r, c),
        prev_stack.len() > 0,
        prev_stack.last() == q,
        forall|x: Position| prev_stack.drop_last().contains(x) ==> new_stack.contains(x),
        orig.in_grid(r, c) ==> (!cur.cell(r, c).is_revealed ==> !prev.cell(r, c).is_revealed),
        discharged(orig, cur, q),
    ensures
        covered_or_pending(orig, cur, new_stack, r, c),
{
    if orig.in_grid(r, c) && orig.cell(r, c).marking is Unmarked && !cur.cell(r, c).is_revealed {
        assert(prev_stack.contains(pos_of(r, c)));
        if pos_of(r, c) == q {
            assert(q.row as int == r && q.column as int == c);
            assert(false);
        } else {
            lemma_contains_drop_last(prev_stack, pos_of(r, c));
        }
    }
}

/// Popping a discharged position keeps every owed visit owed, for the seeds
/// and for every cell whose revealing this step did not perform.
proof fn lemma_pop_pending(
    orig: GameState,
    prev: GameState,
    cur: GameState,
    seeds: Seq<Position>,
    prev_stack: Seq<Position>,
    new_stack: Seq<Position>,
    q: Position,
)
    requires
        orig.wf(),
        flood_inv_pending(orig, prev, seeds, prev_stack),
        prev_stack.len() > 0,
        prev_stack.last() == q,
        forall|x: Position| prev_stack.drop_last().contains(x) ==> new_stack.contains(x),
        prev.width == orig.width,
        prev.height == orig.height,
        cur.width == orig.width,
        cur.height == orig.height,
        forall|r: int, c: int|
            #![trigger cur.cell(r, c)]
            #![trigger prev.cell(r, c)]
            orig.in_grid(r, c) ==> (cur.cell(r, c) == prev.cell(r, c) || (r == q.row as int && c
                == q.column as int && cur.cell(r, c).is_revealed)),
        discharged(orig, cur, q),
    ensures
        forall|j: int|
            0 <= j < seeds.len() ==> covered_or_pending(
                orig,
                cur,
                new_stack,
                (#[trigger] seeds[j]).row as int,
                seeds[j].column as int,
            ),
        forall|r: int, c: int|
            orig.in_grid(r, c) && (cur.cell(r, c).is_revealed ==> prev.cell(r, c).is_revealed)
                ==> #[trigger] zero_frontier_ok(orig, cur, new_stack, r, c),
{
    assert forall|j: int| 0 <= j < seeds.len() implies covered_or_pending(
        orig,
        cur,
        new_stack,
        (#[trigger] seeds[j]).row as int,
        seeds[j].column as int,
    ) by {
        let sr = seeds[j].row as int;
        let sc = seeds[j].column as int;
        if orig.in_grid(sr, sc) {
            lemma_cop_step(orig, prev, cur, prev_stack, new_stack, q, sr, sc);
        }
    }
    assert forall|r: int, c: int|
        orig.in_grid(r, c) && (cur.cell(r, c).is_revealed
            ==> prev.cell(r, c).is_revealed) implies #[trigger] zero_frontier_ok(
        orig,
        cur,
        new_stack,
        r,
        c,
    ) by {
        if cur.cell(r, c).is_revealed && !orig.cell(r, c).is_revealed && orig.zero_at(r, c) {
            assert(zero_frontier_ok(orig, prev, prev_stack, r, c));
            assert(prev.cell(r, c).is_revealed);
            lemma_cop_step(orig, prev, cur, prev_stack, new_stack, q, r - 1, c - 1);
            lemma_cop_step(orig, prev, cur, prev_stack, new_stack, q, r, c - 1);
            lemma_cop_step(orig, prev, cur, prev_stack, new_stack, q, r + 1, c - 1);
            lemma_cop_step(orig, prev, cur, prev_stack, new_stack, q, r - 1, c);
            lemma_cop_step(orig, prev, cur, prev_stack, new_stack, q, r + 1, c);
            lemma_cop_step(orig, prev, cur, prev_stack, new_stack, q, r - 1, c + 1);
            lemma_cop_step(orig, prev, cur, prev_stack, new_stack, q, r, c + 1);
            lemma_cop_step(orig, prev, cur, prev_stack, new_stack, q, r + 1, c + 1);
        }
    }
}

impl GameState {
    /// Uncover every cell the cascade reaches from the given start positions,
    /// by an iterative worklist traversal.
    fn flood(&mut self, worklist: Vec<Position>)
        requires
            old(self).wf(),
        ensures
            final(self).wf(),
            flood_rel(*old(self), worklist@, *final(self)),
    {
        let ghost orig: GameState = *self;
        let ghost seeds: Seq<Position> = worklist@;
        let mut stack: Vec<Position> = worklist;
        proof {
            lemma_count_where_bounds(self.cells@, covered_pred());
            assert forall|j: int| 0 <= j < seeds.len() implies covered_or_pending(
                orig,
                orig,
                stack@,
                (#[trigger] seeds[j]).row as int,
                seeds[j].column as int,
            ) by {
                let sr = seeds[j].row as int;
                let sc = seeds[j].column as int;
                if orig.in_grid(sr, sc) {
                    assert(pos_of(sr, sc) == seeds[j]);
                    assert(stack@[j] == seeds[j]);
                }
            }
        }
        while stack.len() != 0
            invariant
                self.wf(),
                orig.wf(),
                same_scalars(orig, *self),
                self.has_revealed_any == orig.has_revealed_any,
                forall|r: int, c: int|
                    #![trigger orig.cell(r, c)]
                    #![trigger self.cell(r, c)]
                    orig.in_grid(r, c) ==> {
                        let before = orig.cell(r, c);
                        let after = self.cell(r, c);
                        &&& after.cell_type == before.cell_type
                        &&& after.marking == before.marking
                        &&& (before.is_revealed ==> after.is_revealed)
                    },
                forall|r: int, c: int|
                    orig.in_grid(r, c) && (#[trigger] self.cell(r, c)).is_revealed
                        ==> orig.cell(r, c).is_revealed || reach(orig, seeds, r, c),
                forall|k: int|
                    0 <= k < stack@.len() ==> stack_entry_ok(orig, seeds, #[trigger] stack@[k]),
                flood_inv_pending(orig, *self, seeds, stack@),
                0 <= count_where(self.cells@, covered_pred()),
            decreases count_where(self.cells@, covered_pred()) * 9 + stack@.len(),
        {
            let ghost prev: GameState = *self;
            let ghost prev_stack: Seq<Position> = stack@;
            let q = stack.pop().unwrap();
            proof {
                assert(prev_stack.last() == q);
                assert(stack@ =~= prev_stack.drop_last());
                assert(stack_entry_ok(orig, seeds, prev_stack[prev_stack.len() - 1]));
            }
            let qr = q.row as i64;
            let qc = q.column as i64;
            let ghost qri = q.row as int;
            let ghost qci = q.column as int;
            if self.grid_contains(qr, qc) {
                let i = self.index_of(qr, qc);
                let cl = self.cells[i];
                if !cl.is_revealed && matches!(cl.marking, Marking::Unmarked) {
                    self.cells[i] = Cell { is_revealed: true, ..cl };
                    proof {
                        lemma_cell_update(prev, *self, qri, qci, Cell { is_revealed: true, ..cl });
                        lemma_count_where_update(
                            prev.cells@,
                            prev.idx(qri, qci),
                            Cell { is_revealed: true, ..cl },
                            covered_pred(),
                        );
                        lemma_count_where_bounds(self.cells@, covered_pred());
                        // the popped cell is revealable in the start state
                        assert(self.cell(qri, qci) == (Cell { is_revealed: true, ..cl }));
                        assert(orig.cell(qri, qci).marking == cl.marking);
                        assert(orig.cell(qri, qci).cell_type == cl.cell_type);
                        assert(!orig.cell(qri, qci).is_revealed);
                        assert(orig.revealable(qri, qci));
                        // some seed opens it
                        if seeds.contains(q) {
                            let j = choose|j: int| 0 <= j < seeds.len() && seeds[j] == q;
                            lemma_opens_here(orig, qri, qci);
                            assert(seeds[j].row as int == qri && seeds[j].column as int == qci);
                            assert(reach(orig, seeds, qri, qci));
                        } else {
                            let (ar, ac) = choose|ar: int, ac: int|
                                {
                                    &&& #[trigger] reach(orig, seeds, ar, ac)
                                    &&& orig.zero_at(ar, ac)
                                    &&& orig.revealable(ar, ac)
                                    &&& adjacent(ar, ac, qri, qci)
                                };
                            let j = choose|j: int|
                                0 <= j < seeds.len() && orig.opens(
                                    (#[trigger] seeds[j]).row as int,
                                    seeds[j].column as int,
                                    ar,
                                    ac,
                                );
                            lemma_opens_step(
                                orig,
                                seeds[j].row as int,
                                seeds[j].column as int,
                                ar,
                                ac,
                                qri,
                                qci,
                            );
                            assert(reach(orig, seeds, qri, qci));
                        }
                        // soundness of every revealed cell
                        assert forall|r: int, c: int|
                            orig.in_grid(r, c) && (#[trigger] self.cell(r, c)).is_revealed implies
                            orig.cell(r, c).is_revealed || reach(orig, seeds, r, c) by {
                            if !(r == qri && c == qci) {
                                assert(self.cell(r, c) == prev.cell(r, c));
                            }
                        }
                        assert(discharged(orig, *self, q));
                    }
                    if matches!(cl.cell_type, CellType::NonMine { neighbours: 0 }) {
                        let ghost mid: GameState = *self;
                        let mut ns = q.neighbours();
                        proof {
                            assert(ns@ == neighbour_seq(q));
                        }
                        stack.append(&mut ns);
                        proof {
                            let news = stack@;
                            assert(news =~= prev_stack.drop_last() + neighbour_seq(q));
                            assert forall|x: Position|
                                prev_stack.drop_last().contains(x) implies news.contains(x) by {
                                lemma_contains_concat_left(
                                    prev_stack.drop_last(),
                                    neighbour_seq(q),
                                    x,
                                );
                            }
                            lemma_pop_pending(orig, prev, *self, seeds, prev_stack, news, q);
                            // the eight pushed entries each carry the revealed
                            // zero cell as their parent
                            let base = prev_stack.len() - 1;
                            assert forall|k: int|
                                0 <= k < news.len() implies stack_entry_ok(
                                orig,
                                seeds,
                                #[trigger] news[k],
                            ) by {
                                if k < base {
                                    assert(news[k] == prev_stack[k]);
                                    assert(stack_entry_ok(orig, seeds, prev_stack[k]));
                                } else {
                                    assert(news[k] == neighbour_seq(q)[k - base]);
                                    assert(orig.zero_at(qri, qci));
                                    assert(adjacent(qri, qci, news[k].row as int, news[k].column as int));
                                }
                            }
                            // the new frontier around the revealed zero cell
                            // is fully pending
                            assert(news[base] == pos_of(qri - 1, qci - 1));
                            assert(news[base + 1] == pos_of(qri, qci - 1));
                            assert(news[base + 2] == pos_of(qri + 1, qci - 1));
                            assert(news[base + 3] == pos_of(qri - 1, qci));
                            assert(news[base + 4] == pos_of(qri + 1, qci));
                            assert(news[base + 5] == pos_of(qri - 1, qci + 1));
                            assert(news[base + 6] == pos_of(qri, qci + 1));
                            assert(news[base + 7] == pos_of(qri + 1, qci + 1));
                            assert forall|r: int, c: int| orig.in_grid(r, c) implies
                                #[trigger] zero_frontier_ok(orig, *self, news, r, c) by {
                                if r == qri && c == qci {
                                    assert(news.contains(pos_of(r - 1, c - 1)));
                                    assert(news.contains(pos_of(r, c - 1)));
                                    assert(news.contains(pos_of(r + 1, c - 1)));
                                    assert(news.contains(pos_of(r - 1, c)));
                                    assert(news.contains(pos_of(r + 1, c)));
                                    assert(news.contains(pos_of(r - 1, c + 1)));
                                    assert(news.contains(pos_of(r, c + 1)));
                                    assert(news.contains(pos_of(r + 1, c + 1)));
                                } else {
                                    assert(self.cell(r, c) == prev.cell(r, c));
                                }
                            }
                        }
                    } else {
                        proof {
                            lemma_pop_pending(orig, prev, *self, seeds, prev_stack, stack@, q);
                            assert forall|r: int, c: int| orig.in_grid(r, c) implies
                                #[trigger] zero_frontier_ok(orig, *self, stack@, r, c) by {
                                if r == qri && c == qci {
                                    assert(!orig.zero_at(r, c));
                                } else {
                                    assert(self.cell(r, c) == prev.cell(r, c));
                                }
                            }
                            assert forall|k: int| 0 <= k < stack@.len() implies stack_entry_ok(
                                orig,
                                seeds,
                                #[trigger] stack@[k],
                            ) by {
                                assert(stack@[k] == prev_stack[k]);
                            }
                        }
                    }
                } else {
                    proof {
                        assert(discharged(orig, *self, q));
                        lemma_pop_pending(orig, prev, *self, seeds, prev_stack, stack@, q);
                        assert forall|k: int| 0 <= k < stack@.len() implies stack_entry_ok(
                            orig,
                            seeds,
                            #[trigger] stack@[k],
                        ) by {
                            assert(stack@[k] == prev_stack[k]);
                        }
                    }
                }
            } else {
                proof {
                    assert(discharged(orig, *self, q));
                    lemma_pop_pending(orig, prev, *self, seeds, prev_stack, stack@, q);
                    assert forall|k: int| 0 <= k < stack@.len() implies stack_entry_ok(
                        orig,
                        seeds,
                        #[trigger] stack@[k],
                    ) by {
                        assert(stack@[k] == prev_stack[k]);
                    }
                }
            }
        }
        proof {
            assert(stack@ =~= Seq::<Position>::empty());
            assert(flood_done(orig, *self));
            lemma_flood_complete(orig, *self, seeds);
            assert forall|r: int, c: int|
                #![trigger orig.cell(r, c)]
                #![trigger self.cell(r, c)]
                orig.in_grid(r, c) implies {
                let before = orig.cell(r, c);
                let after = self.cell(r, c);
                &&& after.cell_type == before.cell_type
                &&& after.marking == before.marking
                &&& after.is_revealed == (before.is_revealed || reach(orig, seeds, r, c))
            } by {
                if reach(orig, seeds, r, c) {
                    assert(self.cell(r, c).is_revealed);
                }
            }
        }
    }

    /// Uncover the cell at `position`, cascading through zero-count cells: a
    /// position naming no cell, an already revealed cell, or a marked cell is
    /// silently ignored.
    pub fn reveal_cell(&mut self, position: &Position)
        requires
            old(self).wf(),
        ensures
            final(self).wf(),
            reveal_rel(*old(self), *position, *final(self)),
    {
        let ghost pre: GameState = *old(self);
        let mut worklist: Vec<Position> = Vec::new();
        worklist.push(*position);
        let ghost seeds = worklist@;
        self.flood(worklist);
        proof {
            assert forall|r: int, c: int| pre.in_grid(r, c) implies (reach(pre, seeds, r, c)
                <==> pre.opens(position.row as int, position.column as int, r, c)) by {
                if reach(pre, seeds, r, c) {
                    let j = choose|j: int|
                        0 <= j < seeds.len() && pre.opens(
                            (#[trigger] seeds[j]).row as int,
                            seeds[j].column as int,
                            r,
                            c,
                        );
                    assert(j == 0);
                    assert(seeds[0] == *position);
                }
                if pre.opens(position.row as int, position.column as int, r, c) {
                    assert(seeds[0] == *position);
                    assert(reach(pre, seeds, r, c));
                }
            }
        }
    }
}

/// The first-click safe zone: the clicked position and its neighbours, all
/// guaranteed mine-free.
pub open spec fn in_safe_zone(p: Position, r: int, c: int) -> bool {
    (r == p.row && c == p.column) || adjacent(p.row as int, p.column as int, r, c)
}

/// The number of cells outside the safe zone in row `r`, among columns
/// `0 .. n_cols`.
pub open spec fn eligible_in_row(p: Position, r: int, n_cols: int) -> int
    decreases n_cols,
{
    if n_cols <= 0 {
        0
    } else {
        eligible_in_row(p, r, n_cols - 1) + b2i(!in_safe_zone(p, r, n_cols - 1))
    }
}

/// The number of cells outside the safe zone among rows `0 .. n_rows`, each
/// row `n_cols` columns wide.
pub open spec fn eligible_upto(p: Position, n_rows: int, n_cols: int) -> int
    decreases n_rows,
{
    if n_rows <= 0 {
        0
    } else {
        eligible_upto(p, n_rows - 1, n_cols) + eligible_in_row(p, n_rows - 1, n_cols)
    }
}

impl GameState {
    /// The number of cells a mine may land on after a first click at `p`:
    /// every in-grid cell outside the safe zone.
    pub open spec fn num_eligible(self, p: Position) -> int {
        eligible_upto(p, self.height + 1, self.width + 1)
    }
}

/// How the one-time mine placement changes a board: the cell count and
/// settings stay; afterwards every cell is covered, the safe zone is
/// mine-free, exactly `min(mines, eligible)` mines stand on the board, every
/// non-mine count equals the number of mines around it, mine cells are reset
/// to unmarked, and other cells keep their marking. Which eligible cells
/// carry the mines is random and is left unspecified.
pub open spec fn placed_rel(pre: GameState, p: Position, post: GameState) -> bool {
    &&& same_scalars(pre, post)
    &&& post.has_revealed_any == pre.has_revealed_any
    &&& post.counts_consistent()
    &&& count_where(post.cells@, mine_pred()) == (if pre.mines <= pre.num_eligible(p) {
        pre.mines as int
    } else {
        pre.num_eligible(p)
    })
    &&& (pre.mines >= pre.num_eligible(p) ==> forall|r: int, c: int|
        pre.in_grid(r, c) && !in_safe_zone(p, r, c) ==> (#[trigger] post.cell(
            r,
            c,
        )).cell_type is Mine)
    &&& forall|r: int, c: int|
        #![trigger post.cell(r, c)]
        pre.in_grid(r, c) ==> {
            let after = post.cell(r, c);
            &&& !after.is_revealed
            &&& (in_safe_zone(p, r, c) ==> !(after.cell_type is Mine))
            &&& (after.cell_type is Mine ==> after.marking is Unmarked)
            &&& (!(after.cell_type is Mine) ==> after.marking == pre.cell(r, c).marking)
        }
}

/// A vector index a mine may be placed at: it names an in-grid cell outside
/// the safe zone.
spec fn eligible_index_ok(s: GameState, p: Position, i: int) -> bool {
    &&& 0 <= i < s.cells@.len()
    &&& s.in_grid(i / (s.width + 1), i % (s.width + 1))
    &&& !in_safe_zone(p, i / (s.width + 1), i % (s.width + 1))
}

/// The cell stored at index `k`, when it is not a mine, carries the number
/// of mines around its coordinates.
spec fn count_ok_idx(s: GameState, k: int) -> bool {
    s.cells@[k].cell_type matches CellType::NonMine { neighbours } ==> neighbours == s.adj_mines(
        s.row_of(k),
        s.col_of(k),
    )
}

/// Every index into the cell vector decomposes into in-grid coordinates.
proof fn lemma_index_coords(s: GameState, i: int)
    requires
        s.wf(),
        0 <= i < s.cells@.len(),
    ensures
        s.in_grid(i / (s.width + 1), i % (s.width + 1)),
        s.idx(i / (s.width + 1), i % (s.width + 1)) == i,
{
    let w1 = s.width + 1 as int;
    let h1 = s.height + 1 as int;
    vstd::arithmetic::div_mod::lemma_fundamental_div_mod(i, w1);
    vstd::arithmetic::div_mod::lemma_mod_bound(i, w1);
    let q = i / w1;
    let m = i % w1;
    assert(0 <= q < h1) by (nonlinear_arith)
        requires
            i == w1 * q + m,
            0 <= m < w1,
            0 <= i < w1 * h1,
            w1 > 0,
    ;
    assert(q * w1 == w1 * q) by (nonlinear_arith);
}

impl GameState {
    /// The row of the cell stored at vector index `i`.
    pub open spec fn row_of(self, i: int) -> int {
        i / (self.width + 1)
    }

    /// The column of the cell stored at vector index `i`.
    pub open spec fn col_of(self, i: int) -> int {
        i % (self.width + 1)
    }

    /// One when the position names a mine cell, zero otherwise.
    fn mine_bit(&self, r: i64, c: i64) -> (b: usize)
        requires
            self.wf(),
        ensures
            b == b2i(self.mine_at(r as int, c as int)),
    {
        if self.grid_contains(r, c) {
            let i = self.index_of(r, c);
            if matches!(self.cells[i].cell_type, CellType::Mine) {
                1
            } else {
                0
            }
        } else {
            0
        }
    }

    /// Place the mines, once, given the first-clicked position: choose
    /// `mines` cells at random among those outside the safe zone (all of
    /// them when fewer are eligible), overwrite each chosen cell with a
    /// fresh mine, and raise the stored count of every neighbouring non-mine
    /// cell once per adjacent mine.
    #[verifier::loop_isolation(false)]
    #[verifier::rlimit(60)]
    pub(crate) fn initialize_state(&mut self, starting_position: Position)
        requires
            old(self).wf(),
            old(self).pristine(),
        ensures
            final(self).wf(),
            placed_rel(*old(self), starting_position, *final(self)),
    {
        let ghost pre: GameState = *self;
        let p = starting_position;
        let w1: usize = self.width + 1;
        let h1: usize = self.height + 1;
        proof {
            assert(w1 * h1 == pre.cells@.len());
            vstd::std_specs::vec::axiom_spec_len(&pre.cells);
            assert(pre.cells@.len() <= usize::MAX);
        }
        // gather the indices of the cells a mine may land on
        let mut eligible: Vec<usize> = Vec::new();
        let mut r: usize = 0;
        while r < h1
            invariant
                r <= h1,
                eligible@.len() == eligible_upto(p, r as int, w1 as int),
                forall|k: int|
                    0 <= k < eligible@.len() ==> eligible_index_ok(
                        pre,
                        p,
                        #[trigger] eligible@[k] as int,
                    ),
                forall|k: int| 0 <= k < eligible@.len() ==> (#[trigger] eligible@[k] as int) < r * (
                w1 as int),
                forall|k1: int, k2: int|
                    0 <= k1 < k2 < eligible@.len() ==> eligible@[k1] < eligible@[k2],
                forall|rr: int, cc: int|
                    0 <= rr < r && 0 <= cc < w1 && !in_safe_zone(p, rr, cc)
                        ==> eligible@.contains((#[trigger] pre.idx(rr, cc)) as usize),
            decreases h1 - r,
        {
            let mut c: usize = 0;
            while c < w1
                invariant
                    c <= w1,
                    r < h1,
                    eligible@.len() == eligible_upto(p, r as int, w1 as int) + eligible_in_row(
                        p,
                        r as int,
                        c as int,
                    ),
                    forall|k: int|
                        0 <= k < eligible@.len() ==> eligible_index_ok(
                            pre,
                            p,
                            #[trigger] eligible@[k] as int,
                        ),
                    forall|k: int|
                        0 <= k < eligible@.len() ==> (#[trigger] eligible@[k] as int) < r * (
                        w1 as int) + c,
                    forall|k1: int, k2: int|
                        0 <= k1 < k2 < eligible@.len() ==> eligible@[k1] < eligible@[k2],
                    forall|rr: int, cc: int|
                        0 <= rr < r && 0 <= cc < w1 && !in_safe_zone(p, rr, cc)
                            ==> eligible@.contains((#[trigger] pre.idx(rr, cc)) as usize),
                    forall|cc: int|
                        0 <= cc < c && !in_safe_zone(p, r as int, cc) ==> eligible@.contains(
                            (#[trigger] pre.idx(r as int, cc)) as usize,
                        ),
                decreases w1 - c,
            {
                let dr = (r as i64) - (p.row as i64);
                let dc = (c as i64) - (p.column as i64);
                let safe = -1 <= dr && dr <= 1 && -1 <= dc && dc <= 1;
                proof {
                    assert(safe == in_safe_zone(p, r as int, c as int));
                    assert((r as int) * (w1 as int) + c < (w1 as int) * (h1 as int))
                        by (nonlinear_arith)
                        requires
                            0 <= r as int,
                            (r as int) < h1 as int,
                            0 <= c as int,
                            (c as int) < w1 as int,
                    ;
                }
                if !safe {
                    let i: usize = r * w1 + c;
                    proof {
                        lemma_idx_roundtrip(pre, r as int, c as int);
                        assert(i as int == pre.idx(r as int, c as int));
                        lemma_idx_bounds(pre, r as int, c as int);
                        assert(eligible_index_ok(pre, p, i as int));
                    }
                    let ghost eprev = eligible@;
                    eligible.push(i);
                    proof {
                        assert forall|x: usize| eprev.contains(x) implies eligible@.contains(
                            x,
                        ) by {
                            let kk = choose|kk: int| 0 <= kk < eprev.len() && eprev[kk] == x;
                            assert(eligible@[kk] == x);
                        }
                        assert(eligible@[eprev.len() as int] == i);
                        assert(eligible@.contains(i));
                    }
                }
                c = c + 1;
            }
            proof {
                assert(eligible_upto(p, (r + 1) as int, w1 as int) == eligible_upto(
                    p,
                    r as int,
                    w1 as int,
                ) + eligible_in_row(p, r as int, w1 as int));
                assert(((r + 1) as int) * (w1 as int) == (r as int) * (w1 as int) + (w1 as int))
                    by (nonlinear_arith);
            }
            r = r + 1;
        }
        proof {
            assert(eligible@.len() == pre.num_eligible(p));
            assert forall|k1: int, k2: int|
                0 <= k1 < eligible@.len() && 0 <= k2 < eligible@.len() && k1
                    != k2 implies eligible@[k1] != eligible@[k2] by {
                if k1 < k2 {
                } else {
                }
            }
            assert(eligible@.no_duplicates());
            assert forall|ii: int| 0 <= ii < pre.cells@.len() implies !(mine_pred()(
                #[trigger] pre.cells@[ii],
            )) by {
                lemma_index_coords(pre, ii);
                assert(!(pre.cell(ii / (pre.width + 1), ii % (pre.width + 1)).cell_type is Mine));
            }
            lemma_count_where_zero(pre.cells@, mine_pred());
        }
        let ghost elig: Seq<usize> = eligible@;
        let picked = sample_indices(eligible, self.mines);
        proof {
            assert forall|k: int| 0 <= k < picked@.len() implies eligible_index_ok(
                pre,
                p,
                #[trigger] picked@[k] as int,
            ) by {
                assert(elig.contains(picked@[k]));
                let kk = choose|kk: int| 0 <= kk < elig.len() && elig[kk] == picked@[k];
                assert(eligible_index_ok(pre, p, elig[kk] as int));
            }
        }
        // place each chosen mine
        let mut j: usize = 0;
        while j < picked.len()
            invariant
                j <= picked@.len(),
                self.wf(),
                self.width == pre.width,
                self.height == pre.height,
                self.mines == pre.mines,
                self.has_revealed_any == pre.has_revealed_any,
                self.cells@.len() == pre.cells@.len(),
                count_where(self.cells@, mine_pred()) == j,
                forall|rr: int, cc: int|
                    #![trigger self.cell(rr, cc)]
                    pre.in_grid(rr, cc) ==> {
                        let b = pre.cell(rr, cc);
                        let a = self.cell(rr, cc);
                        &&& (a.cell_type is Mine <==> picked@.take(j as int).contains(
                            pre.idx(rr, cc) as usize,
                        ))
                        &&& !a.is_revealed
                        &&& (a.cell_type is Mine ==> a.marking is Unmarked)
                        &&& (!(a.cell_type is Mine) ==> a == b)
                    },
            decreases picked@.len() - j,
        {
            let i: usize = picked[j];
            let ghost rii = pre.row_of(i as int);
            let ghost cii = pre.col_of(i as int);
            proof {
                assert(eligible_index_ok(pre, p, i as int));
                lemma_index_coords(pre, i as int);
                assert(pre.in_grid(rii, cii));
                assert(pre.idx(rii, cii) == i as int);
                lemma_idx_bounds(pre, rii, cii);
                // this index has not been picked before, so no mine stands
                // there yet
                if picked@.take(j as int).contains(i) {
                    let kk = choose|kk: int| 0 <= kk < j && picked@.take(j as int)[kk] == i;
                    assert(picked@[kk] == picked@[j as int]);
                    assert(false);
                }
                assert(!(self.cell(rii, cii).cell_type is Mine));
                assert(!(self.cells@[i as int].cell_type is Mine));
            }
            let ghost before: GameState = *self;
            self.cells[i] = Cell::mine();
            proof {
                lemma_cell_update(before, *self, rii, cii, crate::cell::mine_cell());
                lemma_count_where_update(
                    before.cells@,
                    i as int,
                    crate::cell::mine_cell(),
                    mine_pred(),
                );
                assert(picked@.take(j as int + 1) =~= picked@.take(j as int).push(
                    picked@[j as int],
                ));
                assert forall|rr: int, cc: int|
                    #![trigger self.cell(rr, cc)]
                    pre.in_grid(rr, cc) implies {
                    let b = pre.cell(rr, cc);
                    let a = self.cell(rr, cc);
                    &&& (a.cell_type is Mine <==> picked@.take(j as int + 1).contains(
                        pre.idx(rr, cc) as usize,
                    ))
                    &&& !a.is_revealed
                    &&& (a.cell_type is Mine ==> a.marking is Unmarked)
                    &&& (!(a.cell_type is Mine) ==> a == b)
                } by {
                    lemma_idx_bounds(pre, rr, cc);
                    let vv = pre.idx(rr, cc) as usize;
                    assert(vv as int == pre.idx(rr, cc));
                    if rr == rii && cc == cii {
                        assert(vv == i);
                        assert(picked@.take(j as int + 1)[j as int] == i);
                        assert(picked@.take(j as int + 1).contains(vv));
                    } else {
                        if pre.idx(rr, cc) == pre.idx(rii, cii) {
                            lemma_idx_injective(pre, rr, cc, rii, cii);
                        }
                        assert(vv != i);
                        if picked@.take(j as int).contains(vv) {
                            let kk = choose|kk: int|
                                0 <= kk < j && picked@.take(j as int)[kk] == vv;
                            assert(picked@.take(j as int + 1)[kk] == vv);
                            assert(picked@.take(j as int + 1).contains(vv));
                        }
                        if picked@.take(j as int + 1).contains(vv) {
                            let kk = choose|kk: int|
                                0 <= kk < j + 1 && (#[trigger] picked@.take(j as int + 1)[kk])
                                    == vv;
                            if kk == j {
                                assert(false);
                            } else {
                                assert(picked@.take(j as int)[kk] == vv);
                                assert(picked@.take(j as int).contains(vv));
                            }
                        }
                    }
                }
            }
            j = j + 1;
        }
        // work out every non-mine cell's count from the mines around it
        let ghost mined: GameState = *self;
        let total: usize = self.cells.len();
        let mut k: usize = 0;
        while k < total
            invariant
                k <= total,
                self.wf(),
                self.width == pre.width,
                self.height == pre.height,
                self.mines == pre.mines,
                self.has_revealed_any == pre.has_revealed_any,
                self.cells@.len() == pre.cells@.len(),
                total == self.cells@.len(),
                count_where(self.cells@, mine_pred()) == count_where(mined.cells@, mine_pred()),
                forall|rr: int, cc: int|
                    #![trigger self.cell(rr, cc)]
                    pre.in_grid(rr, cc) ==> {
                        let b = mined.cell(rr, cc);
                        let a = self.cell(rr, cc);
                        &&& (a.cell_type is Mine <==> b.cell_type is Mine)
                        &&& a.is_revealed == b.is_revealed
                        &&& a.marking == b.marking
                    },
                forall|kk: int| 0 <= kk < k ==> #[trigger] count_ok_idx(*self, kk),
            decreases total - k,
        {
            let cl = self.cells[k];
            if !matches!(cl.cell_type, CellType::Mine) {
                let r: usize = k / w1;
                let c: usize = k % w1;
                proof {
                    lemma_index_coords(*self, k as int);
                    assert(self.in_grid(r as int, c as int));
                    assert(self.idx(r as int, c as int) == k as int);
                }
                let rr: i64 = r as i64;
                let cc: i64 = c as i64;
                let n: usize = self.mine_bit(rr - 1, cc - 1) + self.mine_bit(rr, cc - 1)
                    + self.mine_bit(rr + 1, cc - 1) + self.mine_bit(rr - 1, cc) + self.mine_bit(
                    rr + 1,
                    cc,
                ) + self.mine_bit(rr - 1, cc + 1) + self.mine_bit(rr, cc + 1) + self.mine_bit(
                    rr + 1,
                    cc + 1,
                );
                proof {
                    assert(n as int == self.adj_mines(r as int, c as int));
                }
                let fixed = Cell { cell_type: CellType::NonMine { neighbours: n }, ..cl };
                let ghost before: GameState = *self;
                self.cells[k] = fixed;
                proof {
                    lemma_count_where_update(before.cells@, k as int, fixed, mine_pred());
                    assert forall|rr: int, cc: int|
                        #![trigger self.cell(rr, cc)]
                        pre.in_grid(rr, cc) implies {
                        let b = mined.cell(rr, cc);
                        let a = self.cell(rr, cc);
                        &&& (a.cell_type is Mine <==> b.cell_type is Mine)
                        &&& a.is_revealed == b.is_revealed
                        &&& a.marking == b.marking
                    } by {
                        lemma_idx_bounds(pre, rr, cc);
                        assert(before.cells@[k as int] == cl);
                        if pre.idx(rr, cc) == k as int {
                            assert(self.cell(rr, cc) == fixed);
                            assert(before.cell(rr, cc) == cl);
                        } else {
                            assert(self.cell(rr, cc) == before.cell(rr, cc));
                        }
                    }
                    // replacing one non-mine count leaves every mine where it
                    // was, so no cell's neighbourhood changed
                    assert forall|u: int, v: int| #[trigger]
                        self.mine_at(u, v) == before.mine_at(u, v) by {
                        if before.in_grid(u, v) {
                            lemma_idx_bounds(before, u, v);
                        }
                    }
                    assert forall|kk: int| 0 <= kk < k + 1 implies #[trigger] count_ok_idx(
                        *self,
                        kk,
                    ) by {
                        if kk < k {
                            assert(count_ok_idx(before, kk));
                            assert(self.cells@[kk] == before.cells@[kk]);
                            assert(self.adj_mines(before.row_of(kk), before.col_of(kk))
                                == before.adj_mines(before.row_of(kk), before.col_of(kk)));
                        } else {
                            assert(self.cells@[kk] == fixed);
                            assert(self.row_of(kk) == r as int && self.col_of(kk) == c as int);
                            assert(self.adj_mines(r as int, c as int) == before.adj_mines(
                                r as int,
                                c as int,
                            ));
                        }
                    }
                }
            } else {
                proof {
                    assert(count_ok_idx(*self, k as int));
                }
            }
            k = k + 1;
        }
        proof {
            assert(picked@.take(picked@.len() as int) =~= picked@);
            assert forall|r0: int, c0: int| self.in_grid(r0, c0) implies #[trigger] self.count_ok_at(
                r0,
                c0,
            ) by {
                lemma_idx_bounds(*self, r0, c0);
                lemma_idx_roundtrip(*self, r0, c0);
                assert(count_ok_idx(*self, self.idx(r0, c0)));
            }
            assert forall|r0: int, c0: int|
                pre.in_grid(r0, c0) && in_safe_zone(p, r0, c0) implies !(#[trigger] self.cell(
                r0,
                c0,
            ).cell_type is Mine) by {
                lemma_idx_bounds(pre, r0, c0);
                if self.cell(r0, c0).cell_type is Mine {
                    let v = pre.idx(r0, c0) as usize;
                    assert(picked@.contains(v));
                    let kk = choose|kk: int| 0 <= kk < picked@.len() && picked@[kk] == v;
                    assert(eligible_index_ok(pre, p, picked@[kk] as int));
                    lemma_idx_roundtrip(pre, r0, c0);
                    assert(false);
                }
            }
            // in the clamped case every eligible cell was picked, so every
            // cell outside the safe zone carries a mine
            if pre.mines >= pre.num_eligible(p) {
                elig.unique_seq_to_set();
                picked@.unique_seq_to_set();
                vstd::seq_lib::seq_to_set_is_finite::<usize>(elig);
                vstd::seq_lib::seq_to_set_is_finite::<usize>(picked@);
                assert forall|x: usize| picked@.to_set().contains(x) implies elig.to_set()
                    .contains(x) by {
                    assert(picked@.contains(x));
                    let kk = choose|kk: int| 0 <= kk < picked@.len() && picked@[kk] == x;
                    assert(elig.contains(picked@[kk]));
                }
                assert(picked@.to_set().subset_of(elig.to_set()));
                assert(picked@.len() == elig.len());
                vstd::set_lib::lemma_subset_equality(picked@.to_set(), elig.to_set());
                assert forall|r0: int, c0: int|
                    pre.in_grid(r0, c0) && !in_safe_zone(p, r0, c0) implies (#[trigger] self.cell(
                    r0,
                    c0,
                )).cell_type is Mine by {
                    lemma_idx_bounds(pre, r0, c0);
                    let v = pre.idx(r0, c0) as usize;
                    assert(elig.contains(v));
                    assert(elig.to_set().contains(v));
                    assert(picked@.to_set().contains(v));
                    assert(picked@.contains(v));
                }
            }
            assert(placed_rel(pre, p, *self));

        }
    }
}

/// Whether the chord gate is armed at `p`: the cell exists, stands revealed,
/// is no mine, and exactly as many covered flagged neighbours surround it as
/// its stored count.
pub open spec fn chord_fires(pre: GameState, p: Position) -> bool {
    &&& pre.in_grid(p.row as int, p.column as int)
    &&& pre.cell(p.row as int, p.column as int).is_revealed
    &&& pre.cell(p.row as int, p.column as int).cell_type matches CellType::NonMine { neighbours }
        && pre.adj_flags(p.row as int, p.column as int) == neighbours
}

/// The effect of the chord action: when the flags around `p` exactly match
/// its stored count, each neighbour of `p` is uncovered exactly as a direct
/// reveal of it would do, cascades and all; otherwise the board stays as it
/// was.
pub open spec fn chord_rel(pre: GameState, p: Position, post: GameState) -> bool {
    if chord_fires(pre, p) {
        &&& same_scalars(pre, post)
        &&& post.has_revealed_any == pre.has_revealed_any
        &&& forall|r: int, c: int|
            #![trigger pre.cell(r, c)]
            #![trigger post.cell(r, c)]
            pre.in_grid(r, c) ==> {
                let before = pre.cell(r, c);
                let after = post.cell(r, c);
                &&& after.cell_type == before.cell_type
                &&& after.marking == before.marking
                &&& after.is_revealed == (before.is_revealed || exists|qr: int, qc: int|
                    adjacent(p.row as int, p.column as int, qr, qc) && #[trigger] pre.opens(
                        qr,
                        qc,
                        r,
                        c,
                    ))
            }
    } else {
        post == pre
    }
}

/// After the first reveal at `p` has placed the mines and run, neither `p`
/// nor any of its up-to-eight neighbours carries a mine.
pub proof fn lemma_safe_zone_after_first_reveal(
    pre: GameState,
    p: Position,
    mid: GameState,
    post: GameState,
)
    requires
        placed_rel(pre, p, mid),
        reveal_rel((GameState { has_revealed_any: true, ..mid }), p, post),
    ensures
        forall|r: int, c: int|
            pre.in_grid(r, c) && in_safe_zone(p, r, c) ==> !((#[trigger] post.cell(
                r,
                c,
            )).cell_type is Mine),
{
    let mid1 = GameState { has_revealed_any: true, ..mid };
    assert forall|r: int, c: int|
        pre.in_grid(r, c) && in_safe_zone(p, r, c) implies !((#[trigger] post.cell(
        r,
        c,
    )).cell_type is Mine) by {
        assert(mid1.cell(r, c) == mid.cell(r, c));
        assert(!(mid.cell(r, c).cell_type is Mine));
        assert(post.cell(r, c).cell_type == mid1.cell(r, c).cell_type);
    }
}

/// Three toggle-mark actions at one and the same position return every cell
/// of the board to its original state.
pub proof fn lemma_toggle_thrice_restores(
    s0: GameState,
    s1: GameState,
    s2: GameState,
    s3: GameState,
    p: Position,
)
    requires
        toggle_rel(s0, p, s1),
        toggle_rel(s1, p, s2),
        toggle_rel(s2, p, s3),
    ensures
        forall|r: int, c: int| s0.in_grid(r, c) ==> #[trigger] s3.cell(r, c) == s0.cell(r, c),
{
    assert forall|r: int, c: int| s0.in_grid(r, c) implies #[trigger] s3.cell(r, c) == s0.cell(
        r,
        c,
    ) by {
        crate::cell::lemma_marking_cycle(s0.cell(r, c).marking);
        assert(s1.cell(r, c).cell_type == s0.cell(r, c).cell_type);
        assert(s2.cell(r, c).cell_type == s1.cell(r, c).cell_type);
    }
}

/// Two boards of the same shape whose cells hold the same contents have
/// consistent counts together.
proof fn lemma_counts_preserved(s: GameState, t: GameState)
    requires
        t.width == s.width,
        t.height == s.height,
        t.cells@.len() == s.cells@.len(),
        forall|r: int, c: int|
            #![trigger t.cell(r, c)]
            s.in_grid(r, c) ==> t.cell(r, c).cell_type == s.cell(r, c).cell_type,
        s.counts_consistent(),
    ensures
        t.counts_consistent(),
{
    assert forall|r: int, c: int| t.in_grid(r, c) implies #[trigger] t.count_ok_at(r, c) by {
        assert(s.count_ok_at(r, c));
        assert forall|u: int, v: int| #[trigger] t.mine_at(u, v) == s.mine_at(u, v) by {
            if s.in_grid(u, v) {
                assert(t.cell(u, v).cell_type == s.cell(u, v).cell_type);
            }
        }
    }
}

impl GameState {
    /// One when the position names a covered, flag-marked cell, zero
    /// otherwise.
    fn flag_bit(&self, r: i64, c: i64) -> (b: usize)
        requires
            self.wf(),
        ensures
            b == b2i(self.flag_cov_at(r as int, c as int)),
    {
        if self.grid_contains(r, c) {
            let i = self.index_of(r, c);
            let cl = self.cells[i];
            if !cl.is_revealed && matches!(cl.marking, Marking::Flag) {
                1
            } else {
                0
            }
        } else {
            0
        }
    }

    /// Whether `q` names a covered, flag-marked cell.
    fn flag_cov(&self, q: &Position) -> (b: bool)
        requires
            self.wf(),
        ensures
            b == self.flag_cov_at(q.row as int, q.column as int),
    {
        let r = q.row as i64;
        let c = q.column as i64;
        if self.grid_contains(r, c) {
            let i = self.index_of(r, c);
            let cl = self.cells[i];
            !cl.is_revealed && matches!(cl.marking, Marking::Flag)
        } else {
            false
        }
    }

    /// The chord action: when the named cell is revealed, is no mine, and
    /// exactly its count of its neighbours are covered and flagged, reveal
    /// its remaining neighbours, cascades included; otherwise do nothing.
    #[verifier::loop_isolation(false)]
    pub fn reveal_surrounding(&mut self, position: &Position)
        requires
            old(self).wf(),
        ensures
            final(self).wf(),
            chord_rel(*old(self), *position, *final(self)),
    {
        let ghost pre: GameState = *self;
        let ghost pri = position.row as int;
        let ghost pci = position.column as int;
        let r = position.row as i64;
        let c = position.column as i64;
        if !self.grid_contains(r, c) {
            return ;
        }
        let i = self.index_of(r, c);
        let cl = self.cells[i];
        if !cl.is_revealed {
            return ;
        }
        let count = match cl.cell_type {
            CellType::Mine => {
                return ;
            },
            CellType::NonMine { neighbours } => neighbours,
        };
        let flagged: usize = self.flag_bit(r - 1, c - 1) + self.flag_bit(r, c - 1) + self.flag_bit(
            r + 1,
            c - 1,
        ) + self.flag_bit(r - 1, c) + self.flag_bit(r + 1, c) + self.flag_bit(r - 1, c + 1)
            + self.flag_bit(r, c + 1) + self.flag_bit(r + 1, c + 1);
        proof {
            assert(flagged as int == pre.adj_flags(pri, pci));
        }
        if flagged != count {
            proof {
                assert(!chord_fires(pre, *position));
            }
            return ;
        }
        let ns = position.neighbours();
        let mut seeds: Vec<Position> = Vec::new();
        let mut k: usize = 0;
        while k < 8
            invariant
                k <= 8,
                forall|t: int| 0 <= t < seeds@.len() ==> ns@.contains(#[trigger] seeds@[t]),
                forall|t: int|
                    0 <= t < k ==> (!pre.flag_cov_at(
                        (#[trigger] ns@[t]).row as int,
                        ns@[t].column as int,
                    ) ==> seeds@.contains(ns@[t])),
            decreases 8 - k,
        {
            let q = ns[k];
            proof {
                assert(ns@[k as int] == q);
            }
            if !self.flag_cov(&q) {
                let ghost sprev = seeds@;
                seeds.push(q);
                proof {
                    assert forall|x: Position| sprev.contains(x) implies seeds@.contains(x) by {
                        let ii = choose|ii: int| 0 <= ii < sprev.len() && sprev[ii] == x;
                        assert(seeds@[ii] == x);
                    }
                    assert(seeds@[sprev.len() as int] == q);
                    assert(seeds@.contains(q));
                }
            }
            k = k + 1;
        }
        let ghost sds: Seq<Position> = seeds@;
        self.flood(seeds);
        proof {
            assert(chord_fires(pre, *position));
            assert forall|r0: int, c0: int| pre.in_grid(r0, c0) implies (reach(pre, sds, r0, c0)
                <==> (exists|qr: int, qc: int|
                adjacent(pri, pci, qr, qc) && #[trigger] pre.opens(qr, qc, r0, c0))) by {
                if reach(pre, sds, r0, c0) {
                    let j = choose|j: int|
                        0 <= j < sds.len() && pre.opens(
                            (#[trigger] sds[j]).row as int,
                            sds[j].column as int,
                            r0,
                            c0,
                        );
                    assert(ns@.contains(sds[j]));
                    lemma_neighbour_seq_complete(*position, sds[j]);
                    assert(adjacent(pri, pci, sds[j].row as int, sds[j].column as int));
                }
                if exists|qr: int, qc: int|
                    adjacent(pri, pci, qr, qc) && #[trigger] pre.opens(qr, qc, r0, c0) {
                    let (qr, qc) = choose|qr: int, qc: int|
                        adjacent(pri, pci, qr, qc) && #[trigger] pre.opens(qr, qc, r0, c0);
                    let path = choose|path: Seq<(int, int)>| pre.is_open_path(qr, qc, path, r0, c0);
                    assert(pre.path_ok_at(path, 0));
                    assert(pre.revealable(qr, qc));
                    let q = pos_of(qr, qc);
                    assert(q.row as int == qr && q.column as int == qc);
                    lemma_neighbour_seq_complete(*position, q);
                    assert(ns@.contains(q));
                    let t = choose|t: int| 0 <= t < ns@.len() && ns@[t] == q;
                    assert(!pre.flag_cov_at(qr, qc));
                    assert(sds.contains(q));
                    let tt = choose|tt: int| 0 <= tt < sds.len() && sds[tt] == q;
                    assert(pre.opens(sds[tt].row as int, sds[tt].column as int, r0, c0));
                    assert(reach(pre, sds, r0, c0));
                }
            }
        }
    }

    /// Feed one player action to the engine. The first reveal places the
    /// mines, away from the clicked cell and its neighbours, before the
    /// reveal itself runs; marking and chording never place mines.
    pub fn update(&mut self, message: Message)
        requires
            old(self).inv(),
        ensures
            final(self).inv(),
            (message matches Message::Reveal(pos) ==> (old(self).has_revealed_any ==> reveal_rel(
                *old(self),
                pos,
                *final(self),
            ))),
            (message matches Message::Reveal(pos) ==> (!old(self).has_revealed_any ==> exists|
                mid: GameState,
            |
                {
                    &&& #[trigger] placed_rel(*old(self), pos, mid)
                    &&& reveal_rel(
                        (GameState { has_revealed_any: true, ..mid }),
                        pos,
                        *final(self),
                    )
                    &&& final(self).has_revealed_any
                })),
            (message matches Message::ToggleMark(pos) ==> toggle_rel(
                *old(self),
                pos,
                *final(self),
            )),
            (message matches Message::RevealSurrounding(pos) ==> chord_rel(
                *old(self),
                pos,
                *final(self),
            )),
    {
        match message {
            Message::Reveal(position) => {
                if !self.has_revealed_any {
                    self.initialize_state(position);
                    let ghost mid0: GameState = *self;
                    self.has_revealed_any = true;
                    let ghost mid1: GameState = *self;
                    self.reveal_cell(&position);
                    proof {
                        assert(mid1 == (GameState { has_revealed_any: true, ..mid0 }));
                        assert(placed_rel(*old(self), position, mid0));
                        assert(reveal_rel(mid1, position, *self));
                        lemma_counts_preserved(mid0, mid1);
                        lemma_counts_preserved(mid1, *self);
                    }
                } else {
                    self.reveal_cell(&position);
                    proof {
                        lemma_counts_preserved(*old(self), *self);
                    }
                }
            },
            Message::ToggleMark(position) => {
                self.toggle_mark(&position);
                proof {
                    lemma_counts_preserved(*old(self), *self);
                    let pre = *old(self);
                    if !self.has_revealed_any {
                        assert forall|r: int, c: int| self.in_grid(r, c) implies (
                        #[trigger] self.cell(r, c)).is_revealed == false && self.cell(
                            r,
                            c,
                        ).cell_type == (CellType::NonMine { neighbours: 0usize }) by {
                            assert(pre.cell(r, c).is_revealed == false);
                        }
                    }
                }
            },
            Message::RevealSurrounding(position) => {
                self.reveal_surrounding(&position);
                proof {
                    let pre = *old(self);
                    if chord_fires(pre, position) {
                        lemma_counts_preserved(pre, *self);
                    }
                }
            },
        }
    }
}

} // verus!
