use vstd::prelude::*;

use crate::cell::Cell;

verus! {

/// The number of entries of `cells` that satisfy `p`.
pub open spec fn count_where(cells: Seq<Cell>, p: spec_fn(Cell) -> bool) -> int
    decreases cells.len(),
{
    if cells.len() <= 0 {
        0
    } else {
        count_where(cells.drop_last(), p) + if p(cells.last()) {
            1int
        } else {
            0int
        }
    }
}

/// Holds of mine squares.
pub open spec fn mine_pred() -> spec_fn(Cell) -> bool {
    |c: Cell| c.cell_type is Mine
}

/// Holds of covered squares.
pub open spec fn covered_pred() -> spec_fn(Cell) -> bool {
    |c: Cell| !c.is_revealed
}

pub proof fn lemma_count_where_bounds(cells: Seq<Cell>, p: spec_fn(Cell) -> bool)
    ensures
        0 <= count_where(cells, p) <= cells.len(),
    decreases cells.len(),
{
    if cells.len() > 0 {
        lemma_count_where_bounds(cells.drop_last(), p);
    }
}

pub proof fn lemma_count_where_zero(cells: Seq<Cell>, p: spec_fn(Cell) -> bool)
    requires
        forall|i: int| 0 <= i < cells.len() ==> !p(#[trigger] cells[i]),
    ensures
        count_where(cells, p) == 0,
    decreases cells.len(),
{
    if cells.len() > 0 {
        lemma_count_where_zero(cells.drop_last(), p);
    }
}

/// Replacing one entry changes the count by the difference of the two
/// entries' contributions.
pub proof fn lemma_count_where_update(cells: Seq<Cell>, i: int, v: Cell, p: spec_fn(Cell) -> bool)
    requires
        0 <= i < cells.len(),
    ensures
        count_where(cells.update(i, v), p) == count_where(cells, p) + (if p(v) {
            1int
        } else {
            0int
        }) - (if p(cells[i]) {
            1int
        } else {
            0int
        }),
    decreases cells.len(),
{
    let upd = cells.update(i, v);
    if i == cells.len() - 1 {
        assert(upd.drop_last() =~= cells.drop_last());
        assert(upd.last() == v);
    } else {
        assert(upd.drop_last() =~= cells.drop_last().update(i, v));
        lemma_count_where_update(cells.drop_last(), i, v, p);
        assert(upd.last() == cells.last());
    }
}

} // verus!
