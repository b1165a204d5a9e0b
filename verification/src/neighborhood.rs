//! The eight cells around a position, each wrapped on its own.

use vstd::prelude::*;
use crate::cell::Cell;
use crate::torus::{index_of, lemma_index_of, lemma_wrap_shift, wrap};

verus! {

/// Whether the cell at the wrapped position is alive.
pub open spec fn state_at(cells: Seq<Cell>, row: int, col: int, width: int, height: int) -> bool {
    cells[index_of(row, col, width, height)].state
}

/// One for a live cell at the wrapped position, zero for a dead one.
pub open spec fn live(cells: Seq<Cell>, row: int, col: int, width: int, height: int) -> int {
    if state_at(cells, row, col, width, height) {
        1
    } else {
        0
    }
}

/// The number of live cells among the eight around `(row, col)`.
pub open spec fn neighbor_count(
    cells: Seq<Cell>,
    row: int,
    col: int,
    width: int,
    height: int,
) -> int {
    live(cells, row - 1, col - 1, width, height) + live(cells, row - 1, col, width, height) + live(
        cells,
        row - 1,
        col + 1,
        width,
        height,
    ) + live(cells, row, col - 1, width, height) + live(cells, row, col + 1, width, height) + live(
        cells,
        row + 1,
        col - 1,
        width,
        height,
    ) + live(cells, row + 1, col, width, height) + live(cells, row + 1, col + 1, width, height)
}

/// Whether the cell with flat index `x` is one of the eight around `(row, col)`.
pub open spec fn touches(row: int, col: int, x: int, width: int, height: int) -> bool {
    ||| index_of(row - 1, col - 1, width, height) == x
    ||| index_of(row - 1, col, width, height) == x
    ||| index_of(row - 1, col + 1, width, height) == x
    ||| index_of(row, col - 1, width, height) == x
    ||| index_of(row, col + 1, width, height) == x
    ||| index_of(row + 1, col - 1, width, height) == x
    ||| index_of(row + 1, col, width, height) == x
    ||| index_of(row + 1, col + 1, width, height) == x
}

/// The buffer after the eight cells around `(row, col)` have been woken.
pub open spec fn woken(cells: Seq<Cell>, row: int, col: int, width: int, height: int) -> Seq<
    Cell,
> {
    Seq::new(
        cells.len(),
        |x: int|
            if touches(row, col, x, width, height) {
                cells[x].with_flag(true)
            } else {
                cells[x]
            },
    )
}

/// Stepping off a position gives the same cell whether or not the position
/// was wrapped first.
pub proof fn lemma_index_shift(row: int, col: int, dr: int, dc: int, width: int, height: int)
    requires
        0 < width,
        0 < height,
    ensures
        index_of(wrap(row, height) + dr, wrap(col, width) + dc, width, height) == index_of(
            row + dr,
            col + dc,
            width,
            height,
        ),
{
    lemma_wrap_shift(row, dr, height);
    lemma_wrap_shift(col, dc, width);
}

/// The eight cells around a position are the eight around the position it
/// wraps to.
pub proof fn lemma_neighbors_wrapped(row: int, col: int, width: int, height: int)
    requires
        0 < width,
        0 < height,
    ensures
        ({
            let (r, c) = (wrap(row, height), wrap(col, width));
            &&& index_of(r - 1, c - 1, width, height) == index_of(row - 1, col - 1, width, height)
            &&& index_of(r - 1, c, width, height) == index_of(row - 1, col, width, height)
            &&& index_of(r - 1, c + 1, width, height) == index_of(row - 1, col + 1, width, height)
            &&& index_of(r, c - 1, width, height) == index_of(row, col - 1, width, height)
            &&& index_of(r, c + 1, width, height) == index_of(row, col + 1, width, height)
            &&& index_of(r + 1, c - 1, width, height) == index_of(row + 1, col - 1, width, height)
            &&& index_of(r + 1, c, width, height) == index_of(row + 1, col, width, height)
            &&& index_of(r + 1, c + 1, width, height) == index_of(row + 1, col + 1, width, height)
        }),
{
    lemma_index_shift(row, col, -1, -1, width, height);
    lemma_index_shift(row, col, -1, 0, width, height);
    lemma_index_shift(row, col, -1, 1, width, height);
    lemma_index_shift(row, col, 0, -1, width, height);
    lemma_index_shift(row, col, 0, 1, width, height);
    lemma_index_shift(row, col, 1, -1, width, height);
    lemma_index_shift(row, col, 1, 0, width, height);
    lemma_index_shift(row, col, 1, 1, width, height);
}

/// The eight cells around a position are cells of the board.
pub proof fn lemma_neighbors_in_range(row: int, col: int, width: int, height: int)
    requires
        0 < width,
        0 < height,
    ensures
        0 <= index_of(row - 1, col - 1, width, height) < width * height,
        0 <= index_of(row - 1, col, width, height) < width * height,
        0 <= index_of(row - 1, col + 1, width, height) < width * height,
        0 <= index_of(row, col - 1, width, height) < width * height,
        0 <= index_of(row, col + 1, width, height) < width * height,
        0 <= index_of(row + 1, col - 1, width, height) < width * height,
        0 <= index_of(row + 1, col, width, height) < width * height,
        0 <= index_of(row + 1, col + 1, width, height) < width * height,
{
    lemma_index_of(row - 1, col - 1, width, height);
    lemma_index_of(row - 1, col, width, height);
    lemma_index_of(row - 1, col + 1, width, height);
    lemma_index_of(row, col - 1, width, height);
    lemma_index_of(row, col + 1, width, height);
    lemma_index_of(row + 1, col - 1, width, height);
    lemma_index_of(row + 1, col, width, height);
    lemma_index_of(row + 1, col + 1, width, height);
}

/// A neighbour count is between zero and eight.
pub proof fn lemma_neighbor_count_range(
    cells: Seq<Cell>,
    row: int,
    col: int,
    width: int,
    height: int,
)
    ensures
        0 <= neighbor_count(cells, row, col, width, height) <= 8,
{
}

/// Stepping by `(dr, dc)` and then by `(-dr, -dc)` comes back to the start,
/// whatever position stands for the cell in between.
pub proof fn lemma_step_back(
    row: int,
    col: int,
    dr: int,
    dc: int,
    x_row: int,
    x_col: int,
    width: int,
    height: int,
)
    requires
        0 < width,
        0 < height,
        index_of(row + dr, col + dc, width, height) == index_of(x_row, x_col, width, height),
    ensures
        index_of(x_row - dr, x_col - dc, width, height) == index_of(row, col, width, height),
{
    lemma_index_of(x_row, x_col, width, height);
    lemma_index_of(row + dr, col + dc, width, height);
    assert(wrap(row + dr, height) == wrap(x_row, height));
    assert(wrap(col + dc, width) == wrap(x_col, width));
    lemma_wrap_shift(row + dr, -dr, height);
    lemma_wrap_shift(x_row, -dr, height);
    lemma_wrap_shift(col + dc, -dc, width);
    lemma_wrap_shift(x_col, -dc, width);
    assert(row + dr + (-dr) == row);
    assert(col + dc + (-dc) == col);
    assert(x_row + (-dr) == x_row - dr);
    assert(x_col + (-dc) == x_col - dc);
}

/// Being a neighbour is symmetric: if `x` is around `(row, col)`, then the
/// cell at `(row, col)` is around `x`.
pub proof fn lemma_touches_symmetric(
    row: int,
    col: int,
    x_row: int,
    x_col: int,
    width: int,
    height: int,
)
    requires
        0 < width,
        0 < height,
        touches(row, col, index_of(x_row, x_col, width, height), width, height),
    ensures
        touches(x_row, x_col, index_of(row, col, width, height), width, height),
{
    let x = index_of(x_row, x_col, width, height);
    if index_of(row - 1, col - 1, width, height) == x {
        lemma_step_back(row, col, -1, -1, x_row, x_col, width, height);
    } else if index_of(row - 1, col, width, height) == x {
        lemma_step_back(row, col, -1, 0, x_row, x_col, width, height);
    } else if index_of(row - 1, col + 1, width, height) == x {
        lemma_step_back(row, col, -1, 1, x_row, x_col, width, height);
    } else if index_of(row, col - 1, width, height) == x {
        lemma_step_back(row, col, 0, -1, x_row, x_col, width, height);
    } else if index_of(row, col + 1, width, height) == x {
        lemma_step_back(row, col, 0, 1, x_row, x_col, width, height);
    } else if index_of(row + 1, col - 1, width, height) == x {
        lemma_step_back(row, col, 1, -1, x_row, x_col, width, height);
    } else if index_of(row + 1, col, width, height) == x {
        lemma_step_back(row, col, 1, 0, x_row, x_col, width, height);
    } else {
        lemma_step_back(row, col, 1, 1, x_row, x_col, width, height);
    }
}

} // verus!
