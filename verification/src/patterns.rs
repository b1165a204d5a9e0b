//! Patterns on the torus: still lifes, the block, the blinker, and moving a
//! pattern about.

use vstd::prelude::*;
use crate::cell::{conway_table, Cell, Conway, Rule};
use crate::generation::{changed, evolve_cell, evolved, flag_after, neighbors_of};
use crate::grid::{lemma_fits, GridView};
use crate::laws::{
    at_rest, flags_sound, lemma_after_wf, lemma_neighbors_by_state, lemma_step_keeps_flags_sound,
    lemma_step_states, recompute_cell, recomputed, recomputed_after,
};
use crate::neighborhood::{lemma_index_shift, lemma_neighbors_in_range, state_at};
use crate::torus::{
    col_of, index_of, lemma_index_of, lemma_wrap_edges, lemma_wrap_range, lemma_wrap_shift,
    lemma_wrap_small, row_of, wrap,
};

verus! {

/// A still life stays: if the rule leaves every cell of a board as it is,
/// a generation changes no state and puts every cell to sleep.
pub proof fn lemma_still_life<R: Rule>(view: GridView, rule: R)
    requires
        view.wf(),
        forall|i: int|
            0 <= i < view.cells.len() ==> #[trigger] at_rest(
                view.cells,
                i,
                view.width,
                view.height,
                rule,
            ),
    ensures
        forall|i: int|
            0 <= i < view.cells.len() ==> (#[trigger] view.next(rule).cells[i]).state
                == view.cells[i].state && !view.next(rule).cells[i].should_update,
        forall|i: int|
            0 <= i < view.cells.len() ==> #[trigger] at_rest(
                view.next(rule).cells,
                i,
                view.width,
                view.height,
                rule,
            ),
{
    let (w, h) = (view.width, view.height);
    let before = view.cells;
    let after = evolved(before, w, h, rule);
    let last = view.next(rule).cells;
    lemma_fits(view);
    assert forall|i: int| 0 <= i < before.len() implies (#[trigger] after[i]).state
        == before[i].state by {
        assert(after[i] == evolve_cell(before, i, w, h, rule));
        assert(at_rest(before, i, w, h, rule));
    }
    assert forall|i: int| 0 <= i < before.len() implies !changed(before, after, i, w, h) by {
        lemma_neighbors_by_state(after, before, row_of(i, w), col_of(i, w), w, h);
    }
    assert forall|i: int| 0 <= i < before.len() implies (#[trigger] last[i]).state
        == before[i].state && !last[i].should_update by {
        assert(!changed(before, after, i, w, h));
        lemma_neighbors_in_range(row_of(i, w), col_of(i, w), w, h);
        assert(!flag_after(before, after, i, w, h));
    }
    assert forall|i: int| 0 <= i < before.len() implies #[trigger] at_rest(last, i, w, h, rule) by {
        assert(last[i].state == before[i].state);
        assert(at_rest(before, i, w, h, rule));
        lemma_neighbors_by_state(last, before, row_of(i, w), col_of(i, w), w, h);
    }
}

/// A still life stays for good: after any number of generations every cell
/// has the state it started with, and from the first generation on every
/// cell is asleep.
pub proof fn lemma_still_life_forever<R: Rule>(view: GridView, rule: R, n: nat)
    requires
        view.wf(),
        forall|i: int|
            0 <= i < view.cells.len() ==> #[trigger] at_rest(
                view.cells,
                i,
                view.width,
                view.height,
                rule,
            ),
    ensures
        forall|i: int|
            0 <= i < view.cells.len() ==> (#[trigger] view.after(rule, n).cells[i]).state
                == view.cells[i].state,
        forall|i: int|
            0 <= i < view.cells.len() && n > 0 ==> !(#[trigger] view.after(
                rule,
                n,
            ).cells[i]).should_update,
        forall|i: int|
            0 <= i < view.cells.len() ==> #[trigger] at_rest(
                view.after(rule, n).cells,
                i,
                view.width,
                view.height,
                rule,
            ),
    decreases n,
{
    if n > 0 {
        let m = (n - 1) as nat;
        lemma_still_life_forever(view, rule, m);
        lemma_after_wf(view, rule, m);
        lemma_still_life(view.after(rule, m), rule);
    }
}

/// The buffer with every cell moved by `dr` rows and `dc` columns, around the
/// edges where it has to.
pub open spec fn shifted(cells: Seq<Cell>, dr: int, dc: int, width: int, height: int) -> Seq<Cell> {
    Seq::new(
        cells.len(),
        |i: int|
            cells[index_of(row_of(i, width) - dr, col_of(i, width) - dc, width, height)],
    )
}

/// The cell at offset `(a, b)` of a cell on the moved board is the cell at
/// the same offset of the cell it came from.
proof fn lemma_shifted_state(
    cells: Seq<Cell>,
    dr: int,
    dc: int,
    width: int,
    height: int,
    i: int,
    a: int,
    b: int,
)
    requires
        0 < width,
        0 < height,
        cells.len() == width * height,
        0 <= i < cells.len(),
    ensures
        ({
            let j = index_of(row_of(i, width) - dr, col_of(i, width) - dc, width, height);
            state_at(
                shifted(cells, dr, dc, width, height),
                row_of(i, width) + a,
                col_of(i, width) + b,
                width,
                height,
            ) == state_at(cells, row_of(j, width) + a, col_of(j, width) + b, width, height)
        }),
{
    let (r, c) = (row_of(i, width), col_of(i, width));
    let j = index_of(r - dr, c - dc, width, height);
    let k = index_of(r + a, c + b, width, height);
    lemma_index_of(r + a, c + b, width, height);
    lemma_index_of(r - dr, c - dc, width, height);
    lemma_index_shift(r + a, c + b, -dr, -dc, width, height);
    lemma_index_shift(r - dr, c - dc, a, b, width, height);
    assert(shifted(cells, dr, dc, width, height)[k] == cells[index_of(
        row_of(k, width) - dr,
        col_of(k, width) - dc,
        width,
        height,
    )]);
    assert(row_of(k, width) - dr == wrap(r + a, height) + (-dr));
    assert(col_of(k, width) - dc == wrap(c + b, width) + (-dc));
    assert(r + a + (-dr) == r - dr + a);
    assert(c + b + (-dc) == c - dc + b);
}

/// The torus has no edges: moving a board and then recomputing every cell
/// gives the same buffer as recomputing every cell and then moving the board,
/// however far the move wraps around.
pub proof fn lemma_recompute_commutes_with_shift<R: Rule>(
    cells: Seq<Cell>,
    dr: int,
    dc: int,
    width: int,
    height: int,
    rule: R,
)
    requires
        0 < width,
        0 < height,
        cells.len() == width * height,
    ensures
        recomputed(shifted(cells, dr, dc, width, height), width, height, rule) == shifted(
            recomputed(cells, width, height, rule),
            dr,
            dc,
            width,
            height,
        ),
{
    let moved = shifted(cells, dr, dc, width, height);
    let left = recomputed(moved, width, height, rule);
    let right = shifted(recomputed(cells, width, height, rule), dr, dc, width, height);
    assert forall|i: int| 0 <= i < cells.len() implies left[i] == right[i] by {
        let (r, c) = (row_of(i, width), col_of(i, width));
        let j = index_of(r - dr, c - dc, width, height);
        lemma_index_of(r - dr, c - dc, width, height);
        lemma_shifted_state(cells, dr, dc, width, height, i, -1, -1);
        lemma_shifted_state(cells, dr, dc, width, height, i, -1, 0);
        lemma_shifted_state(cells, dr, dc, width, height, i, -1, 1);
        lemma_shifted_state(cells, dr, dc, width, height, i, 0, -1);
        lemma_shifted_state(cells, dr, dc, width, height, i, 0, 1);
        lemma_shifted_state(cells, dr, dc, width, height, i, 1, -1);
        lemma_shifted_state(cells, dr, dc, width, height, i, 1, 0);
        lemma_shifted_state(cells, dr, dc, width, height, i, 1, 1);
        assert(neighbors_of(moved, i, width, height) == neighbors_of(cells, j, width, height));
        assert(moved[i] == cells[j]);
        assert(right[i] == recompute_cell(cells, j, width, height, rule));
    }
    assert(left =~= right);
}

/// A pattern runs the same wherever it stands: moving a board and then
/// recomputing it for `n` generations gives the same buffer as recomputing it
/// for `n` generations and then moving it.
pub proof fn lemma_run_commutes_with_shift<R: Rule>(
    cells: Seq<Cell>,
    dr: int,
    dc: int,
    width: int,
    height: int,
    rule: R,
    n: nat,
)
    requires
        0 < width,
        0 < height,
        cells.len() == width * height,
    ensures
        recomputed_after(cells, width, height, rule, n).len() == cells.len(),
        recomputed_after(shifted(cells, dr, dc, width, height), width, height, rule, n)
            == shifted(recomputed_after(cells, width, height, rule, n), dr, dc, width, height),
    decreases n,
{
    if n > 0 {
        let m = (n - 1) as nat;
        lemma_run_commutes_with_shift(cells, dr, dc, width, height, rule, m);
        lemma_recompute_commutes_with_shift(
            recomputed_after(cells, width, height, rule, m),
            dr,
            dc,
            width,
            height,
            rule,
        );
    }
}

/// Whether `x` is one of the two coordinates that start at `origin` on a
/// ring of `n`.
pub open spec fn in_pair(x: int, origin: int, n: int) -> bool {
    wrap(x - origin, n) < 2
}

/// A board that is empty but for a two by two block whose top left cell is
/// at `(row, col)`.
pub open spec fn is_block(view: GridView, row: int, col: int) -> bool {
    forall|i: int|
        0 <= i < view.cells.len() ==> (#[trigger] view.cells[i]).state == (in_pair(
            row_of(i, view.width),
            row,
            view.height,
        ) && in_pair(col_of(i, view.width), col, view.width))
}

/// On a ring of at least four, a coordinate of the pair has exactly one
/// neighbour in the pair, and a coordinate outside it has at most one.
proof fn lemma_pair_on_ring(x: int, origin: int, n: int)
    requires
        4 <= n,
    ensures
        in_pair(x, origin, n) ==> in_pair(x - 1, origin, n) != in_pair(x + 1, origin, n),
        !in_pair(x, origin, n) ==> !(in_pair(x - 1, origin, n) && in_pair(x + 1, origin, n)),
{
    let u = wrap(x - origin, n);
    lemma_wrap_range(x - origin, n);
    lemma_wrap_shift(x - origin, -1, n);
    lemma_wrap_shift(x - origin, 1, n);
    assert(x - origin + (-1) == x - 1 - origin);
    assert(x - origin + 1 == x + 1 - origin);
    lemma_wrap_edges(n);
    if u >= 1 {
        lemma_wrap_small(u - 1, n);
    }
    if u + 1 < n {
        lemma_wrap_small(u + 1, n);
    }
}

/// On a block board the state at any position, wrapped or not, is whether
/// the position falls on the block.
proof fn lemma_block_state(view: GridView, row: int, col: int)
    requires
        view.wf(),
        0 < view.width,
        0 < view.height,
        is_block(view, row, col),
    ensures
        forall|r: int, c: int|
            #[trigger] state_at(view.cells, r, c, view.width, view.height) == (in_pair(
                r,
                row,
                view.height,
            ) && in_pair(c, col, view.width)),
{
    let (w, h) = (view.width, view.height);
    assert forall|r: int, c: int| #[trigger] state_at(view.cells, r, c, w, h) == (in_pair(
        r,
        row,
        h,
    ) && in_pair(c, col, w)) by {
        lemma_index_of(r, c, w, h);
        lemma_wrap_shift(r, -row, h);
        lemma_wrap_shift(c, -col, w);
        assert(wrap(r, h) + (-row) == wrap(r, h) - row);
        assert(wrap(c, w) + (-col) == wrap(c, w) - col);
        assert(r + (-row) == r - row);
        assert(c + (-col) == c - col);
        let i = index_of(r, c, w, h);
        assert(view.cells[i].state == (in_pair(row_of(i, w), row, h) && in_pair(
            col_of(i, w),
            col,
            w,
        )));
    }
}

/// Classic Life leaves every cell of a block board as it is, provided the
/// board is at least four cells wide and high.
pub proof fn lemma_block_at_rest(view: GridView, row: int, col: int)
    requires
        view.wf(),
        4 <= view.width,
        4 <= view.height,
        is_block(view, row, col),
    ensures
        forall|i: int|
            0 <= i < view.cells.len() ==> #[trigger] at_rest(
                view.cells,
                i,
                view.width,
                view.height,
                Conway,
            ),
{
    let (w, h) = (view.width, view.height);
    lemma_block_state(view, row, col);
    assert forall|i: int| 0 <= i < view.cells.len() implies #[trigger] at_rest(
        view.cells,
        i,
        w,
        h,
        Conway,
    ) by {
        let (r, c) = (row_of(i, w), col_of(i, w));
        lemma_pair_on_ring(r, row, h);
        lemma_pair_on_ring(c, col, w);
        let count = neighbors_of(view.cells, i, w, h);
        if view.cells[i].state {
            assert(count == 3);
        } else {
            assert(count != 3);
        }
    }
}

/// The block is a still life: on a board at least four cells wide and high
/// that is empty but for a two by two block, classic Life changes no state in
/// any number of generations, and from the first generation on every cell is
/// asleep.
pub proof fn lemma_block_is_still(view: GridView, row: int, col: int, n: nat)
    requires
        view.wf(),
        4 <= view.width,
        4 <= view.height,
        is_block(view, row, col),
    ensures
        is_block(view.after(Conway, n), row, col),
        forall|i: int|
            0 <= i < view.cells.len() && n > 0 ==> !(#[trigger] view.after(
                Conway,
                n,
            ).cells[i]).should_update,
{
    lemma_block_at_rest(view, row, col);
    lemma_still_life_forever(view, Conway, n);
    lemma_after_wf(view, Conway, n);
    assert forall|i: int| 0 <= i < view.after(Conway, n).cells.len() implies (
    #[trigger] view.after(Conway, n).cells[i]).state == (in_pair(
        row_of(i, view.after(Conway, n).width),
        row,
        view.after(Conway, n).height,
    ) && in_pair(col_of(i, view.after(Conway, n).width), col, view.after(Conway, n).width)) by {
        assert(view.cells[i].state == (in_pair(row_of(i, view.width), row, view.height)
            && in_pair(col_of(i, view.width), col, view.width)));
    }
}

/// Whether `x` is the coordinate `line` on a ring of `n`.
pub open spec fn on_line(x: int, line: int, n: int) -> bool {
    wrap(x - line, n) == 0
}

/// Whether `x` is one of the three coordinates around `center` on a ring of
/// `n`.
pub open spec fn in_triple(x: int, center: int, n: int) -> bool {
    wrap(x - center + 1, n) < 3
}

/// A board that is empty but for a line of three cells around `(row, col)`,
/// upright or lying.
pub open spec fn is_blinker(view: GridView, row: int, col: int, upright: bool) -> bool {
    forall|i: int|
        0 <= i < view.cells.len() ==> (#[trigger] view.cells[i]).state == if upright {
            in_triple(row_of(i, view.width), row, view.height) && on_line(
                col_of(i, view.width),
                col,
                view.width,
            )
        } else {
            on_line(row_of(i, view.width), row, view.height) && in_triple(
                col_of(i, view.width),
                col,
                view.width,
            )
        }
}

/// Where a coordinate and its two neighbours stand to a line and to the
/// triple around it, by the distance `u` of the coordinate from the line.
proof fn lemma_line_on_ring(x: int, center: int, n: int)
    requires
        3 <= n,
    ensures
        ({
            let u = wrap(x - center, n);
            &&& 0 <= u < n
            &&& on_line(x, center, n) == (u == 0)
            &&& on_line(x - 1, center, n) == (u == 1)
            &&& on_line(x + 1, center, n) == (u == n - 1)
            &&& in_triple(x, center, n) == (u <= 1 || u == n - 1)
            &&& in_triple(x - 1, center, n) == (u <= 2)
            &&& in_triple(x + 1, center, n) == (u == 0 || u >= n - 2)
        }),
{
    let u = wrap(x - center, n);
    lemma_wrap_range(x - center, n);
    lemma_wrap_edges(n);
    lemma_wrap_shift(x - center, -1, n);
    lemma_wrap_shift(x - center, 1, n);
    lemma_wrap_shift(x - center, 2, n);
    assert(x - center + (-1) == x - 1 - center);
    assert(x - center + 1 == x + 1 - center);
    assert(x - center + 1 == x - center + 1);
    assert(x - center + (-1) + 1 == x - center);
    assert(x - 1 - center + 1 == x - center);
    assert(x - center + 2 == x + 1 - center + 1);
    if u >= 1 {
        lemma_wrap_small(u - 1, n);
    }
    if u + 1 < n {
        lemma_wrap_small(u + 1, n);
    }
    if u + 2 < n {
        lemma_wrap_small(u + 2, n);
    } else if u + 2 == n {
    } else {
        lemma_wrap_shift(1, n, n);
        lemma_wrap_shift(n, 1, n);
        lemma_wrap_small(1, n);
        assert(wrap(n + 1, n) == 1);
    }
}

/// On a blinker board the state at any position, wrapped or not, is whether
/// the position falls on the line of three.
proof fn lemma_blinker_state(view: GridView, row: int, col: int, upright: bool)
    requires
        view.wf(),
        0 < view.width,
        0 < view.height,
        is_blinker(view, row, col, upright),
    ensures
        forall|r: int, c: int|
            #[trigger] state_at(view.cells, r, c, view.width, view.height) == if upright {
                in_triple(r, row, view.height) && on_line(c, col, view.width)
            } else {
                on_line(r, row, view.height) && in_triple(c, col, view.width)
            },
{
    let (w, h) = (view.width, view.height);
    assert forall|r: int, c: int| #[trigger] state_at(view.cells, r, c, w, h) == if upright {
        in_triple(r, row, h) && on_line(c, col, w)
    } else {
        on_line(r, row, h) && in_triple(c, col, w)
    } by {
        lemma_index_of(r, c, w, h);
        lemma_wrap_shift(r, -row, h);
        lemma_wrap_shift(c, -col, w);
        lemma_wrap_shift(r, -row + 1, h);
        lemma_wrap_shift(c, -col + 1, w);
        assert(wrap(r, h) + (-row) == wrap(r, h) - row);
        assert(wrap(c, w) + (-col) == wrap(c, w) - col);
        assert(wrap(r, h) + (-row + 1) == wrap(r, h) - row + 1);
        assert(wrap(c, w) + (-col + 1) == wrap(c, w) - col + 1);
        assert(r + (-row) == r - row);
        assert(c + (-col) == c - col);
        assert(r + (-row + 1) == r - row + 1);
        assert(c + (-col + 1) == c - col + 1);
        let i = index_of(r, c, w, h);
        assert(view.cells[i].state == if upright {
            in_triple(row_of(i, w), row, h) && on_line(col_of(i, w), col, w)
        } else {
            on_line(row_of(i, w), row, h) && in_triple(col_of(i, w), col, w)
        });
    }
}

/// A generation of classic Life turns a blinker: on a board at least five
/// cells wide and high with sound flags, a lying line of three becomes an
/// upright one around the same cell, and an upright one a lying one.
pub proof fn lemma_blinker_turns(view: GridView, row: int, col: int, upright: bool)
    requires
        view.wf(),
        5 <= view.width,
        5 <= view.height,
        flags_sound(view, Conway),
        is_blinker(view, row, col, upright),
    ensures
        is_blinker(view.next(Conway), row, col, !upright),
        flags_sound(view.next(Conway), Conway),
{
    let (w, h) = (view.width, view.height);
    let last = view.next(Conway).cells;
    lemma_step_keeps_flags_sound(view, Conway);
    lemma_step_states(view, Conway);
    lemma_blinker_state(view, row, col, upright);
    assert forall|i: int| 0 <= i < last.len() implies (#[trigger] last[i]).state == if !upright {
        in_triple(row_of(i, w), row, h) && on_line(col_of(i, w), col, w)
    } else {
        on_line(row_of(i, w), row, h) && in_triple(col_of(i, w), col, w)
    } by {
        let (r, c) = (row_of(i, w), col_of(i, w));
        lemma_line_on_ring(r, row, h);
        lemma_line_on_ring(c, col, w);
        let count = neighbors_of(view.cells, i, w, h);
        assert(last[i].state == conway_table(view.cells[i].state, count));
    }
}

/// The blinker oscillates with period two for good: after an even number of
/// generations it stands as it started, after an odd number it is turned.
pub proof fn lemma_blinker_oscillates(view: GridView, row: int, col: int, upright: bool, n: nat)
    requires
        view.wf(),
        5 <= view.width,
        5 <= view.height,
        flags_sound(view, Conway),
        is_blinker(view, row, col, upright),
    ensures
        is_blinker(view.after(Conway, n), row, col, if n % 2 == 0 { upright } else { !upright }),
        flags_sound(view.after(Conway, n), Conway),
    decreases n,
{
    if n > 0 {
        let m = (n - 1) as nat;
        lemma_blinker_oscillates(view, row, col, upright, m);
        lemma_after_wf(view, Conway, m);
        lemma_blinker_turns(
            view.after(Conway, m),
            row,
            col,
            if m % 2 == 0 { upright } else { !upright },
        );
    }
}

} // verus!
