//! What holds of every board and every run.

use vstd::prelude::*;
use vstd::math::min;
use crate::cell::{Cell, Rule};
use crate::generation::{
    dirty, dirty_around, evolve_cell, evolved, flag_after, neighbors_of,
};
use crate::grid::{lemma_fits, GridView};
use crate::neighborhood::{
    lemma_neighbors_in_range, lemma_touches_symmetric, neighbor_count, touches,
};
use crate::partition::{lemma_partitioned_generation, partitioned_generation};
use crate::torus::{col_of, lemma_index_of, lemma_index_round_trip, row_of};
use crate::TIME_TO_RED;

verus! {

/// The board `n` generations later when every generation is run over
/// `partitions` partitions.
pub open spec fn after_partitioned<R: Rule>(
    view: GridView,
    rule: R,
    partitions: int,
    n: nat,
) -> GridView
    decreases n,
{
    if n == 0 {
        view
    } else {
        let earlier = after_partitioned(view, rule, partitions, (n - 1) as nat);
        earlier.with_cells(
            partitioned_generation(earlier.cells, earlier.width, earlier.height, rule, partitions),
        )
    }
}

/// Whether the rule leaves the cell `i` as it is.
pub open spec fn at_rest<R: Rule>(
    cells: Seq<Cell>,
    i: int,
    width: int,
    height: int,
    rule: R,
) -> bool {
    rule.table(cells[i].state, neighbors_of(cells, i, width, height)) == cells[i].state
}

/// Every cell that is asleep is one that the rule would leave as it is, so
/// skipping it loses nothing.
pub open spec fn flags_sound<R: Rule>(view: GridView, rule: R) -> bool {
    forall|i: int|
        0 <= i < view.cells.len() && !view.cells[i].should_update ==> #[trigger] at_rest(
            view.cells,
            i,
            view.width,
            view.height,
            rule,
        )
}

/// Every cell of the buffer is well formed: the dead ones carry no age.
pub open spec fn cells_wf(cells: Seq<Cell>) -> bool {
    forall|i: int| 0 <= i < cells.len() ==> (#[trigger] cells[i]).wf()
}

/// The cell `i` a generation later when every cell is recomputed, awake or not.
pub open spec fn recompute_cell<R: Rule>(
    cells: Seq<Cell>,
    i: int,
    width: int,
    height: int,
    rule: R,
) -> Cell {
    cells[i].aged().with_state(rule.table(cells[i].state, neighbors_of(cells, i, width, height)))
}

/// The buffer a generation later when every cell is recomputed.
pub open spec fn recomputed<R: Rule>(cells: Seq<Cell>, width: int, height: int, rule: R) -> Seq<
    Cell,
> {
    Seq::new(cells.len(), |i: int| recompute_cell(cells, i, width, height, rule))
}

/// The buffer `n` generations later when every cell is recomputed in every
/// generation.
pub open spec fn recomputed_after<R: Rule>(
    cells: Seq<Cell>,
    width: int,
    height: int,
    rule: R,
    n: nat,
) -> Seq<Cell>
    decreases n,
{
    if n == 0 {
        cells
    } else {
        recomputed(
            recomputed_after(cells, width, height, rule, (n - 1) as nat),
            width,
            height,
            rule,
        )
    }
}

/// Two buffers that hold the same states and ages, whatever their wake flags.
pub open spec fn same_pattern(a: Seq<Cell>, b: Seq<Cell>) -> bool {
    &&& a.len() == b.len()
    &&& forall|i: int|
        0 <= i < a.len() ==> (#[trigger] a[i]).state == b[i].state && a[i].frames_alive
            == b[i].frames_alive
}

/// A generation keeps the size of the board and the length of its buffer.
pub proof fn lemma_next_wf<R: Rule>(view: GridView, rule: R)
    requires
        view.wf(),
    ensures
        view.next(rule).wf(),
        view.next(rule).width == view.width,
        view.next(rule).height == view.height,
        view.next(rule).cell_width == view.cell_width,
        view.next(rule).cells.len() == view.cells.len(),
{
}

/// Any number of generations keeps the size of the board.
pub proof fn lemma_after_wf<R: Rule>(view: GridView, rule: R, n: nat)
    requires
        view.wf(),
    ensures
        view.after(rule, n).wf(),
        view.after(rule, n).width == view.width,
        view.after(rule, n).height == view.height,
        view.after(rule, n).cell_width == view.cell_width,
        view.after(rule, n).cells.len() == view.cells.len(),
    decreases n,
{
    if n > 0 {
        lemma_after_wf(view, rule, (n - 1) as nat);
        lemma_next_wf(view.after(rule, (n - 1) as nat), rule);
    }
}

/// Determinism: a run of `n` generations gives the same board whatever the
/// number of partitions each generation is split into, and that board is the
/// one a single scan per generation gives.
pub proof fn lemma_partitioning_is_invisible<R: Rule>(
    view: GridView,
    rule: R,
    partitions: int,
    others: int,
    n: nat,
)
    requires
        view.wf(),
        0 < partitions,
        0 < others,
    ensures
        after_partitioned(view, rule, partitions, n) == view.after(rule, n),
        after_partitioned(view, rule, partitions, n) == after_partitioned(view, rule, others, n),
    decreases n,
{
    if n > 0 {
        let m = (n - 1) as nat;
        lemma_partitioning_is_invisible(view, rule, partitions, others, m);
        lemma_after_wf(view, rule, m);
        let earlier = view.after(rule, m);
        lemma_partitioned_generation(
            earlier.cells,
            earlier.width,
            earlier.height,
            rule,
            partitions,
        );
        lemma_partitioned_generation(earlier.cells, earlier.width, earlier.height, rule, others);
    }
}

/// Buffers with the same states have the same neighbour counts.
pub proof fn lemma_neighbors_by_state(
    a: Seq<Cell>,
    b: Seq<Cell>,
    row: int,
    col: int,
    width: int,
    height: int,
)
    requires
        0 < width,
        0 < height,
        a.len() == b.len() == width * height,
        forall|i: int| 0 <= i < a.len() ==> (#[trigger] a[i]).state == b[i].state,
    ensures
        neighbor_count(a, row, col, width, height) == neighbor_count(b, row, col, width, height),
{
    lemma_neighbors_in_range(row, col, width, height);
}

/// What the wake flags say after a generation: a cell is awake exactly when
/// it was awake before and saw its state or its neighbour count change from
/// the old board to the new one, or when that holds of one of the eight
/// cells around it. In what order the cells were looked at plays no part.
pub proof fn lemma_wake_flags<R: Rule>(view: GridView, rule: R, x: int)
    requires
        view.wf(),
        0 <= x < view.cells.len(),
    ensures
        view.next(rule).cells[x].should_update == (dirty(
            view.cells,
            view.next(rule).cells,
            x,
            view.width,
            view.height,
        ) || dirty_around(
            view.cells,
            view.next(rule).cells,
            row_of(x, view.width),
            col_of(x, view.width),
            view.width,
            view.height,
        )),
{
    let (w, h) = (view.width, view.height);
    let before = view.cells;
    let after = evolved(before, w, h, rule);
    let last = view.next(rule).cells;
    lemma_fits(view);
    assert forall|i: int| 0 <= i < before.len() implies #[trigger] dirty(before, last, i, w, h)
        == dirty(before, after, i, w, h) by {
        assert forall|j: int| 0 <= j < last.len() implies (#[trigger] last[j]).state
            == after[j].state by {}
        lemma_neighbors_by_state(last, after, row_of(i, w), col_of(i, w), w, h);
    }
    lemma_neighbors_in_range(row_of(x, w), col_of(x, w), w, h);
    assert(last[x].should_update == flag_after(before, after, x, w, h));
}

/// A cell that is not dirty has the state it had: either it was asleep and
/// was copied forward, or it was awake and saw no change.
pub proof fn lemma_state_kept_unless_dirty<R: Rule>(view: GridView, rule: R)
    ensures
        forall|i: int|
            0 <= i < view.cells.len() && !#[trigger] dirty(
                view.cells,
                evolved(view.cells, view.width, view.height, rule),
                i,
                view.width,
                view.height,
            ) ==> evolved(view.cells, view.width, view.height, rule)[i].state
                == view.cells[i].state,
{
    let after = evolved(view.cells, view.width, view.height, rule);
    assert forall|i: int|
        0 <= i < view.cells.len() && !#[trigger] dirty(
            view.cells,
            after,
            i,
            view.width,
            view.height,
        ) implies after[i].state == view.cells[i].state by {
        assert(after[i] == evolve_cell(view.cells, i, view.width, view.height, rule));
    }
}

/// Dirty-flag soundness: if every sleeping cell of a board is one the rule
/// would leave alone, the same holds a generation later. A cell goes to
/// sleep, or stays asleep, only where recomputing it would change nothing.
pub proof fn lemma_step_keeps_flags_sound<R: Rule>(view: GridView, rule: R)
    requires
        view.wf(),
        flags_sound(view, rule),
    ensures
        flags_sound(view.next(rule), rule),
{
    let (w, h) = (view.width, view.height);
    let before = view.cells;
    let after = evolved(before, w, h, rule);
    let last = view.next(rule).cells;
    assert forall|x: int| 0 <= x < last.len() && !last[x].should_update implies #[trigger] at_rest(
        last,
        x,
        w,
        h,
        rule,
    ) by {
        lemma_fits(view);
        let (row, col) = (row_of(x, w), col_of(x, w));
        assert(after[x] == evolve_cell(before, x, w, h, rule));
        assert(!flag_after(before, after, x, w, h));
        assert forall|i: int| 0 <= i < last.len() implies (#[trigger] last[i]).state
            == after[i].state by {}
        lemma_neighbors_by_state(last, after, row, col, w, h);
        if !before[x].should_update {
            assert(at_rest(before, x, w, h, rule));
            // none of the eight around `x` is dirty, so none changed its state
            lemma_neighbors_in_range(row, col, w, h);
            lemma_state_kept_unless_dirty(view, rule);
            assert(neighbors_of(before, x, w, h) == neighbors_of(after, x, w, h));
        }
    }
}

/// A board on which every cell is awake has sound flags: nothing is skipped.
pub proof fn lemma_all_awake_is_sound<R: Rule>(view: GridView, rule: R)
    requires
        forall|i: int| 0 <= i < view.cells.len() ==> (#[trigger] view.cells[i]).should_update,
    ensures
        flags_sound(view, rule),
{
}

/// An edit keeps the flags sound: it wakes every cell whose next state the
/// edit can bear on.
pub proof fn lemma_edit_keeps_flags_sound<R: Rule>(
    view: GridView,
    rule: R,
    px: int,
    py: int,
    state: bool,
)
    requires
        view.wf(),
        flags_sound(view, rule),
    ensures
        flags_sound(view.edited(px, py, state), rule),
{
    let (w, h) = (view.width, view.height);
    let before = view.cells;
    let last = view.edited(px, py, state).cells;
    lemma_fits(view);
    if !view.is_empty() {
        let target = view.index_at(px, py);
        let (edit_row, edit_col) = (view.cell_coordinate(py), view.cell_coordinate(px));
        lemma_index_of(edit_row, edit_col, w, h);
        assert forall|x: int|
            0 <= x < last.len() && !last[x].should_update implies #[trigger] at_rest(
            last,
            x,
            w,
            h,
            rule,
        ) by {
            let (row, col) = (row_of(x, w), col_of(x, w));
            assert(x != target);
            assert(!touches(edit_row, edit_col, x, w, h));
            assert(at_rest(before, x, w, h, rule));
            // the edited cell is none of the eight around `x`, or `x` would be awake
            lemma_index_round_trip(x, w, h);
            if touches(row, col, target, w, h) {
                lemma_touches_symmetric(row, col, edit_row, edit_col, w, h);
            }
            lemma_neighbors_in_range(row, col, w, h);
            assert(neighbors_of(before, x, w, h) == neighbors_of(last, x, w, h));
        }
    }
}

/// The optimisation changes running time, not outcomes: on a board with
/// sound flags and well-formed cells, a generation leaves every cell with the
/// state and the age it would have if every cell had been recomputed.
pub proof fn lemma_step_is_recompute<R: Rule>(view: GridView, rule: R)
    requires
        view.wf(),
        flags_sound(view, rule),
        cells_wf(view.cells),
    ensures
        same_pattern(
            view.next(rule).cells,
            recomputed(view.cells, view.width, view.height, rule),
        ),
{
    let (w, h) = (view.width, view.height);
    let last = view.next(rule).cells;
    assert forall|i: int| 0 <= i < last.len() implies (#[trigger] last[i]).state == recomputed(
        view.cells,
        w,
        h,
        rule,
    )[i].state && last[i].frames_alive == recomputed(view.cells, w, h, rule)[i].frames_alive by {
        assert(evolved(view.cells, w, h, rule)[i] == evolve_cell(view.cells, i, w, h, rule));
        assert(view.cells[i].wf());
        if !view.cells[i].should_update {
            assert(at_rest(view.cells, i, w, h, rule));
        }
    }
}

/// On a board with sound flags, a generation gives every cell the state the
/// rule table has for its old state and its old neighbours, awake or not.
pub proof fn lemma_step_states<R: Rule>(view: GridView, rule: R)
    requires
        view.wf(),
        flags_sound(view, rule),
    ensures
        forall|i: int|
            0 <= i < view.cells.len() ==> (#[trigger] view.next(rule).cells[i]).state
                == rule.table(
                view.cells[i].state,
                neighbors_of(view.cells, i, view.width, view.height),
            ),
{
    let (w, h) = (view.width, view.height);
    let last = view.next(rule).cells;
    assert forall|i: int| 0 <= i < view.cells.len() implies (#[trigger] last[i]).state
        == rule.table(view.cells[i].state, neighbors_of(view.cells, i, w, h)) by {
        assert(evolved(view.cells, w, h, rule)[i] == evolve_cell(view.cells, i, w, h, rule));
        if !view.cells[i].should_update {
            assert(at_rest(view.cells, i, w, h, rule));
        }
    }
}

/// A generation keeps every cell well formed: a cell that is dead afterwards
/// carries no age.
pub proof fn lemma_step_keeps_cells_wf<R: Rule>(view: GridView, rule: R)
    requires
        view.wf(),
        cells_wf(view.cells),
    ensures
        cells_wf(view.next(rule).cells),
{
    let (w, h) = (view.width, view.height);
    let last = view.next(rule).cells;
    assert forall|i: int| 0 <= i < last.len() implies (#[trigger] last[i]).wf() by {
        assert(evolved(view.cells, w, h, rule)[i] == evolve_cell(view.cells, i, w, h, rule));
        assert(view.cells[i].wf());
    }
}

/// An edit keeps every cell well formed.
pub proof fn lemma_edit_keeps_cells_wf(view: GridView, px: int, py: int, state: bool)
    requires
        view.wf(),
        cells_wf(view.cells),
    ensures
        cells_wf(view.edited(px, py, state).cells),
{
    let last = view.edited(px, py, state).cells;
    lemma_fits(view);
    if !view.is_empty() {
        lemma_index_of(
            view.cell_coordinate(py),
            view.cell_coordinate(px),
            view.width,
            view.height,
        );
    }
    assert forall|i: int| 0 <= i < last.len() implies (#[trigger] last[i]).wf() by {
        assert(view.cells[i].wf());
    }
}

/// Recomputing every cell looks at states and ages only.
pub proof fn lemma_recomputed_by_pattern<R: Rule>(
    a: Seq<Cell>,
    b: Seq<Cell>,
    width: int,
    height: int,
    rule: R,
)
    requires
        0 <= width,
        0 <= height,
        a.len() == width * height,
        same_pattern(a, b),
    ensures
        same_pattern(recomputed(a, width, height, rule), recomputed(b, width, height, rule)),
{
    let ra = recomputed(a, width, height, rule);
    let rb = recomputed(b, width, height, rule);
    assert forall|i: int| 0 <= i < ra.len() implies (#[trigger] ra[i]).state == rb[i].state
        && ra[i].frames_alive == rb[i].frames_alive by {
        assert(a[i].state == b[i].state);
        if width > 0 && height > 0 {
            lemma_neighbors_by_state(
                a,
                b,
                row_of(i, width),
                col_of(i, width),
                width,
                height,
            );
        } else {
            assert(width * height == 0) by (nonlinear_arith)
                requires
                    width == 0 || height == 0,
            ;
        }
    }
}

/// Run for any number of generations from a board with sound flags and
/// well-formed cells, the engine leaves every cell with the state and the age
/// it would have if every generation had recomputed every cell.
pub proof fn lemma_run_is_recompute<R: Rule>(view: GridView, rule: R, n: nat)
    requires
        view.wf(),
        flags_sound(view, rule),
        cells_wf(view.cells),
    ensures
        flags_sound(view.after(rule, n), rule),
        cells_wf(view.after(rule, n).cells),
        same_pattern(
            view.after(rule, n).cells,
            recomputed_after(view.cells, view.width, view.height, rule, n),
        ),
    decreases n,
{
    if n > 0 {
        let m = (n - 1) as nat;
        lemma_run_is_recompute(view, rule, m);
        lemma_after_wf(view, rule, m);
        let earlier = view.after(rule, m);
        lemma_step_keeps_flags_sound(earlier, rule);
        lemma_step_keeps_cells_wf(earlier, rule);
        lemma_step_is_recompute(earlier, rule);
        lemma_recomputed_by_pattern(
            earlier.cells,
            recomputed_after(view.cells, view.width, view.height, rule, m),
            view.width,
            view.height,
            rule,
        );
    }
}

/// One generation of ageing: a cell that is alive before and after gains a
/// frame unless it has reached the cap, and a cell that dies has no age left
/// in the same generation.
pub proof fn lemma_step_ages<R: Rule>(view: GridView, rule: R, i: int)
    requires
        view.wf(),
        0 <= i < view.cells.len(),
    ensures
        view.cells[i].state && view.next(rule).cells[i].state ==> view.next(
            rule,
        ).cells[i].frames_alive == if view.cells[i].frames_alive < TIME_TO_RED {
            view.cells[i].frames_alive + 1
        } else {
            view.cells[i].frames_alive as int
        },
        view.cells[i].state && !view.next(rule).cells[i].state ==> view.next(
            rule,
        ).cells[i].frames_alive == 0,
{
    assert(evolved(view.cells, view.width, view.height, rule)[i] == evolve_cell(
        view.cells,
        i,
        view.width,
        view.height,
        rule,
    ));
}

/// Ageing is monotone up to the cap: a cell that starts at or below the cap
/// and is alive in every one of `k` generations in a row has the age
/// `min(initial + k, TIME_TO_RED)` after them.
pub proof fn lemma_aging<R: Rule>(view: GridView, rule: R, i: int, k: nat)
    requires
        view.wf(),
        0 <= i < view.cells.len(),
        view.cells[i].frames_alive <= TIME_TO_RED,
        forall|m: nat| m <= k ==> (#[trigger] view.after(rule, m)).cells[i].state,
    ensures
        view.after(rule, k).cells[i].frames_alive == min(
            view.cells[i].frames_alive + k,
            TIME_TO_RED as int,
        ),
    decreases k,
{
    if k > 0 {
        let m = (k - 1) as nat;
        assert forall|j: nat| j <= m implies (#[trigger] view.after(rule, j)).cells[i].state by {
            assert(j <= k);
        }
        lemma_aging(view, rule, i, m);
        lemma_after_wf(view, rule, m);
        assert(view.after(rule, m).cells[i].state);
        assert(view.after(rule, k).cells[i].state);
        lemma_step_ages(view.after(rule, m), rule, i);
    } else {
        assert(view.after(rule, 0) == view);
    }
}

} // verus!
