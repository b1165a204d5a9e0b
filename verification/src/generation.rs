//! What one generation does to a buffer of cells.
//!
//! A generation has two passes. The first builds a new buffer: every cell
//! ages, and every cell that is awake takes the state the rule table gives it
//! for its old state and its old neighbours. The second compares the new
//! buffer with the old one and writes the wake flags: a cell that was awake
//! and saw its state or its neighbour count change stays awake and wakes the
//! eight cells around it; every other cell is asleep afterwards.

use vstd::prelude::*;
use crate::cell::{Cell, Rule};
use crate::neighborhood::{
    lemma_neighbors_in_range, lemma_touches_symmetric, neighbor_count, touches,
};
use crate::torus::{col_of, index_of, lemma_index_round_trip, row_of};

verus! {

/// The number of live cells around the cell with flat index `i`.
pub open spec fn neighbors_of(cells: Seq<Cell>, i: int, width: int, height: int) -> int {
    neighbor_count(cells, row_of(i, width), col_of(i, width), width, height)
}

/// The cell with flat index `i` after the first pass.
pub open spec fn evolve_cell<R: Rule>(
    cells: Seq<Cell>,
    i: int,
    width: int,
    height: int,
    rule: R,
) -> Cell {
    let cell = cells[i].aged();
    if cell.should_update {
        cell.with_state(rule.table(cells[i].state, neighbors_of(cells, i, width, height)))
    } else {
        cell
    }
}

/// The cells `lo..hi` after the first pass, computed from the frozen buffer.
pub open spec fn evolved_range<R: Rule>(
    cells: Seq<Cell>,
    width: int,
    height: int,
    rule: R,
    lo: int,
    hi: int,
) -> Seq<Cell> {
    Seq::new((hi - lo) as nat, |j: int| evolve_cell(cells, lo + j, width, height, rule))
}

/// The whole buffer after the first pass.
pub open spec fn evolved<R: Rule>(cells: Seq<Cell>, width: int, height: int, rule: R) -> Seq<
    Cell,
> {
    evolved_range(cells, width, height, rule, 0, cells.len() as int)
}

/// Whether the cell with flat index `i` saw its state or its neighbour count
/// change between the two buffers.
pub open spec fn changed(
    before: Seq<Cell>,
    after: Seq<Cell>,
    i: int,
    width: int,
    height: int,
) -> bool {
    after[i].state != before[i].state || neighbors_of(before, i, width, height) != neighbors_of(
        after,
        i,
        width,
        height,
    )
}

/// Whether the cell with flat index `i` was awake when the generation began
/// and saw a change: such a cell stays awake and wakes the eight around it.
pub open spec fn dirty(
    before: Seq<Cell>,
    after: Seq<Cell>,
    i: int,
    width: int,
    height: int,
) -> bool {
    before[i].should_update && changed(before, after, i, width, height)
}

/// Whether one of the eight cells around `(row, col)` is dirty.
pub open spec fn dirty_around(
    before: Seq<Cell>,
    after: Seq<Cell>,
    row: int,
    col: int,
    width: int,
    height: int,
) -> bool {
    ||| dirty(before, after, index_of(row - 1, col - 1, width, height), width, height)
    ||| dirty(before, after, index_of(row - 1, col, width, height), width, height)
    ||| dirty(before, after, index_of(row - 1, col + 1, width, height), width, height)
    ||| dirty(before, after, index_of(row, col - 1, width, height), width, height)
    ||| dirty(before, after, index_of(row, col + 1, width, height), width, height)
    ||| dirty(before, after, index_of(row + 1, col - 1, width, height), width, height)
    ||| dirty(before, after, index_of(row + 1, col, width, height), width, height)
    ||| dirty(before, after, index_of(row + 1, col + 1, width, height), width, height)
}

/// The wake flag of the cell `x` at the end of the second pass: the cell is
/// awake exactly when it is dirty itself or one of the eight around it is.
pub open spec fn flag_after(
    before: Seq<Cell>,
    after: Seq<Cell>,
    x: int,
    width: int,
    height: int,
) -> bool {
    dirty(before, after, x, width, height) || dirty_around(
        before,
        after,
        row_of(x, width),
        col_of(x, width),
        width,
        height,
    )
}

/// The new buffer with the wake flags of the second pass.
pub open spec fn reconciled(before: Seq<Cell>, after: Seq<Cell>, width: int, height: int) -> Seq<
    Cell,
> {
    Seq::new(after.len(), |x: int| after[x].with_flag(flag_after(before, after, x, width, height)))
}

/// The buffer one generation later.
pub open spec fn next_generation<R: Rule>(
    cells: Seq<Cell>,
    width: int,
    height: int,
    rule: R,
) -> Seq<Cell> {
    reconciled(cells, evolved(cells, width, height, rule), width, height)
}

/// The verdict of the second pass on the cell `i`.
pub open spec fn verdict_of(
    before: Seq<Cell>,
    after: Seq<Cell>,
    i: int,
    width: int,
    height: int,
) -> (usize, bool) {
    (i as usize, changed(before, after, i, width, height))
}

/// The verdicts of the second pass on the cells `lo..hi`, in index order: one
/// for each cell that was awake when the generation began, saying whether it
/// changed.
pub open spec fn verdicts(
    before: Seq<Cell>,
    after: Seq<Cell>,
    width: int,
    height: int,
    lo: int,
    hi: int,
) -> Seq<(usize, bool)>
    decreases hi - lo,
{
    if hi <= lo {
        Seq::empty()
    } else {
        let rest = verdicts(before, after, width, height, lo, hi - 1);
        if before[hi - 1].should_update {
            rest.push(verdict_of(before, after, hi - 1, width, height))
        } else {
            rest
        }
    }
}

/// Whether one of the first `k` verdicts says of the cell `x` that it did
/// not change.
pub open spec fn put_to_sleep(list: Seq<(usize, bool)>, k: int, x: int) -> bool {
    exists|j: int| 0 <= j < k && (#[trigger] list[j]).0 == x && !list[j].1
}

/// Whether one of the first `k` verdicts rouses the cell `x`: it says of `x`
/// itself, or of a cell that has `x` among the eight around it, that it
/// changed.
pub open spec fn roused(list: Seq<(usize, bool)>, k: int, x: int, width: int, height: int) -> bool {
    exists|j: int|
        0 <= j < k && (#[trigger] list[j]).1 && (list[j].0 == x || touches(
            row_of(list[j].0 as int, width),
            col_of(list[j].0 as int, width),
            x,
            width,
            height,
        ))
}

/// The wake flag of the cell `x` once the verdicts have been written: awake
/// if a verdict rouses it; else asleep if a verdict says it did not change;
/// else as it was. The order of the verdicts plays no part.
pub open spec fn flag_written(
    cells: Seq<Cell>,
    list: Seq<(usize, bool)>,
    x: int,
    width: int,
    height: int,
) -> bool {
    roused(list, list.len() as int, x, width, height) || (cells[x].should_update && !put_to_sleep(
        list,
        list.len() as int,
        x,
    ))
}

/// The buffer after the verdicts have been written. Nothing but wake flags
/// is touched, and a wake-up is never undone.
pub open spec fn apply_verdicts(
    cells: Seq<Cell>,
    list: Seq<(usize, bool)>,
    width: int,
    height: int,
) -> Seq<Cell> {
    Seq::new(cells.len(), |x: int| cells[x].with_flag(flag_written(cells, list, x, width, height)))
}

/// Computing a range in two pieces gives the pieces of the range.
pub proof fn lemma_evolved_range_split<R: Rule>(
    cells: Seq<Cell>,
    width: int,
    height: int,
    rule: R,
    lo: int,
    mid: int,
    hi: int,
)
    requires
        lo <= mid <= hi,
    ensures
        evolved_range(cells, width, height, rule, lo, mid) + evolved_range(
            cells,
            width,
            height,
            rule,
            mid,
            hi,
        ) == evolved_range(cells, width, height, rule, lo, hi),
{
    assert(evolved_range(cells, width, height, rule, lo, mid) + evolved_range(
        cells,
        width,
        height,
        rule,
        mid,
        hi,
    ) =~= evolved_range(cells, width, height, rule, lo, hi));
}

/// Collecting verdicts in two pieces gives the verdicts of the whole range.
pub proof fn lemma_verdicts_split(
    before: Seq<Cell>,
    after: Seq<Cell>,
    width: int,
    height: int,
    lo: int,
    mid: int,
    hi: int,
)
    requires
        lo <= mid <= hi,
    ensures
        verdicts(before, after, width, height, lo, mid) + verdicts(
            before,
            after,
            width,
            height,
            mid,
            hi,
        ) == verdicts(before, after, width, height, lo, hi),
    decreases hi - mid,
{
    let left = verdicts(before, after, width, height, lo, mid);
    if mid == hi {
        assert(left + Seq::<(usize, bool)>::empty() =~= left);
    } else {
        lemma_verdicts_split(before, after, width, height, lo, mid, hi - 1);
        let right = verdicts(before, after, width, height, mid, hi - 1);
        if before[hi - 1].should_update {
            let v = verdict_of(before, after, hi - 1, width, height);
            assert(left + right.push(v) =~= (left + right).push(v));
        }
    }
}

/// What the verdicts on a range hold: each names an awake cell of the range
/// and says whether it changed, and every awake cell of the range has its
/// verdict in the list.
pub proof fn lemma_verdicts_members(
    before: Seq<Cell>,
    after: Seq<Cell>,
    width: int,
    height: int,
    lo: int,
    hi: int,
)
    requires
        0 <= lo,
        hi <= usize::MAX,
    ensures
        forall|k: int|
            0 <= k < verdicts(before, after, width, height, lo, hi).len() ==> {
                let v = #[trigger] verdicts(before, after, width, height, lo, hi)[k];
                &&& lo <= v.0 < hi
                &&& before[v.0 as int].should_update
                &&& v.1 == changed(before, after, v.0 as int, width, height)
            },
        forall|i: int|
            lo <= i < hi && before[i].should_update ==> verdicts(
                before,
                after,
                width,
                height,
                lo,
                hi,
            ).contains(#[trigger] verdict_of(before, after, i, width, height)),
    decreases hi - lo,
{
    if lo < hi {
        lemma_verdicts_members(before, after, width, height, lo, hi - 1);
        let rest = verdicts(before, after, width, height, lo, hi - 1);
        let list = verdicts(before, after, width, height, lo, hi);
        assert forall|i: int| lo <= i < hi && before[i].should_update implies list.contains(
            #[trigger] verdict_of(before, after, i, width, height),
        ) by {
            let v = verdict_of(before, after, i, width, height);
            if i < hi - 1 {
                let k = choose|k: int| 0 <= k < rest.len() && rest[k] == v;
                assert(list[k] == v);
            } else {
                assert(list[list.len() - 1] == v);
            }
        }
    }
}

/// Only the verdicts themselves count, not where they stand in the list: two
/// lists that hold the same verdicts leave the same buffer.
pub proof fn lemma_verdict_order_is_invisible(
    cells: Seq<Cell>,
    a: Seq<(usize, bool)>,
    b: Seq<(usize, bool)>,
    width: int,
    height: int,
)
    requires
        forall|v: (usize, bool)| a.contains(v) <==> b.contains(v),
    ensures
        apply_verdicts(cells, a, width, height) == apply_verdicts(cells, b, width, height),
{
    assert forall|x: int| 0 <= x < cells.len() implies flag_written(cells, a, x, width, height)
        == flag_written(cells, b, x, width, height) by {
        lemma_same_verdicts(a, b, x, width, height);
        lemma_same_verdicts(b, a, x, width, height);
    }
    assert(apply_verdicts(cells, a, width, height) =~= apply_verdicts(cells, b, width, height));
}

/// What the verdicts of one list do to a cell, the verdicts of a list that
/// holds them all do too.
proof fn lemma_same_verdicts(
    a: Seq<(usize, bool)>,
    b: Seq<(usize, bool)>,
    x: int,
    width: int,
    height: int,
)
    requires
        forall|v: (usize, bool)| a.contains(v) ==> b.contains(v),
    ensures
        roused(a, a.len() as int, x, width, height) ==> roused(
            b,
            b.len() as int,
            x,
            width,
            height,
        ),
        put_to_sleep(a, a.len() as int, x) ==> put_to_sleep(b, b.len() as int, x),
{
    if roused(a, a.len() as int, x, width, height) {
        let j = choose|j: int|
            0 <= j < a.len() && (#[trigger] a[j]).1 && (a[j].0 == x || touches(
                row_of(a[j].0 as int, width),
                col_of(a[j].0 as int, width),
                x,
                width,
                height,
            ));
        assert(a.contains(a[j]));
        let k = choose|k: int| 0 <= k < b.len() && b[k] == a[j];
        assert(b[k].1);
    }
    if put_to_sleep(a, a.len() as int, x) {
        let j = choose|j: int| 0 <= j < a.len() && (#[trigger] a[j]).0 == x && !a[j].1;
        assert(a.contains(a[j]));
        let k = choose|k: int| 0 <= k < b.len() && b[k] == a[j];
        assert(!b[k].1);
    }
}

/// Writing verdicts keeps the length of the buffer and touches nothing but
/// wake flags.
pub proof fn lemma_apply_verdicts_shape(
    cells: Seq<Cell>,
    list: Seq<(usize, bool)>,
    width: int,
    height: int,
)
    ensures
        apply_verdicts(cells, list, width, height).len() == cells.len(),
        forall|x: int|
            0 <= x < cells.len() ==> {
                let cell = #[trigger] apply_verdicts(cells, list, width, height)[x];
                cell.state == cells[x].state && cell.frames_alive == cells[x].frames_alive
            },
{
}

/// One more verdict puts to sleep the cell it names, if it says that the
/// cell did not change, and no other.
pub proof fn lemma_put_to_sleep_step(list: Seq<(usize, bool)>, k: int, x: int)
    requires
        0 <= k < list.len(),
    ensures
        put_to_sleep(list, k + 1, x) == (put_to_sleep(list, k, x) || (list[k].0 == x
            && !list[k].1)),
{
    if put_to_sleep(list, k + 1, x) {
        let j = choose|j: int| 0 <= j < k + 1 && (#[trigger] list[j]).0 == x && !list[j].1;
        if j < k {
            assert(put_to_sleep(list, k, x));
        }
    }
    if put_to_sleep(list, k, x) {
        let j = choose|j: int| 0 <= j < k && (#[trigger] list[j]).0 == x && !list[j].1;
        assert(0 <= j < k + 1 && list[j].0 == x);
    }
    if list[k].0 == x && !list[k].1 {
        assert(0 <= k < k + 1 && list[k].0 == x);
    }
}

/// One more verdict rouses the cell it names and the eight around it, if it
/// says that the cell changed, and no other.
pub proof fn lemma_roused_step(list: Seq<(usize, bool)>, k: int, x: int, width: int, height: int)
    requires
        0 <= k < list.len(),
    ensures
        roused(list, k + 1, x, width, height) == (roused(list, k, x, width, height) || (list[k].1
            && (list[k].0 == x || touches(
            row_of(list[k].0 as int, width),
            col_of(list[k].0 as int, width),
            x,
            width,
            height,
        )))),
{
    if roused(list, k + 1, x, width, height) {
        let j = choose|j: int|
            0 <= j < k + 1 && (#[trigger] list[j]).1 && (list[j].0 == x || touches(
                row_of(list[j].0 as int, width),
                col_of(list[j].0 as int, width),
                x,
                width,
                height,
            ));
        if j < k {
            assert(roused(list, k, x, width, height));
        }
    }
    if roused(list, k, x, width, height) {
        let j = choose|j: int|
            0 <= j < k && (#[trigger] list[j]).1 && (list[j].0 == x || touches(
                row_of(list[j].0 as int, width),
                col_of(list[j].0 as int, width),
                x,
                width,
                height,
            ));
        assert(0 <= j < k + 1 && list[j].1);
    }
    if list[k].1 {
        assert(0 <= k < k + 1 && list[k].1);
    }
}

/// The first pass leaves the wake flag of every cell as it found it.
pub proof fn lemma_evolved_keeps_flags<R: Rule>(
    cells: Seq<Cell>,
    width: int,
    height: int,
    rule: R,
)
    ensures
        evolved(cells, width, height, rule).len() == cells.len(),
        forall|i: int|
            0 <= i < cells.len() ==> (#[trigger] evolved(
                cells,
                width,
                height,
                rule,
            )[i]).should_update == cells[i].should_update,
{
}

/// Written in any order, the verdicts of the second pass on all cells leave
/// the wake flags that [`flag_after`] states.
pub proof fn lemma_verdicts_reconcile(
    before: Seq<Cell>,
    after: Seq<Cell>,
    width: int,
    height: int,
)
    requires
        0 <= width,
        0 <= height,
        before.len() == width * height,
        after.len() == before.len(),
        after.len() <= usize::MAX,
        forall|i: int|
            0 <= i < before.len() ==> (#[trigger] after[i]).should_update
                == before[i].should_update,
    ensures
        apply_verdicts(
            after,
            verdicts(before, after, width, height, 0, after.len() as int),
            width,
            height,
        ) == reconciled(before, after, width, height),
{
    let list = verdicts(before, after, width, height, 0, after.len() as int);
    lemma_verdicts_members(before, after, width, height, 0, after.len() as int);
    assert forall|x: int| 0 <= x < after.len() implies flag_written(after, list, x, width, height)
        == flag_after(before, after, x, width, height) by {
        assert(0 < width && 0 < height) by (nonlinear_arith)
            requires
                0 <= width,
                0 <= height,
                0 <= x < width * height,
        ;
        let (row, col) = (row_of(x, width), col_of(x, width));
        lemma_index_round_trip(x, width, height);
        lemma_neighbors_in_range(row, col, width, height);
        if roused(list, list.len() as int, x, width, height) {
            let j = choose|j: int|
                0 <= j < list.len() && (#[trigger] list[j]).1 && (list[j].0 == x || touches(
                    row_of(list[j].0 as int, width),
                    col_of(list[j].0 as int, width),
                    x,
                    width,
                    height,
                ));
            let i = list[j].0 as int;
            assert(dirty(before, after, i, width, height));
            if i != x {
                lemma_index_round_trip(i, width, height);
                lemma_touches_symmetric(
                    row_of(i, width),
                    col_of(i, width),
                    row,
                    col,
                    width,
                    height,
                );
            }
        }
        if flag_after(before, after, x, width, height) {
            let i = if dirty(before, after, x, width, height) {
                x
            } else {
                dirty_neighbor(before, after, row, col, width, height)
            };
            assert(0 <= i < before.len() && dirty(before, after, i, width, height));
            let v = verdict_of(before, after, i, width, height);
            assert(list.contains(v));
            let k = choose|k: int| 0 <= k < list.len() && list[k] == v;
            assert(list[k].1 && list[k].0 as int == i);
            if i != x {
                lemma_index_round_trip(i, width, height);
                lemma_touches_symmetric(
                    row,
                    col,
                    row_of(i, width),
                    col_of(i, width),
                    width,
                    height,
                );
            }
            assert(roused(list, list.len() as int, x, width, height));
        } else if after[x].should_update {
            let v = verdict_of(before, after, x, width, height);
            assert(list.contains(v));
            let k = choose|k: int| 0 <= k < list.len() && list[k] == v;
            assert(list[k].0 == x && !list[k].1);
        }
    }
    assert(apply_verdicts(after, list, width, height) =~= reconciled(
        before,
        after,
        width,
        height,
    ));
}

/// A dirty cell among the eight around `(row, col)`, where there is one.
pub open spec fn dirty_neighbor(
    before: Seq<Cell>,
    after: Seq<Cell>,
    row: int,
    col: int,
    width: int,
    height: int,
) -> int {
    if dirty(before, after, index_of(row - 1, col - 1, width, height), width, height) {
        index_of(row - 1, col - 1, width, height)
    } else if dirty(before, after, index_of(row - 1, col, width, height), width, height) {
        index_of(row - 1, col, width, height)
    } else if dirty(before, after, index_of(row - 1, col + 1, width, height), width, height) {
        index_of(row - 1, col + 1, width, height)
    } else if dirty(before, after, index_of(row, col - 1, width, height), width, height) {
        index_of(row, col - 1, width, height)
    } else if dirty(before, after, index_of(row, col + 1, width, height), width, height) {
        index_of(row, col + 1, width, height)
    } else if dirty(before, after, index_of(row + 1, col - 1, width, height), width, height) {
        index_of(row + 1, col - 1, width, height)
    } else if dirty(before, after, index_of(row + 1, col, width, height), width, height) {
        index_of(row + 1, col, width, height)
    } else {
        index_of(row + 1, col + 1, width, height)
    }
}

} // verus!
