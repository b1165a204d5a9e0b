//! Splitting the rows of a board into contiguous bands of near-equal height.

use vstd::prelude::*;
use vstd::arithmetic::div_mod::{lemma_fundamental_div_mod, lemma_mod_bound, lemma_div_pos_is_pos};
use vstd::arithmetic::mul::{lemma_mul_inequality, lemma_mul_is_commutative, lemma_mul_nonnegative};
use crate::cell::{Cell, Rule};
use crate::generation::{
    apply_verdicts, evolved, evolved_range, lemma_evolved_keeps_flags,
    lemma_evolved_range_split, lemma_verdicts_reconcile, lemma_verdicts_split, next_generation,
    verdicts,
};

verus! {

/// The first row of partition `k` when `height` rows are split into
/// `partitions` bands.
pub open spec fn partition_start(height: int, partitions: int, k: int) -> int {
    k * (height / partitions)
}

/// One past the last row of partition `k`. The last partition takes the rows
/// that the division leaves over.
pub open spec fn partition_end(height: int, partitions: int, k: int) -> int {
    if k == partitions - 1 {
        height
    } else {
        (k + 1) * (height / partitions)
    }
}

/// The partitions are in order, lie inside the board, start at the first row,
/// follow one another without a gap, and end at the last row.
pub proof fn lemma_partitions_tile(height: int, partitions: int, k: int)
    requires
        0 <= height,
        0 < partitions,
        0 <= k < partitions,
    ensures
        0 <= partition_start(height, partitions, k) <= partition_end(height, partitions, k)
            <= height,
        partition_start(height, partitions, 0) == 0,
        partition_end(height, partitions, partitions - 1) == height,
        k + 1 < partitions ==> partition_end(height, partitions, k) == partition_start(
            height,
            partitions,
            k + 1,
        ),
{
    let rows = height / partitions;
    lemma_fundamental_div_mod(height, partitions);
    lemma_mod_bound(height, partitions);
    lemma_div_pos_is_pos(height, partitions);
    lemma_mul_is_commutative(partitions, rows);
    lemma_mul_nonnegative(k, rows);
    lemma_mul_inequality(k, k + 1, rows);
    lemma_mul_inequality(k + 1, partitions, rows);
    assert(partitions * rows <= height);
    assert(0 * rows == 0);
}

/// The rows `start..end` of partition `k`.
pub fn partition_rows(height: i32, partitions: usize, k: usize) -> (rows: (i32, i32))
    requires
        0 <= height,
        k < partitions,
    ensures
        rows.0 == partition_start(height as int, partitions as int, k as int),
        rows.1 == partition_end(height as int, partitions as int, k as int),
        0 <= rows.0 <= rows.1 <= height,
{
    proof {
        lemma_partitions_tile(height as int, partitions as int, k as int);
    }
    let number_of_rows: usize = height as usize / partitions;
    let start: usize = k * number_of_rows;
    let end: usize = if k == partitions - 1 {
        height as usize
    } else {
        start + number_of_rows
    };
    proof {
        assert((k + 1) * number_of_rows == k * number_of_rows + number_of_rows)
            by (nonlinear_arith);
    }
    (start as i32, end as i32)
}

/// One past the last row that the first `k` partitions cover.
pub open spec fn rows_covered(height: int, partitions: int, k: int) -> int {
    if k <= 0 {
        0
    } else {
        partition_end(height, partitions, k - 1)
    }
}

/// The first pass put together from the first `k` partitions: each partition
/// computes the cells of its rows from the frozen buffer, and the results are
/// joined in the order of the partitions.
pub open spec fn assembled<R: Rule>(
    cells: Seq<Cell>,
    width: int,
    height: int,
    rule: R,
    partitions: int,
    k: int,
) -> Seq<Cell>
    decreases k,
{
    if k <= 0 {
        Seq::empty()
    } else {
        assembled(cells, width, height, rule, partitions, k - 1) + evolved_range(
            cells,
            width,
            height,
            rule,
            partition_start(height, partitions, k - 1) * width,
            partition_end(height, partitions, k - 1) * width,
        )
    }
}

/// The verdicts of the second pass put together from the first `k`
/// partitions, in the order of the partitions.
pub open spec fn collected(
    before: Seq<Cell>,
    after: Seq<Cell>,
    width: int,
    height: int,
    partitions: int,
    k: int,
) -> Seq<(usize, bool)>
    decreases k,
{
    if k <= 0 {
        Seq::empty()
    } else {
        collected(before, after, width, height, partitions, k - 1) + verdicts(
            before,
            after,
            width,
            height,
            partition_start(height, partitions, k - 1) * width,
            partition_end(height, partitions, k - 1) * width,
        )
    }
}

/// The buffer one generation later, as a run over `partitions` partitions
/// produces it.
pub open spec fn partitioned_generation<R: Rule>(
    cells: Seq<Cell>,
    width: int,
    height: int,
    rule: R,
    partitions: int,
) -> Seq<Cell> {
    let next = assembled(cells, width, height, rule, partitions, partitions);
    apply_verdicts(
        next,
        collected(cells, next, width, height, partitions, partitions),
        width,
        height,
    )
}

/// The first `k` partitions cover the rows from the first up to
/// `rows_covered`, which is a row of the board.
pub proof fn lemma_rows_covered(width: int, height: int, partitions: int, k: int)
    requires
        0 <= width,
        0 <= height,
        0 <= k <= partitions,
    ensures
        0 <= rows_covered(height, partitions, k) <= height,
        0 <= rows_covered(height, partitions, k) * width <= height * width,
        k == partitions && 0 < partitions ==> rows_covered(height, partitions, k) == height,
        0 < k ==> rows_covered(height, partitions, k - 1) == partition_start(
            height,
            partitions,
            k - 1,
        ),
        0 < k ==> rows_covered(height, partitions, k - 1) <= rows_covered(height, partitions, k),
        0 < k ==> rows_covered(height, partitions, k - 1) * width <= rows_covered(
            height,
            partitions,
            k,
        ) * width,
{
    if k > 0 {
        lemma_partitions_tile(height, partitions, k - 1);
        if k > 1 {
            lemma_partitions_tile(height, partitions, k - 2);
        }
        lemma_mul_inequality(
            rows_covered(height, partitions, k - 1),
            rows_covered(height, partitions, k),
            width,
        );
    }
    lemma_mul_nonnegative(rows_covered(height, partitions, k), width);
    lemma_mul_inequality(rows_covered(height, partitions, k), height, width);
}

/// Joined in order, the first `k` partitions give the first pass on the rows
/// they cover.
pub proof fn lemma_assembled<R: Rule>(
    cells: Seq<Cell>,
    width: int,
    height: int,
    rule: R,
    partitions: int,
    k: int,
)
    requires
        0 <= width,
        0 <= height,
        0 <= k <= partitions,
    ensures
        assembled(cells, width, height, rule, partitions, k) == evolved_range(
            cells,
            width,
            height,
            rule,
            0,
            rows_covered(height, partitions, k) * width,
        ),
    decreases k,
{
    lemma_rows_covered(width, height, partitions, k);
    if k == 0 {
        assert(assembled(cells, width, height, rule, partitions, k) =~= evolved_range(
            cells,
            width,
            height,
            rule,
            0,
            0,
        ));
    } else {
        lemma_assembled(cells, width, height, rule, partitions, k - 1);
        lemma_rows_covered(width, height, partitions, k - 1);
        lemma_evolved_range_split(
            cells,
            width,
            height,
            rule,
            0,
            rows_covered(height, partitions, k - 1) * width,
            rows_covered(height, partitions, k) * width,
        );
    }
}

/// Joined in order, the verdicts of the first `k` partitions are the verdicts
/// on the rows they cover.
pub proof fn lemma_collected(
    before: Seq<Cell>,
    after: Seq<Cell>,
    width: int,
    height: int,
    partitions: int,
    k: int,
)
    requires
        0 <= width,
        0 <= height,
        0 <= k <= partitions,
    ensures
        collected(before, after, width, height, partitions, k) == verdicts(
            before,
            after,
            width,
            height,
            0,
            rows_covered(height, partitions, k) * width,
        ),
    decreases k,
{
    lemma_rows_covered(width, height, partitions, k);
    if k > 0 {
        lemma_collected(before, after, width, height, partitions, k - 1);
        lemma_rows_covered(width, height, partitions, k - 1);
        lemma_verdicts_split(
            before,
            after,
            width,
            height,
            0,
            rows_covered(height, partitions, k - 1) * width,
            rows_covered(height, partitions, k) * width,
        );
    }
}

/// However many partitions a generation is split into, the buffer that comes
/// out is the one that a single scan over all cells produces.
pub proof fn lemma_partitioned_generation<R: Rule>(
    cells: Seq<Cell>,
    width: int,
    height: int,
    rule: R,
    partitions: int,
)
    requires
        0 <= width,
        0 <= height,
        cells.len() == width * height,
        cells.len() <= usize::MAX,
        0 < partitions,
    ensures
        assembled(cells, width, height, rule, partitions, partitions) == evolved(
            cells,
            width,
            height,
            rule,
        ),
        collected(
            cells,
            evolved(cells, width, height, rule),
            width,
            height,
            partitions,
            partitions,
        ) == verdicts(
            cells,
            evolved(cells, width, height, rule),
            width,
            height,
            0,
            cells.len() as int,
        ),
        partitioned_generation(cells, width, height, rule, partitions) == next_generation(
            cells,
            width,
            height,
            rule,
        ),
{
    let next = evolved(cells, width, height, rule);
    lemma_rows_covered(width, height, partitions, partitions);
    lemma_mul_is_commutative(width, height);
    lemma_assembled(cells, width, height, rule, partitions, partitions);
    lemma_collected(cells, next, width, height, partitions, partitions);
    lemma_evolved_keeps_flags(cells, width, height, rule);
    lemma_verdicts_reconcile(cells, next, width, height);
}

} // verus!
