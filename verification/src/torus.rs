//! Coordinates on a board whose edges wrap around.
//!
//! A position is a `(row, col)` pair of any sign; a size is a
//! `(width, height)` pair. Both coordinates are reduced with the mathematical
//! modulo before they are flattened into a row-major index.

use vstd::prelude::*;
use vstd::arithmetic::div_mod::{
    lemma_add_mod_noop_right, lemma_fundamental_div_mod, lemma_fundamental_div_mod_converse,
    lemma_mod_bound, lemma_small_mod,
};
use vstd::arithmetic::mul::{lemma_mul_inequality, lemma_mul_is_commutative};

verus! {

/// `x` reduced into `0..n`: the mathematical modulo, never negative.
pub open spec fn wrap(x: int, n: int) -> int {
    x % n
}

/// A size whose cell count fits the index arithmetic.
pub open spec fn valid_size(width: int, height: int) -> bool {
    0 < width && 0 < height && width * height <= i32::MAX
}

/// The row-major index of the wrapped position.
pub open spec fn index_of(row: int, col: int, width: int, height: int) -> int {
    wrap(col, width) + wrap(row, height) * width
}

/// The row that a flat index lies in.
pub open spec fn row_of(index: int, width: int) -> int {
    index / width
}

/// The column that a flat index lies in.
pub open spec fn col_of(index: int, width: int) -> int {
    index % width
}

pub proof fn lemma_wrap_range(x: int, n: int)
    requires
        n > 0,
    ensures
        0 <= wrap(x, n) < n,
{
    lemma_mod_bound(x, n);
}

/// Moving by `d` before or after wrapping lands on the same coordinate.
pub proof fn lemma_wrap_shift(x: int, d: int, n: int)
    requires
        n > 0,
    ensures
        wrap(wrap(x, n) + d, n) == wrap(x + d, n),
{
    lemma_add_mod_noop_right(d, x, n);
    assert(wrap(x, n) + d == d + (x % n));
    assert(x + d == d + x);
}

/// A coordinate already in range wraps to itself.
pub proof fn lemma_wrap_small(x: int, n: int)
    requires
        0 <= x < n,
    ensures
        wrap(x, n) == x,
{
    lemma_small_mod(x as nat, n as nat);
}

/// One step off either end of the range comes back in at the other end.
pub proof fn lemma_wrap_edges(n: int)
    requires
        n > 0,
    ensures
        wrap(-1, n) == n - 1,
        wrap(n, n) == 0,
{
    assert(-1 == (-1) * n + (n - 1)) by (nonlinear_arith);
    lemma_fundamental_div_mod_converse(-1, n, -1, n - 1);
    assert(n == 1 * n + 0) by (nonlinear_arith);
    lemma_fundamental_div_mod_converse(n, n, 1, 0);
}

/// The cell `row * width + col` of an in-range position lies inside the buffer.
pub proof fn lemma_cell_in_range(row: int, col: int, width: int, height: int)
    requires
        0 <= row < height,
        0 <= col < width,
    ensures
        0 <= col + row * width < width * height,
        row_of(col + row * width, width) == row,
        col_of(col + row * width, width) == col,
{
    lemma_mul_inequality(row + 1, height, width);
    lemma_mul_is_commutative(height, width);
    assert((row + 1) * width == row * width + width) by (nonlinear_arith);
    assert(0 <= row * width) by (nonlinear_arith)
        requires
            0 <= row,
            0 < width,
    ;
    lemma_fundamental_div_mod_converse(col + row * width, width, row, col);
}

/// Every position flattens to an index inside the buffer, in the row and
/// column it wraps to.
pub proof fn lemma_index_of(row: int, col: int, width: int, height: int)
    requires
        0 < width,
        0 < height,
    ensures
        0 <= index_of(row, col, width, height) < width * height,
        row_of(index_of(row, col, width, height), width) == wrap(row, height),
        col_of(index_of(row, col, width, height), width) == wrap(col, width),
{
    lemma_wrap_range(row, height);
    lemma_wrap_range(col, width);
    lemma_cell_in_range(wrap(row, height), wrap(col, width), width, height);
}

/// Splitting an index into row and column and flattening again is the identity.
pub proof fn lemma_index_round_trip(index: int, width: int, height: int)
    requires
        0 < width,
        0 < height,
        0 <= index < width * height,
    ensures
        0 <= row_of(index, width) < height,
        0 <= col_of(index, width) < width,
        index_of(row_of(index, width), col_of(index, width), width, height) == index,
{
    let row = index / width;
    let col = index % width;
    lemma_fundamental_div_mod(index, width);
    lemma_mod_bound(index, width);
    lemma_mul_is_commutative(width, row);
    assert(0 <= row < height) by (nonlinear_arith)
        requires
            index == row * width + col,
            0 <= col < width,
            0 <= index < width * height,
            0 < width,
    ;
    lemma_wrap_small(row, height);
    lemma_wrap_small(col, width);
}

/// Reduces a coordinate of any sign into `0..n`.
pub fn wrap_coordinate(x: i32, n: i32) -> (wrapped: i32)
    requires
        n > 0,
    ensures
        wrapped == wrap(x as int, n as int),
        0 <= wrapped < n,
{
    let mut wrapped: i32 = x % n;
    proof {
        lemma_mod_bound(x as int, n as int);
        if x < 0 {
            let q = (-x) / (n as int);
            let m = (-x) % (n as int);
            lemma_fundamental_div_mod(-x, n as int);
            lemma_mod_bound(-x, n as int);
            lemma_mul_is_commutative(n as int, q);
            if m == 0 {
                assert(x == (-q) * n + 0) by (nonlinear_arith)
                    requires
                        -x == q * n + m,
                        m == 0,
                ;
                lemma_fundamental_div_mod_converse(x as int, n as int, -q, 0);
            } else {
                assert(x == (-q - 1) * n + (n - m)) by (nonlinear_arith)
                    requires
                        -x == q * n + m,
                ;
                lemma_fundamental_div_mod_converse(x as int, n as int, -q - 1, n - m);
            }
        }
    }
    if wrapped < 0 {
        wrapped += n;
    }
    wrapped
}

/// The flat index of a position on a board of the given `(width, height)`.
pub fn get_index_from_position(position: (i32, i32), size: (i32, i32)) -> (index: usize)
    requires
        valid_size(size.0 as int, size.1 as int),
    ensures
        index == index_of(position.0 as int, position.1 as int, size.0 as int, size.1 as int),
        index < size.0 * size.1,
{
    let (row, col) = position;
    let (width, height) = size;
    let new_col = wrap_coordinate(col, width);
    let new_row = wrap_coordinate(row, height);
    proof {
        lemma_cell_in_range(new_row as int, new_col as int, width as int, height as int);
        assert(0 <= new_row * width <= new_col + new_row * width);
    }
    (new_col + new_row * width) as usize
}

/// The `(row, col)` position of a flat index on a board of the given
/// `(width, height)`.
pub fn get_position_from_index(index: usize, size: (i32, i32)) -> (position: (i32, i32))
    requires
        0 < size.0,
        index <= i32::MAX,
    ensures
        position.0 == row_of(index as int, size.0 as int),
        position.1 == col_of(index as int, size.0 as int),
{
    let (width, _height) = size;
    (index as i32 / width, index as i32 % width)
}

} // verus!
