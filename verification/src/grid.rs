//! The board: a flat buffer of cells on a torus, and the generation step.

use vstd::prelude::*;
use vstd::arithmetic::mul::{
    lemma_mul_inequality, lemma_mul_is_commutative, lemma_mul_nonnegative,
};
use crate::cell::{Cell, CellColor, Conway, Rule};
use crate::generation::{
    apply_verdicts, evolved_range, lemma_put_to_sleep_step, lemma_roused_step,
    lemma_verdicts_members, next_generation, put_to_sleep, roused, verdicts,
};
use crate::neighborhood::{
    lemma_neighbors_wrapped, neighbor_count, state_at, touches, woken,
};
use crate::partition::{
    assembled, collected, lemma_partitioned_generation, partition_rows, partitioned_generation,
};
use crate::torus::{
    col_of, index_of, lemma_index_of, lemma_index_round_trip, row_of, valid_size,
    wrap_coordinate,
};
use crate::{MAX_THREADS, OUTLINE_THRESHOLD};

pub use crate::torus::{get_index_from_position, get_position_from_index};

verus! {

/// A buffer that holds exactly the cells of a board of the given size.
pub open spec fn fits(cells: Seq<Cell>, width: int, height: int) -> bool {
    valid_size(width, height) && cells.len() == width * height
}

/// Whether the cell at the wrapped position is alive.
pub fn get_state_at(cells: &Vec<Cell>, position: (i32, i32), size: (i32, i32)) -> (alive: bool)
    requires
        fits(cells@, size.0 as int, size.1 as int),
    ensures
        alive == state_at(
            cells@,
            position.0 as int,
            position.1 as int,
            size.0 as int,
            size.1 as int,
        ),
{
    let (row, col) = position;
    let index = get_index_from_position((row, col), size);
    cells[index].state
}

/// Counts the live cells among the eight around `position`, each wrapped on
/// its own.
pub fn get_neighbors(cells: &Vec<Cell>, position: (i32, i32), size: (i32, i32)) -> (neighbors: u8)
    requires
        fits(cells@, size.0 as int, size.1 as int),
    ensures
        neighbors == neighbor_count(
            cells@,
            position.0 as int,
            position.1 as int,
            size.0 as int,
            size.1 as int,
        ),
        neighbors <= 8,
{
    let row = wrap_coordinate(position.0, size.1);
    let col = wrap_coordinate(position.1, size.0);
    proof {
        lemma_neighbors_wrapped(
            position.0 as int,
            position.1 as int,
            size.0 as int,
            size.1 as int,
        );
    }
    let tl = get_state_at(cells, (row - 1, col - 1), size);
    let tc = get_state_at(cells, (row - 1, col), size);
    let tr = get_state_at(cells, (row - 1, col + 1), size);
    let ml = get_state_at(cells, (row, col - 1), size);
    let mr = get_state_at(cells, (row, col + 1), size);
    let bl = get_state_at(cells, (row + 1, col - 1), size);
    let bc = get_state_at(cells, (row + 1, col), size);
    let br = get_state_at(cells, (row + 1, col + 1), size);

    let mut neighbors: u8 = 0;
    if tl { neighbors += 1; }
    if tc { neighbors += 1; }
    if tr { neighbors += 1; }
    if ml { neighbors += 1; }
    if mr { neighbors += 1; }
    if bl { neighbors += 1; }
    if bc { neighbors += 1; }
    if br { neighbors += 1; }
    neighbors
}

/// Wakes the cell at `index`.
fn wake_up_at(cells: &mut Vec<Cell>, index: usize)
    requires
        index < old(cells).len(),
    ensures
        final(cells)@ == old(cells)@.update(
            index as int,
            old(cells)@[index as int].with_flag(true),
        ),
{
    cells[index].should_update = true;
}

/// Whether `x` is among the first `k` of the indices `at`.
spec fn among(at: Seq<usize>, k: int, x: int) -> bool
    decreases k,
{
    k > 0 && (at[k - 1] == x || among(at, k - 1, x))
}

/// The buffer after the cells at the first `k` of the indices `at` have been
/// woken.
spec fn woken_at(cells: Seq<Cell>, at: Seq<usize>, k: int) -> Seq<Cell> {
    Seq::new(
        cells.len(),
        |x: int|
            if among(at, k, x) {
                cells[x].with_flag(true)
            } else {
                cells[x]
            },
    )
}

/// Wakes the cells at the eight indices `at`.
fn wake_up_all(cells: &mut Vec<Cell>, at: [usize; 8])
    requires
        forall|k: int| 0 <= k < 8 ==> at[k] < old(cells).len(),
    ensures
        final(cells)@ == woken_at(old(cells)@, at@, 8),
{
    let mut k: usize = 0;
    assert(cells@ =~= woken_at(old(cells)@, at@, 0));
    while k < 8
        invariant
            k <= 8,
            cells.len() == old(cells).len(),
            forall|j: int| 0 <= j < 8 ==> at[j] < cells.len(),
            cells@ == woken_at(old(cells)@, at@, k as int),
        decreases 8 - k,
    {
        wake_up_at(cells, at[k]);
        k += 1;
        assert(cells@ =~= woken_at(old(cells)@, at@, k as int));
    }
}

/// Wakes the eight cells around `position`, so that the next generation
/// recomputes them.
pub fn wake_up_neighbors(cells: &mut Vec<Cell>, position: (i32, i32), size: (i32, i32))
    requires
        fits(old(cells)@, size.0 as int, size.1 as int),
    ensures
        final(cells)@ == woken(
            old(cells)@,
            position.0 as int,
            position.1 as int,
            size.0 as int,
            size.1 as int,
        ),
{
    let row = wrap_coordinate(position.0, size.1);
    let col = wrap_coordinate(position.1, size.0);
    let at: [usize; 8] = [
        get_index_from_position((row - 1, col - 1), size),
        get_index_from_position((row - 1, col), size),
        get_index_from_position((row - 1, col + 1), size),
        get_index_from_position((row, col - 1), size),
        get_index_from_position((row, col + 1), size),
        get_index_from_position((row + 1, col - 1), size),
        get_index_from_position((row + 1, col), size),
        get_index_from_position((row + 1, col + 1), size),
    ];
    wake_up_all(cells, at);
    proof {
        let (w, h) = (size.0 as int, size.1 as int);
        let (r, c) = (position.0 as int, position.1 as int);
        lemma_neighbors_wrapped(r, c, w, h);
        reveal_with_fuel(among, 9);
        assert(cells@ =~= woken(old(cells)@, r, c, w, h));
    }
}

/// One square to draw: its top-left pixel, its side, its colour, and whether
/// it gets an outline.
#[derive(Clone, Copy, Debug, PartialEq, Eq, Structural)]
pub struct Tile {
    pub x: i32,
    pub y: i32,
    pub size: i32,
    pub color: CellColor,
    pub outlined: bool,
}

/// The board as a mathematical value: its size in cells, the side of a cell
/// in pixels, and the cells in row-major order.
pub struct GridView {
    pub width: int,
    pub height: int,
    pub cell_width: int,
    pub cells: Seq<Cell>,
}

impl GridView {
    /// The sizes are not negative, a cell has a side, one buffer entry stands
    /// for each cell, and cell counts and pixel extents fit the arithmetic.
    pub open spec fn wf(self) -> bool {
        &&& 0 <= self.width
        &&& 0 <= self.height
        &&& 0 < self.cell_width
        &&& self.width * self.height <= i32::MAX
        &&& self.width * self.cell_width <= i32::MAX
        &&& self.height * self.cell_width <= i32::MAX
        &&& self.cells.len() == self.width * self.height
    }

    /// A board without cells.
    pub open spec fn is_empty(self) -> bool {
        self.width == 0 || self.height == 0
    }

    /// The board with another buffer.
    pub open spec fn with_cells(self, cells: Seq<Cell>) -> GridView {
        GridView { cells, ..self }
    }

    /// The cell coordinate that a pixel coordinate falls into: the quotient
    /// by the side of a cell, rounded towards zero.
    pub open spec fn cell_coordinate(self, pixel: int) -> int {
        if pixel >= 0 {
            pixel / self.cell_width
        } else {
            -((-pixel) / self.cell_width)
        }
    }

    /// The flat index of the cell under the pixel `(x, y)`, wrapped onto the
    /// board.
    pub open spec fn index_at(self, x: int, y: int) -> int {
        index_of(self.cell_coordinate(y), self.cell_coordinate(x), self.width, self.height)
    }

    /// The cell under the pixel `(x, y)`; none on a board without cells.
    pub open spec fn cell_at(self, x: int, y: int) -> Option<Cell> {
        if self.is_empty() {
            None
        } else {
            Some(self.cells[self.index_at(x, y)])
        }
    }

    /// The board after the cell under the pixel `(x, y)` has been set to
    /// `state`: the eight cells around it are woken, then the cell itself
    /// takes the state and wakes. A board without cells stays as it is.
    pub open spec fn edited(self, x: int, y: int, state: bool) -> GridView {
        if self.is_empty() {
            self
        } else {
            let roused = woken(
                self.cells,
                self.cell_coordinate(y),
                self.cell_coordinate(x),
                self.width,
                self.height,
            );
            let i = self.index_at(x, y);
            self.with_cells(roused.update(i, roused[i].with_state(state)))
        }
    }

    /// What is drawn for the cell with flat index `i`.
    pub open spec fn tile(self, i: int) -> Tile {
        Tile {
            x: (col_of(i, self.width) * self.cell_width) as i32,
            y: (row_of(i, self.width) * self.cell_width) as i32,
            size: self.cell_width as i32,
            color: self.cells[i].color(),
            outlined: self.cell_width > OUTLINE_THRESHOLD,
        }
    }

    /// The tiles of the cells below `upto` that are drawn, in index order: a
    /// cell is drawn when it is awake or alive.
    pub open spec fn tiles(self, upto: int) -> Seq<Tile>
        decreases upto,
    {
        if upto <= 0 {
            Seq::empty()
        } else {
            let rest = self.tiles(upto - 1);
            if self.cells[upto - 1].should_update || self.cells[upto - 1].state {
                rest.push(self.tile(upto - 1))
            } else {
                rest
            }
        }
    }

    /// The board one generation later.
    pub open spec fn next<R: Rule>(self, rule: R) -> GridView {
        self.with_cells(next_generation(self.cells, self.width, self.height, rule))
    }

    /// The board `n` generations later.
    pub open spec fn after<R: Rule>(self, rule: R, n: nat) -> GridView
        decreases n,
    {
        if n == 0 {
            self
        } else {
            self.after(rule, (n - 1) as nat).next(rule)
        }
    }
}

/// A board of cells on a torus.
#[derive(Debug)]
pub struct Grid {
    width: i32,
    height: i32,
    cell_width: i32,
    cells: Vec<Cell>,
}

impl View for Grid {
    type V = GridView;

    closed spec fn view(&self) -> GridView {
        GridView {
            width: self.width as int,
            height: self.height as int,
            cell_width: self.cell_width as int,
            cells: self.cells@,
        }
    }
}

impl Clone for Grid {
    fn clone(&self) -> (copy: Grid)
        ensures
            copy@ == self@,
    {
        proof {
            use_type_invariant(self);
        }
        let cells = self.cells.clone();
        assert(cells@ =~= self.cells@);
        Grid { width: self.width, height: self.height, cell_width: self.cell_width, cells }
    }
}

/// A non-empty board has a valid size.
pub proof fn lemma_fits(view: GridView)
    requires
        view.wf(),
    ensures
        !view.is_empty() ==> fits(view.cells, view.width, view.height),
        view.is_empty() ==> view.cells.len() == 0,
        view.cells.len() > 0 ==> !view.is_empty(),
{
    if view.is_empty() {
        assert(view.width * view.height == 0) by (nonlinear_arith)
            requires
                view.width == 0 || view.height == 0,
        ;
    }
}

/// The cells of the rows `start_row..end_row` are the buffer entries
/// `start_row * width..end_row * width`.
pub proof fn lemma_row_bounds(view: GridView, start_row: int, end_row: int)
    requires
        view.wf(),
        0 <= start_row <= end_row <= view.height,
    ensures
        0 <= start_row * view.width <= end_row * view.width <= view.cells.len(),
{
    lemma_mul_nonnegative(start_row, view.width);
    lemma_mul_inequality(start_row, end_row, view.width);
    lemma_mul_inequality(end_row, view.height, view.width);
    lemma_mul_is_commutative(view.height, view.width);
}

impl Grid {
    #[verifier::type_invariant]
    spec fn inv(self) -> bool {
        self@.wf()
    }

    /// A board of `width` by `height` dead cells, all awake, drawn with cells
    /// of `cell_width` pixels.
    pub fn new(width: i32, height: i32, cell_width: i32) -> (grid: Grid)
        requires
            0 <= width,
            0 <= height,
            0 < cell_width,
            width * height <= i32::MAX,
            width * cell_width <= i32::MAX,
            height * cell_width <= i32::MAX,
        ensures
            grid@.wf(),
            grid@.width == width,
            grid@.height == height,
            grid@.cell_width == cell_width,
            grid@.cells == Seq::new(
                (width * height) as nat,
                |i: int| Cell { frames_alive: 0, state: false, should_update: true },
            ),
    {
        proof {
            lemma_mul_nonnegative(width as int, height as int);
        }
        let size: i32 = width * height;
        let mut cells: Vec<Cell> = Vec::with_capacity(size as usize);
        let mut i: i32 = 0;
        while i < size
            invariant
                0 <= i <= size,
                cells@ == Seq::new(
                    i as nat,
                    |i: int| Cell { frames_alive: 0, state: false, should_update: true },
                ),
            decreases size - i,
        {
            cells.push(Cell::default());
            i += 1;
            assert(cells@ =~= Seq::new(
                i as nat,
                |i: int| Cell { frames_alive: 0, state: false, should_update: true },
            ));
        }
        Grid { cells, width, height, cell_width }
    }

    /// The number of columns.
    pub fn width(&self) -> (width: i32)
        ensures
            width == self@.width,
            self@.wf(),
    {
        proof {
            use_type_invariant(self);
        }
        self.width
    }

    /// The number of rows.
    pub fn height(&self) -> (height: i32)
        ensures
            height == self@.height,
            self@.wf(),
    {
        proof {
            use_type_invariant(self);
        }
        self.height
    }

    /// The side of a cell in pixels.
    pub fn cell_width(&self) -> (cell_width: i32)
        ensures
            cell_width == self@.cell_width,
            self@.wf(),
    {
        proof {
            use_type_invariant(self);
        }
        self.cell_width
    }

    /// The cells in row-major order.
    pub fn cells(&self) -> (cells: &Vec<Cell>)
        ensures
            cells@ == self@.cells,
            self@.wf(),
    {
        proof {
            use_type_invariant(self);
        }
        &self.cells
    }

    /// First pass on the rows `start_row..end_row`: the new cells of those
    /// rows, computed from the board as it stands. Nothing is written to the
    /// board, so any number of row ranges can be computed side by side.
    pub fn compute_rows<R: Rule>(&self, rule: &R, start_row: i32, end_row: i32) -> (rows: Vec<Cell>)
        requires
            0 <= start_row <= end_row <= self@.height,
        ensures
            rows@ == evolved_range(
                self@.cells,
                self@.width,
                self@.height,
                *rule,
                start_row * self@.width,
                end_row * self@.width,
            ),
    {
        proof {
            use_type_invariant(self);
            lemma_row_bounds(self@, start_row as int, end_row as int);
            lemma_fits(self@);
        }
        let size = (self.width, self.height);
        let lo: usize = (start_row * self.width) as usize;
        let hi: usize = (end_row * self.width) as usize;
        let mut rows: Vec<Cell> = Vec::with_capacity(self.width as usize);
        let mut i: usize = lo;
        while i < hi
            invariant
                lo <= i <= hi <= self.cells.len(),
                size == (self.width, self.height),
                lo < hi ==> fits(self.cells@, self.width as int, self.height as int),
                rows@ == evolved_range(
                    self.cells@,
                    self.width as int,
                    self.height as int,
                    *rule,
                    lo as int,
                    i as int,
                ),
            decreases hi - i,
        {
            let mut cell = self.cells[i];
            cell.age();
            if cell.should_update {
                let position = get_position_from_index(i, size);
                let neighbors = get_neighbors(&self.cells, position, size);
                cell.set_state(rule.next_state(self.cells[i].state, neighbors));
            }
            rows.push(cell);
            i += 1;
            assert(rows@ =~= evolved_range(
                self.cells@,
                self.width as int,
                self.height as int,
                *rule,
                lo as int,
                i as int,
            ));
        }
        rows
    }

    /// Second pass on the rows `start_row..end_row`: one verdict for each
    /// cell of those rows that is awake on the board, saying whether its
    /// state or its neighbour count differs between the board and `next`.
    /// Nothing is written, so any number of row ranges can be judged side by
    /// side.
    pub fn verdicts_in_rows(&self, next: &Vec<Cell>, start_row: i32, end_row: i32) -> (list: Vec<
        (usize, bool),
    >)
        requires
            next.len() == self@.cells.len(),
            0 <= start_row <= end_row <= self@.height,
        ensures
            list@ == verdicts(
                self@.cells,
                next@,
                self@.width,
                self@.height,
                start_row * self@.width,
                end_row * self@.width,
            ),
    {
        proof {
            use_type_invariant(self);
            lemma_row_bounds(self@, start_row as int, end_row as int);
            lemma_fits(self@);
        }
        let size = (self.width, self.height);
        let lo: usize = (start_row * self.width) as usize;
        let hi: usize = (end_row * self.width) as usize;
        let mut list: Vec<(usize, bool)> = Vec::with_capacity(self.width as usize);
        let mut i: usize = lo;
        while i < hi
            invariant
                lo <= i <= hi <= self.cells.len(),
                next.len() == self.cells.len(),
                size == (self.width, self.height),
                lo < hi ==> fits(self.cells@, self.width as int, self.height as int),
                list@ == verdicts(
                    self.cells@,
                    next@,
                    self.width as int,
                    self.height as int,
                    lo as int,
                    i as int,
                ),
            decreases hi - i,
        {
            if self.cells[i].should_update {
                let position = get_position_from_index(i, size);
                if next[i].state == self.cells[i].state && get_neighbors(
                    &self.cells,
                    position,
                    size,
                ) == get_neighbors(next, position, size) {
                    list.push((i, false));
                } else {
                    list.push((i, true));
                }
            }
            i += 1;
        }
        list
    }

    /// Ends a generation: `next` becomes the buffer of the board, with the
    /// wake flags that the verdicts leave. A verdict of `true` wakes its cell
    /// and the eight cells around it; a verdict of `false` puts its cell to
    /// sleep unless some verdict wakes it. The order of the verdicts plays no
    /// part: first every `false` is written, then every `true`.
    pub fn commit(&mut self, next: Vec<Cell>, list: &Vec<(usize, bool)>)
        requires
            next.len() == old(self)@.cells.len(),
            forall|k: int| 0 <= k < list.len() ==> (#[trigger] list[k]).0 < next.len(),
        ensures
            final(self)@ == old(self)@.with_cells(
                apply_verdicts(next@, list@, old(self)@.width, old(self)@.height),
            ),
            final(self)@.wf(),
    {
        proof {
            use_type_invariant(&*self);
            lemma_fits(self@);
        }
        let size = (self.width, self.height);
        let mut final_cells = next;
        let mut k: usize = 0;
        assert(final_cells@ =~= Seq::new(
            next@.len(),
            |x: int| next@[x].with_flag(next@[x].should_update && !put_to_sleep(list@, 0, x)),
        ));
        while k < list.len()
            invariant
                k <= list.len(),
                final_cells.len() == next.len(),
                forall|j: int| 0 <= j < list.len() ==> (#[trigger] list[j]).0 < next.len(),
                final_cells@ == Seq::new(
                    next@.len(),
                    |x: int|
                        next@[x].with_flag(
                            next@[x].should_update && !put_to_sleep(list@, k as int, x),
                        ),
                ),
            decreases list.len() - k,
        {
            let (i, should_update) = list[k];
            if !should_update {
                final_cells[i].should_update = false;
            }
            proof {
                assert forall|x: int| 0 <= x < next@.len() implies put_to_sleep(list@, k + 1, x)
                    == (put_to_sleep(list@, k as int, x) || (list@[k as int].0 == x
                    && !list@[k as int].1)) by {
                    lemma_put_to_sleep_step(list@, k as int, x);
                }
            }
            k += 1;
            assert(final_cells@ =~= Seq::new(
                next@.len(),
                |x: int|
                    next@[x].with_flag(next@[x].should_update && !put_to_sleep(list@, k as int, x)),
            ));
        }

        let ghost width = self.width as int;
        let ghost height = self.height as int;
        let mut k: usize = 0;
        assert(final_cells@ =~= Seq::new(
            next@.len(),
            |x: int|
                next@[x].with_flag(
                    roused(list@, 0, x, width, height) || (next@[x].should_update
                        && !put_to_sleep(list@, list@.len() as int, x)),
                ),
        ));
        while k < list.len()
            invariant
                k <= list.len(),
                size == (self.width, self.height),
                width == self.width,
                height == self.height,
                final_cells.len() == next.len() == self.cells.len(),
                final_cells.len() > 0 ==> fits(final_cells@, width, height),
                forall|j: int| 0 <= j < list.len() ==> (#[trigger] list[j]).0 < next.len(),
                final_cells@ == Seq::new(
                    next@.len(),
                    |x: int|
                        next@[x].with_flag(
                            roused(list@, k as int, x, width, height) || (next@[x].should_update
                                && !put_to_sleep(list@, list@.len() as int, x)),
                        ),
                ),
            decreases list.len() - k,
        {
            let (i, should_update) = list[k];
            if should_update {
                final_cells[i].should_update = true;
                let position = get_position_from_index(i, size);
                wake_up_neighbors(&mut final_cells, position, size);
            }
            proof {
                assert forall|x: int| 0 <= x < next@.len() implies roused(
                    list@,
                    k + 1,
                    x,
                    width,
                    height,
                ) == (roused(list@, k as int, x, width, height) || (list@[k as int].1 && (
                list@[k as int].0 == x || touches(
                    row_of(list@[k as int].0 as int, width),
                    col_of(list@[k as int].0 as int, width),
                    x,
                    width,
                    height,
                )))) by {
                    lemma_roused_step(list@, k as int, x, width, height);
                }
            }
            k += 1;
            assert(final_cells@ =~= Seq::new(
                next@.len(),
                |x: int|
                    next@[x].with_flag(
                        roused(list@, k as int, x, width, height) || (next@[x].should_update
                            && !put_to_sleep(list@, list@.len() as int, x)),
                    ),
            ));
        }
        assert(final_cells@ =~= apply_verdicts(next@, list@, width, height));
        self.cells = final_cells;
    }

    /// Advances the board by one generation under `rule`, working through
    /// `partitions` bands of rows: first every band computes its new cells
    /// from the board as it stands, then every band judges its cells against
    /// the joined result, then the verdicts are written. The number of
    /// partitions decides how the work is cut up and nothing else.
    pub fn step_with<R: Rule>(&mut self, rule: &R, partitions: usize)
        requires
            0 < partitions,
        ensures
            final(self)@ == old(self)@.next(*rule),
            final(self)@.cells == partitioned_generation(
                old(self)@.cells,
                old(self)@.width,
                old(self)@.height,
                *rule,
                partitions as int,
            ),
            final(self)@.wf(),
    {
        proof {
            use_type_invariant(&*self);
            lemma_partitioned_generation(
                self@.cells,
                self@.width,
                self@.height,
                *rule,
                partitions as int,
            );
        }
        let mut new_cells: Vec<Cell> = Vec::with_capacity(self.cells.len());
        let mut k: usize = 0;
        while k < partitions
            invariant
                k <= partitions,
                self@.wf(),
                new_cells@ == assembled(
                    self@.cells,
                    self@.width,
                    self@.height,
                    *rule,
                    partitions as int,
                    k as int,
                ),
            decreases partitions - k,
        {
            let (start_row, end_row) = partition_rows(self.height, partitions, k);
            let mut rows = self.compute_rows(rule, start_row, end_row);
            new_cells.append(&mut rows);
            k += 1;
        }

        let mut changes: Vec<(usize, bool)> = Vec::with_capacity(self.cells.len());
        let mut k: usize = 0;
        while k < partitions
            invariant
                k <= partitions,
                self@.wf(),
                new_cells.len() == self@.cells.len(),
                changes@ == collected(
                    self@.cells,
                    new_cells@,
                    self@.width,
                    self@.height,
                    partitions as int,
                    k as int,
                ),
            decreases partitions - k,
        {
            let (start_row, end_row) = partition_rows(self.height, partitions, k);
            let mut list = self.verdicts_in_rows(&new_cells, start_row, end_row);
            changes.append(&mut list);
            k += 1;
        }
        proof {
            lemma_verdicts_members(
                self@.cells,
                new_cells@,
                self@.width,
                self@.height,
                0,
                self@.cells.len() as int,
            );
        }
        self.commit(new_cells, &changes);
    }

    /// The squares to draw for this frame, in index order: one for each cell
    /// that is awake or alive, outlined when a cell is wider than
    /// [`OUTLINE_THRESHOLD`] pixels.
    pub fn draw(&self) -> (tiles: Vec<Tile>)
        ensures
            tiles@ == self@.tiles(self@.cells.len() as int),
    {
        proof {
            use_type_invariant(self);
            lemma_fits(self@);
        }
        let size = (self.width, self.height);
        let mut tiles: Vec<Tile> = Vec::new();
        let mut i: usize = 0;
        while i < self.cells.len()
            invariant
                i <= self.cells.len(),
                self@.wf(),
                size == (self.width, self.height),
                tiles@ == self@.tiles(i as int),
            decreases self.cells.len() - i,
        {
            let cell = &self.cells[i];
            if cell.should_update || cell.state {
                proof {
                    lemma_fits(self@);
                    lemma_index_round_trip(i as int, self.width as int, self.height as int);
                    lemma_mul_inequality(
                        col_of(i as int, self.width as int),
                        self.width as int,
                        self.cell_width as int,
                    );
                    lemma_mul_inequality(
                        row_of(i as int, self.width as int),
                        self.height as int,
                        self.cell_width as int,
                    );
                    lemma_mul_nonnegative(
                        col_of(i as int, self.width as int),
                        self.cell_width as int,
                    );
                    lemma_mul_nonnegative(
                        row_of(i as int, self.width as int),
                        self.cell_width as int,
                    );
                }
                let (row, col) = get_position_from_index(i, size);
                let x = col * self.cell_width;
                let y = row * self.cell_width;
                let color = cell.get_color();
                tiles.push(
                    Tile {
                        x,
                        y,
                        size: self.cell_width,
                        color,
                        outlined: self.cell_width > OUTLINE_THRESHOLD,
                    },
                );
            }
            i += 1;
        }
        tiles
    }

    /// The `(row, col)` of the cell under the pixel `(x, y)`, before any
    /// wrapping.
    pub fn get_position_from_mouse(&self, mouse_position: (i32, i32)) -> (position: (i32, i32))
        ensures
            position.0 == self@.cell_coordinate(mouse_position.1 as int),
            position.1 == self@.cell_coordinate(mouse_position.0 as int),
    {
        proof {
            use_type_invariant(self);
        }
        let (x, y) = mouse_position;
        let col = x / self.cell_width;
        let row = y / self.cell_width;
        (row, col)
    }

    /// The cell under the pixel `(x, y)`, wrapped onto the board. A board
    /// without cells has none.
    pub fn get_cell_at(&self, mouse_position: (i32, i32)) -> (cell: Option<&Cell>)
        ensures
            match cell {
                Some(cell) => self@.cell_at(mouse_position.0 as int, mouse_position.1 as int)
                    == Some(*cell),
                None => self@.cell_at(mouse_position.0 as int, mouse_position.1 as int).is_none(),
            },
    {
        proof {
            use_type_invariant(self);
            lemma_fits(self@);
        }
        if self.width == 0 || self.height == 0 {
            return None;
        }
        let position = self.get_position_from_mouse(mouse_position);
        let index = get_index_from_position(position, (self.width, self.height));
        Some(&self.cells[index])
    }

    /// The cell under the pixel `(x, y)`, wrapped onto the board, for
    /// writing. A board without cells has none. What the caller writes to the
    /// cell is what the board holds at that index afterwards.
    pub fn get_cell_at_mut(&mut self, mouse_position: (i32, i32)) -> (cell: Option<&mut Cell>)
        ensures
            match cell {
                Some(cell) => {
                    &&& old(self)@.cell_at(mouse_position.0 as int, mouse_position.1 as int)
                        == Some(*cell)
                    &&& final(self)@ == old(self)@.with_cells(
                        old(self)@.cells.update(
                            old(self)@.index_at(mouse_position.0 as int, mouse_position.1 as int),
                            *final(cell),
                        ),
                    )
                },
                None => old(self)@.is_empty() && final(self)@ == old(self)@,
            },
    {
        proof {
            use_type_invariant(&*self);
            lemma_fits(self@);
        }
        if self.width == 0 || self.height == 0 {
            return None;
        }
        let position = self.get_position_from_mouse(mouse_position);
        let index = get_index_from_position(position, (self.width, self.height));
        Some(&mut self.cells[index])
    }

    /// Sets the cell under the pixel `(x, y)` to `state`. The cell and the
    /// eight cells around it are awake afterwards, whatever they were before.
    /// Returns whether there was a cell to set; a board without cells is left
    /// as it is.
    pub fn set_cell_at(&mut self, mouse_position: (i32, i32), state: bool) -> (done: bool)
        ensures
            done == !old(self)@.is_empty(),
            final(self)@ == old(self)@.edited(
                mouse_position.0 as int,
                mouse_position.1 as int,
                state,
            ),
            final(self)@.wf(),
            done ==> {
                let view = old(self)@;
                let row = view.cell_coordinate(mouse_position.1 as int);
                let col = view.cell_coordinate(mouse_position.0 as int);
                let i = view.index_at(mouse_position.0 as int, mouse_position.1 as int);
                &&& 0 <= i < view.cells.len()
                &&& final(self)@.cells[i].state == state
                &&& forall|x: int|
                    0 <= x < view.cells.len() && (x == i || touches(
                        row,
                        col,
                        x,
                        view.width,
                        view.height,
                    )) ==> (#[trigger] final(self)@.cells[x]).should_update
            },
    {
        proof {
            use_type_invariant(&*self);
            lemma_fits(self@);
        }
        if self.width == 0 || self.height == 0 {
            return false;
        }
        let size = (self.width, self.height);
        let position = self.get_position_from_mouse(mouse_position);
        proof {
            lemma_index_of(
                position.0 as int,
                position.1 as int,
                self.width as int,
                self.height as int,
            );
        }
        let mut temp_cells = self.cells.clone();
        assert(temp_cells@ =~= self.cells@);
        wake_up_neighbors(&mut temp_cells, position, size);
        let index = get_index_from_position(position, size);
        temp_cells[index].set_state(state);
        self.cells = temp_cells;
        true
    }

    /// Advances the board by one generation of classic Life.
    pub fn step(&mut self)
        ensures
            final(self)@ == old(self)@.next(Conway),
            final(self)@.wf(),
    {
        self.step_with(&Conway, MAX_THREADS);
    }
}

} // verus!
