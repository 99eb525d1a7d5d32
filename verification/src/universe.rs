//! The grid: dimensions, toroidal indexing, neighbor counting, and the
//! generation transition.

use vstd::prelude::*;

use vstd::arithmetic::div_mod::{
    lemma_fundamental_div_mod_converse_div,
    lemma_fundamental_div_mod_converse_mod,
    lemma_mod_bound,
    lemma_multiply_divide_lt,
    lemma_small_mod,
};
use vstd::arithmetic::mul::{
    lemma_mul_inequality,
    lemma_mul_is_distributive_sub_other_way,
    lemma_mul_nonnegative,
};

use crate::bits::{bits_get, bits_len, bits_new, bits_set, bits_of};
use crate::cell::Cell;

verus! {

/// Linear index of the wrapped coordinate `(r, c)` on a `w` by `h` torus:
/// row-major, with both coordinates reduced by Euclidean modulo.
pub open spec fn index_spec(w: int, h: int, r: int, c: int) -> int {
    (r % h) * w + (c % w)
}

/// The cell of grid `g` (a `w` by `h` torus) at wrapped coordinate
/// `(r, c)`.
pub open spec fn cell_at(g: Seq<bool>, w: int, h: int, r: int, c: int) -> bool {
    g[index_spec(w, h, r, c)]
}

/// How many of the eight Moore neighbors of `(r, c)` are alive in `g`.
pub open spec fn neighbor_count(g: Seq<bool>, w: int, h: int, r: int, c: int) -> int {
    (if cell_at(g, w, h, r - 1, c - 1) {
        1int
    } else {
        0int
    }) + (if cell_at(g, w, h, r - 1, c) {
        1int
    } else {
        0int
    }) + (if cell_at(g, w, h, r - 1, c + 1) {
        1int
    } else {
        0int
    }) + (if cell_at(g, w, h, r, c - 1) {
        1int
    } else {
        0int
    }) + (if cell_at(g, w, h, r, c + 1) {
        1int
    } else {
        0int
    }) + (if cell_at(g, w, h, r + 1, c - 1) {
        1int
    } else {
        0int
    }) + (if cell_at(g, w, h, r + 1, c) {
        1int
    } else {
        0int
    }) + (if cell_at(g, w, h, r + 1, c + 1) {
        1int
    } else {
        0int
    })
}

/// The life rule: the cell of the next generation at `(r, c)`, decided
/// entirely from the prior grid `g`.
pub open spec fn next_cell(g: Seq<bool>, w: int, h: int, r: int, c: int) -> bool {
    let n = neighbor_count(g, w, h, r, c);
    (cell_at(g, w, h, r, c) && n == 2) || n == 3
}

/// The wrapped index of any integer coordinate lies in the buffer, and
/// dividing it back out recovers the wrapped row and column: the indexing
/// round-trip law of the torus.
pub proof fn lemma_coordinate_of_index(w: int, h: int, r: int, c: int)
    requires
        1 <= w,
        1 <= h,
    ensures
        0 <= index_spec(w, h, r, c) < w * h,
        index_spec(w, h, r, c) / w == r % h,
        index_spec(w, h, r, c) % w == c % w,
{
    let rm = r % h;
    let cm = c % w;
    lemma_mod_bound(r, h);
    lemma_mod_bound(c, w);
    lemma_mul_nonnegative(rm, w);
    lemma_mul_inequality(rm, h - 1, w);
    lemma_mul_is_distributive_sub_other_way(w, h, 1);
    lemma_fundamental_div_mod_converse_div(rm * w + cm, w, rm, cm);
    lemma_fundamental_div_mod_converse_mod(rm * w + cm, w, rm, cm);
}

/// On an in-range coordinate the toroidal index is plain row-major
/// indexing, and it lies inside the buffer.
pub proof fn lemma_index_in_range(w: int, h: int, r: int, c: int)
    requires
        1 <= w,
        1 <= h,
        0 <= r < h,
        0 <= c < w,
    ensures
        index_spec(w, h, r, c) == r * w + c,
        0 <= r * w + c < w * h,
{
    lemma_small_mod(r as nat, h as nat);
    lemma_small_mod(c as nat, w as nat);
    lemma_coordinate_of_index(w, h, r, c);
}

/// Wrapping a coordinate before indexing lands on the same cell as
/// indexing it directly: the modulo is idempotent.
pub proof fn lemma_index_wrapped(w: int, h: int, r: int, c: int)
    requires
        1 <= w,
        1 <= h,
    ensures
        index_spec(w, h, r % h, c % w) == index_spec(w, h, r, c),
{
    lemma_mod_bound(r, h);
    lemma_mod_bound(c, w);
    lemma_small_mod((r % h) as nat, h as nat);
    lemma_small_mod((c % w) as nat, w as nat);
}

/// Distinct in-range coordinates have distinct row-major indices.
pub proof fn lemma_index_injective(w: int, h: int, r1: int, c1: int, r2: int, c2: int)
    requires
        1 <= w,
        1 <= h,
        0 <= r1 < h,
        0 <= c1 < w,
        0 <= r2 < h,
        0 <= c2 < w,
        r1 * w + c1 == r2 * w + c2,
    ensures
        r1 == r2,
        c1 == c2,
{
    lemma_fundamental_div_mod_converse_div(r1 * w + c1, w, r1, c1);
    lemma_fundamental_div_mod_converse_mod(r1 * w + c1, w, r1, c1);
    lemma_fundamental_div_mod_converse_div(r2 * w + c2, w, r2, c2);
    lemma_fundamental_div_mod_converse_mod(r2 * w + c2, w, r2, c2);
}

/// No spontaneous generation: on an all-dead grid the life rule leaves
/// every cell, at any integer coordinate, dead.
pub proof fn lemma_dead_grid_stays_dead(g: Seq<bool>, w: int, h: int, r: int, c: int)
    requires
        1 <= w,
        1 <= h,
        g.len() == w * h,
        forall|i: int| 0 <= i < g.len() ==> !g[i],
    ensures
        !next_cell(g, w, h, r, c),
{
    lemma_coordinate_of_index(w, h, r - 1, c - 1);
    lemma_coordinate_of_index(w, h, r - 1, c);
    lemma_coordinate_of_index(w, h, r - 1, c + 1);
    lemma_coordinate_of_index(w, h, r, c - 1);
    lemma_coordinate_of_index(w, h, r, c);
    lemma_coordinate_of_index(w, h, r, c + 1);
    lemma_coordinate_of_index(w, h, r + 1, c - 1);
    lemma_coordinate_of_index(w, h, r + 1, c);
    lemma_coordinate_of_index(w, h, r + 1, c + 1);
}

/// An alive cell with no alive neighbors dies after one step of the life
/// rule, at any integer coordinate, the wrapped corners included.
pub proof fn lemma_lone_cell_dies(g: Seq<bool>, w: int, h: int, r: int, c: int)
    requires
        1 <= w,
        1 <= h,
        g.len() == w * h,
        cell_at(g, w, h, r, c),
        neighbor_count(g, w, h, r, c) == 0,
    ensures
        !next_cell(g, w, h, r, c),
{
}

/// A fixed-size toroidal Game of Life grid.
pub struct Universe {
    width: u32,
    height: u32,
    cells: fixedbitset::FixedBitSet,
}

impl Universe {
    /// Well-formedness: positive dimensions, a total cell count that fits
    /// the index arithmetic, and a buffer of exactly `width * height`
    /// bits.
    pub closed spec fn wf(self) -> bool {
        &&& 1 <= self.width
        &&& 1 <= self.height
        &&& self.width * self.height <= i32::MAX
        &&& bits_of(self.cells).len() == self.width * self.height
    }

    /// The grid contents: one boolean per cell, row-major, `true` meaning
    /// alive.
    pub closed spec fn grid(self) -> Seq<bool> {
        bits_of(self.cells)
    }

    /// The grid width.
    pub closed spec fn spec_width(self) -> u32 {
        self.width
    }

    /// The grid height.
    pub closed spec fn spec_height(self) -> u32 {
        self.height
    }

    /// What a caller may rely on of a well-formed grid: positive
    /// dimensions, a cell count that fits the index arithmetic, and a
    /// buffer of exactly `width * height` cells.
    pub proof fn lemma_wf(self)
        requires
            self.wf(),
        ensures
            1 <= self.spec_width(),
            1 <= self.spec_height(),
            self.spec_width() * self.spec_height() <= i32::MAX,
            self.grid().len() == self.spec_width() * self.spec_height(),
    {
    }

    /// The cell at the in-range coordinate `(r, c)`.
    pub open spec fn at(self, r: int, c: int) -> bool {
        self.grid()[r * self.spec_width() + c]
    }

    /// An all-dead grid of the given dimensions.
    pub fn empty(width: u32, height: u32) -> (u: Universe)
        requires
            1 <= width,
            1 <= height,
            width * height <= i32::MAX,
        ensures
            u.wf(),
            u.spec_width() == width,
            u.spec_height() == height,
            u.grid() == Seq::new((width * height) as nat, |i: int| false),
    {
        let size = (width * height) as usize;
        let cells = bits_new(size);
        Universe { width, height, cells }
    }

    /// The linear buffer index of the coordinate `(row, column)`, for any
    /// integer coordinate: both components wrap by Euclidean modulo, so
    /// there is no out-of-bounds case.
    pub fn get_index(&self, row: i32, column: i32) -> (idx: usize)
        requires
            self.wf(),
        ensures
            idx == index_spec(
                self.spec_width() as int,
                self.spec_height() as int,
                row as int,
                column as int,
            ),
            idx < self.spec_width() * self.spec_height(),
    {
        proof {
            let wi = self.spec_width() as int;
            let hi = self.spec_height() as int;
            assert(wi <= i32::MAX && hi <= i32::MAX) by (nonlinear_arith)
                requires
                    1 <= wi,
                    1 <= hi,
                    wi * hi <= i32::MAX,
            ;
            lemma_coordinate_of_index(wi, hi, row as int, column as int);
            lemma_mod_bound(row as int, hi);
            lemma_mod_bound(column as int, wi);
        }
        let w = self.width as i32;
        let h = self.height as i32;
        let r = row.checked_rem_euclid(h).unwrap();
        let c = column.checked_rem_euclid(w).unwrap();
        (r * w + c) as usize
    }

    /// The coordinate whose linear buffer index is `index`: the row is
    /// `index / width` and the column is `index % width`, the exact
    /// inverse of `get_index` on in-range coordinates.
    pub fn get_coord(&self, index: usize) -> (rc: (i32, i32))
        requires
            self.wf(),
            index < self.spec_width() * self.spec_height(),
        ensures
            rc.0 as int == index as int / self.spec_width() as int,
            rc.1 as int == index as int % self.spec_width() as int,
            0 <= rc.0 < self.spec_height(),
            0 <= rc.1 < self.spec_width(),
            index_spec(
                self.spec_width() as int,
                self.spec_height() as int,
                rc.0 as int,
                rc.1 as int,
            ) == index,
    {
        let w = self.width as usize;
        let r = index / w;
        let c = index % w;
        proof {
            let wi = self.spec_width() as int;
            let hi = self.spec_height() as int;
            lemma_mod_bound(index as int, wi);
            lemma_multiply_divide_lt(index as int, wi, hi);
            vstd::arithmetic::div_mod::lemma_fundamental_div_mod(index as int, wi);
            lemma_small_mod((index as int / wi) as nat, hi as nat);
            lemma_small_mod((index as int % wi) as nat, wi as nat);
        }
        (r as i32, c as i32)
    }

    /// The cell at any integer coordinate, read through the toroidal
    /// index.
    pub fn get_cell(&self, row: i32, column: i32) -> (cell: Cell)
        requires
            self.wf(),
        ensures
            cell.spec_alive() == cell_at(
                self.grid(),
                self.spec_width() as int,
                self.spec_height() as int,
                row as int,
                column as int,
            ),
    {
        let idx = self.get_index(row, column);
        Cell::from_bool(bits_get(&self.cells, idx))
    }

    /// Writes the cell at any integer coordinate, through the toroidal
    /// index; every other cell and the dimensions are unchanged.
    pub fn set_cell(&mut self, row: i32, column: i32, cell: Cell)
        requires
            old(self).wf(),
        ensures
            final(self).wf(),
            final(self).spec_width() == old(self).spec_width(),
            final(self).spec_height() == old(self).spec_height(),
            final(self).grid() == old(self).grid().update(
                index_spec(
                    old(self).spec_width() as int,
                    old(self).spec_height() as int,
                    row as int,
                    column as int,
                ),
                cell.spec_alive(),
            ),
    {
        let idx = self.get_index(row, column);
        bits_set(&mut self.cells, idx, cell.as_bool());
    }

    /// How many of the eight Moore neighbors of `(row, column)` are
    /// alive, each read through the toroidal index, so boundary cells
    /// have exactly eight neighbors too.
    pub fn live_neighbor_count(&self, row: i32, column: i32) -> (n: u8)
        requires
            self.wf(),
            i32::MIN < row < i32::MAX,
            i32::MIN < column < i32::MAX,
        ensures
            n == neighbor_count(
                self.grid(),
                self.spec_width() as int,
                self.spec_height() as int,
                row as int,
                column as int,
            ),
            n <= 8,
    {
        let mut n: u8 = 0;
        if self.get_cell(row - 1, column - 1).as_bool() {
            n += 1;
        }
        if self.get_cell(row - 1, column).as_bool() {
            n += 1;
        }
        if self.get_cell(row - 1, column + 1).as_bool() {
            n += 1;
        }
        if self.get_cell(row, column - 1).as_bool() {
            n += 1;
        }
        if self.get_cell(row, column + 1).as_bool() {
            n += 1;
        }
        if self.get_cell(row + 1, column - 1).as_bool() {
            n += 1;
        }
        if self.get_cell(row + 1, column).as_bool() {
            n += 1;
        }
        if self.get_cell(row + 1, column + 1).as_bool() {
            n += 1;
        }
        n
    }

    /// Replaces the whole grid with the next generation: every cell of
    /// the new buffer is decided by the life rule against a snapshot of
    /// the prior one, then the buffer is swapped in at once. The
    /// dimensions never change.
    pub fn tick(&mut self)
        requires
            old(self).wf(),
        ensures
            final(self).wf(),
            final(self).spec_width() == old(self).spec_width(),
            final(self).spec_height() == old(self).spec_height(),
            forall|r: int, c: int|
                0 <= r < old(self).spec_height() && 0 <= c < old(self).spec_width()
                    ==> final(self).at(r, c) == next_cell(
                    old(self).grid(),
                    old(self).spec_width() as int,
                    old(self).spec_height() as int,
                    r,
                    c,
                ),
    {
        let ghost wi = self.spec_width() as int;
        let ghost hi = self.spec_height() as int;
        let ghost g0 = self.grid();
        proof {
            assert(wi <= i32::MAX && hi <= i32::MAX) by (nonlinear_arith)
                requires
                    1 <= wi,
                    1 <= hi,
                    wi * hi <= i32::MAX,
            ;
        }
        let size = (self.width * self.height) as usize;
        let mut new_cells = bits_new(size);
        let mut i: usize = 0;
        while i < size
            invariant
                self.wf(),
                wi <= i32::MAX,
                hi <= i32::MAX,
                wi == self.spec_width(),
                hi == self.spec_height(),
                g0 == self.grid(),
                size == wi * hi,
                i <= size,
                bits_of(new_cells).len() == size,
                forall|j: int|
                    0 <= j < i ==> bits_of(new_cells)[j] == next_cell(g0, wi, hi, j / wi, j % wi),
            decreases size - i,
        {
            let (r, c) = self.get_coord(i);
            let alive = self.get_cell(r, c).as_bool();
            let live_neighbors = self.live_neighbor_count(r, c);
            let next = (alive && live_neighbors == 2) || live_neighbors == 3;
            bits_set(&mut new_cells, i, next);
            i += 1;
        }
        self.cells = new_cells;
        proof {
            assert forall|r: int, c: int|
                0 <= r < hi && 0 <= c < wi implies self.at(r, c) == next_cell(
                g0,
                wi,
                hi,
                r,
                c,
            ) by {
                lemma_coordinate_of_index(wi, hi, r, c);
                lemma_small_mod(r as nat, hi as nat);
                lemma_small_mod(c as nat, wi as nat);
            }
        }
    }

    /// An all-dead grid, or `None` when the dimensions are degenerate
    /// (a zero width or height, or a cell count past the index
    /// arithmetic's limit): the guarded front door for dimensions that
    /// arrive unchecked.
    pub fn try_empty(width: u32, height: u32) -> (u: Option<Universe>)
        ensures
            u is Some <==> (1 <= width && 1 <= height && width * height <= i32::MAX),
            u matches Some(universe) ==> {
                &&& universe.wf()
                &&& universe.spec_width() == width
                &&& universe.spec_height() == height
                &&& universe.grid() == Seq::new((width * height) as nat, |i: int| false)
            },
    {
        if width == 0 || height == 0 {
            return None;
        }
        proof {
            assert((width as int) * (height as int) <= (u32::MAX as int) * (u32::MAX as int))
                by (nonlinear_arith)
                requires
                    width as int <= u32::MAX as int,
                    height as int <= u32::MAX as int,
            ;
        }
        if (width as u64) * (height as u64) > i32::MAX as u64 {
            return None;
        }
        Some(Universe::empty(width, height))
    }

    /// A grid whose cell `i` is alive exactly when `alive[i]` is true:
    /// the injected-randomness constructor. The caller draws one uniform
    /// value per cell from its random source and hands in the resulting
    /// booleans, so the grid itself stays deterministic in its input.
    pub fn random(width: u32, height: u32, alive: &Vec<bool>) -> (u: Universe)
        requires
            1 <= width,
            1 <= height,
            width * height <= i32::MAX,
            alive@.len() == width * height,
        ensures
            u.wf(),
            u.spec_width() == width,
            u.spec_height() == height,
            u.grid() == alive@,
    {
        let mut u = Universe::empty(width, height);
        let size = (width * height) as usize;
        let mut i: usize = 0;
        while i < size
            invariant
                u.wf(),
                u.spec_width() == width,
                u.spec_height() == height,
                size == width * height,
                alive@.len() == size,
                i <= size,
                forall|j: int| 0 <= j < i ==> u.grid()[j] == alive@[j],
            decreases size - i,
        {
            bits_set(&mut u.cells, i, alive[i]);
            i += 1;
        }
        proof {
            assert(u.grid() =~= alive@);
        }
        u
    }

    /// The grid width.
    pub fn width(&self) -> (w: u32)
        ensures
            w == self.spec_width(),
    {
        self.width
    }

    /// The grid height.
    pub fn height(&self) -> (h: u32)
        ensures
            h == self.spec_height(),
    {
        self.height
    }

    /// The raw bit buffer, for a zero-copy reader; bit `i` is cell `i`
    /// of the row-major grid. The reference is only meaningful until the
    /// next `tick`, which replaces the buffer wholesale.
    pub fn get_cells(&self) -> (cells: &fixedbitset::FixedBitSet)
        ensures
            bits_of(*cells) == self.grid(),
    {
        &self.cells
    }

    /// The cell buffer as values: one `Cell` per grid position,
    /// row-major, `width * height` entries.
    pub fn cells(&self) -> (cells: Vec<Cell>)
        requires
            self.wf(),
        ensures
            cells@.len() == self.spec_width() * self.spec_height(),
            forall|i: int|
                0 <= i < cells@.len() ==> cells@[i].spec_alive() == self.grid()[i],
    {
        let size = (self.width * self.height) as usize;
        let mut out: Vec<Cell> = Vec::new();
        let mut i: usize = 0;
        while i < size
            invariant
                self.wf(),
                size == self.spec_width() * self.spec_height(),
                i <= size,
                out@.len() == i,
                forall|j: int| 0 <= j < i ==> out@[j].spec_alive() == self.grid()[j],
            decreases size - i,
        {
            out.push(Cell::from_bool(bits_get(&self.cells, i)));
            i += 1;
        }
        out
    }
}

/// Grid equality in contracts: same dimensions and the same cells.
impl vstd::std_specs::cmp::PartialEqSpecImpl for Universe {
    open spec fn obeys_eq_spec() -> bool {
        true
    }

    open spec fn eq_spec(&self, other: &Universe) -> bool {
        &&& self.spec_width() == other.spec_width()
        &&& self.spec_height() == other.spec_height()
        &&& self.grid() == other.grid()
    }
}

impl PartialEq for Universe {
    /// Whether two grids have the same dimensions and the same cells.
    fn eq(&self, other: &Universe) -> (r: bool) {
        if self.width != other.width || self.height != other.height {
            return false;
        }
        let n = bits_len(&self.cells);
        let m = bits_len(&other.cells);
        if n != m {
            return false;
        }
        let mut i: usize = 0;
        while i < n
            invariant
                n == self.grid().len(),
                n == other.grid().len(),
                i <= n,
                forall|j: int| 0 <= j < i ==> self.grid()[j] == other.grid()[j],
            decreases n - i,
        {
            if bits_get(&self.cells, i) != bits_get(&other.cells, i) {
                return false;
            }
            i += 1;
        }
        proof {
            assert(self.grid() =~= other.grid());
        }
        true
    }
}

impl Eq for Universe {

}

} // verus!

