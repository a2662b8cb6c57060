//! A dense grid stored row by row in one vector, with its width.

use vstd::prelude::*;

verus! {

/// Reported by [`Array2d::new`] when the data cannot be cut into rows of the given width.
pub const DIMENSION_MISMATCH: &'static str = "length of data and width provided are not compatible";

/// Reported by [`Array2d::remove_seam`] when the seam does not have one entry per row.
pub const SEAM_LENGTH_MISMATCH: &'static str = "seam length should be equal to image height";

/// The mathematical value of a grid: its width and its cells in row-major order.
pub struct Grid<T> {
    pub width: nat,
    pub cells: Seq<T>,
}

/// `len` cells can be laid out in rows of `width` cells.
pub open spec fn fits_width(width: nat, len: nat) -> bool {
    if width == 0 {
        len == 0
    } else {
        len % width == 0
    }
}

impl<T> Grid<T> {
    /// The cells form complete rows.
    pub open spec fn wf(self) -> bool {
        fits_width(self.width, self.cells.len())
    }

    /// Number of rows; a grid of width zero has none.
    pub open spec fn height(self) -> nat {
        if self.width == 0 {
            0
        } else {
            self.cells.len() / self.width
        }
    }

    /// `(x, y)` names a cell: column `x` of row `y`.
    pub open spec fn in_bounds(self, x: int, y: int) -> bool {
        0 <= x < self.width && 0 <= y < self.height()
    }

    /// The cell in column `x` of row `y`.
    pub open spec fn at(self, x: int, y: int) -> T
        recommends
            self.in_bounds(x, y),
    {
        self.cells[x + y * self.width]
    }

    /// The grid with the cell in column `x` of row `y` replaced by `value`.
    pub open spec fn with_cell(self, x: int, y: int, value: T) -> Grid<T>
        recommends
            self.in_bounds(x, y),
    {
        Grid { width: self.width, cells: self.cells.update(x + y * self.width, value) }
    }

    /// Every row has a cell in the column that `seam` names for it.
    pub open spec fn admits_seam(self, seam: Seq<usize>) -> bool {
        &&& seam.len() == self.height()
        &&& forall|y: int| 0 <= y < seam.len() ==> seam[y] < self.width
    }

    /// The cell that stands at position `i`, counted row by row, once each row
    /// `y` has lost its cell in column `seam[y]`.
    pub open spec fn cell_after_removal(self, seam: Seq<usize>, i: int) -> T {
        let w = self.width - 1;
        let (x, y) = (i % w, i / w);
        self.at(column_before_removal(x, seam[y] as int), y)
    }

    /// The grid that is left when each row `y` loses its cell in column `seam[y]`
    /// and the cells to the right of it move one column to the left.
    pub open spec fn without_seam(self, seam: Seq<usize>) -> Grid<T>
        recommends
            self.wf(),
            self.width > 0,
            self.admits_seam(seam),
    {
        let w = (self.width - 1) as nat;
        Grid {
            width: w,
            cells: Seq::new(w * self.height(), |i: int| self.cell_after_removal(seam, i)),
        }
    }

    /// The cells once the rows above `rows` have lost their seam cell and the
    /// others are still whole.
    spec fn seam_removed_above(self, seam: Seq<usize>, rows: nat) -> Seq<T> {
        let w = self.width - 1;
        Seq::new(
            (self.cells.len() - rows) as nat,
            |i: int|
                if i < rows * w {
                    self.cell_after_removal(seam, i)
                } else {
                    self.cells[i + rows]
                },
        )
    }
}

/// The column that the cell now in column `x` had before the cell in column
/// `removed` left its row.
pub open spec fn column_before_removal(x: int, removed: int) -> int {
    if x < removed {
        x
    } else {
        x + 1
    }
}

/// A rectangular table of values, stored row by row.
#[derive(Debug, PartialEq, Eq)]
pub struct Array2d<T> {
    width: usize,
    data: Vec<T>,
}

impl<T> View for Array2d<T> {
    type V = Grid<T>;

    closed spec fn view(&self) -> Grid<T> {
        Grid { width: self.width as nat, cells: self.data@ }
    }
}

impl<T> Array2d<T> {
    #[verifier::type_invariant]
    spec fn complete_rows(&self) -> bool {
        fits_width(self.width as nat, self.data@.len())
    }

    /// Builds a grid of the given width over `data`, which is kept as it is.
    pub fn new(width: usize, data: Vec<T>) -> (r: Result<Self, &'static str>)
        ensures
            r is Ok <==> fits_width(width as nat, data@.len()),
            width > 0 ==> (r is Ok <==> data@.len() % (width as nat) == 0),
            r matches Ok(g) ==> {
                &&& g@ == (Grid { width: width as nat, cells: data@ })
                &&& g@.wf()
                &&& width > 0 ==> g@.height() == data@.len() / (width as nat)
            },
            r matches Err(e) ==> e == DIMENSION_MISMATCH,
    {
        if width == 0 {
            if data.len() == 0 {
                Ok(Self { width, data })
            } else {
                Err(DIMENSION_MISMATCH)
            }
        } else if data.len() % width == 0 {
            Ok(Self { width, data })
        } else {
            Err(DIMENSION_MISMATCH)
        }
    }

    /// Number of columns.
    pub fn width(&self) -> (w: usize)
        ensures
            w == self@.width,
            self@.wf(),
    {
        proof {
            use_type_invariant(self);
        }
        self.width
    }

    /// Number of rows.
    pub fn height(&self) -> (h: usize)
        ensures
            h == self@.height(),
            self@.wf(),
    {
        proof {
            use_type_invariant(self);
        }
        if self.width == 0 {
            0
        } else {
            self.data.len() / self.width
        }
    }

    /// Number of cells.
    pub fn size(&self) -> (n: usize)
        ensures
            n == self@.cells.len(),
            n == self@.width * self@.height(),
            self@.wf(),
    {
        proof {
            use_type_invariant(self);
            lemma_cell_count(self@);
        }
        self.data.len()
    }

    /// The cells in row-major order.
    pub fn data(&self) -> (cells: &Vec<T>)
        ensures
            cells@ == self@.cells,
    {
        &self.data
    }

    /// The cell in column `index.0` of row `index.1`, for writing.
    pub fn index_mut(&mut self, index: (usize, usize)) -> (cell: &mut T)
        requires
            old(self)@.in_bounds(index.0 as int, index.1 as int),
        ensures
            *cell == old(self)@.at(index.0 as int, index.1 as int),
            final(self)@ == old(self)@.with_cell(index.0 as int, index.1 as int, *final(cell)),
    {
        proof {
            use_type_invariant(&*self);
            lemma_cell_index(self@, index.0 as int, index.1 as int);
            assert(self.data@.len() == self.data.len());
        }
        let (x, y) = index;
        &mut self.data[x + y * self.width]
    }

    /// Removes from each row `y` the cell in column `seam[y]`, closing the gap
    /// from the right, so that the grid becomes one column narrower.
    ///
    /// A seam whose length is not the height is rejected and the grid stays as it was.
    pub fn remove_seam(&mut self, seam: Vec<usize>) -> (r: Result<(), &'static str>)
        requires
            seam@.len() == old(self)@.height() ==> old(self)@.width > 0 && old(self)@.admits_seam(
                seam@,
            ),
        ensures
            r is Ok <==> seam@.len() == old(self)@.height(),
            r is Ok ==> {
                &&& final(self)@ == old(self)@.without_seam(seam@)
                &&& final(self)@.wf()
                &&& final(self)@.width == old(self)@.width - 1
                &&& old(self)@.width > 1 ==> final(self)@.height() == old(self)@.height()
            },
            r matches Err(e) ==> e == SEAM_LENGTH_MISMATCH && final(self)@ == old(self)@,
    {
        proof {
            use_type_invariant(&*self);
        }
        let height = self.height();
        if seam.len() != height {
            return Err(SEAM_LENGTH_MISMATCH);
        }
        let width = self.width;
        let ghost before = self@;
        let mut data: Vec<T> = Vec::new();
        core::mem::swap(&mut self.data, &mut data);
        proof {
            lemma_cell_count(before);
            assert(data@.len() == data.len());
            assert(data@ =~= before.seam_removed_above(seam@, 0));
        }
        let mut row: usize = 0;
        while row < height
            invariant
                row <= height,
                before.wf(),
                before.width == width,
                width > 0,
                height == before.height(),
                before.admits_seam(seam@),
                before.cells.len() <= usize::MAX,
                data@ == before.seam_removed_above(seam@, row as nat),
            decreases height - row,
        {
            let col = seam[row];
            proof {
                lemma_seam_removed_next(before, seam@, row as nat);
                lemma_cell_index(before, col as int, row as int);
                assert(data@.len() == data.len());
            }
            data.remove(row * width + col - row);
            row += 1;
        }
        proof {
            lemma_seam_removed_all(before, seam@);
        }
        self.width = width - 1;
        core::mem::swap(&mut self.data, &mut data);
        Ok(())
    }
}

impl<T> core::ops::Index<(usize, usize)> for Array2d<T> {
    type Output = T;

    /// The cell in column `index.0` of row `index.1`.
    fn index(&self, index: (usize, usize)) -> (cell: &T)
        ensures
            *cell == self@.at(index.0 as int, index.1 as int),
            *cell == self@.cells[index.0 + index.1 * self@.width],
    {
        proof {
            use_type_invariant(self);
            lemma_cell_index(self@, index.0 as int, index.1 as int);
            assert(self.data@.len() == self.data.len());
        }
        let (x, y) = index;
        &self.data[x + y * self.width]
    }
}

impl<T> vstd::std_specs::core::IndexSpecImpl<(usize, usize)> for Array2d<T> {
    open spec fn index_req(&self, index: &(usize, usize)) -> bool {
        self@.in_bounds(index.0 as int, index.1 as int)
    }
}

/// A well-formed grid has as many cells as its width times its height.
pub proof fn lemma_cell_count<T>(g: Grid<T>)
    requires
        g.wf(),
    ensures
        g.cells.len() == g.width * g.height(),
{
    let n = g.cells.len() as int;
    let w = g.width as int;
    if w > 0 {
        vstd::arithmetic::div_mod::lemma_fundamental_div_mod(n, w);
        assert(n == w * (n / w));
    } else {
        assert(w * 0 == 0);
    }
}

/// A cell inside the grid lies inside the backing sequence.
pub proof fn lemma_cell_index<T>(g: Grid<T>, x: int, y: int)
    requires
        g.wf(),
        g.in_bounds(x, y),
    ensures
        0 <= y * g.width <= x + y * g.width < g.cells.len(),
{
    let w = g.width as int;
    let h = g.height() as int;
    lemma_cell_count(g);
    assert(0 <= y * w && y * w + w <= w * h) by (nonlinear_arith)
        requires
            0 <= y < h,
            0 < w,
    ;
}

/// Row and column of a position in a row-major sequence of rows of width `w`.
proof fn lemma_position(w: int, x: int, y: int)
    requires
        0 <= x < w,
    ensures
        (x + y * w) / w == y,
        (x + y * w) % w == x,
{
    vstd::arithmetic::div_mod::lemma_fundamental_div_mod_converse(x + y * w, w, y, x);
}

/// Writing a cell keeps the shape of the grid, is read back from that cell, and
/// leaves every other cell as it was.
pub proof fn lemma_with_cell<T>(g: Grid<T>, x: int, y: int, value: T)
    requires
        g.wf(),
        g.in_bounds(x, y),
    ensures
        g.with_cell(x, y, value).wf(),
        g.with_cell(x, y, value).width == g.width,
        g.with_cell(x, y, value).height() == g.height(),
        g.with_cell(x, y, value).at(x, y) == value,
        forall|i: int, j: int|
            g.in_bounds(i, j) && (i != x || j != y) ==> #[trigger] g.with_cell(x, y, value).at(i, j)
                == g.at(i, j),
{
    lemma_cell_index(g, x, y);
    let written = g.with_cell(x, y, value);
    assert forall|i: int, j: int|
        g.in_bounds(i, j) && (i != x || j != y) implies #[trigger] written.at(i, j) == g.at(
            i,
            j,
        ) by {
        lemma_cell_index(g, i, j);
        lemma_position(g.width as int, x, y);
        lemma_position(g.width as int, i, j);
    }
}

/// Removing a seam leaves a well-formed grid that is one column narrower and,
/// unless that was its only column, as high as before; each row holds its old
/// cells but the one of the seam, in their old order.
pub proof fn lemma_without_seam<T>(g: Grid<T>, seam: Seq<usize>)
    requires
        g.wf(),
        g.width > 0,
        g.admits_seam(seam),
    ensures
        g.without_seam(seam).wf(),
        g.without_seam(seam).width == g.width - 1,
        g.width > 1 ==> g.without_seam(seam).height() == g.height(),
        g.without_seam(seam).cells.len() == g.cells.len() - g.height(),
        forall|x: int, y: int|
            0 <= x < g.width - 1 && 0 <= y < g.height() ==> #[trigger] g.without_seam(seam).at(x, y)
                == g.at(column_before_removal(x, seam[y] as int), y),
{
    lemma_seam_removed_all(g, seam);
    lemma_cell_count(g);
    let narrow = g.without_seam(seam);
    let w = g.width - 1;
    assert forall|x: int, y: int| 0 <= x < w && 0 <= y < g.height() implies #[trigger] narrow.at(
        x,
        y,
    ) == g.at(column_before_removal(x, seam[y] as int), y) by {
        lemma_position(w, x, y);
        lemma_cell_index(narrow, x, y);
    }
}

/// Taking the seam cell out of the next whole row moves the boundary between
/// narrowed and whole rows one row down.
proof fn lemma_seam_removed_next<T>(g: Grid<T>, seam: Seq<usize>, rows: nat)
    requires
        g.wf(),
        g.width > 0,
        g.admits_seam(seam),
        rows < g.height(),
    ensures
        0 <= rows * g.width + seam[rows as int] - rows < g.seam_removed_above(seam, rows).len(),
        g.seam_removed_above(seam, rows).remove(rows * g.width + seam[rows as int] - rows)
            == g.seam_removed_above(seam, rows + 1),
{
    let big = g.width as int;
    let w = big - 1;
    let h = g.height() as int;
    let r = rows as int;
    let c = seam[r] as int;
    let k = r * big + c - r;
    let a = g.seam_removed_above(seam, rows);
    let b = g.seam_removed_above(seam, rows + 1);
    lemma_cell_count(g);
    assert(r * big == r * w + r) by (nonlinear_arith)
        requires
            big == w + 1,
    ;
    assert((r + 1) * w == r * w + w) by (nonlinear_arith);
    assert(big * h >= (r + 1) * big && (r + 1) * big == r * big + big) by (nonlinear_arith)
        requires
            0 <= r < h,
            0 < big,
    ;
    assert(0 <= r * w) by (nonlinear_arith)
        requires
            0 <= r,
            0 <= w,
    ;
    assert(0 <= k < a.len());
    let removed = a.remove(k);
    assert(removed.len() == b.len());
    assert forall|i: int| 0 <= i < b.len() implies removed[i] == b[i] by {
        if r * w <= i < (r + 1) * w {
            let x = i - r * w;
            lemma_position(w, x, r);
            assert(i == x + r * w);
            assert(i / w == r && i % w == x);
            assert(x + r * big == i + r);
            assert(b[i] == g.at(column_before_removal(x, c), r));
        }
    }
    assert(removed =~= b);
}

/// When every row has been narrowed the cells are those of the narrower grid.
proof fn lemma_seam_removed_all<T>(g: Grid<T>, seam: Seq<usize>)
    requires
        g.wf(),
        g.width > 0,
        g.admits_seam(seam),
    ensures
        g.seam_removed_above(seam, g.height()) == g.without_seam(seam).cells,
        g.without_seam(seam).wf(),
        g.width > 1 ==> g.without_seam(seam).height() == g.height(),
        g.without_seam(seam).cells.len() == g.cells.len() - g.height(),
{
    let big = g.width as int;
    let w = big - 1;
    let h = g.height() as int;
    let narrow = g.without_seam(seam);
    let n = narrow.cells.len() as int;
    lemma_cell_count(g);
    assert(g.cells.len() == big * h);
    assert(big * h - h == w * h) by (nonlinear_arith)
        requires
            big == w + 1,
    ;
    assert(0 <= w * h) by (nonlinear_arith)
        requires
            0 <= w,
            0 <= h,
    ;
    assert(narrow.width == w);
    assert(n == w * h);
    assert(n == g.cells.len() - h);
    assert(h * w == w * h) by (nonlinear_arith);
    let narrowed = g.seam_removed_above(seam, g.height());
    assert(narrowed.len() == n);
    assert forall|i: int| 0 <= i < n implies narrowed[i] == narrow.cells[i] by {
        assert(i < h * w);
        assert(narrowed[i] == g.cell_after_removal(seam, i));
        assert(narrow.cells[i] == g.cell_after_removal(seam, i));
    }
    assert(narrowed =~= narrow.cells);
    if w > 0 {
        assert(n == h * w + 0) by (nonlinear_arith)
            requires
                n == w * h,
        ;
        vstd::arithmetic::div_mod::lemma_fundamental_div_mod_converse(n, w, h, 0);
        assert(n % w == 0 && n / w == h);
        assert(narrow.height() == h);
    } else {
        assert(n == 0) by (nonlinear_arith)
            requires
                n == w * h,
                w == 0,
        ;
    }
    assert(fits_width(narrow.width, narrow.cells.len()));
}

} // verus!
