//! Rectangular pixel grids stored row by row, and their mathematical view.

use vstd::prelude::*;

verus! {

/// The mathematical view of a raster: its dimensions and its cells in
/// row-major order.
pub struct RasterView<T> {
    pub width: int,
    pub height: int,
    pub cells: Seq<T>,
}

impl<T> RasterView<T> {
    /// The cell sequence has exactly `width * height` entries.
    pub open spec fn wf(self) -> bool {
        &&& 0 <= self.width
        &&& 0 <= self.height
        &&& self.cells.len() == self.width * self.height
    }

    /// `(x, y)` names a pixel of the raster.
    pub open spec fn contains(self, x: int, y: int) -> bool {
        0 <= x < self.width && 0 <= y < self.height
    }

    /// The cell at column `x`, row `y`.
    pub open spec fn at(self, x: int, y: int) -> T {
        self.cells[y * self.width + x]
    }

    /// Two rasters have the same dimensions.
    pub open spec fn same_shape<U>(self, other: RasterView<U>) -> bool {
        self.width == other.width && self.height == other.height
    }

    /// `(x, y)` lies on the outer edge of the raster.
    pub open spec fn on_border(self, x: int, y: int) -> bool {
        x == 0 || x == self.width - 1 || y == 0 || y == self.height - 1
    }

    /// The raster of the given shape whose every cell is `value`.
    pub open spec fn uniform(width: int, height: int, value: T) -> RasterView<T> {
        RasterView { width, height, cells: Seq::new((width * height) as nat, |i: int| value) }
    }
}

/// The cell value of a binary raster: 255 for a set pixel, 0 for a clear one.
pub open spec fn flag(set: bool) -> u8 {
    if set {
        255
    } else {
        0
    }
}

/// Two rasters of one shape that agree at every pixel are equal.
pub proof fn lemma_same_pixels<T>(a: RasterView<T>, b: RasterView<T>)
    requires
        a.wf(),
        b.wf(),
        a.same_shape(b),
        forall|x: int, y: int| a.contains(x, y) ==> #[trigger] a.at(x, y) == b.at(x, y),
    ensures
        a == b,
{
    assert forall|i: int| 0 <= i < a.cells.len() implies a.cells[i] == b.cells[i] by {
        lemma_index_coords(a.width, a.height, i);
        assert(a.at(i % a.width, i / a.width) == b.at(i % a.width, i / a.width));
    }
    assert(a.cells =~= b.cells);
}

/// A pixel inside a `width` by `height` raster has a row-major index below
/// `width * height`.
pub proof fn lemma_cell_index(width: int, height: int, x: int, y: int)
    requires
        0 <= x < width,
        0 <= y < height,
    ensures
        0 <= y * width + x < width * height,
        y * width + x + 1 <= width * height,
{
    assert(y * width >= 0) by (nonlinear_arith)
        requires
            y >= 0,
            width >= 0,
    ;
    assert((y + 1) * width <= height * width) by (nonlinear_arith)
        requires
            y + 1 <= height,
            width >= 0,
    ;
    assert((y + 1) * width == y * width + width) by (nonlinear_arith);
    assert(height * width == width * height) by (nonlinear_arith);
}

/// A row-major index splits into the coordinates it was built from.
pub proof fn lemma_index_split(width: int, x: int, y: int)
    requires
        0 <= x < width,
        0 <= y,
    ensures
        (y * width + x) % width == x,
        (y * width + x) / width == y,
{
    vstd::arithmetic::div_mod::lemma_fundamental_div_mod_converse(y * width + x, width, y, x);
}

/// Every index below `width * height` is the row-major index of a pixel.
pub proof fn lemma_index_coords(width: int, height: int, i: int)
    requires
        0 <= i < width * height,
        0 <= width,
        0 <= height,
    ensures
        0 <= i % width < width,
        0 <= i / width < height,
        (i / width) * width + i % width == i,
{
    assert(width > 0) by (nonlinear_arith)
        requires
            0 <= i < width * height,
            0 <= width,
    ;
    vstd::arithmetic::div_mod::lemma_fundamental_div_mod(i, width);
    vstd::arithmetic::div_mod::lemma_mod_bound(i, width);
    let q = i / width;
    let r = i % width;
    assert(width * q == q * width) by (nonlinear_arith);
    assert(0 <= q < height) by (nonlinear_arith)
        requires
            0 <= i < width * height,
            i == q * width + r,
            0 <= r < width,
            0 < width,
    ;
}

/// A raster of cells of type `T`, stored row by row.
#[derive(Clone, Debug, PartialEq, Eq)]
pub struct Raster<T> {
    pub width: u32,
    pub height: u32,
    pub cells: Vec<T>,
}

impl<T> View for Raster<T> {
    type V = RasterView<T>;

    open spec fn view(&self) -> RasterView<T> {
        RasterView { width: self.width as int, height: self.height as int, cells: self.cells@ }
    }
}

/// The views of a sequence of rasters.
pub open spec fn views<T>(rasters: Seq<Raster<T>>) -> Seq<RasterView<T>> {
    Seq::new(rasters.len(), |k: int| rasters[k]@)
}

impl<T: Copy> Raster<T> {
    /// The stored cells match the stated dimensions.
    pub open spec fn wf(&self) -> bool {
        self@.wf()
    }

    /// A raster of the given shape with every cell set to `value`.
    pub fn filled(width: u32, height: u32, value: T) -> (r: Raster<T>)
        requires
            width * height <= usize::MAX,
        ensures
            r.wf(),
            r@ == RasterView::uniform(width as int, height as int, value),
    {
        assert(width * height <= u64::MAX) by (nonlinear_arith)
            requires
                width <= u32::MAX,
                height <= u32::MAX,
        ;
        let n: usize = (width as u64 * height as u64) as usize;
        let mut cells: Vec<T> = Vec::new();
        while cells.len() < n
            invariant
                cells.len() <= n,
                forall|i: int| 0 <= i < cells.len() ==> cells[i] == value,
            decreases n - cells.len(),
        {
            cells.push(value);
        }
        let r = Raster { width, height, cells };
        assert(r@.cells =~= RasterView::uniform(width as int, height as int, value).cells);
        r
    }

    /// Wraps a row-major cell vector, if its length fits the dimensions.
    pub fn from_cells(width: u32, height: u32, cells: Vec<T>) -> (r: Option<Raster<T>>)
        ensures
            r is Some <==> cells.len() == width * height,
            r matches Some(raster) ==> raster.wf() && raster.width == width && raster.height
                == height && raster.cells == cells,
    {
        assert(width * height <= u64::MAX) by (nonlinear_arith)
            requires
                width <= u32::MAX,
                height <= u32::MAX,
        ;
        if cells.len() as u64 == width as u64 * height as u64 {
            Some(Raster { width, height, cells })
        } else {
            None
        }
    }

    /// The row-major index of the pixel `(x, y)`.
    pub fn index_of(&self, x: u32, y: u32) -> (i: usize)
        requires
            self.wf(),
            x < self.width,
            y < self.height,
        ensures
            i == y * self.width + x,
            i < self.cells.len(),
    {
        proof {
            lemma_cell_index(self.width as int, self.height as int, x as int, y as int);
            assert(y * self.width >= 0) by (nonlinear_arith);
            assert(self.cells.len() == self.cells@.len());
        }
        y as usize * self.width as usize + x as usize
    }

    /// The cell at column `x`, row `y`.
    pub fn get(&self, x: u32, y: u32) -> (value: T)
        requires
            self.wf(),
            x < self.width,
            y < self.height,
        ensures
            value == self@.at(x as int, y as int),
    {
        let i: usize = self.index_of(x, y);
        self.cells[i]
    }

    /// Overwrites the cell at column `x`, row `y`.
    pub fn set(&mut self, x: u32, y: u32, value: T)
        requires
            old(self).wf(),
            x < old(self).width,
            y < old(self).height,
        ensures
            final(self).wf(),
            final(self)@.same_shape(old(self)@),
            final(self)@.cells == old(self)@.cells.update(y * old(self).width + x, value),
    {
        let i: usize = self.index_of(x, y);
        self.cells.set(i, value);
    }
}

} // verus!
