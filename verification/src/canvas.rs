//! The pixel buffer: a flat, row-major array of 3-channel 8-bit pixels.

use vstd::prelude::*;
use vstd::pervasive::VecAdditionalExecFns;
use crate::ppm_reader::PpmReaderError;

verus! {

/// A single 3-channel 8-bit pixel: red, green, blue.
#[derive(Clone, Copy, Debug, PartialEq, Eq, Structural)]
pub struct Pixel {
    pub r: u8,
    pub g: u8,
    pub b: u8,
}

/// The all-zero (black) pixel that freshly constructed canvases are filled with.
pub open spec fn black() -> Pixel {
    Pixel { r: 0, g: 0, b: 0 }
}

/// A struct containing the pixel data for a single image.
///
/// The canvas is an inline matrix representation of an image: the pixel at
/// (row, col) sits at index `row * width + col` of `data`. Rows scan left to
/// right, top to bottom, starting from the top left corner. You can write
/// directly to the `data` field if you wish, but the bounds-checked accessors
/// `get` and `set` are the intended interface.
#[derive(Clone, Debug)]
pub struct Canvas {
    pub data: Vec<Pixel>,
    pub width: usize,
    pub height: usize,
}

impl Canvas {
    /// Well-formedness: the buffer holds exactly one pixel per grid cell.
    pub open spec fn wf(&self) -> bool {
        self.data@.len() == self.width * self.height
    }

    /// Allocates a `width * height` canvas with every pixel zero-filled.
    /// Every index in range is valid immediately after construction.
    pub fn new(width: usize, height: usize) -> (c: Canvas)
        requires
            width * height <= usize::MAX,
        ensures
            c.wf(),
            c.width == width,
            c.height == height,
            c.data@.len() == width * height,
            forall|i: int| 0 <= i < c.data@.len() ==> c.data@[i] == black(),
    {
        let count: usize = width * height;
        let mut data: Vec<Pixel> = Vec::new();
        let mut i: usize = 0;
        while i < count
            invariant
                i <= count,
                data@.len() == i,
                forall|j: int| 0 <= j < i ==> data@[j] == black(),
            decreases count - i,
        {
            data.push(Pixel { r: 0, g: 0, b: 0 });
            i = i + 1;
        }
        Canvas { data, width, height }
    }

    /// Returns the pixel at the specified row and column, or `None` when the
    /// cell lies outside the grid (or, on a canvas whose buffer was shrunk by
    /// hand, outside the buffer). On a well-formed canvas the result is
    /// present exactly when `row < height` and `col < width`.
    pub fn get(&self, row: usize, col: usize) -> (r: Option<Pixel>)
        ensures
            r is Some <==> row < self.height && col < self.width && row * self.width + col
                < self.data@.len(),
            r is Some ==> r->0 == self.data@[row * self.width + col],
            self.wf() ==> (r is Some <==> row < self.height && col < self.width),
    {
        proof {
            lemma_grid_index(self.width as int, self.height as int, row as int, col as int);
            assert(self.data.len() == self.data@.len());
        }
        if !(row < self.height && col < self.width) {
            return None;
        }
        match row.checked_mul(self.width) {
            Some(base) => match base.checked_add(col) {
                Some(idx) => {
                    if idx < self.data.len() {
                        Some(self.data[idx])
                    } else {
                        None
                    }
                },
                None => None,
            },
            None => None,
        }
    }

    /// All the pixels of the canvas in row-major order, starting from the
    /// top left corner: left to right, then top to bottom. Borrowed from the
    /// owning buffer, so the traversal can be restarted at will.
    pub fn pixels(&self) -> (r: &Vec<Pixel>)
        ensures
            r@ == self.data@,
    {
        &self.data
    }

    /// Overwrites the pixel at the specified row and column, or reports
    /// `BoundsError` (leaving the canvas unchanged) when the cell lies
    /// outside the grid. The bounds contract matches `get`.
    pub fn set(&mut self, row: usize, col: usize, p: Pixel) -> (r: Result<(), PpmReaderError>)
        ensures
            r is Ok <==> row < old(self).height && col < old(self).width && row * old(
                self,
            ).width + col < old(self).data@.len(),
            r is Ok ==> final(self).data@ == old(self).data@.update(
                (row * old(self).width + col) as int, p),
            r is Err ==> *final(self) == *old(self) && r->Err_0 == PpmReaderError::BoundsError,
            final(self).width == old(self).width,
            final(self).height == old(self).height,
            old(self).wf() ==> final(self).wf(),
            old(self).wf() ==> (r is Ok <==> row < old(self).height && col < old(self).width),
    {
        proof {
            lemma_grid_index(self.width as int, self.height as int, row as int, col as int);
            assert(self.data.len() == self.data@.len());
        }
        if !(row < self.height && col < self.width) {
            return Err(PpmReaderError::BoundsError);
        }
        match row.checked_mul(self.width) {
            Some(base) => match base.checked_add(col) {
                Some(idx) => {
                    if idx < self.data.len() {
                        self.data.set(idx, p);
                        Ok(())
                    } else {
                        Err(PpmReaderError::BoundsError)
                    }
                },
                None => Err(PpmReaderError::BoundsError),
            },
            None => Err(PpmReaderError::BoundsError),
        }
    }
}

/// Row-major indexing facts: a cell inside the grid has its index inside the
/// buffer, and a row at or beyond the height falls outside it.
proof fn lemma_grid_index(width: int, height: int, row: int, col: int)
    requires
        0 <= width,
        0 <= height,
        0 <= row,
        0 <= col,
    ensures
        row < height && col < width ==> row * width + col < width * height,
        row >= height ==> row * width + col >= width * height,
{
    if row < height && col < width {
        assert(row * width + col < width * height) by (nonlinear_arith)
            requires 0 <= row, 0 <= col, row < height, col < width;
    }
    if row >= height {
        assert(row * width + col >= width * height) by (nonlinear_arith)
            requires 0 <= col, 0 <= width, row >= height;
    }
}

impl PartialEq for Canvas {
    /// Two canvases are equal when their dimensions and all pixels agree.
    fn eq(&self, other: &Canvas) -> (r: bool) {
        self.width == other.width && self.height == other.height && {
            if self.data.len() != other.data.len() {
                return false;
            }
            let mut i: usize = 0;
            while i < self.data.len()
                invariant
                    i <= self.data@.len(),
                    self.data@.len() == other.data@.len(),
                    forall|j: int| 0 <= j < i ==> self.data@[j] == other.data@[j],
                decreases self.data@.len() - i,
            {
                if self.data[i] != other.data[i] {
                    return false;
                }
                i = i + 1;
            }
            assert(self.data@ =~= other.data@);
            true
        }
    }
}

impl vstd::std_specs::cmp::PartialEqSpecImpl for Canvas {
    open spec fn obeys_eq_spec() -> bool {
        true
    }

    open spec fn eq_spec(&self, other: &Canvas) -> bool {
        self.width == other.width && self.height == other.height && self.data@ == other.data@
    }
}

} // verus!
