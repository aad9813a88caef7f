//! The immutable 2D grid abstraction with validated dimensions and
//! bounds-checked access.

use vstd::prelude::*;

use crate::Error;

verus! {

/// An InfraTec image: a row-major buffer of one sample per pixel.
///
/// A sample is the exact source form of one binary-file pixel: the bit
/// pattern of its little-endian 32-bit IEEE-754 float.  No calibration is
/// defined for the binary payload, so the raw grid is exposed as read.
///
/// Invariant: the buffer holds `width * height` samples; violating
/// construction fails, it never panics.  Both accessors take the coordinate
/// pair in `(column, row)` order, reading as "x then y".
#[derive(Debug)]
pub struct Image {
    height: usize,
    width: usize,
    data: Vec<u32>,
}

impl View for Image {
    type V = Seq<u32>;

    closed spec fn view(&self) -> Seq<u32> {
        self.data@
    }
}

/// A valid coordinate pair addresses a buffer slot: row-major indexing
/// stays strictly below `width * height`.
pub proof fn lemma_row_major_in_range(w: int, h: int, col: int, row: int)
    requires
        0 <= col < w,
        0 <= row < h,
    ensures
        0 <= row * w + col < w * h,
{
    assert(row * w + col < w * h) by (nonlinear_arith)
        requires
            0 <= col < w,
            0 <= row < h,
    ;
}

impl Image {
    /// The documented invariant: the buffer holds one sample per pixel.
    #[verifier::type_invariant]
    spec fn well_formed(&self) -> bool {
        self.data@.len() == self.width * self.height
    }

    /// The width of the image.
    pub closed spec fn spec_width(&self) -> usize {
        self.width
    }

    /// The height of the image.
    pub closed spec fn spec_height(&self) -> usize {
        self.height
    }

    /// The width of the image.
    #[verifier::when_used_as_spec(spec_width)]
    pub fn width(&self) -> (w: usize)
        ensures
            w == self.spec_width(),
    {
        self.width
    }

    /// The height of the image.
    #[verifier::when_used_as_spec(spec_height)]
    pub fn height(&self) -> (h: usize)
        ensures
            h == self.spec_height(),
    {
        self.height
    }

    /// Creates a new image from the provided samples, width, and height.
    ///
    /// Returns `ImageLength` with the actual and the expected length if the
    /// length of the data does not equal `width * height`.  Data are
    /// expected to be in row-major order.
    pub fn new(data: Vec<u32>, width: usize, height: usize) -> (r: Result<Image, Error>)
        requires
            width * height <= usize::MAX,
        ensures
            data@.len() == width * height ==> (r matches Ok(img) && img.width() == width
                && img.height() == height && img@ == data@),
            data@.len() != width * height ==> (r matches Err(e) && e matches Error::ImageLength(
                actual,
                expected,
            ) && actual == data@.len() && expected == width * height),
    {
        if data.len() != width * height {
            Err(Error::ImageLength(data.len(), width * height))
        } else {
            Ok(Image { data, height, width })
        }
    }

    /// Gets the sample at the provided column and row.
    ///
    /// Returns `None` if the column or the row is out of bounds; the caller
    /// decides whether that is an error.
    pub fn get(&self, col: usize, row: usize) -> (r: Option<u32>)
        ensures
            col < self.width() && row < self.height() ==> r == Some(
                self@[row * self.width() + col],
            ),
            !(col < self.width() && row < self.height()) ==> r is None,
    {
        proof {
            use_type_invariant(self);
        }
        if col < self.width && row < self.height {
            proof {
                lemma_row_major_in_range(
                    self.width as int,
                    self.height as int,
                    col as int,
                    row as int,
                );
            }
            let _n: usize = self.data.len();
            Some(self.data[row * self.width + col])
        } else {
            None
        }
    }

    /// The sample at the provided column and row, for call sites that have
    /// already validated both bounds.
    pub fn index(&self, col: usize, row: usize) -> (r: u32)
        requires
            col < self.spec_width(),
            row < self.spec_height(),
        ensures
            r == self@[row * self.spec_width() + col],
    {
        proof {
            use_type_invariant(self);
            lemma_row_major_in_range(self.width as int, self.height as int, col as int, row as int);
        }
        let _n: usize = self.data.len();
        self.data[row * self.width + col]
    }
}

/// Law: for any `data` whose length is `width * height`, construction
/// succeeds handing the buffer over unchanged, and the lookup of any valid
/// `(col, row)` pair yields the row-major element `data[row * width + col]`.
/// The hypotheses on `img` are exactly what `Image::new` ensures of its
/// `Ok` value.
pub proof fn lemma_new_then_get(
    data: Seq<u32>,
    width: usize,
    height: usize,
    img: Image,
    col: usize,
    row: usize,
)
    requires
        data.len() == width * height,
        img.spec_width() == width,
        img.spec_height() == height,
        img@ == data,
        col < width,
        row < height,
    ensures
        0 <= row * width + col < data.len(),
        img@[row * width + col] == data[row * width + col],
{
    lemma_row_major_in_range(width as int, height as int, col as int, row as int);
}

} // verus!
