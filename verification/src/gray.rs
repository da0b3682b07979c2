//! The raster that every stage of the pipeline reads: single-channel,
//! 8-bit intensities in row-major order.

use vstd::prelude::*;

verus! {

/// A grayscale raster of `width * height` intensity samples, row-major.
///
/// Decoding, color conversion and blurring are a collaborator's business;
/// this type only hands out pixels by coordinate.
pub struct GrayImage {
    width: u32,
    height: u32,
    data: Vec<u8>,
}

impl GrayImage {
    pub closed spec fn width_spec(self) -> int {
        self.width as int
    }

    pub closed spec fn height_spec(self) -> int {
        self.height as int
    }

    /// The intensity stored at column `x`, row `y`.
    pub closed spec fn pixel(self, x: int, y: int) -> u8 {
        self.data@[y * self.width_spec() + x]
    }

    /// The raster holds one sample per coordinate, and its sides are small
    /// enough that every sum this library forms over a patch fits in the
    /// machine integers the implementation uses.
    pub closed spec fn wf(self) -> bool {
        &&& self.data@.len() == self.width_spec() * self.height_spec()
        &&& self.width_spec() <= 0x10000
        &&& self.height_spec() <= 0x10000
    }

    /// What a well-formed raster guarantees about its sides.
    pub proof fn lemma_dims(self)
        requires
            self.wf(),
        ensures
            0 <= self.width_spec() <= 0x10000,
            0 <= self.height_spec() <= 0x10000,
    {
    }

    pub fn new(width: u32, height: u32, data: Vec<u8>) -> (r: GrayImage)
        requires
            data@.len() == width * height,
            width <= 0x10000,
            height <= 0x10000,
        ensures
            r.wf(),
            r.width_spec() == width,
            r.height_spec() == height,
            forall|x: int, y: int|
                0 <= x < width && 0 <= y < height ==> r.pixel(x, y) == data@[y * width + x],
    {
        GrayImage { width, height, data }
    }

    pub fn width(&self) -> (r: u32)
        ensures
            r == self.width_spec(),
    {
        self.width
    }

    pub fn height(&self) -> (r: u32)
        ensures
            r == self.height_spec(),
    {
        self.height
    }

    pub fn get_pixel(&self, x: u32, y: u32) -> (r: u8)
        requires
            self.wf(),
            x < self.width_spec(),
            y < self.height_spec(),
        ensures
            r == self.pixel(x as int, y as int),
    {
        let len = self.data.len();
        proof {
            assert((y as int) * self.width_spec() + (x as int) < self.width_spec()
                * self.height_spec()) by (nonlinear_arith)
                requires
                    0 <= (x as int) && (x as int) < self.width_spec(),
                    0 <= (y as int) && (y as int) < self.height_spec(),
            ;
            assert(self.width_spec() * self.height_spec() == len as int);
        }
        self.data[(y as usize) * (self.width as usize) + (x as usize)]
    }
}

} // verus!
