//! Pixels and the grid that holds them.

use vstd::prelude::*;

verus! {

/// One pixel: three colour channels, which carry hidden bits, and an alpha
/// channel, which never does.
#[derive(Clone, Copy, Debug, PartialEq, Eq, Structural)]
pub struct Rgba8 {
    pub red: u8,
    pub green: u8,
    pub blue: u8,
    pub alpha: u8,
}

/// What a grid is: its size and its pixels, row after row.
pub struct GridView {
    pub width: nat,
    pub height: nat,
    pub pixels: Seq<Rgba8>,
}

impl GridView {
    /// A grid holds one pixel for each place, and its sides fit in 32 bits.
    pub open spec fn well_formed(self) -> bool {
        &&& self.width <= u32::MAX
        &&& self.height <= u32::MAX
        &&& self.pixels.len() == self.width * self.height
    }
}

/// The product of two 32-bit numbers fits in 64 bits.
pub proof fn lemma_places_fit(width: u32, height: u32)
    ensures
        0 <= width * height <= 0xFFFF_FFFE_0000_0001,
{
    assert(0 <= width * height <= 0xFFFF_FFFE_0000_0001) by (nonlinear_arith)
        requires
            0 <= width <= 0xFFFF_FFFF,
            0 <= height <= 0xFFFF_FFFF,
    ;
}

/// A grid of pixels, `width` across and `height` down, held row after row
/// from the top left.
pub struct PixelGrid {
    width: u32,
    height: u32,
    pixels: Vec<Rgba8>,
}

impl View for PixelGrid {
    type V = GridView;

    closed spec fn view(&self) -> GridView {
        GridView { width: self.width as nat, height: self.height as nat, pixels: self.pixels@ }
    }
}

impl PixelGrid {
    #[verifier::type_invariant]
    spec fn holds_every_pixel(self) -> bool {
        self.pixels@.len() == self.width * self.height
    }

    /// A grid of the given size over `pixels`, where there is one pixel for
    /// each place.
    pub fn from_pixels(width: u32, height: u32, pixels: Vec<Rgba8>) -> (grid: Option<PixelGrid>)
        ensures
            grid is Some <==> pixels@.len() == width * height,
            grid matches Some(g) ==> g@ == (GridView {
                width: width as nat,
                height: height as nat,
                pixels: pixels@,
            }) && g@.well_formed(),
    {
        proof {
            lemma_places_fit(width, height);
        }
        let places: u64 = (width as u64) * (height as u64);
        if pixels.len() as u64 == places {
            Some(PixelGrid { width, height, pixels })
        } else {
            None
        }
    }

    /// A grid of the given size over `pixels`.
    pub(crate) fn with_pixels(width: u32, height: u32, pixels: Vec<Rgba8>) -> (grid: PixelGrid)
        requires
            pixels@.len() == width * height,
        ensures
            grid@ == (GridView { width: width as nat, height: height as nat, pixels: pixels@ }),
            grid@.well_formed(),
    {
        PixelGrid { width, height, pixels }
    }

    /// The number of pixels in a row.
    pub fn width(&self) -> (width: u32)
        ensures
            width == self@.width,
    {
        self.width
    }

    /// The number of rows.
    pub fn height(&self) -> (height: u32)
        ensures
            height == self@.height,
    {
        self.height
    }

    /// The pixels, row after row.
    pub fn pixels(&self) -> (pixels: &Vec<Rgba8>)
        ensures
            pixels@ == self@.pixels,
            self@.well_formed(),
    {
        proof {
            use_type_invariant(self);
        }
        &self.pixels
    }

    /// The pixel in column `x` of row `y`, where the grid has one.
    pub fn get_pixel(&self, x: u32, y: u32) -> (pixel: Option<Rgba8>)
        ensures
            pixel == if x < self@.width && y < self@.height {
                Some(self@.pixels[y * self@.width + x])
            } else {
                None
            },
    {
        proof {
            use_type_invariant(self);
        }
        let count = self.pixels.len();
        if x < self.width && y < self.height {
            proof {
                let w = self.width as int;
                let h = self.height as int;
                assert(0 <= y * w && y * w + x < h * w) by (nonlinear_arith)
                    requires
                        0 <= x < w,
                        0 <= y < h,
                ;
                assert(h * w == w * h) by (nonlinear_arith);
                assert(y * w + x < count);
            }
            let row: usize = (y as usize) * (self.width as usize);
            let at: usize = row + x as usize;
            Some(self.pixels[at])
        } else {
            None
        }
    }
}

} // verus!
