//! Images of the `image` crate: what the library reads from them and how it
//! builds them.

use image::{DynamicImage, GenericImageView, ImageBuffer, Rgba};
use vstd::arithmetic::div_mod::*;
use vstd::prelude::*;

use crate::grid::{GridView, PixelGrid, Rgba8};

verus! {

/// `DynamicImage` of the `image` crate: an image of any of its pixel formats.
/// Nothing is known of what is inside one but through the functions below.
#[verifier::external_type_specification]
#[verifier::external_body]
pub struct ExDynamicImage(image::DynamicImage);

/// An image of 8-bit red, green, blue and alpha samples: an `ImageBuffer` of
/// the `image` crate over a vector of bytes, which is its one field.
#[verifier::external_body]
pub struct RgbaBuffer(pub ImageBuffer<Rgba<u8>, Vec<u8>>);

/// The width and the height that `GenericImageView::dimensions` gives for
/// `image`.
pub uninterp spec fn image_dimensions(image: DynamicImage) -> (u32, u32);

/// The pixel that `GenericImageView::get_pixel` gives for column `x` of row
/// `y` of `image`.
pub uninterp spec fn image_pixel(image: DynamicImage, x: u32, y: u32) -> Rgba8;

/// The width and the height that `buffer` was made with.
pub uninterp spec fn buffer_dimensions(buffer: RgbaBuffer) -> (u32, u32);

/// The bytes that `buffer` was made over.
pub uninterp spec fn buffer_samples(buffer: RgbaBuffer) -> Seq<u8>;

/// Whether an image of the given size can stand over `length` bytes: four
/// times the width fits in `usize`, and there are four bytes for each pixel.
pub open spec fn buffer_fits(width: u32, height: u32, length: nat) -> bool {
    4 * width <= usize::MAX && 4 * width * height <= length
}

/// `GenericImageView::dimensions` of a `DynamicImage`: the width and the
/// height of `image`.
#[verifier::external_body]
fn dimensions(image: &DynamicImage) -> (size: (u32, u32))
    ensures
        size == image_dimensions(*image),
{
    image.dimensions()
}

/// `GenericImageView::get_pixel` of a `DynamicImage`: the pixel in column `x`
/// of row `y`, turned into 8-bit red, green, blue and alpha by the crate. It
/// panics outside the image, which `requires` leaves out.
#[verifier::external_body]
fn pixel_at(image: &DynamicImage, x: u32, y: u32) -> (pixel: Rgba8)
    requires
        x < image_dimensions(*image).0,
        y < image_dimensions(*image).1,
    ensures
        pixel == image_pixel(*image, x, y),
{
    let Rgba([red, green, blue, alpha]) = image.get_pixel(x, y);
    Rgba8 { red, green, blue, alpha }
}

/// `ImageBuffer::from_raw`: an image of the given size over `samples`, four
/// bytes to a pixel. There is one exactly where four times the width fits in
/// `usize` and `samples` has at least four bytes for each pixel; it keeps the
/// size and the bytes as they were given.
#[verifier::external_body]
fn buffer_from_raw(width: u32, height: u32, samples: Vec<u8>) -> (buffer: Option<RgbaBuffer>)
    ensures
        match buffer {
            Some(made) => {
                &&& buffer_fits(width, height, samples@.len())
                &&& buffer_dimensions(made) == (width, height)
                &&& buffer_samples(made) == samples@
            },
            None => !buffer_fits(width, height, samples@.len()),
        },
{
    ImageBuffer::from_raw(width, height, samples).map(RgbaBuffer)
}

/// What `image` is as a grid: its size, and its pixels row after row.
pub open spec fn image_view(image: DynamicImage) -> GridView {
    let width = image_dimensions(image).0;
    let height = image_dimensions(image).1;
    GridView {
        width: width as nat,
        height: height as nat,
        pixels: Seq::new(
            (width * height) as nat,
            |i: int| image_pixel(image, (i % (width as int)) as u32, (i / (width as int)) as u32),
        ),
    }
}

/// What `buffer` is as a grid: its size, and its pixels row after row, each
/// of four bytes in the order red, green, blue, alpha.
pub open spec fn buffer_view(buffer: RgbaBuffer) -> GridView {
    let width = buffer_dimensions(buffer).0;
    let height = buffer_dimensions(buffer).1;
    let samples = buffer_samples(buffer);
    GridView {
        width: width as nat,
        height: height as nat,
        pixels: Seq::new(
            (width * height) as nat,
            |i: int|
                Rgba8 {
                    red: samples[4 * i],
                    green: samples[4 * i + 1],
                    blue: samples[4 * i + 2],
                    alpha: samples[4 * i + 3],
                },
        ),
    }
}

/// The grid that holds the pixels of `image`.
pub fn grid_of_image(image: &DynamicImage) -> (grid: PixelGrid)
    ensures
        grid@ == image_view(*image),
        grid@.well_formed(),
{
    let (width, height) = dimensions(image);
    let ghost wanted = image_view(*image).pixels;
    let ghost w = width as int;
    let ghost h = height as int;
    let mut pixels: Vec<Rgba8> = Vec::new();
    let mut y: u32 = 0;
    proof {
        assert(0 * w == 0) by (nonlinear_arith);
        assert(pixels@ =~= wanted.take(0));
    }
    while y < height
        invariant
            y <= height,
            w == width,
            h == height,
            image_dimensions(*image) == (width, height),
            wanted == image_view(*image).pixels,
            0 <= y * w <= w * h,
            pixels@ == wanted.take(y * w),
        decreases height - y,
    {
        let mut x: u32 = 0;
        proof {
            assert(y * w + w <= w * h && (y + 1) * w == y * w + w) by (nonlinear_arith)
                requires
                    0 <= y < h,
                    0 <= w,
            ;
        }
        while x < width
            invariant
                x <= width,
                y < height,
                w == width,
                h == height,
                image_dimensions(*image) == (width, height),
                wanted == image_view(*image).pixels,
                0 <= y * w,
                y * w + w <= w * h,
                pixels@ == wanted.take(y * w + x),
            decreases width - x,
        {
            let pixel = pixel_at(image, x, y);
            proof {
                let at = y * w + x;
                lemma_fundamental_div_mod_converse(at, w, y as int, x as int);
                assert(wanted[at] == pixel);
                assert(wanted.take(at + 1) =~= wanted.take(at).push(pixel));
            }
            pixels.push(pixel);
            x = x + 1;
        }
        y = y + 1;
    }
    proof {
        assert(h * w == w * h) by (nonlinear_arith);
        assert(wanted.take(w * h) =~= wanted);
    }
    PixelGrid::with_pixels(width, height, pixels)
}

/// The image that holds the pixels of `grid`. There is one exactly where
/// four times the width of the grid fits in `usize`, which holds of every
/// grid that has a pixel.
pub fn buffer_of_grid(grid: &PixelGrid) -> (buffer: Option<RgbaBuffer>)
    ensures
        buffer is Some <==> 4 * grid@.width <= usize::MAX,
        grid@.pixels.len() >= 1 ==> buffer is Some,
        buffer matches Some(made) ==> buffer_view(made) == grid@,
{
    let width = grid.width();
    let height = grid.height();
    let pixels = grid.pixels();
    let count = pixels.len();
    let mut samples: Vec<u8> = Vec::new();
    let mut i: usize = 0;
    while i < count
        invariant
            i <= count,
            count == pixels@.len(),
            samples@.len() == 4 * i,
            forall|k: int|
                0 <= k < i ==> (Rgba8 {
                    red: #[trigger] samples@[4 * k],
                    green: samples@[4 * k + 1],
                    blue: samples@[4 * k + 2],
                    alpha: samples@[4 * k + 3],
                }) == pixels@[k],
        decreases count - i,
    {
        let pixel = pixels[i];
        samples.push(pixel.red);
        samples.push(pixel.green);
        samples.push(pixel.blue);
        samples.push(pixel.alpha);
        i = i + 1;
    }
    let length = samples.len();
    proof {
        let w = width as int;
        let h = height as int;
        assert(4 * w * h == 4 * (w * h)) by (nonlinear_arith);
        if h >= 1 {
            assert(4 * w <= 4 * w * h) by (nonlinear_arith)
                requires
                    h >= 1,
                    w >= 0,
            ;
        } else {
            assert(w * h == 0) by (nonlinear_arith)
                requires
                    h == 0,
            ;
        }
    }
    let buffer = buffer_from_raw(width, height, samples);
    proof {
        if buffer is Some {
            assert(buffer_view(buffer->Some_0).pixels =~= grid@.pixels);
        }
    }
    buffer
}

} // verus!
