//! A picture of the lowest bit of each colour channel of an image.

use image::DynamicImage;
use vstd::prelude::*;

use crate::grid::{GridView, PixelGrid, Rgba8};
use crate::raster::{
    buffer_of_grid, buffer_view, grid_of_image, image_dimensions, image_view, RgbaBuffer,
};

verus! {

/// A channel made fully bright where its lowest bit is set and dark where it
/// is not.
pub open spec fn map_channel(value: u8) -> u8 {
    if value % 2 == 1 {
        255
    } else {
        0
    }
}

/// `pixel` with each colour channel mapped; the alpha channel stays.
pub open spec fn map_pixel_spec(pixel: Rgba8) -> Rgba8 {
    Rgba8 {
        red: map_channel(pixel.red),
        green: map_channel(pixel.green),
        blue: map_channel(pixel.blue),
        alpha: pixel.alpha,
    }
}

/// What the picture of the lowest bits of a grid is.
pub open spec fn matrix_view(image: GridView) -> GridView {
    GridView {
        width: image.width,
        height: image.height,
        pixels: Seq::new(image.pixels.len(), |i: int| map_pixel_spec(image.pixels[i])),
    }
}

/// Makes each colour channel of `pixel` 255 where its lowest bit is set and 0
/// where it is not.
pub fn map_pixel(pixel: Rgba8) -> (mapped: Rgba8)
    ensures
        mapped == map_pixel_spec(pixel),
{
    let red = pixel.red;
    let green = pixel.green;
    let blue = pixel.blue;
    proof {
        assert(red & 1 == red % 2) by (bit_vector);
        assert(green & 1 == green % 2) by (bit_vector);
        assert(blue & 1 == blue % 2) by (bit_vector);
    }
    Rgba8 {
        red: if (red & 1) == 1 {
            255
        } else {
            0
        },
        green: if (green & 1) == 1 {
            255
        } else {
            0
        },
        blue: if (blue & 1) == 1 {
            255
        } else {
            0
        },
        alpha: pixel.alpha,
    }
}

/// The picture of the lowest bits of `image`: an image of the same size whose
/// pixels are those of `image`, mapped one by one.
pub fn image_matrix(image: &DynamicImage) -> (matrix: RgbaBuffer)
    requires
        4 * image_dimensions(*image).0 <= usize::MAX,
    ensures
        buffer_view(matrix) == matrix_view(image_view(*image)),
{
    let grid = grid_of_image(image);
    let source = grid.pixels();
    let count = source.len();
    let ghost wanted = matrix_view(grid@).pixels;
    let mut pixels: Vec<Rgba8> = Vec::new();
    let mut i: usize = 0;
    proof {
        assert(pixels@ =~= wanted.take(0));
    }
    while i < count
        invariant
            i <= count,
            count == source@.len(),
            source@ == grid@.pixels,
            wanted == matrix_view(grid@).pixels,
            pixels@ == wanted.take(i as int),
        decreases count - i,
    {
        let mapped = map_pixel(source[i]);
        proof {
            assert(wanted.take(i + 1) =~= wanted.take(i as int).push(mapped));
        }
        pixels.push(mapped);
        i = i + 1;
    }
    proof {
        assert(wanted.take(count as int) =~= wanted);
    }
    let mapped = PixelGrid::with_pixels(grid.width(), grid.height(), pixels);
    match buffer_of_grid(&mapped) {
        Some(matrix) => matrix,
        None => vstd::pervasive::unreached(),
    }
}

} // verus!
