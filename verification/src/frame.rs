//! The layout of a hidden message in a grid of pixels, and what encoding and
//! decoding give on every input.
//!
//! A frame is the length of the payload in bytes, written in 64 bits, most
//! significant first, followed at once by the bits of the payload. The frame
//! is cut into chunks of as many bits as one channel carries. The chunks go
//! into the red, green and blue channels of the pixels, in that order, pixel
//! after pixel from the top left. The last pixel of the grid carries no
//! chunk: its three colour channels are set to 1 and mark that the grid
//! holds a message. The number of bits per channel is not stored.

use vstd::prelude::*;

use crate::bitstream::{bits_value, ceil_div, low_bits, regroup, stream, valid_width};
use crate::grid::{GridView, Rgba8};
use crate::pixel_manipulations::{get_bits_spec, write_bits_spec};

verus! {

/// The number of channels of a pixel that carry chunks.
pub const CARRIER_CHANNELS: u64 = 3;

/// The number of bytes that the length of the payload takes in a frame.
pub const LENGTH_PREFIX_BYTES: u64 = 8;

/// The least width and height of a grid that is decoded.
pub const MINIMUM_SIDE: u32 = 10;

/// Why a payload was not encoded.
#[derive(Clone, Copy, Debug, PartialEq, Eq, Structural)]
pub enum EncodeError {
    /// The number of bits per channel is 0 or above 8.
    InvalidBitWidth,
    /// The payload has no bytes.
    EmptyPayload,
    /// The payload has more bytes than the grid can carry.
    PayloadTooLarge,
}

/// Why no payload was decoded.
#[derive(Clone, Copy, Debug, PartialEq, Eq, Structural)]
pub enum DecodeError {
    /// The grid is less than 10 pixels wide or high.
    ImageTooSmall,
    /// The last pixel of the grid is not the marker.
    NoEmbeddedMessage,
    /// The number of bits per channel is 0 or above 8.
    InvalidBitWidth,
    /// The stored length asks for more pixels than the grid has.
    InconsistentFraming,
}

/// The carrier channel `which` of `pixel`: 0 is red, 1 is green, 2 is blue.
pub open spec fn channel(pixel: Rgba8, which: int) -> u8 {
    if which == 0 {
        pixel.red
    } else if which == 1 {
        pixel.green
    } else {
        pixel.blue
    }
}

/// The chunks that `pixels` carry: the low `bits` bits of each carrier
/// channel, pixel after pixel.
pub open spec fn carrier_chunks(pixels: Seq<Rgba8>, bits: u8) -> Seq<u8> {
    Seq::new(3 * pixels.len(), |k: int| get_bits_spec(channel(pixels[k / 3], k % 3), bits))
}

/// The bits that `pixels` carry.
pub open spec fn carried_bits(pixels: Seq<Rgba8>, bits: u8) -> Seq<bool> {
    stream(carrier_chunks(pixels, bits), bits as nat)
}

/// Whether the colour channels of `pixel` mark a message.
pub open spec fn is_marker(pixel: Rgba8) -> bool {
    pixel.red == 1 && pixel.green == 1 && pixel.blue == 1
}

/// `pixel` turned into the marker: its colour channels are 1, its alpha
/// channel stays.
pub open spec fn marker(pixel: Rgba8) -> Rgba8 {
    Rgba8 { red: 1, green: 1, blue: 1, alpha: pixel.alpha }
}

/// The bits of the frame of `payload`.
pub open spec fn frame_bits(payload: Seq<u8>) -> Seq<bool> {
    low_bits(payload.len(), 64) + stream(payload, 8)
}

/// The chunks of the frame of `payload`.
pub open spec fn frame_chunks(payload: Seq<u8>, bits: u8) -> Seq<u8> {
    regroup(frame_bits(payload), bits as nat)
}

/// A channel after chunk `at` was written into it, where there is such a
/// chunk.
pub open spec fn carry(value: u8, chunks: Seq<u8>, at: int, bits: u8) -> u8 {
    if at < chunks.len() {
        write_bits_spec(value, chunks[at], bits)
    } else {
        value
    }
}

/// Pixel number `index` after the chunks that fall to it were written.
pub open spec fn embed_pixel(pixel: Rgba8, chunks: Seq<u8>, index: int, bits: u8) -> Rgba8 {
    Rgba8 {
        red: carry(pixel.red, chunks, 3 * index, bits),
        green: carry(pixel.green, chunks, 3 * index + 1, bits),
        blue: carry(pixel.blue, chunks, 3 * index + 2, bits),
        alpha: pixel.alpha,
    }
}

/// `pixels` after `chunks` were written into them and the last pixel was
/// made the marker.
pub open spec fn embed(pixels: Seq<Rgba8>, chunks: Seq<u8>, bits: u8) -> Seq<Rgba8> {
    Seq::new(
        pixels.len(),
        |i: int|
            if i == pixels.len() - 1 {
                marker(pixels[i])
            } else {
                embed_pixel(pixels[i], chunks, i, bits)
            },
    )
}

/// The greatest number of payload bytes that a grid carries: what the
/// carrier channels of all pixels but the last hold, less the 8 bytes of the
/// length, and no more than 64 bits can count.
pub open spec fn capacity_spec(width: nat, height: nat, bits: u8) -> nat {
    let carrier_bits = (width * height - 1) * 3 * bits;
    if valid_width(bits as nat) && width * height >= 1 && carrier_bits >= 64 {
        let bytes = (carrier_bits - 64) / 8;
        if bytes > u64::MAX {
            u64::MAX as nat
        } else {
            bytes as nat
        }
    } else {
        0
    }
}

/// What encoding gives.
pub open spec fn encode_spec(image: GridView, payload: Seq<u8>, bits: u8) -> Result<
    GridView,
    EncodeError,
> {
    if !valid_width(bits as nat) {
        Err(EncodeError::InvalidBitWidth)
    } else if payload.len() == 0 {
        Err(EncodeError::EmptyPayload)
    } else if payload.len() > capacity_spec(image.width, image.height, bits) {
        Err(EncodeError::PayloadTooLarge)
    } else {
        Ok(
            GridView {
                width: image.width,
                height: image.height,
                pixels: embed(image.pixels, frame_chunks(payload, bits), bits),
            },
        )
    }
}

/// The number of pixels that carry `size` bytes: `size * 8 / (bits *
/// channels)`, rounded up.
pub open spec fn required_pixels(size: nat, bits: nat, channels: nat) -> nat {
    ceil_div(size * 8, bits * channels)
}

/// The payload length that the first 64 carried bits spell.
pub open spec fn stored_length(pixels: Seq<Rgba8>, bits: u8) -> nat {
    bits_value(carried_bits(pixels, bits).take(64))
}

/// What decoding gives.
pub open spec fn decode_spec(image: GridView, bits: u8) -> Result<Seq<u8>, DecodeError> {
    if image.width < 10 || image.height < 10 {
        Err(DecodeError::ImageTooSmall)
    } else if !is_marker(image.pixels.last()) {
        Err(DecodeError::NoEmbeddedMessage)
    } else if !valid_width(bits as nat) {
        Err(DecodeError::InvalidBitWidth)
    } else {
        let length = stored_length(image.pixels, bits);
        if length == 0 {
            Ok(Seq::empty())
        } else if required_pixels(8, bits as nat, 3) + required_pixels(length, bits as nat, 3)
            > image.pixels.len() {
            Err(DecodeError::InconsistentFraming)
        } else {
            Ok(regroup(carried_bits(image.pixels, bits).subrange(64, 64 + 8 * (length as int)), 8))
        }
    }
}

} // verus!
