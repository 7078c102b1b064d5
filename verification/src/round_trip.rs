//! What holds of encoding and decoding together.

use vstd::arithmetic::div_mod::*;
use vstd::arithmetic::power2::*;
use vstd::prelude::*;

use crate::bitstream::{
    lemma_ceil_div, lemma_low_bits_len, lemma_regroup_bound, lemma_regroup_len,
    lemma_regroup_stream_bytes, lemma_stream_len, lemma_stream_regroup, lemma_stream_subrange,
    lemma_value_of_low_bits, low_bits, regroup, stream, valid_width,
};
use crate::frame::{
    capacity_spec, carried_bits, carrier_chunks, decode_spec, embed, encode_spec, frame_bits,
    frame_chunks, is_marker, required_pixels, stored_length, DecodeError,
};
use crate::grid::{GridView, Rgba8};
use crate::pixel_manipulations::lemma_get_written_bits;

verus! {

/// A payload within the capacity of a grid has a frame whose chunks end
/// before the last pixel.
pub proof fn lemma_frame_fits(width: nat, height: nat, payload: Seq<u8>, bits: u8)
    requires
        valid_width(bits as nat),
        0 < payload.len() <= capacity_spec(width, height, bits),
    ensures
        width * height >= 1,
        payload.len() <= u64::MAX,
        frame_bits(payload).len() == 64 + 8 * payload.len(),
        frame_chunks(payload, bits).len() <= 3 * (width * height - 1),
        frame_bits(payload).len() <= frame_chunks(payload, bits).len() * bits,
{
    let places = (width * height) as int;
    let length = payload.len() as int;
    let b = bits as int;
    let count = frame_chunks(payload, bits).len() as int;
    lemma_low_bits_len(payload.len(), 64);
    lemma_stream_len(payload, 8);
    lemma_regroup_len(frame_bits(payload), bits as nat);
    assert(count <= 3 * (places - 1)) by (nonlinear_arith)
        requires
            1 <= b,
            count * b < 64 + 8 * length + b,
            64 + 8 * length <= (places - 1) * 3 * b,
    ;
}

/// The pixels that hold a frame carry its bits first.
pub proof fn lemma_carried_frame(pixels: Seq<Rgba8>, payload: Seq<u8>, bits: u8)
    requires
        valid_width(bits as nat),
        frame_chunks(payload, bits).len() <= 3 * (pixels.len() - 1),
    ensures
        frame_bits(payload).len() <= carried_bits(
            embed(pixels, frame_chunks(payload, bits), bits),
            bits,
        ).len(),
        carried_bits(embed(pixels, frame_chunks(payload, bits), bits), bits).take(
            frame_bits(payload).len() as int,
        ) == frame_bits(payload),
{
    let frame = frame_bits(payload);
    let chunks = frame_chunks(payload, bits);
    let hidden = embed(pixels, chunks, bits);
    let carried = carrier_chunks(hidden, bits);
    let count = chunks.len() as int;
    lemma2_to64();
    assert forall|k: int| 0 <= k < count implies carried[k] == chunks[k] by {
        let at = k / 3;
        assert(3 * at + k % 3 == k);
        assert(at < pixels.len() - 1);
        lemma_get_written_bits(pixels[at].red, chunks[k], bits);
        lemma_get_written_bits(pixels[at].green, chunks[k], bits);
        lemma_get_written_bits(pixels[at].blue, chunks[k], bits);
        lemma_regroup_bound(frame, bits as nat, k);
        lemma_small_mod(chunks[k] as nat, pow2(bits as nat));
    }
    assert(carried.subrange(0, count) =~= chunks);
    lemma_stream_subrange(carried, 0, count, bits as nat);
    lemma_stream_regroup(frame, bits as nat);
    assert(carried_bits(hidden, bits).take(frame.len() as int) =~= frame);
}

/// Encoding changes no more than it has to: the size and every alpha channel
/// stay; a pixel that no chunk falls to stays as it is, but for the last
/// pixel, which becomes the marker; and in a pixel that a chunk falls to, the
/// bits above the written ones stay.
pub proof fn lemma_encode_keeps(image: GridView, payload: Seq<u8>, bits: u8, index: int)
    requires
        image.well_formed(),
        encode_spec(image, payload, bits) is Ok,
        0 <= index < image.pixels.len(),
    ensures
        ({
            let hidden = encode_spec(image, payload, bits)->Ok_0;
            let before = image.pixels[index];
            let after = hidden.pixels[index];
            let size = pow2(bits as nat);
            &&& hidden.width == image.width
            &&& hidden.height == image.height
            &&& hidden.pixels.len() == image.pixels.len()
            &&& after.alpha == before.alpha
            &&& index == image.pixels.len() - 1 ==> is_marker(after)
            &&& index < image.pixels.len() - 1 && 3 * index >= frame_chunks(payload, bits).len()
                ==> after == before
            &&& index < image.pixels.len() - 1 ==> after.red as nat / size == before.red as nat
                / size && after.green as nat / size == before.green as nat / size
                && after.blue as nat / size == before.blue as nat / size
        }),
{
    let chunks = frame_chunks(payload, bits);
    let before = image.pixels[index];
    if index < image.pixels.len() - 1 {
        if 3 * index < chunks.len() {
            lemma_get_written_bits(before.red, chunks[3 * index], bits);
        }
        if 3 * index + 1 < chunks.len() {
            lemma_get_written_bits(before.green, chunks[3 * index + 1], bits);
        }
        if 3 * index + 2 < chunks.len() {
            lemma_get_written_bits(before.blue, chunks[3 * index + 2], bits);
        }
    }
}

/// Decoding what was encoded gives the payload back: for a grid of at least
/// 10 by 10 pixels, any valid number of bits per channel and any payload
/// that is not empty and not above the capacity of the grid, encoding
/// succeeds and decoding its result with the same number of bits gives
/// exactly the payload.
pub proof fn lemma_round_trip(image: GridView, payload: Seq<u8>, bits: u8)
    requires
        image.well_formed(),
        image.width >= 10,
        image.height >= 10,
        valid_width(bits as nat),
        0 < payload.len() <= capacity_spec(image.width, image.height, bits),
    ensures
        encode_spec(image, payload, bits) is Ok,
        decode_spec(encode_spec(image, payload, bits)->Ok_0, bits) == Ok::<Seq<u8>, DecodeError>(
            payload,
        ),
{
    let frame = frame_bits(payload);
    let chunks = frame_chunks(payload, bits);
    let hidden = embed(image.pixels, chunks, bits);
    let carried = carried_bits(hidden, bits);
    let places = image.pixels.len() as int;
    let length = payload.len() as int;
    let b = bits as int;
    lemma_frame_fits(image.width, image.height, payload, bits);
    lemma_carried_frame(image.pixels, payload, bits);
    lemma_low_bits_len(payload.len(), 64);
    assert(is_marker(hidden.last()));
    assert(stored_length(hidden, bits) == payload.len()) by {
        assert(carried.take(64) =~= low_bits(payload.len(), 64));
        lemma_value_of_low_bits(payload.len(), 64);
        lemma2_to64();
        lemma_small_mod(payload.len(), pow2(64));
    }
    assert(required_pixels(8, bits as nat, 3) + required_pixels(payload.len(), bits as nat, 3)
        <= places) by {
        let first = required_pixels(8, bits as nat, 3) as int;
        let second = required_pixels(payload.len(), bits as nat, 3) as int;
        lemma_ceil_div(64, bits as nat * 3);
        lemma_ceil_div(payload.len() * 8, bits as nat * 3);
        assert(first + second <= places) by (nonlinear_arith)
            requires
                1 <= b,
                first * (b * 3) < 64 + b * 3,
                second * (b * 3) < length * 8 + b * 3,
                64 + 8 * length <= (places - 1) * 3 * b,
        ;
    }
    assert(regroup(carried.subrange(64, 64 + 8 * length), 8) == payload) by {
        lemma_stream_len(payload, 8);
        let front = carried.take(frame.len() as int);
        assert(carried.subrange(64, 64 + 8 * length) =~= front.subrange(64, 64 + 8 * length));
        assert(frame.subrange(64, 64 + 8 * length) =~= stream(payload, 8));
        lemma_regroup_stream_bytes(payload);
    }
}

} // verus!
