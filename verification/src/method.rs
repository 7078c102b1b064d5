//! Hiding a payload in a grid of pixels and reading it back.

use image::DynamicImage;
use vstd::arithmetic::power2::*;
use vstd::bits::*;
use vstd::pervasive::unreached;
use vstd::prelude::*;
use vstd::slice::{slice_subrange, slice_to_vec};

use crate::bitstream::{
    bit_bytes, bits_value, lemma_bits_value_bound, lemma_bits_value_concat, lemma_ceil_div,
    lemma_ceil_div_is, lemma_low_bits_index, lemma_low_bits_len, lemma_regroup_len,
    lemma_regroup_single, lemma_regroup_take, lemma_stream_bit_bytes, lemma_stream_concat,
    lemma_stream_len, lemma_stream_push, lemma_stream_regroup, lemma_stream_subrange,
    lemma_value_of_low_bits, low_bits, regroup, stream, valid_width, zero_bits,
};
use crate::frame::{
    capacity_spec, carried_bits, carrier_chunks, decode_spec, embed, encode_spec, frame_bits,
    frame_chunks, is_marker, required_pixels, stored_length, DecodeError, EncodeError,
    CARRIER_CHANNELS, LENGTH_PREFIX_BYTES, MINIMUM_SIDE,
};
use crate::grid::{lemma_places_fit, GridView, PixelGrid, Rgba8};
use crate::pixel_manipulations::{
    combine_bits, convert_vec_to_single_bit, get_bits, get_bits_spec, split_into_bits, write_bits,
};
use crate::raster::{buffer_of_grid, buffer_view, grid_of_image, image_view, RgbaBuffer};

verus! {

/// The number of pixels that carry `size` bytes at `bits_per_channel` bits in
/// each of `channel_amount` channels, rounded up to whole pixels. There is
/// none where a pixel carries no bit or where the number is above 64 bits.
pub fn calculate_required_pixels(size: u64, bits_per_channel: u8, channel_amount: u64) -> (pixels:
    Option<u64>)
    ensures
        pixels == if bits_per_channel == 0 || channel_amount == 0 || required_pixels(
            size as nat,
            bits_per_channel as nat,
            channel_amount as nat,
        ) > u64::MAX {
            None
        } else {
            Some(
                required_pixels(size as nat, bits_per_channel as nat, channel_amount as nat) as u64,
            )
        },
{
    if bits_per_channel == 0 || channel_amount == 0 {
        return None;
    }
    proof {
        let b = bits_per_channel as int;
        let c = channel_amount as int;
        assert(1 <= b * c <= 255 * 0xFFFF_FFFF_FFFF_FFFF) by (nonlinear_arith)
            requires
                1 <= b <= 255,
                1 <= c <= 0xFFFF_FFFF_FFFF_FFFF,
        ;
        lemma_ceil_div(size as nat * 8, bits_per_channel as nat * channel_amount as nat);
    }
    let bits_per_pixel: u128 = (bits_per_channel as u128) * (channel_amount as u128);
    let bits_required: u128 = (size as u128) * 8;
    let pixels_required: u128 = bits_required / bits_per_pixel;
    let rounded: u128 = if bits_required % bits_per_pixel > 0 {
        pixels_required + 1
    } else {
        pixels_required
    };
    if rounded > u64::MAX as u128 {
        None
    } else {
        Some(rounded as u64)
    }
}

/// The greatest number of payload bytes that a grid of the given size
/// carries at `bits_per_channel` bits per channel.
pub fn capacity(width: u32, height: u32, bits_per_channel: u8) -> (bytes: u64)
    ensures
        bytes == capacity_spec(width as nat, height as nat, bits_per_channel),
{
    if bits_per_channel == 0 || bits_per_channel > 8 {
        return 0;
    }
    proof {
        lemma_places_fit(width, height);
    }
    let places: u128 = (width as u128) * (height as u128);
    if places == 0 {
        return 0;
    }
    proof {
        let p = (places - 1) * 3;
        let b = bits_per_channel as int;
        assert(0 <= p * b <= 0x2_FFFF_FFFF_FFFF_FFFF * 8) by (nonlinear_arith)
            requires
                0 <= p <= 0x2_FFFF_FFFF_FFFF_FFFF,
                1 <= b <= 8,
        ;
    }
    let carrier_bits: u128 = (places - 1) * 3 * (bits_per_channel as u128);
    if carrier_bits < 64 {
        return 0;
    }
    let bytes: u128 = (carrier_bits - 64) / 8;
    if bytes > u64::MAX as u128 {
        u64::MAX
    } else {
        bytes as u64
    }
}

/// The chunks that one pixel carries.
pub open spec fn pixel_chunks(pixel: Rgba8, bits: u8) -> Seq<u8> {
    seq![
        get_bits_spec(pixel.red, bits),
        get_bits_spec(pixel.green, bits),
        get_bits_spec(pixel.blue, bits),
    ]
}

/// The low `bits_in_channel` bits of each colour channel of `pixel`.
pub fn take_bits_from_pixel(pixel: Rgba8, bits_in_channel: u8) -> (chunks: Vec<u8>)
    ensures
        chunks@ == pixel_chunks(pixel, bits_in_channel),
{
    let mut chunks: Vec<u8> = Vec::new();
    chunks.push(get_bits(pixel.red, bits_in_channel));
    chunks.push(get_bits(pixel.green, bits_in_channel));
    chunks.push(get_bits(pixel.blue, bits_in_channel));
    proof {
        assert(chunks@ =~= pixel_chunks(pixel, bits_in_channel));
    }
    chunks
}

/// The chunks of a part of the pixels are the matching part of the chunks.
pub proof fn lemma_carrier_chunks_subrange(pixels: Seq<Rgba8>, from: int, to: int, bits: u8)
    requires
        0 <= from <= to <= pixels.len(),
    ensures
        carrier_chunks(pixels.subrange(from, to), bits) == carrier_chunks(pixels, bits).subrange(
            3 * from,
            3 * to,
        ),
{
    assert(carrier_chunks(pixels.subrange(from, to), bits) =~= carrier_chunks(
        pixels,
        bits,
    ).subrange(3 * from, 3 * to));
}

/// Reads the chunks of the next `read_amount` pixels, starting at pixel
/// `next`, and moves `next` behind them.
fn read_bits_from_iter(
    pixels: &[Rgba8],
    next: &mut usize,
    read_amount: usize,
    bits_in_channel: u8,
) -> (chunks: Vec<u8>)
    requires
        *old(next) + read_amount <= pixels@.len(),
    ensures
        *final(next) == *old(next) + read_amount,
        chunks@ == carrier_chunks(
            pixels@.subrange(*old(next) as int, *old(next) + read_amount),
            bits_in_channel,
        ),
{
    let start: usize = *next;
    let total: usize = pixels.len();
    let mut chunks: Vec<u8> = Vec::new();
    let mut taken: usize = 0;
    proof {
        assert(chunks@ =~= carrier_chunks(pixels@.subrange(start as int, start + 0), bits_in_channel));
    }
    while taken < read_amount
        invariant
            taken <= read_amount,
            start + read_amount <= total,
            total == pixels@.len(),
            chunks@ == carrier_chunks(
                pixels@.subrange(start as int, start + taken),
                bits_in_channel,
            ),
        decreases read_amount - taken,
    {
        let pixel = pixels[start + taken];
        let one = take_bits_from_pixel(pixel, bits_in_channel);
        proof {
            let before = pixels@.subrange(start as int, start + taken);
            let after = pixels@.subrange(start as int, start + taken + 1);
            assert(after =~= before.push(pixel));
            assert(carrier_chunks(after, bits_in_channel) =~= carrier_chunks(
                before,
                bits_in_channel,
            ) + pixel_chunks(pixel, bits_in_channel));
        }
        chunks.extend_from_slice(one.as_slice());
        taken = taken + 1;
    }
    *next = start + read_amount;
    chunks
}

/// The 64 bits of `value`, most significant first, one bit to a byte.
fn length_bits(value: u64) -> (bits: Vec<u8>)
    ensures
        bits@ == bit_bytes(low_bits(value as nat, 64)),
{
    let ghost all = low_bits(value as nat, 64);
    let mut bits: Vec<u8> = Vec::new();
    let mut j: u64 = 0;
    proof {
        lemma_low_bits_len(value as nat, 64);
        assert(bits@ =~= bit_bytes(all.take(0)));
    }
    while j < 64
        invariant
            j <= 64,
            all == low_bits(value as nat, 64),
            all.len() == 64,
            bits@ == bit_bytes(all.take(j as int)),
        decreases 64 - j,
    {
        let moved: u64 = value >> (63 - j);
        let bit: u8 = (moved & 1) as u8;
        proof {
            lemma_u64_shr_is_div(value, (63 - j) as u64);
            lemma_low_bits_index(value as nat, 64, j as int);
            assert(moved & 1 == moved % 2) by (bit_vector);
            assert(bit_bytes(all.take(j + 1)) =~= bit_bytes(all.take(j as int)).push(bit));
        }
        bits.push(bit);
        j = j + 1;
    }
    proof {
        assert(all.take(64) =~= all);
    }
    bits
}

/// The 8 bytes that hold `length`, most significant first.
fn length_prefix(length: u64) -> (bytes: Vec<u8>)
    ensures
        bytes@.len() == 8,
        stream(bytes@, 8) == low_bits(length as nat, 64),
{
    let bits = length_bits(length);
    proof {
        let all = low_bits(length as nat, 64);
        lemma_low_bits_len(length as nat, 64);
        lemma_stream_bit_bytes(all);
        lemma_stream_regroup(all, 8);
        lemma_regroup_len(all, 8);
        assert(all + zero_bits(0) =~= all);
    }
    combine_bits(bits.as_slice(), 1)
}

/// What an encoding holds, over the view of the grid.
pub open spec fn encoded_view(encoded: Result<PixelGrid, EncodeError>) -> Result<
    GridView,
    EncodeError,
> {
    match encoded {
        Ok(grid) => Ok(grid@),
        Err(error) => Err(error),
    }
}

/// Hides `payload` in a copy of `image`, `bits_per_channel` bits in each
/// colour channel, and marks the last pixel. The length of the payload goes
/// first, in 64 bits. Alpha channels stay as they are.
///
/// Fails where `bits_per_channel` is not in 1..=8, where the payload is
/// empty, and where it is longer than the capacity of the grid, in this
/// order.
pub fn encode(image: &PixelGrid, payload: &[u8], bits_per_channel: u8) -> (encoded: Result<
    PixelGrid,
    EncodeError,
>)
    ensures
        encoded_view(encoded) == encode_spec(image@, payload@, bits_per_channel),
        encoded is Ok <==> valid_width(bits_per_channel as nat) && 0 < payload@.len()
            <= capacity_spec(image@.width, image@.height, bits_per_channel),
        valid_width(bits_per_channel as nat) && payload@.len() > capacity_spec(
            image@.width,
            image@.height,
            bits_per_channel,
        ) ==> encoded_view(encoded) == Err::<GridView, EncodeError>(EncodeError::PayloadTooLarge),
        encoded matches Ok(grid) ==> grid@.well_formed() && grid@.width == image@.width
            && grid@.height == image@.height && is_marker(grid@.pixels.last()),
{
    if bits_per_channel == 0 || bits_per_channel > 8 {
        return Err(EncodeError::InvalidBitWidth);
    }
    if payload.len() == 0 {
        return Err(EncodeError::EmptyPayload);
    }
    let width = image.width();
    let height = image.height();
    let room = capacity(width, height, bits_per_channel);
    if payload.len() as u64 > room {
        return Err(EncodeError::PayloadTooLarge);
    }
    let source = image.pixels();
    let mut frame = length_prefix(payload.len() as u64);
    let ghost prefix = frame@;
    frame.extend_from_slice(payload);
    proof {
        lemma_stream_concat(prefix, payload@, 8);
        assert(frame@ == prefix + payload@);
        assert(stream(frame@, 8) == frame_bits(payload@));
    }
    let chunks = split_into_bits(frame.as_slice(), bits_per_channel);
    assert(chunks@ == frame_chunks(payload@, bits_per_channel));
    let count = source.len();
    let ghost wanted = embed(source@, chunks@, bits_per_channel);
    let mut pixels: Vec<Rgba8> = Vec::new();
    let mut used: usize = 0;
    let mut i: usize = 0;
    proof {
        assert(pixels@ =~= wanted.take(0));
    }
    while i < count
        invariant
            i <= count,
            count == source@.len(),
            wanted == embed(source@, chunks@, bits_per_channel),
            used == if 3 * i <= chunks@.len() {
                3 * i
            } else {
                chunks@.len() as int
            },
            pixels@ == wanted.take(i as int),
        decreases count - i,
    {
        let mut pixel = source[i];
        if used < chunks.len() {
            pixel.red = write_bits(pixel.red, chunks[used], bits_per_channel);
            used = used + 1;
        }
        if used < chunks.len() {
            pixel.green = write_bits(pixel.green, chunks[used], bits_per_channel);
            used = used + 1;
        }
        if used < chunks.len() {
            pixel.blue = write_bits(pixel.blue, chunks[used], bits_per_channel);
            used = used + 1;
        }
        if i + 1 == count {
            pixel = Rgba8 { red: 1, green: 1, blue: 1, alpha: pixel.alpha };
        }
        proof {
            assert(pixel == wanted[i as int]);
            assert(wanted.take(i + 1) =~= wanted.take(i as int).push(pixel));
        }
        pixels.push(pixel);
        i = i + 1;
    }
    proof {
        assert(wanted.take(count as int) =~= wanted);
    }
    Ok(PixelGrid::with_pixels(width, height, pixels))
}

/// The length of a payload takes between 3 and 22 pixels.
pub proof fn lemma_length_pixels(bits: u8)
    requires
        valid_width(bits as nat),
    ensures
        3 <= required_pixels(8, bits as nat, 3) <= 22,
        64 <= required_pixels(8, bits as nat, 3) * 3 * bits,
{
    if bits == 1 {
        lemma_ceil_div_is(64, 3, 22);
    } else if bits == 2 {
        lemma_ceil_div_is(64, 6, 11);
    } else if bits == 3 {
        lemma_ceil_div_is(64, 9, 8);
    } else if bits == 4 {
        lemma_ceil_div_is(64, 12, 6);
    } else if bits == 5 {
        lemma_ceil_div_is(64, 15, 5);
    } else if bits == 6 {
        lemma_ceil_div_is(64, 18, 4);
    } else if bits == 7 {
        lemma_ceil_div_is(64, 21, 4);
    } else {
        lemma_ceil_div_is(64, 24, 3);
    }
    let amount = required_pixels(8, bits as nat, 3) as int;
    let b = bits as int;
    lemma_ceil_div(64, bits as nat * 3);
    assert(amount * (b * 3) == amount * 3 * b) by (nonlinear_arith);
}

/// The bits that a run of pixels carries, one bit to a byte, are a part of
/// the bits that all pixels carry.
pub proof fn lemma_single_bits_of_pixels(pixels: Seq<Rgba8>, from: int, to: int, bits: u8)
    requires
        0 <= from <= to <= pixels.len(),
    ensures
        3 * from * bits <= 3 * to * bits <= carried_bits(pixels, bits).len(),
        carried_bits(pixels, bits).len() == 3 * pixels.len() * bits,
        regroup(stream(carrier_chunks(pixels.subrange(from, to), bits), bits as nat), 1)
            == bit_bytes(carried_bits(pixels, bits).subrange(3 * from * bits, 3 * to * bits)),
{
    let chunks = carrier_chunks(pixels, bits);
    lemma_carrier_chunks_subrange(pixels, from, to, bits);
    lemma_stream_subrange(chunks, 3 * from, 3 * to, bits as nat);
    lemma_stream_len(chunks, bits as nat);
    lemma_regroup_single(carried_bits(pixels, bits).subrange(3 * from * bits, 3 * to * bits));
}

/// The number that 8 bytes spell, most significant first.
fn length_value(bytes: &[u8]) -> (value: u64)
    requires
        bytes@.len() == 8,
    ensures
        value == bits_value(stream(bytes@, 8)),
{
    let mut value: u64 = 0;
    let mut j: usize = 0;
    proof {
        lemma2_to64();
    }
    while j < 8
        invariant
            j <= 8,
            bytes@.len() == 8,
            value == bits_value(stream(bytes@.take(j as int), 8)),
            value < pow2((8 * j) as nat),
        decreases 8 - j,
    {
        let byte = bytes[j];
        proof {
            let before = stream(bytes@.take(j as int), 8);
            let after = stream(bytes@.take(j + 1), 8);
            assert(bytes@.take(j + 1) =~= bytes@.take(j as int).push(byte));
            lemma_stream_push(bytes@.take(j as int), byte, 8);
            lemma_low_bits_len(byte as nat, 8);
            lemma_bits_value_concat(before, low_bits(byte as nat, 8));
            lemma_value_of_low_bits(byte as nat, 8);
            lemma_stream_len(bytes@.take(j + 1), 8);
            lemma_bits_value_bound(after);
            lemma2_to64();
            lemma2_to64_rest();
            if j < 7 {
                lemma_pow2_strictly_increases((8 * (j + 1)) as nat, 64);
            }
        }
        value = value * 256 + byte as u64;
        j = j + 1;
    }
    proof {
        assert(bytes@.take(8) =~= bytes@);
    }
    value
}

/// What a decoding holds, over the view of the bytes.
pub open spec fn decoded_view(decoded: Result<Vec<u8>, DecodeError>) -> Result<
    Seq<u8>,
    DecodeError,
> {
    match decoded {
        Ok(bytes) => Ok(bytes@),
        Err(error) => Err(error),
    }
}

/// Reads the payload that `encode` hid in `image` at `bits_per_channel` bits
/// per channel. The number of bits per channel must be the one that was
/// encoded with: it is not stored, and with another one the bits that come
/// out are not the payload.
///
/// Fails where the grid is under 10 pixels wide or high, where its last
/// pixel is not the marker, where `bits_per_channel` is not in 1..=8, and
/// where the stored length asks for more pixels than the grid has, in this
/// order. A stored length of 0 gives no bytes.
pub fn decode(image: &PixelGrid, bits_per_channel: u8) -> (decoded: Result<Vec<u8>, DecodeError>)
    ensures
        decoded_view(decoded) == decode_spec(image@, bits_per_channel),
        image@.width >= 10 && image@.height >= 10 && !is_marker(image@.pixels.last())
            ==> decoded == Err::<Vec<u8>, DecodeError>(DecodeError::NoEmbeddedMessage),
        image@.width >= 10 && image@.height >= 10 && is_marker(image@.pixels.last())
            && valid_width(bits_per_channel as nat) && stored_length(
            image@.pixels,
            bits_per_channel,
        ) == 0 ==> (decoded matches Ok(bytes) && bytes@.len() == 0),
        decoded matches Ok(bytes) ==> bytes@.len() == stored_length(
            image@.pixels,
            bits_per_channel,
        ),
{
    let width = image.width();
    let height = image.height();
    if width < MINIMUM_SIDE || height < MINIMUM_SIDE {
        return Err(DecodeError::ImageTooSmall);
    }
    let pixels = image.pixels();
    let count = pixels.len();
    proof {
        let w = width as int;
        let h = height as int;
        assert(w * h >= 100) by (nonlinear_arith)
            requires
                w >= 10,
                h >= 10,
        ;
    }
    let last = pixels[count - 1];
    if last.red != 1 || last.green != 1 || last.blue != 1 {
        return Err(DecodeError::NoEmbeddedMessage);
    }
    if bits_per_channel == 0 || bits_per_channel > 8 {
        return Err(DecodeError::InvalidBitWidth);
    }
    let ghost carried = carried_bits(pixels@, bits_per_channel);
    let ghost b = bits_per_channel as int;
    proof {
        lemma_length_pixels(bits_per_channel);
    }
    let pixels_for_length = match calculate_required_pixels(
        LENGTH_PREFIX_BYTES,
        bits_per_channel,
        CARRIER_CHANNELS,
    ) {
        Some(amount) => amount as usize,
        None => unreached(),
    };
    let ghost first = 3 * pixels_for_length * b;
    let mut next: usize = 0;
    let length_chunks = read_bits_from_iter(
        pixels.as_slice(),
        &mut next,
        pixels_for_length,
        bits_per_channel,
    );
    let length_bit_vector = convert_vec_to_single_bit(length_chunks, bits_per_channel);
    proof {
        lemma_single_bits_of_pixels(pixels@, 0, pixels_for_length as int, bits_per_channel);
        assert(length_bit_vector@ == bit_bytes(carried.subrange(0, first)));
        assert(length_bit_vector@.subrange(0, 64) =~= bit_bytes(carried.take(64)));
        lemma_stream_bit_bytes(carried.take(64));
        lemma_stream_regroup(carried.take(64), 8);
        lemma_regroup_len(carried.take(64), 8);
        assert(carried.take(64) + zero_bits(0) =~= carried.take(64));
    }
    let length_bytes = combine_bits(slice_subrange(length_bit_vector.as_slice(), 0, 64), 1);
    let length = length_value(length_bytes.as_slice());
    assert(length == stored_length(pixels@, bits_per_channel));
    if length == 0 {
        return Ok(Vec::new());
    }
    let needed = match calculate_required_pixels(length, bits_per_channel, CARRIER_CHANNELS) {
        Some(amount) => amount,
        None => {
            return Err(DecodeError::InconsistentFraming);
        },
    };
    if needed > (count - next) as u64 {
        return Err(DecodeError::InconsistentFraming);
    }
    let message_chunks = read_bits_from_iter(
        pixels.as_slice(),
        &mut next,
        needed as usize,
        bits_per_channel,
    );
    let ghost end = 3 * (pixels_for_length + needed) * b;
    let mut message_bits = slice_to_vec(
        slice_subrange(length_bit_vector.as_slice(), 64, length_bit_vector.len()),
    );
    let more_bits = convert_vec_to_single_bit(message_chunks, bits_per_channel);
    proof {
        lemma_single_bits_of_pixels(
            pixels@,
            pixels_for_length as int,
            pixels_for_length + needed,
            bits_per_channel,
        );
        assert(more_bits@ == bit_bytes(carried.subrange(first, end)));
    }
    message_bits.extend_from_slice(more_bits.as_slice());
    proof {
        let payload_bits = carried.subrange(64, end);
        assert(message_bits@ =~= bit_bytes(payload_bits));
        lemma_stream_bit_bytes(payload_bits);
        lemma_ceil_div(length as nat * 8, bits_per_channel as nat * 3);
        let p = needed as int;
        assert(p * (b * 3) == 3 * p * b) by (nonlinear_arith);
        assert(3 * (pixels_for_length + p) * b == 3 * pixels_for_length * b + 3 * p * b)
            by (nonlinear_arith);
        lemma_regroup_take(payload_bits, 8, length as nat);
        assert(payload_bits.take(8 * length) =~= carried.subrange(64, 64 + 8 * length));
        lemma_regroup_len(carried.subrange(64, 64 + 8 * length), 8);
    }
    let mut bytes = combine_bits(message_bits.as_slice(), 1);
    bytes.truncate(length as usize);
    Ok(bytes)
}

/// The number of bits per channel that a request is held to: at most 8.
pub fn clamp_bits_per_channel(bits_per_channel: u8) -> (clamped: u8)
    ensures
        clamped == if bits_per_channel > 8 {
            8
        } else {
            bits_per_channel
        },
{
    if bits_per_channel > 8 {
        8
    } else {
        bits_per_channel
    }
}

/// Hides `message` in a copy of `container`, as `encode` does on the grid of
/// its pixels, and gives the copy as an image of 8-bit red, green, blue and
/// alpha.
pub fn hide_message(container: DynamicImage, message: &[u8], bits_per_channel: u8) -> (hidden:
    Result<RgbaBuffer, EncodeError>)
    ensures
        match hidden {
            Ok(buffer) => encode_spec(image_view(container), message@, bits_per_channel) == Ok::<
                GridView,
                EncodeError,
            >(buffer_view(buffer)),
            Err(error) => encode_spec(image_view(container), message@, bits_per_channel) == Err::<
                GridView,
                EncodeError,
            >(error),
        },
        hidden is Ok <==> valid_width(bits_per_channel as nat) && 0 < message@.len()
            <= capacity_spec(
            image_view(container).width,
            image_view(container).height,
            bits_per_channel,
        ),
{
    let grid = grid_of_image(&container);
    match encode(&grid, message, bits_per_channel) {
        Ok(encoded) => {
            proof {
                let w = encoded@.width as int;
                let h = encoded@.height as int;
                assert(w * h >= 1);
            }
            match buffer_of_grid(&encoded) {
                Some(buffer) => Ok(buffer),
                None => unreached(),
            }
        },
        Err(error) => Err(error),
    }
}

/// Reads the payload hidden in `container`, as `decode` does on the grid of
/// its pixels.
pub fn extract(container: DynamicImage, bits_per_channel: u8) -> (extracted: Result<
    Vec<u8>,
    DecodeError,
>)
    ensures
        decoded_view(extracted) == decode_spec(image_view(container), bits_per_channel),
{
    let grid = grid_of_image(&container);
    decode(&grid, bits_per_channel)
}

} // verus!
