//! Reading and replacing the low bits of a byte, and turning a sequence of
//! bytes into chunks of a few bits and back.

use vstd::arithmetic::div_mod::*;
use vstd::arithmetic::power2::*;
use vstd::bits::*;
use vstd::prelude::*;

use crate::bitstream::{
    bits_value, ceil_div, lemma_bits_value_bound, lemma_group_value_full,
    lemma_group_value_shift, lemma_low_bits_index, lemma_low_bits_len, lemma_regroup_append,
    lemma_regroup_len, lemma_regroup_stream_bytes, lemma_stream_len, lemma_stream_push,
    lemma_stream_regroup, lemma_zero_bits_value, low_bits, regroup, stream, valid_width,
    zero_bits,
};

verus! {

/// The low `amount` bits of `byte` as a number; 0 where `amount` is no valid
/// width.
pub open spec fn get_bits_spec(byte: u8, amount: u8) -> u8 {
    if valid_width(amount as nat) {
        (byte as nat % pow2(amount as nat)) as u8
    } else {
        0
    }
}

/// `byte` with its low `amount` bits replaced by those of `bits`; `byte`
/// itself where `amount` is no valid width.
pub open spec fn write_bits_spec(byte: u8, bits: u8, amount: u8) -> u8 {
    if valid_width(amount as nat) {
        ((byte as nat / pow2(amount as nat)) * pow2(amount as nat) + bits as nat % pow2(
            amount as nat,
        )) as u8
    } else {
        byte
    }
}

/// The chunks of `width` bits that `bytes` fall into; none where `width` is
/// no valid width.
pub open spec fn split_into_bits_spec(bytes: Seq<u8>, width: nat) -> Seq<u8> {
    if valid_width(width) {
        regroup(stream(bytes, 8), width)
    } else {
        Seq::empty()
    }
}

/// The bytes that the low `width` bits of each of `chunks` fall into; none
/// where `width` is no valid width.
pub open spec fn combine_bits_spec(chunks: Seq<u8>, width: nat) -> Seq<u8> {
    if valid_width(width) {
        regroup(stream(chunks, width), 8)
    } else {
        Seq::empty()
    }
}

/// The low `width` bits of each of `chunks`, one bit to a byte; none where
/// `width` is no valid width.
pub open spec fn single_bits_spec(chunks: Seq<u8>, width: nat) -> Seq<u8> {
    if valid_width(width) {
        regroup(stream(chunks, width), 1)
    } else {
        Seq::empty()
    }
}

/// The low `amount` bits of `byte`.
pub fn get_bits(byte: u8, amount: u8) -> (low: u8)
    ensures
        low == get_bits_spec(byte, amount),
{
    if amount == 0 || amount > 8 {
        return 0;
    }
    if amount == 8 {
        proof {
            lemma2_to64();
        }
        return byte;
    }
    proof {
        lemma2_to64();
        lemma_u8_shl_is_mul(1u8, amount);
        lemma_u8_low_bits_mask_is_mod(byte, amount as nat);
    }
    byte & ((1u8 << amount) - 1)
}

/// `byte` with its low `amount` bits replaced by the low `amount` bits of
/// `bits`.
pub fn write_bits(byte: u8, bits: u8, amount: u8) -> (written: u8)
    ensures
        written == write_bits_spec(byte, bits, amount),
{
    if amount == 0 || amount > 8 {
        return byte;
    }
    if amount == 8 {
        proof {
            lemma2_to64();
        }
        return bits;
    }
    proof {
        lemma2_to64();
        lemma_u8_shl_is_mul(1u8, amount);
    }
    let unit: u8 = 1u8 << amount;
    let mask: u8 = unit - 1;
    proof {
        assert((byte & !mask) | (bits & mask) == (byte / unit) * unit + bits % unit)
            by (bit_vector)
            requires
                1 <= amount < 8,
                unit == 1u8 << amount,
                mask == (unit - 1) as u8,
        ;
    }
    (byte & !mask) | (bits & mask)
}

/// What written bits leave of a byte: the bits above them stay, and reading
/// them back gives the low bits of what was written.
pub proof fn lemma_get_written_bits(byte: u8, bits: u8, amount: u8)
    requires
        valid_width(amount as nat),
    ensures
        get_bits_spec(write_bits_spec(byte, bits, amount), amount) == get_bits_spec(bits, amount),
        write_bits_spec(byte, bits, amount) as nat / pow2(amount as nat) == byte as nat / pow2(
            amount as nat,
        ),
{
    lemma2_to64();
    let size = pow2(amount as nat);
    let written = (byte as nat / size) * size + bits as nat % size;
    if amount < 8 {
        lemma_u8_shl_is_mul(1u8, amount);
        let unit: u8 = 1u8 << amount;
        assert(unit == size);
        assert((byte / unit) * unit + bits % unit < 256 && ((byte / unit) * unit + bits % unit)
            % (unit as int) == bits % unit && ((byte / unit) * unit + bits % unit) / (
        unit as int) == byte / unit) by (bit_vector)
            requires
                1 <= amount < 8,
                unit == 1u8 << amount,
        ;
        assert(written == (byte / unit) * unit + bits % unit);
    } else {
        assert(size == 256);
        assert(byte as nat / 256 == 0);
        assert(written == bits);
    }
    assert(written < 256 && written % size == bits as nat % size && written / size == byte as nat
        / size);
    assert(write_bits_spec(byte, bits, amount) == written);
}

/// Bit `k` of the low `width` bits of `elem`, picked with a shift and a mask.
proof fn lemma_pick_bit(elem: u8, width: u8, k: u8)
    requires
        valid_width(width as nat),
        k < width,
    ensures
        (elem >> ((width - 1 - k) as u8)) & 1 <= 1,
        ((elem >> ((width - 1 - k) as u8)) & 1 == 1) == low_bits(elem as nat, width as nat)[
            k as int
        ],
{
    let shift = (width - 1 - k) as u8;
    let moved = elem >> shift;
    lemma_u8_shr_is_div(elem, shift);
    lemma_low_bits_index(elem as nat, width as nat, k as int);
    assert(moved & 1 == moved % 2) by (bit_vector);
}

/// One more bit shifted in at the low end of a number.
proof fn lemma_shift_in(current: u8, bit: u8, pending: Seq<bool>)
    requires
        current == bits_value(pending),
        pending.len() < 8,
        bit <= 1,
    ensures
        (current << 1) | bit == bits_value(pending.push(bit == 1)),
{
    lemma_bits_value_bound(pending);
    lemma2_to64();
    if pending.len() < 7 {
        lemma_pow2_strictly_increases(pending.len(), 7);
    }
    assert(pending.push(bit == 1).drop_last() =~= pending);
    assert((current << 1) | bit == 2 * current + bit) by (bit_vector)
        requires
            current < 128,
            bit <= 1,
    ;
}

/// The groups of `out_width` bits that the low `in_width` bits of each of
/// `elems` fall into.
fn reblock(elems: &[u8], in_width: u8, out_width: u8) -> (groups: Vec<u8>)
    requires
        valid_width(in_width as nat),
        valid_width(out_width as nat),
    ensures
        groups@ == regroup(stream(elems@, in_width as nat), out_width as nat),
{
    let mut groups: Vec<u8> = Vec::new();
    let mut current: u8 = 0;
    let mut filled: u8 = 0;
    let ghost mut done: Seq<bool> = Seq::empty();
    let ghost mut pending: Seq<bool> = Seq::empty();
    let ghost mut count: nat = 0;
    proof {
        assert(done + pending =~= stream(elems@.take(0), in_width as nat));
        assert(0 * (out_width as nat) == 0) by (nonlinear_arith);
    }
    let mut i: usize = 0;
    while i < elems.len()
        invariant
            i <= elems.len(),
            valid_width(in_width as nat),
            valid_width(out_width as nat),
            done + pending == stream(elems@.take(i as int), in_width as nat),
            done.len() == count * out_width,
            groups@ == regroup(done, out_width as nat),
            pending.len() == filled,
            filled < out_width,
            current == bits_value(pending),
        decreases elems.len() - i,
    {
        let elem = elems[i];
        let ghost before = stream(elems@.take(i as int), in_width as nat);
        let ghost bits = low_bits(elem as nat, in_width as nat);
        proof {
            lemma_low_bits_len(elem as nat, in_width as nat);
            assert(done + pending =~= before + bits.take(0));
        }
        let mut k: u8 = 0;
        while k < in_width
            invariant
                k <= in_width,
                valid_width(in_width as nat),
                valid_width(out_width as nat),
                bits == low_bits(elem as nat, in_width as nat),
                bits.len() == in_width,
                done + pending == before + bits.take(k as int),
                done.len() == count * out_width,
                groups@ == regroup(done, out_width as nat),
                pending.len() == filled,
                filled < out_width,
                current == bits_value(pending),
            decreases in_width - k,
        {
            let bit = (elem >> (in_width - 1 - k)) & 1;
            proof {
                lemma_pick_bit(elem, in_width, k);
                lemma_shift_in(current, bit, pending);
                assert((bit == 1) == bits[k as int]);
                assert(bits.take(k + 1) =~= bits.take(k as int).push(bits[k as int]));
                assert(done + pending.push(bit == 1) =~= (done + pending).push(bit == 1));
                assert(done + pending.push(bit == 1) =~= before + bits.take(k + 1));
                pending = pending.push(bit == 1);
            }
            current = (current << 1) | bit;
            filled = filled + 1;
            if filled == out_width {
                groups.push(current);
                proof {
                    lemma_regroup_append(done, pending, out_width as nat, count);
                    lemma_group_value_full(pending, out_width as nat);
                    let c = count as int;
                    let w = out_width as int;
                    assert((c + 1) * w == c * w + w) by (nonlinear_arith);
                    assert((done + pending) + Seq::<bool>::empty() =~= done + pending);
                    done = done + pending;
                    pending = Seq::empty();
                    count = count + 1;
                }
                current = 0;
                filled = 0;
            }
            k = k + 1;
        }
        proof {
            assert(bits.take(in_width as int) =~= bits);
            assert(elems@.take(i + 1) =~= elems@.take(i as int).push(elem));
            lemma_stream_push(elems@.take(i as int), elem, in_width as nat);
        }
        i = i + 1;
    }
    proof {
        assert(elems@.take(elems.len() as int) =~= elems@);
    }
    if filled > 0 {
        proof {
            lemma_regroup_append(done, pending, out_width as nat, count);
            lemma_group_value_shift(pending, out_width as nat);
            lemma2_to64();
            lemma_u8_shl_is_mul(current, (out_width - filled) as u8);
        }
        current = current << (out_width - filled);
        groups.push(current);
    } else {
        proof {
            assert(done + pending =~= done);
        }
    }
    groups
}

/// Cuts the bits of `bytes`, most significant first, into chunks of
/// `bits_per_chunk` bits. A short last chunk holds its bits at its high end
/// and zero bits below them. Gives no chunks where `bits_per_chunk` is not in
/// 1..=8.
pub fn split_into_bits(bytes: &[u8], bits_per_chunk: u8) -> (chunks: Vec<u8>)
    ensures
        chunks@ == split_into_bits_spec(bytes@, bits_per_chunk as nat),
        valid_width(bits_per_chunk as nat) ==> chunks@.len() == ceil_div(
            8 * bytes@.len(),
            bits_per_chunk as nat,
        ),
{
    if bits_per_chunk == 0 || bits_per_chunk > 8 {
        return Vec::new();
    }
    proof {
        lemma_stream_len(bytes@, 8);
        lemma_regroup_len(stream(bytes@, 8), bits_per_chunk as nat);
    }
    reblock(bytes, 8, bits_per_chunk)
}

/// Joins the low `bits_per_chunk` bits of each of `chunks`, most significant
/// first, and cuts them into bytes. A short last byte holds its bits at its
/// high end and zero bits below them. Gives no bytes where `bits_per_chunk` is
/// not in 1..=8.
pub fn combine_bits(chunks: &[u8], bits_per_chunk: u8) -> (bytes: Vec<u8>)
    ensures
        bytes@ == combine_bits_spec(chunks@, bits_per_chunk as nat),
        valid_width(bits_per_chunk as nat) ==> bytes@.len() == ceil_div(
            chunks@.len() * bits_per_chunk as nat,
            8,
        ),
{
    if bits_per_chunk == 0 || bits_per_chunk > 8 {
        return Vec::new();
    }
    proof {
        lemma_stream_len(chunks@, bits_per_chunk as nat);
        lemma_regroup_len(stream(chunks@, bits_per_chunk as nat), 8);
    }
    reblock(chunks, bits_per_chunk, 8)
}

/// Spreads the low `bits_in_element` bits of each of `bits`, most significant
/// first, over one byte each, which is then 0 or 1. Gives no bytes where
/// `bits_in_element` is not in 1..=8.
pub fn convert_vec_to_single_bit(bits: Vec<u8>, bits_in_element: u8) -> (single: Vec<u8>)
    ensures
        single@ == single_bits_spec(bits@, bits_in_element as nat),
        valid_width(bits_in_element as nat) ==> single@.len() == bits@.len() * bits_in_element,
{
    if bits_in_element == 0 || bits_in_element > 8 {
        return Vec::new();
    }
    proof {
        lemma_stream_len(bits@, bits_in_element as nat);
        lemma_regroup_len(stream(bits@, bits_in_element as nat), 1);
    }
    reblock(bits.as_slice(), bits_in_element, 1)
}

/// Splitting bytes into chunks and combining the chunks gives the bytes back.
/// Where the bits of the bytes do not fill the last chunk, the zero bits that
/// filled it come back as one more byte, which is 0.
pub proof fn lemma_combine_split(bytes: Seq<u8>, width: nat)
    requires
        valid_width(width),
    ensures
        combine_bits_spec(split_into_bits_spec(bytes, width), width) == if (8 * bytes.len())
            % width == 0 {
            bytes
        } else {
            bytes.push(0u8)
        },
{
    let bits = stream(bytes, 8);
    let chunks = regroup(bits, width);
    let carried = stream(chunks, width);
    lemma_stream_len(bytes, 8);
    lemma_stream_regroup(bits, width);
    lemma_regroup_stream_bytes(bytes);
    let fill = (carried.len() - bits.len()) as nat;
    let n = bits.len() as int;
    let w = width as int;
    let m = chunks.len() as int;
    if fill == 0 {
        assert(carried =~= bits);
        lemma_mod_multiples_basic(m, w);
    } else {
        lemma_fundamental_div_mod(n, w);
        if n % w == 0 {
            let q = n / w;
            assert(w * q == q * w) by (nonlinear_arith);
            lemma_fundamental_div_mod_converse(n + fill, w, q, fill as int);
            lemma_mod_multiples_basic(m, w);
            assert(false);
        }
        lemma_regroup_append(bits, zero_bits(fill), 8, bytes.len());
        assert(zero_bits(fill) + zero_bits((8 - fill) as nat) =~= zero_bits(8));
        lemma_zero_bits_value(8);
    }
}

} // verus!
